use rudp::ledger::{Ledger, SentPacket};
use rudp::message::{copy_range, parse_messages, write_messages, Message};
use rudp::queue::MessageQueue;
use rudp::sequence::{
    ack_bitfield, note_received, seq_bit_index, seq_distance, seq_is_more_recent, seq_successor,
    seq_was_acked,
};
use rudp::wire::{is_closure, is_well_framed, read_be32, write_be32, write_header};
use rudp::{Address, MessageKind};
use std::collections::VecDeque;

fn message(kind: MessageKind, channel: u8, order: u8, data: &[u8]) -> Message {
    Message { kind, channel, order, data: data.to_vec() }
}

fn fields(messages: &[Message]) -> Vec<(MessageKind, u8, u8, Vec<u8>)> {
    messages.iter().map(|m| (m.kind, m.channel, m.order, m.data.clone())).collect()
}

#[test]
fn kinds_have_their_bytes() {
    assert_eq!(MessageKind::Instant.to_byte(), 0);
    assert_eq!(MessageKind::Reliable.to_byte(), 1);
    assert_eq!(MessageKind::Ordered.to_byte(), 2);
    assert_eq!(MessageKind::from_byte(0), Some(MessageKind::Instant));
    assert_eq!(MessageKind::from_byte(1), Some(MessageKind::Reliable));
    assert_eq!(MessageKind::from_byte(2), Some(MessageKind::Ordered));
    for code in 3..=255u8 {
        assert_eq!(MessageKind::from_byte(code), None);
    }
}

#[test]
fn a_record_is_prefix_and_payload() {
    let mut out: Vec<u8> = vec![9];
    let hello = message(MessageKind::Ordered, 4, 200, b"Hello");
    assert_eq!(hello.wire_len(), 9);
    hello.write(&mut out);
    assert_eq!(out, vec![9, 2, 200, 4, 5, 72, 101, 108, 108, 111]);
    let empty = message(MessageKind::Instant, 0, 0, b"");
    assert_eq!(empty.wire_len(), 4);
    empty.write(&mut out);
    assert_eq!(out, vec![9, 2, 200, 4, 5, 72, 101, 108, 108, 111, 0, 0, 0, 0]);
}

#[test]
fn records_read_back_as_they_were_written() {
    let messages: Vec<Message> = vec![
        message(MessageKind::Instant, 0, 0, b"Foo"),
        message(MessageKind::Reliable, 1, 2, b""),
        message(MessageKind::Ordered, 255, 255, &[7; 255]),
        message(MessageKind::Ordered, 3, 4, b"x"),
    ];
    let mut bytes: Vec<u8> = Vec::new();
    write_messages(&messages, &mut bytes);
    assert_eq!(bytes.len(), 7 + 4 + 259 + 5);
    assert_eq!(fields(&parse_messages(&bytes)), fields(&messages));
}

#[test]
fn reading_stops_at_a_record_that_is_cut_short() {
    assert_eq!(parse_messages(&[]).len(), 0);
    assert_eq!(parse_messages(&[0, 0, 0]).len(), 0);
    assert_eq!(parse_messages(&[0, 0, 0, 1]).len(), 0);
    assert_eq!(parse_messages(&[0, 0, 0, 255, 1, 2, 3]).len(), 0);
    let read = parse_messages(&[1, 5, 6, 2, 10, 11, 0, 0, 0, 3, 1, 2]);
    assert_eq!(fields(&read), vec![(MessageKind::Reliable, 6, 5, vec![10, 11])]);
}

#[test]
fn reading_passes_over_unknown_kinds() {
    let read = parse_messages(&[3, 0, 0, 1, 9, 2, 1, 0, 0, 255, 0, 0, 0, 0, 0, 0, 0]);
    assert_eq!(
        fields(&read),
        vec![(MessageKind::Ordered, 0, 1, vec![]), (MessageKind::Instant, 0, 0, vec![])]
    );
}

#[test]
fn copy_range_copies_what_is_asked() {
    assert_eq!(copy_range(&[1, 2, 3, 4], 1, 3), vec![2, 3]);
    assert_eq!(copy_range(&[1, 2, 3, 4], 0, 4), vec![1, 2, 3, 4]);
    assert_eq!(copy_range(&[1, 2, 3, 4], 4, 4), Vec::<u8>::new());
}

#[test]
fn numbers_are_written_most_significant_byte_first() {
    let mut out: Vec<u8> = Vec::new();
    write_be32(0x0102_03ff, &mut out);
    write_be32(0, &mut out);
    write_be32(u32::MAX, &mut out);
    assert_eq!(out, vec![1, 2, 3, 255, 0, 0, 0, 0, 255, 255, 255, 255]);
    assert_eq!(read_be32(1, 2, 3, 255), 0x0102_03ff);
    assert_eq!(read_be32(0, 0, 0, 0), 0);
    assert_eq!(read_be32(255, 255, 255, 255), u32::MAX);
    assert_eq!(read_be32(0x55, 0x55, 0x55, 0x55), 0x5555_5555);
}

#[test]
fn a_header_has_fourteen_bytes() {
    assert_eq!(
        write_header(&[1, 2, 3, 4], 0xa1b2_c3d4, 17, 27, 0x0000_0380),
        vec![1, 2, 3, 4, 0xa1, 0xb2, 0xc3, 0xd4, 17, 27, 0, 0, 3, 128]
    );
}

#[test]
fn framing_needs_a_header_and_the_protocol_bytes() {
    let tag: [u8; 4] = [1, 2, 3, 4];
    assert!(is_well_framed(&[1, 2, 3, 4, 0, 0, 0, 0, 0, 0, 0, 0, 0, 0], &tag));
    assert!(is_well_framed(&[1, 2, 3, 4, 0, 0, 0, 0, 0, 0, 0, 0, 0, 0, 9], &tag));
    assert!(!is_well_framed(&[1, 2, 3, 4, 0, 0, 0, 0, 0, 0, 0, 0, 0], &tag));
    for i in 0..4 {
        let mut packet: [u8; 14] = [1, 2, 3, 4, 0, 0, 0, 0, 0, 0, 0, 0, 0, 0];
        packet[i] = 0;
        assert!(!is_well_framed(&packet, &tag));
    }
}

#[test]
fn the_closure_packet_is_recognised() {
    assert!(is_closure(&[1, 2, 3, 4, 9, 9, 9, 9, 0, 128, 85, 85, 85, 85]));
    assert!(is_closure(&[1, 2, 3, 4, 9, 9, 9, 9, 0, 128, 85, 85, 85, 85, 1]));
    assert!(!is_closure(&[1, 2, 3, 4, 9, 9, 9, 9, 0, 128, 85, 85, 85]));
    for i in 8..14 {
        let mut packet: [u8; 14] = [1, 2, 3, 4, 9, 9, 9, 9, 0, 128, 85, 85, 85, 85];
        packet[i] = 1;
        assert!(!is_closure(&packet));
    }
}

#[test]
fn sequence_numbers_wrap() {
    assert_eq!(seq_successor(0), 1);
    assert_eq!(seq_successor(254), 255);
    assert_eq!(seq_successor(255), 0);
    assert_eq!(seq_distance(3, 10), 7);
    assert_eq!(seq_distance(10, 3), 249);
    assert_eq!(seq_distance(255, 0), 1);
    assert_eq!(seq_distance(7, 7), 0);
}

#[test]
fn more_recent_means_at_most_half_the_numbers_ahead() {
    assert!(seq_is_more_recent(1, 0));
    assert!(seq_is_more_recent(0, 255));
    assert!(seq_is_more_recent(128, 0));
    assert!(!seq_is_more_recent(129, 0));
    assert!(!seq_is_more_recent(0, 0));
    assert!(!seq_is_more_recent(0, 1));
    assert!(seq_is_more_recent(0, 128));
    assert!(!seq_is_more_recent(0, 127));
    assert!(seq_is_more_recent(10, 200));
}

#[test]
fn the_bitfield_reports_the_32_numbers_before_the_acknowledged_one() {
    assert_eq!(seq_bit_index(26, 27), 0);
    assert_eq!(seq_bit_index(19, 27), 7);
    assert_eq!(seq_bit_index(255, 0), 0);
    assert_eq!(seq_bit_index(250, 3), 8);
    assert_eq!(seq_bit_index(28, 27), 254);
    assert!(seq_was_acked(27, 27, 0));
    assert!(seq_was_acked(26, 27, 1));
    assert!(!seq_was_acked(26, 27, 2));
    assert!(seq_was_acked(251, 27, 1 << 31));
    assert!(!seq_was_acked(250, 27, u32::MAX));
    assert!(!seq_was_acked(28, 27, u32::MAX));
    assert!(seq_was_acked(255, 0, 1));
}

#[test]
fn the_bitfield_is_built_from_what_arrived() {
    let received: VecDeque<u8> = VecDeque::from(vec![27, 19, 18, 17]);
    assert_eq!(ack_bitfield(&received, 27), 0x0000_0380);
    assert_eq!(ack_bitfield(&received, 19), 0x0000_0003);
    assert_eq!(ack_bitfield(&received, 17), 0);
    assert_eq!(ack_bitfield(&VecDeque::new(), 0), 0);
    let doubled: VecDeque<u8> = VecDeque::from(vec![1, 1, 0, 0, 255, 223, 224]);
    assert_eq!(ack_bitfield(&doubled, 0), 0x8000_0001);
}

#[test]
fn the_record_holds_what_arrived_within_the_window() {
    let mut received: VecDeque<u8> = VecDeque::new();
    let mut newest: u8 = 0;
    let mut heard: bool = false;
    for seq in 0..40u8 {
        newest = note_received(&mut received, heard, newest, seq);
        heard = true;
    }
    assert_eq!(newest, 39);
    assert_eq!(received.len(), 32);
    assert_eq!(received.iter().copied().min(), Some(7));
    assert_eq!(received.iter().copied().max(), Some(38));
    assert_eq!(ack_bitfield(&received, newest), u32::MAX);

    // an older number that is there, one that is missing from the window
    // and one outside it
    assert_eq!(note_received(&mut received, true, newest, 20), 39);
    assert_eq!(received.len(), 32);
    let mut sparse: VecDeque<u8> = VecDeque::from(vec![38, 36]);
    assert_eq!(note_received(&mut sparse, true, 39, 37), 39);
    assert_eq!(sparse, VecDeque::from(vec![38, 36, 37]));
    assert_eq!(note_received(&mut sparse, true, 39, 6), 39);
    assert_eq!(note_received(&mut sparse, true, 39, 39), 39);
    assert_eq!(sparse, VecDeque::from(vec![38, 36, 37]));

    // a newer number takes the newest so far into the record
    assert_eq!(note_received(&mut sparse, true, 39, 70), 70);
    assert_eq!(sparse, VecDeque::from(vec![38, 39]));
    assert_eq!(ack_bitfield(&sparse, 70), 0xc000_0000);

    // the first number of all starts an empty record
    assert_eq!(note_received(&mut sparse, false, 0, 9), 9);
    assert_eq!(sparse.len(), 0);
}

#[test]
fn the_queue_fills_packets_by_priority() {
    let mut queue = MessageQueue::new();
    queue.send(MessageKind::Ordered, 5, b"o".to_vec());
    queue.send(MessageKind::Reliable, 5, b"r".to_vec());
    queue.send(MessageKind::Instant, 5, b"i".to_vec());
    assert_eq!(queue.outgoing_len(), 3);
    let mut out: Vec<u8> = Vec::new();
    let kept = queue.write_packet(&mut out, 10);
    assert_eq!(out, vec![0, 0, 0, 1, 105, 1, 0, 0, 1, 114]);
    assert_eq!(fields(&kept), vec![(MessageKind::Reliable, 0, 0, b"r".to_vec())]);
    assert_eq!(queue.outgoing_len(), 1);
    let kept = queue.write_packet(&mut out, 4);
    assert_eq!(kept.len(), 0);
    assert_eq!(out.len(), 10);
    let kept = queue.write_packet(&mut out, 5);
    assert_eq!(fields(&kept), vec![(MessageKind::Ordered, 5, 0, b"o".to_vec())]);
    assert_eq!(&out[10..], &[2, 0, 5, 1, 111]);
}

#[test]
fn the_queue_takes_lost_messages_back_in_front() {
    let mut queue = MessageQueue::new();
    queue.send(MessageKind::Reliable, 0, b"new".to_vec());
    queue.requeue(vec![
        message(MessageKind::Reliable, 0, 0, b"a"),
        message(MessageKind::Instant, 0, 0, b"gone"),
        message(MessageKind::Ordered, 1, 9, b"b"),
        message(MessageKind::Reliable, 0, 0, b"c"),
    ]);
    let mut out: Vec<u8> = Vec::new();
    let kept = queue.write_packet(&mut out, 1000);
    assert_eq!(
        fields(&kept),
        vec![
            (MessageKind::Reliable, 0, 0, b"a".to_vec()),
            (MessageKind::Reliable, 0, 0, b"c".to_vec()),
            (MessageKind::Reliable, 0, 0, b"new".to_vec()),
            (MessageKind::Ordered, 1, 9, b"b".to_vec()),
        ]
    );
}

#[test]
fn the_queue_puts_ordered_messages_in_order() {
    let mut queue = MessageQueue::new();
    queue.accept(message(MessageKind::Ordered, 0, 2, b"c"));
    queue.accept(message(MessageKind::Reliable, 0, 7, b"r"));
    queue.accept(message(MessageKind::Ordered, 0, 1, b"b"));
    assert_eq!(queue.inbox_len(), 1);
    queue.accept(message(MessageKind::Ordered, 0, 0, b"a"));
    assert_eq!(queue.inbox_len(), 4);
    assert_eq!(
        queue.received(),
        vec![b"r".to_vec(), b"a".to_vec(), b"b".to_vec(), b"c".to_vec()]
    );
    queue.receive(&[2, 3, 0, 1, 100, 0, 0, 0, 1, 105]);
    queue.dismiss();
    assert_eq!(queue.inbox_len(), 0);
    queue.receive(&[2, 4, 0, 1, 101]);
    assert_eq!(queue.received(), vec![b"e".to_vec()]);
    queue.reset();
    queue.receive(&[2, 0, 0, 1, 102]);
    assert_eq!(queue.received(), vec![b"f".to_vec()]);
}

fn entry(seq: u8, time: u64, data: &[u8]) -> SentPacket {
    SentPacket {
        seq,
        time,
        messages: vec![message(MessageKind::Reliable, 0, 0, data)],
        block: data.to_vec(),
    }
}

#[test]
fn the_ledger_settles_each_packet_by_its_fate() {
    let mut ledger = Ledger::new();
    ledger.record(entry(0, 0, b"a"));
    ledger.record(entry(1, 10, b"b"));
    ledger.record(entry(2, 20, b"c"));
    ledger.record(entry(3, 95, b"d"));
    assert_eq!(ledger.len(), 4);
    // acknowledges 2 and, by the second bit, 0; the threshold gives up 1
    let settled = ledger.settle(2, 2, 100, 30, 50);
    assert_eq!(settled.samples, vec![70, 50]);
    assert_eq!(fields(&settled.lost_messages), vec![(MessageKind::Reliable, 0, 0, b"b".to_vec())]);
    assert_eq!(settled.lost_blocks, vec![b"b".to_vec()]);
    assert_eq!(ledger.len(), 1);
    let settled = ledger.settle(3, 0, 100, 0, 50);
    assert_eq!(settled.samples, vec![5]);
    assert_eq!(ledger.len(), 0);
}

#[test]
fn the_ledger_replaces_a_packet_of_the_same_number() {
    let mut ledger = Ledger::new();
    ledger.record(entry(0, 0, b"old"));
    ledger.record(entry(1, 0, b"b"));
    ledger.record(entry(0, 60, b"new"));
    assert_eq!(ledger.len(), 2);
    let settled = ledger.settle(9, 0, 100, 0, 50);
    assert_eq!(settled.lost_blocks, vec![b"b".to_vec()]);
    assert_eq!(ledger.len(), 1);
    let settled = ledger.settle(9, 0, 200, 0, 50);
    assert_eq!(settled.lost_blocks, vec![b"new".to_vec()]);
    ledger.record(entry(5, 0, b"x"));
    ledger.clear();
    assert_eq!(ledger.len(), 0);
}

#[test]
fn addresses_hold_ipv4_hosts_in_mapped_form() {
    let address = Address::v4(255, 1, 1, 2, 5678);
    assert_eq!(address.host, 0xffff_ff01_0102);
    assert_eq!(address.port, 5678);
    assert_eq!(address.v4_octets(), Some((255, 1, 1, 2)));
    assert_eq!(Address::v4(0, 0, 0, 0, 0).v4_octets(), Some((0, 0, 0, 0)));
    assert_eq!(Address::new(1, 80).v4_octets(), None);
    assert_eq!(Address::new(0x1_ffff_0000_0000, 80).v4_octets(), None);
    assert_eq!(Address::new(0xffff_0a00_0001, 80), Address::v4(10, 0, 0, 1, 80));
}
