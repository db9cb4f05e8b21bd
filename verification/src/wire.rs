//! The 14-byte packet header: protocol header, connection identifier, local
//! sequence number, acknowledged remote sequence number and acknowledgment
//! bitfield, numbers in big-endian order.

use vstd::prelude::*;

verus! {

/// Number of bytes in a packet header.
pub const PACKET_HEADER_SIZE: usize = 14;

/// Sequence byte of the packet that announces a closed connection.
pub const CLOSURE_SEQUENCE: u8 = 0;

/// Acknowledgment byte of the packet that announces a closed connection.
pub const CLOSURE_ACK: u8 = 128;

/// Bitfield of the packet that announces a closed connection: every second
/// bit set.
pub const CLOSURE_BITFIELD: u32 = 0x5555_5555;

/// The four bytes of a number, most significant first.
pub open spec fn be32(number: u32) -> Seq<u8> {
    seq![
        (number / 0x100_0000) as u8,
        ((number / 0x1_0000) % 0x100) as u8,
        ((number / 0x100) % 0x100) as u8,
        (number % 0x100) as u8,
    ]
}

/// The number whose bytes, most significant first, are `b0` to `b3`.
pub open spec fn from_be32(b0: u8, b1: u8, b2: u8, b3: u8) -> u32 {
    (b0 * 0x100_0000 + b1 * 0x1_0000 + b2 * 0x100 + b3) as u32
}

/// The header of a packet.
pub open spec fn header_bytes(tag: Seq<u8>, id: u32, sequence: u8, ack: u8, bitfield: u32) -> Seq<
    u8,
> {
    tag + be32(id) + seq![sequence, ack] + be32(bitfield)
}

/// The packet that announces a closed connection.
pub open spec fn closure_bytes(tag: Seq<u8>, id: u32) -> Seq<u8> {
    header_bytes(tag, id, CLOSURE_SEQUENCE, CLOSURE_ACK, CLOSURE_BITFIELD)
}

/// Whether a packet is long enough for a header and starts with `tag`.
pub open spec fn well_framed(packet: Seq<u8>, tag: Seq<u8>) -> bool {
    packet.len() >= PACKET_HEADER_SIZE && packet.take(4) == tag
}

/// Whether a packet with a header announces a closed connection.
pub open spec fn announces_closure(packet: Seq<u8>) -> bool {
    packet.len() >= PACKET_HEADER_SIZE && packet.subrange(8, 14) == seq![
        0u8,
        128u8,
        85u8,
        85u8,
        85u8,
        85u8,
    ]
}

/// The connection identifier in the header of a packet.
pub open spec fn id_field(packet: Seq<u8>) -> u32
    recommends
        packet.len() >= PACKET_HEADER_SIZE,
{
    from_be32(packet[4], packet[5], packet[6], packet[7])
}

/// The sender's sequence number in the header of a packet.
pub open spec fn sequence_field(packet: Seq<u8>) -> u8
    recommends
        packet.len() >= PACKET_HEADER_SIZE,
{
    packet[8]
}

/// The acknowledged sequence number in the header of a packet.
pub open spec fn ack_field(packet: Seq<u8>) -> u8
    recommends
        packet.len() >= PACKET_HEADER_SIZE,
{
    packet[9]
}

/// The acknowledgment bitfield in the header of a packet.
pub open spec fn bitfield_field(packet: Seq<u8>) -> u32
    recommends
        packet.len() >= PACKET_HEADER_SIZE,
{
    from_be32(packet[10], packet[11], packet[12], packet[13])
}

/// What follows the header of a packet.
pub open spec fn body(packet: Seq<u8>) -> Seq<u8>
    recommends
        packet.len() >= PACKET_HEADER_SIZE,
{
    packet.skip(PACKET_HEADER_SIZE as int)
}

/// Appends the four bytes of `number`, most significant first.
pub fn write_be32(number: u32, out: &mut Vec<u8>)
    ensures
        final(out)@ == old(out)@ + be32(number),
{
    out.push((number / 0x100_0000) as u8);
    out.push(((number / 0x1_0000) % 0x100) as u8);
    out.push(((number / 0x100) % 0x100) as u8);
    out.push((number % 0x100) as u8);
    assert(out@ =~= old(out)@ + be32(number));
}

/// The number whose bytes, most significant first, are `b0` to `b3`.
pub fn read_be32(b0: u8, b1: u8, b2: u8, b3: u8) -> (number: u32)
    ensures
        number == from_be32(b0, b1, b2, b3),
        be32(number) == seq![b0, b1, b2, b3],
{
    let number: u32 = (b0 as u32) * 0x100_0000 + (b1 as u32) * 0x1_0000 + (b2 as u32) * 0x100 + (
    b3 as u32);
    assert(number / 0x100_0000 == b0 && (number / 0x1_0000) % 0x100 == b1 && (number / 0x100)
        % 0x100 == b2 && number % 0x100 == b3) by (bit_vector)
        requires
            number == (b0 as u32) * 0x100_0000 + (b1 as u32) * 0x1_0000 + (b2 as u32) * 0x100 + (
            b3 as u32),
    ;
    assert(be32(number) =~= seq![b0, b1, b2, b3]);
    number
}

/// Builds the header of a packet.
pub fn write_header(tag: &[u8; 4], id: u32, sequence: u8, ack: u8, bitfield: u32) -> (header: Vec<
    u8,
>)
    ensures
        header@ == header_bytes(tag@, id, sequence, ack, bitfield),
        header@.len() == PACKET_HEADER_SIZE,
{
    let mut header: Vec<u8> = Vec::with_capacity(PACKET_HEADER_SIZE);
    header.push(tag[0]);
    header.push(tag[1]);
    header.push(tag[2]);
    header.push(tag[3]);
    assert(header@ =~= tag@);
    write_be32(id, &mut header);
    header.push(sequence);
    header.push(ack);
    assert(header@ =~= tag@ + be32(id) + seq![sequence, ack]);
    write_be32(bitfield, &mut header);
    header
}

/// Whether `packet` is long enough for a header and starts with `tag`.
pub fn is_well_framed(packet: &[u8], tag: &[u8; 4]) -> (ok: bool)
    ensures
        ok == well_framed(packet@, tag@),
{
    if packet.len() < PACKET_HEADER_SIZE {
        return false;
    }
    let ok = packet[0] == tag[0] && packet[1] == tag[1] && packet[2] == tag[2] && packet[3]
        == tag[3];
    assert(ok == (packet@.take(4) =~= tag@)) by {
        if packet@.take(4) =~= tag@ {
            assert(packet@.take(4)[0] == tag@[0]);
            assert(packet@.take(4)[1] == tag@[1]);
            assert(packet@.take(4)[2] == tag@[2]);
            assert(packet@.take(4)[3] == tag@[3]);
        }
    }
    ok
}

/// Whether `packet` announces a closed connection.
pub fn is_closure(packet: &[u8]) -> (closure: bool)
    ensures
        closure == announces_closure(packet@),
{
    if packet.len() < PACKET_HEADER_SIZE {
        return false;
    }
    let closure = packet[8] == 0 && packet[9] == 128 && packet[10] == 85 && packet[11] == 85
        && packet[12] == 85 && packet[13] == 85;
    let ghost marker = seq![0u8, 128u8, 85u8, 85u8, 85u8, 85u8];
    assert(closure == (packet@.subrange(8, 14) =~= marker)) by {
        let part = packet@.subrange(8, 14);
        if part =~= marker {
            assert(part[0] == marker[0]);
            assert(part[1] == marker[1]);
            assert(part[2] == marker[2]);
            assert(part[3] == marker[3]);
            assert(part[4] == marker[4]);
            assert(part[5] == marker[5]);
        }
    }
    closure
}

/// Reading a header back gives the numbers that it was built from.
pub proof fn lemma_header_fields(tag: Seq<u8>, id: u32, sequence: u8, ack: u8, bitfield: u32)
    requires
        tag.len() == 4,
    ensures
        header_bytes(tag, id, sequence, ack, bitfield).len() == PACKET_HEADER_SIZE,
        well_framed(header_bytes(tag, id, sequence, ack, bitfield), tag),
        id_field(header_bytes(tag, id, sequence, ack, bitfield)) == id,
        sequence_field(header_bytes(tag, id, sequence, ack, bitfield)) == sequence,
        ack_field(header_bytes(tag, id, sequence, ack, bitfield)) == ack,
        bitfield_field(header_bytes(tag, id, sequence, ack, bitfield)) == bitfield,
{
    let h = header_bytes(tag, id, sequence, ack, bitfield);
    assert(h.take(4) =~= tag);
    assert(h[4] == be32(id)[0]);
    assert(h[5] == be32(id)[1]);
    assert(h[6] == be32(id)[2]);
    assert(h[7] == be32(id)[3]);
    assert(h[10] == be32(bitfield)[0]);
    assert(h[11] == be32(bitfield)[1]);
    assert(h[12] == be32(bitfield)[2]);
    assert(h[13] == be32(bitfield)[3]);
}

/// The closure packet is the header with sequence 0, acknowledgment 128 and
/// the four bytes `0x55`, and it is recognised as one.
pub proof fn lemma_closure_bytes(tag: Seq<u8>, id: u32)
    requires
        tag.len() == 4,
    ensures
        closure_bytes(tag, id) == tag + be32(id) + seq![0u8, 128u8, 85u8, 85u8, 85u8, 85u8],
        announces_closure(closure_bytes(tag, id)),
{
    let c = closure_bytes(tag, id);
    assert(be32(CLOSURE_BITFIELD) =~= seq![85u8, 85u8, 85u8, 85u8]);
    assert(c =~= tag + be32(id) + seq![0u8, 128u8, 85u8, 85u8, 85u8, 85u8]);
    assert(c.subrange(8, 14) =~= seq![0u8, 128u8, 85u8, 85u8, 85u8, 85u8]);
}

} // verus!
