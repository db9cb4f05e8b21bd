//! Application messages and their byte-exact records inside a datagram.
//!
//! A record is a 4-byte prefix (kind, order sequence, order channel, length)
//! followed by `length` payload bytes.

use vstd::prelude::*;

verus! {

/// Number of bytes in front of each message's payload.
pub const MESSAGE_HEADER_SIZE: usize = 4;

/// The longest payload that the one-byte length field can announce.
pub const MAX_PAYLOAD_SIZE: usize = 255;

/// Reliability and ordering class of a message.
#[derive(Clone, Copy, Debug, PartialEq, Eq, Structural)]
pub enum MessageKind {
    /// Sent once; dropped if its packet is lost.
    Instant,
    /// Sent again until a packet that carried it is acknowledged.
    Reliable,
    /// Reliable, and handed to the receiver in the order of sending within
    /// its channel.
    Ordered,
}

/// One application message as it travels.
#[derive(Debug)]
pub struct Message {
    pub kind: MessageKind,
    /// Ordering stream of an ordered message; zero otherwise.
    pub channel: u8,
    /// Position within the channel of an ordered message; zero otherwise.
    pub order: u8,
    pub data: Vec<u8>,
}

/// The mathematical value of a [`Message`].
pub struct MessageView {
    pub kind: MessageKind,
    pub channel: u8,
    pub order: u8,
    pub data: Seq<u8>,
}

impl View for Message {
    type V = MessageView;

    open spec fn view(&self) -> MessageView {
        MessageView { kind: self.kind, channel: self.channel, order: self.order, data: self.data@ }
    }
}

/// The values of a sequence of messages.
pub open spec fn views(messages: Seq<Message>) -> Seq<MessageView> {
    messages.map_values(|m: Message| m@)
}

/// The payloads of a sequence of messages.
pub open spec fn payloads(messages: Seq<MessageView>) -> Seq<Seq<u8>> {
    messages.map_values(|m: MessageView| m.data)
}

/// The byte that stands for a kind on the wire.
pub open spec fn kind_code(kind: MessageKind) -> u8 {
    match kind {
        MessageKind::Instant => 0u8,
        MessageKind::Reliable => 1u8,
        MessageKind::Ordered => 2u8,
    }
}

/// The kind that a byte on the wire stands for, if any.
pub open spec fn kind_of(code: u8) -> Option<MessageKind> {
    if code == 0 {
        Some(MessageKind::Instant)
    } else if code == 1 {
        Some(MessageKind::Reliable)
    } else if code == 2 {
        Some(MessageKind::Ordered)
    } else {
        None
    }
}

impl MessageView {
    /// Whether the payload is short enough for a record.
    pub open spec fn fits(self) -> bool {
        self.data.len() <= MAX_PAYLOAD_SIZE
    }

    /// Number of bytes that the record takes.
    pub open spec fn wire_len(self) -> nat {
        4 + self.data.len()
    }

    /// The record: prefix, then payload.
    pub open spec fn encoded(self) -> Seq<u8> {
        seq![kind_code(self.kind), self.order, self.channel, self.data.len() as u8] + self.data
    }
}

/// Whether every message is short enough for a record.
pub open spec fn all_fit(messages: Seq<MessageView>) -> bool {
    forall|i: int| 0 <= i < messages.len() ==> (#[trigger] messages[i]).fits()
}

/// The records of `messages`, one after another.
pub open spec fn encoded_all(messages: Seq<MessageView>) -> Seq<u8>
    decreases messages.len(),
{
    if messages.len() == 0 {
        Seq::empty()
    } else {
        messages[0].encoded() + encoded_all(messages.skip(1))
    }
}

/// Number of bytes that the records of `messages` take together.
pub open spec fn wire_size(messages: Seq<MessageView>) -> nat
    decreases messages.len(),
{
    if messages.len() == 0 {
        0
    } else {
        messages[0].wire_len() + wire_size(messages.skip(1))
    }
}

/// The messages that a datagram body holds. Records are read one after
/// another; a record of unknown kind is passed over; where fewer bytes are
/// left than a record announces, reading stops and the rest is discarded.
pub open spec fn parsed(bytes: Seq<u8>) -> Seq<MessageView>
    decreases bytes.len(),
{
    if bytes.len() < 4 || bytes.len() < 4 + bytes[3] {
        Seq::empty()
    } else {
        let rest = parsed(bytes.skip(4 + bytes[3]));
        match kind_of(bytes[0]) {
            Some(kind) => seq![
                MessageView {
                    kind,
                    order: bytes[1],
                    channel: bytes[2],
                    data: bytes.subrange(4, 4 + bytes[3]),
                },
            ] + rest,
            None => rest,
        }
    }
}

impl MessageKind {
    pub fn to_byte(self) -> (code: u8)
        ensures
            code == kind_code(self),
    {
        match self {
            MessageKind::Instant => 0,
            MessageKind::Reliable => 1,
            MessageKind::Ordered => 2,
        }
    }

    pub fn from_byte(code: u8) -> (kind: Option<MessageKind>)
        ensures
            kind == kind_of(code),
    {
        if code == 0 {
            Some(MessageKind::Instant)
        } else if code == 1 {
            Some(MessageKind::Reliable)
        } else if code == 2 {
            Some(MessageKind::Ordered)
        } else {
            None
        }
    }
}

impl Message {
    /// Number of bytes that the record of this message takes.
    pub fn wire_len(&self) -> (len: usize)
        requires
            self@.fits(),
        ensures
            len == self@.wire_len(),
    {
        self.data.len() + MESSAGE_HEADER_SIZE
    }

    /// Appends the record of this message to `out`.
    pub fn write(&self, out: &mut Vec<u8>)
        requires
            self@.fits(),
        ensures
            final(out)@ == old(out)@ + self@.encoded(),
    {
        out.push(self.kind.to_byte());
        out.push(self.order);
        out.push(self.channel);
        out.push(self.data.len() as u8);
        let ghost prefix = out@;
        assert(prefix =~= old(out)@ + self@.encoded().take(4));
        let mut i: usize = 0;
        while i < self.data.len()
            invariant
                i <= self.data@.len(),
                out@ == prefix + self.data@.take(i as int),
            decreases self.data@.len() - i,
        {
            out.push(self.data[i]);
            assert(self.data@.take(i + 1) =~= self.data@.take(i as int).push(self.data@[i as int]));
            i += 1;
        }
        assert(self.data@.take(i as int) =~= self.data@);
        assert(out@ =~= old(out)@ + self@.encoded());
    }
}

/// Copies the bytes of `bytes` from `start` up to `end`.
pub fn copy_range(bytes: &[u8], start: usize, end: usize) -> (out: Vec<u8>)
    requires
        start <= end <= bytes@.len(),
    ensures
        out@ == bytes@.subrange(start as int, end as int),
{
    let mut out: Vec<u8> = Vec::new();
    let mut i: usize = start;
    while i < end
        invariant
            start <= i <= end <= bytes@.len(),
            out@ == bytes@.subrange(start as int, i as int),
        decreases end - i,
    {
        out.push(bytes[i]);
        assert(bytes@.subrange(start as int, i + 1) =~= bytes@.subrange(start as int, i as int).push(
            bytes@[i as int],
        ));
        i += 1;
    }
    out
}

/// Reads the messages that a datagram body holds.
pub fn parse_messages(bytes: &[u8]) -> (messages: Vec<Message>)
    ensures
        views(messages@) == parsed(bytes@),
        all_fit(views(messages@)),
{
    let mut messages: Vec<Message> = Vec::new();
    let mut index: usize = 0;
    let total: usize = bytes.len();
    assert(bytes@.skip(0) =~= bytes@);
    assert(views(messages@) =~= Seq::empty());
    loop
        invariant
            index <= total == bytes@.len(),
            parsed(bytes@) == views(messages@) + parsed(bytes@.skip(index as int)),
            all_fit(views(messages@)),
        ensures
            views(messages@) == parsed(bytes@),
            all_fit(views(messages@)),
        decreases total - index,
    {
        let ghost rest = bytes@.skip(index as int);
        if total - index < MESSAGE_HEADER_SIZE {
            assert(parsed(rest) =~= Seq::empty());
            assert(views(messages@) + parsed(rest) =~= views(messages@));
            break ;
        }
        let length: usize = bytes[index + 3] as usize;
        assert(rest[3] == bytes@[index + 3]);
        if total - index - MESSAGE_HEADER_SIZE < length {
            assert(parsed(rest) =~= Seq::empty());
            assert(views(messages@) + parsed(rest) =~= views(messages@));
            break ;
        }
        let start: usize = index + MESSAGE_HEADER_SIZE;
        let end: usize = start + length;
        assert(rest.skip(4 + length) =~= bytes@.skip(end as int));
        match MessageKind::from_byte(bytes[index]) {
            Some(kind) => {
                let data = copy_range(bytes, start, end);
                let message = Message {
                    kind,
                    order: bytes[index + 1],
                    channel: bytes[index + 2],
                    data,
                };
                assert(rest.subrange(4, 4 + length) =~= bytes@.subrange(start as int, end as int));
                let ghost before = views(messages@);
                messages.push(message);
                assert(views(messages@) =~= before.push(message@));
                assert(parsed(rest) == seq![message@] + parsed(bytes@.skip(end as int)));
                assert(before + parsed(rest) =~= before.push(message@) + parsed(
                    bytes@.skip(end as int),
                ));
            },
            None => {
                assert(parsed(rest) == parsed(bytes@.skip(end as int)));
            },
        }
        index = end;
    }
    messages
}

/// Appends the records of `messages` to `out`.
pub fn write_messages(messages: &Vec<Message>, out: &mut Vec<u8>)
    requires
        all_fit(views(messages@)),
    ensures
        final(out)@ == old(out)@ + encoded_all(views(messages@)),
{
    let ghost all = views(messages@);
    let mut i: usize = 0;
    assert(old(out)@ + encoded_all(all.take(0)) =~= old(out)@);
    while i < messages.len()
        invariant
            i <= messages@.len(),
            all == views(messages@),
            all_fit(all),
            out@ == old(out)@ + encoded_all(all.take(i as int)),
        decreases messages@.len() - i,
    {
        assert(all[i as int] == messages@[i as int]@);
        assert(all[i as int].fits());
        messages[i].write(out);
        proof {
            lemma_encoded_push(all.take(i as int), all[i as int]);
            assert(all.take(i + 1) =~= all.take(i as int).push(all[i as int]));
            assert(old(out)@ + encoded_all(all.take(i as int)) + all[i as int].encoded() =~= old(
                out,
            )@ + (encoded_all(all.take(i as int)) + all[i as int].encoded()));
        }
        i += 1;
    }
    assert(all.take(i as int) =~= all);
}

/// The records of a sequence with one more message are the records of the
/// sequence followed by the record of that message.
pub proof fn lemma_encoded_push(messages: Seq<MessageView>, last: MessageView)
    ensures
        encoded_all(messages.push(last)) == encoded_all(messages) + last.encoded(),
        wire_size(messages.push(last)) == wire_size(messages) + last.wire_len(),
    decreases messages.len(),
{
    if messages.len() == 0 {
        let none = Seq::<MessageView>::empty();
        assert(messages.push(last).skip(1) =~= none);
        assert(encoded_all(none) =~= Seq::<u8>::empty());
        assert(wire_size(none) == 0);
        assert(encoded_all(messages.push(last)) =~= encoded_all(messages) + last.encoded());
    } else {
        lemma_encoded_push(messages.skip(1), last);
        assert(messages.push(last).skip(1) =~= messages.skip(1).push(last));
        assert(encoded_all(messages.push(last)) =~= encoded_all(messages) + last.encoded());
    }
}

/// The records of two sequences joined are the records of the first followed
/// by those of the second.
pub proof fn lemma_encoded_concat(first: Seq<MessageView>, second: Seq<MessageView>)
    ensures
        encoded_all(first + second) == encoded_all(first) + encoded_all(second),
        wire_size(first + second) == wire_size(first) + wire_size(second),
    decreases first.len(),
{
    if first.len() == 0 {
        assert(first + second =~= second);
        assert(encoded_all(first) + encoded_all(second) =~= encoded_all(second));
    } else {
        lemma_encoded_concat(first.skip(1), second);
        assert((first + second).skip(1) =~= first.skip(1) + second);
        assert(encoded_all(first + second) =~= encoded_all(first) + encoded_all(second));
    }
}

/// The records of messages take as many bytes as `wire_size` says.
pub proof fn lemma_encoded_len(messages: Seq<MessageView>)
    requires
        all_fit(messages),
    ensures
        encoded_all(messages).len() == wire_size(messages),
    decreases messages.len(),
{
    if messages.len() > 0 {
        assert(messages[0].fits());
        assert forall|i: int| 0 <= i < messages.skip(1).len() implies (#[trigger] messages.skip(
            1,
        )[i]).fits() by {
            assert(messages[i + 1].fits());
        }
        lemma_encoded_len(messages.skip(1));
    }
}

/// Reading a record followed by other bytes gives its message, then what the
/// other bytes hold.
pub proof fn lemma_parsed_record(message: MessageView, tail: Seq<u8>)
    requires
        message.fits(),
    ensures
        parsed(message.encoded() + tail) == seq![message] + parsed(tail),
{
    let bytes = message.encoded() + tail;
    let length = message.data.len() as int;
    assert(bytes[0] == kind_code(message.kind));
    assert(bytes[1] == message.order);
    assert(bytes[2] == message.channel);
    assert(bytes[3] == length as u8);
    assert(bytes.skip(4 + length) =~= tail);
    assert(bytes.subrange(4, 4 + length) =~= message.data);
    assert(kind_of(kind_code(message.kind)) == Some(message.kind));
}

/// Writing messages and reading the bytes back gives the same messages.
pub proof fn lemma_parse_encoded(messages: Seq<MessageView>)
    requires
        all_fit(messages),
    ensures
        parsed(encoded_all(messages)) == messages,
    decreases messages.len(),
{
    if messages.len() == 0 {
        assert(parsed(encoded_all(messages)) =~= messages);
    } else {
        assert(messages[0].fits());
        assert forall|i: int| 0 <= i < messages.skip(1).len() implies (#[trigger] messages.skip(
            1,
        )[i]).fits() by {
            assert(messages[i + 1].fits());
        }
        lemma_parse_encoded(messages.skip(1));
        lemma_parsed_record(messages[0], encoded_all(messages.skip(1)));
        assert(seq![messages[0]] + messages.skip(1) =~= messages);
    }
}

/// Every message read from bytes is short enough to be written again.
pub proof fn lemma_parsed_fit(bytes: Seq<u8>)
    ensures
        all_fit(parsed(bytes)),
    decreases bytes.len(),
{
    if bytes.len() < 4 || bytes.len() < 4 + bytes[3] {
    } else {
        lemma_parsed_fit(bytes.skip(4 + bytes[3]));
    }
}

} // verus!
