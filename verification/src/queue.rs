//! The messages of one connection: three queues of messages waiting to be
//! sent, the inbox of received messages, and the buffer in which ordered
//! messages wait for the ones before them.

use crate::message::{
    all_fit, encoded_all, lemma_encoded_push, parse_messages, parsed, payloads, views, wire_size,
    Message, MessageKind, MessageView, MAX_PAYLOAD_SIZE,
};
use crate::sequence::{
    advanced, distance, precedes, seq_is_more_recent, seq_successor, successor,
};
use std::collections::VecDeque;
use vstd::prelude::*;

verus! {

/// Number of independent ordering channels.
pub const CHANNELS: usize = 256;

/// Whether every message of a queue fits a record and is of the queue's kind.
pub open spec fn queue_of(messages: Seq<MessageView>, kind: MessageKind) -> bool {
    forall|i: int|
        0 <= i < messages.len() ==> (#[trigger] messages[i]).fits() && messages[i].kind == kind
}

/// How many messages from the front of `messages` go into `room` bytes: the
/// messages are taken one by one until the next one would not fit.
pub open spec fn fitting(messages: Seq<MessageView>, room: int) -> nat
    decreases messages.len(),
{
    if messages.len() == 0 || messages[0].wire_len() > room {
        0
    } else {
        1 + fitting(messages.skip(1), room - messages[0].wire_len())
    }
}

/// The messages of `messages` that are of `kind`, in their order.
pub open spec fn of_kind(messages: Seq<MessageView>, kind: MessageKind) -> Seq<MessageView>
    decreases messages.len(),
{
    if messages.len() == 0 {
        Seq::empty()
    } else {
        of_kind(messages.drop_last(), kind) + if messages.last().kind == kind {
            seq![messages.last()]
        } else {
            Seq::empty()
        }
    }
}

/// Where in `pending` the first message of `channel` with order `order`
/// stands; the length of `pending` where there is none.
pub open spec fn position(pending: Seq<MessageView>, channel: u8, order: u8) -> int
    decreases pending.len(),
{
    if pending.len() == 0 {
        0
    } else if pending[0].channel == channel && pending[0].order == order {
        0
    } else {
        1 + position(pending.skip(1), channel, order)
    }
}

/// The orders of the ordered messages of `channel` among `messages`, in
/// their order.
pub open spec fn orders_on(messages: Seq<MessageView>, channel: u8) -> Seq<u8>
    decreases messages.len(),
{
    if messages.len() == 0 {
        Seq::empty()
    } else {
        orders_on(messages.drop_last(), channel) + if messages.last().kind == MessageKind::Ordered
            && messages.last().channel == channel {
            seq![messages.last().order]
        } else {
            Seq::empty()
        }
    }
}

/// Whether `orders` count up one by one from `start`, modulo 256.
pub open spec fn counts_from(orders: Seq<u8>, start: u8) -> bool {
    forall|i: int| 0 <= i < orders.len() ==> #[trigger] orders[i] == advanced(start, i as nat)
}

/// The mathematical value of a [`MessageQueue`].
#[verifier::ext_equal]
pub struct QueueView {
    /// Instant messages waiting to be sent, oldest first.
    pub instant: Seq<MessageView>,
    /// Reliable messages waiting to be sent, oldest first.
    pub reliable: Seq<MessageView>,
    /// Ordered messages waiting to be sent, oldest first.
    pub ordered: Seq<MessageView>,
    /// Received messages that the application has not fetched yet.
    pub inbox: Seq<MessageView>,
    /// For each channel, the order that the next ordered message sent on it
    /// gets.
    pub local_order: Seq<u8>,
    /// For each channel, the order of the message that the inbox takes next.
    pub remote_order: Seq<u8>,
    /// Received ordered messages that wait for earlier ones.
    pub pending: Seq<MessageView>,
}

impl QueueView {
    /// What holds of the queues whatever state the reassembly is in: every
    /// channel has its two counters, the waiting messages are of the kind
    /// of their queue and fit their records, and only ordered messages
    /// wait for earlier ones.
    pub open spec fn sound(self) -> bool {
        &&& self.local_order.len() == CHANNELS
        &&& self.remote_order.len() == CHANNELS
        &&& queue_of(self.instant, MessageKind::Instant)
        &&& queue_of(self.reliable, MessageKind::Reliable)
        &&& queue_of(self.ordered, MessageKind::Ordered)
        &&& forall|i: int|
            0 <= i < self.pending.len() ==> (#[trigger] self.pending[i]).kind == MessageKind::Ordered
    }

    /// Whether no two pending messages share channel and order.
    pub open spec fn pending_distinct(self) -> bool {
        forall|i: int, j: int|
            0 <= i < j < self.pending.len() ==> !((#[trigger] self.pending[i]).channel == (
            #[trigger] self.pending[j]).channel && self.pending[i].order == self.pending[j].order)
    }

    /// Whether every pending message is ahead of what its channel expects,
    /// by half of the orders at most, and no two of them share channel and
    /// order.
    pub open spec fn ahead(self) -> bool {
        &&& self.pending_distinct()
        &&& forall|i: int|
            0 <= i < self.pending.len() ==> precedes(
                self.remote_order[(#[trigger] self.pending[i]).channel as int],
                self.pending[i].order,
            )
    }

    /// Whether `channel` is being drained: its pending messages are what
    /// the channel expects or ahead of it, those of the other channels are
    /// ahead of what theirs expect, and no two share channel and order.
    pub open spec fn draining(self, channel: u8) -> bool {
        &&& self.pending_distinct()
        &&& forall|i: int|
            0 <= i < self.pending.len() ==> if (#[trigger] self.pending[i]).channel == channel {
                distance(self.remote_order[channel as int], self.pending[i].order) <= 127
            } else {
                precedes(
                    self.remote_order[self.pending[i].channel as int],
                    self.pending[i].order,
                )
            }
    }

    /// A well-formed queue: sound, and with a reassembly buffer that holds
    /// each message once and only messages that are still to come.
    pub open spec fn wf(self) -> bool {
        self.sound() && self.ahead()
    }

    /// A queue that holds nothing and has sent and received nothing.
    pub open spec fn initial() -> QueueView {
        QueueView {
            instant: Seq::empty(),
            reliable: Seq::empty(),
            ordered: Seq::empty(),
            inbox: Seq::empty(),
            local_order: Seq::new(CHANNELS as nat, |c: int| 0u8),
            remote_order: Seq::new(CHANNELS as nat, |c: int| 0u8),
            pending: Seq::empty(),
        }
    }

    /// Whether nothing waits to be sent, fetched or put in order.
    pub open spec fn is_empty(self) -> bool {
        &&& self.instant.len() == 0
        &&& self.reliable.len() == 0
        &&& self.ordered.len() == 0
        &&& self.inbox.len() == 0
        &&& self.pending.len() == 0
    }

    /// The queue after the application hands over `data` to be sent as
    /// `kind`, on `channel` if it is ordered. A payload too long for a
    /// record is dropped.
    pub open spec fn sent(self, kind: MessageKind, channel: u8, data: Seq<u8>) -> QueueView {
        if data.len() > MAX_PAYLOAD_SIZE {
            self
        } else {
            match kind {
                MessageKind::Instant => QueueView {
                    instant: self.instant.push(
                        MessageView { kind, channel: 0, order: 0, data },
                    ),
                    ..self
                },
                MessageKind::Reliable => QueueView {
                    reliable: self.reliable.push(
                        MessageView { kind, channel: 0, order: 0, data },
                    ),
                    ..self
                },
                MessageKind::Ordered => QueueView {
                    ordered: self.ordered.push(
                        MessageView { kind, channel, order: self.local_order[channel as int], data },
                    ),
                    local_order: self.local_order.update(
                        channel as int,
                        successor(self.local_order[channel as int]),
                    ),
                    ..self
                },
            }
        }
    }

    /// All messages waiting to be sent, in the order in which packets take
    /// them: instant ones first, then reliable ones, then ordered ones.
    pub open spec fn outgoing(self) -> Seq<MessageView> {
        self.instant + self.reliable + self.ordered
    }

    /// The messages that go into a packet with `room` bytes for them.
    pub open spec fn packed(self, room: int) -> Seq<MessageView> {
        self.outgoing().take(fitting(self.outgoing(), room) as int)
    }

    /// How many instant messages go into a packet with `room` bytes.
    pub open spec fn packed_instant(self, room: int) -> int {
        let n = fitting(self.outgoing(), room) as int;
        if n <= self.instant.len() {
            n
        } else {
            self.instant.len() as int
        }
    }

    /// How many reliable messages go into a packet with `room` bytes.
    pub open spec fn packed_reliable(self, room: int) -> int {
        let n = fitting(self.outgoing(), room) - self.instant.len();
        if n <= 0 {
            0
        } else if n <= self.reliable.len() {
            n
        } else {
            self.reliable.len() as int
        }
    }

    /// How many ordered messages go into a packet with `room` bytes.
    pub open spec fn packed_ordered(self, room: int) -> int {
        let n = fitting(self.outgoing(), room) - self.instant.len() - self.reliable.len();
        if n <= 0 {
            0
        } else {
            n
        }
    }

    /// The packed messages that are to be sent again if the packet is lost:
    /// the reliable and the ordered ones.
    pub open spec fn retained(self, room: int) -> Seq<MessageView> {
        self.reliable.take(self.packed_reliable(room)) + self.ordered.take(
            self.packed_ordered(room),
        )
    }

    /// The queue after a packet with `room` bytes for messages was filled.
    pub open spec fn after_packing(self, room: int) -> QueueView {
        QueueView {
            instant: self.instant.skip(self.packed_instant(room)),
            reliable: self.reliable.skip(self.packed_reliable(room)),
            ordered: self.ordered.skip(self.packed_ordered(room)),
            ..self
        }
    }

    /// The queue after the messages of lost packets came back: the reliable
    /// and the ordered ones stand in front of their queues, in the order of
    /// `lost`; instant ones are gone.
    pub open spec fn requeued(self, lost: Seq<MessageView>) -> QueueView {
        QueueView {
            reliable: of_kind(lost, MessageKind::Reliable) + self.reliable,
            ordered: of_kind(lost, MessageKind::Ordered) + self.ordered,
            ..self
        }
    }

    /// The queue after every pending message of `channel` that is next in
    /// order has moved to the inbox.
    pub open spec fn drained(self, channel: u8) -> QueueView
        decreases self.pending.len(),
    {
        let at = position(self.pending, channel, self.remote_order[channel as int]);
        if 0 <= at < self.pending.len() {
            QueueView {
                inbox: self.inbox.push(self.pending[at]),
                pending: self.pending.remove(at),
                remote_order: self.remote_order.update(
                    channel as int,
                    successor(self.remote_order[channel as int]),
                ),
                ..self
            }.drained(channel)
        } else {
            self
        }
    }

    /// The queue after an ordered message arrived. The message that is next
    /// in its channel goes to the inbox, followed by the pending ones that
    /// it was holding up. A later one waits, unless it waits already. One
    /// that the inbox has taken before is dropped.
    pub open spec fn arrived(self, message: MessageView) -> QueueView {
        let channel = message.channel;
        let next = self.remote_order[channel as int];
        if message.order == next {
            QueueView {
                inbox: self.inbox.push(message),
                remote_order: self.remote_order.update(channel as int, successor(next)),
                ..self
            }.drained(channel)
        } else if precedes(next, message.order) && position(self.pending, channel, message.order)
            >= self.pending.len() {
            QueueView { pending: self.pending.push(message), ..self }
        } else {
            self
        }
    }

    /// The queue after one received message.
    pub open spec fn accepted(self, message: MessageView) -> QueueView {
        match message.kind {
            MessageKind::Instant => QueueView { inbox: self.inbox.push(message), ..self },
            MessageKind::Reliable => QueueView { inbox: self.inbox.push(message), ..self },
            MessageKind::Ordered => self.arrived(message),
        }
    }

    /// The queue after each of `messages` was received in turn.
    pub open spec fn accepted_all(self, messages: Seq<MessageView>) -> QueueView
        decreases messages.len(),
    {
        if messages.len() == 0 {
            self
        } else {
            self.accepted(messages[0]).accepted_all(messages.skip(1))
        }
    }

    /// The queue after the body of a packet was received.
    pub open spec fn received(self, body: Seq<u8>) -> QueueView {
        self.accepted_all(parsed(body))
    }

    /// The queue after the inbox was emptied.
    pub open spec fn dismissed(self) -> QueueView {
        QueueView { inbox: Seq::empty(), ..self }
    }
}

/// The contents of a sequence of byte vectors.
pub open spec fn contents(items: Seq<Vec<u8>>) -> Seq<Seq<u8>> {
    items.map_values(|v: Vec<u8>| v@)
}

/// The messages of one connection.
#[derive(Debug)]
pub struct MessageQueue {
    instant: VecDeque<Message>,
    reliable: VecDeque<Message>,
    ordered: VecDeque<Message>,
    inbox: VecDeque<Message>,
    local_order: Vec<u8>,
    remote_order: Vec<u8>,
    pending: Vec<Message>,
}

impl View for MessageQueue {
    type V = QueueView;

    closed spec fn view(&self) -> QueueView {
        QueueView {
            instant: views(self.instant@),
            reliable: views(self.reliable@),
            ordered: views(self.ordered@),
            inbox: views(self.inbox@),
            local_order: self.local_order@,
            remote_order: self.remote_order@,
            pending: views(self.pending@),
        }
    }
}

/// A vector of `CHANNELS` zeros.
fn zeroed_orders() -> (orders: Vec<u8>)
    ensures
        orders@ == Seq::new(CHANNELS as nat, |c: int| 0u8),
{
    let mut orders: Vec<u8> = Vec::with_capacity(CHANNELS);
    while orders.len() < CHANNELS
        invariant
            orders@.len() <= CHANNELS,
            forall|c: int| 0 <= c < orders@.len() ==> orders@[c] == 0u8,
        decreases CHANNELS - orders@.len(),
    {
        orders.push(0);
    }
    assert(orders@ =~= Seq::new(CHANNELS as nat, |c: int| 0u8));
    orders
}

impl MessageQueue {
    pub open spec fn wf(&self) -> bool {
        self@.wf()
    }

    pub fn new() -> (queue: MessageQueue)
        ensures
            queue.wf(),
            queue@ == QueueView::initial(),
    {
        let queue = MessageQueue {
            instant: VecDeque::new(),
            reliable: VecDeque::new(),
            ordered: VecDeque::new(),
            inbox: VecDeque::new(),
            local_order: zeroed_orders(),
            remote_order: zeroed_orders(),
            pending: Vec::new(),
        };
        assert(queue@ =~= QueueView::initial());
        queue
    }

    /// Takes a message from the application to be sent as `kind`; an ordered
    /// one goes out on `channel`.
    pub fn send(&mut self, kind: MessageKind, channel: u8, data: Vec<u8>)
        requires
            old(self).wf(),
        ensures
            final(self).wf(),
            final(self)@ == old(self)@.sent(kind, channel, data@),
    {
        if data.len() > MAX_PAYLOAD_SIZE {
            return ;
        }
        match kind {
            MessageKind::Instant => {
                let message = Message { kind, channel: 0, order: 0, data };
                self.instant.push_back(message);
                assert(views(self.instant@) =~= views(old(self).instant@).push(message@));
            },
            MessageKind::Reliable => {
                let message = Message { kind, channel: 0, order: 0, data };
                self.reliable.push_back(message);
                assert(views(self.reliable@) =~= views(old(self).reliable@).push(message@));
            },
            MessageKind::Ordered => {
                let order: u8 = self.local_order[channel as usize];
                let message = Message { kind, channel, order, data };
                self.ordered.push_back(message);
                assert(views(self.ordered@) =~= views(old(self).ordered@).push(message@));
                self.local_order[channel as usize] = seq_successor(order);
            },
        }
        assert(self@ =~= old(self)@.sent(kind, channel, data@));
    }

    /// Hands out the payloads of the received messages, oldest first, and
    /// empties the inbox.
    pub fn received(&mut self) -> (data: Vec<Vec<u8>>)
        requires
            old(self).wf(),
        ensures
            final(self).wf(),
            contents(data@) == payloads(old(self)@.inbox),
            final(self)@ == old(self)@.dismissed(),
    {
        let mut data: Vec<Vec<u8>> = Vec::new();
        let ghost all = views(self.inbox@);
        assert(contents(data@) =~= payloads(all.take(0)));
        assert(views(self.inbox@) =~= all.skip(0));
        while self.inbox.len() > 0
            invariant
                all == views(old(self).inbox@),
                data@.len() + self.inbox@.len() == all.len(),
                contents(data@) == payloads(all.take(data@.len() as int)),
                views(self.inbox@) == all.skip(data@.len() as int),
                self.instant == old(self).instant,
                self.reliable == old(self).reliable,
                self.ordered == old(self).ordered,
                self.local_order == old(self).local_order,
                self.remote_order == old(self).remote_order,
                self.pending == old(self).pending,
            decreases self.inbox@.len(),
        {
            let ghost done = data@.len() as int;
            let ghost fetched = data@;
            let ghost left = self.inbox@;
            let message = self.inbox.pop_front().unwrap();
            assert(message@ == views(left)[0]);
            assert(message@ == all[done]);
            assert(views(self.inbox@) =~= views(left).skip(1));
            assert(all.skip(done).skip(1) =~= all.skip(done + 1));
            let ghost bytes = message.data@;
            data.push(message.data);
            assert(contents(data@) =~= contents(fetched).push(bytes));
            assert(all.take(done + 1) =~= all.take(done).push(all[done]));
            assert(payloads(all.take(done + 1)) =~= payloads(all.take(done)).push(bytes));
        }
        assert(all.take(all.len() as int) =~= all);
        assert(self@ =~= old(self)@.dismissed());
        data
    }

    /// Throws away the received messages that were not fetched.
    pub fn dismiss(&mut self)
        requires
            old(self).wf(),
        ensures
            final(self).wf(),
            final(self)@ == old(self)@.dismissed(),
    {
        self.inbox.clear();
        assert(self@ =~= old(self)@.dismissed());
    }

    /// Forgets every message and starts counting orders from zero again.
    pub fn reset(&mut self)
        ensures
            final(self).wf(),
            final(self)@ == QueueView::initial(),
    {
        self.instant.clear();
        self.reliable.clear();
        self.ordered.clear();
        self.inbox.clear();
        self.pending.clear();
        self.local_order = zeroed_orders();
        self.remote_order = zeroed_orders();
        assert(self@ =~= QueueView::initial());
    }

    /// Number of received messages that wait to be fetched.
    pub fn inbox_len(&self) -> (len: usize)
        ensures
            len == self@.inbox.len(),
    {
        self.inbox.len()
    }

    /// Number of messages that wait to be sent.
    pub fn outgoing_len(&self) -> (len: usize)
        ensures
            len as nat == if self@.outgoing().len() > usize::MAX {
                usize::MAX as nat
            } else {
                self@.outgoing().len()
            },
    {
        let a: usize = self.instant.len();
        let b: usize = self.reliable.len();
        let c: usize = self.ordered.len();
        a.saturating_add(b).saturating_add(c)
    }
}

/// `fitting` counts the longest run of messages from the front that goes
/// into `room` bytes: the run fits, and with the message after it, if there
/// is one, it would not.
pub proof fn lemma_fitting_longest(messages: Seq<MessageView>, room: int)
    requires
        room >= 0,
    ensures
        fitting(messages, room) <= messages.len(),
        wire_size(messages.take(fitting(messages, room) as int)) <= room,
        fitting(messages, room) < messages.len() ==> wire_size(
            messages.take(fitting(messages, room) as int + 1),
        ) > room,
    decreases messages.len(),
{
    let n = fitting(messages, room) as int;
    if messages.len() == 0 {
        assert(messages.take(0) =~= messages);
    } else if messages[0].wire_len() > room {
        assert(wire_size(messages.take(0)) == 0);
        assert(messages.take(1)[0] == messages[0]);
        assert(wire_size(messages.take(1).skip(1)) >= 0);
    } else {
        let rest = messages.skip(1);
        let left = room - messages[0].wire_len();
        lemma_fitting_longest(rest, left);
        let m = fitting(rest, left) as int;
        assert(messages.take(m + 1).skip(1) =~= rest.take(m));
        assert(messages.take(m + 1)[0] == messages[0]);
        if m < rest.len() {
            assert(messages.take(m + 2).skip(1) =~= rest.take(m + 1));
            assert(messages.take(m + 2)[0] == messages[0]);
        }
    }
}

/// Filling a packet from two queues in a row: the second queue is reached
/// only if the first one went in whole, and then has the room that the
/// first one left.
pub proof fn lemma_fitting_concat(first: Seq<MessageView>, second: Seq<MessageView>, room: int)
    ensures
        fitting(first + second, room) == if fitting(first, room) < first.len() {
            fitting(first, room)
        } else {
            first.len() + fitting(second, room - wire_size(first))
        },
        fitting(first, room) <= first.len(),
    decreases first.len(),
{
    if first.len() == 0 {
        assert(first + second =~= second);
    } else if first[0].wire_len() > room {
        assert((first + second)[0] == first[0]);
    } else {
        assert((first + second)[0] == first[0]);
        assert((first + second).skip(1) =~= first.skip(1) + second);
        lemma_fitting_concat(first.skip(1), second, room - first[0].wire_len());
    }
}

/// The messages of a kind among two sequences joined are those of the first
/// followed by those of the second.
pub proof fn lemma_of_kind_concat(
    first: Seq<MessageView>,
    second: Seq<MessageView>,
    kind: MessageKind,
)
    ensures
        of_kind(first + second, kind) == of_kind(first, kind) + of_kind(second, kind),
    decreases second.len(),
{
    if second.len() == 0 {
        assert(first + second =~= first);
        assert(of_kind(first, kind) + of_kind(second, kind) =~= of_kind(first, kind));
    } else {
        lemma_of_kind_concat(first, second.drop_last(), kind);
        assert((first + second).drop_last() =~= first + second.drop_last());
        assert((first + second).last() == second.last());
        assert(of_kind(first + second, kind) =~= of_kind(first, kind) + of_kind(second, kind));
    }
}

/// The messages of a kind among messages that are all of that kind are all
/// of them; among messages of another kind there are none.
pub proof fn lemma_of_kind_queue(messages: Seq<MessageView>, held: MessageKind, kind: MessageKind)
    requires
        forall|i: int| 0 <= i < messages.len() ==> (#[trigger] messages[i]).kind == held,
    ensures
        of_kind(messages, kind) == if held == kind {
            messages
        } else {
            Seq::<MessageView>::empty()
        },
    decreases messages.len(),
{
    if messages.len() == 0 {
        assert(of_kind(messages, kind) =~= messages);
    } else {
        let front = messages.drop_last();
        assert forall|i: int| 0 <= i < front.len() implies (#[trigger] front[i]).kind == held by {
            assert(front[i] == messages[i]);
        }
        lemma_of_kind_queue(front, held, kind);
        assert(messages.last() == messages[messages.len() - 1]);
        if held == kind {
            assert(of_kind(messages, kind) =~= messages);
        } else {
            assert(of_kind(messages, kind) =~= Seq::<MessageView>::empty());
        }
    }
}

/// `position` is the first place at which a message of the channel and
/// order stands.
pub proof fn lemma_position_first(pending: Seq<MessageView>, channel: u8, order: u8, at: int)
    requires
        0 <= at <= pending.len(),
        forall|j: int|
            0 <= j < at ==> !((#[trigger] pending[j]).channel == channel && pending[j].order
                == order),
        at < pending.len() ==> pending[at].channel == channel && pending[at].order == order,
    ensures
        position(pending, channel, order) == at,
    decreases pending.len(),
{
    if pending.len() == 0 {
    } else if at == 0 {
    } else {
        assert(!(pending[0].channel == channel && pending[0].order == order));
        let rest = pending.skip(1);
        assert forall|j: int| 0 <= j < at - 1 implies !((#[trigger] rest[j]).channel == channel
            && rest[j].order == order) by {
            assert(rest[j] == pending[j + 1]);
        }
        lemma_position_first(rest, channel, order, at - 1);
    }
}

/// How a packet is filled from the three queues: each queue gives its
/// longest run that goes into the room that the queues before it left, and
/// a queue is reached only if those before it went in whole.
pub proof fn lemma_packing(q: QueueView, room: int)
    requires
        q.wf(),
        room >= 0,
    ensures
        all_fit(q.packed(room)),
        all_fit(q.retained(room)),
        wire_size(q.packed(room)) <= room,
        q.after_packing(room).wf(),
        fitting(q.instant, room) < q.instant.len() ==> {
            &&& q.packed_instant(room) == fitting(q.instant, room)
            &&& q.packed_reliable(room) == 0
            &&& q.packed_ordered(room) == 0
            &&& encoded_all(q.packed(room)) == encoded_all(
                q.instant.take(fitting(q.instant, room) as int),
            )
            &&& q.retained(room) == Seq::<MessageView>::empty()
        },
        fitting(q.instant, room) >= q.instant.len() && fitting(
            q.reliable,
            room - wire_size(q.instant),
        ) < q.reliable.len() ==> {
            &&& q.packed_instant(room) == q.instant.len()
            &&& q.packed_reliable(room) == fitting(q.reliable, room - wire_size(q.instant))
            &&& q.packed_ordered(room) == 0
            &&& encoded_all(q.packed(room)) == encoded_all(q.instant) + encoded_all(
                q.reliable.take(fitting(q.reliable, room - wire_size(q.instant)) as int),
            )
            &&& q.retained(room) == q.reliable.take(
                fitting(q.reliable, room - wire_size(q.instant)) as int,
            )
        },
        fitting(q.instant, room) >= q.instant.len() && fitting(
            q.reliable,
            room - wire_size(q.instant),
        ) >= q.reliable.len() ==> {
            &&& q.packed_instant(room) == q.instant.len()
            &&& q.packed_reliable(room) == q.reliable.len()
            &&& q.packed_ordered(room) == fitting(
                q.ordered,
                room - wire_size(q.instant) - wire_size(q.reliable),
            )
            &&& q.packed_ordered(room) <= q.ordered.len()
            &&& encoded_all(q.packed(room)) == encoded_all(q.instant) + encoded_all(q.reliable)
                + encoded_all(
                q.ordered.take(
                    fitting(q.ordered, room - wire_size(q.instant) - wire_size(q.reliable)) as int,
                ),
            )
            &&& q.retained(room) == q.reliable + q.ordered.take(
                fitting(q.ordered, room - wire_size(q.instant) - wire_size(q.reliable)) as int,
            )
        },
{
    let i = q.instant;
    let r = q.reliable;
    let o = q.ordered;
    let all = q.outgoing();
    let n = fitting(all, room) as int;
    assert(all =~= i + (r + o));
    lemma_fitting_concat(i, r + o, room);
    lemma_fitting_concat(r, o, room - wire_size(i));
    lemma_fitting_longest(all, room);
    lemma_fitting_longest(i, room);
    let ni = fitting(i, room) as int;
    let nr = fitting(r, room - wire_size(i)) as int;
    let no = fitting(o, room - wire_size(i) - wire_size(r)) as int;
    if ni < i.len() {
        assert(n == ni);
        assert(all.take(n) =~= i.take(ni));
        assert(r.take(0) + o.take(0) =~= Seq::<MessageView>::empty());
        assert(i.skip(ni).len() > 0);
    } else if nr < r.len() {
        assert(i.take(i.len() as int) =~= i);
        assert(n == i.len() + nr);
        assert(all.take(n) =~= i + r.take(nr));
        crate::message::lemma_encoded_concat(i, r.take(nr));
        assert(r.take(nr) + o.take(0) =~= r.take(nr));
    } else {
        assert(i.take(i.len() as int) =~= i);
        lemma_fitting_longest(r, room - wire_size(i));
        assert(r.take(r.len() as int) =~= r);
        lemma_fitting_longest(o, room - wire_size(i) - wire_size(r));
        assert(n == i.len() + r.len() + no);
        assert(all.take(n) =~= i + r + o.take(no));
        crate::message::lemma_encoded_concat(i, r);
        crate::message::lemma_encoded_concat(i + r, o.take(no));
        assert(r.take(r.len() as int) =~= r);
    }
    let packed = q.packed(room);
    assert forall|k: int| 0 <= k < packed.len() implies (#[trigger] packed[k]).fits() by {
        assert(packed[k] == all[k]);
        if k < i.len() {
            assert(all[k] == i[k]);
        } else if k < i.len() + r.len() {
            assert(all[k] == r[k - i.len()]);
        } else {
            assert(all[k] == o[k - i.len() - r.len()]);
        }
    }
    let held = q.retained(room);
    let pr = q.packed_reliable(room);
    assert forall|k: int| 0 <= k < held.len() implies (#[trigger] held[k]).fits() by {
        if k < pr {
            assert(held[k] == r[k]);
        } else {
            assert(held[k] == o[k - pr]);
        }
    }
    let after = q.after_packing(room);
    assert forall|k: int| 0 <= k < after.instant.len() implies (#[trigger] after.instant[k]).fits()
        && after.instant[k].kind == MessageKind::Instant by {
        assert(after.instant[k] == i[k + q.packed_instant(room)]);
    }
    assert forall|k: int| 0 <= k < after.reliable.len() implies (
    #[trigger] after.reliable[k]).fits() && after.reliable[k].kind == MessageKind::Reliable by {
        assert(after.reliable[k] == r[k + q.packed_reliable(room)]);
    }
    assert forall|k: int| 0 <= k < after.ordered.len() implies (#[trigger] after.ordered[k]).fits()
        && after.ordered[k].kind == MessageKind::Ordered by {
        assert(after.ordered[k] == o[k + q.packed_ordered(room)]);
    }
}

/// Moves the messages from the front of `queue` that go into `room` bytes
/// to the end of `out`, and the messages themselves to `kept` if asked.
fn take_fitting(
    queue: &mut VecDeque<Message>,
    out: &mut Vec<u8>,
    room: usize,
    kept: &mut Vec<Message>,
    keep: bool,
) -> (used: usize)
    requires
        all_fit(views(old(queue)@)),
    ensures
        fitting(views(old(queue)@), room as int) <= old(queue)@.len(),
        views(final(queue)@) == views(old(queue)@).skip(
            fitting(views(old(queue)@), room as int) as int,
        ),
        final(out)@ == old(out)@ + encoded_all(
            views(old(queue)@).take(fitting(views(old(queue)@), room as int) as int),
        ),
        used == wire_size(views(old(queue)@).take(fitting(views(old(queue)@), room as int) as int)),
        used <= room,
        views(final(kept)@) == views(old(kept)@) + if keep {
            views(old(queue)@).take(fitting(views(old(queue)@), room as int) as int)
        } else {
            Seq::<MessageView>::empty()
        },
{
    let ghost before = views(queue@);
    let ghost mut taken: int = 0;
    let mut used: usize = 0;
    proof {
        assert(before.skip(0) =~= before);
        assert(before.take(0) =~= Seq::<MessageView>::empty());
        assert(out@ + encoded_all(before.take(0)) =~= out@);
        assert(views(kept@) + before.take(0) =~= views(kept@));
        assert(views(kept@) + Seq::<MessageView>::empty() =~= views(kept@));
    }
    loop
        invariant
            0 <= taken <= before.len(),
            before == views(old(queue)@),
            all_fit(before),
            views(queue@) == before.skip(taken),
            used <= room,
            used == wire_size(before.take(taken)),
            fitting(before, room as int) == taken + fitting(before.skip(taken), room - used),
            out@ == old(out)@ + encoded_all(before.take(taken)),
            views(kept@) == views(old(kept)@) + if keep {
                before.take(taken)
            } else {
                Seq::<MessageView>::empty()
            },
        ensures
            0 <= taken <= before.len(),
            fitting(before, room as int) == taken,
            views(queue@) == before.skip(taken),
            used <= room,
            used == wire_size(before.take(taken)),
            out@ == old(out)@ + encoded_all(before.take(taken)),
            views(kept@) == views(old(kept)@) + if keep {
                before.take(taken)
            } else {
                Seq::<MessageView>::empty()
            },
        decreases queue@.len(),
    {
        let ghost rest = before.skip(taken);
        assert(views(queue@).len() == queue@.len());
        if queue.len() == 0 {
            break ;
        }
        assert(queue@[0]@ == views(queue@)[0]);
        assert(rest[0] == before[taken]);
        assert(before[taken].fits());
        let len: usize = queue[0].wire_len();
        if len > room - used {
            break ;
        }
        let ghost held = queue@;
        let ghost packed = views(kept@);
        let message = queue.pop_front().unwrap();
        message.write(out);
        used = used + len;
        if keep {
            kept.push(message);
            assert(views(kept@) =~= packed.push(message@));
        }
        proof {
            let head = before[taken];
            assert(message@ == head);
            assert(views(queue@) =~= views(held).skip(1));
            assert(rest.skip(1) =~= before.skip(taken + 1));
            assert(before.take(taken + 1) =~= before.take(taken).push(head));
            lemma_encoded_push(before.take(taken), head);
            assert(old(out)@ + encoded_all(before.take(taken)) + head.encoded() =~= old(out)@ + (
            encoded_all(before.take(taken)) + head.encoded()));
            if keep {
                assert(views(old(kept)@) + before.take(taken + 1) =~= (views(old(kept)@)
                    + before.take(taken)).push(head));
            }
            taken = taken + 1;
        }
    }
    used
}

impl MessageQueue {
    /// Fills a packet: appends to `out` the records of the waiting messages
    /// that go into `room` bytes, instant ones first, then reliable ones,
    /// then ordered ones, up to the first that would not fit. Returns the
    /// reliable and ordered messages that went in, for sending again.
    pub fn write_packet(&mut self, out: &mut Vec<u8>, room: usize) -> (kept: Vec<Message>)
        requires
            old(self).wf(),
        ensures
            final(self).wf(),
            final(self)@ == old(self)@.after_packing(room as int),
            final(out)@ == old(out)@ + encoded_all(old(self)@.packed(room as int)),
            views(kept@) == old(self)@.retained(room as int),
            all_fit(views(kept@)),
            all_fit(old(self)@.packed(room as int)),
            wire_size(old(self)@.packed(room as int)) <= room,
    {
        let ghost before = self@;
        let ghost i = before.instant;
        let ghost r = before.reliable;
        let ghost o = before.ordered;
        let mut kept: Vec<Message> = Vec::new();
        assert(views(kept@) =~= Seq::<MessageView>::empty());
        proof {
            lemma_packing(before, room as int);
        }
        let used_instant: usize = take_fitting(&mut self.instant, out, room, &mut kept, false);
        assert(views(kept@) =~= Seq::<MessageView>::empty());
        assert(views(self.instant@).len() == self.instant@.len());
        if self.instant.len() == 0 {
            assert(fitting(i, room as int) == i.len());
            assert(i.take(i.len() as int) =~= i);
            let room_reliable: usize = room - used_instant;
            let used_reliable: usize = take_fitting(
                &mut self.reliable,
                out,
                room_reliable,
                &mut kept,
                true,
            );
            let ghost nr = fitting(r, room - wire_size(i)) as int;
            assert(views(kept@) =~= r.take(nr));
            assert(views(self.reliable@).len() == self.reliable@.len());
            if self.reliable.len() == 0 {
                assert(nr == r.len());
                assert(r.take(r.len() as int) =~= r);
                let room_ordered: usize = room_reliable - used_reliable;
                let _ = take_fitting(
                    &mut self.ordered,
                    out,
                    room_ordered,
                    &mut kept,
                    true,
                );
                proof {
                    let no = fitting(o, room - wire_size(i) - wire_size(r)) as int;
                    assert(out@ =~= old(out)@ + (encoded_all(i) + encoded_all(r) + encoded_all(
                        o.take(no),
                    )));
                }
            } else {
                proof {
                    assert(out@ =~= old(out)@ + (encoded_all(i) + encoded_all(r.take(nr))));
                    assert(views(kept@) + Seq::<MessageView>::empty() =~= views(kept@));
                }
            }
        } else {
            proof {
                assert(views(kept@) + Seq::<MessageView>::empty() =~= views(kept@));
            }
        }
        proof {
            assert(self@ =~= before.after_packing(room as int));
        }
        kept
    }

    /// Takes back the messages of lost packets: the reliable and the
    /// ordered ones go to the front of their queues, in the order of
    /// `lost`; instant ones are dropped.
    pub fn requeue(&mut self, lost: Vec<Message>)
        requires
            old(self).wf(),
            all_fit(views(lost@)),
        ensures
            final(self).wf(),
            final(self)@ == old(self)@.requeued(views(lost@)),
    {
        let mut lost = lost;
        let ghost all = views(lost@);
        while lost.len() > 0
            invariant
                self.wf(),
                all_fit(views(lost@)),
                of_kind(views(lost@), MessageKind::Reliable) + views(self.reliable@) == of_kind(
                    all,
                    MessageKind::Reliable,
                ) + views(old(self).reliable@),
                of_kind(views(lost@), MessageKind::Ordered) + views(self.ordered@) == of_kind(
                    all,
                    MessageKind::Ordered,
                ) + views(old(self).ordered@),
                self.instant == old(self).instant,
                self.inbox == old(self).inbox,
                self.local_order == old(self).local_order,
                self.remote_order == old(self).remote_order,
                self.pending == old(self).pending,
            decreases lost@.len(),
        {
            let ghost left = views(lost@);
            let ghost reliable = views(self.reliable@);
            let ghost ordered = views(self.ordered@);
            assert(left.last() == lost@.last()@);
            assert(left.last().fits());
            let message = lost.pop().unwrap();
            assert(views(lost@) =~= left.drop_last());
            match message.kind {
                MessageKind::Instant => {},
                MessageKind::Reliable => {
                    self.reliable.push_front(message);
                    assert(views(self.reliable@) =~= seq![message@] + reliable);
                    assert(of_kind(left.drop_last(), MessageKind::Reliable) + (seq![message@]
                        + reliable) =~= of_kind(left, MessageKind::Reliable) + reliable);
                },
                MessageKind::Ordered => {
                    self.ordered.push_front(message);
                    assert(views(self.ordered@) =~= seq![message@] + ordered);
                    assert(of_kind(left.drop_last(), MessageKind::Ordered) + (seq![message@]
                        + ordered) =~= of_kind(left, MessageKind::Ordered) + ordered);
                },
            }
            assert(of_kind(left.drop_last(), MessageKind::Reliable) + views(self.reliable@)
                =~= of_kind(left, MessageKind::Reliable) + reliable);
            assert(of_kind(left.drop_last(), MessageKind::Ordered) + views(self.ordered@)
                =~= of_kind(left, MessageKind::Ordered) + ordered);
        }
        proof {
            assert(views(lost@).len() == 0);
            assert(of_kind(views(lost@), MessageKind::Reliable) + views(self.reliable@)
                =~= views(self.reliable@));
            assert(of_kind(views(lost@), MessageKind::Ordered) + views(self.ordered@) =~= views(
                self.ordered@,
            ));
            assert(self@ =~= old(self)@.requeued(all));
        }
    }

    /// Where the first pending message of `channel` with order `order`
    /// stands; the number of pending messages where there is none.
    fn find_pending(&self, channel: u8, order: u8) -> (at: usize)
        ensures
            at == position(self@.pending, channel, order),
            at <= self@.pending.len(),
    {
        let ghost pending = views(self.pending@);
        let mut at: usize = 0;
        while at < self.pending.len()
            invariant
                pending == views(self.pending@),
                at <= self.pending@.len(),
                forall|j: int|
                    0 <= j < at ==> !((#[trigger] pending[j]).channel == channel
                        && pending[j].order == order),
            decreases self.pending@.len() - at,
        {
            assert(pending[at as int] == self.pending@[at as int]@);
            if self.pending[at].channel == channel && self.pending[at].order == order {
                proof {
                    lemma_position_first(pending, channel, order, at as int);
                }
                return at;
            }
            at += 1;
        }
        proof {
            lemma_position_first(pending, channel, order, at as int);
        }
        at
    }

    /// Moves every pending message of `channel` that is next in order to
    /// the inbox.
    fn drain(&mut self, channel: u8)
        requires
            old(self)@.sound(),
        ensures
            final(self)@.sound(),
            final(self)@ == old(self)@.drained(channel),
    {
        loop
            invariant
                self@.sound(),
                self@.drained(channel) == old(self)@.drained(channel),
            ensures
                self@.sound(),
                self@ == old(self)@.drained(channel),
            decreases self.pending@.len(),
        {
            let ghost before = self@;
            let next: u8 = self.remote_order[channel as usize];
            let at: usize = self.find_pending(channel, next);
            assert(views(self.pending@).len() == self.pending@.len());
            if at >= self.pending.len() {
                break ;
            }
            let message = self.pending.remove(at);
            assert(message@ == before.pending[at as int]);
            assert(views(self.pending@) =~= before.pending.remove(at as int));
            self.inbox.push_back(message);
            assert(views(self.inbox@) =~= before.inbox.push(message@));
            self.remote_order[channel as usize] = seq_successor(next);
            assert(self@ =~= QueueView {
                inbox: before.inbox.push(before.pending[at as int]),
                pending: before.pending.remove(at as int),
                remote_order: before.remote_order.update(channel as int, successor(next)),
                ..before
            });
        }
    }

    /// Takes in one received message.
    pub fn accept(&mut self, message: Message)
        requires
            old(self).wf(),
        ensures
            final(self).wf(),
            final(self)@ == old(self)@.accepted(message@),
    {
        let ghost before = self@;
        proof {
            lemma_accepted_wf(before, message@);
        }
        match message.kind {
            MessageKind::Instant => {
                self.inbox.push_back(message);
                assert(views(self.inbox@) =~= before.inbox.push(message@));
                assert(self@ =~= before.accepted(message@));
            },
            MessageKind::Reliable => {
                self.inbox.push_back(message);
                assert(views(self.inbox@) =~= before.inbox.push(message@));
                assert(self@ =~= before.accepted(message@));
            },
            MessageKind::Ordered => {
                let channel: u8 = message.channel;
                let order: u8 = message.order;
                let next: u8 = self.remote_order[channel as usize];
                if order == next {
                    self.inbox.push_back(message);
                    assert(views(self.inbox@) =~= before.inbox.push(message@));
                    self.remote_order[channel as usize] = seq_successor(next);
                    assert(self@ =~= QueueView {
                        inbox: before.inbox.push(message@),
                        remote_order: before.remote_order.update(channel as int, successor(next)),
                        ..before
                    });
                    self.drain(channel);
                } else if seq_is_more_recent(order, next) {
                    let at: usize = self.find_pending(channel, order);
                    assert(views(self.pending@).len() == self.pending@.len());
                    if at >= self.pending.len() {
                        self.pending.push(message);
                        assert(views(self.pending@) =~= before.pending.push(message@));
                        assert(self@ =~= before.accepted(message@));
                    }
                }
            },
        }
    }

    /// Takes in the messages that the body of a received packet holds.
    pub fn receive(&mut self, body: &[u8])
        requires
            old(self).wf(),
        ensures
            final(self).wf(),
            final(self)@ == old(self)@.received(body@),
    {
        let messages = parse_messages(body);
        let ghost all = views(messages@);
        let ghost list = messages@;
        assert(all.skip(0) =~= all);
        for message in it: messages
            invariant
                self.wf(),
                it.seq() == list,
                all == views(list),
                self@.accepted_all(all.skip(it.index() as int)) == old(self)@.accepted_all(all),
        {
            assert(all.skip(it.index() as int)[0] == message@);
            assert(all.skip(it.index() as int).skip(1) =~= all.skip(it.index() + 1));
            self.accept(message);
        }
        assert(all.skip(all.len() as int).len() == 0);
    }
}

/// Whether the inbox of `after` is the inbox of `before` with messages
/// added at its end, such that on every channel the ordered messages added
/// count up one by one from the order that the channel expected in
/// `before`, and the channel expects in `after` the order that follows
/// them.
pub open spec fn delivered_in_order(before: QueueView, after: QueueView) -> bool {
    &&& before.inbox.len() <= after.inbox.len()
    &&& after.inbox.take(before.inbox.len() as int) == before.inbox
    &&& after.remote_order.len() == before.remote_order.len()
    &&& forall|channel: u8|
        #![trigger orders_on(after.inbox.skip(before.inbox.len() as int), channel)]
        (channel as int) < before.remote_order.len() ==> counts_from(
            orders_on(after.inbox.skip(before.inbox.len() as int), channel),
            before.remote_order[channel as int],
        ) && after.remote_order[channel as int] == advanced(
            before.remote_order[channel as int],
            orders_on(after.inbox.skip(before.inbox.len() as int), channel).len(),
        )
}

/// The orders among two sequences joined are those of the first followed
/// by those of the second.
pub proof fn lemma_orders_concat(first: Seq<MessageView>, second: Seq<MessageView>, channel: u8)
    ensures
        orders_on(first + second, channel) == orders_on(first, channel) + orders_on(
            second,
            channel,
        ),
    decreases second.len(),
{
    if second.len() == 0 {
        assert(first + second =~= first);
        assert(orders_on(first, channel) + orders_on(second, channel) =~= orders_on(
            first,
            channel,
        ));
    } else {
        lemma_orders_concat(first, second.drop_last(), channel);
        assert((first + second).drop_last() =~= first + second.drop_last());
        assert((first + second).last() == second.last());
        assert(orders_on(first + second, channel) =~= orders_on(first, channel) + orders_on(
            second,
            channel,
        ));
    }
}

/// The orders of a single message.
proof fn lemma_orders_single(message: MessageView, channel: u8)
    ensures
        orders_on(seq![message], channel) == if message.kind == MessageKind::Ordered
            && message.channel == channel {
            seq![message.order]
        } else {
            Seq::<u8>::empty()
        },
{
    let one = seq![message];
    assert(one.drop_last() =~= Seq::<MessageView>::empty());
    assert(orders_on(one.drop_last(), channel) =~= Seq::<u8>::empty());
    assert(one.last() == message);
    if message.kind == MessageKind::Ordered && message.channel == channel {
        assert(orders_on(one, channel) =~= seq![message.order]);
    } else {
        assert(orders_on(one, channel) =~= Seq::<u8>::empty());
    }
}

/// `position` lies within the pending messages or at their end, and names
/// a message of the channel and order if it lies within.
pub proof fn lemma_position(pending: Seq<MessageView>, channel: u8, order: u8)
    ensures
        0 <= position(pending, channel, order) <= pending.len(),
        position(pending, channel, order) < pending.len() ==> pending[position(
            pending,
            channel,
            order,
        )].channel == channel && pending[position(pending, channel, order)].order == order,
    decreases pending.len(),
{
    if pending.len() == 0 {
    } else if pending[0].channel == channel && pending[0].order == order {
    } else {
        lemma_position(pending.skip(1), channel, order);
    }
}

/// A queue delivers in order with respect to itself: nothing was added.
pub proof fn lemma_in_order_same(q: QueueView)
    ensures
        delivered_in_order(q, q),
{
    assert(q.inbox.take(q.inbox.len() as int) =~= q.inbox);
    assert(q.inbox.skip(q.inbox.len() as int) =~= Seq::<MessageView>::empty());
    assert forall|channel: u8| (channel as int) < q.remote_order.len() implies counts_from(
        #[trigger] orders_on(q.inbox.skip(q.inbox.len() as int), channel),
        q.remote_order[channel as int],
    ) && q.remote_order[channel as int] == advanced(
        q.remote_order[channel as int],
        orders_on(q.inbox.skip(q.inbox.len() as int), channel).len(),
    ) by {
        assert(orders_on(Seq::<MessageView>::empty(), channel) =~= Seq::<u8>::empty());
    }
}

/// Delivery in order carries over from step to step.
pub proof fn lemma_in_order_then(a: QueueView, b: QueueView, c: QueueView)
    requires
        delivered_in_order(a, b),
        delivered_in_order(b, c),
    ensures
        delivered_in_order(a, c),
{
    let n = a.inbox.len() as int;
    let m = b.inbox.len() as int;
    let first = b.inbox.skip(n);
    let second = c.inbox.skip(m);
    let both = c.inbox.skip(n);
    assert(c.inbox.take(n) =~= c.inbox.take(m).take(n));
    assert(b.inbox.take(n) == a.inbox);
    assert(c.inbox.take(n) =~= a.inbox);
    assert(both =~= first + second) by {
        assert(c.inbox.take(m) == b.inbox);
        assert forall|i: int| 0 <= i < both.len() implies both[i] == (first + second)[i] by {
            if i < first.len() {
                assert(both[i] == c.inbox.take(m)[n + i]);
            }
        }
    }
    assert forall|channel: u8| (channel as int) < a.remote_order.len() implies counts_from(
        #[trigger] orders_on(c.inbox.skip(n), channel),
        a.remote_order[channel as int],
    ) && c.remote_order[channel as int] == advanced(
        a.remote_order[channel as int],
        orders_on(c.inbox.skip(n), channel).len(),
    ) by {
        let start = a.remote_order[channel as int];
        let o1 = orders_on(b.inbox.skip(n), channel);
        let o2 = orders_on(c.inbox.skip(m), channel);
        lemma_orders_concat(first, second, channel);
        let all = orders_on(both, channel);
        assert(all == o1 + o2);
        assert(b.remote_order[channel as int] == advanced(start, o1.len()));
        assert forall|i: int| 0 <= i < all.len() implies #[trigger] all[i] == advanced(
            start,
            i as nat,
        ) by {
            if i < o1.len() {
                assert(all[i] == o1[i]);
            } else {
                assert(all[i] == o2[i - o1.len()]);
                assert(o2[i - o1.len()] == advanced(
                    advanced(start, o1.len()),
                    (i - o1.len()) as nat,
                ));
            }
        }
    }
}

/// One message added to the inbox is delivered in order if it is not an
/// ordered one and the channels expect what they did, or if it is the
/// ordered message that its channel expected and the channel now expects
/// the next.
proof fn lemma_in_order_push(q: QueueView, after: QueueView, message: MessageView)
    requires
        q.remote_order.len() == CHANNELS,
        after.inbox == q.inbox.push(message),
        if message.kind == MessageKind::Ordered {
            message.order == q.remote_order[message.channel as int] && after.remote_order
                == q.remote_order.update(message.channel as int, successor(message.order))
        } else {
            after.remote_order == q.remote_order
        },
    ensures
        delivered_in_order(q, after),
{
    let n = q.inbox.len() as int;
    assert(after.inbox.take(n) =~= q.inbox);
    assert(after.inbox.skip(n) =~= seq![message]);
    assert forall|channel: u8| (channel as int) < q.remote_order.len() implies counts_from(
        #[trigger] orders_on(after.inbox.skip(n), channel),
        q.remote_order[channel as int],
    ) && after.remote_order[channel as int] == advanced(
        q.remote_order[channel as int],
        orders_on(after.inbox.skip(n), channel).len(),
    ) by {
        lemma_orders_single(message, channel);
    }
}

/// Where `position` lies at the end, no pending message is of the channel
/// and order.
pub proof fn lemma_position_none(pending: Seq<MessageView>, channel: u8, order: u8)
    requires
        position(pending, channel, order) >= pending.len(),
    ensures
        forall|j: int|
            0 <= j < pending.len() ==> !((#[trigger] pending[j]).channel == channel
                && pending[j].order == order),
    decreases pending.len(),
{
    if pending.len() > 0 {
        lemma_position(pending.skip(1), channel, order);
        lemma_position_none(pending.skip(1), channel, order);
        assert forall|j: int| 0 <= j < pending.len() implies !((#[trigger] pending[j]).channel
            == channel && pending[j].order == order) by {
            if j > 0 {
                assert(pending.skip(1)[j - 1] == pending[j]);
            }
        }
    }
}

/// Draining a channel leaves every pending message ahead of what its
/// channel expects.
pub proof fn lemma_drained_ahead(q: QueueView, channel: u8)
    requires
        q.sound(),
        q.draining(channel),
    ensures
        q.drained(channel).ahead(),
    decreases q.pending.len(),
{
    let next = q.remote_order[channel as int];
    let at = position(q.pending, channel, next);
    lemma_position(q.pending, channel, next);
    if 0 <= at < q.pending.len() {
        let step = QueueView {
            inbox: q.inbox.push(q.pending[at]),
            pending: q.pending.remove(at),
            remote_order: q.remote_order.update(channel as int, successor(next)),
            ..q
        };
        assert forall|i: int| 0 <= i < step.pending.len() implies (#[trigger] step.pending[i]).kind
            == MessageKind::Ordered by {
            if i < at {
                assert(step.pending[i] == q.pending[i]);
            } else {
                assert(step.pending[i] == q.pending[i + 1]);
            }
        }
        assert forall|i: int, j: int| 0 <= i < j < step.pending.len() implies !((
        #[trigger] step.pending[i]).channel == (#[trigger] step.pending[j]).channel
            && step.pending[i].order == step.pending[j].order) by {
            let oi = if i < at {
                i
            } else {
                i + 1
            };
            let oj = if j < at {
                j
            } else {
                j + 1
            };
            assert(step.pending[i] == q.pending[oi]);
            assert(step.pending[j] == q.pending[oj]);
        }
        assert forall|i: int| 0 <= i < step.pending.len() implies if (
        #[trigger] step.pending[i]).channel == channel {
            distance(step.remote_order[channel as int], step.pending[i].order) <= 127
        } else {
            precedes(
                step.remote_order[step.pending[i].channel as int],
                step.pending[i].order,
            )
        } by {
            let oi = if i < at {
                i
            } else {
                i + 1
            };
            assert(step.pending[i] == q.pending[oi]);
            if q.pending[oi].channel == channel {
                if oi < at {
                    assert(!(q.pending[oi].channel == q.pending[at].channel && q.pending[oi].order
                        == q.pending[at].order));
                } else {
                    assert(!(q.pending[at].channel == q.pending[oi].channel && q.pending[at].order
                        == q.pending[oi].order));
                }
                assert(q.pending[oi].order != next);
            }
        }
        lemma_drained_ahead(step, channel);
    } else {
        lemma_position_none(q.pending, channel, next);
        assert forall|i: int| 0 <= i < q.pending.len() implies precedes(
            q.remote_order[(#[trigger] q.pending[i]).channel as int],
            q.pending[i].order,
        ) by {
            if q.pending[i].channel == channel {
                assert(q.pending[i].order != next);
            }
        }
    }
}

/// Taking in a message leaves the queue well-formed: a message waits at
/// most once, and only while it is ahead of what its channel expects.
pub proof fn lemma_accepted_wf(q: QueueView, message: MessageView)
    requires
        q.wf(),
    ensures
        q.accepted(message).wf(),
{
    lemma_accepted_in_order(q, message);
    match message.kind {
        MessageKind::Ordered => {
            let channel = message.channel;
            let next = q.remote_order[channel as int];
            if message.order == next {
                let step = QueueView {
                    inbox: q.inbox.push(message),
                    remote_order: q.remote_order.update(channel as int, successor(next)),
                    ..q
                };
                assert(step.sound());
                assert forall|i: int| 0 <= i < step.pending.len() implies if (
                #[trigger] step.pending[i]).channel == channel {
                    distance(step.remote_order[channel as int], step.pending[i].order) <= 127
                } else {
                    precedes(
                        step.remote_order[step.pending[i].channel as int],
                        step.pending[i].order,
                    )
                } by {
                    assert(precedes(
                        q.remote_order[q.pending[i].channel as int],
                        q.pending[i].order,
                    ));
                }
                lemma_drained_ahead(step, channel);
            } else if precedes(next, message.order) && position(q.pending, channel, message.order)
                >= q.pending.len() {
                let after = QueueView { pending: q.pending.push(message), ..q };
                lemma_position_none(q.pending, channel, message.order);
                assert forall|i: int, j: int| 0 <= i < j < after.pending.len() implies !((
                #[trigger] after.pending[i]).channel == (#[trigger] after.pending[j]).channel
                    && after.pending[i].order == after.pending[j].order) by {
                    assert(after.pending[i] == q.pending[i]);
                    if j < q.pending.len() {
                        assert(after.pending[j] == q.pending[j]);
                    }
                }
                assert forall|i: int| 0 <= i < after.pending.len() implies precedes(
                    after.remote_order[(#[trigger] after.pending[i]).channel as int],
                    after.pending[i].order,
                ) by {
                    if i < q.pending.len() {
                        assert(after.pending[i] == q.pending[i]);
                    }
                }
            } else {
            }
        },
        _ => {},
    }
}

/// Draining a channel delivers in order and leaves a sound queue.
pub proof fn lemma_drained_in_order(q: QueueView, channel: u8)
    requires
        q.sound(),
    ensures
        q.drained(channel).sound(),
        delivered_in_order(q, q.drained(channel)),
    decreases q.pending.len(),
{
    let next = q.remote_order[channel as int];
    let at = position(q.pending, channel, next);
    lemma_position(q.pending, channel, next);
    if 0 <= at < q.pending.len() {
        let message = q.pending[at];
        let step = QueueView {
            inbox: q.inbox.push(message),
            pending: q.pending.remove(at),
            remote_order: q.remote_order.update(channel as int, successor(next)),
            ..q
        };
        assert forall|i: int| 0 <= i < step.pending.len() implies (#[trigger] step.pending[i]).kind
            == MessageKind::Ordered by {
            if i < at {
                assert(step.pending[i] == q.pending[i]);
            } else {
                assert(step.pending[i] == q.pending[i + 1]);
            }
        }
        assert(step.sound());
        lemma_in_order_push(q, step, message);
        lemma_drained_in_order(step, channel);
        lemma_in_order_then(q, step, step.drained(channel));
    } else {
        lemma_in_order_same(q);
    }
}

/// Taking in one message delivers in order and leaves a sound queue.
pub proof fn lemma_accepted_in_order(q: QueueView, message: MessageView)
    requires
        q.sound(),
    ensures
        q.accepted(message).sound(),
        delivered_in_order(q, q.accepted(message)),
{
    match message.kind {
        MessageKind::Ordered => {
            let channel = message.channel;
            let next = q.remote_order[channel as int];
            if message.order == next {
                let step = QueueView {
                    inbox: q.inbox.push(message),
                    remote_order: q.remote_order.update(channel as int, successor(next)),
                    ..q
                };
                assert(step.sound());
                lemma_in_order_push(q, step, message);
                lemma_drained_in_order(step, channel);
                lemma_in_order_then(q, step, step.drained(channel));
            } else if precedes(next, message.order) && position(q.pending, channel, message.order)
                >= q.pending.len() {
                let after = QueueView { pending: q.pending.push(message), ..q };
                assert forall|i: int| 0 <= i < after.pending.len() implies (
                #[trigger] after.pending[i]).kind == MessageKind::Ordered by {
                    if i < q.pending.len() {
                        assert(after.pending[i] == q.pending[i]);
                    }
                }
                lemma_in_order_same(q);
                assert(delivered_in_order(q, after));
            } else {
                lemma_in_order_same(q);
            }
        },
        _ => {
            lemma_in_order_push(q, q.accepted(message), message);
        },
    }
}

/// Taking in messages one after another delivers in order.
pub proof fn lemma_accepted_all_in_order(q: QueueView, messages: Seq<MessageView>)
    requires
        q.wf(),
    ensures
        q.accepted_all(messages).wf(),
        delivered_in_order(q, q.accepted_all(messages)),
    decreases messages.len(),
{
    if messages.len() == 0 {
        lemma_in_order_same(q);
    } else {
        let step = q.accepted(messages[0]);
        lemma_accepted_in_order(q, messages[0]);
        lemma_accepted_wf(q, messages[0]);
        lemma_accepted_all_in_order(step, messages.skip(1));
        lemma_in_order_then(q, step, step.accepted_all(messages.skip(1)));
    }
}

/// Ordered messages reach the application in the order of their channel,
/// in whatever order they arrive: what the body of a packet adds to the
/// inbox holds, for every channel, the ordered messages of that channel
/// with orders that count up one by one from the order that the channel
/// expected, and the messages fetched before stay as they were.
pub proof fn lemma_ordered_delivery(q: QueueView, body: Seq<u8>)
    requires
        q.wf(),
    ensures
        q.received(body).wf(),
        delivered_in_order(q, q.received(body)),
{
    lemma_accepted_all_in_order(q, parsed(body));
}

/// What a packet takes is read back as it was written: the records of the
/// messages that go into a packet hold exactly those messages, in their
/// order.
pub proof fn lemma_packed_read_back(q: QueueView, room: int)
    requires
        q.wf(),
        room >= 0,
    ensures
        parsed(encoded_all(q.packed(room))) == q.packed(room),
{
    lemma_packing(q, room);
    crate::message::lemma_parse_encoded(q.packed(room));
}

/// Draining a channel leaves the messages that wait to be sent alone.
pub proof fn lemma_drained_keeps_outgoing(q: QueueView, channel: u8)
    ensures
        q.drained(channel).instant == q.instant,
        q.drained(channel).reliable == q.reliable,
        q.drained(channel).ordered == q.ordered,
        q.drained(channel).local_order == q.local_order,
    decreases q.pending.len(),
{
    let at = position(q.pending, channel, q.remote_order[channel as int]);
    if 0 <= at < q.pending.len() {
        lemma_drained_keeps_outgoing(
            QueueView {
                inbox: q.inbox.push(q.pending[at]),
                pending: q.pending.remove(at),
                remote_order: q.remote_order.update(
                    channel as int,
                    successor(q.remote_order[channel as int]),
                ),
                ..q
            },
            channel,
        );
    }
}

/// Receiving messages leaves the messages that wait to be sent alone.
pub proof fn lemma_accepted_keeps_outgoing(q: QueueView, messages: Seq<MessageView>)
    ensures
        q.accepted_all(messages).instant == q.instant,
        q.accepted_all(messages).reliable == q.reliable,
        q.accepted_all(messages).ordered == q.ordered,
        q.accepted_all(messages).local_order == q.local_order,
    decreases messages.len(),
{
    if messages.len() > 0 {
        let message = messages[0];
        if message.kind == MessageKind::Ordered && message.order
            == q.remote_order[message.channel as int] {
            lemma_drained_keeps_outgoing(
                QueueView {
                    inbox: q.inbox.push(message),
                    remote_order: q.remote_order.update(
                        message.channel as int,
                        successor(message.order),
                    ),
                    ..q
                },
                message.channel,
            );
        }
        lemma_accepted_keeps_outgoing(q.accepted(message), messages.skip(1));
    }
}

/// What a packet took of the reliable and the ordered messages comes back
/// where it was: with the messages that a packet retained put back in
/// front, the reliable and the ordered queue are what they were before the
/// packet was filled. The instant messages that the packet took are gone.
pub proof fn lemma_retained_come_back(q: QueueView, room: int)
    requires
        q.wf(),
        room >= 0,
    ensures
        q.after_packing(room).requeued(q.retained(room)).reliable == q.reliable,
        q.after_packing(room).requeued(q.retained(room)).ordered == q.ordered,
        q.after_packing(room).requeued(q.retained(room)).instant == q.instant.skip(
            q.packed_instant(room),
        ),
{
    lemma_packing(q, room);
    let nr = q.packed_reliable(room);
    let no = q.packed_ordered(room);
    let taken_reliable = q.reliable.take(nr);
    let taken_ordered = q.ordered.take(no);
    assert forall|i: int| 0 <= i < taken_reliable.len() implies (#[trigger] taken_reliable[i]).kind
        == MessageKind::Reliable by {
        assert(taken_reliable[i] == q.reliable[i]);
    }
    assert forall|i: int| 0 <= i < taken_ordered.len() implies (#[trigger] taken_ordered[i]).kind
        == MessageKind::Ordered by {
        assert(taken_ordered[i] == q.ordered[i]);
    }
    lemma_of_kind_concat(taken_reliable, taken_ordered, MessageKind::Reliable);
    lemma_of_kind_concat(taken_reliable, taken_ordered, MessageKind::Ordered);
    lemma_of_kind_queue(taken_reliable, MessageKind::Reliable, MessageKind::Reliable);
    lemma_of_kind_queue(taken_reliable, MessageKind::Reliable, MessageKind::Ordered);
    lemma_of_kind_queue(taken_ordered, MessageKind::Ordered, MessageKind::Reliable);
    lemma_of_kind_queue(taken_ordered, MessageKind::Ordered, MessageKind::Ordered);
    assert(taken_reliable + Seq::<MessageView>::empty() + q.reliable.skip(nr) =~= q.reliable);
    assert(Seq::<MessageView>::empty() + taken_ordered + q.ordered.skip(no) =~= q.ordered);
}

/// Messages that go into the room together are all taken.
pub proof fn lemma_fitting_all(messages: Seq<MessageView>, room: int)
    requires
        wire_size(messages) <= room,
    ensures
        fitting(messages, room) == messages.len(),
    decreases messages.len(),
{
    if messages.len() > 0 {
        lemma_fitting_all(messages.skip(1), room - messages[0].wire_len());
    }
}

/// The reliable and the ordered messages of lost packets go out with the
/// next packet, and the instant ones do not come back: where everything
/// that waits after `requeue` goes into the room of a packet, the packet
/// takes the instant messages that waited, then the lost reliable ones
/// before the waiting reliable ones, then the lost ordered ones before the
/// waiting ordered ones.
pub proof fn lemma_requeued_go_out(q: QueueView, lost: Seq<MessageView>, room: int)
    requires
        q.wf(),
        all_fit(lost),
        wire_size(q.requeued(lost).outgoing()) <= room,
    ensures
        q.requeued(lost).instant == q.instant,
        q.requeued(lost).packed(room) == q.instant + (of_kind(lost, MessageKind::Reliable)
            + q.reliable) + (of_kind(lost, MessageKind::Ordered) + q.ordered),
        q.requeued(lost).retained(room) == (of_kind(lost, MessageKind::Reliable) + q.reliable) + (
        of_kind(lost, MessageKind::Ordered) + q.ordered),
{
    let r = q.requeued(lost);
    let all = r.outgoing();
    lemma_fitting_all(all, room);
    assert(all.take(all.len() as int) =~= all);
    assert(r.reliable.take(r.reliable.len() as int) =~= r.reliable);
    assert(r.ordered.take(r.ordered.len() as int) =~= r.ordered);
}

} // verus!
