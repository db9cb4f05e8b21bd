//! The packets that were sent and whose fate is not known yet: for each its
//! sequence number, when it left, and the messages to send again if it is
//! lost.

use crate::estimator::{elapsed, micros, round_trip_sample, rtt_sample, time_since};
use crate::message::{all_fit, views, Message, MessageView};
use crate::queue::contents;
use crate::sequence::{acknowledges, seq_was_acked};
use std::collections::VecDeque;
use vstd::prelude::*;

verus! {

/// A packet that was sent.
#[derive(Debug)]
pub struct SentPacket {
    /// The sequence number that the packet went out with.
    pub seq: u8,
    /// When it went out, in milliseconds.
    pub time: u64,
    /// Its reliable and ordered messages.
    pub messages: Vec<Message>,
    /// The records of all its messages as they were written.
    pub block: Vec<u8>,
}

/// The mathematical value of a [`SentPacket`].
pub struct SentPacketView {
    pub seq: u8,
    pub time: u64,
    pub messages: Seq<MessageView>,
    pub block: Seq<u8>,
}

impl View for SentPacket {
    type V = SentPacketView;

    open spec fn view(&self) -> SentPacketView {
        SentPacketView {
            seq: self.seq,
            time: self.time,
            messages: views(self.messages@),
            block: self.block@,
        }
    }
}

/// The values of a sequence of sent packets.
pub open spec fn packets(entries: Seq<SentPacket>) -> Seq<SentPacketView> {
    entries.map_values(|e: SentPacket| e@)
}

/// What a received acknowledgment says of a sent packet.
#[derive(Clone, Copy, Debug, PartialEq, Eq, Structural)]
pub enum Fate {
    /// The peer has it.
    Acknowledged,
    /// Not acknowledged and sent longer ago than the drop threshold.
    Lost,
    /// Not acknowledged, and not long enough ago to give it up.
    Waiting,
}

/// The acknowledgment that a received packet carries, and when it came.
pub struct Receipt {
    /// The sequence number that the peer acknowledges.
    pub ack: u8,
    /// The acknowledgment bitfield for the 32 packets before `ack`.
    pub bitfield: u32,
    /// When the acknowledgment arrived, in milliseconds.
    pub now: u64,
    /// Milliseconds after which a packet without acknowledgment is lost.
    pub drop_threshold: u32,
}

/// The fate of the sent packet `entry` in the light of `receipt`.
pub open spec fn fate(entry: SentPacketView, receipt: Receipt) -> Fate {
    if acknowledges(entry.seq, receipt.ack, receipt.bitfield) {
        Fate::Acknowledged
    } else if elapsed(receipt.now, entry.time) > receipt.drop_threshold {
        Fate::Lost
    } else {
        Fate::Waiting
    }
}

/// The packets among `entries` that meet `wanted`, in their order.
pub open spec fn with_fate(entries: Seq<SentPacketView>, receipt: Receipt, wanted: Fate) -> Seq<
    SentPacketView,
>
    decreases entries.len(),
{
    if entries.len() == 0 {
        Seq::empty()
    } else {
        with_fate(entries.drop_last(), receipt, wanted) + if fate(entries.last(), receipt)
            == wanted {
            seq![entries.last()]
        } else {
            Seq::empty()
        }
    }
}

/// The messages of `entries`, packet after packet.
pub open spec fn messages_of(entries: Seq<SentPacketView>) -> Seq<MessageView>
    decreases entries.len(),
{
    if entries.len() == 0 {
        Seq::empty()
    } else {
        messages_of(entries.drop_last()) + entries.last().messages
    }
}

/// The written records of `entries`, one per packet.
pub open spec fn blocks_of(entries: Seq<SentPacketView>) -> Seq<Seq<u8>> {
    entries.map_values(|e: SentPacketView| e.block)
}

/// The round-trip samples in microseconds that acknowledged packets give.
pub open spec fn samples_of(entries: Seq<SentPacketView>, now: u64, tick_delay: u32) -> Seq<int> {
    entries.map_values(|e: SentPacketView| rtt_sample(now, e.time, tick_delay) * 1000)
}

/// Where in `entries` the packet with sequence number `seq` stands; the
/// length of `entries` where there is none.
pub open spec fn slot(entries: Seq<SentPacketView>, seq: u8) -> int
    decreases entries.len(),
{
    if entries.len() == 0 {
        0
    } else if entries[0].seq == seq {
        0
    } else {
        1 + slot(entries.skip(1), seq)
    }
}

/// No two packets share a sequence number.
pub open spec fn distinct(entries: Seq<SentPacketView>) -> bool {
    forall|i: int, j: int|
        0 <= i < j < entries.len() ==> (#[trigger] entries[i]).seq != (#[trigger] entries[j]).seq
}

/// The messages of every packet fit their records.
pub open spec fn sendable(entries: Seq<SentPacketView>) -> bool {
    forall|i: int| 0 <= i < entries.len() ==> all_fit((#[trigger] entries[i]).messages)
}

/// A well-formed ledger: at most one packet per sequence number, and
/// messages that can be written again.
pub open spec fn ledger_wf(entries: Seq<SentPacketView>) -> bool {
    distinct(entries) && sendable(entries)
}

/// The ledger after a packet was sent: the packet stands at the end, in
/// place of an earlier one with the same sequence number.
pub open spec fn recorded(entries: Seq<SentPacketView>, entry: SentPacketView) -> Seq<
    SentPacketView,
> {
    let at = slot(entries, entry.seq);
    if 0 <= at < entries.len() {
        entries.remove(at).push(entry)
    } else {
        entries.push(entry)
    }
}

/// `slot` is the first place at which a packet with the sequence number
/// stands.
pub proof fn lemma_slot_first(entries: Seq<SentPacketView>, seq: u8, at: int)
    requires
        0 <= at <= entries.len(),
        forall|j: int| 0 <= j < at ==> (#[trigger] entries[j]).seq != seq,
        at < entries.len() ==> entries[at].seq == seq,
    ensures
        slot(entries, seq) == at,
    decreases entries.len(),
{
    if entries.len() == 0 {
    } else if at == 0 {
    } else {
        assert(entries[0].seq != seq);
        let rest = entries.skip(1);
        assert forall|j: int| 0 <= j < at - 1 implies (#[trigger] rest[j]).seq != seq by {
            assert(rest[j] == entries[j + 1]);
        }
        lemma_slot_first(rest, seq, at - 1);
    }
}

/// `slot` lies within the ledger or at its end, names a packet with the
/// sequence number if it lies within, and no packet before it has that
/// number.
pub proof fn lemma_slot(entries: Seq<SentPacketView>, seq: u8)
    ensures
        0 <= slot(entries, seq) <= entries.len(),
        slot(entries, seq) < entries.len() ==> entries[slot(entries, seq)].seq == seq,
        forall|j: int| 0 <= j < slot(entries, seq) ==> (#[trigger] entries[j]).seq != seq,
    decreases entries.len(),
{
    if entries.len() == 0 {
    } else if entries[0].seq == seq {
    } else {
        let rest = entries.skip(1);
        lemma_slot(rest, seq);
        assert forall|j: int| 0 <= j < slot(entries, seq) implies (#[trigger] entries[j]).seq
            != seq by {
            if j > 0 {
                assert(rest[j - 1] == entries[j]);
            }
        }
    }
}

/// Recording a packet keeps the ledger well-formed: the sequence number of
/// the new packet occurs once.
pub proof fn lemma_recorded_wf(entries: Seq<SentPacketView>, entry: SentPacketView)
    requires
        ledger_wf(entries),
        all_fit(entry.messages),
    ensures
        ledger_wf(recorded(entries, entry)),
{
    lemma_slot(entries, entry.seq);
    let at = slot(entries, entry.seq);
    let after = recorded(entries, entry);
    if at < entries.len() {
        let cut = entries.remove(at);
        assert forall|i: int, j: int| 0 <= i < j < after.len() implies (#[trigger] after[i]).seq != (
        #[trigger] after[j]).seq by {
            let oi = if i < at {
                i
            } else {
                i + 1
            };
            assert(after[i] == entries[oi]);
            if j < cut.len() {
                let oj = if j < at {
                    j
                } else {
                    j + 1
                };
                assert(after[j] == entries[oj]);
            } else {
                assert(after[j] == entry);
                if oi < at {
                    assert(entries[oi].seq != entry.seq);
                } else {
                    assert(entries[at].seq != entries[oi].seq);
                }
            }
        }
        assert forall|i: int| 0 <= i < after.len() implies all_fit(
            (#[trigger] after[i]).messages,
        ) by {
            if i < cut.len() {
                let oi = if i < at {
                    i
                } else {
                    i + 1
                };
                assert(after[i] == entries[oi]);
            }
        }
    } else {
        assert forall|i: int, j: int| 0 <= i < j < after.len() implies (#[trigger] after[i]).seq != (
        #[trigger] after[j]).seq by {
            assert(after[i] == entries[i]);
            if j < entries.len() {
                assert(after[j] == entries[j]);
            }
        }
        assert forall|i: int| 0 <= i < after.len() implies all_fit(
            (#[trigger] after[i]).messages,
        ) by {
            if i < entries.len() {
                assert(after[i] == entries[i]);
            }
        }
    }
}

/// Every packet picked by its fate is one of the ledger, and stands behind
/// the packets picked before it as it did in the ledger.
pub proof fn lemma_with_fate_from(
    entries: Seq<SentPacketView>,
    receipt: Receipt,
    wanted: Fate,
    k: int,
) -> (origin: int)
    requires
        0 <= k < with_fate(entries, receipt, wanted).len(),
    ensures
        0 <= origin < entries.len(),
        entries[origin] == with_fate(entries, receipt, wanted)[k],
        fate(entries[origin], receipt) == wanted,
        k <= origin,
        with_fate(entries.take(origin), receipt, wanted).len() == k,
    decreases entries.len(),
{
    let front = entries.drop_last();
    let picked = with_fate(front, receipt, wanted);
    if k < picked.len() {
        let origin = lemma_with_fate_from(front, receipt, wanted, k);
        assert(front.take(origin) =~= entries.take(origin));
        origin
    } else {
        assert(front =~= entries.take(entries.len() - 1));
        lemma_with_fate_len(front, receipt, wanted);
        entries.len() - 1
    }
}

/// No more packets are picked than the ledger holds.
pub proof fn lemma_with_fate_len(entries: Seq<SentPacketView>, receipt: Receipt, wanted: Fate)
    ensures
        with_fate(entries, receipt, wanted).len() <= entries.len(),
    decreases entries.len(),
{
    if entries.len() > 0 {
        lemma_with_fate_len(entries.drop_last(), receipt, wanted);
    }
}

/// The packets that go on waiting form a well-formed ledger, and the lost
/// ones hold messages that can be written again.
pub proof fn lemma_with_fate_wf(entries: Seq<SentPacketView>, receipt: Receipt, wanted: Fate)
    requires
        ledger_wf(entries),
    ensures
        ledger_wf(with_fate(entries, receipt, wanted)),
        all_fit(messages_of(with_fate(entries, receipt, wanted))),
{
    let picked = with_fate(entries, receipt, wanted);
    assert forall|i: int, j: int| 0 <= i < j < picked.len() implies (#[trigger] picked[i]).seq != (
    #[trigger] picked[j]).seq by {
        let oi = lemma_with_fate_from(entries, receipt, wanted, i);
        let oj = lemma_with_fate_from(entries, receipt, wanted, j);
        if oi == oj {
            assert(false);
        }
        if oi < oj {
            assert(entries[oi].seq != entries[oj].seq);
        } else {
            assert(entries[oj].seq != entries[oi].seq);
        }
    }
    assert forall|i: int| 0 <= i < picked.len() implies all_fit((#[trigger] picked[i]).messages) by {
        let oi = lemma_with_fate_from(entries, receipt, wanted, i);
    }
    lemma_messages_fit(picked);
}

/// The messages of packets whose messages all fit do all fit.
pub proof fn lemma_messages_fit(entries: Seq<SentPacketView>)
    requires
        sendable(entries),
    ensures
        all_fit(messages_of(entries)),
    decreases entries.len(),
{
    if entries.len() > 0 {
        let front = entries.drop_last();
        assert forall|i: int| 0 <= i < front.len() implies all_fit(
            (#[trigger] front[i]).messages,
        ) by {
            assert(front[i] == entries[i]);
        }
        lemma_messages_fit(front);
        let all = messages_of(entries);
        let last = entries.last();
        assert(all_fit(last.messages));
        assert forall|i: int| 0 <= i < all.len() implies (#[trigger] all[i]).fits() by {
            if i < messages_of(front).len() {
                assert(all[i] == messages_of(front)[i]);
            } else {
                assert(all[i] == last.messages[i - messages_of(front).len()]);
            }
        }
    }
}

/// A packet is acknowledged, lost or waiting, so the three picks share out
/// the ledger: each packet is in exactly one of them.
pub proof fn lemma_fates_partition(entries: Seq<SentPacketView>, receipt: Receipt)
    ensures
        with_fate(entries, receipt, Fate::Acknowledged).len() + with_fate(
            entries,
            receipt,
            Fate::Lost,
        ).len() + with_fate(entries, receipt, Fate::Waiting).len() == entries.len(),
    decreases entries.len(),
{
    if entries.len() > 0 {
        lemma_fates_partition(entries.drop_last(), receipt);
    }
}

/// Packets that all have one fate are all picked by it and none of them by
/// another.
pub proof fn lemma_with_fate_all(
    entries: Seq<SentPacketView>,
    receipt: Receipt,
    held: Fate,
    wanted: Fate,
)
    requires
        forall|i: int| 0 <= i < entries.len() ==> fate(#[trigger] entries[i], receipt) == held,
    ensures
        with_fate(entries, receipt, wanted) == if wanted == held {
            entries
        } else {
            Seq::<SentPacketView>::empty()
        },
    decreases entries.len(),
{
    if entries.len() == 0 {
        assert(with_fate(entries, receipt, wanted) =~= entries);
    } else {
        let front = entries.drop_last();
        assert forall|i: int| 0 <= i < front.len() implies fate(#[trigger] front[i], receipt)
            == held by {
            assert(front[i] == entries[i]);
        }
        lemma_with_fate_all(front, receipt, held, wanted);
        assert(fate(entries[entries.len() - 1], receipt) == held);
        if wanted == held {
            assert(with_fate(entries, receipt, wanted) =~= entries);
        } else {
            assert(with_fate(entries, receipt, wanted) =~= Seq::<SentPacketView>::empty());
        }
    }
}

/// Every packet is settled once: the packets that an acknowledgment leaves
/// waiting are neither acknowledged nor lost by it, so settling the ledger
/// with the same acknowledgment again changes nothing.
pub proof fn lemma_settled_once(entries: Seq<SentPacketView>, receipt: Receipt)
    ensures
        with_fate(with_fate(entries, receipt, Fate::Waiting), receipt, Fate::Waiting) == with_fate(
            entries,
            receipt,
            Fate::Waiting,
        ),
        with_fate(with_fate(entries, receipt, Fate::Waiting), receipt, Fate::Acknowledged).len()
            == 0,
        with_fate(with_fate(entries, receipt, Fate::Waiting), receipt, Fate::Lost).len() == 0,
{
    let waiting = with_fate(entries, receipt, Fate::Waiting);
    assert forall|i: int| 0 <= i < waiting.len() implies fate(#[trigger] waiting[i], receipt)
        == Fate::Waiting by {
        let origin = lemma_with_fate_from(entries, receipt, Fate::Waiting, i);
    }
    lemma_with_fate_all(waiting, receipt, Fate::Waiting, Fate::Waiting);
    lemma_with_fate_all(waiting, receipt, Fate::Waiting, Fate::Acknowledged);
    lemma_with_fate_all(waiting, receipt, Fate::Waiting, Fate::Lost);
}

/// What an acknowledgment settles.
#[derive(Debug)]
pub struct Settlement {
    /// Round-trip samples in milliseconds of the acknowledged packets, in
    /// the order of the ledger.
    pub samples: Vec<u32>,
    /// The messages of the lost packets, in the order of the ledger.
    pub lost_messages: Vec<Message>,
    /// The written records of the lost packets, in the order of the ledger.
    pub lost_blocks: Vec<Vec<u8>>,
}

/// The packets that were sent and wait for their acknowledgment.
#[derive(Debug)]
pub struct Ledger {
    entries: VecDeque<SentPacket>,
}

impl View for Ledger {
    type V = Seq<SentPacketView>;

    closed spec fn view(&self) -> Seq<SentPacketView> {
        packets(self.entries@)
    }
}

impl Ledger {
    pub open spec fn wf(&self) -> bool {
        ledger_wf(self@)
    }

    pub fn new() -> (ledger: Ledger)
        ensures
            ledger.wf(),
            ledger@ == Seq::<SentPacketView>::empty(),
    {
        let ledger = Ledger { entries: VecDeque::new() };
        assert(ledger@ =~= Seq::<SentPacketView>::empty());
        ledger
    }

    pub fn len(&self) -> (len: usize)
        ensures
            len == self@.len(),
    {
        self.entries.len()
    }

    pub fn clear(&mut self)
        ensures
            final(self).wf(),
            final(self)@ == Seq::<SentPacketView>::empty(),
    {
        self.entries.clear();
        assert(self@ =~= Seq::<SentPacketView>::empty());
    }

    /// Where the packet with sequence number `seq` stands.
    fn find(&self, seq: u8) -> (at: usize)
        ensures
            at == slot(self@, seq),
            at <= self@.len(),
    {
        let ghost all = packets(self.entries@);
        let mut at: usize = 0;
        while at < self.entries.len()
            invariant
                all == packets(self.entries@),
                at <= self.entries@.len(),
                forall|j: int| 0 <= j < at ==> (#[trigger] all[j]).seq != seq,
            decreases self.entries@.len() - at,
        {
            assert(all[at as int] == self.entries@[at as int]@);
            if self.entries[at].seq == seq {
                proof {
                    lemma_slot_first(all, seq, at as int);
                }
                return at;
            }
            at += 1;
        }
        proof {
            lemma_slot_first(all, seq, at as int);
        }
        at
    }

    /// Enters a packet that was just sent. An earlier packet with the same
    /// sequence number leaves the ledger.
    pub fn record(&mut self, entry: SentPacket)
        requires
            old(self).wf(),
            all_fit(entry@.messages),
        ensures
            final(self).wf(),
            final(self)@ == recorded(old(self)@, entry@),
    {
        let ghost before = self@;
        let at: usize = self.find(entry.seq);
        if at < self.entries.len() {
            let _ = self.entries.remove(at);
            assert(packets(self.entries@) =~= before.remove(at as int));
        }
        let ghost cut = self@;
        self.entries.push_back(entry);
        assert(packets(self.entries@) =~= cut.push(entry@));
        proof {
            lemma_recorded_wf(before, entry@);
        }
    }

    /// Settles the ledger with a received acknowledgment. Acknowledged
    /// packets leave and give a round-trip sample each; packets older than
    /// the drop threshold leave as lost and give back their messages; the
    /// others stay.
    pub fn settle(
        &mut self,
        ack: u8,
        bitfield: u32,
        now: u64,
        tick_delay: u32,
        drop_threshold: u32,
    ) -> (settled: Settlement)
        requires
            old(self).wf(),
        ensures
            final(self).wf(),
            final(self)@ == with_fate(
                old(self)@,
                Receipt { ack, bitfield, now, drop_threshold },
                Fate::Waiting,
            ),
            micros(settled.samples@) == samples_of(
                with_fate(
                    old(self)@,
                    Receipt { ack, bitfield, now, drop_threshold },
                    Fate::Acknowledged,
                ),
                now,
                tick_delay,
            ),
            views(settled.lost_messages@) == messages_of(
                with_fate(old(self)@, Receipt { ack, bitfield, now, drop_threshold }, Fate::Lost),
            ),
            contents(settled.lost_blocks@) == blocks_of(
                with_fate(old(self)@, Receipt { ack, bitfield, now, drop_threshold }, Fate::Lost),
            ),
            all_fit(views(settled.lost_messages@)),
    {
        let ghost receipt = Receipt { ack, bitfield, now, drop_threshold };
        let ghost all = self@;
        let ghost mut done: int = 0;
        let mut kept: VecDeque<SentPacket> = VecDeque::new();
        let mut samples: Vec<u32> = Vec::new();
        let mut lost_messages: Vec<Message> = Vec::new();
        let mut lost_blocks: Vec<Vec<u8>> = Vec::new();
        proof {
            assert(all.take(0) =~= Seq::<SentPacketView>::empty());
            assert(packets(kept@) =~= with_fate(all.take(0), receipt, Fate::Waiting));
            assert(micros(samples@) =~= samples_of(
                with_fate(all.take(0), receipt, Fate::Acknowledged),
                now,
                tick_delay,
            ));
            assert(views(lost_messages@) =~= messages_of(
                with_fate(all.take(0), receipt, Fate::Lost),
            ));
            assert(contents(lost_blocks@) =~= blocks_of(
                with_fate(all.take(0), receipt, Fate::Lost),
            ));
            assert(all.skip(0) =~= all);
        }
        while self.entries.len() > 0
            invariant
                0 <= done <= all.len(),
                receipt == (Receipt { ack, bitfield, now, drop_threshold }),
                packets(self.entries@) == all.skip(done),
                packets(kept@) == with_fate(all.take(done), receipt, Fate::Waiting),
                micros(samples@) == samples_of(
                    with_fate(all.take(done), receipt, Fate::Acknowledged),
                    now,
                    tick_delay,
                ),
                views(lost_messages@) == messages_of(with_fate(all.take(done), receipt, Fate::Lost)),
                contents(lost_blocks@) == blocks_of(with_fate(all.take(done), receipt, Fate::Lost)),
            decreases self.entries@.len(),
        {
            let ghost left = self.entries@;
            let ghost waiting = packets(kept@);
            let ghost measured = micros(samples@);
            let ghost returned = views(lost_messages@);
            let ghost written = contents(lost_blocks@);
            assert(packets(left).len() == left.len());
            let mut entry = self.entries.pop_front().unwrap();
            proof {
                assert(entry@ == packets(left)[0]);
                assert(entry@ == all[done]);
                assert(packets(self.entries@) =~= packets(left).skip(1));
                assert(all.skip(done).skip(1) =~= all.skip(done + 1));
                assert(all.take(done + 1).drop_last() =~= all.take(done));
                assert(all.take(done + 1).last() == all[done]);
            }
            if seq_was_acked(entry.seq, ack, bitfield) {
                let sample: u32 = round_trip_sample(now, entry.time, tick_delay);
                samples.push(sample);
                proof {
                    assert(fate(entry@, receipt) == Fate::Acknowledged);
                    assert(micros(samples@) =~= measured.push(sample * 1000));
                    assert(samples_of(
                        with_fate(all.take(done + 1), receipt, Fate::Acknowledged),
                        now,
                        tick_delay,
                    ) =~= measured.push(sample * 1000));
                    assert(with_fate(all.take(done + 1), receipt, Fate::Waiting) =~= waiting);
                    assert(with_fate(all.take(done + 1), receipt, Fate::Lost) =~= with_fate(
                        all.take(done),
                        receipt,
                        Fate::Lost,
                    ));
                }
            } else if time_since(now, entry.time) > drop_threshold as u64 {
                let ghost carried = views(entry.messages@);
                let ghost block = entry.block@;
                lost_messages.append(&mut entry.messages);
                lost_blocks.push(entry.block);
                proof {
                    assert(fate(all[done], receipt) == Fate::Lost);
                    assert(views(lost_messages@) =~= returned + carried);
                    let gone = with_fate(all.take(done), receipt, Fate::Lost);
                    let more = with_fate(all.take(done + 1), receipt, Fate::Lost);
                    assert(more =~= gone.push(all[done]));
                    assert(more.drop_last() =~= gone);
                    assert(more.last() == all[done]);
                    assert(all[done].messages == carried);
                    assert(messages_of(more) =~= returned + carried);
                    assert(contents(lost_blocks@) =~= written.push(block));
                    assert(blocks_of(with_fate(all.take(done + 1), receipt, Fate::Lost))
                        =~= written.push(block));
                    assert(with_fate(all.take(done + 1), receipt, Fate::Waiting) =~= waiting);
                    assert(with_fate(all.take(done + 1), receipt, Fate::Acknowledged)
                        =~= with_fate(all.take(done), receipt, Fate::Acknowledged));
                }
            } else {
                kept.push_back(entry);
                proof {
                    assert(fate(entry@, receipt) == Fate::Waiting);
                    assert(packets(kept@) =~= waiting.push(entry@));
                    assert(with_fate(all.take(done + 1), receipt, Fate::Waiting) =~= waiting.push(
                        entry@,
                    ));
                    assert(with_fate(all.take(done + 1), receipt, Fate::Lost) =~= with_fate(
                        all.take(done),
                        receipt,
                        Fate::Lost,
                    ));
                    assert(with_fate(all.take(done + 1), receipt, Fate::Acknowledged)
                        =~= with_fate(all.take(done), receipt, Fate::Acknowledged));
                }
            }
            proof {
                done = done + 1;
            }
        }
        proof {
            assert(packets(self.entries@).len() == self.entries@.len());
            assert(all.take(done) =~= all);
            lemma_with_fate_wf(all, receipt, Fate::Waiting);
            lemma_with_fate_wf(all, receipt, Fate::Lost);
        }
        self.entries = kept;
        Settlement { samples, lost_messages, lost_blocks }
    }
}

} // verus!
