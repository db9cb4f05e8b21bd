//! Arithmetic on 8-bit packet sequence numbers and on the 32-entry
//! acknowledgment window that accompanies them.

use std::collections::VecDeque;
use vstd::prelude::*;

verus! {

/// Number of older packets that one acknowledgment bitfield covers.
pub const MAX_ACK_BITS: usize = 32;

/// How many steps forward lead from `from` to `to` when counting modulo 256.
pub open spec fn distance(from: u8, to: u8) -> int {
    if to >= from {
        to - from
    } else {
        to - from + 256
    }
}

/// `a < b (mod 256)`: the forward distance from `a` to `b` is non-zero and at
/// most half of the sequence space.
pub open spec fn precedes(a: u8, b: u8) -> bool {
    1 <= distance(a, b) <= 128
}

/// The sequence number that follows `seq`.
pub open spec fn successor(seq: u8) -> u8 {
    if seq == 255 {
        0u8
    } else {
        (seq + 1) as u8
    }
}

/// The sequence number that lies `steps` before `seq`.
pub open spec fn before(seq: u8, steps: int) -> u8
    recommends
        0 <= steps < 256,
{
    if seq >= steps {
        (seq - steps) as u8
    } else {
        (seq - steps + 256) as u8
    }
}

/// The sequence number reached from `start` after `steps` increments.
pub open spec fn advanced(start: u8, steps: nat) -> u8 {
    ((start + steps) % 256) as u8
}

/// Bit `index` of `bits`, counted from the least significant one.
pub open spec fn bit(bits: u32, index: u32) -> bool
    recommends
        index < 32,
{
    (bits >> index) & 1 == 1
}

/// Whether a packet that carries `ack` and `bitfield` acknowledges the packet
/// sent as `seq`: either it names it, or it is one of the 32 packets before
/// the named one and its bit is set.
pub open spec fn acknowledges(seq: u8, ack: u8, bitfield: u32) -> bool {
    seq == ack || (distance(seq, ack) <= 32 && bit(bitfield, (distance(seq, ack) - 1) as u32))
}

/// What identifies the acknowledgment bitfield to send with `ack` when
/// `received` holds the sequence numbers recorded as received: bit `i` is
/// set exactly if the sequence number `i + 1` steps before `ack` is among
/// them.
pub open spec fn covers(bits: u32, received: Seq<u8>, ack: u8) -> bool {
    forall|i: u32| 0 <= i < 32 ==> (#[trigger] bit(bits, i) <==> received.contains(before(ack, i + 1)))
}

/// The acknowledgment bitfield to send with `ack` when `received` holds the
/// sequence numbers recorded as received.
pub open spec fn bitfield_for(received: Seq<u8>, ack: u8) -> u32 {
    choose|bits: u32| covers(bits, received, ack)
}

/// Whether `seq` is one of the 32 numbers before `ack`, which are the ones
/// that the bitfield sent with `ack` reports.
pub open spec fn reported(seq: u8, ack: u8) -> bool {
    1 <= distance(seq, ack) <= MAX_ACK_BITS
}

/// Those of `numbers` that are among the 32 numbers before `ack`, in their
/// order.
pub open spec fn kept(numbers: Seq<u8>, ack: u8) -> Seq<u8>
    decreases numbers.len(),
{
    if numbers.len() == 0 {
        Seq::empty()
    } else {
        kept(numbers.drop_last(), ack) + if reported(numbers.last(), ack) {
            seq![numbers.last()]
        } else {
            Seq::empty()
        }
    }
}

/// What holds of the record of received numbers that is kept beside the
/// newest number `ack`: it holds only numbers among the 32 before `ack`,
/// and each of them once.
pub open spec fn record_wf(received: Seq<u8>, ack: u8) -> bool {
    &&& forall|i: int| 0 <= i < received.len() ==> reported(#[trigger] received[i], ack)
    &&& forall|i: int, j: int|
        0 <= i < j < received.len() ==> #[trigger] received[i] != #[trigger] received[j]
}

/// The newest number received once `seq` arrived: `seq` if nothing was
/// received before or if `seq` is ahead of the newest number so far, `ack`,
/// by at most half of the numbers; else `ack` as before.
pub open spec fn newest_after(heard: bool, ack: u8, seq: u8) -> u8 {
    if !heard || precedes(ack, seq) {
        seq
    } else {
        ack
    }
}

/// The record of received numbers once `seq` arrived, where `heard` says
/// whether anything was received before, `ack` is the newest number so far
/// and `received` the record beside it. A newer number makes `ack` one of
/// the recorded numbers, and those that are no longer among the 32 before
/// the new one leave. An older number that is among the 32 before `ack`
/// enters the record unless it is there. Any other changes nothing.
pub open spec fn noted(heard: bool, received: Seq<u8>, ack: u8, seq: u8) -> Seq<u8> {
    if !heard {
        Seq::empty()
    } else if precedes(ack, seq) {
        kept(received.push(ack), seq)
    } else if reported(seq, ack) && !received.contains(seq) {
        received.push(seq)
    } else {
        received
    }
}

pub fn seq_distance(from: u8, to: u8) -> (d: u8)
    ensures
        d == distance(from, to),
{
    if to >= from {
        to - from
    } else {
        255 - from + to + 1
    }
}

pub fn seq_successor(seq: u8) -> (next: u8)
    ensures
        next == successor(seq),
        next == advanced(seq, 1),
{
    if seq == 255 {
        0
    } else {
        seq + 1
    }
}

/// Whether `a` is more recent than `b`, that is `b < a (mod 256)`.
pub fn seq_is_more_recent(a: u8, b: u8) -> (recent: bool)
    ensures
        recent == precedes(b, a),
{
    let d: u8 = seq_distance(b, a);
    1 <= d && d <= 128
}

/// The position in the bitfield sent with `ack` at which `seq` is
/// reported: the number of steps from `seq` to `ack`, less one. For `ack`
/// itself, which the bitfield does not report, that is 255.
pub fn seq_bit_index(seq: u8, ack: u8) -> (index: u8)
    ensures
        index == if seq == ack {
            255
        } else {
            distance(seq, ack) - 1
        },
        seq == before(ack, index + 1),
{
    let steps: u8 = seq_distance(seq, ack);
    if steps == 0 {
        255
    } else {
        steps - 1
    }
}

pub fn seq_was_acked(seq: u8, ack: u8, bitfield: u32) -> (acked: bool)
    ensures
        acked == acknowledges(seq, ack, bitfield),
{
    if seq == ack {
        true
    } else {
        let index: u8 = seq_bit_index(seq, ack);
        index < 32 && (bitfield >> (index as u32)) & 1 == 1
    }
}

proof fn lemma_set_bit(bits: u32, index: u32, other: u32)
    by (bit_vector)
    requires
        index < 32,
        other < 32,
    ensures
        bit(bits | (1u32 << index), other) == (bit(bits, other) || other == index),
{
}

proof fn lemma_no_bits(other: u32)
    by (bit_vector)
    requires
        other < 32,
    ensures
        !bit(0u32, other),
{
}

proof fn lemma_bit_is_binary(bits: u32, index: u32)
    by (bit_vector)
    ensures
        (bits >> index) & 1 == 0 || (bits >> index) & 1 == 1,
{
}

proof fn lemma_agree_step(a: u32, b: u32, k: u32, up: u32, next: u32)
    by (bit_vector)
    requires
        k < 32,
        up == 32 - k,
        next == 31 - k,
        k == 0 || (a << up) == (b << up),
        (a >> k) & 1 == (b >> k) & 1,
    ensures
        (a << next) == (b << next),
{
}

proof fn lemma_agree_all(a: u32, b: u32)
    by (bit_vector)
    requires
        (a << 0u32) == (b << 0u32),
    ensures
        a == b,
{
}

proof fn lemma_agree_upto(a: u32, b: u32, k: u32)
    requires
        1 <= k <= 32,
        forall|i: u32| i < 32 ==> (a >> i) & 1 == (b >> i) & 1,
    ensures
        (a << ((32 - k) as u32)) == (b << ((32 - k) as u32)),
    decreases k,
{
    let low = (k - 1) as u32;
    if low >= 1 {
        lemma_agree_upto(a, b, low);
    }
    lemma_agree_step(a, b, low, (32 - low) as u32, (31 - low) as u32);
}

/// Two bitfields that agree in every bit are the same number.
pub proof fn lemma_bits_determine(a: u32, b: u32)
    requires
        forall|i: u32| i < 32 ==> (a >> i) & 1 == (b >> i) & 1,
    ensures
        a == b,
{
    lemma_agree_upto(a, b, 32);
    lemma_agree_all(a, b);
}

/// At most one bitfield goes with given arrivals and a given acknowledged
/// number, so `covers` fixes what `ack_bitfield` returns.
pub proof fn lemma_covers_unique(a: u32, b: u32, received: Seq<u8>, ack: u8)
    requires
        covers(a, received, ack),
        covers(b, received, ack),
    ensures
        a == b,
{
    assert forall|i: u32| i < 32 implies (a >> i) & 1 == (b >> i) & 1 by {
        assert(bit(a, i) <==> received.contains(before(ack, i + 1)));
        assert(bit(b, i) <==> received.contains(before(ack, i + 1)));
        lemma_bit_is_binary(a, i);
        lemma_bit_is_binary(b, i);
    }
    lemma_bits_determine(a, b);
}

/// Builds the acknowledgment bitfield that accompanies `ack` from the
/// sequence numbers received lately.
pub fn ack_bitfield(received: &VecDeque<u8>, ack: u8) -> (bits: u32)
    ensures
        covers(bits, received@, ack),
        bits == bitfield_for(received@, ack),
{
    let mut bits: u32 = 0;
    let mut k: usize = 0;
    proof {
        assert forall|i: u32| 0 <= i < 32 implies (#[trigger] bit(bits, i) <==> received@.take(
            0,
        ).contains(before(ack, i + 1))) by {
            lemma_no_bits(i);
        }
    }
    while k < received.len()
        invariant
            k <= received@.len(),
            covers(bits, received@.take(k as int), ack),
        decreases received@.len() - k,
    {
        let seq: u8 = received[k];
        let ghost prior = bits;
        let ghost seen = received@.take(k as int);
        let ghost next = received@.take(k + 1);
        assert(next =~= seen.push(seq));
        if seq != ack {
            let index: u8 = seq_bit_index(seq, ack);
            if index < 32 {
                bits = bits | (1u32 << (index as u32));
                proof {
                    assert forall|i: u32| 0 <= i < 32 implies (#[trigger] bit(bits, i)
                        <==> next.contains(before(ack, i + 1))) by {
                        lemma_set_bit(prior, index as u32, i);
                        assert(bit(prior, i) <==> seen.contains(before(ack, i + 1)));
                        lemma_contains_push(seen, seq, before(ack, i + 1));
                        if i == index {
                            assert(before(ack, i + 1) == seq);
                        } else {
                            assert(before(ack, i + 1) != seq);
                        }
                    }
                }
            } else {
                proof {
                    assert forall|i: u32| 0 <= i < 32 implies (#[trigger] bit(bits, i)
                        <==> next.contains(before(ack, i + 1))) by {
                        assert(bit(prior, i) <==> seen.contains(before(ack, i + 1)));
                        lemma_contains_push(seen, seq, before(ack, i + 1));
                        assert(before(ack, i + 1) != seq);
                    }
                }
            }
        } else {
            proof {
                assert forall|i: u32| 0 <= i < 32 implies (#[trigger] bit(bits, i)
                    <==> next.contains(before(ack, i + 1))) by {
                    assert(bit(prior, i) <==> seen.contains(before(ack, i + 1)));
                    lemma_contains_push(seen, seq, before(ack, i + 1));
                    assert(before(ack, i + 1) != seq);
                }
            }
        }
        k += 1;
    }
    assert(received@.take(k as int) =~= received@);
    proof {
        lemma_covers_unique(bits, bitfield_for(received@, ack), received@, ack);
    }
    bits
}

/// A number is kept exactly if it was there and is among the 32 numbers
/// before `ack`.
pub proof fn lemma_kept_contains(numbers: Seq<u8>, ack: u8, value: u8)
    ensures
        kept(numbers, ack).contains(value) <==> numbers.contains(value) && reported(value, ack),
    decreases numbers.len(),
{
    if numbers.len() == 0 {
    } else {
        let front = numbers.drop_last();
        let last = numbers.last();
        lemma_kept_contains(front, ack, value);
        assert(numbers =~= front.push(last));
        lemma_contains_push(front, last, value);
        if reported(last, ack) {
            assert(kept(numbers, ack) =~= kept(front, ack).push(last));
            lemma_contains_push(kept(front, ack), last, value);
        } else {
            assert(kept(numbers, ack) =~= kept(front, ack));
        }
    }
}

/// Numbers that are kept stand once among the kept ones if they stood once
/// before.
pub proof fn lemma_kept_distinct(numbers: Seq<u8>, ack: u8)
    requires
        forall|i: int, j: int|
            0 <= i < j < numbers.len() ==> #[trigger] numbers[i] != #[trigger] numbers[j],
    ensures
        record_wf(kept(numbers, ack), ack),
    decreases numbers.len(),
{
    if numbers.len() > 0 {
        let front = numbers.drop_last();
        let last = numbers.last();
        assert forall|i: int, j: int| 0 <= i < j < front.len() implies #[trigger] front[i]
            != #[trigger] front[j] by {
            assert(front[i] == numbers[i]);
            assert(front[j] == numbers[j]);
        }
        lemma_kept_distinct(front, ack);
        let before = kept(front, ack);
        let after = kept(numbers, ack);
        if reported(last, ack) {
            assert(after =~= before.push(last));
            lemma_kept_contains(front, ack, last);
            assert(!front.contains(last)) by {
                if front.contains(last) {
                    let k = choose|k: int| 0 <= k < front.len() && front[k] == last;
                    assert(numbers[k] != numbers[numbers.len() - 1]);
                }
            }
            assert forall|i: int, j: int| 0 <= i < j < after.len() implies #[trigger] after[i]
                != #[trigger] after[j] by {
                if j == before.len() {
                    assert(before.contains(after[i]));
                } else {
                    assert(after[i] == before[i]);
                    assert(after[j] == before[j]);
                }
            }
            assert forall|i: int| 0 <= i < after.len() implies reported(#[trigger] after[i], ack) by {
                if i < before.len() {
                    assert(after[i] == before[i]);
                }
            }
        } else {
            assert(after =~= before);
        }
    }
}

/// The record stays in order when a number arrives.
pub proof fn lemma_noted_wf(heard: bool, received: Seq<u8>, ack: u8, seq: u8)
    requires
        record_wf(received, ack),
    ensures
        record_wf(noted(heard, received, ack, seq), newest_after(heard, ack, seq)),
{
    if !heard {
    } else if precedes(ack, seq) {
        let all = received.push(ack);
        assert forall|i: int, j: int| 0 <= i < j < all.len() implies #[trigger] all[i]
            != #[trigger] all[j] by {
            assert(all[i] == received[i]);
            if j < received.len() {
                assert(all[j] == received[j]);
            } else {
                assert(reported(received[i], ack));
            }
        }
        lemma_kept_distinct(all, seq);
    } else if reported(seq, ack) && !received.contains(seq) {
        let all = received.push(seq);
        assert forall|i: int, j: int| 0 <= i < j < all.len() implies #[trigger] all[i]
            != #[trigger] all[j] by {
            assert(all[i] == received[i]);
            if j < received.len() {
                assert(all[j] == received[j]);
            } else {
                assert(received.contains(received[i]));
            }
        }
        assert forall|i: int| 0 <= i < all.len() implies reported(#[trigger] all[i], ack) by {
            if i < received.len() {
                assert(all[i] == received[i]);
            }
        }
    } else {
    }
}

/// What the record holds once `seq` arrived: the numbers among the 32
/// before the newest one that were received, that is `seq` itself, the
/// newest number before it, and the numbers that were recorded before.
pub proof fn lemma_noted_holds(heard: bool, received: Seq<u8>, ack: u8, seq: u8, value: u8)
    requires
        record_wf(received, ack),
    ensures
        noted(heard, received, ack, seq).contains(value) <==> reported(
            value,
            newest_after(heard, ack, seq),
        ) && (value == seq || (heard && (value == ack || received.contains(value)))),
{
    if !heard {
    } else if precedes(ack, seq) {
        lemma_kept_contains(received.push(ack), seq, value);
        lemma_contains_push(received, ack, value);
    } else if reported(seq, ack) && !received.contains(seq) {
        lemma_contains_push(received, seq, value);
        if received.contains(value) {
            let k = choose|k: int| 0 <= k < received.len() && received[k] == value;
            assert(reported(received[k], ack));
        }
    } else {
        if received.contains(value) {
            let k = choose|k: int| 0 <= k < received.len() && received[k] == value;
            assert(reported(received[k], ack));
        }
    }
}

/// The newest number received once the numbers of `arrivals` arrived, one
/// after another, where nothing was received before.
pub open spec fn newest_of(arrivals: Seq<u8>) -> u8
    decreases arrivals.len(),
{
    if arrivals.len() == 0 {
        0
    } else {
        newest_after(arrivals.len() > 1, newest_of(arrivals.drop_last()), arrivals.last())
    }
}

/// The record of received numbers once the numbers of `arrivals` arrived,
/// one after another, where nothing was received before.
pub open spec fn record_of(arrivals: Seq<u8>) -> Seq<u8>
    decreases arrivals.len(),
{
    if arrivals.len() == 0 {
        Seq::empty()
    } else {
        noted(
            arrivals.len() > 1,
            record_of(arrivals.drop_last()),
            newest_of(arrivals.drop_last()),
            arrivals.last(),
        )
    }
}

/// What is acknowledged is what was received, in whatever order it
/// arrived and however often: of numbers that arrived and of which none is
/// further than 127 steps ahead of the first, the newest is the one
/// furthest ahead, and the record holds exactly those of them that are
/// among the 32 numbers before the newest. So the bitfield sent with the
/// newest has bit `i` set exactly if the number `i + 1` steps before it
/// arrived.
pub proof fn lemma_arrivals_recorded(arrivals: Seq<u8>)
    requires
        arrivals.len() > 0,
        forall|j: int| 0 <= j < arrivals.len() ==> distance(arrivals[0], #[trigger] arrivals[j]) <= 127,
    ensures
        arrivals.contains(newest_of(arrivals)),
        forall|j: int|
            0 <= j < arrivals.len() ==> distance(arrivals[0], #[trigger] arrivals[j]) <= distance(
                arrivals[0],
                newest_of(arrivals),
            ),
        record_wf(record_of(arrivals), newest_of(arrivals)),
        forall|value: u8|
            #[trigger] record_of(arrivals).contains(value) <==> arrivals.contains(value)
                && reported(value, newest_of(arrivals)),
        forall|i: u32|
            i < 32 ==> (#[trigger] bit(
                bitfield_for(record_of(arrivals), newest_of(arrivals)),
                i,
            ) <==> arrivals.contains(before(newest_of(arrivals), i + 1))),
    decreases arrivals.len(),
{
    let first = arrivals[0];
    let front = arrivals.drop_last();
    let seq = arrivals.last();
    let newest = newest_of(arrivals);
    let record = record_of(arrivals);
    assert(arrivals =~= front.push(seq));
    if front.len() == 0 {
        assert(newest == seq);
        assert(arrivals[0] == seq);
        assert(record =~= Seq::<u8>::empty());
        assert forall|value: u8| #[trigger]
            record.contains(value) <==> arrivals.contains(value) && reported(value, newest) by {
            if arrivals.contains(value) {
                let k = choose|k: int| 0 <= k < arrivals.len() && arrivals[k] == value;
                assert(value == seq);
            }
        }
    } else {
        assert(front[0] == first);
        assert forall|j: int| 0 <= j < front.len() implies distance(front[0], #[trigger] front[j])
            <= 127 by {
            assert(front[j] == arrivals[j]);
        }
        lemma_arrivals_recorded(front);
        let ack = newest_of(front);
        let before_record = record_of(front);
        assert(distance(first, seq) <= 127) by {
            assert(arrivals[arrivals.len() - 1] == seq);
        }
        assert(distance(first, ack) <= 127) by {
            let k = choose|k: int| 0 <= k < front.len() && front[k] == ack;
            assert(arrivals[k] == ack);
        }
        assert(newest == newest_after(true, ack, seq));
        assert(record == noted(true, before_record, ack, seq));
        lemma_noted_wf(true, before_record, ack, seq);
        if newest == seq {
            assert(arrivals[arrivals.len() - 1] == newest);
        } else {
            let k = choose|k: int| 0 <= k < front.len() && front[k] == ack;
            assert(arrivals[k] == newest);
        }
        assert forall|j: int| 0 <= j < arrivals.len() implies distance(
            first,
            #[trigger] arrivals[j],
        ) <= distance(first, newest) by {
            if j < front.len() {
                assert(arrivals[j] == front[j]);
                assert(distance(first, front[j]) <= distance(first, ack));
            }
        }
        assert forall|value: u8| #[trigger]
            record.contains(value) <==> arrivals.contains(value) && reported(value, newest) by {
            lemma_noted_holds(true, before_record, ack, seq, value);
            lemma_contains_push(front, seq, value);
            assert(before_record.contains(value) <==> front.contains(value) && reported(
                value,
                ack,
            ));
            if front.contains(value) {
                let k = choose|k: int| 0 <= k < front.len() && front[k] == value;
                assert(distance(first, front[k]) <= distance(first, ack));
            }
            assert(front.contains(ack));
        }
    }
    lemma_bitfield_for(record, newest);
    assert forall|i: u32| i < 32 implies (#[trigger] bit(bitfield_for(record, newest), i)
        <==> arrivals.contains(before(newest, i + 1))) by {
        let number = before(newest, i + 1);
        assert(bit(bitfield_for(record, newest), i) <==> record.contains(number));
        assert(reported(number, newest));
        assert(record.contains(number) <==> arrivals.contains(number) && reported(number, newest));
    }
}

/// Whether `seq` is among `received`.
fn is_recorded(received: &VecDeque<u8>, seq: u8) -> (found: bool)
    ensures
        found == received@.contains(seq),
{
    let mut k: usize = 0;
    while k < received.len()
        invariant
            k <= received@.len(),
            forall|j: int| 0 <= j < k ==> received@[j] != seq,
        decreases received@.len() - k,
    {
        if received[k] == seq {
            return true;
        }
        k += 1;
    }
    false
}

/// Takes note that the number `seq` arrived, where `heard` says whether
/// anything arrived before, `ack` is the newest number so far and
/// `received` the record beside it. Returns the newest number now.
pub fn note_received(received: &mut VecDeque<u8>, heard: bool, ack: u8, seq: u8) -> (newest: u8)
    requires
        record_wf(old(received)@, ack),
    ensures
        newest == newest_after(heard, ack, seq),
        final(received)@ == noted(heard, old(received)@, ack, seq),
        record_wf(final(received)@, newest),
{
    proof {
        lemma_noted_wf(heard, received@, ack, seq);
    }
    if !heard {
        received.clear();
        return seq;
    }
    if seq_is_more_recent(seq, ack) {
        let mut all: VecDeque<u8> = VecDeque::new();
        core::mem::swap(&mut all, received);
        all.push_back(ack);
        let ghost numbers = all@;
        let ghost mut done: int = 0;
        assert(numbers.take(0) =~= Seq::<u8>::empty());
        assert(numbers.skip(0) =~= numbers);
        while all.len() > 0
            invariant
                0 <= done <= numbers.len(),
                all@ == numbers.skip(done),
                received@ == kept(numbers.take(done), seq),
            decreases all@.len(),
        {
            let number: u8 = all.pop_front().unwrap();
            proof {
                assert(number == numbers[done]);
                assert(numbers.skip(done).skip(1) =~= numbers.skip(done + 1));
                assert(numbers.take(done + 1).drop_last() =~= numbers.take(done));
                assert(numbers.take(done + 1).last() == number);
            }
            let steps: u8 = seq_distance(number, seq);
            if 1 <= steps && steps <= 32 {
                received.push_back(number);
            }
            proof {
                done = done + 1;
            }
        }
        assert(numbers.take(done) =~= numbers);
        seq
    } else {
        let steps: u8 = seq_distance(seq, ack);
        if 1 <= steps && steps <= 32 && !is_recorded(received, seq) {
            received.push_back(seq);
        }
        ack
    }
}

/// For any arrivals and any acknowledged number there is a bitfield that
/// reports them, and `bitfield_for` is it: bit `i` is set exactly if the
/// sequence number `i + 1` steps before `ack` is among the arrivals.
pub proof fn lemma_bitfield_for(received: Seq<u8>, ack: u8)
    ensures
        covers(bitfield_for(received, ack), received, ack),
    decreases received.len(),
{
    let bits = lemma_cover(received, ack);
    assert(covers(bits, received, ack));
}

proof fn lemma_cover(received: Seq<u8>, ack: u8) -> (bits: u32)
    ensures
        covers(bits, received, ack),
    decreases received.len(),
{
    if received.len() == 0 {
        assert forall|i: u32| 0 <= i < 32 implies (#[trigger] bit(0u32, i) <==> received.contains(
            before(ack, i + 1),
        )) by {
            lemma_no_bits(i);
        }
        0u32
    } else {
        let seen = received.drop_last();
        let seq = received.last();
        let prior = lemma_cover(seen, ack);
        assert(received =~= seen.push(seq));
        if seq != ack && distance(seq, ack) <= 32 {
            let index = (distance(seq, ack) - 1) as u32;
            let bits = prior | (1u32 << index);
            assert forall|i: u32| 0 <= i < 32 implies (#[trigger] bit(bits, i) <==> received.contains(
                before(ack, i + 1),
            )) by {
                lemma_set_bit(prior, index, i);
                assert(bit(prior, i) <==> seen.contains(before(ack, i + 1)));
                lemma_contains_push(seen, seq, before(ack, i + 1));
            }
            bits
        } else {
            assert forall|i: u32| 0 <= i < 32 implies (#[trigger] bit(prior, i)
                <==> received.contains(before(ack, i + 1))) by {
                assert(bit(prior, i) <==> seen.contains(before(ack, i + 1)));
                lemma_contains_push(seen, seq, before(ack, i + 1));
            }
            prior
        }
    }
}

/// A value is in a sequence with one more item exactly if it is that item or
/// was in the sequence before.
pub proof fn lemma_contains_push(s: Seq<u8>, item: u8, value: u8)
    ensures
        s.push(item).contains(value) <==> (s.contains(value) || value == item),
{
    if s.contains(value) {
        let j = choose|j: int| 0 <= j < s.len() && s[j] == value;
        assert(s.push(item)[j] == value);
    }
    if value == item {
        assert(s.push(item)[s.len() as int] == value);
    }
    if s.push(item).contains(value) {
        let j = choose|j: int| 0 <= j < s.push(item).len() && s.push(item)[j] == value;
        if j < s.len() {
            assert(s[j] == value);
        }
    }
}

/// After `steps` packets the sequence number has advanced by `steps` modulo
/// 256: counting on from `start` one packet at a time arrives where
/// `advanced` says.
pub proof fn lemma_successor_steps(start: u8, steps: nat)
    ensures
        advanced(start, 0) == start,
        advanced(start, steps + 1) == successor(advanced(start, steps)),
{
}

} // verus!
