//! What a deshredder does with a packet: whether it is refused, what it counts for,
//! which slots are kept, and which batches come out.

use crate::deshredder::{
    batch_of, batches_of, law_trimmed, payload_of, segments_counted, slot_limit, BatchModel,
    DeshredderModel, Payload,
};
use crate::entry::{decoded, law_marker, num_transactions, starts_with_zeros};
use crate::shred::{parse_error, shred_bytes, slot_of, version_of};
use crate::slot::{SegmentModel, SlotModel};
use crate::stats::{counted, Stats};
use solana_transaction::versioned::VersionedTransaction;
use vstd::prelude::*;

verus! {

/// Counting goes on where it stopped, one by one, and starts over after the largest
/// number.
pub proof fn law_counting(counter: u64, a: nat, b: nat)
    ensures
        counted(counted(counter, a), b) == counted(counter, a + b),
        counted(counter, 0) == counter,
        counter < u64::MAX ==> counted(counter, 1) == counter + 1,
        counted(u64::MAX, 1) == 0,
{
    let n: int = 0x1_0000_0000_0000_0000;
    let x: int = counter + a as int;
    let y: int = b as int;
    assert(((x % n) + y) % n == (x + y) % n) by {
        vstd::arithmetic::div_mod::lemma_add_mod_noop(x, y, n);
        vstd::arithmetic::div_mod::lemma_add_mod_noop(x % n, y, n);
        vstd::arithmetic::div_mod::lemma_mod_twice(x, n);
    }
}

/// Which packets are refused, and as what: those that are no shred as invalid, shreds
/// of another version than the one asked for as such, and shreds of a slot that is
/// further behind the highest one than the lookback as stale. Nothing else is refused.
pub proof fn law_refusal(m: DeshredderModel, packet: Seq<u8>)
    ensures
        ({
            let b = shred_bytes(packet);
            let malformed = parse_error(packet) is Some;
            let other_version = !malformed && m.config.shred_version is Some
                && m.config.shred_version->0 != version_of(b);
            let too_old = !malformed && !other_version && slot_of(b) + m.config.slot_lookback
                < m.highest_slot;
            let one = |counter: u64, more: bool|
                if more {
                    counted(counter, 1)
                } else {
                    counter
                };
            let after = m.pushed(packet).stats;
            &&& m.refused(packet) is Some <==> malformed || other_version || too_old
            &&& after.invalid == one(m.stats.invalid, malformed)
            &&& after.wrong_version == one(m.stats.wrong_version, other_version)
            &&& after.stale == one(m.stats.stale, too_old)
            &&& after.dropped == m.stats.dropped
            &&& m.refused(packet) is Some ==> after == (Stats {
                packets: after.packets,
                invalid: after.invalid,
                wrong_version: after.wrong_version,
                stale: after.stale,
                ..m.stats
            })
        }),
{
    if m.refused(packet) is None {
        let b = shred_bytes(packet);
        let done = m.slot(slot_of(b)).inserted(b, m.recovery, m.packet_counted());
        lemma_only_payloads_counted(m.segments(packet), done.stats);
    }
}

/// Seeing payloads counts payloads and what is in them, and nothing else.
proof fn lemma_only_payloads_counted(segments: Seq<SegmentModel>, stats: Stats)
    ensures
        ({
            let after = segments_counted(segments, stats);
            after == (Stats {
                batches: after.batches,
                block_markers: after.block_markers,
                decode_errors: after.decode_errors,
                entries: after.entries,
                transactions: after.transactions,
                ..stats
            })
        }),
    decreases segments.len(),
{
    if segments.len() > 0 {
        lemma_only_payloads_counted(segments.drop_last(), stats);
    }
}

/// What becomes of a shred that is not refused is what becomes of it in its slot: it
/// counts as that, and once.
pub proof fn law_accepted_counts_as_in_its_slot(m: DeshredderModel, packet: Seq<u8>)
    requires
        m.refused(packet) is None,
    ensures
        ({
            let b = shred_bytes(packet);
            let slot = m.slot(slot_of(b)).inserted(b, m.recovery, m.stats).stats;
            let after = m.pushed(packet).stats;
            &&& after.duplicates == slot.duplicates
            &&& after.unneeded == slot.unneeded
            &&& after.rejected == slot.rejected
            &&& after.recovered == slot.recovered
            &&& after.recovery_failures == slot.recovery_failures
            &&& after.packets == counted(m.stats.packets, 1)
        }),
{
    let b = shred_bytes(packet);
    let done = m.slot(slot_of(b)).inserted(b, m.recovery, m.packet_counted());
    lemma_only_payloads_counted(m.segments(packet), done.stats);
}

/// The window moves to a slot that gives a complete run and is higher than all that
/// did before, and does not move otherwise.
pub proof fn law_window_moves(m: DeshredderModel, packet: Seq<u8>)
    ensures
        ({
            let slot = slot_of(shred_bytes(packet));
            let moves = m.refused(packet) is None && m.segments(packet).len() > 0 && slot
                > m.highest_slot;
            m.pushed(packet).highest_slot == (if moves {
                slot
            } else {
                m.highest_slot
            })
        }),
{
}

/// Which slots are kept once a packet was accepted: of those known before and that of
/// the packet, all that are not further behind the highest one than the lookback, or
/// as many of them as there is room for, the lowest first. There is room for four
/// times the lookback, and for one slot at least.
pub proof fn law_slots_kept(m: DeshredderModel, packet: Seq<u8>, slot: u64)
    requires
        m.valid(),
        m.refused(packet) is None,
    ensures
        ({
            let next = m.pushed(packet);
            let known = m.slots.contains_key(slot) || slot == slot_of(shred_bytes(packet));
            let recent = slot + m.config.slot_lookback >= next.highest_slot;
            let room = slot_limit(m.config.slot_lookback);
            &&& next.slots.contains_key(slot) ==> known && recent
            &&& known && recent && !next.slots.contains_key(slot) ==> {
                &&& next.slots.dom().len() == room
                &&& forall|kept: u64| #[trigger] next.slots.contains_key(kept) ==> kept < slot
            }
            &&& room >= 1
            &&& room >= 4 * m.config.slot_lookback
            &&& room == 1 || room == 4 * m.config.slot_lookback
        }),
{
    let b = shred_bytes(packet);
    let done = m.slot(slot_of(b)).inserted(b, m.recovery, m.packet_counted());
    lemma_slots_kept(m, slot_of(b), done.slot, done.segments.len() > 0, slot);
}

proof fn lemma_slots_kept(
    m: DeshredderModel,
    to: u64,
    known: SlotModel,
    emitted: bool,
    slot: u64,
)
    requires
        m.slots.dom().finite(),
        forall|other: u64| #[trigger] m.slots.contains_key(other) ==> !m.is_stale(other),
        !m.is_stale(to),
    ensures
        ({
            let next = m.advanced(to, known, emitted);
            let is_known = m.slots.contains_key(slot) || slot == to;
            let recent = slot + m.config.slot_lookback >= next.highest_slot;
            let room = slot_limit(m.config.slot_lookback);
            &&& next.slots.contains_key(slot) ==> is_known && recent
            &&& is_known && recent && !next.slots.contains_key(slot) ==> {
                &&& next.slots.dom().len() == room
                &&& forall|kept: u64| #[trigger] next.slots.contains_key(kept) ==> kept < slot
            }
        }),
{
    let room = slot_limit(m.config.slot_lookback);
    let slots = m.slots.insert(to, known);
    assert(slots.contains_key(slot) <==> m.slots.contains_key(slot) || slot == to);
    if emitted && to > m.highest_slot {
        let recent = slots.restrict(Set::new(|other: u64| other + m.config.slot_lookback >= to));
        assert(recent.dom().subset_of(slots.dom()));
        vstd::set_lib::lemma_set_subset_finite(slots.dom(), recent.dom());
        law_trimmed(recent, room);
        assert(recent.contains_key(slot) <==> slots.contains_key(slot) && slot
            + m.config.slot_lookback >= to);
    } else {
        law_trimmed(slots, room);
    }
}

/// What a payload holds: a block marker where it starts with eight zero bytes, and
/// otherwise the entries that it decodes to, if it does.
pub proof fn law_payload(bytes: Seq<u8>)
    ensures
        payload_of(bytes) is BlockMarker <==> starts_with_zeros(bytes),
        forall|entries: Seq<(u64, solana_hash::Hash, Seq<VersionedTransaction>)>|
            payload_of(bytes) == Payload::Entries(entries) <==> !starts_with_zeros(bytes)
                && #[trigger] decodes_to(bytes, entries),
{
    law_marker(bytes, 0, Seq::empty());
}

/// Whether `bytes` decode to `entries`.
pub open spec fn decodes_to(
    bytes: Seq<u8>,
    entries: Seq<(u64, solana_hash::Hash, Seq<VersionedTransaction>)>,
) -> bool {
    decoded(bytes) matches Ok(found) && found == entries
}

/// Segments give their batches one by one, in their order.
pub proof fn law_batches_of_both(slot: u64, a: Seq<SegmentModel>, b: Seq<SegmentModel>)
    ensures
        batches_of(slot, a + b) == batches_of(slot, a) + batches_of(slot, b),
    decreases b.len(),
{
    if b.len() == 0 {
        assert(a + b =~= a);
        assert(batches_of(slot, a) + Seq::empty() =~= batches_of(slot, a));
    } else {
        assert((a + b).drop_last() =~= a + b.drop_last());
        law_batches_of_both(slot, a, b.drop_last());
        assert(batches_of(slot, a + b) =~= batches_of(slot, a) + batches_of(slot, b));
    }
}

/// A segment gives a batch exactly if it is no block marker and decodes, and the batch
/// has the slot, the range, the mark of the slot's end and the entries of the segment.
pub proof fn law_batch_of_one(slot: u64, segment: SegmentModel)
    ensures
        ({
            let batches = batches_of(slot, seq![segment]);
            if !starts_with_zeros(segment.bytes) && decoded(segment.bytes) is Ok {
                &&& batches.len() == 1
                &&& batches[0].slot == slot
                &&& batches[0].shreds == segment.shreds
                &&& batches[0].last_in_slot == segment.last_in_slot
                &&& decodes_to(segment.bytes, batches[0].entries)
            } else {
                batches.len() == 0
            }
        }),
{
    let one = seq![segment];
    assert(one.drop_last() =~= Seq::empty());
    law_marker(segment.bytes, 0, Seq::empty());
    reveal_with_fuel(batches_of, 2);
    assert(batches_of(slot, one) =~= batch_of(slot, segment, payload_of(segment.bytes)));
}

/// How many entries there are in batches.
pub open spec fn total_entries(batches: Seq<BatchModel>) -> nat {
    batches.fold_left(0, |n: nat, batch: BatchModel| n + batch.entries.len())
}

/// How many transactions there are in batches.
pub open spec fn total_transactions(batches: Seq<BatchModel>) -> nat {
    batches.fold_left(0, |n: nat, batch: BatchModel| n + num_transactions(batch.entries))
}

/// How many of the segments are block markers.
pub open spec fn num_markers(segments: Seq<SegmentModel>) -> nat {
    segments.filter(|segment: SegmentModel| starts_with_zeros(segment.bytes)).len()
}

/// What segments count for is what comes out of them: every batch, its entries and
/// its transactions, every block marker, and every one of the rest as an error.
pub proof fn law_payloads_counted(slot: u64, segments: Seq<SegmentModel>, stats: Stats)
    ensures
        ({
            let batches = batches_of(slot, segments);
            let after = segments_counted(segments, stats);
            let errors = segments.len() - batches.len() - num_markers(segments);
            &&& errors >= 0
            &&& after.batches == counted(stats.batches, batches.len())
            &&& after.entries == counted(stats.entries, total_entries(batches))
            &&& after.transactions == counted(stats.transactions, total_transactions(batches))
            &&& after.block_markers == counted(stats.block_markers, num_markers(segments))
            &&& after.decode_errors == counted(stats.decode_errors, errors as nat)
        }),
    decreases segments.len(),
{
    reveal(Seq::filter);
    if segments.len() == 0 {
        law_counting(stats.batches, 0, 0);
        law_counting(stats.entries, 0, 0);
        law_counting(stats.transactions, 0, 0);
        law_counting(stats.block_markers, 0, 0);
        law_counting(stats.decode_errors, 0, 0);
    } else {
        let front = segments.drop_last();
        let last = segments.last();
        law_payloads_counted(slot, front, stats);
        law_marker(last.bytes, 0, Seq::empty());
        let before = batches_of(slot, front);
        let all = batches_of(slot, segments);
        let errors = (front.len() - before.len() - num_markers(front)) as nat;
        match payload_of(last.bytes) {
            Payload::Entries(entries) => {
                let batch = batch_of(slot, last, payload_of(last.bytes))[0];
                assert(all =~= before.push(batch));
                assert(all.drop_last() =~= before);
                law_counting(stats.batches, before.len(), 1);
                law_counting(stats.entries, total_entries(before), entries.len());
                law_counting(
                    stats.transactions,
                    total_transactions(before),
                    num_transactions(entries),
                );
            },
            Payload::BlockMarker => {
                assert(all =~= before);
                law_counting(stats.block_markers, num_markers(front), 1);
            },
            Payload::Undecodable => {
                assert(all =~= before);
                law_counting(stats.decode_errors, errors, 1);
            },
        }
    }
}

/// The transactions of entries are those of each of them.
pub proof fn law_transactions_of_both(
    a: Seq<(u64, solana_hash::Hash, Seq<VersionedTransaction>)>,
    b: Seq<(u64, solana_hash::Hash, Seq<VersionedTransaction>)>,
    entry: (u64, solana_hash::Hash, Seq<VersionedTransaction>),
)
    ensures
        num_transactions(a + b) == num_transactions(a) + num_transactions(b),
        num_transactions(seq![entry]) == entry.2.len(),
        num_transactions(Seq::empty()) == 0,
    decreases b.len(),
{
    reveal_with_fuel(num_transactions, 2);
    assert(seq![entry].drop_last() =~= Seq::empty());
    if b.len() == 0 {
        assert(a + b =~= a);
    } else {
        assert((a + b).drop_last() =~= a + b.drop_last());
        law_transactions_of_both(a, b.drop_last(), entry);
    }
}

/// What comes out of a packet that is accepted are the batches of its segments, in
/// their order, under the slot of its shred; these are also what it counts.
pub proof fn law_what_comes_out(m: DeshredderModel, packet: Seq<u8>)
    ensures
        ({
            let batches = m.batches(packet);
            let after = m.pushed(packet).stats;
            &&& m.refused(packet) is Some ==> batches.len() == 0
            &&& m.refused(packet) is None ==> batches == batches_of(
                slot_of(shred_bytes(packet)),
                m.segments(packet),
            )
            &&& after.batches == counted(m.stats.batches, batches.len())
            &&& after.entries == counted(m.stats.entries, total_entries(batches))
            &&& after.transactions == counted(m.stats.transactions, total_transactions(batches))
            &&& m.refused(packet) is None ==> after.block_markers == counted(
                m.stats.block_markers,
                num_markers(m.segments(packet)),
            ) && after.decode_errors == counted(
                m.stats.decode_errors,
                (m.segments(packet).len() - batches.len() - num_markers(
                    m.segments(packet),
                )) as nat,
            )
        }),
{
    law_counting(m.stats.batches, 0, 0);
    law_counting(m.stats.entries, 0, 0);
    law_counting(m.stats.transactions, 0, 0);
    if m.refused(packet) is None {
        let b = shred_bytes(packet);
        let done = m.slot(slot_of(b)).inserted(b, m.recovery, m.packet_counted());
        law_payloads_counted(slot_of(b), m.segments(packet), done.stats);
    }
}

} // verus!
