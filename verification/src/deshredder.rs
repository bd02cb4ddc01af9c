//! The core: feed it datagrams, get entry batches back.
//!
//! No sockets or threads here, so the same code runs against a live port or a
//! recorded fixture (see [`crate::fixture`]).

use crate::buffer::contents;
use crate::entry;
use crate::entry::{
    decoded, entry_views, is_marker, lemma_num_transactions_grows, num_transactions, BlockData,
    DecodeError, Entry,
};
use crate::fec;
use crate::fec::ReedSolomon;
use crate::history::{history, lemma_history_grows};
use crate::shred::{parse_error, shred_bytes, slot_of, version_of, Shred};
use crate::slot::{segment_models, step, Segment, SegmentModel, SlotModel, SlotState};
use crate::stats;
use crate::stats::{counted, Stats};
use bytes::Bytes;
use solana_transaction::versioned::VersionedTransaction;
use std::collections::BTreeMap;
use std::ops::RangeInclusive;
use vstd::prelude::*;
use vstd::std_specs::range::RangeInclusiveView;

verus! {

#[derive(Debug, Clone, Copy, PartialEq, Eq, Structural)]
pub struct Config {
    /// Drop shreds whose version differs. `None` accepts any version; set it
    /// once you know the cluster's (`solana gossip` or the RPC
    /// `getVersion`/`getGenesisHash` mapping) so misrouted traffic is dropped.
    pub shred_version: Option<u16>,
    /// Slots older than `highest_seen - slot_lookback` are dropped and their
    /// state freed. Shreds for one slot arrive over ~400ms, so anything past
    /// a few dozen slots is never going to complete. At most four times as many
    /// slots are held, and never fewer than one.
    pub slot_lookback: u64,
}

impl Default for Config {
    fn default() -> (config: Self)
        ensures
            config == (Config { shred_version: None, slot_lookback: 64 }),
    {
        Self { shred_version: None, slot_lookback: 64 }
    }
}

/// One deshredded vector of entries with its position in the slot.
#[derive(Debug)]
pub struct EntryBatch {
    pub slot: u64,
    /// Data shred indexes this batch was assembled from.
    pub shreds: RangeInclusive<u32>,
    /// The last shred of the batch is the last of its slot.
    pub last_in_slot: bool,
    pub entries: Vec<Entry>,
}

/// What an entry batch says.
#[verifier::ext_equal]
pub struct BatchModel {
    pub slot: u64,
    pub shreds: RangeInclusiveView<u32>,
    pub last_in_slot: bool,
    pub entries: Seq<(u64, solana_hash::Hash, Seq<VersionedTransaction>)>,
}

impl View for EntryBatch {
    type V = BatchModel;

    open spec fn view(&self) -> BatchModel {
        BatchModel {
            slot: self.slot,
            shreds: self.shreds@,
            last_in_slot: self.last_in_slot,
            entries: entry_views(self.entries@),
        }
    }
}

/// Views of batches.
pub open spec fn batch_models(batches: Seq<EntryBatch>) -> Seq<BatchModel> {
    batches.map_values(|batch: EntryBatch| batch@)
}

/// Calls `RangeInclusive::clone`, which copies the range.
#[verifier::external_body]
fn clone_range(range: &RangeInclusive<u32>) -> (copy: RangeInclusive<u32>)
    ensures
        copy@ == range@,
{
    range.clone()
}

impl Clone for EntryBatch {
    fn clone(&self) -> (batch: Self)
        ensures
            batch@ == self@,
    {
        let mut entries: Vec<Entry> = Vec::new();
        let mut i: usize = 0;
        while i < self.entries.len()
            invariant
                i <= self.entries@.len(),
                entry_views(entries@) == entry_views(self.entries@).take(i as int),
            decreases self.entries@.len() - i,
        {
            let ghost before = entries@;
            let entry: Entry = self.entries[i].clone();
            entries.push(entry);
            assert(entry_views(entries@) =~= entry_views(before).push(entry@));
            assert(entry_views(entries@) =~= entry_views(self.entries@).take(i + 1));
            i = i + 1;
        }
        assert(entry_views(self.entries@).take(i as int) =~= entry_views(self.entries@));
        EntryBatch {
            slot: self.slot,
            shreds: clone_range(&self.shreds),
            last_in_slot: self.last_in_slot,
            entries,
        }
    }
}

impl EntryBatch {
    /// How many transactions there are in the batch.
    pub fn num_transactions(&self) -> (count: usize)
        requires
            num_transactions(self@.entries) <= usize::MAX,
        ensures
            count == num_transactions(self@.entries),
    {
        let ghost all = self@.entries;
        let mut count: usize = 0;
        let mut i: usize = 0;
        while i < self.entries.len()
            invariant
                i <= self.entries@.len(),
                all == entry_views(self.entries@),
                num_transactions(all) <= usize::MAX,
                count == num_transactions(all.take(i as int)),
            decreases self.entries@.len() - i,
        {
            proof {
                lemma_num_transactions_grows(all, i + 1);
                assert(all.take(i + 1).drop_last() =~= all.take(i as int));
                assert(all[i as int] == self.entries@[i as int]@);
            }
            count = count + self.entries[i].transactions.len();
            i = i + 1;
        }
        assert(all.take(i as int) =~= all);
        count
    }
}

/// What the payload of a complete run holds.
pub enum Payload {
    Entries(Seq<(u64, solana_hash::Hash, Seq<VersionedTransaction>)>),
    BlockMarker,
    Undecodable,
}

/// What the payload `bytes` holds.
pub open spec fn payload_of(bytes: Seq<u8>) -> Payload {
    if is_marker(bytes) {
        Payload::BlockMarker
    } else {
        match decoded(bytes) {
            Ok(entries) => Payload::Entries(entries),
            Err(_) => Payload::Undecodable,
        }
    }
}

/// What decoding a payload gave.
pub open spec fn payload_given(data: Result<BlockData, DecodeError>) -> Payload {
    match data {
        Ok(BlockData::Entries(entries)) => Payload::Entries(entry_views(entries@)),
        Ok(BlockData::BlockMarker) => Payload::BlockMarker,
        Err(_) => Payload::Undecodable,
    }
}

/// The counters once a payload has been seen.
pub open spec fn payload_counted(payload: Payload, stats: Stats) -> Stats {
    match payload {
        Payload::Entries(entries) => Stats {
            batches: counted(stats.batches, 1),
            entries: counted(stats.entries, entries.len()),
            transactions: counted(stats.transactions, num_transactions(entries)),
            ..stats
        },
        Payload::BlockMarker => Stats { block_markers: counted(stats.block_markers, 1), ..stats },
        Payload::Undecodable => Stats { decode_errors: counted(stats.decode_errors, 1), ..stats },
    }
}

/// The batch that a segment of `slot` with this payload makes, if it makes one.
pub open spec fn batch_of(slot: u64, segment: SegmentModel, payload: Payload) -> Seq<BatchModel> {
    match payload {
        Payload::Entries(entries) => seq![
            BatchModel {
                slot,
                shreds: segment.shreds,
                last_in_slot: segment.last_in_slot,
                entries,
            },
        ],
        _ => Seq::empty(),
    }
}

/// The counters once the payloads of all segments have been seen.
pub open spec fn segments_counted(segments: Seq<SegmentModel>, stats: Stats) -> Stats
    decreases segments.len(),
{
    if segments.len() == 0 {
        stats
    } else {
        payload_counted(
            payload_of(segments.last().bytes),
            segments_counted(segments.drop_last(), stats),
        )
    }
}

/// The batches that the segments of `slot` make.
pub open spec fn batches_of(slot: u64, segments: Seq<SegmentModel>) -> Seq<BatchModel>
    decreases segments.len(),
{
    if segments.len() == 0 {
        Seq::empty()
    } else {
        batches_of(slot, segments.drop_last()) + batch_of(
            slot,
            segments.last(),
            payload_of(segments.last().bytes),
        )
    }
}

/// Count what a segment's payload turned out to hold, and hand on its entries.
pub fn deliver(
    slot: u64,
    segment: Segment,
    data: Result<BlockData, DecodeError>,
    stats: &mut Stats,
    out: &mut Vec<EntryBatch>,
)
    ensures
        *final(stats) == payload_counted(payload_given(data), *old(stats)),
        batch_models(final(out)@) == batch_models(old(out)@) + batch_of(
            slot,
            segment@,
            payload_given(data),
        ),
{
    let ghost before = batch_models(out@);
    assert(before + Seq::<BatchModel>::empty() =~= before);
    match data {
        Ok(BlockData::Entries(entries)) => {
            let ghost all = entry_views(entries@);
            let ghost start = *stats;
            stats::count(&mut stats.batches, 1);
            stats::count(&mut stats.entries, entries.len() as u64);
            let mut i: usize = 0;
            assert(counted(stats.transactions, num_transactions(all.take(0)))
                == stats.transactions);
            while i < entries.len()
                invariant
                    i <= entries@.len(),
                    all == entry_views(entries@),
                    *stats == (Stats {
                        batches: counted(start.batches, 1),
                        entries: counted(start.entries, all.len()),
                        transactions: counted(
                            start.transactions,
                            num_transactions(all.take(i as int)),
                        ),
                        ..start
                    }),
                decreases entries@.len() - i,
            {
                proof {
                    assert(all.take(i + 1).drop_last() =~= all.take(i as int));
                    assert(all[i as int] == entries@[i as int]@);
                }
                stats::count(&mut stats.transactions, entries[i].transactions.len() as u64);
                i = i + 1;
            }
            assert(all.take(i as int) =~= all);
            let batch = EntryBatch {
                slot,
                shreds: segment.shreds,
                last_in_slot: segment.last_in_slot,
                entries,
            };
            let ghost out_before = out@;
            out.push(batch);
            assert(batch_models(out@) =~= batch_models(out_before).push(batch@));
        },
        Ok(BlockData::BlockMarker) => {
            stats::count(&mut stats.block_markers, 1);
        },
        Err(_) => {
            stats::count(&mut stats.decode_errors, 1);
        },
    }
}

/// How many slots are kept at most: room for all slots within the lookback, and for
/// more of them ahead.
pub open spec fn slot_limit(lookback: u64) -> nat {
    if lookback == 0 {
        1
    } else {
        4 * lookback as nat
    }
}

/// Largest of the slots in `slots`.
pub open spec fn last_slot(slots: Map<u64, SlotModel>) -> u64 {
    choose|slot: u64|
        slots.contains_key(slot) && forall|other: u64| #[trigger]
            slots.contains_key(other) ==> other <= slot
}

/// `slots` without the largest ones in excess of `limit`.
pub open spec fn trimmed(slots: Map<u64, SlotModel>, limit: nat) -> Map<u64, SlotModel>
    decreases slots.dom().len(),
    when slots.dom().finite()
{
    if slots.dom().len() <= limit || !slots.contains_key(last_slot(slots)) {
        slots
    } else {
        trimmed(slots.remove(last_slot(slots)), limit)
    }
}

/// What a deshredder knows.
#[verifier::ext_equal]
pub struct DeshredderModel {
    pub config: Config,
    /// Whether missing data shreds are recovered from code shreds.
    pub recovery: bool,
    pub slots: Map<u64, SlotModel>,
    pub highest_slot: u64,
    pub stats: Stats,
}

impl DeshredderModel {
    /// A deshredder that has not seen a packet.
    pub open spec fn fresh(config: Config, recovery: bool, stats: Stats) -> DeshredderModel {
        DeshredderModel { config, recovery, slots: Map::empty(), highest_slot: 0, stats }
    }

    /// Every slot is valid and within the lookback, and there are no more than the
    /// limit.
    pub open spec fn valid(self) -> bool {
        &&& self.slots.dom().finite()
        &&& self.slots.dom().len() <= slot_limit(self.config.slot_lookback)
        &&& forall|slot: u64| #[trigger]
            self.slots.contains_key(slot) ==> self.slots[slot].valid() && !self.is_stale(slot)
    }

    /// Whether a slot is older than the lookback allows.
    pub open spec fn is_stale(self, slot: u64) -> bool {
        slot + self.config.slot_lookback < self.highest_slot
    }

    /// What is known of a slot.
    pub open spec fn slot(self, slot: u64) -> SlotModel {
        if self.slots.contains_key(slot) {
            self.slots[slot]
        } else {
            SlotModel::empty()
        }
    }

    /// The counters with one more packet.
    pub open spec fn packet_counted(self) -> Stats {
        Stats { packets: counted(self.stats.packets, 1), ..self.stats }
    }

    /// The counters once a packet has been refused; `None` if it is not: it is a
    /// shred, of the configured version where there is one, and its slot is not
    /// too old.
    pub open spec fn refused(self, packet: Seq<u8>) -> Option<Stats> {
        let stats = self.packet_counted();
        let b = shred_bytes(packet);
        if parse_error(packet) is Some {
            Some(Stats { invalid: counted(stats.invalid, 1), ..stats })
        } else if self.config.shred_version is Some && self.config.shred_version != Some(
            version_of(b),
        ) {
            Some(Stats { wrong_version: counted(stats.wrong_version, 1), ..stats })
        } else if self.is_stale(slot_of(b)) {
            Some(Stats { stale: counted(stats.stale, 1), ..stats })
        } else {
            None
        }
    }

    /// The deshredder with what is now known of `slot`. If the slot gave a
    /// complete run and is higher than any that did before, it moves the window
    /// and the slots that are now too old are freed. Slots in excess of the limit
    /// are freed from the highest down.
    pub open spec fn advanced(self, slot: u64, known: SlotModel, emitted: bool) -> DeshredderModel {
        let slots = self.slots.insert(slot, known);
        let limit = slot_limit(self.config.slot_lookback);
        if emitted && slot > self.highest_slot {
            let recent = slots.restrict(
                Set::new(|other: u64| other + self.config.slot_lookback >= slot),
            );
            DeshredderModel { slots: trimmed(recent, limit), highest_slot: slot, ..self }
        } else {
            DeshredderModel { slots: trimmed(slots, limit), ..self }
        }
    }

    /// The segments of `slot_of(packet)` that an accepted packet completes.
    pub open spec fn segments(self, packet: Seq<u8>) -> Seq<SegmentModel> {
        let b = shred_bytes(packet);
        self.slot(slot_of(b)).inserted(b, self.recovery, self.packet_counted()).segments
    }

    /// The deshredder once the shred of an accepted packet is in its slot.
    pub open spec fn assembled(self, packet: Seq<u8>) -> DeshredderModel {
        let b = shred_bytes(packet);
        let done = self.slot(slot_of(b)).inserted(b, self.recovery, self.packet_counted());
        DeshredderModel {
            stats: done.stats,
            ..self.advanced(slot_of(b), done.slot, done.segments.len() > 0)
        }
    }

    /// The deshredder once a packet has been pushed.
    pub open spec fn pushed(self, packet: Seq<u8>) -> DeshredderModel {
        match self.refused(packet) {
            Some(stats) => DeshredderModel { stats, ..self },
            None => {
                let next = self.assembled(packet);
                DeshredderModel {
                    stats: segments_counted(self.segments(packet), next.stats),
                    ..next
                }
            },
        }
    }

    /// Whether an accepted packet is a step of its slot.
    pub open spec fn steps(self, packet: Seq<u8>) -> bool {
        let b = shred_bytes(packet);
        let before = self.slot(slot_of(b));
        step(
            before,
            b,
            self.recovery,
            before.inserted(b, self.recovery, Stats::zero()).slot,
            self.segments(packet),
        )
    }

    /// The batches that come out of pushing a packet.
    pub open spec fn batches(self, packet: Seq<u8>) -> Seq<BatchModel> {
        match self.refused(packet) {
            Some(_) => Seq::empty(),
            None => batches_of(slot_of(shred_bytes(packet)), self.segments(packet)),
        }
    }
}

/// A packet that is refused changes counters and nothing else.
pub proof fn law_refused_changes_counters_only(m: DeshredderModel, packet: Seq<u8>)
    requires
        m.refused(packet) is Some,
    ensures
        m.batches(packet) == Seq::<BatchModel>::empty(),
        m.pushed(packet) == (DeshredderModel { stats: m.pushed(packet).stats, ..m }),
{
}

/// Only a slot that gives a complete run moves the window, and never back.
pub proof fn law_only_complete_runs_move_the_window(m: DeshredderModel, packet: Seq<u8>)
    ensures
        m.pushed(packet).highest_slot >= m.highest_slot,
        m.pushed(packet).highest_slot != m.highest_slot ==> m.refused(packet) is None
            && m.segments(packet).len() > 0 && m.pushed(packet).highest_slot == slot_of(
            shred_bytes(packet),
        ),
{
}

/// Whether a packet brings a shred to `slot`.
pub open spec fn goes_to(m: DeshredderModel, packet: Seq<u8>, slot: u64) -> bool {
    m.refused(packet) is None && slot_of(shred_bytes(packet)) == slot
}

/// Whether `models` are those of a deshredder to which `packets` are pushed one after
/// the other, with recovery, and which keeps `slot` once it knows of it.
pub open spec fn pushes(
    models: Seq<DeshredderModel>,
    packets: Seq<Seq<u8>>,
    slot: u64,
) -> bool {
    &&& models.len() == packets.len() + 1
    &&& !models[0].slots.contains_key(slot)
    &&& forall|i: int|
        0 <= i < packets.len() ==> {
            let before = models[i];
            let after = models[i + 1];
            &&& before.recovery && before.valid()
            &&& after == before.pushed(#[trigger] packets[i])
            &&& before.refused(packets[i]) is None ==> before.steps(packets[i])
            &&& before.slots.contains_key(slot) || goes_to(before, packets[i], slot)
                ==> after.slots.contains_key(slot)
        }
}

/// The shreds that the packets bring to `slot`.
pub open spec fn slot_shreds(
    models: Seq<DeshredderModel>,
    packets: Seq<Seq<u8>>,
    slot: u64,
) -> Seq<Seq<u8>>
    decreases packets.len(),
{
    if packets.len() == 0 {
        Seq::empty()
    } else {
        let n = packets.len() - 1;
        let earlier = slot_shreds(models, packets.drop_last(), slot);
        if goes_to(models[n], packets[n], slot) {
            earlier.push(shred_bytes(packets[n]))
        } else {
            earlier
        }
    }
}

/// What is known of `slot` after each of its shreds.
pub open spec fn slot_states(
    models: Seq<DeshredderModel>,
    packets: Seq<Seq<u8>>,
    slot: u64,
) -> Seq<SlotModel>
    decreases packets.len(),
{
    if packets.len() == 0 {
        seq![SlotModel::empty()]
    } else {
        let n = packets.len() - 1;
        let earlier = slot_states(models, packets.drop_last(), slot);
        if goes_to(models[n], packets[n], slot) {
            earlier.push(models[n + 1].slot(slot))
        } else {
            earlier
        }
    }
}

/// The segments that each of the shreds of `slot` completes.
pub open spec fn slot_emitted(
    models: Seq<DeshredderModel>,
    packets: Seq<Seq<u8>>,
    slot: u64,
) -> Seq<Seq<SegmentModel>>
    decreases packets.len(),
{
    if packets.len() == 0 {
        Seq::empty()
    } else {
        let n = packets.len() - 1;
        let earlier = slot_emitted(models, packets.drop_last(), slot);
        if goes_to(models[n], packets[n], slot) {
            earlier.push(models[n].segments(packets[n]))
        } else {
            earlier
        }
    }
}

/// What pushing a packet makes of a slot that is kept.
pub proof fn lemma_pushed_slot(m: DeshredderModel, packet: Seq<u8>, slot: u64)
    requires
        m.valid(),
        m.slots.contains_key(slot) || goes_to(m, packet, slot) ==> m.pushed(
            packet,
        ).slots.contains_key(slot),
    ensures
        goes_to(m, packet, slot) ==> m.pushed(packet).slot(slot) == m.slot(slot).inserted(
            shred_bytes(packet),
            m.recovery,
            Stats::zero(),
        ).slot,
        !goes_to(m, packet, slot) ==> m.pushed(packet).slot(slot) == m.slot(slot),
{
    if m.refused(packet) is None {
        let b = shred_bytes(packet);
        let to = slot_of(b);
        let known = m.slot(to).inserted(b, m.recovery, m.packet_counted()).slot;
        let slots = m.slots.insert(to, known);
        let recent = slots.restrict(
            Set::new(|other: u64| other + m.config.slot_lookback >= to),
        );
        assert(recent.dom().subset_of(slots.dom()));
        vstd::set_lib::lemma_set_subset_finite(slots.dom(), recent.dom());
        law_trimmed(slots, slot_limit(m.config.slot_lookback));
        law_trimmed(recent, slot_limit(m.config.slot_lookback));
        if m.pushed(packet).slots.contains_key(slot) {
            assert(m.pushed(packet).slots[slot] == slots[slot]);
        }
    }
}

/// What a deshredder makes of the shreds of a slot that it keeps is what the slot
/// alone makes of them, whatever other packets come in between.
pub proof fn law_slots_do_not_mix(
    models: Seq<DeshredderModel>,
    packets: Seq<Seq<u8>>,
    slot: u64,
)
    requires
        pushes(models, packets, slot),
    ensures
        history(
            slot_states(models, packets, slot),
            slot_shreds(models, packets, slot),
            slot_emitted(models, packets, slot),
        ),
        slot_states(models, packets, slot).last() == models.last().slot(slot),
    decreases packets.len(),
{
    if packets.len() > 0 {
        let n = packets.len() - 1;
        let front = models.drop_last();
        let fewer = packets.drop_last();
        assert(pushes(front, fewer, slot)) by {
            assert forall|i: int| 0 <= i < fewer.len() implies {
                let before = front[i];
                let after = front[i + 1];
                &&& before.recovery && before.valid()
                &&& after == before.pushed(#[trigger] fewer[i])
                &&& before.refused(fewer[i]) is None ==> before.steps(fewer[i])
                &&& before.slots.contains_key(slot) || goes_to(before, fewer[i], slot)
                    ==> after.slots.contains_key(slot)
            } by {
                assert(fewer[i] == packets[i]);
            }
        }
        law_slots_do_not_mix(front, fewer, slot);
        lemma_same_models(front, models, fewer, slot);
        let states = slot_states(models, fewer, slot);
        let shreds = slot_shreds(models, fewer, slot);
        let emitted = slot_emitted(models, fewer, slot);
        assert(models[n].pushed(packets[n]) == models[n + 1]);
        lemma_pushed_slot(models[n], packets[n], slot);
        if goes_to(models[n], packets[n], slot) {
            let b = shred_bytes(packets[n]);
            let after = models[n + 1].slot(slot);
            assert(step(states.last(), b, true, after, models[n].segments(packets[n])));
            lemma_history_grows(
                states,
                shreds,
                emitted,
                b,
                after,
                models[n].segments(packets[n]),
            );
        }
    }
}

/// Only the models up to the last packet matter.
proof fn lemma_same_models(
    a: Seq<DeshredderModel>,
    b: Seq<DeshredderModel>,
    packets: Seq<Seq<u8>>,
    slot: u64,
)
    requires
        a.len() > packets.len(),
        b.len() > packets.len(),
        forall|i: int| 0 <= i <= packets.len() ==> #[trigger] a[i] == b[i],
    ensures
        slot_states(a, packets, slot) == slot_states(b, packets, slot),
        slot_shreds(a, packets, slot) == slot_shreds(b, packets, slot),
        slot_emitted(a, packets, slot) == slot_emitted(b, packets, slot),
    decreases packets.len(),
{
    if packets.len() > 0 {
        lemma_same_models(a, b, packets.drop_last(), slot);
        let n = packets.len() - 1;
        assert(a[n] == b[n]);
        assert(a[n + 1] == b[n + 1]);
    }
}

/// Batches of segments are of their slot, and come with ranges that have not been
/// iterated where the segments do.
proof fn lemma_batches_of(slot: u64, segments: Seq<SegmentModel>)
    requires
        forall|s: int| 0 <= s < segments.len() ==> !(#[trigger] segments[s]).shreds.exhausted,
    ensures
        forall|i: int|
            0 <= i < batches_of(slot, segments).len() ==> (#[trigger] batches_of(
                slot,
                segments,
            )[i]).slot == slot && !batches_of(slot, segments)[i].shreds.exhausted,
    decreases segments.len(),
{
    if segments.len() > 0 {
        let front = segments.drop_last();
        assert forall|s: int| 0 <= s < front.len() implies !(
        #[trigger] front[s]).shreds.exhausted by {
            assert(front[s] == segments[s]);
        }
        lemma_batches_of(slot, front);
        let earlier = batches_of(slot, front);
        let all = batches_of(slot, segments);
        assert forall|i: int| 0 <= i < all.len() implies (#[trigger] all[i]).slot == slot
            && !all[i].shreds.exhausted by {
            if i < earlier.len() {
                assert(all[i] == earlier[i]);
            } else {
                assert(!segments[segments.len() - 1].shreds.exhausted);
            }
        }
    }
}

/// The batches that a packet completes are of its slot, and come with ranges that
/// have not been iterated.
pub proof fn law_batches_are_of_the_slot(m: DeshredderModel, packet: Seq<u8>)
    ensures
        forall|i: int|
            0 <= i < m.batches(packet).len() ==> (#[trigger] m.batches(packet)[i]).slot == slot_of(
                shred_bytes(packet),
            ) && !m.batches(packet)[i].shreds.exhausted,
{
    let b = shred_bytes(packet);
    crate::slot::lemma_inserted_ranges(m.slot(slot_of(b)), b, m.recovery, m.packet_counted());
    lemma_batches_of(slot_of(b), m.segments(packet));
}

/// Seeing payloads counts neither packets nor shreds.
pub proof fn lemma_segments_count_no_shreds(segments: Seq<SegmentModel>, stats: Stats)
    ensures
        segments_counted(segments, stats).packets == stats.packets,
        segments_counted(segments, stats).rejected == stats.rejected,
        segments_counted(segments, stats).recovered == stats.recovered,
        segments_counted(segments, stats).recovery_failures == stats.recovery_failures,
    decreases segments.len(),
{
    if segments.len() > 0 {
        lemma_segments_count_no_shreds(segments.drop_last(), stats);
    }
}

/// Every packet is counted, whatever becomes of it.
pub proof fn law_every_packet_is_counted(m: DeshredderModel, packet: Seq<u8>)
    ensures
        m.pushed(packet).stats.packets == counted(m.stats.packets, 1),
{
    if m.refused(packet) is None {
        lemma_segments_count_no_shreds(m.segments(packet), m.assembled(packet).stats);
    }
}

/// A finite set of slots that is not empty has a largest one.
proof fn lemma_last_slot(slots: Map<u64, SlotModel>)
    requires
        slots.dom().finite(),
        slots.dom().len() > 0,
    ensures
        slots.contains_key(last_slot(slots)),
        forall|other: u64| #[trigger] slots.contains_key(other) ==> other <= last_slot(slots),
    decreases slots.dom().len(),
{
    let some = slots.dom().choose();
    assert(slots.contains_key(some));
    let rest = slots.remove(some);
    if rest.dom().len() > 0 {
        lemma_last_slot(rest);
        let top = last_slot(rest);
        let last = if some > top {
            some
        } else {
            top
        };
        assert forall|other: u64| #[trigger] slots.contains_key(other) implies other <= last by {
            if other != some {
                assert(rest.contains_key(other));
            }
        }
        assert(slots.contains_key(last));
    } else {
        assert forall|other: u64| #[trigger] slots.contains_key(other) implies other <= some by {
            if other != some {
                assert(rest.contains_key(other));
                assert(rest.dom().contains(other));
            }
        }
    }
}

/// Trimming keeps the smallest slots as they are, and no more than the limit.
pub proof fn law_trimmed(slots: Map<u64, SlotModel>, limit: nat)
    requires
        slots.dom().finite(),
    ensures
        trimmed(slots, limit).dom().finite(),
        trimmed(slots, limit).dom().len() <= limit,
        trimmed(slots, limit).dom().len() == limit || trimmed(slots, limit) == slots,
        forall|slot: u64| #[trigger]
            trimmed(slots, limit).contains_key(slot) ==> slots.contains_key(slot) && trimmed(
                slots,
                limit,
            )[slot] == slots[slot],
        forall|kept: u64, dropped: u64|
            #![trigger trimmed(slots, limit).contains_key(kept), slots.contains_key(dropped)]
            trimmed(slots, limit).contains_key(kept) && slots.contains_key(dropped) && !trimmed(
                slots,
                limit,
            ).contains_key(dropped) ==> kept < dropped,
    decreases slots.dom().len(),
{
    if slots.dom().len() > limit {
        lemma_last_slot(slots);
        let last = last_slot(slots);
        let rest = slots.remove(last);
        law_trimmed(rest, limit);
        let kept = trimmed(slots, limit);
        assert(kept == trimmed(rest, limit));
        assert forall|slot: u64| #[trigger] kept.contains_key(slot) implies slots.contains_key(slot)
            && kept[slot] == slots[slot] by {
            assert(rest.contains_key(slot));
        }
        assert forall|k: u64, d: u64|
            #![trigger kept.contains_key(k), slots.contains_key(d)]
            kept.contains_key(k) && slots.contains_key(d) && !kept.contains_key(d) implies k
            < d by {
            assert(rest.contains_key(k));
            if d != last {
                assert(rest.contains_key(d));
            } else {
                assert(slots.contains_key(k));
            }
        }
    }
}

/// Calls `BTreeMap::first_key_value` and takes the key: the smallest slot, or
/// `None` where there is none.
#[verifier::external_body]
fn first_key(slots: &BTreeMap<u64, SlotState>) -> (first: Option<u64>)
    ensures
        match first {
            Some(slot) => slots@.contains_key(slot) && forall|other: u64| #[trigger]
                slots@.contains_key(other) ==> slot <= other,
            None => slots@.dom().is_empty(),
        },
{
    slots.first_key_value().map(|(slot, _)| *slot)
}

/// Calls `BTreeMap::last_key_value` and takes the key: the largest slot, or
/// `None` where there is none.
#[verifier::external_body]
fn last_key(slots: &BTreeMap<u64, SlotState>) -> (last: Option<u64>)
    ensures
        match last {
            Some(slot) => slots@.contains_key(slot) && forall|other: u64| #[trigger]
                slots@.contains_key(other) ==> other <= slot,
            None => slots@.dom().is_empty(),
        },
{
    slots.last_key_value().map(|(slot, _)| *slot)
}

pub struct Deshredder {
    config: Config,
    slots: BTreeMap<u64, SlotState>,
    highest_slot: u64,
    rs: Option<ReedSolomon>,
    stats: Stats,
}

impl View for Deshredder {
    type V = DeshredderModel;

    closed spec fn view(&self) -> DeshredderModel {
        DeshredderModel {
            config: self.config,
            recovery: self.rs is Some,
            slots: self.slots@.map_values(|slot: SlotState| slot@),
            highest_slot: self.highest_slot,
            stats: self.stats,
        }
    }
}

impl Deshredder {
    /// The deshredder is valid, and so is the state kept for every slot.
    pub closed spec fn wf(&self) -> bool {
        &&& self@.valid()
        &&& self.parts_ok()
    }

    /// A well-formed deshredder keeps valid slots within the lookback only, and no
    /// more of them than the limit.
    pub proof fn law_window(&self)
        requires
            self.wf(),
        ensures
            self@.valid(),
    {
    }

    /// The state kept for every slot is well formed.
    spec fn parts_ok(&self) -> bool {
        forall|slot: u64| #[trigger] self.slots@.contains_key(slot) ==> self.slots@[slot].wf()
    }

    /// A deshredder with counters of its own.
    pub fn new(config: Config) -> (deshredder: Self)
        ensures
            deshredder.wf(),
            deshredder@ == DeshredderModel::fresh(config, true, Stats::zero()),
    {
        Self::with_stats(config, Stats::default())
    }

    /// A deshredder that goes on counting from `stats`.
    pub fn with_stats(config: Config, stats: Stats) -> (deshredder: Self)
        ensures
            deshredder.wf(),
            deshredder@ == DeshredderModel::fresh(config, true, stats),
    {
        Self::with_policy(config, Some(fec::reed_solomon()), stats)
    }

    /// A deshredder that waits for every data shred instead of recovering those
    /// that are missing.
    pub fn without_recovery(config: Config) -> (deshredder: Self)
        ensures
            deshredder.wf(),
            deshredder@ == DeshredderModel::fresh(config, false, Stats::zero()),
    {
        Self::with_policy(config, None, Stats::default())
    }

    fn with_policy(config: Config, rs: Option<ReedSolomon>, stats: Stats) -> (deshredder: Self)
        ensures
            deshredder.wf(),
            deshredder@ == DeshredderModel::fresh(config, rs is Some, stats),
    {
        let deshredder = Self { config, slots: BTreeMap::new(), highest_slot: 0, rs, stats };
        assert(deshredder@.slots =~= Map::<u64, SlotModel>::empty());
        deshredder
    }

    /// What has been counted so far.
    pub fn stats(&self) -> (stats: &Stats)
        ensures
            *stats == self@.stats,
    {
        &self.stats
    }

    /// Free the slots that are too old once `slot` is the highest.
    fn free_old(&mut self, slot: u64)
        requires
            old(self).parts_ok(),
            old(self)@.slots.dom().finite(),
        ensures
            final(self).parts_ok(),
            final(self)@ == (DeshredderModel {
                slots: old(self)@.slots.restrict(
                    Set::new(|other: u64| other + old(self)@.config.slot_lookback >= slot),
                ),
                ..old(self)@
            }),
    {
        broadcast use vstd::std_specs::btree::group_btree_axioms;

        let ghost before = self@;
        let ghost lookback = before.config.slot_lookback;
        loop
            invariant
                self.parts_ok(),
                lookback == before.config.slot_lookback,
                self@ == (DeshredderModel { slots: self@.slots, ..before }),
                forall|k: u64| #[trigger]
                    self@.slots.contains_key(k) ==> before.slots.contains_key(k)
                        && before.slots[k] == self@.slots[k],
                forall|k: u64| #[trigger]
                    before.slots.contains_key(k) && k + lookback >= slot
                        ==> self@.slots.contains_key(k),
                self@.slots.dom().finite(),
            ensures
                forall|k: u64| #[trigger] self@.slots.contains_key(k) ==> k + lookback >= slot,
            decreases self@.slots.dom().len(),
        {
            let oldest: u64 = match first_key(&self.slots) {
                Some(oldest) => oldest,
                None => {
                    assert forall|k: u64| #[trigger] self@.slots.contains_key(k) implies k
                        + lookback >= slot by {
                        assert(self.slots@.contains_key(k));
                        assert(self.slots@.dom().contains(k));
                    }
                    break;
                },
            };
            assert(self@.slots.contains_key(oldest));
            if oldest as u128 + self.config.slot_lookback as u128 >= slot as u128 {
                assert forall|k: u64| #[trigger] self@.slots.contains_key(k) implies k + lookback
                    >= slot by {
                    assert(self.slots@.contains_key(k));
                }
                break;
            }
            let ghost here = self@;
            self.slots.remove(&oldest);
            assert(self@.slots =~= here.slots.remove(oldest));
        }
        assert(self@.slots =~= before.slots.restrict(
            Set::new(|other: u64| other + lookback >= slot),
        ));
    }

    /// Free the highest slots while there are more than the limit.
    fn free_excess(&mut self)
        requires
            old(self).parts_ok(),
            old(self)@.slots.dom().finite(),
        ensures
            final(self).parts_ok(),
            final(self)@ == (DeshredderModel {
                slots: trimmed(
                    old(self)@.slots,
                    slot_limit(old(self)@.config.slot_lookback),
                ),
                ..old(self)@
            }),
    {
        broadcast use vstd::std_specs::btree::group_btree_axioms;

        let ghost before = self@;
        let ghost limit = slot_limit(before.config.slot_lookback);
        let most: u128 = if self.config.slot_lookback == 0 {
            1
        } else {
            4 * self.config.slot_lookback as u128
        };
        while self.slots.len() as u128 > most
            invariant
                self.parts_ok(),
                most == limit,
                self@ == (DeshredderModel { slots: self@.slots, ..before }),
                self@.slots.dom().finite(),
                trimmed(self@.slots, limit) == trimmed(before.slots, limit),
            decreases self@.slots.dom().len(),
        {
            assert(self.slots@.dom() =~= self@.slots.dom());
            proof {
                lemma_last_slot(self@.slots);
            }
            if let Some(last) = last_key(&self.slots) {
                assert(self@.slots.contains_key(last));
                assert(self.slots@.contains_key(last_slot(self@.slots)));
                assert(last == last_slot(self@.slots));
                let ghost here = self@;
                self.slots.remove(&last);
                assert(self@.slots =~= here.slots.remove(last));
            }
        }
        assert(self.slots@.dom() =~= self@.slots.dom());
    }

    /// Take out the state kept for a slot.
    fn take_slot(&mut self, slot: u64) -> (state: SlotState)
        requires
            old(self).parts_ok(),
            old(self)@.slots.dom().finite(),
        ensures
            final(self).parts_ok(),
            state.wf(),
            state@ == old(self)@.slot(slot),
            final(self)@ == (DeshredderModel {
                slots: old(self)@.slots.remove(slot),
                ..old(self)@
            }),
    {
        broadcast use vstd::std_specs::btree::group_btree_axioms;

        let ghost before = self@;
        let ghost slots = self.slots@;
        let state: SlotState = match self.slots.remove(&slot) {
            Some(state) => state,
            None => SlotState::default(),
        };
        assert(before.slots.contains_key(slot) == slots.contains_key(slot));
        assert(self@.slots =~= before.slots.remove(slot));
        state
    }

    /// Keep the state of a slot, and free what the window or the limit leaves no
    /// room for.
    fn advance(&mut self, slot: u64, state: SlotState, emitted: bool)
        requires
            old(self).parts_ok(),
            old(self)@.slots.dom().finite(),
            state.wf(),
        ensures
            final(self).parts_ok(),
            final(self)@ == old(self)@.advanced(slot, state@, emitted),
    {
        broadcast use vstd::std_specs::btree::group_btree_axioms;

        let ghost before = self@;
        self.slots.insert(slot, state);
        assert(self@.slots =~= before.slots.insert(slot, state@));
        if emitted && slot > self.highest_slot {
            // Only a slot that produced a complete run moves the window. A
            // single packet with a bogus slot number would otherwise make
            // every real slot look stale; faking a whole consistent FEC set
            // is a much higher bar (leader signature verification would close
            // it fully).
            self.highest_slot = slot;
            self.free_old(slot);
            proof {
                let kept = self@.slots.dom();
                assert(kept.subset_of(before.slots.insert(slot, state@).dom()));
                vstd::set_lib::lemma_set_subset_finite(
                    before.slots.insert(slot, state@).dom(),
                    kept,
                );
            }
        }
        // Bound memory if garbage keeps creating far-future slots.
        self.free_excess();
    }

    /// Put the shred in a datagram, if it is one and is wanted, in its slot.
    /// Returns the slot, and appends the segments that it completes.
    fn assemble(&mut self, packet: Bytes, segments: &mut Vec<Segment>) -> (slot: Option<u64>)
        requires
            old(self).wf(),
            old(segments)@.len() == 0,
        ensures
            final(self).parts_ok(),
            match slot {
                Some(slot) => {
                    &&& old(self)@.refused(contents(packet)) is None
                    &&& slot == slot_of(shred_bytes(contents(packet)))
                    &&& final(self)@ == old(self)@.assembled(contents(packet))
                    &&& final(self)@.valid()
                    &&& old(self)@.steps(contents(packet))
                    &&& segment_models(final(segments)@) == old(self)@.segments(contents(packet))
                },
                None => {
                    &&& old(self)@.refused(contents(packet)) is Some
                    &&& final(self)@ == old(self)@.pushed(contents(packet))
                },
            },
    {
        let ghost before = self@;
        stats::count(&mut self.stats.packets, 1);
        let shred: Shred = match Shred::parse(packet) {
            Ok(shred) => shred,
            Err(_) => {
                stats::count(&mut self.stats.invalid, 1);
                return None;
            },
        };
        if let Some(version) = self.config.shred_version {
            if version != shred.version() {
                stats::count(&mut self.stats.wrong_version, 1);
                return None;
            }
        }
        let slot: u64 = shred.slot();
        if slot as u128 + (self.config.slot_lookback as u128) < self.highest_slot as u128 {
            stats::count(&mut self.stats.stale, 1);
            return None;
        }
        let ghost b = shred@;
        let mut state: SlotState = self.take_slot(slot);
        assert(self@.stats == before.packet_counted());
        state.insert(shred, self.rs.as_ref(), &mut self.stats, segments);
        let ghost known = state@;
        assert(segment_models(segments@) =~= before.segments(contents(packet)));
        let emitted: bool = segments.len() > 0;
        self.advance(slot, state, emitted);
        proof {
            lemma_advanced(before, slot, known, emitted);
        }
        Some(slot)
    }

    /// Process one datagram. Completed batches are appended to `out`; a
    /// single packet can complete several (it may finish a pending FEC set).
    pub fn push(&mut self, packet: Bytes, out: &mut Vec<EntryBatch>)
        requires
            old(self).wf(),
        ensures
            final(self).wf(),
            final(self)@ == old(self)@.pushed(contents(packet)),
            batch_models(final(out)@) == batch_models(old(out)@) + old(self)@.batches(
                contents(packet),
            ),
            fit(old(self)@.batches(contents(packet))),
            none_empty(old(self)@.batches(contents(packet))),
            old(self)@.refused(contents(packet)) is None ==> old(self)@.steps(contents(packet)),
    {
        let ghost given = batch_models(out@);
        assert(given + Seq::<BatchModel>::empty() =~= given);
        let mut segments: Vec<Segment> = Vec::new();
        if let Some(slot) = self.assemble(packet, &mut segments) {
            deliver_all(slot, segments, &mut self.stats, out);
        }
    }
}

/// Decode the payloads of segments, count what they hold, and hand on their
/// entries.
fn deliver_all(
    slot: u64,
    segments: Vec<Segment>,
    stats: &mut Stats,
    out: &mut Vec<EntryBatch>,
)
    ensures
        *final(stats) == segments_counted(segment_models(segments@), *old(stats)),
        batch_models(final(out)@) == batch_models(old(out)@) + batches_of(
            slot,
            segment_models(segments@),
        ),
        fit(batches_of(slot, segment_models(segments@))),
        none_empty(batches_of(slot, segment_models(segments@))),
{
    let ghost given = batch_models(out@);
    let ghost start = *stats;
    let ghost all = segment_models(segments@);
    let ghost listed = segments@;
    assert(given + Seq::<BatchModel>::empty() =~= given);
    for segment in it: segments
        invariant
            it.seq() == listed,
            all == segment_models(listed),
            *stats == segments_counted(all.take(it.index() as int), start),
            batch_models(out@) == given + batches_of(slot, all.take(it.index() as int)),
            fit(batches_of(slot, all.take(it.index() as int))),
            none_empty(batches_of(slot, all.take(it.index() as int))),
    {
        let ghost n = it.index() as int;
        let data = entry::decode(&segment.bytes);
        let ghost so_far = batches_of(slot, all.take(n));
        let ghost more = batch_of(slot, segment@, payload_of(segment@.bytes));
        proof {
            assert(all.take(n + 1).drop_last() =~= all.take(n));
            assert(all.take(n + 1).last() == segment@);
            lemma_payload(segment.bytes@, data);
            assert(segment.bytes@.len() == segment.bytes.len());
            assert forall|i: int| 0 <= i < (so_far + more).len() implies num_transactions(
                (#[trigger] (so_far + more)[i]).entries,
            ) <= usize::MAX && (so_far + more)[i].entries.len() > 0 by {
                if i < so_far.len() {
                    assert((so_far + more)[i] == so_far[i]);
                } else {
                    assert((so_far + more)[i] == more[i - so_far.len()]);
                }
            }
        }
        deliver(slot, segment, data, stats, out);
        assert(given + so_far + more =~= given + (so_far + more));
    }
    assert(all.take(listed.len() as int) =~= all);
}

/// Whether each batch has an entry.
pub open spec fn none_empty(batches: Seq<BatchModel>) -> bool {
    forall|i: int| 0 <= i < batches.len() ==> (#[trigger] batches[i]).entries.len() > 0
}

/// Whether the transactions of each batch can be counted.
pub open spec fn fit(batches: Seq<BatchModel>) -> bool {
    forall|i: int|
        0 <= i < batches.len() ==> num_transactions((#[trigger] batches[i]).entries) <= usize::MAX
}

/// What decoding gives is what the payload holds.
proof fn lemma_payload(bytes: Seq<u8>, data: Result<BlockData, DecodeError>)
    requires
        match data {
            Ok(BlockData::BlockMarker) => is_marker(bytes),
            Ok(BlockData::Entries(entries)) => !is_marker(bytes) && entry::decodes_to(
                bytes,
                entry_views(entries@),
            ),
            Err(_) => !is_marker(bytes) && decoded(bytes) is Err,
        },
    ensures
        payload_given(data) == payload_of(bytes),
{
}

/// A slot that is not too old can be kept.
proof fn lemma_advanced(m: DeshredderModel, slot: u64, known: SlotModel, emitted: bool)
    requires
        m.valid(),
        known.valid(),
        !m.is_stale(slot),
    ensures
        m.advanced(slot, known, emitted).valid(),
        (DeshredderModel { slots: m.slots.remove(slot), ..m }).advanced(slot, known, emitted)
            == m.advanced(slot, known, emitted),
{
    let slots = m.slots.insert(slot, known);
    assert(m.slots.remove(slot).insert(slot, known) =~= slots);
    let limit = slot_limit(m.config.slot_lookback);
    let next = m.advanced(slot, known, emitted);
    if emitted && slot > m.highest_slot {
        let recent = slots.restrict(
            Set::new(|other: u64| other + m.config.slot_lookback >= slot),
        );
        assert(recent.dom().subset_of(slots.dom()));
        vstd::set_lib::lemma_set_subset_finite(slots.dom(), recent.dom());
        law_trimmed(recent, limit);
        assert forall|other: u64| #[trigger] next.slots.contains_key(other) implies
            next.slots[other].valid() && !next.is_stale(other) by {
            assert(recent.contains_key(other));
        }
    } else {
        law_trimmed(slots, limit);
        assert forall|other: u64| #[trigger] next.slots.contains_key(other) implies
            next.slots[other].valid() && !next.is_stale(other) by {
            assert(slots.contains_key(other));
        }
    }
}

} // verus!
