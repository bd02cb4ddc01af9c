//! What comes of a run of packets through a deshredder: the entry batches of the blocks
//! whose shreds are in them, whatever the order, loss and repetition of packets, and
//! whatever was altered on the way.

use crate::block;
use crate::block::{
    altered, available, built, data_shreds, in_block, is_available, is_block,
    lemma_altered_rejected, lemma_built_empty, lemma_built_gives, lemma_built_step,
    lemma_same_available,
};
use crate::deshredder::{
    batch_of, batches_of, goes_to, lemma_pushed_slot, payload_of, slot_limit, BatchModel, Config,
    DeshredderModel,
};
use crate::history::{
    lemma_empty_slot_valid, lemma_settled_after, lemma_settled_not_taken, lemma_settled_stays,
    lemma_step_frame, lemma_step_runs_stay, settled,
};
use crate::shred::{parse_error, shred_bytes, slot_of, valid_wire, version_of};
use crate::slot::{covers, emits, is_run, lemma_emits_join, step, SegmentModel, SlotModel};
use crate::stats::Stats;
use vstd::prelude::*;

verus! {

/// Whether a packet is a shred, of the configured version where there is one.
pub open spec fn accepted(config: Config, packet: Seq<u8>) -> bool {
    &&& parse_error(packet) is None
    &&& config.shred_version is Some ==> config.shred_version == Some(
        version_of(shred_bytes(packet)),
    )
}

/// Whether `models` are those of a deshredder, new at first, to which `packets` are
/// pushed one after the other.
#[verifier::opaque]
pub open spec fn run(models: Seq<DeshredderModel>, packets: Seq<Seq<u8>>) -> bool {
    &&& models.len() == packets.len() + 1
    &&& models[0].slots == Map::<u64, SlotModel>::empty()
    &&& models[0].highest_slot == 0
    &&& forall|i: int| 0 <= i < models.len() ==> (#[trigger] models[i]).valid()
    &&& forall|i: int|
        0 <= i < packets.len() ==> {
            &&& models[i + 1] == models[i].pushed(#[trigger] packets[i])
            &&& models[i].refused(packets[i]) is None ==> models[i].steps(packets[i])
        }
}

/// A run starts with a deshredder that knows nothing.
pub proof fn lemma_run_starts(models: Seq<DeshredderModel>, packets: Seq<Seq<u8>>, slot: u64)
    requires
        run(models, packets),
    ensures
        models.len() == packets.len() + 1,
        models[0].slots == Map::<u64, SlotModel>::empty(),
        models[0].highest_slot == 0,
        models[0].slot(slot) == SlotModel::empty(),
{
    reveal(run);
}

/// A packet takes a run further.
pub proof fn lemma_run_goes(models: Seq<DeshredderModel>, packets: Seq<Seq<u8>>, i: int)
    requires
        run(models, packets),
        0 <= i < packets.len(),
    ensures
        models.len() == packets.len() + 1,
        models[i].valid(),
        models[i + 1] == models[i].pushed(packets[i]),
        models[i].refused(packets[i]) is None ==> models[i].steps(packets[i]),
{
    reveal(run);
    assert(packets[i] == packets[i]);
}

/// Whether the shreds in all packets are of slots from `low` to the lookback above it.
pub open spec fn in_window(config: Config, packets: Seq<Seq<u8>>, low: u64) -> bool {
    forall|i: int|
        0 <= i < packets.len() && parse_error(#[trigger] packets[i]) is None ==> low <= slot_of(
            shred_bytes(packets[i]),
        ) <= low + config.slot_lookback
}

/// Whether a deshredder has gone no further than a window of slots.
pub open spec fn within(m: DeshredderModel, low: u64) -> bool {
    &&& m.highest_slot <= low + m.config.slot_lookback
    &&& forall|slot: u64| #[trigger]
        m.slots.contains_key(slot) ==> low <= slot <= low + m.config.slot_lookback
}

/// There are no more slots from `low` up to, not including, `high` than numbers.
proof fn lemma_range_len(slots: Set<u64>, low: int, high: int)
    requires
        slots.finite(),
        low <= high,
        forall|slot: u64| #[trigger] slots.contains(slot) ==> low <= slot < high,
    ensures
        slots.len() <= high - low,
    decreases high - low,
{
    if low == high {
        assert(slots =~= Set::empty());
    } else {
        let rest = slots.remove((high - 1) as u64);
        assert forall|slot: u64| #[trigger] rest.contains(slot) implies low <= slot < high - 1 by {
            assert(slots.contains(slot));
        }
        lemma_range_len(rest, low, high - 1);
    }
}

/// A packet for a slot within the window is not too old, and takes no slot out of the
/// window.
proof fn lemma_window_step(m: DeshredderModel, packet: Seq<u8>, low: u64)
    requires
        m.valid(),
        within(m, low),
        parse_error(packet) is None ==> low <= slot_of(shred_bytes(packet)) <= low
            + m.config.slot_lookback,
    ensures
        (m.refused(packet) is None) == accepted(m.config, packet),
        within(m.pushed(packet), low),
        m.pushed(packet).config == m.config,
        m.pushed(packet).recovery == m.recovery,
        forall|slot: u64|
            m.slots.contains_key(slot) || goes_to(m, packet, slot)
                ==> #[trigger] m.pushed(packet).slots.contains_key(slot),
{
    if m.refused(packet) is None {
        let b = shred_bytes(packet);
        let to = slot_of(b);
        let known = m.slot(to).inserted(b, m.recovery, m.packet_counted()).slot;
        let slots = m.slots.insert(to, known);
        let lookback = m.config.slot_lookback;
        let recent = slots.restrict(Set::new(|other: u64| other + lookback >= to));
        assert(recent =~= slots);
        assert forall|slot: u64| #[trigger] slots.dom().contains(slot) implies low <= slot < low
            + lookback + 1 by {
            if slot != to {
                assert(m.slots.contains_key(slot));
            }
        }
        lemma_range_len(slots.dom(), low as int, low + lookback + 1);
        assert(slots.dom().len() <= slot_limit(lookback));
        assert(m.pushed(packet).slots == slots);
    }
}

/// Slots within the window are kept, whatever comes.
pub proof fn law_window_keeps_slots(
    models: Seq<DeshredderModel>,
    packets: Seq<Seq<u8>>,
    low: u64,
    n: int,
)
    requires
        run(models, packets),
        in_window(models[0].config, packets, low),
        0 <= n <= packets.len(),
    ensures
        within(models[n], low),
        models[n].config == models[0].config,
        models[n].recovery == models[0].recovery,
        n < packets.len() ==> {
            &&& (models[n].refused(packets[n]) is None) == accepted(
                models[0].config,
                packets[n],
            )
            &&& forall|slot: u64|
                models[n].slots.contains_key(slot) || goes_to(models[n], packets[n], slot)
                    ==> #[trigger] models[n + 1].slots.contains_key(slot)
        },
    decreases n,
{
    if n == 0 {
        lemma_run_starts(models, packets, low);
    } else {
        law_window_keeps_slots(models, packets, low, n - 1);
        lemma_run_goes(models, packets, n - 1);
        lemma_window_step(models[n - 1], packets[n - 1], low);
    }
    if n < packets.len() {
        lemma_run_goes(models, packets, n);
        lemma_window_step(models[n], packets[n], low);
    }
}

/// Whether a packet brings a shred to `slot`.
pub open spec fn is_for(config: Config, packet: Seq<u8>, slot: u64) -> bool {
    accepted(config, packet) && slot_of(shred_bytes(packet)) == slot
}

/// The shreds that the first `n` packets bring to `slot`.
pub open spec fn shreds_for(
    config: Config,
    packets: Seq<Seq<u8>>,
    slot: u64,
    n: int,
) -> Seq<Seq<u8>>
    decreases n,
{
    if n <= 0 {
        Seq::empty()
    } else {
        let earlier = shreds_for(config, packets, slot, n - 1);
        if is_for(config, packets[n - 1], slot) {
            earlier.push(shred_bytes(packets[n - 1]))
        } else {
            earlier
        }
    }
}

/// The segments of `slot` that the first `n` packets complete.
pub open spec fn segments_for(
    models: Seq<DeshredderModel>,
    packets: Seq<Seq<u8>>,
    slot: u64,
    n: int,
) -> Seq<SegmentModel>
    decreases n,
{
    if n <= 0 {
        Seq::empty()
    } else {
        let earlier = segments_for(models, packets, slot, n - 1);
        if is_for(models[0].config, packets[n - 1], slot) {
            earlier + models[n - 1].segments(packets[n - 1])
        } else {
            earlier
        }
    }
}

/// The batches that come out of the first `n` packets.
pub open spec fn batches_from(
    models: Seq<DeshredderModel>,
    packets: Seq<Seq<u8>>,
    n: int,
) -> Seq<BatchModel>
    decreases n,
{
    if n <= 0 {
        Seq::empty()
    } else {
        batches_from(models, packets, n - 1) + models[n - 1].batches(packets[n - 1])
    }
}

/// Whether these are the blocks of some slots, by slot, as their leaders made them.
pub open spec fn are_blocks(blocks: Map<u64, Map<u32, Seq<Seq<u8>>>>) -> bool {
    forall|slot: u64| #[trigger] blocks.contains_key(slot) ==> is_block(blocks[slot])
}

/// The block of a slot; empty where there is none.
pub open spec fn block_at(
    blocks: Map<u64, Map<u32, Seq<Seq<u8>>>>,
    slot: u64,
) -> Map<u32, Seq<Seq<u8>>> {
    if blocks.contains_key(slot) {
        blocks[slot]
    } else {
        Map::empty()
    }
}

/// Whether packet `i` holds a shred that was altered on its way and comes in time to be
/// found out.
pub open spec fn is_altered(
    config: Config,
    packets: Seq<Seq<u8>>,
    blocks: Map<u64, Map<u32, Seq<Seq<u8>>>>,
    i: int,
) -> bool {
    let b = shred_bytes(packets[i]);
    let slot = slot_of(b);
    accepted(config, packets[i]) && altered(
        block_at(blocks, slot),
        shreds_for(config, packets, slot, i),
        b,
    )
}

/// Whether all packets that are accepted hold shreds as the leaders of `blocks` made
/// them, but for those that were altered and come in time to be found out.
pub open spec fn sent(
    config: Config,
    packets: Seq<Seq<u8>>,
    blocks: Map<u64, Map<u32, Seq<Seq<u8>>>>,
) -> bool {
    forall|i: int|
        0 <= i < packets.len() && accepted(config, #[trigger] packets[i]) ==> in_block(
            shred_bytes(packets[i]),
            block_at(blocks, slot_of(shred_bytes(packets[i]))),
        ) || is_altered(config, packets, blocks, i)
}

/// Whether this is a run, with recovery, whose packets hold the shreds of blocks, all of
/// slots within one window.
pub open spec fn block_run(
    models: Seq<DeshredderModel>,
    packets: Seq<Seq<u8>>,
    blocks: Map<u64, Map<u32, Seq<Seq<u8>>>>,
    low: u64,
) -> bool {
    &&& run(models, packets)
    &&& models[0].recovery
    &&& in_window(models[0].config, packets, low)
    &&& are_blocks(blocks)
    &&& sent(models[0].config, packets, blocks)
}

/// What a packet does to a slot that is kept.
pub proof fn lemma_slot_step(
    models: Seq<DeshredderModel>,
    packets: Seq<Seq<u8>>,
    low: u64,
    slot: u64,
    i: int,
)
    requires
        run(models, packets),
        in_window(models[0].config, packets, low),
        0 <= i < packets.len(),
    ensures
        is_for(models[0].config, packets[i], slot) ==> step(
            models[i].slot(slot),
            shred_bytes(packets[i]),
            models[0].recovery,
            models[i + 1].slot(slot),
            models[i].segments(packets[i]),
        ),
        !is_for(models[0].config, packets[i], slot) ==> models[i + 1].slot(slot) == models[i].slot(
            slot,
        ),
{
    law_window_keeps_slots(models, packets, low, i);
    lemma_run_goes(models, packets, i);
    assert(models[i].slots.contains_key(slot) || goes_to(models[i], packets[i], slot)
        ==> models[i + 1].slots.contains_key(slot));
    lemma_pushed_slot(models[i], packets[i], slot);
    if is_for(models[0].config, packets[i], slot) {
        assert(models[i].steps(packets[i]));
    }
}

/// What has come of a slot after the first `n` packets.
pub proof fn lemma_run_built(
    models: Seq<DeshredderModel>,
    packets: Seq<Seq<u8>>,
    blocks: Map<u64, Map<u32, Seq<Seq<u8>>>>,
    low: u64,
    slot: u64,
    n: int,
)
    requires
        block_run(models, packets, blocks, low),
        0 <= n <= packets.len(),
    ensures
        is_block(block_at(blocks, slot)),
        built(
            block_at(blocks, slot),
            models[n].slot(slot),
            shreds_for(models[0].config, packets, slot, n),
            segments_for(models, packets, slot, n),
        ),
    decreases n,
{
    let config = models[0].config;
    let sets = block_at(blocks, slot);
    assert(is_block(sets));
    if n == 0 {
        lemma_built_empty(sets);
        lemma_run_starts(models, packets, slot);
    } else {
        let i = n - 1;
        lemma_run_built(models, packets, blocks, low, slot, i);
        lemma_slot_step(models, packets, low, slot, i);
        if is_for(config, packets[i], slot) {
            let b = shred_bytes(packets[i]);
            let shreds = shreds_for(config, packets, slot, i);
            let all = segments_for(models, packets, slot, i);
            assert(accepted(config, packets[i]));
            if is_altered(config, packets, blocks, i) {
                lemma_altered_rejected(sets, models[i].slot(slot), shreds, all, b);
            }
            lemma_built_step(
                sets,
                models[i].slot(slot),
                b,
                models[n].slot(slot),
                models[i].segments(packets[i]),
                shreds,
                all,
            );
        }
    }
}

/// A slot has done with the shred of packet `i` once it was pushed.
proof fn lemma_settled_by_packet(
    models: Seq<DeshredderModel>,
    packets: Seq<Seq<u8>>,
    low: u64,
    i: int,
)
    requires
        run(models, packets),
        in_window(models[0].config, packets, low),
        0 <= i < packets.len(),
        accepted(models[0].config, packets[i]),
    ensures
        valid_wire(shred_bytes(packets[i])),
        settled(
            models[i + 1].slot(slot_of(shred_bytes(packets[i]))),
            shred_bytes(packets[i]),
        ),
{
    let x = shred_bytes(packets[i]);
    let slot = slot_of(x);
    lemma_slot_step(models, packets, low, slot, i);
    lemma_settled_after(
        models[i].slot(slot),
        x,
        models[0].recovery,
        models[i + 1].slot(slot),
        models[i].segments(packets[i]),
    );
}

/// A slot that has done with a shred has done with it after one more packet.
proof fn lemma_settled_past_packet(
    models: Seq<DeshredderModel>,
    packets: Seq<Seq<u8>>,
    low: u64,
    slot: u64,
    x: Seq<u8>,
    i: int,
)
    requires
        run(models, packets),
        in_window(models[0].config, packets, low),
        0 <= i < packets.len(),
        valid_wire(x),
        settled(models[i].slot(slot), x),
    ensures
        settled(models[i + 1].slot(slot), x),
{
    lemma_slot_step(models, packets, low, slot, i);
    if is_for(models[0].config, packets[i], slot) {
        lemma_settled_stays(
            models[i].slot(slot),
            x,
            shred_bytes(packets[i]),
            models[0].recovery,
            models[i + 1].slot(slot),
            models[i].segments(packets[i]),
        );
    }
}

/// By the time of packet `j` a slot has done with the shred of packet `i`.
proof fn lemma_settled_in_run(
    models: Seq<DeshredderModel>,
    packets: Seq<Seq<u8>>,
    low: u64,
    i: int,
    j: int,
)
    requires
        run(models, packets),
        in_window(models[0].config, packets, low),
        0 <= i < j <= packets.len(),
        accepted(models[0].config, packets[i]),
    ensures
        valid_wire(shred_bytes(packets[i])),
        settled(
            models[j].slot(slot_of(shred_bytes(packets[i]))),
            shred_bytes(packets[i]),
        ),
    decreases j,
{
    let x = shred_bytes(packets[i]);
    if j == i + 1 {
        lemma_settled_by_packet(models, packets, low, i);
    } else {
        lemma_settled_in_run(models, packets, low, i, j - 1);
        lemma_settled_past_packet(models, packets, low, slot_of(x), x, j - 1);
    }
}

/// A packet that comes again, any time later, completes nothing and makes no shred
/// present, while its slot is kept.
pub proof fn law_repeated_packet_gives_nothing(
    models: Seq<DeshredderModel>,
    packets: Seq<Seq<u8>>,
    low: u64,
    i: int,
    j: int,
)
    requires
        run(models, packets),
        in_window(models[0].config, packets, low),
        0 <= i < j < packets.len(),
        packets[i] == packets[j],
    ensures
        models[j].batches(packets[j]) == Seq::<BatchModel>::empty(),
        models[j + 1].highest_slot == models[j].highest_slot,
        forall|slot: u64| {
            &&& (#[trigger] models[j + 1].slot(slot)).received == models[j].slot(slot).received
            &&& models[j + 1].slot(slot).complete == models[j].slot(slot).complete
            &&& models[j + 1].slot(slot).consumed == models[j].slot(slot).consumed
        },
{
    let config = models[0].config;
    law_window_keeps_slots(models, packets, low, j);
    lemma_run_goes(models, packets, j);
    let b = shred_bytes(packets[j]);
    let to = slot_of(b);
    if accepted(config, packets[j]) {
        lemma_settled_in_run(models, packets, low, i, j);
        lemma_slot_step(models, packets, low, to, j);
        lemma_settled_not_taken(models[j].slot(to), b);
        lemma_step_frame(
            models[j].slot(to),
            b,
            models[0].recovery,
            models[j + 1].slot(to),
            models[j].segments(packets[j]),
        );
        assert(models[j].segments(packets[j]) =~= Seq::empty());
    }
    assert forall|slot: u64| {
        &&& (#[trigger] models[j + 1].slot(slot)).received == models[j].slot(slot).received
        &&& models[j + 1].slot(slot).complete == models[j].slot(slot).complete
        &&& models[j + 1].slot(slot).consumed == models[j].slot(slot).consumed
    } by {
        lemma_slot_step(models, packets, low, slot, j);
    }
}

/// Packets that have all come before give nothing.
proof fn lemma_repeats(
    models: Seq<DeshredderModel>,
    packets: Seq<Seq<u8>>,
    low: u64,
    first: int,
    n: int,
)
    requires
        run(models, packets),
        in_window(models[0].config, packets, low),
        0 <= first <= n <= packets.len(),
        forall|j: int|
            first <= j < n ==> packets.take(first).contains(#[trigger] packets[j]),
    ensures
        batches_from(models, packets, n) == batches_from(models, packets, first),
    decreases n,
{
    if first < n {
        let j = n - 1;
        lemma_repeats(models, packets, low, first, j);
        assert(packets.take(first).contains(packets[j]));
        let i = choose|i: int| 0 <= i < first && packets.take(first)[i] == packets[j];
        assert(packets[i] == packets[j]);
        law_repeated_packet_gives_nothing(models, packets, low, i, j);
        assert(batches_from(models, packets, n) =~= batches_from(models, packets, j));
    }
}

/// Only the models and packets up to a packet matter for what comes out up to it.
proof fn lemma_same_front(
    models: Seq<DeshredderModel>,
    packets: Seq<Seq<u8>>,
    front_models: Seq<DeshredderModel>,
    front: Seq<Seq<u8>>,
    n: int,
)
    requires
        0 <= n <= front.len() <= packets.len(),
        front.len() <= models.len(),
        front.len() <= front_models.len(),
        forall|i: int| 0 <= i < front.len() ==> #[trigger] models[i] == front_models[i],
        forall|i: int| 0 <= i < front.len() ==> #[trigger] packets[i] == front[i],
    ensures
        batches_from(models, packets, n) == batches_from(front_models, front, n),
    decreases n,
{
    if n > 0 {
        lemma_same_front(models, packets, front_models, front, n - 1);
        assert(models[n - 1] == front_models[n - 1]);
        assert(packets[n - 1] == front[n - 1]);
    }
}

/// A deshredder that is new starts a run.
pub proof fn law_new_deshredder_starts_a_run(config: Config, recovery: bool, stats: Stats)
    ensures
        run(seq![DeshredderModel::fresh(config, recovery, stats)], Seq::empty()),
{
    reveal(run);
    assert(Map::<u64, SlotModel>::empty().dom() =~= Set::empty());
}

/// Every packet that is pushed takes the run further, and what has come out of it.
pub proof fn law_push_goes_on(
    models: Seq<DeshredderModel>,
    packets: Seq<Seq<u8>>,
    packet: Seq<u8>,
)
    requires
        run(models, packets),
        models.last().pushed(packet).valid(),
        models.last().refused(packet) is None ==> models.last().steps(packet),
    ensures
        run(models.push(models.last().pushed(packet)), packets.push(packet)),
        batches_from(
            models.push(models.last().pushed(packet)),
            packets.push(packet),
            packets.len() as int + 1,
        ) == batches_from(models, packets, packets.len() as int) + models.last().batches(packet),
{
    reveal(run);
    let next = models.last().pushed(packet);
    let more_models = models.push(next);
    let more = packets.push(packet);
    assert forall|i: int| 0 <= i < more_models.len() implies (
    #[trigger] more_models[i]).valid() by {
        if i < models.len() {
            assert(models[i].valid());
        }
    }
    assert forall|i: int| 0 <= i < more.len() implies {
        &&& more_models[i + 1] == more_models[i].pushed(#[trigger] more[i])
        &&& more_models[i].refused(more[i]) is None ==> more_models[i].steps(more[i])
    } by {
        if i < packets.len() {
            assert(more[i] == packets[i]);
        }
    }
    lemma_same_front(more_models, more, models, packets, packets.len() as int);
}

/// Runs that start alike and get the same packets go alike.
proof fn lemma_same_models(
    a_models: Seq<DeshredderModel>,
    a: Seq<Seq<u8>>,
    b_models: Seq<DeshredderModel>,
    b: Seq<Seq<u8>>,
    n: int,
)
    requires
        run(a_models, a),
        run(b_models, b),
        a_models[0] == b_models[0],
        0 <= n <= a.len() <= b.len(),
        forall|i: int| 0 <= i < a.len() ==> #[trigger] a[i] == b[i],
    ensures
        a_models[n] == b_models[n],
    decreases n,
{
    if n > 0 {
        lemma_same_models(a_models, a, b_models, b, n - 1);
        assert(a[n - 1] == b[n - 1]);
        lemma_run_goes(a_models, a, n - 1);
        lemma_run_goes(b_models, b, n - 1);
    }
}

/// All packets pushed a second time give nothing: the batches that come out of them
/// twice, in their order, are those that come out of them once.
pub proof fn law_second_pass_gives_nothing(
    once: Seq<DeshredderModel>,
    twice: Seq<DeshredderModel>,
    packets: Seq<Seq<u8>>,
    low: u64,
)
    requires
        run(once, packets),
        run(twice, packets + packets),
        once[0] == twice[0],
        in_window(once[0].config, packets, low),
    ensures
        batches_from(twice, packets + packets, 2 * packets.len() as int) == batches_from(
            once,
            packets,
            packets.len() as int,
        ),
{
    let n = packets.len() as int;
    let all = packets + packets;
    assert forall|i: int| 0 <= i < all.len() && parse_error(
        #[trigger] all[i],
    ) is None implies low <= slot_of(shred_bytes(all[i])) <= low
        + once[0].config.slot_lookback by {
        if i < n {
            assert(all[i] == packets[i]);
        } else {
            assert(all[i] == packets[i - n]);
        }
    }
    assert(all.take(n) =~= packets);
    assert forall|j: int| n <= j < 2 * n implies all.take(n).contains(#[trigger] all[j]) by {
        assert(all[j] == packets[j - n]);
    }
    lemma_repeats(twice, all, low, n, 2 * n);
    lemma_run_starts(once, packets, low);
    lemma_run_starts(twice, all, low);
    assert forall|i: int| 0 <= i < n implies #[trigger] twice[i] == once[i] by {
        lemma_same_models(once, packets, twice, all, i);
    }
    lemma_same_front(twice, all, once, packets, n);
}

/// What has come out of a slot after the first `n` packets, whatever they hold.
proof fn lemma_run_emits(
    models: Seq<DeshredderModel>,
    packets: Seq<Seq<u8>>,
    low: u64,
    slot: u64,
    n: int,
)
    requires
        run(models, packets),
        in_window(models[0].config, packets, low),
        0 <= n <= packets.len(),
    ensures
        models[n].slot(slot).valid(),
        emits(
            SlotModel::empty(),
            models[n].slot(slot),
            segments_for(models, packets, slot, n),
        ),
    decreases n,
{
    if n == 0 {
        lemma_empty_slot_valid();
        lemma_run_starts(models, packets, slot);
    } else {
        let i = n - 1;
        lemma_run_emits(models, packets, low, slot, i);
        lemma_slot_step(models, packets, low, slot, i);
        if is_for(models[0].config, packets[i], slot) {
            let m = models[i].slot(slot);
            let b = shred_bytes(packets[i]);
            let next = models[n].slot(slot);
            let segments = models[i].segments(packets[i]);
            assert forall|f: int, l: int| #[trigger]
                is_run(m.received, m.complete, f, l) implies is_run(
                next.received,
                next.complete,
                f,
                l,
            ) by {
                lemma_step_runs_stay(m, b, models[0].recovery, next, segments, f, l);
            }
            lemma_emits_join(
                SlotModel::empty(),
                m,
                next,
                segments_for(models, packets, slot, i),
                segments,
            );
        }
    }
}

/// Whether `batch` is what a segment of `slot` makes.
pub open spec fn makes(slot: u64, segment: SegmentModel, batch: BatchModel) -> bool {
    batch_of(slot, segment, payload_of(segment.bytes)) == seq![batch]
}

/// Whether `batch` is what one of the segments of its slot makes.
pub open spec fn one_makes(segments: Seq<SegmentModel>, batch: BatchModel) -> bool {
    exists|s: int| 0 <= s < segments.len() && makes(batch.slot, #[trigger] segments[s], batch)
}

/// A batch that a segment makes is of its slot and has its range.
proof fn lemma_makes(slot: u64, segment: SegmentModel, batch: BatchModel)
    ensures
        batch_of(slot, segment, payload_of(segment.bytes)).contains(batch) <==> makes(
            slot,
            segment,
            batch,
        ),
        makes(slot, segment, batch) ==> batch.slot == slot && batch.shreds == segment.shreds,
{
    let made = batch_of(slot, segment, payload_of(segment.bytes));
    if made.contains(batch) {
        assert(made =~= seq![batch]);
    }
    if makes(slot, segment, batch) {
        assert(made[0] == seq![batch][0]);
        assert(made.contains(made[0]));
    }
}

/// What is in one of two sequences.
proof fn lemma_contains_joined<A>(a: Seq<A>, b: Seq<A>, x: A)
    ensures
        (a + b).contains(x) <==> a.contains(x) || b.contains(x),
{
    let all = a + b;
    if a.contains(x) {
        let i = choose|i: int| 0 <= i < a.len() && a[i] == x;
        assert(all[i] == x);
    }
    if b.contains(x) {
        let i = choose|i: int| 0 <= i < b.len() && b[i] == x;
        assert(all[a.len() + i] == x);
    }
    if all.contains(x) {
        let i = choose|i: int| 0 <= i < all.len() && all[i] == x;
        if i < a.len() {
            assert(a[i] == x);
        } else {
            assert(b[i - a.len()] == x);
        }
    }
}

/// What one of the segments makes.
proof fn lemma_one_makes_joined(a: Seq<SegmentModel>, b: Seq<SegmentModel>, batch: BatchModel)
    ensures
        one_makes(a + b, batch) <==> one_makes(a, batch) || one_makes(b, batch),
{
    let all = a + b;
    if one_makes(a, batch) {
        let s = choose|s: int| 0 <= s < a.len() && makes(batch.slot, #[trigger] a[s], batch);
        assert(all[s] == a[s]);
    }
    if one_makes(b, batch) {
        let s = choose|s: int| 0 <= s < b.len() && makes(batch.slot, #[trigger] b[s], batch);
        assert(all[a.len() + s] == b[s]);
    }
    if one_makes(all, batch) {
        let s = choose|s: int| 0 <= s < all.len() && makes(batch.slot, #[trigger] all[s], batch);
        if s < a.len() {
            assert(all[s] == a[s]);
        } else {
            assert(all[s] == b[s - a.len()]);
        }
    }
}

/// The batches of segments are those that one of the segments makes.
proof fn lemma_batches_of_contain(slot: u64, segments: Seq<SegmentModel>, batch: BatchModel)
    ensures
        batches_of(slot, segments).contains(batch) <==> batch.slot == slot && one_makes(
            segments,
            batch,
        ),
    decreases segments.len(),
{
    if segments.len() > 0 {
        let front = segments.drop_last();
        let last = segments.last();
        lemma_batches_of_contain(slot, front, batch);
        lemma_makes(slot, last, batch);
        lemma_contains_joined(
            batches_of(slot, front),
            batch_of(slot, last, payload_of(last.bytes)),
            batch,
        );
        assert(segments =~= front + seq![last]);
        lemma_one_makes_joined(front, seq![last], batch);
        if one_makes(seq![last], batch) {
            assert(makes(batch.slot, last, batch));
        }
        if makes(slot, last, batch) {
            assert(makes(batch.slot, seq![last][0], batch));
        }
    }
}

/// The batches that come out are those that one of the segments of their slot makes.
proof fn lemma_batches_from_contain(
    models: Seq<DeshredderModel>,
    packets: Seq<Seq<u8>>,
    low: u64,
    n: int,
    batch: BatchModel,
)
    requires
        run(models, packets),
        in_window(models[0].config, packets, low),
        0 <= n <= packets.len(),
    ensures
        batches_from(models, packets, n).contains(batch) <==> one_makes(
            segments_for(models, packets, batch.slot, n),
            batch,
        ),
    decreases n,
{
    if n > 0 {
        let i = n - 1;
        lemma_batches_from_contain(models, packets, low, i, batch);
        law_window_keeps_slots(models, packets, low, i);
        let earlier = batches_from(models, packets, i);
        lemma_contains_joined(earlier, models[i].batches(packets[i]), batch);
        if accepted(models[0].config, packets[i]) {
            let to = slot_of(shred_bytes(packets[i]));
            let segments = models[i].segments(packets[i]);
            lemma_batches_of_contain(to, segments, batch);
            lemma_one_makes_joined(
                segments_for(models, packets, batch.slot, i),
                segments,
                batch,
            );
        }
    }
}

/// Whether no two segments have the same range.
pub open spec fn distinct(segments: Seq<SegmentModel>) -> bool {
    forall|s: int, t: int|
        0 <= s < t < segments.len() ==> (#[trigger] segments[s]).shreds != (
        #[trigger] segments[t]).shreds
}

/// What was emitted has distinct ranges.
proof fn lemma_emitted_ranges(m: SlotModel, all: Seq<SegmentModel>)
    requires
        emits(SlotModel::empty(), m, all),
    ensures
        distinct(all),
{
    assert forall|s: int, t: int| 0 <= s < t < all.len() implies (#[trigger] all[s]).shreds != (
    #[trigger] all[t]).shreds by {
        let i = all[s].shreds.start as int;
        assert(is_run(m.received, m.complete, i, all[s].shreds.end as int));
        assert(covers(all[s], i));
        assert(!covers(all[t], i));
    }
}

/// Segments with distinct ranges make distinct batches.
proof fn lemma_batches_of_distinct(slot: u64, segments: Seq<SegmentModel>)
    requires
        distinct(segments),
    ensures
        batches_of(slot, segments).no_duplicates(),
    decreases segments.len(),
{
    if segments.len() > 0 {
        let front = segments.drop_last();
        let last = segments.last();
        assert forall|s: int, t: int| 0 <= s < t < front.len() implies (
        #[trigger] front[s]).shreds != (#[trigger] front[t]).shreds by {
            assert(front[s] == segments[s] && front[t] == segments[t]);
        }
        lemma_batches_of_distinct(slot, front);
        let earlier = batches_of(slot, front);
        let made = batch_of(slot, last, payload_of(last.bytes));
        if made.len() > 0 {
            let batch = made[0];
            assert(made.contains(batch));
            lemma_makes(slot, last, batch);
            if earlier.contains(batch) {
                lemma_batches_of_contain(slot, front, batch);
                let s = choose|s: int|
                    0 <= s < front.len() && makes(batch.slot, #[trigger] front[s], batch);
                lemma_makes(slot, front[s], batch);
                assert(segments[s].shreds != segments[segments.len() - 1].shreds);
            }
        }
        lemma_joined_no_duplicates(earlier, made);
    }
}

/// Two sequences that share nothing, and have nothing twice, have nothing twice together.
proof fn lemma_joined_no_duplicates<A>(a: Seq<A>, b: Seq<A>)
    requires
        a.no_duplicates(),
        b.no_duplicates(),
        forall|x: A| #[trigger] b.contains(x) ==> !a.contains(x),
    ensures
        (a + b).no_duplicates(),
{
    let all = a + b;
    assert forall|i: int, j: int| 0 <= i < all.len() && 0 <= j < all.len() && i != j implies all[i]
        != all[j] by {
        if i < a.len() && j >= a.len() {
            assert(b.contains(b[j - a.len()]));
            assert(a.contains(a[i]));
        } else if j < a.len() && i >= a.len() {
            assert(b.contains(b[i - a.len()]));
            assert(a.contains(a[j]));
        }
    }
}

/// Of segments with distinct ranges the later ones make no batch that the earlier ones
/// make, and none twice.
proof fn lemma_made_once(
    slot: u64,
    before: Seq<SegmentModel>,
    segments: Seq<SegmentModel>,
)
    requires
        distinct(before + segments),
    ensures
        batches_of(slot, segments).no_duplicates(),
        forall|batch: BatchModel| #[trigger]
            batches_of(slot, segments).contains(batch) ==> !one_makes(before, batch),
{
    let all = before + segments;
    assert forall|s: int, t: int| 0 <= s < t < segments.len() implies (
    #[trigger] segments[s]).shreds != (#[trigger] segments[t]).shreds by {
        assert(segments[s] == all[before.len() + s]);
        assert(segments[t] == all[before.len() + t]);
    }
    lemma_batches_of_distinct(slot, segments);
    assert forall|batch: BatchModel| #[trigger]
        batches_of(slot, segments).contains(batch) implies !one_makes(before, batch) by {
        lemma_batches_of_contain(slot, segments, batch);
        let t = choose|t: int|
            0 <= t < segments.len() && makes(batch.slot, #[trigger] segments[t], batch);
        lemma_makes(slot, segments[t], batch);
        if one_makes(before, batch) {
            let s = choose|s: int|
                0 <= s < before.len() && makes(batch.slot, #[trigger] before[s], batch);
            lemma_makes(slot, before[s], batch);
            assert(all[s] == before[s]);
            assert(all[before.len() + t] == segments[t]);
        }
    }
}

/// The segments of a slot have distinct ranges.
proof fn lemma_run_distinct(
    models: Seq<DeshredderModel>,
    packets: Seq<Seq<u8>>,
    low: u64,
    slot: u64,
    n: int,
)
    requires
        run(models, packets),
        in_window(models[0].config, packets, low),
        0 <= n <= packets.len(),
    ensures
        distinct(segments_for(models, packets, slot, n)),
{
    lemma_run_emits(models, packets, low, slot, n);
    lemma_emitted_ranges(models[n].slot(slot), segments_for(models, packets, slot, n));
}

/// No batch comes out twice, whatever the packets hold.
pub proof fn law_no_batch_comes_out_twice(
    models: Seq<DeshredderModel>,
    packets: Seq<Seq<u8>>,
    low: u64,
    n: int,
)
    requires
        run(models, packets),
        in_window(models[0].config, packets, low),
        0 <= n <= packets.len(),
    ensures
        batches_from(models, packets, n).no_duplicates(),
    decreases n,
{
    if n > 0 {
        let i = n - 1;
        law_no_batch_comes_out_twice(models, packets, low, i);
        law_window_keeps_slots(models, packets, low, i);
        let earlier = batches_from(models, packets, i);
        let more = models[i].batches(packets[i]);
        if accepted(models[0].config, packets[i]) {
            let to = slot_of(shred_bytes(packets[i]));
            let before = segments_for(models, packets, to, i);
            let segments = models[i].segments(packets[i]);
            lemma_run_distinct(models, packets, low, to, n);
            assert(segments_for(models, packets, to, n) == before + segments);
            lemma_made_once(to, before, segments);
            assert forall|batch: BatchModel| #[trigger] more.contains(batch) implies
                !earlier.contains(batch) by {
                lemma_batches_of_contain(to, segments, batch);
                lemma_batches_from_contain(models, packets, low, i, batch);
            }
        }
        lemma_joined_no_duplicates(earlier, more);
    }
}

/// Whether `batch` is an entry batch of a block that can be had from the packets.
pub open spec fn batch_can_be_had(
    config: Config,
    packets: Seq<Seq<u8>>,
    blocks: Map<u64, Map<u32, Seq<Seq<u8>>>>,
    batch: BatchModel,
) -> bool {
    let sets = block_at(blocks, batch.slot);
    let segment = block::batch_of(
        data_shreds(sets),
        batch.shreds.start as int,
        batch.shreds.end as int,
    );
    &&& is_available(
        sets,
        shreds_for(config, packets, batch.slot, packets.len() as int),
        segment,
    )
    &&& makes(batch.slot, segment, batch)
}

/// What comes out of packets with the shreds of blocks are those of the entry batches of
/// the blocks that can be had from them, each once, and nothing else.
pub proof fn law_batches_that_can_be_had_come_out(
    models: Seq<DeshredderModel>,
    packets: Seq<Seq<u8>>,
    blocks: Map<u64, Map<u32, Seq<Seq<u8>>>>,
    low: u64,
)
    requires
        block_run(models, packets, blocks, low),
    ensures
        forall|batch: BatchModel| #[trigger]
            batches_from(models, packets, packets.len() as int).contains(batch)
                <==> batch_can_be_had(models[0].config, packets, blocks, batch),
        batches_from(models, packets, packets.len() as int).no_duplicates(),
{
    let n = packets.len() as int;
    law_no_batch_comes_out_twice(models, packets, low, n);
    assert forall|batch: BatchModel| #[trigger]
        batches_from(models, packets, n).contains(batch) <==> batch_can_be_had(
        models[0].config,
        packets,
        blocks,
        batch,
    ) by {
        lemma_batch_can_be_had(models, packets, blocks, low, batch);
    }
}

/// A batch comes out exactly if it can be had.
proof fn lemma_batch_can_be_had(
    models: Seq<DeshredderModel>,
    packets: Seq<Seq<u8>>,
    blocks: Map<u64, Map<u32, Seq<Seq<u8>>>>,
    low: u64,
    batch: BatchModel,
)
    requires
        block_run(models, packets, blocks, low),
    ensures
        batches_from(models, packets, packets.len() as int).contains(batch) <==> batch_can_be_had(
            models[0].config,
            packets,
            blocks,
            batch,
        ),
{
    let n = packets.len() as int;
    let slot = batch.slot;
    let sets = block_at(blocks, slot);
    let shreds = shreds_for(models[0].config, packets, slot, n);
    let all = segments_for(models, packets, slot, n);
    let m = models[n].slot(slot);
    let segment = block::batch_of(
        data_shreds(sets),
        batch.shreds.start as int,
        batch.shreds.end as int,
    );
    lemma_batches_from_contain(models, packets, low, n, batch);
    lemma_run_built(models, packets, blocks, low, slot, n);
    lemma_built_gives(sets, m, shreds, all, segment);
    if one_makes(all, batch) {
        let s = choose|s: int| 0 <= s < all.len() && makes(slot, #[trigger] all[s], batch);
        lemma_makes(slot, all[s], batch);
        assert(all.contains(all[s]));
        lemma_built_gives(sets, m, shreds, all, all[s]);
        assert(all[s] == segment);
    }
    if batch_can_be_had(models[0].config, packets, blocks, batch) {
        let s = choose|s: int| 0 <= s < all.len() && all[s] == segment;
        assert(makes(slot, all[s], batch));
    }
}

/// Whether the same data shreds of the blocks can be had from either packets.
pub open spec fn same_can_be_had(
    config: Config,
    a: Seq<Seq<u8>>,
    b: Seq<Seq<u8>>,
    blocks: Map<u64, Map<u32, Seq<Seq<u8>>>>,
) -> bool {
    forall|slot: u64, i: int|
        available(
            block_at(blocks, slot),
            #[trigger] shreds_for(config, a, slot, a.len() as int),
            i,
        ) == #[trigger] available(
            block_at(blocks, slot),
            shreds_for(config, b, slot, b.len() as int),
            i,
        )
}

/// Nothing twice in either of two sequences with the same elements: the same multiset.
proof fn lemma_same_multiset<A>(a: Seq<A>, b: Seq<A>)
    requires
        a.no_duplicates(),
        b.no_duplicates(),
        forall|x: A| #[trigger] a.contains(x) <==> b.contains(x),
    ensures
        a.to_multiset() == b.to_multiset(),
{
    a.to_multiset_ensures();
    b.to_multiset_ensures();
    a.lemma_multiset_has_no_duplicates();
    b.lemma_multiset_has_no_duplicates();
    assert forall|x: A| #[trigger] a.to_multiset().count(x) == b.to_multiset().count(x) by {
        assert(a.contains(x) <==> b.contains(x));
        assert(a.to_multiset().contains(x) <==> a.to_multiset().count(x) > 0);
        assert(b.to_multiset().contains(x) <==> b.to_multiset().count(x) > 0);
    }
    assert(a.to_multiset() =~= b.to_multiset());
}

/// Packets from which the same data shreds of the blocks can be had give the same
/// batches, whatever the order, loss, repetition and alteration of packets on either
/// side.
pub proof fn law_same_can_be_had_gives_the_same_batches(
    a_models: Seq<DeshredderModel>,
    a: Seq<Seq<u8>>,
    b_models: Seq<DeshredderModel>,
    b: Seq<Seq<u8>>,
    blocks: Map<u64, Map<u32, Seq<Seq<u8>>>>,
    low: u64,
)
    requires
        block_run(a_models, a, blocks, low),
        block_run(b_models, b, blocks, low),
        a_models[0].config == b_models[0].config,
        same_can_be_had(a_models[0].config, a, b, blocks),
    ensures
        batches_from(a_models, a, a.len() as int).to_multiset() == batches_from(
            b_models,
            b,
            b.len() as int,
        ).to_multiset(),
{
    let config = a_models[0].config;
    law_batches_that_can_be_had_come_out(a_models, a, blocks, low);
    law_batches_that_can_be_had_come_out(b_models, b, blocks, low);
    let from_a = batches_from(a_models, a, a.len() as int);
    let from_b = batches_from(b_models, b, b.len() as int);
    assert forall|batch: BatchModel| #[trigger] from_a.contains(batch) <==> from_b.contains(
        batch,
    ) by {
        let sets = block_at(blocks, batch.slot);
        let a_shreds = shreds_for(config, a, batch.slot, a.len() as int);
        let b_shreds = shreds_for(config, b, batch.slot, b.len() as int);
        assert forall|i: int| #[trigger] available(sets, a_shreds, i) == available(
            sets,
            b_shreds,
            i,
        ) by {
            assert(available(
                block_at(blocks, batch.slot),
                shreds_for(config, b, batch.slot, b.len() as int),
                i,
            ) == available(sets, b_shreds, i));
        }
        let segment = block::batch_of(
            data_shreds(sets),
            batch.shreds.start as int,
            batch.shreds.end as int,
        );
        lemma_same_available(sets, a_shreds, b_shreds, segment);
    }
    lemma_same_multiset(from_a, from_b);
}

} // verus!
