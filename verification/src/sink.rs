//! Where entry batches go.

use crate::deshredder::{batch_models, BatchModel, EntryBatch};
use vstd::prelude::*;

verus! {

/// Receives every entry batch, in the order they complete.
pub trait EntrySink: Send {
    /// Whether handing over `batch` may take a sink from `before` to `after`. A sink
    /// that only passes batches on says nothing of what becomes of itself.
    open spec fn hands_over(before: &Self, batch: BatchModel, after: &Self) -> bool {
        true
    }

    fn on_batch(&mut self, batch: EntryBatch)
        ensures
            Self::hands_over(old(self), batch@, final(self)),
    ;
}

/// Whether a sink goes through `states` as `batches` are handed over one after the
/// other.
pub open spec fn goes_through<S: EntrySink>(states: Seq<S>, batches: Seq<BatchModel>) -> bool {
    &&& states.len() == batches.len() + 1
    &&& forall|i: int|
        0 <= i < batches.len() ==> S::hands_over(
            &states[i],
            #[trigger] batches[i],
            &states[i + 1],
        )
}

/// Whether handing over `batches`, one after the other, may take a sink from `before`
/// to `after`.
pub open spec fn handed<S: EntrySink>(before: S, batches: Seq<BatchModel>, after: S) -> bool {
    exists|states: Seq<S>| #[trigger]
        goes_through(states, batches) && states[0] == before && states.last() == after
}

/// Nothing handed over.
pub proof fn lemma_handed_none<S: EntrySink>(sink: S)
    ensures
        handed(sink, Seq::empty(), sink),
{
    assert(goes_through(seq![sink], Seq::empty()));
}

/// Handing over one batch.
pub proof fn lemma_handed_one<S: EntrySink>(before: S, batch: BatchModel, after: S)
    requires
        S::hands_over(&before, batch, &after),
    ensures
        handed(before, seq![batch], after),
{
    assert(goes_through(seq![before, after], seq![batch]));
}

/// Handing over batches in two steps.
pub proof fn law_handed_in_steps<S: EntrySink>(
    a: S,
    first: Seq<BatchModel>,
    b: S,
    second: Seq<BatchModel>,
    c: S,
)
    requires
        handed(a, first, b),
        handed(b, second, c),
    ensures
        handed(a, first + second, c),
{
    let f = choose|states: Seq<S>| #[trigger]
        goes_through(states, first) && states[0] == a && states.last() == b;
    let g = choose|states: Seq<S>| #[trigger]
        goes_through(states, second) && states[0] == b && states.last() == c;
    let states = f + g.drop_first();
    let all = first + second;
    assert forall|i: int| 0 <= i < all.len() implies S::hands_over(
        &states[i],
        #[trigger] all[i],
        &states[i + 1],
    ) by {
        if i < first.len() {
            assert(all[i] == first[i]);
        } else {
            let j = i - first.len();
            assert(all[i] == second[j]);
            assert(states[i] == g[j]);
            assert(states[i + 1] == g[j + 1]);
        }
    }
    assert(goes_through(states, all));
    assert(states.last() == c);
}

/// Keeps the batches.
impl EntrySink for Vec<EntryBatch> {
    open spec fn hands_over(before: &Self, batch: BatchModel, after: &Self) -> bool {
        batch_models(after@) == batch_models(before@).push(batch)
    }

    fn on_batch(&mut self, batch: EntryBatch) {
        let ghost before = self@;
        self.push(batch);
        assert(batch_models(self@) =~= batch_models(before).push(batch@));
    }
}

/// A vector keeps the batches that it has been handed so far.
proof fn lemma_vector_so_far(states: Seq<Vec<EntryBatch>>, batches: Seq<BatchModel>, n: int)
    requires
        goes_through(states, batches),
        0 <= n <= batches.len(),
    ensures
        batch_models(states[n]@) == batch_models(states[0]@) + batches.take(n),
    decreases n,
{
    if n == 0 {
        assert(batch_models(states[0]@) + batches.take(0) =~= batch_models(states[0]@));
    } else {
        lemma_vector_so_far(states, batches, n - 1);
        let batch = batches[n - 1];
        assert(<Vec<EntryBatch> as EntrySink>::hands_over(&states[n - 1], batch, &states[n]));
        assert((batch_models(states[0]@) + batches.take(n - 1)).push(batch) =~= batch_models(
            states[0]@,
        ) + batches.take(n));
    }
}

/// A vector keeps all batches that it is handed, in their order.
pub proof fn law_vector_keeps_batches(
    before: Vec<EntryBatch>,
    batches: Seq<BatchModel>,
    after: Vec<EntryBatch>,
)
    requires
        handed(before, batches, after),
    ensures
        batch_models(after@) == batch_models(before@) + batches,
{
    let states = choose|states: Seq<Vec<EntryBatch>>| #[trigger]
        goes_through(states, batches) && states[0] == before && states.last() == after;
    lemma_vector_so_far(states, batches, batches.len() as int);
    assert(batches.take(batches.len() as int) =~= batches);
}

} // verus!
