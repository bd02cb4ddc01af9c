//! Is eager recovery worth it? From the receive times of a capture: for every FEC
//! set, the gap between the moment recovery became possible (32 distinct shreds,
//! at least one of them code) and the moment the last data shred actually
//! arrived. That gap is the latency eager recovery saves; its price is the
//! reconstruction cost.

use crate::buffer;
use crate::buffer::contents;
use crate::deshredder::{
    batch_models, fit, law_batches_are_of_the_slot, BatchModel, Config, Deshredder,
    DeshredderModel, EntryBatch,
};
use crate::entry::num_transactions;
use crate::fec::num_true;
use crate::fixture::{cut_off, records_from, replayed, FixtureError, Reader, Record};
use crate::shred::{
    erasure_index_of, fec_set_index_of, kind_of, parse_error, shred_bytes, slot_of, Shred,
    ShredKind,
};
use crate::stats;
use crate::stats::{counted, Stats};
use crate::table::{before, in_order, lemma_lookup, lemma_lookup_none, lookup, Key, Table};
use bytes::Bytes;
use std::ops::RangeInclusive;
use vstd::prelude::*;

verus! {

/// Measured reconstruction cost in microseconds. Charged to every batch the eager
/// policy emitted from a push that ran a recovery.
pub const RECOVERY_COST_US: u64 = 46;

/// What a capture tells of the arrival of one FEC set.
#[verifier::ext_equal]
pub struct SetModel {
    /// Receive time of the nth distinct shred, in capture order.
    pub arrivals: Seq<u64>,
    pub seen_data: Seq<bool>,
    pub seen_code: Seq<bool>,
    pub first_code_at: Option<u64>,
    /// When the 32nd data shred arrived.
    pub data_complete_at: Option<u64>,
    /// When 32 distinct shreds were present, one of them code.
    pub threshold_at: Option<u64>,
    /// Data shreds still missing when the threshold was reached.
    pub missing_at_threshold: nat,
}

/// What became of a FEC set.
#[derive(Debug, Clone, Copy, PartialEq, Eq, Structural)]
pub enum Outcome {
    /// The data completed before recovery was possible.
    DataFirst,
    /// Recovery was possible `wait_us` before the data completed, with `missing`
    /// data shreds to rebuild.
    Window { wait_us: u64, missing: u64 },
    /// Recovery was possible, but the data never completed.
    NeverComplete,
    /// Neither was.
    NeverRecoverable,
}

impl SetModel {
    /// A set of which nothing has arrived.
    pub open spec fn empty() -> SetModel {
        SetModel {
            arrivals: Seq::empty(),
            seen_data: Seq::new(32, |i: int| false),
            seen_code: Seq::new(32, |i: int| false),
            first_code_at: None,
            data_complete_at: None,
            threshold_at: None,
            missing_at_threshold: 0,
        }
    }

    /// There is an arrival for every shred seen.
    pub open spec fn valid(self) -> bool {
        &&& self.seen_data.len() == 32
        &&& self.seen_code.len() == 32
        &&& self.arrivals.len() == num_true(self.seen_data) + num_true(self.seen_code)
        &&& self.missing_at_threshold <= 32
    }

    /// The set once the shred at `position` among its data or code shreds was
    /// received at `unix_nanos`. Only the first copy counts.
    pub open spec fn observed(self, is_data: bool, position: int, unix_nanos: u64) -> SetModel {
        if is_data && self.seen_data[position] || !is_data && self.seen_code[position] {
            self
        } else {
            let arrivals = self.arrivals.push(unix_nanos);
            let seen_data = if is_data {
                self.seen_data.update(position, true)
            } else {
                self.seen_data
            };
            let seen_code = if is_data {
                self.seen_code
            } else {
                self.seen_code.update(position, true)
            };
            let first_code_at = if !is_data && self.first_code_at is None {
                Some(unix_nanos)
            } else {
                self.first_code_at
            };
            let reached = arrivals.len() == 32 && first_code_at is Some;
            SetModel {
                arrivals,
                seen_data,
                seen_code,
                first_code_at,
                data_complete_at: if is_data && num_true(seen_data) == 32 {
                    Some(unix_nanos)
                } else {
                    self.data_complete_at
                },
                threshold_at: if reached {
                    Some(unix_nanos)
                } else {
                    self.threshold_at
                },
                missing_at_threshold: if reached {
                    (32 - num_true(seen_data)) as nat
                } else {
                    self.missing_at_threshold
                },
            }
        }
    }

    /// What became of the set.
    pub open spec fn outcome(self) -> Outcome {
        match (self.threshold_at, self.data_complete_at) {
            (Some(threshold), Some(complete)) => if self.missing_at_threshold == 0 {
                Outcome::DataFirst
            } else {
                Outcome::Window {
                    wait_us: if complete < threshold {
                        0
                    } else {
                        ((complete - threshold) / 1000) as u64
                    },
                    missing: self.missing_at_threshold as u64,
                }
            },
            (Some(_), None) => Outcome::NeverComplete,
            (None, Some(_)) => Outcome::DataFirst,
            (None, None) => Outcome::NeverRecoverable,
        }
    }

    /// Whether the last shred is stamped with an earlier time than the first.
    pub open spec fn runs_back(self) -> bool {
        self.arrivals.len() > 0 && self.arrivals.last() < self.arrivals[0]
    }

    /// Microseconds from the first to the last shred, of a set that has any.
    pub open spec fn span_us(self) -> Seq<u64> {
        if self.arrivals.len() == 0 {
            Seq::empty()
        } else {
            seq![((self.arrivals.last() - self.arrivals[0]) / 1000) as u64]
        }
    }
}

/// Setting a flag that is not set adds one.
proof fn lemma_flag_set(flags: Seq<bool>, p: int)
    requires
        0 <= p < flags.len(),
        !flags[p],
    ensures
        num_true(flags.update(p, true)) == num_true(flags) + 1,
        num_true(flags.update(p, true)) <= flags.len(),
    decreases flags.len(),
{
    let next = flags.update(p, true);
    let front = flags.drop_last();
    lemma_num_true_bound(next);
    if p == flags.len() - 1 {
        assert(next.drop_last() =~= front);
    } else {
        lemma_flag_set(front, p);
        assert(next.drop_last() =~= front.update(p, true));
    }
}

/// No more flags are set than there are.
proof fn lemma_num_true_bound(flags: Seq<bool>)
    ensures
        num_true(flags) <= flags.len(),
    decreases flags.len(),
{
    if flags.len() > 0 {
        lemma_num_true_bound(flags.drop_last());
    }
}

/// Where no flag is set, none is counted.
proof fn lemma_none_true(n: nat)
    ensures
        num_true(Seq::new(n, |i: int| false)) == 0,
    decreases n,
{
    if n > 0 {
        lemma_none_true((n - 1) as nat);
        assert(Seq::new(n, |i: int| false).drop_last() =~= Seq::new(
            (n - 1) as nat,
            |i: int| false,
        ));
    }
}

/// What a capture tells of the arrival of one FEC set.
pub struct SetState {
    arrivals: Vec<u64>,
    seen_data: Vec<bool>,
    seen_code: Vec<bool>,
    num_data: usize,
    first_code_at: Option<u64>,
    data_complete_at: Option<u64>,
    threshold_at: Option<u64>,
    missing_at_threshold: usize,
}

impl View for SetState {
    type V = SetModel;

    closed spec fn view(&self) -> SetModel {
        SetModel {
            arrivals: self.arrivals@,
            seen_data: self.seen_data@,
            seen_code: self.seen_code@,
            first_code_at: self.first_code_at,
            data_complete_at: self.data_complete_at,
            threshold_at: self.threshold_at,
            missing_at_threshold: self.missing_at_threshold as nat,
        }
    }
}

impl Default for SetState {
    fn default() -> (state: Self)
        ensures
            state.wf(),
            state@ == SetModel::empty(),
    {
        let state = SetState {
            arrivals: Vec::new(),
            seen_data: vec![false; 32],
            seen_code: vec![false; 32],
            num_data: 0,
            first_code_at: None,
            data_complete_at: None,
            threshold_at: None,
            missing_at_threshold: 0,
        };
        proof {
            lemma_none_true(32);
            assert(state@ =~= SetModel::empty());
        }
        state
    }
}

impl SetState {
    /// The state is valid and its counter is right.
    pub closed spec fn wf(&self) -> bool {
        &&& self@.valid()
        &&& self.num_data == num_true(self@.seen_data)
    }

    /// Note that the shred at `position` among the data or code shreds of the set
    /// was received at `unix_nanos`.
    pub fn observe(&mut self, is_data: bool, position: usize, unix_nanos: u64)
        requires
            old(self).wf(),
            position < 32,
        ensures
            final(self).wf(),
            final(self)@ == old(self)@.observed(is_data, position as int, unix_nanos),
    {
        let ghost m = self@;
        if is_data {
            if self.seen_data[position] {
                return;
            }
            proof {
                lemma_flag_set(m.seen_data, position as int);
            }
            self.seen_data[position] = true;
            self.arrivals.push(unix_nanos);
            self.num_data = self.num_data + 1;
            if self.num_data == 32 {
                self.data_complete_at = Some(unix_nanos);
            }
        } else {
            if self.seen_code[position] {
                return;
            }
            proof {
                lemma_flag_set(m.seen_code, position as int);
                lemma_num_true_bound(m.seen_data);
            }
            self.seen_code[position] = true;
            self.arrivals.push(unix_nanos);
            if self.first_code_at.is_none() {
                self.first_code_at = Some(unix_nanos);
            }
        }
        if self.arrivals.len() == 32 && self.first_code_at.is_some() {
            self.threshold_at = Some(unix_nanos);
            self.missing_at_threshold = 32 - self.num_data;
        }
        assert(self@ =~= m.observed(is_data, position as int, unix_nanos));
    }

    /// What became of the set.
    pub fn outcome(&self) -> (outcome: Outcome)
        requires
            self.wf(),
        ensures
            outcome == self@.outcome(),
    {
        match (self.threshold_at, self.data_complete_at) {
            (Some(threshold), Some(complete)) => {
                if self.missing_at_threshold == 0 {
                    // The 32 data shreds were the first 32 to arrive; recovery
                    // never had a window.
                    Outcome::DataFirst
                } else {
                    let wait: u64 = if complete < threshold {
                        0
                    } else {
                        complete - threshold
                    };
                    Outcome::Window {
                        wait_us: wait / 1000,
                        missing: self.missing_at_threshold as u64,
                    }
                }
            },
            (Some(_), None) => Outcome::NeverComplete,
            (None, Some(_)) => Outcome::DataFirst,
            (None, None) => Outcome::NeverRecoverable,
        }
    }
}

/// What the rows tell of the set under `key`.
pub open spec fn set_at(rows: Seq<(Key, SetState)>, key: Key) -> SetModel {
    match lookup(rows, key) {
        Some(state) => state@,
        None => SetModel::empty(),
    }
}

/// What a capture tells of the arrival of its FEC sets.
pub struct Arrivals {
    packets: u64,
    sets: Table<SetState>,
}

impl Arrivals {
    /// How many packets there were.
    pub closed spec fn num_packets(&self) -> u64 {
        self.packets
    }

    /// The FEC sets by slot and FEC set index.
    pub closed spec fn rows(&self) -> Seq<(Key, SetState)> {
        self.sets@
    }

    /// The rows are in order and what they hold is well formed.
    pub closed spec fn wf(&self) -> bool {
        &&& self.sets.wf()
        &&& forall|i: int| 0 <= i < self.sets@.len() ==> (#[trigger] self.sets@[i]).1.wf()
    }

    /// Nothing has arrived.
    pub fn new() -> (arrivals: Self)
        ensures
            arrivals.wf(),
            arrivals.num_packets() == 0,
            arrivals.rows() == Seq::<(Key, SetState)>::empty(),
    {
        Arrivals { packets: 0, sets: Table::new() }
    }

    /// Note the arrival of a packet. One that is not a shred is only counted.
    pub fn observe(&mut self, packet: Bytes, unix_nanos: u64)
        requires
            old(self).wf(),
        ensures
            final(self).wf(),
            final(self).num_packets() == counted(old(self).num_packets(), 1),
            parse_error(contents(packet)) is Some ==> final(self).rows() == old(self).rows(),
            parse_error(contents(packet)) is None ==> ({
                let b = shred_bytes(contents(packet));
                let key = (slot_of(b), fec_set_index_of(b));
                forall|other: Key|
                    #![trigger lookup(final(self).rows(), other)]
                    if other == key {
                        lookup(final(self).rows(), other) is Some && set_at(
                            final(self).rows(),
                            other,
                        ) == set_at(old(self).rows(), key).observed(
                            kind_of(b) == ShredKind::Data,
                            erasure_index_of(b) % 32,
                            unix_nanos,
                        )
                    } else {
                        lookup(final(self).rows(), other) == lookup(old(self).rows(), other)
                    }
            }),
    {
        stats::count(&mut self.packets, 1);
        let shred: Shred = match Shred::parse(packet) {
            Ok(shred) => shred,
            Err(_) => return,
        };
        let key: Key = (shred.slot(), shred.fec_set_index());
        let position: usize = shred.erasure_shard_index() % 32;
        let is_data: bool = shred.is_data();
        let ghost rows = self.rows();
        match self.sets.find(key) {
            Ok(i) => {
                proof {
                    lemma_lookup(rows, i as int);
                }
                self.sets.value_mut(i).observe(is_data, position, unix_nanos);
                proof {
                    lemma_value_changed(rows, self.rows(), i as int);
                }
            },
            Err(_) => {
                proof {
                    lemma_lookup_none(rows, key);
                }
                let mut state: SetState = SetState::default();
                state.observe(is_data, position, unix_nanos);
                self.sets.put(key, state);
                assert forall|i: int| 0 <= i < self.sets@.len() implies (
                #[trigger] self.sets@[i]).1.wf() by {
                    if self.sets@[i] != (key, state) {
                        let j = choose|j: int|
                            0 <= j < rows.len() && rows[j] == self.sets@[i];
                        assert(rows[j].1.wf());
                    }
                }
            },
        }
    }
}

/// Changing the value in a row leaves what is under other keys alone.
proof fn lemma_value_changed(rows: Seq<(Key, SetState)>, next: Seq<(Key, SetState)>, i: int)
    requires
        in_order(rows),
        0 <= i < rows.len(),
        next == rows.update(i, (rows[i].0, next[i].1)),
    ensures
        in_order(next),
        lookup(next, rows[i].0) == Some(next[i].1),
        forall|other: Key|
            other != rows[i].0 ==> #[trigger] lookup(next, other) == lookup(rows, other),
{
    assert forall|a: int, b: int| 0 <= a < b < next.len() implies before(
        (#[trigger] next[a]).0,
        (#[trigger] next[b]).0,
    ) by {
        assert(before(rows[a].0, rows[b].0));
    }
    lemma_lookup(next, i);
    assert forall|other: Key| other != rows[i].0 implies #[trigger] lookup(next, other) == lookup(
        rows,
        other,
    ) by {
        if exists|j: int| 0 <= j < rows.len() && (#[trigger] rows[j]).0 == other {
            let j = choose|j: int| 0 <= j < rows.len() && (#[trigger] rows[j]).0 == other;
            lemma_lookup(rows, j);
            assert(next[j] == rows[j]);
            lemma_lookup(next, j);
        } else {
            assert forall|j: int| 0 <= j < next.len() implies (#[trigger] next[j]).0 != other by {
                assert(next[j].0 == rows[j].0);
            }
            lemma_lookup_none(next, other);
            lemma_lookup_none(rows, other);
        }
    }
}

/// What became of the FEC sets of a capture.
#[verifier::ext_equal]
pub struct SummaryModel {
    pub data_first: nat,
    pub never_complete: nat,
    pub never_recoverable: nat,
    pub wait_us: Seq<u64>,
    pub missing: Seq<u64>,
    pub span_us: Seq<u64>,
}

/// What became of sets, in their order.
pub open spec fn summarized(sets: Seq<SetModel>) -> SummaryModel
    decreases sets.len(),
{
    if sets.len() == 0 {
        SummaryModel {
            data_first: 0,
            never_complete: 0,
            never_recoverable: 0,
            wait_us: Seq::empty(),
            missing: Seq::empty(),
            span_us: Seq::empty(),
        }
    } else {
        let so_far = summarized(sets.drop_last());
        let spanned = SummaryModel { span_us: so_far.span_us + sets.last().span_us(), ..so_far };
        match sets.last().outcome() {
            Outcome::DataFirst => SummaryModel { data_first: so_far.data_first + 1, ..spanned },
            Outcome::Window { wait_us, missing } => SummaryModel {
                wait_us: so_far.wait_us.push(wait_us),
                missing: so_far.missing.push(missing),
                ..spanned
            },
            Outcome::NeverComplete => SummaryModel {
                never_complete: so_far.never_complete + 1,
                ..spanned
            },
            Outcome::NeverRecoverable => SummaryModel {
                never_recoverable: so_far.never_recoverable + 1,
                ..spanned
            },
        }
    }
}

/// Every set has exactly one outcome, and every wait goes with a number of missing
/// shreds.
pub proof fn law_outcomes_add_up(sets: Seq<SetModel>)
    ensures
        ({
            let summary = summarized(sets);
            &&& summary.data_first + summary.never_complete + summary.never_recoverable
                + summary.wait_us.len() == sets.len()
            &&& summary.wait_us.len() == summary.missing.len()
        }),
    decreases sets.len(),
{
    if sets.len() > 0 {
        law_outcomes_add_up(sets.drop_last());
    }
}

/// What the rows tell of each set.
pub open spec fn set_models(rows: Seq<(Key, SetState)>) -> Seq<SetModel> {
    rows.map_values(|row: (Key, SetState)| row.1@)
}

/// What became of the FEC sets of a capture.
#[derive(Debug)]
pub struct Summary {
    /// Packets in the capture.
    pub packets: u64,
    /// FEC sets in the capture.
    pub total: usize,
    /// Sets where the data completed before recovery was possible.
    pub data_first: usize,
    /// Sets where recovery was possible, but the data never completed.
    pub never_complete: usize,
    /// Sets that never became recoverable at all.
    pub never_recoverable: usize,
    /// How long eager recovery would have been ahead of the data, per set where it
    /// would.
    pub wait_us: Vec<u64>,
    /// How many data shreds it would have rebuilt there.
    pub missing: Vec<u64>,
    /// Time from the first to the last shred, per set.
    pub span_us: Vec<u64>,
}

impl View for Summary {
    type V = SummaryModel;

    open spec fn view(&self) -> SummaryModel {
        SummaryModel {
            data_first: self.data_first as nat,
            never_complete: self.never_complete as nat,
            never_recoverable: self.never_recoverable as nat,
            wait_us: self.wait_us@,
            missing: self.missing@,
            span_us: self.span_us@,
        }
    }
}

impl Summary {
    /// Add what became of one more set, whose clock does not run back.
    fn include_set(&mut self, state: &SetState, Ghost(sets): Ghost<Seq<SetModel>>)
        requires
            state.wf(),
            !state@.runs_back(),
            old(self)@ == summarized(sets),
            sets.len() < usize::MAX,
        ensures
            final(self)@ == summarized(sets.push(state@)),
            final(self).packets == old(self).packets,
            final(self).total == old(self).total,
    {
        let ghost before = self@;
        proof {
            assert(sets.push(state@).drop_last() =~= sets);
            law_outcomes_add_up(sets);
        }
        if state.arrivals.len() > 0 {
            let span: u64 = state.arrivals[state.arrivals.len() - 1] - state.arrivals[0];
            self.span_us.push(span / 1000);
        }
        assert(self.span_us@ =~= before.span_us + state@.span_us());
        match state.outcome() {
            Outcome::DataFirst => {
                self.data_first = self.data_first + 1;
            },
            Outcome::Window { wait_us, missing } => {
                self.wait_us.push(wait_us);
                self.missing.push(missing);
            },
            Outcome::NeverComplete => {
                self.never_complete = self.never_complete + 1;
            },
            Outcome::NeverRecoverable => {
                self.never_recoverable = self.never_recoverable + 1;
            },
        }
        assert(self@ =~= summarized(sets.push(state@)));
    }
}

impl Arrivals {
    /// What became of the FEC sets, in the order of their slots. `None` where the
    /// shreds of a set are stamped so that the last comes before the first.
    pub fn summary(&self) -> (summary: Option<Summary>)
        requires
            self.wf(),
        ensures
            match summary {
                Some(summary) => {
                    &&& summary.packets == self.num_packets()
                    &&& summary.total == self.rows().len()
                    &&& summary@ == summarized(set_models(self.rows()))
                    &&& forall|i: int|
                        0 <= i < self.rows().len() ==> !(#[trigger] self.rows()[i]).1@.runs_back()
                },
                None => exists|i: int|
                    0 <= i < self.rows().len() && (#[trigger] self.rows()[i]).1@.runs_back(),
            },
    {
        let ghost sets = set_models(self.rows());
        let total: usize = self.sets.len();
        let mut summary = Summary {
            packets: self.packets,
            total,
            data_first: 0,
            never_complete: 0,
            never_recoverable: 0,
            wait_us: Vec::new(),
            missing: Vec::new(),
            span_us: Vec::new(),
        };
        assert(summary@ =~= summarized(sets.take(0)));
        let mut i: usize = 0;
        while i < total
            invariant
                self.wf(),
                i <= total == self.rows().len(),
                sets == set_models(self.rows()),
                summary.packets == self.packets,
                summary.total == total,
                summary@ == summarized(sets.take(i as int)),
                forall|j: int| 0 <= j < i ==> !(#[trigger] self.rows()[j]).1@.runs_back(),
            decreases total - i,
        {
            let state: &SetState = self.sets.value(i);
            assert(self.rows()[i as int].1 == *state);
            assert(self.sets@[i as int].1.wf());
            let n: usize = state.arrivals.len();
            if n > 0 && state.arrivals[n - 1] < state.arrivals[0] {
                assert(self.rows()[i as int].1@.runs_back());
                return None;
            }
            assert(sets.take(i as int).push(state@) =~= sets.take(i + 1));
            summary.include_set(state, Ghost(sets.take(i as int)));
            i = i + 1;
        }
        assert(sets.take(i as int) =~= sets);
        Some(summary)
    }
}

/// How many of `values` are no more than `limit`.
pub open spec fn num_within(values: Seq<u64>, limit: u64) -> nat
    decreases values.len(),
{
    if values.len() == 0 {
        0
    } else {
        num_within(values.drop_last(), limit) + (if values.last() <= limit {
            1nat
        } else {
            0
        })
    }
}

/// Recoveries that waiting for a grace period saves: those of sets that complete
/// within it.
pub fn skipped(wait_us: &Vec<u64>, grace: u64) -> (count: usize)
    ensures
        count == num_within(wait_us@, grace),
        count <= wait_us@.len(),
{
    let mut count: usize = 0;
    let mut i: usize = 0;
    while i < wait_us.len()
        invariant
            i <= wait_us@.len(),
            count == num_within(wait_us@.take(i as int), grace),
            count <= i,
        decreases wait_us@.len() - i,
    {
        assert(wait_us@.take(i + 1).drop_last() =~= wait_us@.take(i as int));
        if wait_us[i] <= grace {
            count = count + 1;
        }
        i = i + 1;
    }
    assert(wait_us@.take(i as int) =~= wait_us@);
    count
}

/// Position of the `p`th percentile among `n` sorted values, by nearest rank.
pub open spec fn percentile_index(p: int, n: int) -> int {
    if p * n <= 0 {
        0
    } else {
        (p * n - 1) / 100
    }
}

/// The value at the `p`th percentile of sorted values.
pub fn percentile(sorted: &Vec<u64>, p: usize) -> (value: u64)
    requires
        sorted@.len() > 0,
        p <= 100,
    ensures
        0 <= percentile_index(p as int, sorted@.len() as int) < sorted@.len(),
        value == sorted@[percentile_index(p as int, sorted@.len() as int)],
{
    let n: usize = sorted.len();
    proof {
        lemma_percentile_index(p as int, n as int);
    }
    assert(p as u128 * n as u128 <= 100 * n) by (nonlinear_arith)
        requires
            p <= 100,
    ;
    assert(0 <= p * n) by (nonlinear_arith);
    let scaled: u128 = p as u128 * n as u128;
    let index: u128 = if scaled == 0 {
        0
    } else {
        (scaled - 1) / 100
    };
    sorted[index as usize]
}

/// A percentile is one of the values: the first that at least `p` in a hundred of
/// them do not exceed.
pub proof fn lemma_percentile_index(p: int, n: int)
    requires
        0 <= p <= 100,
        n > 0,
    ensures
        0 <= percentile_index(p, n) < n,
        100 * (percentile_index(p, n) + 1) >= p * n,
        p > 0 ==> 100 * percentile_index(p, n) < p * n,
        p == 0 ==> percentile_index(p, n) == 0,
{
    assert(0 <= p * n <= 100 * n) by (nonlinear_arith)
        requires
            0 <= p <= 100,
            n > 0,
    ;
    if p > 0 {
        assert(p * n > 0) by (nonlinear_arith)
            requires
                p > 0,
                n > 0,
        ;
    }
}

/// Calls `slice::sort_unstable` on a vector, which puts its values in ascending
/// order.
#[verifier::external_body]
fn sort(values: &mut Vec<u64>)
    ensures
        ascending(final(values)@),
        final(values)@.to_multiset() == old(values)@.to_multiset(),
{
    values.sort_unstable()
}

/// Whether values are in ascending order.
pub open spec fn ascending(values: Seq<u64>) -> bool {
    forall|i: int, j: int|
        0 <= i < j < values.len() ==> (#[trigger] values[i]) <= (#[trigger] values[j])
}

/// The sum of values.
pub open spec fn sum(values: Seq<u64>) -> nat
    decreases values.len(),
{
    if values.len() == 0 {
        0
    } else {
        sum(values.drop_last()) + values.last() as nat
    }
}

/// How values are distributed.
#[derive(Debug, Clone, Copy, PartialEq, Eq, Structural)]
pub struct Distribution {
    pub n: usize,
    pub mean: u64,
    pub p50: u64,
    pub p90: u64,
    pub p99: u64,
    pub max: u64,
}

/// Whether `d` tells how `values` are distributed, of which `sorted` is the
/// ascending order.
pub open spec fn describes(d: Distribution, values: Seq<u64>, sorted: Seq<u64>) -> bool {
    let n = values.len() as int;
    &&& ascending(sorted)
    &&& sorted.to_multiset() == values.to_multiset()
    &&& d.n == n
    &&& d.mean == sum(values) as int / n
    &&& d.p50 == sorted[percentile_index(50, n)]
    &&& d.p90 == sorted[percentile_index(90, n)]
    &&& d.p99 == sorted[percentile_index(99, n)]
    &&& d.max == sorted[n - 1]
}

/// Whether `d` tells how `values` are distributed.
pub open spec fn distributed(d: Distribution, values: Seq<u64>) -> bool {
    exists|sorted: Seq<u64>| #[trigger] describes(d, values, sorted)
}

/// How values are distributed; `None` where there are none.
pub fn distribution(values: Vec<u64>) -> (found: Option<Distribution>)
    ensures
        match found {
            Some(d) => values@.len() > 0 && distributed(d, values@),
            None => values@.len() == 0,
        },
{
    let n: usize = values.len();
    if n == 0 {
        return None;
    }
    let ghost all = values@;
    let mut total: u128 = 0;
    let mut i: usize = 0;
    while i < n
        invariant
            i <= n == values@.len(),
            all == values@,
            total == sum(all.take(i as int)),
            total <= i * 0xFFFF_FFFF_FFFF_FFFF,
        decreases n - i,
    {
        assert(all.take(i + 1).drop_last() =~= all.take(i as int));
        assert(i * 0xFFFF_FFFF_FFFF_FFFF + 0xFFFF_FFFF_FFFF_FFFF <= u128::MAX);
        total = total + values[i] as u128;
        i = i + 1;
    }
    assert(all.take(i as int) =~= all);
    let mean: u128 = total / n as u128;
    assert(mean <= 0xFFFF_FFFF_FFFF_FFFF) by (nonlinear_arith)
        requires
            mean == total as int / n as int,
            total <= n * 0xFFFF_FFFF_FFFF_FFFF,
            n > 0,
    ;
    let mut sorted: Vec<u64> = values;
    sort(&mut sorted);
    proof {
        all.to_multiset_ensures();
        sorted@.to_multiset_ensures();
        assert(sorted@.len() == n);
    }
    let d = Distribution {
        n,
        mean: mean as u64,
        p50: percentile(&sorted, 50),
        p90: percentile(&sorted, 90),
        p99: percentile(&sorted, 99),
        max: sorted[n - 1],
    };
    assert(describes(d, all, sorted@));
    Some(d)
}

/// When the transactions of a batch became available.
#[derive(Debug, Clone, Copy, PartialEq, Eq, Structural)]
pub struct BatchTime {
    /// Receive time of the packet that completed the batch.
    pub received_at: u64,
    /// Whether that packet triggered a recovery.
    pub recovered: bool,
    pub transactions: u64,
}

impl BatchTime {
    /// Nanoseconds at which the batch was available: when its packet was received,
    /// plus what a recovery costs.
    pub open spec fn available_at(self) -> int {
        self.received_at + (if self.recovered {
            46_000int
        } else {
            0
        })
    }

    /// Nanoseconds at which the batch was available.
    pub fn available(&self) -> (at: u128)
        ensures
            at == self.available_at(),
    {
        let cost: u128 = if self.recovered {
            RECOVERY_COST_US as u128 * 1000
        } else {
            0
        };
        self.received_at as u128 + cost
    }
}

/// Batch availability by slot and first shred index.
pub type BatchTimes = Table<BatchTime>;

/// The time of the last of `batches` that starts at `key`.
pub open spec fn time_among(
    batches: Seq<BatchModel>,
    received_at: u64,
    recovered: bool,
    key: Key,
) -> Option<BatchTime>
    decreases batches.len(),
{
    if batches.len() == 0 {
        None
    } else if (batches.last().slot, batches.last().shreds.start) == key {
        Some(
            BatchTime {
                received_at,
                recovered,
                transactions: num_transactions(batches.last().entries) as u64,
            },
        )
    } else {
        time_among(batches.drop_last(), received_at, recovered, key)
    }
}

/// When the batch that starts at `key` became available, as `records` went through
/// the deshredder `m`: by the last packet that completed one there.
pub open spec fn time_of(m: DeshredderModel, records: Seq<(u64, Seq<u8>)>, key: Key) -> Option<
    BatchTime,
>
    decreases records.len(),
{
    if records.len() == 0 {
        None
    } else {
        let front = records.drop_last();
        let before = replayed(m, front);
        let (received_at, packet) = records.last();
        let recovered = before.pushed(packet).stats.recovered > before.stats.recovered;
        match time_among(before.batches(packet), received_at, recovered, key) {
            Some(time) => Some(time),
            None => time_of(m, front, key),
        }
    }
}

/// Calls `RangeInclusive::start`: the first index of a range that has not been
/// iterated to its end.
#[verifier::external_body]
fn range_start(range: &RangeInclusive<u32>) -> (start: u32)
    requires
        !range@.exhausted,
    ensures
        start == range@.start,
{
    *range.start()
}

/// Whether, `records` having gone through the deshredder `m`, it is now `now`, and
/// `rows` tell when batches became available.
#[verifier::opaque]
spec fn is_timed(
    m: DeshredderModel,
    records: Seq<(u64, Seq<u8>)>,
    now: DeshredderModel,
    rows: Seq<(Key, BatchTime)>,
) -> bool {
    &&& now == replayed(m, records)
    &&& forall|key: Key| #[trigger] lookup(rows, key) == time_of(m, records, key)
}

/// Nothing has gone through yet.
proof fn lemma_timed_start(m: DeshredderModel)
    ensures
        is_timed(m, Seq::empty(), m, Seq::empty()),
{
    reveal(is_timed);
}

/// One more record, whose batches were put in.
proof fn lemma_timed_step(
    m: DeshredderModel,
    records: Seq<(u64, Seq<u8>)>,
    now: DeshredderModel,
    rows: Seq<(Key, BatchTime)>,
    record: (u64, Seq<u8>),
    next: Seq<(Key, BatchTime)>,
)
    requires
        is_timed(m, records, now, rows),
        put_in(
            rows,
            now.batches(record.1),
            record.0,
            now.pushed(record.1).stats.recovered > now.stats.recovered,
            next,
        ),
    ensures
        is_timed(m, records.push(record), now.pushed(record.1), next),
{
    reveal(is_timed);
    let all = records.push(record);
    assert(all.drop_last() =~= records);
    assert forall|key: Key| #[trigger] lookup(next, key) == time_of(m, all, key) by {
        assert(lookup(rows, key) == time_of(m, records, key));
    }
}

/// Whether `next` is what `rows` become when the times of `batches` are put in.
pub open spec fn put_in(
    rows: Seq<(Key, BatchTime)>,
    batches: Seq<BatchModel>,
    received_at: u64,
    recovered: bool,
    next: Seq<(Key, BatchTime)>,
) -> bool {
    forall|key: Key| #[trigger]
        lookup(next, key) == (match time_among(batches, received_at, recovered, key) {
            Some(time) => Some(time),
            None => lookup(rows, key),
        })
}

/// Put in the times of batches that one packet completed.
fn put_times(
    times: &mut BatchTimes,
    batches: &Vec<EntryBatch>,
    received_at: u64,
    recovered: bool,
)
    requires
        old(times).wf(),
        fit(batch_models(batches@)),
        forall|i: int| 0 <= i < batches@.len() ==> !(#[trigger] batches@[i]).shreds@.exhausted,
    ensures
        final(times).wf(),
        put_in(old(times)@, batch_models(batches@), received_at, recovered, final(times)@),
{
    let ghost all = batch_models(batches@);
    let mut i: usize = 0;
    while i < batches.len()
        invariant
            i <= batches@.len(),
            all == batch_models(batches@),
            fit(all),
            forall|i: int| 0 <= i < batches@.len() ==> !(#[trigger] batches@[i]).shreds@.exhausted,
            times.wf(),
            put_in(old(times)@, all.take(i as int), received_at, recovered, times@),
        decreases batches@.len() - i,
    {
        let batch: &EntryBatch = &batches[i];
        assert(all[i as int] == batch@);
        let key: Key = (batch.slot, range_start(&batch.shreds));
        let transactions: u64 = batch.num_transactions() as u64;
        let ghost rows = times@;
        times.put(key, BatchTime { received_at, recovered, transactions });
        proof {
            let more = all.take(i + 1);
            assert(more.drop_last() =~= all.take(i as int));
            assert(more.last() == batch@);
            assert forall|other: Key| #[trigger]
                lookup(times@, other) == (match time_among(more, received_at, recovered, other) {
                    Some(time) => Some(time),
                    None => lookup(old(times)@, other),
                }) by {
                assert(lookup(rows, other) == (match time_among(
                    all.take(i as int),
                    received_at,
                    recovered,
                    other,
                ) {
                    Some(time) => Some(time),
                    None => lookup(old(times)@, other),
                }));
            }
        }
        i = i + 1;
    }
    assert(all.take(i as int) =~= all);
}

/// Push a record through `deshredder` and note when its batches became available.
fn time_record(
    record: Record,
    deshredder: &mut Deshredder,
    times: &mut BatchTimes,
    Ghost(m): Ghost<DeshredderModel>,
    Ghost(done): Ghost<Seq<(u64, Seq<u8>)>>,
)
    requires
        old(deshredder).wf(),
        old(times).wf(),
        is_timed(m, done, old(deshredder)@, old(times)@),
    ensures
        final(deshredder).wf(),
        final(times).wf(),
        is_timed(m, done.push(record@), final(deshredder)@, final(times)@),
{
    let ghost now = deshredder@;
    let ghost rows = times@;
    let ghost taken = record@;
    let received_at: u64 = record.unix_nanos;
    let recoveries: u64 = deshredder.stats().recovered;
    let mut out: Vec<EntryBatch> = Vec::new();
    deshredder.push(buffer::from_vec(record.packet), &mut out);
    let recovered: bool = deshredder.stats().recovered > recoveries;
    proof {
        assert(batch_models(out@) =~= now.batches(taken.1));
        law_batches_are_of_the_slot(now, taken.1);
        assert forall|i: int| 0 <= i < out@.len() implies !(
        #[trigger] out@[i]).shreds@.exhausted by {
            assert(batch_models(out@)[i] == out@[i]@);
            assert(!now.batches(taken.1)[i].shreds.exhausted);
        }
    }
    put_times(times, &out, received_at, recovered);
    proof {
        lemma_timed_step(m, done, now, rows, taken, times@);
    }
}

/// When did each batch's transactions become available under a policy: with eager
/// recovery, or waiting for the data shreds? Batches are keyed by their slot and
/// first shred index, which do not depend on the policy.
pub fn batch_times(reader: Reader<'_>, recover: bool) -> (times: Result<BatchTimes, FixtureError>)
    ensures
        match times {
            Ok(times) => {
                let m = DeshredderModel::fresh(
                    Config { shred_version: None, slot_lookback: 64 },
                    recover,
                    Stats::zero(),
                );
                &&& !cut_off(reader@.0, reader@.1)
                &&& times.wf()
                &&& forall|key: Key| #[trigger]
                    lookup(times@, key) == time_of(m, records_from(reader@.0, reader@.1), key)
            },
            Err(error) => cut_off(reader@.0, reader@.1) && error == FixtureError::Truncated,
        },
{
    let mut deshredder: Deshredder = if recover {
        Deshredder::new(Config::default())
    } else {
        Deshredder::without_recovery(Config::default())
    };
    let ghost m = deshredder@;
    let times = time_all(reader, &mut deshredder)?;
    reveal(is_timed);
    Ok(times)
}

fn time_all(reader: Reader<'_>, deshredder: &mut Deshredder) -> (times: Result<
    BatchTimes,
    FixtureError,
>)
    requires
        old(deshredder).wf(),
    ensures
        match times {
            Ok(times) => {
                &&& !cut_off(reader@.0, reader@.1)
                &&& times.wf()
                &&& is_timed(
                    old(deshredder)@,
                    records_from(reader@.0, reader@.1),
                    final(deshredder)@,
                    times@,
                )
            },
            Err(error) => cut_off(reader@.0, reader@.1) && error == FixtureError::Truncated,
        },
{
    let ghost start = reader@;
    let mut rest = reader;
    let ghost m = deshredder@;
    let ghost all = records_from(start.0, start.1);
    let ghost mut done: Seq<(u64, Seq<u8>)> = Seq::empty();
    let mut times: BatchTimes = Table::new();
    proof {
        lemma_timed_start(m);
        assert(done + all =~= all);
    }
    loop
        invariant
            deshredder.wf(),
            times.wf(),
            start == reader@,
            rest@.0 == start.0,
            all == records_from(start.0, start.1),
            m == old(deshredder)@,
            is_timed(m, done, deshredder@, times@),
            done + records_from(start.0, rest@.1) == all,
            cut_off(start.0, rest@.1) == cut_off(start.0, start.1),
        decreases start.0.len() - rest@.1,
    {
        let record: Record = match rest.next() {
            None => {
                assert(done + Seq::<(u64, Seq<u8>)>::empty() =~= done);
                return Ok(times);
            },
            Some(Err(error)) => {
                return Err(error);
            },
            Some(Ok(record)) => record,
        };
        let ghost taken = record@;
        assert(done.push(taken) + records_from(start.0, rest@.1) =~= done + (seq![taken]
            + records_from(start.0, rest@.1)));
        time_record(record, deshredder, &mut times, Ghost(m), Ghost(done));
        proof {
            done = done.push(taken);
        }
    }
}

/// What eager recovery does for the transactions of a capture.
#[verifier::ext_equal]
pub struct LatencyModel {
    pub total: nat,
    pub unaffected: nat,
    pub only_with_recovery: nat,
    pub deltas: Seq<u64>,
}

/// Microseconds by which `eager` is ahead of `waiting`.
pub open spec fn saved_us(eager: BatchTime, waiting: BatchTime) -> u64 {
    if waiting.available_at() < eager.available_at() {
        0
    } else {
        ((waiting.available_at() - eager.available_at()) / 1000) as u64
    }
}

/// `n` times the same value.
pub open spec fn repeated(value: u64, n: nat) -> Seq<u64> {
    Seq::new(n, |i: int| value)
}

/// What eager recovery does for the transactions of the batches in `eager`, against
/// when those are available in `waiting`.
pub open spec fn latency_of(
    eager: Seq<(Key, BatchTime)>,
    waiting: Seq<(Key, BatchTime)>,
) -> LatencyModel
    decreases eager.len(),
{
    if eager.len() == 0 {
        LatencyModel { total: 0, unaffected: 0, only_with_recovery: 0, deltas: Seq::empty() }
    } else {
        let (key, time) = eager.last();
        let so_far = latency_of(eager.drop_last(), waiting);
        let counted = LatencyModel { total: so_far.total + time.transactions as nat, ..so_far };
        match lookup(waiting, key) {
            Some(other) => if saved_us(time, other) == 0 {
                LatencyModel {
                    unaffected: so_far.unaffected + time.transactions as nat,
                    ..counted
                }
            } else {
                LatencyModel {
                    deltas: so_far.deltas + repeated(
                        saved_us(time, other),
                        time.transactions as nat,
                    ),
                    ..counted
                }
            },
            None => LatencyModel {
                only_with_recovery: so_far.only_with_recovery + time.transactions as nat,
                ..counted
            },
        }
    }
}

/// Every transaction is unaffected, faster, or only delivered thanks to recovery.
pub proof fn law_latency_adds_up(eager: Seq<(Key, BatchTime)>, waiting: Seq<(Key, BatchTime)>)
    ensures
        ({
            let latency = latency_of(eager, waiting);
            &&& latency.total == latency.unaffected + latency.only_with_recovery
                + latency.deltas.len()
            &&& latency.total <= eager.len() * 0xFFFF_FFFF_FFFF_FFFF
        }),
    decreases eager.len(),
{
    if eager.len() > 0 {
        law_latency_adds_up(eager.drop_last(), waiting);
    }
}

/// What eager recovery does for the transactions of a capture.
#[derive(Debug)]
pub struct Latency {
    pub total: u128,
    /// Transactions that are available no earlier.
    pub unaffected: u128,
    /// Transactions that are never available without recovery.
    pub only_with_recovery: u128,
    /// Microseconds saved, per transaction that is available earlier.
    pub deltas: Vec<u64>,
}

impl View for Latency {
    type V = LatencyModel;

    open spec fn view(&self) -> LatencyModel {
        LatencyModel {
            total: self.total as nat,
            unaffected: self.unaffected as nat,
            only_with_recovery: self.only_with_recovery as nat,
            deltas: self.deltas@,
        }
    }
}

/// Append `n` times the same value.
fn append_repeated(values: &mut Vec<u64>, value: u64, n: u64)
    ensures
        final(values)@ == old(values)@ + repeated(value, n as nat),
{
    let mut i: u64 = 0;
    assert(values@ =~= old(values)@ + repeated(value, 0));
    while i < n
        invariant
            i <= n,
            values@ == old(values)@ + repeated(value, i as nat),
        decreases n - i,
    {
        values.push(value);
        i = i + 1;
        assert(values@ =~= old(values)@ + repeated(value, i as nat));
    }
}

/// Microseconds by which `eager` is ahead of `waiting`.
fn saved(eager: &BatchTime, waiting: &BatchTime) -> (us: u64)
    ensures
        us == saved_us(*eager, *waiting),
{
    let early: u128 = eager.available();
    let late: u128 = waiting.available();
    if late < early {
        return 0;
    }
    ((late - early) / 1000) as u64
}

/// Compare when transactions are available with eager recovery to when they are
/// available waiting for the data shreds.
pub fn transaction_latency(eager: &BatchTimes, waiting: &BatchTimes) -> (latency: Latency)
    requires
        eager.wf(),
        waiting.wf(),
    ensures
        latency@ == latency_of(eager@, waiting@),
{
    let mut latency = Latency {
        total: 0,
        unaffected: 0,
        only_with_recovery: 0,
        deltas: Vec::new(),
    };
    let n: usize = eager.len();
    let ghost rows = eager@;
    assert(latency@ =~= latency_of(rows.take(0), waiting@));
    let mut i: usize = 0;
    while i < n
        invariant
            i <= n == rows.len(),
            rows == eager@,
            waiting.wf(),
            latency@ == latency_of(rows.take(i as int), waiting@),
        decreases n - i,
    {
        let key: Key = eager.key(i);
        let time: BatchTime = *eager.value(i);
        let ghost so_far = latency@;
        proof {
            law_latency_adds_up(rows.take(i as int), waiting@);
            assert(rows.take(i + 1).drop_last() =~= rows.take(i as int));
            assert(rows.take(i + 1).last() == (key, time));
            assert(i * 0xFFFF_FFFF_FFFF_FFFF + 0xFFFF_FFFF_FFFF_FFFF <= u128::MAX);
        }
        latency.total = latency.total + time.transactions as u128;
        match waiting.get(key) {
            Some(other) => {
                let delta: u64 = saved(&time, other);
                if delta == 0 {
                    latency.unaffected = latency.unaffected + time.transactions as u128;
                } else {
                    append_repeated(&mut latency.deltas, delta, time.transactions);
                }
            },
            None => {
                latency.only_with_recovery = latency.only_with_recovery
                    + time.transactions as u128;
            },
        }
        i = i + 1;
        assert(latency@ =~= latency_of(rows.take(i as int), waiting@));
    }
    assert(rows.take(i as int) =~= rows);
    latency
}

} // verus!
