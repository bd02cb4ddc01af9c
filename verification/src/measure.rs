//! What the figures of a recovery report mean, in terms of the shreds that arrived
//! and of the values that they sum up.

use crate::analysis::{
    ascending, describes, distributed, latency_of, lemma_percentile_index, num_within,
    percentile_index, repeated, saved_us, sum, summarized, time_among, time_of, BatchTime,
    Distribution, Outcome, RECOVERY_COST_US, SetModel,
};
use crate::deshredder::{BatchModel, DeshredderModel};
use crate::entry::num_transactions;
use crate::fec::num_true;
use crate::fixture::replayed;
use crate::table::{lookup, Key};
use vstd::prelude::*;

verus! {

/// The arrival of one shred of a FEC set: at which position among its data or code
/// shreds, and when.
pub struct Arrival {
    pub is_data: bool,
    pub position: int,
    pub at: u64,
}

/// What is known of a set of which these shreds have arrived, in this order.
pub open spec fn heard(arrivals: Seq<Arrival>) -> SetModel
    decreases arrivals.len(),
{
    if arrivals.len() == 0 {
        SetModel::empty()
    } else {
        let last = arrivals.last();
        heard(arrivals.drop_last()).observed(last.is_data, last.position, last.at)
    }
}

/// How many of the arrivals are of data shreds.
pub open spec fn num_data(arrivals: Seq<Arrival>) -> nat {
    arrivals.filter(|a: Arrival| a.is_data).len()
}

/// Whether two arrivals are of the same shred.
pub open spec fn same_shred(a: Arrival, b: Arrival) -> bool {
    a.is_data == b.is_data && a.position == b.position
}

/// Whether every position is one of the 32.
pub open spec fn in_place(arrivals: Seq<Arrival>) -> bool {
    forall|i: int| 0 <= i < arrivals.len() ==> 0 <= (#[trigger] arrivals[i]).position < 32
}

/// Whether no shred arrived twice.
pub open spec fn distinct(arrivals: Seq<Arrival>) -> bool {
    forall|i: int, j: int|
        0 <= i < j < arrivals.len() ==> !same_shred(#[trigger] arrivals[i], #[trigger] arrivals[j])
}

/// One more arrival.
proof fn lemma_num_data_push(arrivals: Seq<Arrival>, a: Arrival)
    ensures
        num_data(arrivals.push(a)) == num_data(arrivals) + (if a.is_data {
            1nat
        } else {
            0
        }),
{
    reveal(Seq::filter);
    assert(arrivals.push(a).drop_last() =~= arrivals);
}

/// A front of the arrivals has no more data shreds than all of them, and the others
/// are code shreds.
proof fn lemma_num_data_front(arrivals: Seq<Arrival>, n: int)
    requires
        0 <= n <= arrivals.len(),
    ensures
        num_data(arrivals.take(n)) <= num_data(arrivals),
        num_data(arrivals) - num_data(arrivals.take(n)) <= arrivals.len() - n,
        num_data(arrivals) <= arrivals.len(),
    decreases arrivals.len(),
{
    reveal(Seq::filter);
    if n == arrivals.len() {
        assert(arrivals.take(n) =~= arrivals);
    }
    if arrivals.len() > 0 {
        let front = arrivals.drop_last();
        lemma_num_data_push(front, arrivals.last());
        assert(front.push(arrivals.last()) =~= arrivals);
        if n < arrivals.len() {
            lemma_num_data_front(front, n);
            assert(front.take(n) =~= arrivals.take(n));
        } else {
            lemma_num_data_front(front, n - 1);
        }
    }
}

/// Setting a flag that is not set adds one.
proof fn lemma_flag_counted(flags: Seq<bool>, p: int)
    requires
        0 <= p < flags.len(),
        !flags[p],
    ensures
        num_true(flags.update(p, true)) == num_true(flags) + 1,
    decreases flags.len(),
{
    let next = flags.update(p, true);
    let front = flags.drop_last();
    if p == flags.len() - 1 {
        assert(next.drop_last() =~= front);
    } else {
        lemma_flag_counted(front, p);
        assert(next.drop_last() =~= front.update(p, true));
    }
}

/// Where no flag is set, none is counted.
proof fn lemma_no_flag(n: nat)
    ensures
        num_true(Seq::new(n, |i: int| false)) == 0,
    decreases n,
{
    if n > 0 {
        lemma_no_flag((n - 1) as nat);
        assert(Seq::new(n, |i: int| false).drop_last() =~= Seq::new(
            (n - 1) as nat,
            |i: int| false,
        ));
    }
}

/// Whether the shred at a position is known to have arrived.
spec fn seen(m: SetModel, is_data: bool, p: int) -> bool {
    if is_data {
        m.seen_data[p]
    } else {
        m.seen_code[p]
    }
}

/// Which shreds are known to have arrived.
proof fn lemma_seen(arrivals: Seq<Arrival>)
    requires
        in_place(arrivals),
    ensures
        heard(arrivals).seen_data.len() == 32,
        heard(arrivals).seen_code.len() == 32,
        forall|is_data: bool, p: int|
            0 <= p < 32 ==> (seen(heard(arrivals), is_data, p) <==> #[trigger] arrived(
                arrivals,
                is_data,
                p,
            )),
    decreases arrivals.len(),
{
    if arrivals.len() > 0 {
        let front = arrivals.drop_last();
        let last = arrivals.last();
        assert(in_place(front)) by {
            assert forall|i: int| 0 <= i < front.len() implies 0 <= (
            #[trigger] front[i]).position < 32 by {
                assert(front[i] == arrivals[i]);
            }
        }
        assert(0 <= arrivals[arrivals.len() - 1].position < 32);
        lemma_seen(front);
        assert forall|is_data: bool, p: int| 0 <= p < 32 implies (#[trigger] arrived(
            arrivals,
            is_data,
            p,
        ) <==> arrived(front, is_data, p) || (last.is_data == is_data && last.position == p)) by {
            if arrived(front, is_data, p) {
                let i = choose|i: int|
                    0 <= i < front.len() && (#[trigger] front[i]).is_data == is_data
                        && front[i].position == p;
                assert(arrivals[i] == front[i]);
            }
            if last.is_data == is_data && last.position == p {
                assert(arrivals[arrivals.len() - 1] == last);
            }
            if arrived(arrivals, is_data, p) {
                let i = choose|i: int|
                    0 <= i < arrivals.len() && (#[trigger] arrivals[i]).is_data == is_data
                        && arrivals[i].position == p;
                if i < front.len() {
                    assert(arrivals[i] == front[i]);
                }
            }
        }
        assert(arrived(front, last.is_data, last.position) || !arrived(
            front,
            last.is_data,
            last.position,
        ));
        assert forall|is_data: bool, p: int| 0 <= p < 32 implies (seen(
            heard(arrivals),
            is_data,
            p,
        ) <==> #[trigger] arrived(arrivals, is_data, p)) by {
            assert(arrived(front, is_data, p) || !arrived(front, is_data, p));
        }
    }
}

/// Whether the shred at a position is among the arrivals.
pub open spec fn arrived(arrivals: Seq<Arrival>, is_data: bool, p: int) -> bool {
    exists|i: int|
        0 <= i < arrivals.len() && (#[trigger] arrivals[i]).is_data == is_data
            && arrivals[i].position == p
}

/// Only the first copy of a shred counts: one that arrives again changes nothing of
/// what is known of its set, whenever it comes.
pub proof fn law_first_copies_count(arrivals: Seq<Arrival>, again: Arrival, i: int)
    requires
        in_place(arrivals),
        0 <= i < arrivals.len(),
        same_shred(arrivals[i], again),
    ensures
        heard(arrivals.push(again)) == heard(arrivals),
{
    lemma_seen(arrivals);
    assert(arrived(arrivals, again.is_data, again.position));
    assert(arrivals.push(again).drop_last() =~= arrivals);
    assert(seen(heard(arrivals), again.is_data, again.position));
}

/// What is known of a set, of whose shreds none arrived twice. Recovery was possible
/// when 32 shreds were there, if one of them was a code shred: the 32nd to arrive
/// tells when, and as many data shreds were missing as code shreds were there. The
/// data was complete when the 32nd data shred came.
pub proof fn law_what_is_heard(arrivals: Seq<Arrival>)
    requires
        in_place(arrivals),
        distinct(arrivals),
    ensures
        ({
            let m = heard(arrivals);
            &&& m.arrivals == arrivals.map_values(|a: Arrival| a.at)
            &&& m.data_complete_at is Some <==> num_data(arrivals) == 32
            &&& forall|k: int|
                0 <= k < arrivals.len() && (#[trigger] arrivals[k]).is_data && num_data(
                    arrivals.take(k),
                ) == 31 ==> m.data_complete_at == Some(arrivals[k].at)
            &&& if arrivals.len() >= 32 && num_data(arrivals.take(32)) < 32 {
                &&& m.threshold_at == Some(arrivals[31].at)
                &&& m.missing_at_threshold == 32 - num_data(arrivals.take(32))
            } else {
                m.threshold_at is None
            }
        }),
{
    lemma_heard(arrivals);
}

proof fn lemma_heard(arrivals: Seq<Arrival>)
    requires
        in_place(arrivals),
        distinct(arrivals),
    ensures
        ({
            let m = heard(arrivals);
            &&& m.arrivals == arrivals.map_values(|a: Arrival| a.at)
            &&& num_true(m.seen_data) == num_data(arrivals)
            &&& num_data(arrivals) <= 32
            &&& m.first_code_at is Some <==> num_data(arrivals) < arrivals.len()
            &&& m.data_complete_at is Some <==> num_data(arrivals) == 32
            &&& forall|k: int|
                0 <= k < arrivals.len() && (#[trigger] arrivals[k]).is_data && num_data(
                    arrivals.take(k),
                ) == 31 ==> m.data_complete_at == Some(arrivals[k].at)
            &&& if arrivals.len() >= 32 && num_data(arrivals.take(32)) < 32 {
                &&& m.threshold_at == Some(arrivals[31].at)
                &&& m.missing_at_threshold == 32 - num_data(arrivals.take(32))
            } else {
                m.threshold_at is None
            }
        }),
    decreases arrivals.len(),
{
    reveal(Seq::filter);
    if arrivals.len() == 0 {
        lemma_no_flag(32);
        assert(heard(arrivals).arrivals =~= arrivals.map_values(|a: Arrival| a.at));
    } else {
        let front = arrivals.drop_last();
        let last = arrivals.last();
        assert forall|i: int| 0 <= i < front.len() implies 0 <= (
        #[trigger] front[i]).position < 32 by {
            assert(front[i] == arrivals[i]);
        }
        assert forall|i: int, j: int| 0 <= i < j < front.len() implies !same_shred(
            #[trigger] front[i],
            #[trigger] front[j],
        ) by {
            assert(front[i] == arrivals[i] && front[j] == arrivals[j]);
        }
        assert(0 <= arrivals[arrivals.len() - 1].position < 32);
        lemma_heard(front);
        lemma_seen(front);
        assert(!arrived(front, last.is_data, last.position)) by {
            if arrived(front, last.is_data, last.position) {
                let i = choose|i: int|
                    0 <= i < front.len() && (#[trigger] front[i]).is_data == last.is_data
                        && front[i].position == last.position;
                assert(same_shred(arrivals[i], arrivals[arrivals.len() - 1]));
            }
        }
        let before = heard(front);
        let m = heard(arrivals);
        assert(front.push(last) =~= arrivals);
        lemma_num_data_push(front, last);
        lemma_num_data_front(front, front.len() as int);
        if last.is_data {
            assert(!seen(before, true, last.position));
            lemma_flag_counted(before.seen_data, last.position);
            lemma_seen(arrivals);
            lemma_no_more_than_flags(m.seen_data);
        } else {
            assert(!seen(before, false, last.position));
        }
        assert(m.arrivals =~= arrivals.map_values(|a: Arrival| a.at)) by {
            assert(before.arrivals =~= front.map_values(|a: Arrival| a.at));
        }
        assert(m.arrivals.len() == arrivals.len());
        assert forall|k: int|
            0 <= k < arrivals.len() && (#[trigger] arrivals[k]).is_data && num_data(
                arrivals.take(k),
            ) == 31 implies m.data_complete_at == Some(arrivals[k].at) by {
            assert(arrivals.take(k) =~= front.take(k));
            if k < front.len() {
                assert(front[k] == arrivals[k]);
                lemma_num_data_push(front.take(k), front[k]);
                assert(front.take(k).push(front[k]) =~= front.take(k + 1));
                lemma_num_data_front(front, k + 1);
            } else {
                assert(front.take(k) =~= front);
            }
        }
        if arrivals.len() >= 32 {
            if arrivals.len() == 32 {
                assert(arrivals.take(32) =~= arrivals);
            } else {
                assert(arrivals.take(32) =~= front.take(32));
                assert(arrivals[31] == front[31]);
            }
        }
    }
}

/// No more flags are set than there are.
proof fn lemma_no_more_than_flags(flags: Seq<bool>)
    ensures
        num_true(flags) <= flags.len(),
    decreases flags.len(),
{
    if flags.len() > 0 {
        lemma_no_more_than_flags(flags.drop_last());
    }
}

/// What became of a set, of whose shreds none arrived twice and whose 32nd data
/// shred is the arrival `k`, if there is one. Where a code shred was among the first
/// 32, eager recovery was ahead by the time from the 32nd shred to the 32nd data
/// shred, in whole microseconds, if the data ever completed. Where there was none,
/// the data was first or neither ever happened.
pub proof fn law_outcome(arrivals: Seq<Arrival>, k: int)
    requires
        in_place(arrivals),
        distinct(arrivals),
        num_data(arrivals) == 32 ==> {
            &&& 0 <= k < arrivals.len()
            &&& arrivals[k].is_data
            &&& num_data(arrivals.take(k)) == 31
        },
    ensures
        ({
            let ahead = arrivals.len() >= 32 && num_data(arrivals.take(32)) < 32;
            let complete = num_data(arrivals) == 32;
            let outcome = heard(arrivals).outcome();
            &&& outcome is NeverRecoverable <==> !ahead && !complete
            &&& outcome is DataFirst <==> !ahead && complete
            &&& outcome is NeverComplete <==> ahead && !complete
            &&& match outcome {
                Outcome::Window { wait_us, missing } => {
                    let waited = arrivals[k].at - arrivals[31].at;
                    &&& missing == 32 - num_data(arrivals.take(32))
                    &&& waited >= 0 ==> 1000 * wait_us <= waited < 1000 * (wait_us + 1)
                    &&& waited < 0 ==> wait_us == 0
                },
                _ => true,
            }
        }),
{
    lemma_heard(arrivals);
}

/// The span of a set is the time from its first to its last shred in whole
/// microseconds, and the clock ran back if the last is stamped before the first.
pub proof fn law_span(arrivals: Seq<Arrival>)
    requires
        in_place(arrivals),
        distinct(arrivals),
    ensures
        ({
            let m = heard(arrivals);
            &&& arrivals.len() == 0 ==> m.span_us().len() == 0 && !m.runs_back()
            &&& arrivals.len() > 0 ==> {
                let span = arrivals.last().at - arrivals[0].at;
                &&& m.runs_back() <==> span < 0
                &&& m.span_us().len() == 1
                &&& span >= 0 ==> 1000 * m.span_us()[0] <= span < 1000 * (m.span_us()[0] + 1)
            }
        }),
{
    lemma_heard(arrivals);
    if arrivals.len() > 0 {
        let m = heard(arrivals);
        assert(m.arrivals.last() == arrivals.last().at);
        assert(m.arrivals[0] == arrivals[0].at);
    }
}

/// Sets are summed up one by one, in their order.
pub proof fn law_summary_of_both(a: Seq<SetModel>, b: Seq<SetModel>)
    ensures
        ({
            let (x, y, both) = (summarized(a), summarized(b), summarized(a + b));
            &&& both.data_first == x.data_first + y.data_first
            &&& both.never_complete == x.never_complete + y.never_complete
            &&& both.never_recoverable == x.never_recoverable + y.never_recoverable
            &&& both.wait_us == x.wait_us + y.wait_us
            &&& both.missing == x.missing + y.missing
            &&& both.span_us == x.span_us + y.span_us
        }),
    decreases b.len(),
{
    if b.len() == 0 {
        assert(a + b =~= a);
    } else {
        assert((a + b).drop_last() =~= a + b.drop_last());
        law_summary_of_both(a, b.drop_last());
        let (x, y, both) = (summarized(a), summarized(b), summarized(a + b));
        assert(both.wait_us =~= x.wait_us + y.wait_us);
        assert(both.missing =~= x.missing + y.missing);
        assert(both.span_us =~= x.span_us + y.span_us);
    }
}

/// A set counts for its outcome: as one that had its data first, never completed or
/// never was recoverable, or with its wait and the number that it missed.
pub proof fn law_summary_of_one(set: SetModel)
    ensures
        ({
            let summary = summarized(seq![set]);
            &&& summary.span_us == set.span_us()
            &&& match set.outcome() {
                Outcome::Window { wait_us, missing } => {
                    &&& summary.wait_us == seq![wait_us]
                    &&& summary.missing == seq![missing]
                },
                _ => summary.wait_us.len() == 0 && summary.missing.len() == 0,
            }
            &&& summary.data_first == (if set.outcome() is DataFirst {
                1nat
            } else {
                0
            })
            &&& summary.never_complete == (if set.outcome() is NeverComplete {
                1nat
            } else {
                0
            })
            &&& summary.never_recoverable == (if set.outcome() is NeverRecoverable {
                1nat
            } else {
                0
            })
        }),
{
    reveal_with_fuel(summarized, 2);
    let none = Seq::<SetModel>::empty();
    assert(seq![set].drop_last() =~= none);
    let summary = summarized(seq![set]);
    assert(summary.span_us =~= set.span_us());
    assert(summarized(none).wait_us =~= Seq::empty());
}

/// Counting the values within a limit counts those that a filter keeps.
pub proof fn law_within(values: Seq<u64>, limit: u64)
    ensures
        num_within(values, limit) == values.filter(|v: u64| v <= limit).len(),
    decreases values.len(),
{
    reveal(Seq::filter);
    if values.len() > 0 {
        law_within(values.drop_last(), limit);
    }
}

/// Counting the flags that are set counts those that a filter keeps.
pub proof fn law_flags_counted(flags: Seq<bool>)
    ensures
        num_true(flags) == flags.filter(|f: bool| f).len(),
    decreases flags.len(),
{
    reveal(Seq::filter);
    if flags.len() > 0 {
        law_flags_counted(flags.drop_last());
    }
}

/// The sum of two lists is the sum of their sums, and that of one value the value.
pub proof fn law_sum(a: Seq<u64>, b: Seq<u64>, x: u64)
    ensures
        sum(a + b) == sum(a) + sum(b),
        sum(seq![x]) == x,
        sum(Seq::empty()) == 0,
    decreases b.len(),
{
    reveal_with_fuel(sum, 2);
    assert(seq![x].drop_last() =~= Seq::empty());
    if b.len() == 0 {
        assert(a + b =~= a);
    } else {
        assert((a + b).drop_last() =~= a + b.drop_last());
        law_sum(a, b.drop_last(), x);
    }
}

/// In ascending order, the values up to a position are within the value there, and
/// those within a smaller value come before it.
proof fn lemma_within_sorted(sorted: Seq<u64>, i: int, less: u64)
    requires
        ascending(sorted),
        0 <= i < sorted.len(),
    ensures
        num_within(sorted, sorted[i]) >= i + 1,
        less < sorted[i] ==> num_within(sorted, less) <= i,
    decreases sorted.len(),
{
    let front = sorted.drop_last();
    assert(ascending(front)) by {
        assert forall|a: int, b: int| 0 <= a < b < front.len() implies (#[trigger] front[a]) <= (
        #[trigger] front[b]) by {
            assert(front[a] == sorted[a] && front[b] == sorted[b]);
        }
    }
    if i < sorted.len() - 1 {
        lemma_within_sorted(front, i, less);
        assert(front[i] == sorted[i]);
        assert(sorted[i] <= sorted[sorted.len() - 1]);
    } else {
        lemma_all_within(front, sorted[i]);
        lemma_within_len(front, less);
        assert forall|j: int| 0 <= j < front.len() implies (#[trigger] front[j]) <= sorted[i] by {
            assert(front[j] == sorted[j]);
        }
    }
}

proof fn lemma_within_len(values: Seq<u64>, limit: u64)
    ensures
        num_within(values, limit) <= values.len(),
    decreases values.len(),
{
    if values.len() > 0 {
        lemma_within_len(values.drop_last(), limit);
    }
}

proof fn lemma_all_within(values: Seq<u64>, limit: u64)
    ensures
        (forall|j: int| 0 <= j < values.len() ==> (#[trigger] values[j]) <= limit) ==> num_within(
            values,
            limit,
        ) == values.len(),
    decreases values.len(),
{
    if values.len() > 0 && (forall|j: int|
        0 <= j < values.len() ==> (#[trigger] values[j]) <= limit) {
        let front = values.drop_last();
        assert forall|j: int| 0 <= j < front.len() implies (#[trigger] front[j]) <= limit by {
            assert(front[j] == values[j]);
        }
        assert(values[values.len() - 1] <= limit);
        lemma_all_within(front, limit);
    }
}

/// Taking a value out takes it out of the count.
proof fn lemma_within_removed(values: Seq<u64>, i: int, limit: u64)
    requires
        0 <= i < values.len(),
    ensures
        num_within(values, limit) == num_within(values.remove(i), limit) + (if values[i] <= limit {
            1nat
        } else {
            0
        }),
    decreases values.len(),
{
    let rest = values.remove(i);
    if i == values.len() - 1 {
        assert(rest =~= values.drop_last());
    } else {
        lemma_within_removed(values.drop_last(), i, limit);
        assert(rest.drop_last() =~= values.drop_last().remove(i));
        assert(rest.last() == values.last());
    }
}

/// How many values are within a limit does not depend on their order.
proof fn lemma_within_any_order(a: Seq<u64>, b: Seq<u64>, limit: u64)
    requires
        a.to_multiset() == b.to_multiset(),
    ensures
        num_within(a, limit) == num_within(b, limit),
    decreases a.len(),
{
    a.to_multiset_ensures();
    b.to_multiset_ensures();
    assert(a.len() == b.len());
    if a.len() > 0 {
        let x = a.last();
        assert(a[a.len() - 1] == x);
        assert(a.contains(x));
        assert(a.to_multiset().count(x) > 0);
        assert(b.contains(x));
        let i = choose|i: int| 0 <= i < b.len() && b[i] == x;
        let front = a.remove(a.len() - 1);
        assert(front =~= a.drop_last());
        assert(front.to_multiset() =~= a.to_multiset().remove(x));
        assert(b.remove(i).to_multiset() =~= b.to_multiset().remove(x));
        lemma_within_any_order(front, b.remove(i), limit);
        lemma_within_removed(b, i, limit);
    }
}

/// Whether `value` is the `p`th percentile of `values`, by nearest rank: the least of
/// them that at least `p` in a hundred do not exceed.
pub open spec fn is_percentile(value: u64, values: Seq<u64>, p: int) -> bool {
    &&& values.contains(value)
    &&& 100 * num_within(values, value) >= p * values.len()
    &&& forall|less: u64|
        less < value ==> 100 * #[trigger] num_within(values, less) < p * values.len()
}

/// The value at the position of a percentile in the ascending order of values is that
/// percentile of them.
pub proof fn law_percentile(values: Seq<u64>, sorted: Seq<u64>, p: int)
    requires
        ascending(sorted),
        sorted.to_multiset() == values.to_multiset(),
        values.len() > 0,
        0 < p <= 100,
    ensures
        0 <= percentile_index(p, values.len() as int) < sorted.len() == values.len(),
        is_percentile(sorted[percentile_index(p, values.len() as int)], values, p),
{
    sorted.to_multiset_ensures();
    values.to_multiset_ensures();
    let n = values.len() as int;
    let i = percentile_index(p, n);
    lemma_percentile_index(p, n);
    let value = sorted[i];
    assert(sorted.contains(value));
    assert(sorted.to_multiset().count(value) > 0);
    assert(values.contains(value));
    lemma_within_any_order(sorted, values, value);
    lemma_within_sorted(sorted, i, value);
    assert forall|less: u64| less < value implies 100 * #[trigger] num_within(values, less)
        < p * values.len() by {
        lemma_within_any_order(sorted, values, less);
        lemma_within_sorted(sorted, i, less);
    }
}

/// What a distribution tells: how many values there are, their mean in whole numbers,
/// the percentiles that it names, and the greatest of them.
pub proof fn law_distribution(d: Distribution, values: Seq<u64>)
    requires
        values.len() > 0,
        distributed(d, values),
    ensures
        d.n == values.len(),
        d.mean * values.len() <= sum(values) < (d.mean + 1) * values.len(),
        is_percentile(d.p50, values, 50),
        is_percentile(d.p90, values, 90),
        is_percentile(d.p99, values, 99),
        values.contains(d.max),
        forall|i: int| 0 <= i < values.len() ==> (#[trigger] values[i]) <= d.max,
{
    let sorted = choose|sorted: Seq<u64>| #[trigger] describes(d, values, sorted);
    let n = values.len() as int;
    let total = sum(values) as int;
    law_percentile(values, sorted, 50);
    law_percentile(values, sorted, 90);
    law_percentile(values, sorted, 99);
    let mean = d.mean as int;
    assert(mean * n <= total && total < (mean + 1) * n) by (nonlinear_arith)
        requires
            mean == total / n,
            n > 0,
    ;
    sorted.to_multiset_ensures();
    values.to_multiset_ensures();
    assert(sorted[n - 1] == d.max);
    assert(sorted.contains(d.max));
    assert(sorted.to_multiset().count(d.max) > 0);
    assert(values.contains(d.max));
    assert forall|i: int| 0 <= i < values.len() implies (#[trigger] values[i]) <= d.max by {
        assert(values.contains(values[i]));
        assert(values.to_multiset().count(values[i]) > 0);
        assert(sorted.contains(values[i]));
        let j = choose|j: int| 0 <= j < sorted.len() && sorted[j] == values[i];
        if j < n - 1 {
            assert(sorted[j] <= sorted[n - 1]);
        }
    }
}

/// A batch is available when its packet came in, and 46 microseconds later where that
/// packet had a recovery run first.
pub proof fn law_recovery_costs(received_at: u64, transactions: u64)
    ensures
        ({
            let at_once = BatchTime { received_at, recovered: false, transactions };
            let rebuilt = BatchTime { received_at, recovered: true, transactions };
            &&& at_once.available_at() == received_at
            &&& rebuilt.available_at() == at_once.available_at() + 1000 * RECOVERY_COST_US
        }),
{
}

/// What is saved is by how many whole microseconds the one is available before the
/// other, and nothing where it is not.
pub proof fn law_saved(eager: BatchTime, waiting: BatchTime)
    ensures
        ({
            let ahead = waiting.available_at() - eager.available_at();
            let saved = saved_us(eager, waiting);
            &&& ahead >= 0 ==> 1000 * saved <= ahead < 1000 * (saved + 1)
            &&& ahead < 0 ==> saved == 0
        }),
{
}

/// The batches of a capture are compared one by one, in their order.
pub proof fn law_latency_of_both(
    a: Seq<(Key, BatchTime)>,
    b: Seq<(Key, BatchTime)>,
    waiting: Seq<(Key, BatchTime)>,
)
    ensures
        ({
            let (x, y, both) = (
                latency_of(a, waiting),
                latency_of(b, waiting),
                latency_of(a + b, waiting),
            );
            &&& both.total == x.total + y.total
            &&& both.unaffected == x.unaffected + y.unaffected
            &&& both.only_with_recovery == x.only_with_recovery + y.only_with_recovery
            &&& both.deltas == x.deltas + y.deltas
        }),
    decreases b.len(),
{
    if b.len() == 0 {
        assert(a + b =~= a);
        assert(latency_of(a, waiting).deltas + latency_of(b, waiting).deltas =~= latency_of(
            a,
            waiting,
        ).deltas);
    } else {
        assert((a + b).drop_last() =~= a + b.drop_last());
        law_latency_of_both(a, b.drop_last(), waiting);
        assert(latency_of(a + b, waiting).deltas =~= latency_of(a, waiting).deltas + latency_of(
            b,
            waiting,
        ).deltas);
    }
}

/// The transactions of a batch count as delivered only thanks to recovery where the
/// batch is never available without it, as unaffected where less than a microsecond
/// is saved, and otherwise each with the microseconds saved.
pub proof fn law_latency_of_one(key: Key, time: BatchTime, waiting: Seq<(Key, BatchTime)>)
    ensures
        ({
            let latency = latency_of(seq![(key, time)], waiting);
            let n = time.transactions as nat;
            let other = lookup(waiting, key);
            let ahead = other->0.available_at() - time.available_at();
            &&& latency.total == n
            &&& latency.only_with_recovery == (if other is None {
                n
            } else {
                0
            })
            &&& latency.unaffected == (if other is Some && ahead < 1000 {
                n
            } else {
                0
            })
            &&& latency.deltas.len() == (if other is Some && ahead >= 1000 {
                n
            } else {
                0
            })
            &&& forall|i: int|
                0 <= i < latency.deltas.len() ==> 1000 * (#[trigger] latency.deltas[i]) <= ahead
                    < 1000 * (latency.deltas[i] + 1)
        }),
{
    let row = seq![(key, time)];
    assert(row.drop_last() =~= Seq::empty());
    assert(row.last() == (key, time));
    assert(latency_of(row.drop_last(), waiting).deltas =~= Seq::empty());
    match lookup(waiting, key) {
        Some(other) => {
            law_saved(time, other);
            let n = time.transactions as nat;
            assert(Seq::<u64>::empty() + repeated(saved_us(time, other), n) =~= repeated(
                saved_us(time, other),
                n,
            ));
        },
        None => {},
    }
}

/// The batch at `key` was available by the last packet that completed it: one more
/// packet sets its time, transactions and whether a recovery ran where the packet
/// completes a batch there, and leaves them alone where it does not.
pub proof fn law_last_packet_tells(
    m: DeshredderModel,
    records: Seq<(u64, Seq<u8>)>,
    record: (u64, Seq<u8>),
    key: Key,
    i: int,
)
    requires
        ({
            let batches = replayed(m, records).batches(record.1);
            &&& 0 <= i < batches.len() ==> starts_at(batches[i], key)
            &&& forall|j: int|
                i < j < batches.len() && 0 <= j ==> !starts_at(#[trigger] batches[j], key)
        }),
        i >= -1,
        i < replayed(m, records).batches(record.1).len(),
    ensures
        ({
            let before = replayed(m, records);
            let batches = before.batches(record.1);
            let time = time_of(m, records.push(record), key);
            if i < 0 {
                time == time_of(m, records, key)
            } else {
                &&& time is Some
                &&& time->0.received_at == record.0
                &&& time->0.recovered <==> before.pushed(record.1).stats.recovered
                    > before.stats.recovered
                &&& time->0.transactions == num_transactions(batches[i].entries) as u64
            }
        }),
{
    let before = replayed(m, records);
    let batches = before.batches(record.1);
    let recovered = before.pushed(record.1).stats.recovered > before.stats.recovered;
    let all = records.push(record);
    assert(all.drop_last() =~= records);
    assert(all.last() == record);
    lemma_time_among(batches, record.0, recovered, key, i);
}

/// Whether a batch is of the slot and starts at the shred that a key names.
pub open spec fn starts_at(batch: BatchModel, key: Key) -> bool {
    batch.slot == key.0 && batch.shreds.start == key.1
}

proof fn lemma_time_among(
    batches: Seq<BatchModel>,
    received_at: u64,
    recovered: bool,
    key: Key,
    i: int,
)
    requires
        -1 <= i < batches.len(),
        0 <= i ==> starts_at(batches[i], key),
        forall|j: int| i < j < batches.len() && 0 <= j ==> !starts_at(#[trigger] batches[j], key),
    ensures
        time_among(batches, received_at, recovered, key) == (if i < 0 {
            None
        } else {
            Some(
                BatchTime {
                    received_at,
                    recovered,
                    transactions: num_transactions(batches[i].entries) as u64,
                },
            )
        }),
    decreases batches.len(),
{
    if batches.len() > 0 && i < batches.len() - 1 {
        let front = batches.drop_last();
        assert(!starts_at(batches[batches.len() - 1], key));
        assert forall|j: int| i < j < front.len() && 0 <= j implies !starts_at(
            #[trigger] front[j],
            key,
        ) by {
            assert(front[j] == batches[j]);
        }
        lemma_time_among(front, received_at, recovered, key, i);
    }
}

} // verus!
