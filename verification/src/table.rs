//! Rows in the order of the slot and index that they are kept under.

use vstd::prelude::*;

verus! {

/// What a row is kept under: a slot, and an index in it.
pub type Key = (u64, u32);

/// Whether `a` comes before `b`: an earlier slot, or an earlier index in it.
pub open spec fn before(a: Key, b: Key) -> bool {
    a.0 < b.0 || (a.0 == b.0 && a.1 < b.1)
}

/// The value under `key` among rows.
pub open spec fn lookup<V>(rows: Seq<(Key, V)>, key: Key) -> Option<V>
    decreases rows.len(),
{
    if rows.len() == 0 {
        None
    } else if rows.last().0 == key {
        Some(rows.last().1)
    } else {
        lookup(rows.drop_last(), key)
    }
}

/// Whether the rows are in the order of their keys, each of which is there once.
pub open spec fn in_order<V>(rows: Seq<(Key, V)>) -> bool {
    forall|i: int, j: int|
        0 <= i < j < rows.len() ==> before((#[trigger] rows[i]).0, (#[trigger] rows[j]).0)
}

/// Of two keys that differ, one comes before the other: that of the earlier slot, or
/// of the lower index in the same slot. What comes before something comes before all
/// that comes after it.
pub proof fn law_order(a: Key, b: Key, c: Key)
    ensures
        a != b <==> before(a, b) || before(b, a),
        !(before(a, b) && before(b, a)),
        a.0 < b.0 ==> before(a, b),
        a.0 == b.0 ==> (before(a, b) <==> a.1 < b.1),
        before(a, b) && before(b, c) ==> before(a, c),
{
}

/// In ordered rows there is a value under a key exactly if there is a row for it, and
/// it is the value of that row.
pub proof fn law_lookup<V>(rows: Seq<(Key, V)>, key: Key, value: V)
    requires
        in_order(rows),
    ensures
        lookup(rows, key) == Some(value) <==> rows.contains((key, value)),
        lookup(rows, key) is None <==> (forall|i: int|
            0 <= i < rows.len() ==> (#[trigger] rows[i]).0 != key),
{
    if forall|i: int| 0 <= i < rows.len() ==> (#[trigger] rows[i]).0 != key {
        lemma_lookup_none(rows, key);
        if rows.contains((key, value)) {
            let i = choose|i: int| 0 <= i < rows.len() && rows[i] == (key, value);
            assert(rows[i].0 != key);
        }
    } else {
        let i = choose|i: int| 0 <= i < rows.len() && (#[trigger] rows[i]).0 == key;
        lemma_lookup(rows, i);
        assert(rows[i] == (key, rows[i].1));
        if rows.contains((key, value)) {
            let j = choose|j: int| 0 <= j < rows.len() && rows[j] == (key, value);
            lemma_lookup(rows, j);
        }
    }
}

/// In ordered rows, the value under a key is that of the one row which has it.
pub proof fn lemma_lookup<V>(rows: Seq<(Key, V)>, i: int)
    requires
        in_order(rows),
        0 <= i < rows.len(),
    ensures
        lookup(rows, rows[i].0) == Some(rows[i].1),
    decreases rows.len(),
{
    if i < rows.len() - 1 {
        let front = rows.drop_last();
        assert forall|a: int, b: int| 0 <= a < b < front.len() implies before(
            (#[trigger] front[a]).0,
            (#[trigger] front[b]).0,
        ) by {
            assert(front[a] == rows[a] && front[b] == rows[b]);
        }
        lemma_lookup(front, i);
        assert(before(rows[i].0, rows[rows.len() - 1].0));
    }
}

/// There is no value under a key that no row has.
pub proof fn lemma_lookup_none<V>(rows: Seq<(Key, V)>, key: Key)
    requires
        forall|i: int| 0 <= i < rows.len() ==> (#[trigger] rows[i]).0 != key,
    ensures
        lookup(rows, key) is None,
    decreases rows.len(),
{
    if rows.len() > 0 {
        let front = rows.drop_last();
        assert forall|i: int| 0 <= i < front.len() implies (#[trigger] front[i]).0 != key by {
            assert(front[i] == rows[i]);
        }
        lemma_lookup_none(front, key);
    }
}

/// Values kept under keys.
pub struct Table<V> {
    rows: Vec<(Key, V)>,
}

impl<V> View for Table<V> {
    type V = Seq<(Key, V)>;

    closed spec fn view(&self) -> Seq<(Key, V)> {
        self.rows@
    }
}

impl<V> Table<V> {
    /// The rows are in order.
    pub open spec fn wf(&self) -> bool {
        in_order(self@)
    }

    pub fn new() -> (table: Self)
        ensures
            table.wf(),
            table@ == Seq::<(Key, V)>::empty(),
    {
        Table { rows: Vec::new() }
    }

    pub fn len(&self) -> (len: usize)
        ensures
            len == self@.len(),
    {
        self.rows.len()
    }

    /// The value in row `i`.
    pub fn value(&self, i: usize) -> (value: &V)
        requires
            i < self@.len(),
        ensures
            *value == self@[i as int].1,
    {
        &self.rows[i].1
    }

    /// The value in row `i`, to be changed.
    pub fn value_mut(&mut self, i: usize) -> (value: &mut V)
        requires
            i < old(self)@.len(),
        ensures
            *value == old(self)@[i as int].1,
            final(self)@ == old(self)@.update(i as int, (old(self)@[i as int].0, *final(value))),
    {
        &mut self.rows[i].1
    }

    /// The key of row `i`.
    pub fn key(&self, i: usize) -> (key: Key)
        requires
            i < self@.len(),
        ensures
            key == self@[i as int].0,
    {
        self.rows[i].0
    }

    /// The row with this key, or else where it would be.
    pub fn find(&self, key: Key) -> (found: Result<usize, usize>)
        requires
            self.wf(),
        ensures
            match found {
                Ok(i) => i < self@.len() && self@[i as int].0 == key,
                Err(i) => {
                    &&& i <= self@.len()
                    &&& forall|j: int| 0 <= j < i ==> before((#[trigger] self@[j]).0, key)
                    &&& forall|j: int|
                        i <= j < self@.len() ==> before(key, (#[trigger] self@[j]).0)
                },
            },
    {
        let mut low: usize = 0;
        let mut high: usize = self.rows.len();
        while low < high
            invariant
                self.wf(),
                low <= high <= self@.len(),
                forall|j: int| 0 <= j < low ==> before((#[trigger] self@[j]).0, key),
                forall|j: int| high <= j < self@.len() ==> before(key, (#[trigger] self@[j]).0),
            decreases high - low,
        {
            let middle: usize = low + (high - low) / 2;
            let here: Key = self.rows[middle].0;
            assert(self@[middle as int].0 == here);
            if here.0 == key.0 && here.1 == key.1 {
                return Ok(middle);
            }
            if here.0 < key.0 || (here.0 == key.0 && here.1 < key.1) {
                low = middle + 1;
            } else {
                high = middle;
            }
        }
        Err(low)
    }

    /// The value under `key`.
    pub fn get(&self, key: Key) -> (value: Option<&V>)
        requires
            self.wf(),
        ensures
            match value {
                Some(value) => lookup(self@, key) == Some(*value),
                None => lookup(self@, key) is None,
            },
    {
        match self.find(key) {
            Ok(i) => {
                proof {
                    lemma_lookup(self@, i as int);
                }
                Some(&self.rows[i].1)
            },
            Err(_) => {
                proof {
                    lemma_lookup_none(self@, key);
                }
                None
            },
        }
    }

    /// Keep `value` under `key`, in place of what was kept there before.
    pub fn put(&mut self, key: Key, value: V)
        requires
            old(self).wf(),
        ensures
            final(self).wf(),
            forall|other: Key| #[trigger]
                lookup(final(self)@, other) == (if other == key {
                    Some(value)
                } else {
                    lookup(old(self)@, other)
                }),
            forall|i: int|
                0 <= i < final(self)@.len() ==> (#[trigger] final(self)@[i]) == (key, value)
                    || old(self)@.contains(final(self)@[i]),
    {
        let ghost rows = self@;
        match self.find(key) {
            Ok(i) => {
                self.rows[i] = (key, value);
                proof {
                    assert(self@[i as int] == (key, value));
                    assert forall|k: int| 0 <= k < self@.len() implies (#[trigger] self@[k]) == (
                        key,
                        value,
                    ) || rows.contains(self@[k]) by {
                        if k != i {
                            assert(self@[k] == rows[k]);
                        }
                    }
                    assert forall|j: int|
                        0 <= j < rows.len() && (#[trigger] rows[j]).0 != key implies exists|k: int|
                        0 <= k < self@.len() && #[trigger] self@[k] == rows[j] by {
                        assert(self@[j] == rows[j]);
                    }
                    lemma_rows_changed(rows, self@, key, value);
                }
            },
            Err(i) => {
                self.rows.insert(i, (key, value));
                proof {
                    assert forall|a: int, b: int| 0 <= a < b < self@.len() implies before(
                        (#[trigger] self@[a]).0,
                        (#[trigger] self@[b]).0,
                    ) by {
                        let p = if a <= i {
                            a
                        } else {
                            a - 1
                        };
                        let q = if b <= i {
                            b
                        } else {
                            b - 1
                        };
                        if a != i {
                            assert(self@[a] == rows[p]);
                        }
                        if b != i {
                            assert(self@[b] == rows[q]);
                        }
                    }
                    assert(self@[i as int] == (key, value));
                    assert forall|k: int| 0 <= k < self@.len() implies (#[trigger] self@[k]) == (
                        key,
                        value,
                    ) || rows.contains(self@[k]) by {
                        if k < i {
                            assert(self@[k] == rows[k]);
                        } else if k > i {
                            assert(self@[k] == rows[k - 1]);
                        }
                    }
                    assert forall|j: int| 0 <= j < rows.len() implies exists|k: int|
                        0 <= k < self@.len() && self@[k] == #[trigger] rows[j] by {
                        let k = if j < i {
                            j
                        } else {
                            j + 1
                        };
                        assert(self@[k] == rows[j]);
                    }
                    lemma_rows_changed(rows, self@, key, value);
                }
            },
        }
    }
}

/// Ordered rows that differ in what is under one key only.
proof fn lemma_rows_changed<V>(rows: Seq<(Key, V)>, next: Seq<(Key, V)>, key: Key, value: V)
    requires
        in_order(rows),
        in_order(next),
        exists|k: int| 0 <= k < next.len() && #[trigger] next[k] == (key, value),
        forall|j: int|
            0 <= j < rows.len() && (#[trigger] rows[j]).0 != key ==> exists|k: int|
                0 <= k < next.len() && #[trigger] next[k] == rows[j],
        forall|k: int|
            0 <= k < next.len() && (#[trigger] next[k]).0 != key ==> exists|j: int|
                0 <= j < rows.len() && #[trigger] rows[j] == next[k],
    ensures
        forall|other: Key| #[trigger]
            lookup(next, other) == (if other == key {
                Some(value)
            } else {
                lookup(rows, other)
            }),
{
    assert forall|other: Key| #[trigger] lookup(next, other) == (if other == key {
        Some(value)
    } else {
        lookup(rows, other)
    }) by {
        if other == key {
            let k = choose|k: int| 0 <= k < next.len() && #[trigger] next[k] == (key, value);
            lemma_lookup(next, k);
        } else if exists|k: int| 0 <= k < next.len() && (#[trigger] next[k]).0 == other {
            let k = choose|k: int| 0 <= k < next.len() && (#[trigger] next[k]).0 == other;
            let j = choose|j: int| 0 <= j < rows.len() && #[trigger] rows[j] == next[k];
            lemma_lookup(next, k);
            lemma_lookup(rows, j);
        } else {
            lemma_lookup_none(next, other);
            assert forall|j: int| 0 <= j < rows.len() implies (#[trigger] rows[j]).0 != other by {
                if rows[j].0 == other {
                    let k = choose|k: int| 0 <= k < next.len() && #[trigger] next[k] == rows[j];
                    assert(next[k].0 == other);
                }
            }
            lemma_lookup_none(rows, other);
        }
    }
}

} // verus!
