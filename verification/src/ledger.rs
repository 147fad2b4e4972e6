//! A small ordered map from a pair of integers to a value: what the hull
//! ledger keeps per machine and the masonry ledger keeps per town.
//!
//! Rows are kept in key order and a key appears once, so the same ledger
//! always walks — and is always written — in the same order.
use vstd::prelude::*;

verus! {

/// The order rows are kept in: by the first number, then the second.
pub open spec fn key_lt(a: (i64, i64), b: (i64, i64)) -> bool {
    a.0 < b.0 || (a.0 == b.0 && a.1 < b.1)
}

/// Rows in strictly increasing key order.
pub open spec fn sorted_keys<V>(rows: Seq<((i64, i64), V)>) -> bool {
    forall|i: int, j: int| 0 <= i < j < rows.len() ==> #[trigger] key_lt(rows[i].0, rows[j].0)
}

/// What the rows say for `k`: the value on the last row that carries it.
pub open spec fn value_in<V>(rows: Seq<((i64, i64), V)>, k: (i64, i64)) -> Option<V>
    decreases rows.len(),
{
    if rows.len() == 0 {
        None
    } else if rows.last().0 == k {
        Some(rows.last().1)
    } else {
        value_in(rows.drop_last(), k)
    }
}

pub proof fn lemma_value_absent<V>(rows: Seq<((i64, i64), V)>, k: (i64, i64))
    requires
        forall|i: int| 0 <= i < rows.len() ==> #[trigger] rows[i].0 != k,
    ensures
        value_in(rows, k) is None,
    decreases rows.len(),
{
    if rows.len() > 0 {
        lemma_value_absent(rows.drop_last(), k);
    }
}

pub proof fn lemma_value_at<V>(rows: Seq<((i64, i64), V)>, i: int)
    requires
        sorted_keys(rows),
        0 <= i < rows.len(),
    ensures
        value_in(rows, rows[i].0) == Some(rows[i].1),
    decreases rows.len(),
{
    if i < rows.len() - 1 {
        assert(key_lt(rows[i].0, rows[rows.len() - 1].0));
        assert(rows.drop_last()[i] == rows[i]);
        lemma_value_at(rows.drop_last(), i);
    }
}

/// In sorted rows, a key with a value is on some row.
pub proof fn lemma_value_found<V>(rows: Seq<((i64, i64), V)>, k: (i64, i64))
    requires
        value_in(rows, k) is Some,
    ensures
        exists|i: int| 0 <= i < rows.len() && #[trigger] rows[i].0 == k && value_in(rows, k) == Some(rows[i].1),
    decreases rows.len(),
{
    if rows.last().0 == k {
        assert(rows[rows.len() - 1].0 == k);
    } else {
        lemma_value_found(rows.drop_last(), k);
        let i = choose|i: int| 0 <= i < rows.drop_last().len() && #[trigger] rows.drop_last()[i].0 == k && value_in(rows.drop_last(), k) == Some(rows.drop_last()[i].1);
        assert(rows[i] == rows.drop_last()[i]);
    }
}

pub proof fn lemma_value_single<V>(r: ((i64, i64), V), k: (i64, i64))
    ensures
        value_in(seq![r], k) == if r.0 == k {
            Some(r.1)
        } else {
            None
        },
{
    assert(seq![r].drop_last() =~= Seq::<((i64, i64), V)>::empty());
    assert(seq![r].last() == r);
    assert(value_in(Seq::<((i64, i64), V)>::empty(), k) is None);
}

/// Keys before the place `k` belongs, and the key standing there if it is
/// not `k`, all differ from `k` — and so does everything after.
pub proof fn lemma_not_in_sorted<V>(rows: Seq<((i64, i64), V)>, at: int, k: (i64, i64))
    requires
        sorted_keys(rows),
        0 <= at <= rows.len(),
        forall|j: int| 0 <= j < at ==> #[trigger] key_lt(rows[j].0, k),
        at < rows.len() ==> !key_lt(rows[at].0, k) && rows[at].0 != k,
    ensures
        forall|j: int| 0 <= j < rows.len() ==> #[trigger] rows[j].0 != k,
        value_in(rows, k) is None,
{
    assert forall|j: int| 0 <= j < rows.len() implies #[trigger] rows[j].0 != k by {
        if j < at {
            assert(key_lt(rows[j].0, k));
        } else if j > at {
            assert(key_lt(rows[at].0, rows[j].0));
        }
    }
    lemma_value_absent(rows, k);
}

pub proof fn lemma_value_concat<V>(a: Seq<((i64, i64), V)>, b: Seq<((i64, i64), V)>, k: (i64, i64))
    ensures
        value_in(a + b, k) == if value_in(b, k) is Some {
            value_in(b, k)
        } else {
            value_in(a, k)
        },
    decreases b.len(),
{
    if b.len() == 0 {
        assert(a + b =~= a);
    } else {
        assert((a + b).drop_last() =~= a + b.drop_last());
        lemma_value_concat(a, b.drop_last(), k);
    }
}

/// The rows with every row for `k` taken out, the rest in their order.
pub open spec fn without<V>(rows: Seq<((i64, i64), V)>, k: (i64, i64)) -> Seq<((i64, i64), V)>
    decreases rows.len(),
{
    if rows.len() == 0 {
        Seq::empty()
    } else if rows.last().0 == k {
        without(rows.drop_last(), k)
    } else {
        without(rows.drop_last(), k).push(rows.last())
    }
}

/// Rows with no row for `k` lose nothing when `k` is taken out.
pub proof fn lemma_without_absent<V>(rows: Seq<((i64, i64), V)>, k: (i64, i64))
    requires
        forall|i: int| 0 <= i < rows.len() ==> #[trigger] rows[i].0 != k,
    ensures
        without(rows, k) == rows,
    decreases rows.len(),
{
    if rows.len() > 0 {
        assert(rows[rows.len() - 1].0 != k);
        lemma_without_absent(rows.drop_last(), k);
        assert(rows.drop_last().push(rows.last()) =~= rows);
    }
}

/// Taking `k` out of two runs of rows is taking it out of each.
pub proof fn lemma_without_concat<V>(a: Seq<((i64, i64), V)>, b: Seq<((i64, i64), V)>, k: (i64, i64))
    ensures
        without(a + b, k) == without(a, k) + without(b, k),
    decreases b.len(),
{
    if b.len() == 0 {
        assert(a + b =~= a);
        assert(without(a, k) + without(b, k) =~= without(a, k));
    } else {
        assert((a + b).drop_last() =~= a + b.drop_last());
        assert((a + b).last() == b.last());
        lemma_without_concat(a, b.drop_last(), k);
        if b.last().0 == k {
        } else {
            assert(without(a, k) + without(b.drop_last(), k).push(b.last()) =~= (without(a, k) + without(
                b.drop_last(),
                k,
            )).push(b.last()));
        }
    }
}

/// An ordered map from a pair of integers to a value.
#[derive(Debug, PartialEq, Eq)]
pub struct Ledger<V> {
    rows: Vec<((i64, i64), V)>,
}

impl<V> View for Ledger<V> {
    type V = Seq<((i64, i64), V)>;

    closed spec fn view(&self) -> Seq<((i64, i64), V)> {
        self.rows@
    }
}

impl<V> Ledger<V> {
    #[verifier::type_invariant]
    closed spec fn in_order(self) -> bool {
        sorted_keys(self.rows@)
    }
}

impl<V: Copy> Ledger<V> {
    /// What the ledger says for `k`.
    pub open spec fn value(&self, k: (i64, i64)) -> Option<V> {
        value_in(self@, k)
    }

    /// Every ledger keeps its rows in key order, once each.
    pub fn note_order(&self)
        ensures
            sorted_keys(self@),
    {
        proof {
            use_type_invariant(self);
        }
    }

    /// An empty ledger.
    pub fn new() -> (ledger: Ledger<V>)
        ensures
            ledger@ == Seq::<((i64, i64), V)>::empty(),
    {
        Ledger { rows: Vec::new() }
    }

    /// How many keys it holds.
    pub fn len(&self) -> (n: usize)
        ensures
            n == self@.len(),
    {
        self.rows.len()
    }

    /// Every row, in key order.
    pub fn rows(&self) -> (rows: &[((i64, i64), V)])
        ensures
            rows@ == self@,
    {
        self.rows.as_slice()
    }

    /// Where `k` is, or where it would go.
    fn position(&self, k: (i64, i64)) -> (at: usize)
        ensures
            at <= self@.len(),
            forall|j: int| 0 <= j < at ==> #[trigger] key_lt(self@[j].0, k),
            at < self@.len() ==> !key_lt(self@[at as int].0, k),
    {
        let mut i: usize = 0;
        while i < self.rows.len() && (self.rows[i].0.0 < k.0 || (self.rows[i].0.0 == k.0
            && self.rows[i].0.1 < k.1))
            invariant
                0 <= i <= self@.len(),
                self@ == self.rows@,
                forall|j: int| 0 <= j < i ==> #[trigger] key_lt(self@[j].0, k),
            decreases self@.len() - i,
        {
            i = i + 1;
        }
        i
    }

    /// What the ledger holds for `k`.
    pub fn get(&self, k: (i64, i64)) -> (v: Option<V>)
        ensures
            v == self.value(k),
    {
        proof {
            use_type_invariant(self);
        }
        let at = self.position(k);
        if at < self.rows.len() && self.rows[at].0.0 == k.0 && self.rows[at].0.1 == k.1 {
            proof {
                lemma_value_at(self@, at as int);
            }
            Some(self.rows[at].1)
        } else {
            proof {
                lemma_not_in_sorted(self@, at as int, k);
            }
            None
        }
    }

    /// Set `k` to `v`, replacing whatever was there.
    pub fn insert(&mut self, k: (i64, i64), v: V)
        ensures
            forall|j: (i64, i64)|
                #![trigger final(self).value(j)]
                final(self).value(j) == if j == k {
                    Some(v)
                } else {
                    old(self).value(j)
                },
            (forall|i: int| 0 <= i < old(self)@.len() ==> #[trigger] key_lt(old(self)@[i].0, k))
                ==> final(self)@ == old(self)@.push((k, v)),
            old(self).value(k) is Some ==> final(self)@.len() == old(self)@.len(),
            old(self).value(k) is None ==> final(self)@.len() == old(self)@.len() + 1,
    {
        proof {
            use_type_invariant(&*self);
        }
        let ghost old_rows = self@;
        let at = self.position(k);
        let mut rows: Vec<((i64, i64), V)> = Vec::new();
        std::mem::swap(&mut rows, &mut self.rows);
        if at < rows.len() && rows[at].0.0 == k.0 && rows[at].0.1 == k.1 {
            rows.set(at, (k, v));
            proof {
                let before = old_rows.take(at as int);
                let tail = old_rows.skip(at + 1);
                assert(old_rows =~= before + seq![old_rows[at as int]] + tail);
                assert(rows@ =~= before + seq![(k, v)] + tail);
                assert forall|j: (i64, i64)| #[trigger]
                    value_in(rows@, j) == if j == k {
                        Some(v)
                    } else {
                        value_in(old_rows, j)
                    } by {
                    lemma_value_concat(before + seq![old_rows[at as int]], tail, j);
                    lemma_value_concat(before + seq![(k, v)], tail, j);
                    lemma_value_concat(before, seq![old_rows[at as int]], j);
                    lemma_value_concat(before, seq![(k, v)], j);
                    lemma_value_single((k, v), j);
                    lemma_value_single(old_rows[at as int], j);
                    if j == k {
                        assert forall|t: int| 0 <= t < tail.len() implies #[trigger] tail[t].0 != k by {
                            assert(tail[t] == old_rows[at + 1 + t]);
                            assert(key_lt(old_rows[at as int].0, old_rows[at + 1 + t].0));
                        }
                        lemma_value_absent(tail, k);
                    }
                }
                assert forall|a: int, b: int| 0 <= a < b < rows@.len() implies #[trigger] key_lt(
                    rows@[a].0,
                    rows@[b].0,
                ) by {
                    assert(rows@[a].0 == old_rows[a].0);
                    assert(rows@[b].0 == old_rows[b].0);
                }
                if forall|i: int| 0 <= i < old_rows.len() ==> #[trigger] key_lt(old_rows[i].0, k) {
                    assert(key_lt(old_rows[at as int].0, k));
                }
                lemma_value_at(old_rows, at as int);
            }
            self.rows = rows;
        } else {
            rows.insert(at, (k, v));
            proof {
                let before = old_rows.take(at as int);
                let after = old_rows.skip(at as int);
                assert(old_rows =~= before + after);
                assert(rows@ =~= before + seq![(k, v)] + after);
                lemma_not_in_sorted(old_rows, at as int, k);
                assert forall|j: (i64, i64)| #[trigger]
                    value_in(rows@, j) == if j == k {
                        Some(v)
                    } else {
                        value_in(old_rows, j)
                    } by {
                    lemma_value_concat(before + seq![(k, v)], after, j);
                    lemma_value_concat(before, seq![(k, v)], j);
                    lemma_value_concat(before, after, j);
                    lemma_value_single((k, v), j);
                    if j == k {
                        assert forall|t: int| 0 <= t < after.len() implies #[trigger] after[t].0 != k by {
                            assert(after[t] == old_rows[at + t]);
                        }
                        lemma_value_absent(after, k);
                    }
                }
                assert forall|a: int, b: int| 0 <= a < b < rows@.len() implies #[trigger] key_lt(
                    rows@[a].0,
                    rows@[b].0,
                ) by {
                    if b < at {
                        assert(rows@[a] == old_rows[a] && rows@[b] == old_rows[b]);
                    } else if b == at {
                        assert(rows@[a] == old_rows[a]);
                    } else if a == at {
                        assert(rows@[b] == old_rows[b - 1]);
                        if b - 1 > at {
                            assert(key_lt(old_rows[at as int].0, old_rows[b - 1].0));
                        }
                    } else if a < at {
                        assert(rows@[a] == old_rows[a] && rows@[b] == old_rows[b - 1]);
                    } else {
                        assert(rows@[a] == old_rows[a - 1] && rows@[b] == old_rows[b - 1]);
                    }
                }
                if forall|i: int| 0 <= i < old_rows.len() ==> #[trigger] key_lt(old_rows[i].0, k) {
                    if at < old_rows.len() {
                        assert(key_lt(old_rows[at as int].0, k));
                    }
                    assert(rows@ =~= old_rows.push((k, v)));
                }
            }
            self.rows = rows;
        }
    }

    /// Forget `k`.
    pub fn remove(&mut self, k: (i64, i64))
        ensures
            final(self)@ == without(old(self)@, k),
            forall|j: (i64, i64)|
                #![trigger final(self).value(j)]
                final(self).value(j) == if j == k {
                    None
                } else {
                    old(self).value(j)
                },
    {
        proof {
            use_type_invariant(&*self);
        }
        let ghost old_rows = self@;
        let at = self.position(k);
        if at < self.rows.len() && self.rows[at].0.0 == k.0 && self.rows[at].0.1 == k.1 {
            let mut rows: Vec<((i64, i64), V)> = Vec::new();
            std::mem::swap(&mut rows, &mut self.rows);
            rows.remove(at);
            proof {
                let before = old_rows.take(at as int);
                let tail = old_rows.skip(at + 1);
                assert(old_rows =~= before + seq![old_rows[at as int]] + tail);
                assert(rows@ =~= before + tail);
                assert forall|t: int| 0 <= t < tail.len() implies #[trigger] tail[t].0 != k by {
                    assert(tail[t] == old_rows[at + 1 + t]);
                    assert(key_lt(old_rows[at as int].0, old_rows[at + 1 + t].0));
                }
                assert forall|t: int| 0 <= t < before.len() implies #[trigger] before[t].0 != k by {
                    assert(before[t] == old_rows[t]);
                    assert(key_lt(old_rows[t].0, old_rows[at as int].0));
                }
                lemma_value_absent(tail, k);
                lemma_value_absent(before, k);
                lemma_without_absent(tail, k);
                lemma_without_absent(before, k);
                lemma_without_concat(before + seq![old_rows[at as int]], tail, k);
                lemma_without_concat(before, seq![old_rows[at as int]], k);
                assert(seq![old_rows[at as int]].drop_last() =~= Seq::<((i64, i64), V)>::empty());
                assert(seq![old_rows[at as int]].last() == old_rows[at as int]);
                assert(old_rows[at as int].0 == k);
                assert(without(Seq::<((i64, i64), V)>::empty(), k) == Seq::<((i64, i64), V)>::empty());
                assert(without(seq![old_rows[at as int]], k) =~= Seq::<((i64, i64), V)>::empty());
                assert(before + Seq::<((i64, i64), V)>::empty() + tail =~= rows@);
                assert forall|j: (i64, i64)| #[trigger]
                    value_in(rows@, j) == if j == k {
                        None
                    } else {
                        value_in(old_rows, j)
                    } by {
                    lemma_value_concat(before + seq![old_rows[at as int]], tail, j);
                    lemma_value_concat(before, seq![old_rows[at as int]], j);
                    lemma_value_concat(before, tail, j);
                    lemma_value_single(old_rows[at as int], j);
                }
                assert forall|a: int, b: int| 0 <= a < b < rows@.len() implies #[trigger] key_lt(
                    rows@[a].0,
                    rows@[b].0,
                ) by {
                    if b < at {
                        assert(rows@[a] == old_rows[a] && rows@[b] == old_rows[b]);
                    } else if a < at {
                        assert(rows@[a] == old_rows[a] && rows@[b] == old_rows[b + 1]);
                    } else {
                        assert(rows@[a] == old_rows[a + 1] && rows@[b] == old_rows[b + 1]);
                    }
                }
            }
            self.rows = rows;
        } else {
            proof {
                lemma_not_in_sorted(old_rows, at as int, k);
                lemma_without_absent(old_rows, k);
            }
        }
    }
}

impl<V: Copy> Clone for Ledger<V> {
    fn clone(&self) -> (copy: Ledger<V>)
        ensures
            copy@ == self@,
    {
        proof {
            use_type_invariant(self);
        }
        let mut rows: Vec<((i64, i64), V)> = Vec::new();
        let mut i: usize = 0;
        while i < self.rows.len()
            invariant
                0 <= i <= self.rows@.len(),
                rows@ == self.rows@.take(i as int),
            decreases self.rows@.len() - i,
        {
            rows.push(self.rows[i]);
            i = i + 1;
            assert(rows@ =~= self.rows@.take(i as int));
        }
        assert(self.rows@.take(i as int) =~= self.rows@);
        Ledger { rows }
    }
}

} // verus!
