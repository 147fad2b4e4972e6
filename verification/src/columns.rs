//! The columns a survey has covered and what it found under them, kept the
//! way a set and a map keep them: each column once, in column order, a later
//! finding for a column replacing an earlier one.
use vstd::prelude::*;

verus! {

/// Column order: by x, then by z.
pub open spec fn column_before(a: (i32, i32), b: (i32, i32)) -> bool {
    a.0 < b.0 || (a.0 == b.0 && a.1 < b.1)
}

/// Each column once, in column order.
pub open spec fn columns_in_order(s: Seq<(i32, i32)>) -> bool {
    forall|i: int, j: int| 0 <= i < j < s.len() ==> #[trigger] column_before(s[i], s[j])
}

/// Each column's finding once, in column order.
pub open spec fn hits_in_order(s: Seq<((i32, i32), (i32, i32))>) -> bool {
    forall|i: int, j: int| 0 <= i < j < s.len() ==> #[trigger] column_before(s[i].0, s[j].0)
}

/// A set of columns in column order with `c` added to it.
pub open spec fn with_column(t: Seq<(i32, i32)>, c: (i32, i32)) -> Seq<(i32, i32)>
    decreases t.len(),
{
    if t.len() == 0 {
        seq![c]
    } else if column_before(t.last(), c) {
        t.push(c)
    } else if t.last() == c {
        t
    } else {
        with_column(t.drop_last(), c).push(t.last())
    }
}

/// The columns of `s` as a set: each once, in column order.
pub open spec fn column_set(s: Seq<(i32, i32)>) -> Seq<(i32, i32)>
    decreases s.len(),
{
    if s.len() == 0 {
        Seq::empty()
    } else {
        with_column(column_set(s.drop_last()), s.last())
    }
}

/// Findings in column order with `h` recorded, replacing any earlier finding
/// for its column.
pub open spec fn with_hit(t: Seq<((i32, i32), (i32, i32))>, h: ((i32, i32), (i32, i32))) -> Seq<
    ((i32, i32), (i32, i32)),
>
    decreases t.len(),
{
    if t.len() == 0 {
        seq![h]
    } else if column_before(t.last().0, h.0) {
        t.push(h)
    } else if t.last().0 == h.0 {
        t.drop_last().push(h)
    } else {
        with_hit(t.drop_last(), h).push(t.last())
    }
}

/// The findings of `s` as a map from column: each column once, in column
/// order, holding the last finding `s` gives it.
pub open spec fn hit_map(s: Seq<((i32, i32), (i32, i32))>) -> Seq<((i32, i32), (i32, i32))>
    decreases s.len(),
{
    if s.len() == 0 {
        Seq::empty()
    } else {
        with_hit(hit_map(s.drop_last()), s.last())
    }
}

proof fn lemma_with_column_below(t: Seq<(i32, i32)>, c: (i32, i32), b: (i32, i32))
    requires
        forall|i: int| 0 <= i < t.len() ==> #[trigger] column_before(t[i], b),
        column_before(c, b),
    ensures
        forall|i: int| 0 <= i < with_column(t, c).len() ==> #[trigger] column_before(with_column(t, c)[i], b),
    decreases t.len(),
{
    if t.len() > 0 && !column_before(t.last(), c) && t.last() != c {
        let d = t.drop_last();
        assert forall|i: int| 0 <= i < d.len() implies #[trigger] column_before(d[i], b) by {
            assert(d[i] == t[i]);
        }
        lemma_with_column_below(d, c, b);
        let w = with_column(d, c);
        assert forall|i: int| 0 <= i < w.push(t.last()).len() implies #[trigger] column_before(
            w.push(t.last())[i],
            b,
        ) by {
            if i < w.len() {
                assert(w.push(t.last())[i] == w[i]);
            } else {
                assert(column_before(t[t.len() - 1], b));
            }
        }
    } else if t.len() > 0 && column_before(t.last(), c) {
        assert forall|i: int| 0 <= i < t.push(c).len() implies #[trigger] column_before(t.push(c)[i], b) by {
            if i < t.len() {
                assert(t.push(c)[i] == t[i]);
            }
        }
    }
}

pub(crate) proof fn lemma_with_column_in_order(t: Seq<(i32, i32)>, c: (i32, i32))
    requires
        columns_in_order(t),
    ensures
        columns_in_order(with_column(t, c)),
    decreases t.len(),
{
    if t.len() == 0 {
        return;
    }
    let last = t.last();
    if column_before(last, c) {
        let w = t.push(c);
        assert forall|i: int, j: int| 0 <= i < j < w.len() implies #[trigger] column_before(w[i], w[j]) by {
            if j < t.len() {
                assert(column_before(t[i], t[j]));
            } else if i < t.len() - 1 {
                assert(column_before(t[i], t[t.len() - 1]));
            }
        }
    } else if last != c {
        let d = t.drop_last();
        assert forall|i: int, j: int| 0 <= i < j < d.len() implies #[trigger] column_before(d[i], d[j]) by {
            assert(column_before(t[i], t[j]));
        }
        lemma_with_column_in_order(d, c);
        assert forall|i: int| 0 <= i < d.len() implies #[trigger] column_before(d[i], last) by {
            assert(column_before(t[i], t[t.len() - 1]));
        }
        lemma_with_column_below(d, c, last);
        let w = with_column(d, c);
        let v = w.push(last);
        assert forall|i: int, j: int| 0 <= i < j < v.len() implies #[trigger] column_before(v[i], v[j]) by {
            assert(v[i] == w[i]);
            if j < w.len() {
                assert(v[j] == w[j]);
                assert(column_before(w[i], w[j]));
            } else {
                assert(column_before(w[i], last));
            }
        }
    }
}

proof fn lemma_column_set_in_order(s: Seq<(i32, i32)>)
    ensures
        columns_in_order(column_set(s)),
    decreases s.len(),
{
    if s.len() > 0 {
        lemma_column_set_in_order(s.drop_last());
        lemma_with_column_in_order(column_set(s.drop_last()), s.last());
    }
}

/// Columns already kept once each in column order are their own set.
pub proof fn lemma_column_set_of_tidy(s: Seq<(i32, i32)>)
    requires
        columns_in_order(s),
    ensures
        column_set(s) == s,
    decreases s.len(),
{
    if s.len() > 0 {
        let d = s.drop_last();
        assert forall|i: int, j: int| 0 <= i < j < d.len() implies #[trigger] column_before(d[i], d[j]) by {
            assert(column_before(s[i], s[j]));
        }
        lemma_column_set_of_tidy(d);
        if d.len() > 0 {
            assert(column_before(s[s.len() - 2], s[s.len() - 1]));
        }
        assert(d.push(s.last()) =~= s);
    }
}

proof fn lemma_with_hit_below(t: Seq<((i32, i32), (i32, i32))>, h: ((i32, i32), (i32, i32)), b: (i32, i32))
    requires
        forall|i: int| 0 <= i < t.len() ==> #[trigger] column_before(t[i].0, b),
        column_before(h.0, b),
    ensures
        forall|i: int| 0 <= i < with_hit(t, h).len() ==> #[trigger] column_before(with_hit(t, h)[i].0, b),
    decreases t.len(),
{
    if t.len() == 0 {
        return;
    }
    let d = t.drop_last();
    assert forall|i: int| 0 <= i < d.len() implies #[trigger] column_before(d[i].0, b) by {
        assert(d[i] == t[i]);
    }
    if column_before(t.last().0, h.0) {
        assert forall|i: int| 0 <= i < t.push(h).len() implies #[trigger] column_before(t.push(h)[i].0, b) by {
            if i < t.len() {
                assert(t.push(h)[i] == t[i]);
            }
        }
    } else if t.last().0 == h.0 {
        assert forall|i: int| 0 <= i < d.push(h).len() implies #[trigger] column_before(d.push(h)[i].0, b) by {
            if i < d.len() {
                assert(d.push(h)[i] == d[i]);
            }
        }
    } else {
        lemma_with_hit_below(d, h, b);
        let w = with_hit(d, h);
        assert forall|i: int| 0 <= i < w.push(t.last()).len() implies #[trigger] column_before(
            w.push(t.last())[i].0,
            b,
        ) by {
            if i < w.len() {
                assert(w.push(t.last())[i] == w[i]);
            } else {
                assert(column_before(t[t.len() - 1].0, b));
            }
        }
    }
}

pub(crate) proof fn lemma_with_hit_in_order(t: Seq<((i32, i32), (i32, i32))>, h: ((i32, i32), (i32, i32)))
    requires
        hits_in_order(t),
    ensures
        hits_in_order(with_hit(t, h)),
    decreases t.len(),
{
    if t.len() == 0 {
        return;
    }
    let last = t.last();
    let d = t.drop_last();
    assert forall|i: int, j: int| 0 <= i < j < d.len() implies #[trigger] column_before(d[i].0, d[j].0) by {
        assert(column_before(t[i].0, t[j].0));
    }
    if column_before(last.0, h.0) {
        let w = t.push(h);
        assert forall|i: int, j: int| 0 <= i < j < w.len() implies #[trigger] column_before(w[i].0, w[j].0) by {
            if j < t.len() {
                assert(column_before(t[i].0, t[j].0));
            } else if i < t.len() - 1 {
                assert(column_before(t[i].0, t[t.len() - 1].0));
            }
        }
    } else if last.0 == h.0 {
        let w = d.push(h);
        assert forall|i: int, j: int| 0 <= i < j < w.len() implies #[trigger] column_before(w[i].0, w[j].0) by {
            if j < d.len() {
                assert(column_before(t[i].0, t[j].0));
            } else {
                assert(column_before(t[i].0, t[t.len() - 1].0));
            }
        }
    } else {
        lemma_with_hit_in_order(d, h);
        assert forall|i: int| 0 <= i < d.len() implies #[trigger] column_before(d[i].0, last.0) by {
            assert(column_before(t[i].0, t[t.len() - 1].0));
        }
        lemma_with_hit_below(d, h, last.0);
        let w = with_hit(d, h);
        let v = w.push(last);
        assert forall|i: int, j: int| 0 <= i < j < v.len() implies #[trigger] column_before(v[i].0, v[j].0) by {
            assert(v[i] == w[i]);
            if j < w.len() {
                assert(v[j] == w[j]);
                assert(column_before(w[i].0, w[j].0));
            } else {
                assert(column_before(w[i].0, last.0));
            }
        }
    }
}

proof fn lemma_hit_map_in_order(s: Seq<((i32, i32), (i32, i32))>)
    ensures
        hits_in_order(hit_map(s)),
    decreases s.len(),
{
    if s.len() > 0 {
        lemma_hit_map_in_order(s.drop_last());
        lemma_with_hit_in_order(hit_map(s.drop_last()), s.last());
    }
}

/// Findings already kept once per column in column order are their own map.
pub proof fn lemma_hit_map_of_tidy(s: Seq<((i32, i32), (i32, i32))>)
    requires
        hits_in_order(s),
    ensures
        hit_map(s) == s,
    decreases s.len(),
{
    if s.len() > 0 {
        let d = s.drop_last();
        assert forall|i: int, j: int| 0 <= i < j < d.len() implies #[trigger] column_before(d[i].0, d[j].0) by {
            assert(column_before(s[i].0, s[j].0));
        }
        lemma_hit_map_of_tidy(d);
        if d.len() > 0 {
            assert(column_before(s[s.len() - 2].0, s[s.len() - 1].0));
        }
        assert(d.push(s.last()) =~= s);
    }
}

proof fn lemma_with_column_split(t: Seq<(i32, i32)>, c: (i32, i32), k: int)
    requires
        0 <= k <= t.len(),
        forall|j: int| k <= j < t.len() ==> #[trigger] column_before(c, t[j]),
    ensures
        with_column(t, c) == with_column(t.take(k), c) + t.skip(k),
    decreases t.len() - k,
{
    if k == t.len() {
        assert(t.take(k) =~= t);
        assert(t.skip(k) =~= Seq::<(i32, i32)>::empty());
        assert(with_column(t, c) + t.skip(k) =~= with_column(t, c));
    } else {
        let d = t.drop_last();
        assert(column_before(c, t[t.len() - 1]));
        assert forall|j: int| k <= j < d.len() implies #[trigger] column_before(c, d[j]) by {
            assert(d[j] == t[j]);
        }
        lemma_with_column_split(d, c, k);
        assert(d.take(k) =~= t.take(k));
        assert(with_column(d.take(k), c) + d.skip(k) + seq![t.last()] =~= with_column(t.take(k), c) + t.skip(
            k,
        ));
        assert((with_column(d.take(k), c) + d.skip(k)).push(t.last()) =~= with_column(d.take(k), c)
            + d.skip(k) + seq![t.last()]);
    }
}

proof fn lemma_with_hit_split(t: Seq<((i32, i32), (i32, i32))>, h: ((i32, i32), (i32, i32)), k: int)
    requires
        0 <= k <= t.len(),
        forall|j: int| k <= j < t.len() ==> #[trigger] column_before(h.0, t[j].0),
    ensures
        with_hit(t, h) == with_hit(t.take(k), h) + t.skip(k),
    decreases t.len() - k,
{
    if k == t.len() {
        assert(t.take(k) =~= t);
        assert(t.skip(k) =~= Seq::<((i32, i32), (i32, i32))>::empty());
        assert(with_hit(t, h) + t.skip(k) =~= with_hit(t, h));
    } else {
        let d = t.drop_last();
        assert(column_before(h.0, t[t.len() - 1].0));
        assert forall|j: int| k <= j < d.len() implies #[trigger] column_before(h.0, d[j].0) by {
            assert(d[j] == t[j]);
        }
        lemma_with_hit_split(d, h, k);
        assert(d.take(k) =~= t.take(k));
        assert(with_hit(d.take(k), h) + d.skip(k) + seq![t.last()] =~= with_hit(t.take(k), h) + t.skip(k));
        assert((with_hit(d.take(k), h) + d.skip(k)).push(t.last()) =~= with_hit(d.take(k), h) + d.skip(k)
            + seq![t.last()]);
    }
}

/// Add a column to a set of them.
pub(crate) fn insert_column(t: &mut Vec<(i32, i32)>, c: (i32, i32))
    ensures
        final(t)@ == with_column(old(t)@, c),
{
    let mut k: usize = t.len();
    while k > 0 && (c.0 < t[k - 1].0 || (c.0 == t[k - 1].0 && c.1 < t[k - 1].1))
        invariant
            k <= t@.len(),
            t@ == old(t)@,
            forall|j: int| k <= j < t@.len() ==> #[trigger] column_before(c, t@[j]),
        decreases k,
    {
        k = k - 1;
    }
    proof {
        lemma_with_column_split(old(t)@, c, k as int);
        if k > 0 {
            assert(t@.take(k as int).last() == t@[k - 1]);
            assert(t@.take(k as int).drop_last() =~= t@.take(k - 1));
        } else {
            assert(t@.take(0) =~= Seq::<(i32, i32)>::empty());
        }
    }
    if k > 0 && t[k - 1].0 == c.0 && t[k - 1].1 == c.1 {
        assert(t@.take(k as int) + t@.skip(k as int) =~= t@);
        return;
    }
    let ghost before = t@;
    t.insert(k, c);
    proof {
        if k > 0 {
            assert(before.take(k as int).push(c) + before.skip(k as int) =~= t@);
        } else {
            assert(seq![c] + before.skip(0) =~= t@);
        }
    }
}

/// Record a finding, replacing any earlier one for its column.
pub(crate) fn insert_hit(t: &mut Vec<((i32, i32), (i32, i32))>, h: ((i32, i32), (i32, i32)))
    ensures
        final(t)@ == with_hit(old(t)@, h),
{
    let mut k: usize = t.len();
    while k > 0 && (h.0.0 < t[k - 1].0.0 || (h.0.0 == t[k - 1].0.0 && h.0.1 < t[k - 1].0.1))
        invariant
            k <= t@.len(),
            t@ == old(t)@,
            forall|j: int| k <= j < t@.len() ==> #[trigger] column_before(h.0, t@[j].0),
        decreases k,
    {
        k = k - 1;
    }
    proof {
        lemma_with_hit_split(old(t)@, h, k as int);
        if k > 0 {
            assert(t@.take(k as int).last() == t@[k - 1]);
            assert(t@.take(k as int).drop_last() =~= t@.take(k - 1));
        } else {
            assert(t@.take(0) =~= Seq::<((i32, i32), (i32, i32))>::empty());
        }
    }
    let ghost before = t@;
    if k > 0 && t[k - 1].0.0 == h.0.0 && t[k - 1].0.1 == h.0.1 {
        t.set(k - 1, h);
        assert(before.take(k - 1).push(h) + before.skip(k as int) =~= t@);
    } else {
        t.insert(k, h);
        proof {
            if k > 0 {
                assert(before.take(k as int).push(h) + before.skip(k as int) =~= t@);
            } else {
                assert(seq![h] + before.skip(0) =~= t@);
            }
        }
    }
}

/// The columns of `s`, each once, in column order.
pub fn column_set_of(s: &Vec<(i32, i32)>) -> (out: Vec<(i32, i32)>)
    ensures
        out@ == column_set(s@),
        columns_in_order(out@),
{
    let mut out: Vec<(i32, i32)> = Vec::new();
    let mut i: usize = 0;
    while i < s.len()
        invariant
            i <= s@.len(),
            out@ == column_set(s@.take(i as int)),
        decreases s@.len() - i,
    {
        proof {
            assert(s@.take(i + 1).drop_last() =~= s@.take(i as int));
        }
        insert_column(&mut out, s[i]);
        i = i + 1;
    }
    proof {
        assert(s@.take(i as int) =~= s@);
        lemma_column_set_in_order(s@);
    }
    out
}

/// The findings of `s`, each column once, in column order, with the last
/// finding `s` gives it.
pub fn hit_map_of(s: &Vec<((i32, i32), (i32, i32))>) -> (out: Vec<((i32, i32), (i32, i32))>)
    ensures
        out@ == hit_map(s@),
        hits_in_order(out@),
{
    let mut out: Vec<((i32, i32), (i32, i32))> = Vec::new();
    let mut i: usize = 0;
    while i < s.len()
        invariant
            i <= s@.len(),
            out@ == hit_map(s@.take(i as int)),
        decreases s@.len() - i,
    {
        proof {
            assert(s@.take(i + 1).drop_last() =~= s@.take(i as int));
        }
        insert_hit(&mut out, s[i]);
        i = i + 1;
    }
    proof {
        assert(s@.take(i as int) =~= s@);
        lemma_hit_map_in_order(s@);
    }
    out
}

} // verus!
