//! A pile of goods: how many of each thing, by name.
//!
//! The one container type in the game. The base pile, a drone's cargo bed, the
//! fleet's orphaned goods and the player's own pack are all a `Stockpile`,
//! because a pile is a pile wherever it lives.
//!
//! Rows are kept in name order, a name appears once, and a row never holds
//! zero of anything — so two piles holding the same goods are the same rows,
//! and the same pile always writes the same bytes.
use vstd::prelude::*;
use vstd::utf8::*;

verus! {

broadcast use encode_utf8_decode_utf8;

/// The bytes a name sorts by: its UTF-8 encoding, which is what orders `str`.
pub open spec fn key(name: Seq<char>) -> Seq<u8> {
    encode_utf8(name)
}

/// Byte-lexicographic order: a proper prefix sorts first.
pub open spec fn lex_lt(a: Seq<u8>, b: Seq<u8>) -> bool
    decreases a.len(),
{
    if b.len() == 0 {
        false
    } else if a.len() == 0 {
        true
    } else if a[0] != b[0] {
        a[0] < b[0]
    } else {
        lex_lt(a.drop_first(), b.drop_first())
    }
}

pub proof fn lemma_lex_irreflexive(a: Seq<u8>)
    ensures
        !lex_lt(a, a),
    decreases a.len(),
{
    if a.len() > 0 {
        lemma_lex_irreflexive(a.drop_first());
    }
}

pub proof fn lemma_lex_asymmetric(a: Seq<u8>, b: Seq<u8>)
    requires
        lex_lt(a, b),
    ensures
        !lex_lt(b, a),
    decreases a.len(),
{
    if a.len() > 0 && b.len() > 0 && a[0] == b[0] {
        lemma_lex_asymmetric(a.drop_first(), b.drop_first());
    }
}

pub proof fn lemma_lex_transitive(a: Seq<u8>, b: Seq<u8>, c: Seq<u8>)
    requires
        lex_lt(a, b),
        lex_lt(b, c),
    ensures
        lex_lt(a, c),
    decreases a.len(),
{
    if a.len() > 0 && b.len() > 0 && c.len() > 0 && a[0] == b[0] && b[0] == c[0] {
        lemma_lex_transitive(a.drop_first(), b.drop_first(), c.drop_first());
    }
}

pub proof fn lemma_lex_total(a: Seq<u8>, b: Seq<u8>)
    requires
        a != b,
    ensures
        lex_lt(a, b) || lex_lt(b, a),
    decreases a.len(),
{
    if a.len() == 0 && b.len() == 0 {
        assert(a =~= b);
    } else if a.len() > 0 && b.len() > 0 && a[0] == b[0] {
        if a.drop_first() == b.drop_first() {
            assert(a =~= seq![a[0]] + a.drop_first());
            assert(b =~= seq![b[0]] + b.drop_first());
        }
        lemma_lex_total(a.drop_first(), b.drop_first());
    }
}

/// Two names with the same bytes are the same name.
pub proof fn lemma_key_injective(a: Seq<char>, b: Seq<char>)
    requires
        key(a) == key(b),
    ensures
        a == b,
{
    assert(decode_utf8(encode_utf8(a)) == a);
    assert(decode_utf8(encode_utf8(b)) == b);
}

/// Rows in strictly increasing name order.
pub open spec fn sorted_rows(rows: Seq<(Seq<char>, u64)>) -> bool {
    forall|i: int, j: int|
        0 <= i < j < rows.len() ==> #[trigger] lex_lt(key(rows[i].0), key(rows[j].0))
}

/// No row holds nothing.
pub open spec fn positive_rows(rows: Seq<(Seq<char>, u64)>) -> bool {
    forall|i: int| 0 <= i < rows.len() ==> #[trigger] rows[i].1 > 0
}

/// What a well-kept pile's rows look like.
pub open spec fn wf_rows(rows: Seq<(Seq<char>, u64)>) -> bool {
    sorted_rows(rows) && positive_rows(rows)
}

/// How many of `k` the rows hold, summed over every row that names it.
pub open spec fn count_in(rows: Seq<(Seq<char>, u64)>, k: Seq<char>) -> nat
    decreases rows.len(),
{
    if rows.len() == 0 {
        0
    } else {
        count_in(rows.drop_last(), k) + if rows.last().0 == k {
            rows.last().1 as nat
        } else {
            0
        }
    }
}

/// How many things the rows hold, whatever they are.
pub open spec fn sum_in(rows: Seq<(Seq<char>, u64)>) -> nat
    decreases rows.len(),
{
    if rows.len() == 0 {
        0
    } else {
        sum_in(rows.drop_last()) + rows.last().1 as nat
    }
}

/// A `u64` sum that stops at the top rather than wrapping.
pub open spec fn capped(x: int) -> u64 {
    if x > u64::MAX {
        u64::MAX
    } else {
        x as u64
    }
}

pub proof fn lemma_count_concat(a: Seq<(Seq<char>, u64)>, b: Seq<(Seq<char>, u64)>, k: Seq<char>)
    ensures
        count_in(a + b, k) == count_in(a, k) + count_in(b, k),
    decreases b.len(),
{
    if b.len() == 0 {
        assert(a + b =~= a);
    } else {
        assert((a + b).drop_last() =~= a + b.drop_last());
        lemma_count_concat(a, b.drop_last(), k);
    }
}

pub proof fn lemma_sum_concat(a: Seq<(Seq<char>, u64)>, b: Seq<(Seq<char>, u64)>)
    ensures
        sum_in(a + b) == sum_in(a) + sum_in(b),
    decreases b.len(),
{
    if b.len() == 0 {
        assert(a + b =~= a);
    } else {
        assert((a + b).drop_last() =~= a + b.drop_last());
        lemma_sum_concat(a, b.drop_last());
    }
}

pub proof fn lemma_count_single(r: (Seq<char>, u64), k: Seq<char>)
    ensures
        count_in(seq![r], k) == if r.0 == k {
            r.1 as nat
        } else {
            0
        },
{
    assert(seq![r].drop_last() =~= Seq::<(Seq<char>, u64)>::empty());
    assert(seq![r].last() == r);
    assert(count_in(Seq::<(Seq<char>, u64)>::empty(), k) == 0);
}

pub proof fn lemma_sum_single(r: (Seq<char>, u64))
    ensures
        sum_in(seq![r]) == r.1 as nat,
{
    assert(seq![r].drop_last() =~= Seq::<(Seq<char>, u64)>::empty());
    assert(seq![r].last() == r);
    assert(sum_in(Seq::<(Seq<char>, u64)>::empty()) == 0);
}

/// A name no row carries is counted as none.
pub proof fn lemma_count_absent(rows: Seq<(Seq<char>, u64)>, k: Seq<char>)
    requires
        forall|i: int| 0 <= i < rows.len() ==> #[trigger] rows[i].0 != k,
    ensures
        count_in(rows, k) == 0,
    decreases rows.len(),
{
    if rows.len() > 0 {
        lemma_count_absent(rows.drop_last(), k);
    }
}

/// In sorted rows, the count of a name is the count on its one row.
/// No good is held more of than everything together.
pub proof fn lemma_count_le_sum(rows: Seq<(Seq<char>, u64)>, k: Seq<char>)
    ensures
        count_in(rows, k) <= sum_in(rows),
    decreases rows.len(),
{
    if rows.len() > 0 {
        lemma_count_le_sum(rows.drop_last(), k);
    }
}

pub proof fn lemma_count_at(rows: Seq<(Seq<char>, u64)>, i: int)
    requires
        sorted_rows(rows),
        0 <= i < rows.len(),
    ensures
        count_in(rows, rows[i].0) == rows[i].1 as nat,
{
    let k = rows[i].0;
    let before = rows.take(i);
    let after = rows.skip(i + 1);
    assert(rows =~= before + seq![rows[i]] + after);
    assert forall|j: int| 0 <= j < before.len() implies #[trigger] before[j].0 != k by {
        assert(lex_lt(key(rows[j].0), key(rows[i].0)));
        lemma_lex_irreflexive(key(k));
    }
    assert forall|j: int| 0 <= j < after.len() implies #[trigger] after[j].0 != k by {
        assert(after[j] == rows[i + 1 + j]);
        assert(lex_lt(key(rows[i].0), key(rows[i + 1 + j].0)));
        lemma_lex_irreflexive(key(k));
    }
    lemma_count_absent(before, k);
    lemma_count_absent(after, k);
    lemma_count_concat(before + seq![rows[i]], after, k);
    lemma_count_concat(before, seq![rows[i]], k);
    lemma_count_single(rows[i], k);
}

/// In sorted rows, a name with a count is on some row.
pub proof fn lemma_count_bounded(rows: Seq<(Seq<char>, u64)>, k: Seq<char>)
    requires
        sorted_rows(rows),
    ensures
        count_in(rows, k) <= u64::MAX,
        count_in(rows, k) > 0 ==> exists|i: int| 0 <= i < rows.len() && #[trigger] rows[i].0 == k,
{
    if exists|i: int| 0 <= i < rows.len() && #[trigger] rows[i].0 == k {
        let i = choose|i: int| 0 <= i < rows.len() && #[trigger] rows[i].0 == k;
        lemma_count_at(rows, i);
    } else {
        lemma_count_absent(rows, k);
    }
}

/// Byte order of two names, as `-1`, `0` or `1`.
pub fn byte_order(a: &[u8], b: &[u8]) -> (r: i8)
    ensures
        r == -1 <==> lex_lt(a@, b@),
        r == 0 <==> a@ == b@,
        r == 1 <==> lex_lt(b@, a@),
        r == -1 || r == 0 || r == 1,
{
    let mut i: usize = 0;
    assert(a@.skip(0) =~= a@);
    assert(b@.skip(0) =~= b@);
    while i < a.len() && i < b.len() && a[i] == b[i]
        invariant
            0 <= i <= a@.len(),
            i <= b@.len(),
            a@.subrange(0, i as int) == b@.subrange(0, i as int),
            lex_lt(a@, b@) == lex_lt(a@.skip(i as int), b@.skip(i as int)),
            lex_lt(b@, a@) == lex_lt(b@.skip(i as int), a@.skip(i as int)),
        decreases a@.len() - i,
    {
        assert(a@.skip(i as int).drop_first() =~= a@.skip(i + 1));
        assert(b@.skip(i as int).drop_first() =~= b@.skip(i + 1));
        i = i + 1;
        assert(a@.subrange(0, i as int) =~= a@.subrange(0, i - 1) + seq![a@[i - 1]]);
        assert(b@.subrange(0, i as int) =~= b@.subrange(0, i - 1) + seq![b@[i - 1]]);
    }
    let ghost sa = a@.skip(i as int);
    let ghost sb = b@.skip(i as int);
    if i == a.len() && i == b.len() {
        assert(a@ =~= a@.subrange(0, i as int));
        assert(b@ =~= b@.subrange(0, i as int));
        proof { lemma_lex_irreflexive(a@); }
        0
    } else if i == a.len() {
        assert(sa.len() == 0 && sb.len() > 0);
        assert(a@ != b@) by {
            if a@ == b@ {
                assert(a@.len() == b@.len());
            }
        }
        -1
    } else if i == b.len() {
        assert(sb.len() == 0 && sa.len() > 0);
        assert(a@ != b@) by {
            if a@ == b@ {
                assert(a@.len() == b@.len());
            }
        }
        1
    } else if a[i] < b[i] {
        assert(sa[0] == a@[i as int] && sb[0] == b@[i as int]);
        assert(a@ != b@) by {
            if a@ == b@ {
                assert(a@[i as int] == b@[i as int]);
            }
        }
        -1
    } else {
        assert(sa[0] == a@[i as int] && sb[0] == b@[i as int]);
        assert(a@ != b@) by {
            if a@ == b@ {
                assert(a@[i as int] == b@[i as int]);
            }
        }
        1
    }
}

/// How many of each thing, in name order.
#[derive(Debug, PartialEq, Eq)]
pub struct Stockpile {
    rows: Vec<(String, u64)>,
}

/// Whether two names are the same name.
pub fn same_name(a: &str, b: &str) -> (same: bool)
    ensures
        same == (a@ == b@),
{
    let r = byte_order(a.as_bytes(), b.as_bytes());
    proof {
        if r == 0 {
            lemma_key_injective(a@, b@);
        }
    }
    r == 0
}

/// The rows of a pile as names and counts.
pub open spec fn rows_view(rows: Seq<(String, u64)>) -> Seq<(Seq<char>, u64)> {
    rows.map_values(|r: (String, u64)| (r.0@, r.1))
}

impl View for Stockpile {
    type V = Seq<(Seq<char>, u64)>;

    closed spec fn view(&self) -> Seq<(Seq<char>, u64)> {
        rows_view(self.rows@)
    }
}

impl Clone for Stockpile {
    fn clone(&self) -> (copy: Stockpile)
        ensures
            copy@ == self@,
    {
        proof {
            use_type_invariant(self);
        }
        let mut rows: Vec<(String, u64)> = Vec::new();
        let mut i: usize = 0;
        while i < self.rows.len()
            invariant
                0 <= i <= self.rows@.len(),
                rows@.len() == i,
                rows_view(rows@) == rows_view(self.rows@).take(i as int),
            decreases self.rows@.len() - i,
        {
            let name = self.rows[i].0.clone();
            let ghost prior = rows@;
            rows.push((name, self.rows[i].1));
            assert(rows@ == prior.push((name, self.rows@[i as int].1)));
            assert(rows_view(rows@)[i as int] == rows_view(self.rows@)[i as int]);
            i = i + 1;
            assert(rows_view(rows@) =~= rows_view(self.rows@).take(i as int));
        }
        assert(rows_view(self.rows@).take(i as int) =~= rows_view(self.rows@));
        Stockpile { rows }
    }
}

impl Stockpile {
    #[verifier::type_invariant]
    closed spec fn well_kept(self) -> bool {
        wf_rows(rows_view(self.rows@))
    }

    /// How many of `k` this pile holds.
    pub open spec fn count_of(&self, k: Seq<char>) -> nat {
        count_in(self@, k)
    }

    /// How many things this pile holds.
    pub open spec fn sum(&self) -> nat {
        sum_in(self@)
    }

    /// Every pile keeps its rows in name order, once each, none empty.
    pub fn note_well_kept(&self)
        ensures
            wf_rows(self@),
    {
        proof {
            use_type_invariant(self);
        }
    }

    /// An empty pile.
    pub fn new() -> (pile: Stockpile)
        ensures
            pile@ == Seq::<(Seq<char>, u64)>::empty(),
    {
        let pile = Stockpile { rows: Vec::new() };
        assert(pile@ =~= Seq::<(Seq<char>, u64)>::empty());
        pile
    }

    /// How many of `name` are in the pile.
    pub fn count(&self, name: &str) -> (n: u64)
        ensures
            n as nat == self.count_of(name@),
    {
        proof {
            use_type_invariant(self);
        }
        let want = name.as_bytes();
        let mut i: usize = 0;
        while i < self.rows.len()
            invariant
                0 <= i <= self.rows@.len(),
                wf_rows(self@),
                self@.len() == self.rows@.len(),
                want@ == key(name@),
                forall|j: int| 0 <= j < i ==> #[trigger] self@[j].0 != name@,
            decreases self.rows@.len() - i,
        {
            let here = self.rows[i].0.as_str().as_bytes();
            assert(self@[i as int].0 == self.rows@[i as int].0@);
            if byte_order(here, want) == 0 {
                proof {
                    lemma_key_injective(self@[i as int].0, name@);
                    lemma_count_at(self@, i as int);
                }
                return self.rows[i].1;
            }
            i = i + 1;
        }
        proof {
            lemma_count_absent(self@, name@);
        }
        0
    }

    /// How many things are in the pile, ignoring what they are.
    pub fn total(&self) -> (n: u64)
        ensures
            n == capped(self.sum() as int),
    {
        let mut n: u64 = 0;
        let mut i: usize = 0;
        while i < self.rows.len()
            invariant
                0 <= i <= self.rows@.len(),
                self@.len() == self.rows@.len(),
                n == capped(sum_in(self@.take(i as int)) as int),
            decreases self.rows@.len() - i,
        {
            proof {
                assert(self@.take(i + 1).drop_last() =~= self@.take(i as int));
                assert(self@.take(i + 1).last() == self@[i as int]);
            }
            n = n.saturating_add(self.rows[i].1);
            i = i + 1;
        }
        assert(self@.take(i as int) =~= self@);
        n
    }

    /// Nothing in it.
    pub fn is_empty(&self) -> (empty: bool)
        ensures
            empty <==> self@.len() == 0,
            empty <==> self.sum() == 0,
    {
        proof {
            use_type_invariant(self);
            if self@.len() > 0 {
                assert(self@ =~= self@.drop_last().push(self@.last()));
                assert(self@.last().1 > 0);
            }
        }
        self.rows.len() == 0
    }

    /// Every row, in name order.
    pub fn entries(&self) -> (rows: &[(String, u64)])
        ensures
            rows_view(rows@) == self@,
    {
        self.rows.as_slice()
    }

    /// Put `amount` of `name` in. Nothing happens for none.
    ///
    /// A count that would pass the top of a `u64` stops there.
    pub fn add(&mut self, name: &str, amount: u64)
        ensures
            forall|k: Seq<char>|
                #![trigger final(self).count_of(k)]
                final(self).count_of(k) == if k == name@ {
                    capped(old(self).count_of(k) + amount) as nat
                } else {
                    old(self).count_of(k)
                },
            final(self).sum() == if old(self).count_of(name@) + amount > u64::MAX {
                old(self).sum() - old(self).count_of(name@) + u64::MAX
            } else {
                old(self).sum() + amount
            },
            (forall|i: int|
                0 <= i < old(self)@.len() ==> #[trigger] lex_lt(key(old(self)@[i].0), key(name@)))
                && amount > 0 ==> final(self)@ == old(self)@.push((name@, amount)),
            amount > 0 ==> (exists|i: int|
                0 <= i < old(self)@.len() && old(self)@[i].0 == name@ && final(self)@ == old(
                    self,
                )@.update(i, (name@, capped(old(self)@[i].1 + amount))))
                || (old(self).count_of(name@) == 0 && exists|i: int|
                0 <= i <= old(self)@.len() && final(self)@ == old(self)@.insert(i, (name@, amount))),
    {
        proof {
            use_type_invariant(&*self);
        }
        if amount == 0 {
            proof {
                lemma_count_bounded(self@, name@);
            }
            return;
        }
        let ghost old_rows = self@;
        let mut rows: Vec<(String, u64)> = Vec::new();
        std::mem::swap(&mut rows, &mut self.rows);
        assert(rows_view(rows@) == old_rows);
        let want = name.as_bytes();
        let mut i: usize = 0;
        while i < rows.len() && byte_order(rows[i].0.as_str().as_bytes(), want) == -1
            invariant
                0 <= i <= rows@.len(),
                rows_view(rows@) == old_rows,
                wf_rows(old_rows),
                want@ == key(name@),
                forall|j: int| 0 <= j < i ==> #[trigger] lex_lt(key(old_rows[j].0), key(name@)),
            decreases rows@.len() - i,
        {
            assert(old_rows[i as int].0 == rows@[i as int].0@);
            i = i + 1;
        }
        let found = i < rows.len() && byte_order(rows[i].0.as_str().as_bytes(), want) == 0;
        proof {
            if i < rows.len() {
                assert(old_rows[i as int].0 == rows@[i as int].0@);
                if found {
                    lemma_key_injective(old_rows[i as int].0, name@);
                } else {
                    assert(!lex_lt(key(old_rows[i as int].0), key(name@)));
                }
            }
        }
        if found {
            let was = rows[i].1;
            let now = was.saturating_add(amount);
            let label = rows[i].0.clone();
            rows.set(i, (label, now));
            proof {
                assert(rows_view(rows@) =~= old_rows.update(i as int, (name@, now)));
                lemma_count_at(old_rows, i as int);
                lemma_update_row(old_rows, i as int, now);
                if forall|j: int|
                    0 <= j < old_rows.len() ==> #[trigger] lex_lt(key(old_rows[j].0), key(name@)) {
                    assert(lex_lt(key(old_rows[i as int].0), key(name@)));
                    lemma_lex_irreflexive(key(name@));
                }
            }
            self.rows = rows;
        } else {
            let label = name.to_owned();
            proof {
                if i < old_rows.len() {
                    assert(lex_lt(key(name@), key(old_rows[i as int].0))) by {
                        assert(key(old_rows[i as int].0) != key(name@));
                        lemma_lex_total(key(old_rows[i as int].0), key(name@));
                    }
                }
            }
            rows.insert(i, (label, amount));
            proof {
                assert(rows_view(rows@) =~= old_rows.insert(i as int, (name@, amount)));
                lemma_insert_row(old_rows, i as int, name@, amount);
            }
            self.rows = rows;
        }
    }

    /// Take up to `amount` of `name` out, and say how many came.
    ///
    /// A row taken down to nothing is gone from the pile.
    pub fn take(&mut self, name: &str, amount: u64) -> (taken: u64)
        ensures
            taken as nat == if old(self).count_of(name@) < amount {
                old(self).count_of(name@)
            } else {
                amount as nat
            },
            forall|k: Seq<char>|
                #![trigger final(self).count_of(k)]
                final(self).count_of(k) == if k == name@ {
                    (old(self).count_of(k) - taken) as nat
                } else {
                    old(self).count_of(k)
                },
            final(self).sum() == old(self).sum() - taken,
    {
        proof {
            use_type_invariant(&*self);
        }
        let ghost old_rows = self@;
        let want = name.as_bytes();
        let mut i: usize = 0;
        while i < self.rows.len() && byte_order(self.rows[i].0.as_str().as_bytes(), want) != 0
            invariant
                0 <= i <= self.rows@.len(),
                self@ == old_rows,
                wf_rows(old_rows),
                self@.len() == self.rows@.len(),
                want@ == key(name@),
                forall|j: int| 0 <= j < i ==> #[trigger] old_rows[j].0 != name@,
            decreases self.rows@.len() - i,
        {
            assert(old_rows[i as int].0 == self.rows@[i as int].0@);
            i = i + 1;
        }
        if i == self.rows.len() || byte_order(self.rows[i].0.as_str().as_bytes(), want) != 0 {
            proof {
                lemma_count_absent(old_rows, name@);
            }
            return 0;
        }
        proof {
            assert(old_rows[i as int].0 == self.rows@[i as int].0@);
            lemma_key_injective(old_rows[i as int].0, name@);
            lemma_count_at(old_rows, i as int);
        }
        let mut rows: Vec<(String, u64)> = Vec::new();
        std::mem::swap(&mut rows, &mut self.rows);
        let was = rows[i].1;
        let taken = if was < amount { was } else { amount };
        if taken == was {
            rows.remove(i);
            proof {
                assert(rows_view(rows@) =~= old_rows.remove(i as int));
                lemma_remove_row(old_rows, i as int);
            }
        } else {
            let label = rows[i].0.clone();
            rows.set(i, (label, was - taken));
            proof {
                assert(rows_view(rows@) =~= old_rows.update(i as int, (name@, (was - taken) as u64)));
                lemma_update_row(old_rows, i as int, (was - taken) as u64);
            }
        }
        self.rows = rows;
        taken
    }

    /// Empty it, handing back what was in it, in name order.
    pub fn drain(&mut self) -> (goods: Vec<(String, u64)>)
        ensures
            rows_view(goods@) == old(self)@,
            final(self)@.len() == 0,
    {
        let mut rows: Vec<(String, u64)> = Vec::new();
        std::mem::swap(&mut rows, &mut self.rows);
        assert(rows_view(self.rows@) =~= Seq::<(Seq<char>, u64)>::empty());
        rows
    }
}

/// Dropping one row of sorted rows forgets that name and nothing else.
proof fn lemma_remove_row(rows: Seq<(Seq<char>, u64)>, i: int)
    requires
        wf_rows(rows),
        0 <= i < rows.len(),
    ensures
        wf_rows(rows.remove(i)),
        forall|k: Seq<char>|
            #![trigger count_in(rows.remove(i), k)]
            count_in(rows.remove(i), k) == if k == rows[i].0 {
                0
            } else {
                count_in(rows, k)
            },
        sum_in(rows.remove(i)) == sum_in(rows) - rows[i].1,
{
    let new = rows.remove(i);
    let before = rows.take(i);
    let tail = rows.skip(i + 1);
    assert(rows =~= before + seq![rows[i]] + tail);
    assert(new =~= before + tail);
    assert forall|k: Seq<char>| #[trigger]
        count_in(new, k) == if k == rows[i].0 {
            0
        } else {
            count_in(rows, k)
        } by {
        lemma_count_concat(before + seq![rows[i]], tail, k);
        lemma_count_concat(before, seq![rows[i]], k);
        lemma_count_concat(before, tail, k);
        lemma_count_single(rows[i], k);
        if k == rows[i].0 {
            lemma_count_at(rows, i);
        }
    }
    lemma_sum_concat(before + seq![rows[i]], tail);
    lemma_sum_concat(before, seq![rows[i]]);
    lemma_sum_concat(before, tail);
    lemma_sum_single(rows[i]);
    assert forall|a: int, b: int| 0 <= a < b < new.len() implies #[trigger] lex_lt(
        key(new[a].0),
        key(new[b].0),
    ) by {
        if b < i {
            assert(new[a] == rows[a] && new[b] == rows[b]);
        } else if a < i {
            assert(new[a] == rows[a] && new[b] == rows[b + 1]);
        } else {
            assert(new[a] == rows[a + 1] && new[b] == rows[b + 1]);
        }
    }
    assert forall|a: int| 0 <= a < new.len() implies #[trigger] new[a].1 > 0 by {
        if a < i {
            assert(new[a] == rows[a]);
        } else {
            assert(new[a] == rows[a + 1]);
        }
    }
}

/// Changing the count on one row of sorted rows changes that name's count and
/// nothing else's, and keeps the rows sorted.
proof fn lemma_update_row(rows: Seq<(Seq<char>, u64)>, i: int, now: u64)
    requires
        wf_rows(rows),
        0 <= i < rows.len(),
        now > 0,
    ensures
        wf_rows(rows.update(i, (rows[i].0, now))),
        forall|k: Seq<char>|
            #![trigger count_in(rows.update(i, (rows[i].0, now)), k)]
            count_in(rows.update(i, (rows[i].0, now)), k) == if k == rows[i].0 {
                now as nat
            } else {
                count_in(rows, k)
            },
        sum_in(rows.update(i, (rows[i].0, now))) == sum_in(rows) - rows[i].1 + now,
{
    let row = (rows[i].0, now);
    let new = rows.update(i, row);
    let before = rows.take(i);
    let tail = rows.skip(i + 1);
    assert(rows =~= before + seq![rows[i]] + tail);
    assert(new =~= before + seq![row] + tail);
    assert forall|k: Seq<char>| #[trigger]
        count_in(new, k) == if k == rows[i].0 {
            now as nat
        } else {
            count_in(rows, k)
        } by {
        lemma_count_concat(before + seq![rows[i]], tail, k);
        lemma_count_concat(before + seq![row], tail, k);
        lemma_count_concat(before, seq![rows[i]], k);
        lemma_count_concat(before, seq![row], k);
        lemma_count_single(row, k);
        lemma_count_single(rows[i], k);
        if k == rows[i].0 {
            lemma_count_at(rows, i);
        }
    }
    lemma_sum_concat(before + seq![rows[i]], tail);
    lemma_sum_concat(before + seq![row], tail);
    lemma_sum_concat(before, seq![rows[i]]);
    lemma_sum_concat(before, seq![row]);
    lemma_sum_single(row);
    lemma_sum_single(rows[i]);
    assert forall|a: int, b: int| 0 <= a < b < new.len() implies #[trigger] lex_lt(
        key(new[a].0),
        key(new[b].0),
    ) by {
        assert(new[a].0 == rows[a].0);
        assert(new[b].0 == rows[b].0);
    }
}

/// Putting a new name into sorted rows where it belongs counts it and keeps
/// the rows sorted; put after every other name, it lands at the end.
proof fn lemma_insert_row(rows: Seq<(Seq<char>, u64)>, i: int, name: Seq<char>, amount: u64)
    requires
        wf_rows(rows),
        0 <= i <= rows.len(),
        amount > 0,
        forall|j: int| 0 <= j < i ==> #[trigger] lex_lt(key(rows[j].0), key(name)),
        i < rows.len() ==> lex_lt(key(name), key(rows[i].0)),
    ensures
        wf_rows(rows.insert(i, (name, amount))),
        count_in(rows, name) == 0,
        forall|k: Seq<char>|
            #![trigger count_in(rows.insert(i, (name, amount)), k)]
            count_in(rows.insert(i, (name, amount)), k) == if k == name {
                amount as nat
            } else {
                count_in(rows, k)
            },
        sum_in(rows.insert(i, (name, amount))) == sum_in(rows) + amount,
        i == rows.len() ==> rows.insert(i, (name, amount)) == rows.push((name, amount)),
        (forall|j: int| 0 <= j < rows.len() ==> #[trigger] lex_lt(key(rows[j].0), key(name)))
            ==> i == rows.len(),
{
    let row = (name, amount);
    let new = rows.insert(i, row);
    let before = rows.take(i);
    let after = rows.skip(i);
    assert(rows =~= before + after);
    assert(new =~= before + seq![row] + after);
    assert forall|j: int| 0 <= j < rows.len() implies #[trigger] rows[j].0 != name by {
        if j < i {
            lemma_lex_irreflexive(key(name));
        } else {
            if j > i {
                assert(lex_lt(key(rows[i].0), key(rows[j].0)));
                lemma_lex_transitive(key(name), key(rows[i].0), key(rows[j].0));
            }
            lemma_lex_irreflexive(key(name));
        }
    }
    lemma_count_absent(rows, name);
    assert forall|k: Seq<char>| #[trigger]
        count_in(new, k) == if k == name {
            amount as nat
        } else {
            count_in(rows, k)
        } by {
        lemma_count_concat(before + seq![row], after, k);
        lemma_count_concat(before, seq![row], k);
        lemma_count_concat(before, after, k);
        lemma_count_single(row, k);
    }
    lemma_sum_concat(before + seq![row], after);
    lemma_sum_concat(before, seq![row]);
    lemma_sum_concat(before, after);
    lemma_sum_single(row);
    assert forall|a: int, b: int| 0 <= a < b < new.len() implies #[trigger] lex_lt(
        key(new[a].0),
        key(new[b].0),
    ) by {
        if b < i {
            assert(new[a] == rows[a] && new[b] == rows[b]);
        } else if b == i {
            assert(new[a] == rows[a]);
        } else if a == i {
            assert(new[b] == rows[b - 1]);
            if b - 1 > i {
                assert(lex_lt(key(rows[i].0), key(rows[b - 1].0)));
                lemma_lex_transitive(key(name), key(rows[i].0), key(rows[b - 1].0));
            }
        } else if a < i {
            assert(new[a] == rows[a] && new[b] == rows[b - 1]);
        } else {
            assert(new[a] == rows[a - 1] && new[b] == rows[b - 1]);
        }
    }
    assert forall|a: int| 0 <= a < new.len() implies #[trigger] new[a].1 > 0 by {
        if a < i {
            assert(new[a] == rows[a]);
        } else if a > i {
            assert(new[a] == rows[a - 1]);
        }
    }
    if i == rows.len() {
        assert(new =~= rows.push(row));
    }
    if forall|j: int| 0 <= j < rows.len() ==> #[trigger] lex_lt(key(rows[j].0), key(name)) {
        if i < rows.len() {
            lemma_lex_asymmetric(key(rows[i].0), key(name));
        }
    }
}

} // verus!
