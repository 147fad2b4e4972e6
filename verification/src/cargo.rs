//! How a pile of goods is written down in a save file.
//!
//! The same layout in every ledger that carries goods — the pack, the base
//! pile, a drone's bed, a flier's hold: a count of rows, then per row the
//! name's length, the name as UTF-8, and how many.
use vstd::prelude::*;
use vstd::utf8::*;

use crate::bytes::{
    bytes_at, lemma_u32_bytes_len, lemma_u32_round_trip, lemma_u64_bytes_len,
    lemma_u64_round_trip, put_bytes, put_u32, put_u64, read_bytes, read_u32, read_u64,
    stands_at, u32_at, u32_bytes, u64_at, u64_bytes,
};
use crate::stockpile::{
    capped, count_in, key, lemma_count_bounded, lex_lt, rows_view, wf_rows, Stockpile,
};

verus! {

broadcast use {encode_utf8_decode_utf8, encode_utf8_valid_utf8};

/// Wraps std's `String::from_utf8`: the bytes as text when they are valid
/// UTF-8, and nothing otherwise. The contract claims what std documents —
/// that it succeeds exactly on valid UTF-8 and that the text decodes from
/// those bytes.
#[verifier::external_body]
pub(crate) fn string_from_utf8(bytes: Vec<u8>) -> (text: Option<String>)
    ensures
        text is Some <==> valid_utf8(bytes@),
        text matches Some(t) ==> t@ == decode_utf8(bytes@),
{
    String::from_utf8(bytes).ok()
}

/// One row: the name's length, the name, the count.
pub open spec fn good_row_bytes(r: (Seq<char>, u64)) -> Seq<u8> {
    u32_bytes(key(r.0).len() as u32) + key(r.0) + u64_bytes(r.1)
}

/// Rows, one after another.
pub open spec fn good_rows_bytes(rows: Seq<(Seq<char>, u64)>) -> Seq<u8>
    decreases rows.len(),
{
    if rows.len() == 0 {
        Seq::empty()
    } else {
        good_rows_bytes(rows.drop_last()) + good_row_bytes(rows.last())
    }
}

/// A count of rows and then the rows.
pub open spec fn pile_bytes(rows: Seq<(Seq<char>, u64)>) -> Seq<u8> {
    u32_bytes(rows.len() as u32) + good_rows_bytes(rows)
}

/// The row at `at`, with the position after it: nothing for a row that
/// stops early, whose name is longer than `max_name` bytes, or whose name is
/// not text.
pub open spec fn good_row_at(s: Seq<u8>, at: int, max_name: u32) -> Option<((Seq<char>, u64), int)> {
    match u32_at(s, at) {
        Some((length, after_length)) => if length > max_name {
            None
        } else {
            match bytes_at(s, after_length, length as int) {
                Some((name, after_name)) => if valid_utf8(name) {
                    match u64_at(s, after_name) {
                        Some((count, next)) => Some(((decode_utf8(name), count), next)),
                        None => None,
                    }
                } else {
                    None
                },
                None => None,
            }
        },
        None => None,
    }
}

/// The `n` rows from `at`, with the position after them.
pub open spec fn good_rows_at(s: Seq<u8>, at: int, n: nat, max_name: u32) -> Option<
    (Seq<(Seq<char>, u64)>, int),
>
    decreases n,
{
    if n == 0 {
        Some((Seq::empty(), at))
    } else {
        match good_rows_at(s, at, (n - 1) as nat, max_name) {
            Some((rows, next)) => match good_row_at(s, next, max_name) {
                Some((row, after)) => Some((rows.push(row), after)),
                None => None,
            },
            None => None,
        }
    }
}

/// A count of rows at `at` and then that many rows, with the position after
/// them: nothing when the count passes `max_rows` or a row does not read.
pub open spec fn pile_at(s: Seq<u8>, at: int, max_rows: u32, max_name: u32) -> Option<
    (Seq<(Seq<char>, u64)>, int),
> {
    match u32_at(s, at) {
        Some((n, next)) => if n > max_rows {
            None
        } else {
            good_rows_at(s, next, n as nat, max_name)
        },
        None => None,
    }
}

/// Names that fit in `max_name` bytes.
pub open spec fn names_fit(rows: Seq<(Seq<char>, u64)>, max_name: u32) -> bool {
    forall|i: int| 0 <= i < rows.len() ==> #[trigger] key(rows[i].0).len() <= max_name
}

/// A failed row spoils every longer run of rows.
pub proof fn lemma_good_rows_stop(s: Seq<u8>, at: int, i: nat, n: nat, max_name: u32)
    requires
        i < n,
        good_rows_at(s, at, (i + 1) as nat, max_name) is None,
    ensures
        good_rows_at(s, at, n, max_name) is None,
    decreases n - i,
{
    if n > i + 1 {
        lemma_good_rows_stop(s, at, i, (n - 1) as nat, max_name);
    }
}

pub proof fn lemma_good_row_round_trip(s: Seq<u8>, at: int, r: (Seq<char>, u64), max_name: u32)
    requires
        stands_at(s, at, good_row_bytes(r)),
        key(r.0).len() <= max_name,
    ensures
        good_row_at(s, at, max_name) == Some((r, at + good_row_bytes(r).len())),
{
    let name = key(r.0);
    let len_bytes = u32_bytes(name.len() as u32);
    lemma_u32_bytes_len(name.len() as u32);
    lemma_u64_bytes_len(r.1);
    let whole = good_row_bytes(r);
    let nl: int = name.len() as int;
    let a = at + 4;
    let b = a + nl;
    assert(s.subrange(at, at + 4) =~= whole.subrange(0, 4));
    assert(whole.subrange(0, 4) =~= len_bytes);
    lemma_u32_round_trip(s, at, name.len() as u32);
    assert(s.subrange(a, b) =~= whole.subrange(4, 4 + nl));
    assert(whole.subrange(4, 4 + nl) =~= name);
    assert(s.subrange(b, b + 8) =~= whole.subrange(4 + nl, 4 + nl + 8));
    assert(whole.subrange(4 + nl, 4 + nl + 8) =~= u64_bytes(r.1));
    lemma_u64_round_trip(s, b, r.1);
    assert(decode_utf8(encode_utf8(r.0)) == r.0);
}

/// Rows written from `at` read back as themselves.
pub proof fn lemma_good_rows_round_trip(
    s: Seq<u8>,
    at: int,
    rows: Seq<(Seq<char>, u64)>,
    max_name: u32,
)
    requires
        stands_at(s, at, good_rows_bytes(rows)),
        names_fit(rows, max_name),
    ensures
        good_rows_at(s, at, rows.len(), max_name) == Some((rows, at + good_rows_bytes(rows).len())),
    decreases rows.len(),
{
    if rows.len() > 0 {
        let front = rows.drop_last();
        let row = rows.last();
        let fb = good_rows_bytes(front);
        let rb = good_row_bytes(row);
        let whole = good_rows_bytes(rows);
        assert(whole == fb + rb);
        assert(whole.subrange(0, fb.len() as int) =~= fb);
        assert(s.subrange(at, at + fb.len()) =~= s.subrange(at, at + whole.len()).subrange(
            0,
            fb.len() as int,
        ));
        assert forall|i: int| 0 <= i < front.len() implies #[trigger] key(front[i].0).len()
            <= max_name by {
            assert(front[i] == rows[i]);
        }
        lemma_good_rows_round_trip(s, at, front, max_name);
        assert(whole.subrange(fb.len() as int, whole.len() as int) =~= rb);
        assert(s.subrange(at + fb.len(), at + fb.len() + rb.len()) =~= s.subrange(
            at,
            at + whole.len(),
        ).subrange(fb.len() as int, whole.len() as int));
        assert(rows[rows.len() - 1] == row);
        lemma_good_row_round_trip(s, at + fb.len(), row, max_name);
        assert(front.push(row) =~= rows);
    }
}

/// A pile written from `at` reads back as itself.
pub proof fn lemma_pile_round_trip(
    s: Seq<u8>,
    at: int,
    rows: Seq<(Seq<char>, u64)>,
    max_rows: u32,
    max_name: u32,
)
    requires
        stands_at(s, at, pile_bytes(rows)),
        names_fit(rows, max_name),
        rows.len() <= max_rows,
    ensures
        pile_at(s, at, max_rows, max_name) == Some((rows, at + pile_bytes(rows).len())),
{
    let whole = pile_bytes(rows);
    let gb = good_rows_bytes(rows);
    lemma_u32_bytes_len(rows.len() as u32);
    assert(s.subrange(at, at + 4) =~= whole.subrange(0, 4));
    assert(whole.subrange(0, 4) =~= u32_bytes(rows.len() as u32));
    lemma_u32_round_trip(s, at, rows.len() as u32);
    assert(whole.subrange(4, whole.len() as int) =~= gb);
    assert(s.subrange(at + 4, at + 4 + gb.len()) =~= s.subrange(at, at + whole.len()).subrange(
        4,
        whole.len() as int,
    ));
    lemma_good_rows_round_trip(s, at + 4, rows, max_name);
}

/// Write a pile's rows: the count of rows, then each row.
pub fn put_pile(out: &mut Vec<u8>, pile: &Stockpile)
    requires
        pile@.len() <= u32::MAX,
        forall|i: int| 0 <= i < pile@.len() ==> #[trigger] key(pile@[i].0).len() <= u32::MAX,
    ensures
        final(out)@ == old(out)@ + pile_bytes(pile@),
{
    let rows = pile.entries();
    put_u32(out, rows.len() as u32);
    let ghost head = out@;
    let ghost view = rows_view(rows@);
    let mut i: usize = 0;
    while i < rows.len()
        invariant
            0 <= i <= rows@.len(),
            view == pile@,
            view == rows_view(rows@),
            forall|j: int| 0 <= j < view.len() ==> #[trigger] key(view[j].0).len() <= u32::MAX,
            out@ == head + good_rows_bytes(view.take(i as int)),
        decreases rows@.len() - i,
    {
        let name = rows[i].0.as_str().as_bytes();
        proof {
            assert(view[i as int].0 == rows@[i as int].0@);
            assert(view.take(i + 1).drop_last() =~= view.take(i as int));
            assert(view.take(i + 1).last() == view[i as int]);
        }
        put_u32(out, name.len() as u32);
        put_bytes(out, name);
        put_u64(out, rows[i].1);
        i = i + 1;
        assert(out@ =~= head + good_rows_bytes(view.take(i as int)));
    }
    assert(view.take(i as int) =~= view);
    assert(old(out)@ + pile_bytes(pile@) =~= head + good_rows_bytes(view));
}

/// Read a count of rows at `at` and then the rows, adding each to a fresh
/// pile: nothing when the count passes `max_rows` or any row does not read.
///
/// What comes back holds, of every good, what the rows say of it summed —
/// and exactly the rows themselves when they were a well-kept pile's.
pub fn read_pile(s: &[u8], at: usize, max_rows: u32, max_name: u32) -> (r: Option<
    (Stockpile, usize),
>)
    ensures
        r is None <==> pile_at(s@, at as int, max_rows, max_name) is None,
        r matches Some((pile, next)) ==> {
            let (rows, end) = pile_at(s@, at as int, max_rows, max_name).unwrap();
            &&& next == end
            &&& forall|k: Seq<char>|
                #![trigger pile.count_of(k)]
                pile.count_of(k) == capped(count_in(rows, k) as int)
            &&& wf_rows(rows) ==> pile@ == rows
        },
{
    let n = match read_u32(s, at) {
        Some((n, next)) => {
            if n > max_rows {
                return None;
            }
            n
        },
        None => return None,
    };
    let mut pile = Stockpile::new();
    let mut pos: usize = at + 4;
    let mut i: u32 = 0;
    let ghost mut rows: Seq<(Seq<char>, u64)> = Seq::empty();
    while i < n
        invariant
            0 <= i <= n,
            n <= max_rows,
            u32_at(s@, at as int) == Some((n, at + 4)),
            good_rows_at(s@, at + 4, i as nat, max_name) == Some((rows, pos as int)),
            pos <= s@.len() || i == 0,
            forall|k: Seq<char>|
                #![trigger pile.count_of(k)]
                pile.count_of(k) == capped(count_in(rows, k) as int),
            wf_rows(rows) ==> pile@ == rows,
        decreases n - i,
    {
        pile.note_well_kept();
        let ghost was = pile;
        let length = match read_u32(s, pos) {
            Some((length, next)) => {
                if length > max_name {
                    proof {
                        lemma_good_rows_stop(s@, at + 4, i as nat, n as nat, max_name);
                    }
                    return None;
                }
                length
            },
            None => {
                proof {
                    lemma_good_rows_stop(s@, at + 4, i as nat, n as nat, max_name);
                }
                return None;
            },
        };
        let (name_bytes, after_name) = match read_bytes(s, pos + 4, length as usize) {
            Some(x) => x,
            None => {
                proof {
                    lemma_good_rows_stop(s@, at + 4, i as nat, n as nat, max_name);
                }
                return None;
            },
        };
        let ghost raw = name_bytes@;
        let name = match string_from_utf8(name_bytes) {
            Some(t) => t,
            None => {
                proof {
                    lemma_good_rows_stop(s@, at + 4, i as nat, n as nat, max_name);
                }
                return None;
            },
        };
        let (count, next) = match read_u64(s, after_name) {
            Some(x) => x,
            None => {
                proof {
                    lemma_good_rows_stop(s@, at + 4, i as nat, n as nat, max_name);
                }
                return None;
            },
        };
        pile.add(name.as_str(), count);
        pile.note_well_kept();
        proof {
            let row = (name@, count);
            assert(good_row_at(s@, pos as int, max_name) == Some((row, next as int)));
            let grown = rows.push(row);
            assert(grown.drop_last() =~= rows);
            assert(grown.last() == row);
            assert forall|k: Seq<char>| #[trigger] pile.count_of(k) == capped(count_in(grown, k) as int) by {
                lemma_count_bounded(was@, k);
            }
            if wf_rows(grown) {
                assert forall|a: int, b: int| 0 <= a < b < rows.len() implies #[trigger] lex_lt(
                    key(rows[a].0),
                    key(rows[b].0),
                ) by {
                    assert(rows[a] == grown[a] && rows[b] == grown[b]);
                }
                assert forall|a: int| 0 <= a < rows.len() implies #[trigger] rows[a].1 > 0 by {
                    assert(rows[a] == grown[a]);
                }
                assert forall|t: int| 0 <= t < was@.len() implies #[trigger] lex_lt(
                    key(was@[t].0),
                    key(name@),
                ) by {
                    assert(was@ == rows);
                    assert(was@[t] == grown[t]);
                    assert(grown[rows.len() as int] == row);
                    assert(lex_lt(key(grown[t].0), key(grown[rows.len() as int].0)));
                }
                assert(grown[rows.len() as int].1 > 0);
            }
            rows = grown;
        }
        pos = next;
        i = i + 1;
    }
    Some((pile, pos))
}

} // verus!
