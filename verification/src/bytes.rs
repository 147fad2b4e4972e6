//! Little-endian words in and out of a byte buffer: the grammar every ledger
//! file in this game is written in.
//!
//! Readers take the whole file and a position, and hand back the value and the
//! position after it, or `None` when the file stops early. Writers append to a
//! buffer. Each reader is stated against a spec reader of the same name, and
//! each writer against the bytes it appends, so that a ledger's own reader can
//! be proved to give back what its writer wrote.
use vstd::bytes::{
    lemma_auto_spec_u32_to_from_le_bytes, lemma_auto_spec_u64_to_from_le_bytes,
    spec_u32_from_le_bytes, spec_u32_to_le_bytes, spec_u64_from_le_bytes, spec_u64_to_le_bytes,
    u32_from_le_bytes, u32_to_le_bytes, u64_from_le_bytes, u64_to_le_bytes,
};
use vstd::prelude::*;
use vstd::slice::slice_subrange;

verus! {

/// The four bytes a `u32` is written as.
pub open spec fn u32_bytes(x: u32) -> Seq<u8> {
    spec_u32_to_le_bytes(x)
}

/// The four bytes an `i32` is written as: its two's-complement bits.
pub open spec fn i32_bytes(x: i32) -> Seq<u8> {
    spec_u32_to_le_bytes(x as u32)
}

/// The eight bytes a `u64` is written as.
pub open spec fn u64_bytes(x: u64) -> Seq<u8> {
    spec_u64_to_le_bytes(x)
}

/// The byte at `at`, and the position after it.
pub open spec fn u8_at(s: Seq<u8>, at: int) -> Option<(u8, int)> {
    if 0 <= at < s.len() {
        Some((s[at], at + 1))
    } else {
        None
    }
}

/// The `n` bytes at `at`, and the position after them.
pub open spec fn bytes_at(s: Seq<u8>, at: int, n: int) -> Option<(Seq<u8>, int)> {
    if 0 <= at && 0 <= n && at + n <= s.len() {
        Some((s.subrange(at, at + n), at + n))
    } else {
        None
    }
}

/// The `u32` at `at`, and the position after it.
pub open spec fn u32_at(s: Seq<u8>, at: int) -> Option<(u32, int)> {
    if 0 <= at && at + 4 <= s.len() {
        Some((spec_u32_from_le_bytes(s.subrange(at, at + 4)), at + 4))
    } else {
        None
    }
}

/// The `i32` at `at`, and the position after it.
pub open spec fn i32_at(s: Seq<u8>, at: int) -> Option<(i32, int)> {
    if 0 <= at && at + 4 <= s.len() {
        Some((spec_u32_from_le_bytes(s.subrange(at, at + 4)) as i32, at + 4))
    } else {
        None
    }
}

/// The `u64` at `at`, and the position after it.
pub open spec fn u64_at(s: Seq<u8>, at: int) -> Option<(u64, int)> {
    if 0 <= at && at + 8 <= s.len() {
        Some((spec_u64_from_le_bytes(s.subrange(at, at + 8)), at + 8))
    } else {
        None
    }
}

/// Whether `word` stands in `s` at `at`.
pub open spec fn stands_at(s: Seq<u8>, at: int, word: Seq<u8>) -> bool {
    0 <= at && at + word.len() <= s.len() && s.subrange(at, at + word.len()) == word
}

pub proof fn lemma_u32_bytes_len(x: u32)
    ensures
        u32_bytes(x).len() == 4,
{
    lemma_auto_spec_u32_to_from_le_bytes();
}

pub proof fn lemma_u64_bytes_len(x: u64)
    ensures
        u64_bytes(x).len() == 8,
{
    lemma_auto_spec_u64_to_from_le_bytes();
}

/// A `u32` written at `at` reads back as itself.
pub proof fn lemma_u32_round_trip(s: Seq<u8>, at: int, x: u32)
    requires
        stands_at(s, at, u32_bytes(x)),
    ensures
        u32_at(s, at) == Some((x, at + 4)),
{
    lemma_auto_spec_u32_to_from_le_bytes();
}

/// An `i32` written at `at` reads back as itself.
pub proof fn lemma_i32_round_trip(s: Seq<u8>, at: int, x: i32)
    requires
        stands_at(s, at, i32_bytes(x)),
    ensures
        i32_at(s, at) == Some((x, at + 4)),
{
    lemma_auto_spec_u32_to_from_le_bytes();
    let u = x as u32;
    assert(spec_u32_from_le_bytes(s.subrange(at, at + 4)) == u);
    assert((u as i32) == x) by (bit_vector)
        requires
            u == x as u32,
    ;
}

/// A `u64` written at `at` reads back as itself.
pub proof fn lemma_u64_round_trip(s: Seq<u8>, at: int, x: u64)
    requires
        stands_at(s, at, u64_bytes(x)),
    ensures
        u64_at(s, at) == Some((x, at + 8)),
{
    lemma_auto_spec_u64_to_from_le_bytes();
}

/// Two words written one after the other stand one after the other.
pub proof fn lemma_stands_split(s: Seq<u8>, at: int, a: Seq<u8>, b: Seq<u8>)
    requires
        stands_at(s, at, a + b),
    ensures
        stands_at(s, at, a),
        stands_at(s, at + a.len(), b),
{
    let w = a + b;
    assert(s.subrange(at, at + a.len()) =~= s.subrange(at, at + w.len()).subrange(0, a.len() as int));
    assert(w.subrange(0, a.len() as int) =~= a);
    assert(s.subrange(at + a.len(), at + a.len() + b.len()) =~= s.subrange(at, at + w.len()).subrange(
        a.len() as int,
        w.len() as int,
    ));
    assert(w.subrange(a.len() as int, w.len() as int) =~= b);
}

/// The last thing appended stands at the old end.
pub proof fn lemma_stands_at_end(s: Seq<u8>, word: Seq<u8>)
    ensures
        stands_at(s + word, s.len() as int, word),
{
    assert((s + word).subrange(s.len() as int, (s.len() + word.len()) as int) =~= word);
}

/// Append a byte.
pub fn put_u8(out: &mut Vec<u8>, x: u8)
    ensures
        final(out)@ == old(out)@ + seq![x],
{
    out.push(x);
}

/// Append the bytes of a `u32`.
pub fn put_u32(out: &mut Vec<u8>, x: u32)
    ensures
        final(out)@ == old(out)@ + u32_bytes(x),
{
    let mut word = u32_to_le_bytes(x);
    out.append(&mut word);
}

/// Append the bytes of an `i32`.
pub fn put_i32(out: &mut Vec<u8>, x: i32)
    ensures
        final(out)@ == old(out)@ + i32_bytes(x),
{
    let mut word = u32_to_le_bytes(x as u32);
    out.append(&mut word);
}

/// Append the bytes of a `u64`.
pub fn put_u64(out: &mut Vec<u8>, x: u64)
    ensures
        final(out)@ == old(out)@ + u64_bytes(x),
{
    let mut word = u64_to_le_bytes(x);
    out.append(&mut word);
}

/// Append a run of bytes as they are.
pub fn put_bytes(out: &mut Vec<u8>, bytes: &[u8])
    ensures
        final(out)@ == old(out)@ + bytes@,
{
    let ghost start = out@;
    let mut i: usize = 0;
    while i < bytes.len()
        invariant
            0 <= i <= bytes@.len(),
            out@ == start + bytes@.subrange(0, i as int),
        decreases bytes@.len() - i,
    {
        out.push(bytes[i]);
        i = i + 1;
        assert(out@ =~= start + bytes@.subrange(0, i as int));
    }
    assert(bytes@.subrange(0, bytes@.len() as int) =~= bytes@);
}

/// The byte at `at`.
pub fn read_u8(s: &[u8], at: usize) -> (r: Option<(u8, usize)>)
    ensures
        r matches Some((x, next)) ==> u8_at(s@, at as int) == Some((x, next as int)),
        r is None <==> u8_at(s@, at as int) is None,
{
    if at < s.len() {
        Some((s[at], at + 1))
    } else {
        None
    }
}

/// The `u32` at `at`.
pub fn read_u32(s: &[u8], at: usize) -> (r: Option<(u32, usize)>)
    ensures
        r matches Some((x, next)) ==> u32_at(s@, at as int) == Some((x, next as int)),
        r is None <==> u32_at(s@, at as int) is None,
{
    if at <= s.len() && 4 <= s.len() - at {
        let word = slice_subrange(s, at, at + 4);
        Some((u32_from_le_bytes(word), at + 4))
    } else {
        None
    }
}

/// The `i32` at `at`.
pub fn read_i32(s: &[u8], at: usize) -> (r: Option<(i32, usize)>)
    ensures
        r matches Some((x, next)) ==> i32_at(s@, at as int) == Some((x, next as int)),
        r is None <==> i32_at(s@, at as int) is None,
{
    if at <= s.len() && 4 <= s.len() - at {
        let word = slice_subrange(s, at, at + 4);
        Some((u32_from_le_bytes(word) as i32, at + 4))
    } else {
        None
    }
}

/// The `u64` at `at`.
pub fn read_u64(s: &[u8], at: usize) -> (r: Option<(u64, usize)>)
    ensures
        r matches Some((x, next)) ==> u64_at(s@, at as int) == Some((x, next as int)),
        r is None <==> u64_at(s@, at as int) is None,
{
    if at <= s.len() && 8 <= s.len() - at {
        let word = slice_subrange(s, at, at + 8);
        Some((u64_from_le_bytes(word), at + 8))
    } else {
        None
    }
}

/// The `n` bytes at `at`, copied out.
pub fn read_bytes(s: &[u8], at: usize, n: usize) -> (r: Option<(Vec<u8>, usize)>)
    ensures
        r matches Some((x, next)) ==> bytes_at(s@, at as int, n as int) == Some((x@, next as int)),
        r is None <==> bytes_at(s@, at as int, n as int) is None,
{
    if at <= s.len() && n <= s.len() - at {
        let mut out: Vec<u8> = Vec::new();
        let mut i: usize = 0;
        while i < n
            invariant
                0 <= i <= n,
                at + n <= s.len(),
                out@ == s@.subrange(at as int, at + i),
            decreases n - i,
        {
            out.push(s[at + i]);
            i = i + 1;
            assert(out@ =~= s@.subrange(at as int, at + i));
        }
        Some((out, at + n))
    } else {
        None
    }
}

/// Whether the four bytes at `at` are `tag`.
pub fn tag_at(s: &[u8], at: usize, tag: &[u8; 4]) -> (r: bool)
    ensures
        r <==> stands_at(s@, at as int, tag@),
{
    if at <= s.len() && 4 <= s.len() - at {
        let same = s[at] == tag[0] && s[at + 1] == tag[1] && s[at + 2] == tag[2] && s[at + 3]
            == tag[3];
        if same {
            assert(s@.subrange(at as int, at + 4) =~= tag@);
        } else {
            assert(s@.subrange(at as int, at + 4) != tag@) by {
                if s@.subrange(at as int, at + 4) == tag@ {
                    assert(s@.subrange(at as int, at + 4)[0] == s@[at as int]);
                    assert(s@.subrange(at as int, at + 4)[1] == s@[at + 1]);
                    assert(s@.subrange(at as int, at + 4)[2] == s@[at + 2]);
                    assert(s@.subrange(at as int, at + 4)[3] == s@[at + 3]);
                }
            }
        }
        same
    } else {
        false
    }
}

/// Append a four-byte tag.
pub fn put_tag(out: &mut Vec<u8>, tag: &[u8; 4])
    ensures
        final(out)@ == old(out)@ + tag@,
{
    let ghost start = out@;
    out.push(tag[0]);
    out.push(tag[1]);
    out.push(tag[2]);
    out.push(tag[3]);
    assert(out@ =~= start + tag@);
}

} // verus!
