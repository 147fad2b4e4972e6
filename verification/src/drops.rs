//! The small block on the floor, waiting to be picked up.
//!
//! A full pack costs nothing but a walk: the block still breaks, and what
//! came out of it lies where it fell until you come back lighter. Nothing is
//! ever destroyed by carelessness. Drops merge per cell and per good, keep
//! the order they fell in, and are a deterministic part of the game's state.
use vstd::prelude::*;

use crate::bytes::{
    lemma_stands_at_end, lemma_stands_split, lemma_u32_bytes_len, lemma_u32_round_trip,
    put_bytes, put_tag, put_u32, put_u64, read_bytes, read_u32, read_u64, stands_at, tag_at,
    u32_at, u32_bytes,
};
use crate::cargo::{good_row_at, good_row_bytes, lemma_good_row_round_trip, string_from_utf8};
use crate::geometry::{lemma_pos_bytes_len, lemma_pos_round_trip, pos_at, pos_bytes, put_pos, read_pos, BlockPos};
use crate::pack::{fit_spec, weight_spec, Pack};
use crate::stockpile::{capped, key, same_name};

verus! {

/// How many piles the ground will hold before the oldest is forgotten.
pub const MAX_DROPS: usize = 512;

/// How far a drop will fall looking for a floor.
pub const FALL: i32 = 12;

/// One good, in one cell, on the floor.
#[derive(Debug, Clone, PartialEq, Eq)]
pub struct Drop {
    /// The cell it is lying in.
    pub at: BlockPos,
    /// What it is, by name.
    pub good: String,
    /// How many.
    pub count: u64,
}

/// A pile as a value: where, what, how many.
pub open spec fn drop_view(d: Drop) -> (BlockPos, Seq<char>, u64) {
    (d.at, d.good@, d.count)
}

/// Piles as values.
pub open spec fn drops_view(ds: Seq<Drop>) -> Seq<(BlockPos, Seq<char>, u64)> {
    ds.map_values(|d: Drop| drop_view(d))
}

/// Whether a run of piles is one the floor can hold: each cell and good at
/// most once, none empty, and no more piles than the ground keeps.
pub open spec fn piles_ok(rows: Seq<(BlockPos, Seq<char>, u64)>) -> bool {
    &&& rows.len() <= MAX_DROPS
    &&& forall|i: int| 0 <= i < rows.len() ==> #[trigger] rows[i].2 > 0
    &&& forall|i: int, j: int|
        0 <= i < j < rows.len() ==> !(#[trigger] rows[i].0 == #[trigger] rows[j].0 && rows[i].1
            == rows[j].1)
}

/// Everything lying about, in the order it fell.
#[derive(Debug, PartialEq, Eq)]
pub struct Drops {
    drops: Vec<Drop>,
}

impl Default for Drops {
    /// Nothing on the floor.
    fn default() -> (d: Drops)
        ensures
            d@.len() == 0,
    {
        Drops::new()
    }
}

impl View for Drops {
    type V = Seq<(BlockPos, Seq<char>, u64)>;

    closed spec fn view(&self) -> Seq<(BlockPos, Seq<char>, u64)> {
        drops_view(self.drops@)
    }
}

/// How much of `good` lies in these piles, stopping at the top of a `u64`.
pub open spec fn floor_count(rows: Seq<(BlockPos, Seq<char>, u64)>, good: Seq<char>) -> u64
    decreases rows.len(),
{
    if rows.len() == 0 {
        0
    } else {
        let before = floor_count(rows.drop_last(), good);
        if rows.last().1 == good {
            capped(before + rows.last().2)
        } else {
            before
        }
    }
}

/// Where the pile for `(at, good)` is, if there is one.
pub open spec fn pile_index(rows: Seq<(BlockPos, Seq<char>, u64)>, at: BlockPos, good: Seq<char>) -> int {
    choose|i: int| 0 <= i < rows.len() && rows[i].0 == at && rows[i].1 == good
}

/// Whether there is a pile for `(at, good)`.
pub open spec fn has_pile(rows: Seq<(BlockPos, Seq<char>, u64)>, at: BlockPos, good: Seq<char>) -> bool {
    exists|i: int| 0 <= i < rows.len() && rows[i].0 == at && rows[i].1 == good
}

/// The floor after `count` of `good` is put down at `at`: onto its pile if
/// there is one, or as a new pile last, forgetting the oldest pile first when
/// the ground already holds all it keeps. Nothing happens for none.
pub open spec fn shed_spec(rows: Seq<(BlockPos, Seq<char>, u64)>, at: BlockPos, good: Seq<char>, count: u64) -> Seq<
    (BlockPos, Seq<char>, u64),
> {
    if count == 0 {
        rows
    } else if has_pile(rows, at, good) {
        let i = pile_index(rows, at, good);
        rows.update(i, (at, good, capped(rows[i].2 + count)))
    } else if rows.len() >= MAX_DROPS {
        rows.drop_first().push((at, good, count))
    } else {
        rows.push((at, good, count))
    }
}

/// The piles left on the floor once `moved[i]` has been taken from pile `i`:
/// in the same order, the emptied ones gone.
pub open spec fn left_after(rows: Seq<(BlockPos, Seq<char>, u64)>, moved: Seq<u64>) -> Seq<
    (BlockPos, Seq<char>, u64),
>
    decreases rows.len(),
{
    if rows.len() == 0 || moved.len() != rows.len() {
        Seq::empty()
    } else {
        let front = left_after(rows.drop_last(), moved.drop_last());
        let r = rows.last();
        if r.2 > moved.last() {
            front.push((r.0, r.1, (r.2 - moved.last()) as u64))
        } else {
            front
        }
    }
}

/// What moved, pile by pile, leaving out the piles nothing moved from.
pub open spec fn taken_after(rows: Seq<(BlockPos, Seq<char>, u64)>, moved: Seq<u64>) -> Seq<(Seq<char>, u64)>
    decreases rows.len(),
{
    if rows.len() == 0 || moved.len() != rows.len() {
        Seq::empty()
    } else {
        let front = taken_after(rows.drop_last(), moved.drop_last());
        if moved.last() > 0 {
            front.push((rows.last().1, moved.last()))
        } else {
            front
        }
    }
}

/// How much of good `k` moved in all.
pub open spec fn moved_of(rows: Seq<(BlockPos, Seq<char>, u64)>, moved: Seq<u64>, k: Seq<char>) -> nat
    decreases rows.len(),
{
    if rows.len() == 0 || moved.len() != rows.len() {
        0
    } else {
        moved_of(rows.drop_last(), moved.drop_last(), k) + if rows.last().1 == k {
            moved.last() as nat
        } else {
            0
        }
    }
}

/// What the goods taken from `rows`, `moved[i]` from pile `i`, weigh.
pub open spec fn carried(rows: Seq<(BlockPos, Seq<char>, u64)>, moved: Seq<u64>) -> nat
    decreases rows.len(),
{
    if rows.len() == 0 || moved.len() != rows.len() {
        0
    } else {
        carried(rows.drop_last(), moved.drop_last()) + (weight_spec(rows.last().1) as nat) * (
        moved.last() as nat)
    }
}

/// How many are picked up from each pile, in the order they fell, by a pack
/// that weighed `weight` when it set out: from a pile within reach (`near`)
/// as many as still fit under `capacity`, from one out of reach none.
pub open spec fn pickups(rows: Seq<(BlockPos, Seq<char>, u64)>, near: Seq<bool>, weight: nat, capacity: u64) -> Seq<
    u64,
>
    decreases rows.len(),
{
    if rows.len() == 0 {
        Seq::empty()
    } else {
        let front = pickups(rows.drop_last(), near, weight, capacity);
        let r = rows.last();
        let m = if near[rows.len() - 1] {
            fit_spec(weight + carried(rows.drop_last(), front), r.1, r.2, capacity)
        } else {
            0
        };
        front.push(m)
    }
}

proof fn lemma_pickups_len(rows: Seq<(BlockPos, Seq<char>, u64)>, near: Seq<bool>, weight: nat, capacity: u64)
    ensures
        pickups(rows, near, weight, capacity).len() == rows.len(),
    decreases rows.len(),
{
    if rows.len() > 0 {
        lemma_pickups_len(rows.drop_last(), near, weight, capacity);
    }
}

/// Taking from piles keeps a floor well kept: what is left is a run of the
/// old piles, none empty.
proof fn lemma_left_after_ok(rows: Seq<(BlockPos, Seq<char>, u64)>, moved: Seq<u64>)
    requires
        piles_ok(rows),
        moved.len() == rows.len(),
    ensures
        piles_ok(left_after(rows, moved)),
        left_after(rows, moved).len() <= rows.len(),
        forall|i: int| 0 <= i < left_after(rows, moved).len() ==> exists|j: int|
            0 <= j < rows.len() && (#[trigger] left_after(rows, moved)[i]).0 == rows[j].0
                && left_after(rows, moved)[i].1 == rows[j].1,
    decreases rows.len(),
{
    if rows.len() > 0 {
        let front_rows = rows.drop_last();
        assert forall|i: int, j: int| 0 <= i < j < front_rows.len() implies !(#[trigger] front_rows[i].0
            == #[trigger] front_rows[j].0 && front_rows[i].1 == front_rows[j].1) by {
            assert(front_rows[i] == rows[i] && front_rows[j] == rows[j]);
        }
        assert forall|i: int| 0 <= i < front_rows.len() implies #[trigger] front_rows[i].2 > 0 by {
            assert(front_rows[i] == rows[i]);
        }
        lemma_left_after_ok(front_rows, moved.drop_last());
        let front = left_after(front_rows, moved.drop_last());
        let r = rows.last();
        let left = left_after(rows, moved);
        assert forall|i: int| 0 <= i < front.len() implies exists|j: int|
            0 <= j < rows.len() && (#[trigger] front[i]).0 == rows[j].0 && front[i].1 == rows[j].1 by {
            let j = choose|j: int| 0 <= j < front_rows.len() && front[i].0 == front_rows[j].0
                && front[i].1 == front_rows[j].1;
            assert(front_rows[j] == rows[j]);
        }
        if r.2 > moved.last() {
            assert(left == front.push((r.0, r.1, (r.2 - moved.last()) as u64)));
            assert forall|i: int| 0 <= i < left.len() implies exists|j: int|
                0 <= j < rows.len() && (#[trigger] left[i]).0 == rows[j].0 && left[i].1 == rows[j].1 by {
                if i < front.len() {
                    assert(left[i] == front[i]);
                } else {
                    assert(left[i].0 == rows[rows.len() - 1].0);
                }
            }
            assert forall|i: int| 0 <= i < left.len() implies #[trigger] left[i].2 > 0 by {
                if i < front.len() {
                    assert(left[i] == front[i]);
                }
            }
            assert forall|a: int, b: int| 0 <= a < b < left.len() implies !(#[trigger] left[a].0
                == #[trigger] left[b].0 && left[a].1 == left[b].1) by {
                assert(left[a] == front[a]);
                if b < front.len() {
                    assert(left[b] == front[b]);
                } else {
                    let j = choose|j: int| 0 <= j < front_rows.len() && front[a].0 == front_rows[j].0
                        && front[a].1 == front_rows[j].1;
                    assert(front_rows[j] == rows[j]);
                    assert(!(rows[j].0 == rows[rows.len() - 1].0 && rows[j].1 == rows[rows.len() - 1].1));
                }
            }
        }
    }
}

impl Drops {
    #[verifier::type_invariant]
    closed spec fn well_kept(self) -> bool {
        piles_ok(drops_view(self.drops@))
    }

    /// Every floor keeps each cell and good once, none empty, within its cap.
    pub fn note_well_kept(&self)
        ensures
            piles_ok(self@),
    {
        proof {
            use_type_invariant(self);
        }
    }

    /// Nothing on the floor.
    pub fn new() -> (d: Drops)
        ensures
            d@.len() == 0,
    {
        let d = Drops { drops: Vec::new() };
        assert(drops_view(d.drops@) =~= Seq::<(BlockPos, Seq<char>, u64)>::empty());
        d
    }

    /// How many piles there are.
    pub fn len(&self) -> (n: usize)
        ensures
            n == self@.len(),
    {
        self.drops.len()
    }

    /// Nothing on the floor.
    pub fn is_empty(&self) -> (empty: bool)
        ensures
            empty == (self@.len() == 0),
    {
        self.drops.len() == 0
    }

    /// Every pile, in the order they fell.
    pub fn iter(&self) -> (piles: &[Drop])
        ensures
            drops_view(piles@) == self@,
    {
        self.drops.as_slice()
    }

    /// How much of `good` is on the floor anywhere.
    pub fn count(&self, good: &str) -> (n: u64)
        ensures
            n == floor_count(self@, good@),
    {
        let ghost rows = self@;
        let mut total: u64 = 0;
        let mut i: usize = 0;
        while i < self.drops.len()
            invariant
                i <= self.drops@.len(),
                rows == drops_view(self.drops@),
                rows.len() == self.drops@.len(),
                total == floor_count(rows.subrange(0, i as int), good@),
            decreases self.drops@.len() - i,
        {
            proof {
                assert(rows.subrange(0, i + 1).drop_last() =~= rows.subrange(0, i as int));
                assert(rows[i as int] == drop_view(self.drops@[i as int]));
            }
            if same_name(self.drops[i].good.as_str(), good) {
                total = total.saturating_add(self.drops[i].count);
            }
            i = i + 1;
        }
        proof {
            assert(rows.subrange(0, i as int) =~= rows);
        }
        total
    }

    /// Put something on the ground: onto the pile already lying in that cell
    /// if there is one, so a long face leaves a handful of growing piles;
    /// past the cap the oldest pile is forgotten rather than the newest
    /// refused.
    pub fn shed(&mut self, at: BlockPos, good: &str, count: u64)
        ensures
            final(self)@ == shed_spec(old(self)@, at, good@, count),
    {
        proof {
            use_type_invariant(&*self);
        }
        if count == 0 {
            return;
        }
        let ghost rows = self@;
        let mut piles: Vec<Drop> = Vec::new();
        std::mem::swap(&mut piles, &mut self.drops);
        let mut i: usize = 0;
        let mut found = false;
        while i < piles.len() && !found
            invariant
                i <= piles@.len(),
                rows == drops_view(piles@),
                rows.len() == piles@.len(),
                piles_ok(rows),
                found ==> i < piles@.len() && rows[i as int].0 == at && rows[i as int].1 == good@,
                forall|j: int| 0 <= j < i ==> !(#[trigger] rows[j].0 == at && rows[j].1 == good@),
            decreases piles@.len() - i + (if found { 0int } else { 1int }),
        {
            assert(rows[i as int] == drop_view(piles@[i as int]));
            if piles[i].at == at && same_name(piles[i].good.as_str(), good) {
                found = true;
            } else {
                i = i + 1;
            }
        }
        if found {
            let grown = piles[i].count.saturating_add(count);
            assert(rows[i as int] == drop_view(piles@[i as int]));
            piles.set(i, Drop { at, good: good.to_owned(), count: grown });
            proof {
                assert(has_pile(rows, at, good@));
                let c = pile_index(rows, at, good@);
                if c != i {
                    if c < i {
                        assert(!(rows[c].0 == at && rows[c].1 == good@));
                    } else {
                        assert(!(rows[i as int].0 == rows[c].0 && rows[i as int].1 == rows[c].1));
                    }
                }
                assert(c == i as int);
                assert(drops_view(piles@) =~= rows.update(i as int, (at, good@, capped(rows[i as int].2 + count))));
                let now = drops_view(piles@);
                assert forall|a: int, b: int| 0 <= a < b < now.len() implies !(#[trigger] now[a].0
                    == #[trigger] now[b].0 && now[a].1 == now[b].1) by {
                    assert(now[a].0 == rows[a].0 && now[a].1 == rows[a].1);
                    assert(now[b].0 == rows[b].0 && now[b].1 == rows[b].1);
                }
            }
            self.drops = piles;
            return;
        }
        proof {
            if has_pile(rows, at, good@) {
                let c = pile_index(rows, at, good@);
                assert(!(rows[c].0 == at && rows[c].1 == good@));
            }
        }
        if piles.len() >= MAX_DROPS {
            piles.remove(0);
            proof {
                assert(drops_view(piles@) =~= rows.drop_first());
            }
        }
        let ghost kept = drops_view(piles@);
        piles.push(Drop { at, good: good.to_owned(), count });
        proof {
            assert(drops_view(piles@) =~= kept.push((at, good@, count)));
            let now = drops_view(piles@);
            assert forall|a: int| 0 <= a < now.len() implies #[trigger] now[a].2 > 0 by {
                if a < kept.len() {
                    if rows.len() >= MAX_DROPS {
                        assert(kept[a] == rows[a + 1]);
                    } else {
                        assert(kept[a] == rows[a]);
                    }
                }
            }
            assert forall|a: int, b: int| 0 <= a < b < now.len() implies !(#[trigger] now[a].0
                == #[trigger] now[b].0 && now[a].1 == now[b].1) by {
                let off: int = if rows.len() >= MAX_DROPS { 1 } else { 0 };
                assert(now[a] == rows[a + off]);
                if b < kept.len() {
                    assert(now[b] == rows[b + off]);
                } else {
                    assert(now[b] == (at, good@, count));
                }
            }
        }
        self.drops = piles;
    }

    /// Walk near piles and they go in your pack, as far as they fit: `near`
    /// says, pile by pile in the order they fell, which are within reach of
    /// your feet. Returns what moved, oldest pile first; a pile that only half
    /// fits leaves the rest on the ground.
    pub fn collect_near(&mut self, near: &[bool], pack: &mut Pack, capacity: u64) -> (taken: Vec<(String, u64)>)
        requires
            near@.len() == old(self)@.len(),
        ensures
            ({
                let moved = pickups(old(self)@, near@, old(pack).weight(), capacity);
                &&& moved.len() == old(self)@.len()
                &&& forall|i: int| 0 <= i < moved.len() ==> #[trigger] moved[i] <= old(self)@[i].2
                &&& final(self)@ == left_after(old(self)@, moved)
                &&& taken@.map_values(|t: (String, u64)| (t.0@, t.1)) == taken_after(old(self)@, moved)
                &&& forall|k: Seq<char>|
                    #![trigger final(pack).goods.count_of(k)]
                    final(pack).goods.count_of(k) == capped(
                        (old(pack).goods.count_of(k) + moved_of(old(self)@, moved, k)) as int,
                    ) as nat
                &&& final(pack).weight() == old(pack).weight() + carried(old(self)@, moved)
            }),
            old(pack).weight() <= capacity ==> final(pack).weight() <= capacity,
    {
        proof {
            use_type_invariant(&*self);
        }
        let ghost rows = self@;
        let ghost start_pack = *pack;
        pack.goods.note_well_kept();
        proof {
            assert forall|k: Seq<char>| #[trigger] pack.goods.count_of(k) <= u64::MAX by {
                crate::stockpile::lemma_count_bounded(pack.goods@, k);
            }
            assert(rows.take(0) =~= Seq::<(BlockPos, Seq<char>, u64)>::empty());
        }
        let mut piles: Vec<Drop> = Vec::new();
        std::mem::swap(&mut piles, &mut self.drops);
        let mut kept: Vec<Drop> = Vec::new();
        let mut taken: Vec<(String, u64)> = Vec::new();
        let ghost mut moved: Seq<u64> = Seq::empty();
        let mut i: usize = 0;
        while i < piles.len()
            invariant
                i <= piles@.len(),
                rows == drops_view(piles@),
                rows.len() == piles@.len(),
                near@.len() == rows.len(),
                piles_ok(rows),
                moved.len() == i,
                moved == pickups(rows.take(i as int), near@, start_pack.weight(), capacity),
                pack.weight() == start_pack.weight() + carried(rows.take(i as int), moved),
                forall|j: int| 0 <= j < i ==> #[trigger] moved[j] <= rows[j].2,
                drops_view(kept@) == left_after(rows.take(i as int), moved),
                taken@.map_values(|t: (String, u64)| (t.0@, t.1)) == taken_after(rows.take(i as int), moved),
                forall|k: Seq<char>|
                    #![trigger pack.goods.count_of(k)]
                    pack.goods.count_of(k) == capped((start_pack.goods.count_of(k) + moved_of(rows.take(i as int), moved, k)) as int) as nat,
                start_pack.weight() <= capacity ==> pack.weight() <= capacity,
            decreases piles@.len() - i,
        {
            let d = &piles[i];
            assert(rows[i as int] == drop_view(piles@[i as int]));
            let ghost weighed = pack.weight();
            let mut m: u64 = 0;
            if near[i] {
                m = pack.take_in(d.good.as_str(), d.count, capacity);
                if m > 0 {
                    taken.push((d.good.clone(), m));
                }
            }
            proof {
                if !near[i as int] {
                    assert((weight_spec(rows[i as int].1) as nat) * (m as nat) == 0) by (nonlinear_arith)
                        requires
                            m == 0,
                    ;
                }
                assert(pack.weight() == weighed + (weight_spec(rows[i as int].1) as nat) * (m as nat));
            }
            let rest = d.count - m;
            if rest > 0 {
                kept.push(Drop { at: d.at, good: d.good.clone(), count: rest });
            }
            proof {
                let front = rows.take(i as int);
                let grown = rows.take(i + 1);
                assert(grown.drop_last() =~= front);
                assert(grown.last() == rows[i as int]);
                let moved2 = moved.push(m);
                assert(moved2.drop_last() =~= moved);
                assert(moved2.last() == m);
                lemma_pickups_len(front, near@, start_pack.weight(), capacity);
                assert(pickups(grown, near@, start_pack.weight(), capacity) =~= moved2);
                assert(carried(grown, moved2) == carried(front, moved) + (weight_spec(rows[i as int].1) as nat)
                    * (m as nat));
                assert(drops_view(kept@) =~= left_after(grown, moved2));
                assert(taken@.map_values(|t: (String, u64)| (t.0@, t.1)) =~= taken_after(grown, moved2));
                moved = moved2;
            }
            i = i + 1;
        }
        proof {
            assert(rows.take(i as int) =~= rows);
            let now = drops_view(kept@);
            assert(now == left_after(rows, moved));
            lemma_left_after_ok(rows, moved);
        }
        self.drops = kept;
        taken
    }
}

/// Where a drop cut at `at` comes to rest, when `open[k]` says whether the
/// cell `k + 1` blocks below `at` is open: straight down until something
/// solid is underneath, or [`FALL`] blocks, whichever comes first; a drop
/// with nothing under it for that far stays where it was cut.
pub open spec fn settle_spec(at: BlockPos, open: Seq<bool>, k: int) -> BlockPos
    decreases FALL - k,
{
    if k >= FALL || k < 0 {
        at
    } else if !open[k] {
        BlockPos { x: at.x, y: (at.y - k) as i32, z: at.z }
    } else {
        settle_spec(at, open, k + 1)
    }
}

impl Drops {
    /// Where a drop cut at `at` comes to rest, given which of the cells below it
    /// are open, nearest first.
    pub fn settle(at: BlockPos, open: &[bool]) -> (rest: BlockPos)
        requires
            open@.len() >= FALL,
            at.y >= i32::MIN + FALL,
        ensures
            rest == settle_spec(at, open@, 0),
    {
        let mut k: i32 = 0;
        while k < FALL
            invariant
                0 <= k <= FALL,
                open@.len() >= FALL,
                at.y >= i32::MIN + FALL,
                settle_spec(at, open@, 0) == settle_spec(at, open@, k as int),
            decreases FALL - k,
        {
            if !open[k as usize] {
                return BlockPos { x: at.x, y: at.y - k, z: at.z };
            }
            k = k + 1;
        }
        at
    }
}

/// What `drops.dat` starts with.
pub const MAGIC: [u8; 4] = [0x56, 0x58, 0x44, 0x50];

/// The layout `drops.dat` is written in.
pub const VERSION: u32 = 1;

/// Longest good name accepted, so a damaged file cannot ask for a huge buffer.
pub const MAX_NAME: u32 = 64;

/// One pile as the file holds it: the cell, then the good as a goods row.
pub open spec fn drop_row_bytes(r: (BlockPos, Seq<char>, u64)) -> Seq<u8> {
    pos_bytes(r.0) + good_row_bytes((r.1, r.2))
}

/// Piles, one after another.
pub open spec fn drop_rows_bytes(rows: Seq<(BlockPos, Seq<char>, u64)>) -> Seq<u8>
    decreases rows.len(),
{
    if rows.len() == 0 {
        Seq::empty()
    } else {
        drop_rows_bytes(rows.drop_last()) + drop_row_bytes(rows.last())
    }
}

/// The whole of `drops.dat`.
pub open spec fn drops_bytes(rows: Seq<(BlockPos, Seq<char>, u64)>) -> Seq<u8> {
    MAGIC@ + u32_bytes(VERSION) + u32_bytes(rows.len() as u32) + drop_rows_bytes(rows)
}

/// The pile row at `at`, with the position after it.
pub open spec fn drop_row_at(s: Seq<u8>, at: int) -> Option<((BlockPos, Seq<char>, u64), int)> {
    match pos_at(s, at) {
        Some((p, a1)) => match good_row_at(s, a1, MAX_NAME) {
            Some(((name, count), next)) => Some(((p, name, count), next)),
            None => None,
        },
        None => None,
    }
}

/// The `n` pile rows from `at`.
pub open spec fn drop_rows_at(s: Seq<u8>, at: int, n: nat) -> Option<(Seq<(BlockPos, Seq<char>, u64)>, int)>
    decreases n,
{
    if n == 0 {
        Some((Seq::empty(), at))
    } else {
        match drop_rows_at(s, at, (n - 1) as nat) {
            Some((rows, next)) => match drop_row_at(s, next) {
                Some((row, after)) => Some((rows.push(row), after)),
                None => None,
            },
            None => None,
        }
    }
}

/// The floor the rows make when each is put down in turn.
pub open spec fn shed_all(rows: Seq<(BlockPos, Seq<char>, u64)>) -> Seq<(BlockPos, Seq<char>, u64)>
    decreases rows.len(),
{
    if rows.len() == 0 {
        Seq::empty()
    } else {
        let r = rows.last();
        shed_spec(shed_all(rows.drop_last()), r.0, r.1, r.2)
    }
}

/// What `drops.dat` says: `None` for a damaged file (not one, stopping
/// early, more piles than the ground keeps, a name too long or not text),
/// `Some(None)` for another version, otherwise its rows in file order.
pub open spec fn parse_drops(s: Seq<u8>) -> Option<Option<Seq<(BlockPos, Seq<char>, u64)>>> {
    if !stands_at(s, 0, MAGIC@) {
        None
    } else {
        match u32_at(s, 4) {
            None => None,
            Some((version, _)) => if version != VERSION {
                Some(None)
            } else {
                match u32_at(s, 8) {
                    Some((n, _)) => if n > MAX_DROPS {
                        None
                    } else {
                        match drop_rows_at(s, 12, n as nat) {
                            Some((rows, _)) => Some(Some(rows)),
                            None => None,
                        }
                    },
                    None => None,
                }
            },
        }
    }
}

proof fn lemma_drop_rows_stop(s: Seq<u8>, at: int, i: nat, n: nat)
    requires
        i < n,
        drop_rows_at(s, at, (i + 1) as nat) is None,
    ensures
        drop_rows_at(s, at, n) is None,
    decreases n - i,
{
    if n > i + 1 {
        lemma_drop_rows_stop(s, at, i, (n - 1) as nat);
    }
}

/// Write the floor as `drops.dat` holds it.
pub fn save(drops: &Drops) -> (bytes: Vec<u8>)
    ensures
        bytes@ == drops_bytes(drops@),
{
    proof {
        use_type_invariant(drops);
    }
    let ghost rows = drops@;
    let mut out: Vec<u8> = Vec::new();
    put_tag(&mut out, &MAGIC);
    put_u32(&mut out, VERSION);
    put_u32(&mut out, drops.drops.len() as u32);
    let ghost head = out@;
    let mut i: usize = 0;
    while i < drops.drops.len()
        invariant
            i <= drops.drops@.len(),
            rows == drops_view(drops.drops@),
            rows.len() == drops.drops@.len(),
            out@ == head + drop_rows_bytes(rows.take(i as int)),
        decreases drops.drops@.len() - i,
    {
        let d = &drops.drops[i];
        proof {
            assert(rows[i as int] == drop_view(drops.drops@[i as int]));
            assert(rows.take(i + 1).drop_last() =~= rows.take(i as int));
            assert(rows.take(i + 1).last() == rows[i as int]);
        }
        let name = d.good.as_str().as_bytes();
        put_pos(&mut out, d.at);
        put_u32(&mut out, name.len() as u32);
        put_bytes(&mut out, name);
        put_u64(&mut out, d.count);
        i = i + 1;
        assert(out@ =~= head + drop_rows_bytes(rows.take(i as int)));
    }
    assert(rows.take(i as int) =~= rows);
    out
}

/// Read `drops.dat`, putting each pile down in turn: `None` for a damaged
/// file, `Some(None)` for another version.
pub fn read(s: &[u8]) -> (r: Option<Option<Drops>>)
    ensures
        r is None <==> parse_drops(s@) is None,
        (r matches Some(None)) <==> (parse_drops(s@) matches Some(None)),
        r matches Some(Some(d)) ==> (parse_drops(s@) matches Some(Some(rows)) && d@ == shed_all(rows)),
{
    if !tag_at(s, 0, &MAGIC) {
        return None;
    }
    let version = match read_u32(s, 4) {
        Some((v, _)) => v,
        None => return None,
    };
    if version != VERSION {
        return Some(None);
    }
    let n = match read_u32(s, 8) {
        Some((n, _)) => n,
        None => return None,
    };
    if n as usize > MAX_DROPS {
        return None;
    }
    let mut drops = Drops::new();
    let mut pos: usize = 12;
    let mut i: u32 = 0;
    let ghost mut rows: Seq<(BlockPos, Seq<char>, u64)> = Seq::empty();
    while i < n
        invariant
            i <= n,
            n <= MAX_DROPS,
            stands_at(s@, 0, MAGIC@),
            u32_at(s@, 4) == Some((VERSION, 8int)),
            u32_at(s@, 8) == Some((n, 12int)),
            drop_rows_at(s@, 12, i as nat) == Some((rows, pos as int)),
            drops@ == shed_all(rows),
        decreases n - i,
    {
        let (at, a1) = match read_pos(s, pos) {
            Some(x) => x,
            None => {
                proof {
                    lemma_drop_rows_stop(s@, 12, i as nat, n as nat);
                }
                return None;
            },
        };
        let length = match read_u32(s, a1) {
            Some((length, _)) => {
                if length > MAX_NAME {
                    proof {
                        lemma_drop_rows_stop(s@, 12, i as nat, n as nat);
                    }
                    return None;
                }
                length
            },
            None => {
                proof {
                    lemma_drop_rows_stop(s@, 12, i as nat, n as nat);
                }
                return None;
            },
        };
        let (name_bytes, after_name) = match read_bytes(s, a1 + 4, length as usize) {
            Some(x) => x,
            None => {
                proof {
                    lemma_drop_rows_stop(s@, 12, i as nat, n as nat);
                }
                return None;
            },
        };
        let good = match string_from_utf8(name_bytes) {
            Some(t) => t,
            None => {
                proof {
                    lemma_drop_rows_stop(s@, 12, i as nat, n as nat);
                }
                return None;
            },
        };
        let (count, next) = match read_u64(s, after_name) {
            Some(x) => x,
            None => {
                proof {
                    lemma_drop_rows_stop(s@, 12, i as nat, n as nat);
                }
                return None;
            },
        };
        drops.shed(at, good.as_str(), count);
        proof {
            let row = (at, good@, count);
            assert(drop_row_at(s@, pos as int) == Some((row, next as int)));
            let grown = rows.push(row);
            assert(grown.drop_last() =~= rows);
            assert(grown.last() == row);
            rows = grown;
        }
        pos = next;
        i = i + 1;
    }
    Some(Some(drops))
}

/// Take what a saved floor says, tolerating absence and damage: a missing
/// or damaged floor is a clean floor, and damage is reported so the
/// caller can say so.
pub fn load(file: Option<&[u8]>) -> (r: (Drops, bool))
    ensures
        match file {
            None => r.0@.len() == 0 && !r.1,
            Some(s) => match parse_drops(s@) {
                None => r.0@.len() == 0 && r.1,
                Some(None) => r.0@.len() == 0 && !r.1,
                Some(Some(rows)) => r.0@ == shed_all(rows) && !r.1,
            },
        },
{
    match file {
        None => (Drops::new(), false),
        Some(s) => match read(s) {
            None => (Drops::new(), true),
            Some(None) => (Drops::new(), false),
            Some(Some(d)) => (d, false),
        },
    }
}

/// Putting down, one by one, the piles of a well-kept floor rebuilds that
/// floor exactly.
proof fn lemma_shed_all_rebuilds(rows: Seq<(BlockPos, Seq<char>, u64)>)
    requires
        piles_ok(rows),
    ensures
        shed_all(rows) == rows,
    decreases rows.len(),
{
    if rows.len() > 0 {
        let front = rows.drop_last();
        let r = rows.last();
        assert forall|i: int, j: int| 0 <= i < j < front.len() implies !(#[trigger] front[i].0
            == #[trigger] front[j].0 && front[i].1 == front[j].1) by {
            assert(front[i] == rows[i] && front[j] == rows[j]);
        }
        assert forall|i: int| 0 <= i < front.len() implies #[trigger] front[i].2 > 0 by {
            assert(front[i] == rows[i]);
        }
        lemma_shed_all_rebuilds(front);
        if has_pile(front, r.0, r.1) {
            let c = pile_index(front, r.0, r.1);
            assert(front[c] == rows[c]);
            assert(rows[rows.len() - 1] == r);
            assert(false);
        }
        assert(rows[rows.len() - 1] == r);
        assert(front.push(r) =~= rows);
    }
}

/// Names that fit in a drop row.
pub open spec fn drop_names_fit(rows: Seq<(BlockPos, Seq<char>, u64)>) -> bool {
    forall|i: int| 0 <= i < rows.len() ==> #[trigger] key(rows[i].1).len() <= MAX_NAME
}

proof fn lemma_drop_rows_round_trip(s: Seq<u8>, at: int, rows: Seq<(BlockPos, Seq<char>, u64)>)
    requires
        stands_at(s, at, drop_rows_bytes(rows)),
        drop_names_fit(rows),
    ensures
        drop_rows_at(s, at, rows.len()) == Some((rows, at + drop_rows_bytes(rows).len())),
    decreases rows.len(),
{
    if rows.len() > 0 {
        let front = rows.drop_last();
        let r = rows.last();
        lemma_stands_split(s, at, drop_rows_bytes(front), drop_row_bytes(r));
        assert forall|i: int| 0 <= i < front.len() implies #[trigger] key(front[i].1).len() <= MAX_NAME by {
            assert(front[i] == rows[i]);
        }
        lemma_drop_rows_round_trip(s, at, front);
        let p = at + drop_rows_bytes(front).len();
        lemma_pos_bytes_len(r.0);
        lemma_stands_split(s, p, pos_bytes(r.0), good_row_bytes((r.1, r.2)));
        lemma_pos_round_trip(s, p, r.0);
        assert(rows[rows.len() - 1] == r);
        lemma_good_row_round_trip(s, p + 12, (r.1, r.2), MAX_NAME);
        assert(front.push(r) =~= rows);
    }
}

/// **Drops survive a save**: what `drops.dat` is written as reads back as
/// the same floor, pile for pile and in the same order, for any floor whose
/// goods have names that fit.
pub proof fn lemma_drops_round_trip(rows: Seq<(BlockPos, Seq<char>, u64)>)
    requires
        piles_ok(rows),
        drop_names_fit(rows),
    ensures
        parse_drops(drops_bytes(rows)) == Some(Some(rows)),
        shed_all(rows) == rows,
{
    let s = drops_bytes(rows);
    lemma_u32_bytes_len(VERSION);
    lemma_u32_bytes_len(rows.len() as u32);
    let head = MAGIC@ + u32_bytes(VERSION) + u32_bytes(rows.len() as u32);
    assert(s == head + drop_rows_bytes(rows));
    assert(s.subrange(0, 4) =~= MAGIC@);
    assert(s.subrange(4, 8) =~= u32_bytes(VERSION));
    assert(s.subrange(8, 12) =~= u32_bytes(rows.len() as u32));
    lemma_u32_round_trip(s, 4, VERSION);
    lemma_u32_round_trip(s, 8, rows.len() as u32);
    lemma_stands_at_end(head, drop_rows_bytes(rows));
    lemma_drop_rows_round_trip(s, 12, rows);
    lemma_shed_all_rebuilds(rows);
}

} // verus!
