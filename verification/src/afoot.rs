//! The ground a body can cross, as opposed to the ground a drone can drive.
//!
//! A body is two blocks tall, pulls itself up a ledge of [`CLIMB`], and steps
//! off a drop of up to [`DROP`] without thinking about it. This is a
//! breadth-first sweep with those rules, over the cells around a place: a
//! sweep of what can be seen from here, not a route planner.
//!
//! The world comes in as a [`Terrain`]: which cells of a box around the place
//! are solid, and how high the world goes. Cells outside the box are open.
use vstd::prelude::*;

use crate::geometry::BlockPos;

verus! {

/// Blocks of ledge a body will pull itself up.
pub const CLIMB: i32 = 2;

/// Blocks a body will step off without thinking about it.
pub const DROP: i32 = 6;

/// A box of cells: its low corner and how many cells it runs along x, y
/// and z.
pub open spec fn in_box(min: BlockPos, size: (i32, i32, i32), p: BlockPos) -> bool {
    &&& min.x <= p.x < min.x + size.0
    &&& min.y <= p.y < min.y + size.1
    &&& min.z <= p.z < min.z + size.2
}

/// How many cells a box holds.
pub open spec fn volume(size: (i32, i32, i32)) -> int {
    size.0 * size.1 * size.2
}

/// Where a cell of a box is kept: layer by layer, row by row.
pub open spec fn cell_index(min: BlockPos, size: (i32, i32, i32), p: BlockPos) -> int {
    ((p.y - min.y) * size.2 + (p.z - min.z)) * size.0 + (p.x - min.x)
}

/// Whether a box's corners can be counted from without leaving `i32`, and
/// its cells without leaving `usize`.
pub open spec fn box_fits(min: BlockPos, size: (i32, i32, i32)) -> bool {
    &&& size.0 >= 0 && size.1 >= 0 && size.2 >= 0
    &&& min.x + size.0 <= i32::MAX && min.y + size.1 <= i32::MAX && min.z + size.2 <= i32::MAX
    &&& volume(size) <= usize::MAX
}

proof fn lemma_index_in_range(min: BlockPos, size: (i32, i32, i32), p: BlockPos)
    requires
        in_box(min, size, p),
    ensures
        0 <= cell_index(min, size, p) < volume(size),
{
    let x = p.x - min.x;
    let y = p.y - min.y;
    let z = p.z - min.z;
    let (a, b, c) = (size.0 as int, size.1 as int, size.2 as int);
    assert(0 <= (y * c + z) * a + x < a * b * c) by (nonlinear_arith)
        requires
            0 <= x < a,
            0 <= y < b,
            0 <= z < c,
    ;
}

proof fn lemma_index_injective(min: BlockPos, size: (i32, i32, i32), p: BlockPos, q: BlockPos)
    requires
        in_box(min, size, p),
        in_box(min, size, q),
        cell_index(min, size, p) == cell_index(min, size, q),
    ensures
        p == q,
{
    let (a, c) = (size.0 as int, size.2 as int);
    let (px, py, pz) = (p.x - min.x, p.y - min.y, p.z - min.z);
    let (qx, qy, qz) = (q.x - min.x, q.y - min.y, q.z - min.z);
    let u = py * c + pz;
    let v = qy * c + qz;
    assert(u == v && px == qx) by (nonlinear_arith)
        requires
            u * a + px == v * a + qx,
            0 <= px < a,
            0 <= qx < a,
    ;
    assert(py == qy && pz == qz) by (nonlinear_arith)
        requires
            py * c + pz == qy * c + qz,
            0 <= pz < c,
            0 <= qz < c,
    ;
}

/// Where `p` is kept in a box, if the box holds it.
fn index_of(min: BlockPos, size: (i32, i32, i32), p: BlockPos) -> (i: Option<usize>)
    requires
        box_fits(min, size),
    ensures
        i is Some <==> in_box(min, size, p),
        i matches Some(k) ==> k == cell_index(min, size, p) && k < volume(size),
{
    let x = p.x as i64 - min.x as i64;
    let y = p.y as i64 - min.y as i64;
    let z = p.z as i64 - min.z as i64;
    if x < 0 || y < 0 || z < 0 || x >= size.0 as i64 || y >= size.1 as i64 || z >= size.2 as i64 {
        return None;
    }
    proof {
        lemma_index_in_range(min, size, p);
    }
    let (a, c) = (size.0 as u128, size.2 as u128);
    let (x, y, z) = (x as u128, y as u128, z as u128);
    assert(y * c + z <= 0xffff_ffff_ffff_ffff) by (nonlinear_arith)
        requires
            y <= 0x7fff_ffff,
            z <= 0x7fff_ffff,
            c <= 0x7fff_ffff,
    ;
    assert((y * c + z) * a + x <= 0xffff_ffff_ffff_ffff_ffff_ffff) by (nonlinear_arith)
        requires
            y * c + z <= 0xffff_ffff_ffff_ffff,
            a <= 0x7fff_ffff,
            x <= 0x7fff_ffff,
    ;
    Some(((y * c + z) * a + x) as usize)
}

/// Which cells of a box around a place are solid, and the first height out
/// of the world. Cells outside the box are open.
#[derive(Debug)]
pub struct Terrain {
    min: BlockPos,
    size: (i32, i32, i32),
    solid: Vec<bool>,
    top: i32,
}

impl Terrain {
    #[verifier::type_invariant]
    closed spec fn well_formed(self) -> bool {
        &&& box_fits(self.min, self.size)
        &&& self.solid@.len() == volume(self.size)
    }

    /// Whether the cell at `p` is solid.
    pub closed spec fn solid_at(&self, p: BlockPos) -> bool {
        in_box(self.min, self.size, p) && self.solid@[cell_index(self.min, self.size, p)]
    }

    /// The first height out of the world.
    pub closed spec fn ceiling(&self) -> i32 {
        self.top
    }

    /// A box of cells, `solid` holding each one layer by layer (y), row by
    /// row (z), then along x; `None` when the cells do not fill the box or
    /// the box does not fit.
    pub fn new(min: BlockPos, size: (i32, i32, i32), solid: Vec<bool>, top: i32) -> (t: Option<Terrain>)
        ensures
            t is Some <==> (box_fits(min, size) && solid@.len() == volume(size)),
            t matches Some(t) ==> t.ceiling() == top && forall|p: BlockPos|
                #![trigger t.solid_at(p)]
                t.solid_at(p) == (in_box(min, size, p) && solid@[cell_index(min, size, p)]),
    {
        if size.0 < 0 || size.1 < 0 || size.2 < 0 {
            return None;
        }
        if min.x as i64 + size.0 as i64 > i32::MAX as i64 || min.y as i64 + size.1 as i64
            > i32::MAX as i64 || min.z as i64 + size.2 as i64 > i32::MAX as i64 {
            return None;
        }
        let (a, b, c) = (size.0 as u128, size.1 as u128, size.2 as u128);
        assert(a * b <= 0xffff_ffff_ffff_ffff && a * b * c <= 0x7fff_ffff_ffff_ffff_ffff_ffff) by (nonlinear_arith)
            requires
                a <= 0x7fff_ffff,
                b <= 0x7fff_ffff,
                c <= 0x7fff_ffff,
        ;
        let cells = a * b * c;
        if cells > usize::MAX as u128 || cells != solid.len() as u128 {
            return None;
        }
        Some(Terrain { min, size, solid, top })
    }

    /// Whether the cell at `p` is solid.
    pub fn is_solid(&self, p: BlockPos) -> (s: bool)
        ensures
            s == self.solid_at(p),
    {
        proof {
            use_type_invariant(self);
        }
        match index_of(self.min, self.size, p) {
            Some(i) => self.solid[i],
            None => false,
        }
    }
}

/// Whether a body can stand at `p`: inside the world, floor beneath, and two
/// blocks of it clear.
pub open spec fn standable_spec(t: Terrain, p: BlockPos) -> bool {
    &&& 1 < p.y < t.ceiling()
    &&& !t.solid_at(p)
    &&& !t.solid_at(BlockPos { x: p.x, y: (p.y + 1) as i32, z: p.z })
    &&& t.solid_at(BlockPos { x: p.x, y: (p.y - 1) as i32, z: p.z })
}

/// Can a body stand here? Floor beneath, and two blocks of it clear.
pub fn standable(t: &Terrain, p: BlockPos) -> (ok: bool)
    ensures
        ok == standable_spec(*t, p),
{
    if p.y <= 1 || p.y >= t.top {
        return false;
    }
    !t.is_solid(p) && !t.is_solid(BlockPos { x: p.x, y: p.y + 1, z: p.z }) && t.is_solid(
        BlockPos { x: p.x, y: p.y - 1, z: p.z },
    )
}

/// Where a body at `p` ends up once gravity has had its say: straight down
/// until there is something under it, or the floor of the world.
pub open spec fn settled(t: Terrain, p: BlockPos) -> BlockPos
    decreases p.y,
{
    if p.y > 1 && !t.solid_at(BlockPos { x: p.x, y: (p.y - 1) as i32, z: p.z }) {
        settled(t, BlockPos { x: p.x, y: (p.y - 1) as i32, z: p.z })
    } else {
        p
    }
}

proof fn lemma_settled_column(t: Terrain, p: BlockPos)
    ensures
        settled(t, p).x == p.x,
        settled(t, p).z == p.z,
        settled(t, p).y <= p.y,
        settled(t, p).y >= if p.y > 1 {
            1
        } else {
            p.y
        },
    decreases p.y,
{
    if p.y > 1 && !t.solid_at(BlockPos { x: p.x, y: (p.y - 1) as i32, z: p.z }) {
        lemma_settled_column(t, BlockPos { x: p.x, y: (p.y - 1) as i32, z: p.z });
    }
}

/// The cell under `p`.
fn below(p: BlockPos) -> (b: BlockPos)
    requires
        p.y > i32::MIN,
    ensures
        b == (BlockPos { x: p.x, y: (p.y - 1) as i32, z: p.z }),
{
    BlockPos { x: p.x, y: p.y - 1, z: p.z }
}

/// The cell a body at `p` ends up in once gravity has had its say.
pub fn settle(t: &Terrain, p: BlockPos) -> (at: BlockPos)
    ensures
        at == settled(*t, p),
        at.x == p.x && at.z == p.z && at.y <= p.y,
        at.y >= if p.y > 1 {
            1
        } else {
            p.y
        },
{
    proof {
        lemma_settled_column(*t, p);
    }
    let mut at = p;
    while at.y > 1 && !t.is_solid(below(at))
        invariant
            settled(*t, at) == settled(*t, p),
        decreases at.y,
    {
        at = below(at);
    }
    at
}

/// The cell `dy` up (or down) from `p`, one step along `(dx, dz)`.
pub open spec fn stepped(p: BlockPos, dx: i32, dy: int, dz: i32) -> BlockPos {
    BlockPos { x: (p.x + dx) as i32, y: (p.y + dy) as i32, z: (p.z + dz) as i32 }
}

/// The footing one step from `p` along `(dx, dz)`, trying heights from `dy`
/// down to the deepest drop: the highest a body can stand on.
pub open spec fn footing_from(t: Terrain, p: BlockPos, dx: i32, dz: i32, dy: int) -> Option<BlockPos>
    decreases dy + DROP + 1,
{
    if dy < -DROP {
        None
    } else if standable_spec(t, stepped(p, dx, dy, dz)) {
        Some(stepped(p, dx, dy, dz))
    } else {
        footing_from(t, p, dx, dz, dy - 1)
    }
}

/// The footing reachable in one step from `p` along `(dx, dz)`: a step up
/// is preferred to a step down when both are there, which is what a person
/// walking a slope does.
pub open spec fn footing_spec(t: Terrain, p: BlockPos, dx: i32, dz: i32) -> Option<BlockPos> {
    footing_from(t, p, dx, dz, CLIMB as int)
}

/// Whether a cell and its neighbours, as far as a step reaches, have
/// coordinates.
pub open spec fn roomy(p: BlockPos) -> bool {
    &&& i32::MIN + 1 <= p.x <= i32::MAX - 1
    &&& i32::MIN + DROP + 1 <= p.y <= i32::MAX - CLIMB - 1
    &&& i32::MIN + 1 <= p.z <= i32::MAX - 1
}

fn footing(t: &Terrain, p: BlockPos, dx: i32, dz: i32) -> (f: Option<BlockPos>)
    requires
        roomy(p),
        -1 <= dx <= 1,
        -1 <= dz <= 1,
    ensures
        f == footing_spec(*t, p, dx, dz),
{
    let mut dy: i32 = CLIMB;
    while dy >= -DROP
        invariant
            -DROP - 1 <= dy <= CLIMB,
            roomy(p),
            -1 <= dx <= 1,
            -1 <= dz <= 1,
            footing_spec(*t, p, dx, dz) == footing_from(*t, p, dx, dz, dy as int),
        decreases dy + DROP + 1,
    {
        let next = BlockPos { x: p.x + dx, y: p.y + dy, z: p.z + dz };
        assert(next == stepped(p, dx, dy as int, dz));
        if standable(t, next) {
            return Some(next);
        }
        dy = dy - 1;
    }
    None
}

/// Whether `(dx, dz)` is one step along an axis.
pub open spec fn unit_step(dx: i32, dz: i32) -> bool {
    (dx == 1 && dz == 0) || (dx == -1 && dz == 0) || (dx == 0 && dz == 1) || (dx == 0 && dz == -1)
}

/// Whether a body at `q` reaches `p` in one step.
pub open spec fn step_from(t: Terrain, q: BlockPos, p: BlockPos) -> bool {
    exists|dx: i32, dz: i32| unit_step(dx, dz) && #[trigger] footing_spec(t, q, dx, dz) == Some(p)
}

proof fn lemma_footing_stands(t: Terrain, p: BlockPos, dx: i32, dz: i32, dy: int)
    requires
        footing_from(t, p, dx, dz, dy) is Some,
    ensures
        standable_spec(t, footing_from(t, p, dx, dz, dy)->Some_0),
        footing_from(t, p, dx, dz, dy)->Some_0.x == (p.x + dx) as i32,
        footing_from(t, p, dx, dz, dy)->Some_0.z == (p.z + dz) as i32,
    decreases dy + DROP + 1,
{
    if dy >= -DROP && !standable_spec(t, stepped(p, dx, dy, dz)) {
        lemma_footing_stands(t, p, dx, dz, dy - 1);
    }
}

/// How many cells nothing has reached yet.
spec fn count_none(s: Seq<Option<BlockPos>>) -> nat
    decreases s.len(),
{
    if s.len() == 0 {
        0
    } else {
        count_none(s.drop_last()) + if s.last() is None {
            1nat
        } else {
            0nat
        }
    }
}

proof fn lemma_count_none_update(s: Seq<Option<BlockPos>>, i: int, v: BlockPos)
    requires
        0 <= i < s.len(),
        s[i] is None,
    ensures
        count_none(s.update(i, Some(v))) + 1 == count_none(s),
    decreases s.len(),
{
    let u = s.update(i, Some(v));
    if i < s.len() - 1 {
        assert(u.drop_last() =~= s.drop_last().update(i, Some(v)));
        lemma_count_none_update(s.drop_last(), i, v);
    } else {
        assert(u.drop_last() =~= s.drop_last());
    }
}

proof fn lemma_count_none_all(n: nat)
    ensures
        count_none(Seq::new(n, |i: int| None::<BlockPos>)) == n,
    decreases n,
{
    if n > 0 {
        assert(Seq::new(n, |i: int| None::<BlockPos>).drop_last() =~= Seq::new((n - 1) as nat, |i: int| None::<BlockPos>));
        lemma_count_none_all((n - 1) as nat);
    }
}

proof fn lemma_count_none_bound(s: Seq<Option<BlockPos>>)
    ensures
        count_none(s) <= s.len(),
    decreases s.len(),
{
    if s.len() > 0 {
        lemma_count_none_bound(s.drop_last());
    }
}

/// A breadth-first sweep of the walkable ground around a place: for every
/// cell of its box that a body reaches, the cell it was reached from, so a
/// route back out is a walk up the chain rather than a second search.
pub struct Ground {
    min: BlockPos,
    size: (i32, i32, i32),
    came: Vec<Option<BlockPos>>,
    /// How many steps from the root each cell was reached in.
    rank: Ghost<Seq<nat>>,
}

impl Ground {
    #[verifier::type_invariant]
    closed spec fn chained(self) -> bool {
        &&& box_fits(self.min, self.size)
        &&& self.came@.len() == volume(self.size)
        &&& self.rank@.len() == volume(self.size)
        &&& forall|p: BlockPos|
            #![trigger self.came@[cell_index(self.min, self.size, p)]]
            in_box(self.min, self.size, p) ==> (self.came@[cell_index(self.min, self.size, p)] matches Some(q) ==> {
                &&& in_box(self.min, self.size, q)
                &&& self.came@[cell_index(self.min, self.size, q)] is Some
                &&& q != p ==> self.rank@[cell_index(self.min, self.size, q)] < self.rank@[cell_index(self.min, self.size, p)]
            })
    }

    /// The low corner of the swept box.
    pub closed spec fn low(&self) -> BlockPos {
        self.min
    }

    /// How many cells the swept box runs along x, y and z.
    pub closed spec fn extent(&self) -> (i32, i32, i32) {
        self.size
    }

    /// The cell `p` was reached from: itself for the cell the sweep started
    /// at, nothing for a cell the sweep did not reach.
    pub closed spec fn pred(&self, p: BlockPos) -> Option<BlockPos> {
        if in_box(self.min, self.size, p) {
            self.came@[cell_index(self.min, self.size, p)]
        } else {
            None
        }
    }

    /// How many steps out from where it started the sweep reached `p`.
    pub closed spec fn steps(&self, p: BlockPos) -> nat {
        self.rank@[cell_index(self.min, self.size, p)]
    }
}

/// What a sweep from `root` over this terrain is: it reaches the root when a
/// body can stand there, nought steps out; every cell it reaches is one a
/// body can stand in, reached in one step from its predecessor and one step
/// further out than it, the root alone being its own; and every step from a
/// reached cell that stays in the box lands on a reached cell no more than
/// one step further out: breadth first.
pub open spec fn swept(g: Ground, t: Terrain, root: BlockPos) -> bool {
    &&& (g.pred(root) is Some <==> standable_spec(t, root))
    &&& g.pred(root) is Some ==> g.steps(root) == 0
    &&& forall|p: BlockPos|
        #![trigger g.pred(p)]
        g.pred(p) matches Some(q) ==> {
            &&& standable_spec(t, p)
            &&& q == p ==> p == root
            &&& q != p ==> step_from(t, q, p) && g.steps(p) == g.steps(q) + 1
        }
    &&& forall|p: BlockPos, dx: i32, dz: i32|
        #![trigger g.pred(p), footing_spec(t, p, dx, dz)]
        g.pred(p) is Some && unit_step(dx, dz) ==> (footing_spec(t, p, dx, dz) matches Some(n) ==> (
        in_box(g.low(), g.extent(), n) ==> (g.pred(n) is Some && g.steps(n) <= g.steps(p) + 1)))
}

/// Whether a sweep `look` blocks each way and `rise` up and down from
/// `from` keeps every coordinate it looks at inside `i32`, and its cells
/// inside `usize`.
pub open spec fn sweep_fits(from: BlockPos, look: i32, rise: i32) -> bool {
    &&& 0 <= look && 2 * look + 1 <= i32::MAX
    &&& 0 <= rise && 2 * rise + 1 <= i32::MAX
    &&& i32::MIN + look + 2 <= from.x && from.x + look + 2 <= i32::MAX
    &&& i32::MIN + look + 2 <= from.z && from.z + look + 2 <= i32::MAX
    &&& i32::MIN + rise + DROP + 2 <= from.y && from.y + rise + CLIMB + 2 <= i32::MAX
    &&& i32::MIN + rise + DROP + 2 <= 1
    &&& (2 * look + 1) * (2 * rise + 1) * (2 * look + 1) <= usize::MAX
}

/// The four ways a body steps, in the order they are tried.
pub open spec fn way(k: int) -> (i32, i32) {
    if k == 0 {
        (1i32, 0i32)
    } else if k == 1 {
        (-1i32, 0i32)
    } else if k == 2 {
        (0i32, 1i32)
    } else {
        (0i32, -1i32)
    }
}

proof fn lemma_distinct_index(min: BlockPos, size: (i32, i32, i32), p: BlockPos, q: BlockPos)
    requires
        in_box(min, size, p),
        in_box(min, size, q),
        p != q,
    ensures
        cell_index(min, size, p) != cell_index(min, size, q),
{
    if cell_index(min, size, p) == cell_index(min, size, q) {
        lemma_index_injective(min, size, p, q);
    }
}

/// Every reached cell of a box is one a body stands in, reached in one step
/// from a reached cell fewer steps out, the root alone being its own.
#[verifier::opaque]
spec fn tree_ok(t: Terrain, root: BlockPos, min: BlockPos, size: (i32, i32, i32), came: Seq<Option<BlockPos>>, rank: Seq<nat>) -> bool {
    forall|p: BlockPos|
        #![trigger came[cell_index(min, size, p)]]
        in_box(min, size, p) ==> (came[cell_index(min, size, p)] matches Some(q) ==> {
            &&& in_box(min, size, q)
            &&& came[cell_index(min, size, q)] is Some
            &&& standable_spec(t, p)
            &&& q == p ==> p == root
            &&& q != p ==> rank[cell_index(min, size, p)] == rank[cell_index(min, size, q)] + 1
            &&& q != p ==> step_from(t, q, p)
        })
}

/// The cells waiting or done are exactly the reached ones.
#[verifier::opaque]
spec fn queue_ok(min: BlockPos, size: (i32, i32, i32), came: Seq<Option<BlockPos>>, queue: Seq<BlockPos>) -> bool {
    &&& forall|i: int|
        0 <= i < queue.len() ==> in_box(min, size, #[trigger] queue[i]) && came[cell_index(min, size, queue[i])] is Some
    &&& forall|p: BlockPos|
        #![trigger came[cell_index(min, size, p)]]
        in_box(min, size, p) && came[cell_index(min, size, p)] is Some ==> exists|i: int|
            0 <= i < queue.len() && #[trigger] queue[i] == p
}

proof fn lemma_tree_grows(
    t: Terrain,
    root: BlockPos,
    min: BlockPos,
    size: (i32, i32, i32),
    came: Seq<Option<BlockPos>>,
    rank: Seq<nat>,
    at: BlockPos,
    next: BlockPos,
)
    requires
        box_fits(min, size),
        came.len() == volume(size),
        rank.len() == volume(size),
        tree_ok(t, root, min, size, came, rank),
        in_box(min, size, at),
        came[cell_index(min, size, at)] is Some,
        in_box(min, size, next),
        came[cell_index(min, size, next)] is None,
        standable_spec(t, next),
        step_from(t, at, next),
        next != at,
    ensures
        tree_ok(
            t,
            root,
            min,
            size,
            came.update(cell_index(min, size, next), Some(at)),
            rank.update(cell_index(min, size, next), rank[cell_index(min, size, at)] + 1),
        ),
{
    reveal(tree_ok);
    let ni = cell_index(min, size, next);
    let ai = cell_index(min, size, at);
    let c = came.update(ni, Some(at));
    let r = rank.update(ni, rank[ai] + 1);
    lemma_index_in_range(min, size, next);
    lemma_index_in_range(min, size, at);
    lemma_distinct_index(min, size, at, next);
    assert(c[ai] == came[ai]);
    assert(r[ai] == rank[ai]);
    assert(c[ni] == Some(at));
    assert(r[ni] == rank[ai] + 1);
    assert forall|p: BlockPos| #![trigger c[cell_index(min, size, p)]]
        in_box(min, size, p) implies (c[cell_index(min, size, p)] matches Some(q) ==> {
            &&& in_box(min, size, q)
            &&& c[cell_index(min, size, q)] is Some
            &&& standable_spec(t, p)
            &&& q == p ==> p == root
            &&& q != p ==> r[cell_index(min, size, p)] == r[cell_index(min, size, q)] + 1
            &&& q != p ==> step_from(t, q, p)
        }) by {
        lemma_index_in_range(min, size, p);
        if p != next {
            lemma_distinct_index(min, size, p, next);
            let pi = cell_index(min, size, p);
            assert(c[pi] == came[pi]);
            assert(r[pi] == rank[pi]);
            if let Some(q) = c[pi] {
                assert(came[pi] == Some(q));
                assert(in_box(min, size, q));
                let qi = cell_index(min, size, q);
                assert(came[qi] is Some);
                lemma_index_in_range(min, size, q);
                if q != next {
                    lemma_distinct_index(min, size, q, next);
                    assert(c[qi] == came[qi]);
                    assert(r[qi] == rank[qi]);
                } else {
                    assert(false);
                }
            }
        }
    }
}

proof fn lemma_queue_grows(
    min: BlockPos,
    size: (i32, i32, i32),
    came: Seq<Option<BlockPos>>,
    queue: Seq<BlockPos>,
    at: BlockPos,
    next: BlockPos,
)
    requires
        box_fits(min, size),
        came.len() == volume(size),
        queue_ok(min, size, came, queue),
        in_box(min, size, next),
    ensures
        queue_ok(min, size, came.update(cell_index(min, size, next), Some(at)), queue.push(next)),
        forall|p: BlockPos|
            #![trigger came.update(cell_index(min, size, next), Some(at))[cell_index(min, size, p)]]
            in_box(min, size, p) && came[cell_index(min, size, p)] is Some ==> came.update(
                cell_index(min, size, next),
                Some(at),
            )[cell_index(min, size, p)] is Some,
{
    reveal(queue_ok);
    let ni = cell_index(min, size, next);
    let c = came.update(ni, Some(at));
    let qq = queue.push(next);
    lemma_index_in_range(min, size, next);
    assert(qq[queue.len() as int] == next);
    assert forall|i: int| 0 <= i < qq.len() implies in_box(min, size, #[trigger] qq[i]) && c[cell_index(min, size, qq[i])] is Some by {
        if i < queue.len() {
            assert(qq[i] == queue[i]);
            lemma_index_in_range(min, size, qq[i]);
            if qq[i] != next {
                lemma_distinct_index(min, size, qq[i], next);
            }
        }
    }
    assert forall|p: BlockPos| #![trigger c[cell_index(min, size, p)]]
        in_box(min, size, p) && c[cell_index(min, size, p)] is Some implies exists|i: int|
        0 <= i < qq.len() && #[trigger] qq[i] == p by {
        lemma_index_in_range(min, size, p);
        if p == next {
            assert(qq[queue.len() as int] == p);
        } else {
            lemma_distinct_index(min, size, p, next);
            assert(came[cell_index(min, size, p)] is Some);
            let i = choose|i: int| 0 <= i < queue.len() && #[trigger] queue[i] == p;
            assert(qq[i] == p);
        }
    }
    assert forall|p: BlockPos|
        in_box(min, size, p) && came[cell_index(min, size, p)] is Some implies #[trigger] c[cell_index(min, size, p)] is Some by {
        lemma_index_in_range(min, size, p);
        if p != next {
            lemma_distinct_index(min, size, p, next);
        }
    }
}

/// Cells queued in order of how many steps out they were reached.
spec fn queue_ranked(min: BlockPos, size: (i32, i32, i32), rank: Seq<nat>, queue: Seq<BlockPos>) -> bool {
    forall|i: int, j: int|
        0 <= i <= j < queue.len() ==> #[trigger] rank[cell_index(min, size, queue[i])] <= #[trigger] rank[cell_index(
            min,
            size,
            queue[j],
        )]
}

/// A sweep under way: what each reached cell came from, how many steps out
/// it was reached, the cells in the order they were reached, how many of
/// them have had their neighbours looked at, and how many cells nothing has
/// reached yet.
struct Sweep {
    min: BlockPos,
    size: (i32, i32, i32),
    came: Vec<Option<BlockPos>>,
    rank: Ghost<Seq<nat>>,
    queue: Vec<BlockPos>,
    head: usize,
    untouched: Ghost<nat>,
}

impl Sweep {
    spec fn touched(&self, p: BlockPos) -> bool {
        self.came@[cell_index(self.min, self.size, p)] is Some
    }

    spec fn inv(&self, t: Terrain, root: BlockPos) -> bool {
        &&& box_fits(self.min, self.size)
        &&& self.came@.len() == volume(self.size)
        &&& self.rank@.len() == volume(self.size)
        &&& forall|p: BlockPos| in_box(self.min, self.size, p) ==> #[trigger] roomy(p)
        &&& in_box(self.min, self.size, root)
        &&& self.came@[cell_index(self.min, self.size, root)] == Some(root)
        &&& standable_spec(t, root)
        &&& tree_ok(t, root, self.min, self.size, self.came@, self.rank@)
        &&& queue_ok(self.min, self.size, self.came@, self.queue@)
        &&& self.head <= self.queue@.len()
        &&& self.untouched@ == count_none(self.came@)
        &&& self.queue@.len() + self.untouched@ == volume(self.size)
        &&& self.rank_of(root) == 0
        &&& self.ranked()
    }

    /// How many steps out a cell was reached.
    spec fn rank_of(&self, p: BlockPos) -> nat {
        self.rank@[cell_index(self.min, self.size, p)]
    }

    /// The cells were reached in order of how many steps out they are.
    spec fn ranked(&self) -> bool {
        queue_ranked(self.min, self.size, self.rank@, self.queue@)
    }

    /// Every step from the first `n` reached cells that stays in the box
    /// lands on a reached cell.
    spec fn done_upto(&self, t: Terrain, n: int) -> bool {
        forall|i: int, dx: i32, dz: i32|
            #![trigger footing_spec(t, self.queue@[i], dx, dz)]
            0 <= i < n && unit_step(dx, dz) ==> (footing_spec(t, self.queue@[i], dx, dz) matches Some(nx) ==> (
            in_box(self.min, self.size, nx) ==> (self.came@[cell_index(self.min, self.size, nx)] is Some
                && self.rank_of(nx) <= self.rank_of(self.queue@[i]) + 1)))
    }

    /// Look one step from `at` along `(dx, dz)`, and take the cell there if
    /// nothing has reached it yet.
    #[verifier::rlimit(40)]
    fn visit(&mut self, t: &Terrain, Ghost(root): Ghost<BlockPos>, at: BlockPos, dx: i32, dz: i32)
        requires
            old(self).inv(*t, root),
            in_box(old(self).min, old(self).size, at),
            old(self).came@[cell_index(old(self).min, old(self).size, at)] is Some,
            unit_step(dx, dz),
            old(self).queue@.len() > 0,
            old(self).rank_of(old(self).queue@.last()) <= old(self).rank_of(at) + 1,
        ensures
            final(self).inv(*t, root),
            final(self).rank_of(final(self).queue@.last()) <= old(self).rank_of(at) + 1,
            final(self).rank_of(at) == old(self).rank_of(at),
            forall|p: BlockPos|
                #![trigger final(self).rank_of(p)]
                in_box(old(self).min, old(self).size, p) && old(self).came@[cell_index(old(self).min, old(self).size, p)] is Some
                    ==> final(self).rank_of(p) == old(self).rank_of(p),
            final(self).min == old(self).min,
            final(self).size == old(self).size,
            final(self).head == old(self).head,
            final(self).queue@.len() >= old(self).queue@.len(),
            forall|i: int| 0 <= i < old(self).queue@.len() ==> #[trigger] final(self).queue@[i] == old(self).queue@[i],
            forall|p: BlockPos|
                #![trigger final(self).came@[cell_index(old(self).min, old(self).size, p)]]
                in_box(old(self).min, old(self).size, p) && old(self).came@[cell_index(old(self).min, old(self).size, p)] is Some
                    ==> final(self).came@[cell_index(old(self).min, old(self).size, p)] is Some,
            footing_spec(*t, at, dx, dz) matches Some(nx) ==> (in_box(old(self).min, old(self).size, nx)
                ==> (final(self).came@[cell_index(old(self).min, old(self).size, nx)] is Some
                && final(self).rank_of(nx) <= old(self).rank_of(at) + 1)),
    {
        let (min, size) = (self.min, self.size);
        assert(roomy(at));
        let next = match footing(t, at, dx, dz) {
            None => return,
            Some(next) => next,
        };
        proof {
            lemma_footing_stands(*t, at, dx, dz, CLIMB as int);
        }
        let ni = match index_of(min, size, next) {
            None => return,
            Some(ni) => ni,
        };
        if self.came[ni].is_some() {
            proof {
                reveal(queue_ok);
                lemma_index_in_range(min, size, next);
                let j = choose|j: int| 0 <= j < self.queue@.len() && #[trigger] self.queue@[j] == next;
                assert(self.rank_of(self.queue@[j]) <= self.rank_of(self.queue@[self.queue@.len() - 1]));
            }
            return;
        }
        let ghost was = self.came@;
        let ghost rank_was = self.rank@;
        let ghost queue_was = self.queue@;
        proof {
            lemma_index_in_range(min, size, at);
            lemma_index_in_range(min, size, next);
            assert(next != at);
            assert(step_from(*t, at, next));
            lemma_tree_grows(*t, root, min, size, was, rank_was, at, next);
            lemma_queue_grows(min, size, was, queue_was, at, next);
            lemma_count_none_update(was, ni as int, at);
        }
        self.came.set(ni, Some(at));
        self.rank = Ghost(rank_was.update(ni as int, rank_was[cell_index(min, size, at)] + 1));
        self.untouched = Ghost((self.untouched@ - 1) as nat);
        self.queue.push(next);
        proof {
            assert(self.queue@ == queue_was.push(next));
            assert(self.came@ == was.update(ni as int, Some(at)));
            assert forall|i: int| 0 <= i < queue_was.len() implies #[trigger] self.queue@[i] == queue_was[i] by {}
            let root_i = cell_index(min, size, root);
            assert(was[root_i] == Some(root));
            lemma_index_in_range(min, size, root);
            if root == next {
                assert(false);
            }
            lemma_distinct_index(min, size, root, next);
            assert(self.came@[root_i] == Some(root));
            assert(self.untouched@ == count_none(self.came@));
            assert(self.queue@.len() + self.untouched@ == volume(size));
            assert(self.came@.len() == volume(size));
            assert(self.rank@.len() == volume(size));
            let old_s = *old(self);
            assert forall|p: BlockPos|
                in_box(min, size, p) && was[cell_index(min, size, p)] is Some implies #[trigger] self.rank_of(p)
                == rank_was[cell_index(min, size, p)] by {
                lemma_index_in_range(min, size, p);
                if p == next {
                    assert(false);
                }
                lemma_distinct_index(min, size, p, next);
            }
            reveal(queue_ok);
            assert forall|i: int| 0 <= i < queue_was.len() implies #[trigger] self.rank_of(self.queue@[i])
                == rank_was[cell_index(min, size, queue_was[i])] by {
                assert(self.queue@[i] == queue_was[i]);
                assert(in_box(min, size, queue_was[i]) && was[cell_index(min, size, queue_was[i])] is Some);
            }
            assert(self.rank_of(next) == rank_was[cell_index(min, size, at)] + 1) by {
                lemma_index_in_range(min, size, next);
            }
            assert(self.rank_of(at) == rank_was[cell_index(min, size, at)]);
            assert forall|i: int, j: int| 0 <= i <= j < self.queue@.len() implies #[trigger] self.rank@[cell_index(
                min,
                size,
                self.queue@[i],
            )] <= #[trigger] self.rank@[cell_index(min, size, self.queue@[j])] by {
                assert(self.rank_of(self.queue@[i]) == self.rank@[cell_index(min, size, self.queue@[i])]);
                assert(self.rank_of(self.queue@[j]) == self.rank@[cell_index(min, size, self.queue@[j])]);
                if j < queue_was.len() {
                    assert(rank_was[cell_index(min, size, queue_was[i])] <= rank_was[cell_index(min, size, queue_was[j])]);
                } else if i < queue_was.len() {
                    let last = queue_was.len() - 1;
                    assert(rank_was[cell_index(min, size, queue_was[i])] <= rank_was[cell_index(min, size, queue_was[last])]);
                    assert(old_s.rank_of(old_s.queue@.last()) == rank_was[cell_index(min, size, queue_was[last])]);
                }
            }
            assert(self.ranked());
        }
    }
}

/// What the first `n` reached cells have looked at stays looked at while the
/// sweep only adds cells.
proof fn lemma_done_kept(a: Sweep, b: Sweep, t: Terrain, n: int)
    requires
        a.done_upto(t, n),
        n <= a.queue@.len(),
        a.min == b.min,
        a.size == b.size,
        b.queue@.len() >= a.queue@.len(),
        forall|i: int| 0 <= i < a.queue@.len() ==> #[trigger] b.queue@[i] == a.queue@[i],
        forall|p: BlockPos|
            #![trigger b.came@[cell_index(a.min, a.size, p)]]
            in_box(a.min, a.size, p) && a.came@[cell_index(a.min, a.size, p)] is Some ==> b.came@[cell_index(a.min, a.size, p)] is Some,
        forall|p: BlockPos|
            #![trigger b.rank_of(p)]
            in_box(a.min, a.size, p) && a.came@[cell_index(a.min, a.size, p)] is Some ==> b.rank_of(p) == a.rank_of(p),
        queue_ok(a.min, a.size, a.came@, a.queue@),
    ensures
        b.done_upto(t, n),
{
    reveal(queue_ok);
    assert forall|i: int, dx: i32, dz: i32|
        0 <= i < n && unit_step(dx, dz) implies (#[trigger] footing_spec(t, b.queue@[i], dx, dz) matches Some(nx) ==> (
        in_box(b.min, b.size, nx) ==> (b.came@[cell_index(b.min, b.size, nx)] is Some && b.rank_of(nx)
        <= b.rank_of(b.queue@[i]) + 1))) by {
        assert(b.queue@[i] == a.queue@[i]);
        assert(footing_spec(t, a.queue@[i], dx, dz) == footing_spec(t, b.queue@[i], dx, dz));
        assert(in_box(a.min, a.size, a.queue@[i]) && a.came@[cell_index(a.min, a.size, a.queue@[i])] is Some);
        assert(b.rank_of(a.queue@[i]) == a.rank_of(a.queue@[i]));
    }
}

impl Ground {
    /// Sweep outward from where a body at `from` settles, `look` blocks each
    /// way and `rise` up and down: breadth first, each cell reached from the
    /// first reached cell it is one step from.
    pub fn sweep(t: &Terrain, from: BlockPos, look: i32, rise: i32) -> (g: Ground)
        requires
            sweep_fits(from, look, rise),
        ensures
            g.low() == (BlockPos {
                x: (settled(*t, from).x - look) as i32,
                y: (settled(*t, from).y - rise) as i32,
                z: (settled(*t, from).z - look) as i32,
            }),
            g.extent() == ((2 * look + 1) as i32, (2 * rise + 1) as i32, (2 * look + 1) as i32),
            swept(g, *t, settled(*t, from)),
    {
        let root = settle(t, from);
        let min = BlockPos { x: root.x - look, y: root.y - rise, z: root.z - look };
        let size: (i32, i32, i32) = (look * 2 + 1, rise * 2 + 1, look * 2 + 1);
        let (a, b, c) = (size.0 as usize, size.1 as usize, size.2 as usize);
        assert(a * b <= a * b * c) by (nonlinear_arith)
            requires
                c >= 1,
        ;
        let n = a * b * c;
        proof {
            assert(n == volume(size));
            assert(box_fits(min, size));
            assert(in_box(min, size, root));
            assert forall|p: BlockPos| in_box(min, size, p) implies #[trigger] roomy(p) by {}
            lemma_index_in_range(min, size, root);
            lemma_count_none_all(n as nat);
        }
        let mut came: Vec<Option<BlockPos>> = Vec::new();
        while came.len() < n
            invariant
                came.len() <= n,
                came@ == Seq::new(came@.len(), |j: int| None::<BlockPos>),
            decreases n - came.len(),
        {
            came.push(None);
            assert(came@ =~= Seq::new(came@.len(), |j: int| None::<BlockPos>));
        }
        let rank: Ghost<Seq<nat>> = Ghost(Seq::new(n as nat, |j: int| 0nat));
        let ri: usize = match index_of(min, size, root) {
            Some(i) => i,
            None => 0,
        };
        if !standable(t, root) {
            proof {
                assert forall|p: BlockPos| #![trigger came@[cell_index(min, size, p)]]
                    in_box(min, size, p) implies came@[cell_index(min, size, p)] is None by {
                    lemma_index_in_range(min, size, p);
                }
            }
            let g = Ground { min, size, came, rank };
            proof {
                assert forall|p: BlockPos| #![trigger g.pred(p)] g.pred(p) is None by {
                    if in_box(min, size, p) {
                        lemma_index_in_range(min, size, p);
                    }
                }
            }
            return g;
        }
        let ghost fresh = came@;
        came.set(ri, Some(root));
        let mut queue: Vec<BlockPos> = Vec::new();
        queue.push(root);
        proof {
            lemma_count_none_update(fresh, ri as int, root);
            reveal(tree_ok);
            reveal(queue_ok);
            assert forall|p: BlockPos| #![trigger came@[cell_index(min, size, p)]]
                in_box(min, size, p) && came@[cell_index(min, size, p)] is Some implies p == root by {
                lemma_index_in_range(min, size, p);
                if p != root {
                    lemma_distinct_index(min, size, p, root);
                }
            }
            assert(queue@[0] == root);
            assert(rank@[ri as int] == 0);
        }
        let mut s = Sweep { min, size, came, rank, queue, head: 0, untouched: Ghost((n - 1) as nat) };
        while s.head < s.queue.len()
            invariant
                s.inv(*t, root),
                s.done_upto(*t, s.head as int),
                s.min == min,
                s.size == size,
                s.head < s.queue@.len() ==> s.rank_of(s.queue@.last()) <= s.rank_of(s.queue@[s.head as int]) + 1,
            decreases 4 * s.untouched@ + s.queue@.len() - s.head,
        {
            let at = s.queue[s.head];
            proof {
                reveal(queue_ok);
                assert(in_box(min, size, s.queue@[s.head as int]));
            }
            let ghost h = s.head as int;
            s.head = s.head + 1;
            let ghost s0 = s;
            s.visit(t, Ghost(root), at, 1, 0);
            let ghost s1 = s;
            s.visit(t, Ghost(root), at, -1, 0);
            let ghost s2 = s;
            s.visit(t, Ghost(root), at, 0, 1);
            let ghost s3 = s;
            s.visit(t, Ghost(root), at, 0, -1);
            proof {
                reveal(queue_ok);
                assert(in_box(min, size, at) && s0.came@[cell_index(min, size, at)] is Some);
                lemma_done_kept(s0, s1, *t, s0.head - 1);
                lemma_done_kept(s1, s2, *t, s0.head - 1);
                lemma_done_kept(s2, s3, *t, s0.head - 1);
                lemma_done_kept(s3, s, *t, s0.head - 1);
                assert(s.queue@[s0.head - 1] == at);
                assert(s.rank_of(at) == s0.rank_of(at));
                assert forall|i: int, dx: i32, dz: i32|
                    0 <= i < s.head && unit_step(dx, dz) implies (#[trigger] footing_spec(*t, s.queue@[i], dx, dz) matches Some(
                    nx) ==> (in_box(s.min, s.size, nx) ==> (s.came@[cell_index(s.min, s.size, nx)] is Some && s.rank_of(nx)
                    <= s.rank_of(s.queue@[i]) + 1))) by {
                    if i == s.head - 1 {
                        if let Some(nx) = footing_spec(*t, at, dx, dz) {
                            if in_box(min, size, nx) {
                                if dx == 1 && dz == 0 {
                                    assert(s1.came@[cell_index(min, size, nx)] is Some);
                                    assert(s2.rank_of(nx) == s1.rank_of(nx));
                                    assert(s3.rank_of(nx) == s2.rank_of(nx));
                                    assert(s.rank_of(nx) == s3.rank_of(nx));
                                } else if dx == -1 && dz == 0 {
                                    assert(s2.came@[cell_index(min, size, nx)] is Some);
                                    assert(s3.rank_of(nx) == s2.rank_of(nx));
                                    assert(s.rank_of(nx) == s3.rank_of(nx));
                                } else if dx == 0 && dz == 1 {
                                    assert(s3.came@[cell_index(min, size, nx)] is Some);
                                    assert(s.rank_of(nx) == s3.rank_of(nx));
                                }
                            }
                        }
                    }
                }
                if s.head < s.queue@.len() {
                    assert(s.rank_of(s.queue@[h]) <= s.rank_of(s.queue@[s.head as int]));
                }
            }
        }
        let g = Ground { min, size, came: s.came, rank: s.rank };
        proof {
            reveal(tree_ok);
            reveal(queue_ok);
            assert forall|p: BlockPos, dx: i32, dz: i32|
                #![trigger g.pred(p), footing_spec(*t, p, dx, dz)]
                g.pred(p) is Some && unit_step(dx, dz) implies (footing_spec(*t, p, dx, dz) matches Some(n) ==> (
                in_box(g.low(), g.extent(), n) ==> (g.pred(n) is Some && g.steps(n) <= g.steps(p) + 1))) by {
                assert(s.came@[cell_index(min, size, p)] is Some);
                let i = choose|i: int| 0 <= i < s.queue@.len() && #[trigger] s.queue@[i] == p;
                assert(footing_spec(*t, s.queue@[i], dx, dz) == footing_spec(*t, p, dx, dz));
            }
            assert(g.steps(root) == 0);
        }
        g
    }
}

/// Whether `route` is the walk the sweep recorded from its root to `pos`:
/// it ends at `pos`, starts at the cell that is its own predecessor, and
/// each cell after the first was reached from the one before it.
pub open spec fn is_route(g: Ground, route: Seq<BlockPos>, pos: BlockPos) -> bool {
    &&& route.len() >= 1
    &&& route.last() == pos
    &&& g.pred(route[0]) == Some(route[0])
    &&& forall|i: int|
        0 <= i < route.len() - 1 ==> g.pred(#[trigger] route[i + 1]) == Some(route[i]) && route[i + 1] != route[i]
}

impl Ground {
    /// The walk from the sweep's root to `pos`, root first and `pos` last, or
    /// nothing when the sweep did not reach `pos`.
    pub fn route_to(&self, pos: BlockPos) -> (r: Option<Vec<BlockPos>>)
        ensures
            r is Some <==> self.pred(pos) is Some,
            r matches Some(route) ==> is_route(*self, route@, pos),
    {
        proof {
            use_type_invariant(self);
        }
        let mut index = match index_of(self.min, self.size, pos) {
            Some(i) => i,
            None => return None,
        };
        let mut cur = pos;
        let first = match self.came[index] {
            Some(q) => q,
            None => return None,
        };
        let mut back: Vec<BlockPos> = Vec::new();
        back.push(pos);
        let mut up = first;
        while up != cur
            invariant
                in_box(self.min, self.size, cur),
                index == cell_index(self.min, self.size, cur),
                self.came@[index as int] == Some(up),
                back@.len() >= 1,
                back@[0] == pos,
                back@.last() == cur,
                forall|i: int|
                    0 <= i < back@.len() - 1 ==> self.pred(#[trigger] back@[i]) == Some(back@[i + 1]) && back@[i] != back@[i + 1],
                box_fits(self.min, self.size),
                self.came@.len() == volume(self.size),
            decreases self.rank@[cell_index(self.min, self.size, cur)],
        {
            proof {
                use_type_invariant(self);
                assert(self.came@[cell_index(self.min, self.size, cur)] == Some(up));
                lemma_index_in_range(self.min, self.size, up);
            }
            let ghost was = back@;
            let next_index = match index_of(self.min, self.size, up) {
                Some(i) => i,
                None => 0,
            };
            let next_up = match self.came[next_index] {
                Some(q) => q,
                None => up,
            };
            back.push(up);
            proof {
                assert(self.pred(cur) == Some(up));
                assert forall|i: int| 0 <= i < back@.len() - 1 implies self.pred(#[trigger] back@[i]) == Some(back@[i + 1])
                    && back@[i] != back@[i + 1] by {
                    if i < was.len() - 1 {
                        assert(back@[i] == was[i] && back@[i + 1] == was[i + 1]);
                    } else {
                        assert(back@[i] == cur && back@[i + 1] == up);
                    }
                }
            }
            cur = up;
            index = next_index;
            up = next_up;
        }
        let mut route: Vec<BlockPos> = Vec::new();
        let mut k: usize = back.len();
        while k > 0
            invariant
                k <= back@.len(),
                route@.len() == back@.len() - k,
                forall|j: int| 0 <= j < route@.len() ==> #[trigger] route@[j] == back@[back@.len() - 1 - j],
            decreases k,
        {
            k = k - 1;
            route.push(back[k]);
        }
        proof {
            let n = back@.len();
            assert(self.pred(cur) == Some(cur));
            assert(route@[0] == back@[n - 1]);
            assert(route@.last() == back@[0]);
            assert forall|i: int| 0 <= i < route@.len() - 1 implies self.pred(#[trigger] route@[i + 1]) == Some(route@[i])
                && route@[i + 1] != route@[i] by {
                assert(route@[i + 1] == back@[n - 2 - i]);
                assert(route@[i] == back@[n - 1 - i]);
                assert(back@[n - 2 - i + 1] == back@[n - 1 - i]);
            }
        }
        Some(route)
    }
}

/// **A route is a walk.** Every cell of a route the sweep gives is one a body
/// can stand in, the route starts where the sweep started, and each cell is
/// one step on from the cell before it, a climb of no more than [`CLIMB`] and
/// a drop of no more than [`DROP`].
pub proof fn lemma_a_route_is_a_walk(g: Ground, t: Terrain, root: BlockPos, route: Seq<BlockPos>, pos: BlockPos)
    requires
        swept(g, t, root),
        is_route(g, route, pos),
    ensures
        route[0] == root,
        forall|i: int| 0 <= i < route.len() ==> standable_spec(t, #[trigger] route[i]),
        forall|i: int| 0 <= i < route.len() - 1 ==> step_from(t, #[trigger] route[i], route[i + 1]),
{
    assert(g.pred(route[0]) == Some(route[0]));
    assert forall|i: int| 0 <= i < route.len() implies standable_spec(t, #[trigger] route[i]) by {
        if i == 0 {
            assert(g.pred(route[0]) is Some);
        } else {
            assert(g.pred(route[(i - 1) + 1]) == Some(route[i - 1]));
        }
    }
    assert forall|i: int| 0 <= i < route.len() - 1 implies step_from(t, #[trigger] route[i], route[i + 1]) by {
        assert(g.pred(route[i + 1]) == Some(route[i]));
    }
}

/// Along a route, each cell is one step further out than the one before.
proof fn lemma_route_steps(g: Ground, t: Terrain, root: BlockPos, route: Seq<BlockPos>, pos: BlockPos, i: int)
    requires
        swept(g, t, root),
        is_route(g, route, pos),
        0 <= i < route.len(),
    ensures
        g.steps(route[i]) == i,
    decreases i,
{
    if i == 0 {
        assert(g.pred(route[0]) == Some(route[0]));
    } else {
        lemma_route_steps(g, t, root, route, pos, i - 1);
        assert(g.pred(route[(i - 1) + 1]) == Some(route[i - 1]));
    }
}

/// Along a walk through the box from the root, the sweep reached every cell,
/// no further out than the walk took to get there.
proof fn lemma_walk_steps(g: Ground, t: Terrain, root: BlockPos, walk: Seq<BlockPos>, i: int)
    requires
        swept(g, t, root),
        g.pred(root) is Some,
        walk.len() >= 1,
        walk[0] == root,
        forall|k: int| 0 <= k < walk.len() ==> in_box(g.low(), g.extent(), #[trigger] walk[k]),
        forall|k: int| 0 <= k < walk.len() - 1 ==> step_from(t, #[trigger] walk[k], walk[k + 1]),
        0 <= i < walk.len(),
    ensures
        g.pred(walk[i]) is Some,
        g.steps(walk[i]) <= i,
    decreases i,
{
    if i > 0 {
        lemma_walk_steps(g, t, root, walk, i - 1);
        let q = walk[i - 1];
        assert(step_from(t, walk[i - 1], walk[(i - 1) + 1]));
        let (dx, dz) = choose|dx: i32, dz: i32| unit_step(dx, dz) && #[trigger] footing_spec(t, q, dx, dz) == Some(walk[i]);
        assert(in_box(g.low(), g.extent(), walk[i]));
        assert(footing_spec(t, q, dx, dz) == Some(walk[i]));
    }
}

/// **A route is a shortest walk.** No walk a body could take from where the
/// sweep started to a cell, through cells of the swept box, is shorter than
/// the route the sweep gives to it.
pub proof fn lemma_a_route_is_shortest(
    g: Ground,
    t: Terrain,
    root: BlockPos,
    route: Seq<BlockPos>,
    pos: BlockPos,
    walk: Seq<BlockPos>,
)
    requires
        swept(g, t, root),
        is_route(g, route, pos),
        walk.len() >= 1,
        walk[0] == root,
        walk.last() == pos,
        forall|k: int| 0 <= k < walk.len() ==> in_box(g.low(), g.extent(), #[trigger] walk[k]),
        forall|k: int| 0 <= k < walk.len() - 1 ==> step_from(t, #[trigger] walk[k], walk[k + 1]),
    ensures
        route.len() <= walk.len(),
{
    assert(g.pred(route[0]) == Some(route[0]));
    assert(route[0] == root);
    lemma_route_steps(g, t, root, route, pos, route.len() - 1);
    lemma_walk_steps(g, t, root, walk, walk.len() - 1);
}

/// **What a step reaches, a climb of at most [`CLIMB`] and a drop of at most
/// [`DROP`] one cell along an axis, is somewhere a body can stand.**
pub proof fn lemma_a_step_is_a_body_s_step(t: Terrain, q: BlockPos, p: BlockPos)
    requires
        step_from(t, q, p),
        roomy(q),
    ensures
        standable_spec(t, p),
        (p.x - q.x) * (p.x - q.x) + (p.z - q.z) * (p.z - q.z) == 1,
        -DROP <= p.y - q.y <= CLIMB,
{
    let (dx, dz) = choose|dx: i32, dz: i32| unit_step(dx, dz) && #[trigger] footing_spec(t, q, dx, dz) == Some(p);
    lemma_footing_stands(t, q, dx, dz, CLIMB as int);
    lemma_footing_height(t, q, dx, dz, CLIMB as int);
    let ddx = p.x - q.x;
    let ddz = p.z - q.z;
    assert(ddx == dx && ddz == dz);
    if dx == 0 {
        assert(ddx * ddx == 0);
        assert(ddz * ddz == 1);
    } else {
        assert(ddz * ddz == 0);
        assert(ddx * ddx == 1);
    }
}

proof fn lemma_footing_height(t: Terrain, p: BlockPos, dx: i32, dz: i32, dy: int)
    requires
        footing_from(t, p, dx, dz, dy) is Some,
        dy <= CLIMB,
        roomy(p),
    ensures
        -DROP <= footing_from(t, p, dx, dz, dy)->Some_0.y - p.y <= CLIMB,
    decreases dy + DROP + 1,
{
    if dy >= -DROP && !standable_spec(t, stepped(p, dx, dy, dz)) {
        lemma_footing_height(t, p, dx, dz, dy - 1);
    }
}

/// The cells listed so far are reached cells of the box before index `cur`,
/// in increasing index order, and every reached cell before `cur` is listed.
spec fn listed_upto(min: BlockPos, size: (i32, i32, i32), came: Seq<Option<BlockPos>>, out: Seq<BlockPos>, cur: int) -> bool {
    &&& forall|k: int|
        0 <= k < out.len() ==> in_box(min, size, #[trigger] out[k]) && came[cell_index(min, size, out[k])] is Some
            && cell_index(min, size, out[k]) < cur
    &&& forall|i: int, j: int|
        0 <= i < j < out.len() ==> cell_index(min, size, #[trigger] out[i]) < cell_index(min, size, #[trigger] out[j])
    &&& forall|p: BlockPos|
        #![trigger came[cell_index(min, size, p)]]
        in_box(min, size, p) && came[cell_index(min, size, p)] is Some && cell_index(min, size, p) < cur
            ==> out.contains(p)
}

impl Ground {
    /// Every cell the sweep reached, in the order the box keeps them: layer
    /// by layer, row by row.
    pub fn reachable(&self) -> (cells: Vec<BlockPos>)
        ensures
            forall|p: BlockPos| #![trigger self.pred(p)] self.pred(p) is Some <==> cells@.contains(p),
            forall|i: int, j: int|
                0 <= i < j < cells@.len() ==> cell_index(self.low(), self.extent(), #[trigger] cells@[i])
                    < cell_index(self.low(), self.extent(), #[trigger] cells@[j]),
    {
        proof {
            use_type_invariant(self);
        }
        let min = self.min;
        let size = self.size;
        let ghost came = self.came@;
        let (sx, sy, sz) = (size.0, size.1, size.2);
        let mut out: Vec<BlockPos> = Vec::new();
        let ghost mut cur: int = 0;
        let mut y: i32 = 0;
        assert(y * sz * sx == 0) by (nonlinear_arith)
            requires
                y == 0,
        ;
        while y < sy
            invariant
                box_fits(min, size),
                came == self.came@,
                came.len() == volume(size),
                (sx, sy, sz) == size,
                0 <= y <= sy,
                cur == y * sz * sx,
                listed_upto(min, size, came, out@, cur),
            decreases sy - y,
        {
            let mut z: i32 = 0;
            assert(cur == (y * sz + z) * sx) by (nonlinear_arith)
                requires
                    cur == y * sz * sx,
                    z == 0,
            ;
            while z < sz
                invariant
                    box_fits(min, size),
                    came == self.came@,
                    came.len() == volume(size),
                    (sx, sy, sz) == size,
                    0 <= y < sy,
                    0 <= z <= sz,
                    cur == (y * sz + z) * sx,
                    listed_upto(min, size, came, out@, cur),
                decreases sz - z,
            {
                let mut x: i32 = 0;
                while x < sx
                    invariant
                        box_fits(min, size),
                        came == self.came@,
                        came.len() == volume(size),
                        (sx, sy, sz) == size,
                        0 <= y < sy,
                        0 <= z < sz,
                        0 <= x <= sx,
                        cur == (y * sz + z) * sx + x,
                        listed_upto(min, size, came, out@, cur),
                    decreases sx - x,
                {
                    let p = BlockPos { x: min.x + x, y: min.y + y, z: min.z + z };
                    let i = match index_of(min, size, p) {
                        Some(i) => i,
                        None => 0,
                    };
                    assert(cell_index(min, size, p) == cur);
                    let ghost was = out@;
                    if self.came[i].is_some() {
                        out.push(p);
                    }
                    proof {
                        assert forall|k: int| 0 <= k < out@.len() implies in_box(min, size, #[trigger] out@[k])
                            && came[cell_index(min, size, out@[k])] is Some && cell_index(min, size, out@[k]) < cur + 1 by {
                            if k < was.len() {
                                assert(out@[k] == was[k]);
                            }
                        }
                        assert forall|a: int, b: int| 0 <= a < b < out@.len() implies cell_index(min, size, #[trigger] out@[a])
                            < cell_index(min, size, #[trigger] out@[b]) by {
                            assert(out@[a] == was[a]);
                            if b < was.len() {
                                assert(out@[b] == was[b]);
                            }
                        }
                        assert forall|q: BlockPos| #![trigger came[cell_index(min, size, q)]]
                            in_box(min, size, q) && came[cell_index(min, size, q)] is Some && cell_index(min, size, q) < cur + 1
                            implies out@.contains(q) by {
                            if cell_index(min, size, q) < cur {
                                let k = choose|k: int| 0 <= k < was.len() && was[k] == q;
                                assert(out@[k] == q);
                            } else {
                                lemma_index_injective(min, size, q, p);
                                assert(out@[was.len() as int] == p);
                            }
                        }
                        cur = cur + 1;
                    }
                    x = x + 1;
                }
                assert(cur == (y * sz + (z + 1)) * sx) by (nonlinear_arith)
                    requires
                        cur == (y * sz + z) * sx + sx,
                ;
                z = z + 1;
            }
            assert(cur == (y + 1) * sz * sx) by (nonlinear_arith)
                requires
                    cur == (y * sz + sz) * sx,
            ;
            y = y + 1;
        }
        proof {
            assert(cur == volume(size)) by (nonlinear_arith)
                requires
                    cur == sy * sz * sx,
                    volume(size) == sx * sy * sz,
            ;
            assert forall|p: BlockPos| #![trigger self.pred(p)] self.pred(p) is Some <==> out@.contains(p) by {
                if self.pred(p) is Some {
                    lemma_index_in_range(min, size, p);
                    assert(came[cell_index(min, size, p)] is Some);
                }
                if out@.contains(p) {
                    let k = choose|k: int| 0 <= k < out@.len() && out@[k] == p;
                    assert(in_box(min, size, out@[k]));
                }
            }
        }
        out
    }
}

} // verus!
