//! Where the spoil goes: a heap the crew stacks, rather than a hole it digs.
//!
//! A marked footprint becomes an ordered list of *placements*, ordered so that
//! a drone is never asked to build on air: every cell of a plan rests either on
//! the ground that was there before the heap started, or on a cell earlier in
//! the same list. That ordering is the safety of the whole thing, and here it
//! is a proved property of [`plan`] rather than a hope.
//!
//! The three shapes are three answers to "how tall can this footprint get":
//! a square-base pyramid, a spiral tower whose ramp rises one block a cell,
//! and a short straight shaft. Every shape is a function of the footprint and
//! the ground under it, and nothing else.
use vstd::prelude::*;

use crate::geometry::{clamped_box, BlockPos, VoxelAabb};

verus! {

/// What to stack the spoil into.
#[derive(Debug, Clone, Copy, PartialEq, Eq, Hash, Structural)]
pub enum HeapShape {
    /// Square-base pyramid: a course per layer, each a ring narrower.
    Pyramid,
    /// A column with a helical ramp, so it can be climbed and so it reads as
    /// something that was built.
    Spiral,
    /// A plain prism, the full footprint all the way up.
    Shaft,
}

impl HeapShape {
    /// Every shape, in the order they are offered.
    pub const ALL: [HeapShape; 3] = [HeapShape::Pyramid, HeapShape::Spiral, HeapShape::Shaft];

    /// The name a shape goes by on screen.
    pub open spec fn label(self) -> Seq<char> {
        match self {
            HeapShape::Pyramid => "pyramid"@,
            HeapShape::Spiral => "spiral tower"@,
            HeapShape::Shaft => "shaft"@,
        }
    }

    /// The name a shape goes by on screen.
    pub fn name(self) -> (n: &'static str)
        ensures
            n@ == self.label(),
    {
        match self {
            HeapShape::Pyramid => "pyramid",
            HeapShape::Spiral => "spiral tower",
            HeapShape::Shaft => "shaft",
        }
    }
}

/// How many courses a shaft is allowed over the ground it stands on: a drone
/// builds it from beside it, reaching one block above its own level.
pub const SHAFT_COURSES: i32 = 2;

/// The tallest a heap may get, whatever its shape.
pub const MAX_COURSES: i32 = 24;

/// Whether a name ends in `_ore`.
pub open spec fn names_ore(name: Seq<char>) -> bool {
    name.len() >= 4 && name.subrange(name.len() - 4, name.len() as int) == seq!['_', 'o', 'r', 'e']
}

/// Whether a good is spoil: waste rock, worth stacking rather than selling.
/// Ore is anything whose name ends `_ore`; spoil is everything else.
pub fn is_spoil(name: &str) -> (spoil: bool)
    ensures
        spoil == !names_ore(name@),
{
    let n = name.unicode_len();
    if n < 4 {
        return true;
    }
    let a = name.get_char(n - 4);
    let b = name.get_char(n - 3);
    let c = name.get_char(n - 2);
    let d = name.get_char(n - 1);
    let ore = a == '_' && b == 'o' && c == 'r' && d == 'e';
    proof {
        let tail = name@.subrange(n - 4, n as int);
        if ore {
            assert(tail =~= seq!['_', 'o', 'r', 'e']);
        } else {
            assert(tail[0] == a && tail[1] == b && tail[2] == c && tail[3] == d);
        }
    }
    !ore
}

/// The ground a heap stands on: how high the world goes, and for each column
/// the first open cell above its surface, as `(x, z, y)`.
#[derive(Debug, Clone)]
pub struct Ground {
    /// The first height that is out of the world.
    pub top: i32,
    /// Where each column's surface is; the first entry for a column counts.
    pub surface: Vec<(i32, i32, i32)>,
}

/// The first open cell above the column at `(x, z)`, by the first entry that
/// names the column.
pub open spec fn surface_in(cols: Seq<(i32, i32, i32)>, x: i32, z: i32) -> Option<i32>
    decreases cols.len(),
{
    if cols.len() == 0 {
        None
    } else {
        match surface_in(cols.drop_last(), x, z) {
            Some(y) => Some(y),
            None => if cols.last().0 == x && cols.last().1 == z {
                Some(cols.last().2)
            } else {
                None
            },
        }
    }
}

impl Ground {
    /// The first open cell above the column at `(x, z)`, if the column has ground.
    pub open spec fn surface_at(&self, x: i32, z: i32) -> Option<i32> {
        surface_in(self.surface@, x, z)
    }

    /// The first open cell above the column at `(x, z)`, if the column has ground.
    pub fn surface_y(&self, x: i32, z: i32) -> (y: Option<i32>)
        ensures
            y == self.surface_at(x, z),
    {
        let mut found: Option<i32> = None;
        let mut i: usize = 0;
        while i < self.surface.len()
            invariant
                i <= self.surface.len(),
                found == surface_in(self.surface@.subrange(0, i as int), x, z),
            decreases self.surface.len() - i,
        {
            let (cx, cz, cy) = self.surface[i];
            proof {
                let next = self.surface@.subrange(0, i + 1);
                assert(next.drop_last() =~= self.surface@.subrange(0, i as int));
            }
            if found.is_none() && cx == x && cz == z {
                found = Some(cy);
            }
            i = i + 1;
        }
        proof {
            assert(self.surface@.subrange(0, i as int) =~= self.surface@);
        }
        found
    }
}

/// How many whole numbers run from `lo` to `hi`, both ends counted.
pub open spec fn span(lo: int, hi: int) -> nat {
    if lo <= hi {
        (hi - lo + 1) as nat
    } else {
        0
    }
}

/// The outer ring of a footprint, walked once round so that consecutive
/// entries are neighbours: along the near edge, up the far side, back along
/// the far edge and down the near side.
pub open spec fn ring_seq(a: VoxelAabb) -> Seq<(i32, i32)> {
    Seq::new(span(a.min.x as int, a.max.x as int), |i: int| ((a.min.x + i) as i32, a.min.z))
        + Seq::new(
        span(a.min.z + 1, a.max.z as int),
        |i: int| (a.max.x, (a.min.z + 1 + i) as i32),
    ) + Seq::new(span(a.min.x as int, a.max.x - 1), |i: int| ((a.max.x - 1 - i) as i32, a.max.z))
        + Seq::new(span(a.min.z + 1, a.max.z - 1), |i: int| (a.min.x, (a.max.z - 1 - i) as i32))
}

/// Append `n` entries of one straight run of the ring.
fn push_run(ring: &mut Vec<(i32, i32)>, n: i64, x0: i64, dx: i64, z0: i64, dz: i64)
    requires
        n >= 0,
        forall|i: int|
            0 <= i < n ==> i32::MIN <= #[trigger] (x0 + dx * i) <= i32::MAX && i32::MIN <= z0
                + dz * i <= i32::MAX,
        -1 <= dx <= 1,
        -1 <= dz <= 1,
        i32::MIN <= x0 <= i32::MAX,
        i32::MIN <= z0 <= i32::MAX,
    ensures
        final(ring)@ == old(ring)@ + Seq::new(
            n as nat,
            |i: int| ((x0 + dx * i) as i32, (z0 + dz * i) as i32),
        ),
{
    let ghost start = ring@;
    let mut i: i64 = 0;
    while i < n
        invariant
            0 <= i <= n,
            -1 <= dx <= 1,
            -1 <= dz <= 1,
            i32::MIN <= x0 <= i32::MAX,
            i32::MIN <= z0 <= i32::MAX,
            forall|k: int|
                0 <= k < n ==> i32::MIN <= #[trigger] (x0 + dx * k) <= i32::MAX && i32::MIN <= z0
                    + dz * k <= i32::MAX,
            ring@ == start + Seq::new(
                i as nat,
                |k: int| ((x0 + dx * k) as i32, (z0 + dz * k) as i32),
            ),
        decreases n - i,
    {
        assert(i32::MIN <= x0 + dx * i <= i32::MAX);
        assert(-i <= dx * i <= i && -i <= dz * i <= i) by (nonlinear_arith)
            requires
                -1 <= dx <= 1,
                -1 <= dz <= 1,
                0 <= i,
        ;
        let x = x0 + dx * i;
        let z = z0 + dz * i;
        ring.push((x as i32, z as i32));
        proof {
            assert(ring@ =~= start + Seq::new(
                (i + 1) as nat,
                |k: int| ((x0 + dx * k) as i32, (z0 + dz * k) as i32),
            ));
        }
        i = i + 1;
    }
}

/// The outer ring of a footprint, walked once round so that consecutive
/// entries are neighbours.
pub fn ring_walk(area: VoxelAabb) -> (ring: Vec<(i32, i32)>)
    ensures
        ring@ == ring_seq(area),
{
    let a = area;
    let mut ring: Vec<(i32, i32)> = Vec::new();
    let (lx, hx, lz, hz) = (a.min.x as i64, a.max.x as i64, a.min.z as i64, a.max.z as i64);
    let n1: i64 = if lx <= hx { hx - lx + 1 } else { 0 };
    if n1 > 0 {
        push_run(&mut ring, n1, lx, 1, lz, 0);
    }
    let n2: i64 = if lz + 1 <= hz { hz - lz } else { 0 };
    if n2 > 0 {
        push_run(&mut ring, n2, hx, 0, lz + 1, 1);
    }
    let n3: i64 = if lx <= hx - 1 { hx - lx } else { 0 };
    if n3 > 0 {
        push_run(&mut ring, n3, hx - 1, -1, hz, 0);
    }
    let n4: i64 = if lz + 1 <= hz - 1 { hz - lz - 1 } else { 0 };
    if n4 > 0 {
        push_run(&mut ring, n4, lx, 0, hz - 1, -1);
    }
    proof {
        let s1 = Seq::new(span(a.min.x as int, a.max.x as int), |i: int| ((a.min.x + i) as i32, a.min.z));
        let s2 = Seq::new(span(a.min.z + 1, a.max.z as int), |i: int| (a.max.x, (a.min.z + 1 + i) as i32));
        let s3 = Seq::new(span(a.min.x as int, a.max.x - 1), |i: int| ((a.max.x - 1 - i) as i32, a.max.z));
        let s4 = Seq::new(span(a.min.z + 1, a.max.z - 1), |i: int| (a.min.x, (a.max.z - 1 - i) as i32));
        assert(ring@ =~= s1 + s2 + s3 + s4);
    }
    ring
}

/// Where on the ring walk the rim cell `(x, z)` is first met.
pub open spec fn ring_index(a: VoxelAabb, x: int, z: int) -> int {
    let w = a.max.x - a.min.x;
    let d = a.max.z - a.min.z;
    if z == a.min.z {
        x - a.min.x
    } else if x == a.max.x {
        w + (z - a.min.z)
    } else if z == a.max.z {
        w + d + (a.max.x - x)
    } else {
        2 * w + d + (a.max.z - z)
    }
}

/// Whether `(x, z)` lies on the footprint's rim.
pub open spec fn on_ring(a: VoxelAabb, x: int, z: int) -> bool {
    x == a.min.x || x == a.max.x || z == a.min.z || z == a.max.z
}

/// Whether the column `(x, z)` is inside the footprint.
pub open spec fn in_columns(a: VoxelAabb, x: int, z: int) -> bool {
    a.min.x <= x <= a.max.x && a.min.z <= z <= a.max.z
}

/// The ring walk meets a rim cell first at its ring index.
pub proof fn lemma_ring_index_is_first_visit(a: VoxelAabb, x: int, z: int)
    requires
        in_columns(a, x, z),
        on_ring(a, x, z),
    ensures
        0 <= ring_index(a, x, z) < ring_seq(a).len(),
        ring_seq(a)[ring_index(a, x, z)] == (x as i32, z as i32),
        forall|j: int| 0 <= j < ring_index(a, x, z) ==> #[trigger] ring_seq(a)[j] != (x as i32, z as i32),
{
    let r = ring_seq(a);
    let ri = ring_index(a, x, z);
    assert(r[ri] == (x as i32, z as i32));
    assert forall|j: int| 0 <= j < ri implies #[trigger] r[j] != (x as i32, z as i32) by {
        if r[j] == (x as i32, z as i32) {
            assert(r[j].0 as int == x && r[j].1 as int == z);
        }
    }
}

/// On a footprint at least two wide each way the rim is met once, so every
/// step of the walk is at its own ring index.
pub proof fn lemma_ring_walk_indexes(a: VoxelAabb, i: int)
    requires
        a.min.x < a.max.x,
        a.min.z < a.max.z,
        0 <= i < ring_seq(a).len(),
    ensures
        in_columns(a, ring_seq(a)[i].0 as int, ring_seq(a)[i].1 as int),
        on_ring(a, ring_seq(a)[i].0 as int, ring_seq(a)[i].1 as int),
        ring_index(a, ring_seq(a)[i].0 as int, ring_seq(a)[i].1 as int) == i,
{
}

/// The lesser of two.
pub open spec fn least(a: int, b: int) -> int {
    if a <= b {
        a
    } else {
        b
    }
}

/// How many rings in from the footprint's rim the column `(x, z)` is.
pub open spec fn inset(a: VoxelAabb, x: int, z: int) -> int {
    least(least(x - a.min.x, a.max.x - x), least(z - a.min.z, a.max.z - z))
}

/// How many courses the shape wants over the column at `(x, z)`.
pub open spec fn column_height(shape: HeapShape, a: VoxelAabb, courses: int, x: int, z: int) -> int {
    match shape {
        HeapShape::Pyramid => least(inset(a, x, z) + 1, courses),
        HeapShape::Shaft => courses,
        HeapShape::Spiral => if on_ring(a, x, z) {
            least(ring_index(a, x, z) + 1, courses)
        } else {
            courses
        },
    }
}

/// How many courses the shape wants over the column at `(x, z)`: one at the
/// rim of a pyramid and one more per ring in; the full height for a shaft and
/// for a spiral's core, while a spiral's rim climbs one block per cell walked.
pub fn height_at(shape: HeapShape, footprint: VoxelAabb, courses: i32, x: i32, z: i32) -> (h: i32)
    requires
        in_columns(footprint, x as int, z as int),
    ensures
        h == column_height(shape, footprint, courses as int, x as int, z as int),
{
    let a = footprint;
    let (lx, hx, lz, hz) = (a.min.x as i64, a.max.x as i64, a.min.z as i64, a.max.z as i64);
    let (x, z) = (x as i64, z as i64);
    let c = courses as i64;
    let wanted: i64 = match shape {
        HeapShape::Pyramid => {
            let i1 = if x - lx <= hx - x { x - lx } else { hx - x };
            let i2 = if z - lz <= hz - z { z - lz } else { hz - z };
            let i = if i1 <= i2 { i1 } else { i2 };
            if i + 1 <= c { i + 1 } else { c }
        },
        HeapShape::Shaft => c,
        HeapShape::Spiral => {
            if x == lx || x == hx || z == lz || z == hz {
                let w = hx - lx;
                let d = hz - lz;
                let index = if z == lz {
                    x - lx
                } else if x == hx {
                    w + (z - lz)
                } else if z == hz {
                    w + d + (hx - x)
                } else {
                    2 * w + d + (hz - z)
                };
                if index + 1 <= c { index + 1 } else { c }
            } else {
                c
            }
        },
    };
    wanted as i32
}

/// How tall a shape stands on a footprint `w` by `d` columns.
pub open spec fn courses_for(shape: HeapShape, w: int, d: int) -> int {
    let wanted = match shape {
        HeapShape::Pyramid => (least(w, d) + 1) / 2,
        HeapShape::Spiral => least(2 * (w + d) - 4, MAX_COURSES as int),
        HeapShape::Shaft => SHAFT_COURSES as int,
    };
    if wanted < 0 {
        0
    } else if wanted > MAX_COURSES {
        MAX_COURSES as int
    } else {
        wanted
    }
}

/// The footprint's width along x, in columns.
pub open spec fn width_of(a: VoxelAabb) -> int {
    a.max.x - a.min.x + 1
}

/// The footprint's depth along z, in columns.
pub open spec fn depth_of(a: VoxelAabb) -> int {
    a.max.z - a.min.z + 1
}

/// Whether the shape can stand on a footprint this size at all: any shape
/// needs a column, and a spiral needs a core to wind its ramp round.
pub open spec fn shape_fits(shape: HeapShape, a: VoxelAabb) -> bool {
    width_of(a) >= 1 && depth_of(a) >= 1 && (shape == HeapShape::Spiral ==> width_of(a) >= 3
        && depth_of(a) >= 3)
}

/// Whether the column `(x, z)` has ground under it with room above it.
pub open spec fn open_column(g: Ground, x: i32, z: i32) -> bool {
    g.surface_at(x, z) matches Some(s) && s < g.top
}

/// Whether the heap of this shape on this (already clamped) footprint fills `p`:
/// a column of the footprint, from its own ground up to the height the shape
/// wants there, and inside the world.
pub open spec fn in_plan(g: Ground, a: VoxelAabb, shape: HeapShape, p: BlockPos) -> bool {
    &&& in_columns(a, p.x as int, p.z as int)
    &&& g.surface_at(p.x, p.z) matches Some(s)
    &&& s <= p.y
    &&& p.y < s + column_height(
        shape,
        a,
        courses_for(shape, width_of(a), depth_of(a)),
        p.x as int,
        p.z as int,
    )
    &&& p.y < g.top
}

/// Bottom-up order: by height, then x, then z.
pub open spec fn key_lt(a: (int, int, int), b: (int, int, int)) -> bool {
    a.0 < b.0 || (a.0 == b.0 && (a.1 < b.1 || (a.1 == b.1 && a.2 < b.2)))
}

/// Where a cell falls in bottom-up order.
pub open spec fn key_of(p: BlockPos) -> (int, int, int) {
    (p.y as int, p.x as int, p.z as int)
}

/// Whether `a` is filled before `b`.
pub open spec fn before(a: BlockPos, b: BlockPos) -> bool {
    key_lt(key_of(a), key_of(b))
}

/// The cells of a heap: exactly the cells the shape fills, each once, in
/// bottom-up order.
pub open spec fn heap_cells(g: Ground, a: VoxelAabb, shape: HeapShape, cells: Seq<BlockPos>) -> bool {
    &&& forall|i: int, j: int| 0 <= i < j < cells.len() ==> before(#[trigger] cells[i], #[trigger] cells[j])
    &&& forall|p: BlockPos| #[trigger] cells.contains(p) <==> in_plan(g, a, shape, p)
}

/// Whether the column `(x, z)` is walked before the column `(cx, cz)`.
pub open spec fn column_before(x: int, z: int, cx: int, cz: int) -> bool {
    x < cx || (x == cx && z < cz)
}

/// The heights a heap spans: from the lowest ground under it to just past its
/// highest cell, or `None` when no column of the footprint has open ground.
fn course_range(g: &Ground, a: VoxelAabb, shape: HeapShape, courses: i32) -> (r: Option<(i64, i64)>)
    requires
        courses == courses_for(shape, width_of(a), depth_of(a)),
        a.min.x <= a.max.x,
        a.min.z <= a.max.z,
    ensures
        r is Some <==> exists|x: i32, z: i32| in_columns(a, x as int, z as int) && #[trigger] open_column(*g, x, z),
        r matches Some((lo, hi)) ==> {
            &&& i32::MIN <= lo
            &&& hi <= g.top
            &&& forall|p: BlockPos| #[trigger] in_plan(*g, a, shape, p) ==> lo <= p.y < hi
        },
{
    let (lx, hx, lz, hz) = (a.min.x as i64, a.max.x as i64, a.min.z as i64, a.max.z as i64);
    let mut found = false;
    let mut lo: i64 = 0;
    let mut hi: i64 = 0;
    let mut x: i64 = lx;
    while x <= hx
        invariant
            lx <= x <= hx + 1,
            lx == a.min.x, hx == a.max.x, lz == a.min.z, hz == a.max.z,
            lz <= hz,
            courses == courses_for(shape, width_of(a), depth_of(a)),
            found <==> exists|cx: i32, cz: i32|
                in_columns(a, cx as int, cz as int) && cx < x && #[trigger] open_column(*g, cx, cz),
            found ==> i32::MIN <= lo && hi <= g.top,
            found ==> forall|p: BlockPos|
                #[trigger] in_plan(*g, a, shape, p) && p.x < x ==> lo <= p.y < hi,
        decreases hx + 1 - x,
    {
        let mut z: i64 = lz;
        while z <= hz
            invariant
                lx <= x <= hx,
                lz <= z <= hz + 1,
                lx == a.min.x, hx == a.max.x, lz == a.min.z, hz == a.max.z,
                courses == courses_for(shape, width_of(a), depth_of(a)),
                found <==> exists|cx: i32, cz: i32|
                    in_columns(a, cx as int, cz as int) && column_before(cx as int, cz as int, x as int, z as int)
                        && #[trigger] open_column(*g, cx, cz),
                found ==> i32::MIN <= lo && hi <= g.top,
                found ==> forall|p: BlockPos|
                    #[trigger] in_plan(*g, a, shape, p) && column_before(p.x as int, p.z as int, x as int, z as int)
                        ==> lo <= p.y < hi,
            decreases hz + 1 - z,
        {
            let (xi, zi) = (x as i32, z as i32);
            match g.surface_y(xi, zi) {
                Some(s) => {
                    if s < g.top {
                        let h = height_at(shape, a, courses, xi, zi);
                        let t0: i64 = s as i64 + h as i64;
                        let t: i64 = if t0 <= g.top as i64 { t0 } else { g.top as i64 };
                        let ghost was_found = found;
                        if !found || (s as i64) < lo {
                            lo = s as i64;
                        }
                        if !found || t > hi {
                            hi = t;
                        }
                        found = true;
                        assert(open_column(*g, xi, zi));
                        assert forall|p: BlockPos|
                            #[trigger] in_plan(*g, a, shape, p) && column_before(p.x as int, p.z as int, x as int, z + 1)
                            implies lo <= p.y < hi by {
                            if p.x as int == x && p.z as int == z {
                                assert(p.x == xi && p.z == zi);
                                assert(g.surface_at(p.x, p.z) == Some(s));
                                assert(s <= p.y);
                                assert(p.y < s + h);
                                assert(p.y < t);
                                assert(lo <= s);
                                assert(t <= hi);
                            } else {
                                assert(open_column(*g, p.x, p.z));
                                assert(was_found);
                            }
                        }
                    }
                },
                None => {},
            }
            z = z + 1;
        }
        x = x + 1;
    }
    if found {
        Some((lo, hi))
    } else {
        None
    }
}

/// Lay every course from `lo` up to `hi`, bottom-up: height by height, and
/// within a height column by column.
fn lay_courses(g: &Ground, a: VoxelAabb, shape: HeapShape, courses: i32, lo: i64, hi: i64) -> (cells: Vec<BlockPos>)
    requires
        courses == courses_for(shape, width_of(a), depth_of(a)),
        a.min.x <= a.max.x,
        a.min.z <= a.max.z,
        i32::MIN <= lo,
        hi <= g.top,
        forall|p: BlockPos| #[trigger] in_plan(*g, a, shape, p) ==> lo <= p.y < hi,
    ensures
        heap_cells(*g, a, shape, cells@),
{
    let (lx, hx, lz, hz) = (a.min.x as i64, a.max.x as i64, a.min.z as i64, a.max.z as i64);
    let mut cells: Vec<BlockPos> = Vec::new();
    let mut y: i64 = lo;
    while y < hi
        invariant
            lo <= y,
            y <= hi || y == lo,
            i32::MIN <= lo,
            hi <= g.top,
            lx == a.min.x, hx == a.max.x, lz == a.min.z, hz == a.max.z,
            lx <= hx,
            lz <= hz,
            courses == courses_for(shape, width_of(a), depth_of(a)),
            forall|p: BlockPos| #[trigger] in_plan(*g, a, shape, p) ==> lo <= p.y < hi,
            forall|i: int, j: int| 0 <= i < j < cells.len() ==> before(#[trigger] cells@[i], #[trigger] cells@[j]),
            forall|i: int| 0 <= i < cells.len() ==> in_plan(*g, a, shape, #[trigger] cells@[i]),
            forall|i: int| 0 <= i < cells.len() ==> key_lt(key_of(#[trigger] cells@[i]), (y as int, lx as int, lz as int)),
            forall|p: BlockPos| #[trigger] in_plan(*g, a, shape, p)
                && key_lt(key_of(p), (y as int, lx as int, lz as int)) ==> cells@.contains(p),
        decreases hi - y,
    {
        let mut x: i64 = lx;
        while x <= hx
            invariant
                lo <= y < hi,
                i32::MIN <= lo,
                hi <= g.top,
                lx <= x <= hx + 1,
                lx == a.min.x, hx == a.max.x, lz == a.min.z, hz == a.max.z,
                lz <= hz,
                courses == courses_for(shape, width_of(a), depth_of(a)),
                forall|i: int, j: int| 0 <= i < j < cells.len() ==> before(#[trigger] cells@[i], #[trigger] cells@[j]),
                forall|i: int| 0 <= i < cells.len() ==> in_plan(*g, a, shape, #[trigger] cells@[i]),
                forall|i: int| 0 <= i < cells.len() ==> key_lt(key_of(#[trigger] cells@[i]), (y as int, x as int, lz as int)),
                forall|p: BlockPos| #[trigger] in_plan(*g, a, shape, p)
                    && key_lt(key_of(p), (y as int, x as int, lz as int)) ==> cells@.contains(p),
            decreases hx + 1 - x,
        {
            let mut z: i64 = lz;
            while z <= hz
                invariant
                    lo <= y < hi,
                    i32::MIN <= lo,
                    hi <= g.top,
                    lx <= x <= hx,
                    lz <= z <= hz + 1,
                    lx == a.min.x, hx == a.max.x, lz == a.min.z, hz == a.max.z,
                    courses == courses_for(shape, width_of(a), depth_of(a)),
                    forall|i: int, j: int| 0 <= i < j < cells.len() ==> before(#[trigger] cells@[i], #[trigger] cells@[j]),
                    forall|i: int| 0 <= i < cells.len() ==> in_plan(*g, a, shape, #[trigger] cells@[i]),
                    forall|i: int| 0 <= i < cells.len() ==> key_lt(key_of(#[trigger] cells@[i]), (y as int, x as int, z as int)),
                    forall|p: BlockPos| #[trigger] in_plan(*g, a, shape, p)
                        && key_lt(key_of(p), (y as int, x as int, z as int)) ==> cells@.contains(p),
                decreases hz + 1 - z,
            {
                let (xi, yi, zi) = (x as i32, y as i32, z as i32);
                let cell = BlockPos { x: xi, y: yi, z: zi };
                let ghost old_cells = cells@;
                match g.surface_y(xi, zi) {
                    Some(s) => {
                        let h = height_at(shape, a, courses, xi, zi);
                        if (s as i64) <= y && y < s as i64 + h as i64 && y < g.top as i64 {
                            assert(in_plan(*g, a, shape, cell));
                            cells.push(cell);
                            proof {
                                assert(cells@[old_cells.len() as int] == cell);
                                assert forall|i: int| 0 <= i < cells.len() implies key_lt(
                                    key_of(#[trigger] cells@[i]),
                                    (y as int, x as int, z + 1),
                                ) by {
                                    if i < old_cells.len() {
                                        assert(old_cells[i] == cells@[i]);
                                    }
                                }
                                assert forall|i: int, j: int| 0 <= i < j < cells.len() implies before(
                                    #[trigger] cells@[i],
                                    #[trigger] cells@[j],
                                ) by {
                                    assert(old_cells[i] == cells@[i]);
                                    if j < old_cells.len() {
                                        assert(old_cells[j] == cells@[j]);
                                    }
                                }
                                assert forall|p: BlockPos| #[trigger] in_plan(*g, a, shape, p)
                                    && key_lt(key_of(p), (y as int, x as int, z + 1)) implies cells@.contains(p) by {
                                    if key_lt(key_of(p), (y as int, x as int, z as int)) {
                                        let k = choose|k: int| 0 <= k < old_cells.len() && old_cells[k] == p;
                                        assert(cells@[k] == p);
                                    } else {
                                        assert(p == cell);
                                    }
                                }
                            }
                        } else {
                            proof {
                                assert forall|p: BlockPos| #[trigger] in_plan(*g, a, shape, p)
                                    && key_lt(key_of(p), (y as int, x as int, z + 1)) implies cells@.contains(p) by {
                                    if !key_lt(key_of(p), (y as int, x as int, z as int)) {
                                        assert(p.x == xi && p.z == zi && p.y == yi);
                                    }
                                }
                            }
                        }
                    },
                    None => {
                        proof {
                            assert forall|p: BlockPos| #[trigger] in_plan(*g, a, shape, p)
                                && key_lt(key_of(p), (y as int, x as int, z + 1)) implies cells@.contains(p) by {
                                if !key_lt(key_of(p), (y as int, x as int, z as int)) {
                                    assert(p.x == xi && p.z == zi);
                                }
                            }
                        }
                    },
                }
                z = z + 1;
            }
            x = x + 1;
        }
        y = y + 1;
    }
    proof {
        assert forall|p: BlockPos| #[trigger] cells@.contains(p) <==> in_plan(*g, a, shape, p) by {
            if cells@.contains(p) {
                let k = choose|k: int| 0 <= k < cells.len() && cells@[k] == p;
                assert(in_plan(*g, a, shape, cells@[k]));
            }
            if in_plan(*g, a, shape, p) {
                assert(key_lt(key_of(p), (y as int, lx as int, lz as int)));
            }
        }
    }
    cells
}

/// What a heap will be, cell by cell.
#[derive(Debug, Clone, PartialEq, Eq)]
pub struct HeapPlan {
    pub shape: HeapShape,
    /// The footprint the player marked, with its heights pulled into the world.
    pub footprint: VoxelAabb,
    /// Every cell to fill, strictly bottom-up: work it in order and no block is
    /// ever placed on air.
    pub cells: Vec<BlockPos>,
    /// How many blocks of spoil the heap wants.
    pub volume: u64,
}

/// Whether there is a heap of this shape on this footprint: the shape fits
/// the footprint, and some column of it has open ground.
pub open spec fn plan_exists(g: Ground, footprint: VoxelAabb, shape: HeapShape) -> bool {
    let a = clamped_box(footprint, g.top);
    &&& shape_fits(shape, a)
    &&& exists|x: i32, z: i32| in_columns(a, x as int, z as int) && #[trigger] open_column(g, x, z)
}

/// Whether `hp` is the heap of this shape on this footprint.
pub open spec fn is_plan(g: Ground, footprint: VoxelAabb, shape: HeapShape, hp: HeapPlan) -> bool {
    &&& hp.shape == shape
    &&& hp.footprint == clamped_box(footprint, g.top)
    &&& heap_cells(g, hp.footprint, shape, hp.cells@)
    &&& hp.volume == hp.cells.len()
}

/// Plan a heap on the marked footprint, or `None` if the ground will not take
/// that shape: a refusal rather than a shrunken plan. Each column of the
/// footprint runs from its own ground up to the height the shape wants there.
pub fn plan(ground: &Ground, footprint: VoxelAabb, shape: HeapShape) -> (r: Option<HeapPlan>)
    ensures
        r is Some <==> plan_exists(*ground, footprint, shape),
        r matches Some(hp) ==> is_plan(*ground, footprint, shape, hp),
{
    let a = footprint.clamped_to_world(ground.top);
    let width: i64 = a.max.x as i64 - a.min.x as i64 + 1;
    let depth: i64 = a.max.z as i64 - a.min.z as i64 + 1;
    if width < 1 || depth < 1 {
        return None;
    }
    let narrow: i64 = if width <= depth { width } else { depth };
    let wanted: i64 = match shape {
        HeapShape::Pyramid => (narrow + 1) / 2,
        HeapShape::Spiral => {
            if width < 3 || depth < 3 {
                return None;
            }
            let ramp = 2 * (width + depth) - 4;
            if ramp <= MAX_COURSES as i64 { ramp } else { MAX_COURSES as i64 }
        },
        HeapShape::Shaft => SHAFT_COURSES as i64,
    };
    let courses: i32 = if wanted < 0 {
        0
    } else if wanted > MAX_COURSES as i64 {
        MAX_COURSES
    } else {
        wanted as i32
    };
    if courses < 1 {
        return None;
    }
    match course_range(ground, a, shape, courses) {
        None => None,
        Some((lo, hi)) => {
            let cells = lay_courses(ground, a, shape, courses, lo, hi);
            let volume = cells.len() as u64;
            Some(HeapPlan { shape, footprint: a, cells, volume })
        },
    }
}

/// Where a shape stands in the order the shapes are offered.
pub open spec fn shape_rank(shape: HeapShape) -> int {
    match shape {
        HeapShape::Pyramid => 0,
        HeapShape::Spiral => 1,
        HeapShape::Shaft => 2,
    }
}

/// Plans listed cheapest first, and in the order the shapes are offered where
/// two cost the same.
pub open spec fn cheapest_first(plans: Seq<HeapPlan>) -> bool {
    forall|i: int, j: int|
        0 <= i < j < plans.len() ==> (#[trigger] plans[i]).volume < (#[trigger] plans[j]).volume || (
        plans[i].volume == plans[j].volume && shape_rank(plans[i].shape) < shape_rank(plans[j].shape))
}

/// Put a plan into a list kept cheapest first, after every plan no dearer.
fn insert_by_volume(list: &mut Vec<HeapPlan>, hp: HeapPlan)
    requires
        cheapest_first(old(list)@),
        forall|i: int| 0 <= i < old(list)@.len() ==> shape_rank(#[trigger] old(list)@[i].shape) < shape_rank(hp.shape),
    ensures
        cheapest_first(final(list)@),
        exists|k: int| 0 <= k <= old(list)@.len() && final(list)@ == old(list)@.insert(k, hp),
{
    let mut k: usize = 0;
    while k < list.len() && list[k].volume <= hp.volume
        invariant
            k <= list.len(),
            list@ == old(list)@,
            forall|i: int| 0 <= i < k ==> (#[trigger] list@[i]).volume <= hp.volume,
        decreases list.len() - k,
    {
        k = k + 1;
    }
    let ghost before = list@;
    proof {
        assert forall|i: int| k <= i < before.len() implies (#[trigger] before[i]).volume > hp.volume by {
            if i > k {
                assert(before[k as int].volume <= before[i].volume);
            }
        }
    }
    list.insert(k, hp);
    proof {
        let after = list@;
        assert forall|i: int, j: int| 0 <= i < j < after.len() implies (#[trigger] after[i]).volume
            < (#[trigger] after[j]).volume || (after[i].volume == after[j].volume && shape_rank(
            after[i].shape,
        ) < shape_rank(after[j].shape)) by {
            if j < k {
                assert(after[i] == before[i] && after[j] == before[j]);
            } else if j == k {
                assert(after[i] == before[i]);
            } else if i < k {
                assert(after[i] == before[i] && after[j] == before[j - 1]);
            } else if i == k {
                assert(after[j] == before[j - 1]);
            } else {
                assert(after[i] == before[i - 1] && after[j] == before[j - 1]);
            }
        }
    }
}

/// A plan of a shape not yet listed keeps the shapes listed once each.
proof fn lemma_insert_keeps_shapes_distinct(was: Seq<HeapPlan>, hp: HeapPlan, k: int, n: int)
    requires
        0 <= k <= was.len(),
        forall|i: int, j: int| 0 <= i < j < was.len() ==> (#[trigger] was[i]).shape != (#[trigger] was[j]).shape,
        forall|i: int| 0 <= i < was.len() ==> shape_rank((#[trigger] was[i]).shape) < n,
        shape_rank(hp.shape) == n,
    ensures
        forall|i: int, j: int|
            0 <= i < j < was.insert(k, hp).len() ==> (#[trigger] was.insert(k, hp)[i]).shape != (#[trigger] was.insert(
                k,
                hp,
            )[j]).shape,
{
    let after = was.insert(k, hp);
    assert forall|i: int, j: int| 0 <= i < j < after.len() implies (#[trigger] after[i]).shape
        != (#[trigger] after[j]).shape by {
        if i == k {
            assert(after[j] == was[j - 1]);
            assert(shape_rank(was[j - 1].shape) < n);
        } else if j == k {
            assert(after[i] == was[i]);
            assert(shape_rank(was[i].shape) < n);
        } else {
            let a = if i < k { i } else { i - 1 };
            let b = if j < k { j } else { j - 1 };
            assert(after[i] == was[a]);
            assert(after[j] == was[b]);
            assert(was[a].shape != was[b].shape);
        }
    }
}

/// Every shape the marked ground will take, cheapest first.
pub fn options(ground: &Ground, footprint: VoxelAabb) -> (plans: Vec<HeapPlan>)
    ensures
        cheapest_first(plans@),
        forall|i: int| 0 <= i < plans.len() ==> is_plan(*ground, footprint, (#[trigger] plans@[i]).shape, plans@[i]),
        forall|shape: HeapShape| #[trigger] plan_exists(*ground, footprint, shape) <==> exists|i: int|
            0 <= i < plans.len() && (#[trigger] plans@[i]).shape == shape,
        forall|i: int, j: int| 0 <= i < j < plans.len() ==> (#[trigger] plans@[i]).shape != (#[trigger] plans@[j]).shape,
{
    let mut plans: Vec<HeapPlan> = Vec::new();
    let shapes = HeapShape::ALL;
    let mut n: usize = 0;
    while n < 3
        invariant
            n <= 3,
            shapes@ == seq![HeapShape::Pyramid, HeapShape::Spiral, HeapShape::Shaft],
            cheapest_first(plans@),
            forall|i: int| 0 <= i < plans.len() ==> is_plan(*ground, footprint, (#[trigger] plans@[i]).shape, plans@[i]),
            forall|i: int| 0 <= i < plans.len() ==> shape_rank((#[trigger] plans@[i]).shape) < n,
            forall|i: int, j: int| 0 <= i < j < plans.len() ==> (#[trigger] plans@[i]).shape != (#[trigger] plans@[j]).shape,
            forall|shape: HeapShape| shape_rank(shape) < n ==> (#[trigger] plan_exists(*ground, footprint, shape) <==> exists|i: int|
                0 <= i < plans.len() && (#[trigger] plans@[i]).shape == shape),
        decreases 3 - n,
    {
        let shape = shapes[n];
        assert(shape_rank(shape) == n);
        let ghost was = plans@;
        match plan(ground, footprint, shape) {
            Some(hp) => {
                insert_by_volume(&mut plans, hp);
                proof {
                    let k = choose|k: int| 0 <= k <= was.len() && plans@ == was.insert(k, hp);
                    assert(plans@[k] == hp);
                    lemma_insert_keeps_shapes_distinct(was, hp, k, n as int);
                    assert forall|i: int| 0 <= i < plans.len() implies is_plan(*ground, footprint, (#[trigger] plans@[i]).shape, plans@[i])
                        && shape_rank(plans@[i].shape) < n + 1 by {
                        if i < k {
                            assert(plans@[i] == was[i]);
                        } else if i > k {
                            assert(plans@[i] == was[i - 1]);
                        }
                    }
                    assert forall|sh: HeapShape| shape_rank(sh) < n + 1 implies (#[trigger] plan_exists(*ground, footprint, sh) <==> exists|i: int|
                        0 <= i < plans.len() && (#[trigger] plans@[i]).shape == sh) by {
                        if sh == shape {
                            assert(plans@[k].shape == sh);
                        } else {
                            if exists|i: int| 0 <= i < was.len() && (#[trigger] was[i]).shape == sh {
                                let i = choose|i: int| 0 <= i < was.len() && (#[trigger] was[i]).shape == sh;
                                if i < k {
                                    assert(plans@[i] == was[i]);
                                } else {
                                    assert(plans@[i + 1] == was[i]);
                                }
                            }
                            if exists|i: int| 0 <= i < plans.len() && (#[trigger] plans@[i]).shape == sh {
                                let i = choose|i: int| 0 <= i < plans.len() && (#[trigger] plans@[i]).shape == sh;
                                if i < k {
                                    assert(plans@[i] == was[i]);
                                } else if i > k {
                                    assert(plans@[i] == was[i - 1]);
                                }
                            }
                        }
                    }
                }
            },
            None => {
                proof {
                    assert forall|sh: HeapShape| shape_rank(sh) < n + 1 implies (#[trigger] plan_exists(*ground, footprint, sh) <==> exists|i: int|
                        0 <= i < plans.len() && (#[trigger] plans@[i]).shape == sh) by {
                        if sh == shape {
                            if exists|i: int| 0 <= i < plans.len() && (#[trigger] plans@[i]).shape == sh {
                                let i = choose|i: int| 0 <= i < plans.len() && (#[trigger] plans@[i]).shape == sh;
                                assert(shape_rank(plans@[i].shape) < n);
                            }
                        }
                    }
                }
            },
        }
        n = n + 1;
    }
    proof {
        assert forall|sh: HeapShape| #[trigger] plan_exists(*ground, footprint, sh) <==> exists|i: int|
            0 <= i < plans.len() && (#[trigger] plans@[i]).shape == sh by {
            assert(shape_rank(sh) < 3);
        }
    }
    plans
}

/// The box that just holds every cell: each cell inside it, and each of its
/// six faces touched by some cell.
pub open spec fn bounds(cells: Seq<BlockPos>, b: VoxelAabb) -> bool {
    &&& forall|i: int| 0 <= i < cells.len() ==> b.holds(#[trigger] cells[i])
    &&& exists|i: int| 0 <= i < cells.len() && (#[trigger] cells[i]).x == b.min.x
    &&& exists|i: int| 0 <= i < cells.len() && (#[trigger] cells[i]).x == b.max.x
    &&& exists|i: int| 0 <= i < cells.len() && (#[trigger] cells[i]).y == b.min.y
    &&& exists|i: int| 0 <= i < cells.len() && (#[trigger] cells[i]).y == b.max.y
    &&& exists|i: int| 0 <= i < cells.len() && (#[trigger] cells[i]).z == b.min.z
    &&& exists|i: int| 0 <= i < cells.len() && (#[trigger] cells[i]).z == b.max.z
}

impl HeapPlan {
    /// How many courses tall it finishes: from the first cell's height to the
    /// last one's.
    pub fn courses(&self) -> (n: i32)
        requires
            self.cells.len() > 0 ==> i32::MIN <= self.cells@.last().y - self.cells@[0].y + 1
                <= i32::MAX,
        ensures
            n == if self.cells.len() == 0 {
                0
            } else {
                self.cells@.last().y - self.cells@[0].y + 1
            },
    {
        if self.cells.len() == 0 {
            0
        } else {
            let top = self.cells[self.cells.len() - 1];
            let floor = self.cells[0];
            (top.y as i64 - floor.y as i64 + 1) as i32
        }
    }

    /// Everything it will occupy: the box that just holds its cells, or the
    /// footprint when there are none.
    pub fn span(&self) -> (b: VoxelAabb)
        ensures
            self.cells.len() == 0 ==> b == self.footprint,
            self.cells.len() > 0 ==> bounds(self.cells@, b),
    {
        if self.cells.len() == 0 {
            return self.footprint;
        }
        let first = self.cells[0];
        let mut b = VoxelAabb { min: first, max: first };
        let mut i: usize = 1;
        assert(self.cells@.subrange(0, 1)[0] == first);
        while i < self.cells.len()
            invariant
                1 <= i <= self.cells.len(),
                bounds(self.cells@.subrange(0, i as int), b),
            decreases self.cells.len() - i,
        {
            let c = self.cells[i];
            let ghost was = b;
            let ghost seen = self.cells@.subrange(0, i as int);
            if c.x < b.min.x {
                b.min.x = c.x;
            }
            if c.x > b.max.x {
                b.max.x = c.x;
            }
            if c.y < b.min.y {
                b.min.y = c.y;
            }
            if c.y > b.max.y {
                b.max.y = c.y;
            }
            if c.z < b.min.z {
                b.min.z = c.z;
            }
            if c.z > b.max.z {
                b.max.z = c.z;
            }
            proof {
                let now = self.cells@.subrange(0, i + 1);
                assert(now[i as int] == c);
                assert forall|k: int| 0 <= k < now.len() implies b.holds(#[trigger] now[k]) by {
                    if k < i {
                        assert(now[k] == seen[k]);
                    }
                }
                let pick = |v: bool, k: int| if v { i as int } else { k };
                let kx0 = choose|k: int| 0 <= k < seen.len() && (#[trigger] seen[k]).x == was.min.x;
                let kx1 = choose|k: int| 0 <= k < seen.len() && (#[trigger] seen[k]).x == was.max.x;
                let ky0 = choose|k: int| 0 <= k < seen.len() && (#[trigger] seen[k]).y == was.min.y;
                let ky1 = choose|k: int| 0 <= k < seen.len() && (#[trigger] seen[k]).y == was.max.y;
                let kz0 = choose|k: int| 0 <= k < seen.len() && (#[trigger] seen[k]).z == was.min.z;
                let kz1 = choose|k: int| 0 <= k < seen.len() && (#[trigger] seen[k]).z == was.max.z;
                assert(now[kx0] == seen[kx0] && now[kx1] == seen[kx1]);
                assert(now[ky0] == seen[ky0] && now[ky1] == seen[ky1]);
                assert(now[kz0] == seen[kz0] && now[kz1] == seen[kz1]);
                assert(now[pick(c.x < was.min.x, kx0)].x == b.min.x);
                assert(now[pick(c.x > was.max.x, kx1)].x == b.max.x);
                assert(now[pick(c.y < was.min.y, ky0)].y == b.min.y);
                assert(now[pick(c.y > was.max.y, ky1)].y == b.max.y);
                assert(now[pick(c.z < was.min.z, kz0)].z == b.min.z);
                assert(now[pick(c.z > was.max.z, kz1)].z == b.max.z);
            }
            i = i + 1;
        }
        proof {
            assert(self.cells@.subrange(0, i as int) =~= self.cells@);
        }
        b
    }
}

/// The cell a cell rests on.
pub open spec fn below(p: BlockPos) -> BlockPos {
    BlockPos { x: p.x, y: (p.y - 1) as i32, z: p.z }
}

/// A plan is buildable from the ground up: every cell rests either on the
/// ground that was there before the heap started, or on a cell earlier in the
/// same list.
pub proof fn lemma_plan_is_buildable(g: Ground, a: VoxelAabb, shape: HeapShape, cells: Seq<BlockPos>, i: int)
    requires
        heap_cells(g, a, shape, cells),
        0 <= i < cells.len(),
    ensures
        g.surface_at(cells[i].x, cells[i].z) == Some(cells[i].y) || exists|j: int|
            0 <= j < i && cells[j] == below(cells[i]),
{
    let c = cells[i];
    assert(cells.contains(c));
    assert(in_plan(g, a, shape, c));
    let s = g.surface_at(c.x, c.z).unwrap();
    if s != c.y {
        let b = below(c);
        assert(in_plan(g, a, shape, b));
        assert(cells.contains(b));
        let j = choose|j: int| 0 <= j < cells.len() && cells[j] == b;
        if j >= i {
            if j > i {
                assert(before(cells[i], cells[j]));
            }
            assert(false);
        }
    }
}

/// No cell is asked for twice.
pub proof fn lemma_plan_has_no_repeats(g: Ground, a: VoxelAabb, shape: HeapShape, cells: Seq<BlockPos>, i: int, j: int)
    requires
        heap_cells(g, a, shape, cells),
        0 <= i < j < cells.len(),
    ensures
        cells[i] != cells[j],
{
    assert(before(cells[i], cells[j]));
}

/// Every column of a heap starts on its own ground: no cell is below the
/// ground of its column, and the ground cell of every column the heap uses is
/// in the plan.
pub proof fn lemma_columns_start_on_their_ground(g: Ground, a: VoxelAabb, shape: HeapShape, cells: Seq<BlockPos>, i: int)
    requires
        heap_cells(g, a, shape, cells),
        0 <= i < cells.len(),
    ensures
        g.surface_at(cells[i].x, cells[i].z) matches Some(s) && s <= cells[i].y && cells.contains(
            BlockPos { x: cells[i].x, y: s, z: cells[i].z },
        ),
{
    let c = cells[i];
    assert(cells.contains(c));
    let s = g.surface_at(c.x, c.z).unwrap();
    let floor = BlockPos { x: c.x, y: s, z: c.z };
    assert(in_plan(g, a, shape, floor));
}

/// A pyramid narrows by one ring a course: course `k` covers exactly the
/// footprint with `k` rings taken off its rim.
pub proof fn lemma_pyramid_narrows_one_ring_a_course(a: VoxelAabb, courses: int, k: int, x: int, z: int)
    requires
        in_columns(a, x, z),
        0 <= k < courses,
    ensures
        column_height(HeapShape::Pyramid, a, courses, x, z) > k <==> (a.min.x + k <= x <= a.max.x - k
            && a.min.z + k <= z <= a.max.z - k),
{
}

/// A shaft is a prism: every column of it is the same height, and that is
/// the height a drone can reach.
pub proof fn lemma_shaft_is_a_short_prism(a: VoxelAabb, x: int, z: int)
    requires
        width_of(a) >= 1,
        depth_of(a) >= 1,
    ensures
        courses_for(HeapShape::Shaft, width_of(a), depth_of(a)) == SHAFT_COURSES,
        column_height(
            HeapShape::Shaft,
            a,
            courses_for(HeapShape::Shaft, width_of(a), depth_of(a)),
            x,
            z,
        ) == SHAFT_COURSES,
{
}

/// A spiral's ramp is a staircase a drone can climb: walking round the rim,
/// each cell's column is as tall as the last or one block taller.
pub proof fn lemma_spiral_ramp_climbs_a_block_at_a_time(a: VoxelAabb, i: int)
    requires
        shape_fits(HeapShape::Spiral, a),
        0 <= i,
        i + 1 < ring_seq(a).len(),
    ensures
        ({
            let c = courses_for(HeapShape::Spiral, width_of(a), depth_of(a));
            let here = ring_seq(a)[i];
            let next = ring_seq(a)[i + 1];
            let step = column_height(HeapShape::Spiral, a, c, next.0 as int, next.1 as int)
                - column_height(HeapShape::Spiral, a, c, here.0 as int, here.1 as int);
            0 <= step <= 1
        }),
{
    lemma_ring_walk_indexes(a, i);
    lemma_ring_walk_indexes(a, i + 1);
}

/// **A spiral is as tall as its ramp is long.** The ramp climbs one block a
/// rim cell, so the tower has as many courses as the rim has cells, up to
/// [`MAX_COURSES`]; and when the rim is no longer than that, the last cell
/// of the ramp stands the full height, so the helix closes on the core.
pub proof fn lemma_a_spiral_is_as_tall_as_its_ramp(a: VoxelAabb)
    requires
        shape_fits(HeapShape::Spiral, a),
    ensures
        ring_seq(a).len() == 2 * (width_of(a) + depth_of(a)) - 4,
        courses_for(HeapShape::Spiral, width_of(a), depth_of(a)) == least(
            ring_seq(a).len() as int,
            MAX_COURSES as int,
        ),
        ring_seq(a).len() <= MAX_COURSES ==> ({
            let last = ring_seq(a)[ring_seq(a).len() - 1];
            column_height(
                HeapShape::Spiral,
                a,
                courses_for(HeapShape::Spiral, width_of(a), depth_of(a)),
                last.0 as int,
                last.1 as int,
            ) == courses_for(HeapShape::Spiral, width_of(a), depth_of(a))
        }),
{
    let n = ring_seq(a).len();
    assert(n == 2 * (width_of(a) + depth_of(a)) - 4);
    lemma_ring_walk_indexes(a, n - 1);
}

} // verus!
