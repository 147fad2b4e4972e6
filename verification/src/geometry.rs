//! Positions and boxes of blocks.
use vstd::prelude::*;

use crate::bytes::{
    i32_at, i32_bytes, lemma_i32_round_trip, lemma_u32_bytes_len, put_i32, read_i32, stands_at,
};

verus! {

/// A block's position in the world.
#[derive(Debug, Clone, Copy, PartialEq, Eq, Structural)]
pub struct BlockPos {
    pub x: i32,
    pub y: i32,
    pub z: i32,
}

impl BlockPos {
    pub fn new(x: i32, y: i32, z: i32) -> (p: BlockPos)
        ensures
            p == (BlockPos { x, y, z }),
    {
        BlockPos { x, y, z }
    }
}

/// The smaller of two.
pub open spec fn lesser(a: i32, b: i32) -> i32 {
    if a <= b {
        a
    } else {
        b
    }
}

/// The larger of two.
pub open spec fn greater(a: i32, b: i32) -> i32 {
    if a >= b {
        a
    } else {
        b
    }
}

/// An axis-aligned box of blocks, both corners inclusive.
#[derive(Debug, Clone, Copy, PartialEq, Eq, Structural)]
pub struct VoxelAabb {
    pub min: BlockPos,
    pub max: BlockPos,
}

/// The box two corners make, whichever way round they were given.
pub open spec fn aabb_of(a: BlockPos, b: BlockPos) -> VoxelAabb {
    VoxelAabb {
        min: BlockPos { x: lesser(a.x, b.x), y: lesser(a.y, b.y), z: lesser(a.z, b.z) },
        max: BlockPos { x: greater(a.x, b.x), y: greater(a.y, b.y), z: greater(a.z, b.z) },
    }
}

impl VoxelAabb {
    /// The box two corners make, whichever way round they were given.
    pub fn new(a: BlockPos, b: BlockPos) -> (area: VoxelAabb)
        ensures
            area == aabb_of(a, b),
    {
        VoxelAabb {
            min: BlockPos {
                x: if a.x <= b.x { a.x } else { b.x },
                y: if a.y <= b.y { a.y } else { b.y },
                z: if a.z <= b.z { a.z } else { b.z },
            },
            max: BlockPos {
                x: if a.x >= b.x { a.x } else { b.x },
                y: if a.y >= b.y { a.y } else { b.y },
                z: if a.z >= b.z { a.z } else { b.z },
            },
        }
    }

    /// Whether the box holds `p`.
    pub open spec fn holds(&self, p: BlockPos) -> bool {
        self.min.x <= p.x <= self.max.x && self.min.y <= p.y <= self.max.y && self.min.z <= p.z
            <= self.max.z
    }

    /// Whether the box holds `p`.
    pub fn contains(&self, p: BlockPos) -> (inside: bool)
        ensures
            inside == self.holds(p),
    {
        self.min.x <= p.x && p.x <= self.max.x && self.min.y <= p.y && p.y <= self.max.y
            && self.min.z <= p.z && p.z <= self.max.z
    }
}

/// A height pulled into the world's `0..top`.
pub open spec fn clamp_y(v: i32, top: i32) -> i32 {
    if top <= 0 || v < 0 {
        0
    } else if v >= top {
        (top - 1) as i32
    } else {
        v
    }
}

/// The box with its heights pulled into the world's `0..top`.
pub open spec fn clamped_box(a: VoxelAabb, top: i32) -> VoxelAabb {
    VoxelAabb {
        min: BlockPos { x: a.min.x, y: clamp_y(a.min.y, top), z: a.min.z },
        max: BlockPos { x: a.max.x, y: clamp_y(a.max.y, top), z: a.max.z },
    }
}

impl VoxelAabb {
    /// The box with its heights pulled into the world's `0..top`.
    pub fn clamped_to_world(self, top: i32) -> (area: VoxelAabb)
        ensures
            area == clamped_box(self, top),
    {
        let lo = if top <= 0 || self.min.y < 0 {
            0
        } else if self.min.y >= top {
            top - 1
        } else {
            self.min.y
        };
        let hi = if top <= 0 || self.max.y < 0 {
            0
        } else if self.max.y >= top {
            top - 1
        } else {
            self.max.y
        };
        VoxelAabb {
            min: BlockPos { x: self.min.x, y: lo, z: self.min.z },
            max: BlockPos { x: self.max.x, y: hi, z: self.max.z },
        }
    }
}

/// The smallest box holding both boxes.
pub open spec fn hull(a: VoxelAabb, b: VoxelAabb) -> VoxelAabb {
    VoxelAabb {
        min: BlockPos { x: lesser(a.min.x, b.min.x), y: lesser(a.min.y, b.min.y), z: lesser(a.min.z, b.min.z) },
        max: BlockPos { x: greater(a.max.x, b.max.x), y: greater(a.max.y, b.max.y), z: greater(a.max.z, b.max.z) },
    }
}

/// A box grown by `by` on every side.
pub open spec fn grown(a: VoxelAabb, by: i32) -> VoxelAabb {
    VoxelAabb {
        min: BlockPos { x: (a.min.x - by) as i32, y: (a.min.y - by) as i32, z: (a.min.z - by) as i32 },
        max: BlockPos { x: (a.max.x + by) as i32, y: (a.max.y + by) as i32, z: (a.max.z + by) as i32 },
    }
}

/// Whether growing a box by `by` keeps its corners inside `i32`.
pub open spec fn grows_in_range(a: VoxelAabb, by: i32) -> bool {
    &&& i32::MIN <= a.min.x - by <= i32::MAX && i32::MIN <= a.min.y - by <= i32::MAX
    &&& i32::MIN <= a.min.z - by <= i32::MAX
    &&& i32::MIN <= a.max.x + by <= i32::MAX && i32::MIN <= a.max.y + by <= i32::MAX
    &&& i32::MIN <= a.max.z + by <= i32::MAX
}

impl VoxelAabb {
    /// The box holding just `p`.
    pub fn single(p: BlockPos) -> (area: VoxelAabb)
        ensures
            area == (VoxelAabb { min: p, max: p }),
    {
        VoxelAabb { min: p, max: p }
    }

    /// The smallest box holding both.
    pub fn union(self, other: VoxelAabb) -> (area: VoxelAabb)
        ensures
            area == hull(self, other),
    {
        VoxelAabb {
            min: BlockPos {
                x: if self.min.x <= other.min.x { self.min.x } else { other.min.x },
                y: if self.min.y <= other.min.y { self.min.y } else { other.min.y },
                z: if self.min.z <= other.min.z { self.min.z } else { other.min.z },
            },
            max: BlockPos {
                x: if self.max.x >= other.max.x { self.max.x } else { other.max.x },
                y: if self.max.y >= other.max.y { self.max.y } else { other.max.y },
                z: if self.max.z >= other.max.z { self.max.z } else { other.max.z },
            },
        }
    }

    /// The box grown by `by` on every side.
    pub fn expanded(self, by: i32) -> (area: VoxelAabb)
        requires
            grows_in_range(self, by),
        ensures
            area == grown(self, by),
    {
        VoxelAabb {
            min: BlockPos { x: self.min.x - by, y: self.min.y - by, z: self.min.z - by },
            max: BlockPos { x: self.max.x + by, y: self.max.y + by, z: self.max.z + by },
        }
    }
}

/// A position as a save file writes it: x, y, z.
pub open spec fn pos_bytes(p: BlockPos) -> Seq<u8> {
    i32_bytes(p.x) + i32_bytes(p.y) + i32_bytes(p.z)
}

/// The position written at `at`, and the position after it.
pub open spec fn pos_at(s: Seq<u8>, at: int) -> Option<(BlockPos, int)> {
    match (i32_at(s, at), i32_at(s, at + 4), i32_at(s, at + 8)) {
        (Some((x, _)), Some((y, _)), Some((z, _))) => Some((BlockPos { x, y, z }, at + 12)),
        _ => None,
    }
}

pub proof fn lemma_pos_bytes_len(p: BlockPos)
    ensures
        pos_bytes(p).len() == 12,
{
    lemma_u32_bytes_len(p.x as u32);
    lemma_u32_bytes_len(p.y as u32);
    lemma_u32_bytes_len(p.z as u32);
}

/// A position written at `at` reads back as itself.
pub proof fn lemma_pos_round_trip(s: Seq<u8>, at: int, p: BlockPos)
    requires
        stands_at(s, at, pos_bytes(p)),
    ensures
        pos_at(s, at) == Some((p, at + 12)),
{
    lemma_pos_bytes_len(p);
    lemma_u32_bytes_len(p.x as u32);
    lemma_u32_bytes_len(p.y as u32);
    let w = pos_bytes(p);
    assert(s.subrange(at, at + 4) =~= w.subrange(0, 4));
    assert(w.subrange(0, 4) =~= i32_bytes(p.x));
    assert(s.subrange(at + 4, at + 8) =~= w.subrange(4, 8));
    assert(w.subrange(4, 8) =~= i32_bytes(p.y));
    assert(s.subrange(at + 8, at + 12) =~= w.subrange(8, 12));
    assert(w.subrange(8, 12) =~= i32_bytes(p.z));
    lemma_i32_round_trip(s, at, p.x);
    lemma_i32_round_trip(s, at + 4, p.y);
    lemma_i32_round_trip(s, at + 8, p.z);
}

/// Append a position.
pub fn put_pos(out: &mut Vec<u8>, p: BlockPos)
    ensures
        final(out)@ == old(out)@ + pos_bytes(p),
{
    let ghost start = out@;
    put_i32(out, p.x);
    put_i32(out, p.y);
    put_i32(out, p.z);
    assert(out@ =~= start + pos_bytes(p));
}

/// The position at `at`.
pub fn read_pos(s: &[u8], at: usize) -> (r: Option<(BlockPos, usize)>)
    ensures
        r matches Some((p, next)) ==> pos_at(s@, at as int) == Some((p, next as int)),
        r is None <==> pos_at(s@, at as int) is None,
{
    let (x, a) = match read_i32(s, at) {
        Some(v) => v,
        None => return None,
    };
    let (y, b) = match read_i32(s, a) {
        Some(v) => v,
        None => return None,
    };
    let (z, c) = match read_i32(s, b) {
        Some(v) => v,
        None => return None,
    };
    Some((BlockPos { x, y, z }, c))
}

} // verus!
