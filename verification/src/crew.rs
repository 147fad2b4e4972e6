//! A crew's work as plain data: the job board, the drones and the pile they
//! feed, in the form a save writes down and a restore puts back.
use vstd::prelude::*;

use crate::geometry::{BlockPos, VoxelAabb};
use crate::heap::HeapShape;
use crate::stockpile::Stockpile;

verus! {

/// A job's number on the board.
#[derive(Debug, Clone, Copy, PartialEq, Eq, Hash, Structural)]
pub struct JobId(pub u64);

/// A drone's number in its crew.
#[derive(Debug, Clone, Copy, PartialEq, Eq, Hash, Structural)]
pub struct DroneId(pub u32);

/// What a job asks of the drone that takes it.
#[derive(Debug, Clone, Copy, PartialEq, Eq, Hash, Structural)]
pub enum JobKind {
    /// Open a way in.
    Access,
    /// Cut what was marked.
    Extract,
    /// Stack spoil into a heap.
    Stack,
}

/// One piece of work on the board.
#[derive(Debug, Clone, Copy, PartialEq, Eq, Structural)]
pub struct Job {
    pub id: JobId,
    pub kind: JobKind,
    pub region: VoxelAabb,
    pub priority: i32,
}

/// The board: every job with the drone that claimed it, and the next number
/// to hand out.
#[derive(Debug)]
pub struct BoardSnapshot {
    pub entries: Vec<(Job, Option<DroneId>)>,
    pub next_id: u64,
}

/// What a drone is doing, with the job its variants carry.
#[derive(Debug, Clone, Copy, PartialEq, Eq, Structural)]
pub enum DroneState {
    Idle,
    Travelling(JobId),
    Digging(JobId),
    Hauling,
    Stuck,
    Manual,
    Stacking(JobId),
    Lost,
}

/// A drone, as plain data.
#[derive(Debug)]
pub struct DroneSnapshot {
    pub id: DroneId,
    pub position: BlockPos,
    pub previous_position: BlockPos,
    pub state: DroneState,
    pub cargo: Stockpile,
    pub capacity: u64,
    pub grade: i32,
    pub job: Option<JobId>,
    /// Cells this drone has been refused, so it does not ask again.
    pub denied: Vec<BlockPos>,
    pub denied_job: Option<JobId>,
}

/// The heap a crew was ordered to stack: the shape and the footprint, which
/// are what the player chose. Its cells are a function of those and the
/// ground, so they are planned again rather than kept.
#[derive(Debug, Clone, Copy, PartialEq, Eq, Structural)]
pub struct HeapOrder {
    pub shape: HeapShape,
    pub footprint: VoxelAabb,
}

/// An excavation's whole persistent state, as plain data.
#[derive(Debug)]
pub struct OperationSnapshot {
    pub board: BoardSnapshot,
    pub stockpile: Stockpile,
    pub home: BlockPos,
    pub drones: Vec<DroneSnapshot>,
    pub fields_built: u64,
    pub heap: Option<HeapOrder>,
    /// Blocks stacked into the heap so far.
    pub stacked: u64,
    /// Which drone the player had the wheel of.
    pub controlled: Option<usize>,
}

} // verus!
