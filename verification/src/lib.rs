//! The rules of a voxel mining game, verified: what the crew, the fleet and
//! the player's own back carry and where it goes; the files every ledger is
//! kept in and how a save is proved whole; the ground a body can cross; the
//! heaps the crew stacks; and the pad, the keyboard and the panels the player
//! reads it all through.

pub mod afoot;
pub mod air;
pub mod bytes;
pub mod cargo;
pub mod citizenship;
pub mod columns;
pub mod crew;
pub mod dig;
pub mod drill;
pub mod drops;
pub mod drillmod;
pub mod fleet;
pub mod gamepad;
pub mod geometry;
pub mod heap;
pub mod integrity;
pub mod keeping;
pub mod ledger;
pub mod machine;
pub mod masonry;
pub mod operation;
pub mod osk;
pub mod pack;
pub mod pack_panel;
pub mod payroll;
pub mod pile;
pub mod pilot;
pub mod pumps;
pub mod rocket;
pub mod scout;
pub mod stockpile;
pub mod text;

