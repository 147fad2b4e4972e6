//! What the scout saw, and for how long it is worth believing.
//!
//! A sighting is a kind, a place and the tick it was last seen; it is worth
//! showing until it has gone unsighted for [`MARK_DECAY`] ticks.
use vstd::prelude::*;

verus! {

/// Ticks a mark survives unsighted (30 s at the 8 Hz journal clock).
pub const MARK_DECAY: u64 = 240;

/// What kind of thing was seen: deliberately binary.
#[derive(Debug, Clone, Copy, PartialEq, Eq, Hash, Structural)]
pub enum MarkKind {
    Person,
    Machine,
}

/// Ticks since a sighting at `seen`, as of `now`: nothing for a sighting
/// from the future.
pub fn age(seen: u64, now: u64) -> (ticks: u64)
    ensures
        ticks == if now >= seen {
            now - seen
        } else {
            0
        },
{
    now.saturating_sub(seen)
}

/// Whether a sighting at `seen` is still worth showing at `now`.
pub fn live(seen: u64, now: u64) -> (fresh: bool)
    ensures
        fresh == (now < seen + MARK_DECAY),
{
    age(seen, now) < MARK_DECAY
}

/// A mark decays exactly on schedule: live for [`MARK_DECAY`] ticks after
/// it was seen, and not one tick more.
pub proof fn lemma_a_mark_decays_on_schedule(seen: u64, now: u64)
    requires
        now >= seen,
    ensures
        (now - seen < MARK_DECAY) == (now < seen + MARK_DECAY),
{
}

/// The kind's tag in `marks.dat`.
pub fn kind_tag(kind: MarkKind) -> (tag: u8)
    ensures
        tag == match kind {
            MarkKind::Person => 0u8,
            MarkKind::Machine => 1u8,
        },
{
    match kind {
        MarkKind::Person => 0,
        MarkKind::Machine => 1,
    }
}

/// The kind a tag in `marks.dat` names, or `None` for an unknown one.
pub fn kind_of(tag: u8) -> (kind: Option<MarkKind>)
    ensures
        tag == 0 ==> kind == Some(MarkKind::Person),
        tag == 1 ==> kind == Some(MarkKind::Machine),
        tag > 1 ==> kind is None,
{
    if tag == 0 {
        Some(MarkKind::Person)
    } else if tag == 1 {
        Some(MarkKind::Machine)
    } else {
        None
    }
}

} // verus!
