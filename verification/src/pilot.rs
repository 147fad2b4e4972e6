//! Manual control: the player takes the wheel.
//!
//! A piloted machine can do nothing an autonomous one could not. Input
//! arrives as a [`PilotCommand`] sampled once per frame and re-issued on each
//! simulation tick.
use vstd::prelude::*;

verus! {

/// A cardinal direction on the ground plane. No diagonals: a diagonal step
/// squeezes through a corner nothing could physically pass.
#[derive(Debug, Clone, Copy, PartialEq, Eq, Structural)]
pub enum Heading {
    PosX,
    NegX,
    PosZ,
    NegZ,
}

/// Where a heading falls going round: PosX, PosZ, NegX, NegZ.
pub open spec fn turn_index(h: Heading) -> int {
    match h {
        Heading::PosX => 0,
        Heading::PosZ => 1,
        Heading::NegX => 2,
        Heading::NegZ => 3,
    }
}

/// The heading at a place going round.
pub open spec fn heading_at(i: int) -> Heading {
    if i % 4 == 0 {
        Heading::PosX
    } else if i % 4 == 1 {
        Heading::PosZ
    } else if i % 4 == 2 {
        Heading::NegX
    } else {
        Heading::NegZ
    }
}

/// A heading turned by quarter turns, positive going PosX → PosZ → NegX → NegZ.
pub open spec fn rotated_spec(h: Heading, quarter_turns: int) -> Heading {
    heading_at(turn_index(h) + quarter_turns)
}

/// The block offset one step along a heading.
pub open spec fn offset_spec(h: Heading) -> [i32; 3] {
    match h {
        Heading::PosX => [1i32, 0i32, 0i32],
        Heading::NegX => [-1i32, 0i32, 0i32],
        Heading::PosZ => [0i32, 0i32, 1i32],
        Heading::NegZ => [0i32, 0i32, -1i32],
    }
}

impl Heading {
    /// Turn by quarter turns. Strafing is "forward, rotated", so it needs no
    /// separate table.
    pub fn rotated(self, quarter_turns: i32) -> (h: Heading)
        requires
            turn_index(self) + quarter_turns <= i32::MAX,
        ensures
            h == rotated_spec(self, quarter_turns as int),
    {
        let at: i32 = match self {
            Heading::PosX => 0,
            Heading::PosZ => 1,
            Heading::NegX => 2,
            Heading::NegZ => 3,
        };
        let turned = match (at + quarter_turns).checked_rem_euclid(4) {
            Some(v) => v,
            None => 0,
        };
        if turned == 0 {
            Heading::PosX
        } else if turned == 1 {
            Heading::PosZ
        } else if turned == 2 {
            Heading::NegX
        } else {
            Heading::NegZ
        }
    }

    /// The block offset one step along this heading.
    pub fn offset(self) -> (step: [i32; 3])
        ensures
            step == offset_spec(self),
    {
        match self {
            Heading::PosX => [1, 0, 0],
            Heading::NegX => [-1, 0, 0],
            Heading::PosZ => [0, 0, 1],
            Heading::NegZ => [0, 0, -1],
        }
    }
}

/// **Quarter turns compose.** Turning by one amount and then another is
/// turning by their sum; four quarter turns is no turn at all; and a half
/// turn steps the opposite way.
pub proof fn lemma_turns_compose(h: Heading, a: int, b: int)
    ensures
        rotated_spec(rotated_spec(h, a), b) == rotated_spec(h, a + b),
        rotated_spec(h, 0) == h,
        rotated_spec(h, 4) == h,
        offset_spec(rotated_spec(h, 2))@[0] == -offset_spec(h)@[0],
        offset_spec(rotated_spec(h, 2))@[2] == -offset_spec(h)@[2],
        offset_spec(rotated_spec(h, 2))@[1] == 0,
{
    let i = turn_index(h) + a;
    assert(turn_index(heading_at(i)) == i % 4);
    vstd::arithmetic::div_mod::lemma_add_mod_noop_right(b, i, 4);
    vstd::arithmetic::div_mod::lemma_mod_add_multiples_vanish(turn_index(h), 4);
}

/// What the pilot is asking for on this tick.
#[derive(Debug, Clone, Copy, PartialEq, Eq, Structural)]
pub struct PilotCommand {
    /// Where to drive, if anywhere.
    pub heading: Option<Heading>,
    /// Whether the cutter is running.
    pub cut: bool,
    /// Fliers only: +1 up, -1 down, 0 hold.
    pub climb: i32,
}

impl Default for PilotCommand {
    fn default() -> (command: PilotCommand)
        ensures
            command == (PilotCommand { heading: None, cut: false, climb: 0 }),
    {
        PilotCommand { heading: None, cut: false, climb: 0 }
    }
}

/// What one tick of piloting actually managed.
#[derive(Debug, Clone, Copy, PartialEq, Eq, Structural)]
pub struct PilotReport {
    pub moved: bool,
    pub dug: u64,
    /// The machine refused something the pilot asked for.
    pub blocked: bool,
    /// Blocks below the safe altitude a hand-flown machine ended this tick.
    pub dive: i32,
}

impl Default for PilotReport {
    fn default() -> (report: PilotReport)
        ensures
            report == (PilotReport { moved: false, dug: 0, blocked: false, dive: 0 }),
    {
        PilotReport { moved: false, dug: 0, blocked: false, dive: 0 }
    }
}

/// What one tick of piloted flight did.
#[derive(Debug, Clone, Copy, PartialEq, Eq, Structural)]
pub struct PilotStep {
    /// Did the machine move at all this tick?
    pub moved: bool,
    /// Blocks below the safe altitude it came to rest, or 0.
    pub dive: i32,
}

impl Default for PilotStep {
    fn default() -> (step: PilotStep)
        ensures
            step == (PilotStep { moved: false, dive: 0 }),
    {
        PilotStep { moved: false, dive: 0 }
    }
}

} // verus!
