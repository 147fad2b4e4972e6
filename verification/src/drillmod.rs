//! The drill mod's two switches: the cage of light, and the sonar ping.
//!
//! Two switches because they are two different things, and both are free.
//! Neither changes anything the world can see: it is a lens, not a lever, so
//! it is on disk but never on the wire.
use vstd::prelude::*;

use crate::bytes::{
    lemma_u32_bytes_len, lemma_u32_round_trip, put_tag, put_u32, put_u8, read_u32, read_u8,
    stands_at, tag_at, u32_at, u32_bytes, u8_at,
};

verus! {

/// The four bytes `drillmod.dat` starts with.
pub const MAGIC: [u8; 4] = [0x56, 0x58, 0x44, 0x4d];

/// The layout this build writes.
pub const VERSION: u32 = 1;

/// Journal ticks between pings, so sweeping the trigger across a wall does
/// not machine-gun the scope.
pub const PING_REST: u64 = 3;

/// Where the player left the drill mod.
#[derive(Debug, Clone, Copy, PartialEq, Eq, Structural)]
pub struct Switches {
    /// Draw the cage on the block under the bit.
    pub cage: bool,
    /// Ping the ground around every new block the bit touches.
    pub ping: bool,
}

impl Default for Switches {
    /// Both on: a feature nobody can see is a feature nobody has.
    fn default() -> (switches: Switches)
        ensures
            switches == (Switches { cage: true, ping: true }),
    {
        Switches { cage: true, ping: true }
    }
}

/// What the terminal says a switch is.
pub open spec fn state_word(on: bool) -> Seq<char> {
    if on {
        "ON"@
    } else {
        "OFF"@
    }
}

impl Switches {
    /// Flip the cage, and say what happened.
    pub fn toggle_cage(&mut self) -> (said: &'static str)
        ensures
            final(self).cage == !old(self).cage,
            final(self).ping == old(self).ping,
            said@ == if final(self).cage {
                "DRILL HOLOGRAM ON"@
            } else {
                "DRILL HOLOGRAM OFF"@
            },
    {
        self.cage = !self.cage;
        if self.cage {
            "DRILL HOLOGRAM ON"
        } else {
            "DRILL HOLOGRAM OFF"
        }
    }

    /// Flip the ping, and say what happened.
    pub fn toggle_ping(&mut self) -> (said: &'static str)
        ensures
            final(self).ping == !old(self).ping,
            final(self).cage == old(self).cage,
            said@ == if final(self).ping {
                "DRILL SONAR ON"@
            } else {
                "DRILL SONAR OFF"@
            },
    {
        self.ping = !self.ping;
        if self.ping {
            "DRILL SONAR ON"
        } else {
            "DRILL SONAR OFF"
        }
    }

    /// Both switches, as the terminal reports them.
    pub fn lines(&self) -> (lines: Vec<String>)
        ensures
            lines@.len() == 2,
            lines@[0]@ == "HOLOGRAM "@ + state_word(self.cage) + " - H"@,
            lines@[1]@ == "SONAR "@ + state_word(self.ping) + " - P"@,
    {
        let mut hologram = "HOLOGRAM ".to_owned();
        hologram.append(if self.cage { "ON" } else { "OFF" });
        hologram.append(" - H");
        let mut sonar = "SONAR ".to_owned();
        sonar.append(if self.ping { "ON" } else { "OFF" });
        sonar.append(" - P");
        let mut lines: Vec<String> = Vec::new();
        lines.push(hologram);
        lines.push(sonar);
        lines
    }

    /// Write them the way `drillmod.dat` holds them.
    pub fn save(&self) -> (bytes: Vec<u8>)
        ensures
            bytes@ == switches_bytes(*self),
    {
        let mut out: Vec<u8> = Vec::new();
        put_tag(&mut out, &MAGIC);
        put_u32(&mut out, VERSION);
        put_u8(&mut out, if self.cage { 1 } else { 0 });
        put_u8(&mut out, if self.ping { 1 } else { 0 });
        out
    }

    /// Read them back, tolerating absence and damage: no file and an unknown
    /// version leave the switches where they are; a damaged file is the
    /// default, both on. The flag says the file was damaged, so the caller
    /// can say so.
    pub fn load(&mut self, file: Option<&[u8]>) -> (damaged: bool)
        ensures
            match file {
                None => !damaged && *final(self) == *old(self),
                Some(s) => match parse_switches(s@) {
                    None => damaged && *final(self) == (Switches { cage: true, ping: true }),
                    Some(None) => !damaged && *final(self) == *old(self),
                    Some(Some(read)) => !damaged && *final(self) == read,
                },
            },
    {
        match file {
            None => false,
            Some(s) => match read(s) {
                None => {
                    *self = Switches::default();
                    true
                },
                Some(None) => false,
                Some(Some(switches)) => {
                    *self = switches;
                    false
                },
            },
        }
    }
}

/// The whole of `drillmod.dat`.
pub open spec fn switches_bytes(switches: Switches) -> Seq<u8> {
    MAGIC@ + u32_bytes(VERSION) + seq![
        if switches.cage {
            1u8
        } else {
            0u8
        },
        if switches.ping {
            1u8
        } else {
            0u8
        },
    ]
}

/// What `drillmod.dat` says: `None` for a file that is not one or stops
/// early, `Some(None)` for a version this build does not know.
pub open spec fn parse_switches(s: Seq<u8>) -> Option<Option<Switches>> {
    if !stands_at(s, 0, MAGIC@) {
        None
    } else {
        match u32_at(s, 4) {
            None => None,
            Some((version, _)) => if version != VERSION {
                Some(None)
            } else {
                match (u8_at(s, 8), u8_at(s, 9)) {
                    (Some((cage, _)), Some((ping, _))) => Some(
                        Some(Switches { cage: cage != 0, ping: ping != 0 }),
                    ),
                    _ => None,
                }
            },
        }
    }
}

/// Read `drillmod.dat`.
pub fn read(s: &[u8]) -> (r: Option<Option<Switches>>)
    ensures
        r == parse_switches(s@),
{
    if !tag_at(s, 0, &MAGIC) {
        return None;
    }
    let version = match read_u32(s, 4) {
        Some((v, _)) => v,
        None => return None,
    };
    if version != VERSION {
        return Some(None);
    }
    let cage = match read_u8(s, 8) {
        Some((b, _)) => b,
        None => return None,
    };
    let ping = match read_u8(s, 9) {
        Some((b, _)) => b,
        None => return None,
    };
    Some(Some(Switches { cage: cage != 0, ping: ping != 0 }))
}

/// **Both switches survive a save.**
pub proof fn lemma_switches_round_trip(switches: Switches)
    ensures
        parse_switches(switches_bytes(switches)) == Some(Some(switches)),
{
    let s = switches_bytes(switches);
    lemma_u32_bytes_len(VERSION);
    assert(s.subrange(0, 4) =~= MAGIC@);
    assert(s.subrange(4, 8) =~= u32_bytes(VERSION));
    lemma_u32_round_trip(s, 4, VERSION);
}

} // verus!
