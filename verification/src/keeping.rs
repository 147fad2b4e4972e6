//! Keeping: how a save is proved to have been written whole.
//!
//! Each of the game's sidecar files is written atomically on its own, but a
//! save is the set of them together, and any prefix of a run of writes can
//! land. So a save ends by writing a manifest, last: a generation number and
//! the length and digest of every file the save actually produced, measured
//! off the disk. The manifest landing is the instant the save becomes true.
//! Reading it back against the disk says whether what is there is one whole
//! save, an old world that never had a manifest, or a torn one.
use vstd::prelude::*;
use vstd::utf8::*;

use crate::bytes::{
    lemma_stands_at_end, lemma_u32_bytes_len, lemma_u32_round_trip, lemma_u64_bytes_len,
    lemma_u64_round_trip, put_bytes, put_tag, put_u32, put_u64, read_bytes, read_u32, read_u64,
    stands_at, tag_at, u32_at, u32_bytes, u64_at, u64_bytes,
};
use crate::air::Fleet;
use crate::cargo::{good_row_at, good_row_bytes, lemma_good_row_round_trip, string_from_utf8};
use crate::fleet::{air_restored, fleet_at, file_view};
use crate::pile::{parse_pile_file, pile_restored};
use crate::stockpile::key;
use crate::text::{decimal, push_decimal, to_upper, uppercase};

verus! {

broadcast use {encode_utf8_decode_utf8, encode_utf8_valid_utf8};

/// Every sidecar file the live game persists, and the module that owns it.
pub const FILES: [(&'static str, &'static str); 36] = [
    ("log.dat", "journal"),
    ("explored.dat", "map"),
    ("player.dat", "skills"),
    ("wallet.dat", "wallet"),
    ("clock.dat", "clock"),
    ("economy.dat", "economy"),
    ("garage.dat", "garage"),
    ("postings.dat", "beacon"),
    ("homestead.dat", "homestead"),
    ("permits.dat", "permits"),
    ("whereabouts.dat", "whereabouts"),
    ("pile.dat", "pile"),
    ("fleet.dat", "fleet"),
    ("dig.dat", "dig"),
    ("fuel.dat", "fuel"),
    ("wear.dat", "wear"),
    ("wells.dat", "well"),
    ("marks.dat", "scout"),
    ("dose.dat", "dose"),
    ("drillmod.dat", "drillmod"),
    ("garrisons.dat", "garrison"),
    ("pumps.dat", "pumps"),
    ("arsenal.dat", "arsenal"),
    ("intrusion.dat", "intrusion"),
    ("printer.dat", "printer"),
    ("optics.dat", "optics"),
    ("electrolyser.dat", "electrolysis"),
    ("arcade.dat", "arcade"),
    ("health.dat", "health"),
    ("stands.dat", "succession"),
    ("warrants.dat", "warrant"),
    ("elections.dat", "ballot"),
    ("charters.dat", "charter"),
    ("reputation.dat", "reputation"),
    ("vaults.dat", "bank"),
    ("friends.dat", "disposition"),
];

/// The manifest's own file name.
pub const MANIFEST: &'static str = "manifest.dat";

/// What the manifest starts with.
pub const MANIFEST_MAGIC: [u8; 4] = [0x56, 0x58, 0x4b, 0x50];

/// The layout the manifest is written in.
pub const MANIFEST_VERSION: u32 = 1;

/// The longest file name a manifest may carry, in bytes.
pub const MAX_NAME: u32 = 64;

/// What one save actually did: returned rather than logged, because a save
/// that failed is the one thing the player most needs told.
#[derive(Debug)]
pub struct Kept {
    pub generation: u64,
    pub chunks: usize,
    pub took: std::time::Duration,
    /// What did not go. Empty is the only good answer.
    pub failed: Vec<&'static str>,
    /// There is no save directory at all: this session cannot write anything.
    pub impossible: bool,
}

impl Kept {
    /// Whether everything went.
    pub fn went_well(&self) -> (ok: bool)
        ensures
            ok == (!self.impossible && self.failed@.len() == 0),
    {
        !self.impossible && self.failed.len() == 0
    }

    /// One line for the player, or nothing when there is nothing to say:
    /// success is quiet on the failure channel.
    pub fn complaint(&self) -> (line: Option<String>)
        ensures
            self.impossible ==> (line matches Some(s) && s@
                == "THIS WORLD CANNOT BE SAVED. CHECK THE SAVE FOLDER"@),
            !self.impossible && self.failed@.len() == 0 ==> line is None,
            !self.impossible && self.failed@.len() == 1 ==> (line matches Some(s) && s@
                == "SAVE FAILED: "@ + uppercase(self.failed@[0]@)),
            !self.impossible && self.failed@.len() > 1 ==> (line matches Some(s) && s@
                == "SAVE FAILED: "@ + decimal(self.failed@.len()) + " PARTS DID NOT GO"@),
    {
        if !self.impossible && self.failed.len() == 1 {
            let upper = to_upper(self.failed[0]);
            self.complaint_naming(upper.as_str())
        } else {
            self.complaint_naming("")
        }
    }

    /// The line for the player, given the name of the part that failed
    /// already in capitals: it is used only when exactly one part failed.
    pub fn complaint_naming(&self, upper: &str) -> (line: Option<String>)
        ensures
            self.impossible ==> (line matches Some(s) && s@
                == "THIS WORLD CANNOT BE SAVED. CHECK THE SAVE FOLDER"@),
            !self.impossible && self.failed@.len() == 0 ==> line is None,
            !self.impossible && self.failed@.len() == 1 ==> (line matches Some(s) && s@ == "SAVE FAILED: "@
                + upper@),
            !self.impossible && self.failed@.len() > 1 ==> (line matches Some(s) && s@
                == "SAVE FAILED: "@ + decimal(self.failed@.len()) + " PARTS DID NOT GO"@),
    {
        if self.impossible {
            return Some("THIS WORLD CANNOT BE SAVED. CHECK THE SAVE FOLDER".to_owned());
        }
        let many = self.failed.len();
        if many == 0 {
            None
        } else if many == 1 {
            let mut line = "SAVE FAILED: ".to_owned();
            line.append(upper);
            Some(line)
        } else {
            let mut line = "SAVE FAILED: ".to_owned();
            push_decimal(&mut line, many as u64);
            line.append(" PARTS DID NOT GO");
            Some(line)
        }
    }
}

/// The kinds of order the journal records.
#[derive(Debug, Clone, Copy, PartialEq, Eq, Structural)]
pub enum CommandKind {
    Bank,
    Print,
    Electrolyse,
    Repair,
    Spud,
    Gift,
    Salvage,
    Dispatch,
    Found,
    Take,
    Stand,
    Break,
    Place,
    Cancel,
    Move,
    Advance,
    Fire,
    Fell,
    Pump,
    Scout,
    Intrude,
    Talk,
    Wheel,
    Pilot,
    Admin,
}

/// The orders worth saving the world for at once: money, goods and machines,
/// a crew sent out, and the civic acts that only happen once.
pub open spec fn urgent(command: CommandKind) -> bool {
    match command {
        CommandKind::Bank | CommandKind::Print | CommandKind::Electrolyse | CommandKind::Repair
        | CommandKind::Spud | CommandKind::Gift | CommandKind::Salvage => true,
        CommandKind::Dispatch | CommandKind::Found | CommandKind::Take | CommandKind::Stand => true,
        _ => false,
    }
}

/// Orders that move money, goods or machines: the things a player would be
/// sick about losing.
pub open spec fn moves_money_goods_or_machines(command: CommandKind) -> bool {
    command == CommandKind::Bank || command == CommandKind::Print || command == CommandKind::Electrolyse
        || command == CommandKind::Repair || command == CommandKind::Spud || command == CommandKind::Gift
        || command == CommandKind::Salvage
}

/// Orders that send a crew out, or are civic acts that happen once.
pub open spec fn sends_a_crew_or_happens_once(command: CommandKind) -> bool {
    command == CommandKind::Dispatch || command == CommandKind::Found || command == CommandKind::Take
        || command == CommandKind::Stand
}

/// **Money, goods, machines, crews and one-off civic acts save at once;
/// nothing else does.** An order is urgent exactly when it moves money,
/// goods or machines, sends a crew out or is a civic act that happens once;
/// everything done by the thousand is left to the clock.
pub proof fn lemma_what_saves_at_once(command: CommandKind)
    ensures
        urgent(command) <==> moves_money_goods_or_machines(command) || sends_a_crew_or_happens_once(command),
        moves_money_goods_or_machines(CommandKind::Bank),
        sends_a_crew_or_happens_once(CommandKind::Dispatch),
        !urgent(CommandKind::Break) && !urgent(CommandKind::Move) && !urgent(CommandKind::Place),
{
}

/// Whether an order is worth saving the world for, right now: yes for
/// anything you would resent doing twice, no for anything that happens
/// thousands of times, which the clock covers.
pub fn worth_saving_now(command: &CommandKind) -> (now: bool)
    ensures
        now == urgent(*command),
{
    match command {
        CommandKind::Bank | CommandKind::Print | CommandKind::Electrolyse | CommandKind::Repair
        | CommandKind::Spud | CommandKind::Gift | CommandKind::Salvage => true,
        CommandKind::Dispatch | CommandKind::Found | CommandKind::Take | CommandKind::Stand => true,
        CommandKind::Break | CommandKind::Place | CommandKind::Cancel | CommandKind::Move
        | CommandKind::Advance | CommandKind::Fire | CommandKind::Fell | CommandKind::Pump
        | CommandKind::Scout | CommandKind::Intrude | CommandKind::Talk | CommandKind::Wheel
        | CommandKind::Pilot | CommandKind::Admin => false,
    }
}

/// Where FNV-1a starts.
pub const FNV_OFFSET: u64 = 0xcbf2_9ce4_8422_2325;

/// What FNV-1a multiplies by.
pub const FNV_PRIME: u64 = 0x1000_0000_01b3;

/// FNV-1a over some bytes: each byte folded in with an exclusive or, then a
/// multiplication that wraps.
pub open spec fn fnv(bytes: Seq<u8>) -> u64
    decreases bytes.len(),
{
    if bytes.len() == 0 {
        FNV_OFFSET
    } else {
        vstd::wrapping::u64_specs::wrapping_mul(fnv(bytes.drop_last()) ^ (bytes.last() as u64), FNV_PRIME)
    }
}

/// A hash that only has to notice damage: the length catches a truncation,
/// the digest the rarer case of a block landing wrong.
pub fn digest(bytes: &[u8]) -> (hash: u64)
    ensures
        hash == fnv(bytes@),
{
    let mut hash: u64 = FNV_OFFSET;
    let mut i: usize = 0;
    while i < bytes.len()
        invariant
            i <= bytes.len(),
            hash == fnv(bytes@.subrange(0, i as int)),
        decreases bytes.len() - i,
    {
        proof {
            assert(bytes@.subrange(0, i + 1).drop_last() =~= bytes@.subrange(0, i as int));
        }
        hash = hash ^ (bytes[i] as u64);
        hash = hash.wrapping_mul(FNV_PRIME);
        i = i + 1;
    }
    proof {
        assert(bytes@.subrange(0, i as int) =~= bytes@);
    }
    hash
}

/// A file as the manifest saw it.
#[derive(Debug, Clone, PartialEq, Eq)]
pub struct Written {
    pub name: String,
    pub len: u64,
    pub digest: u64,
}

/// A file's name, length and digest.
pub open spec fn written_view(w: Written) -> (Seq<char>, u64, u64) {
    (w.name@, w.len, w.digest)
}

/// What a file with these contents looks like to the manifest.
pub open spec fn shape(name: Seq<char>, bytes: Seq<u8>) -> (Seq<char>, u64, u64) {
    (name, bytes.len() as u64, fnv(bytes))
}

/// The shape of a file with these contents.
pub fn shape_of(name: &str, bytes: &[u8]) -> (w: Written)
    requires
        bytes@.len() <= u64::MAX,
    ensures
        written_view(w) == shape(name@, bytes@),
{
    Written { name: name.to_owned(), len: bytes.len() as u64, digest: digest(bytes) }
}

/// What a completed save left behind: a generation number and the shape of
/// every file in it.
#[derive(Debug, Clone, PartialEq, Eq)]
pub struct Manifest {
    pub generation: u64,
    pub files: Vec<Written>,
}

impl Manifest {
    /// The shapes of its files, in order.
    pub open spec fn entries(&self) -> Seq<(Seq<char>, u64, u64)> {
        self.files@.map_values(|w: Written| written_view(w))
    }
}

impl Default for Manifest {
    fn default() -> (m: Manifest)
        ensures
            m.generation == 0,
            m.files@.len() == 0,
    {
        Manifest { generation: 0, files: Vec::new() }
    }
}

/// The shapes a save produced, in the order of [`FILES`]: one for each file
/// that was there.
pub open spec fn sealed_entries(found: Seq<Option<Vec<u8>>>) -> Seq<(Seq<char>, u64, u64)>
    decreases found.len(),
{
    if found.len() == 0 {
        Seq::empty()
    } else {
        let before = sealed_entries(found.drop_last());
        match found.last() {
            Some(bytes) => before.push(shape(FILES@[found.len() - 1].0@, bytes@)),
            None => before,
        }
    }
}

/// Stamp a completed save from what it actually produced: `found` holds, for
/// each of [`FILES`] in order, the bytes on the disk or nothing for a file
/// that is not there.
pub fn seal(generation: u64, found: &[Option<Vec<u8>>]) -> (m: Manifest)
    requires
        found@.len() == FILES@.len(),
        forall|i: int| 0 <= i < found@.len() ==> (#[trigger] found@[i] matches Some(b) ==> b@.len() <= u64::MAX),
    ensures
        m.generation == generation,
        m.entries() == sealed_entries(found@),
{
    let mut files: Vec<Written> = Vec::new();
    let mut i: usize = 0;
    while i < found.len()
        invariant
            i <= found@.len(),
            found@.len() == FILES@.len(),
            forall|k: int| 0 <= k < found@.len() ==> (#[trigger] found@[k] matches Some(b) ==> b@.len() <= u64::MAX),
            files@.map_values(|w: Written| written_view(w)) == sealed_entries(found@.subrange(0, i as int)),
        decreases found@.len() - i,
    {
        let ghost was = files@;
        proof {
            assert(found@.subrange(0, i + 1).drop_last() =~= found@.subrange(0, i as int));
        }
        match &found[i] {
            Some(bytes) => {
                let w = shape_of(FILES[i].0, bytes.as_slice());
                files.push(w);
                proof {
                    assert(files@.map_values(|w: Written| written_view(w)) =~= was.map_values(
                        |w: Written| written_view(w),
                    ).push(written_view(w)));
                }
            },
            None => {},
        }
        i = i + 1;
    }
    proof {
        assert(found@.subrange(0, i as int) =~= found@);
    }
    Manifest { generation, files }
}

/// One manifest row: the file's name as a goods row would carry it, its
/// length in place of a count, then its digest.
pub open spec fn entry_bytes(e: (Seq<char>, u64, u64)) -> Seq<u8> {
    good_row_bytes((e.0, e.1)) + u64_bytes(e.2)
}

/// Manifest rows, one after another.
pub open spec fn entries_bytes(es: Seq<(Seq<char>, u64, u64)>) -> Seq<u8>
    decreases es.len(),
{
    if es.len() == 0 {
        Seq::empty()
    } else {
        entries_bytes(es.drop_last()) + entry_bytes(es.last())
    }
}

/// The whole manifest file.
pub open spec fn manifest_bytes(generation: u64, es: Seq<(Seq<char>, u64, u64)>) -> Seq<u8> {
    MANIFEST_MAGIC@ + u32_bytes(MANIFEST_VERSION) + u64_bytes(generation) + u32_bytes(es.len() as u32)
        + entries_bytes(es)
}

/// The manifest row at `at`, with the position after it.
pub open spec fn entry_at(s: Seq<u8>, at: int) -> Option<((Seq<char>, u64, u64), int)> {
    match good_row_at(s, at, MAX_NAME) {
        Some(((name, len), next)) => match u64_at(s, next) {
            Some((d, after)) => Some(((name, len, d), after)),
            None => None,
        },
        None => None,
    }
}

/// The `n` manifest rows from `at`, with the position after them.
pub open spec fn entries_at(s: Seq<u8>, at: int, n: nat) -> Option<(Seq<(Seq<char>, u64, u64)>, int)>
    decreases n,
{
    if n == 0 {
        Some((Seq::empty(), at))
    } else {
        match entries_at(s, at, (n - 1) as nat) {
            Some((es, next)) => match entry_at(s, next) {
                Some((e, after)) => Some((es.push(e), after)),
                None => None,
            },
            None => None,
        }
    }
}

/// What a manifest file says: `None` for one that is damaged (not a
/// manifest, stopping early, naming more files than exist, or carrying a name
/// that is too long or not text); `Some(None)` for one of another version,
/// which this build does not understand; otherwise its generation and rows.
pub open spec fn manifest_at(s: Seq<u8>) -> Option<Option<(u64, Seq<(Seq<char>, u64, u64)>)>> {
    if !stands_at(s, 0, MANIFEST_MAGIC@) {
        None
    } else {
        match u32_at(s, 4) {
            None => None,
            Some((v, _)) => if v != MANIFEST_VERSION {
                Some(None)
            } else {
                match (u64_at(s, 8), u32_at(s, 16)) {
                    (Some((g, _)), Some((n, _))) => if n > FILES@.len() {
                        None
                    } else {
                        match entries_at(s, 20, n as nat) {
                            Some((es, _)) => Some(Some((g, es))),
                            None => None,
                        }
                    },
                    _ => None,
                }
            },
        }
    }
}

/// A row that will not read spoils every longer run of rows.
proof fn lemma_entries_stop(s: Seq<u8>, at: int, i: nat, n: nat)
    requires
        i < n,
        entries_at(s, at, (i + 1) as nat) is None,
    ensures
        entries_at(s, at, n) is None,
    decreases n - i,
{
    if n > i + 1 {
        lemma_entries_stop(s, at, i, (n - 1) as nat);
    }
}

/// Names that fit in a manifest row.
pub open spec fn names_fit(es: Seq<(Seq<char>, u64, u64)>) -> bool {
    forall|i: int| 0 <= i < es.len() ==> #[trigger] key(es[i].0).len() <= MAX_NAME
}

proof fn lemma_entries_round_trip(s: Seq<u8>, at: int, es: Seq<(Seq<char>, u64, u64)>)
    requires
        stands_at(s, at, entries_bytes(es)),
        names_fit(es),
    ensures
        entries_at(s, at, es.len()) == Some((es, at + entries_bytes(es).len())),
    decreases es.len(),
{
    if es.len() > 0 {
        let front = es.drop_last();
        let e = es.last();
        let fb = entries_bytes(front);
        let eb = entry_bytes(e);
        let rb = good_row_bytes((e.0, e.1));
        let whole = entries_bytes(es);
        assert(whole == fb + eb);
        assert(whole.subrange(0, fb.len() as int) =~= fb);
        assert(s.subrange(at, at + fb.len()) =~= s.subrange(at, at + whole.len()).subrange(
            0,
            fb.len() as int,
        ));
        assert forall|i: int| 0 <= i < front.len() implies #[trigger] key(front[i].0).len()
            <= MAX_NAME by {
            assert(front[i] == es[i]);
        }
        lemma_entries_round_trip(s, at, front);
        let fl: int = fb.len() as int;
        let rl: int = rb.len() as int;
        let p = at + fl;
        assert(es[es.len() - 1] == e);
        lemma_u64_bytes_len(e.2);
        assert(s.subrange(p, p + rl) =~= whole.subrange(fl, fl + rl));
        assert(whole.subrange(fl, fl + rl) =~= rb);
        lemma_good_row_round_trip(s, p, (e.0, e.1), MAX_NAME);
        assert(s.subrange(p + rl, p + rl + 8) =~= whole.subrange(fl + rl, fl + rl + 8));
        assert(whole.subrange(fl + rl, fl + rl + 8) =~= u64_bytes(e.2));
        lemma_u64_round_trip(s, p + rl, e.2);
        assert(front.push(e) =~= es);
    }
}

/// **A manifest reads back as what was written**: the same generation and
/// the same rows, for any manifest of no more files than there are, each
/// name short enough to be one.
pub proof fn lemma_manifest_round_trip(generation: u64, es: Seq<(Seq<char>, u64, u64)>)
    requires
        es.len() <= FILES@.len(),
        names_fit(es),
    ensures
        manifest_at(manifest_bytes(generation, es)) == Some(Some((generation, es))),
{
    let s = manifest_bytes(generation, es);
    lemma_u32_bytes_len(MANIFEST_VERSION);
    lemma_u64_bytes_len(generation);
    lemma_u32_bytes_len(es.len() as u32);
    let head = MANIFEST_MAGIC@ + u32_bytes(MANIFEST_VERSION) + u64_bytes(generation) + u32_bytes(
        es.len() as u32,
    );
    assert(s == head + entries_bytes(es));
    assert(s.subrange(0, 4) =~= MANIFEST_MAGIC@);
    assert(s.subrange(4, 8) =~= u32_bytes(MANIFEST_VERSION));
    assert(s.subrange(8, 16) =~= u64_bytes(generation));
    assert(s.subrange(16, 20) =~= u32_bytes(es.len() as u32));
    lemma_u32_round_trip(s, 4, MANIFEST_VERSION);
    lemma_u64_round_trip(s, 8, generation);
    lemma_u32_round_trip(s, 16, es.len() as u32);
    lemma_stands_at_end(head, entries_bytes(es));
    lemma_entries_round_trip(s, 20, es);
}

/// Every file the game keeps has a name short enough for a manifest row.
pub proof fn lemma_file_names_fit()
    ensures
        forall|i: int| 0 <= i < FILES@.len() ==> #[trigger] key(FILES@[i].0@).len() <= MAX_NAME,
{
    reveal_strlit("log.dat");
    reveal_strlit("explored.dat");
    reveal_strlit("player.dat");
    reveal_strlit("wallet.dat");
    reveal_strlit("clock.dat");
    reveal_strlit("economy.dat");
    reveal_strlit("garage.dat");
    reveal_strlit("postings.dat");
    reveal_strlit("homestead.dat");
    reveal_strlit("permits.dat");
    reveal_strlit("whereabouts.dat");
    reveal_strlit("pile.dat");
    reveal_strlit("fleet.dat");
    reveal_strlit("dig.dat");
    reveal_strlit("fuel.dat");
    reveal_strlit("wear.dat");
    reveal_strlit("wells.dat");
    reveal_strlit("marks.dat");
    reveal_strlit("dose.dat");
    reveal_strlit("drillmod.dat");
    reveal_strlit("garrisons.dat");
    reveal_strlit("pumps.dat");
    reveal_strlit("arsenal.dat");
    reveal_strlit("intrusion.dat");
    reveal_strlit("printer.dat");
    reveal_strlit("optics.dat");
    reveal_strlit("electrolyser.dat");
    reveal_strlit("arcade.dat");
    reveal_strlit("health.dat");
    reveal_strlit("stands.dat");
    reveal_strlit("warrants.dat");
    reveal_strlit("elections.dat");
    reveal_strlit("charters.dat");
    reveal_strlit("reputation.dat");
    reveal_strlit("vaults.dat");
    reveal_strlit("friends.dat");
    is_ascii_chars_encode_utf8(FILES@[0].0@);
    is_ascii_chars_encode_utf8(FILES@[1].0@);
    is_ascii_chars_encode_utf8(FILES@[2].0@);
    is_ascii_chars_encode_utf8(FILES@[3].0@);
    is_ascii_chars_encode_utf8(FILES@[4].0@);
    is_ascii_chars_encode_utf8(FILES@[5].0@);
    is_ascii_chars_encode_utf8(FILES@[6].0@);
    is_ascii_chars_encode_utf8(FILES@[7].0@);
    is_ascii_chars_encode_utf8(FILES@[8].0@);
    is_ascii_chars_encode_utf8(FILES@[9].0@);
    is_ascii_chars_encode_utf8(FILES@[10].0@);
    is_ascii_chars_encode_utf8(FILES@[11].0@);
    is_ascii_chars_encode_utf8(FILES@[12].0@);
    is_ascii_chars_encode_utf8(FILES@[13].0@);
    is_ascii_chars_encode_utf8(FILES@[14].0@);
    is_ascii_chars_encode_utf8(FILES@[15].0@);
    is_ascii_chars_encode_utf8(FILES@[16].0@);
    is_ascii_chars_encode_utf8(FILES@[17].0@);
    is_ascii_chars_encode_utf8(FILES@[18].0@);
    is_ascii_chars_encode_utf8(FILES@[19].0@);
    is_ascii_chars_encode_utf8(FILES@[20].0@);
    is_ascii_chars_encode_utf8(FILES@[21].0@);
    is_ascii_chars_encode_utf8(FILES@[22].0@);
    is_ascii_chars_encode_utf8(FILES@[23].0@);
    is_ascii_chars_encode_utf8(FILES@[24].0@);
    is_ascii_chars_encode_utf8(FILES@[25].0@);
    is_ascii_chars_encode_utf8(FILES@[26].0@);
    is_ascii_chars_encode_utf8(FILES@[27].0@);
    is_ascii_chars_encode_utf8(FILES@[28].0@);
    is_ascii_chars_encode_utf8(FILES@[29].0@);
    is_ascii_chars_encode_utf8(FILES@[30].0@);
    is_ascii_chars_encode_utf8(FILES@[31].0@);
    is_ascii_chars_encode_utf8(FILES@[32].0@);
    is_ascii_chars_encode_utf8(FILES@[33].0@);
    is_ascii_chars_encode_utf8(FILES@[34].0@);
    is_ascii_chars_encode_utf8(FILES@[35].0@);
}

impl Manifest {
    /// Write the manifest the way the manifest file holds it.
    pub fn encode(&self) -> (bytes: Vec<u8>)
        requires
            self.files@.len() <= u32::MAX,
            forall|i: int| 0 <= i < self.files@.len() ==> #[trigger] key(self.files@[i].name@).len() <= u32::MAX,
        ensures
            bytes@ == manifest_bytes(self.generation, self.entries()),
    {
        let mut out: Vec<u8> = Vec::new();
        put_tag(&mut out, &MANIFEST_MAGIC);
        put_u32(&mut out, MANIFEST_VERSION);
        put_u64(&mut out, self.generation);
        put_u32(&mut out, self.files.len() as u32);
        let ghost head = out@;
        let ghost es = self.entries();
        let mut i: usize = 0;
        while i < self.files.len()
            invariant
                0 <= i <= self.files@.len(),
                es == self.entries(),
                forall|k: int| 0 <= k < self.files@.len() ==> #[trigger] key(self.files@[k].name@).len() <= u32::MAX,
                out@ == head + entries_bytes(es.take(i as int)),
            decreases self.files@.len() - i,
        {
            let w = &self.files[i];
            let name = w.name.as_str().as_bytes();
            proof {
                assert(es[i as int] == written_view(self.files@[i as int]));
                assert(es.take(i + 1).drop_last() =~= es.take(i as int));
                assert(es.take(i + 1).last() == es[i as int]);
            }
            put_u32(&mut out, name.len() as u32);
            put_bytes(&mut out, name);
            put_u64(&mut out, w.len);
            put_u64(&mut out, w.digest);
            i = i + 1;
            assert(out@ =~= head + entries_bytes(es.take(i as int)));
        }
        assert(es.take(i as int) =~= es);
        out
    }
}

/// Read a manifest file: `None` for one that is damaged, `Some(None)` for one
/// of another version, otherwise the manifest it holds.
pub fn read_manifest(s: &[u8]) -> (r: Option<Option<Manifest>>)
    ensures
        r is None <==> manifest_at(s@) is None,
        r == Some(None::<Manifest>) <==> manifest_at(s@) == Some(None::<(u64, Seq<(Seq<char>, u64, u64)>)>),
        r matches Some(Some(m)) ==> manifest_at(s@) == Some(Some((m.generation, m.entries()))),
{
    if !tag_at(s, 0, &MANIFEST_MAGIC) {
        return None;
    }
    match read_u32(s, 4) {
        Some((v, _)) => if v != MANIFEST_VERSION {
            return Some(None);
        },
        None => return None,
    }
    let generation = match read_u64(s, 8) {
        Some((g, _)) => g,
        None => return None,
    };
    let n = match read_u32(s, 16) {
        Some((n, _)) => n,
        None => return None,
    };
    if n as usize > FILES.len() {
        return None;
    }
    let mut files: Vec<Written> = Vec::new();
    let mut pos: usize = 20;
    let mut i: u32 = 0;
    while i < n
        invariant
            0 <= i <= n,
            n <= FILES@.len(),
            stands_at(s@, 0, MANIFEST_MAGIC@),
            u32_at(s@, 4) == Some((MANIFEST_VERSION, 8int)),
            u64_at(s@, 8) == Some((generation, 16int)),
            u32_at(s@, 16) == Some((n, 20int)),
            entries_at(s@, 20, i as nat) == Some((files@.map_values(|w: Written| written_view(w)), pos as int)),
        decreases n - i,
    {
        let length = match read_u32(s, pos) {
            Some((length, _)) => {
                if length > MAX_NAME {
                    proof {
                        lemma_entries_stop(s@, 20, i as nat, n as nat);
                    }
                    return None;
                }
                length
            },
            None => {
                proof {
                    lemma_entries_stop(s@, 20, i as nat, n as nat);
                }
                return None;
            },
        };
        let (name_bytes, after_name) = match read_bytes(s, pos + 4, length as usize) {
            Some(x) => x,
            None => {
                proof {
                    lemma_entries_stop(s@, 20, i as nat, n as nat);
                }
                return None;
            },
        };
        let name = match string_from_utf8(name_bytes) {
            Some(t) => t,
            None => {
                proof {
                    lemma_entries_stop(s@, 20, i as nat, n as nat);
                }
                return None;
            },
        };
        let (len, after_len) = match read_u64(s, after_name) {
            Some(x) => x,
            None => {
                proof {
                    lemma_entries_stop(s@, 20, i as nat, n as nat);
                }
                return None;
            },
        };
        let (stamp, next) = match read_u64(s, after_len) {
            Some(x) => x,
            None => {
                proof {
                    lemma_entries_stop(s@, 20, i as nat, n as nat);
                }
                return None;
            },
        };
        let w = Written { name, len, digest: stamp };
        let ghost was = files@;
        files.push(w);
        proof {
            assert(entry_at(s@, pos as int) == Some((written_view(w), next as int)));
            assert(files@.map_values(|w: Written| written_view(w)) =~= was.map_values(
                |w: Written| written_view(w),
            ).push(written_view(w)));
        }
        pos = next;
        i = i + 1;
    }
    Some(Some(Manifest { generation, files }))
}

/// What the loader made of a save directory.
#[derive(Debug, Clone, PartialEq, Eq)]
pub enum Verdict {
    /// No manifest: a fresh world or one written before manifests, which is
    /// old rather than broken and loads as it always did.
    Unstamped,
    /// The manifest agrees with the disk.
    Whole { generation: u64 },
    /// It does not, and this is what the rollback is for.
    Torn { generation: u64, disagreed: Vec<String> },
}

/// A verdict as a value: its kind, its generation, and the names of the
/// files that disagreed.
pub enum Judgement {
    Unstamped,
    Whole(u64),
    Torn(u64, Seq<Seq<char>>),
}

impl View for Verdict {
    type V = Judgement;

    open spec fn view(&self) -> Judgement {
        match self {
            Verdict::Unstamped => Judgement::Unstamped,
            Verdict::Whole { generation } => Judgement::Whole(*generation),
            Verdict::Torn { generation, disagreed } => Judgement::Torn(
                *generation,
                disagreed@.map_values(|n: String| n@),
            ),
        }
    }
}

/// The manifest file as the disk gave it up.
#[derive(Debug)]
pub enum ManifestFile {
    /// There is none.
    Absent,
    /// There is one, and it could not be read.
    Unreadable,
    /// Its bytes.
    Bytes(Vec<u8>),
}

/// What the disk holds, by file name.
pub open spec fn disk_view(disk: Seq<(String, Vec<u8>)>) -> Seq<(Seq<char>, Seq<u8>)> {
    disk.map_values(|d: (String, Vec<u8>)| (d.0@, d.1@))
}

/// The contents of the file called `name`, by the first entry that names it.
pub open spec fn on_disk(disk: Seq<(Seq<char>, Seq<u8>)>, name: Seq<char>) -> Option<Seq<u8>>
    decreases disk.len(),
{
    if disk.len() == 0 {
        None
    } else {
        match on_disk(disk.drop_last(), name) {
            Some(b) => Some(b),
            None => if disk.last().0 == name {
                Some(disk.last().1)
            } else {
                None
            },
        }
    }
}

/// Whether the disk still holds the file as the manifest saw it.
pub open spec fn agrees(disk: Seq<(Seq<char>, Seq<u8>)>, e: (Seq<char>, u64, u64)) -> bool {
    on_disk(disk, e.0) matches Some(b) && shape(e.0, b) == e
}

/// The names of the manifest's files that the disk no longer holds as the
/// manifest saw them, in manifest order.
pub open spec fn disagreeing(es: Seq<(Seq<char>, u64, u64)>, disk: Seq<(Seq<char>, Seq<u8>)>) -> Seq<Seq<char>>
    decreases es.len(),
{
    if es.len() == 0 {
        Seq::empty()
    } else {
        let before = disagreeing(es.drop_last(), disk);
        if agrees(disk, es.last()) {
            before
        } else {
            before.push(es.last().0)
        }
    }
}

/// What a readable manifest says of the disk.
pub open spec fn judged(generation: u64, es: Seq<(Seq<char>, u64, u64)>, disk: Seq<(Seq<char>, Seq<u8>)>) -> Judgement {
    if disagreeing(es, disk).len() == 0 {
        Judgement::Whole(generation)
    } else {
        Judgement::Torn(generation, disagreeing(es, disk))
    }
}

/// The verdict on a save directory: no manifest, or one of another version,
/// is an old world; a manifest that cannot be read is a torn save naming
/// itself; otherwise the save is whole exactly when every file it names is on
/// the disk as it saw it.
pub open spec fn verdict_of(file: ManifestFile, disk: Seq<(Seq<char>, Seq<u8>)>) -> Judgement {
    match file {
        ManifestFile::Absent => Judgement::Unstamped,
        ManifestFile::Unreadable => Judgement::Torn(0, seq![MANIFEST@]),
        ManifestFile::Bytes(b) => match manifest_at(b@) {
            None => Judgement::Torn(0, seq![MANIFEST@]),
            Some(None) => Judgement::Unstamped,
            Some(Some((g, es))) => judged(g, es, disk),
        },
    }
}

/// The contents of the file called `name` in what the disk holds.
fn find_on_disk<'a>(disk: &'a [(String, Vec<u8>)], name: &String) -> (b: Option<&'a Vec<u8>>)
    ensures
        match b {
            Some(v) => on_disk(disk_view(disk@), name@) == Some(v@),
            None => on_disk(disk_view(disk@), name@) is None,
        },
{
    let ghost view = disk_view(disk@);
    let mut i: usize = 0;
    while i < disk.len()
        invariant
            i <= disk.len(),
            view == disk_view(disk@),
            view.len() == disk@.len(),
            on_disk(view.subrange(0, i as int), name@) is None,
        decreases disk.len() - i,
    {
        proof {
            assert(view.subrange(0, i + 1).drop_last() =~= view.subrange(0, i as int));
            assert(view[i as int] == (disk@[i as int].0@, disk@[i as int].1@));
        }
        if disk[i].0 == *name {
            proof {
                lemma_on_disk_prefix(view, i as int + 1, name@);
            }
            return Some(&disk[i].1);
        }
        i = i + 1;
    }
    proof {
        assert(view.subrange(0, i as int) =~= view);
    }
    None
}

/// A name found in a prefix of the disk is found there in the whole of it.
proof fn lemma_on_disk_prefix(disk: Seq<(Seq<char>, Seq<u8>)>, n: int, name: Seq<char>)
    requires
        0 <= n <= disk.len(),
        on_disk(disk.subrange(0, n), name) is Some,
    ensures
        on_disk(disk, name) == on_disk(disk.subrange(0, n), name),
    decreases disk.len() - n,
{
    if n < disk.len() {
        assert(disk.subrange(0, n + 1).drop_last() =~= disk.subrange(0, n));
        lemma_on_disk_prefix(disk, n + 1, name);
    } else {
        assert(disk.subrange(0, n) =~= disk);
    }
}

/// Read the manifest and compare it against what is on the disk.
pub fn inspect(manifest: &ManifestFile, disk: &[(String, Vec<u8>)]) -> (v: Verdict)
    ensures
        v@ == verdict_of(*manifest, disk_view(disk@)),
{
    let bytes = match manifest {
        ManifestFile::Absent => return Verdict::Unstamped,
        ManifestFile::Unreadable => {
            let torn = Verdict::Torn { generation: 0, disagreed: vec![MANIFEST.to_owned()] };
            assert(torn@ == Judgement::Torn(0, seq![MANIFEST@])) by {
                if let Verdict::Torn { disagreed, .. } = torn {
                    assert(disagreed@.map_values(|n: String| n@) =~= seq![MANIFEST@]);
                }
            }
            return torn;
        },
        ManifestFile::Bytes(b) => b,
    };
    let m = match read_manifest(bytes.as_slice()) {
        None => {
            let torn = Verdict::Torn { generation: 0, disagreed: vec![MANIFEST.to_owned()] };
            assert(torn@ == Judgement::Torn(0, seq![MANIFEST@])) by {
                if let Verdict::Torn { disagreed, .. } = torn {
                    assert(disagreed@.map_values(|n: String| n@) =~= seq![MANIFEST@]);
                }
            }
            return torn;
        },
        Some(None) => return Verdict::Unstamped,
        Some(Some(m)) => m,
    };
    let ghost es = m.entries();
    let ghost dv = disk_view(disk@);
    let mut disagreed: Vec<String> = Vec::new();
    let mut i: usize = 0;
    while i < m.files.len()
        invariant
            i <= m.files@.len(),
            es == m.entries(),
            dv == disk_view(disk@),
            disagreed@.map_values(|n: String| n@) == disagreeing(es.take(i as int), dv),
        decreases m.files@.len() - i,
    {
        let w = &m.files[i];
        proof {
            assert(es[i as int] == written_view(m.files@[i as int]));
            assert(es.take(i + 1).drop_last() =~= es.take(i as int));
            assert(es.take(i + 1).last() == es[i as int]);
        }
        let same = match find_on_disk(disk, &w.name) {
            Some(b) => b.len() as u64 == w.len && digest(b.as_slice()) == w.digest,
            None => false,
        };
        let ghost was = disagreed@;
        if !same {
            disagreed.push(w.name.clone());
            proof {
                assert(disagreed@.map_values(|n: String| n@) =~= was.map_values(|n: String| n@).push(w.name@));
            }
        }
        i = i + 1;
    }
    proof {
        assert(es.take(i as int) =~= es);
    }
    if disagreed.len() == 0 {
        Verdict::Whole { generation: m.generation }
    } else {
        Verdict::Torn { generation: m.generation, disagreed }
    }
}

/// A save is whole exactly when every file its manifest names is on the
/// disk as the manifest saw it: one file cut short, changed, or gone is
/// enough to call it torn.
pub proof fn lemma_whole_exactly_when_every_file_agrees(
    es: Seq<(Seq<char>, u64, u64)>,
    disk: Seq<(Seq<char>, Seq<u8>)>,
)
    ensures
        disagreeing(es, disk).len() == 0 <==> forall|i: int| 0 <= i < es.len() ==> agrees(disk, #[trigger] es[i]),
    decreases es.len(),
{
    if es.len() > 0 {
        let front = es.drop_last();
        lemma_whole_exactly_when_every_file_agrees(front, disk);
        if disagreeing(es, disk).len() == 0 {
            assert forall|i: int| 0 <= i < es.len() implies agrees(disk, #[trigger] es[i]) by {
                if i < front.len() {
                    assert(front[i] == es[i]);
                }
            }
        }
        if forall|i: int| 0 <= i < es.len() ==> agrees(disk, #[trigger] es[i]) {
            assert forall|i: int| 0 <= i < front.len() implies agrees(disk, #[trigger] front[i]) by {
                assert(front[i] == es[i]);
            }
            assert(agrees(disk, es[es.len() - 1]));
        }
    }
}

/// What `seal` measured of each file is what those files hold.
proof fn lemma_sealed_entries_agree(found: Seq<Option<Vec<u8>>>, disk: Seq<(Seq<char>, Seq<u8>)>)
    requires
        found.len() <= FILES@.len(),
        forall|i: int| 0 <= i < found.len() ==> (#[trigger] found[i] matches Some(b) ==> b@.len() <= u64::MAX
            && on_disk(disk, FILES@[i].0@) == Some(b@)),
    ensures
        sealed_entries(found).len() <= found.len(),
        names_fit(sealed_entries(found)),
        disagreeing(sealed_entries(found), disk).len() == 0,
    decreases found.len(),
{
    lemma_file_names_fit();
    if found.len() > 0 {
        let front = found.drop_last();
        assert forall|i: int| 0 <= i < front.len() implies (#[trigger] front[i] matches Some(b) ==> b@.len()
            <= u64::MAX && on_disk(disk, FILES@[i].0@) == Some(b@)) by {
            assert(front[i] == found[i]);
        }
        lemma_sealed_entries_agree(front, disk);
        let before = sealed_entries(front);
        let k = found.len() - 1;
        assert(found[k] == found.last());
        match found.last() {
            Some(b) => {
                let e = shape(FILES@[k].0@, b@);
                let all = before.push(e);
                assert(all.drop_last() =~= before);
                assert(all.last() == e);
                assert(key(FILES@[k].0@).len() <= MAX_NAME);
                assert forall|i: int| 0 <= i < all.len() implies #[trigger] key(all[i].0).len() <= MAX_NAME by {
                    if i < before.len() {
                        assert(all[i] == before[i]);
                    }
                }
                assert(agrees(disk, e));
            },
            None => {},
        }
    }
}

/// **A sealed save reads back as whole.** Seal a save from what was on the
/// disk, write its manifest, and read that manifest back against the same
/// files: the verdict is the generation it was sealed with, whole.
pub proof fn lemma_a_sealed_save_reads_back_whole(
    generation: u64,
    found: Seq<Option<Vec<u8>>>,
    disk: Seq<(Seq<char>, Seq<u8>)>,
)
    requires
        found.len() == FILES@.len(),
        forall|i: int| 0 <= i < found.len() ==> (#[trigger] found[i] matches Some(b) ==> b@.len() <= u64::MAX
            && on_disk(disk, FILES@[i].0@) == Some(b@)),
    ensures
        manifest_at(manifest_bytes(generation, sealed_entries(found))) == Some(Some((generation, sealed_entries(found)))),
        judged(generation, sealed_entries(found), disk) == Judgement::Whole(generation),
{
    lemma_sealed_entries_agree(found, disk);
    lemma_manifest_round_trip(generation, sealed_entries(found));
}

/// A file that disagrees with the manifest is among those it names.
proof fn lemma_disagreeing_names(es: Seq<(Seq<char>, u64, u64)>, disk: Seq<(Seq<char>, Seq<u8>)>, i: int)
    requires
        0 <= i < es.len(),
        !agrees(disk, es[i]),
    ensures
        disagreeing(es, disk).contains(es[i].0),
    decreases es.len(),
{
    let d = disagreeing(es, disk);
    if i == es.len() - 1 {
        assert(d.last() == es[i].0);
        assert(d[d.len() - 1] == es[i].0);
    } else {
        let front = es.drop_last();
        assert(front[i] == es[i]);
        lemma_disagreeing_names(front, disk, i);
        let before = disagreeing(front, disk);
        let j = choose|j: int| 0 <= j < before.len() && before[j] == es[i].0;
        if !agrees(disk, es.last()) {
            assert(d == before.push(es.last().0));
            assert(d[j] == before[j]);
        }
    }
}

/// **A sealed, untouched save inspects as whole.** Seal a save from what is
/// on the disk and write its manifest: inspecting that manifest against the
/// same files gives the generation it was sealed with, whole.
pub proof fn lemma_a_sealed_save_inspects_whole(
    generation: u64,
    found: Seq<Option<Vec<u8>>>,
    disk: Seq<(Seq<char>, Seq<u8>)>,
    file: ManifestFile,
)
    requires
        found.len() == FILES@.len(),
        forall|i: int| 0 <= i < found.len() ==> (#[trigger] found[i] matches Some(b) ==> b@.len() <= u64::MAX
            && on_disk(disk, FILES@[i].0@) == Some(b@)),
        file matches ManifestFile::Bytes(b) && b@ == manifest_bytes(generation, sealed_entries(found)),
    ensures
        verdict_of(file, disk) == Judgement::Whole(generation),
{
    lemma_a_sealed_save_reads_back_whole(generation, found, disk);
}

/// **A torn file is named.** When a readable manifest names a file that the
/// disk no longer holds as the manifest saw it (cut short, rewritten, or
/// gone), the save inspects as torn at that generation, and that file is
/// among those the verdict names.
pub proof fn lemma_a_torn_file_is_named(
    file: ManifestFile,
    disk: Seq<(Seq<char>, Seq<u8>)>,
    generation: u64,
    es: Seq<(Seq<char>, u64, u64)>,
    i: int,
)
    requires
        file matches ManifestFile::Bytes(b) && manifest_at(b@) == Some(Some((generation, es))),
        0 <= i < es.len(),
        !agrees(disk, es[i]),
    ensures
        verdict_of(file, disk) matches Judgement::Torn(g, names) && g == generation && names.contains(es[i].0),
{
    lemma_disagreeing_names(es, disk, i);
    assert(disagreeing(es, disk).len() > 0);
}

/// Put the fleet back together from what was written down: `pile.dat`
/// first, because `fleet.dat` is restored around whatever base and goods in
/// holding are already there. The base, its pile and the goods waiting for a
/// container are what `pile.dat` makes of them, and the air side is what
/// `fleet.dat` makes of it. Says, file by file, which was damaged.
pub fn restore_the_fleet(fleet: &mut Fleet, pile_file: Option<&[u8]>, fleet_file: Option<&[u8]>) -> (damaged: (bool, bool))
    ensures
        damaged.0 <==> (pile_file matches Some(s) && parse_pile_file(s@) is None),
        damaged.1 <==> (fleet_file matches Some(s) && fleet_at(s@) is None),
        pile_restored(*old(fleet), *final(fleet), file_view(pile_file)),
        air_restored(*old(fleet), *final(fleet), file_view(fleet_file)),
{
    let pile_damaged = crate::pile::load(fleet, pile_file);
    let fleet_damaged = crate::fleet::load(fleet, fleet_file);
    (pile_damaged, fleet_damaged)
}

} // verus!
