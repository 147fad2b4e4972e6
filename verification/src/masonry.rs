//! Masonry: the buildings a prospering town has actually put up.
//!
//! A town grows on its books wherever it is, but a building can only go up
//! where the ground is loaded. So this ledger records how many growth steps
//! each town has had *built*, which is deliberately not the number its books
//! say it has earned: the sheds go up the next time somebody is near enough
//! for there to be somewhere to put them. The ledger is the authority and the
//! blocks catch up.
use vstd::prelude::*;

use crate::bytes::{
    i32_at, i32_bytes, lemma_i32_round_trip, lemma_stands_at_end, lemma_u32_bytes_len,
    lemma_u32_round_trip, put_i32, put_tag, put_u32, put_u8, read_i32, read_u32, read_u8,
    stands_at, tag_at, u32_at, u32_bytes, u8_at,
};
use crate::fleet::file_view;
use crate::ledger::{key_lt, lemma_value_at, sorted_keys, value_in, Ledger};

verus! {

/// What `masonry.dat` starts with.
pub const MAGIC: [u8; 4] = [0x56, 0x58, 0x4d, 0x53];

/// The layout `masonry.dat` is written in.
pub const VERSION: u32 = 1;

/// An upper bound on towns in the ledger, so a corrupt count cannot make us
/// allocate wildly before failing.
pub const MAX_TOWNS: u32 = 100_000;

/// A town's centre, widened to the ledger's key type.
pub open spec fn town_key(centre: (i32, i32)) -> (i64, i64) {
    (centre.0 as i64, centre.1 as i64)
}

/// Whether every row's key is a town centre.
pub open spec fn centres_in_range(rows: Seq<((i64, i64), u8)>) -> bool {
    forall|i: int|
        0 <= i < rows.len() ==> i32::MIN <= #[trigger] rows[i].0.0 <= i32::MAX && i32::MIN
            <= rows[i].0.1 <= i32::MAX
}

/// How many growth steps the rows say a town has standing.
pub open spec fn built_in(rows: Seq<((i64, i64), u8)>, centre: (i32, i32)) -> u8 {
    match value_in(rows, town_key(centre)) {
        Some(n) => n,
        None => 0,
    }
}

/// How many growth steps each town has had built, keyed on its centre: a
/// town's position is what it is.
#[derive(Debug, PartialEq, Eq)]
pub struct Masonry {
    built: Ledger<u8>,
}

impl View for Masonry {
    type V = Seq<((i64, i64), u8)>;

    closed spec fn view(&self) -> Seq<((i64, i64), u8)> {
        self.built@
    }
}

impl Default for Masonry {
    /// A frontier that has not built anything yet.
    fn default() -> (m: Masonry)
        ensures
            m@ == Seq::<((i64, i64), u8)>::empty(),
    {
        Masonry::new()
    }
}

impl Masonry {
    #[verifier::type_invariant]
    closed spec fn keys_are_centres(self) -> bool {
        centres_in_range(self.built@)
    }

    /// How many growth steps this ledger says a town has standing.
    pub open spec fn built_of(&self, centre: (i32, i32)) -> u8 {
        built_in(self@, centre)
    }

    /// A frontier that has not built anything yet.
    pub fn new() -> (m: Masonry)
        ensures
            m@ == Seq::<((i64, i64), u8)>::empty(),
    {
        Masonry { built: Ledger::new() }
    }

    /// How many growth steps this town has standing.
    pub fn built(&self, centre: (i32, i32)) -> (n: u8)
        ensures
            n == self.built_of(centre),
    {
        match self.built.get((centre.0 as i64, centre.1 as i64)) {
            Some(n) => n,
            None => 0,
        }
    }

    /// How many towns have anything built at all: the census line.
    pub fn towns(&self) -> (n: usize)
        ensures
            n == self@.len(),
    {
        self.built.len()
    }

    /// The growth step a town should put up next, given what its books say it
    /// has earned and how many steps are authored for it; `None` once what is
    /// standing is all it is owed.
    pub fn due(&self, centre: (i32, i32), earned: u8, authored: u8) -> (step: Option<u8>)
        ensures
            step == due_spec(self.built_of(centre), earned, authored),
    {
        let want = if earned <= authored { earned } else { authored };
        let standing = self.built(centre);
        if standing < want {
            Some(standing)
        } else {
            None
        }
    }

    /// One step of a town raising what it has earned: `laid` says whether
    /// the building due was put up in the world. A laid building is recorded
    /// and the next one due is named; one whose ground is not loaded yet
    /// changes nothing and stops the town until a later pass, so nothing is
    /// ever recorded that is not standing.
    pub fn after_laying(&mut self, centre: (i32, i32), earned: u8, authored: u8, laid: bool) -> (next: Option<u8>)
        requires
            due_spec(old(self).built_of(centre), earned, authored) is Some,
        ensures
            laid ==> final(self).built_of(centre) == old(self).built_of(centre) + 1,
            laid ==> next == due_spec(final(self).built_of(centre), earned, authored),
            !laid ==> *final(self) == *old(self) && next is None,
            forall|c: (i32, i32)| #![trigger final(self).built_of(c)] c != centre ==> final(self).built_of(c) == old(self).built_of(c),
            final(self)@.len() <= old(self)@.len() + 1,
    {
        if !laid {
            return None;
        }
        let step = self.built(centre);
        self.record(centre, step + 1);
        self.due(centre, earned, authored)
    }

    /// Record that a town now has `steps` growth steps standing.
    pub fn record(&mut self, centre: (i32, i32), steps: u8)
        ensures
            forall|c: (i32, i32)|
                #![trigger final(self).built_of(c)]
                final(self).built_of(c) == if c == centre {
                    steps
                } else {
                    old(self).built_of(c)
                },
            forall|k: (i64, i64)|
                #![trigger value_in(final(self)@, k)]
                k != town_key(centre) ==> value_in(final(self)@, k) == value_in(old(self)@, k),
            final(self)@.len() <= old(self)@.len() + 1,
    {
        proof {
            use_type_invariant(&*self);
        }
        let k = (centre.0 as i64, centre.1 as i64);
        let ghost prior = self.built@;
        let mut ledger = Ledger::new();
        std::mem::swap(&mut ledger, &mut self.built);
        ledger.insert(k, steps);
        ledger.note_order();
        proof {
            assert forall|c: (i32, i32)| #[trigger] built_in(ledger@, c) == if c == centre {
                steps
            } else {
                built_in(prior, c)
            } by {
                assert(ledger.value(town_key(c)) == value_in(ledger@, town_key(c)));
            }
            assert forall|kk: (i64, i64)| kk != k implies #[trigger] value_in(ledger@, kk)
                == value_in(prior, kk) by {
                assert(ledger.value(kk) == value_in(ledger@, kk));
            }
            assert forall|t: int| 0 <= t < ledger@.len() implies i32::MIN <= #[trigger] ledger@[t].0.0
                <= i32::MAX && i32::MIN <= ledger@[t].0.1 <= i32::MAX by {
                lemma_value_at(ledger@, t);
                assert(ledger.value(ledger@[t].0) == value_in(ledger@, ledger@[t].0));
                if ledger@[t].0 != k {
                    crate::ledger::lemma_value_found(prior, ledger@[t].0);
                }
            }
        }
        self.built = ledger;
    }
}

/// One row of `masonry.dat`: the town's centre and its standing steps.
pub open spec fn town_row_bytes(r: ((i64, i64), u8)) -> Seq<u8> {
    i32_bytes(r.0.0 as i32) + i32_bytes(r.0.1 as i32) + seq![r.1]
}

/// Rows of `masonry.dat`, one after another.
pub open spec fn town_rows_bytes(rows: Seq<((i64, i64), u8)>) -> Seq<u8>
    decreases rows.len(),
{
    if rows.len() == 0 {
        Seq::empty()
    } else {
        town_rows_bytes(rows.drop_last()) + town_row_bytes(rows.last())
    }
}

/// The whole of `masonry.dat` for a ledger's rows.
pub open spec fn masonry_bytes(rows: Seq<((i64, i64), u8)>) -> Seq<u8> {
    MAGIC@ + u32_bytes(VERSION) + u32_bytes(rows.len() as u32) + town_rows_bytes(rows)
}

/// The row standing at `at`, refused when it claims more steps than any town
/// has `authored`.
pub open spec fn town_row_at(s: Seq<u8>, at: int, authored: u8) -> Option<((i64, i64), u8)> {
    match (i32_at(s, at), i32_at(s, at + 4), u8_at(s, at + 8)) {
        (Some((x, _)), Some((z, _)), Some((steps, _))) => if steps <= authored {
            Some(((x as i64, z as i64), steps))
        } else {
            None
        },
        _ => None,
    }
}

/// The `n` rows standing from `at`, nine bytes each.
pub open spec fn town_rows_at(s: Seq<u8>, at: int, n: nat, authored: u8) -> Option<Seq<((i64, i64), u8)>>
    decreases n,
{
    if n == 0 {
        Some(Seq::empty())
    } else {
        match (town_rows_at(s, at, (n - 1) as nat, authored), town_row_at(s, at + 9 * (n - 1), authored)) {
            (Some(rows), Some(row)) => Some(rows.push(row)),
            _ => None,
        }
    }
}

/// What a file holds, read as `masonry.dat`: its rows in file order, or
/// nothing for a file that is not one, is another version, claims more towns
/// than there are, stops early, or has a town built past the `authored` steps
/// any town has.
pub open spec fn parse_masonry(s: Seq<u8>, authored: u8) -> Option<Seq<((i64, i64), u8)>> {
    if stands_at(s, 0, MAGIC@) && u32_at(s, 4) == Some((VERSION, 8int)) {
        match u32_at(s, 8) {
            Some((n, _)) => if n <= MAX_TOWNS {
                town_rows_at(s, 12, n as nat, authored)
            } else {
                None
            },
            None => None,
        }
    } else {
        None
    }
}

/// A row that will not read spoils every longer run of rows.
proof fn lemma_town_rows_stop(s: Seq<u8>, at: int, i: nat, n: nat, authored: u8)
    requires
        i < n,
        town_rows_at(s, at, (i + 1) as nat, authored) is None,
    ensures
        town_rows_at(s, at, n, authored) is None,
    decreases n - i,
{
    if n > i + 1 {
        lemma_town_rows_stop(s, at, i, (n - 1) as nat, authored);
    }
}

proof fn lemma_town_rows_len(rows: Seq<((i64, i64), u8)>)
    ensures
        town_rows_bytes(rows).len() == 9 * rows.len(),
    decreases rows.len(),
{
    if rows.len() > 0 {
        lemma_town_rows_len(rows.drop_last());
        lemma_u32_bytes_len(rows.last().0.0 as i32 as u32);
        lemma_u32_bytes_len(rows.last().0.1 as i32 as u32);
    }
}

/// Whether every row is one the ledger can hold and the file can carry, none
/// built past the `authored` steps.
pub open spec fn rows_fit(rows: Seq<((i64, i64), u8)>, authored: u8) -> bool {
    &&& centres_in_range(rows)
    &&& forall|i: int| 0 <= i < rows.len() ==> #[trigger] rows[i].1 <= authored
}

proof fn lemma_town_rows_round_trip(s: Seq<u8>, at: int, rows: Seq<((i64, i64), u8)>, authored: u8)
    requires
        stands_at(s, at, town_rows_bytes(rows)),
        rows_fit(rows, authored),
    ensures
        town_rows_at(s, at, rows.len(), authored) == Some(rows),
    decreases rows.len(),
{
    if rows.len() > 0 {
        let front = rows.drop_last();
        let row = rows.last();
        lemma_town_rows_len(front);
        lemma_u32_bytes_len(row.0.0 as i32 as u32);
        lemma_u32_bytes_len(row.0.1 as i32 as u32);
        let whole = town_rows_bytes(rows);
        let fl = town_rows_bytes(front).len() as int;
        assert(whole == town_rows_bytes(front) + town_row_bytes(row));
        assert(s.subrange(at, at + fl) =~= whole.subrange(0, fl));
        assert(whole.subrange(0, fl) =~= town_rows_bytes(front));
        assert(stands_at(s, at, town_rows_bytes(front)));
        assert forall|i: int| 0 <= i < front.len() implies i32::MIN <= #[trigger] front[i].0.0
            <= i32::MAX && i32::MIN <= front[i].0.1 <= i32::MAX && front[i].1 <= authored by {
            assert(front[i] == rows[i]);
        }
        lemma_town_rows_round_trip(s, at, front, authored);
        let q: int = 9 * front.len() as int;
        let p = at + q;
        assert(rows[rows.len() - 1] == row);
        assert(stands_at(s, p, i32_bytes(row.0.0 as i32))) by {
            assert(s.subrange(p, p + 4) =~= whole.subrange(q, q + 4));
            assert(whole.subrange(q, q + 4) =~= i32_bytes(row.0.0 as i32));
        }
        assert(stands_at(s, p + 4, i32_bytes(row.0.1 as i32))) by {
            assert(s.subrange(p + 4, p + 8) =~= whole.subrange(q + 4, q + 8));
            assert(whole.subrange(q + 4, q + 8) =~= i32_bytes(row.0.1 as i32));
        }
        assert(s[p + 8] == row.1) by {
            assert(whole[q + 8] == town_row_bytes(row)[8]);
            assert(s[p + 8] == s.subrange(at, at + whole.len())[q + 8]);
        }
        lemma_i32_round_trip(s, p, row.0.0 as i32);
        lemma_i32_round_trip(s, p + 4, row.0.1 as i32);
        assert(rows.len() - 1 == front.len());
        assert(front.push(row) =~= rows);
    }
}

/// **The ledger round-trips.** What `masonry.dat` is written as reads back as
/// the same rows, for any ledger of no more towns than the file allows, none
/// built past what is authored.
pub proof fn lemma_masonry_round_trip(rows: Seq<((i64, i64), u8)>, authored: u8)
    requires
        rows_fit(rows, authored),
        rows.len() <= MAX_TOWNS,
    ensures
        parse_masonry(masonry_bytes(rows), authored) == Some(rows),
{
    let s = masonry_bytes(rows);
    lemma_u32_bytes_len(VERSION);
    lemma_u32_bytes_len(rows.len() as u32);
    let head = MAGIC@ + u32_bytes(VERSION) + u32_bytes(rows.len() as u32);
    assert(s == head + town_rows_bytes(rows));
    assert(s.subrange(0, 4) =~= MAGIC@);
    assert(s.subrange(4, 8) =~= u32_bytes(VERSION));
    assert(s.subrange(8, 12) =~= u32_bytes(rows.len() as u32));
    lemma_u32_round_trip(s, 4, VERSION);
    lemma_u32_round_trip(s, 8, rows.len() as u32);
    lemma_stands_at_end(head, town_rows_bytes(rows));
    lemma_town_rows_round_trip(s, 12, rows, authored);
}

impl Masonry {
    /// Write the ledger the way `masonry.dat` holds it.
    pub fn save(&self) -> (bytes: Vec<u8>)
        requires
            self@.len() <= u32::MAX,
        ensures
            bytes@ == masonry_bytes(self@),
            centres_in_range(self@),
            sorted_keys(self@),
    {
        proof {
            use_type_invariant(self);
        }
        self.built.note_order();
        let mut out: Vec<u8> = Vec::new();
        put_tag(&mut out, &MAGIC);
        put_u32(&mut out, VERSION);
        let rows = self.built.rows();
        put_u32(&mut out, rows.len() as u32);
        let ghost head = out@;
        let mut i: usize = 0;
        while i < rows.len()
            invariant
                0 <= i <= rows@.len(),
                rows@ == self@,
                centres_in_range(self@),
                out@ == head + town_rows_bytes(rows@.take(i as int)),
            decreases rows@.len() - i,
        {
            let row = rows[i];
            proof {
                assert(rows@.take(i + 1).drop_last() =~= rows@.take(i as int));
                assert(rows@.take(i + 1).last() == rows@[i as int]);
            }
            put_i32(&mut out, row.0.0 as i32);
            put_i32(&mut out, row.0.1 as i32);
            put_u8(&mut out, row.1);
            i = i + 1;
            assert(out@ =~= head + town_rows_bytes(rows@.take(i as int)));
        }
        assert(rows@.take(i as int) =~= self@);
        out
    }

    /// Read `masonry.dat`: a ledger whose every town has what the last row
    /// naming it says, or nothing for a file that does not parse; `authored`
    /// is the most growth steps any town has.
    pub fn read(s: &[u8], authored: u8) -> (r: Option<Masonry>)
        ensures
            r is None <==> parse_masonry(s@, authored) is None,
            r matches Some(m) ==> forall|k: (i64, i64)|
                #![trigger value_in(m@, k)]
                value_in(m@, k) == value_in(parse_masonry(s@, authored).unwrap(), k),
            r matches Some(m) ==> (sorted_keys(parse_masonry(s@, authored).unwrap()) ==> m@
                == parse_masonry(s@, authored).unwrap()),
    {
        if !tag_at(s, 0, &MAGIC) {
            return None;
        }
        match read_u32(s, 4) {
            Some((v, _)) => if v != VERSION {
                return None;
            },
            None => return None,
        }
        let n = match read_u32(s, 8) {
            Some((n, _)) => n,
            None => return None,
        };
        if n > MAX_TOWNS {
            return None;
        }
        let mut ledger: Ledger<u8> = Ledger::new();
        let mut at: usize = 12;
        let mut i: u32 = 0;
        let ghost mut rows: Seq<((i64, i64), u8)> = Seq::empty();
        while i < n
            invariant
                0 <= i <= n,
                n <= MAX_TOWNS,
                stands_at(s@, 0, MAGIC@),
                u32_at(s@, 4) == Some((VERSION, 8int)),
                u32_at(s@, 8) == Some((n, 12int)),
                at == 12 + 9 * i,
                town_rows_at(s@, 12, i as nat, authored) == Some(rows),
                centres_in_range(ledger@),
                forall|k: (i64, i64)| #[trigger] value_in(ledger@, k) == value_in(rows, k),
                sorted_keys(rows) ==> ledger@ == rows,
            decreases n - i,
        {
            let x = match read_i32(s, at) {
                Some((x, _)) => x,
                None => {
                    proof {
                        assert(town_row_at(s@, 12 + 9 * i, authored) is None);
                        assert(town_rows_at(s@, 12, (i + 1) as nat, authored) is None);
                        lemma_town_rows_stop(s@, 12, i as nat, n as nat, authored);
                    }
                    return None;
                },
            };
            let z = match read_i32(s, at + 4) {
                Some((z, _)) => z,
                None => {
                    proof {
                        assert(town_row_at(s@, 12 + 9 * i, authored) is None);
                        assert(town_rows_at(s@, 12, (i + 1) as nat, authored) is None);
                        lemma_town_rows_stop(s@, 12, i as nat, n as nat, authored);
                    }
                    return None;
                },
            };
            let steps = match read_u8(s, at + 8) {
                Some((v, _)) => v,
                None => {
                    proof {
                        assert(town_row_at(s@, 12 + 9 * i, authored) is None);
                        assert(town_rows_at(s@, 12, (i + 1) as nat, authored) is None);
                        lemma_town_rows_stop(s@, 12, i as nat, n as nat, authored);
                    }
                    return None;
                },
            };
            if steps > authored {
                proof {
                    assert(town_row_at(s@, 12 + 9 * i, authored) is None);
                    assert(town_rows_at(s@, 12, (i + 1) as nat, authored) is None);
                    lemma_town_rows_stop(s@, 12, i as nat, n as nat, authored);
                }
                return None;
            }
            let k = (x as i64, z as i64);
            let ghost prior = ledger@;
            ledger.insert(k, steps);
            ledger.note_order();
            proof {
                let row = (k, steps);
                assert(town_row_at(s@, 12 + 9 * i, authored) == Some(row));
                let grown = rows.push(row);
                assert(town_rows_at(s@, 12, (i + 1) as nat, authored) == Some(grown));
                assert forall|kk: (i64, i64)| #[trigger] value_in(ledger@, kk) == value_in(grown, kk) by {
                    assert(ledger.value(kk) == value_in(ledger@, kk));
                    assert(grown.drop_last() =~= rows);
                }
                assert forall|t: int| 0 <= t < ledger@.len() implies i32::MIN <= #[trigger] ledger@[t].0.0
                    <= i32::MAX && i32::MIN <= ledger@[t].0.1 <= i32::MAX by {
                    lemma_value_at(ledger@, t);
                    assert(ledger.value(ledger@[t].0) == value_in(ledger@, ledger@[t].0));
                    if ledger@[t].0 != k {
                        crate::ledger::lemma_value_found(prior, ledger@[t].0);
                    }
                }
                if sorted_keys(grown) {
                    assert forall|a: int, b: int| 0 <= a < b < rows.len() implies #[trigger] key_lt(
                        rows[a].0,
                        rows[b].0,
                    ) by {
                        assert(rows[a] == grown[a] && rows[b] == grown[b]);
                    }
                    assert forall|t: int| 0 <= t < prior.len() implies #[trigger] key_lt(prior[t].0, k) by {
                        assert(prior[t] == grown[t]);
                        assert(grown[rows.len() as int] == row);
                    }
                    assert(ledger@ == prior.push(row));
                }
                rows = grown;
            }
            at = at + 9;
            i = i + 1;
        }
        Some(Masonry { built: ledger })
    }

    /// Every ledger keys only town centres, each once, in key order.
    pub fn note_well_kept(&self)
        ensures
            centres_in_range(self@),
            sorted_keys(self@),
    {
        proof {
            use_type_invariant(self);
        }
        self.built.note_order();
    }

    /// Take what a saved ledger says, tolerating absence and damage: no file
    /// leaves the ledger as it is; a damaged ledger, or one that credits a
    /// town with more steps than are authored, is refused whole, leaving a
    /// frontier that has not built anything yet, and the damage is reported
    /// so the caller can say so.
    /// `authored` is the most growth steps any town has.
    pub fn load(&mut self, file: Option<&[u8]>, authored: u8) -> (damaged: bool)
        ensures
            damaged <==> (file matches Some(s) && parse_masonry(s@, authored) is None),
            towns_loaded(old(self)@, final(self)@, file_view(file), authored),
    {
        match file {
            None => false,
            Some(s) => match Masonry::read(s, authored) {
                Some(back) => {
                    *self = back;
                    false
                },
                None => {
                    *self = Masonry::new();
                    true
                },
            },
        }
    }
}

/// What loading a saved masonry ledger makes of one: no file leaves it as it
/// was; a damaged one is an empty ledger; a file that reads gives every town what the last
/// row naming it says, and exactly the rows when they are in key order.
pub open spec fn towns_loaded(
    before: Seq<((i64, i64), u8)>,
    after: Seq<((i64, i64), u8)>,
    file: Option<Seq<u8>>,
    authored: u8,
) -> bool {
    match file {
        None => after == before,
        Some(s) => match parse_masonry(s, authored) {
            None => after.len() == 0,
            Some(rows) => (forall|k: (i64, i64)| #![trigger value_in(after, k)] value_in(after, k) == value_in(rows, k))
                && (sorted_keys(rows) ==> after == rows),
        },
    }
}

/// **The masonry ledger round-trips.** Loading what a ledger was saved as,
/// into any ledger, gives back the ledger that was saved, so long as no town
/// in it has built past what is authored.
pub proof fn lemma_the_ledger_round_trips(
    saved: Seq<((i64, i64), u8)>,
    before: Seq<((i64, i64), u8)>,
    after: Seq<((i64, i64), u8)>,
    authored: u8,
)
    requires
        rows_fit(saved, authored),
        sorted_keys(saved),
        saved.len() <= MAX_TOWNS,
        towns_loaded(before, after, Some(masonry_bytes(saved)), authored),
    ensures
        after == saved,
{
    lemma_masonry_round_trip(saved, authored);
}

/// The growth step a town standing at `built` should put up next, given what
/// its books say it has earned and how many steps are authored for it.
pub open spec fn due_spec(built: u8, earned: u8, authored: u8) -> Option<u8> {
    if built < earned && built < authored {
        Some(built)
    } else {
        None
    }
}

/// Where a town standing at `built` ends up once every step that comes due
/// has been put up and recorded.
pub open spec fn raised_spec(built: u8, earned: u8, authored: u8) -> u8
    decreases 256 - built,
{
    match due_spec(built, earned, authored) {
        Some(step) => if step < 255 {
            raised_spec((step + 1) as u8, earned, authored)
        } else {
            built
        },
        None => built,
    }
}

/// **Raising the same town twice builds nothing the second time.** Putting
/// up and recording every step as it comes due leaves a town standing at
/// what it has earned, never past what is authored, with nothing more due,
/// so a second pass finds nothing to build.
pub proof fn lemma_raising_twice_builds_nothing(built: u8, earned: u8, authored: u8)
    ensures
        due_spec(raised_spec(built, earned, authored), earned, authored) is None,
        raised_spec(raised_spec(built, earned, authored), earned, authored) == raised_spec(built, earned, authored),
        built < earned && built < authored ==> raised_spec(built, earned, authored) == if earned <= authored {
            earned
        } else {
            authored
        },
        !(built < earned && built < authored) ==> raised_spec(built, earned, authored) == built,
    decreases 256 - built,
{
    if built < earned && built < authored {
        lemma_raising_twice_builds_nothing((built + 1) as u8, earned, authored);
    }
}

} // verus!
