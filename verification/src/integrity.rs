//! Integrity: what accidents cost the machines that have them.
//!
//! Wear is the cost of using a machine; this is the cost of a thing going
//! wrong. A worn machine stops; a broken one is gone, and the fleet is one
//! machine smaller for the rest of the save.
//!
//! Every way a machine is damaged is already a consequence of an order on the
//! journal — flown into a hillside, shot, worked while seized — so the damage
//! is arithmetic over recorded orders and is re-derived by replay.
use vstd::prelude::*;

use crate::bytes::{
    lemma_stands_at_end, lemma_u32_bytes_len, lemma_u32_round_trip, put_tag,
    put_u32, put_u8, read_u32, read_u8, stands_at, tag_at, u32_at, u32_bytes, u8_at,
};
use crate::fleet::file_view;
use crate::ledger::{key_lt, lemma_value_at, sorted_keys, value_in, without, Ledger};
use crate::machine::{key, key_spec, MachineRef};
use crate::stockpile::Stockpile;

verus! {

/// The four bytes `integrity.dat` starts with.
pub const MAGIC: [u8; 4] = [0x56, 0x58, 0x49, 0x54];

/// The layout this build writes.
pub const VERSION: u32 = 1;

/// What a machine can absorb before it is scrap.
pub const HULL: u32 = 100;

/// Damage per block of rock a hand-flown machine drives into, squared.
pub const IMPACT_PER_BLOCK: u32 = 6;

/// What one slug does to a machine: three and a fresh machine is gone.
pub const SLUG_HIT: u32 = 34;

/// What a seized machine takes for each tick it is asked to work anyway.
pub const SEIZED_TICK: u32 = 1;

/// Spare parts a wear repair costs.
pub const PARTS_PER_REPAIR: u64 = 2;

/// Parts to patch a damaged machine back to a whole hull: twice a repair.
pub const PARTS_PER_PATCH: u64 = PARTS_PER_REPAIR * 2;

/// The good the bench spends.
pub const SPARE_PART: &'static str = "engine:spare_part";

/// How badly knocked about a machine is, worst last.
#[derive(Debug, Clone, Copy, PartialEq, Eq, Structural)]
pub enum Damage {
    Sound,
    Dented,
    Buckled,
    Wrecked,
}

/// Where a state falls, worst highest.
pub open spec fn rank(d: Damage) -> int {
    match d {
        Damage::Sound => 0,
        Damage::Dented => 1,
        Damage::Buckled => 2,
        Damage::Wrecked => 3,
    }
}

/// What the damage taken says.
pub open spec fn damage_of(taken: u32) -> Damage {
    if taken >= HULL {
        Damage::Wrecked
    } else if taken * 2 >= HULL {
        Damage::Buckled
    } else if taken > 0 {
        Damage::Dented
    } else {
        Damage::Sound
    }
}

impl Damage {
    /// What the damage taken says.
    pub fn of(taken: u32) -> (d: Damage)
        ensures
            d == damage_of(taken),
    {
        if taken >= HULL {
            Damage::Wrecked
        } else if taken * 2 >= HULL {
            Damage::Buckled
        } else if taken > 0 {
            Damage::Dented
        } else {
            Damage::Sound
        }
    }

    /// What the roster calls it.
    pub fn name(self) -> (n: &'static str)
        ensures
            self == Damage::Sound ==> n@ == "SOUND"@,
            self == Damage::Dented ==> n@ == "DENTED"@,
            self == Damage::Buckled ==> n@ == "BUCKLED"@,
            self == Damage::Wrecked ==> n@ == "WRECKED"@,
    {
        match self {
            Damage::Sound => "SOUND",
            Damage::Dented => "DENTED",
            Damage::Buckled => "BUCKLED",
            Damage::Wrecked => "WRECKED",
        }
    }
}

/// A ledger row's key, widened to the ledger's key type.
pub open spec fn wide(k: (u8, u32)) -> (i64, i64) {
    (k.0 as i64, k.1 as i64)
}

/// What a ledger's rows say one machine has taken.
pub open spec fn taken_in(rows: Seq<((i64, i64), u32)>, machine: MachineRef) -> u32 {
    match key_spec(machine) {
        None => 0,
        Some(k) => match value_in(rows, wide(k)) {
            Some(v) => v,
            None => 0,
        },
    }
}

/// Whether every row's key is one a machine can have.
pub open spec fn keys_in_range(rows: Seq<((i64, i64), u32)>) -> bool {
    forall|i: int|
        0 <= i < rows.len() ==> 0 <= #[trigger] rows[i].0.0 <= 255 && 0 <= rows[i].0.1 <= u32::MAX
}

/// Damage taken, per machine.
#[derive(Debug, PartialEq, Eq)]
pub struct Integrity {
    taken: Ledger<u32>,
}

impl View for Integrity {
    type V = Seq<((i64, i64), u32)>;

    closed spec fn view(&self) -> Seq<((i64, i64), u32)> {
        self.taken@
    }
}

impl Default for Integrity {
    /// A fleet nothing has happened to.
    fn default() -> (integrity: Integrity)
        ensures
            integrity@ == Seq::<((i64, i64), u32)>::empty(),
    {
        Integrity::new()
    }
}

impl Integrity {
    #[verifier::type_invariant]
    closed spec fn keys_fit(self) -> bool {
        keys_in_range(self.taken@)
    }

    /// What this ledger says a machine has taken.
    pub open spec fn taken_of(&self, machine: MachineRef) -> u32 {
        taken_in(self@, machine)
    }

    /// A fleet nothing has happened to.
    pub fn new() -> (integrity: Integrity)
        ensures
            integrity@ == Seq::<((i64, i64), u32)>::empty(),
    {
        Integrity { taken: Ledger::new() }
    }

    /// How many machines the ledger has a row for.
    pub fn len(&self) -> (n: usize)
        ensures
            n == self@.len(),
    {
        self.taken.len()
    }

    /// Damage this machine has taken.
    pub fn taken(&self, machine: MachineRef) -> (t: u32)
        ensures
            t == self.taken_of(machine),
    {
        match key(machine) {
            None => 0,
            Some(k) => match self.taken.get((k.0 as i64, k.1 as i64)) {
                Some(v) => v,
                None => 0,
            },
        }
    }

    /// Hull left, in the same units.
    pub fn left(&self, machine: MachineRef) -> (l: u32)
        ensures
            l == if self.taken_of(machine) >= HULL {
                0
            } else {
                (HULL - self.taken_of(machine)) as u32
            },
    {
        HULL.saturating_sub(self.taken(machine))
    }

    /// How this machine is holding up.
    pub fn damage(&self, machine: MachineRef) -> (d: Damage)
        ensures
            d == damage_of(self.taken_of(machine)),
    {
        Damage::of(self.taken(machine))
    }

    /// Hurt a machine, and say whether this blow is what finished it.
    ///
    /// The answer is the edge, not the level: a machine already scrap is not
    /// finished again, so a wreck is reported once.
    pub fn hurt(&mut self, machine: MachineRef, amount: u32) -> (killed: bool)
        ensures
            forall|m: MachineRef|
                #![trigger final(self).taken_of(m)]
                final(self).taken_of(m) == if key_spec(m) is Some && key_spec(m) == key_spec(machine)
                    && amount > 0 {
                    if old(self).taken_of(m) + amount >= HULL {
                        HULL
                    } else {
                        (old(self).taken_of(m) + amount) as u32
                    }
                } else {
                    old(self).taken_of(m)
                },
            killed <==> key_spec(machine) is Some && amount > 0 && old(self).taken_of(machine) < HULL
                && old(self).taken_of(machine) + amount >= HULL,
            final(self)@.len() <= old(self)@.len() + 1,
    {
        proof {
            use_type_invariant(&*self);
        }
        let k = match key(machine) {
            None => return false,
            Some(k) => k,
        };
        if amount == 0 {
            return false;
        }
        let wide_key = (k.0 as i64, k.1 as i64);
        let taken = match self.taken.get(wide_key) {
            Some(v) => v,
            None => 0,
        };
        let was_whole = taken < HULL;
        let summed = taken.saturating_add(amount);
        let now = if summed < HULL { summed } else { HULL };
        let ghost before = self.taken@;
        let mut ledger = Ledger::new();
        std::mem::swap(&mut ledger, &mut self.taken);
        ledger.insert(wide_key, now);
        ledger.note_order();
        proof {
            assert forall|m: MachineRef| #[trigger] taken_in(ledger@, m) == if key_spec(m) is Some
                && key_spec(m) == key_spec(machine) && amount > 0 {
                if taken_in(before, m) + amount >= HULL {
                    HULL
                } else {
                    (taken_in(before, m) + amount) as u32
                }
            } else {
                taken_in(before, m)
            } by {
                if let Some(km) = key_spec(m) {
                    assert(ledger.value(wide(km)) == value_in(ledger@, wide(km)));
                    if wide(km) == wide_key {
                        assert(km == k);
                    }
                }
            }
            assert forall|i: int| 0 <= i < ledger@.len() implies 0 <= #[trigger] ledger@[i].0.0
                <= 255 && 0 <= ledger@[i].0.1 <= u32::MAX by {
                lemma_value_at(ledger@, i);
                assert(ledger.value(ledger@[i].0) == value_in(ledger@, ledger@[i].0));
                if ledger@[i].0 != wide_key {
                    assert(value_in(before, ledger@[i].0) is Some);
                    crate::ledger::lemma_value_found(before, ledger@[i].0);
                }
            }
        }
        self.taken = ledger;
        was_whole && now >= HULL
    }

    /// Beat the dents out: back to a whole hull, for parts off the pile.
    ///
    /// Refuses a machine that is whole, a wreck, and a pile without the parts.
    pub fn patch(&mut self, machine: MachineRef, pile: &mut Stockpile) -> (patched: bool)
        ensures
            patched <==> key_spec(machine) is Some && 0 < old(self).taken_of(machine) < HULL
                && old(pile).count_of(SPARE_PART@) >= PARTS_PER_PATCH,
            patched ==> final(pile).count_of(SPARE_PART@) == old(pile).count_of(SPARE_PART@)
                - PARTS_PER_PATCH,
            forall|k: Seq<char>|
                #![trigger final(pile).count_of(k)]
                k != SPARE_PART@ || !patched ==> final(pile).count_of(k) == old(pile).count_of(k),
            forall|m: MachineRef|
                #![trigger final(self).taken_of(m)]
                final(self).taken_of(m) == if patched && key_spec(m) == key_spec(machine) {
                    0
                } else {
                    old(self).taken_of(m)
                },
            patched ==> final(self)@ == without(old(self)@, wide(key_spec(machine)->Some_0)),
            !patched ==> final(self)@ == old(self)@,
    {
        proof {
            use_type_invariant(&*self);
        }
        let k = match key(machine) {
            None => return false,
            Some(k) => k,
        };
        let wide_key = (k.0 as i64, k.1 as i64);
        let taken = match self.taken.get(wide_key) {
            Some(v) => v,
            None => 0,
        };
        if taken == 0 || taken >= HULL {
            return false;
        }
        if pile.count(SPARE_PART) < PARTS_PER_PATCH {
            return false;
        }
        pile.take(SPARE_PART, PARTS_PER_PATCH);
        let ghost before = self.taken@;
        let mut ledger = Ledger::new();
        std::mem::swap(&mut ledger, &mut self.taken);
        ledger.remove(wide_key);
        ledger.note_order();
        proof {
            assert forall|m: MachineRef| #[trigger] taken_in(ledger@, m) == if key_spec(m)
                == key_spec(machine) {
                0
            } else {
                taken_in(before, m)
            } by {
                if let Some(km) = key_spec(m) {
                    assert(ledger.value(wide(km)) == value_in(ledger@, wide(km)));
                    if wide(km) == wide_key {
                        assert(km == k);
                    }
                }
            }
            assert forall|i: int| 0 <= i < ledger@.len() implies 0 <= #[trigger] ledger@[i].0.0
                <= 255 && 0 <= ledger@[i].0.1 <= u32::MAX by {
                lemma_value_at(ledger@, i);
                assert(ledger.value(ledger@[i].0) == value_in(ledger@, ledger@[i].0));
                assert(value_in(before, ledger@[i].0) is Some);
                crate::ledger::lemma_value_found(before, ledger@[i].0);
            }
        }
        self.taken = ledger;
        true
    }

    /// Forget a machine entirely, as when its wreck is salvaged.
    pub fn forget(&mut self, machine: MachineRef)
        ensures
            forall|m: MachineRef|
                #![trigger final(self).taken_of(m)]
                final(self).taken_of(m) == if key_spec(m) == key_spec(machine) {
                    0
                } else {
                    old(self).taken_of(m)
                },
            key_spec(machine) matches Some(k) ==> final(self)@ == without(old(self)@, wide(k)),
            key_spec(machine) is None ==> final(self)@ == old(self)@,
    {
        proof {
            use_type_invariant(&*self);
        }
        if let Some(k) = key(machine) {
            let wide_key = (k.0 as i64, k.1 as i64);
            let ghost before = self.taken@;
            let mut ledger = Ledger::new();
            std::mem::swap(&mut ledger, &mut self.taken);
            ledger.remove(wide_key);
            ledger.note_order();
            proof {
                assert forall|m: MachineRef| #[trigger] taken_in(ledger@, m) == if key_spec(m)
                    == key_spec(machine) {
                    0
                } else {
                    taken_in(before, m)
                } by {
                    if let Some(km) = key_spec(m) {
                        assert(ledger.value(wide(km)) == value_in(ledger@, wide(km)));
                        if wide(km) == wide_key {
                            assert(km == k);
                        }
                    }
                }
                assert forall|i: int| 0 <= i < ledger@.len() implies 0 <= #[trigger] ledger@[i].0.0
                    <= 255 && 0 <= ledger@[i].0.1 <= u32::MAX by {
                    lemma_value_at(ledger@, i);
                assert(ledger.value(ledger@[i].0) == value_in(ledger@, ledger@[i].0));
                    assert(value_in(before, ledger@[i].0) is Some);
                    crate::ledger::lemma_value_found(before, ledger@[i].0);
                }
            }
            self.taken = ledger;
        }
    }
}

impl Integrity {
    /// The worst state among the first `diggers` drones and `fliers` fliers.
    pub open spec fn worst_rank(&self, diggers: nat, fliers: nat) -> int
        decreases diggers + fliers,
    {
        if fliers > 0 {
            let rest = self.worst_rank(diggers, (fliers - 1) as nat);
            let here = rank(damage_of(self.taken_of(MachineRef::Flier((fliers - 1) as usize))));
            if here > rest {
                here
            } else {
                rest
            }
        } else if diggers > 0 {
            let rest = self.worst_rank((diggers - 1) as nat, 0);
            let here = rank(damage_of(self.taken_of(MachineRef::Digger((diggers - 1) as usize))));
            if here > rest {
                here
            } else {
                rest
            }
        } else {
            0
        }
    }

    /// The worst machine in the crew, for the HUD's warning line: nothing
    /// while every machine is at worst dented.
    pub fn complaint(&self, diggers: usize, fliers: usize) -> (line: Option<String>)
        ensures
            line is None <==> self.worst_rank(diggers as nat, fliers as nat) <= 1,
            self.worst_rank(diggers as nat, fliers as nat) == 2 ==> (line matches Some(s) && s@
                == "A MACHINE IS BUCKLED - PATCH IT"@),
            self.worst_rank(diggers as nat, fliers as nat) == 3 ==> (line matches Some(s) && s@
                == "A MACHINE IS DOWN - GO AND GET IT"@),
    {
        let mut worst: u8 = 0;
        let mut i: usize = 0;
        while i < diggers
            invariant
                0 <= i <= diggers,
                worst as int == self.worst_rank(i as nat, 0),
            decreases diggers - i,
        {
            let here: u8 = match self.damage(MachineRef::Digger(i)) {
                Damage::Sound => 0,
                Damage::Dented => 1,
                Damage::Buckled => 2,
                Damage::Wrecked => 3,
            };
            if here > worst {
                worst = here;
            }
            i = i + 1;
        }
        let mut j: usize = 0;
        while j < fliers
            invariant
                0 <= j <= fliers,
                worst as int == self.worst_rank(diggers as nat, j as nat),
            decreases fliers - j,
        {
            let here: u8 = match self.damage(MachineRef::Flier(j)) {
                Damage::Sound => 0,
                Damage::Dented => 1,
                Damage::Buckled => 2,
                Damage::Wrecked => 3,
            };
            if here > worst {
                worst = here;
            }
            j = j + 1;
        }
        if worst <= 1 {
            None
        } else if worst == 2 {
            Some("A MACHINE IS BUCKLED - PATCH IT".to_owned())
        } else {
            Some("A MACHINE IS DOWN - GO AND GET IT".to_owned())
        }
    }
}

/// A multiplication that stops at the top rather than wrapping.
fn saturating_mul_u32(x: u32, y: u32) -> (r: u32)
    ensures
        r == if x * y > u32::MAX {
            u32::MAX as int
        } else {
            x * y
        },
{
    match x.checked_mul(y) {
        Some(v) => v,
        None => u32::MAX,
    }
}

/// What a dive `depth` blocks into rock costs, in hull: nothing for a clean
/// pass, quadratic below it, and scrap rather than an overflow at the far end.
pub fn impact(depth: i32) -> (cost: u32)
    ensures
        cost == if depth <= 0 {
            0
        } else if IMPACT_PER_BLOCK * depth * depth > u32::MAX {
            u32::MAX as int
        } else {
            IMPACT_PER_BLOCK * depth * depth
        },
{
    let d: u32 = if depth > 0 { depth as u32 } else { 0 };
    let once = saturating_mul_u32(IMPACT_PER_BLOCK, d);
    let twice = saturating_mul_u32(once, d);
    proof {
        if depth > 0 && IMPACT_PER_BLOCK * d > u32::MAX {
            assert(IMPACT_PER_BLOCK * d * d >= IMPACT_PER_BLOCK * d) by (nonlinear_arith)
                requires
                    d >= 1,
            ;
            assert(u32::MAX * d >= u32::MAX) by (nonlinear_arith)
                requires
                    d >= 1,
            ;
        }
    }
    twice
}

/// One row of `integrity.dat`: the machine's kind, its index, and what it took.
pub open spec fn hull_row_bytes(r: ((i64, i64), u32)) -> Seq<u8> {
    seq![r.0.0 as u8] + u32_bytes(r.0.1 as u32) + u32_bytes(r.1)
}

/// Rows of `integrity.dat`, one after another.
pub open spec fn hull_rows_bytes(rows: Seq<((i64, i64), u32)>) -> Seq<u8>
    decreases rows.len(),
{
    if rows.len() == 0 {
        Seq::empty()
    } else {
        hull_rows_bytes(rows.drop_last()) + hull_row_bytes(rows.last())
    }
}

/// The whole of `integrity.dat` for a ledger's rows.
pub open spec fn integrity_bytes(rows: Seq<((i64, i64), u32)>) -> Seq<u8> {
    MAGIC@ + u32_bytes(VERSION) + u32_bytes(rows.len() as u32) + hull_rows_bytes(rows)
}

/// The row standing at `at`.
pub open spec fn hull_row_at(s: Seq<u8>, at: int) -> Option<((i64, i64), u32)> {
    match (u8_at(s, at), u32_at(s, at + 1), u32_at(s, at + 5)) {
        (Some((kind, _)), Some((index, _)), Some((taken, _))) => Some(
            ((kind as i64, index as i64), taken),
        ),
        _ => None,
    }
}

/// The `n` rows standing from `at`, nine bytes each.
pub open spec fn hull_rows_at(s: Seq<u8>, at: int, n: nat) -> Option<Seq<((i64, i64), u32)>>
    decreases n,
{
    if n == 0 {
        Some(Seq::empty())
    } else {
        match (hull_rows_at(s, at, (n - 1) as nat), hull_row_at(s, at + 9 * (n - 1))) {
            (Some(rows), Some(row)) => Some(rows.push(row)),
            _ => None,
        }
    }
}

/// What a file holds, read as `integrity.dat`: its rows in file order, or
/// nothing for a file that is not one, is another version, or stops early.
pub open spec fn parse_integrity(s: Seq<u8>) -> Option<Seq<((i64, i64), u32)>> {
    if stands_at(s, 0, MAGIC@) && u32_at(s, 4) == Some((VERSION, 8int)) {
        match u32_at(s, 8) {
            Some((n, _)) => hull_rows_at(s, 12, n as nat),
            None => None,
        }
    } else {
        None
    }
}

/// A row that will not read spoils every longer run of rows.
proof fn lemma_hull_rows_stop(s: Seq<u8>, at: int, i: nat, n: nat)
    requires
        i < n,
        hull_rows_at(s, at, (i + 1) as nat) is None,
    ensures
        hull_rows_at(s, at, n) is None,
    decreases n - i,
{
    if n > i + 1 {
        lemma_hull_rows_stop(s, at, i, (n - 1) as nat);
    }
}

proof fn lemma_hull_rows_len(rows: Seq<((i64, i64), u32)>)
    ensures
        hull_rows_bytes(rows).len() == 9 * rows.len(),
    decreases rows.len(),
{
    if rows.len() > 0 {
        lemma_hull_rows_len(rows.drop_last());
        lemma_u32_bytes_len(rows.last().0.1 as u32);
        lemma_u32_bytes_len(rows.last().1);
    }
}

proof fn lemma_hull_rows_round_trip(s: Seq<u8>, at: int, rows: Seq<((i64, i64), u32)>)
    requires
        stands_at(s, at, hull_rows_bytes(rows)),
        keys_in_range(rows),
    ensures
        hull_rows_at(s, at, rows.len()) == Some(rows),
    decreases rows.len(),
{
    if rows.len() > 0 {
        let front = rows.drop_last();
        let row = rows.last();
        lemma_hull_rows_len(front);
        lemma_u32_bytes_len(row.0.1 as u32);
        lemma_u32_bytes_len(row.1);
        let whole = hull_rows_bytes(rows);
        assert(whole == hull_rows_bytes(front) + hull_row_bytes(row));
        assert(s.subrange(at, at + hull_rows_bytes(front).len()) =~= whole.subrange(
            0,
            hull_rows_bytes(front).len() as int,
        ));
        assert(whole.subrange(0, hull_rows_bytes(front).len() as int) =~= hull_rows_bytes(front));
        assert(s.subrange(at, at + hull_rows_bytes(front).len()) =~= s.subrange(at, at + whole.len()).subrange(
            0,
            hull_rows_bytes(front).len() as int,
        ));
        assert(stands_at(s, at, hull_rows_bytes(front)));
        assert forall|i: int| 0 <= i < front.len() implies 0 <= #[trigger] front[i].0.0 <= 255
            && 0 <= front[i].0.1 <= u32::MAX by {
            assert(front[i] == rows[i]);
        }
        lemma_hull_rows_round_trip(s, at, front);
        let q: int = 9 * front.len() as int;
        let p = at + q;
        assert(rows[rows.len() - 1] == row);
        assert(s[p] == row.0.0 as u8) by {
            assert(whole[q] == hull_row_bytes(row)[0]);
            assert(s[p] == s.subrange(at, at + whole.len())[q]);
        }
        assert(stands_at(s, p + 1, u32_bytes(row.0.1 as u32))) by {
            assert(s.subrange(p + 1, p + 5) =~= whole.subrange(q + 1, q + 5));
            assert(whole.subrange(q + 1, q + 5) =~= u32_bytes(row.0.1 as u32));
        }
        assert(stands_at(s, p + 5, u32_bytes(row.1))) by {
            assert(s.subrange(p + 5, p + 9) =~= whole.subrange(q + 5, q + 9));
            assert(whole.subrange(q + 5, q + 9) =~= u32_bytes(row.1));
        }
        lemma_u32_round_trip(s, p + 1, row.0.1 as u32);
        lemma_u32_round_trip(s, p + 5, row.1);
        assert(rows.len() - 1 == front.len());
        assert(front.push(row) =~= rows);
    }
}

/// **The ledger round-trips.** What `integrity.dat` is written as reads back
/// as the same rows, for any ledger a machine could have produced.
pub proof fn lemma_integrity_round_trip(rows: Seq<((i64, i64), u32)>)
    requires
        keys_in_range(rows),
        rows.len() <= u32::MAX,
    ensures
        parse_integrity(integrity_bytes(rows)) == Some(rows),
{
    let s = integrity_bytes(rows);
    lemma_u32_bytes_len(VERSION);
    lemma_u32_bytes_len(rows.len() as u32);
    let head = MAGIC@ + u32_bytes(VERSION) + u32_bytes(rows.len() as u32);
    assert(s == head + hull_rows_bytes(rows));
    assert(s.subrange(0, 4) =~= MAGIC@);
    assert(s.subrange(4, 8) =~= u32_bytes(VERSION));
    assert(s.subrange(8, 12) =~= u32_bytes(rows.len() as u32));
    lemma_u32_round_trip(s, 4, VERSION);
    lemma_u32_round_trip(s, 8, rows.len() as u32);
    lemma_stands_at_end(head, hull_rows_bytes(rows));
    lemma_hull_rows_round_trip(s, 12, rows);
}

impl Integrity {
    /// Write the ledger the way `integrity.dat` holds it.
    pub fn save(&self) -> (bytes: Vec<u8>)
        requires
            self@.len() <= u32::MAX,
        ensures
            bytes@ == integrity_bytes(self@),
            sorted_keys(self@),
            parse_integrity(bytes@) == Some(self@),
    {
        proof {
            use_type_invariant(self);
            lemma_integrity_round_trip(self@);
        }
        self.taken.note_order();
        let mut out: Vec<u8> = Vec::new();
        put_tag(&mut out, &MAGIC);
        put_u32(&mut out, VERSION);
        let rows = self.taken.rows();
        put_u32(&mut out, rows.len() as u32);
        let ghost head = out@;
        let mut i: usize = 0;
        while i < rows.len()
            invariant
                0 <= i <= rows@.len(),
                rows@ == self@,
                keys_in_range(self@),
                out@ == head + hull_rows_bytes(rows@.take(i as int)),
            decreases rows@.len() - i,
        {
            let row = rows[i];
            proof {
                assert(rows@.take(i + 1).drop_last() =~= rows@.take(i as int));
                assert(rows@.take(i + 1).last() == rows@[i as int]);
            }
            put_u8(&mut out, row.0.0 as u8);
            put_u32(&mut out, row.0.1 as u32);
            put_u32(&mut out, row.1);
            i = i + 1;
            assert(out@ =~= head + hull_rows_bytes(rows@.take(i as int)));
        }
        assert(rows@.take(i as int) =~= self@);
        out
    }

    /// Read `integrity.dat`: a ledger whose every machine has taken what the
    /// last row naming it says, or nothing for a file that does not parse.
    pub fn read(s: &[u8]) -> (r: Option<Integrity>)
        ensures
            r is None <==> parse_integrity(s@) is None,
            r matches Some(x) ==> forall|k: (i64, i64)|
                #![trigger value_in(x@, k)]
                value_in(x@, k) == value_in(parse_integrity(s@).unwrap(), k),
            r matches Some(x) ==> (sorted_keys(parse_integrity(s@).unwrap()) ==> x@
                == parse_integrity(s@).unwrap()),
    {
        if !tag_at(s, 0, &MAGIC) {
            return None;
        }
        match read_u32(s, 4) {
            Some((v, _)) => if v != VERSION {
                return None;
            },
            None => return None,
        }
        let n = match read_u32(s, 8) {
            Some((n, _)) => n,
            None => return None,
        };
        let mut ledger: Ledger<u32> = Ledger::new();
        let mut at: usize = 12;
        let mut i: u32 = 0;
        let ghost mut rows: Seq<((i64, i64), u32)> = Seq::empty();
        while i < n
            invariant
                0 <= i <= n,
                stands_at(s@, 0, MAGIC@),
                u32_at(s@, 4) == Some((VERSION, 8int)),
                u32_at(s@, 8) == Some((n, 12int)),
                at == 12 + 9 * i,
                at <= s@.len() || i == 0,
                hull_rows_at(s@, 12, i as nat) == Some(rows),
                keys_in_range(ledger@),
                forall|k: (i64, i64)| #[trigger] value_in(ledger@, k) == value_in(rows, k),
                sorted_keys(rows) ==> ledger@ == rows,
            decreases n - i,
        {
            let kind = match read_u8(s, at) {
                Some((k, _)) => k,
                None => {
                    proof {
                        assert(hull_row_at(s@, 12 + 9 * i) is None);
                        assert(hull_rows_at(s@, 12, (i + 1) as nat) is None);
                        lemma_hull_rows_stop(s@, 12, i as nat, n as nat);
                    }
                    return None;
                },
            };
            let index = match read_u32(s, at + 1) {
                Some((x, _)) => x,
                None => {
                    proof {
                        assert(hull_row_at(s@, 12 + 9 * i) is None);
                        assert(hull_rows_at(s@, 12, (i + 1) as nat) is None);
                        lemma_hull_rows_stop(s@, 12, i as nat, n as nat);
                    }
                    return None;
                },
            };
            let taken = match read_u32(s, at + 5) {
                Some((x, _)) => x,
                None => {
                    proof {
                        assert(hull_row_at(s@, 12 + 9 * i) is None);
                        assert(hull_rows_at(s@, 12, (i + 1) as nat) is None);
                        lemma_hull_rows_stop(s@, 12, i as nat, n as nat);
                    }
                    return None;
                },
            };
            let k = (kind as i64, index as i64);
            let ghost prior = ledger@;
            ledger.insert(k, taken);
            ledger.note_order();
            proof {
                let row = (k, taken);
                assert(hull_row_at(s@, 12 + 9 * i) == Some(row));
                let grown = rows.push(row);
                assert(hull_rows_at(s@, 12, (i + 1) as nat) == Some(grown));
                assert forall|kk: (i64, i64)| #[trigger] value_in(ledger@, kk) == value_in(grown, kk) by {
                    assert(ledger.value(kk) == value_in(ledger@, kk));
                    assert(grown.drop_last() =~= rows);
                }
                assert forall|t: int| 0 <= t < ledger@.len() implies 0 <= #[trigger] ledger@[t].0.0
                    <= 255 && 0 <= ledger@[t].0.1 <= u32::MAX by {
                    lemma_value_at(ledger@, t);
                    assert(ledger.value(ledger@[t].0) == value_in(ledger@, ledger@[t].0));
                    if ledger@[t].0 != k {
                        crate::ledger::lemma_value_found(prior, ledger@[t].0);
                    }
                }
                if sorted_keys(grown) {
                    assert forall|a: int, b: int| 0 <= a < b < rows.len() implies #[trigger] key_lt(
                        rows[a].0,
                        rows[b].0,
                    ) by {
                        assert(rows[a] == grown[a] && rows[b] == grown[b]);
                    }
                    assert forall|t: int| 0 <= t < prior.len() implies #[trigger] key_lt(prior[t].0, k) by {
                        assert(prior[t] == grown[t]);
                        assert(grown[rows.len() as int] == row);
                    }
                    assert(ledger@ == prior.push(row));
                }
                rows = grown;
            }
            at = at + 9;
            i = i + 1;
        }
        let back = Integrity { taken: ledger };
        Some(back)
    }

    /// Every ledger keys only machines, each once, in key order.
    pub fn note_well_kept(&self)
        ensures
            keys_in_range(self@),
            sorted_keys(self@),
    {
        proof {
            use_type_invariant(self);
        }
        self.taken.note_order();
    }

    /// Take what a saved ledger says, tolerating absence and damage: no file
    /// leaves the ledger as it is; a damaged one resets it to a fleet that has
    /// never been knocked about, and the damage is reported so the caller can
    /// say so.
    pub fn load(&mut self, file: Option<&[u8]>) -> (damaged: bool)
        ensures
            damaged <==> (file matches Some(s) && parse_integrity(s@) is None),
            hull_loaded(old(self)@, final(self)@, file_view(file)),
    {
        match file {
            None => false,
            Some(s) => match Integrity::read(s) {
                Some(back) => {
                    *self = back;
                    false
                },
                None => {
                    *self = Integrity::new();
                    true
                },
            },
        }
    }
}

/// What loading a saved hull ledger makes of one: no file leaves it as it
/// was; a damaged one is a fleet that has never been knocked about, an empty
/// ledger; a file that reads gives every machine what the last row naming it
/// says, and exactly the rows when they are in key order.
pub open spec fn hull_loaded(before: Seq<((i64, i64), u32)>, after: Seq<((i64, i64), u32)>, file: Option<Seq<u8>>) -> bool {
    match file {
        None => after == before,
        Some(s) => match parse_integrity(s) {
            None => after.len() == 0,
            Some(rows) => (forall|k: (i64, i64)| #![trigger value_in(after, k)] value_in(after, k) == value_in(rows, k))
                && (sorted_keys(rows) ==> after == rows),
        },
    }
}

/// **The hull ledger round-trips.** Loading what a ledger was saved as, into
/// any ledger, gives back the ledger that was saved.
pub proof fn lemma_the_ledger_round_trips(
    saved: Seq<((i64, i64), u32)>,
    before: Seq<((i64, i64), u32)>,
    after: Seq<((i64, i64), u32)>,
)
    requires
        keys_in_range(saved),
        sorted_keys(saved),
        saved.len() <= u32::MAX,
        hull_loaded(before, after, Some(integrity_bytes(saved))),
    ensures
        after == saved,
{
    lemma_integrity_round_trip(saved);
}

} // verus!
