//! What the operation is worth: the numbers behind "maximum credits".
//!
//! Three questions: what is the crew earning (blocks an hour), what is this
//! pile worth, and where is it worth most. The last has two halves: which
//! counter pays the best rate, and which counter has the money, because a
//! town pays out of a till that only its own trade refills.
//!
//! Everything here is arithmetic over what the caller hands in, so every
//! readout quotes the same figures, and the figure a player is shown is the
//! figure the till pays.
use vstd::prelude::*;

use crate::pack::saturating_mul_u64;
use crate::stockpile::{capped, rows_view, Stockpile};
use crate::text::{decimal, push_decimal};

verus! {

/// What one counter would give you for a pile, and what it can actually pay.
#[derive(Debug, Clone, Copy, PartialEq, Eq, Structural)]
pub struct Quote {
    /// What the whole pile is worth at this counter's prices.
    pub worth: u64,
    /// What this counter can pay today, which is `worth` capped by its till.
    pub paid: u64,
}

impl Quote {
    /// Is the counter short of money for what you are carrying?
    pub fn short(&self) -> (s: bool)
        ensures
            s == (self.paid < self.worth),
    {
        self.paid < self.worth
    }
}

/// A counter as a seller meets it: the money in its till, and what it pays
/// for one of each good it deals in, at the seller's standing. A good it does
/// not list, it does not buy.
#[derive(Debug, Clone)]
pub struct Counter {
    pub till: u64,
    pub rates: Vec<(String, u64)>,
}

/// What a counter pays for one of `name`, by the first entry that names it.
pub open spec fn rate_in(rates: Seq<(Seq<char>, u64)>, name: Seq<char>) -> Option<u64>
    decreases rates.len(),
{
    if rates.len() == 0 {
        None
    } else {
        match rate_in(rates.drop_last(), name) {
            Some(r) => Some(r),
            None => if rates.last().0 == name {
                Some(rates.last().1)
            } else {
                None
            },
        }
    }
}

/// One stack sold down the shelf: the stack's worth adds to the total, and the
/// till pays for as many whole units as it still can.
pub open spec fn sell_step(state: (u64, u64, u64), count: u64, rate: u64) -> (u64, u64, u64) {
    let (worth, paid, till) = state;
    let affordable: int = if rate == 0 {
        0
    } else if count <= till / rate {
        count as int
    } else {
        (till / rate) as int
    };
    let taken = affordable * rate;
    (capped(worth + capped(count * rate)), capped(paid + taken), (till - taken) as u64)
}

/// Worth, paid and what is left in the till, after the shelf has been walked
/// over these stacks in order.
pub open spec fn sell_down(rows: Seq<(Seq<char>, u64)>, rates: Seq<(Seq<char>, u64)>, till: u64) -> (
    u64,
    u64,
    u64,
)
    decreases rows.len(),
{
    if rows.len() == 0 {
        (0, 0, till)
    } else {
        let before = sell_down(rows.drop_last(), rates, till);
        match rate_in(rates, rows.last().0) {
            None => before,
            Some(rate) => sell_step(before, rows.last().1, rate),
        }
    }
}

/// What a counter's rates are, by name.
pub open spec fn rates_of(c: Counter) -> Seq<(Seq<char>, u64)> {
    rows_view(c.rates@)
}

/// What a pile fetches at one counter.
pub open spec fn quote_of(pile: Seq<(Seq<char>, u64)>, c: Counter) -> Quote {
    let sold = sell_down(pile, rates_of(c), c.till);
    Quote { worth: sold.0, paid: sold.1 }
}

impl Counter {
    /// What this counter pays for one of `name`, if it buys it at all.
    pub fn rate(&self, name: &String) -> (r: Option<u64>)
        ensures
            r == rate_in(rates_of(*self), name@),
    {
        let ghost rates = rates_of(*self);
        let mut found: Option<u64> = None;
        let mut i: usize = 0;
        while i < self.rates.len()
            invariant
                i <= self.rates.len(),
                rates == rates_of(*self),
                rates.len() == self.rates.len(),
                found == rate_in(rates.subrange(0, i as int), name@),
            decreases self.rates.len() - i,
        {
            proof {
                assert(rates.subrange(0, i + 1).drop_last() =~= rates.subrange(0, i as int));
            }
            if found.is_none() && self.rates[i].0 == *name {
                found = Some(self.rates[i].1);
            }
            i = i + 1;
        }
        proof {
            assert(rates.subrange(0, i as int) =~= rates);
        }
        found
    }
}

/// What a pile fetches at one counter: its worth at the counter's prices, and
/// what the till pays walking the stacks in the order the shelf sells them,
/// drawing down as it goes.
pub fn quote(pile: &Stockpile, counter: &Counter) -> (q: Quote)
    ensures
        q == quote_of(pile@, *counter),
{
    let rows = pile.entries();
    let ghost goods = pile@;
    let mut worth: u64 = 0;
    let mut paid: u64 = 0;
    let mut till: u64 = counter.till;
    let mut i: usize = 0;
    while i < rows.len()
        invariant
            i <= rows.len(),
            rows_view(rows@) == goods,
            (worth, paid, till) == sell_down(goods.subrange(0, i as int), rates_of(*counter), counter.till),
        decreases rows.len() - i,
    {
        proof {
            assert(goods.subrange(0, i + 1).drop_last() =~= goods.subrange(0, i as int));
            assert(goods[i as int] == (rows@[i as int].0@, rows@[i as int].1));
        }
        let count = rows[i].1;
        match counter.rate(&rows[i].0) {
            None => {},
            Some(rate) => {
                worth = worth.saturating_add(saturating_mul_u64(count, rate));
                let affordable = if rate == 0 {
                    0
                } else if count <= till / rate {
                    count
                } else {
                    till / rate
                };
                proof {
                    if rate > 0 {
                        assert(affordable * rate <= till) by (nonlinear_arith)
                            requires
                                affordable <= till / rate,
                                rate > 0,
                        ;
                    }
                }
                let taken = affordable * rate;
                paid = paid.saturating_add(taken);
                till = till - taken;
            },
        }
        i = i + 1;
    }
    proof {
        assert(goods.subrange(0, i as int) =~= goods);
    }
    Quote { worth, paid }
}

/// What a counter pays never comes from anywhere but its till: what it pays
/// and what is left in it add up to what was there, and it never pays more
/// than the pile is worth.
pub proof fn lemma_a_counter_pays_out_of_its_till(
    rows: Seq<(Seq<char>, u64)>,
    rates: Seq<(Seq<char>, u64)>,
    till: u64,
)
    ensures
        sell_down(rows, rates, till).1 + sell_down(rows, rates, till).2 == till,
        sell_down(rows, rates, till).1 <= sell_down(rows, rates, till).0,
    decreases rows.len(),
{
    if rows.len() > 0 {
        lemma_a_counter_pays_out_of_its_till(rows.drop_last(), rates, till);
        let before = sell_down(rows.drop_last(), rates, till);
        match rate_in(rates, rows.last().0) {
            None => {},
            Some(rate) => {
                let count = rows.last().1;
                if rate > 0 {
                    let affordable: int = if count <= before.2 / rate {
                        count as int
                    } else {
                        (before.2 / rate) as int
                    };
                    assert(affordable * rate <= before.2) by (nonlinear_arith)
                        requires
                            affordable <= before.2 / rate,
                            rate > 0,
                            before.2 >= 0,
                    ;
                    assert(affordable * rate <= count * rate) by (nonlinear_arith)
                        requires
                            affordable <= count,
                            rate > 0,
                    ;
                }
            },
        }
    }
}

/// A counter where a pile might be sold, by where its town stands.
#[derive(Debug)]
pub struct Site {
    pub centre: (i32, i32),
    pub counter: Counter,
}

/// How counters are ranked for a pile: what they actually pay first, then
/// what the pile is worth there, then the town's coordinates, so the answer
/// is the same every run.
pub open spec fn rank_of(q: Quote, centre: (i32, i32)) -> (int, int, int, int) {
    (q.paid as int, q.worth as int, centre.0 as int, centre.1 as int)
}

/// Whether one rank is below another, reading left to right.
pub open spec fn rank_lt(a: (int, int, int, int), b: (int, int, int, int)) -> bool {
    a.0 < b.0 || (a.0 == b.0 && (a.1 < b.1 || (a.1 == b.1 && (a.2 < b.2 || (a.2 == b.2 && a.3
        < b.3)))))
}

/// A site's rank for a pile.
pub open spec fn site_rank(pile: Seq<(Seq<char>, u64)>, s: Site) -> (int, int, int, int) {
    rank_of(quote_of(pile, s.counter), s.centre)
}

/// The best counter for a pile among `sites`, and what it would pay: ranked on
/// what is actually paid, not on the sticker price. Among sites that rank the
/// same, the last one listed.
pub fn best_counter(pile: &Stockpile, sites: &[Site]) -> (best: Option<(usize, Quote)>)
    ensures
        best is None <==> sites@.len() == 0,
        best matches Some((k, q)) ==> {
            &&& k < sites@.len()
            &&& q == quote_of(pile@, sites@[k as int].counter)
            &&& forall|j: int| 0 <= j < sites@.len() ==> !rank_lt(
                site_rank(pile@, sites@[k as int]),
                #[trigger] site_rank(pile@, sites@[j]),
            )
            &&& forall|j: int| k < j < sites@.len() ==> rank_lt(
                #[trigger] site_rank(pile@, sites@[j]),
                site_rank(pile@, sites@[k as int]),
            )
        },
{
    if sites.len() == 0 {
        return None;
    }
    let mut k: usize = 0;
    let mut kq = quote(pile, &sites[0].counter);
    let mut i: usize = 1;
    while i < sites.len()
        invariant
            1 <= i <= sites@.len(),
            k < i,
            kq == quote_of(pile@, sites@[k as int].counter),
            forall|j: int| 0 <= j < i ==> !rank_lt(
                site_rank(pile@, sites@[k as int]),
                #[trigger] site_rank(pile@, sites@[j]),
            ),
            forall|j: int| k < j < i ==> rank_lt(
                #[trigger] site_rank(pile@, sites@[j]),
                site_rank(pile@, sites@[k as int]),
            ),
        decreases sites@.len() - i,
    {
        let q = quote(pile, &sites[i].counter);
        let (c, kc) = (sites[i].centre, sites[k].centre);
        let below = q.paid < kq.paid || (q.paid == kq.paid && (q.worth < kq.worth || (q.worth
            == kq.worth && (c.0 < kc.0 || (c.0 == kc.0 && c.1 < kc.1)))));
        if !below {
            k = i;
            kq = q;
        }
        i = i + 1;
    }
    Some((k, kq))
}

/// What a crew has been cutting, over a window: blocks and the ticks they took.
#[derive(Debug, Clone, Copy, PartialEq, Eq, Structural)]
pub struct Rate {
    pub blocks: u64,
    pub ticks: u64,
}

impl Default for Rate {
    fn default() -> (r: Rate)
        ensures
            r == (Rate { blocks: 0, ticks: 0 }),
    {
        Rate { blocks: 0, ticks: 0 }
    }
}

/// Journal ticks in an hour of game time. The journal runs at eight a second.
pub const TICKS_PER_HOUR: u64 = 8 * 60 * 60;

impl Rate {
    /// Blocks an hour at the rate so far, or nothing before any time is on
    /// the clock.
    pub open spec fn per_hour_spec(&self) -> Option<u64> {
        if self.ticks == 0 {
            None
        } else {
            Some((capped(self.blocks * TICKS_PER_HOUR) / self.ticks) as u64)
        }
    }

    /// Add a slice of work; the counts stick at their ceiling rather than wrap.
    pub fn record(&mut self, blocks: u64, ticks: u64)
        ensures
            final(self).blocks == capped(old(self).blocks + blocks),
            final(self).ticks == capped(old(self).ticks + ticks),
    {
        self.blocks = self.blocks.saturating_add(blocks);
        self.ticks = self.ticks.saturating_add(ticks);
    }

    /// Blocks an hour, or `None` before anything has been measured: "no crew
    /// has worked yet" is not "the crew is achieving nothing".
    pub fn per_hour(&self) -> (h: Option<u64>)
        ensures
            h == self.per_hour_spec(),
            self.ticks == 0 ==> h is None,
            self.ticks > 0 ==> h == Some((capped(self.blocks * TICKS_PER_HOUR) / self.ticks) as u64),
    {
        if self.ticks == 0 {
            return None;
        }
        Some(saturating_mul_u64(self.blocks, TICKS_PER_HOUR) / self.ticks)
    }
}

/// The crew's line: how many, and what they dig an hour, or that they are
/// not working.
pub open spec fn crew_line(crew: u32, hourly: Option<u64>) -> Seq<char> {
    match hourly {
        Some(h) => "CREW "@ + decimal(crew as nat) + " - "@ + decimal(h as nat) + " BLOCKS/HR"@,
        None => "CREW "@ + decimal(crew as nat) + " - NOT WORKING"@,
    }
}

/// The counter's line: what the pile is worth here and, when the till is
/// short, what this counter can actually pay; or that there is no counter.
pub open spec fn here_line(here: Option<Quote>) -> Seq<char> {
    match here {
        Some(q) => if q.paid < q.worth {
            "HERE "@ + decimal(q.worth as nat) + " CR - THIS COUNTER CAN PAY "@ + decimal(q.paid as nat)
        } else {
            "HERE "@ + decimal(q.worth as nat) + " CR"@
        },
        None => "HERE NO COUNTER"@,
    }
}

/// The lines the `PAYROLL` verb prints about the crew, the pile and the
/// counter at hand, in that order: the words the game and the played session
/// both quote. (Where the best counter is, and how far, is measured in the
/// open and added after them.)
pub fn lines(crew: u32, rate: &Rate, pile: &Stockpile, here: Option<Quote>) -> (out: Vec<String>)
    ensures
        out@.len() == 3,
        out@[0]@ == crew_line(crew, rate.per_hour_spec()),
        out@[1]@ == "PILE "@ + decimal(capped(pile.sum() as int) as nat) + " GOODS"@,
        out@[2]@ == here_line(here),
{
    proof {
        reveal_strlit("CREW ");
        reveal_strlit(" - ");
        reveal_strlit(" BLOCKS/HR");
        reveal_strlit(" - NOT WORKING");
        reveal_strlit("PILE ");
        reveal_strlit(" GOODS");
        reveal_strlit("HERE ");
        reveal_strlit(" CR - THIS COUNTER CAN PAY ");
        reveal_strlit(" CR");
        reveal_strlit("HERE NO COUNTER");
    }
    let mut out: Vec<String> = Vec::new();
    let mut first = "CREW ".to_owned();
    push_decimal(&mut first, crew as u64);
    match rate.per_hour() {
        Some(hourly) => {
            first.append(" - ");
            push_decimal(&mut first, hourly);
            first.append(" BLOCKS/HR");
        },
        None => {
            first.append(" - NOT WORKING");
        },
    }
    out.push(first);
    let mut second = "PILE ".to_owned();
    push_decimal(&mut second, pile.total());
    second.append(" GOODS");
    out.push(second);
    let third = match here {
        Some(q) => {
            let mut line = "HERE ".to_owned();
            push_decimal(&mut line, q.worth);
            if q.short() {
                line.append(" CR - THIS COUNTER CAN PAY ");
                push_decimal(&mut line, q.paid);
            } else {
                line.append(" CR");
            }
            line
        },
        None => "HERE NO COUNTER".to_owned(),
    };
    out.push(third);
    out
}

/// **Quoting adds up stack by stack.** Putting one more stack on a pile never
/// lowers what the pile is worth at a counter or what the counter pays for
/// it; and a stack of a good the counter does not list leaves the quote
/// exactly as it was, so a pile of goods it does not deal in is worth
/// nothing there.
pub proof fn lemma_quoting_adds_up_stack_by_stack(pile: Seq<(Seq<char>, u64)>, row: (Seq<char>, u64), c: Counter)
    ensures
        quote_of(pile.push(row), c).worth >= quote_of(pile, c).worth,
        quote_of(pile.push(row), c).paid >= quote_of(pile, c).paid,
        rate_in(rates_of(c), row.0) is None ==> quote_of(pile.push(row), c) == quote_of(pile, c),
        (forall|i: int| 0 <= i < pile.len() ==> rate_in(rates_of(c), #[trigger] pile[i].0) is None)
            ==> quote_of(pile, c) == (Quote { worth: 0, paid: 0 }),
    decreases pile.len(),
{
    assert(pile.push(row).drop_last() =~= pile);
    assert(pile.push(row).last() == row);
    if pile.len() > 0 {
        lemma_quoting_adds_up_stack_by_stack(pile.drop_last(), pile.last(), c);
        assert(pile.drop_last().push(pile.last()) =~= pile);
    }
}

} // verus!
