use vx_app::payroll::{best_counter, quote, Counter, Quote, Rate, Site, TICKS_PER_HOUR};
use vx_app::stockpile::Stockpile;

fn ore(count: u64) -> Stockpile {
    let mut pile = Stockpile::new();
    pile.add("engine:copper_ore", count);
    pile
}

fn counter(till: u64, copper: u64) -> Counter {
    Counter {
        till,
        rates: vec![("engine:copper_ore".to_string(), copper), ("engine:stone".to_string(), 1)],
    }
}

/// A small frontier: a rich town with poor prices, a refinery with good
/// prices and an empty till, and two in between.
fn frontier() -> Vec<Site> {
    vec![
        Site { centre: (0, 0), counter: counter(10_000, 4) },
        Site { centre: (300, -120), counter: counter(30, 9) },
        Site { centre: (-450, 80), counter: counter(2_000, 6) },
        Site { centre: (90, 600), counter: counter(300, 7) },
    ]
}

#[test]
fn a_rate_is_blocks_an_hour_and_says_nothing_before_it_knows() {
    let mut rate = Rate::default();
    assert_eq!(rate.per_hour(), None, "a rate spoke before it measured");
    rate.record(60, TICKS_PER_HOUR / 4);
    assert_eq!(rate.per_hour(), Some(240));
    rate.record(u64::MAX, 1);
    assert!(rate.per_hour().is_some());
}

#[test]
fn a_counter_short_of_money_says_so() {
    let hoard = ore(100_000);
    let here = counter(5_000, 4);
    let quoted = quote(&hoard, &here);
    assert!(quoted.short(), "an enormous pile did not outgrow the till");
    assert!(quoted.paid < quoted.worth);
    assert_eq!(quoted.worth, 400_000);
    assert_eq!(quoted.paid, here.till);
}

#[test]
fn the_best_counter_is_the_one_that_can_pay() {
    let sites = frontier();
    let pile = ore(60);
    let (best, best_quote) = best_counter(&pile, &sites).expect("no counter at all");
    for site in &sites {
        let theirs = quote(&pile, &site.counter);
        assert!(
            theirs.paid <= best_quote.paid,
            "{:?} would pay {} but {:?} was picked at {}",
            site.centre,
            theirs.paid,
            sites[best].centre,
            best_quote.paid
        );
    }
    // The refinery quotes best and pays least; the town that can settle up wins.
    assert_eq!(sites[best].centre, (-450, 80));
    assert_eq!(best_quote, Quote { worth: 360, paid: 360 });

    // Drain the winner and it stops being the answer.
    let mut drained = frontier();
    drained[best].counter.till = 0;
    let (after, _) = best_counter(&pile, &drained).expect("no counter after draining one");
    assert_ne!(drained[after].centre, sites[best].centre, "an emptied counter was still the best place to sell");
}

#[test]
fn the_best_counter_is_the_same_answer_every_time() {
    let sites = frontier();
    let pile = ore(60);
    assert_eq!(best_counter(&pile, &sites), best_counter(&pile, &sites));
}

#[test]
fn no_counter_anywhere_is_no_answer() {
    assert_eq!(best_counter(&ore(10), &[]), None);
}

#[test]
fn a_good_the_counter_does_not_list_is_worth_nothing_there() {
    let mut pile = Stockpile::new();
    pile.add("engine:leaves", 50);
    let quoted = quote(&pile, &counter(1_000, 4));
    assert_eq!(quoted, Quote { worth: 0, paid: 0 });
    assert!(!quoted.short());
}

#[test]
fn the_till_pays_whole_units_and_keeps_the_change() {
    // Seven a block, a till of twenty: two blocks' worth is all it can pay.
    let quoted = quote(&ore(5), &counter(20, 7));
    assert_eq!(quoted, Quote { worth: 35, paid: 14 });
    assert!(quoted.short());
}

#[test]
fn the_first_rate_a_counter_lists_is_the_one_it_pays() {
    let c = Counter {
        till: 100,
        rates: vec![("engine:log".to_string(), 3), ("engine:log".to_string(), 9)],
    };
    assert_eq!(c.rate(&"engine:log".to_string()), Some(3));
    assert_eq!(c.rate(&"engine:stone".to_string()), None);
}

#[test]
fn a_rate_saturates_rather_than_wrapping() {
    let mut rate = Rate { blocks: u64::MAX - 1, ticks: 5 };
    rate.record(10, u64::MAX);
    assert_eq!(rate, Rate { blocks: u64::MAX, ticks: u64::MAX });
    assert_eq!(rate.per_hour(), Some(1));
}

#[test]
fn the_payroll_lines_quote_the_crew_the_pile_and_the_counter() {
    let pile = ore(40);
    let idle = Rate::default();
    let lines = vx_app::payroll::lines(3, &idle, &pile, None);
    assert_eq!(lines, vec!["CREW 3 - NOT WORKING", "PILE 40 GOODS", "HERE NO COUNTER"]);

    let working = Rate { blocks: 10, ticks: TICKS_PER_HOUR };
    let short = Quote { worth: 500, paid: 120 };
    let lines = vx_app::payroll::lines(2, &working, &pile, Some(short));
    assert_eq!(lines[0], "CREW 2 - 10 BLOCKS/HR");
    assert_eq!(lines[2], "HERE 500 CR - THIS COUNTER CAN PAY 120");

    let flush = Quote { worth: 500, paid: 500 };
    assert_eq!(vx_app::payroll::lines(2, &working, &pile, Some(flush))[2], "HERE 500 CR");
}
