//! Where a broken block goes: on your back, or on the floor.
//!
//! Everything you break is stock, and it goes on you. A full pack does not
//! refuse the swing and does not eat the block: the rock breaks, and what came
//! out of it lies on the floor under where it was cut until you have room.
use vstd::prelude::*;

use crate::drops::{shed_spec, Drops};
use crate::geometry::BlockPos;
use crate::pack::{weight_spec, Pack};
use crate::stockpile::capped;

verus! {

/// What became of a block that came out of the ground.
#[derive(Debug, Clone, PartialEq, Eq)]
pub enum Deposited {
    /// It went on your back, by this name.
    Packed(String),
    /// The pack is full, so it is lying on the floor, waiting for you.
    Dropped(String),
    /// A supply cache pays out its own haul, so the crate itself is nothing.
    Crate,
    /// The registry does not know the block, which is worth reporting rather
    /// than dropping.
    Unknown,
}

/// The line the player sees when the ore has nowhere to go.
pub const NO_BASE: &'static str = "NO BASE PILE. PLACE A CONTAINER.";

/// Take a broken block onto the player's back, or leave it on the floor.
///
/// `name` is what the registry calls the block, if it knows it; `landing` is
/// the cell a drop cut there comes to rest in. A crate yields nothing of
/// itself; an unknown block is reported; otherwise the block goes in the pack
/// if it fits and onto the floor at `landing` if it does not.
pub fn deposit(
    pack: &mut Pack,
    drops: &mut Drops,
    capacity: u64,
    name: Option<&str>,
    landing: BlockPos,
    crate_here: bool,
) -> (d: Deposited)
    ensures
        crate_here ==> (d == Deposited::Crate && final(pack).goods@ == old(pack).goods@ && final(drops)@
            == old(drops)@),
        !crate_here && name is None ==> (d == Deposited::Unknown && final(pack).goods@
            == old(pack).goods@ && final(drops)@ == old(drops)@),
        (!crate_here && name is Some) ==> {
            let n = name.unwrap();
            let fits = capped(old(pack).weight() + weight_spec(n@) as int) <= capacity;
            &&& fits ==> (d matches Deposited::Packed(s) && s@ == n@ && final(drops)@ == old(drops)@
                && forall|k: Seq<char>|
                #![trigger final(pack).goods.count_of(k)]
                final(pack).goods.count_of(k) == if k == n@ {
                    capped((old(pack).goods.count_of(k) + 1) as int) as nat
                } else {
                    old(pack).goods.count_of(k)
                })
            &&& !fits ==> (d matches Deposited::Dropped(s) && s@ == n@ && final(pack).goods@
                == old(pack).goods@ && final(drops)@ == shed_spec(old(drops)@, landing, n@, 1))
        },
{
    if crate_here {
        return Deposited::Crate;
    }
    match name {
        Some(n) => {
            if pack.stow(n, capacity) {
                Deposited::Packed(n.to_owned())
            } else {
                drops.shed(landing, n, 1);
                Deposited::Dropped(n.to_owned())
            }
        },
        None => Deposited::Unknown,
    }
}

} // verus!
