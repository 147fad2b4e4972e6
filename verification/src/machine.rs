//! Which machine: the one identity the wear and hull ledgers both key on.
use vstd::prelude::*;

verus! {

/// A machine in the fleet: a ground drone or a flier by index, or the kestrel.
#[derive(Debug, Clone, Copy, PartialEq, Eq, Structural)]
pub enum MachineRef {
    Digger(usize),
    Flier(usize),
    /// The player's own machine, which runs on its own budget and is in no
    /// ledger at all.
    Kestrel,
}

/// A machine's row in a ledger: its kind and its index, or nothing for the
/// kestrel and for an index past what a ledger can hold.
pub open spec fn key_spec(machine: MachineRef) -> Option<(u8, u32)> {
    match machine {
        MachineRef::Digger(index) => if index <= u32::MAX {
            Some((0u8, index as u32))
        } else {
            None
        },
        MachineRef::Flier(index) => if index <= u32::MAX {
            Some((1u8, index as u32))
        } else {
            None
        },
        MachineRef::Kestrel => None,
    }
}

/// A machine's row in a ledger.
pub fn key(machine: MachineRef) -> (k: Option<(u8, u32)>)
    ensures
        k == key_spec(machine),
{
    match machine {
        MachineRef::Digger(index) => if index <= u32::MAX as usize {
            Some((0u8, index as u32))
        } else {
            None
        },
        MachineRef::Flier(index) => if index <= u32::MAX as usize {
            Some((1u8, index as u32))
        } else {
            None
        },
        MachineRef::Kestrel => None,
    }
}

/// Two different machines never share a row.
pub proof fn lemma_key_distinct(a: MachineRef, b: MachineRef)
    requires
        a != b,
        key_spec(a) is Some,
    ensures
        key_spec(a) != key_spec(b),
{
}

} // verus!
