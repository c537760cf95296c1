//! The execution budget.

use vstd::prelude::*;

verus! {

/// The execution budget of one invocation.
///
/// Fuel is **one budget per invocation, shared across nesting**: a sub-evaluation
/// started by `GETPARAM` draws from the same budget as its caller. A budget per
/// sub-evaluation would let a program compose arbitrarily many of them, each under
/// the limit, and evade the bound entirely.
///
/// The nesting depth travels here for the same reason the fuel does: it is the
/// other quantity that a nested evaluation shares with its caller, and a host call
/// threads exactly one value through.
#[derive(Debug)]
pub struct Fuel {
    /// Units left to spend.
    pub remaining: u32,
    /// How many host calls enclose the current evaluation.
    pub depth: u16,
}

impl Fuel {
    /// This budget after paying `cost` units.
    pub open spec fn spent(self, cost: int) -> Fuel {
        Fuel { remaining: (self.remaining - cost) as u32, ..self }
    }

    /// This budget as a host call made from here sees it: one level deeper.
    pub open spec fn nested(self) -> Fuel {
        Fuel { depth: (self.depth + 1) as u16, ..self }
    }

    /// A budget of `limit` fuel units at nesting depth zero.
    pub fn new(limit: u32) -> (fuel: Self)
        ensures
            fuel == (Fuel { remaining: limit, depth: 0 }),
    {
        Self { remaining: limit, depth: 0 }
    }

    /// Deducts `cost`, reporting whether the budget covered it. A budget that
    /// does not is left as it was.
    pub fn charge(&mut self, cost: u8) -> (covered: bool)
        ensures
            covered <==> cost <= old(self).remaining,
            covered ==> *final(self) == old(self).spent(cost as int),
            covered ==> final(self).remaining == old(self).remaining - cost,
            final(self).depth == old(self).depth,
            !covered ==> *final(self) == *old(self),
    {
        match self.remaining.checked_sub(cost as u32) {
            Some(rest) => {
                self.remaining = rest;
                true
            },
            None => false,
        }
    }
}

} // verus!
