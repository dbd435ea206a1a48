//! A recorded change of one pirate's odds during a round.

use vstd::prelude::*;

verus! {

/// The name of an arena, by index.
pub open spec fn spec_arena_name(a: int) -> Seq<char> {
    if a == 0 {
        "Shipwreck"@
    } else if a == 1 {
        "Lagoon"@
    } else if a == 2 {
        "Treasure"@
    } else if a == 3 {
        "Hidden"@
    } else {
        "Harpoon"@
    }
}

/// Returns the name of the arena at index `id` (0 through 4).
pub fn arena_name(id: usize) -> (r: &'static str)
    requires
        id < 5,
    ensures
        r@ == spec_arena_name(id as int),
{
    if id == 0 {
        "Shipwreck"
    } else if id == 1 {
        "Lagoon"
    } else if id == 2 {
        "Treasure"
    } else if id == 3 {
        "Hidden"
    } else {
        "Harpoon"
    }
}

/// One odds change: the timestamp text, the odds before and after, and the
/// arena and pirate position it applies to.
#[derive(Debug, Clone)]
pub struct OddsChange {
    pub t: String,
    pub new_odds: u8,
    pub old_odds: u8,
    pub arena: u8,
    pub pirate: u8,
}

impl OddsChange {
    /// Returns the name of the arena the change applies to.
    pub fn arena(&self) -> (r: &str)
        requires
            self.arena < 5,
        ensures
            r@ == spec_arena_name(self.arena as int),
    {
        arena_name(self.arena as usize)
    }

    /// Returns the one-based position of the pirate within its arena.
    pub fn pirate_index(&self) -> (r: usize)
        ensures
            r == self.pirate as int,
    {
        self.pirate as usize
    }

    /// Returns the index of the arena the change applies to.
    pub fn arena_index(&self) -> (r: usize)
        ensures
            r == self.arena as int,
    {
        self.arena as usize
    }
}

} // verus!
