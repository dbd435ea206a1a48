//! Pirates: the twenty competitors of the game, four per arena.

use vstd::prelude::*;
use vstd::string::*;

use crate::math::spec_pirate_binary;
use crate::math::pirate_binary;

verus! {

/// The name of the pirate with the given ID (1 through 20).
pub open spec fn spec_pirate_name(id: int) -> Seq<char> {
    if id == 1 {
        "Dan"@
    } else if id == 2 {
        "Sproggie"@
    } else if id == 3 {
        "Orvinn"@
    } else if id == 4 {
        "Lucky"@
    } else if id == 5 {
        "Edmund"@
    } else if id == 6 {
        "Peg Leg"@
    } else if id == 7 {
        "Bonnie"@
    } else if id == 8 {
        "Puffo"@
    } else if id == 9 {
        "Stuff"@
    } else if id == 10 {
        "Squire"@
    } else if id == 11 {
        "Crossblades"@
    } else if id == 12 {
        "Stripey"@
    } else if id == 13 {
        "Ned"@
    } else if id == 14 {
        "Fairfax"@
    } else if id == 15 {
        "Gooblah"@
    } else if id == 16 {
        "Franchisco"@
    } else if id == 17 {
        "Federismo"@
    } else if id == 18 {
        "Blackbeard"@
    } else if id == 19 {
        "Buck"@
    } else {
        "Tailhook"@
    }
}

/// The image URL of the pirate with the given ID.
pub open spec fn spec_pirate_image(id: int) -> Seq<char> {
    if id == 1 {
        "http://images.neopets.com/pirates/fc/fc_pirate_1.gif"@
    } else if id == 2 {
        "http://images.neopets.com/pirates/fc/fc_pirate_2.gif"@
    } else if id == 3 {
        "http://images.neopets.com/pirates/fc/fc_pirate_3.gif"@
    } else if id == 4 {
        "http://images.neopets.com/pirates/fc/fc_pirate_4.gif"@
    } else if id == 5 {
        "http://images.neopets.com/pirates/fc/fc_pirate_5.gif"@
    } else if id == 6 {
        "http://images.neopets.com/pirates/fc/fc_pirate_6.gif"@
    } else if id == 7 {
        "http://images.neopets.com/pirates/fc/fc_pirate_7.gif"@
    } else if id == 8 {
        "http://images.neopets.com/pirates/fc/fc_pirate_8.gif"@
    } else if id == 9 {
        "http://images.neopets.com/pirates/fc/fc_pirate_9.gif"@
    } else if id == 10 {
        "http://images.neopets.com/pirates/fc/fc_pirate_10.gif"@
    } else if id == 11 {
        "http://images.neopets.com/pirates/fc/fc_pirate_11.gif"@
    } else if id == 12 {
        "http://images.neopets.com/pirates/fc/fc_pirate_12.gif"@
    } else if id == 13 {
        "http://images.neopets.com/pirates/fc/fc_pirate_13.gif"@
    } else if id == 14 {
        "http://images.neopets.com/pirates/fc/fc_pirate_14.gif"@
    } else if id == 15 {
        "http://images.neopets.com/pirates/fc/fc_pirate_15.gif"@
    } else if id == 16 {
        "http://images.neopets.com/pirates/fc/fc_pirate_16.gif"@
    } else if id == 17 {
        "http://images.neopets.com/pirates/fc/fc_pirate_17.gif"@
    } else if id == 18 {
        "http://images.neopets.com/pirates/fc/fc_pirate_18.gif"@
    } else if id == 19 {
        "http://images.neopets.com/pirates/fc/fc_pirate_19.gif"@
    } else {
        "http://images.neopets.com/pirates/fc/fc_pirate_20.gif"@
    }
}

/// Returns the name of the pirate with the given ID (1 through 20).
pub fn pirate_name(id: usize) -> (r: &'static str)
    requires
        1 <= id <= 20,
    ensures
        r@ == spec_pirate_name(id as int),
{
    if id == 1 {
        "Dan"
    } else if id == 2 {
        "Sproggie"
    } else if id == 3 {
        "Orvinn"
    } else if id == 4 {
        "Lucky"
    } else if id == 5 {
        "Edmund"
    } else if id == 6 {
        "Peg Leg"
    } else if id == 7 {
        "Bonnie"
    } else if id == 8 {
        "Puffo"
    } else if id == 9 {
        "Stuff"
    } else if id == 10 {
        "Squire"
    } else if id == 11 {
        "Crossblades"
    } else if id == 12 {
        "Stripey"
    } else if id == 13 {
        "Ned"
    } else if id == 14 {
        "Fairfax"
    } else if id == 15 {
        "Gooblah"
    } else if id == 16 {
        "Franchisco"
    } else if id == 17 {
        "Federismo"
    } else if id == 18 {
        "Blackbeard"
    } else if id == 19 {
        "Buck"
    } else {
        "Tailhook"
    }
}

/// Named things every pirate-like value offers: its display name and its
/// image URL, both determined by the pirate's ID.
pub trait PartialPirateThings {
    /// The pirate's ID, 1 through 20.
    spec fn pid(&self) -> int;

    /// The pirate's name.
    fn get_name(&self) -> (r: &'static str)
        requires
            1 <= self.pid() <= 20,
        ensures
            r@ == spec_pirate_name(self.pid()),
    ;

    /// The pirate's image URL.
    fn get_image(&self) -> (r: String)
        requires
            1 <= self.pid() <= 20,
        ensures
            r@ == spec_pirate_image(self.pid()),
    ;
}

/// A pirate known only by its ID.
#[derive(Debug, Clone, Copy)]
pub struct PartialPirate {
    pub id: usize,
}

impl PartialPirateThings for PartialPirate {
    open spec fn pid(&self) -> int {
        self.id as int
    }

    fn get_name(&self) -> (r: &'static str) {
        pirate_name(self.id)
    }

    fn get_image(&self) -> (r: String) {
        pirate_image_url(self.id)
    }
}

/// A pirate in its arena for one round.
#[derive(Debug, Clone, Copy)]
pub struct Pirate {
    /// The pirate's ID, 1 through 20.
    pub id: u8,
    /// The index of the arena in which the pirate is competing.
    pub arena_id: u8,
    /// The index of the pirate in the arena. One-indexed.
    pub index: u8,
    /// The pirate's current odds. 2-13 inclusive.
    pub current_odds: u8,
    /// The pirate's opening odds. 2-13 inclusive.
    pub opening_odds: u8,
    /// The pirate's positive food adjustment, when foods are known.
    pub pfa: Option<u8>,
    /// The pirate's negative food adjustment, when foods are known.
    pub nfa: Option<i8>,
    /// The pirate's total food adjustment, when foods are known.
    pub fa: Option<i8>,
    /// Whether the pirate won its arena.
    pub is_winner: bool,
}

impl Pirate {
    /// The pirate's single-bit mask within the 20-bit selection encoding.
    pub fn binary(&self) -> (r: u32)
        requires
            self.arena_id <= 4,
        ensures
            r == spec_pirate_binary(self.index, self.arena_id),
    {
        pirate_binary(self.index, self.arena_id)
    }
}

impl PartialPirateThings for Pirate {
    open spec fn pid(&self) -> int {
        self.id as int
    }

    fn get_name(&self) -> (r: &'static str) {
        pirate_name(self.id as usize)
    }

    fn get_image(&self) -> (r: String) {
        pirate_image_url(self.id as usize)
    }
}

/// Returns the image URL of the pirate with the given ID.
fn pirate_image_url(id: usize) -> (r: String)
    requires
        1 <= id <= 20,
    ensures
        r@ == spec_pirate_image(id as int),
{
    if id == 1 {
        String::from_str("http://images.neopets.com/pirates/fc/fc_pirate_1.gif")
    } else if id == 2 {
        String::from_str("http://images.neopets.com/pirates/fc/fc_pirate_2.gif")
    } else if id == 3 {
        String::from_str("http://images.neopets.com/pirates/fc/fc_pirate_3.gif")
    } else if id == 4 {
        String::from_str("http://images.neopets.com/pirates/fc/fc_pirate_4.gif")
    } else if id == 5 {
        String::from_str("http://images.neopets.com/pirates/fc/fc_pirate_5.gif")
    } else if id == 6 {
        String::from_str("http://images.neopets.com/pirates/fc/fc_pirate_6.gif")
    } else if id == 7 {
        String::from_str("http://images.neopets.com/pirates/fc/fc_pirate_7.gif")
    } else if id == 8 {
        String::from_str("http://images.neopets.com/pirates/fc/fc_pirate_8.gif")
    } else if id == 9 {
        String::from_str("http://images.neopets.com/pirates/fc/fc_pirate_9.gif")
    } else if id == 10 {
        String::from_str("http://images.neopets.com/pirates/fc/fc_pirate_10.gif")
    } else if id == 11 {
        String::from_str("http://images.neopets.com/pirates/fc/fc_pirate_11.gif")
    } else if id == 12 {
        String::from_str("http://images.neopets.com/pirates/fc/fc_pirate_12.gif")
    } else if id == 13 {
        String::from_str("http://images.neopets.com/pirates/fc/fc_pirate_13.gif")
    } else if id == 14 {
        String::from_str("http://images.neopets.com/pirates/fc/fc_pirate_14.gif")
    } else if id == 15 {
        String::from_str("http://images.neopets.com/pirates/fc/fc_pirate_15.gif")
    } else if id == 16 {
        String::from_str("http://images.neopets.com/pirates/fc/fc_pirate_16.gif")
    } else if id == 17 {
        String::from_str("http://images.neopets.com/pirates/fc/fc_pirate_17.gif")
    } else if id == 18 {
        String::from_str("http://images.neopets.com/pirates/fc/fc_pirate_18.gif")
    } else if id == 19 {
        String::from_str("http://images.neopets.com/pirates/fc/fc_pirate_19.gif")
    } else {
        String::from_str("http://images.neopets.com/pirates/fc/fc_pirate_20.gif")
    }
}

} // verus!
