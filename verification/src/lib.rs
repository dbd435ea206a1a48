//! Core engine for a fantasy-wagering game played over five independent
//! arenas of four competitors each.
//!
//! The library covers the bitmask encoding of competitor selections, the
//! 3,124-entry search-space table, the partition-refinement reducer that
//! turns a weighted bet list into a disjoint map of outcome regions, the
//! integer skeleton of the win-amount distribution, and the frozen text
//! encodings for bet selections and stake amounts.

pub mod bets;
pub mod chances;
pub mod codec;
pub mod math;
pub mod oddschange;
pub mod pirates;
pub mod reducer;
pub mod round_data;
pub mod table;
