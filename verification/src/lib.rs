//! Coins whose value is the square of their diameter: the fewest coins for
//! every amount, the smallest set of denominations that keeps that number,
//! and the order in which the coins lie most closely in a row.

pub mod coinset;
pub mod combos;
pub mod gaps;
pub mod packer;
pub mod search;
pub mod solver;
pub mod tally;
