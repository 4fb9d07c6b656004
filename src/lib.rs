//! Solvers for a set of daily puzzles: each takes the text of a puzzle input
//! (as bytes), parses it line by line and reduces it to a number.
//!
//! - `text`: lines of a text and decimal numbers in it.
//! - `day01`: a circular dial, counting landings on and passes over zero.
//! - `day02`: ids made of a repeated block of digits, inside id ranges.
//! - `day03`: the largest number that keeps `k` digits of a line in order.
//! - `day04`: erosion of a boolean grid by a neighbour-count threshold.
//! - `day05`: merging closed ranges into a minimal sorted cover, and membership.

pub mod text;
pub mod day01;
pub mod day02;
pub mod day03;
pub mod day04;
pub mod day05;
