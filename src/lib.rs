//! Solvers for eleven daily puzzles, each reading a small text and computing two answers.
//! Every solver states its answer as a specification over the input text and is proved
//! to compute it.
use vstd::prelude::*;

pub mod text;
pub mod common;
pub mod day1;
pub mod day2;
pub mod day3;
pub mod day4;
pub mod day5;
pub mod day6;
pub mod day7;
pub mod day8;
pub mod day9;
pub mod day10;
pub mod day11;

verus! {

/// The two answers of one day, in the integer type that day computes with.
pub enum ReturnSize {
    U32((u32, u32)),
    I64((i64, i64)),
    U128((u128, u128)),
    USIZE((usize, usize)),
    Str((String, String)),
}

} // verus!
