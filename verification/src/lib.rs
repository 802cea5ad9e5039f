//! A collection of small, fully verified puzzle solvers.
//!
//! The centrepiece is the agent-patrol simulator with cycle detection and an
//! exhaustive obstruction search; around it stand the other solvers of the
//! collection, each with a contract that pins down its answer.

pub mod day1;
pub mod day2;
pub mod day3;
pub mod day4;
pub mod day5;
pub mod day6;
pub mod day7;
pub mod day8;
pub mod day9;
pub mod day10;
pub mod day11;
pub mod day12;
pub mod scan;
