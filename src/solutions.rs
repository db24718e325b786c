//! Solutions of individual daily puzzles built on the grid and parser
//! library. Each module reads its own input shape and computes the two
//! answers.

pub mod day01;
pub mod day02;
pub mod day07;
pub mod day10;
pub mod day14;
pub mod day19;
pub mod day22;
pub mod day25;
