//! Advent of Code 2024 solutions, each day a module with `part1`, `part2`
//! and `run`, specified over the bytes of the puzzle input.

pub mod digits;
pub mod sort;
pub mod swar;
pub mod text;
pub mod wrap;
pub mod day1;
pub mod day2;
pub mod day4;
pub mod day5;
pub mod day6;
pub mod day7;
pub mod day8;
pub mod day9;
pub mod day10;
pub mod day11;
pub mod day12;
pub mod day13;
pub mod day14;
pub mod day15;
pub mod day16;
pub mod day17;
pub mod day18;
pub mod day19;
pub mod day20;
pub mod day21;
pub mod day22;
pub mod day23;
pub mod day24;
pub mod day25;


