//! Puzzles of the 2025 season and the text grid they share.

pub mod grid;
pub mod day01;
pub mod day02;
pub mod day03;
pub mod day04;
pub mod day05;
pub mod day06;
