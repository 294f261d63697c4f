//! Puzzles of the 2024 season, built on the grid types of `crate::grid`.

pub mod matrix;
pub mod rows;
pub mod day01;
pub mod day02;
pub mod day03;
pub mod day04;
pub mod day05;
pub mod day06;
pub mod day07;
pub mod day08;
pub mod day09;
pub mod day10;
pub mod day11;
pub mod day12;
pub mod day15;
pub mod day16;
pub mod day17;
