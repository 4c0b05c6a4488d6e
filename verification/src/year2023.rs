pub mod day1;
pub mod day2;
pub mod day4;
pub mod day6;
pub mod day7;
pub mod day9;
