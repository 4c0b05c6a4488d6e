use aoc_rs::year2023::day1;
use aoc_rs::year2023::day2;
use aoc_rs::year2023::day2::Cube;

const DAY1_SAMPLE: &str = "1abc2
pqr3stu8vwx
a1b2c3d4e5f
treb7uchet
";

const DAY1_SAMPLE_2: &str = "two1nine
eightwothree
abcone2threexyz
xtwone3four
4nineeightseven2
zoneight234
7pqrstsixteen
";

#[test]
fn test_parse_input() {
    let val = day1::part_1(&day1::parse(DAY1_SAMPLE));
    assert_eq!(val, 142)
}

#[test]
fn test_digit_to_u32() {
    let val = day1::part_2(&day1::parse(DAY1_SAMPLE_2));
    assert_eq!(val, 281)
}

#[test]
fn day1_single_digit_lines() {
    // a lone digit serves as both the first and the last digit
    assert_eq!(day1::part_1(&day1::parse("7\n")), 77);
    // overlapping words both count
    assert_eq!(day1::part_2(&day1::parse("eightwo\n")), 82);
}

const DAY2_SAMPLE: &str = "Game 1: 3 blue, 4 red; 1 red, 2 green, 6 blue; 2 green
Game 2: 1 blue, 2 green; 3 green, 4 blue, 1 red; 1 green, 1 blue
Game 3: 8 green, 6 blue, 20 red; 5 blue, 4 red, 13 green; 5 green, 1 red
Game 4: 1 green, 3 red, 6 blue; 3 green, 6 red; 3 green, 15 blue, 14 red
Game 5: 6 red, 1 blue, 3 green; 2 blue, 1 red, 2 green";

#[test]
fn day2_test_part_1() {
    let result = day2::part_1(&day2::parse(DAY2_SAMPLE));
    assert_eq!(result, 8)
}

#[test]
fn test_cube_from_str() {
    let draw_string_1 = "3 blue, 4 red";
    let cube = Cube::from(draw_string_1);
    assert_eq!(cube, Cube(4, 0, 3));
}

#[test]
fn day2_test_part_2() {
    // minimal bags: (4,2,6), (1,3,4), (20,13,6), (14,3,15), (6,3,2)
    let result = day2::part_2(&day2::parse(DAY2_SAMPLE));
    assert_eq!(result, 2286)
}
