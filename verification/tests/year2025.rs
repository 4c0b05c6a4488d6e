use aoc_rs::year2025::day01;
use aoc_rs::year2025::day03;
use aoc_rs::year2025::day04;
use aoc_rs::year2025::day08::Vec3;
use aoc_rs::year2025::day09;
use aoc_rs::util::point::Point;

const DAY01_SAMPLE: &str = "L68
L30
R48
L5
R60
L55
L1
L99
R14
L82";

#[test]
fn test_1() {
    assert_eq!(3, day01::part_1(DAY01_SAMPLE));
}

#[test]
fn test_2() {
    assert_eq!(6, day01::part_2(DAY01_SAMPLE));
}

#[test]
fn assert_r100_edge_case() {
    assert_eq!(10, day01::part_2("R1000"))
}

#[test]
fn day01_malformed_lines_are_skipped() {
    // only the two well-formed rotations act on the dial
    assert_eq!(day01::part_2("R1000\nturn\nR1000"), 20);
}

const DAY02_SAMPLE: &str = "11-22,95-115,998-1012,1188511880-1188511890,222220-222224,1698522-1698528,446443-446449,38593856-38593862,565653-565659,824824821-824824827,2121212118-2121212124";

#[test]
fn day02_test_part_1() {
    let input = aoc_rs::year2025::day02::parse(DAY02_SAMPLE);
    assert_eq!(1227775554, aoc_rs::year2025::day02::part_1(&input))
}

#[test]
fn day02_test_part_2() {
    let input = aoc_rs::year2025::day02::parse(DAY02_SAMPLE);
    assert_eq!(4174379265, aoc_rs::year2025::day02::part_2(&input))
}

#[test]
fn day02_single_range() {
    // 11 and 22 are the only doubled IDs between 11 and 22
    let input = aoc_rs::year2025::day02::parse("11-22");
    assert_eq!(33, aoc_rs::year2025::day02::part_1(&input));
    assert_eq!(33, aoc_rs::year2025::day02::part_2(&input));
}

const DAY03_SAMPLE: &str = "987654321111111
811111111111119
234234234234278
818181911112111";

#[test]
fn day03_test_part_1() {
    let input = day03::parse(DAY03_SAMPLE);
    assert_eq!(357, day03::part_1(&input))
}

#[test]
fn day03_test_part_2() {
    let input = day03::parse(DAY03_SAMPLE);
    assert_eq!(3121910778619, day03::part_2(&input))
}

const DAY04_SAMPLE: &str = "..@@.@@@@.
@@@.@.@.@@
@@@@@.@.@@
@.@@@@..@.
@@.@@@@.@@
.@@@@@@@.@
.@.@.@.@@@
@.@@@.@@@@
.@@@@@@@@.
@.@.@@@.@.";

#[test]
fn day04_test_part_1() {
    let input = day04::parse(DAY04_SAMPLE);
    assert_eq!(13, day04::part_1(&input))
}

#[test]
fn day04_test_part_2() {
    let input = day04::parse(DAY04_SAMPLE);
    assert_eq!(43, day04::part_2(input))
}

#[test]
fn day08_parse_and_distance() {
    let pts = aoc_rs::year2025::day08::parse("1,2,3\n4,6,3");
    assert_eq!(pts.len(), 2);
    assert_eq!(pts[0], Vec3(1, 2, 3));
    // squared distance: 9 + 16 + 0
    assert_eq!(pts[0].distance_to(pts[1]), 25);
}

const DAY09_SAMPLE: &str = "7,1
11,1
11,7
9,7
9,5
2,5
2,3
7,3";

#[test]
fn test_area() {
    assert_eq!(50, day09::area(&Point { x: 2, y: 5 }, &Point { x: 11, y: 1 }))
}

#[test]
fn day09_test_part_2() {
    assert_eq!(24, day09::part_2(&day09::parse(DAY09_SAMPLE)))
}

#[test]
fn day09_part_1_ignores_coverage() {
    // the widest pairwise span, coverage not checked, is larger than the
    // widest fully covered one: pairs with an exterior gap are rejected
    // only by the covered search
    let pts = day09::parse(DAY09_SAMPLE);
    assert_eq!(50, day09::part_1(&pts));
    assert!(day09::part_2(&pts) < day09::part_1(&pts));
}

#[test]
fn day09_two_point_chain() {
    // a chain of two points is a single room; the only pair spans exactly
    // that room, so the maximum is the room's own area
    let pts = day09::parse("2,5\n11,1");
    assert_eq!(50, day09::part_2(&pts));
}

#[test]
fn day09_parse_skips_malformed() {
    let pts = day09::parse("1,2\nnot a point\n3,4");
    assert_eq!(pts.len(), 2);
    assert_eq!(pts[1], Point { x: 3, y: 4 });
}
