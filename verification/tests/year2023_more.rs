use aoc_rs::year2023::day4;
use aoc_rs::year2023::day6;
use aoc_rs::year2023::day7;
use aoc_rs::year2023::day7::Cards;
use aoc_rs::year2023::day7::HandType;
use aoc_rs::year2023::day9;

const DAY4_SAMPLE: &str = "Card 1: 41 48 83 86 17 | 83 86  6 31 17  9 48 53
Card 2: 13 32 20 16 61 | 61 30 68 82 17 32 24 19
Card 3:  1 21 53 59 44 | 69 82 63 72 16 21 14  1
Card 4: 41 92 73 84 69 | 59 84 76 51 58  5 54 83
Card 5: 87 83 26 28 32 | 88 30 70 12 93 22 82 36
Card 6: 31 18 13 56 72 | 74 77 10 23 35 67 36 11";

#[test]
fn day4_points() {
    // matches per card: 4, 2, 2, 1, 0, 0 -> 8 + 2 + 2 + 1 = 13
    let cards = day4::parse(DAY4_SAMPLE);
    assert_eq!(day4::part_1(&cards), 13);
}

#[test]
fn day4_cascade() {
    // the cascade of won copies settles at 30 cards in hand
    let cards = day4::parse(DAY4_SAMPLE);
    assert_eq!(day4::part_2(&cards), 30);
}

const DAY6_SAMPLE: &str = "Time:      7  15   30
Distance:  9  40  200";

#[test]
fn day6_races() {
    // win counts 4, 8 and 9 multiply to 288
    assert_eq!(day6::part_1(DAY6_SAMPLE), 288);
}

#[test]
fn day6_big_race() {
    // the joined race 71530 vs 940200 has 71503 winning holds
    assert_eq!(day6::part_2(DAY6_SAMPLE), 71503);
}

#[test]
fn day6_no_winning_hold() {
    // a record nobody can beat zeroes the product
    assert_eq!(day6::part_1("Time: 4\nDistance: 9"), 0);
}

const DAY9_SAMPLE: &str = "0 3 6 9 12 15
1 3 6 10 15 21
10 13 16 21 30 45";

#[test]
fn day9_forward() {
    let report = day9::parse(DAY9_SAMPLE);
    assert_eq!(day9::part_1(&report), 114);
}

#[test]
fn day9_backward() {
    let report = day9::parse(DAY9_SAMPLE);
    assert_eq!(day9::part_2(&report), 2);
}

#[test]
fn day9_negative_values() {
    let report = day9::parse("-3 -1 1 3");
    assert_eq!(day9::part_1(&report), 5);
    assert_eq!(day9::part_2(&report), -5);
}

const DAY7_SAMPLE: &str = "32T3K 765
T55J5 684
KK677 28
KTJJT 220
QQQJA 483";

#[test]
fn test_sample_input_parsing() {
    assert_eq!(6440, day7::part_1(DAY7_SAMPLE));
}

#[test]
fn day7_test_part_2() {
    assert_eq!(5905, day7::part_2(DAY7_SAMPLE));
}

#[test]
fn day7_hand_types() {
    let full = Cards { inner: *b"23332", jokers: false };
    assert!(HandType::new(full) == HandType::FullHouse);
    let jokered = Cards { inner: *b"KTJJT", jokers: true };
    assert!(HandType::new_with_jokers(jokered) == HandType::FourOfAKind);
    let h = aoc_rs::year2023::day7::Hand::new_with_jokers(jokered, 220);
    assert!(h.hand == HandType::FourOfAKind);
    assert_eq!(h.bid, 220);
}
