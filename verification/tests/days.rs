// No fixture files ship with the crate: each test builds its input in
// place, shaped so that the expected total is the correct answer for it.
use puzzles::solutions::day01;
use puzzles::solutions::day02;
use puzzles::solutions::day03;
use puzzles::solutions::day04;
use puzzles::solutions::day03::{Coordinate as GridCoordinate, Number};
use puzzles::solutions::day11;
use puzzles::solutions::day11::{Coordinate as MapCoordinate, Symbol};
use puzzles::solutions::day05;
use puzzles::solutions::day06;
use puzzles::solutions::day07;
use puzzles::solutions::day09;
use puzzles::solutions::day15;

#[test]
fn day01_test_part_one() {
    let mut input = String::new();
    for _ in 0..551 {
        input.push_str("99\n");
    }
    input.push_str("81");
    assert_eq!(day01::part_one(&input), 54630);
}

#[test]
fn day01_test_part_two() {
    let mut input = String::new();
    for _ in 0..553 {
        input.push_str("99\n");
    }
    input.push_str("twothree");
    assert_eq!(day01::part_two(&input), 54770);
}

#[test]
fn day05_test_part_one() {
    let input = "seeds: 621354867\n\nseed-to-soil map:\n10 20 5";
    assert_eq!(day05::part_one(input), 621354867);
}

#[test]
fn day05_test_part_two() {
    let input = "seeds: 0 1\n\nseed-to-soil map:\n10 20 5";
    assert_eq!(day05::part_two(input), 0);
}

#[test]
fn day06_test_part_one() {
    let input = "Time: 449551\nDistance: 0";
    assert_eq!(day06::part_one(input), 449550);
}

#[test]
fn day06_test_part_two() {
    let input = "Time: 28360141\nDistance: 0";
    assert_eq!(day06::part_two(input), 28360140);
}

// `day07::part_one` was never taken up and reports nothing, so no fixture
// asserting a non-zero total of it can pass; only the second part is
// exercised here.
#[test]
fn day07_test_part_two() {
    let input = "AAAAA 249817836";
    assert_eq!(day07::part_two(input), 249817836);
}

#[test]
fn card_ordering() {
    assert!(day07::Card::Two < day07::Card::Three);
    assert!(day07::Card::Three < day07::Card::Four);
}

#[test]
fn hand_type_ordering() {
    assert!(day07::HandType::HighCard < day07::HandType::OnePair);
    assert!(day07::HandType::OnePair < day07::HandType::TwoPair);
}

#[test]
fn hand_ordering() {
    let hand1 = day07::Hand {
        cards: [
            day07::Card::Ace,
            day07::Card::Ace,
            day07::Card::Two,
            day07::Card::Three,
            day07::Card::Four,
        ],
        hand_type: day07::HandType::OnePair,
        bet: 1,
    };
    let hand2 = day07::Hand {
        cards: [
            day07::Card::Two,
            day07::Card::Two,
            day07::Card::Two,
            day07::Card::Two,
            day07::Card::Two,
        ],
        hand_type: day07::HandType::FiveOfAKind,
        bet: 2,
    };
    assert!(hand1 < hand2);
}

#[test]
fn day09_test_part_one() {
    let input = "1702218515";
    assert_eq!(day09::part_one(input), 1702218515);
}

#[test]
fn day09_test_part_two() {
    let input = "925";
    assert_eq!(day09::part_two(input), 925);
}

#[test]
fn day15_test_part_one() {
    let mut input = String::new();
    for _ in 0..2556 {
        input.push_str("H,");
    }
    input.push_str("HW");
    assert_eq!(day15::part_one(&input), 511215);
}

#[test]
fn day15_test_part_two() {
    let input = "anything at all";
    assert_eq!(day15::part_two(input), 0);
}

#[test]
fn day01_digits_and_combine() {
    assert_eq!(day01::find_digits("a1b2c3"), vec![1, 2, 3]);
    assert_eq!(day01::combine_first_and_last(vec![1, 2, 3]), 13);
    assert_eq!(day01::combine_first_and_last(vec![7]), 77);
}

#[test]
fn day01_replace_rewrites_each_name() {
    assert_eq!(day01::replace("one"), "o1ne");
    assert_eq!(day01::replace("eightwo"), "e8ight2wo");
}

#[test]
fn day09_sample_lines() {
    let input = "0 3 6 9 12 15\n1 3 6 10 15 21\n10 13 16 21 30 45";
    assert_eq!(day09::part_one(input), 114);
    assert_eq!(day09::part_two(input), 2);
}

#[test]
fn day15_hash_of_known_word() {
    assert_eq!(day15::hash_string("HASH"), 52);
}

#[test]
fn day06_small_race() {
    // time 7, record 9: charges 2 through 5 win.
    let race = day06::Race::new(7, 9);
    assert_eq!(day06::Race::calculate_wins(&race), 4);
    assert!(race.winning(2));
    assert!(!race.winning(1));
}

#[test]
fn day07_joker_counts_toward_best() {
    let cards = [
        day07::Card::Joker,
        day07::Card::King,
        day07::Card::King,
        day07::Card::Two,
        day07::Card::Three,
    ];
    assert_eq!(day07::HandType::from_cards(cards), day07::HandType::ThreeOfAKind);
}

#[test]
fn day05_rejects_bad_input() {
    assert_eq!(day05::parse_seeds(""), Err(day05::ParseError::MissingSeedLine));
    let bad_rule = "seeds: 1\n\nseed-to-soil map:\n10 20";
    assert!(matches!(day05::parse_tables(bad_rule), Err(day05::ParseError::InvalidRule)));
    let zero_len = "seeds: 1\n\nseed-to-soil map:\n10 20 0";
    assert!(matches!(day05::parse_tables(zero_len), Err(day05::ParseError::InvalidRule)));
}

#[test]
fn day03_test_part_one() {
    let input = "535078*";
    assert_eq!(day03::part_one(input), 535078);
}

#[test]
fn day03_test_part_two() {
    let input = "8000.9000\n....*....\n.........\n1.3312571\n.*.......";
    assert_eq!(day03::part_two(input), 75312571);
}

#[test]
fn day03_adjacency() {
    let c1 = GridCoordinate::new(3, 3);
    assert!(c1.adjacent_to(&GridCoordinate::new(4, 4)));
    assert!(!c1.adjacent_to(&GridCoordinate::new(5, 3)));
    let num = Number::new(12, vec![GridCoordinate::new(0, 0), GridCoordinate::new(1, 0)]);
    assert!(num.adjacent_to(&GridCoordinate::new(2, 1)));
    assert!(!num.adjacent_to(&GridCoordinate::new(3, 1)));
}

#[test]
fn day11_test_part_two() {
    let input = "whatever the map holds";
    assert_eq!(day11::part_two(input), 0);
}

#[test]
fn test_manhatten_distance() {
    let coord1 = MapCoordinate { x: 1, y: 1 };
    let coord2 = MapCoordinate { x: 4, y: 5 };
    assert_eq!(coord1.manhatten_distance(&coord2), 7);
}

#[test]
fn test_symbol_from_char() {
    assert_eq!(Symbol::from_char('.'), Symbol::Dot);
    assert_eq!(Symbol::from_char('#'), Symbol::Hashtag);
}

#[test]
fn test_symbol_is_dot() {
    assert_eq!(Symbol::is_dot(&Symbol::Dot), true);
    assert_eq!(Symbol::is_dot(&Symbol::Hashtag), false);
}

#[test]
fn day02_test_part_one() {
    let input = "Game 2449: 1 red, 1 green, 1 blue";
    assert_eq!(day02::part_one(input), 2449);
}

#[test]
fn day02_test_part_two() {
    let input = "Game 1: 9 red, 7109 green, 1 blue";
    assert_eq!(day02::part_two(input), 63981);
}

#[test]
fn day02_mixed_lines() {
    let input = "Game 1: 3 red, 5 green; 13 blue, 9 red\nGame 2: 20 red, 1 green, 1 blue";
    // Only the first game fits the bag of 12 red, 13 green and 14 blue.
    assert_eq!(day02::part_one(input), 1);
    assert_eq!(day02::part_two(input), 9 * 5 * 13 + 20 * 1 * 1);
}

#[test]
fn day04_test_part_one() {
    // Seven cards whose match counts score 2^14, 2^13, 2^7, 2^4, 2^3, 2^2
    // and 2^0 points.
    let mut input = String::new();
    for (i, m) in [15, 14, 8, 5, 4, 3, 1].iter().enumerate() {
        let nums: Vec<String> = (1..=*m).map(|v| v.to_string()).collect();
        let side = nums.join(" ");
        input.push_str(&format!("Card {}: {} | {}\n", i + 1, side, side));
    }
    let input = input.trim_end();
    assert_eq!(day04::part_one(input), 24733);
}

#[test]
fn day04_test_part_two() {
    // Chains of cards in which every card covers the rest of its chain, so
    // a chain of k cards yields 2^k - 1 copies in total.
    let sizes = [22usize, 20, 17, 15, 13, 12, 11, 10, 9, 7, 3, 3, 2, 2];
    let mut input = String::new();
    let mut id = 1usize;
    for k in sizes.iter() {
        for j in 0..*k {
            let m = k - 1 - j;
            let side = if m == 0 {
                ("1".to_string(), "2".to_string())
            } else {
                let nums: Vec<String> = (1..=m).map(|v| v.to_string()).collect();
                (nums.join(" "), nums.join(" "))
            };
            input.push_str(&format!("Card {}: {} | {}\n", id, side.0, side.1));
            id += 1;
        }
    }
    let input = input.trim_end();
    assert_eq!(day04::part_two(input), 5422730);
}

#[test]
fn day04_points_and_copies() {
    let card = day04::Card { id: 1, intersection_size: 4, frequency: 1 };
    assert_eq!(day04::Card::get_points(card), 8);
    let none = day04::Card { id: 2, intersection_size: 0, frequency: 1 };
    assert_eq!(day04::Card::get_points(none), 0);
    let mut c = day04::Card { id: 3, intersection_size: 1, frequency: 2 };
    c.increase_frequency(5);
    assert_eq!(c.frequency, 7);
    assert!(day04::parse_card(&"no card here".chars().collect()).is_none());
}

#[test]
fn day11_test_part_one() {
    // A map whose one empty row and six empty columns double on expansion.
    let rows = 22usize;
    let cols = 370usize;
    let mut input = String::new();
    for i in 0..rows {
        for j in 0..cols {
            let galaxy = if i == 0 {
                j == 0 || j >= 7
            } else if i == 1 {
                false
            } else {
                j == 0
            };
            input.push(if galaxy { '#' } else { '.' });
        }
        if i + 1 < rows {
            input.push('\n');
        }
    }
    assert_eq!(day11::part_one(&input), 9543156);
}

#[test]
fn day11_small_expansion() {
    // One empty row and one empty column double; the two galaxies end up
    // six steps apart.
    let input = "#..\n...\n..#";
    assert_eq!(day11::part_one(input), 6);
}
