use puzzles::interval::Interval;
use puzzles::interval_set::IntervalSet;
use puzzles::pipeline::Pipeline;
use puzzles::propagator;
use puzzles::solutions::day05;
use puzzles::table::{RangeRule, RangeTable};

fn sample_input() -> &'static str {
    "seeds: 79 14 55 13\n\
     \n\
     seed-to-soil map:\n\
     50 98 2\n\
     52 50 48\n\
     \n\
     soil-to-fertilizer map:\n\
     0 15 37\n\
     37 52 2\n\
     39 0 15\n\
     \n\
     fertilizer-to-water map:\n\
     49 53 8\n\
     0 11 42\n\
     42 0 7\n\
     57 7 4\n\
     \n\
     water-to-light map:\n\
     88 18 7\n\
     18 25 70\n\
     \n\
     light-to-temperature map:\n\
     45 77 23\n\
     81 45 19\n\
     68 64 13\n\
     \n\
     temperature-to-humidity map:\n\
     0 69 1\n\
     1 0 69\n\
     \n\
     humidity-to-location map:\n\
     60 56 37\n\
     56 93 4"
}

#[test]
fn sample_minimum_for_discrete_seeds() {
    assert_eq!(day05::part_one(sample_input()), 35);
}

#[test]
fn sample_minimum_for_seed_ranges() {
    assert_eq!(day05::part_two(sample_input()), 46);
}

#[test]
fn identity_table_maps_interval_to_itself() {
    let table = RangeTable::new(Vec::new());
    let iv = Interval::new(10, 20);
    let out = table.map_interval(iv);
    assert_eq!(out, vec![iv]);
    let empty = Interval::new(7, 7);
    assert_eq!(table.map_interval(empty), vec![]);
}

#[test]
fn map_interval_splits_at_rule_boundaries() {
    // One rule moving [10, 20) up by 100 splits [5, 25) into three parts.
    let table = RangeTable::new(vec![RangeRule::new(110, 10, 10)]);
    let out = table.map_interval(Interval::new(5, 25));
    let mut starts: Vec<u64> = out.iter().map(|iv| iv.start).collect();
    starts.sort();
    assert_eq!(starts, vec![5, 20, 110]);
    let total: u64 = out.iter().map(|iv| iv.end - iv.start).sum();
    assert_eq!(total, 20);
}

#[test]
fn lookup_value_uses_first_matching_rule() {
    let table = RangeTable::new(vec![
        RangeRule::new(100, 10, 5),
        RangeRule::new(200, 12, 5),
    ]);
    assert_eq!(table.lookup_value(12), 102);
    assert_eq!(table.lookup_value(16), 204);
    assert_eq!(table.lookup_value(9), 9);
}

#[test]
fn normalize_merges_and_is_idempotent() {
    let mut set = IntervalSet::new();
    set.push_range(10, 15);
    set.push_range(3, 5);
    set.push_range(14, 20);
    set.push_range(5, 6);
    let once = set.normalize();
    assert_eq!(once.intervals, vec![Interval::new(3, 6), Interval::new(10, 20)]);
    let twice = once.normalize();
    assert_eq!(twice.intervals, once.intervals);
}

#[test]
fn propagator_translates_covered_parts() {
    let table = RangeTable::new(vec![RangeRule::new(0, 100, 10)]);
    let mut set = IntervalSet::new();
    set.push_range(95, 105);
    let out = propagator::apply(&table, &set);
    let total: u64 = out.intervals.iter().map(|iv| iv.end - iv.start).sum();
    assert_eq!(total, 10);
    let normalized = out.normalize();
    assert_eq!(normalized.intervals, vec![Interval::new(0, 5), Interval::new(95, 100)]);
}

#[test]
fn singleton_seed_equals_single_value_trace() {
    let tables = vec![
        RangeTable::new(vec![RangeRule::new(50, 98, 2)]),
        RangeTable::new(vec![RangeRule::new(52, 15, 37)]),
    ];
    let pipeline = Pipeline::new(tables);
    for v in [0u64, 15, 20, 51, 97, 98, 99, 120] {
        let mut seeds = IntervalSet::new();
        seeds.push_range(v, v + 1);
        assert_eq!(pipeline.solve(&seeds), Some(pipeline.trace_value(v)));
    }
}

#[test]
fn adding_a_seed_interval_never_raises_the_minimum() {
    let tables = vec![RangeTable::new(vec![RangeRule::new(500, 0, 100)])];
    let pipeline = Pipeline::new(tables);
    let mut seeds = IntervalSet::new();
    seeds.push_range(10, 20);
    let base = pipeline.solve(&seeds).unwrap();
    let mut more = IntervalSet::new();
    more.push_range(10, 20);
    more.push_range(200, 210);
    let extended = pipeline.solve(&more).unwrap();
    assert!(extended <= base);
    let mut lower = IntervalSet::new();
    lower.push_range(10, 20);
    lower.push_range(0, 1);
    assert!(pipeline.solve(&lower).unwrap() <= base);
}

#[test]
fn empty_seed_set_reports_nothing() {
    let pipeline = Pipeline::new(vec![RangeTable::new(Vec::new())]);
    let mut seeds = IntervalSet::new();
    seeds.push_range(4, 4);
    assert_eq!(pipeline.solve(&seeds), None);
}
