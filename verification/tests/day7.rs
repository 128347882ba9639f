use advent_of_codspeed_2024::day7::fastdiv::PrecomputedDivU64;
use advent_of_codspeed_2024::day7::{part1, part2, run};

const EXAMPLE: &str = "190: 10 19
3267: 81 40 27
83: 17 5
156: 15 6
7290: 6 8 6 15
161011: 16 10 13
192: 17 8 14
21037: 9 7 18 13
292: 11 6 16 20
";

#[test]
fn day7_example_part1() {
    assert_eq!(part1(EXAMPLE), 3749);
    assert_eq!(run(EXAMPLE), 3749);
}

#[test]
fn day7_example_part2() {
    assert_eq!(part2(EXAMPLE), 11387);
}

#[test]
fn day7_single_operand() {
    assert_eq!(part1("5: 5\n"), 5);
    assert_eq!(part1("6: 5\n"), 0);
    assert_eq!(part2("12: 1 2\n"), 12);
    assert_eq!(part1("12: 1 2\n"), 0);
}

#[test]
fn day7_concat_uses_written_width() {
    // 1 || 05 == 105, and no other choice reaches it
    assert_eq!(part2("105: 1 05\n"), 105);
    assert_eq!(part2("15: 1 05\n"), 0);
}

#[test]
fn day7_fast_div_matches_division() {
    for d in [2u64, 3, 7, 10, 100, 1000, 12345, u32::MAX as u64, u64::MAX - 1] {
        let p = PrecomputedDivU64::new(d);
        for n in [0u64, 1, 9, 10, 99, 100, 1000, 999_999, 123_456_789_012, u64::MAX - 1, u64::MAX] {
            assert_eq!(PrecomputedDivU64::fast_div(n, p), n / d, "{n} / {d}");
            assert_eq!(PrecomputedDivU64::is_multiple_of(n, p), n % d == 0, "{n} % {d}");
        }
    }
}

#[test]
fn day7_concat_adds() {
    assert!(part1(EXAMPLE) <= part2(EXAMPLE));
    assert!(part1("7290: 6 8 6 15\n190: 10 19\n") <= part2("7290: 6 8 6 15\n190: 10 19\n"));
}
