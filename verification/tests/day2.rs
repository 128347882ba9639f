use advent_of_codspeed_2024::day2;

const EXAMPLE: &str = "7 6 4 2 1
1 2 7 8 9
9 7 6 2 1
1 3 2 4 5
8 6 4 4 1
1 3 6 7 9
";

#[test]
fn day2_example_part1() {
    assert_eq!(day2::part1(EXAMPLE), 2);
}

#[test]
fn day2_example_part2() {
    assert_eq!(day2::part2(EXAMPLE), 4);
    assert_eq!(day2::run(EXAMPLE), 4);
}

#[test]
fn day2_two_levels_always_dampened() {
    assert_eq!(day2::part1("10 50\n"), 0);
    assert_eq!(day2::part2("10 50\n"), 1);
}

#[test]
fn day2_remove_first_level() {
    // dropping 50 leaves 1 2 3
    assert_eq!(day2::part2("50 1 2 3\n"), 1);
    assert_eq!(day2::part1("50 1 2 3\n"), 0);
}

#[test]
fn day2_dampened_counts_more() {
    let a = day2::part1(EXAMPLE);
    let b = day2::part2(EXAMPLE);
    assert!(a <= b && b <= 6);
}
