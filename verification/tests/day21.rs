use advent_of_codspeed_2024::day21;

const EXAMPLE: &str = "029A\n980A\n179A\n456A\n379A\n";

#[test]
fn day21_example_two_robots() {
    assert_eq!(day21::part1(EXAMPLE), 126384);
    assert_eq!(day21::run(EXAMPLE), 126384);
}

#[test]
fn day21_example_twenty_five_robots() {
    assert_eq!(day21::part2(EXAMPLE), 154115708116294);
}

#[test]
fn day21_zero_and_nine_codes() {
    let input = "000A\n999A\n123A\n707A\n314A\n";
    assert_eq!(day21::part1(input), 134430);
    assert_eq!(day21::part2(input), 152921279468586);
}

#[test]
fn day21_codes_with_leading_zero() {
    let input = "341A\n083A\n802A\n973A\n780A\n";
    assert_eq!(day21::part1(input), 203814);
    assert_eq!(day21::part2(input), 248566068436630);
}

#[test]
fn day21_last_line_without_newline() {
    assert_eq!(day21::part1(&EXAMPLE[..24]), 126384);
}
