use advent_of_codspeed_2024::day1;

const EXAMPLE: &str = "00003   00004
00004   00003
00002   00005
00001   00003
00003   00009
00003   00003
";

#[test]
fn day1_example_part2_counts_each_distinct_left_id_once() {
    // rights that also occur on the left: 4, 3, 3, 3
    assert_eq!(day1::part2(EXAMPLE), 13);
    assert_eq!(day1::run(EXAMPLE), 13);
}

#[test]
fn day1_part2_left_id_after_its_rights() {
    let input = "00001   00007\n00002   00007\n00007   00001\n";
    // 7 is seen twice on the right before it appears on the left: 7 * 2,
    // then the right 1 already occurs on the left: + 1
    assert_eq!(day1::part2(input), 15);
}

#[test]
fn day1_part2_empty() {
    assert_eq!(day1::part2(""), 0);
}

#[test]
fn day1_example_part1_total_distance() {
    // sorted: 1 2 3 3 3 4 against 3 3 3 4 5 9
    assert_eq!(day1::part1(EXAMPLE), 11);
}

#[test]
fn day1_part1_distance_is_symmetric_in_the_lists() {
    let input = "00010   00001\n00001   00010\n99999   00000\n";
    // sorted: 1 10 99999 against 0 1 10
    assert_eq!(day1::part1(input), 1 + 9 + 99989);
    assert_eq!(day1::part1(""), 0);
}
