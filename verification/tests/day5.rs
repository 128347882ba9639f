use advent_of_codspeed_2024::day5;

const EXAMPLE: &str = "47|53\n97|13\n97|61\n97|47\n75|29\n61|13\n75|53\n29|13\n97|29\n53|29\n61|53\n97|53\n61|29\n47|13\n75|47\n97|75\n47|61\n75|61\n47|29\n75|13\n53|13\n\n75,47,61,53,29\n97,61,53,29,13\n75,29,13\n75,97,47,61,53\n61,13,29\n97,13,75,29,47\n";

#[test]
fn day5_example() {
    assert_eq!(day5::part1(EXAMPLE), 143);
    assert_eq!(day5::part2(EXAMPLE), 123);
    assert_eq!(day5::run(EXAMPLE), 123);
}

#[test]
fn day5_no_rules() {
    let s = "\n11,22,33\n44\n";
    assert_eq!(day5::part1(s), 22 + 44);
    assert_eq!(day5::part2(s), 0);
}

#[test]
fn day5_single_violation() {
    let s = "10|20\n\n20,10,30\n";
    assert_eq!(day5::part1(s), 0);
}
