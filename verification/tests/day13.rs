use advent_of_codspeed_2024::day13;

const EXAMPLE: &str = "Button A: X+94, Y+34
Button B: X+22, Y+67
Prize: X=8400, Y=5400

Button A: X+26, Y+66
Button B: X+67, Y+21
Prize: X=12748, Y=12176

Button A: X+17, Y+86
Button B: X+84, Y+37
Prize: X=7870, Y=6450

Button A: X+69, Y+23
Button B: X+27, Y+71
Prize: X=18641, Y=10279
";

#[test]
fn day13_example_part1() {
    assert_eq!(day13::part1(EXAMPLE), 480);
}

#[test]
fn day13_example_part2() {
    assert_eq!(day13::part2(EXAMPLE), 875318608908);
    assert_eq!(day13::run(EXAMPLE), 875318608908);
}

#[test]
fn day13_single_machine_cost() {
    // 80 presses of A and 40 of B: 3 * 80 + 40 tokens
    let one = "Button A: X+94, Y+34\nButton B: X+22, Y+67\nPrize: X=8400, Y=5400\n";
    assert_eq!(day13::part1(one), 280);
}

#[test]
fn day13_unreachable_prize() {
    let one = "Button A: X+26, Y+66\nButton B: X+67, Y+21\nPrize: X=12748, Y=12176\n";
    assert_eq!(day13::part1(one), 0);
}
