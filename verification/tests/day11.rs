use advent_of_codspeed_2024::day11;

#[test]
fn day11_example_part1() {
    assert_eq!(day11::part1("125 17\n"), 55312);
}

#[test]
fn day11_example_part2() {
    assert_eq!(day11::part2("125 17\n"), 65601038650482);
    assert_eq!(day11::run("125 17\n"), 65601038650482);
}

#[test]
fn day11_zero_becomes_one() {
    // 0 -> 1 -> 2024 -> 20 24 -> 2 0 2 4 -> 4048 1 4048 8096: 1, 1, 1, 2, 4, 4 stones
    // part 1 blinks 25 times; the count from 0 equals the count from 1 after
    // one blink fewer, so 0 followed by 1 gives more stones than 1 alone
    assert!(day11::part1("0 1\n") > day11::part1("1\n"));
}

#[test]
fn day11_solve_rec_sums_to_part1() {
    let lut = day11::build_table(75);
    let total = day11::solve_rec(25, 125, &lut, 76) + day11::solve_rec(25, 17, &lut, 76);
    assert_eq!(total, 55312);
    assert_eq!(day11::solve_rec(0, 123456, &lut, 76), 1);
    assert_eq!(day11::solve_rec(1, 0, &lut, 76), 1);
    assert_eq!(day11::solve_rec(1, 2024, &lut, 76), 2);
}
