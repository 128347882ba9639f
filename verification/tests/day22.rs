use advent_of_codspeed_2024::day22;

#[test]
fn day22_same_buyer_everywhere() {
    let input = "1\n".repeat(1601);
    // the 2000th secret number after 1 is 8685429
    assert_eq!(day22::part1(&input), 1601 * 8685429);
    assert_eq!(day22::run(&input), 1601 * 8685429);
    assert_eq!(day22::part2(&input), 0);
}

#[test]
fn day22_example_buyers() {
    let mut input = String::new();
    for _ in 0..400 {
        input.push_str("1\n10\n100\n2024\n");
    }
    input.push_str("1\n");
    // 8685429 + 4700978 + 15273692 + 8667524 == 37327623
    assert_eq!(day22::part1(&input), 400 * 37327623 + 8685429);
}

#[test]
fn day22_eight_digit_secret() {
    let mut input = "0\n".repeat(1600);
    input.push_str("12345678\n");
    // 0 stays 0 forever
    let alone = day22::part1(&input);
    let mut reference: u64 = 12345678;
    for _ in 0..2000 {
        reference = ((reference * 64) ^ reference) % 16777216;
        reference = ((reference / 32) ^ reference) % 16777216;
        reference = ((reference * 2048) ^ reference) % 16777216;
    }
    assert_eq!(alone, reference);
}
