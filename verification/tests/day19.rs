use advent_of_codspeed_2024::day19;

const EXAMPLE: &str = "r, wr, b, g, bwu, rb, gb, br\n\nbrwrr\nbggr\ngbbr\nrrbgbr\nubwu\nbwurrg\nbrgr\nbbrgwb\n";

#[test]
fn day19_example() {
    assert_eq!(day19::part1(EXAMPLE), 6);
    assert_eq!(day19::part2(EXAMPLE), 16);
    assert_eq!(day19::run(EXAMPLE), 6);
}

#[test]
fn day19_repeated_stripes() {
    // "rrrr" splits into r and rr pieces: compositions of 4 into 1s and 2s
    let s = "r, rr\n\nrrrr\nu\n";
    assert_eq!(day19::part1(s), 1);
    assert_eq!(day19::part2(s), 5);
}

#[test]
fn day19_duplicate_towels_count_once() {
    let s = "wu, wu, w, u\n\nwu\n";
    assert_eq!(day19::part1(s), 1);
    assert_eq!(day19::part2(s), 2);
}
