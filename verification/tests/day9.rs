use advent_of_codspeed_2024::day9;

#[test]
fn day9_example() {
    assert_eq!(day9::part2("2333133121414131402\n"), 2858);
    assert_eq!(day9::run("2333133121414131402"), 2858);
}

#[test]
fn day9_nothing_fits() {
    // file 0: 1 block, 1 free, file 1: 2 blocks: file 1 cannot move
    assert_eq!(day9::part2("112\n"), 1 * 2 + 1 * 3);
}

#[test]
fn day9_moves_left() {
    // file 0 at 0, three free blocks, file 1 (two blocks) moves to 1..2
    assert_eq!(day9::part2("132\n"), 1 * 1 + 1 * 2);
}

#[test]
fn day9_part1_example() {
    assert_eq!(day9::part1("2333133121414131402\n"), 1928);
    assert_eq!(day9::part1("2333133121414131402"), 1928);
}

#[test]
fn day9_part1_small_disk() {
    // 0..111....22222 becomes 022111222
    assert_eq!(day9::part1("12345"), 2 + 4 + 3 + 4 + 5 + 12 + 14 + 16);
}

#[test]
fn day9_part1_single_file_and_no_room() {
    assert_eq!(day9::part1("3\n"), 0);
    assert_eq!(day9::part1("102"), 1 + 2);
}

#[test]
fn day9_part1_last_file_split() {
    // 0.111 -> 01 11: file 1's last block fills the gap
    assert_eq!(day9::part1("113"), 1 + 2 + 3);
}
