use advent_of_codspeed_2024::day8;

fn map(antennas: &[(usize, usize, u8)]) -> String {
    let mut g = vec![vec![b'.'; 50]; 50];
    for &(x, y, b) in antennas {
        g[y][x] = b;
    }
    let mut s = String::new();
    for row in g {
        s.push_str(std::str::from_utf8(&row).unwrap());
        s.push('\n');
    }
    s
}

#[test]
fn day8_one_pair() {
    let s = map(&[(4, 3, b'a'), (5, 5, b'a')]);
    assert_eq!(day8::part1(&s), 2);
    assert_eq!(day8::run(&s), 2);
}

#[test]
fn day8_edge_cuts_one() {
    let s = map(&[(0, 0, b'a'), (1, 1, b'a')]);
    assert_eq!(day8::part1(&s), 1);
}

#[test]
fn day8_three_antennas() {
    let s = map(&[(4, 3, b'a'), (8, 4, b'a'), (5, 5, b'a')]);
    assert_eq!(day8::part1(&s), 6);
}

#[test]
fn day8_frequencies_do_not_mix() {
    let s = map(&[(4, 3, b'a'), (5, 5, b'b')]);
    assert_eq!(day8::part1(&s), 0);
}

#[test]
fn day8_shared_antinode() {
    let s = map(&[(1, 1, b'a'), (2, 2, b'a'), (3, 1, b'B'), (3, 2, b'B')]);
    assert_eq!(day8::part1(&s), 3);
}

#[test]
fn day8_empty_map() {
    assert_eq!(day8::part1(&map(&[])), 0);
}

#[test]
fn day8_part2_line_to_the_edge() {
    // cells (k, 2k) for k = 0..24
    let s = map(&[(0, 0, b'A'), (1, 2, b'A')]);
    assert_eq!(day8::part2(&s), 25);
    assert_eq!(day8::part1(&s), 1);
}

#[test]
fn day8_part2_steps_are_not_reduced() {
    // step (2, 0) from x = 10: the even columns 0..48 of row 7
    let s = map(&[(10, 7, b'z'), (12, 7, b'z')]);
    assert_eq!(day8::part2(&s), 25);
}

#[test]
fn day8_part2_lines_share_cells() {
    // row 0 (50 cells) and column 0 (50 cells) meet at (0, 0)
    let s = map(&[(1, 0, b'a'), (2, 0, b'a'), (0, 1, b'b'), (0, 2, b'b')]);
    assert_eq!(day8::part2(&s), 99);
    // odd columns of row 0 and odd rows of column 0 do not meet
    let s = map(&[(3, 0, b'a'), (1, 0, b'a'), (0, 1, b'b'), (0, 3, b'b')]);
    assert_eq!(day8::part2(&s), 50);
}

#[test]
fn day8_part2_single_antennas_give_nothing() {
    let s = map(&[(3, 3, b'a'), (9, 9, b'b')]);
    assert_eq!(day8::part2(&s), 0);
    assert_eq!(day8::part2(&map(&[])), 0);
}
