use advent_of_codspeed_2024::day6;

fn grid(start: (usize, usize), rocks: &[(usize, usize)]) -> String {
    let mut g = vec![vec![b'.'; 130]; 130];
    g[start.0][start.1] = b'^';
    for &(r, c) in rocks {
        g[r][c] = b'#';
    }
    let mut s = String::new();
    for row in g {
        s.push_str(std::str::from_utf8(&row).unwrap());
        s.push('\n');
    }
    s
}

#[test]
fn day6_straight_up() {
    let s = grid((10, 5), &[]);
    assert_eq!(day6::part1(&s), 11);
}

#[test]
fn day6_one_turn() {
    let s = grid((10, 5), &[(2, 5)]);
    assert_eq!(day6::part1(&s), 132);
    assert_eq!(day6::part2(&s), 0);
    assert_eq!(day6::run(&s), 0);
}

#[test]
fn day6_two_traps() {
    let s = grid((10, 5), &[(2, 5), (3, 20), (21, 19), (20, 1)]);
    assert_eq!(day6::part1(&s), 76);
    assert_eq!(day6::part2(&s), 2);
    assert_eq!(day6::run(&s), 2);
}

#[test]
fn day6_premarked_cell_is_not_tried() {
    // the start's offset 20 * 131 + 108 = 2728 is 40 mod 64, so the cell at
    // offset 65 * 40 = 2600 (row 19, column 111) is marked before the walk;
    // the guard crosses it after its first turn, and an obstruction there
    // would trap it, but it is never tried
    let s = grid((20, 108), &[(14, 103), (22, 110), (18, 108), (21, 107), (13, 117), (13, 107)]);
    assert_eq!(day6::part1(&s), 23);
    assert_eq!(day6::part2(&s), 0);
}
