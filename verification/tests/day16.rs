use advent_of_codspeed_2024::day16::{self, DirId};

const LEFT: DirId = DirId(0b00);
const RIGHT: DirId = DirId(0b11);
const UP: DirId = DirId(0b10);
const DOWN: DirId = DirId(0b01);

#[test]
fn day16_invert_gives_opposite() {
    assert_eq!(LEFT.invert().0, RIGHT.0);
    assert_eq!(RIGHT.invert().0, LEFT.0);
    assert_eq!(UP.invert().0, DOWN.0);
    assert_eq!(DOWN.invert().0, UP.0);
}

#[test]
fn day16_perpendiculars() {
    assert_eq!(LEFT.perp1().0, DOWN.0);
    assert_eq!(LEFT.perp2().0, UP.0);
    assert_eq!(UP.perp1().0, RIGHT.0);
    assert_eq!(UP.perp2().0, LEFT.0);
}

#[test]
fn day16_kind_and_parity() {
    assert_eq!(LEFT.kind(), 0);
    assert_eq!(RIGHT.kind(), 0);
    assert_eq!(UP.kind(), 1);
    assert_eq!(DOWN.kind(), 1);
    assert_eq!(LEFT.parity(), 0);
    assert_eq!(RIGHT.parity(), 1);
    assert_eq!(UP.parity(), 0);
    assert_eq!(DOWN.parity(), 1);
    assert_eq!(RIGHT.idx(), 3);
}

#[test]
fn day16_part2_is_zero() {
    assert_eq!(day16::part2("#\n"), 0);
}

/// A maze of walls with the given open cells (row, column), the start at
/// row 139, column 1, and the end at row 1, column 139.
fn maze(open: &[(usize, usize)]) -> String {
    let mut g = vec![vec![b'#'; 141]; 141];
    for &(r, c) in open {
        g[r][c] = b'.';
    }
    g[139][1] = b'S';
    g[1][139] = b'E';
    let mut s = String::new();
    for row in g {
        s.push_str(std::str::from_utf8(&row).unwrap());
        s.push('\n');
    }
    s
}

#[test]
fn day16_part1_east_then_north() {
    let mut open = Vec::new();
    for c in 2..=139 {
        open.push((139, c));
    }
    for r in 2..=138 {
        open.push((r, 139));
    }
    let s = maze(&open);
    // 138 steps east, one turn, 138 steps north
    assert_eq!(day16::part1(&s), 138 + 1000 + 138);
    assert_eq!(day16::run(&s), 1276);
}

#[test]
fn day16_part1_north_then_east() {
    let mut open = Vec::new();
    for r in 1..=138 {
        open.push((r, 1));
    }
    for c in 2..=138 {
        open.push((1, c));
    }
    let s = maze(&open);
    // a turn north, 138 steps, a turn east, 138 steps
    assert_eq!(day16::part1(&s), 2276);
}
