use advent_of_codspeed_2024::day15;

fn warehouse(rows: &[&str], moves: &str) -> String {
    let mut g = vec![vec![b'#'; 50]; 50];
    for (y, row) in rows.iter().enumerate() {
        for (x, b) in row.bytes().enumerate() {
            g[y][x] = b;
        }
    }
    let mut s = String::new();
    for row in g {
        s.push_str(std::str::from_utf8(&row).unwrap());
        s.push('\n');
    }
    s.push('\n');
    s.push_str(moves);
    s
}

#[test]
fn day15_small_example() {
    let s = warehouse(
        &["########", "#..O.O.#", "##@.O..#", "#...O..#", "#.#.O..#", "#...O..#", "#......#", "########"],
        "<^^>>>vv<v>>v<<\n",
    );
    assert_eq!(day15::part1(&s), 2028);
}

#[test]
fn day15_larger_example() {
    let s = warehouse(
        &[
            "##########",
            "#..O..O.O#",
            "#......O.#",
            "#.OO..O.O#",
            "#..O@..O.#",
            "#O#..O...#",
            "#O..O..O.#",
            "#.OO.O.OO#",
            "#....O...#",
            "##########",
        ],
        "<vv>^<v^>v>^vv^v>v<>v^v<v<^vv<<<^><<><>>v<vvv<>^v^>^<<<><<v<<<v^vv^v>^\nvvv<<^>^v^^><<>>><>^<<><^vv^^<>vvv<>><^^v>^>vv<>v<<<<v<^v>^<^^>>>^<v<v\n><>vv>v^v^<>><>>>><^^>vv>v<^^^>>v^v^<^^>v^^>v^<^v>v<>>v^v^<v>v^^<^^vv<\n<<v<^>>^^^^>>>v^<>vvv^><v<<<>^^^vv^<vvv>^>v<^^^^v<>^>vvvv><>>v^<<^^^^^\n^><^><>>><>^^<<^^v>>><^<v>^<vv>>v>>>^v><>^v><<<<v>>v<v<v>vvv>^<><<>^><\n^>><>^v<><^vvv<^^<><v<<<<<><^v<<<><<<^^<v<^^^><^>>^<v^><<<^>>^v<v^v<v^\n>^>>^v>vv>^<<^v<>><<><<v<<v><>v<^vv<<<>^^v^>^^>>><<^v>>v^v><^^>>^<>vv^\n<><^^>^^^<><vvvvv^v<v<<>^v<v>v<<^><<><<><<<^^<<<^<<>><<><^^^>^^<>^>v<>\n^^>vv<^v^v<vv>^<><v<^v>^^^>>>^^vvv^>vvv<>>>^<^>>>>>^<<^v>^vvv<>^<><<v>\nv^^>>><<^^<>>^v^<v^vv<>v^<<>^<^v^v><^<<<><<^<v><v<>vv>>v><v^<vv<>v^<<^\n",
    );
    assert_eq!(day15::part1(&s), 10092);
    assert_eq!(day15::part2(&s), 9021);
    assert_eq!(day15::run(&s), 9021);
}

#[test]
fn day15_blocked_push() {
    let s = warehouse(&["#####", "#@OO#", "#####"], ">>>\n");
    assert_eq!(day15::part1(&s), 102 + 103);
}

#[test]
fn day15_wide_small_example() {
    let s = warehouse(&["#######", "#...#.#", "#.....#", "#..OO@#", "#..O..#", "#.....#", "#######"], "<vv<<^^<<^^\n");
    assert_eq!(day15::part2(&s), 105 + 207 + 306);
}
