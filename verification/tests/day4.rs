use advent_of_codspeed_2024::day4;

fn blank() -> Vec<Vec<u8>> {
    vec![vec![b'.'; 140]; 140]
}

fn render(g: &[Vec<u8>]) -> String {
    let mut s = String::new();
    for row in g {
        s.push_str(std::str::from_utf8(row).unwrap());
        s.push('\n');
    }
    s
}

fn put(g: &mut [Vec<u8>], r: usize, c: usize, dr: i64, dc: i64, word: &str) {
    for (k, b) in word.bytes().enumerate() {
        let rr = (r as i64 + k as i64 * dr) as usize;
        let cc = (c as i64 + k as i64 * dc) as usize;
        g[rr][cc] = b;
    }
}

#[test]
fn day4_empty_grid() {
    let s = render(&blank());
    assert_eq!(day4::part1(&s), 0);
    assert_eq!(day4::part2(&s), 0);
    assert_eq!(day4::run(&s), 0);
}

#[test]
fn day4_words_in_all_directions() {
    let mut g = blank();
    put(&mut g, 0, 0, 0, 1, "XMAS");
    put(&mut g, 10, 139, 0, -1, "XMAS");
    put(&mut g, 20, 5, 1, 0, "XMAS");
    put(&mut g, 139, 7, -1, 0, "XMAS");
    put(&mut g, 50, 50, 1, 1, "XMAS");
    put(&mut g, 60, 60, 1, -1, "XMAS");
    put(&mut g, 139, 0, -1, 1, "XMAS");
    put(&mut g, 139, 139, -1, -1, "XMAS");
    assert_eq!(day4::part1(&render(&g)), 8);
}

#[test]
fn day4_word_cut_by_edge_is_not_counted() {
    let mut g = blank();
    put(&mut g, 0, 137, 0, 1, "XMA");
    put(&mut g, 1, 0, 0, 1, "S");
    assert_eq!(day4::part1(&render(&g)), 0);
}

#[test]
fn day4_shared_x() {
    let mut g = blank();
    put(&mut g, 70, 70, 0, 1, "XMAS");
    put(&mut g, 70, 70, 1, 0, "XMAS");
    put(&mut g, 70, 70, 1, 1, "XMAS");
    assert_eq!(day4::part1(&render(&g)), 3);
}

#[test]
fn day4_crosses() {
    let mut g = blank();
    put(&mut g, 4, 4, 1, 1, "MAS");
    put(&mut g, 4, 6, 1, -1, "SAM");
    put(&mut g, 100, 100, 1, 1, "SAM");
    put(&mut g, 100, 102, 1, -1, "SAM");
    // not a cross: both diagonals read MAM / SAS
    put(&mut g, 30, 30, 1, 1, "MAM");
    put(&mut g, 30, 32, 1, -1, "SAS");
    let s = render(&g);
    assert_eq!(day4::part2(&s), 2);
    assert_eq!(day4::run(&s), 2);
}
