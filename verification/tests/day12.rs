use advent_of_codspeed_2024::day12;

fn garden(rows: &[&str], fill: u8) -> String {
    let mut g = vec![vec![fill; 140]; 140];
    for (y, row) in rows.iter().enumerate() {
        for (x, b) in row.bytes().enumerate() {
            g[y][x] = b;
        }
    }
    let mut s = String::new();
    for row in g {
        s.push_str(std::str::from_utf8(&row).unwrap());
        s.push('\n');
    }
    s
}

#[test]
fn day12_part2_is_zero() {
    let s = garden(&["AAAA", "BBCD", "BBCC", "EEEC"], b'Z');
    assert_eq!(day12::part2(&s), 0);
    assert_eq!(day12::run(&s), 0);
}

#[test]
fn day12_one_region() {
    assert_eq!(day12::part1(&garden(&[], b'A')), 19600 * 560);
}

#[test]
fn day12_small_example() {
    let s = garden(&["AAAA", "BBCD", "BBCC", "EEEC"], b'Z');
    assert_eq!(day12::part1(&s), 140 + 19584 * 560);
}

#[test]
fn day12_region_with_holes() {
    let s = garden(&["OOOOO", "OXOXO", "OOOOO", "OXOXO", "OOOOO"], b'Z');
    assert_eq!(day12::part1(&s), 772 + 19575 * 560);
}
