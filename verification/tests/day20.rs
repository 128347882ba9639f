use advent_of_codspeed_2024::day20;

fn render(g: &[Vec<u8>]) -> String {
    let mut s = String::new();
    for row in g {
        s.push_str(std::str::from_utf8(row).unwrap());
        s.push('\n');
    }
    s
}

fn u_track() -> String {
    let mut g = vec![vec![b'#'; 141]; 141];
    for c in 1..=130 {
        g[1][c] = b'.';
        g[3][c] = b'.';
    }
    g[2][130] = b'.';
    g[1][1] = b'E';
    g[3][1] = b'S';
    render(&g)
}

fn straight_track() -> String {
    let mut g = vec![vec![b'#'; 141]; 141];
    for c in 1..=139 {
        g[70][c] = b'.';
    }
    g[70][1] = b'S';
    g[70][139] = b'E';
    render(&g)
}

#[test]
fn day20_u_track_short_cheats() {
    assert_eq!(day20::part1(&u_track()), 80);
}

#[test]
fn day20_u_track_long_cheats() {
    let s = u_track();
    assert_eq!(day20::part2(&s), 2618);
    assert_eq!(day20::run(&s), 2618);
}

#[test]
fn day20_straight_track_has_no_cheats() {
    let s = straight_track();
    assert_eq!(day20::part1(&s), 0);
    assert_eq!(day20::part2(&s), 0);
}

#[test]
fn day20_race_length_of_good_maps() {
    // 129 moves right, 2 down, 129 left
    assert_eq!(day20::race_length(&u_track()), Some(129 + 2 + 129));
    assert_eq!(day20::race_length(&straight_track()), Some(138));
}

#[test]
fn day20_race_length_refuses_other_maps() {
    // too short
    assert_eq!(day20::race_length("#E.S#\n"), None);
    // a byte that is not part of a map
    let s = straight_track().replacen('.', "x", 1);
    assert_eq!(day20::race_length(&s), None);
    // no S
    let s = straight_track().replace('S', ".");
    assert_eq!(day20::race_length(&s), None);
    // the race leaves the track and runs along row 1 out of the map's rows
    let mut g = vec![vec![b'#'; 141]; 141];
    g[1][5] = b'E';
    g[139][1] = b'S';
    assert_eq!(day20::race_length(&render(&g)), None);
}
