use advent_of_codspeed_2024::day10;

fn embed(rows: &[&str]) -> String {
    let mut s = String::new();
    for r in 0..45 {
        let mut line = vec![b'.'; 45];
        if r < rows.len() {
            for (c, b) in rows[r].bytes().enumerate() {
                line[c] = b;
            }
        }
        s.push_str(std::str::from_utf8(&line).unwrap());
        s.push('\n');
    }
    s
}

#[test]
fn day10_example() {
    let s = embed(&[
        "89010123", "78121874", "87430965", "96549874", "45678903", "32019012", "01329801", "10456732",
    ]);
    assert_eq!(day10::part1(&s), 36);
    assert_eq!(day10::part2(&s), 81);
    assert_eq!(day10::run(&s), 81);
}

#[test]
fn day10_single_trail() {
    let s = embed(&["0123456789"]);
    assert_eq!(day10::part1(&s), 1);
    assert_eq!(day10::part2(&s), 1);
}

#[test]
fn day10_two_trails_one_peak() {
    let s = embed(&["0123", "1234", "2345", "3456", "4567", "5678", "6789"]);
    assert_eq!(day10::part1(&s), 1);
    assert_eq!(day10::part2(&s), 84);
}

#[test]
fn day10_no_trails() {
    let s = embed(&["0123456788"]);
    assert_eq!(day10::part1(&s), 0);
    assert_eq!(day10::part2(&s), 0);
}

#[test]
fn day10_scores_within_ratings() {
    let s = embed(&["9876543210123456789", "8765432101234567898", "0123456789876543210"]);
    let score = day10::part1(&s);
    let rating = day10::part2(&s);
    assert!(score <= rating);
    assert!(score > 0);
}
