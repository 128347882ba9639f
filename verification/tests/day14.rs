use advent_of_codspeed_2024::day14::fastdiv::{compute_m_u16, fastmod_h, fastmod_u16, fastmod_w};
use advent_of_codspeed_2024::day14::{part1, part2, run};

#[test]
fn day14_fastmod_matches_remainder() {
    for a in 0..=u16::MAX {
        assert_eq!(fastmod_w(a), a % 101);
        assert_eq!(fastmod_h(a), a % 103);
    }
}

#[test]
fn day14_part1_quadrants() {
    // (0,0) top-left, (0,60) bottom-left, (60,0) top-right, (60,60)
    // bottom-right, (50,7) on the middle column, and a moving robot that
    // ends at (98,13), top-right.
    let input = "p=0,0 v=0,0\np=0,60 v=0,0\np=60,0 v=0,0\np=60,60 v=0,0\np=50,7 v=0,0\np=0,4 v=3,-3\n";
    assert_eq!(part1(input), 2);
}

#[test]
fn day14_part1_empty_quadrant() {
    assert_eq!(part1("p=0,0 v=1,1\n"), 0);
}

#[test]
fn day14_part2_gathered_at_once() {
    let input = "p=50,51 v=0,0\n".repeat(500);
    // gathered at second 1 on both axes: 51 * (103 + 101) mod 10403 == 1
    assert_eq!(part2(&input), 1);
    assert_eq!(run(&input), 1);
}

#[test]
fn day14_part2_gathering_times_combine() {
    // x gathers at second 1; y: all robots move from row 0 by 1 per second,
    // their spread |y - 51| is 50, 49, ... and first differs from 12875 by
    // 1500 or more at once too.
    let input = "p=50,0 v=0,1\n".repeat(500);
    let t = part2(&input) as i64;
    assert_eq!(t % 101, 1);
    assert_eq!(t % 103, 1);
}

#[test]
fn day14_fastmod_any_divisor() {
    for d in [2u16, 3, 7, 101, 103, 1000, 65535] {
        let m = compute_m_u16(d);
        for a in [0u16, 1, 2, 99, 100, 101, 102, 103, 5000, 65534, 65535] {
            assert_eq!(fastmod_u16(a, m, d), a % d);
        }
    }
}
