use advent_of_codspeed_2024::day25;

fn lock(h: [usize; 5]) -> String {
    let mut s = String::from("#####\n");
    for row in 1..6 {
        for c in 0..5 {
            s.push(if h[c] >= row { '#' } else { '.' });
        }
        s.push('\n');
    }
    s.push_str(".....\n");
    s
}

fn key(h: [usize; 5]) -> String {
    let mut s = String::from(".....\n");
    for row in 1..6 {
        for c in 0..5 {
            s.push(if h[c] >= 6 - row { '#' } else { '.' });
        }
        s.push('\n');
    }
    s.push_str("#####\n");
    s
}

fn input(locks: &[[usize; 5]], keys: &[[usize; 5]]) -> String {
    let blocks: Vec<String> = locks.iter().map(|h| lock(*h)).chain(keys.iter().map(|h| key(*h))).collect();
    blocks.join("\n")
}

fn expected(locks: &[[usize; 5]], keys: &[[usize; 5]]) -> u64 {
    let mut n = 0;
    for l in locks {
        for k in keys {
            if (0..5).all(|c| l[c] + k[c] <= 5) {
                n += 1;
            }
        }
    }
    n
}

#[test]
fn day25_all_fit() {
    let locks = vec![[0; 5]; 250];
    let keys = vec![[0; 5]; 250];
    let s = input(&locks, &keys);
    assert_eq!(day25::part1(&s), 62500);
    assert_eq!(day25::run(&s), 62500);
    assert_eq!(day25::part2(&s), 0);
}

#[test]
fn day25_none_fit() {
    let locks = vec![[5; 5]; 250];
    let keys = vec![[1, 0, 0, 0, 0]; 250];
    assert_eq!(day25::part1(&input(&locks, &keys)), 0);
}

#[test]
fn day25_mixed_heights() {
    let mut locks = Vec::new();
    let mut keys = Vec::new();
    for i in 0..250usize {
        locks.push([i % 6, (i / 6) % 6, (i * 7) % 6, (i * 5 + 1) % 6, i % 4]);
        keys.push([(i * 3) % 6, (i + 2) % 6, (i / 5) % 6, i % 2, (i * 11) % 6]);
    }
    let s = input(&locks, &keys);
    assert_eq!(day25::part1(&s), expected(&locks, &keys));
}
