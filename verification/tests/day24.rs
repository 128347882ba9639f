use advent_of_codspeed_2024::day24;

fn wires(x: u64, y: u64) -> String {
    let mut s = String::new();
    for k in 0..45 {
        s.push_str(&format!("x{:02}: {}\n", k, (x >> k) & 1));
    }
    for k in 0..45 {
        s.push_str(&format!("y{:02}: {}\n", k, (y >> k) & 1));
    }
    s.push('\n');
    s
}

fn adder(x: u64, y: u64, reverse: bool) -> String {
    let mut gates = Vec::new();
    gates.push("x00 XOR y00 -> z00\n".to_string());
    gates.push("x00 AND y00 -> c00\n".to_string());
    for k in 1..45 {
        gates.push(format!("x{k:02} XOR y{k:02} -> t{k:02}\n"));
        gates.push(format!("t{k:02} XOR c{:02} -> z{k:02}\n", k - 1));
        gates.push(format!("x{k:02} AND y{k:02} -> a{k:02}\n"));
        gates.push(format!("t{k:02} AND c{:02} -> b{k:02}\n", k - 1));
        gates.push(format!("a{k:02} OR b{k:02} -> c{k:02}\n"));
    }
    gates.push("c44 OR c44 -> z45\n".to_string());
    if reverse {
        gates.reverse();
    }
    wires(x, y) + &gates.concat()
}

#[test]
fn day24_adder_adds() {
    let (x, y) = (0x1234_5678_9abc, 0x0fed_cba9_8765);
    let s = adder(x, y, false);
    assert_eq!(day24::part1(&s), x + y);
    assert_eq!(day24::run(&s), (x + y) as i64);
}

#[test]
fn day24_gate_order_does_not_matter() {
    let (x, y) = ((1u64 << 45) - 1, 1);
    assert_eq!(day24::part1(&adder(x, y, true)), x + y);
}

#[test]
fn day24_and_gates() {
    let (x, y) = (0b1011_0110u64, 0b0110_1101u64);
    let mut s = wires(x, y);
    for k in 0..45 {
        s.push_str(&format!("x{k:02} AND y{k:02} -> z{k:02}\n"));
    }
    s.push_str("x00 OR y00 -> z45\n");
    assert_eq!(day24::part1(&s), (x & y) | (1 << 45));
}

/// The three-letter name number `k`: `aaa`, `aab`, ...
fn letter_name(k: usize) -> String {
    let l = b"abcdefghijklmnopqrstuvwxyz";
    format!("{}{}{}", l[k / 676] as char, l[(k / 26) % 26] as char, l[k % 26] as char)
}

/// A ripple-carry adder of the puzzle's shape with letter-named inner wires;
/// `swaps` lists pairs of tags (`a5`, `b5`, `d5`, `c5` or `z05`) whose
/// gate outputs trade places.
fn swapped_adder(swaps: &[(&str, &str)]) -> String {
    let mut next = 0;
    let mut names: std::collections::HashMap<String, String> = std::collections::HashMap::new();
    let mut fresh = |tag: String, names: &mut std::collections::HashMap<String, String>| {
        let n = letter_name(next);
        next += 1;
        names.insert(tag, n.clone());
        n
    };
    let mut gates: Vec<(String, &str, String, String)> = Vec::new();
    gates.push(("x00".into(), "XOR", "y00".into(), "z00".into()));
    let c0 = fresh("c0".into(), &mut names);
    gates.push(("x00".into(), "AND", "y00".into(), c0));
    for i in 1..45 {
        let x = format!("x{i:02}");
        let y = format!("y{i:02}");
        let a = fresh(format!("a{i}"), &mut names);
        let b = fresh(format!("b{i}"), &mut names);
        gates.push((x.clone(), "XOR", y.clone(), a.clone()));
        gates.push((y, "AND", x, b.clone()));
        let cp = names[&format!("c{}", i - 1)].clone();
        gates.push((a.clone(), "XOR", cp.clone(), format!("z{i:02}")));
        let d = fresh(format!("d{i}"), &mut names);
        gates.push((cp, "AND", a, d.clone()));
        let c = if i == 44 {
            names.insert("c44".into(), "z45".into());
            "z45".to_string()
        } else {
            fresh(format!("c{i}"), &mut names)
        };
        gates.push((b, "OR", d, c));
    }
    for &(p, q) in swaps {
        let pn = names.get(p).cloned().unwrap_or(p.to_string());
        let qn = names.get(q).cloned().unwrap_or(q.to_string());
        for g in gates.iter_mut() {
            if g.3 == pn {
                g.3 = qn.clone();
            } else if g.3 == qn {
                g.3 = pn.clone();
            }
        }
    }
    let mut s = wires(0x1234_5678_9abc & ((1 << 45) - 1), 0x0fed_cba9_8765);
    for (a, op, b, o) in gates {
        s.push_str(&format!("{a} {op} {b} -> {o}\n"));
    }
    s
}

#[test]
fn day24_part2_finds_four_swaps() {
    let input = swapped_adder(&[("z05", "d5"), ("z10", "c10"), ("a15", "b15"), ("z20", "b20")]);
    assert_eq!(day24::part2(&input), "aat,abo,acf,acg,ada,z05,z10,z20");
}

#[test]
fn day24_part2_other_swaps() {
    let input = swapped_adder(&[("z07", "c7"), ("z13", "d13"), ("a24", "b24"), ("z31", "a31")]);
    assert_eq!(day24::part2(&input), "abc,abz,adp,adq,aer,z07,z13,z31");
}
