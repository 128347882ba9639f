use advent_of_codspeed_2024::day17;

fn simulate(a: u64, prog: &[u64]) -> String {
    let (mut a, mut b, mut c) = (a, 0u64, 0u64);
    let mut ip = 0;
    let mut out = Vec::new();
    while ip + 1 < prog.len() {
        let (op, lit) = (prog[ip], prog[ip + 1]);
        let combo = match lit {
            4 => a,
            5 => b,
            6 => c,
            v => v,
        };
        ip += 2;
        match op {
            0 => a >>= combo,
            1 => b ^= lit,
            2 => b = combo % 8,
            3 => {
                if a != 0 {
                    ip = lit as usize;
                }
            }
            4 => b ^= c,
            5 => out.push((combo % 8).to_string()),
            6 => b = a >> combo,
            _ => c = a >> combo,
        }
    }
    out.join(",")
}

fn input(a: u64, prog: &[u64]) -> String {
    let p: Vec<String> = prog.iter().map(|d| d.to_string()).collect();
    format!("Register A: {}\nRegister B: 0\nRegister C: 0\n\nProgram: {}\n", a, p.join(","))
}

#[test]
fn day17_matches_the_machine() {
    let prog = [2, 4, 1, 5, 7, 5, 1, 6, 0, 3, 4, 0, 5, 5, 3, 0];
    for a in [12345678u64, 10000000, 99999999, 64012345] {
        let s = input(a, &prog);
        assert_eq!(day17::part1(&s), simulate(a, &prog));
        assert_eq!(day17::run(&s), simulate(a, &prog));
    }
}

#[test]
fn day17_other_instruction_order() {
    let prog = [2, 4, 1, 3, 7, 5, 4, 2, 1, 5, 0, 3, 5, 5, 3, 0];
    for a in [12345678u64, 47006051, 88888888] {
        let s = input(a, &prog);
        assert_eq!(day17::part1(&s), simulate(a, &prog));
    }
}

#[test]
fn day17_known_output() {
    // a = 10000000: b = 0 ^ 5 = 5, c = a >> 5 = 312500, b ^= 6 -> 3, b ^= c & 7 (4) -> 7
    let s = input(10000000, &[2, 4, 1, 5, 7, 5, 1, 6, 0, 3, 4, 0, 5, 5, 3, 0]);
    let out = day17::part1(&s);
    assert!(out.starts_with("7,"));
    assert_eq!(out.len(), 2 * 8 - 1);
}

#[test]
fn day17_part2_program_outputs_itself() {
    let prog = [2, 4, 1, 5, 7, 5, 1, 6, 0, 3, 4, 0, 5, 5, 3, 0];
    let a = day17::part2(&input(12345678, &prog));
    assert_eq!(a, 105843716614554);
    let text: Vec<String> = prog.iter().map(|d| d.to_string()).collect();
    assert_eq!(simulate(a, &prog), text.join(","));
}

#[test]
fn day17_part2_another_order() {
    let prog = [2, 4, 1, 1, 7, 5, 1, 5, 4, 0, 0, 3, 5, 5, 3, 0];
    let a = day17::part2(&input(10000000, &prog));
    assert_eq!(a, 164541160582845);
    let text: Vec<String> = prog.iter().map(|d| d.to_string()).collect();
    assert_eq!(simulate(a, &prog), text.join(","));
}

#[test]
fn day17_part2_not_found_or_other_shape() {
    // the search gives up on this program
    assert_eq!(day17::part2(&input(10000000, &[2, 4, 1, 3, 7, 5, 4, 2, 1, 5, 0, 3, 5, 5, 3, 0])), 0);
    // an output before the shift: not a searched shape
    assert_eq!(day17::part2(&input(10000000, &[2, 4, 1, 5, 7, 5, 5, 5, 0, 3, 4, 0, 1, 6, 3, 0])), 0);
}
