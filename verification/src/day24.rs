//! Crossed wires: the number a circuit of logic gates outputs on its `z` wires.
//!
//! The input sets the wires `x00`..`x44` and `y00`..`y44`, one line `x00: 1`
//! each, then after a blank line lists the gates, `a AND b -> c`, `a XOR b -> c`
//! or `a OR b -> c`. Wire names are three letters or digits.
use vstd::prelude::*;
use vstd::string::StringSliceAdditionalSpecFns;

use crate::sort::{
    ascending, ascending_seq, insert_sorted, ints, lemma_ascending_total, lemma_is_sorted_ascending, sorted_ascending,
};
use crate::text::ascii_text;

verus! {

/// The number of possible wire names.
pub open spec fn names() -> int {
    46656
}

/// The code of a name character: letters first, then digits.
pub open spec fn code(b: u8) -> int {
    if 97 <= b <= 122 {
        b - 97
    } else {
        b - 48 + 26
    }
}

/// `b` is a lowercase letter or a digit.
pub open spec fn name_char(b: u8) -> bool {
    (97 <= b <= 122) || (48 <= b <= 57)
}

/// The number of the wire named at offset `i`.
pub open spec fn wire_at(s: Seq<u8>, i: int) -> int {
    code(s[i]) * 1296 + code(s[i + 1]) * 36 + code(s[i + 2])
}

/// The number of the wire `z` followed by the two digits of `k`.
pub open spec fn z_wire(k: int) -> int {
    code(122) * 1296 + (k / 10 + 26) * 36 + (k % 10 + 26)
}

/// The number of bytes of the line at `i` that lists a gate: `OR` is one letter shorter.
pub open spec fn gate_len(s: Seq<u8>, i: int) -> int {
    if s[i + 4] == 79 {
        18
    } else {
        19
    }
}

/// The kind of gate on the line from `i`: 0 for `AND`, 1 for `XOR`, 2 for `OR`.
pub open spec fn gate_op(s: Seq<u8>, i: int) -> int {
    if s[i + 4] == 65 {
        0
    } else if s[i + 4] == 88 {
        1
    } else {
        2
    }
}

/// A gate, from its text at `i`: first input, kind, second input and output.
pub open spec fn gate_from(s: Seq<u8>, i: int) -> (int, int, int, int) {
    (wire_at(s, i), gate_op(s, i), wire_at(s, i + gate_len(s, i) - 11), wire_at(s, i + gate_len(s, i) - 4))
}

/// The line at `i` lists a well-formed gate.
pub open spec fn wf_gate(s: Seq<u8>, i: int) -> bool {
    let n = gate_len(s, i);
    &&& 0 <= i
    &&& i + n <= s.len()
    &&& name_char(s[i]) && name_char(s[i + 1]) && name_char(s[i + 2])
    &&& (s[i + 4] == 65 || s[i + 4] == 88 || s[i + 4] == 79)
    &&& name_char(s[i + n - 11]) && name_char(s[i + n - 10]) && name_char(s[i + n - 9])
    &&& name_char(s[i + n - 4]) && name_char(s[i + n - 3]) && name_char(s[i + n - 2])
    &&& s[i + n - 1] == 10
}

/// The gates listed from offset `i` on.
pub open spec fn gates(s: Seq<u8>, i: int) -> Seq<(int, int, int, int)>
    decreases s.len() - i,
{
    if 0 <= i < s.len() && wf_gate(s, i) {
        seq![gate_from(s, i)] + gates(s, i + gate_len(s, i))
    } else {
        seq![]
    }
}

/// The gates listed from `i` on are well formed and end the input.
pub open spec fn wf_gates(s: Seq<u8>, i: int) -> bool
    decreases s.len() - i,
{
    if i >= s.len() {
        i == s.len()
    } else {
        wf_gate(s, i) && wf_gates(s, i + gate_len(s, i))
    }
}

/// The value the input sets on wire `w`, if it sets one: the last of the
/// ninety lines naming it.
pub open spec fn input_value(s: Seq<u8>, w: int, n: int) -> Option<bool>
    decreases n,
{
    if n <= 0 {
        None
    } else if wire_at(s, 7 * (n - 1)) == w {
        Some(s[7 * (n - 1) + 5] == 49)
    } else {
        input_value(s, w, n - 1)
    }
}

/// The first gate among the first `n` whose output is `w`.
pub open spec fn gate_for(gs: Seq<(int, int, int, int)>, w: int, n: int) -> Option<int>
    decreases n,
{
    if n <= 0 {
        None
    } else {
        match gate_for(gs, w, n - 1) {
            Some(g) => Some(g),
            None => if gs[n - 1].3 == w {
                Some(n - 1)
            } else {
                None
            },
        }
    }
}

/// Applies a gate's operation.
pub open spec fn apply(op: int, a: bool, b: bool) -> bool {
    if op == 0 {
        a && b
    } else if op == 1 {
        a != b
    } else {
        a || b
    }
}

/// The value of wire `w` when the circuit is followed `d` gates deep.
pub open spec fn value(s: Seq<u8>, w: int, d: nat) -> Option<bool>
    decreases d,
{
    let gs = gates(s, 631);
    match input_value(s, w, 90) {
        Some(v) => Some(v),
        None => if d == 0 {
            None
        } else {
            match gate_for(gs, w, gs.len() as int) {
                None => None,
                Some(g) => match (value(s, gs[g].0, (d - 1) as nat), value(s, gs[g].2, (d - 1) as nat)) {
                    (Some(a), Some(b)) => Some(apply(gs[g].1, a, b)),
                    _ => None,
                },
            }
        },
    }
}

/// The depth to which the circuit is followed: one more than its gates.
pub open spec fn depth(s: Seq<u8>) -> nat {
    gates(s, 631).len() + 1
}

/// The number whose bits `0..k` are the values of `z00`, `z01`, ...
pub open spec fn z_number(s: Seq<u8>, k: int) -> int
    decreases k,
{
    if k <= 0 {
        0
    } else {
        z_number(s, k - 1) + if value(s, z_wire(k - 1), depth(s)) == Some(true) {
            vstd::arithmetic::power2::pow2((k - 1) as nat) as int
        } else {
            0
        }
    }
}

/// Ninety wire lines, a blank line, then the gates.
pub open spec fn wf_text(s: Seq<u8>) -> bool {
    &&& s.len() > 630
    &&& forall|k: int|
        0 <= k < 90 ==> {
            &&& name_char(#[trigger] s[7 * k])
            &&& name_char(s[7 * k + 1])
            &&& name_char(s[7 * k + 2])
            &&& s[7 * k + 6] == 10
        }
    &&& s[630] == 10
    &&& wf_gates(s, 631)
}

/// A well-formed text in which every `z` wire gets a value.
pub open spec fn wf_input(s: Seq<u8>) -> bool {
    &&& wf_text(s)
    &&& forall|k: int| 0 <= k < 46 ==> #[trigger] value(s, z_wire(k), depth(s)) is Some
}

/// The number of the wire `x` (`c` = 23) or `y` (`c` = 24) followed by the two
/// digits of `k`.
pub open spec fn input_wire(c: int, k: int) -> int {
    c * 1296 + (k / 10 + 26) * 36 + (k % 10 + 26)
}

/// The ninety lines name `x00`..`x44`, then `y00`..`y44`, in order: the
/// values are read by position.
pub open spec fn ordered_inputs(s: Seq<u8>) -> bool {
    forall|k: int|
        0 <= k < 90 ==> #[trigger] wire_at(s, 7 * k) == if k < 45 {
            input_wire(23, k)
        } else {
            input_wire(24, k - 45)
        }
}

/// No two gates output the same wire, and no gate outputs an input wire.
pub open spec fn single_outputs(gs: Seq<(int, int, int, int)>) -> bool {
    &&& forall|g1: int, g2: int| 0 <= g1 < g2 < gs.len() ==> #[trigger] gs[g1].3 != #[trigger] gs[g2].3
    &&& forall|g: int| 0 <= g < gs.len() ==> !(23 <= (#[trigger] gs[g]).3 / 1296 <= 24)
}

/// The memo of the evaluation before any gate is evaluated: the values of
/// the input wires.
pub open spec fn memo_start(s: Seq<u8>) -> Map<int, bool> {
    Map::new(|w: int| input_value(s, w, 90) is Some, |w: int| input_value(s, w, 90).unwrap())
}

/// Reads wire `n` through the memo `m` with `k` levels left: the memo's
/// value if it holds one; with no level left, nothing else; otherwise the
/// wire evaluated from its inputs one level down, and remembered.
pub open spec fn memo_read(s: Seq<u8>, m: Map<int, bool>, n: int, k: nat) -> (Option<bool>, Map<int, bool>)
    decreases k, 0nat,
{
    if m.contains_key(n) {
        (Some(m[n]), m)
    } else if k == 0 {
        (None, m)
    } else {
        let (v, m2) = memo_force(s, m, n, (k - 1) as nat);
        match v {
            Some(b) => (Some(b), m2.insert(n, b)),
            None => (None, m2),
        }
    }
}

/// Evaluates wire `n` from its inputs, reading the left one first, with `k`
/// levels left.
pub open spec fn memo_force(s: Seq<u8>, m: Map<int, bool>, n: int, k: nat) -> (Option<bool>, Map<int, bool>)
    decreases k, 1nat,
{
    let gs = gates(s, 631);
    match gate_for(gs, n, gs.len() as int) {
        None => (None, m),
        Some(g) => {
            let (l, m1) = memo_read(s, m, gs[g].0, k);
            let (r, m2) = memo_read(s, m1, gs[g].2, k);
            match (l, r) {
                (Some(a), Some(b)) => (Some(apply(gs[g].1, a, b)), m2),
                _ => (None, m2),
            }
        },
    }
}

/// The memo after evaluating `z00`..`z(k-1)` in turn, each four levels
/// deep; `None` if one of them reads a wire the memo does not hold.
pub open spec fn memo_run(s: Seq<u8>, k: nat) -> Option<Map<int, bool>>
    decreases k,
{
    if k == 0 {
        Some(memo_start(s))
    } else {
        match memo_run(s, (k - 1) as nat) {
            None => None,
            Some(m) => {
                let (v, m2) = memo_force(s, m, z_wire(k - 1), 4);
                if v is Some {
                    Some(m2)
                } else {
                    None
                }
            },
        }
    }
}

/// The inputs are in order, each wire has at most one gate, and evaluating
/// the `z` wires in turn, each four levels deep with the values already
/// found remembered, never reads a wire whose value is not known: the
/// circuit is shallow enough for the evaluation part 1 performs.
pub open spec fn wf_eval(s: Seq<u8>) -> bool {
    &&& ordered_inputs(s)
    &&& single_outputs(gates(s, 631))
    &&& memo_run(s, 46) is Some
}

/// A wire's value as a byte: 0 or 1, and 2 for none.
pub open spec fn enc(v: Option<bool>) -> u8 {
    match v {
        Some(true) => 1,
        Some(false) => 0,
        None => 2,
    }
}

/// The number of the wire named at offset `i`, computed.
fn wire_exec(s: &[u8], i: usize) -> (w: usize)
    requires
        i + 3 <= s@.len(),
        name_char(s@[i as int]) && name_char(s@[i + 1]) && name_char(s@[i + 2]),
    ensures
        w == wire_at(s@, i as int),
        w < names(),
{
    let c0 = if s[i] >= 97 { (s[i] - 97) as usize } else { (s[i] - 48 + 26) as usize };
    let c1 = if s[i + 1] >= 97 { (s[i + 1] - 97) as usize } else { (s[i + 1] - 48 + 26) as usize };
    let c2 = if s[i + 2] >= 97 { (s[i + 2] - 97) as usize } else { (s[i + 2] - 48 + 26) as usize };
    c0 * 1296 + c1 * 36 + c2
}

/// The values the input sets, by wire.
fn input_table(s: &[u8]) -> (t: Vec<u8>)
    requires
        wf_input(s@),
    ensures
        t@.len() == names(),
        forall|w: int| 0 <= w < names() ==> t@[w] == enc(input_value(s@, w, 90)),
{
    let mut t: Vec<u8> = vec![2; 46656];
    let mut k: usize = 0;
    while k < 90
        invariant
            wf_input(s@),
            k <= 90,
            t@.len() == names(),
            forall|w: int| 0 <= w < names() ==> t@[w] == enc(#[trigger] input_value(s@, w, k as int)),
        decreases 90 - k,
    {
        assert(name_char(s@[7 * k as int]));
        let w = wire_exec(s, 7 * k);
        let v: u8 = if s[7 * k + 5] == 49 { 1 } else { 0 };
        let ghost before = t@;
        t.set(w, v);
        proof {
            assert forall|x: int| 0 <= x < names() implies t@[x] == enc(#[trigger] input_value(s@, x, k + 1)) by {
                assert(before[x] == enc(input_value(s@, x, k as int)));
            }
        }
        k = k + 1;
    }
    t
}

/// The gates, in order.
fn parse_gates(s: &[u8]) -> (gs: Vec<(usize, u8, usize, usize)>)
    requires
        wf_text(s@),
    ensures
        gs@.len() == gates(s@, 631).len(),
        forall|g: int|
            0 <= g < gs@.len() ==> {
                &&& gs@[g].0 == gates(s@, 631)[g].0
                &&& gs@[g].1 == gates(s@, 631)[g].1
                &&& gs@[g].2 == gates(s@, 631)[g].2
                &&& gs@[g].3 == gates(s@, 631)[g].3
                &&& gs@[g].0 < names() && gs@[g].2 < names() && gs@[g].3 < names()
            },
{
    let mut gs: Vec<(usize, u8, usize, usize)> = Vec::new();
    let mut i: usize = 631;
    let ghost all = gates(s@, 631);
    let ghost mut done: Seq<(int, int, int, int)> = seq![];
    proof {
        assert(all =~= done + gates(s@, 631));
    }
    while i < s.len()
        invariant
            wf_text(s@),
            all == gates(s@, 631),
            631 <= i <= s@.len(),
            wf_gates(s@, i as int),
            all == done + gates(s@, i as int),
            done.len() == gs@.len(),
            forall|g: int|
                0 <= g < gs@.len() ==> {
                    &&& gs@[g].0 == done[g].0
                    &&& gs@[g].1 == done[g].1
                    &&& gs@[g].2 == done[g].2
                    &&& gs@[g].3 == done[g].3
                    &&& gs@[g].0 < names() && gs@[g].2 < names() && gs@[g].3 < names()
                },
        decreases s@.len() - i,
    {
        let n: usize = if s[i + 4] == 79 { 18 } else { 19 };
        let a = wire_exec(s, i);
        let op: u8 = if s[i + 4] == 65 { 0 } else if s[i + 4] == 88 { 1 } else { 2 };
        let b = wire_exec(s, i + n - 11);
        let c = wire_exec(s, i + n - 4);
        proof {
            assert(gates(s@, i as int) == seq![gate_from(s@, i as int)] + gates(s@, i + n));
            assert(done + gates(s@, i as int) =~= done.push(gate_from(s@, i as int)) + gates(s@, i + n));
            done = done.push(gate_from(s@, i as int));
        }
        gs.push((a, op, b, c));
        i = i + n;
    }
    proof {
        assert(gates(s@, i as int) =~= seq![]);
        assert(all =~= done);
    }
    gs
}

/// For each wire, the first gate that outputs it, or the number of gates if none.
fn gate_table(gs: &Vec<(usize, u8, usize, usize)>, Ghost(all): Ghost<Seq<(int, int, int, int)>>) -> (t: Vec<usize>)
    requires
        gs@.len() == all.len(),
        forall|g: int| 0 <= g < gs@.len() ==> #[trigger] gs@[g].3 == all[g].3 && gs@[g].3 < names(),
    ensures
        t@.len() == names(),
        forall|w: int|
            0 <= w < names() ==> t@[w] == (match gate_for(all, w, all.len() as int) {
                Some(g) => g,
                None => all.len() as int,
            }),
{
    let n = gs.len();
    let mut t: Vec<usize> = vec![n; 46656];
    let mut j: usize = 0;
    while j < n
        invariant
            n == gs@.len(),
            gs@.len() == all.len(),
            forall|g: int| 0 <= g < gs@.len() ==> #[trigger] gs@[g].3 == all[g].3 && gs@[g].3 < names(),
            j <= n,
            t@.len() == names(),
            forall|w: int|
                0 <= w < names() ==> t@[w] == (match #[trigger] gate_for(all, w, j as int) {
                    Some(g) => g,
                    None => n as int,
                }),
        decreases n - j,
    {
        let w = gs[j].3;
        assert(w < names() && w == all[j as int].3);
        let ghost before = t@;
        if t[w] == n {
            t.set(w, j);
        }
        proof {
            assert forall|x: int| 0 <= x < names() implies t@[x] == (match #[trigger] gate_for(all, x, j + 1) {
                Some(g) => g,
                None => n as int,
            }) by {
                assert(before[x] == (match gate_for(all, x, j as int) {
                    Some(g) => g,
                    None => n as int,
                }));
                if let Some(g) = gate_for(all, x, j as int) {
                    lemma_gate_for_below(all, x, j as int);
                }
            }
        }
        j = j + 1;
    }
    t
}

proof fn lemma_gate_for_below(gs: Seq<(int, int, int, int)>, w: int, n: int)
    ensures
        gate_for(gs, w, n) matches Some(g) ==> 0 <= g < n && gs[g].3 == w,
    decreases n,
{
    if n > 0 {
        lemma_gate_for_below(gs, w, n - 1);
    }
}

/// Applies a gate's operation to wire values 0 or 1.
fn apply_exec(op: u8, a: u8, b: u8) -> (r: u8)
    requires
        a < 2,
        b < 2,
    ensures
        r == enc(Some(apply(op as int, a == 1, b == 1))),
{
    assert((a & b) == (if a == 1 && b == 1 { 1u8 } else { 0u8 }) && (a ^ b) == (if a != b { 1u8 } else { 0u8 })
        && (a | b) == (if a == 1 || b == 1 { 1u8 } else { 0u8 })) by (bit_vector)
        requires
            a < 2,
            b < 2,
    ;
    if op == 0 {
        a & b
    } else if op == 1 {
        a ^ b
    } else {
        a | b
    }
}

/// The values of all wires when the circuit is followed one gate deeper.
fn deeper(
    inp: &Vec<u8>,
    gt: &Vec<usize>,
    gs: &Vec<(usize, u8, usize, usize)>,
    cur: &Vec<u8>,
    Ghost(s): Ghost<Seq<u8>>,
    Ghost(d): Ghost<nat>,
) -> (nx: Vec<u8>)
    requires
        inp@.len() == names(),
        forall|w: int| 0 <= w < names() ==> inp@[w] == enc(input_value(s, w, 90)),
        gs@.len() == gates(s, 631).len(),
        forall|g: int|
            0 <= g < gs@.len() ==> {
                &&& gs@[g].0 == gates(s, 631)[g].0
                &&& gs@[g].1 == gates(s, 631)[g].1
                &&& gs@[g].2 == gates(s, 631)[g].2
                &&& gs@[g].3 == gates(s, 631)[g].3
                &&& gs@[g].0 < names() && gs@[g].2 < names() && gs@[g].3 < names()
            },
        gt@.len() == names(),
        forall|w: int|
            0 <= w < names() ==> gt@[w] == (match gate_for(gates(s, 631), w, gates(s, 631).len() as int) {
                Some(g) => g,
                None => gates(s, 631).len() as int,
            }),
        cur@.len() == names(),
        forall|w: int| 0 <= w < names() ==> cur@[w] == enc(value(s, w, d)),
    ensures
        nx@.len() == names(),
        forall|w: int| 0 <= w < names() ==> nx@[w] == enc(value(s, w, d + 1)),
{
    let ghost all = gates(s, 631);
    let n = gs.len();
    let mut nx: Vec<u8> = Vec::new();
    let mut w: usize = 0;
    while w < 46656
        invariant
            inp@.len() == names(),
            forall|x: int| 0 <= x < names() ==> inp@[x] == enc(input_value(s, x, 90)),
            all == gates(s, 631),
            n == gs@.len(),
            gs@.len() == all.len(),
            forall|g: int|
                0 <= g < gs@.len() ==> {
                    &&& gs@[g].0 == all[g].0
                    &&& gs@[g].1 == all[g].1
                    &&& gs@[g].2 == all[g].2
                    &&& gs@[g].3 == all[g].3
                    &&& gs@[g].0 < names() && gs@[g].2 < names() && gs@[g].3 < names()
                },
            gt@.len() == names(),
            forall|x: int|
                0 <= x < names() ==> gt@[x] == (match gate_for(all, x, all.len() as int) {
                    Some(g) => g,
                    None => all.len() as int,
                }),
            cur@.len() == names(),
            forall|x: int| 0 <= x < names() ==> cur@[x] == enc(value(s, x, d)),
            w <= names(),
            nx@.len() == w,
            forall|x: int| 0 <= x < w ==> nx@[x] == enc(value(s, x, d + 1)),
        decreases names() - w,
    {
        let v: u8 = if inp[w] != 2 {
            inp[w]
        } else {
            let g = gt[w];
            if g == n {
                2
            } else {
                proof {
                    lemma_gate_for_below(all, w as int, all.len() as int);
                }
                let (a, op, b, _) = gs[g];
                let va = cur[a];
                let vb = cur[b];
                if va != 2 && vb != 2 {
                    proof {
                        assert(va < 2 && vb < 2);
                    }
                    apply_exec(op, va, vb)
                } else {
                    2
                }
            }
        };
        proof {
            let iv = input_value(s, w as int, 90);
            if iv is None {
                match gate_for(all, w as int, all.len() as int) {
                    None => {
                        assert(value(s, w as int, d + 1) is None);
                    },
                    Some(q) => {
                        lemma_gate_for_below(all, w as int, all.len() as int);
                        let va = value(s, all[q].0, d);
                        let vb = value(s, all[q].2, d);
                        assert(cur@[all[q].0] == enc(va));
                        assert(cur@[all[q].2] == enc(vb));
                        assert(value(s, w as int, d + 1) == match (va, vb) {
                            (Some(a), Some(b)) => Some(apply(all[q].1, a, b)),
                            _ => None,
                        });
                    },
                }
            }
            assert(v == enc(value(s, w as int, d + 1)));
        }
        nx.push(v);
        w = w + 1;
    }
    nx
}

/// Part 1: the number output on the `z` wires.
pub fn part1(input: &str) -> (r: u64)
    requires
        wf_input(input.spec_bytes()),
        wf_eval(input.spec_bytes()),
    ensures
        r == z_number(input.spec_bytes(), 46),
{
    let s = input.as_bytes();
    let ghost g = s@;
    let inp = input_table(s);
    let gs = parse_gates(s);
    let gt = gate_table(&gs, Ghost(gates(s@, 631)));
    let mut cur = input_table(s);
    proof {
        assert forall|w: int| 0 <= w < names() implies cur@[w] == enc(value(g, w, 0)) by {
            assert(cur@[w] == enc(input_value(g, w, 90)));
        }
    }
    let mut r: usize = 0;
    let len = s.len();
    proof {
        lemma_gates_len(g, 631);
    }
    while r <= gs.len()
        invariant
            g == s@,
            g == input.spec_bytes(),
            wf_input(g),
            len == s@.len(),
            gs@.len() < len,
            inp@.len() == names(),
            forall|w: int| 0 <= w < names() ==> inp@[w] == enc(input_value(g, w, 90)),
            gs@.len() == gates(g, 631).len(),
            forall|x: int|
                0 <= x < gs@.len() ==> {
                    &&& gs@[x].0 == gates(g, 631)[x].0
                    &&& gs@[x].1 == gates(g, 631)[x].1
                    &&& gs@[x].2 == gates(g, 631)[x].2
                    &&& gs@[x].3 == gates(g, 631)[x].3
                    &&& gs@[x].0 < names() && gs@[x].2 < names() && gs@[x].3 < names()
                },
            gt@.len() == names(),
            forall|w: int|
                0 <= w < names() ==> gt@[w] == (match gate_for(gates(g, 631), w, gates(g, 631).len() as int) {
                    Some(x) => x,
                    None => gates(g, 631).len() as int,
                }),
            r <= gs@.len() + 1,
            cur@.len() == names(),
            forall|w: int| 0 <= w < names() ==> cur@[w] == enc(value(g, w, r as nat)),
        decreases gs@.len() + 1 - r,
    {
        cur = deeper(&inp, &gt, &gs, &cur, Ghost(g), Ghost(r as nat));
        r = r + 1;
    }
    let mut out: u64 = 0;
    let mut p: u64 = 1;
    let mut k: usize = 0;
    proof {
        vstd::arithmetic::power2::lemma2_to64();
        vstd::arithmetic::power2::lemma_pow2_strictly_increases(47, 64);
        vstd::arithmetic::power2::lemma_pow2_strictly_increases(0, 46);
    }
    while k < 46
        invariant
            g == input.spec_bytes(),
            wf_input(g),
            r == depth(g),
            cur@.len() == names(),
            forall|w: int| 0 <= w < names() ==> cur@[w] == enc(value(g, w, r as nat)),
            k <= 46,
            p == vstd::arithmetic::power2::pow2(k as nat),
            out == z_number(g, k as int),
            out < p,
            p <= vstd::arithmetic::power2::pow2(46),
            vstd::arithmetic::power2::pow2(47) < 0x1_0000_0000_0000_0000,
        decreases 46 - k,
    {
        let w = 25 * 1296 + (k / 10 + 26) * 36 + (k % 10 + 26);
        proof {
            assert(w == z_wire(k as int));
            vstd::arithmetic::power2::lemma_pow2_unfold((k + 1) as nat);
        }
        proof {
            if k < 45 {
                vstd::arithmetic::power2::lemma_pow2_strictly_increases((k + 1) as nat, 46);
            }
            vstd::arithmetic::power2::lemma_pow2_unfold(47);
        }
        if cur[w] == 1 {
            out = out + p;
        }
        p = 2 * p;
        k = k + 1;
    }
    out
}

/// The answer of part 1, as a signed number.
pub fn run(input: &str) -> (r: i64)
    requires
        wf_input(input.spec_bytes()),
        wf_eval(input.spec_bytes()),
    ensures
        r == z_number(input.spec_bytes(), 46),
{
    let r = part1(input);
    proof {
        lemma_z_number_bound(input.spec_bytes(), 46);
        vstd::arithmetic::power2::lemma2_to64();
        vstd::arithmetic::power2::lemma_pow2_adds(32, 14);
    }
    r as i64
}

/// The first character of wire `w` is `x`, `y` or `z`.
pub open spec fn xyz_first(w: int) -> bool {
    23 <= w / 1296 <= 25
}

/// Wire `w` is a `z` wire.
pub open spec fn is_z(w: int) -> bool {
    w / 1296 == 25
}

/// The last two characters of wire `w` are digits.
pub open spec fn digit_tail(w: int) -> bool {
    (w / 36) % 36 >= 26 && w % 36 >= 26
}

/// The number written by the last two characters of wire `w`.
pub open spec fn wire_num(w: int) -> int {
    10 * ((w / 36) % 36 - 26) + (w % 36 - 26)
}

/// All three characters of wire `w` are letters.
pub open spec fn letters(w: int) -> bool {
    w / 1296 < 26 && (w / 36) % 36 < 26 && w % 36 < 26
}

/// The output of the last gate with input bit `n` of kind `off` (1 for
/// `XOR`, 0 for `AND`) among the first `k` gates, or -1 for none.
pub open spec fn xy_out(gs: Seq<(int, int, int, int)>, n: int, off: int, k: int) -> int
    decreases k,
{
    if k <= 0 {
        -1
    } else {
        let g = gs[k - 1];
        if xyz_first(g.0) && wire_num(g.0) == n && (if g.1 == 1 {
            1int
        } else {
            0
        }) == off {
            g.3
        } else {
            xy_out(gs, n, off, k - 1)
        }
    }
}

/// A slot no gate has set: -2 for a `z` wire, -1 for another.
pub open spec fn unset(w: int) -> (int, int) {
    if is_z(w) {
        (-2, -2)
    } else {
        (-1, -1)
    }
}

/// The first slot of wire `w` after the first `k` gates: the other input
/// and the output of the last `AND` or `OR` gate with `w` as an input.
pub open spec fn slot0(gs: Seq<(int, int, int, int)>, w: int, k: int) -> (int, int)
    decreases k,
{
    if k <= 0 {
        unset(w)
    } else {
        let g = gs[k - 1];
        if !xyz_first(g.0) && g.1 != 1 && (g.0 == w || g.2 == w) {
            (
                if g.0 == w {
                    g.2
                } else {
                    g.0
                },
                g.3,
            )
        } else {
            slot0(gs, w, k - 1)
        }
    }
}

/// The second slot of wire `w` after the first `k` gates: set as the first
/// by an `XOR` gate, and cleared to -1 by an `OR` gate.
pub open spec fn slot1(gs: Seq<(int, int, int, int)>, w: int, k: int) -> (int, int)
    decreases k,
{
    if k <= 0 {
        unset(w)
    } else {
        let g = gs[k - 1];
        if !xyz_first(g.0) && (g.0 == w || g.2 == w) && g.1 == 2 {
            (-1, -1)
        } else if !xyz_first(g.0) && (g.0 == w || g.2 == w) && g.1 == 1 {
            (
                if g.0 == w {
                    g.2
                } else {
                    g.0
                },
                g.3,
            )
        } else {
            slot1(gs, w, k - 1)
        }
    }
}

/// The first slot of `w` once all gates are read.
pub open spec fn and_slot(gs: Seq<(int, int, int, int)>, w: int) -> (int, int) {
    slot0(gs, w, gs.len() as int)
}

/// The second slot of `w` once all gates are read.
pub open spec fn xor_slot(gs: Seq<(int, int, int, int)>, w: int) -> (int, int) {
    slot1(gs, w, gs.len() as int)
}

/// One round of the walk along the carry chain at bit `n`: the next carry
/// and the wires found so far.
pub open spec fn round(gs: Seq<(int, int, int, int)>, n: int, carry: int, outs: Seq<int>) -> (int, Seq<int>) {
    let k = gs.len() as int;
    let c1 = xy_out(gs, n, 0, k);
    let res = xy_out(gs, n, 1, k);
    let exp_res = and_slot(gs, carry).0;
    let c2 = and_slot(gs, carry).1;
    let z = xor_slot(gs, carry).1;
    if !is_z(z) {
        let nc = if xor_slot(gs, c1) == (-1int, -1int) {
            and_slot(gs, c1).1
        } else {
            and_slot(gs, c2).1
        };
        (
            if nc == z_wire(n) {
                z
            } else {
                nc
            },
            outs.push(z).push(z_wire(n)),
        )
    } else {
        let o1 = if res != exp_res {
            outs.push(res)
        } else {
            outs
        };
        let o2 = if xor_slot(gs, c1) != (-1int, -1int) {
            o1.push(c1)
        } else {
            o1
        };
        let cr1 = if xor_slot(gs, c1) != (-1int, -1int) {
            carry
        } else {
            and_slot(gs, c1).1
        };
        let o3 = if xor_slot(gs, c2) != (-1int, -1int) {
            o2.push(c2)
        } else {
            o2
        };
        let cr2 = if xor_slot(gs, c2) != (-1int, -1int) {
            cr1
        } else {
            and_slot(gs, c2).1
        };
        if o3.len() % 2 != 0 {
            (o3.last(), o3.push(cr2))
        } else {
            (cr2, o3)
        }
    }
}

/// The round at bit `n` reads only slots of wires, and finds wires, and at
/// most eight of them in all.
pub open spec fn round_ok(gs: Seq<(int, int, int, int)>, n: int, carry: int, outs: Seq<int>) -> bool {
    let k = gs.len() as int;
    let c1 = xy_out(gs, n, 0, k);
    let c2 = and_slot(gs, carry).1;
    let z = xor_slot(gs, carry).1;
    let o = round(gs, n, carry, outs).1;
    &&& carry >= 0
    &&& c1 >= 0
    &&& (!is_z(z) && xor_slot(gs, c1) != (-1int, -1int)) || is_z(z) ==> c2 >= 0
    &&& o.len() <= 8
    &&& forall|i: int| outs.len() <= i < o.len() ==> #[trigger] o[i] >= 0
}

/// The wires found by the walk from bit `n` on, until there are eight.
pub open spec fn walk(gs: Seq<(int, int, int, int)>, n: int, carry: int, outs: Seq<int>) -> Seq<int>
    decreases 45 - n,
{
    if n >= 45 {
        outs
    } else {
        let (nc, o) = round(gs, n, carry, outs);
        if o.len() == 8 {
            o
        } else {
            walk(gs, n + 1, nc, o)
        }
    }
}

/// Every round of the walk from bit `n` on is well formed, and eight wires
/// are found before bit 45.
pub open spec fn walk_ok(gs: Seq<(int, int, int, int)>, n: int, carry: int, outs: Seq<int>) -> bool
    decreases 45 - n,
{
    if n >= 45 {
        false
    } else {
        let (nc, o) = round(gs, n, carry, outs);
        round_ok(gs, n, carry, outs) && (o.len() == 8 || walk_ok(gs, n + 1, nc, o))
    }
}

/// The wires found to be swapped: the walk from bit 1, starting with the
/// carry out of bit 0.
pub open spec fn swapped(s: Seq<u8>) -> Seq<int> {
    let gs = gates(s, 631);
    walk(gs, 1, xy_out(gs, 0, 0, gs.len() as int), seq![])
}

/// The ASCII byte of a name character's code.
pub open spec fn char_byte(c: int) -> int {
    if c < 26 {
        97 + c
    } else {
        22 + c
    }
}

/// The name of wire `w` as a number whose order is that of the names' text.
pub open spec fn name_key(w: int) -> int {
    char_byte(w / 1296) * 65536 + char_byte((w / 36) % 36) * 256 + char_byte(w % 36)
}

/// The three characters of the name with key `k`.
pub open spec fn key_text(k: int) -> Seq<char> {
    seq![(k / 65536) as char, ((k / 256) % 256) as char, (k % 256) as char]
}

/// The names with keys `ks`, separated by commas.
pub open spec fn key_list(ks: Seq<int>) -> Seq<char>
    decreases ks.len(),
{
    if ks.len() == 0 {
        seq![]
    } else if ks.len() == 1 {
        key_text(ks[0])
    } else {
        key_list(ks.drop_last()) + seq![','] + key_text(ks.last())
    }
}

/// The answer of part 2: the names of the swapped wires in order,
/// separated by commas.
pub open spec fn swapped_names(s: Seq<u8>) -> Seq<char> {
    key_list(sorted_ascending(swapped(s).map_values(|w: int| name_key(w))))
}

/// The gates the walk reads are of the kinds it knows, it finds eight wires,
/// and there are at most 176 wires besides `z00`..`z45`.
pub open spec fn wf_swaps(s: Seq<u8>) -> bool {
    let gs = gates(s, 631);
    &&& wf_text(s)
    &&& forall|k: int|
        0 <= k < gs.len() ==> {
            let g = #[trigger] gs[k];
            &&& xyz_first(g.0) ==> digit_tail(g.0) && 0 <= wire_num(g.0) < 45 && g.1 != 2
            &&& !xyz_first(g.0) ==> letters(g.0) && letters(g.2)
            &&& letters(g.3) || (is_z(g.3) && digit_tail(g.3) && wire_num(g.3) <= 45)
        }
    &&& named(gs).finite()
    &&& named(gs).len() <= 176
    &&& walk_ok(gs, 1, xy_out(gs, 0, 0, gs.len() as int), seq![])
}

/// The wires other than `z` wires that the gates name, besides the `x` and
/// `y` inputs.
pub open spec fn named(gs: Seq<(int, int, int, int)>) -> Set<int> {
    Set::new(
        |w: int|
            exists|k: int|
                0 <= k < gs.len() && {
                    let g = #[trigger] gs[k];
                    (!xyz_first(g.0) && (g.0 == w || g.2 == w)) || (g.3 == w && !is_z(w))
                },
    )
}

/// The parsed gates `gs` are the gates `all`, with wires below `names()`.
pub open spec fn parsed(gs: Seq<(usize, u8, usize, usize)>, all: Seq<(int, int, int, int)>) -> bool {
    &&& gs.len() == all.len()
    &&& forall|g: int|
        0 <= g < gs.len() ==> {
            &&& (#[trigger] gs[g]).0 == all[g].0
            &&& gs[g].1 == all[g].1
            &&& gs[g].2 == all[g].2
            &&& gs[g].3 == all[g].3
            &&& gs[g].0 < names() && gs[g].2 < names() && gs[g].3 < names()
        }
}

/// The outputs of the `AND` and `XOR` gates of each input bit: entry
/// `2 * n + off` is `xy_out(all, n, off, ..)`.
fn xy_table(gs: &Vec<(usize, u8, usize, usize)>, Ghost(all): Ghost<Seq<(int, int, int, int)>>) -> (t: Vec<i64>)
    requires
        parsed(gs@, all),
        forall|g: int| 0 <= g < all.len() && xyz_first(all[g].0) ==> digit_tail(#[trigger] all[g].0) && 0 <= wire_num(all[g].0) < 45,
    ensures
        t@.len() == 90,
        forall|n: int, off: int|
            0 <= n < 45 && 0 <= off < 2 ==> #[trigger] t@[2 * n + off] == xy_out(all, n, off, all.len() as int),
        forall|i: int| 0 <= i < 90 ==> -1 <= #[trigger] t@[i] < names(),
{
    let mut t: Vec<i64> = vec![-1; 90];
    let mut k: usize = 0;
    while k < gs.len()
        invariant
            parsed(gs@, all),
            forall|g: int| 0 <= g < all.len() && xyz_first(all[g].0) ==> digit_tail(#[trigger] all[g].0) && 0 <= wire_num(all[g].0) < 45,
            k <= gs@.len(),
            t@.len() == 90,
            forall|n: int, off: int| 0 <= n < 45 && 0 <= off < 2 ==> #[trigger] t@[2 * n + off] == xy_out(all, n, off, k as int),
            forall|i: int| 0 <= i < 90 ==> -1 <= #[trigger] t@[i] < names(),
        decreases gs@.len() - k,
    {
        let (a, op, _, out) = gs[k];
        assert(gs@[k as int].0 == all[k as int].0);
        let ghost before = t@;
        if a / 1296 >= 23 && a / 1296 <= 25 {
            assert(digit_tail(all[k as int].0));
            let n = 10 * ((a / 36) % 36 - 26) + (a % 36 - 26);
            let off: usize = if op == 1 { 1 } else { 0 };
            t.set(2 * n + off, out as i64);
        }
        proof {
            assert forall|n: int, off: int| 0 <= n < 45 && 0 <= off < 2 implies #[trigger] t@[2 * n + off] == xy_out(all, n, off, k + 1) by {
                assert(before[2 * n + off] == xy_out(all, n, off, k as int));
            }
        }
        k = k + 1;
    }
    t
}

/// A slot as computed matches a slot of the model.
pub open spec fn same(p: (i64, i64), q: (int, int)) -> bool {
    p.0 == q.0 && p.1 == q.1
}

/// The two slots of every wire once all gates are read.
fn slot_tables(gs: &Vec<(usize, u8, usize, usize)>, Ghost(all): Ghost<Seq<(int, int, int, int)>>) -> (t: (
    Vec<(i64, i64)>,
    Vec<(i64, i64)>,
))
    requires
        parsed(gs@, all),
    ensures
        t.0@.len() == names(),
        t.1@.len() == names(),
        forall|w: int| 0 <= w < names() ==> same(#[trigger] t.0@[w], slot0(all, w, all.len() as int)),
        forall|w: int| 0 <= w < names() ==> same(#[trigger] t.1@[w], slot1(all, w, all.len() as int)),
        forall|w: int| 0 <= w < names() ==> -2 <= (#[trigger] t.0@[w]).0 < names() && -2 <= t.0@[w].1 < names(),
        forall|w: int| 0 <= w < names() ==> -2 <= (#[trigger] t.1@[w]).0 < names() && -2 <= t.1@[w].1 < names(),
{
    let mut s0: Vec<(i64, i64)> = Vec::new();
    let mut s1: Vec<(i64, i64)> = Vec::new();
    let mut w: usize = 0;
    while w < 46656
        invariant
            w <= names(),
            s0@.len() == w,
            s1@.len() == w,
            forall|v: int| 0 <= v < w ==> same(#[trigger] s0@[v], unset(v)),
            forall|v: int| 0 <= v < w ==> same(#[trigger] s1@[v], unset(v)),
        decreases names() - w,
    {
        let u: (i64, i64) = if w / 1296 == 25 { (-2, -2) } else { (-1, -1) };
        s0.push(u);
        s1.push(u);
        w = w + 1;
    }
    let mut k: usize = 0;
    while k < gs.len()
        invariant
            parsed(gs@, all),
            k <= gs@.len(),
            s0@.len() == names(),
            s1@.len() == names(),
            forall|v: int| 0 <= v < names() ==> same(#[trigger] s0@[v], slot0(all, v, k as int)),
            forall|v: int| 0 <= v < names() ==> same(#[trigger] s1@[v], slot1(all, v, k as int)),
            forall|v: int| 0 <= v < names() ==> -2 <= (#[trigger] s0@[v]).0 < names() && -2 <= s0@[v].1 < names(),
            forall|v: int| 0 <= v < names() ==> -2 <= (#[trigger] s1@[v]).0 < names() && -2 <= s1@[v].1 < names(),
        decreases gs@.len() - k,
    {
        let (a, op, b, out) = gs[k];
        assert(gs@[k as int].0 == all[k as int].0);
        let ghost b0 = s0@;
        let ghost b1 = s1@;
        if !(a / 1296 >= 23 && a / 1296 <= 25) {
            if op == 2 {
                s1.set(a, (-1, -1));
                s1.set(b, (-1, -1));
            }
            if op == 1 {
                s1.set(a, (b as i64, out as i64));
                s1.set(b, (a as i64, out as i64));
            } else {
                s0.set(a, (b as i64, out as i64));
                s0.set(b, (a as i64, out as i64));
            }
        }
        proof {
            assert forall|v: int| 0 <= v < names() implies same(#[trigger] s0@[v], slot0(all, v, k + 1)) by {
                assert(same(b0[v], slot0(all, v, k as int)));
            }
            assert forall|v: int| 0 <= v < names() implies same(#[trigger] s1@[v], slot1(all, v, k + 1)) by {
                assert(same(b1[v], slot1(all, v, k as int)));
            }
            assert forall|v: int| 0 <= v < names() implies -2 <= (#[trigger] s0@[v]).0 < names() && -2 <= s0@[v].1 < names() by {
                assert(-2 <= b0[v].0 < names() && -2 <= b0[v].1 < names());
            }
            assert forall|v: int| 0 <= v < names() implies -2 <= (#[trigger] s1@[v]).0 < names() && -2 <= s1@[v].1 < names() by {
                assert(-2 <= b1[v].0 < names() && -2 <= b1[v].1 < names());
            }
        }
        k = k + 1;
    }
    (s0, s1)
}

/// Wires as integers.
pub open spec fn wide(v: Seq<i64>) -> Seq<int> {
    v.map_values(|x: i64| x as int)
}

/// The tables hold the input bits' gates and the slots of every wire.
pub open spec fn tables(xy: Seq<i64>, s0: Seq<(i64, i64)>, s1: Seq<(i64, i64)>, all: Seq<(int, int, int, int)>) -> bool {
    &&& xy.len() == 90
    &&& forall|n: int, off: int| 0 <= n < 45 && 0 <= off < 2 ==> #[trigger] xy[2 * n + off] == xy_out(all, n, off, all.len() as int)
    &&& forall|i: int| 0 <= i < 90 ==> -1 <= #[trigger] xy[i] < names()
    &&& s0.len() == names()
    &&& s1.len() == names()
    &&& forall|w: int| 0 <= w < names() ==> same(#[trigger] s0[w], and_slot(all, w))
    &&& forall|w: int| 0 <= w < names() ==> same(#[trigger] s1[w], xor_slot(all, w))
    &&& forall|w: int| 0 <= w < names() ==> -2 <= (#[trigger] s0[w]).0 < names() && -2 <= s0[w].1 < names()
    &&& forall|w: int| 0 <= w < names() ==> -2 <= (#[trigger] s1[w]).0 < names() && -2 <= s1[w].1 < names()
}

/// One round of the walk at bit `n`, appending the wires it finds to `outs`
/// and returning the next carry.
fn round_exec(
    xy: &Vec<i64>,
    s0: &Vec<(i64, i64)>,
    s1: &Vec<(i64, i64)>,
    Ghost(all): Ghost<Seq<(int, int, int, int)>>,
    n: usize,
    carry: i64,
    outs: &mut Vec<i64>,
) -> (nc: i64)
    requires
        tables(xy@, s0@, s1@, all),
        1 <= n < 45,
        round_ok(all, n as int, carry as int, wide(old(outs)@)),
        carry < names(),
        old(outs)@.len() < 8,
        forall|i: int| 0 <= i < old(outs)@.len() ==> -2 <= #[trigger] old(outs)@[i] < names(),
    ensures
        nc == round(all, n as int, carry as int, wide(old(outs)@)).0,
        wide(final(outs)@) == round(all, n as int, carry as int, wide(old(outs)@)).1,
        -2 <= nc < names(),
        forall|i: int| 0 <= i < final(outs)@.len() ==> #[trigger] final(outs)@[i] < names(),
        forall|i: int| 0 <= i < old(outs)@.len() ==> final(outs)@[i] == old(outs)@[i],
{
    let ghost o0 = wide(outs@);
    let ghost k = all.len() as int;
    let ghost before = outs@;
    proof {
        assert(xy@[2 * n + 0] == xy_out(all, n as int, 0, k));
        assert(xy@[2 * n + 1] == xy_out(all, n as int, 1, k));
        assert(same(s0@[carry as int], and_slot(all, carry as int)));
        assert(same(s1@[carry as int], xor_slot(all, carry as int)));
        assert(-2 <= s0@[carry as int].0 < names() && -2 <= s0@[carry as int].1 < names());
        assert(-2 <= s1@[carry as int].0 < names() && -2 <= s1@[carry as int].1 < names());
        assert(-1 <= xy@[2 * n + 0] < names() && -1 <= xy@[2 * n + 1] < names());
    }
    let c1 = xy[2 * n];
    let res = xy[2 * n + 1];
    let cu = carry as usize;
    let (exp_res, c2) = s0[cu];
    let z = s1[cu].1;
    let zn: i64 = 25 * 1296 + ((n / 10) as i64 + 26) * 36 + ((n % 10) as i64 + 26);
    assert(zn == z_wire(n as int));
    if !(z >= 0 && z / 1296 == 25) {
        outs.push(z);
        outs.push(zn);
        let c1u = c1 as usize;
        proof {
            assert(same(s1@[c1 as int], xor_slot(all, c1 as int)));
            assert(same(s0@[c1 as int], and_slot(all, c1 as int)));
            assert(-2 <= s0@[c1 as int].1 < names());
            if xor_slot(all, c1 as int) != (-1int, -1int) {
                assert(-2 <= s0@[c2 as int].1 < names());
            }
            assert(wide(outs@) =~= o0.push(z as int).push(zn as int));
        }
        let nc = if s1[c1u].0 == -1 && s1[c1u].1 == -1 {
            s0[c1u].1
        } else {
            assert(same(s0@[c2 as int], and_slot(all, c2 as int)));
            s0[c2 as usize].1
        };
        if nc == zn {
            z
        } else {
            nc
        }
    } else {
        if res != exp_res {
            outs.push(res);
        }
        let ghost w1 = wide(outs@);
        assert(w1 == (if res != exp_res { o0.push(res as int) } else { o0 }));
        let mut cr = carry;
        let c1u = c1 as usize;
        proof {
            assert(same(s1@[c1 as int], xor_slot(all, c1 as int)));
            assert(same(s0@[c1 as int], and_slot(all, c1 as int)));
            assert(same(s1@[c2 as int], xor_slot(all, c2 as int)));
            assert(same(s0@[c2 as int], and_slot(all, c2 as int)));
            assert(-2 <= s0@[c1 as int].1 < names());
            assert(-2 <= s0@[c2 as int].1 < names());
        }
        if !(s1[c1u].0 == -1 && s1[c1u].1 == -1) {
            outs.push(c1);
        } else {
            cr = s0[c1u].1;
        }
        let ghost w2 = wide(outs@);
        assert(w2 == (if xor_slot(all, c1 as int) != (-1int, -1int) { w1.push(c1 as int) } else { w1 }));
        let c2u = c2 as usize;
        if !(s1[c2u].0 == -1 && s1[c2u].1 == -1) {
            outs.push(c2);
        } else {
            cr = s0[c2u].1;
        }
        let ghost w3 = wide(outs@);
        assert(w3 == (if xor_slot(all, c2 as int) != (-1int, -1int) { w2.push(c2 as int) } else { w2 }));
        if outs.len() % 2 != 0 {
            let last = outs[outs.len() - 1];
            outs.push(cr);
            assert(wide(outs@) =~= w3.push(cr as int));
            last
        } else {
            cr
        }
    }
}

/// The walk from bit 1: the eight wires found.
fn walk_exec(
    xy: &Vec<i64>,
    s0: &Vec<(i64, i64)>,
    s1: &Vec<(i64, i64)>,
    Ghost(all): Ghost<Seq<(int, int, int, int)>>,
) -> (outs: Vec<i64>)
    requires
        tables(xy@, s0@, s1@, all),
        walk_ok(all, 1, xy_out(all, 0, 0, all.len() as int), seq![]),
    ensures
        wide(outs@) == walk(all, 1, xy_out(all, 0, 0, all.len() as int), seq![]),
        outs@.len() == 8,
        forall|i: int| 0 <= i < 8 ==> 0 <= #[trigger] outs@[i] < names(),
{
    let ghost c0 = xy_out(all, 0, 0, all.len() as int);
    assert(xy@[2 * 0int + 0] == c0);
    let mut carry = xy[0];
    let mut outs: Vec<i64> = Vec::new();
    let mut n: usize = 1;
    assert(wide(outs@) =~= seq![]);
    loop
        invariant_except_break
            outs@.len() < 8,
            walk(all, 1, c0, seq![]) == walk(all, n as int, carry as int, wide(outs@)),
            walk_ok(all, n as int, carry as int, wide(outs@)),
        invariant
            tables(xy@, s0@, s1@, all),
            1 <= n < 45,
            -2 <= carry < names(),
            forall|i: int| 0 <= i < outs@.len() ==> 0 <= #[trigger] outs@[i] < names(),
        ensures
            wide(outs@) == walk(all, 1, c0, seq![]),
            outs@.len() == 8,
            forall|i: int| 0 <= i < outs@.len() ==> 0 <= #[trigger] outs@[i] < names(),
        decreases 45 - n,
    {
        let ghost before = outs@;
        let nc = round_exec(xy, s0, s1, Ghost(all), n, carry, &mut outs);
        proof {
            let o = round(all, n as int, carry as int, wide(before)).1;
            assert forall|i: int| 0 <= i < outs@.len() implies 0 <= #[trigger] outs@[i] < names() by {
                assert(wide(outs@)[i] == o[i]);
                if i >= before.len() {
                    assert(o[i] >= 0);
                } else {
                    assert(outs@[i] == before[i]);
                }
            }
        }
        if outs.len() == 8 {
            break;
        }
        proof {
            reveal_with_fuel(walk_ok, 2);
        }
        carry = nc;
        n = n + 1;
    }
    outs
}

/// The ASCII byte of a name character's code, computed.
fn char_byte_exec(c: i64) -> (b: i64)
    requires
        0 <= c < 36,
    ensures
        b == char_byte(c as int),
        48 <= b < 123,
{
    if c < 26 {
        97 + c
    } else {
        22 + c
    }
}

/// The name key of wire `w`, computed.
fn name_key_exec(w: i64) -> (k: u32)
    requires
        0 <= w < names(),
    ensures
        k == name_key(w as int),
        key_ok(k as int),
{
    let b0 = char_byte_exec(w / 1296);
    let b1 = char_byte_exec((w / 36) % 36);
    let b2 = char_byte_exec(w % 36);
    let k = b0 * 65536 + b1 * 256 + b2;
    assert(k / 65536 == b0 && (k / 256) % 256 == b1 && k % 256 == b2) by (nonlinear_arith)
        requires k == b0 * 65536 + b1 * 256 + b2, 0 <= b0 < 128, 0 <= b1 < 128, 0 <= b2 < 128;
    k as u32
}

/// Each of the three bytes of key `k` is ASCII.
pub open spec fn key_ok(k: int) -> bool {
    0 <= k && k / 65536 < 128 && (k / 256) % 256 < 128 && k % 256 < 128
}

/// The names with keys `ks`, separated by commas, as bytes.
fn key_list_bytes(ks: &Vec<u32>) -> (out: Vec<u8>)
    requires
        forall|i: int| 0 <= i < ks@.len() ==> key_ok(#[trigger] ks@[i] as int),
    ensures
        out@.map_values(|b: u8| b as char) == key_list(ints(ks@)),
        forall|i: int| 0 <= i < out@.len() ==> out@[i] < 128,
{
    let ghost all = ints(ks@);
    let mut out: Vec<u8> = Vec::new();
    let mut k: usize = 0;
    while k < ks.len()
        invariant
            all == ints(ks@),
            forall|i: int| 0 <= i < ks@.len() ==> key_ok(#[trigger] ks@[i] as int),
            k <= ks@.len(),
            out@.map_values(|b: u8| b as char) == key_list(all.take(k as int)),
            forall|i: int| 0 <= i < out@.len() ==> out@[i] < 128,
        decreases ks@.len() - k,
    {
        let v = ks[k];
        assert(key_ok(ks@[k as int] as int));
        let ghost before = out@;
        if k > 0 {
            out.push(44);
        }
        out.push((v / 65536) as u8);
        out.push(((v / 256) % 256) as u8);
        out.push((v % 256) as u8);
        proof {
            let t = all.take(k + 1);
            assert(t.drop_last() =~= all.take(k as int));
            assert(t.last() == v);
            if k == 0 {
                assert(out@.map_values(|b: u8| b as char) =~= key_text(v as int));
            } else {
                assert(out@.map_values(|b: u8| b as char) =~= before.map_values(|b: u8| b as char) + seq![',']
                    + key_text(v as int));
            }
        }
        k = k + 1;
    }
    proof {
        assert(all.take(ks@.len() as int) =~= all);
    }
    out
}

/// Part 2: the names of the eight wires found swapped along the carry chain
/// of the adder, in order, separated by commas.
pub fn part2(input: &str) -> (r: String)
    requires
        wf_swaps(input.spec_bytes()),
    ensures
        r@ == swapped_names(input.spec_bytes()),
{
    let s = input.as_bytes();
    let ghost all = gates(s@, 631);
    let gs = parse_gates(s);
    assert(parsed(gs@, all));
    proof {
        assert forall|g: int| 0 <= g < all.len() && xyz_first(all[g].0) implies digit_tail(#[trigger] all[g].0) && 0 <= wire_num(all[g].0) < 45 by {
            let q = all[g];
        }
    }
    let xy = xy_table(&gs, Ghost(all));
    let (s0, s1) = slot_tables(&gs, Ghost(all));
    let outs = walk_exec(&xy, &s0, &s1, Ghost(all));
    let ghost found = swapped(s@);
    assert(wide(outs@) == found);
    let mut keys: Vec<u32> = Vec::new();
    let mut sorted: Vec<u32> = Vec::new();
    let mut i: usize = 0;
    assert(ints(sorted@) =~= seq![]);
    assert(ints(keys@) =~= seq![]);
    while i < 8
        invariant
            outs@.len() == 8,
            wide(outs@) == found,
            forall|j: int| 0 <= j < 8 ==> 0 <= #[trigger] outs@[j] < names(),
            i <= 8,
            ints(keys@) == found.take(i as int).map_values(|w: int| name_key(w)),
            forall|j: int| 0 <= j < keys@.len() ==> key_ok(#[trigger] keys@[j] as int),
            ascending_seq(ints(sorted@)),
            ints(sorted@).to_multiset() == ints(keys@).to_multiset(),
        decreases 8 - i,
    {
        let k = name_key_exec(outs[i]);
        let ghost before = keys@;
        keys.push(k);
        insert_sorted(&mut sorted, k);
        proof {
            assert(ints(keys@) =~= ints(before).push(k as int));
            vstd::seq_lib::to_multiset_build(ints(before), k as int);
            assert(found[i as int] == outs@[i as int]);
            assert(found.take(i + 1).map_values(|w: int| name_key(w)) =~= found.take(i as int).map_values(
                |w: int| name_key(w),
            ).push(name_key(found[i as int])));
        }
        i = i + 1;
    }
    proof {
        assert(found.take(8) =~= found);
        lemma_is_sorted_ascending(ints(keys@), ints(sorted@));
        lemma_ascending_total();
        ints(keys@).lemma_sort_by_ensures(ascending());
        assert forall|j: int| 0 <= j < sorted@.len() implies key_ok(#[trigger] sorted@[j] as int) by {
            let x = ints(sorted@)[j];
            assert(sorted_ascending(ints(keys@)).contains(x));
            assert(ints(keys@).contains(x));
            let m = choose|m: int| 0 <= m < ints(keys@).len() && ints(keys@)[m] == x;
            assert(key_ok(keys@[m] as int));
        }
    }
    let bytes = key_list_bytes(&sorted);
    ascii_text(bytes)
}

proof fn lemma_gates_len(s: Seq<u8>, i: int)
    requires
        0 <= i,
    ensures
        gates(s, i).len() <= if i <= s.len() {
            s.len() - i
        } else {
            0
        },
    decreases s.len() - i,
{
    if 0 <= i < s.len() && wf_gate(s, i) {
        lemma_gates_len(s, i + gate_len(s, i));
    }
}

proof fn lemma_z_number_bound(s: Seq<u8>, k: int)
    requires
        0 <= k,
    ensures
        0 <= z_number(s, k) < vstd::arithmetic::power2::pow2(k as nat),
    decreases k,
{
    if k > 0 {
        lemma_z_number_bound(s, k - 1);
        vstd::arithmetic::power2::lemma_pow2_unfold(k as nat);
    } else {
        vstd::arithmetic::power2::lemma2_to64();
    }
}

} // verus!
