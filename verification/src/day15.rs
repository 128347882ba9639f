//! Warehouse woes: a robot pushing rows of boxes around a 50 x 50 warehouse.
//!
//! The map is 50 rows of 51 bytes (the newline last), then after a blank line
//! come the moves. A cell is addressed by its offset in the map; offsets off
//! the map count as walls.
use vstd::prelude::*;
use vstd::string::StringSliceAdditionalSpecFns;

verus! {

/// The number of bytes of the map.
pub open spec fn map_len() -> int {
    2550
}

/// The byte at `q`, a wall off the map.
pub open spec fn at(g: Seq<u8>, q: int) -> u8 {
    if 0 <= q < g.len() {
        g[q]
    } else {
        35
    }
}

/// The offset by which a move byte moves the robot; 0 for other bytes.
pub open spec fn delta(b: u8) -> int {
    if b == 60 {
        -1
    } else if b == 62 {
        1
    } else if b == 94 {
        -51
    } else if b == 118 {
        51
    } else {
        0
    }
}

/// The first cell from `q` on in steps of `d` that holds no box, looking at
/// most `n` cells ahead.
pub open spec fn past_boxes(g: Seq<u8>, q: int, d: int, n: nat) -> int
    decreases n,
{
    if n == 0 || at(g, q) != 79 {
        q
    } else {
        past_boxes(g, q + d, d, (n - 1) as nat)
    }
}

/// The map and the robot's cell after one move byte: step into a free cell,
/// or push the row of boxes ahead if a free cell ends it.
pub open spec fn step(g: Seq<u8>, pos: int, b: u8) -> (Seq<u8>, int) {
    let d = delta(b);
    let q = pos + d;
    if at(g, q) == 46 {
        (g, q)
    } else {
        let e = past_boxes(g, q, d, 50);
        if at(g, e) == 46 {
            (g.update(e, 79).update(q, 46), q)
        } else {
            (g, pos)
        }
    }
}

/// The first `@` of the map.
pub open spec fn robot(s: Seq<u8>) -> int {
    choose|p: int| 0 <= p < map_len() && s[p] == 64 && forall|q: int| 0 <= q < p ==> s[q] != 64
}

/// The map and the robot after the first `k` move bytes; the robot's cell
/// is free.
pub open spec fn after(s: Seq<u8>, k: nat) -> (Seq<u8>, int)
    decreases k,
{
    if k == 0 {
        (s.subrange(0, map_len()).update(robot(s), 46), robot(s))
    } else {
        let (g, p) = after(s, (k - 1) as nat);
        step(g, p, s[map_len() + k])
    }
}

/// The number of move bytes.
pub open spec fn moves(s: Seq<u8>) -> nat {
    (s.len() - map_len() - 1) as nat
}

/// The sum of the coordinates `100 * y + x` of the boxes in rows 1 to 48
/// among the first `n` cells.
pub open spec fn gps(g: Seq<u8>, n: int) -> int
    decreases n,
{
    if n <= 0 {
        0
    } else {
        let q = n - 1;
        gps(g, q) + if 1 <= q / 51 <= 48 && q % 51 < 50 && g[q] == 79 {
            100 * (q / 51) + q % 51
        } else {
            0
        }
    }
}

/// The map holds a robot, and a blank line follows it.
pub open spec fn wf_input(s: Seq<u8>) -> bool {
    &&& map_len() < s.len() <= usize::MAX
    &&& s[map_len()] == 10
    &&& exists|p: int| 0 <= p < map_len() && s[p] == 64 && forall|q: int| 0 <= q < p ==> s[q] != 64
}

proof fn lemma_robot(s: Seq<u8>, p: int)
    requires
        0 <= p < map_len(),
        s[p] == 64,
        forall|q: int| 0 <= q < p ==> s[q] != 64,
    ensures
        robot(s) == p,
{
    let r = robot(s);
    assert(0 <= r < map_len() && s[r] == 64 && forall|q: int| 0 <= q < r ==> s[q] != 64);
    if r < p {
        assert(s[r] != 64);
    } else if p < r {
        assert(s[p] != 64);
    }
}

/// The byte at `q` (as an offset that may fall off the map), a wall off it.
fn at_exec(g: &Vec<u8>, q: i64) -> (b: u8)
    requires
        g@.len() == map_len(),
    ensures
        b == at(g@, q as int),
{
    if 0 <= q && q < 2550 {
        g[q as usize]
    } else {
        35
    }
}

/// The first cell that holds no box, from `q` on in steps of `d`.
fn past_boxes_exec(g: &Vec<u8>, q: i64, d: i64) -> (e: i64)
    requires
        g@.len() == map_len(),
        -2600 <= q <= 5200,
        -51 <= d <= 51,
    ensures
        e == past_boxes(g@, q as int, d as int, 50),
        -5200 <= e <= 7800,
{
    let mut e = q;
    let mut n: u64 = 50;
    while n > 0 && at_exec(g, e) == 79
        invariant
            g@.len() == map_len(),
            -51 <= d <= 51,
            n <= 50,
            past_boxes(g@, e as int, d as int, n as nat) == past_boxes(g@, q as int, d as int, 50),
            -2600 - 51 * (50 - n) <= e <= 5200 + 51 * (50 - n),
        decreases n,
    {
        e = e + d;
        n = n - 1;
    }
    e
}

/// One move of the robot.
fn step_exec(g: &mut Vec<u8>, pos: i64, b: u8) -> (p: i64)
    requires
        old(g)@.len() == map_len(),
        0 <= pos < map_len(),
    ensures
        (final(g)@, p as int) == step(old(g)@, pos as int, b),
        final(g)@.len() == map_len(),
        0 <= p < map_len(),
{
    let d: i64 = if b == 60 {
        -1
    } else if b == 62 {
        1
    } else if b == 94 {
        -51
    } else if b == 118 {
        51
    } else {
        0
    };
    let q = pos + d;
    if at_exec(g, q) == 46 {
        return q;
    }
    let e = past_boxes_exec(g, q, d);
    if at_exec(g, e) == 46 {
        g.set(e as usize, 79);
        proof {
            assert(at(old(g)@, q as int) != 46);
            assert(0 <= q < map_len()) by {
                assert(at(old(g)@, q as int) == 79 || at(old(g)@, q as int) != 79);
                if !(0 <= q < map_len()) {
                    assert(at(old(g)@, q as int) == 35);
                    assert(e == q);
                }
            }
        }
        g.set(q as usize, 46);
        q
    } else {
        pos
    }
}

/// The offset of the first `@`.
fn find_robot(s: &[u8]) -> (p: usize)
    requires
        wf_input(s@),
    ensures
        p == robot(s@),
        p < map_len(),
{
    let mut i: usize = 0;
    while i < 2550 && s[i] != 64
        invariant
            wf_input(s@),
            i <= map_len(),
            forall|q: int| 0 <= q < i ==> s@[q] != 64,
        decreases map_len() - i,
    {
        i = i + 1;
    }
    proof {
        if i == 2550 {
            let p = choose|p: int| 0 <= p < map_len() && s@[p] == 64 && forall|q: int| 0 <= q < p ==> s@[q] != 64;
            assert(s@[p] != 64);
        }
        lemma_robot(s@, i as int);
    }
    i
}

/// The sum of the coordinates of the boxes.
fn gps_exec(g: &Vec<u8>) -> (r: u32)
    requires
        g@.len() == map_len(),
    ensures
        r == gps(g@, map_len()),
{
    let mut r: u32 = 0;
    let mut q: usize = 0;
    while q < 2550
        invariant
            g@.len() == map_len(),
            q <= map_len(),
            r == gps(g@, q as int),
            r <= 5000 * q,
        decreases map_len() - q,
    {
        if 1 <= q / 51 && q / 51 <= 48 && q % 51 < 50 && g[q] == 79 {
            r = r + (100 * (q / 51) + q % 51) as u32;
        }
        q = q + 1;
    }
    r
}

/// Part 1: the sum of the coordinates of the boxes once the robot has moved.
pub fn part1(input: &str) -> (r: u32)
    requires
        wf_input(input.spec_bytes()),
    ensures
        r == gps(after(input.spec_bytes(), moves(input.spec_bytes())).0, map_len()),
{
    let s = input.as_bytes();
    let p0 = find_robot(s);
    let mut g: Vec<u8> = Vec::new();
    let mut i: usize = 0;
    while i < 2550
        invariant
            wf_input(s@),
            i <= map_len(),
            g@ == s@.subrange(0, i as int),
        decreases map_len() - i,
    {
        g.push(s[i]);
        proof {
            assert(g@ =~= s@.subrange(0, i + 1));
        }
        i = i + 1;
    }
    g.set(p0, 46);
    let mut pos: i64 = p0 as i64;
    let n = s.len() - 2551;
    let mut k: usize = 0;
    while k < n
        invariant
            wf_input(s@),
            s@ == input.spec_bytes(),
            n == moves(s@),
            k <= n,
            g@.len() == map_len(),
            0 <= pos < map_len(),
            after(s@, k as nat) == (g@, pos as int),
        decreases n - k,
    {
        pos = step_exec(&mut g, pos, s[2551 + k]);
        k = k + 1;
    }
    gps_exec(&g)
}

/// The wide warehouse: every cell of the map becomes two, 100 per row; a
/// box becomes `[` and a free cell (its right half stays `.`).
pub open spec fn widen(s: Seq<u8>) -> Seq<u8> {
    Seq::new(
        5000,
        |c: int|
            {
                let b = s[51 * (c / 100) + (c % 100) / 2];
                if b == 35 {
                    35u8
                } else if b == 79 && c % 2 == 0 {
                    91u8
                } else {
                    46u8
                }
            },
    )
}

/// The byte of the wide warehouse at `q`, a wall off it.
pub open spec fn at2(g: Seq<u8>, q: int) -> u8 {
    if 0 <= q < g.len() {
        g[q]
    } else {
        35
    }
}

/// The offset by which a move byte moves the robot in the wide warehouse.
pub open spec fn delta2(b: u8) -> int {
    if b == 60 {
        -1
    } else if b == 62 {
        1
    } else if b == 94 {
        -100
    } else if b == 118 {
        100
    } else {
        0
    }
}

/// The first offset from `k` on in steps of `d` that holds no `[`, looking
/// at most `n` boxes ahead.
pub open spec fn past_row(g: Seq<u8>, k: int, d: int, n: nat) -> int
    decreases n,
{
    if n == 0 || at2(g, k) != 91 {
        k
    } else {
        past_row(g, k + d, d, (n - 1) as nat)
    }
}

/// The boxes (by their left half) pushed when the box at `b0` is pushed by
/// `d` rows, gathered `n` boxes deep: with each box, those in front of it.
pub open spec fn pushed(g: Seq<u8>, b0: int, d: int, n: nat, c: int) -> bool
    decreases n,
{
    if n == 0 {
        c == b0
    } else {
        pushed(g, b0, d, (n - 1) as nat, c) || (at2(g, c) == 91 && (pushed(
            g,
            b0,
            d,
            (n - 1) as nat,
            c - d + 1,
        ) || pushed(g, b0, d, (n - 1) as nat, c - d) || pushed(g, b0, d, (n - 1) as nat, c - d - 1)))
    }
}

/// The depth to which pushed boxes are gathered: enough for every cell.
pub open spec fn push_depth() -> nat {
    5000
}

/// A wall stands in front of one of the pushed boxes.
pub open spec fn push_blocked(g: Seq<u8>, b0: int, d: int) -> bool {
    exists|b: int|
        #[trigger] pushed(g, b0, d, push_depth(), b) && (at2(g, b + d) == 35 || at2(g, b + d + 1) == 35)
}

/// The wide warehouse with the pushed boxes moved by `d`.
pub open spec fn shifted(g: Seq<u8>, b0: int, d: int) -> Seq<u8> {
    Seq::new(
        g.len(),
        |c: int|
            if pushed(g, b0, d, push_depth(), c - d) {
                91u8
            } else if pushed(g, b0, d, push_depth(), c) {
                46u8
            } else {
                g[c]
            },
    )
}

/// One move of the robot in the wide warehouse.
pub open spec fn step2(g: Seq<u8>, pos: int, b: u8) -> (Seq<u8>, int) {
    let d = delta2(b);
    let q = pos + d;
    if d == 0 || (at2(g, q) == 46 && at2(g, q - 1) != 91) {
        (g, q)
    } else if at2(g, q) == 35 {
        (g, pos)
    } else if d == -1 {
        let k = past_row(g, q - 1, -2, 50);
        if at2(g, k + 1) == 46 {
            (
                Seq::new(
                    g.len(),
                    |c: int|
                        if k < c < pos - 1 && (c - k) % 2 == 1 {
                            91u8
                        } else if k < c <= pos - 1 {
                            46u8
                        } else {
                            g[c]
                        },
                ),
                q,
            )
        } else {
            (g, pos)
        }
    } else if d == 1 {
        let k = past_row(g, q, 2, 50);
        if at2(g, k) == 46 {
            (
                Seq::new(
                    g.len(),
                    |c: int|
                        if q <= c <= k && (c - q) % 2 == 1 {
                            91u8
                        } else if q <= c <= k {
                            46u8
                        } else {
                            g[c]
                        },
                ),
                q,
            )
        } else {
            (g, pos)
        }
    } else {
        let b0 = if at2(g, q) == 91 {
            q
        } else {
            q - 1
        };
        if push_blocked(g, b0, d) {
            (g, pos)
        } else {
            (shifted(g, b0, d), q)
        }
    }
}

/// The wide warehouse and the robot after the first `k` move bytes.
pub open spec fn after2(s: Seq<u8>, k: nat) -> (Seq<u8>, int)
    decreases k,
{
    if k == 0 {
        (widen(s), 100 * (robot(s) / 51) + 2 * (robot(s) % 51))
    } else {
        let (g, p) = after2(s, (k - 1) as nat);
        step2(g, p, s[map_len() + k])
    }
}

/// The sum of the offsets of the boxes past the first row, among the first
/// `n` cells.
pub open spec fn gps2(g: Seq<u8>, n: int) -> int
    decreases n,
{
    if n <= 0 {
        0
    } else {
        gps2(g, n - 1) + if n - 1 >= 100 && g[n - 1] == 91 {
            n - 1
        } else {
            0
        }
    }
}

/// Every cell of the wide warehouse is a wall, a left box half or free.
pub open spec fn plain(g: Seq<u8>) -> bool {
    forall|c: int| 0 <= c < g.len() ==> (#[trigger] g[c] == 35 || g[c] == 91 || g[c] == 46)
}

/// Only boxes are gathered, apart from the first.
proof fn lemma_pushed_range(g: Seq<u8>, b0: int, d: int, n: nat, c: int)
    requires
        pushed(g, b0, d, n, c),
    ensures
        c == b0 || (0 <= c < g.len() && g[c] == 91),
    decreases n,
{
    if n > 0 && pushed(g, b0, d, (n - 1) as nat, c) {
        lemma_pushed_range(g, b0, d, (n - 1) as nat, c);
    }
}

/// Gathering deeper finds at least the same boxes.
proof fn lemma_pushed_deeper(g: Seq<u8>, b0: int, d: int, a: nat, b: nat, c: int)
    requires
        a <= b,
        pushed(g, b0, d, a, c),
    ensures
        pushed(g, b0, d, b, c),
    decreases b - a,
{
    if a < b {
        lemma_pushed_deeper(g, b0, d, a, (b - 1) as nat, c);
    }
}

/// Once a round adds no box, no later round does.
proof fn lemma_pushed_fixpoint(g: Seq<u8>, b0: int, d: int, n: nat, m: nat)
    requires
        n <= m,
        forall|c: int| pushed(g, b0, d, n + 1, c) == #[trigger] pushed(g, b0, d, n, c),
    ensures
        forall|c: int| pushed(g, b0, d, m, c) == #[trigger] pushed(g, b0, d, n, c),
    decreases m - n,
{
    if n < m {
        lemma_pushed_fixpoint(g, b0, d, n, (m - 1) as nat);
        let p = (m - 1) as nat;
        assert forall|c: int| pushed(g, b0, d, m, c) == #[trigger] pushed(g, b0, d, n, c) by {
            assert(pushed(g, b0, d, p, c) == pushed(g, b0, d, n, c));
            assert(pushed(g, b0, d, p, c - d + 1) == pushed(g, b0, d, n, c - d + 1));
            assert(pushed(g, b0, d, p, c - d) == pushed(g, b0, d, n, c - d));
            assert(pushed(g, b0, d, p, c - d - 1) == pushed(g, b0, d, n, c - d - 1));
            assert(pushed(g, b0, d, n + 1, c) == pushed(g, b0, d, n, c));
        }
    }
}

/// The cells not marked in `v`.
spec fn unmarked(v: Seq<bool>) -> Set<int> {
    Set::new(|x: int| 0 <= x < v.len() && !v[x])
}

proof fn lemma_unmarked_shrinks(old: Seq<bool>, new: Seq<bool>, c: int)
    requires
        old.len() == new.len(),
        forall|x: int| 0 <= x < old.len() && old[x] ==> new[x],
        0 <= c < old.len(),
        !old[c],
        new[c],
    ensures
        unmarked(new).len() < unmarked(old).len(),
{
    vstd::set_lib::lemma_int_range(0, old.len() as int);
    assert(unmarked(old).subset_of(vstd::set_lib::set_int_range(0, old.len() as int)));
    vstd::set_lib::lemma_len_subset(unmarked(old), vstd::set_lib::set_int_range(0, old.len() as int));
    assert(unmarked(new).subset_of(unmarked(old).remove(c)));
    vstd::set_lib::lemma_len_subset(unmarked(new), unmarked(old).remove(c));
    vstd::set::axiom_set_remove_len(unmarked(old), c);
}

proof fn lemma_unmarked_bound(v: Seq<bool>)
    ensures
        unmarked(v).len() <= v.len(),
{
    vstd::set_lib::lemma_int_range(0, v.len() as int);
    assert(unmarked(v).subset_of(vstd::set_lib::set_int_range(0, v.len() as int)));
    vstd::set_lib::lemma_len_subset(unmarked(v), vstd::set_lib::set_int_range(0, v.len() as int));
}

/// Whether the table marks cell `x`, false off the warehouse.
fn marked_at(t: &Vec<bool>, x: i64) -> (r: bool)
    requires
        t@.len() == 5000,
    ensures
        r == (0 <= x < 5000 && t@[x as int]),
{
    if 0 <= x && x < 5000 {
        t[x as usize]
    } else {
        false
    }
}

/// The boxes pushed with the box at `b0` when pushing by `d` rows.
fn pushed_table(g: &Vec<u8>, b0: i64, d: i64) -> (t: Vec<bool>)
    requires
        g@.len() == 5000,
        0 <= b0 < 5000,
        d == 100 || d == -100,
    ensures
        t@.len() == 5000,
        forall|c: int| 0 <= c < 5000 ==> t@[c] == pushed(g@, b0 as int, d as int, push_depth(), c),
{
    let mut t: Vec<bool> = vec![false; 5000];
    proof {
        vstd::set_lib::lemma_int_range(0, 5000);
        assert(unmarked(t@) =~= vstd::set_lib::set_int_range(0, 5000));
    }
    let ghost before = t@;
    t.set(b0 as usize, true);
    proof {
        lemma_unmarked_shrinks(before, t@, b0 as int);
    }
    let ghost mut n: nat = 0;
    loop
        invariant
            g@.len() == 5000,
            0 <= b0 < 5000,
            d == 100 || d == -100,
            t@.len() == 5000,
            forall|c: int| 0 <= c < 5000 ==> t@[c] == pushed(g@, b0 as int, d as int, n, c),
            unmarked(t@).len() + n < 5000,
        decreases unmarked(t@).len(),
    {
        let mut nt: Vec<bool> = Vec::new();
        let mut changed = false;
        let mut c: usize = 0;
        while c < 5000
            invariant
                g@.len() == 5000,
                d == 100 || d == -100,
                0 <= b0 < 5000,
                t@.len() == 5000,
                forall|x: int| 0 <= x < 5000 ==> t@[x] == pushed(g@, b0 as int, d as int, n, x),
                c <= 5000,
                nt@.len() == c,
                forall|x: int| 0 <= x < c ==> nt@[x] == pushed(g@, b0 as int, d as int, n + 1, x),
                changed == exists|x: int| 0 <= x < c && nt@[x] != t@[x],
            decreases 5000 - c,
        {
            let ci = c as i64;
            let v = t[c] || (g[c] == 91 && (marked_at(&t, ci - d + 1) || marked_at(&t, ci - d) || marked_at(
                &t,
                ci - d - 1,
            )));
            proof {
                assert forall|x: int| !(0 <= x < 5000) implies !pushed(g@, b0 as int, d as int, n, x) by {
                    if pushed(g@, b0 as int, d as int, n, x) {
                        lemma_pushed_range(g@, b0 as int, d as int, n, x);
                    }
                }
                assert(!pushed(g@, b0 as int, d as int, n, c - d + 1) || (0 <= c - d + 1 < 5000));
                assert(!pushed(g@, b0 as int, d as int, n, c - d) || (0 <= c - d < 5000));
                assert(!pushed(g@, b0 as int, d as int, n, c - d - 1) || (0 <= c - d - 1 < 5000));
                assert(v == pushed(g@, b0 as int, d as int, n + 1, c as int));
            }
            let ghost prev = nt@;
            nt.push(v);
            if v != t[c] {
                changed = true;
            }
            proof {
                if changed {
                    if v != t@[c as int] {
                        assert(nt@[c as int] != t@[c as int]);
                    } else {
                        let x = choose|x: int| 0 <= x < c && prev[x] != t@[x];
                        assert(nt@[x] != t@[x]);
                    }
                }
            }
            c = c + 1;
        }
        if !changed {
            proof {
                assert forall|x: int| pushed(g@, b0 as int, d as int, n + 1, x) == #[trigger] pushed(
                    g@,
                    b0 as int,
                    d as int,
                    n,
                    x,
                ) by {
                    if 0 <= x < 5000 {
                        assert(nt@[x] == t@[x]);
                    } else {
                        if pushed(g@, b0 as int, d as int, n + 1, x) {
                            lemma_pushed_range(g@, b0 as int, d as int, n + 1, x);
                        }
                        if pushed(g@, b0 as int, d as int, n, x) {
                            lemma_pushed_range(g@, b0 as int, d as int, n, x);
                        }
                    }
                }
                lemma_pushed_fixpoint(g@, b0 as int, d as int, n, push_depth());
            }
            return t;
        }
        proof {
            let x = choose|x: int| 0 <= x < 5000 && nt@[x] != t@[x];
            assert forall|y: int| 0 <= y < 5000 && t@[y] implies nt@[y] by {
                lemma_pushed_deeper(g@, b0 as int, d as int, n, n + 1, y);
            }
            lemma_unmarked_shrinks(t@, nt@, x);
            lemma_unmarked_bound(nt@);
        }
        t = nt;
        proof {
            n = n + 1;
        }
    }
}

/// The byte of the wide warehouse at `q`, a wall off it.
fn at2_exec(g: &Vec<u8>, q: i64) -> (b: u8)
    requires
        g@.len() == 5000,
    ensures
        b == at2(g@, q as int),
{
    if 0 <= q && q < 5000 {
        g[q as usize]
    } else {
        35
    }
}

/// The first offset from `k` on in steps of `d` that holds no `[`.
fn past_row_exec(g: &Vec<u8>, k: i64, d: i64) -> (e: i64)
    requires
        g@.len() == 5000,
        -5100 <= k <= 5100,
        d == 2 || d == -2,
    ensures
        e == past_row(g@, k as int, d as int, 50),
        -5200 <= e <= 5200,
{
    let mut e = k;
    let mut n: u64 = 50;
    while n > 0 && at2_exec(g, e) == 91
        invariant
            g@.len() == 5000,
            d == 2 || d == -2,
            n <= 50,
            past_row(g@, e as int, d as int, n as nat) == past_row(g@, k as int, d as int, 50),
            -5100 - 2 * (50 - n) <= e <= 5100 + 2 * (50 - n),
        decreases n,
    {
        e = e + d;
        n = n - 1;
    }
    e
}

/// The wide warehouse.
fn widen_exec(s: &[u8]) -> (g: Vec<u8>)
    requires
        wf_input(s@),
    ensures
        g@ == widen(s@),
        plain(g@),
{
    let mut g: Vec<u8> = Vec::new();
    let mut c: usize = 0;
    while c < 5000
        invariant
            wf_input(s@),
            c <= 5000,
            g@.len() == c,
            forall|x: int| 0 <= x < c ==> g@[x] == widen(s@)[x],
            forall|x: int| 0 <= x < c ==> (#[trigger] g@[x] == 35 || g@[x] == 91 || g@[x] == 46),
        decreases 5000 - c,
    {
        proof {
            assert(51 * (c / 100) + (c % 100) / 2 < 2550) by (nonlinear_arith)
                requires
                    c < 5000,
            ;
        }
        let b = s[51 * (c / 100) + (c % 100) / 2];
        let v: u8 = if b == 35 {
            35
        } else if b == 79 && c % 2 == 0 {
            91
        } else {
            46
        };
        g.push(v);
        c = c + 1;
    }
    proof {
        assert(g@ =~= widen(s@));
    }
    g
}

/// One move of the robot in the wide warehouse.
fn step2_exec(g: &mut Vec<u8>, pos: i64, b: u8) -> (p: i64)
    requires
        old(g)@.len() == 5000,
        plain(old(g)@),
        -5000 <= pos < 10000,
    ensures
        (final(g)@, p as int) == step2(old(g)@, pos as int, b),
        final(g)@.len() == 5000,
        plain(final(g)@),
        -5000 <= p < 10000,
{
    let d: i64 = if b == 60 {
        -1
    } else if b == 62 {
        1
    } else if b == 94 {
        -100
    } else if b == 118 {
        100
    } else {
        0
    };
    let q = pos + d;
    if d == 0 || (at2_exec(g, q) == 46 && at2_exec(g, q - 1) != 91) {
        return q;
    }
    if at2_exec(g, q) == 35 {
        return pos;
    }
    proof {
        assert(0 <= q < 5000);
    }
    let ghost g0 = g@;
    if d == -1 || d == 1 {
        let k = if d == -1 {
            past_row_exec(g, q - 1, -2)
        } else {
            past_row_exec(g, q, 2)
        };
        let free = if d == -1 {
            at2_exec(g, k + 1) == 46
        } else {
            at2_exec(g, k) == 46
        };
        if !free {
            return pos;
        }
        let mut ng: Vec<u8> = Vec::new();
        let mut c: usize = 0;
        while c < 5000
            invariant
                g@ == g0,
                g0.len() == 5000,
                plain(g0),
                d == -1 || d == 1,
                -5000 <= pos < 10000,
                -5200 <= k <= 5200,
                q == pos + d,
                c <= 5000,
                ng@.len() == c,
                forall|x: int|
                    0 <= x < c ==> ng@[x] == (if d == -1 {
                        if k < x < pos - 1 && (x - k) % 2 == 1 {
                            91u8
                        } else if k < x <= pos - 1 {
                            46u8
                        } else {
                            g0[x]
                        }
                    } else {
                        if q <= x <= k && (x - q) % 2 == 1 {
                            91u8
                        } else if q <= x <= k {
                            46u8
                        } else {
                            g0[x]
                        }
                    }),
            decreases 5000 - c,
        {
            let x = c as i64;
            let v: u8 = if d == -1 {
                if k < x && x < pos - 1 && (x - k) % 2 == 1 {
                    91
                } else if k < x && x <= pos - 1 {
                    46
                } else {
                    g[c]
                }
            } else {
                if q <= x && x <= k && (x - q) % 2 == 1 {
                    91
                } else if q <= x && x <= k {
                    46
                } else {
                    g[c]
                }
            };
            ng.push(v);
            c = c + 1;
        }
        proof {
            if d == -1 {
                assert(ng@ =~= Seq::new(
                    g0.len(),
                    |x: int|
                        if k < x < pos - 1 && (x - k) % 2 == 1 {
                            91u8
                        } else if k < x <= pos - 1 {
                            46u8
                        } else {
                            g0[x]
                        },
                ));
            } else {
                assert(ng@ =~= Seq::new(
                    g0.len(),
                    |x: int|
                        if q <= x <= k && (x - q) % 2 == 1 {
                            91u8
                        } else if q <= x <= k {
                            46u8
                        } else {
                            g0[x]
                        },
                ));
            }
            assert forall|x: int| 0 <= x < ng@.len() implies (#[trigger] ng@[x] == 35 || ng@[x] == 91
                || ng@[x] == 46) by {
                assert(g0[x] == 35 || g0[x] == 91 || g0[x] == 46);
            }
        }
        *g = ng;
        return q;
    }
    let b0: i64 = if at2_exec(g, q) == 91 {
        q
    } else {
        q - 1
    };
    proof {
        assert(0 <= b0 < 5000);
    }
    let t = pushed_table(g, b0, d);
    let mut blocked = false;
    let mut c: usize = 0;
    while c < 5000
        invariant
            g@ == g0,
            g0.len() == 5000,
            d == 100 || d == -100,
            0 <= b0 < 5000,
            t@.len() == 5000,
            forall|x: int| 0 <= x < 5000 ==> t@[x] == pushed(g0, b0 as int, d as int, push_depth(), x),
            c <= 5000,
            blocked == exists|x: int|
                0 <= x < c && #[trigger] pushed(g0, b0 as int, d as int, push_depth(), x) && (at2(
                    g0,
                    x + d,
                ) == 35 || at2(g0, x + d + 1) == 35),
        decreases 5000 - c,
    {
        let x = c as i64;
        if t[c] && (at2_exec(g, x + d) == 35 || at2_exec(g, x + d + 1) == 35) {
            blocked = true;
        }
        c = c + 1;
    }
    proof {
        if push_blocked(g0, b0 as int, d as int) {
            let x = choose|x: int|
                #[trigger] pushed(g0, b0 as int, d as int, push_depth(), x) && (at2(g0, x + d) == 35 || at2(
                    g0,
                    x + d + 1,
                ) == 35);
            lemma_pushed_range(g0, b0 as int, d as int, push_depth(), x);
        }
    }
    if blocked {
        return pos;
    }
    let mut ng: Vec<u8> = Vec::new();
    let mut c: usize = 0;
    while c < 5000
        invariant
            g@ == g0,
            g0.len() == 5000,
            plain(g0),
            d == 100 || d == -100,
            0 <= b0 < 5000,
            t@.len() == 5000,
            forall|x: int| 0 <= x < 5000 ==> t@[x] == pushed(g0, b0 as int, d as int, push_depth(), x),
            c <= 5000,
            ng@.len() == c,
            forall|x: int| 0 <= x < c ==> ng@[x] == shifted(g0, b0 as int, d as int)[x],
            forall|x: int| 0 <= x < c ==> (#[trigger] ng@[x] == 35 || ng@[x] == 91 || ng@[x] == 46),
        decreases 5000 - c,
    {
        let x = c as i64;
        let v: u8 = if marked_at(&t, x - d) {
            91
        } else if t[c] {
            46
        } else {
            g[c]
        };
        proof {
            if !(0 <= x - d < 5000) && pushed(g0, b0 as int, d as int, push_depth(), x - d) {
                lemma_pushed_range(g0, b0 as int, d as int, push_depth(), x - d);
            }
            assert(g0[c as int] == 35 || g0[c as int] == 91 || g0[c as int] == 46);
        }
        ng.push(v);
        c = c + 1;
    }
    proof {
        assert(ng@ =~= shifted(g0, b0 as int, d as int));
    }
    *g = ng;
    q
}

/// Part 2: the sum of the box offsets once the robot has moved in the wide warehouse.
pub fn part2(input: &str) -> (r: u32)
    requires
        wf_input(input.spec_bytes()),
    ensures
        r == gps2(after2(input.spec_bytes(), moves(input.spec_bytes())).0, 5000),
{
    let s = input.as_bytes();
    let p0 = find_robot(s);
    let mut g = widen_exec(s);
    let mut pos: i64 = (100 * (p0 / 51) + 2 * (p0 % 51)) as i64;
    let n = s.len() - 2551;
    let mut k: usize = 0;
    while k < n
        invariant
            wf_input(s@),
            s@ == input.spec_bytes(),
            n == moves(s@),
            k <= n,
            g@.len() == 5000,
            plain(g@),
            -5000 <= pos < 10000,
            after2(s@, k as nat) == (g@, pos as int),
        decreases n - k,
    {
        pos = step2_exec(&mut g, pos, s[2551 + k]);
        k = k + 1;
    }
    let mut r: u32 = 0;
    let mut c: usize = 0;
    while c < 5000
        invariant
            g@.len() == 5000,
            c <= 5000,
            r == gps2(g@, c as int),
            r <= 5000 * c,
        decreases 5000 - c,
    {
        if c >= 100 && g[c] == 91 {
            r = r + c as u32;
        }
        c = c + 1;
    }
    r
}

/// The answer of part 2, as a signed number.
pub fn run(input: &str) -> (r: i64)
    requires
        wf_input(input.spec_bytes()),
    ensures
        r == gps2(after2(input.spec_bytes(), moves(input.spec_bytes())).0, 5000),
{
    part2(input) as i64
}

} // verus!
