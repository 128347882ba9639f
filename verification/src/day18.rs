//! RAM run: the shortest way across a 71 x 71 memory space as bytes fall
//! into it, and the first byte that cuts the way off.
//!
//! Each line `x,y` names the cell where the next byte falls; cell `(x, y)`
//! is numbered `71 * y + x`. The way runs from cell 0 to the opposite corner.
use vstd::prelude::*;
use vstd::string::StringSliceAdditionalSpecFns;
use vstd::set_lib::set_int_range;

use crate::text::ascii_text;

pub mod bheap;

use self::bheap::{is_heap, lemma_root_max, parent};

verus! {

/// The number of cells.
pub open spec fn cells() -> int {
    5041
}

/// The corner the way leads to.
pub open spec fn goal() -> int {
    5040
}

/// `b` is an ASCII digit.
pub open spec fn is_digit(b: u8) -> bool {
    48 <= b <= 57
}

/// The number of digits of the numeral at `i`: two if a second digit follows.
pub open spec fn width(s: Seq<u8>, i: int) -> int {
    if i + 1 < s.len() && is_digit(s[i + 1]) {
        2
    } else {
        1
    }
}

/// The value of the numeral at `i`.
pub open spec fn num_at(s: Seq<u8>, i: int) -> int {
    if width(s, i) == 2 {
        10 * (s[i] - 48) + (s[i + 1] - 48)
    } else {
        s[i] - 48
    }
}

/// The offset of the comma of the line at `i`.
pub open spec fn comma(s: Seq<u8>, i: int) -> int {
    i + width(s, i)
}

/// The offset of the newline of the line at `i`.
pub open spec fn line_end(s: Seq<u8>, i: int) -> int {
    comma(s, i) + 1 + width(s, comma(s, i) + 1)
}

/// The line at `i` is `x,y` and a newline, both at most 70.
pub open spec fn wf_line(s: Seq<u8>, i: int) -> bool {
    &&& 0 <= i
    &&& line_end(s, i) < s.len()
    &&& is_digit(s[i])
    &&& s[comma(s, i)] == 44
    &&& is_digit(s[comma(s, i) + 1])
    &&& s[line_end(s, i)] == 10
    &&& num_at(s, i) <= 70
    &&& num_at(s, comma(s, i) + 1) <= 70
}

/// The cell named by the line at `i`.
pub open spec fn cell_of(s: Seq<u8>, i: int) -> int {
    71 * num_at(s, comma(s, i) + 1) + num_at(s, i)
}

/// The lines from `i` on are well formed and end the input.
pub open spec fn wf_lines(s: Seq<u8>, i: int) -> bool
    decreases s.len() - i,
{
    if i >= s.len() {
        i == s.len()
    } else {
        wf_line(s, i) && wf_lines(s, line_end(s, i) + 1)
    }
}

/// The cells where the bytes fall, from the line at `i` on.
pub open spec fn falls(s: Seq<u8>, i: int) -> Seq<int>
    decreases s.len() - i,
{
    if 0 <= i < s.len() && wf_line(s, i) {
        seq![cell_of(s, i)] + falls(s, line_end(s, i) + 1)
    } else {
        seq![]
    }
}

/// One of the first `k` bytes falls on cell `c`.
pub open spec fn fallen(fs: Seq<int>, k: int, c: int) -> bool {
    exists|j: int| 0 <= j < k && j < fs.len() && fs[j] == c
}

/// The neighbour of cell `c` in direction `d` (left, right, up, down), if any.
pub open spec fn neighbour(c: int, d: int) -> Option<int> {
    let x = c % 71;
    let y = c / 71;
    if d == 0 {
        if x > 0 {
            Some(c - 1)
        } else {
            None
        }
    } else if d == 1 {
        if x < 70 {
            Some(c + 1)
        } else {
            None
        }
    } else if d == 2 {
        if y > 0 {
            Some(c - 71)
        } else {
            None
        }
    } else {
        if y < 70 {
            Some(c + 71)
        } else {
            None
        }
    }
}

/// The neighbour of `c` in direction `d` satisfies `within(.., n, ..)`.
pub open spec fn near(fs: Seq<int>, k: int, n: nat, c: int, d: int) -> bool
    decreases n, 1int,
{
    neighbour(c, d) matches Some(e) && within(fs, k, n, e)
}

/// Once the first `k` bytes have fallen, cell `c` can be reached from cell 0
/// in at most `n` steps.
pub open spec fn within(fs: Seq<int>, k: int, n: nat, c: int) -> bool
    decreases n, 0int,
{
    if n == 0 {
        c == 0
    } else {
        within(fs, k, (n - 1) as nat, c) || (0 <= c < cells() && !fallen(fs, k, c) && (near(
            fs,
            k,
            (n - 1) as nat,
            c,
            0,
        ) || near(fs, k, (n - 1) as nat, c, 1) || near(fs, k, (n - 1) as nat, c, 2) || near(
            fs,
            k,
            (n - 1) as nat,
            c,
            3,
        )))
    }
}

/// Once the first `k` bytes have fallen, cell `c` can be reached from cell 0.
pub open spec fn reachable(fs: Seq<int>, k: int, c: int) -> bool {
    exists|n: nat| #[trigger] within(fs, k, n, c)
}

/// The length of the shortest way once `k` bytes have fallen.
pub open spec fn shortest(fs: Seq<int>, k: int) -> nat {
    choose|n: nat| within(fs, k, n, goal()) && forall|m: nat| m < n ==> !within(fs, k, m, goal())
}

/// The way is still open once byte `j` has fallen.
pub open spec fn open_after(fs: Seq<int>, j: int) -> bool {
    reachable(fs, j + 1, goal())
}

/// The index of the first byte that cuts the way off.
pub open spec fn first_cut(fs: Seq<int>) -> int {
    choose|k: int|
        0 <= k < fs.len() && !open_after(fs, k) && forall|j: int| 0 <= j < k ==> #[trigger] open_after(fs, j)
}

/// The lines of the input; no byte falls on cell 0.
pub open spec fn wf_input(s: Seq<u8>) -> bool {
    &&& wf_lines(s, 0)
    &&& !falls(s, 0).contains(0)
}

/// The text of a coordinate.
pub open spec fn coord_text(v: int) -> Seq<char> {
    if v >= 10 {
        seq![(v / 10 + 48) as char, (v % 10 + 48) as char]
    } else {
        seq![(v + 48) as char]
    }
}

/// The text `x,y` of cell `c`.
pub open spec fn cell_text(c: int) -> Seq<char> {
    coord_text(c % 71) + seq![','] + coord_text(c / 71)
}

/// Only cells of the memory space are reached.
pub proof fn lemma_within_range(fs: Seq<int>, k: int, n: nat, c: int)
    requires
        within(fs, k, n, c),
    ensures
        0 <= c < cells(),
    decreases n,
{
    if n > 0 && within(fs, k, (n - 1) as nat, c) {
        lemma_within_range(fs, k, (n - 1) as nat, c);
    }
}

/// More steps reach at least the same cells.
pub proof fn lemma_within_steps(fs: Seq<int>, k: int, a: nat, b: nat, c: int)
    requires
        a <= b,
        within(fs, k, a, c),
    ensures
        within(fs, k, b, c),
    decreases b - a,
{
    if a < b {
        lemma_within_steps(fs, k, a, (b - 1) as nat, c);
    }
}

/// More fallen bytes leave at most the same cells reachable.
pub proof fn lemma_within_bytes(fs: Seq<int>, k1: int, k2: int, n: nat, c: int)
    requires
        k1 <= k2,
        within(fs, k2, n, c),
    ensures
        within(fs, k1, n, c),
    decreases n,
{
    if n > 0 {
        let m = (n - 1) as nat;
        if within(fs, k2, m, c) {
            lemma_within_bytes(fs, k1, k2, m, c);
        } else {
            assert(!fallen(fs, k1, c)) by {
                if fallen(fs, k1, c) {
                    let j = choose|j: int| 0 <= j < k1 && j < fs.len() && fs[j] == c;
                    assert(fallen(fs, k2, c));
                }
            }
            assert forall|d: int| near(fs, k2, m, c, d) implies #[trigger] near(fs, k1, m, c, d) by {
                lemma_within_bytes(fs, k1, k2, m, neighbour(c, d)->0);
            }
            assert(near(fs, k2, m, c, 0) ==> near(fs, k1, m, c, 0));
            assert(near(fs, k2, m, c, 1) ==> near(fs, k1, m, c, 1));
            assert(near(fs, k2, m, c, 2) ==> near(fs, k1, m, c, 2));
            assert(near(fs, k2, m, c, 3) ==> near(fs, k1, m, c, 3));
        }
    }
}

/// Once a step adds no cell, no further step does.
proof fn lemma_fixpoint(fs: Seq<int>, k: int, n: nat, m: nat)
    requires
        n <= m,
        forall|c: int| within(fs, k, n + 1, c) == #[trigger] within(fs, k, n, c),
    ensures
        forall|c: int| within(fs, k, m, c) == #[trigger] within(fs, k, n, c),
    decreases m - n,
{
    if n < m {
        lemma_fixpoint(fs, k, n, (m - 1) as nat);
        let p = (m - 1) as nat;
        assert forall|c: int| within(fs, k, m, c) == #[trigger] within(fs, k, n, c) by {
            assert(within(fs, k, p, c) == within(fs, k, n, c));
            assert forall|d: int| near(fs, k, p, c, d) == near(fs, k, n, c, d) by {
                if let Some(e) = neighbour(c, d) {
                    assert(within(fs, k, p, e) == within(fs, k, n, e));
                }
            }
            assert(near(fs, k, p, c, 0) == near(fs, k, n, c, 0));
            assert(near(fs, k, p, c, 1) == near(fs, k, n, c, 1));
            assert(near(fs, k, p, c, 2) == near(fs, k, n, c, 2));
            assert(near(fs, k, p, c, 3) == near(fs, k, n, c, 3));
            assert(within(fs, k, n + 1, c) == within(fs, k, n, c));
        }
    }
}

/// The neighbour of `c` in direction `d`, computed.
fn neighbour_exec(c: usize, d: usize) -> (r: Option<usize>)
    requires
        c < cells(),
        d < 4,
    ensures
        neighbour(c as int, d as int) == (match r {
            Some(e) => Some(e as int),
            None => None::<int>,
        }),
        r matches Some(e) ==> e < cells(),
{
    let x = c % 71;
    let y = c / 71;
    if d == 0 {
        if x > 0 {
            Some(c - 1)
        } else {
            None
        }
    } else if d == 1 {
        if x < 70 {
            Some(c + 1)
        } else {
            None
        }
    } else if d == 2 {
        if y > 0 {
            Some(c - 71)
        } else {
            None
        }
    } else {
        if y < 70 {
            Some(c + 71)
        } else {
            None
        }
    }
}

/// The cells where the first `k` bytes have fallen.
fn fallen_table(fs: &Vec<usize>, k: usize) -> (t: Vec<bool>)
    requires
        forall|j: int| 0 <= j < fs@.len() ==> fs@[j] < cells(),
    ensures
        t@.len() == cells(),
        forall|c: int| 0 <= c < cells() ==> t@[c] == fallen(fs@.map_values(|v: usize| v as int), k as int, c),
{
    let ghost g = fs@.map_values(|v: usize| v as int);
    let mut t: Vec<bool> = vec![false; 5041];
    let mut j: usize = 0;
    while j < k && j < fs.len()
        invariant
            g == fs@.map_values(|v: usize| v as int),
            forall|i: int| 0 <= i < fs@.len() ==> fs@[i] < cells(),
            j <= k,
            j <= fs@.len(),
            t@.len() == cells(),
            forall|c: int| 0 <= c < cells() ==> t@[c] == #[trigger] fallen(g, j as int, c),
        decreases fs@.len() - j,
    {
        let ghost before = t@;
        t.set(fs[j], true);
        proof {
            assert forall|c: int| 0 <= c < cells() implies t@[c] == #[trigger] fallen(g, j + 1, c) by {
                assert(before[c] == fallen(g, j as int, c));
                if c == fs@[j as int] {
                    assert(g[j as int] == c);
                } else if fallen(g, j + 1, c) {
                    let i = choose|i: int| 0 <= i < j + 1 && i < g.len() && g[i] == c;
                    assert(i < j);
                }
            }
        }
        j = j + 1;
    }
    proof {
        assert forall|c: int| 0 <= c < cells() implies t@[c] == #[trigger] fallen(g, k as int, c) by {
            assert(t@[c] == fallen(g, j as int, c));
            if fallen(g, k as int, c) {
                let i = choose|i: int| 0 <= i < k && i < g.len() && g[i] == c;
                assert(i < j);
            }
        }
    }
    t
}

/// The cells reached in one more step, and whether any cell was added.
fn next_layer(
    blocked: &Vec<bool>,
    vis: &Vec<bool>,
    Ghost(fs): Ghost<Seq<int>>,
    Ghost(k): Ghost<int>,
    Ghost(n): Ghost<nat>,
) -> (r: (Vec<bool>, bool))
    requires
        blocked@.len() == cells(),
        vis@.len() == cells(),
        forall|c: int| 0 <= c < cells() ==> blocked@[c] == fallen(fs, k, c),
        forall|c: int| 0 <= c < cells() ==> vis@[c] == within(fs, k, n, c),
    ensures
        r.0@.len() == cells(),
        forall|c: int| 0 <= c < cells() ==> r.0@[c] == within(fs, k, n + 1, c),
        r.1 == exists|c: int| 0 <= c < cells() && r.0@[c] != vis@[c],
{
    let mut out: Vec<bool> = Vec::new();
    let mut changed = false;
    let mut c: usize = 0;
    while c < 5041
        invariant
            blocked@.len() == cells(),
            vis@.len() == cells(),
            forall|x: int| 0 <= x < cells() ==> blocked@[x] == fallen(fs, k, x),
            forall|x: int| 0 <= x < cells() ==> vis@[x] == within(fs, k, n, x),
            c <= cells(),
            out@.len() == c,
            forall|x: int| 0 <= x < c ==> out@[x] == within(fs, k, n + 1, x),
            changed == exists|x: int| 0 <= x < c && out@[x] != vis@[x],
        decreases cells() - c,
    {
        let mut v = vis[c];
        if !v && !blocked[c] {
            let mut d: usize = 0;
            while d < 4
                invariant
                    vis@.len() == cells(),
                    forall|x: int| 0 <= x < cells() ==> vis@[x] == within(fs, k, n, x),
                    c < cells(),
                    d <= 4,
                    v == exists|e: int| 0 <= e < d && #[trigger] near(fs, k, n, c as int, e),
                decreases 4 - d,
            {
                match neighbour_exec(c, d) {
                    Some(e) => {
                        if vis[e] {
                            v = true;
                        }
                    },
                    None => {},
                }
                proof {
                    if v && !(exists|e: int| 0 <= e < d && #[trigger] near(fs, k, n, c as int, e)) {
                        assert(near(fs, k, n, c as int, d as int));
                    }
                    if !v {
                        assert(!near(fs, k, n, c as int, d as int));
                    }
                }
                d = d + 1;
            }
            proof {
                if v {
                    let e = choose|e: int| 0 <= e < 4 && #[trigger] near(fs, k, n, c as int, e);
                    assert(near(fs, k, n, c as int, e));
                }
            }
        }
        proof {
            let w = within(fs, k, n + 1, c as int);
            assert(w == (within(fs, k, n, c as int) || (!fallen(fs, k, c as int) && (near(
                fs,
                k,
                n,
                c as int,
                0,
            ) || near(fs, k, n, c as int, 1) || near(fs, k, n, c as int, 2) || near(
                fs,
                k,
                n,
                c as int,
                3,
            )))));
            if !vis@[c as int] && !blocked@[c as int] {
                if v {
                    let e = choose|e: int| 0 <= e < 4 && #[trigger] near(fs, k, n, c as int, e);
                    assert(e == 0 || e == 1 || e == 2 || e == 3);
                } else {
                    assert(!near(fs, k, n, c as int, 0));
                    assert(!near(fs, k, n, c as int, 1));
                    assert(!near(fs, k, n, c as int, 2));
                    assert(!near(fs, k, n, c as int, 3));
                }
            }
            assert(v == w);
        }
        let ghost before = out@;
        out.push(v);
        if v != vis[c] {
            changed = true;
        }
        proof {
            assert(out@[c as int] == v);
            if changed {
                if v != vis@[c as int] {
                    assert(out@[c as int] != vis@[c as int]);
                } else {
                    let x = choose|x: int| 0 <= x < c && before[x] != vis@[x];
                    assert(out@[x] != vis@[x]);
                }
            }
        }
        c = c + 1;
    }
    (out, changed)
}

/// The cells where the bytes fall, in order.
fn parse_falls(s: &[u8]) -> (fs: Vec<usize>)
    requires
        wf_lines(s@, 0),
    ensures
        fs@.map_values(|v: usize| v as int) == falls(s@, 0),
        forall|j: int| 0 <= j < fs@.len() ==> fs@[j] < cells(),
{
    let mut fs: Vec<usize> = Vec::new();
    let mut i: usize = 0;
    while i < s.len()
        invariant
            i <= s@.len(),
            wf_lines(s@, i as int),
            falls(s@, 0) == fs@.map_values(|v: usize| v as int) + falls(s@, i as int),
            forall|j: int| 0 <= j < fs@.len() ==> fs@[j] < cells(),
        decreases s@.len() - i,
    {
        let xw: usize = if i + 1 < s.len() && 48 <= s[i + 1] && s[i + 1] <= 57 {
            2
        } else {
            1
        };
        let x: usize = if xw == 2 {
            10 * (s[i] - 48) as usize + (s[i + 1] - 48) as usize
        } else {
            (s[i] - 48) as usize
        };
        let j = i + xw + 1;
        let yw: usize = if j + 1 < s.len() && 48 <= s[j + 1] && s[j + 1] <= 57 {
            2
        } else {
            1
        };
        let y: usize = if yw == 2 {
            10 * (s[j] - 48) as usize + (s[j + 1] - 48) as usize
        } else {
            (s[j] - 48) as usize
        };
        let e = j + yw;
        proof {
            assert(x == num_at(s@, i as int));
            assert(j == comma(s@, i as int) + 1);
            assert(y == num_at(s@, j as int));
            assert(e == line_end(s@, i as int));
        }
        let ghost before = fs@;
        fs.push(71 * y + x);
        proof {
            assert(falls(s@, i as int) == seq![cell_of(s@, i as int)] + falls(s@, e + 1));
            assert(fs@.map_values(|v: usize| v as int) =~= before.map_values(|v: usize| v as int).push(
                71 * y + x,
            ));
            assert(fs@.map_values(|v: usize| v as int) + falls(s@, e + 1) =~= before.map_values(
                |v: usize| v as int,
            ) + falls(s@, i as int));
        }
        i = e + 1;
    }
    proof {
        assert(falls(s@, i as int) =~= seq![]);
        assert(fs@.map_values(|v: usize| v as int) + seq![] =~= fs@.map_values(|v: usize| v as int));
    }
    fs
}

/// The cells not marked in `v`.
spec fn unmarked(v: Seq<bool>) -> Set<int> {
    Set::new(|x: int| 0 <= x < v.len() && !v[x])
}

proof fn lemma_unmarked_shrinks(old: Seq<bool>, new: Seq<bool>, c: int)
    requires
        old.len() == new.len(),
        forall|x: int| 0 <= x < old.len() && old[x] ==> new[x],
        0 <= c < old.len(),
        !old[c],
        new[c],
    ensures
        unmarked(new).len() < unmarked(old).len(),
        unmarked(old).finite(),
{
    vstd::set_lib::lemma_int_range(0, old.len() as int);
    assert(unmarked(old).subset_of(set_int_range(0, old.len() as int)));
    vstd::set_lib::lemma_len_subset(unmarked(old), set_int_range(0, old.len() as int));
    assert(unmarked(new).subset_of(unmarked(old).remove(c)));
    vstd::set_lib::lemma_len_subset(unmarked(new), unmarked(old).remove(c));
    vstd::set::axiom_set_remove_len(unmarked(old), c);
}

proof fn lemma_unmarked_bound(v: Seq<bool>)
    ensures
        unmarked(v).finite(),
        unmarked(v).len() <= v.len(),
{
    vstd::set_lib::lemma_int_range(0, v.len() as int);
    assert(unmarked(v).subset_of(set_int_range(0, v.len() as int)));
    vstd::set_lib::lemma_len_subset(unmarked(v), set_int_range(0, v.len() as int));
}

/// The cells reached from cell 0 in no step: cell 0 alone.
fn start_layer(Ghost(fs): Ghost<Seq<int>>, Ghost(k): Ghost<int>) -> (vis: Vec<bool>)
    ensures
        vis@.len() == cells(),
        forall|c: int| 0 <= c < cells() ==> vis@[c] == within(fs, k, 0, c),
        unmarked(vis@).len() == cells() - 1,
{
    let mut vis: Vec<bool> = vec![false; 5041];
    proof {
        assert(unmarked(vis@) =~= set_int_range(0, cells()));
        vstd::set_lib::lemma_int_range(0, cells());
    }
    let ghost before = vis@;
    vis.set(0, true);
    proof {
        assert(unmarked(vis@) =~= unmarked(before).remove(0));
        vstd::set::axiom_set_remove_len(unmarked(before), 0);
    }
    vis
}

/// Part 1: the number of steps of the shortest way once 1024 bytes have fallen.
pub fn part1(input: &str) -> (r: u64)
    requires
        wf_input(input.spec_bytes()),
        reachable(falls(input.spec_bytes(), 0), 1024, goal()),
    ensures
        r == shortest(falls(input.spec_bytes(), 0), 1024),
{
    let s = input.as_bytes();
    let fs = parse_falls(s);
    let ghost g = falls(s@, 0);
    let blocked = fallen_table(&fs, 1024);
    let mut vis = start_layer(Ghost(g), Ghost(1024));
    let mut n: u64 = 0;
    let ghost n0 = choose|m: nat| #[trigger] within(g, 1024, m, goal());
    while !vis[5040]
        invariant
            g == falls(s@, 0),
            g == fs@.map_values(|v: usize| v as int),
            within(g, 1024, n0, goal()),
            blocked@.len() == cells(),
            forall|c: int| 0 <= c < cells() ==> blocked@[c] == fallen(g, 1024, c),
            vis@.len() == cells(),
            forall|c: int| 0 <= c < cells() ==> vis@[c] == within(g, 1024, n as nat, c),
            forall|m: nat| m < n ==> !within(g, 1024, m, goal()),
            unmarked(vis@).len() + n <= cells(),
        decreases n0 - n,
    {
        proof {
            if n0 <= n {
                lemma_within_steps(g, 1024, n0, n as nat, goal());
            }
        }
        let (nv, changed) = next_layer(&blocked, &vis, Ghost(g), Ghost(1024), Ghost(n as nat));
        if !changed {
            proof {
                assert forall|c: int| within(g, 1024, (n + 1) as nat, c) == #[trigger] within(g, 1024, n as nat, c) by {
                    if 0 <= c < cells() {
                        assert(nv@[c] == vis@[c]);
                    }
                    if within(g, 1024, (n + 1) as nat, c) {
                        lemma_within_range(g, 1024, (n + 1) as nat, c);
                    }
                    if within(g, 1024, n as nat, c) {
                        lemma_within_range(g, 1024, n as nat, c);
                        lemma_within_steps(g, 1024, n as nat, (n + 1) as nat, c);
                    }
                }
                lemma_fixpoint(g, 1024, n as nat, n0);
                assert(false);
            }
            return 0;
        }
        proof {
            let c = choose|c: int| 0 <= c < cells() && nv@[c] != vis@[c];
            assert forall|x: int| 0 <= x < cells() && vis@[x] implies nv@[x] by {
                lemma_within_steps(g, 1024, n as nat, (n + 1) as nat, x);
            }
            lemma_unmarked_shrinks(vis@, nv@, c);
            lemma_unmarked_bound(nv@);
        }
        vis = nv;
        n = n + 1;
    }
    proof {
        let q = shortest(g, 1024);
        assert(within(g, 1024, n as nat, goal()) && forall|m: nat| m < n ==> !within(g, 1024, m, goal()));
        assert(within(g, 1024, q, goal()) && forall|m: nat| m < q ==> !within(g, 1024, m, goal()));
        if q < n {
            assert(!within(g, 1024, q, goal()));
        }
        if n < q {
            assert(!within(g, 1024, n as nat, goal()));
        }
    }
    n
}

/// The mark of a cell on which no byte falls.
pub open spec fn never() -> int {
    3450
}

/// The index of the last of the first `k` bytes to fall on cell `c`, or
/// `never()`.
pub open spec fn level_upto(fs: Seq<int>, c: int, k: int) -> int
    decreases k,
{
    if k <= 0 {
        never()
    } else if fs[k - 1] == c {
        k - 1
    } else {
        level_upto(fs, c, k - 1)
    }
}

/// The index of the byte that falls on cell `c`, or `never()`.
pub open spec fn level(fs: Seq<int>, c: int) -> int {
    level_upto(fs, c, fs.len() as int)
}

/// No two bytes fall on one cell, and at most `never()` fall.
pub open spec fn distinct_falls(fs: Seq<int>) -> bool {
    &&& fs.len() <= never()
    &&& forall|i: int, j: int| 0 <= i < j < fs.len() ==> #[trigger] fs[i] != #[trigger] fs[j]
}

proof fn lemma_level_upto(fs: Seq<int>, c: int, k: int)
    requires
        0 <= k <= fs.len(),
    ensures
        (level_upto(fs, c, k) == never() && forall|j: int| 0 <= j < k ==> fs[j] != c) || (0 <= level_upto(fs, c, k)
            < k && fs[level_upto(fs, c, k)] == c),
    decreases k,
{
    if k > 0 {
        lemma_level_upto(fs, c, k - 1);
    }
}

/// With distinct falls, a cell has fallen among the first `k` bytes exactly
/// when its byte's index is below `k`.
proof fn lemma_level(fs: Seq<int>, c: int, k: int)
    requires
        distinct_falls(fs),
        0 <= k <= never(),
    ensures
        level(fs, c) == never() || (0 <= level(fs, c) < fs.len() && fs[level(fs, c)] == c),
        fallen(fs, k, c) <==> level(fs, c) < k,
{
    lemma_level_upto(fs, c, fs.len() as int);
    let l = level(fs, c);
    if fallen(fs, k, c) {
        let j = choose|j: int| 0 <= j < k && j < fs.len() && fs[j] == c;
        if l != never() && l != j {
            if l < j {
                assert(fs[l] != fs[j]);
            } else {
                assert(fs[j] != fs[l]);
            }
        }
    }
    if l < k && l != never() {
        assert(0 <= l < k && l < fs.len() && fs[l] == c);
    }
}

/// The direction back from the neighbour in direction `d`.
pub open spec fn back(d: int) -> int {
    if d == 0 {
        1
    } else if d == 1 {
        0
    } else if d == 2 {
        3
    } else {
        2
    }
}

proof fn lemma_neighbour_back(c: int, d: int)
    requires
        0 <= c < cells(),
        0 <= d < 4,
        neighbour(c, d) is Some,
    ensures
        neighbour(neighbour(c, d)->0, back(d)) == Some(c),
{
}

/// A step to an open neighbour of a reachable cell reaches it.
proof fn lemma_reach_step(fs: Seq<int>, k: int, c: int, d: int)
    requires
        reachable(fs, k, c),
        0 <= d < 4,
        neighbour(c, d) is Some,
        !fallen(fs, k, neighbour(c, d)->0),
    ensures
        reachable(fs, k, neighbour(c, d)->0),
{
    let n = choose|n: nat| #[trigger] within(fs, k, n, c);
    lemma_within_range(fs, k, n, c);
    let e = neighbour(c, d)->0;
    lemma_neighbour_back(c, d);
    assert(near(fs, k, n, e, back(d)));
    assert(0 <= e < cells()) by {
        assert(0 <= c < cells());
    }
    assert(within(fs, k, n + 1, e)) by {
        let b = back(d);
        if b == 0 {
            assert(near(fs, k, n, e, 0));
        } else if b == 1 {
            assert(near(fs, k, n, e, 1));
        } else if b == 2 {
            assert(near(fs, k, n, e, 2));
        } else {
            assert(near(fs, k, n, e, 3));
        }
    }
}

/// `expl` holds cell 0, and every open neighbour of a cell it holds.
pub open spec fn closed(fs: Seq<int>, k: int, expl: Seq<bool>) -> bool {
    &&& expl.len() == cells()
    &&& expl[0]
    &&& forall|x: int, d: int|
        0 <= x < cells() && 0 <= d < 4 && expl[x] && neighbour(x, d) is Some && !fallen(fs, k, neighbour(x, d)->0)
            ==> #[trigger] expl[neighbour(x, d)->0]
}

/// What is reachable lies in any set closed under open neighbours.
proof fn lemma_closed(fs: Seq<int>, k: int, expl: Seq<bool>, n: nat, c: int)
    requires
        closed(fs, k, expl),
        within(fs, k, n, c),
    ensures
        expl[c],
    decreases n,
{
    if n > 0 {
        let m = (n - 1) as nat;
        if within(fs, k, m, c) {
            lemma_closed(fs, k, expl, m, c);
        } else {
            let d: int = if near(fs, k, m, c, 0) {
                0
            } else if near(fs, k, m, c, 1) {
                1
            } else if near(fs, k, m, c, 2) {
                2
            } else {
                3
            };
            assert(near(fs, k, m, c, d));
            let e = neighbour(c, d)->0;
            lemma_closed(fs, k, expl, m, e);
            lemma_within_range(fs, k, m, e);
            lemma_neighbour_back(c, d);
            assert(neighbour(e, back(d)) == Some(c));
            assert(expl[neighbour(e, back(d))->0]);
        }
    }
}

/// With no byte fallen, every cell is reached from cell 0 in as many steps
/// as its coordinates add up to.
proof fn lemma_open_grid(fs: Seq<int>, x: int, y: int)
    requires
        0 <= x < 71,
        0 <= y < 71,
    ensures
        within(fs, 0, (x + y) as nat, 71 * y + x),
    decreases x + y,
{
    let c = 71 * y + x;
    assert(!fallen(fs, 0, c));
    if x > 0 {
        lemma_open_grid(fs, x - 1, y);
        assert(neighbour(c, 0) == Some(c - 1));
        assert(near(fs, 0, (x + y - 1) as nat, c, 0));
    } else if y > 0 {
        lemma_open_grid(fs, x, y - 1);
        assert(neighbour(c, 2) == Some(c - 71));
        assert(near(fs, 0, (x + y - 1) as nat, c, 2));
    }
}

/// Elements of equal multisets share any property of values.
proof fn lemma_multiset_forall(a: Seq<u16>, b: Seq<u16>, p: spec_fn(u16) -> bool)
    requires
        a.to_multiset() == b.to_multiset(),
        forall|i: int| 0 <= i < a.len() ==> #[trigger] p(a[i]),
    ensures
        forall|i: int| 0 <= i < b.len() ==> #[trigger] p(b[i]),
{
    assert forall|i: int| 0 <= i < b.len() implies #[trigger] p(b[i]) by {
        assert(b.contains(b[i]));
        vstd::seq_lib::to_multiset_contains(b, b[i]);
        vstd::seq_lib::to_multiset_contains(a, b[i]);
        let j = choose|j: int| 0 <= j < a.len() && a[j] == b[i];
        assert(p(a[j]));
    }
}

/// Equal multisets contain the same values.
proof fn lemma_multiset_contains(a: Seq<u16>, b: Seq<u16>, v: u16)
    requires
        a.to_multiset() == b.to_multiset(),
        a.contains(v),
    ensures
        b.contains(v),
{
    vstd::seq_lib::to_multiset_contains(a, v);
    vstd::seq_lib::to_multiset_contains(b, v);
}

/// A level in the queue of the search: below the limit, the index of a
/// byte, and its cell seen and reachable once the bytes before it have
/// fallen.
pub open spec fn queued(fs: Seq<int>, seen: Seq<bool>, limit: int, v: u16) -> bool {
    &&& v <= limit
    &&& v < fs.len()
    &&& seen[fs[v as int]]
    &&& reachable(fs, v as int, fs[v as int])
}

/// The bytes of the text `x,y` of cell `c`.
fn cell_bytes(c: usize) -> (out: Vec<u8>)
    requires
        c < cells(),
    ensures
        out@.map_values(|b: u8| b as char) == cell_text(c as int),
        forall|i: int| 0 <= i < out@.len() ==> out@[i] < 128,
{
    let x = c % 71;
    let y = c / 71;
    let mut out: Vec<u8> = Vec::new();
    if x >= 10 {
        out.push((x / 10 + 48) as u8);
        out.push((x % 10 + 48) as u8);
    } else {
        out.push((x + 48) as u8);
    }
    out.push(44);
    if y >= 10 {
        out.push((y / 10 + 48) as u8);
        out.push((y % 10 + 48) as u8);
    } else {
        out.push((y + 48) as u8);
    }
    proof {
        assert(out@.map_values(|b: u8| b as char) =~= cell_text(c as int));
    }
    out
}

/// The index of the byte that falls on each cell, or `never()`.
fn level_table(fs: &Vec<usize>) -> (t: Vec<u16>)
    requires
        forall|j: int| 0 <= j < fs@.len() ==> fs@[j] < cells(),
        fs@.len() <= never(),
    ensures
        t@.len() == cells(),
        forall|c: int| 0 <= c < cells() ==> t@[c] == level(fs@.map_values(|v: usize| v as int), c),
{
    let ghost g = fs@.map_values(|v: usize| v as int);
    let mut t: Vec<u16> = vec![3450; 5041];
    let mut j: usize = 0;
    while j < fs.len()
        invariant
            g == fs@.map_values(|v: usize| v as int),
            forall|i: int| 0 <= i < fs@.len() ==> fs@[i] < cells(),
            fs@.len() <= never(),
            j <= fs@.len(),
            t@.len() == cells(),
            forall|c: int| 0 <= c < cells() ==> t@[c] == #[trigger] level_upto(g, c, j as int),
        decreases fs@.len() - j,
    {
        let ghost t0 = t@;
        t.set(fs[j], j as u16);
        proof {
            assert forall|c: int| 0 <= c < cells() implies t@[c] == #[trigger] level_upto(g, c, j + 1) by {
                assert(g[j as int] == fs@[j as int]);
                assert(t0[c] == level_upto(g, c, j as int));
            }
        }
        j = j + 1;
    }
    t
}

/// The state of the search for the first cut with threshold `min`, while
/// cell `cur` is being expanded (none, if `cur` is negative): the stack
/// holds seen cells reachable at the threshold; each explored cell is seen,
/// reachable, not the goal, and has all its neighbours seen; the heap holds
/// queued levels; every other seen cell has its level in the heap.
pub open spec fn search_ok(
    fs: Seq<int>,
    seen: Seq<bool>,
    expl: Seq<bool>,
    stack: Seq<usize>,
    heap: Seq<u16>,
    min: int,
    cur: int,
) -> bool {
    &&& seen.len() == cells()
    &&& expl.len() == cells()
    &&& forall|i: int|
        0 <= i < stack.len() ==> #[trigger] stack[i] < cells() && seen[stack[i] as int] && reachable(
            fs,
            min,
            stack[i] as int,
        )
    &&& forall|c: int| 0 <= c < cells() && #[trigger] expl[c] ==> seen[c] && c != goal() && reachable(fs, min, c)
    &&& forall|c: int, d: int|
        #![trigger expl[c], neighbour(c, d)]
        0 <= c < cells() && 0 <= d < 4 && expl[c] && neighbour(c, d) is Some ==> seen[neighbour(c, d)->0]
    &&& is_heap(heap, heap.len() as int)
    &&& forall|i: int| 0 <= i < heap.len() ==> queued(fs, seen, min, #[trigger] heap[i])
    &&& forall|c: int|
        0 <= c < cells() && #[trigger] seen[c] && !expl[c] && !stack.contains(c as usize) && c != cur
            ==> heap.contains(level(fs, c) as u16)
    &&& expl[0] || stack.contains(0usize) || cur == 0
}

/// With the stack empty and the search state kept, the heap is not empty:
/// else the explored cells would be closed under all neighbours, and would
/// hold the goal.
proof fn lemma_heap_nonempty(fs: Seq<int>, seen: Seq<bool>, expl: Seq<bool>, heap: Seq<u16>, min: int)
    requires
        search_ok(fs, seen, expl, seq![], heap, min, -1),
        distinct_falls(fs),
    ensures
        heap.len() > 0,
{
    if heap.len() == 0 {
        assert forall|x: int, d: int|
            0 <= x < cells() && 0 <= d < 4 && expl[x] && neighbour(x, d) is Some && !fallen(
                fs,
                0,
                neighbour(x, d)->0,
            ) implies #[trigger] expl[neighbour(x, d)->0] by {
            let e = neighbour(x, d)->0;
            assert(seen[e]);
            if !expl[e] {
                assert(!heap.contains(level(fs, e) as u16));
                assert(!seq![].contains(e as usize));
            }
        }
        assert(expl[0]);
        assert(closed(fs, 0, expl));
        lemma_open_grid(fs, 70, 70);
        lemma_closed(fs, 0, expl, 140, goal());
    }
}

/// With the stack empty, the goal cannot be reached once the bytes up to
/// the largest queued level have fallen: the explored cells are closed under
/// the neighbours still open then.
proof fn lemma_cut(fs: Seq<int>, seen: Seq<bool>, expl: Seq<bool>, heap: Seq<u16>, min: int)
    requires
        search_ok(fs, seen, expl, seq![], heap, min, -1),
        distinct_falls(fs),
        heap.len() > 0,
    ensures
        !reachable(fs, heap[0] + 1, goal()),
{
    let lv = heap[0];
    assert(queued(fs, seen, min, heap[0]));
    assert forall|x: int, d: int|
        0 <= x < cells() && 0 <= d < 4 && expl[x] && neighbour(x, d) is Some && !fallen(
            fs,
            lv + 1,
            neighbour(x, d)->0,
        ) implies #[trigger] expl[neighbour(x, d)->0] by {
        let e = neighbour(x, d)->0;
        assert(seen[e]);
        lemma_level(fs, e, lv + 1);
        if !expl[e] {
            assert(!seq![].contains(e as usize));
            assert(heap.contains(level(fs, e) as u16));
            let j = choose|j: int| 0 <= j < heap.len() && heap[j] == level(fs, e) as u16;
            lemma_root_max(heap, heap.len() as int, j);
        }
    }
    assert(expl[0]) by {
        assert(!seq![].contains(0usize));
    }
    if reachable(fs, lv + 1, goal()) {
        let n = choose|n: nat| #[trigger] within(fs, lv + 1, n, goal());
        lemma_closed(fs, lv + 1, expl, n, goal());
    }
}

/// A cell reachable with more bytes fallen stays reachable with fewer.
proof fn lemma_reachable_bytes(fs: Seq<int>, k1: int, k2: int, c: int)
    requires
        k1 <= k2,
        reachable(fs, k2, c),
    ensures
        reachable(fs, k1, c),
{
    let n = choose|n: nat| #[trigger] within(fs, k2, n, c);
    lemma_within_bytes(fs, k1, k2, n, c);
}

/// Part 2: the coordinates `x,y` of the first byte that cuts the way off.
///
/// The search keeps a threshold, the number of fallen bytes, and explores
/// from cell 0 the cells still open at it; the levels of the cells that are
/// closed at it wait in a max-heap. When no open cell is left, the largest
/// waiting level becomes the threshold and its cell is explored next.
pub fn part2(input: &str) -> (r: String)
    requires
        wf_input(input.spec_bytes()),
        distinct_falls(falls(input.spec_bytes(), 0)),
        exists|k: int| 0 <= k < falls(input.spec_bytes(), 0).len() && !open_after(falls(input.spec_bytes(), 0), k),
    ensures
        r@ == cell_text(falls(input.spec_bytes(), 0)[first_cut(falls(input.spec_bytes(), 0))]),
{
    let s = input.as_bytes();
    let fs = parse_falls(s);
    let ghost g = falls(s@, 0);
    let levels = level_table(&fs);
    let mut seen = start_layer(Ghost(g), Ghost(0int));
    let mut stack: Vec<usize> = vec![0];
    let mut heap: Vec<u16> = Vec::new();
    let mut min: u16 = 3450;
    let ghost mut expl: Seq<bool> = Seq::new(5041, |i: int| false);
    proof {
        assert(within(g, 3450, 0, 0));
        assert(stack@[0] == 0usize);
        assert forall|c: int| 0 <= c < cells() implies seen@[c] == (c == 0) by {
            assert(seen@[c] == within(g, 0, 0, c));
        }
        lemma_unmarked_bound(seen@);
    }
    loop
        invariant_except_break
            g == falls(s@, 0),
            g == fs@.map_values(|v: usize| v as int),
            forall|j: int| 0 <= j < fs@.len() ==> fs@[j] < cells(),
            distinct_falls(g),
            levels@.len() == cells(),
            forall|c: int| 0 <= c < cells() ==> levels@[c] == level(g, c),
            min <= never(),
            min == never() || (min < g.len() && !reachable(g, min + 1, goal())),
            search_ok(g, seen@, expl, stack@, heap@, min as int, -1),
            stack@.len() > 0,
            stack@.len() + heap@.len() + 2 * unmarked(seen@).len() <= 2 * cells(),
        ensures
            g == falls(s@, 0),
            g == fs@.map_values(|v: usize| v as int),
            distinct_falls(g),
            min <= never(),
            min == never() || (min < g.len() && !reachable(g, min + 1, goal())),
            reachable(g, min as int, goal()),
        decreases stack@.len() + heap@.len() + 2 * unmarked(seen@).len(),
    {
        let ghost m0 = stack@.len() + heap@.len() + 2 * unmarked(seen@).len();
        let ghost before = stack@;
        let pos = stack.pop().unwrap();
        proof {
            assert(before[before.len() - 1] == pos);
            assert(stack@ =~= before.drop_last());
            assert forall|c: int|
                0 <= c < cells() && #[trigger] seen@[c] && !expl[c] && !stack@.contains(c as usize) && c
                    != pos implies heap@.contains(level(g, c) as u16) by {
                if before.contains(c as usize) {
                    let i = choose|i: int| 0 <= i < before.len() && before[i] == c as usize;
                    if i < before.len() - 1 {
                        assert(stack@[i] == c as usize);
                    }
                }
            }
            if before.contains(0usize) && pos != 0 {
                let i = choose|i: int| 0 <= i < before.len() && before[i] == 0usize;
                assert(stack@[i] == 0usize);
            }
            assert(search_ok(g, seen@, expl, stack@, heap@, min as int, pos as int));
        }
        if pos == 5040 {
            break;
        }
        let mut d: usize = 0;
        while d < 4
            invariant
                g == fs@.map_values(|v: usize| v as int),
                forall|j: int| 0 <= j < fs@.len() ==> fs@[j] < cells(),
                distinct_falls(g),
                levels@.len() == cells(),
                forall|c: int| 0 <= c < cells() ==> levels@[c] == level(g, c),
                min <= never(),
                pos < cells(),
                pos != goal(),
                seen@[pos as int],
                reachable(g, min as int, pos as int),
                search_ok(g, seen@, expl, stack@, heap@, min as int, pos as int),
                d <= 4,
                forall|j: int|
                    0 <= j < d && neighbour(pos as int, j) is Some ==> seen@[#[trigger] neighbour(
                        pos as int,
                        j,
                    )->0],
                stack@.len() + heap@.len() + 2 * unmarked(seen@).len() + 1 <= m0,
                m0 <= 2 * cells(),
            decreases 4 - d,
        {
            match neighbour_exec(pos, d) {
                Some(e) => {
                    if !seen[e] {
                        let ghost seen0 = seen@;
                        let ghost stack0 = stack@;
                        let ghost heap0 = heap@;
                        seen.set(e, true);
                        proof {
                            lemma_unmarked_shrinks(seen0, seen@, e as int);
                            lemma_unmarked_bound(seen@);
                            lemma_level(g, e as int, min as int);
                        }
                        let lv = levels[e];
                        if lv >= min {
                            stack.push(e);
                            proof {
                                lemma_reach_step(g, min as int, pos as int, d as int);
                                assert(stack@[stack@.len() - 1] == e);
                                assert forall|i: int| 0 <= i < stack@.len() implies #[trigger] stack@[i]
                                    < cells() && seen@[stack@[i] as int] && reachable(
                                    g,
                                    min as int,
                                    stack@[i] as int,
                                ) by {
                                    if i < stack0.len() {
                                        assert(stack@[i] == stack0[i]);
                                    }
                                }
                                assert forall|c: int|
                                    0 <= c < cells() && #[trigger] seen@[c] && !expl[c] && !stack@.contains(
                                        c as usize,
                                    ) && c != pos implies heap@.contains(level(g, c) as u16) by {
                                    if c == e {
                                        assert(stack@[stack@.len() - 1] == c as usize);
                                    } else if stack0.contains(c as usize) {
                                        let i = choose|i: int| 0 <= i < stack0.len() && stack0[i] == c as usize;
                                        assert(stack@[i] == c as usize);
                                    }
                                }
                                assert forall|i: int| 0 <= i < heap@.len() implies queued(
                                    g,
                                    seen@,
                                    min as int,
                                    #[trigger] heap@[i],
                                ) by {
                                    assert(queued(g, seen0, min as int, heap@[i]));
                                }
                                if stack0.contains(0usize) {
                                    let i = choose|i: int| 0 <= i < stack0.len() && stack0[i] == 0usize;
                                    assert(stack@[i] == 0usize);
                                }
                                assert(search_ok(g, seen@, expl, stack@, heap@, min as int, pos as int));
                            }
                        } else {
                            heap.push(lv);
                            proof {
                                assert(is_heap(heap@, heap@.len() - 1)) by {
                                    assert forall|i: int| 1 <= i < heap@.len() - 1 implies heap@[parent(i)]
                                        >= #[trigger] heap@[i] by {
                                        assert(heap0[parent(i)] >= heap0[i]);
                                    }
                                }
                            }
                            bheap::push(&mut heap);
                            proof {
                                let pushed = heap0.push(lv);
                                lemma_level(g, e as int, lv as int);
                                lemma_reachable_bytes(g, lv as int, min as int, pos as int);
                                lemma_reach_step(g, lv as int, pos as int, d as int);
                                assert(g[lv as int] == e);
                                let p = |v: u16| queued(g, seen@, min as int, v);
                                assert forall|i: int| 0 <= i < pushed.len() implies #[trigger] p(pushed[i]) by {
                                    if i < heap0.len() {
                                        assert(queued(g, seen0, min as int, heap0[i]));
                                    }
                                }
                                lemma_multiset_forall(pushed, heap@, p);
                                assert forall|i: int| 0 <= i < heap@.len() implies queued(
                                    g,
                                    seen@,
                                    min as int,
                                    #[trigger] heap@[i],
                                ) by {
                                    assert(p(heap@[i]));
                                }
                                assert forall|c: int|
                                    0 <= c < cells() && #[trigger] seen@[c] && !expl[c] && !stack@.contains(
                                        c as usize,
                                    ) && c != pos implies heap@.contains(level(g, c) as u16) by {
                                    if c == e {
                                        assert(pushed[pushed.len() - 1] == lv);
                                        assert(pushed.contains(lv));
                                        lemma_multiset_contains(pushed, heap@, lv);
                                    } else {
                                        assert(heap0.contains(level(g, c) as u16));
                                        let i = choose|i: int| 0 <= i < heap0.len() && heap0[i] == level(g, c) as u16;
                                        assert(pushed[i] == level(g, c) as u16);
                                        lemma_multiset_contains(pushed, heap@, level(g, c) as u16);
                                    }
                                }
                                assert(search_ok(g, seen@, expl, stack@, heap@, min as int, pos as int));
                            }
                        }
                    }
                },
                None => {},
            }
            proof {
                assert forall|j: int|
                    0 <= j < d + 1 && neighbour(pos as int, j) is Some implies seen@[#[trigger] neighbour(
                        pos as int,
                        j,
                    )->0] by {
                    if j == d {
                        assert(neighbour(pos as int, j) == neighbour(pos as int, d as int));
                    }
                }
            }
            d = d + 1;
        }
        proof {
            let expl0 = expl;
            expl = expl.update(pos as int, true);
            assert forall|c: int, dd: int|
                #![trigger expl[c], neighbour(c, dd)]
                0 <= c < cells() && 0 <= dd < 4 && expl[c] && neighbour(c, dd) is Some implies seen@[neighbour(
                    c,
                    dd,
                )->0] by {
                if c != pos {
                    assert(expl0[c]);
                }
            }
            assert(search_ok(g, seen@, expl, stack@, heap@, min as int, -1));
        }
        if stack.len() == 0 {
            proof {
                assert(stack@ =~= seq![]);
                lemma_heap_nonempty(g, seen@, expl, heap@, min as int);
                lemma_cut(g, seen@, expl, heap@, min as int);
            }
            let lv = heap[0];
            let ghost heap0 = heap@;
            proof {
                assert(queued(g, seen@, min as int, heap0[0]));
            }
            bheap::pop(&mut heap);
            let ghost popped = heap@;
            heap.pop();
            let cell = fs[lv as usize];
            stack.push(cell);
            proof {
                assert(heap@ =~= popped.subrange(0, popped.len() - 1));
                assert(is_heap(heap@, heap@.len() as int)) by {
                    assert forall|i: int| 1 <= i < heap@.len() implies heap@[parent(i)] >= #[trigger] heap@[i] by {
                        assert(popped[parent(i)] >= popped[i]);
                    }
                }
                let rest = heap0.subrange(1, heap0.len() as int);
                let p = |v: u16| queued(g, seen@, lv as int, v);
                assert forall|i: int| 0 <= i < rest.len() implies #[trigger] p(rest[i]) by {
                    assert(rest[i] == heap0[i + 1]);
                    assert(queued(g, seen@, min as int, heap0[i + 1]));
                    lemma_root_max(heap0, heap0.len() as int, i + 1);
                }
                lemma_multiset_forall(rest, heap@, p);
                assert forall|i: int| 0 <= i < heap@.len() implies queued(g, seen@, lv as int, #[trigger] heap@[i]) by {
                    assert(p(heap@[i]));
                }
                assert(stack@[0] == cell);
                assert(g[lv as int] == cell);
                assert forall|i: int| 0 <= i < stack@.len() implies #[trigger] stack@[i] < cells() && seen@[stack@[i] as int]
                    && reachable(g, lv as int, stack@[i] as int) by {
                    assert(i == 0);
                }
                assert forall|c: int| 0 <= c < cells() && #[trigger] expl[c] implies seen@[c] && c != goal() && reachable(
                    g,
                    lv as int,
                    c,
                ) by {
                    lemma_reachable_bytes(g, lv as int, min as int, c);
                }
                assert forall|c: int|
                    0 <= c < cells() && #[trigger] seen@[c] && !expl[c] && !stack@.contains(c as usize) && c != -1
                        implies heap@.contains(level(g, c) as u16) by {
                    assert(!seq![].contains(c as usize));
                    assert(heap0.contains(level(g, c) as u16));
                    let j = choose|j: int| 0 <= j < heap0.len() && heap0[j] == level(g, c) as u16;
                    lemma_level(g, c, 0);
                    assert(queued(g, seen@, min as int, heap0[j]));
                    if j == 0 {
                        assert(stack@[0] == c as usize);
                    }
                    assert(rest[j - 1] == level(g, c) as u16);
                    lemma_multiset_contains(rest, heap@, level(g, c) as u16);
                }
                assert(expl[0]) by {
                    assert(!seq![].contains(0usize));
                }
                assert(search_ok(g, seen@, expl, stack@, heap@, lv as int, -1));
            }
            min = lv;
        }
    }
    proof {
        if min == never() {
            let k = choose|k: int| 0 <= k < g.len() && !open_after(g, k);
            lemma_reachable_bytes(g, k + 1, min as int, goal());
        }
        assert forall|j: int| 0 <= j < min implies #[trigger] open_after(g, j) by {
            lemma_reachable_bytes(g, j + 1, min as int, goal());
        }
        let q = first_cut(g);
        assert(0 <= min < g.len() && !open_after(g, min as int) && forall|j: int|
            0 <= j < min ==> #[trigger] open_after(g, j));
        if q < min {
            assert(open_after(g, q));
        }
        if min < q {
            assert(open_after(g, min as int));
        }
        assert(g[min as int] == fs@[min as int]);
    }
    ascii_text(cell_bytes(fs[min as usize]))
}

/// The answer of part 2.
pub fn run(input: &str) -> (r: String)
    requires
        wf_input(input.spec_bytes()),
        distinct_falls(falls(input.spec_bytes(), 0)),
        exists|k: int| 0 <= k < falls(input.spec_bytes(), 0).len() && !open_after(falls(input.spec_bytes(), 0), k),
    ensures
        r@ == cell_text(falls(input.spec_bytes(), 0)[first_cut(falls(input.spec_bytes(), 0))]),
{
    part2(input)
}

} // verus!
