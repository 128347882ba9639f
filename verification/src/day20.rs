//! Race condition: cheats that cut through the walls of a single race track
//! on a 141 x 141 map.
//!
//! A cell is addressed by its offset in the input, 142 bytes per row with
//! the newline last. The track is followed from the `E` to the `S`; the
//! cheats counted are the same in either direction.
use vstd::prelude::*;
use vstd::string::StringSliceAdditionalSpecFns;

verus! {

/// The number of bytes of the map.
pub open spec fn size() -> int {
    20022
}

/// `p` is the first offset holding `c`.
pub open spec fn is_first(s: Seq<u8>, c: u8, p: int) -> bool {
    &&& 0 <= p < s.len()
    &&& s[p] == c
    &&& forall|q: int| 0 <= q < p ==> s[q] != c
}

/// The first offset holding `c`.
pub open spec fn first(s: Seq<u8>, c: u8) -> int {
    choose|p: int| is_first(s, c, p)
}

/// The racer can stand on `q`: it is not a wall.
pub open spec fn on_track(s: Seq<u8>, q: int) -> bool {
    s[q] != 35
}

/// The cell after `curr` when coming from `prev`: the last of the right, upper
/// and lower neighbours that is on the track and is not `prev`, else the left one.
pub open spec fn next_cell(s: Seq<u8>, prev: int, curr: int) -> int {
    let r = curr + 1;
    let u = curr - 142;
    let d = curr + 142;
    if on_track(s, d) && d != prev {
        d
    } else if on_track(s, u) && u != prev {
        u
    } else if on_track(s, r) && r != prev {
        r
    } else {
        curr - 1
    }
}

/// The previous and the current cell after `n` moves from the `E`.
pub open spec fn trace(s: Seq<u8>, n: nat) -> (int, int)
    decreases n,
{
    if n == 0 {
        (0, first(s, 69))
    } else {
        let (prev, curr) = trace(s, (n - 1) as nat);
        (curr, next_cell(s, prev, curr))
    }
}

/// The cell after `n` moves.
pub open spec fn pos(s: Seq<u8>, n: nat) -> int {
    trace(s, n).1
}

/// The race from the `E` reaches the `S` after `t` moves, through distinct
/// cells away from the border of the map.
pub open spec fn finishes(s: Seq<u8>, t: nat) -> bool {
    &&& pos(s, t) == first(s, 83)
    &&& forall|a: nat| a < t ==> #[trigger] pos(s, a) != first(s, 83)
    &&& forall|a: nat| a <= t ==> 142 <= #[trigger] pos(s, a) < size() - 142
    &&& forall|a: nat, b: nat| a < b <= t ==> #[trigger] pos(s, a) != #[trigger] pos(s, b)
}

/// The number of moves of the race.
pub open spec fn race_time(s: Seq<u8>) -> nat {
    choose|t: nat| finishes(s, t)
}

/// The map: 141 rows of 142 bytes, made of walls, track, newlines and one
/// `E` and `S`, with a race between them.
pub open spec fn wf_input(s: Seq<u8>) -> bool {
    &&& s.len() == size()
    &&& forall|i: int|
        0 <= i < s.len() ==> (s[i] == 35 || s[i] == 46 || s[i] == 10 || s[i] == 69 || s[i] == 83)
    &&& exists|p: int| is_first(s, 69, p)
    &&& exists|p: int| is_first(s, 83, p)
    &&& exists|t: nat| finishes(s, t)
}

/// Every byte is below `E` (walls, track, newlines) or is an `E` or an `S`,
/// and both letters occur.
pub open spec fn has_letters(s: Seq<u8>) -> bool {
    &&& forall|i: int| 0 <= i < s.len() ==> s[i] < 69 || s[i] == 69 || s[i] == 83
    &&& exists|p: int| 0 <= p < s.len() && s[p] == 69
    &&& exists|p: int| 0 <= p < s.len() && s[p] == 83
}

/// The taxicab distance between two cells.
pub open spec fn dist(p: int, q: int) -> int {
    let dx = p % 142 - q % 142;
    let dy = p / 142 - q / 142;
    (if dx < 0 {
        -dx
    } else {
        dx
    }) + (if dy < 0 {
        -dy
    } else {
        dy
    })
}

/// A cheat from the cell of time `a` to that of time `b`: with `long`, any
/// jump of at most 20 that saves at least 100; else a jump of two in a
/// straight line, more than 100 moves ahead.
pub open spec fn cheat(s: Seq<u8>, a: nat, b: nat, long: bool) -> bool {
    let p = pos(s, a);
    let q = pos(s, b);
    if long {
        dist(p, q) <= 20 && b - a >= 100 + dist(p, q)
    } else {
        b - a > 100 && (p - q == 2 || q - p == 2 || p - q == 284 || q - p == 284)
    }
}

/// The number of cheats ending at time `b` that start before time `a`.
pub open spec fn cheats_to(s: Seq<u8>, b: nat, a: nat, long: bool) -> int
    decreases a,
{
    if a == 0 {
        0
    } else {
        cheats_to(s, b, (a - 1) as nat, long) + if cheat(s, (a - 1) as nat, b, long) {
            1int
        } else {
            0
        }
    }
}

/// The number of cheats ending before time `b`.
pub open spec fn cheats(s: Seq<u8>, b: nat, long: bool) -> int
    decreases b,
{
    if b == 0 {
        0
    } else {
        cheats(s, (b - 1) as nat, long) + cheats_to(s, (b - 1) as nat, (b - 1) as nat, long)
    }
}

proof fn lemma_first(s: Seq<u8>, c: u8, p: int)
    requires
        is_first(s, c, p),
    ensures
        first(s, c) == p,
{
    let q = first(s, c);
    assert(is_first(s, c, q));
    if q < p {
        assert(s[q] != c);
    } else if p < q {
        assert(s[p] != c);
    }
}

/// The cells of the first `k` moves.
spec fn cells_before(s: Seq<u8>, k: nat) -> Set<int> {
    Set::new(|p: int| exists|a: nat| a < k && #[trigger] pos(s, a) == p)
}

/// A race through distinct cells of the map takes fewer moves than there are bytes.
proof fn lemma_race_short(s: Seq<u8>, t: nat)
    requires
        finishes(s, t),
    ensures
        t < size(),
{
    lemma_cells_before(s, t, t + 1);
    vstd::set_lib::lemma_int_range(0, size());
    assert(cells_before(s, t + 1).subset_of(vstd::set_lib::set_int_range(0, size())));
    vstd::set_lib::lemma_len_subset(cells_before(s, t + 1), vstd::set_lib::set_int_range(0, size()));
}

proof fn lemma_cells_before(s: Seq<u8>, t: nat, k: nat)
    requires
        finishes(s, t),
        k <= t + 1,
    ensures
        cells_before(s, k).finite(),
        cells_before(s, k).len() == k,
    decreases k,
{
    if k == 0 {
        assert(cells_before(s, 0) =~= Set::empty());
    } else {
        lemma_cells_before(s, t, (k - 1) as nat);
        let p = pos(s, (k - 1) as nat);
        assert(cells_before(s, k) =~= cells_before(s, (k - 1) as nat).insert(p));
        assert(!cells_before(s, (k - 1) as nat).contains(p));
        vstd::set::axiom_set_insert_len(cells_before(s, (k - 1) as nat), p);
    }
}

/// The offsets of the `E` and of the `S`: the first byte that is either
/// letter, then the first of the other letter after it.
fn find_start_end(s: &[u8]) -> (r: (usize, usize))
    requires
        has_letters(s@),
    ensures
        is_first(s@, 69, r.0 as int),
        is_first(s@, 83, r.1 as int),
        r.0 == first(s@, 69),
        r.1 == first(s@, 83),
{
    let mut i: usize = 0;
    while i < s.len() && s[i] < 69
        invariant
            has_letters(s@),
            i <= s@.len(),
            forall|q: int| 0 <= q < i ==> s@[q] < 69,
        decreases s@.len() - i,
    {
        i = i + 1;
    }
    if i == s.len() {
        proof {
            let p = choose|p: int| 0 <= p < s@.len() && s@[p] == 69;
            assert(s@[p] < 69);
        }
        return (0, 0);
    }
    let p1 = i;
    let b: u8 = 152 - s[p1];
    let mut j: usize = p1 + 1;
    while j < s.len() && s[j] != b
        invariant
            has_letters(s@),
            p1 < j <= s@.len(),
            s@[p1 as int] == 69 || s@[p1 as int] == 83,
            b == 152 - s@[p1 as int],
            forall|q: int| 0 <= q < p1 ==> s@[q] < 69,
            forall|q: int| p1 < q < j ==> s@[q] != b,
        decreases s@.len() - j,
    {
        j = j + 1;
    }
    if j == s.len() {
        proof {
            let p = choose|p: int| 0 <= p < s@.len() && s@[p] == b;
            assert(s@[p] != b);
        }
        return (0, 0);
    }
    let p2 = j;
    proof {
        if b == 83 {
            assert(is_first(s@, 69, p1 as int));
            assert(is_first(s@, 83, p2 as int));
            lemma_first(s@, 69, p1 as int);
            lemma_first(s@, 83, p2 as int);
        } else {
            assert(is_first(s@, 83, p1 as int));
            assert(is_first(s@, 69, p2 as int));
            lemma_first(s@, 83, p1 as int);
            lemma_first(s@, 69, p2 as int);
        }
    }
    if b == 83 {
        (p1, p2)
    } else {
        (p2, p1)
    }
}

/// A race map has its letters.
proof fn lemma_has_letters(s: Seq<u8>)
    requires
        wf_input(s),
    ensures
        has_letters(s),
{
    let p = choose|p: int| is_first(s, 69, p);
    let q = choose|q: int| is_first(s, 83, q);
    assert(0 <= p < s.len() && s[p] == 69);
    assert(0 <= q < s.len() && s[q] == 83);
}

/// The cell after `curr` when coming from `prev`.
fn next(s: &[u8], prev: usize, curr: usize) -> (n: usize)
    requires
        142 <= curr,
        curr + 142 < s@.len(),
    ensures
        n == next_cell(s@, prev as int, curr as int),
{
    let _len: usize = s.len();
    let mut n = curr - 1;
    if s[curr + 1] != 35 && curr + 1 != prev {
        n = curr + 1;
    }
    if s[curr - 142] != 35 && curr - 142 != prev {
        n = curr - 142;
    }
    if s[curr + 142] != 35 && curr + 142 != prev {
        n = curr + 142;
    }
    n
}

/// The cells of the race, in order.
fn race(s: &[u8]) -> (cells: Vec<usize>)
    requires
        wf_input(s@),
    ensures
        cells@.len() == race_time(s@) + 1,
        forall|a: int| 0 <= a < cells@.len() ==> cells@[a] == pos(s@, a as nat),
{
    proof {
        lemma_has_letters(s@);
    }
    let (e, goal) = find_start_end(s);
    let ghost t = race_time(s@);
    proof {
        assert(finishes(s@, t));
    }
    let mut cells: Vec<usize> = Vec::new();
    cells.push(e);
    let mut prev: usize = 0;
    let mut curr = e;
    let ghost mut n: nat = 0;
    while curr != goal
        invariant
            wf_input(s@),
            finishes(s@, t),
            t == race_time(s@),
            goal == first(s@, 83),
            n <= t,
            trace(s@, n) == (prev as int, curr as int),
            cells@.len() == n + 1,
            forall|a: int| 0 <= a < cells@.len() ==> cells@[a] == pos(s@, a as nat),
        decreases t - n,
    {
        proof {
            if n == t {
                assert(pos(s@, t) == first(s@, 83));
            }
            assert(142 <= pos(s@, n) < size() - 142);
        }
        let nx = next(s, prev, curr);
        prev = curr;
        curr = nx;
        proof {
            n = n + 1;
        }
        cells.push(curr);
    }
    proof {
        if n < t {
            assert(pos(s@, n) != first(s@, 83));
        }
    }
    cells
}

/// The taxicab distance between two cells, computed.
fn dist_exec(p: usize, q: usize) -> (d: usize)
    requires
        p < size(),
        q < size(),
    ensures
        d == dist(p as int, q as int),
        d <= 284,
{
    let (px, py, qx, qy) = (p % 142, p / 142, q % 142, q / 142);
    let dx = if px >= qx {
        px - qx
    } else {
        qx - px
    };
    let dy = if py >= qy {
        py - qy
    } else {
        qy - py
    };
    dx + dy
}

/// The number of cheats along the race.
fn count_cheats(s: &[u8], long: bool) -> (r: u64)
    requires
        wf_input(s@),
    ensures
        r == cheats(s@, race_time(s@) + 1, long),
{
    let cells = race(s);
    let ghost t = race_time(s@);
    proof {
        assert(finishes(s@, t));
        lemma_race_short(s@, t);
    }
    let mut total: u64 = 0;
    let mut b: usize = 0;
    while b < cells.len()
        invariant
            wf_input(s@),
            finishes(s@, t),
            cells@.len() == t + 1,
            forall|a: int| 0 <= a < cells@.len() ==> cells@[a] == pos(s@, a as nat),
            b <= cells@.len(),
            t < size(),
            total == cheats(s@, b as nat, long),
            total <= b * b,
        decreases cells@.len() - b,
    {
        let q = cells[b];
        proof {
            assert(142 <= pos(s@, b as nat) < size() - 142);
        }
        let mut here: u64 = 0;
        let mut a: usize = 0;
        while a < b
            invariant
                wf_input(s@),
                finishes(s@, t),
                cells@.len() == t + 1,
                forall|i: int| 0 <= i < cells@.len() ==> cells@[i] == pos(s@, i as nat),
                b < cells@.len(),
                q == pos(s@, b as nat),
                q < size(),
                a <= b,
                here == cheats_to(s@, b as nat, a as nat, long),
                here <= a,
            decreases b - a,
        {
            let p = cells[a];
            proof {
                assert(142 <= pos(s@, a as nat) < size() - 142);
            }
            let hit = if long {
                let d = dist_exec(p, q);
                d <= 20 && b - a >= 100 + d
            } else {
                b - a > 100 && (p == q + 2 || q == p + 2 || p == q + 284 || q == p + 284)
            };
            if hit {
                here = here + 1;
            }
            a = a + 1;
        }
        proof {
            assert(total + here <= (b + 1) * (b + 1)) by (nonlinear_arith)
                requires
                    total <= b * b,
                    here <= b,
            ;
            assert((b + 1) * (b + 1) <= size() * size()) by (nonlinear_arith)
                requires
                    b + 1 <= size(),
            ;
        }
        total = total + here;
        b = b + 1;
    }
    total
}

/// Part 1: the number of two-move cheats through a wall that save at least
/// 100 moves.
pub fn part1(input: &str) -> (r: u64)
    requires
        wf_input(input.spec_bytes()),
    ensures
        r == cheats(input.spec_bytes(), race_time(input.spec_bytes()) + 1, false),
{
    count_cheats(input.as_bytes(), false)
}

/// Part 2: the number of cheats of at most 20 moves that save at least 100.
pub fn part2(input: &str) -> (r: u64)
    requires
        wf_input(input.spec_bytes()),
        race_time(input.spec_bytes()) >= 120,
    ensures
        r == cheats(input.spec_bytes(), race_time(input.spec_bytes()) + 1, true),
{
    count_cheats(input.as_bytes(), true)
}

/// A race is finished at one time only.
proof fn lemma_race_time(s: Seq<u8>, t: nat)
    requires
        finishes(s, t),
    ensures
        race_time(s) == t,
{
    let u = race_time(s);
    assert(finishes(s, u));
    if u < t {
        assert(pos(s, u) != first(s, 83));
    } else if t < u {
        assert(pos(s, t) != first(s, 83));
    }
}

/// The first offset holding `c`, if any.
fn find_first(s: &[u8], c: u8) -> (r: Option<usize>)
    ensures
        r matches Some(p) ==> is_first(s@, c, p as int),
        r is None ==> !exists|p: int| is_first(s@, c, p),
{
    let mut i: usize = 0;
    while i < s.len()
        invariant
            i <= s@.len(),
            forall|q: int| 0 <= q < i ==> s@[q] != c,
        decreases s@.len() - i,
    {
        if s[i] == c {
            return Some(i);
        }
        i = i + 1;
    }
    proof {
        if exists|p: int| is_first(s@, c, p) {
            let p = choose|p: int| is_first(s@, c, p);
            assert(s@[p] != c);
        }
    }
    None
}

/// The number of moves of the race, if the map is one the solutions take:
/// 141 rows of 142 bytes of walls, track, newlines and an `E` and an `S`,
/// with a race from the `E` that reaches the `S` through distinct cells
/// away from the border; `None` for any other map.
pub fn race_length(input: &str) -> (r: Option<u64>)
    ensures
        r is Some <==> wf_input(input.spec_bytes()),
        r matches Some(t) ==> t == race_time(input.spec_bytes()),
{
    let s = input.as_bytes();
    let ghost g = s@;
    if s.len() != 20022 {
        return None;
    }
    let mut i: usize = 0;
    while i < s.len()
        invariant
            g == s@,
            g == input.spec_bytes(),
            i <= s@.len(),
            forall|q: int| 0 <= q < i ==> (s@[q] == 35 || s@[q] == 46 || s@[q] == 10 || s@[q] == 69 || s@[q] == 83),
        decreases s@.len() - i,
    {
        let b = s[i];
        if !(b == 35 || b == 46 || b == 10 || b == 69 || b == 83) {
            assert(!(g[i as int] == 35 || g[i as int] == 46 || g[i as int] == 10 || g[i as int] == 69 || g[i as int]
                == 83));
            return None;
        }
        i = i + 1;
    }
    let e = match find_first(s, 69) {
        Some(e) => e,
        None => {
            return None;
        },
    };
    let goal = match find_first(s, 83) {
        Some(x) => x,
        None => {
            return None;
        },
    };
    proof {
        lemma_first(g, 69, e as int);
        lemma_first(g, 83, goal as int);
    }
    let mut seen: Vec<bool> = vec![false; 20022];
    let mut prev: usize = 0;
    let mut curr: usize = e;
    let mut t: usize = 0;
    while t < 20022
        invariant
            g == s@,
            g == input.spec_bytes(),
            s@.len() == size(),
            goal == first(g, 83),
            forall|q: int| 0 <= q < s@.len() ==> (s@[q] == 35 || s@[q] == 46 || s@[q] == 10 || s@[q] == 69 || s@[q] == 83),
            is_first(g, 69, e as int),
            is_first(g, 83, goal as int),
            t <= size(),
            (prev as int, curr as int) == trace(g, t as nat),
            curr < size(),
            seen@.len() == size(),
            forall|a: nat| a < t ==> 142 <= #[trigger] pos(g, a) < size() - 142 && pos(g, a) != goal,
            forall|a: nat, b: nat| a < b < t ==> #[trigger] pos(g, a) != #[trigger] pos(g, b),
            forall|q: int| 0 <= q < size() ==> (#[trigger] seen@[q] <==> exists|a: nat| a < t && #[trigger] pos(g, a) == q),
        decreases size() - t,
    {
        proof {
            assert(pos(g, t as nat) == curr);
        }
        if curr < 142 || curr >= 20022 - 142 || seen[curr] {
            proof {
                assert forall|u: nat| !finishes(g, u) by {
                    if finishes(g, u) {
                        if u < t {
                            assert(pos(g, u) != goal);
                        } else if seen@[curr as int] {
                            let a = choose|a: nat| a < t && #[trigger] pos(g, a) == curr;
                            assert(pos(g, a) != pos(g, t as nat));
                        } else {
                            assert(142 <= pos(g, t as nat) < size() - 142);
                        }
                    }
                }
            }
            return None;
        }
        if curr == goal {
            proof {
                assert(finishes(g, t as nat)) by {
                    assert forall|a: nat, b: nat| a < b <= t implies #[trigger] pos(g, a) != #[trigger] pos(g, b) by {
                        if b == t {
                            if pos(g, a) == pos(g, b) {
                                assert(seen@[curr as int]);
                            }
                        }
                    }
                }
                lemma_race_time(g, t as nat);
            }
            return Some(t as u64);
        }
        let ghost before = seen@;
        seen.set(curr, true);
        let n = next(s, prev, curr);
        proof {
            assert forall|q: int| 0 <= q < size() implies (#[trigger] seen@[q] <==> exists|a: nat| a < t + 1 && #[trigger] pos(g, a) == q) by {
                if q == curr {
                    assert(pos(g, t as nat) == q);
                } else {
                    assert(before[q] == seen@[q]);
                    if exists|a: nat| a < t + 1 && #[trigger] pos(g, a) == q {
                        let a = choose|a: nat| a < t + 1 && #[trigger] pos(g, a) == q;
                        assert(a < t);
                    }
                }
            }
            assert forall|a: nat, b: nat| a < b < t + 1 implies #[trigger] pos(g, a) != #[trigger] pos(g, b) by {
                if b == t && pos(g, a) == pos(g, b) {
                    assert(before[curr as int]);
                }
            }
            assert(trace(g, (t + 1) as nat) == (curr as int, n as int));
        }
        prev = curr;
        curr = n;
        t = t + 1;
    }
    proof {
        assert forall|u: nat| !finishes(g, u) by {
            if finishes(g, u) {
                lemma_race_short(g, u);
                assert(pos(g, u) != goal);
            }
        }
    }
    None
}

/// The answer of part 2, as a signed number.
pub fn run(input: &str) -> (r: i64)
    requires
        wf_input(input.spec_bytes()),
        race_time(input.spec_bytes()) >= 120,
    ensures
        r == cheats(input.spec_bytes(), race_time(input.spec_bytes()) + 1, true),
{
    proof {
        let g = input.spec_bytes();
        let t = race_time(g);
        assert(finishes(g, t));
        lemma_race_short(g, t);
        lemma_cheats_bound(g, t + 1, true);
        assert((t + 1) * (t + 1) <= size() * size()) by (nonlinear_arith)
            requires
                t + 1 <= size(),
        ;
    }
    part2(input) as i64
}

proof fn lemma_cheats_bound(s: Seq<u8>, b: nat, long: bool)
    ensures
        0 <= cheats(s, b, long) <= b * b,
    decreases b,
{
    if b > 0 {
        lemma_cheats_bound(s, (b - 1) as nat, long);
        lemma_cheats_to_bound(s, (b - 1) as nat, (b - 1) as nat, long);
        assert((b - 1) * (b - 1) + (b - 1) <= b * b) by (nonlinear_arith)
            requires
                b >= 1,
        ;
    }
}

proof fn lemma_cheats_to_bound(s: Seq<u8>, b: nat, a: nat, long: bool)
    ensures
        0 <= cheats_to(s, b, a, long) <= a,
    decreases a,
{
    if a > 0 {
        lemma_cheats_to_bound(s, b, (a - 1) as nat, long);
    }
}

} // verus!
