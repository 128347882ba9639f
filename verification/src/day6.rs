//! Guard gallivant: the guard's walk on a 130 x 130 map, the cells it
//! covers, and the cells where one more obstruction traps it in a loop.
//!
//! A cell is addressed by its offset in the input: 131 bytes per row, the
//! last of them the newline. A state of the guard is its cell and its
//! heading: 0 up, 1 right, 2 down, 3 left.
use vstd::prelude::*;
use vstd::string::StringSliceAdditionalSpecFns;
use vstd::set_lib::set_int_range;

verus! {

/// The number of bytes in the map, newlines included.
pub open spec fn cells() -> int {
    17030
}

/// An obstruction position off the map: no extra obstruction.
pub open spec fn free() -> int {
    cells()
}

/// `p` is the first `^` of the map: the guard's starting cell.
pub open spec fn is_start(s: Seq<u8>, p: int) -> bool {
    &&& 0 <= p < cells()
    &&& s[p] == 94
    &&& forall|q: int| 0 <= q < p ==> s[q] != 94
}

/// The guard's starting cell.
pub open spec fn start(s: Seq<u8>) -> int {
    choose|p: int| is_start(s, p)
}

/// The cell in front of `p` when heading `d`, if it is on the map.
pub open spec fn ahead(p: int, d: int) -> Option<int> {
    if d == 0 {
        if p >= 131 {
            Some(p - 131)
        } else {
            None
        }
    } else if d == 1 {
        if p % 131 < 129 {
            Some(p + 1)
        } else {
            None
        }
    } else if d == 2 {
        if p + 131 < cells() {
            Some(p + 131)
        } else {
            None
        }
    } else {
        if p % 131 > 0 {
            Some(p - 1)
        } else {
            None
        }
    }
}

/// Cell `q` holds an obstruction: a `#`, or the extra one at `obs`.
pub open spec fn blocked(s: Seq<u8>, obs: int, q: int) -> bool {
    q == obs || s[q] == 35
}

/// One move of the guard: turn right in front of an obstruction, step
/// forward otherwise; `None` once it has left the map.
pub open spec fn step(s: Seq<u8>, obs: int, st: Option<(int, int)>) -> Option<(int, int)> {
    match st {
        None => None,
        Some((p, d)) => match ahead(p, d) {
            None => None,
            Some(q) => if blocked(s, obs, q) {
                Some((p, (d + 1) % 4))
            } else {
                Some((q, d))
            },
        },
    }
}

/// The guard's state after `n` moves, starting at the `^` heading up.
pub open spec fn walk(s: Seq<u8>, obs: int, n: nat) -> Option<(int, int)>
    decreases n,
{
    if n == 0 {
        Some((start(s), 0))
    } else {
        step(s, obs, walk(s, obs, (n - 1) as nat))
    }
}

/// The guard stands on `p` after `n` moves.
pub open spec fn at(s: Seq<u8>, obs: int, n: nat, p: int) -> bool {
    walk(s, obs, n) matches Some((q, _)) && q == p
}

/// The guard leaves the map at some point.
pub open spec fn exits(s: Seq<u8>, obs: int) -> bool {
    exists|n: nat| #[trigger] walk(s, obs, n) is None
}

/// The guard never leaves the map.
pub open spec fn loops(s: Seq<u8>, obs: int) -> bool {
    forall|n: nat| #[trigger] walk(s, obs, n) is Some
}

/// On the plain map the guard never leaves through the left edge.
pub open spec fn no_left_exit(s: Seq<u8>) -> bool {
    forall|n: nat|
        #[trigger] walk(s, free(), n) matches Some((p, d)) ==> !(d == 3 && p % 131 == 0)
}

/// On the plain map there is an obstruction straight above the start.
pub open spec fn rock_above(s: Seq<u8>) -> bool {
    exists|k: int| 1 <= k <= start(s) / 131 && #[trigger] s[start(s) - 131 * k] == 35
}

/// The cells the guard covers on the plain map.
pub open spec fn visited(s: Seq<u8>) -> Set<int> {
    Set::new(|p: int| exists|n: nat| #[trigger] at(s, free(), n, p))
}

/// The cells covered during the first `k` states.
pub open spec fn visited_before(s: Seq<u8>, obs: int, k: nat) -> Set<int> {
    Set::new(|p: int| exists|n: nat| n < k && #[trigger] at(s, obs, n, p))
}

/// The cells the guard moves onto on the plain map, in moves `1..k`.
pub open spec fn moved_onto(s: Seq<u8>, k: nat) -> Set<int> {
    Set::new(|p: int| exists|n: nat| 1 <= n < k && #[trigger] at(s, free(), n, p))
}

/// The guard still heads up after its first `n` moves.
pub open spec fn heads_up(s: Seq<u8>, n: nat) -> bool {
    forall|m: nat| m <= n ==> ((#[trigger] walk(s, free(), m)) matches Some((_, d)) && d == 0)
}

/// The guard moves onto cell `p` before it first turns.
pub open spec fn first_leg(s: Seq<u8>, p: int) -> bool {
    exists|n: nat| 1 <= n && #[trigger] at(s, free(), n, p) && heads_up(s, n)
}

/// The cell marked as covered before the walk starts: the mark meant for
/// the start is set at word and bit both given by the start's offset mod
/// 64, which is the mark of this cell; the start itself stays unmarked.
pub open spec fn premarked(s: Seq<u8>) -> int {
    65 * (start(s) % 64)
}

/// The cells where one more obstruction traps the guard in a loop, among
/// those the guard moves onto on the plain map (the start only if it comes
/// back to it), except the premarked cell unless it lies on the first leg
/// up, whose cells are tried without looking at the marks.
pub open spec fn trap_cells(s: Seq<u8>) -> Set<int> {
    Set::new(
        |p: int|
            (exists|n: nat| 1 <= n && #[trigger] at(s, free(), n, p)) && (p != premarked(s) || first_leg(s, p))
                && loops(s, p),
    )
}

/// The map is 130 rows of 131 bytes and holds a `^`.
pub open spec fn wf_input(s: Seq<u8>) -> bool {
    &&& s.len() == cells()
    &&& exists|p: int| is_start(s, p)
}

/// Facts on the start.
pub proof fn lemma_start(s: Seq<u8>, p: int)
    requires
        is_start(s, p),
    ensures
        start(s) == p,
{
    let q = start(s);
    assert(is_start(s, q));
    if q < p {
        assert(s[q] != 94);
    } else if p < q {
        assert(s[p] != 94);
    }
}

/// Every state of a walk lies on the map with a valid heading.
pub proof fn lemma_walk_range(s: Seq<u8>, obs: int, n: nat)
    requires
        0 <= start(s) < cells(),
    ensures
        walk(s, obs, n) matches Some((p, d)) ==> 0 <= p < cells() && 0 <= d < 4,
    decreases n,
{
    if n > 0 {
        lemma_walk_range(s, obs, (n - 1) as nat);
    }
}

/// Once off the map, the guard stays off.
pub proof fn lemma_gone(s: Seq<u8>, obs: int, m: nat, n: nat)
    requires
        m <= n,
        walk(s, obs, m) is None,
    ensures
        walk(s, obs, n) is None,
    decreases n - m,
{
    if m < n {
        lemma_gone(s, obs, m, (n - 1) as nat);
    }
}

/// Equal states lead to equal states.
proof fn lemma_shift(s: Seq<u8>, obs: int, i: nat, j: nat, m: nat)
    requires
        walk(s, obs, i) == walk(s, obs, j),
    ensures
        walk(s, obs, i + m) == walk(s, obs, j + m),
    decreases m,
{
    if m > 0 {
        lemma_shift(s, obs, i, j, (m - 1) as nat);
        assert(walk(s, obs, i + m) == step(s, obs, walk(s, obs, (i + m - 1) as nat)));
        assert(walk(s, obs, j + m) == step(s, obs, walk(s, obs, (j + m - 1) as nat)));
    }
}

/// A state met twice on the map traps the guard for ever.
pub proof fn lemma_repeat_loops(s: Seq<u8>, obs: int, i: nat, j: nat)
    requires
        i < j,
        walk(s, obs, i) == walk(s, obs, j),
        walk(s, obs, j) is Some,
    ensures
        loops(s, obs),
{
    assert forall|n: nat| #[trigger] walk(s, obs, n) is Some by {
        lemma_repeat_at(s, obs, i, j, n);
    }
}

proof fn lemma_repeat_at(s: Seq<u8>, obs: int, i: nat, j: nat, n: nat)
    requires
        i < j,
        walk(s, obs, i) == walk(s, obs, j),
        walk(s, obs, j) is Some,
    ensures
        walk(s, obs, n) is Some,
    decreases n,
{
    if n <= j {
        if walk(s, obs, n) is None {
            lemma_gone(s, obs, n, j);
        }
    } else {
        let m = (n - j) as nat;
        lemma_shift(s, obs, i, j, m);
        lemma_repeat_at(s, obs, i, j, (i + m) as nat);
    }
}

/// Leaving the map and looping exclude each other.
pub proof fn lemma_exits_not_loops(s: Seq<u8>, obs: int)
    ensures
        exits(s, obs) <==> !loops(s, obs),
{
}

/// The cells covered during the first `k + 1` states.
proof fn lemma_visited_next(s: Seq<u8>, obs: int, k: nat, p: int, d: int)
    requires
        walk(s, obs, k) == Some((p, d)),
    ensures
        visited_before(s, obs, k + 1) == visited_before(s, obs, k).insert(p),
{
    assert(at(s, obs, k, p));
    assert forall|q: int| #[trigger] visited_before(s, obs, k + 1).contains(q) implies visited_before(
        s,
        obs,
        k,
    ).insert(p).contains(q) by {
        let n = choose|n: nat| n < k + 1 && #[trigger] at(s, obs, n, q);
        if n < k {
            assert(visited_before(s, obs, k).contains(q));
        }
    }
    assert(visited_before(s, obs, k + 1) =~= visited_before(s, obs, k).insert(p));
}

/// The covered cells all lie in the map, so there are finitely many.
proof fn lemma_visited_finite(s: Seq<u8>, obs: int, k: nat)
    requires
        0 <= start(s) < cells(),
    ensures
        visited_before(s, obs, k).finite(),
        visited_before(s, obs, k).subset_of(set_int_range(0, cells())),
        visited_before(s, obs, k).len() <= cells(),
{
    assert forall|q: int| #[trigger] visited_before(s, obs, k).contains(q) implies set_int_range(
        0,
        cells(),
    ).contains(q) by {
        let n = choose|n: nat| n < k && #[trigger] at(s, obs, n, q);
        lemma_walk_range(s, obs, n);
    }
    vstd::set_lib::lemma_int_range(0, cells());
    vstd::set_lib::lemma_len_subset(visited_before(s, obs, k), set_int_range(0, cells()));
}

/// After the guard has left, the covered cells are all of them.
proof fn lemma_visited_all(s: Seq<u8>, k: nat)
    requires
        walk(s, free(), k) is None,
    ensures
        visited_before(s, free(), k) == visited(s),
{
    assert forall|q: int| #[trigger] visited(s).contains(q) implies visited_before(s, free(), k).contains(
        q,
    ) by {
        let n = choose|n: nat| #[trigger] at(s, free(), n, q);
        if n >= k {
            lemma_gone(s, free(), k, n);
        }
    }
    assert(visited_before(s, free(), k) =~= visited(s));
}

/// The next state, computed.
fn step_exec(s: &[u8], obs: usize, p: usize, d: u8) -> (r: Option<(usize, u8)>)
    requires
        s@.len() == cells(),
        p < cells(),
        d < 4,
    ensures
        step(s@, obs as int, Some((p as int, d as int))) == (match r {
            Some((q, e)) => Some((q as int, e as int)),
            None => None::<(int, int)>,
        }),
        r matches Some((q, e)) ==> q < cells() && e < 4,
{
    let q: usize = if d == 0 {
        if p >= 131 {
            p - 131
        } else {
            return None;
        }
    } else if d == 1 {
        if p % 131 < 129 {
            p + 1
        } else {
            return None;
        }
    } else if d == 2 {
        if p + 131 < 131 * 130 {
            p + 131
        } else {
            return None;
        }
    } else {
        if p % 131 > 0 {
            p - 1
        } else {
            return None;
        }
    };
    assert(ahead(p as int, d as int) == Some(q as int));
    if q == obs || s[q] == 35 {
        Some((p, (d + 1) % 4))
    } else {
        Some((q, d))
    }
}

/// The offset of the first `^`.
fn find_start(s: &[u8]) -> (p: usize)
    requires
        wf_input(s@),
    ensures
        is_start(s@, p as int),
        p == start(s@),
{
    let mut i: usize = 0;
    while i < s.len()
        invariant
            wf_input(s@),
            i <= s@.len(),
            forall|q: int| 0 <= q < i ==> s@[q] != 94,
        decreases s@.len() - i,
    {
        if s[i] == 94 {
            proof {
                lemma_start(s@, i as int);
            }
            return i;
        }
        i = i + 1;
    }
    proof {
        let p = choose|p: int| is_start(s@, p);
        assert(s@[p] != 94);
    }
    0
}

/// Part 1: the number of cells the guard covers before leaving the map.
pub fn part1(input: &str) -> (r: u32)
    requires
        wf_input(input.spec_bytes()),
        exits(input.spec_bytes(), free()),
        no_left_exit(input.spec_bytes()),
    ensures
        r == visited(input.spec_bytes()).len(),
{
    let s = input.as_bytes();
    let ghost g = s@;
    let st = find_start(s);
    let mut seen: Vec<bool> = vec![false; 131 * 130];
    let mut p = st;
    let mut d: u8 = 0;
    let ghost mut k: nat = 0;
    let ghost stop: nat = choose|n: nat| walk(g, free(), n) is None;
    seen.set(p, true);
    let mut count: u32 = 1;
    proof {
        lemma_visited_next(g, free(), 0, p as int, 0);
        lemma_visited_finite(g, free(), 0);
        assert(visited_before(g, free(), 0) =~= Set::empty());
        if k >= stop {
            lemma_gone(g, free(), stop, k);
        }
    }
    loop
        invariant
            g == s@,
            g == input.spec_bytes(),
            g.len() == cells(),
            st == start(g),
            0 <= st < cells(),
            p < cells(),
            d < 4,
            walk(g, free(), k) == Some((p as int, d as int)),
            walk(g, free(), stop) is None,
            k < stop,
            seen@.len() == cells(),
            forall|q: int| 0 <= q < cells() ==> (seen@[q] <==> visited_before(g, free(), k + 1).contains(q)),
            count == visited_before(g, free(), k + 1).len(),
        decreases stop - k,
    {
        match step_exec(s, 131 * 130, p, d) {
            None => {
                proof {
                    assert(walk(g, free(), k + 1) == step(g, free(), walk(g, free(), k)));
                    lemma_visited_all(g, (k + 1) as nat);
                }
                return count;
            },
            Some((q, e)) => {
                proof {
                    assert(walk(g, free(), k + 1) == step(g, free(), walk(g, free(), k)));
                    lemma_visited_next(g, free(), k + 1, q as int, e as int);
                    lemma_visited_finite(g, free(), k + 1);
                    lemma_visited_finite(g, free(), k + 2);
                    vstd::set::axiom_set_insert_len(visited_before(g, free(), k + 1), q as int);
                    if k + 1 >= stop {
                        lemma_gone(g, free(), stop, k + 1);
                    }
                }
                if !seen[q] {
                    seen.set(q, true);
                    count = count + 1;
                }
                p = q;
                d = e;
                proof {
                    k = k + 1;
                }
            },
        }
    }
}

/// State `x` (cell times four plus heading) is the state after `i` moves.
spec fn code_at(s: Seq<u8>, obs: int, i: nat, x: int) -> bool {
    walk(s, obs, i) matches Some((p, d)) && 4 * p + d == x
}

/// The states not marked in `v`.
spec fn unmarked(v: Seq<bool>) -> Set<int> {
    Set::new(|x: int| 0 <= x < v.len() && !v[x])
}

proof fn lemma_unmarked(v: Seq<bool>, x: int)
    requires
        0 <= x < v.len(),
        !v[x],
    ensures
        unmarked(v).finite(),
        unmarked(v.update(x, true)) == unmarked(v).remove(x),
        unmarked(v.update(x, true)).len() < unmarked(v).len(),
{
    vstd::set_lib::lemma_int_range(0, v.len() as int);
    assert(unmarked(v).subset_of(set_int_range(0, v.len() as int)));
    vstd::set_lib::lemma_len_subset(unmarked(v), set_int_range(0, v.len() as int));
    assert(unmarked(v.update(x, true)) =~= unmarked(v).remove(x));
    vstd::set::axiom_set_remove_len(unmarked(v), x);
}

/// Whether the guard, with one more obstruction at `obs`, never leaves the map.
fn traps(s: &[u8], st: usize, obs: usize) -> (b: bool)
    requires
        s@.len() == cells(),
        st == start(s@),
        st < cells(),
    ensures
        b == loops(s@, obs as int),
{
    let mut marked: Vec<bool> = vec![false; 4 * 17030];
    let mut p = st;
    let mut d: u8 = 0;
    let ghost mut t: nat = 0;
    loop
        invariant
            s@.len() == cells(),
            st == start(s@),
            st < cells(),
            p < cells(),
            d < 4,
            walk(s@, obs as int, t) == Some((p as int, d as int)),
            marked@.len() == 4 * cells(),
            forall|x: int|
                0 <= x < 4 * cells() ==> (marked@[x] <==> exists|i: nat|
                    i < t && #[trigger] code_at(s@, obs as int, i, x)),
        decreases unmarked(marked@).len(),
    {
        let c = 4 * p + d as usize;
        if marked[c] {
            proof {
                let i = choose|i: nat| i < t && #[trigger] code_at(s@, obs as int, i, c as int);
                lemma_walk_range(s@, obs as int, i);
                lemma_repeat_loops(s@, obs as int, i, t);
            }
            return true;
        }
        proof {
            lemma_unmarked(marked@, c as int);
        }
        let ghost before = marked@;
        marked.set(c, true);
        proof {
            assert(code_at(s@, obs as int, t, c as int));
            assert forall|x: int| 0 <= x < 4 * cells() implies (marked@[x] <==> exists|i: nat|
                i < t + 1 && #[trigger] code_at(s@, obs as int, i, x)) by {
                if marked@[x] && x != c {
                    let i = choose|i: nat| i < t && #[trigger] code_at(s@, obs as int, i, x);
                    assert(i < t + 1 && code_at(s@, obs as int, i, x));
                }
                if exists|i: nat| i < t + 1 && #[trigger] code_at(s@, obs as int, i, x) {
                    let i = choose|i: nat| i < t + 1 && #[trigger] code_at(s@, obs as int, i, x);
                    if i < t {
                        assert(before[x]);
                    }
                }
            }
        }
        match step_exec(s, obs, p, d) {
            None => {
                proof {
                    assert(walk(s@, obs as int, t + 1) == step(s@, obs as int, walk(s@, obs as int, t)));
                    assert(walk(s@, obs as int, t + 1) is None);
                }
                return false;
            },
            Some((q, e)) => {
                proof {
                    assert(walk(s@, obs as int, t + 1) == step(s@, obs as int, walk(s@, obs as int, t)));
                }
                p = q;
                d = e;
                proof {
                    t = t + 1;
                }
            },
        }
    }
}

/// The trap cells among those moved onto in moves `1..k`.
spec fn traps_before(s: Seq<u8>, k: nat) -> Set<int> {
    Set::new(|p: int| moved_onto(s, k).contains(p) && (p != premarked(s) || first_leg(s, p)) && loops(s, p))
}

/// While the guard heads up it moves one row up with each move.
proof fn lemma_leg(s: Seq<u8>, n: nat)
    requires
        heads_up(s, n),
    ensures
        walk(s, free(), n) == Some((start(s) - 131 * n, 0int)),
    decreases n,
{
    if n > 0 {
        assert(heads_up(s, (n - 1) as nat));
        lemma_leg(s, (n - 1) as nat);
        assert(walk(s, free(), n) matches Some((_, d)) && d == 0);
    }
}

proof fn lemma_moved_onto_next(s: Seq<u8>, k: nat, q: int)
    requires
        1 <= k,
        at(s, free(), k, q),
    ensures
        moved_onto(s, k + 1) == moved_onto(s, k).insert(q),
{
    assert forall|p: int| #[trigger] moved_onto(s, k + 1).contains(p) implies moved_onto(s, k).insert(p).contains(p)
        && (p == q || moved_onto(s, k).contains(p)) by {
        let n = choose|n: nat| 1 <= n < k + 1 && #[trigger] at(s, free(), n, p);
        if n < k {
            assert(moved_onto(s, k).contains(p));
        }
    }
    assert(moved_onto(s, k + 1) =~= moved_onto(s, k).insert(q));
}

proof fn lemma_moved_onto_finite(s: Seq<u8>, k: nat)
    requires
        0 <= start(s) < cells(),
    ensures
        moved_onto(s, k).finite(),
        moved_onto(s, k).len() <= cells(),
{
    lemma_visited_finite(s, free(), k);
    assert(moved_onto(s, k).subset_of(visited_before(s, free(), k)));
    vstd::set_lib::lemma_len_subset(moved_onto(s, k), visited_before(s, free(), k));
}

/// Part 2: the number of cells where one more obstruction traps the guard.
pub fn part2(input: &str) -> (r: u32)
    requires
        wf_input(input.spec_bytes()),
        exits(input.spec_bytes(), free()),
        no_left_exit(input.spec_bytes()),
        rock_above(input.spec_bytes()),
    ensures
        r == trap_cells(input.spec_bytes()).len(),
{
    let s = input.as_bytes();
    let ghost g = s@;
    let st = find_start(s);
    let mut seen: Vec<bool> = vec![false; 131 * 130];
    let mut p = st;
    let mut d: u8 = 0;
    let ghost mut k: nat = 0;
    let ghost stop: nat = choose|n: nat| walk(g, free(), n) is None;
    let pm = 65 * (st % 64);
    seen.set(pm, true);
    let mut leg = true;
    let mut count: u32 = 0;
    proof {
        assert(moved_onto(g, 1) =~= Set::empty());
        assert(traps_before(g, 1) =~= Set::empty());
        if k >= stop {
            lemma_gone(g, free(), stop, k);
        }
        assert(heads_up(g, 0));
    }
    loop
        invariant
            g == s@,
            g == input.spec_bytes(),
            g.len() == cells(),
            st == start(g),
            0 <= st < cells(),
            pm == premarked(g),
            p < cells(),
            d < 4,
            walk(g, free(), k) == Some((p as int, d as int)),
            walk(g, free(), stop) is None,
            k < stop,
            leg == heads_up(g, k),
            seen@.len() == cells(),
            forall|q: int| 0 <= q < cells() ==> (#[trigger] seen@[q] <==> q == pm || moved_onto(g, k + 1).contains(q)),
            count == traps_before(g, k + 1).len(),
        decreases stop - k,
    {
        match step_exec(s, 131 * 130, p, d) {
            None => {
                proof {
                    assert(walk(g, free(), k + 1) == step(g, free(), walk(g, free(), k)));
                    assert forall|q: int| #[trigger] trap_cells(g).contains(q) implies traps_before(g, k + 1).contains(q) by {
                        let n = choose|n: nat| 1 <= n && #[trigger] at(g, free(), n, q);
                        if n >= k + 1 {
                            lemma_gone(g, free(), k + 1, n);
                        }
                        assert(moved_onto(g, k + 1).contains(q));
                    }
                    assert(traps_before(g, k + 1) =~= trap_cells(g));
                }
                return count;
            },
            Some((q, e)) => {
                proof {
                    assert(walk(g, free(), k + 1) == step(g, free(), walk(g, free(), k)));
                    assert(at(g, free(), k + 1, q as int));
                    lemma_moved_onto_next(g, k + 1, q as int);
                    lemma_moved_onto_finite(g, k + 1);
                    lemma_moved_onto_finite(g, k + 2);
                    if k + 1 >= stop {
                        lemma_gone(g, free(), stop, k + 1);
                    }
                }
                let new_leg = leg && e == 0;
                proof {
                    assert(new_leg == heads_up(g, k + 1)) by {
                        if heads_up(g, k + 1) {
                            assert(heads_up(g, k));
                        }
                        if new_leg {
                            assert forall|m: nat| m <= k + 1 implies ((#[trigger] walk(g, free(), m)) matches Some((_, d))
                                && d == 0) by {
                                if m <= k {
                                }
                            }
                        }
                    }
                    if new_leg && moved_onto(g, k + 1).contains(q as int) {
                        let n = choose|n: nat| 1 <= n < k + 1 && #[trigger] at(g, free(), n, q as int);
                        lemma_leg(g, k + 1);
                        assert(heads_up(g, n));
                        lemma_leg(g, n);
                        assert(false);
                    }
                    if !new_leg && first_leg(g, q as int) && !moved_onto(g, k + 1).contains(q as int) {
                        let n = choose|n: nat| 1 <= n && #[trigger] at(g, free(), n, q as int) && heads_up(g, n);
                        if n < k + 1 {
                            assert(moved_onto(g, k + 1).contains(q as int));
                        } else {
                            assert(walk(g, free(), k + 1) matches Some((_, d)) && d == 0);
                        }
                    }
                    if new_leg {
                        assert(first_leg(g, q as int));
                    }
                }
                if !seen[q] || (new_leg && q == pm) {
                    seen.set(q, true);
                    let trapped = traps(s, st, q);
                    proof {
                        assert(!moved_onto(g, k + 1).contains(q as int));
                        assert(traps_before(g, k + 1).subset_of(moved_onto(g, k + 1)));
                        vstd::set_lib::lemma_len_subset(traps_before(g, k + 1), moved_onto(g, k + 1));
                        if trapped {
                            assert(traps_before(g, k + 2) =~= traps_before(g, k + 1).insert(q as int));
                            vstd::set::axiom_set_insert_len(traps_before(g, k + 1), q as int);
                        } else {
                            assert(traps_before(g, k + 2) =~= traps_before(g, k + 1));
                        }
                    }
                    if trapped {
                        count = count + 1;
                    }
                } else {
                    proof {
                        assert(traps_before(g, k + 2) =~= traps_before(g, k + 1));
                    }
                }
                proof {
                    assert forall|x: int| 0 <= x < cells() implies (#[trigger] seen@[x] <==> x == pm || moved_onto(
                        g,
                        k + 2,
                    ).contains(x)) by {}
                }
                p = q;
                d = e;
                leg = new_leg;
                proof {
                    k = k + 1;
                }
            },
        }
    }
}

/// The answer of part 2, as a signed number.
pub fn run(input: &str) -> (r: i64)
    requires
        wf_input(input.spec_bytes()),
        exits(input.spec_bytes(), free()),
        no_left_exit(input.spec_bytes()),
        rock_above(input.spec_bytes()),
    ensures
        r == trap_cells(input.spec_bytes()).len(),
{
    part2(input) as i64
}

} // verus!
