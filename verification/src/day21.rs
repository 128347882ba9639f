//! Keypad conundrum: the fewest presses on a directional keypad that type
//! each door code through a chain of robot arms.
//!
//! Keys are numbered by their place on a grid four wide. The directional
//! pad has `^` at 1, `A` at 2, `<` at 4, `v` at 5 and `>` at 6, with its gap
//! at 0; the numeric pad has `7 8 9` at 0 to 2, `4 5 6` at 4 to 6, `1 2 3`
//! at 8 to 10, and `0` and `A` at 13 and 14, with its gap at 12. An arm
//! moves one key per move and presses the key it is on at `A`; each arm is
//! driven by a directional pad, whose own arm starts on `A`.
use vstd::prelude::*;
use vstd::set_lib::set_int_range;
use vstd::string::StringSliceAdditionalSpecFns;

verus! {

/// A move key of the directional pad: `^`, `<`, `v` or `>`.
pub open spec fn is_move(a: int) -> bool {
    a == 1 || a == 4 || a == 5 || a == 6
}

/// The change of place that move `a` makes.
pub open spec fn delta(a: int) -> int {
    if a == 1 {
        -4
    } else if a == 4 {
        -1
    } else if a == 5 {
        4
    } else {
        1
    }
}

/// `p` is a key of the numeric pad (`num`) or of the directional pad.
pub open spec fn is_key(num: bool, p: int) -> bool {
    if num {
        0 <= p <= 15 && p != 12 && p % 4 != 3
    } else {
        0 < p <= 6 && p % 4 != 3
    }
}

/// The key that move `a` leads to from key `p`, if the arm stays on the pad.
pub open spec fn step(num: bool, p: int, a: int) -> Option<int> {
    if is_key(num, p + delta(a)) {
        Some(p + delta(a))
    } else {
        None
    }
}

/// The key the arm is on and the last move key after the moves `acts`,
/// from key `p` with last move key `q`; none if a move is not a move key or
/// leaves the pad.
pub open spec fn trace(num: bool, p: int, q: int, acts: Seq<int>) -> Option<(int, int)>
    decreases acts.len(),
{
    if acts.len() == 0 {
        Some((p, q))
    } else if is_move(acts[0]) && step(num, p, acts[0]) is Some {
        trace(num, step(num, p, acts[0])->0, acts[0], acts.drop_first())
    } else {
        None
    }
}

/// The presses that the moves `acts` cost one level down, where pressing
/// key `a` right after key `q` costs `dist[7 * q + a]`.
pub open spec fn moves_cost(num: bool, dist: Seq<int>, p: int, q: int, acts: Seq<int>) -> int
    decreases acts.len(),
{
    if acts.len() == 0 {
        0
    } else {
        dist[7 * q + acts[0]] + moves_cost(num, dist, step(num, p, acts[0])->0, acts[0], acts.drop_first())
    }
}

/// The presses that typing key `end` costs by the moves `acts` and then `A`,
/// from key `p` with last move key `q`; none if the moves leave the pad or
/// do not end on `end`.
pub open spec fn walk(num: bool, dist: Seq<int>, p: int, q: int, acts: Seq<int>, end: int) -> Option<int> {
    match trace(num, p, q, acts) {
        Some((x, y)) => if x == end {
            Some(moves_cost(num, dist, p, q, acts) + dist[7 * y + 2])
        } else {
            None
        },
        None => None,
    }
}

/// `c` is the fewest presses one level down that make the arm, starting on
/// key `s` with the arm below on `A`, press key `e`.
pub open spec fn fewest(num: bool, dist: Seq<int>, s: int, e: int, c: int) -> bool {
    &&& exists|acts: Seq<int>| #[trigger] walk(num, dist, s, 2, acts, e) == Some(c)
    &&& forall|acts: Seq<int>| #[trigger] walk(num, dist, s, 2, acts, e) is Some ==> c <= walk(
        num,
        dist,
        s,
        2,
        acts,
        e,
    )->0
}

/// `dist` holds 49 costs between 0 and `b`.
pub open spec fn costs_within(dist: Seq<int>, b: int) -> bool {
    &&& dist.len() == 49
    &&& forall|i: int| 0 <= i < 49 ==> 0 <= #[trigger] dist[i] <= b
}

/// A trace through more moves goes on from where the first ones end.
proof fn lemma_split(num: bool, dist: Seq<int>, p: int, q: int, u: Seq<int>, v: Seq<int>)
    ensures
        trace(num, p, q, u + v) == (match trace(num, p, q, u) {
            Some((x, y)) => trace(num, x, y, v),
            None => None,
        }),
        trace(num, p, q, u) matches Some((x, y)) ==> moves_cost(num, dist, p, q, u + v) == moves_cost(
            num,
            dist,
            p,
            q,
            u,
        ) + moves_cost(num, dist, x, y, v),
    decreases u.len(),
{
    if u.len() == 0 {
        assert(u + v =~= v);
    } else {
        assert((u + v)[0] == u[0]);
        assert((u + v).drop_first() =~= u.drop_first() + v);
        if is_move(u[0]) && step(num, p, u[0]) is Some {
            lemma_split(num, dist, step(num, p, u[0])->0, u[0], u.drop_first(), v);
        }
    }
}

/// A walk through more moves is the trace of the first ones, then a walk.
proof fn lemma_walk_split(num: bool, dist: Seq<int>, p: int, q: int, u: Seq<int>, v: Seq<int>, end: int)
    ensures
        walk(num, dist, p, q, u + v, end) == (match trace(num, p, q, u) {
            Some((x, y)) => match walk(num, dist, x, y, v, end) {
                Some(c) => Some(moves_cost(num, dist, p, q, u) + c),
                None => None,
            },
            None => None,
        }),
{
    lemma_split(num, dist, p, q, u, v);
}

/// A trace from a place on the grid with a key below 7 ends on such.
proof fn lemma_trace_range(num: bool, p: int, q: int, acts: Seq<int>)
    requires
        0 <= p < 16,
        0 <= q < 7,
        trace(num, p, q, acts) is Some,
    ensures
        trace(num, p, q, acts) matches Some((x, y)) && 0 <= x < 16 && 0 <= y < 7,
    decreases acts.len(),
{
    if acts.len() > 0 {
        lemma_trace_range(num, step(num, p, acts[0])->0, acts[0], acts.drop_first());
    }
}

/// Moves that stay on the pad cost between 0 and `b` each.
proof fn lemma_cost_bound(num: bool, dist: Seq<int>, b: int, p: int, q: int, acts: Seq<int>)
    requires
        costs_within(dist, b),
        0 <= q < 7,
        trace(num, p, q, acts) is Some,
    ensures
        0 <= moves_cost(num, dist, p, q, acts) <= acts.len() * b,
    decreases acts.len(),
{
    if acts.len() > 0 {
        lemma_cost_bound(num, dist, b, step(num, p, acts[0])->0, acts[0], acts.drop_first());
        assert(acts.len() * b == (acts.len() - 1) * b + b) by (nonlinear_arith);
    }
}

/// A walk costs between 0 and `b` for each move and the press.
proof fn lemma_walk_bound(num: bool, dist: Seq<int>, b: int, p: int, q: int, acts: Seq<int>, end: int)
    requires
        costs_within(dist, b),
        0 <= p < 16,
        0 <= q < 7,
        walk(num, dist, p, q, acts, end) is Some,
    ensures
        0 <= walk(num, dist, p, q, acts, end)->0 <= (acts.len() + 1) * b,
{
    lemma_cost_bound(num, dist, b, p, q, acts);
    lemma_trace_range(num, p, q, acts);
    assert((acts.len() + 1) * b == acts.len() * b + b) by (nonlinear_arith);
}

/// The number of the state after the first `i` moves: seven times the key
/// the arm is on, plus the last move key.
pub open spec fn state_at(num: bool, p: int, q: int, acts: Seq<int>, i: int) -> int {
    match trace(num, p, q, acts.take(i)) {
        Some((x, y)) => 7 * x + y,
        None => -1,
    }
}

/// Among more than `n` numbers from 0 to below `n`, two are equal.
proof fn lemma_pigeonhole(s: Seq<int>, n: int)
    requires
        n >= 0,
        s.len() > n,
        forall|i: int| 0 <= i < s.len() ==> 0 <= #[trigger] s[i] < n,
    ensures
        exists|i: int, j: int| 0 <= i < j < s.len() && s[i] == s[j],
{
    if s.no_duplicates() {
        s.unique_seq_to_set();
        vstd::set_lib::lemma_int_range(0, n);
        assert(s.to_set().subset_of(set_int_range(0, n)));
        vstd::set_lib::lemma_len_subset(s.to_set(), set_int_range(0, n));
    }
    let (i, j) = choose|i: int, j: int| 0 <= i < s.len() && 0 <= j < s.len() && i != j && s[i] == s[j];
    if i < j {
        assert(0 <= i < j < s.len() && s[i] == s[j]);
    } else {
        assert(0 <= j < i < s.len() && s[j] == s[i]);
    }
}

/// A prefix of moves that stay on the pad stays on the pad.
proof fn lemma_prefix(num: bool, dist: Seq<int>, p: int, q: int, acts: Seq<int>, i: int)
    requires
        0 <= i <= acts.len(),
        0 <= p < 16,
        0 <= q < 7,
        trace(num, p, q, acts) is Some,
    ensures
        trace(num, p, q, acts.take(i)) matches Some((x, y)) && 0 <= x < 16 && 0 <= y < 7 && state_at(
            num,
            p,
            q,
            acts,
            i,
        ) == 7 * x + y,
{
    assert(acts.take(i) + acts.skip(i) =~= acts);
    lemma_split(num, dist, p, q, acts.take(i), acts.skip(i));
    lemma_trace_range(num, p, q, acts.take(i));
}

/// Moves that type a key can be cut to fewer than 112 moves that type it
/// for no more presses: past 112 moves a state comes back, and the moves
/// between cost nothing less than nothing.
proof fn lemma_shorten(num: bool, dist: Seq<int>, b: int, p: int, q: int, acts: Seq<int>, end: int)
    requires
        costs_within(dist, b),
        0 <= p < 16,
        0 <= q < 7,
        walk(num, dist, p, q, acts, end) is Some,
    ensures
        exists|short: Seq<int>|
            short.len() < 112 && #[trigger] walk(num, dist, p, q, short, end) is Some && walk(
                num,
                dist,
                p,
                q,
                short,
                end,
            )->0 <= walk(num, dist, p, q, acts, end)->0,
    decreases acts.len(),
{
    if acts.len() < 112 {
        assert(walk(num, dist, p, q, acts, end) is Some);
    } else {
        let n = acts.len();
        let ids = Seq::new((n + 1) as nat, |i: int| state_at(num, p, q, acts, i));
        assert forall|i: int| 0 <= i < ids.len() implies 0 <= #[trigger] ids[i] < 112 by {
            lemma_prefix(num, dist, p, q, acts, i);
        }
        lemma_pigeonhole(ids, 112);
        let (i, j) = choose|i: int, j: int| 0 <= i < j < ids.len() && ids[i] == ids[j];
        lemma_prefix(num, dist, p, q, acts, i);
        lemma_prefix(num, dist, p, q, acts, j);
        let u = acts.take(i);
        let mid = acts.subrange(i, j);
        let w = acts.skip(j);
        let (x, y) = trace(num, p, q, u)->0;
        assert(ids[i] == 7 * x + y);
        assert(acts.take(j) =~= u + mid);
        assert(acts =~= acts.take(j) + w);
        lemma_split(num, dist, p, q, u, mid);
        lemma_walk_split(num, dist, p, q, acts.take(j), w, end);
        assert(trace(num, p, q, acts.take(j)) == Some((x, y)));
        lemma_cost_bound(num, dist, b, x, y, mid);
        let short = u + w;
        lemma_walk_split(num, dist, p, q, u, w, end);
        lemma_shorten(num, dist, b, p, q, short, end);
    }
}

/// `k` copies of move `a`.
pub open spec fn line(a: int, k: nat) -> Seq<int> {
    Seq::new(k, |i: int| a)
}

/// The row of the gap: the bottom row of the numeric pad, the top row of
/// the directional pad.
pub open spec fn gap_row(num: bool) -> int {
    if num {
        3
    } else {
        0
    }
}

/// Moves from key `s` to key `e` that keep off the gap: along the row first
/// when `e` lies in the row of the gap, else along the column first.
pub open spec fn path(num: bool, s: int, e: int) -> Seq<int> {
    let rs = s / 4;
    let cs = s % 4;
    let re = e / 4;
    let ce = e % 4;
    let vert = if re > rs {
        line(5, (re - rs) as nat)
    } else {
        line(1, (rs - re) as nat)
    };
    let horiz = if ce > cs {
        line(6, (ce - cs) as nat)
    } else {
        line(4, (cs - ce) as nat)
    };
    if re == gap_row(num) {
        horiz + vert
    } else {
        vert + horiz
    }
}

/// Moving `k` times by `a` from `p` over keys only.
proof fn lemma_line(num: bool, p: int, q: int, a: int, k: nat)
    requires
        is_move(a),
        forall|i: int| 1 <= i <= k ==> #[trigger] is_key(num, p + i * delta(a)),
    ensures
        trace(num, p, q, line(a, k)) == (if k == 0 {
            Some((p, q))
        } else {
            Some((p + k * delta(a), a))
        }),
    decreases k,
{
    if k > 0 {
        let d = delta(a);
        assert(is_key(num, p + 1 * d));
        assert(line(a, k)[0] == a);
        assert(line(a, k).drop_first() =~= line(a, (k - 1) as nat));
        assert forall|i: int| 1 <= i <= k - 1 implies #[trigger] is_key(num, (p + d) + i * d) by {
            assert((p + d) + i * d == p + (i + 1) * d) by (nonlinear_arith);
            assert(is_key(num, p + (i + 1) * d));
        }
        lemma_line(num, p + d, a, a, (k - 1) as nat);
        assert((p + d) + (k - 1) * d == p + k * d) by (nonlinear_arith);
    }
}

/// The place in row `r` and column `c` of the grid.
proof fn lemma_cell(num: bool, r: int, c: int)
    requires
        0 <= c <= 2,
        0 <= r <= (if num {
            3int
        } else {
            1int
        }),
        !(r == gap_row(num) && c == 0),
    ensures
        is_key(num, 4 * r + c),
        (4 * r + c) / 4 == r,
        (4 * r + c) % 4 == c,
{
}

/// The moves of `path` type `e` from `s`, in at most five moves on the
/// numeric pad and three on the directional pad.
#[verifier::rlimit(40)]
proof fn lemma_path(num: bool, s: int, e: int)
    requires
        is_key(num, s),
        is_key(num, e),
    ensures
        trace(num, s, 2, path(num, s, e)) matches Some((x, y)) && x == e && 0 <= y < 7,
        path(num, s, e).len() <= (if num {
            5int
        } else {
            3int
        }),
{
    let rs = s / 4;
    let cs = s % 4;
    let re = e / 4;
    let ce = e % 4;
    let va: int = if re > rs {
        5
    } else {
        1
    };
    let vk: nat = if re > rs {
        (re - rs) as nat
    } else {
        (rs - re) as nat
    };
    let ha: int = if ce > cs {
        6
    } else {
        4
    };
    let hk: nat = if ce > cs {
        (ce - cs) as nat
    } else {
        (cs - ce) as nat
    };
    let dv = delta(va);
    let dh = delta(ha);
    assert(s == 4 * rs + cs);
    assert(e == 4 * re + ce);
    if re == gap_row(num) {
        assert forall|i: int| 1 <= i <= hk implies #[trigger] is_key(num, s + i * delta(ha)) by {
            if ce > cs {
                assert(i * dh == i) by (nonlinear_arith)
                    requires
                        dh == 1,
                ;
                lemma_cell(num, rs, cs + i);
            } else {
                assert(i * dh == -i) by (nonlinear_arith)
                    requires
                        dh == -1,
                ;
                lemma_cell(num, rs, cs - i);
            }
        }
        lemma_line(num, s, 2, ha, hk);
        let m = 4 * rs + ce;
        assert(hk * dh == ce - cs) by (nonlinear_arith)
            requires
                (ce > cs && dh == 1 && hk == ce - cs) || (ce <= cs && dh == -1 && hk == cs - ce),
        ;
        let qm: int = if hk == 0 {
            2
        } else {
            ha
        };
        assert(trace(num, s, 2, line(ha, hk)) == Some((m, qm)));
        assert forall|i: int| 1 <= i <= vk implies #[trigger] is_key(num, m + i * delta(va)) by {
            if re > rs {
                assert(i * dv == 4 * i) by (nonlinear_arith)
                    requires
                        dv == 4,
                ;
                lemma_cell(num, rs + i, ce);
            } else {
                assert(i * dv == -4 * i) by (nonlinear_arith)
                    requires
                        dv == -4,
                ;
                lemma_cell(num, rs - i, ce);
            }
        }
        lemma_line(num, m, qm, va, vk);
        assert(vk * dv == 4 * (re - rs)) by (nonlinear_arith)
            requires
                (re > rs && dv == 4 && vk == re - rs) || (re <= rs && dv == -4 && vk == rs - re),
        ;
        lemma_split(num, seq![], s, 2, line(ha, hk), line(va, vk));
    } else {
        assert forall|i: int| 1 <= i <= vk implies #[trigger] is_key(num, s + i * delta(va)) by {
            if re > rs {
                assert(i * dv == 4 * i) by (nonlinear_arith)
                    requires
                        dv == 4,
                ;
                lemma_cell(num, rs + i, cs);
            } else {
                assert(i * dv == -4 * i) by (nonlinear_arith)
                    requires
                        dv == -4,
                ;
                lemma_cell(num, rs - i, cs);
            }
        }
        lemma_line(num, s, 2, va, vk);
        let m = 4 * re + cs;
        assert(vk * dv == 4 * (re - rs)) by (nonlinear_arith)
            requires
                (re > rs && dv == 4 && vk == re - rs) || (re <= rs && dv == -4 && vk == rs - re),
        ;
        let qm: int = if vk == 0 {
            2
        } else {
            va
        };
        assert(trace(num, s, 2, line(va, vk)) == Some((m, qm)));
        assert forall|i: int| 1 <= i <= hk implies #[trigger] is_key(num, m + i * delta(ha)) by {
            if ce > cs {
                assert(i * dh == i) by (nonlinear_arith)
                    requires
                        dh == 1,
                ;
                lemma_cell(num, re, cs + i);
            } else {
                assert(i * dh == -i) by (nonlinear_arith)
                    requires
                        dh == -1,
                ;
                lemma_cell(num, re, cs - i);
            }
        }
        lemma_line(num, m, qm, ha, hk);
        assert(hk * dh == ce - cs) by (nonlinear_arith)
            requires
                (ce > cs && dh == 1 && hk == ce - cs) || (ce <= cs && dh == -1 && hk == cs - ce),
        ;
        lemma_split(num, seq![], s, 2, line(va, vk), line(ha, hk));
    }
}

/// The costs of a table as integers.
pub open spec fn costs(t: Seq<u64>) -> Seq<int> {
    t.map_values(|x: u64| x as int)
}

/// `v` is the fewest presses that type `end` with at most `k` moves from key
/// `p` with last move key `q`, or the largest `u64` if no such moves type it.
pub open spec fn fewest_within(num: bool, dist: Seq<int>, p: int, q: int, end: int, k: nat, v: u64) -> bool {
    &&& v != u64::MAX ==> exists|acts: Seq<int>|
        acts.len() <= k && #[trigger] walk(num, dist, p, q, acts, end) == Some(v as int)
    &&& forall|acts: Seq<int>|
        acts.len() <= k && #[trigger] walk(num, dist, p, q, acts, end) is Some ==> v != u64::MAX && v <= walk(
            num,
            dist,
            p,
            q,
            acts,
            end,
        )->0
}

/// The place of move key `a` among `^`, `<`, `v`, `>`.
pub open spec fn rank(a: int) -> int {
    if a == 1 {
        0
    } else if a == 4 {
        1
    } else if a == 5 {
        2
    } else {
        3
    }
}

/// The move key at place `i` among `^`, `<`, `v`, `>`.
fn move_key(i: usize) -> (a: usize)
    requires
        i < 4,
    ensures
        is_move(a as int),
        rank(a as int) == i,
{
    if i == 0 {
        1
    } else if i == 1 {
        4
    } else if i == 2 {
        5
    } else {
        6
    }
}

/// The key that move `a` leads to from `p`, computed.
fn step_exec(num: bool, p: usize, a: usize) -> (r: Option<usize>)
    requires
        p < 16,
        is_move(a as int),
    ensures
        match r {
            Some(x) => step(num, p as int, a as int) == Some(x as int) && x < 16,
            None => step(num, p as int, a as int) is None,
        },
{
    if (a == 1 && p < 4) || (a == 4 && p < 1) {
        return None;
    }
    let t: usize = if a == 1 {
        p - 4
    } else if a == 4 {
        p - 1
    } else if a == 5 {
        p + 4
    } else {
        p + 1
    };
    let ok = if num {
        t <= 15 && t != 12 && t % 4 != 3
    } else {
        t != 0 && t <= 6 && t % 4 != 3
    };
    if ok {
        Some(t)
    } else {
        None
    }
}

/// For each state `7 * p + q`, the presses that type `end` with no move.
fn no_moves(num: bool, dist: &Vec<u64>, end: usize, Ghost(b): Ghost<int>) -> (g: Vec<u64>)
    requires
        costs_within(costs(dist@), b),
        b < u64::MAX,
    ensures
        g@.len() == 112,
        forall|id: int| 0 <= id < 112 ==> fewest_within(num, costs(dist@), id / 7, id % 7, end as int, 0, #[trigger] g@[id]),
        forall|id: int| 0 <= id < 112 && #[trigger] g@[id] != u64::MAX ==> g@[id] <= b,
{
    let ghost dv = costs(dist@);
    let mut g: Vec<u64> = Vec::new();
    let mut id: usize = 0;
    while id < 112
        invariant
            dv == costs(dist@),
            costs_within(dv, b),
            b < u64::MAX,
            id <= 112,
            g@.len() == id,
            forall|j: int| 0 <= j < id ==> fewest_within(num, dv, j / 7, j % 7, end as int, 0, #[trigger] g@[j]),
            forall|j: int| 0 <= j < id && #[trigger] g@[j] != u64::MAX ==> g@[j] <= b,
        decreases 112 - id,
    {
        let p = id / 7;
        let q = id % 7;
        let v: u64 = if p == end {
            dist[7 * q + 2]
        } else {
            u64::MAX
        };
        proof {
            assert(dv[7 * q + 2] == dist@[7 * q + 2]);
            assert(walk(num, dv, p as int, q as int, seq![], end as int) == if p == end {
                Some(dv[7 * q + 2])
            } else {
                None
            });
            assert forall|acts: Seq<int>|
                acts.len() <= 0 && #[trigger] walk(num, dv, p as int, q as int, acts, end as int) is Some implies v
                != u64::MAX && v <= walk(num, dv, p as int, q as int, acts, end as int)->0 by {
                assert(acts =~= seq![]);
            }
            assert(fewest_within(num, dv, p as int, q as int, end as int, 0, v));
        }
        g.push(v);
        proof {
            assert(g@[id as int] == v);
            assert(id as int / 7 == p && id as int % 7 == q);
        }
        id = id + 1;
    }
    g
}

/// What the moves from key `p` with last move key `q` cost when the first
/// one is `a`: that move, then the walk on from where it leads.
proof fn lemma_walk_first(num: bool, dist: Seq<int>, p: int, q: int, acts: Seq<int>, end: int)
    requires
        acts.len() > 0,
    ensures
        walk(num, dist, p, q, acts, end) == (if is_move(acts[0]) && step(num, p, acts[0]) is Some {
            match walk(num, dist, step(num, p, acts[0])->0, acts[0], acts.drop_first(), end) {
                Some(c) => Some(dist[7 * q + acts[0]] + c),
                None => None,
            }
        } else {
            None
        }),
{
}

/// For each state `7 * p + q`, the presses that type `end` with at most one
/// move more than `g` allows.
fn one_more(
    num: bool,
    dist: &Vec<u64>,
    end: usize,
    g: &Vec<u64>,
    Ghost(k): Ghost<nat>,
    Ghost(b): Ghost<int>,
) -> (h: Vec<u64>)
    requires
        costs_within(costs(dist@), b),
        0 <= b <= 0x4_0000_0000_0000,
        k < 111,
        g@.len() == 112,
        forall|id: int| 0 <= id < 112 ==> fewest_within(num, costs(dist@), id / 7, id % 7, end as int, k, #[trigger] g@[id]),
        forall|id: int| 0 <= id < 112 && #[trigger] g@[id] != u64::MAX ==> g@[id] <= (k + 1) * b,
    ensures
        h@.len() == 112,
        forall|id: int|
            0 <= id < 112 ==> fewest_within(num, costs(dist@), id / 7, id % 7, end as int, k + 1, #[trigger] h@[id]),
        forall|id: int| 0 <= id < 112 && #[trigger] h@[id] != u64::MAX ==> h@[id] <= (k + 2) * b,
{
    let ghost dv = costs(dist@);
    let mut h: Vec<u64> = Vec::new();
    let mut id: usize = 0;
    while id < 112
        invariant
            dv == costs(dist@),
            costs_within(dv, b),
            0 <= b <= 0x4_0000_0000_0000,
            k < 111,
            g@.len() == 112,
            forall|j: int| 0 <= j < 112 ==> fewest_within(num, dv, j / 7, j % 7, end as int, k, #[trigger] g@[j]),
            forall|j: int| 0 <= j < 112 && #[trigger] g@[j] != u64::MAX ==> g@[j] <= (k + 1) * b,
            id <= 112,
            h@.len() == id,
            forall|j: int| 0 <= j < id ==> fewest_within(num, dv, j / 7, j % 7, end as int, k + 1, #[trigger] h@[j]),
            forall|j: int| 0 <= j < id && #[trigger] h@[j] != u64::MAX ==> h@[j] <= (k + 2) * b,
        decreases 112 - id,
    {
        let p = id / 7;
        let q = id % 7;
        let mut v: u64 = if p == end {
            dist[7 * q + 2]
        } else {
            u64::MAX
        };
        proof {
            assert(dv[7 * q + 2] == dist@[7 * q + 2]);
            assert((k + 2) * b >= b) by (nonlinear_arith)
                requires
                    b >= 0,
            ;
            assert(walk(num, dv, p as int, q as int, seq![], end as int) == if p == end {
                Some(dv[7 * q + 2])
            } else {
                None
            });
        }
        let mut i: usize = 0;
        while i < 4
            invariant
                dv == costs(dist@),
                costs_within(dv, b),
                0 <= b <= 0x4_0000_0000_0000,
                k < 111,
                g@.len() == 112,
                forall|j: int| 0 <= j < 112 ==> fewest_within(num, dv, j / 7, j % 7, end as int, k, #[trigger] g@[j]),
                forall|j: int| 0 <= j < 112 && #[trigger] g@[j] != u64::MAX ==> g@[j] <= (k + 1) * b,
                p < 16,
                q < 7,
                i <= 4,
                v != u64::MAX ==> v <= (k + 2) * b,
                v != u64::MAX ==> exists|acts: Seq<int>|
                    acts.len() <= k + 1 && #[trigger] walk(num, dv, p as int, q as int, acts, end as int) == Some(
                        v as int,
                    ),
                forall|acts: Seq<int>|
                    acts.len() <= k + 1 && (acts.len() == 0 || (is_move(acts[0]) && rank(acts[0]) < i))
                        && #[trigger] walk(num, dv, p as int, q as int, acts, end as int) is Some ==> v != u64::MAX
                        && v <= walk(num, dv, p as int, q as int, acts, end as int)->0,
            decreases 4 - i,
        {
            let a = move_key(i);
            let ghost v0 = v;
            match step_exec(num, p, a) {
                Some(r) => {
                    let w = g[7 * r + a];
                    proof {
                        assert((7 * r + a) as int / 7 == r && (7 * r + a) as int % 7 == a);
                        assert(fewest_within(num, dv, r as int, a as int, end as int, k, w));
                    }
                    if w != u64::MAX {
                        proof {
                            assert(dv[7 * q + a] == dist@[7 * q + a]);
                            assert((k + 1) * b + b == (k + 2) * b) by (nonlinear_arith);
                            assert((k + 2) * b <= 112 * 0x4_0000_0000_0000) by (nonlinear_arith)
                                requires
                                    k < 111,
                                    0 <= b <= 0x4_0000_0000_0000,
                            ;
                        }
                        let c = dist[7 * q + a] + w;
                        if c < v {
                            v = c;
                            proof {
                                let rest = choose|acts: Seq<int>|
                                    acts.len() <= k && #[trigger] walk(num, dv, r as int, a as int, acts, end as int)
                                        == Some(w as int);
                                let acts = seq![a as int] + rest;
                                assert(acts[0] == a);
                                assert(acts.drop_first() =~= rest);
                                lemma_walk_first(num, dv, p as int, q as int, acts, end as int);
                                assert(walk(num, dv, p as int, q as int, acts, end as int) == Some(v as int));
                            }
                        }
                    }
                    proof {
                        assert forall|acts: Seq<int>|
                            acts.len() <= k + 1 && (acts.len() == 0 || (is_move(acts[0]) && rank(acts[0]) < i + 1))
                                && #[trigger] walk(num, dv, p as int, q as int, acts, end as int) is Some implies v
                                != u64::MAX && v <= walk(num, dv, p as int, q as int, acts, end as int)->0 by {
                            if acts.len() > 0 && rank(acts[0]) == i {
                                assert(acts[0] == a);
                                lemma_walk_first(num, dv, p as int, q as int, acts, end as int);
                                assert(walk(num, dv, r as int, a as int, acts.drop_first(), end as int) is Some);
                            }
                        }
                    }
                },
                None => {
                    proof {
                        assert forall|acts: Seq<int>|
                            acts.len() <= k + 1 && (acts.len() == 0 || (is_move(acts[0]) && rank(acts[0]) < i + 1))
                                && #[trigger] walk(num, dv, p as int, q as int, acts, end as int) is Some implies v
                                != u64::MAX && v <= walk(num, dv, p as int, q as int, acts, end as int)->0 by {
                            if acts.len() > 0 && rank(acts[0]) == i {
                                assert(acts[0] == a);
                                lemma_walk_first(num, dv, p as int, q as int, acts, end as int);
                            }
                        }
                    }
                },
            }
            i = i + 1;
        }
        proof {
            assert forall|acts: Seq<int>|
                acts.len() <= k + 1 && #[trigger] walk(num, dv, p as int, q as int, acts, end as int) is Some implies v
                != u64::MAX && v <= walk(num, dv, p as int, q as int, acts, end as int)->0 by {
                if acts.len() > 0 {
                    lemma_walk_first(num, dv, p as int, q as int, acts, end as int);
                }
            }
        }
        h.push(v);
        proof {
            assert(h@[id as int] == v);
            assert(id as int / 7 == p && id as int % 7 == q);
        }
        id = id + 1;
    }
    h
}

/// For each state `7 * p + q`, the fewest presses that type `end` with at
/// most 111 moves.
fn presses(num: bool, dist: &Vec<u64>, end: usize, Ghost(b): Ghost<int>) -> (g: Vec<u64>)
    requires
        costs_within(costs(dist@), b),
        0 <= b <= 0x4_0000_0000_0000,
    ensures
        g@.len() == 112,
        forall|id: int| 0 <= id < 112 ==> fewest_within(num, costs(dist@), id / 7, id % 7, end as int, 111, #[trigger] g@[id]),
{
    let mut g = no_moves(num, dist, end, Ghost(b));
    let mut k: usize = 0;
    while k < 111
        invariant
            costs_within(costs(dist@), b),
            0 <= b <= 0x4_0000_0000_0000,
            k <= 111,
            g@.len() == 112,
            forall|id: int|
                0 <= id < 112 ==> fewest_within(num, costs(dist@), id / 7, id % 7, end as int, k as nat, #[trigger] g@[id]),
            forall|id: int| 0 <= id < 112 && #[trigger] g@[id] != u64::MAX ==> g@[id] <= (k + 1) * b,
        decreases 111 - k,
    {
        g = one_more(num, dist, end, &g, Ghost(k as nat), Ghost(b));
        k = k + 1;
    }
    g
}

/// Two fewest counts of presses are the same.
proof fn lemma_fewest_unique(num: bool, dist: Seq<int>, s: int, e: int, c1: int, c2: int)
    requires
        fewest(num, dist, s, e, c1),
        fewest(num, dist, s, e, c2),
    ensures
        c1 == c2,
{
    let a1 = choose|acts: Seq<int>| #[trigger] walk(num, dist, s, 2, acts, e) == Some(c1);
    let a2 = choose|acts: Seq<int>| #[trigger] walk(num, dist, s, 2, acts, e) == Some(c2);
    assert(walk(num, dist, s, 2, a1, e) is Some);
    assert(walk(num, dist, s, 2, a2, e) is Some);
}

/// The width of the grid of pairs: 15 for the numeric pad, 7 for the
/// directional pad.
pub open spec fn width(num: bool) -> int {
    if num {
        15
    } else {
        7
    }
}

/// The moves any key of the pad is typed in, and a press: 6 on the numeric
/// pad, 4 on the directional pad.
pub open spec fn span(num: bool) -> int {
    if num {
        6
    } else {
        4
    }
}

/// The entry of a table of the pad for the pair `s`, `e`.
pub open spec fn slot(t: Seq<u64>, w: int, s: int, e: int) -> u64 {
    t[w * s + e]
}

/// The entry of the pair `s`, `e` in a table of the pad: the fewest presses
/// for keys, at most `span * b`, and 0 for places that are not keys.
pub open spec fn pair_ok(num: bool, dist: Seq<int>, b: int, t: Seq<u64>, s: int, e: int) -> bool {
    if is_key(num, s) && is_key(num, e) {
        fewest(num, dist, s, e, slot(t, width(num), s, e) as int) && slot(t, width(num), s, e) <= span(num) * b
    } else {
        slot(t, width(num), s, e) == 0
    }
}

/// `p` is a key of the pad, computed.
fn key_exec(num: bool, p: usize) -> (r: bool)
    ensures
        r == is_key(num, p as int),
{
    if num {
        p <= 15 && p != 12 && p % 4 != 3
    } else {
        p != 0 && p <= 6 && p % 4 != 3
    }
}

/// The fewest presses from key `s` to key `e` are what the search with
/// at most 111 moves finds.
proof fn lemma_pair(num: bool, dist: Seq<int>, b: int, s: int, e: int, v: u64)
    requires
        costs_within(dist, b),
        0 <= b,
        is_key(num, s),
        is_key(num, e),
        fewest_within(num, dist, s, 2, e, 111, v),
    ensures
        fewest(num, dist, s, e, v as int),
        v <= span(num) * b,
{
    let short = path(num, s, e);
    lemma_path(num, s, e);
    assert(walk(num, dist, s, 2, short, e) is Some);
    lemma_walk_bound(num, dist, b, s, 2, short, e);
    assert((short.len() + 1) * b <= span(num) * b) by (nonlinear_arith)
        requires
            short.len() + 1 <= span(num),
            b >= 0,
    ;
    assert forall|acts: Seq<int>| #[trigger] walk(num, dist, s, 2, acts, e) is Some implies v <= walk(
        num,
        dist,
        s,
        2,
        acts,
        e,
    )->0 by {
        lemma_shorten(num, dist, b, s, 2, acts, e);
        let cut = choose|cut: Seq<int>|
            cut.len() < 112 && #[trigger] walk(num, dist, s, 2, cut, e) is Some && walk(num, dist, s, 2, cut, e)->0
                <= walk(num, dist, s, 2, acts, e)->0;
        assert(walk(num, dist, s, 2, cut, e) is Some);
    }
    let w = choose|acts: Seq<int>| acts.len() <= 111 && #[trigger] walk(num, dist, s, 2, acts, e) == Some(v as int);
    assert(walk(num, dist, s, 2, w, e) == Some(v as int));
}

/// The fewest presses one level down for each pair of keys of the pad, at
/// `width * s + e`.
fn pad_costs(num: bool, dist: &Vec<u64>, Ghost(b): Ghost<int>) -> (t: Vec<u64>)
    requires
        costs_within(costs(dist@), b),
        0 <= b <= 0x4_0000_0000_0000,
    ensures
        t@.len() == width(num) * width(num),
        forall|s: int, e: int|
            0 <= s < width(num) && 0 <= e < width(num) ==> #[trigger] pair_ok(num, costs(dist@), b, t@, s, e),
{
    let w: usize = if num {
        15
    } else {
        7
    };
    let mut t: Vec<u64> = vec![0; w * w];
    let mut e: usize = 0;
    proof {
        assert forall|s2: int, e2: int| 0 <= s2 < w && 0 <= e2 < w implies #[trigger] slot(t@, w as int, s2, e2) == 0 by {
            assert(w * s2 + e2 < w * w) by (nonlinear_arith)
                requires
                    0 <= s2 < w,
                    0 <= e2 < w,
            ;
        }
    }
    while e < w
        invariant
            costs_within(costs(dist@), b),
            0 <= b <= 0x4_0000_0000_0000,
            w == width(num),
            t@.len() == w * w,
            e <= w,
            forall|s2: int, e2: int| 0 <= s2 < w && 0 <= e2 < e ==> #[trigger] pair_ok(num, costs(dist@), b, t@, s2, e2),
            forall|s2: int, e2: int| 0 <= s2 < w && e <= e2 < w ==> #[trigger] slot(t@, w as int, s2, e2) == 0,
        decreases w - e,
    {
        if key_exec(num, e) {
            let g = presses(num, dist, e, Ghost(b));
            let mut s: usize = 0;
            while s < w
                invariant
                    costs_within(costs(dist@), b),
                    0 <= b <= 0x4_0000_0000_0000,
                    w == width(num),
                    t@.len() == w * w,
                    e < w,
                    is_key(num, e as int),
                    g@.len() == 112,
                    forall|id: int|
                        0 <= id < 112 ==> fewest_within(num, costs(dist@), id / 7, id % 7, e as int, 111, #[trigger] g@[id]),
                    s <= w,
                    forall|s2: int, e2: int|
                        0 <= s2 < w && 0 <= e2 < w && (e2 < e || (e2 == e && s2 < s)) ==> #[trigger] pair_ok(
                            num,
                            costs(dist@),
                            b,
                            t@,
                            s2,
                            e2,
                        ),
                    forall|s2: int, e2: int|
                        0 <= s2 < w && 0 <= e2 < w && (e2 > e || (e2 == e && s2 >= s)) ==> #[trigger] slot(
                            t@,
                            w as int,
                            s2,
                            e2,
                        ) == 0,
                decreases w - s,
            {
                let ghost t0 = t@;
                proof {
                    assert(slot(t0, w as int, s as int, e as int) == 0);
                }
                if key_exec(num, s) {
                    let v = g[7 * s + 2];
                    proof {
                        assert((7 * s + 2) as int / 7 == s && (7 * s + 2) as int % 7 == 2);
                        lemma_pair(num, costs(dist@), b, s as int, e as int, v);
                        assert(w * s + e < w * w) by (nonlinear_arith)
                            requires
                                s < w,
                                e < w,
                        ;
                    }
                    t.set(w * s + e, v);
                    proof {
                        assert forall|s2: int, e2: int| 0 <= s2 < w && 0 <= e2 < w && (s2 != s || e2 != e) implies slot(
                            t@,
                            w as int,
                            s2,
                            e2,
                        ) == slot(t0, w as int, s2, e2) by {
                            assert(w * s2 + e2 != w * s + e) by (nonlinear_arith)
                                requires
                                    0 <= s2 < w,
                                    0 <= e2 < w,
                                    s < w,
                                    e < w,
                                    s2 != s || e2 != e,
                            ;
                            assert(w * s2 + e2 < w * w) by (nonlinear_arith)
                                requires
                                    0 <= s2 < w,
                                    0 <= e2 < w,
                            ;
                        }
                        assert(slot(t@, w as int, s as int, e as int) == v);
                        assert forall|s2: int, e2: int|
                            0 <= s2 < w && 0 <= e2 < w && (e2 > e || (e2 == e && s2 >= s + 1)) implies #[trigger] slot(
                            t@,
                            w as int,
                            s2,
                            e2,
                        ) == 0 by {
                            assert(slot(t0, w as int, s2, e2) == 0);
                        }
                        assert forall|s2: int, e2: int|
                            0 <= s2 < w && 0 <= e2 < w && (e2 < e || (e2 == e && s2 < s + 1)) implies #[trigger] pair_ok(
                            num,
                            costs(dist@),
                            b,
                            t@,
                            s2,
                            e2,
                        ) by {
                            if s2 != s || e2 != e {
                                assert(pair_ok(num, costs(dist@), b, t0, s2, e2));
                            }
                        }
                    }
                } else {
                    proof {
                        assert(pair_ok(num, costs(dist@), b, t@, s as int, e as int));
                    }
                }
                s = s + 1;
            }
        } else {
            proof {
                assert forall|s2: int, e2: int| 0 <= s2 < w && 0 <= e2 < e + 1 implies #[trigger] pair_ok(
                    num,
                    costs(dist@),
                    b,
                    t@,
                    s2,
                    e2,
                ) by {
                    if e2 == e {
                        assert(slot(t@, w as int, s2, e2) == 0);
                    }
                }
            }
        }
        e = e + 1;
    }
    t
}

/// Four to the power `n`.
pub open spec fn pow4(n: nat) -> int
    decreases n,
{
    if n == 0 {
        1
    } else {
        4 * pow4((n - 1) as nat)
    }
}

proof fn lemma_pow4(n: nat)
    requires
        n <= 25,
    ensures
        1 <= pow4(n) <= 0x4_0000_0000_0000,
    decreases n,
{
    if n > 0 {
        lemma_pow4((n - 1) as nat);
        if n == 25 {
            assert(pow4(25) == 0x4_0000_0000_0000) by {
                reveal_with_fuel(pow4, 26);
            }
        } else {
            lemma_pow4_grows((n - 1) as nat, 24);
            assert(pow4(24) == 0x1_0000_0000_0000) by {
                reveal_with_fuel(pow4, 25);
            }
        }
    }
}

proof fn lemma_pow4_grows(m: nat, n: nat)
    requires
        m <= n,
    ensures
        pow4(m) <= pow4(n),
    decreases n,
{
    if m < n {
        lemma_pow4_grows(m, (n - 1) as nat);
        lemma_pow4_positive((n - 1) as nat);
    }
}

proof fn lemma_pow4_positive(n: nat)
    ensures
        pow4(n) >= 1,
    decreases n,
{
    if n > 0 {
        lemma_pow4_positive((n - 1) as nat);
    }
}

/// The fewest presses one level down for each pair of directional keys,
/// at `7 * s + e`, with `n` directional pads between: every press costs 1
/// with none; 0 for places that are not keys.
pub open spec fn dpad_costs(n: nat) -> Seq<int>
    decreases n,
{
    if n == 0 {
        Seq::new(49, |i: int| 1)
    } else {
        Seq::new(
            49,
            |i: int|
                if is_key(false, i / 7) && is_key(false, i % 7) {
                    choose|c: int| #[trigger] fewest(false, dpad_costs((n - 1) as nat), i / 7, i % 7, c)
                } else {
                    0
                },
        )
    }
}

/// The table of `dpad_costs(n)`.
fn dpad_table(n: usize) -> (t: Vec<u64>)
    requires
        n <= 25,
    ensures
        costs(t@) == dpad_costs(n as nat),
        costs_within(costs(t@), pow4(n as nat)),
{
    let mut t: Vec<u64> = vec![1; 49];
    proof {
        assert(costs(t@) =~= dpad_costs(0));
    }
    let mut k: usize = 0;
    while k < n
        invariant
            n <= 25,
            k <= n,
            costs(t@) == dpad_costs(k as nat),
            costs_within(costs(t@), pow4(k as nat)),
        decreases n - k,
    {
        proof {
            lemma_pow4(k as nat);
        }
        let next = pad_costs(false, &t, Ghost(pow4(k as nat)));
        proof {
            let d = costs(t@);
            assert forall|i: int| 0 <= i < 49 implies #[trigger] costs(next@)[i] == dpad_costs((k + 1) as nat)[i]
                && 0 <= costs(next@)[i] <= pow4((k + 1) as nat) by {
                let s2 = i / 7;
                let e2 = i % 7;
                assert(pair_ok(false, d, pow4(k as nat), next@, s2, e2));
                assert(7 * s2 + e2 == i);
                if is_key(false, s2) && is_key(false, e2) {
                    let c = choose|c: int| #[trigger] fewest(false, dpad_costs(k as nat), s2, e2, c);
                    assert(fewest(false, d, s2, e2, next@[i] as int));
                    lemma_fewest_unique(false, d, s2, e2, c, next@[i] as int);
                }
            }
            assert(costs(next@) =~= dpad_costs((k + 1) as nat));
        }
        t = next;
        k = k + 1;
    }
    t
}

/// The fewest presses on the outermost directional pad that make the arm
/// on the numeric pad, starting on key `s`, press key `e`, with `n`
/// directional pads between.
pub open spec fn key_cost(n: nat, s: int, e: int) -> int {
    choose|c: int| #[trigger] fewest(true, dpad_costs(n), s, e, c)
}

/// An ASCII digit.
pub open spec fn is_digit(b: u8) -> bool {
    48 <= b <= 57
}

/// The key of digit `d` on the numeric pad.
pub open spec fn digit_key(d: int) -> int {
    if d == 0 {
        13
    } else {
        4 * (2 - (d - 1) / 3) + (d - 1) % 3
    }
}

/// Three digits from `i` on.
pub open spec fn code_at(s: Seq<u8>, i: int) -> bool {
    is_digit(s[i]) && is_digit(s[i + 1]) && is_digit(s[i + 2])
}

/// What the input gives: five lines of a code of three digits and `A`;
/// the digits and the last `A` are read.
pub open spec fn wf_input(s: Seq<u8>) -> bool {
    &&& s.len() >= 24
    &&& code_at(s, 0)
    &&& code_at(s, 5)
    &&& code_at(s, 10)
    &&& code_at(s, 15)
    &&& code_at(s, 20)
    &&& s[23] == 65
}

/// The numeric part of the code at `i`.
pub open spec fn code_value(s: Seq<u8>, i: int) -> int {
    100 * (s[i] - 48) + 10 * (s[i + 1] - 48) + (s[i + 2] - 48)
}

/// The fewest presses that type the code at `i`, from `A` back to `A`.
pub open spec fn code_presses(n: nat, s: Seq<u8>, i: int) -> int {
    let a = digit_key(s[i] - 48);
    let b = digit_key(s[i + 1] - 48);
    let c = digit_key(s[i + 2] - 48);
    key_cost(n, 14, a) + key_cost(n, a, b) + key_cost(n, b, c) + key_cost(n, c, 14)
}

/// The sum of the complexities of the five codes: each code's numeric part
/// times the presses that type it.
pub open spec fn total_complexity(n: nat, s: Seq<u8>) -> int {
    code_value(s, 0) * code_presses(n, s, 0) + code_value(s, 5) * code_presses(n, s, 5) + code_value(s, 10)
        * code_presses(n, s, 10) + code_value(s, 15) * code_presses(n, s, 15) + code_value(s, 20) * code_presses(
        n,
        s,
        20,
    )
}

/// The key of the digit byte `b`, computed.
fn digit_key_exec(b: u8) -> (k: usize)
    requires
        is_digit(b),
    ensures
        k == digit_key(b - 48),
        is_key(true, k as int),
        k < 15,
{
    let d = (b - 48) as usize;
    if d == 0 {
        13
    } else {
        4 * (2 - (d - 1) / 3) + (d - 1) % 3
    }
}

/// The complexity of the code at `i`, with `nt` the table of the numeric
/// pad.
fn code_complexity(s: &[u8], i: usize, nt: &Vec<u64>, Ghost(n): Ghost<nat>) -> (c: u128)
    requires
        i + 2 < s@.len(),
        code_at(s@, i as int),
        n <= 25,
        nt@.len() == 225,
        forall|a: int, e: int|
            is_key(true, a) && is_key(true, e) ==> #[trigger] slot(nt@, 15, a, e) == key_cost(n, a, e) && slot(
                nt@,
                15,
                a,
                e,
            ) <= 6 * pow4(n),
    ensures
        c == code_value(s@, i as int) * code_presses(n, s@, i as int),
        c <= 23976 * pow4(n),
{
    let a = digit_key_exec(s[i]);
    let b = digit_key_exec(s[i + 1]);
    let d = digit_key_exec(s[i + 2]);
    proof {
        lemma_pow4(n);
        assert(slot(nt@, 15, 14, a as int) == key_cost(n, 14, a as int));
        assert(slot(nt@, 15, a as int, b as int) == key_cost(n, a as int, b as int));
        assert(slot(nt@, 15, b as int, d as int) == key_cost(n, b as int, d as int));
        assert(slot(nt@, 15, d as int, 14) == key_cost(n, d as int, 14));
    }
    let presses: u64 = nt[15 * 14 + a] + nt[15 * a + b] + nt[15 * b + d] + nt[15 * d + 14];
    let value: u64 = 100 * (s[i] - 48) as u64 + 10 * (s[i + 1] - 48) as u64 + (s[i + 2] - 48) as u64;
    proof {
        assert(value <= 999);
        assert(presses <= 24 * pow4(n));
        assert(value * presses <= 23976 * pow4(n)) by (nonlinear_arith)
            requires
                value <= 999,
                presses <= 24 * pow4(n),
        ;
    }
    value as u128 * presses as u128
}

/// The sum of the complexities of the codes with `n` directional pads
/// between the outermost one and the numeric pad.
fn complexities(s: &[u8], n: usize) -> (r: u128)
    requires
        wf_input(s@),
        n <= 25,
    ensures
        r == total_complexity(n as nat, s@),
        r <= 119880 * pow4(n as nat),
{
    let dt = dpad_table(n);
    proof {
        lemma_pow4(n as nat);
    }
    let nt = pad_costs(true, &dt, Ghost(pow4(n as nat)));
    proof {
        assert forall|a: int, e: int| is_key(true, a) && is_key(true, e) implies #[trigger] slot(nt@, 15, a, e)
            == key_cost(n as nat, a, e) && slot(nt@, 15, a, e) <= 6 * pow4(n as nat) by {
            assert(pair_ok(true, costs(dt@), pow4(n as nat), nt@, a, e));
            let c = choose|c: int| #[trigger] fewest(true, dpad_costs(n as nat), a, e, c);
            lemma_fewest_unique(true, dpad_costs(n as nat), a, e, c, slot(nt@, 15, a, e) as int);
        }
    }
    let c0 = code_complexity(s, 0, &nt, Ghost(n as nat));
    let c1 = code_complexity(s, 5, &nt, Ghost(n as nat));
    let c2 = code_complexity(s, 10, &nt, Ghost(n as nat));
    let c3 = code_complexity(s, 15, &nt, Ghost(n as nat));
    let c4 = code_complexity(s, 20, &nt, Ghost(n as nat));
    c0 + c1 + c2 + c3 + c4
}

/// Part 1: the sum of the complexities of the codes, typed through two
/// robots' directional pads.
pub fn part1(input: &str) -> (r: u64)
    requires
        wf_input(input.spec_bytes()),
    ensures
        r == total_complexity(2, input.spec_bytes()),
        r < 0x1_0000_0000,
{
    let s = input.as_bytes();
    let r = complexities(s, 2);
    proof {
        assert(pow4(2) == 16) by {
            reveal_with_fuel(pow4, 3);
        }
    }
    r as u64
}

/// Part 2: the sum of the complexities of the codes, typed through 25
/// robots' directional pads.
pub fn part2(input: &str) -> (r: u64)
    requires
        wf_input(input.spec_bytes()),
        total_complexity(25, input.spec_bytes()) <= u64::MAX,
    ensures
        r == total_complexity(25, input.spec_bytes()),
{
    let s = input.as_bytes();
    let r = complexities(s, 25);
    r as u64
}

/// The answer of part 1.
pub fn run(input: &str) -> (r: i64)
    requires
        wf_input(input.spec_bytes()),
    ensures
        r == total_complexity(2, input.spec_bytes()),
{
    part1(input) as i64
}

} // verus!
