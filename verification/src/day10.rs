//! Hoof it: hiking trails climbing from height 0 to height 9 on a 45 x 45 map.
//!
//! A cell is addressed by its offset in the input, 46 bytes per row with the
//! newline last; the neighbours of a cell are the offsets one and 46 away
//! that lie before the final newline.
use vstd::prelude::*;
use vstd::string::StringSliceAdditionalSpecFns;

verus! {

/// The offsets that hold cells: all but the final newline.
pub open spec fn span() -> int {
    45 * 46 - 1
}

/// The `k`-th neighbour of `p` (left, right, up, down), if it lies in the span.
pub open spec fn neighbour(p: int, k: int) -> Option<int> {
    let q = if k == 0 {
        p - 1
    } else if k == 1 {
        p + 1
    } else if k == 2 {
        p - 46
    } else {
        p + 46
    };
    if 0 <= q < span() {
        Some(q)
    } else {
        None
    }
}

/// The `k`-th neighbour of `p` holds the byte `c`.
pub open spec fn neighbour_is(s: Seq<u8>, p: int, k: int, c: int) -> bool {
    neighbour(p, k) matches Some(q) && s[q] == c
}

/// The number of trails from `p`, a cell of height `c` (as a digit byte),
/// down to a `0`, each step to a neighbour one lower.
pub open spec fn trails_down(s: Seq<u8>, p: int, c: int) -> nat
    decreases c - 48,
{
    if c <= 48 {
        1
    } else {
        trails_via(s, p, c, 0) + trails_via(s, p, c, 1) + trails_via(s, p, c, 2) + trails_via(
            s,
            p,
            c,
            3,
        )
    }
}

/// The trails from `p` that go first to its `k`-th neighbour.
pub open spec fn trails_via(s: Seq<u8>, p: int, c: int, k: int) -> nat
    decreases c - 48, 0int,
{
    if c > 48 && neighbour_is(s, p, k, c - 1) {
        trails_down(s, neighbour(p, k)->0, c - 1)
    } else {
        0
    }
}

/// Trails can climb from `p`, a cell of height `c`, to the `9` at `t`.
pub open spec fn reaches(s: Seq<u8>, p: int, c: int, t: int) -> bool
    decreases 57 - c,
{
    if c >= 57 {
        p == t
    } else {
        exists|k: int|
            0 <= k < 4 && #[trigger] neighbour_is(s, p, k, c + 1) && reaches(
                s,
                neighbour(p, k)->0,
                c + 1,
                t,
            )
    }
}

/// The sum over the first `n` offsets holding a `9` of their trail counts.
pub open spec fn rating_sum(s: Seq<u8>, n: int) -> int
    decreases n,
{
    if n <= 0 {
        0
    } else {
        rating_sum(s, n - 1) + if s[n - 1] == 57 {
            trails_down(s, n - 1, 57) as int
        } else {
            0
        }
    }
}

/// The number of `0`s among the first `n` offsets from which `t` is reached.
pub open spec fn heads_reaching(s: Seq<u8>, t: int, n: int) -> int
    decreases n,
{
    if n <= 0 {
        0
    } else {
        heads_reaching(s, t, n - 1) + if s[n - 1] == 48 && reaches(s, n - 1, 48, t) {
            1int
        } else {
            0
        }
    }
}

/// The sum over the first `n` offsets holding a `9` of the number of `0`s
/// from which trails reach it: the sum of the trailhead scores.
pub open spec fn score_sum(s: Seq<u8>, n: int) -> int
    decreases n,
{
    if n <= 0 {
        0
    } else {
        score_sum(s, n - 1) + if s[n - 1] == 57 {
            heads_reaching(s, n - 1, span())
        } else {
            0
        }
    }
}

/// The map is 45 rows of 46 bytes.
pub open spec fn wf_input(s: Seq<u8>) -> bool {
    s.len() == 45 * 46
}

/// The `k`-th neighbour, computed.
fn neighbour_exec(p: usize, k: usize) -> (r: Option<usize>)
    requires
        p < span(),
        k < 4,
    ensures
        neighbour(p as int, k as int) == (match r {
            Some(q) => Some(q as int),
            None => None::<int>,
        }),
{
    if k == 0 {
        if p >= 1 {
            Some(p - 1)
        } else {
            None
        }
    } else if k == 1 {
        if p + 1 < 45 * 46 - 1 {
            Some(p + 1)
        } else {
            None
        }
    } else if k == 2 {
        if p >= 46 {
            Some(p - 46)
        } else {
            None
        }
    } else {
        if p + 46 < 45 * 46 - 1 {
            Some(p + 46)
        } else {
            None
        }
    }
}

/// The trails from `p` that go first to one of its first `k` neighbours.
spec fn trails_upto(s: Seq<u8>, p: int, c: int, k: int) -> nat
    decreases k,
{
    if k <= 0 {
        0
    } else {
        trails_upto(s, p, c, k - 1) + trails_via(s, p, c, k - 1)
    }
}

proof fn lemma_trails_upto(s: Seq<u8>, p: int, c: int)
    requires
        c > 48,
    ensures
        trails_down(s, p, c) == trails_upto(s, p, c, 4),
{
    reveal_with_fuel(trails_upto, 5);
}

/// An upper bound on trail counts: four choices at each of nine steps.
proof fn lemma_trails_bound(s: Seq<u8>, p: int, c: int)
    requires
        48 <= c <= 57,
    ensures
        trails_down(s, p, c) <= pow4(c - 48),
    decreases c - 48,
{
    if c > 48 {
        assert forall|k: int| 0 <= k < 4 implies #[trigger] trails_via(s, p, c, k) <= pow4(c - 49) by {
            if neighbour_is(s, p, k, c - 1) {
                lemma_trails_bound(s, neighbour(p, k)->0, c - 1);
            }
        }
        assert(trails_via(s, p, c, 0) <= pow4(c - 49));
        assert(trails_via(s, p, c, 1) <= pow4(c - 49));
        assert(trails_via(s, p, c, 2) <= pow4(c - 49));
        assert(trails_via(s, p, c, 3) <= pow4(c - 49));
    }
}

/// Four to the power `e`.
spec fn pow4(e: int) -> nat
    decreases e,
{
    if e <= 0 {
        1
    } else {
        4 * pow4(e - 1)
    }
}

/// The number of trails down from every cell, for the cells of height at
/// most `c`; zero elsewhere.
fn trail_table(s: &[u8]) -> (w: Vec<u64>)
    requires
        wf_input(s@),
    ensures
        w@.len() == span(),
        forall|p: int|
            0 <= p < span() && 48 <= s@[p] <= 57 ==> w@[p] == trails_down(s@, p, s@[p] as int),
{
    let mut w: Vec<u64> = vec![0; 45 * 46 - 1];
    let mut c: u8 = 48;
    while c <= 57
        invariant
            wf_input(s@),
            48 <= c <= 58,
            w@.len() == span(),
            forall|p: int|
                0 <= p < span() && 48 <= s@[p] < c ==> w@[p] == trails_down(s@, p, s@[p] as int),
        decreases 58 - c,
    {
        let mut p: usize = 0;
        while p < 45 * 46 - 1
            invariant
                wf_input(s@),
                48 <= c <= 57,
                p <= span(),
                w@.len() == span(),
                forall|q: int|
                    0 <= q < span() && 48 <= s@[q] < c ==> w@[q] == trails_down(s@, q, s@[q] as int),
                forall|q: int| 0 <= q < p && s@[q] == c ==> w@[q] == trails_down(s@, q, c as int),
            decreases span() - p,
        {
            if s[p] == c {
                let mut total: u64 = 0;
                if c == 48 {
                    total = 1;
                } else {
                    let mut k: usize = 0;
                    while k < 4
                        invariant
                            wf_input(s@),
                            49 <= c <= 57,
                            p < span(),
                            k <= 4,
                            w@.len() == span(),
                            forall|q: int|
                                0 <= q < span() && 48 <= s@[q] < c ==> w@[q] == trails_down(
                                    s@,
                                    q,
                                    s@[q] as int,
                                ),
                            total == trails_upto(s@, p as int, c as int, k as int),
                            total <= k * pow4(c - 49),
                        decreases 4 - k,
                    {
                        proof {
                            if neighbour_is(s@, p as int, k as int, c - 1) {
                                lemma_trails_bound(s@, neighbour(p as int, k as int)->0, c - 1);
                            }
                            assert(pow4(c - 49) <= pow4(8)) by {
                                lemma_pow4_mono(c - 49, 8);
                            }
                            assert(pow4(8) == 65536) by {
                                reveal_with_fuel(pow4, 9);
                            }
                        }
                        match neighbour_exec(p, k) {
                            Some(q) => {
                                if s[q] == c - 1 {
                                    proof {
                                        let bound = pow4(c - 49);
                                        assert(w@[q as int] <= bound);
                                        assert(k * bound + bound == (k + 1) * bound) by (nonlinear_arith);
                                        assert((k + 1) * bound <= 4 * 65536) by (nonlinear_arith)
                                            requires
                                                k < 4,
                                                bound <= 65536,
                                        ;
                                    }
                                    total = total + w[q];
                                }
                            },
                            None => {},
                        }
                        proof {
                            assert(k * pow4(c - 49) <= (k + 1) * pow4(c - 49)) by (nonlinear_arith);
                        }
                        k = k + 1;
                    }
                    proof {
                        lemma_trails_upto(s@, p as int, c as int);
                    }
                }
                w.set(p, total);
            }
            p = p + 1;
        }
        c = c + 1;
    }
    w
}

proof fn lemma_pow4_mono(a: int, b: int)
    requires
        0 <= a <= b,
    ensures
        pow4(a) <= pow4(b),
    decreases b - a,
{
    if a < b {
        lemma_pow4_mono(a, b - 1);
    }
}

/// Whether trails climb to the `9` at `t`, from every cell.
fn reach_table(s: &[u8], t: usize) -> (can: Vec<bool>)
    requires
        wf_input(s@),
        t < span(),
        s@[t as int] == 57,
    ensures
        can@.len() == span(),
        forall|p: int|
            0 <= p < span() && 48 <= s@[p] <= 57 ==> can@[p] == reaches(s@, p, s@[p] as int, t as int),
{
    let mut can: Vec<bool> = vec![false; 45 * 46 - 1];
    let mut c: u8 = 57;
    loop
        invariant
            wf_input(s@),
            t < span(),
            s@[t as int] == 57,
            48 <= c <= 57,
            can@.len() == span(),
            forall|p: int|
                0 <= p < span() && c < s@[p] <= 57 ==> can@[p] == reaches(s@, p, s@[p] as int, t as int),
        decreases c,
    {
        let mut p: usize = 0;
        while p < 45 * 46 - 1
            invariant
                wf_input(s@),
                t < span(),
                48 <= c <= 57,
                p <= span(),
                can@.len() == span(),
                forall|q: int|
                    0 <= q < span() && c < s@[q] <= 57 ==> can@[q] == reaches(s@, q, s@[q] as int, t as int),
                forall|q: int| 0 <= q < p && s@[q] == c ==> can@[q] == reaches(s@, q, c as int, t as int),
            decreases span() - p,
        {
            if s[p] == c {
                let mut found = false;
                if c == 57 {
                    found = p == t;
                } else {
                    let mut k: usize = 0;
                    while k < 4
                        invariant
                            wf_input(s@),
                            48 <= c < 57,
                            p < span(),
                            k <= 4,
                            can@.len() == span(),
                            forall|q: int|
                                0 <= q < span() && c < s@[q] <= 57 ==> can@[q] == reaches(
                                    s@,
                                    q,
                                    s@[q] as int,
                                    t as int,
                                ),
                            found <==> exists|j: int|
                                0 <= j < k && #[trigger] neighbour_is(s@, p as int, j, c + 1) && reaches(
                                    s@,
                                    neighbour(p as int, j)->0,
                                    c + 1,
                                    t as int,
                                ),
                        decreases 4 - k,
                    {
                        match neighbour_exec(p, k) {
                            Some(q) => {
                                proof {
                                    if s@[q as int] == c + 1 {
                                        assert(can@[q as int] == reaches(s@, q as int, c + 1, t as int));
                                    }
                                }
                                if s[q] == c + 1 && can[q] {
                                    found = true;
                                    assert(neighbour_is(s@, p as int, k as int, c + 1));
                                }
                            },
                            None => {},
                        }
                        proof {
                            if !found {
                                assert(!(neighbour_is(s@, p as int, k as int, c + 1) && reaches(
                                    s@,
                                    neighbour(p as int, k as int)->0,
                                    c + 1,
                                    t as int,
                                )));
                            }
                        }
                        k = k + 1;
                    }
                }
                can.set(p, found);
            }
            p = p + 1;
        }
        if c == 48 {
            return can;
        }
        c = c - 1;
    }
}

/// Part 1: the sum of the trailhead scores, a trailhead's score being the
/// number of `9`s that trails from it reach.
pub fn part1(input: &str) -> (r: u64)
    requires
        wf_input(input.spec_bytes()),
    ensures
        r == score_sum(input.spec_bytes(), span()),
{
    let s = input.as_bytes();
    let mut tot: u64 = 0;
    let mut t: usize = 0;
    while t < 45 * 46 - 1
        invariant
            wf_input(s@),
            s@ == input.spec_bytes(),
            t <= span(),
            tot == score_sum(s@, t as int),
            tot <= t * span(),
        decreases span() - t,
    {
        if s[t] == 57 {
            let can = reach_table(s, t);
            let mut n: u64 = 0;
            let mut p: usize = 0;
            while p < 45 * 46 - 1
                invariant
                    wf_input(s@),
                    t < span(),
                    p <= span(),
                    can@.len() == span(),
                    forall|q: int|
                        0 <= q < span() && 48 <= s@[q] <= 57 ==> can@[q] == reaches(
                            s@,
                            q,
                            s@[q] as int,
                            t as int,
                        ),
                    n == heads_reaching(s@, t as int, p as int),
                    n <= p,
                decreases span() - p,
            {
                if s[p] == 48 && can[p] {
                    n = n + 1;
                }
                p = p + 1;
            }
            proof {
                assert(tot + n <= (t + 1) * span()) by (nonlinear_arith)
                    requires
                        tot <= t * span(),
                        n <= span(),
                ;
                assert((t + 1) * span() <= 2069 * 2069) by (nonlinear_arith)
                    requires
                        t < 2069,
                        span() == 2069,
                ;
            }
            tot = tot + n;
        } else {
            proof {
                assert(tot <= (t + 1) * span()) by (nonlinear_arith)
                    requires
                        tot <= t * span(),
                ;
            }
        }
        t = t + 1;
    }
    tot
}

/// Part 2: the sum of the trailhead ratings, counted from the `9`s: the
/// number of distinct trails from a `0` to a `9`.
pub fn part2(input: &str) -> (r: u64)
    requires
        wf_input(input.spec_bytes()),
    ensures
        r == rating_sum(input.spec_bytes(), span()),
{
    let s = input.as_bytes();
    let w = trail_table(s);
    let mut tot: u64 = 0;
    let mut p: usize = 0;
    while p < 45 * 46 - 1
        invariant
            wf_input(s@),
            s@ == input.spec_bytes(),
            p <= span(),
            w@.len() == span(),
            forall|q: int|
                0 <= q < span() && 48 <= s@[q] <= 57 ==> w@[q] == trails_down(s@, q, s@[q] as int),
            tot == rating_sum(s@, p as int),
            tot <= p * pow4(9),
        decreases span() - p,
    {
        if s[p] == 57 {
            proof {
                lemma_trails_bound(s@, p as int, 57);
                assert(pow4(9) == 262144) by {
                    reveal_with_fuel(pow4, 10);
                }
                assert(tot + w@[p as int] <= (p + 1) * pow4(9)) by (nonlinear_arith)
                    requires
                        tot <= p * pow4(9),
                        w@[p as int] <= pow4(9),
                ;
            }
            tot = tot + w[p];
        } else {
            proof {
                assert(tot <= (p + 1) * pow4(9)) by (nonlinear_arith)
                    requires
                        tot <= p * pow4(9),
                ;
            }
        }
        p = p + 1;
    }
    tot
}

/// The answer of part 2, as a signed number.
pub fn run(input: &str) -> (r: i64)
    requires
        wf_input(input.spec_bytes()),
    ensures
        r == rating_sum(input.spec_bytes(), span()),
{
    proof {
        lemma_rating_bound(input.spec_bytes(), span());
        assert(pow4(9) == 262144) by {
            reveal_with_fuel(pow4, 10);
        }
    }
    part2(input) as i64
}

proof fn lemma_rating_bound(s: Seq<u8>, n: int)
    requires
        0 <= n,
    ensures
        0 <= rating_sum(s, n) <= n * pow4(9),
    decreases n,
{
    if n > 0 {
        lemma_rating_bound(s, n - 1);
        if s[n - 1] == 57 {
            lemma_trails_bound(s, n - 1, 57);
        }
        assert((n - 1) * pow4(9) + pow4(9) == n * pow4(9)) by (nonlinear_arith);
    }
}

/// Climbing from `p`, a cell of height `c`, one higher at each step, reaches
/// `q` at height `top`.
pub open spec fn climbs(s: Seq<u8>, p: int, c: int, q: int, top: int) -> bool
    decreases top - c,
{
    if c >= top {
        p == q
    } else {
        exists|k: int|
            0 <= k < 4 && #[trigger] neighbour_is(s, p, k, c + 1) && climbs(s, neighbour(p, k)->0, c + 1, q, top)
    }
}

/// The number of `0`s among the first `n` offsets from which climbing
/// reaches `q` at height `top`.
pub open spec fn heads_to(s: Seq<u8>, q: int, top: int, n: int) -> int
    decreases n,
{
    if n <= 0 {
        0
    } else {
        heads_to(s, q, top, n - 1) + if s[n - 1] == 48 && climbs(s, n - 1, 48, q, top) {
            1int
        } else {
            0
        }
    }
}

/// The direction back from the `k`-th neighbour.
pub open spec fn back(k: int) -> int {
    if k == 0 {
        1
    } else if k == 1 {
        0
    } else if k == 2 {
        3
    } else {
        2
    }
}

proof fn lemma_back(p: int, k: int)
    requires
        0 <= p < span(),
        0 <= k < 4,
        neighbour(p, k) is Some,
    ensures
        neighbour(neighbour(p, k)->0, back(k)) == Some(p),
{
}

/// Climbing to height 9 is what `reaches` says.
proof fn lemma_reaches_climbs(s: Seq<u8>, p: int, c: int, t: int)
    ensures
        reaches(s, p, c, t) == climbs(s, p, c, t, 57),
    decreases 57 - c,
{
    if c < 57 {
        assert forall|k: int| 0 <= k < 4 && neighbour_is(s, p, k, c + 1) implies reaches(
            s,
            neighbour(p, k)->0,
            c + 1,
            t,
        ) == climbs(s, neighbour(p, k)->0, c + 1, t, 57) by {
            lemma_reaches_climbs(s, neighbour(p, k)->0, c + 1, t);
        }
        if reaches(s, p, c, t) {
            let k = choose|k: int|
                0 <= k < 4 && #[trigger] neighbour_is(s, p, k, c + 1) && reaches(s, neighbour(p, k)->0, c + 1, t);
            assert(neighbour_is(s, p, k, c + 1));
        }
        if climbs(s, p, c, t, 57) {
            let k = choose|k: int|
                0 <= k < 4 && #[trigger] neighbour_is(s, p, k, c + 1) && climbs(s, neighbour(p, k)->0, c + 1, t, 57);
            assert(neighbour_is(s, p, k, c + 1));
        }
    }
}

/// A climb to `q` at height `top` passes last through a neighbour of `q`
/// one lower.
proof fn lemma_last_step(s: Seq<u8>, p: int, c: int, q: int, top: int)
    requires
        0 <= p < span(),
        c < top,
        s[p] == c,
        climbs(s, p, c, q, top),
    ensures
        exists|k: int|
            0 <= k < 4 && #[trigger] neighbour_is(s, q, k, top - 1) && climbs(s, p, c, neighbour(q, k)->0, top - 1),
    decreases top - c,
{
    let k0 = choose|k: int|
        0 <= k < 4 && #[trigger] neighbour_is(s, p, k, c + 1) && climbs(s, neighbour(p, k)->0, c + 1, q, top);
    let p1 = neighbour(p, k0)->0;
    if c + 1 == top {
        lemma_back(p, k0);
        assert(neighbour_is(s, q, back(k0), top - 1));
        assert(climbs(s, p, c, neighbour(q, back(k0))->0, top - 1));
    } else {
        lemma_last_step(s, p1, c + 1, q, top);
        let k = choose|k: int|
            0 <= k < 4 && #[trigger] neighbour_is(s, q, k, top - 1) && climbs(s, p1, c + 1, neighbour(q, k)->0, top - 1);
        assert(neighbour_is(s, p, k0, c + 1));
        assert(climbs(s, p, c, neighbour(q, k)->0, top - 1));
        assert(neighbour_is(s, q, k, top - 1));
    }
}

/// The heads that climb to `q` through its `k`-th neighbour.
pub open spec fn heads_via(s: Seq<u8>, q: int, top: int, k: int, n: int) -> int {
    if neighbour_is(s, q, k, top - 1) {
        heads_to(s, neighbour(q, k)->0, top - 1, n)
    } else {
        0
    }
}

proof fn lemma_heads_to_grows(s: Seq<u8>, q: int, top: int, m: int, n: int)
    requires
        m <= n,
    ensures
        heads_to(s, q, top, m) <= heads_to(s, q, top, n),
    decreases n - m,
{
    if m < n {
        lemma_heads_to_grows(s, q, top, m, n - 1);
    }
}

/// Each head that climbs to `q` climbs to one of its lower neighbours.
proof fn lemma_heads_split(s: Seq<u8>, q: int, top: int, n: int)
    requires
        48 < top,
        n <= span(),
    ensures
        heads_to(s, q, top, n) <= heads_via(s, q, top, 0, n) + heads_via(s, q, top, 1, n) + heads_via(s, q, top, 2, n)
            + heads_via(s, q, top, 3, n),
    decreases n,
{
    if n > 0 {
        lemma_heads_split(s, q, top, n - 1);
        assert forall|k: int| 0 <= k < 4 implies heads_via(s, q, top, k, n - 1) <= #[trigger] heads_via(s, q, top, k, n) by {
            if neighbour_is(s, q, k, top - 1) {
                lemma_heads_to_grows(s, neighbour(q, k)->0, top - 1, n - 1, n);
            }
        }
        assert(heads_via(s, q, top, 0, n - 1) <= heads_via(s, q, top, 0, n));
        assert(heads_via(s, q, top, 1, n - 1) <= heads_via(s, q, top, 1, n));
        assert(heads_via(s, q, top, 2, n - 1) <= heads_via(s, q, top, 2, n));
        assert(heads_via(s, q, top, 3, n - 1) <= heads_via(s, q, top, 3, n));
        let h = n - 1;
        if s[h] == 48 && climbs(s, h, 48, q, top) {
            lemma_last_step(s, h, 48, q, top);
            let k = choose|k: int|
                0 <= k < 4 && #[trigger] neighbour_is(s, q, k, top - 1) && climbs(s, h, 48, neighbour(q, k)->0, top - 1);
            assert(heads_via(s, q, top, k, n) == heads_via(s, q, top, k, n - 1) + 1);
            if k == 0 {
                assert(heads_via(s, q, top, 0, n) == heads_via(s, q, top, 0, n - 1) + 1);
            } else if k == 1 {
                assert(heads_via(s, q, top, 1, n) == heads_via(s, q, top, 1, n - 1) + 1);
            } else if k == 2 {
                assert(heads_via(s, q, top, 2, n) == heads_via(s, q, top, 2, n - 1) + 1);
            } else {
                assert(heads_via(s, q, top, 3, n) == heads_via(s, q, top, 3, n - 1) + 1);
            }
        }
    }
}

proof fn lemma_heads_at_bottom(s: Seq<u8>, q: int, n: int)
    ensures
        heads_to(s, q, 48, n) <= 1,
        n <= q ==> heads_to(s, q, 48, n) == 0,
    decreases n,
{
    if n > 0 {
        lemma_heads_at_bottom(s, q, n - 1);
    }
}

/// No more `0`s climb to `q` than there are trails down from it.
proof fn lemma_heads_within_trails(s: Seq<u8>, q: int, top: int, n: int)
    requires
        48 <= top,
        n <= span(),
    ensures
        heads_to(s, q, top, n) <= trails_down(s, q, top),
    decreases top,
{
    if top == 48 {
        lemma_heads_at_bottom(s, q, n);
    } else {
        lemma_heads_split(s, q, top, n);
        assert forall|k: int| 0 <= k < 4 implies #[trigger] heads_via(s, q, top, k, n) <= trails_via(s, q, top, k) by {
            if neighbour_is(s, q, k, top - 1) {
                lemma_heads_within_trails(s, neighbour(q, k)->0, top - 1, n);
            }
        }
        assert(heads_via(s, q, top, 0, n) <= trails_via(s, q, top, 0));
        assert(heads_via(s, q, top, 1, n) <= trails_via(s, q, top, 1));
        assert(heads_via(s, q, top, 2, n) <= trails_via(s, q, top, 2));
        assert(heads_via(s, q, top, 3, n) <= trails_via(s, q, top, 3));
    }
}

proof fn lemma_heads_reaching(s: Seq<u8>, t: int, n: int)
    ensures
        heads_reaching(s, t, n) == heads_to(s, t, 57, n),
    decreases n,
{
    if n > 0 {
        lemma_heads_reaching(s, t, n - 1);
        lemma_reaches_climbs(s, n - 1, 48, t);
    }
}

/// A `9` cannot be reached from more `0`s than there are trails to it, so
/// the sum of the scores is at most the sum of the ratings: the answer of
/// part 1 is at most that of part 2.
pub proof fn lemma_score_within_rating(s: Seq<u8>, n: int)
    ensures
        score_sum(s, n) <= rating_sum(s, n),
    decreases n,
{
    if n > 0 {
        lemma_score_within_rating(s, n - 1);
        if s[n - 1] == 57 {
            lemma_heads_reaching(s, n - 1, span());
            lemma_heads_within_trails(s, n - 1, 57, span());
        }
    }
}

} // verus!
