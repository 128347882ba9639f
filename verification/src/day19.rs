//! Linen layout: which designs can be laid out with the available towels,
//! and in how many ways.
//!
//! The first line lists the towels, runs of stripe letters separated by
//! `, `; after a blank line each line holds a design.
use vstd::prelude::*;
use vstd::string::StringSliceAdditionalSpecFns;

use crate::wrap::{lemma_wrapping_add, modulus};

verus! {

/// `b` is a stripe colour: `w`, `u`, `b`, `r` or `g`.
pub open spec fn is_stripe(b: u8) -> bool {
    b == 119 || b == 117 || b == 98 || b == 114 || b == 103
}

/// The end of the run of stripes from `i`.
pub open spec fn run_end(s: Seq<u8>, i: int) -> int
    decreases s.len() - i,
{
    if 0 <= i < s.len() && is_stripe(s[i]) {
        run_end(s, i + 1)
    } else {
        i
    }
}

/// The offset of the first newline.
pub open spec fn line_end(s: Seq<u8>) -> int {
    choose|n: int| 0 <= n < s.len() && s[n] == 10 && forall|q: int| 0 <= q < n ==> s[q] != 10
}

/// A towel starts at `t`: a run of stripes begins there on the first line.
pub open spec fn towel_start(s: Seq<u8>, t: int) -> bool {
    &&& 0 <= t < line_end(s)
    &&& is_stripe(s[t])
    &&& (t == 0 || !is_stripe(s[t - 1]))
}

/// `w` is the pattern of one of the towels.
pub open spec fn is_towel(s: Seq<u8>, w: Seq<u8>) -> bool {
    exists|t: int| towel_start(s, t) && s.subrange(t, run_end(s, t)) == w
}

/// The stripes from `a` to `e` can be laid out with towels.
pub open spec fn possible(s: Seq<u8>, a: int, e: int) -> bool
    decreases e - a,
{
    if a >= e {
        true
    } else {
        exists|l: int|
            1 <= l <= e - a && #[trigger] is_towel(s, s.subrange(a, a + l)) && possible(s, a + l, e)
    }
}

/// The number of ways to lay out the stripes from `a` to `e` with towels.
pub open spec fn ways(s: Seq<u8>, a: int, e: int) -> nat
    decreases e - a, 1int, 0int,
{
    if a >= e {
        1
    } else {
        ways_first(s, a, e, e - a)
    }
}

/// The ways from `a` to `e` whose first towel has at most `l` stripes.
pub open spec fn ways_first(s: Seq<u8>, a: int, e: int, l: int) -> nat
    decreases e - a, 0int, l,
{
    if l <= 0 || a >= e {
        0
    } else {
        ways_first(s, a, e, l - 1) + if l <= e - a && is_towel(s, s.subrange(a, a + l)) {
            ways(s, a + l, e)
        } else {
            0
        }
    }
}

/// A design starts at `i`: a line after the blank line.
pub open spec fn design_start(s: Seq<u8>, i: int) -> bool {
    line_end(s) + 2 <= i < s.len() && s[i - 1] == 10
}

/// The number of designs starting before `n` that can be laid out.
pub open spec fn possible_count(s: Seq<u8>, n: int) -> int
    decreases n,
{
    if n <= 0 {
        0
    } else {
        possible_count(s, n - 1) + if design_start(s, n - 1) && possible(
            s,
            n - 1,
            run_end(s, n - 1),
        ) {
            1int
        } else {
            0
        }
    }
}

/// The total number of ways to lay out the designs starting before `n`.
pub open spec fn ways_total(s: Seq<u8>, n: int) -> nat
    decreases n,
{
    if n <= 0 {
        0
    } else {
        ways_total(s, n - 1) + if design_start(s, n - 1) {
            ways(s, n - 1, run_end(s, n - 1))
        } else {
            0
        }
    }
}

/// The towels line of stripes, commas and spaces, a blank line, then the
/// designs, one nonempty run of at most 63 stripes per line.
pub open spec fn wf_input(s: Seq<u8>) -> bool {
    &&& s.len() <= i64::MAX
    &&& exists|n: int| 0 <= n < s.len() && s[n] == 10 && forall|q: int| 0 <= q < n ==> s[q] != 10
    &&& forall|q: int| 0 <= q < line_end(s) ==> is_stripe(s[q]) || s[q] == 44 || s[q] == 32
    &&& line_end(s) + 1 < s.len()
    &&& s[line_end(s) + 1] == 10
    &&& forall|i: int|
        #[trigger] design_start(s, i) ==> {
            let e = run_end(s, i);
            i < e <= i + 63 && e < s.len() && s[e] == 10
        }
}

proof fn lemma_run_end(s: Seq<u8>, i: int)
    requires
        0 <= i <= s.len(),
    ensures
        i <= run_end(s, i) <= s.len(),
        forall|q: int| i <= q < run_end(s, i) ==> is_stripe(s[q]),
        run_end(s, i) < s.len() ==> !is_stripe(s[run_end(s, i)]),
    decreases s.len() - i,
{
    if i < s.len() && is_stripe(s[i]) {
        lemma_run_end(s, i + 1);
    }
}

/// The end of the run of stripes from `i`, computed.
fn run_end_exec(s: &[u8], i: usize) -> (e: usize)
    requires
        i <= s@.len(),
    ensures
        e == run_end(s@, i as int),
{
    let mut e = i;
    while e < s.len() && (s[e] == 119 || s[e] == 117 || s[e] == 98 || s[e] == 114 || s[e] == 103)
        invariant
            i <= e <= s@.len(),
            run_end(s@, e as int) == run_end(s@, i as int),
        decreases s@.len() - e,
    {
        e = e + 1;
    }
    e
}

/// The towels, as the offsets that begin and end each.
fn towels(s: &[u8], nl: usize) -> (ts: Vec<(usize, usize)>)
    requires
        nl == line_end(s@),
        nl < s@.len(),
    ensures
        forall|k: int|
            0 <= k < ts@.len() ==> towel_start(s@, ts@[k].0 as int) && ts@[k].1 == run_end(
                s@,
                ts@[k].0 as int,
            ),
        forall|t: int| #[trigger] towel_start(s@, t) ==> exists|k: int| 0 <= k < ts@.len() && ts@[k].0 == t,
{
    let mut ts: Vec<(usize, usize)> = Vec::new();
    let mut i: usize = 0;
    while i < nl
        invariant
            nl == line_end(s@),
            nl < s@.len(),
            i <= nl,
            forall|k: int|
                0 <= k < ts@.len() ==> towel_start(s@, ts@[k].0 as int) && ts@[k].1 == run_end(
                    s@,
                    ts@[k].0 as int,
                ),
            forall|t: int|
                #[trigger] towel_start(s@, t) && t < i ==> exists|k: int| 0 <= k < ts@.len() && ts@[k].0 == t,
        decreases nl - i,
    {
        let ghost old_ts = ts@;
        let b = s[i];
        let stripe = b == 119 || b == 117 || b == 98 || b == 114 || b == 103;
        let after = if i == 0 {
            true
        } else {
            let a = s[i - 1];
            !(a == 119 || a == 117 || a == 98 || a == 114 || a == 103)
        };
        if stripe && after {
            let e = run_end_exec(s, i);
            ts.push((i, e));
            proof {
                assert(ts@[ts@.len() - 1].0 == i);
            }
        }
        proof {
            assert forall|t: int| #[trigger] towel_start(s@, t) && t < i + 1 implies exists|k: int|
                0 <= k < ts@.len() && ts@[k].0 == t by {
                if t < i {
                    let k = choose|k: int| 0 <= k < old_ts.len() && old_ts[k].0 == t;
                    assert(ts@[k].0 == t);
                } else {
                    assert(ts@[ts@.len() - 1].0 == i);
                }
            }
        }
        i = i + 1;
    }
    ts
}

/// Whether the `l` stripes from `a` are the pattern of a towel.
fn towel_matches(s: &[u8], ts: &Vec<(usize, usize)>, a: usize, l: usize) -> (b: bool)
    requires
        a + l <= s@.len(),
        line_end(s@) < s@.len(),
        forall|k: int|
            0 <= k < ts@.len() ==> towel_start(s@, ts@[k].0 as int) && ts@[k].1 == run_end(
                s@,
                ts@[k].0 as int,
            ),
        forall|t: int| #[trigger] towel_start(s@, t) ==> exists|k: int| 0 <= k < ts@.len() && ts@[k].0 == t,
    ensures
        b == is_towel(s@, s@.subrange(a as int, a + l)),
{
    let mut k: usize = 0;
    while k < ts.len()
        invariant
            a + l <= s@.len(),
            line_end(s@) < s@.len(),
            forall|j: int|
                0 <= j < ts@.len() ==> towel_start(s@, ts@[j].0 as int) && ts@[j].1 == run_end(
                    s@,
                    ts@[j].0 as int,
                ),
            k <= ts@.len(),
            forall|j: int|
                0 <= j < k ==> s@.subrange(ts@[j].0 as int, ts@[j].1 as int) != s@.subrange(
                    a as int,
                    a + l,
                ),
        decreases ts@.len() - k,
    {
        let (t, e) = ts[k];
        proof {
            lemma_run_end(s@, t as int);
        }
        proof {
            assert(s@.subrange(t as int, e as int).len() == e - t);
            assert(s@.subrange(a as int, a + l).len() == l);
        }
        if e - t == l {
            let mut j: usize = 0;
            while j < l && s[t + j] == s[a + j]
                invariant
                    a + l <= s@.len(),
                    t + l == e,
                    e <= s@.len(),
                    j <= l,
                    forall|q: int| 0 <= q < j ==> #[trigger] s@[t + q] == s@[a + q],
                decreases l - j,
            {
                j = j + 1;
            }
            if j == l {
                proof {
                    assert forall|q: int| 0 <= q < l implies s@.subrange(t as int, e as int)[q]
                        == s@.subrange(a as int, a + l)[q] by {
                        assert(s@[t + q] == s@[a + q]);
                    }
                    assert(s@.subrange(t as int, e as int) =~= s@.subrange(a as int, a + l));
                    assert(towel_start(s@, t as int));
                }
                return true;
            }
            proof {
                assert(s@.subrange(t as int, e as int)[j as int] != s@.subrange(a as int, a + l)[j as int]);
            }
        }
        k = k + 1;
    }
    proof {
        if is_towel(s@, s@.subrange(a as int, a + l)) {
            let t = choose|t: int|
                towel_start(s@, t) && s@.subrange(t, run_end(s@, t)) == s@.subrange(a as int, a + l);
            let j = choose|j: int| 0 <= j < ts@.len() && ts@[j].0 == t;
            assert(s@.subrange(ts@[j].0 as int, ts@[j].1 as int) == s@.subrange(a as int, a + l));
        }
    }
    false
}

/// Whether the stripes from `a` to `e` can be laid out with towels, and the
/// number of ways to do so, modulo 2^64.
fn layouts(s: &[u8], ts: &Vec<(usize, usize)>, a: usize, e: usize) -> (r: (bool, u64))
    requires
        a <= e <= s@.len(),
        e <= a + 63,
        line_end(s@) < s@.len(),
        forall|k: int|
            0 <= k < ts@.len() ==> towel_start(s@, ts@[k].0 as int) && ts@[k].1 == run_end(
                s@,
                ts@[k].0 as int,
            ),
        forall|t: int| #[trigger] towel_start(s@, t) ==> exists|k: int| 0 <= k < ts@.len() && ts@[k].0 == t,
    ensures
        r.0 == possible(s@, a as int, e as int),
        r.1 == ways(s@, a as int, e as int) % modulus(),
{
    let n = e - a;
    let mut can: Vec<bool> = vec![false; n + 1];
    let mut cnt: Vec<u64> = vec![0; n + 1];
    can.set(n, true);
    cnt.set(n, 1);
    proof {
        vstd::arithmetic::div_mod::lemma_small_mod(1, modulus());
    }
    let mut j = n;
    while j > 0
        invariant
            a <= e <= s@.len(),
            n == e - a,
            n <= 63,
            line_end(s@) < s@.len(),
            forall|k: int|
                0 <= k < ts@.len() ==> towel_start(s@, ts@[k].0 as int) && ts@[k].1 == run_end(
                    s@,
                    ts@[k].0 as int,
                ),
            forall|t: int|
                #[trigger] towel_start(s@, t) ==> exists|k: int| 0 <= k < ts@.len() && ts@[k].0 == t,
            j <= n,
            can@.len() == n + 1,
            cnt@.len() == n + 1,
            forall|q: int|
                j <= q <= n ==> can@[q] == possible(s@, a + q, e as int) && cnt@[q] == ways(
                    s@,
                    a + q,
                    e as int,
                ) % modulus(),
        decreases j,
    {
        j = j - 1;
        let p = a + j;
        let mut c = false;
        let mut w: u64 = 0;
        let mut l: usize = 1;
        proof {
            vstd::arithmetic::div_mod::lemma_small_mod(0, modulus());
        }
        while l <= n - j
            invariant
                a <= e <= s@.len(),
                n == e - a,
                n <= 63,
                j < n,
                p == a + j,
                line_end(s@) < s@.len(),
                forall|k: int|
                    0 <= k < ts@.len() ==> towel_start(s@, ts@[k].0 as int) && ts@[k].1 == run_end(
                        s@,
                        ts@[k].0 as int,
                    ),
                forall|t: int|
                    #[trigger] towel_start(s@, t) ==> exists|k: int| 0 <= k < ts@.len() && ts@[k].0 == t,
                can@.len() == n + 1,
                cnt@.len() == n + 1,
                forall|q: int|
                    j < q <= n ==> can@[q] == possible(s@, a + q, e as int) && cnt@[q] == ways(
                        s@,
                        a + q,
                        e as int,
                    ) % modulus(),
                1 <= l <= n - j + 1,
                c <==> exists|m: int|
                    1 <= m < l && #[trigger] is_towel(s@, s@.subrange(p as int, p + m)) && possible(
                        s@,
                        p + m,
                        e as int,
                    ),
                w == ways_first(s@, p as int, e as int, l - 1) % modulus(),
            decreases n - j + 1 - l,
        {
            let fits = towel_matches(s, ts, p, l);
            proof {
                assert(ways_first(s@, p as int, e as int, l as int) == ways_first(
                    s@,
                    p as int,
                    e as int,
                    l - 1,
                ) + if fits {
                    ways(s@, p + l, e as int)
                } else {
                    0
                });
            }
            if fits {
                if can[j + l] {
                    c = true;
                }
                proof {
                    lemma_wrapping_add(w, cnt@[(j + l) as int], ways_first(s@, p as int, e as int, l - 1), ways(s@, p + l, e as int));
                }
                w = w.wrapping_add(cnt[j + l]);
            }
            l = l + 1;
        }
        proof {
            assert(possible(s@, p as int, e as int) == exists|m: int|
                1 <= m <= e - p && #[trigger] is_towel(s@, s@.subrange(p as int, p + m)) && possible(
                    s@,
                    p + m,
                    e as int,
                ));
            assert(ways(s@, p as int, e as int) == ways_first(s@, p as int, e as int, e - p));
        }
        can.set(j, c);
        cnt.set(j, w);
    }
    (can[0], cnt[0])
}

proof fn lemma_line_end(s: Seq<u8>, n: int)
    requires
        0 <= n < s.len(),
        s[n] == 10,
        forall|q: int| 0 <= q < n ==> s[q] != 10,
    ensures
        line_end(s) == n,
{
    let m = line_end(s);
    assert(0 <= m < s.len() && s[m] == 10 && forall|q: int| 0 <= q < m ==> s[q] != 10);
    if m < n {
        assert(s[m] != 10);
    } else if n < m {
        assert(s[n] != 10);
    }
}

/// The offset of the first newline.
fn first_newline(s: &[u8]) -> (nl: usize)
    requires
        wf_input(s@),
    ensures
        nl == line_end(s@),
        nl < s@.len(),
{
    let mut i: usize = 0;
    while i < s.len() && s[i] != 10
        invariant
            wf_input(s@),
            i <= s@.len(),
            forall|q: int| 0 <= q < i ==> s@[q] != 10,
        decreases s@.len() - i,
    {
        i = i + 1;
    }
    proof {
        if i == s@.len() {
            let n = choose|n: int| 0 <= n < s@.len() && s@[n] == 10 && forall|q: int| 0 <= q < n ==> s@[q] != 10;
            assert(s@[n] != 10);
        }
        lemma_line_end(s@, i as int);
    }
    i
}

/// The number of designs that can be laid out, and the total number of
/// ways to lay them out modulo 2^64.
fn count_designs(s: &[u8]) -> (r: (u64, u64))
    requires
        wf_input(s@),
    ensures
        r.0 == possible_count(s@, s@.len() as int),
        r.1 == ways_total(s@, s@.len() as int) % modulus(),
{
    let nl = first_newline(s);
    let ts = towels(s, nl);
    let mut count: u64 = 0;
    let mut total: u64 = 0;
    proof {
        vstd::arithmetic::div_mod::lemma_small_mod(0, modulus());
    }
    let mut i: usize = 0;
    while i < s.len()
        invariant
            wf_input(s@),
            nl == line_end(s@),
            nl < s@.len(),
            forall|k: int|
                0 <= k < ts@.len() ==> towel_start(s@, ts@[k].0 as int) && ts@[k].1 == run_end(
                    s@,
                    ts@[k].0 as int,
                ),
            forall|t: int| #[trigger] towel_start(s@, t) ==> exists|k: int| 0 <= k < ts@.len() && ts@[k].0 == t,
            i <= s@.len(),
            count == possible_count(s@, i as int),
            count <= i,
            total == ways_total(s@, i as int) % modulus(),
        decreases s@.len() - i,
    {
        if i >= nl + 2 && s[i - 1] == 10 {
            assert(design_start(s@, i as int));
            let e = run_end_exec(s, i);
            let (c, w) = layouts(s, &ts, i, e);
            if c {
                count = count + 1;
            }
            proof {
                lemma_wrapping_add(total, w, ways_total(s@, i as int), ways(s@, i as int, e as int));
            }
            total = total.wrapping_add(w);
        }
        i = i + 1;
    }
    (count, total)
}

/// Part 1: the number of designs that can be laid out with the towels.
pub fn part1(input: &str) -> (r: u64)
    requires
        wf_input(input.spec_bytes()),
    ensures
        r == possible_count(input.spec_bytes(), input.spec_bytes().len() as int),
{
    count_designs(input.as_bytes()).0
}

/// Part 2: the total number of ways to lay out the designs, modulo 2^64.
pub fn part2(input: &str) -> (r: u64)
    requires
        wf_input(input.spec_bytes()),
    ensures
        r == ways_total(input.spec_bytes(), input.spec_bytes().len() as int) % modulus(),
{
    count_designs(input.as_bytes()).1
}

/// The answer of part 1, as a signed number.
pub fn run(input: &str) -> (r: i64)
    requires
        wf_input(input.spec_bytes()),
    ensures
        r == possible_count(input.spec_bytes(), input.spec_bytes().len() as int),
{
    let r = part1(input);
    proof {
        lemma_possible_count_bound(input.spec_bytes(), input.spec_bytes().len() as int);
    }
    r as i64
}

proof fn lemma_possible_count_bound(s: Seq<u8>, n: int)
    requires
        0 <= n,
    ensures
        0 <= possible_count(s, n) <= n,
    decreases n,
{
    if n > 0 {
        lemma_possible_count_bound(s, n - 1);
    }
}

} // verus!
