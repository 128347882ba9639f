//! Historian hysteria: two lists of location ids, compared by distance and
//! by similarity.
use vstd::prelude::*;
use vstd::string::StringSliceAdditionalSpecFns;

use crate::digits::{dec_value, is_digit, lemma_dec_value5};
use crate::sort::{ascending_seq, insert_sorted, ints, lemma_is_sorted_ascending, sorted_ascending};
use crate::swar::{byte, parse5bottom, parse5top, read_u64};

verus! {

/// Each line is 14 bytes: a five-digit id, three spaces, a five-digit id,
/// and a newline.
pub open spec fn line_count(s: Seq<u8>) -> int {
    s.len() as int / 14
}

/// The id in the left list on line `k`.
pub open spec fn left(s: Seq<u8>, k: int) -> int {
    dec_value(s.subrange(14 * k, 14 * k + 5))
}

/// The id in the right list on line `k`.
pub open spec fn right(s: Seq<u8>, k: int) -> int {
    dec_value(s.subrange(14 * k + 8, 14 * k + 13))
}

/// The left list.
pub open spec fn lefts(s: Seq<u8>) -> Seq<int> {
    Seq::new(line_count(s) as nat, |k: int| left(s, k))
}

/// The right list.
pub open spec fn rights(s: Seq<u8>) -> Seq<int> {
    Seq::new(line_count(s) as nat, |k: int| right(s, k))
}

/// Both ids of every line are five digits.
pub open spec fn wf_input(s: Seq<u8>) -> bool {
    forall|k: int, j: int|
        0 <= k < line_count(s) && (0 <= j < 5 || 8 <= j < 13) ==> is_digit(#[trigger] s[14 * k + j])
}

/// The number of times `v` occurs among the first `k` entries of `xs`.
pub open spec fn occurrences(xs: Seq<int>, v: int, k: int) -> int
    decreases k,
{
    if k <= 0 {
        0
    } else {
        occurrences(xs, v, k - 1) + if xs[k - 1] == v {
            1int
        } else {
            0
        }
    }
}

/// The sum of the first `k` entries of `rs` that occur in `ls`.
pub open spec fn similarity(rs: Seq<int>, ls: Seq<int>, k: int) -> int
    decreases k,
{
    if k <= 0 {
        0
    } else {
        similarity(rs, ls, k - 1) + if ls.contains(rs[k - 1]) {
            rs[k - 1]
        } else {
            0
        }
    }
}

/// The similarity score: each left id times the number of times it occurs
/// in the right list, summed over the distinct left ids; that is, the sum of
/// the right ids that also occur in the left list.
pub open spec fn similarity_score(s: Seq<u8>) -> int {
    similarity(rights(s), lefts(s), line_count(s))
}

/// No id occurs more than 254 times in the right list (the counts are bytes,
/// and 255 marks ids already seen on the left).
pub open spec fn counts_fit(s: Seq<u8>) -> bool {
    forall|v: int| occurrences(rights(s), v, line_count(s)) <= 254
}

proof fn lemma_occurrences_bound(xs: Seq<int>, v: int, k: int, n: int)
    requires
        0 <= k <= n,
    ensures
        0 <= occurrences(xs, v, k) <= occurrences(xs, v, n),
    decreases n,
{
    if k < n {
        lemma_occurrences_bound(xs, v, k, n - 1);
    } else if k > 0 {
        lemma_occurrences_bound(xs, v, k - 1, k - 1);
    }
}

/// Adding an id to the left list that was not there adds it once for each
/// of its occurrences on the right.
proof fn lemma_similarity_new_left(rs: Seq<int>, ls: Seq<int>, l: int, k: int)
    requires
        !ls.contains(l),
        k >= 0,
    ensures
        similarity(rs, ls.push(l), k) == similarity(rs, ls, k) + l * occurrences(rs, l, k),
    decreases k,
{
    if k > 0 {
        lemma_similarity_new_left(rs, ls, l, k - 1);
        let x = rs[k - 1];
        assert(ls.push(l).contains(x) <==> ls.contains(x) || x == l) by {
            if ls.push(l).contains(x) {
                let i = choose|i: int| 0 <= i < ls.push(l).len() && ls.push(l)[i] == x;
                if i < ls.len() {
                    assert(ls[i] == x);
                }
            }
            if ls.contains(x) {
                let i = choose|i: int| 0 <= i < ls.len() && ls[i] == x;
                assert(ls.push(l)[i] == x);
            }
            if x == l {
                assert(ls.push(l)[ls.len() as int] == x);
            }
        }
        assert(l * occurrences(rs, l, k) == l * occurrences(rs, l, k - 1) + if x == l {
            l
        } else {
            0
        }) by (nonlinear_arith)
            requires
                occurrences(rs, l, k) == occurrences(rs, l, k - 1) + if x == l {
                    1int
                } else {
                    0
                },
        ;
    }
}

/// Adding an id already in the left list changes nothing.
proof fn lemma_similarity_old_left(rs: Seq<int>, ls: Seq<int>, l: int, k: int)
    requires
        ls.contains(l),
        k >= 0,
    ensures
        similarity(rs, ls.push(l), k) == similarity(rs, ls, k),
    decreases k,
{
    if k > 0 {
        lemma_similarity_old_left(rs, ls, l, k - 1);
        let x = rs[k - 1];
        assert(ls.push(l).contains(x) <==> ls.contains(x)) by {
            if ls.push(l).contains(x) {
                let i = choose|i: int| 0 <= i < ls.push(l).len() && ls.push(l)[i] == x;
                if i < ls.len() {
                    assert(ls[i] == x);
                }
            }
            if ls.contains(x) {
                let i = choose|i: int| 0 <= i < ls.len() && ls[i] == x;
                assert(ls.push(l)[i] == x);
            }
        }
    }
}

/// The similarity grows with the left list and with the number of right ids.
proof fn lemma_similarity_mono(rs: Seq<int>, l1: Seq<int>, l2: Seq<int>, k1: int, k2: int)
    requires
        0 <= k1 <= k2,
        forall|x: int| l1.contains(x) ==> l2.contains(x),
        forall|j: int| 0 <= j < k2 ==> rs[j] >= 0,
    ensures
        0 <= similarity(rs, l1, k1) <= similarity(rs, l2, k2),
    decreases k2,
{
    if k1 < k2 {
        lemma_similarity_mono(rs, l1, l2, k1, k2 - 1);
        lemma_similarity_mono(rs, l2, l2, k2 - 1, k2 - 1);
    } else if k1 > 0 {
        lemma_similarity_mono(rs, l1, l2, k1 - 1, k2 - 1);
    }
}

/// The sum of `|a[i] - b[i]|` over the first `k` positions.
pub open spec fn abs_diff_sum(a: Seq<int>, b: Seq<int>, k: int) -> int
    decreases k,
{
    if k <= 0 {
        0
    } else {
        abs_diff_sum(a, b, k - 1) + if a[k - 1] <= b[k - 1] {
            b[k - 1] - a[k - 1]
        } else {
            a[k - 1] - b[k - 1]
        }
    }
}

/// The total distance: both lists sorted, then paired up in order, and the
/// distances of the pairs summed.
pub open spec fn total_distance(s: Seq<u8>) -> int {
    abs_diff_sum(sorted_ascending(lefts(s)), sorted_ascending(rights(s)), line_count(s))
}

/// Sums `|a[i] - b[i]|` over two vectors of the same length.
fn sum_abs_diff(a: &Vec<u32>, b: &Vec<u32>) -> (r: u32)
    requires
        a.len() == b.len(),
        a.len() <= 1000,
        forall|i: int| 0 <= i < a.len() ==> #[trigger] a@[i] < 100000,
        forall|i: int| 0 <= i < b.len() ==> #[trigger] b@[i] < 100000,
    ensures
        r == abs_diff_sum(ints(a@), ints(b@), a.len() as int),
{
    let mut tot: u32 = 0;
    let mut i: usize = 0;
    while i < a.len()
        invariant
            a.len() == b.len(),
            a.len() <= 1000,
            forall|j: int| 0 <= j < a.len() ==> #[trigger] a@[j] < 100000,
            forall|j: int| 0 <= j < b.len() ==> #[trigger] b@[j] < 100000,
            i <= a.len(),
            tot == abs_diff_sum(ints(a@), ints(b@), i as int),
            tot <= 100000 * i,
        decreases a.len() - i,
    {
        let x = a[i];
        let y = b[i];
        let d = if x <= y {
            y - x
        } else {
            x - y
        };
        tot = tot + d;
        i = i + 1;
    }
    tot
}

/// The ids of line `k`, read as two eight-byte words.
fn read_line(s: &[u8], k: usize) -> (r: (u32, u32))
    requires
        wf_input(s@),
        k < line_count(s@),
    ensures
        r.0 == left(s@, k as int),
        r.1 == right(s@, k as int),
        r.0 < 100000,
        r.1 < 100000,
{
    let len = s.len();
    assert(14 * k + 14 <= len) by (nonlinear_arith)
        requires k < len / 14, len == s@.len();
    let base = 14 * k;
    let wl = read_u64(&s[base..base + 8]);
    let wr = read_u64(&s[base + 5..base + 13]);
    proof {
        let b = base as int;
        assert(is_digit(s@[14 * k + 0]) && is_digit(s@[14 * k + 1]) && is_digit(s@[14 * k + 2])
            && is_digit(s@[14 * k + 3]) && is_digit(s@[14 * k + 4]));
        assert(is_digit(s@[14 * k + 8]) && is_digit(s@[14 * k + 9]) && is_digit(s@[14 * k + 10])
            && is_digit(s@[14 * k + 11]) && is_digit(s@[14 * k + 12]));
        assert(byte(wl, 0) == s@[b] && byte(wl, 1) == s@[b + 1] && byte(wl, 2) == s@[b + 2]
            && byte(wl, 3) == s@[b + 3] && byte(wl, 4) == s@[b + 4]);
        assert(byte(wr, 3) == s@[b + 8] && byte(wr, 4) == s@[b + 9] && byte(wr, 5) == s@[b + 10]
            && byte(wr, 6) == s@[b + 11] && byte(wr, 7) == s@[b + 12]);
        lemma_dec_value5(s@.subrange(b, b + 5));
        lemma_dec_value5(s@.subrange(b + 8, b + 13));
    }
    let l = parse5top(wl);
    let r = parse5bottom(wr);
    (l, r)
}

/// Part 1: the total distance between the two lists. The lists are held in
/// arrays of a thousand ids, so the input has at most a thousand lines.
pub fn part1(input: &str) -> (r: u32)
    requires
        wf_input(input.spec_bytes()),
        line_count(input.spec_bytes()) <= 1000,
    ensures
        r == total_distance(input.spec_bytes()),
{
    let s = input.as_bytes();
    let n = s.len() / 14;
    let ghost ls = lefts(s@);
    let ghost rs = rights(s@);
    let mut left: Vec<u32> = Vec::new();
    let mut right: Vec<u32> = Vec::new();
    let mut k: usize = 0;
    assert(ints(left@) =~= ls.take(0));
    assert(ints(right@) =~= rs.take(0));
    while k < n
        invariant
            n == line_count(s@),
            n <= 1000,
            k <= n,
            ls == lefts(s@),
            rs == rights(s@),
            wf_input(s@),
            left@.len() == k,
            right@.len() == k,
            ascending_seq(ints(left@)),
            ascending_seq(ints(right@)),
            ints(left@).to_multiset() == ls.take(k as int).to_multiset(),
            ints(right@).to_multiset() == rs.take(k as int).to_multiset(),
            forall|i: int| 0 <= i < k ==> #[trigger] left@[i] < 100000,
            forall|i: int| 0 <= i < k ==> #[trigger] right@[i] < 100000,
        decreases n - k,
    {
        let (l, r) = read_line(s, k);
        let ghost old_left = left@;
        let ghost old_right = right@;
        insert_sorted(&mut left, l);
        insert_sorted(&mut right, r);
        proof {
            assert(ls.take(k + 1) =~= ls.take(k as int).push(l as int));
            assert(rs.take(k + 1) =~= rs.take(k as int).push(r as int));
            vstd::seq_lib::to_multiset_build(ls.take(k as int), l as int);
            vstd::seq_lib::to_multiset_build(rs.take(k as int), r as int);
            assert forall|i: int| 0 <= i < k + 1 implies #[trigger] left@[i] < 100000 by {
                vstd::seq_lib::to_multiset_contains(ints(left@), ints(left@)[i]);
                assert(ints(left@)[i] == left@[i]);
                vstd::seq_lib::to_multiset_contains(ints(old_left), ints(left@)[i]);
                if ints(left@)[i] != l {
                    let j = choose|j: int| 0 <= j < ints(old_left).len() && ints(old_left)[j] == ints(left@)[i];
                    assert(old_left[j] < 100000);
                }
            }
            assert forall|i: int| 0 <= i < k + 1 implies #[trigger] right@[i] < 100000 by {
                vstd::seq_lib::to_multiset_contains(ints(right@), ints(right@)[i]);
                assert(ints(right@)[i] == right@[i]);
                vstd::seq_lib::to_multiset_contains(ints(old_right), ints(right@)[i]);
                if ints(right@)[i] != r {
                    let j = choose|j: int| 0 <= j < ints(old_right).len() && ints(old_right)[j] == ints(right@)[i];
                    assert(old_right[j] < 100000);
                }
            }
        }
        k = k + 1;
    }
    proof {
        assert(ls.take(n as int) =~= ls);
        assert(rs.take(n as int) =~= rs);
        lemma_is_sorted_ascending(ls, ints(left@));
        lemma_is_sorted_ascending(rs, ints(right@));
    }
    sum_abs_diff(&left, &right)
}

/// Part 2: the similarity score of the two lists.
pub fn part2(input: &str) -> (r: u32)
    requires
        wf_input(input.spec_bytes()),
        counts_fit(input.spec_bytes()),
        similarity_score(input.spec_bytes()) <= u32::MAX,
    ensures
        r == similarity_score(input.spec_bytes()),
{
    let s = input.as_bytes();
    let ghost ls = lefts(s@);
    let ghost rs = rights(s@);
    let n = s.len() / 14;
    let mut counts: Vec<u8> = vec![0u8; 100000];
    let mut tot: u32 = 0;
    let mut k: usize = 0;
    proof {
        assert forall|j: int| 0 <= j < n implies #[trigger] rs[j] >= 0 by {
            assert(14 * j + 14 <= s@.len()) by (nonlinear_arith)
                requires 0 <= j < s@.len() / 14;
            assert forall|i: int| 0 <= i < 5 implies is_digit(#[trigger] s@.subrange(14 * j + 8, 14 * j + 13)[i]) by {
                assert(is_digit(s@[14 * j + (8 + i)]));
            }
            crate::digits::lemma_dec_value_bounds(s@.subrange(14 * j + 8, 14 * j + 13));
        }
    }
    while k < n
        invariant
            n == line_count(s@),
            k <= n,
            ls == lefts(s@),
            rs == rights(s@),
            wf_input(s@),
            counts_fit(s@),
            similarity(rs, ls, n as int) <= u32::MAX,
            forall|j: int| 0 <= j < n ==> #[trigger] rs[j] >= 0,
            counts@.len() == 100000,
            forall|v: int| 0 <= v < 100000 ==> #[trigger] counts@[v] == if ls.take(k as int).contains(v) {
                255
            } else {
                occurrences(rs, v, k as int)
            },
            tot == similarity(rs, ls.take(k as int), k as int),
        decreases n - k,
    {
        let (l, r) = read_line(s, k);
        let ghost pre = ls.take(k as int);
        let ghost post = ls.take(k + 1);
        assert(post =~= pre.push(l as int));
        proof {
            lemma_occurrences_bound(rs, l as int, k as int, n as int);
            lemma_occurrences_bound(rs, r as int, k as int, n as int);
            lemma_occurrences_bound(rs, r as int, k + 1, n as int);
            assert forall|x: int| post.contains(x) implies ls.contains(x) by {
                let i = choose|i: int| 0 <= i < post.len() && post[i] == x;
                assert(ls[i] == x);
            }
        }
        let p = counts[l as usize];
        if p != 255 {
            proof {
                lemma_similarity_new_left(rs, pre, l as int, k as int);
                lemma_similarity_mono(rs, post, ls, k as int, n as int);
                assert(l as int * p as int <= 100000 * 255) by (nonlinear_arith)
                    requires l < 100000, p <= 255;
            }
            tot = tot + l * p as u32;
            counts.set(l as usize, 255);
        } else {
            proof {
                lemma_similarity_old_left(rs, pre, l as int, k as int);
            }
        }
        assert(tot == similarity(rs, post, k as int));
        proof {
            assert(rs[k as int] == r);
            lemma_similarity_mono(rs, post, ls, k + 1, n as int);
            assert forall|v: int| 0 <= v < 100000 implies #[trigger] counts@[v] == if post.contains(v) {
                255
            } else {
                occurrences(rs, v, k as int)
            } by {
                if v == l {
                    assert(post[k as int] == v);
                } else {
                    if pre.contains(v) {
                        let i = choose|i: int| 0 <= i < pre.len() && pre[i] == v;
                        assert(post[i] == v);
                    }
                    if post.contains(v) {
                        let i = choose|i: int| 0 <= i < post.len() && post[i] == v;
                        assert(i < pre.len());
                        assert(pre[i] == v);
                    }
                }
            }
        }
        let q = counts[r as usize];
        if q == 255 {
            tot = tot + r;
        } else {
            counts.set(r as usize, q + 1);
        }
        proof {
            assert forall|v: int| 0 <= v < 100000 implies #[trigger] counts@[v] == if post.contains(v) {
                255
            } else {
                occurrences(rs, v, k + 1)
            } by {
                if v != r {
                    assert(occurrences(rs, v, k + 1) == occurrences(rs, v, k as int));
                }
            }
        }
        k = k + 1;
    }
    proof {
        assert(ls.take(n as int) =~= ls);
    }
    tot
}

/// The answer of part 2, as a signed number.
pub fn run(input: &str) -> (r: i64)
    requires
        wf_input(input.spec_bytes()),
        counts_fit(input.spec_bytes()),
        similarity_score(input.spec_bytes()) <= u32::MAX,
    ensures
        r == similarity_score(input.spec_bytes()),
{
    part2(input) as i64
}

} // verus!
