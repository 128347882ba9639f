//! Red-nosed reports: which reports of levels are safe, with and without
//! the problem dampener.
use vstd::prelude::*;
use vstd::string::StringSliceAdditionalSpecFns;

use crate::digits::{
    dec_value, digits_end, lemma_dec_value_bounds, lemma_digits_end, lemma_numeral_small,
    lemma_pow10_mono, numeral_at, parse_digits, pow10,
};

verus! {

/// The levels of a report from index `j` on: numerals separated by spaces.
pub open spec fn levels_from(s: Seq<u8>, j: int) -> Seq<int>
    decreases s.len() + 1 - j,
{
    if 0 <= j <= s.len() {
        let e = digits_end(s, j);
        proof {
            lemma_digits_end(s, j);
        }
        seq![dec_value(numeral_at(s, j))] + if e < s.len() && s[e] == 32 {
            levels_from(s, e + 1)
        } else {
            seq![]
        }
    } else {
        seq![]
    }
}

/// The index of the byte that ends the report that starts at `j`.
pub open spec fn report_end(s: Seq<u8>, j: int) -> int
    decreases s.len() + 1 - j,
{
    if 0 <= j <= s.len() {
        let e = digits_end(s, j);
        proof {
            lemma_digits_end(s, j);
        }
        if e < s.len() && s[e] == 32 {
            report_end(s, e + 1)
        } else {
            e
        }
    } else {
        j
    }
}

pub proof fn lemma_report_end(s: Seq<u8>, j: int)
    requires
        0 <= j <= s.len(),
    ensures
        j <= report_end(s, j) <= s.len(),
    decreases s.len() + 1 - j,
{
    lemma_digits_end(s, j);
    let e = digits_end(s, j);
    if e < s.len() && s[e] == 32 {
        lemma_report_end(s, e + 1);
    }
}

/// The reports of the input from index `i` on, one per line.
pub open spec fn reports(s: Seq<u8>, i: int) -> Seq<Seq<int>>
    decreases s.len() + 1 - i,
{
    if 0 <= i < s.len() {
        proof {
            lemma_report_end(s, i);
        }
        seq![levels_from(s, i)] + reports(s, report_end(s, i) + 1)
    } else {
        seq![]
    }
}

/// The levels from `j` on are numerals of one or two digits separated by
/// single spaces.
pub open spec fn wf_levels(s: Seq<u8>, j: int) -> bool
    decreases s.len() + 1 - j,
{
    let e = digits_end(s, j);
    proof {
        if 0 <= j <= s.len() {
            lemma_digits_end(s, j);
        }
    }
    &&& 0 <= j <= s.len()
    &&& 1 <= e - j <= 2
    &&& (e < s.len() && s[e] == 32 ==> wf_levels(s, e + 1))
}

/// Every line of the input from `i` on holds at least two levels and ends
/// with a newline.
pub open spec fn wf_reports(s: Seq<u8>, i: int) -> bool
    decreases s.len() + 1 - i,
{
    if 0 <= i < s.len() {
        let e = report_end(s, i);
        proof {
            lemma_report_end(s, i);
        }
        &&& wf_levels(s, i)
        &&& levels_from(s, i).len() >= 2
        &&& e < s.len() && s[e] == 10
        &&& wf_reports(s, e + 1)
    } else {
        i == s.len()
    }
}

/// The well-formed input, with a number of reports that fits the count.
pub open spec fn wf_input(s: Seq<u8>) -> bool {
    wf_reports(s, 0) && reports(s, 0).len() <= u32::MAX
}

/// The levels all increase by one to three from each to the next.
pub open spec fn increasing(ls: Seq<int>) -> bool {
    forall|k: int| 0 <= k < ls.len() - 1 ==> 1 <= #[trigger] ls[k + 1] - ls[k] <= 3
}

/// The levels all decrease by one to three from each to the next.
pub open spec fn decreasing(ls: Seq<int>) -> bool {
    forall|k: int| 0 <= k < ls.len() - 1 ==> 1 <= ls[k] - #[trigger] ls[k + 1] <= 3
}

/// A safe report: gradually increasing or gradually decreasing.
pub open spec fn safe(ls: Seq<int>) -> bool {
    increasing(ls) || decreasing(ls)
}

/// Safe once some single level is removed (a safe report of two or more
/// levels stays safe without its first level, so this allows at most one
/// removal).
pub open spec fn safe_dampened(ls: Seq<int>) -> bool {
    exists|r: int| 0 <= r < ls.len() && safe(#[trigger] ls.remove(r))
}

/// The number of the first `k` reports that pass the check (`dampened`
/// allows removing one level).
pub open spec fn safe_count(rs: Seq<Seq<int>>, k: int, dampened: bool) -> int
    decreases k,
{
    if k <= 0 {
        0
    } else {
        safe_count(rs, k - 1, dampened) + if (if dampened {
            safe_dampened(rs[k - 1])
        } else {
            safe(rs[k - 1])
        }) {
            1int
        } else {
            0
        }
    }
}

proof fn lemma_safe_count_bound(rs: Seq<Seq<int>>, k: int, dampened: bool)
    requires
        k >= 0,
    ensures
        0 <= safe_count(rs, k, dampened) <= k,
    decreases k,
{
    if k > 0 {
        lemma_safe_count_bound(rs, k - 1, dampened);
    }
}

/// Whether every step from one level to the next lies in `[lo, hi]`.
fn steps_within(ls: &Vec<i64>, lo: i64, hi: i64) -> (r: bool)
    requires
        forall|k: int| 0 <= k < ls@.len() ==> 0 <= #[trigger] ls@[k] < 100,
    ensures
        r == (forall|j: int| 0 <= j < ls@.len() - 1 ==> lo <= #[trigger] ls@[j + 1] - ls@[j] <= hi),
{
    let n = ls.len();
    let mut k: usize = 1;
    while k < n
        invariant
            n == ls@.len(),
            forall|j: int| 0 <= j < ls@.len() ==> 0 <= #[trigger] ls@[j] < 100,
            1 <= k,
            k <= n || n == 0,
            forall|j: int| 0 <= j < k - 1 ==> lo <= #[trigger] ls@[j + 1] - ls@[j] <= hi,
        decreases n - k,
    {
        let d = ls[k] - ls[k - 1];
        if !(lo <= d && d <= hi) {
            assert(!(lo <= ls@[(k - 1) + 1] - ls@[k - 1] <= hi));
            return false;
        }
        k = k + 1;
    }
    true
}

/// Whether the levels are safe.
fn is_safe(ls: &Vec<i64>) -> (r: bool)
    requires
        forall|k: int| 0 <= k < ls@.len() ==> 0 <= #[trigger] ls@[k] < 100,
    ensures
        r == safe(ls@.map_values(|x: i64| x as int)),
{
    let ghost v = ls@.map_values(|x: i64| x as int);
    let inc = steps_within(ls, 1, 3);
    let dec = steps_within(ls, -3, -1);
    proof {
        assert(inc == increasing(v)) by {
            if inc {
                assert forall|k: int| 0 <= k < v.len() - 1 implies 1 <= #[trigger] v[k + 1] - v[k] <= 3 by {
                    assert(1 <= ls@[k + 1] - ls@[k] <= 3);
                }
            }
            if increasing(v) {
                assert forall|j: int| 0 <= j < ls@.len() - 1 implies 1 <= #[trigger] ls@[j + 1] - ls@[j] <= 3 by {
                    assert(1 <= v[j + 1] - v[j] <= 3);
                }
            }
        }
        assert(dec == decreasing(v)) by {
            if dec {
                assert forall|k: int| 0 <= k < v.len() - 1 implies 1 <= v[k] - #[trigger] v[k + 1] <= 3 by {
                    assert(-3 <= ls@[k + 1] - ls@[k] <= -1);
                }
            }
            if decreasing(v) {
                assert forall|j: int| 0 <= j < ls@.len() - 1 implies -3 <= #[trigger] ls@[j + 1] - ls@[j] <= -1 by {
                    assert(1 <= v[j] - v[j + 1] <= 3);
                }
            }
        }
    }
    inc || dec
}

/// The levels without the one at `r`.
fn without(ls: &Vec<i64>, r: usize) -> (w: Vec<i64>)
    requires
        r < ls@.len(),
    ensures
        w@ == ls@.remove(r as int),
{
    let mut w: Vec<i64> = Vec::new();
    let mut k: usize = 0;
    while k < ls.len()
        invariant
            r < ls@.len(),
            k <= ls@.len(),
            k <= r ==> w@ == ls@.take(k as int),
            k > r ==> w@ == ls@.take(k as int).remove(r as int),
        decreases ls@.len() - k,
    {
        if k != r {
            w.push(ls[k]);
        }
        proof {
            if k < r {
                assert(w@ =~= ls@.take(k + 1));
            } else if k == r {
                assert(ls@.take(k + 1).remove(r as int) =~= ls@.take(k as int));
            } else {
                assert(ls@.take(k + 1).remove(r as int) =~= ls@.take(k as int).remove(r as int).push(ls@[k as int]));
            }
        }
        k = k + 1;
    }
    assert(ls@.take(ls@.len() as int) =~= ls@);
    w
}

/// Whether the levels are safe once some level is removed.
fn is_safe_dampened(ls: &Vec<i64>) -> (r: bool)
    requires
        forall|k: int| 0 <= k < ls@.len() ==> 0 <= #[trigger] ls@[k] < 100,
    ensures
        r == safe_dampened(ls@.map_values(|x: i64| x as int)),
{
    let ghost v = ls@.map_values(|x: i64| x as int);
    let mut r: usize = 0;
    while r < ls.len()
        invariant
            r <= ls@.len(),
            v == ls@.map_values(|x: i64| x as int),
            forall|k: int| 0 <= k < ls@.len() ==> 0 <= #[trigger] ls@[k] < 100,
            forall|j: int| 0 <= j < r ==> !safe(#[trigger] v.remove(j)),
        decreases ls@.len() - r,
    {
        let w = without(ls, r);
        proof {
            assert(w@.map_values(|x: i64| x as int) =~= v.remove(r as int));
            assert forall|k: int| 0 <= k < w@.len() implies 0 <= #[trigger] w@[k] < 100 by {
                if k < r {
                    assert(w@[k] == ls@[k]);
                } else {
                    assert(w@[k] == ls@[k + 1]);
                }
            }
        }
        if is_safe(&w) {
            return true;
        }
        r = r + 1;
    }
    false
}

/// The number of reports that pass the check (`dampened` allows removing one level).
fn count_safe(s: &[u8], dampened: bool) -> (r: u32)
    requires
        wf_input(s@),
    ensures
        r == safe_count(reports(s@, 0), reports(s@, 0).len() as int, dampened),
{
    let ghost all = reports(s@, 0);
    let ghost mut c: int = 0;
    let mut i: usize = 0;
    let mut count: u32 = 0;
    while i < s.len()
        invariant
            i <= s@.len(),
            wf_reports(s@, i as int),
            all == reports(s@, 0),
            all.len() <= u32::MAX,
            0 <= c <= all.len(),
            reports(s@, i as int) == all.skip(c),
            count == safe_count(all, c, dampened),
        decreases s@.len() - i,
    {
        let mut ls: Vec<i64> = Vec::new();
        let mut j = i;
        proof {
            lemma_report_end(s@, i as int);
        }
        loop
            invariant_except_break
                wf_levels(s@, j as int),
                levels_from(s@, i as int) == ls@.map_values(|x: i64| x as int) + levels_from(s@, j as int),
                report_end(s@, i as int) == report_end(s@, j as int),
            invariant
                i <= j <= s@.len(),
                forall|k: int| 0 <= k < ls@.len() ==> 0 <= #[trigger] ls@[k] < 100,
            ensures
                levels_from(s@, i as int) == ls@.map_values(|x: i64| x as int),
                j == report_end(s@, i as int),
                forall|k: int| 0 <= k < ls@.len() ==> 0 <= #[trigger] ls@[k] < 100,
            decreases s@.len() - j,
        {
            proof {
                lemma_digits_end(s@, j as int);
                lemma_numeral_small(numeral_at(s@, j as int));
                lemma_dec_value_bounds(numeral_at(s@, j as int));
                lemma_pow10_mono(numeral_at(s@, j as int).len(), 2);
                assert(pow10(2) == 100) by {
                    reveal_with_fuel(pow10, 3);
                }
            }
            let (v, e) = parse_digits(s, j);
            let ghost old_ls = ls@;
            ls.push(v as i64);
            proof {
                assert(ls@.map_values(|x: i64| x as int) =~= old_ls.map_values(|x: i64| x as int).push(v as int));
            }
            if e < s.len() && s[e] == 32 {
                proof {
                    assert(levels_from(s@, j as int) =~= seq![v as int] + levels_from(s@, e + 1));
                    assert(ls@.map_values(|x: i64| x as int) + levels_from(s@, e + 1) =~= old_ls.map_values(
                        |x: i64| x as int,
                    ) + levels_from(s@, j as int));
                }
                j = e + 1;
            } else {
                proof {
                    assert(levels_from(s@, j as int) =~= seq![v as int]);
                    assert(ls@.map_values(|x: i64| x as int) =~= old_ls.map_values(|x: i64| x as int)
                        + levels_from(s@, j as int));
                }
                j = e;
                break;
            }
        }
        let ok = if dampened { is_safe_dampened(&ls) } else { is_safe(&ls) };
        proof {
            assert(reports(s@, i as int) =~= seq![levels_from(s@, i as int)] + reports(s@, j + 1));
            assert(all.skip(c).len() >= 1);
            assert(all.skip(c)[0] == all[c]);
            assert(all.skip(c + 1) =~= all.skip(c).skip(1));
            assert((seq![levels_from(s@, i as int)] + reports(s@, j + 1)).skip(1) =~= reports(s@, j + 1));
            lemma_safe_count_bound(all, c, dampened);
        }
        if ok {
            count = count + 1;
        }
        proof {
            c = c + 1;
        }
        i = j + 1;
    }
    proof {
        assert(all.skip(c).len() == 0);
    }
    count
}

/// Part 1: the number of safe reports.
pub fn part1(input: &str) -> (r: u32)
    requires
        wf_input(input.spec_bytes()),
    ensures
        r == safe_count(reports(input.spec_bytes(), 0), reports(input.spec_bytes(), 0).len() as int, false),
{
    count_safe(input.as_bytes(), false)
}

/// Part 2: the number of reports that are safe once at most one level is removed.
pub fn part2(input: &str) -> (r: u32)
    requires
        wf_input(input.spec_bytes()),
    ensures
        r == safe_count(reports(input.spec_bytes(), 0), reports(input.spec_bytes(), 0).len() as int, true),
{
    count_safe(input.as_bytes(), true)
}

/// The answer of part 2, as a signed number.
pub fn run(input: &str) -> (r: i64)
    requires
        wf_input(input.spec_bytes()),
    ensures
        r == safe_count(reports(input.spec_bytes(), 0), reports(input.spec_bytes(), 0).len() as int, true),
{
    part2(input) as i64
}

/// A safe report stays safe without its first level.
proof fn lemma_safe_drop_first(ls: Seq<int>)
    requires
        ls.len() >= 1,
        safe(ls),
    ensures
        safe(ls.remove(0)),
{
    let t = ls.remove(0);
    if increasing(ls) {
        assert forall|k: int| 0 <= k < t.len() - 1 implies 1 <= #[trigger] t[k + 1] - t[k] <= 3 by {
            assert(t[k + 1] == ls[k + 2] && t[k] == ls[k + 1]);
            assert(1 <= ls[(k + 1) + 1] - ls[k + 1] <= 3);
        }
    } else {
        assert forall|k: int| 0 <= k < t.len() - 1 implies 1 <= t[k] - #[trigger] t[k + 1] <= 3 by {
            assert(t[k + 1] == ls[k + 2] && t[k] == ls[k + 1]);
            assert(1 <= ls[k + 1] - ls[(k + 1) + 1] <= 3);
        }
    }
}

/// Among reports that hold a level each, the dampened check passes every
/// report that the plain check passes, and neither passes more reports than
/// there are: part 1 is at most part 2, which is at most the number of
/// reports.
pub proof fn lemma_dampened_counts_more(rs: Seq<Seq<int>>, k: int)
    requires
        0 <= k <= rs.len(),
        forall|i: int| 0 <= i < rs.len() ==> (#[trigger] rs[i]).len() >= 1,
    ensures
        0 <= safe_count(rs, k, false) <= safe_count(rs, k, true) <= k,
    decreases k,
{
    if k > 0 {
        lemma_dampened_counts_more(rs, k - 1);
        let ls = rs[k - 1];
        if safe(ls) {
            lemma_safe_drop_first(ls);
            assert(safe(ls.remove(0)));
            assert(safe_dampened(ls));
        }
    }
}

/// The reports of a well-formed input hold at least two levels each.
pub proof fn lemma_reports_long(s: Seq<u8>, i: int)
    requires
        wf_reports(s, i),
    ensures
        forall|j: int| 0 <= j < reports(s, i).len() ==> (#[trigger] reports(s, i)[j]).len() >= 2,
    decreases s.len() + 1 - i,
{
    if 0 <= i < s.len() {
        lemma_report_end(s, i);
        let e = report_end(s, i);
        lemma_reports_long(s, e + 1);
        assert forall|j: int| 0 <= j < reports(s, i).len() implies (#[trigger] reports(s, i)[j]).len() >= 2 by {
            if j > 0 {
                assert(reports(s, i)[j] == reports(s, e + 1)[j - 1]);
            }
        }
    }
}

/// On a well-formed input, the answer of part 1 is at most that of part 2,
/// which is at most the number of reports.
pub proof fn lemma_part1_at_most_part2(s: Seq<u8>)
    requires
        wf_reports(s, 0),
    ensures
        0 <= safe_count(reports(s, 0), reports(s, 0).len() as int, false) <= safe_count(
            reports(s, 0),
            reports(s, 0).len() as int,
            true,
        ) <= reports(s, 0).len(),
{
    lemma_reports_long(s, 0);
    lemma_dampened_counts_more(reports(s, 0), reports(s, 0).len() as int);
}

} // verus!
