//! Print queue: updates checked against page ordering rules.
//!
//! The rules come first, one `ab|cd` per line, then a blank line, then the
//! updates, each a line of two-digit page numbers separated by commas.
use vstd::prelude::*;
use vstd::string::StringSliceAdditionalSpecFns;

verus! {

/// The two-digit number at offset `i`.
pub open spec fn num2(s: Seq<u8>, i: int) -> int {
    10 * (s[i] - 48) + (s[i + 1] - 48)
}

/// `b` is an ASCII digit.
pub open spec fn is_digit(b: u8) -> bool {
    48 <= b <= 57
}

/// The first `r` lines are rules and the next one is blank.
pub open spec fn rules_section(s: Seq<u8>, r: int) -> bool {
    &&& 0 <= r
    &&& 6 * r < s.len()
    &&& s[6 * r] == 10
    &&& forall|l: int|
        0 <= l < r ==> {
            &&& is_digit(#[trigger] s[6 * l])
            &&& is_digit(s[6 * l + 1])
            &&& s[6 * l + 2] == 124
            &&& is_digit(s[6 * l + 3])
            &&& is_digit(s[6 * l + 4])
            &&& s[6 * l + 5] == 10
        }
}

/// The number of rules.
pub open spec fn rule_count(s: Seq<u8>) -> int {
    choose|r: int| rules_section(s, r)
}

/// One of the first `n` rules puts page `a` before page `b`.
pub open spec fn ruled_within(s: Seq<u8>, n: int, a: int, b: int) -> bool {
    exists|l: int| 0 <= l < n && #[trigger] num2(s, 6 * l) == a && num2(s, 6 * l + 3) == b
}

/// Page `a` must be printed before page `b`.
pub open spec fn rule(s: Seq<u8>, a: int, b: int) -> bool {
    ruled_within(s, rule_count(s), a, b)
}

/// From offset `j` on, the input is pages of two digits, each followed by a
/// comma or a newline.
pub open spec fn pages_section(s: Seq<u8>, j: int) -> bool
    decreases s.len() - j,
{
    if j >= s.len() {
        j == s.len()
    } else {
        &&& j + 3 <= s.len()
        &&& is_digit(s[j])
        &&& is_digit(s[j + 1])
        &&& (s[j + 2] == 44 || s[j + 2] == 10)
        &&& pages_section(s, j + 3)
    }
}

/// The number of pages of the update line from offset `j` on.
pub open spec fn pages_from(s: Seq<u8>, j: int) -> int
    decreases s.len() - j,
{
    if j + 3 <= s.len() && s[j + 2] == 44 {
        1 + pages_from(s, j + 3)
    } else {
        1
    }
}

/// Page `k` of the update at `i`.
pub open spec fn page(s: Seq<u8>, i: int, k: int) -> int {
    num2(s, i + 3 * k)
}

/// An update starts at `i`: a line after the blank line.
pub open spec fn update_start(s: Seq<u8>, i: int) -> bool {
    6 * rule_count(s) + 1 <= i < s.len() && s[i - 1] == 10
}

/// The update at `i` breaks no rule.
pub open spec fn in_order(s: Seq<u8>, i: int) -> bool {
    forall|a: int, b: int| 0 <= a < b < pages_from(s, i) ==> !rule(s, page(s, i, b), page(s, i, a))
}

/// The number of pages among the first `m` of the update at `i` that must
/// follow page `k`.
pub open spec fn followers(s: Seq<u8>, i: int, k: int, m: int) -> int
    decreases m,
{
    if m <= 0 {
        0
    } else {
        followers(s, i, k, m - 1) + if rule(s, page(s, i, k), page(s, i, m - 1)) {
            1int
        } else {
            0
        }
    }
}

/// The middle page once the update at `i` is put in order: the first page
/// that must precede exactly half of the pages (rounded down); 0 if none does.
pub open spec fn sorted_middle(s: Seq<u8>, i: int) -> int {
    let n = pages_from(s, i);
    if exists|k: int| 0 <= k < n && followers(s, i, k, n) == n / 2 {
        page(s, i, choose|k: int| 0 <= k < n && followers(s, i, k, n) == n / 2 && forall|j: int|
            0 <= j < k ==> followers(s, i, j, n) != n / 2)
    } else {
        0
    }
}

/// The sum, over the updates starting before offset `n`, of the middle page
/// of those in order (`!fixed`) or of the reordered ones (`fixed`).
pub open spec fn middle_sum(s: Seq<u8>, n: int, fixed: bool) -> int
    decreases n,
{
    if n <= 0 {
        0
    } else {
        middle_sum(s, n - 1, fixed) + if update_start(s, n - 1) {
            if !fixed && in_order(s, n - 1) {
                page(s, n - 1, pages_from(s, n - 1) / 2)
            } else if fixed && !in_order(s, n - 1) {
                sorted_middle(s, n - 1)
            } else {
                0
            }
        } else {
            0
        }
    }
}

/// The rules, a blank line and the updates.
pub open spec fn wf_input(s: Seq<u8>) -> bool {
    &&& s.len() <= 130_000_000
    &&& s[s.len() - 1] == 10
    &&& exists|r: int| rules_section(s, r)
    &&& pages_section(s, 6 * rule_count(s) + 1)
}

/// On the pages of each update the rules are a strict total order.
pub open spec fn total_orders(s: Seq<u8>) -> bool {
    forall|i: int|
        #[trigger] update_start(s, i) ==> forall|a: int, b: int, c: int|
            0 <= a < pages_from(s, i) && 0 <= b < pages_from(s, i) && 0 <= c < pages_from(s, i)
                ==> {
                &&& (a != b ==> page(s, i, a) != page(s, i, b))
                &&& !rule(s, page(s, i, a), page(s, i, a))
                &&& (a != b ==> (rule(s, page(s, i, a), page(s, i, b)) || rule(
                    s,
                    page(s, i, b),
                    page(s, i, a),
                )))
                &&& (rule(s, page(s, i, a), page(s, i, b)) ==> !rule(s, page(s, i, b), page(s, i, a)))
                &&& (rule(s, page(s, i, a), page(s, i, b)) && rule(s, page(s, i, b), page(s, i, c))
                    ==> rule(s, page(s, i, a), page(s, i, c)))
            }
}

proof fn lemma_rule_count(s: Seq<u8>, r: int)
    requires
        rules_section(s, r),
    ensures
        rule_count(s) == r,
{
    let q = rule_count(s);
    assert(rules_section(s, q));
    if q < r {
        assert(s[6 * q + 5] == 10);
        assert(is_digit(s[6 * q]));
    } else if r < q {
        assert(is_digit(s[6 * r]));
    }
}

/// The rules, as a table with an entry for each ordered pair of pages.
fn rule_table(s: &[u8]) -> (r: (Vec<bool>, usize))
    requires
        wf_input(s@),
    ensures
        r.1 == rule_count(s@),
        r.0@.len() == 10000,
        forall|a: int, b: int| 0 <= a < 100 && 0 <= b < 100 ==> r.0@[100 * a + b] == rule(s@, a, b),
{
    let mut t: Vec<bool> = vec![false; 10000];
    let mut l: usize = 0;
    let ghost rc = rule_count(s@);
    proof {
        let r = choose|r: int| rules_section(s@, r);
        lemma_rule_count(s@, r);
    }
    while s[6 * l] != 10
        invariant
            wf_input(s@),
            rules_section(s@, rc),
            rc == rule_count(s@),
            l <= rc,
            6 * rc < s@.len(),
            t@.len() == 10000,
            forall|a: int, b: int|
                0 <= a < 100 && 0 <= b < 100 ==> t@[100 * a + b] == #[trigger] ruled_within(
                    s@,
                    l as int,
                    a,
                    b,
                ),
        decreases rc - l,
    {
        assert(is_digit(s@[6 * l as int]));
        let a = 10 * (s[6 * l] - 48) as usize + (s[6 * l + 1] - 48) as usize;
        let b = 10 * (s[6 * l + 3] - 48) as usize + (s[6 * l + 4] - 48) as usize;
        let ghost before = t@;
        t.set(100 * a + b, true);
        proof {
            assert forall|x: int, y: int| 0 <= x < 100 && 0 <= y < 100 implies t@[100 * x + y]
                == #[trigger] ruled_within(s@, l + 1, x, y) by {
                assert(before[100 * x + y] == ruled_within(s@, l as int, x, y));
                if x == a && y == b {
                    assert(num2(s@, 6 * l as int) == x && num2(s@, 6 * l + 3) == y);
                } else {
                    assert(100 * x + y != 100 * a + b);
                    if ruled_within(s@, l + 1, x, y) {
                        let m = choose|m: int| 0 <= m < l + 1 && #[trigger] num2(s@, 6 * m) == x && num2(s@, 6 * m + 3) == y;
                        assert(m < l);
                    }
                }
            }
        }
        l = l + 1;
    }
    proof {
        if l < rc {
            assert(is_digit(s@[6 * l as int]));
        }
    }
    (t, l)
}

/// The pages of the update at `j`, and the offset after its newline.
fn read_update(s: &[u8], j: usize) -> (r: (Vec<usize>, usize))
    requires
        j < s@.len(),
        s@[s@.len() - 1] == 10,
        pages_section(s@, j as int),
    ensures
        r.0@.len() == pages_from(s@, j as int),
        forall|k: int| 0 <= k < r.0@.len() ==> r.0@[k] == page(s@, j as int, k) && r.0@[k] < 100,
        r.1 == j + 3 * pages_from(s@, j as int),
        r.1 <= s@.len(),
        pages_section(s@, r.1 as int),
        s@[r.1 - 1] == 10,
        forall|q: int| j <= q < r.1 - 1 ==> s@[q] != 10,
{
    let mut ps: Vec<usize> = Vec::new();
    let mut k = j;
    loop
        invariant_except_break
            pages_section(s@, k as int),
            k < s@.len(),
            pages_from(s@, j as int) == ps@.len() + pages_from(s@, k as int),
            forall|q: int| j <= q < k ==> s@[q] != 10,
        invariant
            j <= k,
            s@[s@.len() - 1] == 10,
            (k - j) % 3 == 0,
            ps@.len() == (k - j) / 3,
            forall|m: int| 0 <= m < ps@.len() ==> ps@[m] == page(s@, j as int, m) && ps@[m] < 100,
        ensures
            k == j + 3 * pages_from(s@, j as int),
            k <= s@.len(),
            pages_section(s@, k as int),
            s@[k - 1] == 10,
            ps@.len() == pages_from(s@, j as int),
            forall|m: int| 0 <= m < ps@.len() ==> ps@[m] == page(s@, j as int, m) && ps@[m] < 100,
            forall|q: int| j <= q < k - 1 ==> s@[q] != 10,
        decreases s@.len() - k,
    {
        let v = 10 * (s[k] - 48) as usize + (s[k + 1] - 48) as usize;
        proof {
            assert(page(s@, j as int, ps@.len() as int) == num2(s@, k as int)) by {
                assert(j + 3 * ps@.len() == k);
            }
        }
        ps.push(v);
        if s[k + 2] == 44 {
            k = k + 3;
            if k >= s.len() {
                proof {
                    assert(pages_section(s@, k as int));
                    assert(k == s@.len());
                    assert(s@[k - 1] == 44);
                    assert(false);
                }
            }
        } else {
            k = k + 3;
            break;
        }
    }
    (ps, k)
}

/// Whether the pages are in an order that breaks no rule.
fn ordered(t: &Vec<bool>, ps: &Vec<usize>, Ghost(s): Ghost<Seq<u8>>, Ghost(i): Ghost<int>) -> (b: bool)
    requires
        t@.len() == 10000,
        forall|a: int, b: int| 0 <= a < 100 && 0 <= b < 100 ==> t@[100 * a + b] == rule(s, a, b),
        ps@.len() == pages_from(s, i),
        forall|k: int| 0 <= k < ps@.len() ==> ps@[k] == page(s, i, k) && ps@[k] < 100,
    ensures
        b == in_order(s, i),
{
    let n = ps.len();
    let mut b: usize = 1;
    while b < n
        invariant
            t@.len() == 10000,
            forall|x: int, y: int| 0 <= x < 100 && 0 <= y < 100 ==> t@[100 * x + y] == rule(s, x, y),
            n == ps@.len() == pages_from(s, i),
            forall|k: int| 0 <= k < ps@.len() ==> ps@[k] == page(s, i, k) && ps@[k] < 100,
            1 <= b,
            forall|x: int, y: int| 0 <= x < y < b && y < n ==> !rule(s, page(s, i, y), page(s, i, x)),
        decreases n - b,
    {
        let mut a: usize = 0;
        while a < b
            invariant
                t@.len() == 10000,
                forall|x: int, y: int| 0 <= x < 100 && 0 <= y < 100 ==> t@[100 * x + y] == rule(s, x, y),
                n == ps@.len() == pages_from(s, i),
                forall|k: int| 0 <= k < ps@.len() ==> ps@[k] == page(s, i, k) && ps@[k] < 100,
                b < n,
                a <= b,
                forall|x: int, y: int| 0 <= x < y < b ==> !rule(s, page(s, i, y), page(s, i, x)),
                forall|x: int| 0 <= x < a ==> !rule(s, page(s, i, b as int), page(s, i, x)),
            decreases b - a,
        {
            if t[100 * ps[b] + ps[a]] {
                assert(rule(s, page(s, i, b as int), page(s, i, a as int)));
                return false;
            }
            a = a + 1;
        }
        b = b + 1;
    }
    true
}

/// The number of the pages that must follow page `k`.
fn count_followers(t: &Vec<bool>, ps: &Vec<usize>, k: usize, Ghost(s): Ghost<Seq<u8>>, Ghost(i): Ghost<int>) -> (c: usize)
    requires
        t@.len() == 10000,
        forall|a: int, b: int| 0 <= a < 100 && 0 <= b < 100 ==> t@[100 * a + b] == rule(s, a, b),
        ps@.len() == pages_from(s, i),
        forall|m: int| 0 <= m < ps@.len() ==> ps@[m] == page(s, i, m) && ps@[m] < 100,
        k < ps@.len(),
    ensures
        c == followers(s, i, k as int, ps@.len() as int),
{
    let mut c: usize = 0;
    let mut m: usize = 0;
    while m < ps.len()
        invariant
            t@.len() == 10000,
            forall|a: int, b: int| 0 <= a < 100 && 0 <= b < 100 ==> t@[100 * a + b] == rule(s, a, b),
            ps@.len() == pages_from(s, i),
            forall|x: int| 0 <= x < ps@.len() ==> ps@[x] == page(s, i, x) && ps@[x] < 100,
            k < ps@.len(),
            m <= ps@.len(),
            c == followers(s, i, k as int, m as int),
            c <= m,
        decreases ps@.len() - m,
    {
        if t[100 * ps[k] + ps[m]] {
            c = c + 1;
        }
        m = m + 1;
    }
    c
}

/// The middle page of the update once put in order.
fn middle_when_sorted(t: &Vec<bool>, ps: &Vec<usize>, Ghost(s): Ghost<Seq<u8>>, Ghost(i): Ghost<int>) -> (p: usize)
    requires
        t@.len() == 10000,
        forall|a: int, b: int| 0 <= a < 100 && 0 <= b < 100 ==> t@[100 * a + b] == rule(s, a, b),
        ps@.len() == pages_from(s, i),
        forall|m: int| 0 <= m < ps@.len() ==> ps@[m] == page(s, i, m) && ps@[m] < 100,
    ensures
        p == sorted_middle(s, i),
        p < 100,
{
    let n = ps.len();
    let mut k: usize = 0;
    while k < n
        invariant
            t@.len() == 10000,
            forall|a: int, b: int| 0 <= a < 100 && 0 <= b < 100 ==> t@[100 * a + b] == rule(s, a, b),
            n == ps@.len() == pages_from(s, i),
            forall|m: int| 0 <= m < ps@.len() ==> ps@[m] == page(s, i, m) && ps@[m] < 100,
            k <= n,
            forall|j: int| 0 <= j < k ==> followers(s, i, j, n as int) != n / 2,
        decreases n - k,
    {
        if count_followers(t, ps, k, Ghost(s), Ghost(i)) == n / 2 {
            proof {
                let w = choose|w: int| 0 <= w < n && followers(s, i, w, n as int) == n / 2 && forall|j: int|
                    0 <= j < w ==> followers(s, i, j, n as int) != n / 2;
                assert(w == k) by {
                    if w < k {
                        assert(followers(s, i, w, n as int) != n / 2);
                    }
                    if k < w {
                        assert(followers(s, i, k as int, n as int) != n / 2);
                    }
                }
            }
            return ps[k];
        }
        k = k + 1;
    }
    0
}

proof fn lemma_pages_from(s: Seq<u8>, j: int)
    ensures
        pages_from(s, j) >= 1,
    decreases s.len() - j,
{
    if j + 3 <= s.len() && s[j + 2] == 44 {
        lemma_pages_from(s, j + 3);
    }
}

/// Nothing is added before the first update.
proof fn lemma_sum_prefix(s: Seq<u8>, n: int, fixed: bool)
    requires
        n <= 6 * rule_count(s) + 1,
    ensures
        middle_sum(s, n, fixed) == 0,
    decreases n,
{
    if n > 0 {
        lemma_sum_prefix(s, n - 1, fixed);
    }
}

/// Nothing is added between two updates.
proof fn lemma_sum_skip(s: Seq<u8>, a: int, b: int, fixed: bool)
    requires
        a <= b,
        forall|q: int| a <= q < b ==> !update_start(s, q),
    ensures
        middle_sum(s, b, fixed) == middle_sum(s, a, fixed),
    decreases b - a,
{
    if a < b {
        lemma_sum_skip(s, a, b - 1, fixed);
    }
}

/// The sum of the middle pages of the updates in order (`!fixed`) or of the
/// reordered ones (`fixed`).
fn sum_middles(s: &[u8], fixed: bool) -> (r: u32)
    requires
        wf_input(s@),
    ensures
        r == middle_sum(s@, s@.len() as int, fixed),
{
    let (t, rc) = rule_table(s);
    proof {
        let r = choose|r: int| rules_section(s@, r);
        lemma_rule_count(s@, r);
    }
    let mut j = 6 * rc + 1;
    let mut total: u32 = 0;
    proof {
        lemma_sum_prefix(s@, j as int, fixed);
    }
    while j < s.len()
        invariant
            wf_input(s@),
            rc == rule_count(s@),
            6 * rc + 1 <= j <= s@.len(),
            s@[j - 1] == 10,
            pages_section(s@, j as int),
            t@.len() == 10000,
            forall|a: int, b: int| 0 <= a < 100 && 0 <= b < 100 ==> t@[100 * a + b] == rule(s@, a, b),
            total == middle_sum(s@, j as int, fixed),
            total <= 33 * j,
        decreases s@.len() - j,
    {
        let (ps, e) = read_update(s, j);
        proof {
            lemma_pages_from(s@, j as int);
            assert(update_start(s@, j as int));
        }
        let n = ps.len();
        let ok = ordered(&t, &ps, Ghost(s@), Ghost(j as int));
        let add: usize = if !fixed && ok {
            ps[n / 2]
        } else if fixed && !ok {
            middle_when_sorted(&t, &ps, Ghost(s@), Ghost(j as int))
        } else {
            0
        };
        proof {
            assert(middle_sum(s@, j + 1, fixed) == middle_sum(s@, j as int, fixed) + add);
            assert forall|q: int| j + 1 <= q < e implies !update_start(s@, q) by {
                assert(s@[q - 1] != 10);
            }
            lemma_sum_skip(s@, j + 1, e as int, fixed);
        }
        total = total + add as u32;
        j = e;
    }
    total
}

/// Part 1: the sum of the middle pages of the updates already in order.
pub fn part1(input: &str) -> (r: u32)
    requires
        wf_input(input.spec_bytes()),
    ensures
        r == middle_sum(input.spec_bytes(), input.spec_bytes().len() as int, false),
{
    sum_middles(input.as_bytes(), false)
}

/// Part 2: the sum of the middle pages of the other updates once put in order.
pub fn part2(input: &str) -> (r: u32)
    requires
        wf_input(input.spec_bytes()),
        total_orders(input.spec_bytes()),
    ensures
        r == middle_sum(input.spec_bytes(), input.spec_bytes().len() as int, true),
{
    sum_middles(input.as_bytes(), true)
}

/// The answer of part 2, as a signed number.
pub fn run(input: &str) -> (r: i64)
    requires
        wf_input(input.spec_bytes()),
        total_orders(input.spec_bytes()),
    ensures
        r == middle_sum(input.spec_bytes(), input.spec_bytes().len() as int, true),
{
    part2(input) as i64
}

} // verus!
