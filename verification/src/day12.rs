//! Garden groups: fence prices of the regions of a 140 x 140 garden.
use vstd::prelude::*;
use vstd::string::StringSliceAdditionalSpecFns;

verus! {

/// The number of bytes of the garden: 140 rows of 140 plots and a newline.
pub open spec fn size() -> int {
    19740
}

/// Offset `c` is a plot (not a newline).
pub open spec fn is_plot(c: int) -> bool {
    0 <= c < size() && c % 141 < 140
}

/// The offset next to `c` on side `k`: left, right, up, down.
pub open spec fn side(c: int, k: int) -> int {
    if k == 0 {
        c - 1
    } else if k == 1 {
        c + 1
    } else if k == 2 {
        c - 141
    } else {
        c + 141
    }
}

/// The side facing side `k`.
pub open spec fn facing(k: int) -> int {
    if k == 0 {
        1
    } else if k == 1 {
        0
    } else if k == 2 {
        3
    } else {
        2
    }
}

/// The plot `c` and the one on its side `k` grow the same plant.
pub open spec fn joined(s: Seq<u8>, c: int, k: int) -> bool {
    0 <= c < size() && 0 <= side(c, k) < size() && s[side(c, k)] == s[c]
}

/// The number of sides of plot `c` that need a fence.
pub open spec fn fence(s: Seq<u8>, c: int) -> int {
    (if joined(s, c, 0) {
        0int
    } else {
        1
    }) + (if joined(s, c, 1) {
        0int
    } else {
        1
    }) + (if joined(s, c, 2) {
        0int
    } else {
        1
    }) + (if joined(s, c, 3) {
        0int
    } else {
        1
    })
}

/// Plot `b` is reached from plot `a` in at most `n` steps between plots of
/// the same plant.
pub open spec fn linked(s: Seq<u8>, a: int, n: nat, b: int) -> bool
    decreases n,
{
    if n == 0 {
        b == a
    } else {
        linked(s, a, (n - 1) as nat, b) || exists|k: int|
            0 <= k < 4 && #[trigger] joined(s, b, k) && linked(s, a, (n - 1) as nat, side(b, k))
    }
}

/// Plots `a` and `b` are in the same region.
pub open spec fn connected(s: Seq<u8>, a: int, b: int) -> bool {
    exists|n: nat| #[trigger] linked(s, a, n, b)
}

/// The number of offsets below `n` in the region of `c`.
pub open spec fn area_below(s: Seq<u8>, c: int, n: int) -> int
    decreases n,
{
    if n <= 0 {
        0
    } else {
        area_below(s, c, n - 1) + if connected(s, c, n - 1) {
            1int
        } else {
            0
        }
    }
}

/// The area of the region of plot `c`.
pub open spec fn area(s: Seq<u8>, c: int) -> int {
    area_below(s, c, size())
}

/// The sum over the plots below `n` of the area of their region times their
/// fence sides: the price of all regions, area times perimeter.
pub open spec fn price(s: Seq<u8>, n: int) -> int
    decreases n,
{
    if n <= 0 {
        0
    } else {
        price(s, n - 1) + if is_plot(n - 1) {
            area(s, n - 1) * fence(s, n - 1)
        } else {
            0
        }
    }
}

/// 140 rows of 140 plots, each row ended by a newline and only there.
pub open spec fn wf_input(s: Seq<u8>) -> bool {
    &&& s.len() == size()
    &&& forall|p: int| 0 <= p < size() ==> (#[trigger] s[p] == 10 <==> p % 141 == 140)
}

proof fn lemma_facing(s: Seq<u8>, c: int, k: int)
    requires
        0 <= k < 4,
    ensures
        side(side(c, k), facing(k)) == c,
        0 <= facing(k) < 4,
        joined(s, c, k) ==> joined(s, side(c, k), facing(k)),
{
}

/// More steps reach at least the same plots.
proof fn lemma_linked_steps(s: Seq<u8>, a: int, m: nat, n: nat, b: int)
    requires
        m <= n,
        linked(s, a, m, b),
    ensures
        linked(s, a, n, b),
    decreases n - m,
{
    if m < n {
        lemma_linked_steps(s, a, m, (n - 1) as nat, b);
    }
}

/// A first step to a neighbour of the same plant can be put in front.
proof fn lemma_prepend(s: Seq<u8>, a: int, k: int, n: nat, b: int)
    requires
        0 <= a < size(),
        0 <= k < 4,
        joined(s, a, k),
        linked(s, side(a, k), n, b),
    ensures
        linked(s, a, n + 1, b),
    decreases n,
{
    lemma_facing(s, a, k);
    if n == 0 {
        assert(joined(s, b, facing(k)) && linked(s, a, 0, side(b, facing(k))));
    } else {
        let m = (n - 1) as nat;
        if linked(s, side(a, k), m, b) {
            lemma_prepend(s, a, k, m, b);
            lemma_linked_steps(s, a, n, n + 1, b);
        } else {
            let j = choose|j: int| 0 <= j < 4 && #[trigger] joined(s, b, j) && linked(s, side(a, k), m, side(b, j));
            lemma_prepend(s, a, k, m, side(b, j));
            assert(joined(s, b, j) && linked(s, a, n, side(b, j)));
        }
    }
}

/// Steps between plots of the same plant can be walked back.
proof fn lemma_symmetric(s: Seq<u8>, a: int, n: nat, b: int)
    requires
        0 <= a < size(),
        linked(s, a, n, b),
    ensures
        linked(s, b, n, a),
        0 <= b < size(),
    decreases n,
{
    if n > 0 {
        let m = (n - 1) as nat;
        if linked(s, a, m, b) {
            lemma_symmetric(s, a, m, b);
            lemma_linked_steps(s, b, m, n, a);
        } else {
            let k = choose|k: int| 0 <= k < 4 && #[trigger] joined(s, b, k) && linked(s, a, m, side(b, k));
            lemma_symmetric(s, a, m, side(b, k));
            lemma_prepend(s, b, k, m, a);
        }
    }
}

/// Two walks make one.
proof fn lemma_transitive(s: Seq<u8>, a: int, n: nat, b: int, m: nat, c: int)
    requires
        linked(s, a, n, b),
        linked(s, b, m, c),
    ensures
        linked(s, a, n + m, c),
    decreases m,
{
    if m == 0 {
        lemma_linked_steps(s, a, n, n + m, c);
    } else {
        let p = (m - 1) as nat;
        if linked(s, b, p, c) {
            lemma_transitive(s, a, n, b, p, c);
            lemma_linked_steps(s, a, n + p, n + m, c);
        } else {
            let k = choose|k: int| 0 <= k < 4 && #[trigger] joined(s, c, k) && linked(s, b, p, side(c, k));
            lemma_transitive(s, a, n, b, p, side(c, k));
            assert(joined(s, c, k) && linked(s, a, (n + m - 1) as nat, side(c, k)));
        }
    }
}

/// A region holds plots of one plant only.
proof fn lemma_same_plant(s: Seq<u8>, a: int, n: nat, b: int)
    requires
        wf_input(s),
        is_plot(a),
        linked(s, a, n, b),
    ensures
        is_plot(b),
        s[b] == s[a],
    decreases n,
{
    if n > 0 {
        let m = (n - 1) as nat;
        if linked(s, a, m, b) {
            lemma_same_plant(s, a, m, b);
        } else {
            let k = choose|k: int| 0 <= k < 4 && #[trigger] joined(s, b, k) && linked(s, a, m, side(b, k));
            lemma_same_plant(s, a, m, side(b, k));
            assert(s[side(b, k)] != 10);
        }
    }
}

/// Connected plots are of one plant; connection runs both ways and chains.
proof fn lemma_connected(s: Seq<u8>, a: int, b: int, c: int)
    requires
        wf_input(s),
        is_plot(a),
    ensures
        connected(s, a, b) ==> is_plot(b) && connected(s, b, a),
        connected(s, a, b) && connected(s, b, c) ==> connected(s, a, c),
{
    if connected(s, a, b) {
        let n = choose|n: nat| #[trigger] linked(s, a, n, b);
        lemma_same_plant(s, a, n, b);
        lemma_symmetric(s, a, n, b);
        if connected(s, b, c) {
            let m = choose|m: nat| #[trigger] linked(s, b, m, c);
            lemma_transitive(s, a, n, b, m, c);
        }
    }
}

/// Plot `e` of a marked set has all its neighbours of the same plant marked.
spec fn closed(s: Seq<u8>, mark: Seq<bool>, e: int) -> bool {
    forall|k: int| 0 <= k < 4 && #[trigger] joined(s, e, k) ==> mark[side(e, k)]
}

/// The offsets not marked in `v`.
spec fn unmarked(v: Seq<bool>) -> Set<int> {
    Set::new(|x: int| 0 <= x < v.len() && !v[x])
}

proof fn lemma_unmarked_shrinks(old: Seq<bool>, x: int)
    requires
        0 <= x < old.len(),
        !old[x],
    ensures
        unmarked(old.update(x, true)).len() < unmarked(old).len(),
{
    vstd::set_lib::lemma_int_range(0, old.len() as int);
    assert(unmarked(old).subset_of(vstd::set_lib::set_int_range(0, old.len() as int)));
    vstd::set_lib::lemma_len_subset(unmarked(old), vstd::set_lib::set_int_range(0, old.len() as int));
    assert(unmarked(old.update(x, true)) =~= unmarked(old).remove(x));
    vstd::set::axiom_set_remove_len(unmarked(old), x);
}

/// Everything connected to the start of a marked set closed under
/// neighbours of the same plant is marked.
proof fn lemma_closed_covers(s: Seq<u8>, mark: Seq<bool>, c: int, n: nat, e: int)
    requires
        mark.len() == size(),
        0 <= c < size(),
        mark[c],
        forall|x: int| 0 <= x < size() && mark[x] ==> #[trigger] closed(s, mark, x),
        linked(s, c, n, e),
    ensures
        0 <= e < size() && mark[e],
    decreases n,
{
    if n > 0 {
        let m = (n - 1) as nat;
        if linked(s, c, m, e) {
            lemma_closed_covers(s, mark, c, m, e);
        } else {
            let k = choose|k: int| 0 <= k < 4 && #[trigger] joined(s, e, k) && linked(s, c, m, side(e, k));
            let f = side(e, k);
            lemma_closed_covers(s, mark, c, m, f);
            lemma_facing(s, e, k);
            assert(closed(s, mark, f));
            assert(joined(s, f, facing(k)));
        }
    }
}

/// The neighbour of `x` on side `k`, if it lies in the garden.
fn side_exec(x: usize, k: usize) -> (r: Option<usize>)
    requires
        x < size(),
        k < 4,
    ensures
        r matches Some(y) ==> y == side(x as int, k as int) && y < size(),
        r is None ==> !(0 <= side(x as int, k as int) < size()),
{
    if k == 0 {
        if x >= 1 {
            Some(x - 1)
        } else {
            None
        }
    } else if k == 1 {
        if x + 1 < 19740 {
            Some(x + 1)
        } else {
            None
        }
    } else if k == 2 {
        if x >= 141 {
            Some(x - 141)
        } else {
            None
        }
    } else {
        if x + 141 < 19740 {
            Some(x + 141)
        } else {
            None
        }
    }
}

/// The region of plot `c`, as a table of the offsets in it.
fn region(s: &[u8], c: usize) -> (r: Vec<bool>)
    requires
        wf_input(s@),
        is_plot(c as int),
    ensures
        r@.len() == size(),
        forall|e: int| 0 <= e < size() ==> (r@[e] <==> connected(s@, c as int, e)),
{
    let mut mark: Vec<bool> = vec![false; 19740];
    let mut stack: Vec<usize> = Vec::new();
    mark.set(c, true);
    stack.push(c);
    proof {
        assert(linked(s@, c as int, 0, c as int));
        assert(stack@[0] == c);
    }
    while stack.len() > 0
        invariant
            wf_input(s@),
            is_plot(c as int),
            mark@.len() == size(),
            mark@[c as int],
            forall|e: int| 0 <= e < size() && mark@[e] ==> connected(s@, c as int, e),
            forall|e: int|
                0 <= e < size() && mark@[e] ==> stack@.contains(e as usize) || #[trigger] closed(s@, mark@, e),
            forall|i: int| 0 <= i < stack@.len() ==> stack@[i] < size() && mark@[stack@[i] as int],
        decreases unmarked(mark@).len(), stack@.len(),
    {
        let ghost pre = stack@;
        let x = stack.pop().unwrap();
        let ghost popped = stack@;
        let ghost before = mark@;
        proof {
            assert(pre == popped.push(x));
            assert(pre[pre.len() - 1] == x);
        }
        let mut k: usize = 0;
        while k < 4
            invariant
                wf_input(s@),
                is_plot(c as int),
                x < size(),
                before.len() == size(),
                mark@.len() == size(),
                mark@[c as int],
                mark@[x as int],
                k <= 4,
                forall|e: int| 0 <= e < size() && before[e] ==> mark@[e],
                forall|e: int| 0 <= e < size() && mark@[e] ==> connected(s@, c as int, e),
                stack@.len() >= popped.len(),
                forall|i: int| 0 <= i < popped.len() ==> stack@[i] == popped[i],
                forall|e: int|
                    0 <= e < size() && mark@[e] && !before[e] ==> exists|i: int|
                        popped.len() <= i < stack@.len() && stack@[i] == e,
                forall|i: int| 0 <= i < stack@.len() ==> stack@[i] < size() && mark@[stack@[i] as int],
                forall|j: int| 0 <= j < k && #[trigger] joined(s@, x as int, j) ==> mark@[side(x as int, j)],
                unmarked(mark@).len() <= unmarked(before).len(),
                unmarked(mark@).len() == unmarked(before).len() ==> stack@.len() == popped.len(),
            decreases 4 - k,
        {
            match side_exec(x, k) {
                Some(y) => {
                    if s[y] == s[x] && !mark[y] {
                        proof {
                            let n = choose|n: nat| #[trigger] linked(s@, c as int, n, x as int);
                            lemma_facing(s@, x as int, k as int);
                            assert(joined(s@, y as int, facing(k as int)));
                            assert(linked(s@, c as int, n + 1, y as int));
                            lemma_unmarked_shrinks(mark@, y as int);
                        }
                        let ghost st0 = stack@;
                        let ghost m0 = mark@;
                        mark.set(y, true);
                        stack.push(y);
                        proof {
                            assert(stack@[st0.len() as int] == y);
                            assert forall|e: int|
                                0 <= e < size() && mark@[e] && !before[e] implies exists|i: int|
                                    popped.len() <= i < stack@.len() && stack@[i] == e by {
                                if e == y {
                                    assert(stack@[st0.len() as int] == e);
                                } else {
                                    assert(m0[e]);
                                    let i = choose|i: int| popped.len() <= i < st0.len() && st0[i] == e;
                                    assert(stack@[i] == e);
                                }
                            }
                        }
                    }
                },
                None => {},
            }
            k = k + 1;
        }
        proof {
            assert forall|e: int|
                0 <= e < size() && mark@[e] implies stack@.contains(e as usize) || #[trigger] closed(s@, mark@, e) by {
                if e == x {
                    assert(closed(s@, mark@, e));
                } else if !before[e] {
                    let i = choose|i: int| popped.len() <= i < stack@.len() && stack@[i] == e;
                    assert(stack@[i] == e as usize);
                } else if pre.contains(e as usize) {
                    let i = choose|i: int| 0 <= i < pre.len() && pre[i] == e as usize;
                    assert(i < popped.len());
                    assert(stack@[i] == popped[i]);
                } else {
                    assert(closed(s@, before, e));
                    assert forall|j: int| 0 <= j < 4 && #[trigger] joined(s@, e, j) implies mark@[side(e, j)] by {
                        assert(before[side(e, j)]);
                    }
                }
            }
        }
    }
    proof {
        assert forall|x: int| 0 <= x < size() && mark@[x] implies #[trigger] closed(s@, mark@, x) by {
            assert(!stack@.contains(x as usize));
        }
        assert forall|e: int| 0 <= e < size() && connected(s@, c as int, e) implies mark@[e] by {
            let n = choose|n: nat| #[trigger] linked(s@, c as int, n, e);
            lemma_closed_covers(s@, mark@, c as int, n, e);
        }
    }
    mark
}

/// The number of marked offsets below `n`.
spec fn count_marked(v: Seq<bool>, n: int) -> int
    decreases n,
{
    if n <= 0 {
        0
    } else {
        count_marked(v, n - 1) + if v[n - 1] {
            1int
        } else {
            0
        }
    }
}

/// The fence sides of the marked plots below `n`.
spec fn fence_sum(s: Seq<u8>, v: Seq<bool>, n: int) -> int
    decreases n,
{
    if n <= 0 {
        0
    } else {
        fence_sum(s, v, n - 1) + if v[n - 1] {
            fence(s, n - 1)
        } else {
            0
        }
    }
}

/// The price of the marked plots below `n`.
spec fn weighted(s: Seq<u8>, v: Seq<bool>, n: int) -> int
    decreases n,
{
    if n <= 0 {
        0
    } else {
        weighted(s, v, n - 1) + if v[n - 1] {
            area(s, n - 1) * fence(s, n - 1)
        } else {
            0
        }
    }
}

proof fn lemma_weighted_none(s: Seq<u8>, v: Seq<bool>, n: int)
    requires
        forall|e: int| 0 <= e < n ==> !v[e],
    ensures
        weighted(s, v, n) == 0,
    decreases n,
{
    if n > 0 {
        lemma_weighted_none(s, v, n - 1);
    }
}

proof fn lemma_weighted_union(s: Seq<u8>, u: Seq<bool>, v: Seq<bool>, w: Seq<bool>, n: int)
    requires
        forall|e: int| 0 <= e < n ==> u[e] == (v[e] || w[e]),
        forall|e: int| 0 <= e < n ==> !(v[e] && w[e]),
    ensures
        weighted(s, u, n) == weighted(s, v, n) + weighted(s, w, n),
    decreases n,
{
    if n > 0 {
        lemma_weighted_union(s, u, v, w, n - 1);
    }
}

proof fn lemma_weighted_region(s: Seq<u8>, v: Seq<bool>, a: int, n: int)
    requires
        forall|e: int| 0 <= e < n && v[e] ==> area(s, e) == a,
    ensures
        weighted(s, v, n) == a * fence_sum(s, v, n),
    decreases n,
{
    if n > 0 {
        lemma_weighted_region(s, v, a, n - 1);
        if v[n - 1] {
            assert(a * fence_sum(s, v, n - 1) + a * fence(s, n - 1) == a * (fence_sum(s, v, n - 1) + fence(
                s,
                n - 1,
            ))) by (nonlinear_arith);
        }
    }
}

proof fn lemma_area_region(s: Seq<u8>, e: int, v: Seq<bool>, n: int)
    requires
        forall|x: int| 0 <= x < n ==> (v[x] <==> connected(s, e, x)),
    ensures
        area_below(s, e, n) == count_marked(v, n),
    decreases n,
{
    if n > 0 {
        lemma_area_region(s, e, v, n - 1);
    }
}

proof fn lemma_same_marks(s: Seq<u8>, v: Seq<bool>, n: int)
    requires
        forall|e: int| 0 <= e < n ==> (v[e] <==> is_plot(e)),
    ensures
        weighted(s, v, n) == price(s, n),
    decreases n,
{
    if n > 0 {
        lemma_same_marks(s, v, n - 1);
    }
}

proof fn lemma_count_bound(v: Seq<bool>, n: int)
    requires
        0 <= n,
    ensures
        0 <= count_marked(v, n) <= n,
    decreases n,
{
    if n > 0 {
        lemma_count_bound(v, n - 1);
    }
}

proof fn lemma_area_bound(s: Seq<u8>, c: int, n: int)
    requires
        0 <= n,
    ensures
        0 <= area_below(s, c, n) <= n,
    decreases n,
{
    if n > 0 {
        lemma_area_bound(s, c, n - 1);
    }
}

proof fn lemma_weighted_bound(s: Seq<u8>, v: Seq<bool>, n: int)
    requires
        0 <= n,
    ensures
        0 <= weighted(s, v, n) <= n * (4 * size()),
    decreases n,
{
    if n > 0 {
        lemma_weighted_bound(s, v, n - 1);
        lemma_area_bound(s, n - 1, size());
        assert(area(s, n - 1) * fence(s, n - 1) <= 4 * size()) by (nonlinear_arith)
            requires
                0 <= area(s, n - 1) <= size(),
                0 <= fence(s, n - 1) <= 4,
        ;
        assert((n - 1) * (4 * size()) + 4 * size() == n * (4 * size())) by (nonlinear_arith);
    }
}

/// The number of fence sides of plot `c`, computed.
fn fence_exec(s: &[u8], c: usize) -> (f: u64)
    requires
        wf_input(s@),
        c < size(),
    ensures
        f == fence(s@, c as int),
{
    let mut f: u64 = 0;
    let mut k: usize = 0;
    while k < 4
        invariant
            wf_input(s@),
            c < size(),
            k <= 4,
            f == 4 - k + fence(s@, c as int) - (4 - k) - ((if k <= 0 && !joined(s@, c as int, 0) {
                1int
            } else {
                0
            }) + (if k <= 1 && !joined(s@, c as int, 1) {
                1int
            } else {
                0
            }) + (if k <= 2 && !joined(s@, c as int, 2) {
                1int
            } else {
                0
            }) + (if k <= 3 && !joined(s@, c as int, 3) {
                1int
            } else {
                0
            })),
        decreases 4 - k,
    {
        let same = match side_exec(c, k) {
            Some(y) => s[y] == s[c],
            None => false,
        };
        if !same {
            f = f + 1;
        }
        k = k + 1;
    }
    f
}

/// Part 1: the price of all regions, area times perimeter.
pub fn part1(input: &str) -> (r: u64)
    requires
        wf_input(input.spec_bytes()),
    ensures
        r == price(input.spec_bytes(), size()),
{
    let s = input.as_bytes();
    let ghost g = s@;
    let mut seen: Vec<bool> = vec![false; 19740];
    let mut tot: u64 = 0;
    let mut d: usize = 0;
    proof {
        lemma_weighted_none(g, seen@, size());
    }
    while d < 19740
        invariant
            wf_input(g),
            g == s@,
            g == input.spec_bytes(),
            d <= size(),
            seen@.len() == size(),
            forall|e: int| 0 <= e < size() && seen@[e] ==> is_plot(e),
            forall|e: int| 0 <= e < d && is_plot(e) ==> seen@[e],
            forall|a: int, b: int|
                0 <= a < size() && 0 <= b < size() && seen@[a] && #[trigger] connected(g, a, b) ==> seen@[b],
            tot == weighted(g, seen@, size()),
        decreases size() - d,
    {
        if d % 141 < 140 && !seen[d] {
            let comp = region(s, d);
            let mut a: u64 = 0;
            let mut f: u64 = 0;
            let mut e: usize = 0;
            while e < 19740
                invariant
                    wf_input(g),
                    g == s@,
                    comp@.len() == size(),
                    e <= size(),
                    a == count_marked(comp@, e as int),
                    f == fence_sum(g, comp@, e as int),
                    a <= e,
                    f <= 4 * e,
                decreases size() - e,
            {
                if comp[e] {
                    a = a + 1;
                    f = f + fence_exec(s, e);
                }
                e = e + 1;
            }
            proof {
                lemma_connected(g, d as int, d as int, d as int);
                assert(linked(g, d as int, 0, d as int));
                assert forall|x: int| 0 <= x < size() && comp@[x] implies area(g, x) == a by {
                    assert forall|y: int| 0 <= y < size() implies (comp@[y] <==> connected(g, x, y)) by {
                        lemma_connected(g, d as int, x, y);
                        lemma_connected(g, x, d as int, y);
                        lemma_connected(g, d as int, x, x);
                    }
                    lemma_area_region(g, x, comp@, size());
                }
                lemma_weighted_region(g, comp@, a as int, size());
                assert forall|x: int| 0 <= x < size() implies !(seen@[x] && comp@[x]) by {
                    if seen@[x] && comp@[x] {
                        lemma_connected(g, d as int, x, x);
                        assert(connected(g, x, d as int));
                    }
                }
                assert(a * f <= size() * (4 * size())) by (nonlinear_arith)
                    requires
                        a <= size(),
                        f <= 4 * size(),
                ;
                lemma_weighted_bound(g, seen@, size());
            }
            let ghost old_seen = seen@;
            let mut j: usize = 0;
            while j < 19740
                invariant
                    old_seen.len() == size(),
                    comp@.len() == size(),
                    seen@.len() == size(),
                    j <= size(),
                    forall|x: int| 0 <= x < j ==> #[trigger] seen@[x] == (old_seen[x] || comp@[x]),
                    forall|x: int| j <= x < size() ==> #[trigger] seen@[x] == old_seen[x],
                decreases size() - j,
            {
                let ghost prev = seen@;
                if comp[j] {
                    seen.set(j, true);
                }
                proof {
                    assert forall|x: int| 0 <= x < j + 1 implies #[trigger] seen@[x] == (old_seen[x] || comp@[x]) by {
                        if x < j {
                            assert(seen@[x] == prev[x]);
                        }
                    }
                    assert forall|x: int| j + 1 <= x < size() implies seen@[x] == old_seen[x] by {
                        assert(seen@[x] == prev[x]);
                    }
                }
                j = j + 1;
            }
            proof {
                lemma_weighted_union(g, seen@, old_seen, comp@, size());
                assert forall|x: int| 0 <= x < size() && comp@[x] implies is_plot(x) by {
                    lemma_connected(g, d as int, x, x);
                }
                assert forall|x: int, y: int|
                    0 <= x < size() && 0 <= y < size() && seen@[x] && #[trigger] connected(g, x, y) implies seen@[y] by {
                    if comp@[x] {
                        lemma_connected(g, d as int, x, y);
                    } else {
                        assert(old_seen[x]);
                        assert(old_seen[y]);
                    }
                }
            }
            tot = tot + a * f;
        }
        d = d + 1;
    }
    proof {
        lemma_same_marks(g, seen@, size());
    }
    tot
}

/// Part 2: the price by sides is not computed; the answer is always 0.
pub fn part2(input: &str) -> (r: u64)
    ensures
        r == 0,
{
    0
}

/// The answer of part 2, as a signed number.
pub fn run(input: &str) -> (r: i64)
    ensures
        r == 0,
{
    part2(input) as i64
}

} // verus!
