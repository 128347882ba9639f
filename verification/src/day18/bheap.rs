//! A binary max-heap kept in the front of a vector: each element is at
//! least the two after it at `2 * i + 1` and `2 * i + 2`.
use vstd::prelude::*;

verus! {

/// The parent of position `i`.
pub open spec fn parent(i: int) -> int {
    (i - 1) / 2
}

/// The first `n` elements of `h` form a max-heap.
pub open spec fn is_heap(h: Seq<u16>, n: int) -> bool {
    forall|i: int| 1 <= i < n ==> h[parent(i)] >= #[trigger] h[i]
}

/// The first element of a max-heap is its largest.
pub proof fn lemma_root_max(h: Seq<u16>, n: int, i: int)
    requires
        is_heap(h, n),
        0 <= i < n,
    ensures
        h[0] >= h[i],
    decreases i,
{
    if i > 0 {
        lemma_root_max(h, n, parent(i));
    }
}

/// Exchanging two elements keeps the multiset.
proof fn lemma_swap_multiset(s: Seq<u16>, i: int, j: int)
    requires
        0 <= i < s.len(),
        0 <= j < s.len(),
    ensures
        s.update(i, s[j]).update(j, s[i]).to_multiset() == s.to_multiset(),
{
    broadcast use vstd::multiset::group_multiset_axioms;

    let t = s.update(i, s[j]);
    if i == j {
        assert(t =~= s);
        assert(t.update(j, s[i]) =~= s);
    } else {
        vstd::seq_lib::to_multiset_update(s, i, s[j]);
        vstd::seq_lib::to_multiset_update(t, j, s[i]);
        assert(t[j] == s[j]);
        assert(s.contains(s[i]));
        vstd::seq_lib::to_multiset_contains(s, s[i]);
        let m = s.to_multiset();
        assert(m.count(s[i]) > 0);
        assert(m.insert(s[j]).remove(s[i]).insert(s[i]).remove(s[j]) =~= m);
    }
}

/// Where the value `x` of the hole at `h` ends up when it moves up past
/// smaller parents: each such parent moves down into the hole.
pub open spec fn sifted_up(a: Seq<u16>, h: int, x: u16) -> Seq<u16>
    decreases h,
{
    if h > 0 && x > a[parent(h)] {
        sifted_up(a.update(h, a[parent(h)]), parent(h), x)
    } else {
        a.update(h, x)
    }
}

/// The hole at `h` among the first `end` elements moved to the bottom: while
/// it has two children the larger one (the second on a tie) moves up into
/// it, then an only child does. Gives the elements and the last hole.
pub open spec fn sifted_down(a: Seq<u16>, end: int, h: int) -> (Seq<u16>, int)
    decreases end - h,
{
    if 0 <= h && 2 * h + 2 < end {
        let c = if a[2 * h + 1] <= a[2 * h + 2] {
            2 * h + 2
        } else {
            2 * h + 1
        };
        sifted_down(a.update(h, a[c]), end, c)
    } else if 0 <= h && 2 * h + 1 == end - 1 {
        (a.update(h, a[2 * h + 1]), 2 * h + 1)
    } else {
        (a, h)
    }
}

/// The elements after a pop: with more than one, the hole left by the first
/// goes to the bottom and the last element moves up from there; else they
/// stay as they are.
#[verifier::opaque]
pub open spec fn popped(a: Seq<u16>) -> Seq<u16> {
    if a.len() > 1 {
        let d = sifted_down(a, a.len() - 1, 0);
        sifted_up(d.0, d.1, a[a.len() - 1])
    } else {
        a
    }
}

/// The elements after a push: the last one moves up past smaller parents.
#[verifier::opaque]
pub open spec fn pushed(a: Seq<u16>) -> Seq<u16> {
    sifted_up(a, a.len() - 1, a[a.len() - 1])
}

/// The state of a sift with the hole at `h`, whose value would be `x`: the
/// elements before `n` with `x` at the hole make up `whole`, and every
/// parent not next to the hole is at least its child.
pub open spec fn hole_ok(a: Seq<u16>, n: int, h: int, x: u16, whole: Seq<u16>) -> bool {
    &&& 0 <= h < n <= a.len()
    &&& a.update(h, x).subrange(0, n).to_multiset() == whole.to_multiset()
    &&& forall|i: int| 1 <= i < n && i != h && parent(i) != h ==> a[parent(i)] >= #[trigger] a[i]
}

/// Moving the value at `c` into the hole at `h` moves the hole to `c`.
proof fn lemma_move_hole(a: Seq<u16>, n: int, h: int, c: int, x: u16, whole: Seq<u16>)
    requires
        hole_ok(a, n, h, x, whole),
        0 <= c < n,
    ensures
        a.update(h, a[c]).update(c, x).subrange(0, n).to_multiset() == whole.to_multiset(),
{
    let b = a.update(h, x);
    assert(a.update(h, a[c]).update(c, x) =~= b.update(h, b[c]).update(c, b[h])) by {
        if c == h {
        }
    }
    assert(b.update(h, b[c]).update(c, b[h]).subrange(0, n) =~= b.subrange(0, n).update(h, b[c]).update(c, b[h]));
    lemma_swap_multiset(b.subrange(0, n), h, c);
    assert(b.subrange(0, n)[h] == b[h]);
    assert(b.subrange(0, n)[c] == b[c]);
}

/// Moving the larger child `c` of the hole up keeps the sift going down.
proof fn lemma_sift_down_step(a: Seq<u16>, n: int, h: int, c: int, x: u16, whole: Seq<u16>)
    requires
        hole_ok(a, n, h, x, whole),
        h > 0 ==> forall|i: int| 1 <= i < n && parent(i) == h ==> a[parent(h)] >= #[trigger] a[i],
        c == 2 * h + 1 || c == 2 * h + 2,
        c < n,
        forall|i: int| 1 <= i < n && parent(i) == h ==> a[c] >= #[trigger] a[i],
    ensures
        hole_ok(a.update(h, a[c]), n, c, x, whole),
        forall|i: int| 1 <= i < n && parent(i) == c ==> a.update(h, a[c])[parent(c)] >= #[trigger] a.update(h, a[c])[i],
{
    let a2 = a.update(h, a[c]);
    lemma_move_hole(a, n, h, c, x, whole);
    assert(parent(c) == h);
    assert forall|i: int| 1 <= i < n && i != c && parent(i) != c implies a2[parent(i)] >= #[trigger] a2[i] by {
        if i == h {
            assert(a[parent(h)] >= a[c]);
        } else if parent(i) == h {
        } else {
            assert(a[parent(i)] >= a[i]);
        }
    }
    assert forall|i: int| 1 <= i < n && parent(i) == c implies a2[parent(c)] >= #[trigger] a2[i] by {
        assert(i != h);
        assert(a[parent(i)] >= a[i]);
    }
}

/// Taking out the first element of a heap leaves a hole at the front, to be
/// filled by the last element.
proof fn lemma_pop_start(a: Seq<u16>, end: int)
    requires
        1 <= end,
        end + 1 == a.len(),
        is_heap(a, a.len() as int),
    ensures
        hole_ok(a, end, 0, a[end], a.subrange(1, end + 1)),
{
    broadcast use vstd::seq_lib::group_to_multiset_ensures;

    let x = a[end];
    let mid = a.subrange(1, end);
    let b = a.update(0, x);
    assert(b.subrange(0, end) =~= seq![x] + mid);
    assert(a.subrange(1, end + 1) =~= mid + seq![x]);
    vstd::seq_lib::lemma_seq_union_to_multiset_commutative(seq![x], mid);
    assert(b.update(0, x) =~= b);
    assert forall|i: int| 1 <= i < end && i != 0 && parent(i) != 0 implies a[parent(i)] >= #[trigger] a[i] by {
    }
}

/// Moves the value `x` of the hole at `hole` up past smaller parents and
/// writes it where it stops: the first `n` elements become a max-heap.
fn sift_up(heap: &mut Vec<u16>, n: usize, hole: usize, x: u16, Ghost(whole): Ghost<Seq<u16>>)
    requires
        hole < n <= old(heap)@.len(),
        old(heap)@.update(hole as int, x).subrange(0, n as int).to_multiset() == whole.to_multiset(),
        forall|i: int|
            1 <= i < n && i != hole && parent(i) != hole ==> old(heap)@[parent(i)] >= #[trigger] old(heap)@[i],
        forall|i: int| 1 <= i < n && parent(i) == hole ==> x >= #[trigger] old(heap)@[i],
        hole > 0 ==> forall|i: int|
            1 <= i < n && parent(i) == hole ==> old(heap)@[parent(hole as int)] >= #[trigger] old(heap)@[i],
    ensures
        final(heap)@.len() == old(heap)@.len(),
        is_heap(final(heap)@, n as int),
        final(heap)@.subrange(0, n as int).to_multiset() == whole.to_multiset(),
        forall|i: int| n <= i < old(heap)@.len() ==> final(heap)@[i] == old(heap)@[i],
        final(heap)@ == sifted_up(old(heap)@, hole as int, x),
{
    let mut h = hole;
    let ghost len = heap@.len();
    let ghost tail = heap@;
    while h > 0 && x > heap[(h - 1) / 2]
        invariant
            h < n <= heap@.len(),
            heap@.len() == len,
            heap@.update(h as int, x).subrange(0, n as int).to_multiset() == whole.to_multiset(),
            forall|i: int| 1 <= i < n && i != h && parent(i) != h ==> heap@[parent(i)] >= #[trigger] heap@[i],
            forall|i: int| 1 <= i < n && parent(i) == h ==> x >= #[trigger] heap@[i],
            h > 0 ==> forall|i: int| 1 <= i < n && parent(i) == h ==> heap@[parent(h as int)] >= #[trigger] heap@[i],
            forall|i: int| n <= i < len ==> heap@[i] == tail[i],
            sifted_up(heap@, h as int, x) == sifted_up(tail, hole as int, x),
        decreases h,
    {
        let p = (h - 1) / 2;
        let ghost a = heap@;
        let v = heap[p];
        heap.set(h, v);
        proof {
            let b = a.update(h as int, x);
            assert(heap@.update(p as int, x) =~= b.update(h as int, b[p as int]).update(p as int, b[h as int]));
            lemma_swap_multiset(b, h as int, p as int);
            assert(heap@.update(p as int, x).subrange(0, n as int) =~= b.update(h as int, b[p as int]).update(
                p as int,
                b[h as int],
            ).subrange(0, n as int));
            assert(b.update(h as int, b[p as int]).update(p as int, b[h as int]).subrange(0, n as int)
                =~= b.subrange(0, n as int).update(h as int, b[p as int]).update(p as int, b[h as int]));
            lemma_swap_multiset(b.subrange(0, n as int), h as int, p as int);
            assert(b.subrange(0, n as int)[h as int] == b[h as int]);
            assert(b.subrange(0, n as int)[p as int] == b[p as int]);
            assert forall|i: int| 1 <= i < n && i != p && parent(i) != p implies heap@[parent(i)] >= #[trigger] heap@[i] by {
                if i == h {
                } else if parent(i) == h {
                    assert(a[parent(h as int)] >= a[i]);
                } else {
                    assert(a[parent(i)] >= a[i]);
                }
            }
            assert forall|i: int| 1 <= i < n && parent(i) == p implies x >= #[trigger] heap@[i] by {
                if i != h {
                    assert(a[parent(i)] >= a[i]);
                }
            }
            if p > 0 {
                assert forall|i: int| 1 <= i < n && parent(i) == p implies heap@[parent(p as int)] >= #[trigger] heap@[i] by {
                    assert(a[parent(p as int)] >= a[p as int]);
                    if i != h {
                        assert(a[parent(i)] >= a[i]);
                    }
                }
            }
        }
        h = p;
    }
    heap.set(h, x);
}

/// The first child of the hole `h` among the first `end` elements, or
/// `end` if it has none.
fn first_child(h: usize, end: usize) -> (c: usize)
    ensures
        c == if 2 * h + 1 <= end {
            2 * h + 1
        } else {
            end as int
        },
{
    if h <= end / 2 && 2 * h + 1 <= end {
        2 * h + 1
    } else {
        end
    }
}

/// Adds the last element of `heap` to the max-heap of the elements before it:
/// it moves up past smaller parents.
pub fn push(heap: &mut Vec<u16>)
    requires
        1 <= old(heap)@.len(),
        is_heap(old(heap)@, old(heap)@.len() - 1),
    ensures
        final(heap)@ == pushed(old(heap)@),
        final(heap)@.len() == old(heap)@.len(),
        is_heap(final(heap)@, final(heap)@.len() as int),
        final(heap)@.to_multiset() == old(heap)@.to_multiset(),
{
    let ghost whole = heap@;
    let n = heap.len();
    let x = heap[n - 1];
    proof {
        assert(heap@.update(n - 1, x) =~= heap@);
        assert(heap@.subrange(0, n as int) =~= heap@);
    }
    sift_up(heap, n, n - 1, x, Ghost(whole));
    proof {
        assert(heap@.subrange(0, n as int) =~= heap@);
        reveal(pushed);
    }
}

/// Removes the largest element, the first, from the max-heap `heap`: the
/// hole it leaves goes to the bottom, each time taking the larger child up,
/// and the last element moves up from there. The elements before the last
/// become a max-heap of the others; the last is left as it was.
#[verifier::rlimit(40)]
pub fn pop(heap: &mut Vec<u16>)
    requires
        is_heap(old(heap)@, old(heap)@.len() as int),
    ensures
        final(heap)@ == popped(old(heap)@),
        final(heap)@.len() == old(heap)@.len(),
        old(heap)@.len() >= 1 ==> is_heap(final(heap)@, final(heap)@.len() - 1),
        old(heap)@.len() >= 1 ==> final(heap)@.subrange(0, final(heap)@.len() - 1).to_multiset() == old(
            heap,
        )@.subrange(1, old(heap)@.len() as int).to_multiset(),
        old(heap)@.len() >= 1 ==> final(heap)@[final(heap)@.len() - 1] == old(heap)@[old(heap)@.len() - 1],
{
    if heap.len() > 1 {
        let ghost old_heap = heap@;
        let end = heap.len() - 1;
        let x = heap[end];
        let ghost whole = old_heap.subrange(1, old_heap.len() as int);
        let mut h: usize = 0;
        let mut child: usize = first_child(0, end);
        proof {
            lemma_pop_start(old_heap, end as int);
        }
        while child < end - 1
            invariant
                end + 1 == heap@.len(),
                heap@.len() == old_heap.len(),
                end >= 1,
                h < end,
                child == if 2 * h + 1 <= end {
                    2 * h + 1
                } else {
                    end as int
                },
                heap@[end as int] == old_heap[end as int],
                hole_ok(heap@, end as int, h as int, x, whole),
                h > 0 ==> forall|i: int| 1 <= i < end && parent(i) == h ==> heap@[parent(h as int)] >= #[trigger] heap@[i],
                sifted_down(heap@, end as int, h as int) == sifted_down(old_heap, end as int, 0),
            decreases end - h,
        {
            let c = if heap[child] <= heap[child + 1] {
                child + 1
            } else {
                child
            };
            let ghost a = heap@;
            proof {
                assert forall|i: int| 1 <= i < end && parent(i) == h implies a[c as int] >= #[trigger] a[i] by {
                    assert(i == child || i == child + 1);
                }
                lemma_sift_down_step(a, end as int, h as int, c as int, x, whole);
            }
            let v = heap[c];
            heap.set(h, v);
            proof {
                assert(child == 2 * h + 1);
                assert(sifted_down(a, end as int, h as int) == sifted_down(heap@, end as int, c as int));
            }
            h = c;
            child = first_child(h, end);
        }
        if child == end - 1 {
            let ghost a = heap@;
            proof {
                assert forall|i: int| 1 <= i < end && parent(i) == h implies a[child as int] >= #[trigger] a[i] by {
                    assert(i == child);
                }
                lemma_sift_down_step(a, end as int, h as int, child as int, x, whole);
            }
            let v = heap[child];
            heap.set(h, v);
            proof {
                assert(child == 2 * h + 1);
                assert(sifted_down(a, end as int, h as int) == (heap@, child as int));
            }
            h = child;
        } else {
            proof {
                assert(sifted_down(heap@, end as int, h as int) == (heap@, h as int));
            }
        }
        proof {
            assert(sifted_down(old_heap, end as int, 0) == (heap@, h as int));
            assert forall|i: int| 1 <= i < end implies parent(i) != h by {
                if parent(i) == h {
                    assert(i >= 2 * h + 1);
                }
            }
        }
        sift_up(heap, end, h, x, Ghost(whole));
        proof {
            reveal(popped);
        }
    } else {
        proof {
            reveal(popped);
        }
        assert(heap@.len() == 1 ==> heap@.subrange(0, 0) =~= heap@.subrange(1, 1));
    }
}

} // verus!
