//! Reindeer maze: the cost of the cheapest way the search finds from the
//! start to the end, and the two-bit encoding of the four headings.
//!
//! The maze is 141 rows of 141 cells, each row followed by its newline, so a
//! step up or down moves 142 bytes. The start is in the lower left corner,
//! the end in the upper right. Left is `00`, right `11`, up `10` and down
//! `01`: opposite headings differ in both bits, perpendicular ones in one.
use vstd::prelude::*;
use vstd::string::StringSliceAdditionalSpecFns;

verus! {

/// A heading, by its two-bit code.
#[derive(Clone, Copy)]
pub struct DirId(pub u16);

/// The code of the left heading.
pub open spec fn left() -> u16 {
    0
}

/// The code of the right heading.
pub open spec fn right() -> u16 {
    3
}

/// The code of the up heading.
pub open spec fn up() -> u16 {
    2
}

/// The code of the down heading.
pub open spec fn down() -> u16 {
    1
}

/// `d` is one of the four codes.
pub open spec fn valid(d: DirId) -> bool {
    d.0 < 4
}

/// The heading opposite to code `c`.
pub open spec fn opposite(c: u16) -> u16 {
    if c == left() {
        right()
    } else if c == right() {
        left()
    } else if c == up() {
        down()
    } else {
        up()
    }
}

/// Code `c` is a vertical heading.
pub open spec fn vertical(c: u16) -> bool {
    c == up() || c == down()
}

impl DirId {
    /// The low bit of the code, which tells the two headings of an axis apart.
    pub fn parity(self) -> (r: usize)
        requires
            valid(self),
        ensures
            r == self.0 % 2,
    {
        let c = self.0;
        assert((c & 1) == c % 2) by (bit_vector);
        (c & 1) as usize
    }

    /// 1 for the vertical headings, 0 for the horizontal ones.
    pub fn kind(self) -> (r: u16)
        requires
            valid(self),
        ensures
            r == if vertical(self.0) {
                1u16
            } else {
                0u16
            },
    {
        let c = self.0;
        assert(((c ^ (c >> 1)) & 1) == if c == 1 || c == 2 {
            1u16
        } else {
            0u16
        }) by (bit_vector)
            requires
                c < 4,
        ;
        (c ^ (c >> 1)) & 1
    }

    /// The opposite heading.
    pub fn invert(self) -> (r: DirId)
        requires
            valid(self),
        ensures
            valid(r),
            r.0 == opposite(self.0),
    {
        let c = self.0;
        assert((c ^ 3) == opposite(c) && (c ^ 3) < 4) by (bit_vector)
            requires
                c < 4,
        ;
        DirId(c ^ 3)
    }

    /// The perpendicular heading that keeps the high bit.
    pub fn perp1(self) -> (r: DirId)
        requires
            valid(self),
        ensures
            valid(r),
            r.0 == self.0 ^ 1,
            vertical(r.0) != vertical(self.0),
    {
        let c = self.0;
        assert((c ^ 1) < 4 && ((c ^ 1) == 1 || (c ^ 1) == 2) != (c == 1 || c == 2)) by (bit_vector)
            requires
                c < 4,
        ;
        DirId(c ^ 1)
    }

    /// The perpendicular heading that keeps the low bit.
    pub fn perp2(self) -> (r: DirId)
        requires
            valid(self),
        ensures
            valid(r),
            r.0 == self.0 ^ 2,
            vertical(r.0) != vertical(self.0),
    {
        let c = self.0;
        assert((c ^ 2) < 4 && ((c ^ 2) == 1 || (c ^ 2) == 2) != (c == 1 || c == 2)) by (bit_vector)
            requires
                c < 4,
        ;
        DirId(c ^ 2)
    }

    /// The code, as an index.
    pub fn idx(self) -> (r: usize)
        ensures
            r == self.0,
    {
        self.0 as usize
    }
}

/// The two perpendicular headings are opposite to each other, and neither is
/// the heading itself or its opposite.
pub proof fn lemma_perpendicular(c: u16)
    requires
        c < 4,
    ensures
        opposite(c ^ 1) == c ^ 2,
        c ^ 1 != c && c ^ 1 != opposite(c),
        c ^ 2 != c && c ^ 2 != opposite(c),
{
    assert(opposite(c ^ 1) == c ^ 2 && c ^ 1 != c && c ^ 1 != opposite(c) && c ^ 2 != c && c ^ 2
        != opposite(c)) by (bit_vector)
        requires
            c < 4,
    ;
}

/// Turning around twice faces the same way, and keeps the axis.
pub proof fn lemma_opposite(c: u16)
    requires
        c < 4,
    ensures
        opposite(opposite(c)) == c,
        opposite(c) != c,
        vertical(opposite(c)) == vertical(c),
{
}

/// The offset of the start cell: row 139, column 1.
pub open spec fn start() -> int {
    19739
}

/// The offset of the end cell: row 1, column 139.
pub open spec fn end() -> int {
    281
}

/// Offset `p` is a cell off the border of the maze.
pub open spec fn interior(p: int) -> bool {
    142 <= p < 142 * 140 && 1 <= p % 142 <= 139
}

/// The map is 141 rows of 142 bytes; open cells (`.`) and the start lie off
/// the border.
pub open spec fn wf_maze(s: Seq<u8>) -> bool {
    &&& s.len() == 141 * 142
    &&& forall|p: int| 0 <= p < s.len() && #[trigger] s[p] == 46 ==> interior(p)
}

/// The first entry of `queue` among the first `n` at cell `q`, or `n`.
pub open spec fn first_at(queue: Seq<(int, int)>, q: int, n: int) -> int
    decreases n,
{
    if n <= 0 {
        0
    } else if first_at(queue, q, n - 1) < n - 1 {
        first_at(queue, q, n - 1)
    } else if queue[n - 1].0 == q {
        n - 1
    } else {
        n
    }
}

/// The effect of one straight run of the search: from cell `p`, reached at
/// cost `c`, step by `dir` over open cells. At each open cell where a turn
/// to `p1` or `p2` is possible and which the turned search has not left
/// yet, the cell is queued at the cost of the turn (1000 more), or, if it
/// is marked as queued (bit `2 * q`) and still in the queue, its queued cost
/// is lowered to that. At the first cell that is not open the run stops,
/// noting its cost if it is the end. Returns the marks, the queue, the best
/// cost at the end, and whether the queue ever held more than 128 cells.
pub open spec fn advance(
    s: Seq<u8>,
    p: int,
    c: int,
    dir: int,
    p1: int,
    p2: int,
    seen: Seq<bool>,
    queue: Seq<(int, int)>,
    best: int,
    over: bool,
    fuel: nat,
) -> (Seq<bool>, Seq<(int, int)>, int, bool)
    decreases fuel,
{
    if fuel == 0 {
        (seen, queue, best, over)
    } else {
        let q = p + dir;
        let cq = c + 1;
        if s[q] != 46 {
            (
                seen,
                queue,
                if q == end() && cq < best {
                    cq
                } else {
                    best
                },
                over,
            )
        } else if (s[q + p1] != 35 || s[q + p2] != 35) && !seen[q] {
            let i = first_at(queue, q, queue.len() as int);
            if seen[2 * q] && i < queue.len() {
                let low = if cq + 1000 < queue[i].1 {
                    cq + 1000
                } else {
                    queue[i].1
                };
                advance(s, q, cq, dir, p1, p2, seen, queue.update(i, (q, low)), best, over, (fuel - 1) as nat)
            } else {
                advance(
                    s,
                    q,
                    cq,
                    dir,
                    p1,
                    p2,
                    seen.update(2 * q, true),
                    queue.push((q, cq + 1000)),
                    best,
                    over || queue.len() >= 128,
                    (fuel - 1) as nat,
                )
            }
        } else {
            advance(s, q, cq, dir, p1, p2, seen, queue, best, over, (fuel - 1) as nat)
        }
    }
}

/// The longest straight run: past it the maze has ended.
pub open spec fn run_fuel() -> nat {
    142
}

/// The number of steps by `dir` from cell `p` to the border of the maze.
pub open spec fn to_border(p: int, dir: int) -> int {
    if dir == 1 {
        140 - p % 142
    } else if dir == -1 {
        p % 142
    } else if dir == 142 {
        140 - p / 142
    } else {
        p / 142
    }
}

/// A straight run from a cell off the border stops before it reaches the
/// border: once there is fuel for the steps to the border, more fuel
/// changes nothing, so the run's fuel is no limit.
pub proof fn lemma_run_stops(
    s: Seq<u8>,
    p: int,
    c: int,
    dir: int,
    p1: int,
    p2: int,
    seen: Seq<bool>,
    queue: Seq<(int, int)>,
    best: int,
    over: bool,
    f1: nat,
    f2: nat,
)
    requires
        wf_maze(s),
        interior(p),
        is_step(dir),
        to_border(p, dir) <= f1 <= f2,
    ensures
        advance(s, p, c, dir, p1, p2, seen, queue, best, over, f1) == advance(
            s,
            p,
            c,
            dir,
            p1,
            p2,
            seen,
            queue,
            best,
            over,
            f2,
        ),
    decreases f1,
{
    let q = p + dir;
    let cq = c + 1;
    assert(0 <= q < s.len());
    if s[q] == 46 {
        assert(interior(q));
        assert(to_border(q, dir) == to_border(p, dir) - 1);
        let g1 = (f1 - 1) as nat;
        let g2 = (f2 - 1) as nat;
        if (s[q + p1] != 35 || s[q + p2] != 35) && !seen[q] {
            let i = first_at(queue, q, queue.len() as int);
            if seen[2 * q] && i < queue.len() {
                let low = if cq + 1000 < queue[i].1 {
                    cq + 1000
                } else {
                    queue[i].1
                };
                lemma_run_stops(s, q, cq, dir, p1, p2, seen, queue.update(i, (q, low)), best, over, g1, g2);
            } else {
                lemma_run_stops(
                    s,
                    q,
                    cq,
                    dir,
                    p1,
                    p2,
                    seen.update(2 * q, true),
                    queue.push((q, cq + 1000)),
                    best,
                    over || queue.len() >= 128,
                    g1,
                    g2,
                );
            }
        } else {
            lemma_run_stops(s, q, cq, dir, p1, p2, seen, queue, best, over, g1, g2);
        }
    }
}

/// The cell `j` steps by `dir` from `p`.
pub open spec fn ahead(p: int, dir: int, j: int) -> int {
    p + j * dir
}

/// A run only lowers what is queued: every entry keeps its cell and its cost
/// does not grow, and new entries come after the old ones.
pub proof fn lemma_run_lowers(
    s: Seq<u8>,
    p: int,
    c: int,
    dir: int,
    p1: int,
    p2: int,
    seen: Seq<bool>,
    queue: Seq<(int, int)>,
    best: int,
    over: bool,
    fuel: nat,
)
    ensures
        advance(s, p, c, dir, p1, p2, seen, queue, best, over, fuel).1.len() >= queue.len(),
        forall|k: int|
            0 <= k < queue.len() ==> (#[trigger] advance(s, p, c, dir, p1, p2, seen, queue, best, over, fuel).1[k]).0
                == queue[k].0 && advance(s, p, c, dir, p1, p2, seen, queue, best, over, fuel).1[k].1 <= queue[k].1,
    decreases fuel,
{
    if fuel > 0 {
        let q = p + dir;
        let cq = c + 1;
        let g = (fuel - 1) as nat;
        if s[q] != 46 {
        } else if (s[q + p1] != 35 || s[q + p2] != 35) && !seen[q] {
            let i = first_at(queue, q, queue.len() as int);
            if seen[2 * q] && i < queue.len() {
                let low = if cq + 1000 < queue[i].1 {
                    cq + 1000
                } else {
                    queue[i].1
                };
                let q2 = queue.update(i, (q, low));
                lemma_first_at_cell(queue, q, queue.len() as int);
                lemma_run_lowers(s, q, cq, dir, p1, p2, seen, q2, best, over, g);
                assert forall|k: int| 0 <= k < queue.len() implies (#[trigger] advance(
                    s,
                    q,
                    cq,
                    dir,
                    p1,
                    p2,
                    seen,
                    q2,
                    best,
                    over,
                    g,
                ).1[k]).0 == queue[k].0 && advance(s, q, cq, dir, p1, p2, seen, q2, best, over, g).1[k].1
                    <= queue[k].1 by {
                    assert(k < q2.len());
                }
            } else {
                let q2 = queue.push((q, cq + 1000));
                lemma_run_lowers(
                    s,
                    q,
                    cq,
                    dir,
                    p1,
                    p2,
                    seen.update(2 * q, true),
                    q2,
                    best,
                    over || queue.len() >= 128,
                    g,
                );
                let out = advance(
                    s,
                    q,
                    cq,
                    dir,
                    p1,
                    p2,
                    seen.update(2 * q, true),
                    q2,
                    best,
                    over || queue.len() >= 128,
                    g,
                ).1;
                assert forall|k: int| 0 <= k < queue.len() implies out[k].0 == queue[k].0 && out[k].1
                    <= queue[k].1 by {
                    assert(k < q2.len() && q2[k] == queue[k]);
                }
            }
        } else {
            lemma_run_lowers(s, q, cq, dir, p1, p2, seen, queue, best, over, g);
        }
    }
}

/// A found entry of `first_at` is at the cell searched for.
proof fn lemma_first_at_cell(queue: Seq<(int, int)>, q: int, n: int)
    requires
        0 <= n,
    ensures
        0 <= first_at(queue, q, n) <= n,
        first_at(queue, q, n) < n ==> queue[first_at(queue, q, n)].0 == q,
    decreases n,
{
    if n > 0 {
        lemma_first_at_cell(queue, q, n - 1);
    }
}

/// A run over interior cells stops short of the border.
proof fn lemma_ahead_short(s: Seq<u8>, p: int, dir: int, i: int)
    requires
        wf_maze(s),
        interior(p),
        is_step(dir),
        1 <= i,
        forall|j: int| 1 <= j <= i ==> s[#[trigger] ahead(p, dir, j)] == 46,
    ensures
        i < to_border(p, dir),
    decreases i,
{
    let q = p + dir;
    assert(ahead(p, dir, 1) == q);
    assert(interior(q));
    assert(to_border(q, dir) == to_border(p, dir) - 1);
    if i > 1 {
        assert forall|j: int| 1 <= j <= i - 1 implies s[#[trigger] ahead(q, dir, j)] == 46 by {
            assert(ahead(q, dir, j) == ahead(p, dir, j + 1)) by (nonlinear_arith)
                requires
                    q == p + dir,
            ;
        }
        lemma_ahead_short(s, q, dir, i - 1);
    }
}

/// Two steps from an interior cell never land on the mark of the first one:
/// the marks of queued cells (at twice the cell) do not hide cells ahead.
proof fn lemma_marks_apart(p: int, dir: int, i: int)
    requires
        interior(p),
        is_step(dir),
        1 <= i < to_border(p, dir),
    ensures
        2 * (p + dir) != ahead(p, dir, i),
{
    if dir == 1 {
        assert(i * dir == i) by (nonlinear_arith)
            requires
                dir == 1,
        ;
    } else if dir == -1 {
        assert(i * dir == -i) by (nonlinear_arith)
            requires
                dir == -1,
        ;
    } else if dir == 142 {
        assert(i * dir == 142 * i) by (nonlinear_arith)
            requires
                dir == 142,
        ;
    } else {
        assert(i * dir == -142 * i) by (nonlinear_arith)
            requires
                dir == -142,
        ;
    }
}

/// A run queues every cell it passes where it could turn, and which the
/// turned search has not left, at no more than the cost of reaching that
/// cell and turning there: a cell queued earlier at a higher cost is
/// lowered to it.
pub proof fn lemma_run_offers(
    s: Seq<u8>,
    p: int,
    c: int,
    dir: int,
    p1: int,
    p2: int,
    seen: Seq<bool>,
    queue: Seq<(int, int)>,
    best: int,
    over: bool,
    fuel: nat,
    i: int,
)
    requires
        wf_maze(s),
        interior(p),
        is_step(dir),
        1 <= i <= fuel,
        forall|j: int| 1 <= j <= i ==> s[#[trigger] ahead(p, dir, j)] == 46,
        s[ahead(p, dir, i) + p1] != 35 || s[ahead(p, dir, i) + p2] != 35,
        seen.len() == no_marks().len(),
        !seen[ahead(p, dir, i)],
    ensures
        exists|k: int|
            0 <= k < advance(s, p, c, dir, p1, p2, seen, queue, best, over, fuel).1.len() && (#[trigger] advance(
                s,
                p,
                c,
                dir,
                p1,
                p2,
                seen,
                queue,
                best,
                over,
                fuel,
            ).1[k]).0 == ahead(p, dir, i) && advance(s, p, c, dir, p1, p2, seen, queue, best, over, fuel).1[k].1
                <= c + i + 1000,
    decreases i,
{
    let q = p + dir;
    let cq = c + 1;
    let g = (fuel - 1) as nat;
    let out = advance(s, p, c, dir, p1, p2, seen, queue, best, over, fuel).1;
    assert(ahead(p, dir, 1) == q);
    assert(s[q] == 46);
    assert(interior(q));
    lemma_ahead_short(s, p, dir, i);
    lemma_first_at_cell(queue, q, queue.len() as int);
    if i == 1 {
        let idx = first_at(queue, q, queue.len() as int);
        if seen[2 * q] && idx < queue.len() {
            let low = if cq + 1000 < queue[idx].1 {
                cq + 1000
            } else {
                queue[idx].1
            };
            let q2 = queue.update(idx, (q, low));
            lemma_run_lowers(s, q, cq, dir, p1, p2, seen, q2, best, over, g);
            assert(advance(s, q, cq, dir, p1, p2, seen, q2, best, over, g).1[idx].0 == q);
            assert(out[idx].0 == q && out[idx].1 <= low);
        } else {
            let q2 = queue.push((q, cq + 1000));
            let sn = seen.update(2 * q, true);
            let ov = over || queue.len() >= 128;
            lemma_run_lowers(s, q, cq, dir, p1, p2, sn, q2, best, ov, g);
            let k = queue.len() as int;
            assert(q2[k] == (q, cq + 1000));
            assert(out[k].0 == q && out[k].1 <= cq + 1000);
        }
    } else {
        assert forall|j: int| 1 <= j <= i - 1 implies s[#[trigger] ahead(q, dir, j)] == 46 by {
            assert(ahead(q, dir, j) == ahead(p, dir, j + 1)) by (nonlinear_arith)
                requires
                    q == p + dir,
            ;
        }
        assert(ahead(q, dir, i - 1) == ahead(p, dir, i)) by (nonlinear_arith)
            requires
                q == p + dir,
        ;
        assert(ahead(p, dir, i) != q) by (nonlinear_arith)
            requires
                q == p + dir,
                i >= 2,
                dir != 0,
        ;
        lemma_marks_apart(p, dir, i);
        assert(interior(ahead(p, dir, i)));
        assert(seen.update(2 * q, true)[ahead(q, dir, i - 1)] == seen[ahead(p, dir, i)]);
        if (s[q + p1] != 35 || s[q + p2] != 35) && !seen[q] {
            let idx = first_at(queue, q, queue.len() as int);
            if seen[2 * q] && idx < queue.len() {
                let low = if cq + 1000 < queue[idx].1 {
                    cq + 1000
                } else {
                    queue[idx].1
                };
                lemma_run_offers(s, q, cq, dir, p1, p2, seen, queue.update(idx, (q, low)), best, over, g, i - 1);
            } else {
                lemma_run_offers(
                    s,
                    q,
                    cq,
                    dir,
                    p1,
                    p2,
                    seen.update(2 * q, true),
                    queue.push((q, cq + 1000)),
                    best,
                    over || queue.len() >= 128,
                    g,
                    i - 1,
                );
            }
        } else {
            lemma_run_offers(s, q, cq, dir, p1, p2, seen, queue, best, over, g, i - 1);
        }
    }
}

/// One layer of the search: the first `k` cells of `entries`, moving along
/// `d1` and `d2` and turning to `p1` and `p2`, each cell marked as left in
/// `own`. Returns `own`, the turned marks, the turned queue, the best cost
/// and the overflow flag.
pub open spec fn expand(
    s: Seq<u8>,
    entries: Seq<(int, int)>,
    k: int,
    d1: int,
    d2: int,
    p1: int,
    p2: int,
    own: Seq<bool>,
    seen: Seq<bool>,
    queue: Seq<(int, int)>,
    best: int,
    over: bool,
) -> (Seq<bool>, Seq<bool>, Seq<(int, int)>, int, bool)
    decreases k,
{
    if k <= 0 {
        (own, seen, queue, best, over)
    } else {
        let (o, sn, qu, b, ov) = expand(s, entries, k - 1, d1, d2, p1, p2, own, seen, queue, best, over);
        let (p, c) = entries[k - 1];
        let (sn1, qu1, b1, ov1) = advance(s, p, c, d1, p1, p2, sn, qu, b, ov, run_fuel());
        let (sn2, qu2, b2, ov2) = advance(s, p, c, d2, p1, p2, sn1, qu1, b1, ov1, run_fuel());
        (o.update(p, true), sn2, qu2, b2, ov2)
    }
}

/// No cost at the end yet.
pub open spec fn no_cost() -> int {
    0xffff_ffff
}

/// The search from a horizontal layer on, for at most `fuel` rounds of a
/// horizontal and a vertical layer: the first best cost at the end found
/// after a layer, with the overflow flag.
pub open spec fn search(
    s: Seq<u8>,
    seen_h: Seq<bool>,
    seen_v: Seq<bool>,
    queue_h: Seq<(int, int)>,
    queue_v: Seq<(int, int)>,
    best: int,
    over: bool,
    fuel: nat,
) -> Option<(int, bool)>
    decreases fuel,
{
    if fuel == 0 {
        None
    } else {
        let (sh1, sv1, qv1, b1, o1) = expand(
            s,
            queue_h,
            queue_h.len() as int,
            -1,
            1,
            -142,
            142,
            seen_h,
            seen_v,
            queue_v,
            best,
            over,
        );
        if b1 != no_cost() {
            Some((b1, o1))
        } else {
            let (sv2, sh2, qh2, b2, o2) = expand(s, qv1, qv1.len() as int, -142, 142, -1, 1, sv1, sh1, seq![], b1, o1);
            if b2 != no_cost() {
                Some((b2, o2))
            } else {
                search(s, sh2, sv2, qh2, seq![], b2, o2, (fuel - 1) as nat)
            }
        }
    }
}

/// The most rounds the search is followed for.
pub open spec fn search_fuel() -> nat {
    100000
}

/// No cell marked: one bit for each of the `2 * 141 * 142` marks.
pub open spec fn no_marks() -> Seq<bool> {
    Seq::new(40044, |i: int| false)
}

/// The search from the start: facing along a row at cost 0, or turned to a
/// column at cost 1000.
pub open spec fn maze_search(s: Seq<u8>) -> Option<(int, bool)> {
    search(s, no_marks(), no_marks(), seq![(start(), 0)], seq![(start(), 1000)], no_cost(), false, search_fuel())
}

/// The search ends within its rounds, and no queue ever holds more than
/// 128 cells.
pub open spec fn search_ends(s: Seq<u8>) -> bool {
    &&& maze_search(s) is Some
    &&& !maze_search(s).unwrap().1
}

/// A queue as computed, read as integers.
pub open spec fn queue_ints(q: Seq<(u32, u32)>) -> Seq<(int, int)> {
    q.map_values(|e: (u32, u32)| (e.0 as int, e.1 as int))
}

/// A step along a row or a column.
pub open spec fn is_step(d: int) -> bool {
    d == -1 || d == 1 || d == -142 || d == 142
}

/// Every queued cell lies off the border, at cost at most `cap`.
pub open spec fn queue_ok(q: Seq<(u32, u32)>, cap: int) -> bool {
    forall|i: int| 0 <= i < q.len() ==> interior((#[trigger] q[i]).0 as int) && q[i].1 <= cap
}

proof fn lemma_first_at(queue: Seq<(int, int)>, q: int, n: int, i: int)
    requires
        0 <= i <= n <= queue.len(),
        forall|j: int| 0 <= j < i ==> #[trigger] queue[j].0 != q,
        i == n || queue[i].0 == q,
    ensures
        first_at(queue, q, n) == i,
    decreases n,
{
    if n > 0 {
        if i < n {
            if i < n - 1 {
                lemma_first_at(queue, q, n - 1, i);
            } else {
                lemma_first_at(queue, q, n - 1, n - 1);
            }
        } else {
            lemma_first_at(queue, q, n - 1, n - 1);
        }
    }
}

/// The cell a step `d` away from the cell `p` off the border.
fn step_from(p: usize, d: i64) -> (q: usize)
    requires
        interior(p as int),
        is_step(d as int),
    ensures
        q == p + d,
        0 <= q < 141 * 142,
{
    (p as i64 + d) as usize
}

/// One straight run of the search, as `advance` describes it.
fn advance_exec(
    s: &[u8],
    p: usize,
    c: u32,
    dir: i64,
    p1: i64,
    p2: i64,
    seen: &mut Vec<bool>,
    queue: &mut Vec<(u32, u32)>,
    best: &mut u32,
    over: &mut bool,
    Ghost(cap): Ghost<int>,
)
    requires
        wf_maze(s@),
        interior(p as int),
        is_step(dir as int),
        is_step(p1 as int),
        is_step(p2 as int),
        old(seen)@.len() == 40044,
        c <= cap,
        cap + 1142 <= u32::MAX,
        queue_ok(old(queue)@, cap + 1142),
    ensures
        (final(seen)@, queue_ints(final(queue)@), *final(best) as int, *final(over)) == advance(
            s@,
            p as int,
            c as int,
            dir as int,
            p1 as int,
            p2 as int,
            old(seen)@,
            queue_ints(old(queue)@),
            *old(best) as int,
            *old(over),
            run_fuel(),
        ),
        final(seen)@.len() == 40044,
        queue_ok(final(queue)@, cap + 1142),
{
    let ghost goal = advance(
        s@,
        p as int,
        c as int,
        dir as int,
        p1 as int,
        p2 as int,
        seen@,
        queue_ints(queue@),
        *best as int,
        *over,
        run_fuel(),
    );
    let mut q = p;
    let mut cq = c;
    let mut fuel: usize = 142;
    loop
        invariant
            wf_maze(s@),
            interior(q as int),
            is_step(dir as int),
            is_step(p1 as int),
            is_step(p2 as int),
            fuel <= 142,
            cq <= c + (142 - fuel),
            c <= cap,
            cap + 1142 <= u32::MAX,
            seen@.len() == 40044,
            queue_ok(queue@, cap + 1142),
            goal == advance(
                s@,
                q as int,
                cq as int,
                dir as int,
                p1 as int,
                p2 as int,
                seen@,
                queue_ints(queue@),
                *best as int,
                *over,
                fuel as nat,
            ),
        ensures
            goal == (seen@, queue_ints(queue@), *best as int, *over),
            seen@.len() == 40044,
            queue_ok(queue@, cap + 1142),
        decreases fuel,
    {
        if fuel == 0 {
            break;
        }
        let nq = step_from(q, dir);
        let nc = cq + 1;
        if s[nq] != 46 {
            if nq == 281 && nc < *best {
                *best = nc;
            }
            break;
        }
        assert(interior(nq as int));
        let a = step_from(nq, p1);
        let b = step_from(nq, p2);
        if (s[a] != 35 || s[b] != 35) && !seen[nq] {
            let mut i: usize = 0;
            while i < queue.len() && queue[i].0 as usize != nq
                invariant
                    i <= queue@.len(),
                    forall|j: int| 0 <= j < i ==> #[trigger] queue@[j].0 != nq,
                decreases queue@.len() - i,
            {
                i = i + 1;
            }
            proof {
                let qi = queue_ints(queue@);
                assert forall|j: int| 0 <= j < i implies #[trigger] qi[j].0 != nq by {
                    assert(queue@[j].0 != nq);
                }
                if i < queue@.len() {
                    assert(qi[i as int].0 == nq);
                }
                lemma_first_at(qi, nq as int, qi.len() as int, i as int);
            }
            if seen[2 * nq] && i < queue.len() {
                let old_cost = queue[i].1;
                let low = if nc + 1000 < old_cost {
                    nc + 1000
                } else {
                    old_cost
                };
                let ghost before = queue@;
                queue.set(i, (nq as u32, low));
                proof {
                    assert(queue_ints(queue@) =~= queue_ints(before).update(i as int, (nq as int, low as int)));
                    assert forall|j: int| 0 <= j < queue@.len() implies interior((#[trigger] queue@[j]).0 as int)
                        && queue@[j].1 <= cap + 1142 by {
                        if j != i {
                            assert(before[j] == queue@[j]);
                        }
                    }
                }
            } else {
                let ghost before = queue@;
                if queue.len() >= 128 {
                    *over = true;
                }
                seen.set(2 * nq, true);
                queue.push((nq as u32, nc + 1000));
                proof {
                    assert(queue_ints(queue@) =~= queue_ints(before).push((nq as int, nc + 1000)));
                    assert forall|j: int| 0 <= j < queue@.len() implies interior((#[trigger] queue@[j]).0 as int)
                        && queue@[j].1 <= cap + 1142 by {
                        if j < before.len() {
                            assert(before[j] == queue@[j]);
                        }
                    }
                }
            }
        }
        q = nq;
        cq = nc;
        fuel = fuel - 1;
    }
}

/// One layer of the search, as `expand` describes it, over all of `entries`.
fn expand_exec(
    s: &[u8],
    entries: &Vec<(u32, u32)>,
    d1: i64,
    d2: i64,
    p1: i64,
    p2: i64,
    own: &mut Vec<bool>,
    seen: &mut Vec<bool>,
    queue: &mut Vec<(u32, u32)>,
    best: &mut u32,
    over: &mut bool,
    Ghost(cap): Ghost<int>,
)
    requires
        wf_maze(s@),
        is_step(d1 as int),
        is_step(d2 as int),
        is_step(p1 as int),
        is_step(p2 as int),
        old(own)@.len() == 40044,
        old(seen)@.len() == 40044,
        cap + 1142 <= u32::MAX,
        queue_ok(entries@, cap),
        queue_ok(old(queue)@, cap + 1142),
    ensures
        (final(own)@, final(seen)@, queue_ints(final(queue)@), *final(best) as int, *final(over)) == expand(
            s@,
            queue_ints(entries@),
            entries@.len() as int,
            d1 as int,
            d2 as int,
            p1 as int,
            p2 as int,
            old(own)@,
            old(seen)@,
            queue_ints(old(queue)@),
            *old(best) as int,
            *old(over),
        ),
        final(own)@.len() == 40044,
        final(seen)@.len() == 40044,
        queue_ok(final(queue)@, cap + 1142),
{
    let ghost e = queue_ints(entries@);
    let ghost own0 = own@;
    let ghost seen0 = seen@;
    let ghost queue0 = queue_ints(queue@);
    let ghost best0 = *best as int;
    let ghost over0 = *over;
    let mut k: usize = 0;
    while k < entries.len()
        invariant
            wf_maze(s@),
            is_step(d1 as int),
            is_step(d2 as int),
            is_step(p1 as int),
            is_step(p2 as int),
            e == queue_ints(entries@),
            k <= entries@.len(),
            own@.len() == 40044,
            seen@.len() == 40044,
            cap + 1142 <= u32::MAX,
            queue_ok(entries@, cap),
            queue_ok(queue@, cap + 1142),
            (own@, seen@, queue_ints(queue@), *best as int, *over) == expand(
                s@,
                e,
                k as int,
                d1 as int,
                d2 as int,
                p1 as int,
                p2 as int,
                own0,
                seen0,
                queue0,
                best0,
                over0,
            ),
        decreases entries@.len() - k,
    {
        let (p, c) = entries[k];
        assert(interior(entries@[k as int].0 as int) && entries@[k as int].1 <= cap);
        advance_exec(s, p as usize, c, d1, p1, p2, seen, queue, best, over, Ghost(cap));
        advance_exec(s, p as usize, c, d2, p1, p2, seen, queue, best, over, Ghost(cap));
        own.set(p as usize, true);
        k = k + 1;
    }
}

/// Part 1: the cost at the end found by the search from the start, layer by
/// layer of straight runs: each layer turns the cells queued by the one
/// before, and the search stops after the first layer that reaches the end.
pub fn part1(input: &str) -> (r: u32)
    requires
        wf_maze(input.spec_bytes()),
        search_ends(input.spec_bytes()),
    ensures
        r == maze_search(input.spec_bytes()).unwrap().0,
{
    let s = input.as_bytes();
    let mut seen_h: Vec<bool> = vec![false; 40044];
    let mut seen_v: Vec<bool> = vec![false; 40044];
    let mut queue_h: Vec<(u32, u32)> = vec![(19739, 0)];
    let mut queue_v: Vec<(u32, u32)> = vec![(19739, 1000)];
    let mut best: u32 = 0xffff_ffff;
    let mut over = false;
    let ghost mut fuel: nat = search_fuel();
    let ghost mut cap: int = 1000;
    proof {
        assert(seen_h@ =~= no_marks());
        assert(seen_v@ =~= no_marks());
        assert(queue_ints(queue_h@) =~= seq![(start(), 0)]);
        assert(queue_ints(queue_v@) =~= seq![(start(), 1000)]);
    }
    loop
        invariant
            wf_maze(s@),
            s@ == input.spec_bytes(),
            search_ends(s@),
            maze_search(s@) == search(
                s@,
                seen_h@,
                seen_v@,
                queue_ints(queue_h@),
                queue_ints(queue_v@),
                best as int,
                over,
                fuel,
            ),
            seen_h@.len() == 40044,
            seen_v@.len() == 40044,
            fuel <= search_fuel(),
            cap <= 1000 + 2284 * (search_fuel() - fuel),
            queue_ok(queue_h@, cap),
            queue_ok(queue_v@, cap),
        decreases fuel,
    {
        let entries = queue_h;
        queue_h = Vec::new();
        expand_exec(s, &entries, -1, 1, -142, 142, &mut seen_h, &mut seen_v, &mut queue_v, &mut best, &mut over, Ghost(cap));
        if best != 0xffff_ffff {
            return best;
        }
        let entries = queue_v;
        queue_v = Vec::new();
        proof {
            assert(queue_ints(queue_h@) =~= seq![]);
        }
        expand_exec(
            s,
            &entries,
            -142,
            142,
            -1,
            1,
            &mut seen_v,
            &mut seen_h,
            &mut queue_h,
            &mut best,
            &mut over,
            Ghost(cap + 1142),
        );
        if best != 0xffff_ffff {
            return best;
        }
        proof {
            assert(queue_ints(queue_v@) =~= seq![]);
            fuel = (fuel - 1) as nat;
            cap = cap + 2284;
        }
    }
}

/// The answer of part 1, as a signed number.
pub fn run(input: &str) -> (r: i64)
    requires
        wf_maze(input.spec_bytes()),
        search_ends(input.spec_bytes()),
    ensures
        r == maze_search(input.spec_bytes()).unwrap().0,
{
    part1(input) as i64
}

/// Part 2: the answer is 0 for every input; no count of the tiles on best
/// paths is returned.
pub fn part2(input: &str) -> (r: u32)
    ensures
        r == 0,
{
    0
}

} // verus!
