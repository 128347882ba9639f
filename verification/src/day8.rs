//! Resonant collinearity: the antinodes of the antennas on a 50 x 50 map.
//!
//! A cell is addressed by its index `50 * y + x`; the map stores it at
//! offset `51 * y + x` of the input, each row followed by its newline.
use vstd::prelude::*;
use vstd::string::StringSliceAdditionalSpecFns;

verus! {

/// The number of cells.
pub open spec fn cells() -> int {
    2500
}

/// The byte of the map at cell `i`.
pub open spec fn cell(s: Seq<u8>, i: int) -> u8 {
    s[51 * (i / 50) + i % 50]
}

/// Cell `i` holds an antenna: any byte but `.`.
pub open spec fn antenna(s: Seq<u8>, i: int) -> bool {
    cell(s, i) != 46
}

/// Cells `i` and `j` hold distinct antennas of the same frequency.
pub open spec fn pair(s: Seq<u8>, i: int, j: int) -> bool {
    &&& 0 <= i < cells()
    &&& 0 <= j < cells()
    &&& i != j
    &&& antenna(s, i)
    &&& cell(s, i) == cell(s, j)
}

/// The cell twice as far from `j` as `i` is, on the line through both, if
/// it lies on the map.
pub open spec fn beyond(i: int, j: int) -> Option<int> {
    let x = 2 * (i % 50) - j % 50;
    let y = 2 * (i / 50) - j / 50;
    if 0 <= x < 50 && 0 <= y < 50 {
        Some(50 * y + x)
    } else {
        None
    }
}

/// Cell `t` is an antinode: beyond `i` from `j` for a pair of antennas.
pub open spec fn antinode(s: Seq<u8>, t: int) -> bool {
    exists|i: int, j: int| pair(s, i, j) && #[trigger] beyond(i, j) == Some(t)
}

/// The number of antinodes among the first `n` cells.
pub open spec fn antinode_count(s: Seq<u8>, n: int) -> int
    decreases n,
{
    if n <= 0 {
        0
    } else {
        antinode_count(s, n - 1) + if antinode(s, n - 1) {
            1int
        } else {
            0
        }
    }
}

/// The map is 50 rows of 51 bytes.
pub open spec fn wf_input(s: Seq<u8>) -> bool {
    s.len() == 51 * 50
}

/// The number of cells among the first `n` that hold byte `b`.
pub open spec fn byte_count(s: Seq<u8>, b: u8, n: int) -> int
    decreases n,
{
    if n <= 0 {
        0
    } else {
        byte_count(s, b, n - 1) + if cell(s, n - 1) == b {
            1int
        } else {
            0
        }
    }
}

/// The antennas fit the tables of positions: every cell holds an ASCII
/// byte, and each frequency has at most four antennas.
pub open spec fn wf_antennas(s: Seq<u8>) -> bool {
    &&& forall|i: int| 0 <= i < cells() ==> #[trigger] cell(s, i) < 128
    &&& forall|b: u8| b != 46 ==> #[trigger] byte_count(s, b, cells()) <= 4
}

/// The byte at cell `i`, read.
fn cell_exec(s: &[u8], i: usize) -> (b: u8)
    requires
        wf_input(s@),
        i < cells(),
    ensures
        b == cell(s@, i as int),
{
    s[51 * (i / 50) + i % 50]
}

/// The cell beyond `i` from `j`, computed.
fn beyond_exec(i: usize, j: usize) -> (r: Option<usize>)
    requires
        i < cells(),
        j < cells(),
    ensures
        beyond(i as int, j as int) == (match r {
            Some(t) => Some(t as int),
            None => None::<int>,
        }),
{
    let xi = i % 50;
    let yi = i / 50;
    let xj = j % 50;
    let yj = j / 50;
    if 2 * xi >= xj && 2 * xi - xj < 50 && 2 * yi >= yj && 2 * yi - yj < 50 {
        Some(50 * (2 * yi - yj) + (2 * xi - xj))
    } else {
        None
    }
}

/// The pair `(i2, j2)` comes before `(i, j)` in the order pairs are handled.
spec fn handled(i: int, j: int, i2: int, j2: int) -> bool {
    i2 < i || (i2 == i && j2 < j)
}

/// Part 1: the number of antinodes on the map.
pub fn part1(input: &str) -> (r: u64)
    requires
        wf_input(input.spec_bytes()),
        wf_antennas(input.spec_bytes()),
    ensures
        r == antinode_count(input.spec_bytes(), cells()),
{
    let s = input.as_bytes();
    let mut marked: Vec<bool> = vec![false; 2500];
    let mut i: usize = 0;
    while i < 2500
        invariant
            wf_input(s@),
            i <= cells(),
            marked@.len() == cells(),
            forall|t: int|
                0 <= t < cells() ==> (marked@[t] <==> exists|i2: int, j2: int|
                    i2 < i && pair(s@, i2, j2) && #[trigger] beyond(i2, j2) == Some(t)),
        decreases cells() - i,
    {
        let mut j: usize = 0;
        let a = cell_exec(s, i);
        while j < 2500
            invariant
                wf_input(s@),
                i < cells(),
                j <= cells(),
                a == cell(s@, i as int),
                marked@.len() == cells(),
                forall|t: int|
                    0 <= t < cells() ==> (marked@[t] <==> exists|i2: int, j2: int|
                        handled(i as int, j as int, i2, j2) && pair(s@, i2, j2) && #[trigger] beyond(
                            i2,
                            j2,
                        ) == Some(t)),
            decreases cells() - j,
        {
            let ghost before = marked@;
            if j != i && a != 46 && cell_exec(s, j) == a {
                match beyond_exec(i, j) {
                    Some(t) => {
                        marked.set(t, true);
                    },
                    None => {},
                }
            }
            proof {
                assert forall|t: int| 0 <= t < cells() implies (marked@[t] <==> exists|i2: int, j2: int|
                    handled(i as int, j + 1, i2, j2) && pair(s@, i2, j2) && #[trigger] beyond(i2, j2)
                        == Some(t)) by {
                    if marked@[t] && !before[t] {
                        assert(handled(i as int, j + 1, i as int, j as int) && pair(s@, i as int, j as int)
                            && beyond(i as int, j as int) == Some(t));
                    }
                    if before[t] {
                        let (i2, j2) = choose|i2: int, j2: int|
                            handled(i as int, j as int, i2, j2) && pair(s@, i2, j2) && #[trigger] beyond(
                                i2,
                                j2,
                            ) == Some(t);
                        assert(handled(i as int, j + 1, i2, j2));
                    }
                    if exists|i2: int, j2: int|
                        handled(i as int, j + 1, i2, j2) && pair(s@, i2, j2) && #[trigger] beyond(i2, j2)
                            == Some(t) {
                        let (i2, j2) = choose|i2: int, j2: int|
                            handled(i as int, j + 1, i2, j2) && pair(s@, i2, j2) && #[trigger] beyond(
                                i2,
                                j2,
                            ) == Some(t);
                        if handled(i as int, j as int, i2, j2) {
                            assert(before[t]);
                        }
                    }
                }
            }
            j = j + 1;
        }
        proof {
            assert forall|t: int| 0 <= t < cells() implies (marked@[t] <==> exists|i2: int, j2: int|
                i2 < i + 1 && pair(s@, i2, j2) && #[trigger] beyond(i2, j2) == Some(t)) by {
                if marked@[t] {
                    let (i2, j2) = choose|i2: int, j2: int|
                        handled(i as int, cells(), i2, j2) && pair(s@, i2, j2) && #[trigger] beyond(i2, j2)
                            == Some(t);
                    assert(i2 < i + 1);
                }
                if exists|i2: int, j2: int| i2 < i + 1 && pair(s@, i2, j2) && #[trigger] beyond(i2, j2) == Some(t) {
                    let (i2, j2) = choose|i2: int, j2: int|
                        i2 < i + 1 && pair(s@, i2, j2) && #[trigger] beyond(i2, j2) == Some(t);
                    assert(handled(i as int, cells(), i2, j2));
                }
            }
        }
        i = i + 1;
    }
    let mut count: u64 = 0;
    let mut t: usize = 0;
    while t < 2500
        invariant
            wf_input(s@),
            s@ == input.spec_bytes(),
            t <= cells(),
            marked@.len() == cells(),
            forall|u: int|
                0 <= u < cells() ==> (marked@[u] <==> exists|i2: int, j2: int|
                    i2 < cells() && pair(s@, i2, j2) && #[trigger] beyond(i2, j2) == Some(u)),
            count == antinode_count(s@, t as int),
            count <= t,
        decreases cells() - t,
    {
        proof {
            if antinode(s@, t as int) {
                let (i2, j2) = choose|i2: int, j2: int| pair(s@, i2, j2) && #[trigger] beyond(i2, j2) == Some(t as int);
                assert(i2 < cells());
            }
        }
        if marked[t] {
            count = count + 1;
        }
        t = t + 1;
    }
    count
}

/// The column of the cell `k` steps along the line from `i` through `j`
/// (step 1 is `j`), whether or not it lies on the map.
pub open spec fn line_x(i: int, j: int, k: int) -> int {
    i % 50 + k * (j % 50 - i % 50)
}

/// The row of the cell `k` steps along the line from `i` through `j`.
pub open spec fn line_y(i: int, j: int, k: int) -> int {
    i / 50 + k * (j / 50 - i / 50)
}

/// The cell `k` steps along the line from `i` through `j`, if it lies on
/// the map.
pub open spec fn line_cell(i: int, j: int, k: int) -> Option<int> {
    let x = line_x(i, j, k);
    let y = line_y(i, j, k);
    if 0 <= x < 50 && 0 <= y < 50 {
        Some(50 * y + x)
    } else {
        None
    }
}

/// Cell `t` lies on the line through `i` and `j` a whole number of steps
/// `j - i` away from `i`.
pub open spec fn on_line(i: int, j: int, t: int) -> bool {
    exists|k: int| #[trigger] line_cell(i, j, k) == Some(t)
}

/// Cell `t` is an antinode with resonant harmonics: on the line of a pair
/// of antennas, at a whole number of their distances from one of them.
pub open spec fn resonant(s: Seq<u8>, t: int) -> bool {
    exists|i: int, j: int| pair(s, i, j) && #[trigger] on_line(i, j, t)
}

/// The number of resonant antinodes among the first `n` cells.
pub open spec fn resonant_count(s: Seq<u8>, n: int) -> int
    decreases n,
{
    if n <= 0 {
        0
    } else {
        resonant_count(s, n - 1) + if resonant(s, n - 1) {
            1int
        } else {
            0
        }
    }
}

/// Along a line, once a coordinate has left the map it stays off it.
proof fn lemma_stays_off(a: int, d: int, k0: int, ke: int, k: int)
    requires
        0 <= a + k0 * d < 50,
        !(0 <= a + ke * d < 50),
        (k0 < ke <= k) || (k <= ke < k0),
    ensures
        !(0 <= a + k * d < 50),
{
    if k0 < ke {
        assert((ke - k0) * d == (a + ke * d) - (a + k0 * d)) by (nonlinear_arith);
        assert((k - ke) * d == (a + k * d) - (a + ke * d)) by (nonlinear_arith);
        if a + ke * d < 0 {
            assert(d < 0) by (nonlinear_arith)
                requires (ke - k0) * d < 0, ke - k0 > 0;
            assert((k - ke) * d <= 0) by (nonlinear_arith)
                requires d < 0, k - ke >= 0;
        } else {
            assert(d > 0) by (nonlinear_arith)
                requires (ke - k0) * d > 0, ke - k0 > 0;
            assert((k - ke) * d >= 0) by (nonlinear_arith)
                requires d > 0, k - ke >= 0;
        }
    } else {
        assert((k0 - ke) * d == (a + k0 * d) - (a + ke * d)) by (nonlinear_arith);
        assert((ke - k) * d == (a + ke * d) - (a + k * d)) by (nonlinear_arith);
        if a + ke * d < 0 {
            assert(d > 0) by (nonlinear_arith)
                requires (k0 - ke) * d > 0, k0 - ke > 0;
            assert((ke - k) * d >= 0) by (nonlinear_arith)
                requires d > 0, ke - k >= 0;
        } else {
            assert(d < 0) by (nonlinear_arith)
                requires (k0 - ke) * d < 0, k0 - ke > 0;
            assert((ke - k) * d <= 0) by (nonlinear_arith)
                requires d < 0, ke - k >= 0;
        }
    }
}

/// Along the line from `i` through `j`, once it has left the map it stays off it.
proof fn lemma_line_stays_off(i: int, j: int, k0: int, ke: int, k: int)
    requires
        0 <= i < cells(),
        0 <= j < cells(),
        line_cell(i, j, k0) is Some,
        line_cell(i, j, ke) is None,
        (k0 < ke <= k) || (k <= ke < k0),
    ensures
        line_cell(i, j, k) is None,
{
    if !(0 <= line_x(i, j, ke) < 50) {
        lemma_stays_off(i % 50, j % 50 - i % 50, k0, ke, k);
    } else {
        lemma_stays_off(i / 50, j / 50 - i / 50, k0, ke, k);
    }
}

/// Cell `t` is reached in `lo..hi` steps along the line from `i` through `j`.
spec fn walked(i: int, j: int, lo: int, hi: int, t: int) -> bool {
    exists|q: int| lo <= q < hi && #[trigger] line_cell(i, j, q) == Some(t)
}

/// Marks every cell of the map on the line through `i` and `j`: walks back
/// from `i`, then on from `j`, each time until the map ends.
fn mark_line(marked: &mut Vec<bool>, i: usize, j: usize)
    requires
        i < cells(),
        j < cells(),
        i != j,
        old(marked)@.len() == cells(),
    ensures
        final(marked)@.len() == cells(),
        forall|t: int| 0 <= t < cells() ==> (final(marked)@[t] <==> old(marked)@[t] || on_line(i as int, j as int, t)),
{
    let ghost before = marked@;
    let xi = (i % 50) as i64;
    let yi = (i / 50) as i64;
    let dx = (j % 50) as i64 - xi;
    let dy = (j / 50) as i64 - yi;
    assert(dx != 0 || dy != 0) by {
        assert(i == 50 * (i / 50) + i % 50);
        assert(j == 50 * (j / 50) + j % 50);
    }
    let mut x = xi;
    let mut y = yi;
    let ghost mut k: int = 0;
    while 0 <= x && x < 50 && 0 <= y && y < 50
        invariant
            i < cells(),
            j < cells(),
            dx == j % 50 - i % 50,
            dy == j / 50 - i / 50,
            dx != 0 || dy != 0,
            k <= 0,
            before.len() == cells(),
            x == line_x(i as int, j as int, k),
            y == line_y(i as int, j as int, k),
            -100 <= x < 150,
            -100 <= y < 150,
            marked@.len() == cells(),
            forall|t: int|
                0 <= t < cells() ==> (#[trigger] marked@[t] <==> before[t] || walked(i as int, j as int, k + 1, 1, t)),
        decreases (if dx > 0 {
            x + dx
        } else if dx < 0 {
            50 - x - dx
        } else if dy > 0 {
            y + dy
        } else {
            50 - y - dy
        }),
    {
        let c = (50 * y + x) as usize;
        let ghost pre = marked@;
        marked.set(c, true);
        proof {
            assert(line_cell(i as int, j as int, k) == Some(c as int));
            assert forall|t: int| 0 <= t < cells() implies (#[trigger] marked@[t] <==> before[t] || walked(
                i as int,
                j as int,
                k,
                1,
                t,
            )) by {
                assert(pre[t] <==> before[t] || walked(i as int, j as int, k + 1, 1, t));
                if t == c {
                    assert(k <= k < 1 && line_cell(i as int, j as int, k) == Some(t));
                } else {
                    if walked(i as int, j as int, k, 1, t) {
                        let q = choose|q: int| k <= q < 1 && #[trigger] line_cell(i as int, j as int, q) == Some(t);
                        assert(q != k);
                        assert(k + 1 <= q < 1 && line_cell(i as int, j as int, q) == Some(t));
                    }
                    if walked(i as int, j as int, k + 1, 1, t) {
                        let q = choose|q: int| k + 1 <= q < 1 && #[trigger] line_cell(i as int, j as int, q) == Some(t);
                        assert(k <= q < 1 && line_cell(i as int, j as int, q) == Some(t));
                    }
                }
            }
            assert(line_x(i as int, j as int, k - 1) == x - dx) by (nonlinear_arith)
                requires x == line_x(i as int, j as int, k), dx == j % 50 - i % 50;
            assert(line_y(i as int, j as int, k - 1) == y - dy) by (nonlinear_arith)
                requires y == line_y(i as int, j as int, k), dy == j / 50 - i / 50;
            k = k - 1;
        }
        x = x - dx;
        y = y - dy;
    }
    let ghost kb = k;
    proof {
        assert(line_cell(i as int, j as int, kb) is None);
        assert(line_cell(i as int, j as int, 0) == Some(i as int)) by {
            assert(i == 50 * (i / 50) + i % 50);
        }
    }
    x = (j % 50) as i64;
    y = (j / 50) as i64;
    proof {
        k = 1;
        assert(line_x(i as int, j as int, 1) == j % 50);
        assert(line_y(i as int, j as int, 1) == j / 50);
    }
    let ghost mid = marked@;
    while 0 <= x && x < 50 && 0 <= y && y < 50
        invariant
            i < cells(),
            j < cells(),
            dx == j % 50 - i % 50,
            dy == j / 50 - i / 50,
            dx != 0 || dy != 0,
            k >= 1,
            mid.len() == cells(),
            x == line_x(i as int, j as int, k),
            y == line_y(i as int, j as int, k),
            -100 <= x < 150,
            -100 <= y < 150,
            marked@.len() == cells(),
            forall|t: int| 0 <= t < cells() ==> (#[trigger] marked@[t] <==> mid[t] || walked(i as int, j as int, 1, k, t)),
        decreases (if dx < 0 {
            x - dx
        } else if dx > 0 {
            50 - x + dx
        } else if dy < 0 {
            y - dy
        } else {
            50 - y + dy
        }),
    {
        let c = (50 * y + x) as usize;
        let ghost pre = marked@;
        marked.set(c, true);
        proof {
            assert(line_cell(i as int, j as int, k) == Some(c as int));
            assert forall|t: int| 0 <= t < cells() implies (#[trigger] marked@[t] <==> mid[t] || walked(
                i as int,
                j as int,
                1,
                k + 1,
                t,
            )) by {
                assert(pre[t] <==> mid[t] || walked(i as int, j as int, 1, k, t));
                if t == c {
                    assert(1 <= k < k + 1 && line_cell(i as int, j as int, k) == Some(t));
                } else {
                    if walked(i as int, j as int, 1, k + 1, t) {
                        let q = choose|q: int| 1 <= q < k + 1 && #[trigger] line_cell(i as int, j as int, q) == Some(t);
                        assert(q != k);
                        assert(1 <= q < k && line_cell(i as int, j as int, q) == Some(t));
                    }
                    if walked(i as int, j as int, 1, k, t) {
                        let q = choose|q: int| 1 <= q < k && #[trigger] line_cell(i as int, j as int, q) == Some(t);
                        assert(1 <= q < k + 1 && line_cell(i as int, j as int, q) == Some(t));
                    }
                }
            }
            assert(line_x(i as int, j as int, k + 1) == x + dx) by (nonlinear_arith)
                requires x == line_x(i as int, j as int, k), dx == j % 50 - i % 50;
            assert(line_y(i as int, j as int, k + 1) == y + dy) by (nonlinear_arith)
                requires y == line_y(i as int, j as int, k), dy == j / 50 - i / 50;
            k = k + 1;
        }
        x = x + dx;
        y = y + dy;
    }
    proof {
        let kf = k;
        assert(line_cell(i as int, j as int, kf) is None);
        assert(line_cell(i as int, j as int, 1) == Some(j as int)) by {
            assert(j == 50 * (j / 50) + j % 50);
        }
        assert forall|t: int| 0 <= t < cells() implies (marked@[t] <==> before[t] || on_line(i as int, j as int, t)) by {
            assert(marked@[t] <==> mid[t] || walked(i as int, j as int, 1, kf, t));
            assert(mid[t] <==> before[t] || walked(i as int, j as int, kb + 1, 1, t));
            if on_line(i as int, j as int, t) {
                let q = choose|q: int| #[trigger] line_cell(i as int, j as int, q) == Some(t);
                if q <= kb {
                    lemma_line_stays_off(i as int, j as int, 0, kb, q);
                } else if q >= kf {
                    lemma_line_stays_off(i as int, j as int, 1, kf, q);
                } else if q <= 0 {
                    assert(kb + 1 <= q < 1 && line_cell(i as int, j as int, q) == Some(t));
                } else {
                    assert(1 <= q < kf && line_cell(i as int, j as int, q) == Some(t));
                }
            }
            if walked(i as int, j as int, 1, kf, t) {
                let q = choose|q: int| 1 <= q < kf && #[trigger] line_cell(i as int, j as int, q) == Some(t);
            }
            if walked(i as int, j as int, kb + 1, 1, t) {
                let q = choose|q: int| kb + 1 <= q < 1 && #[trigger] line_cell(i as int, j as int, q) == Some(t);
            }
        }
    }
}

/// Cell `t` lies on the line of a pair handled before `(i, j)`.
spec fn covered(s: Seq<u8>, i: int, j: int, t: int) -> bool {
    exists|i2: int, j2: int| handled(i, j, i2, j2) && pair(s, i2, j2) && #[trigger] on_line(i2, j2, t)
}

/// Part 2: the number of cells on the line of some pair of antennas of one
/// frequency, at a whole number of their distances from one of them.
pub fn part2(input: &str) -> (r: u64)
    requires
        wf_input(input.spec_bytes()),
        wf_antennas(input.spec_bytes()),
    ensures
        r == resonant_count(input.spec_bytes(), cells()),
{
    let s = input.as_bytes();
    let mut marked: Vec<bool> = vec![false; 2500];
    let mut i: usize = 0;
    while i < 2500
        invariant
            wf_input(s@),
            i <= cells(),
            marked@.len() == cells(),
            forall|t: int| 0 <= t < cells() ==> (#[trigger] marked@[t] <==> covered(s@, i as int, 0, t)),
        decreases cells() - i,
    {
        let mut j: usize = 0;
        let a = cell_exec(s, i);
        while j < 2500
            invariant
                wf_input(s@),
                i < cells(),
                j <= cells(),
                a == cell(s@, i as int),
                marked@.len() == cells(),
                forall|t: int| 0 <= t < cells() ==> (#[trigger] marked@[t] <==> covered(s@, i as int, j as int, t)),
            decreases cells() - j,
        {
            let ghost before = marked@;
            let is_pair = j != i && a != 46 && cell_exec(s, j) == a;
            if is_pair {
                mark_line(&mut marked, i, j);
            }
            proof {
                assert forall|t: int| 0 <= t < cells() implies (#[trigger] marked@[t] <==> covered(
                    s@,
                    i as int,
                    j + 1,
                    t,
                )) by {
                    assert(before[t] <==> covered(s@, i as int, j as int, t));
                    if covered(s@, i as int, j + 1, t) {
                        let (i2, j2) = choose|i2: int, j2: int|
                            handled(i as int, j + 1, i2, j2) && pair(s@, i2, j2) && #[trigger] on_line(i2, j2, t);
                        if handled(i as int, j as int, i2, j2) {
                            assert(covered(s@, i as int, j as int, t));
                        } else {
                            assert(i2 == i && j2 == j);
                        }
                    }
                    if covered(s@, i as int, j as int, t) {
                        let (i2, j2) = choose|i2: int, j2: int|
                            handled(i as int, j as int, i2, j2) && pair(s@, i2, j2) && #[trigger] on_line(i2, j2, t);
                        assert(handled(i as int, j + 1, i2, j2));
                    }
                    if is_pair && on_line(i as int, j as int, t) {
                        assert(handled(i as int, j + 1, i as int, j as int) && pair(s@, i as int, j as int));
                    }
                }
            }
            j = j + 1;
        }
        proof {
            assert forall|t: int| 0 <= t < cells() implies (#[trigger] marked@[t] <==> covered(s@, i + 1, 0, t)) by {
                assert(marked@[t] <==> covered(s@, i as int, cells(), t));
                if covered(s@, i as int, cells(), t) {
                    let (i2, j2) = choose|i2: int, j2: int|
                        handled(i as int, cells(), i2, j2) && pair(s@, i2, j2) && #[trigger] on_line(i2, j2, t);
                    assert(handled(i + 1, 0, i2, j2));
                }
                if covered(s@, i + 1, 0, t) {
                    let (i2, j2) = choose|i2: int, j2: int|
                        handled(i + 1, 0, i2, j2) && pair(s@, i2, j2) && #[trigger] on_line(i2, j2, t);
                    assert(handled(i as int, cells(), i2, j2));
                }
            }
        }
        i = i + 1;
    }
    let mut count: u64 = 0;
    let mut t: usize = 0;
    while t < 2500
        invariant
            wf_input(s@),
            s@ == input.spec_bytes(),
            t <= cells(),
            marked@.len() == cells(),
            forall|u: int| 0 <= u < cells() ==> (#[trigger] marked@[u] <==> covered(s@, cells(), 0, u)),
            count == resonant_count(s@, t as int),
            count <= t,
        decreases cells() - t,
    {
        proof {
            assert(marked@[t as int] <==> covered(s@, cells(), 0, t as int));
            if resonant(s@, t as int) {
                let (i2, j2) = choose|i2: int, j2: int| pair(s@, i2, j2) && #[trigger] on_line(i2, j2, t as int);
                assert(handled(cells(), 0, i2, j2));
            }
            if covered(s@, cells(), 0, t as int) {
                let (i2, j2) = choose|i2: int, j2: int|
                    handled(cells(), 0, i2, j2) && pair(s@, i2, j2) && #[trigger] on_line(i2, j2, t as int);
            }
        }
        if marked[t] {
            count = count + 1;
        }
        t = t + 1;
    }
    count
}

/// The answer of part 1, as a signed number.
pub fn run(input: &str) -> (r: i64)
    requires
        wf_input(input.spec_bytes()),
        wf_antennas(input.spec_bytes()),
    ensures
        r == antinode_count(input.spec_bytes(), cells()),
{
    proof {
        lemma_count_bound(input.spec_bytes(), cells());
    }
    part1(input) as i64
}

proof fn lemma_count_bound(s: Seq<u8>, n: int)
    requires
        0 <= n,
    ensures
        0 <= antinode_count(s, n) <= n,
    decreases n,
{
    if n > 0 {
        lemma_count_bound(s, n - 1);
    }
}

} // verus!
