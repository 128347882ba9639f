//! Ceres search: counting XMAS words and X-MAS crosses in a 140 x 140 grid.
use vstd::prelude::*;
use vstd::string::StringSliceAdditionalSpecFns;

verus! {

/// The side of the grid; each row is followed by a newline.
pub open spec fn side() -> int {
    140
}

/// The letter at row `r`, column `c`.
pub open spec fn letter(s: Seq<u8>, r: int, c: int) -> u8 {
    s[141 * r + c]
}

/// `(r, c)` lies in the grid.
pub open spec fn in_grid(r: int, c: int) -> bool {
    0 <= r < side() && 0 <= c < side()
}

/// The `k`-th letter of `XMAS`.
pub open spec fn xmas_letter(k: int) -> u8 {
    if k == 0 {
        88
    } else if k == 1 {
        77
    } else if k == 2 {
        65
    } else {
        83
    }
}

/// Letter `k` of `XMAS` stands `k` steps from `(r, c)` in direction `(dr, dc)`.
pub open spec fn xmas_step(s: Seq<u8>, r: int, c: int, dr: int, dc: int, k: int) -> bool {
    in_grid(r + k * dr, c + k * dc) && letter(s, r + k * dr, c + k * dc) == xmas_letter(k)
}

/// `XMAS` is written from `(r, c)` in direction `(dr, dc)`, inside the grid.
pub open spec fn xmas_at(s: Seq<u8>, r: int, c: int, dr: int, dc: int) -> bool {
    &&& xmas_step(s, r, c, dr, dc, 0)
    &&& xmas_step(s, r, c, dr, dc, 1)
    &&& xmas_step(s, r, c, dr, dc, 2)
    &&& xmas_step(s, r, c, dr, dc, 3)
}

/// `1` if `b` holds, else `0`.
pub open spec fn ind(b: bool) -> int {
    if b {
        1
    } else {
        0
    }
}

/// The number of directions in which `XMAS` starts at `(r, c)`.
pub open spec fn xmas_count_at(s: Seq<u8>, r: int, c: int) -> int {
    ind(xmas_at(s, r, c, 0, 1)) + ind(xmas_at(s, r, c, 0, -1)) + ind(xmas_at(s, r, c, 1, 0)) + ind(
        xmas_at(s, r, c, -1, 0),
    ) + ind(xmas_at(s, r, c, 1, 1)) + ind(xmas_at(s, r, c, 1, -1)) + ind(xmas_at(s, r, c, -1, 1))
        + ind(xmas_at(s, r, c, -1, -1))
}

/// The two letters are `M` and `S`, in either order.
pub open spec fn m_and_s(a: u8, b: u8) -> bool {
    (a == 77 && b == 83) || (a == 83 && b == 77)
}

/// An X-MAS is centred on `(r, c)`: an `A` with `MAS` written on both diagonals.
pub open spec fn x_mas_at(s: Seq<u8>, r: int, c: int) -> bool {
    &&& 1 <= r < side() - 1 && 1 <= c < side() - 1
    &&& letter(s, r, c) == 65
    &&& m_and_s(letter(s, r - 1, c - 1), letter(s, r + 1, c + 1))
    &&& m_and_s(letter(s, r - 1, c + 1), letter(s, r + 1, c - 1))
}

/// The count over the first `n` cells in row-major order of `f(cell)`.
pub open spec fn xmas_total(s: Seq<u8>, n: int) -> int
    decreases n,
{
    if n <= 0 {
        0
    } else {
        xmas_total(s, n - 1) + xmas_count_at(s, (n - 1) / side(), (n - 1) % side())
    }
}

/// The number of X-MAS centres among the first `n` cells in row-major order.
pub open spec fn x_mas_total(s: Seq<u8>, n: int) -> int
    decreases n,
{
    if n <= 0 {
        0
    } else {
        x_mas_total(s, n - 1) + ind(x_mas_at(s, (n - 1) / side(), (n - 1) % side()))
    }
}

/// The input is the 140 rows of 140 letters, each followed by a newline.
pub open spec fn wf_input(s: Seq<u8>) -> bool {
    s.len() == 141 * side()
}

/// The letter at `(r, c)`, for a cell of the grid.
fn letter_exec(s: &[u8], r: i64, c: i64) -> (v: u8)
    requires
        wf_input(s@),
        in_grid(r as int, c as int),
    ensures
        v == letter(s@, r as int, c as int),
{
    assert(0 <= 141 * r + c < 141 * 140) by (nonlinear_arith)
        requires
            0 <= r < 140,
            0 <= c < 140,
    ;
    s[(141 * r + c) as usize]
}

/// Whether `XMAS` starts at `(r, c)` in direction `(dr, dc)`.
fn xmas_exec(s: &[u8], r: i64, c: i64, dr: i64, dc: i64) -> (b: bool)
    requires
        wf_input(s@),
        in_grid(r as int, c as int),
        -1 <= dr <= 1,
        -1 <= dc <= 1,
    ensures
        b == xmas_at(s@, r as int, c as int, dr as int, dc as int),
{
    let er = r + 3 * dr;
    let ec = c + 3 * dc;
    if !(0 <= er && er < 140 && 0 <= ec && ec < 140) {
        return false;
    }
    assert(in_grid(r + dr, c + dc) && in_grid(r + 2 * dr, c + 2 * dc));
    letter_exec(s, r, c) == 88 && letter_exec(s, r + dr, c + dc) == 77 && letter_exec(
        s,
        r + 2 * dr,
        c + 2 * dc,
    ) == 65 && letter_exec(s, er, ec) == 83
}

/// Whether an X-MAS is centred on `(r, c)`.
fn x_mas_exec(s: &[u8], r: usize, c: usize) -> (b: bool)
    requires
        wf_input(s@),
        in_grid(r as int, c as int),
    ensures
        b == x_mas_at(s@, r as int, c as int),
{
    if r < 1 || r >= 139 || c < 1 || c >= 139 {
        return false;
    }
    let at = |rr: usize, cc: usize| -> (v: u8)
        requires
            rr < 140 && cc < 140,
            s@.len() == 141 * 140,
        ensures
            v == letter(s@, rr as int, cc as int),
    {
        assert(141 * rr + cc < 141 * 140) by (nonlinear_arith) requires rr < 140, cc < 140;
        s[141 * rr + cc]
    };
    let a = at(r, c);
    let tl = at(r - 1, c - 1);
    let br = at(r + 1, c + 1);
    let tr = at(r - 1, c + 1);
    let bl = at(r + 1, c - 1);
    a == 65 && ((tl == 77 && br == 83) || (tl == 83 && br == 77)) && ((tr == 77 && bl == 83) || (tr == 83
        && bl == 77))
}

/// Part 1: the number of times `XMAS` is written, in any of the eight directions.
pub fn part1(input: &str) -> (r: u32)
    requires
        wf_input(input.spec_bytes()),
    ensures
        r == xmas_total(input.spec_bytes(), side() * side()),
{
    let s = input.as_bytes();
    let mut tot: u32 = 0;
    let mut n: usize = 0;
    while n < 140 * 140
        invariant
            n <= 140 * 140,
            wf_input(s@),
            tot == xmas_total(s@, n as int),
            0 <= tot <= 8 * n,
        decreases 140 * 140 - n,
    {
        let r = (n / 140) as i64;
        let c = (n % 140) as i64;
        let mut k: u32 = 0;
        if xmas_exec(s, r, c, 0, 1) { k = k + 1; }
        if xmas_exec(s, r, c, 0, -1) { k = k + 1; }
        if xmas_exec(s, r, c, 1, 0) { k = k + 1; }
        if xmas_exec(s, r, c, -1, 0) { k = k + 1; }
        if xmas_exec(s, r, c, 1, 1) { k = k + 1; }
        if xmas_exec(s, r, c, 1, -1) { k = k + 1; }
        if xmas_exec(s, r, c, -1, 1) { k = k + 1; }
        if xmas_exec(s, r, c, -1, -1) { k = k + 1; }
        assert(k == xmas_count_at(s@, (n as int) / side(), (n as int) % side()));
        tot = tot + k;
        n = n + 1;
    }
    tot
}

/// Part 2: the number of X-MAS crosses.
pub fn part2(input: &str) -> (r: u32)
    requires
        wf_input(input.spec_bytes()),
    ensures
        r == x_mas_total(input.spec_bytes(), side() * side()),
{
    let s = input.as_bytes();
    let mut tot: u32 = 0;
    let mut n: usize = 0;
    while n < 140 * 140
        invariant
            n <= 140 * 140,
            wf_input(s@),
            tot == x_mas_total(s@, n as int),
            0 <= tot <= n,
        decreases 140 * 140 - n,
    {
        let b = x_mas_exec(s, n / 140, n % 140);
        assert(b == x_mas_at(s@, (n as int) / side(), (n as int) % side()));
        if b {
            tot = tot + 1;
        }
        n = n + 1;
    }
    tot
}

/// The answer of part 2, as a signed number.
pub fn run(input: &str) -> (r: i64)
    requires
        wf_input(input.spec_bytes()),
    ensures
        r == x_mas_total(input.spec_bytes(), side() * side()),
{
    part2(input) as i64
}

} // verus!
