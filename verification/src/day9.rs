//! Disk fragmenter: whole files moved into the leftmost free span that fits.
//!
//! The disk map is a row of digits: the sizes of file 0, of the free span
//! after it, of file 1, and so on. Files are tried from the highest number
//! down; each moves to the leftmost free span before it that can hold it.
use vstd::prelude::*;
use vstd::string::StringSliceAdditionalSpecFns;

verus! {

/// The number of digits of the disk map (a final newline is not one).
pub open spec fn digit_count(s: Seq<u8>) -> int {
    if s.len() > 0 && s[s.len() - 1] == 10 {
        s.len() - 1
    } else {
        s.len() as int
    }
}

/// The size given by digit `j`; 0 past the last digit.
pub open spec fn size(s: Seq<u8>, j: int) -> int {
    if 0 <= j < digit_count(s) {
        s[j] - 48
    } else {
        0
    }
}

/// The number of blocks before the area of digit `j`.
pub open spec fn offset(s: Seq<u8>, j: int) -> int
    decreases j,
{
    if j <= 0 {
        0
    } else {
        offset(s, j - 1) + size(s, j - 1)
    }
}

/// The number of files.
pub open spec fn files(s: Seq<u8>) -> int {
    (digit_count(s) + 1) / 2
}

/// The first free span among the first `n` whose free room holds `need`
/// blocks, or `n` if none does.
pub open spec fn first_fit(free: Seq<int>, need: int, n: int) -> int
    decreases n,
{
    if n <= 0 {
        0
    } else {
        let k = first_fit(free, need, n - 1);
        if k < n - 1 {
            k
        } else if free[n - 1] >= need {
            n - 1
        } else {
            n
        }
    }
}

/// The disk before any move: where each free span's room starts, how much
/// room it has, and where each file starts.
pub open spec fn initial(s: Seq<u8>) -> (Seq<int>, Seq<int>, Seq<int>) {
    (
        Seq::new(files(s) as nat, |k: int| offset(s, 2 * k + 1)),
        Seq::new(files(s) as nat, |k: int| size(s, 2 * k + 1)),
        Seq::new(files(s) as nat, |f: int| offset(s, 2 * f)),
    )
}

/// The disk once the `m` highest files have been tried.
pub open spec fn compacted(s: Seq<u8>, m: int) -> (Seq<int>, Seq<int>, Seq<int>)
    decreases m,
{
    if m <= 0 {
        initial(s)
    } else {
        let (at, room, start) = compacted(s, m - 1);
        let f = files(s) - m;
        let need = size(s, 2 * f);
        let k = first_fit(room, need, f);
        if k < f {
            (at.update(k, at[k] + need), room.update(k, room[k] - need), start.update(f, at[k]))
        } else {
            (at, room, start)
        }
    }
}

/// The checksum of files `0..n` placed at `start`: each block's position
/// times its file number.
pub open spec fn checksum(s: Seq<u8>, start: Seq<int>, n: int) -> int
    decreases n,
{
    if n <= 0 {
        0
    } else {
        let f = n - 1;
        let len = size(s, 2 * f);
        checksum(s, start, n - 1) + f * (len * start[f] + len * (len - 1) / 2)
    }
}

/// A row of at most 20000 digits, perhaps followed by a newline.
pub open spec fn wf_input(s: Seq<u8>) -> bool {
    &&& digit_count(s) <= 20000
    &&& forall|j: int| 0 <= j < digit_count(s) ==> 48 <= #[trigger] s[j] <= 57
}

proof fn lemma_offset_bound(s: Seq<u8>, j: int)
    requires
        wf_input(s),
        0 <= j,
    ensures
        0 <= offset(s, j) <= 9 * j,
    decreases j,
{
    if j > 0 {
        lemma_offset_bound(s, j - 1);
        if 0 <= j - 1 < digit_count(s) {
            assert(48 <= s[j - 1] <= 57);
        }
    }
}

proof fn lemma_first_fit(free: Seq<int>, need: int, n: int)
    requires
        0 <= n,
    ensures
        0 <= first_fit(free, need, n) <= n,
        first_fit(free, need, n) < n ==> free[first_fit(free, need, n)] >= need,
        forall|k: int| 0 <= k < first_fit(free, need, n) ==> free[k] < need,
    decreases n,
{
    if n > 0 {
        lemma_first_fit(free, need, n - 1);
    }
}

/// The size given by digit `j`.
fn size_exec(s: &[u8], l: usize, j: usize) -> (r: u64)
    requires
        wf_input(s@),
        l == digit_count(s@),
    ensures
        r == size(s@, j as int),
        r <= 9,
{
    if j < l {
        (s[j] - 48) as u64
    } else {
        0
    }
}

/// The first free span among the first `n` whose room holds `need` blocks,
/// or `n` if none does.
fn first_fit_exec(room: &Vec<u64>, need: u64, n: usize) -> (k: usize)
    requires
        n <= room@.len(),
    ensures
        k == first_fit(room@.map_values(|v: u64| v as int), need as int, n as int),
{
    let ghost r = room@.map_values(|v: u64| v as int);
    let mut k: usize = 0;
    while k < n && room[k] < need
        invariant
            n <= room@.len(),
            r == room@.map_values(|v: u64| v as int),
            k <= n,
            forall|j: int| 0 <= j < k ==> room@[j] < need,
        decreases n - k,
    {
        k = k + 1;
    }
    proof {
        lemma_first_fit(r, need as int, n as int);
        let q = first_fit(r, need as int, n as int);
        if q < k {
            assert(r[q] >= need);
            assert(room@[q] < need);
        }
        if k < q {
            assert(r[k as int] < need);
        }
    }
    k
}

/// The number of file blocks in the digits from `j` on.
pub open spec fn file_blocks_from(s: Seq<u8>, j: int) -> int
    decreases digit_count(s) - j,
{
    if j >= digit_count(s) {
        0
    } else {
        file_blocks_from(s, j + 1) + if j % 2 == 0 {
            size(s, j)
        } else {
            0
        }
    }
}

/// The number of file blocks on the disk.
pub open spec fn file_total(s: Seq<u8>) -> int {
    file_blocks_from(s, 0)
}

/// The number of free blocks before digit `j`.
pub open spec fn free_before(s: Seq<u8>, j: int) -> int
    decreases j,
{
    if j <= 0 {
        0
    } else {
        free_before(s, j - 1) + if (j - 1) % 2 == 1 {
            size(s, j - 1)
        } else {
            0
        }
    }
}

/// The file of the file block `r` places from the end, counting the file
/// digits `j`, `j - 2`, ... down to the first.
pub open spec fn back_file(s: Seq<u8>, j: int, r: int) -> int
    decreases j + 2,
{
    if j < 0 {
        0
    } else if r < size(s, j) {
        j / 2
    } else {
        back_file(s, j - 2, r - size(s, j))
    }
}

/// The file on block `p` of the area of digit `j` once single blocks have
/// been moved: a file digit keeps its file; free room gets, for the free
/// block of rank `r`, the file block `r` places from the end of the disk.
pub open spec fn moved_file(s: Seq<u8>, j: int, p: int) -> int {
    if j % 2 == 0 {
        j / 2
    } else {
        back_file(s, digit_count(s) - 1, free_before(s, j) + (p - offset(s, j)))
    }
}

/// The sum of `p * moved_file(s, j, p)` over the blocks `lo <= p < hi`.
pub open spec fn block_sum(s: Seq<u8>, j: int, lo: int, hi: int) -> int
    decreases hi - lo,
{
    if lo >= hi {
        0
    } else {
        block_sum(s, j, lo, hi - 1) + (hi - 1) * moved_file(s, j, hi - 1)
    }
}

/// The checksum of the areas of the digits before `k` once single blocks
/// have been moved; the blocks from `file_total(s)` on are then free.
pub open spec fn block_checksum(s: Seq<u8>, k: int) -> int
    decreases k,
{
    if k <= 0 {
        0
    } else {
        let hi = if offset(s, k) < file_total(s) {
            offset(s, k)
        } else {
            file_total(s)
        };
        block_checksum(s, k - 1) + block_sum(s, k - 1, offset(s, k - 1), hi)
    }
}

/// A disk map for single-block moves: it ends with a file.
pub open spec fn wf_blocks(s: Seq<u8>) -> bool {
    &&& wf_input(s)
    &&& digit_count(s) % 2 == 1
}

proof fn lemma_file_blocks_step(s: Seq<u8>, j: int)
    requires
        0 <= j,
    ensures
        file_blocks_from(s, j) == file_blocks_from(s, j + 1) + if j % 2 == 0 {
            size(s, j)
        } else {
            0
        },
    decreases digit_count(s) - j,
{
    if j < digit_count(s) {
        lemma_file_blocks_step(s, j + 1);
    }
}

proof fn lemma_file_blocks_nonneg(s: Seq<u8>, j: int)
    requires
        wf_input(s),
        0 <= j,
    ensures
        file_blocks_from(s, j) >= 0,
    decreases digit_count(s) - j,
{
    if j < digit_count(s) {
        lemma_file_blocks_nonneg(s, j + 1);
        assert(48 <= s[j] <= 57);
    }
}

proof fn lemma_file_blocks_mono(s: Seq<u8>, a: int, b: int)
    requires
        wf_input(s),
        0 <= a <= b,
    ensures
        file_blocks_from(s, a) >= file_blocks_from(s, b) >= 0,
    decreases b - a,
{
    lemma_file_blocks_step(s, b);
    lemma_file_blocks_nonneg(s, b);
    if a < b {
        lemma_file_blocks_mono(s, a, b - 1);
        lemma_file_blocks_step(s, b - 1);
        if 0 <= b - 1 < digit_count(s) {
            assert(48 <= s[b - 1] <= 57);
        }
    }
}

/// Every block before digit `j` is a file block or a free one.
proof fn lemma_offset_split(s: Seq<u8>, j: int)
    requires
        wf_input(s),
        0 <= j,
    ensures
        offset(s, j) == free_before(s, j) + file_total(s) - file_blocks_from(s, j),
    decreases j,
{
    if j > 0 {
        lemma_offset_split(s, j - 1);
        lemma_file_blocks_step(s, j - 1);
    }
}

/// The file blocks of file digit `k` are the ones counted from the end past
/// those of the later digits.
proof fn lemma_back_file(s: Seq<u8>, j: int, k: int, r: int)
    requires
        wf_input(s),
        0 <= k <= j < digit_count(s),
        j % 2 == 0,
        k % 2 == 0,
        file_blocks_from(s, k + 1) - file_blocks_from(s, j + 1) <= r,
        r < file_blocks_from(s, k + 1) - file_blocks_from(s, j + 1) + size(s, k),
    ensures
        back_file(s, j, r) == k / 2,
    decreases j - k,
{
    if k < j {
        lemma_file_blocks_step(s, j);
        lemma_file_blocks_step(s, j - 1);
        lemma_file_blocks_mono(s, k + 1, j);
        lemma_back_file(s, j - 2, k, r - size(s, j));
    }
}

/// A sum of positions all holding one file.
proof fn lemma_block_series(s: Seq<u8>, j: int, lo: int, n: int, c: int)
    requires
        0 <= n,
        forall|p: int| lo <= p < lo + n ==> #[trigger] moved_file(s, j, p) == c,
    ensures
        2 * block_sum(s, j, lo, lo + n) == c * (n * (2 * lo + n - 1)),
    decreases n,
{
    if n > 0 {
        lemma_block_series(s, j, lo, n - 1, c);
        let t = block_sum(s, j, lo, lo + n - 1);
        assert(moved_file(s, j, lo + n - 1) == c);
        assert(block_sum(s, j, lo, lo + n) == t + (lo + n - 1) * c);
        assert(c * (n * (2 * lo + n - 1)) == c * ((n - 1) * (2 * lo + n - 2)) + 2 * ((lo + n - 1) * c))
            by (nonlinear_arith);
    } else {
        assert(c * (n * (2 * lo + n - 1)) == 0) by (nonlinear_arith)
            requires n == 0;
    }
}

proof fn lemma_block_split(s: Seq<u8>, j: int, lo: int, mid: int, hi: int)
    requires
        lo <= mid <= hi,
    ensures
        block_sum(s, j, lo, hi) == block_sum(s, j, lo, mid) + block_sum(s, j, mid, hi),
    decreases hi - mid,
{
    if mid < hi {
        lemma_block_split(s, j, lo, mid, hi - 1);
    }
}

proof fn lemma_offset_mono(s: Seq<u8>, a: int, b: int)
    requires
        wf_input(s),
        a <= b,
    ensures
        offset(s, a) <= offset(s, b),
    decreases b - a,
{
    if a < b {
        lemma_offset_mono(s, a, b - 1);
        if 0 <= b - 1 < digit_count(s) {
            assert(48 <= s[b - 1] <= 57);
        }
    }
}

/// Past the last file block the checksum gains nothing.
proof fn lemma_checksum_rest(s: Seq<u8>, k0: int, k: int)
    requires
        wf_input(s),
        0 <= k0 <= k,
        file_total(s) <= offset(s, k0),
    ensures
        block_checksum(s, k) == block_checksum(s, k0),
    decreases k - k0,
{
    if k0 < k {
        lemma_checksum_rest(s, k0, k - 1);
        lemma_offset_mono(s, k0, k - 1);
    }
}

proof fn lemma_free_before_nonneg(s: Seq<u8>, j: int)
    requires
        wf_input(s),
    ensures
        free_before(s, j) >= 0,
    decreases j,
{
    if j > 0 {
        lemma_free_before_nonneg(s, j - 1);
        if 0 <= j - 1 < digit_count(s) {
            assert(48 <= s[j - 1] <= 57);
        }
    }
}

proof fn lemma_series_even(n: int, lo: int)
    requires
        0 <= n,
    ensures
        (n * (2 * lo + n - 1)) % 2 == 0,
{
    if n % 2 == 0 {
        let h = n / 2;
        assert(n * (2 * lo + n - 1) == 2 * (h * (2 * lo + n - 1))) by (nonlinear_arith)
            requires n == 2 * h;
    } else {
        let h = (n - 1) / 2;
        assert(n * (2 * lo + n - 1) == 2 * (n * (lo + h))) by (nonlinear_arith)
            requires n - 1 == 2 * h;
    }
}

/// The blocks `pos..pos + len`, all of file `id`, summed as position times file.
fn chunk_sum(id: u64, pos: u64, len: u64) -> (r: u64)
    requires
        id < 10000,
        pos <= 180000,
        len <= 9,
    ensures
        2 * r == id * (len * (2 * pos + len - 1)),
        r <= 10000 * len * (pos + len),
{
    if len == 0 {
        assert(id * (len * (2 * pos + len - 1)) == 0) by (nonlinear_arith)
            requires len == 0;
        0
    } else {
        proof {
            assert(len * (2 * pos + len - 1) <= 9 * 360008) by (nonlinear_arith)
                requires 1 <= len <= 9, pos <= 180000;
        }
        let q = len * (2 * pos + len - 1);
        proof {
            assert(id * (q / 2) <= 10000 * (9 * 360008)) by (nonlinear_arith)
                requires id < 10000, q / 2 <= 9 * 360008;
            lemma_series_even(len as int, pos as int);
            assert(q / 2 <= len * (pos + len)) by (nonlinear_arith)
                requires q == len * (2 * pos + len - 1), len >= 1;
            assert(id * (q / 2) <= 10000 * len * (pos + len)) by (nonlinear_arith)
                requires id < 10000, q / 2 <= len * (pos + len);
            assert(2 * (id * (q / 2)) == id * q) by (nonlinear_arith)
                requires q % 2 == 0;
        }
        id * (q / 2)
    }
}

/// Part 1: the checksum once single blocks have been moved from the end of
/// the disk into the leftmost free blocks.
pub fn part1(input: &str) -> (r: u64)
    requires
        wf_blocks(input.spec_bytes()),
    ensures
        r == block_checksum(input.spec_bytes(), digit_count(input.spec_bytes())),
{
    let s = input.as_bytes();
    let ghost g = s@;
    let len = s.len();
    let l: usize = if s[len - 1] == 10 {
        len - 1
    } else {
        len
    };
    let ghost big_f = file_total(g);
    proof {
        lemma_offset_split(g, l as int);
        lemma_offset_bound(g, l as int);
        lemma_free_before_nonneg(g, l as int);
        lemma_file_blocks_step(g, l as int);
        assert(file_blocks_from(g, l as int) == 0);
        assert(big_f <= 180000);
        lemma_file_blocks_step(g, l as int - 1);
        lemma_file_blocks_step(g, 0);
        lemma_file_blocks_nonneg(g, 0);
    }
    let mut idf: usize = 0;
    let mut idb: usize = l - 1;
    let mut idb_len: u64 = size_exec(s, l, idb);
    let mut tot: u64 = 0;
    let mut pos: u64 = 0;
    while idf < idb
        invariant
            wf_blocks(g),
            g == s@,
            g == input.spec_bytes(),
            l == digit_count(g),
            1 <= l <= 20000,
            big_f == file_total(g),
            big_f <= 180000,
            file_blocks_from(g, l as int) == 0,
            idf % 2 == 0,
            idb % 2 == 0,
            idf <= idb < l,
            idb_len <= size(g, idb as int),
            pos == offset(g, idf as int),
            free_before(g, idf as int) == file_blocks_from(g, idb + 1) + size(g, idb as int) - idb_len,
            tot == block_checksum(g, idf as int),
            pos <= big_f,
            tot <= 10000 * pos * pos,
        decreases idb - idf,
    {
        let flen = size_exec(s, l, idf);
        proof {
            lemma_block_series(g, idf as int, pos as int, flen as int, (idf / 2) as int);
            lemma_offset_split(g, idf + 1);
            lemma_file_blocks_step(g, idf as int);
            lemma_file_blocks_step(g, idb as int);
            lemma_file_blocks_mono(g, idf + 1, idb as int);
            assert(offset(g, idf + 1) == pos + flen);
            assert(free_before(g, idf + 1) == free_before(g, idf as int));
        }
        let c = chunk_sum((idf / 2) as u64, pos, flen);
        proof {
            assert(tot + c <= 10000 * (pos + flen) * (pos + flen)) by (nonlinear_arith)
                requires tot <= 10000 * pos * pos, c <= 10000 * flen * (pos + flen);
            assert(10000 * (pos + flen) * (pos + flen) <= 10000 * 180000 * 180000) by (nonlinear_arith)
                requires pos + flen <= 180000;
        }
        tot = tot + c;
        pos = pos + flen;
        idf = idf + 1;
        let mut fill_len = size_exec(s, l, idf);
        let ghost idb0 = idb;
        while fill_len >= idb_len
            invariant
                idb <= idb0,
                wf_blocks(g),
                g == s@,
                g == input.spec_bytes(),
                l == digit_count(g),
                1 <= l <= 20000,
                big_f == file_total(g),
                big_f <= 180000,
                file_blocks_from(g, l as int) == 0,
                idf % 2 == 1,
                idb % 2 == 0,
                idf < idb < l,
                fill_len <= size(g, idf as int),
                idb_len <= size(g, idb as int),
                pos == offset(g, idf as int) + (size(g, idf as int) - fill_len),
                free_before(g, idf as int) + (size(g, idf as int) - fill_len) == file_blocks_from(g, idb + 1) + size(
                    g,
                    idb as int,
                ) - idb_len,
                tot == block_checksum(g, idf as int) + block_sum(g, idf as int, offset(g, idf as int), pos as int),
                pos <= big_f,
                tot <= 10000 * pos * pos,
            decreases idb,
        {
            proof {
                lemma_offset_split(g, idf as int);
                lemma_file_blocks_step(g, idb as int);
                lemma_file_blocks_step(g, idb - 1);
                lemma_file_blocks_mono(g, idf as int, idb as int);
                assert forall|p: int| pos <= p < pos + idb_len implies #[trigger] moved_file(g, idf as int, p) == idb / 2 by {
                    lemma_back_file(g, l - 1, idb as int, free_before(g, idf as int) + (p - offset(g, idf as int)));
                }
                lemma_block_series(g, idf as int, pos as int, idb_len as int, (idb / 2) as int);
                lemma_block_split(g, idf as int, offset(g, idf as int), pos as int, pos + idb_len);
            }
            let c = chunk_sum((idb / 2) as u64, pos, idb_len);
            proof {
                assert(tot + c <= 10000 * (pos + idb_len) * (pos + idb_len)) by (nonlinear_arith)
                    requires tot <= 10000 * pos * pos, c <= 10000 * idb_len * (pos + idb_len);
                assert(10000 * (pos + idb_len) * (pos + idb_len) <= 10000 * 180000 * 180000) by (nonlinear_arith)
                    requires pos + idb_len <= 180000;
            }
            tot = tot + c;
            pos = pos + idb_len;
            fill_len = fill_len - idb_len;
            idb = idb - 2;
            idb_len = size_exec(s, l, idb);
            if idb < idf {
                proof {
                    assert(pos == big_f);
                    assert(offset(g, idf + 1) == offset(g, idf as int) + size(g, idf as int));
                    assert(tot == block_checksum(g, idf + 1));
                    lemma_checksum_rest(g, idf + 1, l as int);
                }
                return tot;
            }
        }
        proof {
            lemma_offset_split(g, idf as int);
            lemma_offset_split(g, idf + 1);
            lemma_file_blocks_step(g, idb as int);
            lemma_file_blocks_step(g, idf as int);
            lemma_file_blocks_mono(g, idf + 1, idb as int);
            assert forall|p: int| pos <= p < pos + fill_len implies #[trigger] moved_file(g, idf as int, p) == idb / 2 by {
                lemma_back_file(g, l - 1, idb as int, free_before(g, idf as int) + (p - offset(g, idf as int)));
            }
            lemma_block_series(g, idf as int, pos as int, fill_len as int, (idb / 2) as int);
            lemma_block_split(g, idf as int, offset(g, idf as int), pos as int, pos + fill_len);
            assert(offset(g, idf + 1) == offset(g, idf as int) + size(g, idf as int));
            assert(free_before(g, idf + 1) == free_before(g, idf as int) + size(g, idf as int));
        }
        let c = chunk_sum((idb / 2) as u64, pos, fill_len);
        proof {
            assert(tot + c <= 10000 * (pos + fill_len) * (pos + fill_len)) by (nonlinear_arith)
                requires tot <= 10000 * pos * pos, c <= 10000 * fill_len * (pos + fill_len);
            assert(10000 * (pos + fill_len) * (pos + fill_len) <= 10000 * 180000 * 180000) by (nonlinear_arith)
                requires pos + fill_len <= 180000;
        }
        tot = tot + c;
        pos = pos + fill_len;
        idb_len = idb_len - fill_len;
        idf = idf + 1;
    }
    proof {
        lemma_offset_split(g, idb as int);
        lemma_file_blocks_step(g, idb as int);
        lemma_block_series(g, idb as int, pos as int, idb_len as int, (idb / 2) as int);
        assert(pos + idb_len == big_f);
        assert(offset(g, idb + 1) == offset(g, idb as int) + size(g, idb as int));
        lemma_checksum_rest(g, idb + 1, l as int);
    }
    let c = chunk_sum((idb / 2) as u64, pos, idb_len);
    proof {
        assert(tot + c <= 10000 * (pos + idb_len) * (pos + idb_len)) by (nonlinear_arith)
            requires tot <= 10000 * pos * pos, c <= 10000 * idb_len * (pos + idb_len);
        assert(10000 * (pos + idb_len) * (pos + idb_len) <= 10000 * 180000 * 180000) by (nonlinear_arith)
            requires pos + idb_len <= 180000;
    }
    tot + c
}

/// Part 2: the checksum once whole files have been moved.
pub fn part2(input: &str) -> (r: u64)
    requires
        wf_input(input.spec_bytes()),
    ensures
        r == checksum(input.spec_bytes(), compacted(input.spec_bytes(), files(input.spec_bytes())).2, files(
            input.spec_bytes(),
        )),
        r <= 10001 * 10000 * 1700000,
{
    let s = input.as_bytes();
    let ghost g = s@;
    let len = s.len();
    let l: usize = if len > 0 && s[len - 1] == 10 {
        len - 1
    } else {
        len
    };
    let n = (l + 1) / 2;
    let mut offs: Vec<u64> = Vec::new();
    let mut acc: u64 = 0;
    let mut j: usize = 0;
    while j <= 2 * n
        invariant
            wf_input(g),
            g == s@,
            l == digit_count(g),
            n == files(g),
            j <= 2 * n + 1,
            offs@.len() == j,
            acc == offset(g, j as int),
            forall|i: int| 0 <= i < j ==> offs@[i] == offset(g, i),
        decreases 2 * n + 1 - j,
    {
        proof {
            lemma_offset_bound(g, j + 1);
        }
        offs.push(acc);
        acc = acc + size_exec(s, l, j);
        j = j + 1;
    }
    let mut at: Vec<u64> = Vec::new();
    let mut room: Vec<u64> = Vec::new();
    let mut start: Vec<u64> = Vec::new();
    let mut k: usize = 0;
    while k < n
        invariant
            wf_input(g),
            g == s@,
            l == digit_count(g),
            n == files(g),
            offs@.len() == 2 * n + 1,
            forall|i: int| 0 <= i < 2 * n + 1 ==> offs@[i] == offset(g, i),
            k <= n,
            at@.len() == k,
            room@.len() == k,
            start@.len() == k,
            forall|i: int| 0 <= i < k ==> at@[i] == initial(g).0[i] && room@[i] == initial(g).1[i] && start@[i]
                == initial(g).2[i],
        decreases n - k,
    {
        at.push(offs[2 * k + 1]);
        room.push(size_exec(s, l, 2 * k + 1));
        start.push(offs[2 * k]);
        k = k + 1;
    }
    proof {
        assert(at@.map_values(|v: u64| v as int) =~= initial(g).0);
        assert(room@.map_values(|v: u64| v as int) =~= initial(g).1);
        assert(start@.map_values(|v: u64| v as int) =~= initial(g).2);
        assert forall|i: int| 0 <= i < n implies #[trigger] at@[i] + room@[i] == offset(g, 2 * i + 2) by {
            assert(at@[i] == offset(g, 2 * i + 1));
        }
        assert forall|i: int| 0 <= i < n implies #[trigger] start@[i] <= 180000 by {
            lemma_offset_bound(g, 2 * i);
        }
    }
    let mut m: usize = 0;
    while m < n
        invariant
            wf_input(g),
            g == s@,
            l == digit_count(g),
            n == files(g),
            m <= n,
            at@.len() == n,
            room@.len() == n,
            start@.len() == n,
            compacted(g, m as int) == (
                at@.map_values(|v: u64| v as int),
                room@.map_values(|v: u64| v as int),
                start@.map_values(|v: u64| v as int),
            ),
            forall|i: int| 0 <= i < n ==> #[trigger] at@[i] + room@[i] == offset(g, 2 * i + 2),
            forall|i: int| 0 <= i < n ==> #[trigger] start@[i] <= 180000,
        decreases n - m,
    {
        let f = n - 1 - m;
        let need = size_exec(s, l, 2 * f);
        let k = first_fit_exec(&room, need, f);
        let ghost before = (at@, room@, start@);
        if k < f {
            proof {
                lemma_first_fit(room@.map_values(|v: u64| v as int), need as int, f as int);
                assert(room@.map_values(|v: u64| v as int)[k as int] == room@[k as int]);
                assert(room@[k as int] >= need);
                lemma_offset_bound(g, 2 * k + 2);
                assert(2 * k + 2 <= 2 * n);
                assert(at@[k as int] + room@[k as int] == offset(g, 2 * k + 2));
            }
            let a = at[k];
            at.set(k, a + need);
            room.set(k, room[k] - need);
            start.set(f, a);
        }
        proof {
            let (pa, pr, ps) = before;
            assert(f == files(g) - (m + 1));
            if k < f {
                assert(at@.map_values(|v: u64| v as int) =~= pa.map_values(|v: u64| v as int).update(
                    k as int,
                    pa[k as int] + need,
                ));
                assert(room@.map_values(|v: u64| v as int) =~= pr.map_values(|v: u64| v as int).update(
                    k as int,
                    pr[k as int] - need,
                ));
                assert(start@.map_values(|v: u64| v as int) =~= ps.map_values(|v: u64| v as int).update(
                    f as int,
                    pa[k as int] as int,
                ));
            }
        }
        m = m + 1;
    }
    let mut total: u64 = 0;
    let mut f: usize = 0;
    while f < n
        invariant
            wf_input(g),
            g == s@,
            g == input.spec_bytes(),
            l == digit_count(g),
            n == files(g),
            start@.len() == n,
            compacted(g, n as int).2 == start@.map_values(|v: u64| v as int),
            forall|i: int| 0 <= i < n ==> #[trigger] start@[i] <= 180000,
            f <= n,
            n <= 10001,
            total == checksum(g, compacted(g, n as int).2, f as int),
            total <= f * 10000 * 1700000,
        decreases n - f,
    {
        let len = size_exec(s, l, 2 * f);
        let st = start[f];
        proof {
            assert(len * st + len * (len - 1) / 2 <= 1700000) by (nonlinear_arith)
                requires
                    len <= 9,
                    st <= 180000,
            ;
            assert(f * (len * st + len * (len - 1) / 2) <= 10000 * 1700000) by (nonlinear_arith)
                requires
                    f <= 10000,
                    len * st + len * (len - 1) / 2 <= 1700000,
            ;
            assert(f * 10000 * 1700000 + 10000 * 1700000 == (f + 1) * 10000 * 1700000) by (nonlinear_arith);
            assert((f + 1) * 10000 * 1700000 <= 10001 * 10000 * 1700000) by (nonlinear_arith)
                requires
                    f + 1 <= 10001,
            ;
        }
        proof {
            assert(len * st <= 9 * 180000) by (nonlinear_arith)
                requires
                    len <= 9,
                    st <= 180000,
            ;
        }
        let tri = if len == 0 {
            0
        } else {
            len * (len - 1) / 2
        };
        let piece = len * st + tri;
        proof {
            if len == 0 {
                assert(len * (len - 1) / 2 == 0) by (nonlinear_arith)
                    requires len == 0;
            }
        }
        assert(piece == len * st + len * (len - 1) / 2);
        assert((f as u64) * piece <= 10000 * 1700000) by (nonlinear_arith)
            requires
                f <= 10000,
                piece <= 1700000,
        ;
        total = total + (f as u64) * piece;
        f = f + 1;
    }
    total
}

/// The answer of part 2, as a signed number.
pub fn run(input: &str) -> (r: i64)
    requires
        wf_input(input.spec_bytes()),
    ensures
        r == checksum(input.spec_bytes(), compacted(input.spec_bytes(), files(input.spec_bytes())).2, files(
            input.spec_bytes(),
        )),
{
    part2(input) as i64
}

/// The shape of the disk while files are moved: each free span's room ends
/// where the next file's area begins and is never negative, and no file
/// starts after its place in the map.
pub open spec fn moved_left(s: Seq<u8>, d: (Seq<int>, Seq<int>, Seq<int>)) -> bool {
    &&& d.0.len() == files(s)
    &&& d.1.len() == files(s)
    &&& d.2.len() == files(s)
    &&& forall|k: int| 0 <= k < files(s) ==> #[trigger] d.0[k] + d.1[k] == offset(s, 2 * k + 2) && d.1[k] >= 0
    &&& forall|f: int| 0 <= f < files(s) ==> #[trigger] d.2[f] <= offset(s, 2 * f)
}

proof fn lemma_moved_left(s: Seq<u8>, m: int)
    requires
        wf_input(s),
        0 <= m <= files(s),
    ensures
        moved_left(s, compacted(s, m)),
    decreases m,
{
    if m == 0 {
        let d = initial(s);
        assert forall|k: int| 0 <= k < files(s) implies #[trigger] d.0[k] + d.1[k] == offset(s, 2 * k + 2) && d.1[k]
            >= 0 by {
            if 0 <= 2 * k + 1 < digit_count(s) {
                assert(48 <= s[2 * k + 1] <= 57);
            }
        }
    } else {
        lemma_moved_left(s, m - 1);
        let (at, room, start) = compacted(s, m - 1);
        let f = files(s) - m;
        let need = size(s, 2 * f);
        if 0 <= 2 * f < digit_count(s) {
            assert(48 <= s[2 * f] <= 57);
        }
        lemma_first_fit(room, need, f);
        let k = first_fit(room, need, f);
        if k < f {
            lemma_offset_mono(s, 2 * k + 2, 2 * f);
            assert(at[k] + room[k] == offset(s, 2 * k + 2));
            let d = compacted(s, m);
            assert(d == (at.update(k, at[k] + need), room.update(k, room[k] - need), start.update(f, at[k])));
            assert forall|j: int| 0 <= j < files(s) implies #[trigger] d.0[j] + d.1[j] == offset(s, 2 * j + 2)
                && d.1[j] >= 0 by {
                assert(at[j] + room[j] == offset(s, 2 * j + 2));
            }
            assert forall|g: int| 0 <= g < files(s) implies #[trigger] d.2[g] <= offset(s, 2 * g) by {
                assert(start[g] <= offset(s, 2 * g));
            }
        }
    }
}

/// Files only move left: once all files have been tried, every file starts
/// at or before where the map first puts it, so a file is only ever moved
/// into free room that lies before it; and the room it takes from a free
/// span is room that span had.
pub proof fn lemma_files_move_left(s: Seq<u8>)
    requires
        wf_input(s),
    ensures
        compacted(s, files(s)).2.len() == files(s),
        forall|f: int| 0 <= f < files(s) ==> #[trigger] compacted(s, files(s)).2[f] <= offset(s, 2 * f),
        forall|k: int| 0 <= k < files(s) ==> #[trigger] compacted(s, files(s)).1[k] >= 0,
{
    lemma_moved_left(s, files(s));
    let d = compacted(s, files(s));
    assert forall|k: int| 0 <= k < files(s) implies #[trigger] d.1[k] >= 0 by {
        assert(d.0[k] + d.1[k] == offset(s, 2 * k + 2) && d.1[k] >= 0);
    }
}

} // verus!
