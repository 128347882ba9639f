//! LAN party: sets of three connected computers, one of them with a name
//! starting with `t`.
//!
//! A computer is named by two lowercase letters, numbered `26 * first +
//! second` (letters counted from `a`); each line `ab-cd` links two of them.
use vstd::prelude::*;
use vstd::string::StringSliceAdditionalSpecFns;

use crate::text::ascii_text;

verus! {

/// The number of possible computer names.
pub open spec fn names() -> int {
    676
}

/// The number of the name written at offset `i`.
pub open spec fn name_at(s: Seq<u8>, i: int) -> int {
    26 * (s[i] - 97) + (s[i + 1] - 97)
}

/// Line `l` links `u` and `v`, in either order.
pub open spec fn line_links(s: Seq<u8>, l: int, u: int, v: int) -> bool {
    (name_at(s, 6 * l) == u && name_at(s, 6 * l + 3) == v) || (name_at(s, 6 * l) == v && name_at(
        s,
        6 * l + 3,
    ) == u)
}

/// Some line among the first `n` links `u` and `v`.
pub open spec fn linked_within(s: Seq<u8>, n: int, u: int, v: int) -> bool {
    exists|l: int| 0 <= l < n && #[trigger] line_links(s, l, u, v)
}

/// Computers `u` and `v` are linked.
pub open spec fn linked(s: Seq<u8>, u: int, v: int) -> bool {
    linked_within(s, s.len() as int / 6, u, v)
}

/// The name of computer `u` starts with `t`.
pub open spec fn chief(u: int) -> bool {
    19 * 26 <= u < 20 * 26
}

/// `a < b < c` are pairwise linked and one of them starts with `t`.
pub open spec fn counted(s: Seq<u8>, a: int, b: int, c: int) -> bool {
    &&& a < b < c
    &&& linked(s, a, b) && linked(s, a, c) && linked(s, b, c)
    &&& chief(a) || chief(b) || chief(c)
}

/// The number of counted triples `a < b < c` with `c` below `n`.
pub open spec fn thirds(s: Seq<u8>, a: int, b: int, n: int) -> int
    decreases n,
{
    if n <= 0 {
        0
    } else {
        thirds(s, a, b, n - 1) + if counted(s, a, b, n - 1) {
            1int
        } else {
            0
        }
    }
}

/// The number of counted triples from `a` with the middle one below `n`.
pub open spec fn seconds(s: Seq<u8>, a: int, n: int) -> int
    decreases n,
{
    if n <= 0 {
        0
    } else {
        seconds(s, a, n - 1) + thirds(s, a, n - 1, names())
    }
}

/// The number of counted triples with the smallest one below `n`.
pub open spec fn triples(s: Seq<u8>, n: int) -> int
    decreases n,
{
    if n <= 0 {
        0
    } else {
        triples(s, n - 1) + seconds(s, n - 1, names())
    }
}

/// Lines of the form `ab-cd` and a newline.
pub open spec fn wf_input(s: Seq<u8>) -> bool {
    &&& s.len() % 6 == 0
    &&& s.len() <= usize::MAX
    &&& forall|l: int|
        0 <= l < s.len() / 6 ==> {
            &&& 97 <= #[trigger] s[6 * l] <= 122
            &&& 97 <= s[6 * l + 1] <= 122
            &&& 97 <= s[6 * l + 3] <= 122
            &&& 97 <= s[6 * l + 4] <= 122
        }
}

proof fn lemma_bounds(s: Seq<u8>, a: int, b: int, n: int)
    requires
        0 <= n,
    ensures
        0 <= thirds(s, a, b, n) <= n,
    decreases n,
{
    if n > 0 {
        lemma_bounds(s, a, b, n - 1);
    }
}

proof fn lemma_seconds_bound(s: Seq<u8>, a: int, n: int)
    requires
        0 <= n,
    ensures
        0 <= seconds(s, a, n) <= n * names(),
    decreases n,
{
    if n > 0 {
        lemma_seconds_bound(s, a, n - 1);
        lemma_bounds(s, a, n - 1, names());
    }
}

proof fn lemma_triples_bound(s: Seq<u8>, n: int)
    requires
        0 <= n,
    ensures
        0 <= triples(s, n) <= n * names() * names(),
    decreases n,
{
    if n > 0 {
        lemma_triples_bound(s, n - 1);
        lemma_seconds_bound(s, n - 1, names());
        assert((n - 1) * names() * names() + names() * names() == n * names() * names()) by (nonlinear_arith);
    }
}

/// The links, as a table with an entry for each ordered pair of names.
fn link_table(s: &[u8]) -> (adj: Vec<bool>)
    requires
        wf_input(s@),
    ensures
        adj@.len() == names() * names(),
        forall|u: int, v: int|
            0 <= u < names() && 0 <= v < names() ==> adj@[u * names() + v] == linked(s@, u, v),
{
    let mut adj: Vec<bool> = vec![false; 676 * 676];
    let n = s.len() / 6;
    let mut l: usize = 0;
    while l < n
        invariant
            wf_input(s@),
            n == s@.len() / 6,
            l <= n,
            adj@.len() == names() * names(),
            forall|u: int, v: int|
                0 <= u < names() && 0 <= v < names() ==> adj@[u * names() + v] == linked_within(
                    s@,
                    l as int,
                    u,
                    v,
                ),
        decreases n - l,
    {
        assert(97 <= s@[6 * l as int] <= 122);
        let x = 26 * (s[6 * l] - 97) as usize + (s[6 * l + 1] - 97) as usize;
        let y = 26 * (s[6 * l + 3] - 97) as usize + (s[6 * l + 4] - 97) as usize;
        let ghost before = adj@;
        proof {
            assert(x * 676 + y < 676 * 676 && y * 676 + x < 676 * 676) by (nonlinear_arith)
                requires
                    x < 676,
                    y < 676,
            ;
        }
        adj.set(x * 676 + y, true);
        adj.set(y * 676 + x, true);
        proof {
            assert forall|u: int, v: int| 0 <= u < names() && 0 <= v < names() implies adj@[u * names()
                + v] == #[trigger] linked_within(s@, l + 1, u, v) by {
                assert(before[u * names() + v] == linked_within(s@, l as int, u, v));
                assert(0 <= u * names() + v < names() * names()) by (nonlinear_arith)
                    requires
                        0 <= u < names(),
                        0 <= v < names(),
                ;
                if line_links(s@, l as int, u, v) {
                    assert(u * names() + v == x * 676 + y || u * names() + v == y * 676 + x);
                } else {
                    if u * names() + v == x * 676 + y || u * names() + v == y * 676 + x {
                        lemma_pair_index(u, v, x as int, y as int);
                        lemma_pair_index(u, v, y as int, x as int);
                    }
                }
                if linked_within(s@, l + 1, u, v) && !line_links(s@, l as int, u, v) {
                    let m = choose|m: int| 0 <= m < l + 1 && #[trigger] line_links(s@, m, u, v);
                    assert(m < l);
                }
            }
        }
        l = l + 1;
    }
    adj
}

proof fn lemma_pair_index(u: int, v: int, x: int, y: int)
    requires
        0 <= u < 676,
        0 <= v < 676,
        0 <= x < 676,
        0 <= y < 676,
        u * 676 + v == x * 676 + y,
    ensures
        u == x && v == y,
{
    assert(u == x && v == y) by (nonlinear_arith)
        requires
            0 <= u < 676,
            0 <= v < 676,
            0 <= x < 676,
            0 <= y < 676,
            u * 676 + v == x * 676 + y,
    ;
}

/// Part 1: the number of sets of three linked computers, one of them with a
/// name starting with `t`.
pub fn part1(input: &str) -> (r: u64)
    requires
        wf_input(input.spec_bytes()),
    ensures
        r == triples(input.spec_bytes(), names()),
{
    let s = input.as_bytes();
    let adj = link_table(s);
    let mut total: u64 = 0;
    let mut a: usize = 0;
    while a < 676
        invariant
            wf_input(s@),
            s@ == input.spec_bytes(),
            adj@.len() == names() * names(),
            forall|u: int, v: int|
                0 <= u < names() && 0 <= v < names() ==> adj@[u * names() + v] == linked(s@, u, v),
            a <= names(),
            total == triples(s@, a as int),
            total <= a * names() * names(),
        decreases names() - a,
    {
        let mut sub: u64 = 0;
        let mut b: usize = 0;
        while b < 676
            invariant
                wf_input(s@),
                adj@.len() == names() * names(),
                forall|u: int, v: int|
                    0 <= u < names() && 0 <= v < names() ==> adj@[u * names() + v] == linked(s@, u, v),
                a < names(),
                b <= names(),
                sub == seconds(s@, a as int, b as int),
                sub <= b * names(),
            decreases names() - b,
        {
            let mut n: u64 = 0;
            let mut c: usize = 0;
            while c < 676
                invariant
                    wf_input(s@),
                    adj@.len() == names() * names(),
                    forall|u: int, v: int|
                        0 <= u < names() && 0 <= v < names() ==> adj@[u * names() + v] == linked(
                            s@,
                            u,
                            v,
                        ),
                    a < names(),
                    b < names(),
                    c <= names(),
                    n == thirds(s@, a as int, b as int, c as int),
                    n <= c,
                decreases names() - c,
            {
                if a < b && b < c {
                    let t = (494 <= a && a < 520) || (494 <= b && b < 520) || (494 <= c && c < 520);
                    if t && adj[a * 676 + b] && adj[a * 676 + c] && adj[b * 676 + c] {
                        n = n + 1;
                    }
                }
                c = c + 1;
            }
            proof {
                assert(sub + n <= (b + 1) * names()) by (nonlinear_arith)
                    requires
                        sub <= b * names(),
                        n <= names(),
                ;
            }
            sub = sub + n;
            b = b + 1;
        }
        proof {
            assert(total + sub <= (a + 1) * names() * names()) by (nonlinear_arith)
                requires
                    total <= a * names() * names(),
                    sub <= names() * names(),
            ;
            assert((a + 1) * names() * names() <= names() * names() * names()) by (nonlinear_arith)
                requires
                    a < names(),
            ;
        }
        total = total + sub;
        a = a + 1;
    }
    total
}

/// Computer `v` is linked to both `u` and `w`.
pub open spec fn shared(s: Seq<u8>, u: int, w: int, v: int) -> bool {
    linked(s, u, v) && linked(s, w, v)
}

/// The number of computers below `n` linked to both `u` and `w`.
pub open spec fn shared_count(s: Seq<u8>, u: int, w: int, n: int) -> int
    decreases n,
{
    if n <= 0 {
        0
    } else {
        shared_count(s, u, w, n - 1) + if shared(s, u, w, n - 1) {
            1int
        } else {
            0
        }
    }
}

/// The first computer from `m` on that is linked to `u`, or `names()` if
/// there is none.
pub open spec fn next_link(s: Seq<u8>, u: int, m: int) -> int
    decreases names() - m,
{
    if m >= names() {
        names()
    } else if linked(s, u, m) {
        m
    } else {
        next_link(s, u, m + 1)
    }
}

/// `u` and `w` belong to the party of thirteen: exactly eleven computers are
/// linked to both, and each of them shares exactly eleven links with `u`.
pub open spec fn party(s: Seq<u8>, u: int, w: int) -> bool {
    &&& shared_count(s, u, w, names()) == 11
    &&& forall|v: int| 0 <= v < names() && shared(s, u, w, v) ==> #[trigger] shared_count(s, u, v, names()) == 11
}

/// The partner found for `u`: its first linked computer if the two belong
/// to the party, else its second if those two do.
pub open spec fn partner(s: Seq<u8>, u: int) -> Option<int> {
    let a = next_link(s, u, 0);
    if a >= names() {
        None
    } else if party(s, u, a) {
        Some(a)
    } else {
        let b = next_link(s, u, a + 1);
        if b < names() && party(s, u, b) {
            Some(b)
        } else {
            None
        }
    }
}

/// `u` has no link, or its first link decides, or it has a second link.
pub open spec fn second_known(s: Seq<u8>, u: int) -> bool {
    let a = next_link(s, u, 0);
    a >= names() || party(s, u, a) || next_link(s, u, a + 1) < names()
}

/// The first computer from `u` on that has a partner, or `names()`.
pub open spec fn host_from(s: Seq<u8>, u: int) -> int
    decreases names() - u,
{
    if u >= names() {
        names()
    } else if partner(s, u) is Some {
        u
    } else {
        host_from(s, u + 1)
    }
}

/// The computer from which the party is found.
pub open spec fn host(s: Seq<u8>) -> int {
    host_from(s, 0)
}

/// The members of the party of `u` and `w` below `n`, in increasing order:
/// the two themselves and the computers linked to both.
pub open spec fn members(s: Seq<u8>, u: int, w: int, n: int) -> Seq<int>
    decreases n,
{
    if n <= 0 {
        seq![]
    } else if shared(s, u, w, n - 1) || n - 1 == u || n - 1 == w {
        members(s, u, w, n - 1).push(n - 1)
    } else {
        members(s, u, w, n - 1)
    }
}

/// The two letters of the name of computer `v`.
pub open spec fn name_text(v: int) -> Seq<char> {
    seq![(v / 26 + 97) as char, (v % 26 + 97) as char]
}

/// The names of `vs`, separated by commas.
pub open spec fn joined(vs: Seq<int>) -> Seq<char>
    decreases vs.len(),
{
    if vs.len() == 0 {
        seq![]
    } else if vs.len() == 1 {
        name_text(vs[0])
    } else {
        joined(vs.drop_last()) + seq![','] + name_text(vs.last())
    }
}

/// The password: the names of the party's members in order, separated by
/// commas.
pub open spec fn password(s: Seq<u8>) -> Seq<char> {
    let u = host(s);
    joined(members(s, u, partner(s, u).unwrap(), names()))
}

/// No computer is linked to itself, some computer has a partner, and up to
/// it every computer whose first link does not decide has a second link.
pub open spec fn wf_party(s: Seq<u8>) -> bool {
    &&& wf_input(s)
    &&& forall|u: int| 0 <= u < names() ==> !#[trigger] linked(s, u, u)
    &&& host(s) < names()
    &&& forall|u: int| 0 <= u <= host(s) ==> #[trigger] second_known(s, u)
}

proof fn lemma_next_link(s: Seq<u8>, u: int, m: int, r: int)
    requires
        0 <= m <= r <= names(),
        forall|v: int| m <= v < r ==> !#[trigger] linked(s, u, v),
        r == names() || linked(s, u, r),
    ensures
        next_link(s, u, m) == r,
    decreases r - m,
{
    if m < r {
        lemma_next_link(s, u, m + 1, r);
    }
}

proof fn lemma_host_from(s: Seq<u8>, u: int, h: int)
    requires
        0 <= u <= h < names(),
        forall|v: int| u <= v < h ==> #[trigger] partner(s, v) is None,
        partner(s, h) is Some,
    ensures
        host_from(s, u) == h,
    decreases h - u,
{
    if u < h {
        lemma_host_from(s, u + 1, h);
    }
}

proof fn lemma_host_from_skips(s: Seq<u8>, u: int)
    requires
        0 <= u <= names(),
    ensures
        u <= host_from(s, u) <= names(),
        forall|v: int| u <= v < host_from(s, u) ==> #[trigger] partner(s, v) is None,
        host_from(s, u) < names() ==> partner(s, host_from(s, u)) is Some,
    decreases names() - u,
{
    if u < names() && partner(s, u) is None {
        lemma_host_from_skips(s, u + 1);
    }
}

/// Whether `u` and `v` are linked, from the table.
fn is_linked(adj: &Vec<bool>, Ghost(s): Ghost<Seq<u8>>, u: usize, v: usize) -> (b: bool)
    requires
        u < names(),
        v < names(),
        adj@.len() == names() * names(),
        forall|x: int, y: int| 0 <= x < names() && 0 <= y < names() ==> adj@[x * names() + y] == linked(s, x, y),
    ensures
        b == linked(s, u as int, v as int),
{
    assert(u * 676 + v < 676 * 676) by (nonlinear_arith)
        requires u < 676, v < 676;
    adj[u * 676 + v]
}

/// The number of computers linked to both `u` and `w`.
fn shared_count_exec(adj: &Vec<bool>, Ghost(s): Ghost<Seq<u8>>, u: usize, w: usize) -> (n: u64)
    requires
        u < names(),
        w < names(),
        adj@.len() == names() * names(),
        forall|x: int, y: int| 0 <= x < names() && 0 <= y < names() ==> adj@[x * names() + y] == linked(s, x, y),
    ensures
        n == shared_count(s, u as int, w as int, names()),
{
    let mut n: u64 = 0;
    let mut v: usize = 0;
    while v < 676
        invariant
            u < names(),
            w < names(),
            adj@.len() == names() * names(),
            forall|x: int, y: int| 0 <= x < names() && 0 <= y < names() ==> adj@[x * names() + y] == linked(s, x, y),
            v <= names(),
            n == shared_count(s, u as int, w as int, v as int),
            n <= v,
        decreases names() - v,
    {
        if is_linked(adj, Ghost(s), u, v) && is_linked(adj, Ghost(s), w, v) {
            n = n + 1;
        }
        v = v + 1;
    }
    n
}

/// The first computer from `m` on that is linked to `u`, or `names()`.
fn next_link_exec(adj: &Vec<bool>, Ghost(s): Ghost<Seq<u8>>, u: usize, m: usize) -> (r: usize)
    requires
        u < names(),
        m <= names(),
        adj@.len() == names() * names(),
        forall|x: int, y: int| 0 <= x < names() && 0 <= y < names() ==> adj@[x * names() + y] == linked(s, x, y),
    ensures
        r == next_link(s, u as int, m as int),
        r <= names(),
{
    let mut r = m;
    while r < 676 && !is_linked(adj, Ghost(s), u, r)
        invariant
            u < names(),
            m <= r <= names(),
            adj@.len() == names() * names(),
            forall|x: int, y: int| 0 <= x < names() && 0 <= y < names() ==> adj@[x * names() + y] == linked(s, x, y),
            forall|v: int| m <= v < r ==> !#[trigger] linked(s, u as int, v),
        decreases names() - r,
    {
        r = r + 1;
    }
    proof {
        lemma_next_link(s, u as int, m as int, r as int);
    }
    r
}

/// Whether `u` and `w` belong to the party of thirteen.
fn party_exec(adj: &Vec<bool>, Ghost(s): Ghost<Seq<u8>>, u: usize, w: usize) -> (b: bool)
    requires
        u < names(),
        w < names(),
        adj@.len() == names() * names(),
        forall|x: int, y: int| 0 <= x < names() && 0 <= y < names() ==> adj@[x * names() + y] == linked(s, x, y),
    ensures
        b == party(s, u as int, w as int),
{
    if shared_count_exec(adj, Ghost(s), u, w) != 11 {
        return false;
    }
    let mut v: usize = 0;
    while v < 676
        invariant
            u < names(),
            w < names(),
            adj@.len() == names() * names(),
            forall|x: int, y: int| 0 <= x < names() && 0 <= y < names() ==> adj@[x * names() + y] == linked(s, x, y),
            v <= names(),
            forall|q: int| 0 <= q < v && shared(s, u as int, w as int, q) ==> #[trigger] shared_count(s, u as int, q, names()) == 11,
        decreases names() - v,
    {
        if is_linked(adj, Ghost(s), u, v) && is_linked(adj, Ghost(s), w, v) {
            if shared_count_exec(adj, Ghost(s), u, v) != 11 {
                return false;
            }
        }
        v = v + 1;
    }
    true
}

/// The partner found for `u`, as in `partner`.
fn partner_exec(adj: &Vec<bool>, Ghost(s): Ghost<Seq<u8>>, u: usize) -> (r: Option<usize>)
    requires
        u < names(),
        second_known(s, u as int),
        adj@.len() == names() * names(),
        forall|x: int, y: int| 0 <= x < names() && 0 <= y < names() ==> adj@[x * names() + y] == linked(s, x, y),
    ensures
        partner(s, u as int) == (match r {
            Some(w) => Some(w as int),
            None => None::<int>,
        }),
        r matches Some(w) ==> w < names(),
{
    let a = next_link_exec(adj, Ghost(s), u, 0);
    if a >= 676 {
        return None;
    }
    if party_exec(adj, Ghost(s), u, a) {
        return Some(a);
    }
    let b = next_link_exec(adj, Ghost(s), u, a + 1);
    if b < 676 && party_exec(adj, Ghost(s), u, b) {
        Some(b)
    } else {
        None
    }
}

/// The text of the names of `vs`, separated by commas, as bytes.
fn joined_bytes(vs: &Vec<usize>) -> (out: Vec<u8>)
    requires
        forall|i: int| 0 <= i < vs@.len() ==> #[trigger] vs@[i] < names(),
    ensures
        out@.map_values(|b: u8| b as char) == joined(vs@.map_values(|v: usize| v as int)),
        forall|i: int| 0 <= i < out@.len() ==> out@[i] < 128,
{
    let ghost ints = vs@.map_values(|v: usize| v as int);
    let mut out: Vec<u8> = Vec::new();
    let mut k: usize = 0;
    while k < vs.len()
        invariant
            ints == vs@.map_values(|v: usize| v as int),
            forall|i: int| 0 <= i < vs@.len() ==> #[trigger] vs@[i] < names(),
            k <= vs@.len(),
            out@.map_values(|b: u8| b as char) == joined(ints.take(k as int)),
            forall|i: int| 0 <= i < out@.len() ==> out@[i] < 128,
        decreases vs@.len() - k,
    {
        let v = vs[k];
        let ghost before = out@;
        if k > 0 {
            out.push(44);
        }
        out.push((v / 26 + 97) as u8);
        out.push((v % 26 + 97) as u8);
        proof {
            let t = ints.take(k + 1);
            assert(t.drop_last() =~= ints.take(k as int));
            assert(t.last() == v);
            if k == 0 {
                assert(out@.map_values(|b: u8| b as char) =~= name_text(v as int));
            } else {
                assert(out@.map_values(|b: u8| b as char) =~= before.map_values(|b: u8| b as char) + seq![','] + name_text(v as int));
            }
        }
        k = k + 1;
    }
    proof {
        assert(ints.take(vs@.len() as int) =~= ints);
    }
    out
}

/// Part 2: the password of the LAN party, the names of its thirteen
/// computers in order, separated by commas.
pub fn part2(input: &str) -> (r: String)
    requires
        wf_party(input.spec_bytes()),
    ensures
        r@ == password(input.spec_bytes()),
{
    let s = input.as_bytes();
    let ghost g = s@;
    let adj = link_table(s);
    let mut u: usize = 0;
    let mut w: usize = 0;
    proof {
        lemma_host_from_skips(g, 0);
    }
    loop
        invariant
            g == s@,
            wf_party(g),
            adj@.len() == names() * names(),
            forall|x: int, y: int| 0 <= x < names() && 0 <= y < names() ==> adj@[x * names() + y] == linked(g, x, y),
            u <= host(g) < names(),
            partner(g, host(g)) is Some,
            forall|v: int| 0 <= v < u ==> #[trigger] partner(g, v) is None,
        ensures
            u < names(),
            w < names(),
            partner(g, u as int) == Some(w as int),
            forall|v: int| 0 <= v < u ==> #[trigger] partner(g, v) is None,
        decreases names() - u,
    {
        match partner_exec(&adj, Ghost(g), u) {
            Some(x) => {
                w = x;
                break;
            },
            None => {
                assert(u != host(g));
                u = u + 1;
            },
        }
    }
    proof {
        lemma_host_from(g, 0, u as int);
    }
    let mut vs: Vec<usize> = Vec::new();
    let mut v: usize = 0;
    while v < 676
        invariant
            adj@.len() == names() * names(),
            forall|x: int, y: int| 0 <= x < names() && 0 <= y < names() ==> adj@[x * names() + y] == linked(g, x, y),
            u < names(),
            w < names(),
            v <= names(),
            vs@.map_values(|q: usize| q as int) == members(g, u as int, w as int, v as int),
            forall|i: int| 0 <= i < vs@.len() ==> #[trigger] vs@[i] < names(),
        decreases names() - v,
    {
        let ghost before = vs@;
        if v == u || v == w || (is_linked(&adj, Ghost(g), u, v) && is_linked(&adj, Ghost(g), w, v)) {
            vs.push(v);
            proof {
                assert(vs@.map_values(|q: usize| q as int) =~= before.map_values(|q: usize| q as int).push(v as int));
            }
        }
        v = v + 1;
    }
    let out = joined_bytes(&vs);
    ascii_text(out)
}

/// The answer of part 1, as a signed number.
pub fn run(input: &str) -> (r: i64)
    requires
        wf_input(input.spec_bytes()),
    ensures
        r == triples(input.spec_bytes(), names()),
{
    proof {
        lemma_triples_bound(input.spec_bytes(), names());
    }
    part1(input) as i64
}

} // verus!
