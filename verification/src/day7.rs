//! Bridge repair: which calibration equations can be made true by
//! inserting operators between their operands.
use vstd::prelude::*;
use vstd::string::StringSliceAdditionalSpecFns;

use crate::digits::{
    all_digits, dec_value, digits_end, is_digit, lemma_dec_value_bounds, lemma_digits_end,
    lemma_numeral_small, lemma_pow10_mono, lemma_pow10_pos, numeral_at, parse_digits, pow10,
    skip_digits,
};

pub mod fastdiv;

use self::fastdiv::PrecomputedDivU64;

verus! {

/// An operator placed between two operands; they are always evaluated
/// left to right.
pub enum Op {
    Add,
    Mul,
    Concat,
}

/// An operand: its value and the number of digits it is written with.
pub type Operand = (int, int);

/// `acc op x`; concatenation appends the digits of `x` as written.
pub open spec fn apply(acc: int, op: Op, x: Operand) -> int {
    match op {
        Op::Add => acc + x.0,
        Op::Mul => acc * x.0,
        Op::Concat => acc * pow10(x.1 as nat) + x.0,
    }
}

/// The value of `xs[0] ops[0] xs[1] ops[1] ...`, evaluated left to right.
pub open spec fn eval(xs: Seq<Operand>, ops: Seq<Op>) -> int
    decreases ops.len(),
{
    if ops.len() == 0 {
        xs[0].0
    } else {
        apply(eval(xs.drop_last(), ops.drop_last()), ops.last(), xs.last())
    }
}

/// The operators that may be used: concatenation only when `concat` holds.
pub open spec fn ops_allowed(ops: Seq<Op>, concat: bool) -> bool {
    forall|k: int| 0 <= k < ops.len() ==> (concat || !(#[trigger] ops[k] is Concat))
}

/// Some choice of operators makes `xs` evaluate to `goal`.
pub open spec fn solvable(goal: int, xs: Seq<Operand>, concat: bool) -> bool {
    exists|ops: Seq<Op>|
        ops.len() + 1 == xs.len() && ops_allowed(ops, concat) && #[trigger] eval(xs, ops) == goal
}

/// The operands of a line from index `j` on: each is a space followed by a numeral.
pub open spec fn operands(s: Seq<u8>, j: int) -> Seq<Operand>
    decreases s.len() - j,
{
    if 0 <= j < s.len() && s[j] == 32 {
        let e = digits_end(s, j + 1);
        proof {
            lemma_digits_end(s, j + 1);
        }
        seq![(dec_value(s.subrange(j + 1, e)), e - j - 1)] + operands(s, e)
    } else {
        seq![]
    }
}

/// The index where the operands that start at `j` end.
pub open spec fn operands_end(s: Seq<u8>, j: int) -> int
    decreases s.len() - j,
{
    if 0 <= j < s.len() && s[j] == 32 {
        let e = digits_end(s, j + 1);
        proof {
            lemma_digits_end(s, j + 1);
        }
        operands_end(s, e)
    } else {
        j
    }
}

/// The operands from `j` on are well formed: each has at least one digit and
/// a value between 1 and `u64::MAX`, and at most three digits when `concat` holds.
pub open spec fn wf_operands(s: Seq<u8>, j: int, concat: bool) -> bool
    decreases s.len() - j,
{
    if 0 <= j < s.len() && s[j] == 32 {
        let e = digits_end(s, j + 1);
        proof {
            lemma_digits_end(s, j + 1);
        }
        &&& e > j + 1
        &&& 1 <= dec_value(s.subrange(j + 1, e)) <= u64::MAX
        &&& (concat ==> e - j - 1 <= 3)
        &&& wf_operands(s, e, concat)
    } else {
        true
    }
}

pub proof fn lemma_operands_end(s: Seq<u8>, j: int)
    ensures
        operands_end(s, j) >= j,
        0 <= j <= s.len() ==> operands_end(s, j) <= s.len(),
        0 <= j <= s.len() ==> (operands_end(s, j) == s.len() || s[operands_end(s, j)] != 32),
    decreases s.len() - j,
{
    if 0 <= j < s.len() && s[j] == 32 {
        lemma_digits_end(s, j + 1);
        lemma_operands_end(s, digits_end(s, j + 1));
    }
}

/// The equations of the input from index `i` on, one per line: the test
/// value, then its operands.
pub open spec fn equations(s: Seq<u8>, i: int) -> Seq<(int, Seq<Operand>)>
    decreases s.len() - i,
{
    if 0 <= i < s.len() {
        let c = digits_end(s, i);
        let e = operands_end(s, c + 1);
        proof {
            lemma_digits_end(s, i);
            lemma_operands_end(s, c + 1);
        }
        seq![(dec_value(s.subrange(i, c)), operands(s, c + 1))] + if e < s.len() {
            equations(s, e + 1)
        } else {
            seq![]
        }
    } else {
        seq![]
    }
}

/// The input from index `i` on is a sequence of lines `goal: x1 x2 ... xn`,
/// with a goal of one to fifteen digits, at least one operand, and one byte
/// ending each line.
pub open spec fn wf_input(s: Seq<u8>, i: int, concat: bool) -> bool
    decreases s.len() - i,
{
    if 0 <= i < s.len() {
        let c = digits_end(s, i);
        let e = operands_end(s, c + 1);
        proof {
            lemma_digits_end(s, i);
            lemma_operands_end(s, c + 1);
        }
        &&& 1 <= c - i <= 15
        &&& c + 1 < s.len()
        &&& s[c] == 58
        &&& s[c + 1] == 32
        &&& wf_operands(s, c + 1, concat)
        &&& e < s.len()
        &&& wf_input(s, e + 1, concat)
    } else {
        i == s.len()
    }
}

/// The total calibration result: the sum of the test values of the
/// equations that can be made true.
pub open spec fn calibration(eqs: Seq<(int, Seq<Operand>)>, concat: bool) -> int
    decreases eqs.len(),
{
    if eqs.len() == 0 {
        0
    } else {
        calibration(eqs.drop_last(), concat) + if solvable(eqs.last().0, eqs.last().1, concat) {
            eqs.last().0
        } else {
            0
        }
    }
}

/// The answer of part 1 (`concat == false`) or part 2 (`concat == true`).
pub open spec fn answer(s: Seq<u8>, concat: bool) -> int {
    calibration(equations(s, 0), concat)
}

proof fn lemma_calibration_append(a: Seq<(int, Seq<Operand>)>, b: Seq<(int, Seq<Operand>)>, concat: bool)
    requires
        forall|k: int| 0 <= k < b.len() ==> (#[trigger] b[k]).0 >= 0,
    ensures
        calibration(a + b, concat) == calibration(a, concat) + calibration(b, concat),
        calibration(b, concat) >= 0,
    decreases b.len(),
{
    if b.len() == 0 {
        assert(a + b =~= a);
    } else {
        assert((a + b).drop_last() =~= a + b.drop_last());
        lemma_calibration_append(a, b.drop_last(), concat);
    }
}

proof fn lemma_equations_goals_nonneg(s: Seq<u8>, i: int)
    ensures
        forall|k: int| 0 <= k < equations(s, i).len() ==> (#[trigger] equations(s, i)[k]).0 >= 0,
    decreases s.len() - i,
{
    if 0 <= i < s.len() {
        let c = digits_end(s, i);
        lemma_digits_end(s, i);
        lemma_operands_end(s, c + 1);
        lemma_dec_value_bounds(s.subrange(i, c));
        let e = operands_end(s, c + 1);
        if e < s.len() {
            lemma_equations_goals_nonneg(s, e + 1);
        }
        let eqs = equations(s, i);
        let tail = if e < s.len() { equations(s, e + 1) } else { seq![] };
        assert(eqs =~= seq![(dec_value(s.subrange(i, c)), operands(s, c + 1))] + tail);
        assert forall|k: int| 0 <= k < eqs.len() implies (#[trigger] eqs[k]).0 >= 0 by {
            if k > 0 {
                assert(eqs[k] == tail[k - 1]);
            }
        }
    }
}

/// The operands held during evaluation, as values and digit counts.
pub open spec fn operand_view(xs: Seq<(u64, u64)>) -> Seq<Operand> {
    xs.map_values(|p: (u64, u64)| (p.0 as int, p.1 as int))
}

/// Every operand of `xs` is positive.
pub open spec fn all_positive(xs: Seq<Operand>) -> bool {
    forall|k: int| 0 <= k < xs.len() ==> (#[trigger] xs[k]).0 >= 1
}

proof fn lemma_eval_lower_bound(xs: Seq<Operand>, ops: Seq<Op>)
    requires
        ops.len() + 1 == xs.len(),
        all_positive(xs),
        forall|k: int| 0 <= k < xs.len() ==> (#[trigger] xs[k]).1 >= 0,
    ensures
        eval(xs, ops) >= 1,
        ops.len() > 0 ==> eval(xs, ops) >= xs.last().0,
    decreases ops.len(),
{
    if ops.len() > 0 {
        let ys = xs.drop_last();
        lemma_eval_lower_bound(ys, ops.drop_last());
        let w = eval(ys, ops.drop_last());
        let x = xs.last();
        assert(x == xs[xs.len() - 1]);
        match ops.last() {
            Op::Add => {},
            Op::Mul => {
                assert(w * x.0 >= x.0) by (nonlinear_arith) requires w >= 1, x.0 >= 1;
            },
            Op::Concat => {
                lemma_pow10_pos(x.1 as nat);
                assert(w * pow10(x.1 as nat) >= 1) by (nonlinear_arith)
                    requires w >= 1, pow10(x.1 as nat) >= 1;
            },
        }
    }
}

/// Evaluating with one more operator applies it to the value of the prefix.
proof fn lemma_eval_push(xs: Seq<Operand>, ops: Seq<Op>, op: Op)
    requires
        ops.len() + 2 == xs.len(),
    ensures
        eval(xs, ops.push(op)) == apply(eval(xs.drop_last(), ops), op, xs.last()),
{
    assert(ops.push(op).drop_last() =~= ops);
}

/// A single operand is solvable exactly for its own value.
proof fn lemma_solvable_single(goal: int, xs: Seq<Operand>, concat: bool)
    requires
        xs.len() == 1,
    ensures
        solvable(goal, xs, concat) == (goal == xs[0].0),
{
    let ops = Seq::<Op>::empty();
    if goal == xs[0].0 {
        assert(eval(xs, ops) == goal);
        assert(ops_allowed(ops, concat));
    }
}

/// Whether `xs[0..k]` can be made to evaluate to `goal` with `+` and `*`,
/// working back from the last operand.
fn solve_rec(goal: u64, xs: &Vec<(u64, u64)>, k: usize) -> (r: bool)
    requires
        1 <= k <= xs@.len(),
        all_positive(operand_view(xs@)),
    ensures
        r == solvable(goal as int, operand_view(xs@).take(k as int), false),
    decreases k,
{
    let ghost ys = operand_view(xs@).take(k as int);
    let ghost rest = operand_view(xs@).take(k - 1);
    let n = xs[k - 1].0;
    assert(ys.last() == operand_view(xs@)[k - 1]);
    if k == 1 {
        proof {
            lemma_solvable_single(goal as int, ys, false);
        }
        return goal == n;
    }
    assert(ys.drop_last() =~= rest);
    let div = goal / n;
    let rem = goal % n;
    let by_mul = rem == 0 && solve_rec(div, xs, k - 1);
    let by_add = !by_mul && goal > n && solve_rec(goal - n, xs, k - 1);
    proof {
        if by_mul {
            let ops = choose|ops: Seq<Op>|
                ops.len() + 1 == rest.len() && ops_allowed(ops, false) && #[trigger] eval(rest, ops) == div;
            lemma_eval_push(ys, ops, Op::Mul);
            assert(div * n == goal) by (nonlinear_arith) requires div == goal / n, goal % n == 0, n > 0;
            assert(ops_allowed(ops.push(Op::Mul), false));
            assert(eval(ys, ops.push(Op::Mul)) == goal);
        } else if by_add {
            let ops = choose|ops: Seq<Op>|
                ops.len() + 1 == rest.len() && ops_allowed(ops, false) && #[trigger] eval(rest, ops) == goal - n;
            lemma_eval_push(ys, ops, Op::Add);
            assert(ops_allowed(ops.push(Op::Add), false));
            assert(eval(ys, ops.push(Op::Add)) == goal);
        } else if solvable(goal as int, ys, false) {
            let ops = choose|ops: Seq<Op>|
                ops.len() + 1 == ys.len() && ops_allowed(ops, false) && #[trigger] eval(ys, ops) == goal;
            let pre = ops.drop_last();
            assert(ops =~= pre.push(ops.last()));
            lemma_eval_push(ys, pre, ops.last());
            let w = eval(rest, pre);
            assert(ops_allowed(pre, false)) by {
                assert forall|j: int| 0 <= j < pre.len() implies !(#[trigger] pre[j] is Concat) by {
                    assert(pre[j] == ops[j]);
                }
            }
            assert(solvable(w, rest, false));
            assert(all_positive(rest));
            lemma_eval_lower_bound(rest, pre);
            assert(!(ops[ops.len() - 1] is Concat));
            match ops.last() {
                Op::Mul => {
                    assert(goal as int == w * n);
                    assert(goal % n == 0 && goal / n == w) by (nonlinear_arith)
                        requires goal as int == w * n, n > 0, w >= 1;
                },
                Op::Add => {
                    assert(goal as int == w + n);
                },
                Op::Concat => {},
            }
            assert(false);
        }
    }
    by_mul || by_add
}

/// Whether `xs[0..k]` can be made to evaluate to `goal` with `+`, `*` and
/// concatenation; `lut[w - 1]` divides by `10^w`.
fn solve_rec_concat(goal: u64, xs: &Vec<(u64, u64)>, k: usize, lut: &[PrecomputedDivU64]) -> (r: bool)
    requires
        1 <= k <= xs@.len(),
        all_positive(operand_view(xs@)),
        forall|j: int| 0 <= j < xs@.len() ==> 1 <= (#[trigger] xs@[j]).1 <= 3,
        lut@.len() == 3,
        forall|j: int| 0 <= j < 3 ==> (#[trigger] lut@[j]).wf() && lut@[j].divisor() == pow10((j + 1) as nat),
    ensures
        r == solvable(goal as int, operand_view(xs@).take(k as int), true),
    decreases k,
{
    let ghost ys = operand_view(xs@).take(k as int);
    let ghost rest = operand_view(xs@).take(k - 1);
    let (n, l) = xs[k - 1];
    assert(ys.last() == operand_view(xs@)[k - 1]);
    if k == 1 {
        proof {
            lemma_solvable_single(goal as int, ys, true);
        }
        return goal == n;
    }
    assert(ys.drop_last() =~= rest);
    assert(forall|j: int| 0 <= j < rest.len() ==> (#[trigger] rest[j]).1 >= 0);
    if goal < n {
        proof {
            if solvable(goal as int, ys, true) {
                let ops = choose|ops: Seq<Op>|
                    ops.len() + 1 == ys.len() && ops_allowed(ops, true) && #[trigger] eval(ys, ops) == goal;
                lemma_eval_lower_bound(ys, ops);
            }
        }
        return false;
    }
    let pdiv = lut[(l - 1) as usize];
    let ghost p = pdiv.divisor();
    assert(p == pow10(l as nat));
    let sub = goal - n;
    let by_cat = PrecomputedDivU64::is_multiple_of(sub, pdiv)
        && solve_rec_concat(PrecomputedDivU64::fast_div(sub, pdiv), xs, k - 1, lut);
    let by_mul = !by_cat && goal % n == 0 && solve_rec_concat(goal / n, xs, k - 1, lut);
    let by_add = !by_cat && !by_mul && solve_rec_concat(goal - n, xs, k - 1, lut);
    proof {
        lemma_pow10_pos(l as nat);
        if by_cat {
            let q = sub as int / p;
            let ops = choose|ops: Seq<Op>|
                ops.len() + 1 == rest.len() && ops_allowed(ops, true) && #[trigger] eval(rest, ops) == q;
            lemma_eval_push(ys, ops, Op::Concat);
            assert(q * p == sub) by (nonlinear_arith) requires q == sub as int / p, sub as int % p == 0, p > 0;
            assert(ops_allowed(ops.push(Op::Concat), true));
            assert(eval(ys, ops.push(Op::Concat)) == goal);
        } else if by_mul {
            let div = goal / n;
            let ops = choose|ops: Seq<Op>|
                ops.len() + 1 == rest.len() && ops_allowed(ops, true) && #[trigger] eval(rest, ops) == div;
            lemma_eval_push(ys, ops, Op::Mul);
            assert(div * n == goal) by (nonlinear_arith) requires div == goal / n, goal % n == 0, n > 0;
            assert(ops_allowed(ops.push(Op::Mul), true));
            assert(eval(ys, ops.push(Op::Mul)) == goal);
        } else if by_add {
            let ops = choose|ops: Seq<Op>|
                ops.len() + 1 == rest.len() && ops_allowed(ops, true) && #[trigger] eval(rest, ops) == goal - n;
            lemma_eval_push(ys, ops, Op::Add);
            assert(ops_allowed(ops.push(Op::Add), true));
            assert(eval(ys, ops.push(Op::Add)) == goal);
        } else if solvable(goal as int, ys, true) {
            let ops = choose|ops: Seq<Op>|
                ops.len() + 1 == ys.len() && ops_allowed(ops, true) && #[trigger] eval(ys, ops) == goal;
            let pre = ops.drop_last();
            assert(ops =~= pre.push(ops.last()));
            lemma_eval_push(ys, pre, ops.last());
            let w = eval(rest, pre);
            assert(ops_allowed(pre, true));
            assert(solvable(w, rest, true));
            assert(all_positive(rest));
            lemma_eval_lower_bound(rest, pre);
            match ops.last() {
                Op::Mul => {
                    assert(goal as int == w * n);
                    assert(goal % n == 0 && goal / n == w) by (nonlinear_arith)
                        requires goal as int == w * n, n > 0, w >= 1;
                },
                Op::Add => {
                    assert(goal as int == w + n);
                },
                Op::Concat => {
                    assert(goal as int == w * p + n);
                    assert(sub as int % p == 0 && sub as int / p == w) by (nonlinear_arith)
                        requires sub as int == w * p, p > 0, w >= 1;
                },
            }
            assert(false);
        }
    }
    by_cat || by_mul || by_add
}


/// `atoi_radix10::parse::<u64>`, which its documentation gives the semantics
/// of `str::parse`. Claimed here: on a nonempty slice of decimal digits whose
/// value fits in a `u64` it returns that value. Nothing is claimed of other
/// slices (the crate also accepts a leading sign).
#[verifier::external_body]
fn atoi_u64(digits: &[u8]) -> (r: Option<u64>)
    ensures
        all_digits(digits@) && digits@.len() > 0 && dec_value(digits@) <= u64::MAX ==> r == Some(
            dec_value(digits@) as u64,
        ),
{
    match atoi_radix10::parse::<u64>(digits) {
        Ok(v) => Some(v),
        Err(_) => None,
    }
}

/// Every operand has one to three digits.
pub open spec fn short_operands(xs: Seq<(u64, u64)>) -> bool {
    forall|j: int| 0 <= j < xs.len() ==> 1 <= (#[trigger] xs[j]).1 <= 3
}

/// The total calibration result of the input; `concat` allows the
/// concatenation operator.
fn calibrate(s: &[u8], concat: bool) -> (r: u64)
    requires
        wf_input(s@, 0, concat),
        answer(s@, concat) <= u64::MAX,
    ensures
        r == answer(s@, concat),
{
    let lut = [PrecomputedDivU64::new(10), PrecomputedDivU64::new(100), PrecomputedDivU64::new(1000)];
    proof {
        reveal_with_fuel(pow10, 4);
        lemma_equations_goals_nonneg(s@, 0);
    }
    let mut tot: u64 = 0;
    let mut i: usize = 0;
    let ghost mut done: Seq<(int, Seq<Operand>)> = seq![];
    assert(equations(s@, 0) =~= done + equations(s@, 0));
    while i < s.len()
        invariant
            i <= s@.len(),
            wf_input(s@, i as int, concat),
            equations(s@, 0) == done + equations(s@, i as int),
            tot == calibration(done, concat),
            calibration(equations(s@, 0), concat) <= u64::MAX,
            forall|k: int| 0 <= k < equations(s@, 0).len() ==> (#[trigger] equations(s@, 0)[k]).0 >= 0,
            lut@.len() == 3,
            forall|j: int| 0 <= j < 3 ==> (#[trigger] lut@[j]).wf() && lut@[j].divisor() == pow10((j + 1) as nat),
        decreases s@.len() - i,
    {
        let ghost rest = equations(s@, i as int);
        let c = skip_digits(s, i);
        proof {
            lemma_digits_end(s@, i as int);
            lemma_operands_end(s@, c + 1);
        }
        let ghost e = operands_end(s@, c + 1);
        let ghost tail = if e < s@.len() { equations(s@, e + 1) } else { seq![] };
        let goal = match atoi_u64(&s[i..c]) {
            Some(v) => v,
            None => 0,
        };
        proof {
            assert(s@.subrange(i as int, c as int) =~= numeral_at(s@, i as int));
            lemma_dec_value_bounds(numeral_at(s@, i as int));
            lemma_numeral_small(numeral_at(s@, i as int));
            lemma_pow10_mono(numeral_at(s@, i as int).len(), 15);
            assert(pow10(15) == 1_000_000_000_000_000) by {
                reveal_with_fuel(pow10, 16);
            }
        }
        let mut xs: Vec<(u64, u64)> = Vec::new();
        let mut j = c + 1;
        assert(operands(s@, c + 1) =~= operand_view(xs@) + operands(s@, j as int));
        while j < s.len() && s[j] == 32
            invariant
                c + 1 <= j <= s@.len(),
                operands(s@, c + 1) == operand_view(xs@) + operands(s@, j as int),
                operands_end(s@, c + 1) == operands_end(s@, j as int),
                wf_operands(s@, j as int, concat),
                all_positive(operand_view(xs@)),
                concat ==> short_operands(xs@),
                forall|k: int| 0 <= k < xs@.len() ==> (#[trigger] xs@[k]).1 >= 1,
            decreases s@.len() - j,
        {
            proof {
                lemma_digits_end(s@, j + 1);
                assert(numeral_at(s@, j + 1) == s@.subrange(j + 1, digits_end(s@, j + 1)));
            }
            let (v, e2) = parse_digits(s, j + 1);
            let ghost old_xs = xs@;
            xs.push((v, (e2 - j - 1) as u64));
            proof {
                assert(operand_view(xs@) =~= operand_view(old_xs).push((v as int, e2 - j - 1)));
                let tl = operands(s@, e2 as int);
                assert(operands(s@, j as int) =~= seq![(v as int, e2 - j - 1)] + tl);
                assert(operand_view(xs@) + tl =~= operand_view(old_xs) + operands(s@, j as int));
                assert forall|k: int| 0 <= k < operand_view(xs@).len() implies (#[trigger] operand_view(xs@)[k]).0 >= 1 by {
                    if k < old_xs.len() {
                        assert(operand_view(xs@)[k] == operand_view(old_xs)[k]);
                    }
                }
            }
            j = e2;
        }
        let ghost xsv = operand_view(xs@);
        proof {
            assert(operands(s@, j as int) == Seq::<Operand>::empty());
            assert(xsv =~= operands(s@, c + 1));
            assert(xsv.take(xsv.len() as int) =~= xsv);
            assert(rest =~= seq![(goal as int, xsv)] + tail);
        }
        let ok = if concat {
            solve_rec_concat(goal, &xs, xs.len(), &lut)
        } else {
            solve_rec(goal, &xs, xs.len())
        };
        proof {
            let eq = (goal as int, xsv);
            assert(done.push(eq).drop_last() =~= done);
            assert(equations(s@, 0) =~= done.push(eq) + tail);
            assert forall|k: int| 0 <= k < tail.len() implies (#[trigger] tail[k]).0 >= 0 by {
                assert(tail[k] == equations(s@, 0)[done.len() + 1 + k]);
            }
            lemma_calibration_append(done.push(eq), tail, concat);
        }
        if ok {
            tot = tot + goal;
        }
        proof {
            done = done.push((goal as int, xsv));
            assert(equations(s@, 0) =~= done + equations(s@, e + 1));
        }
        i = j + 1;
    }
    proof {
        assert(done =~= equations(s@, 0));
    }
    tot
}

/// Part 1: the total calibration result with `+` and `*`.
pub fn part1(input: &str) -> (r: u64)
    requires
        wf_input(input.spec_bytes(), 0, false),
        answer(input.spec_bytes(), false) <= u64::MAX,
    ensures
        r == answer(input.spec_bytes(), false),
{
    calibrate(input.as_bytes(), false)
}

/// Part 2: the total calibration result with `+`, `*` and concatenation.
pub fn part2(input: &str) -> (r: u64)
    requires
        wf_input(input.spec_bytes(), 0, true),
        answer(input.spec_bytes(), true) <= u64::MAX,
    ensures
        r == answer(input.spec_bytes(), true),
{
    calibrate(input.as_bytes(), true)
}

/// The answer of part 1, as a signed number.
pub fn run(input: &str) -> (r: i64)
    requires
        wf_input(input.spec_bytes(), 0, false),
        answer(input.spec_bytes(), false) <= u64::MAX,
    ensures
        r == answer(input.spec_bytes(), false) as i64,
{
    part1(input) as i64
}

/// Concatenation only adds ways to make an equation true, so with test
/// values that are not negative the answer of part 1 is at most that of
/// part 2.
pub proof fn lemma_concat_adds(eqs: Seq<(int, Seq<Operand>)>)
    requires
        forall|k: int| 0 <= k < eqs.len() ==> (#[trigger] eqs[k]).0 >= 0,
    ensures
        0 <= calibration(eqs, false) <= calibration(eqs, true),
    decreases eqs.len(),
{
    if eqs.len() > 0 {
        let rest = eqs.drop_last();
        assert forall|k: int| 0 <= k < rest.len() implies (#[trigger] rest[k]).0 >= 0 by {
            assert(rest[k] == eqs[k]);
        }
        lemma_concat_adds(rest);
        let (goal, xs) = eqs.last();
        assert(goal == eqs[eqs.len() - 1].0);
        if solvable(goal, xs, false) {
            let ops = choose|ops: Seq<Op>|
                ops.len() + 1 == xs.len() && ops_allowed(ops, false) && #[trigger] eval(xs, ops) == goal;
            assert(ops_allowed(ops, true));
            assert(eval(xs, ops) == goal);
        }
    }
}

/// The answer of part 1 is at most that of part 2, on any input.
pub proof fn lemma_part1_at_most_part2(s: Seq<u8>)
    ensures
        0 <= answer(s, false) <= answer(s, true),
{
    lemma_equations_goals_nonneg(s, 0);
    lemma_concat_adds(equations(s, 0));
}

} // verus!
