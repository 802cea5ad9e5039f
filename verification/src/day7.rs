//! Bridge calibrations: each line names a target and some numbers; an
//! equation counts when some left-to-right combination of operators over
//! the numbers reaches the target.
use crate::scan;
use vstd::prelude::*;

verus! {

/// An operator expression over the numbers, built left to right.
pub enum Operator {
    Identity(i64),
    Add(Box<Operator>, Box<Operator>),
    Multiply(Box<Operator>, Box<Operator>),
    Concat(Box<Operator>, Box<Operator>),
}

/// One calibration equation: the target and its numbers.
pub struct Calibration {
    pub result: i64,
    pub numbers: Vec<i64>,
}

/// The operator kinds a search may combine with; concatenation only in
/// the second part.
#[derive(Copy, Clone, Debug, PartialEq, Eq, Structural)]
pub enum OpKind {
    Add,
    Multiply,
    Concat,
}

pub open spec fn pow10(d: nat) -> int
    decreases d,
{
    if d == 0 {
        1
    } else {
        10 * pow10((d - 1) as nat)
    }
}

/// The number of decimal digits of a non-negative number.
pub open spec fn dec_len(m: int) -> int
    decreases m,
{
    if m <= 9 {
        1
    } else {
        1 + dec_len(m / 10)
    }
}

/// Concatenating the digits of `r` (non-negative) after `l`, as writing
/// them out and reading the whole back.
pub open spec fn concat_val(l: int, r: int) -> int {
    l * pow10(dec_len(r) as nat) + if l >= 0 {
        r
    } else {
        -r
    }
}

/// The value of an expression.
pub open spec fn spec_eval(op: Operator) -> int
    decreases op,
{
    match op {
        Operator::Identity(n) => n as int,
        Operator::Add(l, r) => spec_eval(*l) + spec_eval(*r),
        Operator::Multiply(l, r) => spec_eval(*l) * spec_eval(*r),
        Operator::Concat(l, r) => concat_val(spec_eval(*l), spec_eval(*r)),
    }
}

/// Whether an expression evaluates within machine arithmetic: every
/// intermediate value fits an i64 and concatenation only sees a
/// non-negative right operand.
pub open spec fn spec_fits(op: Operator) -> bool
    decreases op,
{
    match op {
        Operator::Identity(_) => true,
        Operator::Add(l, r) => spec_fits(*l) && spec_fits(*r) && i64::MIN <= spec_eval(*l)
            + spec_eval(*r) <= i64::MAX,
        Operator::Multiply(l, r) => spec_fits(*l) && spec_fits(*r) && i64::MIN <= spec_eval(*l)
            * spec_eval(*r) <= i64::MAX,
        Operator::Concat(l, r) => spec_fits(*l) && spec_fits(*r) && spec_eval(*r) >= 0
            && i64::MIN <= concat_val(spec_eval(*l), spec_eval(*r)) <= i64::MAX,
    }
}

pub proof fn lemma_pow10_mono(a: nat, b: nat)
    requires
        a <= b,
    ensures
        1 <= pow10(a) <= pow10(b),
    decreases b,
{
    if b > 0 {
        if a == b {
            lemma_pow10_mono((b - 1) as nat, (b - 1) as nat);
        } else {
            lemma_pow10_mono(a, (b - 1) as nat);
        }
    }
}

pub proof fn lemma_dec_len_le(m: int, k: int)
    requires
        0 <= m,
        1 <= k,
        m < pow10(k as nat),
    ensures
        1 <= dec_len(m) <= k,
    decreases m,
{
    if m > 9 {
        assert(pow10(k as nat) == 10 * pow10((k - 1) as nat));
        if k == 1 {
            assert(pow10(1nat) == 10);
            assert(false);
        }
        assert(m / 10 < pow10((k - 1) as nat)) by (nonlinear_arith)
            requires
                m < 10 * pow10((k - 1) as nat),
                0 <= m,
                pow10((k - 1) as nat) >= 1,
        ;
        lemma_dec_len_le(m / 10, k - 1);
    }
}

pub proof fn lemma_dec_len_pos(m: int)
    ensures
        dec_len(m) >= 1,
    decreases
            if m >= 0 {
                m
            } else {
                0
            },
{
    if m > 9 {
        lemma_dec_len_pos(m / 10);
    }
}

/// The number of digits an i64 can have.
proof fn lemma_dec_len_i64(m: int)
    requires
        0 <= m <= i64::MAX,
    ensures
        1 <= dec_len(m) <= 19,
{
    reveal_with_fuel(pow10, 21);
    assert(pow10(19nat) == 10_000_000_000_000_000_000);
    lemma_dec_len_le(m, 19);
}

fn dec_len_exec(m: i64) -> (d: usize)
    requires
        m >= 0,
    ensures
        d == dec_len(m as int),
        1 <= d <= 19,
{
    proof {
        lemma_dec_len_i64(m as int);
    }
    let mut cur = m;
    let mut d: usize = 1;
    while cur > 9
        invariant
            0 <= cur,
            1 <= d,
            dec_len(m as int) == d - 1 + dec_len(cur as int),
            dec_len(cur as int) >= 1,
            d - 1 + dec_len(cur as int) <= 19,
        decreases cur,
    {
        proof {
            lemma_dec_len_pos(cur as int / 10);
        }
        cur = cur / 10;
        d += 1;
    }
    d
}

fn pow10_exec(d: usize) -> (p: i128)
    requires
        d <= 19,
    ensures
        p == pow10(d as nat),
{
    proof {
        reveal_with_fuel(pow10, 21);
        assert(pow10(19nat) == 10_000_000_000_000_000_000);
    }
    let mut p: i128 = 1;
    let mut j: usize = 0;
    while j < d
        invariant
            j <= d <= 19,
            p == pow10(j as nat),
            1 <= p,
            p <= pow10(19nat),
            pow10(19nat) == 10_000_000_000_000_000_000,
        decreases d - j,
    {
        proof {
            lemma_pow10_mono(j as nat + 1, 19nat);
        }
        p = p * 10;
        j += 1;
    }
    p
}

/// Evaluates an expression; None exactly when it cannot be evaluated
/// within i64.
pub fn eval_checked(op: &Operator) -> (out: Option<i64>)
    ensures
        match out {
            Some(v) => spec_fits(*op) && v == spec_eval(*op),
            None => !spec_fits(*op),
        },
    decreases *op,
{
    match op {
        Operator::Identity(n) => Some(*n),
        Operator::Add(l, r) => {
            let a = match eval_checked(l) {
                Some(v) => v,
                None => {
                    return None;
                },
            };
            let b = match eval_checked(r) {
                Some(v) => v,
                None => {
                    return None;
                },
            };
            a.checked_add(b)
        },
        Operator::Multiply(l, r) => {
            let a = match eval_checked(l) {
                Some(v) => v,
                None => {
                    return None;
                },
            };
            let b = match eval_checked(r) {
                Some(v) => v,
                None => {
                    return None;
                },
            };
            a.checked_mul(b)
        },
        Operator::Concat(l, r) => {
            let a = match eval_checked(l) {
                Some(v) => v,
                None => {
                    return None;
                },
            };
            let b = match eval_checked(r) {
                Some(v) => v,
                None => {
                    return None;
                },
            };
            if b < 0 {
                return None;
            }
            let d = dec_len_exec(b);
            let p = pow10_exec(d);
            proof {
                reveal_with_fuel(pow10, 21);
                assert(pow10(19nat) == 10_000_000_000_000_000_000);
                lemma_pow10_mono(d as nat, 19nat);
                assert((a as i128) * p >= -92_233_720_368_547_758_080_000_000_000_000_000_000i128
                    && (a as i128) * p <= 92_233_720_368_547_758_080_000_000_000_000_000_000i128)
                    by (nonlinear_arith)
                    requires
                        -0x8000_0000_0000_0000 <= a <= 0x7fff_ffff_ffff_ffff,
                        1 <= p <= 10_000_000_000_000_000_000,
                ;
            }
            let scaled: i128 = (a as i128) * p;
            let add: i128 = if a >= 0 {
                b as i128
            } else {
                -(b as i128)
            };
            let v: i128 = scaled + add;
            if v < i64::MIN as i128 || v > i64::MAX as i128 {
                return None;
            }
            Some(v as i64)
        },
    }
}

impl Operator {
    /// Evaluates the expression in plain i64 arithmetic.
    pub fn result(&self) -> (v: i64)
        requires
            spec_fits(*self),
        ensures
            v == spec_eval(*self),
    {
        let r = eval_checked(self);
        r.unwrap()
    }
}

/// A structural copy of an expression.
pub fn clone_op(op: &Operator) -> (out: Operator)
    ensures
        out == *op,
    decreases *op,
{
    match op {
        Operator::Identity(n) => Operator::Identity(*n),
        Operator::Add(l, r) => Operator::Add(Box::new(clone_op(l)), Box::new(clone_op(r))),
        Operator::Multiply(l, r) => Operator::Multiply(
            Box::new(clone_op(l)),
            Box::new(clone_op(r)),
        ),
        Operator::Concat(l, r) => Operator::Concat(Box::new(clone_op(l)), Box::new(clone_op(r))),
    }
}

/// One combination step: the accumulated expression extended by a number
/// under one operator kind.
pub open spec fn combine(kind: OpKind, t: Operator, n: i64) -> Operator {
    match kind {
        OpKind::Add => Operator::Add(Box::new(t), Box::new(Operator::Identity(n))),
        OpKind::Multiply => Operator::Multiply(Box::new(t), Box::new(Operator::Identity(n))),
        OpKind::Concat => Operator::Concat(Box::new(t), Box::new(Operator::Identity(n))),
    }
}

/// One expression extended by every kind, in order.
pub open spec fn apply_kinds(t: Operator, ops: Seq<OpKind>, n: i64) -> Seq<Operator>
    decreases ops.len(),
{
    if ops.len() == 0 {
        Seq::empty()
    } else {
        seq![combine(ops[0], t, n)] + apply_kinds(t, ops.skip(1), n)
    }
}

/// Every expression of the previous round extended by every kind.
pub open spec fn expand_trees(prev: Seq<Operator>, ops: Seq<OpKind>, n: i64) -> Seq<Operator>
    decreases prev.len(),
{
    if prev.len() == 0 {
        Seq::empty()
    } else {
        apply_kinds(prev[0], ops, n) + expand_trees(prev.skip(1), ops, n)
    }
}

proof fn lemma_expand_push(prev: Seq<Operator>, t: Operator, ops: Seq<OpKind>, n: i64)
    ensures
        expand_trees(prev.push(t), ops, n) == expand_trees(prev, ops, n) + apply_kinds(t, ops, n),
    decreases prev.len(),
{
    if prev.len() == 0 {
        assert(prev.push(t)[0] == t);
        assert(expand_trees(prev.push(t), ops, n) == apply_kinds(t, ops, n) + expand_trees(
            prev.push(t).skip(1),
            ops,
            n,
        ));
        assert(prev.push(t).skip(1).len() == 0);
        assert(expand_trees(prev.push(t).skip(1), ops, n) =~= Seq::<Operator>::empty());
        assert(expand_trees(prev, ops, n) =~= Seq::<Operator>::empty());
        assert(apply_kinds(t, ops, n) + Seq::<Operator>::empty() =~= Seq::<Operator>::empty()
            + apply_kinds(t, ops, n));
    } else {
        assert(prev.push(t).skip(1) =~= prev.skip(1).push(t));
        lemma_expand_push(prev.skip(1), t, ops, n);
        assert(prev.push(t)[0] == prev[0]);
        assert(apply_kinds(prev[0], ops, n) + (expand_trees(prev.skip(1), ops, n) + apply_kinds(
            t,
            ops,
            n,
        )) =~= (apply_kinds(prev[0], ops, n) + expand_trees(prev.skip(1), ops, n)) + apply_kinds(
            t,
            ops,
            n,
        ));
    }
}

proof fn lemma_apply_kinds_take(t: Operator, ops: Seq<OpKind>, n: i64, j: int)
    requires
        0 <= j < ops.len(),
    ensures
        apply_kinds(t, ops.take(j + 1), n) == apply_kinds(t, ops.take(j), n).push(
            combine(ops[j], t, n),
        ),
    decreases j,
{
    if j == 0 {
        assert(ops.take(1)[0] == ops[0]);
        assert(ops.take(1).skip(1) =~= Seq::<OpKind>::empty());
        assert(ops.take(0) =~= Seq::<OpKind>::empty());
        assert(apply_kinds(t, ops.take(1), n) =~= apply_kinds(t, ops.take(0), n).push(
            combine(ops[0], t, n),
        ));
    } else {
        assert(ops.take(j + 1).skip(1) =~= ops.skip(1).take(j));
        assert(ops.take(j).skip(1) =~= ops.skip(1).take(j - 1));
        lemma_apply_kinds_take(t, ops.skip(1), n, j - 1);
        assert(ops.skip(1)[j - 1] == ops[j]);
        assert(ops.take(j + 1)[0] == ops[0] && ops.take(j)[0] == ops[0]);
        assert(seq![combine(ops[0], t, n)] + apply_kinds(t, ops.skip(1).take(j - 1), n).push(
            combine(ops[j], t, n),
        ) =~= (seq![combine(ops[0], t, n)] + apply_kinds(t, ops.skip(1).take(j - 1), n)).push(
            combine(ops[j], t, n),
        ));
    }
}

/// The combinations over the first `k` numbers: one seed expression for
/// the first number, every kind applied per further number.
pub open spec fn spec_combinations(numbers: Seq<i64>, ops: Seq<OpKind>, k: int) -> Seq<Operator>
    decreases k,
{
    if k <= 0 {
        Seq::empty()
    } else if k == 1 {
        seq![Operator::Identity(numbers[0])]
    } else {
        expand_trees(spec_combinations(numbers, ops, k - 1), ops, numbers[k - 1])
    }
}

impl Calibration {
    /// Builds every left-to-right combination of the given operator kinds
    /// over the calibration's numbers.
    pub fn find_combinations(&self, ops: &Vec<OpKind>) -> (out: Vec<Operator>)
        ensures
            out@ == spec_combinations(self.numbers@, ops@, self.numbers@.len() as int),
    {
        let n = self.numbers.len();
        let mut out: Vec<Operator> = Vec::new();
        let mut k: usize = 0;
        while k < n
            invariant
                k <= n,
                n == self.numbers@.len(),
                out@ == spec_combinations(self.numbers@, ops@, k as int),
            decreases n - k,
        {
            let num = self.numbers[k];
            if k == 0 {
                out.push(Operator::Identity(num));
                proof {
                    assert(out@ =~= spec_combinations(self.numbers@, ops@, 1));
                }
            } else {
                let prev = out;
                out = Vec::new();
                let m = prev.len();
                let mut i: usize = 0;
                proof {
                    assert(prev@.take(0) =~= Seq::<Operator>::empty());
                    assert(out@ =~= expand_trees(prev@.take(0), ops@, num));
                }
                while i < m
                    invariant
                        i <= m,
                        m == prev@.len(),
                        out@ == expand_trees(prev@.take(i as int), ops@, num),
                    decreases m - i,
                {
                    let nops = ops.len();
                    let mut j: usize = 0;
                    let ghost before = out@;
                    while j < nops
                        invariant
                            j <= nops,
                            nops == ops@.len(),
                            i < m,
                            m == prev@.len(),
                            out@ == before + apply_kinds(prev@[i as int], ops@.take(j as int), num),
                        decreases nops - j,
                    {
                        let t = clone_op(&prev[i]);
                        let combined = match ops[j] {
                            OpKind::Add => Operator::Add(
                                Box::new(t),
                                Box::new(Operator::Identity(num)),
                            ),
                            OpKind::Multiply => Operator::Multiply(
                                Box::new(t),
                                Box::new(Operator::Identity(num)),
                            ),
                            OpKind::Concat => Operator::Concat(
                                Box::new(t),
                                Box::new(Operator::Identity(num)),
                            ),
                        };
                        out.push(combined);
                        proof {
                            lemma_apply_kinds_take(prev@[i as int], ops@, num, j as int);
                            assert(out@ =~= before + apply_kinds(
                                prev@[i as int],
                                ops@.take(j + 1),
                                num,
                            ));
                        }
                        j += 1;
                    }
                    proof {
                        assert(ops@.take(nops as int) =~= ops@);
                        assert(prev@.take(i + 1) =~= prev@.take(i as int).push(prev@[i as int]));
                        lemma_expand_push(prev@.take(i as int), prev@[i as int], ops@, num);
                    }
                    i += 1;
                }
                proof {
                    assert(prev@.take(m as int) =~= prev@);
                }
            }
            k += 1;
        }
        out
    }
}

/// Whether some combination evaluates, within i64, to the target.
pub open spec fn calibration_hits(numbers: Seq<i64>, ops: Seq<OpKind>, target: i64) -> bool {
    exists|i: int|
        0 <= i < spec_combinations(numbers, ops, numbers.len() as int).len() && {
            let t = #[trigger] spec_combinations(numbers, ops, numbers.len() as int)[i];
            spec_fits(t) && spec_eval(t) == target
        }
}

/// The calibration result summed over the first `k` equations that some
/// combination reaches.
pub open spec fn spec_total(cals: Seq<(i64, Seq<i64>)>, ops: Seq<OpKind>, k: int) -> int
    decreases k,
{
    if k <= 0 {
        0
    } else {
        spec_total(cals, ops, k - 1) + if calibration_hits(cals[k - 1].1, ops, cals[k - 1].0) {
            cals[k - 1].0 as int
        } else {
            0int
        }
    }
}

/// A calibration line: the target, a colon, then the numbers.
pub open spec fn line_ok(line: Seq<u8>) -> bool {
    let ps = scan::split_at(line, 58);
    &&& ps.len() == 2
    &&& scan::is_int_lit(ps[0])
    &&& i64::MIN <= scan::int_val(ps[0]) <= i64::MAX
    &&& scan::non_empty(scan::split_at(ps[1], 32)).len() >= 1
    &&& forall|i: int|
        0 <= i < scan::non_empty(scan::split_at(ps[1], 32)).len() ==> scan::is_int_lit(
            #[trigger] scan::non_empty(scan::split_at(ps[1], 32))[i],
        ) && i64::MIN <= scan::int_val(scan::non_empty(scan::split_at(ps[1], 32))[i]) <= i64::MAX
}

pub open spec fn line_target(line: Seq<u8>) -> i64 {
    scan::int_val(scan::split_at(line, 58)[0]) as i64
}

pub open spec fn line_numbers(line: Seq<u8>) -> Seq<i64> {
    let fs = scan::non_empty(scan::split_at(scan::split_at(line, 58)[1], 32));
    Seq::new(fs.len(), |i: int| scan::int_val(fs[i]) as i64)
}

pub open spec fn input_ok(s: Seq<u8>) -> bool {
    &&& scan::spec_lines(s).len() >= 1
    &&& forall|i: int| 0 <= i < scan::spec_lines(s).len() ==> line_ok(#[trigger] scan::spec_lines(s)[i])
}

pub open spec fn spec_calibrations(s: Seq<u8>) -> Seq<(i64, Seq<i64>)> {
    Seq::new(
        scan::spec_lines(s).len(),
        |i: int|
            (line_target(scan::spec_lines(s)[i]), line_numbers(scan::spec_lines(s)[i])),
    )
}

/// Reads the calibrations; None when the input does not parse.
pub fn parse(input: &[u8]) -> (out: Option<Vec<Calibration>>)
    ensures
        match out {
            Some(cals) => {
                &&& input_ok(input@)
                &&& cals@.len() == spec_calibrations(input@).len()
                &&& forall|i: int|
                    0 <= i < cals@.len() ==> (#[trigger] cals@[i]).result == spec_calibrations(
                        input@,
                    )[i].0 && cals@[i].numbers@ == spec_calibrations(input@)[i].1
            },
            None => !input_ok(input@),
        },
{
    let ls = scan::lines(input);
    let ghost lv = scan::spec_lines(input@);
    if ls.len() == 0 {
        return None;
    }
    let mut cals: Vec<Calibration> = Vec::new();
    let mut i: usize = 0;
    while i < ls.len()
        invariant
            i <= ls@.len(),
            ls@.len() >= 1,
            scan::pieces_view(ls@) == lv,
            lv == scan::spec_lines(input@),
            cals@.len() == i,
            forall|x: int| 0 <= x < i ==> line_ok(#[trigger] lv[x]),
            forall|x: int|
                0 <= x < i ==> (#[trigger] cals@[x]).result == line_target(lv[x])
                    && cals@[x].numbers@ == line_numbers(lv[x]),
        decreases ls@.len() - i,
    {
        let ghost line = lv[i as int];
        proof {
            assert(ls@[i as int]@ == line);
        }
        let ps = scan::split_bytes(&ls[i], 58);
        proof {
            assert(scan::pieces_view(ps@) == scan::split_at(line, 58));
        }
        if ps.len() != 2 {
            return None;
        }
        proof {
            assert(ps@[0]@ == scan::split_at(line, 58)[0]);
            assert(ps@[1]@ == scan::split_at(line, 58)[1]);
        }
        let target = match scan::parse_i64(&ps[0]) {
            Some(v) => v,
            None => {
                return None;
            },
        };
        let fs = scan::split_fields(&ps[1], 32);
        proof {
            assert(scan::pieces_view(fs@) == scan::non_empty(
                scan::split_at(scan::split_at(line, 58)[1], 32),
            ));
        }
        if fs.len() == 0 {
            return None;
        }
        let mut numbers: Vec<i64> = Vec::new();
        let mut j: usize = 0;
        while j < fs.len()
            invariant
                j <= fs@.len(),
                i < lv.len(),
                lv == scan::spec_lines(input@),
                line == lv[i as int],
                scan::pieces_view(fs@) == scan::non_empty(
                    scan::split_at(scan::split_at(line, 58)[1], 32),
                ),
                numbers@.len() == j,
                forall|x: int|
                    0 <= x < j ==> scan::is_int_lit(
                        #[trigger] scan::non_empty(
                            scan::split_at(scan::split_at(line, 58)[1], 32),
                        )[x],
                    ) && i64::MIN <= scan::int_val(
                        scan::non_empty(scan::split_at(scan::split_at(line, 58)[1], 32))[x],
                    ) <= i64::MAX,
                forall|x: int|
                    0 <= x < j ==> #[trigger] numbers@[x] == scan::int_val(
                        scan::non_empty(scan::split_at(scan::split_at(line, 58)[1], 32))[x],
                    ) as i64,
            decreases fs@.len() - j,
        {
            proof {
                assert(fs@[j as int]@ == scan::non_empty(
                    scan::split_at(scan::split_at(line, 58)[1], 32),
                )[j as int]);
            }
            let v = match scan::parse_i64(&fs[j]) {
                Some(v) => v,
                None => {
                    return None;
                },
            };
            numbers.push(v);
            j += 1;
        }
        proof {
            assert(numbers@ =~= line_numbers(line));
        }
        cals.push(Calibration { result: target, numbers });
        i += 1;
    }
    Some(cals)
}

/// Both answers for one input: the calibration totals reachable with add
/// and multiply, and with concatenation allowed too.  None when the input
/// does not parse or a total leaves the i64 range.
pub fn run(input: &[u8]) -> (out: Option<(i64, i64)>)
    ensures
        ({
            let cals = spec_calibrations(input@);
            let two = seq![OpKind::Add, OpKind::Multiply];
            let three = seq![OpKind::Add, OpKind::Multiply, OpKind::Concat];
            match out {
                Some(ans) => {
                    &&& input_ok(input@)
                    &&& ans.0 == spec_total(cals, two, cals.len() as int)
                    &&& ans.1 == spec_total(cals, three, cals.len() as int)
                },
                None => {
                    ||| !input_ok(input@)
                    ||| exists|k: int|
                        0 <= k <= cals.len() && !(i64::MIN <= #[trigger] spec_total(cals, two, k)
                            <= i64::MAX)
                    ||| exists|k: int|
                        0 <= k <= cals.len() && !(i64::MIN <= #[trigger] spec_total(
                            cals,
                            three,
                            k,
                        ) <= i64::MAX)
                },
            }
        }),
{
    let cals = match parse(input) {
        Some(cals) => cals,
        None => {
            return None;
        },
    };
    let mut two_kinds: Vec<OpKind> = Vec::new();
    two_kinds.push(OpKind::Add);
    two_kinds.push(OpKind::Multiply);
    let mut three_kinds: Vec<OpKind> = Vec::new();
    three_kinds.push(OpKind::Add);
    three_kinds.push(OpKind::Multiply);
    three_kinds.push(OpKind::Concat);
    proof {
        assert(two_kinds@ =~= seq![OpKind::Add, OpKind::Multiply]);
        assert(three_kinds@ =~= seq![OpKind::Add, OpKind::Multiply, OpKind::Concat]);
    }
    let a = match total_for(&cals, &two_kinds, Ghost(spec_calibrations(input@))) {
        Some(v) => v,
        None => {
            return None;
        },
    };
    let b = match total_for(&cals, &three_kinds, Ghost(spec_calibrations(input@))) {
        Some(v) => v,
        None => {
            return None;
        },
    };
    Some((a, b))
}

/// The total of the calibrations that some combination of the kinds
/// reaches; None when the total leaves the i64 range.
fn total_for(cals: &Vec<Calibration>, ops: &Vec<OpKind>, Ghost(gcals): Ghost<Seq<(i64, Seq<i64>)>>)
    -> (out: Option<i64>)
    requires
        cals@.len() == gcals.len(),
        forall|i: int|
            0 <= i < cals@.len() ==> (#[trigger] cals@[i]).result == gcals[i].0
                && cals@[i].numbers@ == gcals[i].1,
    ensures
        match out {
            Some(v) => v == spec_total(gcals, ops@, gcals.len() as int) && forall|k: int|
                0 <= k <= gcals.len() ==> i64::MIN <= #[trigger] spec_total(gcals, ops@, k)
                    <= i64::MAX,
            None => exists|k: int|
                0 <= k <= gcals.len() && !(i64::MIN <= #[trigger] spec_total(gcals, ops@, k)
                    <= i64::MAX),
        },
{
    let n = cals.len();
    let mut acc: i64 = 0;
    let mut i: usize = 0;
    while i < n
        invariant
            i <= n,
            n == cals@.len(),
            n == gcals.len(),
            forall|x: int|
                0 <= x < cals@.len() ==> (#[trigger] cals@[x]).result == gcals[x].0
                    && cals@[x].numbers@ == gcals[x].1,
            acc == spec_total(gcals, ops@, i as int),
            forall|k: int|
                0 <= k <= i ==> i64::MIN <= #[trigger] spec_total(gcals, ops@, k) <= i64::MAX,
        decreases n - i,
    {
        let cal = &cals[i];
        let combos = cal.find_combinations(ops);
        let target = cal.result;
        let m = combos.len();
        let mut hit = false;
        let mut j: usize = 0;
        while j < m
            invariant
                j <= m,
                i < n,
                n == cals@.len(),
                n == gcals.len(),
                cal == cals@[i as int],
                cal.result == gcals[i as int].0,
                cal.numbers@ == gcals[i as int].1,
                target == cal.result,
                m == combos@.len(),
                combos@ == spec_combinations(
                    gcals[i as int].1,
                    ops@,
                    gcals[i as int].1.len() as int,
                ),
                hit ==> calibration_hits(gcals[i as int].1, ops@, gcals[i as int].0),
                !hit ==> forall|x: int|
                    0 <= x < j ==> !{
                        let t = #[trigger] spec_combinations(
                            gcals[i as int].1,
                            ops@,
                            gcals[i as int].1.len() as int,
                        )[x];
                        spec_fits(t) && spec_eval(t) == gcals[i as int].0
                    },
            decreases m - j,
        {
            if !hit {
                match eval_checked(&combos[j]) {
                    Some(v) => {
                        if v == target {
                            hit = true;
                        }
                    },
                    None => {},
                }
            }
            j += 1;
        }
        let add: i64 = if hit {
            target
        } else {
            0
        };
        acc = match acc.checked_add(add) {
            Some(v) => v,
            None => {
                proof {
                    assert(spec_total(gcals, ops@, i + 1) == acc + add);
                }
                return None;
            },
        };
        i += 1;
    }
    Some(acc)
}

} // verus!
