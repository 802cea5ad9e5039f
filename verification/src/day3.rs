//! Corrupted instruction memory: a scan for mul(a,b) instructions among
//! garbage, with do() and don't() switching later multiplications on and
//! off.
use crate::scan;
use vstd::prelude::*;

verus! {

/// One scanned token: a multiplication, a switch, or one garbage byte.
#[derive(Copy, Clone, Debug, PartialEq, Eq, Structural)]
pub enum Value {
    Garbage,
    Mul(i32, i32),
    Do,
    DoNot,
}

/// Whether the literal stands in `s` at position `i`.
pub open spec fn lit_at(s: Seq<u8>, i: int, lit: Seq<u8>) -> bool {
    i >= 0 && i + lit.len() <= s.len() && s.subrange(i, i + lit.len() as int) == lit
}

pub open spec fn mul_lit() -> Seq<u8> {
    seq![109u8, 117u8, 108u8, 40u8]
}

pub open spec fn do_lit() -> Seq<u8> {
    seq![100u8, 111u8, 40u8, 41u8]
}

pub open spec fn dont_lit() -> Seq<u8> {
    seq![100u8, 111u8, 110u8, 39u8, 116u8, 40u8, 41u8]
}

/// Length of the digit run starting at `i`.
pub open spec fn digits_run(s: Seq<u8>, i: int) -> int
    decreases s.len() - i,
{
    if i < 0 || i >= s.len() || !scan::is_digit(s[i]) {
        0
    } else {
        1 + digits_run(s, i + 1)
    }
}

pub proof fn lemma_digits_run_bound(s: Seq<u8>, i: int)
    requires
        0 <= i <= s.len(),
    ensures
        0 <= digits_run(s, i) <= s.len() - i,
        forall|x: int| i <= x < i + digits_run(s, i) ==> scan::is_digit(#[trigger] s[x]),
        i + digits_run(s, i) < s.len() ==> !scan::is_digit(s[i + digits_run(s, i)]),
    decreases s.len() - i,
{
    if i < s.len() && scan::is_digit(s[i]) {
        lemma_digits_run_bound(s, i + 1);
    }
}

/// A number of the instruction stream: an optional sign, then digits,
/// failing when the value leaves the i32 range.  Returns the value and
/// the position after the digits.
pub open spec fn try_num(s: Seq<u8>, i: int) -> Option<(i32, int)> {
    let signed = 0 <= i < s.len() && (s[i] == 43 || s[i] == 45);
    let neg = 0 <= i < s.len() && s[i] == 45;
    let j0 = if signed {
        i + 1
    } else {
        i
    };
    let k = digits_run(s, j0);
    if k == 0 {
        None
    } else {
        let mag = scan::digits_val(s.subrange(j0, j0 + k));
        let v = if neg {
            -mag
        } else {
            mag
        };
        if i32::MIN <= v <= i32::MAX {
            Some((v as i32, j0 + k))
        } else {
            None
        }
    }
}

/// A whole mul instruction at `i`: the two factors and the position
/// after the closing parenthesis.
pub open spec fn try_mul(s: Seq<u8>, i: int) -> Option<(i32, i32, int)> {
    if !lit_at(s, i, mul_lit()) {
        None
    } else {
        match try_num(s, i + 4) {
            None => None,
            Some((l, p)) => if !(0 <= p < s.len() && s[p] == 44) {
                None
            } else {
                match try_num(s, p + 1) {
                    None => None,
                    Some((r, q)) => if !(0 <= q < s.len() && s[q] == 41) {
                        None
                    } else {
                        Some((l, r, q + 1))
                    },
                }
            },
        }
    }
}

pub proof fn lemma_try_num_bounds(s: Seq<u8>, i: int)
    requires
        0 <= i <= s.len(),
        try_num(s, i) is Some,
    ensures
        i < try_num(s, i)->Some_0.1 <= s.len(),
{
    let signed = 0 <= i < s.len() && (s[i] == 43 || s[i] == 45);
    let j0 = if signed {
        i + 1
    } else {
        i
    };
    lemma_digits_run_bound(s, j0);
}

pub proof fn lemma_try_mul_bounds(s: Seq<u8>, i: int)
    requires
        0 <= i <= s.len(),
        try_mul(s, i) is Some,
    ensures
        i < try_mul(s, i)->Some_0.2 <= s.len(),
{
    lemma_try_num_bounds(s, i + 4);
    let p = try_num(s, i + 4)->Some_0.1;
    lemma_try_num_bounds(s, p + 1);
}

/// The token scan: at every position, first a mul instruction, then a
/// do(), then a don't(), else one garbage byte.
pub open spec fn spec_scan(s: Seq<u8>, i: int) -> Seq<Value>
    decreases s.len() - i,
        via spec_scan_decreases
{
    if i < 0 || i >= s.len() {
        Seq::empty()
    } else {
        match try_mul(s, i) {
            Some((l, r, n)) => seq![Value::Mul(l, r)] + spec_scan(s, n),
            None => if lit_at(s, i, do_lit()) {
                seq![Value::Do] + spec_scan(s, i + 4)
            } else if lit_at(s, i, dont_lit()) {
                seq![Value::DoNot] + spec_scan(s, i + 7)
            } else {
                seq![Value::Garbage] + spec_scan(s, i + 1)
            },
        }
    }
}

#[via_fn]
proof fn spec_scan_decreases(s: Seq<u8>, i: int) {
    if 0 <= i < s.len() && try_mul(s, i) is Some {
        lemma_try_mul_bounds(s, i);
    }
}

fn check_lit(s: &[u8], i: usize, which: u8) -> (r: bool)
    requires
        i <= s@.len(),
        which == 0 || which == 1 || which == 2,
    ensures
        which == 0 ==> r == lit_at(s@, i as int, mul_lit()),
        which == 1 ==> r == lit_at(s@, i as int, do_lit()),
        which == 2 ==> r == lit_at(s@, i as int, dont_lit()),
{
    let n = s.len();
    if which == 0 {
        let r = n - i >= 4 && s[i] == 109 && s[i + 1] == 117 && s[i + 2] == 108 && s[i + 3] == 40;
        proof {
            if i + 4 <= s@.len() {
                assert(r == (s@.subrange(i as int, i + 4) =~= mul_lit())) by {
                    assert(s@.subrange(i as int, i + 4).len() == 4);
                    assert(s@.subrange(i as int, i + 4)[0] == s@[i as int]);
                    assert(s@.subrange(i as int, i + 4)[1] == s@[i + 1]);
                    assert(s@.subrange(i as int, i + 4)[2] == s@[i + 2]);
                    assert(s@.subrange(i as int, i + 4)[3] == s@[i + 3]);
                }
            }
        }
        r
    } else if which == 1 {
        let r = n - i >= 4 && s[i] == 100 && s[i + 1] == 111 && s[i + 2] == 40 && s[i + 3] == 41;
        proof {
            if i + 4 <= s@.len() {
                assert(r == (s@.subrange(i as int, i + 4) =~= do_lit())) by {
                    assert(s@.subrange(i as int, i + 4).len() == 4);
                    assert(s@.subrange(i as int, i + 4)[0] == s@[i as int]);
                    assert(s@.subrange(i as int, i + 4)[1] == s@[i + 1]);
                    assert(s@.subrange(i as int, i + 4)[2] == s@[i + 2]);
                    assert(s@.subrange(i as int, i + 4)[3] == s@[i + 3]);
                }
            }
        }
        r
    } else {
        let r = n - i >= 7 && s[i] == 100 && s[i + 1] == 111 && s[i + 2] == 110 && s[i + 3] == 39
            && s[i + 4] == 116 && s[i + 5] == 40 && s[i + 6] == 41;
        proof {
            if i + 7 <= s@.len() {
                assert(r == (s@.subrange(i as int, i + 7) =~= dont_lit())) by {
                    assert(s@.subrange(i as int, i + 7).len() == 7);
                    assert(s@.subrange(i as int, i + 7)[0] == s@[i as int]);
                    assert(s@.subrange(i as int, i + 7)[1] == s@[i + 1]);
                    assert(s@.subrange(i as int, i + 7)[2] == s@[i + 2]);
                    assert(s@.subrange(i as int, i + 7)[3] == s@[i + 3]);
                    assert(s@.subrange(i as int, i + 7)[4] == s@[i + 4]);
                    assert(s@.subrange(i as int, i + 7)[5] == s@[i + 5]);
                    assert(s@.subrange(i as int, i + 7)[6] == s@[i + 6]);
                }
            }
        }
        r
    }
}

fn try_num_exec(s: &[u8], i: usize) -> (out: Option<(i32, usize)>)
    requires
        i <= s@.len(),
    ensures
        match out {
            Some(p) => try_num(s@, i as int) == Some((p.0, p.1 as int)),
            None => try_num(s@, i as int) is None,
        },
{
    let n = s.len();
    let signed = i < n && (s[i] == 43 || s[i] == 45);
    let neg = i < n && s[i] == 45;
    let j0 = if signed {
        i + 1
    } else {
        i
    };
    let mut j = j0;
    while j < n && 48 <= s[j] && s[j] <= 57
        invariant
            j0 <= j <= n,
            n == s@.len(),
            forall|x: int| j0 <= x < j ==> scan::is_digit(#[trigger] s@[x]),
        decreases n - j,
    {
        j += 1;
    }
    proof {
        lemma_digits_run_bound(s@, j0 as int);
        assert(digits_run(s@, j0 as int) == j - j0) by {
            let k = digits_run(s@, j0 as int);
            if k < j - j0 {
                assert(scan::is_digit(s@[j0 + k]));
            }
            if k > j - j0 {
                assert(scan::is_digit(s@[j as int]));
            }
        }
    }
    if j == j0 {
        return None;
    }
    let ghost digits = s@.subrange(j0 as int, j as int);
    let mut mag: u64 = 0;
    let mut over = false;
    let mut t = j0;
    while t < j
        invariant
            j0 <= t <= j <= n,
            n == s@.len(),
            digits == s@.subrange(j0 as int, j as int),
            forall|x: int| j0 <= x < j ==> scan::is_digit(#[trigger] s@[x]),
            !over ==> mag == scan::digits_val(digits.take(t - j0)) && mag <= 0x8000_0000u64,
            over ==> scan::digits_val(digits.take(t - j0)) > 0x8000_0000,
        decreases j - t,
    {
        proof {
            assert(digits.take(t - j0 + 1).drop_last() =~= digits.take(t - j0));
            assert(digits.take(t - j0 + 1).last() == s@[t as int]);
            assert(scan::all_digits(digits.take(t - j0))) by {
                assert(forall|x: int|
                    0 <= x < t - j0 ==> #[trigger] digits.take(t - j0)[x] == s@[j0 + x]);
            }
            scan::lemma_digits_val_nonneg(digits.take(t - j0));
        }
        if !over {
            let d = (s[t] - 48) as u64;
            let m = mag * 10 + d;
            if m > 0x8000_0000u64 {
                over = true;
                proof {
                    assert(scan::digits_val(digits.take(t - j0 + 1)) == mag * 10 + d);
                }
            } else {
                mag = m;
            }
        } else {
            proof {
                assert(scan::digits_val(digits.take(t - j0 + 1)) >= scan::digits_val(
                    digits.take(t - j0),
                )) by {
                    assert(digits.take(t - j0 + 1).drop_last() =~= digits.take(t - j0));
                }
            }
        }
        t += 1;
    }
    proof {
        assert(digits.take(j - j0) =~= digits);
    }
    if over {
        return None;
    }
    if neg {
        if mag > 0x8000_0000u64 {
            return None;
        }
        if mag == 0x8000_0000u64 {
            return Some((i32::MIN, j));
        }
        Some((-(mag as i32), j))
    } else {
        if mag > 0x7fff_ffffu64 {
            return None;
        }
        Some((mag as i32, j))
    }
}

fn try_mul_exec(s: &[u8], i: usize) -> (out: Option<(i32, i32, usize)>)
    requires
        i <= s@.len(),
    ensures
        match out {
            Some(p) => try_mul(s@, i as int) == Some((p.0, p.1, p.2 as int)) && i < p.2 <= s@.len(),
            None => try_mul(s@, i as int) is None,
        },
{
    let n = s.len();
    if !check_lit(s, i, 0) {
        return None;
    }
    proof {
        assert(mul_lit().len() == 4);
    }
    let (l, p) = match try_num_exec(s, i + 4) {
        Some(v) => v,
        None => {
            return None;
        },
    };
    proof {
        lemma_try_num_bounds(s@, i + 4);
    }
    if !(p < s.len() && s[p] == 44) {
        return None;
    }
    let (r, q) = match try_num_exec(s, p + 1) {
        Some(v) => v,
        None => {
            return None;
        },
    };
    proof {
        lemma_try_num_bounds(s@, p + 1);
    }
    if !(q < s.len() && s[q] == 41) {
        return None;
    }
    Some((l, r, q + 1))
}

/// Scans the whole memory into its tokens.
pub fn parse(s: &[u8]) -> (out: Vec<Value>)
    ensures
        out@ == spec_scan(s@, 0),
{
    let n = s.len();
    let mut out: Vec<Value> = Vec::new();
    let mut i: usize = 0;
    proof {
        assert(out@ + spec_scan(s@, 0) =~= spec_scan(s@, 0));
    }
    while i < n
        invariant
            i <= n,
            n == s@.len(),
            spec_scan(s@, 0) == out@ + spec_scan(s@, i as int),
        decreases n - i,
    {
        let ghost pre = out@;
        let next: usize;
        match try_mul_exec(s, i) {
            Some((l, r, q)) => {
                out.push(Value::Mul(l, r));
                next = q;
                proof {
                    assert(spec_scan(s@, i as int) == seq![Value::Mul(l, r)] + spec_scan(
                        s@,
                        q as int,
                    ));
                }
            },
            None => {
                if check_lit(s, i, 1) {
                    out.push(Value::Do);
                    next = i + 4;
                } else if check_lit(s, i, 2) {
                    out.push(Value::DoNot);
                    next = i + 7;
                } else {
                    out.push(Value::Garbage);
                    next = i + 1;
                }
            },
        }
        proof {
            assert(out@ =~= pre.push(out@.last()));
            assert(pre + (seq![out@.last()] + spec_scan(s@, next as int)) =~= out@ + spec_scan(
                s@,
                next as int,
            ));
        }
        i = next;
    }
    proof {
        assert(spec_scan(s@, n as int) =~= Seq::<Value>::empty());
        assert(out@ + Seq::<Value>::empty() =~= out@);
    }
    out
}

/// The products of the first `k` tokens, every multiplication counted.
pub open spec fn first_sum(ts: Seq<Value>, k: int) -> int
    decreases k,
{
    if k <= 0 {
        0
    } else {
        first_sum(ts, k - 1) + match ts[k - 1] {
            Value::Mul(l, r) => l * r,
            _ => 0,
        }
    }
}

/// Whether multiplications are enabled after the first `k` tokens: the
/// most recent switch decides, and the scan starts enabled.
pub open spec fn enabled_after(ts: Seq<Value>, k: int) -> bool
    decreases k,
{
    if k <= 0 {
        true
    } else {
        match ts[k - 1] {
            Value::Do => true,
            Value::DoNot => false,
            _ => enabled_after(ts, k - 1),
        }
    }
}

/// The products of the first `k` tokens, counting a multiplication only
/// while enabled.
pub open spec fn second_sum(ts: Seq<Value>, k: int) -> int
    decreases k,
{
    if k <= 0 {
        0
    } else {
        second_sum(ts, k - 1) + match ts[k - 1] {
            Value::Mul(l, r) => if enabled_after(ts, k - 1) {
                l * r
            } else {
                0
            },
            _ => 0,
        }
    }
}

/// Both answers for one input: the sum of all multiplications, and the
/// sum of the enabled ones.  None when the input is empty or a sum
/// leaves the i64 range.
pub fn run(input: &[u8]) -> (out: Option<(i64, i64)>)
    ensures
        ({
            let ts = spec_scan(input@, 0);
            match out {
                Some(ans) => {
                    &&& input@.len() >= 1
                    &&& ans.0 == first_sum(ts, ts.len() as int)
                    &&& ans.1 == second_sum(ts, ts.len() as int)
                    &&& forall|k: int|
                        0 <= k <= ts.len() ==> i64::MIN <= #[trigger] first_sum(ts, k) <= i64::MAX
                    &&& forall|k: int|
                        0 <= k <= ts.len() ==> i64::MIN <= #[trigger] second_sum(ts, k)
                            <= i64::MAX
                },
                None => {
                    ||| input@.len() == 0
                    ||| exists|k: int|
                        0 <= k <= ts.len() && !(i64::MIN <= #[trigger] first_sum(ts, k)
                            <= i64::MAX)
                    ||| exists|k: int|
                        0 <= k <= ts.len() && !(i64::MIN <= #[trigger] second_sum(ts, k)
                            <= i64::MAX)
                },
            }
        }),
{
    if input.len() == 0 {
        return None;
    }
    let tokens = parse(input);
    let ghost ts = spec_scan(input@, 0);
    let n = tokens.len();
    let mut a: i64 = 0;
    let mut b: i64 = 0;
    let mut on = true;
    let mut i: usize = 0;
    while i < n
        invariant
            i <= n,
            n == tokens@.len(),
            tokens@ == ts,
            ts == spec_scan(input@, 0),
            a == first_sum(ts, i as int),
            b == second_sum(ts, i as int),
            on == enabled_after(ts, i as int),
            forall|k: int| 0 <= k <= i ==> i64::MIN <= #[trigger] first_sum(ts, k) <= i64::MAX,
            forall|k: int| 0 <= k <= i ==> i64::MIN <= #[trigger] second_sum(ts, k) <= i64::MAX,
        decreases n - i,
    {
        match tokens[i] {
            Value::Mul(l, r) => {
                proof {
                    assert(-0x4000_0000_0000_0000i64 <= (l as i64) * (r as i64)
                        <= 0x4000_0000_0000_0000i64) by (nonlinear_arith)
                        requires
                            -0x8000_0000 <= l <= 0x7fff_ffff,
                            -0x8000_0000 <= r <= 0x7fff_ffff,
                    ;
                }
                let prod: i64 = (l as i64) * (r as i64);
                a = match a.checked_add(prod) {
                    Some(v) => v,
                    None => {
                        proof {
                            assert(first_sum(ts, i + 1) == a + prod);
                        }
                        return None;
                    },
                };
                if on {
                    b = match b.checked_add(prod) {
                        Some(v) => v,
                        None => {
                            proof {
                                assert(second_sum(ts, i + 1) == b + prod);
                            }
                            return None;
                        },
                    };
                }
            },
            Value::Do => {
                on = true;
            },
            Value::DoNot => {
                on = false;
            },
            Value::Garbage => {},
        }
        i += 1;
    }
    Some((a, b))
}

} // verus!
