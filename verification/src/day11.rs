//! Blinking stones: every blink turns a 0 into a 1, splits a number with
//! evenly many digits into its two halves, and multiplies anything else
//! by 2024; the answer is how many stones there are after a number of
//! blinks.
use crate::day7::dec_len;
use crate::day7::lemma_dec_len_le;
use crate::day7::lemma_pow10_mono;
use crate::day7::pow10;
use crate::scan;
use vstd::prelude::*;

verus! {

/// The written length of a stone's number: its digits, plus one for a
/// minus sign.
pub open spec fn written_len(n: int) -> int {
    if n < 0 {
        1 + dec_len(-n)
    } else {
        dec_len(n)
    }
}

/// Truncating division, as splitting the written digits behaves.
pub open spec fn trunc_div(n: int, p: int) -> int {
    if n >= 0 {
        n / p
    } else {
        -((-n) / p)
    }
}

/// What one blink turns a stone into.
pub open spec fn spec_blink(n: int) -> Seq<int> {
    if n == 0 {
        seq![1int]
    } else if written_len(n) % 2 == 0 {
        let p = pow10((written_len(n) / 2) as nat);
        seq![trunc_div(n, p), (if n >= 0 { n } else { -n }) % p]
    } else {
        seq![n * 2024]
    }
}

/// How many stones a single stone becomes after `k` blinks.
pub open spec fn total_stones(n: int, k: nat) -> int
    decreases k,
{
    if k == 0 {
        1
    } else {
        let bs = spec_blink(n);
        if bs.len() == 1 {
            total_stones(bs[0], (k - 1) as nat)
        } else {
            total_stones(bs[0], (k - 1) as nat) + total_stones(bs[1], (k - 1) as nat)
        }
    }
}

pub proof fn lemma_total_stones_pos(n: int, k: nat)
    ensures
        total_stones(n, k) >= 1,
    decreases k,
{
    if k > 0 {
        let bs = spec_blink(n);
        lemma_total_stones_pos(bs[0], (k - 1) as nat);
        if bs.len() == 2 {
            lemma_total_stones_pos(bs[1], (k - 1) as nat);
        }
    }
}

/// Whether a stone can be blinked `k` times without any value leaving
/// the i64 range.
pub open spec fn blink_safe(n: int, k: nat) -> bool
    decreases k,
{
    if k == 0 {
        true
    } else {
        let bs = spec_blink(n);
        &&& (n != 0 && written_len(n) % 2 != 0 ==> i64::MIN <= n * 2024 <= i64::MAX)
        &&& blink_safe(bs[0], (k - 1) as nat)
        &&& (bs.len() == 2 ==> blink_safe(bs[1], (k - 1) as nat))
    }
}

/// Performs one blink; None exactly when the multiplication leaves i64.
pub fn blink_exec(n: i64) -> (out: Option<(i64, Option<i64>)>)
    ensures
        match out {
            Some(p) => match p.1 {
                None => spec_blink(n as int) =~= seq![p.0 as int],
                Some(b) => spec_blink(n as int) =~= seq![p.0 as int, b as int],
            },
            None => !(i64::MIN <= (n as int) * 2024 <= i64::MAX) && n != 0 && written_len(
                n as int,
            ) % 2 != 0,
        },
{
    if n == 0 {
        proof {
            assert(spec_blink(0) =~= seq![1int]);
        }
        return Some((1, None));
    }
    let m: u128 = if n >= 0 {
        n as u128
    } else {
        (-(n as i128)) as u128
    };
    proof {
        assert(m == if n >= 0 {
            n as int
        } else {
            -(n as int)
        });
    }
    // Count the digits of the magnitude.
    let ghost mi = m as int;
    let mut cur: u128 = m;
    let mut d: u64 = 1;
    proof {
        reveal_with_fuel(pow10, 21);
        assert(pow10(19nat) == 10_000_000_000_000_000_000);
        lemma_dec_len_le(mi, 19);
    }
    while cur > 9
        invariant
            0 <= cur,
            1 <= d,
            dec_len(mi) == d - 1 + dec_len(cur as int),
            dec_len(cur as int) >= 1,
            d - 1 + dec_len(cur as int) <= 19,
        decreases cur,
    {
        proof {
            crate::day7::lemma_dec_len_pos(cur as int / 10);
        }
        cur = cur / 10;
        d += 1;
    }
    let ghost wl = written_len(n as int);
    let signed_len: u64 = if n < 0 {
        d + 1
    } else {
        d
    };
    proof {
        assert(signed_len == wl);
    }
    if signed_len % 2 == 0 {
        let half = (signed_len / 2) as usize;
        proof {
            assert(half <= 10);
            assert(wl % 2 == 0);
            assert(half == wl / 2);
        }
        // p = 10^half, computed within u128.
        let mut p: u128 = 1;
        let mut j: usize = 0;
        proof {
            reveal_with_fuel(pow10, 21);
            assert(pow10(10nat) == 10_000_000_000);
        }
        while j < half
            invariant
                j <= half <= 10,
                p == pow10(j as nat),
                1 <= p,
                p <= pow10(10nat),
                pow10(10nat) == 10_000_000_000,
            decreases half - j,
        {
            proof {
                lemma_pow10_mono(j as nat + 1, 10nat);
            }
            p = p * 10;
            j += 1;
        }
        let right_mag: u128 = m % p;
        let left_mag: u128 = m / p;
        proof {
            assert(p >= 10);
            assert(left_mag <= m / 10) by (nonlinear_arith)
                requires
                    p >= 10,
                    left_mag == m as int / p as int,
                    m >= 0,
            ;
            assert(right_mag < p);
        }
        let right: i64 = right_mag as i64;
        let left: i64 = if n >= 0 {
            left_mag as i64
        } else {
            -(left_mag as i64)
        };
        proof {
            assert(left == trunc_div(n as int, p as int));
            assert(right == (if n >= 0 {
                n as int
            } else {
                -(n as int)
            }) % (p as int));
            assert(spec_blink(n as int) =~= seq![left as int, right as int]);
        }
        Some((left, Some(right)))
    } else {
        match n.checked_mul(2024) {
            Some(v) => {
                proof {
                    assert(spec_blink(n as int) =~= seq![v as int]);
                }
                Some((v, None))
            },
            None => None,
        }
    }
}

/// The stones a counted table stands for, counted after `j` more blinks:
/// each entry's count times what its number becomes.
pub open spec fn pair_total(st: Seq<(i64, u64)>, j: nat) -> int
    decreases st.len(),
{
    if st.len() == 0 {
        0
    } else {
        pair_total(st.drop_last(), j) + (st.last().1 as int) * total_stones(st.last().0 as int, j)
    }
}

/// Whether the table holds the key.
pub open spec fn key_in(st: Seq<(i64, u64)>, y: i64) -> bool {
    exists|i: int| 0 <= i < st.len() && #[trigger] st[i].0 == y
}

proof fn lemma_pair_total_nonneg(st: Seq<(i64, u64)>, j: nat)
    ensures
        pair_total(st, j) >= 0,
    decreases st.len(),
{
    if st.len() > 0 {
        lemma_pair_total_nonneg(st.drop_last(), j);
        lemma_total_stones_pos(st.last().0 as int, j);
        assert((st.last().1 as int) * total_stones(st.last().0 as int, j) >= 0)
            by (nonlinear_arith)
            requires
                st.last().1 >= 0,
                total_stones(st.last().0 as int, j) >= 1,
        ;
    }
}

/// One entry's contribution never exceeds the whole total.
proof fn lemma_pair_total_term(st: Seq<(i64, u64)>, j: nat, idx: int)
    requires
        0 <= idx < st.len(),
    ensures
        pair_total(st, j) >= (st[idx].1 as int) * total_stones(st[idx].0 as int, j),
    decreases st.len(),
{
    lemma_total_stones_pos(st.last().0 as int, j);
    assert((st.last().1 as int) * total_stones(st.last().0 as int, j) >= 0) by (nonlinear_arith)
        requires
            st.last().1 >= 0,
            total_stones(st.last().0 as int, j) >= 1,
    ;
    if idx == st.len() - 1 {
        lemma_pair_total_nonneg(st.drop_last(), j);
    } else {
        lemma_pair_total_term(st.drop_last(), j, idx);
    }
}

/// Raising one entry's count raises the total by the difference times
/// that entry's stones.
proof fn lemma_pair_total_update(st: Seq<(i64, u64)>, j: nat, idx: int, c: u64)
    requires
        0 <= idx < st.len(),
        st[idx].1 + c <= u64::MAX,
    ensures
        pair_total(st.update(idx, (st[idx].0, (st[idx].1 + c) as u64)), j) == pair_total(st, j)
            + (c as int) * total_stones(st[idx].0 as int, j),
    decreases st.len(),
{
    let st2 = st.update(idx, (st[idx].0, (st[idx].1 + c) as u64));
    if idx == st.len() - 1 {
        assert(st2.drop_last() =~= st.drop_last());
        assert(st2.last() == (st[idx].0, (st[idx].1 + c) as u64));
        assert(((st[idx].1 + c) as int) * total_stones(st[idx].0 as int, j) == (st[idx].1 as int)
            * total_stones(st[idx].0 as int, j) + (c as int) * total_stones(st[idx].0 as int, j))
            by (nonlinear_arith);
    } else {
        assert(st2.drop_last() =~= st.drop_last().update(idx, (st[idx].0, (st[idx].1 + c) as u64)));
        assert(st2.last() == st.last());
        lemma_pair_total_update(st.drop_last(), j, idx, c);
    }
}

/// Adds `c` stones with number `x` to the table; false when the count
/// would leave u64, which shows the grand total does.
fn bump(st: &mut Vec<(i64, u64)>, x: i64, c: u64, Ghost(j): Ghost<nat>) -> (ok: bool)
    ensures
        ok ==> pair_total(final(st)@, j) == pair_total(old(st)@, j) + (c as int) * total_stones(
            x as int,
            j,
        ),
        ok ==> forall|y: i64| key_in(final(st)@, y) ==> key_in(old(st)@, y) || y == x,
        !ok ==> pair_total(old(st)@, j) + (c as int) * total_stones(x as int, j) > u64::MAX
            && final(st)@ == old(st)@,
{
    let n = st.len();
    let mut i: usize = 0;
    while i < n
        invariant
            i <= n,
            n == st@.len(),
            st@ == old(st)@,
            forall|y: int| 0 <= y < i ==> st@[y].0 != x,
        decreases n - i,
    {
        if st[i].0 == x {
            let cnt = st[i].1;
            match cnt.checked_add(c) {
                Some(m) => {
                    let ghost pre = st@;
                    st[i].1 = m;
                    proof {
                        assert(st@ =~= pre.update(i as int, (pre[i as int].0, m)));
                        lemma_pair_total_update(pre, j, i as int, c);
                        assert forall|y: i64| key_in(st@, y) implies key_in(pre, y) || y == x by {
                            let ix = choose|ix: int| 0 <= ix < st@.len() && st@[ix].0 == y;
                            if ix != i {
                                assert(pre[ix].0 == y);
                            }
                        }
                    }
                    return true;
                },
                None => {
                    proof {
                        lemma_pair_total_term(st@, j, i as int);
                        lemma_total_stones_pos(x as int, j);
                        assert((st@[i as int].1 as int) * total_stones(x as int, j)
                            >= st@[i as int].1 as int) by (nonlinear_arith)
                            requires
                                st@[i as int].1 >= 0,
                                total_stones(x as int, j) >= 1,
                        ;
                        assert((c as int) * total_stones(x as int, j) >= c as int)
                            by (nonlinear_arith)
                            requires
                                c >= 0,
                                total_stones(x as int, j) >= 1,
                        ;
                        lemma_pair_total_nonneg(st@, j);
                    }
                    return false;
                },
            }
        }
        i += 1;
    }
    let ghost pre = st@;
    st.push((x, c));
    proof {
        assert(st@.drop_last() =~= pre);
        assert forall|y: i64| key_in(st@, y) implies key_in(pre, y) || y == x by {
            let ix = choose|ix: int| 0 <= ix < st@.len() && st@[ix].0 == y;
            if ix < pre.len() {
                assert(pre[ix].0 == y);
            }
        }
    }
    true
}

/// The stones of the first `i` starting numbers, counted after `k`
/// blinks.
pub open spec fn total_all(ns: Seq<i64>, i: int, k: nat) -> int
    decreases i,
{
    if i <= 0 {
        0
    } else {
        total_all(ns, i - 1, k) + total_stones(ns[i - 1] as int, k)
    }
}

/// Whether every starting number survives `k` blinks within i64.
pub open spec fn all_safe(ns: Seq<i64>, k: nat) -> bool {
    forall|i: int| 0 <= i < ns.len() ==> #[trigger] blink_safe(ns[i] as int, k)
}

/// The number of stones after blinking the starting numbers `k` times.
/// None when a number leaves i64 under the blinks or a stone count
/// leaves u64.
pub fn solve(numbers: &Vec<i64>, k: usize) -> (out: Option<u64>)
    ensures
        match out {
            Some(v) => v == total_all(numbers@, numbers@.len() as int, k as nat),
            None => !all_safe(numbers@, k as nat) || total_all(
                numbers@,
                numbers@.len() as int,
                k as nat,
            ) > u64::MAX,
        },
{
    let ghost ns = numbers@;
    let ghost kk = k as nat;
    let ghost grand = total_all(ns, ns.len() as int, kk);
    let mut st: Vec<(i64, u64)> = Vec::new();
    let mut i: usize = 0;
    while i < numbers.len()
        invariant
            i <= numbers@.len(),
            ns == numbers@,
            kk == k as nat,
            grand == total_all(ns, ns.len() as int, kk),
            pair_total(st@, kk) == total_all(ns, i as int, kk),
            forall|y: i64| key_in(st@, y) ==> exists|x: int|
                0 <= x < i && #[trigger] ns[x] == y,
        decreases numbers@.len() - i,
    {
        let ok = bump(&mut st, numbers[i], 1, Ghost(kk));
        if !ok {
            proof {
                assert(total_all(ns, i + 1, kk) > u64::MAX);
                lemma_total_suffix(ns, i as int + 1, ns.len() as int, kk);
            }
            return None;
        }
        i += 1;
    }
    proof {
        if all_safe(ns, kk) {
            assert forall|y: i64| #[trigger] key_in(st@, y) implies blink_safe(y as int, kk) by {
                let x = choose|x: int| 0 <= x < numbers@.len() && ns[x] == y;
                assert(blink_safe(ns[x] as int, kk));
            }
        }
    }
    let mut rem: usize = k;
    while rem > 0
        invariant
            rem <= k,
            ns == numbers@,
            kk == k as nat,
            grand == total_all(ns, ns.len() as int, kk),
            pair_total(st@, rem as nat) == grand,
            all_safe(ns, kk) ==> forall|y: i64| #[trigger] key_in(st@, y) ==> blink_safe(y as int, rem as nat),
        decreases rem,
    {
        let ghost jr = rem as nat;
        let mut new_st: Vec<(i64, u64)> = Vec::new();
        let m = st.len();
        let mut e: usize = 0;
        proof {
            assert(st@.take(0) =~= Seq::<(i64, u64)>::empty());
            assert(pair_total(st@.take(0), jr) == 0);
            assert(pair_total(new_st@, (jr - 1) as nat) == 0);
            lemma_pair_total_nonneg(st@, jr);
        }
        while e < m
            invariant
                e <= m,
                m == st@.len(),
                ns == numbers@,
                kk == k as nat,
                jr == rem as nat,
                1 <= rem <= k,
                grand == total_all(ns, ns.len() as int, kk),
                pair_total(st@, jr) == grand,
                all_safe(ns, kk) ==> forall|y: i64| #[trigger] key_in(st@, y) ==> blink_safe(y as int, jr),
                pair_total(new_st@, (jr - 1) as nat) + pair_total(st@, jr) - pair_total(
                    st@.take(e as int),
                    jr,
                ) == grand,
                pair_total(st@.take(e as int), jr) <= pair_total(st@, jr),
                all_safe(ns, kk) ==> forall|y: i64| #[trigger] key_in(new_st@, y) ==> blink_safe(y as int, (jr - 1) as nat),
            decreases m - e,
        {
            let (num, cnt) = st[e];
            proof {
                assert(key_in(st@, num)) by {
                    assert(st@[e as int].0 == num);
                }
            }
            let children = match blink_exec(num) {
                Some(p) => p,
                None => {
                    proof {
                        if all_safe(ns, kk) {
                            assert(blink_safe(num as int, jr));
                            assert(false);
                        }
                    }
                    return None;
                },
            };
            let ghost bs = spec_blink(num as int);
            let ghost pre_new = new_st@;
            let (a, b_opt) = children;
            let ok_a = bump(&mut new_st, a, cnt, Ghost((jr - 1) as nat));
            if !ok_a {
                proof {
                    overflow_means_grand(ns, st@, new_st@, pre_new, e as int, jr, grand, kk, num
                        as int, cnt, a as int, 0);
                }
                return None;
            }
            match b_opt {
                Some(b) => {
                    let ghost mid_new = new_st@;
                    let ok_b = bump(&mut new_st, b, cnt, Ghost((jr - 1) as nat));
                    if !ok_b {
                        proof {
                            overflow_means_grand(ns, st@, new_st@, pre_new, e as int, jr, grand,
                                kk, num as int, cnt, b as int, 1);
                        }
                        return None;
                    }
                    proof {
                        assert(total_stones(num as int, jr) == total_stones(bs[0], (jr - 1) as nat)
                            + total_stones(bs[1], (jr - 1) as nat));
                        assert((cnt as int) * total_stones(num as int, jr) == (cnt as int)
                            * total_stones(bs[0], (jr - 1) as nat) + (cnt as int) * total_stones(
                            bs[1],
                            (jr - 1) as nat,
                        )) by (nonlinear_arith)
                            requires
                                total_stones(num as int, jr) == total_stones(
                                    bs[0],
                                    (jr - 1) as nat,
                                ) + total_stones(bs[1], (jr - 1) as nat),
                        ;
                    }
                },
                None => {
                    proof {
                        assert(total_stones(num as int, jr) == total_stones(
                            bs[0],
                            (jr - 1) as nat,
                        ));
                    }
                },
            }
            proof {
                assert(st@.take(e + 1).drop_last() =~= st@.take(e as int));
                assert(st@.take(e + 1).last() == st@[e as int]);
                lemma_pair_total_term_prefix(st@, jr, e as int);
            }
            e += 1;
        }
        proof {
            assert(st@.take(m as int) =~= st@);
        }
        st = new_st;
        rem -= 1;
    }
    // No blinks left: each entry counts its stones directly.
    let mut acc: u64 = 0;
    let mut e: usize = 0;
    proof {
        lemma_pair_total_nonneg(st@, 0);
    }
    while e < st.len()
        invariant
            e <= st@.len(),
            ns == numbers@,
            kk == k as nat,
            pair_total(st@, 0nat) == grand,
            grand == total_all(ns, ns.len() as int, kk),
            acc == pair_total(st@.take(e as int), 0nat),
            0 <= acc,
        decreases st@.len() - e,
    {
        let (_, cnt) = st[e];
        proof {
            assert(st@.take(e + 1).drop_last() =~= st@.take(e as int));
            assert(st@.take(e + 1).last() == st@[e as int]);
            assert(total_stones(st@[e as int].0 as int, 0nat) == 1);
            lemma_pair_total_term_prefix(st@, 0nat, e as int);
            lemma_pair_total_nonneg(st@.take(e + 1), 0nat);
        }
        acc = match acc.checked_add(cnt) {
            Some(v) => v,
            None => {
                proof {
                    assert(pair_total(st@.take(e + 1), 0nat) == acc + cnt);
                }
                return None;
            },
        };
        e += 1;
    }
    proof {
        assert(st@.take(st@.len() as int) =~= st@);
    }
    Some(acc)
}

/// A prefix of the table never counts more than the whole.
proof fn lemma_pair_total_term_prefix(st: Seq<(i64, u64)>, j: nat, e: int)
    requires
        0 <= e < st.len(),
    ensures
        pair_total(st.take(e + 1), j) == pair_total(st.take(e), j) + (st[e].1 as int)
            * total_stones(st[e].0 as int, j),
        pair_total(st.take(e + 1), j) <= pair_total(st, j),
    decreases st.len(),
{
    assert(st.take(e + 1).drop_last() =~= st.take(e));
    assert(st.take(e + 1).last() == st[e]);
    lemma_pair_total_prefix_le(st, j, e + 1);
}

/// Totals of prefixes grow with the prefix.
proof fn lemma_pair_total_prefix_le(st: Seq<(i64, u64)>, j: nat, e: int)
    requires
        0 <= e <= st.len(),
    ensures
        pair_total(st.take(e), j) <= pair_total(st, j),
    decreases st.len() - e,
{
    if e < st.len() {
        assert(st.take(e + 1).drop_last() =~= st.take(e));
        assert(st.take(e + 1).last() == st[e]);
        lemma_total_stones_pos(st[e].0 as int, j);
        assert((st[e].1 as int) * total_stones(st[e].0 as int, j) >= 0) by (nonlinear_arith)
            requires
                st[e].1 >= 0,
                total_stones(st[e].0 as int, j) >= 1,
        ;
        lemma_pair_total_prefix_le(st, j, e + 1);
    } else {
        assert(st.take(e) =~= st);
    }
}

/// The suffix of starting numbers counts at least nothing, so a prefix
/// total never exceeds the grand total.
proof fn lemma_total_suffix(ns: Seq<i64>, i: int, n: int, k: nat)
    requires
        0 <= i <= n <= ns.len(),
    ensures
        total_all(ns, i, k) <= total_all(ns, n, k),
    decreases n - i,
{
    if i < n {
        lemma_total_stones_pos(ns[n - 1] as int, k);
        lemma_total_suffix(ns, i, n - 1, k);
    }
}

/// A failed count bump while distributing an entry's children shows the
/// grand total itself leaves u64.
proof fn overflow_means_grand(
    ns: Seq<i64>,
    st: Seq<(i64, u64)>,
    new_st: Seq<(i64, u64)>,
    pre_new: Seq<(i64, u64)>,
    e: int,
    jr: nat,
    grand: int,
    kk: nat,
    num: int,
    cnt: u64,
    child: int,
    which: int,
)
    requires
        jr >= 1,
        0 <= e < st.len(),
        st[e].0 == num,
        st[e].1 == cnt,
        pair_total(pre_new, (jr - 1) as nat) + pair_total(st, jr) - pair_total(st.take(e), jr)
            == grand,
        pair_total(st.take(e), jr) <= pair_total(st, jr),
        which == 0 || which == 1,
        which == 0 ==> pre_new == new_st && pair_total(pre_new, (jr - 1) as nat) + (cnt as int)
            * total_stones(child, (jr - 1) as nat) > u64::MAX && spec_blink(num)[0] == child,
        which == 1 ==> spec_blink(num).len() == 2 && spec_blink(num)[1] == child && pair_total(
            new_st,
            (jr - 1) as nat,
        ) > u64::MAX - (cnt as int) * total_stones(child, (jr - 1) as nat) && pair_total(
            new_st,
            (jr - 1) as nat,
        ) == pair_total(pre_new, (jr - 1) as nat) + (cnt as int) * total_stones(
            spec_blink(num)[0],
            (jr - 1) as nat,
        ),
    ensures
        grand > u64::MAX,
{
    let bs = spec_blink(num);
    lemma_pair_total_term_prefix(st, jr, e);
    lemma_pair_total_prefix_le(st, jr, e + 1);
    lemma_total_stones_pos(bs[0], (jr - 1) as nat);
    if bs.len() == 2 {
        lemma_total_stones_pos(bs[1], (jr - 1) as nat);
    }
    assert(bs.len() == 1 || bs.len() == 2);
    // The entry's whole contribution covers the child's share.
    if bs.len() == 1 {
        assert(total_stones(num, jr) == total_stones(bs[0], (jr - 1) as nat));
    } else {
        assert(total_stones(num, jr) == total_stones(bs[0], (jr - 1) as nat) + total_stones(
            bs[1],
            (jr - 1) as nat,
        ));
        assert((cnt as int) * total_stones(num, jr) == (cnt as int) * total_stones(
            bs[0],
            (jr - 1) as nat,
        ) + (cnt as int) * total_stones(bs[1], (jr - 1) as nat)) by (nonlinear_arith)
            requires
                total_stones(num, jr) == total_stones(bs[0], (jr - 1) as nat) + total_stones(
                    bs[1],
                    (jr - 1) as nat,
                ),
        ;
        assert((cnt as int) * total_stones(bs[0], (jr - 1) as nat) >= 0 && (cnt as int)
            * total_stones(bs[1], (jr - 1) as nat) >= 0) by (nonlinear_arith)
            requires
                cnt >= 0,
                total_stones(bs[0], (jr - 1) as nat) >= 1,
                total_stones(bs[1], (jr - 1) as nat) >= 1,
        ;
    }
        assert(grand >= pair_total(pre_new, (jr - 1) as nat) + (cnt as int) * total_stones(num, jr));
}

/// The single input line: space-separated stone numbers.
pub open spec fn line_fields(line: Seq<u8>) -> Seq<Seq<u8>> {
    scan::non_empty(scan::split_at(line, 32))
}

pub open spec fn input_ok(s: Seq<u8>) -> bool {
    &&& scan::spec_lines(s).len() == 1
    &&& line_fields(scan::spec_lines(s)[0]).len() >= 1
    &&& forall|i: int|
        0 <= i < line_fields(scan::spec_lines(s)[0]).len() ==> scan::is_int_lit(
            #[trigger] line_fields(scan::spec_lines(s)[0])[i],
        ) && i64::MIN <= scan::int_val(line_fields(scan::spec_lines(s)[0])[i]) <= i64::MAX
}

pub open spec fn spec_stones(s: Seq<u8>) -> Seq<i64> {
    Seq::new(
        line_fields(scan::spec_lines(s)[0]).len(),
        |i: int| scan::int_val(line_fields(scan::spec_lines(s)[0])[i]) as i64,
    )
}

/// Reads the stones; None when the input does not parse.
pub fn parse(input: &[u8]) -> (out: Option<Vec<i64>>)
    ensures
        match out {
            Some(ns) => input_ok(input@) && ns@ == spec_stones(input@),
            None => !input_ok(input@),
        },
{
    let ls = scan::lines(input);
    if ls.len() != 1 {
        return None;
    }
    let ghost lv = scan::spec_lines(input@)[0];
    proof {
        assert(ls@[0]@ == lv);
    }
    let fields = scan::split_fields(&ls[0], 32);
    proof {
        assert(scan::pieces_view(fields@) == line_fields(lv));
    }
    if fields.len() == 0 {
        return None;
    }
    let mut ns: Vec<i64> = Vec::new();
    let mut j: usize = 0;
    while j < fields.len()
        invariant
            j <= fields@.len(),
            scan::spec_lines(input@).len() == 1,
            lv == scan::spec_lines(input@)[0],
            scan::pieces_view(fields@) == line_fields(lv),
            fields@.len() >= 1,
            ns@.len() == j,
            forall|x: int|
                0 <= x < j ==> scan::is_int_lit(#[trigger] line_fields(lv)[x]) && i64::MIN
                    <= scan::int_val(line_fields(lv)[x]) <= i64::MAX,
            forall|x: int|
                0 <= x < j ==> #[trigger] ns@[x] == scan::int_val(line_fields(lv)[x]) as i64,
        decreases fields@.len() - j,
    {
        proof {
            assert(fields@[j as int]@ == line_fields(lv)[j as int]);
        }
        let v = match scan::parse_i64(&fields[j]) {
            Some(v) => v,
            None => {
                return None;
            },
        };
        ns.push(v);
        j += 1;
    }
    proof {
        assert(ns@ =~= spec_stones(input@));
    }
    Some(ns)
}

/// Both answers for one input: the number of stones after 25 blinks and
/// after 75.  None when the input does not parse, a stone leaves i64, or
/// a count leaves u64.
pub fn run(input: &[u8]) -> (out: Option<(u64, u64)>)
    ensures
        ({
            let ns = spec_stones(input@);
            match out {
                Some(ans) => {
                    &&& input_ok(input@)
                    &&& ans.0 == total_all(ns, ns.len() as int, 25nat)
                    &&& ans.1 == total_all(ns, ns.len() as int, 75nat)
                },
                None => {
                    ||| !input_ok(input@)
                    ||| !all_safe(ns, 25nat) || total_all(ns, ns.len() as int, 25nat) > u64::MAX
                    ||| !all_safe(ns, 75nat) || total_all(ns, ns.len() as int, 75nat) > u64::MAX
                },
            }
        }),
{
    let ns = match parse(input) {
        Some(ns) => ns,
        None => {
            return None;
        },
    };
    let a = match solve(&ns, 25) {
        Some(v) => v,
        None => {
            return None;
        },
    };
    let b = match solve(&ns, 75) {
        Some(v) => v,
        None => {
            return None;
        },
    };
    Some((a, b))
}

} // verus!
