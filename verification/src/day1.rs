//! Two lists of location numbers, read as left/right pairs: their total
//! distance once both are sorted, and their similarity score.
use crate::scan;
use std::collections::HashMap;
use vstd::prelude::*;
use vstd::relations::sorted_by;
use vstd::seq_lib::group_to_multiset_ensures;

verus! {

/// The usual order on i32, the one both lists are sorted by.
pub open spec fn le32() -> spec_fn(i32, i32) -> bool {
    |a: i32, b: i32| a <= b
}

/// Two sequences sorted by the same total order and equal as multisets
/// are equal: the sorted arrangement of given values is unique.
pub proof fn lemma_sorted_unique(a: Seq<i32>, b: Seq<i32>)
    requires
        sorted_by(a, le32()),
        sorted_by(b, le32()),
        a.to_multiset() == b.to_multiset(),
    ensures
        a == b,
    decreases a.len(),
{
    broadcast use group_to_multiset_ensures;

    if a.len() == 0 {
        assert(a.to_multiset().len() == a.len());
        assert(b.to_multiset().len() == b.len());
        assert(b.len() == 0);
        assert(a =~= b);
    } else {
        assert(a.to_multiset().len() == a.len());
        assert(b.to_multiset().len() == b.len());
        assert(b.len() == a.len());
        assert(b.to_multiset().count(b[0]) > 0);
        assert(a.contains(b[0]));
        assert(a.to_multiset().count(a[0]) > 0);
        assert(b.contains(a[0]));
        let i = choose|i: int| 0 <= i < a.len() && a[i] == b[0];
        let j = choose|j: int| 0 <= j < b.len() && b[j] == a[0];
        assert(a[0] <= b[0]) by {
            if i > 0 {
                assert(le32()(a[0], a[i]));
            }
        }
        assert(b[0] <= a[0]) by {
            if j > 0 {
                assert(le32()(b[0], b[j]));
            }
        }
        let at = a.remove(0);
        let bt = b.remove(0);
        assert(at.to_multiset() =~= a.to_multiset().remove(a[0]));
        assert(bt.to_multiset() =~= b.to_multiset().remove(b[0]));
        assert(sorted_by(at, le32())) by {
            assert forall|p: int, q: int| 0 <= p < q < at.len() implies #[trigger] le32()(
                at[p],
                at[q],
            ) by {
                assert(at[p] == a[p + 1] && at[q] == a[q + 1]);
                assert(le32()(a[p + 1], a[q + 1]));
            }
        }
        assert(sorted_by(bt, le32())) by {
            assert forall|p: int, q: int| 0 <= p < q < bt.len() implies #[trigger] le32()(
                bt[p],
                bt[q],
            ) by {
                assert(bt[p] == b[p + 1] && bt[q] == b[q + 1]);
                assert(le32()(b[p + 1], b[q + 1]));
            }
        }
        lemma_sorted_unique(at, bt);
        assert forall|k: int| 0 <= k < a.len() implies a[k] == b[k] by {
            if k >= 1 {
                assert(at[k - 1] == bt[k - 1]);
                assert(a[k] == at[k - 1]);
                assert(b[k] == bt[k - 1]);
            }
        }
        assert(a =~= b);
    }
}

/// Sorts the list ascending; the result is the canonical sorted
/// arrangement of the input values.
pub fn sort_i32(v: &Vec<i32>) -> (out: Vec<i32>)
    ensures
        out@ == v@.sort_by(le32()),
        sorted_by(out@, le32()),
        out@.to_multiset() == v@.to_multiset(),
        out@.len() == v@.len(),
{
    broadcast use group_to_multiset_ensures;

    let n = v.len();
    let mut out: Vec<i32> = Vec::new();
    let mut i: usize = 0;
    proof {
        assert(v@.take(0) =~= Seq::<i32>::empty());
        assert(out@.to_multiset() =~= v@.take(0).to_multiset());
    }
    while i < n
        invariant
            i <= n,
            n == v@.len(),
            out@.len() == i,
            sorted_by(out@, le32()),
            out@.to_multiset() == v@.take(i as int).to_multiset(),
        decreases n - i,
    {
        let x = v[i];
        let mut idx: usize = 0;
        while idx < out.len() && out[idx] <= x
            invariant
                idx <= out@.len(),
                forall|y: int| 0 <= y < idx ==> #[trigger] out@[y] <= x,
            decreases out@.len() - idx,
        {
            idx += 1;
        }
        let ghost pre = out@;
        out.insert(idx, x);
        proof {
            broadcast use group_to_multiset_ensures;

            assert(out@ =~= pre.take(idx as int) + seq![x] + pre.skip(idx as int));
            assert(sorted_by(out@, le32())) by {
                assert forall|p: int, q: int| 0 <= p < q < out@.len() implies #[trigger] le32()(
                    out@[p],
                    out@[q],
                ) by {
                    if q < idx {
                        assert(le32()(pre[p], pre[q]));
                    } else if p < idx && q == idx {
                        assert(out@[p] == pre[p] && pre[p] <= x);
                    } else if p < idx {
                        assert(out@[q] == pre[q - 1]);
                        assert(le32()(pre[p], pre[q - 1]));
                    } else if p == idx {
                        assert(out@[q] == pre[q - 1]);
                        if idx < pre.len() {
                            assert(!(pre[idx as int] <= x));
                            if q - 1 > idx {
                                assert(le32()(pre[idx as int], pre[q - 1]));
                            }
                        }
                    } else {
                        assert(out@[p] == pre[p - 1] && out@[q] == pre[q - 1]);
                        assert(le32()(pre[p - 1], pre[q - 1]));
                    }
                }
            }
            assert(out@.remove(idx as int) =~= pre);
            assert(out@.remove(idx as int).to_multiset() =~= out@.to_multiset().remove(x));
            assert(out@.contains(x)) by {
                assert(out@[idx as int] == x);
            }
            assert(out@.to_multiset().count(x) > 0);
            assert(out@.to_multiset() =~= pre.to_multiset().insert(x));
            assert(v@.take(i + 1).drop_last() =~= v@.take(i as int));
            assert(v@.take(i + 1) =~= v@.take(i as int).push(v@[i as int]));
        }
        i += 1;
    }
    proof {
        assert(v@.take(n as int) =~= v@);
        v@.lemma_sort_by_ensures(le32());
        lemma_sorted_unique(out@, v@.sort_by(le32()));
    }
    out
}

/// Total distance of the first `k` pairs of the sorted lists: the sum of
/// the absolute differences.
pub open spec fn abs_sum(a: Seq<i32>, b: Seq<i32>, k: int) -> int
    decreases k,
{
    if k <= 0 {
        0
    } else {
        abs_sum(a, b, k - 1) + if a[k - 1] >= b[k - 1] {
            a[k - 1] - b[k - 1]
        } else {
            b[k - 1] - a[k - 1]
        }
    }
}

/// Similarity of the first `k` left values: each weighted by how often it
/// occurs on the right.
pub open spec fn sim_sum(l: Seq<i32>, r: Seq<i32>, k: int) -> int
    decreases k,
{
    if k <= 0 {
        0
    } else {
        sim_sum(l, r, k - 1) + l[k - 1] * count_in(r, l[k - 1])
    }
}

/// How often `x` occurs in `s`.
pub open spec fn count_in(s: Seq<i32>, x: i32) -> int
    decreases s.len(),
{
    if s.len() == 0 {
        0
    } else {
        count_in(s.drop_last(), x) + if s.last() == x {
            1int
        } else {
            0int
        }
    }
}

pub proof fn lemma_count_in_nonneg(s: Seq<i32>, x: i32)
    ensures
        0 <= count_in(s, x) <= s.len(),
    decreases s.len(),
{
    if s.len() > 0 {
        lemma_count_in_nonneg(s.drop_last(), x);
    }
}

/// How often each value occurs: the returned table maps exactly the
/// values of the list, each to its number of occurrences.
pub fn occurrences(numbers: &Vec<i32>) -> (m: HashMap<i32, i32>)
    requires
        numbers@.len() <= i32::MAX,
    ensures
        forall|x: i32| m@.contains_key(x) <==> count_in(numbers@, x) > 0,
        forall|x: i32| #[trigger] m@.contains_key(x) ==> m@[x] == count_in(numbers@, x),
{
    broadcast use vstd::std_specs::hash::group_hash_axioms;

    let mut m: HashMap<i32, i32> = HashMap::new();
    let n = numbers.len();
    let mut i: usize = 0;
    while i < n
        invariant
            i <= n,
            n == numbers@.len(),
            n <= i32::MAX,
            forall|x: i32| m@.contains_key(x) <==> count_in(numbers@.take(i as int), x) > 0,
            forall|x: i32| #[trigger] m@.contains_key(x) ==> m@[x] == count_in(
                numbers@.take(i as int),
                x,
            ),
        decreases n - i,
    {
        broadcast use vstd::std_specs::hash::group_hash_axioms;

        let x = numbers[i];
        let cur: i32 = match m.get(&x) {
            Some(c) => *c,
            None => 0,
        };
        proof {
            lemma_count_in_nonneg(numbers@.take(i as int), x);
        }
        m.insert(x, cur + 1);
        proof {
            assert forall|y: i32| m@.contains_key(y) <==> count_in(
                numbers@.take(i + 1),
                y,
            ) > 0 by {
                assert(numbers@.take(i + 1).drop_last() =~= numbers@.take(i as int));
                lemma_count_in_nonneg(numbers@.take(i as int), y);
            }
            assert forall|y: i32| #[trigger] m@.contains_key(y) implies m@[y] == count_in(
                numbers@.take(i + 1),
                y,
            ) by {
                assert(numbers@.take(i + 1).drop_last() =~= numbers@.take(i as int));
            }
        }
        i += 1;
    }
    proof {
        assert(numbers@.take(n as int) =~= numbers@);
    }
    m
}

/// A pair line: exactly two integer fields, both fitting an i32.
pub open spec fn line_fields(line: Seq<u8>) -> Seq<Seq<u8>> {
    scan::non_empty(scan::split_at(line, 32))
}

pub open spec fn line_ok(line: Seq<u8>) -> bool {
    &&& line_fields(line).len() == 2
    &&& forall|i: int|
        0 <= i < 2 ==> scan::is_int_lit(#[trigger] line_fields(line)[i]) && i32::MIN
            <= scan::int_val(line_fields(line)[i]) <= i32::MAX
}

pub open spec fn input_ok(s: Seq<u8>) -> bool {
    &&& scan::spec_lines(s).len() >= 1
    &&& forall|i: int|
        0 <= i < scan::spec_lines(s).len() ==> line_ok(#[trigger] scan::spec_lines(s)[i])
}

/// The left column of the input.
pub open spec fn left_vals(s: Seq<u8>) -> Seq<i32> {
    Seq::new(scan::spec_lines(s).len(), |i: int|
        scan::int_val(line_fields(scan::spec_lines(s)[i])[0]) as i32)
}

/// The right column of the input.
pub open spec fn right_vals(s: Seq<u8>) -> Seq<i32> {
    Seq::new(scan::spec_lines(s).len(), |i: int|
        scan::int_val(line_fields(scan::spec_lines(s)[i])[1]) as i32)
}

/// Reads the two columns; None when the input does not parse.
pub fn parse(input: &[u8]) -> (out: Option<(Vec<i32>, Vec<i32>)>)
    ensures
        match out {
            Some(p) => input_ok(input@) && p.0@ == left_vals(input@) && p.1@ == right_vals(
                input@,
            ),
            None => !input_ok(input@),
        },
{
    let ls = scan::lines(input);
    if ls.len() == 0 {
        return None;
    }
    let mut left: Vec<i32> = Vec::new();
    let mut right: Vec<i32> = Vec::new();
    let mut i: usize = 0;
    while i < ls.len()
        invariant
            i <= ls@.len(),
            ls@.len() >= 1,
            scan::pieces_view(ls@) == scan::spec_lines(input@),
            left@.len() == i,
            right@.len() == i,
            forall|x: int| 0 <= x < i ==> line_ok(#[trigger] scan::spec_lines(input@)[x]),
            forall|x: int|
                0 <= x < i ==> #[trigger] left@[x] == scan::int_val(
                    line_fields(scan::spec_lines(input@)[x])[0],
                ) as i32,
            forall|x: int|
                0 <= x < i ==> #[trigger] right@[x] == scan::int_val(
                    line_fields(scan::spec_lines(input@)[x])[1],
                ) as i32,
        decreases ls@.len() - i,
    {
        let ghost lv = scan::spec_lines(input@)[i as int];
        proof {
            assert(ls@[i as int]@ == lv);
        }
        let fields = scan::split_fields(&ls[i], 32);
        proof {
            assert(scan::pieces_view(fields@) == line_fields(lv));
        }
        if fields.len() != 2 {
            return None;
        }
        proof {
            assert(fields@[0]@ == line_fields(lv)[0]);
            assert(fields@[1]@ == line_fields(lv)[1]);
        }
        let a = match scan::parse_i64(&fields[0]) {
            Some(v) => v,
            None => {
                return None;
            },
        };
        let b = match scan::parse_i64(&fields[1]) {
            Some(v) => v,
            None => {
                return None;
            },
        };
        if a < -2147483648i64 || a > 2147483647i64 || b < -2147483648i64 || b > 2147483647i64 {
            return None;
        }
        left.push(a as i32);
        right.push(b as i32);
        i += 1;
    }
    proof {
        assert(left@ =~= left_vals(input@));
        assert(right@ =~= right_vals(input@));
    }
    Some((left, right))
}

/// Whether every partial distance sum fits an i64.
pub open spec fn abs_sum_fits(a: Seq<i32>, b: Seq<i32>) -> bool {
    forall|k: int| 0 <= k <= a.len() ==> i64::MIN <= #[trigger] abs_sum(a, b, k) <= i64::MAX
}

/// Whether every similarity term and partial sum fits an i64.
pub open spec fn sim_sum_fits(l: Seq<i32>, r: Seq<i32>) -> bool {
    &&& forall|k: int| 0 <= k <= l.len() ==> i64::MIN <= #[trigger] sim_sum(l, r, k) <= i64::MAX
    &&& forall|k: int|
        0 <= k < l.len() ==> i64::MIN <= #[trigger] (l[k] * count_in(r, l[k])) <= i64::MAX
}

/// Both answers for one input: the total distance of the sorted columns,
/// and the similarity score.  None when the input does not parse or a sum
/// leaves the i64 range.
pub fn run(input: &[u8]) -> (out: Option<(i64, i64)>)
    ensures
        ({
            let l = left_vals(input@);
            let r = right_vals(input@);
            let sl = l.sort_by(le32());
            let sr = r.sort_by(le32());
            match out {
                Some(ans) => {
                    &&& input_ok(input@)
                    &&& abs_sum_fits(sl, sr)
                    &&& sim_sum_fits(l, r)
                    &&& ans.0 == abs_sum(sl, sr, sl.len() as int)
                    &&& ans.1 == sim_sum(l, r, l.len() as int)
                },
                None => !input_ok(input@) || !abs_sum_fits(sl, sr) || !sim_sum_fits(l, r),
            }
        }),
{
    let (left, right) = match parse(input) {
        Some(p) => p,
        None => {
            return None;
        },
    };
    let sl = sort_i32(&left);
    let sr = sort_i32(&right);
    let ghost slv = left_vals(input@).sort_by(le32());
    let ghost srv = right_vals(input@).sort_by(le32());
    let n = sl.len();
    assert(sr.len() == n);
    let mut dist: i64 = 0;
    let mut i: usize = 0;
    while i < n
        invariant
            i <= n,
            n == slv.len(),
            sl@ == slv,
            sr@ == srv,
            srv.len() == n,
            slv == left_vals(input@).sort_by(le32()),
            srv == right_vals(input@).sort_by(le32()),
            dist == abs_sum(slv, srv, i as int),
            forall|k: int| 0 <= k <= i ==> i64::MIN <= #[trigger] abs_sum(slv, srv, k) <= i64::MAX,
        decreases n - i,
    {
        let a = sl[i];
        let b = sr[i];
        let d: i64 = if a >= b {
            a as i64 - b as i64
        } else {
            b as i64 - a as i64
        };
        dist = match dist.checked_add(d) {
            Some(v) => v,
            None => {
                proof {
                    assert(abs_sum(slv, srv, i + 1) == dist + d);
                    assert(!(i64::MIN <= abs_sum(slv, srv, i + 1) <= i64::MAX));
                }
                return None;
            },
        };
        i += 1;
    }
    let ghost lv = left_vals(input@);
    let ghost rv = right_vals(input@);
    let mut sim: i64 = 0;
    let mut i: usize = 0;
    while i < left.len()
        invariant
            i <= left@.len(),
            left@ == lv,
            right@ == rv,
            lv == left_vals(input@),
            rv == right_vals(input@),
            sim == sim_sum(lv, rv, i as int),
            forall|k: int| 0 <= k <= i ==> i64::MIN <= #[trigger] sim_sum(lv, rv, k) <= i64::MAX,
            forall|k: int|
                0 <= k < i ==> i64::MIN <= #[trigger] (lv[k] * count_in(rv, lv[k])) <= i64::MAX,
        decreases left@.len() - i,
    {
        let x = left[i];
        let mut cnt: u64 = 0;
        let mut j: usize = 0;
        while j < right.len()
            invariant
                j <= right@.len(),
                right@ == rv,
                cnt == count_in(rv.take(j as int), x),
                0 <= cnt <= j,
            decreases right@.len() - j,
        {
            proof {
                assert(rv.take(j + 1).drop_last() =~= rv.take(j as int));
            }
            if right[j] == x {
                cnt += 1;
            }
            j += 1;
        }
        proof {
            assert(rv.take(rv.len() as int) =~= rv);
            assert(i128::MIN <= (x as i128) * (cnt as i128) <= i128::MAX) by (nonlinear_arith)
                requires
                    -0x8000_0000 <= x <= 0x7fff_ffff,
                    0 <= cnt <= u64::MAX,
            ;
        }
        let product: i128 = (x as i128) * (cnt as i128);
        if product < i64::MIN as i128 || product > i64::MAX as i128 {
            proof {
                assert(lv[i as int] * count_in(rv, lv[i as int]) == product);
                assert(!(i64::MIN <= lv[i as int] * count_in(rv, lv[i as int]) <= i64::MAX));
            }
            return None;
        }
        let term: i64 = product as i64;
        sim = match sim.checked_add(term) {
            Some(v) => v,
            None => {
                proof {
                    assert(sim_sum(lv, rv, i + 1) == sim + term);
                    assert(!(i64::MIN <= sim_sum(lv, rv, i + 1) <= i64::MAX));
                }
                return None;
            },
        };
        i += 1;
    }
    Some((dist, sim))
}

} // verus!
