//! Print queue ordering: page-ordering rules partition the updates into
//! safe and unsafe ones; the unsafe ones are reordered by the rules, and
//! each part answers with the sum of the middle pages.
use crate::scan;
use vstd::prelude::*;

verus! {

/// Whether a rule orders `a` before `b`.
pub open spec fn rule_exists(rules: Seq<(i32, i32)>, a: i32, b: i32) -> bool {
    exists|i: int| 0 <= i < rules.len() && rules[i] == (a, b)
}

/// An update respects the rules when no page is ordered after a page that
/// a rule puts before it.
pub open spec fn safe_update(rules: Seq<(i32, i32)>, u: Seq<i32>) -> bool {
    forall|i: int, j: int| 0 <= i < j < u.len() ==> !rule_exists(rules, u[j], u[i])
}

/// The comparison the reordering uses: negative when a rule puts `a`
/// before `b`, positive when one puts `b` before `a`, zero otherwise.
pub open spec fn spec_cmp(rules: Seq<(i32, i32)>, a: i32, b: i32) -> int {
    if rule_exists(rules, b, a) {
        1
    } else if rule_exists(rules, a, b) {
        -1
    } else {
        0
    }
}

/// Stable insertion of `x` into `s`: before the first element that a rule
/// puts after `x`, behind every earlier one.
pub open spec fn insert_by(rules: Seq<(i32, i32)>, s: Seq<i32>, x: i32) -> Seq<i32>
    decreases s.len(),
{
    if s.len() == 0 {
        seq![x]
    } else if spec_cmp(rules, x, s[0]) == -1 {
        seq![x] + s
    } else {
        seq![s[0]] + insert_by(rules, s.skip(1), x)
    }
}

/// The reordering of an update: stable insertion sort by the rules.
pub open spec fn sort_by_rules(rules: Seq<(i32, i32)>, u: Seq<i32>, k: int) -> Seq<i32>
    decreases k,
{
    if k <= 0 {
        Seq::empty()
    } else {
        insert_by(rules, sort_by_rules(rules, u, k - 1), u[k - 1])
    }
}

fn has_rule(rules: &Vec<(i32, i32)>, a: i32, b: i32) -> (r: bool)
    ensures
        r == rule_exists(rules@, a, b),
{
    let n = rules.len();
    let mut i: usize = 0;
    while i < n
        invariant
            i <= n,
            n == rules@.len(),
            forall|x: int| 0 <= x < i ==> rules@[x] != (a, b),
        decreases n - i,
    {
        let (l, r) = rules[i];
        if l == a && r == b {
            assert(rules@[i as int] == (a, b));
            return true;
        }
        i += 1;
    }
    false
}

fn cmp_pages(rules: &Vec<(i32, i32)>, a: i32, b: i32) -> (r: i32)
    ensures
        r == spec_cmp(rules@, a, b),
{
    if has_rule(rules, b, a) {
        1
    } else if has_rule(rules, a, b) {
        -1
    } else {
        0
    }
}

/// Whether one update respects the rules.
pub fn is_safe_update(rules: &Vec<(i32, i32)>, update: &Vec<i32>) -> (r: bool)
    ensures
        r == safe_update(rules@, update@),
{
    let n = update.len();
    let mut j: usize = 0;
    while j < n
        invariant
            j <= n,
            n == update@.len(),
            forall|p: int, q: int| 0 <= p < q < j ==> !rule_exists(rules@, update@[q], update@[p]),
        decreases n - j,
    {
        let mut i: usize = 0;
        while i < j
            invariant
                i <= j < n,
                n == update@.len(),
                forall|p: int| 0 <= p < i ==> !rule_exists(rules@, update@[j as int], update@[p]),
            decreases j - i,
        {
            if has_rule(rules, update[j], update[i]) {
                return false;
            }
            i += 1;
        }
        j += 1;
    }
    true
}

/// Reorders an update by the rules.
pub fn sort_update(rules: &Vec<(i32, i32)>, update: &Vec<i32>) -> (out: Vec<i32>)
    ensures
        out@ == sort_by_rules(rules@, update@, update@.len() as int),
{
    let n = update.len();
    let mut out: Vec<i32> = Vec::new();
    let mut k: usize = 0;
    proof {
        assert(out@ =~= sort_by_rules(rules@, update@, 0));
    }
    while k < n
        invariant
            k <= n,
            n == update@.len(),
            out@ == sort_by_rules(rules@, update@, k as int),
            out@.len() == k,
        decreases n - k,
    {
        let x = update[k];
        let ghost pre = out@;
        let mut p: usize = 0;
        while p < out.len() && cmp_pages(rules, x, out[p]) != -1
            invariant
                p <= out@.len(),
                out@ == pre,
                forall|y: int| 0 <= y < p ==> spec_cmp(rules@, x, #[trigger] pre[y]) != -1,
            decreases out@.len() - p,
        {
            p += 1;
        }
        out.insert(p, x);
        proof {
            lemma_insert_at(rules@, pre, x, p as int);
            assert(out@ =~= pre.take(p as int) + seq![x] + pre.skip(p as int));
        }
        k += 1;
    }
    out
}

/// Inserting before the first position whose element compares greater is
/// what the specification's stable insertion does.
proof fn lemma_insert_at(rules: Seq<(i32, i32)>, s: Seq<i32>, x: i32, p: int)
    requires
        0 <= p <= s.len(),
        forall|y: int| 0 <= y < p ==> spec_cmp(rules, x, #[trigger] s[y]) != -1,
        p < s.len() ==> spec_cmp(rules, x, s[p]) == -1,
    ensures
        insert_by(rules, s, x) == s.take(p) + seq![x] + s.skip(p),
    decreases p,
{
    if s.len() == 0 {
        assert(insert_by(rules, s, x) =~= s.take(p) + seq![x] + s.skip(p));
    } else if p == 0 {
        if spec_cmp(rules, x, s[0]) == -1 {
            assert(insert_by(rules, s, x) =~= s.take(0) + seq![x] + s.skip(0));
        } else {
            assert(p < s.len() && spec_cmp(rules, x, s[p]) != -1);
        }
    } else {
        assert(spec_cmp(rules, x, s[0]) != -1);
        lemma_insert_at(rules, s.skip(1), x, p - 1);
        assert(insert_by(rules, s, x) == seq![s[0]] + insert_by(rules, s.skip(1), x));
        assert(s.skip(1).take(p - 1) =~= s.take(p).skip(1));
        assert(seq![s[0]] + (s.skip(1).take(p - 1) + seq![x] + s.skip(1).skip(p - 1)) =~= s.take(
            p,
        ) + seq![x] + s.skip(p));
    }
}

/// The middle page of each of the first `k` updates, summed.
pub open spec fn middle_sum(us: Seq<Seq<i32>>, k: int) -> int
    decreases k,
{
    if k <= 0 {
        0
    } else {
        middle_sum(us, k - 1) + us[k - 1][us[k - 1].len() as int / 2]
    }
}

/// Sum of the middle pages, accumulated in i32.
pub fn sum_middle_value(updates: &Vec<Vec<i32>>) -> (r: i32)
    requires
        forall|i: int| 0 <= i < updates@.len() ==> (#[trigger] updates@[i])@.len() >= 1,
        forall|k: int|
            0 <= k <= updates@.len() ==> i32::MIN <= #[trigger] middle_sum(
                views_of(updates@),
                k,
            ) <= i32::MAX,
    ensures
        r == middle_sum(views_of(updates@), updates@.len() as int),
{
    let n = updates.len();
    let mut acc: i32 = 0;
    let mut i: usize = 0;
    while i < n
        invariant
            i <= n,
            n == updates@.len(),
            forall|x: int| 0 <= x < n ==> (#[trigger] updates@[x])@.len() >= 1,
            forall|k: int|
                0 <= k <= n ==> i32::MIN <= #[trigger] middle_sum(views_of(updates@), k)
                    <= i32::MAX,
            acc == middle_sum(views_of(updates@), i as int),
        decreases n - i,
    {
        let u = &updates[i];
        proof {
            assert(views_of(updates@)[i as int] == u@);
        }
        let m = u[u.len() / 2];
        let next: i64 = acc as i64 + m as i64;
        acc = next as i32;
        i += 1;
    }
    acc
}

/// The views of a list of updates.
pub open spec fn views_of(us: Seq<Vec<i32>>) -> Seq<Seq<i32>> {
    Seq::new(us.len(), |i: int| us[i]@)
}

/// A rule line: two page numbers joined by '|'.
pub open spec fn rule_line_ok(line: Seq<u8>) -> bool {
    let ps = scan::split_at(line, 124);
    &&& ps.len() == 2
    &&& scan::is_int_lit(ps[0])
    &&& scan::is_int_lit(ps[1])
    &&& i32::MIN <= scan::int_val(ps[0]) <= i32::MAX
    &&& i32::MIN <= scan::int_val(ps[1]) <= i32::MAX
}

pub open spec fn rule_of_line(line: Seq<u8>) -> (i32, i32) {
    let ps = scan::split_at(line, 124);
    (scan::int_val(ps[0]) as i32, scan::int_val(ps[1]) as i32)
}

/// An update line: comma-separated page numbers, at least one.
pub open spec fn update_line_ok(line: Seq<u8>) -> bool {
    let ps = scan::split_at(line, 44);
    &&& ps.len() >= 1
    &&& forall|i: int|
        0 <= i < ps.len() ==> scan::is_int_lit(#[trigger] ps[i]) && i32::MIN <= scan::int_val(
            ps[i],
        ) <= i32::MAX
}

pub open spec fn update_of_line(line: Seq<u8>) -> Seq<i32> {
    let ps = scan::split_at(line, 44);
    Seq::new(ps.len(), |i: int| scan::int_val(ps[i]) as i32)
}

/// The index of the blank line that separates rules from updates.
pub open spec fn blank_at(ls: Seq<Seq<u8>>) -> int {
    choose|k: int| 0 <= k < ls.len() && ls[k].len() == 0
}

/// The whole input: rule lines, one blank line, update lines.
pub open spec fn input_ok(s: Seq<u8>) -> bool {
    let ls = scan::spec_lines(s);
    exists|k: int|
        {
            &&& 0 <= k < ls.len()
            &&& #[trigger] ls[k].len() == 0
            &&& k >= 1
            &&& k < ls.len() - 1
            &&& forall|i: int| 0 <= i < k ==> rule_line_ok(#[trigger] ls[i])
            &&& forall|i: int| k < i < ls.len() ==> update_line_ok(#[trigger] ls[i])
        }
}

pub open spec fn spec_rules(s: Seq<u8>) -> Seq<(i32, i32)> {
    let ls = scan::spec_lines(s);
    let k = blank_at(ls);
    Seq::new(k as nat, |i: int| rule_of_line(ls[i]))
}

pub open spec fn spec_updates(s: Seq<u8>) -> Seq<Seq<i32>> {
    let ls = scan::spec_lines(s);
    let k = blank_at(ls);
    Seq::new((ls.len() - k - 1) as nat, |i: int| update_of_line(ls[k + 1 + i]))
}

proof fn lemma_insert_by_len(rules: Seq<(i32, i32)>, s: Seq<i32>, x: i32)
    ensures
        insert_by(rules, s, x).len() == s.len() + 1,
    decreases s.len(),
{
    if s.len() > 0 && spec_cmp(rules, x, s[0]) != -1 {
        lemma_insert_by_len(rules, s.skip(1), x);
    }
}

/// Reordering keeps the number of pages.
pub proof fn lemma_sort_len(rules: Seq<(i32, i32)>, u: Seq<i32>, k: int)
    requires
        0 <= k <= u.len(),
    ensures
        sort_by_rules(rules, u, k).len() == k,
    decreases k,
{
    if k > 0 {
        lemma_sort_len(rules, u, k - 1);
        lemma_insert_by_len(rules, sort_by_rules(rules, u, k - 1), u[k - 1]);
    }
}

/// One unfolding of sequence filtering, from the tail end.
proof fn filter_step_updates(s: Seq<Seq<i32>>, pred: spec_fn(Seq<i32>) -> bool)
    requires
        s.len() > 0,
    ensures
        s.filter(pred) == if pred(s.last()) {
            s.drop_last().filter(pred).push(s.last())
        } else {
            s.drop_last().filter(pred)
        },
{
    reveal(Seq::filter);
}

/// The safe updates, in order.
pub open spec fn safe_of(rules: Seq<(i32, i32)>, us: Seq<Seq<i32>>) -> Seq<Seq<i32>> {
    us.filter(|u: Seq<i32>| safe_update(rules, u))
}

/// The unsafe updates, each reordered by the rules, in order.
pub open spec fn fixed_of(rules: Seq<(i32, i32)>, us: Seq<Seq<i32>>) -> Seq<Seq<i32>> {
    us.filter(|u: Seq<i32>| !safe_update(rules, u)).map_values(
        |u: Seq<i32>| sort_by_rules(rules, u, u.len() as int),
    )
}

/// When the first blank line of the input sits at `kk`, any witness of a
/// well-formed input is that very line, so the sections are pinned.
proof fn lemma_witness_is(lv: Seq<Seq<u8>>, s: Seq<u8>, kk: int)
    requires
        lv == scan::spec_lines(s),
        0 <= kk < lv.len(),
        lv[kk].len() == 0,
        forall|x: int| 0 <= x < kk ==> (#[trigger] lv[x]).len() != 0,
        input_ok(s),
    ensures
        kk >= 1,
        kk < lv.len() - 1,
        forall|i: int| 0 <= i < kk ==> rule_line_ok(#[trigger] lv[i]),
        forall|i: int| kk < i < lv.len() ==> update_line_ok(#[trigger] lv[i]),
{
    let k2 = choose|k2: int|
        {
            &&& 0 <= k2 < lv.len()
            &&& #[trigger] lv[k2].len() == 0
            &&& k2 >= 1
            &&& k2 < lv.len() - 1
            &&& forall|i: int| 0 <= i < k2 ==> rule_line_ok(#[trigger] lv[i])
            &&& forall|i: int| k2 < i < lv.len() ==> update_line_ok(#[trigger] lv[i])
        };
    if k2 < kk {
        assert(lv[k2].len() != 0);
        assert(false);
    }
    if k2 > kk {
        assert(rule_line_ok(lv[kk]));
        assert(scan::piece_len(lv[kk], 124) == 0);
        assert(scan::split_at(lv[kk], 124).len() == 1);
        assert(false);
    }
}

/// Reads the rules and the updates; None when the input does not parse.
pub fn parse(input: &[u8]) -> (out: Option<(Vec<(i32, i32)>, Vec<Vec<i32>>)>)
    ensures
        match out {
            Some(p) => {
                &&& input_ok(input@)
                &&& p.0@ == spec_rules(input@)
                &&& views_of(p.1@) == spec_updates(input@)
                &&& forall|i: int| 0 <= i < p.1@.len() ==> (#[trigger] p.1@[i])@.len() >= 1
            },
            None => !input_ok(input@),
        },
{
    let ls = scan::lines(input);
    let ghost lv = scan::spec_lines(input@);
    let n = ls.len();
    // Find the blank separator.
    let mut k: usize = 0;
    while k < n && ls[k].len() != 0
        invariant
            k <= n,
            n == ls@.len(),
            scan::pieces_view(ls@) == lv,
            forall|x: int| 0 <= x < k ==> (#[trigger] lv[x]).len() != 0,
        decreases n - k,
    {
        k += 1;
    }
    if k == n || k == 0 || k >= n - 1 {
        proof {
            if input_ok(input@) {
                let kk = choose|kk: int|
                    {
                        &&& 0 <= kk < lv.len()
                        &&& #[trigger] lv[kk].len() == 0
                        &&& kk >= 1
                        &&& kk < lv.len() - 1
                        &&& forall|i: int| 0 <= i < kk ==> rule_line_ok(#[trigger] lv[i])
                        &&& forall|i: int| kk < i < lv.len() ==> update_line_ok(#[trigger] lv[i])
                    };
                assert(lv[kk].len() == 0);
                assert(kk >= k);
                if kk > k {
                    assert(lv[k as int].len() == 0);
                }
                assert(false);
            }
        }
        return None;
    }
    let ghost kk = k as int;
    proof {
        assert(lv[kk].len() == 0);
    }
    let mut rules: Vec<(i32, i32)> = Vec::new();
    let mut i: usize = 0;
    while i < k
        invariant
            i <= k < n,
            n == ls@.len(),
            scan::pieces_view(ls@) == lv,
            lv == scan::spec_lines(input@),
            kk == k as int,
            lv[kk].len() == 0,
            forall|x: int| 0 <= x < kk ==> (#[trigger] lv[x]).len() != 0,
            rules@.len() == i,
            forall|x: int| 0 <= x < i ==> rule_line_ok(#[trigger] lv[x]),
            forall|x: int| 0 <= x < i ==> rules@[x] == rule_of_line(lv[x]),
        decreases k - i,
    {
        let ghost line = lv[i as int];
        proof {
            assert(ls@[i as int]@ == line);
        }
        let ps = scan::split_bytes(&ls[i], 124);
        proof {
            assert(scan::pieces_view(ps@) == scan::split_at(line, 124));
        }
        if ps.len() != 2 {
            proof {
                if input_ok(input@) {
                    lemma_witness_is(lv, input@, kk);
                }
            }
            return None;
        }
        proof {
            assert(ps@[0]@ == scan::split_at(line, 124)[0]);
            assert(ps@[1]@ == scan::split_at(line, 124)[1]);
        }
        let a = match scan::parse_i64(&ps[0]) {
            Some(v) => v,
            None => {
                proof {
                    if input_ok(input@) {
                        lemma_witness_is(lv, input@, kk);
                    }
                }
                return None;
            },
        };
        let b = match scan::parse_i64(&ps[1]) {
            Some(v) => v,
            None => {
                proof {
                    if input_ok(input@) {
                        lemma_witness_is(lv, input@, kk);
                    }
                }
                return None;
            },
        };
        if a < -2147483648i64 || a > 2147483647i64 || b < -2147483648i64 || b > 2147483647i64 {
            proof {
                if input_ok(input@) {
                    lemma_witness_is(lv, input@, kk);
                }
            }
            return None;
        }
        rules.push((a as i32, b as i32));
        i += 1;
    }
    let mut updates: Vec<Vec<i32>> = Vec::new();
    let mut i: usize = k + 1;
    while i < n
        invariant
            kk + 1 <= i <= n,
            n == ls@.len(),
            scan::pieces_view(ls@) == lv,
            lv == scan::spec_lines(input@),
            0 <= kk < n - 1,
            lv[kk].len() == 0,
            forall|x: int| 0 <= x < kk ==> (#[trigger] lv[x]).len() != 0,
            updates@.len() == i - kk - 1,
            forall|x: int| kk < x < i ==> update_line_ok(#[trigger] lv[x]),
            forall|x: int|
                0 <= x < updates@.len() ==> (#[trigger] updates@[x])@ == update_of_line(
                    lv[kk + 1 + x],
                ),
        decreases n - i,
    {
        let ghost line = lv[i as int];
        proof {
            assert(ls@[i as int]@ == line);
        }
        let ps = scan::split_bytes(&ls[i], 44);
        proof {
            assert(scan::pieces_view(ps@) == scan::split_at(line, 44));
            scan::lemma_piece_len_bound(line, 44);
        }
        let mut u: Vec<i32> = Vec::new();
        let mut j: usize = 0;
        while j < ps.len()
            invariant
                j <= ps@.len(),
                i < n,
                n == ls@.len(),
                scan::pieces_view(ls@) == lv,
                lv == scan::spec_lines(input@),
                0 <= kk < i,
                lv[kk].len() == 0,
                forall|x: int| 0 <= x < kk ==> (#[trigger] lv[x]).len() != 0,
                line == lv[i as int],
                scan::pieces_view(ps@) == scan::split_at(line, 44),
                u@.len() == j,
                forall|x: int|
                    0 <= x < j ==> scan::is_int_lit(#[trigger] scan::split_at(line, 44)[x])
                        && i32::MIN <= scan::int_val(scan::split_at(line, 44)[x]) <= i32::MAX,
                forall|x: int|
                    0 <= x < j ==> #[trigger] u@[x] == scan::int_val(
                        scan::split_at(line, 44)[x],
                    ) as i32,
            decreases ps@.len() - j,
        {
            proof {
                assert(ps@[j as int]@ == scan::split_at(line, 44)[j as int]);
            }
            let v = match scan::parse_i64(&ps[j]) {
                Some(v) => v,
                None => {
                    proof {
                        if input_ok(input@) {
                            lemma_witness_is(lv, input@, kk);
                        }
                    }
                    return None;
                },
            };
            if v < -2147483648i64 || v > 2147483647i64 {
                proof {
                    if input_ok(input@) {
                        lemma_witness_is(lv, input@, kk);
                    }
                }
                return None;
            }
            u.push(v as i32);
            j += 1;
        }
        proof {
            assert(u@ =~= update_of_line(line));
        }
        updates.push(u);
        i += 1;
    }
    proof {
        assert(input_ok(input@)) by {
            assert({
                &&& 0 <= kk < lv.len()
                &&& lv[kk].len() == 0
                &&& kk >= 1
                &&& kk < lv.len() - 1
                &&& forall|x: int| 0 <= x < kk ==> rule_line_ok(#[trigger] lv[x])
                &&& forall|x: int| kk < x < lv.len() ==> update_line_ok(#[trigger] lv[x])
            });
        }
        assert(blank_at(lv) == kk) by {
            let b = blank_at(lv);
            assert(lv[kk].len() == 0);
            assert(lv[b].len() == 0);
            if b < kk {
                assert(rule_line_ok(lv[b]));
                assert(scan::split_at(lv[b], 124).len() == 2);
                scan::lemma_piece_len_bound(lv[b], 124);
                assert(scan::is_int_lit(scan::split_at(lv[b], 124)[0]));
                assert(false);
            }
            if b > kk {
                assert(update_line_ok(lv[b]));
                scan::lemma_piece_len_bound(lv[b], 44);
                assert(scan::is_int_lit(scan::split_at(lv[b], 44)[0]));
                assert(false);
            }
        }
        assert(rules@ =~= spec_rules(input@));
        assert(views_of(updates@) =~= spec_updates(input@));
        assert forall|x: int| 0 <= x < updates@.len() implies (#[trigger] updates@[x])@.len()
            >= 1 by {
            assert(update_line_ok(lv[kk + 1 + x]));
            scan::lemma_piece_len_bound(lv[kk + 1 + x], 44);
        }
    }
    Some((rules, updates))
}

/// Both answers for one input: the middle-page sum of the updates that
/// respect the rules, and the middle-page sum of the reordered remainder.
/// None when the input does not parse or a sum leaves the i64 range.
pub fn run(input: &[u8]) -> (out: Option<(i64, i64)>)
    ensures
        ({
            let rules = spec_rules(input@);
            let us = spec_updates(input@);
            let sf = safe_of(rules, us);
            let fx = fixed_of(rules, us);
            match out {
                Some(ans) => {
                    &&& input_ok(input@)
                    &&& ans.0 == middle_sum(sf, sf.len() as int)
                    &&& ans.1 == middle_sum(fx, fx.len() as int)
                    &&& forall|k: int|
                        0 <= k <= sf.len() ==> i64::MIN <= #[trigger] middle_sum(sf, k)
                            <= i64::MAX
                    &&& forall|k: int|
                        0 <= k <= fx.len() ==> i64::MIN <= #[trigger] middle_sum(fx, k)
                            <= i64::MAX
                },
                None => {
                    ||| !input_ok(input@)
                    ||| exists|k: int|
                        0 <= k <= sf.len() && !(i64::MIN <= #[trigger] middle_sum(sf, k)
                            <= i64::MAX)
                    ||| exists|k: int|
                        0 <= k <= fx.len() && !(i64::MIN <= #[trigger] middle_sum(fx, k)
                            <= i64::MAX)
                },
            }
        }),
{
    let (rules, updates) = match parse(input) {
        Some(p) => p,
        None => {
            return None;
        },
    };
    let ghost grules = spec_rules(input@);
    let ghost gus = spec_updates(input@);
    let ghost sf = safe_of(grules, gus);
    let ghost fx = fixed_of(grules, gus);
    let n = updates.len();
    let mut safe: Vec<Vec<i32>> = Vec::new();
    let mut fixed: Vec<Vec<i32>> = Vec::new();
    let mut i: usize = 0;
    proof {
        assert(gus.take(0) =~= Seq::<Seq<i32>>::empty());
        assert(gus.take(0).filter(|u: Seq<i32>| safe_update(grules, u)) =~= Seq::<Seq<i32>>::empty());
        assert(gus.take(0).filter(|u: Seq<i32>| !safe_update(grules, u)) =~= Seq::<
            Seq<i32>,
        >::empty());
        assert(views_of(safe@) =~= gus.take(0).filter(|u: Seq<i32>| safe_update(grules, u)));
        assert(views_of(fixed@) =~= gus.take(0).filter(|u: Seq<i32>| !safe_update(grules, u)).map_values(
            |u: Seq<i32>| sort_by_rules(grules, u, u.len() as int),
        ));
    }
    while i < n
        invariant
            i <= n,
            n == updates@.len(),
            rules@ == grules,
            views_of(updates@) == gus,
            forall|x: int| 0 <= x < updates@.len() ==> (#[trigger] updates@[x])@ == gus[x],
            views_of(safe@) == gus.take(i as int).filter(|u: Seq<i32>| safe_update(grules, u)),
            views_of(fixed@) == gus.take(i as int).filter(
                |u: Seq<i32>| !safe_update(grules, u),
            ).map_values(|u: Seq<i32>| sort_by_rules(grules, u, u.len() as int)),
        decreases n - i,
    {
        let ghost uview = gus[i as int];
        proof {
            assert(updates@[i as int]@ == uview);
        }
        let ghost safe_pre = views_of(safe@);
        let ghost fixed_pre = views_of(fixed@);
        if is_safe_update(&rules, &updates[i]) {
            let u = copy_pages(&updates[i]);
            safe.push(u);
            proof {
                assert(views_of(safe@) =~= safe_pre.push(uview));
            }
        } else {
            let sorted = sort_update(&rules, &updates[i]);
            fixed.push(sorted);
            proof {
                assert(views_of(fixed@) =~= fixed_pre.push(
                    sort_by_rules(grules, uview, uview.len() as int),
                ));
            }
        }
        proof {
            assert(gus.take(i + 1).drop_last() =~= gus.take(i as int));
            assert(gus.take(i + 1).last() == gus[i as int]);
            filter_step_updates(gus.take(i + 1), |u: Seq<i32>| safe_update(grules, u));
            filter_step_updates(gus.take(i + 1), |u: Seq<i32>| !safe_update(grules, u));
        }
        i += 1;
    }
    proof {
        assert(gus.take(n as int) =~= gus);
        assert(views_of(safe@) == sf);
        assert(views_of(fixed@) == fx);
        assert forall|x: int| 0 <= x < safe@.len() implies (#[trigger] safe@[x])@.len() >= 1 by {
            assert(views_of(safe@)[x] == safe@[x]@);
            lemma_filter_keeps_nonempty(gus, |u: Seq<i32>| safe_update(grules, u), x);
        }
        assert forall|x: int| 0 <= x < fixed@.len() implies (#[trigger] fixed@[x])@.len() >= 1 by {
            assert(views_of(fixed@)[x] == fixed@[x]@);
            let uf = gus.filter(|u: Seq<i32>| !safe_update(grules, u));
            lemma_filter_keeps_nonempty(gus, |u: Seq<i32>| !safe_update(grules, u), x);
            lemma_sort_len(grules, uf[x], uf[x].len() as int);
        }
    }
    let a = match sum_i64(&safe) {
        Some(v) => v,
        None => {
            return None;
        },
    };
    let b = match sum_i64(&fixed) {
        Some(v) => v,
        None => {
            return None;
        },
    };
    Some((a, b))
}

/// Every element a filter keeps is an element of the original sequence,
/// so a filter of non-empty updates stays non-empty.
proof fn lemma_filter_keeps_nonempty(us: Seq<Seq<i32>>, pred: spec_fn(Seq<i32>) -> bool, x: int)
    requires
        forall|i: int| 0 <= i < us.len() ==> (#[trigger] us[i]).len() >= 1,
        0 <= x < us.filter(pred).len(),
    ensures
        us.filter(pred)[x].len() >= 1,
    decreases us.len(),
{
    if us.len() > 0 {
        filter_step_updates(us, pred);
        let pre = us.drop_last();
        assert(forall|i: int| 0 <= i < pre.len() ==> (#[trigger] pre[i]).len() >= 1) by {
            assert(forall|i: int| 0 <= i < pre.len() ==> pre[i] == us[i]);
        }
        if pred(us.last()) {
            if x < us.filter(pred).len() - 1 {
                lemma_filter_keeps_nonempty(pre, pred, x);
            } else {
                assert(us.filter(pred)[x] == us.last());
            }
        } else {
            lemma_filter_keeps_nonempty(pre, pred, x);
        }
    }
}

fn copy_pages(u: &Vec<i32>) -> (out: Vec<i32>)
    ensures
        out@ == u@,
{
    let mut q: Vec<i32> = Vec::new();
    let mut x: usize = 0;
    while x < u.len()
        invariant
            x <= u@.len(),
            q@ =~= u@.subrange(0, x as int),
        decreases u@.len() - x,
    {
        q.push(u[x]);
        x += 1;
    }
    proof {
        assert(q@ =~= u@);
    }
    q
}

/// Middle-page sum with i64 accumulation; None on leaving the i64 range.
fn sum_i64(updates: &Vec<Vec<i32>>) -> (out: Option<i64>)
    requires
        forall|i: int| 0 <= i < updates@.len() ==> (#[trigger] updates@[i])@.len() >= 1,
    ensures
        match out {
            Some(v) => v == middle_sum(views_of(updates@), updates@.len() as int) && forall|k: int|
                0 <= k <= updates@.len() ==> i64::MIN <= #[trigger] middle_sum(
                    views_of(updates@),
                    k,
                ) <= i64::MAX,
            None => exists|k: int|
                0 <= k <= updates@.len() && !(i64::MIN <= #[trigger] middle_sum(
                    views_of(updates@),
                    k,
                ) <= i64::MAX),
        },
{
    let n = updates.len();
    let mut acc: i64 = 0;
    let mut i: usize = 0;
    while i < n
        invariant
            i <= n,
            n == updates@.len(),
            forall|x: int| 0 <= x < n ==> (#[trigger] updates@[x])@.len() >= 1,
            acc == middle_sum(views_of(updates@), i as int),
            forall|k: int|
                0 <= k <= i ==> i64::MIN <= #[trigger] middle_sum(views_of(updates@), k)
                    <= i64::MAX,
        decreases n - i,
    {
        let u = &updates[i];
        proof {
            assert(views_of(updates@)[i as int] == u@);
        }
        let m = u[u.len() / 2];
        acc = match acc.checked_add(m as i64) {
            Some(v) => v,
            None => {
                proof {
                    assert(middle_sum(views_of(updates@), i + 1) == acc + m);
                }
                return None;
            },
        };
        i += 1;
    }
    Some(acc)
}

} // verus!
