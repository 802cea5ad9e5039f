//! Report safety: a report (one line of numbers) is safe when its values
//! are strictly monotone with adjacent gaps of one to three; the damped
//! variant tolerates the removal of one value.
use crate::scan;
use vstd::prelude::*;

verus! {

/// A report is safe when all adjacent differences lie in [1, 3] or all in
/// [-3, -1]: monotone, with steps of at most three.
pub open spec fn spec_is_safe(s: Seq<i32>) -> bool {
    ||| forall|i: int| 0 <= i < s.len() - 1 ==> 1 <= #[trigger] s[i + 1] - s[i] <= 3
    ||| forall|i: int| 0 <= i < s.len() - 1 ==> -3 <= #[trigger] s[i + 1] - s[i] <= -1
}

/// A report is safe after damping when it is safe as it stands or one
/// removal makes it safe.
pub open spec fn spec_is_safe_damped(s: Seq<i32>) -> bool {
    spec_is_safe(s) || exists|i: int| 0 <= i < s.len() && spec_is_safe(#[trigger] s.remove(i))
}

fn all_gaps_in(level: &Vec<i32>, lo: i64, hi: i64) -> (b: bool)
    ensures
        b == forall|i: int|
            0 <= i < level@.len() - 1 ==> lo <= #[trigger] level@[i + 1] - level@[i] <= hi,
{
    let n = level.len();
    if n <= 1 {
        return true;
    }
    let mut i: usize = 0;
    while i < n - 1
        invariant
            i <= n - 1,
            n == level@.len(),
            n >= 1,
            forall|x: int| 0 <= x < i ==> lo <= #[trigger] level@[x + 1] - level@[x] <= hi,
        decreases n - 1 - i,
    {
        let diff = level[i + 1] as i64 - level[i] as i64;
        if !(lo <= diff && diff <= hi) {
            return false;
        }
        i += 1;
    }
    true
}

/// Whether one report is safe.
pub fn is_safe(level: &Vec<i32>) -> (b: bool)
    ensures
        b == spec_is_safe(level@),
{
    let up = all_gaps_in(level, 1, 3);
    let down = all_gaps_in(level, -3, -1);
    up || down
}

/// Whether one report is safe after damping at most one value.
pub fn is_safe_damped(level: &Vec<i32>) -> (b: bool)
    ensures
        b == spec_is_safe_damped(level@),
{
    if is_safe(level) {
        return true;
    }
    let n = level.len();
    let mut idx: usize = 0;
    while idx < n
        invariant
            idx <= n,
            n == level@.len(),
            !spec_is_safe(level@),
            forall|x: int| 0 <= x < idx ==> !spec_is_safe(#[trigger] level@.remove(x)),
        decreases n - idx,
    {
        let mut damped: Vec<i32> = Vec::new();
        let mut x: usize = 0;
        while x < n
            invariant
                x <= n,
                n == level@.len(),
                idx < n,
                damped@ =~= if x <= idx {
                    level@.subrange(0, x as int)
                } else {
                    level@.subrange(0, idx as int) + level@.subrange(idx + 1, x as int)
                },
            decreases n - x,
        {
            if x != idx {
                damped.push(level[x]);
            }
            x += 1;
        }
        proof {
            assert(damped@ =~= level@.remove(idx as int));
        }
        if is_safe(&damped) {
            return true;
        }
        idx += 1;
    }
    false
}

/// The fields of a report line: space-separated integer literals that fit
/// an i32, at least one of them.
pub open spec fn line_fields(line: Seq<u8>) -> Seq<Seq<u8>> {
    scan::non_empty(scan::split_at(line, 32))
}

pub open spec fn line_ok(line: Seq<u8>) -> bool {
    &&& line_fields(line).len() >= 1
    &&& forall|i: int|
        0 <= i < line_fields(line).len() ==> scan::is_int_lit(#[trigger] line_fields(line)[i])
            && i32::MIN <= scan::int_val(line_fields(line)[i]) <= i32::MAX
}

pub open spec fn line_vals(line: Seq<u8>) -> Seq<i32> {
    Seq::new(line_fields(line).len(), |i: int| scan::int_val(line_fields(line)[i]) as i32)
}

/// The whole input: at least one line, each a valid report line.
pub open spec fn input_ok(s: Seq<u8>) -> bool {
    &&& scan::spec_lines(s).len() >= 1
    &&& forall|i: int| 0 <= i < scan::spec_lines(s).len() ==> line_ok(#[trigger] scan::spec_lines(s)[i])
}

pub open spec fn spec_levels(s: Seq<u8>) -> Seq<Seq<i32>> {
    Seq::new(scan::spec_lines(s).len(), |i: int| line_vals(scan::spec_lines(s)[i]))
}

/// Reads the reports; None when the input does not parse.
pub fn parse(input: &[u8]) -> (out: Option<Vec<Vec<i32>>>)
    ensures
        match out {
            Some(levels) => input_ok(input@) && levels@.len() == spec_levels(input@).len()
                && forall|i: int|
                0 <= i < levels@.len() ==> (#[trigger] levels@[i])@ == spec_levels(input@)[i],
            None => !input_ok(input@),
        },
{
    let ls = scan::lines(input);
    if ls.len() == 0 {
        return None;
    }
    let mut levels: Vec<Vec<i32>> = Vec::new();
    let mut i: usize = 0;
    while i < ls.len()
        invariant
            i <= ls@.len(),
            ls@.len() >= 1,
            scan::pieces_view(ls@) == scan::spec_lines(input@),
            levels@.len() == i,
            forall|x: int| 0 <= x < i ==> line_ok(#[trigger] scan::spec_lines(input@)[x]),
            forall|x: int|
                0 <= x < i ==> (#[trigger] levels@[x])@ == line_vals(scan::spec_lines(input@)[x]),
        decreases ls@.len() - i,
    {
        let ghost lv = scan::spec_lines(input@)[i as int];
        proof {
            assert(ls@[i as int]@ == lv);
        }
        let fields = scan::split_fields(&ls[i], 32);
        proof {
            assert(scan::pieces_view(fields@) == line_fields(lv));
        }
        if fields.len() == 0 {
            return None;
        }
        let mut level: Vec<i32> = Vec::new();
        let mut j: usize = 0;
        while j < fields.len()
            invariant
                j <= fields@.len(),
                i < scan::spec_lines(input@).len(),
                lv == scan::spec_lines(input@)[i as int],
                scan::pieces_view(fields@) == line_fields(lv),
                level@.len() == j,
                forall|x: int|
                    0 <= x < j ==> scan::is_int_lit(#[trigger] line_fields(lv)[x]) && i32::MIN
                        <= scan::int_val(line_fields(lv)[x]) <= i32::MAX,
                forall|x: int|
                    0 <= x < j ==> #[trigger] level@[x] == scan::int_val(line_fields(lv)[x]) as i32,
            decreases fields@.len() - j,
        {
            proof {
                assert(fields@[j as int]@ == line_fields(lv)[j as int]);
            }
            let v = match scan::parse_i64(&fields[j]) {
                Some(v) => v,
                None => {
                    return None;
                },
            };
            if v < -2147483648i64 || v > 2147483647i64 {
                return None;
            }
            level.push(v as i32);
            j += 1;
        }
        proof {
            assert(level@ =~= line_vals(lv));
        }
        levels.push(level);
        i += 1;
    }
    Some(levels)
}

/// Number of safe reports among the first `k`.
pub open spec fn count_safe(ls: Seq<Seq<i32>>, k: int) -> int
    decreases k,
{
    if k <= 0 {
        0
    } else {
        count_safe(ls, k - 1) + if spec_is_safe(ls[k - 1]) {
            1int
        } else {
            0int
        }
    }
}

/// Number of damped-safe reports among the first `k`.
pub open spec fn count_safe_damped(ls: Seq<Seq<i32>>, k: int) -> int
    decreases k,
{
    if k <= 0 {
        0
    } else {
        count_safe_damped(ls, k - 1) + if spec_is_safe_damped(ls[k - 1]) {
            1int
        } else {
            0int
        }
    }
}

/// Both answers for one input: how many reports are safe, and how many
/// are safe after damping one value.  None when the input does not parse.
pub fn run(input: &[u8]) -> (out: Option<(usize, usize)>)
    ensures
        match out {
            Some(ans) => {
                &&& input_ok(input@)
                &&& ans.0 == count_safe(spec_levels(input@), spec_levels(input@).len() as int)
                &&& ans.1 == count_safe_damped(
                    spec_levels(input@),
                    spec_levels(input@).len() as int,
                )
            },
            None => !input_ok(input@),
        },
{
    let levels = match parse(input) {
        Some(levels) => levels,
        None => {
            return None;
        },
    };
    let ghost lv = spec_levels(input@);
    let mut safe: usize = 0;
    let mut damped: usize = 0;
    let mut i: usize = 0;
    while i < levels.len()
        invariant
            i <= levels@.len(),
            levels@.len() == lv.len(),
            forall|x: int| 0 <= x < levels@.len() ==> (#[trigger] levels@[x])@ == lv[x],
            safe == count_safe(lv, i as int),
            damped == count_safe_damped(lv, i as int),
            safe <= i,
            damped <= i,
        decreases levels@.len() - i,
    {
        if is_safe(&levels[i]) {
            safe += 1;
        }
        if is_safe_damped(&levels[i]) {
            damped += 1;
        }
        i += 1;
    }
    Some((safe, damped))
}

} // verus!
