//! Verified input scanning shared by the solvers: splitting bytes into
//! lines and fields, and reading integers, each with an exact
//! specification.
use vstd::prelude::*;

verus! {

pub open spec fn is_digit(b: u8) -> bool {
    48 <= b <= 57
}

pub open spec fn all_digits(s: Seq<u8>) -> bool {
    forall|i: int| 0 <= i < s.len() ==> is_digit(#[trigger] s[i])
}

/// The number a run of decimal digits denotes.
pub open spec fn digits_val(s: Seq<u8>) -> int
    decreases s.len(),
{
    if s.len() == 0 {
        0
    } else {
        digits_val(s.drop_last()) * 10 + (s.last() - 48)
    }
}

/// An optionally negated, non-empty run of decimal digits.
pub open spec fn is_int_lit(s: Seq<u8>) -> bool {
    if s.len() >= 1 && s[0] == 45 {
        s.len() >= 2 && all_digits(s.skip(1))
    } else {
        s.len() >= 1 && all_digits(s)
    }
}

/// The integer an integer literal denotes.
pub open spec fn int_val(s: Seq<u8>) -> int {
    if s.len() >= 1 && s[0] == 45 {
        -digits_val(s.skip(1))
    } else {
        digits_val(s)
    }
}

pub proof fn lemma_digits_val_nonneg(s: Seq<u8>)
    requires
        all_digits(s),
    ensures
        digits_val(s) >= 0,
    decreases s.len(),
{
    if s.len() > 0 {
        assert(all_digits(s.drop_last()));
        lemma_digits_val_nonneg(s.drop_last());
    }
}

/// Reading one more digit never shrinks the number.
pub proof fn lemma_digits_val_prefix_le(s: Seq<u8>, k: int)
    requires
        all_digits(s),
        0 <= k <= s.len(),
    ensures
        digits_val(s.take(k)) <= digits_val(s),
    decreases s.len() - k,
{
    if k < s.len() {
        lemma_digits_val_prefix_le(s, k + 1);
        let t = s.take(k + 1);
        assert(t.drop_last() =~= s.take(k));
        assert(all_digits(s.take(k)));
        lemma_digits_val_nonneg(s.take(k));
        assert(digits_val(t) == digits_val(s.take(k)) * 10 + (s[k] - 48));
    } else {
        assert(s.take(k) =~= s);
    }
}

fn digit_exec(b: u8) -> (r: bool)
    ensures
        r == is_digit(b),
{
    48 <= b && b <= 57
}

/// Reads an integer literal: the whole slice must be one optionally
/// negated digit run whose value fits an i64.
pub fn parse_i64(s: &[u8]) -> (out: Option<i64>)
    ensures
        match out {
            Some(v) => is_int_lit(s@) && v == int_val(s@) && i64::MIN <= int_val(s@)
                <= i64::MAX,
            None => !is_int_lit(s@) || int_val(s@) < i64::MIN || int_val(s@) > i64::MAX,
        },
{
    let n = s.len();
    if n == 0 {
        return None;
    }
    let neg = s[0] == 45;
    let start: usize = if neg {
        1
    } else {
        0
    };
    if start == n {
        return None;
    }
    let ghost digits = s@.skip(start as int);
    let mut mag: u64 = 0;
    let mut i = start;
    while i < n
        invariant
            start <= i <= n,
            n == s@.len(),
            (s@[0] == 45) <==> (start == 1),
            start <= 1,
            digits == s@.skip(start as int),
            all_digits(digits.take(i - start)),
            mag == digits_val(digits.take(i - start)),
            mag <= u64::MAX,
        decreases n - i,
    {
        let b = s[i];
        if !digit_exec(b) {
            assert(!is_digit(digits[i - start]));
            return None;
        }
        let m10 = match mag.checked_mul(10) {
            Some(m) => m,
            None => {
                proof {
                    overflow_means_out_of_range(s@, digits, start as int, i as int, mag as int);
                }
                return None;
            },
        };
        let m = match m10.checked_add((b - 48) as u64) {
            Some(m) => m,
            None => {
                proof {
                    overflow_means_out_of_range(s@, digits, start as int, i as int, mag as int);
                }
                return None;
            },
        };
        proof {
            assert(digits.take(i - start + 1).drop_last() =~= digits.take(i - start));
            assert(digits.take(i - start + 1).last() == s@[i as int]);
        }
        mag = m;
        i += 1;
    }
    proof {
        assert(digits.take(n - start) =~= digits);
        lemma_digits_val_nonneg(digits);
        if neg {
            assert(digits == s@.skip(1));
        } else {
            assert(digits =~= s@);
        }
    }
    if neg {
        if mag > 0x8000_0000_0000_0000u64 {
            return None;
        }
        if mag == 0x8000_0000_0000_0000u64 {
            return Some(i64::MIN);
        }
        Some(-(mag as i64))
    } else {
        if mag > 0x7fff_ffff_ffff_ffffu64 {
            return None;
        }
        Some(mag as i64)
    }
}

/// A partial digit run that already overflows a u64 puts the whole
/// literal far outside the i64 range.
proof fn overflow_means_out_of_range(s: Seq<u8>, digits: Seq<u8>, start: int, i: int, mag: int)
    requires
        0 <= start <= i < s.len(),
        start <= 1,
        (s[0] == 45) <==> (start == 1),
        digits == s.skip(start),
        all_digits(digits.take(i - start)),
        mag == digits_val(digits.take(i - start)),
        is_digit(s[i]),
        mag * 10 + (s[i] - 48) > u64::MAX,
    ensures
        !is_int_lit(s) || int_val(s) < i64::MIN || int_val(s) > i64::MAX,
{
    if is_int_lit(s) {
        if start == 0 {
            assert(digits =~= s);
        }
        assert(all_digits(digits));
        let t = digits.take(i - start + 1);
        assert(t.drop_last() =~= digits.take(i - start));
        assert(t.last() == s[i]);
        assert(digits_val(t) == mag * 10 + (s[i] - 48));
        lemma_digits_val_prefix_le(digits, i - start + 1);
        assert(digits_val(digits) > u64::MAX);
    }
}

/// Length of the leading run free of the separator.
pub open spec fn piece_len(s: Seq<u8>, sep: u8) -> int
    decreases s.len(),
{
    if s.len() == 0 || s[0] == sep {
        0
    } else {
        1 + piece_len(s.skip(1), sep)
    }
}

pub proof fn lemma_piece_len_bound(s: Seq<u8>, sep: u8)
    ensures
        0 <= piece_len(s, sep) <= s.len(),
    decreases s.len(),
{
    if s.len() > 0 && s[0] != sep {
        lemma_piece_len_bound(s.skip(1), sep);
    }
}

/// A run of `k` non-separator bytes followed by the end or the separator
/// is the leading piece.
pub proof fn lemma_piece_len_is(s: Seq<u8>, sep: u8, k: int)
    requires
        0 <= k <= s.len(),
        forall|x: int| 0 <= x < k ==> #[trigger] s[x] != sep,
        k < s.len() ==> s[k] == sep,
    ensures
        piece_len(s, sep) == k,
    decreases k,
{
    if k > 0 {
        lemma_piece_len_is(s.skip(1), sep, k - 1);
    }
}

/// Splits at every occurrence of the separator; n separators give n + 1
/// pieces, empty pieces included.
pub open spec fn split_at(s: Seq<u8>, sep: u8) -> Seq<Seq<u8>>
    decreases s.len(),
        via split_at_decreases
{
    let k = piece_len(s, sep);
    if k == s.len() {
        seq![s]
    } else {
        seq![s.take(k)] + split_at(s.skip(k + 1), sep)
    }
}

#[via_fn]
proof fn split_at_decreases(s: Seq<u8>, sep: u8) {
    lemma_piece_len_bound(s, sep);
}

/// The views of a list of byte strings.
pub open spec fn pieces_view(rows: Seq<Vec<u8>>) -> Seq<Seq<u8>> {
    Seq::new(rows.len(), |i: int| rows[i]@)
}

/// Splits the input at every separator byte.
pub fn split_bytes(s: &[u8], sep: u8) -> (out: Vec<Vec<u8>>)
    ensures
        pieces_view(out@) == split_at(s@, sep),
{
    let n = s.len();
    let mut done: Vec<Vec<u8>> = Vec::new();
    let mut i: usize = 0;
    proof {
        assert(s@.skip(0) =~= s@);
    }
    loop
        invariant
            i <= n,
            n == s@.len(),
            split_at(s@, sep) == pieces_view(done@) + split_at(s@.skip(i as int), sep),
        ensures
            pieces_view(done@) == split_at(s@, sep),
        decreases n - i,
    {
        let ghost i0 = i as int;
        let ghost t = s@.skip(i0);
        let mut j = i;
        while j < n && s[j] != sep
            invariant
                i <= j <= n,
                n == s@.len(),
                forall|x: int| i <= x < j ==> #[trigger] s@[x] != sep,
            decreases n - j,
        {
            j += 1;
        }
        proof {
            assert(forall|x: int| 0 <= x < j - i0 ==> t[x] == s@[i0 + x]);
            lemma_piece_len_is(t, sep, j - i0);
        }
        let mut piece: Vec<u8> = Vec::new();
        let mut x = i;
        while x < j
            invariant
                i <= x <= j <= n,
                n == s@.len(),
                piece@ =~= s@.subrange(i as int, x as int),
            decreases j - x,
        {
            piece.push(s[x]);
            x += 1;
        }
        proof {
            assert(piece@ =~= t.take(j - i0));
        }
        let ghost done_pre = done@;
        done.push(piece);
        proof {
            assert(pieces_view(done@) =~~= pieces_view(done_pre).push(piece@));
        }
        if j == n {
            proof {
                assert(t.take(j - i0) =~= t);
                assert(split_at(t, sep) =~~= seq![piece@]);
                assert(pieces_view(done_pre) + seq![piece@] =~~= pieces_view(done@));
            }
            return done;
        }
        proof {
            assert(t.skip(j - i0 + 1) =~= s@.skip(j + 1));
            assert(split_at(t, sep) =~~= seq![piece@] + split_at(s@.skip(j + 1), sep));
            assert(pieces_view(done_pre) + (seq![piece@] + split_at(s@.skip(j + 1), sep)) =~~=
                pieces_view(done@) + split_at(s@.skip(j + 1), sep));
        }
        i = j + 1;
    }
}

/// A piece with a trailing carriage return stripped.
pub open spec fn strip_cr(p: Seq<u8>) -> Seq<u8> {
    if p.len() > 0 && p.last() == 13 {
        p.drop_last()
    } else {
        p
    }
}

/// The lines of the input: split at every newline, a trailing newline
/// tolerated, carriage returns before newlines stripped.
pub open spec fn spec_lines(s: Seq<u8>) -> Seq<Seq<u8>> {
    let ps = split_at(s, 10);
    let ps2 = if s.len() > 0 && s.last() == 10 {
        ps.drop_last()
    } else {
        ps
    };
    Seq::new(ps2.len(), |i: int| strip_cr(ps2[i]))
}

/// Splits the input into lines.
pub fn lines(s: &[u8]) -> (out: Vec<Vec<u8>>)
    ensures
        pieces_view(out@) == spec_lines(s@),
{
    let mut pieces = split_bytes(s, 10);
    let n = s.len();
    if n > 0 && s[n - 1] == 10 {
        proof {
            lemma_split_at_nonempty(s@, 10);
        }
        let _ = pieces.pop();
    }
    let mut out: Vec<Vec<u8>> = Vec::new();
    let mut i: usize = 0;
    let ghost ps2 = pieces_view(pieces@);
    while i < pieces.len()
        invariant
            i <= pieces@.len(),
            ps2 == pieces_view(pieces@),
            out@.len() == i,
            forall|x: int| 0 <= x < i ==> (#[trigger] out@[x])@ == strip_cr(ps2[x]),
        decreases pieces@.len() - i,
    {
        let p = &pieces[i];
        let ghost pv = p@;
        proof {
            assert(ps2[i as int] == pv);
        }
        if p.len() > 0 && p[p.len() - 1] == 13 {
            let mut q: Vec<u8> = Vec::new();
            let mut x: usize = 0;
            while x < p.len() - 1
                invariant
                    x <= pv.len() - 1,
                    pv.len() >= 1,
                    p@ == pv,
                    q@ =~= pv.subrange(0, x as int),
                decreases pv.len() - 1 - x,
            {
                q.push(p[x]);
                x += 1;
            }
            proof {
                assert(q@ =~= pv.drop_last());
            }
            out.push(q);
        } else {
            let q = copy_bytes(p);
            out.push(q);
        }
        i += 1;
    }
    proof {
        assert(pieces_view(out@) =~~= spec_lines(s@));
    }
    out
}

proof fn lemma_split_at_nonempty(s: Seq<u8>, sep: u8)
    ensures
        split_at(s, sep).len() >= 1,
{
    lemma_piece_len_bound(s, sep);
}

/// A byte-for-byte copy.
pub fn copy_bytes(p: &Vec<u8>) -> (out: Vec<u8>)
    ensures
        out@ == p@,
{
    let mut q: Vec<u8> = Vec::new();
    let mut x: usize = 0;
    while x < p.len()
        invariant
            x <= p@.len(),
            q@ =~= p@.subrange(0, x as int),
        decreases p@.len() - x,
    {
        q.push(p[x]);
        x += 1;
    }
    proof {
        assert(q@ =~= p@);
    }
    q
}

/// The pieces of a split with the empty ones dropped: how runs of a
/// repeated separator are read as one.
pub open spec fn non_empty(ps: Seq<Seq<u8>>) -> Seq<Seq<u8>> {
    ps.filter(|p: Seq<u8>| p.len() > 0)
}

/// Splits the input at a separator and drops empty pieces.
pub fn split_fields(s: &[u8], sep: u8) -> (out: Vec<Vec<u8>>)
    ensures
        pieces_view(out@) == non_empty(split_at(s@, sep)),
{
    let pieces = split_bytes(s, sep);
    let mut out: Vec<Vec<u8>> = Vec::new();
    let mut i: usize = 0;
    let ghost ps = pieces_view(pieces@);
    proof {
        assert(ps.take(0) =~= Seq::<Seq<u8>>::empty());
        assert(ps.take(0).filter(|p: Seq<u8>| p.len() > 0) =~~= Seq::<Seq<u8>>::empty());
        assert(pieces_view(out@) =~~= ps.take(0).filter(|p: Seq<u8>| p.len() > 0));
    }
    while i < pieces.len()
        invariant
            i <= pieces@.len(),
            ps == pieces_view(pieces@),
            pieces_view(out@) == ps.take(i as int).filter(|p: Seq<u8>| p.len() > 0),
        decreases pieces@.len() - i,
    {
        let ghost out_pre = out@;
        let p = &pieces[i];
        proof {
            assert(ps[i as int] == p@);
        }
        if p.len() > 0 {
            let q = copy_bytes(p);
            out.push(q);
        }
        proof {
            assert(ps.take(i + 1).drop_last() =~= ps.take(i as int));
            assert(ps.take(i + 1).last() == ps[i as int]);
            seq_filter_step(ps.take(i + 1), |p: Seq<u8>| p.len() > 0);
            if p@.len() > 0 {
                assert(pieces_view(out@) =~~= pieces_view(out_pre).push(p@));
            }
        }
        i += 1;
    }
    proof {
        assert(ps.take(ps.len() as int) =~= ps);
    }
    out
}

/// One unfolding of sequence filtering, from the tail end.
pub proof fn seq_filter_step(s: Seq<Seq<u8>>, pred: spec_fn(Seq<u8>) -> bool)
    requires
        s.len() > 0,
    ensures
        s.filter(pred) == if pred(s.last()) {
            s.drop_last().filter(pred).push(s.last())
        } else {
            s.drop_last().filter(pred)
        },
{
    reveal(Seq::filter);
}

} // verus!
