//! Splitting a path string into segments, and parsing a segment as a
//! sequence index.

use crate::model::{
    all_digits, digit_val, digits_val, dot_index, index_digits, is_ascii_digit,
    lemma_digits_val_nonneg, lemma_dot_index, spec_parse_index, spec_split,
};
use vstd::prelude::*;
use vstd::string::StrSliceExecFns;

verus! {

/// Character sequences of a list of segment strings, in order.
pub open spec fn seg_views(segs: Seq<String>) -> Seq<Seq<char>> {
    segs.map_values(|t: String| t@)
}

/// A digit string's value never goes down when digits are appended.
proof fn lemma_digits_val_prefix(s: Seq<char>, i: int)
    requires
        all_digits(s),
        0 <= i <= s.len(),
    ensures
        0 <= digits_val(s.take(i)) <= digits_val(s),
    decreases s.len() - i,
{
    if i == s.len() {
        assert(s.take(i) =~= s);
        lemma_digits_val_nonneg(s);
    } else {
        lemma_digits_val_prefix(s, i + 1);
        assert(s.take(i + 1).drop_last() =~= s.take(i));
        assert(s.take(i + 1).last() == s[i]);
        lemma_digits_val_nonneg(s.take(i));
    }
}

/// Parses a segment as a non-negative base-10 sequence index, exactly as
/// [`spec_parse_index`] describes: an optional leading `+` sign, then at
/// least one decimal digit, and the value must fit in `usize`.
pub fn parse_index(s: &str) -> (r: Option<usize>)
    ensures
        match r {
            Some(v) => spec_parse_index(s@) == Some(v as int),
            None => spec_parse_index(s@) is None,
        },
{
    let n = s.unicode_len();
    let mut start: usize = 0;
    if n > 0 && s.get_char(0) == '+' {
        start = 1;
    }
    let ghost digits = index_digits(s@);
    proof {
        assert(digits =~= s@.skip(start as int));
    }
    if start >= n {
        return None;
    }
    let mut val: usize = 0;
    let mut i = start;
    while i < n
        invariant
            start <= i <= n == s@.len(),
            start <= 1,
            digits == s@.skip(start as int),
            digits == index_digits(s@),
            all_digits(digits.take(i - start)),
            val == digits_val(digits.take(i - start)),
        decreases n - i,
    {
        let c = s.get_char(i);
        let cv = c as u32;
        if cv < 48 || cv > 57 {
            proof {
                assert(digits[i - start] == s@[i as int]);
                assert(!is_ascii_digit(digits[i - start]));
                assert(!all_digits(digits));
            }
            return None;
        }
        let d = (cv - 48) as usize;
        proof {
            assert(digits.take(i - start + 1).drop_last() =~= digits.take(i - start));
            assert(digits.take(i - start + 1).last() == s@[i as int]);
            assert(d == digit_val(s@[i as int]));
        }
        if val > (usize::MAX - d) / 10 {
            proof {
                assert(val * 10 + d > usize::MAX) by (nonlinear_arith)
                    requires
                        val > (usize::MAX - d) / 10,
                        0 <= d <= 9,
                ;
                assert(digits_val(digits.take(i - start + 1)) > usize::MAX);
                if all_digits(digits) {
                    lemma_digits_val_prefix(digits, i - start + 1);
                    assert(digits_val(digits) > usize::MAX);
                }
            }
            return None;
        }
        proof {
            assert(all_digits(digits.take(i - start + 1)));
        }
        val = val * 10 + d;
        i += 1;
    }
    proof {
        assert(digits.take(n - start) =~= digits);
    }
    Some(val)
}

/// `dot_index` of a sequence whose first `.` stands at `k`.
proof fn lemma_dot_index_is(s: Seq<char>, k: int)
    requires
        0 <= k < s.len(),
        s[k] == '.',
        forall|j: int| 0 <= j < k ==> #[trigger] s[j] != '.',
    ensures
        dot_index(s) == Some(k),
{
    lemma_dot_index(s);
    match dot_index(s) {
        Some(i) => {
            if i < k {
                assert(s[i] == '.');
            }
            if i > k {
                assert(s[k] != '.');
            }
        },
        None => {
            assert(s[k] != '.');
        },
    }
}

/// `dot_index` of a sequence with no `.` at all.
proof fn lemma_dot_index_none(s: Seq<char>)
    requires
        forall|j: int| 0 <= j < s.len() ==> #[trigger] s[j] != '.',
    ensures
        dot_index(s) is None,
{
    lemma_dot_index(s);
    match dot_index(s) {
        Some(i) => {
            assert(s[i] != '.');
        },
        None => {},
    }
}

/// Splits a path on `.` into its segments, exactly as [`spec_split`]
/// describes: an empty path yields a single empty segment, and a
/// trailing `.` yields a trailing empty segment.
pub fn split_path(path: &str) -> (segs: Vec<String>)
    ensures
        seg_views(segs@) == spec_split(path@),
        segs@.len() >= 1,
{
    let n = path.unicode_len();
    let mut segs: Vec<String> = Vec::new();
    let mut start: usize = 0;
    let mut i: usize = 0;
    proof {
        assert(path@.skip(0) =~= path@);
        assert(seg_views(segs@) + spec_split(path@) =~= spec_split(path@));
    }
    while i < n
        invariant
            0 <= start <= i <= n == path@.len(),
            spec_split(path@) == seg_views(segs@) + spec_split(path@.skip(start as int)),
            forall|j: int| start <= j < i ==> path@[j] != '.',
        decreases n - i,
    {
        if path.get_char(i) == '.' {
            let piece = path.substring_char(start, i);
            let owned = piece.to_owned();
            proof {
                let rest = path@.skip(start as int);
                assert(forall|j: int|
                    0 <= j < i - start ==> #[trigger] rest[j] == path@[j + start]);
                lemma_dot_index_is(rest, i - start);
                assert(rest.take(i - start) =~= owned@);
                assert(rest.skip(i - start + 1) =~= path@.skip(i + 1));
                assert(seg_views(segs@.push(owned)) =~= seg_views(segs@).push(owned@));
                assert(seg_views(segs@).push(owned@) + spec_split(path@.skip(i + 1))
                    =~= seg_views(segs@) + spec_split(rest));
            }
            segs.push(owned);
            start = i + 1;
        }
        i += 1;
    }
    let piece = path.substring_char(start, n);
    let owned = piece.to_owned();
    proof {
        let rest = path@.skip(start as int);
        assert(forall|j: int| 0 <= j < n - start ==> #[trigger] rest[j] == path@[j + start]);
        lemma_dot_index_none(rest);
        assert(rest =~= owned@);
        assert(seg_views(segs@.push(owned)) =~= seg_views(segs@).push(owned@));
        assert(seg_views(segs@) + spec_split(rest) =~= seg_views(segs@).push(owned@));
    }
    segs.push(owned);
    segs
}

} // verus!
