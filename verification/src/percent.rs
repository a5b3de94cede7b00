//! Fixed-point percentages.
//!
//! Source feeds carry turnout and vote-share fields either as bare numbers
//! or as quoted strings, sometimes padded with spaces (`42.5`, `"42.5"`,
//! `" 42.5 "`). All of them must coerce to the same numeric value. To keep
//! the arithmetic exact, a percentage is held as a whole number of
//! *hundredths of a percent*: `42.5%` is `4250`. Fraction digits beyond the
//! second are truncated toward zero.

use vstd::arithmetic::div_mod::{lemma_div_by_multiple, lemma_div_is_ordered};
use vstd::prelude::*;
use vstd::string::StrSliceExecFns;

verus! {

/// Characters stripped from both ends of a raw field before parsing:
/// the space padding and the stray double quotes of quoted numerics.
pub open spec fn is_trim_char(c: char) -> bool {
    c == ' ' || c == '"'
}

/// A decimal digit.
pub open spec fn is_digit(c: char) -> bool {
    48 <= c as u32 <= 57
}

/// Numeric value of a decimal digit.
pub open spec fn digit_val(c: char) -> int {
    c as u32 - 48
}

pub open spec fn all_digits(s: Seq<char>) -> bool {
    forall|i: int| 0 <= i < s.len() ==> is_digit(#[trigger] s[i])
}

/// The sequence with leading trim characters removed.
pub open spec fn spec_trim_start(s: Seq<char>) -> Seq<char>
    decreases s.len(),
{
    if s.len() > 0 && is_trim_char(s.first()) {
        spec_trim_start(s.drop_first())
    } else {
        s
    }
}

/// The sequence with trailing trim characters removed.
pub open spec fn spec_trim_end(s: Seq<char>) -> Seq<char>
    decreases s.len(),
{
    if s.len() > 0 && is_trim_char(s.last()) {
        spec_trim_end(s.drop_last())
    } else {
        s
    }
}

/// The sequence with trim characters removed from both ends.
pub open spec fn spec_trim(s: Seq<char>) -> Seq<char> {
    spec_trim_end(spec_trim_start(s))
}

/// Index of the first `'.'`, or `s.len()` if there is none.
pub open spec fn spec_first_dot(s: Seq<char>) -> int
    decreases s.len(),
{
    if s.len() == 0 {
        0
    } else if s.first() == '.' {
        0
    } else {
        1 + spec_first_dot(s.drop_first())
    }
}

/// Value of a digit string read in base ten.
pub open spec fn digits_val(s: Seq<char>) -> int
    decreases s.len(),
{
    if s.len() == 0 {
        0
    } else {
        digits_val(s.drop_last()) * 10 + digit_val(s.last())
    }
}

/// Hundredths contributed by the fraction digits: the first two count,
/// the rest are truncated.
pub open spec fn frac_hundredths(s: Seq<char>) -> int {
    if s.len() == 0 {
        0
    } else if s.len() == 1 {
        digit_val(s[0]) * 10
    } else {
        digit_val(s[0]) * 10 + digit_val(s[1])
    }
}

/// What the coercion accepts and what it yields, in hundredths of a percent.
///
/// After trimming, the token must be unsigned decimal digits with at most
/// one `'.'` and at least one digit (`42`, `42.5`, `.5`, `5.`). Anything
/// else — or a value past `u32::MAX` hundredths — is a malformed field.
pub open spec fn spec_parse_percent(s: Seq<char>) -> Option<u32> {
    let t = spec_trim(s);
    let d = spec_first_dot(t);
    let int_part = t.take(d);
    let frac_part = if d < t.len() {
        t.skip(d + 1)
    } else {
        Seq::<char>::empty()
    };
    if all_digits(int_part) && all_digits(frac_part) && int_part.len() + frac_part.len() >= 1 {
        let v = digits_val(int_part) * 100 + frac_hundredths(frac_part);
        if v <= u32::MAX {
            Some(v as u32)
        } else {
            None
        }
    } else {
        None
    }
}

proof fn lemma_digits_val_nonneg(s: Seq<char>)
    requires
        all_digits(s),
    ensures
        digits_val(s) >= 0,
    decreases s.len(),
{
    if s.len() > 0 {
        assert(all_digits(s.drop_last()));
        lemma_digits_val_nonneg(s.drop_last());
    }
}

/// Reading more digits can only grow the value.
proof fn lemma_digits_val_take_le(s: Seq<char>, i: int)
    requires
        all_digits(s),
        0 <= i <= s.len(),
    ensures
        digits_val(s.take(i)) <= digits_val(s),
    decreases s.len() - i,
{
    if i == s.len() {
        assert(s.take(i) =~= s);
    } else {
        assert(s.take(i + 1).drop_last() =~= s.take(i));
        assert(all_digits(s.take(i)));
        lemma_digits_val_nonneg(s.take(i));
        assert(digits_val(s.take(i + 1)) == digits_val(s.take(i)) * 10 + digit_val(s[i]));
        lemma_digits_val_take_le(s, i + 1);
    }
}

proof fn lemma_frac_hundredths_bounds(s: Seq<char>)
    requires
        all_digits(s),
    ensures
        0 <= frac_hundredths(s) <= 99,
{
    if s.len() == 1 {
        assert(is_digit(s[0]));
    } else if s.len() >= 2 {
        assert(is_digit(s[0]));
        assert(is_digit(s[1]));
    }
}

proof fn lemma_trim_start_skip(s: Seq<char>, i: int)
    requires
        0 <= i <= s.len(),
        forall|k: int| 0 <= k < i ==> is_trim_char(#[trigger] s[k]),
        i == s.len() || !is_trim_char(s[i]),
    ensures
        spec_trim_start(s) == s.skip(i),
    decreases i,
{
    if i == 0 {
        assert(s.skip(0) =~= s);
    } else {
        assert(is_trim_char(s.first()));
        assert forall|k: int| 0 <= k < i - 1 implies is_trim_char(
            #[trigger] s.drop_first()[k],
        ) by {
            assert(s.drop_first()[k] == s[k + 1]);
        }
        lemma_trim_start_skip(s.drop_first(), i - 1);
        assert(s.drop_first().skip(i - 1) =~= s.skip(i));
    }
}

proof fn lemma_trim_end_take(s: Seq<char>, j: int)
    requires
        0 <= j <= s.len(),
        forall|k: int| j <= k < s.len() ==> is_trim_char(#[trigger] s[k]),
        j == 0 || !is_trim_char(s[j - 1]),
    ensures
        spec_trim_end(s) == s.take(j),
    decreases s.len() - j,
{
    if j == s.len() {
        assert(s.take(j) =~= s);
    } else {
        assert(is_trim_char(s.last()));
        assert forall|k: int| j <= k < s.len() - 1 implies is_trim_char(
            #[trigger] s.drop_last()[k],
        ) by {
            assert(s.drop_last()[k] == s[k]);
        }
        lemma_trim_end_take(s.drop_last(), j);
        assert(s.drop_last().take(j) =~= s.take(j));
    }
}

proof fn lemma_first_dot_at(s: Seq<char>, i: int)
    requires
        0 <= i <= s.len(),
        forall|k: int| 0 <= k < i ==> #[trigger] s[k] != '.',
        i == s.len() || s[i] == '.',
    ensures
        spec_first_dot(s) == i,
    decreases i,
{
    if i > 0 {
        assert(s.first() != '.');
        assert forall|k: int| 0 <= k < i - 1 implies #[trigger] s.drop_first()[k] != '.' by {
            assert(s.drop_first()[k] == s[k + 1]);
        }
        lemma_first_dot_at(s.drop_first(), i - 1);
    }
}

/// True when the character at `i` is trimmed away before parsing.
fn trim_char_at(s: &str, i: usize) -> (b: bool)
    requires
        i < s@.len(),
    ensures
        b == is_trim_char(s@[i as int]),
{
    let c = s.get_char(i);
    c == ' ' || c == '"'
}

/// Coerce a raw turnout or vote-share field to hundredths of a percent.
///
/// Accepts the bare, quoted and space-padded encodings of the same number
/// and returns the same value for each; returns `None` on a malformed field.
#[verifier::loop_isolation(false)]
#[verifier::rlimit(60)]
pub fn parse_percent(s: &str) -> (r: Option<u32>)
    ensures
        r == spec_parse_percent(s@),
{
    let n: usize = s.unicode_len();

    let mut start: usize = 0;
    while start < n && trim_char_at(s, start)
        invariant
            0 <= start <= n,
            forall|k: int| 0 <= k < start ==> is_trim_char(#[trigger] s@[k]),
        decreases n - start,
    {
        start = start + 1;
    }
    proof {
        lemma_trim_start_skip(s@, start as int);
    }

    let mut end: usize = n;
    while end > start && trim_char_at(s, end - 1)
        invariant
            start <= end <= n,
            forall|k: int| end <= k < n ==> is_trim_char(#[trigger] s@[k]),
        decreases end,
    {
        end = end - 1;
    }
    let ghost t: Seq<char> = s@.subrange(start as int, end as int);
    proof {
        let rest = s@.skip(start as int);
        assert forall|k: int| end - start <= k < rest.len() implies is_trim_char(
            #[trigger] rest[k],
        ) by {
            assert(rest[k] == s@[k + start]);
        }
        if end > start {
            assert(rest[end - start - 1] == s@[end - 1]);
        }
        lemma_trim_end_take(rest, end - start);
        assert(rest.take(end - start) =~= t);
        assert(spec_trim(s@) == t);
    }

    let mut dot: usize = start;
    while dot < end && s.get_char(dot) != '.'
        invariant
            start <= dot <= end,
            forall|k: int| 0 <= k < dot - start ==> #[trigger] t[k] != '.',
        decreases end - dot,
    {
        proof {
            assert(t[dot - start] == s@[dot as int]);
        }
        dot = dot + 1;
    }
    proof {
        if dot < end {
            assert(t[dot - start] == s@[dot as int]);
        }
        lemma_first_dot_at(t, dot - start);
    }
    let ghost int_part: Seq<char> = t.take(dot - start);
    let ghost frac_part: Seq<char> = if dot < end {
        t.skip(dot - start + 1)
    } else {
        Seq::<char>::empty()
    };

    // Integer part: check digits and accumulate, bailing out once the
    // value can no longer fit.
    let mut acc: u64 = 0;
    let mut k: usize = start;
    while k < dot
        invariant
            start <= k <= dot,
            all_digits(int_part.take(k - start)),
            acc as int == digits_val(int_part.take(k - start)),
            acc <= u32::MAX as u64,
        decreases dot - k,
    {
        let u: u32 = s.get_char(k) as u32;
        proof {
            assert(int_part[k - start] == s@[k as int]);
            assert(int_part.take(k - start + 1).drop_last() =~= int_part.take(k - start));
        }
        if !(48 <= u && u <= 57) {
            proof {
                assert(!is_digit(int_part[k - start]));
            }
            return None;
        }
        let acc2: u64 = acc * 10 + (u - 48) as u64;
        if acc2 > u32::MAX as u64 {
            proof {
                assert(all_digits(int_part.take(k - start + 1)));
                assert(digits_val(int_part.take(k - start + 1)) == acc2 as int);
                if all_digits(int_part) && all_digits(frac_part) {
                    lemma_digits_val_take_le(int_part, k - start + 1);
                    lemma_frac_hundredths_bounds(frac_part);
                }
            }
            return None;
        }
        acc = acc2;
        k = k + 1;
    }
    proof {
        assert(int_part.take(dot - start) =~= int_part);
    }

    // Fraction part: every character must be a digit; only the first two
    // contribute to the value.
    let mut f: u64 = 0;
    if dot < end {
        let mut j: usize = dot + 1;
        while j < end
            invariant
                dot + 1 <= j <= end,
                all_digits(frac_part.take(j - dot - 1)),
                f as int == frac_hundredths(frac_part.take(j - dot - 1)),
                f <= 99,
            decreases end - j,
        {
            let u: u32 = s.get_char(j) as u32;
            proof {
                assert(frac_part[j - dot - 1] == s@[j as int]);
                assert(frac_part.take(j - dot).drop_last() =~= frac_part.take(j - dot - 1));
                assert(frac_part.take(j - dot).last() == s@[j as int]);
            }
            if !(48 <= u && u <= 57) {
                proof {
                    assert(!is_digit(frac_part[j - dot - 1]));
                }
                return None;
            }
            if j == dot + 1 {
                f = ((u - 48) * 10) as u64;
            } else if j == dot + 2 {
                f = f + (u - 48) as u64;
            }
            j = j + 1;
        }
        proof {
            assert(frac_part.take(end - dot - 1) =~= frac_part);
        }
    }

    if dot == start && (dot == end || dot + 1 == end) {
        // Not a single digit on either side of the (possible) dot.
        return None;
    }

    let v: u64 = acc * 100 + f;
    if v > u32::MAX as u64 {
        return None;
    }
    Some(v as u32)
}

/// Share of the total, in hundredths of a percent, rounded toward zero.
///
/// This is the downstream computation a consumer runs on a candidate's
/// vote count against a snapshot's total: 600 of 1000 votes is `6000`,
/// read as `60.00%`.
pub fn percent_of(votes: u32, total_votes: i64) -> (r: u32)
    requires
        0 < total_votes,
        votes as int <= total_votes as int,
    ensures
        r == votes as int * 10000 / total_votes as int,
        r <= 10000,
{
    let num: u64 = votes as u64 * 10000;
    let den: u64 = total_votes as u64;
    let q: u64 = num / den;
    proof {
        lemma_div_is_ordered(num as int, total_votes as int * 10000, total_votes as int);
        lemma_div_by_multiple(10000, total_votes as int);
    }
    q as u32
}

} // verus!
