//! Party preference inference.
//!
//! The source feed carries party preference as free text such as
//! `"Prefers Democratic Party"`. Classification is a deliberately lossy
//! normalization: a case-insensitive substring match for `democrat` or
//! `republican`, in that order of precedence; anything else — including an
//! absent field — is *not affiliated*, never an error.

use vstd::prelude::*;
use vstd::string::StrSliceExecFns;

verus! {

/// A candidate's normalized party preference.
#[derive(Clone, Copy, Debug, PartialEq, Eq, Structural)]
pub enum PartyPreference {
    Democrat,
    Republican,
    NotAffiliated,
}

/// Character code with ASCII letters folded to lower case.
pub open spec fn lower_code(c: char) -> int {
    if 65 <= c as u32 <= 90 {
        c as u32 + 32
    } else {
        c as u32 as int
    }
}

/// The needle occurs at position `k` of `text`, ignoring ASCII case.
pub open spec fn match_ci_at(text: Seq<char>, needle: Seq<char>, k: int) -> bool {
    forall|i: int| 0 <= i < needle.len() ==> lower_code(text[k + i]) == lower_code(
        #[trigger] needle[i],
    )
}

/// The needle occurs somewhere in `text`, ignoring ASCII case.
pub open spec fn contains_ci(text: Seq<char>, needle: Seq<char>) -> bool {
    exists|k: int| 0 <= k <= text.len() - needle.len() && #[trigger] match_ci_at(
        text,
        needle,
        k,
    )
}

/// How free text classifies: `democrat` wins over `republican`, and
/// unrecognized text falls back to `NotAffiliated`.
pub open spec fn spec_classify(s: Seq<char>) -> PartyPreference {
    if contains_ci(s, "democrat"@) {
        PartyPreference::Democrat
    } else if contains_ci(s, "republican"@) {
        PartyPreference::Republican
    } else {
        PartyPreference::NotAffiliated
    }
}

/// Classification of an optional field: an absent field is `NotAffiliated`.
pub open spec fn spec_classify_opt(s: Option<Seq<char>>) -> PartyPreference {
    match s {
        Option::None => PartyPreference::NotAffiliated,
        Option::Some(t) => spec_classify(t),
    }
}

/// Character code with ASCII letters folded to lower case.
fn lower_code_at(s: &str, i: usize) -> (r: u32)
    requires
        i < s@.len(),
    ensures
        r == lower_code(s@[i as int]),
{
    let u: u32 = s.get_char(i) as u32;
    if 65 <= u && u <= 90 {
        u + 32
    } else {
        u
    }
}

/// Case-insensitive substring search.
#[verifier::loop_isolation(false)]
fn contains_ci_exec(text: &str, needle: &str) -> (b: bool)
    ensures
        b == contains_ci(text@, needle@),
{
    let n: usize = text.unicode_len();
    let m: usize = needle.unicode_len();
    if m > n {
        return false;
    }
    let mut k: usize = 0;
    while k <= n - m
        invariant
            m <= n,
            0 <= k <= n - m + 1,
            forall|kk: int| 0 <= kk < k ==> !match_ci_at(text@, needle@, kk),
        decreases n - m + 1 - k,
    {
        let mut i: usize = 0;
        while i < m && lower_code_at(text, k + i) == lower_code_at(needle, i)
            invariant
                0 <= i <= m,
                k + m <= n,
                forall|ii: int| 0 <= ii < i ==> lower_code(text@[k + ii]) == lower_code(
                    #[trigger] needle@[ii],
                ),
            decreases m - i,
        {
            i = i + 1;
        }
        if i == m {
            proof {
                assert(match_ci_at(text@, needle@, k as int));
            }
            return true;
        }
        proof {
            assert(lower_code(text@[k + i]) != lower_code(needle@[i as int]));
            assert(!match_ci_at(text@, needle@, k as int));
        }
        k = k + 1;
    }
    false
}

impl PartyPreference {
    /// Classify a free-text party preference field.
    pub fn classify(s: &str) -> (p: PartyPreference)
        ensures
            p == spec_classify(s@),
    {
        if contains_ci_exec(s, "democrat") {
            PartyPreference::Democrat
        } else if contains_ci_exec(s, "republican") {
            PartyPreference::Republican
        } else {
            PartyPreference::NotAffiliated
        }
    }

    /// Classify the optional party preference field of a source record.
    pub fn classify_opt(s: &Option<String>) -> (p: PartyPreference)
        ensures
            p == spec_classify_opt(s.deep_view()),
    {
        match s {
            Option::None => PartyPreference::NotAffiliated,
            Option::Some(t) => PartyPreference::classify(t.as_str()),
        }
    }
}

} // verus!
