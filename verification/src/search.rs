//! Substring search over strings, and filtering a collection of strings by
//! whether they contain a needle.

use vstd::prelude::*;
use vstd::string::StrSliceExecFns;
use vstd::string::StringExecFns;

verus! {

/// `needle` occurs in `s` starting at character position `i`.
pub open spec fn occurs_at(s: Seq<char>, needle: Seq<char>, i: int) -> bool {
    0 <= i && i + needle.len() <= s.len() && s.subrange(i, i + needle.len()) == needle
}

/// `needle` occurs somewhere in `s` as a contiguous substring.
pub open spec fn contains_substring(s: Seq<char>, needle: Seq<char>) -> bool {
    exists|i: int| occurs_at(s, needle, i)
}

/// The entries of `hs`, kept in order, that contain `needle`.
pub open spec fn matching(hs: Seq<Seq<char>>, needle: Seq<char>) -> Seq<Seq<char>>
    decreases hs.len(),
{
    if hs.len() == 0 {
        Seq::<Seq<char>>::empty()
    } else if contains_substring(hs.last(), needle) {
        matching(hs.drop_last(), needle).push(hs.last())
    } else {
        matching(hs.drop_last(), needle)
    }
}

/// Checks whether `needle` matches the characters of `s` beginning at
/// character position `i`.
fn match_at(s: &str, needle: &str, i: usize) -> (r: bool)
    requires
        i + needle@.len() <= s@.len(),
    ensures
        r == occurs_at(s@, needle@, i as int),
{
    let n = s.unicode_len();
    let m = needle.unicode_len();
    let mut j: usize = 0;
    while j < m
        invariant
            j <= m,
            n == s@.len(),
            m == needle@.len(),
            i + m <= n,
            forall|t: int| 0 <= t < j ==> s@[i + t] == needle@[t],
        decreases m - j,
    {
        if s.get_char(i + j) != needle.get_char(j) {
            proof {
                if occurs_at(s@, needle@, i as int) {
                    assert(s@.subrange(i as int, i + needle@.len())[j as int] == needle@[j as int]);
                }
            }
            return false;
        }
        j += 1;
    }
    proof {
        assert(s@.subrange(i as int, i + needle@.len()) =~= needle@);
    }
    true
}

/// Decides whether `needle` occurs in `s` as a contiguous substring of its
/// character sequence.
pub fn contains_str(s: &str, needle: &str) -> (r: bool)
    ensures
        r == contains_substring(s@, needle@),
{
    let n = s.unicode_len();
    let m = needle.unicode_len();
    if m == 0 {
        proof {
            assert(s@.subrange(0, 0) =~= needle@);
            assert(occurs_at(s@, needle@, 0));
        }
        return true;
    }
    if m > n {
        proof {
            assert forall|i: int| !occurs_at(s@, needle@, i) by {}
        }
        return false;
    }
    let mut i: usize = 0;
    while i <= n - m
        invariant
            1 <= m <= n,
            n == s@.len(),
            m == needle@.len(),
            i <= n - m + 1,
            forall|t: int| 0 <= t < i ==> !occurs_at(s@, needle@, t),
        decreases n - m + 1 - i,
    {
        if match_at(s, needle, i) {
            return true;
        }
        i += 1;
    }
    proof {
        assert forall|t: int| !occurs_at(s@, needle@, t) by {
            if occurs_at(s@, needle@, t) {
                assert(0 <= t < i);
            }
        }
    }
    false
}

/// Returns the strings of `haystack`, in order, that contain `needle`.
pub fn find_contains(haystack: &[&str], needle: &str) -> (result: Vec<String>)
    ensures
        result@.map_values(|t: String| t@)
            == matching(haystack@.map_values(|s: &str| s@), needle@),
{
    let mut result: Vec<String> = Vec::new();
    let mut idx: usize = 0;
    while idx < haystack.len()
        invariant
            idx <= haystack@.len(),
            result@.map_values(|t: String| t@)
                == matching(haystack@.take(idx as int).map_values(|s: &str| s@), needle@),
        decreases haystack@.len() - idx,
    {
        let ghost pre = haystack@.take(idx as int).map_values(|s: &str| s@);
        let ghost cur = haystack@.take(idx as int + 1).map_values(|s: &str| s@);
        proof {
            assert(cur =~= pre.push(haystack@[idx as int]@));
            assert(cur.drop_last() =~= pre);
            assert(cur.last() == haystack@[idx as int]@);
        }
        let s = haystack[idx];
        if contains_str(s, needle) {
            let owned = s.to_owned();
            let ghost rpre = result@;
            result.push(owned);
            proof {
                assert(result@.map_values(|t: String| t@)
                    =~= rpre.map_values(|t: String| t@).push(owned@));
            }
        }
        idx += 1;
    }
    proof {
        assert(haystack@.take(idx as int) =~= haystack@);
    }
    result
}

} // verus!
