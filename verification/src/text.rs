//! Small trusted bridges to std's string operations, and a generic
//! first-match search used across the crate.

use vstd::prelude::*;

verus! {

/// Relies on `String::push`: appends the character to the end of the string.
#[verifier::external_body]
pub fn push_char(s: &mut String, c: char)
    ensures
        final(s)@ == old(s)@.push(c),
{
    s.push(c)
}

/// Relies on `str`'s `PartialEq`: two string slices are equal exactly when
/// their character sequences are equal.
#[verifier::external_body]
pub fn str_eq(a: &str, b: &str) -> (r: bool)
    ensures
        r == (a@ == b@),
{
    a == b
}

/// The index of the first element satisfying `p`, or -1 when none does.
pub open spec fn find_first<T>(s: Seq<T>, p: spec_fn(T) -> bool) -> int
    decreases s.len(),
{
    if s.len() == 0 {
        -1
    } else if p(s[0]) {
        0
    } else {
        let r = find_first(s.drop_first(), p);
        if r < 0 {
            -1
        } else {
            r + 1
        }
    }
}

pub proof fn lemma_find_first<T>(s: Seq<T>, p: spec_fn(T) -> bool)
    ensures
        find_first(s, p) == -1 ==> forall|k: int| 0 <= k < s.len() ==> !p(s[k]),
        find_first(s, p) >= 0 ==> 0 <= find_first(s, p) < s.len() && p(s[find_first(s, p)])
            && forall|k: int| 0 <= k < find_first(s, p) ==> !p(s[k]),
    decreases s.len(),
{
    if s.len() > 0 && !p(s[0]) {
        let t = s.drop_first();
        lemma_find_first(t, p);
        let r = find_first(t, p);
        if r < 0 {
            assert forall|k: int| 0 <= k < s.len() implies !p(s[k]) by {
                if k > 0 {
                    assert(t[k - 1] == s[k]);
                    assert(!p(t[k - 1]));
                }
            }
        } else {
            assert(t[r] == s[r + 1]);
            assert forall|k: int| 0 <= k < r + 1 implies !p(s[k]) by {
                if k > 0 {
                    assert(t[k - 1] == s[k]);
                    assert(!p(t[k - 1]));
                }
            }
        }
    }
}

/// A search that saw no match up to `i`, and a match at `i` if `i` is in
/// range, pins the first-match index down.
pub proof fn lemma_find_first_at<T>(s: Seq<T>, p: spec_fn(T) -> bool, i: int)
    requires
        0 <= i <= s.len(),
        forall|k: int| 0 <= k < i ==> !p(s[k]),
        i < s.len() ==> p(s[i]),
    ensures
        find_first(s, p) == if i < s.len() { i } else { -1 },
    decreases s.len(),
{
    if s.len() > 0 {
        if i == 0 {
            if !p(s[0]) {
                lemma_find_first_at(s.drop_first(), p, 0);
            }
        } else {
            assert(!p(s[0]));
            assert(forall|k: int| 0 <= k < s.drop_first().len() ==> s.drop_first()[k] == s[k + 1]);
            lemma_find_first_at(s.drop_first(), p, i - 1);
        }
    }
}

} // verus!
