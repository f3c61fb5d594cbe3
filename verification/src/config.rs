//! Configuration-surface helpers: how a user-supplied `task.ref` value is
//! normalised to a full reference name.

use vstd::prelude::*;

use crate::text::push_char;
use vstd::string::{StrSliceExecFns, StringExecFns};

verus! {

/// How many slashes a value holds.
pub open spec fn count_slashes(s: Seq<char>) -> nat
    decreases s.len(),
{
    if s.len() == 0 {
        0
    } else {
        count_slashes(s.drop_last()) + (if s.last() == '/' {
            1nat
        } else {
            0nat
        })
    }
}

/// The normalised reference name: a bare word goes under `refs/heads/`, a
/// single inner slash goes under `refs/`, anything else is taken verbatim.
pub open spec fn normalize_ref_spec(v: Seq<char>) -> Seq<char> {
    if count_slashes(v) == 0 {
        "refs/heads/"@ + v
    } else if count_slashes(v) == 1 && v[0] != '/' && v.last() != '/' {
        "refs/"@ + v
    } else {
        v
    }
}

/// Normalises a user-supplied `task.ref` value to a reference name.
pub fn normalize_ref_path(value: &str) -> (r: String)
    ensures
        r@ == normalize_ref_spec(value@),
{
    let n = value.unicode_len();
    let mut slashes: u64 = 0;
    let mut i: usize = 0;
    while i < n
        invariant
            0 <= i <= n,
            n == value@.len(),
            slashes == count_slashes(value@.take(i as int)),
            slashes <= i,
        decreases n - i,
    {
        if value.get_char(i) == '/' {
            slashes = slashes + 1;
        }
        proof {
            assert(value@.take(i + 1).drop_last() =~= value@.take(i as int));
            assert(value@.take(i + 1).last() == value@[i as int]);
        }
        i = i + 1;
    }
    proof {
        assert(value@.take(n as int) =~= value@);
    }
    if slashes == 0 {
        String::from_str("refs/heads/").concat(value)
    } else if slashes == 1 && value.get_char(0) != '/' && value.get_char(n - 1) != '/' {
        String::from_str("refs/").concat(value)
    } else {
        value.to_owned()
    }
}

} // verus!
