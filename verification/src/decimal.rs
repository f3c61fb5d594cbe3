//! Decimal rendering and parsing of task identifiers.
//!
//! Task ids are decimal strings.  The store renders fresh ids with
//! [`u64_to_dec`] and reads entry names back with [`parse_dec_id`], which
//! accepts exactly the non-empty digit strings whose value fits a signed
//! 64-bit integer.

use vstd::prelude::*;

use crate::text::push_char;

verus! {

/// The character for a single decimal digit.
pub open spec fn digit_char(d: int) -> char {
    if d == 0 { '0' }
    else if d == 1 { '1' }
    else if d == 2 { '2' }
    else if d == 3 { '3' }
    else if d == 4 { '4' }
    else if d == 5 { '5' }
    else if d == 6 { '6' }
    else if d == 7 { '7' }
    else if d == 8 { '8' }
    else { '9' }
}

/// The value of a decimal digit character; 10 for any other character.
pub open spec fn digit_val(c: char) -> int {
    if c == '0' { 0 }
    else if c == '1' { 1 }
    else if c == '2' { 2 }
    else if c == '3' { 3 }
    else if c == '4' { 4 }
    else if c == '5' { 5 }
    else if c == '6' { 6 }
    else if c == '7' { 7 }
    else if c == '8' { 8 }
    else if c == '9' { 9 }
    else { 10 }
}

pub open spec fn is_digit(c: char) -> bool {
    digit_val(c) <= 9
}

/// The canonical decimal rendering of a natural number.
pub open spec fn dec_rec(n: nat) -> Seq<char>
    decreases n,
{
    if n < 10 {
        seq![digit_char(n as int)]
    } else {
        dec_rec(n / 10).push(digit_char((n % 10) as int))
    }
}

/// The value of a digit string, most significant digit first.
pub open spec fn dec_val(s: Seq<char>) -> nat
    decreases s.len(),
{
    if s.len() == 0 {
        0
    } else {
        (dec_val(s.drop_last()) * 10 + digit_val(s.last())) as nat
    }
}

/// A non-empty string of decimal digits.
pub open spec fn is_dec_digits(s: Seq<char>) -> bool {
    s.len() > 0 && forall|i: int| 0 <= i < s.len() ==> is_digit(s[i])
}

/// What [`parse_dec_id`] returns: the value of a non-empty digit string,
/// when that value fits a signed 64-bit integer.
pub open spec fn spec_dec_id(s: Seq<char>) -> Option<u64> {
    if is_dec_digits(s) && dec_val(s) <= 0x7fff_ffff_ffff_ffff {
        Some(dec_val(s) as u64)
    } else {
        None
    }
}

pub proof fn lemma_dec_rec_digits(n: nat)
    ensures
        is_dec_digits(dec_rec(n)),
        dec_rec(n).len() >= 1,
    decreases n,
{
    if n >= 10 {
        lemma_dec_rec_digits(n / 10);
    }
}

/// Rendering then reading a value gives the value back.
pub proof fn lemma_dec_val_of_dec_rec(n: nat)
    ensures
        dec_val(dec_rec(n)) == n,
    decreases n,
{
    if n < 10 {
        assert(dec_rec(n).drop_last() =~= Seq::<char>::empty());
        assert(dec_val(Seq::<char>::empty()) == 0);
        assert(dec_rec(n).last() == digit_char(n as int));
        assert(digit_val(digit_char(n as int)) == n);
        assert(dec_val(dec_rec(n)) == 0 * 10 + digit_val(digit_char(n as int)));
    } else {
        lemma_dec_val_of_dec_rec(n / 10);
        assert(dec_rec(n).drop_last() =~= dec_rec(n / 10));
        assert(dec_rec(n).last() == digit_char((n % 10) as int));
        assert(digit_val(digit_char((n % 10) as int)) == n % 10);
        assert(dec_val(dec_rec(n)) == dec_val(dec_rec(n / 10)) * 10 + (n % 10));
        assert(n / 10 * 10 + n % 10 == n) by (nonlinear_arith);
    }
}

/// Reading more digits never lowers the value.
pub proof fn lemma_dec_val_prefix_le(s: Seq<char>, i: int, j: int)
    requires
        0 <= i <= j <= s.len(),
    ensures
        dec_val(s.take(i)) <= dec_val(s.take(j)),
    decreases j - i,
{
    if i < j {
        lemma_dec_val_prefix_le(s, i, j - 1);
        assert(s.take(j).drop_last() =~= s.take(j - 1));
        assert(dec_val(s.take(j)) == dec_val(s.take(j - 1)) * 10 + digit_val(s.take(j).last()));
        assert(dec_val(s.take(j - 1)) * 10 >= dec_val(s.take(j - 1))) by (nonlinear_arith);
    }
}

/// The character for a digit below ten.
pub fn digit_to_char(d: u64) -> (c: char)
    requires
        d < 10,
    ensures
        c == digit_char(d as int),
{
    if d == 0 { '0' }
    else if d == 1 { '1' }
    else if d == 2 { '2' }
    else if d == 3 { '3' }
    else if d == 4 { '4' }
    else if d == 5 { '5' }
    else if d == 6 { '6' }
    else if d == 7 { '7' }
    else if d == 8 { '8' }
    else { '9' }
}

/// The value of a digit character, if it is one.
pub fn char_to_digit(c: char) -> (r: Option<u64>)
    ensures
        r matches Some(d) ==> is_digit(c) && d == digit_val(c) && d <= 9,
        r is None ==> !is_digit(c),
{
    if c == '0' { Some(0) }
    else if c == '1' { Some(1) }
    else if c == '2' { Some(2) }
    else if c == '3' { Some(3) }
    else if c == '4' { Some(4) }
    else if c == '5' { Some(5) }
    else if c == '6' { Some(6) }
    else if c == '7' { Some(7) }
    else if c == '8' { Some(8) }
    else if c == '9' { Some(9) }
    else { None }
}

/// The canonical decimal rendering of a 64-bit value.
pub fn u64_to_dec(n: u64) -> (r: String)
    ensures
        r@ == dec_rec(n as nat),
    decreases n,
{
    if n < 10 {
        let mut s = String::new();
        push_char(&mut s, digit_to_char(n));
        s
    } else {
        let mut s = u64_to_dec(n / 10);
        push_char(&mut s, digit_to_char(n % 10));
        s
    }
}

/// Reads a non-empty digit string whose value fits a signed 64-bit integer.
pub fn parse_dec_id(s: &str) -> (r: Option<u64>)
    ensures
        r == spec_dec_id(s@),
{
    let len = s.unicode_len();
    if len == 0 {
        return None;
    }
    let mut acc: u64 = 0;
    let mut i: usize = 0;
    while i < len
        invariant
            0 <= i <= len,
            len == s@.len(),
            forall|k: int| 0 <= k < i ==> is_digit(s@[k]),
            acc == dec_val(s@.take(i as int)),
            acc <= 0x7fff_ffff_ffff_ffff,
        decreases len - i,
    {
        let c = s.get_char(i);
        match char_to_digit(c) {
            None => {
                return None;
            },
            Some(d) => {
                if acc > (0x7fff_ffff_ffff_ffff - d) / 10 {
                    proof {
                        assert(s@.take(i + 1).drop_last() =~= s@.take(i as int));
                        assert(dec_val(s@.take(i + 1)) == acc * 10 + d);
                        assert(acc * 10 + d > 0x7fff_ffff_ffff_ffff) by (nonlinear_arith)
                            requires
                                acc > (0x7fff_ffff_ffff_ffff - d) / 10,
                                d <= 9,
                                acc <= 0x7fff_ffff_ffff_ffff,
                        ;
                        lemma_dec_val_prefix_le(s@, i + 1, s@.len() as int);
                        assert(s@.take(s@.len() as int) =~= s@);
                    }
                    return None;
                }
                proof {
                    assert(acc * 10 + d <= 0x7fff_ffff_ffff_ffff) by (nonlinear_arith)
                        requires
                            acc <= (0x7fff_ffff_ffff_ffff - d) / 10,
                            d <= 9,
                    ;
                    assert(s@.take(i + 1).drop_last() =~= s@.take(i as int));
                }
                acc = acc * 10 + d;
            },
        }
        i = i + 1;
    }
    proof {
        assert(s@.take(len as int) =~= s@);
    }
    Some(acc)
}

} // verus!
