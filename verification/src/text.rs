//! Small verified text helpers shared by the store and the resolver.

use vstd::prelude::*;

verus! {

/// Character-by-character equality of two string slices.
pub fn str_eq(a: &str, b: &str) -> (r: bool)
    ensures
        r == (a@ == b@),
{
    let alen = a.unicode_len();
    let blen = b.unicode_len();
    if alen != blen {
        return false;
    }
    let mut i: usize = 0;
    while i < alen
        invariant
            i <= alen,
            alen == a@.len(),
            blen == b@.len(),
            alen == blen,
            forall|j: int| 0 <= j < i ==> a@[j] == b@[j],
        decreases alen - i,
    {
        if a.get_char(i) != b.get_char(i) {
            return false;
        }
        i = i + 1;
    }
    proof {
        assert(a@ =~= b@);
    }
    true
}

/// Lexicographic order over character sequences, by code point: a
/// proper prefix comes first, otherwise the first differing character
/// decides.
pub open spec fn lex_lt(x: Seq<char>, y: Seq<char>) -> bool
    decreases x.len(),
{
    if y.len() == 0 {
        false
    } else if x.len() == 0 {
        true
    } else if (x[0] as u32) < (y[0] as u32) {
        true
    } else if (x[0] as u32) > (y[0] as u32) {
        false
    } else {
        lex_lt(x.skip(1), y.skip(1))
    }
}

/// Compares the suffixes of two string slices from character
/// position `i` on.
fn str_lt_at(x: &str, y: &str, i: usize) -> (r: bool)
    requires
        i <= x@.len(),
        i <= y@.len(),
    ensures
        r == lex_lt(x@.skip(i as int), y@.skip(i as int)),
    decreases x@.len() - i,
{
    let xlen = x.unicode_len();
    let ylen = y.unicode_len();
    if i == ylen {
        false
    } else if i == xlen {
        true
    } else {
        let cx = x.get_char(i);
        let cy = y.get_char(i);
        proof {
            assert(x@.skip(i as int)[0] == x@[i as int]);
            assert(y@.skip(i as int)[0] == y@[i as int]);
            assert(x@.skip(i as int).skip(1) =~= x@.skip(i + 1));
            assert(y@.skip(i as int).skip(1) =~= y@.skip(i + 1));
        }
        if (cx as u32) < (cy as u32) {
            true
        } else if (cx as u32) > (cy as u32) {
            false
        } else {
            str_lt_at(x, y, i + 1)
        }
    }
}

/// Lexicographic comparison of two string slices.
pub fn str_lt(x: &str, y: &str) -> (r: bool)
    ensures
        r == lex_lt(x@, y@),
{
    proof {
        assert(x@.skip(0) =~= x@);
        assert(y@.skip(0) =~= y@);
    }
    str_lt_at(x, y, 0)
}

/// The decimal digit sequence of `n`, most significant digit first.
pub open spec fn dec_digits(n: nat) -> Seq<char>
    decreases n,
{
    if n < 10 {
        seq![digit_char(n)]
    } else {
        dec_digits(n / 10).push(digit_char(n % 10))
    }
}

/// The character for a single decimal digit.
pub open spec fn digit_char(d: nat) -> char {
    if d == 0 {
        '0'
    } else if d == 1 {
        '1'
    } else if d == 2 {
        '2'
    } else if d == 3 {
        '3'
    } else if d == 4 {
        '4'
    } else if d == 5 {
        '5'
    } else if d == 6 {
        '6'
    } else if d == 7 {
        '7'
    } else if d == 8 {
        '8'
    } else {
        '9'
    }
}

/// A one-character string slice for a single decimal digit.
fn digit_str(d: u32) -> (r: &'static str)
    requires
        d < 10,
    ensures
        r@ == seq![digit_char(d as nat)],
{
    proof {
        reveal_strlit("0");
        reveal_strlit("1");
        reveal_strlit("2");
        reveal_strlit("3");
        reveal_strlit("4");
        reveal_strlit("5");
        reveal_strlit("6");
        reveal_strlit("7");
        reveal_strlit("8");
        reveal_strlit("9");
    }
    match d {
        0 => "0",
        1 => "1",
        2 => "2",
        3 => "3",
        4 => "4",
        5 => "5",
        6 => "6",
        7 => "7",
        8 => "8",
        _ => "9",
    }
}

/// Renders `n` in decimal.
pub fn u32_to_decimal(n: u32) -> (s: String)
    ensures
        s@ == dec_digits(n as nat),
    decreases n,
{
    if n < 10 {
        String::from_str(digit_str(n))
    } else {
        let mut s = u32_to_decimal(n / 10);
        s.append(digit_str(n % 10));
        s
    }
}

} // verus!
