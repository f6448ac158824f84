//! Text helpers shared by the whole pipeline: the bridge between `String`
//! values and verified sequences of characters, and the rendering of
//! integers as decimal digit strings.

use vstd::prelude::*;

verus! {

/// Relies on str::chars: iterating a string slice yields exactly the
/// characters of its view, in order.
#[verifier::external_body]
pub fn str_to_chars(s: &str) -> (r: Vec<char>)
    ensures
        r@ == s@,
{
    s.chars().collect()
}

/// Relies on the FromIterator impl of String: collecting characters builds
/// the string whose view is exactly that character sequence.
#[verifier::external_body]
pub fn chars_to_string(v: &Vec<char>) -> (r: String)
    ensures
        r@ == v@,
{
    v.iter().collect()
}

/// Relies on the PartialEq impl of str: two string slices compare equal
/// exactly when they consist of the same characters.
#[verifier::external_body]
pub fn str_eq(a: &str, b: &str) -> (r: bool)
    ensures
        r == (a@ == b@),
{
    a == b
}

/// Relies on Rc::clone: the new handle carries the same shared value.
#[verifier::external_body]
pub fn rc_dup<T>(rc: &std::rc::Rc<T>) -> (r: std::rc::Rc<T>)
    ensures
        r == *rc,
{
    std::rc::Rc::clone(rc)
}

/// The decimal digit character for `d`; returns `'0'` out of range.
pub open spec fn digit_char(d: int) -> char {
    if d == 1 {
        '1'
    } else if d == 2 {
        '2'
    } else if d == 3 {
        '3'
    } else if d == 4 {
        '4'
    } else if d == 5 {
        '5'
    } else if d == 6 {
        '6'
    } else if d == 7 {
        '7'
    } else if d == 8 {
        '8'
    } else if d == 9 {
        '9'
    } else {
        '0'
    }
}

/// The decimal digit characters of `n`, most significant first, with no
/// leading zeros (`0` itself is the single character `'0'`).
pub open spec fn digits_of(n: nat) -> Seq<char>
    decreases n,
{
    if n < 10 {
        seq![digit_char(n as int)]
    } else {
        digits_of(n / 10) + seq![digit_char((n % 10) as int)]
    }
}

/// The decimal rendering of an integer: a minus sign for negative values,
/// then the digits of the magnitude.
pub open spec fn int_chars(i: int) -> Seq<char> {
    if i < 0 {
        seq!['-'] + digits_of((-i) as nat)
    } else {
        digits_of(i as nat)
    }
}

fn digit_to_char(d: u64) -> (c: char)
    requires
        d < 10,
    ensures
        c == digit_char(d as int),
{
    if d == 1 {
        '1'
    } else if d == 2 {
        '2'
    } else if d == 3 {
        '3'
    } else if d == 4 {
        '4'
    } else if d == 5 {
        '5'
    } else if d == 6 {
        '6'
    } else if d == 7 {
        '7'
    } else if d == 8 {
        '8'
    } else if d == 9 {
        '9'
    } else {
        '0'
    }
}

/// The decimal digit characters of `n`, most significant first.
pub fn u64_digits(n: u64) -> (r: Vec<char>)
    ensures
        r@ == digits_of(n as nat),
{
    let mut v: Vec<char> = Vec::new();
    if n == 0 {
        v.push('0');
        assert(v@ =~= digits_of(0));
        return v;
    }
    let mut x = n;
    while x > 0
        invariant
            x > 0 ==> digits_of(n as nat) == digits_of(x as nat) + v@,
            x == 0 ==> digits_of(n as nat) == v@,
        decreases x,
    {
        let d = x % 10;
        let c = digit_to_char(d);
        proof {
            if x >= 10 {
                assert(digits_of(x as nat) == digits_of((x as nat) / 10) + seq![
                    digit_char((x % 10) as int),
                ]);
            } else {
                assert(digits_of(x as nat) == seq![digit_char(x as int)]);
            }
        }
        let ghost old_v = v@;
        v.insert(0, c);
        assert(v@ =~= seq![c] + old_v);
        x = x / 10;
        proof {
            if x > 0 {
                assert(digits_of(n as nat) =~= digits_of(x as nat) + v@);
            } else {
                assert(digits_of(n as nat) =~= v@);
            }
        }
    }
    v
}

/// The decimal digit characters of a signed value, sign included.
pub fn i64_chars(i: i64) -> (r: Vec<char>)
    ensures
        r@ == int_chars(i as int),
{
    if i < 0 {
        let mag: u64 = (-(i as i128)) as u64;
        let ds = u64_digits(mag);
        let mut v: Vec<char> = Vec::new();
        v.push('-');
        let mut k: usize = 0;
        while k < ds.len()
            invariant
                k <= ds@.len(),
                v@ == seq!['-'] + ds@.subrange(0, k as int),
            decreases ds@.len() - k,
        {
            let ghost old_v = v@;
            v.push(ds[k]);
            k = k + 1;
            assert(v@ =~= seq!['-'] + ds@.subrange(0, k as int));
        }
        assert(ds@.subrange(0, ds@.len() as int) =~= ds@);
        v
    } else {
        u64_digits(i as u64)
    }
}

/// The decimal rendering of a signed 64-bit integer.
pub fn i64_to_string(i: i64) -> (r: String)
    ensures
        r@ == int_chars(i as int),
{
    let v = i64_chars(i);
    chars_to_string(&v)
}

} // verus!
