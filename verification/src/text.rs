//! Building messages: appending text and decimal numbers to a `String`.

use vstd::prelude::*;

verus! {

/// `String::push` appends one character.
pub assume_specification[ String::push ](s: &mut String, ch: char)
    ensures
        final(s)@ == old(s)@.push(ch),
;

/// `String::push_str` appends the characters of a string slice.
pub assume_specification[ String::push_str ](s: &mut String, string: &str)
    ensures
        final(s)@ == old(s)@ + string@,
;

/// The character of a decimal digit.
pub open spec fn digit_char(d: nat) -> char {
    (d + 48) as char
}

/// The decimal digits of `n`, most significant first, without leading zeros
/// (`0` is written as one digit).
pub open spec fn decimal(n: nat) -> Seq<char>
    decreases n,
{
    if n < 10 {
        seq![digit_char(n)]
    } else {
        decimal(n / 10).push(digit_char(n % 10))
    }
}

/// Appends the decimal digits of `n` to `s`.
pub fn push_decimal(s: &mut String, n: usize)
    ensures
        final(s)@ == old(s)@ + decimal(n as nat),
{
    // The digits, least significant first.
    let mut digits: Vec<char> = Vec::new();
    let mut m: usize = n;
    while m >= 10
        invariant
            decimal(n as nat) == decimal(m as nat) + digits@.reverse(),
        decreases m,
    {
        let d: usize = m % 10;
        let c: char = ((d as u8) + 48u8) as char;
        proof {
            assert(c == digit_char(d as nat));
            let old_digits = digits@;
            assert(decimal(m as nat) == decimal((m / 10) as nat).push(c));
            assert(old_digits.push(c).reverse() =~= seq![c] + old_digits.reverse());
            assert(decimal((m / 10) as nat).push(c) + old_digits.reverse() =~= decimal(
                (m / 10) as nat,
            ) + (seq![c] + old_digits.reverse()));
        }
        digits.push(c);
        m = m / 10;
    }
    let c: char = ((m as u8) + 48u8) as char;
    proof {
        assert(c == digit_char(m as nat));
        let old_digits = digits@;
        assert(old_digits.push(c).reverse() =~= seq![c] + old_digits.reverse());
    }
    digits.push(c);
    assert(decimal(n as nat) == digits@.reverse());
    let ghost start = old(s)@;
    let mut i: usize = digits.len();
    while i > 0
        invariant
            i <= digits@.len(),
            s@ == start + digits@.subrange(i as int, digits@.len() as int).reverse(),
        decreases i,
    {
        i = i - 1;
        let c = digits[i];
        proof {
            let tail = digits@.subrange(i + 1, digits@.len() as int);
            assert(digits@.subrange(i as int, digits@.len() as int) =~= seq![c] + tail);
            assert((seq![c] + tail).reverse() =~= tail.reverse().push(c));
        }
        s.push(c);
        proof {
            assert(s@ =~= start + digits@.subrange(i as int, digits@.len() as int).reverse());
        }
    }
    proof {
        assert(digits@.subrange(0, digits@.len() as int) =~= digits@);
    }
}

} // verus!
