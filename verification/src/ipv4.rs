//! The dotted-quad form of an IPv4 address: four decimal numbers from 0 to
//! 255, each of one to three digits without a leading zero, with a dot
//! between each two of them.

use crate::lines::{pieces, split};
use crate::text::views;
use vstd::prelude::*;

verus! {

/// `c` is one of the digits `0` to `9`.
pub open spec fn is_digit(c: char) -> bool {
    0x30 <= c as u32 <= 0x39
}

/// The number that the decimal digits `digits` write.
pub open spec fn number(digits: Seq<char>) -> int
    decreases digits.len(),
{
    if digits.len() == 0 {
        0
    } else {
        10 * number(digits.drop_last()) + (digits.last() as u32 - 0x30)
    }
}

/// `part` writes a number from 0 to 255 in one to three digits, without a
/// leading zero.
pub open spec fn is_octet(part: Seq<char>) -> bool {
    &&& 1 <= part.len() <= 3
    &&& forall|i: int| 0 <= i < part.len() ==> is_digit(#[trigger] part[i])
    &&& (part.len() > 1 ==> part[0] != '0')
    &&& number(part) <= 255
}

/// The dot that stands between the numbers.
pub open spec fn dot() -> Seq<char> {
    seq!['.']
}

/// `text` is an IPv4 address in dotted-quad form.
pub open spec fn is_ipv4(text: Seq<char>) -> bool {
    let parts = pieces(text, dot());
    parts.len() == 4 && forall|i: int| 0 <= i < 4 ==> is_octet(#[trigger] parts[i])
}

/// Whether `part` writes a number from 0 to 255 in one to three digits,
/// without a leading zero.
pub fn is_octet_text(part: &Vec<char>) -> (b: bool)
    ensures
        b == is_octet(part@),
{
    if part.len() < 1 || part.len() > 3 {
        return false;
    }
    if part.len() > 1 && part[0] == '0' {
        return false;
    }
    let mut value: u32 = 0;
    let mut i: usize = 0;
    while i < part.len()
        invariant
            i <= part.len() <= 3,
            forall|j: int| 0 <= j < i ==> is_digit(#[trigger] part@[j]),
            value == number(part@.take(i as int)),
            value <= 999,
        decreases part.len() - i,
    {
        let c: u32 = part[i] as u32;
        if c < 0x30 || c > 0x39 {
            assert(!is_digit(part@[i as int]));
            return false;
        }
        proof {
            let upto = part@.take(i + 1);
            assert(upto.drop_last() == part@.take(i as int));
            assert(upto.last() == part@[i as int]);
            lemma_number_bound(part@.take(i as int));
        }
        value = value * 10 + (c - 0x30);
        proof {
            lemma_number_bound(part@.take(i + 1));
        }
        i += 1;
    }
    assert(part@.take(part.len() as int) == part@);
    value <= 255
}

/// A number of up to three digits is below a thousand.
proof fn lemma_number_bound(digits: Seq<char>)
    requires
        digits.len() <= 3,
        forall|i: int| 0 <= i < digits.len() ==> is_digit(#[trigger] digits[i]),
    ensures
        0 <= number(digits),
        digits.len() == 0 ==> number(digits) == 0,
        digits.len() == 1 ==> number(digits) <= 9,
        digits.len() == 2 ==> number(digits) <= 99,
        digits.len() == 3 ==> number(digits) <= 999,
    decreases digits.len(),
{
    if digits.len() > 0 {
        assert forall|i: int| 0 <= i < digits.drop_last().len() implies is_digit(
            #[trigger] digits.drop_last()[i],
        ) by {
            assert(digits.drop_last()[i] == digits[i]);
        }
        lemma_number_bound(digits.drop_last());
        assert(is_digit(digits[digits.len() - 1]));
    }
}

/// Whether `text` is an IPv4 address in dotted-quad form.
pub fn is_ipv4_text(text: &Vec<char>) -> (b: bool)
    ensures
        b == is_ipv4(text@),
{
    let mut cut: Vec<char> = Vec::new();
    cut.push('.');
    assert(cut@ =~= dot());
    let parts = split(text, &cut);
    if parts.len() != 4 {
        return false;
    }
    let mut i: usize = 0;
    while i < 4
        invariant
            i <= 4,
            parts.len() == 4,
            views(parts@) == pieces(text@, dot()),
            forall|j: int| 0 <= j < i ==> is_octet(#[trigger] pieces(text@, dot())[j]),
        decreases 4 - i,
    {
        assert(views(parts@)[i as int] == parts@[i as int]@);
        if !is_octet_text(&parts[i]) {
            return false;
        }
        i += 1;
    }
    true
}

} // verus!
