//! Integers as decimal text.

use vstd::prelude::*;
use vstd::utf8::{decode_utf8, valid_utf8};

use crate::text::utf8_text;

verus! {

/// `0`
pub const ZERO: u8 = 0x30;

/// `9`
pub const NINE: u8 = 0x39;

/// `+`
pub const PLUS: u8 = 0x2b;

/// `-`
pub const MINUS: u8 = 0x2d;

/// Every byte is a decimal digit.
pub open spec fn all_digits(s: Seq<u8>) -> bool {
    forall|i: int| 0 <= i < s.len() ==> ZERO <= #[trigger] s[i] <= NINE
}

/// The number that a string of decimal digits stands for.
pub open spec fn digits_value(s: Seq<u8>) -> int
    decreases s.len(),
{
    if s.len() == 0 {
        0
    } else {
        digits_value(s.drop_last()) * 10 + (s.last() - ZERO)
    }
}

/// The 64-bit integer that a text stands for: an optional sign, then at least one digit, in range.
pub open spec fn int_of(s: Seq<u8>) -> Option<i64> {
    let signed = s.len() > 0 && (s[0] == PLUS || s[0] == MINUS);
    let digits = if signed {
        s.skip(1)
    } else {
        s
    };
    let value = if signed && s[0] == MINUS {
        -digits_value(digits)
    } else {
        digits_value(digits)
    };
    if digits.len() > 0 && all_digits(digits) && i64::MIN <= value <= i64::MAX {
        Some(value as i64)
    } else {
        None
    }
}

/// `lexical::parse` for `i64` reads an optional sign and at least one decimal digit, and nothing
/// else; it fails where the number is out of range.
#[verifier::external_body]
pub(crate) fn parse_int(text: &[u8]) -> (n: Option<i64>)
    ensures
        n == int_of(text@),
{
    lexical::parse::<i64, _>(text).ok()
}

/// The decimal digits of a number.
pub open spec fn digits_of(n: nat) -> Seq<u8>
    decreases n,
{
    if n < 10 {
        seq![(ZERO + n) as u8]
    } else {
        digits_of(n / 10).push((ZERO + n % 10) as u8)
    }
}

/// The decimal form of an integer.
pub open spec fn decimal(n: int) -> Seq<u8> {
    if n < 0 {
        seq![MINUS] + digits_of((-n) as nat)
    } else {
        digits_of(n as nat)
    }
}

/// ASCII bytes are valid UTF-8.
pub proof fn lemma_ascii_valid(s: Seq<u8>)
    requires
        forall|i: int| 0 <= i < s.len() ==> (#[trigger] s[i]) < 0x80,
    ensures
        valid_utf8(s),
    decreases s.len(),
{
    if s.len() > 0 {
        let rest = s.subrange(1, s.len() as int);
        assert forall|i: int| 0 <= i < rest.len() implies (#[trigger] rest[i]) < 0x80 by {
            assert(rest[i] == s[i + 1]);
        }
        lemma_ascii_valid(rest);
        assert(vstd::utf8::pop_first_scalar(s) =~= rest);
    }
}

/// The digits of a number are digits, there is at least one, and they stand for the number.
pub proof fn lemma_digits_of(n: nat)
    ensures
        digits_of(n).len() > 0,
        all_digits(digits_of(n)),
        digits_value(digits_of(n)) == n,
    decreases n,
{
    if n >= 10 {
        lemma_digits_of(n / 10);
        let head = digits_of(n / 10);
        let last = (ZERO + n % 10) as u8;
        assert(head.push(last).drop_last() =~= head);
        assert(head.push(last).last() == last);
    } else {
        let one = seq![(ZERO + n) as u8];
        assert(one.drop_last() =~= Seq::empty());
        assert(digits_value(one.drop_last()) == 0);
    }
}

/// Reading the decimal form of a 64-bit integer gives the integer back.
pub proof fn decimal_reads_back(n: i64)
    ensures
        int_of(decimal(n as int)) == Some(n),
{
    if n < 0 {
        lemma_digits_of((-n) as nat);
        assert(decimal(n as int).skip(1) =~= digits_of((-n) as nat));
    } else {
        lemma_digits_of(n as nat);
        assert(decimal(n as int)[0] == digits_of(n as nat)[0]);
    }
}

/// The digits of a number, as ASCII bytes.
fn digit_bytes(n: u64) -> (digits: Vec<u8>)
    ensures
        digits@ == digits_of(n as nat),
{
    let mut reversed: Vec<u8> = Vec::new();
    let mut rest: u64 = n;
    assert(digits_of(n as nat) =~= digits_of(rest as nat) + reversed@.reverse());
    while rest >= 10
        invariant
            digits_of(n as nat) == digits_of(rest as nat) + reversed@.reverse(),
        decreases rest,
    {
        let digit: u8 = ZERO + (rest % 10) as u8;
        let ghost before = reversed@;
        reversed.push(digit);
        assert(reversed@.reverse() =~= seq![digit] + before.reverse());
        assert(digits_of(rest as nat) =~= digits_of((rest / 10) as nat).push(digit));
        assert(digits_of((rest / 10) as nat).push(digit) + before.reverse() =~= digits_of(
            (rest / 10) as nat,
        ) + (seq![digit] + before.reverse()));
        rest = rest / 10;
    }
    let ghost before = reversed@;
    let digit: u8 = ZERO + rest as u8;
    reversed.push(digit);
    assert(reversed@.reverse() =~= seq![digit] + before.reverse());
    assert(digits_of(rest as nat) =~= seq![digit]);
    assert(digits_of(n as nat) =~= reversed@.reverse());
    let mut out: Vec<u8> = Vec::new();
    let mut i: usize = reversed.len();
    while i > 0
        invariant
            i <= reversed@.len(),
            out@ == reversed@.reverse().take(reversed@.len() - i),
        decreases i,
    {
        let ghost done = reversed@.len() - i;
        assert(reversed@.reverse()[done] == reversed@[i - 1]);
        assert(reversed@.reverse().take(done + 1) =~= reversed@.reverse().take(done).push(
            reversed@[i - 1],
        ));
        out.push(reversed[i - 1]);
        i -= 1;
    }
    assert(reversed@.reverse().take(reversed@.len() as int) =~= reversed@.reverse());
    out
}

/// The decimal text of an offset or a count.
pub fn size_text(n: usize) -> (text: String)
    ensures
        valid_utf8(decimal(n as int)),
        text@ == decode_utf8(decimal(n as int)),
{
    let out = digit_bytes(n as u64);
    proof {
        lemma_digits_of(n as nat);
        lemma_ascii_valid(out@);
    }
    utf8_text(&out)
}

/// The decimal text of a number.
pub fn int_text(n: i64) -> (text: String)
    ensures
        valid_utf8(decimal(n as int)),
        text@ == decode_utf8(decimal(n as int)),
{
    let mut out: Vec<u8> = Vec::new();
    if n < 0 {
        out.push(MINUS);
    }
    let size: u64 = if n == i64::MIN {
        0x8000_0000_0000_0000
    } else if n < 0 {
        (-n) as u64
    } else {
        n as u64
    };
    let mut digits = digit_bytes(size);
    let ghost tail = digits@;
    out.append(&mut digits);
    proof {
        lemma_digits_of(size as nat);
        assert(out@ =~= decimal(n as int));
        assert forall|j: int| 0 <= j < out@.len() implies (#[trigger] out@[j]) < 0x80 by {
            if n < 0 {
                if j > 0 {
                    assert(out@[j] == tail[j - 1]);
                }
            } else {
                assert(out@[j] == tail[j]);
            }
        }
        lemma_ascii_valid(out@);
    }
    utf8_text(&out)
}

} // verus!
