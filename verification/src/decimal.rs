//! Decimal numbers in text.

use vstd::prelude::*;
use vstd::utf8;

verus! {

/// The decimal digits of `n`, without leading zeros.
pub open spec fn decimal(n: nat) -> Seq<char>
    decreases n,
{
    if n < 10 {
        seq![(48 + n) as char]
    } else {
        decimal(n / 10).push((48 + n % 10) as char)
    }
}

/// The number that bytes spell as decimal digits. A byte counts by its distance from `0`, whether or
/// not it is a digit.
pub open spec fn value_of(s: Seq<u8>) -> int
    decreases s.len(),
{
    if s.len() == 0 {
        0
    } else {
        value_of(s.drop_last()) * 10 + (s.last() - 48)
    }
}

/// `itoa::Buffer::format` writes an integer as decimal digits without leading zeros.
#[verifier::external_body]
pub(crate) fn format_decimal(n: u128) -> (text: String)
    ensures
        text@ == decimal(n as nat),
{
    itoa::Buffer::new().format(n).to_owned()
}

/// The digits of a number are digits, there is at least one, and as bytes they spell the number.
pub proof fn law_decimal_round_trip(n: nat)
    ensures
        utf8::encode_utf8(decimal(n)).len() > 0,
        utf8::encode_utf8(decimal(n)).len() == decimal(n).len(),
        forall|i: int|
            0 <= i < utf8::encode_utf8(decimal(n)).len() ==> 48 <= #[trigger] utf8::encode_utf8(
                decimal(n),
            )[i] <= 57,
        value_of(utf8::encode_utf8(decimal(n))) == n,
    decreases n,
{
    lemma_ascii(n);
    let bytes = utf8::encode_utf8(decimal(n));
    utf8::is_ascii_chars_encode_utf8(decimal(n));
    if n < 10 {
        assert(bytes.drop_last() =~= Seq::<u8>::empty());
        assert(value_of(Seq::<u8>::empty()) == 0);
        assert(bytes.last() == decimal(n)[0] as u8);
    } else {
        lemma_ascii(n / 10);
        law_decimal_round_trip(n / 10);
        utf8::is_ascii_chars_encode_utf8(decimal(n / 10));
        let front = utf8::encode_utf8(decimal(n / 10));
        assert forall|i: int| 0 <= i < front.len() implies bytes[i] == #[trigger] front[i] by {
            assert(decimal(n)[i] == decimal(n / 10)[i]);
            assert(bytes[i] == decimal(n)[i] as u8);
        }
        assert(bytes.drop_last() =~= front);
        assert(bytes.last() == decimal(n).last() as u8);
    }
}

/// Ten to the power `k`.
spec fn ten_to(k: nat) -> nat
    decreases k,
{
    if k == 0 {
        1
    } else {
        10 * ten_to((k - 1) as nat)
    }
}

proof fn lemma_len(n: nat, k: nat)
    requires
        k > 0,
        n < ten_to(k),
    ensures
        decimal(n).len() <= k,
    decreases k,
{
    if n >= 10 {
        if k == 1 {
            assert(ten_to(1) == 10 * ten_to(0));
        }
        lemma_len(n / 10, (k - 1) as nat);
    }
}

/// No number of 128 bits has more than 39 digits.
pub proof fn lemma_decimal_is_short(n: u128)
    ensures
        decimal(n as nat).len() <= 39,
        utf8::encode_utf8(decimal(n as nat)).len() <= 39,
{
    assert(ten_to(39) == 1_000_000_000_000_000_000_000_000_000_000_000_000_000nat) by {
        reveal_with_fuel(ten_to, 40);
    }
    lemma_len(n as nat, 39);
    law_decimal_round_trip(n as nat);
}

/// Digits are ASCII.
pub proof fn lemma_ascii(n: nat)
    ensures
        utf8::is_ascii_chars(decimal(n)),
        decimal(n).len() > 0,
    decreases n,
{
    if n >= 10 {
        lemma_ascii(n / 10);
    }
}

/// One digit more makes a number ten times as large and adds the digit; no digits spell zero.
pub proof fn law_digits_count_by_their_places(s: Seq<u8>, digit: u8)
    ensures
        value_of(Seq::<u8>::empty()) == 0,
        value_of(s.push(digit)) == 10 * value_of(s) + (digit - 48),
{
    assert(s.push(digit).drop_last() =~= s);
}

} // verus!
