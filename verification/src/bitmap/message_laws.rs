//! What the messages of errors say.

use vstd::arithmetic::div_mod::lemma_fundamental_div_mod_converse;
use vstd::prelude::*;

use crate::bitmap::error::{digit, digits, ParseError};

verus! {

/// The character is a digit of the base.
pub open spec fn is_digit(c: char, base: int) -> bool {
    &&& 0x30 <= c as int <= 0x39 || 0x61 <= c as int <= 0x66
    &&& digit_value(c) < base
}

/// The value of a digit.
pub open spec fn digit_value(c: char) -> int {
    if c as int <= 0x39 {
        c as int - 0x30
    } else {
        c as int - 0x61 + 10
    }
}

/// The number that digits stand for, the first one counting most.
pub open spec fn number(s: Seq<char>, base: int) -> int
    decreases s.len(),
{
    if s.len() == 0 {
        0
    } else {
        number(s.drop_last(), base) * base + digit_value(s.last())
    }
}

/// The text is the number in the base, without leading zeros.
pub open spec fn numeral(s: Seq<char>, n: int, base: int) -> bool {
    &&& s.len() > 0
    &&& forall|i: int| 0 <= i < s.len() ==> is_digit(#[trigger] s[i], base)
    &&& s.len() > 1 ==> s[0] != '0'
    &&& number(s, base) == n
}

/// Every number has one numeral, which is the one that messages hold.
pub proof fn law_digits(n: int, base: int, s: Seq<char>)
    requires
        0 <= n,
        2 <= base <= 16,
    ensures
        numeral(s, n, base) <==> s == digits(n, base),
    decreases n, s.len(),
{
    lemma_digits(n, base);
    if numeral(s, n, base) {
        let rest = s.drop_last();
        let d = digit_value(s.last());
        let q = number(rest, base);
        assert(is_digit(s[s.len() - 1], base));
        assert(s.last() == digit(d));
        assert(n == q * base + d);
        lemma_fundamental_div_mod_converse(n, base, q, d);
        if s.len() == 1 {
            assert(q == 0);
            assert(n == d) by (nonlinear_arith)
                requires
                    n == q * base + d,
                    q == 0,
            ;
            assert(s =~= digits(n, base));
        } else {
            assert forall|i: int| 0 <= i < rest.len() implies is_digit(
                #[trigger] rest[i],
                base,
            ) by {
                assert(rest[i] == s[i]);
            }
            assert(rest[0] == s[0]);
            lemma_number(rest, base);
            assert(numeral(rest, q, base));
            assert(q <= n) by (nonlinear_arith)
                requires
                    n == q * base + d,
                    0 <= q,
                    0 <= d,
                    2 <= base,
            ;
            law_digits(q, base, rest);
            if q == 0 {
                assert(rest[0] == '0');
            }
            assert(n >= base) by (nonlinear_arith)
                requires
                    n == q * base + d,
                    1 <= q,
                    0 <= d,
                    2 <= base,
            ;
            assert(s =~= rest + seq![s.last()]);
        }
    }
}

/// Digits stand for no negative number.
proof fn lemma_number(s: Seq<char>, base: int)
    requires
        2 <= base,
        forall|i: int| 0 <= i < s.len() ==> is_digit(#[trigger] s[i], base),
    ensures
        0 <= number(s, base),
    decreases s.len(),
{
    if s.len() > 0 {
        let rest = s.drop_last();
        assert forall|i: int| 0 <= i < rest.len() implies is_digit(#[trigger] rest[i], base) by {
            assert(rest[i] == s[i]);
        }
        lemma_number(rest, base);
        assert(is_digit(s[s.len() - 1], base));
        let q = number(rest, base);
        assert(0 <= q * base) by (nonlinear_arith)
            requires
                0 <= q,
                2 <= base,
        ;
    }
}

proof fn lemma_digits(n: int, base: int)
    requires
        0 <= n,
        2 <= base <= 16,
    ensures
        numeral(digits(n, base), n, base),
        n > 0 ==> digits(n, base)[0] != '0',
    decreases n,
{
    let s = digits(n, base);
    if n < base {
        assert(s =~= seq![digit(n)]);
        assert(s.drop_last() =~= Seq::<char>::empty());
        assert(number(s.drop_last(), base) == 0);
        assert(number(s.drop_last(), base) * base == 0) by (nonlinear_arith)
            requires
                number(s.drop_last(), base) == 0,
        ;
        assert(is_digit(s[0], base));
    } else {
        assert(1 <= n / base < n && n == n / base * base + n % base && 0 <= n % base < base)
            by (nonlinear_arith)
            requires
                n >= base >= 2,
        ;
        lemma_digits(n / base, base);
        let rest = digits(n / base, base);
        assert(s == rest + seq![digit(n % base)]);
        assert(s.drop_last() =~= rest);
        assert(s.last() == digit(n % base));
        assert(s[0] == rest[0]);
        assert forall|i: int| 0 <= i < s.len() implies is_digit(#[trigger] s[i], base) by {
            if i < rest.len() {
                assert(s[i] == rest[i]);
            }
        }
    }
}

/// The message for input that is too short says how many bytes were needed, where, and how many
/// there were, in decimal.
pub proof fn law_truncated_message(
    offset: usize,
    needed: usize,
    got: usize,
    x: Seq<char>,
    y: Seq<char>,
    z: Seq<char>,
)
    requires
        numeral(x, needed as int, 10),
        numeral(y, offset as int, 10),
        numeral(z, got as int, 10),
    ensures
        (ParseError::Truncated { offset, needed, got }).message() == "input too short: needed "@ + x
            + " bytes at offset "@ + y + ", got "@ + z,
{
    law_digits(needed as int, 10, x);
    law_digits(offset as int, 10, y);
    law_digits(got as int, 10, z);
}

/// The message for a bad cookie says which two there are, and which number was found, in
/// hexadecimal.
pub proof fn law_bad_cookie_message(got: u32, x: Seq<char>)
    requires
        numeral(x, got as int, 16),
    ensures
        (ParseError::BadCookie { got }).message()
            == "bad cookie: expected 0x303a or 0x303b, got 0x"@ + x,
{
    law_digits(got as int, 16, x);
    reveal_strlit("bad cookie: expected 0x303a or 0x303b, got 0x");
    reveal_strlit("bad cookie: expected 0x");
    reveal_strlit(" or 0x");
    reveal_strlit(", got 0x");
    reveal_with_fuel(digits, 5);
    assert(digits(12346, 16) =~= seq!['3', '0', '3', 'a']);
    assert(digits(12347, 16) =~= seq!['3', '0', '3', 'b']);
    assert((ParseError::BadCookie { got }).message()
        =~= "bad cookie: expected 0x303a or 0x303b, got 0x"@ + x);
}

/// The message for too many containers says how many there are and how many there may be, in
/// decimal.
pub proof fn law_too_many_message(count: u64, max: u64, x: Seq<char>, y: Seq<char>)
    requires
        numeral(x, count as int, 10),
        numeral(y, max as int, 10),
    ensures
        (ParseError::TooManyContainers { count, max }).message() == "container count overflow: "@ + x
            + " containers exceeds maximum "@ + y,
{
    law_digits(count as int, 10, x);
    law_digits(max as int, 10, y);
}

/// The messages for invalid containers say where, in decimal, and what is wrong.
pub proof fn law_invalid_message(offset: usize, detail: &'static str, x: Seq<char>)
    requires
        numeral(x, offset as int, 10),
    ensures
        (ParseError::InvalidRun { offset, detail }).message() == "invalid run container at offset "@
            + x + ": "@ + detail@,
        (ParseError::InvalidContainer { offset, detail }).message()
            == "invalid container at offset "@ + x + ": "@ + detail@,
{
    law_digits(offset as int, 10, x);
}

} // verus!
