//! Decimal rendering of integers, Unicode whitespace, and the one string
//! append the rest of the crate builds its text with.

use vstd::prelude::*;

verus! {

/// The ASCII digit for `d` (meant for `d < 10`).
pub open spec fn digit_char(d: nat) -> char {
    (48 + d) as char
}

/// The shortest decimal spelling of `n`, most significant digit first.
pub open spec fn decimal_text(n: nat) -> Seq<char>
    decreases n,
{
    if n < 10 {
        seq![digit_char(n)]
    } else {
        decimal_text(n / 10).push(digit_char(n % 10))
    }
}

/// The decimal spelling of a signed integer: a leading `-` for negatives.
pub open spec fn signed_text(n: int) -> Seq<char> {
    if n < 0 {
        seq!['-'] + decimal_text((-n) as nat)
    } else {
        decimal_text(n as nat)
    }
}

/// The decimal spelling is never empty.
pub proof fn lemma_decimal_text_nonempty(n: nat)
    ensures
        decimal_text(n).len() >= 1,
    decreases n,
{
    if n >= 10 {
        lemma_decimal_text_nonempty(n / 10);
    }
}

/// `char::is_whitespace`: the characters with the Unicode `White_Space` property.
pub open spec fn is_whitespace(c: char) -> bool {
    ||| '\t' <= c <= '\r'
    ||| c == ' '
    ||| c == '\u{85}'
    ||| c == '\u{a0}'
    ||| c == '\u{1680}'
    ||| '\u{2000}' <= c <= '\u{200a}'
    ||| c == '\u{2028}'
    ||| c == '\u{2029}'
    ||| c == '\u{202f}'
    ||| c == '\u{205f}'
    ||| c == '\u{3000}'
}

/// `str::trim_end`: the text without its trailing whitespace.
pub open spec fn trim_end(s: Seq<char>) -> Seq<char>
    decreases s.len(),
{
    if s.len() > 0 && is_whitespace(s.last()) {
        trim_end(s.drop_last())
    } else {
        s
    }
}

/// `char::is_whitespace`.
pub fn char_is_whitespace(c: char) -> (r: bool)
    ensures
        r == is_whitespace(c),
{
    ('\t' <= c && c <= '\r') || c == ' ' || c == '\u{85}' || c == '\u{a0}' || c == '\u{1680}' || (
    '\u{2000}' <= c && c <= '\u{200a}') || c == '\u{2028}' || c == '\u{2029}' || c == '\u{202f}'
        || c == '\u{205f}' || c == '\u{3000}'
}

/// The decimal spelling consists of ASCII digits.
pub proof fn lemma_decimal_text_digits(n: nat)
    ensures
        decimal_text(n).len() >= 1,
        forall|i: int|
            0 <= i < decimal_text(n).len() ==> '0' <= #[trigger] decimal_text(n)[i] <= '9',
    decreases n,
{
    if n >= 10 {
        lemma_decimal_text_digits(n / 10);
    }
}

/// Appends one character to a string: `String::push`, which the standard
/// library documents as appending the given `char` to the end of the string.
#[verifier::external_body]
pub(crate) fn push_char(s: &mut String, c: char)
    ensures
        final(s)@ == old(s)@.push(c),
{
    s.push(c);
}

/// Appends the decimal spelling of `n` to `s`.
pub fn push_decimal(s: &mut String, n: u64)
    ensures
        final(s)@ == old(s)@ + decimal_text(n as nat),
    decreases n,
{
    let d = (n % 10) as u8;
    if n >= 10 {
        push_decimal(s, n / 10);
    }
    push_char(s, (48u8 + d) as char);
    proof {
        assert(old(s)@ + decimal_text(n as nat) =~= s@);
    }
}

/// Appends the decimal spelling of a signed `n` to `s`.
pub fn push_signed(s: &mut String, n: i64)
    ensures
        final(s)@ == old(s)@ + signed_text(n as int),
{
    if n < 0 {
        push_char(s, '-');
        let magnitude: u64 = (0i128 - n as i128) as u64;
        push_decimal(s, magnitude);
        proof {
            assert(s@ =~= old(s)@ + signed_text(n as int));
        }
    } else {
        push_decimal(s, n as u64);
    }
}

/// Appends the decimal spelling of `n` to a character buffer.
pub fn push_decimal_chars(v: &mut Vec<char>, n: u64)
    ensures
        final(v)@ == old(v)@ + decimal_text(n as nat),
    decreases n,
{
    let d = (n % 10) as u8;
    if n >= 10 {
        push_decimal_chars(v, n / 10);
    }
    v.push((48u8 + d) as char);
    proof {
        assert(old(v)@ + decimal_text(n as nat) =~= v@);
    }
}

/// The decimal spelling of a signed `n` as characters.
pub fn signed_chars(n: i64) -> (r: Vec<char>)
    ensures
        r@ == signed_text(n as int),
{
    let mut v: Vec<char> = Vec::new();
    if n < 0 {
        v.push('-');
        let magnitude: u64 = (0i128 - n as i128) as u64;
        push_decimal_chars(&mut v, magnitude);
    } else {
        push_decimal_chars(&mut v, n as u64);
    }
    proof {
        assert(v@ =~= signed_text(n as int));
    }
    v
}

} // verus!
