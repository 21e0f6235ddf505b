//! The compiler: places a constant into the assembly template.
use vstd::prelude::*;

use crate::text::{
    char_is_whitespace, decimal_text, digit_char, is_whitespace, lemma_decimal_text_digits, push_char,
    push_decimal, trim_end,
};

pub mod resources;

verus! {

broadcast use vstd::string::group_string_axioms;

/// The text without its leading whitespace.
pub open spec fn trim_start(s: Seq<char>) -> Seq<char>
    decreases s.len(),
{
    if s.len() > 0 && is_whitespace(s[0]) {
        trim_start(s.drop_first())
    } else {
        s
    }
}

/// The value of a run of ASCII decimal digits, most significant first.
pub open spec fn digits_value(d: Seq<char>) -> nat
    decreases d.len(),
{
    if d.len() == 0 {
        0
    } else {
        10 * digits_value(d.drop_last()) + (d.last() as nat - 48) as nat
    }
}

/// Every character is an ASCII digit.
pub open spec fn all_digits(d: Seq<char>) -> bool {
    forall|i: int| 0 <= i < d.len() ==> '0' <= #[trigger] d[i] <= '9'
}

/// The text without a leading `+`.
pub open spec fn unsigned_digits(t: Seq<char>) -> Seq<char> {
    if t.len() > 0 && t[0] == '+' {
        t.drop_first()
    } else {
        t
    }
}

/// `u64::from_str` on a text: an optional `+`, then one or more ASCII digits
/// whose value fits in a `u64`.
pub open spec fn u64_from_text(t: Seq<char>) -> Option<u64> {
    let d = unsigned_digits(t);
    if d.len() > 0 && all_digits(d) && digits_value(d) <= u64::MAX {
        Some(digits_value(d) as u64)
    } else {
        None
    }
}

/// The constant that a source text holds: the text between its leading
/// and trailing whitespace, read as a `u64`.
pub open spec fn integer_const(src: Seq<char>) -> Option<u64> {
    u64_from_text(trim_end(trim_start(src)))
}

/// Every occurrence of `pat` in `s`, taken left to right without overlaps,
/// replaced by `with` (for a non-empty `pat`).
pub open spec fn replace_all(s: Seq<char>, pat: Seq<char>, with: Seq<char>) -> Seq<char>
    decreases s.len(),
{
    if pat.len() == 0 || s.len() < pat.len() {
        s
    } else if s.take(pat.len() as int) == pat {
        with + replace_all(s.skip(pat.len() as int), pat, with)
    } else {
        seq![s[0]] + replace_all(s.drop_first(), pat, with)
    }
}

/// The instruction that loads the constant `v`.
pub open spec fn load_instruction(v: u64) -> Seq<char> {
    "  mov $"@ + decimal_text(v as nat) + ", %rax"@
}

/// The characters of a string slice.
fn chars_of(s: &str) -> (r: Vec<char>)
    ensures
        r@ == s@,
{
    let mut r: Vec<char> = Vec::new();
    for c in iter: s.chars()
        invariant
            r@ == iter.seq().take(iter.index() as int),
    {
        r.push(c);
    }
    r
}

/// Reads the constant of a source text; `None` where `integer_const` has none.
pub fn parse_integer_const(src: &str) -> (r: Option<u64>)
    ensures
        r == integer_const(src@),
{
    let chars = chars_of(src);
    let mut start: usize = 0;
    assert(chars@.skip(0) =~= chars@);
    while start < chars.len() && char_is_whitespace(chars[start])
        invariant
            start <= chars@.len(),
            trim_start(chars@.skip(start as int)) == trim_start(chars@),
        decreases chars@.len() - start,
    {
        assert(chars@.skip(start as int).drop_first() =~= chars@.skip(start + 1));
        start = start + 1;
    }
    assert(chars@.skip(0) =~= chars@);
    let ghost front = chars@.skip(start as int);
    let mut end: usize = chars.len();
    while end > start && char_is_whitespace(chars[end - 1])
        invariant
            start <= end <= chars@.len(),
            front == chars@.skip(start as int),
            trim_end(chars@.subrange(start as int, end as int)) == trim_end(front),
        decreases end - start,
    {
        assert(chars@.subrange(start as int, end as int).drop_last() =~= chars@.subrange(
            start as int,
            end - 1,
        ));
        end = end - 1;
    }
    assert(front =~= chars@.subrange(start as int, chars@.len() as int));
    let ghost t = chars@.subrange(start as int, end as int);
    assert(trim_end(t) == t);
    assert(t == trim_end(trim_start(chars@)));

    let mut i = start;
    if i < end && chars[i] == '+' {
        i = i + 1;
    }
    let ghost d = chars@.subrange(i as int, end as int);
    assert(d =~= unsigned_digits(t));
    if i == end {
        return None;
    }
    let mut value: u64 = 0;
    let mut k = i;
    while k < end
        invariant
            t == trim_end(trim_start(chars@)),
            chars@ == src@,
            d == unsigned_digits(t),
            d.len() > 0,
            i <= k <= end <= chars@.len(),
            d == chars@.subrange(i as int, end as int),
            value as int == digits_value(d.take(k - i)),
            forall|j: int| 0 <= j < k - i ==> '0' <= #[trigger] d[j] <= '9',
        decreases end - k,
    {
        let c = chars[k];
        if c < '0' || c > '9' {
            assert(d[k - i] == c);
            assert(!('0' <= d[k - i] <= '9'));
            assert(!all_digits(d));
            assert(u64_from_text(t) is None);
            return None;
        }
        let digit = (c as u32 - 48) as u64;
        proof {
            assert(d.take(k + 1 - i).drop_last() =~= d.take(k - i));
            assert(d.take(k + 1 - i).last() == c);
        }
        if value > (u64::MAX - digit) / 10 {
            proof {
                assert(value * 10 + digit > u64::MAX) by (nonlinear_arith)
                    requires
                        value > (u64::MAX - digit) / 10,
                        digit <= 9,
                ;
                if all_digits(d) {
                    lemma_digits_value_monotone(d, k + 1 - i);
                }
            }
            return None;
        }
        assert(value * 10 + digit <= u64::MAX) by (nonlinear_arith)
            requires
                value <= (u64::MAX - digit) / 10,
                digit <= 9,
        ;
        value = value * 10 + digit;
        k = k + 1;
    }
    assert(d.take(d.len() as int) =~= d);
    Some(value)
}

/// Extending a digit run never lowers its value.
pub proof fn lemma_digits_value_monotone(d: Seq<char>, i: int)
    requires
        0 <= i <= d.len(),
        all_digits(d),
    ensures
        digits_value(d.take(i)) <= digits_value(d),
    decreases d.len() - i,
{
    if i < d.len() {
        lemma_digits_value_monotone(d, i + 1);
        assert(d.take(i + 1).drop_last() =~= d.take(i));
    } else {
        assert(d.take(i) =~= d);
    }
}

/// `s` holds `pat` at position `i`.
fn matches_at(s: &Vec<char>, pat: &Vec<char>, i: usize) -> (r: bool)
    requires
        i + pat@.len() <= s@.len(),
    ensures
        r == (s@.subrange(i as int, i + pat@.len()) == pat@),
{
    let slen = s.len();
    let mut k: usize = 0;
    while k < pat.len()
        invariant
            slen == s@.len(),
            k <= pat@.len(),
            i + pat@.len() <= s@.len(),
            s@.subrange(i as int, i + k) == pat@.take(k as int),
        decreases pat@.len() - k,
    {
        assert(i + k < s@.len());
        if s[i + k] != pat[k] {
            assert(s@.subrange(i as int, i + pat@.len())[k as int] != pat@[k as int]);
            return false;
        }
        assert(s@.subrange(i as int, i + k + 1) =~= pat@.take(k + 1));
        k = k + 1;
    }
    assert(pat@.take(pat@.len() as int) =~= pat@);
    true
}

/// Replaces every occurrence of `pat` in `s` by `with`, as `replace_all` does.
fn replace_chars(s: &Vec<char>, pat: &Vec<char>, with: &Vec<char>) -> (r: Vec<char>)
    requires
        pat@.len() > 0,
    ensures
        r@ == replace_all(s@, pat@, with@),
{
    let mut out: Vec<char> = Vec::new();
    let mut i: usize = 0;
    assert(s@.skip(0) =~= s@);
    while i < s.len()
        invariant
            i <= s@.len(),
            pat@.len() > 0,
            out@ + replace_all(s@.skip(i as int), pat@, with@) == replace_all(s@, pat@, with@),
        decreases s@.len() - i,
    {
        let ghost rest = s@.skip(i as int);
        if pat.len() <= s.len() - i && matches_at(s, pat, i) {
            assert(rest.take(pat@.len() as int) =~= s@.subrange(i as int, i + pat@.len()));
            assert(rest.skip(pat@.len() as int) =~= s@.skip(i + pat@.len()));
            let ghost before = out@;
            let mut k: usize = 0;
            while k < with.len()
                invariant
                    k <= with@.len(),
                    out@ == before + with@.take(k as int),
                decreases with@.len() - k,
            {
                out.push(with[k]);
                k = k + 1;
                assert(out@ =~= before + with@.take(k as int));
            }
            assert(with@.take(with@.len() as int) =~= with@);
            assert(out@ + replace_all(s@.skip(i + pat@.len()), pat@, with@) =~= before
                + replace_all(rest, pat@, with@));
            i = i + pat.len();
        } else {
            if pat.len() <= s.len() - i {
                assert(rest.take(pat@.len() as int) =~= s@.subrange(i as int, i + pat@.len()));
            } else {
                assert(replace_all(s@.skip(i + 1), pat@, with@) == s@.skip(i + 1));
            }
            assert(rest.drop_first() =~= s@.skip(i + 1));
            out.push(s[i]);
            i = i + 1;
        }
    }
    assert(s@.skip(s@.len() as int) =~= Seq::<char>::empty());
    out
}

/// Writes the constant of `src` into the assembly template, in place of the marker.
pub fn compile(src: &str) -> (r: String)
    requires
        integer_const(src@) is Some,
    ensures
        r@ == replace_all(
            resources::TEMPLATE@,
            resources::MARKER@,
            load_instruction(integer_const(src@)->Some_0),
        ),
{
    let constant = match parse_integer_const(src) {
        Some(v) => v,
        None => {
            assert(false);
            0
        },
    };
    let mut instruction = String::new();
    instruction.append("  mov $");
    push_decimal(&mut instruction, constant);
    instruction.append(", %rax");
    let template = chars_of(resources::TEMPLATE);
    let marker = chars_of(resources::MARKER);
    let with = chars_of(instruction.as_str());
    proof {
        reveal_strlit("  ## saida do compilador deve ser inserida aqui");
        assert(instruction@ =~= load_instruction(constant));
    }
    let out = replace_chars(&template, &marker, &with);
    let mut r = String::new();
    let mut k: usize = 0;
    while k < out.len()
        invariant
            k <= out@.len(),
            r@ == out@.take(k as int),
        decreases out@.len() - k,
    {
        push_char(&mut r, out[k]);
        k = k + 1;
        assert(r@ =~= out@.take(k as int));
    }
    assert(out@.take(out@.len() as int) =~= out@);
    r
}

// ---------------------------------------------------------------------------
// Laws
// ---------------------------------------------------------------------------

/// The value of the decimal spelling of a number is the number.
pub proof fn lemma_digits_value_of_decimal_text(n: nat)
    ensures
        digits_value(decimal_text(n)) == n,
    decreases n,
{
    let t = decimal_text(n);
    assert(digit_char(n % 10) as nat == 48 + n % 10);
    if n >= 10 {
        lemma_digits_value_of_decimal_text(n / 10);
        assert(t.drop_last() == decimal_text(n / 10));
        assert(t.last() == digit_char(n % 10));
    } else {
        assert(t.drop_last() =~= Seq::<char>::empty());
    }
    assert(n == 10 * (n / 10) + n % 10) by (nonlinear_arith);
    assert(digits_value(t) == 10 * digits_value(t.drop_last()) + (t.last() as nat - 48) as nat);
}

/// A constant written in decimal, as the compiled instruction spells it, is
/// read back as the same constant.
pub proof fn law_constant_spelling_roundtrip(n: u64)
    ensures
        integer_const(decimal_text(n as nat)) == Some(n),
{
    let t = decimal_text(n as nat);
    lemma_decimal_text_digits(n as nat);
    lemma_digits_value_of_decimal_text(n as nat);
    assert('0' <= t[0] <= '9');
    assert('0' <= t.last() <= '9');
    assert(trim_start(t) == t);
    assert(trim_end(t) == t);
    assert(unsigned_digits(t) == t);
    assert(all_digits(t));
}

/// Whitespace in front of a text is dropped by `trim_start`.
proof fn lemma_trim_start_skips(ws: Seq<char>, x: Seq<char>)
    requires
        forall|i: int| 0 <= i < ws.len() ==> is_whitespace(#[trigger] ws[i]),
    ensures
        trim_start(ws + x) == trim_start(x),
    decreases ws.len(),
{
    if ws.len() > 0 {
        assert((ws + x).drop_first() =~= ws.drop_first() + x);
        lemma_trim_start_skips(ws.drop_first(), x);
    } else {
        assert(ws + x =~= x);
    }
}

/// Whitespace after a text is dropped by `trim_end`.
proof fn lemma_trim_end_skips(x: Seq<char>, ws: Seq<char>)
    requires
        forall|i: int| 0 <= i < ws.len() ==> is_whitespace(#[trigger] ws[i]),
    ensures
        trim_end(x + ws) == trim_end(x),
    decreases ws.len(),
{
    if ws.len() > 0 {
        assert((x + ws).drop_last() =~= x + ws.drop_last());
        assert((x + ws).last() == ws.last());
        lemma_trim_end_skips(x, ws.drop_last());
    } else {
        assert(x + ws =~= x);
    }
}

/// A constant between any whitespace, Unicode whitespace such as a carriage
/// return included, is read as that constant: the text is trimmed at both
/// ends, as `str::trim` does, before it is read.
pub proof fn law_constant_between_whitespace(ws1: Seq<char>, n: u64, ws2: Seq<char>)
    requires
        forall|i: int| 0 <= i < ws1.len() ==> is_whitespace(#[trigger] ws1[i]),
        forall|i: int| 0 <= i < ws2.len() ==> is_whitespace(#[trigger] ws2[i]),
    ensures
        integer_const(ws1 + decimal_text(n as nat) + ws2) == Some(n),
{
    let d = decimal_text(n as nat);
    lemma_decimal_text_digits(n as nat);
    assert(ws1 + d + ws2 =~= ws1 + (d + ws2));
    lemma_trim_start_skips(ws1, d + ws2);
    assert((d + ws2)[0] == d[0]);
    assert(trim_start(d + ws2) == d + ws2);
    lemma_trim_end_skips(d, ws2);
    assert('0' <= d.last() <= '9');
    assert(trim_end(d) == d);
    law_constant_spelling_roundtrip(n);
    assert(trim_start(d) == d);
}

} // verus!
