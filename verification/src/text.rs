//! Small building blocks for assembling text.

use vstd::prelude::*;
use vstd::string::{is_ascii_spec_bytes, StringExecFns};
use vstd::utf8::{char_is_scalar, encode_scalar, encode_utf8};

verus! {

/// The text that `{:?}` formatting produces for a string: the string in
/// double quotes with its special characters escaped.
pub uninterp spec fn str_debug(s: Seq<char>) -> Seq<char>;

/// The text that `{:?}` formatting produces for a character: the character
/// in single quotes, escaped where needed.
pub uninterp spec fn char_debug(c: char) -> Seq<char>;

/// Formats a string with `format!("{:?}", ..)`, the standard library's
/// `Debug` rendering of `str`.  The contract only names the result: it is a
/// function of the characters of `s` alone.
#[verifier::external_body]
pub(crate) fn debug_str(s: &str) -> (out: String)
    ensures
        out@ == str_debug(s@),
{
    format!("{:?}", s)
}

/// Formats a character with `format!("{:?}", ..)`, the standard library's
/// `Debug` rendering of `char`.  The contract only names the result: it is
/// a function of `c` alone.
#[verifier::external_body]
pub(crate) fn debug_char(c: char) -> (out: String)
    ensures
        out@ == char_debug(c),
{
    format!("{:?}", c)
}

/// Calls `String::push`, which appends one character to the end of the
/// string and leaves the rest as it was.
#[verifier::external_body]
pub(crate) fn push_char(s: &mut String, c: char)
    ensures
        final(s)@ == old(s)@.push(c),
{
    s.push(c)
}

/// A fresh string holding the concatenation of two pieces.
pub(crate) fn join2(a: &str, b: &str) -> (out: String)
    ensures
        out@ == a@ + b@,
{
    let mut out = String::from_str(a);
    out.append(b);
    out
}

/// A fresh string holding the concatenation of three pieces.
pub(crate) fn join3(a: &str, b: &str, c: &str) -> (out: String)
    ensures
        out@ == a@ + b@ + c@,
{
    let mut out = String::from_str(a);
    out.append(b);
    out.append(c);
    out
}

/// The character for one decimal digit.
pub open spec fn digit_char(d: int) -> char {
    if d == 0 {
        '0'
    } else if d == 1 {
        '1'
    } else if d == 2 {
        '2'
    } else if d == 3 {
        '3'
    } else if d == 4 {
        '4'
    } else if d == 5 {
        '5'
    } else if d == 6 {
        '6'
    } else if d == 7 {
        '7'
    } else if d == 8 {
        '8'
    } else {
        '9'
    }
}

/// The decimal numeral of `n`, without leading zeros.
pub open spec fn decimal(n: nat) -> Seq<char>
    decreases n,
{
    if n < 10 {
        seq![digit_char(n as int)]
    } else {
        decimal(n / 10).push(digit_char((n % 10) as int))
    }
}

fn digit(d: usize) -> (c: char)
    requires
        d < 10,
    ensures
        c == digit_char(d as int),
{
    if d == 0 {
        '0'
    } else if d == 1 {
        '1'
    } else if d == 2 {
        '2'
    } else if d == 3 {
        '3'
    } else if d == 4 {
        '4'
    } else if d == 5 {
        '5'
    } else if d == 6 {
        '6'
    } else if d == 7 {
        '7'
    } else if d == 8 {
        '8'
    } else {
        '9'
    }
}

/// Writes `n` as a decimal numeral.
pub fn decimal_text(n: usize) -> (out: String)
    ensures
        out@ == decimal(n as nat),
    decreases n,
{
    if n < 10 {
        let mut out = String::new();
        push_char(&mut out, digit(n));
        assert(out@ =~= seq![digit_char(n as int)]);
        out
    } else {
        let mut out = decimal_text(n / 10);
        push_char(&mut out, digit(n % 10));
        out
    }
}

/// `c` is one of the letters `A` to `Z` or `a` to `z`.
pub open spec fn is_letter(c: char) -> bool {
    ('A' <= c && c <= 'Z') || ('a' <= c && c <= 'z')
}

/// Every character of `s` is a letter.  The empty text counts.
pub open spec fn is_alphabetic(s: Seq<char>) -> bool {
    forall|i: int| 0 <= i < s.len() ==> is_letter(#[trigger] s[i])
}

/// Tells whether `s` consists of letters only.
pub fn is_alphabetic_text(s: &str) -> (yes: bool)
    ensures
        yes == is_alphabetic(s@),
{
    if !s.is_ascii() {
        return false;
    }
    proof {
        is_ascii_spec_bytes(s);
    }
    let bytes = s.as_bytes();
    let mut i: usize = 0;
    while i < bytes.len()
        invariant
            i <= bytes.len(),
            bytes@.len() == s@.len(),
            forall|j: int| 0 <= j < s@.len() ==> bytes@[j] == s@[j] as u8,
            forall|j: int| 0 <= j < s@.len() ==> '\0' <= #[trigger] s@[j] <= '\u{7f}',
            forall|j: int| 0 <= j < i ==> is_letter(#[trigger] s@[j]),
        decreases bytes.len() - i,
    {
        let b = bytes[i];
        let letter = (65 <= b && b <= 90) || (97 <= b && b <= 122);
        assert(letter == is_letter(s@[i as int]));
        if !letter {
            return false;
        }
        i += 1;
    }
    true
}

/// `a` comes strictly before `b` in dictionary order, characters compared
/// by code point.
pub open spec fn precedes(a: Seq<char>, b: Seq<char>) -> bool
    decreases a.len(),
{
    if b.len() == 0 {
        false
    } else if a.len() == 0 {
        true
    } else if a[0] != b[0] {
        a[0] < b[0]
    } else {
        precedes(a.drop_first(), b.drop_first())
    }
}

/// Dictionary order is transitive.
pub proof fn lemma_precedes_transitive(a: Seq<char>, b: Seq<char>, c: Seq<char>)
    requires
        precedes(a, b),
        precedes(b, c),
    ensures
        precedes(a, c),
    decreases a.len(),
{
    if a.len() > 0 && a[0] == b[0] && b[0] == c[0] {
        lemma_precedes_transitive(a.drop_first(), b.drop_first(), c.drop_first());
    }
}

/// Of two different texts one comes before the other.
pub proof fn lemma_precedes_total(a: Seq<char>, b: Seq<char>)
    ensures
        a == b || precedes(a, b) || precedes(b, a),
    decreases a.len(),
{
    if a.len() > 0 && b.len() > 0 && a[0] == b[0] {
        lemma_precedes_total(a.drop_first(), b.drop_first());
        if a.drop_first() == b.drop_first() {
            assert(a =~= seq![a[0]] + a.drop_first());
            assert(b =~= seq![b[0]] + b.drop_first());
        }
    } else if a.len() == 0 && b.len() == 0 {
        assert(a =~= b);
    }
}

/// No text comes before itself, and no two texts come before each other.
pub proof fn lemma_precedes_strict(a: Seq<char>, b: Seq<char>)
    requires
        precedes(a, b),
    ensures
        a != b,
        !precedes(b, a),
    decreases a.len(),
{
    if a.len() > 0 && b.len() > 0 && a[0] == b[0] {
        lemma_precedes_strict(a.drop_first(), b.drop_first());
    }
}

/// Tells whether `a` comes strictly before `b` in dictionary order.  Both
/// are plain ASCII, so that bytes and characters are the same thing.
pub fn ascii_precedes(a: &str, b: &str) -> (yes: bool)
    requires
        a.is_ascii(),
        b.is_ascii(),
    ensures
        yes == precedes(a@, b@),
{
    proof {
        is_ascii_spec_bytes(a);
        is_ascii_spec_bytes(b);
    }
    let x = a.as_bytes();
    let y = b.as_bytes();
    let mut i: usize = 0;
    assert(a@.skip(0) =~= a@ && b@.skip(0) =~= b@);
    while i < x.len() && i < y.len()
        invariant
            i <= x.len(),
            i <= y.len(),
            x@.len() == a@.len(),
            y@.len() == b@.len(),
            forall|j: int| 0 <= j < a@.len() ==> x@[j] == a@[j] as u8,
            forall|j: int| 0 <= j < b@.len() ==> y@[j] == b@[j] as u8,
            forall|j: int| 0 <= j < a@.len() ==> '\0' <= #[trigger] a@[j] <= '\u{7f}',
            forall|j: int| 0 <= j < b@.len() ==> '\0' <= #[trigger] b@[j] <= '\u{7f}',
            precedes(a@, b@) == precedes(a@.skip(i as int), b@.skip(i as int)),
        decreases x.len() - i,
    {
        let ghost ra = a@.skip(i as int);
        let ghost rb = b@.skip(i as int);
        assert(ra[0] == a@[i as int] && rb[0] == b@[i as int]);
        assert(ra.drop_first() =~= a@.skip(i + 1));
        assert(rb.drop_first() =~= b@.skip(i + 1));
        if x[i] != y[i] {
            return x[i] < y[i];
        }
        i += 1;
    }
    assert(a@.skip(i as int).len() == a@.len() - i);
    assert(b@.skip(i as int).len() == b@.len() - i);
    i < y.len()
}

/// The property `White_Space` of a character, as `char::is_whitespace`
/// tells it.
pub uninterp spec fn is_space(c: char) -> bool;

/// Calls `char::is_whitespace`.  The contract only names the answer: it is
/// a fixed property of the character.
#[verifier::external_body]
pub(crate) fn char_is_whitespace(c: char) -> (yes: bool)
    ensures
        yes == is_space(c),
{
    c.is_whitespace()
}

/// `c` is one of the digits `0` to `9`.
pub open spec fn is_digit(c: char) -> bool {
    '0' <= c && c <= '9'
}

/// Tells whether `c` is one of the digits `0` to `9`.
pub fn is_digit_char(c: char) -> (yes: bool)
    ensures
        yes == is_digit(c),
{
    '0' <= c && c <= '9'
}

/// Tells whether `c` is one of the letters `A` to `Z` or `a` to `z`.
pub fn is_letter_char(c: char) -> (yes: bool)
    ensures
        yes == is_letter(c),
{
    ('A' <= c && c <= 'Z') || ('a' <= c && c <= 'z')
}

/// The number of bytes that the first `count` characters of `s` take in
/// UTF-8.
pub open spec fn byte_offset(s: Seq<char>, count: int) -> nat {
    encode_utf8(s.take(count)).len()
}

/// The number of bytes that `c` takes in UTF-8.
pub open spec fn utf8_width(c: char) -> nat {
    encode_scalar(c as u32).len()
}

/// Computes the number of bytes that `c` takes in UTF-8: between one and
/// four.
pub fn utf8_width_of(c: char) -> (width: usize)
    ensures
        width == utf8_width(c),
        1 <= width <= 4,
{
    proof {
        char_is_scalar(c);
    }
    let code = c as u32;
    if code < 0x80 {
        1
    } else if code < 0x800 {
        2
    } else if code < 0x10000 {
        3
    } else {
        4
    }
}

proof fn lemma_encode_push(s: Seq<char>, c: char)
    ensures
        encode_utf8(s.push(c)) == encode_utf8(s) + encode_scalar(c as u32),
    decreases s.len(),
{
    if s.len() == 0 {
        assert(s.push(c).drop_first() =~= Seq::<char>::empty());
        assert(encode_utf8(Seq::<char>::empty()) =~= Seq::<u8>::empty());
        assert(encode_utf8(s) =~= Seq::<u8>::empty());
        assert(s.push(c)[0] == c);
        assert(encode_utf8(s.push(c)) =~= encode_scalar(c as u32) + encode_utf8(
            s.push(c).drop_first(),
        ));
        assert(encode_utf8(s.push(c)) =~= encode_scalar(c as u32));
        assert(encode_utf8(s) + encode_scalar(c as u32) =~= encode_scalar(c as u32));
    } else {
        assert(s.push(c).drop_first() =~= s.drop_first().push(c));
        lemma_encode_push(s.drop_first(), c);
        assert(encode_utf8(s.push(c)) =~= encode_utf8(s) + encode_scalar(c as u32));
    }
}

/// One character further, the offset has grown by that character's width.
pub proof fn lemma_byte_offset_step(s: Seq<char>, count: int)
    requires
        0 <= count < s.len(),
    ensures
        byte_offset(s, count + 1) == byte_offset(s, count) + utf8_width(s[count]),
{
    assert(s.take(count + 1) =~= s.take(count).push(s[count]));
    lemma_encode_push(s.take(count), s[count]);
}

/// The offset never shrinks as the count grows.
pub proof fn lemma_byte_offset_grows(s: Seq<char>, low: int, high: int)
    requires
        0 <= low <= high <= s.len(),
    ensures
        byte_offset(s, low) <= byte_offset(s, high),
    decreases high - low,
{
    if low < high {
        lemma_byte_offset_step(s, high - 1);
        lemma_byte_offset_grows(s, low, high - 1);
    }
}

} // verus!
