//! Percent-escape decoding.
//!
//! A `%` followed by two hexadecimal digits stands for the character whose
//! code is the number that the two digits spell. Everything else, a `%`
//! without two such digits behind it included, stands for itself.

use vstd::prelude::*;
use crate::cursor::DoublePeek;
use crate::text::chars_of;

verus! {

/// The value of `c` as a hexadecimal digit, in either case.
pub open spec fn hex_value(c: char) -> Option<u8> {
    if '0' <= c <= '9' {
        Some((c as u32 - '0' as u32) as u8)
    } else if 'a' <= c <= 'f' {
        Some((c as u32 - 'a' as u32 + 10) as u8)
    } else if 'A' <= c <= 'F' {
        Some((c as u32 - 'A' as u32 + 10) as u8)
    } else {
        None
    }
}

/// Whether `s` starts with a well-formed escape: `%` and two hex digits.
pub open spec fn starts_with_escape(s: Seq<char>) -> bool {
    &&& s.len() >= 3
    &&& s[0] == '%'
    &&& hex_value(s[1]) is Some
    &&& hex_value(s[2]) is Some
}

/// The character that the digits `hi` and `lo` spell: the one with the
/// code `16 * hi + lo`.
pub open spec fn escaped_char(hi: char, lo: char) -> char
    recommends
        hex_value(hi) is Some,
        hex_value(lo) is Some,
{
    ((hex_value(hi)->0 * 16 + hex_value(lo)->0) as u8) as char
}

/// The decoded form of `s`: every well-formed escape, read from the left,
/// is replaced by the character it spells.
pub open spec fn unescape(s: Seq<char>) -> Seq<char>
    decreases s.len(),
{
    if s.len() == 0 {
        Seq::empty()
    } else if starts_with_escape(s) {
        seq![escaped_char(s[1], s[2])] + unescape(s.skip(3))
    } else {
        seq![s[0]] + unescape(s.skip(1))
    }
}

/// Reads `c` as a hexadecimal digit.
pub fn from_hex(c: char) -> (digit: Option<u8>)
    ensures
        digit == hex_value(c),
        digit matches Some(d) ==> d < 16,
{
    if '0' <= c && c <= '9' {
        Some((c as u32 - '0' as u32) as u8)
    } else if 'a' <= c && c <= 'f' {
        Some((c as u32 - 'a' as u32 + 10) as u8)
    } else if 'A' <= c && c <= 'F' {
        Some((c as u32 - 'A' as u32 + 10) as u8)
    } else {
        None
    }
}

/// Decodes the percent-escapes of a sequence of characters.
pub fn unescape_chars(chars: &[char]) -> (ret: String)
    ensures
        ret@ == unescape(chars@),
{
    let mut ret = String::new();
    let mut peekable = DoublePeek::new(chars);
    loop
        invariant
            peekable@.wf(),
            ret@ + unescape(peekable@.upcoming()) == unescape(chars@),
        ensures
            ret@ == unescape(chars@),
        decreases peekable@.upcoming().len(),
    {
        let ghost before = peekable@.upcoming();
        let val = match peekable.next() {
            Some(v) => v,
            None => {
                break;
            },
        };
        let ghost rest = peekable@.upcoming();
        assert(rest =~= before.skip(1));
        if val != '%' {
            ret.push(val);
            continue;
        }
        peekable.unpeek();
        let c1 = match peekable.peek() {
            Some(v) => v,
            None => {
                ret.push('%');
                continue;
            },
        };
        let c2 = match peekable.peek() {
            Some(v) => v,
            None => {
                assert(peekable@.upcoming() =~= rest);
                ret.push('%');
                continue;
            },
        };
        assert(peekable@.upcoming() =~= rest);
        assert(c1 == before[1] && c2 == before[2]);
        let (h1, h2) = (from_hex(c1), from_hex(c2));
        if h1.is_none() || h2.is_none() {
            ret.push('%');
            continue;
        }
        ret.push((h1.unwrap() * 16 + h2.unwrap()) as char);
        peekable.next();
        peekable.next();
        assert(peekable@.upcoming() =~= before.skip(3));
    }
    ret
}

/// Decodes the percent-escapes of `string`: every `%` with two hexadecimal
/// digits behind it becomes the character with that code, and everything
/// else stays. A string without `%` comes back unchanged.
pub fn unescape_hex(string: &str) -> (ret: String)
    ensures
        ret@ == unescape(string@),
        !string@.contains('%') ==> ret@ == string@,
{
    let chars = chars_of(string);
    proof {
        if !string@.contains('%') {
            lemma_unescape_without_percent(string@);
        }
    }
    unescape_chars(chars.as_slice())
}

/// Text without a `%` decodes to itself.
pub proof fn lemma_unescape_without_percent(s: Seq<char>)
    requires
        !s.contains('%'),
    ensures
        unescape(s) == s,
    decreases s.len(),
{
    if s.len() > 0 {
        assert(s[0] != '%');
        assert forall|i: int| 0 <= i < s.skip(1).len() implies s.skip(1)[i] != '%' by {
            assert(s.skip(1)[i] == s[i + 1]);
        }
        lemma_unescape_without_percent(s.skip(1));
        assert(seq![s[0]] + s.skip(1) =~= s);
    }
}

/// Decoding is idempotent on decoded text that holds no `%`: decoding it
/// once more changes nothing.
pub proof fn lemma_unescape_idempotent(s: Seq<char>)
    requires
        !unescape(s).contains('%'),
    ensures
        unescape(unescape(s)) == unescape(s),
{
    lemma_unescape_without_percent(unescape(s));
}

} // verus!
