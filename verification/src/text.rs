//! Strings as sequences of characters.

use vstd::prelude::*;
use vstd::std_specs::iter::IteratorSpec;

verus! {

/// `String::push` appends one character to the end of the string.
pub assume_specification[ String::push ](s: &mut String, ch: char)
    ensures
        final(s)@ == old(s)@.push(ch),
;

/// The texts of `items`, in order.
pub open spec fn texts(items: Seq<String>) -> Seq<Seq<char>> {
    Seq::new(items.len(), |i: int| items[i]@)
}

/// The characters of `s`, in order.
pub fn chars_of(s: &str) -> (out: Vec<char>)
    ensures
        out@ == s@,
{
    let mut out: Vec<char> = Vec::new();
    let mut it = s.chars();
    loop
        invariant
            out@ + it.remaining() == s@,
            it.decrease() is Some,
        ensures
            out@ == s@,
        decreases it.decrease()->0,
    {
        match it.next() {
            Some(c) => {
                out.push(c);
            },
            None => {
                break;
            },
        }
    }
    out
}

/// The string made of the characters of `chars`, in order.
pub fn string_of(chars: &[char]) -> (out: String)
    ensures
        out@ == chars@,
{
    let mut out = String::new();
    let mut i: usize = 0;
    while i < chars.len()
        invariant
            i <= chars.len(),
            out@ == chars@.take(i as int),
        decreases chars.len() - i,
    {
        out.push(chars[i]);
        i += 1;
    }
    out
}

/// Whether two strings hold the same characters.
pub fn same_text(a: &str, b: &str) -> (same: bool)
    ensures
        same == (a@ == b@),
{
    let mut ia = a.chars();
    let mut ib = b.chars();
    let ghost mut seen: Seq<char> = Seq::empty();
    loop
        invariant
            seen + ia.remaining() == a@,
            seen + ib.remaining() == b@,
            ia.decrease() is Some,
        decreases ia.decrease()->0,
    {
        let ghost ra = ia.remaining();
        let ghost rb = ib.remaining();
        match (ia.next(), ib.next()) {
            (Some(x), Some(y)) => {
                assert(a@[seen.len() as int] == x && b@[seen.len() as int] == y) by {
                    assert((seen + ra)[seen.len() as int] == ra[0]);
                    assert((seen + rb)[seen.len() as int] == rb[0]);
                }
                if x != y {
                    return false;
                }
                proof {
                    seen = seen.push(x);
                }
            },
            (None, None) => {
                return true;
            },
            _ => {
                return false;
            },
        }
    }
}

/// Values that can be compared by what they stand for.
pub trait SameAs: View + Sized {
    /// Whether `self` and `other` stand for the same.
    fn same_as(&self, other: &Self) -> (same: bool)
        ensures
            same == (self@ == other@),
    ;
}

impl SameAs for String {
    fn same_as(&self, other: &Self) -> (same: bool) {
        *self == *other
    }
}

/// Whether two lists hold the same texts in the same order.
pub fn same_texts(a: &Vec<String>, b: &Vec<String>) -> (same: bool)
    ensures
        same == (texts(a@) == texts(b@)),
{
    if a.len() != b.len() {
        assert(texts(a@).len() != texts(b@).len());
        return false;
    }
    let mut i: usize = 0;
    while i < a.len()
        invariant
            i <= a@.len(),
            a@.len() == b@.len(),
            forall|j: int| 0 <= j < i ==> a@[j]@ == b@[j]@,
        decreases a@.len() - i,
    {
        if a[i] != b[i] {
            assert(texts(a@)[i as int] != texts(b@)[i as int]);
            return false;
        }
        i += 1;
    }
    assert(texts(a@) =~= texts(b@));
    true
}

} // verus!
