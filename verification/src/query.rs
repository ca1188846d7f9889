//! Query strings: `&`-separated tokens of the form `name=value`.
//!
//! The flat parser maps each decoded name to its decoded value. The extended
//! parser also reads a bracket group at the end of a name: `name[]` appends
//! the value to an array, `name[key]` puts it into an object under `key`.

use vstd::prelude::*;
use vstd::std_specs::cmp::PartialEqSpecImpl;
use crate::escape::{unescape, unescape_chars};
pub use crate::escape::unescape_hex;
use crate::string_map::{lemma_same_entries, StringMap};
use crate::text::{chars_of, same_texts, string_of, texts, SameAs};

verus! {

/// The position of the first `c` in `s`, or the length of `s` where there is none.
pub open spec fn first_index(s: Seq<char>, c: char) -> nat
    decreases s.len(),
{
    if s.len() == 0 || s[0] == c {
        0
    } else {
        1 + first_index(s.skip(1), c)
    }
}

/// The position of the last `c` in `s`, if there is one.
pub open spec fn last_index(s: Seq<char>, c: char) -> Option<int>
    decreases s.len(),
{
    if s.len() == 0 {
        None
    } else if s.last() == c {
        Some(s.len() - 1)
    } else {
        last_index(s.drop_last(), c)
    }
}

/// The pieces of `s` between the occurrences of `sep`. There is one piece
/// more than there are separators, and a piece may be empty.
pub open spec fn split(s: Seq<char>, sep: char) -> Seq<Seq<char>>
    decreases s.len(),
{
    let i = first_index(s, sep) as int;
    if i >= s.len() {
        seq![s]
    } else {
        seq![s.take(i)] + split(s.skip(i + 1), sep)
    }
}

/// The pieces with `sep` between each two of them.
pub open spec fn join(pieces: Seq<Seq<char>>, sep: char) -> Seq<char>
    decreases pieces.len(),
{
    if pieces.len() == 0 {
        Seq::empty()
    } else if pieces.len() == 1 {
        pieces[0]
    } else {
        pieces[0] + seq![sep] + join(pieces.skip(1), sep)
    }
}

/// The entry that one token adds to a flat mapping, if it adds one.
///
/// A token with `=` gives the decoded text before the first `=` as the name
/// and the decoded text behind it as the value; a token without gives its
/// decoded text as the name and the empty value. In faithful mode an empty
/// token and a token with an empty name give nothing.
pub open spec fn flat_entry(token: Seq<char>, faithful: bool) -> Option<(Seq<char>, Seq<char>)> {
    let eq = first_index(token, '=') as int;
    if faithful && (token.len() == 0 || eq == 0) {
        None
    } else if eq < token.len() {
        Some((unescape(token.take(eq)), unescape(token.skip(eq + 1))))
    } else {
        Some((unescape(token), Seq::empty()))
    }
}

/// The mapping `m` after one token.
pub open spec fn flat_step(m: Map<Seq<char>, Seq<char>>, token: Seq<char>, faithful: bool) -> Map<
    Seq<char>,
    Seq<char>,
> {
    match flat_entry(token, faithful) {
        Some((name, value)) => m.insert(name, value),
        None => m,
    }
}

/// The mapping `m` after the tokens, taken from the left.
pub open spec fn flat_fold(
    tokens: Seq<Seq<char>>,
    m: Map<Seq<char>, Seq<char>>,
    faithful: bool,
) -> Map<Seq<char>, Seq<char>>
    decreases tokens.len(),
{
    if tokens.len() == 0 {
        m
    } else {
        flat_fold(tokens.skip(1), flat_step(m, tokens[0], faithful), faithful)
    }
}

/// The flat mapping that a query string stands for.
pub open spec fn flat_query(query: Seq<char>, faithful: bool) -> Map<Seq<char>, Seq<char>> {
    flat_fold(split(query, '&'), Map::empty(), faithful)
}

proof fn lemma_first_index(s: Seq<char>, c: char, i: int)
    requires
        0 <= i <= s.len(),
        forall|j: int| 0 <= j < i ==> s[j] != c,
        i < s.len() ==> s[i] == c,
    ensures
        first_index(s, c) == i,
    decreases i,
{
    if i > 0 {
        lemma_first_index(s.skip(1), c, i - 1);
    }
}

/// The position of the first `c` in `chars`, or their number where there is none.
fn find_char(chars: &[char], c: char) -> (i: usize)
    ensures
        i == first_index(chars@, c),
        i <= chars@.len(),
{
    let mut i: usize = 0;
    while i < chars.len() && chars[i] != c
        invariant
            i <= chars@.len(),
            forall|j: int| 0 <= j < i ==> chars@[j] != c,
        decreases chars@.len() - i,
    {
        i += 1;
    }
    proof {
        lemma_first_index(chars@, c, i as int);
    }
    i
}

/// Adds to `ret` what one token of a flat query stands for.
pub fn insert_flat_token(ret: &mut StringMap<String>, token: &[char], faithful: bool)
    ensures
        final(ret)@ == flat_step(old(ret)@, token@, faithful),
{
    let n = token.len();
    if faithful && n == 0 {
        return ;
    }
    let eq = find_char(token, '=');
    if eq < n {
        if faithful && eq == 0 {
            return ;
        }
        let name = unescape_chars(&token[0..eq]);
        let value = unescape_chars(&token[eq + 1..n]);
        ret.insert(name, value);
    } else {
        ret.insert(unescape_chars(token), String::new());
    }
}

/// Parses a query string into a mapping from decoded names to decoded values.
///
/// The string is cut at every `&`. Each token is cut at its first `=` into a
/// name and a value; without `=` the value is empty. A later token with the
/// name of an earlier one replaces its value. In faithful mode, empty tokens
/// and tokens with an empty name are left out.
pub fn parse_query(query: &str, faithful: bool) -> (ret: StringMap<String>)
    ensures
        ret@ == flat_query(query@, faithful),
{
    let chars = chars_of(query);
    let n = chars.len();
    let mut ret: StringMap<String> = StringMap::new();
    let mut start: usize = 0;
    assert(chars@.skip(0) =~= query@);
    loop
        invariant_except_break
            n == chars@.len(),
            chars@ == query@,
            start <= n,
            flat_fold(split(chars@.skip(start as int), '&'), ret@, faithful) == flat_query(
                query@,
                faithful,
            ),
        ensures
            ret@ == flat_query(query@, faithful),
        decreases n - start,
    {
        let ghost tokens = split(chars@.skip(start as int), '&');
        let len = find_char(&chars[start..n], '&');
        let end = start + len;
        insert_flat_token(&mut ret, &chars[start..end], faithful);
        proof {
            assert(chars@.subrange(start as int, n as int) =~= chars@.skip(start as int));
            assert(chars@.subrange(start as int, end as int) =~= tokens[0]);
        }
        if end == n {
            assert(flat_fold(tokens.skip(1), ret@, faithful) == ret@);
            break ;
        }
        proof {
            assert(chars@.skip(start as int).skip(len + 1) =~= chars@.skip(end + 1));
            assert(tokens.skip(1) =~= split(chars@.skip(end + 1), '&'));
        }
        start = end + 1;
    }
    ret
}

/// The value of a name in an extended mapping.
#[derive(Debug)]
pub enum QueryValue {
    /// A plain value: `name=value`.
    Str(String),
    /// The values of the occurrences of `name[]`, in their order.
    Arr(Vec<String>),
    /// The values of the occurrences of `name[key]`, by `key`.
    Obj(StringMap<String>),
}

/// A `QueryValue` as a mathematical value.
pub enum QueryValueModel {
    Str(Seq<char>),
    Arr(Seq<Seq<char>>),
    Obj(Map<Seq<char>, Seq<char>>),
}

impl View for QueryValue {
    type V = QueryValueModel;

    open spec fn view(&self) -> QueryValueModel {
        match self {
            QueryValue::Str(s) => QueryValueModel::Str(s@),
            QueryValue::Arr(a) => QueryValueModel::Arr(texts(a@)),
            QueryValue::Obj(o) => QueryValueModel::Obj(o@),
        }
    }
}

impl SameAs for QueryValue {
    fn same_as(&self, other: &Self) -> (same: bool) {
        match (self, other) {
            (QueryValue::Str(a), QueryValue::Str(b)) => a.same_as(b),
            (QueryValue::Arr(a), QueryValue::Arr(b)) => same_texts(a, b),
            (QueryValue::Obj(a), QueryValue::Obj(b)) => a.same_as(b),
            _ => false,
        }
    }
}

impl PartialEq for QueryValue {
    fn eq(&self, other: &Self) -> (same: bool) {
        self.same_as(other)
    }
}

impl PartialEqSpecImpl for QueryValue {
    open spec fn obeys_eq_spec() -> bool {
        true
    }

    open spec fn eq_spec(&self, other: &Self) -> bool {
        self@ == other@
    }
}

impl Eq for QueryValue {

}

impl Clone for QueryValue {
    fn clone(&self) -> (copy: Self)
        ensures
            copy@ == self@,
    {
        match self {
            QueryValue::Str(s) => QueryValue::Str(s.clone()),
            QueryValue::Arr(a) => {
                let items = a.clone();
                proof {
                    assert(texts(items@) =~= texts(a@));
                }
                QueryValue::Arr(items)
            },
            QueryValue::Obj(o) => {
                let fields = o.clone();
                proof {
                    lemma_same_entries(*o, fields);
                }
                QueryValue::Obj(fields)
            },
        }
    }
}

/// The parts of a name that ends in a bracket group: the text before the
/// last `[`, and the text between that `[` and the closing `]`. A name that
/// does not end in `]`, or holds no `[`, has no such parts.
pub open spec fn bracket_parts(name: Seq<char>) -> Option<(Seq<char>, Seq<char>)> {
    if name.len() > 0 && name.last() == ']' {
        match last_index(name, '[') {
            Some(i) => Some((name.take(i), name.subrange(i + 1, name.len() - 1))),
            None => None,
        }
    } else {
        None
    }
}

/// The mapping `m` after `value` was appended to the array under `key`.
/// A new key gets an array of one value; a key that holds anything but an
/// array keeps what it holds.
pub open spec fn append_to_array(
    m: Map<Seq<char>, QueryValueModel>,
    key: Seq<char>,
    value: Seq<char>,
) -> Map<Seq<char>, QueryValueModel> {
    if !m.contains_key(key) {
        m.insert(key, QueryValueModel::Arr(seq![value]))
    } else {
        match m[key] {
            QueryValueModel::Arr(a) => m.insert(key, QueryValueModel::Arr(a.push(value))),
            _ => m,
        }
    }
}

/// The mapping `m` after `inner` was mapped to `value` in the object under
/// `key`. A new key gets an object of one entry; a key that holds anything
/// but an object keeps what it holds.
pub open spec fn insert_into_object(
    m: Map<Seq<char>, QueryValueModel>,
    key: Seq<char>,
    inner: Seq<char>,
    value: Seq<char>,
) -> Map<Seq<char>, QueryValueModel> {
    if !m.contains_key(key) {
        m.insert(key, QueryValueModel::Obj(Map::empty().insert(inner, value)))
    } else {
        match m[key] {
            QueryValueModel::Obj(o) => m.insert(key, QueryValueModel::Obj(o.insert(inner, value))),
            _ => m,
        }
    }
}

/// The extended mapping `m` after one token.
///
/// A token without `=` gives its decoded text as a name with the empty
/// plain value. In a token with `=` the value is decoded; a name that ends
/// in a bracket group sends the value to the array or the object under the
/// text before the group, taken as it stands, and any other name is decoded
/// and gets the plain value. In faithful mode an empty token and a token
/// with an empty name change nothing.
pub open spec fn extended_step(
    m: Map<Seq<char>, QueryValueModel>,
    token: Seq<char>,
    faithful: bool,
) -> Map<Seq<char>, QueryValueModel> {
    let eq = first_index(token, '=') as int;
    if faithful && (token.len() == 0 || eq == 0) {
        m
    } else if eq < token.len() {
        let name = token.take(eq);
        let value = unescape(token.skip(eq + 1));
        match bracket_parts(name) {
            Some((outside, inside)) => if inside.len() == 0 {
                append_to_array(m, outside, value)
            } else {
                insert_into_object(m, outside, inside, value)
            },
            None => m.insert(unescape(name), QueryValueModel::Str(value)),
        }
    } else {
        m.insert(unescape(token), QueryValueModel::Str(Seq::empty()))
    }
}

/// The extended mapping `m` after the tokens, taken from the left.
pub open spec fn extended_fold(
    tokens: Seq<Seq<char>>,
    m: Map<Seq<char>, QueryValueModel>,
    faithful: bool,
) -> Map<Seq<char>, QueryValueModel>
    decreases tokens.len(),
{
    if tokens.len() == 0 {
        m
    } else {
        extended_fold(tokens.skip(1), extended_step(m, tokens[0], faithful), faithful)
    }
}

/// The extended mapping that a query string stands for.
pub open spec fn extended_query(query: Seq<char>, faithful: bool) -> Map<
    Seq<char>,
    QueryValueModel,
> {
    extended_fold(split(query, '&'), Map::empty(), faithful)
}

/// The position of the last `c` in `chars`, if there is one.
fn rfind_char(chars: &[char], c: char) -> (at: Option<usize>)
    ensures
        match at {
            Some(i) => last_index(chars@, c) == Some(i as int) && i < chars@.len() && chars@[i as int]
                == c,
            None => last_index(chars@, c) is None,
        },
{
    let mut i: usize = chars.len();
    assert(chars@.take(i as int) =~= chars@);
    while i > 0 && chars[i - 1] != c
        invariant
            i <= chars@.len(),
            last_index(chars@, c) == last_index(chars@.take(i as int), c),
        decreases i,
    {
        proof {
            assert(chars@.take(i as int).drop_last() =~= chars@.take(i - 1));
        }
        i -= 1;
    }
    if i == 0 {
        None
    } else {
        Some(i - 1)
    }
}

/// Appends `value` to the array under `key`. A new key gets an array of one
/// value; where `key` holds anything but an array, nothing changes.
pub fn append_array(ret: &mut StringMap<QueryValue>, key: String, value: String)
    ensures
        final(ret)@ == append_to_array(old(ret)@, key@, value@),
{
    match ret.get_mut(key.as_str()) {
        Some(QueryValue::Arr(items)) => {
            let ghost before = items@;
            items.push(value);
            proof {
                assert(texts(items@) =~= texts(before).push(value@));
            }
        },
        Some(_) => {},
        None => {
            let mut items: Vec<String> = Vec::new();
            items.push(value);
            proof {
                assert(texts(items@) =~= seq![value@]);
            }
            ret.insert(key, QueryValue::Arr(items));
        },
    }
    proof {
        assert(ret@ =~= append_to_array(old(ret)@, key@, value@));
    }
}

/// Maps `inner` to `value` in the object under `key`. A new key gets an
/// object of one entry; where `key` holds anything but an object, nothing
/// changes.
pub fn insert_object(ret: &mut StringMap<QueryValue>, key: String, inner: String, value: String)
    ensures
        final(ret)@ == insert_into_object(old(ret)@, key@, inner@, value@),
{
    match ret.get_mut(key.as_str()) {
        Some(QueryValue::Obj(fields)) => {
            fields.insert(inner, value);
        },
        Some(_) => {},
        None => {
            let mut fields: StringMap<String> = StringMap::new();
            fields.insert(inner, value);
            ret.insert(key, QueryValue::Obj(fields));
        },
    }
    proof {
        assert(ret@ =~= insert_into_object(old(ret)@, key@, inner@, value@));
    }
}

/// Adds to `ret` what one token of an extended query stands for.
pub fn insert_extended_token(ret: &mut StringMap<QueryValue>, token: &[char], faithful: bool)
    ensures
        final(ret)@ == extended_step(old(ret)@, token@, faithful),
{
    let n = token.len();
    if faithful && n == 0 {
        return ;
    }
    let eq = find_char(token, '=');
    if eq >= n {
        ret.insert(unescape_chars(token), QueryValue::Str(String::new()));
        return ;
    }
    if faithful && eq == 0 {
        return ;
    }
    let name = &token[0..eq];
    let value = unescape_chars(&token[eq + 1..n]);
    if eq > 0 && name[eq - 1] == ']' {
        if let Some(open) = rfind_char(name, '[') {
            let outside = string_of(&name[0..open]);
            let inside = &name[open + 1..eq - 1];
            if inside.len() == 0 {
                append_array(ret, outside, value);
            } else {
                insert_object(ret, outside, string_of(inside), value);
            }
            return ;
        }
    }
    ret.insert(unescape_chars(name), QueryValue::Str(value));
}

/// Parses a query string into a mapping from names to plain values, arrays
/// and objects.
///
/// Tokens are cut as in the flat parser. A name that ends in `[]` appends
/// its value to the array under the text before the brackets; a name that
/// ends in `[key]` puts its value under `key` into the object there. A name
/// that holds a value of another shape already keeps it, and the token is
/// dropped. Every other name is decoded and gets its value as a plain one,
/// in place of whatever it held.
pub fn parse_extended_query(query: &str, faithful: bool) -> (ret: StringMap<QueryValue>)
    ensures
        ret@ == extended_query(query@, faithful),
{
    let chars = chars_of(query);
    let n = chars.len();
    let mut ret: StringMap<QueryValue> = StringMap::new();
    let mut start: usize = 0;
    assert(chars@.skip(0) =~= query@);
    loop
        invariant_except_break
            n == chars@.len(),
            chars@ == query@,
            start <= n,
            extended_fold(split(chars@.skip(start as int), '&'), ret@, faithful)
                == extended_query(query@, faithful),
        ensures
            ret@ == extended_query(query@, faithful),
        decreases n - start,
    {
        let ghost tokens = split(chars@.skip(start as int), '&');
        let len = find_char(&chars[start..n], '&');
        let end = start + len;
        insert_extended_token(&mut ret, &chars[start..end], faithful);
        proof {
            assert(chars@.subrange(start as int, n as int) =~= chars@.skip(start as int));
            assert(chars@.subrange(start as int, end as int) =~= tokens[0]);
        }
        if end == n {
            assert(extended_fold(tokens.skip(1), ret@, faithful) == ret@);
            break ;
        }
        proof {
            assert(chars@.skip(start as int).skip(len + 1) =~= chars@.skip(end + 1));
            assert(tokens.skip(1) =~= split(chars@.skip(end + 1), '&'));
        }
        start = end + 1;
    }
    ret
}

proof fn lemma_first_index_bound(s: Seq<char>, c: char)
    ensures
        first_index(s, c) <= s.len(),
        first_index(s, c) < s.len() ==> s[first_index(s, c) as int] == c,
        forall|j: int| 0 <= j < first_index(s, c) ==> s[j] != c,
    decreases s.len(),
{
    if s.len() == 0 || s[0] == c {
    } else {
        lemma_first_index_bound(s.skip(1), c);
        assert forall|j: int| 0 <= j < first_index(s, c) implies s[j] != c by {
            if j > 0 {
                assert(s[j] == s.skip(1)[j - 1]);
            }
        }
    }
}

/// The pieces of a text hold no separator, and with the separator between
/// them they are the text again.
pub proof fn lemma_split_cuts_at_separators(s: Seq<char>, sep: char)
    ensures
        split(s, sep).len() >= 1,
        forall|i: int| 0 <= i < split(s, sep).len() ==> !(#[trigger] split(s, sep)[i]).contains(sep),
        join(split(s, sep), sep) == s,
    decreases s.len(),
{
    let i = first_index(s, sep) as int;
    lemma_first_index_bound(s, sep);
    if i >= s.len() {
        assert(split(s, sep) =~= seq![s]);
    } else {
        let rest = split(s.skip(i + 1), sep);
        lemma_split_cuts_at_separators(s.skip(i + 1), sep);
        assert(split(s, sep).skip(1) =~= rest);
        assert(split(s, sep)[0] == s.take(i));
        assert forall|j: int| 0 <= j < split(s, sep).len() implies !(#[trigger] split(
            s,
            sep,
        )[j]).contains(sep) by {
            if j > 0 {
                assert(split(s, sep)[j] == rest[j - 1]);
            }
        }
        assert(s.take(i) + seq![sep] + s.skip(i + 1) =~= s);
    }
}

/// A separator and a last piece without separators add that piece to the
/// pieces of what stands before them.
pub proof fn lemma_split_last(s: Seq<char>, last: Seq<char>, sep: char)
    requires
        !last.contains(sep),
    ensures
        split(s + seq![sep] + last, sep) == split(s, sep).push(last),
    decreases s.len(),
{
    let whole = s + seq![sep] + last;
    let i = first_index(s, sep) as int;
    lemma_first_index_bound(s, sep);
    assert(whole.len() == s.len() + 1 + last.len());
    assert(forall|j: int| 0 <= j < s.len() ==> whole[j] == s[j]);
    assert(whole[s.len() as int] == sep);
    lemma_first_index(whole, sep, i);
    if i < s.len() {
        lemma_split_last(s.skip(i + 1), last, sep);
        assert(whole.skip(i + 1) =~= s.skip(i + 1) + seq![sep] + last);
        assert(whole.take(i) =~= s.take(i));
        assert(split(whole, sep) =~= split(s, sep).push(last));
    } else {
        assert(whole.take(i) =~= s);
        assert(whole.skip(i + 1) =~= last);
        lemma_first_index(last, sep, last.len() as int);
        assert(split(last, sep) =~= seq![last]);
        assert(split(whole, sep) =~= split(s, sep).push(last));
    }
}

/// The tokens are taken from the left: the last one is the last to change
/// the mapping.
pub proof fn lemma_flat_fold_last(
    tokens: Seq<Seq<char>>,
    last: Seq<char>,
    m: Map<Seq<char>, Seq<char>>,
    faithful: bool,
)
    ensures
        flat_fold(tokens.push(last), m, faithful) == flat_step(
            flat_fold(tokens, m, faithful),
            last,
            faithful,
        ),
    decreases tokens.len(),
{
    let all = tokens.push(last);
    if tokens.len() == 0 {
        assert(all[0] == last);
        assert(all.skip(1).len() == 0);
        assert(flat_fold(all.skip(1), flat_step(m, last, faithful), faithful) == flat_step(
            m,
            last,
            faithful,
        ));
    } else {
        assert(all[0] == tokens[0]);
        assert(all.skip(1) =~= tokens.skip(1).push(last));
        lemma_flat_fold_last(tokens.skip(1), last, flat_step(m, tokens[0], faithful), faithful);
    }
}

/// As `lemma_flat_fold_last`, for the extended mapping.
pub proof fn lemma_extended_fold_last(
    tokens: Seq<Seq<char>>,
    last: Seq<char>,
    m: Map<Seq<char>, QueryValueModel>,
    faithful: bool,
)
    ensures
        extended_fold(tokens.push(last), m, faithful) == extended_step(
            extended_fold(tokens, m, faithful),
            last,
            faithful,
        ),
    decreases tokens.len(),
{
    let all = tokens.push(last);
    if tokens.len() == 0 {
        assert(all[0] == last);
        assert(all.skip(1).len() == 0);
        assert(extended_fold(all.skip(1), extended_step(m, last, faithful), faithful)
            == extended_step(m, last, faithful));
    } else {
        assert(all[0] == tokens[0]);
        assert(all.skip(1) =~= tokens.skip(1).push(last));
        lemma_extended_fold_last(
            tokens.skip(1),
            last,
            extended_step(m, tokens[0], faithful),
            faithful,
        );
    }
}

/// The last write wins: a query string with one more token behind it
/// stands for the mapping of the query string with the entry of that token
/// put in, in place of what its name mapped to.
pub proof fn lemma_last_write_wins(query: Seq<char>, token: Seq<char>, faithful: bool)
    requires
        !token.contains('&'),
    ensures
        flat_query(query + seq!['&'] + token, faithful) == flat_step(
            flat_query(query, faithful),
            token,
            faithful,
        ),
        flat_entry(token, faithful) matches Some((name, value)) ==> flat_query(
            query + seq!['&'] + token,
            faithful,
        ) == flat_query(query, faithful).insert(name, value),
{
    lemma_split_last(query, token, '&');
    lemma_flat_fold_last(split(query, '&'), token, Map::empty(), faithful);
}

/// An extended query string with one more token behind it stands for the
/// mapping of the query string after that token.
pub proof fn lemma_extended_query_last(query: Seq<char>, token: Seq<char>, faithful: bool)
    requires
        !token.contains('&'),
    ensures
        extended_query(query + seq!['&'] + token, faithful) == extended_step(
            extended_query(query, faithful),
            token,
            faithful,
        ),
{
    lemma_split_last(query, token, '&');
    lemma_extended_fold_last(split(query, '&'), token, Map::empty(), faithful);
}

/// Whether two values are of the same kind: both plain, both arrays or both
/// objects.
pub open spec fn same_shape(a: QueryValueModel, b: QueryValueModel) -> bool {
    &&& a is Str <==> b is Str
    &&& a is Arr <==> b is Arr
    &&& a is Obj <==> b is Obj
}

/// A name keeps its shape under tokens with a bracket group: such a token
/// never turns an array into an object, an object into an array, or a plain
/// value into either, and where it asks for the other shape it changes
/// nothing at all.
pub proof fn lemma_bracket_token_keeps_shape(
    m: Map<Seq<char>, QueryValueModel>,
    token: Seq<char>,
    faithful: bool,
    key: Seq<char>,
)
    requires
        m.contains_key(key),
        first_index(token, '=') < token.len(),
        bracket_parts(token.take(first_index(token, '=') as int)) is Some,
    ensures
        extended_step(m, token, faithful).contains_key(key),
        same_shape(extended_step(m, token, faithful)[key], m[key]),
        ({
            let (outside, inside) = bracket_parts(token.take(first_index(token, '=') as int))->0;
            m.contains_key(outside) && (if inside.len() == 0 {
                !(m[outside] is Arr)
            } else {
                !(m[outside] is Obj)
            }) ==> extended_step(m, token, faithful) == m
        }),
{
}

} // verus!
