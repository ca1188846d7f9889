use octane::escape::{from_hex, unescape_chars, unescape_hex};

#[test]
fn decodes_a_well_formed_escape() {
    assert_eq!(unescape_hex("%41"), "A");
}

#[test]
fn keeps_a_lone_percent_sign() {
    assert_eq!(unescape_hex("%"), "%");
}

#[test]
fn keeps_an_escape_cut_short_by_the_end() {
    assert_eq!(unescape_hex("%4"), "%4");
}

#[test]
fn keeps_an_escape_with_invalid_digits() {
    assert_eq!(unescape_hex("%zz"), "%zz");
    assert_eq!(unescape_hex("%4z"), "%4z");
    assert_eq!(unescape_hex("%z4"), "%z4");
}

#[test]
fn text_without_percent_is_unchanged() {
    assert_eq!(unescape_hex(""), "");
    assert_eq!(unescape_hex("hello world"), "hello world");
    assert_eq!(unescape_hex("a=1&b[]=2"), "a=1&b[]=2");
    assert_eq!(unescape_hex("gr\u{fc}\u{df}e \u{4e16}\u{754c}"), "gr\u{fc}\u{df}e \u{4e16}\u{754c}");
}

#[test]
fn decoding_decoded_text_without_percent_changes_nothing() {
    let once = unescape_hex("a%20b%2Fc");
    assert_eq!(once, "a b/c");
    assert_eq!(unescape_hex(&once), once);
}

#[test]
fn decodes_escapes_inside_text() {
    assert_eq!(unescape_hex("a%20b"), "a b");
    assert_eq!(unescape_hex("%48%65%6c%6C%6f"), "Hello");
    assert_eq!(unescape_hex("100%25"), "100%");
}

#[test]
fn an_escape_stands_for_the_character_with_its_code() {
    assert_eq!(unescape_hex("%e9"), "\u{e9}");
    assert_eq!(unescape_hex("%FF"), "\u{ff}");
    assert_eq!(unescape_hex("%00"), "\u{0}");
    assert_eq!(unescape_hex("%C3%A9"), "\u{c3}\u{a9}");
}

#[test]
fn a_percent_sign_before_an_escape() {
    assert_eq!(unescape_hex("%%41"), "%A");
    assert_eq!(unescape_hex("%4%41"), "%4A");
    assert_eq!(unescape_hex("%%%"), "%%%");
    assert_eq!(unescape_hex("%%4"), "%%4");
}

#[test]
fn decoded_percent_signs_are_not_decoded_again() {
    assert_eq!(unescape_hex("%2541"), "%41");
    assert_eq!(unescape_hex(&unescape_hex("%2541")), "A");
}

#[test]
fn unescape_chars_decodes_a_slice() {
    let chars = ['%', '4', '1', 'b'];
    assert_eq!(unescape_chars(&chars), "Ab");
    assert_eq!(unescape_chars(&chars[1..]), "41b");
}

#[test]
fn reads_hex_digits_in_both_cases() {
    assert_eq!(from_hex('0'), Some(0));
    assert_eq!(from_hex('9'), Some(9));
    assert_eq!(from_hex('a'), Some(10));
    assert_eq!(from_hex('f'), Some(15));
    assert_eq!(from_hex('A'), Some(10));
    assert_eq!(from_hex('F'), Some(15));
    assert_eq!(from_hex('g'), None);
    assert_eq!(from_hex('G'), None);
    assert_eq!(from_hex('/'), None);
    assert_eq!(from_hex(':'), None);
    assert_eq!(from_hex('@'), None);
    assert_eq!(from_hex('`'), None);
    assert_eq!(from_hex('\u{ff11}'), None);
}
