use octane::string_map::StringMap;
use octane::text::{chars_of, same_text, same_texts, string_of};

#[test]
fn a_new_map_is_empty() {
    let map: StringMap<String> = StringMap::new();
    assert!(map.is_empty());
    assert_eq!(map.len(), 0);
    assert_eq!(map.get("a"), None);
    assert!(!map.contains_key("a"));
}

#[test]
fn insert_adds_and_replaces() {
    let mut map: StringMap<String> = StringMap::new();
    map.insert("a".to_string(), "1".to_string());
    map.insert("b".to_string(), "2".to_string());
    assert_eq!(map.len(), 2);
    assert!(!map.is_empty());
    map.insert("a".to_string(), "3".to_string());
    assert_eq!(map.len(), 2);
    assert_eq!(map.get("a"), Some(&"3".to_string()));
    assert_eq!(map.get("b"), Some(&"2".to_string()));
    assert!(map.contains_key("b"));
    assert!(!map.contains_key("c"));
}

#[test]
fn entries_keep_the_order_of_first_insertion() {
    let mut map: StringMap<String> = StringMap::new();
    map.insert("b".to_string(), "1".to_string());
    map.insert("a".to_string(), "2".to_string());
    map.insert("b".to_string(), "3".to_string());
    assert_eq!(map.len(), 2);
    assert_eq!(map.entry_at(0), (&"b".to_string(), &"3".to_string()));
    assert_eq!(map.entry_at(1), (&"a".to_string(), &"2".to_string()));
}

#[test]
fn get_mut_changes_a_value_in_place() {
    let mut map: StringMap<String> = StringMap::new();
    map.insert("a".to_string(), "1".to_string());
    match map.get_mut("a") {
        Some(value) => value.push('0'),
        None => panic!("the key is missing"),
    }
    assert!(map.get_mut("b").is_none());
    assert_eq!(map.get("a"), Some(&"10".to_string()));
    assert_eq!(map.len(), 1);
}

#[test]
fn maps_are_equal_whatever_the_order_of_insertion() {
    let mut one: StringMap<String> = StringMap::new();
    one.insert("a".to_string(), "1".to_string());
    one.insert("b".to_string(), "2".to_string());
    let mut two: StringMap<String> = StringMap::new();
    two.insert("b".to_string(), "2".to_string());
    two.insert("a".to_string(), "1".to_string());
    assert!(one == two);
    two.insert("a".to_string(), "3".to_string());
    assert!(one != two);
    two.insert("a".to_string(), "1".to_string());
    two.insert("c".to_string(), "1".to_string());
    assert!(one != two);
    assert!(two != one);
}

#[test]
fn a_clone_is_equal_and_independent() {
    let mut one: StringMap<String> = StringMap::new();
    one.insert("a".to_string(), "1".to_string());
    let mut two = one.clone();
    assert!(one == two);
    two.insert("a".to_string(), "2".to_string());
    assert_eq!(one.get("a"), Some(&"1".to_string()));
    assert_eq!(two.get("a"), Some(&"2".to_string()));
}

#[test]
fn characters_and_back() {
    assert_eq!(chars_of(""), Vec::<char>::new());
    assert_eq!(chars_of("a\u{e9}\u{4e16}"), vec!['a', '\u{e9}', '\u{4e16}']);
    assert_eq!(string_of(&['a', '\u{e9}', '\u{4e16}']), "a\u{e9}\u{4e16}");
    assert_eq!(string_of(&[]), "");
}

#[test]
fn comparing_texts() {
    assert!(same_text("", ""));
    assert!(same_text("abc", "abc"));
    assert!(!same_text("abc", "abd"));
    assert!(!same_text("abc", "ab"));
    assert!(!same_text("ab", "abc"));
    assert!(same_texts(&vec!["a".to_string(), "b".to_string()], &vec!["a".to_string(), "b".to_string()]));
    assert!(!same_texts(&vec!["a".to_string()], &vec!["a".to_string(), "b".to_string()]));
    assert!(!same_texts(&vec!["a".to_string(), "c".to_string()], &vec!["a".to_string(), "b".to_string()]));
    assert!(same_texts(&vec![], &vec![]));
}
