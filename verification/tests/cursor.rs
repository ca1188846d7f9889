use octane::cursor::DoublePeek;

#[test]
fn consumes_the_items_in_order() {
    let items = ['a', 'b', 'c'];
    let mut cursor = DoublePeek::new(&items);
    assert_eq!(cursor.next(), Some('a'));
    assert_eq!(cursor.next(), Some('b'));
    assert_eq!(cursor.next(), Some('c'));
    assert_eq!(cursor.next(), None);
    assert_eq!(cursor.next(), None);
}

#[test]
fn peeks_at_most_two_items_ahead() {
    let items = [1u8, 2, 3, 4];
    let mut cursor = DoublePeek::new(&items);
    assert_eq!(cursor.stored(), 0);
    assert_eq!(cursor.peek(), Some(1));
    assert_eq!(cursor.stored(), 1);
    assert_eq!(cursor.peek(), Some(2));
    assert_eq!(cursor.stored(), 2);
    assert_eq!(cursor.peek(), None);
    assert_eq!(cursor.peek(), None);
    assert_eq!(cursor.stored(), 2);
}

#[test]
fn peeked_items_are_consumed_first() {
    let items = [1u8, 2, 3, 4];
    let mut cursor = DoublePeek::new(&items);
    cursor.peek();
    cursor.peek();
    assert_eq!(cursor.next(), Some(1));
    assert_eq!(cursor.stored(), 1);
    assert_eq!(cursor.next(), Some(2));
    assert_eq!(cursor.stored(), 0);
    assert_eq!(cursor.next(), Some(3));
    assert_eq!(cursor.next(), Some(4));
    assert_eq!(cursor.next(), None);
}

#[test]
fn unpeek_replays_the_front_of_the_buffer_once() {
    let items = ['x', 'y', 'z'];
    let mut cursor = DoublePeek::new(&items);
    assert_eq!(cursor.peek(), Some('x'));
    cursor.unpeek();
    assert_eq!(cursor.peek(), Some('x'));
    assert_eq!(cursor.peek(), Some('y'));
    cursor.unpeek();
    assert_eq!(cursor.peek(), Some('x'));
    assert_eq!(cursor.peek(), None);
    assert_eq!(cursor.next(), Some('x'));
    assert_eq!(cursor.next(), Some('y'));
    assert_eq!(cursor.next(), Some('z'));
}

#[test]
fn unpeek_with_an_empty_buffer_advances() {
    let items = ['x', 'y'];
    let mut cursor = DoublePeek::new(&items);
    cursor.unpeek();
    assert_eq!(cursor.peek(), Some('x'));
    assert_eq!(cursor.peek(), Some('y'));
    assert_eq!(cursor.peek(), None);
}

#[test]
fn peek_at_the_end_returns_nothing() {
    let items: [char; 1] = ['q'];
    let mut cursor = DoublePeek::new(&items);
    assert_eq!(cursor.peek(), Some('q'));
    assert_eq!(cursor.peek(), None);
    assert_eq!(cursor.stored(), 1);
    assert_eq!(cursor.next(), Some('q'));
    assert_eq!(cursor.peek(), None);
    assert_eq!(cursor.next(), None);
}

#[test]
fn a_cursor_over_nothing() {
    let items: [char; 0] = [];
    let mut cursor = DoublePeek::new(&items);
    assert_eq!(cursor.peek(), None);
    assert_eq!(cursor.next(), None);
    assert_eq!(cursor.stored(), 0);
}
