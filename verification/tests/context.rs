use dandelion_json::parser::Context;

#[test]
fn valid_cur() {
    let json = "012345";
    let context = Context::new(json);

    assert_eq!(context.cur(), Some('0'),)
}

#[test]
fn valid_advance_n() {
    let json = "012345";
    let mut context = Context::new(json);
    context.advance_n(3);

    assert_eq!(context.cur(), Some('3'))
}

#[test]
fn valid_advance() {
    let json = "012345";
    let mut context = Context::new(json);
    context.advance();

    assert_eq!(context.cur(), Some('1'))
}

#[test]
fn valid_range() {
    let json = "-Hello";
    let mut context = Context::new(json);
    context.advance();

    assert_eq!(context.peek(5), "Hello")
}

#[test]
fn invalid_range() {
    let json = "abc";
    let context = Context::new(json);
    assert_eq!(context.peek(5), "")
}

#[test]
fn advance_stops_at_the_end() {
    let mut context = Context::new("ab");
    context.advance_n(7);
    assert_eq!(context.cur(), None);
    context.advance();
    assert_eq!(context.cur(), None);
    assert_eq!(context.next(), None);
    assert_eq!(context.peek(0), "");
    assert_eq!(context.peek(1), "");
}

#[test]
fn next_reads_and_moves() {
    let mut context = Context::new("xy");
    assert_eq!(context.next(), Some('x'));
    assert_eq!(context.next(), Some('y'));
    assert_eq!(context.next(), None);
}

#[test]
fn positions_count_characters_not_bytes() {
    let mut context = Context::new("\u{e9}\u{4e16}z");
    assert_eq!(context.peek(2), "\u{e9}\u{4e16}");
    context.advance();
    assert_eq!(context.cur(), Some('\u{4e16}'));
    context.advance_n(1);
    assert_eq!(context.cur(), Some('z'));
    assert_eq!(context.peek(1), "z");
    assert_eq!(context.peek(2), "");
}

#[test]
fn a_view_reads_ahead_without_moving_the_cursor() {
    let mut context = Context::new("a123b");
    context.advance();
    let mut iter = context.iter();
    assert_eq!(iter.cursor(), 0);
    assert_eq!(iter.peek(), Some('1'));
    assert_eq!(iter.next(), Some('1'));
    assert_eq!(iter.cursor(), 1);
    assert_eq!(iter.consume_digits(2), Ok(()));
    assert_eq!(iter.cursor(), 3);
    assert_eq!(iter.looked(), "123");
    assert_eq!(iter.peek(), Some('b'));
    assert_eq!(
        iter.consume_digits(1),
        Err(dandelion_json::errors::Errors::InvalidValue)
    );
    assert_eq!(iter.cursor(), 3);
    assert_eq!(iter.next(), Some('b'));
    assert_eq!(iter.next(), None);
    assert_eq!(iter.cursor(), 4);
    assert_eq!(context.cur(), Some('1'));
}
