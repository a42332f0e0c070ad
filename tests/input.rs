use scrollback::input::InputLine;

#[test]
fn insert_and_move() {
    let mut l = InputLine::new(5, 1);
    l.insert_char('a');
    l.insert_char('b');
    l.move_cursor(-1);
    l.insert_char('x');
    assert_eq!(l.as_text(), "axb");
    l.move_cursor(-10);
    l.insert_char('<');
    assert_eq!(l.as_text(), "<axb");
    l.move_cursor(100);
    l.insert_char('>');
    assert_eq!(l.as_text(), "<axb>");
}

#[test]
fn move_cursor_extremes() {
    let mut l = InputLine::new(5, 1);
    l.set_string("abc".to_string());
    l.move_cursor(isize::MIN);
    l.insert_char('0');
    assert_eq!(l.as_text(), "0abc");
    l.move_cursor(isize::MAX);
    l.insert_char('9');
    assert_eq!(l.as_text(), "0abc9");
}

#[test]
fn render_in_chunks() {
    let mut l = InputLine::new(2, 1);
    l.set_string("abc".to_string());
    assert_eq!(l.render(), vec!["ab", "c "]);
    assert_eq!(l.get_size(), (2, 2));
    l.set_width(3);
    assert_eq!(l.render(), vec!["abc"]);
    assert_eq!(l.get_size(), (3, 1));
}

#[test]
fn empty_input_takes_one_row() {
    let l = InputLine::new(4, 1);
    assert_eq!(l.render(), Vec::<String>::new());
    assert_eq!(l.get_size(), (4, 1));
    assert_eq!(l.as_text(), "");
}

#[test]
fn cursor_position() {
    let mut l = InputLine::new(4, 1);
    l.set_string("abcd".to_string());
    l.move_cursor(3);
    assert_eq!(l.get_cursor_pos(), (3, 0));
}
