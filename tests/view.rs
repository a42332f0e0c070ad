use scrollback::view::WrappedView;
use scrollback::wrap::FmtOpts;

#[test]
fn empty_view_is_blank() {
    let mut v = WrappedView::new(4, 2);
    assert_eq!(v.render(), vec!["    ", "    "]);
}

#[test]
fn render_twice_is_the_same() {
    let mut v = WrappedView::new(10, 3);
    v.push("first line".to_string());
    v.push("second line here".to_string());
    let a = v.render();
    let b = v.render();
    assert_eq!(a, b);
}

#[test]
fn push_at_tail_shows_new_line_at_bottom() {
    let mut v = WrappedView::new(10, 3);
    v.push("first".to_string());
    v.push("second line here".to_string());
    let rows = v.render();
    assert_eq!(rows, vec!["second    ", "    line  ", "    here  "]);
    let last = scrollback::wrap::format("second line here".to_string(), FmtOpts { w: 10, i: 4 });
    assert_eq!(rows[2], last[last.len() - 1].text);
}

#[test]
fn push_when_scrolled_back_changes_nothing() {
    let mut v = WrappedView::new(10, 2);
    v.push("one".to_string());
    v.push("two".to_string());
    v.push("three".to_string());
    v.scroll_to(1, 0);
    let before = v.render();
    assert_eq!(before, vec!["one       ", "two       "]);
    v.push("four".to_string());
    assert_eq!(v.render(), before);
}

#[test]
fn short_history_is_padded_at_top() {
    let mut v = WrappedView::new(10, 5);
    v.push("hi".to_string());
    let rows = v.render();
    assert_eq!(rows.len(), 5);
    for r in &rows[0..4] {
        assert_eq!(r, "          ");
    }
    assert_eq!(rows[4], "hi        ");
}

#[test]
fn push_strips_line_breaks() {
    let mut v = WrappedView::new(6, 1);
    v.push("a\r\nb\n".to_string());
    assert_eq!(v.render(), vec!["ab    "]);
}

#[test]
fn resize_rewraps_on_next_render() {
    let mut v = WrappedView::new(11, 2);
    v.push("hello world".to_string());
    assert_eq!(v.render(), vec!["           ", "hello world"]);
    v.resize(9, 3);
    assert_eq!(v.render(), vec!["         ", "hello    ", "    world"]);
}

#[test]
fn hidden_rows_of_anchor_are_skipped() {
    let mut v = WrappedView::new(8, 2);
    v.push("aaa bbb ccc ddd eee".to_string());
    assert_eq!(v.render(), vec!["    ddd ", "    eee "]);
    v.scroll_to(0, 1);
    assert_eq!(v.render(), vec!["    ccc ", "    ddd "]);
    v.scroll_to(9, 0);
    assert_eq!(v.render(), vec!["    ddd ", "    eee "]);
}
