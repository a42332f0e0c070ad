use scrollback::wrap::{force_width, FmtOpts};

fn wrap(text: &str, w: usize, i: isize) -> Vec<String> {
    scrollback::wrap::format(text.to_string(), FmtOpts { w, i })
        .into_iter()
        .map(|l| l.text)
        .collect()
}

#[test]
fn empty_line_gives_one_blank_line() {
    assert_eq!(wrap("", 10, 0), vec!["          ".to_string()]);
}

#[test]
fn blank_line_gives_one_blank_line_even_when_long() {
    assert_eq!(wrap("            ", 5, 0), vec!["     ".to_string()]);
}

#[test]
fn unbroken_run_breaks_by_position() {
    let lines = wrap("aaaaaaaaaaaaa", 5, 0);
    assert_eq!(lines.len(), 3);
    for l in &lines {
        assert_eq!(l.chars().count(), 5);
    }
    assert_eq!(lines[0], "aaaaa");
    assert_eq!(lines[1], "aaaaa");
    assert_eq!(lines[2], "aaa  ");
}

#[test]
fn breaks_prefer_whitespace() {
    assert_eq!(wrap("hello world foo", 5, 0), vec!["hello", "world", "foo  "]);
}

#[test]
fn negative_indent_indents_first_line_only() {
    assert_eq!(
        wrap("hello world foo bar", 10, -2),
        vec!["  hello   ", "world foo ", "bar       "]
    );
}

#[test]
fn positive_indent_hangs() {
    assert_eq!(
        wrap("hello world foo bar", 10, 2),
        vec!["hello     ", "  world   ", "  foo bar "]
    );
}

#[test]
fn indent_wider_than_line_still_fits() {
    let lines = wrap("abc", 3, -7);
    assert!(!lines.is_empty());
    assert_eq!(lines[0], "   ");
    for l in &lines {
        assert_eq!(l.chars().count(), 3);
    }
}

#[test]
fn every_line_has_the_width() {
    let text = "the quick brown fox jumps over the lazy dog, again and again";
    for w in 1..12usize {
        for i in [-3isize, 0, 3] {
            let lines = scrollback::wrap::format(text.to_string(), FmtOpts { w, i });
            assert!(!lines.is_empty());
            for l in &lines {
                assert_eq!(l.text.chars().count(), w);
                assert_eq!(l.for_opts, FmtOpts { w, i });
            }
        }
    }
}

#[test]
fn no_character_is_lost() {
    let text = "a bbbbbbbbbbbb cc ddddddddddddddddddddd e\u{a0}f\tg";
    let kept: String = text.chars().filter(|c| !c.is_whitespace()).collect();
    for w in 1..14usize {
        for i in -(w as isize) + 1..(w as isize) {
            let lines = wrap(text, w, i);
            let shown: String = lines.concat().chars().filter(|c| !c.is_whitespace()).collect();
            assert_eq!(shown, kept, "w = {}, i = {}", w, i);
        }
    }
}

#[test]
fn long_word_after_first_break_is_not_cut() {
    assert_eq!(
        wrap("a bbbbbbbbbbbb", 10, 4),
        vec!["a         ", "    bbbbbb", "    bbbbbb"]
    );
}

#[test]
fn mid_word_break_counts_the_character_at_the_break() {
    assert_eq!(wrap("abcdefg hi", 3, 0), vec!["abc", "def", "g  ", "hi "]);
}

#[test]
fn wide_characters_count_as_one_column() {
    assert_eq!(wrap("héllo wörld", 5, 0), vec!["héllo", "wörld"]);
}

#[test]
fn force_width_pads_and_truncates() {
    assert_eq!(force_width("abc".to_string(), 5), "abc  ");
    assert_eq!(force_width("abcdef".to_string(), 3), "abc");
    assert_eq!(force_width("héllo".to_string(), 3), "hél");
    assert_eq!(force_width(String::new(), 0), "");
}
