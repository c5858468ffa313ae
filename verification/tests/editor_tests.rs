use fano::{Editor, Key, DEFAULT_WIDTH};

fn chars(s: &str) -> Vec<char> {
    s.chars().collect()
}

fn string(cs: &[char]) -> String {
    cs.iter().collect()
}

fn editor(text: &str, input: &str, width: u16) -> Editor {
    Editor { path: None, input: chars(input), text: chars(text), line_width: width }
}

fn document(e: &Editor) -> String {
    let mut all = string(&e.text);
    all.push_str(&string(&e.input));
    all
}

#[test]
fn typing_past_the_width_folds_and_backspace_stops_at_a_full_row() {
    let mut e = editor("", "", 5);
    for c in "abcde".chars() {
        e.type_char(c);
    }
    assert_eq!(string(&e.text), "abcde");
    assert_eq!(string(&e.input), "");
    e.type_char('f');
    assert_eq!(string(&e.text), "abcde");
    assert_eq!(string(&e.input), "f");
    e.backspace();
    assert_eq!(string(&e.text), "abcde");
    assert_eq!(string(&e.input), "");
}

#[test]
fn backspace_crosses_a_fold() {
    let mut e = editor("abcde", "", 5);
    e.backspace();
    assert_eq!(string(&e.text), "");
    assert_eq!(string(&e.input), "abcd");
    e.backspace();
    assert_eq!(string(&e.text), "");
    assert_eq!(string(&e.input), "abc");
}

#[test]
fn backspace_crosses_a_fold_in_the_second_row() {
    let mut e = editor("abcdefghij", "", 5);
    e.backspace();
    assert_eq!(string(&e.text), "abcde");
    assert_eq!(string(&e.input), "fghi");
}

#[test]
fn backspace_takes_back_a_line_break() {
    let mut e = editor("abc\n", "", 5);
    e.backspace();
    assert_eq!(string(&e.text), "");
    assert_eq!(string(&e.input), "abc");
}

#[test]
fn backspace_before_a_remaining_break_takes_one_break_only() {
    let mut e = editor("abc\n\n", "", 5);
    e.backspace();
    assert_eq!(string(&e.text), "abc\n");
    assert_eq!(string(&e.input), "");
    e.backspace();
    assert_eq!(string(&e.text), "");
    assert_eq!(string(&e.input), "abc");
}

#[test]
fn backspace_takes_one_character_off_any_document() {
    let samples = ["a", "abc", "abcde", "abcdef", "abc\n", "abc\n\n", "\n", "\n\n", "ab\ncdefgh\n", "a\r\n"];
    for sample in samples {
        for cut in 0..=sample.chars().count().min(4) {
            let all = chars(sample);
            let split = all.len() - cut;
            let mut e = Editor {
                path: None,
                input: all[split..].to_vec(),
                text: all[..split].to_vec(),
                line_width: 5,
            };
            let mut expected = all.clone();
            while !expected.is_empty() {
                e.backspace();
                expected.pop();
                assert_eq!(document(&e), string(&expected));
            }
            e.backspace();
            assert_eq!(document(&e), "");
        }
    }
}

#[test]
fn backspace_undoes_a_typed_character() {
    for text in ["", "abcd", "abcde", "abc\n", "ab\n\n"] {
        let mut e = editor(text, "", 5);
        e.type_char('x');
        e.backspace();
        assert_eq!(document(&e), text);
        e.type_char('\n');
        e.backspace();
        assert_eq!(document(&e), text);
    }
}

#[test]
fn reload_leaves_a_text_that_ends_in_a_break_alone() {
    let mut e = editor("abc\n", "", 5);
    e.reload();
    assert_eq!(string(&e.text), "abc\n");
    assert_eq!(string(&e.input), "");
    let mut blank = editor("\n", "", 5);
    blank.reload();
    assert_eq!(string(&blank.text), "\n");
    assert_eq!(string(&blank.input), "");
}

#[test]
fn reload_never_changes_the_document() {
    for text in ["", "a", "abcde", "abcdefg", "abc\n", "abc\n\n", "\n", "ab\ncd", "ab\r\ncd\r"] {
        for input in ["", "z", "zz\n"] {
            for width in [1u16, 2, 5, 60] {
                let mut e = editor(text, input, width);
                let before = document(&e);
                e.reload();
                assert_eq!(document(&e), before);
            }
        }
    }
}

#[test]
fn opening_and_saving_keeps_the_text() {
    for text in ["", "\n", "abc", "abc\n", "abc\n\n", "one\ntwo", "a\r\nb\r\n"] {
        let mut e = Editor::new(None, chars(text));
        assert_eq!(document(&e), text);
        e.save();
        assert_eq!(string(&e.text), text);
        assert!(e.input.is_empty());
    }
}

#[test]
fn reload_pulls_a_short_last_row_into_the_input() {
    let mut e = editor("abc", "", 5);
    e.reload();
    assert_eq!(string(&e.input), "abc");
    assert_eq!(string(&e.text), "");
}

#[test]
fn reload_leaves_a_full_last_row_alone() {
    let mut e = editor("abcde", "", 5);
    e.reload();
    assert_eq!(string(&e.input), "");
    assert_eq!(string(&e.text), "abcde");
    let mut kept = editor("abcde", "xy", 5);
    kept.reload();
    assert_eq!(string(&kept.input), "xy");
    assert_eq!(string(&kept.text), "abcde");
}

#[test]
fn reload_takes_only_the_last_row_of_a_longer_text() {
    let mut e = editor("first line\nabcdefg", "", 5);
    e.reload();
    assert_eq!(string(&e.input), "fg");
    assert_eq!(string(&e.text), "first line\nabcde");
}

#[test]
fn reload_keeps_pending_input() {
    let mut e = editor("abc", "zz", 5);
    e.reload();
    assert_eq!(string(&e.input), "zz");
    assert_eq!(string(&e.text), "abc");
}

#[test]
fn new_reloads_at_the_default_width() {
    let e = Editor::new(Some(String::from("notes.txt")), chars("hello\nworld"));
    assert_eq!(DEFAULT_WIDTH, 60);
    assert_eq!(e.line_width, 60);
    assert_eq!(e.path, Some(String::from("notes.txt")));
    assert_eq!(string(&e.text), "hello\n");
    assert_eq!(string(&e.input), "world");
}

#[test]
fn new_on_nothing_is_empty() {
    let e = Editor::new(None, Vec::new());
    assert_eq!(e.path, None);
    assert!(e.text.is_empty());
    assert!(e.input.is_empty());
}

#[test]
fn new_keeps_a_row_of_sixty() {
    let row: String = "x".repeat(60);
    let e = Editor::new(None, chars(&row));
    assert_eq!(string(&e.text), row);
    assert!(e.input.is_empty());
}

#[test]
fn backspace_on_an_empty_buffer_changes_nothing() {
    let mut e = editor("", "", 5);
    e.backspace();
    assert!(e.text.is_empty());
    assert!(e.input.is_empty());
    assert_eq!(e.line_width, 5);
    assert_eq!(e.path, None);
    e.backspace();
    assert!(e.text.is_empty());
    assert!(e.input.is_empty());
}

#[test]
fn a_full_row_of_typing_folds_without_a_break() {
    for width in [1u16, 2, 7, 60] {
        let mut e = editor("", "", width);
        let typed: String = "abcdefghij".chars().cycle().take(width as usize).collect();
        for c in typed.chars() {
            e.type_char(c);
        }
        assert_eq!(string(&e.text), typed);
        assert!(e.input.is_empty());
    }
}

#[test]
fn typing_less_than_a_row_stays_pending() {
    let mut e = editor("old\n", "", 5);
    for c in "abcd".chars() {
        e.type_char(c);
    }
    assert_eq!(string(&e.text), "old\n");
    assert_eq!(string(&e.input), "abcd");
}

#[test]
fn appendln_commits_the_input_with_one_break() {
    let mut e = editor("ab", "xy", 5);
    e.appendln();
    assert_eq!(string(&e.text), "abxy\n");
    assert!(e.input.is_empty());
    e.appendln();
    assert_eq!(string(&e.text), "abxy\n\n");
    assert!(e.input.is_empty());
}

#[test]
fn save_folds_pending_input_into_the_text() {
    let mut e = editor("ab", "xy", 5);
    e.save();
    assert_eq!(string(&e.text), "abxy");
    assert!(e.input.is_empty());
    e.save();
    assert_eq!(string(&e.text), "abxy");
    assert!(e.input.is_empty());
}

#[test]
fn newline_reports_a_break_at_the_end() {
    assert!(editor("abc\n", "", 5).newline());
    assert!(!editor("abc", "", 5).newline());
    assert!(!editor("", "", 5).newline());
    assert!(!editor("a\nb", "", 5).newline());
    assert!(!editor("abc", "\n", 5).newline());
}

#[test]
fn lines_wraps_the_committed_text_only() {
    let e = editor("abcdefg\nhi", "zzz", 5);
    let lines = e.lines();
    let texts: Vec<String> = lines.iter().map(|c| string(&c.text)).collect();
    let marks: Vec<bool> = lines.iter().map(|c| c.is_last).collect();
    assert_eq!(texts, vec!["abcde", "fg", "hi"]);
    assert_eq!(marks, vec![false, true, true]);
}

#[test]
fn the_document_follows_every_keystroke() {
    let mut e = editor("", "", 4);
    let mut expected = String::new();
    for c in "hello wor".chars() {
        e.type_char(c);
        expected.push(c);
        assert_eq!(document(&e), expected);
        assert!(e.input.len() < 4);
    }
    e.appendln();
    expected.push('\n');
    assert_eq!(document(&e), expected);
    for c in "ab".chars() {
        e.type_char(c);
        expected.push(c);
        assert_eq!(document(&e), expected);
    }
    for _ in 0..4 {
        e.backspace();
        expected.pop();
        assert_eq!(document(&e), expected);
        assert!(e.input.len() < 4);
    }
    assert_eq!(expected, "hello wo");
    assert_eq!(string(&e.text), "hello wo");
    assert_eq!(string(&e.input), "");
    e.backspace();
    assert_eq!(string(&e.text), "hell");
    assert_eq!(string(&e.input), "o w");
}

#[test]
fn press_maps_keys_to_edits() {
    let mut e = editor("", "", 5);
    for c in "abcdefg".chars() {
        assert!(!e.press(Key::Char(c)));
    }
    assert_eq!(string(&e.text), "abcde");
    assert_eq!(string(&e.input), "fg");
    assert!(!e.press(Key::Other));
    assert_eq!(string(&e.text), "abcde");
    assert_eq!(string(&e.input), "fg");
    assert!(!e.press(Key::Backspace));
    assert_eq!(string(&e.input), "f");
    assert!(!e.press(Key::Enter));
    assert_eq!(string(&e.text), "abcdef\n");
    assert_eq!(string(&e.input), "");
    assert!(!e.press(Key::Char('x')));
    assert!(e.press(Key::Escape));
    assert_eq!(string(&e.text), "abcdef\nx");
    assert_eq!(string(&e.input), "");
}
