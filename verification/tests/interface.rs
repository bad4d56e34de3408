use linepick::ansi;
use linepick::line::Line;
use linepick::picker::{delete_word, Key, Outcome, Picker};

fn records(texts: &[&str]) -> Vec<Line> {
    texts
        .iter()
        .enumerate()
        .map(|(i, t)| Line::new(i, String::from(*t)))
        .collect()
}

#[test]
fn test_navigation_wraps() {
    // moving "next" from the last visible row wraps to the first, and
    // moving "previous" from the first wraps to the last
    let lines = records(&["foo", "bar", "baz"]);
    let mut p = Picker::new(&lines, Vec::new(), 21, false);
    assert_eq!(p.selected, 0);
    p.handle_key(Key::CtrlN);
    assert_eq!(p.selected, 1);
    p.handle_key(Key::Down);
    assert_eq!(p.selected, 2);
    p.handle_key(Key::CtrlN);
    assert_eq!(p.selected, 0);
    p.handle_key(Key::CtrlP);
    assert_eq!(p.selected, 2);
    p.handle_key(Key::Up);
    assert_eq!(p.selected, 1);
}

#[test]
fn test_navigation_respects_viewport() {
    // only min(height - 1, result count) rows are visible; wrapping stays
    // within them
    let lines = records(&["a1", "a2", "a3", "a4", "a5"]);
    let mut p = Picker::new(&lines, Vec::new(), 4, false);
    p.handle_key(Key::CtrlN);
    p.handle_key(Key::CtrlN);
    assert_eq!(p.selected, 2);
    p.handle_key(Key::CtrlN);
    assert_eq!(p.selected, 0);
}

#[test]
fn test_tagging_toggles_by_identity() {
    let lines = records(&["foo", "bar", "baz"]);
    let mut p = Picker::new(&lines, Vec::new(), 21, true);
    p.handle_key(Key::Tab);
    assert_eq!(p.tagged, vec![0]);
    p.handle_key(Key::CtrlN);
    p.handle_key(Key::Tab);
    assert_eq!(p.tagged, vec![0, 1]);
    p.handle_key(Key::CtrlP);
    p.handle_key(Key::Tab);
    assert_eq!(p.tagged, vec![1]);
}

#[test]
fn test_tab_appends_without_multiple() {
    // without multi-selection, the tag key is a literal query character
    let lines = records(&["a\tb", "ab"]);
    let mut p = Picker::new(&lines, vec!['a'], 21, false);
    p.handle_key(Key::Tab);
    assert_eq!(p.query, vec!['a', '\t']);
    assert_eq!(p.scores.len(), 1);
    assert_eq!(p.scores[0].line.buf, "a\tb");
}

#[test]
fn test_confirm_single() {
    let lines = records(&["foo", "bar", "baz"]);
    let mut p = Picker::new(&lines, vec!['b', 'a', 'r'], 21, false);
    match p.handle_key(Key::Enter) {
        Outcome::Emit(s) => assert_eq!(s, "bar"),
        _ => panic!("confirm should emit"),
    }
}

#[test]
fn test_confirm_empty_results() {
    let lines = records(&["foo"]);
    let mut p = Picker::new(&lines, vec!['z', 'z'], 21, false);
    assert_eq!(p.scores.len(), 0);
    match p.handle_key(Key::Enter) {
        Outcome::Emit(s) => assert_eq!(s, ""),
        _ => panic!("confirm should emit"),
    }
    match p.handle_key(Key::AltEnter) {
        Outcome::Emit(s) => assert_eq!(s, ""),
        _ => panic!("confirm should emit"),
    }
}

#[test]
fn test_confirm_multi_joins_in_tag_order() {
    let lines = records(&["foo", "bar", "baz"]);
    let mut p = Picker::new(&lines, Vec::new(), 21, true);
    p.handle_key(Key::CtrlN);
    p.handle_key(Key::Tab);
    p.handle_key(Key::CtrlP);
    p.handle_key(Key::Tab);
    match p.handle_key(Key::AltEnter) {
        Outcome::Emit(s) => assert_eq!(s, "bar\nfoo"),
        _ => panic!("confirm should emit"),
    }
}

#[test]
fn test_abort_keys() {
    let lines = records(&["foo"]);
    let mut p = Picker::new(&lines, Vec::new(), 21, false);
    assert!(matches!(p.handle_key(Key::Esc), Outcome::Abort));
    assert!(matches!(p.handle_key(Key::CtrlC), Outcome::Abort));
}

#[test]
fn test_query_editing() {
    let lines = records(&["foo", "bar", "baz"]);
    let mut p = Picker::new(&lines, Vec::new(), 21, false);
    p.handle_key(Key::Char('b'));
    assert_eq!(p.query, vec!['b']);
    assert_eq!(p.scores.len(), 2);
    p.handle_key(Key::Char('a'));
    p.handle_key(Key::Char('r'));
    assert_eq!(p.scores.len(), 1);
    p.handle_key(Key::Backspace);
    assert_eq!(p.query, vec!['b', 'a']);
    assert_eq!(p.scores.len(), 2);
    p.handle_key(Key::CtrlU);
    assert_eq!(p.query, Vec::<char>::new());
    assert_eq!(p.scores.len(), 3);
}

#[test]
fn test_delete_word() {
    let mut q: Vec<char> = "ab cd".chars().collect();
    delete_word(&mut q);
    assert_eq!(q, vec!['a', 'b', ' ']);

    let mut q: Vec<char> = "ab cd  ".chars().collect();
    delete_word(&mut q);
    assert_eq!(q, vec!['a', 'b', ' ']);

    let mut q: Vec<char> = "   ".chars().collect();
    delete_word(&mut q);
    assert_eq!(q, Vec::<char>::new());

    let mut q: Vec<char> = "word".chars().collect();
    delete_word(&mut q);
    assert_eq!(q, Vec::<char>::new());
}

#[test]
fn test_delete_word_key_rescores() {
    let lines = records(&["foo bar", "foo baz"]);
    let mut p = Picker::new(&lines, "foo bar".chars().collect(), 21, false);
    assert_eq!(p.scores.len(), 1);
    p.handle_key(Key::CtrlW);
    assert_eq!(p.query, "foo ".chars().collect::<Vec<char>>());
    assert_eq!(p.scores.len(), 2);
}

#[test]
fn test_selection_clamps_on_requery() {
    let lines = records(&["aaa", "aab", "abc"]);
    let mut p = Picker::new(&lines, Vec::new(), 21, false);
    p.handle_key(Key::CtrlN);
    p.handle_key(Key::CtrlN);
    assert_eq!(p.selected, 2);
    p.handle_key(Key::Char('a'));
    p.handle_key(Key::Char('b'));
    assert_eq!(p.scores.len(), 2);
    assert_eq!(p.selected, 1);
}

#[test]
fn test_ansi_sequences() {
    assert_eq!(ansi::clear(), "\u{1b}[2J");
    assert_eq!(ansi::hide_cursor(), "\u{1b}[?25l");
    assert_eq!(ansi::show_cursor(), "\u{1b}[?25h");
    assert_eq!(ansi::cursor_up(42), "\u{1b}[42A");
    assert_eq!(ansi::cursor_up(0), "\u{1b}[0A");
    assert_eq!(ansi::clear_line(), "\u{1b}[2K");
    assert_eq!(ansi::inverse(), "\u{1b}[7m");
    assert_eq!(ansi::reset(), "\u{1b}[0m");
}

#[test]
fn test_ansi_color_names() {
    assert_eq!(ansi::color("red", "blue"), "\u{1b}[31;44m");
    assert_eq!(ansi::color("RED", "Blue"), "\u{1b}[31;44m");
    assert_eq!(ansi::color("black", "white"), "\u{1b}[30;47m");
    assert_eq!(ansi::color("green", "yellow"), "\u{1b}[32;43m");
    assert_eq!(ansi::color("magenta", "cyan"), "\u{1b}[35;46m");
    assert_eq!(ansi::color("nope", ""), "\u{1b}[39;49m");
}
