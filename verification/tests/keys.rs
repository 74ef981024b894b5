use ti::app::{App, Clipboard, Mode, Outcome};
use ti::cursor::Cursor;
use ti::document::{Document, Pos};
use ti::viewport::Viewport;
use ti::{BACKSPACE, ENTER, ESC};

fn app_of(lines: &[&str], row: usize, col: usize) -> App {
    let doc = Document {
        file_path: "notes.txt".to_owned(),
        lines: lines.iter().map(|l| l.to_string()).collect(),
    };
    let mut app = App::new(doc, Viewport::new(80, 24));
    app.cursor = Cursor { row, col };
    app
}

fn press(app: &mut App, keys: &str) -> Outcome {
    let mut out = Outcome::Continue;
    for k in keys.chars() {
        assert!(app.accepts_key(k), "key {:?} refused", k);
        out = app.handle_input(k);
    }
    out
}

fn lines(app: &App) -> Vec<&str> {
    app.doc.lines.iter().map(|l| l.as_str()).collect()
}

fn clip(app: &App) -> (bool, String) {
    match &app.clipboard {
        Clipboard::Normal(s) => (false, s.clone()),
        Clipboard::Line(s) => (true, s.clone()),
        Clipboard::Empty => panic!("the clipboard is empty"),
    }
}

#[test]
fn a_new_app_starts_in_normal_mode() {
    let doc = Document { file_path: "f".to_owned(), lines: vec!["x".to_owned()] };
    let app = App::new(doc, Viewport::new(10, 5));
    assert_eq!(app.cursor, Cursor { row: 0, col: 0 });
    assert_eq!(app.mode, Mode::Normal);
    assert!(matches!(app.clipboard, Clipboard::Empty));
    assert_eq!(app.viewport.width, 10);
    assert_eq!(app.viewport.height, 5);
}

#[test]
fn quit_save_and_a_pending_g() {
    let mut app = app_of(&["abc", "def", ""], 1, 2);
    assert_eq!(press(&mut app, "Q"), Outcome::Quit);
    assert_eq!(press(&mut app, "W"), Outcome::Save);
    assert_eq!(press(&mut app, "g"), Outcome::AwaitKey);
    assert_eq!(app.handle_key_after_g('g'), Outcome::Continue);
    assert_eq!(app.cursor, Cursor { row: 0, col: 2 });
    assert_eq!(press(&mut app, "g"), Outcome::AwaitKey);
    assert_eq!(app.handle_key_after_g('j'), Outcome::Continue);
    assert_eq!(app.cursor, Cursor { row: 1, col: 2 });
    assert_eq!(lines(&app), vec!["abc", "def", ""]);
}

#[test]
fn x_cuts_a_character_and_capital_p_puts_it_back() {
    let mut app = app_of(&["abc"], 0, 0);
    press(&mut app, "x");
    assert_eq!(lines(&app), vec!["bc"]);
    assert_eq!(clip(&app), (false, "a".to_owned()));
    assert_eq!(app.cursor, Cursor { row: 0, col: 0 });
    press(&mut app, "P");
    assert_eq!(lines(&app), vec!["abc"]);
    assert_eq!(app.cursor, Cursor { row: 0, col: 1 });
}

#[test]
fn x_on_the_last_character_pulls_the_cursor_back() {
    let mut app = app_of(&["abc"], 0, 2);
    press(&mut app, "x");
    assert_eq!(lines(&app), vec!["ab"]);
    assert_eq!(app.cursor, Cursor { row: 0, col: 1 });
}

#[test]
fn u_undoes_the_last_change() {
    let mut app = app_of(&["abc"], 0, 1);
    press(&mut app, "xx");
    assert_eq!(lines(&app), vec!["a"]);
    press(&mut app, "u");
    assert_eq!(lines(&app), vec!["ac"]);
    assert_eq!(app.cursor, Cursor { row: 0, col: 1 });
    press(&mut app, "u");
    assert_eq!(lines(&app), vec!["abc"]);
    assert_eq!(app.cursor, Cursor { row: 0, col: 1 });
    press(&mut app, "u");
    assert_eq!(lines(&app), vec!["abc"]);
}

#[test]
fn dd_cuts_the_line_and_p_puts_it_below() {
    let mut app = app_of(&["one", "two", "three", ""], 1, 0);
    press(&mut app, "d");
    assert_eq!(app.mode, Mode::Delete);
    press(&mut app, "d");
    assert_eq!(app.mode, Mode::Normal);
    assert_eq!(lines(&app), vec!["one", "three", ""]);
    assert_eq!(clip(&app), (true, "two\n".to_owned()));
    assert_eq!(app.cursor, Cursor { row: 1, col: 0 });
    press(&mut app, "p");
    assert_eq!(lines(&app), vec!["one", "three", "two", ""]);
    assert_eq!(clip(&app), (true, "two".to_owned()));
    assert_eq!(app.cursor, Cursor { row: 2, col: 0 });
}

#[test]
fn dj_and_dk_cut_two_lines() {
    let mut app = app_of(&["a", "b", "c", "d", ""], 1, 0);
    press(&mut app, "dj");
    assert_eq!(lines(&app), vec!["a", "d", ""]);
    assert_eq!(clip(&app), (true, "b\nc\n".to_owned()));
    assert_eq!(app.cursor, Cursor { row: 1, col: 0 });
    press(&mut app, "dk");
    assert_eq!(lines(&app), vec![""]);
    assert_eq!(clip(&app), (true, "a\nd\n".to_owned()));
    assert_eq!(app.cursor, Cursor { row: 0, col: 0 });
}

#[test]
fn dk_on_the_first_line_changes_nothing() {
    let mut app = app_of(&["a", "b", ""], 0, 0);
    press(&mut app, "dk");
    assert_eq!(lines(&app), vec!["a", "b", ""]);
    assert_eq!(app.mode, Mode::Normal);
    press(&mut app, "dz");
    assert_eq!(app.mode, Mode::Normal);
    assert_eq!(lines(&app), vec!["a", "b", ""]);
}

#[test]
fn typing_in_insert_mode_and_undoing_it() {
    let mut app = app_of(&["ab"], 0, 1);
    press(&mut app, "i");
    assert_eq!(app.mode, Mode::Insert);
    press(&mut app, "Xé");
    assert_eq!(lines(&app), vec!["aXéb"]);
    assert_eq!(app.cursor, Cursor { row: 0, col: 3 });
    press(&mut app, "\x01");
    assert_eq!(lines(&app), vec!["aXéb"]);
    let esc = ESC.to_string();
    press(&mut app, &esc);
    assert_eq!(app.mode, Mode::Normal);
    assert_eq!(app.cursor, Cursor { row: 0, col: 3 });
    press(&mut app, "u");
    assert_eq!(lines(&app), vec!["ab"]);
    assert_eq!(app.cursor, Cursor { row: 0, col: 1 });
    assert_eq!(app.mode, Mode::Normal);
}

#[test]
fn enter_and_backspace_in_insert_mode() {
    let mut app = app_of(&["abcd", ""], 0, 2);
    press(&mut app, "i");
    press(&mut app, &ENTER.to_string());
    assert_eq!(lines(&app), vec!["ab", "cd", ""]);
    assert_eq!(app.cursor, Cursor { row: 1, col: 2 });
    app.cursor = Cursor { row: 1, col: 0 };
    press(&mut app, &BACKSPACE.to_string());
    assert_eq!(lines(&app), vec!["abcd", ""]);
    assert_eq!(app.cursor, Cursor { row: 0, col: 2 });
    press(&mut app, &BACKSPACE.to_string());
    assert_eq!(lines(&app), vec!["acd", ""]);
    assert_eq!(app.cursor, Cursor { row: 0, col: 1 });
    app.cursor = Cursor { row: 0, col: 0 };
    press(&mut app, &BACKSPACE.to_string());
    assert_eq!(lines(&app), vec!["acd", ""]);
}

#[test]
fn r_replaces_one_character() {
    let mut app = app_of(&["abc"], 0, 1);
    press(&mut app, "r");
    assert_eq!(app.mode, Mode::Replace);
    press(&mut app, "z");
    assert_eq!(lines(&app), vec!["azc"]);
    assert_eq!(app.mode, Mode::Normal);
    assert_eq!(app.cursor, Cursor { row: 0, col: 1 });
    press(&mut app, "r");
    press(&mut app, &ESC.to_string());
    assert_eq!(lines(&app), vec!["azc"]);
    assert_eq!(app.mode, Mode::Normal);
}

#[test]
fn entering_insert_mode_in_its_ways() {
    let mut app = app_of(&["  ab", ""], 0, 3);
    press(&mut app, "a");
    assert_eq!(app.cursor, Cursor { row: 0, col: 4 });
    assert_eq!(app.mode, Mode::Insert);
    press(&mut app, &ESC.to_string());
    assert_eq!(app.cursor, Cursor { row: 0, col: 3 });
    press(&mut app, "I");
    assert_eq!(app.cursor, Cursor { row: 0, col: 2 });
    press(&mut app, &ESC.to_string());
    press(&mut app, "A");
    assert_eq!(app.cursor, Cursor { row: 0, col: 4 });
    press(&mut app, &ESC.to_string());
    app.cursor = Cursor { row: 0, col: 2 };
    press(&mut app, "s");
    assert_eq!(lines(&app), vec!["  b", ""]);
    assert_eq!(app.mode, Mode::Insert);
    press(&mut app, &ESC.to_string());
    press(&mut app, "o");
    assert_eq!(lines(&app), vec!["  b", "", ""]);
    assert_eq!(app.cursor, Cursor { row: 1, col: 2 });
    assert_eq!(app.mode, Mode::Insert);
}

#[test]
fn visual_y_copies_and_p_pastes_after_the_cursor() {
    let mut app = app_of(&["hello world"], 0, 0);
    press(&mut app, "ve");
    assert_eq!(app.mode, Mode::Visual(Pos { row: 0, col: 0 }));
    assert_eq!(app.cursor, Cursor { row: 0, col: 4 });
    press(&mut app, "y");
    assert_eq!(clip(&app), (false, "hello".to_owned()));
    assert_eq!(app.mode, Mode::Normal);
    assert_eq!(app.cursor, Cursor { row: 0, col: 0 });
    press(&mut app, "p");
    assert_eq!(lines(&app), vec!["hhelloello world"]);
    assert_eq!(app.cursor, Cursor { row: 0, col: 6 });
}

#[test]
fn visual_d_cuts_across_lines() {
    let mut app = app_of(&["abc", "def", ""], 0, 1);
    press(&mut app, "vj");
    assert_eq!(app.cursor, Cursor { row: 1, col: 1 });
    press(&mut app, "d");
    assert_eq!(lines(&app), vec!["af", ""]);
    assert_eq!(clip(&app), (false, "bc\nde".to_owned()));
    assert_eq!(app.cursor, Cursor { row: 0, col: 1 });
    assert_eq!(app.mode, Mode::Normal);
}

#[test]
fn visual_capital_y_copies_whole_lines() {
    let mut app = app_of(&["ab", "cd", "ef", ""], 0, 1);
    press(&mut app, "vjY");
    assert_eq!(clip(&app), (true, "ab\ncd\n".to_owned()));
    assert_eq!(app.cursor, Cursor { row: 0, col: 0 });
    press(&mut app, "P");
    assert_eq!(lines(&app), vec!["ab", "cd", "ab", "cd", "ef", ""]);
}

#[test]
fn visual_capital_d_cuts_whole_lines() {
    let mut app = app_of(&["ab", "cd", "ef", ""], 1, 1);
    press(&mut app, "vkD");
    assert_eq!(lines(&app), vec!["ef", ""]);
    assert_eq!(clip(&app), (true, "ab\ncd\n".to_owned()));
    assert_eq!(app.cursor, Cursor { row: 0, col: 0 });
    let esc = ESC.to_string();
    press(&mut app, "v");
    press(&mut app, &esc);
    assert_eq!(app.mode, Mode::Normal);
}

#[test]
fn normal_mode_moves() {
    let mut app = app_of(&["foo bar", "  baz", ""], 0, 0);
    press(&mut app, "w");
    assert_eq!(app.cursor, Cursor { row: 0, col: 4 });
    press(&mut app, "e");
    assert_eq!(app.cursor, Cursor { row: 0, col: 6 });
    press(&mut app, "b");
    assert_eq!(app.cursor, Cursor { row: 0, col: 4 });
    press(&mut app, "ll");
    assert_eq!(app.cursor, Cursor { row: 0, col: 6 });
    press(&mut app, "l");
    assert_eq!(app.cursor, Cursor { row: 0, col: 6 });
    press(&mut app, "jh");
    assert_eq!(app.cursor, Cursor { row: 1, col: 3 });
    press(&mut app, "k");
    assert_eq!(app.cursor, Cursor { row: 0, col: 3 });
    press(&mut app, &ENTER.to_string());
    assert_eq!(app.cursor, Cursor { row: 1, col: 2 });
    press(&mut app, "G");
    assert_eq!(app.cursor, Cursor { row: 1, col: 4 });
    app.cursor = Cursor { row: 1, col: 0 };
    press(&mut app, &BACKSPACE.to_string());
    assert_eq!(app.cursor, Cursor { row: 0, col: 6 });
    press(&mut app, &BACKSPACE.to_string());
    assert_eq!(app.cursor, Cursor { row: 0, col: 5 });
}

#[test]
fn keys_that_need_a_line_are_refused_without_one() {
    let doc = Document { file_path: "f".to_owned(), lines: vec![] };
    let app = App::new(doc, Viewport::new(10, 5));
    assert!(!app.accepts_key('h'));
    assert!(!app.accepts_key('x'));
    assert!(!app.accepts_key('G'));
    assert!(app.accepts_key('Q'));
    assert!(app.accepts_key('k'));
}

#[test]
fn u_after_a_replace_gives_back_replace_mode() {
    let mut app = app_of(&["abc"], 0, 1);
    press(&mut app, "rz");
    assert_eq!(lines(&app), vec!["azc"]);
    press(&mut app, "u");
    assert_eq!(lines(&app), vec!["abc"]);
    assert_eq!(app.cursor, Cursor { row: 0, col: 1 });
    assert_eq!(app.mode, Mode::Replace);
}

#[test]
fn u_after_dd_and_after_a_visual_cut() {
    let mut app = app_of(&["one", "two", "three", ""], 1, 2);
    press(&mut app, "dd");
    assert_eq!(lines(&app), vec!["one", "three", ""]);
    press(&mut app, "u");
    assert_eq!(lines(&app), vec!["one", "two", "three", ""]);
    assert_eq!(app.cursor, Cursor { row: 1, col: 2 });
    assert_eq!(app.mode, Mode::Normal);

    press(&mut app, "vd");
    assert_eq!(lines(&app), vec!["one", "tw", "three", ""]);
    press(&mut app, "u");
    assert_eq!(lines(&app), vec!["one", "two", "three", ""]);
    assert_eq!(app.cursor, Cursor { row: 1, col: 2 });
    assert_eq!(app.mode, Mode::Visual(Pos { row: 1, col: 2 }));
}

#[test]
fn typing_then_backspace_gives_the_editor_back() {
    let mut app = app_of(&["ab", "cd"], 1, 1);
    press(&mut app, "i");
    let snapshot_lines: Vec<String> = app.doc.lines.clone();
    let cursor = app.cursor;
    press(&mut app, "Z");
    assert_eq!(lines(&app), vec!["ab", "cZd"]);
    press(&mut app, &BACKSPACE.to_string());
    assert_eq!(app.doc.lines, snapshot_lines);
    assert_eq!(app.cursor, cursor);
    assert_eq!(app.mode, Mode::Insert);
}

#[test]
fn pasting_text_with_breaks_keeps_lines_whole() {
    let mut app = app_of(&["xy", ""], 0, 1);
    app.clipboard = Clipboard::Normal("1\n2".to_owned());
    press(&mut app, "P");
    assert_eq!(lines(&app), vec!["x1", "2y", ""]);
    assert_eq!(app.cursor, Cursor { row: 1, col: 1 });
    press(&mut app, "u");
    assert_eq!(lines(&app), vec!["xy", ""]);
    assert!(app.doc.lines.iter().all(|l| !l.contains('\n')));
}

#[test]
fn the_cursor_moves_by_bytes() {
    let mut app = app_of(&["éa", ""], 0, 0);
    press(&mut app, "l");
    assert_eq!(app.cursor, Cursor { row: 0, col: 1 });
    assert!(!app.accepts_key('x'));
    press(&mut app, "l");
    assert_eq!(app.cursor, Cursor { row: 0, col: 2 });
    press(&mut app, "l");
    assert_eq!(app.cursor, Cursor { row: 0, col: 2 });
    press(&mut app, "x");
    assert_eq!(lines(&app), vec!["é", ""]);
    assert_eq!(app.cursor, Cursor { row: 0, col: 1 });
}
