use ti::app::Mode;
use ti::cursor::Cursor;
use ti::document::{Document, Pos};
use ti::undo::UndoStack;
use ti::viewport::Viewport;

fn doc_of(lines: &[&str]) -> Document {
    Document {
        file_path: "notes.txt".to_owned(),
        lines: lines.iter().map(|l| l.to_string()).collect(),
    }
}

#[test]
fn a_new_cursor_is_at_the_origin() {
    let c = Cursor::new();
    assert_eq!(c, Cursor { row: 0, col: 0 });
    assert_eq!(c.to_pos(), Pos { row: 0, col: 0 });
}

#[test]
fn build_places_the_cursor_and_sets_its_shape() {
    let doc = doc_of(&["abc", "defgh"]);
    let viewport = Viewport::new(80, 24);
    let c = Cursor { row: 1, col: 9 };
    assert_eq!(c.build(&doc, &viewport, Mode::Normal), "\x1b[2;5H\x1b[2 q");
    assert_eq!(c.build(&doc, &viewport, Mode::Insert), "\x1b[2;6H\x1b[6 q");
    assert_eq!(c.build(&doc, &viewport, Mode::Delete), "\x1b[2;5H\x1b[4 q");
    assert_eq!(c.build(&doc, &viewport, Mode::Replace), "\x1b[2;5H\x1b[4 q");
    let v = Mode::Visual(Pos { row: 0, col: 0 });
    assert_eq!(Cursor { row: 0, col: 1 }.build(&doc, &viewport, v), "\x1b[1;2H\x1b[2 q");
    let shifted = Viewport { top_row: 1, left_column: 2, width: 80, height: 24 };
    let far = Cursor { row: 1, col: 14 };
    assert_eq!(far.build(&doc, &shifted, Mode::Normal), "\x1b[1;3H\x1b[2 q");
}

#[test]
fn horizontal_moves_stay_on_the_line() {
    let doc = doc_of(&["abc", ""]);
    let mut c = Cursor { row: 0, col: 1 };
    c.right(&doc, Mode::Normal);
    assert_eq!(c, Cursor { row: 0, col: 2 });
    c.right(&doc, Mode::Normal);
    assert_eq!(c, Cursor { row: 0, col: 2 });
    c.right(&doc, Mode::Insert);
    assert_eq!(c, Cursor { row: 0, col: 3 });
    c.left().left().left().left();
    assert_eq!(c, Cursor { row: 0, col: 0 });
    let mut wide = Cursor { row: 0, col: 7 };
    wide.bound_col(&doc, Mode::Normal);
    assert_eq!(wide.col, 2);
    let mut on_empty = Cursor { row: 1, col: 3 };
    on_empty.bound_col(&doc, Mode::Normal);
    assert_eq!(on_empty.col, 0);
}

#[test]
fn vertical_moves_stay_in_the_document() {
    let doc = doc_of(&["a", "b", "c", ""]);
    let mut c = Cursor { row: 0, col: 5 };
    c.down(&doc).down(&doc).down(&doc);
    assert_eq!(c, Cursor { row: 2, col: 5 });
    c.up();
    assert_eq!(c, Cursor { row: 1, col: 5 });
    c.up().up().up();
    assert_eq!(c.row, 0);
    let mut low = Cursor { row: 9, col: 0 };
    low.bound_row(&doc);
    assert_eq!(low.row, 2);
    c.go_to_last_char(&doc);
    assert_eq!(c, Cursor { row: 2, col: 0 });
    c.go_to_first_line();
    assert_eq!(c, Cursor { row: 0, col: 0 });
}

#[test]
fn line_start_and_end() {
    let doc = doc_of(&["   indented", "    ", "xyz"]);
    let mut c = Cursor { row: 0, col: 8 };
    c.go_to_start_of_line(&doc);
    assert_eq!(c, Cursor { row: 0, col: 3 });
    let mut blank = Cursor { row: 1, col: 2 };
    blank.go_to_start_of_line(&doc);
    assert_eq!(blank.col, 0);
    let mut e = Cursor { row: 2, col: 0 };
    e.go_to_end_of_line(&doc, Mode::Normal);
    assert_eq!(e.col, 2);
    e.go_to_end_of_line(&doc, Mode::Insert);
    assert_eq!(e.col, 3);
    e.go_to_pos(Pos { row: 1, col: 1 });
    assert_eq!(e, Cursor { row: 1, col: 1 });
}

#[test]
fn undo_gives_back_the_last_snapshot() {
    let mut undo = UndoStack::new();
    assert!(undo.pop().is_none());
    undo.push(vec!["a".to_owned()], Cursor { row: 0, col: 1 }, Mode::Normal);
    undo.push(vec!["b".to_owned(), "c".to_owned()], Cursor { row: 1, col: 0 }, Mode::Insert);
    assert_eq!(
        undo.pop(),
        Some((vec!["b".to_owned(), "c".to_owned()], Cursor { row: 1, col: 0 }, Mode::Insert))
    );
    assert_eq!(undo.pop(), Some((vec!["a".to_owned()], Cursor { row: 0, col: 1 }, Mode::Normal)));
    assert!(undo.pop().is_none());
}

#[test]
fn undo_keeps_the_last_thirty_snapshots() {
    let mut undo = UndoStack::new();
    for i in 0..35 {
        undo.push(vec![i.to_string()], Cursor { row: i, col: 0 }, Mode::Normal);
    }
    let mut popped = Vec::new();
    while let Some((lines, cursor, _)) = undo.pop() {
        popped.push((lines[0].clone(), cursor.row));
    }
    assert_eq!(popped.len(), 30);
    assert_eq!(popped[0], ("34".to_owned(), 34));
    assert_eq!(popped[29], ("5".to_owned(), 5));
}

#[test]
fn mode_set_switches_and_returns_the_mode() {
    let mut m = Mode::Normal;
    assert_eq!(m.set(Mode::Insert), Mode::Insert);
    assert_eq!(m, Mode::Insert);
}
