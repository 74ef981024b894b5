use ti::app::Mode;
use ti::document::{Document, Pos};

fn doc_of(lines: &[&str]) -> Document {
    Document {
        file_path: "notes.txt".to_owned(),
        lines: lines.iter().map(|l| l.to_string()).collect(),
    }
}

fn strings(lines: &[&str]) -> Vec<String> {
    lines.iter().map(|l| l.to_string()).collect()
}

#[test]
fn insert_in_a_line_returns_the_place_after_it() {
    let mut doc = doc_of(&["hello", "world"]);
    let end = doc.insert(Pos { row: 0, col: 2 }, "XY");
    assert_eq!(doc.lines, strings(&["heXYllo", "world"]));
    assert_eq!(end, Pos { row: 0, col: 4 });
}

#[test]
fn insert_with_line_breaks_splits_the_line() {
    let mut doc = doc_of(&["hello", "world"]);
    let end = doc.insert(Pos { row: 0, col: 2 }, "a\nbc");
    assert_eq!(doc.lines, strings(&["hea", "bcllo", "world"]));
    assert_eq!(end, Pos { row: 1, col: 2 });
}

#[test]
fn insert_at_the_end_of_the_last_line() {
    let mut doc = doc_of(&["ab"]);
    let end = doc.insert(Pos { row: 0, col: 2 }, "\n");
    assert_eq!(doc.lines, strings(&["ab", ""]));
    assert_eq!(end, Pos { row: 1, col: 0 });
}

#[test]
fn insert_then_delete_gives_the_document_back() {
    let mut doc = doc_of(&["hello", "world"]);
    let end = doc.insert(Pos { row: 0, col: 2 }, "a\nbc");
    assert_eq!(end, Pos { row: 1, col: 2 });
    let removed = doc.delete(Pos { row: 0, col: 2 }, Pos { row: 1, col: 1 });
    assert_eq!(removed, "a\nbc");
    assert_eq!(doc.lines, strings(&["hello", "world"]));
}

#[test]
fn delete_then_insert_gives_the_document_back() {
    let mut doc = doc_of(&["abc", "def"]);
    let removed = doc.delete(Pos { row: 0, col: 1 }, Pos { row: 1, col: 0 });
    assert_eq!(removed, "bc\nd");
    assert_eq!(doc.lines, strings(&["aef"]));
    doc.insert(Pos { row: 0, col: 1 }, &removed);
    assert_eq!(doc.lines, strings(&["abc", "def"]));
}

#[test]
fn delete_on_a_line_break_joins_the_lines() {
    let mut doc = doc_of(&["ab", "cd", "ef"]);
    let removed = doc.delete(Pos { row: 0, col: 2 }, Pos { row: 0, col: 2 });
    assert_eq!(removed, "\n");
    assert_eq!(doc.lines, strings(&["abcd", "ef"]));
}

#[test]
fn delete_at_the_end_of_the_last_line_changes_nothing() {
    let mut doc = doc_of(&["ab"]);
    let removed = doc.delete(Pos { row: 0, col: 2 }, Pos { row: 0, col: 2 });
    assert_eq!(removed, "");
    assert_eq!(doc.lines, strings(&["ab"]));
}

#[test]
fn delete_from_a_line_end_past_it_changes_nothing() {
    let mut doc = doc_of(&["ab", "cd"]);
    let removed = doc.delete(Pos { row: 0, col: 2 }, Pos { row: 0, col: 5 });
    assert_eq!(removed, "");
    assert_eq!(doc.lines, strings(&["ab", "cd"]));
}

#[test]
fn copy_gives_what_delete_removes_and_changes_nothing() {
    let doc = doc_of(&["one", "two", "three"]);
    let copied = doc.copy(Pos { row: 0, col: 1 }, Pos { row: 2, col: 1 });
    assert_eq!(copied, "ne\ntwo\nth");
    assert_eq!(doc.lines, strings(&["one", "two", "three"]));
    let mut other = doc_of(&["one", "two", "three"]);
    let removed = other.delete(Pos { row: 0, col: 1 }, Pos { row: 2, col: 1 });
    assert_eq!(removed, copied);
    assert_eq!(other.lines, strings(&["oree"]));
}

#[test]
fn content_and_from_content_are_inverse() {
    let doc = Document::from_content("f.txt".to_owned(), "a\nb c\n");
    assert_eq!(doc.lines, strings(&["a", "b c", ""]));
    assert_eq!(doc.file_path, "f.txt");
    assert_eq!(doc.content(), "a\nb c\n");
    let empty = Document::from_content("e".to_owned(), "");
    assert_eq!(empty.lines, strings(&[""]));
    assert_eq!(empty.content(), "");
}

#[test]
fn snapshot_and_restore() {
    let mut doc = doc_of(&["x", "y"]);
    let snap = doc.snapshot();
    assert_eq!(snap, strings(&["x", "y"]));
    doc.insert(Pos { row: 0, col: 0 }, "zz");
    assert_eq!(doc.get_content(), &strings(&["zzx", "y"]));
    doc.restore(snap);
    assert_eq!(doc.lines, strings(&["x", "y"]));
    assert_eq!(doc.file_path, "notes.txt");
}

#[test]
fn insert_line_adds_an_empty_line() {
    let mut doc = doc_of(&["a", "b"]);
    doc.insert_line(1);
    assert_eq!(doc.lines, strings(&["a", "", "b"]));
    doc.insert_line(3);
    assert_eq!(doc.lines, strings(&["a", "", "b", ""]));
}

#[test]
fn column_and_row_bounds() {
    let doc = doc_of(&["abc", "", "é", "z"]);
    assert_eq!(doc.col_bound(0, Mode::Normal), 2);
    assert_eq!(doc.col_bound(0, Mode::Insert), 3);
    assert_eq!(doc.col_bound(0, Mode::Visual(Pos { row: 0, col: 0 })), 3);
    assert_eq!(doc.col_bound(0, Mode::Delete), 2);
    assert_eq!(doc.col_bound(1, Mode::Normal), 0);
    assert_eq!(doc.col_bound(1, Mode::Insert), 0);
    assert_eq!(doc.col_bound(2, Mode::Insert), 2);
    assert_eq!(doc.col_bound(2, Mode::Normal), 1);
    assert_eq!(doc.row_bound(), 2);
    assert_eq!(doc_of(&["a"]).row_bound(), 0);
    assert_eq!(doc_of(&["a", "b"]).row_bound(), 0);
    assert_eq!(doc.line_len(2), 2);
}

#[test]
fn valid_positions_and_deletions() {
    let doc = doc_of(&["abc", "de"]);
    assert!(doc.is_valid(Pos { row: 0, col: 3 }));
    assert!(!doc.is_valid(Pos { row: 0, col: 4 }));
    assert!(!doc.is_valid(Pos { row: 2, col: 0 }));
    assert!(doc.can_delete(Pos { row: 0, col: 1 }, Pos { row: 1, col: 2 }));
    assert!(!doc.can_delete(Pos { row: 0, col: 2 }, Pos { row: 0, col: 1 }));
    assert!(!doc.can_delete(Pos { row: 1, col: 0 }, Pos { row: 0, col: 1 }));
    assert!(!doc.can_delete(Pos { row: 0, col: 0 }, Pos { row: 1, col: 3 }));
    assert!(doc.can_delete(Pos { row: 0, col: 3 }, Pos { row: 0, col: 9 }));
}

#[test]
fn next_word_skips_the_run_and_the_blanks() {
    let doc = doc_of(&["foo bar", "baz"]);
    assert_eq!(doc.next_word(Pos { row: 0, col: 0 }), Pos { row: 0, col: 4 });
    assert_eq!(doc.next_word(Pos { row: 0, col: 4 }), Pos { row: 1, col: 0 });
    assert_eq!(doc.next_word(Pos { row: 1, col: 0 }), Pos { row: 1, col: 0 });
    let signs = doc_of(&["a.b"]);
    assert_eq!(signs.next_word(Pos { row: 0, col: 0 }), Pos { row: 0, col: 1 });
    assert_eq!(signs.next_word(Pos { row: 0, col: 1 }), Pos { row: 0, col: 2 });
}

#[test]
fn next_word_counts_letters_beyond_ascii() {
    let doc = doc_of(&["éa b"]);
    assert_eq!(doc.next_word(Pos { row: 0, col: 0 }), Pos { row: 0, col: 4 });
    let digits = doc_of(&["٣x,y"]);
    assert_eq!(digits.next_word(Pos { row: 0, col: 0 }), Pos { row: 0, col: 3 });
}

#[test]
fn prev_word_goes_back_to_the_start_of_a_word() {
    let doc = doc_of(&["foo bar", "baz"]);
    assert_eq!(doc.prev_word(Pos { row: 1, col: 0 }), Pos { row: 0, col: 4 });
    assert_eq!(doc.prev_word(Pos { row: 0, col: 6 }), Pos { row: 0, col: 4 });
    assert_eq!(doc.prev_word(Pos { row: 0, col: 4 }), Pos { row: 0, col: 0 });
    assert_eq!(doc.prev_word(Pos { row: 0, col: 0 }), Pos { row: 0, col: 0 });
}

#[test]
fn last_char_of_next_word() {
    let doc = doc_of(&["foo bar", "baz"]);
    assert_eq!(doc.last_char_of_next_word(Pos { row: 0, col: 0 }), Pos { row: 0, col: 2 });
    assert_eq!(doc.last_char_of_next_word(Pos { row: 0, col: 2 }), Pos { row: 0, col: 6 });
    assert_eq!(doc.last_char_of_next_word(Pos { row: 1, col: 2 }), Pos { row: 1, col: 2 });
}

#[test]
fn offsets_and_positions_match() {
    let doc = doc_of(&["ab", "cde"]);
    assert_eq!(doc.offset_of(Pos { row: 1, col: 1 }), 4);
    assert_eq!(doc.pos_at(4), Pos { row: 1, col: 1 });
    assert_eq!(doc.pos_at(2), Pos { row: 0, col: 2 });
    assert_eq!(doc.offset_of(Pos { row: 0, col: 2 }), 2);
}

#[test]
fn columns_count_bytes() {
    let doc = doc_of(&["éa", "x"]);
    assert_eq!(doc.col_bound(0, Mode::Normal), 2);
    assert_eq!(doc.col_bound(0, Mode::Insert), 3);
    assert!(doc.is_valid(Pos { row: 0, col: 2 }));
    assert!(!doc.is_valid(Pos { row: 0, col: 1 }));
    assert!(!doc.can_delete(Pos { row: 0, col: 0 }, Pos { row: 0, col: 0 }));
    assert!(doc.can_delete(Pos { row: 0, col: 2 }, Pos { row: 0, col: 2 }));
    assert_eq!(doc.offset_of(Pos { row: 1, col: 0 }), 3);
    assert_eq!(doc.pos_at(1), Pos { row: 0, col: 2 });

    let mut cut = doc_of(&["éa", "x"]);
    assert_eq!(cut.copy(Pos { row: 0, col: 2 }, Pos { row: 0, col: 2 }), "a");
    assert_eq!(cut.delete(Pos { row: 0, col: 2 }, Pos { row: 0, col: 2 }), "a");
    assert_eq!(cut.lines, strings(&["é", "x"]));

    let mut joined = doc_of(&["éa", "x"]);
    assert_eq!(joined.delete(Pos { row: 0, col: 3 }, Pos { row: 0, col: 3 }), "\n");
    assert_eq!(joined.lines, strings(&["éax"]));

    let mut typed = doc_of(&["éa"]);
    let end = typed.insert(Pos { row: 0, col: 2 }, "Zü");
    assert_eq!(typed.lines, strings(&["éZüa"]));
    assert_eq!(end, Pos { row: 0, col: 5 });
}
