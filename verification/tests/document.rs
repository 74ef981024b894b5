use ti::document::{Document, Pos};

#[test]
fn it_joinlines_correctly() {
    let mut doc = Document {
        file_path: "monster.ti".to_owned(),
        lines: vec!["asdf".to_owned(), "asdf".to_owned()],
    };

    let pos = Pos { row: 0, col: 4 };

    doc.delete(pos.clone(), pos);

    assert_eq!(doc.lines, vec!["asdfasdf".to_owned()]);
}

#[test]
fn it_delete_content_in_the_same_line_without_join() {
    let mut doc = Document {
        file_path: "ti.ti".to_owned(),
        lines: vec!["asdf".to_owned(), "asdf".to_owned()],
    };

    let start = Pos { row: 0, col: 0 };
    let end = Pos { row: 0, col: 2 };

    doc.delete(start, end);

    assert_eq!(doc.lines, vec!["f".to_owned(), "asdf".to_owned()]);
}

#[test]
fn it_delete_content_in_the_same_line_and_join() {
    let mut doc = Document {
        file_path: "ti.ti".to_owned(),
        lines: vec!["asdf".to_owned(), "asdf".to_owned()],
    };

    let start = Pos { row: 0, col: 2 };
    let end = Pos { row: 0, col: 4 };

    doc.delete(start, end);

    assert_eq!(doc.lines, vec!["asasdf".to_owned()]);
}

#[test]
fn it_delete_multiple_lines() {
    let mut doc = Document {
        file_path: "ti.ti".to_owned(),
        lines: vec![
            "asdf".to_owned(),
            "asdf".to_owned(),
            "asdf".to_owned(),
            "asdf".to_owned(),
        ],
    };

    let start = Pos { row: 0, col: 4 };
    let end = Pos { row: 2, col: 4 };

    doc.delete(start, end);

    assert_eq!(doc.lines, vec!["asdfasdf".to_owned()]);
}

#[test]
fn it_delete_multiple_lines_and_drain() {
    let mut doc = Document {
        file_path: "ti.ti".to_owned(),
        lines: vec![
            "asdf".to_owned(),
            "asdf".to_owned(),
            "asdf".to_owned(),
            "asdf".to_owned(),
        ],
    };

    let start = Pos { row: 0, col: 4 };
    let end = Pos { row: 2, col: 2 };

    doc.delete(start, end);

    assert_eq!(doc.lines, vec!["asdff".to_owned(), "asdf".to_owned()]);
}

#[test]
fn it_drain_and_delete_multiple_lines() {
    let mut doc = Document {
        file_path: "ti.ti".to_owned(),
        lines: vec![
            "asdf".to_owned(),
            "asdf".to_owned(),
            "asdf".to_owned(),
            "asdf".to_owned(),
        ],
    };

    let start = Pos { row: 0, col: 2 };
    let end = Pos { row: 2, col: 4 };

    doc.delete(start, end);

    assert_eq!(doc.lines, vec!["asasdf".to_owned()]);
}

#[test]
fn it_drain_and_delete_multiple_lines2() {
    let mut doc = Document {
        file_path: "ti.ti".to_owned(),
        lines: vec![
            "asdf".to_owned(),
            "asdf".to_owned(),
            "asdf".to_owned(),
            "asdf".to_owned(),
        ],
    };

    let start = Pos { row: 0, col: 2 };
    let end = Pos { row: 2, col: 1 };

    doc.delete(start, end);

    assert_eq!(doc.lines, vec!["asdf".to_owned(), "asdf".to_owned()]);
}

#[test]
fn it_insert_inline_content() {
    let mut doc = Document {
        file_path: "ti.ti".to_owned(),
        lines: vec!["asdf".to_owned(), "----".to_owned()],
    };

    doc.insert(Pos { row: 0, col: 2 }, "mise");

    assert_eq!(doc.lines, vec!["asmisedf".to_owned(), "----".to_owned()]);
}

#[test]
fn it_insert_multiple_line_content() {
    let mut doc = Document {
        file_path: "ti.ti".to_owned(),
        lines: vec!["asdf".to_owned(), "----".to_owned()],
    };

    doc.insert(Pos { row: 0, col: 2 }, "mise\n123");

    assert_eq!(
        doc.lines,
        vec!["asmise".to_owned(), "123df".to_owned(), "----".to_owned()]
    );
}

#[test]
fn it_insert_new_line_with_content() {
    let mut doc = Document {
        file_path: "ti.ti".to_owned(),
        lines: vec!["asdf".to_owned(), "----".to_owned()],
    };

    doc.insert(Pos { row: 0, col: 4 }, "\n123");

    assert_eq!(
        doc.lines,
        vec!["asdf".to_owned(), "123".to_owned(), "----".to_owned()]
    );
}

#[test]
fn it_insert_content_and_new_line() {
    let mut doc = Document {
        file_path: "ti.ti".to_owned(),
        lines: vec!["asdf".to_owned(), "----".to_owned()],
    };

    doc.insert(Pos { row: 0, col: 4 }, "123\n");

    assert_eq!(
        doc.lines,
        vec!["asdf123".to_owned(), "".to_owned(), "----".to_owned()]
    );
}
