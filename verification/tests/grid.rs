use ti::screen::{
    backspace, break_line, copy, cut, move_block_horizontally, move_block_vertically, paste, Cell,
    Context, Cursor, Mode, ScreenBuffer,
};

fn rows(s: &ScreenBuffer) -> Vec<String> {
    s.cells
        .chunks(s.width)
        .map(|r| r.iter().map(|c| c.char).collect())
        .collect()
}

#[test]
fn a_new_grid_is_blank() {
    let s = ScreenBuffer::new(3, 2, 7);
    assert_eq!(s.cells, vec![Cell::new(' '); 6]);
    assert_eq!((s.width, s.height, s.line_count), (3, 2, 7));
}

#[test]
fn from_lays_the_text_out_row_by_row() {
    let s = ScreenBuffer::from(&b"ab c\nxy".to_vec(), 5, 3);
    assert_eq!(rows(&s), vec!["ab·c ", "xy   ", "     "]);
    assert_eq!(s.line_count, 1);
    assert_eq!(s.line_len(0), 4);
    assert_eq!(s.line_len(1), 2);
    assert_eq!(s.line_len(2), 0);
}

#[test]
fn from_wraps_long_lines_and_stops_at_the_bottom() {
    let s = ScreenBuffer::from(&b"abcdef\ng\nh\ni".to_vec(), 3, 3);
    assert_eq!(rows(&s), vec!["abc", "def", "g  "]);
    assert_eq!(s.line_count, 2);
}

#[test]
fn saved_text_gives_the_rows_back() {
    let s = ScreenBuffer::from(&b"ab c\nxy".to_vec(), 5, 3);
    assert_eq!(s.saved_text(), "ab c\nxy\n\n");
}

#[test]
fn move_a_block_right_and_left() {
    let mut s = ScreenBuffer::from(&b"abc".to_vec(), 6, 2);
    assert!(move_block_horizontally(&mut s, 1, 0, 2, 2).is_ok());
    assert_eq!(rows(&s)[0], "a··bc ");
    let mut t = ScreenBuffer::from(&b"abc".to_vec(), 6, 2);
    assert!(move_block_horizontally(&mut t, 1, 0, 2, -1).is_ok());
    assert_eq!(rows(&t)[0], "bc    ");
}

#[test]
fn move_rows_down_and_up() {
    let mut s = ScreenBuffer::from(&b"ab\ncd\n".to_vec(), 3, 4);
    assert_eq!(s.line_count, 2);
    assert!(move_block_vertically(&mut s, 0, 2, 1).is_ok());
    assert_eq!(rows(&s), vec!["   ", "ab ", "cd ", "   "]);
    assert_eq!(s.line_count, 3);
    let mut t = ScreenBuffer::from(&b"ab\ncd\n".to_vec(), 3, 4);
    assert!(move_block_vertically(&mut t, 1, 1, -1).is_ok());
    assert_eq!(rows(&t), vec!["cd ", "   ", "   ", "   "]);
    assert_eq!(t.line_count, 1);
}

#[test]
fn moving_rows_with_no_room_is_refused() {
    let mut s = ScreenBuffer::from(&b"ab\ncd\n".to_vec(), 3, 4);
    let before = s.cells.clone();
    match move_block_vertically(&mut s, 0, 1, -1) {
        Err(e) => assert_eq!(e.message(), "There is no space to do that action"),
        Ok(()) => panic!("moved above the first row"),
    }
    assert_eq!(s.cells, before);
    assert_eq!(s.line_count, 2);
    assert!(move_block_vertically(&mut s, 1, 0, 3).is_ok());
    assert_eq!(s.cells, before);
}

#[test]
fn backspace_inside_a_line_and_at_its_start() {
    let mut s = ScreenBuffer::from(&b"abc\nde".to_vec(), 5, 3);
    let mut c = Cursor { x: 1, y: 0 };
    assert!(backspace(&mut s, &mut c).is_ok());
    assert_eq!(rows(&s)[0], "bc   ");
    assert_eq!(c, Cursor { x: 0, y: 0 });

    let mut t = ScreenBuffer::from(&b"abc\nde".to_vec(), 5, 3);
    let mut d = Cursor { x: 0, y: 1 };
    assert!(backspace(&mut t, &mut d).is_ok());
    assert_eq!(rows(&t), vec!["abcde", "     ", "     "]);
    assert_eq!(d, Cursor { x: 3, y: 0 });

    let mut u = ScreenBuffer::from(&b"abc".to_vec(), 5, 3);
    let mut origin = Cursor { x: 0, y: 0 };
    assert!(backspace(&mut u, &mut origin).is_ok());
    assert_eq!(rows(&u)[0], "abc  ");
}

#[test]
fn break_line_moves_the_rest_to_a_new_row() {
    let mut s = ScreenBuffer::from(&b"abcd\n".to_vec(), 5, 4);
    assert!(break_line(&mut s, 2, 0).is_ok());
    assert_eq!(rows(&s), vec!["ab   ", "cd   ", "     ", "     "]);
    assert_eq!(s.line_count, 2);
}

#[test]
fn break_line_with_no_room_is_refused() {
    let mut s = ScreenBuffer::from(&b"abcd\n".to_vec(), 5, 3);
    let before = s.cells.clone();
    assert!(break_line(&mut s, 2, 0).is_err());
    assert_eq!(s.cells, before);
    assert_eq!(s.line_count, 1);
}

#[test]
fn copy_cut_and_paste() {
    let mut s = ScreenBuffer::from(&b"hello".to_vec(), 5, 2);
    assert_eq!(copy(&mut s, 1, 4), "ell");
    assert_eq!(rows(&s)[0], "hello");
    assert_eq!(cut(&mut s, 0, 2), "he");
    assert_eq!(rows(&s)[0], "  llo");
    paste(&mut s, 0, "xy".to_owned());
    assert_eq!(rows(&s)[0], "xyllo");
    paste(&mut s, 3, "pqr".to_owned());
    assert_eq!(rows(&s), vec!["xylpq", "     "]);
}

#[test]
fn a_context_holds_the_file_on_the_grid() {
    let c = Context::from_content("f.txt".to_owned(), &b"hi\n".to_vec(), 4, 2);
    assert_eq!(rows(&c.back_buffer), vec!["hi  ", "    "]);
    assert_eq!(c.back_buffer.line_count, 1);
    assert_eq!(c.front_buffer.cells, vec![Cell::new(' '); 8]);
    assert_eq!(c.front_buffer.line_count, 1);
    assert_eq!(c.file_path, "f.txt");
    assert_eq!(c.cursor, Cursor { x: 0, y: 0 });
    assert_eq!(c.prev_cursor, Cursor { x: 0, y: 0 });
    assert_eq!(c.mode, Mode::Undo);
}

#[test]
fn lays_out_refuses_text_on_a_grid_without_columns() {
    assert!(ScreenBuffer::lays_out(&b"ab\ncd".to_vec(), 3, 2));
    assert!(!ScreenBuffer::lays_out(&b"ab".to_vec(), 0, 2));
    assert!(ScreenBuffer::lays_out(&b"\n\n".to_vec(), 0, 2));
    assert!(ScreenBuffer::lays_out(&b"\n\nab".to_vec(), 0, 2));
    assert!(ScreenBuffer::lays_out(&b"\nab".to_vec(), 0, 2));
    assert!(!ScreenBuffer::lays_out(&b"\nab".to_vec(), 0, 3));
    assert!(ScreenBuffer::lays_out(&b"ab".to_vec(), 0, 0));
}

#[test]
fn cut_then_paste_gives_the_characters_back() {
    let mut s = ScreenBuffer::from(&b"hello world".to_vec(), 6, 2);
    let before = rows(&s);
    assert_eq!(before, vec!["hello·", "world "]);
    let taken = cut(&mut s, 1, 4);
    assert_eq!(taken, "ell");
    assert_eq!(rows(&s)[0], "h   o·");
    paste(&mut s, 1, taken);
    assert_eq!(rows(&s), before);
}

#[test]
fn laying_out_then_saving_gives_the_lines_back() {
    let s = ScreenBuffer::from(&b"a\nb c\n".to_vec(), 4, 5);
    assert_eq!(s.line_count, 2);
    assert_eq!(s.saved_text(), "a\nb c\n\n\n\n");
}

fn lit(s: &ScreenBuffer) -> Vec<bool> {
    s.cells.iter().map(|c| c.highlight).collect()
}

#[test]
fn set_highlighted_cells_marks_the_selection_on_the_text() {
    let mut s = ScreenBuffer::from(&b"abc\nd".to_vec(), 4, 2);
    s.set_highlighted_cells(Cursor { x: 1, y: 1 }, Cursor { x: 1, y: 1 }, Mode::Visual(1));
    assert_eq!(lit(&s), vec![false, true, true, false, true, false, false, false]);
    assert_eq!(rows(&s), vec!["abc ", "d   "]);
    s.set_highlighted_cells(Cursor { x: 2, y: 0 }, Cursor { x: 1, y: 1 }, Mode::Visual(1));
    assert_eq!(lit(&s), vec![false, true, false, false, false, false, false, false]);
    let before = s.cells.clone();
    s.set_highlighted_cells(Cursor { x: 0, y: 0 }, Cursor { x: 3, y: 1 }, Mode::Normal);
    assert_eq!(s.cells, before);
}

#[test]
fn sync_screen_buffers_lists_the_changes_and_records_them() {
    let mut c = Context::from_content("f.txt".to_owned(), &b"ab\n".to_vec(), 3, 2);
    let diff = c.sync_screen_buffers();
    assert_eq!(diff, vec![(0, 0, Cell::new('a')), (1, 0, Cell::new('b'))]);
    assert_eq!(c.front_buffer.cells, c.back_buffer.cells);
    assert_eq!(c.mode, Mode::Normal);
    assert_eq!(c.undo_stack.len(), 1);
    assert_eq!(c.undo_stack[0].0, Mode::Undo);
    assert_eq!(c.undo_stack[0].1.delta, vec![(0, 0, Cell::new(' ')), (1, 0, Cell::new(' '))]);
    assert_eq!(c.undo_stack[0].1.line_count, 1);

    c.cursor = Cursor { x: 1, y: 0 };
    let again = c.sync_screen_buffers();
    assert!(again.is_empty());
    assert_eq!(c.undo_stack.len(), 1);
    assert_eq!(c.prev_cursor, Cursor { x: 1, y: 0 });

    c.mode = Mode::Visual(0);
    let lit_diff = c.sync_screen_buffers();
    assert_eq!(lit_diff, vec![(0, 0, Cell { char: 'a', highlight: true })]);
    assert_eq!(c.undo_stack.len(), 2);
    assert_eq!(c.undo_stack[1].1.delta, vec![(0, 0, Cell::new('a'))]);
}
