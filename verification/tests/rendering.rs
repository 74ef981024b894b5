use ti::app::{App, Mode};
use ti::context::{self, Ctx};
use ti::cursor::Cursor;
use ti::document::{Document, Pos};
use ti::render_buffer::{self, Cell, RenderBuffer};
use ti::viewport::Viewport;
use ti::{CLEAR_SCREEN, HIDE_CURSOR, SHOW_CURSOR};

fn app_of(lines: &[&str], width: usize, height: usize) -> App {
    let doc = Document {
        file_path: "notes.txt".to_owned(),
        lines: lines.iter().map(|l| l.to_string()).collect(),
    };
    App::new(doc, Viewport::new(width, height))
}

fn chars(b: &RenderBuffer) -> String {
    b.cells.iter().map(|c| c.char).collect()
}

#[test]
fn terminal_codes() {
    assert_eq!(CLEAR_SCREEN, "\x1b[2J\x1b[H");
    assert_eq!(HIDE_CURSOR, "\x1b[?25l");
    assert_eq!(SHOW_CURSOR, "\x1b[?25h");
}

#[test]
fn a_new_render_buffer_is_blank() {
    let b = RenderBuffer::new(3, 2);
    assert_eq!(b.width, 3);
    assert_eq!(b.height, 2);
    assert_eq!(b.cells, vec![Cell::new(' '); 6]);
}

#[test]
fn from_draws_the_lines_with_dots_for_spaces() {
    let app = app_of(&["ab", "c d"], 4, 3);
    let b = RenderBuffer::from(&app, app.viewport.width, app.viewport.height);
    assert_eq!(b.width, 4);
    assert_eq!(b.height, 3);
    assert_eq!(chars(&b), "ab  c·d     ");
    assert!(b.cells.iter().all(|c| !c.highlight));
}

#[test]
fn from_follows_the_viewport() {
    let mut app = app_of(&["zero", "one", "two", "three"], 3, 2);
    app.viewport.top_row = 1;
    app.viewport.left_column = 1;
    let b = RenderBuffer::from(&app, app.viewport.width, app.viewport.height);
    assert_eq!(chars(&b), "ne wo ");
}

#[test]
fn from_highlights_the_visual_selection() {
    let mut app = app_of(&["ab", "c d"], 4, 2);
    app.mode = Mode::Visual(Pos { row: 0, col: 1 });
    app.cursor = Cursor { row: 1, col: 0 };
    let b = RenderBuffer::from(&app, app.viewport.width, app.viewport.height);
    let lit: Vec<bool> = b.cells.iter().map(|c| c.highlight).collect();
    assert_eq!(lit, vec![false, true, false, false, true, false, false, false]);
}

#[test]
fn diff_lists_the_changed_cells_in_order() {
    let app = app_of(&["ab", "c"], 3, 2);
    let new = RenderBuffer::from(&app, app.viewport.width, app.viewport.height);
    let old = RenderBuffer::new(3, 2);
    let d = new.diff(&old);
    assert_eq!(
        d,
        vec![
            (render_buffer::Pos { row: 0, col: 0 }, Cell::new('a')),
            (render_buffer::Pos { row: 0, col: 1 }, Cell::new('b')),
            (render_buffer::Pos { row: 1, col: 0 }, Cell::new('c')),
        ]
    );
    assert!(new.diff(&new.clone()).is_empty());
}

#[test]
fn patch_draws_each_change_between_hiding_and_showing_the_cursor() {
    let diff = vec![
        (render_buffer::Pos { row: 0, col: 1 }, Cell::new('a')),
        (render_buffer::Pos { row: 2, col: 0 }, Cell { char: '·', highlight: true }),
    ];
    assert_eq!(
        RenderBuffer::patch(diff),
        "\x1b[?25l\x1b[1;2H\x1b[0ma\x1b[0m\x1b[3;1H\x1b[90;40m·\x1b[0m\x1b[?25h"
    );
    assert_eq!(RenderBuffer::patch(vec![]), "\x1b[?25l\x1b[?25h");
}

#[test]
fn context_is_built_from_the_file_text() {
    let ctx = Ctx::from_text("f.txt", "ab\ncd");
    assert_eq!(ctx.content, vec!["ab\r\n".to_owned(), "cd\r\n".to_owned()]);
    assert_eq!(ctx.path, "f.txt");
    assert!(ctx.mode == context::Mode::Normal);
    assert_eq!((ctx.x, ctx.y), (0, 0));
    assert_eq!(ctx.print_all(), "ab\r\ncd\r\n");
    assert_eq!(ctx.saved_text(), "ab\ncd\n");
}

#[test]
fn context_moves_give_their_control_sequences() {
    let mut ctx = Ctx::from_text("f.txt", "ab\ncd");
    assert_eq!(ctx.down(1), "\x1b[1B");
    assert_eq!(ctx.y, 1);
    assert_eq!(ctx.down(1), "");
    assert_eq!(ctx.y, 1);
    assert_eq!(ctx.up(2), "");
    assert_eq!(ctx.up(1), "\x1b[1A");
    assert_eq!(ctx.y, 0);
    assert_eq!(ctx.right(12), "\x1b[12C");
    assert_eq!(ctx.x, 12);
    assert_eq!(ctx.left(13), "");
    assert_eq!(ctx.left(2), "\x1b[2D");
    assert_eq!(ctx.x, 10);
    assert_eq!(ctx.go_to(4, 7), "\x1b[7;4H");
    assert_eq!((ctx.x, ctx.y), (4, 7));
    assert_eq!(ctx.thin_cursor(), "\x1b[6 q");
    assert_eq!(ctx.block_cursor(), "\x1b[2 q");
}

#[test]
fn writing_the_diff_over_the_old_grid_gives_the_new_one() {
    let mut before = app_of(&["abc", "d"], 4, 2);
    let old = RenderBuffer::from(&before, 4, 2);
    before.doc.lines = vec!["xbc".to_owned(), "".to_owned(), "e".to_owned()];
    let new = RenderBuffer::from(&before, 4, 2);
    let d = new.diff(&old);
    assert_eq!(d.len(), 2);
    let mut cells = old.cells.clone();
    for (pos, cell) in d {
        cells[pos.row * new.width + pos.col] = cell;
    }
    assert_eq!(cells, new.cells);
}

#[test]
fn can_render_tells_when_the_document_fits() {
    let app = app_of(&["ab", "cd"], 2, 2);
    assert!(RenderBuffer::can_render(&app, app.viewport.width, app.viewport.height));
    let long = app_of(&["ab", "cde"], 2, 2);
    assert!(!RenderBuffer::can_render(&long, long.viewport.width, long.viewport.height));
    let wrapped = app_of(&["abcd"], 2, 2);
    assert!(RenderBuffer::can_render(&wrapped, wrapped.viewport.width, wrapped.viewport.height));
    let mut scrolled = app_of(&["a", "b", "c"], 2, 2);
    scrolled.viewport.top_row = 1;
    scrolled.mode = Mode::Visual(Pos { row: 0, col: 0 });
    scrolled.cursor = Cursor { row: 2, col: 0 };
    assert!(!RenderBuffer::can_render(&scrolled, scrolled.viewport.width, scrolled.viewport.height));
    scrolled.mode = Mode::Normal;
    assert!(RenderBuffer::can_render(&scrolled, scrolled.viewport.width, scrolled.viewport.height));
}

#[test]
fn from_fills_the_whole_terminal_below_a_lower_viewport() {
    let app = app_of(&["ab", "cd", "ef"], 2, 1);
    assert!(RenderBuffer::can_render(&app, 2, 3));
    let b = RenderBuffer::from(&app, 2, 3);
    assert_eq!((b.width, b.height), (2, 3));
    assert_eq!(chars(&b), "ab    ");
    assert!(!RenderBuffer::can_render(&app_of(&["abcdefg"], 2, 1), 2, 3));
    assert!(!RenderBuffer::can_render(&app, usize::MAX, 2));
}
