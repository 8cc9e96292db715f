use pepper_core::buffer::{Buffer, BufferCollection, BufferContent};
use pepper_core::buffer_view::{
    scroll_to_show, BufferView, BufferViewCollection, BufferViewError, BufferViewHandle,
    ClientHandle, CursorMovement, CursorMovementKind,
};
use pepper_core::cursor::Cursor;
use pepper_core::position::{BufferPosition, BufferRange};

struct TestContext {
    buffers: BufferCollection,
    buffer_views: BufferViewCollection,
    buffer_view_handle: BufferViewHandle,
}

impl TestContext {
    fn with_buffer(text: &str) -> Self {
        let mut buffers = BufferCollection::new();
        let handle = buffers.add(Buffer::with_contents(BufferContent::from_str(text)));
        let buffer_view = BufferView::new(ClientHandle(0), handle);
        let mut buffer_views = BufferViewCollection::new();
        let buffer_view_handle = buffer_views.add(buffer_view);
        Self { buffers, buffer_views, buffer_view_handle }
    }

    fn view(&mut self) -> BufferView {
        self.buffer_views.take(self.buffer_view_handle).unwrap()
    }
}

fn set_cursor(ctx: &mut TestContext, position: BufferPosition) {
    let mut view = ctx.view();
    view.cursors.clear();
    view.cursors.add(Cursor { anchor: position, position });
    view.cursors.normalize();
    ctx.buffer_views.put_back(ctx.buffer_view_handle, view);
}

fn main_cursor_position(ctx: &TestContext) -> BufferPosition {
    ctx.buffer_views.get(ctx.buffer_view_handle).unwrap().cursors.main_cursor().position
}

fn assert_movement(ctx: &mut TestContext, from: (usize, usize), to: (usize, usize), movement: CursorMovement) {
    set_cursor(ctx, BufferPosition::line_col(from.0, from.1));
    let mut view = ctx.view();
    view.move_cursors(&ctx.buffers, movement, CursorMovementKind::PositionAndAnchor);
    ctx.buffer_views.put_back(ctx.buffer_view_handle, view);
    assert_eq!(BufferPosition::line_col(to.0, to.1), main_cursor_position(ctx));
}

#[test]
fn buffer_view_cursor_movement() {
    let mut ctx = TestContext::with_buffer("ab\nc e\nefgh\ni k\nlm");
    assert_movement(&mut ctx, (2, 2), (2, 2), CursorMovement::ColumnsForward(0));
    assert_movement(&mut ctx, (2, 2), (2, 3), CursorMovement::ColumnsForward(1));
    assert_movement(&mut ctx, (2, 2), (2, 4), CursorMovement::ColumnsForward(2));
    assert_movement(&mut ctx, (2, 2), (3, 0), CursorMovement::ColumnsForward(3));
    assert_movement(&mut ctx, (2, 2), (3, 3), CursorMovement::ColumnsForward(6));
    assert_movement(&mut ctx, (2, 2), (4, 0), CursorMovement::ColumnsForward(7));
    assert_movement(&mut ctx, (2, 2), (4, 2), CursorMovement::ColumnsForward(999));

    assert_movement(&mut ctx, (2, 2), (2, 2), CursorMovement::ColumnsBackward(0));
    assert_movement(&mut ctx, (2, 2), (2, 1), CursorMovement::ColumnsBackward(1));
    assert_movement(&mut ctx, (2, 0), (1, 3), CursorMovement::ColumnsBackward(1));
    assert_movement(&mut ctx, (2, 2), (1, 3), CursorMovement::ColumnsBackward(3));
    assert_movement(&mut ctx, (2, 2), (0, 2), CursorMovement::ColumnsBackward(7));
    assert_movement(&mut ctx, (2, 2), (0, 0), CursorMovement::ColumnsBackward(999));

    assert_movement(&mut ctx, (2, 2), (2, 2), CursorMovement::WordsForward(0));
    assert_movement(&mut ctx, (2, 0), (2, 4), CursorMovement::WordsForward(1));
    assert_movement(&mut ctx, (2, 0), (3, 0), CursorMovement::WordsForward(2));
    assert_movement(&mut ctx, (2, 2), (3, 2), CursorMovement::WordsForward(3));
    assert_movement(&mut ctx, (2, 2), (3, 3), CursorMovement::WordsForward(4));
    assert_movement(&mut ctx, (2, 2), (4, 0), CursorMovement::WordsForward(5));
    assert_movement(&mut ctx, (2, 2), (4, 2), CursorMovement::WordsForward(6));
    assert_movement(&mut ctx, (2, 2), (4, 2), CursorMovement::WordsForward(999));

    assert_movement(&mut ctx, (2, 2), (2, 2), CursorMovement::WordsBackward(0));
    assert_movement(&mut ctx, (2, 0), (1, 3), CursorMovement::WordsBackward(1));
    assert_movement(&mut ctx, (2, 0), (1, 2), CursorMovement::WordsBackward(2));
    assert_movement(&mut ctx, (2, 2), (2, 0), CursorMovement::WordsBackward(1));
    assert_movement(&mut ctx, (2, 2), (1, 3), CursorMovement::WordsBackward(2));
    assert_movement(&mut ctx, (2, 2), (1, 2), CursorMovement::WordsBackward(3));
    assert_movement(&mut ctx, (2, 2), (1, 0), CursorMovement::WordsBackward(4));
    assert_movement(&mut ctx, (2, 2), (0, 2), CursorMovement::WordsBackward(5));
    assert_movement(&mut ctx, (2, 2), (0, 0), CursorMovement::WordsBackward(6));
    assert_movement(&mut ctx, (2, 2), (0, 0), CursorMovement::WordsBackward(999));

    let mut ctx = TestContext::with_buffer("123\n  abc def\nghi");
    assert_movement(&mut ctx, (1, 0), (1, 2), CursorMovement::WordsForward(1));
    assert_movement(&mut ctx, (1, 9), (2, 0), CursorMovement::WordsForward(1));
    assert_movement(&mut ctx, (1, 2), (1, 0), CursorMovement::WordsBackward(1));
    assert_movement(&mut ctx, (2, 0), (1, 9), CursorMovement::WordsBackward(1));
}

#[test]
fn line_motions_keep_the_starting_column() {
    let mut ctx = TestContext::with_buffer("abcdef\nab\nabcdef");
    set_cursor(&mut ctx, BufferPosition::line_col(0, 5));
    let mut view = ctx.view();
    view.move_cursors(&ctx.buffers, CursorMovement::LinesForward(1), CursorMovementKind::PositionAndAnchor);
    assert_eq!(BufferPosition::line_col(1, 2), view.cursors.main_cursor().position);
    view.move_cursors(&ctx.buffers, CursorMovement::LinesForward(1), CursorMovementKind::PositionAndAnchor);
    assert_eq!(BufferPosition::line_col(2, 5), view.cursors.main_cursor().position);
    view.move_cursors(&ctx.buffers, CursorMovement::LinesBackward(9), CursorMovementKind::PositionAndAnchor);
    assert_eq!(BufferPosition::line_col(0, 5), view.cursors.main_cursor().position);
}

#[test]
fn home_end_and_first_last_line() {
    let mut ctx = TestContext::with_buffer("  xy\nabc");
    assert_movement(&mut ctx, (0, 3), (0, 0), CursorMovement::Home);
    assert_movement(&mut ctx, (0, 3), (0, 2), CursorMovement::HomeNonWhitespace);
    assert_movement(&mut ctx, (0, 1), (0, 4), CursorMovement::End);
    assert_movement(&mut ctx, (1, 3), (0, 3), CursorMovement::FirstLine);
    assert_movement(&mut ctx, (0, 4), (1, 3), CursorMovement::LastLine);
}

#[test]
fn motion_lands_on_char_boundary() {
    let mut ctx = TestContext::with_buffer("aé\nb");
    assert_movement(&mut ctx, (0, 1), (0, 3), CursorMovement::ColumnsForward(1));
    assert_movement(&mut ctx, (0, 3), (0, 1), CursorMovement::ColumnsBackward(1));
    assert_movement(&mut ctx, (1, 1), (0, 1), CursorMovement::LinesBackward(1));
}

#[test]
fn position_only_keeps_anchor() {
    let mut ctx = TestContext::with_buffer("abcdef");
    set_cursor(&mut ctx, BufferPosition::line_col(0, 1));
    let mut view = ctx.view();
    view.move_cursors(&ctx.buffers, CursorMovement::ColumnsForward(3), CursorMovementKind::PositionOnly);
    let c = view.cursors.main_cursor();
    assert_eq!(BufferPosition::line_col(0, 1), c.anchor);
    assert_eq!(BufferPosition::line_col(0, 4), c.position);
}

#[test]
fn cursors_are_sorted_and_merged() {
    let mut ctx = TestContext::with_buffer("abcdefgh");
    let mut view = ctx.view();
    view.cursors.clear();
    view.cursors.add(Cursor { anchor: BufferPosition::line_col(0, 6), position: BufferPosition::line_col(0, 7) });
    view.cursors.add(Cursor { anchor: BufferPosition::line_col(0, 0), position: BufferPosition::line_col(0, 2) });
    view.cursors.add(Cursor { anchor: BufferPosition::line_col(0, 2), position: BufferPosition::line_col(0, 4) });
    view.cursors.normalize();
    assert_eq!(2, view.cursors.len());
    assert_eq!(BufferPosition::line_col(0, 0), view.cursors.get(0).anchor);
    assert_eq!(BufferPosition::line_col(0, 4), view.cursors.get(0).position);
    assert_eq!(BufferPosition::line_col(0, 7), view.cursors.get(1).position);
    assert_eq!(BufferPosition::line_col(0, 4), view.cursors.main_cursor().position);
    ctx.buffer_views.put_back(ctx.buffer_view_handle, view);
}

#[test]
fn insert_at_every_cursor_and_fan_out() {
    let mut ctx = TestContext::with_buffer("ab\ncd");
    let mut view = ctx.view();
    view.cursors.clear();
    view.cursors.add(Cursor { anchor: BufferPosition::line_col(0, 1), position: BufferPosition::line_col(0, 1) });
    view.cursors.add(Cursor { anchor: BufferPosition::line_col(1, 1), position: BufferPosition::line_col(1, 1) });
    view.cursors.normalize();
    let other = view.clone_with_client_handle(ClientHandle(1));
    let ranges = view.insert_text_at_cursor_positions(&mut ctx.buffers, "XY");
    assert_eq!(2, ranges.len());
    let mut out = Vec::new();
    ctx.buffers.get(view.buffer_handle).unwrap().content.write(&mut out);
    assert_eq!("aXYb\ncXYd", String::from_utf8(out).unwrap());
    let buffer_handle = view.buffer_handle;
    ctx.buffer_views.put_back(ctx.buffer_view_handle, view);
    let other_handle = ctx.buffer_views.add(other);
    for range in ranges {
        ctx.buffer_views.on_buffer_insert_text(buffer_handle, range);
    }
    let moved = &ctx.buffer_views.get(other_handle).unwrap().cursors;
    assert_eq!(BufferPosition::line_col(0, 3), moved.get(0).position);
    assert_eq!(BufferPosition::line_col(1, 3), moved.get(1).position);
}

#[test]
fn delete_fan_out_collapses_positions() {
    let mut ctx = TestContext::with_buffer("abcdef");
    set_cursor(&mut ctx, BufferPosition::line_col(0, 3));
    let handle = ctx.buffer_views.get(ctx.buffer_view_handle).unwrap().buffer_handle;
    ctx.buffer_views.on_buffer_delete_text(handle, BufferRange::between(BufferPosition::line_col(0, 1), BufferPosition::line_col(0, 5)));
    assert_eq!(BufferPosition::line_col(0, 1), main_cursor_position(&ctx));
}

#[test]
fn view_for_client_and_buffer_is_reused() {
    let mut ctx = TestContext::with_buffer("x");
    let buffer_handle = ctx.buffer_views.get(ctx.buffer_view_handle).unwrap().buffer_handle;
    let again = ctx.buffer_views.buffer_view_handle_from_buffer_handle(ClientHandle(0), buffer_handle);
    assert_eq!(ctx.buffer_view_handle, again);
    let other = ctx.buffer_views.buffer_view_handle_from_buffer_handle(ClientHandle(3), buffer_handle);
    assert_ne!(ctx.buffer_view_handle, other);
}

#[test]
fn view_undo_and_redo() {
    let mut ctx = TestContext::with_buffer("");
    let mut view = ctx.view();
    view.insert_text_at_cursor_positions(&mut ctx.buffers, "hello");
    let edits = view.undo(&mut ctx.buffers);
    assert_eq!(1, edits.len());
    let mut out = Vec::new();
    ctx.buffers.get(view.buffer_handle).unwrap().content.write(&mut out);
    assert_eq!(b"", &out[..]);
    view.redo(&mut ctx.buffers);
    let mut out = Vec::new();
    ctx.buffers.get(view.buffer_handle).unwrap().content.write(&mut out);
    assert_eq!(b"hello", &out[..]);
    assert_eq!(BufferPosition::line_col(0, 0), view.cursors.main_cursor().position);
}

#[test]
fn open_by_path_makes_or_reuses_buffers() {
    let mut buffers = BufferCollection::new();
    let mut views = BufferViewCollection::new();
    let opened = views
        .buffer_view_handle_from_path(ClientHandle(0), &mut buffers, "a.txt", "one\ntwo", Some(BufferPosition::line_col(1, 9)))
        .unwrap_or_else(|_| panic!("open failed"));
    let view = views.get(opened).unwrap();
    assert_eq!(1, view.cursors.len());
    assert_eq!(BufferPosition::line_col(1, 3), view.cursors.main_cursor().position);
    assert_eq!(BufferPosition::line_col(1, 3), view.cursors.main_cursor().anchor);
    let buffer_handle = view.buffer_handle;
    assert_eq!(Some(buffer_handle), buffers.find_with_path("a.txt"));
    let again = views
        .buffer_view_handle_from_path(ClientHandle(0), &mut buffers, "a.txt", "ignored", None)
        .unwrap_or_else(|_| panic!("open failed"));
    assert_eq!(opened, again);
    let mut out = Vec::new();
    buffers.get(buffer_handle).unwrap().content.write(&mut out);
    assert_eq!(b"one\ntwo", &out[..]);
    assert!(matches!(
        views.buffer_view_handle_from_path(ClientHandle(0), &mut buffers, "", "", None),
        Err(BufferViewError::InvalidPath)
    ));
}

#[test]
fn completion_replaces_the_word_before_the_cursor() {
    let mut ctx = TestContext::with_buffer("let fo");
    set_cursor(&mut ctx, BufferPosition::line_col(0, 6));
    let mut view = ctx.view();
    view.apply_completion(&mut ctx.buffers, "foobar");
    let mut out = Vec::new();
    ctx.buffers.get(view.buffer_handle).unwrap().content.write(&mut out);
    assert_eq!(b"let foobar", &out[..]);
}

#[test]
fn selection_text_joins_lines() {
    let mut ctx = TestContext::with_buffer("abc\ndef");
    let mut view = ctx.view();
    view.cursors.clear();
    view.cursors.add(Cursor { anchor: BufferPosition::line_col(0, 0), position: BufferPosition::line_col(0, 2) });
    view.cursors.add(Cursor { anchor: BufferPosition::line_col(1, 1), position: BufferPosition::line_col(1, 3) });
    view.cursors.normalize();
    let mut text = Vec::new();
    view.get_selection_text(&ctx.buffers, &mut text);
    assert_eq!(b"ab\nef", &text[..]);
}

#[test]
fn removing_views_defers_their_buffers() {
    let mut ctx = TestContext::with_buffer("x");
    let handle = ctx.buffer_views.get(ctx.buffer_view_handle).unwrap().buffer_handle;
    ctx.buffer_views.defer_remove_buffer_where(&mut ctx.buffers, |v: &BufferView| v.client_handle == ClientHandle(0));
    assert!(ctx.buffer_views.get(ctx.buffer_view_handle).is_none());
    assert!(ctx.buffers.get(handle).is_some());
    ctx.buffers.free_removed();
    assert!(ctx.buffers.get(handle).is_none());
}

#[test]
fn scrolling_follows_the_line() {
    assert_eq!(3, scroll_to_show(5, 3, 10));
    assert_eq!(5, scroll_to_show(5, 9, 10));
    assert_eq!(11, scroll_to_show(5, 20, 10));
}

#[test]
fn undo_with_nothing_to_undo_leaves_cursors() {
    let mut ctx = TestContext::with_buffer("abc");
    set_cursor(&mut ctx, BufferPosition::line_col(0, 2));
    let mut view = ctx.view();
    assert!(view.undo(&mut ctx.buffers).is_empty());
    assert_eq!(BufferPosition::line_col(0, 2), view.cursors.main_cursor().position);
    let mut orphan = BufferView::new(ClientHandle(2), pepper_core::buffer::BufferHandle(9));
    assert!(orphan.redo(&mut ctx.buffers).is_empty());
}

#[test]
fn insert_then_delete_fan_out_restores_cursors() {
    let mut ctx = TestContext::with_buffer("abcdef\nxyz");
    let mut view = ctx.view();
    view.cursors.clear();
    view.cursors.add(Cursor { anchor: BufferPosition::line_col(0, 1), position: BufferPosition::line_col(0, 4) });
    view.cursors.add(Cursor { anchor: BufferPosition::line_col(1, 2), position: BufferPosition::line_col(1, 0) });
    view.cursors.normalize();
    let buffer_handle = view.buffer_handle;
    ctx.buffer_views.put_back(ctx.buffer_view_handle, view);
    let range = BufferRange::between(BufferPosition::line_col(0, 2), BufferPosition::line_col(2, 1));
    ctx.buffer_views.on_buffer_insert_text(buffer_handle, range);
    ctx.buffer_views.on_buffer_delete_text(buffer_handle, range);
    let cursors = &ctx.buffer_views.get(ctx.buffer_view_handle).unwrap().cursors;
    assert_eq!(2, cursors.len());
    assert_eq!(BufferPosition::line_col(0, 1), cursors.get(0).anchor);
    assert_eq!(BufferPosition::line_col(0, 4), cursors.get(0).position);
    assert_eq!(BufferPosition::line_col(1, 2), cursors.get(1).anchor);
    assert_eq!(BufferPosition::line_col(1, 0), cursors.get(1).position);
}
