use pepper_core::buffer::{Buffer, BufferCollection, BufferContent};
use pepper_core::history::EditKind;
use pepper_core::position::{BufferPosition, BufferRange};

fn buffer_to_string(buffer: &BufferContent) -> String {
    let mut buf = Vec::new();
    buffer.write(&mut buf);
    String::from_utf8(buf).unwrap()
}

#[test]
fn buffer_contents_insert_text() {
    let mut buffer = BufferContent::from_str("");

    assert_eq!(1, buffer.line_count());
    assert_eq!("", buffer_to_string(&buffer));

    buffer.insert_text(BufferPosition::line_col(0, 0), "hold");
    buffer.insert_text(BufferPosition::line_col(0, 2), "r");
    buffer.insert_text(BufferPosition::line_col(0, 1), "ello w");
    assert_eq!(1, buffer.line_count());
    assert_eq!("hello world", buffer_to_string(&buffer));

    buffer.insert_text(BufferPosition::line_col(0, 5), "\n");
    buffer.insert_text(BufferPosition::line_col(1, 6), " appending more\nlines");
    assert_eq!(3, buffer.line_count());
    assert_eq!("hello\n world appending more\nlines", buffer_to_string(&buffer));
}

#[test]
fn buffer_contents_delete_range() {
    let mut buffer = BufferContent::from_str("this is the initial\ncontent of the buffer");

    assert_eq!(2, buffer.line_count());
    assert_eq!("this is the initial\ncontent of the buffer", buffer_to_string(&buffer));

    buffer.delete_range(BufferRange::between(
        BufferPosition::line_col(0, 0),
        BufferPosition::line_col(0, 0),
    ));

    assert_eq!(2, buffer.line_count());
    assert_eq!("this is the initial\ncontent of the buffer", buffer_to_string(&buffer));

    buffer.delete_range(BufferRange::between(
        BufferPosition::line_col(0, 11),
        BufferPosition::line_col(0, 19),
    ));

    assert_eq!(2, buffer.line_count());
    assert_eq!("this is the\ncontent of the buffer", buffer_to_string(&buffer));

    buffer.delete_range(BufferRange::between(
        BufferPosition::line_col(0, 8),
        BufferPosition::line_col(1, 15),
    ));

    assert_eq!(1, buffer.line_count());
    assert_eq!("this is buffer", buffer_to_string(&buffer));
}

#[test]
fn insert_returns_the_inserted_range() {
    let mut buffer = BufferContent::from_str("ab");
    let range = buffer.insert_text(BufferPosition::line_col(0, 1), "x\nyz");
    assert_eq!(BufferPosition::line_col(0, 1), range.from);
    assert_eq!(BufferPosition::line_col(1, 2), range.to);
    assert_eq!("ax\nyzb", buffer_to_string(&buffer));
}

#[test]
fn delete_returns_the_deleted_text_with_newlines() {
    let mut buffer = BufferContent::from_str("one\ntwo\nthree");
    let deleted = buffer.delete_range(BufferRange::between(
        BufferPosition::line_col(0, 1),
        BufferPosition::line_col(2, 2),
    ));
    assert_eq!(b"ne\ntwo\nth", &deleted[..]);
    assert_eq!("oree", buffer_to_string(&buffer));
}

#[test]
fn clamp_position_rounds_down_to_char_boundary() {
    let buffer = BufferContent::from_str("aé\nb");
    let mut p = BufferPosition::line_col(0, 2);
    buffer.clamp_position(&mut p);
    assert_eq!(BufferPosition::line_col(0, 1), p);
    let mut p = BufferPosition::line_col(9, 9);
    buffer.clamp_position(&mut p);
    assert_eq!(BufferPosition::line_col(1, 1), p);
    assert_eq!(2, buffer.line(0).char_count());
}

#[test]
fn insert_then_undo_then_redo() {
    let mut buffer = Buffer::with_contents(BufferContent::from_str(""));
    let r = buffer.insert_text(BufferPosition::line_col(0, 0), "hello", 0);
    buffer.insert_text(r.to, " ", 0);
    buffer.insert_text(BufferPosition::line_col(0, 6), "world", 0);
    buffer.history.commit_edits();
    assert_eq!("hello world", buffer_to_string(&buffer.content));

    let undone = buffer.undo();
    assert_eq!(1, undone.len());
    assert_eq!(EditKind::Delete, undone[0].0);
    assert_eq!("", buffer_to_string(&buffer.content));

    buffer.redo();
    assert_eq!("hello world", buffer_to_string(&buffer.content));
}

#[test]
fn coalesced_backspace_undoes_to_empty() {
    let mut buffer = Buffer::with_contents(BufferContent::from_str(""));
    buffer.insert_text(BufferPosition::line_col(0, 0), "abc", 0);
    buffer.delete_range(BufferRange::between(BufferPosition::line_col(0, 2), BufferPosition::line_col(0, 3)), 0);
    buffer.delete_range(BufferRange::between(BufferPosition::line_col(0, 1), BufferPosition::line_col(0, 2)), 0);
    assert_eq!("a", buffer_to_string(&buffer.content));
    let undone = buffer.undo();
    assert_eq!(1, undone.len());
    assert_eq!("", buffer_to_string(&buffer.content));
}

#[test]
fn undo_of_multi_line_delete_restores_bytes() {
    let text = "first\nsecond\nthird";
    let mut buffer = Buffer::with_contents(BufferContent::from_str(text));
    buffer.delete_range(BufferRange::between(BufferPosition::line_col(0, 2), BufferPosition::line_col(2, 3)), 0);
    assert_eq!("fird", buffer_to_string(&buffer.content));
    buffer.undo();
    assert_eq!(text, buffer_to_string(&buffer.content));
}

#[test]
fn collection_reuses_freed_slots() {
    let mut buffers = BufferCollection::new();
    let a = buffers.add(Buffer::with_contents(BufferContent::from_str("a")));
    let b = buffers.add(Buffer::with_contents(BufferContent::from_str("b")));
    assert_eq!(0, a.0);
    assert_eq!(1, b.0);
    buffers.defer_remove(a);
    assert!(buffers.get(a).is_some());
    buffers.free_removed();
    assert!(buffers.get(a).is_none());
    let c = buffers.add(Buffer::with_contents(BufferContent::from_str("c")));
    assert_eq!(0, c.0);
    assert_eq!("c", buffer_to_string(&buffers.get(c).unwrap().content));
}

#[test]
fn edits_mark_the_buffer_unsaved() {
    let mut buffers = BufferCollection::new();
    let handle = buffers.add(Buffer::with_contents(BufferContent::from_str("a")));
    assert!(!buffers.any_needs_save());
    let mut buffer = buffers.take(handle).unwrap();
    buffer.insert_text(BufferPosition::line_col(0, 1), "b", 0);
    assert!(buffer.needs_save);
    buffers.put_back(handle, buffer);
    assert!(buffers.any_needs_save());
    let ctx = pepper_core::command::CommandContext { client_handle: None, buffer_view_handle: None, bang: false, args: Vec::new() };
    assert!(matches!(ctx.assert_can_discard_all_buffers(&buffers), Err(pepper_core::command::CommandError::UnsavedChanges)));
    assert!(matches!(ctx.assert_can_discard_buffer(&buffers, handle), Err(pepper_core::command::CommandError::UnsavedChanges)));
    let forced = pepper_core::command::CommandContext { client_handle: None, buffer_view_handle: None, bang: true, args: Vec::new() };
    assert!(forced.assert_can_discard_buffer(&buffers, handle).is_ok());
    let mut buffer = buffers.take(handle).unwrap();
    buffer.mark_saved();
    buffers.put_back(handle, buffer);
    assert!(ctx.assert_can_discard_all_buffers(&buffers).is_ok());
    assert!(matches!(
        ctx.assert_can_discard_buffer(&buffers, pepper_core::buffer::BufferHandle(7)),
        Err(pepper_core::command::CommandError::InvalidBufferHandle(_))
    ));
}
