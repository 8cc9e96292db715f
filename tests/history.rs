use pepper_core::history::{Edit, EditKind, History};
use pepper_core::position::{BufferPosition, BufferRange};

fn edit(kind: EditKind, range: BufferRange, text: &str) -> Edit {
    Edit { kind, range, text: text.as_bytes().to_vec(), cursor_index: 0 }
}

fn range(from: usize, to: usize) -> BufferRange {
    BufferRange::between(BufferPosition::line_col(0, from), BufferPosition::line_col(0, to))
}

#[test]
fn commit_edits_on_emtpy_history() {
    let mut history = History::new();
    assert_eq!(0, history.undo_edits().len());
    assert_eq!(0, history.redo_edits().len());
    history.commit_edits();
    assert_eq!(0, history.redo_edits().len());
    assert_eq!(0, history.undo_edits().len());
    history.commit_edits();
    history.commit_edits();
    assert_eq!(0, history.undo_edits().len());
    assert_eq!(0, history.redo_edits().len());
}

#[test]
fn edit_grouping() {
    let mut history = History::new();

    history.add_edit(&edit(EditKind::Insert, BufferRange::default(), "a"));
    history.add_edit(&edit(EditKind::Delete, BufferRange::default(), "b"));

    assert_eq!(0, history.redo_edits().len());

    let edits = history.undo_edits();
    assert_eq!(2, edits.len());
    assert_eq!(EditKind::Insert, edits[0].kind);
    assert_eq!(b"b", &edits[0].text[..]);
    assert_eq!(EditKind::Delete, edits[1].kind);
    assert_eq!(b"a", &edits[1].text[..]);

    let edits = history.redo_edits();
    assert_eq!(2, edits.len());
    assert_eq!(EditKind::Insert, edits[0].kind);
    assert_eq!(b"a", &edits[0].text[..]);
    assert_eq!(EditKind::Delete, edits[1].kind);
    assert_eq!(b"b", &edits[1].text[..]);

    assert_eq!(0, history.redo_edits().len());

    let edits = history.undo_edits();
    assert_eq!(2, edits.len());
    assert_eq!(EditKind::Insert, edits[0].kind);
    assert_eq!(b"b", &edits[0].text[..]);
    assert_eq!(EditKind::Delete, edits[1].kind);
    assert_eq!(b"a", &edits[1].text[..]);

    history.add_edit(&edit(EditKind::Insert, BufferRange::default(), "c"));

    assert_eq!(0, history.redo_edits().len());

    let edits = history.undo_edits();
    assert_eq!(1, edits.len());
    assert_eq!(EditKind::Delete, edits[0].kind);
    assert_eq!(b"c", &edits[0].text[..]);

    assert_eq!(0, history.undo_edits().len());
}

#[test]
fn compress_insert_insert_edits() {
    let mut history = History::new();
    history.add_edit(&edit(EditKind::Insert, range(0, 3), "abc"));
    history.add_edit(&edit(EditKind::Insert, range(3, 6), "def"));
    let edits = history.undo_edits();
    assert_eq!(1, edits.len());
    assert_eq!(EditKind::Delete, edits[0].kind);
    assert_eq!(b"abcdef", &edits[0].text[..]);
    assert_eq!(range(0, 6), edits[0].range);

    let mut history = History::new();
    history.add_edit(&edit(EditKind::Insert, range(0, 3), "abc"));
    history.add_edit(&edit(EditKind::Insert, range(0, 3), "def"));
    let edits = history.undo_edits();
    assert_eq!(1, edits.len());
    assert_eq!(EditKind::Delete, edits[0].kind);
    assert_eq!(b"defabc", &edits[0].text[..]);
    assert_eq!(range(0, 6), edits[0].range);
}

#[test]
fn compress_delete_delete_edits() {
    let mut history = History::new();
    history.add_edit(&edit(EditKind::Delete, range(0, 3), "abc"));
    history.add_edit(&edit(EditKind::Delete, range(0, 3), "def"));
    let edits = history.undo_edits();
    assert_eq!(1, edits.len());
    assert_eq!(EditKind::Insert, edits[0].kind);
    assert_eq!(b"abcdef", &edits[0].text[..]);
    assert_eq!(range(0, 6), edits[0].range);

    let mut history = History::new();
    history.add_edit(&edit(EditKind::Delete, range(3, 6), "abc"));
    history.add_edit(&edit(EditKind::Delete, range(0, 3), "def"));
    let edits = history.undo_edits();
    assert_eq!(1, edits.len());
    assert_eq!(EditKind::Insert, edits[0].kind);
    assert_eq!(b"defabc", &edits[0].text[..]);
    assert_eq!(range(0, 6), edits[0].range);
}

#[test]
fn compress_insert_delete_edits() {
    // -- insert ------
    // -- delete --
    let mut history = History::new();
    history.add_edit(&edit(EditKind::Insert, range(0, 6), "abcdef"));
    history.add_edit(&edit(EditKind::Delete, range(0, 3), "abc"));
    let edits = history.undo_edits();
    assert_eq!(1, edits.len());
    assert_eq!(EditKind::Delete, edits[0].kind);
    assert_eq!(b"def", &edits[0].text[..]);
    assert_eq!(range(0, 3), edits[0].range);

    // ------ insert --
    //     -- delete --
    let mut history = History::new();
    history.add_edit(&edit(EditKind::Insert, range(0, 6), "abcdef"));
    history.add_edit(&edit(EditKind::Delete, range(3, 6), "def"));
    let edits = history.undo_edits();
    assert_eq!(1, edits.len());
    assert_eq!(EditKind::Delete, edits[0].kind);
    assert_eq!(b"abc", &edits[0].text[..]);
    assert_eq!(range(0, 3), edits[0].range);

    // -- insert --
    // -- delete ------
    let mut history = History::new();
    history.add_edit(&edit(EditKind::Insert, range(0, 3), "abc"));
    history.add_edit(&edit(EditKind::Delete, range(0, 6), "abcdef"));
    let edits = history.undo_edits();
    assert_eq!(1, edits.len());
    assert_eq!(EditKind::Insert, edits[0].kind);
    assert_eq!(b"def", &edits[0].text[..]);
    assert_eq!(range(0, 3), edits[0].range);

    //     -- insert --
    // ------ delete --
    let mut history = History::new();
    history.add_edit(&edit(EditKind::Insert, range(3, 6), "def"));
    history.add_edit(&edit(EditKind::Delete, range(0, 6), "abcdef"));
    let edits = history.undo_edits();
    assert_eq!(1, edits.len());
    assert_eq!(EditKind::Insert, edits[0].kind);
    assert_eq!(b"abc", &edits[0].text[..]);
    assert_eq!(range(0, 3), edits[0].range);
}

#[test]
fn edits_of_other_cursors_do_not_coalesce() {
    let mut history = History::new();
    history.add_edit(&edit(EditKind::Insert, range(0, 3), "abc"));
    let mut second = edit(EditKind::Insert, range(3, 6), "def");
    second.cursor_index = 1;
    history.add_edit(&second);
    assert_eq!(2, history.undo_edits().len());
}

#[test]
fn delete_with_other_text_does_not_coalesce() {
    let mut history = History::new();
    history.add_edit(&edit(EditKind::Insert, range(0, 3), "abc"));
    history.add_edit(&edit(EditKind::Delete, range(0, 1), "x"));
    assert_eq!(2, history.undo_edits().len());
}

#[test]
fn coalesced_backspace_leaves_one_insert() {
    let mut history = History::new();
    history.add_edit(&edit(EditKind::Insert, range(0, 3), "abc"));
    history.add_edit(&edit(EditKind::Delete, range(2, 3), "c"));
    history.add_edit(&edit(EditKind::Delete, range(1, 2), "b"));
    let edits = history.undo_edits();
    assert_eq!(1, edits.len());
    assert_eq!(EditKind::Delete, edits[0].kind);
    assert_eq!(b"a", &edits[0].text[..]);
    assert_eq!(range(0, 1), edits[0].range);
}

#[test]
fn redo_after_undo_replays_the_group() {
    let mut history = History::new();
    history.add_edit(&edit(EditKind::Insert, range(0, 1), "x"));
    history.add_edit(&edit(EditKind::Delete, range(5, 7), "yz"));
    history.commit_edits();
    let undone = history.undo_edits();
    let redone = history.redo_edits();
    assert_eq!(2, undone.len());
    assert_eq!(2, redone.len());
    assert_eq!(b"x", &redone[0].text[..]);
    assert_eq!(EditKind::Insert, redone[0].kind);
    assert_eq!(b"yz", &redone[1].text[..]);
    assert_eq!(EditKind::Delete, redone[1].kind);
    assert_eq!(EditKind::Insert, undone[0].kind);
    assert_eq!(b"yz", &undone[0].text[..]);
}
