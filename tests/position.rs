use pepper_core::position::{BufferPosition, BufferRange};

fn p(l: usize, c: usize) -> BufferPosition {
    BufferPosition::line_col(l, c)
}

#[test]
fn insert_shifts_positions_after_the_start() {
    let r = BufferRange::between(p(1, 2), p(3, 1));
    assert_eq!(p(0, 9), p(0, 9).insert(r));
    assert_eq!(p(3, 4), p(1, 5).insert(r));
    assert_eq!(p(4, 7), p(2, 7).insert(r));
    assert_eq!(p(3, 1), p(1, 2).insert(r));
}

#[test]
fn delete_collapses_positions_inside() {
    let r = BufferRange::between(p(1, 2), p(3, 1));
    assert_eq!(p(1, 2), p(2, 0).delete(r));
    assert_eq!(p(1, 5), p(3, 4).delete(r));
    assert_eq!(p(2, 3), p(4, 3).delete(r));
    assert_eq!(p(0, 1), p(0, 1).delete(r));
}

#[test]
fn shift_and_back() {
    let r = BufferRange::between(p(0, 3), p(0, 6));
    for q in [p(0, 0), p(0, 3), p(0, 8), p(2, 1)] {
        assert_eq!(q, q.insert(r).delete(r));
    }
    for q in [p(0, 0), p(0, 6), p(0, 8), p(2, 1)] {
        assert_eq!(q, q.delete(r).insert(r));
    }
    assert_eq!(p(0, 6), p(0, 4).delete(r).insert(r));
}

#[test]
fn between_orders_its_ends() {
    let r = BufferRange::between(p(2, 0), p(1, 5));
    assert_eq!(p(1, 5), r.from);
    assert_eq!(p(2, 0), r.to);
}
