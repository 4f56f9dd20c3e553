use multibuffer::buffer::{BufAnchor, Buffer};
use multibuffer::coords::{Bias, Point};
use multibuffer::locator::Locator;
use multibuffer::multibuffer::{BufferStore, History, MultiBuffer};
use multibuffer::{char_kind, CharKind};

fn text_of(b: &Buffer) -> String {
    String::from_utf8(b.text_clone()).unwrap()
}

#[test]
fn char_kind_classifies() {
    assert_eq!(char_kind('\n'), CharKind::Newline);
    assert_eq!(char_kind(' '), CharKind::Whitespace);
    assert_eq!(char_kind('a'), CharKind::Word);
    assert_eq!(char_kind('_'), CharKind::Word);
    assert_eq!(char_kind('7'), CharKind::Word);
    assert_eq!(char_kind('.'), CharKind::Punctuation);
}

#[test]
fn locator_between_is_strict() {
    let min = Locator::min();
    let max = Locator::max();
    let a = Locator::between(&min, &max);
    assert!(min.lt(&a));
    assert!(a.lt(&max));
    let b = Locator::between(&a, &max);
    assert!(a.lt(&b));
    let c = Locator::between(&a, &b);
    assert!(a.lt(&c));
    assert!(c.lt(&b));
    // the first id is reproducible, so a removed excerpt's id can be reused
    let again = Locator::between(&min, &max);
    assert!(a == again);
}

#[test]
fn buffer_edit_and_anchors() {
    // a singleton-style scenario: insert at both ends of "abcd"
    let mut b = Buffer::new(b"abcd".to_vec());
    let before0 = b.anchor_at(0, Bias::Left);
    let after0 = b.anchor_at(0, Bias::Right);
    let before4 = b.anchor_at(4, Bias::Left);
    let after4 = b.anchor_at(4, Bias::Right);
    b.edit_at(0, &vec![(0usize, 0usize)], &b"X".to_vec());
    b.edit_at(0, &vec![(5usize, 5usize)], &b"Y".to_vec());
    assert_eq!(text_of(&b), "XabcdY");
    assert_eq!(b.resolve_anchor(before0), 0);
    assert_eq!(b.resolve_anchor(after0), 1);
    assert_eq!(b.resolve_anchor(before4), 5);
    assert_eq!(b.resolve_anchor(after4), 6);
}

#[test]
fn buffer_history_grouping_and_undo() {
    let mut b = Buffer::new(b"1234".to_vec());
    b.start_transaction_at(0);
    b.edit_at(0, &vec![(0usize, 0usize)], &b"A".to_vec());
    b.edit_at(0, &vec![(1usize, 1usize)], &b"B".to_vec());
    let t1 = b.end_transaction_at(0);
    assert!(t1.is_some());
    assert_eq!(text_of(&b), "AB1234");
    // well past the group interval: a separate entry
    b.start_transaction_at(600);
    b.edit_at(600, &vec![(2usize, 2usize)], &b"C".to_vec());
    let t2 = b.end_transaction_at(600);
    assert!(t2.is_some());
    assert_ne!(t1.unwrap(), t2.unwrap());
    assert_eq!(text_of(&b), "ABC1234");
    assert!(b.undo().is_some());
    assert_eq!(text_of(&b), "AB1234");
    assert!(b.undo().is_some());
    assert_eq!(text_of(&b), "1234");
    assert!(b.redo().is_some());
    assert_eq!(text_of(&b), "AB1234");
    assert!(b.redo().is_some());
    assert_eq!(text_of(&b), "ABC1234");
    // undoing the first transaction out of order removes only its bytes
    assert!(b.undo_transaction(t2.unwrap()));
    assert_eq!(text_of(&b), "AB1234");
    assert!(b.undo_transaction(t1.unwrap()));
    assert_eq!(text_of(&b), "1234");
    assert!(b.redo_transaction(t1.unwrap()));
    assert_eq!(text_of(&b), "AB1234");
    assert!(b.redo_transaction(t2.unwrap()));
    assert_eq!(text_of(&b), "ABC1234");
    assert!(b.undo_transaction(t1.unwrap()));
    assert_eq!(text_of(&b), "C1234");
}

#[test]
fn buffer_grouped_edits_merge_within_interval() {
    let mut b = Buffer::new(b"1234".to_vec());
    // two implicit transactions within the interval merge into one entry
    b.edit_at(0, &vec![(0usize, 0usize)], &b"A".to_vec());
    b.edit_at(100, &vec![(1usize, 1usize)], &b"B".to_vec());
    assert_eq!(text_of(&b), "AB1234");
    assert!(b.undo().is_some());
    assert_eq!(text_of(&b), "1234");
    assert!(b.undo().is_none());
}

#[test]
fn multi_history_groups_by_interval() {
    let mut h = History::new();
    h.start_transaction(0);
    assert!(h.end_transaction(0, vec![(0usize, 0usize)]));
    h.start_transaction(100);
    assert!(h.end_transaction(100, vec![(0usize, 1usize)]));
    // within the interval: the two entries merge
    let top = h.group();
    assert!(top.is_some());
    assert_eq!(h.undo_stack.len(), 1);
    assert_eq!(h.undo_stack[0].buffer_transactions.len(), 2);
    // far outside the interval: stays separate
    h.start_transaction(10_000);
    assert!(h.end_transaction(10_000, vec![(0usize, 2usize)]));
    let top2 = h.group();
    assert!(top2.is_some());
    assert_eq!(h.undo_stack.len(), 2);
}

#[test]
fn subscription_replay_reconstructs_text() {
    let mut store = BufferStore::new();
    let _b1 = store.add_buffer(b"bbbb\nccccc".to_vec());
    let mut m = MultiBuffer::new(0);
    let sub = m.subscribe();
    // no change yet: no deltas
    assert!(m.consume(sub).is_empty());
    let _ = store;
}

#[test]
fn point_round_trip_on_buffer_text() {
    let b = Buffer::new(b"bbbb\nccccc\nddd".to_vec());
    let t = b.text_clone();
    for o in 0..=t.len() {
        let p = multibuffer::coords::offset_to_point_in(&t, o);
        let o2 = multibuffer::coords::point_to_offset_in(&t, p);
        assert_eq!(o, o2);
    }
    assert_eq!(
        multibuffer::coords::offset_to_point_in(&t, 7),
        Point { row: 1, column: 2 }
    );
    // clipping is idempotent
    for o in 0..=t.len() + 2 {
        let c = multibuffer::coords::clip_offset_in(&t, o, Bias::Left);
        assert_eq!(c, multibuffer::coords::clip_offset_in(&t, c, Bias::Left));
        let cr = multibuffer::coords::clip_offset_in(&t, o, Bias::Right);
        assert_eq!(cr, multibuffer::coords::clip_offset_in(&t, cr, Bias::Right));
    }
}

#[test]
fn anchor_biases_on_replacement() {
    let mut b = Buffer::new(b"abc".to_vec());
    let left = BufAnchor { version: 0, offset: 1, bias: Bias::Left };
    let right = BufAnchor { version: 0, offset: 1, bias: Bias::Right };
    b.edit_at(0, &vec![(1usize, 2usize)], &b"XY".to_vec());
    assert_eq!(text_of(&b), "aXYc");
    // a left anchor stays before the replacement, a right one follows it
    assert_eq!(b.resolve_anchor(left), 1);
    assert_eq!(b.resolve_anchor(right), 3);
}
