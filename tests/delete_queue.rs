use tantivy::delete_queue::DeleteQueue;
use tantivy::operation::{DeleteOperation, Field, Term};

fn make_op(i: usize) -> DeleteOperation {
    let field = Field(1u32);
    DeleteOperation {
        opstamp: i as u64,
        term: Term::from_field_u64(field, i as u64),
    }
}

#[test]
fn test_deletequeue() {
    let mut delete_queue = DeleteQueue::new();

    delete_queue.push(make_op(1));
    delete_queue.push(make_op(2));

    let snapshot = delete_queue.cursor();
    {
        let mut operations_it = snapshot.clone();
        assert_eq!(operations_it.get(&mut delete_queue).unwrap().opstamp, 1);
        operations_it.advance(&mut delete_queue);
        assert_eq!(operations_it.get(&mut delete_queue).unwrap().opstamp, 2);
        operations_it.advance(&mut delete_queue);
        assert!(operations_it.get(&mut delete_queue).is_none());
        operations_it.advance(&mut delete_queue);

        let mut snapshot2 = delete_queue.cursor();
        assert!(snapshot2.get(&mut delete_queue).is_none());
        delete_queue.push(make_op(3));
        assert_eq!(snapshot2.get(&mut delete_queue).unwrap().opstamp, 3);
        assert_eq!(operations_it.get(&mut delete_queue).unwrap().opstamp, 3);
        assert_eq!(operations_it.get(&mut delete_queue).unwrap().opstamp, 3);
        operations_it.advance(&mut delete_queue);
        assert!(operations_it.get(&mut delete_queue).is_none());
        operations_it.advance(&mut delete_queue);
    }
    {
        let mut operations_it = snapshot.clone();
        assert_eq!(operations_it.get(&mut delete_queue).unwrap().opstamp, 1);
        operations_it.advance(&mut delete_queue);
        assert_eq!(operations_it.get(&mut delete_queue).unwrap().opstamp, 2);
        operations_it.advance(&mut delete_queue);
        assert_eq!(operations_it.get(&mut delete_queue).unwrap().opstamp, 3);
        operations_it.advance(&mut delete_queue);
        assert!(operations_it.get(&mut delete_queue).is_none());
    }
}

#[test]
fn cursors_taken_together_read_the_same_operations() {
    let mut queue = DeleteQueue::new();
    let mut a = queue.cursor();
    let mut b = queue.cursor();
    for i in 0..5 {
        queue.push(make_op(i));
    }
    let mut seen_a = vec![];
    while let Some(op) = a.get(&mut queue) {
        seen_a.push(op.opstamp);
        a.advance(&mut queue);
    }
    let mut seen_b = vec![];
    while let Some(op) = b.get(&mut queue) {
        seen_b.push(op.opstamp);
        b.advance(&mut queue);
    }
    assert_eq!(seen_a, vec![0, 1, 2, 3, 4]);
    assert_eq!(seen_a, seen_b);
}

#[test]
fn cloned_cursor_advances_independently() {
    let mut queue = DeleteQueue::new();
    let mut a = queue.cursor();
    queue.push(make_op(7));
    queue.push(make_op(8));
    let mut b = a.clone();
    assert!(a.advance(&mut queue));
    assert_eq!(a.get(&mut queue).unwrap().opstamp, 8);
    assert_eq!(b.get(&mut queue).unwrap().opstamp, 7);
    assert!(a.advance(&mut queue));
    assert!(!a.advance(&mut queue));
    assert_eq!(b.get(&mut queue).unwrap().opstamp, 7);
}

#[test]
fn skip_to_stops_at_first_operation_not_older_than_target() {
    let mut queue = DeleteQueue::new();
    let mut cursor = queue.cursor();
    for i in [2usize, 4, 6, 8] {
        queue.push(make_op(i));
    }
    cursor.skip_to(&mut queue, 5);
    assert_eq!(cursor.get(&mut queue).unwrap().opstamp, 6);
    cursor.skip_to(&mut queue, 6);
    assert_eq!(cursor.get(&mut queue).unwrap().opstamp, 6);
    cursor.skip_to(&mut queue, 100);
    assert!(cursor.get(&mut queue).is_none());
}

#[test]
fn empty_queue_has_nothing_to_read() {
    let mut queue = DeleteQueue::new();
    let mut cursor = queue.cursor();
    assert!(cursor.get(&mut queue).is_none());
    assert!(!cursor.advance(&mut queue));
}

#[test]
fn term_bytes_hold_field_then_value() {
    let t = Term::from_field_u64(Field(1), 0x0102030405060708);
    let u = Term::from_field_u64(Field(1), 0x0102030405060708);
    let v = Term::from_field_u64(Field(2), 0x0102030405060708);
    assert!(t.same_as(&u));
    assert!(!t.same_as(&v));
    let c = t.copy();
    assert!(c.same_as(&t));
    let text = Term::from_field_text(Field(0), "ab");
    let text2 = Term::from_field_text(Field(0), "abc");
    assert!(!text.same_as(&text2));
}
