use tantivy::delete_queue::DeleteQueue;
use tantivy::operation::{DeleteOperation, Document, Field, Term};
use tantivy::segment::{compute_deleted_bitset, DocToOpstampMapping, SegmentContent};

fn doc_with(field: Field, text: &str) -> Document {
    let mut d = Document::new();
    d.add_text(field, text);
    d
}

#[test]
fn doc_limit_counts_earlier_documents() {
    let m = DocToOpstampMapping::WithMap(vec![1, 3, 5, 7]);
    assert_eq!(m.compute_doc_limit(0), 0);
    assert_eq!(m.compute_doc_limit(1), 0);
    assert_eq!(m.compute_doc_limit(2), 1);
    assert_eq!(m.compute_doc_limit(5), 2);
    assert_eq!(m.compute_doc_limit(6), 3);
    assert_eq!(m.compute_doc_limit(100), 4);
    assert_eq!(DocToOpstampMapping::Unmapped.compute_doc_limit(3), u32::MAX);
}

#[test]
fn deleted_bitset_respects_stamps_and_terms() {
    let f = Field(0);
    let segment = SegmentContent::from_documents(vec![
        doc_with(f, "a"),
        doc_with(f, "b"),
        doc_with(f, "a"),
        doc_with(f, "a"),
    ]);
    let stamps = DocToOpstampMapping::WithMap(vec![10, 11, 12, 20]);
    let mut queue = DeleteQueue::new();
    let mut cursor = queue.cursor();
    queue.push(DeleteOperation { opstamp: 13, term: Term::from_field_text(f, "a") });
    queue.push(DeleteOperation { opstamp: 14, term: Term::from_field_text(f, "c") });
    queue.push(DeleteOperation { opstamp: 25, term: Term::from_field_text(f, "b") });
    let mut bits = bit_set::BitSet::with_capacity(4);
    let changed = compute_deleted_bitset(&mut bits, &segment, &mut cursor, &mut queue, &stamps, 20);
    assert!(changed);
    assert!(bits.contains(0));
    assert!(!bits.contains(1));
    assert!(bits.contains(2));
    assert!(!bits.contains(3));
    assert_eq!(bits.len(), 2);
    assert_eq!(cursor.get(&mut queue).unwrap().opstamp, 25);
}

#[test]
fn deleted_bitset_unchanged_without_matches() {
    let f = Field(0);
    let segment = SegmentContent::from_documents(vec![doc_with(f, "a")]);
    let stamps = DocToOpstampMapping::WithMap(vec![10]);
    let mut queue = DeleteQueue::new();
    let mut cursor = queue.cursor();
    queue.push(DeleteOperation { opstamp: 5, term: Term::from_field_text(f, "a") });
    let mut bits = bit_set::BitSet::with_capacity(1);
    let changed = compute_deleted_bitset(&mut bits, &segment, &mut cursor, &mut queue, &stamps, 10);
    assert!(!changed);
    assert_eq!(bits.len(), 0);
    assert!(cursor.get(&mut queue).is_none());
}
