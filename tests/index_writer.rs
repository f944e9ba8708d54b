use tantivy::error::TantivyError;
use tantivy::index_writer::{
    budget_exhausted, check_heap_size, compute_table_size, initial_table_size, open_index_writer,
    IndexWriter,
};
use tantivy::operation::{Document, Field, Term, UserOperation};
use tantivy::segment::SegmentContent;

fn text_doc(field: Field, text: &str) -> Document {
    let mut doc = Document::new();
    doc.add_text(field, text);
    doc
}

fn num_docs_containing(index_writer: &IndexWriter, field: Field, s: &str) -> usize {
    let term = Term::from_field_text(field, s);
    let mut total = 0;
    for i in 0..index_writer.num_searchable_segments() {
        total += index_writer.segment(i).num_live_docs_with_term(&term);
    }
    total
}

#[test]
fn test_operations_group() {
    let text_field = Field(0);
    let mut index_writer = open_index_writer(0, 1, 3_000_000).unwrap();
    let operations = vec![
        UserOperation::Add(text_doc(text_field, "a")),
        UserOperation::Add(text_doc(text_field, "b")),
    ];
    let batch_opstamp1 = index_writer.run(operations);
    assert_eq!(batch_opstamp1, 2u64);
}

#[test]
fn test_empty_operations_group() {
    let mut index_writer = open_index_writer(0, 1, 3_000_000).unwrap();
    let operations1 = vec![];
    let batch_opstamp1 = index_writer.run(operations1);
    assert_eq!(batch_opstamp1, 0u64);
    let operations2 = vec![];
    let batch_opstamp2 = index_writer.run(operations2);
    assert_eq!(batch_opstamp2, 1u64);
}

#[test]
fn test_commit_and_rollback() {
    let text_field = Field(0);
    let mut index_writer = open_index_writer(0, 1, 3_000_000).unwrap();
    index_writer.add_document(text_doc(text_field, "a"));
    index_writer.rollback();

    assert_eq!(index_writer.commit_opstamp(), 0u64);
    assert_eq!(num_docs_containing(&index_writer, text_field, "a"), 0);
    {
        index_writer.add_document(text_doc(text_field, "b"));
        index_writer.add_document(text_doc(text_field, "c"));
    }
    index_writer.commit();
    assert_eq!(num_docs_containing(&index_writer, text_field, "a"), 0);
    assert_eq!(num_docs_containing(&index_writer, text_field, "b"), 1);
    assert_eq!(num_docs_containing(&index_writer, text_field, "c"), 1);
}

#[test]
fn test_prepare_with_commit_message() {
    let text_field = Field(0);
    let mut index_writer = open_index_writer(0, 1, 12_000_000).unwrap();
    for _doc in 0..100 {
        index_writer.add_document(text_doc(text_field, "a"));
    }
    {
        let mut prepared_commit = index_writer.prepare_commit();
        prepared_commit.set_payload("first commit");
        index_writer.commit_prepared(prepared_commit);
    }
    assert_eq!(index_writer.commit_payload().unwrap(), "first commit");
    for _doc in 0..100 {
        index_writer.add_document(text_doc(text_field, "a"));
    }
    index_writer.commit();
    assert!(index_writer.commit_payload().is_none());
}

#[test]
fn test_prepare_but_rollback() {
    let text_field = Field(0);
    let mut index_writer = open_index_writer(0, 4, 12_000_000).unwrap();
    for _doc in 0..100 {
        index_writer.add_document(text_doc(text_field, "a"));
    }
    {
        let mut prepared_commit = index_writer.prepare_commit();
        prepared_commit.set_payload("first commit");
        index_writer.abort_prepared(prepared_commit);
    }
    assert!(index_writer.commit_payload().is_none());
    for _doc in 0..100 {
        index_writer.add_document(text_doc(text_field, "b"));
    }
    index_writer.commit();
    assert_eq!(num_docs_containing(&index_writer, text_field, "a"), 0);
    assert_eq!(num_docs_containing(&index_writer, text_field, "b"), 100);
}

#[test]
fn test_hashmap_size() {
    assert_eq!(initial_table_size(100_000), 12);
    assert_eq!(initial_table_size(1_000_000), 15);
    assert_eq!(initial_table_size(10_000_000), 18);
    assert_eq!(initial_table_size(1_000_000_000), 19);
}

#[test]
fn table_size_at_exact_third_of_budget() {
    assert_eq!(compute_table_size(12), 32_768);
    assert_eq!(initial_table_size(3 * 32_768), 12);
    assert_eq!(initial_table_size(3 * 32_768 - 1), 11);
    assert_eq!(initial_table_size(1_001), 5);
}

#[test]
fn heap_size_bounds() {
    assert!(check_heap_size(3_000_000).is_ok());
    assert!(check_heap_size(4_293_967_294).is_ok());
    assert!(check_heap_size(4_293_967_295).is_ok());
    assert!(open_index_writer(0, 1, 4_293_967_295).is_ok());
    assert!(matches!(check_heap_size(2_999_999), Err(TantivyError::InvalidArgument(_))));
    assert!(matches!(check_heap_size(4_293_967_296), Err(TantivyError::InvalidArgument(_))));
    assert!(matches!(open_index_writer(0, 1, 1_000), Err(TantivyError::InvalidArgument(_))));
}

#[test]
fn budget_margin() {
    assert!(!budget_exhausted(1_999_999, 3_000_000));
    assert!(budget_exhausted(2_000_000, 3_000_000));
}

#[test]
fn empty_batch_stamps_follow_each_other() {
    let mut index_writer = open_index_writer(41, 1, 3_000_000).unwrap();
    let n = index_writer.run(vec![]);
    assert_eq!(n, 41);
    assert_eq!(index_writer.run(vec![]), n + 1);
}

#[test]
fn two_add_batch_stamps() {
    let text_field = Field(0);
    let mut index_writer = open_index_writer(0, 1, 3_000_000).unwrap();
    let batch = index_writer.run(vec![
        UserOperation::Add(text_doc(text_field, "a")),
        UserOperation::Add(text_doc(text_field, "b")),
    ]);
    assert_eq!(batch, 2);
    assert_eq!(index_writer.next_opstamp(), 3);
    assert_eq!(index_writer.num_pending_docs(), 2);
    assert_eq!(index_writer.commit(), 3);
    let seg = index_writer.segment(0);
    assert_eq!(seg.max_doc(), 2);
}

#[test]
fn stamps_of_mixed_operations_never_repeat() {
    let text_field = Field(0);
    let mut index_writer = open_index_writer(5, 1, 3_000_000).unwrap();
    let mut stamps = vec![];
    stamps.push(index_writer.add_document(text_doc(text_field, "x")));
    stamps.push(index_writer.delete_term(Term::from_field_text(text_field, "y")));
    let batch = index_writer.run(vec![
        UserOperation::Delete(Term::from_field_text(text_field, "x")),
        UserOperation::Add(text_doc(text_field, "z")),
    ]);
    stamps.push(batch - 2);
    stamps.push(batch - 1);
    stamps.push(batch);
    stamps.push(index_writer.commit());
    assert_eq!(stamps, vec![5, 6, 7, 8, 9, 10]);
}

#[test]
fn rollback_then_commit() {
    let text_field = Field(0);
    let mut index_writer = open_index_writer(0, 1, 3_000_000).unwrap();
    index_writer.add_document(text_doc(text_field, "a"));
    index_writer.rollback();
    let opstamp = index_writer.commit();
    assert_eq!(opstamp, 0);
    assert_eq!(index_writer.commit_opstamp(), 0);
    assert_eq!(num_docs_containing(&index_writer, text_field, "a"), 0);
    assert_eq!(index_writer.num_searchable_segments(), 0);
}

#[test]
fn delete_across_segments() {
    let text_field = Field(0);
    let mut index_writer = open_index_writer(0, 1, 3_000_000).unwrap();
    for _ in 0..3 {
        index_writer.add_document(text_doc(text_field, "deleteme"));
        index_writer.commit();
    }
    assert_eq!(index_writer.num_searchable_segments(), 3);
    assert_eq!(num_docs_containing(&index_writer, text_field, "deleteme"), 3);
    index_writer.delete_term(Term::from_field_text(text_field, "deleteme"));
    index_writer.commit();
    assert_eq!(num_docs_containing(&index_writer, text_field, "deleteme"), 0);
    for i in 0..3 {
        let seg = index_writer.segment(i);
        assert_eq!(seg.num_deleted_docs(), 1);
        assert!(seg.is_deleted(0));
        let meta = seg.delete_meta().unwrap();
        assert_eq!(meta.num_deleted_docs, 1);
    }
}

#[test]
fn delete_only_reaches_earlier_documents() {
    let text_field = Field(0);
    let mut index_writer = open_index_writer(0, 1, 3_000_000).unwrap();
    index_writer.add_document(text_doc(text_field, "t"));
    index_writer.delete_term(Term::from_field_text(text_field, "t"));
    index_writer.add_document(text_doc(text_field, "t"));
    index_writer.add_document(text_doc(text_field, "u"));
    index_writer.commit();
    assert_eq!(num_docs_containing(&index_writer, text_field, "t"), 1);
    assert_eq!(num_docs_containing(&index_writer, text_field, "u"), 1);
    let seg = index_writer.segment(0);
    assert!(seg.is_deleted(0));
    assert!(!seg.is_deleted(1));
}

#[test]
fn delete_in_batch_applies_to_earlier_batch_documents() {
    let text_field = Field(0);
    let mut index_writer = open_index_writer(0, 1, 3_000_000).unwrap();
    index_writer.run(vec![
        UserOperation::Add(text_doc(text_field, "k")),
        UserOperation::Delete(Term::from_field_text(text_field, "k")),
        UserOperation::Add(text_doc(text_field, "k")),
    ]);
    index_writer.commit();
    assert_eq!(num_docs_containing(&index_writer, text_field, "k"), 1);
}

#[test]
fn rollback_keeps_committed_state() {
    let text_field = Field(0);
    let mut index_writer = open_index_writer(0, 1, 3_000_000).unwrap();
    index_writer.add_document(text_doc(text_field, "keep"));
    let committed = index_writer.commit();
    index_writer.add_document(text_doc(text_field, "drop"));
    index_writer.delete_term(Term::from_field_text(text_field, "keep"));
    let _prepared = index_writer.prepare_commit();
    index_writer.rollback();
    assert_eq!(index_writer.commit_opstamp(), committed);
    assert_eq!(index_writer.next_opstamp(), committed);
    assert_eq!(index_writer.num_searchable_segments(), 1);
    assert_eq!(num_docs_containing(&index_writer, text_field, "keep"), 1);
    assert_eq!(num_docs_containing(&index_writer, text_field, "drop"), 0);
}

#[test]
fn added_segment_reads_only_later_deletes() {
    let text_field = Field(0);
    let mut index_writer = open_index_writer(0, 2, 3_000_000).unwrap();
    assert_eq!(index_writer.num_threads(), 2);
    assert_eq!(index_writer.heap_size_in_bytes_per_thread(), 3_000_000);
    index_writer.add_segment(SegmentContent::from_documents(vec![
        text_doc(text_field, "p"),
        text_doc(text_field, "q"),
    ]));
    index_writer.delete_term(Term::from_field_text(text_field, "p"));
    assert_eq!(index_writer.commit(), 1);
    assert_eq!(index_writer.generation(), 1);
    assert_eq!(index_writer.num_searchable_segments(), 1);
    assert_eq!(num_docs_containing(&index_writer, text_field, "p"), 0);
    assert_eq!(num_docs_containing(&index_writer, text_field, "q"), 1);
}

#[test]
fn segment_closes_when_memory_budget_is_used_up() {
    let text_field = Field(0);
    let mut index_writer = open_index_writer(0, 1, 3_000_000).unwrap();
    index_writer.add_document(text_doc(text_field, "small"));
    assert_eq!(index_writer.num_pending_docs(), 1);
    // With the first document's 9 bytes, 1_999_999 bytes in all: one byte
    // under what the budget allows once the margin is kept.
    let just_under = "x".repeat(1_999_986);
    index_writer.add_document(text_doc(text_field, &just_under));
    assert_eq!(index_writer.num_pending_docs(), 2);
    index_writer.add_document(text_doc(text_field, "y"));
    assert_eq!(index_writer.num_pending_docs(), 0);
    assert_eq!(index_writer.segment(0).max_doc(), 3);
    assert_eq!(index_writer.num_searchable_segments(), 0);
    index_writer.add_document(text_doc(text_field, "after"));
    assert_eq!(index_writer.num_pending_docs(), 1);
    index_writer.commit();
    assert_eq!(index_writer.num_searchable_segments(), 2);
    assert_eq!(num_docs_containing(&index_writer, text_field, "small"), 1);
    assert_eq!(num_docs_containing(&index_writer, text_field, "after"), 1);
}

#[test]
fn batch_that_fills_the_budget_closes_the_segment() {
    let text_field = Field(0);
    let mut index_writer = open_index_writer(0, 1, 3_000_000).unwrap();
    let big = "z".repeat(1_000_000);
    let batch = index_writer.run(vec![
        UserOperation::Add(text_doc(text_field, &big)),
        UserOperation::Delete(Term::from_field_text(text_field, &big)),
        UserOperation::Add(text_doc(text_field, &big)),
    ]);
    assert_eq!(batch, 3);
    assert_eq!(index_writer.num_pending_docs(), 0);
    let seg = index_writer.segment(0);
    assert_eq!(seg.max_doc(), 2);
    assert!(seg.is_deleted(0));
    assert!(!seg.is_deleted(1));
}

#[test]
fn merge_then_reopen() {
    let text_field = Field(0);
    let mut index_writer = open_index_writer(0, 1, 3_000_000).unwrap();
    for word in ["one", "two", "three"] {
        index_writer.add_document(text_doc(text_field, word));
        index_writer.commit();
    }
    assert_eq!(index_writer.num_searchable_segments(), 3);
    index_writer.merge(&vec![0, 1, 2]).unwrap();
    assert!(index_writer.num_searchable_segments() < 3);
    for word in ["one", "two", "three"] {
        assert_eq!(num_docs_containing(&index_writer, text_field, word), 1);
    }
    assert_eq!(index_writer.segment(0).max_doc(), 3);
}

#[test]
fn merge_drops_deleted_documents_and_keeps_order() {
    let text_field = Field(0);
    let mut index_writer = open_index_writer(0, 1, 3_000_000).unwrap();
    index_writer.add_document(text_doc(text_field, "a"));
    index_writer.add_document(text_doc(text_field, "gone"));
    index_writer.commit();
    index_writer.add_document(text_doc(text_field, "b"));
    index_writer.commit();
    index_writer.add_document(text_doc(text_field, "c"));
    index_writer.commit();
    index_writer.delete_term(Term::from_field_text(text_field, "gone"));
    index_writer.commit();
    index_writer.add_document(text_doc(text_field, "pending"));
    let _ = index_writer.prepare_commit();
    index_writer.merge(&vec![2, 0]).unwrap();
    assert_eq!(index_writer.num_searchable_segments(), 2);
    assert_eq!(index_writer.segment(1).max_doc(), 2);
    assert_eq!(index_writer.segment(1).num_deleted_docs(), 0);
    assert_eq!(num_docs_containing(&index_writer, text_field, "b"), 1);
    assert_eq!(num_docs_containing(&index_writer, text_field, "gone"), 0);
    assert_eq!(index_writer.segment(2).max_doc(), 1);
}

#[test]
fn merge_rejects_bad_selections() {
    let text_field = Field(0);
    let mut index_writer = open_index_writer(0, 1, 3_000_000).unwrap();
    index_writer.add_document(text_doc(text_field, "a"));
    index_writer.commit();
    index_writer.add_document(text_doc(text_field, "b"));
    let _ = index_writer.prepare_commit();
    assert!(matches!(index_writer.merge(&vec![]), Err(TantivyError::InvalidArgument(_))));
    assert!(matches!(index_writer.merge(&vec![0, 0]), Err(TantivyError::InvalidArgument(_))));
    assert!(matches!(index_writer.merge(&vec![1]), Err(TantivyError::InvalidArgument(_))));
    assert_eq!(index_writer.num_searchable_segments(), 1);
    assert!(index_writer.merge(&vec![0]).is_ok());
    assert_eq!(index_writer.num_searchable_segments(), 1);
}
