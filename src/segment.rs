//! What the write path knows of a built segment: its documents, the stamps
//! they were added with, and the application of delete operations to them.
use crate::bitset::{bitset_insert, bitset_members};
use crate::delete_queue::{DeleteCursor, DeleteQueue};
use crate::operation::{DeleteOperation, Document};
use vstd::prelude::*;

verus! {

/// Maps the documents of a segment to the stamps of their additions.
#[derive(Debug)]
pub enum DocToOpstampMapping {
    /// The stamp of each document, by document id.
    WithMap(Vec<u64>),
    /// No stamps are known: every document predates every delete that is
    /// still to be applied.
    Unmapped,
}

impl DocToOpstampMapping {
    /// Stamps never decrease along document ids.
    pub open spec fn wf(&self) -> bool {
        match self {
            DocToOpstampMapping::WithMap(v) => {
                &&& v@.len() <= u32::MAX
                &&& forall|i: int, j: int| 0 <= i <= j < v@.len() ==> v@[i] <= v@[j]
            },
            DocToOpstampMapping::Unmapped => true,
        }
    }

    /// The stamps of the documents, if known.
    pub open spec fn stamps(&self) -> Option<Seq<u64>> {
        match self {
            DocToOpstampMapping::WithMap(v) => Some(v@),
            DocToOpstampMapping::Unmapped => None,
        }
    }

    /// Document `doc` was added before the operation stamped `opstamp`.
    pub open spec fn added_before(&self, doc: int, opstamp: u64) -> bool {
        added_before_in(self.stamps(), doc, opstamp)
    }

    /// The first document id that an operation stamped `target_opstamp`
    /// does not reach: the documents below it were added before that
    /// operation, the others after it.
    pub fn compute_doc_limit(&self, target_opstamp: u64) -> (r: u32)
        requires
            self.wf(),
        ensures
            forall|d: int| 0 <= d < u32::MAX ==> (d < r <==> #[trigger] self.added_before(d, target_opstamp)),
            self matches DocToOpstampMapping::WithMap(v) ==> r <= v@.len(),
            self is Unmapped ==> r == u32::MAX,
    {
        match self {
            DocToOpstampMapping::WithMap(doc_opstamps) => {
                let mut lo: usize = 0;
                let mut hi: usize = doc_opstamps.len();
                while lo < hi
                    invariant
                        0 <= lo <= hi <= doc_opstamps@.len() <= u32::MAX,
                        forall|i: int, j: int| 0 <= i <= j < doc_opstamps@.len() ==> doc_opstamps@[i] <= doc_opstamps@[j],
                        forall|d: int| 0 <= d < lo ==> #[trigger] doc_opstamps@[d] < target_opstamp,
                        forall|d: int| hi <= d < doc_opstamps@.len() ==> #[trigger] doc_opstamps@[d] >= target_opstamp,
                    decreases hi - lo,
                {
                    let mid = lo + (hi - lo) / 2;
                    if doc_opstamps[mid] < target_opstamp {
                        lo = mid + 1;
                    } else {
                        hi = mid;
                    }
                }
                lo as u32
            },
            DocToOpstampMapping::Unmapped => u32::MAX,
        }
    }
}

/// Document `doc` was added before the operation stamped `opstamp`, given
/// the stamps of the documents if they are known; if they are not, every
/// document was.
pub open spec fn added_before_in(stamps: Option<Seq<u64>>, doc: int, opstamp: u64) -> bool {
    match stamps {
        Some(v) => 0 <= doc < v.len() && v[doc] < opstamp,
        None => 0 <= doc,
    }
}

/// The documents of a segment, by document id.
#[derive(Debug)]
pub struct SegmentContent {
    documents: Vec<Document>,
}

impl View for SegmentContent {
    type V = Seq<Seq<Seq<u8>>>;

    closed spec fn view(&self) -> Seq<Seq<Seq<u8>>> {
        self.documents@.map_values(|d: Document| d@)
    }
}

impl SegmentContent {
    /// A segment holding `documents`, in that order.
    pub fn from_documents(documents: Vec<Document>) -> (r: SegmentContent)
        ensures
            r@ == documents@.map_values(|d: Document| d@),
    {
        SegmentContent { documents }
    }

    /// The documents, by document id.
    pub fn into_documents(self) -> (r: Vec<Document>)
        ensures
            r@.map_values(|d: Document| d@) == self@,
    {
        self.documents
    }

    /// The number of documents.
    pub fn max_doc(&self) -> (r: usize)
        ensures
            r == self@.len(),
    {
        self.documents.len()
    }

    /// Whether document `doc` holds `term`.
    pub fn doc_has_term(&self, doc: usize, term: &crate::operation::Term) -> (r: bool)
        requires
            doc < self@.len(),
        ensures
            r == self@[doc as int].contains(term@),
    {
        self.documents[doc].contains(term)
    }
}

/// The operation `op` removes document `doc` of a segment holding `docs`:
/// the document holds the operation's term and was added before it.
pub open spec fn deletes_doc(
    docs: Seq<Seq<Seq<u8>>>,
    stamps: Option<Seq<u64>>,
    op: DeleteOperation,
    doc: int,
) -> bool {
    &&& 0 <= doc < docs.len()
    &&& docs[doc].contains(op.term@)
    &&& added_before_in(stamps, doc, op.opstamp)
}

/// The documents that some operation of `ops` removes.
pub open spec fn deleted_docs(
    docs: Seq<Seq<Seq<u8>>>,
    stamps: Option<Seq<u64>>,
    ops: Seq<DeleteOperation>,
) -> Set<nat> {
    Set::new(|doc: nat| exists|i: int| 0 <= i < ops.len() && deletes_doc(docs, stamps, #[trigger] ops[i], doc as int))
}

/// The position of the first operation of `log`, at `from` or after, whose
/// stamp exceeds `target`; the length of `log` if there is none.
pub open spec fn first_after(log: Seq<DeleteOperation>, from: int, target: u64) -> int
    decreases log.len() - from,
{
    if from >= log.len() {
        log.len() as int
    } else if log[from].opstamp > target {
        from
    } else {
        first_after(log, from + 1, target)
    }
}

proof fn lemma_first_after_step(log: Seq<DeleteOperation>, a: int, k: int, target: u64)
    requires
        0 <= a <= k < log.len(),
        forall|i: int| a <= i < k ==> #[trigger] log[i].opstamp <= target,
    ensures
        log[k].opstamp > target ==> first_after(log, a, target) == k,
        log[k].opstamp <= target ==> first_after(log, a, target) == first_after(log, k + 1, target),
    decreases k - a,
{
    if a < k {
        lemma_first_after_step(log, a + 1, k, target);
    }
}

proof fn lemma_first_after_end(log: Seq<DeleteOperation>, a: int, target: u64)
    requires
        0 <= a <= log.len(),
        forall|i: int| a <= i < log.len() ==> #[trigger] log[i].opstamp <= target,
    ensures
        first_after(log, a, target) == log.len(),
    decreases log.len() - a,
{
    if a < log.len() {
        lemma_first_after_end(log, a + 1, target);
    }
}

/// Applies to `delete_bitset` the delete operations that `delete_cursor`
/// reads, up to the first one stamped after `target_opstamp`, and leaves the
/// cursor on that one (or at the end of the queue). An operation removes
/// the documents that hold its term and were added before it. Returns
/// whether some operation removed some document.
pub fn compute_deleted_bitset(
    delete_bitset: &mut bit_set::BitSet,
    segment: &SegmentContent,
    delete_cursor: &mut DeleteCursor,
    queue: &mut DeleteQueue,
    doc_opstamps: &DocToOpstampMapping,
    target_opstamp: u64,
) -> (r: bool)
    requires
        old(queue).wf(),
        old(delete_cursor).valid_for(old(queue)),
        doc_opstamps.wf(),
        segment@.len() < u32::MAX,
    ensures
        final(queue).wf(),
        final(queue).log() == old(queue).log(),
        final(queue).extends(old(queue)),
        final(delete_cursor).valid_for(final(queue)),
        final(delete_cursor).index(final(queue)) == first_after(
            old(queue).log(),
            old(delete_cursor).index(old(queue)),
            target_opstamp,
        ),
        bitset_members(*final(delete_bitset)) == bitset_members(*old(delete_bitset)).union(
            deleted_docs(
                segment@,
                doc_opstamps.stamps(),
                old(queue).log().subrange(
                    old(delete_cursor).index(old(queue)),
                    final(delete_cursor).index(final(queue)),
                ),
            ),
        ),
        r == exists|d: nat| #[trigger] deleted_docs(
            segment@,
            doc_opstamps.stamps(),
            old(queue).log().subrange(
                old(delete_cursor).index(old(queue)),
                final(delete_cursor).index(final(queue)),
            ),
        ).contains(d),
{
    let ghost log = queue.log();
    let ghost start = delete_cursor.index(queue);
    let ghost docs = segment@;
    let ghost before = bitset_members(*delete_bitset);
    let mut might_have_changed = false;
    proof {
        crate::delete_queue::lemma_extends_refl(*queue);
        delete_cursor.lemma_index_bounded(queue);
        assert(deleted_docs(docs, doc_opstamps.stamps(), log.subrange(start, start)) =~= Set::<nat>::empty()) by {
            assert(log.subrange(start, start).len() == 0);
        }
        assert(before.union(Set::<nat>::empty()) =~= before);
    }
    loop
        invariant_except_break
            0 <= start,
            docs == segment@,
            doc_opstamps.wf(),
            docs.len() < u32::MAX,
            queue.wf(),
            queue.log() == log,
            queue.extends(old(queue)),
            delete_cursor.valid_for(queue),
            start <= delete_cursor.index(queue) <= log.len(),
            forall|i: int| start <= i < delete_cursor.index(queue) ==> #[trigger] log[i].opstamp <= target_opstamp,
            bitset_members(*delete_bitset) == before.union(
                deleted_docs(docs, doc_opstamps.stamps(), log.subrange(start, delete_cursor.index(queue))),
            ),
            might_have_changed == exists|d: nat| #[trigger] deleted_docs(docs, doc_opstamps.stamps(), log.subrange(start, delete_cursor.index(queue))).contains(d),
        ensures
            queue.wf(),
            queue.log() == log,
            queue.extends(old(queue)),
            delete_cursor.valid_for(queue),
            delete_cursor.index(queue) == first_after(log, start, target_opstamp),
            bitset_members(*delete_bitset) == before.union(
                deleted_docs(docs, doc_opstamps.stamps(), log.subrange(start, delete_cursor.index(queue))),
            ),
            might_have_changed == exists|d: nat| #[trigger] deleted_docs(docs, doc_opstamps.stamps(), log.subrange(start, delete_cursor.index(queue))).contains(d),
        decreases log.len() - delete_cursor.index(queue),
    {
        let ghost q0 = *queue;
        let ghost k = delete_cursor.index(queue);
        let got = delete_cursor.get(queue);
        proof {
            crate::delete_queue::lemma_extends_trans(*old(queue), q0, *queue);
        }
        match got {
            Some(delete_op) => {
                proof {
                    lemma_first_after_step(log, start, k, target_opstamp);
                }
                if delete_op.opstamp > target_opstamp {
                    break;
                }
                let limit_doc = doc_opstamps.compute_doc_limit(delete_op.opstamp);
                let ghost op = log[k];
                let ghost mid = bitset_members(*delete_bitset);
                let max_doc = segment.max_doc();
                let mut doc: usize = 0;
                let mut touched = false;
                while doc < max_doc
                    invariant
                        docs == segment@,
                        max_doc == docs.len(),
                        max_doc < u32::MAX,
                        0 <= doc <= max_doc,
                        delete_op.opstamp == op.opstamp,
                        delete_op.term@ == op.term@,
                        forall|d: int| 0 <= d < u32::MAX ==> (d < limit_doc <==> #[trigger] doc_opstamps.added_before(d, op.opstamp)),
                        bitset_members(*delete_bitset) == mid.union(
                            Set::new(|d: nat| d < doc && deletes_doc(docs, doc_opstamps.stamps(), op, d as int)),
                        ),
                        touched == exists|d: int| 0 <= d < doc && deletes_doc(docs, doc_opstamps.stamps(), op, d),
                    decreases max_doc - doc,
                {
                    let ghost s0 = bitset_members(*delete_bitset);
                    if (doc as u64) < (limit_doc as u64) && segment.doc_has_term(doc, &delete_op.term) {
                        bitset_insert(delete_bitset, doc);
                        touched = true;
                        proof {
                            assert(doc_opstamps.added_before(doc as int, op.opstamp));
                            assert(deletes_doc(docs, doc_opstamps.stamps(), op, doc as int));
                        }
                    } else {
                        proof {
                            if deletes_doc(docs, doc_opstamps.stamps(), op, doc as int) {
                                assert(doc_opstamps.added_before(doc as int, op.opstamp));
                            }
                        }
                    }
                    doc = doc + 1;
                    proof {
                        assert(bitset_members(*delete_bitset) =~= mid.union(
                            Set::new(|d: nat| d < doc && deletes_doc(docs, doc_opstamps.stamps(), op, d as int)),
                        ));
                        if touched {
                            assert(exists|d: int| 0 <= d < doc && deletes_doc(docs, doc_opstamps.stamps(), op, d));
                        }
                    }
                }
                if touched {
                    might_have_changed = true;
                }
                let ghost q1 = *queue;
                delete_cursor.advance(queue);
                proof {
                    let new_ops = log.subrange(start, k + 1);
                    let old_ops = log.subrange(start, k);
                    assert(new_ops =~= old_ops.push(op));
                    let this_op = Set::new(|d: nat| d < doc && deletes_doc(docs, doc_opstamps.stamps(), op, d as int));
                    assert(deleted_docs(docs, doc_opstamps.stamps(), new_ops) =~= deleted_docs(docs, doc_opstamps.stamps(), old_ops).union(this_op)) by {
                        assert forall|d: nat| deleted_docs(docs, doc_opstamps.stamps(), new_ops).contains(d)
                            implies deleted_docs(docs, doc_opstamps.stamps(), old_ops).union(this_op).contains(d) by {
                            let i = choose|i: int| 0 <= i < new_ops.len() && deletes_doc(docs, doc_opstamps.stamps(), #[trigger] new_ops[i], d as int);
                            if i < old_ops.len() {
                                assert(old_ops[i] == new_ops[i]);
                            }
                        }
                        assert forall|d: nat| deleted_docs(docs, doc_opstamps.stamps(), old_ops).union(this_op).contains(d)
                            implies deleted_docs(docs, doc_opstamps.stamps(), new_ops).contains(d) by {
                            if deleted_docs(docs, doc_opstamps.stamps(), old_ops).contains(d) {
                                let i = choose|i: int| 0 <= i < old_ops.len() && deletes_doc(docs, doc_opstamps.stamps(), #[trigger] old_ops[i], d as int);
                                assert(new_ops[i] == old_ops[i]);
                            } else {
                                assert(new_ops[old_ops.len() as int] == op);
                            }
                        }
                    }
                    assert(bitset_members(*delete_bitset) =~= before.union(deleted_docs(docs, doc_opstamps.stamps(), new_ops)));
                    if touched {
                        let d = choose|d: int| 0 <= d < doc && deletes_doc(docs, doc_opstamps.stamps(), op, d);
                        assert(this_op.contains(d as nat));
                        assert(deleted_docs(docs, doc_opstamps.stamps(), new_ops).contains(d as nat));
                    } else {
                        assert(this_op =~= Set::<nat>::empty());
                    }
                    if might_have_changed && !touched {
                        let w = choose|w: nat| #[trigger] deleted_docs(docs, doc_opstamps.stamps(), old_ops).contains(w);
                        assert(deleted_docs(docs, doc_opstamps.stamps(), new_ops).contains(w));
                    }
                    if !might_have_changed {
                        assert forall|d: nat| !(#[trigger] deleted_docs(docs, doc_opstamps.stamps(), new_ops).contains(d)) by {
                            assert(!deleted_docs(docs, doc_opstamps.stamps(), old_ops).contains(d));
                            assert(!this_op.contains(d));
                        }
                    }
                    crate::delete_queue::lemma_extends_trans(*old(queue), q1, *queue);
                }
            },
            None => {
                proof {
                    lemma_first_after_end(log, start, target_opstamp);
                }
                break;
            },
        }
    }
    might_have_changed
}

/// A delete operation removes exactly the documents that hold its term and
/// were added before it: with known document stamps, those whose stamp is
/// below the operation's.
pub proof fn lemma_delete_exact(
    docs: Seq<Seq<Seq<u8>>>,
    stamps: Option<Seq<u64>>,
    op: DeleteOperation,
    doc: nat,
)
    ensures
        deleted_docs(docs, stamps, seq![op]).contains(doc) <==> {
            &&& doc < docs.len()
            &&& docs[doc as int].contains(op.term@)
            &&& added_before_in(stamps, doc as int, op.opstamp)
        },
        stamps matches Some(v) ==> (
            deleted_docs(docs, stamps, seq![op]).contains(doc) <==> {
                &&& doc < docs.len()
                &&& doc < v.len()
                &&& docs[doc as int].contains(op.term@)
                &&& v[doc as int] < op.opstamp
            }),
{
    if deletes_doc(docs, stamps, op, doc as int) {
        assert(seq![op][0] == op);
    }
}

/// Deletes applied in two steps, as when some are applied while a segment
/// is built and the rest when it is committed, remove the same documents as
/// the same deletes applied at once.
pub proof fn lemma_deletes_split(
    docs: Seq<Seq<Seq<u8>>>,
    stamps: Option<Seq<u64>>,
    first: Seq<DeleteOperation>,
    second: Seq<DeleteOperation>,
)
    ensures
        deleted_docs(docs, stamps, first + second) == deleted_docs(docs, stamps, first).union(
            deleted_docs(docs, stamps, second),
        ),
{
    let all = first + second;
    assert forall|d: nat| deleted_docs(docs, stamps, all).contains(d) implies
        deleted_docs(docs, stamps, first).union(deleted_docs(docs, stamps, second)).contains(d) by {
        let i = choose|i: int| 0 <= i < all.len() && deletes_doc(docs, stamps, #[trigger] all[i], d as int);
        if i < first.len() {
            assert(all[i] == first[i]);
        } else {
            assert(all[i] == second[i - first.len()]);
        }
    }
    assert forall|d: nat| deleted_docs(docs, stamps, first).union(deleted_docs(docs, stamps, second)).contains(d)
        implies deleted_docs(docs, stamps, all).contains(d) by {
        if deleted_docs(docs, stamps, first).contains(d) {
            let i = choose|i: int| 0 <= i < first.len() && deletes_doc(docs, stamps, #[trigger] first[i], d as int);
            assert(all[i] == first[i]);
        } else {
            let i = choose|i: int| 0 <= i < second.len() && deletes_doc(docs, stamps, #[trigger] second[i], d as int);
            assert(all[first.len() + i] == second[i]);
        }
    }
    assert(deleted_docs(docs, stamps, all) =~= deleted_docs(docs, stamps, first).union(deleted_docs(docs, stamps, second)));
}

} // verus!
