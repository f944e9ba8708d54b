//! The indexing front end: it stamps every operation, queues deletes, groups
//! added documents into segments, applies deletes to them, and commits or
//! rolls back the set of segments.
use crate::bitset::{bitset_contains, bitset_len, bitset_members, bitset_with_capacity};
use crate::delete_queue::{DeleteCursor, DeleteQueue};
use crate::error::TantivyError;
use crate::operation::{capped, terms_bytes, AddOperation, DeleteOperation, Document, Term, UserOperation};
use crate::segment::{compute_deleted_bitset, deleted_docs, first_after, DocToOpstampMapping, SegmentContent};
use crate::stamper::Stamper;
use vstd::prelude::*;

verus! {

/// A segment is closed when the memory left in its budget falls below this
/// margin, in bytes.
pub const MARGIN_IN_BYTES: usize = 1_000_000;

/// The smallest memory budget per indexing thread, in bytes.
pub const HEAP_SIZE_MIN: usize = 3_000_000;

/// The largest memory budget per indexing thread, in bytes.
pub const HEAP_SIZE_MAX: usize = 4_293_967_295;

/// The largest number of bits of the term hash table of a segment builder.
pub const MAX_TABLE_BITS: usize = 19;

/// The size in bytes of a term hash table of `2^num_bits` slots of eight
/// bytes each.
pub open spec fn table_size(num_bits: nat) -> nat
    decreases num_bits,
{
    if num_bits == 0 {
        8
    } else {
        2 * table_size((num_bits - 1) as nat)
    }
}

proof fn lemma_table_size_grows(a: nat, b: nat)
    requires
        a <= b,
    ensures
        table_size(a) <= table_size(b),
    decreases b - a,
{
    if a < b {
        lemma_table_size_grows(a, (b - 1) as nat);
    }
}

/// The size in bytes of a term hash table of `2^num_bits` slots.
pub fn compute_table_size(num_bits: usize) -> (r: usize)
    requires
        num_bits <= 20,
    ensures
        r == table_size(num_bits as nat),
{
    let mut size: usize = 8;
    let mut k: usize = 0;
    while k < num_bits
        invariant
            0 <= k <= num_bits <= 20,
            size == table_size(k as nat),
            size <= 0x800_0000,
        decreases num_bits - k,
    {
        proof {
            lemma_table_size_grows((k + 1) as nat, 20);
            lemma_table_size_20();
        }
        size = size * 2;
        k = k + 1;
    }
    size
}

proof fn lemma_table_size_20()
    ensures
        table_size(20) == 0x80_0000nat,
{
    reveal_with_fuel(table_size, 21);
}

/// The number of bits of the term hash table of a segment builder given
/// `per_thread_memory_budget` bytes: the largest `k`, from 1 to 19, whose
/// table takes at most a third of the budget.
pub fn initial_table_size(per_thread_memory_budget: usize) -> (r: usize)
    requires
        per_thread_memory_budget > 1_000,
    ensures
        1 <= r <= MAX_TABLE_BITS,
        table_size(r as nat) <= per_thread_memory_budget / 3,
        r < MAX_TABLE_BITS ==> table_size((r + 1) as nat) > per_thread_memory_budget / 3,
{
    let table_size_limit: usize = per_thread_memory_budget / 3;
    let mut limit: usize = 1;
    proof {
        reveal_with_fuel(table_size, 2);
    }
    while limit < MAX_TABLE_BITS && compute_table_size(limit + 1) <= table_size_limit
        invariant
            1 <= limit <= MAX_TABLE_BITS,
            table_size(limit as nat) <= table_size_limit,
            table_size_limit == per_thread_memory_budget / 3,
        decreases MAX_TABLE_BITS - limit,
    {
        limit = limit + 1;
    }
    limit
}

/// Checks a memory budget per indexing thread: it must lie between
/// `HEAP_SIZE_MIN` and `HEAP_SIZE_MAX`, both included.
pub fn check_heap_size(heap_size_in_bytes_per_thread: usize) -> (r: Result<(), TantivyError>)
    ensures
        r is Ok <==> HEAP_SIZE_MIN <= heap_size_in_bytes_per_thread <= HEAP_SIZE_MAX,
        r matches Err(e) ==> e is InvalidArgument,
{
    if heap_size_in_bytes_per_thread < HEAP_SIZE_MIN {
        return Err(TantivyError::InvalidArgument(
            "The heap size per thread needs to be at least 3000000.".to_owned(),
        ));
    }
    if heap_size_in_bytes_per_thread > HEAP_SIZE_MAX {
        return Err(TantivyError::InvalidArgument(
            "The heap size per thread cannot exceed 4293967295".to_owned(),
        ));
    }
    Ok(())
}

/// Whether a segment builder that uses `mem_usage` bytes of a budget of
/// `memory_budget` bytes must be closed.
pub fn budget_exhausted(mem_usage: usize, memory_budget: usize) -> (r: bool)
    requires
        memory_budget >= HEAP_SIZE_MIN,
    ensures
        r == (mem_usage + MARGIN_IN_BYTES >= memory_budget),
{
    mem_usage >= memory_budget - MARGIN_IN_BYTES
}

/// What a segment's metadata records of its deletes.
#[derive(Clone, Copy, Debug, PartialEq, Eq, Structural)]
pub struct DeleteMeta {
    /// The number of deleted documents.
    pub num_deleted_docs: usize,
    /// The stamp up to which deletes have been applied.
    pub opstamp: u64,
}

/// A live segment, as the writer keeps it: its documents, the set of its
/// deleted documents, the cursor from which the deletes still to apply are
/// read, and what its metadata records of deletes.
#[derive(Debug)]
pub struct SegmentEntry {
    content: SegmentContent,
    delete_bitset: bit_set::BitSet,
    delete_cursor: DeleteCursor,
    delete_meta: Option<DeleteMeta>,
}

impl SegmentEntry {
    /// The documents of the segment, by document id.
    pub closed spec fn docs(&self) -> Seq<Seq<Seq<u8>>> {
        self.content@
    }

    /// The ids of the deleted documents.
    pub closed spec fn deleted(&self) -> Set<nat> {
        bitset_members(self.delete_bitset)
    }

    /// The cursor from which the deletes still to apply are read.
    pub closed spec fn cursor(&self) -> DeleteCursor {
        self.delete_cursor
    }

    /// What the metadata records of deletes.
    pub closed spec fn meta(&self) -> Option<DeleteMeta> {
        self.delete_meta
    }

    /// The number of documents.
    pub fn max_doc(&self) -> (r: usize)
        ensures
            r == self.docs().len(),
    {
        self.content.max_doc()
    }

    /// Whether document `doc` is deleted.
    pub fn is_deleted(&self, doc: usize) -> (r: bool)
        ensures
            r == self.deleted().contains(doc as nat),
    {
        bitset_contains(&self.delete_bitset, doc)
    }

    /// The number of deleted documents.
    pub fn num_deleted_docs(&self) -> (r: usize)
        ensures
            r == self.deleted().len(),
    {
        bitset_len(&self.delete_bitset)
    }

    /// What the metadata records of deletes.
    pub fn delete_meta(&self) -> (r: Option<DeleteMeta>)
        ensures
            r == self.meta(),
    {
        self.delete_meta
    }

    /// The number of documents that are not deleted and hold `term`.
    pub fn num_live_docs_with_term(&self, term: &Term) -> (r: usize)
        ensures
            r == live_count(self.docs(), self.deleted(), term@, self.docs().len() as int),
    {
        let n = self.content.max_doc();
        let mut count: usize = 0;
        let mut doc: usize = 0;
        while doc < n
            invariant
                n == self.docs().len(),
                0 <= doc <= n,
                count == live_count(self.docs(), self.deleted(), term@, doc as int),
                count <= doc,
            decreases n - doc,
        {
            if !self.is_deleted(doc) && self.content.doc_has_term(doc, term) {
                count = count + 1;
            }
            doc = doc + 1;
        }
        count
    }
}

/// The number of documents below `n` that are not in `deleted` and hold
/// `term`.
pub open spec fn live_count(docs: Seq<Seq<Seq<u8>>>, deleted: Set<nat>, term: Seq<u8>, n: int) -> nat
    decreases n,
{
    if n <= 0 {
        0
    } else {
        live_count(docs, deleted, term, n - 1) + if !deleted.contains((n - 1) as nat) && docs[n - 1].contains(term) {
            1nat
        } else {
            0nat
        }
    }
}

/// The metadata of `e` records deletes up to `target` already.
pub open spec fn meta_at(e: SegmentEntry, target: u64) -> bool {
    e.meta() matches Some(m) && m.opstamp == target
}

/// `after`, read against queue `qa`, is `before`, read against queue `qb`,
/// with its deletes brought up to `target`: unless its metadata already
/// recorded deletes up to `target`, every delete from its cursor up to the
/// first one stamped after `target` has been applied to all of its
/// documents, the cursor stands on that one, and the metadata records the
/// deletes if some document is deleted.
pub open spec fn deletes_advanced(
    before: SegmentEntry,
    qb: DeleteQueue,
    after: SegmentEntry,
    qa: DeleteQueue,
    target: u64,
) -> bool {
    &&& after.docs() == before.docs()
    &&& meta_at(before, target) ==> {
        &&& segment_state(after) == segment_state(before)
        &&& after.cursor().index(&qa) == before.cursor().index(&qb)
    }
    &&& !meta_at(before, target) ==> {
        let from = before.cursor().index(&qb);
        let to = first_after(qb.log(), from, target);
        &&& after.cursor().index(&qa) == to
        &&& after.deleted() == before.deleted().union(
            deleted_docs(before.docs(), None, qb.log().subrange(from, to)),
        )
        &&& after.meta() == if after.deleted().len() > 0 {
            Some(DeleteMeta { num_deleted_docs: after.deleted().len() as usize, opstamp: target })
        } else {
            before.meta()
        }
    }
}

proof fn lemma_index_kept(e: SegmentEntry, q: DeleteQueue, q2: DeleteQueue)
    requires
        e.cursor().valid_for(&q),
        q2.extends(&q),
    ensures
        e.cursor().index(&q2) == e.cursor().index(&q),
{
    e.cursor().lemma_extends(&q, &q2);
}

proof fn lemma_advanced_moves(
    before: SegmentEntry,
    qb: DeleteQueue,
    qb2: DeleteQueue,
    after: SegmentEntry,
    qa: DeleteQueue,
    qa2: DeleteQueue,
    target: u64,
)
    requires
        deletes_advanced(before, qb, after, qa, target),
        qb.log() == qb2.log(),
        before.cursor().index(&qb) == before.cursor().index(&qb2),
        after.cursor().index(&qa) == after.cursor().index(&qa2),
    ensures
        deletes_advanced(before, qb2, after, qa2, target),
{
}

/// Brings the deletes of a segment up to `target_opstamp`: applies every
/// delete that its cursor reads, up to the first one stamped after
/// `target_opstamp`, to all of its documents, and records the result in its
/// metadata if some document is deleted. Does nothing if the metadata
/// already records deletes up to `target_opstamp`.
pub fn advance_deletes(segment_entry: &mut SegmentEntry, queue: &mut DeleteQueue, target_opstamp: u64)
    requires
        old(queue).wf(),
        old(segment_entry).cursor().valid_for(old(queue)),
        old(segment_entry).docs().len() < u32::MAX,
    ensures
        final(queue).wf(),
        final(queue).log() == old(queue).log(),
        final(queue).extends(old(queue)),
        final(segment_entry).cursor().valid_for(final(queue)),
        deletes_advanced(*old(segment_entry), *old(queue), *final(segment_entry), *final(queue), target_opstamp),
        meta_at(*old(segment_entry), target_opstamp) ==> *final(queue) == *old(queue),
{
    if let Some(meta) = segment_entry.delete_meta {
        if meta.opstamp == target_opstamp {
            proof {
                crate::delete_queue::lemma_extends_refl(*queue);
            }
            return;
        }
    }
    let unmapped = DocToOpstampMapping::Unmapped;
    compute_deleted_bitset(
        &mut segment_entry.delete_bitset,
        &segment_entry.content,
        &mut segment_entry.delete_cursor,
        queue,
        &unmapped,
        target_opstamp,
    );
    let num_deleted_docs = bitset_len(&segment_entry.delete_bitset);
    if num_deleted_docs > 0 {
        segment_entry.delete_meta = Some(DeleteMeta { num_deleted_docs, opstamp: target_opstamp });
    }
}

/// What a segment holds, leaving out where its delete cursor stands.
pub open spec fn segment_state(e: SegmentEntry) -> (Seq<Seq<Seq<u8>>>, Set<nat>, Option<DeleteMeta>) {
    (e.docs(), e.deleted(), e.meta())
}

/// The stamp and the term of each delete operation.
pub open spec fn op_views(log: Seq<DeleteOperation>) -> Seq<(u64, Seq<u8>)> {
    log.map_values(|op: DeleteOperation| (op.opstamp, op.term@))
}

/// The stamps that a batch starting at `start` gives its additions.
pub open spec fn add_stamps(ops: Seq<UserOperation>, start: u64) -> Seq<u64>
    decreases ops.len(),
{
    if ops.len() == 0 {
        Seq::empty()
    } else {
        add_stamps(ops.drop_last(), start) + match ops.last() {
            UserOperation::Add(_) => seq![(start + ops.len() - 1) as u64],
            UserOperation::Delete(_) => Seq::empty(),
        }
    }
}

/// The documents that a batch adds, in order.
pub open spec fn added_docs(ops: Seq<UserOperation>) -> Seq<Seq<Seq<u8>>>
    decreases ops.len(),
{
    if ops.len() == 0 {
        Seq::empty()
    } else {
        added_docs(ops.drop_last()) + match ops.last() {
            UserOperation::Add(d) => seq![d@],
            UserOperation::Delete(_) => Seq::empty(),
        }
    }
}

/// The delete operations of a batch starting at `start`, as stamps and
/// terms, in order.
pub open spec fn batch_deletes(ops: Seq<UserOperation>, start: u64) -> Seq<(u64, Seq<u8>)>
    decreases ops.len(),
{
    if ops.len() == 0 {
        Seq::empty()
    } else {
        batch_deletes(ops.drop_last(), start) + match ops.last() {
            UserOperation::Add(_) => Seq::empty(),
            UserOperation::Delete(t) => seq![((start + ops.len() - 1) as u64, t@)],
        }
    }
}

proof fn lemma_added_docs_len(ops: Seq<UserOperation>)
    ensures
        added_docs(ops).len() <= ops.len(),
    decreases ops.len(),
{
    if ops.len() > 0 {
        lemma_added_docs_len(ops.drop_last());
    }
}

/// `e`, read against queue `q`, is the segment built from the pending
/// documents of `w`: it holds them, in order; its deleted documents are
/// those that the deletes from the worker's cursor up to the first one
/// stamped after the last document remove, given the documents' stamps;
/// its cursor stands on that first later delete; its metadata records no
/// deletes yet.
pub open spec fn new_segment(w: &IndexWriter, e: SegmentEntry, q: DeleteQueue) -> bool {
    built_from(
        w.pending_docs_spec(),
        w.pending_opstamps_spec(),
        w.worker_cursor_spec().index(&w.queue_spec()),
        w.queue_spec().log(),
        e,
        q,
    )
}

/// `e`, read against queue `q`, is the segment built from `docs`, added
/// with `stamps`, by a worker whose cursor stood at position `from` of
/// `log`: it holds the documents, in order; its deleted documents are those
/// that the deletes from `from` up to the first one stamped after the last
/// document remove, given the documents' stamps; its cursor stands on that
/// first later delete; its metadata records no deletes yet.
pub open spec fn built_from(
    docs: Seq<Seq<Seq<u8>>>,
    stamps: Seq<u64>,
    from: int,
    log: Seq<DeleteOperation>,
    e: SegmentEntry,
    q: DeleteQueue,
) -> bool {
    let to = first_after(log, from, stamps.last());
    &&& e.docs() == docs
    &&& e.cursor().valid_for(&q)
    &&& e.cursor().index(&q) == to
    &&& e.deleted() == deleted_docs(docs, Some(stamps), log.subrange(from, to))
    &&& e.meta() is None
}

/// The memory that documents take in a segment being built: the bytes of
/// their terms.
pub open spec fn docs_bytes(docs: Seq<Seq<Seq<u8>>>) -> nat
    decreases docs.len(),
{
    if docs.len() == 0 {
        0
    } else {
        docs_bytes(docs.drop_last()) + terms_bytes(docs.last())
    }
}

/// Documents taking `bytes` fill a memory budget of `budget` bytes: what
/// is left of the budget is below the margin.
pub open spec fn fills_budget(bytes: nat, budget: usize) -> bool {
    capped(bytes) + MARGIN_IN_BYTES >= budget
}

proof fn lemma_capped_add(a: nat, b: nat)
    ensures
        capped(a + b) == if capped(a) + capped(b) > usize::MAX { usize::MAX } else { (capped(a) + capped(b)) as usize },
{
}

proof fn lemma_first_after_bounds(log: Seq<DeleteOperation>, a: int, target: u64)
    requires
        0 <= a <= log.len(),
    ensures
        a <= first_after(log, a, target) <= log.len(),
    decreases log.len() - a,
{
    if a < log.len() {
        lemma_first_after_bounds(log, a + 1, target);
    }
}

proof fn lemma_first_after_skip(log: Seq<DeleteOperation>, a: int, b: int, target: u64)
    requires
        0 <= a <= b <= log.len(),
        forall|i: int| a <= i < b ==> #[trigger] log[i].opstamp <= target,
    ensures
        first_after(log, a, target) == first_after(log, b, target),
    decreases b - a,
{
    if a < b {
        lemma_first_after_skip(log, a + 1, b, target);
    }
}

/// The documents below `n` of `docs` that are not in `deleted`, in order.
pub open spec fn live_docs(docs: Seq<Seq<Seq<u8>>>, deleted: Set<nat>, n: int) -> Seq<Seq<Seq<u8>>>
    decreases n,
{
    if n <= 0 {
        Seq::empty()
    } else {
        live_docs(docs, deleted, n - 1) + if !deleted.contains((n - 1) as nat) {
            seq![docs[n - 1]]
        } else {
            Seq::empty()
        }
    }
}

/// Which of the first `n` segments `positions` names.
pub open spec fn selection_mask(positions: Seq<usize>, n: nat) -> Seq<bool> {
    Seq::new(n, |i: int| positions.contains(i as usize))
}

/// `positions` names at least one of the first `n` segments, and each of
/// them once.
pub open spec fn valid_selection(positions: Seq<usize>, n: nat) -> bool {
    &&& positions.len() > 0
    &&& forall|k: int| 0 <= k < positions.len() ==> #[trigger] positions[k] < n
    &&& positions.no_duplicates()
}

/// The live documents of the segments that `mask` selects, in order.
pub open spec fn merged_docs(segs: Seq<SegmentEntry>, mask: Seq<bool>) -> Seq<Seq<Seq<u8>>>
    decreases segs.len(),
{
    if segs.len() == 0 || mask.len() != segs.len() {
        Seq::empty()
    } else {
        merged_docs(segs.drop_last(), mask.drop_last()) + if mask.last() {
            live_docs(segs.last().docs(), segs.last().deleted(), segs.last().docs().len() as int)
        } else {
            Seq::empty()
        }
    }
}

/// The number of documents of the segments that `mask` selects.
pub open spec fn selected_len(segs: Seq<SegmentEntry>, mask: Seq<bool>) -> nat
    decreases segs.len(),
{
    if segs.len() == 0 || mask.len() != segs.len() {
        0
    } else {
        selected_len(segs.drop_last(), mask.drop_last()) + if mask.last() {
            segs.last().docs().len()
        } else {
            0
        }
    }
}

/// The segments that `mask` does not select, in order.
pub open spec fn unselected(segs: Seq<SegmentEntry>, mask: Seq<bool>) -> Seq<SegmentEntry>
    decreases segs.len(),
{
    if segs.len() == 0 || mask.len() != segs.len() {
        Seq::empty()
    } else {
        unselected(segs.drop_last(), mask.drop_last()) + if mask.last() {
            Seq::empty()
        } else {
            seq![segs.last()]
        }
    }
}

proof fn lemma_live_docs_len(docs: Seq<Seq<Seq<u8>>>, deleted: Set<nat>, n: int)
    ensures
        live_docs(docs, deleted, n).len() <= if n < 0 { 0 } else { n },
    decreases n,
{
    if n > 0 {
        lemma_live_docs_len(docs, deleted, n - 1);
    }
}

proof fn lemma_merged_len(segs: Seq<SegmentEntry>, mask: Seq<bool>)
    ensures
        merged_docs(segs, mask).len() <= selected_len(segs, mask),
    decreases segs.len(),
{
    if segs.len() > 0 && mask.len() == segs.len() {
        lemma_merged_len(segs.drop_last(), mask.drop_last());
        lemma_live_docs_len(segs.last().docs(), segs.last().deleted(), segs.last().docs().len() as int);
    }
}

proof fn lemma_unselected_valid(segs: Seq<SegmentEntry>, mask: Seq<bool>, q: DeleteQueue)
    requires
        forall|i: int| 0 <= i < segs.len() ==> {
            &&& (#[trigger] segs[i]).cursor().valid_for(&q)
            &&& segs[i].docs().len() < u32::MAX
        },
    ensures
        forall|i: int| 0 <= i < unselected(segs, mask).len() ==> {
            &&& (#[trigger] unselected(segs, mask)[i]).cursor().valid_for(&q)
            &&& unselected(segs, mask)[i].docs().len() < u32::MAX
        },
    decreases segs.len(),
{
    if segs.len() > 0 && mask.len() == segs.len() {
        let rest = segs.drop_last();
        assert forall|i: int| 0 <= i < rest.len() implies {
            &&& (#[trigger] rest[i]).cursor().valid_for(&q)
            &&& rest[i].docs().len() < u32::MAX
        } by {
            assert(rest[i] == segs[i]);
        }
        lemma_unselected_valid(rest, mask.drop_last(), q);
        assert(segs.last() == segs[segs.len() - 1]);
        let u = unselected(segs, mask);
        let ur = unselected(rest, mask.drop_last());
        assert forall|i: int| 0 <= i < u.len() implies {
            &&& (#[trigger] u[i]).cursor().valid_for(&q)
            &&& u[i].docs().len() < u32::MAX
        } by {
            if i < ur.len() {
                assert(u[i] == ur[i]);
            } else {
                assert(u[i] == segs.last());
            }
        }
    }
}

/// The selection that `positions` makes among the first `n` segments, if
/// it is valid.
fn selection(positions: &Vec<usize>, n: usize) -> (r: Option<Vec<bool>>)
    ensures
        r is Some <==> valid_selection(positions@, n as nat),
        r matches Some(m) ==> m@ == selection_mask(positions@, n as nat),
{
    if positions.len() == 0 {
        return None;
    }
    let mut seen: Vec<bool> = Vec::new();
    let mut i: usize = 0;
    while i < n
        invariant
            0 <= i <= n,
            seen@.len() == i,
            forall|j: int| 0 <= j < i ==> !seen@[j],
        decreases n - i,
    {
        seen.push(false);
        i = i + 1;
    }
    let mut k: usize = 0;
    while k < positions.len()
        invariant
            0 <= k <= positions@.len(),
            seen@.len() == n,
            forall|j: int| 0 <= j < n ==> (seen@[j] <==> positions@.take(k as int).contains(j as usize)),
            forall|a: int| 0 <= a < k ==> #[trigger] positions@[a] < n,
            positions@.take(k as int).no_duplicates(),
        decreases positions@.len() - k,
    {
        let p = positions[k];
        if p >= n || seen[p] {
            proof {
                if p < n {
                    let a = choose|a: int| 0 <= a < k && positions@.take(k as int)[a] == p;
                    assert(positions@[a] == positions@[k as int]);
                    assert(!positions@.no_duplicates());
                } else {
                    assert(!(positions@[k as int] < n));
                }
            }
            return None;
        }
        seen.set(p, true);
        proof {
            let t = positions@.take(k + 1);
            assert(t =~= positions@.take(k as int).push(p));
            assert forall|j: int| 0 <= j < n implies (seen@[j] <==> t.contains(j as usize)) by {
                if j == p {
                    assert(t[k as int] == p);
                } else {
                    if t.contains(j as usize) {
                        let a = choose|a: int| 0 <= a < t.len() && t[a] == j as usize;
                        assert(a < k);
                        assert(positions@.take(k as int)[a] == j as usize);
                    }
                    if positions@.take(k as int).contains(j as usize) {
                        let a = choose|a: int| 0 <= a < k && positions@.take(k as int)[a] == j as usize;
                        assert(t[a] == j as usize);
                    }
                }
            }
            assert(t.no_duplicates()) by {
                assert forall|a: int, b: int| 0 <= a < t.len() && 0 <= b < t.len() && a != b implies t[a] != t[b] by {
                    if a == k {
                        assert(t[b] == positions@.take(k as int)[b]);
                        assert(positions@.take(k as int).contains(t[b]));
                    } else if b == k {
                        assert(t[a] == positions@.take(k as int)[a]);
                        assert(positions@.take(k as int).contains(t[a]));
                    } else {
                        assert(t[a] == positions@.take(k as int)[a]);
                        assert(t[b] == positions@.take(k as int)[b]);
                    }
                }
            }
        }
        k = k + 1;
    }
    proof {
        assert(positions@.take(k as int) =~= positions@);
        assert(seen@ =~= selection_mask(positions@, n as nat));
    }
    Some(seen)
}

/// The views of a list of documents.
pub open spec fn doc_views(v: Seq<Document>) -> Seq<Seq<Seq<u8>>> {
    v.map_values(|d: Document| d@)
}

proof fn lemma_selected_len_prefix(segs: Seq<SegmentEntry>, mask: Seq<bool>, k: int)
    requires
        0 <= k <= segs.len(),
        mask.len() == segs.len(),
    ensures
        selected_len(segs.take(k), mask.take(k)) <= selected_len(segs, mask),
    decreases segs.len(),
{
    if k == segs.len() {
        assert(segs.take(k) =~= segs);
        assert(mask.take(k) =~= mask);
    } else {
        let dl = segs.drop_last();
        let ml = mask.drop_last();
        assert(dl.take(k) =~= segs.take(k));
        assert(ml.take(k) =~= mask.take(k));
        lemma_selected_len_prefix(dl, ml, k);
    }
}

/// Appends to `out` the documents of `entry` that are not deleted.
fn push_live_documents(entry: SegmentEntry, out: &mut Vec<Document>)
    ensures
        doc_views(final(out)@) == doc_views(old(out)@)
            + live_docs(entry.docs(), entry.deleted(), entry.docs().len() as int),
{
    let ghost docs = entry.docs();
    let ghost deleted = entry.deleted();
    let SegmentEntry { content, delete_bitset, delete_cursor: _, delete_meta: _ } = entry;
    let mut documents = content.into_documents();
    let n = documents.len();
    let ghost start = doc_views(out@);
    let mut doc: usize = 0;
    proof {
        assert(doc_views(documents@) =~= docs.subrange(0, n as int));
    }
    while doc < n
        invariant
            n == docs.len(),
            0 <= doc <= n,
            deleted == bitset_members(delete_bitset),
            doc_views(documents@) == docs.subrange(doc as int, n as int),
            doc_views(out@) == start + live_docs(docs, deleted, doc as int),
        decreases n - doc,
    {
        let ghost before = documents@;
        proof {
            assert(doc_views(before).len() == before.len());
            assert(doc_views(before)[0] == before[0]@);
        }
        let d = documents.remove(0);
        proof {
            assert(d == before[0]);
            assert(d@ == docs[doc as int]);
            assert(doc_views(documents@) =~= docs.subrange(doc + 1, n as int)) by {
                assert(documents@ == before.remove(0));
                assert forall|j: int| 0 <= j < documents@.len() implies doc_views(documents@)[j] == docs.subrange(doc + 1, n as int)[j] by {
                    assert(documents@[j] == before[j + 1]);
                    assert(doc_views(before)[j + 1] == before[j + 1]@);
                }
            }
        }
        let ghost out0 = out@;
        let keep = !bitset_contains(&delete_bitset, doc);
        if keep {
            out.push(d);
        }
        proof {
            if keep {
                assert(doc_views(out@) =~= doc_views(out0).push(d@));
            } else {
                assert(out@ == out0);
            }
            assert(doc_views(out@) =~= start + live_docs(docs, deleted, doc + 1));
        }
        doc = doc + 1;
    }
    assert(live_docs(docs, deleted, doc as int) == live_docs(docs, deleted, docs.len() as int));
}

/// The number of selected entries of `mask`.
pub open spec fn count_selected(mask: Seq<bool>) -> nat
    decreases mask.len(),
{
    if mask.len() == 0 {
        0
    } else {
        count_selected(mask.drop_last()) + if mask.last() { 1nat } else { 0nat }
    }
}

proof fn lemma_live_docs_contains(docs: Seq<Seq<Seq<u8>>>, deleted: Set<nat>, n: int, d: int)
    requires
        0 <= d < n <= docs.len(),
        !deleted.contains(d as nat),
    ensures
        live_docs(docs, deleted, n).contains(docs[d]),
    decreases n,
{
    if d < n - 1 {
        lemma_live_docs_contains(docs, deleted, n - 1, d);
        let prev = live_docs(docs, deleted, n - 1);
        let w = choose|k: int| 0 <= k < prev.len() && #[trigger] prev[k] == docs[d];
        assert(live_docs(docs, deleted, n)[w] == docs[d]);
    } else {
        let prev = live_docs(docs, deleted, n - 1);
        assert(live_docs(docs, deleted, n)[prev.len() as int] == docs[d]);
    }
}

/// Merging loses no document: every document that is not deleted in a
/// segment that takes part in a merge is in the merged segment.
pub proof fn lemma_merge_keeps_documents(segs: Seq<SegmentEntry>, mask: Seq<bool>, j: int, d: int)
    requires
        mask.len() == segs.len(),
        0 <= j < segs.len(),
        mask[j],
        0 <= d < segs[j].docs().len(),
        !segs[j].deleted().contains(d as nat),
    ensures
        merged_docs(segs, mask).contains(segs[j].docs()[d]),
    decreases segs.len(),
{
    let target = segs[j].docs()[d];
    if j == segs.len() - 1 {
        let last = segs.last();
        assert(last == segs[j]);
        lemma_live_docs_contains(last.docs(), last.deleted(), last.docs().len() as int, d);
        let part = live_docs(last.docs(), last.deleted(), last.docs().len() as int);
        let w = choose|k: int| 0 <= k < part.len() && #[trigger] part[k] == target;
        let prev = merged_docs(segs.drop_last(), mask.drop_last());
        assert(merged_docs(segs, mask)[prev.len() + w] == target);
    } else {
        let dl = segs.drop_last();
        let ml = mask.drop_last();
        assert(dl[j] == segs[j]);
        assert(ml[j] == mask[j]);
        lemma_merge_keeps_documents(dl, ml, j, d);
        let md = merged_docs(dl, ml);
        let w = choose|k: int| 0 <= k < md.len() && #[trigger] md[k] == target;
        assert(merged_docs(segs, mask)[w] == target);
    }
}

proof fn lemma_unselected_count(segs: Seq<SegmentEntry>, mask: Seq<bool>)
    requires
        mask.len() == segs.len(),
    ensures
        unselected(segs, mask).len() + count_selected(mask) == segs.len(),
    decreases segs.len(),
{
    if segs.len() > 0 {
        lemma_unselected_count(segs.drop_last(), mask.drop_last());
    }
}

proof fn lemma_count_two(mask: Seq<bool>, a: int, b: int)
    requires
        0 <= a < b < mask.len(),
        mask[a],
        mask[b],
    ensures
        count_selected(mask) >= 2,
    decreases mask.len(),
{
    let ml = mask.drop_last();
    if b == mask.len() - 1 {
        assert(ml[a] == mask[a]);
        lemma_count_one(ml, a);
    } else {
        assert(ml[a] == mask[a]);
        assert(ml[b] == mask[b]);
        lemma_count_two(ml, a, b);
    }
}

proof fn lemma_count_one(mask: Seq<bool>, a: int)
    requires
        0 <= a < mask.len(),
        mask[a],
    ensures
        count_selected(mask) >= 1,
    decreases mask.len(),
{
    if a < mask.len() - 1 {
        let ml = mask.drop_last();
        assert(ml[a] == mask[a]);
        lemma_count_one(ml, a);
    }
}

/// Merging two or more segments leaves fewer segments: those that do not
/// take part, and the merged one.
pub proof fn lemma_merge_shrinks(segs: Seq<SegmentEntry>, mask: Seq<bool>, a: int, b: int)
    requires
        mask.len() == segs.len(),
        0 <= a < b < segs.len(),
        mask[a],
        mask[b],
    ensures
        unselected(segs, mask).len() + 1 < segs.len(),
{
    lemma_unselected_count(segs, mask);
    lemma_count_two(mask, a, b);
}

/// A commit whose stamp has been drawn, waiting to be made final with
/// `IndexWriter::commit_prepared` or dropped with `IndexWriter::rollback`.
#[derive(Debug)]
pub struct PreparedCommit {
    opstamp: u64,
    payload: Option<String>,
}

impl PreparedCommit {
    /// The stamp of the commit.
    pub closed spec fn opstamp_spec(&self) -> u64 {
        self.opstamp
    }

    /// The payload attached to the commit.
    pub closed spec fn payload_spec(&self) -> Option<Seq<char>> {
        match self.payload {
            Some(p) => Some(p@),
            None => None,
        }
    }

    /// The stamp of the commit.
    pub fn opstamp(&self) -> (r: u64)
        ensures
            r == self.opstamp_spec(),
    {
        self.opstamp
    }

    /// Attaches a payload to the commit.
    pub fn set_payload(&mut self, payload: &str)
        ensures
            final(self).opstamp_spec() == old(self).opstamp_spec(),
            final(self).payload_spec() == Some(payload@),
    {
        self.payload = Some(payload.to_owned());
    }
}

/// The entry point for adding and deleting documents. Every operation gets
/// a stamp; additions wait until the next commit gathers them into a new
/// segment, deletes wait in the delete queue until a segment applies them.
pub struct IndexWriter {
    heap_size_in_bytes_per_thread: usize,
    num_threads: usize,
    stamper: Stamper,
    delete_queue: DeleteQueue,
    worker_cursor: DeleteCursor,
    committed_opstamp: u64,
    generation: usize,
    pending_docs: Vec<Document>,
    pending_opstamps: Vec<u64>,
    pending_mem: usize,
    segments: Vec<SegmentEntry>,
    num_committed: usize,
    committed: Ghost<Seq<(Seq<Seq<Seq<u8>>>, Set<nat>, Option<DeleteMeta>)>>,
    payload: Option<String>,
}

impl IndexWriter {
    /// The stamp that the next operation gets.
    pub closed spec fn next_opstamp_spec(&self) -> nat {
        self.stamper.next_spec()
    }

    /// The stamp of the last commit.
    pub closed spec fn committed_opstamp_spec(&self) -> u64 {
        self.committed_opstamp
    }

    /// The documents added since the segments were last built, in order.
    pub closed spec fn pending_docs_spec(&self) -> Seq<Seq<Seq<u8>>> {
        self.pending_docs@.map_values(|d: Document| d@)
    }

    /// The stamps of the pending documents.
    pub closed spec fn pending_opstamps_spec(&self) -> Seq<u64> {
        self.pending_opstamps@
    }

    /// Every delete operation of the current queue, in order.
    pub closed spec fn deletes_spec(&self) -> Seq<(u64, Seq<u8>)> {
        op_views(self.delete_queue.log())
    }

    /// The cursor from which the next segment starts reading deletes.
    pub closed spec fn worker_cursor_spec(&self) -> DeleteCursor {
        self.worker_cursor
    }

    /// The queue of delete operations.
    pub closed spec fn queue_spec(&self) -> DeleteQueue {
        self.delete_queue
    }

    /// The live segments: the committed ones first, then those built since.
    pub closed spec fn segments_spec(&self) -> Seq<SegmentEntry> {
        self.segments@
    }

    /// How many of the live segments are committed.
    pub closed spec fn num_committed_spec(&self) -> nat {
        self.num_committed as nat
    }

    /// What the committed segments held right after the last commit.
    pub closed spec fn committed_spec(&self) -> Seq<(Seq<Seq<Seq<u8>>>, Set<nat>, Option<DeleteMeta>)> {
        self.committed@
    }

    /// The writer's invariant: its internal consistency, and pending
    /// documents that do not fill the memory budget yet.
    pub closed spec fn wf(&self) -> bool {
        &&& self.wf_core()
        &&& !fills_budget(docs_bytes(self.pending_docs_spec()), self.heap_size_in_bytes_per_thread)
    }

    /// The memory budget of each indexing thread, in bytes.
    pub closed spec fn heap_spec(&self) -> usize {
        self.heap_size_in_bytes_per_thread
    }

    /// The writer's internal consistency.
    closed spec fn wf_core(&self) -> bool {
        &&& self.pending_mem == capped(docs_bytes(self.pending_docs_spec()))
        &&& HEAP_SIZE_MIN <= self.heap_size_in_bytes_per_thread <= HEAP_SIZE_MAX
        &&& self.delete_queue.wf()
        &&& self.worker_cursor.valid_for(&self.delete_queue)
        &&& forall|i: int| 0 <= i < self.segments@.len() ==> {
            &&& (#[trigger] self.segments@[i]).cursor().valid_for(&self.delete_queue)
            &&& self.segments@[i].docs().len() < u32::MAX
        }
        &&& self.pending_docs@.len() == self.pending_opstamps@.len()
        &&& self.pending_docs@.len() < u32::MAX
        &&& forall|i: int, j: int| 0 <= i < j < self.pending_opstamps@.len()
            ==> self.pending_opstamps@[i] < self.pending_opstamps@[j]
        &&& forall|i: int| 0 <= i < self.pending_opstamps@.len()
            ==> #[trigger] self.pending_opstamps@[i] < self.stamper.next_spec()
        &&& forall|i: int, j: int| 0 <= i < j < self.delete_queue.log().len()
            ==> self.delete_queue.log()[i].opstamp < self.delete_queue.log()[j].opstamp
        &&& forall|i: int| 0 <= i < self.delete_queue.log().len()
            ==> #[trigger] self.delete_queue.log()[i].opstamp < self.stamper.next_spec()
        &&& self.committed_opstamp <= self.stamper.next_spec()
        &&& self.num_committed <= self.segments@.len()
        &&& self.committed@.len() == self.num_committed
        &&& forall|i: int| 0 <= i < self.num_committed
            ==> segment_state(#[trigger] self.segments@[i]) == self.committed@[i]
    }

    /// What the invariant tells callers: fewer documents wait than a
    /// segment can hold, the last commit's stamp has been handed out, and
    /// the queued deletes carry increasing stamps, all already handed out.
    pub proof fn lemma_wf_bounds(&self)
        requires
            self.wf(),
        ensures
            self.pending_docs_spec().len() < u32::MAX,
            self.pending_opstamps_spec().len() == self.pending_docs_spec().len(),
            self.committed_opstamp_spec() <= self.next_opstamp_spec(),
            forall|i: int, j: int| 0 <= i < j < self.deletes_spec().len()
                ==> self.deletes_spec()[i].0 < self.deletes_spec()[j].0,
            forall|i: int| 0 <= i < self.deletes_spec().len()
                ==> #[trigger] self.deletes_spec()[i].0 < self.next_opstamp_spec(),
    {
    }

    proof fn lemma_cursors_survive(&self, q: DeleteQueue)
        requires
            forall|i: int| 0 <= i < self.segments@.len() ==> (#[trigger] self.segments@[i]).cursor().valid_for(&q),
            self.delete_queue.extends(&q),
        ensures
            forall|i: int| 0 <= i < self.segments@.len() ==> (#[trigger] self.segments@[i]).cursor().valid_for(&self.delete_queue),
    {
        assert forall|i: int| 0 <= i < self.segments@.len() implies (#[trigger] self.segments@[i]).cursor().valid_for(&self.delete_queue) by {
            self.segments@[i].cursor().lemma_extends(&q, &self.delete_queue);
        }
    }

    /// The stamp of the last successful commit: the state that searchers
    /// see and that a rollback returns to.
    pub fn commit_opstamp(&self) -> (r: u64)
        ensures
            r == self.committed_opstamp_spec(),
    {
        self.committed_opstamp
    }

    /// The stamp that the next operation gets.
    pub fn next_opstamp(&self) -> (r: u64)
        ensures
            r == self.next_opstamp_spec(),
    {
        self.stamper.peek()
    }

    /// The payload attached to the last commit.
    pub closed spec fn payload_spec(&self) -> Option<Seq<char>> {
        match self.payload {
            Some(p) => Some(p@),
            None => None,
        }
    }

    /// The payload attached to the last commit, if any.
    pub fn commit_payload(&self) -> (r: Option<&String>)
        ensures
            r matches Some(p) ==> self.payload_spec() == Some(p@),
            r is None ==> self.payload_spec() is None,
    {
        self.payload.as_ref()
    }

    /// Drops a prepared commit: the same as `rollback`.
    pub fn abort_prepared(&mut self, prepared: PreparedCommit)
        requires
            old(self).wf(),
        ensures
            final(self).wf(),
            final(self).committed_opstamp_spec() == old(self).committed_opstamp_spec(),
            final(self).next_opstamp_spec() == old(self).committed_opstamp_spec(),
            final(self).pending_docs_spec().len() == 0,
            final(self).deletes_spec().len() == 0,
            final(self).num_committed_spec() == old(self).num_committed_spec(),
            final(self).segments_spec().len() == old(self).num_committed_spec(),
            final(self).committed_spec() == old(self).committed_spec(),
            final(self).segments_spec().map_values(|e: SegmentEntry| segment_state(e)) == old(self).committed_spec(),
    {
        self.rollback();
    }

    /// The memory budget of each indexing thread, in bytes.
    pub fn heap_size_in_bytes_per_thread(&self) -> (r: usize)
        requires
            self.wf(),
        ensures
            HEAP_SIZE_MIN <= r <= HEAP_SIZE_MAX,
    {
        self.heap_size_in_bytes_per_thread
    }

    /// The number of indexing threads.
    pub closed spec fn num_threads_spec(&self) -> usize {
        self.num_threads
    }

    /// The current generation of indexing work.
    pub closed spec fn generation_spec(&self) -> usize {
        self.generation
    }

    /// The number of indexing threads.
    pub fn num_threads(&self) -> (r: usize)
        ensures
            r == self.num_threads_spec(),
    {
        self.num_threads
    }

    /// The number of commits prepared so far, wrapping around, which names
    /// the current generation of indexing work.
    pub fn generation(&self) -> (r: usize)
        ensures
            r == self.generation_spec(),
    {
        self.generation
    }

    /// Publishes a segment built elsewhere: it joins the live segments with
    /// no deleted document, and reads the deletes that come after the ones
    /// already flushed.
    pub fn add_segment(&mut self, content: SegmentContent)
        requires
            old(self).wf(),
            content@.len() < u32::MAX,
        ensures
            final(self).wf(),
            final(self).segments_spec().len() == old(self).segments_spec().len() + 1,
            final(self).segments_spec().take(old(self).segments_spec().len() as int) == old(self).segments_spec(),
            final(self).segments_spec().last().docs() == content@,
            final(self).segments_spec().last().deleted() == Set::<nat>::empty(),
            final(self).segments_spec().last().meta() is None,
            final(self).segments_spec().last().cursor().index(&final(self).queue_spec())
                == final(self).queue_spec().flushed().len(),
            final(self).queue_spec() == old(self).queue_spec(),
            final(self).num_committed_spec() == old(self).num_committed_spec(),
            final(self).committed_spec() == old(self).committed_spec(),
            final(self).pending_docs_spec() == old(self).pending_docs_spec(),
            final(self).next_opstamp_spec() == old(self).next_opstamp_spec(),
            final(self).committed_opstamp_spec() == old(self).committed_opstamp_spec(),
    {
        let delete_cursor = self.delete_queue.cursor();
        let n = content.max_doc();
        let delete_bitset = bitset_with_capacity(n);
        let entry = SegmentEntry { content, delete_bitset, delete_cursor, delete_meta: None };
        self.segments.push(entry);
        proof {
            assert(self.segments@.take(old(self).segments@.len() as int) =~= old(self).segments@);
            assert forall|i: int| 0 <= i < self.num_committed implies
                segment_state(#[trigger] self.segments@[i]) == self.committed@[i] by {
                assert(self.segments@[i] == old(self).segments@[i]);
            }
        }
    }

    /// The number of documents waiting for the next commit.
    pub fn num_pending_docs(&self) -> (r: usize)
        ensures
            r == self.pending_docs_spec().len(),
    {
        self.pending_docs.len()
    }

    /// The number of segments that searchers see: the committed ones.
    pub fn num_searchable_segments(&self) -> (r: usize)
        ensures
            r == self.num_committed_spec(),
    {
        self.num_committed
    }

    /// Adds a document. Returns its stamp; the document reaches the index at
    /// the next commit.
    pub fn add_document(&mut self, document: Document) -> (r: u64)
        requires
            old(self).wf(),
            old(self).next_opstamp_spec() < u64::MAX,
            old(self).pending_docs_spec().len() + 1 < u32::MAX,
        ensures
            final(self).wf(),
            r == old(self).next_opstamp_spec(),
            final(self).next_opstamp_spec() == old(self).next_opstamp_spec() + 1,
            ({
                let docs = old(self).pending_docs_spec().push(document@);
                let stamps = old(self).pending_opstamps_spec().push(r);
                &&& !fills_budget(docs_bytes(docs), old(self).heap_spec()) ==> {
                    &&& final(self).pending_docs_spec() == docs
                    &&& final(self).pending_opstamps_spec() == stamps
                    &&& final(self).segments_spec() == old(self).segments_spec()
                }
                &&& fills_budget(docs_bytes(docs), old(self).heap_spec()) ==> {
                    &&& final(self).pending_docs_spec().len() == 0
                    &&& final(self).segments_spec().len() == old(self).segments_spec().len() + 1
                    &&& final(self).segments_spec().take(old(self).segments_spec().len() as int) == old(self).segments_spec()
                    &&& built_from(
                        docs,
                        stamps,
                        old(self).worker_cursor_spec().index(&old(self).queue_spec()),
                        old(self).queue_spec().log(),
                        final(self).segments_spec().last(),
                        final(self).queue_spec(),
                    )
                }
            }),
            final(self).deletes_spec() == old(self).deletes_spec(),
            final(self).queue_spec().log() == old(self).queue_spec().log(),
            final(self).num_committed_spec() == old(self).num_committed_spec(),
            final(self).committed_spec() == old(self).committed_spec(),
            final(self).committed_opstamp_spec() == old(self).committed_opstamp_spec(),
            final(self).heap_spec() == old(self).heap_spec(),
            final(self).generation_spec() == old(self).generation_spec(),
            final(self).num_threads_spec() == old(self).num_threads_spec(),
    {
        let opstamp = self.stamper.stamp();
        let mem = document.mem_usage();
        let add_operation = AddOperation { opstamp, document };
        self.pending_docs.push(add_operation.document);
        self.pending_opstamps.push(add_operation.opstamp);
        self.pending_mem = self.pending_mem.saturating_add(mem);
        proof {
            assert(self.pending_docs_spec() =~= old(self).pending_docs_spec().push(document@));
            assert(self.pending_docs_spec().drop_last() =~= old(self).pending_docs_spec());
            lemma_capped_add(docs_bytes(old(self).pending_docs_spec()), terms_bytes(document@));
        }
        self.flush_if_full();
        opstamp
    }

    /// Closes the segment being built when the pending documents fill the
    /// memory budget: they then go into a new segment.
    fn flush_if_full(&mut self)
        requires
            old(self).wf_core(),
        ensures
            final(self).wf(),
            !fills_budget(docs_bytes(old(self).pending_docs_spec()), old(self).heap_spec()) ==> *final(self) == *old(self),
            fills_budget(docs_bytes(old(self).pending_docs_spec()), old(self).heap_spec()) ==> {
                &&& final(self).pending_docs_spec().len() == 0
                &&& final(self).segments_spec().len() == old(self).segments_spec().len() + 1
                &&& final(self).segments_spec().take(old(self).segments_spec().len() as int) == old(self).segments_spec()
                &&& new_segment(old(self), final(self).segments_spec().last(), final(self).queue_spec())
            },
            final(self).next_opstamp_spec() == old(self).next_opstamp_spec(),
            final(self).deletes_spec() == old(self).deletes_spec(),
            final(self).queue_spec().log() == old(self).queue_spec().log(),
            final(self).queue_spec().extends(&old(self).queue_spec()),
            final(self).num_committed_spec() == old(self).num_committed_spec(),
            final(self).committed_spec() == old(self).committed_spec(),
            final(self).committed_opstamp_spec() == old(self).committed_opstamp_spec(),
            final(self).heap_spec() == old(self).heap_spec(),
            final(self).generation_spec() == old(self).generation_spec(),
            final(self).num_threads_spec() == old(self).num_threads_spec(),
    {
        if budget_exhausted(self.pending_mem, self.heap_size_in_bytes_per_thread) {
            proof {
                if self.pending_docs_spec().len() == 0 {
                    assert(docs_bytes(self.pending_docs_spec()) == 0);
                }
            }
            self.index_documents();
        } else {
            proof {
                crate::delete_queue::lemma_extends_refl(self.delete_queue);
            }
        }
    }

    /// Deletes every document that holds `term` and was added before this
    /// call. Returns the stamp of the delete; it reaches the index at the
    /// next commit.
    pub fn delete_term(&mut self, term: Term) -> (r: u64)
        requires
            old(self).wf(),
            old(self).next_opstamp_spec() < u64::MAX,
        ensures
            final(self).wf(),
            r == old(self).next_opstamp_spec(),
            final(self).next_opstamp_spec() == old(self).next_opstamp_spec() + 1,
            final(self).deletes_spec() == old(self).deletes_spec().push((r, term@)),
            final(self).pending_docs_spec() == old(self).pending_docs_spec(),
            final(self).pending_opstamps_spec() == old(self).pending_opstamps_spec(),
            final(self).segments_spec() == old(self).segments_spec(),
            final(self).num_committed_spec() == old(self).num_committed_spec(),
            final(self).committed_spec() == old(self).committed_spec(),
            final(self).committed_opstamp_spec() == old(self).committed_opstamp_spec(),
    {
        let opstamp = self.stamper.stamp();
        let delete_operation = DeleteOperation { opstamp, term };
        let ghost q0 = self.delete_queue;
        self.delete_queue.push(delete_operation);
        proof {
            self.lemma_cursors_survive(q0);
            self.worker_cursor.lemma_extends(&q0, &self.delete_queue);
            assert(self.deletes_spec() =~= old(self).deletes_spec().push((opstamp, delete_operation.term@)));
        }
        opstamp
    }

    /// Runs a batch of operations. The operations get contiguous stamps in
    /// their order, and the batch itself the stamp that follows, which is
    /// returned: an empty batch still takes one stamp. Deletes go to the
    /// delete queue and additions wait for the next commit, together.
    pub fn run(&mut self, user_operations: Vec<UserOperation>) -> (r: u64)
        requires
            old(self).wf(),
            old(self).next_opstamp_spec() + user_operations@.len() < u64::MAX,
            old(self).pending_docs_spec().len() + user_operations@.len() < u32::MAX,
        ensures
            final(self).wf(),
            r == old(self).next_opstamp_spec() + user_operations@.len(),
            final(self).next_opstamp_spec() == r + 1,
            ({
                let docs = old(self).pending_docs_spec() + added_docs(user_operations@);
                let stamps = old(self).pending_opstamps_spec() + add_stamps(user_operations@, old(self).next_opstamp_spec() as u64);
                &&& !fills_budget(docs_bytes(docs), old(self).heap_spec()) ==> {
                    &&& final(self).pending_docs_spec() == docs
                    &&& final(self).pending_opstamps_spec() == stamps
                    &&& final(self).segments_spec() == old(self).segments_spec()
                }
                &&& fills_budget(docs_bytes(docs), old(self).heap_spec()) ==> {
                    &&& final(self).pending_docs_spec().len() == 0
                    &&& final(self).segments_spec().len() == old(self).segments_spec().len() + 1
                    &&& final(self).segments_spec().take(old(self).segments_spec().len() as int) == old(self).segments_spec()
                    &&& built_from(
                        docs,
                        stamps,
                        old(self).worker_cursor_spec().index(&old(self).queue_spec()),
                        final(self).queue_spec().log(),
                        final(self).segments_spec().last(),
                        final(self).queue_spec(),
                    )
                }
            }),
            final(self).deletes_spec() == old(self).deletes_spec()
                + batch_deletes(user_operations@, old(self).next_opstamp_spec() as u64),
            final(self).queue_spec().extends(&old(self).queue_spec()),
            final(self).heap_spec() == old(self).heap_spec(),
            final(self).generation_spec() == old(self).generation_spec(),
            final(self).num_threads_spec() == old(self).num_threads_spec(),
            final(self).num_committed_spec() == old(self).num_committed_spec(),
            final(self).committed_spec() == old(self).committed_spec(),
            final(self).committed_opstamp_spec() == old(self).committed_opstamp_spec(),
    {
        let count = user_operations.len() as u64;
        if count == 0 {
            assert(added_docs(user_operations@) =~= Seq::<Seq<Seq<u8>>>::empty());
            assert(self.pending_docs_spec() =~= old(self).pending_docs_spec() + added_docs(user_operations@));
            assert(self.pending_opstamps_spec() =~= old(self).pending_opstamps_spec()
                + add_stamps(user_operations@, old(self).next_opstamp_spec() as u64));
            assert(self.deletes_spec() =~= old(self).deletes_spec()
                + batch_deletes(user_operations@, old(self).next_opstamp_spec() as u64));
            proof {
                crate::delete_queue::lemma_extends_refl(self.delete_queue);
            }
            return self.stamper.stamp();
        }
        let (batch_opstamp, stamps) = self.get_batch_opstamps(count);
        let ghost ops = user_operations@;
        let ghost start = stamps.start;
        let mut remaining = user_operations;
        let mut opstamp = stamps.start;
        let mut i: usize = 0;
        proof {
            assert(ops.take(0) =~= Seq::<UserOperation>::empty());
            assert(self.pending_docs_spec() =~= old(self).pending_docs_spec() + added_docs(ops.take(0)));
            assert(self.pending_opstamps_spec() =~= old(self).pending_opstamps_spec() + add_stamps(ops.take(0), start));
            assert(self.deletes_spec() =~= old(self).deletes_spec() + batch_deletes(ops.take(0), start));
        }
        proof {
            crate::delete_queue::lemma_extends_refl(self.delete_queue);
        }
        while remaining.len() > 0
            invariant
                self.wf_core(),
                self.delete_queue.extends(&old(self).delete_queue),
                self.worker_cursor == old(self).worker_cursor,
                self.heap_size_in_bytes_per_thread == old(self).heap_size_in_bytes_per_thread,
                self.generation == old(self).generation,
                self.num_threads == old(self).num_threads,
                0 <= i <= ops.len(),
                remaining@ == ops.subrange(i as int, ops.len() as int),
                start == old(self).next_opstamp_spec(),
                opstamp == start + i,
                start + ops.len() == batch_opstamp,
                self.next_opstamp_spec() == batch_opstamp + 1,
                old(self).pending_docs_spec().len() + ops.len() < u32::MAX,
                forall|j: int| 0 <= j < self.pending_opstamps@.len() ==> #[trigger] self.pending_opstamps@[j] < opstamp,
                forall|j: int| 0 <= j < self.delete_queue.log().len() ==> #[trigger] self.delete_queue.log()[j].opstamp < opstamp,
                self.pending_docs_spec() == old(self).pending_docs_spec() + added_docs(ops.take(i as int)),
                self.pending_opstamps_spec() == old(self).pending_opstamps_spec() + add_stamps(ops.take(i as int), start),
                self.deletes_spec() == old(self).deletes_spec() + batch_deletes(ops.take(i as int), start),
                self.segments_spec() == old(self).segments_spec(),
                self.num_committed_spec() == old(self).num_committed_spec(),
                self.committed_spec() == old(self).committed_spec(),
                self.committed_opstamp_spec() == old(self).committed_opstamp_spec(),
            decreases remaining@.len(),
        {
            let user_op = remaining.remove(0);
            let ghost prefix = ops.take(i as int);
            proof {
                assert(user_op == ops[i as int]);
                assert(ops.take(i + 1).drop_last() =~= prefix);
                assert(ops.take(i + 1).last() == user_op);
                assert(added_docs(prefix).len() <= prefix.len()) by {
                    lemma_added_docs_len(prefix);
                }
            }
            match user_op {
                UserOperation::Delete(term) => {
                    let delete_operation = DeleteOperation { opstamp, term };
                    let ghost q0 = self.delete_queue;
                    self.delete_queue.push(delete_operation);
                    proof {
                        self.lemma_cursors_survive(q0);
                        self.worker_cursor.lemma_extends(&q0, &self.delete_queue);
                        crate::delete_queue::lemma_extends_trans(old(self).delete_queue, q0, self.delete_queue);
                        assert(op_views(self.delete_queue.log()) =~= op_views(q0.log()).push((opstamp, delete_operation.term@)));
                        assert(batch_deletes(ops.take(i + 1), start) == batch_deletes(prefix, start) + seq![(opstamp, delete_operation.term@)]);
                        assert(self.deletes_spec() =~= old(self).deletes_spec() + batch_deletes(ops.take(i + 1), start));
                        assert(self.pending_docs_spec() =~= old(self).pending_docs_spec() + added_docs(ops.take(i + 1)));
                        assert(self.pending_opstamps_spec() =~= old(self).pending_opstamps_spec() + add_stamps(ops.take(i + 1), start));
                    }
                },
                UserOperation::Add(document) => {
                    let mem = document.mem_usage();
                    let add_operation = AddOperation { opstamp, document };
                    let ghost before = self.pending_docs_spec();
                    self.pending_docs.push(add_operation.document);
                    self.pending_opstamps.push(add_operation.opstamp);
                    self.pending_mem = self.pending_mem.saturating_add(mem);
                    proof {
                        assert(self.pending_docs_spec() =~= before.push(add_operation.document@));
                        assert(self.pending_docs_spec().drop_last() =~= before);
                        lemma_capped_add(docs_bytes(before), terms_bytes(add_operation.document@));
                        assert(self.deletes_spec() =~= old(self).deletes_spec() + batch_deletes(ops.take(i + 1), start));
                        assert(added_docs(ops.take(i + 1)) == added_docs(prefix) + seq![add_operation.document@]);
                        assert(self.pending_docs@.map_values(|d: Document| d@) =~= old(self).pending_docs_spec() + added_docs(prefix) + seq![add_operation.document@]);
                        assert(self.pending_docs_spec() =~= old(self).pending_docs_spec() + added_docs(ops.take(i + 1)));
                        assert(self.pending_opstamps_spec() =~= old(self).pending_opstamps_spec() + add_stamps(ops.take(i + 1), start));
                    }
                },
            }
            opstamp = opstamp + 1;
            i = i + 1;
        }
        proof {
            assert(ops.take(i as int) =~= ops);
            self.worker_cursor.lemma_extends(&old(self).delete_queue, &self.delete_queue);
        }
        let ghost mid = *self;
        self.flush_if_full();
        proof {
            crate::delete_queue::lemma_extends_trans(old(self).delete_queue, mid.delete_queue, self.delete_queue);
        }
        batch_opstamp
    }

    /// Gathers the pending documents into a new segment: moves the worker's
    /// delete cursor to the first delete that is not older than the first
    /// document, applies to the segment every delete up to the last
    /// document's stamp, and publishes the segment with a cursor on the
    /// deletes that are left. Does nothing when no document is pending.
    fn index_documents(&mut self)
        requires
            old(self).wf_core(),
        ensures
            final(self).heap_spec() == old(self).heap_spec(),
            final(self).generation_spec() == old(self).generation_spec(),
            final(self).num_threads_spec() == old(self).num_threads_spec(),
            final(self).queue_spec().log() == old(self).queue_spec().log(),
            final(self).queue_spec().extends(&old(self).queue_spec()),
            final(self).wf(),
            final(self).pending_docs_spec().len() == 0,
            final(self).next_opstamp_spec() == old(self).next_opstamp_spec(),
            final(self).deletes_spec() == old(self).deletes_spec(),
            final(self).num_committed_spec() == old(self).num_committed_spec(),
            final(self).committed_spec() == old(self).committed_spec(),
            final(self).committed_opstamp_spec() == old(self).committed_opstamp_spec(),
            old(self).pending_docs_spec().len() == 0 ==> final(self).segments_spec() == old(self).segments_spec(),
            old(self).pending_docs_spec().len() > 0 ==> {
                &&& final(self).segments_spec().len() == old(self).segments_spec().len() + 1
                &&& final(self).segments_spec().take(old(self).segments_spec().len() as int) == old(self).segments_spec()
                &&& new_segment(old(self), final(self).segments_spec().last(), final(self).queue_spec())
            },
    {
        let n = self.pending_docs.len();
        if n == 0 {
            proof {
                crate::delete_queue::lemma_extends_refl(self.delete_queue);
            }
            return;
        }
        let first_opstamp = self.pending_opstamps[0];
        let last_opstamp = self.pending_opstamps[n - 1];
        let ghost q0 = self.delete_queue;
        let ghost from = self.worker_cursor.index(&self.delete_queue);
        proof {
            self.worker_cursor.lemma_index_bounded(&self.delete_queue);
        }
        let ghost log = self.delete_queue.log();
        let ghost stamps = self.pending_opstamps@;
        let ghost docs = self.pending_docs_spec();
        self.worker_cursor.skip_to(&mut self.delete_queue, first_opstamp);
        let ghost skip = self.worker_cursor.index(&self.delete_queue);
        let mut delete_cursor = self.worker_cursor;
        let mut documents: Vec<Document> = Vec::new();
        std::mem::swap(&mut documents, &mut self.pending_docs);
        let mut doc_opstamps: Vec<u64> = Vec::new();
        std::mem::swap(&mut doc_opstamps, &mut self.pending_opstamps);
        self.pending_mem = 0;
        let content = SegmentContent::from_documents(documents);
        let doc_to_opstamps = DocToOpstampMapping::WithMap(doc_opstamps);
        assert(doc_to_opstamps.wf()) by {
            assert forall|i: int, j: int| 0 <= i <= j < doc_opstamps@.len() implies doc_opstamps@[i] <= doc_opstamps@[j] by {
                if i < j {
                    assert(old(self).pending_opstamps@[i] < old(self).pending_opstamps@[j]);
                }
            }
        }
        let mut delete_bitset = bitset_with_capacity(n);
        assert(Set::<nat>::empty().union(deleted_docs(docs, Some(stamps), log.subrange(skip, delete_cursor.index(&self.delete_queue))))
            =~= deleted_docs(docs, Some(stamps), log.subrange(skip, delete_cursor.index(&self.delete_queue))));
        let ghost q1 = self.delete_queue;
        compute_deleted_bitset(
            &mut delete_bitset,
            &content,
            &mut delete_cursor,
            &mut self.delete_queue,
            &doc_to_opstamps,
            last_opstamp,
        );
        proof {
            crate::delete_queue::lemma_extends_trans(q0, q1, self.delete_queue);
            self.lemma_cursors_survive(q0);
            self.worker_cursor.lemma_extends(&q1, &self.delete_queue);
            assert(stamps.last() == last_opstamp);
            assert forall|i: int| from <= i < skip implies #[trigger] log[i].opstamp <= last_opstamp by {
                assert(log[i].opstamp < first_opstamp);
                if n > 1 {
                    assert(stamps[0] < stamps[n - 1]);
                }
            }
            lemma_first_after_skip(log, from, skip, last_opstamp);
            lemma_first_after_bounds(log, skip, last_opstamp);
            let to = first_after(log, from, last_opstamp);
            crate::segment::lemma_deletes_split(docs, Some(stamps), log.subrange(from, skip), log.subrange(skip, to));
            assert(log.subrange(from, skip) + log.subrange(skip, to) =~= log.subrange(from, to));
            assert(deleted_docs(docs, Some(stamps), log.subrange(from, skip)) =~= Set::<nat>::empty()) by {
                assert forall|d: nat| !deleted_docs(docs, Some(stamps), log.subrange(from, skip)).contains(d) by {
                    if deleted_docs(docs, Some(stamps), log.subrange(from, skip)).contains(d) {
                        let i = choose|i: int| 0 <= i < log.subrange(from, skip).len()
                            && crate::segment::deletes_doc(docs, Some(stamps), #[trigger] log.subrange(from, skip)[i], d as int);
                        assert(log.subrange(from, skip)[i] == log[from + i]);
                        if d > 0 {
                            assert(stamps[0] < stamps[d as int]);
                        }
                    }
                }
            }
            assert(bitset_members(delete_bitset) =~= deleted_docs(docs, Some(stamps), log.subrange(from, to)));
        }
        let entry = SegmentEntry { content, delete_bitset, delete_cursor, delete_meta: None };
        self.segments.push(entry);
        proof {
            assert(self.pending_docs_spec() =~= Seq::<Seq<Seq<u8>>>::empty());
            assert(self.segments@.take(old(self).segments@.len() as int) =~= old(self).segments@);
            assert forall|i: int| 0 <= i < self.num_committed implies
                segment_state(#[trigger] self.segments@[i]) == self.committed@[i] by {
                assert(self.segments@[i] == old(self).segments@[i]);
            }
        }
    }

    /// The first stamp that the pending documents were added with.
    pub closed spec fn first_pending_opstamp(&self) -> u64 {
        self.pending_opstamps@[0]
    }

    /// Prepares a commit: gathers the pending documents into a new segment
    /// and draws the commit's stamp. Nothing is committed until
    /// `commit_prepared`.
    pub fn prepare_commit(&mut self) -> (r: PreparedCommit)
        requires
            old(self).wf(),
            old(self).next_opstamp_spec() < u64::MAX,
        ensures
            final(self).wf(),
            r.opstamp_spec() == old(self).next_opstamp_spec(),
            r.payload_spec() is None,
            final(self).next_opstamp_spec() == old(self).next_opstamp_spec() + 1,
            final(self).pending_docs_spec().len() == 0,
            final(self).deletes_spec() == old(self).deletes_spec(),
            final(self).num_committed_spec() == old(self).num_committed_spec(),
            final(self).committed_spec() == old(self).committed_spec(),
            final(self).committed_opstamp_spec() == old(self).committed_opstamp_spec(),
            final(self).segments_spec().take(old(self).segments_spec().len() as int) == old(self).segments_spec(),
            final(self).segments_spec().len() == old(self).segments_spec().len()
                + if old(self).pending_docs_spec().len() > 0 { 1int } else { 0int },
            old(self).pending_docs_spec().len() > 0 ==> new_segment(old(self), final(self).segments_spec().last(), final(self).queue_spec()),
            final(self).queue_spec().log() == old(self).queue_spec().log(),
            final(self).queue_spec().extends(&old(self).queue_spec()),
            final(self).generation_spec() == if old(self).generation_spec() < usize::MAX {
                (old(self).generation_spec() + 1) as usize
            } else {
                0
            },
            final(self).num_threads_spec() == old(self).num_threads_spec(),
    {
        self.index_documents();
        proof {
            if old(self).pending_docs_spec().len() == 0 {
                assert(self.segments@.take(old(self).segments@.len() as int) =~= old(self).segments@);
            }
        }
        self.worker_cursor = self.delete_queue.cursor();
        self.generation = if self.generation < usize::MAX { self.generation + 1 } else { 0 };
        let opstamp = self.stamper.stamp();
        PreparedCommit { opstamp, payload: None }
    }

    /// Makes a prepared commit final: brings the deletes of every live
    /// segment up to the commit's stamp, makes every live segment
    /// committed, and records the commit's stamp. Returns that stamp.
    pub fn commit_prepared(&mut self, prepared: PreparedCommit) -> (r: u64)
        requires
            old(self).wf(),
            old(self).committed_opstamp_spec() <= prepared.opstamp_spec() < old(self).next_opstamp_spec(),
        ensures
            final(self).wf(),
            r == prepared.opstamp_spec(),
            final(self).committed_opstamp_spec() == r,
            final(self).num_committed_spec() == final(self).segments_spec().len(),
            final(self).segments_spec().len() == old(self).segments_spec().len(),
            forall|i: int| 0 <= i < old(self).segments_spec().len() ==> deletes_advanced(
                old(self).segments_spec()[i],
                old(self).queue_spec(),
                #[trigger] final(self).segments_spec()[i],
                final(self).queue_spec(),
                r,
            ),
            final(self).next_opstamp_spec() == old(self).next_opstamp_spec(),
            final(self).deletes_spec() == old(self).deletes_spec(),
            final(self).pending_docs_spec() == old(self).pending_docs_spec(),
            final(self).payload_spec() == prepared.payload_spec(),
            final(self).committed_spec() == final(self).segments_spec().map_values(|e: SegmentEntry| segment_state(e)),
    {
        let opstamp = prepared.opstamp;
        let n = self.segments.len();
        let mut done: Vec<SegmentEntry> = Vec::new();
        let ghost segs = self.segments@;
        let mut i: usize = 0;
        proof {
            crate::delete_queue::lemma_extends_refl(self.delete_queue);
        }
        while i < n
            invariant
                n == segs.len(),
                0 <= i <= n,
                self.segments@ == segs.subrange(i as int, n as int),
                done@.len() == i,
                forall|j: int| 0 <= j < i ==> deletes_advanced(segs[j], old(self).delete_queue, #[trigger] done@[j], self.delete_queue, opstamp),
                forall|j: int| 0 <= j < segs.len() ==> (#[trigger] segs[j]).cursor().valid_for(&old(self).delete_queue),
                self.delete_queue.extends(&old(self).delete_queue),
                forall|j: int| 0 <= j < i ==> (#[trigger] done@[j]).cursor().valid_for(&self.delete_queue),
                forall|j: int| 0 <= j < i ==> (#[trigger] done@[j]).docs().len() < u32::MAX,
                forall|j: int| 0 <= j < self.segments@.len() ==> (#[trigger] self.segments@[j]).cursor().valid_for(&self.delete_queue),
                forall|j: int| 0 <= j < self.segments@.len() ==> (#[trigger] self.segments@[j]).docs().len() < u32::MAX,
                self.delete_queue.wf(),
                self.delete_queue.log() == old(self).delete_queue.log(),
                self.worker_cursor.valid_for(&self.delete_queue),
                self.stamper == old(self).stamper,
                self.pending_docs == old(self).pending_docs,
                self.pending_opstamps == old(self).pending_opstamps,
                self.pending_mem == old(self).pending_mem,
                self.heap_size_in_bytes_per_thread == old(self).heap_size_in_bytes_per_thread,
            decreases n - i,
        {
            let ghost s0 = self.segments@;
            let mut entry = self.segments.remove(0);
            proof {
                assert(entry == segs[i as int]);
                assert(entry == s0[0]);
            }
            let ghost q0 = self.delete_queue;
            let ghost s1 = self.segments@;
            advance_deletes(&mut entry, &mut self.delete_queue, opstamp);
            proof {
                lemma_index_kept(segs[i as int], old(self).delete_queue, q0);
                lemma_advanced_moves(segs[i as int], q0, old(self).delete_queue, entry, self.delete_queue, self.delete_queue, opstamp);
                assert forall|j: int| 0 <= j < i implies deletes_advanced(segs[j], old(self).delete_queue, #[trigger] done@[j], self.delete_queue, opstamp) by {
                    done@[j].cursor().lemma_extends(&q0, &self.delete_queue);
                    lemma_advanced_moves(segs[j], old(self).delete_queue, old(self).delete_queue, done@[j], q0, self.delete_queue, opstamp);
                }
                crate::delete_queue::lemma_extends_trans(old(self).delete_queue, q0, self.delete_queue);
                assert forall|j: int| 0 <= j < s1.len() implies (#[trigger] s1[j]).cursor().valid_for(&self.delete_queue) by {
                    s1[j].cursor().lemma_extends(&q0, &self.delete_queue);
                }
                assert forall|j: int| 0 <= j < i implies (#[trigger] done@[j]).cursor().valid_for(&self.delete_queue) by {
                    done@[j].cursor().lemma_extends(&q0, &self.delete_queue);
                }
                self.worker_cursor.lemma_extends(&q0, &self.delete_queue);
                assert(s1 =~= segs.subrange(i + 1, n as int));
            }
            done.push(entry);
            i = i + 1;
        }
        self.segments = done;
        self.num_committed = n;
        self.committed = Ghost(self.segments@.map_values(|e: SegmentEntry| segment_state(e)));
        self.committed_opstamp = opstamp;
        self.payload = prepared.payload;
        proof {
            assert(self.delete_queue.log() == old(self).delete_queue.log());
        }
        opstamp
    }

    /// Commits every change made so far: `prepare_commit` followed by
    /// `commit_prepared`. Returns the commit's stamp.
    pub fn commit(&mut self) -> (r: u64)
        requires
            old(self).wf(),
            old(self).next_opstamp_spec() < u64::MAX,
        ensures
            final(self).wf(),
            r == old(self).next_opstamp_spec(),
            final(self).committed_opstamp_spec() == r,
            final(self).next_opstamp_spec() == r + 1,
            final(self).pending_docs_spec().len() == 0,
            final(self).deletes_spec() == old(self).deletes_spec(),
            final(self).num_committed_spec() == final(self).segments_spec().len(),
            final(self).segments_spec().len() == old(self).segments_spec().len()
                + if old(self).pending_docs_spec().len() > 0 { 1int } else { 0int },
            final(self).payload_spec() is None,
            final(self).committed_spec() == final(self).segments_spec().map_values(|e: SegmentEntry| segment_state(e)),
            forall|i: int| 0 <= i < old(self).segments_spec().len() ==> deletes_advanced(
                old(self).segments_spec()[i],
                old(self).queue_spec(),
                #[trigger] final(self).segments_spec()[i],
                final(self).queue_spec(),
                r,
            ),
            old(self).pending_docs_spec().len() > 0 ==> {
                let log = old(self).queue_spec().log();
                let from = old(self).worker_cursor_spec().index(&old(self).queue_spec());
                let to = first_after(log, from, r);
                let e = final(self).segments_spec().last();
                &&& e.docs() == old(self).pending_docs_spec()
                &&& e.deleted() == deleted_docs(e.docs(), Some(old(self).pending_opstamps_spec()), log.subrange(from, to))
                &&& e.cursor().index(&final(self).queue_spec()) == to
            },
    {
        let ghost o = *self;
        let prepared = self.prepare_commit();
        let ghost m = *self;
        let r = self.commit_prepared(prepared);
        proof {
            assert forall|i: int| 0 <= i < o.segments@.len() implies deletes_advanced(
                o.segments@[i],
                o.delete_queue,
                #[trigger] self.segments@[i],
                self.delete_queue,
                r,
            ) by {
                assert(m.segments@.take(o.segments@.len() as int)[i] == m.segments@[i]);
                assert(m.segments@[i] == o.segments@[i]);
                assert(deletes_advanced(m.segments@[i], m.delete_queue, self.segments@[i], self.delete_queue, r));
                o.segments@[i].cursor().lemma_extends(&o.delete_queue, &m.delete_queue);
                lemma_advanced_moves(o.segments@[i], m.delete_queue, o.delete_queue, self.segments@[i], self.delete_queue, self.delete_queue, r);
            }
            if o.pending_docs@.len() > 0 {
                let k = m.segments@.len() - 1;
                let e = m.segments@[k];
                assert(e == m.segments_spec().last());
                assert(new_segment(&o, e, m.delete_queue));
                assert(deletes_advanced(e, m.delete_queue, self.segments@[k], self.delete_queue, r));
                let stamps = o.pending_opstamps@;
                let log = o.delete_queue.log();
                let from = o.worker_cursor.index(&o.delete_queue);
                o.worker_cursor.lemma_index_bounded(&o.delete_queue);
                assert(stamps.last() < r);
                assert forall|i: int, j: int| 0 <= i <= j < stamps.len() implies stamps[i] <= stamps[j] by {
                    if i < j {
                        assert(stamps[i] < stamps[j]);
                    }
                }
                lemma_deletes_in_two_steps(o.pending_docs_spec(), stamps, log, from, r);
            }
        }
        r
    }

    /// Returns to the last commit: drops the pending documents, the
    /// segments built since, and the queued deletes, and hands out stamps
    /// again from the last commit's stamp. The committed segments are left
    /// exactly as the commit left them.
    pub fn rollback(&mut self)
        requires
            old(self).wf(),
        ensures
            final(self).wf(),
            final(self).committed_opstamp_spec() == old(self).committed_opstamp_spec(),
            final(self).next_opstamp_spec() == old(self).committed_opstamp_spec(),
            final(self).pending_docs_spec().len() == 0,
            final(self).deletes_spec().len() == 0,
            final(self).num_committed_spec() == old(self).num_committed_spec(),
            final(self).segments_spec().len() == old(self).num_committed_spec(),
            final(self).committed_spec() == old(self).committed_spec(),
            final(self).segments_spec().map_values(|e: SegmentEntry| segment_state(e)) == old(self).committed_spec(),
    {
        let n = self.num_committed;
        self.segments.truncate(n);
        let delete_queue = DeleteQueue::new();
        let ghost segs = self.segments@;
        assert(segs =~= old(self).segments@.subrange(0, n as int));
        let mut kept: Vec<SegmentEntry> = Vec::new();
        let mut i: usize = 0;
        while i < n
            invariant
                n == segs.len(),
                0 <= i <= n,
                self.segments@ == segs.subrange(i as int, n as int),
                kept@.len() == i,
                delete_queue.wf(),
                forall|j: int| 0 <= j < i ==> segment_state(#[trigger] kept@[j]) == segment_state(segs[j]),
                forall|j: int| 0 <= j < i ==> (#[trigger] kept@[j]).cursor().valid_for(&delete_queue),
                forall|j: int| 0 <= j < i ==> (#[trigger] kept@[j]).docs().len() < u32::MAX,
                forall|j: int| 0 <= j < segs.len() ==> (#[trigger] segs[j]).docs().len() < u32::MAX,
                self.committed == old(self).committed,
                self.num_committed == n,
                self.committed_opstamp == old(self).committed_opstamp,
                self.heap_size_in_bytes_per_thread == old(self).heap_size_in_bytes_per_thread,
            decreases n - i,
        {
            let mut entry = self.segments.remove(0);
            proof {
                assert(entry == segs[i as int]);
            }
            entry.delete_cursor = delete_queue.cursor();
            kept.push(entry);
            i = i + 1;
        }
        self.segments = kept;
        self.worker_cursor = delete_queue.cursor();
        self.delete_queue = delete_queue;
        self.pending_docs = Vec::new();
        self.pending_opstamps = Vec::new();
        self.pending_mem = 0;
        self.stamper = Stamper::new(self.committed_opstamp);
        proof {
            assert(self.pending_docs_spec() =~= Seq::<Seq<Seq<u8>>>::empty());
            assert(self.deletes_spec() =~= Seq::<(u64, Seq<u8>)>::empty());
            assert(self.segments@.map_values(|e: SegmentEntry| segment_state(e)) =~= old(self).committed@) by {
                assert forall|j: int| 0 <= j < n implies segment_state(#[trigger] self.segments@[j]) == old(self).committed@[j] by {
                    assert(segs[j] == old(self).segments@[j]);
                    assert(segment_state(old(self).segments@[j]) == old(self).committed@[j]);
                }
            }
            assert(self.committed@ == old(self).committed@);
            assert(self.committed@.len() == n);
            assert forall|j: int| 0 <= j < n implies segment_state(#[trigger] self.segments@[j]) == self.committed@[j] by {
                assert(segs[j] == old(self).segments@[j]);
                assert(segment_state(old(self).segments@[j]) == old(self).committed@[j]);
            }
        }
    }

    /// Merges the committed segments at positions `segment_positions` into
    /// one committed segment that holds their documents that are not
    /// deleted, in the order of the segments. The other committed segments
    /// keep their order and come first; the segments built since the last
    /// commit stay after the merged one. Fails with `InvalidArgument`, and
    /// changes nothing, when the positions are empty, repeat one, name a
    /// segment that is not committed, or when the merged segment would
    /// hold `u32::MAX` documents or more.
    pub fn merge(&mut self, segment_positions: &Vec<usize>) -> (r: Result<(), TantivyError>)
        requires
            old(self).wf(),
        ensures
            final(self).wf(),
            ({
                let n = old(self).num_committed_spec();
                let committed = old(self).segments_spec().take(n as int);
                let mask = selection_mask(segment_positions@, n);
                let kept = unselected(committed, mask);
                &&& r is Ok <==> valid_selection(segment_positions@, n) && selected_len(committed, mask) < u32::MAX
                &&& r matches Err(e) ==> e is InvalidArgument && *final(self) == *old(self)
                &&& r is Ok ==> {
                    &&& final(self).num_committed_spec() == kept.len() + 1
                    &&& final(self).segments_spec().take(kept.len() as int) == kept
                    &&& final(self).segments_spec()[kept.len() as int].docs() == merged_docs(committed, mask)
                    &&& final(self).segments_spec()[kept.len() as int].deleted() == Set::<nat>::empty()
                    &&& final(self).segments_spec()[kept.len() as int].meta() is None
                    &&& final(self).segments_spec().skip(kept.len() + 1int) == old(self).segments_spec().skip(n as int)
                    &&& final(self).committed_spec() == final(self).segments_spec().take(kept.len() + 1int).map_values(
                        |e: SegmentEntry| segment_state(e),
                    )
                    &&& final(self).pending_docs_spec() == old(self).pending_docs_spec()
                    &&& final(self).pending_opstamps_spec() == old(self).pending_opstamps_spec()
                    &&& final(self).queue_spec() == old(self).queue_spec()
                    &&& final(self).next_opstamp_spec() == old(self).next_opstamp_spec()
                    &&& final(self).committed_opstamp_spec() == old(self).committed_opstamp_spec()
                }
            }),
    {
        let ghost o = *self;
        let n = self.num_committed;
        let ghost committed = self.segments@.take(n as int);
        let mask = match selection(segment_positions, n) {
            Some(m) => m,
            None => {
                return Err(TantivyError::InvalidArgument("invalid selection of segments to merge".to_owned()));
            },
        };
        let mut total: u64 = 0;
        let mut i: usize = 0;
        while i < n
            invariant
                *self == o,
                n == o.num_committed,
                n <= self.segments@.len(),
                committed == self.segments@.take(n as int),
                mask@.len() == n,
                0 <= i <= n,
                total == selected_len(committed.take(i as int), mask@.take(i as int)),
                total < u32::MAX,
                o.wf(),
                mask@ == selection_mask(segment_positions@, n as nat),
                valid_selection(segment_positions@, n as nat),
            decreases n - i,
        {
            proof {
                assert(committed.take(i + 1).drop_last() =~= committed.take(i as int));
                assert(mask@.take(i + 1).drop_last() =~= mask@.take(i as int));
            }
            if mask[i] {
                proof {
                    assert(self.segments@[i as int] == committed[i as int]);
                }
                let m = self.segments[i].max_doc() as u64;
                if total + m >= 0xffff_ffffu64 {
                    proof {
                        assert(committed.take(i + 1).last() == committed[i as int]);
                        assert(mask@.take(i + 1).last() == mask@[i as int]);
                        assert(selected_len(committed.take(i + 1), mask@.take(i + 1)) == total + m);
                        lemma_selected_len_prefix(committed, mask@, i + 1);
                    }
                    return Err(TantivyError::InvalidArgument("the merged segment would hold too many documents".to_owned()));
                }
                total = total + m;
            }
            i = i + 1;
        }
        proof {
            assert(committed.take(n as int) =~= committed);
            assert(mask@.take(n as int) =~= mask@);
        }
        let ghost segs = self.segments@;
        let ghost l = segs.len();
        let mut kept: Vec<SegmentEntry> = Vec::new();
        let mut merged: Vec<Document> = Vec::new();
        let mut cursor: Option<DeleteCursor> = None;
        let mut j: usize = 0;
        proof {
            assert(committed.take(0) =~= Seq::<SegmentEntry>::empty());
            assert(mask@.take(0) =~= Seq::<bool>::empty());
            assert(doc_views(merged@) =~= Seq::<Seq<Seq<u8>>>::empty());
        }
        while j < n
            invariant
                n == o.num_committed,
                segs == o.segments@,
                l == segs.len(),
                n <= l,
                committed == segs.take(n as int),
                mask@.len() == n,
                0 <= j <= n,
                self.segments@ == segs.subrange(j as int, l as int),
                kept@ == unselected(committed.take(j as int), mask@.take(j as int)),
                doc_views(merged@) == merged_docs(committed.take(j as int), mask@.take(j as int)),
                cursor matches Some(c) ==> c.valid_for(&o.delete_queue),
                cursor is None ==> forall|a: int| 0 <= a < j ==> !mask@[a],
                self.delete_queue == o.delete_queue,
                self.stamper == o.stamper,
                self.worker_cursor == o.worker_cursor,
                self.committed_opstamp == o.committed_opstamp,
                self.generation == o.generation,
                self.pending_docs == o.pending_docs,
                self.pending_opstamps == o.pending_opstamps,
                self.pending_mem == o.pending_mem,
                self.heap_size_in_bytes_per_thread == o.heap_size_in_bytes_per_thread,
                self.num_threads == o.num_threads,
                self.payload == o.payload,
                self.num_committed == o.num_committed,
                self.committed == o.committed,
                o.wf(),
            decreases n - j,
        {
            let ghost before = self.segments@;
            let entry = self.segments.remove(0);
            proof {
                assert(entry == before[0]);
                assert(entry == segs[j as int]);
                assert(entry == committed[j as int]);
                assert(self.segments@ =~= segs.subrange(j + 1, l as int));
                assert(committed.take(j + 1).drop_last() =~= committed.take(j as int));
                assert(mask@.take(j + 1).drop_last() =~= mask@.take(j as int));
                assert(committed.take(j + 1).last() == entry);
                assert(mask@.take(j + 1).last() == mask@[j as int]);
            }
            if mask[j] {
                if cursor.is_none() {
                    cursor = Some(entry.delete_cursor);
                }
                push_live_documents(entry, &mut merged);
            } else {
                kept.push(entry);
            }
            j = j + 1;
        }
        proof {
            assert(committed.take(n as int) =~= committed);
            assert(mask@.take(n as int) =~= mask@);
            lemma_merged_len(committed, mask@);
            assert forall|a: int| 0 <= a < committed.len() implies {
                &&& (#[trigger] committed[a]).cursor().valid_for(&o.delete_queue)
                &&& committed[a].docs().len() < u32::MAX
            } by {
                assert(committed[a] == segs[a]);
            }
            lemma_unselected_valid(committed, mask@, o.delete_queue);
        }
        let delete_cursor = match cursor {
            Some(c) => c,
            None => {
                proof {
                    let p = segment_positions@[0];
                    assert(mask@[p as int]) by {
                        assert(segment_positions@.contains(p));
                    }
                }
                return Err(TantivyError::InvalidArgument("invalid selection of segments to merge".to_owned()));
            },
        };
        let content = SegmentContent::from_documents(merged);
        let delete_bitset = bitset_with_capacity(content.max_doc());
        let merged_entry = SegmentEntry { content, delete_bitset, delete_cursor, delete_meta: None };
        kept.push(merged_entry);
        let k = kept.len();
        let ghost head = kept@;
        while self.segments.len() > 0
            invariant
                k == head.len(),
                kept@.len() >= k,
                kept@.take(k as int) == head,
                segs == o.segments@,
                l == segs.len(),
                n <= l,
                n == o.num_committed,
                self.delete_queue == o.delete_queue,
                self.stamper == o.stamper,
                self.worker_cursor == o.worker_cursor,
                self.committed_opstamp == o.committed_opstamp,
                self.generation == o.generation,
                self.pending_docs == o.pending_docs,
                self.pending_opstamps == o.pending_opstamps,
                self.pending_mem == o.pending_mem,
                self.heap_size_in_bytes_per_thread == o.heap_size_in_bytes_per_thread,
                self.num_threads == o.num_threads,
                self.payload == o.payload,
                self.num_committed == o.num_committed,
                self.committed == o.committed,
                o.wf(),

                kept@.len() + self.segments@.len() == k + (l - n),
                kept@.skip(k as int) + self.segments@ == segs.skip(n as int),
            decreases self.segments@.len(),
        {
            let ghost before = self.segments@;
            let ghost kb = kept@;
            let entry = self.segments.remove(0);
            kept.push(entry);
            proof {
                assert(kept@.take(k as int) =~= kb.take(k as int));
                assert(kept@.skip(k as int) =~= kb.skip(k as int).push(entry));
                assert(before =~= seq![entry] + self.segments@);
                assert(kept@.skip(k as int) + self.segments@ =~= kb.skip(k as int) + before);
            }
        }
        self.segments = kept;
        self.num_committed = k;
        self.committed = Ghost(self.segments@.take(k as int).map_values(|e: SegmentEntry| segment_state(e)));
        proof {
            assert(self.segments@.skip(k as int) =~= segs.skip(n as int));
            assert(self.segments@.take(k as int) =~= head);
            assert forall|a: int| 0 <= a < self.segments@.len() implies {
                &&& (#[trigger] self.segments@[a]).cursor().valid_for(&self.delete_queue)
                &&& self.segments@[a].docs().len() < u32::MAX
            } by {
                if a < k - 1 {
                    assert(self.segments@[a] == head[a]);
                } else if a == k - 1 {
                    assert(self.segments@[a] == head[a]);
                } else {
                    assert(self.segments@[a] == self.segments@.skip(k as int)[a - k]);
                    assert(segs.skip(n as int)[a - k] == segs[n + (a - k)]);
                }
            }
            assert forall|a: int| 0 <= a < self.num_committed implies
                segment_state(#[trigger] self.segments@[a]) == self.committed@[a] by {
            }
        }
        Ok(())
    }

    /// Draws `count + 1` contiguous stamps: the first `count` are returned as
    /// a range for the operations of a batch, the last one for the batch.
    fn get_batch_opstamps(&mut self, count: u64) -> (r: (u64, std::ops::Range<u64>))
        requires
            old(self).next_opstamp_spec() + count < u64::MAX,
        ensures
            r.1.start == old(self).next_opstamp_spec(),
            r.1.end == r.0,
            r.0 == old(self).next_opstamp_spec() + count,
            final(self).next_opstamp_spec() == r.0 + 1,
            final(self).stamper.next_spec() == r.0 + 1,
            final(self).delete_queue == old(self).delete_queue,
            final(self).worker_cursor == old(self).worker_cursor,
            final(self).pending_docs == old(self).pending_docs,
            final(self).pending_opstamps == old(self).pending_opstamps,
            final(self).segments == old(self).segments,
            final(self).num_committed == old(self).num_committed,
            final(self).committed == old(self).committed,
            final(self).committed_opstamp == old(self).committed_opstamp,
            final(self).heap_size_in_bytes_per_thread == old(self).heap_size_in_bytes_per_thread,
            final(self).pending_mem == old(self).pending_mem,
            final(self).generation == old(self).generation,
            final(self).num_threads == old(self).num_threads,
    {
        let range = self.stamper.stamps(count + 1);
        let last_opstamp = range.end - 1;
        (last_opstamp, range.start..last_opstamp)
    }

    /// The segment at position `i` of the live segments.
    pub fn segment(&self, i: usize) -> (r: &SegmentEntry)
        requires
            i < self.segments_spec().len(),
        ensures
            *r == self.segments_spec()[i as int],
    {
        &self.segments[i]
    }
}

/// Opens a writer on an index whose last commit carries `index_opstamp`,
/// with `num_threads` indexing threads of `heap_size_in_bytes_per_thread`
/// bytes each. Fails with `InvalidArgument` when the budget is below
/// `HEAP_SIZE_MIN` or above `HEAP_SIZE_MAX`.
pub fn open_index_writer(index_opstamp: u64, num_threads: usize, heap_size_in_bytes_per_thread: usize) -> (r: Result<IndexWriter, TantivyError>)
    ensures
        r is Ok <==> HEAP_SIZE_MIN <= heap_size_in_bytes_per_thread <= HEAP_SIZE_MAX,
        r matches Err(e) ==> e is InvalidArgument,
        r matches Ok(w) ==> {
            &&& w.wf()
            &&& w.next_opstamp_spec() == index_opstamp
            &&& w.committed_opstamp_spec() == index_opstamp
            &&& w.pending_docs_spec().len() == 0
            &&& w.deletes_spec().len() == 0
            &&& w.segments_spec().len() == 0
            &&& w.num_committed_spec() == 0
            &&& w.num_threads_spec() == num_threads
            &&& w.generation_spec() == 0
        },
{
    check_heap_size(heap_size_in_bytes_per_thread)?;
    let delete_queue = DeleteQueue::new();
    let worker_cursor = delete_queue.cursor();
    let w = IndexWriter {
        heap_size_in_bytes_per_thread,
        num_threads,
        stamper: Stamper::new(index_opstamp),
        delete_queue,
        worker_cursor,
        committed_opstamp: index_opstamp,
        generation: 0,
        pending_docs: Vec::new(),
        pending_opstamps: Vec::new(),
        pending_mem: 0,
        segments: Vec::new(),
        num_committed: 0,
        committed: Ghost(Seq::empty()),
        payload: None,
    };
    assert(w.deletes_spec() =~= Seq::<(u64, Seq<u8>)>::empty());
    Ok(w)
}

/// Deletes reach a segment in two steps: when it is built, those up to its
/// last document, judged against the stamps of its documents; when it is
/// committed, the later ones, which are all later than every document.
/// Together they remove exactly what the same deletes remove when each is
/// judged against the documents' stamps: a delete stamped `d` removes the
/// documents that hold its term and were added before `d`, whichever step
/// applies it.
pub proof fn lemma_deletes_in_two_steps(
    docs: Seq<Seq<Seq<u8>>>,
    stamps: Seq<u64>,
    log: Seq<DeleteOperation>,
    from: int,
    target: u64,
)
    requires
        docs.len() == stamps.len(),
        stamps.len() > 0,
        forall|i: int, j: int| 0 <= i <= j < stamps.len() ==> stamps[i] <= stamps[j],
        stamps.last() <= target,
        0 <= from <= log.len(),
        forall|i: int, j: int| from <= i < j < log.len() ==> log[i].opstamp < log[j].opstamp,
    ensures
        ({
            let mid = first_after(log, from, stamps.last());
            let end = first_after(log, mid, target);
            &&& first_after(log, from, target) == end
            &&& deleted_docs(docs, Some(stamps), log.subrange(from, mid)).union(
                deleted_docs(docs, None, log.subrange(mid, end)),
            ) == deleted_docs(docs, Some(stamps), log.subrange(from, end))
        }),
{
    let last = stamps.last();
    let mid = first_after(log, from, last);
    lemma_first_after_bounds(log, from, last);
    lemma_first_after_bounds(log, mid, target);
    let end = first_after(log, mid, target);
    lemma_first_after_below(log, from, last);
    assert forall|i: int| from <= i < mid implies #[trigger] log[i].opstamp <= target by {
        assert(log[i].opstamp <= last);
    }
    lemma_first_after_skip(log, from, mid, target);
    let late = log.subrange(mid, end);
    assert(deleted_docs(docs, None, late) =~= deleted_docs(docs, Some(stamps), late)) by {
        assert forall|d: nat| deleted_docs(docs, None, late).contains(d)
            implies deleted_docs(docs, Some(stamps), late).contains(d) by {
            let i = choose|i: int| 0 <= i < late.len() && crate::segment::deletes_doc(docs, None, #[trigger] late[i], d as int);
            assert(late[i] == log[mid + i]);
            assert(log[mid].opstamp > last);
            if i > 0 {
                assert(log[mid].opstamp < log[mid + i].opstamp);
            }
            assert(stamps[d as int] <= last);
            assert(crate::segment::deletes_doc(docs, Some(stamps), late[i], d as int));
        }
    }
    crate::segment::lemma_deletes_split(docs, Some(stamps), log.subrange(from, mid), late);
    assert(log.subrange(from, mid) + late =~= log.subrange(from, end));
}

proof fn lemma_first_after_below(log: Seq<DeleteOperation>, a: int, target: u64)
    requires
        0 <= a <= log.len(),
    ensures
        forall|i: int| a <= i < first_after(log, a, target) ==> #[trigger] log[i].opstamp <= target,
        first_after(log, a, target) < log.len() ==> log[first_after(log, a, target)].opstamp > target,
    decreases log.len() - a,
{
    if a < log.len() {
        lemma_first_after_below(log, a + 1, target);
    }
}

} // verus!
