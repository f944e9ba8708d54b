//! The queue of delete operations: a broadcast log in which every consumer
//! reads every operation, each through a cursor of its own.
//!
//! The log is a list of immutable blocks followed by a writer tail. Pushing
//! appends to the tail; the tail becomes a new block only when a cursor
//! that has read everything asks for more. A new cursor starts past every
//! flushed operation, so it reads the operations still in the tail and all
//! later ones. A cloned cursor starts where its original stands and
//! advances on its own.
use crate::operation::DeleteOperation;
use vstd::prelude::*;

verus! {

/// The concatenation of the blocks, in order.
pub open spec fn flatten(blocks: Seq<Seq<DeleteOperation>>) -> Seq<DeleteOperation>
    decreases blocks.len(),
{
    if blocks.len() == 0 {
        Seq::empty()
    } else {
        flatten(blocks.drop_last()) + blocks.last()
    }
}

proof fn lemma_flatten_take_succ(bs: Seq<Seq<DeleteOperation>>, b: int)
    requires
        0 <= b < bs.len(),
    ensures
        flatten(bs.take(b + 1)) == flatten(bs.take(b)) + bs[b],
{
    assert(bs.take(b + 1).drop_last() =~= bs.take(b));
}

proof fn lemma_flatten_take_all(bs: Seq<Seq<DeleteOperation>>)
    ensures
        flatten(bs.take(bs.len() as int)) == flatten(bs),
{
    assert(bs.take(bs.len() as int) =~= bs);
}

proof fn lemma_flatten_push(bs: Seq<Seq<DeleteOperation>>, b: Seq<DeleteOperation>, k: int)
    requires
        0 <= k <= bs.len(),
    ensures
        flatten(bs.push(b)) == flatten(bs) + b,
        flatten(bs.push(b).take(k)) == flatten(bs.take(k)),
{
    assert(bs.push(b).drop_last() =~= bs);
    assert(bs.push(b).take(k) =~= bs.take(k));
}

proof fn lemma_flatten_index(bs: Seq<Seq<DeleteOperation>>, b: int, i: int)
    requires
        0 <= b < bs.len(),
        0 <= i < bs[b].len(),
    ensures
        flatten(bs.take(b)).len() + i < flatten(bs).len(),
        flatten(bs)[flatten(bs.take(b)).len() + i] == bs[b][i],
    decreases bs.len(),
{
    if b == bs.len() - 1 {
        assert(bs.take(b) =~= bs.drop_last());
    } else {
        let dl = bs.drop_last();
        assert(dl.take(b) =~= bs.take(b));
        lemma_flatten_index(dl, b, i);
    }
}

proof fn lemma_flatten_take_le(bs: Seq<Seq<DeleteOperation>>, k: int)
    requires
        0 <= k <= bs.len(),
    ensures
        flatten(bs.take(k)).len() <= flatten(bs).len(),
    decreases bs.len() - k,
{
    if k < bs.len() {
        lemma_flatten_take_succ(bs, k);
        lemma_flatten_take_le(bs, k + 1);
    } else {
        lemma_flatten_take_all(bs);
    }
}

/// A queue of delete operations, read by any number of cursors.
#[derive(Debug)]
pub struct DeleteQueue {
    blocks: Vec<Vec<DeleteOperation>>,
    writer: Vec<DeleteOperation>,
}

impl DeleteQueue {
    /// The blocks, as sequences.
    pub closed spec fn block_seqs(&self) -> Seq<Seq<DeleteOperation>> {
        self.blocks@.map_values(|b: Vec<DeleteOperation>| b@)
    }

    /// The operations that have been moved into blocks.
    pub closed spec fn flushed(&self) -> Seq<DeleteOperation> {
        flatten(self.block_seqs())
    }

    /// The operations pushed since the last flush, in order.
    pub closed spec fn pending(&self) -> Seq<DeleteOperation> {
        self.writer@
    }

    /// Every operation pushed so far, in the order of the pushes.
    pub closed spec fn log(&self) -> Seq<DeleteOperation> {
        self.flushed() + self.writer@
    }

    /// There is always a block, and every block but the first holds at
    /// least one operation.
    pub closed spec fn wf(&self) -> bool {
        &&& self.blocks@.len() >= 1
        &&& forall|i: int| 1 <= i < self.blocks@.len() ==> #[trigger] self.blocks@[i]@.len() > 0
    }

    /// The log grew from `old` by appending alone, and every block of `old`
    /// is still there, unchanged.
    pub closed spec fn extends(&self, old: &DeleteQueue) -> bool {
        &&& old.blocks@.len() <= self.blocks@.len()
        &&& forall|i: int| 0 <= i < old.blocks@.len() ==> #[trigger] self.blocks@[i]@ == old.blocks@[i]@
        &&& old.log().is_prefix_of(self.log())
    }

    /// Creates an empty queue.
    pub fn new() -> (r: DeleteQueue)
        ensures
            r.wf(),
            r.log() == Seq::<DeleteOperation>::empty(),
    {
        let mut blocks: Vec<Vec<DeleteOperation>> = Vec::new();
        blocks.push(Vec::new());
        let r = DeleteQueue { blocks, writer: Vec::new() };
        assert(r.block_seqs() =~= seq![Seq::<DeleteOperation>::empty()]);
        assert(r.block_seqs().drop_last() =~= Seq::<Seq<DeleteOperation>>::empty());
        assert(flatten(Seq::<Seq<DeleteOperation>>::empty()) == Seq::<DeleteOperation>::empty());
        assert(r.log() =~= Seq::<DeleteOperation>::empty());
        r
    }

    /// Creates a cursor placed past every flushed operation: it reads the
    /// operations still waiting in the writer tail and every later one.
    pub fn cursor(&self) -> (r: DeleteCursor)
        requires
            self.wf(),
        ensures
            r.valid_for(self),
            r.index(self) == self.flushed().len(),
    {
        let last = self.blocks.len() - 1;
        let r = DeleteCursor { block: last, pos: self.blocks[last].len() };
        proof {
            let bs = self.block_seqs();
            lemma_flatten_take_succ(bs, last as int);
            lemma_flatten_take_all(bs);
        }
        r
    }

    /// Appends a delete operation.
    pub fn push(&mut self, delete_operation: DeleteOperation)
        requires
            old(self).wf(),
        ensures
            final(self).wf(),
            final(self).log() == old(self).log().push(delete_operation),
            final(self).flushed() == old(self).flushed(),
            final(self).extends(old(self)),
    {
        self.writer.push(delete_operation);
        assert(self.block_seqs() =~= old(self).block_seqs());
        assert(self.log() =~= old(self).log().push(delete_operation));
    }

    /// Moves the writer tail into a new block, if it holds anything, and
    /// returns the index of that block.
    fn flush(&mut self) -> (r: Option<usize>)
        requires
            old(self).wf(),
        ensures
            final(self).wf(),
            final(self).log() == old(self).log(),
            final(self).extends(old(self)),
            old(self).writer@.len() == 0 ==> r is None && *final(self) == *old(self),
            old(self).writer@.len() > 0 ==> {
                &&& r == Some(old(self).blocks@.len() as usize)
                &&& final(self).blocks@.len() == old(self).blocks@.len() + 1
                &&& final(self).block_seqs() == old(self).block_seqs().push(old(self).pending())
                &&& final(self).pending().len() == 0
                &&& final(self).flushed() == old(self).log()
            },
    {
        if self.writer.len() == 0 {
            return None;
        }
        let mut operations: Vec<DeleteOperation> = Vec::new();
        std::mem::swap(&mut operations, &mut self.writer);
        self.blocks.push(operations);
        proof {
            let bs = old(self).block_seqs();
            assert(self.block_seqs() =~= bs.push(operations@));
            lemma_flatten_push(bs, operations@, 0);
            assert(self.log() =~= old(self).log());
            assert forall|i: int| 1 <= i < self.blocks@.len() implies #[trigger] self.blocks@[i]@.len() > 0 by {
                if i < old(self).blocks@.len() {
                    assert(self.blocks@[i] == old(self).blocks@[i]);
                }
            }
            assert(old(self).log().is_prefix_of(self.log()));
        }
        Some(self.blocks.len() - 1)
    }

    /// The block that follows block `block`: the next one if it is already
    /// there, else the writer tail, flushed into a new block, if it holds
    /// anything.
    fn next_block(&mut self, block: usize) -> (r: Option<usize>)
        requires
            old(self).wf(),
            block < old(self).blocks@.len(),
        ensures
            final(self).wf(),
            final(self).log() == old(self).log(),
            final(self).extends(old(self)),
            r is Some ==> r->0 == block + 1 && block + 1 < final(self).blocks@.len(),
            block + 1 < old(self).blocks@.len() ==> *final(self) == *old(self),
            block + 1 == old(self).blocks@.len() && old(self).pending().len() > 0 ==> {
                &&& r is Some
                &&& final(self).blocks@.len() == old(self).blocks@.len() + 1
                &&& final(self).block_seqs() == old(self).block_seqs().push(old(self).pending())
                &&& final(self).pending().len() == 0
                &&& final(self).flushed() == old(self).log()
            },
            r is None ==> {
                &&& block + 1 == old(self).blocks@.len()
                &&& old(self).writer@.len() == 0
                &&& *final(self) == *old(self)
            },
    {
        if block < self.blocks.len() - 1 {
            Some(block + 1)
        } else {
            self.flush()
        }
    }
}

/// A reading position in a delete queue.
#[derive(Clone, Copy, Debug)]
pub struct DeleteCursor {
    block: usize,
    pos: usize,
}

impl DeleteCursor {
    /// The cursor points into `q`.
    pub closed spec fn valid_for(&self, q: &DeleteQueue) -> bool {
        &&& self.block < q.blocks@.len()
        &&& self.pos <= q.blocks@[self.block as int]@.len()
    }

    /// The position in `q.log()` of the operation that the cursor reads next.
    pub closed spec fn index(&self, q: &DeleteQueue) -> int {
        flatten(q.block_seqs().take(self.block as int)).len() + self.pos
    }

    /// The operations that the cursor has yet to read in `q`.
    pub open spec fn unread(&self, q: &DeleteQueue) -> Seq<DeleteOperation> {
        q.log().subrange(self.index(q), q.log().len() as int)
    }

    /// A valid cursor points into the flushed part of the log.
    pub proof fn lemma_index_bounded(&self, q: &DeleteQueue)
        requires
            self.valid_for(q),
        ensures
            0 <= self.index(q) <= q.flushed().len(),
            q.flushed().len() <= q.log().len(),
    {
        let bs = q.block_seqs();
        lemma_flatten_take_succ(bs, self.block as int);
        lemma_flatten_take_le(bs, self.block + 1);
    }

    /// A valid cursor standing past every flushed operation stands at the
    /// end of the last block.
    proof fn lemma_at_end(&self, q: &DeleteQueue)
        requires
            q.wf(),
            self.valid_for(q),
        ensures
            self.index(q) == q.flushed().len() <==> {
                &&& self.block == q.blocks@.len() - 1
                &&& self.pos == q.blocks@[self.block as int]@.len()
            },
    {
        let bs = q.block_seqs();
        let b = self.block as int;
        lemma_flatten_take_succ(bs, b);
        assert(bs[b] == q.blocks@[b]@);
        if b + 1 < bs.len() {
            lemma_flatten_take_succ(bs, b + 1);
            lemma_flatten_take_le(bs, b + 2);
            assert(bs[b + 1] == q.blocks@[b + 1]@);
            assert(q.blocks@[b + 1]@.len() > 0);
        } else {
            lemma_flatten_take_all(bs);
        }
        lemma_flatten_take_le(bs, b + 1);
    }

    pub proof fn lemma_extends(&self, q: &DeleteQueue, q2: &DeleteQueue)
        requires
            self.valid_for(q),
            q2.extends(q),
        ensures
            self.valid_for(q2),
            self.index(q2) == self.index(q),
    {
        assert(q2.block_seqs().take(self.block as int) =~= q.block_seqs().take(self.block as int));
    }

    /// If the current block has been read entirely, tries to move to the
    /// next one. Returns whether the cursor then stands before an operation.
    fn load_block_if_required(&mut self, queue: &mut DeleteQueue) -> (r: bool)
        requires
            old(queue).wf(),
            old(self).valid_for(old(queue)),
        ensures
            old(self).index(old(queue)) == old(queue).flushed().len() ==> final(queue).flushed() == old(queue).log(),
            old(self).index(old(queue)) < old(queue).flushed().len() ==> *final(queue) == *old(queue),
            final(queue).wf(),
            final(queue).log() == old(queue).log(),
            final(queue).extends(old(queue)),
            final(self).valid_for(final(queue)),
            final(self).index(final(queue)) == old(self).index(old(queue)),
            r == (old(self).index(old(queue)) < old(queue).log().len()),
            r ==> final(self).pos < final(queue).blocks@[final(self).block as int]@.len(),
    {
        proof {
            self.lemma_index_bounded(queue);
            self.lemma_at_end(queue);
            if old(queue).pending().len() == 0 {
                assert(old(queue).log() =~= old(queue).flushed());
            }
        }
        if self.pos >= self.blocks_len(queue) {
            let ghost q0 = *queue;
            let ghost old_block = self.block as int;
            let next = queue.next_block(self.block);
            match next {
                Some(block) => {
                    proof {
                        let bs = queue.block_seqs();
                        self.lemma_extends(&q0, queue);
                        lemma_flatten_take_succ(bs, old_block);
                        assert(bs[old_block] == queue.blocks@[old_block]@);
                        assert(queue.blocks@[old_block]@ == q0.blocks@[old_block]@);
                        assert(block == old_block + 1);
                        assert(1 <= block < queue.blocks@.len());
                        assert(queue.blocks@[block as int]@.len() > 0);
                        assert(bs[block as int] == queue.blocks@[block as int]@);
                        lemma_flatten_index(bs, block as int, 0);
                    }
                    self.block = block;
                    self.pos = 0;
                    true
                },
                None => {
                    proof {
                        let bs = q0.block_seqs();
                        lemma_flatten_take_succ(bs, self.block as int);
                        lemma_flatten_take_all(bs);
                        assert(self.block + 1 == bs.len());
                    }
                    false
                },
            }
        } else {
            proof {
                lemma_flatten_index(queue.block_seqs(), self.block as int, self.pos as int);
            }
            true
        }
    }

    fn blocks_len(&self, queue: &DeleteQueue) -> (r: usize)
        requires
            self.valid_for(queue),
        ensures
            r == queue.blocks@[self.block as int]@.len(),
    {
        queue.blocks[self.block].len()
    }

    /// Moves one operation forward. Returns whether there was an operation
    /// to move past.
    pub fn advance(&mut self, queue: &mut DeleteQueue) -> (r: bool)
        requires
            old(queue).wf(),
            old(self).valid_for(old(queue)),
        ensures
            old(self).index(old(queue)) == old(queue).flushed().len() ==> final(queue).flushed() == old(queue).log(),
            old(self).index(old(queue)) < old(queue).flushed().len() ==> *final(queue) == *old(queue),
            final(queue).wf(),
            final(queue).log() == old(queue).log(),
            final(queue).extends(old(queue)),
            final(self).valid_for(final(queue)),
            r == (old(self).index(old(queue)) < old(queue).log().len()),
            final(self).index(final(queue)) == old(self).index(old(queue)) + if r { 1int } else { 0int },
    {
        if self.load_block_if_required(queue) {
            let n = self.blocks_len(queue);
            assert(self.pos < n);
            self.pos = self.pos + 1;
            true
        } else {
            false
        }
    }

    /// The operation at the cursor, if there is one. The cursor does not move.
    pub fn get(&mut self, queue: &mut DeleteQueue) -> (r: Option<DeleteOperation>)
        requires
            old(queue).wf(),
            old(self).valid_for(old(queue)),
        ensures
            old(self).index(old(queue)) == old(queue).flushed().len() ==> final(queue).flushed() == old(queue).log(),
            old(self).index(old(queue)) < old(queue).flushed().len() ==> *final(queue) == *old(queue),
            final(queue).wf(),
            final(queue).log() == old(queue).log(),
            final(queue).extends(old(queue)),
            final(self).valid_for(final(queue)),
            final(self).index(final(queue)) == old(self).index(old(queue)),
            r is None <==> old(self).index(old(queue)) >= old(queue).log().len(),
            r matches Some(op) ==> {
                &&& op.opstamp == old(queue).log()[old(self).index(old(queue))].opstamp
                &&& op.term@ == old(queue).log()[old(self).index(old(queue))].term@
            },
    {
        if self.load_block_if_required(queue) {
            proof {
                lemma_flatten_index(queue.block_seqs(), self.block as int, self.pos as int);
            }
            Some(queue.blocks[self.block][self.pos].copy())
        } else {
            None
        }
    }

    /// Moves forward past every operation whose stamp is below
    /// `target_opstamp`: afterwards the cursor stands on the first operation
    /// with a stamp of at least `target_opstamp`, or at the end of the queue.
    pub fn skip_to(&mut self, queue: &mut DeleteQueue, target_opstamp: u64)
        requires
            old(queue).wf(),
            old(self).valid_for(old(queue)),
        ensures
            final(queue).wf(),
            final(queue).log() == old(queue).log(),
            final(queue).extends(old(queue)),
            final(self).valid_for(final(queue)),
            old(self).index(old(queue)) <= final(self).index(final(queue)) <= old(queue).log().len(),
            forall|i: int|
                old(self).index(old(queue)) <= i < final(self).index(final(queue))
                    ==> #[trigger] old(queue).log()[i].opstamp < target_opstamp,
            final(self).index(final(queue)) < old(queue).log().len() ==>
                old(queue).log()[final(self).index(final(queue))].opstamp >= target_opstamp,
    {
        proof {
            self.lemma_index_bounded(queue);
        }
        loop
            invariant_except_break
                queue.wf(),
                queue.log() == old(queue).log(),
                queue.extends(old(queue)),
                self.valid_for(queue),
                old(self).index(old(queue)) <= self.index(queue) <= old(queue).log().len(),
                forall|i: int|
                    old(self).index(old(queue)) <= i < self.index(queue)
                        ==> #[trigger] old(queue).log()[i].opstamp < target_opstamp,
            ensures
                queue.wf(),
                queue.log() == old(queue).log(),
                queue.extends(old(queue)),
                self.valid_for(queue),
                old(self).index(old(queue)) <= self.index(queue) <= old(queue).log().len(),
                forall|i: int|
                    old(self).index(old(queue)) <= i < self.index(queue)
                        ==> #[trigger] old(queue).log()[i].opstamp < target_opstamp,
                self.index(queue) < old(queue).log().len() ==>
                    old(queue).log()[self.index(queue)].opstamp >= target_opstamp,
            decreases old(queue).log().len() - self.index(queue),
        {
            let ghost q0 = *queue;
            match self.get(queue) {
                Some(operation) => {
                    if operation.opstamp >= target_opstamp {
                        break;
                    }
                },
                None => {
                    break;
                },
            }
            self.advance(queue);
            proof {
                assert(queue.extends(&q0));
            }
        }
    }
}

/// Cursors taken at the same point of a queue read the same operations, and
/// keep doing so however the queue grows: each stays at its place in the log
/// while operations are pushed and flushed, whatever the other cursors do.
/// A clone of a cursor is such a cursor too, as it holds the same position.
pub proof fn lemma_cursors_read_alike(
    q: DeleteQueue,
    later: DeleteQueue,
    c1: DeleteCursor,
    c2: DeleteCursor,
)
    requires
        q.wf(),
        later.extends(&q),
        c1.valid_for(&q),
        c2.valid_for(&q),
        c1.index(&q) == c2.index(&q),
    ensures
        c1.valid_for(&later),
        c2.valid_for(&later),
        c1.index(&later) == c1.index(&q),
        c2.index(&later) == c2.index(&q),
        c1.unread(&later) == c2.unread(&later),
        q.log().is_prefix_of(later.log()),
{
    c1.lemma_extends(&q, &later);
    c2.lemma_extends(&q, &later);
}

/// Every queue extends itself.
pub proof fn lemma_extends_refl(q: DeleteQueue)
    ensures
        q.extends(&q),
{
    assert(q.log().is_prefix_of(q.log()));
}

/// A queue that grew from a grown queue grew from the first one.
pub proof fn lemma_extends_trans(a: DeleteQueue, b: DeleteQueue, c: DeleteQueue)
    requires
        b.extends(&a),
        c.extends(&b),
    ensures
        c.extends(&a),
{
    assert forall|i: int| 0 <= i < a.blocks@.len() implies #[trigger] c.blocks@[i]@ == a.blocks@[i]@ by {
        assert(c.blocks@[i]@ == b.blocks@[i]@);
    }
    assert(a.log().is_prefix_of(c.log())) by {
        assert forall|i: int| 0 <= i < a.log().len() implies #[trigger] a.log()[i] == c.log()[i] by {
            assert(a.log()[i] == b.log()[i]);
        }
    }
}

} // verus!
