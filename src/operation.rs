use vstd::prelude::*;
use vstd::string::StringSliceAdditionalSpecFns;

verus! {

/// Identifies a field of the schema.
#[derive(Clone, Copy, Debug, PartialEq, Eq, Structural)]
pub struct Field(pub u32);

/// The big-endian bytes of a 32-bit value.
pub open spec fn be_u32(v: u32) -> Seq<u8> {
    seq![(v >> 24u32) as u8, (v >> 16u32) as u8, (v >> 8u32) as u8, v as u8]
}

/// The big-endian bytes of a 64-bit value.
pub open spec fn be_u64(v: u64) -> Seq<u8> {
    seq![
        (v >> 56u64) as u8,
        (v >> 48u64) as u8,
        (v >> 40u64) as u8,
        (v >> 32u64) as u8,
        (v >> 24u64) as u8,
        (v >> 16u64) as u8,
        (v >> 8u64) as u8,
        v as u8,
    ]
}

/// A term: the field it belongs to, as four big-endian bytes, followed by
/// the bytes of the value.
#[derive(Debug)]
pub struct Term {
    bytes: Vec<u8>,
}

impl View for Term {
    type V = Seq<u8>;

    closed spec fn view(&self) -> Seq<u8> {
        self.bytes@
    }
}

fn push_be_u32(out: &mut Vec<u8>, v: u32)
    ensures
        final(out)@ == old(out)@ + be_u32(v),
{
    out.push((v >> 24u32) as u8);
    out.push((v >> 16u32) as u8);
    out.push((v >> 8u32) as u8);
    out.push(v as u8);
    assert(final(out)@ =~= old(out)@ + be_u32(v));
}

impl Term {
    /// The term of a `u64` value in `field`.
    pub fn from_field_u64(field: Field, value: u64) -> (r: Term)
        ensures
            r@ == be_u32(field.0) + be_u64(value),
    {
        let mut bytes: Vec<u8> = Vec::new();
        push_be_u32(&mut bytes, field.0);
        push_be_u32(&mut bytes, (value >> 32u64) as u32);
        push_be_u32(&mut bytes, value as u32);
        assert(be_u32((value >> 32u64) as u32) + be_u32(value as u32) =~= be_u64(value)) by {
            assert((((value >> 32u64) as u32) >> 24u32) as u8 == (value >> 56u64) as u8)
                by (bit_vector);
            assert((((value >> 32u64) as u32) >> 16u32) as u8 == (value >> 48u64) as u8)
                by (bit_vector);
            assert((((value >> 32u64) as u32) >> 8u32) as u8 == (value >> 40u64) as u8)
                by (bit_vector);
            assert(((value >> 32u64) as u32) as u8 == (value >> 32u64) as u8) by (bit_vector);
            assert(((value as u32) >> 24u32) as u8 == (value >> 24u64) as u8) by (bit_vector);
            assert(((value as u32) >> 16u32) as u8 == (value >> 16u64) as u8) by (bit_vector);
            assert(((value as u32) >> 8u32) as u8 == (value >> 8u64) as u8) by (bit_vector);
            assert((value as u32) as u8 == value as u8) by (bit_vector);
        }
        assert(bytes@ =~= be_u32(field.0) + be_u64(value));
        Term { bytes }
    }

    /// The term of a text value in `field`.
    pub fn from_field_text(field: Field, text: &str) -> (r: Term)
        ensures
            r@ == be_u32(field.0) + text.spec_bytes(),
    {
        let mut bytes: Vec<u8> = Vec::new();
        push_be_u32(&mut bytes, field.0);
        let tail = text.as_bytes();
        let start = Ghost(bytes@);
        let mut i: usize = 0;
        while i < tail.len()
            invariant
                0 <= i <= tail@.len(),
                bytes@ == start@ + tail@.subrange(0, i as int),
            decreases tail@.len() - i,
        {
            bytes.push(tail[i]);
            assert(tail@.subrange(0, i + 1) =~= tail@.subrange(0, i as int).push(tail@[i as int]));
            i = i + 1;
        }
        assert(tail@.subrange(0, i as int) =~= tail@);
        Term { bytes }
    }

    /// A copy of this term.
    pub fn copy(&self) -> (r: Term)
        ensures
            r@ == self@,
    {
        let bytes = self.bytes.clone();
        assert(bytes@ =~= self.bytes@);
        Term { bytes }
    }

    /// Whether two terms hold the same bytes.
    pub fn same_as(&self, other: &Term) -> (r: bool)
        ensures
            r == (self@ == other@),
    {
        if self.bytes.len() != other.bytes.len() {
            return false;
        }
        let mut i: usize = 0;
        while i < self.bytes.len()
            invariant
                self.bytes@.len() == other.bytes@.len(),
                0 <= i <= self.bytes@.len(),
                forall|j: int| 0 <= j < i ==> self.bytes@[j] == other.bytes@[j],
            decreases self.bytes@.len() - i,
        {
            if self.bytes[i] != other.bytes[i] {
                return false;
            }
            i = i + 1;
        }
        assert(self.bytes@ =~= other.bytes@);
        true
    }
}

/// The number of bytes of a list of terms.
pub open spec fn terms_bytes(terms: Seq<Seq<u8>>) -> nat
    decreases terms.len(),
{
    if terms.len() == 0 {
        0
    } else {
        terms_bytes(terms.drop_last()) + terms.last().len()
    }
}

/// `n`, or the largest `usize` if `n` is larger.
pub open spec fn capped(n: nat) -> usize {
    if n <= usize::MAX {
        n as usize
    } else {
        usize::MAX
    }
}

/// A document, seen by the write path as the terms it holds.
#[derive(Debug)]
pub struct Document {
    terms: Vec<Term>,
}

impl View for Document {
    type V = Seq<Seq<u8>>;

    closed spec fn view(&self) -> Seq<Seq<u8>> {
        self.terms@.map_values(|t: Term| t@)
    }
}

impl Document {
    /// A document with no term.
    pub fn new() -> (r: Document)
        ensures
            r@ == Seq::<Seq<u8>>::empty(),
    {
        let r = Document { terms: Vec::new() };
        assert(r@ =~= Seq::<Seq<u8>>::empty());
        r
    }

    /// Adds a term to the document.
    pub fn add_term(&mut self, term: Term)
        ensures
            final(self)@ == old(self)@.push(term@),
    {
        self.terms.push(term);
        assert(final(self)@ =~= old(self)@.push(term@));
    }

    /// Adds the term of a text value in `field`.
    pub fn add_text(&mut self, field: Field, text: &str)
        ensures
            final(self)@ == old(self)@.push(be_u32(field.0) + text.spec_bytes()),
    {
        let term = Term::from_field_text(field, text);
        self.add_term(term);
    }

    /// Adds the term of a `u64` value in `field`.
    pub fn add_u64(&mut self, field: Field, value: u64)
        ensures
            final(self)@ == old(self)@.push(be_u32(field.0) + be_u64(value)),
    {
        let term = Term::from_field_u64(field, value);
        self.add_term(term);
    }

    /// The memory that the document takes in a segment being built: the
    /// bytes of its terms (the largest `usize` if they are more).
    pub fn mem_usage(&self) -> (r: usize)
        ensures
            r == capped(terms_bytes(self@)),
    {
        let mut total: usize = 0;
        let mut i: usize = 0;
        while i < self.terms.len()
            invariant
                0 <= i <= self.terms@.len(),
                total == capped(terms_bytes(self@.take(i as int))),
            decreases self.terms@.len() - i,
        {
            proof {
                assert(self@.take(i + 1).drop_last() =~= self@.take(i as int));
                assert(self@.take(i + 1).last() == self.terms@[i as int]@);
            }
            total = total.saturating_add(self.terms[i].bytes.len());
            i = i + 1;
        }
        assert(self@.take(i as int) =~= self@);
        total
    }

    /// The number of terms of the document.
    pub fn num_terms(&self) -> (r: usize)
        ensures
            r == self@.len(),
    {
        self.terms.len()
    }

    /// Whether the document holds `term`.
    pub fn contains(&self, term: &Term) -> (r: bool)
        ensures
            r == self@.contains(term@),
    {
        let mut i: usize = 0;
        while i < self.terms.len()
            invariant
                0 <= i <= self.terms@.len(),
                forall|j: int| 0 <= j < i ==> self.terms@[j]@ != term@,
            decreases self.terms@.len() - i,
        {
            if self.terms[i].same_as(term) {
                assert(self@[i as int] == term@);
                return true;
            }
            i = i + 1;
        }
        assert(!self@.contains(term@)) by {
            if self@.contains(term@) {
                let k = choose|k: int| 0 <= k < self@.len() && self@[k] == term@;
                assert(self.terms@[k]@ == term@);
            }
        }
        false
    }
}

/// A document together with the stamp of its addition.
#[derive(Debug)]
pub struct AddOperation {
    pub opstamp: u64,
    pub document: Document,
}

/// A tombstone: it removes the documents that hold `term` and whose stamp is
/// below `opstamp`.
#[derive(Debug)]
pub struct DeleteOperation {
    pub opstamp: u64,
    pub term: Term,
}

impl DeleteOperation {
    /// A copy of this operation.
    pub fn copy(&self) -> (r: DeleteOperation)
        ensures
            r.opstamp == self.opstamp,
            r.term@ == self.term@,
    {
        DeleteOperation { opstamp: self.opstamp, term: self.term.copy() }
    }
}

/// One operation of a batch handed to the writer.
#[derive(Debug)]
pub enum UserOperation {
    Add(Document),
    Delete(Term),
}

} // verus!
