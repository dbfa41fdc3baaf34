use vstd::laws_eq::obeys_concrete_eq;
use vstd::std_specs::cmp::PartialEqSpec;
use vstd::prelude::*;

use crate::codec::Codec;
use crate::op::{op_encoding, Op};
use crate::rle::{repeat, Rle};
use crate::span::Span;

verus! {

/// A constant of a chunk's constant table.
pub enum Constant {
    /// A number, as the digits of its literal spell it.
    Float(Vec<u8>),
    String(Vec<u8>),
    Function(usize),
}

/// Encoded instructions, the source span of each byte, and constants.
pub struct Chunk {
    bytes: Vec<u8>,
    spans: Rle<Span>,
    constants: Vec<Constant>,
}

/// Spans compare by their bounds.
pub proof fn lemma_span_concrete_eq()
    ensures
        obeys_concrete_eq::<Span>(),
{
    reveal(obeys_concrete_eq);
    assert forall|x: Span, y: Span| x.eq_spec(&y) <==> x == y by {
        if x.eq_spec(&y) {
            Span::lemma_span_ext(x, y);
        }
    }
}

impl Chunk {
    pub closed spec fn code(&self) -> Seq<u8> {
        self.bytes@
    }

    /// The span of each byte of the code.
    pub closed spec fn byte_spans(&self) -> Seq<Span> {
        self.spans.view()
    }

    pub closed spec fn constant_table(&self) -> Seq<Constant> {
        self.constants@
    }

    pub closed spec fn wf(&self) -> bool {
        &&& self.spans.wf()
        &&& self.spans.view().len() == self.bytes@.len()
    }

    /// An empty chunk.
    pub fn new() -> (r: Self)
        ensures
            r.wf(),
            r.code() == Seq::<u8>::empty(),
            r.byte_spans() == Seq::<Span>::empty(),
            r.constant_table() == Seq::<Constant>::empty(),
    {
        Chunk { bytes: Vec::new(), spans: Rle::new(), constants: Vec::new() }
    }

    pub fn bytes(&self) -> (r: &[u8])
        ensures
            r@ == self.code(),
    {
        self.bytes.as_slice()
    }

    pub fn constants(&self) -> (r: &[Constant])
        ensures
            r@ == self.constant_table(),
    {
        self.constants.as_slice()
    }

    /// The span of the instruction that the byte at `offset` belongs to.
    pub fn span(&self, offset: usize) -> (r: Span)
        requires
            self.wf(),
            offset < self.code().len(),
        ensures
            r == self.byte_spans()[offset as int],
    {
        *self.spans.index(offset)
    }

    /// Appends the encoding of `op`, every byte of it attributed to `span`.
    pub fn encode(&mut self, op: Op, span: Span)
        requires
            old(self).wf(),
            old(self).code().len() + op_encoding(op).len() <= usize::MAX,
        ensures
            final(self).wf(),
            final(self).code() == old(self).code() + op_encoding(op),
            final(self).byte_spans() == old(self).byte_spans() + repeat(
                span,
                op_encoding(op).len(),
            ),
            final(self).constant_table() == old(self).constant_table(),
    {
        op.encode(&mut self.bytes);
        let added = self.bytes.len() - self.spans.len();
        proof {
            lemma_span_concrete_eq();
        }
        self.spans.extend(span, added);
    }

    /// Appends `constant` to the table and returns its index.
    pub fn add_constant(&mut self, constant: Constant) -> (r: usize)
        ensures
            r == old(self).constant_table().len(),
            final(self).constant_table() == old(self).constant_table().push(constant),
            final(self).code() == old(self).code(),
            final(self).byte_spans() == old(self).byte_spans(),
            final(self).wf() == old(self).wf(),
    {
        let result = self.constants.len();
        self.constants.push(constant);
        result
    }

    /// Encodes a jump and returns the offset just after it, where its
    /// distance is counted from.
    pub fn encode_jump(&mut self, op: Op, span: Span) -> (r: usize)
        requires
            old(self).wf(),
            old(self).code().len() + op_encoding(op).len() <= usize::MAX,
        ensures
            final(self).wf(),
            final(self).code() == old(self).code() + op_encoding(op),
            final(self).byte_spans() == old(self).byte_spans() + repeat(
                span,
                op_encoding(op).len(),
            ),
            final(self).constant_table() == old(self).constant_table(),
            r == final(self).code().len(),
    {
        self.encode(op, span);
        self.current()
    }

    /// Writes the distance from `target` to the end of the code into the two
    /// bytes before `target`, least significant first.
    pub fn patch_jump(&mut self, target: usize)
        requires
            2 <= target <= old(self).code().len(),
            old(self).code().len() - target <= u16::MAX,
        ensures
            final(self).code() == old(self).code().update(
                target - 2,
                ((old(self).code().len() - target) % 256) as u8,
            ).update(target - 1, ((old(self).code().len() - target) / 256) as u8),
            final(self).byte_spans() == old(self).byte_spans(),
            final(self).constant_table() == old(self).constant_table(),
            final(self).wf() == old(self).wf(),
    {
        let distance = self.current() - target;
        let low = (distance % 256) as u8;
        let high = (distance / 256) as u8;
        self.bytes.set(target - 2, low);
        self.bytes.set(target - 1, high);
    }

    /// The length of the code: the offset of the next instruction.
    pub fn current(&self) -> (r: usize)
        ensures
            r == self.code().len(),
    {
        self.bytes.len()
    }

    /// Encodes a backward jump to `target`, counted from the end of the jump
    /// instruction itself.
    pub fn encode_loop(&mut self, target: usize, span: Span)
        requires
            old(self).wf(),
            target <= old(self).code().len(),
            old(self).code().len() + 3 <= usize::MAX,
        ensures
            final(self).wf(),
            final(self).code() == old(self).code() + op_encoding(
                Op::Loop { distance: (old(self).code().len() - target + 3) as usize },
            ),
            final(self).byte_spans() == old(self).byte_spans() + repeat(span, 3),
            final(self).constant_table() == old(self).constant_table(),
    {
        let distance = self.current() - target + 3;
        proof {
            reveal_with_fuel(crate::codec::le_bytes, 3);
        }
        self.encode(Op::Loop { distance }, span);
    }
}

impl Default for Chunk {
    fn default() -> (r: Self)
        ensures
            r.wf(),
            r.code() == Seq::<u8>::empty(),
            r.byte_spans() == Seq::<Span>::empty(),
            r.constant_table() == Seq::<Constant>::empty(),
    {
        Self::new()
    }
}

} // verus!
