use vstd::prelude::*;
use vstd::string::StringSliceAdditionalSpecFns;

use crate::diagnostic::{emit, emit_text, push_span, renderable, span_text};
use crate::span::Span;

verus! {

pub const CONTEXT_RED: &'static str = "\x1b[31;1m";

pub const CONTEXT_CYAN: &'static str = "\x1b[96;1m";

/// The source text that diagnostics point into, for writing them.
pub struct Context<'s> {
    source: &'s [u8],
}

impl<'s> Context<'s> {
    pub closed spec fn spec_source(&self) -> Seq<u8> {
        self.source@
    }

    pub fn new(source: &'s [u8]) -> (r: Self)
        ensures
            r.spec_source() == source@,
    {
        Context { source }
    }

    pub fn source(&self) -> (r: &'s [u8])
        ensures
            r@ == self.spec_source(),
    {
        self.source
    }

    /// Appends an error headline to `out`.
    pub fn error(&mut self, out: &mut Vec<u8>, message: &[u8])
        ensures
            final(self).spec_source() == old(self).spec_source(),
            final(out)@ == old(out)@ + emit_text(
                message@,
                "error".spec_bytes(),
                CONTEXT_RED.spec_bytes(),
            ),
    {
        emit(out, message, "error", CONTEXT_RED);
    }

    /// Appends the lines that show `span`, underlined, with `message`.
    pub fn span(&mut self, span: Span, out: &mut Vec<u8>, message: &[u8])
        requires
            renderable(old(self).spec_source(), span),
        ensures
            final(self).spec_source() == old(self).spec_source(),
            final(out)@ == old(out)@ + span_text(
                old(self).spec_source(),
                span,
                message@,
                CONTEXT_RED.spec_bytes(),
                CONTEXT_CYAN.spec_bytes(),
            ),
    {
        push_span(out, self.source, span, message, CONTEXT_RED, CONTEXT_CYAN);
    }
}

/// Something that writes itself out as a diagnostic, with a context's
/// `error` and `span`.
pub trait Diagnostic {
    fn fmt(&self, c: &mut Context<'_>, out: &mut Vec<u8>);
}

} // verus!
