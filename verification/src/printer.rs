use vstd::prelude::*;
use vstd::string::StringSliceAdditionalSpecFns;

use crate::ast::{binary_token, unary_token, BinaryExpr, BinaryOperator, Expr, GroupingExpr, Literal, LiteralExpr, PrintStmt, Stmt, UnaryExpr, UnaryOperator};
use crate::span::Span;

verus! {

/// The span of a unary operator.
pub open spec fn unary_span(op: UnaryOperator) -> Span {
    match op {
        UnaryOperator::Not(s) => s,
        UnaryOperator::Negate(s) => s,
    }
}

/// The span of a binary operator.
pub open spec fn binary_span(op: BinaryOperator) -> Span {
    match op {
        BinaryOperator::And(s) => s,
        BinaryOperator::Or(s) => s,
        BinaryOperator::Greater(s) => s,
        BinaryOperator::GreaterEqual(s) => s,
        BinaryOperator::Less(s) => s,
        BinaryOperator::LessEqual(s) => s,
        BinaryOperator::NotEqual(s) => s,
        BinaryOperator::Equal(s) => s,
        BinaryOperator::Subtract(s) => s,
        BinaryOperator::Add(s) => s,
        BinaryOperator::Divide(s) => s,
        BinaryOperator::Multiply(s) => s,
    }
}

/// The source text that `span` covers, where it lies within `text`.
pub open spec fn span_text(text: Seq<u8>, span: Span) -> Option<Seq<u8>> {
    if span.spec_start() <= span.spec_end() <= text.len() {
        Some(text.subrange(span.spec_start() as int, span.spec_end() as int))
    } else {
        None
    }
}

/// The text of a number: the one that `numbers` gives for its lexeme, else
/// the lexeme itself.
pub open spec fn number_text(numbers: Seq<(Seq<u8>, Seq<u8>)>, lexeme: Seq<u8>) -> Seq<u8>
    decreases numbers.len(),
{
    if numbers.len() == 0 {
        lexeme
    } else if numbers[0].0 == lexeme {
        numbers[0].1
    } else {
        number_text(numbers.drop_first(), lexeme)
    }
}

/// `(`, the parts separated by spaces, then `)`.
pub open spec fn sexpr(head: Seq<u8>, parts: Seq<u8>) -> Seq<u8> {
    seq![40u8] + head + seq![32u8] + parts + seq![41u8]
}

/// The text of an expression in prefix form: a literal as itself, an
/// operation as `(operator operands)`, a grouping as `(group inner)`; `None`
/// for an expression of another kind or an operator outside `text`.
pub open spec fn printed_expr(text: Seq<u8>, numbers: Seq<(Seq<u8>, Seq<u8>)>, e: Expr) -> Option<Seq<u8>>
    decreases e,
{
    match e {
        Expr::Literal(x) => Some(
            match x.literal {
                Literal::True(_) => seq![116u8, 114u8, 117u8, 101u8],
                Literal::False(_) => seq![102u8, 97u8, 108u8, 115u8, 101u8],
                Literal::Nil(_) => seq![110u8, 105u8, 108u8],
                Literal::String { value, .. } => seq![34u8] + value@ + seq![34u8],
                Literal::Float { value, .. } => number_text(numbers, value@),
            },
        ),
        Expr::Unary(x) => match (span_text(text, unary_span(x.operator)), printed_expr(text, numbers, *x.inner)) {
            (Some(op), Some(inner)) => Some(sexpr(op, inner)),
            _ => None,
        },
        Expr::Binary(x) => match printed_expr(text, numbers, *x.left) {
            Some(left) => match printed_expr(text, numbers, *x.right) {
                Some(right) => match span_text(text, binary_span(x.operator)) {
                    Some(op) => Some(sexpr(op, left + seq![32u8] + right)),
                    None => None,
                },
                None => None,
            },
            None => None,
        },
        Expr::Grouping(x) => match printed_expr(text, numbers, *x.inner) {
            Some(inner) => Some(sexpr(seq![103u8, 114u8, 111u8, 117u8, 112u8], inner)),
            None => None,
        },
        _ => None,
    }
}

/// A string literal prints as its value between double quotes: one `"`,
/// then each byte of the value, then one `"`, whatever the source text and
/// the number texts.
pub proof fn lemma_string_literal_quoted(
    text: Seq<u8>,
    numbers: Seq<(Seq<u8>, Seq<u8>)>,
    span: Span,
    value: Vec<u8>,
)
    ensures
        ({
            let r = printed_expr(
                text,
                numbers,
                Expr::Literal(LiteralExpr { literal: Literal::String { span, value } }),
            );
            &&& r is Some
            &&& r.unwrap().len() == value@.len() + 2
            &&& r.unwrap()[0] == 34u8
            &&& r.unwrap()[value@.len() as int + 1] == 34u8
            &&& forall|i: int| 0 <= i < value@.len() ==> r.unwrap()[i + 1] == #[trigger] value@[i]
        }),
{
}

/// An operation prints in prefix form: `(`, the source text of its
/// operator token, a space, its left operand, a space, its right operand,
/// and `)`.
pub proof fn lemma_binary_prefix_form(text: Seq<u8>, numbers: Seq<(Seq<u8>, Seq<u8>)>, x: BinaryExpr)
    requires
        printed_expr(text, numbers, Expr::Binary(x)) is Some,
    ensures
        ({
            let s = binary_token(x.operator).1;
            let l = printed_expr(text, numbers, *x.left);
            let r = printed_expr(text, numbers, *x.right);
            &&& l is Some
            &&& r is Some
            &&& s.spec_start() <= s.spec_end() <= text.len()
            &&& printed_expr(text, numbers, Expr::Binary(x)).unwrap() == seq![40u8] + text.subrange(
                s.spec_start() as int,
                s.spec_end() as int,
            ) + seq![32u8] + l.unwrap() + seq![32u8] + r.unwrap() + seq![41u8]
        }),
{
    assert(binary_span(x.operator) == binary_token(x.operator).1);
    let l = printed_expr(text, numbers, *x.left).unwrap();
    let r = printed_expr(text, numbers, *x.right).unwrap();
    assert(l + seq![32u8] + r =~= l + (seq![32u8] + r));
    assert(printed_expr(text, numbers, Expr::Binary(x)).unwrap() =~= seq![40u8] + span_text(
        text,
        binary_span(x.operator),
    ).unwrap() + seq![32u8] + l + seq![32u8] + r + seq![41u8]);
}

/// A negation prints as `(`, the source text of its operator token, a
/// space, its operand and `)`.
pub proof fn lemma_unary_prefix_form(text: Seq<u8>, numbers: Seq<(Seq<u8>, Seq<u8>)>, x: UnaryExpr)
    requires
        printed_expr(text, numbers, Expr::Unary(x)) is Some,
    ensures
        ({
            let s = unary_token(x.operator).1;
            let i = printed_expr(text, numbers, *x.inner);
            &&& i is Some
            &&& s.spec_start() <= s.spec_end() <= text.len()
            &&& printed_expr(text, numbers, Expr::Unary(x)).unwrap() == seq![40u8] + text.subrange(
                s.spec_start() as int,
                s.spec_end() as int,
            ) + seq![32u8] + i.unwrap() + seq![41u8]
        }),
{
    assert(unary_span(x.operator) == unary_token(x.operator).1);
}

/// A grouping prints as `(group `, its inner expression and `)`.
pub proof fn lemma_grouping_prefix_form(text: Seq<u8>, numbers: Seq<(Seq<u8>, Seq<u8>)>, x: GroupingExpr)
    requires
        printed_expr(text, numbers, Expr::Grouping(x)) is Some,
    ensures
        printed_expr(text, numbers, *x.inner) is Some,
        printed_expr(text, numbers, Expr::Grouping(x)).unwrap() == seq![40u8, 103u8, 114u8, 111u8, 117u8, 112u8, 32u8]
            + printed_expr(text, numbers, *x.inner).unwrap() + seq![41u8],
{
    let i = printed_expr(text, numbers, *x.inner).unwrap();
    assert(seq![40u8] + seq![103u8, 114u8, 111u8, 117u8, 112u8] + seq![32u8] + i + seq![41u8] =~= seq![
        40u8,
        103u8,
        114u8,
        111u8,
        117u8,
        112u8,
        32u8,
    ] + i + seq![41u8]);
}

/// `true`, `false` and `nil` print as those words.
pub proof fn lemma_keyword_literals_printed(text: Seq<u8>, numbers: Seq<(Seq<u8>, Seq<u8>)>, span: Span)
    ensures
        printed_expr(text, numbers, Expr::Literal(LiteralExpr { literal: Literal::True(span) })) == Some(
            "true".spec_bytes(),
        ),
        printed_expr(text, numbers, Expr::Literal(LiteralExpr { literal: Literal::False(span) })) == Some(
            "false".spec_bytes(),
        ),
        printed_expr(text, numbers, Expr::Literal(LiteralExpr { literal: Literal::Nil(span) })) == Some(
            "nil".spec_bytes(),
        ),
{
    reveal_strlit("true");
    vstd::string::is_ascii_spec_bytes("true");
    assert(vstd::string::is_ascii("true"));
    reveal_strlit("false");
    vstd::string::is_ascii_spec_bytes("false");
    assert(vstd::string::is_ascii("false"));
    reveal_strlit("nil");
    vstd::string::is_ascii_spec_bytes("nil");
    assert(vstd::string::is_ascii("nil"));
    assert("true".spec_bytes() =~= seq![116u8, 114u8, 117u8, 101u8]);
    assert("false".spec_bytes() =~= seq![102u8, 97u8, 108u8, 115u8, 101u8]);
    assert("nil".spec_bytes() =~= seq![110u8, 105u8, 108u8]);
}

/// The text of an expression or print statement: `(expr ...)` or
/// `(print ...)`; `None` for another statement.
pub open spec fn printed_stmt(text: Seq<u8>, numbers: Seq<(Seq<u8>, Seq<u8>)>, s: Stmt) -> Option<Seq<u8>> {
    match s {
        Stmt::Expr(x) => match printed_expr(text, numbers, x.expr) {
            Some(e) => Some(sexpr(seq![101u8, 120u8, 112u8, 114u8], e)),
            None => None,
        },
        Stmt::Print(x) => match printed_expr(text, numbers, x.expr) {
            Some(e) => Some(sexpr(seq![112u8, 114u8, 105u8, 110u8, 116u8], e)),
            None => None,
        },
        _ => None,
    }
}

/// A print statement prints as `(print `, its expression and `)`, where its
/// expression prints; so `print "a b";` prints as `(print "a b")`.
pub proof fn lemma_print_prefix_form(text: Seq<u8>, numbers: Seq<(Seq<u8>, Seq<u8>)>, x: PrintStmt)
    ensures
        printed_expr(text, numbers, x.expr) is Some ==> printed_stmt(text, numbers, Stmt::Print(x)) == Some(
            seq![40u8, 112u8, 114u8, 105u8, 110u8, 116u8, 32u8] + printed_expr(text, numbers, x.expr).unwrap()
                + seq![41u8],
        ),
        printed_expr(text, numbers, x.expr) is None ==> printed_stmt(text, numbers, Stmt::Print(x)) is None,
{
    if printed_expr(text, numbers, x.expr) is Some {
        let e = printed_expr(text, numbers, x.expr).unwrap();
        assert(sexpr(seq![112u8, 114u8, 105u8, 110u8, 116u8], e) =~= seq![40u8, 112u8, 114u8, 105u8, 110u8, 116u8, 32u8]
            + e + seq![41u8]);
    }
}

/// Prints expressions and statements in prefix form, reading operators
/// from the source text and numbers from texts the caller gives for their
/// lexemes.
pub struct Printer {
    text: Vec<u8>,
    numbers: Vec<(Vec<u8>, Vec<u8>)>,
}

fn push_all(out: &mut Vec<u8>, bytes: &[u8])
    ensures
        final(out)@ == old(out)@ + bytes@,
{
    let mut i: usize = 0;
    while i < bytes.len()
        invariant
            i <= bytes@.len(),
            out@ == old(out)@ + bytes@.subrange(0, i as int),
        decreases bytes@.len() - i,
    {
        out.push(bytes[i]);
        i += 1;
        proof {
            assert(out@ =~= old(out)@ + bytes@.subrange(0, i as int));
        }
    }
    proof {
        assert(bytes@.subrange(0, i as int) =~= bytes@);
    }
}

fn bytes_equal(a: &[u8], b: &[u8]) -> (r: bool)
    ensures
        r == (a@ == b@),
{
    if a.len() != b.len() {
        return false;
    }
    let mut i: usize = 0;
    while i < a.len()
        invariant
            a@.len() == b@.len(),
            i <= a@.len(),
            forall|j: int| 0 <= j < i ==> a@[j] == b@[j],
        decreases a@.len() - i,
    {
        if a[i] != b[i] {
            return false;
        }
        i += 1;
    }
    proof {
        assert(a@ =~= b@);
    }
    true
}

fn unary_span_of(op: &UnaryOperator) -> (r: Span)
    ensures
        r == unary_span(*op),
{
    match op {
        UnaryOperator::Not(s) => *s,
        UnaryOperator::Negate(s) => *s,
    }
}

fn binary_span_of(op: &BinaryOperator) -> (r: Span)
    ensures
        r == binary_span(*op),
{
    match op {
        BinaryOperator::And(s) => *s,
        BinaryOperator::Or(s) => *s,
        BinaryOperator::Greater(s) => *s,
        BinaryOperator::GreaterEqual(s) => *s,
        BinaryOperator::Less(s) => *s,
        BinaryOperator::LessEqual(s) => *s,
        BinaryOperator::NotEqual(s) => *s,
        BinaryOperator::Equal(s) => *s,
        BinaryOperator::Subtract(s) => *s,
        BinaryOperator::Add(s) => *s,
        BinaryOperator::Divide(s) => *s,
        BinaryOperator::Multiply(s) => *s,
    }
}

impl Printer {
    pub closed spec fn text(&self) -> Seq<u8> {
        self.text@
    }

    pub closed spec fn numbers(&self) -> Seq<(Seq<u8>, Seq<u8>)> {
        self.numbers@.map_values(|e: (Vec<u8>, Vec<u8>)| (e.0@, e.1@))
    }

    /// A printer over the source `text`, with the texts of numbers by their
    /// lexemes.
    pub fn new(text: Vec<u8>, numbers: Vec<(Vec<u8>, Vec<u8>)>) -> (r: Self)
        ensures
            r.text() == text@,
            r.numbers() == numbers@.map_values(|e: (Vec<u8>, Vec<u8>)| (e.0@, e.1@)),
    {
        Printer { text, numbers }
    }

    fn push_number(&self, out: &mut Vec<u8>, lexeme: &Vec<u8>)
        ensures
            final(out)@ == old(out)@ + number_text(self.numbers(), lexeme@),
    {
        let mut i: usize = 0;
        proof {
            assert(self.numbers().skip(0) =~= self.numbers());
        }
        while i < self.numbers.len()
            invariant
                i <= self.numbers@.len(),
                *out == *old(out),
                number_text(self.numbers(), lexeme@) == number_text(self.numbers().skip(i as int), lexeme@),
            decreases self.numbers@.len() - i,
        {
            proof {
                assert(self.numbers().skip(i as int)[0] == self.numbers()[i as int]);
                assert(self.numbers().skip(i as int).drop_first() =~= self.numbers().skip(i + 1));
            }
            if bytes_equal(self.numbers[i].0.as_slice(), lexeme.as_slice()) {
                push_all(out, self.numbers[i].1.as_slice());
                return;
            }
            i += 1;
        }
        proof {
            assert(self.numbers().skip(i as int).len() == 0);
        }
        push_all(out, lexeme.as_slice());
    }

    fn push_span(&self, out: &mut Vec<u8>, span: Span) -> (ok: bool)
        ensures
            ok == span_text(self.text(), span) is Some,
            ok ==> final(out)@ == old(out)@ + span_text(self.text(), span).unwrap(),
    {
        let start = span.start();
        let end = span.end();
        if start > end || end > self.text.len() {
            return false;
        }
        let mut i = start;
        while i < end
            invariant
                start <= i <= end <= self.text@.len(),
                out@ == old(out)@ + self.text@.subrange(start as int, i as int),
            decreases end - i,
        {
            out.push(self.text[i]);
            i += 1;
            proof {
                assert(out@ =~= old(out)@ + self.text@.subrange(start as int, i as int));
            }
        }
        true
    }

    /// Appends the prefix form of `e`; `false`, with `out` left in any
    /// state, where `e` has none.
    fn push_expr(&self, out: &mut Vec<u8>, e: &Expr) -> (ok: bool)
        ensures
            ok == printed_expr(self.text(), self.numbers(), *e) is Some,
            ok ==> final(out)@ == old(out)@ + printed_expr(self.text(), self.numbers(), *e).unwrap(),
        decreases e,
    {
        match e {
            Expr::Literal(x) => {
                let ghost o0 = out@;
                match &x.literal {
                    Literal::True(_) => {
                        let w: [u8; 4] = [116u8, 114, 117, 101];
                        proof {
                            assert(w@ =~= seq![116u8, 114u8, 117u8, 101u8]);
                        }
                        push_all(out, &w);
                    },
                    Literal::False(_) => {
                        let w: [u8; 5] = [102u8, 97, 108, 115, 101];
                        proof {
                            assert(w@ =~= seq![102u8, 97u8, 108u8, 115u8, 101u8]);
                        }
                        push_all(out, &w);
                    },
                    Literal::Nil(_) => {
                        let w: [u8; 3] = [110u8, 105, 108];
                        proof {
                            assert(w@ =~= seq![110u8, 105u8, 108u8]);
                        }
                        push_all(out, &w);
                    },
                    Literal::String { value, .. } => {
                        out.push(34u8);
                        push_all(out, value.as_slice());
                        out.push(34u8);
                        proof {
                            assert(out@ =~= o0 + (seq![34u8] + value@ + seq![34u8]));
                        }
                    },
                    Literal::Float { value, .. } => self.push_number(out, value),
                }
                true
            },
            Expr::Unary(x) => {
                let ghost o0 = out@;
                out.push(40u8);
                if !self.push_span(out, unary_span_of(&x.operator)) {
                    return false;
                }
                out.push(32u8);
                if !self.push_expr(out, &x.inner) {
                    return false;
                }
                out.push(41u8);
                proof {
                    let op = span_text(self.text(), unary_span(x.operator)).unwrap();
                    let inner = printed_expr(self.text(), self.numbers(), *x.inner).unwrap();
                    assert(out@ =~= o0 + sexpr(op, inner));
                }
                true
            },
            Expr::Binary(x) => {
                let ghost o0 = out@;
                let mut left: Vec<u8> = Vec::new();
                if !self.push_expr(&mut left, &x.left) {
                    return false;
                }
                let mut right: Vec<u8> = Vec::new();
                if !self.push_expr(&mut right, &x.right) {
                    return false;
                }
                out.push(40u8);
                if !self.push_span(out, binary_span_of(&x.operator)) {
                    return false;
                }
                out.push(32u8);
                push_all(out, left.as_slice());
                out.push(32u8);
                push_all(out, right.as_slice());
                out.push(41u8);
                proof {
                    let op = span_text(self.text(), binary_span(x.operator)).unwrap();
                    assert(left@ =~= Seq::<u8>::empty() + printed_expr(self.text(), self.numbers(), *x.left).unwrap());
                    assert(right@ =~= Seq::<u8>::empty() + printed_expr(self.text(), self.numbers(), *x.right).unwrap());
                    assert(out@ =~= o0 + sexpr(op, left@ + seq![32u8] + right@));
                }
                true
            },
            Expr::Grouping(x) => {
                let ghost o0 = out@;
                let w: [u8; 7] = [40u8, 103, 114, 111, 117, 112, 32];
                proof {
                    assert(w@ =~= seq![40u8, 103u8, 114u8, 111u8, 117u8, 112u8, 32u8]);
                }
                push_all(out, &w);
                if !self.push_expr(out, &x.inner) {
                    return false;
                }
                out.push(41u8);
                proof {
                    let inner = printed_expr(self.text(), self.numbers(), *x.inner).unwrap();
                    assert(out@ =~= o0 + sexpr(seq![103u8, 114u8, 111u8, 117u8, 112u8], inner));
                }
                true
            },
            _ => false,
        }
    }

    /// The prefix form of an expression, if it has one.
    pub fn print_expr(&self, e: &Expr) -> (r: Option<Vec<u8>>)
        ensures
            r is Some == printed_expr(self.text(), self.numbers(), *e) is Some,
            r matches Some(v) ==> Some(v@) == printed_expr(self.text(), self.numbers(), *e),
    {
        let mut out: Vec<u8> = Vec::new();
        if self.push_expr(&mut out, e) {
            proof {
                assert(out@ =~= Seq::<u8>::empty() + printed_expr(self.text(), self.numbers(), *e).unwrap());
            }
            Some(out)
        } else {
            None
        }
    }

    /// The prefix form of an expression or print statement, if it has one.
    pub fn print_stmt(&self, s: &Stmt) -> (r: Option<Vec<u8>>)
        ensures
            r is Some == printed_stmt(self.text(), self.numbers(), *s) is Some,
            r matches Some(v) ==> Some(v@) == printed_stmt(self.text(), self.numbers(), *s),
    {
        let (head, expr): (&[u8], &Expr) = match s {
            Stmt::Expr(x) => (&[101u8, 120, 112, 114], &x.expr),
            Stmt::Print(x) => (&[112u8, 114, 105, 110, 116], &x.expr),
            _ => {
                return None;
            },
        };
        let mut out: Vec<u8> = Vec::new();
        out.push(40u8);
        push_all(&mut out, head);
        out.push(32u8);
        let ghost o1 = out@;
        if !self.push_expr(&mut out, expr) {
            return None;
        }
        out.push(41u8);
        proof {
            let e = printed_expr(self.text(), self.numbers(), *expr).unwrap();
            assert(out@ =~= sexpr(head@, e));
            match *s {
                Stmt::Expr(_) => assert(head@ =~= seq![101u8, 120u8, 112u8, 114u8]),
                Stmt::Print(_) => assert(head@ =~= seq![112u8, 114u8, 105u8, 110u8, 116u8]),
                _ => {},
            }
        }
        Some(out)
    }
}

} // verus!
