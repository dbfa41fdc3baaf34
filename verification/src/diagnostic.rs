use vstd::prelude::*;
use vstd::string::StringSliceAdditionalSpecFns;

use crate::span::Span;

verus! {

pub const BRIGHT_RED: &'static str = "\x1b[91m";

pub const BRIGHT_WHITE: &'static str = "\x1b[97m";

pub const BRIGHT_CYAN: &'static str = "\x1b[96m";

pub const BRIGHT_YELLOW: &'static str = "\x1b[93m";

pub const RESET_COLOR: &'static str = "\x1b[0m";

/// The line and column of an offset into a source text.
#[derive(Clone, Copy, Debug, PartialEq, Eq, Structural)]
pub struct Position {
    /// Where the line begins.
    pub line_start: usize,
    /// Where the line ends: at its newline, or at the end of the text.
    pub line_end: usize,
    /// The line's number, counting from one.
    pub line_number: usize,
    /// The offset from the start of the line.
    pub column: usize,
}

/// The last newline before `k`, or -1.
pub open spec fn last_newline(s: Seq<u8>, k: int) -> int
    decreases k,
{
    if k <= 0 {
        -1
    } else if s[k - 1] == 10 {
        k - 1
    } else {
        last_newline(s, k - 1)
    }
}

/// The first newline at or after `i`, or the length of `s`.
pub open spec fn next_newline(s: Seq<u8>, i: int) -> int
    decreases s.len() - i,
{
    if i >= s.len() || i < 0 {
        s.len() as int
    } else if s[i] == 10 {
        i
    } else {
        next_newline(s, i + 1)
    }
}

/// The number of newlines before `k`.
pub open spec fn newlines(s: Seq<u8>, k: int) -> int
    decreases k,
{
    if k <= 0 {
        0
    } else {
        newlines(s, k - 1) + if s[k - 1] == 10 {
            1int
        } else {
            0
        }
    }
}

/// The position of `offset` in `s`.
pub open spec fn spec_position(s: Seq<u8>, offset: int) -> Position {
    Position {
        line_start: (last_newline(s, offset) + 1) as usize,
        line_end: next_newline(s, offset) as usize,
        line_number: (newlines(s, offset) + 1) as usize,
        column: (offset - last_newline(s, offset) - 1) as usize,
    }
}

proof fn lemma_newline_bounds(s: Seq<u8>, k: int)
    requires
        0 <= k <= s.len(),
    ensures
        -1 <= last_newline(s, k) < k,
        k <= next_newline(s, k) <= s.len(),
        0 <= newlines(s, k) <= k,
    decreases s.len() - k,
{
    lemma_last_newline(s, k);
    lemma_newlines(s, k);
    if k < s.len() && s[k] != 10 {
        lemma_newline_bounds(s, k + 1);
    }
}

proof fn lemma_last_newline(s: Seq<u8>, k: int)
    requires
        0 <= k <= s.len(),
    ensures
        -1 <= last_newline(s, k) < k,
    decreases k,
{
    if k > 0 {
        lemma_last_newline(s, k - 1);
    }
}

proof fn lemma_newlines(s: Seq<u8>, k: int)
    requires
        0 <= k <= s.len(),
    ensures
        0 <= newlines(s, k) <= k,
    decreases k,
{
    if k > 0 {
        lemma_newlines(s, k - 1);
    }
}

impl Position {
    /// The position of `offset` in `source`.
    pub fn from_source(source: &[u8], offset: usize) -> (r: Position)
        requires
            offset <= source@.len() < usize::MAX,
        ensures
            r == spec_position(source@, offset as int),
            r.line_start <= offset <= r.line_end <= source@.len(),
            r.line_number >= 1,
    {
        proof {
            lemma_newline_bounds(source@, offset as int);
        }
        let mut line_end = offset;
        while line_end < source.len() && source[line_end] != 10
            invariant
                offset <= line_end <= source@.len(),
                next_newline(source@, offset as int) == next_newline(source@, line_end as int),
            decreases source@.len() - line_end,
        {
            line_end += 1;
        }
        let mut k = offset;
        while k > 0 && source[k - 1] != 10
            invariant
                k <= offset <= source@.len(),
                last_newline(source@, offset as int) == last_newline(source@, k as int),
            decreases k,
        {
            k -= 1;
        }
        let mut count: usize = 0;
        let mut i: usize = 0;
        while i < offset
            invariant
                i <= offset <= source@.len() < usize::MAX,
                count == newlines(source@, i as int),
                count <= i,
            decreases offset - i,
        {
            proof {
                lemma_newlines(source@, i as int);
            }
            if source[i] == 10 {
                count += 1;
            }
            i += 1;
        }
        Position { line_start: k, line_end, line_number: count + 1, column: offset - k }
    }
}

/// `n` copies of `byte`.
pub open spec fn repeat_byte(byte: u8, n: nat) -> Seq<u8> {
    Seq::new(n, |_i: int| byte)
}

/// The decimal digits of `n`.
pub open spec fn decimal(n: nat) -> Seq<u8>
    decreases n,
{
    if n < 10 {
        seq![(48 + n) as u8]
    } else {
        decimal(n / 10) + seq![(48 + n % 10) as u8]
    }
}

/// Every byte of a number's decimal text is a digit.
pub proof fn lemma_decimal_digits(n: nat)
    ensures
        decimal(n).len() >= 1,
        forall|i: int| 0 <= i < decimal(n).len() ==> 48 <= #[trigger] decimal(n)[i] <= 57,
    decreases n,
{
    if n >= 10 {
        lemma_decimal_digits(n / 10);
        let d = decimal(n / 10);
        assert forall|i: int| 0 <= i < decimal(n).len() implies 48 <= #[trigger] decimal(n)[i] <= 57 by {
            if i < d.len() {
                assert(decimal(n)[i] == d[i]);
            }
        }
    }
}

/// Distinct numbers have distinct decimal texts.
pub proof fn lemma_decimal_injective(a: nat, b: nat)
    requires
        decimal(a) == decimal(b),
    ensures
        a == b,
    decreases a,
{
    if a >= 10 && b >= 10 {
        let da = decimal(a / 10);
        let db = decimal(b / 10);
        lemma_decimal_digits(a / 10);
        lemma_decimal_digits(b / 10);
        assert(decimal(a)[decimal(a).len() - 1] == (48 + a % 10) as u8);
        assert(decimal(b)[decimal(b).len() - 1] == (48 + b % 10) as u8);
        assert(da =~= decimal(a).drop_last());
        assert(db =~= decimal(b).drop_last());
        lemma_decimal_injective(a / 10, b / 10);
        assert(a % 10 == b % 10);
        assert(a == 10 * (a / 10) + a % 10);
        assert(b == 10 * (b / 10) + b % 10);
    } else if a >= 10 {
        lemma_decimal_digits(a / 10);
        assert(decimal(a).len() >= 2);
    } else if b >= 10 {
        lemma_decimal_digits(b / 10);
        assert(decimal(b).len() >= 2);
    } else {
        assert(decimal(a)[0] == (48 + a) as u8);
        assert(decimal(b)[0] == (48 + b) as u8);
    }
}

/// The lower-case hexadecimal digit of `d`.
pub open spec fn hex_digit(d: nat) -> u8 {
    if d < 10 {
        (48 + d) as u8
    } else {
        (87 + d) as u8
    }
}

/// The lower-case hexadecimal digits of `n`.
pub open spec fn hex(n: nat) -> Seq<u8>
    decreases n,
{
    if n < 16 {
        seq![hex_digit(n)]
    } else {
        hex(n / 16) + seq![hex_digit(n % 16)]
    }
}

/// `n` right-aligned in a field of `width` characters.
pub open spec fn padded_number(n: nat, width: nat) -> Seq<u8> {
    repeat_byte(32, (width - decimal(n).len()) as nat) + decimal(n)
}

/// The number of digits of the larger of two line numbers.
pub open spec fn gutter_width(a: nat, b: nat) -> nat {
    if decimal(a).len() >= decimal(b).len() {
        decimal(a).len()
    } else {
        decimal(b).len()
    }
}

/// A labelled headline.
pub open spec fn emit_text(message: Seq<u8>, prefix: Seq<u8>, color: Seq<u8>) -> Seq<u8> {
    color + prefix + BRIGHT_WHITE.spec_bytes() + ": ".spec_bytes() + message
        + RESET_COLOR.spec_bytes() + "\n".spec_bytes()
}

/// A span of the source can be shown: it lies in the source, and on one
/// line it does not end before it starts.
pub open spec fn renderable(source: Seq<u8>, span: Span) -> bool {
    let start = spec_position(source, span.spec_start() as int);
    let end = spec_position(source, span.spec_end() as int);
    &&& span.spec_start() <= source.len()
    &&& span.spec_end() <= source.len()
    &&& source.len() < usize::MAX
    &&& start.line_number == end.line_number ==> start.column <= end.column
}

/// Whether `span` of `source` can be shown.
pub fn is_renderable(source: &[u8], span: Span) -> (r: bool)
    ensures
        r == renderable(source@, span),
{
    let start = span.start();
    let end = span.end();
    if start > source.len() || end > source.len() || source.len() == usize::MAX {
        return false;
    }
    let a = Position::from_source(source, start);
    let b = Position::from_source(source, end);
    a.line_number != b.line_number || a.column <= b.column
}

/// An empty gutter line.
pub open spec fn blank_gutter(cyan: Seq<u8>, width: nat) -> Seq<u8> {
    cyan + repeat_byte(32, width) + " |".spec_bytes() + RESET_COLOR.spec_bytes() + "\n".spec_bytes()
}

/// A source line, numbered in the gutter.
pub open spec fn numbered_line(cyan: Seq<u8>, number: nat, width: nat, line: Seq<u8>) -> Seq<u8> {
    cyan + padded_number(number, width) + " |".spec_bytes() + RESET_COLOR.spec_bytes()
        + "   ".spec_bytes() + line + "\n".spec_bytes()
}

/// Carets under the columns of a span on one line, then the message.
pub open spec fn underline(cyan: Seq<u8>, width: nat, column: nat, color: Seq<u8>, length: nat, message: Seq<u8>) -> Seq<u8> {
    cyan + repeat_byte(32, width) + " |".spec_bytes() + RESET_COLOR.spec_bytes() + "   ".spec_bytes()
        + repeat_byte(32, column) + color + repeat_byte(94, length) + " ".spec_bytes() + message
        + RESET_COLOR.spec_bytes() + "\n".spec_bytes()
}

/// The mark under the start of a span of several lines.
pub open spec fn start_marker(cyan: Seq<u8>, width: nat, column: nat, color: Seq<u8>) -> Seq<u8> {
    cyan + repeat_byte(32, width) + " |".spec_bytes() + RESET_COLOR.spec_bytes() + "  ".spec_bytes()
        + color + "_".spec_bytes() + repeat_byte(95, column) + "^".spec_bytes()
        + RESET_COLOR.spec_bytes() + "\n".spec_bytes()
}

/// The last line of a span of several lines, numbered and barred.
pub open spec fn end_line(cyan: Seq<u8>, number: nat, width: nat, color: Seq<u8>, line: Seq<u8>) -> Seq<u8> {
    cyan + padded_number(number, width) + " |".spec_bytes() + RESET_COLOR.spec_bytes()
        + " ".spec_bytes() + color + "|".spec_bytes() + RESET_COLOR.spec_bytes() + " ".spec_bytes()
        + line + "\n".spec_bytes()
}

/// The mark under the end of a span of several lines, then the message.
pub open spec fn end_marker(cyan: Seq<u8>, width: nat, column: nat, color: Seq<u8>, message: Seq<u8>) -> Seq<u8> {
    repeat_byte(32, width) + " ".spec_bytes() + cyan + "|".spec_bytes() + RESET_COLOR.spec_bytes()
        + " ".spec_bytes() + color + "|_".spec_bytes() + repeat_byte(95, column) + "^ ".spec_bytes()
        + message + RESET_COLOR.spec_bytes() + "\n".spec_bytes()
}

/// The lines that show `span` of `source` with `message`, underlined in
/// `color`, with the gutter in `cyan`.
pub open spec fn span_text(source: Seq<u8>, span: Span, message: Seq<u8>, color: Seq<u8>, cyan: Seq<u8>) -> Seq<u8> {
    let start = spec_position(source, span.spec_start() as int);
    let end = spec_position(source, span.spec_end() as int);
    let width = gutter_width(start.line_number as nat, end.line_number as nat);
    blank_gutter(cyan, width) + numbered_line(
        cyan,
        start.line_number as nat,
        width,
        source.subrange(start.line_start as int, start.line_end as int),
    ) + if start.line_number == end.line_number {
        let length = if end.column - start.column >= 1 {
            (end.column - start.column) as nat
        } else {
            1nat
        };
        underline(cyan, width, start.column as nat, color, length, message)
    } else {
        start_marker(cyan, width, start.column as nat, color) + end_line(
            cyan,
            end.line_number as nat,
            width,
            color,
            source.subrange(end.line_start as int, end.line_end as int),
        ) + end_marker(cyan, width, end.column as nat, color, message)
    }
}

/// Appends `bytes`.
pub fn push_bytes(out: &mut Vec<u8>, bytes: &[u8])
    ensures
        final(out)@ == old(out)@ + bytes@,
{
    let ghost start = out@;
    let mut i: usize = 0;
    while i < bytes.len()
        invariant
            i <= bytes@.len(),
            out@ == start + bytes@.subrange(0, i as int),
            start == old(out)@,
        decreases bytes@.len() - i,
    {
        out.push(bytes[i]);
        i += 1;
        proof {
            assert(bytes@.subrange(0, i as int) =~= bytes@.subrange(0, i - 1).push(bytes@[i - 1]));
        }
    }
    proof {
        assert(bytes@.subrange(0, i as int) =~= bytes@);
    }
}

/// Appends the bytes of `s`.
pub fn push_str(out: &mut Vec<u8>, s: &str)
    ensures
        final(out)@ == old(out)@ + s.spec_bytes(),
{
    push_bytes(out, s.as_bytes());
}

/// Appends `n` copies of `byte`.
pub(crate) fn push_repeat(out: &mut Vec<u8>, byte: u8, n: usize)
    ensures
        final(out)@ == old(out)@ + repeat_byte(byte, n as nat),
{
    let ghost start = out@;
    let mut i: usize = 0;
    while i < n
        invariant
            i <= n,
            out@ == start + repeat_byte(byte, i as nat),
            start == old(out)@,
        decreases n - i,
    {
        out.push(byte);
        i += 1;
        proof {
            assert(repeat_byte(byte, i as nat) =~= repeat_byte(byte, (i - 1) as nat).push(byte));
        }
    }
}

/// The number of decimal digits of `n`.
fn decimal_len(n: usize) -> (r: usize)
    ensures
        r == decimal(n as nat).len(),
        1 <= r <= 20,
    decreases n,
{
    if n < 10 {
        1
    } else {
        let r = decimal_len(n / 10);
        proof {
            assert(n / 10 < n);
            lemma_decimal_len_bound(n as nat);
        }
        r + 1
    }
}

proof fn lemma_decimal_len_bound(n: nat)
    requires
        n <= usize::MAX,
    ensures
        1 <= decimal(n).len() <= 20,
    decreases n,
{
    if n >= 10 {
        lemma_decimal_len_bound(n / 10);
        lemma_decimal_len_small(n / 10);
    }
}

proof fn lemma_decimal_len_small(n: nat)
    requires
        n <= usize::MAX / 10,
    ensures
        decimal(n).len() <= 19,
{
    if decimal(n).len() >= 20 {
        lemma_decimal_len_at_least(n, 20);
        reveal_with_fuel(pow10, 20);
        assert(pow10(19) == 10000000000000000000nat);
    }
}

/// A number with at least `k` digits, two or more, is at least
/// `10^(k-1)`.
proof fn lemma_decimal_len_at_least(n: nat, k: nat)
    requires
        decimal(n).len() >= k,
        k >= 2,
    ensures
        n >= pow10((k - 1) as nat),
    decreases n,
{
    if n < 10 {
        assert(decimal(n).len() == 1);
    } else {
        assert(decimal(n).len() == decimal(n / 10).len() + 1);
        if k == 2 {
            reveal_with_fuel(pow10, 2);
        } else {
            lemma_decimal_len_at_least(n / 10, (k - 1) as nat);
            let p = pow10((k - 2) as nat);
            assert(pow10((k - 1) as nat) == 10 * p);
            assert(n >= 10 * p) by (nonlinear_arith)
                requires
                    n / 10 >= p,
                    n >= 10,
            ;
        }
    }
}

spec fn pow10(k: nat) -> nat
    decreases k,
{
    if k == 0 {
        1
    } else {
        10 * pow10((k - 1) as nat)
    }
}

/// Appends the decimal digits of `n`.
pub(crate) fn push_decimal(out: &mut Vec<u8>, n: usize)
    ensures
        final(out)@ == old(out)@ + decimal(n as nat),
    decreases n,
{
    if n >= 10 {
        push_decimal(out, n / 10);
    }
    out.push((48 + n % 10) as u8);
    proof {
        if n < 10 {
            assert(decimal(n as nat) =~= seq![(48 + n) as u8]);
        }
    }
}

/// Appends the lower-case hexadecimal digits of `n`.
pub(crate) fn push_hex(out: &mut Vec<u8>, n: usize)
    ensures
        final(out)@ == old(out)@ + hex(n as nat),
    decreases n,
{
    if n >= 16 {
        push_hex(out, n / 16);
    }
    let d = n % 16;
    if d < 10 {
        out.push((48 + d) as u8);
    } else {
        out.push((87 + d) as u8);
    }
    proof {
        if n < 16 {
            assert(hex(n as nat) =~= seq![hex_digit(n as nat)]);
        }
    }
}

/// Appends the headline `color prefix: message`.
pub fn emit(out: &mut Vec<u8>, message: &[u8], prefix: &str, color: &str)
    ensures
        final(out)@ == old(out)@ + emit_text(message@, prefix.spec_bytes(), color.spec_bytes()),
{
    let ghost start = out@;
    push_str(out, color);
    push_str(out, prefix);
    push_str(out, BRIGHT_WHITE);
    push_str(out, ": ");
    push_bytes(out, message);
    push_str(out, RESET_COLOR);
    push_str(out, "\n");
    proof {
        assert(out@ =~= start + emit_text(message@, prefix.spec_bytes(), color.spec_bytes()));
    }
}

fn push_blank_gutter(out: &mut Vec<u8>, cyan: &str, width: usize)
    ensures
        final(out)@ == old(out)@ + blank_gutter(cyan.spec_bytes(), width as nat),
{
    let ghost out0 = out@;
    push_str(out, cyan);
    push_repeat(out, 32, width);
    push_str(out, " |");
    push_str(out, RESET_COLOR);
    push_str(out, "\n");
    proof {
        assert(out@ =~= out0 + blank_gutter(cyan.spec_bytes(), width as nat));
    }
}

fn push_padded_number(out: &mut Vec<u8>, number: usize, width: usize)
    requires
        decimal(number as nat).len() <= width,
    ensures
        final(out)@ == old(out)@ + padded_number(number as nat, width as nat),
{
    let ghost out0 = out@;
    let digits = decimal_len(number);
    push_repeat(out, 32, width - digits);
    push_decimal(out, number);
    proof {
        assert(out@ =~= out0 + padded_number(number as nat, width as nat));
    }
}

fn push_numbered_line(out: &mut Vec<u8>, cyan: &str, number: usize, width: usize, line: &[u8])
    requires
        decimal(number as nat).len() <= width,
    ensures
        final(out)@ == old(out)@ + numbered_line(cyan.spec_bytes(), number as nat, width as nat, line@),
{
    let ghost out0 = out@;
    push_str(out, cyan);
    push_padded_number(out, number, width);
    push_str(out, " |");
    push_str(out, RESET_COLOR);
    push_str(out, "   ");
    push_bytes(out, line);
    push_str(out, "\n");
    proof {
        assert(out@ =~= out0 + numbered_line(cyan.spec_bytes(), number as nat, width as nat, line@));
    }
}

fn push_underline(out: &mut Vec<u8>, cyan: &str, width: usize, column: usize, color: &str, length: usize, message: &[u8])
    ensures
        final(out)@ == old(out)@ + underline(
            cyan.spec_bytes(),
            width as nat,
            column as nat,
            color.spec_bytes(),
            length as nat,
            message@,
        ),
{
    let ghost out0 = out@;
    push_str(out, cyan);
    push_repeat(out, 32, width);
    push_str(out, " |");
    push_str(out, RESET_COLOR);
    push_str(out, "   ");
    push_repeat(out, 32, column);
    push_str(out, color);
    push_repeat(out, 94, length);
    push_str(out, " ");
    push_bytes(out, message);
    push_str(out, RESET_COLOR);
    push_str(out, "\n");
    proof {
        assert(out@ =~= out0 + underline(
            cyan.spec_bytes(),
            width as nat,
            column as nat,
            color.spec_bytes(),
            length as nat,
            message@,
        ));
    }
}

fn push_start_marker(out: &mut Vec<u8>, cyan: &str, width: usize, column: usize, color: &str)
    ensures
        final(out)@ == old(out)@ + start_marker(cyan.spec_bytes(), width as nat, column as nat, color.spec_bytes()),
{
    let ghost out0 = out@;
    push_str(out, cyan);
    push_repeat(out, 32, width);
    push_str(out, " |");
    push_str(out, RESET_COLOR);
    push_str(out, "  ");
    push_str(out, color);
    push_str(out, "_");
    push_repeat(out, 95, column);
    push_str(out, "^");
    push_str(out, RESET_COLOR);
    push_str(out, "\n");
    proof {
        assert(out@ =~= out0 + start_marker(cyan.spec_bytes(), width as nat, column as nat, color.spec_bytes()));
    }
}

fn push_end_line(out: &mut Vec<u8>, cyan: &str, number: usize, width: usize, color: &str, line: &[u8])
    requires
        decimal(number as nat).len() <= width,
    ensures
        final(out)@ == old(out)@ + end_line(cyan.spec_bytes(), number as nat, width as nat, color.spec_bytes(), line@),
{
    let ghost out0 = out@;
    push_str(out, cyan);
    push_padded_number(out, number, width);
    push_str(out, " |");
    push_str(out, RESET_COLOR);
    push_str(out, " ");
    push_str(out, color);
    push_str(out, "|");
    push_str(out, RESET_COLOR);
    push_str(out, " ");
    push_bytes(out, line);
    push_str(out, "\n");
    proof {
        assert(out@ =~= out0 + end_line(cyan.spec_bytes(), number as nat, width as nat, color.spec_bytes(), line@));
    }
}

fn push_end_marker(out: &mut Vec<u8>, cyan: &str, width: usize, column: usize, color: &str, message: &[u8])
    ensures
        final(out)@ == old(out)@ + end_marker(cyan.spec_bytes(), width as nat, column as nat, color.spec_bytes(), message@),
{
    let ghost out0 = out@;
    push_repeat(out, 32, width);
    push_str(out, " ");
    push_str(out, cyan);
    push_str(out, "|");
    push_str(out, RESET_COLOR);
    push_str(out, " ");
    push_str(out, color);
    push_str(out, "|_");
    push_repeat(out, 95, column);
    push_str(out, "^ ");
    push_bytes(out, message);
    push_str(out, RESET_COLOR);
    push_str(out, "\n");
    proof {
        assert(out@ =~= out0 + end_marker(cyan.spec_bytes(), width as nat, column as nat, color.spec_bytes(), message@));
    }
}

/// Appends the lines that show `span` of `source` with `message`.
#[verifier::spinoff_prover]
#[verifier::rlimit(50)]
pub fn push_span(out: &mut Vec<u8>, source: &[u8], span: Span, message: &[u8], color: &str, cyan: &str)
    requires
        renderable(source@, span),
    ensures
        final(out)@ == old(out)@ + span_text(source@, span, message@, color.spec_bytes(), cyan.spec_bytes()),
{
    let ghost out0 = out@;
    let start = Position::from_source(source, span.start());
    let end = Position::from_source(source, span.end());
    let a = decimal_len(start.line_number);
    let b = decimal_len(end.line_number);
    let width = if a >= b {
        a
    } else {
        b
    };
    let ghost cy = cyan.spec_bytes();
    let ghost co = color.spec_bytes();
    let ghost w = width as nat;
    let ghost p1 = blank_gutter(cy, w);
    let ghost p2 = numbered_line(
        cy,
        start.line_number as nat,
        w,
        source@.subrange(start.line_start as int, start.line_end as int),
    );
    push_blank_gutter(out, cyan, width);
    push_numbered_line(out, cyan, start.line_number, width, &source[start.line_start..start.line_end]);
    let ghost rest;
    if start.line_number == end.line_number {
        let length = if end.column - start.column >= 1 {
            end.column - start.column
        } else {
            1
        };
        push_underline(out, cyan, width, start.column, color, length, message);
        proof {
            rest = underline(cy, w, start.column as nat, co, length as nat, message@);
        }
    } else {
        push_start_marker(out, cyan, width, start.column, color);
        push_end_line(out, cyan, end.line_number, width, color, &source[end.line_start..end.line_end]);
        push_end_marker(out, cyan, width, end.column, color, message);
        proof {
            rest = start_marker(cy, w, start.column as nat, co) + end_line(
                cy,
                end.line_number as nat,
                w,
                co,
                source@.subrange(end.line_start as int, end.line_end as int),
            ) + end_marker(cy, w, end.column as nat, co, message@);
        }
    }
    proof {
        assert(out@ =~= out0 + (p1 + p2 + rest));
        span_text_parts(source@, span, message@, co, cy, start, end, w, rest);
    }
}

proof fn span_text_parts(
    source: Seq<u8>,
    span: Span,
    message: Seq<u8>,
    color: Seq<u8>,
    cyan: Seq<u8>,
    start: Position,
    end: Position,
    width: nat,
    rest: Seq<u8>,
)
    requires
        start == spec_position(source, span.spec_start() as int),
        end == spec_position(source, span.spec_end() as int),
        width == gutter_width(start.line_number as nat, end.line_number as nat),
        rest == if start.line_number == end.line_number {
            let length = if end.column - start.column >= 1 {
                (end.column - start.column) as nat
            } else {
                1nat
            };
            underline(cyan, width, start.column as nat, color, length, message)
        } else {
            start_marker(cyan, width, start.column as nat, color) + end_line(
                cyan,
                end.line_number as nat,
                width,
                color,
                source.subrange(end.line_start as int, end.line_end as int),
            ) + end_marker(cyan, width, end.column as nat, color, message)
        },
    ensures
        span_text(source, span, message, color, cyan) == blank_gutter(cyan, width) + numbered_line(
            cyan,
            start.line_number as nat,
            width,
            source.subrange(start.line_start as int, start.line_end as int),
        ) + rest,
{
}

/// Writes diagnostics about a source text, as bytes.
pub struct Formatter<'a> {
    source: &'a [u8],
    out: Vec<u8>,
}

impl<'a> Formatter<'a> {
    /// What has been written so far.
    pub closed spec fn text(&self) -> Seq<u8> {
        self.out@
    }

    pub closed spec fn spec_source(&self) -> Seq<u8> {
        self.source@
    }

    pub fn new(source: &'a [u8]) -> (r: Self)
        ensures
            r.text() == Seq::<u8>::empty(),
            r.spec_source() == source@,
    {
        Formatter { source, out: Vec::new() }
    }

    /// The source text that spans point into.
    pub fn source(&self) -> (r: &'a [u8])
        ensures
            r@ == self.spec_source(),
    {
        self.source
    }

    /// What has been written so far.
    pub fn output(&self) -> (r: &[u8])
        ensures
            r@ == self.text(),
    {
        self.out.as_slice()
    }

    /// Writes an error headline.
    pub fn error(&mut self, message: &[u8])
        ensures
            final(self).spec_source() == old(self).spec_source(),
            final(self).text() == old(self).text() + emit_text(
                message@,
                "error".spec_bytes(),
                BRIGHT_RED.spec_bytes(),
            ),
    {
        self.emit(message, "error", BRIGHT_RED);
    }

    /// Writes a warning headline.
    pub fn warn(&mut self, message: &[u8])
        ensures
            final(self).spec_source() == old(self).spec_source(),
            final(self).text() == old(self).text() + emit_text(
                message@,
                "warning".spec_bytes(),
                BRIGHT_YELLOW.spec_bytes(),
            ),
    {
        self.emit(message, "warning", BRIGHT_YELLOW);
    }

    /// Writes a help headline.
    pub fn help(&mut self, message: &[u8])
        ensures
            final(self).spec_source() == old(self).spec_source(),
            final(self).text() == old(self).text() + emit_text(
                message@,
                "help".spec_bytes(),
                BRIGHT_CYAN.spec_bytes(),
            ),
    {
        self.emit(message, "help", BRIGHT_CYAN);
    }

    fn emit(&mut self, message: &[u8], prefix: &str, color: &str)
        ensures
            final(self).spec_source() == old(self).spec_source(),
            final(self).text() == old(self).text() + emit_text(
                message@,
                prefix.spec_bytes(),
                color.spec_bytes(),
            ),
    {
        emit(&mut self.out, message, prefix, color);
    }

    /// Shows `span`, underlined in red, with `message`.
    pub fn span_error(&mut self, span: Span, message: &[u8])
        requires
            renderable(old(self).spec_source(), span),
        ensures
            final(self).spec_source() == old(self).spec_source(),
            final(self).text() == old(self).text() + span_text(
                old(self).spec_source(),
                span,
                message@,
                BRIGHT_RED.spec_bytes(),
                BRIGHT_CYAN.spec_bytes(),
            ),
    {
        self.span_colored(span, message, BRIGHT_RED);
    }

    /// Shows `span`, underlined in yellow, with `message`.
    pub fn span_warn(&mut self, span: Span, message: &[u8])
        requires
            renderable(old(self).spec_source(), span),
        ensures
            final(self).spec_source() == old(self).spec_source(),
            final(self).text() == old(self).text() + span_text(
                old(self).spec_source(),
                span,
                message@,
                BRIGHT_YELLOW.spec_bytes(),
                BRIGHT_CYAN.spec_bytes(),
            ),
    {
        self.span_colored(span, message, BRIGHT_YELLOW);
    }

    /// Shows `span`, underlined in cyan, with `message`.
    pub fn span_help(&mut self, span: Span, message: &[u8])
        requires
            renderable(old(self).spec_source(), span),
        ensures
            final(self).spec_source() == old(self).spec_source(),
            final(self).text() == old(self).text() + span_text(
                old(self).spec_source(),
                span,
                message@,
                BRIGHT_CYAN.spec_bytes(),
                BRIGHT_CYAN.spec_bytes(),
            ),
    {
        self.span_colored(span, message, BRIGHT_CYAN);
    }

    fn span_colored(&mut self, span: Span, message: &[u8], color: &str)
        requires
            renderable(old(self).spec_source(), span),
        ensures
            final(self).spec_source() == old(self).spec_source(),
            final(self).text() == old(self).text() + span_text(
                old(self).spec_source(),
                span,
                message@,
                color.spec_bytes(),
                BRIGHT_CYAN.spec_bytes(),
            ),
    {
        push_span(&mut self.out, self.source, span, message, color, BRIGHT_CYAN);
    }
}

/// Something that can report itself about a source text.
pub trait Diagnostic {
    /// Every span that the report shows can be shown.
    spec fn spec_renderable(&self, source: Seq<u8>) -> bool;

    /// What the report writes.
    spec fn spec_render(&self, source: Seq<u8>) -> Seq<u8>;

    /// Whether every span that the report shows can be shown in `source`.
    fn can_render(&self, source: &[u8]) -> (r: bool)
        ensures
            r == self.spec_renderable(source@),
    ;

    fn fmt(&self, f: &mut Formatter)
        requires
            self.spec_renderable(old(f).spec_source()),
        ensures
            final(f).spec_source() == old(f).spec_source(),
            final(f).text() == old(f).text() + self.spec_render(old(f).spec_source()),
    ;
}

} // verus!
