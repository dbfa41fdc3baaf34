use vstd::prelude::*;

verus! {

/// `0`..=`9`
pub open spec fn is_digit(c: u8) -> bool {
    48 <= c <= 57
}

/// `_`, `a`..=`z` or `A`..=`Z`: a byte that may begin an identifier.
pub open spec fn is_ident_start(c: u8) -> bool {
    c == 95 || (97 <= c <= 122) || (65 <= c <= 90)
}

/// A byte that may continue an identifier.
pub open spec fn is_ident_continue(c: u8) -> bool {
    is_ident_start(c) || is_digit(c)
}

/// The first index at or after `i` that does not hold a digit.
pub open spec fn skip_digits(src: Seq<u8>, i: int) -> int
    decreases src.len() - i,
{
    if 0 <= i < src.len() && is_digit(src[i]) {
        skip_digits(src, i + 1)
    } else {
        i
    }
}

/// The first index at or after `i` that does not hold an identifier byte.
pub open spec fn skip_ident(src: Seq<u8>, i: int) -> int
    decreases src.len() - i,
{
    if 0 <= i < src.len() && is_ident_continue(src[i]) {
        skip_ident(src, i + 1)
    } else {
        i
    }
}

/// The index just past the first newline at or after `i`, or the end.
pub open spec fn skip_line(src: Seq<u8>, i: int) -> int
    decreases src.len() - i,
{
    if 0 <= i < src.len() {
        if src[i] == 10 {
            i + 1
        } else {
            skip_line(src, i + 1)
        }
    } else {
        i
    }
}

/// The end of a block comment whose body starts at `i` at nesting `depth`,
/// or `None` when the source ends first.
pub open spec fn block_comment_end(src: Seq<u8>, i: int, depth: nat) -> Option<int>
    decreases src.len() - i,
{
    if 0 <= i < src.len() {
        if src[i] == 47 && i + 1 < src.len() && src[i + 1] == 42 {
            block_comment_end(src, i + 2, depth + 1)
        } else if src[i] == 42 && i + 1 < src.len() && src[i + 1] == 47 {
            if depth <= 1 {
                Some(i + 2)
            } else {
                block_comment_end(src, i + 2, (depth - 1) as nat)
            }
        } else {
            block_comment_end(src, i + 1, depth)
        }
    } else {
        None
    }
}

/// The end of a number literal whose first digit is at `start`.
pub open spec fn number_end(src: Seq<u8>, start: int) -> int {
    let a = skip_digits(src, start + 1);
    if a + 1 < src.len() && src[a] == 46 && is_digit(src[a + 1]) {
        skip_digits(src, a + 1)
    } else {
        a
    }
}

/// The index just past the first `"` at or after `i`, if there is one.
pub open spec fn closing_quote(src: Seq<u8>, i: int) -> Option<int>
    decreases src.len() - i,
{
    if 0 <= i < src.len() {
        if src[i] == 34 {
            Some(i + 1)
        } else {
            closing_quote(src, i + 1)
        }
    } else {
        None
    }
}

pub proof fn lemma_skip_digits(src: Seq<u8>, i: int)
    requires
        0 <= i <= src.len(),
    ensures
        i <= skip_digits(src, i) <= src.len(),
        forall|j: int| i <= j < skip_digits(src, i) ==> is_digit(#[trigger] src[j]),
        skip_digits(src, i) < src.len() ==> !is_digit(src[skip_digits(src, i)]),
    decreases src.len() - i,
{
    if i < src.len() && is_digit(src[i]) {
        lemma_skip_digits(src, i + 1);
    }
}

pub proof fn lemma_skip_ident(src: Seq<u8>, i: int)
    requires
        0 <= i <= src.len(),
    ensures
        i <= skip_ident(src, i) <= src.len(),
        forall|j: int| i <= j < skip_ident(src, i) ==> is_ident_continue(#[trigger] src[j]),
    decreases src.len() - i,
{
    if i < src.len() && is_ident_continue(src[i]) {
        lemma_skip_ident(src, i + 1);
    }
}

pub proof fn lemma_skip_line(src: Seq<u8>, i: int)
    requires
        0 <= i <= src.len(),
    ensures
        i <= skip_line(src, i) <= src.len(),
    decreases src.len() - i,
{
    if i < src.len() && src[i] != 10 {
        lemma_skip_line(src, i + 1);
    }
}

pub proof fn lemma_block_comment_end(src: Seq<u8>, i: int, depth: nat)
    requires
        0 <= i <= src.len(),
    ensures
        block_comment_end(src, i, depth) matches Some(e) ==> i < e <= src.len(),
    decreases src.len() - i,
{
    if i < src.len() {
        if src[i] == 47 && i + 1 < src.len() && src[i + 1] == 42 {
            lemma_block_comment_end(src, i + 2, depth + 1);
        } else if src[i] == 42 && i + 1 < src.len() && src[i + 1] == 47 {
            if depth > 1 {
                lemma_block_comment_end(src, i + 2, (depth - 1) as nat);
            }
        } else {
            lemma_block_comment_end(src, i + 1, depth);
        }
    }
}

pub proof fn lemma_closing_quote(src: Seq<u8>, i: int)
    requires
        0 <= i <= src.len(),
    ensures
        closing_quote(src, i) matches Some(e) ==> i < e <= src.len() && src[e - 1] == 34,
    decreases src.len() - i,
{
    if i < src.len() && src[i] != 34 {
        lemma_closing_quote(src, i + 1);
    }
}

pub proof fn lemma_number_end(src: Seq<u8>, start: int)
    requires
        0 <= start < src.len(),
    ensures
        start < number_end(src, start) <= src.len(),
{
    lemma_skip_digits(src, start + 1);
    let a = skip_digits(src, start + 1);
    if a + 1 < src.len() && src[a] == 46 && is_digit(src[a + 1]) {
        lemma_skip_digits(src, a + 1);
    }
}

} // verus!
