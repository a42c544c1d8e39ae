//! The lexical layer of the source syntax: whitespace and comments, names,
//! labels and single bytes of punctuation, on a text given as bytes.

use vstd::prelude::*;
use vstd::slice::slice_subrange;

verus! {

pub const TAB: u8 = 9;

pub const NEWLINE: u8 = 10;

pub const CARRIAGE_RETURN: u8 = 13;

pub const SPACE: u8 = 32;

pub const HASH: u8 = 35;

pub const DOLLAR: u8 = 36;

pub const LEFT_PAREN: u8 = 40;

pub const RIGHT_PAREN: u8 = 41;

pub const SLASH: u8 = 47;

pub const DIGIT_0: u8 = 48;

pub const DIGIT_9: u8 = 57;

pub const SEMICOLON: u8 = 59;

pub const EQUALS: u8 = 61;

pub const AT: u8 = 64;

pub const UPPER_A: u8 = 65;

pub const UPPER_Z: u8 = 90;

pub const UNDERSCORE: u8 = 95;

pub const LOWER_A: u8 = 97;

pub const LOWER_Z: u8 = 122;

pub const LEFT_BRACE: u8 = 123;

pub const RIGHT_BRACE: u8 = 125;

/// The first byte of `λ` in UTF-8.
pub const LAMBDA_0: u8 = 206;

/// The second byte of `λ` in UTF-8.
pub const LAMBDA_1: u8 = 187;

/// What the parser looked for where it gave up.
#[derive(Debug, Clone, Copy, PartialEq, Eq, Structural)]
pub enum Expected {
    /// A term.
    Term,
    /// A name.
    Name,
    /// This byte of punctuation.
    Byte(u8),
    /// The digits of a label that fits 64 bits.
    Label,
}

/// A text that is no term, with the place where the parser gave up.
#[derive(Debug, Clone, Copy, PartialEq, Eq, Structural)]
pub struct ParseError {
    pub position: usize,
    pub expected: Expected,
}

/// Space, tab, line feed, vertical tab, form feed, carriage return.
pub open spec fn is_space(b: u8) -> bool {
    b == SPACE || (TAB <= b && b <= CARRIAGE_RETURN)
}

/// `[_a-z$]`
pub open spec fn is_name_head(b: u8) -> bool {
    b == UNDERSCORE || b == DOLLAR || (LOWER_A <= b && b <= LOWER_Z)
}

/// `[_a-zA-Z0-9]`
pub open spec fn is_name_tail(b: u8) -> bool {
    b == UNDERSCORE || (LOWER_A <= b && b <= LOWER_Z) || (UPPER_A <= b && b <= UPPER_Z) || (DIGIT_0
        <= b && b <= DIGIT_9)
}

/// `[0-9]`
pub open spec fn is_digit(b: u8) -> bool {
    DIGIT_0 <= b && b <= DIGIT_9
}

/// The end of the line that `i` is in: the place of the next line feed, or
/// the end of the text.
pub open spec fn line_end(code: Seq<u8>, i: int) -> int
    decreases code.len() - i,
{
    if 0 <= i < code.len() && code[i] != NEWLINE {
        line_end(code, i + 1)
    } else {
        i
    }
}

pub proof fn lemma_line_end(code: Seq<u8>, i: int)
    requires
        0 <= i <= code.len(),
    ensures
        i <= line_end(code, i) <= code.len(),
    decreases code.len() - i,
{
    if i < code.len() && code[i] != NEWLINE {
        lemma_line_end(code, i + 1);
    }
}

/// A comment starts at `i`: two slashes.
pub open spec fn comment_at(code: Seq<u8>, i: int) -> bool {
    0 <= i && i + 1 < code.len() && code[i] == SLASH && code[i + 1] == SLASH
}

/// The place after the whitespace and the comments that start at `i`. A
/// comment goes from two slashes to the end of the line.
pub open spec fn skip(code: Seq<u8>, i: int) -> int
    decreases code.len() - i,
{
    if 0 <= i < code.len() && is_space(code[i]) {
        skip(code, i + 1)
    } else if comment_at(code, i) {
        proof {
            lemma_line_end(code, i + 2);
        }
        skip(code, line_end(code, i + 2))
    } else {
        i
    }
}

pub proof fn lemma_skip(code: Seq<u8>, i: int)
    requires
        0 <= i <= code.len(),
    ensures
        i <= skip(code, i) <= code.len(),
        skip(code, skip(code, i)) == skip(code, i),
        skip(code, i) < code.len() ==> !is_space(code[skip(code, i)]) && !comment_at(
            code,
            skip(code, i),
        ),
    decreases code.len() - i,
{
    if i < code.len() && is_space(code[i]) {
        lemma_skip(code, i + 1);
    } else if comment_at(code, i) {
        lemma_line_end(code, i + 2);
        lemma_skip(code, line_end(code, i + 2));
    }
}

/// The end of the run of name bytes that starts at `i`.
pub open spec fn name_end(code: Seq<u8>, i: int) -> int
    decreases code.len() - i,
{
    if 0 <= i < code.len() && is_name_tail(code[i]) {
        name_end(code, i + 1)
    } else {
        i
    }
}

pub proof fn lemma_name_end(code: Seq<u8>, i: int)
    requires
        0 <= i <= code.len(),
    ensures
        i <= name_end(code, i) <= code.len(),
    decreases code.len() - i,
{
    if i < code.len() && is_name_tail(code[i]) {
        lemma_name_end(code, i + 1);
    }
}

/// The end of the run of digits that starts at `i`.
pub open spec fn digits_end(code: Seq<u8>, i: int) -> int
    decreases code.len() - i,
{
    if 0 <= i < code.len() && is_digit(code[i]) {
        digits_end(code, i + 1)
    } else {
        i
    }
}

pub proof fn lemma_digits_end(code: Seq<u8>, i: int)
    requires
        0 <= i <= code.len(),
    ensures
        i <= digits_end(code, i) <= code.len(),
    decreases code.len() - i,
{
    if i < code.len() && is_digit(code[i]) {
        lemma_digits_end(code, i + 1);
    }
}

/// The number that the decimal digits spell.
pub open spec fn number(digits: Seq<u8>) -> nat
    decreases digits.len(),
{
    if digits.len() == 0 {
        0
    } else {
        (number(digits.drop_last()) * 10 + (digits.last() - DIGIT_0)) as nat
    }
}

/// The name that starts at `i`, after whitespace and comments, with the
/// place after it: a byte of `[_a-z$]` and a run of `[_a-zA-Z0-9]`.
pub open spec fn name_at(code: Seq<u8>, i: int) -> Result<(Seq<u8>, int), ParseError> {
    let j = skip(code, i);
    if 0 <= j < code.len() && is_name_head(code[j]) {
        Ok((code.subrange(j, name_end(code, j + 1)), name_end(code, j + 1)))
    } else {
        Err(ParseError { position: j as usize, expected: Expected::Name })
    }
}

/// The place after the byte `b`, which stands at `i` after whitespace and
/// comments.
pub open spec fn byte_at(code: Seq<u8>, i: int, b: u8) -> Result<int, ParseError> {
    let j = skip(code, i);
    if 0 <= j < code.len() && code[j] == b {
        Ok(j + 1)
    } else {
        Err(ParseError { position: j as usize, expected: Expected::Byte(b) })
    }
}

/// The label that starts at `i`, after whitespace and comments, with the
/// place after it: `#` and decimal digits right behind it.
pub open spec fn label_at(code: Seq<u8>, i: int) -> Result<(u64, int), ParseError> {
    match byte_at(code, i, HASH) {
        Err(e) => Err(e),
        Ok(j) => {
            let k = digits_end(code, j);
            if k == j || number(code.subrange(j, k)) > u64::MAX {
                Err(ParseError { position: j as usize, expected: Expected::Label })
            } else {
                Ok((number(code.subrange(j, k)) as u64, k))
            }
        },
    }
}

/// The place after the whitespace and comments that start at `i`.
pub fn skip_from(code: &[u8], i: usize) -> (j: usize)
    requires
        i <= code@.len(),
    ensures
        j == skip(code@, i as int),
        i <= j <= code@.len(),
{
    let mut j = i;
    loop
        invariant
            i <= j <= code@.len(),
            skip(code@, j as int) == skip(code@, i as int),
        decreases code@.len() - j,
    {
        if j < code.len() && (code[j] == SPACE || (TAB <= code[j] && code[j] <= CARRIAGE_RETURN)) {
            j += 1;
        } else if j < code.len() && j + 1 < code.len() && code[j] == SLASH && code[j + 1] == SLASH {
            let mut k = j + 2;
            while k < code.len() && code[k] != NEWLINE
                invariant
                    j + 2 <= k <= code@.len(),
                    line_end(code@, k as int) == line_end(code@, j + 2),
                decreases code@.len() - k,
            {
                k += 1;
            }
            j = k;
        } else {
            return j;
        }
    }
}

/// The name that starts at `i`, after whitespace and comments: where it
/// starts and where it ends.
pub fn name_from(code: &[u8], i: usize) -> (r: Result<(usize, usize), ParseError>)
    requires
        i <= code@.len(),
    ensures
        match r {
            Ok((start, end)) => start == skip(code@, i as int) && i <= start < end
                <= code@.len()
                && name_at(code@, i as int) == Ok::<(Seq<u8>, int), ParseError>(
                (code@.subrange(start as int, end as int), end as int),
            ),
            Err(e) => name_at(code@, i as int) == Err::<(Seq<u8>, int), ParseError>(e),
        },
{
    let j = skip_from(code, i);
    if j < code.len() && (code[j] == UNDERSCORE || code[j] == DOLLAR || (LOWER_A <= code[j]
        && code[j] <= LOWER_Z)) {
        let mut k = j + 1;
        while k < code.len() && (code[k] == UNDERSCORE || (LOWER_A <= code[k] && code[k]
            <= LOWER_Z) || (UPPER_A <= code[k] && code[k] <= UPPER_Z) || (DIGIT_0 <= code[k]
            && code[k] <= DIGIT_9))
            invariant
                j + 1 <= k <= code@.len(),
                name_end(code@, k as int) == name_end(code@, j + 1),
            decreases code@.len() - k,
        {
            k += 1;
        }
        Ok((j, k))
    } else {
        Err(ParseError { position: j, expected: Expected::Name })
    }
}

/// The place after the byte `b`, which stands at `i` after whitespace and
/// comments.
pub fn byte_from(code: &[u8], i: usize, b: u8) -> (r: Result<usize, ParseError>)
    requires
        i <= code@.len(),
    ensures
        match r {
            Ok(j) => byte_at(code@, i as int, b) == Ok::<int, ParseError>(j as int) && i < j
                <= code@.len() && j == skip(code@, i as int) + 1,
            Err(e) => byte_at(code@, i as int, b) == Err::<int, ParseError>(e),
        },
{
    let j = skip_from(code, i);
    if j < code.len() && code[j] == b {
        Ok(j + 1)
    } else {
        Err(ParseError { position: j, expected: Expected::Byte(b) })
    }
}

/// The number spelt by the digits that start at `i`, with the place after
/// them; `None` where the number does not fit 64 bits.
pub fn number_from(code: &[u8], i: usize) -> (r: (Option<u64>, usize))
    requires
        i <= code@.len(),
    ensures
        r.1 == digits_end(code@, i as int),
        i <= r.1 <= code@.len(),
        match r.0 {
            Some(n) => n == number(code@.subrange(i as int, r.1 as int)),
            None => number(code@.subrange(i as int, r.1 as int)) > u64::MAX,
        },
{
    let mut k = i;
    let mut acc: Option<u64> = Some(0);
    while k < code.len() && DIGIT_0 <= code[k] && code[k] <= DIGIT_9
        invariant
            i <= k <= code@.len(),
            digits_end(code@, k as int) == digits_end(code@, i as int),
            forall|j: int| i <= j < k ==> is_digit(#[trigger] code@[j]),
            match acc {
                Some(n) => n == number(code@.subrange(i as int, k as int)),
                None => number(code@.subrange(i as int, k as int)) > u64::MAX,
            },
        decreases code@.len() - k,
    {
        let d: u64 = (code[k] - DIGIT_0) as u64;
        proof {
            let more = code@.subrange(i as int, k + 1);
            assert(more.drop_last() =~= code@.subrange(i as int, k as int));
            assert(more.last() == code@[k as int]);
        }
        acc = match acc {
            None => None,
            Some(n) => match n.checked_mul(10) {
                None => None,
                Some(m) => m.checked_add(d),
            },
        };
        k += 1;
    }
    (acc, k)
}

/// The label that starts at `i`, after whitespace and comments, with the
/// place after it.
pub fn label_from(code: &[u8], i: usize) -> (r: Result<(u64, usize), ParseError>)
    requires
        i <= code@.len(),
    ensures
        match r {
            Ok((l, k)) => label_at(code@, i as int) == Ok::<(u64, int), ParseError>((l, k as int))
                && i < k <= code@.len(),
            Err(e) => label_at(code@, i as int) == Err::<(u64, int), ParseError>(e),
        },
{
    match byte_from(code, i, HASH) {
        Err(e) => Err(e),
        Ok(j) => {
            let (n, k) = number_from(code, j);
            match n {
                Some(l) => if k == j {
                    Err(ParseError { position: j, expected: Expected::Label })
                } else {
                    Ok((l, k))
                },
                None => Err(ParseError { position: j, expected: Expected::Label }),
            }
        },
    }
}

/// The bytes of `code` from `start` to `end`.
pub fn piece(code: &[u8], start: usize, end: usize) -> (out: &[u8])
    requires
        start <= end <= code@.len(),
    ensures
        out@ == code@.subrange(start as int, end as int),
{
    slice_subrange(code, start, end)
}

} // verus!
