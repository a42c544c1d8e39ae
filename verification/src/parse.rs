//! The parser of the source syntax.
//!
//! ```text
//! term := let | dup | lam | app | sup | var
//! let  := "let" ws name "=" term ";" term
//! dup  := "dup" ws "#" u64 "{" name name "}" "=" term ";" term
//! lam  := ("λ" | "@") name term
//! app  := "(" term+ ")"
//! sup  := "#" u64 "{" term term "}"
//! var  := name
//! ```
//!
//! Whitespace and comments may stand before every token. The terms of an
//! `app` nest to the left: `(a b c)` is `((a b) c)`, and `(a)` is `a`.

use vstd::prelude::*;
use crate::intern::{IStr, Interner};
use crate::lex::{
    byte_at, byte_from, label_at, label_from, lemma_digits_end, lemma_name_end, lemma_skip,
    name_at, name_from, piece, skip, skip_from, Expected, ParseError, AT, EQUALS, HASH,
    LAMBDA_0, LAMBDA_1, LEFT_BRACE, LEFT_PAREN, RIGHT_BRACE, RIGHT_PAREN, SEMICOLON,
};
use crate::syntax::{extends, lemma_ast_extends, Ast, Term};

verus! {

/// A place in a text.
#[derive(Debug, Clone, Copy)]
pub struct State<'a> {
    pub code: &'a [u8],
    pub index: usize,
}

/// What a parser answers: where it got to and what it read, or why it gave
/// up.
pub type Answer<'a, A> = Result<(State<'a>, A), ParseError>;

impl<'a> State<'a> {
    /// The start of `code`.
    pub fn new(code: &'a [u8]) -> (state: State<'a>)
        ensures
            state.code@ == code@,
            state.index == 0,
    {
        State { code, index: 0 }
    }
}

/// The three bytes `w0 w1 w2` stand at `j`, and whitespace or a comment
/// behind them.
pub open spec fn keyword_at(code: Seq<u8>, j: int, w0: u8, w1: u8, w2: u8) -> bool {
    &&& 0 <= j
    &&& j + 3 <= code.len()
    &&& code[j] == w0
    &&& code[j + 1] == w1
    &&& code[j + 2] == w2
    &&& skip(code, j + 3) > j + 3
}

/// The length of the sign of a `lam` at `j`: two bytes of `λ`, one of `@`,
/// or none.
pub open spec fn lam_sign(code: Seq<u8>, j: int) -> int {
    if 0 <= j && j + 1 < code.len() && code[j] == LAMBDA_0 && code[j + 1] == LAMBDA_1 {
        2
    } else if 0 <= j < code.len() && code[j] == AT {
        1
    } else {
        0
    }
}

/// What the lexical layer reads at a place of the text is behind that place
/// and within the text.
pub proof fn lemma_lex(code: Seq<u8>, i: int)
    requires
        0 <= i <= code.len(),
    ensures
        i <= skip(code, i) <= code.len(),
        name_at(code, i) is Ok ==> i < name_at(code, i)->Ok_0.1 <= code.len(),
        forall|b: u8| #[trigger]
            byte_at(code, i, b) is Ok ==> i < byte_at(code, i, b)->Ok_0 <= code.len(),
        label_at(code, i) is Ok ==> i < label_at(code, i)->Ok_0.1 <= code.len(),
{
    lemma_skip(code, i);
    let j = skip(code, i);
    if j < code.len() {
        lemma_name_end(code, j + 1);
        lemma_digits_end(code, j + 1);
    }
}

// The grammar is a family of functions that call one another; each call is
// made at a place further on in the text. Where a call follows a term that
// was read, the place behind that term is tested to lie further on, so that
// the family is seen to end; `lemma_term_progress` shows that the test
// always holds.

/// `let x = e; body` at `i`: nothing where no `let` stands there.
pub open spec fn let_at(code: Seq<u8>, i: int) -> Result<Option<(Ast, int)>, ParseError>
    decreases code.len() - i, 1int,
    when 0 <= i <= code.len()
{
    let j = skip(code, i);
    if !keyword_at(code, j, 108, 101, 116) {
        Ok(None)
    } else {
        match name_at(code, j + 3) {
            Err(e) => Err(e),
            Ok((x, k1)) => match byte_at(code, k1, EQUALS) {
                Err(e) => Err(e),
                Ok(k2) => {
                    proof {
                        lemma_lex(code, i);
                        lemma_lex(code, j + 3);
                        lemma_lex(code, k1);
                    }
                    match term_at(code, k2) {
                        Err(e) => Err(e),
                        Ok((e, k3)) => match byte_at(code, k3, SEMICOLON) {
                            Err(e) => Err(e),
                            Ok(k4) => if i < k4 <= code.len() {
                                match term_at(code, k4) {
                                    Err(e) => Err(e),
                                    Ok((body, k5)) => Ok(
                                        Some((Ast::Let(x, Box::new(e), Box::new(body)), k5)),
                                    ),
                                }
                            } else {
                                Ok(None)
                            },
                        },
                    }
                },
            },
        }
    }
}

/// `dup #l{a b} = e; body` at `i`: nothing where no `dup` stands there.
pub open spec fn dup_at(code: Seq<u8>, i: int) -> Result<Option<(Ast, int)>, ParseError>
    decreases code.len() - i, 1int,
    when 0 <= i <= code.len()
{
    let j = skip(code, i);
    if !keyword_at(code, j, 100, 117, 112) {
        Ok(None)
    } else {
        match label_at(code, j + 3) {
            Err(e) => Err(e),
            Ok((l, k1)) => match byte_at(code, k1, LEFT_BRACE) {
                Err(e) => Err(e),
                Ok(k2) => match name_at(code, k2) {
                    Err(e) => Err(e),
                    Ok((a, k3)) => match name_at(code, k3) {
                        Err(e) => Err(e),
                        Ok((b, k4)) => match byte_at(code, k4, RIGHT_BRACE) {
                            Err(e) => Err(e),
                            Ok(k5) => match byte_at(code, k5, EQUALS) {
                                Err(e) => Err(e),
                                Ok(k6) => {
                                    proof {
                                        lemma_lex(code, i);
                                        lemma_lex(code, j + 3);
                                        lemma_lex(code, k1);
                                        lemma_lex(code, k2);
                                        lemma_lex(code, k3);
                                        lemma_lex(code, k4);
                                        lemma_lex(code, k5);
                                    }
                                    match term_at(code, k6) {
                                        Err(e) => Err(e),
                                        Ok((e, k7)) => match byte_at(code, k7, SEMICOLON) {
                                            Err(e) => Err(e),
                                            Ok(k8) => if i < k8 <= code.len() {
                                                match term_at(code, k8) {
                                                    Err(e) => Err(e),
                                                    Ok((body, k9)) => Ok(
                                                        Some(
                                                            (
                                                                Ast::Dup(
                                                                    l,
                                                                    a,
                                                                    b,
                                                                    Box::new(e),
                                                                    Box::new(body),
                                                                ),
                                                                k9,
                                                            ),
                                                        ),
                                                    ),
                                                }
                                            } else {
                                                Ok(None)
                                            },
                                        },
                                    }
                                },
                            },
                        },
                    },
                },
            },
        }
    }
}

/// `λx body` or `@x body` at `i`: nothing where neither sign stands there.
pub open spec fn lam_at(code: Seq<u8>, i: int) -> Result<Option<(Ast, int)>, ParseError>
    decreases code.len() - i, 1int,
    when 0 <= i <= code.len()
{
    let j = skip(code, i);
    if lam_sign(code, j) == 0 {
        Ok(None)
    } else {
        match name_at(code, j + lam_sign(code, j)) {
            Err(e) => Err(e),
            Ok((x, k1)) => {
                proof {
                    lemma_lex(code, i);
                    lemma_lex(code, j + lam_sign(code, j));
                }
                match term_at(code, k1) {
                    Err(e) => Err(e),
                    Ok((body, k2)) => Ok(Some((Ast::Lam(x, Box::new(body)), k2))),
                }
            },
        }
    }
}

/// The terms of an `app` from `i` to its `)`, applied to `acc`.
pub open spec fn list_at(code: Seq<u8>, i: int, acc: Option<Ast>) -> Result<(Ast, int), ParseError>
    decreases code.len() - i, 3int,
    when 0 <= i <= code.len()
{
    let j = skip(code, i);
    if 0 <= j < code.len() && code[j] == RIGHT_PAREN {
        match acc {
            Some(t) => Ok((t, j + 1)),
            None => Err(ParseError { position: j as usize, expected: Expected::Term }),
        }
    } else {
        match term_at(code, i) {
            Err(e) => Err(e),
            Ok((t, k)) => if i < k <= code.len() {
                list_at(
                    code,
                    k,
                    Some(
                        match acc {
                            None => t,
                            Some(f) => Ast::App(Box::new(f), Box::new(t)),
                        },
                    ),
                )
            } else {
                Err(ParseError { position: j as usize, expected: Expected::Term })
            },
        }
    }
}

/// `(t1 t2 ...)` at `i`: nothing where no `(` stands there.
pub open spec fn app_at(code: Seq<u8>, i: int) -> Result<Option<(Ast, int)>, ParseError>
    decreases code.len() - i, 1int,
    when 0 <= i <= code.len()
{
    let j = skip(code, i);
    if !(0 <= j < code.len() && code[j] == LEFT_PAREN) {
        Ok(None)
    } else {
        proof {
            lemma_lex(code, i);
        }
        match list_at(code, j + 1, None) {
            Err(e) => Err(e),
            Ok(r) => Ok(Some(r)),
        }
    }
}

/// `#l{a b}` at `i`: nothing where no `#` stands there.
pub open spec fn sup_at(code: Seq<u8>, i: int) -> Result<Option<(Ast, int)>, ParseError>
    decreases code.len() - i, 1int,
    when 0 <= i <= code.len()
{
    let j = skip(code, i);
    if !(0 <= j < code.len() && code[j] == HASH) {
        Ok(None)
    } else {
        match label_at(code, i) {
            Err(e) => Err(e),
            Ok((l, k1)) => match byte_at(code, k1, LEFT_BRACE) {
                Err(e) => Err(e),
                Ok(k2) => {
                    proof {
                        lemma_lex(code, i);
                        lemma_lex(code, k1);
                    }
                    match term_at(code, k2) {
                        Err(e) => Err(e),
                        Ok((a, k3)) => if i < k3 <= code.len() {
                            match term_at(code, k3) {
                                Err(e) => Err(e),
                                Ok((b, k4)) => match byte_at(code, k4, RIGHT_BRACE) {
                                    Err(e) => Err(e),
                                    Ok(k5) => Ok(
                                        Some((Ast::Sup(l, Box::new(a), Box::new(b)), k5)),
                                    ),
                                },
                            }
                        } else {
                            Ok(None)
                        },
                    }
                },
            },
        }
    }
}

/// A variable at `i`: nothing where no name stands there.
pub open spec fn var_at(code: Seq<u8>, i: int) -> Result<Option<(Ast, int)>, ParseError> {
    match name_at(code, i) {
        Err(_) => Ok(None),
        Ok((x, k)) => Ok(Some((Ast::Var(x), k))),
    }
}

/// The term at `i` with the place after it: the first of `let`, `dup`,
/// `lam`, `app`, `sup` and `var` that stands there.
pub open spec fn term_at(code: Seq<u8>, i: int) -> Result<(Ast, int), ParseError>
    decreases code.len() - i, 2int,
    when 0 <= i <= code.len()
{
    match let_at(code, i) {
        Err(e) => Err(e),
        Ok(Some(r)) => Ok(r),
        Ok(None) => match dup_at(code, i) {
            Err(e) => Err(e),
            Ok(Some(r)) => Ok(r),
            Ok(None) => match lam_at(code, i) {
                Err(e) => Err(e),
                Ok(Some(r)) => Ok(r),
                Ok(None) => match app_at(code, i) {
                    Err(e) => Err(e),
                    Ok(Some(r)) => Ok(r),
                    Ok(None) => match sup_at(code, i) {
                        Err(e) => Err(e),
                        Ok(Some(r)) => Ok(r),
                        Ok(None) => match var_at(code, i) {
                            Err(e) => Err(e),
                            Ok(Some(r)) => Ok(r),
                            Ok(None) => Err(
                                ParseError {
                                    position: skip(code, i) as usize,
                                    expected: Expected::Term,
                                },
                            ),
                        },
                    },
                },
            },
        },
    }
}

/// The whole of `code` is one term, with whitespace and comments around it
/// at most.
pub open spec fn parse(code: Seq<u8>) -> Result<Ast, ParseError> {
    match term_at(code, 0) {
        Err(e) => Err(e),
        Ok((t, k)) => if skip(code, k) == code.len() {
            Ok(t)
        } else {
            Err(ParseError { position: skip(code, k) as usize, expected: Expected::Term })
        },
    }
}

/// A `let` that was read ends behind the place where it starts.
pub proof fn lemma_let_progress(code: Seq<u8>, i: int)
    requires
        0 <= i <= code.len(),
    ensures
        let_at(code, i) matches Ok(Some(r)) ==> i < r.1 <= code.len(),
    decreases code.len() - i, 1int,
{
    let j = skip(code, i);
    lemma_lex(code, i);
    if keyword_at(code, j, 108, 101, 116) {
        lemma_lex(code, j + 3);
        if let Ok((x, k1)) = name_at(code, j + 3) {
            lemma_lex(code, k1);
            if let Ok(k2) = byte_at(code, k1, EQUALS) {
                lemma_term_progress(code, k2);
                if let Ok((e, k3)) = term_at(code, k2) {
                    lemma_lex(code, k3);
                    if let Ok(k4) = byte_at(code, k3, SEMICOLON) {
                        lemma_term_progress(code, k4);
                    }
                }
            }
        }
    }
}

/// A `dup` that was read ends behind the place where it starts.
pub proof fn lemma_dup_progress(code: Seq<u8>, i: int)
    requires
        0 <= i <= code.len(),
    ensures
        dup_at(code, i) matches Ok(Some(r)) ==> i < r.1 <= code.len(),
    decreases code.len() - i, 1int,
{
    let j = skip(code, i);
    lemma_lex(code, i);
    if keyword_at(code, j, 100, 117, 112) {
        lemma_lex(code, j + 3);
        if let Ok((l, k1)) = label_at(code, j + 3) {
            lemma_lex(code, k1);
            if let Ok(k2) = byte_at(code, k1, LEFT_BRACE) {
                lemma_lex(code, k2);
                if let Ok((a, k3)) = name_at(code, k2) {
                    lemma_lex(code, k3);
                    if let Ok((b, k4)) = name_at(code, k3) {
                        lemma_lex(code, k4);
                        if let Ok(k5) = byte_at(code, k4, RIGHT_BRACE) {
                            lemma_lex(code, k5);
                            if let Ok(k6) = byte_at(code, k5, EQUALS) {
                                lemma_term_progress(code, k6);
                                if let Ok((e, k7)) = term_at(code, k6) {
                                    lemma_lex(code, k7);
                                    if let Ok(k8) = byte_at(code, k7, SEMICOLON) {
                                        lemma_term_progress(code, k8);
                                    }
                                }
                            }
                        }
                    }
                }
            }
        }
    }
}

/// A `lam` that was read ends behind the place where it starts.
pub proof fn lemma_lam_progress(code: Seq<u8>, i: int)
    requires
        0 <= i <= code.len(),
    ensures
        lam_at(code, i) matches Ok(Some(r)) ==> i < r.1 <= code.len(),
    decreases code.len() - i, 1int,
{
    let j = skip(code, i);
    lemma_lex(code, i);
    if lam_sign(code, j) != 0 {
        lemma_lex(code, j + lam_sign(code, j));
        if let Ok((x, k1)) = name_at(code, j + lam_sign(code, j)) {
            lemma_term_progress(code, k1);
        }
    }
}

/// The terms of an `app` that were read end behind the place where they
/// start.
pub proof fn lemma_list_progress(code: Seq<u8>, i: int, acc: Option<Ast>)
    requires
        0 <= i <= code.len(),
    ensures
        list_at(code, i, acc) matches Ok(r) ==> i < r.1 <= code.len(),
    decreases code.len() - i, 3int,
{
    let j = skip(code, i);
    lemma_lex(code, i);
    if !(j < code.len() && code[j] == RIGHT_PAREN) {
        lemma_term_progress(code, i);
        if let Ok((t, k)) = term_at(code, i) {
            lemma_list_progress(
                code,
                k,
                Some(
                    match acc {
                        None => t,
                        Some(f) => Ast::App(Box::new(f), Box::new(t)),
                    },
                ),
            );
        }
    }
}

/// An `app` that was read ends behind the place where it starts.
pub proof fn lemma_app_progress(code: Seq<u8>, i: int)
    requires
        0 <= i <= code.len(),
    ensures
        app_at(code, i) matches Ok(Some(r)) ==> i < r.1 <= code.len(),
    decreases code.len() - i, 1int,
{
    let j = skip(code, i);
    lemma_lex(code, i);
    if j < code.len() && code[j] == LEFT_PAREN {
        lemma_list_progress(code, j + 1, None);
    }
}

/// A `sup` that was read ends behind the place where it starts.
pub proof fn lemma_sup_progress(code: Seq<u8>, i: int)
    requires
        0 <= i <= code.len(),
    ensures
        sup_at(code, i) matches Ok(Some(r)) ==> i < r.1 <= code.len(),
    decreases code.len() - i, 1int,
{
    let j = skip(code, i);
    lemma_lex(code, i);
    if j < code.len() && code[j] == HASH {
        if let Ok((l, k1)) = label_at(code, i) {
            lemma_lex(code, k1);
            if let Ok(k2) = byte_at(code, k1, LEFT_BRACE) {
                lemma_term_progress(code, k2);
                if let Ok((a, k3)) = term_at(code, k2) {
                    lemma_term_progress(code, k3);
                    if let Ok((b, k4)) = term_at(code, k3) {
                        lemma_lex(code, k4);
                    }
                }
            }
        }
    }
}

/// A term that was read ends behind the place where it starts.
pub proof fn lemma_term_progress(code: Seq<u8>, i: int)
    requires
        0 <= i <= code.len(),
    ensures
        term_at(code, i) matches Ok(r) ==> i < r.1 <= code.len(),
    decreases code.len() - i, 2int,
{
    lemma_lex(code, i);
    lemma_let_progress(code, i);
    lemma_dup_progress(code, i);
    lemma_lam_progress(code, i);
    lemma_app_progress(code, i);
    lemma_sup_progress(code, i);
}

/// `r` is the answer that the grammar gives where it may find nothing:
/// the term reads as the grammar says, in the names of `names`.
pub open spec fn answers_opt(
    r: Answer<Option<Box<Term>>>,
    want: Result<Option<(Ast, int)>, ParseError>,
    state: State,
    names: Seq<Seq<u8>>,
) -> bool {
    match r {
        Ok((st, Some(t))) => {
            &&& st.code@ == state.code@
            &&& state.index < st.index <= state.code@.len()
            &&& t.known(names)
            &&& want == Ok::<Option<(Ast, int)>, ParseError>(Some((t.ast(names), st.index as int)))
        },
        Ok((st, None)) => {
            &&& st.code@ == state.code@
            &&& st.index == skip(state.code@, state.index as int)
            &&& want == Ok::<Option<(Ast, int)>, ParseError>(None)
        },
        Err(e) => want == Err::<Option<(Ast, int)>, ParseError>(e),
    }
}

/// `r` is the answer that the grammar gives: the term reads as the grammar
/// says, in the names of `names`.
pub open spec fn answers(
    r: Answer<Box<Term>>,
    want: Result<(Ast, int), ParseError>,
    state: State,
    names: Seq<Seq<u8>>,
) -> bool {
    match r {
        Ok((st, t)) => {
            &&& st.code@ == state.code@
            &&& state.index < st.index <= state.code@.len()
            &&& t.known(names)
            &&& want == Ok::<(Ast, int), ParseError>((t.ast(names), st.index as int))
        },
        Err(e) => want == Err::<(Ast, int), ParseError>(e),
    }
}

/// A pool that has grown twice has grown.
pub proof fn lemma_extends_trans(a: Seq<Seq<u8>>, b: Seq<Seq<u8>>, c: Seq<Seq<u8>>)
    requires
        extends(a, b),
        extends(b, c),
    ensures
        extends(a, c),
{
    assert forall|i: int| 0 <= i < a.len() implies #[trigger] c[i] == a[i] by {
        assert(b[i] == a[i]);
    }
}

/// How the terms read so far read in the names of `names`.
pub open spec fn read_as(acc: Option<Box<Term>>, names: Seq<Seq<u8>>) -> Option<Ast> {
    match acc {
        None => None,
        Some(t) => Some(t.ast(names)),
    }
}

fn keyword_from(code: &[u8], j: usize, w0: u8, w1: u8, w2: u8) -> (found: bool)
    requires
        j <= code@.len(),
    ensures
        found == keyword_at(code@, j as int, w0, w1, w2),
        found ==> j + 3 <= code@.len() && j + 3 <= usize::MAX,
{
    if code.len() - j >= 3 && code[j] == w0 && code[j + 1] == w1 && code[j + 2] == w2 {
        skip_from(code, j + 3) > j + 3
    } else {
        false
    }
}

fn lam_sign_from(code: &[u8], j: usize) -> (n: usize)
    requires
        j <= code@.len(),
    ensures
        n == lam_sign(code@, j as int),
        j + n <= code@.len(),
        j + n <= usize::MAX,
{
    if code.len() - j >= 2 && code[j] == LAMBDA_0 && code[j + 1] == LAMBDA_1 {
        2
    } else if j < code.len() && code[j] == AT {
        1
    } else {
        0
    }
}

/// Reads a name at `i` and interns it.
fn intern_name(code: &[u8], i: usize, pool: &mut Interner) -> (r: Result<(IStr, usize), ParseError>)
    requires
        old(pool).wf(),
        i <= code@.len(),
    ensures
        final(pool).wf(),
        extends(old(pool)@, final(pool)@),
        match r {
            Ok((x, k)) => x.id < final(pool)@.len() && i < k <= code@.len() && name_at(
                code@,
                i as int,
            ) == Ok::<(Seq<u8>, int), ParseError>((final(pool)@[x.id as int], k as int)),
            Err(e) => name_at(code@, i as int) == Err::<(Seq<u8>, int), ParseError>(e)
                && final(pool)@ == old(pool)@,
        },
{
    match name_from(code, i) {
        Err(e) => Err(e),
        Ok((start, end)) => {
            let x = pool.intern_bytes(piece(code, start, end));
            proof {
                assert(extends(old(pool)@, pool@));
            }
            Ok((x, end))
        },
    }
}

/// Parses a variable, e.g. `x`.
pub fn parse_var<'a>(state: State<'a>, pool: &mut Interner) -> (r: Answer<'a, Option<Box<Term>>>)
    requires
        old(pool).wf(),
        state.index <= state.code@.len(),
    ensures
        final(pool).wf(),
        extends(old(pool)@, final(pool)@),
        answers_opt(r, var_at(state.code@, state.index as int), state, final(pool)@),
{
    match intern_name(state.code, state.index, pool) {
        Err(_) => {
            let j = skip_from(state.code, state.index);
            Ok((State { code: state.code, index: j }, None))
        },
        Ok((x, k)) => Ok((State { code: state.code, index: k }, Some(Box::new(Term::Var(x))))),
    }
}

/// Parses a lambda, e.g. `λx body` or `@x body`.
pub fn parse_lam<'a>(state: State<'a>, pool: &mut Interner) -> (r: Answer<'a, Option<Box<Term>>>)
    requires
        old(pool).wf(),
        state.index <= state.code@.len(),
    ensures
        final(pool).wf(),
        extends(old(pool)@, final(pool)@),
        answers_opt(r, lam_at(state.code@, state.index as int), state, final(pool)@),
    decreases state.code@.len() - state.index, 1int,
{
    let code = state.code;
    let j = skip_from(code, state.index);
    let sign = lam_sign_from(code, j);
    if sign == 0 {
        return Ok((State { code, index: j }, None));
    }
    let ghost names0 = pool@;
    let (x, k1) = match intern_name(code, j + sign, pool) {
        Err(e) => {
            return Err(e);
        },
        Ok(r) => r,
    };
    let ghost names1 = pool@;
    let (st, body) = match parse_term(State { code, index: k1 }, pool) {
        Err(e) => {
            proof {
                lemma_extends_trans(names0, names1, pool@);
            }
            return Err(e);
        },
        Ok(r) => r,
    };
    proof {
        lemma_extends_trans(names0, names1, pool@);
    }
    Ok((st, Some(Box::new(Term::Lam(x, body)))))
}

/// Parses an application, e.g. `(f arg)`; its terms nest to the left.
pub fn parse_app<'a>(state: State<'a>, pool: &mut Interner) -> (r: Answer<'a, Option<Box<Term>>>)
    requires
        old(pool).wf(),
        state.index <= state.code@.len(),
    ensures
        final(pool).wf(),
        extends(old(pool)@, final(pool)@),
        answers_opt(r, app_at(state.code@, state.index as int), state, final(pool)@),
    decreases state.code@.len() - state.index, 1int,
{
    let code = state.code;
    let j = skip_from(code, state.index);
    if !(j < code.len() && code[j] == LEFT_PAREN) {
        return Ok((State { code, index: j }, None));
    }
    let ghost names0 = pool@;
    let mut i = j + 1;
    let mut acc: Option<Box<Term>> = None;
    loop
        invariant
            code@ == state.code@,
            state.index < i <= code@.len(),
            j == skip(code@, state.index as int),
            j < code@.len(),
            code@[j as int] == LEFT_PAREN,
            names0 == old(pool)@,
            pool.wf(),
            extends(names0, pool@),
            acc is Some ==> acc->0.known(pool@),
            list_at(code@, j + 1, None) == list_at(code@, i as int, read_as(acc, pool@)),
        decreases code@.len() - i,
    {
        let ghost names1 = pool@;
        let ghost acc1 = read_as(acc, pool@);
        let close = skip_from(code, i);
        if close < code.len() && code[close] == RIGHT_PAREN {
            proof {
                assert(list_at(code@, i as int, acc1) == match acc1 {
                    Some(t) => Ok::<(Ast, int), ParseError>((t, close + 1)),
                    None => Err::<(Ast, int), ParseError>(
                        ParseError { position: close, expected: Expected::Term },
                    ),
                });
            }
            return match acc {
                Some(t) => Ok((State { code, index: close + 1 }, Some(t))),
                None => Err(ParseError { position: close, expected: Expected::Term }),
            };
        }
        let (st, t) = match parse_term(State { code, index: i }, pool) {
            Err(e) => {
                proof {
                    lemma_extends_trans(names0, names1, pool@);
                    assert(list_at(code@, i as int, acc1) == Err::<(Ast, int), ParseError>(e));
                }
                return Err(e);
            },
            Ok(r) => r,
        };
        proof {
            lemma_extends_trans(names0, names1, pool@);
            if acc is Some {
                lemma_ast_extends(*acc->0, names1, pool@);
            }
            assert(list_at(code@, i as int, acc1) == list_at(
                code@,
                st.index as int,
                Some(
                    match acc1 {
                        None => t.ast(pool@),
                        Some(f) => Ast::App(Box::new(f), Box::new(t.ast(pool@))),
                    },
                ),
            ));
        }
        acc = Some(
            match acc {
                None => t,
                Some(f) => Box::new(Term::App(f, t)),
            },
        );
        i = st.index;
    }
}

/// Parses a label, e.g. `#0`.
pub fn parse_label<'a>(state: State<'a>) -> (r: Answer<'a, u64>)
    requires
        state.index <= state.code@.len(),
    ensures
        match r {
            Ok((st, l)) => st.code@ == state.code@ && state.index < st.index <= state.code@.len()
                && label_at(state.code@, state.index as int) == Ok::<(u64, int), ParseError>(
                (l, st.index as int),
            ),
            Err(e) => label_at(state.code@, state.index as int) == Err::<
                (u64, int),
                ParseError,
            >(e),
        },
{
    match label_from(state.code, state.index) {
        Err(e) => Err(e),
        Ok((l, k)) => Ok((State { code: state.code, index: k }, l)),
    }
}

/// Parses a superposition, e.g. `#0{x y}`.
pub fn parse_sup<'a>(state: State<'a>, pool: &mut Interner) -> (r: Answer<'a, Option<Box<Term>>>)
    requires
        old(pool).wf(),
        state.index <= state.code@.len(),
    ensures
        final(pool).wf(),
        extends(old(pool)@, final(pool)@),
        answers_opt(r, sup_at(state.code@, state.index as int), state, final(pool)@),
    decreases state.code@.len() - state.index, 1int,
{
    let code = state.code;
    let j = skip_from(code, state.index);
    if !(j < code.len() && code[j] == HASH) {
        return Ok((State { code, index: j }, None));
    }
    let ghost names0 = pool@;
    let (st1, l) = match parse_label(state) {
        Err(e) => {
            return Err(e);
        },
        Ok(r) => r,
    };
    let k2 = match byte_from(code, st1.index, LEFT_BRACE) {
        Err(e) => {
            return Err(e);
        },
        Ok(k) => k,
    };
    let (st3, a) = match parse_term(State { code, index: k2 }, pool) {
        Err(e) => {
            return Err(e);
        },
        Ok(r) => r,
    };
    let ghost names1 = pool@;
    let (st4, b) = match parse_term(State { code, index: st3.index }, pool) {
        Err(e) => {
            proof {
                lemma_extends_trans(names0, names1, pool@);
            }
            return Err(e);
        },
        Ok(r) => r,
    };
    proof {
        lemma_extends_trans(names0, names1, pool@);
        lemma_ast_extends(*a, names1, pool@);
    }
    let k5 = match byte_from(code, st4.index, RIGHT_BRACE) {
        Err(e) => {
            return Err(e);
        },
        Ok(k) => k,
    };
    Ok((State { code, index: k5 }, Some(Box::new(Term::Sup(l, a, b)))))
}

/// Parses a duplication, e.g. `dup #0{x y} = z; body`.
pub fn parse_dup<'a>(state: State<'a>, pool: &mut Interner) -> (r: Answer<'a, Option<Box<Term>>>)
    requires
        old(pool).wf(),
        state.index <= state.code@.len(),
    ensures
        final(pool).wf(),
        extends(old(pool)@, final(pool)@),
        answers_opt(r, dup_at(state.code@, state.index as int), state, final(pool)@),
    decreases state.code@.len() - state.index, 1int,
{
    let code = state.code;
    let j = skip_from(code, state.index);
    if !keyword_from(code, j, 100, 117, 112) {
        return Ok((State { code, index: j }, None));
    }
    let ghost names0 = pool@;
    let (l, k1) = match label_from(code, j + 3) {
        Err(e) => {
            return Err(e);
        },
        Ok(r) => r,
    };
    let k2 = match byte_from(code, k1, LEFT_BRACE) {
        Err(e) => {
            return Err(e);
        },
        Ok(k) => k,
    };
    let (x, k3) = match intern_name(code, k2, pool) {
        Err(e) => {
            return Err(e);
        },
        Ok(r) => r,
    };
    let ghost names1 = pool@;
    let (y, k4) = match intern_name(code, k3, pool) {
        Err(e) => {
            return Err(e);
        },
        Ok(r) => r,
    };
    let ghost names2 = pool@;
    proof {
        lemma_extends_trans(names0, names1, names2);
    }
    let k5 = match byte_from(code, k4, RIGHT_BRACE) {
        Err(e) => {
            return Err(e);
        },
        Ok(k) => k,
    };
    let k6 = match byte_from(code, k5, EQUALS) {
        Err(e) => {
            return Err(e);
        },
        Ok(k) => k,
    };
    let (st7, e) = match parse_term(State { code, index: k6 }, pool) {
        Err(e) => {
            proof {
                lemma_extends_trans(names0, names2, pool@);
            }
            return Err(e);
        },
        Ok(r) => r,
    };
    let ghost names3 = pool@;
    proof {
        lemma_extends_trans(names0, names2, names3);
        lemma_extends_trans(names1, names2, names3);
    }
    let k8 = match byte_from(code, st7.index, SEMICOLON) {
        Err(e) => {
            return Err(e);
        },
        Ok(k) => k,
    };
    let (st9, body) = match parse_term(State { code, index: k8 }, pool) {
        Err(e) => {
            proof {
                lemma_extends_trans(names0, names3, pool@);
            }
            return Err(e);
        },
        Ok(r) => r,
    };
    proof {
        lemma_extends_trans(names0, names3, pool@);
        lemma_extends_trans(names1, names3, pool@);
        lemma_extends_trans(names2, names3, pool@);
        lemma_ast_extends(*e, names3, pool@);
    }
    Ok((st9, Some(Box::new(Term::Dup(l, x, y, e, body)))))
}

/// Parses a let, e.g. `let x = expr; body`.
pub fn parse_let<'a>(state: State<'a>, pool: &mut Interner) -> (r: Answer<'a, Option<Box<Term>>>)
    requires
        old(pool).wf(),
        state.index <= state.code@.len(),
    ensures
        final(pool).wf(),
        extends(old(pool)@, final(pool)@),
        answers_opt(r, let_at(state.code@, state.index as int), state, final(pool)@),
    decreases state.code@.len() - state.index, 1int,
{
    let code = state.code;
    let j = skip_from(code, state.index);
    if !keyword_from(code, j, 108, 101, 116) {
        return Ok((State { code, index: j }, None));
    }
    let ghost names0 = pool@;
    let (x, k1) = match intern_name(code, j + 3, pool) {
        Err(e) => {
            return Err(e);
        },
        Ok(r) => r,
    };
    let ghost names1 = pool@;
    let k2 = match byte_from(code, k1, EQUALS) {
        Err(e) => {
            return Err(e);
        },
        Ok(k) => k,
    };
    let (st3, e) = match parse_term(State { code, index: k2 }, pool) {
        Err(e) => {
            proof {
                lemma_extends_trans(names0, names1, pool@);
            }
            return Err(e);
        },
        Ok(r) => r,
    };
    let ghost names2 = pool@;
    proof {
        lemma_extends_trans(names0, names1, names2);
    }
    let k4 = match byte_from(code, st3.index, SEMICOLON) {
        Err(e) => {
            return Err(e);
        },
        Ok(k) => k,
    };
    let (st5, body) = match parse_term(State { code, index: k4 }, pool) {
        Err(e) => {
            proof {
                lemma_extends_trans(names0, names2, pool@);
            }
            return Err(e);
        },
        Ok(r) => r,
    };
    proof {
        lemma_extends_trans(names0, names2, pool@);
        lemma_extends_trans(names1, names2, pool@);
        lemma_ast_extends(*e, names2, pool@);
    }
    Ok((st5, Some(Box::new(Term::Let(x, e, body)))))
}

/// Parses a term: the first of `let`, `dup`, `lam`, `app`, `sup` and `var`
/// that stands at the place.
pub fn parse_term<'a>(state: State<'a>, pool: &mut Interner) -> (r: Answer<'a, Box<Term>>)
    requires
        old(pool).wf(),
        state.index <= state.code@.len(),
    ensures
        final(pool).wf(),
        extends(old(pool)@, final(pool)@),
        answers(r, term_at(state.code@, state.index as int), state, final(pool)@),
    decreases state.code@.len() - state.index, 2int,
{
    match parse_let(state, pool) {
        Err(e) => {
            return Err(e);
        },
        Ok((st, Some(t))) => {
            return Ok((st, t));
        },
        Ok((_, None)) => {},
    }
    match parse_dup(state, pool) {
        Err(e) => {
            return Err(e);
        },
        Ok((st, Some(t))) => {
            return Ok((st, t));
        },
        Ok((_, None)) => {},
    }
    match parse_lam(state, pool) {
        Err(e) => {
            return Err(e);
        },
        Ok((st, Some(t))) => {
            return Ok((st, t));
        },
        Ok((_, None)) => {},
    }
    match parse_app(state, pool) {
        Err(e) => {
            return Err(e);
        },
        Ok((st, Some(t))) => {
            return Ok((st, t));
        },
        Ok((_, None)) => {},
    }
    match parse_sup(state, pool) {
        Err(e) => {
            return Err(e);
        },
        Ok((st, Some(t))) => {
            return Ok((st, t));
        },
        Ok((_, None)) => {},
    }
    match parse_var(state, pool) {
        Err(e) => Err(e),
        Ok((st, Some(t))) => Ok((st, t)),
        Ok((st, None)) => Err(ParseError { position: st.index, expected: Expected::Term }),
    }
}

/// Whether nothing but whitespace and comments is left of the text.
pub fn done<'a>(state: State<'a>) -> (r: Answer<'a, bool>)
    requires
        state.index <= state.code@.len(),
    ensures
        r matches Ok((st, finished)) && st.code@ == state.code@ && st.index == skip(
            state.code@,
            state.index as int,
        ) && finished == (st.index == state.code@.len()),
{
    let j = skip_from(state.code, state.index);
    Ok((State { code: state.code, index: j }, j == state.code.len()))
}

/// Parses a text that is one term.
pub fn parse_text(code: &[u8], pool: &mut Interner) -> (r: Result<Term, ParseError>)
    requires
        old(pool).wf(),
    ensures
        final(pool).wf(),
        extends(old(pool)@, final(pool)@),
        match r {
            Ok(t) => t.known(final(pool)@) && parse(code@) == Ok::<Ast, ParseError>(
                t.ast(final(pool)@),
            ),
            Err(e) => parse(code@) == Err::<Ast, ParseError>(e),
        },
{
    match parse_term(State::new(code), pool) {
        Err(e) => Err(e),
        Ok((st, t)) => {
            let j = skip_from(code, st.index);
            if j == code.len() {
                Ok(*t)
            } else {
                Err(ParseError { position: j, expected: Expected::Term })
            }
        },
    }
}

} // verus!
