//! The parser reads back what the printer writes.

use vstd::prelude::*;
use crate::lex::{
    byte_at,
    digits_end,
    is_digit,
    is_name_head,
    is_name_tail,
    is_space,
    label_at,
    name_at,
    name_end,
    number,
    skip,
    ParseError,
    EQUALS,
    HASH,
    LEFT_BRACE,
    LEFT_PAREN,
    RIGHT_BRACE,
    RIGHT_PAREN,
    SEMICOLON,
    SLASH,
    SPACE,
};
use crate::parse::{
    app_at,
    dup_at,
    keyword_at,
    lam_at,
    lam_sign,
    lemma_lex,
    let_at,
    list_at,
    parse,
    sup_at,
    term_at,
};
use crate::syntax::{digits_of, extends, lemma_ast_extends, lemma_ast_injective, print, Ast, Term};

verus! {

/// The bytes `s` stand in `code` from `i` on.
pub open spec fn holds(code: Seq<u8>, i: int, s: Seq<u8>) -> bool {
    0 <= i && i + s.len() <= code.len() && code.subrange(i, i + s.len()) == s
}

/// No name goes on at `k`: the text ends there, or a byte stands there
/// that is no byte of a name.
pub open spec fn name_stops(code: Seq<u8>, k: int) -> bool {
    k == code.len() || (0 <= k < code.len() && !is_name_tail(code[k]))
}

/// A name of the grammar: a byte of `[_a-z$]` and bytes of `[_a-zA-Z0-9]`.
pub open spec fn legal_name(x: Seq<u8>) -> bool {
    &&& x.len() >= 1
    &&& is_name_head(x[0])
    &&& forall|k: int| 1 <= k < x.len() ==> is_name_tail(#[trigger] x[k])
}

/// `let` or `dup`: the names that a variable cannot have, because a term
/// that starts with them is a `let` or a `dup`.
pub open spec fn is_keyword(x: Seq<u8>) -> bool {
    x == seq![108u8, 101u8, 116u8] || x == seq![100u8, 117u8, 112u8]
}

pub proof fn lemma_holds_split(code: Seq<u8>, i: int, a: Seq<u8>, b: Seq<u8>)
    ensures
        holds(code, i, a + b) <==> holds(code, i, a) && holds(code, i + a.len(), b),
{
    if holds(code, i, a + b) {
        assert(code.subrange(i, i + a.len()) =~= (a + b).subrange(0, a.len() as int));
        assert((a + b).subrange(0, a.len() as int) =~= a);
        assert(code.subrange(i + a.len(), i + a.len() + b.len()) =~= (a + b).subrange(
            a.len() as int,
            (a + b).len() as int,
        ));
        assert((a + b).subrange(a.len() as int, (a + b).len() as int) =~= b);
    }
    if holds(code, i, a) && holds(code, i + a.len(), b) {
        assert forall|k: int| 0 <= k < a.len() + b.len() implies code.subrange(
            i,
            i + a.len() + b.len(),
        )[k] == (a + b)[k] by {
            if k < a.len() {
                assert(code.subrange(i, i + a.len())[k] == a[k]);
            } else {
                assert(code.subrange(i + a.len(), i + a.len() + b.len())[k - a.len()] == b[k
                    - a.len()]);
            }
        }
        assert(code.subrange(i, i + (a + b).len()) =~= a + b);
    }
}

pub proof fn lemma_holds_byte(code: Seq<u8>, i: int, s: Seq<u8>, k: int)
    requires
        holds(code, i, s),
        0 <= k < s.len(),
    ensures
        code[i + k] == s[k],
{
    assert(code.subrange(i, i + s.len())[k] == s[k]);
}

/// Nothing is skipped before a byte that is neither whitespace nor a slash.
pub proof fn lemma_skip_here(code: Seq<u8>, i: int)
    requires
        0 <= i <= code.len(),
        i < code.len() ==> !is_space(code[i]) && code[i] != SLASH,
    ensures
        skip(code, i) == i,
{
}

/// One space is skipped before a byte that is neither whitespace nor a
/// slash.
pub proof fn lemma_skip_space(code: Seq<u8>, i: int)
    requires
        0 <= i < code.len(),
        code[i] == SPACE,
        i + 1 < code.len() ==> !is_space(code[i + 1]) && code[i + 1] != SLASH,
    ensures
        skip(code, i) == i + 1,
{
    lemma_skip_here(code, i + 1);
    assert(skip(code, i) == skip(code, i + 1));
}

pub proof fn lemma_name_end_run(code: Seq<u8>, i: int, n: nat)
    requires
        0 <= i,
        i + n <= code.len(),
        forall|k: int| i <= k < i + n ==> is_name_tail(#[trigger] code[k]),
        name_stops(code, i + n),
    ensures
        name_end(code, i) == i + n,
    decreases n,
{
    if n > 0 {
        assert(is_name_tail(code[i]));
        lemma_name_end_run(code, i + 1, (n - 1) as nat);
    }
}

/// A legal name that stands at `i`, where the skipping from `i0` ends, is
/// read as it stands.
pub proof fn lemma_name_read(code: Seq<u8>, i0: int, i: int, x: Seq<u8>)
    requires
        0 <= i0 <= i,
        skip(code, i0) == i,
        holds(code, i, x),
        legal_name(x),
        name_stops(code, i + x.len()),
    ensures
        name_at(code, i0) == Ok::<(Seq<u8>, int), ParseError>((x, i + x.len())),
{
    lemma_holds_byte(code, i, x, 0);
    assert forall|k: int| i + 1 <= k < i + x.len() implies is_name_tail(#[trigger] code[k]) by {
        lemma_holds_byte(code, i, x, k - i);
    }
    lemma_name_end_run(code, i + 1, (x.len() - 1) as nat);
}

pub proof fn lemma_byte_read(code: Seq<u8>, i0: int, i: int, b: u8)
    requires
        skip(code, i0) == i,
        0 <= i < code.len(),
        code[i] == b,
    ensures
        byte_at(code, i0, b) == Ok::<int, ParseError>(i + 1),
{
}

/// The digits of a number are digits, at least one, and spell the number.
pub proof fn lemma_digits_of(n: nat)
    ensures
        digits_of(n).len() >= 1,
        forall|k: int| 0 <= k < digits_of(n).len() ==> is_digit(#[trigger] digits_of(n)[k]),
        number(digits_of(n)) == n,
    decreases n,
{
    if n < 10 {
        let d = digits_of(n);
        assert(d.drop_last() =~= Seq::<u8>::empty());
        assert(number(d.drop_last()) == 0);
    } else {
        lemma_digits_of(n / 10);
        let d = digits_of(n);
        assert(d.drop_last() =~= digits_of(n / 10));
        assert(d.last() == (48 + n % 10) as u8);
    }
}

pub proof fn lemma_digits_end_run(code: Seq<u8>, i: int, n: nat)
    requires
        0 <= i,
        i + n <= code.len(),
        forall|k: int| i <= k < i + n ==> is_digit(#[trigger] code[k]),
        i + n == code.len() || !is_digit(code[i + n]),
    ensures
        digits_end(code, i) == i + n,
    decreases n,
{
    if n > 0 {
        assert(is_digit(code[i]));
        lemma_digits_end_run(code, i + 1, (n - 1) as nat);
    }
}

/// The label `#l` that stands at `i`, where the skipping from `i0` ends,
/// before a byte that is no digit, is read as `l`.
pub proof fn lemma_label_read(code: Seq<u8>, i0: int, i: int, l: u64)
    requires
        0 <= i0 <= i,
        skip(code, i0) == i,
        holds(code, i, seq![35u8] + digits_of(l as nat)),
        i + 1 + digits_of(l as nat).len() == code.len() || !is_digit(
            code[i + 1 + digits_of(l as nat).len()],
        ),
    ensures
        label_at(code, i0) == Ok::<(u64, int), ParseError>(
            (l, i + 1 + digits_of(l as nat).len()),
        ),
{
    let d = digits_of(l as nat);
    lemma_digits_of(l as nat);
    lemma_holds_split(code, i, seq![35u8], d);
    lemma_holds_byte(code, i, seq![35u8], 0);
    assert forall|k: int| i + 1 <= k < i + 1 + d.len() implies is_digit(#[trigger] code[k]) by {
        lemma_holds_byte(code, i + 1, d, k - (i + 1));
    }
    lemma_digits_end_run(code, i + 1, d.len());
    lemma_byte_read(code, i0, i, HASH);
}

/// A term that the parser reads back: its names are names of the grammar,
/// and no variable is called `let` or `dup`.
pub open spec fn legal(t: Ast) -> bool
    decreases t,
{
    match t {
        Ast::Var(x) => legal_name(x) && !is_keyword(x),
        Ast::Lam(x, e) => legal_name(x) && legal(*e),
        Ast::App(f, a) => legal(*f) && legal(*a),
        Ast::Sup(_, a, b) => legal(*a) && legal(*b),
        Ast::Dup(_, x, y, e, k) => legal_name(x) && legal_name(y) && legal(*e) && legal(*k),
        Ast::Let(x, e, k) => legal_name(x) && legal(*e) && legal(*k),
    }
}

/// A byte that the text of a term starts with: `(`, `#` or the first byte
/// of a name.
pub open spec fn starts_term(b: u8) -> bool {
    b == LEFT_PAREN || b == HASH || is_name_head(b)
}

/// The text of a term is not empty and starts with `(`, `#` or a name.
pub proof fn lemma_first_byte(t: Ast)
    requires
        legal(t),
    ensures
        print(t).len() >= 1,
        starts_term(print(t)[0]),
{
    match t {
        Ast::Var(x) => {},
        Ast::Lam(x, e) => {},
        Ast::App(f, a) => {},
        Ast::Sup(_, a, b) => {},
        Ast::Dup(_, x, y, e, k) => {},
        Ast::Let(x, e, k) => {},
    }
}

pub proof fn lemma_let_none(code: Seq<u8>, i0: int)
    requires
        0 <= i0 <= code.len(),
        !keyword_at(code, skip(code, i0), 108, 101, 116),
    ensures
        let_at(code, i0) == Ok::<Option<(Ast, int)>, ParseError>(None),
{
}

pub proof fn lemma_dup_none(code: Seq<u8>, i0: int)
    requires
        0 <= i0 <= code.len(),
        !keyword_at(code, skip(code, i0), 100, 117, 112),
    ensures
        dup_at(code, i0) == Ok::<Option<(Ast, int)>, ParseError>(None),
{
}

pub proof fn lemma_lam_none(code: Seq<u8>, i0: int)
    requires
        0 <= i0 <= code.len(),
        lam_sign(code, skip(code, i0)) == 0,
    ensures
        lam_at(code, i0) == Ok::<Option<(Ast, int)>, ParseError>(None),
{
}

pub proof fn lemma_app_none(code: Seq<u8>, i0: int)
    requires
        0 <= i0 <= code.len(),
        skip(code, i0) < code.len() ==> code[skip(code, i0)] != LEFT_PAREN,
    ensures
        app_at(code, i0) == Ok::<Option<(Ast, int)>, ParseError>(None),
{
    lemma_lex(code, i0);
}

pub proof fn lemma_sup_none(code: Seq<u8>, i0: int)
    requires
        0 <= i0 <= code.len(),
        skip(code, i0) < code.len() ==> code[skip(code, i0)] != HASH,
    ensures
        sup_at(code, i0) == Ok::<Option<(Ast, int)>, ParseError>(None),
{
    lemma_lex(code, i0);
}

pub proof fn lemma_let_some(
    code: Seq<u8>,
    i0: int,
    x: Seq<u8>,
    k1: int,
    k2: int,
    e: Ast,
    k3: int,
    k4: int,
    body: Ast,
    k5: int,
)
    requires
        0 <= i0 <= code.len(),
        keyword_at(code, skip(code, i0), 108, 101, 116),
        name_at(code, skip(code, i0) + 3) == Ok::<(Seq<u8>, int), ParseError>((x, k1)),
        byte_at(code, k1, EQUALS) == Ok::<int, ParseError>(k2),
        term_at(code, k2) == Ok::<(Ast, int), ParseError>((e, k3)),
        byte_at(code, k3, SEMICOLON) == Ok::<int, ParseError>(k4),
        i0 < k4 <= code.len(),
        term_at(code, k4) == Ok::<(Ast, int), ParseError>((body, k5)),
    ensures
        let_at(code, i0) == Ok::<Option<(Ast, int)>, ParseError>(
            Some((Ast::Let(x, Box::new(e), Box::new(body)), k5)),
        ),
{
}

pub proof fn lemma_dup_some(
    code: Seq<u8>,
    i0: int,
    l: u64,
    k1: int,
    k2: int,
    a: Seq<u8>,
    k3: int,
    b: Seq<u8>,
    k4: int,
    k5: int,
    k6: int,
    e: Ast,
    k7: int,
    k8: int,
    body: Ast,
    k9: int,
)
    requires
        0 <= i0 <= code.len(),
        keyword_at(code, skip(code, i0), 100, 117, 112),
        label_at(code, skip(code, i0) + 3) == Ok::<(u64, int), ParseError>((l, k1)),
        byte_at(code, k1, LEFT_BRACE) == Ok::<int, ParseError>(k2),
        name_at(code, k2) == Ok::<(Seq<u8>, int), ParseError>((a, k3)),
        name_at(code, k3) == Ok::<(Seq<u8>, int), ParseError>((b, k4)),
        byte_at(code, k4, RIGHT_BRACE) == Ok::<int, ParseError>(k5),
        byte_at(code, k5, EQUALS) == Ok::<int, ParseError>(k6),
        term_at(code, k6) == Ok::<(Ast, int), ParseError>((e, k7)),
        byte_at(code, k7, SEMICOLON) == Ok::<int, ParseError>(k8),
        i0 < k8 <= code.len(),
        term_at(code, k8) == Ok::<(Ast, int), ParseError>((body, k9)),
    ensures
        dup_at(code, i0) == Ok::<Option<(Ast, int)>, ParseError>(
            Some((Ast::Dup(l, a, b, Box::new(e), Box::new(body)), k9)),
        ),
{
}

pub proof fn lemma_lam_some(code: Seq<u8>, i0: int, x: Seq<u8>, k1: int, body: Ast, k2: int)
    requires
        0 <= i0 <= code.len(),
        lam_sign(code, skip(code, i0)) != 0,
        name_at(code, skip(code, i0) + lam_sign(code, skip(code, i0))) == Ok::<
            (Seq<u8>, int),
            ParseError,
        >((x, k1)),
        term_at(code, k1) == Ok::<(Ast, int), ParseError>((body, k2)),
    ensures
        lam_at(code, i0) == Ok::<Option<(Ast, int)>, ParseError>(
            Some((Ast::Lam(x, Box::new(body)), k2)),
        ),
{
    let j = skip(code, i0);
    lemma_lex(code, i0);
    lemma_lex(code, j + lam_sign(code, j));
    assert(lam_at(code, i0) == match name_at(code, j + lam_sign(code, j)) {
        Err(e) => Err::<Option<(Ast, int)>, ParseError>(e),
        Ok((x, k1)) => match term_at(code, k1) {
            Err(e) => Err::<Option<(Ast, int)>, ParseError>(e),
            Ok((body, k2)) => Ok(Some((Ast::Lam(x, Box::new(body)), k2))),
        },
    });
}

pub proof fn lemma_sup_some(
    code: Seq<u8>,
    i0: int,
    l: u64,
    k1: int,
    k2: int,
    a: Ast,
    k3: int,
    b: Ast,
    k4: int,
    k5: int,
)
    requires
        0 <= i0 <= code.len(),
        skip(code, i0) < code.len(),
        code[skip(code, i0)] == HASH,
        label_at(code, i0) == Ok::<(u64, int), ParseError>((l, k1)),
        byte_at(code, k1, LEFT_BRACE) == Ok::<int, ParseError>(k2),
        term_at(code, k2) == Ok::<(Ast, int), ParseError>((a, k3)),
        i0 < k3 <= code.len(),
        term_at(code, k3) == Ok::<(Ast, int), ParseError>((b, k4)),
        byte_at(code, k4, RIGHT_BRACE) == Ok::<int, ParseError>(k5),
    ensures
        sup_at(code, i0) == Ok::<Option<(Ast, int)>, ParseError>(
            Some((Ast::Sup(l, Box::new(a), Box::new(b)), k5)),
        ),
{
    lemma_lex(code, i0);
}

pub proof fn lemma_list_close(code: Seq<u8>, i: int, t: Ast)
    requires
        0 <= i <= code.len(),
        skip(code, i) < code.len(),
        code[skip(code, i)] == RIGHT_PAREN,
    ensures
        list_at(code, i, Some(t)) == Ok::<(Ast, int), ParseError>((t, skip(code, i) + 1)),
{
    lemma_lex(code, i);
}

pub proof fn lemma_list_more(code: Seq<u8>, i: int, acc: Option<Ast>, t: Ast, k: int)
    requires
        0 <= i <= code.len(),
        skip(code, i) < code.len() ==> code[skip(code, i)] != RIGHT_PAREN,
        term_at(code, i) == Ok::<(Ast, int), ParseError>((t, k)),
        i < k <= code.len(),
    ensures
        list_at(code, i, acc) == list_at(
            code,
            k,
            Some(
                match acc {
                    None => t,
                    Some(f) => Ast::App(Box::new(f), Box::new(t)),
                },
            ),
        ),
{
    lemma_lex(code, i);
}

pub proof fn lemma_app_some(code: Seq<u8>, i0: int, r: (Ast, int))
    requires
        0 <= i0 <= code.len(),
        skip(code, i0) < code.len(),
        code[skip(code, i0)] == LEFT_PAREN,
        list_at(code, skip(code, i0) + 1, None) == Ok::<(Ast, int), ParseError>(r),
    ensures
        app_at(code, i0) == Ok::<Option<(Ast, int)>, ParseError>(Some(r)),
{
    lemma_lex(code, i0);
}

/// What stands in parentheses is one term that is no application: it is
/// read as that term.
pub proof fn lemma_wrapped(code: Seq<u8>, i0: int, i: int, t: Ast, k: int)
    requires
        0 <= i0 <= i,
        skip(code, i0) == i,
        i < code.len(),
        code[i] == LEFT_PAREN,
        i + 1 < code.len(),
        code[i + 1] != RIGHT_PAREN,
        term_at(code, i + 1) == Ok::<(Ast, int), ParseError>((t, k)),
        i + 1 < k < code.len(),
        code[k] == RIGHT_PAREN,
    ensures
        term_at(code, i0) == Ok::<(Ast, int), ParseError>((t, k + 1)),
{
    lemma_lex(code, i0);
    lemma_lex(code, i + 1);
    lemma_skip_here(code, k);
    lemma_list_close(code, k, t);
    lemma_let_none(code, i0);
    lemma_dup_none(code, i0);
    lemma_lam_none(code, i0);
    if skip(code, i + 1) < code.len() && code[skip(code, i + 1)] == RIGHT_PAREN {
        // the term at `i + 1` would start with `)`
        lemma_no_term_at_close(code, i + 1);
    }
    lemma_list_more(code, i + 1, None, t, k);
    lemma_app_some(code, i0, (t, k + 1));
}

/// No term starts with `)`.
pub proof fn lemma_no_term_at_close(code: Seq<u8>, i: int)
    requires
        0 <= i <= code.len(),
        skip(code, i) < code.len(),
        code[skip(code, i)] == RIGHT_PAREN,
    ensures
        term_at(code, i) is Err,
{
    lemma_lex(code, i);
    lemma_let_none(code, i);
    lemma_dup_none(code, i);
    lemma_lam_none(code, i);
    lemma_app_none(code, i);
    lemma_sup_none(code, i);
}

/// The one byte `b` stands at `i`.
pub proof fn lemma_holds_one(code: Seq<u8>, i: int, b: u8)
    requires
        0 <= i < code.len(),
        code[i] == b,
    ensures
        holds(code, i, seq![b]),
{
    assert(code.subrange(i, i + 1) =~= seq![b]);
}

/// A name that is not a keyword, where no name goes on behind it, is not
/// taken for the keyword `w0 w1 w2`.
pub proof fn lemma_name_no_keyword(code: Seq<u8>, i: int, x: Seq<u8>, w0: u8, w1: u8, w2: u8)
    requires
        holds(code, i, x),
        legal_name(x),
        x != seq![w0, w1, w2],
        is_name_tail(w0) && is_name_tail(w1) && is_name_tail(w2),
        name_stops(code, i + x.len()),
    ensures
        !keyword_at(code, i, w0, w1, w2),
{
    if keyword_at(code, i, w0, w1, w2) {
        if x.len() >= 4 {
            lemma_holds_byte(code, i, x, 3);
            lemma_skip_here(code, i + 3);
        } else if x.len() == 3 {
            lemma_holds_byte(code, i, x, 0);
            lemma_holds_byte(code, i, x, 1);
            lemma_holds_byte(code, i, x, 2);
            assert(x =~= seq![w0, w1, w2]);
        }
    }
}

/// A variable is read back.
pub proof fn lemma_var_back(code: Seq<u8>, i0: int, i: int, x: Seq<u8>)
    requires
        0 <= i0 <= i,
        skip(code, i0) == i,
        holds(code, i, x),
        legal_name(x),
        !is_keyword(x),
        name_stops(code, i + x.len()),
    ensures
        term_at(code, i0) == Ok::<(Ast, int), ParseError>((Ast::Var(x), i + x.len())),
{
    lemma_holds_byte(code, i, x, 0);
    lemma_name_no_keyword(code, i, x, 108, 101, 116);
    lemma_name_no_keyword(code, i, x, 100, 117, 112);
    lemma_let_none(code, i0);
    lemma_dup_none(code, i0);
    lemma_lam_none(code, i0);
    lemma_app_none(code, i0);
    lemma_sup_none(code, i0);
    lemma_name_read(code, i0, i, x);
}

/// A lambda is read back, if its body is.
pub proof fn lemma_lam_back(code: Seq<u8>, i0: int, i: int, x: Seq<u8>, e: Ast)
    requires
        0 <= i0 <= i,
        skip(code, i0) == i,
        holds(code, i, print(Ast::Lam(x, Box::new(e)))),
        legal_name(x),
        legal(e),
        term_at(code, i + 3 + x.len()) == Ok::<(Ast, int), ParseError>(
            (e, i + 4 + x.len() + print(e).len()),
        ),
    ensures
        term_at(code, i0) == Ok::<(Ast, int), ParseError>(
            (Ast::Lam(x, Box::new(e)), i + print(Ast::Lam(x, Box::new(e))).len()),
        ),
{
    let head = seq![40u8, 206u8, 187u8];
    let pe = print(e);
    let gap = i + 3 + x.len();
    let shut = gap + 1 + pe.len();
    lemma_first_byte(e);
    lemma_holds_split(code, i, head + x + seq![32u8] + pe, seq![41u8]);
    lemma_holds_split(code, i, head + x + seq![32u8], pe);
    lemma_holds_split(code, i, head + x, seq![32u8]);
    lemma_holds_split(code, i, head, x);
    lemma_holds_byte(code, i, head, 0);
    lemma_holds_byte(code, i, head, 1);
    lemma_holds_byte(code, i, head, 2);
    lemma_holds_byte(code, i + 3, x, 0);
    lemma_holds_byte(code, gap, seq![32u8], 0);
    lemma_holds_byte(code, shut, seq![41u8], 0);
    lemma_skip_here(code, i + 1);
    lemma_skip_here(code, i + 3);
    lemma_name_read(code, i + 3, i + 3, x);
    lemma_let_none(code, i + 1);
    lemma_dup_none(code, i + 1);
    lemma_lam_some(code, i + 1, x, gap, e, shut);
    lemma_wrapped(code, i0, i, Ast::Lam(x, Box::new(e)), shut);
}

/// An application is read back, if its function and its argument are.
pub proof fn lemma_app_back(code: Seq<u8>, i0: int, i: int, f: Ast, a: Ast)
    requires
        0 <= i0 <= i,
        skip(code, i0) == i,
        holds(code, i, print(Ast::App(Box::new(f), Box::new(a)))),
        legal(f),
        legal(a),
        term_at(code, i + 1) == Ok::<(Ast, int), ParseError>((f, i + 1 + print(f).len())),
        term_at(code, i + 1 + print(f).len()) == Ok::<(Ast, int), ParseError>(
            (a, i + 2 + print(f).len() + print(a).len()),
        ),
    ensures
        term_at(code, i0) == Ok::<(Ast, int), ParseError>(
            (
                Ast::App(Box::new(f), Box::new(a)),
                i + print(Ast::App(Box::new(f), Box::new(a))).len(),
            ),
        ),
{
    let pf = print(f);
    let pa = print(a);
    let q2 = i + 1 + pf.len();
    let q3 = q2 + 1;
    let q4 = q3 + pa.len();
    lemma_first_byte(f);
    lemma_first_byte(a);
    lemma_holds_split(code, i, seq![40u8] + pf + seq![32u8] + pa, seq![41u8]);
    lemma_holds_split(code, i, seq![40u8] + pf + seq![32u8], pa);
    lemma_holds_split(code, i, seq![40u8] + pf, seq![32u8]);
    lemma_holds_split(code, i, seq![40u8], pf);
    lemma_holds_byte(code, i, seq![40u8], 0);
    lemma_holds_byte(code, i + 1, pf, 0);
    lemma_holds_byte(code, q2, seq![32u8], 0);
    lemma_holds_byte(code, q3, pa, 0);
    lemma_holds_byte(code, q4, seq![41u8], 0);
    lemma_skip_here(code, i + 1);
    lemma_skip_space(code, q2);
    lemma_skip_here(code, q4);
    lemma_list_more(code, i + 1, None, f, q2);
    lemma_list_more(code, q2, Some(f), a, q4);
    lemma_list_close(code, q4, Ast::App(Box::new(f), Box::new(a)));
    lemma_app_some(code, i0, (Ast::App(Box::new(f), Box::new(a)), q4 + 1));
    lemma_let_none(code, i0);
    lemma_dup_none(code, i0);
    lemma_lam_none(code, i0);
}

/// A superposition is read back, if its two terms are.
pub proof fn lemma_sup_back(code: Seq<u8>, i0: int, i: int, l: u64, a: Ast, b: Ast)
    requires
        0 <= i0 <= i,
        skip(code, i0) == i,
        holds(code, i, print(Ast::Sup(l, Box::new(a), Box::new(b)))),
        legal(a),
        legal(b),
        term_at(code, i + 2 + digits_of(l as nat).len()) == Ok::<(Ast, int), ParseError>(
            (a, i + 2 + digits_of(l as nat).len() + print(a).len()),
        ),
        term_at(code, i + 2 + digits_of(l as nat).len() + print(a).len()) == Ok::<
            (Ast, int),
            ParseError,
        >((b, i + 3 + digits_of(l as nat).len() + print(a).len() + print(b).len())),
    ensures
        term_at(code, i0) == Ok::<(Ast, int), ParseError>(
            (
                Ast::Sup(l, Box::new(a), Box::new(b)),
                i + print(Ast::Sup(l, Box::new(a), Box::new(b))).len(),
            ),
        ),
{
    let d = digits_of(l as nat);
    let pa = print(a);
    let pb = print(b);
    let b1 = i + 1 + d.len();
    let a0 = b1 + 1;
    let s1 = a0 + pa.len();
    let b0 = s1 + 1;
    let c1 = b0 + pb.len();
    lemma_first_byte(a);
    lemma_first_byte(b);
    lemma_digits_of(l as nat);
    lemma_holds_split(
        code,
        i,
        seq![35u8] + d + seq![123u8] + pa + seq![32u8] + pb,
        seq![125u8],
    );
    lemma_holds_split(code, i, seq![35u8] + d + seq![123u8] + pa + seq![32u8], pb);
    lemma_holds_split(code, i, seq![35u8] + d + seq![123u8] + pa, seq![32u8]);
    lemma_holds_split(code, i, seq![35u8] + d + seq![123u8], pa);
    lemma_holds_split(code, i, seq![35u8] + d, seq![123u8]);
    lemma_holds_split(code, i, seq![35u8], d);
    lemma_holds_byte(code, i, seq![35u8], 0);
    lemma_holds_byte(code, b1, seq![123u8], 0);
    lemma_holds_byte(code, s1, seq![32u8], 0);
    lemma_holds_byte(code, c1, seq![125u8], 0);
    lemma_label_read(code, i0, i, l);
    lemma_skip_here(code, b1);
    lemma_byte_read(code, b1, b1, LEFT_BRACE);
    lemma_skip_here(code, c1);
    lemma_byte_read(code, c1, c1, RIGHT_BRACE);
    lemma_let_none(code, i0);
    lemma_dup_none(code, i0);
    lemma_lam_none(code, i0);
    lemma_app_none(code, i0);
    lemma_sup_some(code, i0, l, b1, a0, a, s1, b, c1, c1 + 1);
}

/// A `let` is read back, if its two terms are.
pub proof fn lemma_let_back(code: Seq<u8>, i0: int, i: int, x: Seq<u8>, e: Ast, k: Ast)
    requires
        0 <= i0 <= i,
        skip(code, i0) == i,
        holds(code, i, print(Ast::Let(x, Box::new(e), Box::new(k)))),
        legal_name(x),
        legal(e),
        legal(k),
        term_at(code, i + 7 + x.len()) == Ok::<(Ast, int), ParseError>(
            (e, i + 8 + x.len() + print(e).len()),
        ),
        term_at(code, i + 9 + x.len() + print(e).len()) == Ok::<(Ast, int), ParseError>(
            (k, i + 10 + x.len() + print(e).len() + print(k).len()),
        ),
    ensures
        term_at(code, i0) == Ok::<(Ast, int), ParseError>(
            (
                Ast::Let(x, Box::new(e), Box::new(k)),
                i + print(Ast::Let(x, Box::new(e), Box::new(k))).len(),
            ),
        ),
{
    let head = seq![40u8, 108u8, 101u8, 116u8, 32u8];
    let eq = seq![32u8, 61u8, 32u8];
    let semi = seq![59u8, 32u8];
    let pe = print(e);
    let pk = print(k);
    let x0 = i + 5;
    let s1 = x0 + x.len();
    let e0 = s1 + 3;
    let m1 = e0 + pe.len();
    let k0 = m1 + 2;
    let r1 = k0 + pk.len();
    let t = Ast::Let(x, Box::new(e), Box::new(k));
    lemma_first_byte(e);
    lemma_first_byte(k);
    lemma_holds_split(code, i, head + x + eq + pe + semi + pk, seq![41u8]);
    lemma_holds_split(code, i, head + x + eq + pe + semi, pk);
    lemma_holds_split(code, i, head + x + eq + pe, semi);
    lemma_holds_split(code, i, head + x + eq, pe);
    lemma_holds_split(code, i, head + x, eq);
    lemma_holds_split(code, i, head, x);
    lemma_holds_byte(code, i, head, 0);
    lemma_holds_byte(code, i, head, 1);
    lemma_holds_byte(code, i, head, 2);
    lemma_holds_byte(code, i, head, 3);
    lemma_holds_byte(code, i, head, 4);
    lemma_holds_byte(code, x0, x, 0);
    lemma_holds_byte(code, s1, eq, 0);
    lemma_holds_byte(code, s1, eq, 1);
    lemma_holds_byte(code, s1, eq, 2);
    lemma_holds_byte(code, m1, semi, 0);
    lemma_holds_byte(code, m1, semi, 1);
    lemma_holds_byte(code, r1, seq![41u8], 0);
    lemma_skip_here(code, i + 1);
    lemma_skip_space(code, i + 4);
    lemma_name_read(code, i + 4, x0, x);
    lemma_skip_space(code, s1);
    lemma_byte_read(code, s1, s1 + 1, EQUALS);
    lemma_skip_here(code, m1);
    lemma_byte_read(code, m1, m1, SEMICOLON);
    lemma_let_some(code, i + 1, x, s1, s1 + 2, e, m1, m1 + 1, k, r1);
    lemma_wrapped(code, i0, i, t, r1);
}

/// The text of a `dup` up to the term it splits.
pub open spec fn dup_front(l: u64, x: Seq<u8>, y: Seq<u8>) -> Seq<u8> {
    seq![100u8, 117u8, 112u8, 32u8, 35u8] + digits_of(l as nat) + seq![123u8] + x + seq![32u8] + y
        + seq![125u8, 32u8, 61u8, 32u8]
}

/// The front of a `dup` is read token by token.
pub proof fn lemma_dup_front(code: Seq<u8>, j: int, l: u64, x: Seq<u8>, y: Seq<u8>)
    requires
        holds(code, j, dup_front(l, x, y)),
        legal_name(x),
        legal_name(y),
    ensures
        keyword_at(code, j, 100, 117, 112),
        label_at(code, j + 3) == Ok::<(u64, int), ParseError>(
            (l, j + 5 + digits_of(l as nat).len()),
        ),
        byte_at(code, j + 5 + digits_of(l as nat).len(), LEFT_BRACE) == Ok::<int, ParseError>(
            j + 6 + digits_of(l as nat).len(),
        ),
        name_at(code, j + 6 + digits_of(l as nat).len()) == Ok::<(Seq<u8>, int), ParseError>(
            (x, j + 6 + digits_of(l as nat).len() + x.len()),
        ),
        name_at(code, j + 6 + digits_of(l as nat).len() + x.len()) == Ok::<
            (Seq<u8>, int),
            ParseError,
        >((y, j + 7 + digits_of(l as nat).len() + x.len() + y.len())),
        byte_at(code, j + 7 + digits_of(l as nat).len() + x.len() + y.len(), RIGHT_BRACE) == Ok::<
            int,
            ParseError,
        >(j + 8 + digits_of(l as nat).len() + x.len() + y.len()),
        byte_at(code, j + 8 + digits_of(l as nat).len() + x.len() + y.len(), EQUALS) == Ok::<
            int,
            ParseError,
        >(j + 10 + digits_of(l as nat).len() + x.len() + y.len()),
        j + 11 + digits_of(l as nat).len() + x.len() + y.len() <= code.len(),
        code[j + 10 + digits_of(l as nat).len() + x.len() + y.len()] == SPACE,
{
    let head = seq![100u8, 117u8, 112u8, 32u8, 35u8];
    let d = digits_of(l as nat);
    let close = seq![125u8, 32u8, 61u8, 32u8];
    let b1 = j + 5 + d.len();
    let x0 = b1 + 1;
    let s1 = x0 + x.len();
    let y0 = s1 + 1;
    let c1 = y0 + y.len();
    lemma_digits_of(l as nat);
    let h1 = head + d;
    let h2 = h1 + seq![123u8];
    let h3 = h2 + x;
    let h4 = h3 + seq![32u8];
    let h5 = h4 + y;
    lemma_holds_split(code, j, h5, close);
    lemma_holds_split(code, j, h4, y);
    lemma_holds_split(code, j, h3, seq![32u8]);
    lemma_holds_split(code, j, h2, x);
    lemma_holds_split(code, j, h1, seq![123u8]);
    lemma_holds_split(code, j, head, d);
    lemma_holds_byte(code, j, head, 0);
    lemma_holds_byte(code, j, head, 1);
    lemma_holds_byte(code, j, head, 2);
    lemma_holds_byte(code, j, head, 3);
    lemma_holds_byte(code, j, head, 4);
    lemma_holds_byte(code, b1, seq![123u8], 0);
    lemma_holds_byte(code, x0, x, 0);
    lemma_holds_byte(code, s1, seq![32u8], 0);
    lemma_holds_byte(code, y0, y, 0);
    lemma_holds_byte(code, c1, close, 0);
    lemma_holds_byte(code, c1, close, 1);
    lemma_holds_byte(code, c1, close, 2);
    lemma_holds_byte(code, c1, close, 3);
    lemma_skip_space(code, j + 3);
    lemma_holds_one(code, j + 4, 35u8);
    lemma_holds_split(code, j + 4, seq![35u8], d);
    lemma_label_read(code, j + 3, j + 4, l);
    lemma_skip_here(code, b1);
    lemma_byte_read(code, b1, b1, LEFT_BRACE);
    lemma_skip_here(code, x0);
    lemma_name_read(code, x0, x0, x);
    lemma_skip_space(code, s1);
    lemma_name_read(code, s1, y0, y);
    lemma_skip_here(code, c1);
    lemma_byte_read(code, c1, c1, RIGHT_BRACE);
    lemma_skip_space(code, c1 + 1);
    lemma_byte_read(code, c1 + 1, c1 + 2, EQUALS);
}

/// The text of a `dup` is a `(`, its front, and the rest.
pub proof fn lemma_dup_parts(l: u64, x: Seq<u8>, y: Seq<u8>, e: Ast, k: Ast)
    ensures
        print(Ast::Dup(l, x, y, Box::new(e), Box::new(k))) == seq![40u8] + dup_front(l, x, y)
            + print(e) + seq![59u8, 32u8] + print(k) + seq![41u8],
{
    let d = digits_of(l as nat);
    let head = seq![40u8, 100u8, 117u8, 112u8, 32u8, 35u8];
    assert(head =~= seq![40u8] + seq![100u8, 117u8, 112u8, 32u8, 35u8]);
    assert(print(Ast::Dup(l, x, y, Box::new(e), Box::new(k))) =~= seq![40u8] + dup_front(l, x, y)
        + print(e) + seq![59u8, 32u8] + print(k) + seq![41u8]);
}

/// A `dup` in parentheses is read, if its front stands there and its two
/// terms are read.
pub proof fn lemma_dup_back(
    code: Seq<u8>,
    i0: int,
    i: int,
    l: u64,
    x: Seq<u8>,
    y: Seq<u8>,
    e: Ast,
    k: Ast,
    m1: int,
    r1: int,
)
    requires
        0 <= i0 <= i,
        skip(code, i0) == i,
        i < code.len(),
        code[i] == LEFT_PAREN,
        holds(code, i + 1, dup_front(l, x, y)),
        legal_name(x),
        legal_name(y),
        term_at(code, i + 11 + digits_of(l as nat).len() + x.len() + y.len()) == Ok::<
            (Ast, int),
            ParseError,
        >((e, m1)),
        i + 11 + digits_of(l as nat).len() + x.len() + y.len() < m1 < code.len(),
        code[m1] == SEMICOLON,
        term_at(code, m1 + 1) == Ok::<(Ast, int), ParseError>((k, r1)),
        m1 + 1 < r1 < code.len(),
        code[r1] == RIGHT_PAREN,
    ensures
        term_at(code, i0) == Ok::<(Ast, int), ParseError>(
            (Ast::Dup(l, x, y, Box::new(e), Box::new(k)), r1 + 1),
        ),
{
    let d = digits_of(l as nat);
    let c1 = i + 8 + d.len() + x.len() + y.len();
    let t = Ast::Dup(l, x, y, Box::new(e), Box::new(k));
    lemma_dup_front(code, i + 1, l, x, y);
    lemma_skip_here(code, i + 1);
    lemma_skip_here(code, m1);
    lemma_byte_read(code, m1, m1, SEMICOLON);
    lemma_let_none(code, i + 1);
    lemma_dup_some(
        code,
        i + 1,
        l,
        c1 - x.len() - y.len() - 2,
        c1 - x.len() - y.len() - 1,
        x,
        c1 - y.len() - 1,
        y,
        c1,
        c1 + 1,
        c1 + 3,
        e,
        m1,
        m1 + 1,
        k,
        r1,
    );
    lemma_wrapped(code, i0, i, t, r1);
}

/// The parser reads back what the printer writes: where the text of a
/// legal term stands, and no name goes on behind it, the term is read.
pub proof fn lemma_term_back(code: Seq<u8>, i0: int, i: int, t: Ast)
    requires
        legal(t),
        0 <= i0 <= i,
        skip(code, i0) == i,
        holds(code, i, print(t)),
        name_stops(code, i + print(t).len()),
    ensures
        term_at(code, i0) == Ok::<(Ast, int), ParseError>((t, i + print(t).len())),
    decreases t, 1int,
{
    match t {
        Ast::Var(x) => {
            lemma_var_back(code, i0, i, x);
        },
        Ast::Lam(_, _) => {
            lemma_back_lam(code, i0, i, t);
        },
        Ast::App(_, _) => {
            lemma_back_app(code, i0, i, t);
        },
        Ast::Sup(_, _, _) => {
            lemma_back_sup(code, i0, i, t);
        },
        Ast::Dup(_, _, _, _, _) => {
            lemma_back_dup(code, i0, i, t);
        },
        Ast::Let(_, _, _) => {
            lemma_back_let(code, i0, i, t);
        },
    }
}

pub proof fn lemma_back_lam(code: Seq<u8>, i0: int, i: int, t: Ast)
    requires
        legal(t),
        t is Lam,
        0 <= i0 <= i,
        skip(code, i0) == i,
        holds(code, i, print(t)),
        name_stops(code, i + print(t).len()),
    ensures
        term_at(code, i0) == Ok::<(Ast, int), ParseError>((t, i + print(t).len())),
    decreases t, 0int,
{
    if let Ast::Lam(x, e) = t {
        let head = seq![40u8, 206u8, 187u8];
        let pe = print(*e);
        let gap = i + 3 + x.len();
        lemma_first_byte(*e);
        lemma_holds_split(code, i, head + x + seq![32u8] + pe, seq![41u8]);
        lemma_holds_split(code, i, head + x + seq![32u8], pe);
        lemma_holds_split(code, i, head + x, seq![32u8]);
        lemma_holds_byte(code, gap, seq![32u8], 0);
        lemma_holds_byte(code, gap + 1, pe, 0);
        lemma_holds_byte(code, gap + 1 + pe.len(), seq![41u8], 0);
        lemma_skip_space(code, gap);
        lemma_term_back(code, gap, gap + 1, *e);
        lemma_lam_back(code, i0, i, x, *e);
    }
}

pub proof fn lemma_back_app(code: Seq<u8>, i0: int, i: int, t: Ast)
    requires
        legal(t),
        t is App,
        0 <= i0 <= i,
        skip(code, i0) == i,
        holds(code, i, print(t)),
        name_stops(code, i + print(t).len()),
    ensures
        term_at(code, i0) == Ok::<(Ast, int), ParseError>((t, i + print(t).len())),
    decreases t, 0int,
{
    if let Ast::App(f, a) = t {
        let pf = print(*f);
        let pa = print(*a);
        let q2 = i + 1 + pf.len();
        lemma_first_byte(*f);
        lemma_first_byte(*a);
        lemma_holds_split(code, i, seq![40u8] + pf + seq![32u8] + pa, seq![41u8]);
        lemma_holds_split(code, i, seq![40u8] + pf + seq![32u8], pa);
        lemma_holds_split(code, i, seq![40u8] + pf, seq![32u8]);
        lemma_holds_split(code, i, seq![40u8], pf);
        lemma_holds_byte(code, i + 1, pf, 0);
        lemma_holds_byte(code, q2, seq![32u8], 0);
        lemma_holds_byte(code, q2 + 1, pa, 0);
        lemma_holds_byte(code, q2 + 1 + pa.len(), seq![41u8], 0);
        lemma_skip_here(code, i + 1);
        lemma_skip_space(code, q2);
        lemma_term_back(code, i + 1, i + 1, *f);
        lemma_term_back(code, q2, q2 + 1, *a);
        lemma_app_back(code, i0, i, *f, *a);
    }
}

pub proof fn lemma_back_sup(code: Seq<u8>, i0: int, i: int, t: Ast)
    requires
        legal(t),
        t is Sup,
        0 <= i0 <= i,
        skip(code, i0) == i,
        holds(code, i, print(t)),
        name_stops(code, i + print(t).len()),
    ensures
        term_at(code, i0) == Ok::<(Ast, int), ParseError>((t, i + print(t).len())),
    decreases t, 0int,
{
    if let Ast::Sup(l, a, b) = t {
        let d = digits_of(l as nat);
        let pa = print(*a);
        let pb = print(*b);
        let a0 = i + 2 + d.len();
        let s1 = a0 + pa.len();
        lemma_first_byte(*a);
        lemma_first_byte(*b);
        lemma_holds_split(
            code,
            i,
            seq![35u8] + d + seq![123u8] + pa + seq![32u8] + pb,
            seq![125u8],
        );
        lemma_holds_split(code, i, seq![35u8] + d + seq![123u8] + pa + seq![32u8], pb);
        lemma_holds_split(code, i, seq![35u8] + d + seq![123u8] + pa, seq![32u8]);
        lemma_holds_split(code, i, seq![35u8] + d + seq![123u8], pa);
        lemma_holds_byte(code, a0, pa, 0);
        lemma_holds_byte(code, s1, seq![32u8], 0);
        lemma_holds_byte(code, s1 + 1, pb, 0);
        lemma_holds_byte(code, s1 + 1 + pb.len(), seq![125u8], 0);
        lemma_skip_here(code, a0);
        lemma_skip_space(code, s1);
        lemma_term_back(code, a0, a0, *a);
        lemma_term_back(code, s1, s1 + 1, *b);
        lemma_sup_back(code, i0, i, l, *a, *b);
    }
}

pub proof fn lemma_back_dup(code: Seq<u8>, i0: int, i: int, t: Ast)
    requires
        legal(t),
        t is Dup,
        0 <= i0 <= i,
        skip(code, i0) == i,
        holds(code, i, print(t)),
        name_stops(code, i + print(t).len()),
    ensures
        term_at(code, i0) == Ok::<(Ast, int), ParseError>((t, i + print(t).len())),
    decreases t, 0int,
{
    if let Ast::Dup(l, x, y, e, k) = t {
        let d = digits_of(l as nat);
        let front = dup_front(l, x, y);
        let semi = seq![59u8, 32u8];
        let pe = print(*e);
        let pk = print(*k);
        let c1 = i + 8 + d.len() + x.len() + y.len();
        let e0 = c1 + 4;
        let m1 = e0 + pe.len();
        let k0 = m1 + 2;
        lemma_first_byte(*e);
        lemma_first_byte(*k);
        lemma_dup_parts(l, x, y, *e, *k);
        lemma_holds_split(code, i, seq![40u8] + front + pe + semi + pk, seq![41u8]);
        lemma_holds_split(code, i, seq![40u8] + front + pe + semi, pk);
        lemma_holds_split(code, i, seq![40u8] + front + pe, semi);
        lemma_holds_split(code, i, seq![40u8] + front, pe);
        lemma_holds_split(code, i, seq![40u8], front);
        lemma_dup_front(code, i + 1, l, x, y);
        lemma_holds_byte(code, e0, pe, 0);
        lemma_holds_byte(code, m1, semi, 0);
        lemma_holds_byte(code, m1, semi, 1);
        lemma_holds_byte(code, k0, pk, 0);
        lemma_holds_byte(code, k0 + pk.len(), seq![41u8], 0);
        lemma_skip_space(code, c1 + 3);
        lemma_skip_space(code, m1 + 1);
        lemma_holds_byte(code, i, seq![40u8], 0);
        lemma_term_back(code, c1 + 3, e0, *e);
        lemma_term_back(code, m1 + 1, k0, *k);
        lemma_dup_back(code, i0, i, l, x, y, *e, *k, m1, k0 + pk.len());
    }
}

pub proof fn lemma_back_let(code: Seq<u8>, i0: int, i: int, t: Ast)
    requires
        legal(t),
        t is Let,
        0 <= i0 <= i,
        skip(code, i0) == i,
        holds(code, i, print(t)),
        name_stops(code, i + print(t).len()),
    ensures
        term_at(code, i0) == Ok::<(Ast, int), ParseError>((t, i + print(t).len())),
    decreases t, 0int,
{
    if let Ast::Let(x, e, k) = t {
        let head = seq![40u8, 108u8, 101u8, 116u8, 32u8];
        let eq = seq![32u8, 61u8, 32u8];
        let semi = seq![59u8, 32u8];
        let pe = print(*e);
        let pk = print(*k);
        let s1 = i + 5 + x.len();
        let e0 = s1 + 3;
        let m1 = e0 + pe.len();
        let k0 = m1 + 2;
        lemma_first_byte(*e);
        lemma_first_byte(*k);
        lemma_holds_split(code, i, head + x + eq + pe + semi + pk, seq![41u8]);
        lemma_holds_split(code, i, head + x + eq + pe + semi, pk);
        lemma_holds_split(code, i, head + x + eq + pe, semi);
        lemma_holds_split(code, i, head + x + eq, pe);
        lemma_holds_split(code, i, head + x, eq);
        lemma_holds_byte(code, s1, eq, 2);
        lemma_holds_byte(code, e0, pe, 0);
        lemma_holds_byte(code, m1, semi, 0);
        lemma_holds_byte(code, m1, semi, 1);
        lemma_holds_byte(code, k0, pk, 0);
        lemma_holds_byte(code, k0 + pk.len(), seq![41u8], 0);
        lemma_skip_space(code, s1 + 2);
        lemma_skip_space(code, m1 + 1);
        lemma_term_back(code, s1 + 2, e0, *e);
        lemma_term_back(code, m1 + 1, k0, *k);
        lemma_let_back(code, i0, i, x, *e, *k);
    }
}

/// `parse ∘ print = id` on legal terms.
pub proof fn lemma_parse_print(t: Ast)
    requires
        legal(t),
    ensures
        parse(print(t)) == Ok::<Ast, ParseError>(t),
{
    let code = print(t);
    lemma_first_byte(t);
    lemma_skip_here(code, 0);
    assert(code.subrange(0, code.len() as int) =~= code);
    lemma_term_back(code, 0, 0, t);
    lemma_skip_here(code, code.len() as int);
}

/// A term with legal names that is printed and parsed is the same term
/// again, whatever names the pool has gained meanwhile.
pub proof fn lemma_text_round_trip(
    t: Term,
    names: Seq<Seq<u8>>,
    back: Term,
    grown: Seq<Seq<u8>>,
)
    requires
        t.known(names),
        legal(t.ast(names)),
        extends(names, grown),
        grown.no_duplicates(),
        back.known(grown),
        parse(print(t.ast(names))) == Ok::<Ast, ParseError>(back.ast(grown)),
    ensures
        back == t,
{
    lemma_parse_print(t.ast(names));
    lemma_ast_extends(t, names, grown);
    lemma_ast_injective(back, t, grown);
}

} // verus!
