//! Terms of the source language.

use vstd::prelude::*;
use crate::intern::{IStr, Interner};
use crate::node::Label;

verus! {

/// A term of the affine lambda calculus with superpositions and
/// duplications.
#[derive(Debug, PartialEq, Eq, Hash)]
pub enum Term {
    /// Variable, e.g. `x`
    Var(IStr),
    /// Lambda, e.g. `(λx body)`
    Lam(IStr, Box<Term>),
    /// Application, e.g. `(f arg)`
    App(Box<Term>, Box<Term>),
    /// Superposition, e.g. `#0{x y}`
    Sup(Label, Box<Term>, Box<Term>),
    /// Duplication, e.g. `dup #0{x y} = z; body`
    Dup(Label, IStr, IStr, Box<Term>, Box<Term>),
    /// Let, e.g. `let x = expr; body`
    Let(IStr, Box<Term>, Box<Term>),
}

/// A term with its names written out.
pub enum Ast {
    Var(Seq<u8>),
    Lam(Seq<u8>, Box<Ast>),
    App(Box<Ast>, Box<Ast>),
    Sup(Label, Box<Ast>, Box<Ast>),
    Dup(Label, Seq<u8>, Seq<u8>, Box<Ast>, Box<Ast>),
    Let(Seq<u8>, Box<Ast>, Box<Ast>),
}

/// `b` holds the names of `a` at their places, and maybe more.
pub open spec fn extends(a: Seq<Seq<u8>>, b: Seq<Seq<u8>>) -> bool {
    a.len() <= b.len() && forall|i: int| 0 <= i < a.len() ==> #[trigger] b[i] == a[i]
}

impl Term {
    /// Every name of the term is one of `names`.
    pub open spec fn known(self, names: Seq<Seq<u8>>) -> bool
        decreases self,
    {
        match self {
            Term::Var(x) => x.id < names.len(),
            Term::Lam(x, body) => x.id < names.len() && body.known(names),
            Term::App(f, a) => f.known(names) && a.known(names),
            Term::Sup(_, a, b) => a.known(names) && b.known(names),
            Term::Dup(_, x, y, e, body) => x.id < names.len() && y.id < names.len() && e.known(
                names,
            ) && body.known(names),
            Term::Let(x, e, body) => x.id < names.len() && e.known(names) && body.known(names),
        }
    }

    /// The term with each name written out as `names` has it.
    pub open spec fn ast(self, names: Seq<Seq<u8>>) -> Ast
        decreases self,
    {
        match self {
            Term::Var(x) => Ast::Var(names[x.id as int]),
            Term::Lam(x, body) => Ast::Lam(names[x.id as int], Box::new(body.ast(names))),
            Term::App(f, a) => Ast::App(Box::new(f.ast(names)), Box::new(a.ast(names))),
            Term::Sup(l, a, b) => Ast::Sup(l, Box::new(a.ast(names)), Box::new(b.ast(names))),
            Term::Dup(l, x, y, e, body) => Ast::Dup(
                l,
                names[x.id as int],
                names[y.id as int],
                Box::new(e.ast(names)),
                Box::new(body.ast(names)),
            ),
            Term::Let(x, e, body) => Ast::Let(
                names[x.id as int],
                Box::new(e.ast(names)),
                Box::new(body.ast(names)),
            ),
        }
    }
}

/// A term reads the same in a pool that has grown.
pub proof fn lemma_ast_extends(t: Term, a: Seq<Seq<u8>>, b: Seq<Seq<u8>>)
    requires
        t.known(a),
        extends(a, b),
    ensures
        t.known(b),
        t.ast(b) == t.ast(a),
    decreases t,
{
    match t {
        Term::Var(x) => {},
        Term::Lam(x, body) => {
            lemma_ast_extends(*body, a, b);
        },
        Term::App(f, x) => {
            lemma_ast_extends(*f, a, b);
            lemma_ast_extends(*x, a, b);
        },
        Term::Sup(_, x, y) => {
            lemma_ast_extends(*x, a, b);
            lemma_ast_extends(*y, a, b);
        },
        Term::Dup(_, x, y, e, body) => {
            lemma_ast_extends(*e, a, b);
            lemma_ast_extends(*body, a, b);
        },
        Term::Let(x, e, body) => {
            lemma_ast_extends(*e, a, b);
            lemma_ast_extends(*body, a, b);
        },
    }
}

/// In a pool without a name twice, terms that read the same are the same.
pub proof fn lemma_ast_injective(s: Term, t: Term, names: Seq<Seq<u8>>)
    requires
        names.no_duplicates(),
        s.known(names),
        t.known(names),
        s.ast(names) == t.ast(names),
    ensures
        s == t,
    decreases s,
{
    match (s, t) {
        (Term::Var(x), Term::Var(y)) => {},
        (Term::Lam(x, b1), Term::Lam(y, b2)) => {
            lemma_ast_injective(*b1, *b2, names);
        },
        (Term::App(f1, a1), Term::App(f2, a2)) => {
            lemma_ast_injective(*f1, *f2, names);
            lemma_ast_injective(*a1, *a2, names);
        },
        (Term::Sup(_, a1, b1), Term::Sup(_, a2, b2)) => {
            lemma_ast_injective(*a1, *a2, names);
            lemma_ast_injective(*b1, *b2, names);
        },
        (Term::Dup(_, _, _, e1, b1), Term::Dup(_, _, _, e2, b2)) => {
            lemma_ast_injective(*e1, *e2, names);
            lemma_ast_injective(*b1, *b2, names);
        },
        (Term::Let(_, e1, b1), Term::Let(_, e2, b2)) => {
            lemma_ast_injective(*e1, *e2, names);
            lemma_ast_injective(*b1, *b2, names);
        },
        _ => {},
    }
}

impl Clone for Term {
    fn clone(&self) -> (t: Term)
        ensures
            t == *self,
        decreases self,
    {
        match self {
            Term::Var(x) => Term::Var(*x),
            Term::Lam(x, body) => Term::Lam(*x, Box::new((&**body).clone())),
            Term::App(f, a) => Term::App(Box::new((&**f).clone()), Box::new((&**a).clone())),
            Term::Sup(l, a, b) => Term::Sup(
                *l,
                Box::new((&**a).clone()),
                Box::new((&**b).clone()),
            ),
            Term::Dup(l, x, y, e, body) => Term::Dup(
                *l,
                *x,
                *y,
                Box::new((&**e).clone()),
                Box::new((&**body).clone()),
            ),
            Term::Let(x, e, body) => Term::Let(
                *x,
                Box::new((&**e).clone()),
                Box::new((&**body).clone()),
            ),
        }
    }
}

/// The decimal digits of `n`.
pub open spec fn digits_of(n: nat) -> Seq<u8>
    decreases n,
{
    if n < 10 {
        seq![(48 + n) as u8]
    } else {
        digits_of(n / 10).push((48 + n % 10) as u8)
    }
}

/// The text of a term:
///
/// - `Var v` is `v`
/// - `Lam x e` is `(λx e)`
/// - `App f a` is `(f a)`
/// - `Sup l a b` is `#l{a b}`
/// - `Dup l x y e k` is `(dup #l{x y} = e; k)`
/// - `Let x e k` is `(let x = e; k)`
pub open spec fn print(t: Ast) -> Seq<u8>
    decreases t,
{
    match t {
        Ast::Var(x) => x,
        Ast::Lam(x, e) => seq![40u8, 206u8, 187u8] + x + seq![32u8] + print(*e) + seq![41u8],
        Ast::App(f, a) => seq![40u8] + print(*f) + seq![32u8] + print(*a) + seq![41u8],
        Ast::Sup(l, a, b) => seq![35u8] + digits_of(l as nat) + seq![123u8] + print(*a) + seq![
            32u8,
        ] + print(*b) + seq![125u8],
        Ast::Dup(l, x, y, e, k) => seq![40u8, 100u8, 117u8, 112u8, 32u8, 35u8] + digits_of(
            l as nat,
        ) + seq![123u8] + x + seq![32u8] + y + seq![125u8, 32u8, 61u8, 32u8] + print(*e) + seq![
            59u8,
            32u8,
        ] + print(*k) + seq![41u8],
        Ast::Let(x, e, k) => seq![40u8, 108u8, 101u8, 116u8, 32u8] + x + seq![32u8, 61u8, 32u8]
            + print(*e) + seq![59u8, 32u8] + print(*k) + seq![41u8],
    }
}

/// Writes the decimal digits of `n` behind `out`.
pub fn push_digits(n: u64, out: &mut Vec<u8>)
    ensures
        final(out)@ == old(out)@ + digits_of(n as nat),
    decreases n,
{
    if n >= 10 {
        push_digits(n / 10, out);
    }
    out.push(48 + (n % 10) as u8);
    proof {
        assert(out@ =~= old(out)@ + digits_of(n as nat));
    }
}

/// Writes `bytes` behind `out`.
pub fn push_all(bytes: &[u8], out: &mut Vec<u8>)
    ensures
        final(out)@ == old(out)@ + bytes@,
{
    let mut i: usize = 0;
    while i < bytes.len()
        invariant
            i <= bytes@.len(),
            out@ == old(out)@ + bytes@.subrange(0, i as int),
        decreases bytes@.len() - i,
    {
        out.push(bytes[i]);
        proof {
            assert(out@ =~= old(out)@ + bytes@.subrange(0, i + 1));
        }
        i += 1;
    }
    proof {
        assert(bytes@.subrange(0, i as int) =~= bytes@);
    }
}

/// `String::from_utf8_lossy`, made a `String` of its own: bytes that are
/// UTF-8 come back as the text that they encode.
#[verifier::external_body]
pub(crate) fn text_of(bytes: &[u8]) -> (s: String)
    ensures
        vstd::utf8::valid_utf8(bytes@) ==> vstd::utf8::encode_utf8(s@) == bytes@,
{
    String::from_utf8_lossy(bytes).into_owned()
}

impl Interner {
    /// The name that `h` stands for, as text.
    pub fn text(&self, h: IStr) -> (s: String)
        requires
            self.knows(h),
        ensures
            vstd::utf8::valid_utf8(self.name_of(h)) ==> vstd::utf8::encode_utf8(s@)
                == self.name_of(h),
    {
        text_of(self.name(h))
    }
}

impl Term {
    /// Writes the text of the term behind `out`.
    pub fn write_to(&self, pool: &Interner, out: &mut Vec<u8>)
        requires
            self.known(pool@),
        ensures
            final(out)@ == old(out)@ + print(self.ast(pool@)),
        decreases self,
    {
        let ghost start = out@;
        match self {
            Term::Var(x) => {
                push_all(pool.name(*x), out);
            },
            Term::Lam(x, e) => {
                out.push(40);
                out.push(206);
                out.push(187);
                push_all(pool.name(*x), out);
                out.push(32);
                e.write_to(pool, out);
                out.push(41);
            },
            Term::App(f, a) => {
                out.push(40);
                f.write_to(pool, out);
                out.push(32);
                a.write_to(pool, out);
                out.push(41);
            },
            Term::Sup(l, a, b) => {
                out.push(35);
                push_digits(*l, out);
                out.push(123);
                a.write_to(pool, out);
                out.push(32);
                b.write_to(pool, out);
                out.push(125);
            },
            Term::Dup(l, x, y, e, k) => {
                out.push(40);
                out.push(100);
                out.push(117);
                out.push(112);
                out.push(32);
                out.push(35);
                push_digits(*l, out);
                out.push(123);
                push_all(pool.name(*x), out);
                out.push(32);
                push_all(pool.name(*y), out);
                out.push(125);
                out.push(32);
                out.push(61);
                out.push(32);
                e.write_to(pool, out);
                out.push(59);
                out.push(32);
                k.write_to(pool, out);
                out.push(41);
            },
            Term::Let(x, e, k) => {
                out.push(40);
                out.push(108);
                out.push(101);
                out.push(116);
                out.push(32);
                push_all(pool.name(*x), out);
                out.push(32);
                out.push(61);
                out.push(32);
                e.write_to(pool, out);
                out.push(59);
                out.push(32);
                k.write_to(pool, out);
                out.push(41);
            },
        }
        proof {
            assert(out@ =~= start + print(self.ast(pool@)));
        }
    }

    /// The text of the term, as bytes.
    pub fn pretty(&self, pool: &Interner) -> (out: Vec<u8>)
        requires
            self.known(pool@),
        ensures
            out@ == print(self.ast(pool@)),
    {
        let mut out: Vec<u8> = Vec::new();
        self.write_to(pool, &mut out);
        proof {
            assert(out@ =~= print(self.ast(pool@)));
        }
        out
    }

    /// The text of the term.
    pub fn to_string(&self, pool: &Interner) -> (s: String)
        requires
            self.known(pool@),
        ensures
            vstd::utf8::valid_utf8(print(self.ast(pool@))) ==> vstd::utf8::encode_utf8(s@)
                == print(self.ast(pool@)),
            crate::roundtrip::legal(self.ast(pool@)) ==> vstd::utf8::encode_utf8(s@) == print(
                self.ast(pool@),
            ),
    {
        let bytes = self.pretty(pool);
        proof {
            if crate::roundtrip::legal(self.ast(pool@)) {
                crate::encoding::lemma_print_is_utf8(self.ast(pool@));
            }
        }
        text_of(bytes.as_slice())
    }
}

} // verus!
