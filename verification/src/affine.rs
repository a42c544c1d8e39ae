//! Which terms have a graph, said of the term alone.
//!
//! A term is checked with the binders in scope and, for each, whether its
//! variable has occurred. The builder refuses exactly the terms that the
//! check refuses, and for the same reason.

use vstd::prelude::*;
use crate::builder::{innermost, lemma_built_dup, lemma_built_one, lemma_built_pair, BuildError};
use crate::intern::IStr;
use crate::net::Net;
use crate::node::{Binder, Field, FieldRef, Kind, NodeRef};
use crate::steps::{lemma_alloc_at, lemma_alloc_dup, lemma_bind};
use crate::syntax::Term;

verus! {

/// The place of the innermost binder of `name` in `scope`, the innermost
/// last.
pub open spec fn innermost_at(scope: Seq<(IStr, bool)>, name: IStr) -> Option<int>
    decreases scope.len(),
{
    if scope.len() == 0 {
        None
    } else if scope.last().0 == name {
        Some(scope.len() - 1)
    } else {
        innermost_at(scope.drop_last(), name)
    }
}

impl Term {
    /// The number of nodes that the graph of the term has.
    pub open spec fn size(self) -> nat
        decreases self,
    {
        match self {
            Term::Var(_) => 0,
            Term::Lam(_, body) => 1 + body.size(),
            Term::App(f, a) => 1 + f.size() + a.size(),
            Term::Sup(_, a, b) => 1 + a.size() + b.size(),
            Term::Dup(_, _, _, e, body) => 1 + e.size() + body.size(),
            Term::Let(_, e, body) => 2 + e.size() + body.size(),
        }
    }

    /// Checks the term under the binders of `scope`, each with whether its
    /// variable has occurred, and gives the scope with the occurrences of
    /// the term marked: a variable occurs once at most, the two variables
    /// of a `Dup` have two names, and one of them occurs.
    pub open spec fn check(self, scope: Seq<(IStr, bool)>) -> Result<Seq<(IStr, bool)>, BuildError>
        decreases self,
    {
        match self {
            Term::Var(x) => match innermost_at(scope, x) {
                None => Ok(scope),
                Some(i) => if scope[i].1 {
                    Err(BuildError::NonAffineUse(x))
                } else {
                    Ok(scope.update(i, (x, true)))
                },
            },
            Term::Lam(x, body) => match body.check(scope.push((x, false))) {
                Err(e) => Err(e),
                Ok(s) => Ok(s.drop_last()),
            },
            Term::App(f, a) => match f.check(scope) {
                Err(e) => Err(e),
                Ok(s) => a.check(s),
            },
            Term::Sup(_, a, b) => match a.check(scope) {
                Err(e) => Err(e),
                Ok(s) => b.check(s),
            },
            Term::Dup(_, a, b, e, body) => if a == b {
                Err(BuildError::DupSameName)
            } else {
                match e.check(scope) {
                    Err(e) => Err(e),
                    Ok(s) => match body.check(s.push((a, false)).push((b, false))) {
                        Err(e) => Err(e),
                        Ok(s2) => if s2[s2.len() - 2].1 || s2[s2.len() - 1].1 {
                            Ok(s2.drop_last().drop_last())
                        } else {
                            Err(BuildError::DupBothDead)
                        },
                    },
                }
            },
            Term::Let(x, e, body) => match body.check(scope.push((x, false))) {
                Err(e) => Err(e),
                Ok(s) => e.check(s.drop_last()),
            },
        }
    }

    /// The term has a graph: it is affine, and each `Dup` in it is used.
    pub open spec fn affine(self) -> bool {
        self.check(seq![]) is Ok
    }
}

/// The scope of the check says of each binder in the builder's scope
/// whether its variable has occurred in the graph; no binder is in scope
/// twice.
pub open spec fn tracks(g: Net, sb: Seq<(IStr, Binder)>, sf: Seq<(IStr, bool)>) -> bool {
    &&& sb.len() == sf.len()
    &&& forall|i: int|
        0 <= i < sb.len() ==> (#[trigger] sb[i]).0 == sf[i].0 && g.valid_binder(sb[i].1) && sf[i].1
            == g.slots[sb[i].1].used()
    &&& forall|i: int, j: int|
        0 <= i < sb.len() && 0 <= j < sb.len() && i != j ==> (#[trigger] sb[i]).1 != (
        #[trigger] sb[j]).1
}

/// `b` is a binder of the scope.
pub open spec fn in_scope(sb: Seq<(IStr, Binder)>, b: Binder) -> bool {
    exists|i: int| 0 <= i < sb.len() && (#[trigger] sb[i]).1 == b
}

/// What building a term into `dest` does to a graph, for the check: the
/// graph stays well-formed, what was there is still there, only binders of
/// the scope gain an occurrence, and the arena grows by the term's size at
/// most.
pub open spec fn extended(g: Net, h: Net, dest: Field, sb: Seq<(IStr, Binder)>, size: nat) -> bool {
    &&& h.wf()
    &&& g.built(h, dest)
    &&& h.kinds.len() <= g.kinds.len() + size
    &&& forall|b: Binder|
        g.valid_binder(b) && !in_scope(sb, b) ==> #[trigger] h.slots[b] == g.slots[b]
}

/// The two scopes name the same binder as the innermost of `x`.
pub proof fn lemma_same_innermost(sb: Seq<(IStr, Binder)>, sf: Seq<(IStr, bool)>, x: IStr)
    requires
        sb.len() == sf.len(),
        forall|i: int| 0 <= i < sb.len() ==> (#[trigger] sb[i]).0 == sf[i].0,
    ensures
        innermost(sb, x) is Some <==> innermost_at(sf, x) is Some,
        innermost_at(sf, x) matches Some(i) ==> 0 <= i < sb.len() && sf[i].0 == x && innermost(
            sb,
            x,
        ) == Some(sb[i].1),
    decreases sb.len(),
{
    if sb.len() > 0 {
        assert(sb[sb.len() - 1].0 == sf[sf.len() - 1].0);
        if sb.last().0 != x {
            assert forall|i: int| 0 <= i < sb.drop_last().len() implies (
            #[trigger] sb.drop_last()[i]).0 == sf.drop_last()[i].0 by {
                assert(sb[i].0 == sf[i].0);
            }
            lemma_same_innermost(sb.drop_last(), sf.drop_last(), x);
        }
    }
}

/// A scope that tracks a graph tracks it with a new, unused binder pushed,
/// once the binder's node is there.
pub proof fn lemma_tracks_push(
    g: Net,
    h: Net,
    sb: Seq<(IStr, Binder)>,
    sf: Seq<(IStr, bool)>,
    x: IStr,
    b: Binder,
)
    requires
        tracks(g, sb, sf),
        h.kinds.len() >= g.kinds.len(),
        forall|n: usize|
            n < g.kinds.len() && !(g.kinds[n as int] is Free) ==> #[trigger] h.kinds[n as int]
                == g.kinds[n as int],
        forall|i: int| 0 <= i < sb.len() ==> h.slots[(#[trigger] sb[i]).1] == g.slots[sb[i].1],
        !g.valid_binder(b),
        h.valid_binder(b),
        h.slots[b] == FieldRef::UnusedVar,
    ensures
        tracks(h, sb.push((x, b)), sf.push((x, false))),
{
    let sb1 = sb.push((x, b));
    let sf1 = sf.push((x, false));
    assert forall|i: int| 0 <= i < sb1.len() implies (#[trigger] sb1[i]).0 == sf1[i].0
        && h.valid_binder(sb1[i].1) && sf1[i].1 == h.slots[sb1[i].1].used() by {
        if i < sb.len() {
            assert(sb[i].0 == sf[i].0);
            assert(h.kinds[sb[i].1.node() as int] == g.kinds[sb[i].1.node() as int]);
        }
    }
    assert forall|i: int, j: int|
        0 <= i < sb1.len() && 0 <= j < sb1.len() && i != j implies (#[trigger] sb1[i]).1 != (
    #[trigger] sb1[j]).1 by {
        if i < sb.len() && j < sb.len() {
            assert(sb[i].1 != sb[j].1);
        } else if i < sb.len() {
            assert(g.valid_binder(sb[i].1));
        } else {
            assert(g.valid_binder(sb[j].1));
        }
    }
}

/// A scope that tracks a graph tracks it without its innermost binder.
pub proof fn lemma_tracks_pop(h: Net, sb: Seq<(IStr, Binder)>, sf: Seq<(IStr, bool)>)
    requires
        sb.len() > 0,
        tracks(h, sb, sf),
    ensures
        tracks(h, sb.drop_last(), sf.drop_last()),
{
    let sb0 = sb.drop_last();
    let sf0 = sf.drop_last();
    assert forall|i: int| 0 <= i < sb0.len() implies (#[trigger] sb0[i]).0 == sf0[i].0
        && h.valid_binder(sb0[i].1) && sf0[i].1 == h.slots[sb0[i].1].used() by {
        assert(sb[i].0 == sf[i].0);
    }
    assert forall|i: int, j: int|
        0 <= i < sb0.len() && 0 <= j < sb0.len() && i != j implies (#[trigger] sb0[i]).1 != (
    #[trigger] sb0[j]).1 by {
        assert(sb[i].1 != sb[j].1);
    }
}

/// A scope that tracks a graph tracks every graph in which the nodes and
/// slots of its binders are the same.
pub proof fn lemma_tracks_kept(g: Net, h: Net, sb: Seq<(IStr, Binder)>, sf: Seq<(IStr, bool)>)
    requires
        tracks(g, sb, sf),
        h.kinds.len() >= g.kinds.len(),
        forall|n: usize|
            n < g.kinds.len() && !(g.kinds[n as int] is Free) ==> #[trigger] h.kinds[n as int]
                == g.kinds[n as int],
        forall|i: int| 0 <= i < sb.len() ==> h.slots[(#[trigger] sb[i]).1] == g.slots[sb[i].1],
    ensures
        tracks(h, sb, sf),
{
    assert forall|i: int| 0 <= i < sb.len() implies (#[trigger] sb[i]).0 == sf[i].0
        && h.valid_binder(sb[i].1) && sf[i].1 == h.slots[sb[i].1].used() by {
        assert(h.kinds[sb[i].1.node() as int] == g.kinds[sb[i].1.node() as int]);
    }
}

/// The builder and the check agree on a variable.
pub proof fn lemma_checks_var(
    g: Net,
    t: Term,
    dest: Field,
    sb: Seq<(IStr, Binder)>,
    sf: Seq<(IStr, bool)>,
)
    requires
        t is Var,
        g.wf(),
        g.valid_field(dest),
        g.read(dest) == NodeRef::UnboundVar,
        tracks(g, sb, sf),
    ensures
        match g.build_term(t, dest, sb) {
            Ok(h) => t.check(sf) is Ok && extended(g, h, dest, sb, t.size()) && tracks(
                h,
                sb,
                t.check(sf)->Ok_0,
            ),
            Err(e) => t.check(sf) == Err::<Seq<(IStr, bool)>, BuildError>(e),
        },
{
    let x = t->Var_0;
    lemma_same_innermost(sb, sf, x);
    match innermost_at(sf, x) {
        None => {},
        Some(i) => {
            let b = sb[i].1;
            assert(sf[i].1 == g.slots[b].used());
            if !sf[i].1 {
                let h = g.bind(b, dest);
                lemma_bind(g, b, dest);
                let sf2 = sf.update(i, (x, true));
                assert forall|j: int| 0 <= j < sb.len() implies (#[trigger] sb[j]).0 == sf2[j].0
                    && h.valid_binder(sb[j].1) && sf2[j].1 == h.slots[sb[j].1].used() by {
                    assert(sb[j].0 == sf[j].0);
                    if j != i {
                        assert(sb[j].1 != sb[i].1);
                    }
                }
                assert forall|c: Binder| g.valid_binder(c) && !in_scope(sb, c) implies #[trigger]
                    h.slots[c] == g.slots[c] by {
                    assert(c != b);
                }
            }
        },
    }
}

/// Every binder of the scope `sb1` is one of `sb` or none of the graph.
pub open spec fn scope_of(g: Net, sb: Seq<(IStr, Binder)>, sb1: Seq<(IStr, Binder)>) -> bool {
    forall|b: Binder| g.valid_binder(b) && #[trigger] in_scope(sb1, b) ==> in_scope(sb, b)
}

pub proof fn lemma_scope_of_push(g: Net, sb: Seq<(IStr, Binder)>, x: IStr, b: Binder)
    requires
        !g.valid_binder(b),
    ensures
        scope_of(g, sb, sb.push((x, b))),
        scope_of(g, sb, sb),
{
    let sb1 = sb.push((x, b));
    assert forall|c: Binder| g.valid_binder(c) && #[trigger] in_scope(sb1, c) implies in_scope(
        sb,
        c,
    ) by {
        let i = choose|i: int| 0 <= i < sb1.len() && (#[trigger] sb1[i]).1 == c;
        assert(i < sb.len());
        assert(sb[i].1 == c);
    }
}

pub proof fn lemma_scope_of_push2(
    g: Net,
    sb: Seq<(IStr, Binder)>,
    x: IStr,
    b: Binder,
    y: IStr,
    c: Binder,
)
    requires
        !g.valid_binder(b),
        !g.valid_binder(c),
    ensures
        scope_of(g, sb, sb.push((x, b)).push((y, c))),
{
    let sb1 = sb.push((x, b)).push((y, c));
    assert forall|d: Binder| g.valid_binder(d) && #[trigger] in_scope(sb1, d) implies in_scope(
        sb,
        d,
    ) by {
        let i = choose|i: int| 0 <= i < sb1.len() && (#[trigger] sb1[i]).1 == d;
        assert(i < sb.len());
        assert(sb[i].1 == d);
    }
}

/// A node made at `dest` with one subterm built into its field `f1`.
pub proof fn lemma_extended_one(
    g: Net,
    g1: Net,
    h: Net,
    dest: Field,
    n: usize,
    k: Kind,
    f1: Field,
    sb: Seq<(IStr, Binder)>,
    sb1: Seq<(IStr, Binder)>,
    size: nat,
)
    requires
        g.grown(g1, n, k),
        k.owned(),
        g1.fields == g.fields.insert(dest, k.pointer(n)),
        f1.node() == Some(n),
        extended(g1, h, f1, sb1, size),
        scope_of(g, sb, sb1),
    ensures
        extended(g, h, dest, sb, 1 + size),
{
    lemma_built_one(g, g1, h, dest, n, k, f1);
    assert forall|b: Binder| g.valid_binder(b) && !in_scope(sb, b) implies #[trigger] h.slots[b]
        == g.slots[b] by {
        assert(g1.kinds[b.node() as int] == g.kinds[b.node() as int]);
        assert(g1.valid_binder(b));
        if in_scope(sb1, b) {
            assert(in_scope(sb, b));
        }
    }
}

/// A node made at `dest` with two subterms built into its fields `f1` and
/// `f2`, one after the other.
pub proof fn lemma_extended_pair(
    g: Net,
    g1: Net,
    g2: Net,
    h: Net,
    dest: Field,
    n: usize,
    k: Kind,
    f1: Field,
    f2: Field,
    sb: Seq<(IStr, Binder)>,
    size1: nat,
    size2: nat,
)
    requires
        g.grown(g1, n, k),
        k.owned(),
        g1.fields == g.fields.insert(dest, k.pointer(n)),
        f1.node() == Some(n),
        f2.node() == Some(n),
        extended(g1, g2, f1, sb, size1),
        extended(g2, h, f2, sb, size2),
    ensures
        extended(g, h, dest, sb, 1 + size1 + size2),
{
    lemma_built_pair(g, g1, g2, h, dest, n, k, f1, f2);
    assert forall|b: Binder| g.valid_binder(b) && !in_scope(sb, b) implies #[trigger] h.slots[b]
        == g.slots[b] by {
        assert(g1.kinds[b.node() as int] == g.kinds[b.node() as int]);
        assert(g2.kinds[b.node() as int] == g1.kinds[b.node() as int]);
        assert(g1.valid_binder(b));
        assert(g2.valid_binder(b));
        assert(g2.slots[b] == g1.slots[b]);
    }
}

/// The slots of the binders of a scope that tracks a graph are the same in
/// a graph in which every slot is.
pub proof fn lemma_tracks_after_alloc(
    g: Net,
    g1: Net,
    n: usize,
    k: Kind,
    sb: Seq<(IStr, Binder)>,
    sf: Seq<(IStr, bool)>,
)
    requires
        tracks(g, sb, sf),
        g.added(g1, n, k),
        g1.slots == g.slots,
    ensures
        tracks(g1, sb, sf),
        forall|b: Binder| b.node() == n ==> !g.valid_binder(b),
        forall|n: usize|
            n < g.kinds.len() && !(g.kinds[n as int] is Free) ==> #[trigger] g1.kinds[n as int]
                == g.kinds[n as int],
{
    assert forall|m: usize|
        m < g.kinds.len() && !(g.kinds[m as int] is Free) implies #[trigger] g1.kinds[m as int]
        == g.kinds[m as int] by {}
    lemma_tracks_kept(g, g1, sb, sf);
}

/// The builder and the check agree on a lambda, if they agree on its body.
pub proof fn lemma_checks_lam(
    g: Net,
    t: Term,
    dest: Field,
    sb: Seq<(IStr, Binder)>,
    sf: Seq<(IStr, bool)>,
)
    requires
        t is Lam,
        g.wf(),
        g.valid_field(dest),
        g.read(dest) == NodeRef::UnboundVar,
        tracks(g, sb, sf),
        g.kinds.len() + t.size() <= usize::MAX,
    ensures
        agree(g, t, dest, sb, sf),
    decreases t, 0int,
{
    if let Term::Lam(x, body) = t {
        let n = g.fresh();
        let g1 = g.alloc_at(dest, Kind::Lam);
        lemma_alloc_at(g, dest, Kind::Lam);
        lemma_tracks_after_alloc(g, g1, n, Kind::Lam, sb, sf);
        let b = Binder::LamX(n);
        let sb1 = sb.push((x, b));
        let sf1 = sf.push((x, false));
        lemma_tracks_push(g, g1, sb, sf, x, b);
        lemma_scope_of_push(g, sb, x, b);
        lemma_checks(g1, *body, Field::LamE(n), sb1, sf1);
        if let Ok(h) = g1.build_term(*body, Field::LamE(n), sb1) {
            let sf2 = body.check(sf1)->Ok_0;
            lemma_tracks_pop(h, sb1, sf2);
            assert(sb1.drop_last() =~= sb);
            lemma_extended_one(g, g1, h, dest, n, Kind::Lam, Field::LamE(n), sb, sb1, body.size());
        }
    }
}

/// The builder and the check agree on an application or a superposition,
/// if they agree on its two terms.
pub proof fn lemma_checks_pair(
    g: Net,
    t: Term,
    dest: Field,
    sb: Seq<(IStr, Binder)>,
    sf: Seq<(IStr, bool)>,
)
    requires
        t is App || t is Sup,
        g.wf(),
        g.valid_field(dest),
        g.read(dest) == NodeRef::UnboundVar,
        tracks(g, sb, sf),
        g.kinds.len() + t.size() <= usize::MAX,
    ensures
        agree(g, t, dest, sb, sf),
    decreases t, 0int,
{
    let n = g.fresh();
    let (k, e1, e2, f1, f2) = match t {
        Term::App(e1, e2) => (Kind::App, *e1, *e2, Field::AppE1(n), Field::AppE2(n)),
        Term::Sup(l, e1, e2) => (Kind::Sup(l), *e1, *e2, Field::SupE1(n), Field::SupE2(n)),
        _ => arbitrary(),
    };
    let g1 = g.alloc_at(dest, k);
    lemma_alloc_at(g, dest, k);
    lemma_tracks_after_alloc(g, g1, n, k, sb, sf);
    lemma_checks(g1, e1, f1, sb, sf);
    if let Ok(g2) = g1.build_term(e1, f1, sb) {
        let sf2 = e1.check(sf)->Ok_0;
        lemma_checks(g2, e2, f2, sb, sf2);
        if let Ok(h) = g2.build_term(e2, f2, sb) {
            lemma_extended_pair(g, g1, g2, h, dest, n, k, f1, f2, sb, e1.size(), e2.size());
        }
    }
}

/// The builder and the check agree on `t` built into `dest`: both refuse it
/// for the same reason, or both accept it, and then the graph is extended
/// and the scope of the check tracks it.
pub open spec fn agree(
    g: Net,
    t: Term,
    dest: Field,
    sb: Seq<(IStr, Binder)>,
    sf: Seq<(IStr, bool)>,
) -> bool {
    match g.build_term(t, dest, sb) {
        Ok(h) => t.check(sf) is Ok && extended(g, h, dest, sb, t.size()) && tracks(
            h,
            sb,
            t.check(sf)->Ok_0,
        ),
        Err(e) => t.check(sf) == Err::<Seq<(IStr, bool)>, BuildError>(e),
    }
}

/// The builder and the check agree on every term.
pub proof fn lemma_checks(
    g: Net,
    t: Term,
    dest: Field,
    sb: Seq<(IStr, Binder)>,
    sf: Seq<(IStr, bool)>,
)
    requires
        g.wf(),
        g.valid_field(dest),
        g.read(dest) == NodeRef::UnboundVar,
        tracks(g, sb, sf),
        g.kinds.len() + t.size() <= usize::MAX,
    ensures
        agree(g, t, dest, sb, sf),
    decreases t, 1int,
{
    match t {
        Term::Var(_) => {
            lemma_checks_var(g, t, dest, sb, sf);
        },
        Term::Lam(_, _) => {
            lemma_checks_lam(g, t, dest, sb, sf);
        },
        Term::App(_, _) => {
            lemma_checks_pair(g, t, dest, sb, sf);
        },
        Term::Sup(_, _, _) => {
            lemma_checks_pair(g, t, dest, sb, sf);
        },
        Term::Dup(_, _, _, _, _) => {
            lemma_checks_dup(g, t, dest, sb, sf);
        },
        Term::Let(_, _, _) => {
            lemma_checks_let(g, t, dest, sb, sf);
        },
    }
}

/// The builder and the check agree on a `let`, if they agree on its two
/// terms.
pub proof fn lemma_checks_let(
    g: Net,
    t: Term,
    dest: Field,
    sb: Seq<(IStr, Binder)>,
    sf: Seq<(IStr, bool)>,
)
    requires
        t is Let,
        g.wf(),
        g.valid_field(dest),
        g.read(dest) == NodeRef::UnboundVar,
        tracks(g, sb, sf),
        g.kinds.len() + t.size() <= usize::MAX,
    ensures
        agree(g, t, dest, sb, sf),
    decreases t, 0int,
{
    if let Term::Let(x, e, body) = t {
        let n = g.fresh();
        let g1 = g.alloc_at(dest, Kind::App);
        lemma_alloc_at(g, dest, Kind::App);
        lemma_tracks_after_alloc(g, g1, n, Kind::App, sb, sf);
        let m = g1.fresh();
        let g2 = g1.alloc_at(Field::AppE1(n), Kind::Lam);
        lemma_alloc_at(g1, Field::AppE1(n), Kind::Lam);
        lemma_tracks_after_alloc(g1, g2, m, Kind::Lam, sb, sf);
        let b = Binder::LamX(m);
        let sb1 = sb.push((x, b));
        let sf1 = sf.push((x, false));
        lemma_tracks_push(g1, g2, sb, sf, x, b);
        lemma_scope_of_push(g1, sb, x, b);
        lemma_checks(g2, *body, Field::LamE(m), sb1, sf1);
        if let Ok(g3) = g2.build_term(*body, Field::LamE(m), sb1) {
            let sf2 = body.check(sf1)->Ok_0;
            lemma_tracks_pop(g3, sb1, sf2);
            assert(sb1.drop_last() =~= sb);
            lemma_extended_one(
                g1,
                g2,
                g3,
                Field::AppE1(n),
                m,
                Kind::Lam,
                Field::LamE(m),
                sb,
                sb1,
                body.size(),
            );
            lemma_checks(g3, *e, Field::AppE2(n), sb, sf2.drop_last());
            if let Ok(h) = g3.build_term(*e, Field::AppE2(n), sb) {
                lemma_extended_pair(
                    g,
                    g1,
                    g3,
                    h,
                    dest,
                    n,
                    Kind::App,
                    Field::AppE1(n),
                    Field::AppE2(n),
                    sb,
                    1 + body.size(),
                    e.size(),
                );
            }
        }
    }
}

/// The builder and the check agree on a `dup`, if they agree on its two
/// terms.
pub proof fn lemma_checks_dup(
    g: Net,
    t: Term,
    dest: Field,
    sb: Seq<(IStr, Binder)>,
    sf: Seq<(IStr, bool)>,
)
    requires
        t is Dup,
        g.wf(),
        g.valid_field(dest),
        g.read(dest) == NodeRef::UnboundVar,
        tracks(g, sb, sf),
        g.kinds.len() + t.size() <= usize::MAX,
    ensures
        agree(g, t, dest, sb, sf),
    decreases t, 0int,
{
    if let Term::Dup(l, a, b, e, body) = t {
        if a != b {
            let n = g.fresh();
            let g1 = g.alloc_dup(l);
            lemma_alloc_dup(g, l);
            lemma_tracks_after_alloc(g, g1, n, Kind::Dup(l), sb, sf);
            lemma_checks(g1, *e, Field::DupE(n), sb, sf);
            if let Ok(g2) = g1.build_term(*e, Field::DupE(n), sb) {
                let s1 = e.check(sf)->Ok_0;
                let ba = Binder::DupA(n);
                let bb = Binder::DupB(n);
                let sb1 = sb.push((a, ba));
                let sb2 = sb1.push((b, bb));
                let sf1 = s1.push((a, false));
                let sf2 = sf1.push((b, false));
                assert(!in_scope(sb, ba)) by {
                    if in_scope(sb, ba) {
                        let i = choose|i: int| 0 <= i < sb.len() && (#[trigger] sb[i]).1 == ba;
                        assert(g.valid_binder(sb[i].1));
                    }
                }
                assert(!in_scope(sb, bb)) by {
                    if in_scope(sb, bb) {
                        let i = choose|i: int| 0 <= i < sb.len() && (#[trigger] sb[i]).1 == bb;
                        assert(g.valid_binder(sb[i].1));
                    }
                }
                assert(g2.slots[ba] == g1.slots[ba]);
                assert(g2.slots[bb] == g1.slots[bb]);
                assert(g2.kinds[n as int] == g1.kinds[n as int]);
                lemma_push_two(g, g2, sb, s1, a, ba, b, bb);
                lemma_scope_of_push2(g, sb, a, ba, b, bb);
                assert(g2.valid_field(dest) && g2.read(dest) == NodeRef::UnboundVar) by {
                    if dest.node() is Some {
                        assert(g1.kinds[dest.node()->0 as int] == g.kinds[dest.node()->0 as int]);
                        assert(g2.kinds[dest.node()->0 as int] == g1.kinds[dest.node()->0 as int]);
                    }
                    assert(g1.valid_field(dest));
                    assert(g2.fields[dest] == g1.fields[dest]);
                }
                lemma_checks(g2, *body, dest, sb2, sf2);
                if let Ok(h) = g2.build_term(*body, dest, sb2) {
                    let s2 = body.check(sf2)->Ok_0;
                    assert(sb2[sb2.len() - 2].1 == ba);
                    assert(sb2[sb2.len() - 1].1 == bb);
                    assert(h.kinds[n as int] == g2.kinds[n as int]);
                    assert(h.dup_live(n) == (s2[s2.len() - 2].1 || s2[s2.len() - 1].1));
                    if h.dup_live(n) {
                        lemma_tracks_pop(h, sb2, s2);
                        assert(sb2.drop_last() =~= sb1);
                        lemma_tracks_pop(h, sb1, s2.drop_last());
                        assert(sb1.drop_last() =~= sb);
                        lemma_built_dup(g, g1, g2, h, dest, n, l);
                        assert forall|c: Binder|
                            g.valid_binder(c) && !in_scope(sb, c) implies #[trigger] h.slots[c]
                            == g.slots[c] by {
                            assert(g1.kinds[c.node() as int] == g.kinds[c.node() as int]);
                            assert(g2.kinds[c.node() as int] == g1.kinds[c.node() as int]);
                            assert(g1.valid_binder(c));
                            assert(g2.valid_binder(c));
                            assert(g2.slots[c] == g1.slots[c]);
                            if in_scope(sb2, c) {
                                assert(in_scope(sb, c));
                            }
                        }
                    }
                }
            }
        }
    }
}

/// A scope that tracks a graph tracks it with the two unused binders of a
/// new `Dup` pushed.
pub proof fn lemma_push_two(
    g: Net,
    h: Net,
    sb: Seq<(IStr, Binder)>,
    sf: Seq<(IStr, bool)>,
    a: IStr,
    ba: Binder,
    b: IStr,
    bb: Binder,
)
    requires
        tracks(h, sb, sf),
        ba != bb,
        !in_scope(sb, ba),
        !in_scope(sb, bb),
        h.valid_binder(ba),
        h.valid_binder(bb),
        h.slots[ba] == FieldRef::UnusedVar,
        h.slots[bb] == FieldRef::UnusedVar,
    ensures
        tracks(h, sb.push((a, ba)).push((b, bb)), sf.push((a, false)).push((b, false))),
{
    let sb2 = sb.push((a, ba)).push((b, bb));
    let sf2 = sf.push((a, false)).push((b, false));
    assert forall|i: int| 0 <= i < sb2.len() implies (#[trigger] sb2[i]).0 == sf2[i].0
        && h.valid_binder(sb2[i].1) && sf2[i].1 == h.slots[sb2[i].1].used() by {
        if i < sb.len() {
            assert(sb[i].0 == sf[i].0);
        }
    }
    assert forall|i: int, j: int|
        0 <= i < sb2.len() && 0 <= j < sb2.len() && i != j implies (#[trigger] sb2[i]).1 != (
    #[trigger] sb2[j]).1 by {
        if i < sb.len() && j < sb.len() {
            assert(sb[i].1 != sb[j].1);
        } else if i < sb.len() {
            assert(sb[i].1 == sb2[i].1);
        } else if j < sb.len() {
            assert(sb[j].1 == sb2[j].1);
        }
    }
}

/// A term has a graph exactly if it passes the check, and where it has
/// none, the builder says so for the reason that the check gives. So a
/// variable that occurs twice under its binder is refused with
/// `NonAffineUse`, and a `Dup` neither of whose variables occurs with
/// `DupBothDead`.
pub proof fn lemma_build_is_check(t: Term)
    requires
        t.size() <= usize::MAX,
    ensures
        Net::build(t) is Ok <==> t.affine(),
        Net::build(t) matches Ok(g) ==> g.inv(),
        Net::build(t) matches Err(e) ==> t.check(seq![]) == Err::<Seq<(IStr, bool)>, BuildError>(
            e,
        ),
{
    let g = Net::empty();
    crate::steps::lemma_empty_wf();
    let sb = Seq::<(IStr, Binder)>::empty();
    let sf = Seq::<(IStr, bool)>::empty();
    assert(sb =~= seq![]);
    assert(sf =~= seq![]);
    lemma_checks(g, t, Field::Root, sb, sf);
    if let Ok(h) = Net::build(t) {
        assert forall|n: usize| #[trigger] h.dup_live(n) by {
            assert(g.dup_live(n));
        }
    }
}

} // verus!
