//! Building the graph of a term.
//!
//! One traversal of the term, with the binders in scope and the field that
//! the subterm's reference goes to. A variable occurrence is linked to the
//! innermost binder of its name; a second occurrence of the same binder's
//! variable is refused.

use vstd::prelude::*;
use crate::graph::TermGraph;
use crate::intern::IStr;
use crate::net::Net;
use crate::node::{Binder, Field, FieldRef, Kind, Label, NodeRef};
use crate::syntax::Term;

verus! {

/// Why a term has no graph.
#[derive(Debug, Clone, Copy, PartialEq, Eq, Structural)]
pub enum BuildError {
    /// The variable of one binder occurs more than once.
    NonAffineUse(IStr),
    /// Neither variable of a `Dup` occurs.
    DupBothDead,
    /// A `Dup` gives both its variables the same name.
    DupSameName,
}

/// The innermost binder of `name` in `scope`, the innermost last.
pub open spec fn innermost(scope: Seq<(IStr, Binder)>, name: IStr) -> Option<Binder>
    decreases scope.len(),
{
    if scope.len() == 0 {
        None
    } else if scope.last().0 == name {
        Some(scope.last().1)
    } else {
        innermost(scope.drop_last(), name)
    }
}

impl Net {
    /// The graph with `term` built into the empty field `dest`, under the
    /// binders of `scope`; or why `term` cannot be built.
    pub open spec fn build_term(
        self,
        term: Term,
        dest: Field,
        scope: Seq<(IStr, Binder)>,
    ) -> Result<Net, BuildError>
        decreases term,
    {
        match term {
            Term::Var(x) => match innermost(scope, x) {
                None => Ok(self),
                Some(b) => if self.slot(b).used() {
                    Err(BuildError::NonAffineUse(x))
                } else {
                    Ok(self.bind(b, dest))
                },
            },
            Term::Lam(x, body) => {
                let n = self.fresh();
                self.alloc_at(dest, Kind::Lam).build_term(
                    *body,
                    Field::LamE(n),
                    scope.push((x, Binder::LamX(n))),
                )
            },
            Term::App(e1, e2) => {
                let n = self.fresh();
                match self.alloc_at(dest, Kind::App).build_term(*e1, Field::AppE1(n), scope) {
                    Err(e) => Err(e),
                    Ok(g) => g.build_term(*e2, Field::AppE2(n), scope),
                }
            },
            Term::Sup(l, e1, e2) => {
                let n = self.fresh();
                match self.alloc_at(dest, Kind::Sup(l)).build_term(*e1, Field::SupE1(n), scope) {
                    Err(e) => Err(e),
                    Ok(g) => g.build_term(*e2, Field::SupE2(n), scope),
                }
            },
            Term::Dup(l, a, b, e, body) => if a == b {
                Err(BuildError::DupSameName)
            } else {
                let n = self.fresh();
                match self.alloc_dup(l).build_term(*e, Field::DupE(n), scope) {
                    Err(e) => Err(e),
                    Ok(g) => match g.build_term(
                        *body,
                        dest,
                        scope.push((a, Binder::DupA(n))).push((b, Binder::DupB(n))),
                    ) {
                        Err(e) => Err(e),
                        Ok(h) => if h.dup_live(n) {
                            Ok(h)
                        } else {
                            Err(BuildError::DupBothDead)
                        },
                    },
                }
            },
            Term::Let(x, e, body) => {
                let n = self.fresh();
                let g = self.alloc_at(dest, Kind::App);
                let m = g.fresh();
                match g.alloc_at(Field::AppE1(n), Kind::Lam).build_term(
                    *body,
                    Field::LamE(m),
                    scope.push((x, Binder::LamX(m))),
                ) {
                    Err(e) => Err(e),
                    Ok(h) => h.build_term(*e, Field::AppE2(n), scope),
                }
            },
        }
    }

    /// The graph of `term`, or why it has none.
    pub open spec fn build(term: Term) -> Result<Net, BuildError> {
        Net::empty().build_term(term, Field::Root, seq![])
    }

    /// `h` is `self` after a subterm was built into `dest`: what was there
    /// is still there, nothing but `dest` and the new nodes was written,
    /// and no binder lost its occurrence.
    pub open spec fn built(self, h: Net, dest: Field) -> bool {
        &&& h.scratch == self.scratch
        &&& h.kinds.len() >= self.kinds.len()
        &&& forall|n: usize|
            n < self.kinds.len() && !(self.kinds[n as int] is Free) ==> #[trigger] h.kinds[n as int]
                == self.kinds[n as int]
        &&& forall|f: Field|
            self.valid_field(f) && f != dest ==> #[trigger] h.fields[f] == self.fields[f]
        &&& forall|b: Binder|
            self.valid_binder(b) && self.slots[b].used() ==> #[trigger] h.slots[b] == self.slots[b]
        &&& forall|n: usize| self.dup_live(n) ==> #[trigger] h.dup_live(n)
    }
}

/// `Let` is sugar: `let x = e; body` has the graph of `((λx body) e)`.
pub proof fn lemma_let_is_sugar(
    g: Net,
    x: IStr,
    e: Term,
    body: Term,
    dest: Field,
    scope: Seq<(IStr, Binder)>,
)
    ensures
        g.build_term(Term::Let(x, Box::new(e), Box::new(body)), dest, scope) == g.build_term(
            Term::App(Box::new(Term::Lam(x, Box::new(body))), Box::new(e)),
            dest,
            scope,
        ),
{
    let app = Term::App(Box::new(Term::Lam(x, Box::new(body))), Box::new(e));
    let n = g.fresh();
    let g1 = g.alloc_at(dest, Kind::App);
    assert(g1.build_term(Term::Lam(x, Box::new(body)), Field::AppE1(n), scope) == g1.alloc_at(
        Field::AppE1(n),
        Kind::Lam,
    ).build_term(body, Field::LamE(g1.fresh()), scope.push((x, Binder::LamX(g1.fresh())))));
}

/// The innermost binder of `name` among those in scope.
fn lookup(scope: &Vec<(IStr, Binder)>, name: IStr) -> (found: Option<Binder>)
    ensures
        found == innermost(scope@, name),
{
    let mut i = scope.len();
    proof {
        assert(scope@.subrange(0, i as int) =~= scope@);
    }
    while i > 0
        invariant
            i <= scope@.len(),
            innermost(scope@, name) == innermost(scope@.subrange(0, i as int), name),
        decreases i,
    {
        proof {
            assert(scope@.subrange(0, i as int).drop_last() =~= scope@.subrange(0, i - 1));
        }
        i -= 1;
        if scope[i].0 == name {
            return Some(scope[i].1);
        }
    }
    proof {
        assert(scope@.subrange(0, 0).len() == 0);
    }
    None
}

/// Every binder in scope is a binder slot of a node that is there.
pub open spec fn scope_ok(g: Net, scope: Seq<(IStr, Binder)>) -> bool {
    forall|i: int| 0 <= i < scope.len() ==> g.valid_binder(#[trigger] scope[i].1)
}

pub proof fn lemma_innermost_in_scope(scope: Seq<(IStr, Binder)>, name: IStr)
    ensures
        innermost(scope, name) is Some ==> exists|i: int|
            0 <= i < scope.len() && #[trigger] scope[i].1 == innermost(scope, name)->0,
    decreases scope.len(),
{
    if scope.len() > 0 && scope.last().0 != name {
        lemma_innermost_in_scope(scope.drop_last(), name);
        if innermost(scope, name) is Some {
            let i = choose|i: int|
                0 <= i < scope.drop_last().len() && #[trigger] scope.drop_last()[i].1 == innermost(
                    scope,
                    name,
                )->0;
            assert(scope[i].1 == innermost(scope, name)->0);
        }
    } else if scope.len() > 0 {
        assert(scope[scope.len() - 1].1 == innermost(scope, name)->0);
    }
}

/// The binders in scope stay binders while cells that hold a node keep
/// their kind.
pub proof fn lemma_scope_kept(g: Net, h: Net, scope: Seq<(IStr, Binder)>)
    requires
        scope_ok(g, scope),
        h.kinds.len() >= g.kinds.len(),
        forall|n: usize|
            n < g.kinds.len() && !(g.kinds[n as int] is Free) ==> #[trigger] h.kinds[n as int]
                == g.kinds[n as int],
    ensures
        scope_ok(h, scope),
{
    assert forall|i: int| 0 <= i < scope.len() implies h.valid_binder(#[trigger] scope[i].1) by {
        assert(g.valid_binder(scope[i].1));
        assert(h.kinds[scope[i].1.node() as int] == g.kinds[scope[i].1.node() as int]);
    }
}

/// A node made at `dest` with one subterm built into its field `f1`.
pub proof fn lemma_built_one(g: Net, g1: Net, h: Net, dest: Field, n: usize, k: Kind, f1: Field)
    requires
        g.grown(g1, n, k),
        k.owned(),
        g1.fields == g.fields.insert(dest, k.pointer(n)),
        f1.node() == Some(n),
        g1.built(h, f1),
    ensures
        g.built(h, dest),
{
    assert forall|m: usize|
        m < g.kinds.len() && !(g.kinds[m as int] is Free) implies #[trigger] h.kinds[m as int]
        == g.kinds[m as int] by {
        assert(g1.kinds[m as int] == g.kinds[m as int]);
    }
    assert forall|f: Field| g.valid_field(f) && f != dest implies #[trigger] h.fields[f]
        == g.fields[f] by {
        if f.node() is Some {
            assert(g1.kinds[f.node()->0 as int] == g.kinds[f.node()->0 as int]);
        }
        assert(g1.valid_field(f));
    }
    assert forall|b: Binder| g.valid_binder(b) && g.slots[b].used() implies #[trigger] h.slots[b]
        == g.slots[b] by {
        assert(g1.kinds[b.node() as int] == g.kinds[b.node() as int]);
        assert(g1.valid_binder(b));
    }
    assert forall|m: usize| g.dup_live(m) implies #[trigger] h.dup_live(m) by {
        if m != n && m < g.kinds.len() {
            assert(g1.kinds[m as int] == g.kinds[m as int]);
        }
        assert(g1.dup_live(m));
    }
}

/// A node made at `dest` with two subterms built into its fields `f1` and
/// `f2`, one after the other.
pub proof fn lemma_built_pair(
    g: Net,
    g1: Net,
    g2: Net,
    h: Net,
    dest: Field,
    n: usize,
    k: Kind,
    f1: Field,
    f2: Field,
)
    requires
        g.grown(g1, n, k),
        k.owned(),
        g1.fields == g.fields.insert(dest, k.pointer(n)),
        f1.node() == Some(n),
        f2.node() == Some(n),
        g1.built(g2, f1),
        g2.built(h, f2),
    ensures
        g.built(h, dest),
{
    assert forall|m: usize|
        m < g.kinds.len() && !(g.kinds[m as int] is Free) implies #[trigger] h.kinds[m as int]
        == g.kinds[m as int] by {
        assert(g1.kinds[m as int] == g.kinds[m as int]);
        assert(g2.kinds[m as int] == g1.kinds[m as int]);
    }
    assert forall|f: Field| g.valid_field(f) && f != dest implies #[trigger] h.fields[f]
        == g.fields[f] by {
        if f.node() is Some {
            assert(g1.kinds[f.node()->0 as int] == g.kinds[f.node()->0 as int]);
            assert(g2.kinds[f.node()->0 as int] == g1.kinds[f.node()->0 as int]);
        }
        assert(g1.valid_field(f));
        assert(g2.valid_field(f));
        assert(g2.fields[f] == g1.fields[f]);
    }
    assert forall|b: Binder| g.valid_binder(b) && g.slots[b].used() implies #[trigger] h.slots[b]
        == g.slots[b] by {
        assert(g1.kinds[b.node() as int] == g.kinds[b.node() as int]);
        assert(g2.kinds[b.node() as int] == g1.kinds[b.node() as int]);
        assert(g1.valid_binder(b));
        assert(g2.valid_binder(b));
        assert(g2.slots[b] == g1.slots[b]);
    }
    assert forall|m: usize| g.dup_live(m) implies #[trigger] h.dup_live(m) by {
        if m != n && m < g.kinds.len() {
            assert(g1.kinds[m as int] == g.kinds[m as int]);
        }
        assert(g1.dup_live(m));
        assert(g2.dup_live(m));
    }
}

/// A `Dup` made in cell `n` with its subterm built into its field and the
/// term it stands before built into `dest`, where a variable of it occurs.
pub proof fn lemma_built_dup(g: Net, g1: Net, g2: Net, h: Net, dest: Field, n: usize, l: Label)
    requires
        g.grown(g1, n, Kind::Dup(l)),
        g1.fields == g.fields,
        g1.built(g2, Field::DupE(n)),
        g2.built(h, dest),
        h.dup_live(n),
    ensures
        g.built(h, dest),
{
    assert forall|m: usize|
        m < g.kinds.len() && !(g.kinds[m as int] is Free) implies #[trigger] h.kinds[m as int]
        == g.kinds[m as int] by {
        assert(g1.kinds[m as int] == g.kinds[m as int]);
        assert(g2.kinds[m as int] == g1.kinds[m as int]);
    }
    assert forall|f: Field| g.valid_field(f) && f != dest implies #[trigger] h.fields[f]
        == g.fields[f] by {
        if f.node() is Some {
            assert(g1.kinds[f.node()->0 as int] == g.kinds[f.node()->0 as int]);
            assert(g2.kinds[f.node()->0 as int] == g1.kinds[f.node()->0 as int]);
        }
        assert(g1.valid_field(f));
        assert(g2.valid_field(f));
        assert(g2.fields[f] == g1.fields[f]);
    }
    assert forall|b: Binder| g.valid_binder(b) && g.slots[b].used() implies #[trigger] h.slots[b]
        == g.slots[b] by {
        assert(g1.kinds[b.node() as int] == g.kinds[b.node() as int]);
        assert(g2.kinds[b.node() as int] == g1.kinds[b.node() as int]);
        assert(g1.valid_binder(b));
        assert(g2.valid_binder(b));
        assert(g2.slots[b] == g1.slots[b]);
    }
    assert forall|m: usize| g.dup_live(m) implies #[trigger] h.dup_live(m) by {
        if m != n {
            if m < g.kinds.len() {
                assert(g1.kinds[m as int] == g.kinds[m as int]);
            }
            assert(g1.dup_live(m));
            assert(g2.dup_live(m));
        }
    }
}

impl TermGraph {
    /// Builds `term` into the empty field `dest`, under the binders in
    /// scope.
    fn build_rec(&mut self, term: &Term, dest: Field, scope: &mut Vec<(IStr, Binder)>) -> (r:
        Result<(), BuildError>)
        requires
            old(self)@.wf(),
            old(self)@.valid_field(dest),
            old(self)@.read(dest) == NodeRef::UnboundVar,
            scope_ok(old(self)@, old(scope)@),
        ensures
            match r {
                Ok(_) => {
                    &&& old(self)@.build_term(*term, dest, old(scope)@) == Ok::<
                        Net,
                        BuildError,
                    >(final(self)@)
                    &&& final(self)@.wf()
                    &&& old(self)@.built(final(self)@, dest)
                    &&& final(scope)@ == old(scope)@
                },
                Err(e) => old(self)@.build_term(*term, dest, old(scope)@) == Err::<
                    Net,
                    BuildError,
                >(e),
            },
        decreases term,
    {
        let ghost g = self@;
        let ghost sc = scope@;
        match term {
            Term::Var(x) => {
                match lookup(scope, *x) {
                    None => Ok(()),
                    Some(b) => {
                        proof {
                            lemma_innermost_in_scope(sc, *x);
                        }
                        match self.slot(b) {
                            FieldRef::VarUsePtr(_) => Err(BuildError::NonAffineUse(*x)),
                            FieldRef::UnusedVar => {
                                self.bind(b, dest);
                                Ok(())
                            },
                        }
                    },
                }
            },
            Term::Lam(x, body) => {
                let n = self.alloc_at(dest, Kind::Lam);
                let ghost g1 = self@;
                scope.push((*x, Binder::LamX(n)));
                proof {
                    lemma_scope_kept(g, g1, sc);
                }
                let r = self.build_rec(body, Field::LamE(n), scope);
                if r.is_ok() {
                    scope.pop();
                    proof {
                        assert(scope@ =~= sc);
                        lemma_built_one(g, g1, self@, dest, n, Kind::Lam, Field::LamE(n));
                    }
                }
                r
            },
            Term::App(e1, e2) => {
                let n = self.alloc_at(dest, Kind::App);
                let ghost g1 = self@;
                proof {
                    lemma_scope_kept(g, g1, sc);
                }
                match self.build_rec(e1, Field::AppE1(n), scope) {
                    Err(e) => Err(e),
                    Ok(_) => {
                        let ghost g2 = self@;
                        proof {
                            lemma_scope_kept(g1, g2, sc);
                        }
                        let r = self.build_rec(e2, Field::AppE2(n), scope);
                        proof {
                            if r is Ok {
                                lemma_built_pair(
                                    g,
                                    g1,
                                    g2,
                                    self@,
                                    dest,
                                    n,
                                    Kind::App,
                                    Field::AppE1(n),
                                    Field::AppE2(n),
                                );
                            }
                        }
                        r
                    },
                }
            },
            Term::Sup(l, e1, e2) => {
                let n = self.alloc_at(dest, Kind::Sup(*l));
                let ghost g1 = self@;
                proof {
                    lemma_scope_kept(g, g1, sc);
                }
                match self.build_rec(e1, Field::SupE1(n), scope) {
                    Err(e) => Err(e),
                    Ok(_) => {
                        let ghost g2 = self@;
                        proof {
                            lemma_scope_kept(g1, g2, sc);
                        }
                        let r = self.build_rec(e2, Field::SupE2(n), scope);
                        proof {
                            if r is Ok {
                                lemma_built_pair(
                                    g,
                                    g1,
                                    g2,
                                    self@,
                                    dest,
                                    n,
                                    Kind::Sup(*l),
                                    Field::SupE1(n),
                                    Field::SupE2(n),
                                );
                            }
                        }
                        r
                    },
                }
            },
            Term::Dup(l, a, b, e, body) => {
                if *a == *b {
                    return Err(BuildError::DupSameName);
                }
                let n = self.alloc_dup(*l);
                let ghost g1 = self@;
                proof {
                    lemma_scope_kept(g, g1, sc);
                }
                match self.build_rec(e, Field::DupE(n), scope) {
                    Err(e) => Err(e),
                    Ok(_) => {
                        let ghost g2 = self@;
                        proof {
                            lemma_scope_kept(g1, g2, sc);
                        }
                        scope.push((*a, Binder::DupA(n)));
                        scope.push((*b, Binder::DupB(n)));
                        match self.build_rec(body, dest, scope) {
                            Err(e) => Err(e),
                            Ok(_) => {
                                scope.pop();
                                scope.pop();
                                proof {
                                    assert(scope@ =~= sc);
                                }
                                let live = match self.slot(Binder::DupA(n)) {
                                    FieldRef::VarUsePtr(_) => true,
                                    FieldRef::UnusedVar => match self.slot(Binder::DupB(n)) {
                                        FieldRef::VarUsePtr(_) => true,
                                        FieldRef::UnusedVar => false,
                                    },
                                };
                                if live {
                                    proof {
                                        lemma_built_dup(g, g1, g2, self@, dest, n, *l);
                                    }
                                    Ok(())
                                } else {
                                    Err(BuildError::DupBothDead)
                                }
                            },
                        }
                    },
                }
            },
            Term::Let(x, e, body) => {
                let n = self.alloc_at(dest, Kind::App);
                let ghost g1 = self@;
                let m = self.alloc_at(Field::AppE1(n), Kind::Lam);
                let ghost g2 = self@;
                scope.push((*x, Binder::LamX(m)));
                proof {
                    lemma_scope_kept(g, g1, sc);
                    lemma_scope_kept(g1, g2, sc);
                }
                match self.build_rec(body, Field::LamE(m), scope) {
                    Err(e) => Err(e),
                    Ok(_) => {
                        scope.pop();
                        let ghost g3 = self@;
                        proof {
                            assert(scope@ =~= sc);
                            lemma_built_one(
                                g1,
                                g2,
                                g3,
                                Field::AppE1(n),
                                m,
                                Kind::Lam,
                                Field::LamE(m),
                            );
                            lemma_scope_kept(g1, g3, sc);
                        }
                        let r = self.build_rec(e, Field::AppE2(n), scope);
                        proof {
                            if r is Ok {
                                lemma_built_pair(
                                    g,
                                    g1,
                                    g3,
                                    self@,
                                    dest,
                                    n,
                                    Kind::App,
                                    Field::AppE1(n),
                                    Field::AppE2(n),
                                );
                            }
                        }
                        r
                    },
                }
            },
        }
    }

    /// The graph of `term`, or why it has none: a variable of one binder
    /// that occurs twice, a `Dup` that gives both variables one name, or a
    /// `Dup` neither of whose variables occurs.
    pub fn build(term: &Term) -> (r: Result<TermGraph, BuildError>)
        ensures
            match r {
                Ok(graph) => Net::build(*term) == Ok::<Net, BuildError>(graph@) && graph@.inv(),
                Err(e) => Net::build(*term) == Err::<Net, BuildError>(e),
            },
    {
        let mut graph = TermGraph::new();
        let mut scope: Vec<(IStr, Binder)> = Vec::new();
        proof {
            assert(scope@ =~= seq![]);
        }
        match graph.build_rec(term, Field::Root, &mut scope) {
            Err(e) => Err(e),
            Ok(_) => {
                proof {
                    assert forall|n: usize| #[trigger] graph@.dup_live(n) by {
                        assert(Net::empty().dup_live(n));
                    }
                }
                Ok(graph)
            },
        }
    }
}

} // verus!
