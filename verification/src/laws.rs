//! What holds of every well-formed graph, and of every rewrite.

use vstd::prelude::*;
use crate::net::Net;
use crate::node::{Binder, Field, FieldRef};

verus! {

/// Back-pointer symmetry. A binder slot that is used points at a field that
/// is there and holds the marker of exactly that slot; and a field that
/// holds the marker of a binder slot is the field that the slot points at.
pub proof fn lemma_back_pointers(g: Net, b: Binder, f: Field)
    requires
        g.wf(),
    ensures
        g.slot(b) == FieldRef::VarUsePtr(f) ==> g.valid_binder(b) && g.valid_field(f) && g.read(f)
            == b.marker(),
        g.read(f) == b.marker() ==> g.valid_binder(b) && g.valid_field(f) && g.slot(b)
            == FieldRef::VarUsePtr(f),
{
    assert(g.binder_ok(b));
    assert(g.slot_tidy(b));
    assert(g.value_ok(f));
    assert(g.field_tidy(f));
}

/// Affinity. No two fields hold the marker of the same binder slot: a
/// variable occurs at most once.
pub proof fn lemma_affinity(g: Net, b: Binder, f1: Field, f2: Field)
    requires
        g.wf(),
        g.read(f1) == b.marker(),
        g.read(f2) == b.marker(),
    ensures
        f1 == f2,
{
    assert(g.value_ok(f1));
    assert(g.value_ok(f2));
}

/// No two fields refer to the same node as their subterm.
pub proof fn lemma_one_owner(g: Net, f1: Field, f2: Field)
    requires
        g.wf(),
        g.read(f1).child() is Some,
        g.read(f1) == g.read(f2),
    ensures
        f1 == f2,
{
    assert(g.value_ok(f1));
    assert(g.value_ok(f2));
}

/// No node is left over. A `Lam`, `App` or `Sup` is the subterm of a field
/// that is there: the root cell or a field of another node. A `Dup` binds a
/// variable that occurs in a field that is there. And an empty cell is
/// named by the free list.
pub proof fn lemma_no_node_left_over(g: Net, n: usize)
    requires
        g.inv(),
        n < g.kinds.len(),
    ensures
        g.is_owned(n) ==> g.valid_field(g.owner[n as int]) && g.read(g.owner[n as int])
            == g.kinds[n as int].pointer(n) && !(g.owner[n as int] is Scratch),
        g.is_dup(n) ==> exists|b: Binder, f: Field|
            b.node() == n && !(b is LamX) && g.valid_field(f) && !(f is Scratch) && g.read(f)
                == b.marker(),
        g.is_free(n) ==> g.free.contains(n),
{
    assert(g.owner_ok(n));
    assert(g.field_tidy(g.owner[n as int]));
    if g.is_dup(n) {
        assert(g.dup_live(n));
        let b = if g.slots[Binder::DupA(n)].used() {
            Binder::DupA(n)
        } else {
            Binder::DupB(n)
        };
        let f = g.slots[b]->VarUsePtr_0;
        lemma_back_pointers(g, b, f);
        assert(b.node() == n && !(b is LamX) && g.valid_field(f) && !(f is Scratch) && g.read(f)
            == b.marker());
    }
}

/// A variable that no binder in scope binds may occur anywhere: it is
/// built as an unbound variable, and nothing else changes.
pub proof fn lemma_unbound_var_builds(
    g: Net,
    x: crate::intern::IStr,
    dest: Field,
    scope: Seq<(crate::intern::IStr, Binder)>,
)
    requires
        crate::builder::innermost(scope, x) is None,
    ensures
        g.build_term(crate::syntax::Term::Var(x), dest, scope) == Ok::<
            Net,
            crate::builder::BuildError,
        >(g),
{
}

/// A second occurrence of a bound variable is refused.
pub proof fn lemma_second_use_refused(
    g: Net,
    x: crate::intern::IStr,
    dest: Field,
    scope: Seq<(crate::intern::IStr, Binder)>,
)
    requires
        crate::builder::innermost(scope, x) is Some,
        g.slot(crate::builder::innermost(scope, x)->0).used(),
    ensures
        g.build_term(crate::syntax::Term::Var(x), dest, scope) == Err::<
            Net,
            crate::builder::BuildError,
        >(crate::builder::BuildError::NonAffineUse(x)),
{
}

} // verus!
