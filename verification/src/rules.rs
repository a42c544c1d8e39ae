//! The four rewrite rules.
//!
//! Each rule is a sequence of the small steps of `net`, so every state it
//! passes through is well-formed. `x <- v` is `subst`: the value `v` goes to
//! the field where `x` occurs, or to the worklist where `x` does not occur.

use vstd::prelude::*;
use crate::graph::TermGraph;
use crate::net::Net;
use crate::node::{Binder, Field, FieldRef, Kind, Label, Node, NodeRef};

verus! {

impl Net {
    /// `b <- read(src)`: the value of `src` replaces the variable that `b`
    /// binds where it occurs; the value of a variable that does not occur
    /// goes to the worklist. `b` is unused afterwards and `src` empty.
    pub open spec fn subst(self, b: Binder, src: Field) -> Net {
        match self.slot(b) {
            FieldRef::VarUsePtr(f) => self.unbind(b).move_value(src, f),
            FieldRef::UnusedVar => self.push_scratch().move_value(
                src,
                Field::Scratch(self.scratch as usize),
            ),
        }
    }

    /// `host` holds an `App` whose function is a `Lam`, and is a field of
    /// neither.
    pub open spec fn is_app_lam(self, host: Field) -> bool {
        &&& self.valid_field(host)
        &&& self.read(host) is AppPtr
        &&& self.read(Field::AppE1(self.read(host)->AppPtr_0)) is LamPtr
        &&& host.node() != Some(self.read(host)->AppPtr_0)
        &&& host.node() != Some(self.read(Field::AppE1(self.read(host)->AppPtr_0))->LamPtr_0)
    }

    /// `(λx e) a  ⇒  x <- a; e`, before what was discarded is swept.
    pub open spec fn app_lam_raw(self, host: Field) -> Net {
        let a = self.read(host)->AppPtr_0;
        let l = self.read(Field::AppE1(a))->LamPtr_0;
        let g = self.subst(Binder::LamX(l), Field::AppE2(a));
        let tmp = Field::Scratch(g.scratch as usize);
        g.push_scratch().move_value(Field::LamE(l), tmp).free_at(Field::AppE1(a)).free_at(
            host,
        ).move_value(tmp, host).pop_scratch()
    }

    /// `(λx e) a  ⇒  x <- a; e`
    pub open spec fn app_lam(self, host: Field) -> Net {
        self.app_lam_raw(host).sweep()
    }

    /// The label of the `Sup` or `Dup` in cell `n`.
    pub open spec fn label(self, n: usize) -> Label {
        match self.kinds[n as int] {
            Kind::Sup(l) => l,
            Kind::Dup(l) => l,
            _ => 0,
        }
    }

    /// `b <- ` a new blank node of kind `k`, where the variable occurs; no
    /// node is made for a variable that does not occur.
    pub open spec fn fill_use(self, b: Binder, k: Kind) -> Net {
        match self.slot(b) {
            FieldRef::VarUsePtr(f) => self.unbind(b).alloc_at(f, k),
            FieldRef::UnusedVar => self,
        }
    }

    pub open spec fn bind_if(self, c: bool, b: Binder, f: Field) -> Net {
        if c {
            self.bind(b, f)
        } else {
            self
        }
    }

    /// `host` holds an `App` whose function is a `Sup`, and is a field of
    /// neither.
    pub open spec fn is_app_sup(self, host: Field) -> bool {
        &&& self.valid_field(host)
        &&& self.read(host) is AppPtr
        &&& self.read(Field::AppE1(self.read(host)->AppPtr_0)) is SupPtr
        &&& host.node() != Some(self.read(host)->AppPtr_0)
        &&& host.node() != Some(self.read(Field::AppE1(self.read(host)->AppPtr_0))->SupPtr_0)
    }

    /// `(#l{e1 e2} a)  ⇒  dup #l{u v} = a; #l{(e1 u) (e2 v)}`
    pub open spec fn app_sup(self, host: Field) -> Net {
        let a = self.read(host)->AppPtr_0;
        let s = self.read(Field::AppE1(a))->SupPtr_0;
        let l = self.label(s);
        let tmp = Field::Scratch(self.scratch as usize);
        let d = self.fresh();
        let g1 = self.alloc_dup(l).push_scratch();
        let t = g1.fresh();
        let g2 = g1.alloc_at(tmp, Kind::Sup(l));
        let a1 = g2.fresh();
        let g3 = g2.alloc_at(Field::SupE1(t), Kind::App);
        let a2 = g3.fresh();
        let g4 = g3.alloc_at(Field::SupE2(t), Kind::App);
        g4.bind(Binder::DupA(d), Field::AppE2(a1)).bind(Binder::DupB(d), Field::AppE2(a2))
            .move_value(Field::AppE2(a), Field::DupE(d)).move_value(
            Field::SupE1(s),
            Field::AppE1(a1),
        ).move_value(Field::SupE2(s), Field::AppE1(a2)).free_at(Field::AppE1(a)).free_at(
            host,
        ).move_value(tmp, host).pop_scratch()
    }

    /// Cell `d` holds a `Dup` of a `Lam`.
    pub open spec fn is_dup_lam(self, d: usize) -> bool {
        self.is_dup(d) && self.read(Field::DupE(d)) is LamPtr
    }

    /// `dup #l{a b} = (λx e)  ⇒  a <- (λx1 c); b <- (λx2 d); x <- #l{x1 x2};
    /// dup #l{c d} = e`, with a node for each of `a`, `b` and `x` that occurs.
    pub open spec fn dup_lam(self, d: usize) -> Net {
        let l = self.read(Field::DupE(d))->LamPtr_0;
        let lab = self.label(d);
        let ua = self.slot(Binder::DupA(d)).used();
        let ub = self.slot(Binder::DupB(d)).used();
        let ux = self.slot(Binder::LamX(l)).used();
        let l1 = self.fresh();
        let g1 = self.fill_use(Binder::DupA(d), Kind::Lam);
        let l2 = g1.fresh();
        let g2 = g1.fill_use(Binder::DupB(d), Kind::Lam);
        let s = g2.fresh();
        let g3 = g2.fill_use(Binder::LamX(l), Kind::Sup(lab)).bind_if(
            ux && ua,
            Binder::LamX(l1),
            Field::SupE1(s),
        ).bind_if(ux && ub, Binder::LamX(l2), Field::SupE2(s));
        let d2 = g3.fresh();
        g3.alloc_dup(lab).bind_if(ua, Binder::DupA(d2), Field::LamE(l1)).bind_if(
            ub,
            Binder::DupB(d2),
            Field::LamE(l2),
        ).move_value(Field::LamE(l), Field::DupE(d2)).free_at(Field::DupE(d)).free_dup(d)
    }

    /// Cell `d` holds a `Dup` of a `Sup`.
    pub open spec fn is_dup_sup(self, d: usize) -> bool {
        self.is_dup(d) && self.read(Field::DupE(d)) is SupPtr
    }

    /// `dup #l{a b} = #l{e1 e2}  ⇒  a <- e1; b <- e2`, before what was
    /// discarded is swept.
    pub open spec fn dup_sup_same_raw(self, d: usize) -> Net {
        let s = self.read(Field::DupE(d))->SupPtr_0;
        self.subst(Binder::DupA(d), Field::SupE1(s)).subst(Binder::DupB(d), Field::SupE2(s))
            .free_at(Field::DupE(d)).free_dup(d)
    }

    /// `dup #l{a b} = #m{e1 e2}  ⇒  a <- #m{a1 a2}; b <- #m{b1 b2};
    /// dup #l{a1 b1} = e1; dup #l{a2 b2} = e2`, with a `Sup` for each of `a`
    /// and `b` that occurs.
    pub open spec fn dup_sup_diff(self, d: usize) -> Net {
        let s = self.read(Field::DupE(d))->SupPtr_0;
        let l = self.label(d);
        let m = self.label(s);
        let ua = self.slot(Binder::DupA(d)).used();
        let ub = self.slot(Binder::DupB(d)).used();
        let sa = self.fresh();
        let g1 = self.fill_use(Binder::DupA(d), Kind::Sup(m));
        let sb = g1.fresh();
        let g2 = g1.fill_use(Binder::DupB(d), Kind::Sup(m));
        let d1 = g2.fresh();
        let g3 = g2.alloc_dup(l).bind_if(ua, Binder::DupA(d1), Field::SupE1(sa)).bind_if(
            ub,
            Binder::DupB(d1),
            Field::SupE1(sb),
        ).move_value(Field::SupE1(s), Field::DupE(d1));
        let d2 = g3.fresh();
        g3.alloc_dup(l).bind_if(ua, Binder::DupA(d2), Field::SupE2(sa)).bind_if(
            ub,
            Binder::DupB(d2),
            Field::SupE2(sb),
        ).move_value(Field::SupE2(s), Field::DupE(d2)).free_at(Field::DupE(d)).free_dup(d)
    }

    /// One if the variable that `b` binds occurs, else nought: the number
    /// of nodes that a rule makes to take the variable's place.
    pub open spec fn uses(self, b: Binder) -> int {
        if self.slot(b).used() {
            1
        } else {
            0
        }
    }

    /// Both variables of the `Dup` in cell `d` occur, and neither is itself
    /// a child of the `Sup` in cell `s`.
    pub open spec fn plain_dup_sup(self, d: usize, s: usize) -> bool {
        &&& self.slot(Binder::DupA(d)).used()
        &&& self.slot(Binder::DupB(d)).used()
        &&& self.read(Field::SupE1(s)) != NodeRef::DupABoundVar(d)
        &&& self.read(Field::SupE1(s)) != NodeRef::DupBBoundVar(d)
        &&& self.read(Field::SupE2(s)) != NodeRef::DupABoundVar(d)
        &&& self.read(Field::SupE2(s)) != NodeRef::DupBBoundVar(d)
    }

    /// The `DupSup` rule: equal labels annihilate, different labels commute.
    pub open spec fn dup_sup(self, d: usize) -> Net {
        let s = self.read(Field::DupE(d))->SupPtr_0;
        if self.label(d) == self.label(s) {
            self.dup_sup_same_raw(d).sweep()
        } else {
            self.dup_sup_diff(d)
        }
    }
}

impl TermGraph {
    /// `b <- read(src)`
    pub(crate) fn subst(&mut self, b: Binder, src: Field)
        requires
            old(self)@.wf(),
            old(self)@.valid_binder(b),
            old(self)@.valid_field(src),
        ensures
            final(self)@ == old(self)@.subst(b, src),
            final(self)@.wf(),
            final(self)@.slot(b) == FieldRef::UnusedVar,
            final(self)@.read(src) == NodeRef::UnboundVar,
            final(self)@.kinds == old(self)@.kinds,
            final(self)@.free == old(self)@.free,
            old(self)@.slot(b) is VarUsePtr && old(self)@.slot(b)->VarUsePtr_0 != src
                ==> final(self)@.fields[old(self)@.slot(b)->VarUsePtr_0] == old(self)@.fields[src],
            final(self)@.scratch == old(self)@.scratch + if old(self)@.slot(b).used() {
                0int
            } else {
                1int
            },
            forall|f: Field|
                f != src && old(self)@.slot(b) != FieldRef::VarUsePtr(f) && f != Field::Scratch(
                    old(self)@.scratch as usize,
                ) ==> #[trigger] final(self)@.fields[f] == old(self)@.fields[f],
            forall|c: Binder|
                c != b && old(self)@.fields[src].binder() != Some(c)
                    ==> #[trigger] final(self)@.slots[c] == old(self)@.slots[c],
            forall|n: usize|
                n != b.node() && old(self)@.dup_live(n) ==> #[trigger] final(self)@.dup_live(n),
    {
        let ghost g = self@;
        proof {
            reveal(Net::unbind);
            assert(g.binder_ok(b));
            assert(g.value_ok(src));
        }
        match self.unbind(b) {
            FieldRef::VarUsePtr(f) => {
                proof {
                    assert(self@.value_ok(src));
                }
                self.move_value(src, f);
            },
            FieldRef::UnusedVar => {
                proof {
                    assert(self@ == g);
                }
                let c = self.push_scratch();
                self.move_value(src, c);
            },
        }
    }

    /// `(λx e) a  ⇒  x <- a; e`, where `host` holds the `App` in cell `a`
    /// and the `Lam` is in cell `l`.
    pub fn rule_app_lam(&mut self, host: Field, a: usize, l: usize)
        requires
            old(self)@.inv(),
            old(self)@.is_app_lam(host),
            old(self)@.read(host) == NodeRef::AppPtr(a),
            old(self)@.read(Field::AppE1(a)) == NodeRef::LamPtr(l),
        ensures
            final(self)@ == old(self)@.app_lam(host),
            final(self)@.inv(),
            old(self)@.only_freed(final(self)@),
            final(self)@.live() <= old(self)@.live() - 2,
    {
        let ghost g = self@;
        proof {
            assert(g.value_ok(host));
            assert(g.value_ok(Field::AppE1(a)));
            assert(g.value_ok(Field::AppE2(a)));
            assert(g.binder_ok(Binder::LamX(l)));
        }
        self.subst(Binder::LamX(l), Field::AppE2(a));
        let ghost g1 = self@;
        proof {
            assert(g1.fields[host] == NodeRef::AppPtr(a));
            assert(g1.fields[Field::AppE1(a)] == NodeRef::LamPtr(l));
        }
        let tmp = self.push_scratch();
        proof {
            assert(self@.value_ok(Field::LamE(l)));
        }
        self.move_value(Field::LamE(l), tmp);
        proof {
            assert(self@.blank(l));
        }
        self.free_at(Field::AppE1(a));
        proof {
            assert(self@.blank(a));
        }
        self.free_at(host);
        self.move_value(tmp, host);
        self.pop_scratch();
        proof {
            assert forall|n: usize| g.dup_live(n) implies #[trigger] self@.dup_live(n) by {
                assert(g1.dup_live(n));
            }
            crate::steps::lemma_dups_frame(g, self@);
        }
        self.sweep();
    }

    /// The label of the `Sup` or `Dup` in cell `n`.
    pub fn label(&self, n: usize) -> (l: Label)
        requires
            n < self@.kinds.len(),
        ensures
            l == self@.label(n),
    {
        match self.node(n) {
            Node::Sup(s) => s.l,
            Node::Dup(d) => d.l,
            _ => 0,
        }
    }

    /// `b <- ` a new blank node of kind `k`; says which cell it is.
    pub(crate) fn fill_use(&mut self, b: Binder, k: Kind) -> (n: Option<usize>)
        requires
            old(self)@.wf(),
            old(self)@.valid_binder(b),
            k.owned(),
        ensures
            final(self)@ == old(self)@.fill_use(b, k),
            final(self)@.wf(),
            n is Some <==> old(self)@.slot(b).used(),
            n is None ==> final(self)@ == old(self)@,
            n is Some ==> {
                &&& old(self)@.added(final(self)@, n->0, k)
                &&& final(self)@.blank(n->0)
                &&& final(self)@.fields == old(self)@.fields.insert(
                    old(self)@.slot(b)->VarUsePtr_0,
                    k.pointer(n->0),
                )
                &&& final(self)@.slots == old(self)@.slots.insert(b, FieldRef::UnusedVar)
            },
            forall|m: usize|
                m != b.node() && old(self)@.dup_live(m) ==> #[trigger] final(self)@.dup_live(m),
    {
        let ghost g = self@;
        proof {
            reveal(Net::unbind);
            assert(g.binder_ok(b));
        }
        match self.unbind(b) {
            FieldRef::VarUsePtr(f) => {
                let ghost g1 = self@;
                let n = self.alloc_at(f, k);
                proof {
                    assert forall|m: usize|
                        m != b.node() && g.dup_live(m) implies #[trigger] self@.dup_live(m) by {
                        assert(g1.dup_live(m));
                    }
                    assert(self@.fields =~= g.fields.insert(f, k.pointer(n)));
                }
                Some(n)
            },
            FieldRef::UnusedVar => {
                proof {
                    assert(self@ == g);
                }
                None
            },
        }
    }

    /// `(#l{e1 e2} a)  ⇒  dup #l{u v} = a; #l{(e1 u) (e2 v)}`, where `host`
    /// holds the `App` in cell `a` and the `Sup` is in cell `s`.
    pub fn rule_app_sup(&mut self, host: Field, a: usize, s: usize)
        requires
            old(self)@.inv(),
            old(self)@.is_app_sup(host),
            old(self)@.read(host) == NodeRef::AppPtr(a),
            old(self)@.read(Field::AppE1(a)) == NodeRef::SupPtr(s),
        ensures
            final(self)@ == old(self)@.app_sup(host),
            final(self)@.inv(),
            final(self)@.live() == old(self)@.live() + 2,
    {
        let ghost g = self@;
        proof {
            assert(g.value_ok(host));
            assert(g.value_ok(Field::AppE1(a)));
            assert(g.field_tidy(host));
        }
        let l = self.label(s);
        let d = self.alloc_dup(l);
        let ghost g0 = self@;
        let tmp = self.push_scratch();
        let t = self.alloc_at(tmp, Kind::Sup(l));
        let a1 = self.alloc_at(Field::SupE1(t), Kind::App);
        let a2 = self.alloc_at(Field::SupE2(t), Kind::App);
        let ghost g4 = self@;
        proof {
            assert(g4.is_dup(d) && g4.is_sup(t) && g4.is_app(a1) && g4.is_app(a2));
            assert(g4.is_app(a) && g4.is_sup(s));
            assert(g4.blank(d) && g4.blank(a1) && g4.blank(a2));
        }
        self.bind(Binder::DupA(d), Field::AppE2(a1));
        let ghost g5 = self@;
        self.bind(Binder::DupB(d), Field::AppE2(a2));
        let ghost g6 = self@;
        proof {
            assert(g6.dups_live()) by {
                assert forall|n: usize| #[trigger] g6.dup_live(n) by {
                    if n != d {
                        assert(g.dup_live(n));
                        assert(g0.dup_live(n));
                        assert(g4.dup_live(n));
                        assert(g5.dup_live(n));
                    }
                }
            }
        }
        self.move_value(Field::AppE2(a), Field::DupE(d));
        self.move_value(Field::SupE1(s), Field::AppE1(a1));
        self.move_value(Field::SupE2(s), Field::AppE1(a2));
        proof {
            assert(self@.fields[Field::AppE1(a)] == NodeRef::SupPtr(s));
            assert(self@.blank(s));
        }
        self.free_at(Field::AppE1(a));
        proof {
            assert(self@.fields[host] == NodeRef::AppPtr(a));
            assert(self@.blank(a));
        }
        self.free_at(host);
        self.move_value(tmp, host);
        self.pop_scratch();
    }

    fn bind_if(&mut self, n: Option<usize>, b: Binder, f: Field)
        requires
            old(self)@.wf(),
            n is Some ==> {
                &&& old(self)@.valid_binder(b)
                &&& old(self)@.slot(b) == FieldRef::UnusedVar
                &&& old(self)@.valid_field(f)
                &&& old(self)@.read(f) == NodeRef::UnboundVar
            },
        ensures
            final(self)@ == old(self)@.bind_if(n is Some, b, f),
            final(self)@.wf(),
            n is Some ==> old(self)@.bound(final(self)@, b, f) && final(self)@.dup_live(b.node()),
            n is None ==> final(self)@ == old(self)@,
            forall|m: usize|
                m != b.node() && old(self)@.dup_live(m) ==> #[trigger] final(self)@.dup_live(m),
    {
        if n.is_some() {
            self.bind(b, f);
        }
    }

    /// `dup #l{a b} = (λx e)  ⇒  a <- (λx1 c); b <- (λx2 d); x <- #l{x1 x2};
    /// dup #l{c d} = e`, where the `Dup` is in cell `d` and the `Lam` in
    /// cell `l`.
    pub fn rule_dup_lam(&mut self, d: usize, l: usize)
        requires
            old(self)@.inv(),
            old(self)@.is_dup_lam(d),
            old(self)@.read(Field::DupE(d)) == NodeRef::LamPtr(l),
        ensures
            final(self)@ == old(self)@.dup_lam(d),
            final(self)@.inv(),
            final(self)@.live() == old(self)@.live() - 1 + old(self)@.uses(Binder::DupA(d))
                + old(self)@.uses(Binder::DupB(d)) + old(self)@.uses(Binder::LamX(l)),
    {
        let ghost g = self@;
        proof {
            assert(g.value_ok(Field::DupE(d)));
            assert(g.binder_ok(Binder::DupA(d)));
            assert(g.binder_ok(Binder::DupB(d)));
            assert(g.binder_ok(Binder::LamX(l)));
            assert(g.dup_live(d));
        }
        let lab = self.label(d);
        let l1 = self.fill_use(Binder::DupA(d), Kind::Lam);
        let ghost g1 = self@;
        proof {
            assert(g1.is_dup(d) && g1.is_lam(l));
            assert(g1.fields[Field::DupE(d)] == NodeRef::LamPtr(l));
            assert(g1.binder_ok(Binder::DupB(d)));
        }
        let l2 = self.fill_use(Binder::DupB(d), Kind::Lam);
        let ghost g2 = self@;
        proof {
            assert(g2.is_dup(d) && g2.is_lam(l));
            assert(g2.fields[Field::DupE(d)] == NodeRef::LamPtr(l));
            assert(l1 is Some ==> g2.is_lam(l1->0) && g2.blank(l1->0));
            assert(g2.binder_ok(Binder::LamX(l)));
            assert(g2.slots[Binder::LamX(l)] == g.slots[Binder::LamX(l)]);
        }
        let s = self.fill_use(Binder::LamX(l), Kind::Sup(lab));
        let ghost g3 = self@;
        proof {
            assert(g3.is_dup(d) && g3.is_lam(l));
            assert(l1 is Some ==> g3.is_lam(l1->0) && g3.blank(l1->0));
            assert(l2 is Some ==> g3.is_lam(l2->0) && g3.blank(l2->0));
        }
        match s {
            Some(sn) => {
                self.bind_if(l1, Binder::LamX(match l1 {
                    Some(n) => n,
                    None => 0,
                }), Field::SupE1(sn));
                self.bind_if(l2, Binder::LamX(match l2 {
                    Some(n) => n,
                    None => 0,
                }), Field::SupE2(sn));
            },
            None => {},
        }
        let ghost g4 = self@;
        proof {
            assert(g4.is_dup(d) && g4.is_lam(l));
            assert(g4.fields[Field::DupE(d)] == NodeRef::LamPtr(l));
            assert(l1 is Some ==> g4.is_lam(l1->0) && g4.fields[Field::LamE(l1->0)]
                == NodeRef::UnboundVar);
            assert(l2 is Some ==> g4.is_lam(l2->0) && g4.fields[Field::LamE(l2->0)]
                == NodeRef::UnboundVar);
            assert forall|n: usize| n != d && g.dup_live(n) implies #[trigger] g4.dup_live(n) by {
                assert(g1.dup_live(n));
                assert(g2.dup_live(n));
                assert(g3.dup_live(n));
            }
        }
        let d2 = self.alloc_dup(lab);
        let ghost g5 = self@;
        self.bind_if(l1, Binder::DupA(d2), Field::LamE(match l1 {
            Some(n) => n,
            None => 0,
        }));
        let ghost g6 = self@;
        self.bind_if(l2, Binder::DupB(d2), Field::LamE(match l2 {
            Some(n) => n,
            None => 0,
        }));
        let ghost g7 = self@;
        proof {
            assert(g7.dup_live(d2));
            assert(g7.value_ok(Field::LamE(l)));
            assert(g7.slots[Binder::LamX(l)] == FieldRef::UnusedVar);
            assert(g7.slots[Binder::DupA(d)] == FieldRef::UnusedVar);
            assert(g7.slots[Binder::DupB(d)] == FieldRef::UnusedVar);
        }
        self.move_value(Field::LamE(l), Field::DupE(d2));
        proof {
            assert(self@.blank(l));
        }
        self.free_at(Field::DupE(d));
        proof {
            assert(self@.blank(d));
        }
        let ghost g8 = self@;
        self.free_dup(d);
        proof {
            assert forall|n: usize| #[trigger] self@.dup_live(n) by {
                if n != d {
                    if n != d2 {
                        assert(g.dup_live(n));
                        assert(g4.dup_live(n));
                        assert(g5.dup_live(n));
                        assert(g6.dup_live(n));
                    }
                    assert(g7.dup_live(n));
                    assert(g8.dup_live(n));
                }
            }
        }
    }

    /// A new `Dup` with label `l` whose variables occur in field `fa` of
    /// cell `na` and field `fb` of cell `nb`, where those cells were made,
    /// and whose subterm is the value of `src`. Says which cell it is.
    fn split_into(
        &mut self,
        l: Label,
        na: Option<usize>,
        fa: Field,
        nb: Option<usize>,
        fb: Field,
        src: Field,
    ) -> (d: usize)
        requires
            old(self)@.wf(),
            na is Some || nb is Some,
            na is Some ==> old(self)@.valid_field(fa) && old(self)@.read(fa)
                == NodeRef::UnboundVar,
            nb is Some ==> old(self)@.valid_field(fb) && old(self)@.read(fb)
                == NodeRef::UnboundVar,
            na is Some && nb is Some ==> fa != fb,
            old(self)@.valid_field(src),
            na is Some ==> src != fa,
            nb is Some ==> src != fb,
        ensures
            d == old(self)@.fresh(),
            final(self)@ == old(self)@.alloc_dup(l).bind_if(na is Some, Binder::DupA(d), fa)
                .bind_if(nb is Some, Binder::DupB(d), fb).move_value(src, Field::DupE(d)),
            final(self)@.wf(),
            forall|m: usize| old(self)@.dup_live(m) ==> #[trigger] final(self)@.dup_live(m),
            final(self)@.dup_live(d),
            old(self)@.added(final(self)@, d, Kind::Dup(l)),
            forall|f: Field|
                f != src && f != Field::DupE(d) && !(na is Some && f == fa) && !(nb is Some && f
                    == fb) ==> #[trigger] final(self)@.fields[f] == old(self)@.fields[f],
            final(self)@.fields[src] == NodeRef::UnboundVar,
            forall|c: Binder|
                c != Binder::DupA(d) && c != Binder::DupB(d) && old(self)@.fields[src].binder()
                    != Some(c) ==> #[trigger] final(self)@.slots[c] == old(self)@.slots[c],
    {
        let ghost g = self@;
        proof {
            assert(g.value_ok(src));
        }
        let d = self.alloc_dup(l);
        let ghost g1 = self@;
        self.bind_if(na, Binder::DupA(d), fa);
        let ghost g2 = self@;
        self.bind_if(nb, Binder::DupB(d), fb);
        let ghost g3 = self@;
        proof {
            assert(g3.value_ok(src));
        }
        self.move_value(src, Field::DupE(d));
        proof {
            assert forall|m: usize| g.dup_live(m) implies #[trigger] self@.dup_live(m) by {
                if m != d {
                    assert(g1.dup_live(m));
                    assert(g2.dup_live(m));
                    assert(g3.dup_live(m));
                }
            }
        }
        d
    }

    /// The `DupSup` rule, where the `Dup` is in cell `d` and the `Sup` in
    /// cell `s`: `dup #l{a b} = #l{e1 e2}  ⇒  a <- e1; b <- e2`, and
    /// `dup #l{a b} = #m{e1 e2}  ⇒  a <- #m{a1 a2}; b <- #m{b1 b2};
    /// dup #l{a1 b1} = e1; dup #l{a2 b2} = e2`.
    pub fn rule_dup_sup(&mut self, d: usize, s: usize)
        requires
            old(self)@.inv(),
            old(self)@.is_dup_sup(d),
            old(self)@.read(Field::DupE(d)) == NodeRef::SupPtr(s),
        ensures
            final(self)@ == old(self)@.dup_sup(d),
            final(self)@.inv(),
            old(self)@.label(d) == old(self)@.label(s) ==> old(self)@.only_freed(final(self)@)
                && final(self)@.live() <= old(self)@.live() - 2,
            old(self)@.label(d) == old(self)@.label(s) && old(self)@.plain_dup_sup(d, s) ==> {
                &&& final(self)@.read(old(self)@.slot(Binder::DupA(d))->VarUsePtr_0) == old(
                    self,
                )@.read(Field::SupE1(s))
                &&& final(self)@.read(old(self)@.slot(Binder::DupB(d))->VarUsePtr_0) == old(
                    self,
                )@.read(Field::SupE2(s))
                &&& final(self)@.live() == old(self)@.live() - 2
            },
            old(self)@.label(d) != old(self)@.label(s) ==> final(self)@.live() == old(self)@.live()
                + old(self)@.uses(Binder::DupA(d)) + old(self)@.uses(Binder::DupB(d)),
    {
        let ghost g = self@;
        proof {
            assert(g.value_ok(Field::DupE(d)));
            assert(g.binder_ok(Binder::DupA(d)));
            assert(g.binder_ok(Binder::DupB(d)));
            assert(g.dup_live(d));
        }
        let l = self.label(d);
        let m = self.label(s);
        if l == m {
            self.subst(Binder::DupA(d), Field::SupE1(s));
            let ghost g1 = self@;
            proof {
                assert(g1.fields[Field::DupE(d)] == NodeRef::SupPtr(s));
                assert(g1.value_ok(Field::SupE2(s)));
                assert(g1.binder_ok(Binder::DupB(d)));
            }
            self.subst(Binder::DupB(d), Field::SupE2(s));
            let ghost g2 = self@;
            proof {
                assert(g2.fields[Field::DupE(d)] == NodeRef::SupPtr(s));
                assert(g2.value_ok(Field::SupE1(s)));
                assert(g2.blank(s));
            }
            self.free_at(Field::DupE(d));
            let ghost g3 = self@;
            proof {
                assert(g3.blank(d));
            }
            self.free_dup(d);
            proof {
                assert forall|n: usize| #[trigger] self@.dup_live(n) by {
                    if n != d {
                        assert(g.dup_live(n));
                        assert(g1.dup_live(n));
                        assert(g2.dup_live(n));
                        assert(g3.dup_live(n));
                    }
                }
                if g.plain_dup_sup(d, s) {
                    let fa = g.slot(Binder::DupA(d))->VarUsePtr_0;
                    let fb = g.slot(Binder::DupB(d))->VarUsePtr_0;
                    assert(g.field_tidy(fa));
                    assert(g.field_tidy(fb));
                    assert(g1.fields[fa] == g.fields[Field::SupE1(s)]);
                    assert(g1.slots[Binder::DupB(d)] == g.slots[Binder::DupB(d)]);
                    assert(g1.fields[Field::SupE2(s)] == g.fields[Field::SupE2(s)]);
                    assert(g2.fields[fb] == g1.fields[Field::SupE2(s)]);
                    assert(g2.fields[fa] == g1.fields[fa]);
                    assert(self@.fields[fa] == g2.fields[fa]);
                    assert(self@.fields[fb] == g2.fields[fb]);
                    assert(self@.scratch == 0);
                }
            }
            self.sweep();
        } else {
            let sa = self.fill_use(Binder::DupA(d), Kind::Sup(m));
            let ghost g1 = self@;
            proof {
                assert(g1.is_dup(d) && g1.is_sup(s));
                assert(g1.fields[Field::DupE(d)] == NodeRef::SupPtr(s));
                assert(g1.binder_ok(Binder::DupB(d)));
            }
            let sb = self.fill_use(Binder::DupB(d), Kind::Sup(m));
            let ghost g2 = self@;
            proof {
                assert(g2.is_dup(d) && g2.is_sup(s));
                assert(g2.fields[Field::DupE(d)] == NodeRef::SupPtr(s));
                assert(sa is Some ==> g2.is_sup(sa->0) && g2.blank(sa->0));
                assert(sb is Some ==> g2.is_sup(sb->0) && g2.blank(sb->0));
            }
            let na = match sa {
                Some(n) => n,
                None => 0,
            };
            let nb = match sb {
                Some(n) => n,
                None => 0,
            };
            let d1 = self.split_into(
                l,
                sa,
                Field::SupE1(na),
                sb,
                Field::SupE1(nb),
                Field::SupE1(s),
            );
            let ghost g3 = self@;
            proof {
                assert(g3.is_dup(d) && g3.is_sup(s));
                assert(g3.fields[Field::DupE(d)] == NodeRef::SupPtr(s));
                assert(sa is Some ==> g3.is_sup(na) && g3.fields[Field::SupE2(na)]
                    == NodeRef::UnboundVar);
                assert(sb is Some ==> g3.is_sup(nb) && g3.fields[Field::SupE2(nb)]
                    == NodeRef::UnboundVar);
            }
            let d2 = self.split_into(
                l,
                sa,
                Field::SupE2(na),
                sb,
                Field::SupE2(nb),
                Field::SupE2(s),
            );
            let ghost g4 = self@;
            proof {
                assert(g4.is_dup(d) && g4.is_sup(s));
                assert(g4.fields[Field::DupE(d)] == NodeRef::SupPtr(s));
                assert(g2.value_ok(Field::SupE1(s)));
                assert(g3.value_ok(Field::SupE2(s)));
                assert(g4.blank(s));
            }
            self.free_at(Field::DupE(d));
            let ghost g5 = self@;
            proof {
                assert(g5.blank(d));
            }
            self.free_dup(d);
            proof {
                assert forall|n: usize| #[trigger] self@.dup_live(n) by {
                    if n != d {
                        if n != d1 && n != d2 {
                            assert(g.dup_live(n));
                            assert(g1.dup_live(n));
                            assert(g2.dup_live(n));
                        }
                        assert(g3.dup_live(n));
                        assert(g4.dup_live(n));
                        assert(g5.dup_live(n));
                    }
                }
            }
        }
    }
}

} // verus!
