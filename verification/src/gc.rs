//! Discarding values that no binder reads.
//!
//! A value cut out of the graph waits in a cell of the worklist. Discarding
//! it frees the node it refers to and puts the node's subterms on the
//! worklist in turn; a bound variable that is discarded leaves its binder
//! unused, and a `Dup` whose binders are both unused is freed with its
//! subterm discarded.

use vstd::prelude::*;
use crate::graph::TermGraph;
use crate::net::Net;
use crate::node::{Binder, Field, FieldRef, NodeRef};
use crate::steps::{
    lemma_dups_frame,
    lemma_free_at,
    lemma_free_dup,
    lemma_live,
    lemma_move_value,
    lemma_pop_scratch,
    lemma_push_scratch,
    lemma_unbind,
};

verus! {

impl Net {
    /// The last cell of the worklist.
    pub open spec fn top(self) -> Field {
        Field::Scratch((self.scratch - 1) as usize)
    }

    /// Discards the bound variable in the last cell of the worklist: its
    /// binder `b` becomes unused. A `Dup` left without a used binder is
    /// freed, and its subterm takes the variable's place on the worklist.
    pub open spec fn drop_use(self, b: Binder) -> Net {
        let g = self.unbind(b);
        match b.sibling() {
            Some(s) => if self.slot(s) == FieldRef::UnusedVar {
                g.move_value(Field::DupE(b.node()), self.top()).free_dup(b.node())
            } else {
                g.pop_scratch()
            },
            None => g.pop_scratch(),
        }
    }

    /// Frees the `Lam` in cell `n` that the last cell of the worklist refers
    /// to. Its variable becomes unbound where it occurs, and its body goes
    /// to a new cell of the worklist.
    pub open spec fn drop_lam(self, n: usize) -> Net {
        self.unbind(Binder::LamX(n)).push_scratch().move_value(
            Field::LamE(n),
            Field::Scratch(self.scratch as usize),
        ).free_at(self.top())
    }

    /// Frees the node in cell `n` that the last cell of the worklist refers
    /// to, after moving its two subterms `e1` and `e2` to new cells.
    pub open spec fn drop_pair(self, e1: Field, e2: Field) -> Net {
        self.push_scratch().move_value(e1, Field::Scratch(self.scratch as usize)).push_scratch()
            .move_value(e2, Field::Scratch((self.scratch + 1) as usize)).free_at(self.top())
    }

    /// One step of discarding: deals with the last cell of the worklist.
    /// Where the worklist could not be indexed any further, nothing changes.
    pub open spec fn discard_top(self) -> Net {
        match self.read(self.top()) {
            NodeRef::UnboundVar => self.pop_scratch(),
            NodeRef::LamBoundVar(n) => self.drop_use(Binder::LamX(n)),
            NodeRef::DupABoundVar(n) => self.drop_use(Binder::DupA(n)),
            NodeRef::DupBBoundVar(n) => self.drop_use(Binder::DupB(n)),
            NodeRef::LamPtr(n) => if self.scratch < usize::MAX {
                self.drop_lam(n)
            } else {
                self
            },
            NodeRef::AppPtr(n) => if self.scratch + 1 < usize::MAX {
                self.drop_pair(Field::AppE1(n), Field::AppE2(n))
            } else {
                self
            },
            NodeRef::SupPtr(n) => if self.scratch + 1 < usize::MAX {
                self.drop_pair(Field::SupE1(n), Field::SupE2(n))
            } else {
                self
            },
            NodeRef::DupPtr(_) => self,
        }
    }

    /// Discards everything on the worklist.
    pub open spec fn sweep(self) -> Net
        decreases self.live(), self.scratch,
        when self.wf()
    {
        if self.scratch == 0 || self.discard_top() == self {
            self
        } else {
            proof {
                lemma_discard_top(self);
            }
            self.discard_top().sweep()
        }
    }
}

/// A step of discarding keeps the graph well-formed and every `Dup` live,
/// and either frees a node or shortens the worklist.
pub proof fn lemma_discard_top(g: Net)
    requires
        g.wf(),
        g.scratch > 0,
    ensures
        g.discard_top().wf(),
        g.dups_live() ==> g.discard_top().dups_live(),
        g.discard_top() == g || (0 <= g.discard_top().live() < g.live()) || (g.discard_top().live()
            == g.live() && g.discard_top().scratch < g.scratch),
        g.only_freed(g.discard_top()),
{
    reveal(Net::push_scratch);
    reveal(Net::pop_scratch);
    reveal(Net::move_value);
    reveal(Net::unbind);
    reveal(Net::free_at);
    reveal(Net::free_dup);
    let t = g.top();
    let h = g.discard_top();
    assert(g.value_ok(t));
    match g.read(t) {
        NodeRef::UnboundVar => {
            lemma_pop_scratch(g);
        },
        NodeRef::LamBoundVar(n) => {
            lemma_drop_use(g, Binder::LamX(n));
        },
        NodeRef::DupABoundVar(n) => {
            lemma_drop_use(g, Binder::DupA(n));
        },
        NodeRef::DupBBoundVar(n) => {
            lemma_drop_use(g, Binder::DupB(n));
        },
        NodeRef::LamPtr(n) => {
            if g.scratch < usize::MAX {
                let b = Binder::LamX(n);
                assert(g.binder_ok(b));
                let g1 = g.unbind(b);
                lemma_unbind(g, b);
                lemma_dups_frame(g, g1);
                let g2 = g1.push_scratch();
                lemma_push_scratch(g1);
                let c = Field::Scratch(g.scratch as usize);
                let g3 = g2.move_value(Field::LamE(n), c);
                lemma_move_value(g2, Field::LamE(n), c);
                assert(g2.value_ok(Field::LamE(n)));
                assert(g3.blank(n));
                lemma_free_at(g3, t);
                lemma_live(h);
            }
        },
        NodeRef::AppPtr(n) => {
            if g.scratch + 1 < usize::MAX {
                lemma_drop_pair(g, n, Field::AppE1(n), Field::AppE2(n));
            }
        },
        NodeRef::SupPtr(n) => {
            if g.scratch + 1 < usize::MAX {
                lemma_drop_pair(g, n, Field::SupE1(n), Field::SupE2(n));
            }
        },
        NodeRef::DupPtr(_) => {},
    }
}

pub proof fn lemma_drop_use(g: Net, b: Binder)
    requires
        g.wf(),
        g.scratch > 0,
        g.read(g.top()) == b.marker(),
    ensures
        g.drop_use(b).wf(),
        g.dups_live() ==> g.drop_use(b).dups_live(),
        (0 <= g.drop_use(b).live() < g.live()) || (g.drop_use(b).live() == g.live()
            && g.drop_use(b).scratch < g.scratch),
        g.only_freed(g.drop_use(b)),
{
    reveal(Net::push_scratch);
    reveal(Net::pop_scratch);
    reveal(Net::move_value);
    reveal(Net::unbind);
    reveal(Net::free_at);
    reveal(Net::free_dup);
    let t = g.top();
    let h = g.drop_use(b);
    assert(g.value_ok(t));
    let g1 = g.unbind(b);
    lemma_unbind(g, b);
    if b.sibling() is Some && g.slot(b.sibling()->0) == FieldRef::UnusedVar {
        let n = b.node();
        let g2 = g1.move_value(Field::DupE(n), t);
        lemma_move_value(g1, Field::DupE(n), t);
        assert(g1.value_ok(Field::DupE(n)));
        assert(g2.blank(n));
        lemma_free_dup(g2, n);
        lemma_live(h);
        assert forall|m: usize| g.dup_live(m) implies #[trigger] h.dup_live(m) by {
            if m != n {
                assert(g1.dup_live(m));
                assert(g2.dup_live(m));
            }
        }
        lemma_dups_frame(g, h);
    } else {
        lemma_pop_scratch(g1);
        assert forall|m: usize| g.dup_live(m) implies #[trigger] h.dup_live(m) by {
            if m != b.node() {
                assert(g1.dup_live(m));
            }
        }
        lemma_dups_frame(g, h);
    }
}

pub proof fn lemma_drop_pair(g: Net, n: usize, e1: Field, e2: Field)
    requires
        g.wf(),
        g.scratch > 0,
        g.scratch + 1 < usize::MAX,
        g.read(g.top()).child() == Some(n),
        (g.read(g.top()) == NodeRef::AppPtr(n) && e1 == Field::AppE1(n) && e2 == Field::AppE2(n))
            || (g.read(g.top()) == NodeRef::SupPtr(n) && e1 == Field::SupE1(n) && e2
            == Field::SupE2(n)),
    ensures
        g.drop_pair(e1, e2).wf(),
        g.dups_live() ==> g.drop_pair(e1, e2).dups_live(),
        0 <= g.drop_pair(e1, e2).live() < g.live(),
        g.only_freed(g.drop_pair(e1, e2)),
{
    reveal(Net::push_scratch);
    reveal(Net::pop_scratch);
    reveal(Net::move_value);
    reveal(Net::unbind);
    reveal(Net::free_at);
    reveal(Net::free_dup);
    let t = g.top();
    let h = g.drop_pair(e1, e2);
    assert(g.value_ok(t));
    let g1 = g.push_scratch();
    lemma_push_scratch(g);
    let c1 = Field::Scratch(g.scratch as usize);
    let g2 = g1.move_value(e1, c1);
    lemma_move_value(g1, e1, c1);
    let g3 = g2.push_scratch();
    lemma_push_scratch(g2);
    let c2 = Field::Scratch((g.scratch + 1) as usize);
    let g4 = g3.move_value(e2, c2);
    lemma_move_value(g3, e2, c2);
    assert(g4.blank(n));
    lemma_free_at(g4, t);
    lemma_live(h);
}

impl TermGraph {
    /// One step of discarding.
    fn discard_top(&mut self)
        requires
            old(self)@.wf(),
            old(self)@.scratch > 0,
        ensures
            final(self)@ == old(self)@.discard_top(),
            final(self)@ != old(self)@,
    {
        proof {
            lemma_discard_top(self@);
        }
        let ghost g = self@;
        let t = Field::Scratch(self.scratch_len() - 1);
        proof {
            assert(g.value_ok(t));
        }
        let v = self.read(t);
        match v {
            NodeRef::UnboundVar => {
                self.pop_scratch();
            },
            NodeRef::LamBoundVar(n) => {
                self.unbind(Binder::LamX(n));
                self.pop_scratch();
            },
            NodeRef::DupABoundVar(n) => {
                self.drop_dup_use(Binder::DupA(n), Binder::DupB(n), t);
            },
            NodeRef::DupBBoundVar(n) => {
                self.drop_dup_use(Binder::DupB(n), Binder::DupA(n), t);
            },
            NodeRef::LamPtr(n) => {
                proof {
                    assert(g.binder_ok(Binder::LamX(n)));
                }
                self.unbind(Binder::LamX(n));
                let c = self.push_scratch();
                proof {
                    assert(self@.value_ok(Field::LamE(n)));
                }
                self.move_value(Field::LamE(n), c);
                proof {
                    assert(self@.blank(n));
                }
                self.free_at(t);
            },
            NodeRef::AppPtr(n) => {
                self.drop_pair(n, Field::AppE1(n), Field::AppE2(n), t);
            },
            NodeRef::SupPtr(n) => {
                self.drop_pair(n, Field::SupE1(n), Field::SupE2(n), t);
            },
            NodeRef::DupPtr(_) => {},
        }
    }

    fn drop_dup_use(&mut self, b: Binder, s: Binder, t: Field)
        requires
            old(self)@.wf(),
            old(self)@.scratch > 0,
            t == old(self)@.top(),
            old(self)@.read(t) == b.marker(),
            b.sibling() == Some(s),
        ensures
            final(self)@ == old(self)@.drop_use(b),
            final(self)@ != old(self)@,
    {
        let ghost g = self@;
        proof {
            assert(g.value_ok(t));
        }
        let other = self.slot(s);
        self.unbind(b);
        match other {
            FieldRef::UnusedVar => {
                let n = match b {
                    Binder::LamX(n) => n,
                    Binder::DupA(n) => n,
                    Binder::DupB(n) => n,
                };
                proof {
                    assert(self@.value_ok(Field::DupE(n)));
                }
                self.move_value(Field::DupE(n), t);
                proof {
                    assert(self@.blank(n));
                }
                self.free_dup(n);
            },
            FieldRef::VarUsePtr(_) => {
                self.pop_scratch();
            },
        }
    }

    fn drop_pair(&mut self, n: usize, e1: Field, e2: Field, t: Field)
        requires
            old(self)@.wf(),
            old(self)@.scratch > 0,
            t == old(self)@.top(),
            old(self)@.read(t).child() == Some(n),
            (old(self)@.read(t) == NodeRef::AppPtr(n) && e1 == Field::AppE1(n) && e2
                == Field::AppE2(n)) || (old(self)@.read(t) == NodeRef::SupPtr(n) && e1
                == Field::SupE1(n) && e2 == Field::SupE2(n)),
        ensures
            final(self)@ == old(self)@.drop_pair(e1, e2),
            old(self)@.scratch + 1 < usize::MAX,
            final(self)@ != old(self)@,
    {
        let ghost g = self@;
        proof {
            assert(g.value_ok(t));
        }
        let c1 = self.push_scratch();
        self.move_value(e1, c1);
        let c2 = self.push_scratch();
        self.move_value(e2, c2);
        proof {
            assert(self@.blank(n));
        }
        self.free_at(t);
    }

    /// Discards everything on the worklist.
    pub(crate) fn sweep(&mut self)
        requires
            old(self)@.wf(),
        ensures
            final(self)@ == old(self)@.sweep(),
            final(self)@.wf(),
            final(self)@.scratch == 0,
            old(self)@.dups_live() ==> final(self)@.dups_live(),
            old(self)@.only_freed(final(self)@),
            old(self)@.scratch == 0 ==> final(self)@ == old(self)@,
    {
        while self.scratch_len() > 0
            invariant
                self@.wf(),
                self@.sweep() == old(self)@.sweep(),
                old(self)@.dups_live() ==> self@.dups_live(),
                old(self)@.only_freed(self@),
            decreases self@.live(), self@.scratch,
        {
            proof {
                lemma_discard_top(self@);
            }
            self.discard_top();
        }
    }
}

} // verus!
