//! Walking the graph from the root: the redex sites, depth first, and the
//! nodes, breadth first.

use vstd::prelude::*;
use std::collections::VecDeque;
use crate::graph::TermGraph;
use crate::net::Net;
use crate::node::{App, Dup, Field, FieldRef, Lam, Node, NodeRef, Sup};

verus! {

/// The number of cells not yet seen.
pub open spec fn unseen(seen: Seq<bool>) -> nat
    decreases seen.len(),
{
    if seen.len() == 0 {
        0
    } else {
        unseen(seen.drop_last()) + if seen.last() {
            0nat
        } else {
            1nat
        }
    }
}

/// Seeing one more cell leaves one less unseen.
pub proof fn lemma_unseen_update(seen: Seq<bool>, i: int)
    requires
        0 <= i < seen.len(),
        !seen[i],
    ensures
        unseen(seen.update(i, true)) + 1 == unseen(seen),
    decreases seen.len(),
{
    let after = seen.update(i, true);
    if i == seen.len() - 1 {
        assert(after.drop_last() =~= seen.drop_last());
    } else {
        assert(after.drop_last() =~= seen.drop_last().update(i, true));
        lemma_unseen_update(seen.drop_last(), i);
    }
}

impl Net {
    /// A `Lam` or a `Sup`: what an `App` or a `Dup` reacts with.
    pub open spec fn fires(v: NodeRef) -> bool {
        v is LamPtr || v is SupPtr
    }

    /// The cell that a walk enters through the value `v`: that of a node
    /// referred to as a subterm, or of a `Dup` whose variable `v` is, unless
    /// the cell was seen before.
    pub open spec fn enters(v: NodeRef, seen: Seq<bool>) -> Option<usize> {
        match v {
            NodeRef::UnboundVar => None,
            NodeRef::LamBoundVar(_) => None,
            _ => if v.index()->0 < seen.len() && !seen[v.index()->0 as int] {
                v.index()
            } else {
                None
            },
        }
    }

    /// The subterm fields of the node that a walk enters through `v`.
    pub open spec fn subfields(v: NodeRef) -> Seq<Field> {
        match v {
            NodeRef::UnboundVar => seq![],
            NodeRef::LamBoundVar(_) => seq![],
            NodeRef::LamPtr(n) => seq![Field::LamE(n)],
            NodeRef::AppPtr(n) => seq![Field::AppE1(n), Field::AppE2(n)],
            NodeRef::SupPtr(n) => seq![Field::SupE1(n), Field::SupE2(n)],
            NodeRef::DupABoundVar(n) => seq![Field::DupE(n)],
            NodeRef::DupBBoundVar(n) => seq![Field::DupE(n)],
            NodeRef::DupPtr(n) => seq![Field::DupE(n)],
        }
    }

    /// The node that `v` leads to is the left side of a rule: an `App` of a
    /// `Lam` or `Sup`, or a `Dup` of a `Lam` or `Sup`.
    pub open spec fn active(self, v: NodeRef) -> bool {
        match v {
            NodeRef::AppPtr(n) => Self::fires(self.read(Field::AppE1(n))),
            NodeRef::DupABoundVar(n) => Self::fires(self.read(Field::DupE(n))),
            NodeRef::DupBBoundVar(n) => Self::fires(self.read(Field::DupE(n))),
            NodeRef::DupPtr(n) => Self::fires(self.read(Field::DupE(n))),
            _ => false,
        }
    }

    /// `f` is a redex site: a field through which a rule can be applied.
    pub open spec fn is_redex(self, f: Field) -> bool {
        match self.read(f) {
            NodeRef::AppPtr(_) => self.is_app_lam(f) || self.is_app_sup(f),
            NodeRef::DupABoundVar(d) => self.valid_field(f) && (self.is_dup_lam(d)
                || self.is_dup_sup(d)),
            NodeRef::DupBBoundVar(d) => self.valid_field(f) && (self.is_dup_lam(d)
                || self.is_dup_sup(d)),
            _ => false,
        }
    }

    /// The redex sites found by a depth-first walk that still has the fields
    /// of `stack` to look at, the last first, has seen the cells of `seen`
    /// and has found `acc`.
    pub open spec fn scan(self, stack: Seq<Field>, seen: Seq<bool>, acc: Seq<Field>) -> Seq<Field>
        decreases unseen(seen), stack.len(),
    {
        if stack.len() == 0 {
            acc
        } else {
            let f = stack.last();
            let v = self.read(f);
            match Self::enters(v, seen) {
                None => self.scan(stack.drop_last(), seen, acc),
                Some(n) => {
                    proof {
                        lemma_unseen_update(seen, n as int);
                    }
                    self.scan(
                        stack.drop_last() + Self::subfields(v),
                        seen.update(n as int, true),
                        if self.active(v) {
                            acc.push(f)
                        } else {
                            acc
                        },
                    )
                },
            }
        }
    }

    /// The redex sites in the order in which a depth-first walk from the
    /// root finds them; each node is looked at once.
    pub open spec fn redexes(self) -> Seq<Field> {
        self.scan(seq![Field::Root], Seq::new(self.kinds.len(), |i: int| false), seq![])
    }

    /// The nodes yielded by a breadth-first walk that still has the values
    /// of `queue` to look at, the first first, and has seen the cells of
    /// `seen`.
    pub open spec fn walk(self, queue: Seq<NodeRef>, seen: Seq<bool>) -> Seq<NodeRef>
        decreases unseen(seen), queue.len(),
    {
        if queue.len() == 0 {
            seq![]
        } else {
            let v = queue.first();
            match Self::enters(v, seen) {
                None => self.walk(queue.drop_first(), seen),
                Some(n) => {
                    proof {
                        lemma_unseen_update(seen, n as int);
                    }
                    seq![Self::entered(v)] + self.walk(
                        queue.drop_first() + Self::subfields(v).map_values(
                            |f: Field| self.read(f),
                        ),
                        seen.update(n as int, true),
                    )
                },
            }
        }
    }

    /// The reference to the node that a walk enters through `v`.
    pub open spec fn entered(v: NodeRef) -> NodeRef {
        match v {
            NodeRef::DupABoundVar(n) => NodeRef::DupPtr(n),
            NodeRef::DupBBoundVar(n) => NodeRef::DupPtr(n),
            _ => v,
        }
    }

    /// The nodes in the order in which a breadth-first walk from the root
    /// reaches them, a `Dup` through the first of its variables that the
    /// walk meets.
    pub open spec fn nodes(self) -> Seq<NodeRef> {
        self.walk(seq![self.root()], Seq::new(self.kinds.len(), |i: int| false))
    }
}

/// The field `f` belongs to no node or to one whose cell was seen.
pub open spec fn field_seen(seen: Seq<bool>, f: Field) -> bool {
    f.node() is Some ==> f.node()->0 < seen.len() && seen[f.node()->0 as int]
}

/// In a well-formed graph every reference is to a cell of the arena, and a
/// subterm of the kind it says.
pub proof fn lemma_index_in_range(g: Net, f: Field)
    requires
        g.wf(),
    ensures
        g.read(f).index() is Some ==> g.read(f).index()->0 < g.kinds.len(),
        !(g.read(f) is DupPtr),
        g.read(f) is LamPtr ==> g.is_lam(g.read(f)->LamPtr_0),
        g.read(f) is AppPtr ==> g.is_app(g.read(f)->AppPtr_0),
        g.read(f) is SupPtr ==> g.is_sup(g.read(f)->SupPtr_0),
        g.read(f) is DupABoundVar ==> g.is_dup(g.read(f)->DupABoundVar_0),
        g.read(f) is DupBBoundVar ==> g.is_dup(g.read(f)->DupBBoundVar_0),
        g.read(f) is LamBoundVar ==> g.is_lam(g.read(f)->LamBoundVar_0),
        g.read(f) != NodeRef::UnboundVar ==> g.valid_field(f),
{
    assert(g.value_ok(f));
    assert(g.field_tidy(f));
}

/// A vector of `n` times `false`.
fn falses(n: usize) -> (v: Vec<bool>)
    ensures
        v@ == Seq::new(n as nat, |i: int| false),
{
    let mut v: Vec<bool> = Vec::new();
    let mut i: usize = 0;
    while i < n
        invariant
            i <= n,
            v@.len() == i,
            forall|j: int| 0 <= j < i ==> !v@[j],
        decreases n - i,
    {
        v.push(false);
        i += 1;
    }
    proof {
        assert(v@ =~= Seq::new(n as nat, |i: int| false));
    }
    v
}

impl TermGraph {
    /// The redex sites, in the order in which a depth-first walk from the
    /// root finds them.
    pub fn collect_redexes(&self) -> (redexes: Vec<Field>)
        requires
            self@.wf(),
        ensures
            redexes@ == self@.redexes(),
            forall|i: int| 0 <= i < redexes@.len() ==> self@.is_redex(#[trigger] redexes@[i]),
    {
        let ghost g = self@;
        let mut visited = falses(self.cells());
        let mut redexes: Vec<Field> = Vec::new();
        let mut stack: Vec<Field> = Vec::new();
        stack.push(Field::Root);
        proof {
            assert(stack@ =~= seq![Field::Root]);
        }
        while stack.len() > 0
            invariant
                g == self@,
                g.wf(),
                visited@.len() == g.kinds.len(),
                g.scan(stack@, visited@, redexes@) == g.redexes(),
                forall|i: int| 0 <= i < redexes@.len() ==> g.is_redex(#[trigger] redexes@[i]),
                forall|i: int| 0 <= i < stack@.len() ==> g.valid_field(#[trigger] stack@[i]),
                forall|i: int| 0 <= i < stack@.len() ==> field_seen(visited@, #[trigger] stack@[i]),
                forall|m: usize|
                    #[trigger] g.is_owned(m) && visited@[m as int] ==> field_seen(
                        visited@,
                        g.owner[m as int],
                    ),
            decreases unseen(visited@), stack@.len(),
        {
            let ghost stack0 = stack@;
            let ghost seen0 = visited@;
            let ghost acc0 = redexes@;
            let f = stack.pop().unwrap();
            let v = self.read(f);
            proof {
                lemma_index_in_range(g, f);
                assert(stack0.drop_last() =~= stack@);
                assert(g.valid_field(stack0[stack0.len() - 1]));
                assert(field_seen(seen0, stack0[stack0.len() - 1]));
                assert(g.value_ok(f));
            }
            let enter: Option<usize> = match v {
                NodeRef::UnboundVar => None,
                NodeRef::LamBoundVar(_) => None,
                NodeRef::DupABoundVar(n) => if !visited[n] {
                    Some(n)
                } else {
                    None
                },
                NodeRef::DupBBoundVar(n) => if !visited[n] {
                    Some(n)
                } else {
                    None
                },
                NodeRef::LamPtr(n) => if !visited[n] {
                    Some(n)
                } else {
                    None
                },
                NodeRef::AppPtr(n) => if !visited[n] {
                    Some(n)
                } else {
                    None
                },
                NodeRef::SupPtr(n) => if !visited[n] {
                    Some(n)
                } else {
                    None
                },
                NodeRef::DupPtr(n) => None,
            };
            assert(enter == Net::enters(v, seen0));
            match enter {
                None => {},
                Some(n) => {
                    proof {
                        lemma_unseen_update(seen0, n as int);
                    }
                    visited.set(n, true);
                    match v {
                        NodeRef::LamPtr(_) => {
                            stack.push(Field::LamE(n));
                            proof {
                                assert(stack@ =~= stack0.drop_last() + Net::subfields(v));
                            }
                        },
                        NodeRef::AppPtr(_) => {
                            let e1 = self.read(Field::AppE1(n));
                            proof {
                                lemma_index_in_range(g, Field::AppE1(n));
                                assert(g.value_ok(Field::AppE1(n)));
                            }
                            match e1 {
                                NodeRef::LamPtr(l) => {
                                    redexes.push(f);
                                    proof {
                                        assert(g.is_app_lam(f));
                                    }
                                },
                                NodeRef::SupPtr(s) => {
                                    redexes.push(f);
                                    proof {
                                        assert(g.is_app_sup(f));
                                    }
                                },
                                _ => {},
                            }
                            stack.push(Field::AppE1(n));
                            stack.push(Field::AppE2(n));
                            proof {
                                assert(stack@ =~= stack0.drop_last() + Net::subfields(v));
                            }
                        },
                        NodeRef::SupPtr(_) => {
                            stack.push(Field::SupE1(n));
                            stack.push(Field::SupE2(n));
                            proof {
                                assert(stack@ =~= stack0.drop_last() + Net::subfields(v));
                            }
                        },
                        _ => {
                            let e = self.read(Field::DupE(n));
                            match e {
                                NodeRef::LamPtr(_) => {
                                    redexes.push(f);
                                },
                                NodeRef::SupPtr(_) => {
                                    redexes.push(f);
                                },
                                _ => {},
                            }
                            stack.push(Field::DupE(n));
                            proof {
                                assert(stack@ =~= stack0.drop_last() + Net::subfields(v));
                            }
                        },
                    }
                    proof {
                        assert(redexes@ =~= if g.active(v) {
                            acc0.push(f)
                        } else {
                            acc0
                        });
                        assert(field_seen(seen0, stack0[stack0.len() - 1]));
                        assert forall|m: usize| #[trigger]
                            g.is_owned(m) && visited@[m as int] implies field_seen(
                            visited@,
                            g.owner[m as int],
                        ) by {
                            if m != n {
                                assert(field_seen(seen0, g.owner[m as int]));
                            }
                        }
                        assert forall|i: int| 0 <= i < stack@.len() implies field_seen(
                            visited@,
                            #[trigger] stack@[i],
                        ) by {
                            if i < stack0.len() - 1 {
                                assert(field_seen(seen0, stack0[i]));
                            }
                        }
                    }
                },
            }
        }
        redexes
    }

    /// The nodes, in the order in which a breadth-first walk from the root
    /// reaches them. A `Dup` is reached through its variables and comes as
    /// a `DupPtr`.
    pub fn nodes(&self) -> (out: Vec<NodeRef>)
        requires
            self@.wf(),
        ensures
            out@ == self@.nodes(),
    {
        let ghost g = self@;
        let mut visited = falses(self.cells());
        let mut out: Vec<NodeRef> = Vec::new();
        let mut queue: VecDeque<NodeRef> = VecDeque::new();
        queue.push_back(self.root());
        proof {
            assert(queue@ =~= seq![g.root()]);
            lemma_index_in_range(g, Field::Root);
        }
        while queue.len() > 0
            invariant
                g == self@,
                g.wf(),
                visited@.len() == g.kinds.len(),
                out@ + g.walk(queue@, visited@) == g.nodes(),
                forall|i: int|
                    0 <= i < queue@.len() && (#[trigger] queue@[i]).index() is Some
                        ==> queue@[i].index()->0 < g.kinds.len(),
            decreases unseen(visited@), queue@.len(),
        {
            let ghost queue0 = queue@;
            let ghost seen0 = visited@;
            let ghost out0 = out@;
            let v = queue.pop_front().unwrap();
            proof {
                assert(queue@ =~= queue0.drop_first());
            }
            let enter: Option<usize> = match v {
                NodeRef::UnboundVar => None,
                NodeRef::LamBoundVar(_) => None,
                NodeRef::DupABoundVar(n) => if !visited[n] {
                    Some(n)
                } else {
                    None
                },
                NodeRef::DupBBoundVar(n) => if !visited[n] {
                    Some(n)
                } else {
                    None
                },
                NodeRef::LamPtr(n) => if !visited[n] {
                    Some(n)
                } else {
                    None
                },
                NodeRef::AppPtr(n) => if !visited[n] {
                    Some(n)
                } else {
                    None
                },
                NodeRef::SupPtr(n) => if !visited[n] {
                    Some(n)
                } else {
                    None
                },
                NodeRef::DupPtr(n) => if !visited[n] {
                    Some(n)
                } else {
                    None
                },
            };
            assert(enter == Net::enters(v, seen0));
            match enter {
                None => {},
                Some(n) => {
                    proof {
                        lemma_unseen_update(seen0, n as int);
                    }
                    visited.set(n, true);
                    let ghost kids = Net::subfields(v).map_values(|f: Field| g.read(f));
                    match v {
                        NodeRef::LamPtr(_) => {
                            out.push(v);
                            queue.push_back(self.read(Field::LamE(n)));
                            proof {
                                lemma_index_in_range(g, Field::LamE(n));
                            }
                        },
                        NodeRef::AppPtr(_) => {
                            out.push(v);
                            queue.push_back(self.read(Field::AppE1(n)));
                            queue.push_back(self.read(Field::AppE2(n)));
                            proof {
                                lemma_index_in_range(g, Field::AppE1(n));
                                lemma_index_in_range(g, Field::AppE2(n));
                            }
                        },
                        NodeRef::SupPtr(_) => {
                            out.push(v);
                            queue.push_back(self.read(Field::SupE1(n)));
                            queue.push_back(self.read(Field::SupE2(n)));
                            proof {
                                lemma_index_in_range(g, Field::SupE1(n));
                                lemma_index_in_range(g, Field::SupE2(n));
                            }
                        },
                        _ => {
                            out.push(NodeRef::DupPtr(n));
                            queue.push_back(self.read(Field::DupE(n)));
                            proof {
                                lemma_index_in_range(g, Field::DupE(n));
                            }
                        },
                    }
                    proof {
                        assert(queue@ =~= queue0.drop_first() + kids);
                        assert(out@ =~= out0 + seq![Net::entered(v)]);
                        assert(out@ + g.walk(queue@, visited@) =~= out0 + g.walk(queue0, seen0));
                    }
                },
            }
        }
        proof {
            assert(out@ =~= out@ + g.walk(queue@, visited@));
        }
        out
    }

    /// The `Lam` that `v` refers to.
    pub fn lam_read(&self, v: NodeRef) -> (lam: Lam)
        requires
            v.index() is Some,
            self@.is_lam(v.index()->0),
        ensures
            Node::Lam(lam) == self@.node(v.index()->0),
    {
        match self.node(arena_index(v)) {
            Node::Lam(l) => l,
            _ => Lam { x: FieldRef::UnusedVar, e: NodeRef::UnboundVar },
        }
    }

    /// The `App` that `v` refers to.
    pub fn app_read(&self, v: NodeRef) -> (app: App)
        requires
            v.index() is Some,
            self@.is_app(v.index()->0),
        ensures
            Node::App(app) == self@.node(v.index()->0),
    {
        match self.node(arena_index(v)) {
            Node::App(a) => a,
            _ => App { e1: NodeRef::UnboundVar, e2: NodeRef::UnboundVar },
        }
    }

    /// The `Sup` that `v` refers to.
    pub fn sup_read(&self, v: NodeRef) -> (sup: Sup)
        requires
            v.index() is Some,
            self@.is_sup(v.index()->0),
        ensures
            Node::Sup(sup) == self@.node(v.index()->0),
    {
        match self.node(arena_index(v)) {
            Node::Sup(s) => s,
            _ => Sup { l: 0, e1: NodeRef::UnboundVar, e2: NodeRef::UnboundVar },
        }
    }

    /// The `Dup` that `v` refers to.
    pub fn dup_read(&self, v: NodeRef) -> (dup: Dup)
        requires
            v.index() is Some,
            self@.is_dup(v.index()->0),
        ensures
            Node::Dup(dup) == self@.node(v.index()->0),
    {
        match self.node(arena_index(v)) {
            Node::Dup(d) => d,
            _ => Dup {
                l: 0,
                a: FieldRef::UnusedVar,
                b: FieldRef::UnusedVar,
                e: NodeRef::UnboundVar,
            },
        }
    }
}

/// The cell that `v` refers to.
fn arena_index(v: NodeRef) -> (n: usize)
    requires
        v.index() is Some,
    ensures
        n == v.index()->0,
{
    match v.ptr() {
        Some(n) => n,
        None => 0,
    }
}

} // verus!
