//! The graph as it is held in memory, and the small steps on it.

use vstd::prelude::*;
use crate::net::Net;
use crate::node::{App, Binder, Dup, Field, FieldRef, Kind, Label, Lam, Node, NodeRef, Sup};
use crate::steps::{
    lemma_alloc_at, lemma_alloc_dup, lemma_bind, lemma_free_at, lemma_free_dup, lemma_move_value,
    lemma_pop_scratch, lemma_push_scratch, lemma_unbind,
};

verus! {

/// An owned term graph: an arena of nodes, the list of its empty cells, the
/// root cell and the worklist of discarded values.
pub struct TermGraph {
    nodes: Vec<Node>,
    free: Vec<usize>,
    scratch: Vec<NodeRef>,
    root: NodeRef,
    owner: Ghost<Seq<Field>>,
}

/// What the field `f` holds in an arena, a worklist and a root cell.
pub open spec fn field_value(
    nodes: Seq<Node>,
    scratch: Seq<NodeRef>,
    root: NodeRef,
    f: Field,
) -> NodeRef {
    match f {
        Field::Root => root,
        Field::Scratch(i) => if i < scratch.len() {
            scratch[i as int]
        } else {
            NodeRef::UnboundVar
        },
        Field::LamE(n) => if n < nodes.len() && nodes[n as int] is Lam {
            nodes[n as int]->Lam_0.e
        } else {
            NodeRef::UnboundVar
        },
        Field::AppE1(n) => if n < nodes.len() && nodes[n as int] is App {
            nodes[n as int]->App_0.e1
        } else {
            NodeRef::UnboundVar
        },
        Field::AppE2(n) => if n < nodes.len() && nodes[n as int] is App {
            nodes[n as int]->App_0.e2
        } else {
            NodeRef::UnboundVar
        },
        Field::SupE1(n) => if n < nodes.len() && nodes[n as int] is Sup {
            nodes[n as int]->Sup_0.e1
        } else {
            NodeRef::UnboundVar
        },
        Field::SupE2(n) => if n < nodes.len() && nodes[n as int] is Sup {
            nodes[n as int]->Sup_0.e2
        } else {
            NodeRef::UnboundVar
        },
        Field::DupE(n) => if n < nodes.len() && nodes[n as int] is Dup {
            nodes[n as int]->Dup_0.e
        } else {
            NodeRef::UnboundVar
        },
    }
}

/// What the binder slot `b` holds in an arena.
pub open spec fn slot_value(nodes: Seq<Node>, b: Binder) -> FieldRef {
    match b {
        Binder::LamX(n) => if n < nodes.len() && nodes[n as int] is Lam {
            nodes[n as int]->Lam_0.x
        } else {
            FieldRef::UnusedVar
        },
        Binder::DupA(n) => if n < nodes.len() && nodes[n as int] is Dup {
            nodes[n as int]->Dup_0.a
        } else {
            FieldRef::UnusedVar
        },
        Binder::DupB(n) => if n < nodes.len() && nodes[n as int] is Dup {
            nodes[n as int]->Dup_0.b
        } else {
            FieldRef::UnusedVar
        },
    }
}

/// The model of an arena, a free list, a worklist and a root cell.
pub open spec fn net_of(
    nodes: Seq<Node>,
    owner: Seq<Field>,
    free: Seq<usize>,
    scratch: Seq<NodeRef>,
    root: NodeRef,
) -> Net {
    Net {
        kinds: Seq::new(nodes.len(), |i: int| nodes[i].kind()),
        fields: Map::total(|f: Field| field_value(nodes, scratch, root, f)),
        slots: Map::total(|b: Binder| slot_value(nodes, b)),
        owner,
        free,
        scratch: scratch.len(),
    }
}

impl View for TermGraph {
    type V = Net;

    closed spec fn view(&self) -> Net {
        net_of(self.nodes@, self.owner@, self.free@, self.scratch@, self.root)
    }
}

impl TermGraph {
    /// A graph without nodes whose root is an unbound variable.
    pub fn new() -> (g: TermGraph)
        ensures
            g@ == Net::empty(),
            g@.inv(),
    {
        let g = TermGraph {
            nodes: Vec::new(),
            free: Vec::new(),
            scratch: Vec::new(),
            root: NodeRef::UnboundVar,
            owner: Ghost(Seq::empty()),
        };
        proof {
            assert(g@.kinds =~= Net::empty().kinds);
            assert(g@.fields =~= Net::empty().fields);
            assert(g@.slots =~= Net::empty().slots);
            crate::steps::lemma_empty_wf();
        }
        g
    }

    /// The value of a field; of a field that is not there, an unbound
    /// variable.
    pub fn read(&self, f: Field) -> (v: NodeRef)
        ensures
            v == self@.read(f),
    {
        match f {
            Field::Root => self.root,
            Field::Scratch(i) => if i < self.scratch.len() {
                self.scratch[i]
            } else {
                NodeRef::UnboundVar
            },
            Field::LamE(n) => if n < self.nodes.len() {
                match self.nodes[n] {
                    Node::Lam(l) => l.e,
                    _ => NodeRef::UnboundVar,
                }
            } else {
                NodeRef::UnboundVar
            },
            Field::AppE1(n) => if n < self.nodes.len() {
                match self.nodes[n] {
                    Node::App(a) => a.e1,
                    _ => NodeRef::UnboundVar,
                }
            } else {
                NodeRef::UnboundVar
            },
            Field::AppE2(n) => if n < self.nodes.len() {
                match self.nodes[n] {
                    Node::App(a) => a.e2,
                    _ => NodeRef::UnboundVar,
                }
            } else {
                NodeRef::UnboundVar
            },
            Field::SupE1(n) => if n < self.nodes.len() {
                match self.nodes[n] {
                    Node::Sup(s) => s.e1,
                    _ => NodeRef::UnboundVar,
                }
            } else {
                NodeRef::UnboundVar
            },
            Field::SupE2(n) => if n < self.nodes.len() {
                match self.nodes[n] {
                    Node::Sup(s) => s.e2,
                    _ => NodeRef::UnboundVar,
                }
            } else {
                NodeRef::UnboundVar
            },
            Field::DupE(n) => if n < self.nodes.len() {
                match self.nodes[n] {
                    Node::Dup(d) => d.e,
                    _ => NodeRef::UnboundVar,
                }
            } else {
                NodeRef::UnboundVar
            },
        }
    }

    /// The value of a binder slot; of a slot that is not there, unused.
    pub fn slot(&self, b: Binder) -> (r: FieldRef)
        ensures
            r == self@.slot(b),
    {
        match b {
            Binder::LamX(n) => if n < self.nodes.len() {
                match self.nodes[n] {
                    Node::Lam(l) => l.x,
                    _ => FieldRef::UnusedVar,
                }
            } else {
                FieldRef::UnusedVar
            },
            Binder::DupA(n) => if n < self.nodes.len() {
                match self.nodes[n] {
                    Node::Dup(d) => d.a,
                    _ => FieldRef::UnusedVar,
                }
            } else {
                FieldRef::UnusedVar
            },
            Binder::DupB(n) => if n < self.nodes.len() {
                match self.nodes[n] {
                    Node::Dup(d) => d.b,
                    _ => FieldRef::UnusedVar,
                }
            } else {
                FieldRef::UnusedVar
            },
        }
    }

    /// What the root cell holds.
    pub fn root(&self) -> (v: NodeRef)
        ensures
            v == self@.root(),
    {
        self.root
    }

    /// The number of cells in the arena, empty ones included.
    pub fn cells(&self) -> (n: usize)
        ensures
            n == self@.kinds.len(),
    {
        self.nodes.len()
    }

    /// The number of values waiting to be discarded.
    pub fn scratch_len(&self) -> (n: usize)
        ensures
            n == self@.scratch,
    {
        self.scratch.len()
    }

    /// The node in cell `n`; `Free` where the arena has no such cell.
    pub fn node(&self, n: usize) -> (node: Node)
        ensures
            n < self@.kinds.len() ==> node == self@.node(n),
            n >= self@.kinds.len() ==> node == Node::Free,
    {
        if n < self.nodes.len() {
            self.nodes[n]
        } else {
            Node::Free
        }
    }

    fn write_field(&mut self, f: Field, v: NodeRef)
        requires
            old(self)@.valid_field(f),
        ensures
            final(self)@ == old(self)@.write(f, v),
    {
        match f {
            Field::Root => {
                self.root = v;
            },
            Field::Scratch(i) => {
                self.scratch.set(i, v);
            },
            Field::LamE(n) => {
                if let Node::Lam(l) = self.nodes[n] {
                    self.nodes.set(n, Node::Lam(Lam { x: l.x, e: v }));
                }
            },
            Field::AppE1(n) => {
                if let Node::App(a) = self.nodes[n] {
                    self.nodes.set(n, Node::App(App { e1: v, e2: a.e2 }));
                }
            },
            Field::AppE2(n) => {
                if let Node::App(a) = self.nodes[n] {
                    self.nodes.set(n, Node::App(App { e1: a.e1, e2: v }));
                }
            },
            Field::SupE1(n) => {
                if let Node::Sup(s) = self.nodes[n] {
                    self.nodes.set(n, Node::Sup(Sup { l: s.l, e1: v, e2: s.e2 }));
                }
            },
            Field::SupE2(n) => {
                if let Node::Sup(s) = self.nodes[n] {
                    self.nodes.set(n, Node::Sup(Sup { l: s.l, e1: s.e1, e2: v }));
                }
            },
            Field::DupE(n) => {
                if let Node::Dup(d) = self.nodes[n] {
                    self.nodes.set(n, Node::Dup(Dup { l: d.l, a: d.a, b: d.b, e: v }));
                }
            },
        }
        proof {
            let g = old(self)@.write(f, v);
            assert(self@.kinds =~= g.kinds);
            assert(self@.fields =~= g.fields);
            assert(self@.slots =~= g.slots);
        }
    }

    fn write_slot(&mut self, b: Binder, r: FieldRef)
        requires
            old(self)@.valid_binder(b),
        ensures
            final(self)@ == old(self)@.set_slot(b, r),
    {
        match b {
            Binder::LamX(n) => {
                if let Node::Lam(l) = self.nodes[n] {
                    self.nodes.set(n, Node::Lam(Lam { x: r, e: l.e }));
                }
            },
            Binder::DupA(n) => {
                if let Node::Dup(d) = self.nodes[n] {
                    self.nodes.set(n, Node::Dup(Dup { l: d.l, a: r, b: d.b, e: d.e }));
                }
            },
            Binder::DupB(n) => {
                if let Node::Dup(d) = self.nodes[n] {
                    self.nodes.set(n, Node::Dup(Dup { l: d.l, a: d.a, b: r, e: d.e }));
                }
            },
        }
        proof {
            let g = old(self)@.set_slot(b, r);
            assert(self@.kinds =~= g.kinds);
            assert(self@.fields =~= g.fields);
            assert(self@.slots =~= g.slots);
        }
    }

    fn retarget(&mut self, v: NodeRef, f: Field)
        requires
            v.binder() is Some ==> old(self)@.valid_binder(v.binder()->0),
        ensures
            final(self)@ == old(self)@.retarget(v, f),
    {
        match v {
            NodeRef::LamBoundVar(n) => self.write_slot(Binder::LamX(n), FieldRef::VarUsePtr(f)),
            NodeRef::DupABoundVar(n) => self.write_slot(Binder::DupA(n), FieldRef::VarUsePtr(f)),
            NodeRef::DupBBoundVar(n) => self.write_slot(Binder::DupB(n), FieldRef::VarUsePtr(f)),
            NodeRef::LamPtr(n) => {
                self.owner = Ghost(self.owner@.update(n as int, f));
            },
            NodeRef::AppPtr(n) => {
                self.owner = Ghost(self.owner@.update(n as int, f));
            },
            NodeRef::SupPtr(n) => {
                self.owner = Ghost(self.owner@.update(n as int, f));
            },
            _ => {},
        }
    }

    fn place(&mut self, k: Kind, f: Field) -> (n: usize)
        requires
            old(self)@.wf(),
            !(k is Free),
        ensures
            final(self)@ == old(self)@.place(k, f),
            n == old(self)@.fresh(),
            old(self)@.free.len() == 0 ==> old(self)@.kinds.len() < usize::MAX,
    {
        let ghost g = self@;
        let node = k.to_blank();
        let n = match self.free.pop() {
            Some(n) => {
                proof {
                    assert(g.is_free(g.free[g.free.len() - 1]));
                }
                self.nodes.set(n, node);
                self.owner = Ghost(self.owner@.update(n as int, f));
                n
            },
            None => {
                let n = self.nodes.len();
                self.nodes.push(node);
                self.owner = Ghost(self.owner@.push(f));
                let len = self.nodes.len();
                proof {
                    assert(len == n + 1);
                }
                n
            },
        };
        proof {
            let h = g.place(k, f);
            assert(g.field_tidy(Field::LamE(n)));
            assert(g.field_tidy(Field::AppE1(n)));
            assert(g.field_tidy(Field::AppE2(n)));
            assert(g.field_tidy(Field::SupE1(n)));
            assert(g.field_tidy(Field::SupE2(n)));
            assert(g.field_tidy(Field::DupE(n)));
            assert(g.slot_tidy(Binder::LamX(n)));
            assert(g.slot_tidy(Binder::DupA(n)));
            assert(g.slot_tidy(Binder::DupB(n)));
            assert(self@.kinds =~= h.kinds);
            assert(self@.fields =~= h.fields);
            assert(self@.slots =~= h.slots);
            assert(self@.free =~= h.free);
        }
        n
    }

    fn release(&mut self, n: usize)
        requires
            old(self)@.blank(n),
        ensures
            final(self)@ == old(self)@.release(n),
    {
        self.nodes.set(n, Node::Free);
        self.free.push(n);
        proof {
            let h = old(self)@.release(n);
            assert(self@.kinds =~= h.kinds);
            assert(self@.fields =~= h.fields);
            assert(self@.slots =~= h.slots);
        }
    }

    /// Adds an empty cell to the worklist and says where it is.
    pub(crate) fn push_scratch(&mut self) -> (f: Field)
        requires
            old(self)@.wf(),
        ensures
            final(self)@ == old(self)@.push_scratch(),
            old(self)@.scratch < usize::MAX,
            final(self)@.wf(),
            old(self)@.dups_live() ==> final(self)@.dups_live(),
            f == Field::Scratch(old(self)@.scratch as usize),
            final(self)@.read(f) == NodeRef::UnboundVar,
            final(self)@.kinds == old(self)@.kinds,
            final(self)@.fields == old(self)@.fields,
            final(self)@.slots == old(self)@.slots,
            final(self)@.free == old(self)@.free,
            final(self)@.scratch == old(self)@.scratch + 1,
    {
        let i = self.scratch.len();
        self.scratch.push(NodeRef::UnboundVar);
        let len = self.scratch.len();
        proof {
            reveal(Net::push_scratch);
            let h = old(self)@.push_scratch();
            assert(len == i + 1);
            lemma_push_scratch(old(self)@);
            assert(self@.kinds =~= h.kinds);
            assert(self@.fields =~= h.fields);
            assert(self@.slots =~= h.slots);
        }
        Field::Scratch(i)
    }

    /// Removes the last cell of the worklist, which is empty.
    pub(crate) fn pop_scratch(&mut self)
        requires
            old(self)@.wf(),
            old(self)@.scratch > 0,
            old(self)@.read(Field::Scratch((old(self)@.scratch - 1) as usize))
                == NodeRef::UnboundVar,
        ensures
            final(self)@ == old(self)@.pop_scratch(),
            final(self)@.wf(),
            old(self)@.dups_live() ==> final(self)@.dups_live(),
            final(self)@.kinds == old(self)@.kinds,
            final(self)@.fields == old(self)@.fields,
            final(self)@.slots == old(self)@.slots,
            final(self)@.free == old(self)@.free,
            final(self)@.scratch == old(self)@.scratch - 1,
    {
        self.scratch.pop();
        proof {
            reveal(Net::pop_scratch);
            let h = old(self)@.pop_scratch();
            lemma_pop_scratch(old(self)@);
            assert(self@.kinds =~= h.kinds);
            assert(self@.fields =~= h.fields);
            assert(self@.slots =~= h.slots);
        }
    }

    /// Moves the value of `src` into the empty field `dst`.
    pub(crate) fn move_value(&mut self, src: Field, dst: Field)
        requires
            old(self)@.wf(),
            old(self)@.valid_field(src),
            old(self)@.valid_field(dst),
            old(self)@.read(dst) == NodeRef::UnboundVar,
        ensures
            final(self)@ == old(self)@.move_value(src, dst),
            final(self)@.wf(),
            old(self)@.dups_live() ==> final(self)@.dups_live(),
            old(self)@.moved(final(self)@, src, dst),
    {
        proof {
            reveal(Net::move_value);
            lemma_move_value(self@, src, dst);
            assert(self@.value_ok(src));
        }
        if src != dst {
            let v = self.read(src);
            self.write_field(dst, v);
            self.write_field(src, NodeRef::UnboundVar);
            self.retarget(v, dst);
        }
    }

    /// Makes the empty field `f` the occurrence of the unused binder `b`.
    pub(crate) fn bind(&mut self, b: Binder, f: Field)
        requires
            old(self)@.wf(),
            old(self)@.valid_binder(b),
            old(self)@.slot(b) == FieldRef::UnusedVar,
            old(self)@.valid_field(f),
            old(self)@.read(f) == NodeRef::UnboundVar,
        ensures
            final(self)@ == old(self)@.bind(b, f),
            final(self)@.wf(),
            old(self)@.dups_live() ==> final(self)@.dups_live(),
            forall|n: usize|
                n != b.node() && old(self)@.dup_live(n) ==> #[trigger] final(self)@.dup_live(n),
            final(self)@.dup_live(b.node()),
            old(self)@.bound(final(self)@, b, f),
    {
        proof {
            reveal(Net::bind);
            lemma_bind(self@, b, f);
        }
        self.write_field(f, b.to_marker());
        self.write_slot(b, FieldRef::VarUsePtr(f));
    }

    /// Makes `b` unused and says what its slot held.
    pub(crate) fn unbind(&mut self, b: Binder) -> (r: FieldRef)
        requires
            old(self)@.wf(),
            old(self)@.valid_binder(b),
        ensures
            final(self)@ == old(self)@.unbind(b),
            final(self)@.wf(),
            r == old(self)@.slot(b),
            r is VarUsePtr ==> old(self)@.valid_field(r->VarUsePtr_0),
            forall|n: usize|
                n != b.node() && old(self)@.dup_live(n) ==> #[trigger] final(self)@.dup_live(n),
            old(self)@.unbound(final(self)@, b),
    {
        proof {
            reveal(Net::unbind);
            lemma_unbind(self@, b);
        }
        let r = self.slot(b);
        match r {
            FieldRef::UnusedVar => {},
            FieldRef::VarUsePtr(f) => {
                self.write_field(f, NodeRef::UnboundVar);
                self.write_slot(b, FieldRef::UnusedVar);
            },
        }
        r
    }

    /// Makes the next cell a blank `Lam`, `App` or `Sup`, referred to by the
    /// empty field `dst`, and says which cell it is.
    pub(crate) fn alloc_at(&mut self, dst: Field, k: Kind) -> (n: usize)
        requires
            old(self)@.wf(),
            k.owned(),
            old(self)@.valid_field(dst),
            old(self)@.read(dst) == NodeRef::UnboundVar,
        ensures
            final(self)@ == old(self)@.alloc_at(dst, k),
            final(self)@.wf(),
            old(self)@.dups_live() ==> final(self)@.dups_live(),
            old(self)@.grown(final(self)@, n, k),
            final(self)@.fields == old(self)@.fields.insert(dst, k.pointer(n)),
    {
        let n = self.place(k, dst);
        proof {
            reveal(Net::alloc_at);
            lemma_alloc_at(old(self)@, dst, k);
        }
        self.write_field(dst, k.to_pointer(n));
        n
    }

    /// Makes the next cell a blank `Dup` with label `l` and says which cell
    /// it is.
    pub(crate) fn alloc_dup(&mut self, l: Label) -> (n: usize)
        requires
            old(self)@.wf(),
        ensures
            final(self)@ == old(self)@.alloc_dup(l),
            final(self)@.wf(),
            forall|m: usize|
                m != n && old(self)@.dup_live(m) ==> #[trigger] final(self)@.dup_live(m),
            old(self)@.grown(final(self)@, n, Kind::Dup(l)),
            final(self)@.fields == old(self)@.fields,
    {
        let n = self.place(Kind::Dup(l), Field::Root);
        proof {
            reveal(Net::alloc_dup);
            lemma_alloc_dup(old(self)@, l);
        }
        n
    }

    /// Empties the cell of the blank node that `f` refers to, and `f`.
    pub(crate) fn free_at(&mut self, f: Field)
        requires
            old(self)@.wf(),
            old(self)@.valid_field(f),
            old(self)@.read(f).child() is Some,
            old(self)@.blank(old(self)@.read(f).child()->0),
        ensures
            final(self)@ == old(self)@.free_at(f),
            final(self)@.wf(),
            old(self)@.dups_live() ==> final(self)@.dups_live(),
            old(self)@.shrunk(final(self)@, old(self)@.read(f).child()->0),
            final(self)@.fields == old(self)@.fields.insert(f, NodeRef::UnboundVar),
    {
        proof {
            reveal(Net::free_at);
            lemma_free_at(self@, f);
        }
        let v = self.read(f);
        match v {
            NodeRef::LamPtr(n) => {
                self.write_field(f, NodeRef::UnboundVar);
                self.release(n);
            },
            NodeRef::AppPtr(n) => {
                self.write_field(f, NodeRef::UnboundVar);
                self.release(n);
            },
            NodeRef::SupPtr(n) => {
                self.write_field(f, NodeRef::UnboundVar);
                self.release(n);
            },
            _ => {},
        }
    }

    /// Empties the cell of a blank `Dup`.
    pub(crate) fn free_dup(&mut self, n: usize)
        requires
            old(self)@.wf(),
            old(self)@.is_dup(n),
            old(self)@.blank(n),
        ensures
            final(self)@ == old(self)@.free_dup(n),
            final(self)@.wf(),
            forall|m: usize|
                m != n && old(self)@.dup_live(m) ==> #[trigger] final(self)@.dup_live(m),
            final(self)@.dup_live(n),
            old(self)@.shrunk(final(self)@, n),
            final(self)@.fields == old(self)@.fields,
    {
        proof {
            reveal(Net::free_dup);
            lemma_free_dup(self@, n);
        }
        self.release(n);
    }
}

} // verus!
