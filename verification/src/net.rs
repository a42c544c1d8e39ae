//! The mathematical model of a graph, its well-formedness, and the small
//! steps from which every change to a graph is made.

use vstd::prelude::*;
use crate::node::{App, Binder, Dup, Field, FieldRef, Kind, Label, Lam, Node, NodeRef, Sup};

verus! {

/// A graph as plain values: a store of fields and binder slots.
///
/// `kinds[n]` says what cell `n` of the arena is. `fields` gives the value
/// of every subterm field and `slots` that of every binder slot; those of a
/// node that is not there hold `UnboundVar` and `UnusedVar`. `owner[n]` is
/// the field that holds the reference to the `Lam`, `App` or `Sup` in cell
/// `n`. `free` lists the empty cells, the next to be taken last. The first
/// `scratch` cells of the worklist hold values that were cut out of the
/// graph and wait to be discarded.
pub struct Net {
    pub kinds: Seq<Kind>,
    pub fields: Map<Field, NodeRef>,
    pub slots: Map<Binder, FieldRef>,
    pub owner: Seq<Field>,
    pub free: Seq<usize>,
    pub scratch: nat,
}

impl Net {
    pub open spec fn empty() -> Net {
        Net {
            kinds: Seq::empty(),
            fields: Map::total(|f: Field| NodeRef::UnboundVar),
            slots: Map::total(|b: Binder| FieldRef::UnusedVar),
            owner: Seq::empty(),
            free: Seq::empty(),
            scratch: 0,
        }
    }

    pub open spec fn is_free(self, n: usize) -> bool {
        n < self.kinds.len() && self.kinds[n as int] is Free
    }

    pub open spec fn is_lam(self, n: usize) -> bool {
        n < self.kinds.len() && self.kinds[n as int] is Lam
    }

    pub open spec fn is_app(self, n: usize) -> bool {
        n < self.kinds.len() && self.kinds[n as int] is App
    }

    pub open spec fn is_sup(self, n: usize) -> bool {
        n < self.kinds.len() && self.kinds[n as int] is Sup
    }

    pub open spec fn is_dup(self, n: usize) -> bool {
        n < self.kinds.len() && self.kinds[n as int] is Dup
    }

    /// Cell `n` holds a node that some field refers to as its subterm.
    pub open spec fn is_owned(self, n: usize) -> bool {
        n < self.kinds.len() && self.kinds[n as int].owned()
    }

    /// The number of cells that hold a node.
    pub open spec fn live(self) -> int {
        self.kinds.len() - self.free.len()
    }

    pub open spec fn valid_field(self, f: Field) -> bool {
        match f {
            Field::Root => true,
            Field::Scratch(i) => i < self.scratch,
            Field::LamE(n) => self.is_lam(n),
            Field::AppE1(n) => self.is_app(n),
            Field::AppE2(n) => self.is_app(n),
            Field::SupE1(n) => self.is_sup(n),
            Field::SupE2(n) => self.is_sup(n),
            Field::DupE(n) => self.is_dup(n),
        }
    }

    pub open spec fn valid_binder(self, b: Binder) -> bool {
        match b {
            Binder::LamX(n) => self.is_lam(n),
            Binder::DupA(n) => self.is_dup(n),
            Binder::DupB(n) => self.is_dup(n),
        }
    }

    pub open spec fn read(self, f: Field) -> NodeRef {
        self.fields[f]
    }

    pub open spec fn slot(self, b: Binder) -> FieldRef {
        self.slots[b]
    }

    pub open spec fn root(self) -> NodeRef {
        self.fields[Field::Root]
    }

    /// The node in cell `n`, put together from the store.
    pub open spec fn node(self, n: usize) -> Node {
        match self.kinds[n as int] {
            Kind::Free => Node::Free,
            Kind::Lam => Node::Lam(
                Lam { x: self.slots[Binder::LamX(n)], e: self.fields[Field::LamE(n)] },
            ),
            Kind::App => Node::App(
                App { e1: self.fields[Field::AppE1(n)], e2: self.fields[Field::AppE2(n)] },
            ),
            Kind::Sup(l) => Node::Sup(
                Sup { l, e1: self.fields[Field::SupE1(n)], e2: self.fields[Field::SupE2(n)] },
            ),
            Kind::Dup(l) => Node::Dup(
                Dup {
                    l,
                    a: self.slots[Binder::DupA(n)],
                    b: self.slots[Binder::DupB(n)],
                    e: self.fields[Field::DupE(n)],
                },
            ),
        }
    }

    pub open spec fn write(self, f: Field, v: NodeRef) -> Net {
        Net { fields: self.fields.insert(f, v), ..self }
    }

    pub open spec fn set_slot(self, b: Binder, r: FieldRef) -> Net {
        Net { slots: self.slots.insert(b, r), ..self }
    }

    /// Makes the other end of the link that `v` is one end of point at `f`.
    pub open spec fn retarget(self, v: NodeRef, f: Field) -> Net {
        match v.binder() {
            Some(b) => self.set_slot(b, FieldRef::VarUsePtr(f)),
            None => match v.child() {
                Some(n) => Net { owner: self.owner.update(n as int, f), ..self },
                None => self,
            },
        }
    }

    /// The cell that the next allocation takes.
    pub open spec fn fresh(self) -> usize {
        if self.free.len() > 0 {
            self.free.last()
        } else {
            self.kinds.len() as usize
        }
    }

    /// Makes the next cell a blank node of kind `k`, owned by `f`.
    pub open spec fn place(self, k: Kind, f: Field) -> Net {
        if self.free.len() > 0 {
            Net {
                kinds: self.kinds.update(self.free.last() as int, k),
                owner: self.owner.update(self.free.last() as int, f),
                free: self.free.drop_last(),
                ..self
            }
        } else {
            Net { kinds: self.kinds.push(k), owner: self.owner.push(f), ..self }
        }
    }

    /// Empties cell `n`.
    pub open spec fn release(self, n: usize) -> Net {
        Net { kinds: self.kinds.update(n as int, Kind::Free), free: self.free.push(n), ..self }
    }

    /// Cell `n` holds a node with nothing in it.
    pub open spec fn blank(self, n: usize) -> bool {
        &&& n < self.kinds.len()
        &&& !(self.kinds[n as int] is Free)
        &&& self.node(n) == self.kinds[n as int].blank()
    }

    // ---- the steps ----

    /// Adds an empty cell to the worklist.
    #[verifier::opaque]
    pub open spec fn push_scratch(self) -> Net {
        Net { scratch: self.scratch + 1, ..self }
    }

    /// Removes the last cell of the worklist, which is empty.
    #[verifier::opaque]
    pub open spec fn pop_scratch(self) -> Net {
        Net { scratch: (self.scratch - 1) as nat, ..self }
    }

    /// Moves the value of `src` into the empty field `dst` and leaves `src`
    /// empty; the link that the value is one end of follows it.
    #[verifier::opaque]
    pub open spec fn move_value(self, src: Field, dst: Field) -> Net {
        if src == dst {
            self
        } else {
            let v = self.read(src);
            self.write(dst, v).write(src, NodeRef::UnboundVar).retarget(v, dst)
        }
    }

    /// Makes the empty field `f` the occurrence of the unused binder `b`.
    #[verifier::opaque]
    pub open spec fn bind(self, b: Binder, f: Field) -> Net {
        self.write(f, b.marker()).set_slot(b, FieldRef::VarUsePtr(f))
    }

    /// Makes `b` unused; its occurrence, if any, becomes an unbound variable.
    #[verifier::opaque]
    pub open spec fn unbind(self, b: Binder) -> Net {
        match self.slot(b) {
            FieldRef::UnusedVar => self,
            FieldRef::VarUsePtr(f) => self.write(f, NodeRef::UnboundVar).set_slot(
                b,
                FieldRef::UnusedVar,
            ),
        }
    }

    /// Makes the next cell a blank `Lam`, `App` or `Sup` and puts the
    /// reference to it into the empty field `dst`.
    #[verifier::opaque]
    pub open spec fn alloc_at(self, dst: Field, k: Kind) -> Net {
        self.place(k, dst).write(dst, k.pointer(self.fresh()))
    }

    /// Makes the next cell a blank `Dup` with label `l`.
    #[verifier::opaque]
    pub open spec fn alloc_dup(self, l: Label) -> Net {
        self.place(Kind::Dup(l), Field::Root)
    }

    /// Empties the cell of the blank node that `f` refers to, and `f`.
    #[verifier::opaque]
    pub open spec fn free_at(self, f: Field) -> Net {
        match self.read(f).child() {
            Some(n) => self.write(f, NodeRef::UnboundVar).release(n),
            None => self,
        }
    }

    /// Empties the cell of a blank `Dup`.
    #[verifier::opaque]
    pub open spec fn free_dup(self, n: usize) -> Net {
        self.release(n)
    }

    // ---- what each step changes, and nothing else ----

    /// `h` has the arena's kinds, the worklist's length and the free list of
    /// `self`.
    pub open spec fn same_cells(self, h: Net) -> bool {
        h.kinds == self.kinds && h.scratch == self.scratch && h.free == self.free
    }

    /// `h` is `self` after `move_value(src, dst)`.
    pub open spec fn moved(self, h: Net, src: Field, dst: Field) -> bool {
        let v = self.fields[src];
        &&& self.same_cells(h)
        &&& h.fields == if src == dst {
            self.fields
        } else {
            self.fields.insert(dst, v).insert(src, NodeRef::UnboundVar)
        }
        &&& h.slots == if src != dst && v.binder() is Some {
            self.slots.insert(v.binder()->0, FieldRef::VarUsePtr(dst))
        } else {
            self.slots
        }
    }

    /// `h` is `self` after `bind(b, f)`.
    pub open spec fn bound(self, h: Net, b: Binder, f: Field) -> bool {
        &&& self.same_cells(h)
        &&& h.fields == self.fields.insert(f, b.marker())
        &&& h.slots == self.slots.insert(b, FieldRef::VarUsePtr(f))
    }

    /// `h` is `self` after `unbind(b)`.
    pub open spec fn unbound(self, h: Net, b: Binder) -> bool {
        &&& self.same_cells(h)
        &&& h.fields == match self.slots[b] {
            FieldRef::UnusedVar => self.fields,
            FieldRef::VarUsePtr(f) => self.fields.insert(f, NodeRef::UnboundVar),
        }
        &&& h.slots == self.slots.insert(b, FieldRef::UnusedVar)
    }

    /// `h` has the cells of `self` and a node of kind `k` in cell `n`, which
    /// was empty or one past the arena.
    pub open spec fn added(self, h: Net, n: usize, k: Kind) -> bool {
        &&& n == self.fresh()
        &&& n < self.kinds.len() ==> self.kinds[n as int] is Free
        &&& n <= self.kinds.len()
        &&& h.kinds.len() == if n < self.kinds.len() {
            self.kinds.len()
        } else {
            self.kinds.len() + 1
        }
        &&& h.kinds[n as int] == k
        &&& forall|m: usize|
            m != n && m < self.kinds.len() ==> #[trigger] h.kinds[m as int] == self.kinds[m as int]
        &&& h.scratch == self.scratch
        &&& h.live() == self.live() + 1
    }

    /// `h` is `self` with a blank node of kind `k` in cell `n`, which was
    /// empty or one past the arena.
    pub open spec fn grown(self, h: Net, n: usize, k: Kind) -> bool {
        &&& self.added(h, n, k)
        &&& h.slots == self.slots
        &&& h.blank(n)
    }

    /// `h` has no node that `self` has not: every cell is what it was, or
    /// empty.
    pub open spec fn only_freed(self, h: Net) -> bool {
        &&& h.kinds.len() == self.kinds.len()
        &&& h.live() <= self.live()
        &&& forall|n: usize|
            n < self.kinds.len() ==> #[trigger] h.kinds[n as int] == self.kinds[n as int]
                || h.kinds[n as int] is Free
    }

    /// `h` is `self` with cell `n` emptied.
    pub open spec fn shrunk(self, h: Net, n: usize) -> bool {
        &&& h.kinds == self.kinds.update(n as int, Kind::Free)
        &&& h.scratch == self.scratch
        &&& h.slots == self.slots
        &&& h.live() == self.live() - 1
    }

    // ---- well-formedness ----

    /// The free list names each empty cell once, and nothing else.
    pub open spec fn free_ok(self) -> bool {
        &&& self.free.no_duplicates()
        &&& forall|i: int| 0 <= i < self.free.len() ==> self.is_free(#[trigger] self.free[i])
        &&& forall|n: usize| #[trigger] self.is_free(n) ==> self.free.contains(n)
    }

    /// A field of a node that is not there holds an unbound variable.
    pub open spec fn field_tidy(self, f: Field) -> bool {
        !self.valid_field(f) ==> self.fields[f] == NodeRef::UnboundVar
    }

    /// A binder slot of a node that is not there is unused.
    pub open spec fn slot_tidy(self, b: Binder) -> bool {
        !self.valid_binder(b) ==> self.slots[b] == FieldRef::UnusedVar
    }

    /// What `f` holds is one end of a link whose other end points back at `f`:
    /// a bound variable's binder has `f` as its occurrence, and a node's
    /// owner is `f`.
    pub open spec fn value_ok(self, f: Field) -> bool {
        let v = self.fields[f];
        match v.binder() {
            Some(b) => self.valid_binder(b) && self.slots[b] == FieldRef::VarUsePtr(f),
            None => match v.child() {
                Some(n) => self.is_owned(n) && self.kinds[n as int].pointer(n) == v
                    && self.owner[n as int] == f,
                None => v == NodeRef::UnboundVar,
            },
        }
    }

    /// A used binder slot points at a field that holds the binder's marker.
    pub open spec fn binder_ok(self, b: Binder) -> bool {
        match self.slots[b] {
            FieldRef::UnusedVar => true,
            FieldRef::VarUsePtr(f) => self.fields[f] == b.marker(),
        }
    }

    /// The owner of cell `n` is a field that holds the reference to it.
    pub open spec fn owner_ok(self, n: usize) -> bool {
        self.is_owned(n) ==> self.fields[self.owner[n as int]] == self.kinds[n as int].pointer(n)
    }

    /// Every link in the graph has two ends that agree.
    pub open spec fn wf(self) -> bool {
        &&& self.owner.len() == self.kinds.len()
        &&& self.kinds.len() <= usize::MAX
        &&& self.scratch <= usize::MAX
        &&& self.fields.dom() == Set::<Field>::full()
        &&& self.slots.dom() == Set::<Binder>::full()
        &&& self.free_ok()
        &&& forall|f: Field| #[trigger] self.field_tidy(f)
        &&& forall|b: Binder| #[trigger] self.slot_tidy(b)
        &&& forall|f: Field| #[trigger] self.value_ok(f)
        &&& forall|b: Binder| #[trigger] self.binder_ok(b)
        &&& forall|n: usize| #[trigger] self.owner_ok(n)
    }

    /// A `Dup` in cell `n` binds at least one variable that occurs.
    pub open spec fn dup_live(self, n: usize) -> bool {
        self.is_dup(n) ==> self.slots[Binder::DupA(n)].used() || self.slots[Binder::DupB(n)].used()
    }

    pub open spec fn dups_live(self) -> bool {
        forall|n: usize| #[trigger] self.dup_live(n)
    }

    /// The state between two rewrites: well-formed, every `Dup` live, and
    /// nothing waiting to be discarded.
    pub open spec fn inv(self) -> bool {
        &&& self.wf()
        &&& self.dups_live()
        &&& self.scratch == 0
    }
}

} // verus!
