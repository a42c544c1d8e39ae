//! Nodes of the graph and the two kinds of reference between them.

use vstd::prelude::*;

verus! {

/// A label of a superposition or duplication; only equality matters.
pub type Label = u64;

/// What a reference is, without what it refers to.
#[derive(Clone, Copy, Debug, PartialEq, Eq, Structural)]
pub enum Tag {
    /// A binder without an occurrence.
    UnusedVar,
    /// A binder's link to the field that holds its occurrence.
    VarUsePtr,
    /// An occurrence of a variable that no binder binds.
    UnboundVar,
    /// An occurrence of the variable bound by a `Lam`.
    LamBoundVar,
    /// An occurrence of the first variable bound by a `Dup`.
    DupABoundVar,
    /// An occurrence of the second variable bound by a `Dup`.
    DupBBoundVar,
    /// A subterm that is a `Lam` node.
    LamPtr,
    /// A subterm that is an `App` node.
    AppPtr,
    /// A subterm that is a `Sup` node.
    SupPtr,
    /// A `Dup` node itself; never stored in a field.
    DupPtr,
}

/// The place of one `NodeRef`: the root cell, a cell of the worklist of
/// discarded values, or a subterm field of a node in the arena.
#[derive(Clone, Copy, Debug, PartialEq, Eq, Structural)]
pub enum Field {
    Root,
    Scratch(usize),
    LamE(usize),
    AppE1(usize),
    AppE2(usize),
    SupE1(usize),
    SupE2(usize),
    DupE(usize),
}

/// One binder slot of one node: `Lam.x`, `Dup.a` or `Dup.b`.
#[derive(Clone, Copy, Debug, PartialEq, Eq, Structural)]
pub enum Binder {
    LamX(usize),
    DupA(usize),
    DupB(usize),
}

/// What a binder slot holds: nothing, or the field of the occurrence.
#[derive(Clone, Copy, Debug, PartialEq, Eq, Structural)]
pub enum FieldRef {
    UnusedVar,
    VarUsePtr(Field),
}

/// What a subterm field holds: a variable occurrence or a node.
#[derive(Clone, Copy, Debug, PartialEq, Eq, Structural)]
pub enum NodeRef {
    UnboundVar,
    LamBoundVar(usize),
    DupABoundVar(usize),
    DupBBoundVar(usize),
    LamPtr(usize),
    AppPtr(usize),
    SupPtr(usize),
    DupPtr(usize),
}

/// `(λx e)`
#[derive(Clone, Copy, Debug, PartialEq, Eq, Structural)]
pub struct Lam {
    pub x: FieldRef,
    pub e: NodeRef,
}

/// `(e1 e2)`
#[derive(Clone, Copy, Debug, PartialEq, Eq, Structural)]
pub struct App {
    pub e1: NodeRef,
    pub e2: NodeRef,
}

/// `#l{e1 e2}`
#[derive(Clone, Copy, Debug, PartialEq, Eq, Structural)]
pub struct Sup {
    pub l: Label,
    pub e1: NodeRef,
    pub e2: NodeRef,
}

/// `dup #l{a b} = e;`
#[derive(Clone, Copy, Debug, PartialEq, Eq, Structural)]
pub struct Dup {
    pub l: Label,
    pub a: FieldRef,
    pub b: FieldRef,
    pub e: NodeRef,
}

/// One cell of the arena.
#[derive(Clone, Copy, Debug, PartialEq, Eq, Structural)]
pub enum Node {
    Free,
    Lam(Lam),
    App(App),
    Sup(Sup),
    Dup(Dup),
}

/// What a cell of the arena is, without what its fields hold.
#[derive(Clone, Copy, Debug, PartialEq, Eq, Structural)]
pub enum Kind {
    Free,
    Lam,
    App,
    Sup(Label),
    Dup(Label),
}

impl Node {
    pub open spec fn kind(self) -> Kind {
        match self {
            Node::Free => Kind::Free,
            Node::Lam(_) => Kind::Lam,
            Node::App(_) => Kind::App,
            Node::Sup(s) => Kind::Sup(s.l),
            Node::Dup(d) => Kind::Dup(d.l),
        }
    }
}

impl Kind {
    /// The kinds of node that a field refers to as its subterm.
    pub open spec fn owned(self) -> bool {
        self is Lam || self is App || self is Sup
    }

    /// The reference by which a field owns a node of this kind in cell `n`.
    pub open spec fn pointer(self, n: usize) -> NodeRef {
        match self {
            Kind::Lam => NodeRef::LamPtr(n),
            Kind::App => NodeRef::AppPtr(n),
            Kind::Sup(_) => NodeRef::SupPtr(n),
            _ => NodeRef::DupPtr(n),
        }
    }

    /// The node of this kind with nothing in it.
    pub open spec fn blank(self) -> Node {
        match self {
            Kind::Free => Node::Free,
            Kind::Lam => Node::Lam(Lam { x: FieldRef::UnusedVar, e: NodeRef::UnboundVar }),
            Kind::App => Node::App(App { e1: NodeRef::UnboundVar, e2: NodeRef::UnboundVar }),
            Kind::Sup(l) => Node::Sup(
                Sup { l, e1: NodeRef::UnboundVar, e2: NodeRef::UnboundVar },
            ),
            Kind::Dup(l) => Node::Dup(
                Dup { l, a: FieldRef::UnusedVar, b: FieldRef::UnusedVar, e: NodeRef::UnboundVar },
            ),
        }
    }

    pub fn to_blank(self) -> (node: Node)
        ensures
            node == self.blank(),
    {
        match self {
            Kind::Free => Node::Free,
            Kind::Lam => Node::Lam(Lam { x: FieldRef::UnusedVar, e: NodeRef::UnboundVar }),
            Kind::App => Node::App(App { e1: NodeRef::UnboundVar, e2: NodeRef::UnboundVar }),
            Kind::Sup(l) => Node::Sup(
                Sup { l, e1: NodeRef::UnboundVar, e2: NodeRef::UnboundVar },
            ),
            Kind::Dup(l) => Node::Dup(
                Dup { l, a: FieldRef::UnusedVar, b: FieldRef::UnusedVar, e: NodeRef::UnboundVar },
            ),
        }
    }

    pub fn to_pointer(self, n: usize) -> (v: NodeRef)
        ensures
            v == self.pointer(n),
    {
        match self {
            Kind::Lam => NodeRef::LamPtr(n),
            Kind::App => NodeRef::AppPtr(n),
            Kind::Sup(_) => NodeRef::SupPtr(n),
            _ => NodeRef::DupPtr(n),
        }
    }
}

impl Field {
    /// The cell of the node that the field belongs to; the root cell and
    /// the cells of the worklist belong to none.
    pub open spec fn node(self) -> Option<usize> {
        match self {
            Field::Root => None,
            Field::Scratch(_) => None,
            Field::LamE(n) => Some(n),
            Field::AppE1(n) => Some(n),
            Field::AppE2(n) => Some(n),
            Field::SupE1(n) => Some(n),
            Field::SupE2(n) => Some(n),
            Field::DupE(n) => Some(n),
        }
    }
}

impl Binder {
    /// The node that holds the slot.
    pub open spec fn node(self) -> usize {
        match self {
            Binder::LamX(n) => n,
            Binder::DupA(n) => n,
            Binder::DupB(n) => n,
        }
    }

    /// The occurrence of the variable that the slot binds.
    pub open spec fn marker(self) -> NodeRef {
        match self {
            Binder::LamX(n) => NodeRef::LamBoundVar(n),
            Binder::DupA(n) => NodeRef::DupABoundVar(n),
            Binder::DupB(n) => NodeRef::DupBBoundVar(n),
        }
    }

    /// The other slot of the same `Dup`; a `Lam` has none.
    pub open spec fn sibling(self) -> Option<Binder> {
        match self {
            Binder::LamX(_) => None,
            Binder::DupA(n) => Some(Binder::DupB(n)),
            Binder::DupB(n) => Some(Binder::DupA(n)),
        }
    }

    pub fn to_marker(self) -> (v: NodeRef)
        ensures
            v == self.marker(),
    {
        match self {
            Binder::LamX(n) => NodeRef::LamBoundVar(n),
            Binder::DupA(n) => NodeRef::DupABoundVar(n),
            Binder::DupB(n) => NodeRef::DupBBoundVar(n),
        }
    }
}

impl FieldRef {
    pub open spec fn tag_of(self) -> Tag {
        match self {
            FieldRef::UnusedVar => Tag::UnusedVar,
            FieldRef::VarUsePtr(_) => Tag::VarUsePtr,
        }
    }

    pub open spec fn used(self) -> bool {
        self is VarUsePtr
    }

    pub fn new_unused_var() -> (r: FieldRef)
        ensures
            r == FieldRef::UnusedVar,
    {
        FieldRef::UnusedVar
    }

    pub fn tag(self) -> (t: Tag)
        ensures
            t == self.tag_of(),
    {
        match self {
            FieldRef::UnusedVar => Tag::UnusedVar,
            FieldRef::VarUsePtr(_) => Tag::VarUsePtr,
        }
    }

    /// The field of the occurrence, if the binder has one.
    pub fn var_use(self) -> (f: Option<Field>)
        ensures
            f == match self {
                FieldRef::UnusedVar => None::<Field>,
                FieldRef::VarUsePtr(g) => Some(g),
            },
    {
        match self {
            FieldRef::UnusedVar => None,
            FieldRef::VarUsePtr(g) => Some(g),
        }
    }
}

impl NodeRef {
    pub open spec fn tag_of(self) -> Tag {
        match self {
            NodeRef::UnboundVar => Tag::UnboundVar,
            NodeRef::LamBoundVar(_) => Tag::LamBoundVar,
            NodeRef::DupABoundVar(_) => Tag::DupABoundVar,
            NodeRef::DupBBoundVar(_) => Tag::DupBBoundVar,
            NodeRef::LamPtr(_) => Tag::LamPtr,
            NodeRef::AppPtr(_) => Tag::AppPtr,
            NodeRef::SupPtr(_) => Tag::SupPtr,
            NodeRef::DupPtr(_) => Tag::DupPtr,
        }
    }

    /// The node referred to, whether as a subterm or as a binder.
    pub open spec fn index(self) -> Option<usize> {
        match self {
            NodeRef::UnboundVar => None,
            NodeRef::LamBoundVar(n) => Some(n),
            NodeRef::DupABoundVar(n) => Some(n),
            NodeRef::DupBBoundVar(n) => Some(n),
            NodeRef::LamPtr(n) => Some(n),
            NodeRef::AppPtr(n) => Some(n),
            NodeRef::SupPtr(n) => Some(n),
            NodeRef::DupPtr(n) => Some(n),
        }
    }

    /// The binder slot that a bound occurrence names.
    pub open spec fn binder(self) -> Option<Binder> {
        match self {
            NodeRef::LamBoundVar(n) => Some(Binder::LamX(n)),
            NodeRef::DupABoundVar(n) => Some(Binder::DupA(n)),
            NodeRef::DupBBoundVar(n) => Some(Binder::DupB(n)),
            _ => None,
        }
    }

    /// The node that a subterm reference owns.
    pub open spec fn child(self) -> Option<usize> {
        match self {
            NodeRef::LamPtr(n) => Some(n),
            NodeRef::AppPtr(n) => Some(n),
            NodeRef::SupPtr(n) => Some(n),
            _ => None,
        }
    }

    pub fn new_unbound_var() -> (r: NodeRef)
        ensures
            r == NodeRef::UnboundVar,
    {
        NodeRef::UnboundVar
    }

    pub fn tag(self) -> (t: Tag)
        ensures
            t == self.tag_of(),
    {
        match self {
            NodeRef::UnboundVar => Tag::UnboundVar,
            NodeRef::LamBoundVar(_) => Tag::LamBoundVar,
            NodeRef::DupABoundVar(_) => Tag::DupABoundVar,
            NodeRef::DupBBoundVar(_) => Tag::DupBBoundVar,
            NodeRef::LamPtr(_) => Tag::LamPtr,
            NodeRef::AppPtr(_) => Tag::AppPtr,
            NodeRef::SupPtr(_) => Tag::SupPtr,
            NodeRef::DupPtr(_) => Tag::DupPtr,
        }
    }

    /// The arena index inside the reference; an unbound variable has none.
    pub fn ptr(self) -> (n: Option<usize>)
        ensures
            n == self.index(),
    {
        match self {
            NodeRef::UnboundVar => None,
            NodeRef::LamBoundVar(n) => Some(n),
            NodeRef::DupABoundVar(n) => Some(n),
            NodeRef::DupBBoundVar(n) => Some(n),
            NodeRef::LamPtr(n) => Some(n),
            NodeRef::AppPtr(n) => Some(n),
            NodeRef::SupPtr(n) => Some(n),
            NodeRef::DupPtr(n) => Some(n),
        }
    }

    pub fn to_binder(self) -> (b: Option<Binder>)
        ensures
            b == self.binder(),
    {
        match self {
            NodeRef::LamBoundVar(n) => Some(Binder::LamX(n)),
            NodeRef::DupABoundVar(n) => Some(Binder::DupA(n)),
            NodeRef::DupBBoundVar(n) => Some(Binder::DupB(n)),
            _ => None,
        }
    }

    /// The occurrence of the variable of the `Lam` referred to; of no node,
    /// an unbound variable.
    pub fn lam_bound_var(self) -> (v: NodeRef)
        ensures
            v == match self {
                NodeRef::LamPtr(n) => NodeRef::LamBoundVar(n),
                NodeRef::LamBoundVar(n) => NodeRef::LamBoundVar(n),
                _ => NodeRef::UnboundVar,
            },
    {
        match self {
            NodeRef::LamPtr(n) => NodeRef::LamBoundVar(n),
            NodeRef::LamBoundVar(n) => NodeRef::LamBoundVar(n),
            _ => NodeRef::UnboundVar,
        }
    }

    /// The occurrence of the first variable of the `Dup` referred to.
    pub fn dup_a_bound_var(self) -> (v: NodeRef)
        ensures
            v == match self {
                NodeRef::DupPtr(n) => NodeRef::DupABoundVar(n),
                NodeRef::DupABoundVar(n) => NodeRef::DupABoundVar(n),
                NodeRef::DupBBoundVar(n) => NodeRef::DupABoundVar(n),
                _ => NodeRef::UnboundVar,
            },
    {
        match self {
            NodeRef::DupPtr(n) => NodeRef::DupABoundVar(n),
            NodeRef::DupABoundVar(n) => NodeRef::DupABoundVar(n),
            NodeRef::DupBBoundVar(n) => NodeRef::DupABoundVar(n),
            _ => NodeRef::UnboundVar,
        }
    }

    /// The occurrence of the second variable of the `Dup` referred to.
    pub fn dup_b_bound_var(self) -> (v: NodeRef)
        ensures
            v == match self {
                NodeRef::DupPtr(n) => NodeRef::DupBBoundVar(n),
                NodeRef::DupABoundVar(n) => NodeRef::DupBBoundVar(n),
                NodeRef::DupBBoundVar(n) => NodeRef::DupBBoundVar(n),
                _ => NodeRef::UnboundVar,
            },
    {
        match self {
            NodeRef::DupPtr(n) => NodeRef::DupBBoundVar(n),
            NodeRef::DupABoundVar(n) => NodeRef::DupBBoundVar(n),
            NodeRef::DupBBoundVar(n) => NodeRef::DupBBoundVar(n),
            _ => NodeRef::UnboundVar,
        }
    }

    /// A link to the body field of the `Lam` referred to; to no node, no link.
    pub fn lam_e_var_use_ptr(self) -> (r: FieldRef)
        ensures
            r == match self {
                NodeRef::LamPtr(n) => FieldRef::VarUsePtr(Field::LamE(n)),
                NodeRef::LamBoundVar(n) => FieldRef::VarUsePtr(Field::LamE(n)),
                _ => FieldRef::UnusedVar,
            },
    {
        match self {
            NodeRef::LamPtr(n) => FieldRef::VarUsePtr(Field::LamE(n)),
            NodeRef::LamBoundVar(n) => FieldRef::VarUsePtr(Field::LamE(n)),
            _ => FieldRef::UnusedVar,
        }
    }

    pub fn app_e1_var_use_ptr(self) -> (r: FieldRef)
        ensures
            r == match self {
                NodeRef::AppPtr(n) => FieldRef::VarUsePtr(Field::AppE1(n)),
                _ => FieldRef::UnusedVar,
            },
    {
        match self {
            NodeRef::AppPtr(n) => FieldRef::VarUsePtr(Field::AppE1(n)),
            _ => FieldRef::UnusedVar,
        }
    }

    pub fn app_e2_var_use_ptr(self) -> (r: FieldRef)
        ensures
            r == match self {
                NodeRef::AppPtr(n) => FieldRef::VarUsePtr(Field::AppE2(n)),
                _ => FieldRef::UnusedVar,
            },
    {
        match self {
            NodeRef::AppPtr(n) => FieldRef::VarUsePtr(Field::AppE2(n)),
            _ => FieldRef::UnusedVar,
        }
    }

    pub fn sup_e1_var_use_ptr(self) -> (r: FieldRef)
        ensures
            r == match self {
                NodeRef::SupPtr(n) => FieldRef::VarUsePtr(Field::SupE1(n)),
                _ => FieldRef::UnusedVar,
            },
    {
        match self {
            NodeRef::SupPtr(n) => FieldRef::VarUsePtr(Field::SupE1(n)),
            _ => FieldRef::UnusedVar,
        }
    }

    pub fn sup_e2_var_use_ptr(self) -> (r: FieldRef)
        ensures
            r == match self {
                NodeRef::SupPtr(n) => FieldRef::VarUsePtr(Field::SupE2(n)),
                _ => FieldRef::UnusedVar,
            },
    {
        match self {
            NodeRef::SupPtr(n) => FieldRef::VarUsePtr(Field::SupE2(n)),
            _ => FieldRef::UnusedVar,
        }
    }

    pub fn dup_e_var_use_ptr(self) -> (r: FieldRef)
        ensures
            r == match self {
                NodeRef::DupPtr(n) => FieldRef::VarUsePtr(Field::DupE(n)),
                NodeRef::DupABoundVar(n) => FieldRef::VarUsePtr(Field::DupE(n)),
                NodeRef::DupBBoundVar(n) => FieldRef::VarUsePtr(Field::DupE(n)),
                _ => FieldRef::UnusedVar,
            },
    {
        match self {
            NodeRef::DupPtr(n) => FieldRef::VarUsePtr(Field::DupE(n)),
            NodeRef::DupABoundVar(n) => FieldRef::VarUsePtr(Field::DupE(n)),
            NodeRef::DupBBoundVar(n) => FieldRef::VarUsePtr(Field::DupE(n)),
            _ => FieldRef::UnusedVar,
        }
    }
}

} // verus!
