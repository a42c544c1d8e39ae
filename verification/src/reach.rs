//! The scan finds every redex that can be reached from the root.

use vstd::prelude::*;
use crate::net::Net;
use crate::node::{Field, NodeRef};
use crate::scan::{lemma_index_in_range, lemma_unseen_update, unseen};

verus! {

impl Net {
    /// The cell of the node that the value `v` leads into: that of a
    /// subterm, or of the `Dup` whose variable `v` is.
    pub open spec fn target(v: NodeRef) -> Option<usize> {
        match v {
            NodeRef::UnboundVar => None,
            NodeRef::LamBoundVar(_) => None,
            _ => v.index(),
        }
    }

    /// The node in cell `n` is the left side of a rule.
    pub open spec fn node_active(self, n: usize) -> bool {
        (self.is_app(n) && Self::fires(self.read(Field::AppE1(n)))) || (self.is_dup(n)
            && Self::fires(self.read(Field::DupE(n))))
    }

    /// `path` leads down from the root cell: each field after the first
    /// is a subterm field of the node that the field before it leads into.
    pub open spec fn is_path(self, path: Seq<Field>) -> bool {
        &&& path.len() >= 1
        &&& path[0] == Field::Root
        &&& forall|i: int|
            1 <= i < path.len() ==> Self::subfields(self.read(path[i - 1])).contains(
                #[trigger] path[i],
            )
    }

    /// The node in cell `n` can be reached from the root.
    pub open spec fn reaches(self, n: usize) -> bool {
        exists|path: Seq<Field>|
            #[trigger] self.is_path(path) && Self::target(self.read(path.last())) == Some(n)
    }

    /// The cells that a depth-first walk has seen when it is done, which
    /// still has the fields of `stack` to look at and has seen the cells of
    /// `seen`.
    pub open spec fn scan_seen(self, stack: Seq<Field>, seen: Seq<bool>) -> Seq<bool>
        decreases unseen(seen), stack.len(),
    {
        if stack.len() == 0 {
            seen
        } else {
            let v = self.read(stack.last());
            match Self::enters(v, seen) {
                None => self.scan_seen(stack.drop_last(), seen),
                Some(n) => {
                    proof {
                        lemma_unseen_update(seen, n as int);
                    }
                    self.scan_seen(
                        stack.drop_last() + Self::subfields(v),
                        seen.update(n as int, true),
                    )
                },
            }
        }
    }

    /// Of every node seen, every subterm leads into a node seen or is still
    /// to be looked at.
    pub open spec fn pending(self, stack: Seq<Field>, seen: Seq<bool>) -> bool {
        forall|f: Field, m: usize|
            #![trigger seen[m as int], self.read(f)]
            self.valid_field(f) && f.node() is Some && seen[f.node()->0 as int] && Self::target(
                self.read(f),
            ) == Some(m) ==> seen[m as int] || stack.contains(f)
    }

    /// Of every node seen, every subterm leads into a node seen.
    pub open spec fn closed(self, seen: Seq<bool>) -> bool {
        forall|f: Field, m: usize|
            #![trigger seen[m as int], self.read(f)]
            self.valid_field(f) && f.node() is Some && seen[f.node()->0 as int] && Self::target(
                self.read(f),
            ) == Some(m) ==> seen[m as int]
    }

    /// `sites` from `from` on holds a field that leads into the node in
    /// cell `m`.
    pub open spec fn sited(self, sites: Seq<Field>, from: int, m: usize) -> bool {
        exists|i: int|
            from <= i < sites.len() && Self::target(self.read(#[trigger] sites[i])) == Some(m)
    }
}

/// The subterm fields of the node that a value leads into are the fields
/// of that node.
pub proof fn lemma_subfields(g: Net, f: Field, c: Field)
    requires
        g.wf(),
        Net::target(g.read(f)) is Some,
    ensures
        Net::subfields(g.read(f)).contains(c) <==> g.valid_field(c) && c.node() == Net::target(
            g.read(f),
        ),
        Net::target(g.read(f))->0 < g.kinds.len(),
        g.active(g.read(f)) == g.node_active(Net::target(g.read(f))->0),
{
    lemma_index_in_range(g, f);
    let v = g.read(f);
    let s = Net::subfields(v);
    if s.contains(c) {
        let i = choose|i: int| 0 <= i < s.len() && s[i] == c;
        assert(s[i] == c);
    }
    if g.valid_field(c) && c.node() == Net::target(v) {
        match v {
            NodeRef::LamPtr(n) => {
                assert(s[0] == c);
            },
            NodeRef::AppPtr(n) => {
                assert(s[0] == c || s[1] == c);
            },
            NodeRef::SupPtr(n) => {
                assert(s[0] == c || s[1] == c);
            },
            _ => {
                assert(s[0] == c);
            },
        }
    }
}

/// What a finished walk has seen and found, from any point of the walk.
pub proof fn lemma_scan(g: Net, stack: Seq<Field>, seen: Seq<bool>, acc: Seq<Field>)
    requires
        g.wf(),
        seen.len() == g.kinds.len(),
        g.pending(stack, seen),
    ensures
        g.scan_seen(stack, seen).len() == seen.len(),
        forall|n: int| 0 <= n < seen.len() && seen[n] ==> #[trigger] g.scan_seen(stack, seen)[n],
        g.closed(g.scan_seen(stack, seen)),
        forall|i: int, m: usize|
            0 <= i < stack.len() && Net::target(g.read(#[trigger] stack[i])) == Some(m)
                ==> #[trigger] g.scan_seen(stack, seen)[m as int],
        acc.len() <= g.scan(stack, seen, acc).len(),
        forall|i: int| 0 <= i < acc.len() ==> #[trigger] g.scan(stack, seen, acc)[i] == acc[i],
        forall|m: usize|
            m < seen.len() && #[trigger] g.scan_seen(stack, seen)[m as int] && !seen[m as int]
                && g.node_active(m) ==> g.sited(g.scan(stack, seen, acc), acc.len() as int, m),
    decreases unseen(seen), stack.len(),
{
    if stack.len() > 0 {
        let f = stack.last();
        let v = g.read(f);
        let rest = stack.drop_last();
        lemma_index_in_range(g, f);
        match Net::enters(v, seen) {
            None => {
                assert(g.pending(rest, seen)) by {
                    assert forall|c: Field, m: usize|
                        #![trigger seen[m as int], g.read(c)]
                        g.valid_field(c) && c.node() is Some && seen[c.node()->0 as int]
                            && Net::target(g.read(c)) == Some(m) implies seen[m as int]
                        || rest.contains(c) by {
                        lemma_index_in_range(g, c);
                        if !seen[m as int] {
                            assert(stack.contains(c));
                            let i = choose|i: int| 0 <= i < stack.len() && stack[i] == c;
                            assert(i < stack.len() - 1);
                            assert(rest[i] == c);
                        }
                    }
                }
                lemma_scan(g, rest, seen, acc);
                let s = g.scan_seen(stack, seen);
                assert forall|i: int, m: usize|
                    0 <= i < stack.len() && Net::target(g.read(#[trigger] stack[i])) == Some(
                        m,
                    ) implies #[trigger] s[m as int] by {
                    if i < stack.len() - 1 {
                        assert(rest[i] == stack[i]);
                    } else {
                        assert(seen[m as int]);
                    }
                }
            },
            Some(n) => {
                lemma_unseen_update(seen, n as int);
                let seen1 = seen.update(n as int, true);
                let stack1 = rest + Net::subfields(v);
                let acc1 = if g.active(v) {
                    acc.push(f)
                } else {
                    acc
                };
                assert(g.pending(stack1, seen1)) by {
                    assert forall|c: Field, m: usize|
                        #![trigger seen1[m as int], g.read(c)]
                        g.valid_field(c) && c.node() is Some && seen1[c.node()->0 as int]
                            && Net::target(g.read(c)) == Some(m) implies seen1[m as int]
                        || stack1.contains(c) by {
                        lemma_index_in_range(g, c);
                        if c.node() == Some(n) {
                            lemma_subfields(g, f, c);
                            let k = choose|k: int|
                                0 <= k < Net::subfields(v).len() && Net::subfields(v)[k] == c;
                            assert(stack1[rest.len() + k] == c);
                        } else if m != n && !seen[m as int] {
                            assert(seen[c.node()->0 as int]);
                            assert(stack.contains(c));
                            let i = choose|i: int| 0 <= i < stack.len() && stack[i] == c;
                            assert(i < stack.len() - 1);
                            assert(stack1[i] == c);
                        }
                    }
                }
                lemma_scan(g, stack1, seen1, acc1);
                let s = g.scan_seen(stack, seen);
                let r = g.scan(stack, seen, acc);
                assert(s == g.scan_seen(stack1, seen1));
                assert(r == g.scan(stack1, seen1, acc1));
                assert forall|i: int, m: usize|
                    0 <= i < stack.len() && Net::target(g.read(#[trigger] stack[i])) == Some(
                        m,
                    ) implies #[trigger] s[m as int] by {
                    if i < stack.len() - 1 {
                        assert(stack1[i] == stack[i]);
                    } else {
                        assert(seen1[n as int]);
                    }
                }
                assert forall|i: int| 0 <= i < acc.len() implies #[trigger] r[i] == acc[i] by {
                    assert(acc1[i] == acc[i]);
                }
                assert forall|m: usize|
                    m < seen.len() && #[trigger] s[m as int] && !seen[m as int] && g.node_active(
                        m,
                    ) implies g.sited(r, acc.len() as int, m) by {
                    if m == n {
                        lemma_subfields(g, f, f);
                        assert(acc1[acc.len() as int] == f);
                        assert(r[acc.len() as int] == f);
                    } else {
                        assert(g.sited(r, acc1.len() as int, m));
                        let i = choose|i: int|
                            acc1.len() <= i < r.len() && Net::target(g.read(#[trigger] r[i]))
                                == Some(m);
                        assert(acc.len() <= i);
                    }
                }
            },
        }
    }
}

/// A walk that starts at the root with nothing seen.
pub proof fn lemma_scan_start(g: Net)
    requires
        g.wf(),
    ensures
        g.pending(seq![Field::Root], Seq::new(g.kinds.len(), |i: int| false)),
{
}

/// A finished walk has seen every node that a path from the root leads
/// into.
pub proof fn lemma_path_seen(g: Net, path: Seq<Field>, k: int)
    requires
        g.wf(),
        g.is_path(path),
        0 <= k < path.len(),
    ensures
        Net::target(g.read(path[k])) matches Some(m) ==> m < g.kinds.len() && g.scan_seen(
            seq![Field::Root],
            Seq::new(g.kinds.len(), |i: int| false),
        )[m as int],
    decreases k,
{
    let start = seq![Field::Root];
    let none = Seq::new(g.kinds.len(), |i: int| false);
    let s = g.scan_seen(start, none);
    lemma_scan_start(g);
    lemma_scan(g, start, none, seq![]);
    lemma_index_in_range(g, path[k]);
    if let Some(m) = Net::target(g.read(path[k])) {
        if k == 0 {
            assert(start[0] == Field::Root);
        } else {
            lemma_path_seen(g, path, k - 1);
            let v = g.read(path[k - 1]);
            assert(Net::subfields(v).contains(path[k]));
            assert(Net::target(v) is Some);
            lemma_subfields(g, path[k - 1], path[k]);
            assert(s[path[k].node()->0 as int]);
        }
    }
}

/// The scan is complete: a node that can be reached from the root and is
/// the left side of a rule has a redex site in the scan's list.
pub proof fn lemma_scan_finds_reachable(g: Net, n: usize)
    requires
        g.wf(),
        g.reaches(n),
        g.node_active(n),
    ensures
        g.sited(g.redexes(), 0, n),
{
    let start = seq![Field::Root];
    let none = Seq::new(g.kinds.len(), |i: int| false);
    let path = choose|path: Seq<Field>|
        #[trigger] g.is_path(path) && Net::target(g.read(path.last())) == Some(n);
    lemma_path_seen(g, path, path.len() - 1);
    lemma_scan_start(g);
    lemma_scan(g, start, none, seq![]);
}

/// In a graph in normal form no node that can be reached from the root is
/// the left side of a rule.
pub proof fn lemma_normal_has_no_redex(g: Net, n: usize)
    requires
        g.wf(),
        g.normal(),
        g.reaches(n),
    ensures
        !g.node_active(n),
{
    if g.node_active(n) {
        lemma_scan_finds_reachable(g, n);
    }
}

impl Net {
    /// `path` leads down from the field `start`: each field after the
    /// first is a subterm field of the node that the field before it leads
    /// into.
    pub open spec fn is_path_from(self, start: Field, path: Seq<Field>) -> bool {
        &&& path.len() >= 1
        &&& path[0] == start
        &&& forall|i: int|
            1 <= i < path.len() ==> Self::subfields(self.read(path[i - 1])).contains(
                #[trigger] path[i],
            )
    }

    /// The node in cell `n` can be reached from the field `start`.
    pub open spec fn leads(self, start: Field, n: usize) -> bool {
        exists|path: Seq<Field>|
            #[trigger] self.is_path_from(start, path) && Self::target(self.read(path.last()))
                == Some(n)
    }

    /// Cell `n` holds a node.
    pub open spec fn holds_node(self, n: usize) -> bool {
        n < self.kinds.len() && !(self.kinds[n as int] is Free)
    }

    /// Every node of `h` that `self` has not can be reached from `dest`.
    pub open spec fn new_nodes_reached(self, h: Net, dest: Field) -> bool {
        forall|n: usize| #[trigger] h.holds_node(n) && !self.holds_node(n) ==> h.leads(dest, n)
    }
}

/// A field that leads into a node reaches it.
pub proof fn lemma_leads_here(g: Net, f: Field, n: usize)
    requires
        Net::target(g.read(f)) == Some(n),
    ensures
        g.leads(f, n),
{
    let path = seq![f];
    assert(g.is_path_from(f, path));
    assert(path.last() == f);
}

/// What can be reached from a subterm field of a node that can be reached,
/// can be reached.
pub proof fn lemma_leads_on(g: Net, start: Field, m: usize, c: Field, n: usize)
    requires
        g.wf(),
        g.leads(start, m),
        g.valid_field(c),
        c.node() == Some(m),
        g.leads(c, n),
    ensures
        g.leads(start, n),
{
    let upper = choose|p: Seq<Field>|
        #[trigger] g.is_path_from(start, p) && Net::target(g.read(p.last())) == Some(m);
    let lower = choose|p: Seq<Field>|
        #[trigger] g.is_path_from(c, p) && Net::target(g.read(p.last())) == Some(n);
    let path = upper + lower;
    lemma_subfields(g, upper.last(), c);
    assert forall|i: int| 1 <= i < path.len() implies Net::subfields(
        g.read(path[i - 1]),
    ).contains(#[trigger] path[i]) by {
        if i < upper.len() {
            assert(path[i] == upper[i]);
            assert(path[i - 1] == upper[i - 1]);
        } else if i == upper.len() {
            assert(path[i] == lower[0]);
            assert(path[i - 1] == upper.last());
        } else {
            assert(path[i] == lower[i - upper.len()]);
            assert(path[i - 1] == lower[i - upper.len() - 1]);
        }
    }
    assert(path[0] == upper[0]);
    assert(path.last() == lower.last());
    assert(g.is_path_from(start, path));
}

/// What can be reached stays within reach while a term is built into an
/// empty field.
pub proof fn lemma_leads_kept(g: Net, h: Net, dest: Field, start: Field, n: usize)
    requires
        g.wf(),
        g.valid_field(start),
        g.leads(start, n),
        g.built(h, dest),
        g.read(dest) == NodeRef::UnboundVar,
    ensures
        h.leads(start, n),
{
    let path = choose|p: Seq<Field>|
        #[trigger] g.is_path_from(start, p) && Net::target(g.read(p.last())) == Some(n);
    lemma_path_fields(g, start, path, path.len() - 1);
    assert forall|i: int| 0 <= i < path.len() implies h.read(#[trigger] path[i]) == g.read(
        path[i],
    ) by {
        lemma_path_fields(g, start, path, i);
        if i + 1 < path.len() {
            let s = Net::subfields(g.read(path[i]));
            assert(s.contains(path[i + 1]));
        }
        assert(g.read(path[i]) != NodeRef::UnboundVar);
    }
    assert forall|i: int| 1 <= i < path.len() implies Net::subfields(
        h.read(path[i - 1]),
    ).contains(#[trigger] path[i]) by {
        assert(h.read(path[i - 1]) == g.read(path[i - 1]));
        assert(Net::subfields(g.read(path[i - 1])).contains(path[i]));
    }
    assert(h.is_path_from(start, path));
    assert(h.read(path.last()) == g.read(path[path.len() - 1]));
}

/// The fields of a path are there.
pub proof fn lemma_path_fields(g: Net, start: Field, path: Seq<Field>, k: int)
    requires
        g.wf(),
        g.valid_field(start),
        g.is_path_from(start, path),
        0 <= k < path.len(),
    ensures
        g.valid_field(path[k]),
{
    if k > 0 {
        let v = g.read(path[k - 1]);
        assert(Net::subfields(v).contains(path[k]));
        assert(Net::target(v) is Some);
        lemma_subfields(g, path[k - 1], path[k]);
    }
}

/// A path from the root is a path from the root cell.
pub proof fn lemma_reaches_is_leads(g: Net, n: usize)
    ensures
        g.reaches(n) <==> g.leads(Field::Root, n),
{
    if g.reaches(n) {
        let p = choose|p: Seq<Field>|
            #[trigger] g.is_path(p) && Net::target(g.read(p.last())) == Some(n);
        assert(g.is_path_from(Field::Root, p));
    }
    if g.leads(Field::Root, n) {
        let p = choose|p: Seq<Field>|
            #[trigger] g.is_path_from(Field::Root, p) && Net::target(g.read(p.last())) == Some(
                n,
            );
        assert(g.is_path(p));
    }
}

impl Net {
    /// The value `v` refers to a node of the kind that it says.
    pub open spec fn sound(self, v: NodeRef) -> bool {
        match v {
            NodeRef::UnboundVar => true,
            NodeRef::LamBoundVar(n) => self.is_lam(n),
            NodeRef::DupABoundVar(n) => self.is_dup(n),
            NodeRef::DupBBoundVar(n) => self.is_dup(n),
            NodeRef::LamPtr(n) => self.is_lam(n),
            NodeRef::AppPtr(n) => self.is_app(n),
            NodeRef::SupPtr(n) => self.is_sup(n),
            NodeRef::DupPtr(n) => self.is_dup(n),
        }
    }

    /// The cells that a breadth-first walk has seen when it is done, which
    /// still has the values of `queue` to look at and has seen the cells of
    /// `seen`.
    pub open spec fn walk_seen(self, queue: Seq<NodeRef>, seen: Seq<bool>) -> Seq<bool>
        decreases unseen(seen), queue.len(),
    {
        if queue.len() == 0 {
            seen
        } else {
            let v = queue.first();
            match Self::enters(v, seen) {
                None => self.walk_seen(queue.drop_first(), seen),
                Some(n) => {
                    proof {
                        lemma_unseen_update(seen, n as int);
                    }
                    self.walk_seen(
                        queue.drop_first() + Self::subfields(v).map_values(
                            |f: Field| self.read(f),
                        ),
                        seen.update(n as int, true),
                    )
                },
            }
        }
    }

    /// Of every node seen, every subterm leads into a node seen or is still
    /// to be looked at.
    pub open spec fn queued(self, queue: Seq<NodeRef>, seen: Seq<bool>) -> bool {
        forall|f: Field, m: usize|
            #![trigger seen[m as int], self.read(f)]
            self.valid_field(f) && f.node() is Some && seen[f.node()->0 as int] && Self::target(
                self.read(f),
            ) == Some(m) ==> seen[m as int] || queue.contains(self.read(f))
    }
}

/// The subterm fields of the node that a sound value leads into are the
/// fields of that node.
pub proof fn lemma_subfields_of(g: Net, v: NodeRef, c: Field)
    requires
        g.sound(v),
        Net::target(v) is Some,
    ensures
        Net::subfields(v).contains(c) <==> g.valid_field(c) && c.node() == Net::target(v),
        Net::target(v)->0 < g.kinds.len(),
        Net::entered(v) == g.kinds[Net::target(v)->0 as int].pointer(Net::target(v)->0),
{
    let s = Net::subfields(v);
    if s.contains(c) {
        let i = choose|i: int| 0 <= i < s.len() && s[i] == c;
        assert(s[i] == c);
    }
    if g.valid_field(c) && c.node() == Net::target(v) {
        match v {
            NodeRef::LamPtr(n) => {
                assert(s[0] == c);
            },
            NodeRef::AppPtr(n) => {
                assert(s[0] == c || s[1] == c);
            },
            NodeRef::SupPtr(n) => {
                assert(s[0] == c || s[1] == c);
            },
            _ => {
                assert(s[0] == c);
            },
        }
    }
}

/// What is read from a field of a well-formed graph is sound.
pub proof fn lemma_read_sound(g: Net, f: Field)
    requires
        g.wf(),
    ensures
        g.sound(g.read(f)),
{
    lemma_index_in_range(g, f);
}

/// What a finished breadth-first walk has seen and yielded, from any point
/// of the walk.
pub proof fn lemma_walk(g: Net, queue: Seq<NodeRef>, seen: Seq<bool>)
    requires
        g.wf(),
        seen.len() == g.kinds.len(),
        forall|i: int| 0 <= i < queue.len() ==> g.sound(#[trigger] queue[i]),
        g.queued(queue, seen),
    ensures
        g.walk_seen(queue, seen).len() == seen.len(),
        forall|n: int| 0 <= n < seen.len() && seen[n] ==> #[trigger] g.walk_seen(queue, seen)[n],
        g.closed(g.walk_seen(queue, seen)),
        forall|i: int, m: usize|
            0 <= i < queue.len() && Net::target(#[trigger] queue[i]) == Some(m)
                ==> #[trigger] g.walk_seen(queue, seen)[m as int],
        forall|m: usize|
            m < seen.len() && #[trigger] g.walk_seen(queue, seen)[m as int] && !seen[m as int]
                ==> g.walk(queue, seen).contains(g.kinds[m as int].pointer(m)),
        forall|i: int|
            0 <= i < g.walk(queue, seen).len() ==> Net::target(#[trigger] g.walk(queue, seen)[i])
                is Some && g.holds_node(Net::target(g.walk(queue, seen)[i])->0) && g.walk(
                queue,
                seen,
            )[i] == g.kinds[Net::target(g.walk(queue, seen)[i])->0 as int].pointer(
                Net::target(g.walk(queue, seen)[i])->0,
            ),
    decreases unseen(seen), queue.len(),
{
    if queue.len() > 0 {
        let v = queue.first();
        let rest = queue.drop_first();
        assert(g.sound(queue[0]));
        assert forall|i: int| 0 <= i < rest.len() implies g.sound(#[trigger] rest[i]) by {
            assert(rest[i] == queue[i + 1]);
        }
        match Net::enters(v, seen) {
            None => {
                assert(g.queued(rest, seen)) by {
                    assert forall|c: Field, m: usize|
                        #![trigger seen[m as int], g.read(c)]
                        g.valid_field(c) && c.node() is Some && seen[c.node()->0 as int]
                            && Net::target(g.read(c)) == Some(m) implies seen[m as int]
                        || rest.contains(g.read(c)) by {
                        lemma_index_in_range(g, c);
                        if !seen[m as int] {
                            assert(queue.contains(g.read(c)));
                            let i = choose|i: int| 0 <= i < queue.len() && queue[i] == g.read(c);
                            assert(i > 0);
                            assert(rest[i - 1] == g.read(c));
                        }
                    }
                }
                lemma_walk(g, rest, seen);
                let s = g.walk_seen(queue, seen);
                assert forall|i: int, m: usize|
                    0 <= i < queue.len() && Net::target(#[trigger] queue[i]) == Some(
                        m,
                    ) implies #[trigger] s[m as int] by {
                    if i > 0 {
                        assert(rest[i - 1] == queue[i]);
                    } else {
                        lemma_subfields_of(g, v, Field::Root);
                        assert(seen[m as int]);
                    }
                }
            },
            Some(n) => {
                lemma_unseen_update(seen, n as int);
                lemma_subfields_of(g, v, Field::Root);
                let seen1 = seen.update(n as int, true);
                let kids = Net::subfields(v).map_values(|f: Field| g.read(f));
                let queue1 = rest + kids;
                assert forall|i: int| 0 <= i < queue1.len() implies g.sound(
                    #[trigger] queue1[i],
                ) by {
                    if i >= rest.len() {
                        lemma_read_sound(g, Net::subfields(v)[i - rest.len()]);
                    }
                }
                assert(g.queued(queue1, seen1)) by {
                    assert forall|c: Field, m: usize|
                        #![trigger seen1[m as int], g.read(c)]
                        g.valid_field(c) && c.node() is Some && seen1[c.node()->0 as int]
                            && Net::target(g.read(c)) == Some(m) implies seen1[m as int]
                        || queue1.contains(g.read(c)) by {
                        lemma_index_in_range(g, c);
                        if c.node() == Some(n) {
                            lemma_subfields_of(g, v, c);
                            let k = choose|k: int|
                                0 <= k < Net::subfields(v).len() && Net::subfields(v)[k] == c;
                            assert(queue1[rest.len() + k] == g.read(c));
                        } else if m != n && !seen[m as int] {
                            assert(seen[c.node()->0 as int]);
                            assert(queue.contains(g.read(c)));
                            let i = choose|i: int| 0 <= i < queue.len() && queue[i] == g.read(c);
                            assert(i > 0);
                            assert(queue1[i - 1] == g.read(c));
                        }
                    }
                }
                lemma_walk(g, queue1, seen1);
                let s = g.walk_seen(queue, seen);
                let w = g.walk(queue, seen);
                let w1 = g.walk(queue1, seen1);
                assert(s == g.walk_seen(queue1, seen1));
                assert(w == seq![Net::entered(v)] + w1);
                assert forall|i: int, m: usize|
                    0 <= i < queue.len() && Net::target(#[trigger] queue[i]) == Some(
                        m,
                    ) implies #[trigger] s[m as int] by {
                    if i > 0 {
                        assert(queue1[i - 1] == queue[i]);
                    } else {
                        assert(seen1[n as int]);
                    }
                }
                assert forall|m: usize|
                    m < seen.len() && #[trigger] s[m as int] && !seen[m as int] implies w.contains(
                        g.kinds[m as int].pointer(m),
                    ) by {
                    if m == n {
                        assert(w[0] == Net::entered(v));
                    } else {
                        assert(w1.contains(g.kinds[m as int].pointer(m)));
                        let i = choose|i: int|
                            0 <= i < w1.len() && w1[i] == g.kinds[m as int].pointer(m);
                        assert(w[i + 1] == w1[i]);
                    }
                }
                assert forall|i: int| 0 <= i < w.len() implies Net::target(#[trigger] w[i])
                    is Some && g.holds_node(Net::target(w[i])->0) && w[i] == g.kinds[Net::target(
                    w[i],
                )->0 as int].pointer(Net::target(w[i])->0) by {
                    if i > 0 {
                        assert(w[i] == w1[i - 1]);
                    } else {
                        assert(w[0] == Net::entered(v));
                    }
                }
            },
        }
    }
}

/// The breadth-first walk yields the nodes that can be reached, and no
/// others: a node that can be reached from the root is among `nodes`, and
/// each of `nodes` is the reference to a node that is there.
pub proof fn lemma_nodes_are_the_reachable(g: Net, n: usize)
    requires
        g.wf(),
    ensures
        g.reaches(n) ==> n < g.kinds.len() && g.nodes().contains(g.kinds[n as int].pointer(n)),
        forall|i: int|
            0 <= i < g.nodes().len() ==> Net::target(#[trigger] g.nodes()[i]) is Some
                && g.holds_node(Net::target(g.nodes()[i])->0),
{
    let start = seq![g.root()];
    let none = Seq::new(g.kinds.len(), |i: int| false);
    lemma_read_sound(g, Field::Root);
    lemma_walk(g, start, none);
    if g.reaches(n) {
        let path = choose|path: Seq<Field>|
            #[trigger] g.is_path(path) && Net::target(g.read(path.last())) == Some(n);
        lemma_path_walked(g, path, path.len() - 1);
    }
}

/// A finished breadth-first walk has seen every node that a path from the
/// root leads into.
pub proof fn lemma_path_walked(g: Net, path: Seq<Field>, k: int)
    requires
        g.wf(),
        g.is_path(path),
        0 <= k < path.len(),
    ensures
        Net::target(g.read(path[k])) matches Some(m) ==> m < g.kinds.len() && g.walk_seen(
            seq![g.root()],
            Seq::new(g.kinds.len(), |i: int| false),
        )[m as int],
    decreases k,
{
    let start = seq![g.root()];
    let none = Seq::new(g.kinds.len(), |i: int| false);
    let s = g.walk_seen(start, none);
    lemma_read_sound(g, Field::Root);
    lemma_walk(g, start, none);
    lemma_index_in_range(g, path[k]);
    if let Some(m) = Net::target(g.read(path[k])) {
        if k == 0 {
            assert(start[0] == g.read(Field::Root));
        } else {
            lemma_path_walked(g, path, k - 1);
            let v = g.read(path[k - 1]);
            assert(Net::subfields(v).contains(path[k]));
            assert(Net::target(v) is Some);
            lemma_subfields(g, path[k - 1], path[k]);
            assert(s[path[k].node()->0 as int]);
        }
    }
}

} // verus!
