//! Every node of a graph that was built can be reached from the root.

use vstd::prelude::*;
use crate::affine::{
    in_scope, lemma_checks, lemma_push_two, lemma_tracks_after_alloc, lemma_tracks_pop,
    lemma_tracks_push, tracks,
};
use crate::intern::IStr;
use crate::laws::lemma_back_pointers;
use crate::net::Net;
use crate::node::{Binder, Field, FieldRef, Kind, NodeRef};
use crate::reach::{lemma_leads_here, lemma_leads_kept, lemma_leads_on, lemma_reaches_is_leads};
use crate::steps::{lemma_alloc_at, lemma_alloc_dup, lemma_empty_wf};
use crate::syntax::Term;

verus! {

/// What is asked of a graph, a term, a field and two scopes for the term to
/// be built into the field.
pub open spec fn ready(
    g: Net,
    t: Term,
    dest: Field,
    sb: Seq<(IStr, Binder)>,
    sf: Seq<(IStr, bool)>,
) -> bool {
    &&& g.wf()
    &&& g.valid_field(dest)
    &&& g.read(dest) == NodeRef::UnboundVar
    &&& tracks(g, sb, sf)
    &&& g.kinds.len() + t.size() <= usize::MAX
}

/// The nodes of a term that was built can be reached from the field that
/// it was built into.
pub open spec fn rooted(g: Net, t: Term, dest: Field, sb: Seq<(IStr, Binder)>) -> bool {
    g.build_term(t, dest, sb) matches Ok(h) ==> g.new_nodes_reached(h, dest)
}

pub proof fn lemma_rooted_lam(
    g: Net,
    t: Term,
    dest: Field,
    sb: Seq<(IStr, Binder)>,
    sf: Seq<(IStr, bool)>,
)
    requires
        t is Lam,
        ready(g, t, dest, sb, sf),
    ensures
        rooted(g, t, dest, sb),
    decreases t, 0int,
{
    if let Term::Lam(x, body) = t {
        let n = g.fresh();
        let g1 = g.alloc_at(dest, Kind::Lam);
        lemma_alloc_at(g, dest, Kind::Lam);
        lemma_tracks_after_alloc(g, g1, n, Kind::Lam, sb, sf);
        let b = Binder::LamX(n);
        let sb1 = sb.push((x, b));
        let sf1 = sf.push((x, false));
        lemma_tracks_push(g, g1, sb, sf, x, b);
        lemma_checks(g1, *body, Field::LamE(n), sb1, sf1);
        lemma_rooted(g1, *body, Field::LamE(n), sb1, sf1);
        if let Ok(h) = g1.build_term(*body, Field::LamE(n), sb1) {
            assert(h.read(dest) == g1.read(dest));
            lemma_leads_here(h, dest, n);
            assert forall|m: usize| #[trigger] h.holds_node(m) && !g.holds_node(m) implies h.leads(
                dest,
                m,
            ) by {
                if m != n {
                    assert(!g1.holds_node(m));
                    assert(h.kinds[n as int] == g1.kinds[n as int]);
                    lemma_leads_on(h, dest, n, Field::LamE(n), m);
                }
            }
        }
    }
}

pub proof fn lemma_rooted_pair(
    g: Net,
    t: Term,
    dest: Field,
    sb: Seq<(IStr, Binder)>,
    sf: Seq<(IStr, bool)>,
)
    requires
        t is App || t is Sup,
        ready(g, t, dest, sb, sf),
    ensures
        rooted(g, t, dest, sb),
    decreases t, 0int,
{
    let n = g.fresh();
    let (k, e1, e2, f1, f2) = match t {
        Term::App(e1, e2) => (Kind::App, *e1, *e2, Field::AppE1(n), Field::AppE2(n)),
        Term::Sup(l, e1, e2) => (Kind::Sup(l), *e1, *e2, Field::SupE1(n), Field::SupE2(n)),
        _ => arbitrary(),
    };
    let g1 = g.alloc_at(dest, k);
    lemma_alloc_at(g, dest, k);
    lemma_tracks_after_alloc(g, g1, n, k, sb, sf);
    lemma_checks(g1, e1, f1, sb, sf);
    lemma_rooted(g1, e1, f1, sb, sf);
    if let Ok(g2) = g1.build_term(e1, f1, sb) {
        let sf2 = e1.check(sf)->Ok_0;
        lemma_checks(g2, e2, f2, sb, sf2);
        lemma_rooted(g2, e2, f2, sb, sf2);
        if let Ok(h) = g2.build_term(e2, f2, sb) {
            assert(g2.read(dest) == g1.read(dest));
            assert(h.read(dest) == g2.read(dest));
            assert(g2.kinds[n as int] == g1.kinds[n as int]);
            assert(h.kinds[n as int] == g2.kinds[n as int]);
            lemma_leads_here(h, dest, n);
            assert forall|m: usize| #[trigger] h.holds_node(m) && !g.holds_node(m) implies h.leads(
                dest,
                m,
            ) by {
                if m != n {
                    assert(!g1.holds_node(m));
                    if g2.holds_node(m) {
                        assert(g2.leads(f1, m));
                        lemma_leads_kept(g2, h, f2, f1, m);
                        lemma_leads_on(h, dest, n, f1, m);
                    } else {
                        lemma_leads_on(h, dest, n, f2, m);
                    }
                }
            }
        }
    }
}

pub proof fn lemma_rooted_let(
    g: Net,
    t: Term,
    dest: Field,
    sb: Seq<(IStr, Binder)>,
    sf: Seq<(IStr, bool)>,
)
    requires
        t is Let,
        ready(g, t, dest, sb, sf),
    ensures
        rooted(g, t, dest, sb),
    decreases t, 0int,
{
    if let Term::Let(x, e, body) = t {
        let n = g.fresh();
        let g1 = g.alloc_at(dest, Kind::App);
        lemma_alloc_at(g, dest, Kind::App);
        lemma_tracks_after_alloc(g, g1, n, Kind::App, sb, sf);
        let m = g1.fresh();
        let g2 = g1.alloc_at(Field::AppE1(n), Kind::Lam);
        lemma_alloc_at(g1, Field::AppE1(n), Kind::Lam);
        lemma_tracks_after_alloc(g1, g2, m, Kind::Lam, sb, sf);
        let b = Binder::LamX(m);
        let sb1 = sb.push((x, b));
        let sf1 = sf.push((x, false));
        lemma_tracks_push(g1, g2, sb, sf, x, b);
        lemma_checks(g2, *body, Field::LamE(m), sb1, sf1);
        lemma_rooted(g2, *body, Field::LamE(m), sb1, sf1);
        if let Ok(g3) = g2.build_term(*body, Field::LamE(m), sb1) {
            let sf2 = body.check(sf1)->Ok_0;
            lemma_tracks_pop(g3, sb1, sf2);
            assert(sb1.drop_last() =~= sb);
            assert(g3.kinds[n as int] == g2.kinds[n as int]);
            assert(g3.kinds[m as int] == g2.kinds[m as int]);
            assert(g3.read(Field::AppE2(n)) == g2.read(Field::AppE2(n)));
            lemma_checks(g3, *e, Field::AppE2(n), sb, sf2.drop_last());
            lemma_rooted(g3, *e, Field::AppE2(n), sb, sf2.drop_last());
            if let Ok(h) = g3.build_term(*e, Field::AppE2(n), sb) {
                assert(h.kinds[n as int] == g3.kinds[n as int]);
                assert(h.kinds[m as int] == g3.kinds[m as int]);
                assert(g3.read(dest) == g2.read(dest));
                assert(h.read(dest) == g3.read(dest));
                assert(g3.read(Field::AppE1(n)) == g2.read(Field::AppE1(n)));
                assert(h.read(Field::AppE1(n)) == g3.read(Field::AppE1(n)));
                lemma_leads_here(h, dest, n);
                lemma_leads_here(h, Field::AppE1(n), m);
                lemma_leads_on(h, dest, n, Field::AppE1(n), m);
                assert forall|c: usize| #[trigger]
                    h.holds_node(c) && !g.holds_node(c) implies h.leads(dest, c) by {
                    if c != n && c != m {
                        assert(!g1.holds_node(c));
                        assert(!g2.holds_node(c));
                        if g3.holds_node(c) {
                            assert(g3.leads(Field::LamE(m), c));
                            lemma_leads_kept(g3, h, Field::AppE2(n), Field::LamE(m), c);
                            lemma_leads_on(h, dest, m, Field::LamE(m), c);
                        } else {
                            lemma_leads_on(h, dest, n, Field::AppE2(n), c);
                        }
                    }
                }
            }
        }
    }
}

pub proof fn lemma_rooted_dup(
    g: Net,
    t: Term,
    dest: Field,
    sb: Seq<(IStr, Binder)>,
    sf: Seq<(IStr, bool)>,
)
    requires
        t is Dup,
        ready(g, t, dest, sb, sf),
    ensures
        rooted(g, t, dest, sb),
    decreases t, 0int,
{
    if let Term::Dup(l, a, b, e, body) = t {
        if a != b {
            let d = g.fresh();
            let g1 = g.alloc_dup(l);
            lemma_alloc_dup(g, l);
            lemma_tracks_after_alloc(g, g1, d, Kind::Dup(l), sb, sf);
            lemma_checks(g1, *e, Field::DupE(d), sb, sf);
            lemma_rooted(g1, *e, Field::DupE(d), sb, sf);
            if let Ok(g2) = g1.build_term(*e, Field::DupE(d), sb) {
                let s1 = e.check(sf)->Ok_0;
                let ba = Binder::DupA(d);
                let bb = Binder::DupB(d);
                let sb2 = sb.push((a, ba)).push((b, bb));
                let sf2 = s1.push((a, false)).push((b, false));
                assert(!in_scope(sb, ba)) by {
                    if in_scope(sb, ba) {
                        let i = choose|i: int| 0 <= i < sb.len() && (#[trigger] sb[i]).1 == ba;
                        assert(g.valid_binder(sb[i].1));
                    }
                }
                assert(!in_scope(sb, bb)) by {
                    if in_scope(sb, bb) {
                        let i = choose|i: int| 0 <= i < sb.len() && (#[trigger] sb[i]).1 == bb;
                        assert(g.valid_binder(sb[i].1));
                    }
                }
                assert(g2.slots[ba] == g1.slots[ba]);
                assert(g2.slots[bb] == g1.slots[bb]);
                assert(g2.kinds[d as int] == g1.kinds[d as int]);
                lemma_push_two(g, g2, sb, s1, a, ba, b, bb);
                assert(g2.valid_field(dest) && g2.read(dest) == NodeRef::UnboundVar) by {
                    if dest.node() is Some {
                        assert(g1.kinds[dest.node()->0 as int] == g.kinds[dest.node()->0 as int]);
                        assert(g2.kinds[dest.node()->0 as int] == g1.kinds[dest.node()->0 as int]);
                    }
                    assert(g1.valid_field(dest));
                    assert(g2.fields[dest] == g1.fields[dest]);
                }
                lemma_checks(g2, *body, dest, sb2, sf2);
                lemma_rooted(g2, *body, dest, sb2, sf2);
                if let Ok(h) = g2.build_term(*body, dest, sb2) {
                    assert(h.kinds[d as int] == g2.kinds[d as int]);
                    if h.dup_live(d) {
                        lemma_dup_reached(g2, h, dest, d);
                        assert forall|m: usize| #[trigger]
                            h.holds_node(m) && !g.holds_node(m) implies h.leads(dest, m) by {
                            if m != d && g2.holds_node(m) {
                                assert(!g1.holds_node(m));
                                assert(g2.leads(Field::DupE(d), m));
                                lemma_leads_kept(g2, h, dest, Field::DupE(d), m);
                                lemma_leads_on(h, dest, d, Field::DupE(d), m);
                            }
                        }
                    }
                }
            }
        }
    }
}

/// A `Dup` whose variables did not occur before a term was built into
/// `dest`, and one of which occurs after, can be reached from `dest`.
pub proof fn lemma_dup_reached(g: Net, h: Net, dest: Field, d: usize)
    requires
        g.wf(),
        h.wf(),
        g.built(h, dest),
        g.new_nodes_reached(h, dest),
        g.is_dup(d),
        g.slots[Binder::DupA(d)] == FieldRef::UnusedVar,
        g.slots[Binder::DupB(d)] == FieldRef::UnusedVar,
        h.is_dup(d),
        h.dup_live(d),
    ensures
        h.leads(dest, d),
{
    let b = if h.slots[Binder::DupA(d)].used() {
        Binder::DupA(d)
    } else {
        Binder::DupB(d)
    };
    let f = h.slots[b]->VarUsePtr_0;
    lemma_back_pointers(h, b, f);
    lemma_leads_here(h, f, d);
    if f != dest {
        if g.valid_field(f) {
            assert(h.fields[f] == g.fields[f]);
            lemma_back_pointers(g, b, f);
        }
        let m = f.node()->0;
        if g.holds_node(m) {
            assert(h.kinds[m as int] == g.kinds[m as int]);
        }
        assert(h.holds_node(m) && !g.holds_node(m));
        lemma_leads_on(h, dest, m, f, d);
    }
}

/// The nodes of a term that was built can be reached from the field that
/// it was built into.
pub proof fn lemma_rooted(
    g: Net,
    t: Term,
    dest: Field,
    sb: Seq<(IStr, Binder)>,
    sf: Seq<(IStr, bool)>,
)
    requires
        ready(g, t, dest, sb, sf),
    ensures
        rooted(g, t, dest, sb),
    decreases t, 1int,
{
    match t {
        Term::Var(x) => {
            reveal(Net::bind);
        },
        Term::Lam(_, _) => {
            lemma_rooted_lam(g, t, dest, sb, sf);
        },
        Term::App(_, _) => {
            lemma_rooted_pair(g, t, dest, sb, sf);
        },
        Term::Sup(_, _, _) => {
            lemma_rooted_pair(g, t, dest, sb, sf);
        },
        Term::Dup(_, _, _, _, _) => {
            lemma_rooted_dup(g, t, dest, sb, sf);
        },
        Term::Let(_, _, _) => {
            lemma_rooted_let(g, t, dest, sb, sf);
        },
    }
}

/// Reachability after building. Every node of the graph of a term can be
/// reached from the root.
pub proof fn lemma_built_graph_is_rooted(t: Term, n: usize)
    requires
        t.size() <= usize::MAX,
        Net::build(t) is Ok,
        Net::build(t)->Ok_0.holds_node(n),
    ensures
        Net::build(t)->Ok_0.reaches(n),
{
    let g = Net::empty();
    lemma_empty_wf();
    let sb = Seq::<(IStr, Binder)>::empty();
    let sf = Seq::<(IStr, bool)>::empty();
    assert(sb =~= seq![]);
    lemma_rooted(g, t, Field::Root, sb, sf);
    lemma_reaches_is_leads(Net::build(t)->Ok_0, n);
}

} // verus!
