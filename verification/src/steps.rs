//! Each small step keeps a well-formed graph well-formed.

use vstd::prelude::*;
use crate::net::Net;
use crate::node::{Binder, Field, FieldRef, Kind, Label, NodeRef};

verus! {

pub proof fn lemma_empty_wf()
    ensures
        Net::empty().inv(),
{
    let g = Net::empty();
    assert(g.fields.dom() =~= Set::<Field>::full());
    assert(g.slots.dom() =~= Set::<Binder>::full());
    assert forall|f: Field| #[trigger] g.value_ok(f) by {}
    assert forall|b: Binder| #[trigger] g.binder_ok(b) by {}
}

/// If no live `Dup` stops being live, all stay live.
pub proof fn lemma_dups_frame(g: Net, h: Net)
    requires
        forall|n: usize| g.dup_live(n) ==> #[trigger] h.dup_live(n),
    ensures
        g.dups_live() ==> h.dups_live(),
{
    if g.dups_live() {
        assert forall|n: usize| #[trigger] h.dup_live(n) by {
            assert(g.dup_live(n));
        }
    }
}

pub proof fn lemma_push_scratch(g: Net)
    requires
        g.wf(),
        g.scratch < usize::MAX,
    ensures
        g.same_cells(Net { scratch: g.scratch, ..g.push_scratch() }),
        g.push_scratch().scratch == g.scratch + 1,
        g.push_scratch().fields == g.fields,
        g.push_scratch().slots == g.slots,
        g.push_scratch().wf(),
        g.push_scratch().read(Field::Scratch(g.scratch as usize)) == NodeRef::UnboundVar,
        g.dups_live() ==> g.push_scratch().dups_live(),
{
    reveal(Net::push_scratch);
    lemma_dups_frame(g, g.push_scratch());
    let h = g.push_scratch();
    assert(g.field_tidy(Field::Scratch(g.scratch as usize)));
    assert forall|f: Field| #[trigger] h.field_tidy(f) by {
        assert(g.field_tidy(f));
    }
    assert forall|b: Binder| #[trigger] h.slot_tidy(b) by {
        assert(g.slot_tidy(b));
    }
    assert forall|f: Field| #[trigger] h.value_ok(f) by {
        assert(g.value_ok(f));
    }
    assert forall|b: Binder| #[trigger] h.binder_ok(b) by {
        assert(g.binder_ok(b));
    }
    assert forall|n: usize| #[trigger] h.owner_ok(n) by {
        assert(g.owner_ok(n));
    }
    assert(h.free_ok()) by {
        assert forall|n: usize| #[trigger] h.is_free(n) implies h.free.contains(n) by {
            assert(g.is_free(n));
        }
    }
}

pub proof fn lemma_pop_scratch(g: Net)
    requires
        g.wf(),
        g.scratch > 0,
        g.read(Field::Scratch((g.scratch - 1) as usize)) == NodeRef::UnboundVar,
    ensures
        g.same_cells(Net { scratch: g.scratch, ..g.pop_scratch() }),
        g.pop_scratch().scratch == g.scratch - 1,
        g.pop_scratch().fields == g.fields,
        g.pop_scratch().slots == g.slots,
        g.pop_scratch().wf(),
        g.dups_live() ==> g.pop_scratch().dups_live(),
{
    reveal(Net::pop_scratch);
    lemma_dups_frame(g, g.pop_scratch());
    let h = g.pop_scratch();
    assert forall|f: Field| #[trigger] h.field_tidy(f) by {
        assert(g.field_tidy(f));
    }
    assert forall|b: Binder| #[trigger] h.slot_tidy(b) by {
        assert(g.slot_tidy(b));
    }
    assert forall|f: Field| #[trigger] h.value_ok(f) by {
        assert(g.value_ok(f));
    }
    assert forall|b: Binder| #[trigger] h.binder_ok(b) by {
        assert(g.binder_ok(b));
    }
    assert forall|n: usize| #[trigger] h.owner_ok(n) by {
        assert(g.owner_ok(n));
    }
    assert(h.free_ok()) by {
        assert forall|n: usize| #[trigger] h.is_free(n) implies h.free.contains(n) by {
            assert(g.is_free(n));
        }
    }
}

pub proof fn lemma_move_value(g: Net, src: Field, dst: Field)
    requires
        g.wf(),
        g.valid_field(src),
        g.valid_field(dst),
        g.read(dst) == NodeRef::UnboundVar,
    ensures
        g.moved(g.move_value(src, dst), src, dst),
        g.move_value(src, dst).wf(),
        g.dups_live() ==> g.move_value(src, dst).dups_live(),
{
    reveal(Net::move_value);
    let h = g.move_value(src, dst);
    assert forall|n: usize| g.dup_live(n) implies #[trigger] h.dup_live(n) by {}
    lemma_dups_frame(g, h);
    if src != dst {
        let v = g.read(src);
        assert(g.value_ok(src));
        assert(h.fields.dom() =~= Set::<Field>::full());
        assert(h.slots.dom() =~= Set::<Binder>::full());
        assert forall|f: Field| #[trigger] h.field_tidy(f) by {
            assert(g.field_tidy(f));
        }
        assert forall|b: Binder| #[trigger] h.slot_tidy(b) by {
            assert(g.slot_tidy(b));
        }
        assert forall|f: Field| #[trigger] h.value_ok(f) by {
            assert(g.value_ok(f));
        }
        assert forall|b: Binder| #[trigger] h.binder_ok(b) by {
            assert(g.binder_ok(b));
        }
        assert forall|n: usize| #[trigger] h.owner_ok(n) by {
            assert(g.owner_ok(n));
        }
        assert(h.free_ok()) by {
            assert forall|n: usize| #[trigger] h.is_free(n) implies h.free.contains(n) by {
                assert(g.is_free(n));
            }
        }
    }
}

pub proof fn lemma_bind(g: Net, b: Binder, f: Field)
    requires
        g.wf(),
        g.valid_binder(b),
        g.slot(b) == FieldRef::UnusedVar,
        g.valid_field(f),
        g.read(f) == NodeRef::UnboundVar,
    ensures
        g.bound(g.bind(b, f), b, f),
        g.bind(b, f).wf(),
        g.dups_live() ==> g.bind(b, f).dups_live(),
        forall|n: usize| n != b.node() && g.dup_live(n) ==> #[trigger] g.bind(b, f).dup_live(n),
        g.bind(b, f).dup_live(b.node()),
{
    reveal(Net::bind);
    let h = g.bind(b, f);
    assert forall|n: usize| g.dup_live(n) implies #[trigger] h.dup_live(n) by {}
    lemma_dups_frame(g, h);
    assert(h.fields.dom() =~= Set::<Field>::full());
    assert(h.slots.dom() =~= Set::<Binder>::full());
    assert forall|f2: Field| #[trigger] h.field_tidy(f2) by {
        assert(g.field_tidy(f2));
    }
    assert forall|b2: Binder| #[trigger] h.slot_tidy(b2) by {
        assert(g.slot_tidy(b2));
    }
    assert forall|f2: Field| #[trigger] h.value_ok(f2) by {
        assert(g.value_ok(f2));
    }
    assert forall|b2: Binder| #[trigger] h.binder_ok(b2) by {
        assert(g.binder_ok(b2));
    }
    assert forall|n: usize| #[trigger] h.owner_ok(n) by {
        assert(g.owner_ok(n));
    }
    assert(h.free_ok()) by {
        assert forall|n: usize| #[trigger] h.is_free(n) implies h.free.contains(n) by {
            assert(g.is_free(n));
        }
    }
}

pub proof fn lemma_unbind(g: Net, b: Binder)
    requires
        g.wf(),
        g.valid_binder(b),
    ensures
        g.unbound(g.unbind(b), b),
        g.unbind(b).wf(),
        forall|n: usize| n != b.node() && g.dup_live(n) ==> #[trigger] g.unbind(b).dup_live(n),
        g.slot(b) is VarUsePtr ==> g.valid_field(g.slot(b)->VarUsePtr_0),
{
    reveal(Net::unbind);
    let h = g.unbind(b);
    assert(g.binder_ok(b));
    assert forall|n: usize| n != b.node() && g.dup_live(n) implies #[trigger] h.dup_live(n) by {}
    match g.slot(b) {
        FieldRef::UnusedVar => {
            assert(g.slots.insert(b, FieldRef::UnusedVar) =~= g.slots);
        },
        FieldRef::VarUsePtr(f) => {
            assert(g.field_tidy(f));
            assert(h.fields.dom() =~= Set::<Field>::full());
            assert(h.slots.dom() =~= Set::<Binder>::full());
            assert forall|f2: Field| #[trigger] h.field_tidy(f2) by {
                assert(g.field_tidy(f2));
            }
            assert forall|b2: Binder| #[trigger] h.slot_tidy(b2) by {
                assert(g.slot_tidy(b2));
            }
            assert forall|f2: Field| #[trigger] h.value_ok(f2) by {
                assert(g.value_ok(f2));
            }
            assert forall|b2: Binder| #[trigger] h.binder_ok(b2) by {
                assert(g.binder_ok(b2));
            }
            assert forall|n: usize| #[trigger] h.owner_ok(n) by {
                assert(g.owner_ok(n));
            }
            assert(h.free_ok()) by {
                assert forall|n: usize| #[trigger] h.is_free(n) implies h.free.contains(n) by {
                    assert(g.is_free(n));
                }
            }
        },
    }
}

/// The next cell to be taken is empty or one past the arena, and the free
/// list without it is still right once the cell is filled.
pub proof fn lemma_place(g: Net, k: Kind, f: Field)
    requires
        g.wf(),
        !(k is Free),
        g.free.len() == 0 ==> g.kinds.len() < usize::MAX,
    ensures
        g.free.len() > 0 ==> g.is_free(g.fresh()),
        g.free.len() == 0 ==> g.fresh() == g.kinds.len(),
        g.place(k, f).free_ok(),
        g.place(k, f).kinds.len() == g.place(k, f).owner.len(),
        g.place(k, f).kinds.len() <= usize::MAX,
        g.place(k, f).kinds[g.fresh() as int] == k,
        g.place(k, f).owner[g.fresh() as int] == f,
        forall|n: usize|
            n != g.fresh() && n < g.kinds.len() ==> #[trigger] g.place(k, f).kinds[n as int]
                == g.kinds[n as int] && g.place(k, f).owner[n as int] == g.owner[n as int],
        g.place(k, f).kinds.len() == if g.free.len() > 0 {
            g.kinds.len()
        } else {
            g.kinds.len() + 1
        },
        g.place(k, f).live() == g.live() + 1,
{
    let h = g.place(k, f);
    let n = g.fresh();
    if g.free.len() > 0 {
        let last = g.free.len() - 1;
        assert(g.is_free(g.free[last]));
        assert forall|i: int| 0 <= i < h.free.len() implies h.is_free(#[trigger] h.free[i]) by {
            assert(g.is_free(g.free[i]));
            assert(g.free[i] != g.free[last]);
        }
        assert forall|m: usize| #[trigger] h.is_free(m) implies h.free.contains(m) by {
            assert(g.is_free(m));
            let j = choose|j: int| 0 <= j < g.free.len() && g.free[j] == m;
            assert(j != last);
            assert(h.free[j] == m);
        }
    } else {
        assert forall|m: usize| #[trigger] h.is_free(m) implies h.free.contains(m) by {
            assert(g.is_free(m));
        }
    }
}

pub proof fn lemma_alloc_at(g: Net, dst: Field, k: Kind)
    requires
        g.wf(),
        k.owned(),
        g.valid_field(dst),
        g.read(dst) == NodeRef::UnboundVar,
        g.free.len() == 0 ==> g.kinds.len() < usize::MAX,
    ensures
        g.grown(g.alloc_at(dst, k), g.fresh(), k),
        g.alloc_at(dst, k).fields == g.fields.insert(dst, k.pointer(g.fresh())),
        g.alloc_at(dst, k).wf(),
        g.dups_live() ==> g.alloc_at(dst, k).dups_live(),
        g.alloc_at(dst, k).blank(g.fresh()),
        g.alloc_at(dst, k).kinds[g.fresh() as int] == k,
        !g.is_owned(g.fresh()) && !g.is_dup(g.fresh()),
        g.alloc_at(dst, k).live() == g.live() + 1,
{
    reveal(Net::alloc_at);
    let h = g.alloc_at(dst, k);
    let n = g.fresh();
    lemma_place(g, k, dst);
    let p = g.place(k, dst);
    assert(h.free_ok()) by {
        assert forall|m: usize| #[trigger] h.is_free(m) implies h.free.contains(m) by {
            assert(p.is_free(m));
        }
        assert forall|i: int| 0 <= i < h.free.len() implies h.is_free(#[trigger] h.free[i]) by {
            assert(p.is_free(p.free[i]));
        }
    }
    assert forall|m: usize| g.dup_live(m) implies #[trigger] h.dup_live(m) by {}
    lemma_dups_frame(g, h);
    assert(h.fields.dom() =~= Set::<Field>::full());
    assert(g.field_tidy(Field::LamE(n)));
    assert(g.field_tidy(Field::AppE1(n)));
    assert(g.field_tidy(Field::AppE2(n)));
    assert(g.field_tidy(Field::SupE1(n)));
    assert(g.field_tidy(Field::SupE2(n)));
    assert(g.slot_tidy(Binder::LamX(n)));
    assert forall|f2: Field| #[trigger] h.field_tidy(f2) by {
        assert(g.field_tidy(f2));
    }
    assert forall|b2: Binder| #[trigger] h.slot_tidy(b2) by {
        assert(g.slot_tidy(b2));
    }
    assert forall|f2: Field| #[trigger] h.value_ok(f2) by {
        assert(g.value_ok(f2));
    }
    assert forall|b2: Binder| #[trigger] h.binder_ok(b2) by {
        assert(g.binder_ok(b2));
    }
    assert forall|m: usize| #[trigger] h.owner_ok(m) by {
        assert(g.owner_ok(m));
    }
}

pub proof fn lemma_alloc_dup(g: Net, l: Label)
    requires
        g.wf(),
        g.free.len() == 0 ==> g.kinds.len() < usize::MAX,
    ensures
        g.grown(g.alloc_dup(l), g.fresh(), Kind::Dup(l)),
        g.alloc_dup(l).fields == g.fields,
        g.alloc_dup(l).wf(),
        forall|n: usize| n != g.fresh() && g.dup_live(n) ==> #[trigger] g.alloc_dup(l).dup_live(n),
        g.alloc_dup(l).blank(g.fresh()),
        g.alloc_dup(l).kinds[g.fresh() as int] == Kind::Dup(l),
        !g.is_owned(g.fresh()) && !g.is_dup(g.fresh()),
        g.alloc_dup(l).live() == g.live() + 1,
{
    reveal(Net::alloc_dup);
    let h = g.alloc_dup(l);
    let n = g.fresh();
    lemma_place(g, Kind::Dup(l), Field::Root);
    assert forall|m: usize| m != n && g.dup_live(m) implies #[trigger] h.dup_live(m) by {}
    assert(g.field_tidy(Field::DupE(n)));
    assert(g.slot_tidy(Binder::DupA(n)));
    assert(g.slot_tidy(Binder::DupB(n)));
    assert forall|f2: Field| #[trigger] h.field_tidy(f2) by {
        assert(g.field_tidy(f2));
    }
    assert forall|b2: Binder| #[trigger] h.slot_tidy(b2) by {
        assert(g.slot_tidy(b2));
    }
    assert forall|f2: Field| #[trigger] h.value_ok(f2) by {
        assert(g.value_ok(f2));
    }
    assert forall|b2: Binder| #[trigger] h.binder_ok(b2) by {
        assert(g.binder_ok(b2));
    }
    assert forall|m: usize| #[trigger] h.owner_ok(m) by {
        assert(g.owner_ok(m));
    }
}

/// Emptying a cell that the free list does not name keeps the list right.
pub proof fn lemma_release(g: Net, n: usize)
    requires
        g.free_ok(),
        n < g.kinds.len(),
        !(g.kinds[n as int] is Free),
    ensures
        g.release(n).free_ok(),
        g.release(n).live() == g.live() - 1,
{
    let h = g.release(n);
    assert forall|i: int, j: int|
        0 <= i < h.free.len() && 0 <= j < h.free.len() && i != j implies h.free[i]
        != h.free[j] by {
        if i < g.free.len() {
            assert(g.is_free(g.free[i]));
        }
        if j < g.free.len() {
            assert(g.is_free(g.free[j]));
        }
    }
    assert forall|i: int| 0 <= i < h.free.len() implies h.is_free(#[trigger] h.free[i]) by {
        if i < g.free.len() {
            assert(g.is_free(g.free[i]));
        }
    }
    assert forall|m: usize| #[trigger] h.is_free(m) implies h.free.contains(m) by {
        if m == n {
            assert(h.free[g.free.len() as int] == n);
        } else {
            assert(g.is_free(m));
            let j = choose|j: int| 0 <= j < g.free.len() && g.free[j] == m;
            assert(h.free[j] == m);
        }
    }
}

pub proof fn lemma_free_at(g: Net, f: Field)
    requires
        g.wf(),
        g.valid_field(f),
        g.read(f).child() is Some,
        g.blank(g.read(f).child()->0),
    ensures
        g.shrunk(g.free_at(f), g.read(f).child()->0),
        g.free_at(f).fields == g.fields.insert(f, NodeRef::UnboundVar),
        g.free_at(f).wf(),
        g.dups_live() ==> g.free_at(f).dups_live(),
        g.free_at(f).live() == g.live() - 1,
{
    reveal(Net::free_at);
    let h = g.free_at(f);
    let n = g.read(f).child()->0;
    assert(g.value_ok(f));
    let w = g.write(f, NodeRef::UnboundVar);
    assert(w.free_ok()) by {
        assert forall|m: usize| #[trigger] w.is_free(m) implies w.free.contains(m) by {
            assert(g.is_free(m));
        }
        assert forall|i: int| 0 <= i < w.free.len() implies w.is_free(#[trigger] w.free[i]) by {
            assert(g.is_free(g.free[i]));
        }
    }
    lemma_release(w, n);
    assert forall|m: usize| g.dup_live(m) implies #[trigger] h.dup_live(m) by {}
    lemma_dups_frame(g, h);
    assert(h.fields.dom() =~= Set::<Field>::full());
    assert forall|f2: Field| #[trigger] h.field_tidy(f2) by {
        assert(g.field_tidy(f2));
    }
    assert forall|b2: Binder| #[trigger] h.slot_tidy(b2) by {
        assert(g.slot_tidy(b2));
    }
    assert forall|f2: Field| #[trigger] h.value_ok(f2) by {
        assert(g.value_ok(f2));
    }
    assert forall|b2: Binder| #[trigger] h.binder_ok(b2) by {
        assert(g.binder_ok(b2));
    }
    assert forall|m: usize| #[trigger] h.owner_ok(m) by {
        assert(g.owner_ok(m));
    }
}

pub proof fn lemma_free_dup(g: Net, n: usize)
    requires
        g.wf(),
        g.is_dup(n),
        g.blank(n),
    ensures
        g.shrunk(g.free_dup(n), n),
        g.free_dup(n).fields == g.fields,
        g.free_dup(n).wf(),
        forall|m: usize| m != n && g.dup_live(m) ==> #[trigger] g.free_dup(n).dup_live(m),
        g.free_dup(n).dup_live(n),
        g.free_dup(n).live() == g.live() - 1,
{
    reveal(Net::free_dup);
    let h = g.free_dup(n);
    lemma_release(g, n);
    assert forall|m: usize| m != n && g.dup_live(m) implies #[trigger] h.dup_live(m) by {}
    assert forall|f2: Field| #[trigger] h.field_tidy(f2) by {
        assert(g.field_tidy(f2));
    }
    assert forall|b2: Binder| #[trigger] h.slot_tidy(b2) by {
        assert(g.slot_tidy(b2));
    }
    assert forall|f2: Field| #[trigger] h.value_ok(f2) by {
        assert(g.value_ok(f2));
    }
    assert forall|b2: Binder| #[trigger] h.binder_ok(b2) by {
        assert(g.binder_ok(b2));
    }
    assert forall|m: usize| #[trigger] h.owner_ok(m) by {
        assert(g.owner_ok(m));
    }
}

/// The free list is no longer than the arena.
pub proof fn lemma_live(g: Net)
    requires
        g.wf(),
    ensures
        g.live() >= 0,
{
    let s = g.free.map_values(|x: usize| x as int);
    assert forall|i: int, j: int| 0 <= i < s.len() && 0 <= j < s.len() && i != j implies s[i]
        != s[j] by {
        assert(g.free[i] != g.free[j]);
    }
    s.unique_seq_to_set();
    let r = vstd::set_lib::set_int_range(0, g.kinds.len() as int);
    vstd::set_lib::lemma_int_range(0, g.kinds.len() as int);
    assert forall|x: int| s.to_set().contains(x) implies r.contains(x) by {
        let i = choose|i: int| 0 <= i < s.len() && s[i] == x;
        assert(g.is_free(g.free[i]));
    }
    vstd::set_lib::lemma_len_subset(s.to_set(), r);
}

} // verus!
