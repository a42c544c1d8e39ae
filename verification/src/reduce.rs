//! The driver: scan for redex sites, pick one, apply its rule, and again.

use vstd::prelude::*;
use rand::seq::SliceRandom;
use crate::graph::TermGraph;
use crate::net::Net;
use crate::node::{Field, NodeRef};

verus! {

impl Net {
    /// The graph after the rule of the redex at `host` was applied.
    pub open spec fn reduce_at(self, host: Field) -> Net {
        match self.read(host) {
            NodeRef::AppPtr(a) => match self.read(Field::AppE1(a)) {
                NodeRef::LamPtr(_) => self.app_lam(host),
                NodeRef::SupPtr(_) => self.app_sup(host),
                _ => self,
            },
            NodeRef::DupABoundVar(d) => self.reduce_dup(d),
            NodeRef::DupBBoundVar(d) => self.reduce_dup(d),
            _ => self,
        }
    }

    /// The graph after the rule of the `Dup` in cell `d` was applied.
    pub open spec fn reduce_dup(self, d: usize) -> Net {
        match self.read(Field::DupE(d)) {
            NodeRef::LamPtr(_) => self.dup_lam(d),
            NodeRef::SupPtr(_) => self.dup_sup(d),
            _ => self,
        }
    }

    /// No redex is left to find: the graph is in weak normal form.
    pub open spec fn normal(self) -> bool {
        self.redexes().len() == 0
    }

    /// One step of the first-found policy: the rule of the first redex site
    /// of the scan; a graph in normal form stays as it is.
    pub open spec fn step(self) -> Net {
        if self.normal() {
            self
        } else {
            self.reduce_at(self.redexes()[0])
        }
    }

    /// `n` steps of the first-found policy.
    pub open spec fn steps(self, n: nat) -> Net
        decreases n,
    {
        if n == 0 {
            self
        } else {
            self.step().steps((n - 1) as nat)
        }
    }

    /// Each site of `sites` is a redex site that the scan finds in the graph
    /// that the rewrites before it lead to.
    pub open spec fn rewrite_path(self, sites: Seq<Field>) -> bool
        decreases sites.len(),
    {
        sites.len() == 0 || (self.redexes().contains(sites[0]) && self.reduce_at(
            sites[0],
        ).rewrite_path(sites.drop_first()))
    }

    /// The graph after the rewrites at `sites`, one after the other.
    pub open spec fn rewrites(self, sites: Seq<Field>) -> Net
        decreases sites.len(),
    {
        if sites.len() == 0 {
            self
        } else {
            self.reduce_at(sites[0]).rewrites(sites.drop_first())
        }
    }
}

/// A graph in normal form stays as it is, however many steps are taken.
pub proof fn lemma_steps_normal(g: Net, n: nat)
    requires
        g.normal(),
    ensures
        g.steps(n) == g,
    decreases n,
{
    if n > 0 {
        lemma_steps_normal(g, (n - 1) as nat);
    }
}

/// `n` steps and one more are `n + 1` steps.
pub proof fn lemma_steps_more(g: Net, n: nat)
    ensures
        g.steps(n).step() == g.steps(n + 1),
    decreases n,
{
    assert(g.steps(n + 1) == g.step().steps(n));
    if n > 0 {
        lemma_steps_more(g.step(), (n - 1) as nat);
        assert(g.steps(n) == g.step().steps((n - 1) as nat));
    } else {
        assert(g.step().steps(0) == g.step());
    }
}

/// A path of rewrites goes on with a redex site of the graph it leads to.
pub proof fn lemma_path_more(g: Net, sites: Seq<Field>, f: Field)
    requires
        g.rewrite_path(sites),
        g.rewrites(sites).redexes().contains(f),
    ensures
        g.rewrite_path(sites.push(f)),
        g.rewrites(sites.push(f)) == g.rewrites(sites).reduce_at(f),
    decreases sites.len(),
{
    let more = sites.push(f);
    if sites.len() == 0 {
        assert(more.drop_first() =~= sites);
        assert(more[0] == f);
        assert(g.rewrites(sites) == g);
        assert(g.reduce_at(f).rewrite_path(more.drop_first()));
        assert(g.reduce_at(f).rewrites(more.drop_first()) == g.reduce_at(f));
        assert(g.rewrites(more) == g.reduce_at(more[0]).rewrites(more.drop_first()));
    } else {
        assert(more.drop_first() =~= sites.drop_first().push(f));
        assert(more[0] == sites[0]);
        lemma_path_more(g.reduce_at(sites[0]), sites.drop_first(), f);
        assert(g.rewrites(sites) == g.reduce_at(sites[0]).rewrites(sites.drop_first()));
        assert(g.rewrites(more) == g.reduce_at(more[0]).rewrites(more.drop_first()));
    }
}

/// `rand::seq::SliceRandom::choose` on the sites, with the generator of
/// `rand::thread_rng`: no site of none, otherwise one of them, whichever.
#[verifier::external_body]
fn choose_site(sites: &Vec<Field>) -> (site: Option<Field>)
    ensures
        sites@.len() == 0 ==> site is None,
        sites@.len() > 0 ==> site is Some && sites@.contains(site->0),
{
    sites.choose(&mut rand::thread_rng()).copied()
}

impl TermGraph {
    /// Applies the rule of the redex at `host`.
    pub fn reduce_redex(&mut self, host: Field)
        requires
            old(self)@.inv(),
            old(self)@.is_redex(host),
        ensures
            final(self)@ == old(self)@.reduce_at(host),
            final(self)@.inv(),
    {
        match self.read(host) {
            NodeRef::AppPtr(a) => match self.read(Field::AppE1(a)) {
                NodeRef::LamPtr(l) => self.rule_app_lam(host, a, l),
                NodeRef::SupPtr(s) => self.rule_app_sup(host, a, s),
                _ => {},
            },
            NodeRef::DupABoundVar(d) => self.reduce_dup(d),
            NodeRef::DupBBoundVar(d) => self.reduce_dup(d),
            _ => {},
        }
    }

    fn reduce_dup(&mut self, d: usize)
        requires
            old(self)@.inv(),
            old(self)@.is_dup_lam(d) || old(self)@.is_dup_sup(d),
        ensures
            final(self)@ == old(self)@.reduce_dup(d),
            final(self)@.inv(),
    {
        match self.read(Field::DupE(d)) {
            NodeRef::LamPtr(l) => self.rule_dup_lam(d, l),
            NodeRef::SupPtr(s) => self.rule_dup_sup(d, s),
            _ => {},
        }
    }

    /// One step of the first-found policy. Says whether a rule was applied.
    pub fn naive_reduce_step(&mut self) -> (applied: bool)
        requires
            old(self)@.inv(),
        ensures
            final(self)@ == old(self)@.step(),
            applied == !old(self)@.normal(),
            final(self)@.inv(),
    {
        let redexes = self.collect_redexes();
        if redexes.len() == 0 {
            return false;
        }
        self.reduce_redex(redexes[0]);
        true
    }

    /// At most `limit` steps of the first-found policy. Says whether the
    /// graph is in normal form.
    pub fn reduce_det(&mut self, limit: usize) -> (done: bool)
        requires
            old(self)@.inv(),
        ensures
            final(self)@ == old(self)@.steps(limit as nat),
            done == final(self)@.normal(),
            final(self)@.inv(),
    {
        let mut taken: usize = 0;
        while taken < limit
            invariant
                taken <= limit,
                self@.inv(),
                self@ == old(self)@.steps(taken as nat),
            decreases limit - taken,
        {
            proof {
                lemma_steps_more(old(self)@, taken as nat);
            }
            if !self.naive_reduce_step() {
                proof {
                    lemma_steps_normal(self@, (limit - taken) as nat);
                    lemma_steps_add(old(self)@, taken as nat, (limit - taken) as nat);
                }
                return true;
            }
            taken += 1;
        }
        let redexes = self.collect_redexes();
        redexes.len() == 0
    }

    /// Rewrites at redex sites picked at random until none is left, but at
    /// most `limit` times. Says whether the graph is in normal form.
    pub fn naive_random_order_reduce(&mut self, limit: usize) -> (done: bool)
        requires
            old(self)@.inv(),
        ensures
            exists|sites: Seq<Field>|
                sites.len() <= limit && old(self)@.rewrite_path(sites) && final(self)@ == old(
                    self,
                )@.rewrites(sites) && (!done ==> sites.len() == limit),
            done ==> final(self)@.normal(),
            final(self)@.inv(),
    {
        let ghost sites: Seq<Field> = seq![];
        let mut taken: usize = 0;
        while taken < limit
            invariant
                taken <= limit,
                sites.len() == taken,
                self@.inv(),
                old(self)@.rewrite_path(sites),
                self@ == old(self)@.rewrites(sites),
            decreases limit - taken,
        {
            let redexes = self.collect_redexes();
            match choose_site(&redexes) {
                None => {
                    return true;
                },
                Some(site) => {
                    proof {
                        lemma_path_more(old(self)@, sites, site);
                        let i = choose|i: int| 0 <= i < redexes@.len() && redexes@[i] == site;
                        assert(self@.is_redex(redexes@[i]));
                        sites = sites.push(site);
                    }
                    self.reduce_redex(site);
                    taken += 1;
                },
            }
        }
        false
    }
}

/// `m` steps and then `n` steps are `m + n` steps.
pub proof fn lemma_steps_add(g: Net, m: nat, n: nat)
    ensures
        g.steps(m).steps(n) == g.steps(m + n),
    decreases m,
{
    if m > 0 {
        lemma_steps_add(g.step(), (m - 1) as nat, n);
    }
}

} // verus!
