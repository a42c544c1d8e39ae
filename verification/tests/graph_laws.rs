use affine_vm::builder::BuildError;
use affine_vm::graph::TermGraph;
use affine_vm::intern::{InternStatic, Interner};
use affine_vm::node::{Binder, Field, FieldRef, Node, NodeRef, Tag};
use affine_vm::parse::parse_text;
use affine_vm::syntax::Term;

fn build(text: &str) -> TermGraph {
    let mut pool = Interner::new();
    let term = parse_text(text.as_bytes(), &mut pool).unwrap();
    TermGraph::build(&term).unwrap()
}

fn build_error(text: &str) -> (BuildError, Interner) {
    let mut pool = Interner::new();
    let term = parse_text(text.as_bytes(), &mut pool).unwrap();
    match TermGraph::build(&term) {
        Ok(_) => panic!("{} has a graph", text),
        Err(e) => (e, pool),
    }
}

/// The subterm fields and the binder slots of the node that `ptr` refers to.
fn parts(graph: &TermGraph, ptr: NodeRef) -> (Vec<Field>, Vec<Binder>) {
    let n = ptr.ptr().unwrap();
    match graph.node(n) {
        Node::Lam(_) => (vec![Field::LamE(n)], vec![Binder::LamX(n)]),
        Node::App(_) => (vec![Field::AppE1(n), Field::AppE2(n)], vec![]),
        Node::Sup(_) => (vec![Field::SupE1(n), Field::SupE2(n)], vec![]),
        Node::Dup(_) => (vec![Field::DupE(n)], vec![Binder::DupA(n), Binder::DupB(n)]),
        Node::Free => panic!("a walk reached an empty cell"),
    }
}

/// Back-pointer symmetry, affinity and the liveness of every cell, checked
/// on the graph as it is.
fn assert_links(graph: &TermGraph) {
    let nodes = graph.nodes();
    let mut fields = vec![Field::Root];
    let mut binders = Vec::new();
    for ptr in &nodes {
        let (fs, bs) = parts(graph, *ptr);
        fields.extend(fs);
        binders.extend(bs);
    }
    // a used slot points at a field that holds its marker
    for b in &binders {
        if let FieldRef::VarUsePtr(f) = graph.slot(*b) {
            assert!(fields.contains(&f), "{:?} points outside the graph", b);
            assert_eq!(graph.read(f), b.to_marker());
        }
    }
    // a field that holds a marker is the field that the slot points at
    let mut markers = Vec::new();
    let mut children = Vec::new();
    for f in &fields {
        let v = graph.read(*f);
        if let Some(b) = v.to_binder() {
            assert_eq!(graph.slot(b), FieldRef::VarUsePtr(*f));
            assert!(!markers.contains(&v), "{:?} occurs twice", v);
            markers.push(v);
        } else if v != NodeRef::UnboundVar {
            assert!(!children.contains(&v), "{:?} has two owners", v);
            children.push(v);
        }
    }
    // a dup binds a variable that occurs
    for ptr in &nodes {
        if ptr.tag() == Tag::DupPtr {
            let dup = graph.dup_read(*ptr);
            assert!(dup.a != FieldRef::UnusedVar || dup.b != FieldRef::UnusedVar);
        }
    }
    // every cell that holds a node is reached from the root
    let mut live = 0;
    for n in 0..graph.cells() {
        if graph.node(n) != Node::Free {
            live += 1;
        }
    }
    assert_eq!(live, nodes.len());
    assert_eq!(graph.scratch_len(), 0);
}

/// The graph with its cells numbered in the order of the walk, so that two
/// graphs of the same shape give the same value.
fn shape(graph: &TermGraph) -> Vec<String> {
    let nodes = graph.nodes();
    let place = |n: usize| {
        nodes
            .iter()
            .position(|p| p.ptr() == Some(n))
            .unwrap()
    };
    let show = |v: NodeRef| match v.ptr() {
        None => format!("{:?}", v.tag()),
        Some(n) => format!("{:?}({})", v.tag(), place(n)),
    };
    let mut out = vec![show(graph.root())];
    for ptr in &nodes {
        let (fs, _) = parts(graph, *ptr);
        let label = match graph.node(ptr.ptr().unwrap()) {
            Node::Sup(s) => format!("#{}", s.l),
            Node::Dup(d) => format!("#{}", d.l),
            _ => String::new(),
        };
        let kids: Vec<String> = fs.iter().map(|f| show(graph.read(*f))).collect();
        out.push(format!("{:?}{} {}", ptr.tag(), label, kids.join(" ")));
    }
    out
}

fn tags(graph: &TermGraph) -> Vec<Tag> {
    graph.nodes().iter().map(|p| p.tag()).collect()
}

#[test]
fn test_scenario_identity_applied() {
    let mut graph = build("((λx x) y)");
    assert_links(&graph);
    assert!(graph.reduce_det(100));
    assert_links(&graph);
    assert_eq!(graph.root(), NodeRef::UnboundVar);
    assert_eq!(tags(&graph), vec![]);
}

#[test]
fn test_scenario_under_a_binder() {
    let mut graph = build("(λy ((λx x) y))");
    assert!(graph.reduce_det(100));
    assert_links(&graph);
    assert_eq!(shape(&graph), shape(&build("(λy y)")));
}

#[test]
fn test_scenario_app_sup_keeps_free_variables() {
    let mut graph = build("(#0{x0 x1} y)");
    assert!(graph.reduce_det(100));
    assert_links(&graph);
    assert_eq!(tags(&graph), vec![Tag::SupPtr, Tag::AppPtr, Tag::AppPtr, Tag::DupPtr]);
    assert_eq!(
        shape(&graph),
        shape(&build("dup #0{y0 y1} = y; #0{(x0 y0) (x1 y1)}"))
    );
}

#[test]
fn test_scenario_app_sup_under_binders() {
    let mut graph = build("(λx λy λz (#0{x y} z))");
    assert!(graph.reduce_det(100));
    assert_links(&graph);
    assert_eq!(
        shape(&graph),
        shape(&build("λx λy λz (dup #0{z0 z1} = z; #0{(x z0) (y z1)})"))
    );
}

#[test]
fn test_scenario_dup_lam_with_unused_binder() {
    let mut graph = build("(λy (dup #0{a b} = (λx y); #0{a b}))");
    assert!(graph.reduce_det(100));
    assert_links(&graph);
    assert_eq!(
        shape(&graph),
        shape(&build("(λy dup #0{c d} = y; #0{(λx1 c) (λx2 d)})"))
    );
}

#[test]
fn test_scenario_dup_sup_same_label() {
    let mut graph = build("(λx λy (dup #0{a b} = #0{x y}; (a b)))");
    let before = graph.cells();
    assert!(graph.reduce_det(100));
    assert_links(&graph);
    assert_eq!(shape(&graph), shape(&build("(λx λy (x y))")));
    // nothing was allocated
    assert_eq!(graph.cells(), before);
}

#[test]
fn test_links_hold_after_every_step() {
    let texts = [
        "(λx λy (dup #0{a b} = #1{x y}; (a b)))",
        "((λf λx (f x)) (λy y))",
        "(dup #1{a b} = (λx (x z)); (a (b w)))",
        "((λx λy x) u v)",
        "(let id = (λx x); (id (λy y)))",
        "(dup #2{p q} = #3{(λx x) (λy y)}; ((p u) (q v)))",
    ];
    for text in texts {
        let mut graph = build(text);
        assert_links(&graph);
        let mut steps = 0;
        while graph.naive_reduce_step() {
            assert_links(&graph);
            steps += 1;
            assert!(steps < 1000, "{} does not stop", text);
        }
        assert!(graph.collect_redexes().is_empty());
    }
}

#[test]
fn test_both_policies_reach_the_same_normal_form() {
    let texts = [
        "((λf λx (f x)) (λy y))",
        "(λx λy (dup #0{a b} = #1{x y}; (a b)))",
        "(((λx x) (λy y)) ((λz z) (λw w)))",
        "(dup #2{p q} = #3{(λx x) (λy y)}; ((p (λu u)) (q (λv v))))",
        "#0{((λx x) (λa a)) ((λy y) (λb b))}",
    ];
    for text in texts {
        let mut first = build(text);
        assert!(first.reduce_det(1000));
        for _ in 0..20 {
            let mut random = build(text);
            assert!(random.naive_random_order_reduce(1000));
            assert_links(&random);
            assert_eq!(shape(&random), shape(&first), "{}", text);
        }
    }
}

#[test]
fn test_reduction_stops_at_the_limit() {
    let mut graph = build("(((λx x) (λy y)) ((λz z) (λw w)))");
    assert_eq!(graph.collect_redexes().len(), 2);
    assert!(!graph.reduce_det(1));
    assert_eq!(graph.collect_redexes().len(), 1);
    assert!(!graph.naive_random_order_reduce(0));
    assert!(!graph.naive_random_order_reduce(1));
    assert!(graph.naive_random_order_reduce(5));
    assert!(!graph.naive_reduce_step());
}

#[test]
fn test_redexes_are_found_depth_first() {
    // the walk looks at the argument of an application before its function
    let graph = build("(((λx x) a) ((λy y) b))");
    let sites = graph.collect_redexes();
    let root_app = graph.root().ptr().unwrap();
    assert_eq!(sites, vec![Field::AppE2(root_app), Field::AppE1(root_app)]);
}

#[test]
fn test_non_affine_use_is_refused() {
    let (e, mut pool) = build_error("(λx (x x))");
    assert_eq!(e, BuildError::NonAffineUse("x".intern_static(&mut pool)));
    let (e, mut pool) = build_error("(dup #0{a b} = z; (a (b a)))");
    assert_eq!(e, BuildError::NonAffineUse("a".intern_static(&mut pool)));
    let (e, mut pool) = build_error("(let v = z; #1{v v})");
    assert_eq!(e, BuildError::NonAffineUse("v".intern_static(&mut pool)));
}

#[test]
fn test_dup_without_use_is_refused() {
    let (e, _) = build_error("(dup #0{a b} = z; w)");
    assert_eq!(e, BuildError::DupBothDead);
    // the variables of a dup are not in scope in the term it splits
    let (e, _) = build_error("(dup #0{a b} = (a b); w)");
    assert_eq!(e, BuildError::DupBothDead);
}

#[test]
fn test_dup_with_one_name_is_refused() {
    let (e, _) = build_error("(dup #0{a a} = z; a)");
    assert_eq!(e, BuildError::DupSameName);
}

#[test]
fn test_shadowing_binds_the_innermost() {
    // the outer x is unused, the inner one is used once
    let graph = build("(λx (λx x))");
    assert_links(&graph);
    let nodes = graph.nodes();
    let outer = graph.lam_read(nodes[0]);
    let inner = graph.lam_read(nodes[1]);
    assert_eq!(outer.x, FieldRef::UnusedVar);
    assert_eq!(inner.x, nodes[1].lam_e_var_use_ptr());
    assert_eq!(inner.e, nodes[1].lam_bound_var());
}

#[test]
fn test_unbound_variables_are_built_and_kept() {
    let mut graph = build("((λx (x free1)) free2)");
    assert_links(&graph);
    assert!(graph.reduce_det(100));
    assert_links(&graph);
    let nodes = graph.nodes();
    assert_eq!(tags(&graph), vec![Tag::AppPtr]);
    let app = graph.app_read(nodes[0]);
    assert_eq!(app.e1, NodeRef::UnboundVar);
    assert_eq!(app.e2, NodeRef::UnboundVar);
}

#[test]
fn test_let_is_sugar_for_an_applied_lambda() {
    let sugar = build("(let x = (f a); (g x))");
    let plain = build("((λx (g x)) (f a))");
    assert_eq!(shape(&sugar), shape(&plain));
    // the variable of a let is not in scope in the term it names
    let graph = build("(let x = x; x)");
    let app = graph.app_read(graph.root());
    assert_eq!(app.e2, NodeRef::UnboundVar);
}

#[test]
fn test_discarded_subterm_is_freed() {
    // the argument is dropped with everything in it, and the variable y of
    // the outer lambda, which occurred in it, becomes unused
    let mut graph = build("(λy ((λx z) (λa (a (y #0{b c})))))");
    assert!(graph.naive_reduce_step());
    assert_links(&graph);
    assert_eq!(tags(&graph), vec![Tag::LamPtr]);
    let lam = graph.lam_read(graph.root());
    assert_eq!(lam.x, FieldRef::UnusedVar);
    assert_eq!(lam.e, NodeRef::UnboundVar);
}

#[test]
fn test_discarding_the_last_use_frees_the_dup() {
    // b is the only use of the dup; dropping it drops the dup and what it
    // splits, and x with it
    let mut graph = build("(λx (dup #0{a b} = (x w); ((λu v) b)))");
    assert_eq!(tags(&graph), vec![Tag::LamPtr, Tag::AppPtr, Tag::LamPtr, Tag::DupPtr, Tag::AppPtr]);
    assert!(graph.naive_reduce_step());
    assert_links(&graph);
    assert_eq!(tags(&graph), vec![Tag::LamPtr]);
    assert_eq!(graph.lam_read(graph.root()).x, FieldRef::UnusedVar);
}

#[test]
fn test_freed_cells_are_taken_again() {
    let mut graph = build("((λx x) (#0{a b} c))");
    let cells = graph.cells();
    // AppLam frees two cells, AppSup takes four
    assert!(graph.reduce_det(100));
    assert_links(&graph);
    assert_eq!(graph.nodes().len(), 4);
    assert_eq!(graph.cells(), cells + 2);
}

#[test]
fn test_dup_lam_allocates_for_live_outputs_only() {
    // a, b and x all occur: two lambdas, a sup and a dup
    let mut graph = build("(dup #0{a b} = (λx x); (a b))");
    let live = graph.nodes().len();
    assert!(graph.naive_reduce_step());
    assert_links(&graph);
    assert_eq!(graph.nodes().len(), live - 2 + 4);
    // only b occurs: one lambda and a dup
    let mut graph = build("(dup #0{a b} = (λx y); b)");
    let live = graph.nodes().len();
    assert!(graph.naive_reduce_step());
    assert_links(&graph);
    assert_eq!(graph.nodes().len(), live - 2 + 2);
}

#[test]
fn test_term_graph_of_a_variable() {
    let mut pool = Interner::new();
    let graph = TermGraph::build(&Term::Var("x".intern_static(&mut pool))).unwrap();
    assert_eq!(graph.root(), NodeRef::UnboundVar);
    assert_eq!(graph.cells(), 0);
    assert!(graph.nodes().is_empty());
    assert!(graph.collect_redexes().is_empty());
    let empty = TermGraph::new();
    assert_eq!(empty.root(), NodeRef::UnboundVar);
}

/// A small generator of numbers, the same on every run.
struct Dice(u64);

impl Dice {
    fn roll(&mut self, sides: u64) -> u64 {
        self.0 = self
            .0
            .wrapping_mul(6364136223846793005)
            .wrapping_add(1442695040888963407);
        (self.0 >> 33) % sides
    }
}

fn fresh(next: &mut u64, prefix: &str) -> String {
    *next += 1;
    format!("{}{}", prefix, *next)
}

/// A term of about `size` nodes in which each of `vars` occurs once at
/// most, as text.
fn random_term(dice: &mut Dice, size: u64, vars: &mut Vec<String>, next: &mut u64) -> String {
    if size == 0 {
        return if !vars.is_empty() && dice.roll(4) != 0 {
            let i = dice.roll(vars.len() as u64) as usize;
            vars.swap_remove(i)
        } else {
            format!("free{}", dice.roll(3))
        };
    }
    match dice.roll(5) {
        0 => {
            let x = fresh(next, "x");
            vars.push(x.clone());
            let body = random_term(dice, size - 1, vars, next);
            vars.retain(|v| *v != x);
            format!("(λ{} {})", x, body)
        }
        1 | 2 => {
            let left = dice.roll(size);
            let mut mine: Vec<String> = Vec::new();
            let mut i = 0;
            while i < vars.len() {
                if dice.roll(2) == 0 {
                    mine.push(vars.swap_remove(i));
                } else {
                    i += 1;
                }
            }
            let f = random_term(dice, left, &mut mine, next);
            let a = random_term(dice, size - 1 - left, vars, next);
            format!("({} {})", f, a)
        }
        3 => {
            let left = dice.roll(size);
            let mut mine: Vec<String> = Vec::new();
            let mut i = 0;
            while i < vars.len() {
                if dice.roll(2) == 0 {
                    mine.push(vars.swap_remove(i));
                } else {
                    i += 1;
                }
            }
            let a = random_term(dice, left, &mut mine, next);
            let b = random_term(dice, size - 1 - left, vars, next);
            format!("#{}{{{} {}}}", dice.roll(2), a, b)
        }
        _ => {
            let left = dice.roll(size);
            let mut mine: Vec<String> = Vec::new();
            let mut i = 0;
            while i < vars.len() {
                if dice.roll(2) == 0 {
                    mine.push(vars.swap_remove(i));
                } else {
                    i += 1;
                }
            }
            let e = random_term(dice, left, &mut mine, next);
            let a = fresh(next, "a");
            let b = fresh(next, "b");
            vars.push(a.clone());
            vars.push(b.clone());
            let body = random_term(dice, size - 1 - left, vars, next);
            vars.retain(|v| *v != a && *v != b);
            format!("(dup #{}{{{} {}}} = {}; {})", dice.roll(2), a, b, e, body)
        }
    }
}

#[test]
fn test_many_terms_keep_their_links_and_agree() {
    let mut dice = Dice(2024);
    let mut built = 0;
    let mut reduced = 0;
    for round in 0..400 {
        let mut next = 0;
        let text = random_term(&mut dice, 2 + round % 9, &mut Vec::new(), &mut next);
        let mut pool = Interner::new();
        let term = parse_text(text.as_bytes(), &mut pool).unwrap();
        assert_eq!(term.to_string(&pool), text);
        let mut first = match TermGraph::build(&term) {
            Ok(graph) => graph,
            Err(e) => {
                assert_eq!(e, BuildError::DupBothDead, "{}", text);
                continue;
            }
        };
        built += 1;
        assert_links(&first);
        let mut steps = 0;
        while steps < 300 && first.naive_reduce_step() {
            assert_links(&first);
            steps += 1;
        }
        if steps == 300 {
            continue;
        }
        reduced += 1;
        let mut random = TermGraph::build(&term).unwrap();
        assert!(random.naive_random_order_reduce(100000), "{}", text);
        assert_links(&random);
        assert_eq!(shape(&random), shape(&first), "{}", text);
    }
    assert!(built > 100);
    assert!(reduced > 100);
}
