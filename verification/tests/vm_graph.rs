use affine_vm::graph::TermGraph;
use affine_vm::intern::{InternStatic, Interner};
use affine_vm::node::{FieldRef, Node, NodeRef, Tag};
use affine_vm::syntax::Term;

/// Each node of the graph with the reference to it, in breadth-first order.
fn dump(graph: &TermGraph) -> Vec<(NodeRef, Node)> {
    let mut out = Vec::new();
    for ptr in graph.nodes() {
        out.push((ptr, graph.node(ptr.ptr().unwrap())));
    }
    out
}

#[test]
fn empty_test() {
    // Empty test used as a baseline for memory leak detection.
}

#[test]
fn test_app_lam_from_term() {
    let mut pool = Interner::new();
    // term = ((λx. x) y)
    let term = Term::App(
        Box::new(Term::Lam("x".intern_static(&mut pool), Box::new(Term::Var("x".intern_static(&mut pool))))),
        Box::new(Term::Var("y".intern_static(&mut pool))),
    );
    let term_graph = TermGraph::build(&term).unwrap();
    {
        assert_eq!(term_graph.root().tag(), Tag::AppPtr);
        let nodes = term_graph.nodes();
        assert_eq!(nodes.len(), 2);
        assert_eq!(nodes[0].tag(), Tag::AppPtr);
        assert_eq!(nodes[1].tag(), Tag::LamPtr);
        let app_ptr = nodes[0];
        let lam_ptr = nodes[1];
        let app = term_graph.app_read(app_ptr);
        let lam = term_graph.lam_read(lam_ptr);
        assert_eq!(app.e1, lam_ptr);
        assert_eq!(app.e2.tag(), Tag::UnboundVar);
        assert_eq!(lam.x, lam_ptr.lam_e_var_use_ptr());
        assert_eq!(lam.e, lam_ptr.lam_bound_var());
    }
}

#[test]
fn test_app_sup_from_term() {
    let mut pool = Interner::new();
    // term = (#0{x0 x1} y)
    let term = Term::App(
        Box::new(Term::Sup(
            0,
            Box::new(Term::Var("x0".intern_static(&mut pool))),
            Box::new(Term::Var("x1".intern_static(&mut pool))),
        )),
        Box::new(Term::Var("y".intern_static(&mut pool))),
    );
    let term_graph = TermGraph::build(&term).unwrap();
    {
        assert_eq!(term_graph.root().tag(), Tag::AppPtr);
        let nodes = term_graph.nodes();
        assert_eq!(nodes.len(), 2);
        assert_eq!(nodes[0].tag(), Tag::AppPtr);
        assert_eq!(nodes[1].tag(), Tag::SupPtr);
        let app_ptr = nodes[0];
        let sup_ptr = nodes[1];
        let app = term_graph.app_read(app_ptr);
        let sup = term_graph.sup_read(sup_ptr);
        assert_eq!(app.e1, sup_ptr);
        assert_eq!(app.e2.tag(), Tag::UnboundVar);
        assert_eq!(sup.l, 0);
        assert_eq!(sup.e1.tag(), Tag::UnboundVar);
        assert_eq!(sup.e2.tag(), Tag::UnboundVar);
    }
}

#[test]
fn test_app_dup_app_sup_from_term() {
    let mut pool = Interner::new();
    // term = ((dup #0{v1 v2} = v0; #0{v1 v2}) v3)
    let term = Term::App(
        Box::new(Term::Dup(
            0,
            "v1".intern_static(&mut pool),
            "v2".intern_static(&mut pool),
            Box::new(Term::Var("v0".intern_static(&mut pool))),
            Box::new(Term::Sup(
                0,
                Box::new(Term::Var("v1".intern_static(&mut pool))),
                Box::new(Term::Var("v2".intern_static(&mut pool))),
            )),
        )),
        Box::new(Term::Var("v3".intern_static(&mut pool))),
    );
    let term_graph = TermGraph::build(&term).unwrap();
    {
        assert_eq!(term_graph.root().tag(), Tag::AppPtr);
        let nodes = term_graph.nodes();
        assert_eq!(nodes.len(), 3);
        assert_eq!(nodes[0].tag(), Tag::AppPtr);
        assert_eq!(nodes[1].tag(), Tag::SupPtr);
        assert_eq!(nodes[2].tag(), Tag::DupPtr);
        let app_ptr = nodes[0];
        let sup_ptr = nodes[1];
        let dup_ptr = nodes[2];
        let app = term_graph.app_read(app_ptr);
        let sup = term_graph.sup_read(sup_ptr);
        let dup = term_graph.dup_read(dup_ptr);
        assert_eq!(app.e1, sup_ptr);
        assert_eq!(app.e2.tag(), Tag::UnboundVar);
        assert_eq!(sup.l, 0);
        assert_eq!(sup.e1, dup_ptr.dup_a_bound_var());
        assert_eq!(sup.e2, dup_ptr.dup_b_bound_var());
        assert_eq!(dup.l, 0);
        assert_eq!(dup.a, sup_ptr.sup_e1_var_use_ptr());
        assert_eq!(dup.b, sup_ptr.sup_e2_var_use_ptr());
        assert_eq!(dup.e, NodeRef::new_unbound_var());
    }
}

#[test]
fn test_dup_lam_dup_sup_from_term() {
    let mut pool = Interner::new();
    // term = (dup #0{v1 v2} = (λv0 v0); #0{v1 v2})
    let term = Term::Dup(
        0,
        "v1".intern_static(&mut pool),
        "v2".intern_static(&mut pool),
        Box::new(Term::Lam("v0".intern_static(&mut pool), Box::new(Term::Var("v0".intern_static(&mut pool))))),
        Box::new(Term::Sup(
            0,
            Box::new(Term::Var("v1".intern_static(&mut pool))),
            Box::new(Term::Var("v2".intern_static(&mut pool))),
        )),
    );
    let term_graph = TermGraph::build(&term).unwrap();
    {
        assert_eq!(term_graph.root().tag(), Tag::SupPtr);
        let nodes = term_graph.nodes();
        assert_eq!(nodes.len(), 3);
        assert_eq!(nodes[0].tag(), Tag::SupPtr);
        assert_eq!(nodes[1].tag(), Tag::DupPtr);
        assert_eq!(nodes[2].tag(), Tag::LamPtr);
        let sup_ptr = nodes[0];
        let dup_ptr = nodes[1];
        let lam_ptr = nodes[2];
        let sup = term_graph.sup_read(sup_ptr);
        let dup = term_graph.dup_read(dup_ptr);
        let lam = term_graph.lam_read(lam_ptr);
        assert_eq!(sup.l, 0);
        assert_eq!(sup.e1, dup_ptr.dup_a_bound_var());
        assert_eq!(sup.e2, dup_ptr.dup_b_bound_var());
        assert_eq!(dup.l, 0);
        assert_eq!(dup.a, sup_ptr.sup_e1_var_use_ptr());
        assert_eq!(dup.b, sup_ptr.sup_e2_var_use_ptr());
        assert_eq!(dup.e, lam_ptr);
        assert_eq!(lam.x, lam_ptr.lam_e_var_use_ptr());
        assert_eq!(lam.e, lam_ptr.lam_bound_var());
    }
}

#[test]
fn test_dup_dup_dup_sup_from_term() {
    let mut pool = Interner::new();
    // term = (dup #0{v1 v2} = (let #1{v3 v4} = v0; #1{v3 v4}); #0{v1 v2})
    let term = Term::Dup(
        0,
        "v1".intern_static(&mut pool),
        "v2".intern_static(&mut pool),
        Box::new(Term::Dup(
            1,
            "v3".intern_static(&mut pool),
            "v4".intern_static(&mut pool),
            Box::new(Term::Var("v0".intern_static(&mut pool))),
            Box::new(Term::Sup(
                1,
                Box::new(Term::Var("v3".intern_static(&mut pool))),
                Box::new(Term::Var("v4".intern_static(&mut pool))),
            )),
        )),
        Box::new(Term::Sup(
            0,
            Box::new(Term::Var("v1".intern_static(&mut pool))),
            Box::new(Term::Var("v2".intern_static(&mut pool))),
        )),
    );
    let term_graph = TermGraph::build(&term).unwrap();
    {
        assert_eq!(term_graph.root().tag(), Tag::SupPtr);
        let nodes = term_graph.nodes();
        assert_eq!(nodes.len(), 4);
        assert_eq!(nodes[0].tag(), Tag::SupPtr);
        assert_eq!(nodes[1].tag(), Tag::DupPtr);
        assert_eq!(nodes[2].tag(), Tag::SupPtr);
        assert_eq!(nodes[3].tag(), Tag::DupPtr);
        let sup_v1_v2_ptr = nodes[0];
        let dup_v1_v2_ptr = nodes[1];
        let sup_v3_v4_ptr = nodes[2];
        let dup_v3_v4_ptr2 = nodes[3];
        let sup_v1_v2 = term_graph.sup_read(sup_v1_v2_ptr);
        let dup_v1_v2 = term_graph.dup_read(dup_v1_v2_ptr);
        let sup_v3_v4 = term_graph.sup_read(sup_v3_v4_ptr);
        let dup_v3_v4 = term_graph.dup_read(dup_v3_v4_ptr2);
        assert_eq!(sup_v1_v2.l, 0);
        assert_eq!(sup_v1_v2.e1, dup_v1_v2_ptr.dup_a_bound_var());
        assert_eq!(sup_v1_v2.e2, dup_v1_v2_ptr.dup_b_bound_var());
        assert_eq!(dup_v1_v2.l, 0);
        assert_eq!(dup_v1_v2.a, sup_v1_v2_ptr.sup_e1_var_use_ptr());
        assert_eq!(dup_v1_v2.b, sup_v1_v2_ptr.sup_e2_var_use_ptr());
        assert_eq!(dup_v1_v2.e, sup_v3_v4_ptr);
        assert_eq!(sup_v3_v4.l, 1);
        assert_eq!(sup_v3_v4.e1, dup_v3_v4_ptr2.dup_a_bound_var());
        assert_eq!(sup_v3_v4.e2, dup_v3_v4_ptr2.dup_b_bound_var());
        assert_eq!(dup_v3_v4.l, 1);
        assert_eq!(dup_v3_v4.a, sup_v3_v4_ptr.sup_e1_var_use_ptr());
        assert_eq!(dup_v3_v4.b, sup_v3_v4_ptr.sup_e2_var_use_ptr());
        assert_eq!(dup_v3_v4.e, NodeRef::new_unbound_var());
    }
}

#[test]
fn test_app_lam_dup_sup_lam_from_term() {
    let mut pool = Interner::new();
    // term = ((λx dup #0{x0 x1} = x; #0{x0 x1}) (λy. y))
    let term = Term::App(
        Box::new(Term::Lam(
            "x".intern_static(&mut pool),
            Box::new(Term::Dup(
                0,
                "x0".intern_static(&mut pool),
                "x1".intern_static(&mut pool),
                Box::new(Term::Var("x".intern_static(&mut pool))),
                Box::new(Term::Sup(
                    0,
                    Box::new(Term::Var("x0".intern_static(&mut pool))),
                    Box::new(Term::Var("x1".intern_static(&mut pool))),
                )),
            )),
        )),
        Box::new(Term::Lam("y".intern_static(&mut pool), Box::new(Term::Var("y".intern_static(&mut pool))))),
    );
    let term_graph = TermGraph::build(&term).unwrap();
    {
        assert_eq!(term_graph.root().tag(), Tag::AppPtr);
        let nodes = term_graph.nodes();
        assert_eq!(nodes.len(), 5);
        assert_eq!(nodes[0].tag(), Tag::AppPtr);
        assert_eq!(nodes[1].tag(), Tag::LamPtr);
        assert_eq!(nodes[2].tag(), Tag::LamPtr);
        assert_eq!(nodes[3].tag(), Tag::SupPtr);
        assert_eq!(nodes[4].tag(), Tag::DupPtr);
        let app_ptr = nodes[0];
        let lam_x_ptr = nodes[1];
        let lam_y_ptr = nodes[2];
        let sup_ptr = nodes[3];
        let dup_ptr = nodes[4];
        let app = term_graph.app_read(app_ptr);
        let lam_x = term_graph.lam_read(lam_x_ptr);
        let lam_y = term_graph.lam_read(lam_y_ptr);
        let sup = term_graph.sup_read(sup_ptr);
        let dup = term_graph.dup_read(dup_ptr);
        assert_eq!(app.e1, lam_x_ptr);
        assert_eq!(app.e2, lam_y_ptr);
        assert_eq!(lam_x.x, dup_ptr.dup_e_var_use_ptr());
        assert_eq!(lam_x.e, sup_ptr);
        assert_eq!(lam_y.x, lam_y_ptr.lam_e_var_use_ptr());
        assert_eq!(lam_y.e, lam_y_ptr.lam_bound_var());
        assert_eq!(sup.l, 0);
        assert_eq!(sup.e1, dup_ptr.dup_a_bound_var());
        assert_eq!(sup.e2, dup_ptr.dup_b_bound_var());
        assert_eq!(dup.l, 0);
        assert_eq!(dup.a, sup_ptr.sup_e1_var_use_ptr());
        assert_eq!(dup.b, sup_ptr.sup_e2_var_use_ptr());
        assert_eq!(dup.e, lam_x_ptr.lam_bound_var());
    }
}

#[test]
fn test_app_lam_var_reduce() {
    let mut pool = Interner::new();
    // ((λx. x) y)
    // ----------- AppLam
    // y
    let term = Term::App(
        Box::new(Term::Lam("x".intern_static(&mut pool), Box::new(Term::Var("x".intern_static(&mut pool))))),
        Box::new(Term::Var("y".intern_static(&mut pool))),
    );
    let mut term_graph = TermGraph::build(&term).unwrap();

    println!("Before:\n{:?}", dump(&term_graph));
    term_graph.naive_random_order_reduce(1000);
    println!("After:\n{:?}", dump(&term_graph));

    {
        assert_eq!(term_graph.root().tag(), Tag::UnboundVar);
        let nodes = term_graph.nodes();
        assert_eq!(nodes.len(), 0);
    }
}

#[test]
fn test_lam_app_lam_reduce() {
    let mut pool = Interner::new();
    // λy ((λx x) y)
    // ------------- AppLam
    // λy y
    let term = Term::Lam(
        "y".intern_static(&mut pool),
        Box::new(Term::App(
            Box::new(Term::Lam("x".intern_static(&mut pool), Box::new(Term::Var("x".intern_static(&mut pool))))),
            Box::new(Term::Var("y".intern_static(&mut pool))),
        )),
    );
    let mut term_graph = TermGraph::build(&term).unwrap();

    println!("Before:\n{:?}", dump(&term_graph));
    term_graph.naive_random_order_reduce(1000);
    println!("After:\n{:?}", dump(&term_graph));

    {
        assert_eq!(term_graph.root().tag(), Tag::LamPtr);
        let nodes = term_graph.nodes();
        assert_eq!(nodes.len(), 1);
        assert_eq!(nodes[0].tag(), Tag::LamPtr);
        let lam_ptr = nodes[0];
        let lam = term_graph.lam_read(lam_ptr);
        assert_eq!(lam.x, lam_ptr.lam_e_var_use_ptr());
        assert_eq!(lam.e, lam_ptr.lam_bound_var());
    }
}

#[test]
fn test_app_sup_reduce() {
    let mut pool = Interner::new();
    // #0{x0 x1} y
    // ------------------- AppSup
    // dup #0{y0 y1} = y
    // #0{(x0 y0) (x1 y1)}
    let term = Term::App(
        Box::new(Term::Sup(
            0,
            Box::new(Term::Var("x0".intern_static(&mut pool))),
            Box::new(Term::Var("x1".intern_static(&mut pool))),
        )),
        Box::new(Term::Var("y".intern_static(&mut pool))),
    );
    let mut term_graph = TermGraph::build(&term).unwrap();

    println!("Before:\n{:?}", dump(&term_graph));
    term_graph.naive_random_order_reduce(1000);
    println!("After:\n{:?}", dump(&term_graph));

    {
        assert_eq!(term_graph.root().tag(), Tag::SupPtr);
        let nodes = term_graph.nodes();
        assert_eq!(nodes.len(), 4);
        assert_eq!(nodes[0].tag(), Tag::SupPtr);
        assert_eq!(nodes[1].tag(), Tag::AppPtr);
        assert_eq!(nodes[2].tag(), Tag::AppPtr);
        assert_eq!(nodes[3].tag(), Tag::DupPtr);
        let sup_ptr = nodes[0];
        let app_x0_y0_ptr = nodes[1];
        let app_x1_y1_ptr = nodes[2];
        let dup_ptr = nodes[3];
        let sup = term_graph.sup_read(sup_ptr);
        let app_x0_y0 = term_graph.app_read(app_x0_y0_ptr);
        let app_x1_y1 = term_graph.app_read(app_x1_y1_ptr);
        let dup = term_graph.dup_read(dup_ptr);
        assert_eq!(sup.l, 0);
        assert_eq!(sup.e1, app_x0_y0_ptr);
        assert_eq!(sup.e2, app_x1_y1_ptr);
        assert_eq!(app_x0_y0.e1, NodeRef::new_unbound_var());
        assert_eq!(app_x0_y0.e2, dup_ptr.dup_a_bound_var());
        assert_eq!(app_x1_y1.e1, NodeRef::new_unbound_var());
        assert_eq!(app_x1_y1.e2, dup_ptr.dup_b_bound_var());
        assert_eq!(dup.l, 0);
        assert_eq!(dup.a, app_x0_y0_ptr.app_e2_var_use_ptr());
        assert_eq!(dup.b, app_x1_y1_ptr.app_e2_var_use_ptr());
        assert_eq!(dup.e, NodeRef::new_unbound_var());
    }
}

#[test]
fn test_lam_lam_lam_app_sup_reduce() {
    let mut pool = Interner::new();
    // λx λy λz #0{x y} z
    // ------------------- AppSup
    // dup #0{z0 z1} = z
    // λx λy λz #0{(x z0) (y z1)}
    let term = Term::Lam(
        "x".intern_static(&mut pool),
        Box::new(Term::Lam(
            "y".intern_static(&mut pool),
            Box::new(Term::Lam(
                "z".intern_static(&mut pool),
                Box::new(Term::App(
                    Box::new(Term::Sup(
                        0,
                        Box::new(Term::Var("x".intern_static(&mut pool))),
                        Box::new(Term::Var("y".intern_static(&mut pool))),
                    )),
                    Box::new(Term::Var("z".intern_static(&mut pool))),
                )),
            )),
        )),
    );
    let mut term_graph = TermGraph::build(&term).unwrap();

    println!("Before:\n{:?}", dump(&term_graph));
    term_graph.naive_random_order_reduce(1000);
    println!("After:\n{:?}", dump(&term_graph));

    {
        assert_eq!(term_graph.root().tag(), Tag::LamPtr);
        let nodes = term_graph.nodes();
        assert_eq!(nodes.len(), 7);
        assert_eq!(nodes[0].tag(), Tag::LamPtr);
        assert_eq!(nodes[1].tag(), Tag::LamPtr);
        assert_eq!(nodes[2].tag(), Tag::LamPtr);
        assert_eq!(nodes[3].tag(), Tag::SupPtr);
        assert_eq!(nodes[4].tag(), Tag::AppPtr);
        assert_eq!(nodes[5].tag(), Tag::AppPtr);
        assert_eq!(nodes[6].tag(), Tag::DupPtr);
        let lam_x_ptr = nodes[0];
        let lam_y_ptr = nodes[1];
        let lam_z_ptr = nodes[2];
        let sup_ptr = nodes[3];
        let app_x_z0_ptr = nodes[4];
        let app_y_z1_ptr = nodes[5];
        let dup_ptr = nodes[6];
        let lam_x = term_graph.lam_read(lam_x_ptr);
        let lam_y = term_graph.lam_read(lam_y_ptr);
        let lam_z = term_graph.lam_read(lam_z_ptr);
        let sup = term_graph.sup_read(sup_ptr);
        let app_x_z0 = term_graph.app_read(app_x_z0_ptr);
        let app_y_z1 = term_graph.app_read(app_y_z1_ptr);
        let dup = term_graph.dup_read(dup_ptr);
        assert_eq!(lam_x.x, app_x_z0_ptr.app_e1_var_use_ptr());
        assert_eq!(lam_x.e, lam_y_ptr);
        assert_eq!(lam_y.x, app_y_z1_ptr.app_e1_var_use_ptr());
        assert_eq!(lam_y.e, lam_z_ptr);
        assert_eq!(lam_z.e, sup_ptr);
        assert_eq!(sup.l, 0);
        assert_eq!(sup.e1, app_x_z0_ptr);
        assert_eq!(sup.e2, app_y_z1_ptr);
        assert_eq!(app_x_z0.e1, lam_x_ptr.lam_bound_var());
        assert_eq!(app_x_z0.e2, dup_ptr.dup_a_bound_var());
        assert_eq!(app_y_z1.e1, lam_y_ptr.lam_bound_var());
        assert_eq!(app_y_z1.e2, dup_ptr.dup_b_bound_var());
        assert_eq!(dup.l, 0);
        assert_eq!(dup.a, app_x_z0_ptr.app_e2_var_use_ptr());
        assert_eq!(dup.b, app_y_z1_ptr.app_e2_var_use_ptr());
        assert_eq!(dup.e, lam_z_ptr.lam_bound_var());
    }
}

#[test]
fn test_app_dup_app_sup_reduce() {
    let mut pool = Interner::new();
    // dup #0{v1 v2} = v0
    // #0{v1 v2} v3
    // ------------------- AppSup
    // dup #0{v1 v2} = v0
    // dup #0{v4 v5} = v3
    // #0{(v1 v4) (v2 v5)}
    let term = Term::App(
        Box::new(Term::Dup(
            0,
            "v1".intern_static(&mut pool),
            "v2".intern_static(&mut pool),
            Box::new(Term::Var("v0".intern_static(&mut pool))),
            Box::new(Term::Sup(
                0,
                Box::new(Term::Var("v1".intern_static(&mut pool))),
                Box::new(Term::Var("v2".intern_static(&mut pool))),
            )),
        )),
        Box::new(Term::Var("v3".intern_static(&mut pool))),
    );
    let mut term_graph = TermGraph::build(&term).unwrap();

    println!("Before:\n{:?}", dump(&term_graph));
    term_graph.naive_random_order_reduce(1000);
    println!("After:\n{:?}", dump(&term_graph));

    {
        assert_eq!(term_graph.root().tag(), Tag::SupPtr);
        let nodes = term_graph.nodes();
        assert_eq!(nodes.len(), 5);
        assert_eq!(nodes[0].tag(), Tag::SupPtr);
        assert_eq!(nodes[1].tag(), Tag::AppPtr);
        assert_eq!(nodes[2].tag(), Tag::AppPtr);
        assert_eq!(nodes[3].tag(), Tag::DupPtr);
        assert_eq!(nodes[4].tag(), Tag::DupPtr);
        let sup_ptr = nodes[0];
        let app_v1_v4_ptr = nodes[1];
        let app_v2_v5_ptr = nodes[2];
        let dup_v1_v2_ptr = nodes[3];
        let dup_v4_v5_ptr = nodes[4];
        let sup = term_graph.sup_read(sup_ptr);
        let app_v1_v4 = term_graph.app_read(app_v1_v4_ptr);
        let app_v2_v5 = term_graph.app_read(app_v2_v5_ptr);
        let dup_v1_v2 = term_graph.dup_read(dup_v1_v2_ptr);
        let dup_v4_v5 = term_graph.dup_read(dup_v4_v5_ptr);
        assert_eq!(sup.l, 0);
        assert_eq!(sup.e1, app_v1_v4_ptr);
        assert_eq!(sup.e2, app_v2_v5_ptr);
        assert_eq!(app_v1_v4.e1, dup_v1_v2_ptr.dup_a_bound_var());
        assert_eq!(app_v1_v4.e2, dup_v4_v5_ptr.dup_a_bound_var());
        assert_eq!(app_v2_v5.e1, dup_v1_v2_ptr.dup_b_bound_var());
        assert_eq!(app_v2_v5.e2, dup_v4_v5_ptr.dup_b_bound_var());
        assert_eq!(dup_v1_v2.l, 0);
        assert_eq!(dup_v1_v2.a, app_v1_v4_ptr.app_e1_var_use_ptr());
        assert_eq!(dup_v1_v2.b, app_v2_v5_ptr.app_e1_var_use_ptr());
        assert_eq!(dup_v1_v2.e, NodeRef::new_unbound_var());
        assert_eq!(dup_v4_v5.l, 0);
        assert_eq!(dup_v4_v5.a, app_v1_v4_ptr.app_e2_var_use_ptr());
        assert_eq!(dup_v4_v5.b, app_v2_v5_ptr.app_e2_var_use_ptr());
        assert_eq!(dup_v4_v5.e, NodeRef::new_unbound_var());
    }
}

#[test]
fn test_dup_lam_lam_sup() {
    let mut pool = Interner::new();
    // dup #0{a b} = (λx y)
    // λy #0{a b}
    // -------------------- DupLam
    // dup #0{c d} = y
    // λy #0{(λx1 c) (λx2 d)}
    let term = Term::Lam(
        "y".intern_static(&mut pool),
        Box::new(Term::Dup(
            0,
            "a".intern_static(&mut pool),
            "b".intern_static(&mut pool),
            Box::new(Term::Lam("x".intern_static(&mut pool), Box::new(Term::Var("y".intern_static(&mut pool))))),
            Box::new(Term::Sup(
                0,
                Box::new(Term::Var("a".intern_static(&mut pool))),
                Box::new(Term::Var("b".intern_static(&mut pool))),
            )),
        )),
    );
    let mut term_graph = TermGraph::build(&term).unwrap();

    {
        assert_eq!(term_graph.root().tag(), Tag::LamPtr);
        let nodes = term_graph.nodes();
        assert_eq!(nodes.len(), 4);
        assert_eq!(nodes[0].tag(), Tag::LamPtr);
        assert_eq!(nodes[1].tag(), Tag::SupPtr);
        assert_eq!(nodes[2].tag(), Tag::DupPtr);
        assert_eq!(nodes[3].tag(), Tag::LamPtr);
        let lam_y_ptr = nodes[0];
        let sup_ptr = nodes[1];
        let dup_ptr = nodes[2];
        let lam_x_ptr = nodes[3];
        let lam_y = term_graph.lam_read(lam_y_ptr);
        let sup = term_graph.sup_read(sup_ptr);
        let dup = term_graph.dup_read(dup_ptr);
        let lam_x = term_graph.lam_read(lam_x_ptr);
        assert_eq!(lam_y.x, lam_x_ptr.lam_e_var_use_ptr());
        assert_eq!(lam_y.e, sup_ptr);
        assert_eq!(sup.l, 0);
        assert_eq!(sup.e1, dup_ptr.dup_a_bound_var());
        assert_eq!(sup.e2, dup_ptr.dup_b_bound_var());
        assert_eq!(dup.l, 0);
        assert_eq!(dup.a, sup_ptr.sup_e1_var_use_ptr());
        assert_eq!(dup.b, sup_ptr.sup_e2_var_use_ptr());
        assert_eq!(dup.e, lam_x_ptr);
        assert_eq!(lam_x.x, FieldRef::new_unused_var());
        assert_eq!(lam_x.e, lam_y_ptr.lam_bound_var());
    }

    println!("Before:\n{:?}", dump(&term_graph));
    term_graph.naive_random_order_reduce(1000);
    println!("After:\n{:?}", dump(&term_graph));

    {
        assert_eq!(term_graph.root().tag(), Tag::LamPtr);
        let nodes = term_graph.nodes();
        assert_eq!(nodes.len(), 5);
        assert_eq!(nodes[0].tag(), Tag::LamPtr);
        assert_eq!(nodes[1].tag(), Tag::SupPtr);
        assert_eq!(nodes[2].tag(), Tag::LamPtr);
        assert_eq!(nodes[3].tag(), Tag::LamPtr);
        assert_eq!(nodes[4].tag(), Tag::DupPtr);
        let lam_y_ptr = nodes[0];
        let sup_ptr = nodes[1];
        let lam_x1_ptr = nodes[2];
        let lam_x2_ptr = nodes[3];
        let dup_ptr = nodes[4];
        let lam_y = term_graph.lam_read(lam_y_ptr);
        let sup = term_graph.sup_read(sup_ptr);
        let lam_x1 = term_graph.lam_read(lam_x1_ptr);
        let lam_x2 = term_graph.lam_read(lam_x2_ptr);
        let dup = term_graph.dup_read(dup_ptr);
        assert_eq!(lam_y.x, dup_ptr.dup_e_var_use_ptr());
        assert_eq!(lam_y.e, sup_ptr);
        assert_eq!(sup.l, 0);
        assert_eq!(sup.e1, lam_x1_ptr);
        assert_eq!(sup.e2, lam_x2_ptr);
        assert_eq!(lam_x1.x, FieldRef::new_unused_var());
        assert_eq!(lam_x1.e, dup_ptr.dup_a_bound_var());
        assert_eq!(lam_x2.x, FieldRef::new_unused_var());
        assert_eq!(lam_x2.e, dup_ptr.dup_b_bound_var());
        assert_eq!(dup.l, 0);
        assert_eq!(dup.a, lam_x1_ptr.lam_e_var_use_ptr());
        assert_eq!(dup.b, lam_x2_ptr.lam_e_var_use_ptr());
        assert_eq!(dup.e, lam_y_ptr.lam_bound_var());
    }
}

#[test]
fn test_lam_app_dup_lam_app() {
    let mut pool = Interner::new();
    // dup #0{a b} = (λx (x y))
    // λy (a b)
    // --------------------------------- DupLam
    // dup #0{c d} = (#0{x1 x2} y)
    // λy ((λx1 c) (λx2 d))

    let term = Term::Lam(
        "y".intern_static(&mut pool),
        Box::new(Term::Dup(
            0,
            "a".intern_static(&mut pool),
            "b".intern_static(&mut pool),
            Box::new(Term::Lam(
                "x".intern_static(&mut pool),
                Box::new(Term::App(
                    Box::new(Term::Var("x".intern_static(&mut pool))),
                    Box::new(Term::Var("y".intern_static(&mut pool))),
                )),
            )),
            Box::new(Term::App(
                Box::new(Term::Var("a".intern_static(&mut pool))),
                Box::new(Term::Var("b".intern_static(&mut pool))),
            )),
        )),
    );
    let mut term_graph = TermGraph::build(&term).unwrap();
    println!("Step 0:\n{:?}", dump(&term_graph));

    {
        // dup #0{a b} = (λx (x y))
        // λy (a b)
        assert_eq!(term_graph.root().tag(), Tag::LamPtr);
        let nodes = term_graph.nodes();
        assert_eq!(nodes.len(), 5);
        assert_eq!(nodes[0].tag(), Tag::LamPtr);
        assert_eq!(nodes[1].tag(), Tag::AppPtr);
        assert_eq!(nodes[2].tag(), Tag::DupPtr);
        assert_eq!(nodes[3].tag(), Tag::LamPtr);
        assert_eq!(nodes[4].tag(), Tag::AppPtr);
        let lam_y_ptr = nodes[0];
        let app_a_b_ptr = nodes[1];
        let dup_a_b_ptr = nodes[2];
        let lam_x_ptr = nodes[3];
        let app_x_y_ptr = nodes[4];
        let lam_y = term_graph.lam_read(lam_y_ptr);
        let app_a_b = term_graph.app_read(app_a_b_ptr);
        let dup_a_b = term_graph.dup_read(dup_a_b_ptr);
        let lam_x = term_graph.lam_read(lam_x_ptr);
        let app_x_y = term_graph.app_read(app_x_y_ptr);
        assert_eq!(lam_y.x, app_x_y_ptr.app_e2_var_use_ptr());
        assert_eq!(lam_y.e, app_a_b_ptr);
        assert_eq!(app_a_b.e1, dup_a_b_ptr.dup_a_bound_var());
        assert_eq!(app_a_b.e2, dup_a_b_ptr.dup_b_bound_var());
        assert_eq!(dup_a_b.l, 0);
        assert_eq!(dup_a_b.a, app_a_b_ptr.app_e1_var_use_ptr());
        assert_eq!(dup_a_b.b, app_a_b_ptr.app_e2_var_use_ptr());
        assert_eq!(dup_a_b.e, lam_x_ptr);
        assert_eq!(lam_x.x, app_x_y_ptr.app_e1_var_use_ptr());
        assert_eq!(lam_x.e, app_x_y_ptr);
        assert_eq!(app_x_y.e1, lam_x_ptr.lam_bound_var());
        assert_eq!(app_x_y.e2, lam_y_ptr.lam_bound_var());
    }

    assert!(term_graph.naive_reduce_step());
    println!("Step 1:\n{:?}", dump(&term_graph));

    {
        // dup #0{c d} = (#0{x1 x2} y)
        // λy ((λx1 c) (λx2 d))
        assert_eq!(term_graph.root().tag(), Tag::LamPtr);
        let nodes = term_graph.nodes();
        assert_eq!(nodes.len(), 7);
        assert_eq!(nodes[0].tag(), Tag::LamPtr);
        assert_eq!(nodes[1].tag(), Tag::AppPtr);
        assert_eq!(nodes[2].tag(), Tag::LamPtr);
        assert_eq!(nodes[3].tag(), Tag::LamPtr);
        assert_eq!(nodes[4].tag(), Tag::DupPtr);
        assert_eq!(nodes[5].tag(), Tag::AppPtr);
        assert_eq!(nodes[6].tag(), Tag::SupPtr);
        let lam_y_ptr = nodes[0];
        let app_lam_lam_ptr = nodes[1];
        let lam_x1_ptr = nodes[2];
        let lam_x2_ptr = nodes[3];
        let dup_c_d_ptr = nodes[4];
        let app_sup_y_ptr = nodes[5];
        let sup_x1_x2_ptr = nodes[6];
        let lam_y = term_graph.lam_read(lam_y_ptr);
        let app_lam_lam = term_graph.app_read(app_lam_lam_ptr);
        let lam_x1 = term_graph.lam_read(lam_x1_ptr);
        let lam_x2 = term_graph.lam_read(lam_x2_ptr);
        let dup_c_d = term_graph.dup_read(dup_c_d_ptr);
        let app_sup_y = term_graph.app_read(app_sup_y_ptr);
        let sup_x1_x2 = term_graph.sup_read(sup_x1_x2_ptr);
        assert_eq!(lam_y.x, app_sup_y_ptr.app_e2_var_use_ptr());
        assert_eq!(lam_y.e, app_lam_lam_ptr);
        assert_eq!(app_lam_lam.e1, lam_x1_ptr);
        assert_eq!(app_lam_lam.e2, lam_x2_ptr);
        assert_eq!(lam_x1.x, sup_x1_x2_ptr.sup_e1_var_use_ptr());
        assert_eq!(lam_x1.e, dup_c_d_ptr.dup_a_bound_var());
        assert_eq!(lam_x2.x, sup_x1_x2_ptr.sup_e2_var_use_ptr());
        assert_eq!(lam_x2.e, dup_c_d_ptr.dup_b_bound_var());
        assert_eq!(dup_c_d.l, 0);
        assert_eq!(dup_c_d.a, lam_x1_ptr.lam_e_var_use_ptr());
        assert_eq!(dup_c_d.b, lam_x2_ptr.lam_e_var_use_ptr());
        assert_eq!(dup_c_d.e, app_sup_y_ptr);
        assert_eq!(app_sup_y.e1, sup_x1_x2_ptr);
        assert_eq!(app_sup_y.e2, lam_y_ptr.lam_bound_var());
        assert_eq!(sup_x1_x2.e1, lam_x1_ptr.lam_bound_var());
        assert_eq!(sup_x1_x2.e2, lam_x2_ptr.lam_bound_var());
    }
}

#[test]
fn test_lam_lam_dup_sup_same() {
    let mut pool = Interner::new();
    // dup #0{a b} = #0{x y}
    // λx λy (a b)
    // ---------------------- DupSupSame
    // λx λy (x y)
    let term = Term::Lam(
        "x".intern_static(&mut pool),
        Box::new(Term::Lam(
            "y".intern_static(&mut pool),
            Box::new(Term::Dup(
                0,
                "a".intern_static(&mut pool),
                "b".intern_static(&mut pool),
                Box::new(Term::Sup(
                    0,
                    Box::new(Term::Var("x".intern_static(&mut pool))),
                    Box::new(Term::Var("y".intern_static(&mut pool))),
                )),
                Box::new(Term::App(
                    Box::new(Term::Var("a".intern_static(&mut pool))),
                    Box::new(Term::Var("b".intern_static(&mut pool))),
                )),
            )),
        )),
    );
    let mut term_graph = TermGraph::build(&term).unwrap();

    {
        assert_eq!(term_graph.root().tag(), Tag::LamPtr);
        let nodes = term_graph.nodes();
        assert_eq!(nodes.len(), 5);
        assert_eq!(nodes[0].tag(), Tag::LamPtr);
        assert_eq!(nodes[1].tag(), Tag::LamPtr);
        assert_eq!(nodes[2].tag(), Tag::AppPtr);
        assert_eq!(nodes[3].tag(), Tag::DupPtr);
        assert_eq!(nodes[4].tag(), Tag::SupPtr);
        let lam_x_ptr = nodes[0];
        let lam_y_ptr = nodes[1];
        let app_ptr = nodes[2];
        let dup_ptr = nodes[3];
        let sup_ptr = nodes[4];
        let lam_x = term_graph.lam_read(lam_x_ptr);
        let lam_y = term_graph.lam_read(lam_y_ptr);
        let app = term_graph.app_read(app_ptr);
        let dup = term_graph.dup_read(dup_ptr);
        let sup = term_graph.sup_read(sup_ptr);
        assert_eq!(lam_x.x, sup_ptr.sup_e1_var_use_ptr());
        assert_eq!(lam_x.e, lam_y_ptr);
        assert_eq!(lam_y.x, sup_ptr.sup_e2_var_use_ptr());
        assert_eq!(lam_y.e, app_ptr);
        assert_eq!(app.e1, dup_ptr.dup_a_bound_var());
        assert_eq!(app.e2, dup_ptr.dup_b_bound_var());
        assert_eq!(dup.l, 0);
        assert_eq!(dup.a, app_ptr.app_e1_var_use_ptr());
        assert_eq!(dup.b, app_ptr.app_e2_var_use_ptr());
        assert_eq!(dup.e, sup_ptr);
        assert_eq!(sup.l, 0);
        assert_eq!(sup.e1, lam_x_ptr.lam_bound_var());
        assert_eq!(sup.e2, lam_y_ptr.lam_bound_var());
    }

    println!("Before:\n{:?}", dump(&term_graph));
    term_graph.naive_random_order_reduce(1000);
    println!("After:\n{:?}", dump(&term_graph));

    {
        assert_eq!(term_graph.root().tag(), Tag::LamPtr);
        let nodes = term_graph.nodes();
        assert_eq!(nodes.len(), 3);
        assert_eq!(nodes[0].tag(), Tag::LamPtr);
        assert_eq!(nodes[1].tag(), Tag::LamPtr);
        assert_eq!(nodes[2].tag(), Tag::AppPtr);
        let lam_x_ptr = nodes[0];
        let lam_y_ptr = nodes[1];
        let app_ptr = nodes[2];
        let lam_x = term_graph.lam_read(lam_x_ptr);
        let lam_y = term_graph.lam_read(lam_y_ptr);
        let app = term_graph.app_read(app_ptr);
        assert_eq!(lam_x.x, app_ptr.app_e1_var_use_ptr());
        assert_eq!(lam_x.e, lam_y_ptr);
        assert_eq!(lam_y.x, app_ptr.app_e2_var_use_ptr());
        assert_eq!(lam_y.e, app_ptr);
        assert_eq!(app.e1, lam_x_ptr.lam_bound_var());
        assert_eq!(app.e2, lam_y_ptr.lam_bound_var());
    }
}

#[test]
fn test_lam_lam_dup_sup_diff() {
    let mut pool = Interner::new();
    // dup #0{a b} = #1{x y}
    // λx λy (a b)
    // --------------------------- DupSupDiff
    // dup #0{ax bx} = x
    // dup #0{ay by} = y
    // λx λy (#1{ax ay} #1{bx by})
    // --------------------------- AppSup
    // dup #0{ax bx} = x
    // dup #0{ay by} = y
    // dup #1{bx0 by0} = #1{bx by}
    // λx λy #1{(ax bx0) (ay by0)}
    // --------------------------- DupSupSame
    // dup #0{ax bx} = x
    // dup #0{ay by} = y
    // λx λy #1{(ax bx) (ay by)}

    let term = Term::Lam(
        "x".intern_static(&mut pool),
        Box::new(Term::Lam(
            "y".intern_static(&mut pool),
            Box::new(Term::Dup(
                0,
                "a".intern_static(&mut pool),
                "b".intern_static(&mut pool),
                Box::new(Term::Sup(
                    1,
                    Box::new(Term::Var("x".intern_static(&mut pool))),
                    Box::new(Term::Var("y".intern_static(&mut pool))),
                )),
                Box::new(Term::App(
                    Box::new(Term::Var("a".intern_static(&mut pool))),
                    Box::new(Term::Var("b".intern_static(&mut pool))),
                )),
            )),
        )),
    );
    let mut term_graph = TermGraph::build(&term).unwrap();
    println!("Step 0:\n{:?}", dump(&term_graph));

    {
        // dup #0{a b} = #1{x y}
        // λx λy (a b)
        assert_eq!(term_graph.root().tag(), Tag::LamPtr);
        let nodes = term_graph.nodes();
        assert_eq!(nodes.len(), 5);
        assert_eq!(nodes[0].tag(), Tag::LamPtr);
        assert_eq!(nodes[1].tag(), Tag::LamPtr);
        assert_eq!(nodes[2].tag(), Tag::AppPtr);
        assert_eq!(nodes[3].tag(), Tag::DupPtr);
        assert_eq!(nodes[4].tag(), Tag::SupPtr);
        let lam_x_ptr = nodes[0];
        let lam_y_ptr = nodes[1];
        let app_ptr = nodes[2];
        let dup_ptr = nodes[3];
        let sup_ptr = nodes[4];
        let lam_x = term_graph.lam_read(lam_x_ptr);
        let lam_y = term_graph.lam_read(lam_y_ptr);
        let app = term_graph.app_read(app_ptr);
        let dup = term_graph.dup_read(dup_ptr);
        let sup = term_graph.sup_read(sup_ptr);
        assert_eq!(lam_x.x, sup_ptr.sup_e1_var_use_ptr());
        assert_eq!(lam_x.e, lam_y_ptr);
        assert_eq!(lam_y.x, sup_ptr.sup_e2_var_use_ptr());
        assert_eq!(lam_y.e, app_ptr);
        assert_eq!(app.e1, dup_ptr.dup_a_bound_var());
        assert_eq!(app.e2, dup_ptr.dup_b_bound_var());
        assert_eq!(dup.l, 0);
        assert_eq!(dup.a, app_ptr.app_e1_var_use_ptr());
        assert_eq!(dup.b, app_ptr.app_e2_var_use_ptr());
        assert_eq!(dup.e, sup_ptr);
        assert_eq!(sup.l, 1);
        assert_eq!(sup.e1, lam_x_ptr.lam_bound_var());
        assert_eq!(sup.e2, lam_y_ptr.lam_bound_var());
    }

    assert!(term_graph.naive_reduce_step());
    println!("Step 1:\n{:?}", dump(&term_graph));

    {
        // dup #0{ax bx} = x
        // dup #0{ay by} = y
        // λx λy (#1{ax ay} #1{bx by})
        assert_eq!(term_graph.root().tag(), Tag::LamPtr);
        let nodes = term_graph.nodes();
        assert_eq!(nodes.len(), 7);
        assert_eq!(nodes[0].tag(), Tag::LamPtr);
        assert_eq!(nodes[1].tag(), Tag::LamPtr);
        assert_eq!(nodes[2].tag(), Tag::AppPtr);
        assert_eq!(nodes[3].tag(), Tag::SupPtr);
        assert_eq!(nodes[4].tag(), Tag::SupPtr);
        assert_eq!(nodes[5].tag(), Tag::DupPtr);
        assert_eq!(nodes[6].tag(), Tag::DupPtr);
        let lam_x_ptr = nodes[0];
        let lam_y_ptr = nodes[1];
        let app_ptr = nodes[2];
        let sup_a_ptr = nodes[3];
        let sup_b_ptr = nodes[4];
        let dup_x_ptr = nodes[5];
        let dup_y_ptr = nodes[6];
        let lam_x = term_graph.lam_read(lam_x_ptr);
        let lam_y = term_graph.lam_read(lam_y_ptr);
        let app = term_graph.app_read(app_ptr);
        let sup_a = term_graph.sup_read(sup_a_ptr);
        let sup_b = term_graph.sup_read(sup_b_ptr);
        let dup_x = term_graph.dup_read(dup_x_ptr);
        let dup_y = term_graph.dup_read(dup_y_ptr);
        assert_eq!(lam_x.x, dup_x_ptr.dup_e_var_use_ptr());
        assert_eq!(lam_x.e, lam_y_ptr);
        assert_eq!(lam_y.x, dup_y_ptr.dup_e_var_use_ptr());
        assert_eq!(lam_y.e, app_ptr);
        assert_eq!(app.e1, sup_a_ptr);
        assert_eq!(app.e2, sup_b_ptr);
        assert_eq!(sup_a.l, 1);
        assert_eq!(sup_a.e1, dup_x_ptr.dup_a_bound_var());
        assert_eq!(sup_a.e2, dup_y_ptr.dup_a_bound_var());
        assert_eq!(sup_b.l, 1);
        assert_eq!(sup_b.e1, dup_x_ptr.dup_b_bound_var());
        assert_eq!(sup_b.e2, dup_y_ptr.dup_b_bound_var());
        assert_eq!(dup_x.l, 0);
        assert_eq!(dup_x.a, sup_a_ptr.sup_e1_var_use_ptr());
        assert_eq!(dup_x.b, sup_b_ptr.sup_e1_var_use_ptr());
        assert_eq!(dup_x.e, lam_x_ptr.lam_bound_var());
        assert_eq!(dup_y.l, 0);
        assert_eq!(dup_y.a, sup_a_ptr.sup_e2_var_use_ptr());
        assert_eq!(dup_y.b, sup_b_ptr.sup_e2_var_use_ptr());
        assert_eq!(dup_y.e, lam_y_ptr.lam_bound_var());
    }

    assert!(term_graph.naive_reduce_step());
    println!("Step 1:\n{:?}", dump(&term_graph));

    {
        // dup #0{ax bx} = x
        // dup #0{ay by} = y
        // dup #1{bx0 by0} = #1{bx by}
        // λx λy #1{(ax bx0) (ay by0)}
        assert_eq!(term_graph.root().tag(), Tag::LamPtr);
        let nodes = term_graph.nodes();
        assert_eq!(nodes.len(), 9);
        assert_eq!(nodes[0].tag(), Tag::LamPtr);
        assert_eq!(nodes[1].tag(), Tag::LamPtr);
        assert_eq!(nodes[2].tag(), Tag::SupPtr);
        assert_eq!(nodes[3].tag(), Tag::AppPtr);
        assert_eq!(nodes[4].tag(), Tag::AppPtr);
        assert_eq!(nodes[5].tag(), Tag::DupPtr);
        assert_eq!(nodes[6].tag(), Tag::DupPtr);
        assert_eq!(nodes[7].tag(), Tag::DupPtr);
        assert_eq!(nodes[8].tag(), Tag::SupPtr);
        let lam_x_ptr = nodes[0];
        let lam_y_ptr = nodes[1];
        let sup_app_app_ptr = nodes[2];
        let app_ax_bx0_ptr = nodes[3];
        let app_ay_by0_ptr = nodes[4];
        let dup_ax_bx_ptr = nodes[5];
        let dup_bx0_by0_ptr = nodes[6];
        let dup_ay_by_ptr = nodes[7];
        let sup_bx_by_ptr = nodes[8];
        let lam_x = term_graph.lam_read(lam_x_ptr);
        let lam_y = term_graph.lam_read(lam_y_ptr);
        let sup_app_app = term_graph.sup_read(sup_app_app_ptr);
        let app_ax_bx0 = term_graph.app_read(app_ax_bx0_ptr);
        let app_ay_by0 = term_graph.app_read(app_ay_by0_ptr);
        let dup_ax_bx = term_graph.dup_read(dup_ax_bx_ptr);
        let dup_bx0_by0 = term_graph.dup_read(dup_bx0_by0_ptr);
        let dup_ay_by = term_graph.dup_read(dup_ay_by_ptr);
        let sup_bx_by = term_graph.sup_read(sup_bx_by_ptr);
        assert_eq!(lam_x.x, dup_ax_bx_ptr.dup_e_var_use_ptr());
        assert_eq!(lam_x.e, lam_y_ptr);
        assert_eq!(lam_y.x, dup_ay_by_ptr.dup_e_var_use_ptr());
        assert_eq!(lam_y.e, sup_app_app_ptr);
        assert_eq!(sup_app_app.l, 1);
        assert_eq!(sup_app_app.e1, app_ax_bx0_ptr);
        assert_eq!(sup_app_app.e2, app_ay_by0_ptr);
        assert_eq!(app_ax_bx0.e1, dup_ax_bx_ptr.dup_a_bound_var());
        assert_eq!(app_ax_bx0.e2, dup_bx0_by0_ptr.dup_a_bound_var());
        assert_eq!(app_ay_by0.e1, dup_ay_by_ptr.dup_a_bound_var());
        assert_eq!(app_ay_by0.e2, dup_bx0_by0_ptr.dup_b_bound_var());
        assert_eq!(dup_ax_bx.l, 0);
        assert_eq!(dup_ax_bx.a, app_ax_bx0_ptr.app_e1_var_use_ptr());
        assert_eq!(dup_ax_bx.b, sup_bx_by_ptr.sup_e1_var_use_ptr());
        assert_eq!(dup_ax_bx.e, lam_x_ptr.lam_bound_var());
        assert_eq!(dup_bx0_by0.l, 1);
        assert_eq!(dup_bx0_by0.a, app_ax_bx0_ptr.app_e2_var_use_ptr());
        assert_eq!(dup_bx0_by0.b, app_ay_by0_ptr.app_e2_var_use_ptr());
        assert_eq!(dup_bx0_by0.e, sup_bx_by_ptr);
        assert_eq!(dup_ay_by.l, 0);
        assert_eq!(dup_ay_by.a, app_ay_by0_ptr.app_e1_var_use_ptr());
        assert_eq!(dup_ay_by.b, sup_bx_by_ptr.sup_e2_var_use_ptr());
        assert_eq!(dup_ay_by.e, lam_y_ptr.lam_bound_var());
        assert_eq!(sup_bx_by.l, 1);
        assert_eq!(sup_bx_by.e1, dup_ax_bx_ptr.dup_b_bound_var());
        assert_eq!(sup_bx_by.e2, dup_ay_by_ptr.dup_b_bound_var());
    }

    assert!(term_graph.naive_reduce_step());
    println!("Step 2:\n{:?}", dump(&term_graph));

    {
        // dup #0{ax bx} = x
        // dup #0{ay by} = y
        // λx λy #1{(ax bx) (ay by)}
        assert_eq!(term_graph.root().tag(), Tag::LamPtr);
        let nodes = term_graph.nodes();
        assert_eq!(nodes.len(), 7);
        assert_eq!(nodes[0].tag(), Tag::LamPtr);
        assert_eq!(nodes[1].tag(), Tag::LamPtr);
        assert_eq!(nodes[2].tag(), Tag::SupPtr);
        assert_eq!(nodes[3].tag(), Tag::AppPtr);
        assert_eq!(nodes[4].tag(), Tag::AppPtr);
        assert_eq!(nodes[5].tag(), Tag::DupPtr);
        assert_eq!(nodes[6].tag(), Tag::DupPtr);
        let lam_x_ptr = nodes[0];
        let lam_y_ptr = nodes[1];
        let sup_app_app_ptr = nodes[2];
        let app_ax_bx_ptr = nodes[3];
        let app_ay_by_ptr = nodes[4];
        let dup_ax_bx_ptr = nodes[5];
        let dup_ay_by_ptr = nodes[6];
        let lam_x = term_graph.lam_read(lam_x_ptr);
        let lam_y = term_graph.lam_read(lam_y_ptr);
        let sup_app_app = term_graph.sup_read(sup_app_app_ptr);
        let app_ax_bx = term_graph.app_read(app_ax_bx_ptr);
        let app_ay_by = term_graph.app_read(app_ay_by_ptr);
        let dup_ax_bx = term_graph.dup_read(dup_ax_bx_ptr);
        let dup_ay_by = term_graph.dup_read(dup_ay_by_ptr);
        assert_eq!(lam_x.x, dup_ax_bx_ptr.dup_e_var_use_ptr());
        assert_eq!(lam_x.e, lam_y_ptr);
        assert_eq!(lam_y.x, dup_ay_by_ptr.dup_e_var_use_ptr());
        assert_eq!(lam_y.e, sup_app_app_ptr);
        assert_eq!(sup_app_app.l, 1);
        assert_eq!(sup_app_app.e1, app_ax_bx_ptr);
        assert_eq!(sup_app_app.e2, app_ay_by_ptr);
        assert_eq!(app_ax_bx.e1, dup_ax_bx_ptr.dup_a_bound_var());
        assert_eq!(app_ax_bx.e2, dup_ax_bx_ptr.dup_b_bound_var());
        assert_eq!(app_ay_by.e1, dup_ay_by_ptr.dup_a_bound_var());
        assert_eq!(app_ay_by.e2, dup_ay_by_ptr.dup_b_bound_var());
        assert_eq!(dup_ax_bx.l, 0);
        assert_eq!(dup_ax_bx.a, app_ax_bx_ptr.app_e1_var_use_ptr());
        assert_eq!(dup_ax_bx.b, app_ax_bx_ptr.app_e2_var_use_ptr());
        assert_eq!(dup_ax_bx.e, lam_x_ptr.lam_bound_var());
        assert_eq!(dup_ay_by.l, 0);
        assert_eq!(dup_ay_by.a, app_ay_by_ptr.app_e1_var_use_ptr());
        assert_eq!(dup_ay_by.b, app_ay_by_ptr.app_e2_var_use_ptr());
        assert_eq!(dup_ay_by.e, lam_y_ptr.lam_bound_var());
    }

    assert!(!term_graph.naive_reduce_step());
}

#[test]
fn test_app_let_app_var_unused() {
    let mut pool = Interner::new();
    // (λa (b c)) d
    // ------------ AppLam
    // (b c)
    let term = Term::App(
        Box::new(Term::Lam(
            "a".intern_static(&mut pool),
            Box::new(Term::App(
                Box::new(Term::Var("b".intern_static(&mut pool))),
                Box::new(Term::Var("c".intern_static(&mut pool))),
            )),
        )),
        Box::new(Term::Var("d".intern_static(&mut pool))),
    );
    let mut term_graph = TermGraph::build(&term).unwrap();
    println!("Before:\n{:?}", dump(&term_graph));

    {
        // (λa (b c)) d
        assert_eq!(term_graph.root().tag(), Tag::AppPtr);
        let nodes = term_graph.nodes();
        assert_eq!(nodes.len(), 3);
        assert_eq!(nodes[0].tag(), Tag::AppPtr);
        assert_eq!(nodes[1].tag(), Tag::LamPtr);
        assert_eq!(nodes[2].tag(), Tag::AppPtr);
        let app_lam_d_ptr = nodes[0];
        let lam_ptr = nodes[1];
        let app_b_c_ptr = nodes[2];
        let app_lam_d = term_graph.app_read(app_lam_d_ptr);
        let lam = term_graph.lam_read(lam_ptr);
        let app_b_c = term_graph.app_read(app_b_c_ptr);
        assert_eq!(app_lam_d.e1, lam_ptr);
        assert_eq!(app_lam_d.e2, NodeRef::new_unbound_var());
        assert_eq!(lam.x, FieldRef::new_unused_var());
        assert_eq!(lam.e, app_b_c_ptr);
        assert_eq!(app_b_c.e1, NodeRef::new_unbound_var());
        assert_eq!(app_b_c.e2, NodeRef::new_unbound_var());
    }

    assert!(term_graph.naive_reduce_step());
    println!("After:\n{:?}", dump(&term_graph));

    {
        // (b c)
        assert_eq!(term_graph.root().tag(), Tag::AppPtr);
        let nodes = term_graph.nodes();
        assert_eq!(nodes.len(), 1);
        assert_eq!(nodes[0].tag(), Tag::AppPtr);
        let app_ptr = nodes[0];
        let app = term_graph.app_read(app_ptr);
        assert_eq!(app.e1, NodeRef::new_unbound_var());
        assert_eq!(app.e2, NodeRef::new_unbound_var());
    }
}

#[test]
fn test_dup_lam_a_unused() {
    let mut pool = Interner::new();
    // dup #0{a b} = (λx y)
    // λy #0{z b}
    // -------------------- DupLam
    // dup #0{c d} = y
    // λy #0{z (λx2 d)}
    let term = Term::Lam(
        "y".intern_static(&mut pool),
        Box::new(Term::Dup(
            0,
            "a".intern_static(&mut pool),
            "b".intern_static(&mut pool),
            Box::new(Term::Lam("x".intern_static(&mut pool), Box::new(Term::Var("y".intern_static(&mut pool))))),
            Box::new(Term::Sup(
                0,
                Box::new(Term::Var("z".intern_static(&mut pool))),
                Box::new(Term::Var("b".intern_static(&mut pool))),
            )),
        )),
    );
    let mut term_graph = TermGraph::build(&term).unwrap();
    println!("Before:\n{:?}", dump(&term_graph));

    {
        // dup #0{a b} = (λx y)
        // λy #0{z b}
        assert_eq!(term_graph.root().tag(), Tag::LamPtr);
        let nodes = term_graph.nodes();
        assert_eq!(nodes.len(), 4);
        assert_eq!(nodes[0].tag(), Tag::LamPtr);
        assert_eq!(nodes[1].tag(), Tag::SupPtr);
        assert_eq!(nodes[2].tag(), Tag::DupPtr);
        assert_eq!(nodes[3].tag(), Tag::LamPtr);
        let lam_y_ptr = nodes[0];
        let sup_ptr = nodes[1];
        let dup_ptr = nodes[2];
        let lam_x_ptr = nodes[3];
        let lam_y = term_graph.lam_read(lam_y_ptr);
        let sup = term_graph.sup_read(sup_ptr);
        let dup = term_graph.dup_read(dup_ptr);
        let lam_x = term_graph.lam_read(lam_x_ptr);
        assert_eq!(lam_y.x, lam_x_ptr.lam_e_var_use_ptr());
        assert_eq!(lam_y.e, sup_ptr);
        assert_eq!(sup.l, 0);
        assert_eq!(sup.e1, NodeRef::new_unbound_var());
        assert_eq!(sup.e2, dup_ptr.dup_b_bound_var());
        assert_eq!(dup.l, 0);
        assert_eq!(dup.a, FieldRef::new_unused_var());
        assert_eq!(dup.b, sup_ptr.sup_e2_var_use_ptr());
        assert_eq!(dup.e, lam_x_ptr);
        assert_eq!(lam_x.x, FieldRef::new_unused_var());
        assert_eq!(lam_x.e, lam_y_ptr.lam_bound_var());
    }

    assert!(term_graph.naive_reduce_step());
    println!("After:\n{:?}", dump(&term_graph));

    {
        // dup #0{c d} = y
        // λy #0{z (λx2 d)}
        assert_eq!(term_graph.root().tag(), Tag::LamPtr);
        let nodes = term_graph.nodes();
        assert_eq!(nodes.len(), 4);
        assert_eq!(nodes[0].tag(), Tag::LamPtr);
        assert_eq!(nodes[1].tag(), Tag::SupPtr);
        assert_eq!(nodes[2].tag(), Tag::LamPtr);
        assert_eq!(nodes[3].tag(), Tag::DupPtr);
        let lam_y_ptr = nodes[0];
        let sup_ptr = nodes[1];
        let lam_x2_ptr = nodes[2];
        let dup_ptr = nodes[3];
        let lam_y = term_graph.lam_read(lam_y_ptr);
        let sup = term_graph.sup_read(sup_ptr);
        let lam_x2 = term_graph.lam_read(lam_x2_ptr);
        let dup = term_graph.dup_read(dup_ptr);
        assert_eq!(lam_y.x, dup_ptr.dup_e_var_use_ptr());
        assert_eq!(lam_y.e, sup_ptr);
        assert_eq!(sup.l, 0);
        assert_eq!(sup.e1, NodeRef::new_unbound_var());
        assert_eq!(sup.e2, lam_x2_ptr);
        assert_eq!(lam_x2.x, FieldRef::new_unused_var());
        assert_eq!(lam_x2.e, dup_ptr.dup_b_bound_var());
        assert_eq!(dup.l, 0);
        assert_eq!(dup.a, FieldRef::new_unused_var());
        assert_eq!(dup.b, lam_x2_ptr.lam_e_var_use_ptr());
        assert_eq!(dup.e, lam_y_ptr.lam_bound_var());
    }
}

#[test]
fn test_dup_lam_b_unused() {
    let mut pool = Interner::new();
    // dup #0{a b} = (λx y)
    // λy #0{a z}
    // -------------------- DupLam
    // dup #0{c d} = y
    // λy #0{(λx1 d) z}
    let term = Term::Lam(
        "y".intern_static(&mut pool),
        Box::new(Term::Dup(
            0,
            "a".intern_static(&mut pool),
            "b".intern_static(&mut pool),
            Box::new(Term::Lam("x".intern_static(&mut pool), Box::new(Term::Var("y".intern_static(&mut pool))))),
            Box::new(Term::Sup(
                0,
                Box::new(Term::Var("a".intern_static(&mut pool))),
                Box::new(Term::Var("z".intern_static(&mut pool))),
            )),
        )),
    );
    let mut term_graph = TermGraph::build(&term).unwrap();
    println!("Before:\n{:?}", dump(&term_graph));

    {
        // dup #0{a b} = (λx y)
        // λy #0{a z}
        assert_eq!(term_graph.root().tag(), Tag::LamPtr);
        let nodes = term_graph.nodes();
        assert_eq!(nodes.len(), 4);
        assert_eq!(nodes[0].tag(), Tag::LamPtr);
        assert_eq!(nodes[1].tag(), Tag::SupPtr);
        assert_eq!(nodes[2].tag(), Tag::DupPtr);
        assert_eq!(nodes[3].tag(), Tag::LamPtr);
        let lam_y_ptr = nodes[0];
        let sup_ptr = nodes[1];
        let dup_ptr = nodes[2];
        let lam_x_ptr = nodes[3];
        let lam_y = term_graph.lam_read(lam_y_ptr);
        let sup = term_graph.sup_read(sup_ptr);
        let dup = term_graph.dup_read(dup_ptr);
        let lam_x = term_graph.lam_read(lam_x_ptr);
        assert_eq!(lam_y.x, lam_x_ptr.lam_e_var_use_ptr());
        assert_eq!(lam_y.e, sup_ptr);
        assert_eq!(sup.l, 0);
        assert_eq!(sup.e1, dup_ptr.dup_a_bound_var());
        assert_eq!(sup.e2, NodeRef::new_unbound_var());
        assert_eq!(dup.l, 0);
        assert_eq!(dup.a, sup_ptr.sup_e1_var_use_ptr());
        assert_eq!(dup.b, FieldRef::new_unused_var());
        assert_eq!(dup.e, lam_x_ptr);
        assert_eq!(lam_x.x, FieldRef::new_unused_var());
        assert_eq!(lam_x.e, lam_y_ptr.lam_bound_var());
    }

    assert!(term_graph.naive_reduce_step());
    println!("After:\n{:?}", dump(&term_graph));

    {
        // dup #0{c d} = y
        // λy #0{(λx1 d) z}
        assert_eq!(term_graph.root().tag(), Tag::LamPtr);
        let nodes = term_graph.nodes();
        assert_eq!(nodes.len(), 4);
        assert_eq!(nodes[0].tag(), Tag::LamPtr);
        assert_eq!(nodes[1].tag(), Tag::SupPtr);
        assert_eq!(nodes[2].tag(), Tag::LamPtr);
        assert_eq!(nodes[3].tag(), Tag::DupPtr);
        let lam_y_ptr = nodes[0];
        let sup_ptr = nodes[1];
        let lam_x1_ptr = nodes[2];
        let dup_ptr = nodes[3];
        let lam_y = term_graph.lam_read(lam_y_ptr);
        let sup = term_graph.sup_read(sup_ptr);
        let lam_x1 = term_graph.lam_read(lam_x1_ptr);
        let dup = term_graph.dup_read(dup_ptr);
        assert_eq!(lam_y.x, dup_ptr.dup_e_var_use_ptr());
        assert_eq!(lam_y.e, sup_ptr);
        assert_eq!(sup.l, 0);
        assert_eq!(sup.e1, lam_x1_ptr);
        assert_eq!(sup.e2, NodeRef::new_unbound_var());
        assert_eq!(lam_x1.x, FieldRef::new_unused_var());
        assert_eq!(lam_x1.e, dup_ptr.dup_a_bound_var());
        assert_eq!(dup.l, 0);
        assert_eq!(dup.a, lam_x1_ptr.lam_e_var_use_ptr());
        assert_eq!(dup.b, FieldRef::new_unused_var());
        assert_eq!(dup.e, lam_y_ptr.lam_bound_var());
    }
}

#[test]
fn test_dup_sup_same_a_unused() {
    let mut pool = Interner::new();
    // dup #0{a b} = #0{x y}
    // λx b
    // ---------------------- DupSupSame
    // λx y
    let term = Term::Lam(
        "x".intern_static(&mut pool),
        Box::new(Term::Dup(
            0,
            "a".intern_static(&mut pool),
            "b".intern_static(&mut pool),
            Box::new(Term::Sup(
                0,
                Box::new(Term::Var("x".intern_static(&mut pool))),
                Box::new(Term::Var("y".intern_static(&mut pool))),
            )),
            Box::new(Term::Var("b".intern_static(&mut pool))),
        )),
    );
    let mut term_graph = TermGraph::build(&term).unwrap();
    println!("Before:\n{:?}", dump(&term_graph));

    {
        // dup #0{a b} = #0{x y}
        // λx b
        assert_eq!(term_graph.root().tag(), Tag::LamPtr);
        let nodes = term_graph.nodes();
        assert_eq!(nodes.len(), 3);
        assert_eq!(nodes[0].tag(), Tag::LamPtr);
        assert_eq!(nodes[1].tag(), Tag::DupPtr);
        assert_eq!(nodes[2].tag(), Tag::SupPtr);
        let lam_x_ptr = nodes[0];
        let dup_ptr = nodes[1];
        let sup_ptr = nodes[2];
        let lam_x = term_graph.lam_read(lam_x_ptr);
        let dup = term_graph.dup_read(dup_ptr);
        let sup = term_graph.sup_read(sup_ptr);
        assert_eq!(lam_x.x, sup_ptr.sup_e1_var_use_ptr());
        assert_eq!(lam_x.e, dup_ptr.dup_b_bound_var());
        assert_eq!(dup.l, 0);
        assert_eq!(dup.a, FieldRef::new_unused_var());
        assert_eq!(dup.b, lam_x_ptr.lam_e_var_use_ptr());
        assert_eq!(dup.e, sup_ptr);
        assert_eq!(sup.l, 0);
        assert_eq!(sup.e1, lam_x_ptr.lam_bound_var());
        assert_eq!(sup.e2, NodeRef::new_unbound_var());
    }

    assert!(term_graph.naive_reduce_step());
    println!("After:\n{:?}", dump(&term_graph));

    {
        // λx y
        assert_eq!(term_graph.root().tag(), Tag::LamPtr);
        let nodes = term_graph.nodes();
        assert_eq!(nodes.len(), 1);
        assert_eq!(nodes[0].tag(), Tag::LamPtr);
        let lam_x_ptr = nodes[0];
        let lam_x = term_graph.lam_read(lam_x_ptr);
        assert_eq!(lam_x.x, FieldRef::new_unused_var());
        assert_eq!(lam_x.e, NodeRef::new_unbound_var());
    }
}

#[test]
fn test_dup_sup_same_b_unused() {
    let mut pool = Interner::new();
    // dup #0{a b} = #0{x y}
    // λx a
    // ---------------------- DupSupSame
    // λx x
    let term = Term::Lam(
        "x".intern_static(&mut pool),
        Box::new(Term::Dup(
            0,
            "a".intern_static(&mut pool),
            "b".intern_static(&mut pool),
            Box::new(Term::Sup(
                0,
                Box::new(Term::Var("x".intern_static(&mut pool))),
                Box::new(Term::Var("y".intern_static(&mut pool))),
            )),
            Box::new(Term::Var("a".intern_static(&mut pool))),
        )),
    );
    let mut term_graph = TermGraph::build(&term).unwrap();
    println!("Before:\n{:?}", dump(&term_graph));

    {
        // dup #0{a b} = #0{x y}
        // λx a
        assert_eq!(term_graph.root().tag(), Tag::LamPtr);
        let nodes = term_graph.nodes();
        assert_eq!(nodes.len(), 3);
        assert_eq!(nodes[0].tag(), Tag::LamPtr);
        assert_eq!(nodes[1].tag(), Tag::DupPtr);
        assert_eq!(nodes[2].tag(), Tag::SupPtr);
        let lam_x_ptr = nodes[0];
        let dup_ptr = nodes[1];
        let sup_ptr = nodes[2];
        let lam_x = term_graph.lam_read(lam_x_ptr);
        let dup = term_graph.dup_read(dup_ptr);
        let sup = term_graph.sup_read(sup_ptr);
        assert_eq!(lam_x.x, sup_ptr.sup_e1_var_use_ptr());
        assert_eq!(lam_x.e, dup_ptr.dup_a_bound_var());
        assert_eq!(dup.l, 0);
        assert_eq!(dup.a, lam_x_ptr.lam_e_var_use_ptr());
        assert_eq!(dup.b, FieldRef::new_unused_var());
        assert_eq!(dup.e, sup_ptr);
        assert_eq!(sup.l, 0);
        assert_eq!(sup.e1, lam_x_ptr.lam_bound_var());
        assert_eq!(sup.e2, NodeRef::new_unbound_var());
    }

    assert!(term_graph.naive_reduce_step());
    println!("After:\n{:?}", dump(&term_graph));

    {
        // λx x
        assert_eq!(term_graph.root().tag(), Tag::LamPtr);
        let nodes = term_graph.nodes();
        assert_eq!(nodes.len(), 1);
        assert_eq!(nodes[0].tag(), Tag::LamPtr);
        let lam_x_ptr = nodes[0];
        let lam_x = term_graph.lam_read(lam_x_ptr);
        assert_eq!(lam_x.x, lam_x_ptr.lam_e_var_use_ptr());
        assert_eq!(lam_x.e, lam_x_ptr.lam_bound_var());
    }
}

#[test]
fn test_dup_sup_diff_a_unused() {
    let mut pool = Interner::new();
    // dup #0{a b} = #1{x y}
    // λx b
    // ---------------------- DupSupDiff
    // dup #0{ax bx} = x
    // dup #0{ay by} = y
    // λx #1{bx by}
    let term = Term::Lam(
        "x".intern_static(&mut pool),
        Box::new(Term::Dup(
            0,
            "a".intern_static(&mut pool),
            "b".intern_static(&mut pool),
            Box::new(Term::Sup(
                1,
                Box::new(Term::Var("x".intern_static(&mut pool))),
                Box::new(Term::Var("y".intern_static(&mut pool))),
            )),
            Box::new(Term::Var("b".intern_static(&mut pool))),
        )),
    );
    let mut term_graph = TermGraph::build(&term).unwrap();
    println!("Before:\n{:?}", dump(&term_graph));

    {
        // dup #0{a b} = #0{x y}
        // λx b
        assert_eq!(term_graph.root().tag(), Tag::LamPtr);
        let nodes = term_graph.nodes();
        assert_eq!(nodes.len(), 3);
        assert_eq!(nodes[0].tag(), Tag::LamPtr);
        assert_eq!(nodes[1].tag(), Tag::DupPtr);
        assert_eq!(nodes[2].tag(), Tag::SupPtr);
        let lam_x_ptr = nodes[0];
        let dup_ptr = nodes[1];
        let sup_ptr = nodes[2];
        let lam_x = term_graph.lam_read(lam_x_ptr);
        let dup = term_graph.dup_read(dup_ptr);
        let sup = term_graph.sup_read(sup_ptr);
        assert_eq!(lam_x.x, sup_ptr.sup_e1_var_use_ptr());
        assert_eq!(lam_x.e, dup_ptr.dup_b_bound_var());
        assert_eq!(dup.l, 0);
        assert_eq!(dup.a, FieldRef::new_unused_var());
        assert_eq!(dup.b, lam_x_ptr.lam_e_var_use_ptr());
        assert_eq!(dup.e, sup_ptr);
        assert_eq!(sup.l, 1);
        assert_eq!(sup.e1, lam_x_ptr.lam_bound_var());
        assert_eq!(sup.e2, NodeRef::new_unbound_var());
    }

    assert!(term_graph.naive_reduce_step());
    println!("After:\n{:?}", dump(&term_graph));

    {
        // dup #0{ax bx} = x
        // dup #0{ay by} = y
        // λx #1{bx by}
        assert_eq!(term_graph.root().tag(), Tag::LamPtr);
        let nodes = term_graph.nodes();
        assert_eq!(nodes.len(), 4);
        assert_eq!(nodes[0].tag(), Tag::LamPtr);
        assert_eq!(nodes[1].tag(), Tag::SupPtr);
        assert_eq!(nodes[2].tag(), Tag::DupPtr);
        assert_eq!(nodes[3].tag(), Tag::DupPtr);
        let lam_x_ptr = nodes[0];
        let sup_ptr = nodes[1];
        let dup_ax_bx_ptr = nodes[2];
        let dup_ay_by_ptr = nodes[3];
        let lam_x = term_graph.lam_read(lam_x_ptr);
        let sup = term_graph.sup_read(sup_ptr);
        let dup_ax_bx = term_graph.dup_read(dup_ax_bx_ptr);
        let dup_ay_by = term_graph.dup_read(dup_ay_by_ptr);
        assert_eq!(lam_x.x, dup_ax_bx_ptr.dup_e_var_use_ptr());
        assert_eq!(lam_x.e, sup_ptr);
        assert_eq!(sup.l, 1);
        assert_eq!(sup.e1, dup_ax_bx_ptr.dup_b_bound_var());
        assert_eq!(sup.e2, dup_ay_by_ptr.dup_b_bound_var());
        assert_eq!(dup_ax_bx.l, 0);
        assert_eq!(dup_ax_bx.a, FieldRef::new_unused_var());
        assert_eq!(dup_ax_bx.b, sup_ptr.sup_e1_var_use_ptr());
        assert_eq!(dup_ax_bx.e, lam_x_ptr.lam_bound_var());
        assert_eq!(dup_ay_by.l, 0);
        assert_eq!(dup_ay_by.a, FieldRef::new_unused_var());
        assert_eq!(dup_ay_by.b, sup_ptr.sup_e2_var_use_ptr());
        assert_eq!(dup_ay_by.e, NodeRef::new_unbound_var());
    }
}

#[test]
fn test_dup_sup_diff_b_unused() {
    let mut pool = Interner::new();
    // dup #0{a b} = #1{x y}
    // λx a
    // ---------------------- DupSupDiff
    // dup #0{ax bx} = x
    // dup #0{ay by} = y
    // λx #1{ax ay}
    let term = Term::Lam(
        "x".intern_static(&mut pool),
        Box::new(Term::Dup(
            0,
            "a".intern_static(&mut pool),
            "b".intern_static(&mut pool),
            Box::new(Term::Sup(
                1,
                Box::new(Term::Var("x".intern_static(&mut pool))),
                Box::new(Term::Var("y".intern_static(&mut pool))),
            )),
            Box::new(Term::Var("a".intern_static(&mut pool))),
        )),
    );
    let mut term_graph = TermGraph::build(&term).unwrap();
    println!("Before:\n{:?}", dump(&term_graph));

    {
        // dup #0{a b} = #0{x y}
        // λx a
        assert_eq!(term_graph.root().tag(), Tag::LamPtr);
        let nodes = term_graph.nodes();
        assert_eq!(nodes.len(), 3);
        assert_eq!(nodes[0].tag(), Tag::LamPtr);
        assert_eq!(nodes[1].tag(), Tag::DupPtr);
        assert_eq!(nodes[2].tag(), Tag::SupPtr);
        let lam_x_ptr = nodes[0];
        let dup_ptr = nodes[1];
        let sup_ptr = nodes[2];
        let lam_x = term_graph.lam_read(lam_x_ptr);
        let dup = term_graph.dup_read(dup_ptr);
        let sup = term_graph.sup_read(sup_ptr);
        assert_eq!(lam_x.x, sup_ptr.sup_e1_var_use_ptr());
        assert_eq!(lam_x.e, dup_ptr.dup_a_bound_var());
        assert_eq!(dup.l, 0);
        assert_eq!(dup.a, lam_x_ptr.lam_e_var_use_ptr());
        assert_eq!(dup.b, FieldRef::new_unused_var());
        assert_eq!(dup.e, sup_ptr);
        assert_eq!(sup.l, 1);
        assert_eq!(sup.e1, lam_x_ptr.lam_bound_var());
        assert_eq!(sup.e2, NodeRef::new_unbound_var());
    }

    assert!(term_graph.naive_reduce_step());
    println!("After:\n{:?}", dump(&term_graph));

    {
        // dup #0{ax bx} = x
        // dup #0{ay by} = y
        // λx #1{ax ay}
        assert_eq!(term_graph.root().tag(), Tag::LamPtr);
        let nodes = term_graph.nodes();
        assert_eq!(nodes.len(), 4);
        assert_eq!(nodes[0].tag(), Tag::LamPtr);
        assert_eq!(nodes[1].tag(), Tag::SupPtr);
        assert_eq!(nodes[2].tag(), Tag::DupPtr);
        assert_eq!(nodes[3].tag(), Tag::DupPtr);
        let lam_x_ptr = nodes[0];
        let sup_ptr = nodes[1];
        let dup_ax_bx_ptr = nodes[2];
        let dup_ay_by_ptr = nodes[3];
        let lam_x = term_graph.lam_read(lam_x_ptr);
        let sup = term_graph.sup_read(sup_ptr);
        let dup_ax_bx = term_graph.dup_read(dup_ax_bx_ptr);
        let dup_ay_by = term_graph.dup_read(dup_ay_by_ptr);
        assert_eq!(lam_x.x, dup_ax_bx_ptr.dup_e_var_use_ptr());
        assert_eq!(lam_x.e, sup_ptr);
        assert_eq!(sup.l, 1);
        assert_eq!(sup.e1, dup_ax_bx_ptr.dup_a_bound_var());
        assert_eq!(sup.e2, dup_ay_by_ptr.dup_a_bound_var());
        assert_eq!(dup_ax_bx.l, 0);
        assert_eq!(dup_ax_bx.a, sup_ptr.sup_e1_var_use_ptr());
        assert_eq!(dup_ax_bx.b, FieldRef::new_unused_var());
        assert_eq!(dup_ax_bx.e, lam_x_ptr.lam_bound_var());
        assert_eq!(dup_ay_by.l, 0);
        assert_eq!(dup_ay_by.a, sup_ptr.sup_e2_var_use_ptr());
        assert_eq!(dup_ay_by.b, FieldRef::new_unused_var());
        assert_eq!(dup_ay_by.e, NodeRef::new_unbound_var());
    }
}
