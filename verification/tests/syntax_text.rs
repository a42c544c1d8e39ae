use affine_vm::intern::{InternStatic, Interner};
use affine_vm::syntax::Term;

#[test]
fn test_display_term() {
    let mut pool = Interner::new();
    let x = "x".intern_static(&mut pool);
    let y = "y".intern_static(&mut pool);
    let z = "z".intern_static(&mut pool);
    let f = "f".intern_static(&mut pool);
    let arg = "arg".intern_static(&mut pool);
    let body = "body".intern_static(&mut pool);
    let expr = "expr".intern_static(&mut pool);

    let test_cases = &[
        (Term::Var(x), "x"),
        (Term::Lam(x, Box::new(Term::Var(y))), "(λx y)"),
        (
            Term::App(Box::new(Term::Var(f)), Box::new(Term::Var(arg))),
            "(f arg)",
        ),
        (
            Term::Sup(0, Box::new(Term::Var(x)), Box::new(Term::Var(y))),
            "#0{x y}",
        ),
        (
            Term::Dup(0, x, y, Box::new(Term::Var(z)), Box::new(Term::Var(body))),
            "(dup #0{x y} = z; body)",
        ),
        (
            Term::Let(x, Box::new(Term::Var(expr)), Box::new(Term::Var(body))),
            "(let x = expr; body)",
        ),
    ];
    for (term, expected) in test_cases {
        assert_eq!(term.to_string(&pool), *expected);
    }
}

#[test]
fn test_display_label_digits() {
    let mut pool = Interner::new();
    let x = "x".intern_static(&mut pool);
    let t = Term::Sup(
        18446744073709551615,
        Box::new(Term::Var(x)),
        Box::new(Term::Sup(1203, Box::new(Term::Var(x)), Box::new(Term::Var(x)))),
    );
    assert_eq!(t.to_string(&pool), "#18446744073709551615{x #1203{x x}}");
    assert_eq!(t.pretty(&pool), "#18446744073709551615{x #1203{x x}}".as_bytes());
}

#[test]
fn test_clone_is_equal() {
    let mut pool = Interner::new();
    let x = "x".intern_static(&mut pool);
    let y = "y".intern_static(&mut pool);
    let t = Term::Dup(
        7,
        x,
        y,
        Box::new(Term::Lam(x, Box::new(Term::Var(x)))),
        Box::new(Term::Let(y, Box::new(Term::Var(x)), Box::new(Term::Var(y)))),
    );
    assert_eq!(t.clone(), t);
}
