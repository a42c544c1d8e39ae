use affine_vm::intern::{Intern, InternStatic, Interner};

#[test]
fn test_intern() {
    let mut pool = Interner::new();
    let s1 = "test_intern".to_owned();
    let s2 = "test_intern".to_owned();
    assert_eq!(s1.intern(&mut pool).as_ptr(), s2.intern(&mut pool).as_ptr());
}

#[test]
fn test_intern_static() {
    let mut pool = Interner::new();
    let s1 = "test_intern_static";
    let s2 = "test_intern_static";
    assert_eq!(
        s1.intern_static(&mut pool).as_ptr(),
        s2.intern_static(&mut pool).as_ptr()
    );
}

#[test]
fn test_intern_distinct_names_get_distinct_handles() {
    let mut pool = Interner::new();
    let a = "alpha".intern_static(&mut pool);
    let b = "beta".intern_static(&mut pool);
    let a2 = "alpha".to_owned().intern(&mut pool);
    assert_ne!(a, b);
    assert_eq!(a, a2);
    assert_eq!(a.as_ptr(), 0);
    assert_eq!(b.as_ptr(), 1);
    assert_eq!(pool.len(), 2);
}

#[test]
fn test_intern_keeps_earlier_names() {
    let mut pool = Interner::new();
    let a = pool.intern_bytes(b"first");
    let _ = pool.intern_bytes(b"second");
    let _ = pool.intern_bytes(b"first");
    assert_eq!(pool.name(a), b"first");
    assert_eq!(pool.text(a), "first");
    assert_eq!(pool.len(), 2);
}

#[test]
fn test_find_does_not_add() {
    let mut pool = Interner::new();
    assert_eq!(pool.find(b"x"), None);
    let x = pool.intern_bytes(b"x");
    assert_eq!(pool.find(b"x"), Some(x));
    assert_eq!(pool.find(b"y"), None);
    assert_eq!(pool.len(), 1);
}
