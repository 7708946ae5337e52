use string_interner::{Interner, Symbol};

#[test]
fn test() {
    let mut interner = Interner::new();
    let input1 = " ".repeat(4096);
    let s1 = Symbol::intern(&mut interner, &input1);
    assert_eq!(s1.as_str(&interner), &input1);
    let input2 = "+".repeat(1);
    let s2 = Symbol::intern(&mut interner, &input2);
    assert_eq!(s2.as_str(&interner), &input2);
    let input3 = "-".repeat(4097);
    let s3 = Symbol::intern(&mut interner, &input3);
    assert_eq!(s3.as_str(&interner), &input3);

    assert_eq!(s1.as_str(&interner), &input1);
    assert_eq!(s2.as_str(&interner), &input2);
    assert_eq!(s3.as_str(&interner), &input3);
}

#[test]
fn test_simple_interning() {
    let mut interner = Interner::new();
    let s = Symbol::intern(&mut interner, "Hello");
    assert_eq!(s.as_str(&interner), "Hello");
}

#[test]
fn test_interning_same_string_multiple_times() {
    let mut interner = Interner::new();
    let s1 = Symbol::intern(&mut interner, "Hello, world");
    let s2 = Symbol::intern(&mut interner, "Hello, world");
    assert_eq!(s1.as_str(&interner), "Hello, world");
    assert_eq!(s1, s2);
    assert_eq!(s2.as_str(&interner), "Hello, world");
}

#[test]
fn test_interning_different_strings() {
    let mut interner = Interner::new();
    let s1 = Symbol::intern(&mut interner, "Hello, world");
    let s2 = Symbol::intern(&mut interner, "Hello, world");
    let s3 = Symbol::intern(&mut interner, "Hello, world!");
    assert_eq!(s1, s2);
    assert_ne!(s1, s3);
    assert_ne!(s2, s3);
    assert_eq!(s3.as_str(&interner), "Hello, world!");
}

#[test]
fn scenario_three_greetings() {
    let mut interner = Interner::new();
    let a = Symbol::intern(&mut interner, "Hello");
    let b = Symbol::intern(&mut interner, "Hello, world");
    assert_ne!(a, b);
    let b_again = Symbol::intern(&mut interner, "Hello, world");
    assert_eq!(b, b_again);
    let c = Symbol::intern(&mut interner, "Hello, world!");
    assert_ne!(c, a);
    assert_ne!(c, b);
    assert_eq!(b.as_str(&interner), "Hello, world");
    assert_eq!(c.as_str(&interner), "Hello, world!");
}

#[test]
fn growth_preserves_earlier_views() {
    let mut interner = Interner::new();
    let small1 = Symbol::intern(&mut interner, "alpha");
    let small2 = Symbol::intern(&mut interner, "beta");
    let big_input = "x".repeat(1 << 20);
    let big = Symbol::intern(&mut interner, &big_input);
    assert_eq!(small1.as_str(&interner), "alpha");
    assert_eq!(small2.as_str(&interner), "beta");
    assert_eq!(big.as_str(&interner), &big_input);
    assert_ne!(small1, big);
    assert_ne!(small2, big);
}

#[test]
fn repeated_interning_does_not_grow_table() {
    let mut interner = Interner::new();
    let first = Symbol::intern(&mut interner, "repeat");
    assert_eq!(interner.len(), 1);
    for _ in 0..10 {
        let again = Symbol::intern(&mut interner, "repeat");
        assert_eq!(again, first);
    }
    assert_eq!(interner.len(), 1);
}

#[test]
fn ids_are_dense_in_insertion_order() {
    let mut interner = Interner::new();
    assert_eq!(Symbol::intern(&mut interner, "a").as_u32(), 0);
    assert_eq!(Symbol::intern(&mut interner, "b").as_u32(), 1);
    assert_eq!(Symbol::intern(&mut interner, "a").as_u32(), 0);
    assert_eq!(Symbol::intern(&mut interner, "c").as_u32(), 2);
    assert_eq!(interner.len(), 3);
}

#[test]
fn multibyte_content_resolves_exactly() {
    let mut interner = Interner::new();
    let text = "h\u{e9}llo \u{2192} w\u{f6}rld \u{1f600}";
    let s = Symbol::intern(&mut interner, text);
    assert_eq!(s.as_str(&interner), text);
    let t = Symbol::intern(&mut interner, text);
    assert_eq!(s, t);
    assert_eq!(interner.len(), 1);
}

#[test]
fn single_character_roundtrip() {
    let mut interner = Interner::new();
    let s = Symbol::intern(&mut interner, "+");
    assert_eq!(s.as_str(&interner), "+");
    assert_eq!(s.as_u32(), 0);
}
