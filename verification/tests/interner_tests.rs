use word_count::interner::{CanonicalWord, Interner};

#[test]
fn interning_twice_gives_the_same_word() {
    let mut interner = Interner::new();
    let a = interner.intern("hello");
    let b = interner.intern("hello");
    assert_eq!(a, b);
    assert_eq!(a.index, b.index);
    assert_eq!(interner.len(), 1);
}

#[test]
fn distinct_spellings_get_distinct_words() {
    let mut interner = Interner::new();
    let a = interner.intern("hello");
    let b = interner.intern("Hello");
    let c = interner.intern("world");
    assert_ne!(a, b);
    assert_ne!(a, c);
    assert_ne!(b, c);
    assert_eq!(interner.len(), 3);
    assert_eq!(interner.intern("Hello"), b);
    assert_eq!(interner.intern("hello"), a);
    assert_eq!(interner.len(), 3);
}

#[test]
fn words_are_numbered_in_order_of_first_occurrence() {
    let mut interner = Interner::new();
    assert_eq!(interner.intern("b").index, 0);
    assert_eq!(interner.intern("a").index, 1);
    assert_eq!(interner.intern("b").index, 0);
    assert_eq!(interner.intern("c").index, 2);
}

#[test]
fn spelling_gives_back_what_was_interned() {
    let mut interner = Interner::new();
    let a = interner.intern("alpha");
    let b = interner.intern("beta");
    assert_eq!(interner.spelling(a), Some("alpha"));
    assert_eq!(interner.spelling(b), Some("beta"));
    assert_eq!(interner.spelling(CanonicalWord { index: 2 }), None);
}

#[test]
fn find_does_not_add() {
    let mut interner = Interner::new();
    assert_eq!(interner.find("x"), None);
    assert_eq!(interner.len(), 0);
    let x = interner.intern("x");
    assert_eq!(interner.find("x"), Some(x));
    assert_eq!(interner.find("y"), None);
    assert_eq!(interner.find(""), None);
    assert_eq!(interner.len(), 1);
}

#[test]
fn new_interner_is_empty() {
    let interner = Interner::new();
    assert_eq!(interner.len(), 0);
    assert_eq!(interner.spelling(CanonicalWord { index: 0 }), None);
}
