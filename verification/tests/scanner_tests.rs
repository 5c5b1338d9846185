use word_count::scanner::{StrBreaker, Term};

fn spans<'s>(terms: &[Term<'s>]) -> String {
    let mut all = String::new();
    for t in terms {
        match t {
            Term::Letters(s) => all.push_str(s),
            Term::Symbols(s) => all.push_str(s),
        }
    }
    all
}

fn is_word(t: &Term) -> bool {
    matches!(t, Term::Letters(_))
}

#[test]
fn test_str_breaker() {
    let mut sb = StrBreaker::new("_abc.words();");
    assert_eq!(sb.next(), Some(Term::Letters("_abc")));
    assert_eq!(sb.next(), Some(Term::Symbols(".")));
    assert_eq!(sb.next(), Some(Term::Letters("words")));
    assert_eq!(sb.next(), Some(Term::Symbols("();")));
    assert_eq!(sb.next(), None);
}

#[test]
fn collect_terms_gives_the_same_terms_as_next() {
    let mut sb = StrBreaker::new("_abc.words();");
    let terms = sb.collect_terms();
    assert_eq!(
        terms,
        vec![
            Term::Letters("_abc"),
            Term::Symbols("."),
            Term::Letters("words"),
            Term::Symbols("();"),
        ]
    );
    assert_eq!(sb.next(), None);
}

#[test]
fn empty_input_has_no_terms() {
    let mut sb = StrBreaker::new("");
    assert_eq!(sb.next(), None);
    assert_eq!(sb.next(), None);
    assert!(StrBreaker::new("").collect_terms().is_empty());
}

#[test]
fn whitespace_only_input_has_no_terms() {
    let mut sb = StrBreaker::new(" \t\n  ");
    assert_eq!(sb.next(), None);
}

#[test]
fn whitespace_at_the_ends_is_trimmed() {
    let mut sb = StrBreaker::new("  \n hello, world \t ");
    assert_eq!(sb.next(), Some(Term::Letters("hello")));
    assert_eq!(sb.next(), Some(Term::Symbols(", ")));
    assert_eq!(sb.next(), Some(Term::Letters("world")));
    assert_eq!(sb.next(), None);
}

#[test]
fn embedded_whitespace_is_symbol_content() {
    let terms = StrBreaker::new("a \t b").collect_terms();
    assert_eq!(terms, vec![Term::Letters("a"), Term::Symbols(" \t "), Term::Letters("b")]);
}

#[test]
fn apostrophe_and_underscore_belong_to_words() {
    let terms = StrBreaker::new("can't stop _foo").collect_terms();
    assert_eq!(
        terms,
        vec![
            Term::Letters("can't"),
            Term::Symbols(" "),
            Term::Letters("stop"),
            Term::Symbols(" "),
            Term::Letters("_foo"),
        ]
    );
}

#[test]
fn single_run_is_one_term() {
    assert_eq!(StrBreaker::new("word").collect_terms(), vec![Term::Letters("word")]);
    assert_eq!(StrBreaker::new("?!?").collect_terms(), vec![Term::Symbols("?!?")]);
}

#[test]
fn text_that_starts_with_a_symbol() {
    let terms = StrBreaker::new("(x)").collect_terms();
    assert_eq!(terms, vec![Term::Symbols("("), Term::Letters("x"), Term::Symbols(")")]);
}

#[test]
fn non_ascii_letters_are_word_characters() {
    let terms = StrBreaker::new("naïve — été2").collect_terms();
    assert_eq!(
        terms,
        vec![Term::Letters("naïve"), Term::Symbols(" — "), Term::Letters("été2")]
    );
}

#[test]
fn is_kinda_letter_follows_the_policy() {
    assert!(StrBreaker::is_kinda_letter('a'));
    assert!(StrBreaker::is_kinda_letter('Z'));
    assert!(StrBreaker::is_kinda_letter('7'));
    assert!(StrBreaker::is_kinda_letter('_'));
    assert!(StrBreaker::is_kinda_letter('\''));
    assert!(StrBreaker::is_kinda_letter('é'));
    assert!(!StrBreaker::is_kinda_letter('.'));
    assert!(!StrBreaker::is_kinda_letter(' '));
    assert!(!StrBreaker::is_kinda_letter('-'));
    assert!(!StrBreaker::is_kinda_letter('"'));
}

#[test]
fn terms_cover_the_text_without_gaps() {
    let inputs = [
        "_abc.words();",
        "a",
        "!",
        "one two  three",
        "x=y+z; // done",
        "don't-stop 'quoted' __init__",
        "tab\tseparated\nlines",
        "ünïcödé → text",
    ];
    for input in inputs {
        let terms = StrBreaker::new(input).collect_terms();
        assert_eq!(spans(&terms), input);
        for t in &terms {
            match t {
                Term::Letters(s) => {
                    assert!(!s.is_empty());
                    assert!(s.chars().all(StrBreaker::is_kinda_letter));
                }
                Term::Symbols(s) => {
                    assert!(!s.is_empty());
                    assert!(!s.chars().any(StrBreaker::is_kinda_letter));
                }
            }
        }
        for pair in terms.windows(2) {
            assert_ne!(is_word(&pair[0]), is_word(&pair[1]));
        }
    }
}

#[test]
fn terms_cover_the_trimmed_text() {
    let terms = StrBreaker::new("  padded text. ").collect_terms();
    assert_eq!(spans(&terms), "padded text.");
}
