use word_count::pipeline::WordCounter;
use word_count::render::{max_word_width, push_decimal, render, render_row};
use word_count::report::Row;

fn row(key: &str, word: &str, count: usize) -> Row {
    Row { key: key.to_string(), word: word.to_string(), count }
}

#[test]
fn row_without_padding() {
    assert_eq!(render_row(&row("cat", "cat", 2), 3), "cat: 2");
    assert_eq!(render_row(&row("cat", "cat", 2), 0), "cat: 2");
    assert_eq!(render_row(&row("cat", "Cat", 2), 2), "Cat: 2");
}

#[test]
fn row_is_right_aligned() {
    assert_eq!(render_row(&row("cat", "cat", 2), 5), "  cat: 2");
    assert_eq!(render_row(&row("a", "a", 10), 3), "  a: 10");
}

#[test]
fn width_counts_characters() {
    assert_eq!(max_word_width(&vec![row("été", "été", 1), row("ab", "ab", 1)]), 3);
    assert_eq!(render_row(&row("é", "é", 1), 3), "  é: 1");
}

#[test]
fn widest_word_of_no_rows_is_zero() {
    assert_eq!(max_word_width(&Vec::new()), 0);
    assert!(render(&Vec::new()).is_empty());
}

#[test]
fn widest_word_is_found_anywhere() {
    assert_eq!(max_word_width(&vec![row("abcd", "abcd", 1), row("a", "a", 1)]), 4);
    assert_eq!(max_word_width(&vec![row("a", "a", 1), row("abcd", "abcd", 1)]), 4);
    assert_eq!(
        max_word_width(&vec![row("a", "a", 1), row("abcde", "abcde", 1), row("ab", "ab", 1)]),
        5
    );
}

#[test]
fn decimal_digits() {
    let cases: [(usize, &str); 8] = [
        (0, "0"),
        (7, "7"),
        (9, "9"),
        (10, "10"),
        (42, "42"),
        (100, "100"),
        (1234567890, "1234567890"),
        (9007199254740993, "9007199254740993"),
    ];
    for (n, text) in cases {
        let mut line = String::from("n=");
        push_decimal(&mut line, n);
        assert_eq!(line, format!("n={}", text));
    }
    let mut line = String::new();
    push_decimal(&mut line, usize::MAX);
    assert_eq!(line, format!("{}", usize::MAX));
}

#[test]
fn lines_are_aligned_to_the_longest_word() {
    let rows = vec![row("a", "a", 10), row("dog", "dog", 1), row("to", "to", 123)];
    assert_eq!(render(&rows), vec!["  a: 10", "dog: 1", " to: 123"]);
}

#[test]
fn rendered_report_of_a_text() {
    let mut counter = WordCounter::new(false);
    counter.add_text("cat dog Cat horse");
    assert_eq!(render(&counter.report(false)), vec!["  cat: 2", "  dog: 1", "horse: 1"]);
    assert_eq!(render(&counter.report(true)), vec!["  cat: 2", "  dog: 1", "horse: 1"]);
    let mut counter = WordCounter::new(true);
    counter.add_text("cat dog Cat");
    assert_eq!(render(&counter.report(false)), vec!["Cat: 1", "cat: 1", "dog: 1"]);
}
