use std::cmp::Ordering;
use word_count::counts::WordCounts;
use word_count::interner::Interner;
use word_count::pipeline::WordCounter;
use word_count::report::{rank_order, report, rows, Row};

fn row(key: &str, word: &str, count: usize) -> Row {
    Row { key: key.to_string(), word: word.to_string(), count }
}

fn shown(rows: &[Row]) -> Vec<(String, usize)> {
    rows.iter().map(|r| (r.word.clone(), r.count)).collect()
}

fn pair(word: &str, count: usize) -> (String, usize) {
    (word.to_string(), count)
}

#[test]
fn case_insensitive_merges_spellings() {
    let mut counter = WordCounter::new(false);
    counter.add_word("Foo");
    counter.add_word("foo");
    let rows = counter.report(false);
    assert_eq!(rows, vec![row("foo", "Foo", 2)]);
    assert_eq!(counter.words_counted(), 2);
}

#[test]
fn case_sensitive_keeps_spellings_apart() {
    let mut counter = WordCounter::new(true);
    counter.add_word("Foo");
    counter.add_word("foo");
    let rows = counter.report(false);
    assert_eq!(rows, vec![row("Foo", "Foo", 1), row("foo", "foo", 1)]);
}

#[test]
fn merged_key_shows_the_first_spelling_seen() {
    let mut counter = WordCounter::new(false);
    counter.add_text("hello HELLO Hello");
    assert_eq!(counter.report(false), vec![row("hello", "hello", 3)]);
    let mut counter = WordCounter::new(false);
    counter.add_text("HELLO hello");
    assert_eq!(counter.report(false), vec![row("hello", "HELLO", 2)]);
}

#[test]
fn symbols_only_text_counts_nothing() {
    let mut counter = WordCounter::new(false);
    counter.add_text("!!! ... ;;;");
    assert!(counter.report(false).is_empty());
    assert!(counter.report(true).is_empty());
    assert_eq!(counter.words_counted(), 0);
}

#[test]
fn symbols_only_text_leaves_earlier_counts() {
    let mut counter = WordCounter::new(true);
    counter.add_text("one two");
    let before = counter.report(false);
    counter.add_text("-- ++ ?!");
    assert_eq!(counter.report(false), before);
    assert_eq!(counter.words_counted(), 2);
}

#[test]
fn by_frequency_breaks_ties_by_key() {
    let mut counter = WordCounter::new(true);
    counter.add_text("b a c b a");
    let rows = counter.report(true);
    assert_eq!(shown(&rows), vec![pair("a", 2), pair("b", 2), pair("c", 1)]);
}

#[test]
fn by_frequency_puts_greater_counts_first() {
    let mut counter = WordCounter::new(true);
    counter.add_text("a b b c c c");
    assert_eq!(shown(&counter.report(true)), vec![pair("c", 3), pair("b", 2), pair("a", 1)]);
    assert_eq!(shown(&counter.report(false)), vec![pair("a", 1), pair("b", 2), pair("c", 3)]);
}

#[test]
fn one_file_default_policy() {
    let mut counter = WordCounter::new(false);
    counter.add_text("cat dog Cat");
    assert_eq!(shown(&counter.report(false)), vec![pair("cat", 2), pair("dog", 1)]);
}

#[test]
fn one_file_case_sensitive() {
    let mut counter = WordCounter::new(true);
    counter.add_text("cat dog Cat");
    assert_eq!(
        shown(&counter.report(false)),
        vec![pair("Cat", 1), pair("cat", 1), pair("dog", 1)]
    );
}

#[test]
fn counts_add_up_over_several_texts() {
    let mut counter = WordCounter::new(false);
    counter.add_text("red green");
    counter.add_text("");
    counter.add_text("  green, blue; RED red ");
    assert_eq!(
        shown(&counter.report(false)),
        vec![pair("blue", 1), pair("green", 2), pair("red", 3)]
    );
    assert_eq!(counter.words_counted(), 6);
}

#[test]
fn rows_ascend_by_key() {
    let mut counter = WordCounter::new(true);
    counter.add_text("pear apple zebra Apple apples ab a");
    let words: Vec<String> = counter.report(false).into_iter().map(|r| r.word).collect();
    assert_eq!(words, vec!["Apple", "a", "ab", "apple", "apples", "pear", "zebra"]);
}

#[test]
fn keys_order_by_code_point() {
    let mut counter = WordCounter::new(true);
    counter.add_text("é z e");
    let words: Vec<String> = counter.report(false).into_iter().map(|r| r.word).collect();
    assert_eq!(words, vec!["e", "z", "é"]);
}

#[test]
fn case_insensitive_rows_order_by_folded_key() {
    let mut counter = WordCounter::new(false);
    counter.add_text("Zoo apple Bear");
    let rows = counter.report(false);
    assert_eq!(rows, vec![row("apple", "apple", 1), row("bear", "Bear", 1), row("zoo", "Zoo", 1)]);
}

#[test]
fn table_records_by_key() {
    let mut interner = Interner::new();
    let mut counts = WordCounts::new(true);
    assert!(counts.is_case_sensitive());
    let b = interner.intern("b");
    let a = interner.intern("a");
    counts.record(&interner, b);
    counts.record(&interner, a);
    counts.record(&interner, b);
    assert_eq!(counts.len(), 2);
    assert_eq!(counts.recorded_total(), 3);
    assert_eq!(counts.row_at(0, &interner), row("a", "a", 1));
    assert_eq!(counts.row_at(1, &interner), row("b", "b", 2));
    assert_eq!(rows(&counts, &interner), vec![row("a", "a", 1), row("b", "b", 2)]);
    assert_eq!(report(&counts, &interner, true), vec![row("b", "b", 2), row("a", "a", 1)]);
}

#[test]
fn record_key_counts_under_the_key_given() {
    let mut interner = Interner::new();
    let mut counts = WordCounts::new(false);
    assert!(!counts.is_case_sensitive());
    let w = interner.intern("Word");
    let v = interner.intern("WORD");
    counts.record_key("word", w);
    counts.record_key("word", v);
    counts.record_key("other", v);
    assert_eq!(
        rows(&counts, &interner),
        vec![row("other", "WORD", 1), row("word", "Word", 2)]
    );
}

#[test]
fn new_table_is_empty() {
    let counts = WordCounts::new(false);
    assert_eq!(counts.len(), 0);
    assert_eq!(counts.recorded_total(), 0);
    assert!(rows(&counts, &Interner::new()).is_empty());
}

#[test]
fn rank_order_is_count_then_key() {
    assert_eq!(rank_order(&row("a", "a", 2), &row("b", "b", 1)), Ordering::Less);
    assert_eq!(rank_order(&row("a", "a", 1), &row("b", "b", 2)), Ordering::Greater);
    assert_eq!(rank_order(&row("a", "a", 2), &row("b", "b", 2)), Ordering::Less);
    assert_eq!(rank_order(&row("b", "b", 2), &row("a", "a", 2)), Ordering::Greater);
    assert_eq!(rank_order(&row("a", "A", 2), &row("a", "a", 2)), Ordering::Equal);
    assert_eq!(rank_order(&row("ab", "ab", 2), &row("a", "a", 2)), Ordering::Greater);
}

#[test]
fn try_add_text_counts_like_add_text() {
    let mut a = WordCounter::new(false);
    let mut b = WordCounter::new(false);
    a.add_text("one Two two, three!");
    assert!(b.try_add_text("one Two two, three!"));
    assert_eq!(a.report(true), b.report(true));
    assert_eq!(b.words_counted(), 4);
    assert_eq!(shown(&b.report(true)), vec![pair("Two", 2), pair("one", 1), pair("three", 1)]);
}

#[test]
fn words_counted_is_the_number_of_word_terms() {
    let mut counter = WordCounter::new(true);
    counter.add_text("a-b-c d");
    assert_eq!(counter.words_counted(), 4);
    counter.add_text("...");
    assert_eq!(counter.words_counted(), 4);
    counter.add_word("e");
    assert_eq!(counter.words_counted(), 5);
}
