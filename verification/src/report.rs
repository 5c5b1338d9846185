//! The report: the rows of the counting table in one of two orders.

use crate::counts::{Tally, WordCounts};
use crate::interner::Interner;
use crate::text::{lemma_lex_asymmetric, lemma_lex_irreflexive, lemma_lex_total, lex_less, str_lt};
use crate::counts::sorted_by_key;
use std::cmp::Ordering;
use vstd::prelude::*;
use vstd::seq_lib::to_multiset_contains;

verus! {

/// What a row says: the count key, the spelling shown, and the count.
pub struct Line {
    pub key: Seq<char>,
    pub word: Seq<char>,
    pub count: nat,
}

/// One row of the report.
#[derive(Debug, Clone, PartialEq, Eq)]
pub struct Row {
    /// The count key, by which rows are ordered.
    pub key: String,
    /// The spelling to show.
    pub word: String,
    /// How often the key was recorded.
    pub count: usize,
}

impl View for Row {
    type V = Line;

    open spec fn view(&self) -> Line {
        Line { key: self.key@, word: self.word@, count: self.count as nat }
    }
}

/// The views of the rows `rows`.
pub open spec fn lines(rows: Seq<Row>) -> Seq<Line> {
    Seq::new(rows.len(), |i: int| rows[i]@)
}

/// The rows of the tallies `ts`, in the same order, each with the spelling
/// that `words` holds for its word.
pub open spec fn table_lines(ts: Seq<Tally>, words: Seq<Seq<char>>) -> Seq<Line> {
    Seq::new(
        ts.len(),
        |i: int| Line { key: ts[i].key, word: words[ts[i].word.index as int], count: ts[i].count },
    )
}

/// `a` stands before `b` in a report by frequency: it has the greater count,
/// or the same count and the smaller key.
pub open spec fn ranks_before(a: Line, b: Line) -> bool {
    a.count > b.count || (a.count == b.count && lex_less(a.key, b.key))
}

/// `out` holds the rows of `src`, each as often as `src` does, and no row
/// stands behind one that it ranks before.
pub open spec fn is_frequency_order(out: Seq<Line>, src: Seq<Line>) -> bool {
    &&& out.to_multiset() == src.to_multiset()
    &&& forall|i: int, j: int| 0 <= i < j < out.len() ==> !ranks_before(out[j], out[i])
}

/// No key occurs twice in `ls`.
pub open spec fn distinct_keys(ls: Seq<Line>) -> bool {
    forall|i: int, j: int| 0 <= i < j < ls.len() ==> ls[i].key != ls[j].key
}

/// The rows of a counting table in key order hold no key twice.
pub proof fn lemma_table_lines_distinct(ts: Seq<Tally>, words: Seq<Seq<char>>)
    requires
        sorted_by_key(ts),
    ensures
        distinct_keys(table_lines(ts, words)),
{
    let ls = table_lines(ts, words);
    assert forall|i: int, j: int| 0 <= i < j < ls.len() implies ls[i].key != ls[j].key by {
        assert(lex_less(ts[i].key, ts[j].key));
        lemma_lex_irreflexive(ts[i].key);
    }
}

/// Where no key occurs twice, the order of a report by frequency is fixed:
/// every row ranks before each row behind it, by its greater count or, at
/// equal counts, by its smaller key.
pub proof fn lemma_frequency_order_strict(out: Seq<Line>, src: Seq<Line>)
    requires
        is_frequency_order(out, src),
        distinct_keys(src),
    ensures
        forall|i: int, j: int| 0 <= i < j < out.len() ==> ranks_before(out[i], out[j]),
{
    assert(src.no_duplicates());
    src.lemma_multiset_has_no_duplicates();
    out.lemma_multiset_has_no_duplicates_conv();
    assert forall|i: int, j: int| 0 <= i < j < out.len() implies ranks_before(out[i], out[j]) by {
        if !ranks_before(out[i], out[j]) {
            assert(!ranks_before(out[j], out[i]));
            if out[i].key != out[j].key {
                lemma_lex_total(out[i].key, out[j].key);
            }
            assert(out.contains(out[i]));
            assert(out.contains(out[j]));
            to_multiset_contains(out, out[i]);
            to_multiset_contains(out, out[j]);
            to_multiset_contains(src, out[i]);
            to_multiset_contains(src, out[j]);
            assert(src.contains(out[i]));
            assert(src.contains(out[j]));
            let a = choose|a: int| 0 <= a < src.len() && src[a] == out[i];
            let b = choose|b: int| 0 <= b < src.len() && src[b] == out[j];
            assert(out[i] == out[j]);
        }
    }
}

/// Compares two rows for a report by frequency: `Less` where `a` ranks
/// before `b`, `Greater` where `b` ranks before `a`, `Equal` where count and
/// key agree.
pub fn rank_order(a: &Row, b: &Row) -> (r: Ordering)
    ensures
        matches!(r, Ordering::Less) == ranks_before(a@, b@),
        matches!(r, Ordering::Greater) == ranks_before(b@, a@),
{
    if a.count > b.count {
        Ordering::Less
    } else if a.count < b.count {
        Ordering::Greater
    } else if str_lt(a.key.as_str(), b.key.as_str()) {
        proof {
            lemma_lex_asymmetric(a.key@, b.key@);
        }
        Ordering::Less
    } else if str_lt(b.key.as_str(), a.key.as_str()) {
        Ordering::Greater
    } else {
        Ordering::Equal
    }
}

/// `sort_unstable_by` on a slice, with [`rank_order`] as the comparison: the
/// rows are rearranged, none added or lost, so that no row stands behind one
/// that the comparison puts after it.
#[verifier::external_body]
fn sort_rows(rows: &mut Vec<Row>)
    ensures
        is_frequency_order(lines(final(rows)@), lines(old(rows)@)),
{
    rows.sort_unstable_by(|a, b| rank_order(a, b));
}

/// The rows of `counts` in ascending key order, with the spellings that
/// `interner` holds for their words.
pub fn rows(counts: &WordCounts, interner: &Interner) -> (out: Vec<Row>)
    requires
        forall|i: int| 0 <= i < counts@.len() ==> interner.holds(#[trigger] counts@[i].word),
    ensures
        lines(out@) == table_lines(counts@, interner@),
{
    let mut out: Vec<Row> = Vec::new();
    let n: usize = counts.len();
    let mut i: usize = 0;
    while i < n
        invariant
            i <= n,
            n == counts@.len(),
            out@.len() == i,
            forall|i: int| 0 <= i < counts@.len() ==> interner.holds(#[trigger] counts@[i].word),
            forall|k: int| 0 <= k < i ==> (#[trigger] out@[k])@ == table_lines(counts@, interner@)[k],
        decreases n - i,
    {
        let row: Row = counts.row_at(i, interner);
        out.push(row);
        i += 1;
    }
    assert(lines(out@) =~= table_lines(counts@, interner@));
    out
}

/// The report: the rows of `counts` in ascending key order, or, by
/// frequency, in descending order of count with equal counts in ascending
/// key order.
pub fn report(counts: &WordCounts, interner: &Interner, by_frequency: bool) -> (out: Vec<Row>)
    requires
        counts.wf(),
        forall|i: int| 0 <= i < counts@.len() ==> interner.holds(#[trigger] counts@[i].word),
    ensures
        !by_frequency ==> lines(out@) == table_lines(counts@, interner@),
        !by_frequency ==> forall|i: int, j: int|
            0 <= i < j < out@.len() ==> lex_less(out@[i]@.key, out@[j]@.key),
        by_frequency ==> is_frequency_order(lines(out@), table_lines(counts@, interner@)),
        by_frequency ==> forall|i: int, j: int|
            0 <= i < j < out@.len() ==> ranks_before(out@[i]@, out@[j]@),
{
    let mut out: Vec<Row> = rows(counts, interner);
    proof {
        assert forall|i: int, j: int| 0 <= i < j < out@.len() implies lex_less(
            out@[i]@.key,
            out@[j]@.key,
        ) by {
            let table = table_lines(counts@, interner@);
            assert(lines(out@).len() == table.len());
            assert(lines(out@)[i] == table[i] && lines(out@)[j] == table[j]);
            assert(lex_less(counts@[i].key, counts@[j].key));
        }
    }
    if by_frequency {
        sort_rows(&mut out);
        proof {
            lemma_table_lines_distinct(counts@, interner@);
            lemma_frequency_order_strict(lines(out@), table_lines(counts@, interner@));
            assert forall|i: int, j: int| 0 <= i < j < out@.len() implies ranks_before(
                out@[i]@,
                out@[j]@,
            ) by {
                assert(lines(out@)[i] == out@[i]@ && lines(out@)[j] == out@[j]@);
            }
        }
    }
    out
}

} // verus!
