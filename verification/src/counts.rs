//! The counting table: one tally for each count key, kept in key order.
//!
//! Where case does not matter, the key of a word is its lower-case form, and
//! the spelling shown for a key is the one that was recorded first.

use crate::interner::{CanonicalWord, Interner};
use crate::report::{table_lines, Row};
use crate::text::{
    lemma_lex_asymmetric, lemma_lex_irreflexive, lemma_lex_total, lemma_lex_transitive, lex_less,
    lowercase, str_lt,
};
use vstd::prelude::*;

verus! {

/// What the table holds for one count key: the key, the word whose spelling
/// is shown for it, and how often the key was recorded.
pub struct Tally {
    pub key: Seq<char>,
    pub word: CanonicalWord,
    pub count: nat,
}

/// The count key of a spelling: the spelling itself where case matters, its
/// lower-case form where it does not.
pub open spec fn key_of(spelling: Seq<char>, case_sensitive: bool) -> Seq<char> {
    if case_sensitive {
        spelling
    } else {
        lowercase(spelling)
    }
}

/// The keys of `ts` strictly ascend, so no key occurs twice.
pub open spec fn sorted_by_key(ts: Seq<Tally>) -> bool {
    forall|i: int, j: int| 0 <= i < j < ts.len() ==> lex_less(ts[i].key, ts[j].key)
}

/// The tallies `ts` after one more occurrence of `key`: the tally of `key`
/// counts one more where there is one; otherwise a tally with count 1 and
/// `word` as the word to show enters before the first greater key.
pub open spec fn recorded(ts: Seq<Tally>, key: Seq<char>, word: CanonicalWord) -> Seq<Tally>
    decreases ts.len(),
{
    if ts.len() == 0 || lex_less(key, ts[0].key) {
        seq![Tally { key, word, count: 1 }] + ts
    } else if ts[0].key == key {
        ts.update(0, Tally { key, word: ts[0].word, count: ts[0].count + 1 })
    } else {
        seq![ts[0]] + recorded(ts.drop_first(), key, word)
    }
}

/// How often `key` was recorded in `ts`: the count of its tally, or 0.
pub open spec fn count_of(ts: Seq<Tally>, key: Seq<char>) -> nat
    decreases ts.len(),
{
    if ts.len() == 0 {
        0
    } else if ts[0].key == key {
        ts[0].count
    } else {
        count_of(ts.drop_first(), key)
    }
}

/// Recording a key adds one to its count and leaves every other count as it
/// was.
pub proof fn lemma_recorded_counts(
    ts: Seq<Tally>,
    key: Seq<char>,
    word: CanonicalWord,
    other: Seq<char>,
)
    requires
        sorted_by_key(ts),
    ensures
        count_of(recorded(ts, key, word), key) == count_of(ts, key) + 1,
        other != key ==> count_of(recorded(ts, key, word), other) == count_of(ts, other),
    decreases ts.len(),
{
    let out = recorded(ts, key, word);
    if ts.len() == 0 || lex_less(key, ts[0].key) {
        assert(out.drop_first() =~= ts);
        lemma_count_of_absent(ts, key);
    } else if ts[0].key == key {
        assert(out.drop_first() =~= ts.drop_first());
    } else {
        let tail = ts.drop_first();
        assert forall|i: int, j: int| 0 <= i < j < tail.len() implies lex_less(
            tail[i].key,
            tail[j].key,
        ) by {
            assert(tail[i] == ts[i + 1] && tail[j] == ts[j + 1]);
        }
        lemma_recorded_counts(tail, key, word, other);
        assert(out.drop_first() =~= recorded(tail, key, word));
    }
}

/// A key below every key of a sorted table has no tally in it.
proof fn lemma_count_of_absent(ts: Seq<Tally>, key: Seq<char>)
    requires
        sorted_by_key(ts),
        ts.len() > 0 ==> lex_less(key, ts[0].key),
    ensures
        count_of(ts, key) == 0,
    decreases ts.len(),
{
    if ts.len() > 0 {
        lemma_lex_irreflexive(key);
        let tail = ts.drop_first();
        if tail.len() > 0 {
            assert(tail[0] == ts[1]);
            lemma_lex_transitive(key, ts[0].key, ts[1].key);
        }
        assert forall|i: int, j: int| 0 <= i < j < tail.len() implies lex_less(
            tail[i].key,
            tail[j].key,
        ) by {
            assert(tail[i] == ts[i + 1] && tail[j] == ts[j + 1]);
        }
        lemma_count_of_absent(tail, key);
    }
}

/// In a sorted table, recording `key` touches the place `p` that parts the
/// smaller keys from the others: the tally there counts one more if it is
/// that of `key`, and a new tally enters there if it is not.
pub proof fn lemma_recorded_at(ts: Seq<Tally>, key: Seq<char>, word: CanonicalWord, p: int)
    requires
        sorted_by_key(ts),
        0 <= p <= ts.len(),
        forall|j: int| 0 <= j < p ==> lex_less(#[trigger] ts[j].key, key),
        forall|j: int| p <= j < ts.len() ==> !lex_less(#[trigger] ts[j].key, key),
    ensures
        p < ts.len() && ts[p].key == key ==> recorded(ts, key, word) == ts.update(
            p,
            Tally { key, word: ts[p].word, count: ts[p].count + 1 },
        ),
        !(p < ts.len() && ts[p].key == key) ==> recorded(ts, key, word) == ts.insert(
            p,
            Tally { key, word, count: 1 },
        ),
        sorted_by_key(recorded(ts, key, word)),
    decreases p,
{
    let out = recorded(ts, key, word);
    let fresh = Tally { key, word, count: 1 };
    if p == 0 {
        if ts.len() > 0 && ts[0].key != key {
            lemma_lex_total(key, ts[0].key);
        }
        if ts.len() == 0 || lex_less(key, ts[0].key) {
            if ts.len() > 0 {
                lemma_lex_irreflexive(key);
            }
            assert(out =~= ts.insert(0, fresh));
            assert forall|i: int, j: int| 0 <= i < j < out.len() implies lex_less(
                out[i].key,
                out[j].key,
            ) by {
                if i == 0 {
                    assert(out[j] == ts[j - 1]);
                    if j > 1 {
                        lemma_lex_transitive(key, ts[0].key, ts[j - 1].key);
                    }
                } else {
                    assert(out[i] == ts[i - 1] && out[j] == ts[j - 1]);
                }
            }
        }
    } else {
        let tail = ts.drop_first();
        assert(ts[0].key != key) by {
            lemma_lex_irreflexive(key);
        }
        lemma_lex_asymmetric(ts[0].key, key);
        assert forall|i: int, j: int| 0 <= i < j < tail.len() implies lex_less(
            tail[i].key,
            tail[j].key,
        ) by {
            assert(tail[i] == ts[i + 1] && tail[j] == ts[j + 1]);
        }
        assert forall|j: int| 0 <= j < p - 1 implies lex_less(#[trigger] tail[j].key, key) by {
            assert(tail[j] == ts[j + 1]);
        }
        assert forall|j: int| p - 1 <= j < tail.len() implies !lex_less(
            #[trigger] tail[j].key,
            key,
        ) by {
            assert(tail[j] == ts[j + 1]);
        }
        lemma_recorded_at(tail, key, word, p - 1);
        let inner = recorded(tail, key, word);
        assert(out == seq![ts[0]] + inner);
        if p < ts.len() && ts[p].key == key {
            assert(tail[p - 1] == ts[p]);
            assert(out =~= ts.update(p, Tally { key, word: ts[p].word, count: ts[p].count + 1 }));
        } else {
            if p < ts.len() {
                assert(tail[p - 1] == ts[p]);
            }
            assert(out =~= ts.insert(p, fresh));
        }
        assert forall|i: int, j: int| 0 <= i < j < out.len() implies lex_less(
            out[i].key,
            out[j].key,
        ) by {
            if i == 0 {
                // Every key of `inner` is `key` or a key of `tail`.
                let t = inner[j - 1];
                if t.key != key {
                    if p < ts.len() && ts[p].key == key {
                        assert(t == tail[j - 1]);
                        assert(tail[j - 1] == ts[j]);
                    } else {
                        if j - 1 < p - 1 {
                            assert(t == tail[j - 1]);
                            assert(tail[j - 1] == ts[j]);
                        } else {
                            assert(t == tail[j - 2]);
                            assert(tail[j - 2] == ts[j - 1]);
                        }
                    }
                }
            } else {
                assert(out[i] == inner[i - 1] && out[j] == inner[j - 1]);
            }
        }
    }
}

struct Entry {
    key: String,
    word: CanonicalWord,
    count: usize,
}

/// The counting table, with the case policy that its keys follow.
pub struct WordCounts {
    case_sensitive: bool,
    entries: Vec<Entry>,
    total: usize,
}

impl View for WordCounts {
    type V = Seq<Tally>;

    /// The tallies in ascending key order.
    closed spec fn view(&self) -> Seq<Tally> {
        Seq::new(
            self.entries@.len(),
            |i: int|
                Tally {
                    key: self.entries@[i].key@,
                    word: self.entries@[i].word,
                    count: self.entries@[i].count as nat,
                },
        )
    }
}

impl WordCounts {
    /// Whether `Foo` and `foo` are counted apart.
    pub closed spec fn case_sensitive(&self) -> bool {
        self.case_sensitive
    }

    /// How many occurrences have been recorded in all.
    pub closed spec fn total(&self) -> nat {
        self.total as nat
    }

    /// Keys ascend strictly, and every count is at least 1 and at most the
    /// number of occurrences recorded.
    pub open spec fn wf(&self) -> bool {
        &&& sorted_by_key(self@)
        &&& forall|i: int| 0 <= i < self@.len() ==> 1 <= (#[trigger] self@[i]).count <= self.total()
    }

    /// An empty table with the given case policy.
    pub fn new(case_sensitive: bool) -> (r: Self)
        ensures
            r.wf(),
            r@ == Seq::<Tally>::empty(),
            r.total() == 0,
            r.case_sensitive() == case_sensitive,
    {
        let r = WordCounts { case_sensitive, entries: Vec::new(), total: 0 };
        assert(r@ =~= Seq::<Tally>::empty());
        r
    }

    /// The number of distinct count keys.
    pub fn len(&self) -> (n: usize)
        ensures
            n == self@.len(),
    {
        self.entries.len()
    }

    /// The number of occurrences recorded so far.
    pub fn recorded_total(&self) -> (n: usize)
        ensures
            n == self.total(),
    {
        self.total
    }

    /// Whether the table counts `Foo` and `foo` apart.
    pub fn is_case_sensitive(&self) -> (b: bool)
        ensures
            b == self.case_sensitive(),
    {
        self.case_sensitive
    }

    /// The place that parts the keys smaller than `key` from the others.
    fn lower_bound(&self, key: &str) -> (p: usize)
        requires
            self.wf(),
        ensures
            p <= self@.len(),
            forall|j: int| 0 <= j < p ==> lex_less(#[trigger] self@[j].key, key@),
            forall|j: int| p <= j < self@.len() ==> !lex_less(#[trigger] self@[j].key, key@),
    {
        let mut lo: usize = 0;
        let mut hi: usize = self.entries.len();
        while lo < hi
            invariant
                lo <= hi <= self@.len(),
                self@.len() == self.entries@.len(),
                self.wf(),
                forall|j: int| 0 <= j < lo ==> lex_less(#[trigger] self@[j].key, key@),
                forall|j: int| hi <= j < self@.len() ==> !lex_less(#[trigger] self@[j].key, key@),
            decreases hi - lo,
        {
            let mid: usize = lo + (hi - lo) / 2;
            assert(self@[mid as int].key == self.entries@[mid as int].key@);
            if str_lt(self.entries[mid].key.as_str(), key) {
                proof {
                    assert forall|j: int| 0 <= j < mid + 1 implies lex_less(
                        #[trigger] self@[j].key,
                        key@,
                    ) by {
                        if j < mid {
                            lemma_lex_transitive(self@[j].key, self@[mid as int].key, key@);
                        }
                    }
                }
                lo = mid + 1;
            } else {
                proof {
                    assert forall|j: int| mid <= j < self@.len() implies !lex_less(
                        #[trigger] self@[j].key,
                        key@,
                    ) by {
                        if j > mid && lex_less(self@[j].key, key@) {
                            lemma_lex_transitive(self@[mid as int].key, self@[j].key, key@);
                        }
                    }
                }
                hi = mid;
            }
        }
        lo
    }

    /// Counts one more occurrence of `key`; `word` is shown for the key if
    /// this is its first occurrence.
    pub fn record_key(&mut self, key: &str, word: CanonicalWord)
        requires
            old(self).wf(),
            old(self).total() < usize::MAX,
        ensures
            final(self).wf(),
            final(self)@ == recorded(old(self)@, key@, word),
            final(self).total() == old(self).total() + 1,
            final(self).case_sensitive() == old(self).case_sensitive(),
    {
        let p: usize = self.lower_bound(key);
        proof {
            lemma_recorded_at(self@, key@, word, p as int);
        }
        if p < self.entries.len() && !str_lt(key, self.entries[p].key.as_str()) {
            assert(old(self)@[p as int].key == key@) by {
                assert(old(self)@[p as int].key == self.entries@[p as int].key@);
                if old(self)@[p as int].key != key@ {
                    lemma_lex_total(old(self)@[p as int].key, key@);
                }
            }
            let count: usize = self.entries[p].count;
            assert(old(self)@[p as int].count == count);
            self.entries[p].count = count + 1;
            self.total = self.total + 1;
            proof {
                assert(self@ =~= old(self)@.update(
                    p as int,
                    Tally { key: key@, word: old(self)@[p as int].word, count: (count + 1) as nat },
                ));
            }
        } else {
            if p < self.entries.len() {
                assert(old(self)@[p as int].key != key@) by {
                    assert(old(self)@[p as int].key == self.entries@[p as int].key@);
                    lemma_lex_irreflexive(key@);
                }
            }
            self.entries.insert(p, Entry { key: key.to_owned(), word, count: 1 });
            self.total = self.total + 1;
            proof {
                assert(self@ =~= old(self)@.insert(p as int, Tally { key: key@, word, count: 1 }));
            }
        }
    }

    /// Records one occurrence of `word`, a word of `interner`, under the
    /// count key that the case policy gives its spelling.
    pub fn record(&mut self, interner: &Interner, word: CanonicalWord)
        requires
            old(self).wf(),
            old(self).total() < usize::MAX,
            interner.holds(word),
        ensures
            final(self).wf(),
            final(self)@ == recorded(
                old(self)@,
                key_of(interner@[word.index as int], old(self).case_sensitive()),
                word,
            ),
            final(self).total() == old(self).total() + 1,
            final(self).case_sensitive() == old(self).case_sensitive(),
    {
        match interner.spelling(word) {
            Some(spelling) => {
                if self.case_sensitive {
                    self.record_key(spelling, word);
                } else {
                    let folded: String = spelling.to_lowercase();
                    self.record_key(folded.as_str(), word);
                }
            },
            None => {},
        }
    }

    /// The row of the tally at place `i`, with the spelling that `interner`
    /// holds for its word.
    pub fn row_at(&self, i: usize, interner: &Interner) -> (row: Row)
        requires
            i < self@.len(),
            interner.holds(self@[i as int].word),
        ensures
            row@ == table_lines(self@, interner@)[i as int],
    {
        let entry = &self.entries[i];
        let word: String = match interner.spelling(entry.word) {
            Some(s) => s.to_owned(),
            None => String::new(),
        };
        Row { key: entry.key.clone(), word, count: entry.count }
    }
}

} // verus!
