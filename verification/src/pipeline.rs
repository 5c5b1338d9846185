//! The pipeline: scanned words are interned and counted; the report is read
//! off at the end.

use crate::counts::{key_of, recorded, Tally, WordCounts};
use crate::interner::{all_distinct, place_of, with_spelling, CanonicalWord, Interner};
use crate::report::{is_frequency_order, lines, ranks_before, report, table_lines, Row};
use crate::scanner::{
    is_trim_of, kinda_letter, lemma_scan_step, scan, StrBreaker, Term,
};
use crate::text::lemma_chars_within_bytes;
use vstd::prelude::*;
use vstd::string::StringSliceAdditionalSpecFns;

verus! {

/// The spellings interned and the tallies kept after one more occurrence of
/// the word `spelling`.
pub open spec fn absorb_word(
    state: (Seq<Seq<char>>, Seq<Tally>),
    spelling: Seq<char>,
    case_sensitive: bool,
) -> (Seq<Seq<char>>, Seq<Tally>) {
    (
        with_spelling(state.0, spelling),
        recorded(
            state.1,
            key_of(spelling, case_sensitive),
            CanonicalWord { index: place_of(state.0, spelling) as usize },
        ),
    )
}

/// The state after the terms `terms`, taken in order: each word is absorbed,
/// each symbol run is passed over.
pub open spec fn absorb_terms(
    state: (Seq<Seq<char>>, Seq<Tally>),
    terms: Seq<(bool, Seq<char>)>,
    case_sensitive: bool,
) -> (Seq<Seq<char>>, Seq<Tally>)
    decreases terms.len(),
{
    if terms.len() == 0 {
        state
    } else if terms[0].0 {
        absorb_terms(
            absorb_word(state, terms[0].1, case_sensitive),
            terms.drop_first(),
            case_sensitive,
        )
    } else {
        absorb_terms(state, terms.drop_first(), case_sensitive)
    }
}

/// How many of the terms `terms` are words.
pub open spec fn words_in(terms: Seq<(bool, Seq<char>)>) -> nat
    decreases terms.len(),
{
    if terms.len() == 0 {
        0
    } else if terms[0].0 {
        1 + words_in(terms.drop_first())
    } else {
        words_in(terms.drop_first())
    }
}

/// Every word shown by the tallies `ts` is one of the first `n` words.
pub open spec fn words_within(ts: Seq<Tally>, n: nat) -> bool {
    forall|i: int| 0 <= i < ts.len() ==> (#[trigger] ts[i]).word.index < n
}

/// Recording shows no word but those shown before and the one recorded.
pub proof fn lemma_recorded_words(ts: Seq<Tally>, key: Seq<char>, word: CanonicalWord, n: nat)
    requires
        words_within(ts, n),
        word.index < n,
    ensures
        words_within(recorded(ts, key, word), n),
    decreases ts.len(),
{
    let out = recorded(ts, key, word);
    if ts.len() == 0 || crate::text::lex_less(key, ts[0].key) {
        assert forall|i: int| 0 <= i < out.len() implies (#[trigger] out[i]).word.index < n by {
            if i > 0 {
                assert(out[i] == ts[i - 1]);
            }
        }
    } else if ts[0].key == key {
        assert forall|i: int| 0 <= i < out.len() implies (#[trigger] out[i]).word.index < n by {
            if i > 0 {
                assert(out[i] == ts[i]);
            }
        }
    } else {
        let tail = ts.drop_first();
        assert forall|i: int| 0 <= i < tail.len() implies (#[trigger] tail[i]).word.index < n by {
            assert(tail[i] == ts[i + 1]);
        }
        lemma_recorded_words(tail, key, word, n);
        let inner = recorded(tail, key, word);
        assert forall|i: int| 0 <= i < out.len() implies (#[trigger] out[i]).word.index < n by {
            if i > 0 {
                assert(out[i] == inner[i - 1]);
            } else {
                assert(out[0] == ts[0]);
            }
        }
    }
}

/// Text without a word character has no word among its terms.
pub proof fn lemma_scan_symbols_only(s: Seq<char>)
    requires
        forall|k: int| 0 <= k < s.len() ==> !kinda_letter(#[trigger] s[k]),
    ensures
        forall|i: int| 0 <= i < scan(s).len() ==> !(#[trigger] scan(s)[i]).0,
    decreases s.len(),
{
    if s.len() > 0 {
        let tail = s.drop_first();
        assert forall|k: int| 0 <= k < tail.len() implies !kinda_letter(#[trigger] tail[k]) by {
            assert(tail[k] == s[k + 1]);
        }
        lemma_scan_symbols_only(tail);
        let rest = scan(tail);
        let ts = scan(s);
        assert forall|i: int| 0 <= i < ts.len() implies !(#[trigger] ts[i]).0 by {
            if !(rest.len() > 0 && rest[0].0 == kinda_letter(s[0])) && i > 0 {
                assert(ts[i] == rest[i - 1]);
            }
        }
    }
}

/// Terms that are all symbol runs leave the state as it was.
pub proof fn lemma_absorb_symbols(
    state: (Seq<Seq<char>>, Seq<Tally>),
    terms: Seq<(bool, Seq<char>)>,
    case_sensitive: bool,
)
    requires
        forall|i: int| 0 <= i < terms.len() ==> !(#[trigger] terms[i]).0,
    ensures
        absorb_terms(state, terms, case_sensitive) == state,
    decreases terms.len(),
{
    if terms.len() > 0 {
        let tail = terms.drop_first();
        assert forall|i: int| 0 <= i < tail.len() implies !(#[trigger] tail[i]).0 by {
            assert(tail[i] == terms[i + 1]);
        }
        lemma_absorb_symbols(state, tail, case_sensitive);
    }
}

/// Text that holds nothing but symbol-like characters changes neither the
/// interned spellings nor the counting table.
pub proof fn lemma_symbols_count_nothing(
    state: (Seq<Seq<char>>, Seq<Tally>),
    s: Seq<char>,
    case_sensitive: bool,
)
    requires
        forall|k: int| 0 <= k < s.len() ==> !kinda_letter(#[trigger] s[k]),
    ensures
        absorb_terms(state, scan(s), case_sensitive) == state,
{
    lemma_scan_symbols_only(s);
    lemma_absorb_symbols(state, scan(s), case_sensitive);
}

/// An interner and a counting table that are filled together.
pub struct WordCounter {
    interner: Interner,
    counts: WordCounts,
}

impl View for WordCounter {
    type V = (Seq<Seq<char>>, Seq<Tally>);

    /// The spellings interned, in the order of their first occurrence, and
    /// the tallies in ascending key order.
    closed spec fn view(&self) -> (Seq<Seq<char>>, Seq<Tally>) {
        (self.interner@, self.counts@)
    }
}

impl WordCounter {
    /// Whether `Foo` and `foo` are counted apart.
    pub closed spec fn case_sensitive(&self) -> bool {
        self.counts.case_sensitive()
    }

    /// How many word occurrences have been counted.
    pub closed spec fn total(&self) -> nat {
        self.counts.total()
    }

    /// The interner holds no spelling twice, the table is in key order, and
    /// every word that the table shows is one of the interner's.
    pub closed spec fn wf(&self) -> bool {
        &&& self.interner.wf()
        &&& self.counts.wf()
        &&& words_within(self.counts@, self.interner@.len())
    }

    /// What [`WordCounter::wf`] says of the view.
    pub proof fn lemma_wf_view(&self)
        requires
            self.wf(),
        ensures
            all_distinct(self@.0),
            crate::counts::sorted_by_key(self@.1),
            words_within(self@.1, self@.0.len()),
    {
        self.interner.lemma_wf_distinct();
    }

    /// A counter that has seen nothing.
    pub fn new(case_sensitive: bool) -> (r: Self)
        ensures
            r.wf(),
            r@ == (Seq::<Seq<char>>::empty(), Seq::<Tally>::empty()),
            r.total() == 0,
            r.case_sensitive() == case_sensitive,
    {
        WordCounter { interner: Interner::new(), counts: WordCounts::new(case_sensitive) }
    }

    /// The number of word occurrences counted so far.
    pub fn words_counted(&self) -> (n: usize)
        ensures
            n == self.total(),
    {
        self.counts.recorded_total()
    }

    /// Counts one occurrence of the word `spelling`.
    pub fn add_word(&mut self, spelling: &str)
        requires
            old(self).wf(),
            old(self).total() < usize::MAX,
        ensures
            final(self).wf(),
            final(self)@ == absorb_word(old(self)@, spelling@, old(self).case_sensitive()),
            final(self).total() == old(self).total() + 1,
            final(self).case_sensitive() == old(self).case_sensitive(),
    {
        let word: CanonicalWord = self.interner.intern(spelling);
        proof {
            lemma_recorded_words(
                self.counts@,
                key_of(spelling@, self.counts.case_sensitive()),
                word,
                self.interner@.len(),
            );
        }
        self.counts.record(&self.interner, word);
    }

    /// Scans `text`, without the whitespace at its ends, and counts every
    /// word term in order; symbol runs are passed over.
    pub fn add_text(&mut self, text: &str)
        requires
            old(self).wf(),
            old(self).total() + text@.len() <= usize::MAX,
        ensures
            final(self).wf(),
            final(self).case_sensitive() == old(self).case_sensitive(),
            exists|r: Seq<char>| #[trigger]
                is_trim_of(r, text@) && final(self)@ == absorb_terms(
                    old(self)@,
                    scan(r),
                    old(self).case_sensitive(),
                ) && final(self).total() == old(self).total() + words_in(scan(r)),
    {
        let mut sb: StrBreaker = StrBreaker::new(text);
        let ghost r = sb.remaining();
        let ghost cs = self.case_sensitive();
        loop
            invariant
                self.wf(),
                self.case_sensitive() == cs,
                self.total() + sb.remaining().len() <= usize::MAX,
                self.total() + words_in(scan(sb.remaining())) == old(self).total() + words_in(
                    scan(r),
                ),
                absorb_terms(old(self)@, scan(r), cs) == absorb_terms(
                    self@,
                    scan(sb.remaining()),
                    cs,
                ),
            ensures
                self.wf(),
                self.case_sensitive() == cs,
                absorb_terms(old(self)@, scan(r), cs) == self@,
                self.total() == old(self).total() + words_in(scan(r)),
            decreases sb.remaining().len(),
        {
            let ghost before = sb.remaining();
            match sb.next() {
                None => {
                    break ;
                },
                Some(term) => {
                    proof {
                        lemma_scan_step(before, term@.1.len() as int);
                        assert(scan(before).drop_first() =~= scan(sb.remaining()));
                    }
                    match term {
                        Term::Letters(word) => {
                            self.add_word(word);
                        },
                        Term::Symbols(_) => {},
                    }
                },
            }
        }
        assert(is_trim_of(r, text@));
    }

    /// Counts the words of `text` as [`WordCounter::add_text`] does, if the
    /// counter has room for as many occurrences as `text` has bytes;
    /// otherwise changes nothing and returns `false`.
    pub fn try_add_text(&mut self, text: &str) -> (done: bool)
        requires
            old(self).wf(),
        ensures
            final(self).wf(),
            final(self).case_sensitive() == old(self).case_sensitive(),
            done == (old(self).total() + text.spec_bytes().len() <= usize::MAX),
            !done ==> final(self)@ == old(self)@ && final(self).total() == old(self).total(),
            done ==> exists|r: Seq<char>| #[trigger]
                is_trim_of(r, text@) && final(self)@ == absorb_terms(
                    old(self)@,
                    scan(r),
                    old(self).case_sensitive(),
                ) && final(self).total() == old(self).total() + words_in(scan(r)),
    {
        let bytes: usize = text.as_bytes().len();
        if self.words_counted() <= usize::MAX - bytes {
            proof {
                lemma_chars_within_bytes(text@);
            }
            self.add_text(text);
            true
        } else {
            false
        }
    }

    /// The report of what has been counted: rows in ascending key order, or,
    /// by frequency, in descending order of count with equal counts in
    /// ascending key order.
    pub fn report(&self, by_frequency: bool) -> (out: Vec<Row>)
        requires
            self.wf(),
        ensures
            !by_frequency ==> lines(out@) == table_lines(self@.1, self@.0),
            !by_frequency ==> forall|i: int, j: int|
                0 <= i < j < out@.len() ==> crate::text::lex_less(out@[i]@.key, out@[j]@.key),
            by_frequency ==> is_frequency_order(lines(out@), table_lines(self@.1, self@.0)),
            by_frequency ==> forall|i: int, j: int|
                0 <= i < j < out@.len() ==> ranks_before(out@[i]@, out@[j]@),
    {
        report(&self.counts, &self.interner, by_frequency)
    }
}

} // verus!
