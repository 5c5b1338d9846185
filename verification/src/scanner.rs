//! The term scanner: splits text into maximal runs of word characters and
//! maximal runs of everything else.

use vstd::prelude::*;
use vstd::string::{StrSliceExecFns, StringSliceAdditionalSpecFns};
use vstd::utf8::{
    encode_utf8, encode_utf8_decode_utf8, encode_utf8_first_scalar, encode_utf8_valid_utf8,
    is_char_boundary, pop_first_scalar,
};

verus! {

/// Whether `c` is alphabetic or numeric in Unicode's sense, as
/// `char::is_alphanumeric` decides it.
pub uninterp spec fn alphanumeric(c: char) -> bool;

/// Whether `c` has Unicode's `White_Space` property, which is what
/// `str::trim` strips.
pub uninterp spec fn whitespace(c: char) -> bool;

/// `char::is_alphanumeric`: a fixed property of the character, taken from
/// Unicode's tables and named [`alphanumeric`] here.
pub assume_specification[ char::is_alphanumeric ](c: char) -> (b: bool)
    ensures
        b == alphanumeric(c),
;

/// `str::trim`: the result is a slice of `s` with nothing but whitespace
/// before and after it, and it neither starts nor ends with whitespace.
pub assume_specification<'a>[ str::trim ](s: &'a str) -> (r: &'a str)
    ensures
        r@.len() > 0 ==> !whitespace(r@.first()) && !whitespace(r@.last()),
        is_cut_from_whitespace(r@, s@),
;

/// `r` is a slice of `s`, and every character of `s` outside it is
/// whitespace.
pub open spec fn is_cut_from_whitespace(r: Seq<char>, s: Seq<char>) -> bool {
    exists|i: int, j: int|
        {
            &&& 0 <= i <= j <= s.len()
            &&& r == #[trigger] s.subrange(i, j)
            &&& forall|k: int| 0 <= k < i ==> whitespace(#[trigger] s[k])
            &&& forall|k: int| j <= k < s.len() ==> whitespace(#[trigger] s[k])
        }
}

/// `r` is `s` without its leading and trailing whitespace.
pub open spec fn is_trim_of(r: Seq<char>, s: Seq<char>) -> bool {
    &&& is_cut_from_whitespace(r, s)
    &&& r.len() > 0 ==> !whitespace(r.first()) && !whitespace(r.last())
}

/// A text has only one trimmed form.
pub proof fn lemma_trim_unique(r1: Seq<char>, r2: Seq<char>, s: Seq<char>)
    requires
        is_trim_of(r1, s),
        is_trim_of(r2, s),
    ensures
        r1 == r2,
{
    let (i1, j1) = choose|i: int, j: int|
        {
            &&& 0 <= i <= j <= s.len()
            &&& r1 == #[trigger] s.subrange(i, j)
            &&& forall|k: int| 0 <= k < i ==> whitespace(#[trigger] s[k])
            &&& forall|k: int| j <= k < s.len() ==> whitespace(#[trigger] s[k])
        };
    let (i2, j2) = choose|i: int, j: int|
        {
            &&& 0 <= i <= j <= s.len()
            &&& r2 == #[trigger] s.subrange(i, j)
            &&& forall|k: int| 0 <= k < i ==> whitespace(#[trigger] s[k])
            &&& forall|k: int| j <= k < s.len() ==> whitespace(#[trigger] s[k])
        };
    if i1 < j1 {
        assert(r1.first() == s[i1] && r1.last() == s[j1 - 1]);
    }
    if i2 < j2 {
        assert(r2.first() == s[i2] && r2.last() == s[j2 - 1]);
    }
    if i1 < j1 && i2 < j2 {
        assert(i1 == i2);
        assert(j1 == j2);
    } else {
        assert(i1 == j1 && i2 == j2);
        assert(r1 =~= r2);
    }
}

/// Text that neither starts nor ends with whitespace is its own trimmed
/// form, so its terms are those of the whole text.
pub proof fn lemma_trim_of_tight(r: Seq<char>, s: Seq<char>)
    requires
        is_trim_of(r, s),
        s.len() > 0 ==> !whitespace(s.first()) && !whitespace(s.last()),
    ensures
        r == s,
{
    let (i, j) = choose|i: int, j: int|
        {
            &&& 0 <= i <= j <= s.len()
            &&& r == #[trigger] s.subrange(i, j)
            &&& forall|k: int| 0 <= k < i ==> whitespace(#[trigger] s[k])
            &&& forall|k: int| j <= k < s.len() ==> whitespace(#[trigger] s[k])
        };
    if s.len() > 0 {
        assert(i == 0) by {
            if i > 0 {
                assert(whitespace(s[0]));
            }
        }
        assert(j == s.len()) by {
            if j < s.len() {
                assert(whitespace(s[s.len() - 1]));
            }
        }
    }
    assert(s.subrange(i, j) =~= s);
}

/// The word-character policy: alphanumeric, underscore or apostrophe.
pub open spec fn kinda_letter(c: char) -> bool {
    alphanumeric(c) || c == '_' || c == '\''
}

/// The first `n` characters of `s` all classify as `word`, and the run
/// cannot be extended: `s` ends there or its next character classifies
/// otherwise.
pub open spec fn is_run(s: Seq<char>, n: int, word: bool) -> bool {
    &&& 0 <= n <= s.len()
    &&& forall|k: int| 0 <= k < n ==> kinda_letter(#[trigger] s[k]) == word
    &&& n < s.len() ==> kinda_letter(s[n]) != word
}

/// The terms of `s` in order, each as its classification (`true` for a word)
/// and its characters: a character joins the term that follows it where both
/// classify alike, and starts a term of its own otherwise.
pub open spec fn scan(s: Seq<char>) -> Seq<(bool, Seq<char>)>
    decreases s.len(),
{
    if s.len() == 0 {
        Seq::empty()
    } else {
        let word = kinda_letter(s[0]);
        let rest = scan(s.drop_first());
        if rest.len() > 0 && rest[0].0 == word {
            rest.update(0, (word, seq![s[0]] + rest[0].1))
        } else {
            seq![(word, seq![s[0]])] + rest
        }
    }
}

/// The characters of the terms `ts`, one term after the other.
pub open spec fn concat_spans(ts: Seq<(bool, Seq<char>)>) -> Seq<char>
    decreases ts.len(),
{
    if ts.len() == 0 {
        Seq::empty()
    } else {
        ts[0].1 + concat_spans(ts.drop_first())
    }
}

/// The views of the terms `ts`.
pub open spec fn term_views(ts: Seq<Term>) -> Seq<(bool, Seq<char>)> {
    Seq::new(ts.len(), |i: int| ts[i]@)
}

/// Scanning text never loses, adds or reorders a character; no term is
/// empty; every character of a term classifies as the term does; and two
/// neighbouring terms never classify alike.
pub proof fn lemma_scan_covers(s: Seq<char>)
    ensures
        concat_spans(scan(s)) == s,
        forall|i: int| 0 <= i < scan(s).len() ==> (#[trigger] scan(s)[i]).1.len() > 0,
        forall|i: int, k: int|
            0 <= i < scan(s).len() && 0 <= k < scan(s)[i].1.len() ==> kinda_letter(
                #[trigger] scan(s)[i].1[k],
            ) == scan(s)[i].0,
        forall|i: int|
            0 <= i && i + 1 < scan(s).len() ==> (#[trigger] scan(s)[i]).0 != scan(s)[i + 1].0,
        s.len() > 0 ==> scan(s).len() > 0 && scan(s)[0].0 == kinda_letter(s[0]),
    decreases s.len(),
{
    if s.len() > 0 {
        let word = kinda_letter(s[0]);
        let tail = s.drop_first();
        let rest = scan(tail);
        lemma_scan_covers(tail);
        let ts = scan(s);
        if rest.len() > 0 && rest[0].0 == word {
            assert(ts.drop_first() =~= rest.drop_first());
            assert(concat_spans(ts) =~= seq![s[0]] + concat_spans(rest));
            assert forall|i: int| 0 <= i && i + 1 < ts.len() implies (#[trigger] ts[i]).0 != ts[i
                + 1].0 by {
                assert(rest[i].0 != rest[i + 1].0);
            }
        } else {
            assert(ts.drop_first() =~= rest);
            assert(concat_spans(ts) =~= seq![s[0]] + concat_spans(rest));
            assert forall|i: int| 0 <= i && i + 1 < ts.len() implies (#[trigger] ts[i]).0 != ts[i
                + 1].0 by {
                if i > 0 {
                    assert(rest[i - 1].0 != rest[i].0);
                }
            }
            assert forall|i: int| 0 <= i < ts.len() implies (#[trigger] ts[i]).1.len() > 0 by {
                if i > 0 {
                    assert(ts[i] == rest[i - 1]);
                }
            }
            assert forall|i: int, k: int| 0 <= i < ts.len() && 0 <= k < ts[i].1.len() implies kinda_letter(
                #[trigger] ts[i].1[k],
            ) == ts[i].0 by {
                if i > 0 {
                    assert(ts[i] == rest[i - 1]);
                }
            }
        }
        assert(seq![s[0]] + tail =~= s);
    }
}

/// The first term of `s` is its longest prefix of one classification, and the
/// terms after it are those of the text that follows that prefix.
pub proof fn lemma_scan_step(s: Seq<char>, n: int)
    requires
        0 < n,
        s.len() > 0,
        is_run(s, n, kinda_letter(s[0])),
    ensures
        scan(s) == seq![(kinda_letter(s[0]), s.take(n))] + scan(s.skip(n)),
    decreases n,
{
    let word = kinda_letter(s[0]);
    let tail = s.drop_first();
    let rest = scan(tail);
    lemma_scan_covers(tail);
    if n == 1 {
        assert(s.take(1) =~= seq![s[0]]);
        assert(s.skip(1) =~= tail);
    } else {
        assert(tail[0] == s[1]);
        assert forall|k: int| 0 <= k < n - 1 implies kinda_letter(#[trigger] tail[k]) == word by {
            assert(tail[k] == s[k + 1]);
        }
        assert(is_run(tail, n - 1, word));
        lemma_scan_step(tail, n - 1);
        assert(tail.skip(n - 1) =~= s.skip(n));
        assert(seq![s[0]] + tail.take(n - 1) =~= s.take(n));
        assert(scan(s) =~= seq![(word, s.take(n))] + scan(s.skip(n)));
    }
}

/// The UTF-8 bytes of two texts joined are the bytes of the first followed
/// by those of the second, and a character starts where the second begins.
proof fn lemma_encode_concat(a: Seq<char>, b: Seq<char>)
    ensures
        encode_utf8(a + b) == encode_utf8(a) + encode_utf8(b),
        is_char_boundary(encode_utf8(a + b), encode_utf8(a).len() as int),
    decreases a.len(),
{
    let ab = a + b;
    encode_utf8_valid_utf8(ab);
    if a.len() == 0 {
        assert(ab =~= b);
        assert(encode_utf8(a) + encode_utf8(b) =~= encode_utf8(b));
    } else {
        assert(ab.drop_first() =~= a.drop_first() + b);
        lemma_encode_concat(a.drop_first(), b);
        encode_utf8_first_scalar(ab);
        assert(pop_first_scalar(encode_utf8(ab)) =~= encode_utf8(ab.drop_first()));
        assert(encode_utf8(ab) =~= encode_utf8(a) + encode_utf8(b));
    }
}

/// Whether `c` is no word character.
fn is_kinda_symbol(c: char) -> (b: bool)
    ensures
        b == !kinda_letter(c),
{
    !StrBreaker::is_kinda_letter(c)
}

/// `str::trim_start_matches` with the word-character test as its pattern:
/// what is left of `s` after its longest prefix of word characters.
#[verifier::external_body]
fn skip_letters<'s>(s: &'s str) -> (rest: &'s str)
    ensures
        rest@.len() <= s@.len(),
        rest@ == s@.skip(s@.len() - rest@.len()),
        is_run(s@, s@.len() - rest@.len(), true),
{
    s.trim_start_matches(StrBreaker::is_kinda_letter)
}

/// `str::trim_start_matches` with the negated word-character test as its
/// pattern: what is left of `s` after its longest prefix without a word
/// character.
#[verifier::external_body]
fn skip_symbols<'s>(s: &'s str) -> (rest: &'s str)
    ensures
        rest@.len() <= s@.len(),
        rest@ == s@.skip(s@.len() - rest@.len()),
        is_run(s@, s@.len() - rest@.len(), false),
{
    s.trim_start_matches(is_kinda_symbol)
}

/// A classified span of the scanned text.
#[derive(Debug, Clone, Copy, PartialEq, Eq)]
pub enum Term<'s> {
    /// A maximal run of word characters.
    Letters(&'s str),
    /// A maximal run of other characters.
    Symbols(&'s str),
}

impl<'s> View for Term<'s> {
    type V = (bool, Seq<char>);

    /// The classification (`true` for a word) and the characters of the span.
    open spec fn view(&self) -> (bool, Seq<char>) {
        match *self {
            Term::Letters(s) => (true, s@),
            Term::Symbols(s) => (false, s@),
        }
    }
}

/// A cursor over the text that is still to be scanned.
pub struct StrBreaker<'s> {
    spare: &'s str,
}

impl<'s> StrBreaker<'s> {
    /// The text that has not been handed out yet.
    pub closed spec fn remaining(&self) -> Seq<char> {
        self.spare@
    }

    /// Starts a scan of `spare` with its leading and trailing whitespace
    /// removed.
    pub fn new(spare: &'s str) -> (sb: Self)
        ensures
            is_trim_of(sb.remaining(), spare@),
    {
        Self { spare: spare.trim() }
    }

    /// Whether `c` is a word character: alphanumeric, an underscore or an
    /// apostrophe.
    pub fn is_kinda_letter(c: char) -> (b: bool)
        ensures
            b == kinda_letter(c),
    {
        c.is_alphanumeric() || c == '_' || c == '\''
    }

    /// Hands out the next term: the longest prefix of the remaining text whose
    /// characters classify as its first character does. Returns `None` once
    /// the text is used up.
    pub fn next(&mut self) -> (out: Option<Term<'s>>)
        ensures
            old(self).remaining().len() == 0 ==> out is None && final(self).remaining()
                == old(self).remaining(),
            old(self).remaining().len() > 0 ==> out is Some && ({
                let t = out->0@;
                let s = old(self).remaining();
                &&& t.0 == kinda_letter(s[0])
                &&& t.1.len() > 0
                &&& is_run(s, t.1.len() as int, t.0)
                &&& t.1 == s.take(t.1.len() as int)
                &&& final(self).remaining() == s.skip(t.1.len() as int)
            }),
    {
        if self.spare.is_empty() {
            return None;
        }
        let text: &'s str = self.spare;
        let word: bool = Self::is_kinda_letter(text.get_char(0));
        let rest: &'s str = if word {
            skip_letters(text)
        } else {
            skip_symbols(text)
        };
        let ghost n = text@.len() - rest@.len();
        proof {
            assert(text@ =~= text@.take(n) + rest@);
            lemma_encode_concat(text@.take(n), rest@);
        }
        let mid: usize = text.as_bytes().len() - rest.as_bytes().len();
        let (head, _) = text.split_at(mid);
        proof {
            assert(head.spec_bytes() =~= encode_utf8(text@.take(n)));
            encode_utf8_decode_utf8(head@);
            encode_utf8_decode_utf8(text@.take(n));
        }
        self.spare = rest;
        if word {
            Some(Term::Letters(head))
        } else {
            Some(Term::Symbols(head))
        }
    }

    /// Hands out every term that is left, in order.
    pub fn collect_terms(&mut self) -> (out: Vec<Term<'s>>)
        ensures
            term_views(out@) == scan(old(self).remaining()),
            final(self).remaining().len() == 0,
    {
        let mut out: Vec<Term<'s>> = Vec::new();
        let ghost start = self.remaining();
        loop
            invariant
                scan(start) == term_views(out@) + scan(self.remaining()),
            ensures
                self.remaining().len() == 0,
            decreases self.remaining().len(),
        {
            let ghost before = self.remaining();
            let ghost done = term_views(out@);
            match self.next() {
                None => {
                    break ;
                },
                Some(t) => {
                    out.push(t);
                    proof {
                        lemma_scan_step(before, t@.1.len() as int);
                        assert(term_views(out@) =~= done + seq![t@]);
                        assert(scan(start) =~= term_views(out@) + scan(self.remaining()));
                    }
                },
            }
        }
        proof {
            assert(term_views(out@) + scan(self.remaining()) =~= term_views(out@));
        }
        out
    }
}

} // verus!
