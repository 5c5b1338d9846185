//! The interner: one canonical word for each distinct spelling.

use vstd::hash_map::StringHashMap;
use vstd::prelude::*;

verus! {

/// The identity of an interned spelling: its place in the interner that made
/// it. Two canonical words of one interner are equal exactly when their
/// spellings are.
#[derive(Debug, Clone, Copy, PartialEq, Eq, Structural)]
pub struct CanonicalWord {
    pub index: usize,
}

/// Where `spelling` stands in `words`, or will stand once it is added: its
/// place if it is there, the end if it is not.
pub open spec fn place_of(words: Seq<Seq<char>>, spelling: Seq<char>) -> int {
    if words.contains(spelling) {
        words.index_of(spelling)
    } else {
        words.len() as int
    }
}

/// `words` with `spelling` among them: unchanged where it was there already,
/// with `spelling` added at the end otherwise.
pub open spec fn with_spelling(words: Seq<Seq<char>>, spelling: Seq<char>) -> Seq<Seq<char>> {
    if words.contains(spelling) {
        words
    } else {
        words.push(spelling)
    }
}

/// No spelling occurs twice in `words`.
pub open spec fn all_distinct(words: Seq<Seq<char>>) -> bool {
    forall|i: int, j: int| 0 <= i < j < words.len() ==> words[i] != words[j]
}

/// The set of spellings seen so far, each held once.
pub struct Interner {
    words: Vec<String>,
    places: StringHashMap<usize>,
}

impl View for Interner {
    type V = Seq<Seq<char>>;

    /// The spellings in the order in which they were first interned.
    closed spec fn view(&self) -> Seq<Seq<char>> {
        Seq::new(self.words@.len(), |i: int| self.words@[i]@)
    }
}

impl Interner {
    /// The index finds every spelling held, at its place, and nothing else.
    pub closed spec fn wf(&self) -> bool {
        &&& forall|i: int|
            0 <= i < self@.len() ==> self.places@.contains_key(#[trigger] self@[i])
                && self.places@[self@[i]] == i
        &&& forall|s: Seq<char>| #[trigger]
            self.places@.contains_key(s) ==> self.places@[s] < self@.len()
                && self@[self.places@[s] as int] == s
    }

    /// A well-formed interner holds no spelling twice.
    pub proof fn lemma_wf_distinct(&self)
        requires
            self.wf(),
        ensures
            all_distinct(self@),
    {
        assert forall|i: int, j: int| 0 <= i < j < self@.len() implies self@[i] != self@[j] by {
            assert(self.places@[self@[i]] == i);
            assert(self.places@[self@[j]] == j);
        }
    }

    /// `word` was made by this interner.
    pub open spec fn holds(&self, word: CanonicalWord) -> bool {
        word.index < self@.len()
    }

    /// An interner that holds no spelling yet.
    pub fn new() -> (r: Self)
        ensures
            r@ == Seq::<Seq<char>>::empty(),
            r.wf(),
    {
        let r = Interner { words: Vec::new(), places: StringHashMap::new() };
        assert(r@ =~= Seq::<Seq<char>>::empty());
        r
    }

    /// The number of distinct spellings held.
    pub fn len(&self) -> (n: usize)
        ensures
            n == self@.len(),
    {
        self.words.len()
    }

    /// The canonical word of `spelling`, if it has been interned.
    pub fn find(&self, spelling: &str) -> (r: Option<CanonicalWord>)
        requires
            self.wf(),
        ensures
            match r {
                Some(w) => self.holds(w) && self@[w.index as int] == spelling@ && w.index
                    == place_of(self@, spelling@),
                None => !self@.contains(spelling@),
            },
    {
        match self.places.get(spelling) {
            Some(place) => {
                let w = CanonicalWord { index: *place };
                proof {
                    self.lemma_wf_distinct();
                    assert(self@[w.index as int] == spelling@);
                    assert(self@.contains(spelling@));
                    let p = self@.index_of(spelling@);
                    assert(self@[p] == spelling@);
                }
                Some(w)
            },
            None => {
                assert forall|i: int| 0 <= i < self@.len() implies self@[i] != spelling@ by {
                    assert(self.places@.contains_key(self@[i]));
                }
                None
            },
        }
    }

    /// Returns the canonical word of `spelling`, adding the spelling if it is
    /// new. Words handed out earlier keep their spelling.
    pub fn intern(&mut self, spelling: &str) -> (w: CanonicalWord)
        requires
            old(self).wf(),
        ensures
            final(self).wf(),
            all_distinct(final(self)@),
            final(self)@ == with_spelling(old(self)@, spelling@),
            w.index == place_of(old(self)@, spelling@),
            final(self).holds(w),
            final(self)@[w.index as int] == spelling@,
    {
        proof {
            self.lemma_wf_distinct();
            lemma_with_spelling_distinct(self@, spelling@);
        }
        match self.find(spelling) {
            Some(w) => w,
            None => {
                let w = CanonicalWord { index: self.words.len() };
                self.words.push(spelling.to_owned());
                self.places.insert(spelling.to_owned(), w.index);
                proof {
                    let now = self@;
                    let index = self.places@;
                    assert(now =~= old(self)@.push(spelling@));
                    assert forall|i: int| 0 <= i < now.len() implies index.contains_key(
                        #[trigger] now[i],
                    ) && index[now[i]] == i by {
                        if i < old(self)@.len() {
                            assert(old(self)@[i] == now[i]);
                        }
                    }
                    assert forall|s: Seq<char>| #[trigger] index.contains_key(s) implies index[s]
                        < now.len() && now[index[s] as int] == s by {
                        if s != spelling@ {
                            assert(old(self).places@.contains_key(s));
                        }
                    }
                }
                w
            },
        }
    }

    /// The spelling of `word`, or `None` for a word that this interner did
    /// not make.
    pub fn spelling(&self, word: CanonicalWord) -> (r: Option<&str>)
        ensures
            self.holds(word) ==> r is Some && r->0@ == self@[word.index as int],
            !self.holds(word) ==> r is None,
    {
        if word.index < self.words.len() {
            Some(self.words[word.index].as_str())
        } else {
            None
        }
    }
}

/// Interning a spelling a second time changes nothing and gives the
/// word that the first interning gave.
pub proof fn lemma_intern_again(words: Seq<Seq<char>>, spelling: Seq<char>)
    requires
        all_distinct(words),
    ensures
        with_spelling(with_spelling(words, spelling), spelling) == with_spelling(words, spelling),
        place_of(with_spelling(words, spelling), spelling) == place_of(words, spelling),
{
    let after = with_spelling(words, spelling);
    if !words.contains(spelling) {
        assert(after[words.len() as int] == spelling);
        lemma_with_spelling_distinct(words, spelling);
        let p = after.index_of(spelling);
        assert(after[p] == spelling);
        if p != words.len() {
            assert(words[p] == after[p]);
        }
    }
}

/// Adding a spelling keeps the spellings distinct.
pub proof fn lemma_with_spelling_distinct(words: Seq<Seq<char>>, spelling: Seq<char>)
    requires
        all_distinct(words),
    ensures
        all_distinct(with_spelling(words, spelling)),
{
    let after = with_spelling(words, spelling);
    if !words.contains(spelling) {
        assert forall|i: int, j: int| 0 <= i < j < after.len() implies after[i] != after[j] by {
            if j == words.len() {
                assert(words[i] == after[i]);
            }
        }
    }
}

/// A spelling that is held keeps its word whatever is interned after it.
pub proof fn lemma_place_stable(words: Seq<Seq<char>>, held: Seq<char>, spelling: Seq<char>)
    requires
        all_distinct(words),
        words.contains(held),
    ensures
        with_spelling(words, spelling).contains(held),
        place_of(with_spelling(words, spelling), held) == place_of(words, held),
{
    let after = with_spelling(words, spelling);
    lemma_with_spelling_distinct(words, spelling);
    let p = words.index_of(held);
    assert(words[p] == held);
    assert(after[p] == held);
    let q = after.index_of(held);
    assert(after[q] == held);
}

/// Two spellings get the same word exactly when they are the same spelling,
/// whichever is interned first and whatever was interned before.
pub proof fn lemma_intern_identity(words: Seq<Seq<char>>, a: Seq<char>, b: Seq<char>)
    requires
        all_distinct(words),
    ensures
        (place_of(words, a) == place_of(with_spelling(words, a), b)) <==> a == b,
{
    let after = with_spelling(words, a);
    lemma_with_spelling_distinct(words, a);
    lemma_intern_again(words, a);
    if a != b {
        let pa = place_of(words, a);
        assert(after[pa] == a) by {
            if words.contains(a) {
                assert(words[words.index_of(a)] == a);
            }
        }
        if after.contains(b) {
            assert(after[after.index_of(b)] == b);
        }
    }
}

} // verus!
