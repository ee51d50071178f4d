use vstd::prelude::*;
use vstd::string::StrSliceExecFns;
use vstd::string::StringExecFns;

verus! {

/// A finite set of symbols. The elements are kept without repetition.
#[derive(Debug, Clone)]
pub struct Alphabet {
    elements: Vec<char>,
}

impl View for Alphabet {
    type V = Set<char>;

    closed spec fn view(&self) -> Set<char> {
        self.elements@.to_set()
    }
}

impl Alphabet {
    /// The representation holds each symbol once.
    pub closed spec fn wf(&self) -> bool {
        self.elements@.no_duplicates()
    }

    /// An empty symbol set.
    pub fn new() -> (r: Alphabet)
        ensures
            r.wf(),
            r@ == Set::<char>::empty(),
    {
        let r = Alphabet { elements: Vec::new() };
        assert(r@ =~= Set::<char>::empty());
        r
    }

    /// Whether `character` belongs to the set.
    pub fn contains(&self, character: &char) -> (r: bool)
        ensures
            r == self@.contains(*character),
    {
        let mut i: usize = 0;
        while i < self.elements.len()
            invariant
                0 <= i <= self.elements@.len(),
                forall|j: int| 0 <= j < i ==> self.elements@[j] != *character,
            decreases self.elements@.len() - i,
        {
            if self.elements[i] == *character {
                assert(self.elements@.contains(*character));
                return true;
            }
            i = i + 1;
        }
        false
    }

    /// Adds `character`; adding a present symbol changes nothing.
    pub fn insert(&mut self, character: &char)
        requires
            old(self).wf(),
        ensures
            final(self).wf(),
            final(self)@ == old(self)@.insert(*character),
    {
        if !self.contains(character) {
            let ghost before = self.elements@;
            self.elements.push(*character);
            assert(self.elements@ == before.push(*character));
            assert forall|x: char| #[trigger] self@.contains(x) == before.to_set().insert(*character).contains(x) by {
                if x == *character {
                    assert(self.elements@[before.len() as int] == x);
                } else if before.contains(x) {
                    let j = choose|j: int| 0 <= j < before.len() && before[j] == x;
                    assert(self.elements@[j] == x);
                }
            }
            assert(self@ =~= old(self)@.insert(*character));
        } else {
            assert(self@ =~= old(self)@.insert(*character));
        }
    }

    /// Removes `character`; removing an absent symbol changes nothing.
    pub fn delete(&mut self, character: &char)
        requires
            old(self).wf(),
        ensures
            final(self).wf(),
            final(self)@ == old(self)@.remove(*character),
    {
        let mut i: usize = 0;
        while i < self.elements.len()
            invariant
                0 <= i <= self.elements@.len(),
                self.elements@ == old(self).elements@,
                old(self).wf(),
                forall|j: int| 0 <= j < i ==> self.elements@[j] != *character,
            decreases self.elements@.len() - i,
        {
            if self.elements[i] == *character {
                let ghost before = self.elements@;
                self.elements.remove(i);
                assert(self.elements@ == before.remove(i as int));
                let ghost after = self.elements@;
                assert(before[i as int] == *character);
                assert forall|a: int, b: int|
                    0 <= a < after.len() && 0 <= b < after.len() && a != b implies after[a]
                        != after[b] by {
                    let a2 = if a < i { a } else { a + 1 };
                    let b2 = if b < i { b } else { b + 1 };
                    assert(after[a] == before[a2] && after[b] == before[b2]);
                }
                assert forall|x: char| #[trigger] after.contains(x) == (before.contains(x) && x != *character) by {
                    if after.contains(x) {
                        let k = choose|k: int| 0 <= k < after.len() && after[k] == x;
                        let k2 = if k < i { k } else { k + 1 };
                        assert(before[k2] == x);
                        assert(k2 != i);
                    }
                    if x != *character && before.contains(x) {
                        let k = choose|k: int| 0 <= k < before.len() && before[k] == x;
                        if k < i {
                            assert(after[k] == x);
                        } else {
                            assert(after[k - 1] == x);
                        }
                    }
                }
                assert(self@ =~= old(self)@.remove(*character));
                return;
            }
            i = i + 1;
        }
        assert(self@ =~= old(self)@.remove(*character));
    }

    /// Whether the set has no element.
    pub fn is_empty(&self) -> (r: bool)
        requires
            self.wf(),
        ensures
            r == (self@ == Set::<char>::empty()),
    {
        if self.elements.len() == 0 {
            assert(self@ =~= Set::<char>::empty());
            true
        } else {
            assert(self@.contains(self.elements@[0]));
            false
        }
    }

    /// The number of elements.
    pub fn len(&self) -> (r: usize)
        requires
            self.wf(),
        ensures
            r == self@.len(),
    {
        proof {
            self.elements@.unique_seq_to_set();
        }
        self.elements.len()
    }

    /// The elements, each once, in no particular order.
    pub fn symbols(&self) -> (r: Vec<char>)
        requires
            self.wf(),
        ensures
            r@.no_duplicates(),
            r@.to_set() == self@,
    {
        let mut r: Vec<char> = Vec::new();
        let mut i: usize = 0;
        while i < self.elements.len()
            invariant
                0 <= i <= self.elements@.len(),
                r@ == self.elements@.subrange(0, i as int),
            decreases self.elements@.len() - i,
        {
            r.push(self.elements[i]);
            i = i + 1;
            assert(r@ =~= self.elements@.subrange(0, i as int));
        }
        assert(r@ =~= self.elements@);
        r
    }

    /// A new set holding the elements of `self` and of `other`.
    pub fn union(&self, other: &Alphabet) -> (r: Alphabet)
        requires
            self.wf(),
            other.wf(),
        ensures
            r.wf(),
            r@ == self@.union(other@),
    {
        let mut r = Alphabet { elements: self.symbols() };
        let mut i: usize = 0;
        while i < other.elements.len()
            invariant
                0 <= i <= other.elements@.len(),
                r.wf(),
                forall|x: char| #[trigger] r@.contains(x) <==> (self@.contains(x) || exists|j: int| 0 <= j < i && other.elements@[j] == x),
            decreases other.elements@.len() - i,
        {
            r.insert(&other.elements[i]);
            assert forall|x: char| #[trigger] r@.contains(x) <==> (self@.contains(x) || exists|j: int| 0 <= j < i + 1 && other.elements@[j] == x) by {
                if x == other.elements@[i as int] {
                } else if exists|j: int| 0 <= j < i + 1 && other.elements@[j] == x {
                    let j = choose|j: int| 0 <= j < i + 1 && other.elements@[j] == x;
                    assert(j < i);
                }
            }
            i = i + 1;
        }
        assert(r@ =~= self@.union(other@));
        r
    }

    /// A new set holding the elements present in both `self` and `other`.
    pub fn intersection(&self, other: &Alphabet) -> (r: Alphabet)
        requires
            self.wf(),
            other.wf(),
        ensures
            r.wf(),
            r@ == self@.intersect(other@),
    {
        // Walking the smaller of the two operands does less work.
        let r = if self.len() >= other.len() {
            Alphabet::common(other, self)
        } else {
            Alphabet::common(self, other)
        };
        assert(r@ =~= self@.intersect(other@));
        r
    }

    /// The elements of `small` that also belong to `large`.
    fn common(small: &Alphabet, large: &Alphabet) -> (r: Alphabet)
        requires
            small.wf(),
        ensures
            r.wf(),
            r@ == small@.intersect(large@),
    {
        let mut elements: Vec<char> = Vec::new();
        let mut i: usize = 0;
        while i < small.elements.len()
            invariant
                0 <= i <= small.elements@.len(),
                small.wf(),
                elements@.no_duplicates(),
                forall|x: char| #[trigger] elements@.contains(x) <==> (large@.contains(x) && exists|j: int| 0 <= j < i && small.elements@[j] == x),
            decreases small.elements@.len() - i,
        {
            let c = small.elements[i];
            if large.contains(&c) {
                let ghost prev = elements@;
                assert(!prev.contains(c)) by {
                    if prev.contains(c) {
                        let j = choose|j: int| 0 <= j < i && small.elements@[j] == c;
                        assert(small.elements@[i as int] == c);
                    }
                }
                elements.push(c);
                assert forall|x: char| #[trigger] elements@.contains(x) <==> (large@.contains(x) && exists|j: int| 0 <= j < i + 1 && small.elements@[j] == x) by {
                    if x == c {
                        assert(elements@[prev.len() as int] == x);
                    } else {
                        if prev.contains(x) {
                            let k = choose|k: int| 0 <= k < prev.len() && prev[k] == x;
                            assert(elements@[k] == x);
                        }
                        if elements@.contains(x) {
                            let k = choose|k: int| 0 <= k < elements@.len() && elements@[k] == x;
                            assert(prev[k] == x);
                        }
                        if exists|j: int| 0 <= j < i + 1 && small.elements@[j] == x {
                            let j = choose|j: int| 0 <= j < i + 1 && small.elements@[j] == x;
                            assert(j < i);
                        }
                    }
                }
            } else {
                assert forall|x: char| #[trigger] elements@.contains(x) <==> (large@.contains(x) && exists|j: int| 0 <= j < i + 1 && small.elements@[j] == x) by {
                    if exists|j: int| 0 <= j < i + 1 && small.elements@[j] == x {
                        let j = choose|j: int| 0 <= j < i + 1 && small.elements@[j] == x;
                        if large@.contains(x) {
                            assert(j < i);
                        }
                    }
                }
            }
            i = i + 1;
        }
        let r = Alphabet { elements };
        assert(r@ =~= small@.intersect(large@));
        r
    }

    /// Whether every element of `other` belongs to `self`.
    fn includes(&self, other: &Alphabet) -> (r: bool)
        ensures
            r == other@.subset_of(self@),
    {
        let mut i: usize = 0;
        while i < other.elements.len()
            invariant
                0 <= i <= other.elements@.len(),
                forall|j: int| 0 <= j < i ==> self@.contains(#[trigger] other.elements@[j]),
            decreases other.elements@.len() - i,
        {
            if !self.contains(&other.elements[i]) {
                assert(other@.contains(other.elements@[i as int]));
                return false;
            }
            i = i + 1;
        }
        true
    }
}

impl PartialEq for Alphabet {
    /// Two symbol sets are equal when they hold the same elements.
    fn eq(&self, other: &Alphabet) -> (r: bool) {
        let r = self.includes(other) && other.includes(self);
        assert(r == (self@ == other@)) by {
            if self@ == other@ {
            } else if r {
                assert(self@ =~= other@);
            }
        }
        r
    }
}

impl vstd::std_specs::cmp::PartialEqSpecImpl for Alphabet {
    open spec fn obeys_eq_spec() -> bool {
        true
    }

    open spec fn eq_spec(&self, other: &Alphabet) -> bool {
        self@ == other@
    }
}

/// Whether every symbol of `w` belongs to `s`.
pub open spec fn covered_by(w: Seq<char>, s: Set<char>) -> bool {
    forall|i: int| 0 <= i < w.len() ==> s.contains(#[trigger] w[i])
}

/// An immutable sequence of symbols.
#[derive(Debug, Clone, Eq, Hash)]
pub struct Word {
    word: String,
}

impl View for Word {
    type V = Seq<char>;

    closed spec fn view(&self) -> Seq<char> {
        self.word@
    }
}

impl Word {
    /// Whether every symbol of the word belongs to `alphabet`; the empty word
    /// is covered by any set.
    pub fn alphabet_checker(&self, alphabet: &Alphabet) -> (r: bool)
        ensures
            r == covered_by(self@, alphabet@),
    {
        let symbols = chars_of(self.word.as_str());
        let mut i: usize = 0;
        while i < symbols.len()
            invariant
                0 <= i <= symbols@.len(),
                symbols@ == self@,
                forall|j: int| 0 <= j < i ==> alphabet@.contains(#[trigger] self@[j]),
            decreases symbols@.len() - i,
        {
            if !alphabet.contains(&symbols[i]) {
                return false;
            }
            i = i + 1;
        }
        true
    }

    /// A word with the same symbols.
    fn duplicate(&self) -> (r: Word)
        ensures
            r@ == self@,
    {
        Word { word: self.word.clone() }
    }
}

impl PartialEq for Word {
    /// Two words are equal when they hold the same symbols in the same order.
    fn eq(&self, other: &Word) -> (r: bool) {
        self.word == other.word
    }
}

impl vstd::std_specs::cmp::PartialEqSpecImpl for Word {
    open spec fn obeys_eq_spec() -> bool {
        true
    }

    open spec fn eq_spec(&self, other: &Word) -> bool {
        self@ == other@
    }
}

impl From<String> for Word {
    fn from(word: String) -> (r: Word)
        ensures
            r@ == word@,
    {
        Word { word }
    }
}

impl vstd::std_specs::convert::FromSpecImpl<String> for Word {
    open spec fn obeys_from_spec() -> bool {
        true
    }

    closed spec fn from_spec(word: String) -> Word {
        Word { word }
    }
}

impl From<&str> for Word {
    fn from(word: &str) -> (r: Word)
        ensures
            r@ == word@,
    {
        Word { word: String::from_str(word) }
    }
}

impl vstd::std_specs::convert::FromSpecImpl<&str> for Word {
    open spec fn obeys_from_spec() -> bool {
        false
    }

    closed spec fn from_spec(word: &str) -> Word {
        arbitrary()
    }
}

/// The symbol sequences of a list of words.
pub open spec fn words_view(v: Seq<Word>) -> Seq<Seq<char>> {
    v.map_values(|w: Word| w@)
}

/// Whether every key of `rules`, and every alternative of every key, is
/// covered by `s`.
pub open spec fn all_covered(rules: Map<Seq<char>, Seq<Seq<char>>>, s: Set<char>) -> bool {
    forall|k: Seq<char>|
        #[trigger] rules.contains_key(k) ==> covered_by(k, s) && forall|i: int|
            0 <= i < rules[k].len() ==> covered_by(#[trigger] rules[k][i], s)
}

/// A rule table: each left-hand side is mapped to an ordered list of
/// alternative right-hand sides.
#[derive(Debug, Clone)]
pub struct Productions {
    rules: Vec<(Word, Vec<Word>)>,
}

impl View for Productions {
    type V = Map<Seq<char>, Seq<Seq<char>>>;

    closed spec fn view(&self) -> Map<Seq<char>, Seq<Seq<char>>> {
        Map::new(
            |k: Seq<char>| self.has_key_at(k),
            |k: Seq<char>| self.alternatives_at(choose|i: int| self.key_index(k, i)),
        )
    }
}

impl Productions {
    closed spec fn key_at(&self, i: int) -> Seq<char> {
        self.rules@[i].0@
    }

    closed spec fn alternatives_at(&self, i: int) -> Seq<Seq<char>> {
        words_view(self.rules@[i].1@)
    }

    closed spec fn key_index(&self, k: Seq<char>, i: int) -> bool {
        0 <= i < self.rules@.len() && self.key_at(i) == k
    }

    closed spec fn has_key_at(&self, k: Seq<char>) -> bool {
        exists|i: int| self.key_index(k, i)
    }

    spec fn entry_covered(&self, e: int, s: Set<char>) -> bool {
        &&& covered_by(self.key_at(e), s)
        &&& forall|a: int|
            0 <= a < self.alternatives_at(e).len() ==> covered_by(#[trigger] self.alternatives_at(e)[a], s)
    }

    /// No left-hand side is stored twice.
    pub closed spec fn wf(&self) -> bool {
        forall|i: int, j: int|
            self.key_index(self.key_at(i), j) && 0 <= i < self.rules@.len() ==> i == j
    }

    proof fn lemma_entry(&self, i: int)
        requires
            self.wf(),
            0 <= i < self.rules@.len(),
        ensures
            self@.contains_key(self.key_at(i)),
            self@[self.key_at(i)] == self.alternatives_at(i),
    {
        assert(self.key_index(self.key_at(i), i));
        let j = choose|j: int| self.key_index(self.key_at(i), j);
        assert(j == i);
    }

    /// An empty rule table.
    pub fn new() -> (r: Productions)
        ensures
            r.wf(),
            r@ == Map::<Seq<char>, Seq<Seq<char>>>::empty(),
    {
        let r = Productions { rules: Vec::new() };
        assert(r@ =~= Map::<Seq<char>, Seq<Seq<char>>>::empty());
        r
    }

    /// The position of the entry whose left-hand side is `key`.
    fn find(&self, key: &Word) -> (r: Option<usize>)
        requires
            self.wf(),
        ensures
            match r {
                Some(i) => i < self.rules@.len() && self.key_at(i as int) == key@,
                None => !self@.contains_key(key@),
            },
    {
        let mut i: usize = 0;
        while i < self.rules.len()
            invariant
                0 <= i <= self.rules@.len(),
                forall|j: int| 0 <= j < i ==> self.key_at(j) != key@,
            decreases self.rules@.len() - i,
        {
            if self.rules[i].0 == *key {
                return Some(i);
            }
            i = i + 1;
        }
        None
    }

    /// Associates `key` with a copy of `productions`, replacing any list that
    /// `key` had before.
    pub fn insert(&mut self, key: &Word, productions: &Vec<Word>)
        requires
            old(self).wf(),
        ensures
            final(self).wf(),
            final(self)@ == old(self)@.insert(key@, words_view(productions@)),
    {
        let mut alternatives: Vec<Word> = Vec::new();
        let mut i: usize = 0;
        while i < productions.len()
            invariant
                0 <= i <= productions@.len(),
                alternatives@.len() == i,
                forall|j: int| 0 <= j < i ==> (#[trigger] alternatives@[j])@ == productions@[j]@,
            decreases productions@.len() - i,
        {
            alternatives.push(productions[i].duplicate());
            i = i + 1;
        }
        assert(words_view(alternatives@) =~= words_view(productions@));
        let ghost target = old(self)@.insert(key@, words_view(productions@));
        match self.find(key) {
            Some(p) => {
                self.rules.set(p, (key.duplicate(), alternatives));
                assert forall|a: int, b: int|
                    self.key_index(self.key_at(a), b) && 0 <= a < self.rules@.len() implies a
                        == b by {
                    assert(old(self).key_index(old(self).key_at(a), b));
                }
                assert forall|k: Seq<char>| #[trigger] self@.contains_key(k) == target.contains_key(k) by {
                    if self@.contains_key(k) {
                        let j = choose|j: int| self.key_index(k, j);
                        if j != p {
                            assert(old(self).key_index(k, j));
                        }
                    }
                    if old(self)@.contains_key(k) {
                        let j = choose|j: int| old(self).key_index(k, j);
                        assert(self.key_index(k, j));
                    }
                    if k == key@ {
                        assert(self.key_index(k, p as int));
                    }
                }
                assert forall|k: Seq<char>| #[trigger] self@.contains_key(k) implies self@[k] == target[k] by {
                    let j = choose|j: int| self.key_index(k, j);
                    self.lemma_entry(j);
                    if j != p {
                        old(self).lemma_entry(j);
                    }
                }
            },
            None => {
                self.rules.push((key.duplicate(), alternatives));
                let ghost n = old(self).rules@.len() as int;
                assert forall|a: int, b: int|
                    self.key_index(self.key_at(a), b) && 0 <= a < self.rules@.len() implies a
                        == b by {
                    if a < n && b < n {
                        assert(old(self).key_index(old(self).key_at(a), b));
                    } else if a < n {
                        assert(old(self).key_index(key@, a));
                    } else if b < n {
                        assert(old(self).key_index(key@, b));
                    }
                }
                assert forall|k: Seq<char>| #[trigger] self@.contains_key(k) == target.contains_key(k) by {
                    if self@.contains_key(k) {
                        let j = choose|j: int| self.key_index(k, j);
                        if j != n {
                            assert(old(self).key_index(k, j));
                        }
                    }
                    if old(self)@.contains_key(k) {
                        let j = choose|j: int| old(self).key_index(k, j);
                        assert(self.key_index(k, j));
                    }
                    if k == key@ {
                        assert(self.key_index(k, n));
                    }
                }
                assert forall|k: Seq<char>| #[trigger] self@.contains_key(k) implies self@[k] == target[k] by {
                    let j = choose|j: int| self.key_index(k, j);
                    self.lemma_entry(j);
                    if j != n {
                        old(self).lemma_entry(j);
                    }
                }
            },
        }
        assert(self@ =~= target);
    }

    /// Whether every left-hand side and every alternative in the table is
    /// covered by `alphabet`.
    pub fn alphabet_checker(&self, alphabet: &Alphabet) -> (r: bool)
        requires
            self.wf(),
        ensures
            r == all_covered(self@, alphabet@),
    {
        let mut i: usize = 0;
        while i < self.rules.len()
            invariant
                0 <= i <= self.rules@.len(),
                self.wf(),
                forall|e: int| 0 <= e < i ==> #[trigger] self.entry_covered(e, alphabet@),
            decreases self.rules@.len() - i,
        {
            let entry = &self.rules[i];
            if !entry.0.alphabet_checker(alphabet) {
                proof {
                    self.lemma_entry(i as int);
                }
                return false;
            }
            let mut j: usize = 0;
            assert(self.alternatives_at(i as int).len() == entry.1@.len());
            while j < entry.1.len()
                invariant
                    0 <= j <= entry.1@.len(),
                    *entry == self.rules@[i as int],
                    0 <= i < self.rules@.len(),
                    self.wf(),
                    self.alternatives_at(i as int).len() == entry.1@.len(),
                    covered_by(self.key_at(i as int), alphabet@),
                    forall|e: int| 0 <= e < i ==> #[trigger] self.entry_covered(e, alphabet@),
                    forall|a: int|
                        0 <= a < j ==> covered_by(#[trigger] self.alternatives_at(i as int)[a], alphabet@),
                decreases entry.1@.len() - j,
            {
                if !entry.1[j].alphabet_checker(alphabet) {
                    proof {
                        self.lemma_entry(i as int);
                        assert(self.alternatives_at(i as int)[j as int] == entry.1@[j as int]@);
                    }
                    return false;
                }
                assert(self.alternatives_at(i as int)[j as int] == entry.1@[j as int]@);
                j = j + 1;
            }
            assert(self.entry_covered(i as int, alphabet@));
            i = i + 1;
        }
        assert forall|k: Seq<char>| #[trigger] self@.contains_key(k) implies covered_by(k, alphabet@)
            && forall|a: int| 0 <= a < self@[k].len() ==> covered_by(#[trigger] self@[k][a], alphabet@) by {
            let e = choose|e: int| self.key_index(k, e);
            self.lemma_entry(e);
            assert(self.entry_covered(e, alphabet@));
        }
        true
    }
}

/// The symbols of `s`, one per element.
fn chars_of(s: &str) -> (r: Vec<char>)
    ensures
        r@ == s@,
{
    let mut r: Vec<char> = Vec::new();
    for c in it: s.chars()
        invariant
            r@.len() == it.index(),
            forall|j: int| 0 <= j < r@.len() ==> r@[j] == it.seq()[j],
    {
        r.push(c);
    }
    assert(r@ =~= s@);
    r
}

/// Whether `k` occurs in `s` as a contiguous block starting at position `i`.
pub open spec fn occurs_at(s: Seq<char>, k: Seq<char>, i: int) -> bool {
    &&& 0 <= i
    &&& i + k.len() <= s.len()
    &&& s.subrange(i, i + k.len()) == k
}

/// The leftmost position, not before `i`, at which `k` occurs in `s`.
pub open spec fn first_occurrence_from(s: Seq<char>, k: Seq<char>, i: int) -> Option<int>
    decreases s.len() + 1 - i,
{
    if i < 0 || i + k.len() > s.len() {
        None
    } else if occurs_at(s, k, i) {
        Some(i)
    } else {
        first_occurrence_from(s, k, i + 1)
    }
}

/// The leftmost position at which `k` occurs in `s`.
pub open spec fn first_occurrence(s: Seq<char>, k: Seq<char>) -> Option<int> {
    first_occurrence_from(s, k, 0)
}

/// `s` with its leftmost occurrence of `k` replaced by `r`; `s` itself when
/// `k` does not occur in it.
pub open spec fn replace_first(s: Seq<char>, k: Seq<char>, r: Seq<char>) -> Seq<char> {
    match first_occurrence(s, k) {
        Some(p) => s.subrange(0, p) + r + s.subrange(p + k.len(), s.len() as int),
        None => s,
    }
}

/// Whether `k` occurs in `s` at position `i`.
fn occurs(s: &Vec<char>, k: &Vec<char>, i: usize) -> (r: bool)
    requires
        i + k@.len() <= s@.len(),
    ensures
        r == occurs_at(s@, k@, i as int),
{
    let n = s.len();
    let mut j: usize = 0;
    while j < k.len()
        invariant
            0 <= j <= k@.len(),
            n == s@.len(),
            i + k@.len() <= n,
            forall|t: int| 0 <= t < j ==> s@[i + t] == k@[t],
        decreases k@.len() - j,
    {
        if s[i + j] != k[j] {
            assert(s@.subrange(i as int, i + k@.len())[j as int] != k@[j as int]);
            return false;
        }
        j = j + 1;
    }
    assert(s@.subrange(i as int, i + k@.len()) =~= k@);
    true
}

/// `input` with its leftmost occurrence of `key` replaced by `replacement`.
fn replace_first_occurrence(input: &str, key: &str, replacement: &str) -> (out: String)
    ensures
        out@ == replace_first(input@, key@, replacement@),
{
    let s = chars_of(input);
    let k = chars_of(key);
    let n = s.len();
    let m = k.len();
    if m <= n {
        let mut i: usize = 0;
        loop
            invariant
                m <= n,
                0 <= i <= n - m,
                n == s@.len(),
                m == k@.len(),
                s@ == input@,
                k@ == key@,
                first_occurrence(s@, k@) == first_occurrence_from(s@, k@, i as int),
            decreases n - m - i,
        {
            if occurs(&s, &k, i) {
                let mut out = String::from_str(input.substring_char(0, i));
                out.append(replacement);
                out.append(input.substring_char(i + m, n));
                return out;
            }
            if i == n - m {
                assert(first_occurrence_from(s@, k@, i + 1) is None);
                return String::from_str(input);
            }
            i = i + 1;
        }
    }
    String::from_str(input)
}

/// The reasons for which a grammar is not built, or a rule not applied.
#[derive(Debug, Clone, Copy, PartialEq, Eq, Structural)]
pub enum GrammarError {
    /// The non-terminal and terminal sets share a symbol.
    DisjointAlphabetViolation,
    /// The start symbol is not a non-terminal.
    InvalidStartSymbol,
    /// A word of the rule table holds a symbol of neither set.
    UnboundSymbolInProduction,
    /// The rule table has no entry for the given left-hand side.
    UnknownProductionKey,
    /// The given left-hand side has no alternative at the given index.
    AlternativeIndexOutOfRange,
}

/// The first check, in the order non-terminals and terminals disjoint, start
/// symbol a non-terminal, rule table covered by both sets, that these inputs
/// fail; `None` when they pass all three.
pub open spec fn construction_error(
    non_terminals: Set<char>,
    terminals: Set<char>,
    start: char,
    rules: Map<Seq<char>, Seq<Seq<char>>>,
) -> Option<GrammarError> {
    if non_terminals.intersect(terminals) != Set::<char>::empty() {
        Some(GrammarError::DisjointAlphabetViolation)
    } else if !non_terminals.contains(start) {
        Some(GrammarError::InvalidStartSymbol)
    } else if !all_covered(rules, non_terminals.union(terminals)) {
        Some(GrammarError::UnboundSymbolInProduction)
    } else {
        None
    }
}

/// A validated grammar: non-terminals, terminals, a start symbol and a rule
/// table. It is not changed after it is built.
#[derive(Debug, Clone)]
pub struct Grammar {
    non_terminals: Alphabet,
    terminals: Alphabet,
    start_terminal: char,
    productions: Productions,
}

impl Grammar {
    /// The non-terminal symbols.
    pub closed spec fn non_terminals(&self) -> Set<char> {
        self.non_terminals@
    }

    /// The terminal symbols.
    pub closed spec fn terminals(&self) -> Set<char> {
        self.terminals@
    }

    /// The start symbol.
    pub closed spec fn start(&self) -> char {
        self.start_terminal
    }

    /// The rule table.
    pub closed spec fn rules(&self) -> Map<Seq<char>, Seq<Seq<char>>> {
        self.productions@
    }

    /// The parts are well formed and pass every construction check.
    pub closed spec fn wf(&self) -> bool {
        &&& self.non_terminals.wf()
        &&& self.terminals.wf()
        &&& self.productions.wf()
        &&& construction_error(self.non_terminals@, self.terminals@, self.start_terminal, self.productions@) is None
    }

    /// Builds a grammar, or reports the first construction check that fails.
    pub fn new(
        non_terminal: &Alphabet,
        terminal: &Alphabet,
        start: char,
        productions: Productions,
    ) -> (r: Result<Grammar, GrammarError>)
        requires
            non_terminal.wf(),
            terminal.wf(),
            productions.wf(),
        ensures
            match construction_error(non_terminal@, terminal@, start, productions@) {
                Some(e) => r == Err::<Grammar, GrammarError>(e),
                None => r is Ok,
            },
            r matches Ok(g) ==> {
                &&& g.wf()
                &&& g.non_terminals() == non_terminal@
                &&& g.terminals() == terminal@
                &&& g.start() == start
                &&& g.rules() == productions@
            },
    {
        let union = non_terminal.union(terminal);
        if !non_terminal.intersection(terminal).is_empty() {
            Err(GrammarError::DisjointAlphabetViolation)
        } else if !non_terminal.contains(&start) {
            Err(GrammarError::InvalidStartSymbol)
        } else if !productions.alphabet_checker(&union) {
            Err(GrammarError::UnboundSymbolInProduction)
        } else {
            Ok(
                Grammar {
                    non_terminals: Alphabet { elements: non_terminal.symbols() },
                    terminals: Alphabet { elements: terminal.symbols() },
                    start_terminal: start,
                    productions,
                },
            )
        }
    }

    /// Replaces the leftmost occurrence of `key` in `input` by the
    /// alternative of `key` at index `production`. An `input` in which `key`
    /// does not occur comes back unchanged.
    pub fn apply(&self, key: &Word, production: usize, input: &str) -> (r: Result<
        String,
        GrammarError,
    >)
        requires
            self.wf(),
        ensures
            !self.rules().contains_key(key@) ==> r == Err::<String, GrammarError>(
                GrammarError::UnknownProductionKey,
            ),
            self.rules().contains_key(key@) && production >= self.rules()[key@].len() ==> r
                == Err::<String, GrammarError>(GrammarError::AlternativeIndexOutOfRange),
            self.rules().contains_key(key@) && production < self.rules()[key@].len() ==> (r matches Ok(
                out,
            ) && out@ == replace_first(input@, key@, self.rules()[key@][production as int])),
    {
        match self.productions.find(key) {
            None => Err(GrammarError::UnknownProductionKey),
            Some(p) => {
                proof {
                    self.productions.lemma_entry(p as int);
                }
                let alternatives = &self.productions.rules[p].1;
                if production >= alternatives.len() {
                    Err(GrammarError::AlternativeIndexOutOfRange)
                } else {
                    Ok(
                        replace_first_occurrence(
                            input,
                            key.word.as_str(),
                            alternatives[production].word.as_str(),
                        ),
                    )
                }
            },
        }
    }
}

} // verus!
