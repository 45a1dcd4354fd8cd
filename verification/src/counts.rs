//! A map from words to positive counts, kept as a list of distinct words.
use vstd::prelude::*;

verus! {

/// The map that a list of `(word, count)` entries stands for: each word maps to its count,
/// a later entry for a word replacing a previous one.
pub open spec fn entries_map(e: Seq<(String, usize)>) -> Map<Seq<char>, nat>
    decreases e.len(),
{
    if e.len() == 0 {
        Map::empty()
    } else {
        entries_map(e.drop_last()).insert(e.last().0@, e.last().1 as nat)
    }
}

/// No word occurs twice among the entries.
pub open spec fn distinct_words(e: Seq<(String, usize)>) -> bool {
    forall|i: int, j: int| 0 <= i < j < e.len() ==> e[i].0@ != e[j].0@
}

/// Every count among the entries is positive.
pub open spec fn positive_counts(e: Seq<(String, usize)>) -> bool {
    forall|i: int| 0 <= i < e.len() ==> e[i].1 > 0
}

/// With distinct words, the map holds exactly the words of the entries, each with the count
/// of its entry.
pub proof fn lemma_entries_map(e: Seq<(String, usize)>)
    requires
        distinct_words(e),
    ensures
        forall|i: int| #![trigger e[i]] 0 <= i < e.len() ==> entries_map(e).contains_key(e[i].0@)
            && entries_map(e)[e[i].0@] == e[i].1 as nat,
        forall|k: Seq<char>| #[trigger]
            entries_map(e).contains_key(k) ==> exists|i: int| 0 <= i < e.len() && e[i].0@ == k,
        entries_map(e).dom().finite(),
        entries_map(e).dom().len() == e.len(),
    decreases e.len(),
{
    if e.len() > 0 {
        let p = e.drop_last();
        assert(distinct_words(p));
        lemma_entries_map(p);
        assert forall|i: int| #![trigger e[i]] 0 <= i < e.len() implies entries_map(
            e,
        ).contains_key(e[i].0@) && entries_map(e)[e[i].0@] == e[i].1 as nat by {
            if i < e.len() - 1 {
                assert(p[i] == e[i]);
            }
        }
        assert forall|k: Seq<char>| #[trigger]
            entries_map(e).contains_key(k) implies exists|i: int|
            0 <= i < e.len() && e[i].0@ == k by {
            if k != e.last().0@ {
                let i = choose|i: int| 0 <= i < p.len() && p[i].0@ == k;
                assert(e[i] == p[i]);
            }
        }
        assert(!entries_map(p).contains_key(e.last().0@)) by {
            if entries_map(p).contains_key(e.last().0@) {
                let i = choose|i: int| 0 <= i < p.len() && p[i].0@ == e.last().0@;
                assert(e[i] == p[i]);
            }
        }
    }
}

/// The counts of the words of `s`, tallied in order: each word maps to the number of
/// positions of `s` that hold it.
pub open spec fn tally(s: Seq<Seq<char>>) -> Map<Seq<char>, nat>
    decreases s.len(),
{
    if s.len() == 0 {
        Map::empty()
    } else {
        let m = tally(s.drop_last());
        let w = s.last();
        m.insert(w, if m.contains_key(w) { m[w] + 1 } else { 1 })
    }
}

/// The number of positions of `s` that hold `w`.
pub open spec fn occurrences(s: Seq<Seq<char>>, w: Seq<char>) -> nat
    decreases s.len(),
{
    if s.len() == 0 {
        0
    } else {
        occurrences(s.drop_last(), w) + if s.last() == w {
            1nat
        } else {
            0nat
        }
    }
}

/// A tally holds exactly the words that occur, each with its number of occurrences, which
/// is at most the length of the sequence.
pub proof fn lemma_tally_occurrences(s: Seq<Seq<char>>, w: Seq<char>)
    ensures
        tally(s).contains_key(w) <==> occurrences(s, w) > 0,
        tally(s).contains_key(w) ==> tally(s)[w] == occurrences(s, w),
        occurrences(s, w) <= s.len(),
    decreases s.len(),
{
    if s.len() > 0 {
        lemma_tally_occurrences(s.drop_last(), w);
    }
}

/// Counts of words. Each word that it holds has a positive count.
#[derive(Debug)]
pub struct WordCounts {
    entries: Vec<(String, usize)>,
}

impl View for WordCounts {
    type V = Map<Seq<char>, nat>;

    closed spec fn view(&self) -> Map<Seq<char>, nat> {
        entries_map(self.entries@)
    }
}

impl WordCounts {
    /// The words are distinct and their counts positive.
    pub closed spec fn wf(&self) -> bool {
        distinct_words(self.entries@) && positive_counts(self.entries@)
    }

    /// The count of `word`, zero when it is absent.
    pub open spec fn count_of(&self, word: Seq<char>) -> nat {
        if self@.contains_key(word) {
            self@[word]
        } else {
            0
        }
    }

    /// Every word held has a positive count that fits in a `usize`, and there are finitely
    /// many words.
    pub proof fn lemma_count_bounds(&self)
        requires
            self.wf(),
        ensures
            forall|w: Seq<char>| #[trigger]
                self@.contains_key(w) ==> 0 < self@[w] <= usize::MAX,
            self@.dom().finite(),
    {
        lemma_entries_map(self.entries@);
        assert forall|w: Seq<char>| #[trigger] self@.contains_key(w) implies 0 < self@[w]
            <= usize::MAX by {
            let i = choose|i: int|
                0 <= i < self.entries@.len() && self.entries@[i].0@ == w;
            assert(self.entries@[i].0@ == w);
        }
    }

    /// No words.
    pub fn new() -> (r: Self)
        ensures
            r.wf(),
            r@ == Map::<Seq<char>, nat>::empty(),
    {
        WordCounts { entries: Vec::new() }
    }

    /// The number of distinct words.
    pub fn len(&self) -> (n: usize)
        requires
            self.wf(),
        ensures
            n == self@.dom().len(),
    {
        proof {
            lemma_entries_map(self.entries@);
        }
        self.entries.len()
    }

    /// The position of `word` among the entries, if it is there.
    fn find(&self, word: &String) -> (r: Option<usize>)
        requires
            self.wf(),
        ensures
            match r {
                Some(i) => i < self.entries@.len() && self.entries@[i as int].0@ == word@,
                None => !self@.contains_key(word@),
            },
    {
        proof {
            lemma_entries_map(self.entries@);
        }
        let mut i: usize = 0;
        while i < self.entries.len()
            invariant
                i <= self.entries@.len(),
                forall|j: int| 0 <= j < i ==> self.entries@[j].0@ != word@,
            decreases self.entries@.len() - i,
        {
            if self.entries[i].0 == *word {
                return Some(i);
            }
            i += 1;
        }
        None
    }

    /// The count of `word`, if it is held.
    pub fn get(&self, word: &str) -> (r: Option<usize>)
        requires
            self.wf(),
        ensures
            match r {
                Some(n) => self@.contains_key(word@) && self@[word@] == n,
                None => !self@.contains_key(word@),
            },
    {
        proof {
            lemma_entries_map(self.entries@);
        }
        let key = word.to_owned();
        match self.find(&key) {
            Some(i) => Some(self.entries[i].1),
            None => None,
        }
    }

    /// Adds `amount` to the count of `word`, which starts from zero when it is absent.
    pub fn add(&mut self, word: String, amount: usize)
        requires
            old(self).wf(),
            amount > 0,
            old(self).count_of(word@) + amount <= usize::MAX,
        ensures
            final(self).wf(),
            final(self)@ == old(self)@.insert(word@, old(self).count_of(word@) + amount as nat),
    {
        proof {
            lemma_entries_map(self.entries@);
        }
        match self.find(&word) {
            Some(i) => {
                let ghost e = self.entries@;
                let current = self.entries[i].1;
                let key = self.entries[i].0.clone();
                proof {
                    assert(self@[word@] == current);
                }
                self.entries.set(i, (key, current + amount));
                let ghost entries = self.entries;
                proof {
                    assert(distinct_words(entries@)) by {
                        assert forall|a: int, b: int| 0 <= a < b < entries@.len() implies entries@[a].0@
                            != entries@[b].0@ by {
                            assert(e[a].0@ != e[b].0@);
                        }
                    }
                    lemma_entries_map(entries@);
                    assert(entries_map(entries@) =~= entries_map(e).insert(
                        word@,
                        (current + amount) as nat,
                    )) by {
                        assert forall|k: Seq<char>| #[trigger]
                            entries_map(entries@).contains_key(k) implies entries_map(
                            e,
                        ).insert(word@, (current + amount) as nat).contains_key(k) by {
                            let j = choose|j: int| 0 <= j < entries@.len() && entries@[j].0@ == k;
                            assert(entries@[j].0@ == e[j].0@);
                        }
                        assert forall|k: Seq<char>| #[trigger]
                            entries_map(e).insert(word@, (current + amount) as nat).contains_key(
                                k,
                            ) implies entries_map(entries@).contains_key(k) && entries_map(
                            entries@,
                        )[k] == entries_map(e).insert(word@, (current + amount) as nat)[k] by {
                            if k != word@ {
                                let j = choose|j: int| 0 <= j < e.len() && e[j].0@ == k;
                                assert(entries@[j] == e[j]);
                            } else {
                                assert(entries@[i as int].0@ == word@);
                            }
                        }
                    }
                }
            },
            None => {
                let ghost e = self.entries@;
                self.entries.push((word, amount));
                let ghost entries = self.entries;
                proof {
                    assert(entries@.drop_last() =~= e);
                    assert(distinct_words(entries@)) by {
                        assert forall|a: int, b: int| 0 <= a < b < entries@.len() implies entries@[a].0@
                            != entries@[b].0@ by {
                            if b == entries@.len() - 1 {
                                assert(entries@[a] == e[a]);
                            }
                        }
                    }
                }
            },
        }
    }

    /// Each word held, once, with its count.
    pub fn pairs(&self) -> (r: Vec<(String, usize)>)
        requires
            self.wf(),
        ensures
            entries_map(r@) == self@,
            distinct_words(r@),
            positive_counts(r@),
    {
        let mut r: Vec<(String, usize)> = Vec::new();
        let mut i: usize = 0;
        while i < self.entries.len()
            invariant
                i <= self.entries@.len(),
                r@ == self.entries@.take(i as int),
            decreases self.entries@.len() - i,
        {
            let key = self.entries[i].0.clone();
            r.push((key, self.entries[i].1));
            assert(r@ =~= self.entries@.take(i + 1));
            i += 1;
        }
        assert(r@ =~= self.entries@);
        r
    }
}

/// What `add` does to the counts: the count of the word added to grows by the amount added,
/// and every other count stays as it was.
pub proof fn lemma_add_then_count(
    before: WordCounts,
    after: WordCounts,
    w: Seq<char>,
    amount: nat,
    other: Seq<char>,
)
    requires
        after@ == before@.insert(w, before.count_of(w) + amount),
    ensures
        after.count_of(w) == before.count_of(w) + amount,
        other != w ==> after.count_of(other) == before.count_of(other),
{
}

} // verus!
