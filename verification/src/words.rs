//! Word frequencies: counting, merging and ranking.
//!
//! A frequency table keeps its words in the order in which they were first
//! counted, so that ranking is reproducible: words with equal counts come out
//! in that order.

use crate::markup::strings;
use vstd::hash_map::StringHashMap;
use vstd::prelude::*;

verus! {

/// A word with its count.
pub type Entry = (Seq<char>, nat);

/// Whether `word` has an entry.
pub open spec fn has_word(entries: Seq<Entry>, word: Seq<char>) -> bool {
    exists|i: int| 0 <= i < entries.len() && #[trigger] entries[i].0 == word
}

/// The index of an entry of `word`, where it has one.
pub open spec fn place_of(entries: Seq<Entry>, word: Seq<char>) -> int {
    choose|i: int| 0 <= i < entries.len() && #[trigger] entries[i].0 == word
}

/// Whether no word has two entries.
pub open spec fn distinct_words(entries: Seq<Entry>) -> bool {
    forall|i: int, j: int|
        0 <= i < j < entries.len() ==> #[trigger] entries[i].0 != #[trigger] entries[j].0
}

/// The count of `word`: zero where it has no entry.
pub open spec fn count_of(entries: Seq<Entry>, word: Seq<char>) -> nat {
    if has_word(entries, word) {
        entries[place_of(entries, word)].1
    } else {
        0
    }
}

/// The frequency map that the entries amount to.
pub open spec fn counts(entries: Seq<Entry>) -> Map<Seq<char>, nat> {
    Map::new(|word: Seq<char>| has_word(entries, word), |word: Seq<char>| count_of(entries, word))
}

/// The entries after `word` was counted `n` times more: its entry grows by
/// `n`; a word without an entry gets one at the end.
pub open spec fn bump(entries: Seq<Entry>, word: Seq<char>, n: nat) -> Seq<Entry> {
    if has_word(entries, word) {
        let i = place_of(entries, word);
        entries.update(i, (word, entries[i].1 + n))
    } else {
        entries.push((word, n))
    }
}

/// The entries after each of the words was counted once, in order.
pub open spec fn tally(words: Seq<Seq<char>>) -> Seq<Entry>
    decreases words.len(),
{
    if words.len() == 0 {
        Seq::empty()
    } else {
        bump(tally(words.drop_last()), words.last(), 1)
    }
}

/// The entries of `a` after those of `b` were added, one after the other:
/// counts of one word add up, and the words that only `b` has follow those of
/// `a` in the order of `b`.
pub open spec fn merged(a: Seq<Entry>, b: Seq<Entry>) -> Seq<Entry>
    decreases b.len(),
{
    if b.len() == 0 {
        a
    } else {
        bump(merged(a, b.drop_last()), b.last().0, b.last().1)
    }
}

/// Whether no count of `merged(a, b)` exceeds `limit`.
pub open spec fn sums_fit(a: Seq<Entry>, b: Seq<Entry>, limit: nat) -> bool {
    forall|i: int| 0 <= i < b.len() ==> count_of(a, #[trigger] b[i].0) + b[i].1 <= limit
}

/// The number of entries at the head of `ranked` whose count is at least `n`.
pub open spec fn head_length(ranked: Seq<Entry>, n: nat) -> nat
    decreases ranked.len(),
{
    if ranked.len() == 0 || ranked[0].1 < n {
        0
    } else {
        1 + head_length(ranked.drop_first(), n)
    }
}

/// A ranking with one more entry: it goes behind the entries at the head
/// whose count is not smaller.
pub open spec fn placed(ranked: Seq<Entry>, entry: Entry) -> Seq<Entry> {
    ranked.insert(head_length(ranked, entry.1) as int, entry)
}

/// The entries by falling count. Entries with one count keep their order.
pub open spec fn ranking(entries: Seq<Entry>) -> Seq<Entry>
    decreases entries.len(),
{
    if entries.len() == 0 {
        Seq::empty()
    } else {
        placed(ranking(entries.drop_last()), entries.last())
    }
}

/// Two rankings in one: at each step the first entry of the first ranking
/// goes next unless that of the second has a larger count.
pub open spec fn merge_of(a: Seq<Entry>, b: Seq<Entry>) -> Seq<Entry>
    decreases a.len() + b.len(),
{
    if a.len() == 0 {
        b
    } else if b.len() == 0 {
        a
    } else if a[0].1 >= b[0].1 {
        seq![a[0]] + merge_of(a.drop_first(), b)
    } else {
        seq![b[0]] + merge_of(a, b.drop_first())
    }
}

/// The entries that a vector holds, each word as its text.
pub open spec fn entries_of(v: Seq<(String, usize)>) -> Seq<Entry> {
    v.map_values(|e: (String, usize)| (e.0@, e.1 as nat))
}

/// What counting a word does to the counts: the word's count grows, no other
/// count changes, and no word gets a second entry.
pub proof fn lemma_bump(entries: Seq<Entry>, word: Seq<char>, n: nat)
    requires
        distinct_words(entries),
    ensures
        distinct_words(bump(entries, word, n)),
        forall|w: Seq<char>| #[trigger]
            has_word(bump(entries, word, n), w) == (has_word(entries, w) || w == word),
        forall|w: Seq<char>| #[trigger]
            count_of(bump(entries, word, n), w) == count_of(entries, w) + (if w == word {
                n
            } else {
                0
            }),
{
    let after = bump(entries, word, n);
    if has_word(entries, word) {
        let at = place_of(entries, word);
        assert forall|i: int, j: int| 0 <= i < j < after.len() implies #[trigger] after[i].0
            != #[trigger] after[j].0 by {
            assert(after[i].0 == entries[i].0);
            assert(after[j].0 == entries[j].0);
        }
        assert forall|w: Seq<char>| #[trigger]
            has_word(after, w) == (has_word(entries, w) || w == word) by {
            if has_word(after, w) {
                let i = place_of(after, w);
                assert(entries[i].0 == w);
            }
            if has_word(entries, w) {
                let i = place_of(entries, w);
                assert(after[i].0 == w);
            }
        }
        assert forall|w: Seq<char>| #[trigger]
            count_of(after, w) == count_of(entries, w) + (if w == word {
                n
            } else {
                0
            }) by {
            if has_word(entries, w) {
                let i = place_of(entries, w);
                let j = place_of(after, w);
                assert(after[i].0 == w);
                assert(entries[j].0 == w);
                if i < j {
                    assert(entries[i].0 != entries[j].0);
                }
                if j < i {
                    assert(entries[j].0 != entries[i].0);
                }
            }
        }
    } else {
        let last = entries.len() as int;
        assert forall|i: int, j: int| 0 <= i < j < after.len() implies #[trigger] after[i].0
            != #[trigger] after[j].0 by {
            if j == last {
                assert(entries[i].0 == after[i].0);
            } else {
                assert(after[i].0 == entries[i].0);
                assert(after[j].0 == entries[j].0);
            }
        }
        assert(after[last].0 == word);
        assert forall|w: Seq<char>| #[trigger]
            has_word(after, w) == (has_word(entries, w) || w == word) by {
            if has_word(after, w) {
                let i = place_of(after, w);
                if i < last {
                    assert(entries[i].0 == w);
                }
            }
            if has_word(entries, w) {
                let i = place_of(entries, w);
                assert(after[i].0 == w);
            }
        }
        assert forall|w: Seq<char>| #[trigger]
            count_of(after, w) == count_of(entries, w) + (if w == word {
                n
            } else {
                0
            }) by {
            if has_word(after, w) {
                let j = place_of(after, w);
                if w == word {
                    if j < last {
                        assert(entries[j].0 == w);
                    }
                } else {
                    let i = place_of(entries, w);
                    assert(after[i].0 == w);
                    if i < j {
                        assert(after[i].0 != after[j].0);
                    }
                    if j < i {
                        assert(after[j].0 != after[i].0);
                    }
                }
            }
        }
    }
}

/// What the counts of a tally are: no word has two entries, and no count
/// exceeds the number of words that were counted.
pub proof fn lemma_tally(words: Seq<Seq<char>>)
    ensures
        distinct_words(tally(words)),
        forall|w: Seq<char>| #[trigger] count_of(tally(words), w) <= words.len(),
    decreases words.len(),
{
    if words.len() > 0 {
        lemma_tally(words.drop_last());
        lemma_bump(tally(words.drop_last()), words.last(), 1);
    }
}

/// What the counts of a merged table are: a word has an entry where one of
/// the two tables has one, and its count is the sum of its two counts.
pub proof fn lemma_merged(a: Seq<Entry>, b: Seq<Entry>)
    requires
        distinct_words(a),
        distinct_words(b),
    ensures
        distinct_words(merged(a, b)),
        forall|w: Seq<char>| #[trigger]
            has_word(merged(a, b), w) == (has_word(a, w) || has_word(b, w)),
        forall|w: Seq<char>| #[trigger]
            count_of(merged(a, b), w) == count_of(a, w) + count_of(b, w),
    decreases b.len(),
{
    if b.len() == 0 {
        assert(forall|w: Seq<char>| !has_word(b, w));
    } else {
        let front = b.drop_last();
        let last = b.last();
        assert(distinct_words(front)) by {
            assert forall|i: int, j: int| 0 <= i < j < front.len() implies #[trigger] front[i].0
                != #[trigger] front[j].0 by {
                assert(front[i].0 == b[i].0);
                assert(front[j].0 == b[j].0);
            }
        }
        lemma_merged(a, front);
        lemma_bump(merged(a, front), last.0, last.1);
        assert forall|w: Seq<char>|
            has_word(b, w) == (has_word(front, w) || w == last.0) && count_of(b, w) == count_of(
                front,
                w,
            ) + (if w == last.0 {
                last.1
            } else {
                0
            }) by {
            assert(b[b.len() - 1].0 == last.0);
            if has_word(front, w) {
                let i = place_of(front, w);
                assert(b[i].0 == w);
                assert(b[i].0 != b[b.len() - 1].0);
                let j = place_of(b, w);
                if j < i {
                    assert(b[j].0 != b[i].0);
                }
                if i < j {
                    assert(b[i].0 != b[j].0);
                }
            }
            if has_word(b, w) {
                let j = place_of(b, w);
                if j < front.len() {
                    assert(front[j].0 == w);
                }
            }
        }
        assert forall|w: Seq<char>| #[trigger]
            has_word(merged(a, b), w) == (has_word(a, w) || has_word(b, w)) by {
            assert(has_word(b, w) == (has_word(front, w) || w == last.0));
        }
        assert forall|w: Seq<char>| #[trigger]
            count_of(merged(a, b), w) == count_of(a, w) + count_of(b, w) by {
            assert(count_of(b, w) == count_of(front, w) + (if w == last.0 {
                last.1
            } else {
                0
            }));
        }
    }
}

/// Merging commutes: whichever of two tables is added to the other, every
/// word ends with the same count.
pub proof fn lemma_merge_commutes(a: Seq<Entry>, b: Seq<Entry>)
    requires
        distinct_words(a),
        distinct_words(b),
    ensures
        counts(merged(a, b)) == counts(merged(b, a)),
{
    lemma_merged(a, b);
    lemma_merged(b, a);
    assert(counts(merged(a, b)) =~= counts(merged(b, a)));
}

/// A table of word frequencies.
pub struct WordCounts {
    entries: Vec<(String, usize)>,
    index: StringHashMap<usize>,
}

impl View for WordCounts {
    type V = Seq<Entry>;

    closed spec fn view(&self) -> Seq<Entry> {
        entries_of(self.entries@)
    }
}

impl WordCounts {
    /// What holds of every table: each word is found through the index at
    /// its entry, and the index holds nothing else.
    pub closed spec fn wf(&self) -> bool {
        &&& forall|i: int|
            0 <= i < self.entries@.len() ==> self.index@.contains_key(
                #[trigger] self.entries@[i].0@,
            ) && self.index@[self.entries@[i].0@] == i
        &&& forall|word: Seq<char>| #[trigger]
            self.index@.contains_key(word) ==> self.index@[word] < self.entries@.len()
                && self.entries@[self.index@[word] as int].0@ == word
    }

    /// In a well-formed table no word has two entries.
    pub proof fn lemma_distinct(&self)
        requires
            self.wf(),
        ensures
            distinct_words(self@),
    {
        assert forall|i: int, j: int| 0 <= i < j < self@.len() implies #[trigger] self@[i].0
            != #[trigger] self@[j].0 by {
            assert(self.index@[self.entries@[i].0@] == i);
            assert(self.index@[self.entries@[j].0@] == j);
        }
    }

    /// An empty table.
    pub fn new() -> (out: WordCounts)
        ensures
            out.wf(),
            out@ == Seq::<Entry>::empty(),
    {
        let out = WordCounts { entries: Vec::new(), index: StringHashMap::new() };
        assert(out@ =~= Seq::<Entry>::empty());
        out
    }

    /// The number of words.
    pub fn len(&self) -> (out: usize)
        ensures
            out == self@.len(),
    {
        self.entries.len()
    }

    /// The count of `word`: zero where it was never counted.
    pub fn get(&self, word: &str) -> (out: usize)
        requires
            self.wf(),
        ensures
            out == count_of(self@, word@),
    {
        proof {
            self.lemma_lookup(word@);
        }
        match self.index.get(word) {
            Some(at) => self.entries[*at].1,
            None => 0,
        }
    }

    proof fn lemma_lookup(&self, word: Seq<char>)
        requires
            self.wf(),
        ensures
            has_word(self@, word) == self.index@.contains_key(word),
            has_word(self@, word) ==> place_of(self@, word) == self.index@[word],
    {
        if self.index@.contains_key(word) {
            let at = self.index@[word] as int;
            assert(self@[at].0 == word);
        }
        if has_word(self@, word) {
            let i = place_of(self@, word);
            assert(self.entries@[i].0@ == word);
            assert(self.index@[self.entries@[i].0@] == i);
        }
    }

    /// Counts `word` `n` times more.
    pub fn add(&mut self, word: String, n: usize)
        requires
            old(self).wf(),
            count_of(old(self)@, word@) + n <= usize::MAX,
        ensures
            final(self).wf(),
            final(self)@ == bump(old(self)@, word@, n as nat),
    {
        proof {
            self.lemma_lookup(word@);
        }
        let found = match self.index.get(word.as_str()) {
            Some(at) => Some(*at),
            None => None,
        };
        match found {
            Some(at) => {
                let sum = self.entries[at].1 + n;
                self.entries.set(at, (word, sum));
                assert(self@ =~= bump(old(self)@, word@, n as nat));
                assert(forall|i: int|
                    0 <= i < self.entries@.len() ==> #[trigger] self.entries@[i].0@ == old(
                        self,
                    ).entries@[i].0@);
            },
            None => {
                let at = self.entries.len();
                self.index.insert(word.clone(), at);
                self.entries.push((word, n));
                assert(self@ =~= bump(old(self)@, word@, n as nat));
                assert forall|i: int| 0 <= i < self.entries@.len() implies self.index@.contains_key(
                    #[trigger] self.entries@[i].0@,
                ) && self.index@[self.entries@[i].0@] == i by {
                    if i < at {
                        assert(self.entries@[i] == old(self).entries@[i]);
                        assert(old(self).index@.contains_key(old(self).entries@[i].0@));
                    }
                }
                assert forall|w: Seq<char>| #[trigger]
                    self.index@.contains_key(w) implies self.index@[w] < self.entries@.len()
                    && self.entries@[self.index@[w] as int].0@ == w by {
                    if w != word@ {
                        assert(old(self).index@.contains_key(w));
                        assert(self.entries@[old(self).index@[w] as int] == old(
                            self,
                        ).entries@[old(self).index@[w] as int]);
                    }
                }
            },
        }
    }

    /// Counts each of the words once, in order, into a new table.
    pub fn count(words: &Vec<String>) -> (out: WordCounts)
        ensures
            out.wf(),
            out@ == tally(strings(words@)),
    {
        let mut out = WordCounts::new();
        let mut i: usize = 0;
        assert(strings(words@).take(0) =~= Seq::<Seq<char>>::empty());
        while i < words.len()
            invariant
                i <= words.len(),
                out.wf(),
                out@ == tally(strings(words@).take(i as int)),
            decreases words.len() - i,
        {
            proof {
                let upto = strings(words@).take(i + 1);
                assert(upto.drop_last() == strings(words@).take(i as int));
                assert(upto.last() == words@[i as int]@);
                lemma_tally(strings(words@).take(i as int));
            }
            out.add(words[i].clone(), 1);
            i += 1;
        }
        assert(strings(words@).take(i as int) == strings(words@));
        out
    }

    /// Adds the counts of `other` to this table, where every sum fits a
    /// `usize`: the result is then `true`. Else nothing changes.
    pub fn merge(&mut self, other: &WordCounts) -> (done: bool)
        requires
            old(self).wf(),
            other.wf(),
        ensures
            final(self).wf(),
            done == sums_fit(old(self)@, other@, usize::MAX as nat),
            done ==> final(self)@ == merged(old(self)@, other@),
            !done ==> final(self)@ == old(self)@,
    {
        let mut i: usize = 0;
        while i < other.entries.len()
            invariant
                i <= other.entries@.len(),
                self.wf(),
                *self == *old(self),
                forall|j: int|
                    0 <= j < i ==> count_of(self@, #[trigger] other@[j].0) + other@[j].1
                        <= usize::MAX,
            decreases other.entries@.len() - i,
        {
            let have = self.get(other.entries[i].0.as_str());
            if have.checked_add(other.entries[i].1).is_none() {
                assert(count_of(self@, other@[i as int].0) + other@[i as int].1 > usize::MAX);
                return false;
            }
            i += 1;
        }
        let mut i: usize = 0;
        proof {
            assert(other@.take(0) =~= Seq::<Entry>::empty());
            self.lemma_distinct();
            other.lemma_distinct();
        }
        while i < other.entries.len()
            invariant
                i <= other.entries@.len(),
                self.wf(),
                other.wf(),
                distinct_words(old(self)@),
                distinct_words(other@),
                sums_fit(old(self)@, other@, usize::MAX as nat),
                self@ == merged(old(self)@, other@.take(i as int)),
            decreases other.entries@.len() - i,
        {
            proof {
                let done = other@.take(i as int);
                let upto = other@.take(i + 1);
                assert(upto.drop_last() == done);
                assert(upto.last() == other@[i as int]);
                assert(distinct_words(done)) by {
                    assert forall|x: int, y: int| 0 <= x < y < done.len() implies #[trigger] done[x].0
                        != #[trigger] done[y].0 by {
                        assert(done[x].0 == other@[x].0);
                        assert(done[y].0 == other@[y].0);
                    }
                }
                lemma_merged(old(self)@, done);
                let word = other@[i as int].0;
                if has_word(done, word) {
                    let at = place_of(done, word);
                    assert(other@[at].0 == word);
                    assert(other@[at].0 != other@[i as int].0);
                }
            }
            self.add(other.entries[i].0.clone(), other.entries[i].1);
            i += 1;
        }
        assert(other@.take(i as int) == other@);
        true
    }

    /// The words with their counts, in the order in which they were first
    /// counted.
    pub fn entries(&self) -> (out: Vec<(String, usize)>)
        ensures
            entries_of(out@) == self@,
    {
        let mut out: Vec<(String, usize)> = Vec::new();
        let mut i: usize = 0;
        while i < self.entries.len()
            invariant
                i <= self.entries@.len(),
                entries_of(out@) == self@.take(i as int),
            decreases self.entries@.len() - i,
        {
            let ghost before = entries_of(out@);
            out.push((self.entries[i].0.clone(), self.entries[i].1));
            assert(entries_of(out@) =~= before.push(self@[i as int]));
            assert(self@.take(i + 1) =~= before.push(self@[i as int]));
            i += 1;
        }
        assert(self@.take(i as int) == self@);
        out
    }

    /// The words with their counts by falling count; words with one count
    /// come in the order in which they were first counted.
    pub fn ranked(&self) -> (out: Vec<(String, usize)>)
        ensures
            entries_of(out@) == ranking(self@),
    {
        assert(self@.subrange(0, self@.len() as int) == self@);
        rank_range(&self.entries, 0, self.entries.len())
    }
}

/// Ranks the entries of `v` from `from` up to `to`.
fn rank_range(v: &Vec<(String, usize)>, from: usize, to: usize) -> (out: Vec<(String, usize)>)
    requires
        from <= to <= v.len(),
    ensures
        entries_of(out@) == ranking(entries_of(v@).subrange(from as int, to as int)),
    decreases to - from,
{
    let ghost part = entries_of(v@).subrange(from as int, to as int);
    let mut out: Vec<(String, usize)> = Vec::new();
    if to - from == 0 {
        assert(entries_of(out@) =~= ranking(part));
        return out;
    }
    if to - from == 1 {
        out.push((v[from].0.clone(), v[from].1));
        proof {
            let none = Seq::<Entry>::empty();
            assert(part.drop_last() =~= none);
            assert(ranking(none) == none);
            assert(head_length(none, part.last().1) == 0);
            assert(part.last() == entries_of(v@)[from as int]);
            assert(entries_of(out@) =~= none.insert(0, part.last()));
        }
        return out;
    }
    let middle = from + (to - from) / 2;
    let left = rank_range(v, from, middle);
    let right = rank_range(v, middle, to);
    proof {
        let a = entries_of(v@).subrange(from as int, middle as int);
        let b = entries_of(v@).subrange(middle as int, to as int);
        assert(part =~= a + b);
        lemma_ranking_splits(a, b);
    }
    merge_ranked(&left, &right)
}

/// Merges two rankings into one.
fn merge_ranked(a: &Vec<(String, usize)>, b: &Vec<(String, usize)>) -> (out: Vec<(String, usize)>)
    ensures
        entries_of(out@) == merge_of(entries_of(a@), entries_of(b@)),
{
    let ghost left = entries_of(a@);
    let ghost right = entries_of(b@);
    let mut out: Vec<(String, usize)> = Vec::new();
    let mut i: usize = 0;
    let mut j: usize = 0;
    proof {
        assert(left.skip(0) =~= left);
        assert(right.skip(0) =~= right);
        assert(entries_of(out@) + merge_of(left, right) =~= merge_of(left, right));
    }
    while i < a.len() || j < b.len()
        invariant
            i <= a.len(),
            j <= b.len(),
            left == entries_of(a@),
            right == entries_of(b@),
            entries_of(out@) + merge_of(left.skip(i as int), right.skip(j as int))
                == merge_of(left, right),
        decreases a.len() - i + (b.len() - j),
    {
        let ghost before = entries_of(out@);
        let ghost x = left.skip(i as int);
        let ghost y = right.skip(j as int);
        if j >= b.len() || (i < a.len() && a[i].1 >= b[j].1) {
            out.push((a[i].0.clone(), a[i].1));
            proof {
                assert(x.drop_first() =~= left.skip(i + 1));
                assert(entries_of(out@) =~= before + seq![x[0]]);
                if j >= b.len() {
                    assert(merge_of(x, y) == x);
                    assert(merge_of(x.drop_first(), y) == x.drop_first()) by {
                        if x.drop_first().len() == 0 {
                            assert(y =~= x.drop_first());
                        }
                    }
                    assert(x =~= seq![x[0]] + x.drop_first());
                }
                assert(before + merge_of(x, y) =~= before + seq![x[0]] + merge_of(
                    x.drop_first(),
                    y,
                ));
            }
            i += 1;
        } else {
            out.push((b[j].0.clone(), b[j].1));
            proof {
                assert(y.drop_first() =~= right.skip(j + 1));
                assert(entries_of(out@) =~= before + seq![y[0]]);
                if i >= a.len() {
                    assert(merge_of(x, y) == y);
                    assert(merge_of(x, y.drop_first()) == y.drop_first());
                    assert(y =~= seq![y[0]] + y.drop_first());
                }
                assert(before + merge_of(x, y) =~= before + seq![y[0]] + merge_of(
                    x,
                    y.drop_first(),
                ));
            }
            j += 1;
        }
    }
    proof {
        assert(left.skip(i as int) =~= Seq::<Entry>::empty());
        assert(right.skip(j as int) =~= Seq::<Entry>::empty());
        assert(entries_of(out@) + Seq::<Entry>::empty() =~= entries_of(out@));
    }
    out
}

proof fn lemma_head(ranked: Seq<Entry>, n: nat)
    ensures
        head_length(ranked, n) <= ranked.len(),
        forall|j: int| 0 <= j < head_length(ranked, n) ==> (#[trigger] ranked[j]).1 >= n,
        head_length(ranked, n) < ranked.len() ==> ranked[head_length(ranked, n) as int].1 < n,
    decreases ranked.len(),
{
    if ranked.len() > 0 && ranked[0].1 >= n {
        let rest = ranked.drop_first();
        lemma_head(rest, n);
        assert forall|j: int| 0 <= j < head_length(ranked, n) implies (#[trigger] ranked[j]).1
            >= n by {
            if j > 0 {
                assert(ranked[j] == rest[j - 1]);
            }
        }
    }
}

/// Whether the counts never rise along the sequence.
pub open spec fn falling(ranked: Seq<Entry>) -> bool {
    forall|i: int, j: int| 0 <= i < j < ranked.len() ==> ranked[i].1 >= ranked[j].1
}

/// A ranking holds the entries that it was made of, each as often as they
/// do, by falling count.
pub proof fn lemma_ranking_sorts(entries: Seq<Entry>)
    ensures
        ranking(entries).len() == entries.len(),
        ranking(entries).to_multiset() == entries.to_multiset(),
        falling(ranking(entries)),
    decreases entries.len(),
{
    broadcast use vstd::seq_lib::group_to_multiset_ensures;

    if entries.len() > 0 {
        let front = entries.drop_last();
        let last = entries.last();
        let before = ranking(front);
        lemma_ranking_sorts(front);
        lemma_head(before, last.1);
        let at = head_length(before, last.1) as int;
        let after = placed(before, last);
        assert(entries =~= front.push(last));
        assert(after.to_multiset() =~= before.to_multiset().insert(last));
        assert forall|i: int, j: int| 0 <= i < j < after.len() implies after[i].1
            >= after[j].1 by {
            if j < at {
                assert(after[i] == before[i] && after[j] == before[j]);
            } else if j == at {
                assert(after[i] == before[i]);
            } else if i < at {
                assert(after[i] == before[i] && after[j] == before[j - 1]);
                assert(before[at].1 < last.1);
                assert(before[at].1 >= before[j - 1].1 || at == j - 1);
            } else if i == at {
                assert(after[j] == before[j - 1]);
                assert(before[at].1 >= before[j - 1].1 || at == j - 1);
            } else {
                assert(after[i] == before[i - 1] && after[j] == before[j - 1]);
            }
        }
    }
}

/// Ranking is stable: of two entries with one count, the one that came first
/// comes first in the ranking.
pub proof fn lemma_ranking_is_stable(entries: Seq<Entry>)
    requires
        distinct_words(entries),
    ensures
        distinct_words(ranking(entries)),
        forall|w: Seq<char>| #[trigger] has_word(ranking(entries), w) == has_word(entries, w),
        forall|p: int, q: int|
            0 <= p < q < ranking(entries).len() && (#[trigger] ranking(entries)[p]).1 == (
            #[trigger] ranking(entries)[q]).1 ==> place_of(entries, ranking(entries)[p].0)
                < place_of(entries, ranking(entries)[q].0),
    decreases entries.len(),
{
    if entries.len() == 0 {
        assert(forall|w: Seq<char>| !has_word(entries, w));
    } else {
        let front = entries.drop_last();
        let last = entries.last();
        let end = entries.len() - 1;
        let before = ranking(front);
        assert(distinct_words(front)) by {
            assert forall|i: int, j: int| 0 <= i < j < front.len() implies #[trigger] front[i].0
                != #[trigger] front[j].0 by {
                assert(front[i].0 == entries[i].0);
                assert(front[j].0 == entries[j].0);
            }
        }
        lemma_ranking_is_stable(front);
        lemma_ranking_sorts(front);
        lemma_head(before, last.1);
        let at = head_length(before, last.1) as int;
        let after = placed(before, last);
        assert(after.len() == before.len() + 1);
        assert(after[at] == last);
        assert(forall|i: int| 0 <= i < at ==> after[i] == before[i]);
        assert(forall|i: int| at < i < after.len() ==> after[i] == before[i - 1]);
        // the words of `front`, and where they stand in `entries`
        assert forall|w: Seq<char>| has_word(front, w) implies has_word(entries, w) && w != last.0
            && place_of(entries, w) == place_of(front, w) by {
            let i = place_of(front, w);
            assert(entries[i].0 == w);
            assert(entries[i].0 != entries[end].0);
            let j = place_of(entries, w);
            if j < i {
                assert(entries[j].0 != entries[i].0);
            }
            if i < j {
                assert(entries[i].0 != entries[j].0);
            }
        }
        assert(!has_word(front, last.0)) by {
            if has_word(front, last.0) {
                let i = place_of(front, last.0);
                assert(entries[i].0 != entries[end].0);
            }
        }
        assert(has_word(entries, last.0) && place_of(entries, last.0) == end) by {
            assert(entries[end].0 == last.0);
            let j = place_of(entries, last.0);
            if j < end {
                assert(entries[j].0 != entries[end].0);
            }
        }
        assert forall|i: int| 0 <= i < before.len() implies has_word(front, #[trigger] before[i].0)
            && before[i].0 != last.0 by {
            assert(has_word(before, before[i].0));
        }
        assert forall|i: int, j: int| 0 <= i < j < after.len() implies #[trigger] after[i].0
            != #[trigger] after[j].0 by {
            let x = if i < at { i } else { i - 1 };
            let y = if j < at { j } else { j - 1 };
            if i != at && j != at {
                assert(before[x].0 != before[y].0);
            } else if i == at {
                assert(has_word(front, before[y].0));
            } else {
                assert(has_word(front, before[x].0));
            }
        }
        assert forall|w: Seq<char>| #[trigger] has_word(after, w) == has_word(entries, w) by {
            if has_word(after, w) {
                let i = place_of(after, w);
                if i != at {
                    let x = if i < at { i } else { i - 1 };
                    assert(has_word(front, before[x].0));
                }
            }
            if has_word(entries, w) {
                let j = place_of(entries, w);
                if j == end {
                    assert(after[at].0 == w);
                } else {
                    assert(front[j].0 == w);
                    assert(has_word(before, w));
                    let x = place_of(before, w);
                    let i = if x < at { x } else { x + 1 };
                    assert(after[i].0 == w);
                }
            }
        }
        assert forall|p: int, q: int|
            0 <= p < q < after.len() && (#[trigger] after[p]).1 == (#[trigger] after[q]).1
            implies place_of(entries, after[p].0) < place_of(entries, after[q].0) by {
            let x = if p < at { p } else { p - 1 };
            let y = if q < at { q } else { q - 1 };
            if p != at && q != at {
                assert(before[x].1 == before[y].1);
                assert(has_word(front, before[x].0));
                assert(has_word(front, before[y].0));
            } else if q == at {
                assert(has_word(front, before[x].0));
            } else {
                // p == at: what follows has a smaller count
                assert(before[at].1 < last.1);
                assert(before[at].1 >= before[y].1 || at == y);
            }
        }
    }
}

proof fn lemma_placed_step(s: Seq<Entry>, x: Entry)
    ensures
        s.len() == 0 ==> placed(s, x) == seq![x],
        s.len() > 0 && s[0].1 >= x.1 ==> placed(s, x) == seq![s[0]] + placed(s.drop_first(), x),
        s.len() > 0 && s[0].1 < x.1 ==> placed(s, x) == seq![x] + s,
{
    if s.len() == 0 {
        assert(placed(s, x) =~= seq![x]);
    } else if s[0].1 >= x.1 {
        lemma_head(s.drop_first(), x.1);
        assert(placed(s, x) =~= seq![s[0]] + placed(s.drop_first(), x));
    } else {
        assert(placed(s, x) =~= seq![x] + s);
    }
}

proof fn lemma_falling_rest(s: Seq<Entry>)
    requires
        falling(s),
        s.len() > 0,
    ensures
        falling(s.drop_first()),
{
    let rest = s.drop_first();
    assert forall|i: int, j: int| 0 <= i < j < rest.len() implies rest[i].1 >= rest[j].1 by {
        assert(rest[i] == s[i + 1] && rest[j] == s[j + 1]);
    }
}

proof fn lemma_merge_takes_placed(a: Seq<Entry>, b: Seq<Entry>, x: Entry)
    requires
        falling(a),
        falling(b),
    ensures
        merge_of(a, placed(b, x)) == placed(merge_of(a, b), x),
    decreases a.len() + b.len(),
{
    let with_x = placed(b, x);
    let both = merge_of(a, b);
    lemma_placed_step(b, x);
    lemma_placed_step(both, x);
    if a.len() == 0 {
    } else if b.len() == 0 {
        lemma_falling_rest(a);
        lemma_placed_step(a, x);
        if a[0].1 >= x.1 {
            lemma_merge_takes_placed(a.drop_first(), b, x);
            lemma_placed_step(b, x);
            assert(merge_of(a.drop_first(), b) == a.drop_first()) by {
                if a.drop_first().len() == 0 {
                    assert(b =~= a.drop_first());
                }
            }
        } else {
            assert(with_x.drop_first() =~= b);
        }
    } else if a[0].1 >= b[0].1 {
        lemma_falling_rest(a);
        assert(both.drop_first() =~= merge_of(a.drop_first(), b));
        if b[0].1 >= x.1 {
            lemma_merge_takes_placed(a.drop_first(), b, x);
        } else if a[0].1 >= x.1 {
            lemma_merge_takes_placed(a.drop_first(), b, x);
        } else {
            assert(with_x.drop_first() =~= b);
        }
    } else {
        lemma_falling_rest(b);
        assert(both.drop_first() =~= merge_of(a, b.drop_first()));
        if b[0].1 >= x.1 {
            assert(with_x.drop_first() =~= placed(b.drop_first(), x));
            lemma_merge_takes_placed(a, b.drop_first(), x);
        } else {
            assert(with_x.drop_first() =~= b);
        }
    }
}

/// The ranking of two runs of entries, one after the other, is the merge of
/// their rankings.
pub proof fn lemma_ranking_splits(a: Seq<Entry>, b: Seq<Entry>)
    ensures
        ranking(a + b) == merge_of(ranking(a), ranking(b)),
    decreases b.len(),
{
    if b.len() == 0 {
        assert(a + b =~= a);
        assert(merge_of(ranking(a), ranking(b)) == ranking(a)) by {
            if ranking(a).len() == 0 {
                assert(ranking(a) =~= ranking(b));
            }
        }
    } else {
        assert((a + b).drop_last() =~= a + b.drop_last());
        assert((a + b).last() == b.last());
        lemma_ranking_splits(a, b.drop_last());
        lemma_ranking_sorts(a);
        lemma_ranking_sorts(b.drop_last());
        lemma_merge_takes_placed(ranking(a), ranking(b.drop_last()), b.last());
    }
}

} // verus!
