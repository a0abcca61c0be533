use vstd::prelude::*;

verus! {

/// A node of the frequency tree used when training: leaves carry a word, inner
/// nodes carry the sum of their two children's values.
pub struct HuffmanNode<T, U> {
    pub node: Vec<Box<HuffmanNode<T, U>>>,
    pub value: T,
    pub label: Option<U>,
}

impl HuffmanNode<u64, String> {
    /// A leaf holding `label` with weight `value`.
    pub fn new(value: u64, label: String) -> (r: HuffmanNode<u64, String>)
        ensures
            r.node@.len() == 0,
            r.value == value,
            r.label == Some(label),
    {
        HuffmanNode { node: Vec::new(), value, label: Some(label) }
    }

    /// An inner node over `a` and `b`, weighing as much as both together.
    pub fn combine(a: HuffmanNode<u64, String>, b: HuffmanNode<u64, String>) -> (r: HuffmanNode<u64, String>)
        requires
            a.value + b.value <= u64::MAX,
        ensures
            r.value == a.value + b.value,
            r.label is None,
            r.node@.len() == 2,
            *r.node@[0] == a,
            *r.node@[1] == b,
    {
        let value = a.value + b.value;
        let mut node: Vec<Box<HuffmanNode<u64, String>>> = Vec::new();
        node.push(Box::new(a));
        node.push(Box::new(b));
        HuffmanNode { node, value, label: None }
    }
}

/// A word seen in the training text and how often.
pub struct VocabWord {
    pub count: u64,
    pub word: String,
    pub order_id: usize,
}

/// The words of a training text with their counts, each word once.
pub struct Vocab {
    vocab: Vec<VocabWord>,
}

impl Vocab {
    /// Each distinct word with its count, in the order first seen.
    pub closed spec fn counts(&self) -> Seq<(Seq<char>, u64)> {
        self.vocab@.map_values(|e: VocabWord| (e.word@, e.count))
    }

    /// No word is listed twice.
    pub closed spec fn wf(&self) -> bool {
        forall|i: int, j: int|
            0 <= i < j < self.vocab@.len() ==> #[trigger] self.vocab@[i].word@ != #[trigger] self.vocab@[j].word@
    }

    /// An empty vocabulary; `expected_capacity` must not be zero.
    pub fn new(expected_capacity: usize) -> (r: Vocab)
        requires
            expected_capacity != 0,
        ensures
            r.wf(),
            r.counts().len() == 0,
    {
        Vocab { vocab: Vec::with_capacity(expected_capacity) }
    }

    /// How many distinct words have been seen.
    pub fn len(&self) -> (r: usize)
        ensures
            r == self.counts().len(),
    {
        self.vocab.len()
    }

    /// How often `word` has been seen.
    pub fn count_of(&self, word: &String) -> (r: u64)
        requires
            self.wf(),
        ensures
            (exists|i: int| 0 <= i < self.counts().len() && self.counts()[i].0 == word@) ==> exists|i: int|
                0 <= i < self.counts().len() && self.counts()[i] == (word@, r),
            (forall|i: int| 0 <= i < self.counts().len() ==> self.counts()[i].0 != word@) ==> r == 0,
    {
        match self.position(word) {
            Some(i) => {
                assert(self.counts()[i as int] == (word@, self.vocab@[i as int].count));
                self.vocab[i].count
            },
            None => 0,
        }
    }

    fn position(&self, word: &String) -> (r: Option<usize>)
        ensures
            match r {
                Some(i) => i < self.vocab@.len() && self.vocab@[i as int].word@ == word@,
                None => forall|i: int| 0 <= i < self.vocab@.len() ==> self.vocab@[i].word@ != word@,
            },
    {
        let mut i: usize = 0;
        while i < self.vocab.len()
            invariant
                i <= self.vocab@.len(),
                forall|k: int| 0 <= k < i ==> self.vocab@[k].word@ != word@,
            decreases self.vocab.len() - i,
        {
            if self.vocab[i].word == *word {
                return Some(i);
            }
            i = i + 1;
        }
        None
    }

    /// Counts one more occurrence of `word`: a new word enters with count 1 at the
    /// end, a known one has its count raised by one.
    pub fn add_word_to_vocab(&mut self, word: String)
        requires
            old(self).wf(),
            forall|i: int| 0 <= i < old(self).counts().len() && old(self).counts()[i].0 == word@
                ==> old(self).counts()[i].1 < u64::MAX,
        ensures
            final(self).wf(),
            match find_word(old(self).counts(), word@) {
                Some(i) => final(self).counts() == old(self).counts().update(i, (word@, (old(self).counts()[i].1 + 1) as u64)),
                None => final(self).counts() == old(self).counts().push((word@, 1u64)),
            },
    {
        match self.position(&word) {
            Some(i) => {
                proof {
                    assert(old(self).counts()[i as int].0 == word@);
                    lemma_find_word(old(self).counts(), word@, i as int);
                }
                let count = self.vocab[i].count + 1;
                let order_id = self.vocab[i].order_id;
                let ghost w = word@;
                self.vocab.set(i, VocabWord { count, word, order_id });
                assert(self.counts() =~= old(self).counts().update(i as int, (w, count)));
            },
            None => {
                proof {
                    lemma_find_word_none(old(self).counts(), word@);
                }
                let ghost w = word@;
                self.vocab.push(VocabWord { count: 1, word, order_id: 0 });
                assert(self.counts() =~= old(self).counts().push((w, 1u64)));
            },
        }
    }
}

/// The position of `w` among the words of `counts`, if it is there.
pub open spec fn find_word(counts: Seq<(Seq<char>, u64)>, w: Seq<char>) -> Option<int> {
    if exists|i: int| 0 <= i < counts.len() && counts[i].0 == w {
        Some(choose|i: int| 0 <= i < counts.len() && counts[i].0 == w)
    } else {
        None
    }
}

proof fn lemma_find_word(counts: Seq<(Seq<char>, u64)>, w: Seq<char>, i: int)
    requires
        0 <= i < counts.len(),
        counts[i].0 == w,
        forall|a: int, b: int| 0 <= a < b < counts.len() ==> #[trigger] counts[a].0 != #[trigger] counts[b].0,
    ensures
        find_word(counts, w) == Some(i),
{
    let j = choose|j: int| 0 <= j < counts.len() && counts[j].0 == w;
    if j < i {
        assert(counts[j].0 != counts[i].0);
    } else if j > i {
        assert(counts[i].0 != counts[j].0);
    }
}

proof fn lemma_find_word_none(counts: Seq<(Seq<char>, u64)>, w: Seq<char>)
    requires
        forall|i: int| 0 <= i < counts.len() ==> counts[i].0 != w,
    ensures
        find_word(counts, w) is None,
{
}

} // verus!
