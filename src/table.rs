use vstd::prelude::*;

verus! {

/// One stored word and its vector; each component is the bit pattern of an `f32`.
pub struct Entry {
    pub word: Vec<u8>,
    pub vector: Vec<u32>,
}

/// The table that a sequence of entries stands for; a later entry for a word wins.
pub open spec fn table_of(es: Seq<Entry>) -> Map<Seq<u8>, Seq<u32>>
    decreases es.len(),
{
    if es.len() == 0 {
        Map::empty()
    } else {
        table_of(es.drop_last()).insert(es.last().word@, es.last().vector@)
    }
}

pub open spec fn unique_words(es: Seq<Entry>) -> bool {
    forall|i: int, j: int|
        0 <= i < j < es.len() ==> #[trigger] es[i].word@ != #[trigger] es[j].word@
}


pub proof fn lemma_table_dom(es: Seq<Entry>, w: Seq<u8>)
    ensures
        table_of(es).contains_key(w) <==> exists|i: int| 0 <= i < es.len() && es[i].word@ == w,
    decreases es.len(),
{
    if es.len() > 0 {
        lemma_table_dom(es.drop_last(), w);
        if exists|i: int| 0 <= i < es.drop_last().len() && es.drop_last()[i].word@ == w {
            let i = choose|i: int| 0 <= i < es.drop_last().len() && es.drop_last()[i].word@ == w;
            assert(es[i].word@ == w);
        }
        if exists|i: int| 0 <= i < es.len() && es[i].word@ == w {
            let i = choose|i: int| 0 <= i < es.len() && es[i].word@ == w;
            if i < es.len() - 1 {
                assert(es.drop_last()[i].word@ == w);
            }
        }
    }
}

pub proof fn lemma_table_get(es: Seq<Entry>, i: int)
    requires
        unique_words(es),
        0 <= i < es.len(),
    ensures
        table_of(es).contains_key(es[i].word@),
        table_of(es)[es[i].word@] == es[i].vector@,
    decreases es.len(),
{
    if i < es.len() - 1 {
        assert(unique_words(es.drop_last()));
        lemma_table_get(es.drop_last(), i);
        assert(es.drop_last()[i] == es[i]);
    }
}

pub proof fn lemma_table_len(es: Seq<Entry>)
    requires
        unique_words(es),
    ensures
        table_of(es).dom().finite(),
        table_of(es).dom().len() == es.len(),
    decreases es.len(),
{
    if es.len() > 0 {
        assert(unique_words(es.drop_last()));
        lemma_table_len(es.drop_last());
        lemma_table_dom(es.drop_last(), es.last().word@);
        if table_of(es.drop_last()).contains_key(es.last().word@) {
            let i = choose|i: int|
                0 <= i < es.drop_last().len() && es.drop_last()[i].word@ == es.last().word@;
            assert(es[i].word@ == es[es.len() - 1].word@);
        }
    }
}

proof fn lemma_table_update(es: Seq<Entry>, i: int, e: Entry)
    requires
        unique_words(es),
        0 <= i < es.len(),
        e.word@ == es[i].word@,
    ensures
        table_of(es.update(i, e)) =~= table_of(es).insert(e.word@, e.vector@),
    decreases es.len(),
{
    let u = es.update(i, e);
    if i == es.len() - 1 {
        assert(u.drop_last() =~= es.drop_last());
    } else {
        assert(unique_words(es.drop_last()));
        assert(u.drop_last() =~= es.drop_last().update(i, e));
        lemma_table_update(es.drop_last(), i, e);
        assert(es[i].word@ != es[es.len() - 1].word@);
    }
}

fn bytes_eq(a: &[u8], b: &[u8]) -> (r: bool)
    ensures
        r == (a@ == b@),
{
    if a.len() != b.len() {
        return false;
    }
    let mut i: usize = 0;
    while i < a.len()
        invariant
            a@.len() == b@.len(),
            i <= a@.len(),
            forall|k: int| 0 <= k < i ==> a@[k] == b@[k],
        decreases a.len() - i,
    {
        if a[i] != b[i] {
            return false;
        }
        i = i + 1;
    }
    assert(a@ =~= b@);
    true
}

pub const HASH_MODULUS: u64 = 1_000_000_007;

/// A polynomial hash of a word's bytes, reduced at every step so that it never
/// leaves `u64`.
pub open spec fn poly_hash(s: Seq<u8>) -> nat
    decreases s.len(),
{
    if s.len() == 0 {
        0
    } else {
        ((poly_hash(s.drop_last()) * 31 + s.last()) % (HASH_MODULUS as int)) as nat
    }
}

/// The bucket of `w` among `nb` buckets.
pub open spec fn bucket_of(w: Seq<u8>, nb: nat) -> int {
    (poly_hash(w) % nb) as int
}

/// Every bucket lists positions of entries whose words hash to it, and every entry
/// is listed in its own bucket.
pub open spec fn index_ok(es: Seq<Entry>, bs: Seq<Vec<usize>>) -> bool {
    &&& bs.len() > 0
    &&& forall|b: int, k: int|
        0 <= b < bs.len() && 0 <= k < bs[b]@.len() ==> #[trigger] bs[b]@[k] < es.len()
            && bucket_of(es[bs[b]@[k] as int].word@, bs.len() as nat) == b
    &&& forall|i: int| 0 <= i < es.len() ==> #[trigger] bs[bucket_of(es[i].word@, bs.len() as nat)]@.contains(i as usize)
}

fn hash_bytes(w: &[u8]) -> (r: u64)
    ensures
        r as nat == poly_hash(w@),
{
    let mut h: u64 = 0;
    let mut i: usize = 0;
    while i < w.len()
        invariant
            i <= w@.len(),
            h < HASH_MODULUS,
            h as nat == poly_hash(w@.subrange(0, i as int)),
        decreases w.len() - i,
    {
        assert(w@.subrange(0, i + 1).drop_last() =~= w@.subrange(0, i as int));
        h = (h * 31 + w[i] as u64) % HASH_MODULUS;
        i = i + 1;
    }
    assert(w@.subrange(0, w@.len() as int) =~= w@);
    h
}

/// Stored words with their vectors, each word once, reachable through a hash index.
pub struct Table {
    entries: Vec<Entry>,
    buckets: Vec<Vec<usize>>,
}

impl Table {
    /// The entries in storage order.
    pub closed spec fn entries_view(&self) -> Seq<Entry> {
        self.entries@
    }

    /// Words are unique and the hash index is exact.
    pub closed spec fn wf(&self) -> bool {
        unique_words(self.entries@) && index_ok(self.entries@, self.buckets@)
    }

    /// An empty table over `nb` buckets.
    pub fn with_buckets(nb: usize) -> (r: Table)
        requires
            nb > 0,
        ensures
            r.wf(),
            r.entries_view().len() == 0,
    {
        let mut buckets: Vec<Vec<usize>> = Vec::new();
        let mut i: usize = 0;
        while i < nb
            invariant
                i <= nb,
                buckets@.len() == i,
                forall|b: int| 0 <= b < i ==> (#[trigger] buckets@[b])@.len() == 0,
            decreases nb - i,
        {
            buckets.push(Vec::new());
            i = i + 1;
        }
        Table { entries: Vec::new(), buckets }
    }

    /// How many entries the table holds.
    pub fn len(&self) -> (r: usize)
        ensures
            r == self.entries_view().len(),
    {
        self.entries.len()
    }

    /// The `i`-th entry in storage order.
    pub fn get(&self, i: usize) -> (r: &Entry)
        requires
            i < self.entries_view().len(),
        ensures
            *r == self.entries_view()[i as int],
    {
        &self.entries[i]
    }

    /// The bucket that `word` belongs to.
    fn bucket(&self, word: &[u8]) -> (r: usize)
        requires
            self.wf(),
        ensures
            r as int == bucket_of(word@, self.buckets@.len() as nat),
            r < self.buckets@.len(),
    {
        (hash_bytes(word) % (self.buckets.len() as u64)) as usize
    }

    /// Position of the entry for `word`, if any.
    pub fn find(&self, word: &[u8]) -> (r: Option<usize>)
        requires
            self.wf(),
        ensures
            match r {
                Some(i) => i < self.entries_view().len() && self.entries_view()[i as int].word@ == word@,
                None => forall|i: int| 0 <= i < self.entries_view().len() ==> self.entries_view()[i].word@ != word@,
            },
    {
        let b = self.bucket(word);
        let bucket = &self.buckets[b];
        let mut k: usize = 0;
        while k < bucket.len()
            invariant
                self.wf(),
                b as int == bucket_of(word@, self.buckets@.len() as nat),
                b < self.buckets@.len(),
                *bucket == self.buckets@[b as int],
                k <= bucket@.len(),
                forall|m: int| 0 <= m < k ==> self.entries@[bucket@[m] as int].word@ != word@,
            decreases bucket.len() - k,
        {
            let idx = bucket[k];
            assert(idx < self.entries@.len());
            if bytes_eq(self.entries[idx].word.as_slice(), word) {
                return Some(idx);
            }
            k = k + 1;
        }
        let count = self.entries.len();
        proof {
            assert forall|i: int| 0 <= i < self.entries@.len() implies self.entries@[i].word@ != word@ by {
                if self.entries@[i].word@ == word@ {
                    assert(self.buckets@[bucket_of(self.entries@[i].word@, self.buckets@.len() as nat)]@.contains(i as usize));
                    assert(bucket@.contains(i as usize));
                    let m = choose|m: int| 0 <= m < bucket@.len() && bucket@[m] == i as usize;
                    assert(i < count);
                    assert(bucket@[m] as int == i);
                    assert(self.entries@[bucket@[m] as int].word@ != word@);
                }
            }
        }
        None
    }

    /// Stores `word -> vector`, replacing an earlier vector for the same word in
    /// place; a new word goes to the end.
    pub fn insert(&mut self, word: Vec<u8>, vector: Vec<u32>)
        requires
            old(self).wf(),
        ensures
            final(self).wf(),
            unique_words(final(self).entries_view()),
            table_of(final(self).entries_view()) == table_of(old(self).entries_view()).insert(word@, vector@),
            final(self).entries_view().len() <= old(self).entries_view().len() + 1,
    {
        let ghost w = word@;
        let ghost v = vector@;
        match self.find(word.as_slice()) {
            Some(i) => {
                let e = Entry { word, vector };
                proof {
                    lemma_table_update(self.entries@, i as int, e);
                }
                self.entries.set(i, e);
                assert(self.entries@ == old(self).entries@.update(i as int, e));
                assert(forall|j: int| 0 <= j < self.entries@.len() ==> #[trigger] self.entries@[j].word@ == old(self).entries@[j].word@);
            },
            None => {
                let b = self.bucket(word.as_slice());
                let n = self.entries.len();
                self.entries.push(Entry { word, vector });
                assert(self.entries@.drop_last() =~= old(self).entries@);
                let ghost old_buckets = self.buckets@;
                let mut bk = Vec::new();
                self.buckets.set_and_swap(b, &mut bk);
                bk.push(n);
                self.buckets.set_and_swap(b, &mut bk);
                proof {
                    assert(self.buckets@.len() == old_buckets.len());
                    assert forall|c: int| 0 <= c < self.buckets@.len() && c != b implies #[trigger] self.buckets@[c] == old_buckets[c] by {}
                    assert(self.buckets@[b as int]@ == old_buckets[b as int]@.push(n));
                    let es = self.entries@;
                    let bs = self.buckets@;
                    assert forall|c: int, k: int|
                        0 <= c < bs.len() && 0 <= k < bs[c]@.len() implies #[trigger] bs[c]@[k] < es.len()
                            && bucket_of(es[bs[c]@[k] as int].word@, bs.len() as nat) == c by {
                        if c == b && k == bs[c]@.len() - 1 {
                        } else {
                            assert(bs[c]@[k] == old_buckets[c]@[k]);
                        }
                    }
                    assert forall|i: int| 0 <= i < es.len() implies #[trigger] bs[bucket_of(es[i].word@, bs.len() as nat)]@.contains(i as usize) by {
                        let c = bucket_of(es[i].word@, bs.len() as nat);
                        if i < n {
                            assert(old_buckets[c]@.contains(i as usize));
                            let k = choose|k: int| 0 <= k < old_buckets[c]@.len() && old_buckets[c]@[k] == i as usize;
                            assert(bs[c]@[k] == i as usize);
                        } else {
                            assert(bs[b as int]@[old_buckets[b as int]@.len() as int] == n);
                        }
                    }
                }
            },
        }
    }
}

} // verus!
