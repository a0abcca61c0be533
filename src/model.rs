use vstd::prelude::*;
use vstd::string::StringSliceAdditionalSpecFns;
use crate::header::{body_start, first_line_end, parse_header, read_header, find_line_end};
use crate::format::{encode_records, lemma_records_round_trip, plain_word, records_table};
use crate::ranking::{is_ranking, rank_scores};
use crate::records::{decode, le_u32, lemma_decode_inv};
use crate::table::{Entry, Table, lemma_table_dom, lemma_table_get, lemma_table_len, table_of, unique_words};
use byteorder::{ByteOrder, LittleEndian};

verus! {

/// What can go wrong when loading a model or exchanging messages with its worker.
#[derive(Debug, PartialEq, Eq, Structural)]
pub enum W2VError {
    /// Nothing exists at the given path.
    NoFileAtPath,
    /// Something exists at the path but could not be opened or read.
    CouldNotOpenFile,
    /// The first line is not two whitespace-separated positive integers.
    MalformedHeader,
    /// The worker's side of the channel is gone.
    ChannelDisconnected,
    /// A message could not be handed to the channel.
    ChannelSendFailure,
}

/// The table built from a whole model file, when its header is well formed.
pub open spec fn model_table(data: Seq<u8>) -> Map<Seq<u8>, Seq<u32>> {
    let (n, d) = parse_header(data.subrange(0, first_line_end(data))).unwrap();
    decode(data.subrange(body_start(data), data.len() as int), n, d).table
}

/// The immutable word-to-vector table of a loaded model.
pub struct Model {
    total_words: usize,
    size: usize,
    table: Table,
}

/// Relies on byteorder's `LittleEndian::read_u32`: the first four bytes of `buf`,
/// least significant first.
#[verifier::external_body]
fn read_le_u32(buf: &[u8]) -> (r: u32)
    requires
        buf@.len() >= 4,
    ensures
        r as int == le_u32(buf@),
{
    LittleEndian::read_u32(buf)
}

impl Model {
    /// The table this model holds: each word's vector, as `f32` bit patterns.
    pub closed spec fn table(&self) -> Map<Seq<u8>, Seq<u32>> {
        table_of(self.table.entries_view())
    }

    pub closed spec fn spec_total_words(&self) -> nat {
        self.total_words as nat
    }

    pub closed spec fn spec_size(&self) -> nat {
        self.size as nat
    }

    /// The table holds at most the announced number of words, each with a vector of
    /// exactly the announced dimensionality.
    pub closed spec fn wf(&self) -> bool {
        &&& self.table.wf()
        &&& unique_words(self.table.entries_view())
        &&& self.size > 0
        &&& self.table.entries_view().len() <= self.total_words
        &&& forall|i: int| 0 <= i < self.table.entries_view().len() ==> (#[trigger] self.table.entries_view()[i]).vector@.len() == self.size
    }

    /// Builds the table from the bytes of a model file: an ASCII header line
    /// `"<words> <dimensionality>"`, then records of a word, one space, and
    /// `dimensionality` little-endian `f32` values. Newlines before a word are
    /// skipped. Decoding stops after the announced number of records or at the end
    /// of the input; a record cut short there is dropped without error.
    pub fn new(data: &[u8]) -> (r: Result<Model, W2VError>)
        ensures
            parse_header(data@.subrange(0, first_line_end(data@))) is None ==> r == Err::<Model, W2VError>(W2VError::MalformedHeader),
            parse_header(data@.subrange(0, first_line_end(data@))) matches Some((n, d)) ==> {
                &&& r is Ok
                &&& r->Ok_0.wf()
                &&& r->Ok_0.spec_total_words() == n
                &&& r->Ok_0.spec_size() == d
                &&& r->Ok_0.table() == model_table(data@)
            },
    {
        let end = find_line_end(data);
        let mut line: Vec<u8> = Vec::new();
        let mut k: usize = 0;
        while k < end
            invariant
                end as int == first_line_end(data@),
                end <= data@.len(),
                k <= end,
                line@ =~= data@.subrange(0, k as int),
            decreases end - k,
        {
            line.push(data[k]);
            k = k + 1;
        }
        let (total, dim) = match read_header(line.as_slice()) {
            Some(h) => h,
            None => return Err(W2VError::MalformedHeader),
        };
        let start: usize = if end < data.len() { end + 1 } else { end };
        let ghost body = data@.subrange(start as int, data@.len() as int);
        let mut in_vector = false;
        let mut word: Vec<u8> = Vec::new();
        let mut values: Vec<u32> = Vec::new();
        let mut pending: Vec<u8> = Vec::new();
        let mut records: usize = 0;
        let nb: usize = if total <= data.len() / 4 { total } else { data.len() / 4 + 1 };
        let mut table = Table::with_buckets(nb);
        let mut i: usize = start;
        proof {
            assert(body.subrange(0, 0) =~= Seq::<u8>::empty());
        }
        while i < data.len()
            invariant
                start <= i <= data@.len(),
                start as int == body_start(data@),
                body == data@.subrange(start as int, data@.len() as int),
                dim > 0,
                ({
                    let st = decode(body.subrange(0, i - start), total as nat, dim as nat);
                    &&& in_vector == st.in_vector
                    &&& word@ == st.word
                    &&& values@ == st.values
                    &&& pending@ == st.pending
                    &&& records as nat == st.records
                    &&& table_of(table.entries_view()) == st.table
                    &&& table.entries_view().len() <= records
                }),
                table.wf(),
                unique_words(table.entries_view()),
                forall|j: int| 0 <= j < table.entries_view().len() ==> (#[trigger] table.entries_view()[j]).vector@.len() == dim,
            decreases data.len() - i,
        {
            let ghost pre = body.subrange(0, i - start);
            let ghost cur = body.subrange(0, i - start + 1);
            proof {
                assert(cur.drop_last() =~= pre);
                assert(cur.last() == data@[i as int]);
                lemma_decode_inv(pre, total as nat, dim as nat);
            }
            let b = data[i];
            if records < total {
                if !in_vector {
                    if b == 0x20u8 {
                        in_vector = true;
                    } else if b != 0x0Au8 {
                        word.push(b);
                    }
                } else {
                    pending.push(b);
                    if pending.len() == 4 {
                        let v = read_le_u32(pending.as_slice());
                        values.push(v);
                        pending = Vec::new();
                        if values.len() == dim {
                            proof {
                                lemma_table_dom(table.entries_view(), word@);
                            }
                            let ghost old_entries = table.entries_view();
                            let ghost wv = word@;
                            let ghost vv = values@;
                            table.insert(word, values);
                            proof {
                                assert forall|j: int| 0 <= j < table.entries_view().len() implies (#[trigger] table.entries_view()[j]).vector@.len() == dim by {
                                    lemma_table_get(table.entries_view(), j);
                                    if table.entries_view()[j].word@ != wv {
                                        lemma_table_dom(old_entries, table.entries_view()[j].word@);
                                        let m = choose|m: int| 0 <= m < old_entries.len() && old_entries[m].word@ == table.entries_view()[j].word@;
                                        lemma_table_get(old_entries, m);
                                    }
                                }
                            }
                            word = Vec::new();
                            values = Vec::new();
                            records = records + 1;
                            in_vector = false;
                        }
                    }
                }
            }
            i = i + 1;
        }
        proof {
            assert(body.subrange(0, data@.len() - start) =~= body);
            lemma_decode_inv(body, total as nat, dim as nat);
        }
        Ok(Model { total_words: total, size: dim, table })
    }

    /// The word count announced by the header.
    pub fn total_words(&self) -> (r: usize)
        ensures
            r == self.spec_total_words(),
    {
        self.total_words
    }

    /// The dimensionality announced by the header.
    pub fn size(&self) -> (r: usize)
        ensures
            r == self.spec_size(),
    {
        self.size
    }

    /// How many distinct words the table holds.
    pub fn len(&self) -> (r: usize)
        requires
            self.wf(),
        ensures
            r == self.table().dom().len(),
    {
        proof {
            lemma_table_len(self.table.entries_view());
        }
        self.table.len()
    }

    /// Exact-match lookup of `word`, by its bytes: the stored vector, or `None`.
    pub fn word2vec(&self, word: &str) -> (r: Option<Vec<u32>>)
        requires
            self.wf(),
        ensures
            match r {
                Some(v) => self.table().contains_key(word.spec_bytes()) && v@ == self.table()[word.spec_bytes()],
                None => !self.table().contains_key(word.spec_bytes()),
            },
    {
        self.lookup_bytes(word.as_bytes())
    }

    /// Exact-match lookup of a word given as raw bytes.
    pub fn lookup_bytes(&self, word: &[u8]) -> (r: Option<Vec<u32>>)
        requires
            self.wf(),
        ensures
            match r {
                Some(v) => self.table().contains_key(word@) && v@ == self.table()[word@],
                None => !self.table().contains_key(word@),
            },
    {
        proof {
            lemma_table_dom(self.table.entries_view(), word@);
        }
        match self.table.find(word) {
            Some(i) => {
                proof {
                    lemma_table_get(self.table.entries_view(), i as int);
                }
                let v = self.table.get(i).vector.clone();
                assert(v@ =~= self.table.entries_view()[i as int].vector@);
                Some(v)
            },
            None => None,
        }
    }

    /// The words of the table in storage order (see `lemma_word_list`).
    pub fn words(&self) -> (r: Vec<Vec<u8>>)
        requires
            self.wf(),
        ensures
            r@.len() == self.word_list().len(),
            forall|i: int| 0 <= i < r@.len() ==> (#[trigger] r@[i])@ == self.word_list()[i],
    {
        let mut out: Vec<Vec<u8>> = Vec::new();
        let mut i: usize = 0;
        while i < self.table.len()
            invariant
                i <= self.table.entries_view().len(),
                out@.len() == i,
                forall|k: int| 0 <= k < i ==> (#[trigger] out@[k])@ == self.table.entries_view()[k].word@,
            decreases self.table.entries_view().len() - i,
        {
            let w = self.table.get(i).word.clone();
            assert(w@ =~= self.table.entries_view()[i as int].word@);
            out.push(w);
            i = i + 1;
        }
        out
    }

    /// The words of the table in storage order.
    pub closed spec fn word_list(&self) -> Seq<Seq<u8>> {
        self.table.entries_view().map_values(|e: Entry| e.word@)
    }

    /// The words in storage order are the table's words, each once.
    pub proof fn lemma_word_list(&self)
        requires
            self.wf(),
        ensures
            self.word_list().len() == self.table().dom().len(),
            self.word_list().no_duplicates(),
            forall|i: int| 0 <= i < self.word_list().len() ==> self.table().contains_key(#[trigger] self.word_list()[i]),
            forall|w: Seq<u8>| #[trigger] self.table().contains_key(w) ==> self.word_list().contains(w),
    {
        lemma_table_len(self.table.entries_view());
        assert forall|i: int| 0 <= i < self.word_list().len() implies self.table().contains_key(#[trigger] self.word_list()[i]) by {
            lemma_table_get(self.table.entries_view(), i);
        }
        assert forall|w: Seq<u8>| #[trigger] self.table().contains_key(w) implies self.word_list().contains(w) by {
            lemma_table_dom(self.table.entries_view(), w);
            let k = choose|k: int| 0 <= k < self.table.entries_view().len() && self.table.entries_view()[k].word@ == w;
            assert(self.word_list()[k] == w);
        }
    }

    /// The `i`-th stored word and its vector.
    pub fn entry(&self, i: usize) -> (r: (&Vec<u8>, &Vec<u32>))
        requires
            self.wf(),
            i < self.word_list().len(),
        ensures
            r.0@ == self.word_list()[i as int],
            self.table().contains_key(r.0@),
            self.table()[r.0@] == r.1@,
    {
        proof {
            lemma_table_get(self.table.entries_view(), i as int);
        }
        let e = self.table.get(i);
        (&e.word, &e.vector)
    }

    /// Ranks the stored words by the scores given for them: `scores[i]` is the score
    /// (an `f32` bit pattern) of the `i`-th word of `word_list`. Best score first;
    /// equal scores keep storage order; NaN scores come last.
    pub fn rank_words(&self, scores: &Vec<u32>) -> (r: SortedCosines)
        requires
            self.wf(),
            scores@.len() == self.word_list().len(),
        ensures
            r.wf(),
            r.spec_words().len() == scores@.len(),
            r.spec_scores().len() == scores@.len(),
            exists|order: Seq<usize>| {
                &&& is_ranking(scores@, order)
                &&& forall|k: int| 0 <= k < order.len() ==> #[trigger] r.spec_words()[k] == self.word_list()[order[k] as int]
                    && r.spec_scores()[k] == scores@[order[k] as int]
            },
    {
        let order = rank_scores(scores);
        let mut words: Vec<Vec<u8>> = Vec::new();
        let mut ranked: Vec<u32> = Vec::new();
        let mut k: usize = 0;
        while k < order.len()
            invariant
                self.wf(),
                is_ranking(scores@, order@),
                scores@.len() == self.word_list().len(),
                k <= order@.len(),
                words@.len() == k,
                ranked@.len() == k,
                forall|m: int| 0 <= m < k ==> (#[trigger] words@[m])@ == self.word_list()[order@[m] as int]
                    && ranked@[m] == scores@[order@[m] as int],
            decreases order.len() - k,
        {
            let idx = order[k];
            let w = self.table.get(idx).word.clone();
            assert(w@ =~= self.table.entries_view()[idx as int].word@);
            words.push(w);
            ranked.push(scores[idx]);
            k = k + 1;
        }
        let r = SortedCosines { words, scores: ranked };
        assert(forall|m: int| 0 <= m < order@.len() ==> #[trigger] r.spec_words()[m] == self.word_list()[order@[m] as int]
            && r.spec_scores()[m] == scores@[order@[m] as int]);
        r
    }

    /// The vectors of two words, or `None` unless both are present.
    pub fn vector_pair(&self, a: &str, b: &str) -> (r: Option<(Vec<u32>, Vec<u32>)>)
        requires
            self.wf(),
        ensures
            match r {
                Some((va, vb)) => self.table().contains_key(a.spec_bytes()) && self.table().contains_key(b.spec_bytes())
                    && va@ == self.table()[a.spec_bytes()] && vb@ == self.table()[b.spec_bytes()],
                None => !self.table().contains_key(a.spec_bytes()) || !self.table().contains_key(b.spec_bytes()),
            },
    {
        match self.word2vec(a) {
            Some(va) => match self.word2vec(b) {
                Some(vb) => Some((va, vb)),
                None => None,
            },
            None => None,
        }
    }
}

/// Words with their scores, best first.
pub struct SortedCosines {
    words: Vec<Vec<u8>>,
    scores: Vec<u32>,
}

impl SortedCosines {
    pub closed spec fn spec_words(&self) -> Seq<Seq<u8>> {
        self.words@.map_values(|w: Vec<u8>| w@)
    }

    /// The scores, as `f32` bit patterns, in the same order as `spec_words`.
    pub closed spec fn spec_scores(&self) -> Seq<u32> {
        self.scores@
    }

    /// There is one score for each word.
    pub closed spec fn wf(&self) -> bool {
        self.words@.len() == self.scores@.len()
    }

    pub fn len(&self) -> (r: usize)
        requires
            self.wf(),
        ensures
            r == self.spec_words().len(),
            r == self.spec_scores().len(),
    {
        self.words.len()
    }

    /// The `n`-th best word (counting from zero) with its score.
    pub fn get_nth_top(&self, n: usize) -> (r: (Vec<u8>, u32))
        requires
            self.wf(),
            n < self.spec_words().len(),
        ensures
            r.0@ == self.spec_words()[n as int],
            r.1 == self.spec_scores()[n as int],
    {
        let w = self.words[n].clone();
        assert(w@ =~= self.words@[n as int]@);
        (w, self.scores[n])
    }
}

/// Every table built from a file with a well-formed header `"<n> <d>"` holds at most
/// `n` words, and every vector in it has exactly `d` components.
pub proof fn lemma_model_table_bounded(data: Seq<u8>)
    requires
        parse_header(data.subrange(0, first_line_end(data))) is Some,
    ensures
        ({
            let (n, d) = parse_header(data.subrange(0, first_line_end(data))).unwrap();
            &&& model_table(data).dom().finite()
            &&& model_table(data).dom().len() <= n
            &&& forall|w: Seq<u8>| #[trigger] model_table(data).contains_key(w) ==> model_table(data)[w].len() == d
        }),
{
    let (n, d) = parse_header(data.subrange(0, first_line_end(data))).unwrap();
    lemma_decode_inv(data.subrange(body_start(data), data.len() as int), n, d);
}

/// A file made of a well-formed header line `"<n> <d>"`, a newline, and at most `n`
/// records whose words hold no space or newline and whose vectors have `d`
/// components, builds exactly the table of those records: each word maps to the
/// vector its bytes encode, the last record for a word winning.
pub proof fn lemma_file_round_trip(header: Seq<u8>, rs: Seq<(Seq<u8>, Seq<u32>)>)
    requires
        forall|i: int| 0 <= i < header.len() ==> #[trigger] header[i] != 0x0Au8,
        parse_header(header) is Some,
        rs.len() <= parse_header(header).unwrap().0,
        forall|i: int| 0 <= i < rs.len() ==> plain_word(#[trigger] rs[i].0) && rs[i].1.len() == parse_header(header).unwrap().1,
    ensures
        model_table(header.push(0x0Au8) + encode_records(rs)) == records_table(rs),
{
    let data = header.push(0x0Au8) + encode_records(rs);
    let h = header.len() as int;
    assert(data[h] == 0x0Au8);
    let c = choose|c: int| 0 <= c < data.len() && data[c] == 0x0Au8 && forall|j: int| 0 <= j < c ==> data[j] != 0x0Au8;
    assert(forall|j: int| 0 <= j < h ==> data[j] == header[j]);
    assert(c == h) by {
        if c < h {
            assert(data[c] == header[c]);
        } else if c > h {
            assert(data[h] != 0x0Au8);
        }
    }
    assert(first_line_end(data) == h);
    assert(data.subrange(0, h) =~= header);
    assert(data.subrange(h + 1, data.len() as int) =~= encode_records(rs));
    let (n, d) = parse_header(header).unwrap();
    lemma_records_round_trip(rs, n, d);
}

} // verus!
