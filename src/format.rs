use vstd::prelude::*;
use crate::records::{DecodeState, decode, decode_from, decode_step, initial_state, le_u32};

verus! {

/// The four little-endian bytes of `x`.
pub open spec fn le_bytes(x: u32) -> Seq<u8> {
    let q1 = x / 0x100;
    let q2 = q1 / 0x100;
    seq![(x % 0x100) as u8, (q1 % 0x100) as u8, (q2 % 0x100) as u8, (q2 / 0x100) as u8]
}

/// The bytes of a vector: each component's four little-endian bytes, in order.
pub open spec fn encode_values(v: Seq<u32>) -> Seq<u8>
    decreases v.len(),
{
    if v.len() == 0 {
        Seq::empty()
    } else {
        encode_values(v.drop_last()) + le_bytes(v.last())
    }
}

/// One record: the word, a space, then the vector's bytes.
pub open spec fn encode_record(w: Seq<u8>, v: Seq<u32>) -> Seq<u8> {
    w.push(0x20u8) + encode_values(v)
}

/// A record stream: the records one after another, with nothing between them.
pub open spec fn encode_records(rs: Seq<(Seq<u8>, Seq<u32>)>) -> Seq<u8>
    decreases rs.len(),
{
    if rs.len() == 0 {
        Seq::empty()
    } else {
        encode_records(rs.drop_last()) + encode_record(rs.last().0, rs.last().1)
    }
}

/// The table that a list of records stands for; a later record for a word wins.
pub open spec fn records_table(rs: Seq<(Seq<u8>, Seq<u32>)>) -> Map<Seq<u8>, Seq<u32>>
    decreases rs.len(),
{
    if rs.len() == 0 {
        Map::empty()
    } else {
        records_table(rs.drop_last()).insert(rs.last().0, rs.last().1)
    }
}

/// A word the format can carry: it holds neither a space nor a newline.
pub open spec fn plain_word(w: Seq<u8>) -> bool {
    forall|i: int| 0 <= i < w.len() ==> #[trigger] w[i] != 0x20u8 && w[i] != 0x0Au8
}

/// Between records: no word, vector or component in progress.
pub open spec fn at_boundary(st: DecodeState) -> bool {
    &&& !st.in_vector
    &&& st.word.len() == 0
    &&& st.values.len() == 0
    &&& st.pending.len() == 0
}

proof fn lemma_le_round_trip(x: u32)
    ensures
        le_u32(le_bytes(x)) == x,
{
    let q1 = x / 0x100;
    let q2 = q1 / 0x100;
    assert(x == q1 * 0x100 + x % 0x100);
    assert(q1 == q2 * 0x100 + q1 % 0x100);
    assert(q2 == (q2 / 0x100) * 0x100 + q2 % 0x100);
    assert(q2 / 0x100 < 0x100);
}

/// Running over `a + b` is running over `a`, then over `b`.
proof fn lemma_decode_concat(st: DecodeState, a: Seq<u8>, b: Seq<u8>, limit: nat, dim: nat)
    ensures
        decode_from(st, a + b, limit, dim) == decode_from(decode_from(st, a, limit, dim), b, limit, dim),
    decreases b.len(),
{
    if b.len() == 0 {
        assert(a + b =~= a);
    } else {
        assert((a + b).drop_last() =~= a + b.drop_last());
        assert((a + b).last() == b.last());
        lemma_decode_concat(st, a, b.drop_last(), limit, dim);
    }
}

proof fn lemma_decode_word(st: DecodeState, w: Seq<u8>, limit: nat, dim: nat)
    requires
        !st.in_vector,
        st.records < limit,
        plain_word(w),
    ensures
        decode_from(st, w, limit, dim) == (DecodeState { word: st.word + w, ..st }),
    decreases w.len(),
{
    if w.len() == 0 {
        assert(st.word + w =~= st.word);
    } else {
        assert(plain_word(w.drop_last()));
        lemma_decode_word(st, w.drop_last(), limit, dim);
        assert(w[w.len() - 1] != 0x20u8 && w[w.len() - 1] != 0x0Au8);
        assert((st.word + w.drop_last()).push(w.last()) =~= st.word + w);
    }
}

proof fn lemma_decode_value(st: DecodeState, x: u32, limit: nat, dim: nat)
    requires
        st.in_vector,
        st.pending.len() == 0,
        st.records < limit,
    ensures
        st.values.len() + 1 < dim ==> decode_from(st, le_bytes(x), limit, dim) == (DecodeState {
            values: st.values.push(x),
            ..st
        }),
        st.values.len() + 1 == dim ==> decode_from(st, le_bytes(x), limit, dim) == (DecodeState {
            in_vector: false,
            word: Seq::empty(),
            values: Seq::empty(),
            pending: Seq::empty(),
            records: st.records + 1,
            table: st.table.insert(st.word, st.values.push(x)),
        }),
{
    let b = le_bytes(x);
    lemma_le_round_trip(x);
    assert(b.drop_last().drop_last().drop_last().drop_last() =~= Seq::<u8>::empty());
    assert(b.drop_last().drop_last().drop_last() =~= seq![b[0]]);
    assert(b.drop_last().drop_last() =~= seq![b[0], b[1]]);
    assert(b.drop_last() =~= seq![b[0], b[1], b[2]]);
    assert(seq![b[0]].drop_last() =~= Seq::<u8>::empty());
    assert(st.pending.push(b[0]) =~= seq![b[0]]);
    let e = Seq::<u8>::empty();
    assert(decode_from(st, e, limit, dim) == st);
    assert(seq![b[0]].last() == b[0]);
    assert(decode_from(st, seq![b[0]], limit, dim) == decode_step(st, b[0], dim));
    let s1 = decode_from(st, seq![b[0]], limit, dim);
    assert(s1.pending =~= seq![b[0]]);
    assert(seq![b[0], b[1]].drop_last() =~= seq![b[0]]);
    assert(seq![b[0], b[1]].last() == b[1]);
    assert(decode_from(st, seq![b[0], b[1]], limit, dim) == decode_step(s1, b[1], dim));
    let s2 = decode_from(st, seq![b[0], b[1]], limit, dim);
    assert(s2.pending =~= seq![b[0], b[1]]);
    assert(seq![b[0], b[1], b[2]].drop_last() =~= seq![b[0], b[1]]);
    assert(seq![b[0], b[1], b[2]].last() == b[2]);
    assert(decode_from(st, seq![b[0], b[1], b[2]], limit, dim) == decode_step(s2, b[2], dim));
    let s3 = decode_from(st, seq![b[0], b[1], b[2]], limit, dim);
    assert(s3.pending =~= seq![b[0], b[1], b[2]]);
    assert(s3.pending.push(b[3]) =~= b);
    assert(b.last() == b[3]);
    assert(st.pending =~= Seq::<u8>::empty());
    assert(le_u32(b) as u32 == x);
    assert(decode_from(st, b, limit, dim) == decode_step(s3, b[3], dim));
}

proof fn lemma_decode_values(st: DecodeState, v: Seq<u32>, limit: nat, dim: nat)
    requires
        st.in_vector,
        st.pending.len() == 0,
        st.records < limit,
        st.values.len() + v.len() < dim,
    ensures
        decode_from(st, encode_values(v), limit, dim) == (DecodeState { values: st.values + v, ..st }),
    decreases v.len(),
{
    if v.len() == 0 {
        assert(st.values + v =~= st.values);
    } else {
        lemma_decode_values(st, v.drop_last(), limit, dim);
        lemma_decode_concat(st, encode_values(v.drop_last()), le_bytes(v.last()), limit, dim);
        let mid = DecodeState { values: st.values + v.drop_last(), ..st };
        lemma_decode_value(mid, v.last(), limit, dim);
        assert((st.values + v.drop_last()).push(v.last()) =~= st.values + v);
    }
}

proof fn lemma_decode_record(st: DecodeState, w: Seq<u8>, v: Seq<u32>, limit: nat, dim: nat)
    requires
        at_boundary(st),
        st.records < limit,
        plain_word(w),
        v.len() == dim,
        dim > 0,
    ensures
        decode_from(st, encode_record(w, v), limit, dim) == (DecodeState {
            records: st.records + 1,
            table: st.table.insert(w, v),
            ..st
        }),
{
    lemma_decode_word(st, w, limit, dim);
    assert(st.word + w =~= w);
    assert(w.push(0x20u8).drop_last() =~= w);
    let s1 = DecodeState { word: w, in_vector: true, ..st };
    assert(decode_from(st, w.push(0x20u8), limit, dim) == s1);
    lemma_decode_concat(st, w.push(0x20u8), encode_values(v), limit, dim);
    assert(encode_values(v) == encode_values(v.drop_last()) + le_bytes(v.last()));
    lemma_decode_concat(s1, encode_values(v.drop_last()), le_bytes(v.last()), limit, dim);
    lemma_decode_values(s1, v.drop_last(), limit, dim);
    let s2 = DecodeState { values: s1.values + v.drop_last(), ..s1 };
    assert(s1.values + v.drop_last() =~= v.drop_last());
    lemma_decode_value(s2, v.last(), limit, dim);
    assert(v.drop_last().push(v.last()) =~= v);
    assert(st.word =~= Seq::<u8>::empty());
    assert(st.values =~= Seq::<u32>::empty());
    assert(st.pending =~= Seq::<u8>::empty());
}

/// Decoding the encoding of a list of records gives back exactly the table that
/// those records stand for, provided no word holds a space or a newline, every
/// vector has the dimensionality, and there are no more records than announced.
pub proof fn lemma_records_round_trip(rs: Seq<(Seq<u8>, Seq<u32>)>, limit: nat, dim: nat)
    requires
        dim > 0,
        rs.len() <= limit,
        forall|i: int| 0 <= i < rs.len() ==> plain_word(#[trigger] rs[i].0) && rs[i].1.len() == dim,
    ensures
        decode(encode_records(rs), limit, dim).table == records_table(rs),
        decode(encode_records(rs), limit, dim).records == rs.len(),
        at_boundary(decode(encode_records(rs), limit, dim)),
    decreases rs.len(),
{
    if rs.len() > 0 {
        let prefix = rs.drop_last();
        assert forall|i: int| 0 <= i < prefix.len() implies plain_word(#[trigger] prefix[i].0) && prefix[i].1.len() == dim by {
            assert(prefix[i] == rs[i]);
        }
        assert(forall|i: int| 0 <= i < prefix.len() ==> plain_word(#[trigger] prefix[i].0) && prefix[i].1.len() == dim);
        lemma_records_round_trip(prefix, limit, dim);
        lemma_decode_concat(initial_state(), encode_records(prefix), encode_record(rs.last().0, rs.last().1), limit, dim);
        assert(plain_word(rs[rs.len() - 1].0));
        lemma_decode_record(decode(encode_records(prefix), limit, dim), rs.last().0, rs.last().1, limit, dim);
    }
}

} // verus!
