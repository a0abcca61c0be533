use vstd::prelude::*;

verus! {

/// The 32-bit value whose little-endian encoding is `b[0..4]`.
pub open spec fn le_u32(b: Seq<u8>) -> int {
    b[0] as int + b[1] as int * 0x100 + b[2] as int * 0x1_0000 + b[3] as int * 0x100_0000
}

/// Where the record decoder stands after some prefix of the record stream.
pub struct DecodeState {
    /// True while the bytes of a vector are being read.
    pub in_vector: bool,
    /// The word of the record in progress.
    pub word: Seq<u8>,
    /// The components of the record in progress, each the bit pattern of an `f32`.
    pub values: Seq<u32>,
    /// The bytes read so far of the component in progress.
    pub pending: Seq<u8>,
    /// How many complete records have been stored.
    pub records: nat,
    /// The table built so far; a later record for a word replaces an earlier one.
    pub table: Map<Seq<u8>, Seq<u32>>,
}

pub open spec fn initial_state() -> DecodeState {
    DecodeState {
        in_vector: false,
        word: Seq::empty(),
        values: Seq::empty(),
        pending: Seq::empty(),
        records: 0,
        table: Map::empty(),
    }
}

/// One byte of the record stream. In word mode a space ends the word and a newline
/// is skipped; in vector mode every fourth byte completes a component, and the
/// `dim`-th component completes the record.
pub open spec fn decode_step(st: DecodeState, b: u8, dim: nat) -> DecodeState {
    if !st.in_vector {
        if b == 0x20u8 {
            DecodeState { in_vector: true, ..st }
        } else if b == 0x0Au8 {
            st
        } else {
            DecodeState { word: st.word.push(b), ..st }
        }
    } else {
        let pending = st.pending.push(b);
        if pending.len() < 4 {
            DecodeState { pending, ..st }
        } else {
            let values = st.values.push(le_u32(pending) as u32);
            if values.len() < dim {
                DecodeState { values, pending: Seq::empty(), ..st }
            } else {
                DecodeState {
                    in_vector: false,
                    word: Seq::empty(),
                    values: Seq::empty(),
                    pending: Seq::empty(),
                    records: st.records + 1,
                    table: st.table.insert(st.word, values),
                }
            }
        }
    }
}

/// The decoder run from `st` over `s`; it stops taking bytes once `limit` records
/// are stored.
pub open spec fn decode_from(st: DecodeState, s: Seq<u8>, limit: nat, dim: nat) -> DecodeState
    decreases s.len(),
{
    if s.len() == 0 {
        st
    } else {
        let prev = decode_from(st, s.drop_last(), limit, dim);
        if prev.records >= limit {
            prev
        } else {
            decode_step(prev, s.last(), dim)
        }
    }
}

/// The decoder run over the whole record stream `s`. A record cut short by the end
/// of `s` is left out of the table.
pub open spec fn decode(s: Seq<u8>, limit: nat, dim: nat) -> DecodeState {
    decode_from(initial_state(), s, limit, dim)
}

/// What holds of the decoder at every point.
pub open spec fn decode_inv(st: DecodeState, limit: nat, dim: nat) -> bool {
    &&& st.table.dom().finite()
    &&& st.table.dom().len() <= st.records <= limit
    &&& st.values.len() < dim
    &&& st.pending.len() < 4
    &&& forall|w: Seq<u8>| #[trigger] st.table.contains_key(w) ==> st.table[w].len() == dim
}

pub proof fn lemma_decode_inv(s: Seq<u8>, limit: nat, dim: nat)
    requires
        dim > 0,
    ensures
        decode_inv(decode(s, limit, dim), limit, dim),
{
    assert(initial_state().table.dom() =~= Set::empty());
    lemma_decode_from_inv(initial_state(), s, limit, dim);
}

proof fn lemma_decode_from_inv(st: DecodeState, s: Seq<u8>, limit: nat, dim: nat)
    requires
        dim > 0,
        decode_inv(st, limit, dim),
    ensures
        decode_inv(decode_from(st, s, limit, dim), limit, dim),
    decreases s.len(),
{
    if s.len() > 0 {
        lemma_decode_from_inv(st, s.drop_last(), limit, dim);
        let prev = decode_from(st, s.drop_last(), limit, dim);
        if prev.records < limit {
            let next = decode_step(prev, s.last(), dim);
            if next.records > prev.records {
                assert(next.table.dom() =~= prev.table.dom().insert(prev.word));
            }
        }
    }
}

} // verus!
