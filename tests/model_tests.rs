use w2v_server::header::read_header;
use w2v_server::model::{Model, W2VError};
use w2v_server::ranking::{rank_of, rank_scores};

fn fixture(header: &str, records: &[(&str, &[f32])]) -> Vec<u8> {
    let mut data: Vec<u8> = header.as_bytes().to_vec();
    for (word, values) in records {
        data.extend_from_slice(word.as_bytes());
        data.push(b' ');
        for v in values.iter() {
            data.extend_from_slice(&v.to_le_bytes());
        }
        data.push(b'\n');
    }
    data
}

fn floats(bits: &[u32]) -> Vec<f32> {
    bits.iter().map(|b| f32::from_bits(*b)).collect()
}

fn cosine(a: &[f32], b: &[f32]) -> f32 {
    let mut dot: f32 = 0.0;
    let mut na: f32 = 0.0;
    let mut nb: f32 = 0.0;
    for (x, y) in a.iter().zip(b.iter()) {
        dot += x * y;
        na += x * x;
        nb += y * y;
    }
    dot / (na.sqrt() * nb.sqrt())
}

fn scores_for(model: &Model, query: &[f32]) -> Vec<u32> {
    let mut scores = Vec::new();
    for i in 0..model.len() {
        let (_, v) = model.entry(i);
        scores.push(cosine(query, &floats(v)).to_bits());
    }
    scores
}

#[test]
fn fixture_round_trip() {
    let data = fixture("2 2\n", &[("cat", &[1.0, 2.0]), ("dog", &[3.0, 4.0])]);
    let model = Model::new(&data).unwrap();
    assert_eq!(model.total_words(), 2);
    assert_eq!(model.size(), 2);
    assert_eq!(model.len(), 2);
    assert_eq!(floats(&model.word2vec("cat").unwrap()), vec![1.0f32, 2.0]);
    assert_eq!(floats(&model.word2vec("dog").unwrap()), vec![3.0f32, 4.0]);
}

#[test]
fn lookup_is_bit_exact() {
    let odd = [f32::from_bits(0x3DCC_CCCD), f32::from_bits(0x8000_0001), -7.25];
    let data = fixture("1 3\n", &[("x", &odd)]);
    let model = Model::new(&data).unwrap();
    assert_eq!(model.word2vec("x").unwrap(), vec![0x3DCC_CCCDu32, 0x8000_0001, (-7.25f32).to_bits()]);
}

#[test]
fn absent_word_is_none() {
    let data = fixture("2 2\n", &[("cat", &[1.0, 2.0]), ("dog", &[3.0, 4.0])]);
    let model = Model::new(&data).unwrap();
    assert!(model.word2vec("cow").is_none());
    assert!(model.word2vec("").is_none());
    assert!(model.word2vec("ca").is_none());
}

#[test]
fn truncated_record_is_dropped() {
    let mut data = fixture("3 2\n", &[("cat", &[1.0, 2.0]), ("dog", &[3.0, 4.0])]);
    data.extend_from_slice(b"emu ");
    data.extend_from_slice(&5.0f32.to_le_bytes());
    data.extend_from_slice(&[0x00, 0x00]);
    let model = Model::new(&data).unwrap();
    assert_eq!(model.len(), 2);
    assert!(model.word2vec("emu").is_none());
    assert_eq!(floats(&model.word2vec("dog").unwrap()), vec![3.0f32, 4.0]);
}

#[test]
fn decoding_stops_after_announced_count() {
    let data = fixture("2 1\n", &[("a", &[1.0]), ("b", &[2.0]), ("c", &[3.0])]);
    let model = Model::new(&data).unwrap();
    assert_eq!(model.len(), 2);
    assert!(model.word2vec("c").is_none());
}

#[test]
fn later_record_replaces_earlier() {
    let data = fixture("2 1\n", &[("a", &[1.0]), ("a", &[2.0])]);
    let model = Model::new(&data).unwrap();
    assert_eq!(model.len(), 1);
    assert_eq!(floats(&model.word2vec("a").unwrap()), vec![2.0f32]);
}

#[test]
fn newlines_inside_word_mode_are_skipped() {
    let mut data = b"1 1\n\n\nab\nc ".to_vec();
    data.extend_from_slice(&1.5f32.to_le_bytes());
    let model = Model::new(&data).unwrap();
    assert_eq!(floats(&model.word2vec("abc").unwrap()), vec![1.5f32]);
}

#[test]
fn every_vector_has_the_dimensionality() {
    let data = fixture("4 3\n", &[("a", &[1.0, 2.0, 3.0]), ("b", &[4.0, 5.0, 6.0])]);
    let model = Model::new(&data).unwrap();
    assert!(model.len() <= model.total_words());
    for i in 0..model.len() {
        let (_, v) = model.entry(i);
        assert_eq!(v.len(), 3);
    }
}

#[test]
fn malformed_headers_are_rejected() {
    for header in ["", "\n", "3\n", "a b\n", "3 x\n", "0 2\n", "2 0\n", "-1 2\n", "3 2 1\n", "99999999999999999999999 2\n"] {
        let data = header.as_bytes().to_vec();
        assert!(matches!(Model::new(&data), Err(W2VError::MalformedHeader)), "{:?}", header);
    }
}

#[test]
fn header_grammar() {
    assert_eq!(read_header(b"3 2"), Some((3, 2)));
    assert_eq!(read_header(b"  71291 200 \r"), Some((71291, 200)));
    assert_eq!(read_header(b"3\t2"), Some((3, 2)));
    assert_eq!(read_header(b"32"), None);
    assert_eq!(read_header(b"3 2x"), None);
}

#[test]
fn header_without_body_gives_empty_table() {
    let model = Model::new(b"5 4").unwrap();
    assert_eq!(model.len(), 0);
    assert_eq!(model.total_words(), 5);
}

#[test]
fn rank_order_of_scores() {
    assert_eq!(rank_of(f32::NAN.to_bits()), 0);
    assert_eq!(rank_of(0.0f32.to_bits()), rank_of((-0.0f32).to_bits()));
    assert!(rank_of(1.0f32.to_bits()) > rank_of(0.5f32.to_bits()));
    assert!(rank_of((-0.5f32).to_bits()) > rank_of((-1.0f32).to_bits()));
    assert!(rank_of(f32::NEG_INFINITY.to_bits()) > rank_of(f32::NAN.to_bits()));
    assert_eq!(rank_of(0x7F80_0000), 0x7F80_0000 + 0x7FFF_FFFF);
    assert_eq!(rank_of(0xBF80_0000), 0xFFFF_FFFF - 0xBF80_0000);
}

#[test]
fn ranking_is_descending_with_index_ties() {
    let scores: Vec<u32> = [0.5f32, f32::NAN, 0.9, -1.0, 0.5, 0.9].iter().map(|s| s.to_bits()).collect();
    assert_eq!(rank_scores(&scores), vec![2, 5, 0, 4, 3, 1]);
    assert_eq!(rank_scores(&Vec::new()), Vec::<usize>::new());
}

#[test]
fn analogy_ranks_closest_to_origin_first() {
    let data = fixture("3 2\n", &[("king", &[1.0, 0.0]), ("man", &[1.0, 1.0]), ("queen", &[0.0, 1.0])]);
    let model = Model::new(&data).unwrap();
    let king = floats(&model.word2vec("king").unwrap());
    let man = floats(&model.word2vec("man").unwrap());
    let queen = floats(&model.word2vec("queen").unwrap());
    let query: Vec<f32> = (0..2).map(|i| king[i] - man[i] + queen[i]).collect();
    let ranked = model.rank_words(&scores_for(&model, &query));
    assert_eq!(ranked.len(), 3);
    let (top, _) = ranked.get_nth_top(0);
    assert_eq!(top, b"king".to_vec());
}

#[test]
fn vector_pair_needs_both_words() {
    let data = fixture("2 2\n", &[("cat", &[1.0, 2.0]), ("dog", &[3.0, 4.0])]);
    let model = Model::new(&data).unwrap();
    assert!(model.vector_pair("cat", "cow").is_none());
    assert!(model.vector_pair("cow", "dog").is_none());
    let (a, b) = model.vector_pair("cat", "dog").unwrap();
    assert_eq!(floats(&a), vec![1.0f32, 2.0]);
    assert_eq!(floats(&b), vec![3.0f32, 4.0]);
}

fn small_fixture() -> Vec<u8> {
    fixture(
        "7 3\n",
        &[
            ("the", &[0.1, 0.2, 0.3]),
            ("one", &[0.3, 0.1, 0.0]),
            ("in", &[0.0, 0.5, 0.5]),
            ("italy", &[0.9, 0.1, 0.2]),
            ("france", &[0.8, 0.2, 0.1]),
            ("paris", &[0.2, 0.9, 0.1]),
            ("rome", &[0.3, 0.8, 0.2]),
        ],
    )
}

#[test]
fn t02_init_model_small() {
    assert!(Model::new(&small_fixture()).is_ok());
}

#[test]
fn t03_do_lookups_small() {
    let model = Model::new(&small_fixture()).unwrap();
    let words = vec!["the", "one", "in"];
    let mut sum: f32 = 0.0;
    for word in words.iter() {
        let vector = floats(&model.word2vec(word).expect("word present"));
        let local: f32 = vector.iter().sum();
        sum += local / (vector.len() as f32);
    }
    sum /= words.len() as f32;
    assert!((sum - (0.6 / 3.0 + 0.4 / 3.0 + 1.0 / 3.0) / 3.0).abs() < 1e-6);
}

#[test]
fn t06_get_top5_cosine() {
    let model = Model::new(&small_fixture()).unwrap();
    for word in ["italy", "france", "paris", "rome"] {
        let query = floats(&model.word2vec(word).unwrap());
        let ranked = model.rank_words(&scores_for(&model, &query));
        let (top, score) = ranked.get_nth_top(0);
        assert_eq!(top, word.as_bytes().to_vec());
        assert!((f32::from_bits(score) - 1.0).abs() < 1e-6);
        for i in 1..4 {
            let (_, s) = ranked.get_nth_top(i);
            assert!(f32::from_bits(s) <= f32::from_bits(ranked.get_nth_top(i - 1).1));
        }
    }
    let query = floats(&model.word2vec("italy").unwrap());
    let ranked = model.rank_words(&scores_for(&model, &query));
    assert_eq!(ranked.get_nth_top(1).0, b"france".to_vec());
}

#[test]
fn t07_vector_word_maths() {
    let data = fixture(
        "4 2\n",
        &[("king", &[0.9, 0.8]), ("man", &[0.9, 0.1]), ("woman", &[0.1, 0.2]), ("queen", &[0.1, 0.9])],
    );
    let model = Model::new(&data).unwrap();
    let king = floats(&model.word2vec("king").unwrap());
    let man = floats(&model.word2vec("man").unwrap());
    let woman = floats(&model.word2vec("woman").unwrap());
    let query: Vec<f32> = (0..2).map(|i| king[i] - man[i] + woman[i]).collect();
    let ranked = model.rank_words(&scores_for(&model, &query));
    assert_eq!(ranked.get_nth_top(0).0, b"queen".to_vec());
}

#[test]
fn words_in_storage_order() {
    let data = fixture("3 1\n", &[("b", &[1.0]), ("a", &[2.0]), ("b", &[3.0])]);
    let model = Model::new(&data).unwrap();
    assert_eq!(model.words(), vec![b"b".to_vec(), b"a".to_vec()]);
    let (w, v) = model.entry(0);
    assert_eq!(w, &b"b".to_vec());
    assert_eq!(floats(v), vec![3.0f32]);
}
