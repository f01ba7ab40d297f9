use rekey::corpus::trigram_sources;
use rekey::model::{hash_str, normalize, trigrams, Model, Models, BOUND};
use rekey::rkm::ModelError;
use rekey::single::Single;

/// A model trained on these words, as the application trains it.
fn train(lang: &str, counts: &[(&str, u64)]) -> Model {
    let counts: Vec<(String, u64)> = counts
        .iter()
        .map(|(w, n)| (w.to_string(), *n))
        .collect();
    let total: f64 = counts.iter().map(|(_, n)| *n as f64).sum();
    let words = counts
        .iter()
        .map(|(w, n)| {
            let p = *n as f64 / total;
            (hash_str(&normalize(w)), Single { bits: (p.log10() as f32).to_bits() })
        })
        .collect();
    let weights: Vec<(String, f64)> = trigram_sources(&counts)
        .into_iter()
        .map(|(t, list)| (t, list.iter().map(|n| (*n as f64).ln().max(1.0)).sum()))
        .collect();
    let tri_total: f64 = weights.iter().map(|(_, w)| *w).sum();
    let tris = weights
        .iter()
        .map(|(t, w)| {
            (hash_str(t), Single { bits: ((w / tri_total).log10() as f32).to_bits() })
        })
        .collect();
    Model::from_tables(lang, words, tris)
}

fn toy() -> Model {
    train("en", &[("hello", 1000), ("world", 500), ("the", 9000)])
}

fn float(s: Single) -> f32 {
    f32::from_bits(s.bits)
}

#[test]
fn trigrams_are_padded() {
    let t = trigrams("ab");
    assert_eq!(t.len(), 4);
    assert_eq!(t[0], format!("{BOUND}{BOUND}a"));
    assert_eq!(t[3], format!("b{BOUND}{BOUND}"));
}

#[test]
fn known_words_beat_gibberish() {
    let m = toy();
    assert!(m.knows("hello"));
    assert!(float(m.score("hello")) > float(m.score("xqzptr")));
}

#[test]
fn frequency_is_reflected() {
    let m = toy();
    assert!(float(m.score("the")) > float(m.score("world")));
}

#[test]
fn unknown_but_wordlike_beats_unknown_gibberish() {
    let m = toy();
    // "helld" shares trigrams with the training words; "qqqqq" shares none.
    assert!(float(m.score("helld")) > float(m.score("qqqqq")));
}

#[test]
fn scoring_is_case_insensitive() {
    let m = toy();
    assert_eq!(m.score("HELLO"), m.score("hello"));
}

#[test]
fn roundtrips_through_bytes() {
    let m = toy();
    let mut buf = Vec::new();
    m.write(&mut buf).unwrap();
    let back = Model::from_bytes(&buf).unwrap();
    assert_eq!(back.lang, "en");
    assert_eq!(back.word_count(), m.word_count());
    assert_eq!(back.trigram_count(), m.trigram_count());
    assert_eq!(back.score("hello"), m.score("hello"));
}

#[test]
fn rejects_foreign_files() {
    assert!(Model::from_bytes(b"not a model at all").is_err());
}

#[test]
fn rejects_truncated_files() {
    let m = toy();
    let mut buf = Vec::new();
    m.write(&mut buf).unwrap();
    buf.truncate(buf.len() / 2);
    assert!(Model::from_bytes(&buf).is_err());
}

#[test]
fn every_way_a_file_can_be_wrong_has_its_error() {
    let m = toy();
    let mut buf = Vec::new();
    m.write(&mut buf).unwrap();
    for len in 0..buf.len() {
        assert_eq!(
            Model::from_bytes(&buf[..len]).unwrap_err(),
            ModelError::Truncated,
            "cut at {len}"
        );
    }
    assert_eq!(
        Model::from_bytes(b"RKM1").unwrap_err(),
        ModelError::NotAModel
    );
    assert_eq!(
        Model::from_bytes(b"RKM2\x03\x01rest").unwrap_err(),
        ModelError::Version(259)
    );
    assert_eq!(
        Model::from_bytes(b"RKM2\x02\x00\x02\xff\xfe").unwrap_err(),
        ModelError::Language
    );
    assert_eq!(
        ModelError::Version(259).message(),
        "model version 259 is not supported (expected 2)"
    );
    assert_eq!(ModelError::Truncated.message(), "model file is truncated");
    assert_eq!(ModelError::NotAModel.message(), "not a Rekey model file");
    assert_eq!(
        ModelError::Language.message(),
        "language tag is not valid UTF-8"
    );
}

#[test]
fn a_file_is_laid_out_byte_by_byte() {
    let m = Model::from_tables(
        "en",
        vec![(0x0102_0304, Single { bits: 0xc0e0_0000 })],
        Vec::new(),
    );
    let mut buf = vec![7u8];
    m.write(&mut buf).unwrap();
    assert_eq!(
        buf,
        vec![
            7, 0x52, 0x4b, 0x4d, 0x32, 2, 0, 2, 0x65, 0x6e, 1, 0, 0, 0, 4, 3, 2, 1, 0, 0, 0xe0,
            0xc0, 0, 0, 0, 0
        ]
    );
    // What follows a model is ignored.
    buf.push(9);
    let back = Model::from_bytes(&buf[1..]).unwrap();
    assert_eq!(back.words, m.words);
    assert_eq!(back.lang, "en");
}

#[test]
fn hashes_are_fnv_1a() {
    assert_eq!(hash_str(""), 0x811c_9dc5);
    assert_eq!(hash_str("a"), 0xe40c_292c);
    assert_eq!(hash_str("foobar"), 0xbf9c_f968);
    // Two bytes of UTF-8.
    assert_eq!(
        hash_str("п"),
        ((0x811c_9dc5u32 ^ 0xd0).wrapping_mul(0x0100_0193) ^ 0xbf).wrapping_mul(0x0100_0193)
    );
}

#[test]
fn an_unknown_word_scores_its_mean_trigram_less_a_penalty() {
    let m = toy();
    assert_eq!(float(m.shape_score("qqq")), -7.0);
    assert_eq!(float(m.score("qqq")), -10.0);
    // "__q" and "q__" and two more, of which none is known.
    assert_eq!(trigrams("qq").len(), 4);
    let empty = Model::new("xx");
    assert_eq!(float(empty.score("")), -10.0);
    assert_eq!(empty.word_count() + empty.trigram_count(), 0);
    assert_eq!(normalize("ПрИвЕт"), "привет");
}

#[test]
fn tables_are_sorted_and_hold_each_hash_once() {
    let one = Single { bits: 1 };
    let m = Model::from_tables("en", vec![(9, one), (3, one), (9, one), (5, one)], Vec::new());
    assert_eq!(m.words, vec![(3, one), (5, one), (9, one)]);
}

#[test]
fn one_slip_away_is_found() {
    let m = toy();
    let alphabet: Vec<char> = ('a'..='z').collect();
    let hello = m.word_logp("hello");
    assert!(hello.is_some());
    // A letter too much, two in the wrong order, a wrong one, one missed out.
    for slip in ["helllo", "hlelo", "hellp", "hllo", "ello", "hell"] {
        assert_eq!(m.best_within_one_edit(slip, &alphabet), hello, "{slip}");
    }
    for far in ["hexxo", "", "qqq", "helloxx"] {
        assert_eq!(m.best_within_one_edit(far, &alphabet), None, "{far}");
    }
    // The best of several wins, and the letters must be in the alphabet.
    let near = train("en", &[("cat", 10), ("car", 90)]);
    assert_eq!(
        near.best_within_one_edit("cax", &alphabet),
        near.word_logp("car")
    );
    assert_eq!(near.best_within_one_edit("cax", &['t']), near.word_logp("cat"));
    // The word itself is no slip.
    assert_eq!(near.best_within_one_edit("car", &[]), None);
}

#[test]
fn a_later_model_takes_the_place_of_an_earlier_one() {
    let mut models = Models::new();
    assert!(models.is_empty());
    models.insert(Model::new("en"));
    models.insert(train("ru", &[("привет", 1)]));
    models.insert(toy());
    assert!(models.has("en") && models.has("ru") && !models.has("uk"));
    assert_eq!(models.langs(), vec!["en", "ru"]);
    assert_eq!(models.get("en").unwrap().word_count(), 3);
    assert!(models.get("uk").is_none());
    assert!(!models.is_empty());
}
