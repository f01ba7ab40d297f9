use rekey::corpus::{
    count_words, false_positives, list_language, list_name, load_words, model_name, parse_count,
    recall, trigram_sources, word_hashes,
};
use rekey::config::Config;
use rekey::detect::Detector;
use rekey::model::{hash_str, normalize, Model, Models};
use rekey::single::Single;

/// A model trained on these words, as the application trains it.
fn train(lang: &str, counts: &[(&str, u64)]) -> Model {
    let counts: Vec<(String, u64)> = counts
        .iter()
        .map(|(w, n)| (w.to_string(), *n))
        .collect();
    let total: f64 = counts.iter().map(|(_, n)| *n as f64).sum();
    let words = counts
        .iter()
        .map(|(w, n)| {
            let p = *n as f64 / total;
            (hash_str(&normalize(w)), Single { bits: (p.log10() as f32).to_bits() })
        })
        .collect();
    let weights: Vec<(String, f64)> = trigram_sources(&counts)
        .into_iter()
        .map(|(t, list)| (t, list.iter().map(|n| (*n as f64).ln().max(1.0)).sum()))
        .collect();
    let tri_total: f64 = weights.iter().map(|(_, w)| *w).sum();
    let tris = weights
        .iter()
        .map(|(t, w)| {
            (hash_str(t), Single { bits: ((w / tri_total).log10() as f32).to_bits() })
        })
        .collect();
    Model::from_tables(lang, words, tris)
}

#[test]
fn lines_are_counted_word_by_word() {
    let list = "Hello 10\nhello 5\nworld 7 extra\r\nrare 1\nx1 50\nno\n\nbad count\na 999\nI 1000\n+ 9\nplus +3";
    let counts = count_words(list);
    assert_eq!(
        counts,
        vec![
            ("hello".to_string(), 15),
            ("world".to_string(), 7),
            ("i".to_string(), 1000),
            ("plus".to_string(), 3),
        ]
    );
    assert!(count_words("").is_empty());
}

#[test]
fn counts_are_read_as_the_standard_library_reads_them() {
    for s in [
        "0",
        "7",
        "+7",
        "007",
        "18446744073709551615",
        "18446744073709551616",
        "99999999999999999999",
        "",
        "+",
        "++1",
        "-1",
        "1.5",
        "1 ",
        "٣",
    ] {
        assert_eq!(parse_count(s), s.parse::<u64>().ok(), "{s:?}");
    }
}

#[test]
fn sums_of_counts_stay_within_bounds() {
    let list = "many 18446744073709551615\nmany 5";
    assert_eq!(count_words(list), vec![("many".to_string(), u64::MAX)]);
}

#[test]
fn samples_are_the_first_long_words() {
    let list = "Hello 10\nab 9\nworld 8\nx-ray 7\n\nкот 6";
    assert_eq!(load_words(list, 10), vec!["hello", "world", "кот"]);
    assert_eq!(load_words(list, 2), vec!["hello", "world"]);
    assert!(load_words(list, 0).is_empty());
}

#[test]
fn trigrams_know_their_words() {
    let counts = vec![("abab".to_string(), 4), ("AB".to_string(), 2), (String::new(), 9)];
    let mut found = trigram_sources(&counts);
    found.sort();
    let of = |t: &str| {
        found
            .iter()
            .find(|(name, _)| name == t)
            .map(|(_, list)| list.clone())
    };
    assert_eq!(of("\u{2}\u{2}a"), Some(vec![4, 2]));
    assert_eq!(of("\u{2}ab"), Some(vec![4, 2]));
    assert_eq!(of("aba"), Some(vec![4]));
    assert_eq!(of("b\u{2}\u{2}"), Some(vec![4, 2]));
    assert_eq!(of("\u{2}\u{2}\u{2}"), None);
    assert_eq!(found.len(), 6);
    // A trigram counts as often as a word holds it.
    let twice = trigram_sources(&vec![("aaaa".to_string(), 3)]);
    assert!(twice.contains(&("aaa".to_string(), vec![3, 3])));
}

#[test]
fn the_detector_is_measured() {
    let mut models = Models::new();
    models.insert(train("en", &[("hello", 900), ("world", 800), ("keyboard", 700)]));
    models.insert(train("ru", &[("привет", 900), ("спасибо", 800), ("хорошо", 700)]));
    let det = Detector::new(models, Config::default());
    let en = vec!["hello".to_string(), "world".to_string()];
    let ru = vec!["привет".to_string(), "спасибо".to_string(), "йцу".to_string()];
    assert_eq!(recall(&det, &ru, "ru", "us"), (2, 3));
    assert_eq!(recall(&det, &en, "us", "ru"), (2, 2));
    assert_eq!(recall(&det, &en, "us", "xx"), (0, 0));
    assert_eq!(false_positives(&det, &en, "us"), (0, 2));
    // Typed on the wrong layout, a word is rewritten.
    assert_eq!(
        false_positives(&det, &vec!["ghbdtn".to_string()], "us"),
        (1, 1)
    );
}

#[test]
fn word_lists_are_found_by_their_names() {
    assert_eq!(list_language("ru_50k.txt").as_deref(), Some("ru"));
    assert_eq!(list_language("pt_br_50k.txt").as_deref(), Some("pt"));
    assert_eq!(list_language("_50k.txt").as_deref(), Some(""));
    assert_eq!(list_language("ru_50k.txt.gz"), None);
    assert_eq!(list_language("ru.txt"), None);
    assert_eq!(list_name("el"), "el_50k.txt");
    assert_eq!(model_name("el"), "el.rkm");
    for lang in ["en", "ru", "he"] {
        assert_eq!(list_language(&list_name(lang)).as_deref(), Some(lang));
    }
}

#[test]
fn words_are_hashed_in_lower_case() {
    let counts = vec![
        ("Hello".to_string(), 5),
        (String::new(), 7),
        ("мир".to_string(), 2),
        ("hello".to_string(), 1),
    ];
    assert_eq!(
        word_hashes(&counts),
        vec![
            (hash_str("hello"), 5),
            (hash_str("мир"), 2),
            (hash_str("hello"), 1),
        ]
    );
}
