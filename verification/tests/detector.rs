use rekey::config::{Config, Modifier, Sensitivity, Shortcut};
use rekey::corpus::trigram_sources;
use rekey::detect::{Detector, Skip, Verdict};
use rekey::input::Modifiers;
use rekey::layout::convert_by_id;
use rekey::model::{hash_str, normalize, Model, Models};
use rekey::single::Single;

/// A model trained on these words, as the application trains it.
fn train(lang: &str, counts: &[(&str, u64)]) -> Model {
    let counts: Vec<(String, u64)> = counts
        .iter()
        .map(|(w, n)| (w.to_string(), *n))
        .collect();
    let total: f64 = counts.iter().map(|(_, n)| *n as f64).sum();
    let words = counts
        .iter()
        .map(|(w, n)| {
            let p = *n as f64 / total;
            (hash_str(&normalize(w)), Single { bits: (p.log10() as f32).to_bits() })
        })
        .collect();
    let weights: Vec<(String, f64)> = trigram_sources(&counts)
        .into_iter()
        .map(|(t, list)| (t, list.iter().map(|n| (*n as f64).ln().max(1.0)).sum()))
        .collect();
    let tri_total: f64 = weights.iter().map(|(_, w)| *w).sum();
    let tris = weights
        .iter()
        .map(|(t, w)| {
            (hash_str(t), Single { bits: ((w / tri_total).log10() as f32).to_bits() })
        })
        .collect();
    Model::from_tables(lang, words, tris)
}

fn equally_likely(lang: &str, words: &[&str]) -> Model {
    let counts: Vec<(&str, u64)> = words.iter().map(|w| (*w, 1000)).collect();
    train(lang, &counts)
}

/// Models that hold the words spoken of here.
fn models() -> Models {
    let mut models = Models::new();
    models.insert(equally_likely(
        "en",
        &[
            "hello", "world", "keyboard", "the", "meeting", "tomorrow", "because", "language",
            "switch", "happy", "friend", "computer", "gonna", "wanna", "dude", "yeah", "please",
            "yellow", "lazy", "zone", "system", "analyze",
        ],
    ));
    models.insert(equally_likely(
        "ru",
        &[
            "привет", "спасибо", "хорошо", "завтра", "работа", "любовь", "норм", "чувак",
            "офигеть", "кайф", "человек", "сегодня", "как", "тест", "мой", "не",
        ],
    ));
    models.insert(equally_likely("uk", &["привіт", "дуже", "будь", "ласка"]));
    models.insert(equally_likely("he", &["שלום", "תודה", "בסדר"]));
    models.insert(equally_likely("ar", &["شكرا", "مرحبا", "كثير"]));
    models.insert(equally_likely("el", &["γεια", "ευχαριστώ", "καλημέρα", "μία"]));
    models.insert(equally_likely("de", &["hallo", "zelle", "lacht", "zone", "system"]));
    models
}

fn detector(layouts: &[&str]) -> Detector {
    let config = Config {
        layouts: layouts.iter().map(|s| s.to_string()).collect(),
        ..Config::default()
    };
    Detector::new(models(), config)
}

/// Types `intended`, a word of `intended_layout`, with `typed_on` in use, and
/// expects the detector to recover it.
fn assert_recovers(d: &Detector, intended: &str, intended_layout: &str, typed_on: &str) {
    let mistyped = convert_by_id(intended, intended_layout, typed_on)
        .unwrap_or_else(|| panic!("cannot render {intended:?} on {typed_on}"));
    match d.evaluate(&mistyped, typed_on) {
        Verdict::Switch(c) => assert_eq!(
            c.converted, intended,
            "{intended:?} typed on {typed_on} came out as {mistyped:?}"
        ),
        other => panic!(
            "{intended:?} typed on {typed_on} looks like {mistyped:?}; \
             expected recovery, got {other:?}"
        ),
    }
}

fn assert_keeps(d: &Detector, word: &str, active: &str) {
    if let Verdict::Switch(c) = d.evaluate(word, active) {
        panic!("{word:?} on {active} was wrongly converted to {:?}", c.converted)
    }
}

#[test]
fn fixes_russian_typed_on_english_layout() {
    let d = detector(&["us", "ru"]);
    for w in ["привет", "спасибо", "хорошо", "завтра", "работа"] {
        assert_recovers(&d, w, "ru", "us");
    }
}

#[test]
fn fixes_words_whose_keys_are_punctuation_on_the_wrong_layout() {
    let d = detector(&["us", "ru"]);
    assert_eq!(convert_by_id("спасибо", "ru", "us").unwrap(), "cgfcb,j");
    assert_recovers(&d, "спасибо", "ru", "us");
    assert_recovers(&d, "любовь", "ru", "us");
}

#[test]
fn fixes_english_typed_on_russian_layout() {
    let d = detector(&["us", "ru"]);
    for w in ["hello", "meeting", "tomorrow", "keyboard"] {
        assert_recovers(&d, w, "us", "ru");
    }
}

#[test]
fn recognises_slang_not_found_in_dictionaries() {
    let d = detector(&["us", "ru"]);
    for w in ["норм", "чувак", "офигеть", "кайф"] {
        assert_recovers(&d, w, "ru", "us");
    }
    for w in ["gonna", "wanna", "dude", "yeah"] {
        assert_recovers(&d, w, "us", "ru");
    }
}

#[test]
fn leaves_real_english_alone() {
    let d = detector(&["us", "ru"]);
    for w in [
        "hello", "world", "keyboard", "the", "meeting", "tomorrow", "because", "language",
        "switch", "happy", "friend", "computer",
    ] {
        assert_keeps(&d, w, "us");
    }
}

#[test]
fn leaves_real_russian_alone() {
    let d = detector(&["us", "ru"]);
    for w in ["привет", "спасибо", "хорошо", "человек", "работа", "сегодня"] {
        assert_keeps(&d, w, "ru");
    }
}

#[test]
fn never_touches_passwords_or_identifiers() {
    let d = detector(&["us", "ru"]);
    for s in [
        "hunter2", "P@ssw0rd", "git@github.com", "/usr/local/bin", "--force", "v1.2.3",
        "user_name", "#hashtag", "a1b2c3",
    ] {
        match d.evaluate(s, "us") {
            Verdict::Keep(Skip::NotAWord) => {}
            other => panic!("{s:?} should be refused as not-a-word, got {other:?}"),
        }
    }
}

#[test]
fn leaves_acronyms_alone() {
    let d = detector(&["us", "ru"]);
    for s in ["HTTP", "NASA", "SQL", "API"] {
        match d.evaluate(s, "us") {
            Verdict::Keep(Skip::AllCaps) => {}
            other => panic!("{s:?} should be skipped as all-caps, got {other:?}"),
        }
    }
}

#[test]
fn respects_user_exceptions() {
    let config = Config {
        layouts: vec!["us".into(), "ru".into()],
        exceptions: vec!["ghbdtn".into()],
        ..Config::default()
    };
    let d = Detector::new(models(), config);
    match d.evaluate("ghbdtn", "us") {
        Verdict::Keep(Skip::UserException) => {}
        other => panic!("exception word should be kept, got {other:?}"),
    }
}

#[test]
fn very_short_words_need_a_dictionary_hit() {
    let d = detector(&["us", "ru"]);
    assert_keeps(&d, "qx", "us");
    assert_keeps(&d, "zq", "us");
}

#[test]
fn three_layouts_do_not_degrade_the_two_layout_result() {
    let two = detector(&["us", "ru"]);
    let many = detector(&["us", "ru", "uk", "he", "el"]);
    for w in ["привет", "спасибо", "хорошо"] {
        assert_recovers(&two, w, "ru", "us");
        assert_recovers(&many, w, "ru", "us");
    }
}

#[test]
fn fixes_ukrainian() {
    let d = detector(&["us", "uk"]);
    for w in ["привіт", "дуже", "будь", "ласка"] {
        assert_recovers(&d, w, "uk", "us");
    }
}

#[test]
fn fixes_hebrew() {
    let d = detector(&["us", "he"]);
    for w in ["שלום", "תודה", "בסדר"] {
        assert_recovers(&d, w, "he", "us");
    }
    // Hebrew has no case, so no word in it is shouting.
    for w in ["hello", "please", "tomorrow"] {
        assert_recovers(&d, w, "us", "he");
    }
}

#[test]
fn fixes_arabic() {
    let d = detector(&["us", "ar"]);
    for w in ["شكرا", "مرحبا", "كثير"] {
        assert_recovers(&d, w, "ar", "us");
    }
}

#[test]
fn fixes_greek_including_accented_words() {
    let d = detector(&["us", "el"]);
    // Greek accents are dead keys, so these words contain a `;` when mistyped.
    for w in ["γεια", "ευχαριστώ", "καλημέρα", "μία"] {
        assert_recovers(&d, w, "el", "us");
    }
}

#[test]
fn latin_pairs_are_held_to_a_higher_bar() {
    let d = detector(&["us", "de"]);
    for w in ["yellow", "lazy", "zone", "system", "analyze"] {
        assert_keeps(&d, w, "us");
    }
}

#[test]
fn three_layouts_pick_the_right_target() {
    let d = detector(&["us", "ru", "uk"]);
    assert_recovers(&d, "привіт", "uk", "us");
    assert_recovers(&d, "привет", "ru", "us");
}

#[test]
fn sensitivity_changes_how_eager_it_is() {
    let models = models();
    let mk = |s| {
        Detector::new(
            models.clone(),
            Config {
                layouts: vec!["us".into(), "ru".into()],
                sensitivity: s,
                ..Config::default()
            },
        )
    };
    let cautious = mk(Sensitivity::Cautious);
    let eager = mk(Sensitivity::Eager);
    let mut eager_switches = 0;
    let mut cautious_switches = 0;
    for w in ["ghbdtn", "yjhv", "rfr", "ds", "ntcn", "vjq", "yt"] {
        if eager.evaluate(w, "us").is_switch() {
            eager_switches += 1;
        }
        if cautious.evaluate(w, "us").is_switch() {
            cautious_switches += 1;
        }
    }
    assert!(
        eager_switches >= cautious_switches,
        "eager ({eager_switches}) should switch at least as often as cautious ({cautious_switches})"
    );
}

#[test]
fn every_reason_to_keep_a_word_is_given() {
    let skip = |d: &Detector, word: &str, active: &str| match d.evaluate(word, active) {
        Verdict::Keep(skip) => skip,
        other => panic!("{word:?} should be kept, got {other:?}"),
    };
    let d = detector(&["us", "ru"]);
    assert_eq!(skip(&d, "a", "us"), Skip::TooShort);
    assert_eq!(skip(&d, "qx", "us"), Skip::TooShort);
    assert_eq!(skip(&d, "hello", "xx"), Skip::ModelMissing);
    assert_eq!(skip(&d, "hello", "us"), Skip::NotConfident);
    assert_eq!(skip(&d, "a/b/c", "us"), Skip::NotAWord);
    // Nothing else to type it on.
    assert_eq!(skip(&detector(&["us"]), "hello", "us"), Skip::NoAlternatives);
    assert_eq!(skip(&detector(&["us", "xx"]), "hello", "us"), Skip::Unconvertible);
    // Not typed on the layout in use at all.
    assert_eq!(skip(&d, "привет", "us"), Skip::Unconvertible);
    // No model for the layout in use.
    assert_eq!(skip(&detector(&["tr", "us"]), "hello", "tr"), Skip::ModelMissing);
    let off = Detector::new(
        models(),
        Config {
            enabled: false,
            ..Config::default()
        },
    );
    assert_eq!(skip(&off, "ghbdtn", "us"), Skip::Disabled);
    let loud = Detector::new(
        models(),
        Config {
            skip_all_caps: false,
            ..Config::default()
        },
    );
    assert!(loud.evaluate("GHBDTN", "us").is_switch());
}

#[test]
fn a_candidate_carries_its_scores() {
    let d = detector(&["us", "ru"]);
    let verdict = d.evaluate("ghbdtn", "us");
    let c = verdict.candidate().unwrap();
    assert_eq!(c.to_layout, "ru");
    assert_eq!(c.converted, "привет");
    assert!(c.target_knows_word && !c.source_knows_word);
    // Sixteen words, equally likely.
    let typed = f32::from_bits(c.score_as_typed.bits);
    let converted = f32::from_bits(c.score_converted.bits);
    assert_eq!(converted, (1.0f64 / 16.0).log10() as f32);
    assert_eq!(f32::from_bits(c.delta.bits), converted - typed);
    assert!(d.evaluate("hello", "us").candidate().is_none());
}

#[test]
fn affixes_are_what_no_layout_turns_into_letters() {
    let d = detector(&["us", "ru"]);
    assert_eq!(d.trim_affixes("(ghbdtn)!", "us"), ("(", "ghbdtn", ")!"));
    // The comma is a letter on the Russian layout.
    assert_eq!(d.trim_affixes(",hello,", "us"), ("", ",hello,", ""));
    assert_eq!(detector(&["us"]).trim_affixes(",hello,", "us"), (",", "hello", ","));
    assert_eq!(d.trim_affixes("123", "us"), ("123", "", ""));
    assert_eq!(d.trim_affixes("", "us"), ("", "", ""));
    // Where the layout is not known nothing is trimmed.
    assert_eq!(d.trim_affixes("!a!", "xx"), ("", "!a!", ""));
    // A dead key is part of a word.
    assert_eq!(detector(&["us", "el"]).trim_affixes(";a!", "us"), ("", ";a", "!"));
}

#[test]
fn the_best_target_needs_a_model_for_every_layout() {
    let d = detector(&["us", "ru", "uk"]);
    assert_eq!(d.best_target("ghbdtn", "us"), Some("ru"));
    assert_eq!(d.best_target("ghbdsn", "us"), Some("uk"));
    assert_eq!(d.best_target("ghbdtn", "xx"), None);
    assert_eq!(detector(&["us", "ru", "fr"]).best_target("ghbdtn", "us"), None);
    assert_eq!(detector(&["us", "xx"]).best_target("ghbdtn", "us"), None);
    assert_eq!(detector(&["us"]).best_target("ghbdtn", "us"), None);
    assert_eq!(d.force_convert("qx", "us", "ru").unwrap(), "йч");
    assert!(d.force_convert("qx", "us", "xx").is_none());
}

#[test]
fn common_words_are_protected_more_than_rare_ones() {
    // "rjn" is "кот"; the more common it is as typed, the more it takes.
    let with = |count: u64| {
        let mut models = Models::new();
        models.insert(train("en", &[("the", 1_000_000_000), ("rjn", count)]));
        models.insert(train("ru", &[("кот", 1)]));
        Detector::new(models, Config::default())
    };
    // Common: 2 + 4.5 is more than the words differ by.
    assert!(!with(1_000_000).evaluate("rjn", "us").is_switch());
    // Rare: 2 + 4.5 * 0.4 is less.
    assert!(with(100).evaluate("rjn", "us").is_switch());
}

#[test]
fn settings_begin_as_they_should() {
    let c = Config::default();
    assert!(c.enabled && c.skip_all_caps && !c.ai_assist);
    assert_eq!(c.layouts, vec!["us", "ru"]);
    assert_eq!((c.min_word_len, c.require_dict_below_len), (2, 4));
    assert!(c.exceptions.is_empty());
    assert_eq!(c.excluded_apps.len(), 9);
    assert_eq!(c.sensitivity, Sensitivity::Balanced);
    assert_eq!(c.shortcut, Shortcut::Tap { modifier: Modifier::Option });
    assert!(c.is_excluded_app("COM.APPLE.TERMINAL"));
    assert!(c.is_excluded_app("keepass.exe"));
    assert!(!c.is_excluded_app("com.apple.TextEdit"));
    assert_eq!(c.alternatives("us"), vec!["ru"]);
    assert_eq!(c.alternatives("de"), vec!["us", "ru"]);
    let c = Config {
        exceptions: vec!["Привет".into()],
        ..c
    };
    assert!(c.is_exception("ПРИВЕТ") && !c.is_exception("приве"));
}

#[test]
fn thresholds_are_these() {
    let float = |s: Single| f32::from_bits(s.bits);
    for (s, margin, unknown, known) in [
        (Sensitivity::Cautious, 3.5, 3.0, 6.0),
        (Sensitivity::Balanced, 2.0, 2.5, 4.5),
        (Sensitivity::Eager, 1.0, 1.5, 3.0),
    ] {
        assert_eq!(float(s.threshold()), margin);
        assert_eq!(float(s.unknown_target_surcharge()), unknown);
        assert_eq!(float(s.known_word_surcharge()), known);
    }
    assert_eq!(f32::from_bits(rekey::detect::MIN_COVERAGE), 0.99);
    assert_eq!(f32::from_bits(rekey::detect::AMBIGUOUS_BAND), 1.5);
    assert_eq!(f32::from_bits(rekey::detect::COMMON_WORD_FLOOR), -5.5);
    assert_eq!(f32::from_bits(rekey::detect::RARE_WORD_PROTECTION), 0.4);
    assert_eq!(f32::from_bits(rekey::detect::LATIN_PAIR_SURCHARGE), 1.5);
    assert_eq!(f32::from_bits(rekey::model::UNSEEN_TRIGRAM), -7.0);
    assert_eq!(f32::from_bits(rekey::model::OOV_PENALTY), -3.0);
}

#[test]
fn modifiers_are_told_apart() {
    let none = Modifiers::default();
    let both = Modifiers { alt: true, meta: true, ..none };
    for (m, label) in [
        (Modifier::Option, "Option"),
        (Modifier::Shift, "Shift"),
        (Modifier::Control, "Control"),
        (Modifier::Command, "Command"),
    ] {
        assert_eq!(m.label(), label);
        assert!(!m.is_held(none) && !m.others_held(none));
        assert!(m.others_held(both));
    }
    assert!(Modifier::Option.is_held(both) && !Modifier::Shift.is_held(both));
    let alone = Modifiers { control: true, ..none };
    assert!(Modifier::Control.is_held(alone) && !Modifier::Control.others_held(alone));
    assert_eq!(Shortcut::Off.modifier(), None);
    assert!(!Shortcut::Tap { modifier: Modifier::Shift }.needs_two_taps());
    assert!(Shortcut::DoubleTap { modifier: Modifier::Shift }.needs_two_taps());
}

#[test]
fn a_more_eager_sensitivity_corrects_no_less() {
    let at = |sensitivity: Sensitivity| {
        Detector::new(
            models(),
            Config {
                sensitivity,
                ..Config::default()
            },
        )
    };
    let detectors = [
        at(Sensitivity::Cautious),
        at(Sensitivity::Balanced),
        at(Sensitivity::Eager),
    ];
    let words = ["ghbdtn", "cgfcb,j", "rfr", "hello", "qwzx", "yjhv", "xedfr"];
    for word in words {
        let readings: Vec<Option<String>> = detectors
            .iter()
            .map(|d| match d.evaluate(word, "us") {
                Verdict::Switch(c) => Some(c.converted),
                _ => None,
            })
            .collect();
        for pair in readings.windows(2) {
            assert!(pair[0].is_none() || pair[0] == pair[1], "{word}: {readings:?}");
        }
    }
    assert!(detectors[0].evaluate("ghbdtn", "us").is_switch());
}
