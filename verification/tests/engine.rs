use rekey::assist::{Assist, Question};
use rekey::config::{Config, Modifier, Shortcut};
use rekey::corpus::trigram_sources;
use rekey::detect::Verdict;
use rekey::engine::{Action, Engine};
use rekey::hook::noop::{Action as Recorded, RecordingInjector};
use rekey::input::{Context, Key, KeyEvent, Modifiers, TextWriter};
use rekey::layout::{convert_by_id, KeyPress};
use rekey::model::{hash_str, normalize, Model, Models};
use rekey::single::Single;
use std::collections::HashMap;
use std::sync::{Arc, Mutex};

/// A model trained on these words, as the application trains it.
fn train(lang: &str, counts: &[(&str, u64)]) -> Model {
    let counts: Vec<(String, u64)> = counts
        .iter()
        .map(|(w, n)| (w.to_string(), *n))
        .collect();
    let total: f64 = counts.iter().map(|(_, n)| *n as f64).sum();
    let words = counts
        .iter()
        .map(|(w, n)| {
            let p = *n as f64 / total;
            (hash_str(&normalize(w)), Single { bits: (p.log10() as f32).to_bits() })
        })
        .collect();
    let weights: Vec<(String, f64)> = trigram_sources(&counts)
        .into_iter()
        .map(|(t, list)| (t, list.iter().map(|n| (*n as f64).ln().max(1.0)).sum()))
        .collect();
    let tri_total: f64 = weights.iter().map(|(_, w)| *w).sum();
    let tris = weights
        .iter()
        .map(|(t, w)| {
            (hash_str(t), Single { bits: ((w / tri_total).log10() as f32).to_bits() })
        })
        .collect();
    Model::from_tables(lang, words, tris)
}

/// Models of a few words each.
fn models() -> Models {
    let mut models = Models::new();
    models.insert(train("en", &[("hello", 900), ("world", 800), ("the", 9000)]));
    models.insert(train("ru", &[("привет", 900), ("рыб", 100), ("рис", 100)]));
    models.insert(train("uk", &[("привіт", 900), ("ві", 100)]));
    models
}

/// An assist with answers prepared.
#[derive(Default)]
struct FakeAssist {
    answers: Mutex<HashMap<String, bool>>,
    asked: Mutex<Vec<Question>>,
}

impl FakeAssist {
    fn with_answer(typed: &str, convert: bool) -> FakeAssist {
        let assist = FakeAssist::default();
        assist
            .answers
            .lock()
            .unwrap()
            .insert(typed.to_lowercase(), convert);
        assist
    }
}

impl Assist for FakeAssist {
    fn cached(&self, typed: &str, _alternative: &str) -> Option<bool> {
        self.answers
            .lock()
            .unwrap()
            .get(&typed.to_lowercase())
            .copied()
    }

    fn enqueue(&self, question: Question) {
        self.asked.lock().unwrap().push(question);
    }

    fn learned(&self) -> usize {
        self.answers.lock().unwrap().len()
    }
}

fn key(c: char) -> KeyEvent {
    KeyEvent {
        character: Some(c),
        key: Key::Character,
        modifiers: Modifiers::default(),
        synthetic: false,
    }
}

fn special(k: Key) -> KeyEvent {
    KeyEvent {
        character: None,
        key: k,
        modifiers: Modifiers::default(),
        synthetic: false,
    }
}

/// A modifier-change event with Option held or released.
fn alt(down: bool) -> KeyEvent {
    KeyEvent {
        character: None,
        key: Key::ModifiersChanged,
        modifiers: Modifiers {
            alt: down,
            ..Default::default()
        },
        synthetic: false,
    }
}

/// Tap Option: press and release with nothing in between.
fn tap_alt(e: &mut Engine, layout: &str) -> Action {
    let c = ctx(layout);
    e.on_key(&alt(true), &c);
    e.on_key(&alt(false), &c)
}

/// A modifier-change event with an arbitrary modifier held.
fn modifier_event(modifiers: Modifiers) -> KeyEvent {
    KeyEvent {
        character: None,
        key: Key::ModifiersChanged,
        modifiers,
        synthetic: false,
    }
}

/// Tap a specific modifier once.
fn tap(e: &mut Engine, layout: &str, held: Modifiers) -> Action {
    let c = ctx(layout);
    e.on_key(&modifier_event(held), &c);
    e.on_key(&modifier_event(Modifiers::default()), &c)
}

fn engine_with_shortcut(shortcut: Shortcut) -> Engine {
    Engine::new(
        models(),
        Config {
            layouts: vec!["us".into(), "ru".into()],
            shortcut,
            ..Config::default()
        },
    )
}

/// Render `word` as the same physical keys would produce on `to`.
fn rekey_core_convert(word: &str, from: &str, to: &str) -> String {
    convert_by_id(word, from, to).expect("known layouts")
}

fn replaced_text(action: &Action) -> &str {
    match action {
        Action::Replace { text, .. } => text,
        Action::Nothing => panic!("expected a replacement, got Action::Nothing"),
    }
}

fn ctx(layout: &str) -> Context {
    Context {
        app: Some("com.apple.TextEdit".into()),
        layout: Some(layout.into()),
        secure_input: false,
    }
}

fn engine() -> Engine {
    let models = models();
    assert!(!models.is_empty());
    Engine::new(
        models,
        Config {
            layouts: vec!["us".into(), "ru".into()],
            ..Config::default()
        },
    )
}

/// Type a string and return the last non-None action.
fn type_str(e: &mut Engine, s: &str, layout: &str) -> Action {
    let c = ctx(layout);
    let mut last = Action::Nothing;
    for ch in s.chars() {
        let ev = if ch == ' ' {
            special(Key::Space)
        } else {
            key(ch)
        };
        let action = e.on_key(&ev, &c);
        if action != Action::Nothing {
            last = action;
        }
    }
    last
}

#[test]
fn corrects_a_word_at_the_space() {
    let mut e = engine();
    let action = type_str(&mut e, "ghbdtn ", "us");
    assert_eq!(
        action,
        Action::Replace {
            delete: 7,
            text: "привет ".into(),
            switch_to: Some("ru".into()),
        }
    );
    assert_eq!(e.stats().corrections, 1);
}

#[test]
fn leaves_correct_words_untouched() {
    let mut e = engine();
    assert_eq!(type_str(&mut e, "hello world ", "us"), Action::Nothing);
    assert_eq!(e.stats().corrections, 0);
}

#[test]
fn keeps_trailing_punctuation_and_puts_it_back() {
    let mut e = engine();
    // `!` is punctuation on both layouts, so it is set aside and restored.
    let action = type_str(&mut e, "ghbdtn! ", "us");
    assert_eq!(
        action,
        Action::Replace {
            delete: 8,
            text: "привет! ".into(),
            switch_to: Some("ru".into()),
        }
    );
}

#[test]
fn does_not_strip_punctuation_that_is_a_cyrillic_letter() {
    let mut e = engine();
    // The trailing `,` is the letter б, part of the word "рыб".
    let action = type_str(&mut e, "hs, ", "us");
    match action {
        Action::Replace { text, .. } => {
            assert!(text.starts_with("рыб"), "expected рыб, got {text:?}");
        }
        Action::Nothing => panic!("expected a correction for 'hs,'"),
    }
}

#[test]
fn ignores_its_own_typing() {
    let mut e = engine();
    // Rekey replaying a correction must not be read back as user input, or
    // the app would keep correcting its own output.
    for ch in "ghbdtn".chars() {
        let mut ev = key(ch);
        ev.synthetic = true;
        assert_eq!(e.on_key(&ev, &ctx("us")), Action::Nothing);
    }
    let mut space = special(Key::Space);
    space.synthetic = true;
    assert_eq!(e.on_key(&space, &ctx("us")), Action::Nothing);
    assert_eq!(e.stats().corrections, 0);
}

#[test]
fn does_not_convert_gibberish_into_other_gibberish() {
    let mut e = engine();
    // Readings that are not words in either language, and are not one
    // letter from one either. Rewriting one nonsense string as another is
    // pure churn.
    for gibberish in ["qxzvj ", "vbxzq ", "zxcvq ", "wqxzj "] {
        assert_eq!(
            type_str(&mut e, gibberish, "us"),
            Action::Nothing,
            "{gibberish:?} should be left alone"
        );
    }
}

#[test]
fn a_word_with_one_letter_wrong_is_still_corrected() {
    // "hbdtn" reads as "ривет" — привет with a dropped п. That is a typing
    // slip, not nonsense, and refusing it would mean Rekey stops working
    // the moment someone fumbles a key. It corrects the layout and leaves
    // the slip: this is not a spell checker.
    let mut e = engine();
    let action = type_str(&mut e, "hbdtn ", "us");
    assert_eq!(replaced_text(&action), "ривет ");
    assert_eq!(action.layout_switch(), Some("ru"));
}

#[test]
fn stands_down_in_password_fields() {
    let mut e = engine();
    let secure = Context {
        secure_input: true,
        ..ctx("us")
    };
    for ch in "ghbdtn".chars() {
        e.on_key(&key(ch), &secure);
    }
    assert_eq!(e.on_key(&special(Key::Space), &secure), Action::Nothing);
    assert_eq!(e.stats().corrections, 0);
}

#[test]
fn stands_down_in_excluded_apps() {
    let mut e = engine();
    let terminal = Context {
        app: Some("com.googlecode.iterm2".into()),
        ..ctx("us")
    };
    for ch in "ghbdtn".chars() {
        e.on_key(&key(ch), &terminal);
    }
    assert_eq!(e.on_key(&special(Key::Space), &terminal), Action::Nothing);
}

#[test]
fn a_shortcut_discards_the_word_in_progress() {
    let mut e = engine();
    for ch in "ghbdt".chars() {
        e.on_key(&key(ch), &ctx("us"));
    }
    let mut save = key('s');
    save.modifiers.meta = true;
    e.on_key(&save, &ctx("us"));
    // "n " alone is not a word, and the earlier letters are gone.
    assert_eq!(type_str(&mut e, "n ", "us"), Action::Nothing);
}

#[test]
fn switching_apps_discards_the_word_in_progress() {
    let mut e = engine();
    for ch in "ghbdt".chars() {
        e.on_key(&key(ch), &ctx("us"));
    }
    let other = Context {
        app: Some("com.apple.Safari".into()),
        ..ctx("us")
    };
    e.on_key(&key('n'), &other);
    assert_eq!(e.on_key(&special(Key::Space), &other), Action::Nothing);
}

#[test]
fn arrow_keys_discard_the_word_in_progress() {
    let mut e = engine();
    for ch in "ghbdt".chars() {
        e.on_key(&key(ch), &ctx("us"));
    }
    e.on_key(&special(Key::Navigation), &ctx("us"));
    assert_eq!(type_str(&mut e, "n ", "us"), Action::Nothing);
}

#[test]
fn undo_restores_the_original_and_learns_the_exception() {
    let mut e = engine();
    type_str(&mut e, "ghbdtn ", "us");
    let undo = e.undo();
    assert_eq!(
        undo,
        Action::Replace {
            delete: 7,
            text: "ghbdtn ".into(),
            switch_to: Some("us".into()),
        }
    );
    assert_eq!(e.stats().undos, 1);
    // Having been overruled once, it does not try again.
    assert_eq!(type_str(&mut e, "ghbdtn ", "us"), Action::Nothing);
}

#[test]
fn undo_without_a_correction_does_nothing() {
    let mut e = engine();
    assert_eq!(e.undo(), Action::Nothing);
}

#[test]
fn manual_hotkey_converts_below_threshold() {
    let mut e = engine();
    // Two letters that the detector would never touch on its own.
    for ch in "qx".chars() {
        e.on_key(&key(ch), &ctx("us"));
    }
    match e.force_convert("us") {
        Action::Replace { delete, text, .. } => {
            assert_eq!(delete, 2);
            assert_eq!(text, "йч");
        }
        Action::Nothing => panic!("manual conversion should always act"),
    }
}

#[test]
fn a_correction_also_asks_for_the_layout_to_switch() {
    // Fixing the word but leaving the keyboard on English means the very
    // next word is wrong again.
    let mut e = engine();
    let action = type_str(&mut e, "ghbdtn ", "us");
    assert_eq!(action.layout_switch(), Some("ru"));
}

#[test]
fn tapping_option_cycles_the_last_word() {
    let mut e = engine();
    // A word Rekey leaves alone, because it is real English.
    assert_eq!(type_str(&mut e, "hello ", "us"), Action::Nothing);

    // One tap converts it anyway; that is the point of the shortcut.
    let first = tap_alt(&mut e, "us");
    assert_eq!(replaced_text(&first), "руддщ ");
    assert_eq!(first.layout_switch(), Some("ru"));

    // Another tap comes back round to exactly what was typed.
    let second = tap_alt(&mut e, "us");
    assert_eq!(replaced_text(&second), "hello ");
    assert_eq!(second.layout_switch(), Some("us"));

    // And it keeps going, as many times as asked.
    let third = tap_alt(&mut e, "us");
    assert_eq!(replaced_text(&third), "руддщ ");
}

#[test]
fn cycling_back_teaches_rekey_to_leave_that_word_alone() {
    let mut e = engine();
    assert!(type_str(&mut e, "ghbdtn ", "us") != Action::Nothing);
    assert_eq!(e.stats().corrections, 1);

    // The user disagrees and taps Option to get their text back.
    let back = tap_alt(&mut e, "us");
    assert_eq!(replaced_text(&back), "ghbdtn ");
    assert_eq!(e.stats().undos, 1);

    // Having been overruled once, it does not try again.
    assert_eq!(type_str(&mut e, "ghbdtn ", "us"), Action::Nothing);
}

#[test]
fn cycling_through_three_layouts_visits_each_reading() {
    let mut e = Engine::new(
        models(),
        Config {
            layouts: vec!["us".into(), "ru".into(), "uk".into()],
            ..Config::default()
        },
    );
    type_str(&mut e, "ds ", "us");
    let mut seen = Vec::new();
    for _ in 0..3 {
        seen.push(replaced_text(&tap_alt(&mut e, "us")).to_string());
    }
    // Russian and Ukrainian render this differently, so all three readings
    // must be reachable rather than toggling between two.
    assert_eq!(seen.len(), 3);
    assert!(
        seen.contains(&"ds ".to_string()),
        "original missing: {seen:?}"
    );
    assert!(
        seen.iter().collect::<std::collections::HashSet<_>>().len() == 3,
        "expected three distinct readings, got {seen:?}"
    );
}

#[test]
fn holding_option_to_type_an_accent_is_not_a_shortcut() {
    let mut e = engine();
    type_str(&mut e, "hello ", "us");
    let c = ctx("us");
    // Option down, then a real keypress, then Option up: that is someone
    // typing ´ or ˆ, not reaching for the shortcut.
    e.on_key(&alt(true), &c);
    e.on_key(&key('e'), &c);
    let released = e.on_key(&alt(false), &c);
    assert_eq!(released, Action::Nothing);
}

#[test]
fn option_as_part_of_a_chord_is_not_a_shortcut() {
    let mut e = engine();
    type_str(&mut e, "hello ", "us");
    let c = ctx("us");
    // ⌥⌘ — someone reaching for an app shortcut, not tapping Option.
    e.on_key(&alt(true), &c);
    let chord = KeyEvent {
        character: None,
        key: Key::ModifiersChanged,
        modifiers: Modifiers {
            alt: true,
            meta: true,
            ..Default::default()
        },
        synthetic: false,
    };
    e.on_key(&chord, &c);
    assert_eq!(e.on_key(&alt(false), &c), Action::Nothing);
}

#[test]
fn the_shortcut_acts_on_the_word_being_typed_not_an_earlier_one() {
    let mut e = engine();
    // A finished word, then a second one still in progress.
    type_str(&mut e, "hello ", "us");
    for ch in "ghbdtn".chars() {
        e.on_key(&key(ch), &ctx("us"));
    }
    // The caret sits after "ghbdtn", so that is what must be rewritten.
    let action = tap_alt(&mut e, "us");
    match action {
        Action::Replace { delete, text, .. } => {
            assert_eq!(delete, 6, "should delete exactly the word in progress");
            assert_eq!(text, "привет");
        }
        Action::Nothing => panic!("expected the in-progress word to be cycled"),
    }
}

#[test]
fn the_shortcut_survives_rekeys_own_layout_switch() {
    // The reported case: type Cyrillic on the Russian layout, let Rekey
    // correct it to English — which also switches the keyboard — and then
    // reach for the shortcut. Rekey must not read its own switch as the
    // user changing context and discard the word it just corrected.
    let mut e = engine();

    // "руддщ" typed on the Russian layout is "hello" on English.
    let typed = rekey_core_convert("hello", "us", "ru");
    let correction = type_str(&mut e, &format!("{typed} "), "ru");
    assert_eq!(replaced_text(&correction), "hello ");
    assert_eq!(correction.layout_switch(), Some("us"));

    // The system layout now follows, exactly as the app makes it.
    let action = tap_alt(&mut e, "us");
    assert_eq!(
        replaced_text(&action),
        format!("{typed} "),
        "the shortcut should put back what was originally typed"
    );
}

#[test]
fn a_layout_change_the_user_made_still_clears_the_record() {
    // Only Rekey's *own* switch is exempt. If the user changes layout
    // themselves, Rekey has no idea what happened in between.
    let mut e = engine();
    type_str(&mut e, "hello ", "us");
    // No correction happened, so no switch was expected.
    assert_eq!(tap_alt(&mut e, "uk"), Action::Nothing);
}

#[test]
fn caret_movement_makes_the_shortcut_inert() {
    // After an arrow key Rekey has no idea what is behind the caret, so
    // rewriting anything would be a guess at the user's expense.
    let mut e = engine();
    type_str(&mut e, "hello ", "us");
    e.on_key(&special(Key::Navigation), &ctx("us"));
    assert_eq!(tap_alt(&mut e, "us"), Action::Nothing);
}

#[test]
fn the_shortcut_never_acts_on_a_stale_word() {
    // A word with no alternative reading must clear the record, or the
    // shortcut would later delete and retype an earlier word that is no
    // longer under the caret — which shows up as stray letters appearing
    // in the wrong place.
    let mut e = engine();
    type_str(&mut e, "hello ", "us");
    assert!(e.last_word.is_some(), "a cyclable word should be recorded");

    // "42" is refused as not-a-word, so it yields no cycle.
    type_str(&mut e, "42 ", "us");
    assert!(
        e.last_word.is_none(),
        "the earlier word must not still be cyclable"
    );
    assert_eq!(tap_alt(&mut e, "us"), Action::Nothing);
}

#[test]
fn the_shortcut_modifier_is_configurable() {
    let mut e = engine_with_shortcut(Shortcut::Tap {
        modifier: Modifier::Shift,
    });
    type_str(&mut e, "hello ", "us");

    // Option is no longer the trigger …
    assert_eq!(tap_alt(&mut e, "us"), Action::Nothing);

    // … Shift is.
    let action = tap(
        &mut e,
        "us",
        Modifiers {
            shift: true,
            ..Default::default()
        },
    );
    assert_eq!(replaced_text(&action), "руддщ ");
}

#[test]
fn a_double_tap_shortcut_needs_both_taps() {
    let mut e = engine_with_shortcut(Shortcut::DoubleTap {
        modifier: Modifier::Option,
    });
    type_str(&mut e, "hello ", "us");

    // One tap arms and does nothing — which is the point, since Option is
    // also used in ordinary chords.
    assert_eq!(tap_alt(&mut e, "us"), Action::Nothing);
    // The second fires.
    assert_eq!(replaced_text(&tap_alt(&mut e, "us")), "руддщ ");
}

#[test]
fn the_shortcut_can_be_switched_off_entirely() {
    let mut e = engine_with_shortcut(Shortcut::Off);
    type_str(&mut e, "hello ", "us");
    assert_eq!(tap_alt(&mut e, "us"), Action::Nothing);
    assert_eq!(tap_alt(&mut e, "us"), Action::Nothing);
}

#[test]
fn an_ambiguous_word_is_queued_for_the_assist_and_left_alone() {
    let mut e = engine();
    let mut cfg = e.config().clone();
    cfg.ai_assist = true;
    e.set_config(cfg);
    let assist = Arc::new(FakeAssist::default());
    e.set_assist(Some(assist.clone()));

    // Feed words until one lands in the ambiguous band.
    for word in ["ntcn", "vjq", "hfp", "ldf", "ytn", "ds,", "rjn"] {
        type_str(&mut e, &format!("{word} "), "us");
    }
    // Whatever was ambiguous went to the assist, and nothing was rewritten
    // on a guess in the meantime.
    let asked = assist.asked.lock().unwrap();
    for question in asked.iter() {
        assert!(!question.typed.is_empty());
        assert_ne!(question.typed, question.alternative);
        assert_eq!(question.typed_language, "en");
    }
}

#[test]
fn a_learned_assist_verdict_converts_an_ambiguous_word() {
    // Find a word the detector genuinely calls ambiguous, so the test
    // exercises the path rather than assuming which word qualifies.
    let probe = engine();
    let ambiguous = ["ntcn", "vjq", "hfp", "ldf", "ytn", "rjn", "ds,", "yt"]
        .iter()
        .find(|w| matches!(probe.detector.evaluate(w, "us"), Verdict::Ambiguous(_)))
        .copied();
    let Some(word) = ambiguous else {
        // Nothing in the sample is ambiguous with the shipped models; the
        // queueing test above still covers the wiring.
        return;
    };

    let mut e = engine();
    let mut cfg = e.config().clone();
    cfg.ai_assist = true;
    e.set_config(cfg);
    e.set_assist(Some(Arc::new(FakeAssist::with_answer(
        word, true,
    ))));

    let action = type_str(&mut e, &format!("{word} "), "us");
    assert!(
        action != Action::Nothing,
        "a learned 'convert' verdict should be acted on for {word:?}"
    );
}

#[test]
fn the_assist_is_ignored_when_the_setting_is_off() {
    let mut e = engine();
    // ai_assist defaults to false.
    let assist = Arc::new(FakeAssist::default());
    e.set_assist(Some(assist.clone()));
    for word in ["ntcn", "vjq", "hfp", "ldf", "ytn"] {
        type_str(&mut e, &format!("{word} "), "us");
    }
    assert!(
        assist.asked.lock().unwrap().is_empty(),
        "nothing should leave the machine while the assist is switched off"
    );
}

#[test]
fn the_shortcut_does_nothing_before_any_word() {
    let mut e = engine();
    assert_eq!(tap_alt(&mut e, "us"), Action::Nothing);
}

#[test]
fn disabled_engine_does_nothing() {
    let mut e = engine();
    let mut cfg = e.config().clone();
    cfg.enabled = false;
    e.set_config(cfg);
    assert_eq!(type_str(&mut e, "ghbdtn ", "us"), Action::Nothing);
}

#[test]
fn unknown_layout_is_never_guessed() {
    let mut e = engine();
    let unknown = Context {
        layout: None,
        ..ctx("us")
    };
    for ch in "ghbdtn".chars() {
        e.on_key(&key(ch), &unknown);
    }
    assert_eq!(e.on_key(&special(Key::Space), &unknown), Action::Nothing);
}

#[test]
fn a_word_in_the_band_is_settled_by_the_assist() {
    // Two readings of which neither is a word, the other one likelier, but not
    // likely enough.
    let mut models = Models::new();
    models.insert(train("en", &[("hello", 900)]));
    models.insert(train("ru", &[("привет", 900), ("приток", 900), ("сирота", 300), ("мир", 100)]));
    let config = Config {
        layouts: vec!["us".into(), "ru".into()],
        ai_assist: true,
        ..Config::default()
    };
    let word = convert_by_id("привар", "ru", "us").unwrap();
    let mut e = Engine::new(models, config);
    match e.detector.evaluate(&word, "us") {
        Verdict::Ambiguous(c) => assert_eq!(c.converted, "привар"),
        other => panic!("expected an ambiguous word, got {other:?}"),
    }

    // Without anyone to ask it stays.
    assert_eq!(type_str(&mut e, &format!("{word} "), "us"), Action::Nothing);

    // Unknown to the assist, it stays and is asked about.
    let assist = Arc::new(FakeAssist::default());
    e.set_assist(Some(assist.clone()));
    assert!(e.has_assist());
    assert_eq!(type_str(&mut e, &format!("{word} "), "us"), Action::Nothing);
    {
        let asked = assist.asked.lock().unwrap();
        assert_eq!(asked.len(), 1);
        assert_eq!(asked[0].typed, word);
        assert_eq!(asked[0].alternative, "привар");
        assert_eq!(asked[0].typed_language, "en");
        assert_eq!(asked[0].alternative_language, "ru");
    }

    // An answer against keeps it, one in favour converts it.
    e.set_assist(Some(Arc::new(FakeAssist::with_answer(&word, false))));
    assert_eq!(type_str(&mut e, &format!("{word} "), "us"), Action::Nothing);
    e.set_assist(Some(Arc::new(FakeAssist::with_answer(&word, true))));
    assert_eq!(e.assist_learned(), 1);
    assert_eq!(
        type_str(&mut e, &format!("{word} "), "us"),
        Action::Replace {
            delete: 7,
            text: "привар ".into(),
            switch_to: Some("ru".into()),
        }
    );
    e.set_assist(None);
    assert_eq!(e.assist_learned(), 0);
}

#[test]
fn taps_are_timed() {
    let ms = 1_000_000u64;
    let c = ctx("us");
    let mut e = engine();
    type_str(&mut e, "hello ", "us");
    // Held for too long.
    e.on_key_at(&alt(true), &c, 1000 * ms);
    assert_eq!(e.on_key_at(&alt(false), &c, 1601 * ms), Action::Nothing);
    // Just in time.
    e.on_key_at(&alt(true), &c, 2000 * ms);
    assert_eq!(
        replaced_text(&e.on_key_at(&alt(false), &c, 2600 * ms)),
        "руддщ "
    );

    let mut e = engine_with_shortcut(Shortcut::DoubleTap {
        modifier: Modifier::Option,
    });
    type_str(&mut e, "hello ", "us");
    let mut tap_at = |e: &mut Engine, at: u64| {
        e.on_key_at(&alt(true), &c, at * ms);
        e.on_key_at(&alt(false), &c, at * ms)
    };
    assert_eq!(tap_at(&mut e, 1000), Action::Nothing);
    // Too late: this one arms again.
    assert_eq!(tap_at(&mut e, 1501), Action::Nothing);
    assert_eq!(replaced_text(&tap_at(&mut e, 2001)), "руддщ ");
    // Fired: the next one arms.
    assert_eq!(tap_at(&mut e, 2002), Action::Nothing);
}

#[test]
fn the_record_follows_the_screen() {
    let mut e = engine();
    let mut screen = String::from("ghbdtn ");
    let mut show = |action: &Action| match action {
        Action::Replace { delete, text, .. } => {
            for _ in 0..*delete {
                screen.pop();
            }
            screen.push_str(text);
            screen.clone()
        }
        Action::Nothing => screen.clone(),
    };
    let corrected = type_str(&mut e, "ghbdtn ", "us");
    assert_eq!(show(&corrected), "привет ");
    assert_eq!(show(&e.cycle_last_word()), "ghbdtn ");
    assert_eq!(show(&e.cycle_last_word()), "привет ");
    assert_eq!(show(&e.undo()), "ghbdtn ");
    // Already back: nothing more to undo, and only the automatic pick counted.
    assert_eq!(e.undo(), Action::Nothing);
    assert_eq!(e.stats().undos, 1);
}

#[test]
fn a_word_overruled_with_punctuation_is_left_alone() {
    let mut models = models();
    models.insert(train("ru", &[("спасибо", 900)]));
    let mut e = Engine::new(models, Config::default());
    let action = type_str(&mut e, "cgfcb,j ", "us");
    assert_eq!(
        action,
        Action::Replace {
            delete: 8,
            text: "спасибо ".into(),
            switch_to: Some("ru".into()),
        }
    );
    assert_eq!(
        e.undo(),
        Action::Replace {
            delete: 8,
            text: "cgfcb,j ".into(),
            switch_to: Some("us".into()),
        }
    );
    assert_eq!(e.config().exceptions, vec!["cgfcb,j".to_string()]);
    assert!(e.config().is_exception("cgfcb,j") && e.config().is_exception("CGFCB,J"));
    assert!(!e.config().is_exception("cgfcbj"));
    assert_eq!(type_str(&mut e, "cgfcb,j ", "us"), Action::Nothing);
    // Punctuation around the word makes no other word of it.
    assert_eq!(type_str(&mut e, "cgfcb,j! ", "us"), Action::Nothing);
}

#[test]
fn what_is_remembered_is_the_word_proper() {
    let mut e = engine();
    assert_eq!(replaced_text(&type_str(&mut e, "Ghbdtn! ", "us")), "Привет! ");
    assert_eq!(replaced_text(&e.cycle_last_word()), "Ghbdtn! ");
    assert_eq!(e.config().exceptions, vec!["ghbdtn".to_string()]);
    assert_eq!(type_str(&mut e, "ghbdtn ", "us"), Action::Nothing);
    assert_eq!(type_str(&mut e, "Ghbdtn ", "us"), Action::Nothing);
    assert_eq!(e.config().exceptions.len(), 1);
}

/// A writer that can press keys.
struct Keyboard {
    log: Vec<String>,
}

impl TextWriter for Keyboard {
    fn backspace(&mut self, count: usize) {
        self.log.push(format!("delete {count}"));
    }

    fn type_text(&mut self, text: &str) {
        self.log.push(format!("type {text}"));
    }

    fn type_keys(&mut self, presses: &Vec<KeyPress>) -> bool {
        self.log.push(format!("press {}", presses.len()));
        true
    }
}

#[test]
fn keys_are_pressed_where_the_writer_can() {
    let action = Action::Replace {
        delete: 7,
        text: "привет ".into(),
        switch_to: Some("ru".into()),
    };
    let mut keyboard = Keyboard { log: Vec::new() };
    assert!(action.apply_on(Some("ru"), &mut keyboard));
    assert_eq!(keyboard.log, vec!["delete 7", "press 7"]);
    // Without the layout, and for a text that its keys do not make, it is typed.
    assert!(!action.apply_on(None, &mut keyboard));
    assert!(!action.apply_on(Some("us"), &mut keyboard));
    assert_eq!(
        keyboard.log[2..],
        ["delete 7", "type привет ", "delete 7", "type привет "]
    );
}

#[test]
fn an_action_is_carried_out() {
    let action = Action::Replace {
        delete: 7,
        text: "привет ".into(),
        switch_to: Some("ru".into()),
    };
    let mut writer = RecordingInjector::new();
    action.apply(&mut writer);
    assert_eq!(
        writer.taken(),
        vec![Recorded::Backspace(7), Recorded::Type("привет ".into())]
    );
    // This writer cannot press keys, so the text is typed.
    assert!(!action.apply_on(Some("ru"), &mut writer));
    assert_eq!(
        writer.taken(),
        vec![Recorded::Backspace(7), Recorded::Type("привет ".into())]
    );
    let insert = Action::Replace {
        delete: 0,
        text: "a".into(),
        switch_to: None,
    };
    insert.apply_on(None, &mut writer);
    assert_eq!(writer.taken(), vec![Recorded::Type("a".into())]);
    assert_eq!(insert.layout_switch(), None);
    Action::Nothing.apply(&mut writer);
    Action::Nothing.apply_on(Some("us"), &mut writer);
    assert_eq!(writer.taken(), Vec::new());
    assert_eq!(Action::Nothing.layout_switch(), None);
}

#[test]
fn punctuation_in_front_is_kept_too() {
    let mut e = engine();
    assert_eq!(
        replaced_text(&type_str(&mut e, "(ghbdtn)! ", "us")),
        "(привет)! "
    );
}

#[test]
fn tabs_and_line_breaks_end_words() {
    for (k, c) in [(Key::Tab, '\t'), (Key::Enter, '\n')] {
        let mut e = engine();
        type_str(&mut e, "ghbdtn", "us");
        let action = e.on_key(&special(k), &ctx("us"));
        assert_eq!(replaced_text(&action), format!("привет{c}"));
    }
}

#[test]
fn only_a_tap_acts() {
    let c = ctx("us");
    let hold = |modifiers: Modifiers| modifier_event(modifiers);
    let none = Modifiers::default();
    let option = Modifiers { alt: true, ..none };
    let chord = Modifiers { alt: true, shift: true, ..none };
    let ms = 1_000_000u64;
    // Each history ends with the release of Option.
    let histories: Vec<(Vec<(KeyEvent, u64)>, bool)> = vec![
        (vec![(hold(option), 0), (hold(none), 600 * ms)], true),
        (vec![(hold(option), 0), (hold(none), 600 * ms + 1)], false),
        // Changes that leave it alone do not matter.
        (vec![(hold(option), 0), (hold(option), 10), (hold(none), 20)], true),
        (vec![(hold(option), 0), (hold(chord), 10), (hold(option), 20), (hold(none), 30)], false),
        (vec![(hold(chord), 0), (hold(option), 10), (hold(none), 20)], false),
        (vec![(hold(none), 0)], false),
        // Only what the user types comes in between.
        (
            vec![
                (hold(option), 0),
                (KeyEvent { synthetic: true, ..key('x') }, 10),
                (hold(none), 20),
            ],
            true,
        ),
    ];
    for (history, acts) in histories {
        let mut e = engine();
        type_str(&mut e, "ghbdtn ", "us");
        let mut action = Action::Nothing;
        for (event, now) in &history {
            action = e.on_key_at(event, &c, *now);
        }
        assert_eq!(action != Action::Nothing, acts, "{history:?}");
        if acts {
            assert_eq!(replaced_text(&action), "ghbdtn ");
        }
    }
    // A key in between makes it no tap.
    let mut e = engine();
    type_str(&mut e, "ghbdtn ", "us");
    e.on_key_at(&hold(option), &c, 0);
    e.on_key_at(&key('a'), &c, 10);
    assert_eq!(e.on_key_at(&hold(none), &c, 20), Action::Nothing);
}

#[test]
fn questions_are_equal_by_what_they_say() {
    let q = Question {
        typed: "a".into(),
        alternative: "b".into(),
        typed_language: "en".into(),
        alternative_language: "ru".into(),
    };
    assert!(q == q.clone());
    assert!(q != Question { alternative_language: "uk".into(), ..q.clone() });
}

#[test]
fn nothing_typed_before_the_caret_moved_is_deleted() {
    let forgetting: Vec<KeyEvent> = vec![
        special(Key::Navigation),
        special(Key::Escape),
        KeyEvent {
            modifiers: Modifiers {
                meta: true,
                ..Default::default()
            },
            ..key('v')
        },
    ];
    for event in forgetting {
        let mut e = engine();
        type_str(&mut e, "ghbdtn ghb", "us");
        assert_eq!(e.on_key(&event, &ctx("us")), Action::Nothing);
        assert_eq!(e.undo(), Action::Nothing);
        assert_eq!(tap_alt(&mut e, "us"), Action::Nothing);
        assert_eq!(e.force_convert("us"), Action::Nothing);
        // From here on only what is typed later is deleted.
        let mut screen: Vec<char> = "the older text ".chars().collect();
        let mut carry = |typed: &str, action: Action| {
            screen.extend(typed.chars());
            if let Action::Replace { delete, text, .. } = action {
                screen.truncate(screen.len() - delete);
                screen.extend(text.chars());
            }
            screen.iter().collect::<String>()
        };
        let action = type_str(&mut e, "ghbdtn ", "us");
        assert_eq!(carry("ghbdtn ", action), "the older text привет ");
        for shown in ["ghbdtn ", "привет ", "ghbdtn "] {
            let action = e.cycle_last_word();
            assert_eq!(carry("", action), format!("the older text {shown}"));
        }
        type_str(&mut e, "ghb", "us");
        let action = e.force_convert("us");
        assert_eq!(carry("ghb", action), "the older text ghbdtn при");
    }
}
