use rekey::config::{Config, Modifier, Sensitivity, Shortcut};
use rekey::corpus::trigram_sources;
use rekey::detect::Detector;
use rekey::engine::Engine;
use rekey::model::{hash_str, normalize, Model, Models};
use rekey::settings::{
    layout_catalog, models_loaded, preview, sensitivity_key, shortcut_to_string, ui_state,
    Settings,
};
use rekey::single::Single;

/// A model trained on these words, as the application trains it.
fn train(lang: &str, counts: &[(&str, u64)]) -> Model {
    let counts: Vec<(String, u64)> = counts
        .iter()
        .map(|(w, n)| (w.to_string(), *n))
        .collect();
    let total: f64 = counts.iter().map(|(_, n)| *n as f64).sum();
    let words = counts
        .iter()
        .map(|(w, n)| {
            let p = *n as f64 / total;
            (hash_str(&normalize(w)), Single { bits: (p.log10() as f32).to_bits() })
        })
        .collect();
    let weights: Vec<(String, f64)> = trigram_sources(&counts)
        .into_iter()
        .map(|(t, list)| (t, list.iter().map(|n| (*n as f64).ln().max(1.0)).sum()))
        .collect();
    let tri_total: f64 = weights.iter().map(|(_, w)| *w).sum();
    let tris = weights
        .iter()
        .map(|(t, w)| {
            (hash_str(t), Single { bits: ((w / tri_total).log10() as f32).to_bits() })
        })
        .collect();
    Model::from_tables(lang, words, tris)
}

fn models() -> Models {
    let mut models = Models::new();
    models.insert(train("ru", &[("привет", 900), ("мир", 900)]));
    models.insert(train("en", &[("hello", 900), ("world", 900)]));
    models
}

#[test]
fn settings_start_empty_and_change_piece_by_piece() {
    let mut s = Settings::default();
    assert!(!s.has_api_key() && !s.launch_at_login && s.config.enabled);
    assert!(s.assist("judge-1").is_none());
    let config = Config {
        ai_assist: true,
        ..Config::default()
    };
    s.change(config.clone(), None, Some(true));
    assert!(s.launch_at_login && s.config.ai_assist && s.api_key.is_empty());
    // Switched on, but without a key.
    assert!(s.assist("judge-1").is_none());
    s.change(config, Some("key".into()), None);
    assert!(s.launch_at_login && s.has_api_key());
    let assist = s.assist("judge-1").expect("switched on, with a key");
    assert_eq!(assist.config.api_key, "key");
    assert_eq!(assist.config.model, "judge-1");
    s.change(Config::default(), Some("  ".into()), Some(false));
    assert!(!s.has_api_key() && s.assist("judge-1").is_none());
}

#[test]
fn shortcuts_are_spelled_flat() {
    assert_eq!(shortcut_to_string(Shortcut::Off), "off");
    for (modifier, word) in [
        (Modifier::Option, "option"),
        (Modifier::Shift, "shift"),
        (Modifier::Control, "control"),
        (Modifier::Command, "command"),
    ] {
        assert_eq!(
            shortcut_to_string(Shortcut::Tap { modifier }),
            format!("tap:{word}")
        );
        assert_eq!(
            shortcut_to_string(Shortcut::DoubleTap { modifier }),
            format!("doubletap:{word}")
        );
    }
    assert_eq!(sensitivity_key(Sensitivity::Cautious), "cautious");
    assert_eq!(sensitivity_key(Sensitivity::Balanced), "balanced");
    assert_eq!(sensitivity_key(Sensitivity::Eager), "eager");
}

#[test]
fn the_catalog_lists_every_layout() {
    let all = layout_catalog();
    assert_eq!(all.len(), 10);
    assert_eq!((all[0].id.as_str(), all[0].limited), ("us", false));
    assert_eq!((all[1].id.as_str(), all[1].limited), ("ru", false));
    assert_eq!(all[1].language, "ru");
    let german = all.iter().find(|l| l.id == "de").unwrap();
    assert!(german.limited);
    assert!(german.name.contains("German"));
}

#[test]
fn languages_are_listed_in_order() {
    let mut m = models();
    m.insert(Model::new("uk"));
    m.insert(Model::new("de"));
    assert_eq!(models_loaded(&m), vec!["de", "en", "ru", "uk"]);
}

#[test]
fn a_preview_types_nothing() {
    let d = Detector::new(models(), Config::default());
    let shown = preview(&d, "  ghbdtn,  hello\t(vbh)! ", "us");
    // The comma is a letter on the Russian layout, so that the first word is none.
    assert_eq!(shown.output, "ghbdtn, hello (мир)!");
    assert!(shown.changed);
    let same = preview(&d, "hello world", "us");
    assert_eq!(same.output, "hello world");
    assert!(!same.changed);
    assert_eq!(preview(&d, "", "us").output, "");
}

#[test]
fn the_window_shows_the_engine() {
    let engine = Engine::new(models(), Config::default());
    let ui = ui_state(&engine, &Settings::default());
    assert!(ui.enabled && ui.skip_all_caps && !ui.ai_assist && !ui.assist_active);
    assert_eq!(ui.layouts, vec!["us", "ru"]);
    assert_eq!(ui.sensitivity, "balanced");
    assert_eq!(ui.shortcut, "tap:option");
    assert_eq!((ui.corrections, ui.undos, ui.assist_learned), (0, 0, 0));
    assert_eq!(ui.models_loaded, vec!["en", "ru"]);
    assert_eq!(ui.excluded_apps.len(), 9);
    assert_eq!(ui.available_layouts.len(), 10);
    assert!(!ui.has_api_key && !ui.launch_at_login && ui.exceptions.is_empty());
}
