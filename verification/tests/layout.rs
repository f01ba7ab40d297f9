use rekey::layout::{convert, convert_by_id, layout, layout_ids, presses_for, KeyPress, KEY_COUNT};
use rekey::tables::layout_defs;

#[test]
fn all_layouts_have_47_keys() {
    let defs = layout_defs();
    assert_eq!(layout_ids().len(), defs.len());
    for def in defs {
        let built = layout(def.id).unwrap();
        assert_eq!(built.slots.len(), 2 * KEY_COUNT);
        assert_eq!(def.lower.split(' ').count(), KEY_COUNT);
        assert_eq!(def.upper.split(' ').count(), KEY_COUNT);
    }
}

#[test]
fn en_to_ru_roundtrip() {
    assert_eq!(convert_by_id("ghbdtn", "us", "ru").unwrap(), "привет");
    assert_eq!(convert_by_id("привет", "ru", "us").unwrap(), "ghbdtn");
}

#[test]
fn ru_to_en_roundtrip() {
    assert_eq!(convert_by_id("руддщ", "ru", "us").unwrap(), "hello");
    assert_eq!(convert_by_id("hello", "us", "ru").unwrap(), "руддщ");
}

#[test]
fn ukrainian_differs_from_russian() {
    // s -> і on UA but ы on RU; ' -> є vs э
    assert_eq!(convert_by_id("s'", "us", "uk").unwrap(), "іє");
    assert_eq!(convert_by_id("s'", "us", "ru").unwrap(), "ыэ");
}

#[test]
fn hebrew_roundtrip() {
    let shalom = convert_by_id("akuo", "us", "he").unwrap();
    assert_eq!(convert_by_id(&shalom, "he", "us").unwrap(), "akuo");
}

#[test]
fn greek_roundtrip() {
    let g = convert_by_id("kalhmera", "us", "el").unwrap();
    assert_eq!(convert_by_id(&g, "el", "us").unwrap(), "kalhmera");
}

#[test]
fn qwertz_swaps_y_and_z() {
    assert_eq!(convert_by_id("yz", "us", "de").unwrap(), "zy");
}

#[test]
fn azerty_swaps_a_and_q() {
    assert_eq!(convert_by_id("aq", "us", "fr").unwrap(), "qa");
}

#[test]
fn unmappable_chars_pass_through() {
    assert_eq!(convert_by_id("hi 🎉 42", "us", "ru").unwrap(), "рш 🎉 42");
}

/// Layouts on which two keys give the same lowercase text.
const AMBIGUOUS_LOWER: &[&str] = &["ar"];

/// Layouts on which two keys give the same uppercase text.
const AMBIGUOUS_UPPER: &[&str] = &["ar", "el"];

#[test]
fn unambiguous_layouts_roundtrip_all_us_letters_exactly() {
    let us = layout("us").unwrap();
    let src = "abcdefghijklmnopqrstuvwxyz";
    for def in layout_defs() {
        if AMBIGUOUS_LOWER.contains(&def.id) {
            continue;
        }
        let other = layout(def.id).unwrap();
        let there = convert(src, &us, &other);
        let back = convert(&there, &other, &us);
        assert_eq!(back, src, "roundtrip failed for layout {}", def.id);
    }
}

#[test]
fn foreign_rendering_is_a_fixed_point_for_every_layout() {
    let us = layout("us").unwrap();
    let src = "abcdefghijklmnopqrstuvwxyz";
    for def in layout_defs() {
        let other = layout(def.id).unwrap();
        let once = convert(src, &us, &other);
        let twice = convert(&convert(&once, &other, &us), &us, &other);
        assert_eq!(once, twice, "not a fixed point for layout {}", def.id);
    }
}

#[test]
fn uppercase_roundtrips_for_bicameral_layouts() {
    let us = layout("us").unwrap();
    let src = "ABCDEFGHIJKLMNOPQRSTUVWXYZ";
    for id in ["ru", "uk", "el", "de", "es"] {
        if AMBIGUOUS_UPPER.contains(&id) {
            continue;
        }
        let other = layout(id).unwrap();
        let back = convert(&convert(src, &us, &other), &other, &us);
        assert_eq!(back, src, "uppercase roundtrip failed for {id}");
    }
}

#[test]
fn arabic_lam_alef_ligature_normalises() {
    let from_lig = convert_by_id("b", "us", "ar").unwrap();
    let from_pair = convert_by_id("gh", "us", "ar").unwrap();
    assert_eq!(from_lig, from_pair);
    assert_eq!(convert_by_id(&from_lig, "ar", "us").unwrap(), "gh");
}

#[test]
fn greek_final_sigma_collapses_in_uppercase() {
    assert_eq!(convert_by_id("ws", "us", "el").unwrap(), "ςσ");
    assert_eq!(convert_by_id("ςσ", "el", "us").unwrap(), "ws");
    assert_eq!(convert_by_id("WS", "us", "el").unwrap(), "ΣΣ");
}

#[test]
fn greek_accents_roundtrip_through_dead_keys() {
    assert_eq!(convert_by_id("ά", "el", "us").unwrap(), ";a");
    assert_eq!(convert_by_id(";a", "us", "el").unwrap(), "ά");
    let word = "μία";
    let latin = convert_by_id(word, "el", "us").unwrap();
    assert_eq!(convert_by_id(&latin, "us", "el").unwrap(), word);
}

#[test]
fn french_circumflex_roundtrips() {
    let word = "être";
    let latin = convert_by_id(word, "fr", "us").unwrap();
    assert_eq!(convert_by_id(&latin, "us", "fr").unwrap(), word);
}

#[test]
fn trailing_dead_key_shows_as_bare_accent() {
    assert_eq!(convert_by_id(";", "us", "el").unwrap(), "΄");
}

#[test]
fn coverage_detects_foreign_text() {
    let us = layout("us").unwrap();
    let ru = layout("ru").unwrap();
    assert!(f32::from_bits(us.coverage("hello").bits) > 0.99);
    assert!(f32::from_bits(us.coverage("привет").bits) < 0.01);
    assert!(f32::from_bits(ru.coverage("привет").bits) > 0.99);
}

#[test]
fn coverage_is_a_fraction_of_what_is_visible() {
    let us = layout("us").unwrap();
    assert_eq!(f32::from_bits(us.coverage("abп").bits), 2.0f32 / 3.0);
    assert_eq!(f32::from_bits(us.coverage("a п").bits), 0.5);
    assert_eq!(us.coverage(" \t\n").bits, 0);
    assert_eq!(us.coverage("").bits, 0);
    // An accented letter counts where the layout has its dead key.
    assert_eq!(f32::from_bits(layout("el").unwrap().coverage("ά").bits), 1.0);
    assert_eq!(f32::from_bits(us.coverage("ά").bits), 0.0);
}

#[test]
fn unknown_layouts_are_not_found() {
    assert!(layout("dvorak").is_none());
    assert!(layout("").is_none());
    assert!(convert_by_id("a", "us", "xx").is_none());
    assert!(convert_by_id("a", "xx", "us").is_none());
    assert_eq!(
        layout_ids(),
        vec!["us", "ru", "uk", "he", "ar", "el", "de", "fr", "es", "tr"]
    );
}

#[test]
fn keys_are_found_by_position() {
    let us = layout("us").unwrap();
    assert_eq!(us.id(), "us");
    assert_eq!(us.key_for('`'), Some((0, false)));
    assert_eq!(us.key_for('Q'), Some((13, true)));
    assert_eq!(us.key_for('/'), Some((46, false)));
    assert_eq!(us.key_for('ж'), None);
    assert_eq!(us.token_at(13, false), "q");
    assert_eq!(us.token_at(13, true), "Q");
    // A key that produces nothing.
    assert_eq!(layout("fr").unwrap().token_at(0, true), "");
    // A ligature.
    assert_eq!(layout("ar").unwrap().token_at(41, false), "لا");
    let el = layout("el").unwrap();
    assert!(el.is_dead_key(35, false));
    assert!(!el.is_dead_key(34, false));
    assert_eq!(el.token_at(35, false), "΄");
}

#[test]
fn two_dead_keys_in_a_row_leave_the_first_bare() {
    assert_eq!(convert_by_id(";;a", "us", "el").unwrap(), "΄ά");
    // A mark that cannot be composed stays beside its letter.
    let loose = convert_by_id(";b", "us", "el").unwrap();
    assert_eq!(loose, "β\u{301}");
}

#[test]
fn presses_name_keys_and_white_space() {
    assert_eq!(
        presses_for("aB ", "us").unwrap(),
        vec![
            KeyPress::Key { index: 26, shift: false },
            KeyPress::Key { index: 41, shift: true },
            KeyPress::Space,
        ]
    );
    assert_eq!(
        presses_for("\t\n", "us").unwrap(),
        vec![KeyPress::Tab, KeyPress::Enter]
    );
    // An accented letter is two keys.
    assert_eq!(presses_for("ά", "el").unwrap().len(), 2);
    // What no key produces cannot be pressed.
    assert!(presses_for("é", "us").is_none());
    assert!(presses_for("a", "xx").is_none());
}

#[test]
fn mixed_case_letters_come_back() {
    let us = layout("us").unwrap();
    let src = "ThequickBROWNfoxJumpsOverTheLazyDog";
    for id in ["us", "ru", "uk", "de", "fr", "es", "tr"] {
        let other = layout(id).unwrap();
        let back = convert(&convert(src, &us, &other), &other, &us);
        assert_eq!(back, src, "{id}");
    }
}

#[test]
fn the_key_of_a_character_types_it() {
    for def in layout_defs() {
        let l = layout(def.id).unwrap();
        for idx in 0..KEY_COUNT {
            for shifted in [false, true] {
                for c in l.token_at(idx, shifted).chars() {
                    let (i, s) = l.key_for(c).unwrap();
                    assert!(i < KEY_COUNT);
                    assert_eq!(l.token_at(i, s), c.to_string(), "{}", def.id);
                }
            }
        }
    }
}
