use rekey::hook::macos::{keycodes, layout_from_input_source, taps_for, VK_RETURN, VK_SPACE, VK_TAB};
use rekey::hook::noop::{Action, RecordingInjector};
use rekey::hook::windows::{VK_BACK, VK_LEFT};
use rekey::hook::macos::{Response, TapEvent};
use rekey::hook::{first_character, macos, noop, windows, HookError};
use rekey::input::{Key, KeyEvent, Modifiers, TextWriter};
use rekey::layout::{presses_for, KeyPress};

#[test]
fn maps_apple_input_sources_to_layouts() {
    assert_eq!(
        layout_from_input_source("com.apple.keylayout.US"),
        Some("us")
    );
    assert_eq!(
        layout_from_input_source("com.apple.keylayout.Russian"),
        Some("ru")
    );
    assert_eq!(
        layout_from_input_source("com.apple.keylayout.RussianWin"),
        Some("ru")
    );
    assert_eq!(
        layout_from_input_source("com.apple.keylayout.Hebrew-PC"),
        Some("he")
    );
    assert_eq!(
        layout_from_input_source("com.apple.keylayout.Ukrainian-PC"),
        Some("uk")
    );
}

#[test]
fn unknown_input_sources_are_not_guessed() {
    assert_eq!(
        layout_from_input_source("com.apple.inputmethod.Kotoeri"),
        None
    );
    assert_eq!(layout_from_input_source("com.apple.keylayout.Dvorak"), None);
}

#[test]
fn regional_input_sources_fall_back_to_the_longest_name() {
    assert_eq!(
        layout_from_input_source("com.apple.keylayout.GermanSwiss"),
        Some("de")
    );
    assert_eq!(layout_from_input_source("USInternational"), Some("us"));
    assert_eq!(layout_from_input_source(""), None);
}

#[test]
fn keycodes_match_the_layout_table_positions() {
    let presses = presses_for("привет ", "ru").unwrap();
    let codes: Vec<u16> = presses
        .iter()
        .map(|p| match *p {
            KeyPress::Key { index, .. } => keycodes()[index],
            KeyPress::Space => VK_SPACE,
            KeyPress::Tab => VK_TAB,
            KeyPress::Enter => VK_RETURN,
        })
        .collect();
    assert_eq!(
        codes,
        vec![5, 4, 11, 2, 17, 45, VK_SPACE],
        "g h b d t n, then the space that ended the word"
    );
}

#[test]
fn taps_carry_shift() {
    let presses = presses_for("Пр\t\n", "ru").unwrap();
    assert_eq!(
        taps_for(&presses).unwrap(),
        vec![(5, true), (4, false), (VK_TAB, false), (VK_RETURN, false)]
    );
    assert_eq!(
        taps_for(&vec![KeyPress::Key { index: 47, shift: false }]),
        None
    );
}

#[test]
fn every_keycode_is_distinct() {
    let mut seen = keycodes().to_vec();
    seen.sort_unstable();
    let before = seen.len();
    seen.dedup();
    assert_eq!(seen.len(), before, "duplicate key code in the table");
}

#[test]
fn macos_classifies_editing_keys() {
    assert_eq!(macos::classify(51, None), Key::Backspace);
    assert_eq!(macos::classify(49, Some(' ')), Key::Space);
    assert_eq!(macos::classify(123, None), Key::Navigation);
    assert_eq!(macos::classify(0, Some('a')), Key::Character);
}

#[test]
fn macos_knows_the_rest_of_the_keys() {
    assert_eq!(macos::classify(76, None), Key::Enter);
    assert_eq!(macos::classify(53, None), Key::Escape);
    assert_eq!(macos::classify(121, None), Key::Navigation);
    assert_eq!(macos::classify(0, Some('\u{1b}')), Key::Other);
    assert_eq!(macos::classify(0, None), Key::Other);
}

#[test]
fn modifier_keys_are_never_mistaken_for_whitespace() {
    for keycode in 54..=63 {
        assert_eq!(
            macos::classify(keycode, Some(' ')),
            Key::ModifiersChanged,
            "key code {keycode} should be a modifier, not a space"
        );
    }
}

#[test]
fn whitespace_is_recognised_by_key_not_by_character() {
    assert_eq!(macos::classify(49, Some(' ')), Key::Space);
    assert_eq!(macos::classify(48, Some('\t')), Key::Tab);
    assert_eq!(macos::classify(36, Some('\r')), Key::Enter);
    assert_eq!(macos::classify(0, Some(' ')), Key::Other);
}

#[test]
fn shortcuts_are_distinguished_from_typing() {
    assert!(Modifiers {
        meta: true,
        ..Default::default()
    }
    .is_shortcut());
    assert!(!Modifiers {
        alt: true,
        shift: true,
        ..Default::default()
    }
    .is_shortcut());
}

#[test]
fn maps_windows_langids_to_layouts() {
    assert_eq!(windows::layout_from_langid(0x0409), Some("us"));
    assert_eq!(windows::layout_from_langid(0x0419), Some("ru"));
    assert_eq!(windows::layout_from_langid(0x0422), Some("uk"));
    assert_eq!(windows::layout_from_langid(0x040D), Some("he"));
    assert_eq!(windows::layout_from_langid(0x0408), Some("el"));
}

#[test]
fn unknown_langids_are_not_guessed() {
    assert_eq!(windows::layout_from_langid(0x0411), None); // Japanese
    assert_eq!(windows::layout_from_langid(0x0404), None); // Chinese (Traditional)
}

#[test]
fn windows_classifies_editing_keys() {
    assert_eq!(windows::classify(VK_BACK, None), Key::Backspace);
    assert_eq!(windows::classify(windows::VK_SPACE, Some(' ')), Key::Space);
    assert_eq!(windows::classify(VK_LEFT, None), Key::Navigation);
    assert_eq!(windows::classify(0x41, Some('a')), Key::Character);
}

#[test]
fn windows_needs_no_permission() {
    assert!(windows::has_permission());
    assert!(windows::request_permission());
    assert!(!windows::secure_input_active());
    assert!(windows::WindowsInjector::new().is_ok());
    assert_eq!(windows::classify(0x70, None), Key::Other);
    assert_eq!(windows::classify(0x70, Some('\u{7f}')), Key::Other);
}

#[test]
fn the_recorder_records() {
    let mut writer = RecordingInjector::new();
    writer.backspace(3);
    writer.type_text("привет");
    assert!(!writer.type_keys(&vec![KeyPress::Space]));
    writer.replace(2, "a");
    assert_eq!(
        writer.taken(),
        vec![
            Action::Backspace(3),
            Action::Type("привет".into()),
            Action::Backspace(2),
            Action::Type("a".into()),
        ]
    );
    assert_eq!(writer.taken(), Vec::new());
}

#[test]
fn without_a_keyboard_nothing_is_watched() {
    assert!(!noop::has_permission());
    assert!(!noop::select_layout("ru"));
    noop::request_permission();
    let here = noop::current_context();
    assert!(here.app.is_none() && here.layout.is_none() && !here.secure_input);
    match noop::run(|_event: KeyEvent| {}) {
        Err(e) => assert_eq!(
            e.message(),
            "not supported on this platform: keyboard hooks are available on macOS and Windows"
        ),
        Ok(()) => panic!("there is no keyboard to watch"),
    }
}

#[test]
fn hook_errors_read_as_sentences() {
    assert_eq!(
        HookError::PermissionDenied.message(),
        "Rekey needs Accessibility permission to watch the keyboard"
    );
    assert_eq!(
        HookError::Os("no port".into()).message(),
        "operating system error: no port"
    );
}

#[test]
fn only_the_first_character_of_a_key_counts() {
    assert_eq!(first_character(&[]), None);
    assert_eq!(first_character(&[0x0436]), Some('ж'));
    assert_eq!(first_character(&[0x61, 0x62]), Some('a'));
    assert_eq!(first_character(&[0xd83d, 0xde00]), Some('😀'));
    assert_eq!(first_character(&[0xd83d]), Some('\u{fffd}'));
    assert_eq!(first_character(&[0xd83d, 0x61]), Some('\u{fffd}'));
    assert_eq!(first_character(&[0xde00, 0xd83d]), Some('\u{fffd}'));
    assert_eq!(first_character(&[0xffff]), Some('\u{ffff}'));
    let all: Vec<u16> = (0..=0xffff).collect();
    for pair in all.windows(2).step_by(97) {
        let text = String::from_utf16_lossy(pair);
        assert_eq!(first_character(pair), text.chars().next());
    }
}

#[test]
fn the_tap_is_armed_again_and_knows_its_own_typing() {
    let none = Modifiers::default();
    let option = Modifiers { alt: true, ..none };
    assert_eq!(macos::respond(TapEvent::Disabled, none, 0), Response::Rearm);
    assert_eq!(macos::respond(TapEvent::Other, none, 0), Response::Ignore);
    assert_eq!(
        macos::respond(TapEvent::KeyDown { keycode: 0, character: Some('a') }, none, 0),
        Response::Deliver(KeyEvent {
            character: Some('a'),
            key: Key::Character,
            modifiers: none,
            synthetic: false,
        })
    );
    assert_eq!(
        macos::respond(TapEvent::FlagsChanged, option, macos::REKEY_SIGNATURE),
        Response::Deliver(KeyEvent {
            character: None,
            key: Key::ModifiersChanged,
            modifiers: option,
            synthetic: true,
        })
    );
}

#[test]
fn the_windows_hook_sees_keys_going_down() {
    let none = Modifiers::default();
    let a = windows::observe(0, windows::WM_KEYDOWN, 0x41, Some('a'), none, 0);
    assert_eq!(
        a,
        Some(KeyEvent { character: Some('a'), key: Key::Character, modifiers: none, synthetic: false })
    );
    let own = windows::observe(
        0,
        windows::WM_SYSKEYDOWN,
        windows::VK_BACK,
        None,
        none,
        windows::REKEY_SIGNATURE,
    );
    assert_eq!(
        own,
        Some(KeyEvent { character: None, key: Key::Backspace, modifiers: none, synthetic: true })
    );
    // A key going up, and a message that is not for the hook.
    assert_eq!(windows::observe(0, 0x0101, 0x41, Some('a'), none, 0), None);
    assert_eq!(windows::observe(-1, windows::WM_KEYDOWN, 0x41, Some('a'), none, 0), None);
}
