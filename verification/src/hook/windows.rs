//! What Windows calls its keys and layouts.

use crate::hook::HookError;
use crate::input::{Key, KeyEvent, Modifiers};
use crate::text;
use vstd::prelude::*;

verus! {

/// What every event that the application types carries, so that it is not taken
/// for typing.
pub const REKEY_SIGNATURE: usize = 0x5245_4B45;

/// A key went down.
pub const WM_KEYDOWN: u32 = 0x0100;

/// A key went down while alt was held.
pub const WM_SYSKEYDOWN: u32 = 0x0104;

pub const VK_BACK: u16 = 0x08;

pub const VK_TAB: u16 = 0x09;

pub const VK_RETURN: u16 = 0x0D;

pub const VK_ESCAPE: u16 = 0x1B;

pub const VK_SPACE: u16 = 0x20;

pub const VK_PRIOR: u16 = 0x21;

pub const VK_NEXT: u16 = 0x22;

pub const VK_END: u16 = 0x23;

pub const VK_HOME: u16 = 0x24;

pub const VK_LEFT: u16 = 0x25;

pub const VK_UP: u16 = 0x26;

pub const VK_RIGHT: u16 = 0x27;

pub const VK_DOWN: u16 = 0x28;

/// What kind of key a virtual key is.
pub open spec fn kind(vk: u16, character: Option<char>) -> Key {
    if vk == VK_BACK {
        Key::Backspace
    } else if vk == VK_SPACE {
        Key::Space
    } else if vk == VK_RETURN {
        Key::Enter
    } else if vk == VK_TAB {
        Key::Tab
    } else if vk == VK_ESCAPE {
        Key::Escape
    } else if VK_PRIOR <= vk <= VK_DOWN {
        Key::Navigation
    } else if character matches Some(c) && !text::control(c) {
        Key::Character
    } else {
        Key::Other
    }
}

/// What kind of key a virtual key is.
pub fn classify(vk: u16, character: Option<char>) -> (r: Key)
    ensures
        r == kind(vk, character),
{
    if vk == VK_BACK {
        Key::Backspace
    } else if vk == VK_SPACE {
        Key::Space
    } else if vk == VK_RETURN {
        Key::Enter
    } else if vk == VK_TAB {
        Key::Tab
    } else if vk == VK_ESCAPE {
        Key::Escape
    } else if vk == VK_LEFT || vk == VK_RIGHT || vk == VK_UP || vk == VK_DOWN || vk == VK_HOME || vk
        == VK_END || vk == VK_PRIOR || vk == VK_NEXT {
        Key::Navigation
    } else {
        match character {
            Some(c) => if text::is_control(c) {
                Key::Other
            } else {
                Key::Character
            },
            None => Key::Other,
        }
    }
}

/// The keystroke that a hook with this code was told of by this message, if it
/// was one.
pub open spec fn keystroke(
    code: i32,
    message: u32,
    vk: u16,
    character: Option<char>,
    modifiers: Modifiers,
    mark: usize,
) -> Option<KeyEvent> {
    if code >= 0 && (message == WM_KEYDOWN || message == WM_SYSKEYDOWN) {
        Some(
            KeyEvent {
                character,
                key: kind(vk, character),
                modifiers,
                synthetic: mark == REKEY_SIGNATURE,
            },
        )
    } else {
        None
    }
}

/// The keystroke that the hook is told of, if it is one. Only the application's
/// own mark makes it synthetic: what other tools type counts as typing.
pub fn observe(
    code: i32,
    message: u32,
    vk: u16,
    character: Option<char>,
    modifiers: Modifiers,
    mark: usize,
) -> (r: Option<KeyEvent>)
    ensures
        r == keystroke(code, message, vk, character, modifiers, mark),
{
    if code >= 0 && (message == WM_KEYDOWN || message == WM_SYSKEYDOWN) {
        Some(
            KeyEvent {
                character,
                key: classify(vk, character),
                modifiers,
                synthetic: mark == REKEY_SIGNATURE,
            },
        )
    } else {
        None
    }
}

/// What kind of key a virtual key is, key by key: nothing but the code tells the
/// keys that type no character of their own, and of the others a key types exactly
/// if it reports a character that is no control code.
pub proof fn lemma_keys_are_told_apart(vk: u16, character: Option<char>)
    ensures
        ({
            let key = kind(vk, character);
            let typing = key == Key::Character || key == Key::Other;
            &&& key == Key::Backspace <==> vk == 0x08
            &&& key == Key::Space <==> vk == 0x20
            &&& key == Key::Enter <==> vk == 0x0D
            &&& key == Key::Tab <==> vk == 0x09
            &&& key == Key::Escape <==> vk == 0x1B
            &&& key == Key::Navigation <==> 0x21 <= vk <= 0x28
            &&& key != Key::ModifiersChanged
            &&& typing ==> (key == Key::Character <==> (character matches Some(c) && !(c as int
                <= 0x1f || 0x7f <= c as int <= 0x9f)))
        }),
{
}

/// Exactly the messages of keys that go down are keystrokes, with alt held or
/// without; they are handed on with their character and the modifiers as they are;
/// and what the application types itself is told by its mark and by nothing else.
pub proof fn lemma_what_is_handed_on(
    code: i32,
    message: u32,
    vk: u16,
    character: Option<char>,
    modifiers: Modifiers,
    mark: usize,
)
    ensures
        ({
            let k = keystroke(code, message, vk, character, modifiers, mark);
            &&& k is Some <==> code >= 0 && (message == 0x0100 || message == 0x0104)
            &&& k matches Some(e) ==> e.character == character && e.modifiers == modifiers && e.key
                == kind(vk, character) && (e.synthetic <==> mark == 0x5245_4B45)
        }),
{
}

/// The layout of a primary language.
pub open spec fn layout_of_language(primary: u16) -> Option<Seq<char>> {
    match primary {
        0x01 => Some("ar"@),
        0x07 => Some("de"@),
        0x08 => Some("el"@),
        0x09 => Some("us"@),
        0x0A => Some("es"@),
        0x0C => Some("fr"@),
        0x0D => Some("he"@),
        0x19 => Some("ru"@),
        0x1F => Some("tr"@),
        0x22 => Some("uk"@),
        _ => None,
    }
}

/// The layout of a language identifier is that of its primary language, which is in
/// the low ten bits. It is known for the language's own country, for Spanish in the
/// modern sort order, and for Britain, Egypt, Austria, Belgium, Canada in French, and
/// Mexico.
pub proof fn lemma_the_language_tells_the_layout(langid: u16)
    ensures
        layout_of_langid(langid) is Some ==> layout_of_langid(langid) == layout_of_language(
            langid % 0x400,
        ),
        langid / 0x400 == 1 && langid != 0x040A ==> layout_of_langid(langid)
            == layout_of_language(langid % 0x400),
        langid == 0x0C0A ==> layout_of_langid(langid) == layout_of_language(0x0A),
        langid / 0x400 != 1 ==> (layout_of_langid(langid) is Some <==> langid == 0x0809 || langid
            == 0x0C01 || langid == 0x0C07 || langid == 0x080C || langid == 0x0C0C || langid
            == 0x0C0A || langid == 0x080A),
{
}

/// The layout of a language identifier.
pub open spec fn layout_of_langid(langid: u16) -> Option<Seq<char>> {
    if langid == 0x0409 || langid == 0x0809 {
        Some("us"@)
    } else if langid == 0x0419 {
        Some("ru"@)
    } else if langid == 0x0422 {
        Some("uk"@)
    } else if langid == 0x040D {
        Some("he"@)
    } else if langid == 0x0401 || langid == 0x0C01 {
        Some("ar"@)
    } else if langid == 0x0408 {
        Some("el"@)
    } else if langid == 0x0407 || langid == 0x0C07 {
        Some("de"@)
    } else if langid == 0x040C || langid == 0x080C || langid == 0x0C0C {
        Some("fr"@)
    } else if langid == 0x0C0A || langid == 0x080A {
        Some("es"@)
    } else if langid == 0x041F {
        Some("tr"@)
    } else {
        None
    }
}

/// The layout of the language identifier in the low word of a keyboard handle.
pub fn layout_from_langid(langid: u16) -> (r: Option<&'static str>)
    ensures
        text::optional_slice(r) == layout_of_langid(langid),
{
    match langid {
        0x0409 | 0x0809 => Some("us"),
        0x0419 => Some("ru"),
        0x0422 => Some("uk"),
        0x040D => Some("he"),
        0x0401 | 0x0C01 => Some("ar"),
        0x0408 => Some("el"),
        0x0407 | 0x0C07 => Some("de"),
        0x040C | 0x080C | 0x0C0C => Some("fr"),
        0x0C0A | 0x080A => Some("es"),
        0x041F => Some("tr"),
        _ => None,
    }
}

/// Windows has no flag for password fields.
pub fn secure_input_active() -> (r: bool)
    ensures
        !r,
{
    false
}

/// Windows lets the keyboard be watched without asking.
pub fn has_permission() -> (r: bool)
    ensures
        r,
{
    true
}

pub fn request_permission() -> (r: bool)
    ensures
        r,
{
    true
}

/// Sends edits as input. There is nothing to hold on to.
#[derive(Debug, Clone, Copy, Default)]
pub struct WindowsInjector {}

impl WindowsInjector {
    pub fn new() -> (r: Result<WindowsInjector, HookError>)
        ensures
            r is Ok,
    {
        Ok(WindowsInjector {  })
    }
}

} // verus!
