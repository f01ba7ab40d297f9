//! What macOS calls its keys and layouts.

use crate::input::{Key, KeyEvent, Modifiers};
use crate::layout;
use crate::layout::{KeyPress, KEY_COUNT};
use crate::shipped;
use crate::tables;
use crate::text;
use vstd::prelude::*;

verus! {

/// What every event that the application types carries, so that it is not taken
/// for typing.
pub const REKEY_SIGNATURE: i64 = 0x52_454B_4559;

pub const VK_DELETE: u16 = 51;

pub const VK_SPACE: u16 = 49;

pub const VK_TAB: u16 = 48;

pub const VK_RETURN: u16 = 36;

/// The key codes of the printable keys, in the order in which layouts list them.
///
/// These are positions, not characters: code 0 is the key labelled `a` on a US
/// keyboard and `ф` on a Russian one. So replaying them types what the active
/// layout makes of them.
pub open spec fn codes() -> Seq<u16> {
    seq![
        50, 18, 19, 20, 21, 23, 22, 26, 28, 25, 29, 27, 24,
        12, 13, 14, 15, 17, 16, 32, 34, 31, 35, 33, 30, 42,
        0, 1, 2, 3, 5, 4, 38, 40, 37, 41, 39,
        6, 7, 8, 9, 11, 45, 46, 43, 47, 44,
    ]
}

/// The key codes of the printable keys, in the order in which layouts list them.
pub fn keycodes() -> (r: [u16; 47])
    ensures
        r@ == codes(),
{
    let r: [u16; 47] = [
        50, 18, 19, 20, 21, 23, 22, 26, 28, 25, 29, 27, 24,
        12, 13, 14, 15, 17, 16, 32, 34, 31, 35, 33, 30, 42,
        0, 1, 2, 3, 5, 4, 38, 40, 37, 41, 39,
        6, 7, 8, 9, 11, 45, 46, 43, 47, 44,
    ];
    assert(r@ =~= codes());
    r
}

/// The position of a key code.
spec fn place(code: u16, i: int) -> int
    decreases codes().len() - i,
{
    if i < 0 || i >= codes().len() || codes()[i] == code {
        i
    } else {
        place(code, i + 1)
    }
}

proof fn lemma_place(i: int)
    requires
        0 <= i < codes().len(),
    ensures
        place(codes()[i], 0) == i,
{
    reveal_with_fuel(place, 48);
}

/// No two keys have the same code, so that none types the character of another.
pub proof fn lemma_every_keycode_is_distinct(i: int, j: int)
    requires
        0 <= i < j < codes().len(),
    ensures
        codes()[i] != codes()[j],
{
    lemma_place(i);
    lemma_place(j);
}

/// The code that the system gives to the key with this character on an ANSI
/// keyboard, with shift or without: `kVK_ANSI_A` is 0, `kVK_ANSI_S` is 1, and so
/// on.
pub open spec fn ansi(c: char) -> Option<u16> {
    match c {
        'a' | 'A' => Some(0),
        's' | 'S' => Some(1),
        'd' | 'D' => Some(2),
        'f' | 'F' => Some(3),
        'h' | 'H' => Some(4),
        'g' | 'G' => Some(5),
        'z' | 'Z' => Some(6),
        'x' | 'X' => Some(7),
        'c' | 'C' => Some(8),
        'v' | 'V' => Some(9),
        'b' | 'B' => Some(11),
        'q' | 'Q' => Some(12),
        'w' | 'W' => Some(13),
        'e' | 'E' => Some(14),
        'r' | 'R' => Some(15),
        'y' | 'Y' => Some(16),
        't' | 'T' => Some(17),
        '1' | '!' => Some(18),
        '2' | '@' => Some(19),
        '3' | '#' => Some(20),
        '4' | '$' => Some(21),
        '6' | '^' => Some(22),
        '5' | '%' => Some(23),
        '=' | '+' => Some(24),
        '9' | '(' => Some(25),
        '7' | '&' => Some(26),
        '-' | '_' => Some(27),
        '8' | '*' => Some(28),
        '0' | ')' => Some(29),
        ']' | '}' => Some(30),
        'o' | 'O' => Some(31),
        'u' | 'U' => Some(32),
        '[' | '{' => Some(33),
        'i' | 'I' => Some(34),
        'p' | 'P' => Some(35),
        'l' | 'L' => Some(37),
        'j' | 'J' => Some(38),
        '\'' | '"' => Some(39),
        'k' | 'K' => Some(40),
        ';' | ':' => Some(41),
        '\\' | '|' => Some(42),
        ',' | '<' => Some(43),
        '/' | '?' => Some(44),
        'n' | 'N' => Some(45),
        'm' | 'M' => Some(46),
        '.' | '>' => Some(47),
        '`' | '~' => Some(50),
        _ => None,
    }
}

/// Whether shift is held to type a character on an ANSI keyboard.
pub open spec fn with_shift(c: char) -> bool {
    ('A' as int <= c as int <= 'Z' as int) || match c {
        '~' | '!' | '@' | '#' | '$' | '%' | '^' | '&' | '*' | '(' | ')' | '_' | '+' => true,
        '{' | '}' | '|' | ':' | '"' | '<' | '>' | '?' => true,
        _ => false,
    }
}

proof fn lemma_home_code(c: char)
    requires
        shipped::us_home()(c) >= 0,
    ensures
        0 <= shipped::us_home()(c) < 94,
        ansi(c) == Some(codes()[shipped::us_home()(c) / 2]),
        with_shift(c) == (shipped::us_home()(c) % 2 == 1),
{
}

proof fn lemma_ansi_home(c: char)
    ensures
        ansi(c) is Some <==> shipped::us_home()(c) >= 0,
{
}

/// Each position of the layouts' tables has the code of the key that stands there:
/// the key with the character `c` on the US layout has the code that the system
/// gives to the key with `c` on an ANSI keyboard, and shift is held exactly where
/// it takes shift.
pub proof fn lemma_every_code_is_that_of_its_key(c: char)
    ensures
        match layout::board_of(tables::us()).key(c) {
            Some(slot) => 0 <= slot < 94 && ansi(c) == Some(codes()[slot / 2]) && (with_shift(c)
                <==> slot % 2 == 1),
            None => ansi(c) is None,
        },
{
    let b = layout::board_of(tables::us());
    assert(tables::known()[0] == tables::us());
    match b.key(c) {
        Some(slot) => {
            shipped::lemma_the_key_types_the_character(0, c);
            shipped::lemma_us_slots(slot);
            assert(b.slots[slot][0] == c);
            lemma_home_code(c);
        },
        None => {
            lemma_ansi_home(c);
            if ansi(c) is Some {
                let j = shipped::us_home()(c);
                lemma_home_code(c);
                shipped::lemma_us_slots(j);
                lemma_home_is_injective(c, b.slots[j][0]);
            }
        },
    }
}

proof fn lemma_home_is_injective(a: char, b: char)
    requires
        shipped::us_home()(a) == shipped::us_home()(b) >= 0,
    ensures
        a == b,
{
}

/// There is a code for every key of a layout.
pub proof fn lemma_every_key_has_a_code()
    ensures
        codes().len() == KEY_COUNT,
{
}

/// The key code of a keystroke and whether shift is held.
pub open spec fn tap(press: KeyPress) -> (u16, bool) {
    match press {
        KeyPress::Key { index, shift } => (codes()[index as int], shift),
        KeyPress::Space => (VK_SPACE, false),
        KeyPress::Tab => (VK_TAB, false),
        KeyPress::Enter => (VK_RETURN, false),
    }
}

/// Whether a keystroke is one of a key that exists.
pub open spec fn exists_key(press: KeyPress) -> bool {
    press matches KeyPress::Key { index, .. } ==> index < KEY_COUNT
}

/// The keys to tap, with shift or without, if there are such keys.
pub fn taps_for(presses: &Vec<KeyPress>) -> (r: Option<Vec<(u16, bool)>>)
    ensures
        r is Some <==> forall|i: int| 0 <= i < presses@.len() ==> exists_key(#[trigger] presses@[i]),
        r matches Some(taps) ==> taps@ == presses@.map_values(|p: KeyPress| tap(p)),
{
    let known: [u16; 47] = keycodes();
    let mut taps: Vec<(u16, bool)> = Vec::new();
    let mut i: usize = 0;
    while i < presses.len()
        invariant
            i <= presses@.len(),
            known@ == codes(),
            taps@.len() == i,
            forall|k: int| 0 <= k < i ==> exists_key(#[trigger] presses@[k]),
            forall|k: int| 0 <= k < i ==> #[trigger] taps@[k] == tap(presses@[k]),
        decreases presses@.len() - i,
    {
        match presses[i] {
            KeyPress::Key { index, shift } => {
                if index >= KEY_COUNT {
                    assert(!exists_key(presses@[i as int]));
                    return None;
                }
                taps.push((known[index], shift));
            },
            KeyPress::Space => {
                taps.push((VK_SPACE, false));
            },
            KeyPress::Tab => {
                taps.push((VK_TAB, false));
            },
            KeyPress::Enter => {
                taps.push((VK_RETURN, false));
            },
        }
        i += 1;
    }
    assert(taps@ =~= presses@.map_values(|p: KeyPress| tap(p)));
    Some(taps)
}

/// What kind of key a key code is.
///
/// White space is told by the code, never by the character: events of modifiers
/// and others can report a space, and must not end the word being typed.
pub open spec fn kind(keycode: u16, character: Option<char>) -> Key {
    if keycode == 51 {
        Key::Backspace
    } else if keycode == 49 {
        Key::Space
    } else if keycode == 36 || keycode == 76 {
        Key::Enter
    } else if keycode == 48 {
        Key::Tab
    } else if keycode == 53 {
        Key::Escape
    } else if 123 <= keycode <= 126 || keycode == 115 || keycode == 116 || keycode == 119 || keycode
        == 121 {
        Key::Navigation
    } else if 54 <= keycode <= 63 {
        Key::ModifiersChanged
    } else {
        match character {
            Some(c) => if text::whitespace(c) || text::control(c) {
                Key::Other
            } else {
                Key::Character
            },
            None => Key::Other,
        }
    }
}

/// What kind of key a key code is.
pub fn classify(keycode: u16, character: Option<char>) -> (r: Key)
    ensures
        r == kind(keycode, character),
{
    match keycode {
        51 => Key::Backspace,
        49 => Key::Space,
        36 | 76 => Key::Enter,
        48 => Key::Tab,
        53 => Key::Escape,
        // Arrows, and home, end, page up and page down.
        123..=126 | 115 | 116 | 119 | 121 => Key::Navigation,
        // Command, shift, caps lock, option, control, fn.
        54..=63 => Key::ModifiersChanged,
        _ => match character {
            Some(c) => if c.is_whitespace() || text::is_control(c) {
                Key::Other
            } else {
                Key::Character
            },
            None => Key::Other,
        },
    }
}

/// Whatever character it reports, a modifier is a modifier.
pub proof fn lemma_modifiers_are_never_white_space(keycode: u16, character: Option<char>)
    requires
        54 <= keycode <= 63,
    ensures
        kind(keycode, character) == Key::ModifiersChanged,
{
}

/// What kind of key a code is, key by key: nothing but the code tells the keys that
/// type no character of their own, and of the others a key types exactly if it
/// reports a character that is neither white space nor a control code.
pub proof fn lemma_keys_are_told_apart(keycode: u16, character: Option<char>)
    ensures
        ({
            let key = kind(keycode, character);
            let typing = key == Key::Character || key == Key::Other;
            &&& key == Key::Backspace <==> keycode == 51
            &&& key == Key::Space <==> keycode == 49
            &&& key == Key::Enter <==> keycode == 36 || keycode == 76
            &&& key == Key::Tab <==> keycode == 48
            &&& key == Key::Escape <==> keycode == 53
            &&& key == Key::Navigation <==> keycode == 123 || keycode == 124 || keycode == 125
                || keycode == 126 || keycode == 115 || keycode == 116 || keycode == 119 || keycode
                == 121
            &&& key == Key::ModifiersChanged <==> 54 <= keycode <= 63
            &&& typing ==> (key == Key::Character <==> (character matches Some(c)
                && !text::whitespace(c) && !(c as int <= 0x1f || 0x7f <= c as int <= 0x9f)))
        }),
{
}

/// What is tapped is seen as what it is: the keys for white space as such, and the
/// keys of a layout as keys that type, if they type a character. The key that
/// deletes is seen as the one that does.
pub proof fn lemma_taps_are_seen_as_what_they_are(press: KeyPress, character: Option<char>)
    requires
        exists_key(press),
    ensures
        match press {
            KeyPress::Key { shift, .. } => {
                &&& tap(press).1 == shift
                &&& kind(tap(press).0, character) == Key::Character || kind(
                    tap(press).0,
                    character,
                ) == Key::Other
                &&& (character matches Some(c) && !text::whitespace(c) && !text::control(c))
                    ==> kind(tap(press).0, character) == Key::Character
            },
            KeyPress::Space => tap(press) == (49u16, false) && kind(tap(press).0, character)
                == Key::Space,
            KeyPress::Tab => tap(press) == (48u16, false) && kind(tap(press).0, character)
                == Key::Tab,
            KeyPress::Enter => tap(press) == (36u16, false) && kind(tap(press).0, character)
                == Key::Enter,
        },
        VK_DELETE == 51 && kind(VK_DELETE, character) == Key::Backspace,
{
    if let KeyPress::Key { index, .. } = press {
        lemma_codes_are_small(index as int);
    }
}

proof fn lemma_codes_are_small(i: int)
    requires
        0 <= i < codes().len(),
    ensures
        codes()[i] <= 50,
        codes()[i] != 36 && codes()[i] != 48 && codes()[i] != 49,
{
}

/// What the application types itself is told by its mark and by nothing else, and
/// every key that goes down and every change of a modifier is handed on with its
/// character and the modifiers as they are.
pub proof fn lemma_what_is_handed_on(event: TapEvent, modifiers: Modifiers, mark: i64)
    ensures
        match event {
            TapEvent::KeyDown { keycode, character } => {
                response(event, modifiers, mark) matches Response::Deliver(k) && k.modifiers
                    == modifiers && k.character == character && k.key == kind(keycode, character)
                    && (k.synthetic <==> mark == 0x52_454B_4559)
            },
            TapEvent::FlagsChanged => {
                response(event, modifiers, mark) matches Response::Deliver(k) && k.modifiers
                    == modifiers && k.character is None && k.key == Key::ModifiersChanged && (
                k.synthetic <==> mark == 0x52_454B_4559)
            },
            TapEvent::Disabled => response(event, modifiers, mark) == Response::Rearm,
            TapEvent::Other => response(event, modifiers, mark) == Response::Ignore,
        },
{
}

/// What the event tap reports.
#[derive(Debug, Clone, Copy, PartialEq, Eq, Structural)]
pub enum TapEvent {
    KeyDown { keycode: u16, character: Option<char> },
    /// A modifier went down or up.
    FlagsChanged,
    /// The system has switched the tap off.
    Disabled,
    Other,
}

/// What is to be done about what the event tap reports.
#[derive(Debug, Clone, Copy, PartialEq, Eq, Structural)]
pub enum Response {
    /// The tap is switched on again.
    Rearm,
    /// The keystroke is handed on.
    Deliver(KeyEvent),
    Ignore,
}

/// What is to be done about an event with these modifiers and this mark.
pub open spec fn response(event: TapEvent, modifiers: Modifiers, mark: i64) -> Response {
    let synthetic = mark == REKEY_SIGNATURE;
    match event {
        TapEvent::KeyDown { keycode, character } => Response::Deliver(
            KeyEvent { character, key: kind(keycode, character), modifiers, synthetic },
        ),
        TapEvent::FlagsChanged => Response::Deliver(
            KeyEvent { character: None, key: Key::ModifiersChanged, modifiers, synthetic },
        ),
        TapEvent::Disabled => Response::Rearm,
        TapEvent::Other => Response::Ignore,
    }
}

/// What is to be done about what the event tap reports. A modifier alone arrives
/// as a change of the flags, and a tap on it is a shortcut, so it is handed on
/// like a key.
pub fn respond(event: TapEvent, modifiers: Modifiers, mark: i64) -> (r: Response)
    ensures
        r == response(event, modifiers, mark),
{
    let synthetic: bool = mark == REKEY_SIGNATURE;
    match event {
        TapEvent::KeyDown { keycode, character } => Response::Deliver(
            KeyEvent { character, key: classify(keycode, character), modifiers, synthetic },
        ),
        TapEvent::FlagsChanged => Response::Deliver(
            KeyEvent { character: None, key: Key::ModifiersChanged, modifiers, synthetic },
        ),
        TapEvent::Disabled => Response::Rearm,
        TapEvent::Other => Response::Ignore,
    }
}

/// The names of input sources, without what comes before the last dot, and their
/// layouts.
pub open spec fn input_sources() -> Seq<(Seq<char>, Seq<char>)> {
    seq![
        ("US"@, "us"@),
        ("USExtended"@, "us"@),
        ("ABC"@, "us"@),
        ("British"@, "us"@),
        ("Russian"@, "ru"@),
        ("RussianWin"@, "ru"@),
        ("Russian-Phonetic"@, "ru"@),
        ("Ukrainian"@, "uk"@),
        ("Ukrainian-PC"@, "uk"@),
        ("Hebrew"@, "he"@),
        ("Hebrew-PC"@, "he"@),
        ("Arabic"@, "ar"@),
        ("Arabic-AZERTY"@, "ar"@),
        ("Greek"@, "el"@),
        ("GreekPolytonic"@, "el"@),
        ("German"@, "de"@),
        ("German-DIN-2137"@, "de"@),
        ("French"@, "fr"@),
        ("French-numerical"@, "fr"@),
        ("Spanish"@, "es"@),
        ("Spanish-ISO"@, "es"@),
        ("Turkish"@, "tr"@),
        ("Turkish-QWERTY-PC"@, "tr"@),
    ]
}

pub open spec fn source_views(sources: Seq<(&'static str, &'static str)>) -> Seq<
    (Seq<char>, Seq<char>),
> {
    sources.map_values(|s: (&'static str, &'static str)| (s.0@, s.1@))
}

fn sources() -> (r: Vec<(&'static str, &'static str)>)
    ensures
        source_views(r@) == input_sources(),
{
    let mut r: Vec<(&'static str, &'static str)> = Vec::new();
    r.push(("US", "us"));
    r.push(("USExtended", "us"));
    r.push(("ABC", "us"));
    r.push(("British", "us"));
    r.push(("Russian", "ru"));
    r.push(("RussianWin", "ru"));
    r.push(("Russian-Phonetic", "ru"));
    r.push(("Ukrainian", "uk"));
    r.push(("Ukrainian-PC", "uk"));
    r.push(("Hebrew", "he"));
    r.push(("Hebrew-PC", "he"));
    r.push(("Arabic", "ar"));
    r.push(("Arabic-AZERTY", "ar"));
    r.push(("Greek", "el"));
    r.push(("GreekPolytonic", "el"));
    r.push(("German", "de"));
    r.push(("German-DIN-2137", "de"));
    r.push(("French", "fr"));
    r.push(("French-numerical", "fr"));
    r.push(("Spanish", "es"));
    r.push(("Spanish-ISO", "es"));
    r.push(("Turkish", "tr"));
    r.push(("Turkish-QWERTY-PC", "tr"));
    assert(source_views(r@) =~= input_sources());
    r
}

/// What comes behind the last dot.
pub open spec fn tail(id: Seq<char>) -> Seq<char> {
    text::pieces(id, '.').last()
}

/// The first of these sources from `i` on with this name.
pub open spec fn named(sources: Seq<(Seq<char>, Seq<char>)>, name: Seq<char>, i: int) -> Option<
    Seq<char>,
>
    decreases sources.len() - i,
{
    if i < 0 || i >= sources.len() {
        None
    } else if sources[i].0 == name {
        Some(sources[i].1)
    } else {
        named(sources, name, i + 1)
    }
}

/// The source, among these, with the longest name that a name begins with; of
/// several the last one.
pub open spec fn longest(sources: Seq<(Seq<char>, Seq<char>)>, name: Seq<char>) -> Option<
    (Seq<char>, Seq<char>),
>
    decreases sources.len(),
{
    if sources.len() == 0 {
        None
    } else {
        let before = longest(sources.drop_last(), name);
        if !text::stands_at(name, sources.last().0, 0) {
            before
        } else {
            match before {
                Some(b) => if sources.last().0.len() >= b.0.len() {
                    Some(sources.last())
                } else {
                    before
                },
                None => Some(sources.last()),
            }
        }
    }
}

/// The layout of an input source: that of the source with its name, or else of
/// the one whose name is the longest that its own begins with.
pub open spec fn layout_of_source(id: Seq<char>) -> Option<Seq<char>> {
    match named(input_sources(), tail(id), 0) {
        Some(layout) => Some(layout),
        None => match longest(input_sources(), tail(id)) {
            Some((_, layout)) => Some(layout),
            None => None,
        },
    }
}

/// The layout of an input source such as `com.apple.keylayout.Russian`.
pub fn layout_from_input_source(id: &str) -> (r: Option<&'static str>)
    ensures
        match r {
            Some(layout) => layout_of_source(id@) == Some(layout@),
            None => layout_of_source(id@) is None,
        },
{
    let parts: Vec<String> = text::split(id, '.');
    proof {
        text::lemma_pieces_nonempty(id@, '.');
    }
    assert(parts@.len() == text::pieces(id@, '.').len());
    let name: &str = parts[parts.len() - 1].as_str();
    assert(name@ == tail(id@));
    let known: Vec<(&'static str, &'static str)> = sources();
    let ghost all = source_views(known@);
    let mut i: usize = 0;
    while i < known.len()
        invariant
            i <= known@.len(),
            all == source_views(known@),
            all == input_sources(),
            name@ == tail(id@),
            named(all, name@, 0) == named(all, name@, i as int),
        decreases known@.len() - i,
    {
        assert(all[i as int] == (known@[i as int].0@, known@[i as int].1@));
        if text::same(known[i].0, name) {
            return Some(known[i].1);
        }
        i += 1;
    }
    let mut best: Option<(usize, &'static str)> = None;
    let mut i: usize = 0;
    while i < known.len()
        invariant
            i <= known@.len(),
            all == source_views(known@),
            match best {
                Some((len, layout)) => longest(all.take(i as int), name@) matches Some(b)
                    && b.0.len() == len && b.1 == layout@,
                None => longest(all.take(i as int), name@) is None,
            },
        decreases known@.len() - i,
    {
        let (source, layout) = known[i];
        assert(all.take(i + 1).drop_last() =~= all.take(i as int));
        assert(all.take(i + 1).last() == (source@, layout@));
        if text::begins_with(name, source) {
            let len: usize = text::length(source);
            let longer: bool = match best {
                Some((known_len, _)) => len >= known_len,
                None => true,
            };
            if longer {
                best = Some((len, layout));
            }
        }
        i += 1;
    }
    assert(all.take(all.len() as int) =~= all);
    match best {
        Some((_, layout)) => Some(layout),
        None => None,
    }
}

/// The layout that the name of a source stands for, by how it begins.
pub open spec fn by_initials(name: Seq<char>) -> Option<Seq<char>> {
    if name.len() < 2 {
        None
    } else {
        match (name[0], name[1]) {
            ('U', 'S') | ('A', 'B') | ('B', 'r') => Some("us"@),
            ('R', 'u') => Some("ru"@),
            ('U', 'k') => Some("uk"@),
            ('H', 'e') => Some("he"@),
            ('A', 'r') => Some("ar"@),
            ('G', 'r') => Some("el"@),
            ('G', 'e') => Some("de"@),
            ('F', 'r') => Some("fr"@),
            ('S', 'p') => Some("es"@),
            ('T', 'u') => Some("tr"@),
            _ => None,
        }
    }
}

/// Each source is for the layout of the language that it is named after.
pub proof fn lemma_sources_are_named_after_languages(i: int)
    requires
        0 <= i < input_sources().len(),
    ensures
        Some(input_sources()[i].1) == by_initials(input_sources()[i].0),
{
    reveal_strlit("US");
    reveal_strlit("USExtended");
    reveal_strlit("ABC");
    reveal_strlit("British");
    reveal_strlit("Russian");
    reveal_strlit("RussianWin");
    reveal_strlit("Russian-Phonetic");
    reveal_strlit("Ukrainian");
    reveal_strlit("Ukrainian-PC");
    reveal_strlit("Hebrew");
    reveal_strlit("Hebrew-PC");
    reveal_strlit("Arabic");
    reveal_strlit("Arabic-AZERTY");
    reveal_strlit("Greek");
    reveal_strlit("GreekPolytonic");
    reveal_strlit("German");
    reveal_strlit("German-DIN-2137");
    reveal_strlit("French");
    reveal_strlit("French-numerical");
    reveal_strlit("Spanish");
    reveal_strlit("Spanish-ISO");
    reveal_strlit("Turkish");
    reveal_strlit("Turkish-QWERTY-PC");
}

proof fn lemma_named(sources: Seq<(Seq<char>, Seq<char>)>, name: Seq<char>, i: int)
    requires
        0 <= i <= sources.len(),
    ensures
        match named(sources, name, i) {
            Some(layout) => exists|k: int|
                i <= k < sources.len() && (#[trigger] sources[k]) == (name, layout),
            None => forall|k: int| i <= k < sources.len() ==> (#[trigger] sources[k]).0 != name,
        },
    decreases sources.len() - i,
{
    if i < sources.len() {
        if sources[i].0 == name {
            assert(sources[i] == (name, sources[i].1));
        } else {
            lemma_named(sources, name, i + 1);
        }
    }
}

proof fn lemma_longest(sources: Seq<(Seq<char>, Seq<char>)>, name: Seq<char>)
    ensures
        match longest(sources, name) {
            Some(best) => sources.contains(best) && text::stands_at(name, best.0, 0) && forall|k: int|
                0 <= k < sources.len() && text::stands_at(name, (#[trigger] sources[k]).0, 0)
                    ==> sources[k].0.len() <= best.0.len(),
            None => forall|k: int|
                0 <= k < sources.len() ==> !text::stands_at(name, (#[trigger] sources[k]).0, 0),
        },
    decreases sources.len(),
{
    if sources.len() > 0 {
        let before = sources.drop_last();
        let n = sources.len() - 1;
        lemma_longest(before, name);
        assert(sources[n] == sources.last());
        if let Some(old_best) = longest(before, name) {
            let k = before.index_of(old_best);
            assert(sources[k] == old_best);
        }
        assert forall|k: int| 0 <= k < n implies before[k] == #[trigger] sources[k] by {}
    }
}

/// The layout of an input source is that of the source whose name stands behind the last
/// dot, or else of one whose name begins it, and no longer name does; there is none
/// exactly if no name begins it.
pub proof fn lemma_which_source_counts(id: Seq<char>)
    ensures
        ({
            let all = input_sources();
            let name = tail(id);
            let known = exists|k: int| 0 <= k < all.len() && (#[trigger] all[k]).0 == name;
            &&& known ==> exists|k: int|
                0 <= k < all.len() && (#[trigger] all[k]).0 == name && layout_of_source(id) == Some(
                    all[k].1,
                )
            &&& !known ==> match layout_of_source(id) {
                Some(layout) => exists|k: int|
                    0 <= k < all.len() && (#[trigger] all[k]).1 == layout && text::stands_at(
                        name,
                        all[k].0,
                        0,
                    ) && forall|j: int|
                        0 <= j < all.len() && text::stands_at(name, (#[trigger] all[j]).0, 0)
                            ==> all[j].0.len() <= all[k].0.len(),
                None => forall|k: int|
                    0 <= k < all.len() ==> !text::stands_at(name, (#[trigger] all[k]).0, 0),
            }
        }),
{
    let all = input_sources();
    let name = tail(id);
    lemma_named(all, name, 0);
    lemma_longest(all, name);
    if named(all, name, 0) is None {
        if let Some(best) = longest(all, name) {
            let k = all.index_of(best);
            assert(all[k] == best);
        }
    }
}

/// The name of a source is what stands behind the last dot.
pub proof fn lemma_the_name_of_a_source(before: Seq<char>, name: Seq<char>)
    requires
        !name.contains('.'),
    ensures
        tail(before.push('.') + name) == name,
        tail(name) == name,
{
    text::lemma_the_last_piece(before, '.', name);
    assert forall|j: int| 0 <= j < name.len() implies name[j] != '.' by {
        if name[j] == '.' {
            assert(name.contains('.'));
        }
    }
    text::lemma_only_piece(name, '.');
}

} // verus!
