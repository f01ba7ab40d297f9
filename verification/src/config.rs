//! What the user can choose.

use crate::input::Modifiers;
use crate::single::Single;
use crate::text;
use vstd::prelude::*;

verus! {

/// How eager the detector is.
#[derive(Debug, Clone, Copy, PartialEq, Eq, Structural)]
pub enum Sensitivity {
    /// Acts on overwhelming evidence only.
    Cautious,
    /// Acts when the other reading is clearly a word.
    Balanced,
    /// Acts on weaker evidence.
    Eager,
}

impl Sensitivity {
    pub open spec fn margin(self) -> Single {
        match self {
            Sensitivity::Cautious => Single { bits: 0x4060_0000 },
            Sensitivity::Balanced => Single { bits: 0x4000_0000 },
            Sensitivity::Eager => Single { bits: 0x3f80_0000 },
        }
    }

    /// By how much, in log10 units, the other reading must be more plausible:
    /// 3.5, 2 or 1.
    pub fn threshold(self) -> (r: Single)
        ensures
            r == self.margin(),
    {
        match self {
            Sensitivity::Cautious => Single { bits: 0x4060_0000 },
            Sensitivity::Balanced => Single { bits: 0x4000_0000 },
            Sensitivity::Eager => Single { bits: 0x3f80_0000 },
        }
    }

    pub open spec fn unknown_target_margin(self) -> Single {
        match self {
            Sensitivity::Cautious => Single { bits: 0x4040_0000 },
            Sensitivity::Balanced => Single { bits: 0x4020_0000 },
            Sensitivity::Eager => Single { bits: 0x3fc0_0000 },
        }
    }

    /// What is demanded on top when the other reading is no known word either,
    /// so that letter statistics alone decide: 3, 2.5 or 1.5.
    pub fn unknown_target_surcharge(self) -> (r: Single)
        ensures
            r == self.unknown_target_margin(),
    {
        match self {
            Sensitivity::Cautious => Single { bits: 0x4040_0000 },
            Sensitivity::Balanced => Single { bits: 0x4020_0000 },
            Sensitivity::Eager => Single { bits: 0x3fc0_0000 },
        }
    }

    pub open spec fn known_word_margin(self) -> Single {
        match self {
            Sensitivity::Cautious => Single { bits: 0x40c0_0000 },
            Sensitivity::Balanced => Single { bits: 0x4090_0000 },
            Sensitivity::Eager => Single { bits: 0x4040_0000 },
        }
    }

    /// What is demanded on top when the text as typed is a known word: 6, 4.5
    /// or 3.
    pub fn known_word_surcharge(self) -> (r: Single)
        ensures
            r == self.known_word_margin(),
    {
        match self {
            Sensitivity::Cautious => Single { bits: 0x40c0_0000 },
            Sensitivity::Balanced => Single { bits: 0x4090_0000 },
            Sensitivity::Eager => Single { bits: 0x4040_0000 },
        }
    }
}

/// A modifier key that can serve as the manual shortcut. Modifiers type nothing
/// on their own, so that no keystroke is taken from the application in front.
#[derive(Debug, Clone, Copy, PartialEq, Eq, Structural)]
pub enum Modifier {
    Option,
    Shift,
    Control,
    Command,
}

impl Modifier {
    pub open spec fn held(self, modifiers: Modifiers) -> bool {
        match self {
            Modifier::Option => modifiers.alt,
            Modifier::Shift => modifiers.shift,
            Modifier::Control => modifiers.control,
            Modifier::Command => modifiers.meta,
        }
    }

    /// Whether this modifier is held.
    pub fn is_held(self, modifiers: Modifiers) -> (r: bool)
        ensures
            r == self.held(modifiers),
    {
        match self {
            Modifier::Option => modifiers.alt,
            Modifier::Shift => modifiers.shift,
            Modifier::Control => modifiers.control,
            Modifier::Command => modifiers.meta,
        }
    }

    pub open spec fn chord(self, modifiers: Modifiers) -> bool {
        exists|other: Modifier| other != self && #[trigger] other.held(modifiers)
    }

    /// Whether a modifier other than this one is held.
    pub fn others_held(self, modifiers: Modifiers) -> (r: bool)
        ensures
            r == self.chord(modifiers),
    {
        let r: bool = (modifiers.alt && self != Modifier::Option) || (modifiers.shift && self
            != Modifier::Shift) || (modifiers.control && self != Modifier::Control) || (
        modifiers.meta && self != Modifier::Command);
        assert(Modifier::Option.held(modifiers) == modifiers.alt);
        assert(Modifier::Shift.held(modifiers) == modifiers.shift);
        assert(Modifier::Control.held(modifiers) == modifiers.control);
        assert(Modifier::Command.held(modifiers) == modifiers.meta);
        r
    }

    pub open spec fn name(self) -> Seq<char> {
        match self {
            Modifier::Option => "Option"@,
            Modifier::Shift => "Shift"@,
            Modifier::Control => "Control"@,
            Modifier::Command => "Command"@,
        }
    }

    pub fn label(self) -> (r: &'static str)
        ensures
            r@ == self.name(),
    {
        match self {
            Modifier::Option => "Option",
            Modifier::Shift => "Shift",
            Modifier::Control => "Control",
            Modifier::Command => "Command",
        }
    }
}

/// How cycling the last word by hand is triggered.
#[derive(Debug, Clone, Copy, PartialEq, Eq, Structural)]
pub enum Shortcut {
    /// Not at all.
    Off,
    /// By pressing and releasing the modifier with nothing in between.
    Tap { modifier: Modifier },
    /// By two taps in quick succession.
    DoubleTap { modifier: Modifier },
}

impl Shortcut {
    pub open spec fn trigger(self) -> Option<Modifier> {
        match self {
            Shortcut::Off => None,
            Shortcut::Tap { modifier } => Some(modifier),
            Shortcut::DoubleTap { modifier } => Some(modifier),
        }
    }

    /// The modifier that triggers the shortcut.
    pub fn modifier(self) -> (r: Option<Modifier>)
        ensures
            r == self.trigger(),
    {
        match self {
            Shortcut::Off => None,
            Shortcut::Tap { modifier } => Some(modifier),
            Shortcut::DoubleTap { modifier } => Some(modifier),
        }
    }

    pub fn needs_two_taps(self) -> (r: bool)
        ensures
            r == (self is DoubleTap),
    {
        match self {
            Shortcut::DoubleTap { .. } => true,
            _ => false,
        }
    }
}

/// The settings of the engine.
#[derive(Debug, Clone)]
pub struct Config {
    /// The master switch.
    pub enabled: bool,
    /// The identifiers of the layouts that the user types on.
    pub layouts: Vec<String>,
    pub sensitivity: Sensitivity,
    /// Shorter words are never converted.
    pub min_word_len: usize,
    /// Shorter words are converted to known words only.
    pub require_dict_below_len: usize,
    /// Words that are never touched.
    pub exceptions: Vec<String>,
    /// Applications that are left alone, by bundle identifier or executable.
    pub excluded_apps: Vec<String>,
    /// Whether words in capitals are left alone.
    pub skip_all_caps: bool,
    /// Whether a second opinion is asked for on ambiguous words.
    pub ai_assist: bool,
    /// How cycling the last word by hand is triggered.
    pub shortcut: Shortcut,
}

/// What a [`Config`] says.
#[verifier::ext_equal]
pub struct Choices {
    pub enabled: bool,
    pub layouts: Seq<Seq<char>>,
    pub sensitivity: Sensitivity,
    pub min_word_len: nat,
    pub require_dict_below_len: nat,
    pub exceptions: Seq<Seq<char>>,
    pub excluded_apps: Seq<Seq<char>>,
    pub skip_all_caps: bool,
    pub ai_assist: bool,
    pub shortcut: Shortcut,
}

impl View for Config {
    type V = Choices;

    open spec fn view(&self) -> Choices {
        Choices {
            enabled: self.enabled,
            layouts: text::views(self.layouts@),
            sensitivity: self.sensitivity,
            min_word_len: self.min_word_len as nat,
            require_dict_below_len: self.require_dict_below_len as nat,
            exceptions: text::views(self.exceptions@),
            excluded_apps: text::views(self.excluded_apps@),
            skip_all_caps: self.skip_all_caps,
            ai_assist: self.ai_assist,
            shortcut: self.shortcut,
        }
    }
}

/// Password managers and terminals, where text must not be rewritten.
pub open spec fn guarded_apps() -> Seq<Seq<char>> {
    seq![
        "com.apple.keychainaccess"@,
        "com.1password.1password"@,
        "com.agilebits.onepassword7"@,
        "com.bitwarden.desktop"@,
        "com.apple.Terminal"@,
        "com.googlecode.iterm2"@,
        "1Password.exe"@,
        "KeePass.exe"@,
        "Bitwarden.exe"@,
    ]
}

fn default_excluded_apps() -> (r: Vec<String>)
    ensures
        text::views(r@) == guarded_apps(),
{
    let mut apps: Vec<String> = Vec::new();
    apps.push("com.apple.keychainaccess".to_owned());
    apps.push("com.1password.1password".to_owned());
    apps.push("com.agilebits.onepassword7".to_owned());
    apps.push("com.bitwarden.desktop".to_owned());
    apps.push("com.apple.Terminal".to_owned());
    apps.push("com.googlecode.iterm2".to_owned());
    apps.push("1Password.exe".to_owned());
    apps.push("KeePass.exe".to_owned());
    apps.push("Bitwarden.exe".to_owned());
    assert(text::views(apps@) =~= guarded_apps());
    apps
}

/// The settings to begin with.
pub open spec fn default_choices() -> Choices {
    Choices {
        enabled: true,
        layouts: seq!["us"@, "ru"@],
        sensitivity: Sensitivity::Balanced,
        min_word_len: 2,
        require_dict_below_len: 4,
        exceptions: Seq::empty(),
        excluded_apps: guarded_apps(),
        skip_all_caps: true,
        ai_assist: false,
        shortcut: Shortcut::Tap { modifier: Modifier::Option },
    }
}

impl Default for Config {
    fn default() -> (r: Config)
        ensures
            r@ == default_choices(),
    {
        let mut layouts: Vec<String> = Vec::new();
        layouts.push("us".to_owned());
        layouts.push("ru".to_owned());
        assert(text::views(layouts@) =~= seq!["us"@, "ru"@]);
        let exceptions: Vec<String> = Vec::new();
        assert(text::views(exceptions@) =~= Seq::<Seq<char>>::empty());
        Config {
            enabled: true,
            layouts,
            sensitivity: Sensitivity::Balanced,
            min_word_len: 2,
            require_dict_below_len: 4,
            exceptions,
            excluded_apps: default_excluded_apps(),
            skip_all_caps: true,
            ai_assist: false,
            shortcut: Shortcut::Tap { modifier: Modifier::Option },
        }
    }
}

/// The members of a list that differ from one text, in order.
pub open spec fn others(texts: Seq<Seq<char>>, but: Seq<char>) -> Seq<Seq<char>>
    decreases texts.len(),
{
    if texts.len() == 0 {
        Seq::empty()
    } else if texts.last() == but {
        others(texts.drop_last(), but)
    } else {
        others(texts.drop_last(), but).push(texts.last())
    }
}

impl Choices {
    /// The layouts other than the one in use.
    pub open spec fn alternatives(self, active: Seq<char>) -> Seq<Seq<char>> {
        others(self.layouts, active)
    }

    /// Whether a word is an exception, in whatever case.
    pub open spec fn excepts(self, word: Seq<char>) -> bool {
        exists|i: int|
            0 <= i < self.exceptions.len() && text::lowercase(#[trigger] self.exceptions[i])
                == text::lowercase(word)
    }

    /// Whether an application is left alone, in whatever case of ASCII letters.
    pub open spec fn excludes(self, app: Seq<char>) -> bool {
        exists|i: int|
            0 <= i < self.excluded_apps.len() && text::same_ignoring_ascii_case(
                #[trigger] self.excluded_apps[i],
                app,
            )
    }
}

/// The views of a list of string slices.
pub open spec fn slice_views(texts: Seq<&str>) -> Seq<Seq<char>> {
    texts.map_values(|s: &str| s@)
}

impl Config {
    /// The layouts other than the one in use, in order.
    pub fn alternatives(&self, active: &str) -> (r: Vec<&str>)
        ensures
            slice_views(r@) == self@.alternatives(active@),
    {
        let mut out: Vec<&str> = Vec::new();
        let mut i: usize = 0;
        let ghost all = text::views(self.layouts@);
        assert(slice_views(out@) =~= others(all.take(0), active@));
        while i < self.layouts.len()
            invariant
                i <= self.layouts@.len(),
                all == text::views(self.layouts@),
                slice_views(out@) == others(all.take(i as int), active@),
            decreases self.layouts@.len() - i,
        {
            assert(all.take(i + 1).drop_last() =~= all.take(i as int));
            assert(all.take(i + 1).last() == self.layouts@[i as int]@);
            let id: &str = self.layouts[i].as_str();
            if !text::same(id, active) {
                let ghost was = out@;
                out.push(id);
                assert(slice_views(out@) =~= slice_views(was).push(id@));
            }
            i += 1;
        }
        assert(all.take(all.len() as int) =~= all);
        out
    }

    /// Whether a word is an exception, in whatever case.
    pub fn is_exception(&self, word: &str) -> (r: bool)
        ensures
            r == self@.excepts(word@),
    {
        let w: String = text::to_lowercase(word);
        let mut i: usize = 0;
        while i < self.exceptions.len()
            invariant
                i <= self.exceptions@.len(),
                w@ == text::lowercase(word@),
                forall|k: int|
                    0 <= k < i ==> text::lowercase(#[trigger] self@.exceptions[k])
                        != text::lowercase(word@),
            decreases self.exceptions@.len() - i,
        {
            let e: String = text::to_lowercase(self.exceptions[i].as_str());
            assert(self@.exceptions[i as int] == self.exceptions@[i as int]@);
            if text::same(e.as_str(), w.as_str()) {
                return true;
            }
            i += 1;
        }
        false
    }

    /// Whether an application is left alone.
    pub fn is_excluded_app(&self, app: &str) -> (r: bool)
        ensures
            r == self@.excludes(app@),
    {
        let mut i: usize = 0;
        while i < self.excluded_apps.len()
            invariant
                i <= self.excluded_apps@.len(),
                forall|k: int|
                    0 <= k < i ==> !text::same_ignoring_ascii_case(
                        #[trigger] self@.excluded_apps[k],
                        app@,
                    ),
            decreases self.excluded_apps@.len() - i,
        {
            assert(self@.excluded_apps[i as int] == self.excluded_apps@[i as int]@);
            if text::eq_ignore_ascii_case(self.excluded_apps[i].as_str(), app) {
                return true;
            }
            i += 1;
        }
        false
    }
}

/// The members that differ from a text are found list by list, each in its place.
pub proof fn lemma_others_add_up(a: Seq<Seq<char>>, b: Seq<Seq<char>>, but: Seq<char>, t: Seq<char>)
    ensures
        others(a + b, but) == others(a, but) + others(b, but),
        t != but ==> others(seq![t], but) == seq![t],
        others(seq![but], but).len() == 0,
    decreases b.len(),
{
    if b.len() == 0 {
        assert(a + b =~= a);
        assert(others(a, but) + others(b, but) =~= others(a, but));
    } else {
        assert((a + b).drop_last() =~= a + b.drop_last());
        assert((a + b).last() == b.last());
        lemma_others_add_up(a, b.drop_last(), but, t);
        assert(others(a + b, but) =~= others(a, but) + others(b, but));
    }
    assert(seq![t].drop_last() =~= Seq::empty());
    assert(seq![but].drop_last() =~= Seq::empty());
    assert(others(Seq::<Seq<char>>::empty(), but).push(t) =~= seq![t]);
}

/// Password managers and terminals are left alone to begin with, however their names are
/// capitalised, and nothing else is.
pub proof fn lemma_password_managers_are_left_alone(app: Seq<char>)
    ensures
        default_choices().excludes(app) <==> {
            ||| text::same_ignoring_ascii_case("com.apple.keychainaccess"@, app)
            ||| text::same_ignoring_ascii_case("com.1password.1password"@, app)
            ||| text::same_ignoring_ascii_case("com.agilebits.onepassword7"@, app)
            ||| text::same_ignoring_ascii_case("com.bitwarden.desktop"@, app)
            ||| text::same_ignoring_ascii_case("com.apple.Terminal"@, app)
            ||| text::same_ignoring_ascii_case("com.googlecode.iterm2"@, app)
            ||| text::same_ignoring_ascii_case("1Password.exe"@, app)
            ||| text::same_ignoring_ascii_case("KeePass.exe"@, app)
            ||| text::same_ignoring_ascii_case("Bitwarden.exe"@, app)
        },
{
    let apps = default_choices().excluded_apps;
    assert(apps.len() == 9);
    assert(apps[0] == "com.apple.keychainaccess"@ && apps[1] == "com.1password.1password"@);
    assert(apps[2] == "com.agilebits.onepassword7"@ && apps[3] == "com.bitwarden.desktop"@);
    assert(apps[4] == "com.apple.Terminal"@ && apps[5] == "com.googlecode.iterm2"@);
    assert(apps[6] == "1Password.exe"@ && apps[7] == "KeePass.exe"@);
    assert(apps[8] == "Bitwarden.exe"@);
}

/// To begin with the engine is on, for US English and Russian, of middling sensitivity;
/// no word is an exception; single characters are never converted, and words of fewer
/// than four characters to known words only; acronyms are left alone; nobody is asked;
/// and the shortcut is a tap on the option key.
pub proof fn lemma_to_begin_with(word: Seq<char>, m: Modifier)
    ensures
        ({
            let c = default_choices();
            &&& c.enabled && c.skip_all_caps && !c.ai_assist
            &&& c.sensitivity == Sensitivity::Balanced
            &&& c.layouts == seq!["us"@, "ru"@]
            &&& !c.excepts(word)
            &&& word.len() < c.min_word_len <==> word.len() <= 1
            &&& word.len() < c.require_dict_below_len <==> word.len() <= 3
            &&& c.shortcut == (Shortcut::Tap { modifier: m }) <==> m == Modifier::Option
        }),
{
}

} // verus!
