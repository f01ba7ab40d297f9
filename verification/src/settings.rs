//! The settings that are kept, and what the settings window shows.

use crate::ai;
use crate::ai::{ClaudeAssist, Learner};
use crate::assist;
use crate::config;
use crate::config::{Choices, Config, Modifier, Sensitivity, Shortcut};
use crate::detect::{Detector, Judge, Opinion, Verdict};
use crate::engine::Engine;
use crate::layout::{Def, LayoutDef};
use crate::model::{Lexicon, Models};
use crate::tables;
use crate::text;
use vstd::prelude::*;
use vstd::string::{StrSliceExecFns, StringExecFns};

verus! {

/// The settings of the engine and those of the application around it.
#[derive(Debug, Clone)]
pub struct Settings {
    pub config: Config,
    /// The key for the second opinion; empty unless the user has given one.
    pub api_key: String,
    pub launch_at_login: bool,
}

/// What [`Settings`] say.
#[verifier::ext_equal]
pub struct Preferences {
    pub choices: Choices,
    pub api_key: Seq<char>,
    pub launch_at_login: bool,
}

impl View for Settings {
    type V = Preferences;

    open spec fn view(&self) -> Preferences {
        Preferences {
            choices: self.config@,
            api_key: self.api_key@,
            launch_at_login: self.launch_at_login,
        }
    }
}

impl Default for Settings {
    fn default() -> (r: Settings)
        ensures
            r@ == (Preferences {
                choices: config::default_choices(),
                api_key: Seq::empty(),
                launch_at_login: false,
            }),
    {
        let s = Settings {
            config: Config::default(),
            api_key: String::new(),
            launch_at_login: false,
        };
        assert(s@.api_key =~= Seq::empty());
        s
    }
}

impl Preferences {
    /// The settings after a change. What is not given stays.
    pub open spec fn changed(
        self,
        choices: Choices,
        api_key: Option<Seq<char>>,
        launch_at_login: Option<bool>,
    ) -> Preferences {
        Preferences {
            choices,
            api_key: match api_key {
                Some(key) => key,
                None => self.api_key,
            },
            launch_at_login: match launch_at_login {
                Some(launch) => launch,
                None => self.launch_at_login,
            },
        }
    }

    /// Whether a second opinion is to be had: it is wanted, and there is a key.
    pub open spec fn wants_assist(self) -> bool {
        self.choices.ai_assist && !text::blank(self.api_key)
    }
}

impl Settings {
    /// Changes the settings. What is not given stays.
    pub fn change(
        &mut self,
        config: Config,
        api_key: Option<String>,
        launch_at_login: Option<bool>,
    )
        ensures
            final(self)@ == old(self)@.changed(config@, text::optional(api_key), launch_at_login),
    {
        self.config = config;
        if let Some(key) = api_key {
            self.api_key = key;
        }
        if let Some(launch) = launch_at_login {
            self.launch_at_login = launch;
        }
    }

    pub fn has_api_key(&self) -> (r: bool)
        ensures
            r == !text::blank(self@.api_key),
    {
        !text::is_blank(self.api_key.as_str())
    }

    /// The second opinion that these settings ask for. It begins with nothing
    /// learned.
    pub fn assist(&self, model: &str) -> (r: Option<ClaudeAssist>)
        ensures
            r is Some <==> self@.wants_assist(),
            r matches Some(a) ==> a.config.api_key@ == self@.api_key && a.config.model@ == model@
                && a.config.timeout_secs == ai::TIMEOUT_SECS && a.inner@ == (Learner {
                known: Map::empty(),
                waiting: Seq::empty(),
            }),
    {
        if !self.config.ai_assist {
            return None;
        }
        ClaudeAssist::start(self.api_key.as_str(), model)
    }
}

/// A layout as the settings window shows it.
#[derive(Debug, Clone)]
pub struct LayoutInfo {
    pub id: String,
    pub name: String,
    pub language: String,
    /// Whether there is little to tell words on this layout by, since it shares
    /// its alphabet with US QWERTY.
    pub limited: bool,
}

impl LayoutInfo {
    /// Whether this shows a layout.
    pub open spec fn shows(self, d: Def) -> bool {
        &&& self.id@ == d.id
        &&& self.name@ == d.name
        &&& self.language@ == d.lang
        &&& self.limited == (d.latin_overlap && d.id != "us"@)
    }
}

/// Every layout, as the settings window shows it.
pub fn layout_catalog() -> (r: Vec<LayoutInfo>)
    ensures
        r@.len() == tables::known().len(),
        forall|i: int| 0 <= i < r@.len() ==> (#[trigger] r@[i]).shows(tables::known()[i]),
{
    let defs: Vec<LayoutDef> = tables::layout_defs();
    let mut out: Vec<LayoutInfo> = Vec::new();
    let mut i: usize = 0;
    while i < defs.len()
        invariant
            i <= defs@.len(),
            defs@.len() == tables::known().len(),
            forall|k: int| 0 <= k < defs@.len() ==> (#[trigger] defs@[k])@ == tables::known()[k],
            out@.len() == i,
            forall|k: int| 0 <= k < i ==> (#[trigger] out@[k]).shows(tables::known()[k]),
        decreases defs@.len() - i,
    {
        let d: LayoutDef = defs[i];
        assert(d@ == tables::known()[i as int]);
        out.push(
            LayoutInfo {
                id: d.id.to_owned(),
                name: d.name.to_owned(),
                language: d.lang.to_owned(),
                limited: d.latin_overlap && !text::same(d.id, "us"),
            },
        );
        i += 1;
    }
    out
}

/// A modifier as the settings window spells it.
pub open spec fn modifier_word(modifier: Modifier) -> Seq<char> {
    match modifier {
        Modifier::Option => "option"@,
        Modifier::Shift => "shift"@,
        Modifier::Control => "control"@,
        Modifier::Command => "command"@,
    }
}

/// A modifier as the settings window spells it.
pub fn modifier_key(modifier: Modifier) -> (r: &'static str)
    ensures
        r@ == modifier_word(modifier),
{
    match modifier {
        Modifier::Option => "option",
        Modifier::Shift => "shift",
        Modifier::Control => "control",
        Modifier::Command => "command",
    }
}

/// A shortcut as the settings window spells it.
pub open spec fn shortcut_word(shortcut: Shortcut) -> Seq<char> {
    match shortcut {
        Shortcut::Off => "off"@,
        Shortcut::Tap { modifier } => "tap:"@ + modifier_word(modifier),
        Shortcut::DoubleTap { modifier } => "doubletap:"@ + modifier_word(modifier),
    }
}

/// A shortcut as the settings window spells it, such as `doubletap:option`.
pub fn shortcut_to_string(shortcut: Shortcut) -> (r: String)
    ensures
        r@ == shortcut_word(shortcut),
{
    match shortcut {
        Shortcut::Off => "off".to_owned(),
        Shortcut::Tap { modifier } => {
            let mut out: String = "tap:".to_owned();
            out.append(modifier_key(modifier));
            out
        },
        Shortcut::DoubleTap { modifier } => {
            let mut out: String = "doubletap:".to_owned();
            out.append(modifier_key(modifier));
            out
        },
    }
}

/// A sensitivity as the settings window spells it.
pub open spec fn sensitivity_word(sensitivity: Sensitivity) -> Seq<char> {
    match sensitivity {
        Sensitivity::Cautious => "cautious"@,
        Sensitivity::Balanced => "balanced"@,
        Sensitivity::Eager => "eager"@,
    }
}

/// A sensitivity as the settings window spells it.
pub fn sensitivity_key(sensitivity: Sensitivity) -> (r: &'static str)
    ensures
        r@ == sensitivity_word(sensitivity),
{
    match sensitivity {
        Sensitivity::Cautious => "cautious",
        Sensitivity::Balanced => "balanced",
        Sensitivity::Eager => "eager",
    }
}

/// Whether bytes come before others or are the same, compared one by one.
pub open spec fn in_order(a: Seq<u8>, b: Seq<u8>) -> bool
    decreases a.len(),
{
    if a.len() == 0 {
        true
    } else if b.len() == 0 {
        false
    } else if a[0] != b[0] {
        a[0] < b[0]
    } else {
        in_order(a.skip(1), b.skip(1))
    }
}

/// Texts in the order of their UTF-8.
pub open spec fn alphabetical(texts: Seq<Seq<char>>) -> bool {
    forall|i: int, j: int|
        0 <= i < j < texts.len() ==> in_order(
            vstd::utf8::encode_utf8(#[trigger] texts[i]),
            vstd::utf8::encode_utf8(#[trigger] texts[j]),
        )
}

/// `slice::sort` on strings keeps the strings and puts them in the order of
/// `str`, which compares their bytes one by one.
#[verifier::external_body]
fn sort_texts(texts: &mut Vec<String>)
    ensures
        text::views(final(texts)@).to_multiset() == text::views(old(texts)@).to_multiset(),
        alphabetical(text::views(final(texts)@)),
{
    texts.sort()
}

/// The languages there are models for, in order and each once.
pub open spec fn lists_langs(langs: Seq<Seq<char>>, models: Map<Seq<char>, Lexicon>) -> bool {
    &&& alphabetical(langs)
    &&& langs.no_duplicates()
    &&& forall|l: Seq<char>| #[trigger] langs.contains(l) <==> models.contains_key(l)
}

/// The languages there are models for, in order.
pub fn models_loaded(models: &Models) -> (r: Vec<String>)
    ensures
        lists_langs(text::views(r@), models@),
{
    let langs: Vec<&str> = models.langs();
    let mut out: Vec<String> = Vec::new();
    let mut i: usize = 0;
    while i < langs.len()
        invariant
            i <= langs@.len(),
            text::views(out@) == config::slice_views(langs@).take(i as int),
        decreases langs@.len() - i,
    {
        let ghost were = text::views(out@);
        out.push(langs[i].to_owned());
        assert(text::views(out@) =~= were.push(langs@[i as int]@));
        assert(config::slice_views(langs@).take(i + 1) =~= config::slice_views(langs@).take(
            i as int,
        ).push(langs@[i as int]@));
        i += 1;
    }
    let ghost unsorted = text::views(out@);
    assert(unsorted =~= config::slice_views(langs@));
    sort_texts(&mut out);
    proof {
        let sorted = text::views(out@);
        unsorted.to_multiset_ensures();
        sorted.to_multiset_ensures();
        assert(unsorted.no_duplicates()) by {
            assert forall|i: int, j: int|
                0 <= i < unsorted.len() && 0 <= j < unsorted.len() && i != j implies unsorted[i]
                != unsorted[j] by {
                if i < j {
                    assert(langs@[i]@ != langs@[j]@);
                } else {
                    assert(langs@[j]@ != langs@[i]@);
                }
            }
        }
        unsorted.lemma_multiset_has_no_duplicates();
        sorted.lemma_multiset_has_no_duplicates_conv();
        assert forall|l: Seq<char>| #[trigger] sorted.contains(l) <==> models@.contains_key(l) by {
            assert(sorted.contains(l) <==> sorted.to_multiset().count(l) > 0);
            assert(unsorted.contains(l) <==> unsorted.to_multiset().count(l) > 0);
            if unsorted.contains(l) {
                let k = unsorted.index_of(l);
                assert(langs@[k]@ == l);
            }
            if models@.contains_key(l) {
                let k = choose|k: int| 0 <= k < langs@.len() && (#[trigger] langs@[k])@ == l;
                assert(unsorted[k] == l);
            }
        }
    }
    out
}

/// What the settings window shows.
#[derive(Debug, Clone)]
pub struct UiState {
    pub enabled: bool,
    pub layouts: Vec<String>,
    pub sensitivity: &'static str,
    pub skip_all_caps: bool,
    pub ai_assist: bool,
    pub has_api_key: bool,
    pub launch_at_login: bool,
    pub excluded_apps: Vec<String>,
    pub exceptions: Vec<String>,
    pub shortcut: String,
    /// Whether the second opinion is switched on and can be had.
    pub assist_active: bool,
    /// How many words the second opinion has settled.
    pub assist_learned: usize,
    pub corrections: u64,
    pub undos: u64,
    pub available_layouts: Vec<LayoutInfo>,
    pub models_loaded: Vec<String>,
}

/// What the settings window shows of the engine and the settings.
pub fn ui_state(engine: &Engine, settings: &Settings) -> (r: UiState)
    ensures
        ({
            let choices = engine@.judge.choices;
            &&& r.enabled == choices.enabled
            &&& text::views(r.layouts@) == choices.layouts
            &&& r.sensitivity@ == sensitivity_word(choices.sensitivity)
            &&& r.skip_all_caps == choices.skip_all_caps
            &&& r.ai_assist == choices.ai_assist
            &&& r.has_api_key == !text::blank(settings@.api_key)
            &&& r.launch_at_login == settings@.launch_at_login
            &&& text::views(r.excluded_apps@) == choices.excluded_apps
            &&& text::views(r.exceptions@) == choices.exceptions
            &&& r.shortcut@ == shortcut_word(choices.shortcut)
            &&& r.assist_active == engine@.assisted
            &&& match engine.assist {
                Some(assist) => assist::counts(&*assist, r.assist_learned),
                None => r.assist_learned == 0,
            }
            &&& r.corrections == engine@.stats.corrections
            &&& r.undos == engine@.stats.undos
            &&& r.available_layouts@.len() == tables::known().len()
            &&& forall|i: int|
                0 <= i < r.available_layouts@.len() ==> (#[trigger] r.available_layouts@[i]).shows(
                    tables::known()[i],
                )
            &&& lists_langs(text::views(r.models_loaded@), engine@.judge.models)
        }),
{
    let config: &Config = engine.config();
    let stats = engine.stats();
    UiState {
        enabled: engine.detector.config.enabled,
        layouts: text::copy_of(&engine.detector.config.layouts),
        sensitivity: sensitivity_key(config.sensitivity),
        skip_all_caps: config.skip_all_caps,
        ai_assist: config.ai_assist,
        has_api_key: settings.has_api_key(),
        launch_at_login: settings.launch_at_login,
        excluded_apps: text::copy_of(&config.excluded_apps),
        exceptions: text::copy_of(&config.exceptions),
        shortcut: shortcut_to_string(config.shortcut),
        assist_active: engine.has_assist(),
        assist_learned: engine.assist_learned(),
        corrections: stats.corrections,
        undos: stats.undos,
        available_layouts: layout_catalog(),
        models_loaded: models_loaded(&engine.detector.models),
    }
}

/// A text as it would come out.
#[derive(Debug, Clone)]
pub struct PreviewResult {
    pub output: String,
    pub changed: bool,
}

/// What becomes of one word, and whether it changes.
pub open spec fn previewed(judge: Judge, token: Seq<char>, layout: Seq<char>) -> (Seq<char>, bool) {
    let (start, end) = judge.middle(token, layout);
    match judge.opinion(token.subrange(start, end), layout) {
        Opinion::Switch(r) => (token.take(start) + r.converted + token.skip(end), true),
        _ => (token, false),
    }
}

/// What becomes of these words, and whether any changes.
pub open spec fn previews(judge: Judge, tokens: Seq<Seq<char>>, layout: Seq<char>) -> (
    Seq<Seq<char>>,
    bool,
)
    decreases tokens.len(),
{
    if tokens.len() == 0 {
        (Seq::empty(), false)
    } else {
        let (before, changed) = previews(judge, tokens.drop_last(), layout);
        let (shown, changes) = previewed(judge, tokens.last(), layout);
        (before.push(shown), changed || changes)
    }
}

/// What comes out for a text as a whole, and whether it changes.
pub open spec fn preview_of(judge: Judge, s: Seq<char>, layout: Seq<char>) -> (Seq<char>, bool) {
    let (shown, changed) = previews(judge, text::words_of(s), layout);
    (text::spaced(shown), changed)
}

/// Each word is treated on its own: where the opinion on the word proper is to
/// switch, the reading stands between what surrounds it; every other word stays as
/// it was typed. There are as many words as before, and something changes exactly
/// if some word is switched.
pub proof fn lemma_each_word_is_previewed_on_its_own(
    judge: Judge,
    tokens: Seq<Seq<char>>,
    layout: Seq<char>,
)
    ensures
        ({
            let (shown, changed) = previews(judge, tokens, layout);
            &&& shown.len() == tokens.len()
            &&& forall|i: int|
                0 <= i < tokens.len() ==> {
                    let (start, end) = judge.middle(tokens[i], layout);
                    let opinion = judge.opinion(tokens[i].subrange(start, end), layout);
                    &&& opinion is Switch ==> #[trigger] shown[i] == tokens[i].take(start)
                        + opinion->Switch_0.converted + tokens[i].skip(end)
                    &&& !(opinion is Switch) ==> shown[i] == tokens[i]
                }
            &&& changed <==> exists|i: int|
                0 <= i < tokens.len() && switches(judge, #[trigger] tokens[i], layout)
        }),
{
    let (shown, changed) = previews(judge, tokens, layout);
    lemma_one_by_one(judge, tokens, layout);
    assert forall|i: int| 0 <= i < tokens.len() implies {
        let (start, end) = judge.middle(tokens[i], layout);
        let opinion = judge.opinion(tokens[i].subrange(start, end), layout);
        &&& opinion is Switch ==> #[trigger] shown[i] == tokens[i].take(start)
            + opinion->Switch_0.converted + tokens[i].skip(end)
        &&& !(opinion is Switch) ==> shown[i] == tokens[i]
    } by {
        lemma_previewed(judge, tokens[i], layout);
    }
    assert forall|i: int| 0 <= i < tokens.len() implies switches(judge, #[trigger] tokens[i], layout)
        == previewed(judge, tokens[i], layout).1 by {
        lemma_previewed(judge, tokens[i], layout);
    }
}

proof fn lemma_previewed(judge: Judge, token: Seq<char>, layout: Seq<char>)
    ensures
        ({
            let (start, end) = judge.middle(token, layout);
            let opinion = judge.opinion(token.subrange(start, end), layout);
            let (shown, changes) = previewed(judge, token, layout);
            &&& opinion is Switch ==> shown == token.take(start) + opinion->Switch_0.converted
                + token.skip(end)
            &&& !(opinion is Switch) ==> shown == token
            &&& changes == switches(judge, token, layout)
        }),
{
}

/// Word by word, what comes out for some words is what comes out for each.
#[verifier::spinoff_prover]
proof fn lemma_one_by_one(judge: Judge, tokens: Seq<Seq<char>>, layout: Seq<char>)
    ensures
        ({
            let (shown, changed) = previews(judge, tokens, layout);
            &&& shown.len() == tokens.len()
            &&& forall|i: int|
                0 <= i < tokens.len() ==> #[trigger] shown[i] == previewed(
                    judge,
                    tokens[i],
                    layout,
                ).0
            &&& changed <==> exists|i: int|
                0 <= i < tokens.len() && previewed(judge, #[trigger] tokens[i], layout).1
        }),
    decreases tokens.len(),
{
    if tokens.len() > 0 {
        let before = tokens.drop_last();
        let n = tokens.len() - 1;
        lemma_one_by_one(judge, before, layout);
        let (shown, changed) = previews(judge, tokens, layout);
        let (old_shown, old_changed) = previews(judge, before, layout);
        assert(tokens[n] == tokens.last());
        assert forall|i: int| 0 <= i < tokens.len() implies #[trigger] shown[i] == previewed(
            judge,
            tokens[i],
            layout,
        ).0 by {
            if i < n {
                assert(before[i] == tokens[i]);
                assert(shown[i] == old_shown[i]);
            }
        }
        if old_changed {
            let i = choose|i: int|
                0 <= i < before.len() && previewed(judge, #[trigger] before[i], layout).1;
            assert(tokens[i] == before[i]);
        }
        if exists|i: int| 0 <= i < tokens.len() && previewed(judge, #[trigger] tokens[i], layout).1 {
            let i = choose|i: int|
                0 <= i < tokens.len() && previewed(judge, #[trigger] tokens[i], layout).1;
            if i < n {
                assert(before[i] == tokens[i]);
            }
        }
    }
}

/// Whether the opinion on the word proper is to switch.
pub open spec fn switches(judge: Judge, token: Seq<char>, layout: Seq<char>) -> bool {
    let (start, end) = judge.middle(token, layout);
    judge.opinion(token.subrange(start, end), layout) is Switch
}

/// What comes out for some words and then others is what comes out for these and
/// then for those.
pub proof fn lemma_previews_add_up(
    judge: Judge,
    a: Seq<Seq<char>>,
    b: Seq<Seq<char>>,
    layout: Seq<char>,
)
    ensures
        previews(judge, a + b, layout).0 == previews(judge, a, layout).0 + previews(
            judge,
            b,
            layout,
        ).0,
        previews(judge, a + b, layout).1 == (previews(judge, a, layout).1 || previews(
            judge,
            b,
            layout,
        ).1),
    decreases b.len(),
{
    if b.len() == 0 {
        assert(a + b =~= a);
    } else {
        assert((a + b).drop_last() =~= a + b.drop_last());
        assert((a + b).last() == b.last());
        lemma_previews_add_up(judge, a, b.drop_last(), layout);
    }
    assert(previews(judge, a + b, layout).0 =~= previews(judge, a, layout).0 + previews(
        judge,
        b,
        layout,
    ).0);
}

/// What comes out for two texts with white space in between is what comes out for
/// each, with a space in between.
pub proof fn lemma_texts_are_previewed_apart(
    judge: Judge,
    a: Seq<char>,
    space: char,
    b: Seq<char>,
    layout: Seq<char>,
)
    requires
        text::whitespace(space),
        text::words_of(a).len() > 0,
        text::words_of(b).len() > 0,
    ensures
        preview_of(judge, a.push(space) + b, layout).0 == preview_of(judge, a, layout).0 + seq![
            ' ',
        ] + preview_of(judge, b, layout).0,
        preview_of(judge, a.push(space) + b, layout).1 == (preview_of(judge, a, layout).1
            || preview_of(judge, b, layout).1),
{
    text::lemma_white_space_separates(a, space, b);
    lemma_previews_add_up(judge, text::words_of(a), text::words_of(b), layout);
    lemma_each_word_is_previewed_on_its_own(judge, text::words_of(a), layout);
    lemma_each_word_is_previewed_on_its_own(judge, text::words_of(b), layout);
    text::lemma_spaced_apart(
        previews(judge, text::words_of(a), layout).0,
        previews(judge, text::words_of(b), layout).0,
    );
}

/// Tries a text against the settings without typing it anywhere.
pub fn preview(detector: &Detector, text: &str, layout: &str) -> (r: PreviewResult)
    ensures
        ({
            let (shown, changed) = previews(detector@, text::words_of(text@), layout@);
            r.output@ == text::spaced(shown) && r.changed == changed
        }),
{
    let tokens: Vec<String> = text::split_whitespace(text);
    let ghost all = text::views(tokens@);
    let mut out: Vec<String> = Vec::new();
    let mut changed: bool = false;
    let mut i: usize = 0;
    assert(text::views(out@) =~= previews(detector@, all.take(0), layout@).0);
    while i < tokens.len()
        invariant
            i <= tokens@.len(),
            all == text::views(tokens@),
            (text::views(out@), changed) == previews(detector@, all.take(i as int), layout@),
        decreases tokens@.len() - i,
    {
        assert(all.take(i + 1).drop_last() =~= all.take(i as int));
        assert(all.take(i + 1).last() == tokens@[i as int]@);
        let token: &str = tokens[i].as_str();
        let (prefix, proper, suffix) = detector.trim_affixes(token, layout);
        let ghost were = text::views(out@);
        match detector.evaluate(proper, layout) {
            Verdict::Switch(c) => {
                let mut shown: String = prefix.to_owned();
                shown.append(c.converted.as_str());
                shown.append(suffix);
                let ghost new = shown@;
                out.push(shown);
                changed = true;
                assert(text::views(out@) =~= were.push(new));
            },
            _ => {
                out.push(token.to_owned());
                assert(text::views(out@) =~= were.push(token@));
            },
        }
        i += 1;
    }
    assert(all.take(all.len() as int) =~= all);
    PreviewResult { output: text::join(&out), changed }
}

/// A change takes the settings of the engine over, and of the others those that are
/// given; what is not given stays.
pub proof fn lemma_what_a_change_changes(
    p: Preferences,
    choices: Choices,
    key: Seq<char>,
    launch: bool,
)
    ensures
        p.changed(choices, None, None) == (Preferences { choices, ..p }),
        p.changed(choices, Some(key), None) == (Preferences { choices, api_key: key, ..p }),
        p.changed(choices, None, Some(launch)) == (Preferences {
            choices,
            launch_at_login: launch,
            ..p
        }),
        p.changed(choices, Some(key), Some(launch)) == (Preferences {
            choices,
            api_key: key,
            launch_at_login: launch,
        }),
{
}

/// A modifier is spelled as it is called, in lower case.
pub proof fn lemma_modifiers_are_spelled_as_they_are_called(m: Modifier)
    ensures
        modifier_word(m).len() == m.name().len(),
        forall|i: int|
            0 <= i < modifier_word(m).len() ==> text::ascii_folded(#[trigger] modifier_word(m)[i])
                == text::ascii_folded(m.name()[i]) && 'a' as int <= modifier_word(m)[i] as int
                <= 'z' as int,
{
    reveal_strlit("option");
    reveal_strlit("shift");
    reveal_strlit("control");
    reveal_strlit("command");
    reveal_strlit("Option");
    reveal_strlit("Shift");
    reveal_strlit("Control");
    reveal_strlit("Command");
}

/// No two modifiers are spelled alike.
pub proof fn lemma_modifiers_are_spelled_apart(m: Modifier, n: Modifier)
    requires
        modifier_word(m) == modifier_word(n),
    ensures
        m == n,
{
    reveal_strlit("option");
    reveal_strlit("shift");
    reveal_strlit("control");
    reveal_strlit("command");
    assert("control"@[2] == 'n' && "command"@[2] == 'm');
    assert(modifier_word(m).len() == modifier_word(n).len());
    assert(modifier_word(m)[2] == modifier_word(n)[2]);
    match m {
        Modifier::Option => {
            assert(modifier_word(n).len() == 6);
        },
        Modifier::Shift => {
            assert(modifier_word(n).len() == 5);
        },
        Modifier::Control => {
            assert(modifier_word(n).len() == 7);
        },
        Modifier::Command => {
            assert(modifier_word(n).len() == 7);
        },
    }
}

/// No two shortcuts are spelled alike, and each names its modifier behind a colon.
pub proof fn lemma_shortcuts_are_spelled_apart(a: Shortcut, b: Shortcut)
    ensures
        shortcut_word(a) == shortcut_word(b) ==> a == b,
        a.trigger() matches Some(m) ==> exists|k: int|
            0 <= k < shortcut_word(a).len() && #[trigger] shortcut_word(a)[k] == ':'
                && shortcut_word(a).skip(k + 1) == modifier_word(m),
        a is Off <==> !shortcut_word(a).contains(':'),
{
    reveal_strlit("off");
    reveal_strlit("tap:");
    reveal_strlit("doubletap:");
    match a {
        Shortcut::Tap { modifier } => {
            assert(shortcut_word(a)[3] == ':');
            assert(shortcut_word(a).skip(4) =~= modifier_word(modifier));
        },
        Shortcut::DoubleTap { modifier } => {
            assert(shortcut_word(a)[9] == ':');
            assert(shortcut_word(a).skip(10) =~= modifier_word(modifier));
        },
        Shortcut::Off => {},
    }
    if shortcut_word(a) == shortcut_word(b) {
        assert(shortcut_word(a)[0] == shortcut_word(b)[0]);
        match (a, b) {
            (Shortcut::Tap { modifier: m }, Shortcut::Tap { modifier: n }) => {
                assert(shortcut_word(b).skip(4) =~= modifier_word(n));
                assert(shortcut_word(a).skip(4) =~= modifier_word(m));
                lemma_modifiers_are_spelled_apart(m, n);
            },
            (Shortcut::DoubleTap { modifier: m }, Shortcut::DoubleTap { modifier: n }) => {
                assert(shortcut_word(b).skip(10) =~= modifier_word(n));
                assert(shortcut_word(a).skip(10) =~= modifier_word(m));
                lemma_modifiers_are_spelled_apart(m, n);
            },
            _ => {},
        }
    }
}

/// A second opinion is had exactly if it is wanted and the key holds more than white
/// space.
pub proof fn lemma_when_a_second_opinion_is_had(p: Preferences)
    ensures
        p.wants_assist() <==> p.choices.ai_assist && exists|i: int|
            0 <= i < p.api_key.len() && !text::whitespace(#[trigger] p.api_key[i]),
{
}

/// There is little to tell words by on the layouts for Latin letters other than the US one,
/// and on no other.
pub proof fn lemma_which_layouts_are_limited(info: LayoutInfo, i: int)
    requires
        0 <= i < tables::known().len(),
        info.shows(tables::known()[i]),
    ensures
        info.limited <==> i >= 6,
        info.id@ == tables::known()[i].id && info.language@ == tables::known()[i].lang
            && info.name@ == tables::known()[i].name,
{
    if i > 0 {
        tables::lemma_every_layout_has_its_own_identifier(0, i);
    }
}

} // verus!
