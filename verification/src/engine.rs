//! Turns a stream of keystrokes into corrections.
//!
//! The buffer says when a word has ended, the detector says whether it was meant
//! for another layout, and the engine decides whether to act now.

use crate::assist;
use crate::assist::{Assist, Doubt, Question};
use crate::buffer::{Behind, Buffer, Ended, Input, Word};
use crate::config;
use crate::config::{Choices, Config, Modifier, Shortcut};
use crate::detect::{Candidate, Detector, Judge, Opinion, Reading, Verdict};
use crate::input::{Context, Edit, Key, KeyEvent, Modifiers, Surroundings, TextWriter};
use crate::layout;
use crate::layout::{KeyPress, Layout};
use crate::model::Models;
use crate::text;
use std::sync::Arc;
use std::time::{Duration, Instant};
use vstd::prelude::*;
use vstd::string::{StrSliceExecFns, StringExecFns};

verus! {

/// What is to be done to the text under the caret.
#[derive(Debug, Clone)]
pub enum Action {
    /// Everything stays as it is.
    Nothing,
    /// `delete` characters are deleted and `text` is typed in their place.
    Replace {
        delete: usize,
        text: String,
        /// The layout that the text belongs to, so that the next word is typed
        /// on the right one.
        switch_to: Option<String>,
    },
}

/// What an [`Action`] says.
#[verifier::ext_equal]
pub enum Deed {
    Nothing,
    Replace { delete: nat, text: Seq<char>, switch_to: Option<Seq<char>> },
}

impl View for Action {
    type V = Deed;

    open spec fn view(&self) -> Deed {
        match *self {
            Action::Nothing => Deed::Nothing,
            Action::Replace { delete, text, switch_to } => Deed::Replace {
                delete: delete as nat,
                text: text@,
                switch_to: text::optional(switch_to),
            },
        }
    }
}

impl PartialEq for Action {
    fn eq(&self, other: &Action) -> (r: bool) {
        match self {
            Action::Nothing => match other {
                Action::Nothing => true,
                Action::Replace { .. } => false,
            },
            Action::Replace { delete, text, switch_to } => match other {
                Action::Nothing => false,
                Action::Replace { delete: other_delete, text: other_text, switch_to: other_to } => {
                    *delete == *other_delete && text::same(text.as_str(), other_text.as_str())
                        && text::same_optional(switch_to, other_to)
                },
            },
        }
    }
}

impl vstd::std_specs::cmp::PartialEqSpecImpl for Action {
    open spec fn obeys_eq_spec() -> bool {
        true
    }

    open spec fn eq_spec(&self, other: &Action) -> bool {
        self@ == other@
    }
}

impl Deed {
    /// The edits that carry it out by typing the text.
    pub open spec fn edits(self) -> Seq<Edit> {
        match self {
            Deed::Nothing => Seq::empty(),
            Deed::Replace { delete, text, .. } => seq![Edit::Backspace(delete), Edit::Type(text)],
        }
    }

    /// The edits that carry it out where this layout is known to be active:
    /// keys are pressed where keys alone can produce the text and the writer can
    /// press them, and the text is typed otherwise.
    pub open spec fn edits_on(self, active: Option<Seq<char>>, keys: bool) -> Seq<Edit> {
        match self {
            Deed::Nothing => Seq::empty(),
            Deed::Replace { delete, text, .. } => {
                let cleared = if delete > 0 {
                    seq![Edit::Backspace(delete)]
                } else {
                    Seq::empty()
                };
                match pressed(active, text) {
                    Some(presses) => if keys {
                        cleared.push(Edit::Keys(presses))
                    } else {
                        cleared.push(Edit::Type(text))
                    },
                    None => cleared.push(Edit::Type(text)),
                }
            },
        }
    }
}

/// The keys that produce a text on the active layout, if keys alone can.
pub open spec fn pressed(active: Option<Seq<char>>, s: Seq<char>) -> Option<Seq<KeyPress>> {
    match active {
        Some(id) => match layout::board_for(id) {
            Some(b) => if layout::injectable(layout::strokes(b, s)) {
                Some(
                    Seq::new(
                        layout::strokes(b, s).len(),
                        |i: int| layout::key_press(layout::strokes(b, s)[i])->0,
                    ),
                )
            } else {
                None
            },
            None => None,
        },
        None => None,
    }
}

impl Action {
    /// Carries the action out by typing the text.
    pub fn apply(&self, writer: &mut dyn TextWriter)
        ensures
            final(writer).sent() == old(writer).sent() + self@.edits(),
    {
        match self {
            Action::Replace { delete, text, .. } => {
                writer.replace(*delete, text.as_str());
                assert(old(writer).sent() + self@.edits() =~= old(writer).sent().push(
                    Edit::Backspace(*delete as nat),
                ).push(Edit::Type(text@)));
            },
            Action::Nothing => {
                assert(old(writer).sent() + self@.edits() =~= old(writer).sent());
            },
        }
    }

    /// Carries the action out with this layout known to be active.
    ///
    /// A key press means the right character only once the right layout is
    /// active, so keys are pressed where it is, and the text is typed otherwise.
    /// Gives whether keys were pressed.
    pub fn apply_on(&self, active: Option<&str>, writer: &mut dyn TextWriter) -> (keys: bool)
        ensures
            keys == (self@ matches Deed::Replace { text, .. } && pressed(
                text::optional_slice(active),
                text,
            ) matches Some(presses) && old(writer).can_press(presses)),
            final(writer).sent() == old(writer).sent() + self@.edits_on(
                text::optional_slice(active),
                keys,
            ),
    {
        let ghost id = text::optional_slice(active);
        let ghost start = writer.sent();
        match self {
            Action::Replace { delete, text, .. } => {
                if *delete > 0 {
                    writer.backspace(*delete);
                }
                let ghost cleared = writer.sent();
                let presses: Option<Vec<KeyPress>> = match active {
                    Some(id) => layout::presses_for(text.as_str(), id),
                    None => None,
                };
                let mut replayed: bool = false;
                if let Some(presses) = presses {
                    proof {
                        let all = layout::strokes(layout::board_for(id->0)->0, text@);
                        assert(pressed(id, text@)->0 =~= presses@) by {
                            assert forall|i: int| 0 <= i < all.len() implies presses@[i]
                                == layout::key_press(#[trigger] all[i])->0 by {
                                assert(Some(presses@[i]) == layout::key_press(all[i]));
                            }
                        }
                    }
                    replayed = writer.type_keys(&presses);
                }
                if !replayed {
                    writer.type_text(text.as_str());
                }
                assert(writer.sent() =~= start + self@.edits_on(id, replayed));
                replayed
            },
            Action::Nothing => {
                assert(start + self@.edits_on(id, false) =~= start);
                false
            },
        }
    }

    /// The layout that the keyboard should move to.
    pub fn layout_switch(&self) -> (r: Option<&str>)
        ensures
            match r {
                Some(id) => self@ matches Deed::Replace { switch_to, .. } && switch_to == Some(id@),
                None => self@ matches Deed::Replace { switch_to, .. } ==> switch_to is None,
            },
    {
        match self {
            Action::Replace { switch_to, .. } => match switch_to {
                Some(id) => Some(id.as_str()),
                None => None,
            },
            Action::Nothing => None,
        }
    }
}

/// Running totals.
#[derive(Debug, Clone, Copy, PartialEq, Eq, Structural)]
pub struct Stats {
    pub corrections: u64,
    pub undos: u64,
}

impl Default for Stats {
    fn default() -> (r: Stats)
        ensures
            r == (Stats { corrections: 0, undos: 0 }),
    {
        Stats { corrections: 0, undos: 0 }
    }
}

/// One more, as far as a counter goes.
pub open spec fn counted(n: u64) -> u64 {
    if n < u64::MAX {
        (n + 1) as u64
    } else {
        n
    }
}

/// 600 ms in nanoseconds: a modifier held longer was not tapped.
pub const MODIFIER_TAP_WINDOW: u64 = 600_000_000;

/// 500 ms in nanoseconds: taps further apart are no double tap.
pub const DOUBLE_TAP_WINDOW: u64 = 500_000_000;

/// The last word in every reading there is for it, so that the shortcut can go
/// from one to the next.
#[derive(Debug, Clone)]
pub struct WordCycle {
    /// The readings. The first one is what the user typed.
    pub variants: Vec<String>,
    /// The layout of each reading.
    pub layouts: Vec<String>,
    /// The reading that is on the screen.
    pub index: usize,
    pub terminator: Option<char>,
    /// Whether the engine picked that reading, rather than the user.
    pub auto: bool,
}

/// What a [`WordCycle`] says.
#[verifier::ext_equal]
pub struct Cycle {
    pub variants: Seq<Seq<char>>,
    pub layouts: Seq<Seq<char>>,
    pub index: int,
    pub terminator: Option<char>,
    pub auto: bool,
}

impl View for WordCycle {
    type V = Cycle;

    open spec fn view(&self) -> Cycle {
        Cycle {
            variants: text::views(self.variants@),
            layouts: text::views(self.layouts@),
            index: self.index as int,
            terminator: self.terminator,
            auto: self.auto,
        }
    }
}

/// What an optional [`WordCycle`] says.
pub open spec fn optional_cycle(cycle: Option<WordCycle>) -> Option<Cycle> {
    match cycle {
        Some(cycle) => Some(cycle@),
        None => None,
    }
}

impl Cycle {
    /// There are at least two readings, each with its layout, and one of them is
    /// on the screen.
    pub open spec fn sound(self) -> bool {
        &&& self.variants.len() >= 2
        &&& self.layouts.len() == self.variants.len()
        &&& 0 <= self.index < self.variants.len()
    }

    /// How many characters are on the screen.
    pub open spec fn on_screen(self) -> nat {
        text::span(self.variants[self.index], self.terminator)
    }

    /// A reading followed by what ended the word.
    pub open spec fn shown(self, index: int) -> Seq<char> {
        text::ended(self.variants[index], self.terminator)
    }
}

/// The readings of a word and their layouts: what was typed, and what other
/// layouts make of it that no earlier one does.
pub open spec fn readings(
    s: Seq<char>,
    prefix: Seq<char>,
    word: Seq<char>,
    suffix: Seq<char>,
    active: Seq<char>,
    alternatives: Seq<Seq<char>>,
) -> (Seq<Seq<char>>, Seq<Seq<char>>)
    decreases alternatives.len(),
{
    if alternatives.len() == 0 {
        (seq![s], seq![active])
    } else {
        let (variants, layouts) = readings(
            s,
            prefix,
            word,
            suffix,
            active,
            alternatives.drop_last(),
        );
        match layout::converted_by_id(word, active, alternatives.last()) {
            Some(converted) => {
                let rendered = prefix + converted + suffix;
                if variants.contains(rendered) {
                    (variants, layouts)
                } else {
                    (variants.push(rendered), layouts.push(alternatives.last()))
                }
            },
            None => (variants, layouts),
        }
    }
}

/// The first position from `i` on of a text in a list.
pub open spec fn position(texts: Seq<Seq<char>>, s: Seq<char>, i: int) -> Option<int>
    decreases texts.len() - i,
{
    if i < 0 || i >= texts.len() {
        None
    } else if texts[i] == s {
        Some(i)
    } else {
        position(texts, s, i + 1)
    }
}

/// The exception that is learned from a word that was typed on a layout: the word
/// proper, or all of it if it is nothing but punctuation, in lower case. Where
/// lower case would change once more, it is kept as it was typed.
pub open spec fn exception_key(judge: Judge, word: Seq<char>, active: Seq<char>) -> Seq<char> {
    let (start, end) = judge.middle(word, active);
    let kept = if start == end {
        word
    } else {
        word.subrange(start, end)
    };
    let lower = text::lowercase(kept);
    if lower.len() > 0 && text::lowercase(lower) == lower {
        lower
    } else {
        kept
    }
}

/// The exceptions after a word that was typed on a layout was learned.
pub open spec fn learned(judge: Judge, word: Seq<char>, active: Seq<char>) -> Seq<Seq<char>> {
    let key = exception_key(judge, word, active);
    if key.len() == 0 || judge.choices.exceptions.contains(key) {
        judge.choices.exceptions
    } else {
        judge.choices.exceptions.push(key)
    }
}

/// The state of an [`Engine`].
#[verifier::ext_equal]
pub struct State {
    pub judge: Judge,
    pub buffer: Behind,
    /// The last word that has ended, for the shortcut.
    pub last_word: Option<Cycle>,
    /// The application and the layout of the last keystroke.
    pub last_context: Option<(Option<Seq<char>>, Option<Seq<char>>)>,
    /// When the shortcut's modifier went down with nothing pressed since.
    pub modifier_down_at: Option<u64>,
    pub modifier_was_down: bool,
    /// When the last tap was, for double taps.
    pub last_tap_at: Option<u64>,
    /// The layout that the engine has just asked for.
    pub expected_layout: Option<Seq<char>>,
    /// Whether there is anyone to ask for a second opinion.
    pub assisted: bool,
    pub stats: Stats,
}

/// What a keystroke comes to before a word is judged.
#[verifier::ext_equal]
pub enum Outcome {
    /// An action is due, or none.
    Done(Deed),
    /// A word has ended with this layout in use.
    Word(Ended, Seq<char>),
}

impl State {
    /// Invariant of the engine.
    pub open spec fn sound(self) -> bool {
        self.last_word matches Some(c) ==> c.sound()
    }

    pub open spec fn with_buffer(self, input: Input) -> State {
        State { buffer: self.buffer.next(input), ..self }
    }

    /// Nothing behind the caret is known any more.
    pub open spec fn forgotten(self) -> State {
        State { last_word: None, ..self.with_buffer(Input::Reset) }
    }

    /// The application or the layout has changed. The engine's own switch of the
    /// layout does not count.
    pub open spec fn in_context(self, ctx: Surroundings) -> State {
        let key = (ctx.app, ctx.layout);
        let settled = match self.last_context {
            Some(previous) => if previous != key {
                let taken = State { expected_layout: None, ..self };
                let own = previous.0 == key.0 && self.expected_layout is Some && ctx.layout
                    == self.expected_layout;
                if own {
                    taken
                } else {
                    taken.forgotten()
                }
            } else {
                self
            },
            None => self,
        };
        State { last_context: Some(key), ..settled }
    }

    /// The state in which a word that was typed on a layout was learned as an
    /// exception.
    pub open spec fn undone(self, word: Seq<char>, active: Seq<char>) -> State {
        State {
            judge: Judge {
                choices: Choices {
                    exceptions: learned(self.judge, word, active),
                    ..self.judge.choices
                },
                ..self.judge
            },
            stats: Stats { undos: counted(self.stats.undos), ..self.stats },
            ..self
        }
    }

    /// Every reading of a word, if there are at least two.
    pub open spec fn cycle(self, s: Seq<char>, terminator: Option<char>, active: Seq<char>) -> Option<
        Cycle,
    > {
        let (start, end) = self.judge.middle(s, active);
        let (variants, layouts) = readings(
            s,
            s.take(start),
            s.subrange(start, end),
            s.skip(end),
            active,
            self.judge.choices.alternatives(active),
        );
        if layout::board_for(active) is None || variants.len() < 2 {
            None
        } else {
            Some(Cycle { variants, layouts, index: 0, terminator, auto: false })
        }
    }

    /// The word in progress becomes the last word. If it cannot be taken, there
    /// is none.
    pub open spec fn with_word_in_progress(self) -> State {
        match self.last_context {
            Some((_, Some(active))) => match self.buffer.unfinished() {
                Some(word) => State {
                    last_word: self.cycle(word.text, None, active),
                    buffer: self.buffer.taken(),
                    ..self
                },
                None => State { last_word: None, ..self },
            },
            _ => State { last_word: None, ..self },
        }
    }

    /// Goes on to the next reading of the last word.
    pub open spec fn cycled(self) -> (State, Deed) {
        let current = if self.buffer.current.len() > 0 {
            self.with_word_in_progress()
        } else {
            self
        };
        match current.last_word {
            None => (current, Deed::Nothing),
            Some(c) => {
                let next = (c.index + 1) % (c.variants.len() as int);
                let moved = State {
                    last_word: Some(Cycle { index: next, auto: false, ..c }),
                    expected_layout: Some(c.layouts[next]),
                    ..current
                };
                // Back to what was typed: the engine was wrong.
                let taught = if next == 0 && c.auto {
                    moved.undone(c.variants[0], c.layouts[0])
                } else {
                    moved
                };
                (
                    taught.with_buffer(Input::Reset),
                    Deed::Replace {
                        delete: c.on_screen(),
                        text: c.shown(next),
                        switch_to: Some(c.layouts[next]),
                    },
                )
            },
        }
    }

    /// The shortcut's modifier was tapped.
    pub open spec fn tapped(self, shortcut: Shortcut, now: u64) -> (State, Deed) {
        if !(shortcut is DoubleTap) {
            self.cycled()
        } else {
            let taken = State { last_tap_at: None, ..self };
            match self.last_tap_at {
                Some(previous) if now - previous <= DOUBLE_TAP_WINDOW => taken.cycled(),
                _ => (State { last_tap_at: Some(now), ..self }, Deed::Nothing),
            }
        }
    }

    /// A modifier was pressed or released. Only the shortcut's modifier on its
    /// own counts; as part of a chord it belongs to the application in front.
    pub open spec fn modified(self, modifiers: Modifiers, now: u64) -> (State, Deed) {
        let shortcut = self.judge.choices.shortcut;
        match shortcut.trigger() {
            None => (self, Deed::Nothing),
            Some(target) => {
                let down = target.held(modifiers);
                let was_down = self.modifier_was_down;
                let noted = State { modifier_was_down: down, ..self };
                if target.chord(modifiers) {
                    (State { modifier_down_at: None, ..noted }, Deed::Nothing)
                } else if !was_down && down {
                    (State { modifier_down_at: Some(now), ..noted }, Deed::Nothing)
                } else if was_down && !down {
                    let released = State { modifier_down_at: None, ..noted };
                    match self.modifier_down_at {
                        Some(at) if now - at <= MODIFIER_TAP_WINDOW => released.tapped(
                            shortcut,
                            now,
                        ),
                        _ => (released, Deed::Nothing),
                    }
                } else {
                    (noted, Deed::Nothing)
                }
            },
        }
    }

    /// What a key is to the buffer.
    pub open spec fn input_of(event: KeyEvent) -> Input {
        match event.key {
            Key::Backspace => Input::Backspace,
            Key::Space => Input::Boundary(' '),
            Key::Tab => Input::Boundary('\t'),
            Key::Enter => Input::Boundary('\n'),
            Key::Character => match event.character {
                Some(c) if !text::control(c) => Input::Char(c),
                _ => Input::Reset,
            },
            Key::Navigation | Key::Escape | Key::Other | Key::ModifiersChanged => Input::Reset,
        }
    }

    /// Whether a key may move the caret.
    pub open spec fn moves_caret(key: Key) -> bool {
        key == Key::Navigation || key == Key::Escape || key == Key::Other || key
            == Key::ModifiersChanged
    }

    /// A key that types or edits text.
    pub open spec fn typed(self, event: KeyEvent, layout: Option<Seq<char>>) -> (State, Outcome) {
        let disarmed = State { modifier_down_at: None, ..self };
        let known = if State::moves_caret(event.key) {
            State { last_word: None, ..disarmed }
        } else {
            disarmed
        };
        let input = State::input_of(event);
        match known.buffer.word(input) {
            None => (known.with_buffer(input), Outcome::Done(Deed::Nothing)),
            Some(word) => match layout {
                Some(active) => (known.with_buffer(input), Outcome::Word(word, active)),
                None => (known.with_buffer(input), Outcome::Done(Deed::Nothing)),
            },
        }
    }

    /// One keystroke, up to the point where a word is judged.
    pub open spec fn followed(self, event: KeyEvent, ctx: Surroundings, now: u64) -> (
        State,
        Outcome,
    ) {
        if event.synthetic {
            (self, Outcome::Done(Deed::Nothing))
        } else {
            let here = self.in_context(ctx);
            if !here.judge.choices.enabled {
                (here, Outcome::Done(Deed::Nothing))
            } else if ctx.secure_input {
                (here.with_buffer(Input::Reset), Outcome::Done(Deed::Nothing))
            } else if ctx.app matches Some(app) && here.judge.choices.excludes(app) {
                (here.with_buffer(Input::Reset), Outcome::Done(Deed::Nothing))
            } else if event.key == Key::ModifiersChanged {
                let (after, deed) = here.modified(event.modifiers, now);
                (after, Outcome::Done(deed))
            } else if event.modifiers.command() {
                (here.forgotten(), Outcome::Done(Deed::Nothing))
            } else {
                here.typed(event, ctx.layout)
            }
        }
    }

    /// The state after a word was replaced by a reading.
    pub open spec fn corrected(
        self,
        cycle: Option<Cycle>,
        replacement: Seq<char>,
        to_layout: Seq<char>,
    ) -> State {
        State {
            last_word: match cycle {
                Some(c) => match position(c.variants, replacement, 0) {
                    Some(i) => Some(Cycle { index: i, auto: true, ..c }),
                    None => None,
                },
                None => None,
            },
            stats: Stats { corrections: counted(self.stats.corrections), ..self.stats },
            expected_layout: Some(to_layout),
            ..self
        }
    }

    /// What becomes of a word that has ended, given the opinion on it and the
    /// second opinion that was had where it is ambiguous.
    pub open spec fn concluded(
        self,
        word: Ended,
        active: Seq<char>,
        opinion: Opinion,
        answer: Option<bool>,
    ) -> (State, Deed) {
        let (start, end) = self.judge.middle(word.text, active);
        if start == end {
            (State { last_word: None, ..self }, Deed::Nothing)
        } else {
            let cycle = self.cycle(word.text, word.terminator, active);
            let chosen = match opinion {
                Opinion::Switch(r) => Some(r),
                Opinion::Ambiguous(r) => if answer == Some(true) {
                    Some(r)
                } else {
                    None
                },
                Opinion::Keep(_) => None,
            };
            match chosen {
                Some(r) => {
                    let replacement = word.text.take(start) + r.converted + word.text.skip(end);
                    (
                        self.corrected(cycle, replacement, r.to_layout),
                        Deed::Replace {
                            delete: text::span(word.text, word.terminator),
                            text: text::ended(replacement, word.terminator),
                            switch_to: Some(r.to_layout),
                        },
                    )
                },
                // The shortcut can still convert it.
                None => (State { last_word: cycle, ..self }, Deed::Nothing),
            }
        }
    }

    /// The opinion on the word proper in what was typed.
    pub open spec fn opinion(self, s: Seq<char>, active: Seq<char>) -> Opinion {
        let (start, end) = self.judge.middle(s, active);
        self.judge.opinion(s.subrange(start, end), active)
    }

    /// One keystroke, with the second opinion that is had if the word is
    /// ambiguous.
    pub open spec fn step(
        self,
        event: KeyEvent,
        ctx: Surroundings,
        now: u64,
        answer: Option<bool>,
    ) -> (State, Deed) {
        match self.followed(event, ctx, now) {
            (after, Outcome::Done(deed)) => (after, deed),
            (after, Outcome::Word(word, active)) => after.concluded(
                word,
                active,
                after.opinion(word.text, active),
                answer,
            ),
        }
    }

    /// Goes back to what was typed.
    pub open spec fn reverted(self) -> (State, Deed) {
        match self.last_word {
            Some(c) => if c.index == 0 {
                (self, Deed::Nothing)
            } else {
                let moved = State {
                    last_word: Some(Cycle { index: 0, auto: false, ..c }),
                    expected_layout: Some(c.layouts[0]),
                    ..self
                };
                let taught = if c.auto {
                    moved.undone(c.variants[0], c.layouts[0])
                } else {
                    moved
                };
                (
                    taught.with_buffer(Input::Reset),
                    Deed::Replace {
                        delete: c.on_screen(),
                        text: c.shown(0),
                        switch_to: Some(c.layouts[0]),
                    },
                )
            },
            None => (self, Deed::Nothing),
        }
    }

    /// Converts the word in progress, past every guard.
    pub open spec fn forced(self, active: Seq<char>) -> (State, Deed) {
        match self.buffer.unfinished() {
            None => (self, Deed::Nothing),
            Some(word) => {
                let taken = State { buffer: self.buffer.taken(), ..self };
                match self.judge.target(word.text, active) {
                    None => (taken, Deed::Nothing),
                    Some(target) => match layout::converted_by_id(word.text, active, target) {
                        None => (taken, Deed::Nothing),
                        Some(converted) => (
                            State {
                                stats: Stats {
                                    corrections: counted(self.stats.corrections),
                                    ..self.stats
                                },
                                ..taken
                            },
                            Deed::Replace {
                                delete: word.text.len(),
                                text: converted,
                                switch_to: Some(target),
                            },
                        ),
                    },
                }
            },
        }
    }

    /// The question that goes out about an ambiguous word of which nothing is
    /// known yet.
    pub open spec fn inquiry(self, word: Seq<char>, r: Reading, active: Seq<char>) -> Option<
        Doubt,
    > {
        if !self.assisted || !self.judge.choices.ai_assist {
            None
        } else {
            match (layout::def_for(active), layout::def_for(r.to_layout)) {
                (Some(from), Some(to)) => Some(
                    Doubt {
                        typed: word,
                        alternative: r.converted,
                        typed_language: from.lang,
                        alternative_language: to.lang,
                    },
                ),
                _ => None,
            }
        }
    }
}

/// A moment in time, as `std` keeps it.
#[verifier::external_type_specification]
#[verifier::external_body]
pub struct ExInstant(std::time::Instant);

/// `Instant::now`. Nothing is said of the moment.
pub assume_specification[ std::time::Instant::now ]() -> std::time::Instant
;

/// `Instant::elapsed`. Nothing is said of the time that has passed.
pub assume_specification[ std::time::Instant::elapsed ](
    start: &std::time::Instant,
) -> std::time::Duration
;

/// `Duration::as_nanos`. Nothing is said of the number.
pub assume_specification[ std::time::Duration::as_nanos ](d: &std::time::Duration) -> u128
;

/// What a keystroke comes to before a word is judged.
#[derive(Debug, Clone)]
pub enum Progress {
    /// An action is due, or none.
    Done(Action),
    /// A word has ended with this layout in use.
    Word(Word, String),
}

impl View for Progress {
    type V = Outcome;

    open spec fn view(&self) -> Outcome {
        match *self {
            Progress::Done(action) => Outcome::Done(action@),
            Progress::Word(word, active) => Outcome::Word(word@, active@),
        }
    }
}

/// The engine.
pub struct Engine {
    pub detector: Detector,
    pub buffer: Buffer,
    /// The last word that has ended, for the shortcut.
    pub last_word: Option<WordCycle>,
    /// The application and the layout of the last keystroke.
    pub last_context: Option<(Option<String>, Option<String>)>,
    /// When the shortcut's modifier went down with nothing pressed since.
    pub modifier_down_at: Option<u64>,
    pub modifier_was_down: bool,
    /// When the last tap was, for double taps.
    pub last_tap_at: Option<u64>,
    /// The layout that the engine has just asked for.
    pub expected_layout: Option<String>,
    /// Whom to ask for a second opinion.
    pub assist: Option<Arc<dyn Assist>>,
    pub stats: Stats,
    /// The moment from which times are counted, in nanoseconds.
    pub started: Instant,
}

impl View for Engine {
    type V = State;

    open spec fn view(&self) -> State {
        State {
            judge: self.detector@,
            buffer: self.buffer@,
            last_word: optional_cycle(self.last_word),
            last_context: match self.last_context {
                Some((app, layout)) => Some((text::optional(app), text::optional(layout))),
                None => None,
            },
            modifier_down_at: self.modifier_down_at,
            modifier_was_down: self.modifier_was_down,
            last_tap_at: self.last_tap_at,
            expected_layout: text::optional(self.expected_layout),
            assisted: self.assist is Some,
            stats: self.stats,
        }
    }
}

fn count(n: u64) -> (r: u64)
    ensures
        r == counted(n),
{
    if n < u64::MAX {
        n + 1
    } else {
        n
    }
}

fn joined(a: &str, b: &str, c: &str) -> (r: String)
    ensures
        r@ == a@ + b@ + c@,
{
    let mut out: String = a.to_owned();
    out.append(b);
    out.append(c);
    out
}

fn position_of(texts: &Vec<String>, s: &str) -> (r: Option<usize>)
    ensures
        match r {
            Some(i) => position(text::views(texts@), s@, 0) == Some(i as int) && i < texts@.len(),
            None => position(text::views(texts@), s@, 0) is None,
        },
{
    let ghost all = text::views(texts@);
    let mut i: usize = 0;
    while i < texts.len()
        invariant
            i <= texts@.len(),
            all == text::views(texts@),
            position(all, s@, 0) == position(all, s@, i as int),
        decreases texts@.len() - i,
    {
        assert(all[i as int] == texts@[i as int]@);
        if text::same(texts[i].as_str(), s) {
            return Some(i);
        }
        i += 1;
    }
    None
}

impl Engine {
    /// Whether this second opinion may be had on the word that ends with a
    /// keystroke. On an ambiguous word, where that is wanted, it is what the assist
    /// knows of it; where the assist knows nothing, the question is handed on. In
    /// every other case there is none.
    pub open spec fn hears(
        self,
        event: KeyEvent,
        ctx: Surroundings,
        now: u64,
        answer: Option<bool>,
    ) -> bool {
        match (self@.followed(event, ctx, now), self.assist) {
            ((after, Outcome::Word(word, active)), Some(assist)) => {
                let (start, end) = after.judge.middle(word.text, active);
                let proper = word.text.subrange(start, end);
                match after.judge.opinion(proper, active) {
                    Opinion::Ambiguous(r) => if after.judge.choices.ai_assist {
                        &&& assist::answers(&*assist, proper, r.converted, answer)
                        &&& answer is None ==> (after.inquiry(proper, r, active) matches Some(doubt)
                            ==> assist::handed(&*assist, doubt))
                    } else {
                        answer is None
                    },
                    _ => answer is None,
                }
            },
            _ => answer is None,
        }
    }

    pub fn new(models: Models, config: Config) -> (r: Engine)
        ensures
            r@ == (State {
                judge: Judge { models: models@, choices: config@ },
                buffer: Behind::empty(),
                last_word: None,
                last_context: None,
                modifier_down_at: None,
                modifier_was_down: false,
                last_tap_at: None,
                expected_layout: None,
                assisted: false,
                stats: Stats { corrections: 0, undos: 0 },
            }),
            r@.sound(),
    {
        Engine {
            detector: Detector::new(models, config),
            buffer: Buffer::new(),
            last_word: None,
            last_context: None,
            modifier_down_at: None,
            modifier_was_down: false,
            last_tap_at: None,
            expected_layout: None,
            assist: None,
            stats: Stats { corrections: 0, undos: 0 },
            started: Instant::now(),
        }
    }

    pub fn config(&self) -> (r: &Config)
        ensures
            r@ == self@.judge.choices,
    {
        &self.detector.config
    }

    /// Changes the settings. The word in progress was typed under the old ones
    /// and is forgotten.
    pub fn set_config(&mut self, config: Config)
        ensures
            final(self)@ == (State {
                judge: Judge { choices: config@, ..old(self)@.judge },
                ..old(self)@.with_buffer(Input::Reset)
            }),
            final(self).assist == old(self).assist,
    {
        self.detector.config = config;
        let _ = self.buffer.push(Input::Reset);
    }

    pub fn stats(&self) -> (r: Stats)
        ensures
            r == self@.stats,
    {
        self.stats
    }

    /// Sets whom to ask for a second opinion, or no one.
    pub fn set_assist(&mut self, assist: Option<Arc<dyn Assist>>)
        ensures
            final(self)@ == (State { assisted: assist is Some, ..old(self)@ }),
            final(self).assist == assist,
    {
        self.assist = assist;
    }

    pub fn has_assist(&self) -> (r: bool)
        ensures
            r == self@.assisted,
    {
        self.assist.is_some()
    }

    /// How many words the assist has settled so far, as it says itself. Without
    /// one, none.
    pub fn assist_learned(&self) -> (r: usize)
        ensures
            match self.assist {
                Some(assist) => assist::counts(&*assist, r),
                None => r == 0,
            },
    {
        match &self.assist {
            Some(assist) => assist::count(&**assist),
            None => 0,
        }
    }

    /// Every reading of a word.
    fn build_cycle(&self, s: &str, terminator: Option<char>, active: &str) -> (r: Option<WordCycle>)
        ensures
            optional_cycle(r) == self@.cycle(s@, terminator, active@),
            r matches Some(c) ==> c@.sound(),
    {
        let from: Layout = match layout::layout(active) {
            Some(from) => from,
            None => {
                return None;
            },
        };
        let (prefix, word, suffix) = self.detector.trim_affixes(s, active);
        let mut variants: Vec<String> = Vec::new();
        variants.push(s.to_owned());
        let mut layouts: Vec<String> = Vec::new();
        layouts.push(active.to_owned());
        let alternatives: Vec<&str> = self.detector.config.alternatives(active);
        let ghost alts = config::slice_views(alternatives@);
        let mut i: usize = 0;
        assert(text::views(variants@) =~= seq![s@]);
        assert(text::views(layouts@) =~= seq![active@]);
        while i < alternatives.len()
            invariant
                from.wf(),
                layout::board_for(active@) == Some(from@),
                i <= alternatives@.len(),
                alts == config::slice_views(alternatives@),
                variants@.len() == layouts@.len(),
                variants@.len() >= 1,
                (text::views(variants@), text::views(layouts@)) == readings(
                    s@,
                    prefix@,
                    word@,
                    suffix@,
                    active@,
                    alts.take(i as int),
                ),
            decreases alternatives@.len() - i,
        {
            assert(alts.take(i + 1).drop_last() =~= alts.take(i as int));
            assert(alts.take(i + 1).last() == alternatives@[i as int]@);
            if let Some(to) = layout::layout(alternatives[i]) {
                let converted: String = layout::convert(word, &from, &to);
                let rendered: String = joined(prefix, converted.as_str(), suffix);
                if !text::holds(&variants, rendered.as_str()) {
                    let ghost was = text::views(variants@);
                    let ghost were = text::views(layouts@);
                    let ghost new = rendered@;
                    variants.push(rendered);
                    layouts.push(alternatives[i].to_owned());
                    assert(text::views(variants@) =~= was.push(new));
                    assert(text::views(layouts@) =~= were.push(alternatives@[i as int]@));
                }
            }
            i += 1;
        }
        assert(alts.take(alts.len() as int) =~= alts);
        if variants.len() < 2 {
            return None;
        }
        Some(WordCycle { variants, layouts, index: 0, terminator, auto: false })
    }

    /// Remembers that the user prefers a word as they typed it on a layout. What
    /// is remembered is the word proper, which is what the detector judges.
    fn learn_exception(&mut self, word: &str, active: &str)
        ensures
            final(self)@ == (State {
                judge: Judge {
                    choices: Choices {
                        exceptions: learned(old(self)@.judge, word@, active@),
                        ..old(self)@.judge.choices
                    },
                    ..old(self)@.judge
                },
                ..old(self)@
            }),
            final(self).assist == old(self).assist,
    {
        let (_, proper, _) = self.detector.trim_affixes(word, active);
        let kept: &str = if proper.unicode_len() == 0 {
            word
        } else {
            proper
        };
        let lower: String = text::to_lowercase(kept);
        let again: String = text::to_lowercase(lower.as_str());
        let key: String = if lower.as_str().unicode_len() > 0 && text::same(
            again.as_str(),
            lower.as_str(),
        ) {
            lower
        } else {
            kept.to_owned()
        };
        if key.as_str().unicode_len() > 0 && !text::holds(
            &self.detector.config.exceptions,
            key.as_str(),
        ) {
            let ghost was = text::views(self.detector.config.exceptions@);
            let ghost new = key@;
            self.detector.config.exceptions.push(key);
            assert(text::views(self.detector.config.exceptions@) =~= was.push(new));
        }
    }

    /// The word in progress becomes the last word.
    fn take_word_in_progress(&mut self)
        ensures
            final(self)@ == old(self)@.with_word_in_progress(),
            final(self)@.sound(),
            final(self).assist == old(self).assist,
    {
        self.last_word = None;
        let active: Option<String> = match &self.last_context {
            Some((_, layout)) => text::copy_optional(layout),
            None => None,
        };
        if let Some(active) = active {
            if let Some(word) = self.buffer.take_current() {
                self.last_word = self.build_cycle(word.text.as_str(), None, active.as_str());
            }
        }
    }

    /// Goes on to the next reading of the last word. With more than two layouts
    /// the first other reading is often not the right one; asking again goes on,
    /// and coming back to what was typed tells the engine to leave that word
    /// alone.
    pub fn cycle_last_word(&mut self) -> (r: Action)
        requires
            old(self)@.sound(),
        ensures
            (final(self)@, r@) == old(self)@.cycled(),
            final(self)@.sound(),
            final(self).assist == old(self).assist,
    {
        // What is behind the caret is the word in progress, if there is one.
        if !self.buffer.is_empty() {
            self.take_word_in_progress();
        }
        let ghost current = self@;
        let mut last: Option<WordCycle> = None;
        std::mem::swap(&mut last, &mut self.last_word);
        let mut cycle: WordCycle = match last {
            Some(cycle) => cycle,
            None => {
                return Action::Nothing;
            },
        };
        let ghost c = cycle@;
        assert(current.last_word == Some(c));
        assert(text::views(cycle.variants@)[cycle.index as int]
            == cycle.variants@[cycle.index as int]@);
        let delete: usize = text::span_of(
            cycle.variants[cycle.index].as_str(),
            cycle.terminator,
        );
        let count: usize = cycle.variants.len();
        let next: usize = if cycle.index + 1 < count {
            cycle.index + 1
        } else {
            0
        };
        assert(next == (c.index + 1) % (c.variants.len() as int)) by {
            if c.index + 1 < c.variants.len() {
                vstd::arithmetic::div_mod::lemma_small_mod(
                    (c.index + 1) as nat,
                    c.variants.len(),
                );
            } else {
                vstd::arithmetic::div_mod::lemma_mod_self_0(c.variants.len() as int);
            }
        }
        assert(text::views(cycle.variants@)[next as int] == cycle.variants@[next as int]@);
        assert(text::views(cycle.variants@)[0] == cycle.variants@[0]@);
        assert(text::views(cycle.layouts@)[next as int] == cycle.layouts@[next as int]@);
        assert(text::views(cycle.layouts@)[0] == cycle.layouts@[0]@);
        let shown: String = text::with_terminator(
            cycle.variants[next].as_str(),
            cycle.terminator,
        );
        let switch_to: String = cycle.layouts[next].clone();
        let original: String = cycle.variants[0].clone();
        let typed_on: String = cycle.layouts[0].clone();
        let overruled: bool = next == 0 && cycle.auto;
        cycle.index = next;
        cycle.auto = false;
        self.last_word = Some(cycle);
        self.expected_layout = Some(switch_to.clone());
        if overruled {
            self.stats.undos = crate::engine::count(self.stats.undos);
            self.learn_exception(original.as_str(), typed_on.as_str());
        }
        let _ = self.buffer.push(Input::Reset);
        Action::Replace { delete, text: shown, switch_to: Some(switch_to) }
    }

    /// The shortcut's modifier was tapped.
    fn on_tap(&mut self, shortcut: Shortcut, now: u64) -> (r: Action)
        requires
            old(self)@.sound(),
        ensures
            (final(self)@, r@) == old(self)@.tapped(shortcut, now),
            final(self)@.sound(),
            final(self).assist == old(self).assist,
    {
        if !shortcut.needs_two_taps() {
            return self.cycle_last_word();
        }
        // The first tap arms, the second fires; one that comes too late arms
        // again.
        let previous: Option<u64> = self.last_tap_at;
        self.last_tap_at = None;
        match previous {
            Some(previous) if now.saturating_sub(previous) <= DOUBLE_TAP_WINDOW => {
                self.cycle_last_word()
            },
            _ => {
                self.last_tap_at = Some(now);
                Action::Nothing
            },
        }
    }

    /// A modifier was pressed or released.
    fn on_modifier_change(&mut self, modifiers: Modifiers, now: u64) -> (r: Action)
        requires
            old(self)@.sound(),
        ensures
            (final(self)@, r@) == old(self)@.modified(modifiers, now),
            final(self)@.sound(),
            final(self).assist == old(self).assist,
    {
        let shortcut: Shortcut = self.detector.config.shortcut;
        let target: Modifier = match shortcut.modifier() {
            Some(target) => target,
            None => {
                return Action::Nothing;
            },
        };
        let down: bool = target.is_held(modifiers);
        let was_down: bool = self.modifier_was_down;
        self.modifier_was_down = down;
        if target.others_held(modifiers) {
            self.modifier_down_at = None;
            return Action::Nothing;
        }
        if !was_down && down {
            self.modifier_down_at = Some(now);
            return Action::Nothing;
        }
        if was_down && !down {
            let at: Option<u64> = self.modifier_down_at;
            self.modifier_down_at = None;
            if let Some(at) = at {
                if now.saturating_sub(at) <= MODIFIER_TAP_WINDOW {
                    return self.on_tap(shortcut, now);
                }
            }
        }
        Action::Nothing
    }

    /// Takes note of where the keystroke goes.
    fn enter_context(&mut self, ctx: &Context)
        requires
            old(self)@.sound(),
        ensures
            final(self)@ == old(self)@.in_context(ctx@),
            final(self)@.sound(),
            final(self).assist == old(self).assist,
    {
        let mut previous: Option<(Option<String>, Option<String>)> = None;
        std::mem::swap(&mut previous, &mut self.last_context);
        if let Some((app, layout)) = previous {
            let same_app: bool = text::same_optional(&app, &ctx.app);
            if !same_app || !text::same_optional(&layout, &ctx.layout) {
                let mut expected: Option<String> = None;
                std::mem::swap(&mut expected, &mut self.expected_layout);
                let own: bool = same_app && expected.is_some() && text::same_optional(
                    &ctx.layout,
                    &expected,
                );
                if !own {
                    let _ = self.buffer.push(Input::Reset);
                    self.last_word = None;
                }
            }
        }
        self.last_context = Some(
            (text::copy_optional(&ctx.app), text::copy_optional(&ctx.layout)),
        );
    }

    /// Feeds one keystroke that comes `now`, up to the point where a word is
    /// judged.
    pub fn follow(&mut self, event: &KeyEvent, ctx: &Context, now: u64) -> (r: Progress)
        requires
            old(self)@.sound(),
        ensures
            (final(self)@, r@) == old(self)@.followed(*event, ctx@, now),
            final(self)@.sound(),
            final(self).assist == old(self).assist,
    {
        // What the application itself types must not be corrected again.
        if event.synthetic {
            return Progress::Done(Action::Nothing);
        }
        self.enter_context(ctx);
        if !self.detector.config.enabled {
            return Progress::Done(Action::Nothing);
        }
        if ctx.secure_input {
            let _ = self.buffer.push(Input::Reset);
            return Progress::Done(Action::Nothing);
        }
        if let Some(app) = &ctx.app {
            if self.detector.config.is_excluded_app(app.as_str()) {
                let _ = self.buffer.push(Input::Reset);
                return Progress::Done(Action::Nothing);
            }
        }
        // This comes before chords are dealt with, so that a chord disarms a tap.
        if event.key == Key::ModifiersChanged {
            return Progress::Done(self.on_modifier_change(event.modifiers, now));
        }
        if event.modifiers.is_shortcut() {
            let _ = self.buffer.push(Input::Reset);
            self.last_word = None;
            return Progress::Done(Action::Nothing);
        }
        self.modifier_down_at = None;
        let input: Input = match event.key {
            Key::Backspace => Input::Backspace,
            // Only white space ends a word: `,` and `.` are letters on other
            // layouts.
            Key::Space => Input::Boundary(' '),
            Key::Tab => Input::Boundary('\t'),
            Key::Enter => Input::Boundary('\n'),
            Key::Character => match event.character {
                Some(c) => if text::is_control(c) {
                    Input::Reset
                } else {
                    Input::Char(c)
                },
                None => Input::Reset,
            },
            Key::Navigation | Key::Escape | Key::Other | Key::ModifiersChanged => {
                self.last_word = None;
                Input::Reset
            },
        };
        let word: Word = match self.buffer.push(input) {
            Some(word) => word,
            None => {
                return Progress::Done(Action::Nothing);
            },
        };
        match &ctx.layout {
            Some(active) => Progress::Word(word, active.clone()),
            None => Progress::Done(Action::Nothing),
        }
    }

    /// Deals with a word that has ended, given the verdict on it and the second
    /// opinion that was had where it is ambiguous.
    pub fn conclude(
        &mut self,
        word: &Word,
        active: &str,
        verdict: &Verdict,
        answer: Option<bool>,
    ) -> (r: Action)
        requires
            old(self)@.sound(),
        ensures
            (final(self)@, r@) == old(self)@.concluded(word@, active@, verdict@, answer),
            final(self)@.sound(),
            final(self).assist == old(self).assist,
    {
        let (prefix, core, suffix) = self.detector.trim_affixes(word.text.as_str(), active);
        if core.unicode_len() == 0 {
            self.last_word = None;
            return Action::Nothing;
        }
        let cycle: Option<WordCycle> = self.build_cycle(
            word.text.as_str(),
            word.terminator,
            active,
        );
        let chosen: Option<&Candidate> = match verdict {
            Verdict::Switch(candidate) => Some(&**candidate),
            Verdict::Ambiguous(candidate) => match answer {
                Some(true) => Some(&**candidate),
                _ => None,
            },
            Verdict::Keep(_) => None,
        };
        let candidate: &Candidate = match chosen {
            Some(candidate) => candidate,
            None => {
                self.last_word = cycle;
                return Action::Nothing;
            },
        };
        let replacement: String = joined(prefix, candidate.converted.as_str(), suffix);
        let delete: usize = text::span_of(word.text.as_str(), word.terminator);
        self.last_word = match cycle {
            Some(cycle) => match position_of(&cycle.variants, replacement.as_str()) {
                Some(index) => Some(
                    WordCycle {
                        variants: cycle.variants,
                        layouts: cycle.layouts,
                        index,
                        terminator: cycle.terminator,
                        auto: true,
                    },
                ),
                None => None,
            },
            None => None,
        };
        self.stats.corrections = count(self.stats.corrections);
        self.expected_layout = Some(candidate.to_layout.to_owned());
        Action::Replace {
            delete,
            text: text::with_terminator(replacement.as_str(), word.terminator),
            switch_to: Some(candidate.to_layout.to_owned()),
        }
    }

    /// The question to ask about an ambiguous word of which nothing is known yet.
    pub fn question(&self, word: &str, candidate: &Candidate, active: &str) -> (r: Option<Question>)
        ensures
            match r {
                Some(q) => self@.inquiry(word@, candidate@, active@) == Some(q@),
                None => self@.inquiry(word@, candidate@, active@) is None,
            },
    {
        if !self.detector.config.ai_assist || self.assist.is_none() {
            return None;
        }
        let from: Layout = match layout::layout(active) {
            Some(from) => from,
            None => {
                return None;
            },
        };
        let to: Layout = match layout::layout(candidate.to_layout) {
            Some(to) => to,
            None => {
                return None;
            },
        };
        Some(
            Question {
                typed: word.to_owned(),
                alternative: candidate.converted.clone(),
                typed_language: from.def.lang.to_owned(),
                alternative_language: to.def.lang.to_owned(),
            },
        )
    }

    /// Asks the assist about an ambiguous word, if it is to be asked, and gives
    /// its answer. It answers from what it knows already; a word that it does not
    /// know is left alone this time, and the question about it is handed on.
    fn resolve_ambiguous(&self, word: &str, candidate: &Candidate, active: &str) -> (r: Option<bool>)
        ensures
            !self@.assisted || !self@.judge.choices.ai_assist ==> r is None,
            self@.judge.choices.ai_assist ==> (self.assist matches Some(assist)
                ==> assist::answers(&*assist, word@, candidate@.converted, r)),
            self@.judge.choices.ai_assist && r is None ==> (self.assist matches Some(assist) ==> (
            self@.inquiry(word@, candidate@, active@) matches Some(doubt) ==> assist::handed(
                &*assist,
                doubt,
            ))),
    {
        if !self.detector.config.ai_assist {
            return None;
        }
        match &self.assist {
            Some(assist) => {
                let answer: Option<bool> = assist::answer(
                    &**assist,
                    word,
                    candidate.converted.as_str(),
                );
                if answer.is_some() {
                    return answer;
                }
                if let Some(question) = self.question(word, candidate, active) {
                    assist::hand(&**assist, question);
                }
                None
            },
            None => None,
        }
    }

    /// Feeds one keystroke that comes `now`, in nanoseconds on any clock that
    /// never goes back. About an ambiguous word the assist is asked, and its
    /// answer is taken.
    pub fn on_key_at(&mut self, event: &KeyEvent, ctx: &Context, now: u64) -> (r: Action)
        requires
            old(self)@.sound(),
        ensures
            exists|answer: Option<bool>|
                (final(self)@, r@) == #[trigger] old(self)@.step(*event, ctx@, now, answer)
                    && old(self).hears(*event, ctx@, now, answer),
            final(self)@.sound(),
            final(self).assist == old(self).assist,
    {
        match self.follow(event, ctx, now) {
            Progress::Done(action) => {
                assert((self@, action@) == old(self)@.step(*event, ctx@, now, None));
                action
            },
            Progress::Word(word, active) => {
                let ghost after = self@;
                let (_, core, _) = self.detector.trim_affixes(word.text.as_str(), active.as_str());
                let verdict: Verdict = self.detector.evaluate(core, active.as_str());
                let answer: Option<bool> = match &verdict {
                    Verdict::Ambiguous(candidate) => self.resolve_ambiguous(
                        core,
                        &**candidate,
                        active.as_str(),
                    ),
                    _ => None,
                };
                proof {
                    lemma_followed_keeps(old(self)@, *event, ctx@, now);
                }
                let action: Action = self.conclude(&word, active.as_str(), &verdict, answer);
                assert((self@, action@) == old(self)@.step(*event, ctx@, now, answer));
                action
            },
        }
    }

    /// Feeds one keystroke that comes now, and gives what is to be done to the
    /// document.
    pub fn on_key(&mut self, event: &KeyEvent, ctx: &Context) -> (r: Action)
        requires
            old(self)@.sound(),
        ensures
            exists|now: u64, answer: Option<bool>|
                (final(self)@, r@) == #[trigger] old(self)@.step(*event, ctx@, now, answer)
                    && old(self).hears(*event, ctx@, now, answer),
            final(self)@.sound(),
            final(self).assist == old(self).assist,
    {
        let nanos: u128 = self.started.elapsed().as_nanos();
        let now: u64 = if nanos < u64::MAX as u128 {
            nanos as u64
        } else {
            u64::MAX
        };
        self.on_key_at(event, ctx, now)
    }

    /// Takes back the last automatic correction.
    pub fn undo(&mut self) -> (r: Action)
        requires
            old(self)@.sound(),
        ensures
            (final(self)@, r@) == old(self)@.reverted(),
            final(self)@.sound(),
            final(self).assist == old(self).assist,
    {
        let mut last: Option<WordCycle> = None;
        std::mem::swap(&mut last, &mut self.last_word);
        let mut cycle: WordCycle = match last {
            Some(cycle) => cycle,
            None => {
                return Action::Nothing;
            },
        };
        if cycle.index == 0 {
            self.last_word = Some(cycle);
            return Action::Nothing;
        }
        assert(text::views(cycle.variants@)[cycle.index as int]
            == cycle.variants@[cycle.index as int]@);
        assert(text::views(cycle.variants@)[0] == cycle.variants@[0]@);
        assert(text::views(cycle.layouts@)[0] == cycle.layouts@[0]@);
        let delete: usize = text::span_of(
            cycle.variants[cycle.index].as_str(),
            cycle.terminator,
        );
        let shown: String = text::with_terminator(cycle.variants[0].as_str(), cycle.terminator);
        let switch_to: String = cycle.layouts[0].clone();
        let original: String = cycle.variants[0].clone();
        let typed_on: String = cycle.layouts[0].clone();
        let was_auto: bool = cycle.auto;
        cycle.index = 0;
        cycle.auto = false;
        self.last_word = Some(cycle);
        self.expected_layout = Some(switch_to.clone());
        if was_auto {
            self.stats.undos = count(self.stats.undos);
            self.learn_exception(original.as_str(), typed_on.as_str());
        }
        let _ = self.buffer.push(Input::Reset);
        Action::Replace { delete, text: shown, switch_to: Some(switch_to) }
    }

    /// Converts the word in progress, past every guard.
    pub fn force_convert(&mut self, active: &str) -> (r: Action)
        requires
            old(self)@.sound(),
        ensures
            (final(self)@, r@) == old(self)@.forced(active@),
            final(self)@.sound(),
            final(self).assist == old(self).assist,
    {
        let word: Word = match self.buffer.take_current() {
            Some(word) => word,
            None => {
                return Action::Nothing;
            },
        };
        let target: &'static str = match self.detector.best_target(word.text.as_str(), active) {
            Some(target) => target,
            None => {
                return Action::Nothing;
            },
        };
        let converted: String = match self.detector.force_convert(
            word.text.as_str(),
            active,
            target,
        ) {
            Some(converted) => converted,
            None => {
                return Action::Nothing;
            },
        };
        self.stats.corrections = count(self.stats.corrections);
        Action::Replace {
            delete: word.text.as_str().unicode_len(),
            text: converted,
            switch_to: Some(target.to_owned()),
        }
    }
}

/// A keystroke changes neither whom the engine asks nor the settings, until a
/// word is judged, except that the shortcut may add an exception.
proof fn lemma_followed_keeps(s: State, event: KeyEvent, ctx: Surroundings, now: u64)
    ensures
        s.followed(event, ctx, now).0.assisted == s.assisted,
        s.followed(event, ctx, now).0.judge.choices.ai_assist == s.judge.choices.ai_assist,
{
}

} // verus!
