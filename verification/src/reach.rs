//! How far back the engine reaches.
//!
//! Nothing that was typed before the engine has forgotten is ever deleted by it.

use crate::assurances;
use crate::buffer::{Ended, Input};
use crate::config::Choices;
use crate::detect::{Judge, Opinion};
use crate::engine::{Deed, Outcome, State};
use crate::input::{Key, KeyEvent, Modifiers, Surroundings};
use crate::taps;
use crate::text;
use vstd::prelude::*;

verus! {

/// What can happen to an engine.
pub enum Happening {
    /// A keystroke, at some time, with the second opinion that is had if it ends
    /// an ambiguous word.
    Key { event: KeyEvent, ctx: Surroundings, now: u64, answer: Option<bool> },
    /// The last correction is taken back.
    Undo,
    /// The next reading of the last word is asked for.
    Cycle,
    /// The word in progress is converted past every guard.
    Force { active: Seq<char> },
    /// The settings change.
    Configure { choices: Choices },
}

/// The state after it, and what is done.
pub open spec fn happens(s: State, h: Happening) -> (State, Deed) {
    match h {
        Happening::Key { event, ctx, now, answer } => s.step(event, ctx, now, answer),
        Happening::Undo => s.reverted(),
        Happening::Cycle => s.cycled(),
        Happening::Force { active } => s.forced(active),
        Happening::Configure { choices } => (
            State {
                judge: Judge { choices, ..s.judge },
                ..s.with_buffer(Input::Reset)
            },
            Deed::Nothing,
        ),
    }
}

/// The state after all of these.
pub open spec fn after(s: State, hs: Seq<Happening>) -> State
    decreases hs.len(),
{
    if hs.len() == 0 {
        s
    } else {
        happens(after(s, hs.drop_last()), hs.last()).0
    }
}

/// The character that a key types, if it types one.
pub open spec fn types(event: KeyEvent) -> Option<char> {
    if event.synthetic || event.modifiers.command() {
        None
    } else {
        match event.key {
            Key::Character => match event.character {
                Some(c) if !text::control(c) => Some(c),
                _ => None,
            },
            Key::Space => Some(' '),
            Key::Tab => Some('\t'),
            Key::Enter => Some('\n'),
            _ => None,
        }
    }
}

/// The character that the user types, if it is one.
pub open spec fn typed(h: Happening) -> Option<char> {
    match h {
        Happening::Key { event, .. } => types(event),
        _ => None,
    }
}

/// How many characters the user types.
pub open spec fn count(h: Happening) -> nat {
    if typed(h) is Some {
        1
    } else {
        0
    }
}

/// A backspace that the user presses.
pub open spec fn backspaces(h: Happening) -> bool {
    h matches Happening::Key { event, .. } && event.key == Key::Backspace && !event.synthetic
        && !event.modifiers.command()
}

/// Whether the user takes back a character of the word in progress.
pub open spec fn takes_back(s: State, h: Happening) -> bool {
    h matches Happening::Key { ctx, .. } && backspaces(h) && taps::attentive(s, ctx)
        && s.in_context(ctx).buffer.current.len() > 0
}

/// How many characters of the word in progress the user takes back.
pub open spec fn taken_back(s: State, h: Happening) -> nat {
    if takes_back(s, h) {
        1
    } else {
        0
    }
}

/// How many characters a deed deletes.
pub open spec fn deleted(deed: Deed) -> nat {
    match deed {
        Deed::Nothing => 0,
        Deed::Replace { delete, .. } => delete,
    }
}

/// How many characters a deed types.
pub open spec fn retyped(deed: Deed) -> nat {
    match deed {
        Deed::Nothing => 0,
        Deed::Replace { text, .. } => text.len(),
    }
}

/// How many characters the user and the engine have typed meanwhile, less those
/// that the engine has deleted and that the user has taken back while they were
/// typing a word.
pub open spec fn written(s: State, hs: Seq<Happening>) -> int
    decreases hs.len(),
{
    if hs.len() == 0 {
        0
    } else {
        let before = after(s, hs.drop_last());
        let deed = happens(before, hs.last()).1;
        written(s, hs.drop_last()) + count(hs.last()) - taken_back(before, hs.last()) - deleted(
            deed,
        ) + retyped(deed)
    }
}

/// Nothing is known of what is behind the caret.
pub open spec fn blank(s: State) -> bool {
    s.last_word is None && s.buffer.current.len() == 0
}

/// How many characters behind the caret the engine knows of.
spec fn known(s: State) -> nat {
    s.buffer.current.len() + match s.last_word {
        Some(c) => c.on_screen(),
        None => 0,
    }
}

/// What is known before it and what the user types cover what is deleted, and what
/// is typed covers what is known then beyond that.
spec fn covered(s: State, h: Happening) -> bool {
    let (t, deed) = happens(s, h);
    &&& deleted(deed) <= known(s) + count(h)
    &&& known(t) + taken_back(s, h) + deleted(deed) <= known(s) + count(h) + retyped(deed)
}

proof fn lemma_cycle_on_screen(s: State, word: Seq<char>, terminator: Option<char>, active: Seq<char>)
    ensures
        s.cycle(word, terminator, active) matches Some(c) ==> c.on_screen() == text::span(
            word,
            terminator,
        ) && c.terminator == terminator,
{
    let (start, end) = s.judge.middle(word, active);
    assurances::lemma_readings(
        word,
        word.take(start),
        word.subrange(start, end),
        word.skip(end),
        active,
        s.judge.choices.alternatives(active),
    );
}

proof fn lemma_cycled_covered(s: State)
    ensures
        covered(s, Happening::Cycle),
{
    if s.buffer.current.len() > 0 {
        if let Some((_, Some(active))) = s.last_context {
            if let Some(word) = s.buffer.unfinished() {
                lemma_cycle_on_screen(s, word.text, None, active);
            }
        }
    }
}

proof fn lemma_concluded_covered(
    s: State,
    word: Ended,
    active: Seq<char>,
    opinion: Opinion,
    answer: Option<bool>,
)
    requires
        s.buffer.current.len() == 0,
    ensures
        ({
            let (t, deed) = s.concluded(word, active, opinion, answer);
            &&& deleted(deed) <= text::span(word.text, word.terminator)
            &&& known(t) + deleted(deed) <= text::span(word.text, word.terminator) + retyped(deed)
        }),
{
    lemma_cycle_on_screen(s, word.text, word.terminator, active);
    let (start, end) = s.judge.middle(word.text, active);
    if let Some(c) = s.cycle(word.text, word.terminator, active) {
        let chosen = match opinion {
            Opinion::Switch(r) => Some(r),
            Opinion::Ambiguous(r) => Some(r),
            Opinion::Keep(_) => None,
        };
        if let Some(r) = chosen {
            let replacement = word.text.take(start) + r.converted + word.text.skip(end);
            assurances::lemma_position(c.variants, replacement, 0);
        }
    }
}

proof fn lemma_modified_covered(s: State, modifiers: Modifiers, now: u64)
    ensures
        ({
            let (t, deed) = s.modified(modifiers, now);
            &&& deleted(deed) <= known(s)
            &&& known(t) + deleted(deed) <= known(s) + retyped(deed)
        }),
{
    let released = State { modifier_down_at: None, modifier_was_down: false, ..s };
    assert(known(released) == known(s));
    lemma_cycled_covered(released);
    let taken = State { last_tap_at: None, ..released };
    assert(known(taken) == known(s));
    lemma_cycled_covered(taken);
}

/// What is known after a key that types or edits, apart from the word that it ends.
proof fn lemma_typed_covered(s: State, event: KeyEvent, layout: Option<Seq<char>>)
    requires
        !event.synthetic,
        !event.modifiers.command(),
    ensures
        ({
            let (t, outcome) = s.typed(event, layout);
            let n = if types(event) is Some {
                1nat
            } else {
                0
            };
            match outcome {
                Outcome::Done(deed) => deed == Deed::Nothing && known(t) <= known(s) + n && (
                event.key == Key::Backspace && s.buffer.current.len() > 0 ==> known(t) + 1 <= known(
                    s,
                )),
                Outcome::Word(word, _) => t.buffer.current.len() == 0 && text::span(
                    word.text,
                    word.terminator,
                ) <= known(s) + n,
            }
        }),
{
}

proof fn lemma_step_covered(
    s: State,
    event: KeyEvent,
    ctx: Surroundings,
    now: u64,
    answer: Option<bool>,
)
    ensures
        covered(s, Happening::Key { event, ctx, now, answer }),
{
    let h = Happening::Key { event, ctx, now, answer };
    let here = s.in_context(ctx);
    assert(known(here) <= known(s));
    assert(happens(s, h) == s.step(event, ctx, now, answer));
    if !event.synthetic {
        lemma_modified_covered(here, event.modifiers, now);
        if !event.modifiers.command() {
            lemma_typed_covered(here, event, ctx.layout);
            if let (t, Outcome::Word(word, active)) = here.typed(event, ctx.layout) {
                lemma_concluded_covered(t, word, active, t.opinion(word.text, active), answer);
            }
        }
    }
}

proof fn lemma_covered(s: State, h: Happening)
    ensures
        covered(s, h),
{
    match h {
        Happening::Key { event, ctx, now, answer } => {
            lemma_step_covered(s, event, ctx, now, answer);
        },
        Happening::Cycle => {
            lemma_cycled_covered(s);
        },
        _ => {},
    }
}

proof fn lemma_written(s: State, hs: Seq<Happening>)
    ensures
        known(after(s, hs)) <= known(s) + written(s, hs),
    decreases hs.len(),
{
    if hs.len() > 0 {
        lemma_written(s, hs.drop_last());
        lemma_covered(after(s, hs.drop_last()), hs.last());
    }
}

/// However long ago the engine has forgotten what is behind the caret, it deletes
/// no more than was typed since, by the user or by itself. So nothing that was
/// typed before is lost to it. Of what the user deletes themselves, only what they
/// take back of the word in progress is counted.
pub proof fn lemma_nothing_older_is_deleted(s: State, hs: Seq<Happening>, h: Happening)
    requires
        blank(s),
    ensures
        deleted(happens(after(s, hs), h).1) <= written(s, hs) + count(h),
{
    lemma_written(s, hs);
    lemma_covered(after(s, hs), h);
}

/// The text behind the caret once a deed was carried out.
pub open spec fn carried_out(doc: Seq<char>, deed: Deed) -> Seq<char> {
    match deed {
        Deed::Nothing => doc,
        Deed::Replace { delete, text, .. } => doc.take(doc.len() - delete) + text,
    }
}

/// The text behind the caret after all of these, where the caret stays at the end
/// of what is typed.
pub open spec fn document(doc: Seq<char>, s: State, hs: Seq<Happening>) -> Seq<char>
    decreases hs.len(),
{
    if hs.len() == 0 {
        doc
    } else {
        let before = document(doc, s, hs.drop_last());
        let with = match typed(hs.last()) {
            Some(c) => before.push(c),
            None => if backspaces(hs.last()) && before.len() > 0 {
                before.drop_last()
            } else {
                before
            },
        };
        carried_out(with, happens(after(s, hs.drop_last()), hs.last()).1)
    }
}

/// Whatever is typed after the engine has forgotten what is behind the caret, and
/// whatever it makes of that, the text that was there stays as it is, as long as
/// the user takes back only characters of the words that they are typing.
pub proof fn lemma_what_was_there_stays(doc: Seq<char>, s: State, hs: Seq<Happening>)
    requires
        blank(s),
        forall|i: int|
            0 <= i < hs.len() && backspaces(#[trigger] hs[i]) ==> takes_back(
                after(s, hs.take(i)),
                hs[i],
            ),
    ensures
        document(doc, s, hs).len() == doc.len() + written(s, hs),
        document(doc, s, hs).take(doc.len() as int) == doc,
        written(s, hs) >= 0,
    decreases hs.len(),
{
    if hs.len() > 0 {
        let before = hs.drop_last();
        assert forall|i: int| 0 <= i < before.len() && backspaces(#[trigger] before[i]) implies
            takes_back(after(s, before.take(i)), before[i]) by {
            assert(before[i] == hs[i]);
            assert(before.take(i) =~= hs.take(i));
        }
        assert(hs.take(hs.len() - 1) =~= before);
        assert(hs.last() == hs[hs.len() - 1]);
        lemma_what_was_there_stays(doc, s, before);
        lemma_nothing_older_is_deleted(s, before, hs.last());
        lemma_written(s, hs);
        let text = document(doc, s, before);
        assert(text.take(doc.len() as int) == doc);
        lemma_covered(after(s, before), hs.last());
        let with = match typed(hs.last()) {
            Some(c) => text.push(c),
            None => if backspaces(hs.last()) && text.len() > 0 {
                text.drop_last()
            } else {
                text
            },
        };
        let deed = happens(after(s, before), hs.last()).1;
        let end = document(doc, s, hs);
        assert(end == carried_out(with, deed));
        assert forall|i: int| 0 <= i < doc.len() implies end[i] == doc[i] by {
            assert(text.take(doc.len() as int)[i] == text[i]);
        }
        assert(end.take(doc.len() as int) =~= doc);
    } else {
        assert(doc.take(doc.len() as int) =~= doc);
    }
}

/// A key that may move the caret, and a chord, leave the engine with nothing that
/// was typed before, so that from then on it deletes only what is typed later.
pub proof fn lemma_after_moving_the_caret(
    s: State,
    event: KeyEvent,
    ctx: Surroundings,
    now: u64,
    answer: Option<bool>,
    hs: Seq<Happening>,
    h: Happening,
)
    requires
        !event.synthetic,
        s.judge.choices.enabled,
        !ctx.secure_input,
        !(ctx.app matches Some(app) && s.judge.choices.excludes(app)),
        event.key != Key::ModifiersChanged,
        State::moves_caret(event.key) || event.modifiers.command(),
    ensures
        ({
            let (t, deed) = s.step(event, ctx, now, answer);
            &&& deed == Deed::Nothing
            &&& deleted(happens(after(t, hs), h).1) <= written(t, hs) + count(h)
        }),
{
    let t = s.step(event, ctx, now, answer).0;
    assurances::lemma_moving_the_caret_forgets(s, event, ctx, now, answer);
    lemma_nothing_older_is_deleted(t, hs, h);
}

/// The same holds from the first keystroke on that goes to another application or
/// comes on another layout, but for the engine's own switch of the layout.
pub proof fn lemma_after_changing_context(
    s: State,
    event: KeyEvent,
    ctx: Surroundings,
    now: u64,
    answer: Option<bool>,
    hs: Seq<Happening>,
    h: Happening,
)
    requires
        !event.synthetic,
        s.last_context matches Some(previous) && previous != (ctx.app, ctx.layout) && !(previous.0
            == ctx.app && s.expected_layout is Some && ctx.layout == s.expected_layout),
    ensures
        ({
            let first = Happening::Key { event, ctx, now, answer };
            let (t, deed) = happens(s, first);
            &&& deleted(deed) <= count(first)
            &&& deleted(happens(after(t, hs), h).1) <= count(first) - deleted(deed) + retyped(deed)
                + written(t, hs) + count(h)
        }),
{
    let first = Happening::Key { event, ctx, now, answer };
    let here = s.in_context(ctx);
    assurances::lemma_changing_context_forgets(s, ctx);
    assert(here.in_context(ctx) =~= here);
    assert(here.step(event, ctx, now, answer) == s.step(event, ctx, now, answer));
    lemma_covered(here, first);
    let (t, _) = happens(s, first);
    lemma_written(t, hs);
    lemma_covered(after(t, hs), h);
}

} // verus!
