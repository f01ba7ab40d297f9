//! What a user of the engine can rely on.

use crate::buffer::{Behind, Ended};
use crate::config::Choices;
use crate::detect;
use crate::detect::{Opinion, Reading};
use crate::engine;
use crate::engine::{Deed, State};
use crate::input::{Key, KeyEvent, Modifiers, Surroundings};
use crate::layout;
use crate::text;
use vstd::prelude::*;

verus! {

/// What the application types itself changes nothing.
pub proof fn lemma_own_typing_is_ignored(
    s: State,
    event: KeyEvent,
    ctx: Surroundings,
    now: u64,
    answer: Option<bool>,
)
    requires
        event.synthetic,
    ensures
        s.step(event, ctx, now, answer) == (s, Deed::Nothing),
{
}

/// Nothing is done while the engine is switched off, in a password field, or in
/// an application that is to be left alone; and in the latter two nothing of
/// what is typed is kept.
pub proof fn lemma_stands_down(
    s: State,
    event: KeyEvent,
    ctx: Surroundings,
    now: u64,
    answer: Option<bool>,
)
    requires
        !event.synthetic,
        !s.judge.choices.enabled || ctx.secure_input || (ctx.app matches Some(app)
            && s.judge.choices.excludes(app)),
    ensures
        s.step(event, ctx, now, answer).1 == Deed::Nothing,
        s.judge.choices.enabled ==> s.step(event, ctx, now, answer).0.buffer == Behind::empty(),
{
}

/// Where the layout in use is not known, typing is never corrected.
pub proof fn lemma_unknown_layout_is_never_guessed(
    s: State,
    event: KeyEvent,
    ctx: Surroundings,
    now: u64,
    answer: Option<bool>,
)
    requires
        ctx.layout is None,
        event.key != Key::ModifiersChanged,
    ensures
        s.step(event, ctx, now, answer).1 == Deed::Nothing,
{
}

/// Keys that may move the caret, and chords, leave nothing behind that could
/// still be rewritten.
pub proof fn lemma_moving_the_caret_forgets(
    s: State,
    event: KeyEvent,
    ctx: Surroundings,
    now: u64,
    answer: Option<bool>,
)
    requires
        !event.synthetic,
        s.judge.choices.enabled,
        !ctx.secure_input,
        !(ctx.app matches Some(app) && s.judge.choices.excludes(app)),
        event.key != Key::ModifiersChanged,
        State::moves_caret(event.key) || event.modifiers.command(),
    ensures
        ({
            let (after, deed) = s.step(event, ctx, now, answer);
            &&& deed == Deed::Nothing
            &&& after.last_word is None
            &&& after.buffer == Behind::empty()
            &&& after.cycled().1 == Deed::Nothing
            &&& after.reverted().1 == Deed::Nothing
        }),
{
}

/// When the user turns to another application or another layout, nothing typed
/// before can be rewritten any more. Only the switch of the layout that the
/// engine itself has asked for is an exception.
pub proof fn lemma_changing_context_forgets(s: State, ctx: Surroundings)
    requires
        s.last_context matches Some(previous) && previous != (ctx.app, ctx.layout) && !(previous.0
            == ctx.app && s.expected_layout is Some && ctx.layout == s.expected_layout),
    ensures
        s.in_context(ctx).last_word is None,
        s.in_context(ctx).buffer == Behind::empty(),
        s.in_context(ctx).cycled().1 == Deed::Nothing,
{
}

/// The switch of the layout that the engine has asked for leaves the word that it
/// corrected at hand.
pub proof fn lemma_own_switch_keeps_the_word(s: State, ctx: Surroundings)
    requires
        s.last_context matches Some(previous) && previous.0 == ctx.app && s.expected_layout is Some
            && ctx.layout == s.expected_layout,
    ensures
        s.in_context(ctx).last_word == s.last_word,
        s.in_context(ctx).buffer == s.buffer,
{
}

/// A key pressed while the modifier is held makes it no tap.
pub proof fn lemma_a_key_in_between_is_no_tap(
    s: State,
    event: KeyEvent,
    layout: Option<Seq<char>>,
    modifiers: Modifiers,
    now: u64,
)
    requires
        s.judge.choices.shortcut.trigger() matches Some(target) ==> !target.held(modifiers),
    ensures
        s.typed(event, layout).0.modified(modifiers, now).1 == Deed::Nothing,
{
}

/// Another modifier pressed while the modifier is held makes it no tap.
pub proof fn lemma_a_chord_is_no_tap(
    s: State,
    chord: Modifiers,
    modifiers: Modifiers,
    now: u64,
    later: u64,
)
    requires
        s.judge.choices.shortcut.trigger() matches Some(target) ==> target.chord(chord)
            && !target.held(modifiers),
    ensures
        s.modified(chord, now).1 == Deed::Nothing,
        s.modified(chord, now).0.modified(modifiers, later).1 == Deed::Nothing,
{
}

/// Without a shortcut no tap does anything.
pub proof fn lemma_no_shortcut_no_tap(s: State, modifiers: Modifiers, now: u64)
    requires
        s.judge.choices.shortcut is Off,
    ensures
        s.modified(modifiers, now) == (s, Deed::Nothing),
{
}

/// The first of two taps does nothing, and the second one in time goes on to the
/// next reading.
pub proof fn lemma_double_tap(s: State, now: u64, later: u64)
    requires
        s.judge.choices.shortcut is DoubleTap,
        s.last_tap_at is None,
        later - now <= engine::DOUBLE_TAP_WINDOW,
    ensures
        ({
            let shortcut = s.judge.choices.shortcut;
            let (armed, first) = s.tapped(shortcut, now);
            let (_, second) = armed.tapped(shortcut, later);
            &&& first == Deed::Nothing
            &&& second == s.cycled().1
        }),
{
    let shortcut = s.judge.choices.shortcut;
    let (armed, _) = s.tapped(shortcut, now);
    let taken = State { last_tap_at: None, ..armed };
    assert(taken =~= s);
}

/// No question goes out unless the user has asked for a second opinion and there
/// is someone to ask.
pub proof fn lemma_nothing_is_asked_unless_wanted(
    s: State,
    word: Seq<char>,
    r: Reading,
    active: Seq<char>,
)
    requires
        !s.judge.choices.ai_assist || !s.assisted,
    ensures
        s.inquiry(word, r, active) is None,
{
}

/// A question is about a single word without digits and white space that may be
/// corrected, and names nothing else that was typed.
pub proof fn lemma_only_single_words_are_asked_about(s: State, word: Seq<char>, active: Seq<char>)
    requires
        s.judge.opinion(word, active) is Ambiguous,
        s.inquiry(word, s.judge.opinion(word, active)->Ambiguous_0, active) is Some,
    ensures
        ({
            let q = s.inquiry(word, s.judge.opinion(word, active)->Ambiguous_0, active)->0;
            &&& q.typed == word
            &&& layout::converted_by_id(
                word,
                active,
                s.judge.opinion(word, active)->Ambiguous_0.to_layout,
            ) == Some(q.alternative)
            &&& text::all_alphabetic(q.alternative)
            &&& !s.judge.choices.excepts(word)
            &&& forall|i: int|
                0 <= i < word.len() ==> !detect::wordless(#[trigger] word[i])
                    && !detect::structural(word[i])
        }),
{
    detect::lemma_readings_are_safe(s.judge, word, active);
}

/// An ambiguous word is left alone without a second opinion in favour.
pub proof fn lemma_ambiguous_words_are_left_alone(
    s: State,
    word: Ended,
    active: Seq<char>,
    opinion: Opinion,
    answer: Option<bool>,
)
    requires
        opinion is Ambiguous,
        answer != Some(true),
    ensures
        s.concluded(word, active, opinion, answer).1 == Deed::Nothing,
{
}

/// What the record of the last word says is on the screen is what was typed there
/// last.
pub open spec fn on_record(s: State, deed: Deed) -> bool {
    deed matches Deed::Replace { text, .. } ==> (s.last_word matches Some(c) ==> c.shown(c.index)
        == text && c.on_screen() == text::capped(text.len()))
}

/// The position found for a text is one at which it stands.
pub proof fn lemma_position(texts: Seq<Seq<char>>, s: Seq<char>, i: int)
    requires
        0 <= i <= texts.len(),
    ensures
        match engine::position(texts, s, i) {
            Some(k) => i <= k < texts.len() && texts[k] == s,
            None => forall|k: int| i <= k < texts.len() ==> #[trigger] texts[k] != s,
        },
    decreases texts.len() - i,
{
    if i < texts.len() {
        lemma_position(texts, s, i + 1);
    }
}

/// After a word was judged, after going on to the next reading, and after going
/// back, the engine knows exactly what it has put on the screen, so that the next
/// replacement deletes that and nothing else.
pub proof fn lemma_the_record_matches_the_screen(
    s: State,
    word: Ended,
    active: Seq<char>,
    opinion: Opinion,
    answer: Option<bool>,
)
    requires
        s.sound(),
    ensures
        on_record(
            s.concluded(word, active, opinion, answer).0,
            s.concluded(word, active, opinion, answer).1,
        ),
        on_record(s.cycled().0, s.cycled().1),
        on_record(s.reverted().0, s.reverted().1),
{
    match s.concluded(word, active, opinion, answer).1 {
        Deed::Replace { .. } => {
            let (start, end) = s.judge.middle(word.text, active);
            let converted = match opinion {
                Opinion::Switch(r) => r.converted,
                Opinion::Ambiguous(r) => r.converted,
                Opinion::Keep(_) => Seq::empty(),
            };
            let replacement = word.text.take(start) + converted + word.text.skip(end);
            match s.cycle(word.text, word.terminator, active) {
                Some(c) => {
                    lemma_position(c.variants, replacement, 0);
                },
                None => {},
            }
        },
        Deed::Nothing => {},
    }
    let current = if s.buffer.current.len() > 0 {
        s.with_word_in_progress()
    } else {
        s
    };
    match current.last_word {
        Some(c) => {
            lemma_sound_cycle(s);
            assert(0 <= (c.index + 1) % (c.variants.len() as int) < c.variants.len());
        },
        None => {},
    }
}

proof fn lemma_sound_cycle(s: State)
    requires
        s.sound(),
    ensures
        s.with_word_in_progress().sound(),
{
    match s.last_context {
        Some((_, Some(active))) => match s.buffer.unfinished() {
            Some(word) => {
                lemma_cycle_sound(s, word.text, None, active);
            },
            None => {},
        },
        _ => {},
    }
}

proof fn lemma_cycle_sound(s: State, t: Seq<char>, terminator: Option<char>, active: Seq<char>)
    ensures
        s.cycle(t, terminator, active) matches Some(c) ==> c.sound() && c.variants[0] == t
            && c.layouts[0] == active && c.index == 0 && !c.auto && c.terminator == terminator,
{
    let (start, end) = s.judge.middle(t, active);
    lemma_readings(
        t,
        t.take(start),
        t.subrange(start, end),
        t.skip(end),
        active,
        s.judge.choices.alternatives(active),
    );
}

/// The readings of a word differ from one another, and the first one is what was
/// typed.
pub proof fn lemma_readings(
    s: Seq<char>,
    prefix: Seq<char>,
    word: Seq<char>,
    suffix: Seq<char>,
    active: Seq<char>,
    alternatives: Seq<Seq<char>>,
)
    ensures
        ({
            let (variants, layouts) = engine::readings(
                s,
                prefix,
                word,
                suffix,
                active,
                alternatives,
            );
            &&& variants.len() == layouts.len() >= 1
            &&& variants[0] == s
            &&& layouts[0] == active
            &&& forall|i: int, j: int|
                0 <= i < j < variants.len() ==> #[trigger] variants[i] != #[trigger] variants[j]
        }),
    decreases alternatives.len(),
{
    if alternatives.len() > 0 {
        lemma_readings(s, prefix, word, suffix, active, alternatives.drop_last());
        let (before, _) = engine::readings(
            s,
            prefix,
            word,
            suffix,
            active,
            alternatives.drop_last(),
        );
        let (variants, _) = engine::readings(s, prefix, word, suffix, active, alternatives);
        assert forall|i: int, j: int| 0 <= i < j < variants.len() implies #[trigger] variants[i]
            != #[trigger] variants[j] by {
            assert(variants[i] == before[i]);
            if j < before.len() {
                assert(variants[j] == before[j]);
            } else {
                assert(before.contains(before[i]));
            }
        }
    }
}

/// Every other layout's rendering of a word is among its readings.
pub proof fn lemma_every_rendering_is_a_reading(
    s: Seq<char>,
    prefix: Seq<char>,
    word: Seq<char>,
    suffix: Seq<char>,
    active: Seq<char>,
    alternatives: Seq<Seq<char>>,
    i: int,
)
    requires
        0 <= i < alternatives.len(),
        layout::converted_by_id(word, active, alternatives[i]) is Some,
    ensures
        engine::readings(s, prefix, word, suffix, active, alternatives).0.contains(
            prefix + layout::converted_by_id(word, active, alternatives[i])->0 + suffix,
        ),
    decreases alternatives.len(),
{
    let (variants, _) = engine::readings(s, prefix, word, suffix, active, alternatives);
    let rendered = prefix + layout::converted_by_id(word, active, alternatives[i])->0 + suffix;
    let (before, _) = engine::readings(
        s,
        prefix,
        word,
        suffix,
        active,
        alternatives.drop_last(),
    );
    if i < alternatives.len() - 1 {
        lemma_every_rendering_is_a_reading(
            s,
            prefix,
            word,
            suffix,
            active,
            alternatives.drop_last(),
            i,
        );
        let k = before.index_of(rendered);
        assert(variants[k] == rendered);
    } else if !before.contains(rendered) {
        assert(variants[variants.len() - 1] == rendered);
    }
}

/// A word that the engine corrects on its own account is replaced by its reading
/// on another of the user's layouts, punctuation around it and what ended it
/// stay, exactly the word and what ended it are deleted, and the correction is on
/// record, so that it can be taken back.
pub proof fn lemma_corrections_can_be_taken_back(
    s: State,
    word: Ended,
    active: Seq<char>,
    answer: Option<bool>,
)
    requires
        s.concluded(word, active, s.opinion(word.text, active), answer).1 is Replace,
    ensures
        ({
            let opinion = s.opinion(word.text, active);
            let (after, deed) = s.concluded(word, active, opinion, answer);
            let r = opinion.reading()->0;
            let (start, end) = s.judge.middle(word.text, active);
            let corrected = word.text.take(start) + r.converted + word.text.skip(end);
            &&& opinion.reading() is Some
            &&& deed == (Deed::Replace {
                delete: text::span(word.text, word.terminator),
                text: text::ended(corrected, word.terminator),
                switch_to: Some(r.to_layout),
            })
            &&& s.judge.choices.layouts.contains(r.to_layout)
            &&& r.to_layout != active
            &&& layout::converted_by_id(word.text.subrange(start, end), active, r.to_layout)
                == Some(r.converted)
            &&& after.last_word matches Some(c) && c.variants[0] == word.text
                && c.variants[c.index] == corrected && c.index > 0 && c.auto && c.sound()
            &&& after.reverted().1 == (Deed::Replace {
                delete: text::span(corrected, word.terminator),
                text: text::ended(word.text, word.terminator),
                switch_to: Some(active),
            })
        }),
{
    let opinion = s.opinion(word.text, active);
    let (after, _) = s.concluded(word, active, opinion, answer);
    let (start, end) = s.judge.middle(word.text, active);
    let proper = word.text.subrange(start, end);
    let r = opinion.reading()->0;
    let corrected = word.text.take(start) + r.converted + word.text.skip(end);
    detect::lemma_readings_are_safe(s.judge, proper, active);
    detect::lemma_trimming(s.judge, word.text, active);
    let alternatives = s.judge.choices.alternatives(active);
    detect::lemma_reading_layout(s.judge, proper, active);
    let i = choose|i: int| 0 <= i < alternatives.len() && #[trigger] alternatives[i] == r.to_layout;
    lemma_every_rendering_is_a_reading(
        word.text,
        word.text.take(start),
        proper,
        word.text.skip(end),
        active,
        alternatives,
        i,
    );
    lemma_readings(
        word.text,
        word.text.take(start),
        proper,
        word.text.skip(end),
        active,
        alternatives,
    );
    let (variants, layouts) = engine::readings(
        word.text,
        word.text.take(start),
        proper,
        word.text.skip(end),
        active,
        alternatives,
    );
    let k = variants.index_of(corrected);
    // The correction differs from what was typed, so there are two readings.
    assert(corrected != word.text) by {
        assert(word.text.take(start) + proper + word.text.skip(end) == word.text);
        if corrected == word.text {
            assert(corrected.len() == word.text.len());
            assert(corrected.subrange(start, end) =~= r.converted);
            assert(word.text.subrange(start, end) =~= proper);
        }
    }
    assert(k > 0);
    lemma_position(variants, corrected, 0);
    assert(variants[k] == corrected);
    let c = after.last_word->0;
    assert(c.variants == variants);
    assert(variants[c.index] == corrected);
}

/// One round through the readings of a word leads back to the one on the screen.
pub open spec fn rounds(s: State, n: nat) -> State
    decreases n,
{
    if n == 0 {
        s
    } else {
        rounds(s, (n - 1) as nat).cycled().0
    }
}

proof fn lemma_rounds(s: State, n: nat)
    requires
        s.sound(),
        s.buffer.current.len() == 0,
        s.last_word is Some,
    ensures
        ({
            let after = rounds(s, n);
            let c = s.last_word->0;
            &&& after.buffer.current.len() == 0
            &&& after.last_word matches Some(d) && d.variants == c.variants && d.layouts == c.layouts
                && d.terminator == c.terminator && d.index == (c.index + n) % (
            c.variants.len() as int)
        }),
    decreases n,
{
    let c = s.last_word->0;
    let len = c.variants.len() as int;
    if n == 0 {
        vstd::arithmetic::div_mod::lemma_small_mod(c.index as nat, c.variants.len());
    } else {
        lemma_rounds(s, (n - 1) as nat);
        let before = rounds(s, (n - 1) as nat);
        let d = before.last_word->0;
        vstd::arithmetic::div_mod::lemma_add_mod_noop(c.index + n - 1, 1, len);
        vstd::arithmetic::div_mod::lemma_add_mod_noop(d.index, 1, len);
        vstd::arithmetic::div_mod::lemma_mod_twice(c.index + n - 1, len);
    }
}

/// Going on visits every reading of the word in turn and comes back to the first
/// after as many steps as there are readings.
pub proof fn lemma_cycling_comes_round(s: State)
    requires
        s.sound(),
        s.buffer.current.len() == 0,
        s.last_word is Some,
    ensures
        ({
            let c = s.last_word->0;
            let n = c.variants.len();
            &&& rounds(s, n).last_word matches Some(d) && d.variants == c.variants && d.index
                == c.index
            &&& forall|k: nat| #[trigger]
                rounds(s, k).last_word matches Some(d) && d.variants == c.variants && d.index == (
                c.index + k) % (n as int)
        }),
{
    let c = s.last_word->0;
    let n = c.variants.len();
    lemma_rounds(s, n);
    vstd::arithmetic::div_mod::lemma_mod_add_multiples_vanish(c.index, n as int);
    vstd::arithmetic::div_mod::lemma_small_mod(c.index as nat, n);
    assert(rounds(s, n).last_word->0.index == c.index);
    assert forall|k: nat| #[trigger]
        rounds(s, k).last_word matches Some(d) && d.variants == c.variants && d.index == (c.index
            + k) % (n as int) by {
        lemma_rounds(s, k);
    }
}

proof fn lemma_learned(s: State, typed: Seq<char>, active: Seq<char>)
    ensures
        ({
            let after = s.undone(typed, active);
            let (start, end) = s.judge.middle(typed, active);
            &&& start < end ==> after.judge.choices.excepts(typed.subrange(start, end))
            &&& after.opinion(typed, active) is Keep
            &&& forall|w: Seq<char>| s.judge.choices.excepts(w) ==> #[trigger]
                after.judge.choices.excepts(w)
        }),
{
    let after = s.undone(typed, active);
    let before = s.judge.choices.exceptions;
    let exceptions = after.judge.choices.exceptions;
    let (start, end) = s.judge.middle(typed, active);
    let proper = typed.subrange(start, end);
    assert(after.judge.choices.alternatives(active) == s.judge.choices.alternatives(active));
    assert(after.judge.middle(typed, active) == (start, end));
    let key = engine::exception_key(s.judge, typed, active);
    detect::lemma_trimming(s.judge, typed, active);
    if key.len() > 0 {
        if !before.contains(key) {
            assert(exceptions[exceptions.len() - 1] == key);
        }
        assert(exceptions.contains(key));
    }
    assert forall|w: Seq<char>| s.judge.choices.excepts(w) implies #[trigger]
        after.judge.choices.excepts(w) by {
        let i = choose|i: int|
            0 <= i < before.len() && text::lowercase(#[trigger] before[i]) == text::lowercase(w);
        assert(exceptions[i] == before[i]);
    }
    if start < end {
        let i = exceptions.index_of(key);
        assert(text::lowercase(exceptions[i]) == text::lowercase(proper));
        assert(after.judge.choices.excepts(proper));
        detect::lemma_exceptions_are_kept(after.judge, proper, active);
    } else {
        assert(proper =~= Seq::empty());
        detect::lemma_nothing_is_kept(after.judge, active);
    }
}

/// A correction that was taken back is not made again: the word proper, if there
/// is one, is an exception from then on, and what was typed is left alone on the
/// layout that it was typed on.
pub proof fn lemma_taken_back_once_left_alone_ever_after(s: State)
    requires
        s.last_word matches Some(c) && c.auto && c.index != 0,
    ensures
        ({
            let after = s.reverted().0;
            let typed = s.last_word->0.variants[0];
            let active = s.last_word->0.layouts[0];
            let (start, end) = s.judge.middle(typed, active);
            &&& start < end ==> after.judge.choices.excepts(typed.subrange(start, end))
            &&& after.opinion(typed, active) is Keep
        }),
{
    let c = s.last_word->0;
    let moved = State {
        last_word: Some(engine::Cycle { index: 0, auto: false, ..c }),
        expected_layout: Some(c.layouts[0]),
        ..s
    };
    lemma_learned(moved, c.variants[0], c.layouts[0]);
}

/// The same holds where the user goes on from the engine's pick until what they
/// typed is there again.
pub proof fn lemma_cycled_back_once_left_alone_ever_after(s: State)
    requires
        s.buffer.current.len() == 0,
        s.last_word matches Some(c) && c.auto && (c.index + 1) % (c.variants.len() as int) == 0,
    ensures
        ({
            let after = s.cycled().0;
            let typed = s.last_word->0.variants[0];
            let active = s.last_word->0.layouts[0];
            let (start, end) = s.judge.middle(typed, active);
            &&& start < end ==> after.judge.choices.excepts(typed.subrange(start, end))
            &&& after.opinion(typed, active) is Keep
        }),
{
    let c = s.last_word->0;
    let moved = State {
        last_word: Some(engine::Cycle { index: 0, auto: false, ..c }),
        expected_layout: Some(c.layouts[0]),
        ..s
    };
    lemma_learned(moved, c.variants[0], c.layouts[0]);
}

/// What the user has chosen, but for the exceptions.
pub open spec fn same_choices_but_exceptions(a: Choices, b: Choices) -> bool {
    a == (Choices { exceptions: a.exceptions, ..b })
}

proof fn lemma_cycled_keeps_exceptions(s: State)
    ensures
        same_choices_but_exceptions(s.cycled().0.judge.choices, s.judge.choices),
        forall|w: Seq<char>| s.judge.choices.excepts(w) ==> #[trigger]
            s.cycled().0.judge.choices.excepts(w),
{
    let current = if s.buffer.current.len() > 0 {
        s.with_word_in_progress()
    } else {
        s
    };
    if let Some(c) = current.last_word {
        let next = (c.index + 1) % (c.variants.len() as int);
        let moved = State {
            last_word: Some(engine::Cycle { index: next, auto: false, ..c }),
            expected_layout: Some(c.layouts[next]),
            ..current
        };
        lemma_learned(moved, c.variants[0], c.layouts[0]);
    }
}

/// Whether exceptions are kept, and with them everything that the user has chosen.
spec fn keeps_choices(before: State, after: State) -> bool {
    &&& same_choices_but_exceptions(after.judge.choices, before.judge.choices)
    &&& forall|w: Seq<char>| before.judge.choices.excepts(w) ==> #[trigger]
        after.judge.choices.excepts(w)
}

#[verifier::spinoff_prover]
proof fn lemma_modified_keeps_choices(s: State, modifiers: Modifiers, now: u64)
    ensures
        keeps_choices(s, s.modified(modifiers, now).0),
{
    let released = State { modifier_down_at: None, modifier_was_down: false, ..s };
    let armed = State { last_tap_at: None, ..released };
    assert(released.judge == s.judge);
    assert(armed.judge == s.judge);
    lemma_cycled_keeps_exceptions(released);
    lemma_cycled_keeps_exceptions(armed);
}

proof fn lemma_concluded_keeps_judge(
    s: State,
    word: Ended,
    active: Seq<char>,
    opinion: Opinion,
    answer: Option<bool>,
)
    ensures
        s.concluded(word, active, opinion, answer).0.judge == s.judge,
{
}

#[verifier::spinoff_prover]
proof fn lemma_step_keeps_choices(
    s: State,
    event: KeyEvent,
    ctx: Surroundings,
    now: u64,
    answer: Option<bool>,
)
    ensures
        keeps_choices(s, s.step(event, ctx, now, answer).0),
{
    let here = s.in_context(ctx);
    assert(here.judge == s.judge);
    lemma_modified_keeps_choices(here, event.modifiers, now);
    match s.followed(event, ctx, now) {
        (after, engine::Outcome::Word(word, active)) => {
            lemma_concluded_keeps_judge(
                after,
                word,
                active,
                after.opinion(word.text, active),
                answer,
            );
        },
        _ => {},
    }
}

/// An exception is never forgotten, whatever is typed and whatever the shortcut or
/// the menu is used for, and nothing else of what the user has chosen changes.
#[verifier::spinoff_prover]
pub proof fn lemma_exceptions_are_never_forgotten(
    s: State,
    w: Seq<char>,
    event: KeyEvent,
    ctx: Surroundings,
    now: u64,
    answer: Option<bool>,
    active: Seq<char>,
)
    ensures
        s.judge.choices.excepts(w) ==> s.step(
            event,
            ctx,
            now,
            answer,
        ).0.judge.choices.excepts(w) && s.cycled().0.judge.choices.excepts(w)
            && s.reverted().0.judge.choices.excepts(w) && s.forced(
            active,
        ).0.judge.choices.excepts(w),
        same_choices_but_exceptions(
            s.step(event, ctx, now, answer).0.judge.choices,
            s.judge.choices,
        ),
        same_choices_but_exceptions(s.cycled().0.judge.choices, s.judge.choices),
        same_choices_but_exceptions(s.reverted().0.judge.choices, s.judge.choices),
        same_choices_but_exceptions(s.forced(active).0.judge.choices, s.judge.choices),
{
    lemma_cycled_keeps_exceptions(s);
    lemma_step_keeps_choices(s, event, ctx, now, answer);
    if let Some(c) = s.last_word {
        let moved = State {
            last_word: Some(engine::Cycle { index: 0, auto: false, ..c }),
            expected_layout: Some(c.layouts[0]),
            ..s
        };
        lemma_learned(moved, c.variants[0], c.layouts[0]);
    }
}

} // verus!
