//! What the engine does to what the user types, keystroke by keystroke.

use crate::assurances;
use crate::buffer::Ended;
use crate::config::{Modifier, Shortcut};
use crate::detect;
use crate::engine;
use crate::engine::{Cycle, Deed, State};
use crate::input::{Edit, Key, KeyEvent, Modifiers, Surroundings};
use crate::layout;
use crate::text;
use vstd::prelude::*;

verus! {

/// Two characters that are the same but for the case of an ASCII letter.
pub open spec fn same_letter(a: char, b: char) -> bool {
    a == b || ('A' as int <= a as int <= 'Z' as int && b as int == a as int + 32) || ('A' as int
        <= b as int <= 'Z' as int && a as int == b as int + 32)
}

/// Whether keystrokes count here: the engine is on, no password field has the
/// keyboard, and the application is none of those to be left alone, however their
/// names are capitalised.
pub open spec fn listening(s: State, ctx: Surroundings) -> bool {
    &&& s.judge.choices.enabled
    &&& !ctx.secure_input
    &&& ctx.app matches Some(app) ==> forall|i: int|
        0 <= i < s.judge.choices.excluded_apps.len() ==> !same_name(
            #[trigger] s.judge.choices.excluded_apps[i],
            app,
        )
}

/// Two names that differ at most in the case of ASCII letters.
pub open spec fn same_name(a: Seq<char>, b: Seq<char>) -> bool {
    a.len() == b.len() && forall|i: int|
        0 <= i < a.len() ==> same_letter(#[trigger] a[i], b[i])
}

/// Whether the application and the layout are those of the keystroke before.
pub open spec fn same_place(s: State, ctx: Surroundings) -> bool {
    s.last_context == Some((ctx.app, ctx.layout))
}

/// Nothing of what was typed can be rewritten any more.
pub open spec fn nothing_left(s: State) -> bool {
    &&& s.buffer.current.len() == 0
    &&& s.last_word is None
    &&& s.cycled().1 == Deed::Nothing
    &&& s.reverted().1 == Deed::Nothing
    &&& forall|active: Seq<char>| (#[trigger] s.forced(active)).1 == Deed::Nothing
}

proof fn lemma_same_name(a: Seq<char>, b: Seq<char>)
    ensures
        same_name(a, b) == text::same_ignoring_ascii_case(a, b),
{
    if same_name(a, b) {
        assert forall|i: int| 0 <= i < a.len() implies text::ascii_folded(#[trigger] a[i])
            == text::ascii_folded(b[i]) by {
            assert(same_letter(a[i], b[i]));
        }
    }
    if text::same_ignoring_ascii_case(a, b) {
        assert forall|i: int| 0 <= i < a.len() implies same_letter(#[trigger] a[i], b[i]) by {
            assert(text::ascii_folded(a[i]) == text::ascii_folded(b[i]));
            lemma_same_letter(a[i], b[i]);
        }
    }
}

proof fn lemma_same_letter(a: char, b: char)
    ensures
        same_letter(a, b) == (text::ascii_folded(a) == text::ascii_folded(b)),
{
}

proof fn lemma_listening(s: State, ctx: Surroundings)
    ensures
        listening(s, ctx) <==> s.judge.choices.enabled && !ctx.secure_input && !(
        ctx.app matches Some(app) && s.judge.choices.excludes(app)),
{
    if let Some(app) = ctx.app {
        let apps = s.judge.choices.excluded_apps;
        assert forall|i: int| 0 <= i < apps.len() implies same_name(#[trigger] apps[i], app)
            == text::same_ignoring_ascii_case(apps[i], app) by {
            lemma_same_name(apps[i], app);
        }
    }
}

/// Where keystrokes do not count, nothing is done and nothing of them is kept,
/// unless the engine is off altogether.
pub proof fn lemma_deaf_where_it_should_be(
    s: State,
    event: KeyEvent,
    ctx: Surroundings,
    now: u64,
    answer: Option<bool>,
)
    requires
        !event.synthetic,
        !listening(s, ctx),
    ensures
        s.step(event, ctx, now, answer).1 == Deed::Nothing,
        s.judge.choices.enabled ==> s.step(event, ctx, now, answer).0.buffer.current.len() == 0,
        !s.judge.choices.enabled && same_place(s, ctx) ==> s.step(event, ctx, now, answer).0 == s,
        same_place(s, ctx) ==> s.step(event, ctx, now, answer).0.last_word == s.last_word,
        s.step(event, ctx, now, answer).0.judge == s.judge,
        s.step(event, ctx, now, answer).0.stats == s.stats,
{
    lemma_listening(s, ctx);
    if same_place(s, ctx) {
        assert(s.in_context(ctx) =~= s);
    }
}

/// What may have moved the caret or changed the text unseen makes the engine
/// forget: a key pressed while control or the command key is held, whatever other
/// modifiers are, and the keys that move the caret or that are none of typing.
pub proof fn lemma_shortcuts_and_caret_keys_forget(
    s: State,
    event: KeyEvent,
    ctx: Surroundings,
    now: u64,
    answer: Option<bool>,
)
    requires
        listening(s, ctx),
        !event.synthetic,
        event.key != Key::ModifiersChanged,
        event.modifiers.control || event.modifiers.meta || event.key == Key::Navigation || event.key
            == Key::Escape || event.key == Key::Other,
    ensures
        s.step(event, ctx, now, answer).1 == Deed::Nothing,
        nothing_left(s.step(event, ctx, now, answer).0),
        !s.step(event, ctx, now, answer).0.buffer.poisoned,
{
    lemma_listening(s, ctx);
}

/// What a key that types does while neither control nor the command key is held,
/// in the place where the key before it went: a character is added to the word, or
/// the last one is taken off it; the engine does nothing. From the 65th character
/// on, and once more was deleted than typed, the word is no longer trusted.
pub proof fn lemma_typing_is_followed(
    s: State,
    event: KeyEvent,
    ctx: Surroundings,
    now: u64,
    answer: Option<bool>,
)
    requires
        listening(s, ctx),
        same_place(s, ctx),
        !event.synthetic,
        !event.modifiers.control && !event.modifiers.meta,
        event.key == Key::Character || event.key == Key::Backspace,
    ensures
        ({
            let (after, deed) = s.step(event, ctx, now, answer);
            &&& deed == Deed::Nothing
            &&& after.last_word == s.last_word
            &&& after.judge == s.judge
            &&& after.stats == s.stats
            &&& same_place(after, ctx)
            &&& event.key == Key::Character ==> match event.character {
                Some(c) if !(c as int <= 0x1f || 0x7f <= c as int <= 0x9f) => {
                    &&& after.buffer.current == s.buffer.current.push(c)
                    &&& after.buffer.poisoned == (s.buffer.poisoned || s.buffer.current.len() >= 64)
                },
                _ => after.buffer.current.len() == 0 && !after.buffer.poisoned,
            }
            &&& event.key == Key::Backspace ==> if s.buffer.current.len() == 0 {
                after.buffer.current == s.buffer.current && after.buffer.poisoned
            } else {
                after.buffer.current == s.buffer.current.drop_last() && after.buffer.poisoned
                    == s.buffer.poisoned
            }
        }),
{
    lemma_listening(s, ctx);
    assert(s.in_context(ctx) =~= s);
}

/// The character that a key ends a word with.
pub open spec fn ender(key: Key) -> Option<char> {
    match key {
        Key::Space => Some(' '),
        Key::Tab => Some('\t'),
        Key::Enter => Some('\n'),
        _ => None,
    }
}

/// Where a word has ended, it is replaced exactly if the opinion on the word
/// proper says so, at once or upheld by a second opinion: exactly the word and
/// what ended it are deleted; what surrounds the word proper and what ended it are
/// typed again, with the reading in between; the keyboard goes to the layout of the
/// reading; and one more correction is counted. Otherwise nothing is done.
pub proof fn lemma_what_becomes_of_a_word(
    s: State,
    event: KeyEvent,
    ctx: Surroundings,
    now: u64,
    answer: Option<bool>,
)
    requires
        listening(s, ctx),
        same_place(s, ctx),
        ctx.layout is Some,
        !event.synthetic,
        !event.modifiers.control && !event.modifiers.meta,
        ender(event.key) is Some,
        0 < s.buffer.current.len() < usize::MAX,
        !s.buffer.poisoned,
        s.stats.corrections < u64::MAX,
    ensures
        ({
            let (after, deed) = s.step(event, ctx, now, answer);
            let typed = s.buffer.current;
            let active = ctx.layout->0;
            let (start, end) = s.judge.middle(typed, active);
            let opinion = s.judge.opinion(typed.subrange(start, end), active);
            let wanted = opinion is Switch || (opinion is Ambiguous && answer == Some(true));
            &&& after.buffer.current.len() == 0 && !after.buffer.poisoned
            &&& after.judge == s.judge
            &&& start < end && wanted ==> ({
                let r = opinion.reading()->0;
                &&& deed == (Deed::Replace {
                    delete: typed.len() + 1,
                    text: typed.take(start) + r.converted + typed.skip(end) + seq![
                        ender(event.key)->0,
                    ],
                    switch_to: Some(r.to_layout),
                })
                &&& after.stats.corrections == s.stats.corrections + 1
                &&& after.stats.undos == s.stats.undos
            })
            &&& !(start < end && wanted) ==> deed == Deed::Nothing && after.stats == s.stats
        }),
{
    lemma_listening(s, ctx);
    assert(s.in_context(ctx) =~= s);
    let typed = s.buffer.current;
    let active = ctx.layout->0;
    detect::lemma_trimming(s.judge, typed, active);
    let (start, end) = s.judge.middle(typed, active);
    let opinion = s.judge.opinion(typed.subrange(start, end), active);
    if let Some(r) = opinion.reading() {
        let replacement = typed.take(start) + r.converted + typed.skip(end);
        assert(replacement.push(ender(event.key)->0) =~= replacement + seq![ender(event.key)->0]);
    }
}

/// A word that is not trusted, no word at all, or a word on a layout that is not
/// known is left alone when it ends, and the next one starts afresh.
pub proof fn lemma_untrusted_words_are_left_alone(
    s: State,
    event: KeyEvent,
    ctx: Surroundings,
    now: u64,
    answer: Option<bool>,
)
    requires
        listening(s, ctx),
        same_place(s, ctx),
        !event.synthetic,
        !event.modifiers.control && !event.modifiers.meta,
        ender(event.key) is Some,
        s.buffer.current.len() == 0 || s.buffer.poisoned || ctx.layout is None,
    ensures
        ({
            let (after, deed) = s.step(event, ctx, now, answer);
            &&& deed == Deed::Nothing
            &&& after.buffer.current.len() == 0
            &&& !after.buffer.poisoned
            &&& after.last_word == s.last_word
            &&& after.stats == s.stats
            &&& after.judge == s.judge
        }),
{
    lemma_listening(s, ctx);
    assert(s.in_context(ctx) =~= s);
}

/// Whether a state has the word at hand that the one before had, so that the
/// shortcut and the menu do what they would have done.
pub open spec fn at_hand(before: State, after: State) -> bool {
    &&& after.last_word == before.last_word
    &&& after.buffer == before.buffer
    &&& after.judge == before.judge
    &&& before.buffer.current.len() == 0 ==> after.cycled().1 == before.cycled().1
    &&& after.reverted().1 == before.reverted().1
}

/// Whether a deed's own switch of the layout, and no other, leaves the word at
/// hand: in the same application, the layout that the deed asks for keeps it, and
/// every other layout than the one before makes the engine forget; so does every
/// other application.
pub open spec fn awaits_its_switch(t: State, deed: Deed, ctx: Surroundings) -> bool {
    deed matches Deed::Replace { switch_to, .. } ==> {
        &&& switch_to is Some
        &&& t.last_context matches Some(previous) ==> {
            &&& ctx.app == previous.0 && ctx.layout == switch_to ==> at_hand(t, t.in_context(ctx))
            &&& ctx.app != previous.0 || (ctx.layout != previous.1 && ctx.layout != switch_to)
                ==> nothing_left(t.in_context(ctx))
        }
    }
}

/// After a correction, after going on to the next reading and after going back,
/// the word stays at hand when the next keystroke comes in the same application on
/// exactly the layout that was asked for, and no other change of the layout or of
/// the application leaves it.
pub proof fn lemma_own_switches_keep_the_word(
    s: State,
    event: KeyEvent,
    ctx: Surroundings,
    now: u64,
    answer: Option<bool>,
    next: Surroundings,
)
    ensures
        awaits_its_switch(s.cycled().0, s.cycled().1, next),
        awaits_its_switch(s.reverted().0, s.reverted().1, next),
        awaits_its_switch(
            s.step(event, ctx, now, answer).0,
            s.step(event, ctx, now, answer).1,
            next,
        ),
{
    lemma_awaits_its_switch(s.cycled().0, s.cycled().1, next);
    lemma_awaits_its_switch(s.reverted().0, s.reverted().1, next);
    let (after, deed) = s.step(event, ctx, now, answer);
    lemma_awaits_its_switch(after, deed, next);
}

proof fn lemma_awaits_its_switch(t: State, deed: Deed, ctx: Surroundings)
    requires
        deed matches Deed::Replace { switch_to, .. } ==> switch_to is Some && t.expected_layout
            == switch_to,
    ensures
        awaits_its_switch(t, deed, ctx),
{
    let after = t.in_context(ctx);
    if t.buffer.current.len() == 0 {
        assert(after.buffer == t.buffer && after.last_word == t.last_word ==> after.cycled().1
            == t.cycled().1);
    }
}

/// The reading after the one on the screen; after the last comes the first.
pub open spec fn following(c: Cycle) -> int {
    if c.index + 1 < c.variants.len() {
        c.index + 1
    } else {
        0
    }
}

/// How many characters a reading takes up on the screen with what ended the word.
pub open spec fn width(c: Cycle, index: int) -> nat {
    c.variants[index].len() + if c.terminator is Some {
        1nat
    } else {
        0
    }
}

/// A reading with what ended the word.
pub open spec fn written(c: Cycle, index: int) -> Seq<char> {
    match c.terminator {
        Some(end) => c.variants[index] + seq![end],
        None => c.variants[index],
    }
}

proof fn lemma_written(c: Cycle, index: int)
    requires
        width(c, index) <= usize::MAX,
    ensures
        c.shown(index) == written(c, index),
        text::span(c.variants[index], c.terminator) == width(c, index),
        written(c, index).len() == width(c, index),
{
    if let Some(end) = c.terminator {
        assert(c.variants[index].push(end) =~= c.variants[index] + seq![end]);
    }
}

/// Going on replaces the reading on the screen by the following one: exactly what
/// is on the screen is deleted, the following reading is typed with what ended the
/// word, and the keyboard goes to its layout. Only where that leads from the
/// engine's own pick back to what was typed is it an undo, and then the word is
/// learned; what the user picked is theirs from then on.
pub proof fn lemma_going_on(s: State)
    requires
        s.sound(),
        s.buffer.current.len() == 0,
        s.last_word matches Some(c) && width(c, c.index) <= usize::MAX && width(c, following(c))
            <= usize::MAX,
        s.stats.undos < u64::MAX,
    ensures
        ({
            let (after, deed) = s.cycled();
            let c = s.last_word->0;
            let next = following(c);
            let back = next == 0 && c.auto;
            &&& deed == (Deed::Replace {
                delete: width(c, c.index),
                text: written(c, next),
                switch_to: Some(c.layouts[next]),
            })
            &&& after.last_word == Some(
                Cycle {
                    variants: c.variants,
                    layouts: c.layouts,
                    index: next,
                    terminator: c.terminator,
                    auto: false,
                },
            )
            &&& after.stats.undos == s.stats.undos + if back {
                1int
            } else {
                0
            }
            &&& after.stats.corrections == s.stats.corrections
            &&& !back ==> after.judge == s.judge
            &&& after.buffer.current.len() == 0 && !after.buffer.poisoned
            &&& after.last_context == s.last_context
        }),
{
    let c = s.last_word->0;
    lemma_written(c, c.index);
    lemma_written(c, following(c));
    assert((c.index + 1) % (c.variants.len() as int) == following(c)) by {
        if c.index + 1 < c.variants.len() {
            vstd::arithmetic::div_mod::lemma_small_mod((c.index + 1) as nat, c.variants.len());
        } else {
            vstd::arithmetic::div_mod::lemma_mod_self_0(c.variants.len() as int);
        }
    }
}

/// Going back replaces whatever reading is on the screen by what was typed, and the
/// keyboard goes back to the layout that it was typed on. It is an undo, and the
/// word is learned, exactly if the reading was the engine's own pick. Where what was
/// typed is on the screen, there is nothing to go back from.
pub proof fn lemma_going_back(s: State)
    requires
        s.sound(),
        s.last_word matches Some(c) ==> width(c, c.index) <= usize::MAX && width(c, 0)
            <= usize::MAX,
        s.stats.undos < u64::MAX,
    ensures
        s.last_word is None ==> s.reverted() == (s, Deed::Nothing),
        s.last_word matches Some(c) ==> c.index == 0 ==> s.reverted() == (s, Deed::Nothing),
        s.last_word matches Some(c) ==> c.index != 0 ==> ({
            let (after, deed) = s.reverted();
            &&& deed == (Deed::Replace {
                delete: width(c, c.index),
                text: written(c, 0),
                switch_to: Some(c.layouts[0]),
            })
            &&& after.last_word == Some(
                Cycle {
                    variants: c.variants,
                    layouts: c.layouts,
                    index: 0,
                    terminator: c.terminator,
                    auto: false,
                },
            )
            &&& after.stats.undos == s.stats.undos + if c.auto {
                1int
            } else {
                0
            }
            &&& after.stats.corrections == s.stats.corrections
            &&& !c.auto ==> after.judge == s.judge
            &&& after.buffer.current.len() == 0 && !after.buffer.poisoned
            &&& after.last_context == s.last_context
            &&& after.reverted().1 == Deed::Nothing
        }),
{
    if let Some(c) = s.last_word {
        lemma_written(c, c.index);
        lemma_written(c, 0);
    }
}

/// Going on and then back is nothing but what was typed, whatever was on the
/// screen in between.
pub proof fn lemma_there_and_back(s: State)
    requires
        s.sound(),
        s.buffer.current.len() == 0,
        s.last_word matches Some(c) && forall|i: int|
            0 <= i < c.variants.len() ==> #[trigger] width(c, i) <= usize::MAX,
    ensures
        ({
            let c = s.last_word->0;
            let t = s.cycled().0;
            let next = following(c);
            &&& next != 0 ==> t.reverted().1 == (Deed::Replace {
                delete: width(c, next),
                text: written(c, 0),
                switch_to: Some(c.layouts[0]),
            })
            &&& next == 0 ==> t.reverted().1 == Deed::Nothing
        }),
{
    let c = s.last_word->0;
    let next = following(c);
    assert(width(c, c.index) <= usize::MAX);
    assert(width(c, next) <= usize::MAX);
    assert(width(c, 0) <= usize::MAX);
    assert((c.index + 1) % (c.variants.len() as int) == next) by {
        if c.index + 1 < c.variants.len() {
            vstd::arithmetic::div_mod::lemma_small_mod((c.index + 1) as nat, c.variants.len());
        } else {
            vstd::arithmetic::div_mod::lemma_mod_self_0(c.variants.len() as int);
        }
    }
    lemma_written(c, next);
    lemma_written(c, 0);
}

/// What a layout makes of a word, between what surrounds the word proper.
pub open spec fn rendering(
    prefix: Seq<char>,
    word: Seq<char>,
    suffix: Seq<char>,
    active: Seq<char>,
    id: Seq<char>,
) -> Option<Seq<char>> {
    match layout::converted_by_id(word, active, id) {
        Some(converted) => Some(prefix + converted + suffix),
        None => None,
    }
}

/// Whether these positions, but for the first, are those of the layouts that give a
/// reading of their own, in the user's order: each reading is what its layout makes
/// of the word, and no layout before it makes the same of it.
pub open spec fn in_order(
    at: Seq<int>,
    variants: Seq<Seq<char>>,
    layouts: Seq<Seq<char>>,
    prefix: Seq<char>,
    word: Seq<char>,
    suffix: Seq<char>,
    active: Seq<char>,
    alternatives: Seq<Seq<char>>,
) -> bool {
    &&& at.len() == variants.len() == layouts.len()
    &&& forall|i: int, j: int|
        1 <= i < j < at.len() ==> #[trigger] at[i] < #[trigger] at[j]
    &&& forall|i: int|
        1 <= i < at.len() ==> {
            &&& 0 <= #[trigger] at[i] < alternatives.len()
            &&& layouts[i] == alternatives[at[i]]
            &&& rendering(prefix, word, suffix, active, layouts[i]) == Some(variants[i])
            &&& forall|k: int|
                0 <= k < at[i] ==> rendering(
                    prefix,
                    word,
                    suffix,
                    active,
                    #[trigger] alternatives[k],
                ) != Some(variants[i])
        }
}

/// The readings of a word are what was typed, on the layout in use, and then what
/// the user's other layouts make of it, in their order, each where it is the first
/// to do so.
pub proof fn lemma_readings_come_in_order(
    s: Seq<char>,
    prefix: Seq<char>,
    word: Seq<char>,
    suffix: Seq<char>,
    active: Seq<char>,
    alternatives: Seq<Seq<char>>,
) -> (at: Seq<int>)
    ensures
        ({
            let (variants, layouts) = engine::readings(
                s,
                prefix,
                word,
                suffix,
                active,
                alternatives,
            );
            &&& variants[0] == s && layouts[0] == active
            &&& in_order(at, variants, layouts, prefix, word, suffix, active, alternatives)
            &&& forall|k: int|
                0 <= k < alternatives.len() ==> (rendering(
                    prefix,
                    word,
                    suffix,
                    active,
                    #[trigger] alternatives[k],
                ) matches Some(t) ==> variants.contains(t))
        }),
    decreases alternatives.len(),
{
    let (variants, layouts) = engine::readings(s, prefix, word, suffix, active, alternatives);
    if alternatives.len() == 0 {
        seq![-1int]
    } else {
        let before = alternatives.drop_last();
        let n = alternatives.len() - 1;
        let at = lemma_readings_come_in_order(s, prefix, word, suffix, active, before);
        let (old_variants, old_layouts) = engine::readings(
            s,
            prefix,
            word,
            suffix,
            active,
            before,
        );
        assurances::lemma_readings(s, prefix, word, suffix, active, before);
        assert forall|k: int| 0 <= k < n implies before[k] == alternatives[k] by {}
        let now = match rendering(prefix, word, suffix, active, alternatives[n]) {
            Some(t) => if old_variants.contains(t) {
                at
            } else {
                at.push(n)
            },
            None => at,
        };
        assert forall|i: int| 1 <= i < now.len() implies {
            &&& 0 <= #[trigger] now[i] < alternatives.len()
            &&& layouts[i] == alternatives[now[i]]
            &&& rendering(prefix, word, suffix, active, layouts[i]) == Some(variants[i])
            &&& forall|k: int|
                0 <= k < now[i] ==> rendering(
                    prefix,
                    word,
                    suffix,
                    active,
                    #[trigger] alternatives[k],
                ) != Some(variants[i])
        } by {
            if i < at.len() {
                assert(now[i] == at[i]);
                assert(variants[i] == old_variants[i] && layouts[i] == old_layouts[i]);
                assert forall|k: int| 0 <= k < now[i] implies rendering(
                    prefix,
                    word,
                    suffix,
                    active,
                    #[trigger] alternatives[k],
                ) != Some(variants[i]) by {
                    assert(before[k] == alternatives[k]);
                }
            } else {
                assert forall|k: int| 0 <= k < now[i] implies rendering(
                    prefix,
                    word,
                    suffix,
                    active,
                    #[trigger] alternatives[k],
                ) != Some(variants[i]) by {
                    assert(before[k] == alternatives[k]);
                }
            }
        }
        assert forall|i: int, j: int| 1 <= i < j < now.len() implies #[trigger] now[i]
            < #[trigger] now[j] by {
            assert(now[i] == at[i]);
            if j < at.len() {
                assert(now[j] == at[j]);
            }
        }
        assert forall|k: int| 0 <= k < alternatives.len() implies (rendering(
            prefix,
            word,
            suffix,
            active,
            #[trigger] alternatives[k],
        ) matches Some(t) ==> variants.contains(t)) by {
            if let Some(t) = rendering(prefix, word, suffix, active, alternatives[k]) {
                if k < n {
                    assert(before[k] == alternatives[k]);
                    let i = old_variants.index_of(t);
                    assert(variants[i] == t);
                } else if old_variants.contains(t) {
                    let i = old_variants.index_of(t);
                    assert(variants[i] == t);
                } else {
                    assert(variants[variants.len() - 1] == t);
                }
            }
        }
        now
    }
}

/// The shortcut on a word that has not ended yet: where the word is trusted and the
/// layout is known, its first other reading takes its place, on the layout that
/// makes it, and everything typed of it is deleted; what was typed is the reading to
/// come back to. Where no other layout makes anything else of it, nothing is done.
pub proof fn lemma_the_word_in_progress(s: State, active: Seq<char>) -> (at: Seq<int>)
    requires
        s.last_context matches Some((_, Some(layout))) && layout == active,
        layout::board_for(active) is Some,
        0 < s.buffer.current.len() <= usize::MAX,
        !s.buffer.poisoned,
    ensures
        ({
            let typed = s.buffer.current;
            let (start, end) = s.judge.middle(typed, active);
            let prefix = typed.take(start);
            let word = typed.subrange(start, end);
            let suffix = typed.skip(end);
            let alternatives = s.judge.choices.alternatives(active);
            let (after, deed) = s.cycled();
            &&& after.stats == s.stats && after.judge == s.judge
            &&& after.buffer.current.len() == 0
            &&& (deed matches Deed::Replace { delete, text, switch_to } ==> {
                &&& delete == typed.len()
                &&& text != typed
                &&& switch_to is Some
                &&& alternatives.contains(switch_to->0)
                &&& rendering(prefix, word, suffix, active, switch_to->0) == Some(text)
                &&& after.last_word matches Some(c) && c.index == 1 && c.variants[0] == typed
                    && c.layouts[0] == active && c.terminator is None && !c.auto && in_order(
                    at,
                    c.variants,
                    c.layouts,
                    prefix,
                    word,
                    suffix,
                    active,
                    alternatives,
                )
            })
            &&& deed is Nothing <==> forall|k: int|
                0 <= k < alternatives.len() ==> (rendering(
                    prefix,
                    word,
                    suffix,
                    active,
                    #[trigger] alternatives[k],
                ) matches Some(t) ==> t == typed)
        }),
{
    let typed = s.buffer.current;
    let (start, end) = s.judge.middle(typed, active);
    let prefix = typed.take(start);
    let word = typed.subrange(start, end);
    let suffix = typed.skip(end);
    let alternatives = s.judge.choices.alternatives(active);
    let at = lemma_readings_come_in_order(typed, prefix, word, suffix, active, alternatives);
    assurances::lemma_readings(typed, prefix, word, suffix, active, alternatives);
    let (variants, layouts) = engine::readings(typed, prefix, word, suffix, active, alternatives);
    if variants.len() >= 2 {
        assert(1int % (variants.len() as int) == 1) by {
            vstd::arithmetic::div_mod::lemma_small_mod(1, variants.len());
        }
        assert(variants[0] != variants[1]);
        assert(0 <= at[1] < alternatives.len());
        assert(alternatives[at[1]] == layouts[1]);
        assert(rendering(prefix, word, suffix, active, alternatives[at[1]]) == Some(variants[1]));
    } else {
        assert forall|k: int| 0 <= k < alternatives.len() implies (rendering(
            prefix,
            word,
            suffix,
            active,
            #[trigger] alternatives[k],
        ) matches Some(t) ==> t == typed) by {
            if let Some(t) = rendering(prefix, word, suffix, active, alternatives[k]) {
                let i = variants.index_of(t);
                assert(i == 0);
            }
        }
    }
    at
}

/// A word that has ended and was not replaced is at hand for the shortcut, with
/// what was typed on the screen; one that was replaced is, with the reading on the
/// screen as the engine's own pick. Its readings are what was typed and what the
/// user's other layouts make of it.
pub proof fn lemma_the_last_word_is_at_hand(
    s: State,
    word: Ended,
    active: Seq<char>,
    answer: Option<bool>,
) -> (at: Seq<int>)
    ensures
        ({
            let typed = word.text;
            let (start, end) = s.judge.middle(typed, active);
            let opinion = s.opinion(typed, active);
            let (after, deed) = s.concluded(word, active, opinion, answer);
            let prefix = typed.take(start);
            let proper = typed.subrange(start, end);
            let suffix = typed.skip(end);
            let alternatives = s.judge.choices.alternatives(active);
            &&& after.last_word is Some <==> start < end && layout::board_for(active) is Some && (
            exists|k: int|
                0 <= k < alternatives.len() && (rendering(
                    prefix,
                    proper,
                    suffix,
                    active,
                    #[trigger] alternatives[k],
                ) matches Some(t) && t != typed))
            &&& after.last_word matches Some(c) ==> {
                &&& c.variants[0] == typed && c.layouts[0] == active
                &&& c.terminator == word.terminator
                &&& c.auto == (deed is Replace)
                &&& deed is Nothing ==> c.index == 0
                &&& deed is Replace ==> c.index > 0 && deed->text == text::ended(
                    c.variants[c.index],
                    word.terminator,
                )
                &&& in_order(
                    at,
                    c.variants,
                    c.layouts,
                    prefix,
                    proper,
                    suffix,
                    active,
                    s.judge.choices.alternatives(active),
                )
            }
        }),
{
    let typed = word.text;
    let (start, end) = s.judge.middle(typed, active);
    let opinion = s.opinion(typed, active);
    let at = lemma_readings_come_in_order(
        typed,
        typed.take(start),
        typed.subrange(start, end),
        typed.skip(end),
        active,
        s.judge.choices.alternatives(active),
    );
    detect::lemma_trimming(s.judge, typed, active);
    let alternatives = s.judge.choices.alternatives(active);
    let prefix = typed.take(start);
    let proper = typed.subrange(start, end);
    let suffix = typed.skip(end);
    let (variants, layouts) = engine::readings(typed, prefix, proper, suffix, active, alternatives);
    assurances::lemma_readings(typed, prefix, proper, suffix, active, alternatives);
    if variants.len() >= 2 {
        assert(variants[0] != variants[1]);
        assert(0 <= at[1] < alternatives.len());
        assert(rendering(prefix, proper, suffix, active, alternatives[at[1]]) == Some(
            variants[1],
        ));
    } else {
        assert forall|k: int| 0 <= k < alternatives.len() implies (rendering(
            prefix,
            proper,
            suffix,
            active,
            #[trigger] alternatives[k],
        ) matches Some(t) ==> t == typed) by {
            if let Some(t) = rendering(prefix, proper, suffix, active, alternatives[k]) {
                let i = variants.index_of(t);
                assert(i == 0);
            }
        }
    }
    if s.concluded(word, active, opinion, answer).1 is Replace {
        assurances::lemma_corrections_can_be_taken_back(s, word, active, answer);
    }
    at
}

/// A word that is no longer trusted cannot be converted before it has ended, and
/// takes the one before it along.
pub proof fn lemma_untrusted_words_are_not_converted(s: State, active: Seq<char>)
    requires
        s.buffer.current.len() > 0,
        s.buffer.poisoned,
    ensures
        s.cycled().1 == Deed::Nothing,
        s.cycled().0.last_word is None,
        s.forced(active) == (s, Deed::Nothing),
{
}

/// Converting the word in progress by force goes past every guard: all that was
/// typed of it is deleted, and what the layout that it was meant for makes of it is
/// typed on that layout.
pub proof fn lemma_forcing(s: State, active: Seq<char>)
    requires
        s.stats.corrections < u64::MAX,
        s.buffer.current.len() > 0,
        !s.buffer.poisoned,
    ensures
        ({
            let (after, deed) = s.forced(active);
            let typed = s.buffer.current;
            &&& after.buffer.current.len() == 0
            &&& after.judge == s.judge && after.last_word == s.last_word
            &&& after.stats.undos == s.stats.undos
            &&& match s.judge.target(typed, active) {
                Some(id) => match layout::converted_by_id(typed, active, id) {
                    Some(converted) => {
                        &&& deed == (Deed::Replace {
                            delete: typed.len(),
                            text: converted,
                            switch_to: Some(id),
                        })
                        &&& after.stats.corrections == s.stats.corrections + 1
                    },
                    None => deed is Nothing && after.stats == s.stats,
                },
                None => deed is Nothing && after.stats == s.stats,
            }
        }),
{
}

/// No modifier is held.
pub open spec fn none_held() -> Modifiers {
    Modifiers { shift: false, control: false, alt: false, meta: false }
}

/// One modifier is held and no other.
pub open spec fn only(m: Modifier) -> Modifiers {
    match m {
        Modifier::Option => Modifiers { alt: true, ..none_held() },
        Modifier::Shift => Modifiers { shift: true, ..none_held() },
        Modifier::Control => Modifiers { control: true, ..none_held() },
        Modifier::Command => Modifiers { meta: true, ..none_held() },
    }
}

/// The modifiers have changed to these.
pub open spec fn changed(modifiers: Modifiers) -> KeyEvent {
    KeyEvent { character: None, key: Key::ModifiersChanged, modifiers, synthetic: false }
}

/// What comes of a modifier that goes down alone and up again.
pub open spec fn tap(
    s: State,
    ctx: Surroundings,
    m: Modifier,
    now: u64,
    later: u64,
    answer: Option<bool>,
) -> (State, Deed) {
    s.step(changed(only(m)), ctx, now, answer).0.step(changed(none_held()), ctx, later, answer)
}

proof fn lemma_only(m: Modifier, n: Modifier)
    ensures
        n.held(only(m)) <==> m == n,
        !n.held(none_held()),
        !m.chord(only(m)),
        !m.chord(none_held()),
        m != n ==> n.chord(only(m)),
{
    if m != n {
        assert(m.held(only(m)));
    }
    assert(forall|other: Modifier| other != m ==> !#[trigger] other.held(only(m)));
    assert(forall|other: Modifier| !#[trigger] other.held(none_held()));
}

/// Whether a state is that before but for what is remembered of the shortcut's
/// modifier.
spec fn same_but_tap(a: State, b: State) -> bool {
    a == (State {
        modifier_down_at: a.modifier_down_at,
        modifier_was_down: a.modifier_was_down,
        last_tap_at: a.last_tap_at,
        ..b
    })
}

proof fn lemma_cycled_same_but_tap(a: State, b: State)
    requires
        same_but_tap(a, b),
    ensures
        a.cycled().1 == b.cycled().1,
        same_but_tap(a.cycled().0, b.cycled().0),
{
    let (x, y) = (a.with_word_in_progress(), b.with_word_in_progress());
    assert(x.last_word == y.last_word);
    assert(x.buffer == y.buffer);
}

proof fn lemma_one_tap(
    s: State,
    ctx: Surroundings,
    m: Modifier,
    now: u64,
    later: u64,
    answer: Option<bool>,
)
    requires
        listening(s, ctx),
        same_place(s, ctx),
        !s.modifier_was_down,
        s.judge.choices.shortcut.trigger() == Some(m),
    ensures
        s.step(changed(only(m)), ctx, now, answer) == (
            State { modifier_was_down: true, modifier_down_at: Some(now), ..s },
            Deed::Nothing,
        ),
        tap(s, ctx, m, now, later, answer) == ({
            let released = State { modifier_down_at: None, ..s };
            if later - now <= 600_000_000 {
                released.tapped(s.judge.choices.shortcut, later)
            } else {
                (released, Deed::Nothing)
            }
        }),
{
    lemma_listening(s, ctx);
    lemma_only(m, m);
    assert(s.in_context(ctx) =~= s);
    let t = State { modifier_was_down: true, modifier_down_at: Some(now), ..s };
    assert(s.step(changed(only(m)), ctx, now, answer).0 =~= t);
    lemma_listening(t, ctx);
    assert(t.in_context(ctx) =~= t);
    assert(State { modifier_was_down: false, modifier_down_at: None, ..t } =~= State {
        modifier_down_at: None,
        ..s
    });
}

/// One tap is the shortcut: pressing the modifier alone does nothing, and letting
/// it go at most 600 ms later does what going on to the next reading does. Held
/// longer, it does nothing. Another modifier than the shortcut's does nothing.
pub proof fn lemma_a_tap_goes_on(
    s: State,
    ctx: Surroundings,
    m: Modifier,
    tapped: Modifier,
    now: u64,
    later: u64,
    answer: Option<bool>,
)
    requires
        listening(s, ctx),
        same_place(s, ctx),
        !s.modifier_was_down,
        s.judge.choices.shortcut == (Shortcut::Tap { modifier: m }),
    ensures
        s.step(changed(only(tapped)), ctx, now, answer).1 == Deed::Nothing,
        tapped == m && later - now <= 600_000_000 ==> tap(
            s,
            ctx,
            tapped,
            now,
            later,
            answer,
        ).1 == s.cycled().1,
        tapped != m || later - now > 600_000_000 ==> tap(s, ctx, tapped, now, later, answer).1
            == Deed::Nothing,
{
    if tapped == m {
        lemma_one_tap(s, ctx, m, now, later, answer);
        lemma_cycled_same_but_tap(State { modifier_down_at: None, ..s }, s);
    } else {
        lemma_listening(s, ctx);
        lemma_only(tapped, m);
        lemma_only(tapped, tapped);
        assert(s.in_context(ctx) =~= s);
        let t = s.step(changed(only(tapped)), ctx, now, answer).0;
        assert(t =~= State { modifier_down_at: None, modifier_was_down: false, ..s });
        lemma_listening(t, ctx);
        assert(t.in_context(ctx) =~= t);
        lemma_only(m, m);
    }
}

/// Two taps are the shortcut: the first one does nothing, and the second one does
/// what going on does if it ends at most 500 ms after the first one did. Taps
/// further apart do nothing, and the later one counts as the first.
pub proof fn lemma_two_taps_go_on(
    s: State,
    ctx: Surroundings,
    m: Modifier,
    at: (u64, u64),
    again: (u64, u64),
    answer: Option<bool>,
)
    requires
        listening(s, ctx),
        same_place(s, ctx),
        !s.modifier_was_down,
        s.last_tap_at is None,
        s.judge.choices.shortcut == (Shortcut::DoubleTap { modifier: m }),
        at.1 - at.0 <= 600_000_000,
        again.1 - again.0 <= 600_000_000,
    ensures
        ({
            let (t, first) = tap(s, ctx, m, at.0, at.1, answer);
            let (u, second) = tap(t, ctx, m, again.0, again.1, answer);
            &&& first == Deed::Nothing
            &&& again.1 - at.1 <= 500_000_000 ==> second == s.cycled().1 && u.last_tap_at is None
            &&& again.1 - at.1 > 500_000_000 ==> second == Deed::Nothing && u.last_tap_at == Some(
                again.1,
            )
        }),
{
    lemma_one_tap(s, ctx, m, at.0, at.1, answer);
    let t = tap(s, ctx, m, at.0, at.1, answer).0;
    assert(t =~= State { modifier_down_at: None, last_tap_at: Some(at.1), ..s });
    lemma_listening(s, ctx);
    lemma_listening(t, ctx);
    lemma_one_tap(t, ctx, m, again.0, again.1, answer);
    let ready = State { modifier_down_at: None, last_tap_at: None, ..t };
    lemma_cycled_same_but_tap(ready, s);
    if again.1 - at.1 <= 500_000_000 {
        assert(State { last_tap_at: None, ..State { modifier_down_at: None, ..t } } =~= ready);
        lemma_cycled_keeps_taps(ready);
    }
}

proof fn lemma_cycled_keeps_taps(s: State)
    ensures
        s.cycled().0.last_tap_at == s.last_tap_at,
{
}

/// A key pressed while the shortcut's modifier is held, or another modifier, and
/// the tap does nothing.
pub proof fn lemma_a_held_modifier_is_no_tap(
    s: State,
    ctx: Surroundings,
    m: Modifier,
    between: KeyEvent,
    times: (u64, u64, u64),
    answer: Option<bool>,
)
    requires
        listening(s, ctx),
        same_place(s, ctx),
        !s.modifier_was_down,
        s.judge.choices.shortcut == (Shortcut::Tap { modifier: m }) || s.judge.choices.shortcut == (
        Shortcut::DoubleTap { modifier: m }),
        !between.synthetic,
        between.key != Key::ModifiersChanged && !between.modifiers.control
            && !between.modifiers.meta && ender(between.key) is None || between.key
            == Key::ModifiersChanged && exists|n: Modifier|
            n != m && #[trigger] n.held(between.modifiers),
    ensures
        ({
            let down = s.step(changed(only(m)), ctx, times.0, answer).0;
            let held = down.step(between, ctx, times.1, answer).0;
            held.step(changed(none_held()), ctx, times.2, answer).1 == Deed::Nothing
        }),
{
    lemma_one_tap(s, ctx, m, times.0, times.0, answer);
    let down = s.step(changed(only(m)), ctx, times.0, answer).0;
    lemma_listening(s, ctx);
    lemma_listening(down, ctx);
    assert(down.in_context(ctx) =~= down);
    let held = down.step(between, ctx, times.1, answer).0;
    assert(held.modifier_down_at is None);
    assert(held.judge == down.judge);
    lemma_listening(held, ctx);
    assert(same_place(held, ctx));
    assert(held.in_context(ctx) =~= held);
    lemma_only(m, m);
}

/// A character typed on a key, with none but these modifiers held.
pub open spec fn typed(c: char, shift: bool, alt: bool) -> KeyEvent {
    KeyEvent {
        character: Some(c),
        key: Key::Character,
        modifiers: Modifiers { shift, alt, ..none_held() },
        synthetic: false,
    }
}

/// The state after a text was typed key by key.
pub open spec fn after_typing(
    s: State,
    text: Seq<char>,
    ctx: Surroundings,
    now: u64,
    answer: Option<bool>,
) -> State
    decreases text.len(),
{
    if text.len() == 0 {
        s
    } else {
        after_typing(s, text.drop_last(), ctx, now, answer).step(
            typed(text.last(), false, false),
            ctx,
            now,
            answer,
        ).0
    }
}

/// A word of up to 64 characters that is typed key by key from a fresh start is
/// known as it was typed, and nothing is done meanwhile.
pub proof fn lemma_a_word_is_known_as_typed(
    s: State,
    text: Seq<char>,
    ctx: Surroundings,
    now: u64,
    answer: Option<bool>,
)
    requires
        listening(s, ctx),
        same_place(s, ctx),
        s.buffer.current.len() == 0,
        !s.buffer.poisoned,
        text.len() <= 64,
        forall|i: int|
            0 <= i < text.len() ==> !((#[trigger] text[i]) as int <= 0x1f || 0x7f <= text[i] as int
                <= 0x9f),
    ensures
        ({
            let t = after_typing(s, text, ctx, now, answer);
            &&& t.buffer.current == text
            &&& !t.buffer.poisoned
            &&& t.judge == s.judge
            &&& t.stats == s.stats
            &&& t.last_word == s.last_word
            &&& listening(t, ctx)
            &&& same_place(t, ctx)
        }),
    decreases text.len(),
{
    if text.len() > 0 {
        let before = text.drop_last();
        assert forall|i: int| 0 <= i < before.len() implies !((#[trigger] before[i]) as int <= 0x1f
            || 0x7f <= before[i] as int <= 0x9f) by {
            assert(before[i] == text[i]);
        }
        lemma_a_word_is_known_as_typed(s, before, ctx, now, answer);
        let t = after_typing(s, before, ctx, now, answer);
        assert(text.last() == text[text.len() - 1]);
        lemma_typing_is_followed(t, typed(text.last(), false, false), ctx, now, answer);
        assert(before.push(text.last()) =~= text);
        lemma_listening(t, ctx);
        lemma_listening(after_typing(s, text, ctx, now, answer), ctx);
    } else {
        assert(text =~= s.buffer.current);
    }
}

/// A second opinion is asked for on an ambiguous word exactly if the user wants
/// that, there is someone to ask, and both layouts are known; the question holds
/// the word, its other reading and the two languages.
pub proof fn lemma_when_a_question_goes_out(
    s: State,
    word: Seq<char>,
    active: Seq<char>,
    r: detect::Reading,
)
    ensures
        s.inquiry(word, r, active) is Some <==> s.assisted && s.judge.choices.ai_assist
            && layout::def_for(active) is Some && layout::def_for(r.to_layout) is Some,
        s.inquiry(word, r, active) matches Some(q) ==> q.typed == word && q.alternative
            == r.converted && q.typed_language == (layout::def_for(active)->0).lang
            && q.alternative_language == (layout::def_for(r.to_layout)->0).lang,
{
}

/// At most one exception is learned from a word, behind those there are; it is the
/// same word in lower case, as far as lower case is settled, and one that is there
/// already is not added again.
pub proof fn lemma_what_is_learned(s: State, word: Seq<char>, active: Seq<char>)
    ensures
        ({
            let before = s.judge.choices.exceptions;
            let after = engine::learned(s.judge, word, active);
            let (start, end) = s.judge.middle(word, active);
            let proper = if start == end {
                word
            } else {
                word.subrange(start, end)
            };
            after == before || {
                &&& after.len() == before.len() + 1
                &&& after.drop_last() == before
                &&& after.last().len() > 0
                &&& !before.contains(after.last())
                &&& text::lowercase(after.last()) == text::lowercase(proper)
                &&& text::lowercase(text::lowercase(proper)) == text::lowercase(proper)
                    && text::lowercase(proper).len() > 0 ==> after.last() == text::lowercase(proper)
            }
        }),
{
    let before = s.judge.choices.exceptions;
    let after = engine::learned(s.judge, word, active);
    if after != before {
        assert(after.drop_last() =~= before);
    }
}

/// A document after an edit, as far as text is concerned: so many characters are taken
/// off before the caret, or a text is put there. What keys type is not said here.
pub open spec fn edited(doc: Seq<char>, edit: Edit) -> Seq<char> {
    match edit {
        Edit::Backspace(n) => if n <= doc.len() {
            doc.take(doc.len() - n)
        } else {
            Seq::empty()
        },
        Edit::Type(t) => doc + t,
        Edit::Keys(_) => doc,
    }
}

/// A document after these edits, one after another.
pub open spec fn after_edits(doc: Seq<char>, edits: Seq<Edit>) -> Seq<char>
    decreases edits.len(),
{
    if edits.len() == 0 {
        doc
    } else {
        edited(after_edits(doc, edits.drop_last()), edits.last())
    }
}

/// Carrying a deed out replaces exactly so many characters before the caret as it says by
/// its text, and everything before them stays, whether the layout in use is known or
/// not; a deed that does nothing changes nothing.
pub proof fn lemma_deeds_replace_what_they_say(
    doc: Seq<char>,
    gone: Seq<char>,
    deed: Deed,
    active: Option<Seq<char>>,
)
    ensures
        deed matches Deed::Replace { delete, text, .. } ==> (delete == gone.len() ==> after_edits(
            doc + gone,
            deed.edits(),
        ) == doc + text && after_edits(doc + gone, deed.edits_on(active, false)) == doc + text),
        deed is Nothing ==> after_edits(doc, deed.edits()) == doc && after_edits(
            doc,
            deed.edits_on(active, true),
        ) == doc,
{
    reveal_with_fuel(after_edits, 3);
    if let Deed::Replace { delete, text, .. } = deed {
        if delete == gone.len() {
            let whole = doc + gone;
            assert(whole.take(whole.len() - delete) =~= doc);
            let typed = Edit::Type(text);
            let all = deed.edits();
            assert(all.drop_last() =~= seq![Edit::Backspace(delete)]);
            assert(seq![Edit::Backspace(delete)].drop_last() =~= Seq::empty());
            assert(all.last() == typed);
            let on = deed.edits_on(active, false);
            assert(on.last() == typed);
            if delete > 0 {
                assert(on.drop_last() =~= seq![Edit::Backspace(delete)]);
            } else {
                assert(on.drop_last() =~= Seq::empty());
                assert(whole =~= doc);
            }
        }
    }
}

/// Where keys are pressed, they are those that the text is typed with on the layout in
/// use, in order, after exactly what is to go has been deleted.
pub proof fn lemma_the_keys_are_those_of_the_text(deed: Deed, active: Option<Seq<char>>)
    requires
        deed is Replace,
        engine::pressed(active, deed->text) is Some,
    ensures
        ({
            let on = deed.edits_on(active, true);
            let b = layout::board_for(active->0)->0;
            let strokes = layout::strokes(b, deed->text);
            &&& active is Some && layout::board_for(active->0) is Some
            &&& on.last() matches Edit::Keys(presses) && presses.len() == strokes.len() && forall|
                i: int,
            |
                0 <= i < strokes.len() ==> Some(#[trigger] presses[i]) == layout::key_press(
                    strokes[i],
                )
            &&& on.drop_last() == if deed->delete > 0 {
                seq![Edit::Backspace(deed->delete)]
            } else {
                Seq::empty()
            }
        }),
{
    let on = deed.edits_on(active, true);
    let b = layout::board_for(active->0)->0;
    let strokes = layout::strokes(b, deed->text);
    let presses = engine::pressed(active, deed->text)->0;
    assert forall|i: int| 0 <= i < strokes.len() implies Some(#[trigger] presses[i])
        == layout::key_press(strokes[i]) by {
        assert(layout::key_press(strokes[i]) is Some);
    }
    if deed->delete > 0 {
        assert(on.drop_last() =~= seq![Edit::Backspace(deed->delete)]);
    } else {
        assert(on.drop_last() =~= Seq::empty());
    }
}

/// Where a keystroke goes is all that a change of place changes: in the place of the
/// keystroke before, and at the first keystroke of all, nothing is forgotten; and
/// whatever came before, the place is known from then on.
pub proof fn lemma_staying_forgets_nothing(s: State, ctx: Surroundings)
    ensures
        ({
            let after = s.in_context(ctx);
            &&& same_place(after, ctx)
            &&& same_place(s, ctx) ==> after == s
            &&& s.last_context is None ==> after == (State {
                last_context: Some((ctx.app, ctx.layout)),
                ..s
            })
            &&& after.judge == s.judge && after.stats == s.stats
            &&& after.modifier_was_down == s.modifier_was_down
            &&& after.modifier_down_at == s.modifier_down_at
            &&& after.last_tap_at == s.last_tap_at
        }),
{
    if same_place(s, ctx) {
        assert(s.in_context(ctx) =~= s);
    }
}

/// The engine's own switch is expected once: after the place has changed, whether that
/// was its own doing or not, every further change of it makes the engine forget.
pub proof fn lemma_a_switch_is_expected_once(s: State, ctx: Surroundings, next: Surroundings)
    requires
        s.last_context is Some,
        !same_place(s, ctx),
        (next.app, next.layout) != (ctx.app, ctx.layout),
    ensures
        nothing_left(s.in_context(ctx).in_context(next)),
{
}

/// The shortcut does nothing to a word that is being typed on a layout that is not
/// known.
pub proof fn lemma_no_shortcut_on_unknown_layouts(s: State)
    requires
        s.buffer.current.len() > 0,
        s.last_context matches Some((_, layout)) ==> layout is None || layout::board_for(
            layout->0,
        ) is None,
    ensures
        s.cycled().1 == Deed::Nothing,
        s.cycled().0.last_word is None,
        s.cycled().0.stats == s.stats,
        s.cycled().0.judge == s.judge,
{
}

/// Without a word at hand and nothing being typed, neither the shortcut nor the menu does
/// anything.
pub proof fn lemma_nothing_at_hand(s: State, active: Seq<char>)
    requires
        s.last_word is None,
        s.buffer.current.len() == 0,
    ensures
        s.cycled() == (s, Deed::Nothing),
        s.reverted() == (s, Deed::Nothing),
        s.forced(active) == (s, Deed::Nothing),
{
}

proof fn lemma_keys_of(b: layout::Board, c: char)
    ensures
        layout::injectable(layout::strokes_of(b, c)) <==> has_a_key(b, c),
{
    let more = layout::strokes_of(b, c);
    if b.key(c) is None && b.accent(c) is None {
        assert(more[0] == layout::Stroke::Literal(c));
    }
}

proof fn lemma_injectable(b: layout::Board, s: Seq<char>)
    ensures
        layout::injectable(layout::strokes(b, s)) <==> forall|i: int|
            0 <= i < s.len() ==> has_a_key(b, #[trigger] s[i]),
    decreases s.len(),
{
    let all = layout::strokes(b, s);
    if s.len() > 0 {
        let before = s.drop_last();
        let c = s.last();
        let old_all = layout::strokes(b, before);
        let more = layout::strokes_of(b, c);
        lemma_injectable(b, before);
        assert(all == old_all + more);
        assert(s[s.len() - 1] == c);
        lemma_keys_of(b, c);
        if layout::injectable(all) {
            assert forall|k: int| 0 <= k < old_all.len() implies layout::key_press(
                #[trigger] old_all[k],
            ) is Some by {
                assert(all[k] == old_all[k]);
            }
            assert forall|k: int| 0 <= k < more.len() implies layout::key_press(
                #[trigger] more[k],
            ) is Some by {
                assert(all[old_all.len() + k] == more[k]);
            }
            assert forall|i: int| 0 <= i < s.len() implies has_a_key(b, #[trigger] s[i]) by {
                if i < before.len() {
                    assert(before[i] == s[i]);
                }
            }
        }
        if forall|i: int| 0 <= i < s.len() ==> has_a_key(b, #[trigger] s[i]) {
            assert forall|i: int| 0 <= i < before.len() implies has_a_key(b, #[trigger] before[i]) by {
                assert(before[i] == s[i]);
            }
            assert forall|k: int| 0 <= k < all.len() implies layout::key_press(
                #[trigger] all[k],
            ) is Some by {
                if k < old_all.len() {
                    assert(all[k] == old_all[k]);
                } else {
                    assert(all[k] == more[k - old_all.len()]);
                }
            }
        }
    }
}

/// Whether there are keys for a character: on the layout, with a dead key or without, or the
/// space bar, tab or return.
pub open spec fn has_a_key(b: layout::Board, c: char) -> bool {
    b.types(c) || c == ' ' || c == '\t' || c == '\n'
}

/// Keys can type a text exactly if the layout in use is known and there are keys for every
/// character of it.
pub proof fn lemma_when_keys_can_be_pressed(active: Option<Seq<char>>, s: Seq<char>)
    ensures
        engine::pressed(active, s) is Some <==> (active matches Some(id) && (layout::board_for(
            id,
        ) matches Some(b) && forall|i: int|
            0 <= i < s.len() ==> has_a_key(b, #[trigger] s[i]))),
{
    if let Some(id) = active {
        if let Some(b) = layout::board_for(id) {
            lemma_injectable(b, s);
        }
    }
}

} // verus!
