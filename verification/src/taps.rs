//! When a tap on the shortcut's modifier acts.

use crate::assurances;
use crate::config::Modifier;
use crate::engine;
use crate::engine::{Deed, State};
use crate::input::{Key, KeyEvent, Surroundings};
use vstd::prelude::*;

verus! {

/// A keystroke, when it comes, and the second opinion that is had if it ends an
/// ambiguous word.
pub struct Keystroke {
    pub event: KeyEvent,
    pub now: u64,
    pub answer: Option<bool>,
}

/// Whether keystrokes count at all: the engine is on, and neither a password field
/// nor an application that is to be left alone has the keyboard.
pub open spec fn attentive(s: State, ctx: Surroundings) -> bool {
    s.judge.choices.enabled && !ctx.secure_input && !(ctx.app matches Some(app)
        && s.judge.choices.excludes(app))
}

/// The state after these keystrokes.
pub open spec fn after(s: State, ctx: Surroundings, keys: Seq<Keystroke>) -> State
    decreases keys.len(),
{
    if keys.len() == 0 {
        s
    } else {
        let k = keys.last();
        after(s, ctx, keys.drop_last()).step(k.event, ctx, k.now, k.answer).0
    }
}

/// A modifier goes down or up.
pub open spec fn changes(k: Keystroke) -> bool {
    !k.event.synthetic && k.event.key == Key::ModifiersChanged
}

/// Modifiers change, and this one is held alone.
pub open spec fn alone(k: Keystroke, m: Modifier) -> bool {
    changes(k) && m.held(k.event.modifiers) && !m.chord(k.event.modifiers)
}

/// Whether a modifier that was up at first is held after these keystrokes.
pub open spec fn held_after(keys: Seq<Keystroke>, m: Modifier) -> bool
    decreases keys.len(),
{
    if keys.len() == 0 {
        false
    } else if changes(keys.last()) {
        m.held(keys.last().event.modifiers)
    } else {
        held_after(keys.drop_last(), m)
    }
}

/// The modifier was pressed alone at this keystroke.
pub open spec fn pressed_alone(keys: Seq<Keystroke>, m: Modifier, i: int) -> bool {
    0 <= i < keys.len() && alone(keys[i], m) && !held_after(keys.take(i), m)
}

/// Since this keystroke no key came and no other modifier was held.
pub open spec fn undisturbed(keys: Seq<Keystroke>, m: Modifier, i: int) -> bool {
    forall|k: int|
        i < k < keys.len() ==> (#[trigger] keys[k]).event.synthetic || alone(keys[k], m)
}

/// A modifier is released that was pressed alone, with nothing in between and not
/// too long ago.
pub open spec fn ends_a_tap(keys: Seq<Keystroke>, m: Modifier, release: Keystroke) -> bool {
    &&& changes(release)
    &&& !m.held(release.event.modifiers)
    &&& !m.chord(release.event.modifiers)
    &&& exists|i: int| #[trigger]
        pressed_alone(keys, m, i) && undisturbed(keys, m, i) && release.now - keys[i].now
            <= engine::MODIFIER_TAP_WINDOW
}

/// Nothing is known of what is behind the caret.
spec fn blank(s: State) -> bool {
    s.last_word is None && s.buffer.current.len() == 0
}

/// What the keystrokes leave of the shortcut's modifier.
spec fn armed(
    s: State,
    keys: Seq<Keystroke>,
    m: Modifier,
    ctx: Surroundings,
) -> bool {
    &&& s.modifier_was_down == held_after(keys, m)
    &&& forall|i: int| #[trigger]
        pressed_alone(keys, m, i) && undisturbed(keys, m, i) ==> s.modifier_down_at == Some(
            keys[i].now,
        )
    &&& s.modifier_down_at matches Some(at) ==> exists|i: int| #[trigger]
        pressed_alone(keys, m, i) && keys[i].now == at && (undisturbed(keys, m, i) || blank(s))
    &&& forall|i: int|
        0 <= i < keys.len() && !(#[trigger] keys[i]).event.synthetic ==> s.last_context == Some(
            (ctx.app, ctx.layout),
        )
}

proof fn lemma_still_held(keys: Seq<Keystroke>, m: Modifier, i: int)
    requires
        0 <= i < keys.len(),
        alone(keys[i], m),
        undisturbed(keys, m, i),
    ensures
        held_after(keys, m),
    decreases keys.len(),
{
    if i < keys.len() - 1 {
        let before = keys.drop_last();
        assert forall|k: int| i < k < before.len() implies (#[trigger] before[k]).event.synthetic
            || alone(before[k], m) by {
            assert(before[k] == keys[k]);
        }
        lemma_still_held(before, m, i);
        assert(keys.last() == keys[keys.len() - 1]);
    }
}

/// What holds of one keystroke fewer holds of these up to the last one.
proof fn lemma_earlier(keys: Seq<Keystroke>, m: Modifier, i: int)
    requires
        0 <= i < keys.len() - 1,
    ensures
        pressed_alone(keys, m, i) == pressed_alone(keys.drop_last(), m, i),
        undisturbed(keys, m, i) == (undisturbed(keys.drop_last(), m, i) && (
        keys.last().event.synthetic || alone(keys.last(), m))),
        keys[i] == keys.drop_last()[i],
{
    let before = keys.drop_last();
    assert(before.take(i) =~= keys.take(i));
    if undisturbed(keys, m, i) {
        assert(keys.last() == keys[keys.len() - 1]);
        assert forall|k: int| i < k < before.len() implies (#[trigger] before[k]).event.synthetic
            || alone(before[k], m) by {
            assert(before[k] == keys[k]);
        }
    }
    if undisturbed(before, m, i) && (keys.last().event.synthetic || alone(keys.last(), m)) {
        assert forall|k: int| i < k < keys.len() implies (#[trigger] keys[k]).event.synthetic
            || alone(keys[k], m) by {
            if k < before.len() {
                assert(before[k] == keys[k]);
            }
        }
    }
}

proof fn lemma_armed_step(
    u: State,
    t: State,
    ctx: Surroundings,
    keys: Seq<Keystroke>,
    m: Modifier,
)
    requires
        keys.len() > 0,
        attentive(u, ctx),
        u.judge.choices.shortcut.trigger() == Some(m),
        armed(u, keys.drop_last(), m, ctx),
        t == u.step(keys.last().event, ctx, keys.last().now, keys.last().answer).0,
    ensures
        armed(t, keys, m, ctx),
{
    let before = keys.drop_last();
    let k = keys.last();
    let n = keys.len() - 1;
    let here = u.in_context(ctx);
    assert(keys[n] == k);
    assert(keys.take(n) =~= before);
    assert(pressed_alone(keys, m, n) == (alone(k, m) && !u.modifier_was_down));
    assert(undisturbed(keys, m, n));
    if !k.event.synthetic {
        assert(here.modifier_down_at == u.modifier_down_at);
        assert(here.modifier_was_down == u.modifier_was_down);
        assert(blank(u) ==> blank(here));
        assert(here.judge == u.judge);
        assert(t.last_context == Some((ctx.app, ctx.layout)));
    } else {
        assert(t == u);
    }
    assert(t.modifier_was_down == held_after(keys, m));
    assert forall|i: int| #[trigger]
        pressed_alone(keys, m, i) && undisturbed(keys, m, i) implies t.modifier_down_at == Some(
        keys[i].now,
    ) by {
        if i < n {
            lemma_earlier(keys, m, i);
            lemma_still_held(before, m, i);
        }
    }
    if let Some(at) = t.modifier_down_at {
        if pressed_alone(keys, m, n) && !k.event.synthetic {
            assert(keys[n].now == at);
        } else {
            assert(u.modifier_down_at == Some(at));
            let i = choose|i: int| #[trigger]
                pressed_alone(before, m, i) && before[i].now == at && (undisturbed(before, m, i)
                    || blank(u));
            lemma_earlier(keys, m, i);
            if undisturbed(before, m, i) {
                lemma_still_held(before, m, i);
            }
            assert(undisturbed(keys, m, i) || blank(t));
            assert(pressed_alone(keys, m, i));
        }
    }
    assert forall|i: int| 0 <= i < keys.len() && !(#[trigger] keys[i]).event.synthetic implies
        t.last_context == Some((ctx.app, ctx.layout)) by {
        if i < n {
            assert(before[i] == keys[i]);
        }
    }
}

proof fn lemma_armed(s: State, ctx: Surroundings, keys: Seq<Keystroke>, m: Modifier)
    requires
        attentive(s, ctx),
        s.judge.choices.shortcut.trigger() == Some(m),
        !s.modifier_was_down,
        s.modifier_down_at is None,
    ensures
        attentive(after(s, ctx, keys), ctx),
        after(s, ctx, keys).judge.choices.shortcut == s.judge.choices.shortcut,
        armed(after(s, ctx, keys), keys, m, ctx),
    decreases keys.len(),
{
    if keys.len() > 0 {
        let k = keys.last();
        let u = after(s, ctx, keys.drop_last());
        let t = after(s, ctx, keys);
        lemma_armed(s, ctx, keys.drop_last(), m);
        lemma_armed_step(u, t, ctx, keys, m);
        assurances::lemma_exceptions_are_never_forgotten(
            u,
            Seq::empty(),
            k.event,
            ctx,
            k.now,
            k.answer,
            Seq::empty(),
        );
        if let Some(app) = ctx.app {
            assert(t.judge.choices.excludes(app) == u.judge.choices.excludes(app));
        }
    }
}

/// Whatever was typed before, a change of the modifiers acts exactly if it ends a
/// tap: the shortcut's modifier was pressed alone, nothing came in between, and it
/// is released in time. Then it does what going on to the next reading does, if
/// one tap is the shortcut. Every other change of the modifiers does nothing.
pub proof fn lemma_only_taps_act(
    s: State,
    ctx: Surroundings,
    keys: Seq<Keystroke>,
    change: Keystroke,
    m: Modifier,
)
    requires
        attentive(s, ctx),
        s.judge.choices.shortcut.trigger() == Some(m),
        !s.modifier_was_down,
        s.modifier_down_at is None,
        changes(change),
    ensures
        ({
            let t = after(s, ctx, keys);
            let deed = t.step(change.event, ctx, change.now, change.answer).1;
            &&& ends_a_tap(keys, m, change) && s.judge.choices.shortcut is Tap ==> deed
                == t.cycled().1
            &&& ends_a_tap(keys, m, change) && s.judge.choices.shortcut is DoubleTap ==> deed
                == t.tapped(s.judge.choices.shortcut, change.now).1
            &&& !ends_a_tap(keys, m, change) ==> deed == Deed::Nothing
        }),
{
    let t = after(s, ctx, keys);
    lemma_armed(s, ctx, keys, m);
    let here = t.in_context(ctx);
    assert(here.judge == t.judge);
    let released = State { modifier_down_at: None, modifier_was_down: false, ..here };
    if ends_a_tap(keys, m, change) {
        let i = choose|i: int| #[trigger]
            pressed_alone(keys, m, i) && undisturbed(keys, m, i) && change.now - keys[i].now
                <= engine::MODIFIER_TAP_WINDOW;
        lemma_still_held(keys, m, i);
        assert(!keys[i].event.synthetic);
        assert(here =~= t);
        lemma_tap_ignores_the_modifier(t);
        lemma_tap_ignores_the_modifier(State { last_tap_at: None, ..t });
        assert(State { last_tap_at: None, ..released } =~= State {
            modifier_down_at: None,
            modifier_was_down: false,
            ..State { last_tap_at: None, ..t }
        });
    } else if let Some(at) = t.modifier_down_at {
        let i = choose|i: int| #[trigger]
            pressed_alone(keys, m, i) && keys[i].now == at && (undisturbed(keys, m, i) || blank(t));
        if blank(t) {
            assert(blank(here));
        }
    }
}

/// What going on to the next reading does depends on no modifier.
proof fn lemma_tap_ignores_the_modifier(s: State)
    ensures
        (State { modifier_down_at: None, modifier_was_down: false, ..s }).cycled().1
            == s.cycled().1,
{
    let t = State { modifier_down_at: None, modifier_was_down: false, ..s };
    let (a, b) = (s.with_word_in_progress(), t.with_word_in_progress());
    assert(a.last_word == b.last_word);
}

} // verus!
