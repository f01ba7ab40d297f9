//! What holds of re-typing text between layouts.

use crate::layout;
use crate::layout::{Board, Stroke, Typing};
use vstd::prelude::*;

verus! {

/// Whether none of these keystrokes is a dead key of a layout.
pub open spec fn quiet(strokes: Seq<Stroke>, b: Board) -> bool {
    forall|i: int|
        0 <= i < strokes.len() ==> ((#[trigger] strokes[i]) matches Stroke::Slot(j) ==> b.mark(
            j,
        ) is None)
}

/// A layout without dead keys.
pub open spec fn dead_free(b: Board) -> bool {
    b.dead.len() == 0
}

/// On a layout without dead keys no keystroke is one.
pub proof fn lemma_dead_free_is_quiet(strokes: Seq<Stroke>, b: Board)
    requires
        dead_free(b),
    ensures
        quiet(strokes, b),
{
}

proof fn lemma_quiet_concat(x: Seq<Stroke>, y: Seq<Stroke>, b: Board)
    ensures
        quiet(x + y, b) <==> quiet(x, b) && quiet(y, b),
{
    if quiet(x + y, b) {
        assert forall|i: int| 0 <= i < x.len() implies ((
        #[trigger] x[i]) matches Stroke::Slot(j) ==> b.mark(j) is None) by {
            assert((x + y)[i] == x[i]);
        }
        assert forall|i: int| 0 <= i < y.len() implies ((
        #[trigger] y[i]) matches Stroke::Slot(j) ==> b.mark(j) is None) by {
            assert((x + y)[x.len() + i] == y[i]);
        }
    }
    if quiet(x, b) && quiet(y, b) {
        assert forall|i: int| 0 <= i < (x + y).len() implies ((
        #[trigger] (x + y)[i]) matches Stroke::Slot(j) ==> b.mark(j) is None) by {
            if i < x.len() {
                assert((x + y)[i] == x[i]);
            } else {
                assert((x + y)[i] == y[i - x.len()]);
            }
        }
    }
}

proof fn lemma_strokes_concat(b: Board, s: Seq<char>, t: Seq<char>)
    ensures
        layout::strokes(b, s + t) == layout::strokes(b, s) + layout::strokes(b, t),
    decreases t.len(),
{
    if t.len() == 0 {
        assert(s + t =~= s);
    } else {
        assert((s + t).drop_last() =~= s + t.drop_last());
        lemma_strokes_concat(b, s, t.drop_last());
        assert((s + t).last() == t.last());
        assert(layout::strokes(b, s + t) =~= layout::strokes(b, s) + layout::strokes(b, t));
    }
}

proof fn lemma_strokes_one(b: Board, c: char)
    ensures
        layout::strokes(b, seq![c]) == layout::strokes_of(b, c),
{
    assert(seq![c].drop_last() =~= Seq::<char>::empty());
    assert(layout::strokes(b, Seq::<char>::empty()) =~= Seq::<Stroke>::empty());
    assert(layout::strokes(b, seq![c]) =~= layout::strokes_of(b, c));
}

/// Text whose keys on one layout are no dead keys on another presses none there.
pub proof fn lemma_quiet_text(s: Seq<char>, from: Board, to: Board)
    requires
        forall|i: int|
            0 <= i < s.len() ==> (from.key(#[trigger] s[i]) matches Some(j) && to.mark(j) is None),
    ensures
        quiet(layout::strokes(from, s), to),
    decreases s.len(),
{
    if s.len() > 0 {
        let before = s.drop_last();
        assert forall|i: int| 0 <= i < before.len() implies (from.key(
            #[trigger] before[i],
        ) matches Some(j) && to.mark(j) is None) by {
            assert(before[i] == s[i]);
        }
        lemma_quiet_text(before, from, to);
        assert(s.last() == s[s.len() - 1]);
        lemma_quiet_concat(
            layout::strokes(from, before),
            layout::strokes_of(from, s.last()),
            to,
        );
    }
}

proof fn lemma_replay_quiet(b: Board, strokes: Seq<Stroke>)
    requires
        quiet(strokes, b),
    ensures
        layout::replay(b, strokes).pending is None,
    decreases strokes.len(),
{
    if strokes.len() > 0 {
        assert(strokes.drop_last() + seq![strokes.last()] =~= strokes);
        lemma_quiet_concat(strokes.drop_last(), seq![strokes.last()], b);
        lemma_replay_quiet(b, strokes.drop_last());
        assert(strokes[strokes.len() - 1] == strokes.last());
    }
}

proof fn lemma_replay_concat(b: Board, x: Seq<Stroke>, y: Seq<Stroke>)
    requires
        quiet(x, b),
        quiet(y, b),
    ensures
        layout::replay(b, x + y).out == layout::replay(b, x).out + layout::replay(b, y).out,
    decreases y.len(),
{
    if y.len() == 0 {
        assert(x + y =~= x);
        assert(layout::replay(b, x).out + layout::replay(b, y).out =~= layout::replay(b, x).out);
    } else {
        let before = y.drop_last();
        assert(before + seq![y.last()] =~= y);
        lemma_quiet_concat(before, seq![y.last()], b);
        lemma_quiet_concat(x, before, b);
        assert((x + y).drop_last() =~= x + before);
        assert((x + y).last() == y.last());
        assert(y[y.len() - 1] == y.last());
        lemma_replay_concat(b, x, before);
        lemma_replay_quiet(b, x + before);
        lemma_replay_quiet(b, before);
        assert(layout::replay(b, x + y).out =~= layout::replay(b, x).out + layout::replay(b, y).out);
    }
}

/// Where no dead key is pressed, text is re-typed one character at a time.
pub proof fn lemma_retyping_is_per_character(
    s: Seq<char>,
    t: Seq<char>,
    from: Board,
    to: Board,
)
    requires
        quiet(layout::strokes(from, s), to),
        quiet(layout::strokes(from, t), to),
    ensures
        layout::converted(s + t, from, to) == layout::converted(s, from, to) + layout::converted(
            t,
            from,
            to,
        ),
{
    let x = layout::strokes(from, s);
    let y = layout::strokes(from, t);
    lemma_strokes_concat(from, s, t);
    lemma_quiet_concat(x, y, to);
    lemma_replay_concat(to, x, y);
    lemma_replay_quiet(to, x);
    lemma_replay_quiet(to, y);
    lemma_replay_quiet(to, x + y);
}

/// A text that begins with what some key produces begins with a character that
/// has a key. So no text is left unread for want of looking at several of its
/// characters at once.
pub proof fn lemma_one_character_is_enough(b: Board, s: Seq<char>, j: int)
    requires
        0 <= j < b.slots.len(),
        b.slots[j].len() > 0,
        crate::text::stands_at(s, b.slots[j], 0),
    ensures
        b.key(s[0]) is Some,
{
    layout::lemma_slot_for(b.slots, s[0]);
    assert(s.subrange(0, b.slots[j].len() as int)[0] == s[0]);
    assert(b.slots[j][0] == s[0]);
}

/// Text that the layout cannot type stays as it is, whatever the other layout.
pub proof fn lemma_foreign_characters_stay(s: Seq<char>, from: Board, to: Board)
    requires
        forall|i: int| 0 <= i < s.len() ==> !from.types(#[trigger] s[i]),
    ensures
        layout::converted(s, from, to) == s,
{
    lemma_literals(s, from, to);
}

proof fn lemma_last_literal(before: Seq<Stroke>, c: char, b: Board)
    requires
        !b.types(c),
    ensures
        (before + layout::strokes_of(b, c)).drop_last() == before,
        (before + layout::strokes_of(b, c)).last() == Stroke::Literal(c),
{
    assert((before + layout::strokes_of(b, c)).drop_last() =~= before);
}

proof fn lemma_literals(s: Seq<char>, from: Board, to: Board)
    requires
        forall|i: int| 0 <= i < s.len() ==> !from.types(#[trigger] s[i]),
    ensures
        layout::replay(to, layout::strokes(from, s)) == (Typing { out: s, pending: None }),
    decreases s.len(),
{
    if s.len() > 0 {
        lemma_literals(s.drop_last(), from, to);
        assert(!from.types(s[s.len() - 1]));
        let before = layout::strokes(from, s.drop_last());
        let after = layout::strokes(from, s);
        lemma_last_literal(before, s.last(), from);
        assert(after == before + layout::strokes_of(from, s.last()));
        assert(s.drop_last() + seq![s.last()] =~= s);
    } else {
        assert(layout::strokes(from, s) =~= Seq::<Stroke>::empty());
        assert(s =~= Seq::<char>::empty());
    }
}

/// A character that comes back when it is re-typed on another layout and back,
/// without any dead key.
pub open spec fn comes_back(c: char, from: Board, to: Board) -> bool {
    let there = layout::converted(seq![c], from, to);
    &&& quiet(layout::strokes(from, seq![c]), to)
    &&& quiet(layout::strokes(to, there), from)
    &&& layout::converted(there, to, from) == seq![c]
}

/// Text each of whose characters comes back comes back whole.
pub proof fn lemma_round_trip(s: Seq<char>, from: Board, to: Board)
    requires
        forall|i: int| 0 <= i < s.len() ==> comes_back(#[trigger] s[i], from, to),
    ensures
        layout::converted(layout::converted(s, from, to), to, from) == s,
        quiet(layout::strokes(from, s), to),
        quiet(layout::strokes(to, layout::converted(s, from, to)), from),
    decreases s.len(),
{
    if s.len() == 0 {
        assert(s =~= Seq::<char>::empty());
        assert(layout::strokes(from, s) =~= Seq::<Stroke>::empty());
        assert(layout::converted(s, from, to) =~= s);
        assert(layout::strokes(to, s) =~= Seq::<Stroke>::empty());
        assert(layout::converted(s, to, from) =~= s);
    } else {
        let head = s.drop_last();
        let last = seq![s.last()];
        assert(s =~= head + last);
        assert forall|i: int| 0 <= i < head.len() implies comes_back(
            #[trigger] head[i],
            from,
            to,
        ) by {
            assert(head[i] == s[i]);
        }
        lemma_round_trip(head, from, to);
        assert(comes_back(s[s.len() - 1], from, to));
        let x = layout::converted(head, from, to);
        let y = layout::converted(last, from, to);
        lemma_retyping_is_per_character(head, last, from, to);
        lemma_retyping_is_per_character(x, y, to, from);
        lemma_strokes_concat(from, head, last);
        lemma_quiet_concat(layout::strokes(from, head), layout::strokes(from, last), to);
        lemma_strokes_concat(to, x, y);
        lemma_quiet_concat(layout::strokes(to, x), layout::strokes(to, y), from);
    }
}

/// A key that is no dead key on the other layout is re-typed as what it produces there.
pub proof fn lemma_converted_key(c: char, from: Board, to: Board)
    requires
        from.key(c) matches Some(j) && to.mark(j) is None,
    ensures
        layout::converted(seq![c], from, to) == to.slots[from.key(c)->0],
        quiet(layout::strokes(from, seq![c]), to),
{
    let j = from.key(c)->0;
    lemma_strokes_one(from, c);
    let strokes = seq![Stroke::Slot(j)];
    assert(strokes.drop_last() =~= Seq::<Stroke>::empty());
    assert(layout::replay(to, strokes.drop_last()) == (Typing {
        out: Seq::empty(),
        pending: None,
    }));
    assert(layout::replay(to, strokes).out =~= to.slots[j]);
}

proof fn lemma_converted_literal(c: char, from: Board, to: Board)
    requires
        !from.types(c),
    ensures
        layout::converted(seq![c], from, to) == seq![c],
        quiet(layout::strokes(from, seq![c]), to),
{
    lemma_foreign_characters_stay(seq![c], from, to);
    lemma_strokes_one(from, c);
    lemma_last_literal(Seq::empty(), c, from);
    let strokes = layout::strokes_of(from, c);
    assert(Seq::<Stroke>::empty() + strokes =~= strokes);
    assert(strokes.len() == 1);
    assert(strokes[0] == strokes.last());
}

/// A letter comes back if its key has, on the other layout, a letter that is
/// typed by that key, and is a dead key on neither.
pub proof fn lemma_letter_comes_back(c: char, from: Board, to: Board)
    requires
        from.key(c) matches Some(j) && from.slots[j] == seq![c] && to.slots[j].len() == 1 && to.key(
            to.slots[j][0],
        ) == Some(j) && from.mark(j) is None && to.mark(j) is None,
    ensures
        comes_back(c, from, to),
{
    let j = from.key(c)->0;
    lemma_converted_key(c, from, to);
    let d = to.slots[j][0];
    assert(to.slots[j] =~= seq![d]);
    lemma_converted_key(d, to, from);
}

/// A layout without dead keys on which every key produces one character, each
/// another one.
pub open spec fn plain(b: Board) -> bool {
    &&& dead_free(b)
    &&& forall|j: int| 0 <= j < b.slots.len() ==> (#[trigger] b.slots[j]).len() == 1
    &&& forall|j: int, k: int|
        0 <= j < b.slots.len() && 0 <= k < b.slots.len() && j != k ==> (#[trigger] b.slots[j])[0]
            != (#[trigger] b.slots[k])[0]
}

/// Every character that a key produces, dead keys aside, has a key of its own
/// that is no dead key.
pub open spec fn spells(b: Board) -> bool {
    forall|j: int, k: int|
        0 <= j < b.slots.len() && b.mark(j) is None && 0 <= k < b.slots[j].len() ==> (
        layout::letter_slot(b.slots, #[trigger] b.slots[j][k], 0) matches Some(l) && b.mark(
            l,
        ) is None)
}

/// Every character that a key produces has a key of its own.
pub open spec fn lettered(b: Board) -> bool {
    forall|j: int, k: int|
        0 <= j < b.slots.len() && 0 <= k < b.slots[j].len() ==> layout::letter_slot(
            b.slots,
            #[trigger] b.slots[j][k],
            0,
        ) is Some
}

/// A character that re-typing from `latin` on `foreign` can leave behind.
spec fn left_behind(c: char, latin: Board, foreign: Board) -> bool {
    ||| dead_free(foreign) && !latin.types(c)
    ||| exists|j: int, k: int|
        0 <= j < foreign.slots.len() && foreign.mark(j) is None && 0 <= k < foreign.slots[j].len()
            && #[trigger] foreign.slots[j][k] == c
}

proof fn lemma_no_accents(b: Board, c: char)
    requires
        dead_free(b),
    ensures
        b.accent(c) is None,
{
}

/// Text that can be re-typed from one layout on another and back: no dead key of
/// the other layout is pressed, and where it has dead keys, the first layout can
/// type all of the text.
pub open spec fn convertible(s: Seq<char>, latin: Board, foreign: Board) -> bool {
    &&& quiet(layout::strokes(latin, s), foreign)
    &&& dead_free(foreign) || forall|i: int| 0 <= i < s.len() ==> latin.types(#[trigger] s[i])
}

proof fn lemma_left_behind(s: Seq<char>, latin: Board, foreign: Board, i: int)
    requires
        plain(latin),
        foreign.slots.len() == latin.slots.len(),
        convertible(s, latin, foreign),
        0 <= i < layout::converted(s, latin, foreign).len(),
    ensures
        left_behind(layout::converted(s, latin, foreign)[i], latin, foreign),
    decreases s.len(),
{
    if s.len() == 0 {
        assert(layout::strokes(latin, s) =~= Seq::<Stroke>::empty());
    } else {
        let head = s.drop_last();
        let c = s.last();
        assert(s =~= head + seq![c]);
        lemma_strokes_concat(latin, head, seq![c]);
        lemma_quiet_concat(
            layout::strokes(latin, head),
            layout::strokes(latin, seq![c]),
            foreign,
        );
        lemma_retyping_is_per_character(head, seq![c], latin, foreign);
        let before = layout::converted(head, latin, foreign);
        if i < before.len() {
            assert forall|k: int| 0 <= k < head.len() && !dead_free(foreign) implies latin.types(
                #[trigger] head[k],
            ) by {
                assert(latin.types(s[k]));
            }
            lemma_left_behind(head, latin, foreign, i);
        } else {
            lemma_no_accents(latin, c);
            match latin.key(c) {
                Some(j) => {
                    lemma_strokes_one(latin, c);
                    assert(layout::strokes(latin, seq![c])[0] == Stroke::Slot(j));
                    lemma_converted_key(c, latin, foreign);
                    layout::lemma_slot_for(latin.slots, c);
                    assert(foreign.slots[j][i - before.len()] == layout::converted(
                        s,
                        latin,
                        foreign,
                    )[i]);
                },
                None => {
                    assert(s[s.len() - 1] == c);
                    assert(dead_free(foreign));
                    lemma_converted_literal(c, latin, foreign);
                },
            }
        }
    }
}

proof fn lemma_letter_slot_alone(slots: Seq<Seq<char>>, c: char)
    ensures
        layout::letter_slot(slots, c, 0) matches Some(j) ==> slots[j] =~= seq![c],
{
    layout::lemma_letter_slot(slots, c, 0);
}

proof fn lemma_left_behind_comes_back(c: char, latin: Board, foreign: Board)
    requires
        plain(latin),
        spells(foreign),
        foreign.slots.len() == latin.slots.len(),
        left_behind(c, latin, foreign),
    ensures
        comes_back(c, foreign, latin),
{
    layout::lemma_slot_for(foreign.slots, c);
    layout::lemma_letter_slot(foreign.slots, c, 0);
    let produced = exists|j: int, k: int|
        0 <= j < foreign.slots.len() && foreign.mark(j) is None && 0 <= k < foreign.slots[j].len()
            && #[trigger] foreign.slots[j][k] == c;
    if produced {
        let (j, k) = choose|j: int, k: int|
            0 <= j < foreign.slots.len() && foreign.mark(j) is None && 0 <= k
                < foreign.slots[j].len() && #[trigger] foreign.slots[j][k] == c;
        assert(layout::letter_slot(foreign.slots, foreign.slots[j][k], 0) is Some);
    }
    match layout::letter_slot(foreign.slots, c, 0) {
        Some(j) => {
            assert(foreign.key(c) == Some(j));
            assert(foreign.mark(j) is None) by {
                if produced {
                    let (p, k) = choose|p: int, k: int|
                        0 <= p < foreign.slots.len() && foreign.mark(p) is None && 0 <= k
                            < foreign.slots[p].len() && #[trigger] foreign.slots[p][k] == c;
                    assert(layout::letter_slot(foreign.slots, foreign.slots[p][k], 0) == Some(j));
                }
            }
            let d = latin.slots[j][0];
            layout::lemma_slot_for(latin.slots, d);
            assert(latin.key(d) == Some(j));
            lemma_letter_slot_alone(foreign.slots, c);
            assert(foreign.slots[j] =~= seq![c]);
            lemma_letter_comes_back(c, foreign, latin);
        },
        None => {
            assert(!produced);
            assert(dead_free(foreign) && !latin.types(c));
            lemma_no_accents(foreign, c);
            assert(foreign.key(c) is None) by {
                layout::lemma_ligature_slot(foreign.slots, c, 0);
                match layout::ligature_slot(foreign.slots, c, 0) {
                    Some(j) => {
                        assert(foreign.mark(j) is None);
                        assert(foreign.slots[j][0] == c);
                    },
                    None => {},
                }
            }
            lemma_converted_literal(c, foreign, latin);
            lemma_converted_literal(c, latin, foreign);
        },
    }
}

/// Re-typed text is a fixed point: going back to the layout it came from and
/// forth again leaves it as it is, even where two keys produce the same letters.
pub proof fn lemma_foreign_text_is_a_fixed_point(s: Seq<char>, latin: Board, foreign: Board)
    requires
        plain(latin),
        spells(foreign),
        foreign.slots.len() == latin.slots.len(),
        convertible(s, latin, foreign),
    ensures
        ({
            let once = layout::converted(s, latin, foreign);
            layout::converted(layout::converted(once, foreign, latin), latin, foreign) == once
        }),
{
    let once = layout::converted(s, latin, foreign);
    assert forall|i: int| 0 <= i < once.len() implies comes_back(
        #[trigger] once[i],
        foreign,
        latin,
    ) by {
        lemma_left_behind(s, latin, foreign, i);
        lemma_left_behind_comes_back(once[i], latin, foreign);
    }
    lemma_round_trip(once, foreign, latin);
}

/// Text comes back exactly from a layout on which each of its keys has a letter
/// that no other key has.
pub proof fn lemma_unambiguous_text_comes_back(s: Seq<char>, latin: Board, foreign: Board)
    requires
        plain(latin),
        forall|i: int|
            0 <= i < s.len() ==> (latin.key(#[trigger] s[i]) matches Some(j)
                && foreign.slots[j].len() == 1 && foreign.key(foreign.slots[j][0]) == Some(j)
                && foreign.mark(j) is None),
    ensures
        layout::converted(layout::converted(s, latin, foreign), foreign, latin) == s,
{
    assert forall|i: int| 0 <= i < s.len() implies comes_back(
        #[trigger] s[i],
        latin,
        foreign,
    ) by {
        let j = latin.key(s[i])->0;
        layout::lemma_slot_for(latin.slots, s[i]);
        assert(latin.slots[j].len() == 1);
        lemma_plain_key(latin, s[i]);
        lemma_letter_comes_back(s[i], latin, foreign);
    }
    lemma_round_trip(s, latin, foreign);
}

proof fn lemma_plain_key(b: Board, c: char)
    requires
        plain(b),
        b.key(c) is Some,
    ensures
        b.slots[b.key(c)->0] == seq![c],
{
    layout::lemma_slot_for(b.slots, c);
    let j = b.key(c)->0;
    assert(b.slots[j].len() == 1);
    assert(b.slots[j] =~= seq![c]);
}

} // verus!
