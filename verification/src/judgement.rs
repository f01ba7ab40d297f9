//! When a word is corrected, and when it is left alone.
//!
//! A detector is held here against what its decisions are for, in the numbers in
//! which they are meant.

use crate::config;
use crate::config::Sensitivity;
use crate::detect;
use crate::detect::{Judge, Opinion, Reading, Skip};
use crate::layout;
use crate::layout::Board;
use crate::single;
use crate::single::Single;
use crate::text;
use vstd::prelude::*;

verus! {

/// A digit, white space or a control code.
pub open spec fn no_part_of_a_word(c: char) -> bool {
    text::numeric(c) || text::whitespace(c) || c as int <= 0x1f || 0x7f <= c as int <= 0x9f
}

/// A character of addresses, markup, code or paths other than the slash.
pub open spec fn structure(c: char) -> bool {
    c == '{' || c == '}' || c == '<' || c == '>' || c == '@' || c == '=' || c == ':' || c == '"' || c
        == '|' || c == '\\'
}

/// Whether some layout of the user's other than the one in use makes a letter of
/// the key behind a character, or a dead key.
pub open spec fn letter_elsewhere(judge: Judge, c: char, active: Seq<char>) -> bool {
    layout::board_for(active) matches Some(from) && from.key(c) is Some && exists|i: int|
        0 <= i < judge.choices.layouts.len() && #[trigger] judge.choices.layouts[i] != active && (
        layout::board_for(judge.choices.layouts[i]) matches Some(to) && makes_a_letter(
            to,
            from.key(c)->0,
        ))
}

/// Whether a key is a dead key of a layout, or types letters and nothing else.
pub open spec fn makes_a_letter(to: Board, slot: int) -> bool {
    to.mark(slot) is Some || (to.slots[slot].len() > 0 && forall|k: int|
        0 <= k < to.slots[slot].len() ==> text::alphabetic(#[trigger] to.slots[slot][k]))
}

/// Whether a text is in capitals throughout: it holds one, and no small letter.
pub open spec fn shouts(word: Seq<char>) -> bool {
    (exists|i: int| 0 <= i < word.len() && text::uppercase_letter(#[trigger] word[i])) && (forall|
        i: int,
    |
        0 <= i < word.len() ==> !text::lowercase_letter(#[trigger] word[i]))
}

/// Whether a text may be a word of prose typed on the wrong layout: it is long
/// enough, no acronym and no exception, and holds nothing but letters and what
/// other layouts make letters of.
pub open spec fn prose(judge: Judge, word: Seq<char>, active: Seq<char>) -> bool {
    &&& word.len() >= judge.choices.min_word_len
    &&& forall|i: int|
        0 <= i < word.len() ==> !no_part_of_a_word(#[trigger] word[i]) && !structure(word[i]) && (
        text::alphabetic(word[i]) || letter_elsewhere(judge, word[i], active))
    &&& forall|i: int, j: int|
        0 <= i < j < word.len() ==> !(#[trigger] word[i] == '/' && #[trigger] word[j] == '/')
    &&& judge.choices.skip_all_caps && word.len() >= 2 ==> !shouts(word)
    &&& forall|i: int|
        0 <= i < judge.choices.exceptions.len() ==> text::lowercase(
            #[trigger] judge.choices.exceptions[i],
        ) != text::lowercase(word)
}

/// Whether the text typed on the layout in use can be judged at all: the detector
/// is on, knows the layout, and has a model for its language.
pub open spec fn can_judge(judge: Judge, active: Seq<char>) -> bool {
    judge.choices.enabled && (layout::def_for(active) matches Some(from)
        && judge.models.contains_key(from.lang))
}

/// Whether a text on one of the user's other layouts comes into question in place
/// of a word: it is another text, consists of letters, is on a layout that can
/// type it, and there is a model for the language.
pub open spec fn comes_into_question(
    judge: Judge,
    word: Seq<char>,
    active: Seq<char>,
    id: Seq<char>,
) -> bool {
    &&& judge.choices.layouts.contains(id)
    &&& id != active
    &&& layout::def_for(id) matches Some(to) && judge.models.contains_key(to.lang) && (
    layout::converted_by_id(word, active, id) matches Some(converted) && converted != word && (
    forall|k: int| 0 <= k < converted.len() ==> text::alphabetic(#[trigger] converted[k]))
        && !layout::coverage_of(layout::board_of(to), converted).is_less(
        Single { bits: 0x3f7d_70a4 },
    ))
}

/// By how much, in log10 units, the text on another layout is more plausible there
/// than the word as it was typed.
pub open spec fn advantage(
    judge: Judge,
    word: Seq<char>,
    active: Seq<char>,
    id: Seq<char>,
) -> Single {
    let from = layout::def_for(active)->0;
    let to = layout::def_for(id)->0;
    judge.models[to.lang].plausibility(layout::converted_by_id(word, active, id)->0).difference(
        judge.models[from.lang].plausibility(word),
    )
}

/// What is demanded in any case: 3.5, 2 or 1.
pub open spec fn demanded_always(s: Sensitivity) -> Single {
    match s {
        Sensitivity::Cautious => Single { bits: 0x4060_0000 },
        Sensitivity::Balanced => Single { bits: 0x4000_0000 },
        Sensitivity::Eager => Single { bits: 0x3f80_0000 },
    }
}

/// What is demanded on top where the word as typed is known: 6, 4.5 or 3 for a
/// word whose log10 probability is -5.5 or more, and 0.4 of that for a rarer one.
pub open spec fn demanded_of_known(s: Sensitivity, logp: Option<Single>) -> Single {
    let full = match s {
        Sensitivity::Cautious => Single { bits: 0x40c0_0000 },
        Sensitivity::Balanced => Single { bits: 0x4090_0000 },
        Sensitivity::Eager => Single { bits: 0x4040_0000 },
    };
    match logp {
        Some(logp) => if logp.is_at_least(Single { bits: 0xc0b0_0000 }) {
            full
        } else {
            full.product(Single { bits: 0x3ecc_cccd })
        },
        None => Single { bits: 0 },
    }
}

/// What is demanded on top where the other text is no known word: 3, 2.5 or 1.5.
pub open spec fn demanded_of_unknown(s: Sensitivity) -> Single {
    match s {
        Sensitivity::Cautious => Single { bits: 0x4040_0000 },
        Sensitivity::Balanced => Single { bits: 0x4020_0000 },
        Sensitivity::Eager => Single { bits: 0x3fc0_0000 },
    }
}

/// How large the advantage must be. Between two layouts for Latin letters it must
/// be larger by 1.5.
pub open spec fn demanded(
    judge: Judge,
    word: Seq<char>,
    active: Seq<char>,
    id: Seq<char>,
) -> Single {
    let from = layout::def_for(active)->0;
    let to = layout::def_for(id)->0;
    let s = judge.choices.sensitivity;
    let known = demanded_always(s).sum(
        demanded_of_known(s, judge.models[from.lang].word(text::lowercase(word))),
    );
    let target = if known_there(judge, word, active, id) {
        known
    } else {
        known.sum(demanded_of_unknown(s))
    };
    if from.latin_overlap && to.latin_overlap {
        target.sum(Single { bits: 0x3fc0_0000 })
    } else {
        target
    }
}

/// Whether the text on the other layout is a known word there.
pub open spec fn known_there(
    judge: Judge,
    word: Seq<char>,
    active: Seq<char>,
    id: Seq<char>,
) -> bool {
    judge.models[(layout::def_for(id)->0).lang].word(
        text::lowercase(layout::converted_by_id(word, active, id)->0),
    ) is Some
}

/// Whether the `i`-th of the user's layouts is the one to turn to: its text comes
/// into question, none has a larger advantage, and none before it has as large a
/// one.
pub open spec fn stands_out(judge: Judge, word: Seq<char>, active: Seq<char>, i: int) -> bool {
    let layouts = judge.choices.layouts;
    &&& 0 <= i < layouts.len()
    &&& comes_into_question(judge, word, active, layouts[i])
    &&& !advantage(judge, word, active, layouts[i]).nan()
    &&& forall|j: int|
        0 <= j < layouts.len() && #[trigger] comes_into_question(judge, word, active, layouts[j])
            ==> if j < i {
            advantage(judge, word, active, layouts[j]).is_less(
                advantage(judge, word, active, layouts[i]),
            )
        } else {
            advantage(judge, word, active, layouts[i]).is_at_least(
                advantage(judge, word, active, layouts[j]),
            )
        }
}

/// The text on one of the other layouts, with what speaks for it.
pub open spec fn reading_on(judge: Judge, word: Seq<char>, active: Seq<char>, id: Seq<char>) -> Reading {
    let from = layout::def_for(active)->0;
    let to = layout::def_for(id)->0;
    let converted = layout::converted_by_id(word, active, id)->0;
    Reading {
        to_layout: id,
        converted,
        score_as_typed: judge.models[from.lang].plausibility(word),
        score_converted: judge.models[to.lang].plausibility(converted),
        delta: advantage(judge, word, active, id),
        target_knows_word: known_there(judge, word, active, id),
        source_knows_word: judge.models[from.lang].word(text::lowercase(word)) is Some,
    }
}

proof fn lemma_prose(judge: Judge, word: Seq<char>, active: Seq<char>)
    requires
        layout::def_for(active) is Some,
    ensures
        prose(judge, word, active) <==> judge.prefilter(word, layout::def_for(active)->0) is None,
{
    let from = layout::def_for(active)->0;
    detect::lemma_def_for(active);
    let b = layout::board_of(from);
    let alternatives = judge.choices.alternatives(active);
    lemma_slashes(word);
    assert forall|c: char| #[trigger] letter_elsewhere(judge, c, active)
        <==> detect::letter_capable(c, b, alternatives) by {
        lemma_letter_elsewhere(judge, c, active);
    }
    assert(forall|i: int|
        0 <= i < word.len() ==> (no_part_of_a_word(#[trigger] word[i]) <==> detect::wordless(
            word[i],
        )));
    assert(forall|i: int|
        0 <= i < word.len() ==> (structure(#[trigger] word[i]) <==> detect::structural(word[i])));
    assert(shouts(word) <==> detect::capitals(word));
    assert(judge.choices.excepts(word) <==> exists|i: int|
        0 <= i < judge.choices.exceptions.len() && text::lowercase(
            #[trigger] judge.choices.exceptions[i],
        ) == text::lowercase(word));
    if judge.prefilter(word, from) is None {
        assert forall|i: int| 0 <= i < word.len() implies text::alphabetic(#[trigger] word[i])
            || letter_elsewhere(judge, word[i], active) by {
            assert(!detect::affix(word[i], b, alternatives));
            lemma_letter_elsewhere(judge, word[i], active);
        }
    }
    if prose(judge, word, active) {
        assert forall|i: int| 0 <= i < word.len() implies !detect::affix(
            #[trigger] word[i],
            b,
            alternatives,
        ) by {
            lemma_letter_elsewhere(judge, word[i], active);
        }
    }
}

proof fn lemma_letter_elsewhere(judge: Judge, c: char, active: Seq<char>)
    requires
        layout::def_for(active) is Some,
    ensures
        letter_elsewhere(judge, c, active) <==> detect::letter_capable(
            c,
            layout::board_of(layout::def_for(active)->0),
            judge.choices.alternatives(active),
        ),
{
    let b = layout::board_of(layout::def_for(active)->0);
    let alternatives = judge.choices.alternatives(active);
    if letter_elsewhere(judge, c, active) {
        let slot = b.key(c)->0;
        let i = choose|i: int|
            0 <= i < judge.choices.layouts.len() && #[trigger] judge.choices.layouts[i] != active
                && (layout::board_for(judge.choices.layouts[i]) matches Some(to) && makes_a_letter(
                to,
                slot,
            ));
        lemma_among_others(judge.choices.layouts, active, i);
        let k = alternatives.index_of(judge.choices.layouts[i]);
        assert(detect::lettered(layout::board_for(alternatives[k])->0, slot));
    }
    if detect::letter_capable(c, b, alternatives) {
        let slot = b.key(c)->0;
        let k = choose|k: int|
            0 <= k < alternatives.len() && (layout::board_for(
                #[trigger] alternatives[k],
            ) matches Some(to) && detect::lettered(to, slot));
        detect::lemma_others(judge.choices.layouts, active, k);
        let i = judge.choices.layouts.index_of(alternatives[k]);
        assert(judge.choices.layouts[i] != active);
        assert(makes_a_letter(layout::board_for(alternatives[k])->0, slot));
    }
}

proof fn lemma_among_others(texts: Seq<Seq<char>>, but: Seq<char>, i: int)
    requires
        0 <= i < texts.len(),
        texts[i] != but,
    ensures
        config::others(texts, but).contains(texts[i]),
    decreases texts.len(),
{
    let before = texts.drop_last();
    let n = config::others(texts, but).len() - 1;
    if i < before.len() {
        lemma_among_others(before, but, i);
        let k = config::others(before, but).index_of(before[i]);
        assert(config::others(texts, but)[k] == texts[i]);
    } else {
        assert(config::others(texts, but)[n] == texts[i]);
    }
}

proof fn lemma_slashes(word: Seq<char>)
    ensures
        detect::occurrences(word, '/') <= 1 <==> forall|i: int, j: int|
            0 <= i < j < word.len() ==> !(#[trigger] word[i] == '/' && #[trigger] word[j] == '/'),
        detect::occurrences(word, '/') == 0 <==> forall|i: int|
            0 <= i < word.len() ==> #[trigger] word[i] != '/',
    decreases word.len(),
{
    if word.len() > 0 {
        let before = word.drop_last();
        lemma_slashes(before);
        let n = word.len() - 1;
        assert(word[n] == word.last());
        assert forall|i: int| 0 <= i < n implies before[i] == word[i] by {}
        if detect::occurrences(word, '/') <= 1 {
            assert forall|i: int, j: int| 0 <= i < j < word.len() implies !(#[trigger] word[i] == '/'
                && #[trigger] word[j] == '/') by {
                assert(before[i] == word[i]);
                if j < n {
                    assert(before[j] == word[j]);
                }
            }
        } else if word.last() == '/' {
            let i = choose|i: int| 0 <= i < before.len() && #[trigger] before[i] == '/';
            assert(word[i] == '/' && word[n] == '/');
        } else {
            let (i, j) = choose|i: int, j: int|
                0 <= i < j < before.len() && #[trigger] before[i] == '/' && #[trigger] before[j]
                    == '/';
            assert(word[i] == '/' && word[j] == '/');
        }
        if detect::occurrences(word, '/') == 0 {
            assert forall|i: int| 0 <= i < word.len() implies #[trigger] word[i] != '/' by {
                if i < n {
                    assert(before[i] == word[i]);
                }
            }
        } else {
            if word.last() != '/' {
                let i = choose|i: int| 0 <= i < before.len() && #[trigger] before[i] == '/';
                assert(word[i] == '/');
            }
        }
    }
}

proof fn lemma_reading(judge: Judge, word: Seq<char>, active: Seq<char>, id: Seq<char>)
    requires
        can_judge(judge, active),
        judge.choices.layouts.contains(id),
        id != active,
    ensures
        judge.reading(word, layout::def_for(active)->0, id) == if comes_into_question(
            judge,
            word,
            active,
            id,
        ) {
            Some(reading_on(judge, word, active, id))
        } else {
            None
        },
{
    detect::lemma_def_for(active);
    detect::lemma_def_for(id);
}

/// The best of the readings on the first `n` of the user's layouts.
proof fn lemma_first_best(judge: Judge, word: Seq<char>, active: Seq<char>, i: int, n: int)
    requires
        can_judge(judge, active),
        stands_out(judge, word, active, i),
        0 <= n <= judge.choices.layouts.len(),
    ensures
        ({
            let best = judge.best_reading(
                word,
                layout::def_for(active)->0,
                config::others(judge.choices.layouts.take(n), active),
            );
            let id = judge.choices.layouts[i];
            if i < n {
                best == Some(reading_on(judge, word, active, id))
            } else {
                best matches Some(b) ==> b.delta.is_less(advantage(judge, word, active, id))
            }
        }),
    decreases n,
{
    if n > 0 {
        lemma_first_best(judge, word, active, i, n - 1);
        let layouts = judge.choices.layouts;
        let id = layouts[n - 1];
        assert(layouts.take(n).drop_last() =~= layouts.take(n - 1));
        assert(layouts.take(n).last() == id);
        let before = config::others(layouts.take(n - 1), active);
        let from = layout::def_for(active)->0;
        if id != active {
            assert(layouts.contains(id));
            lemma_reading(judge, word, active, id);
            let now = before.push(id);
            assert(config::others(layouts.take(n), active) == now);
            assert(now.drop_last() =~= before);
            assert(now.last() == id);
            assert(judge.best_reading(word, from, now) == match (
                judge.best_reading(word, from, before),
                judge.reading(word, from, id),
            ) {
                (Some(b), Some(r)) => if b.delta.is_less(r.delta) {
                    Some(r)
                } else {
                    Some(b)
                },
                (Some(b), None) => Some(b),
                (None, r) => r,
            });
        } else {
            assert(!comes_into_question(judge, word, active, id));
        }
    }
}

/// A word is corrected when it should be: where the text on one of the user's
/// other layouts is the best there is in place of a word of prose, the word is
/// replaced by it outright exactly if its advantage is as large as is demanded,
/// whatever the length of the word; it is put up for a second opinion exactly if
/// less than 1.5 is missing; and it stays otherwise. Only in place of a short word
/// nothing but a known one will do.
pub proof fn lemma_words_are_corrected(judge: Judge, word: Seq<char>, active: Seq<char>, i: int)
    requires
        can_judge(judge, active),
        prose(judge, word, active),
        stands_out(judge, word, active, i),
    ensures
        ({
            let id = judge.choices.layouts[i];
            let gained = advantage(judge, word, active, id);
            let needed = demanded(judge, word, active, id);
            let reading = reading_on(judge, word, active, id);
            let opinion = judge.opinion(word, active);
            if word.len() < judge.choices.require_dict_below_len && !known_there(
                judge,
                word,
                active,
                id,
            ) {
                opinion == Opinion::Keep(Skip::TooShort)
            } else if gained.is_at_least(needed) {
                opinion == Opinion::Switch(reading)
            } else if gained.is_at_least(needed.difference(Single { bits: 0x3fc0_0000 })) {
                opinion == Opinion::Ambiguous(reading)
            } else {
                opinion == Opinion::Keep(Skip::NotConfident)
            }
        }),
{
    let layouts = judge.choices.layouts;
    lemma_prose(judge, word, active);
    detect::lemma_def_for(active);
    lemma_first_best(judge, word, active, i, layouts.len() as int);
    assert(layouts.take(layouts.len() as int) =~= layouts);
    detect::lemma_def_for(layouts[i]);
    let from = layout::def_for(active)->0;
    let best = reading_on(judge, word, active, layouts[i]);
    assert(judge.best_reading(word, from, judge.choices.alternatives(active)) == Some(best));
    assert(judge.required(word, from, best) == demanded(judge, word, active, layouts[i]));
    assert(judge.choices.alternatives(active).len() > 0);
}

proof fn lemma_none_better(
    judge: Judge,
    word: Seq<char>,
    active: Seq<char>,
    alternatives: Seq<Seq<char>>,
    j: int,
)
    requires
        0 <= j < alternatives.len(),
    ensures
        ({
            let from = layout::def_for(active)->0;
            judge.reading(word, from, alternatives[j]) matches Some(r) ==> (judge.best_reading(
                word,
                from,
                alternatives,
            ) matches Some(b) && !b.delta.is_less(r.delta))
        }),
    decreases alternatives.len(),
{
    let before = alternatives.drop_last();
    if j < before.len() {
        lemma_none_better(judge, word, active, before, j);
        assert(before[j] == alternatives[j]);
    }
}

/// Whatever is put in place of a word, outright or for a second opinion, is the
/// text on another of the user's layouts, with its scores as they are; the word is
/// one of prose; no other layout has a text with a larger advantage; and a word is
/// replaced outright exactly if the advantage is as large as is demanded.
pub proof fn lemma_corrections_are_wanted(judge: Judge, word: Seq<char>, active: Seq<char>)
    requires
        judge.opinion(word, active).reading() is Some,
    ensures
        ({
            let r = judge.opinion(word, active).reading()->0;
            let gained = advantage(judge, word, active, r.to_layout);
            let needed = demanded(judge, word, active, r.to_layout);
            &&& can_judge(judge, active)
            &&& prose(judge, word, active)
            &&& comes_into_question(judge, word, active, r.to_layout)
            &&& r == reading_on(judge, word, active, r.to_layout)
            &&& judge.opinion(word, active) is Switch <==> gained.is_at_least(needed)
            &&& gained.is_at_least(needed) || gained.is_at_least(
                needed.difference(Single { bits: 0x3fc0_0000 }),
            )
            &&& word.len() < judge.choices.require_dict_below_len ==> known_there(
                judge,
                word,
                active,
                r.to_layout,
            )
            &&& forall|id: Seq<char>| #[trigger]
                comes_into_question(judge, word, active, id) ==> !gained.is_less(
                    advantage(judge, word, active, id),
                )
        }),
{
    let from = layout::def_for(active)->0;
    let alternatives = judge.choices.alternatives(active);
    lemma_prose(judge, word, active);
    detect::lemma_def_for(active);
    detect::lemma_best_reading(judge, word, from, alternatives);
    let r = judge.best_reading(word, from, alternatives)->0;
    let i = choose|i: int|
        0 <= i < alternatives.len() && judge.reading(word, from, #[trigger] alternatives[i])
            == Some(r);
    detect::lemma_others(judge.choices.layouts, active, i);
    lemma_reading(judge, word, active, alternatives[i]);
    assert(r.to_layout == alternatives[i]);
    assert(judge.required(word, from, r) == demanded(judge, word, active, r.to_layout));
    assert forall|id: Seq<char>| #[trigger] comes_into_question(judge, word, active, id) implies !r.delta.is_less(
        advantage(judge, word, active, id),
    ) by {
        lemma_among_others(judge.choices.layouts, active, judge.choices.layouts.index_of(id));
        let j = alternatives.index_of(id);
        lemma_reading(judge, word, active, id);
        lemma_none_better(judge, word, active, alternatives, j);
    }
}

/// Why a word stays: nothing is judged while the detector is off, on a layout that
/// it does not know or without a model for its language; a word is too short, no
/// word, an acronym or an exception, in this order; there is no other layout; or
/// none gives a text that comes into question.
pub proof fn lemma_why_a_word_stays(judge: Judge, word: Seq<char>, active: Seq<char>)
    ensures
        !judge.choices.enabled ==> judge.opinion(word, active) == Opinion::Keep(Skip::Disabled),
        judge.choices.enabled && layout::def_for(active) is None ==> judge.opinion(word, active)
            == Opinion::Keep(Skip::ModelMissing),
        judge.choices.enabled && layout::def_for(active) is Some ==> ({
            let opinion = judge.opinion(word, active);
            let long_enough = word.len() >= judge.choices.min_word_len;
            let lettered = forall|i: int|
                0 <= i < word.len() ==> !no_part_of_a_word(#[trigger] word[i]) && !structure(
                    word[i],
                ) && (text::alphabetic(word[i]) || letter_elsewhere(judge, word[i], active));
            let no_path = forall|i: int, j: int|
                0 <= i < j < word.len() ==> !(#[trigger] word[i] == '/' && #[trigger] word[j]
                    == '/');
            let acronym = judge.choices.skip_all_caps && word.len() >= 2 && shouts(word);
            &&& !long_enough ==> opinion == Opinion::Keep(Skip::TooShort)
            &&& long_enough && !(lettered && no_path) ==> opinion == Opinion::Keep(Skip::NotAWord)
            &&& long_enough && lettered && no_path && acronym ==> opinion == Opinion::Keep(
                Skip::AllCaps,
            )
            &&& long_enough && lettered && no_path && !acronym && !prose(judge, word, active)
                ==> opinion == Opinion::Keep(Skip::UserException)
            &&& prose(judge, word, active) && !can_judge(judge, active) ==> opinion
                == Opinion::Keep(Skip::ModelMissing)
            &&& prose(judge, word, active) && can_judge(judge, active) && (forall|i: int|
                0 <= i < judge.choices.layouts.len() ==> #[trigger] judge.choices.layouts[i]
                    == active) ==> opinion == Opinion::Keep(Skip::NoAlternatives)
            &&& prose(judge, word, active) && can_judge(judge, active) && (exists|i: int|
                0 <= i < judge.choices.layouts.len() && #[trigger] judge.choices.layouts[i]
                    != active) && (forall|id: Seq<char>|
                !#[trigger] comes_into_question(judge, word, active, id)) ==> opinion
                == Opinion::Keep(Skip::Unconvertible)
        }),
{
    if judge.choices.enabled && layout::def_for(active) is Some {
        let from = layout::def_for(active)->0;
        let alternatives = judge.choices.alternatives(active);
        let b = layout::board_of(from);
        detect::lemma_def_for(active);
        lemma_prose(judge, word, active);
        lemma_slashes(word);
        assert forall|i: int| 0 <= i < word.len() implies (detect::affix(
            #[trigger] word[i],
            b,
            alternatives,
        ) <==> !text::alphabetic(word[i]) && !letter_elsewhere(judge, word[i], active)) by {
            lemma_letter_elsewhere(judge, word[i], active);
        }
        assert(forall|i: int|
            0 <= i < word.len() ==> (no_part_of_a_word(#[trigger] word[i]) <==> detect::wordless(
                word[i],
            )));
        assert(forall|i: int|
            0 <= i < word.len() ==> (structure(#[trigger] word[i]) <==> detect::structural(
                word[i],
            )));
        assert(shouts(word) <==> detect::capitals(word));
        if forall|i: int|
            0 <= i < judge.choices.layouts.len() ==> #[trigger] judge.choices.layouts[i] == active {
            if alternatives.len() > 0 {
                detect::lemma_others(judge.choices.layouts, active, 0);
                let k = judge.choices.layouts.index_of(alternatives[0]);
                assert(judge.choices.layouts[k] == active);
            }
        } else {
            let i = choose|i: int|
                0 <= i < judge.choices.layouts.len() && #[trigger] judge.choices.layouts[i]
                    != active;
            lemma_among_others(judge.choices.layouts, active, i);
        }
        if can_judge(judge, active) && (forall|id: Seq<char>|
            !#[trigger] comes_into_question(judge, word, active, id)) {
            detect::lemma_best_reading(judge, word, from, alternatives);
            if judge.best_reading(word, from, alternatives) is Some {
                let i = choose|i: int|
                    0 <= i < alternatives.len() && judge.reading(
                        word,
                        from,
                        #[trigger] alternatives[i],
                    ) is Some;
                detect::lemma_others(judge.choices.layouts, active, i);
                lemma_reading(judge, word, active, alternatives[i]);
                assert(!comes_into_question(judge, word, active, alternatives[i]));
            }
        }
    }
}

proof fn lemma_best_layout(judge: Judge, s: Seq<char>, from: Board, alternatives: Seq<Seq<char>>)
    requires
        judge.all_scored(alternatives),
    ensures
        alternatives.len() > 0 <==> judge.best_layout(s, from, alternatives) is Some,
        judge.best_layout(s, from, alternatives) matches Some((id, score)) ==> {
            &&& alternatives.contains(id)
            &&& score == score_on(judge, s, from, id)
            &&& forall|j: int|
                0 <= j < alternatives.len() ==> !score.is_less(
                    score_on(judge, s, from, #[trigger] alternatives[j]),
                )
        },
    decreases alternatives.len(),
{
    if alternatives.len() > 0 {
        let before = alternatives.drop_last();
        let n = alternatives.len() - 1;
        assert(alternatives[n] == alternatives.last());
        assert forall|j: int| 0 <= j < before.len() implies #[trigger] before[j]
            == alternatives[j] by {}
        lemma_best_layout(judge, s, from, before);
        detect::lemma_def_for(alternatives[n]);
        let score = score_on(judge, s, from, alternatives[n]);
        match judge.best_layout(s, from, before) {
            Some((id, best)) => {
                let k = before.index_of(id);
                assert(alternatives[k] == id);
                let chosen = judge.best_layout(s, from, alternatives)->0;
                assert forall|j: int| 0 <= j < alternatives.len() implies !chosen.1.is_less(
                    score_on(judge, s, from, #[trigger] alternatives[j]),
                ) by {
                    if j < n {
                        assert(before[j] == alternatives[j]);
                    }
                }
            },
            None => {},
        }
    }
}

/// How plausible a text typed on one layout is on another.
pub open spec fn score_on(judge: Judge, s: Seq<char>, from: Board, id: Seq<char>) -> Single {
    let to = layout::def_for(id)->0;
    judge.models[to.lang].plausibility(layout::converted(s, from, layout::board_of(to)))
}

/// The layout that a text was meant for is one of the user's others, and on none
/// of them is the text more plausible; there is one wherever there are others, all
/// of them known and with a model.
pub proof fn lemma_the_target_is_the_most_plausible(judge: Judge, s: Seq<char>, active: Seq<char>)
    ensures
        judge.target(s, active) is Some <==> {
            &&& layout::board_for(active) is Some
            &&& exists|i: int|
                0 <= i < judge.choices.layouts.len() && #[trigger] judge.choices.layouts[i]
                    != active
            &&& forall|i: int|
                0 <= i < judge.choices.layouts.len() && #[trigger] judge.choices.layouts[i]
                    != active ==> (layout::def_for(judge.choices.layouts[i]) matches Some(to)
                    && judge.models.contains_key(to.lang))
        },
        judge.target(s, active) matches Some(id) ==> {
            &&& judge.choices.layouts.contains(id)
            &&& id != active
            &&& forall|i: int|
                0 <= i < judge.choices.layouts.len() && #[trigger] judge.choices.layouts[i]
                    != active ==> !score_on(
                    judge,
                    s,
                    layout::board_for(active)->0,
                    id,
                ).is_less(
                    score_on(
                        judge,
                        s,
                        layout::board_for(active)->0,
                        judge.choices.layouts[i],
                    ),
                )
        },
{
    let layouts = judge.choices.layouts;
    let alternatives = judge.choices.alternatives(active);
    assert forall|i: int| 0 <= i < layouts.len() && #[trigger] layouts[i]
        != active implies alternatives.contains(layouts[i]) by {
        lemma_among_others(layouts, active, i);
    }
    assert forall|k: int| 0 <= k < alternatives.len() implies layouts.contains(
        #[trigger] alternatives[k],
    ) && alternatives[k] != active by {
        detect::lemma_others(layouts, active, k);
    }
    if forall|i: int|
        0 <= i < layouts.len() && #[trigger] layouts[i] != active ==> (layout::def_for(
            layouts[i],
        ) matches Some(to) && judge.models.contains_key(to.lang)) {
        assert forall|k: int| 0 <= k < alternatives.len() implies (layout::def_for(
            #[trigger] alternatives[k],
        ) matches Some(to) && judge.models.contains_key(to.lang)) by {
            let i = layouts.index_of(alternatives[k]);
            assert(layouts[i] != active);
        }
        assert(judge.all_scored(alternatives));
    }
    if judge.all_scored(alternatives) && layout::board_for(active) is Some {
        let from = layout::board_for(active)->0;
        lemma_best_layout(judge, s, from, alternatives);
        assert forall|i: int| 0 <= i < layouts.len() && #[trigger] layouts[i] != active implies (
        layout::def_for(layouts[i]) matches Some(to) && judge.models.contains_key(to.lang)) by {
            let k = alternatives.index_of(layouts[i]);
            assert(alternatives[k] == layouts[i]);
        }
        if alternatives.len() > 0 {
            let i = layouts.index_of(alternatives[0]);
            assert(layouts[i] != active);
            let id = judge.target(s, active)->0;
            assert forall|i: int| 0 <= i < layouts.len() && #[trigger] layouts[i]
                != active implies !score_on(judge, s, from, id).is_less(
                score_on(judge, s, from, layouts[i]),
            ) by {
                let k = alternatives.index_of(layouts[i]);
                assert(alternatives[k] == layouts[i]);
            }
        }
    }
}

/// What surrounds the word proper is exactly what is no letter, here or on another of
/// the user's layouts, up to the first and behind the last that is one; where nothing is,
/// there is no word proper. On a layout that is not known everything belongs to it.
pub proof fn lemma_the_word_proper(judge: Judge, token: Seq<char>, active: Seq<char>)
    ensures
        ({
            let (start, end) = judge.middle(token, active);
            &&& 0 <= start <= end <= token.len()
            &&& layout::board_for(active) is None ==> start == 0 && end == token.len()
            &&& layout::board_for(active) is Some ==> {
                &&& forall|k: int|
                    0 <= k < token.len() && (k < start || end <= k) ==> !text::alphabetic(
                        #[trigger] token[k],
                    ) && !letter_elsewhere(judge, token[k], active)
                &&& start < end ==> text::alphabetic(token[start]) || letter_elsewhere(
                    judge,
                    token[start],
                    active,
                )
                &&& start < end ==> text::alphabetic(token[end - 1]) || letter_elsewhere(
                    judge,
                    token[end - 1],
                    active,
                )
            }
        }),
{
    detect::lemma_trimming(judge, token, active);
    if layout::board_for(active) is Some {
        let (start, end) = judge.middle(token, active);
        let from = layout::board_for(active)->0;
        let alternatives = judge.choices.alternatives(active);
        assert forall|k: int| 0 <= k < token.len() implies (detect::affix(
            #[trigger] token[k],
            from,
            alternatives,
        ) <==> !text::alphabetic(token[k]) && !letter_elsewhere(judge, token[k], active)) by {
            lemma_letter_elsewhere(judge, token[k], active);
        }
    }
}

/// What each sensitivity demands in any case is 3.5, 2 or 1, and the surcharges are 3, 2.5
/// or 1.5 for an unknown word and 6, 4.5 or 3 in place of a common one.
pub proof fn lemma_what_is_demanded(s: Sensitivity)
    ensures
        s.margin() == demanded_always(s),
        s.unknown_target_margin() == demanded_of_unknown(s),
        s.known_word_margin() == demanded_of_known(s, Some(Single { bits: 0 })),
{
}

/// A text that the layout can type throughout is covered to the full, which is enough to
/// come into question.
pub proof fn lemma_what_can_be_typed_is_covered(b: Board, s: Seq<char>)
    requires
        0 < layout::visible(s) <= u64::MAX,
        forall|i: int| 0 <= i < s.len() ==> b.types(#[trigger] s[i]),
    ensures
        layout::coverage_of(b, s) == (Single { bits: 0x3f80_0000 }),
        !layout::coverage_of(b, s).is_less(Single { bits: 0x3f7d_70a4 }),
{
    layout::lemma_coverage_is_a_part(b, s);
    let n = layout::visible(s);
    single::lemma_counts_are_finite(n);
    single::lemma_quotient_by_itself(single::count(n));
}

proof fn lemma_first_layout(
    judge: Judge,
    s: Seq<char>,
    from: Board,
    alternatives: Seq<Seq<char>>,
) -> (k: int)
    requires
        judge.all_scored(alternatives),
        alternatives.len() > 0,
    ensures
        0 <= k < alternatives.len(),
        judge.best_layout(s, from, alternatives) == Some(
            (alternatives[k], score_on(judge, s, from, alternatives[k])),
        ),
        forall|j: int|
            0 <= j < k ==> {
                let other = score_on(judge, s, from, #[trigger] alternatives[j]);
                other.nan() || other.is_less(score_on(judge, s, from, alternatives[k]))
            },
    decreases alternatives.len(),
{
    let before = alternatives.drop_last();
    let n = alternatives.len() - 1;
    assert(alternatives[n] == alternatives.last());
    detect::lemma_def_for(alternatives[n]);
    assert forall|j: int| 0 <= j < before.len() implies #[trigger] before[j] == alternatives[j] by {}
    assert(judge.all_scored(before));
    if before.len() == 0 {
        assert(judge.best_layout(s, from, before) is None);
        n
    } else {
        let old_k = lemma_first_layout(judge, s, from, before);
        lemma_best_layout(judge, s, from, before);
        let best = score_on(judge, s, from, before[old_k]);
        let score = score_on(judge, s, from, alternatives[n]);
        if best.is_less(score) {
            assert forall|j: int| 0 <= j < n implies {
                let other = score_on(judge, s, from, #[trigger] alternatives[j]);
                other.nan() || other.is_less(score)
            } by {
                assert(before[j] == alternatives[j]);
                assert(!best.is_less(score_on(judge, s, from, before[j])));
            }
            n
        } else {
            assert forall|j: int| 0 <= j < old_k implies {
                let other = score_on(judge, s, from, #[trigger] alternatives[j]);
                other.nan() || other.is_less(best)
            } by {
                assert(before[j] == alternatives[j]);
            }
            old_k
        }
    }
}

/// Of layouts on which a text is equally plausible, the first one is the one that it was
/// meant for.
pub proof fn lemma_the_first_target_counts(
    judge: Judge,
    s: Seq<char>,
    active: Seq<char>,
) -> (k: int)
    requires
        judge.target(s, active) is Some,
    ensures
        ({
            let alternatives = judge.choices.alternatives(active);
            let from = layout::board_for(active)->0;
            &&& 0 <= k < alternatives.len()
            &&& judge.target(s, active) == Some(alternatives[k])
            &&& forall|j: int|
                0 <= j < k ==> {
                    let other = score_on(judge, s, from, #[trigger] alternatives[j]);
                    other.nan() || other.is_less(score_on(judge, s, from, alternatives[k]))
                }
        }),
{
    lemma_first_layout(
        judge,
        s,
        layout::board_for(active)->0,
        judge.choices.alternatives(active),
    )
}

} // verus!
