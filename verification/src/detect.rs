//! Whether a word was meant for another layout.
//!
//! The word is re-typed on every other layout in use, and both readings are
//! scored. Most of what follows are reasons to do nothing: where the evidence is
//! less than clear the text stays as it is.

use crate::config;
use crate::config::{Choices, Config, Sensitivity};
use crate::layout;
use crate::layout::{Board, Def, Layout};
use crate::model;
use crate::model::{Lexicon, Model, Models};
use crate::single;
use crate::single::Single;
use crate::text;
use vstd::prelude::*;
use vstd::string::StrSliceExecFns;

verus! {

/// Another reading of a word, with what speaks for it.
#[derive(Debug, Clone)]
pub struct Candidate {
    pub to_layout: &'static str,
    pub converted: String,
    /// The score of the text as typed, in the language of the layout in use.
    pub score_as_typed: Single,
    /// The score of the other reading, in the language of its layout.
    pub score_converted: Single,
    /// How much better the other reading is.
    pub delta: Single,
    pub target_knows_word: bool,
    pub source_knows_word: bool,
}

/// What a [`Candidate`] says.
#[verifier::ext_equal]
pub struct Reading {
    pub to_layout: Seq<char>,
    pub converted: Seq<char>,
    pub score_as_typed: Single,
    pub score_converted: Single,
    pub delta: Single,
    pub target_knows_word: bool,
    pub source_knows_word: bool,
}

impl View for Candidate {
    type V = Reading;

    open spec fn view(&self) -> Reading {
        Reading {
            to_layout: self.to_layout@,
            converted: self.converted@,
            score_as_typed: self.score_as_typed,
            score_converted: self.score_converted,
            delta: self.delta,
            target_knows_word: self.target_knows_word,
            source_knows_word: self.source_knows_word,
        }
    }
}

/// Why a word stays as it is.
#[derive(Debug, Clone, Copy, PartialEq, Eq, Structural)]
pub enum Skip {
    Disabled,
    TooShort,
    AllCaps,
    UserException,
    /// It holds digits, punctuation or symbols: paths, handles, passwords.
    NotAWord,
    /// No other layout is in use.
    NoAlternatives,
    /// There is no layout or no model to judge by.
    ModelMissing,
    /// The other reading is not convincing enough.
    NotConfident,
    /// No other layout gives a word.
    Unconvertible,
}

/// What is to be done about a word.
#[derive(Debug, Clone)]
pub enum Verdict {
    /// It stays as it is.
    Keep(Skip),
    /// It is replaced by the other reading.
    Switch(Box<Candidate>),
    /// The other reading is plausible, but not enough so to replace the word
    /// without a second opinion.
    Ambiguous(Box<Candidate>),
}

/// What a [`Verdict`] says.
#[verifier::ext_equal]
pub enum Opinion {
    Keep(Skip),
    Switch(Reading),
    Ambiguous(Reading),
}

impl View for Verdict {
    type V = Opinion;

    open spec fn view(&self) -> Opinion {
        match *self {
            Verdict::Keep(skip) => Opinion::Keep(skip),
            Verdict::Switch(c) => Opinion::Switch(c@),
            Verdict::Ambiguous(c) => Opinion::Ambiguous(c@),
        }
    }
}

impl Opinion {
    /// The other reading, where there is one.
    pub open spec fn reading(self) -> Option<Reading> {
        match self {
            Opinion::Keep(_) => None,
            Opinion::Switch(r) => Some(r),
            Opinion::Ambiguous(r) => Some(r),
        }
    }
}

impl Verdict {
    pub fn is_switch(&self) -> (r: bool)
        ensures
            r == (self@ is Switch),
    {
        match self {
            Verdict::Switch(_) => true,
            _ => false,
        }
    }

    /// The other reading, where there is one.
    pub fn candidate(&self) -> (r: Option<&Candidate>)
        ensures
            match r {
                Some(c) => self@.reading() == Some(c@),
                None => self@.reading() is None,
            },
    {
        match self {
            Verdict::Switch(c) => Some(&**c),
            Verdict::Ambiguous(c) => Some(&**c),
            Verdict::Keep(_) => None,
        }
    }
}

/// 0.99, the part of a reading that the other layout must be able to type.
pub const MIN_COVERAGE: u32 = 0x3f7d_70a4;

/// 1.5, how far below the threshold a word is ambiguous.
pub const AMBIGUOUS_BAND: u32 = 0x3fc0_0000;

/// -5.5, the log10 probability from which a word counts as common. Lists of
/// words have a long tail of errors and fragments, which must not be protected
/// as words are.
pub const COMMON_WORD_FLOOR: u32 = 0xc0b0_0000;

/// 0.4, the part of the surcharge for known words that rarer ones get.
pub const RARE_WORD_PROTECTION: u32 = 0x3ecc_cccd;

/// 1.5, demanded on top between two layouts for Latin letters, where a word on
/// the wrong layout still looks like text.
pub const LATIN_PAIR_SURCHARGE: u32 = 0x3fc0_0000;

/// How many slashes a word may hold. One is a letter on the Arabic layout; two
/// mean a path.
pub const MAX_SLASHES: usize = 1;

/// Whether a character marks structure rather than prose.
pub open spec fn structural(c: char) -> bool {
    c == '@' || c == ':' || c == '\\' || c == '|' || c == '"' || c == '<' || c == '>' || c == '{'
        || c == '}' || c == '='
}

fn is_structural(c: char) -> (r: bool)
    ensures
        r == structural(c),
{
    c == '@' || c == ':' || c == '\\' || c == '|' || c == '"' || c == '<' || c == '>' || c == '{'
        || c == '}' || c == '='
}

/// How often a character occurs in a text.
pub open spec fn occurrences(s: Seq<char>, c: char) -> nat
    decreases s.len(),
{
    if s.len() == 0 {
        0
    } else {
        occurrences(s.drop_last(), c) + if s.last() == c {
            1nat
        } else {
            0
        }
    }
}

fn count_of(chars: &Vec<char>, c: char) -> (r: usize)
    ensures
        r == occurrences(chars@, c),
{
    let mut n: usize = 0;
    let mut i: usize = 0;
    while i < chars.len()
        invariant
            i <= chars@.len(),
            n <= i,
            n == occurrences(chars@.take(i as int), c),
        decreases chars@.len() - i,
    {
        assert(chars@.take(i + 1).drop_last() =~= chars@.take(i as int));
        if text::nth(chars, i) == c {
            n += 1;
        }
        i += 1;
    }
    assert(chars@.take(chars@.len() as int) =~= chars@);
    n
}

/// Whether a key contributes to a letter on a layout: it produces letters, or it
/// is a dead key.
pub open spec fn lettered(to: Board, slot: int) -> bool {
    to.mark(slot) is Some || (to.slots[slot].len() > 0 && text::all_alphabetic(to.slots[slot]))
}

/// Whether the key behind a character contributes to a letter on one of these
/// layouts.
pub open spec fn letter_capable(c: char, from: Board, alternatives: Seq<Seq<char>>) -> bool {
    match from.key(c) {
        Some(slot) => exists|i: int|
            0 <= i < alternatives.len() && (layout::board_for(#[trigger] alternatives[i]) matches Some(
                to,
            ) && lettered(to, slot)),
        None => false,
    }
}

/// What never belongs to a word: digits, white space, control codes.
pub open spec fn wordless(c: char) -> bool {
    text::numeric(c) || text::whitespace(c) || text::control(c)
}

/// The first position from `i` on of a character that is no affix.
pub open spec fn core_start(
    s: Seq<char>,
    from: Board,
    alternatives: Seq<Seq<char>>,
    i: int,
) -> int
    decreases s.len() - i,
{
    if i < 0 || i >= s.len() {
        s.len() as int
    } else if !affix(s[i], from, alternatives) {
        i
    } else {
        core_start(s, from, alternatives, i + 1)
    }
}

/// The position behind the last character before `n` that is no affix, or
/// `start` where there is none.
pub open spec fn core_end(
    s: Seq<char>,
    from: Board,
    alternatives: Seq<Seq<char>>,
    n: int,
    start: int,
) -> int
    decreases n,
{
    if n <= 0 {
        start
    } else if !affix(s[n - 1], from, alternatives) {
        n
    } else {
        core_end(s, from, alternatives, n - 1, start)
    }
}

/// Punctuation that is no letter on any of these layouts.
pub open spec fn affix(c: char, from: Board, alternatives: Seq<Seq<char>>) -> bool {
    !text::alphabetic(c) && !letter_capable(c, from, alternatives)
}

/// What a [`Detector`] judges by.
#[verifier::ext_equal]
pub struct Judge {
    pub models: Map<Seq<char>, Lexicon>,
    pub choices: Choices,
}

impl Judge {
    /// A reason to leave a word alone that needs no models.
    pub open spec fn prefilter(self, word: Seq<char>, from: Def) -> Option<Skip> {
        let alternatives = self.choices.alternatives(from.id);
        if word.len() < self.choices.min_word_len {
            Some(Skip::TooShort)
        } else if exists|i: int| 0 <= i < word.len() && wordless(#[trigger] word[i]) {
            Some(Skip::NotAWord)
        } else if exists|i: int| 0 <= i < word.len() && structural(#[trigger] word[i]) {
            Some(Skip::NotAWord)
        } else if occurrences(word, '/') > MAX_SLASHES {
            Some(Skip::NotAWord)
        } else if exists|i: int|
            0 <= i < word.len() && affix(#[trigger] word[i], layout::board_of(from), alternatives) {
            Some(Skip::NotAWord)
        } else if self.choices.skip_all_caps && word.len() > 1 && capitals(word) {
            Some(Skip::AllCaps)
        } else if self.choices.excepts(word) {
            Some(Skip::UserException)
        } else {
            None
        }
    }

    /// The reading of a word on another layout, if it comes into question: the
    /// layout and a model for it are known, the reading is another text, the
    /// layout can type it, and it consists of letters.
    pub open spec fn reading(self, word: Seq<char>, from: Def, alternative: Seq<char>) -> Option<
        Reading,
    > {
        match layout::def_for(alternative) {
            Some(to) => {
                let converted = layout::converted(
                    word,
                    layout::board_of(from),
                    layout::board_of(to),
                );
                if self.models.contains_key(to.lang) && converted != word && !layout::coverage_of(
                    layout::board_of(to),
                    converted,
                ).is_less(Single { bits: MIN_COVERAGE }) && text::all_alphabetic(converted) {
                    let source = self.models[from.lang];
                    let target = self.models[to.lang];
                    Some(
                        Reading {
                            to_layout: to.id,
                            converted,
                            score_as_typed: source.plausibility(word),
                            score_converted: target.plausibility(converted),
                            delta: target.plausibility(converted).difference(
                                source.plausibility(word),
                            ),
                            target_knows_word: target.word(text::lowercase(converted)) is Some,
                            source_knows_word: source.word(text::lowercase(word)) is Some,
                        },
                    )
                } else {
                    None
                }
            },
            None => None,
        }
    }

    /// The best of the readings on these layouts; of equally good ones the first.
    pub open spec fn best_reading(
        self,
        word: Seq<char>,
        from: Def,
        alternatives: Seq<Seq<char>>,
    ) -> Option<Reading>
        decreases alternatives.len(),
    {
        if alternatives.len() == 0 {
            None
        } else {
            let best = self.best_reading(word, from, alternatives.drop_last());
            match (best, self.reading(word, from, alternatives.last())) {
                (Some(b), Some(r)) => if b.delta.is_less(r.delta) {
                    Some(r)
                } else {
                    Some(b)
                },
                (Some(b), None) => Some(b),
                (None, r) => r,
            }
        }
    }

    /// How much better a reading must be to replace the word.
    pub open spec fn required(self, word: Seq<char>, from: Def, best: Reading) -> Single {
        let sensitivity = self.choices.sensitivity;
        let surcharge = sensitivity.known_word_margin();
        let known = match self.models[from.lang].word(text::lowercase(word)) {
            Some(logp) => if logp.is_at_least(Single { bits: COMMON_WORD_FLOOR }) {
                surcharge
            } else {
                surcharge.product(Single { bits: RARE_WORD_PROTECTION })
            },
            None => Single { bits: 0 },
        };
        let base = sensitivity.margin().sum(known);
        let target = if best.target_knows_word {
            base
        } else {
            base.sum(sensitivity.unknown_target_margin())
        };
        let to_latin = match layout::def_for(best.to_layout) {
            Some(to) => to.latin_overlap,
            None => false,
        };
        if from.latin_overlap && to_latin {
            target.sum(Single { bits: LATIN_PAIR_SURCHARGE })
        } else {
            target
        }
    }

    /// What is to be done where this is the best reading.
    pub open spec fn decision(self, word: Seq<char>, from: Def, best: Reading) -> Opinion {
        let required = self.required(word, from, best);
        if word.len() < self.choices.require_dict_below_len && !best.target_knows_word {
            Opinion::Keep(Skip::TooShort)
        } else if best.delta.is_at_least(required) {
            Opinion::Switch(best)
        } else if best.delta.is_at_least(required.difference(Single { bits: AMBIGUOUS_BAND })) {
            Opinion::Ambiguous(best)
        } else {
            Opinion::Keep(Skip::NotConfident)
        }
    }

    /// What is to be done about a word typed on a layout.
    pub open spec fn opinion(self, word: Seq<char>, active: Seq<char>) -> Opinion {
        if !self.choices.enabled {
            Opinion::Keep(Skip::Disabled)
        } else {
            match layout::def_for(active) {
                None => Opinion::Keep(Skip::ModelMissing),
                Some(from) => match self.prefilter(word, from) {
                    Some(skip) => Opinion::Keep(skip),
                    None => if !self.models.contains_key(from.lang) {
                        Opinion::Keep(Skip::ModelMissing)
                    } else if self.choices.alternatives(active).len() == 0 {
                        Opinion::Keep(Skip::NoAlternatives)
                    } else {
                        match self.best_reading(word, from, self.choices.alternatives(active)) {
                            Some(best) => self.decision(word, from, best),
                            None => Opinion::Keep(Skip::Unconvertible),
                        }
                    },
                },
            }
        }
    }

    /// Where the word proper begins in what was typed, and where it ends.
    pub open spec fn middle(self, token: Seq<char>, active: Seq<char>) -> (int, int) {
        match layout::board_for(active) {
            Some(from) => {
                let alternatives = self.choices.alternatives(active);
                let start = core_start(token, from, alternatives, 0);
                (start, core_end(token, from, alternatives, token.len() as int, start))
            },
            None => (0, token.len() as int),
        }
    }

    /// Whether all of these layouts and models for them are known.
    pub open spec fn all_scored(self, alternatives: Seq<Seq<char>>) -> bool {
        forall|i: int|
            0 <= i < alternatives.len() ==> (layout::def_for(#[trigger] alternatives[i]) matches Some(
                to,
            ) && self.models.contains_key(to.lang))
    }

    /// The layout, among these, on which a text scores best, with its score; of
    /// equally good ones the first.
    pub open spec fn best_layout(
        self,
        s: Seq<char>,
        from: Board,
        alternatives: Seq<Seq<char>>,
    ) -> Option<(Seq<char>, Single)>
        decreases alternatives.len(),
    {
        if alternatives.len() == 0 {
            None
        } else {
            let to = layout::def_for(alternatives.last())->0;
            let score = self.models[to.lang].plausibility(
                layout::converted(s, from, layout::board_of(to)),
            );
            match self.best_layout(s, from, alternatives.drop_last()) {
                Some((id, best)) => if best.is_less(score) {
                    Some((to.id, score))
                } else {
                    Some((id, best))
                },
                None => Some((to.id, score)),
            }
        }
    }

    /// The layout that a text was meant for.
    pub open spec fn target(self, s: Seq<char>, active: Seq<char>) -> Option<Seq<char>> {
        let alternatives = self.choices.alternatives(active);
        match layout::board_for(active) {
            Some(from) => if self.all_scored(alternatives) {
                match self.best_layout(s, from, alternatives) {
                    Some((id, _)) => Some(id),
                    None => None,
                }
            } else {
                None
            },
            None => None,
        }
    }
}

/// Whether a word is written in capitals. Scripts without case have none.
pub open spec fn capitals(word: Seq<char>) -> bool {
    &&& exists|i: int| 0 <= i < word.len() && text::uppercase_letter(#[trigger] word[i])
    &&& forall|i: int| 0 <= i < word.len() ==> !text::lowercase_letter(#[trigger] word[i])
}

/// The decision maker.
#[derive(Debug)]
pub struct Detector {
    pub models: Models,
    pub config: Config,
}

impl View for Detector {
    type V = Judge;

    open spec fn view(&self) -> Judge {
        Judge { models: self.models@, choices: self.config@ }
    }
}

/// The definition found under an identifier has that identifier.
pub proof fn lemma_def_for(id: Seq<char>)
    ensures
        layout::def_for(id) matches Some(d) ==> d.id == id,
{
    lemma_def_among(crate::tables::known(), id);
}

proof fn lemma_def_among(defs: Seq<Def>, id: Seq<char>)
    ensures
        layout::def_among(defs, id) matches Some(d) ==> d.id == id,
    decreases defs.len(),
{
    if defs.len() > 0 && defs[0].id != id {
        lemma_def_among(defs.skip(1), id);
    }
}

/// Whether any character of a word is a digit, white space or a control code.
fn has_wordless(chars: &Vec<char>) -> (r: bool)
    ensures
        r == exists|i: int| 0 <= i < chars@.len() && wordless(#[trigger] chars@[i]),
{
    let mut i: usize = 0;
    while i < chars.len()
        invariant
            i <= chars@.len(),
            forall|k: int| 0 <= k < i ==> !wordless(#[trigger] chars@[k]),
        decreases chars@.len() - i,
    {
        let c: char = text::nth(chars, i);
        if c.is_numeric() || c.is_whitespace() || text::is_control(c) {
            assert(wordless(chars@[i as int]));
            return true;
        }
        i += 1;
    }
    false
}

fn has_structural(chars: &Vec<char>) -> (r: bool)
    ensures
        r == exists|i: int| 0 <= i < chars@.len() && structural(#[trigger] chars@[i]),
{
    let mut i: usize = 0;
    while i < chars.len()
        invariant
            i <= chars@.len(),
            forall|k: int| 0 <= k < i ==> !structural(#[trigger] chars@[k]),
        decreases chars@.len() - i,
    {
        if is_structural(text::nth(chars, i)) {
            assert(structural(chars@[i as int]));
            return true;
        }
        i += 1;
    }
    false
}

fn is_capitals(chars: &Vec<char>) -> (r: bool)
    ensures
        r == capitals(chars@),
{
    let mut shouted: bool = false;
    let mut i: usize = 0;
    while i < chars.len()
        invariant
            i <= chars@.len(),
            shouted == exists|k: int| 0 <= k < i && text::uppercase_letter(#[trigger] chars@[k]),
            forall|k: int| 0 <= k < i ==> !text::lowercase_letter(#[trigger] chars@[k]),
        decreases chars@.len() - i,
    {
        let c: char = text::nth(chars, i);
        if c.is_lowercase() {
            assert(text::lowercase_letter(chars@[i as int]));
            return false;
        }
        if c.is_uppercase() {
            assert(text::uppercase_letter(chars@[i as int]));
            shouted = true;
        }
        i += 1;
    }
    shouted
}

impl Detector {
    pub fn new(models: Models, config: Config) -> (r: Detector)
        ensures
            r.models == models,
            r.config == config,
    {
        Detector { models, config }
    }

    /// Whether the key behind a character contributes to a letter on one of
    /// these layouts.
    fn is_letter_capable(&self, c: char, from: &Layout, alternatives: &Vec<&str>) -> (r: bool)
        requires
            from.wf(),
        ensures
            r == letter_capable(c, from@, config::slice_views(alternatives@)),
    {
        let ghost alts = config::slice_views(alternatives@);
        match from.key_for(c) {
            None => false,
            Some((idx, shifted)) => {
                let ghost slot = layout::slot_of(idx as int, shifted);
                let mut i: usize = 0;
                while i < alternatives.len()
                    invariant
                        i <= alternatives@.len(),
                        idx < layout::KEY_COUNT,
                        from@.key(c) == Some(slot),
                        slot == layout::slot_of(idx as int, shifted),
                        alts == config::slice_views(alternatives@),
                        forall|k: int|
                            0 <= k < i ==> !(layout::board_for(#[trigger] alts[k]) matches Some(
                                to,
                            ) && lettered(to, slot)),
                    decreases alternatives@.len() - i,
                {
                    assert(alts[i as int] == alternatives@[i as int]@);
                    match layout::layout(alternatives[i]) {
                        Some(to) => {
                            let dead: bool = to.is_dead_key(idx, shifted);
                            let token: &str = to.token_at(idx, shifted);
                            if dead || (token.unicode_len() > 0 && text::is_all_alphabetic(token)) {
                                assert(layout::board_for(alts[i as int]) matches Some(b)
                                    && lettered(b, slot));
                                return true;
                            }
                        },
                        None => {},
                    }
                    i += 1;
                }
                assert(from@.key(c) == Some(slot));
                false
            },
        }
    }

    fn is_affix(&self, c: char, from: &Layout, alternatives: &Vec<&str>) -> (r: bool)
        requires
            from.wf(),
        ensures
            r == affix(c, from@, config::slice_views(alternatives@)),
    {
        !c.is_alphabetic() && !self.is_letter_capable(c, from, alternatives)
    }

    fn has_affix(&self, chars: &Vec<char>, from: &Layout, alternatives: &Vec<&str>) -> (r: bool)
        requires
            from.wf(),
        ensures
            r == exists|i: int|
                0 <= i < chars@.len() && affix(
                    #[trigger] chars@[i],
                    from@,
                    config::slice_views(alternatives@),
                ),
    {
        let mut i: usize = 0;
        while i < chars.len()
            invariant
                from.wf(),
                i <= chars@.len(),
                forall|k: int|
                    0 <= k < i ==> !affix(
                        #[trigger] chars@[k],
                        from@,
                        config::slice_views(alternatives@),
                    ),
            decreases chars@.len() - i,
        {
            if self.is_affix(text::nth(chars, i), from, alternatives) {
                assert(affix(chars@[i as int], from@, config::slice_views(alternatives@)));
                return true;
            }
            i += 1;
        }
        false
    }

    /// Cheap reasons to leave a word alone.
    ///
    /// A word typed on the wrong layout is full of punctuation, since letters of
    /// one layout stand on the punctuation keys of another. So a character that
    /// is no letter is tolerated where its key contributes to a letter on some
    /// layout in use.
    fn prefilter(&self, word: &str, from: &Layout) -> (r: Option<Skip>)
        requires
            from.wf(),
        ensures
            r == self@.prefilter(word@, from.def@),
    {
        let chars: Vec<char> = text::chars_of(word);
        if chars.len() < self.config.min_word_len {
            return Some(Skip::TooShort);
        }
        if has_wordless(&chars) {
            return Some(Skip::NotAWord);
        }
        if has_structural(&chars) {
            return Some(Skip::NotAWord);
        }
        if count_of(&chars, '/') > MAX_SLASHES {
            return Some(Skip::NotAWord);
        }
        let alternatives: Vec<&str> = self.config.alternatives(from.def.id);
        if self.has_affix(&chars, from, &alternatives) {
            return Some(Skip::NotAWord);
        }
        if self.config.skip_all_caps && chars.len() > 1 && is_capitals(&chars) {
            return Some(Skip::AllCaps);
        }
        if self.config.is_exception(word) {
            return Some(Skip::UserException);
        }
        None
    }

    /// The reading of a word on another layout, if it comes into question.
    fn read(&self, word: &str, from: &Layout, source: &Model, alternative: &str) -> (r: Option<
        Candidate,
    >)
        requires
            from.wf(),
            self@.models.contains_key(from.def@.lang),
            source@ == self@.models[from.def@.lang],
        ensures
            match r {
                Some(c) => self@.reading(word@, from.def@, alternative@) == Some(c@),
                None => self@.reading(word@, from.def@, alternative@) is None,
            },
    {
        let to: Layout = match layout::layout(alternative) {
            Some(to) => to,
            None => {
                return None;
            },
        };
        let target: &Model = match self.models.get(to.def.lang) {
            Some(target) => target,
            None => {
                return None;
            },
        };
        let converted: String = layout::convert(word, from, &to);
        if text::same(converted.as_str(), word) {
            return None;
        }
        // What the layout cannot type would be mangled, not fixed.
        if to.coverage(converted.as_str()).less_than(Single { bits: MIN_COVERAGE }) {
            return None;
        }
        // A mistyped word becomes letters throughout, whatever punctuation the
        // wrong layout put into it.
        if !text::is_all_alphabetic(converted.as_str()) {
            return None;
        }
        let score_as_typed: Single = source.score(word);
        let score_converted: Single = target.score(converted.as_str());
        let target_knows_word: bool = target.knows(model::normalize(converted.as_str()).as_str());
        let source_knows_word: bool = source.knows(model::normalize(word).as_str());
        Some(
            Candidate {
                to_layout: to.def.id,
                converted,
                score_as_typed,
                score_converted,
                delta: score_converted.minus(score_as_typed),
                target_knows_word,
                source_knows_word,
            },
        )
    }

    /// How much better a reading must be to replace the word.
    fn required(&self, word: &str, from: &Layout, source: &Model, best: &Candidate) -> (r: Single)
        requires
            source@ == self@.models[from.def@.lang],
        ensures
            r == self@.required(word@, from.def@, best@),
    {
        let sensitivity = self.config.sensitivity;
        let surcharge: Single = sensitivity.known_word_surcharge();
        let known: Single = match source.word_logp(model::normalize(word).as_str()) {
            Some(logp) => if logp.at_least(Single { bits: COMMON_WORD_FLOOR }) {
                surcharge
            } else {
                surcharge.times(Single { bits: RARE_WORD_PROTECTION })
            },
            None => Single { bits: 0 },
        };
        let mut required: Single = sensitivity.threshold().plus(known);
        if !best.target_knows_word {
            required = required.plus(sensitivity.unknown_target_surcharge());
        }
        let to_latin: bool = match layout::layout(best.to_layout) {
            Some(to) => to.def.latin_overlap,
            None => false,
        };
        if from.def.latin_overlap && to_latin {
            required = required.plus(Single { bits: LATIN_PAIR_SURCHARGE });
        }
        required
    }

    /// What is to be done about `word`, typed with layout `active` in use.
    pub fn evaluate(&self, word: &str, active: &str) -> (r: Verdict)
        ensures
            r@ == self@.opinion(word@, active@),
    {
        if !self.config.enabled {
            return Verdict::Keep(Skip::Disabled);
        }
        let from: Layout = match layout::layout(active) {
            Some(from) => from,
            None => {
                return Verdict::Keep(Skip::ModelMissing);
            },
        };
        if let Some(skip) = self.prefilter(word, &from) {
            return Verdict::Keep(skip);
        }
        let source: &Model = match self.models.get(from.def.lang) {
            Some(source) => source,
            None => {
                return Verdict::Keep(Skip::ModelMissing);
            },
        };
        let alternatives: Vec<&str> = self.config.alternatives(active);
        let ghost alts = config::slice_views(alternatives@);
        if alternatives.len() == 0 {
            assert(self@.choices.alternatives(active@).len() == 0);
            return Verdict::Keep(Skip::NoAlternatives);
        }
        let mut best: Option<Candidate> = None;
        let mut i: usize = 0;
        while i < alternatives.len()
            invariant
                from.wf(),
                self@.models.contains_key(from.def@.lang),
                source@ == self@.models[from.def@.lang],
                i <= alternatives@.len(),
                alts == config::slice_views(alternatives@),
                match best {
                    Some(b) => self@.best_reading(word@, from.def@, alts.take(i as int)) == Some(
                        b@,
                    ),
                    None => self@.best_reading(word@, from.def@, alts.take(i as int)) is None,
                },
            decreases alternatives@.len() - i,
        {
            assert(alts.take(i + 1).drop_last() =~= alts.take(i as int));
            assert(alts.take(i + 1).last() == alternatives@[i as int]@);
            if let Some(c) = self.read(word, &from, source, alternatives[i]) {
                let replaces: bool = match &best {
                    Some(b) => b.delta.less_than(c.delta),
                    None => true,
                };
                if replaces {
                    best = Some(c);
                }
            }
            i += 1;
        }
        assert(alts.take(alts.len() as int) =~= alts);
        let best: Candidate = match best {
            Some(best) => best,
            None => {
                return Verdict::Keep(Skip::Unconvertible);
            },
        };
        let required: Single = self.required(word, &from, source, &best);
        if word.unicode_len() < self.config.require_dict_below_len && !best.target_knows_word {
            return Verdict::Keep(Skip::TooShort);
        }
        if best.delta.at_least(required) {
            Verdict::Switch(Box::new(best))
        } else if best.delta.at_least(required.minus(Single { bits: AMBIGUOUS_BAND })) {
            Verdict::Ambiguous(Box::new(best))
        } else {
            Verdict::Keep(Skip::NotConfident)
        }
    }

    /// Splits what was typed into punctuation that no layout in use turns into
    /// letters, the word proper, and such punctuation again.
    pub fn trim_affixes<'a>(&self, token: &'a str, active: &str) -> (r: (&'a str, &'a str, &'a str))
        ensures
            ({
                let (start, end) = self@.middle(token@, active@);
                &&& 0 <= start <= end <= token@.len()
                &&& r.0@ == token@.take(start)
                &&& r.1@ == token@.subrange(start, end)
                &&& r.2@ == token@.skip(end)
            }),
    {
        let len: usize = token.unicode_len();
        let (start, end): (usize, usize) = match layout::layout(active) {
            None => (0, len),
            Some(from) => {
                let chars: Vec<char> = text::chars_of(token);
                let alternatives: Vec<&str> = self.config.alternatives(active);
                let ghost alts = config::slice_views(alternatives@);
                let mut start: usize = 0;
                while start < len && self.is_affix(text::nth(&chars, start), &from, &alternatives)
                    invariant
                        from.wf(),
                        chars@ == token@,
                        len == token@.len(),
                        start <= len,
                        alts == config::slice_views(alternatives@),
                        core_start(token@, from@, alts, 0) == core_start(
                            token@,
                            from@,
                            alts,
                            start as int,
                        ),
                        forall|k: int| 0 <= k < start ==> affix(#[trigger] token@[k], from@, alts),
                    decreases len - start,
                {
                    start += 1;
                }
                let mut end: usize = len;
                while end > 0 && self.is_affix(text::nth(&chars, end - 1), &from, &alternatives)
                    invariant
                        from.wf(),
                        chars@ == token@,
                        len == token@.len(),
                        end <= len,
                        start <= len,
                        start < len ==> !affix(token@[start as int], from@, alts) && start < end,
                        alts == config::slice_views(alternatives@),
                        core_end(token@, from@, alts, len as int, start as int) == core_end(
                            token@,
                            from@,
                            alts,
                            end as int,
                            start as int,
                        ),
                    decreases end,
                {
                    end -= 1;
                }
                if end == 0 {
                    end = start;
                }
                (start, end)
            },
        };
        assert((start as int, end as int) == self@.middle(token@, active@));
        (token.substring_char(0, start), token.substring_char(start, end), token.substring_char(
            end,
            len,
        ))
    }

    /// Converts a text between two layouts, past every guard.
    pub fn force_convert(&self, word: &str, from: &str, to: &str) -> (r: Option<String>)
        ensures
            match r {
                Some(s) => layout::converted_by_id(word@, from@, to@) == Some(s@),
                None => layout::converted_by_id(word@, from@, to@) is None,
            },
    {
        layout::convert_by_id(word, from, to)
    }

    /// The layout that a text was most likely meant for.
    pub fn best_target(&self, text: &str, active: &str) -> (r: Option<&'static str>)
        ensures
            match r {
                Some(id) => self@.target(text@, active@) == Some(id@),
                None => self@.target(text@, active@) is None,
            },
    {
        let from: Layout = match layout::layout(active) {
            Some(from) => from,
            None => {
                return None;
            },
        };
        let alternatives: Vec<&str> = self.config.alternatives(active);
        let ghost alts = config::slice_views(alternatives@);
        let mut best: Option<(&'static str, Single)> = None;
        let mut i: usize = 0;
        while i < alternatives.len()
            invariant
                from.wf(),
                layout::board_for(active@) == Some(from@),
                i <= alternatives@.len(),
                alts == config::slice_views(alternatives@),
                alts == self@.choices.alternatives(active@),
                self@.all_scored(alts.take(i as int)),
                match best {
                    Some((id, score)) => self@.best_layout(
                        text@,
                        from@,
                        alts.take(i as int),
                    ) == Some((id@, score)),
                    None => self@.best_layout(text@, from@, alts.take(i as int)) is None,
                },
            decreases alternatives@.len() - i,
        {
            assert(alts.take(i + 1).drop_last() =~= alts.take(i as int));
            assert(alts.take(i + 1).last() == alternatives@[i as int]@);
            assert(alts[i as int] == alternatives@[i as int]@);
            let to: Layout = match layout::layout(alternatives[i]) {
                Some(to) => to,
                None => {
                    return None;
                },
            };
            let model: &Model = match self.models.get(to.def.lang) {
                Some(model) => model,
                None => {
                    return None;
                },
            };
            assert forall|k: int| 0 <= k < i + 1 implies (layout::def_for(
                #[trigger] alts.take(i + 1)[k],
            ) matches Some(to) && self@.models.contains_key(to.lang)) by {
                if k < i {
                    assert(alts.take(i as int)[k] == alts.take(i + 1)[k]);
                }
            }
            let converted: String = layout::convert(text, &from, &to);
            let score: Single = model.score(converted.as_str());
            let replaces: bool = match best {
                Some((_, b)) => b.less_than(score),
                None => true,
            };
            if replaces {
                best = Some((to.def.id, score));
            }
            i += 1;
        }
        assert(alts.take(alts.len() as int) =~= alts);
        match best {
            Some((id, _)) => Some(id),
            None => None,
        }
    }
}

/// The best of the readings is one of them.
pub proof fn lemma_best_reading(
    judge: Judge,
    word: Seq<char>,
    from: Def,
    alternatives: Seq<Seq<char>>,
)
    ensures
        judge.best_reading(word, from, alternatives) matches Some(r) ==> exists|i: int|
            0 <= i < alternatives.len() && judge.reading(word, from, #[trigger] alternatives[i])
                == Some(r),
    decreases alternatives.len(),
{
    if alternatives.len() > 0 {
        let before = alternatives.drop_last();
        lemma_best_reading(judge, word, from, before);
        match judge.best_reading(word, from, alternatives) {
            Some(r) => {
                if judge.best_reading(word, from, before) == Some(r) {
                    let i = choose|i: int|
                        0 <= i < before.len() && judge.reading(word, from, #[trigger] before[i])
                            == Some(r);
                    assert(alternatives[i] == before[i]);
                } else {
                    assert(judge.reading(word, from, alternatives[alternatives.len() - 1]) == Some(
                        r,
                    ));
                }
            },
            None => {},
        }
    }
}

/// What is among the others is none but one of the texts, and not the one left out.
pub proof fn lemma_others(texts: Seq<Seq<char>>, but: Seq<char>, i: int)
    requires
        0 <= i < config::others(texts, but).len(),
    ensures
        config::others(texts, but)[i] != but,
        texts.contains(config::others(texts, but)[i]),
    decreases texts.len(),
{
    let before = texts.drop_last();
    if i < config::others(before, but).len() {
        lemma_others(before, but, i);
        let k = before.index_of(config::others(before, but)[i]);
        assert(texts[k] == before[k]);
    } else {
        assert(texts[texts.len() - 1] == config::others(texts, but)[i]);
    }
}

/// Whatever comes into question in place of a word is its reading on another of
/// the user's layouts and consists of letters; the word is no exception, no
/// acronym, not too short, and holds no digits, no white space and no structure;
/// and in place of a short word only a known one comes into question.
pub proof fn lemma_readings_are_safe(judge: Judge, word: Seq<char>, active: Seq<char>)
    requires
        judge.opinion(word, active).reading() is Some,
    ensures
        ({
            let r = judge.opinion(word, active).reading()->0;
            &&& judge.choices.enabled
            &&& judge.choices.layouts.contains(r.to_layout)
            &&& r.to_layout != active
            &&& layout::converted_by_id(word, active, r.to_layout) == Some(r.converted)
            &&& r.converted != word
            &&& text::all_alphabetic(r.converted)
            &&& !judge.choices.excepts(word)
            &&& word.len() >= judge.choices.min_word_len
            &&& word.len() < judge.choices.require_dict_below_len ==> r.target_knows_word
            &&& judge.choices.skip_all_caps && word.len() > 1 ==> !capitals(word)
            &&& forall|i: int|
                0 <= i < word.len() ==> !wordless(#[trigger] word[i]) && !structural(word[i])
        }),
{
    let from = layout::def_for(active)->0;
    let alternatives = judge.choices.alternatives(active);
    lemma_def_for(active);
    assert(from.id == active);
    let r = judge.best_reading(word, from, alternatives)->0;
    lemma_best_reading(judge, word, from, alternatives);
    let i = choose|i: int|
        0 <= i < alternatives.len() && judge.reading(word, from, #[trigger] alternatives[i])
            == Some(r);
    lemma_others(judge.choices.layouts, active, i);
    lemma_def_for(alternatives[i]);
    assert(judge.prefilter(word, from) is None);
}

/// What comes into question in place of a word is on one of the layouts other
/// than the one in use.
pub proof fn lemma_reading_layout(judge: Judge, word: Seq<char>, active: Seq<char>)
    requires
        judge.opinion(word, active).reading() is Some,
    ensures
        judge.choices.alternatives(active).contains(
            judge.opinion(word, active).reading()->0.to_layout,
        ),
{
    let from = layout::def_for(active)->0;
    let alternatives = judge.choices.alternatives(active);
    let r = judge.best_reading(word, from, alternatives)->0;
    lemma_best_reading(judge, word, from, alternatives);
    let i = choose|i: int|
        0 <= i < alternatives.len() && judge.reading(word, from, #[trigger] alternatives[i])
            == Some(r);
    lemma_def_for(alternatives[i]);
}

/// A word that is replaced outright meets the threshold.
pub proof fn lemma_switch_meets_threshold(judge: Judge, word: Seq<char>, active: Seq<char>)
    requires
        judge.opinion(word, active) is Switch,
    ensures
        ({
            let r = judge.opinion(word, active)->Switch_0;
            r.delta.is_at_least(judge.required(word, layout::def_for(active)->0, r))
        }),
{
}

/// An exception is never touched, in whatever case it is typed.
pub proof fn lemma_exceptions_are_kept(judge: Judge, word: Seq<char>, active: Seq<char>)
    requires
        judge.choices.excepts(word),
    ensures
        judge.opinion(word, active) is Keep,
{
}

/// Where there is no word, there is nothing to correct.
pub proof fn lemma_nothing_is_kept(judge: Judge, active: Seq<char>)
    ensures
        judge.opinion(Seq::empty(), active) is Keep,
{
    let word = Seq::<char>::empty();
    if judge.opinion(word, active).reading() is Some {
        let from = layout::def_for(active)->0;
        let alternatives = judge.choices.alternatives(active);
        lemma_best_reading(judge, word, from, alternatives);
        let i = choose|i: int|
            0 <= i < alternatives.len() && judge.reading(word, from, #[trigger] alternatives[i])
                is Some;
        let to = layout::def_for(alternatives[i])->0;
        assert(layout::strokes(layout::board_of(from), word) =~= Seq::empty());
        assert(layout::converted(word, layout::board_of(from), layout::board_of(to)) =~= word);
    }
}

proof fn lemma_core_bounds(
    s: Seq<char>,
    from: Board,
    alternatives: Seq<Seq<char>>,
    i: int,
)
    requires
        0 <= i <= s.len(),
    ensures
        i <= core_start(s, from, alternatives, i) <= s.len(),
        core_start(s, from, alternatives, i) < s.len() ==> !affix(
            s[core_start(s, from, alternatives, i)],
            from,
            alternatives,
        ),
        forall|k: int|
            i <= k < core_start(s, from, alternatives, i) ==> affix(
                #[trigger] s[k],
                from,
                alternatives,
            ),
    decreases s.len() - i,
{
    if i < s.len() && affix(s[i], from, alternatives) {
        lemma_core_bounds(s, from, alternatives, i + 1);
    }
}

proof fn lemma_core_end(
    s: Seq<char>,
    from: Board,
    alternatives: Seq<Seq<char>>,
    n: int,
    start: int,
)
    requires
        0 <= n <= s.len(),
        0 <= start <= s.len(),
        start < s.len() ==> start < n && !affix(s[start], from, alternatives),
        start == s.len() ==> forall|k: int|
            0 <= k < s.len() ==> affix(#[trigger] s[k], from, alternatives),
    ensures
        start <= core_end(s, from, alternatives, n, start) <= s.len(),
        start < s.len() ==> start < core_end(s, from, alternatives, n, start) && !affix(
            s[core_end(s, from, alternatives, n, start) - 1],
            from,
            alternatives,
        ),
        core_end(s, from, alternatives, n, start) <= n || n == 0 || start == s.len(),
        forall|k: int|
            core_end(s, from, alternatives, n, start) <= k < n ==> affix(
                #[trigger] s[k],
                from,
                alternatives,
            ),
    decreases n,
{
    if n > 0 && affix(s[n - 1], from, alternatives) {
        lemma_core_end(s, from, alternatives, n - 1, start);
    }
}

/// What is trimmed off a word and the word proper make up what was typed; only
/// punctuation that is no letter anywhere is trimmed off, and nothing of it is
/// left at the ends.
pub proof fn lemma_trimming(judge: Judge, token: Seq<char>, active: Seq<char>)
    ensures
        ({
            let (start, end) = judge.middle(token, active);
            &&& 0 <= start <= end <= token.len()
            &&& token.take(start) + token.subrange(start, end) + token.skip(end) == token
            &&& layout::board_for(active) matches Some(from) ==> {
                let alternatives = judge.choices.alternatives(active);
                &&& forall|k: int|
                    0 <= k < start || end <= k < token.len() ==> affix(
                        #[trigger] token[k],
                        from,
                        alternatives,
                    )
                &&& start < end ==> !affix(token[start], from, alternatives) && !affix(
                    token[end - 1],
                    from,
                    alternatives,
                )
            }
        }),
{
    let (start, end) = judge.middle(token, active);
    match layout::board_for(active) {
        Some(from) => {
            let alternatives = judge.choices.alternatives(active);
            lemma_core_bounds(token, from, alternatives, 0);
            lemma_core_end(token, from, alternatives, token.len() as int, start);
        },
        None => {},
    }
    assert(token.take(start) + token.subrange(start, end) + token.skip(end) =~= token);
}

/// How eager a sensitivity is.
pub open spec fn eagerness(s: Sensitivity) -> int {
    match s {
        Sensitivity::Cautious => 0,
        Sensitivity::Balanced => 1,
        Sensitivity::Eager => 2,
    }
}

/// What a detector judges by with another sensitivity.
pub open spec fn with_sensitivity(judge: Judge, sensitivity: Sensitivity) -> Judge {
    Judge { choices: Choices { sensitivity, ..judge.choices }, ..judge }
}

proof fn lemma_reading_ignores_sensitivity(
    judge: Judge,
    sensitivity: Sensitivity,
    word: Seq<char>,
    from: Def,
    alternatives: Seq<Seq<char>>,
)
    ensures
        with_sensitivity(judge, sensitivity).best_reading(word, from, alternatives)
            == judge.best_reading(word, from, alternatives),
    decreases alternatives.len(),
{
    if alternatives.len() > 0 {
        lemma_reading_ignores_sensitivity(
            judge,
            sensitivity,
            word,
            from,
            alternatives.drop_last(),
        );
    }
}

proof fn lemma_demands_shrink(
    judge: Judge,
    sensitivity: Sensitivity,
    word: Seq<char>,
    from: Def,
    best: Reading,
)
    requires
        eagerness(judge.choices.sensitivity) <= eagerness(sensitivity),
    ensures
        judge.required(word, from, best).is_at_least(
            with_sensitivity(judge, sensitivity).required(word, from, best),
        ),
{
    let strict = judge.choices.sensitivity;
    let eager = sensitivity;
    let rare = Single { bits: RARE_WORD_PROTECTION };
    single::lemma_products_grow(eager.known_word_margin(), strict.known_word_margin(), rare);
    let logp = judge.models[from.lang].word(text::lowercase(word));
    let (low, high) = match logp {
        Some(logp) => if logp.is_at_least(Single { bits: COMMON_WORD_FLOOR }) {
            (eager.known_word_margin(), strict.known_word_margin())
        } else {
            (eager.known_word_margin().product(rare), strict.known_word_margin().product(rare))
        },
        None => (Single { bits: 0 }, Single { bits: 0 }),
    };
    single::lemma_sums_grow(eager.margin(), low, strict.margin(), high);
    let (low, high) = (eager.margin().sum(low), strict.margin().sum(high));
    single::lemma_sums_grow(
        low,
        eager.unknown_target_margin(),
        high,
        strict.unknown_target_margin(),
    );
    let (low, high) = if best.target_knows_word {
        (low, high)
    } else {
        (low.sum(eager.unknown_target_margin()), high.sum(strict.unknown_target_margin()))
    };
    let latin = Single { bits: LATIN_PAIR_SURCHARGE };
    single::lemma_sums_grow(low, latin, high, latin);
}

/// A more eager sensitivity is never stricter: what is replaced with one
/// sensitivity is replaced by the same reading with every more eager one.
pub proof fn lemma_more_eager_is_never_stricter(
    judge: Judge,
    sensitivity: Sensitivity,
    word: Seq<char>,
    active: Seq<char>,
)
    requires
        eagerness(judge.choices.sensitivity) <= eagerness(sensitivity),
        judge.opinion(word, active) is Switch,
    ensures
        with_sensitivity(judge, sensitivity).opinion(word, active) == judge.opinion(word, active),
{
    let from = layout::def_for(active)->0;
    let eager = with_sensitivity(judge, sensitivity);
    let alternatives = judge.choices.alternatives(active);
    assert(eager.choices.alternatives(active) == alternatives);
    assert(eager.choices.excepts(word) == judge.choices.excepts(word));
    assert(eager.choices.alternatives(from.id) == judge.choices.alternatives(from.id));
    assert(eager.prefilter(word, from) == judge.prefilter(word, from));
    lemma_reading_ignores_sensitivity(judge, sensitivity, word, from, alternatives);
    lemma_demands_shrink(
        judge,
        sensitivity,
        word,
        from,
        judge.best_reading(word, from, alternatives)->0,
    );
}

} // verus!
