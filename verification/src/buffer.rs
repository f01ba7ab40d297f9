//! The word that is being typed.
//!
//! Every keystroke is fed to the buffer, which says when a word has ended. What
//! could mean that the caret has moved throws the word away: text that is
//! replaced at a stale position damages the document.

use crate::text;
use vstd::prelude::*;
use vstd::string::StrSliceExecFns;

verus! {

/// What the user did, as far as the buffer is concerned.
#[derive(Debug, Clone, Copy, PartialEq, Eq, Structural)]
pub enum Input {
    /// A printable character was typed.
    Char(char),
    Backspace,
    /// A space, tab or line break ended a word.
    Boundary(char),
    /// The caret may have moved.
    Reset,
}

/// A word that has just ended.
#[derive(Debug, Clone)]
pub struct Word {
    /// The word without what ended it.
    pub text: String,
    /// What ended it, unless it was taken before it ended.
    pub terminator: Option<char>,
}

/// What a [`Word`] says.
#[verifier::ext_equal]
pub struct Ended {
    pub text: Seq<char>,
    pub terminator: Option<char>,
}

impl View for Word {
    type V = Ended;

    open spec fn view(&self) -> Ended {
        Ended { text: self.text@, terminator: self.terminator }
    }
}

/// What an optional [`Word`] says.
pub open spec fn ended_word(word: Option<Word>) -> Option<Ended> {
    match word {
        Some(word) => Some(word@),
        None => None,
    }
}

impl PartialEq for Word {
    fn eq(&self, other: &Word) -> (r: bool) {
        self.text == other.text && self.terminator == other.terminator
    }
}

impl vstd::std_specs::cmp::PartialEqSpecImpl for Word {
    open spec fn obeys_eq_spec() -> bool {
        true
    }

    open spec fn eq_spec(&self, other: &Word) -> bool {
        self@ == other@
    }
}

impl Word {
    /// How many characters are deleted to remove the word and what ended it.
    pub fn chars_to_delete(&self) -> (r: usize)
        ensures
            r == text::span(self@.text, self@.terminator),
    {
        text::span_of(self.text.as_str(), self.terminator)
    }
}

/// The longest word that is tracked.
pub const MAX_WORD: usize = 64;

/// The word being typed.
#[derive(Debug)]
pub struct Buffer {
    pub current: String,
    /// Whether the position is no longer trusted, until the next boundary.
    pub poisoned: bool,
}

/// What a [`Buffer`] says.
#[verifier::ext_equal]
pub struct Behind {
    pub current: Seq<char>,
    pub poisoned: bool,
}

impl View for Buffer {
    type V = Behind;

    open spec fn view(&self) -> Behind {
        Behind { current: self.current@, poisoned: self.poisoned }
    }
}

impl Behind {
    pub open spec fn empty() -> Behind {
        Behind { current: Seq::empty(), poisoned: false }
    }

    /// The state after an input.
    pub open spec fn next(self, input: Input) -> Behind {
        match input {
            Input::Char(c) => Behind {
                current: self.current.push(c),
                poisoned: self.poisoned || self.current.len() >= MAX_WORD,
            },
            Input::Backspace => if self.current.len() == 0 {
                Behind { current: self.current, poisoned: true }
            } else {
                Behind { current: self.current.drop_last(), poisoned: self.poisoned }
            },
            Input::Boundary(_) => Behind::empty(),
            Input::Reset => Behind::empty(),
        }
    }

    /// The word that an input ends.
    pub open spec fn word(self, input: Input) -> Option<Ended> {
        match input {
            Input::Boundary(c) => if self.poisoned || self.current.len() == 0 {
                None
            } else {
                Some(Ended { text: self.current, terminator: Some(c) })
            },
            _ => None,
        }
    }

    /// The word that can be taken before it has ended.
    pub open spec fn unfinished(self) -> Option<Ended> {
        if self.current.len() == 0 || self.poisoned {
            None
        } else {
            Some(Ended { text: self.current, terminator: None })
        }
    }

    /// The state after the unfinished word was taken, if there was one.
    pub open spec fn taken(self) -> Behind {
        if self.unfinished() is Some {
            Behind { current: Seq::empty(), poisoned: self.poisoned }
        } else {
            self
        }
    }

    /// A word that is trusted is not too long.
    pub open spec fn sound(self) -> bool {
        self.poisoned || self.current.len() <= MAX_WORD
    }

    /// The state after these inputs.
    pub open spec fn after(self, inputs: Seq<Input>) -> Behind
        decreases inputs.len(),
    {
        if inputs.len() == 0 {
            self
        } else {
            self.after(inputs.drop_last()).next(inputs.last())
        }
    }
}

/// Whatever is typed, no word longer than [`MAX_WORD`] ever comes out.
pub proof fn lemma_words_are_bounded(inputs: Seq<Input>, input: Input)
    ensures
        Behind::empty().after(inputs).sound(),
        Behind::empty().after(inputs).word(input) matches Some(w) ==> 0 < w.text.len() <= MAX_WORD,
        Behind::empty().after(inputs).unfinished() matches Some(w) ==> 0 < w.text.len()
            <= MAX_WORD,
    decreases inputs.len(),
{
    if inputs.len() > 0 {
        lemma_words_are_bounded(inputs.drop_last(), input);
    }
}

/// After the caret may have moved, nothing typed before matters.
pub proof fn lemma_reset_forgets(a: Behind, b: Behind, inputs: Seq<Input>)
    ensures
        a.next(Input::Reset).after(inputs) == b.next(Input::Reset).after(inputs),
{
}

/// A backspace takes back the last character.
pub proof fn lemma_backspace_takes_back(t: Behind, c: char)
    requires
        t.current.len() < MAX_WORD,
    ensures
        t.next(Input::Char(c)).next(Input::Backspace) == t,
{
    assert(t.current.push(c).drop_last() =~= t.current);
}

proof fn lemma_typed(s: Seq<char>, inputs: Seq<Input>)
    requires
        s.len() == inputs.len() <= MAX_WORD,
        forall|i: int| 0 <= i < s.len() ==> #[trigger] inputs[i] == Input::Char(s[i]),
    ensures
        Behind::empty().after(inputs) == (Behind { current: s, poisoned: false }),
    decreases s.len(),
{
    if s.len() > 0 {
        assert(inputs[s.len() - 1] == Input::Char(s[s.len() - 1]));
        assert forall|i: int| 0 <= i < s.len() - 1 implies #[trigger] inputs.drop_last()[i]
            == Input::Char(s.drop_last()[i]) by {
            assert(inputs[i] == Input::Char(s[i]));
        }
        lemma_typed(s.drop_last(), inputs.drop_last());
        assert(s.drop_last().push(s.last()) =~= s);
    } else {
        assert(s =~= Seq::<char>::empty());
    }
}

/// A word typed from the start comes out as it was typed when a boundary ends it.
pub proof fn lemma_typed_word_comes_out(s: Seq<char>, inputs: Seq<Input>, end: char)
    requires
        0 < s.len() == inputs.len() <= MAX_WORD,
        forall|i: int| 0 <= i < s.len() ==> #[trigger] inputs[i] == Input::Char(s[i]),
    ensures
        Behind::empty().after(inputs).word(Input::Boundary(end)) == Some(
            Ended { text: s, terminator: Some(end) },
        ),
{
    lemma_typed(s, inputs);
}

impl Default for Buffer {
    fn default() -> (r: Buffer)
        ensures
            r@ == Behind::empty(),
    {
        Buffer::new()
    }
}

impl Buffer {
    pub fn new() -> (r: Buffer)
        ensures
            r@ == Behind::empty(),
    {
        let b = Buffer { current: String::new(), poisoned: false };
        assert(b@ =~= Behind::empty());
        b
    }

    pub fn current(&self) -> (r: &str)
        ensures
            r@ == self@.current,
    {
        self.current.as_str()
    }

    pub fn is_empty(&self) -> (r: bool)
        ensures
            r == (self@.current.len() == 0),
    {
        self.current.as_str().unicode_len() == 0
    }

    /// Feeds one input. Gives a word when one has just ended and its position is
    /// trusted.
    pub fn push(&mut self, input: Input) -> (r: Option<Word>)
        ensures
            final(self)@ == old(self)@.next(input),
            ended_word(r) == old(self)@.word(input),
    {
        match input {
            Input::Char(c) => {
                if self.current.as_str().unicode_len() >= MAX_WORD {
                    self.poisoned = true;
                }
                self.current.push(c);
                None
            },
            Input::Backspace => {
                if self.current.pop().is_none() {
                    self.poisoned = true;
                }
                None
            },
            Input::Boundary(c) => {
                let mut word: String = String::new();
                std::mem::swap(&mut word, &mut self.current);
                let was_poisoned: bool = self.poisoned;
                self.poisoned = false;
                assert(self@ =~= Behind::empty());
                if was_poisoned || word.as_str().unicode_len() == 0 {
                    return None;
                }
                Some(Word { text: word, terminator: Some(c) })
            },
            Input::Reset => {
                self.current.clear();
                self.poisoned = false;
                assert(self@ =~= Behind::empty());
                None
            },
        }
    }

    /// Takes the word in progress before it has ended.
    pub fn take_current(&mut self) -> (r: Option<Word>)
        ensures
            final(self)@ == old(self)@.taken(),
            ended_word(r) == old(self)@.unfinished(),
    {
        if self.is_empty() || self.poisoned {
            return None;
        }
        let mut word: String = String::new();
        std::mem::swap(&mut word, &mut self.current);
        assert(self@ =~= old(self)@.taken());
        Some(Word { text: word, terminator: None })
    }
}

/// A correction that can be taken back.
#[derive(Debug, Clone)]
pub struct LastCorrection {
    pub original: String,
    pub corrected: String,
    pub terminator: Option<char>,
}

impl PartialEq for LastCorrection {
    fn eq(&self, other: &LastCorrection) -> (r: bool) {
        text::same(self.original.as_str(), other.original.as_str()) && text::same(
            self.corrected.as_str(),
            other.corrected.as_str(),
        ) && self.terminator == other.terminator
    }
}

impl vstd::std_specs::cmp::PartialEqSpecImpl for LastCorrection {
    open spec fn obeys_eq_spec() -> bool {
        true
    }

    open spec fn eq_spec(&self, other: &LastCorrection) -> bool {
        self.original@ == other.original@ && self.corrected@ == other.corrected@ && self.terminator
            == other.terminator
    }
}

impl LastCorrection {
    /// How many characters are deleted to take the correction back.
    pub fn chars_to_delete(&self) -> (r: usize)
        ensures
            r == text::span(self.corrected@, self.terminator),
    {
        text::span_of(self.corrected.as_str(), self.terminator)
    }

    /// What is typed to restore what the user wrote.
    pub fn restore_text(&self) -> (r: String)
        ensures
            r@ == text::ended(self.original@, self.terminator),
    {
        text::with_terminator(self.original.as_str(), self.terminator)
    }
}

/// Deleting the characters of a correction and typing the text that restores it
/// takes the correction back, whatever stands before it. This is so for every text
/// that fits in memory.
pub proof fn lemma_correction_is_taken_back(c: LastCorrection, before: Seq<char>)
    requires
        c.corrected@.len() < usize::MAX,
    ensures
        ({
            let shown = before + text::ended(c.corrected@, c.terminator);
            let left = shown.take(shown.len() - text::span(c.corrected@, c.terminator));
            left + text::ended(c.original@, c.terminator) == before + text::ended(
                c.original@,
                c.terminator,
            )
        }),
{
    let shown = before + text::ended(c.corrected@, c.terminator);
    let left = shown.take(shown.len() - text::span(c.corrected@, c.terminator));
    assert(left =~= before);
}

} // verus!
