//! The seam between the engine and a second opinion.
//!
//! The engine settles almost everything on its own. What it cannot settle are
//! words just below the threshold, plausible in both readings. The application
//! may supply something to ask about those.

use crate::text;
use vstd::prelude::*;

verus! {

/// A second opinion on words that the models find ambiguous.
///
/// The engine asks while a key is being handled, so that nothing here may wait:
/// [`Assist::cached`] answers from memory or not at all, and
/// [`Assist::enqueue`] hands the question on, so that there is an answer the next
/// time the word is typed.
pub trait Assist: Send + Sync {
    /// What is known of this pair: `true` to convert, `false` to keep.
    fn cached(&self, typed: &str, alternative: &str) -> Option<bool>;

    /// Asks about this pair in the background.
    fn enqueue(&self, question: Question);

    /// How many answers are known. One that does not count them says none.
    fn learned(&self) -> (r: usize)
        default_ensures
            r == 0,
    {
        0
    }
}

/// Whether an assist, asked what it knows of this pair, may give this answer.
pub open spec fn answers<A: Assist + ?Sized>(
    assist: &A,
    typed: Seq<char>,
    alternative: Seq<char>,
    answer: Option<bool>,
) -> bool {
    exists|t: &str, a: &str|
        t@ == typed && a@ == alternative && #[trigger] call_ensures(
            A::cached,
            (assist, t, a),
            answer,
        )
}

/// What an assist knows of this pair.
pub(crate) fn answer<A: Assist + ?Sized>(assist: &A, typed: &str, alternative: &str) -> (r: Option<bool>)
    ensures
        answers(assist, typed@, alternative@, r),
{
    assist.cached(typed, alternative)
}

/// Whether an assist takes a question that says this.
pub open spec fn handed<A: Assist + ?Sized>(assist: &A, doubt: Doubt) -> bool {
    exists|q: Question| q@ == doubt && #[trigger] call_ensures(A::enqueue, (assist, q), ())
}

/// Hands a question to an assist.
pub(crate) fn hand<A: Assist + ?Sized>(assist: &A, question: Question)
    ensures
        handed(assist, question@),
{
    assist.enqueue(question)
}

/// Whether an assist may say that it knows so many answers.
pub open spec fn counts<A: Assist + ?Sized>(assist: &A, n: usize) -> bool {
    call_ensures(A::learned, (assist,), n)
}

/// How many answers an assist says it knows.
pub(crate) fn count<A: Assist + ?Sized>(assist: &A) -> (r: usize)
    ensures
        counts(assist, r),
{
    assist.learned()
}

/// An ambiguous word in both readings.
#[derive(Debug, Clone, Eq)]
pub struct Question {
    pub typed: String,
    pub alternative: String,
    pub typed_language: String,
    pub alternative_language: String,
}

/// What a [`Question`] says.
#[verifier::ext_equal]
pub struct Doubt {
    pub typed: Seq<char>,
    pub alternative: Seq<char>,
    pub typed_language: Seq<char>,
    pub alternative_language: Seq<char>,
}

impl PartialEq for Question {
    fn eq(&self, other: &Question) -> (r: bool) {
        text::same(self.typed.as_str(), other.typed.as_str()) && text::same(
            self.alternative.as_str(),
            other.alternative.as_str(),
        ) && text::same(self.typed_language.as_str(), other.typed_language.as_str()) && text::same(
            self.alternative_language.as_str(),
            other.alternative_language.as_str(),
        )
    }
}

impl vstd::std_specs::cmp::PartialEqSpecImpl for Question {
    open spec fn obeys_eq_spec() -> bool {
        true
    }

    open spec fn eq_spec(&self, other: &Question) -> bool {
        self@ == other@
    }
}

impl View for Question {
    type V = Doubt;

    open spec fn view(&self) -> Doubt {
        Doubt {
            typed: self.typed@,
            alternative: self.alternative@,
            typed_language: self.typed_language@,
            alternative_language: self.alternative_language@,
        }
    }
}

} // verus!
