//! A stand-in where there is no keyboard to watch. It records what it was asked
//! to do.

use crate::hook::HookError;
use crate::input::{Context, Edit, KeyEvent, Surroundings, TextWriter};
use crate::layout::KeyPress;
use vstd::prelude::*;

verus! {

/// One edit that was asked for.
#[derive(Debug, Clone)]
pub enum Action {
    Backspace(usize),
    Type(String),
}

impl Action {
    pub open spec fn edit(self) -> Edit {
        match self {
            Action::Backspace(count) => Edit::Backspace(count as nat),
            Action::Type(text) => Edit::Type(text@),
        }
    }
}

impl PartialEq for Action {
    fn eq(&self, other: &Action) -> (r: bool) {
        match self {
            Action::Backspace(count) => match other {
                Action::Backspace(other_count) => *count == *other_count,
                Action::Type(_) => false,
            },
            Action::Type(text) => match other {
                Action::Backspace(_) => false,
                Action::Type(other_text) => crate::text::same(text.as_str(), other_text.as_str()),
            },
        }
    }
}

impl vstd::std_specs::cmp::PartialEqSpecImpl for Action {
    open spec fn obeys_eq_spec() -> bool {
        true
    }

    open spec fn eq_spec(&self, other: &Action) -> bool {
        self.edit() == other.edit()
    }
}

pub open spec fn edits(actions: Seq<Action>) -> Seq<Edit> {
    actions.map_values(|a: Action| a.edit())
}

/// A writer that records.
#[derive(Debug)]
pub struct RecordingInjector {
    pub actions: Vec<Action>,
}

impl Default for RecordingInjector {
    fn default() -> (r: RecordingInjector)
        ensures
            r.sent() == Seq::<Edit>::empty(),
    {
        RecordingInjector::new()
    }
}

impl RecordingInjector {
    pub fn new() -> (r: RecordingInjector)
        ensures
            r.sent() == Seq::<Edit>::empty(),
    {
        let i = RecordingInjector { actions: Vec::new() };
        assert(i.sent() =~= Seq::<Edit>::empty());
        i
    }

    /// Takes what was recorded.
    pub fn taken(&mut self) -> (r: Vec<Action>)
        ensures
            edits(r@) == old(self).sent(),
            final(self).sent() == Seq::<Edit>::empty(),
    {
        let mut out: Vec<Action> = Vec::new();
        std::mem::swap(&mut out, &mut self.actions);
        assert(self.sent() =~= Seq::<Edit>::empty());
        out
    }
}

impl TextWriter for RecordingInjector {
    open spec fn sent(&self) -> Seq<Edit> {
        edits(self.actions@)
    }

    /// There are no keys to press.
    open spec fn can_press(&self, presses: Seq<KeyPress>) -> bool {
        false
    }

    fn backspace(&mut self, count: usize) {
        let ghost was = self.sent();
        self.actions.push(Action::Backspace(count));
        assert(self.sent() =~= was.push(Edit::Backspace(count as nat)));
        assert forall|presses: Seq<KeyPress>| #[trigger]
            self.can_press(presses) == old(self).can_press(presses) by {}
    }

    fn type_text(&mut self, text: &str) {
        let ghost was = self.sent();
        self.actions.push(Action::Type(text.to_owned()));
        assert(self.sent() =~= was.push(Edit::Type(text@)));
    }

    fn type_keys(&mut self, presses: &Vec<KeyPress>) -> (r: bool) {
        false
    }
}

/// Nothing is known of where keystrokes go.
pub fn current_context() -> (r: Context)
    ensures
        r@ == (Surroundings { app: None, layout: None, secure_input: false }),
{
    Context { app: None, layout: None, secure_input: false }
}

pub fn has_permission() -> (r: bool)
    ensures
        !r,
{
    false
}

/// There is no keyboard to switch.
pub fn select_layout(layout_id: &str) -> (r: bool)
    ensures
        !r,
{
    false
}

/// There is nothing to ask for.
pub fn request_permission() {
}

/// There is no keyboard to watch.
pub fn run<F>(on_key: F) -> (r: Result<(), HookError>) where F: FnMut(KeyEvent) + Send + 'static
    ensures
        r is Err,
        r->Err_0.words() == "not supported on this platform: "@
            + "keyboard hooks are available on macOS and Windows"@,
{
    Err(HookError::Unsupported("keyboard hooks are available on macOS and Windows"))
}

} // verus!
