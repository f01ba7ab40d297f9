//! Keystrokes as they arrive, and edits as they are sent.

use crate::layout::KeyPress;
use crate::text;
use vstd::prelude::*;

verus! {

/// The kinds of keys.
#[derive(Debug, Clone, Copy, PartialEq, Eq, Structural)]
pub enum Key {
    /// A key that types a character.
    Character,
    Backspace,
    Space,
    Tab,
    Enter,
    Escape,
    /// A key that moves the caret.
    Navigation,
    /// A modifier was pressed or released.
    ModifiersChanged,
    Other,
}

/// The modifiers that are held.
#[derive(Debug, Clone, Copy, PartialEq, Eq, Structural)]
pub struct Modifiers {
    pub shift: bool,
    pub control: bool,
    pub alt: bool,
    pub meta: bool,
}

impl Modifiers {
    /// Whether a chord with these modifiers is a command rather than text.
    pub open spec fn command(self) -> bool {
        self.control || self.meta
    }

    pub fn is_shortcut(&self) -> (r: bool)
        ensures
            r == self.command(),
    {
        self.control || self.meta
    }
}

impl Default for Modifiers {
    /// No modifier is held.
    fn default() -> (r: Modifiers)
        ensures
            r == (Modifiers { shift: false, control: false, alt: false, meta: false }),
    {
        Modifiers { shift: false, control: false, alt: false, meta: false }
    }
}

/// One keystroke.
#[derive(Debug, Clone, Copy, PartialEq, Eq, Structural)]
pub struct KeyEvent {
    /// What it typed.
    pub character: Option<char>,
    pub key: Key,
    pub modifiers: Modifiers,
    /// Whether the application sent it itself.
    pub synthetic: bool,
}

/// Where a keystroke goes.
#[derive(Debug, Clone)]
pub struct Context {
    /// The application in front, if it is known.
    pub app: Option<String>,
    /// The layout in use, if it is known.
    pub layout: Option<String>,
    /// Whether a password field has taken over the keyboard.
    pub secure_input: bool,
}

/// What a [`Context`] says.
#[verifier::ext_equal]
pub struct Surroundings {
    pub app: Option<Seq<char>>,
    pub layout: Option<Seq<char>>,
    pub secure_input: bool,
}

impl View for Context {
    type V = Surroundings;

    open spec fn view(&self) -> Surroundings {
        Surroundings {
            app: text::optional(self.app),
            layout: text::optional(self.layout),
            secure_input: self.secure_input,
        }
    }
}

impl Default for Context {
    /// Nothing is known.
    fn default() -> (r: Context)
        ensures
            r@ == (Surroundings { app: None, layout: None, secure_input: false }),
    {
        Context { app: None, layout: None, secure_input: false }
    }
}

/// One edit sent to the document.
pub enum Edit {
    /// So many characters before the caret are deleted.
    Backspace(nat),
    /// A text is typed.
    Type(Seq<char>),
    /// Keys are pressed.
    Keys(Seq<KeyPress>),
}

/// Something that edits the document under the caret.
pub trait TextWriter {
    /// The edits sent so far, as each writer tells them.
    open spec fn sent(&self) -> Seq<Edit> {
        Seq::empty()
    }

    /// Whether the writer can press these keys. That depends on the keys alone, so
    /// nothing that is sent changes it.
    open spec fn can_press(&self, presses: Seq<KeyPress>) -> bool {
        false
    }

    /// Deletes `count` characters before the caret.
    fn backspace(&mut self, count: usize)
        ensures
            final(self).sent() == old(self).sent().push(Edit::Backspace(count as nat)),
            forall|presses: Seq<KeyPress>| #[trigger]
                final(self).can_press(presses) == old(self).can_press(presses),
    ;

    /// Types a text.
    fn type_text(&mut self, text: &str)
        ensures
            final(self).sent() == old(self).sent().push(Edit::Type(text@)),
    ;

    /// Presses these keys, where the writer can do so.
    fn type_keys(&mut self, presses: &Vec<KeyPress>) -> (r: bool)
        ensures
            r == old(self).can_press(presses@),
            r ==> final(self).sent() == old(self).sent().push(Edit::Keys(presses@)),
            !r ==> final(self).sent() == old(self).sent(),
    ;

    /// Deletes `delete` characters and types a text in their place.
    fn replace(&mut self, delete: usize, text: &str)
        ensures
            final(self).sent() == old(self).sent().push(Edit::Backspace(delete as nat)).push(
                Edit::Type(text@),
            ),
    {
        self.backspace(delete);
        self.type_text(text);
    }
}

} // verus!
