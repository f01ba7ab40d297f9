//! What each platform calls its keys and layouts.

pub mod macos;
pub mod noop;
pub mod windows;

use vstd::prelude::*;
use vstd::string::StringExecFns;

verus! {

/// Why the keyboard cannot be watched.
#[derive(Debug)]
pub enum HookError {
    /// The system refused.
    PermissionDenied,
    Unsupported(&'static str),
    Os(String),
}

impl HookError {
    /// The error in words.
    pub open spec fn words(self) -> Seq<char> {
        match self {
            HookError::PermissionDenied =>
                "Rekey needs Accessibility permission to watch the keyboard"@,
            HookError::Unsupported(what) => "not supported on this platform: "@ + what@,
            HookError::Os(e) => "operating system error: "@ + e@,
        }
    }

    /// The error in words.
    pub fn message(&self) -> (r: String)
        ensures
            r@ == self.words(),
    {
        match self {
            HookError::PermissionDenied =>
                "Rekey needs Accessibility permission to watch the keyboard".to_owned(),
            HookError::Unsupported(what) => {
                let mut out: String = "not supported on this platform: ".to_owned();
                out.append(what);
                out
            },
            HookError::Os(e) => {
                let mut out: String = "operating system error: ".to_owned();
                out.append(e.as_str());
                out
            },
        }
    }
}

/// `char::from_u32` gives the character with a code, unless the code is one of a
/// surrogate or beyond the last one.
pub assume_specification[ char::from_u32 ](i: u32) -> (r: Option<char>)
    ensures
        i <= 0xd7ff || 0xe000 <= i <= 0x10ffff ==> r == Some(i as char),
        0xd800 <= i <= 0xdfff || i > 0x10ffff ==> r is None,
;

/// The character with which a text in UTF-16 begins. A surrogate without its other
/// half stands for the replacement character.
pub open spec fn beginning(units: Seq<u16>) -> Option<char> {
    if units.len() == 0 {
        None
    } else if units[0] < 0xd800 || units[0] > 0xdfff {
        Some(units[0] as char)
    } else if units[0] <= 0xdbff && units.len() > 1 && 0xdc00 <= units[1] <= 0xdfff {
        Some((0x10000 + (units[0] - 0xd800) * 0x400 + (units[1] - 0xdc00)) as char)
    } else {
        Some('\u{fffd}')
    }
}

/// The character that a key has typed, where the system reports its text in
/// UTF-16. Of several only the first one counts: a key that types more than that
/// is no part of a mistyped word.
pub fn first_character(units: &[u16]) -> (r: Option<char>)
    ensures
        r == beginning(units@),
{
    if units.len() == 0 {
        return None;
    }
    let first: u32 = units[0] as u32;
    if first < 0xd800 || first > 0xdfff {
        return char::from_u32(first);
    }
    if first <= 0xdbff && units.len() > 1 {
        let second: u32 = units[1] as u32;
        if 0xdc00 <= second && second <= 0xdfff {
            return char::from_u32(0x10000 + (first - 0xd800) * 0x400 + (second - 0xdc00));
        }
    }
    Some('\u{fffd}')
}

/// A character in UTF-16.
pub open spec fn utf16(c: char) -> Seq<u16> {
    if (c as int) < 0x10000 {
        seq![c as u16]
    } else {
        seq![
            (0xd800 + (c as int - 0x10000) / 0x400) as u16,
            (0xdc00 + (c as int - 0x10000) % 0x400) as u16,
        ]
    }
}

/// The character that a key has typed is the first one of the text that the system
/// reports, whatever follows.
pub proof fn lemma_the_first_character_counts(c: char, rest: Seq<u16>)
    ensures
        beginning(utf16(c) + rest) == Some(c),
{
    let units = utf16(c) + rest;
    let n = c as int;
    if n < 0x10000 {
        assert(units[0] == c as u16);
        assert(units[0] == n);
        assert(!(0xd800 <= n <= 0xdfff));
        assert(units[0] as char == c);
    } else {
        assert(units[0] == utf16(c)[0]);
        assert(units[1] == utf16(c)[1]);
        assert(units[0] - 0xd800 == (n - 0x10000) / 0x400);
        assert(units[1] - 0xdc00 == (n - 0x10000) % 0x400);
        assert(0x10000 + (units[0] - 0xd800) * 0x400 + (units[1] - 0xdc00) == n);
    }
}

} // verus!
