//! Keyboard layouts and re-typing text from one to another.
//!
//! A layout is a table from physical keys to what they produce, and every
//! layout lists the same keys in the same order. So text is re-typed by finding
//! the keys that produced it on one layout and reading what the same keys
//! produce on another: the keys g, h, b, d, t, n of "ghbdtn" give "привет" on
//! the Russian layout.

use crate::single;
use crate::single::Single;
use crate::tables;
use crate::text;
use std::collections::HashMap;
use unicode_normalization::UnicodeNormalization;
use vstd::prelude::*;
use vstd::string::{StrSliceExecFns, StringExecFns};

verus! {

broadcast use vstd::std_specs::hash::group_hash_axioms;

/// Number of printable keys in a layout.
pub const KEY_COUNT: usize = 47;

/// The token of a key that produces nothing.
pub const NONE: &'static str = "~NONE~";

/// Writing system of a layout.
#[derive(Debug, Clone, Copy, PartialEq, Eq, Structural)]
pub enum Script {
    Latin,
    Cyrillic,
    Hebrew,
    Arabic,
    Greek,
}

/// A keyboard layout as it is written down.
#[derive(Debug, Clone, Copy)]
pub struct LayoutDef {
    /// Stable identifier used in settings.
    pub id: &'static str,
    /// Human-readable name.
    pub name: &'static str,
    /// The language typed on this layout.
    pub lang: &'static str,
    pub script: Script,
    /// Whether the layout shares the Latin alphabet with US QWERTY.
    pub latin_overlap: bool,
    /// What each key produces, separated by spaces.
    pub lower: &'static str,
    /// What each key produces with shift held, separated by spaces.
    pub upper: &'static str,
    /// Dead keys, as a combining mark and the character that the dead key shows.
    /// An accented letter is two keystrokes on such a layout, the dead key and
    /// the letter.
    pub dead: &'static [(char, char)],
}

/// What a [`LayoutDef`] says.
#[verifier::ext_equal]
pub struct Def {
    pub id: Seq<char>,
    pub name: Seq<char>,
    pub lang: Seq<char>,
    pub script: Script,
    pub latin_overlap: bool,
    pub lower: Seq<char>,
    pub upper: Seq<char>,
    pub dead: Seq<(char, char)>,
}

impl View for LayoutDef {
    type V = Def;

    open spec fn view(&self) -> Def {
        Def {
            id: self.id@,
            name: self.name@,
            lang: self.lang@,
            script: self.script,
            latin_overlap: self.latin_overlap,
            lower: self.lower@,
            upper: self.upper@,
            dead: self.dead@,
        }
    }
}

/// A layout as a function of its keys.
///
/// Each key has two slots: slot `2 * k` is key `k` alone, and slot `2 * k + 1`
/// is key `k` with shift held.
#[verifier::ext_equal]
pub struct Board {
    /// What each slot produces.
    pub slots: Seq<Seq<char>>,
    /// The dead keys, as a combining mark and the slot that applies it.
    pub dead: Seq<(char, int)>,
}

/// The tokens of a row.
pub open spec fn tokens(row: Seq<char>) -> Seq<Seq<char>> {
    text::pieces(row, ' ')
}

/// What a key with this token produces.
pub open spec fn product(token: Seq<char>) -> Seq<char> {
    if token == NONE@ {
        Seq::empty()
    } else {
        token
    }
}

pub open spec fn slots_of(d: Def) -> Seq<Seq<char>> {
    Seq::new(
        2 * KEY_COUNT as nat,
        |j: int|
            product(
                if j % 2 == 0 {
                    tokens(d.lower)[j / 2]
                } else {
                    tokens(d.upper)[j / 2]
                },
            ),
    )
}

/// The first slot from `from` on that produces `c` and nothing else.
pub open spec fn letter_slot(slots: Seq<Seq<char>>, c: char, from: int) -> Option<int>
    decreases slots.len() - from,
{
    if from < 0 || from >= slots.len() {
        None
    } else if slots[from].len() == 1 && slots[from][0] == c {
        Some(from)
    } else {
        letter_slot(slots, c, from + 1)
    }
}

/// The first slot from `from` on that produces several characters, `c` first.
pub open spec fn ligature_slot(slots: Seq<Seq<char>>, c: char, from: int) -> Option<int>
    decreases slots.len() - from,
{
    if from < 0 || from >= slots.len() {
        None
    } else if slots[from].len() > 1 && slots[from][0] == c {
        Some(from)
    } else {
        ligature_slot(slots, c, from + 1)
    }
}

/// The slot by which `c` is typed: one that produces it alone, or else one that
/// produces it first.
pub open spec fn slot_for(slots: Seq<Seq<char>>, c: char) -> Option<int> {
    match letter_slot(slots, c, 0) {
        Some(j) => Some(j),
        None => ligature_slot(slots, c, 0),
    }
}

/// The dead keys among these whose character is on the layout.
pub open spec fn dead_slots(slots: Seq<Seq<char>>, dead: Seq<(char, char)>) -> Seq<(char, int)>
    decreases dead.len(),
{
    if dead.len() == 0 {
        Seq::empty()
    } else {
        let before = dead_slots(slots, dead.drop_last());
        match slot_for(slots, dead.last().1) {
            Some(j) => before.push((dead.last().0, j)),
            None => before,
        }
    }
}

pub open spec fn board_of(d: Def) -> Board {
    Board { slots: slots_of(d), dead: dead_slots(slots_of(d), d.dead) }
}

impl Board {
    /// The slot among the first `n` dead keys that applies a mark; of several,
    /// the last one.
    pub open spec fn dead_slot_among(self, mark: char, n: int) -> Option<int>
        decreases n,
    {
        if n <= 0 {
            None
        } else if self.dead[n - 1].0 == mark {
            Some(self.dead[n - 1].1)
        } else {
            self.dead_slot_among(mark, n - 1)
        }
    }

    pub open spec fn dead_slot(self, mark: char) -> Option<int> {
        self.dead_slot_among(mark, self.dead.len() as int)
    }

    /// The mark among the first `n` dead keys that a slot applies; of several,
    /// the last one.
    pub open spec fn mark_among(self, slot: int, n: int) -> Option<char>
        decreases n,
    {
        if n <= 0 {
            None
        } else if self.dead[n - 1].1 == slot {
            Some(self.dead[n - 1].0)
        } else {
            self.mark_among(slot, n - 1)
        }
    }

    pub open spec fn mark(self, slot: int) -> Option<char> {
        self.mark_among(slot, self.dead.len() as int)
    }

    pub open spec fn key(self, c: char) -> Option<int> {
        slot_for(self.slots, c)
    }

    /// The dead key and the letter key by which an accented letter is typed.
    pub open spec fn accent(self, c: char) -> Option<(int, int)> {
        let parts = decomposition(c);
        if parts.len() == 2 {
            match (self.dead_slot(parts[1]), self.key(parts[0])) {
                (Some(dead), Some(base)) => Some((dead, base)),
                _ => None,
            }
        } else {
            None
        }
    }

    /// Whether a character can be typed on this layout.
    pub open spec fn types(self, c: char) -> bool {
        self.key(c) is Some || self.accent(c) is Some
    }
}

/// The canonical decomposition of a character.
pub uninterp spec fn decomposition(c: char) -> Seq<char>;

/// `UnicodeNormalization::nfd` on a character depends on the character alone.
#[verifier::external_body]
fn nfd(c: char) -> (r: Vec<char>)
    ensures
        r@ == decomposition(c),
{
    c.nfd().collect()
}

/// The canonical composition of a text.
pub uninterp spec fn composition(s: Seq<char>) -> Seq<char>;

/// `UnicodeNormalization::nfc` on a text depends on the text alone.
#[verifier::external_body]
fn nfc(s: &str) -> (r: String)
    ensures
        r@ == composition(s@),
{
    s.nfc().collect()
}

/// A text has one token more than it has spaces.
pub proof fn lemma_tokens_count(s: Seq<char>)
    ensures
        tokens(s).len() == tables::spaces(s, s.len() as int) + 1,
    decreases s.len(),
{
    if s.len() > 0 {
        text::lemma_pieces_nonempty(s.drop_last(), ' ');
        lemma_tokens_count(s.drop_last());
        lemma_spaces_prefix(s, s.drop_last(), s.len() - 1);
    }
}

proof fn lemma_spaces_prefix(s: Seq<char>, t: Seq<char>, n: int)
    requires
        n <= s.len(),
        n <= t.len(),
        forall|i: int| 0 <= i < n ==> s[i] == t[i],
    ensures
        tables::spaces(s, n) == tables::spaces(t, n),
    decreases n,
{
    if n > 0 {
        lemma_spaces_prefix(s, t, n - 1);
    }
}

pub proof fn lemma_letter_slot(slots: Seq<Seq<char>>, c: char, from: int)
    requires
        0 <= from <= slots.len(),
    ensures
        letter_slot(slots, c, from) matches Some(j) ==> from <= j < slots.len() && slots[j].len()
            == 1 && slots[j][0] == c && forall|k: int|
            from <= k < j ==> !((#[trigger] slots[k]).len() == 1 && slots[k][0] == c),
        letter_slot(slots, c, from) is None ==> forall|k: int|
            from <= k < slots.len() ==> !((#[trigger] slots[k]).len() == 1 && slots[k][0] == c),
    decreases slots.len() - from,
{
    if from < slots.len() {
        lemma_letter_slot(slots, c, from + 1);
    }
}

pub proof fn lemma_ligature_slot(slots: Seq<Seq<char>>, c: char, from: int)
    requires
        0 <= from <= slots.len(),
    ensures
        ligature_slot(slots, c, from) matches Some(j) ==> from <= j < slots.len() && slots[j].len()
            > 1 && slots[j][0] == c && forall|k: int|
            from <= k < j ==> !((#[trigger] slots[k]).len() > 1 && slots[k][0] == c),
        ligature_slot(slots, c, from) is None ==> forall|k: int|
            from <= k < slots.len() ==> !((#[trigger] slots[k]).len() > 1 && slots[k][0] == c),
    decreases slots.len() - from,
{
    if from < slots.len() {
        lemma_ligature_slot(slots, c, from + 1);
    }
}

/// The slot by which a character is typed produces it, alone where any slot
/// does.
pub proof fn lemma_slot_for(slots: Seq<Seq<char>>, c: char)
    ensures
        slot_for(slots, c) matches Some(j) ==> 0 <= j < slots.len() && slots[j].len() >= 1
            && slots[j][0] == c,
        forall|k: int|
            0 <= k < slots.len() && (#[trigger] slots[k]).len() >= 1 && slots[k][0] == c
                ==> slot_for(slots, c) is Some,
        forall|k: int|
            0 <= k < slots.len() && (#[trigger] slots[k]).len() == 1 && slots[k][0] == c
                ==> slots[slot_for(slots, c)->0].len() == 1,
{
    lemma_letter_slot(slots, c, 0);
    lemma_ligature_slot(slots, c, 0);
}

proof fn lemma_codes_differ(a: char, b: char)
    ensures
        a as u32 == b as u32 ==> a == b,
{
    assert(a as u32 as int == a as int);
}

spec fn before(slot: Option<int>, n: int) -> Option<int> {
    match slot {
        Some(j) if j < n => Some(j),
        _ => None,
    }
}

spec fn maps(chars: Map<u32, usize>, c: char, slot: Option<int>) -> bool {
    match slot {
        Some(j) => chars.contains_key(c as u32) && chars[c as u32] == j,
        None => !chars.contains_key(c as u32),
    }
}

/// The slot by which each character is typed.
fn index_of(slots: &Vec<String>) -> (r: HashMap<u32, usize>)
    ensures
        forall|c: char| #[trigger] maps(r@, c, slot_for(text::views(slots@), c)),
{
    let ghost board = text::views(slots@);
    let mut chars: HashMap<u32, usize> = HashMap::new();
    assert forall|c: char| #[trigger]
        maps(chars@, c, before(letter_slot(board, c, 0), 0)) by {
        lemma_letter_slot(board, c, 0);
    }
    let mut i: usize = 0;
    while i < slots.len()
        invariant
            i <= slots@.len(),
            board == text::views(slots@),
            forall|c: char| #[trigger] maps(chars@, c, before(letter_slot(board, c, 0), i as int)),
        decreases slots@.len() - i,
    {
        let token: Vec<char> = text::chars_of(slots[i].as_str());
        let ghost was = chars@;
        assert(token@ == board[i as int]);
        if token.len() == 1 {
            let first: char = token[0];
            let code: u32 = first as u32;
            assert(maps(was, token@[0], before(letter_slot(board, token@[0], 0), i as int)));
            if !chars.contains_key(&code) {
                chars.insert(code, i);
            }
        }
        assert forall|c: char| #[trigger]
            maps(chars@, c, before(letter_slot(board, c, 0), i + 1)) by {
            lemma_letter_slot(board, c, 0);
            assert(maps(was, c, before(letter_slot(board, c, 0), i as int)));
            lemma_codes_differ(c, token@[0]);
        }
        i += 1;
    }
    let mut i: usize = 0;
    assert forall|c: char| #[trigger] letter_slot(board, c, 0) is None implies maps(
        chars@,
        c,
        before(ligature_slot(board, c, 0), 0),
    ) by {
        lemma_ligature_slot(board, c, 0);
        assert(maps(chars@, c, before(letter_slot(board, c, 0), slots@.len() as int)));
    }
    assert forall|c: char| #[trigger] letter_slot(board, c, 0) is Some implies maps(
        chars@,
        c,
        letter_slot(board, c, 0),
    ) by {
        lemma_letter_slot(board, c, 0);
        assert(maps(chars@, c, before(letter_slot(board, c, 0), slots@.len() as int)));
    }
    while i < slots.len()
        invariant
            i <= slots@.len(),
            board == text::views(slots@),
            forall|c: char| #[trigger]
                letter_slot(board, c, 0) is Some ==> maps(chars@, c, letter_slot(board, c, 0)),
            forall|c: char| #[trigger]
                letter_slot(board, c, 0) is None ==> maps(
                    chars@,
                    c,
                    before(ligature_slot(board, c, 0), i as int),
                ),
        decreases slots@.len() - i,
    {
        let token: Vec<char> = text::chars_of(slots[i].as_str());
        let ghost was = chars@;
        assert(token@ == board[i as int]);
        if token.len() > 1 {
            let first: char = token[0];
            let code: u32 = first as u32;
            assert(letter_slot(board, token@[0], 0) is Some || letter_slot(
                board,
                token@[0],
                0,
            ) is None);
            if !chars.contains_key(&code) {
                chars.insert(code, i);
            }
        }
        assert forall|c: char| #[trigger] letter_slot(board, c, 0) is None implies maps(
            chars@,
            c,
            before(ligature_slot(board, c, 0), i + 1),
        ) by {
            lemma_ligature_slot(board, c, 0);
            assert(maps(was, c, before(ligature_slot(board, c, 0), i as int)));
            lemma_codes_differ(c, token@[0]);
        }
        i += 1;
    }
    assert forall|c: char| #[trigger] maps(chars@, c, slot_for(board, c)) by {
        lemma_ligature_slot(board, c, 0);
        lemma_letter_slot(board, c, 0);
        assert(letter_slot(board, c, 0) is Some || letter_slot(board, c, 0) is None);
    }
    chars
}

/// A layout that can be looked up by character or by key.
#[derive(Debug)]
pub struct Layout {
    pub def: LayoutDef,
    /// What each slot produces.
    pub slots: Vec<String>,
    /// The slot by which each character is typed, by code point.
    pub chars: HashMap<u32, usize>,
    /// The dead keys, as a combining mark and the slot that applies it.
    pub dead: Vec<(char, usize)>,
}

impl View for Layout {
    type V = Board;

    open spec fn view(&self) -> Board {
        board_of(self.def@)
    }
}

/// Whether both rows of a definition name every key.
pub open spec fn complete(d: Def) -> bool {
    tokens(d.lower).len() == KEY_COUNT && tokens(d.upper).len() == KEY_COUNT
}

impl Layout {
    /// The tables of a layout agree with its definition.
    pub closed spec fn wf(&self) -> bool {
        &&& text::views(self.slots@) == self@.slots
        &&& forall|c: char| #[trigger] maps(self.chars@, c, self@.key(c))
        &&& self.dead@.map_values(|d: (char, usize)| (d.0, d.1 as int)) == self@.dead
        &&& complete(self.def@)
    }

    fn build(def: LayoutDef) -> (r: Layout)
        requires
            complete(def@),
        ensures
            r.wf(),
            r.def == def,
    {
        let lower: Vec<String> = text::split(def.lower, ' ');
        let upper: Vec<String> = text::split(def.upper, ' ');
        assert(text::views(lower@).len() == KEY_COUNT);
        assert(text::views(upper@).len() == KEY_COUNT);
        let ghost board = board_of(def@);
        let mut slots: Vec<String> = Vec::new();
        let mut i: usize = 0;
        while i < KEY_COUNT
            invariant
                i <= KEY_COUNT,
                board == board_of(def@),
                lower@.len() == KEY_COUNT,
                upper@.len() == KEY_COUNT,
                text::views(lower@) == tokens(def.lower@),
                text::views(upper@) == tokens(def.upper@),
                slots@.len() == 2 * i,
                forall|j: int| 0 <= j < 2 * i ==> (#[trigger] slots@[j])@ == board.slots[j],
            decreases KEY_COUNT - i,
        {
            assert(text::views(lower@)[i as int] == lower@[i as int]@);
            assert(text::views(upper@)[i as int] == upper@[i as int]@);
            let lo: String = if text::same(lower[i].as_str(), NONE) {
                String::new()
            } else {
                lower[i].clone()
            };
            assert(lo@ =~= product(lower@[i as int]@));
            let up: String = if text::same(upper[i].as_str(), NONE) {
                String::new()
            } else {
                upper[i].clone()
            };
            assert(up@ =~= product(upper@[i as int]@));
            assert(board.slots[2 * i] == lo@);
            assert(board.slots[2 * i + 1] == up@);
            slots.push(lo);
            slots.push(up);
            i += 1;
        }
        assert(text::views(slots@) =~= board.slots);
        let chars: HashMap<u32, usize> = index_of(&slots);
        let mut dead: Vec<(char, usize)> = Vec::new();
        let mut i: usize = 0;
        assert(dead@.map_values(|d: (char, usize)| (d.0, d.1 as int)) =~= dead_slots(
            board.slots,
            def.dead@.take(0),
        ));
        while i < def.dead.len()
            invariant
                i <= def.dead@.len(),
                forall|c: char| #[trigger] maps(chars@, c, slot_for(board.slots, c)),
                dead@.map_values(|d: (char, usize)| (d.0, d.1 as int)) == dead_slots(
                    board.slots,
                    def.dead@.take(i as int),
                ),
            decreases def.dead@.len() - i,
        {
            let (mark, shown) = def.dead[i];
            let code: u32 = shown as u32;
            assert(maps(chars@, shown, slot_for(board.slots, shown)));
            assert(def.dead@.take(i + 1).drop_last() =~= def.dead@.take(i as int));
            assert(def.dead@.take(i + 1).last() == def.dead@[i as int]);
            let ghost was = dead@.map_values(|d: (char, usize)| (d.0, d.1 as int));
            match chars.get(&code) {
                Some(slot) => {
                    dead.push((mark, *slot));
                    assert(dead@.map_values(|d: (char, usize)| (d.0, d.1 as int)) =~= was.push(
                        (mark, *slot as int),
                    ));
                },
                None => {},
            }
            i += 1;
        }
        assert(def.dead@.take(def.dead@.len() as int) =~= def.dead@);
        Layout { def, slots, chars, dead }
    }

    /// The identifier of this layout.
    pub fn id(&self) -> (r: &'static str)
        ensures
            r == self.def.id,
    {
        self.def.id
    }

    /// The slot by which `c` is typed.
    fn slot(&self, c: char) -> (r: Option<usize>)
        requires
            self.wf(),
        ensures
            r matches Some(j) ==> self@.key(c) == Some(j as int) && j < 2 * KEY_COUNT,
            r is None ==> self@.key(c) is None,
    {
        let code: u32 = c as u32;
        assert(maps(self.chars@, c, self@.key(c)));
        proof {
            lemma_slot_for(self@.slots, c);
        }
        match self.chars.get(&code) {
            Some(j) => Some(*j),
            None => None,
        }
    }

    /// Which key produces `c` on this layout, and whether shift is held.
    pub fn key_for(&self, c: char) -> (r: Option<(usize, bool)>)
        requires
            self.wf(),
        ensures
            match r {
                Some((idx, shifted)) => idx < KEY_COUNT && self@.key(c) == Some(
                    slot_of(idx as int, shifted),
                ),
                None => self@.key(c) is None,
            },
    {
        match self.slot(c) {
            Some(j) => Some((j / 2, j % 2 == 1)),
            None => None,
        }
    }

    /// What this layout produces for a key.
    pub fn token_at(&self, idx: usize, shifted: bool) -> (r: &str)
        requires
            self.wf(),
            idx < KEY_COUNT,
        ensures
            r@ == self@.slots[slot_of(idx as int, shifted)],
    {
        let j: usize = if shifted {
            2 * idx + 1
        } else {
            2 * idx
        };
        assert(text::views(self.slots@)[j as int] == self.slots@[j as int]@);
        self.slots[j].as_str()
    }

    fn dead_slot(&self, mark: char) -> (r: Option<usize>)
        requires
            self.wf(),
        ensures
            match r {
                Some(j) => self@.dead_slot(mark) == Some(j as int),
                None => self@.dead_slot(mark) is None,
            },
    {
        let mut n: usize = self.dead.len();
        while n > 0
            invariant
                self.wf(),
                n <= self.dead@.len(),
                self.dead@.len() == self@.dead.len(),
                self@.dead_slot(mark) == self@.dead_slot_among(mark, n as int),
            decreases n,
        {
            let (known, j) = self.dead[n - 1];
            assert(self@.dead[n - 1] == (known, j as int)) by {
                assert(self.dead@.map_values(|d: (char, usize)| (d.0, d.1 as int))[n - 1] == (
                    known,
                    j as int,
                ));
            }
            if known == mark {
                return Some(j);
            }
            n -= 1;
        }
        None
    }

    /// The slots of the dead key and of the letter key by which an accented
    /// letter is typed.
    fn dead_key_presses(&self, c: char) -> (r: Option<(usize, usize)>)
        requires
            self.wf(),
        ensures
            match r {
                Some((dead, base)) => self@.accent(c) == Some((dead as int, base as int)),
                None => self@.accent(c) is None,
            },
    {
        let parts: Vec<char> = nfd(c);
        if parts.len() != 2 {
            return None;
        }
        match self.dead_slot(parts[1]) {
            Some(dead) => match self.slot(parts[0]) {
                Some(base) => Some((dead, base)),
                None => None,
            },
            None => None,
        }
    }

    /// The combining mark that a slot applies, if it is a dead key.
    fn mark_for_key(&self, slot: usize) -> (r: Option<char>)
        requires
            self.wf(),
        ensures
            r == self@.mark(slot as int),
    {
        let mut n: usize = self.dead.len();
        while n > 0
            invariant
                self.wf(),
                n <= self.dead@.len(),
                self.dead@.len() == self@.dead.len(),
                self@.mark(slot as int) == self@.mark_among(slot as int, n as int),
            decreases n,
        {
            let (mark, j) = self.dead[n - 1];
            assert(self@.dead[n - 1] == (mark, j as int)) by {
                assert(self.dead@.map_values(|d: (char, usize)| (d.0, d.1 as int))[n - 1] == (
                    mark,
                    j as int,
                ));
            }
            if j == slot {
                return Some(mark);
            }
            n -= 1;
        }
        None
    }

    /// Whether a key is a dead key on this layout.
    pub fn is_dead_key(&self, idx: usize, shifted: bool) -> (r: bool)
        requires
            self.wf(),
            idx < KEY_COUNT,
        ensures
            r == (self@.mark(slot_of(idx as int, shifted)) is Some),
    {
        let j: usize = if shifted {
            2 * idx + 1
        } else {
            2 * idx
        };
        self.mark_for_key(j).is_some()
    }

    /// The part of a text, white space aside, that this layout can type.
    pub fn coverage(&self, s: &str) -> (r: Single)
        requires
            self.wf(),
        ensures
            r == coverage_of(self@, s@),
    {
        let chars: Vec<char> = text::chars_of(s);
        let mut total: usize = 0;
        let mut hit: usize = 0;
        let mut i: usize = 0;
        while i < chars.len()
            invariant
                self.wf(),
                chars@ == s@,
                i <= chars@.len(),
                total == visible(s@.take(i as int)),
                hit == typed(self@, s@.take(i as int)),
                hit <= total <= i,
            decreases chars@.len() - i,
        {
            assert(s@.take(i + 1).drop_last() =~= s@.take(i as int));
            assert(s@.take(i + 1).last() == chars@[i as int]);
            let c: char = chars[i];
            if !c.is_whitespace() {
                total += 1;
                if self.slot(c).is_some() || self.dead_key_presses(c).is_some() {
                    hit += 1;
                }
            }
            i += 1;
        }
        assert(s@.take(s@.len() as int) =~= s@);
        if total == 0 {
            return Single { bits: 0 };
        }
        Single::from_count(hit).divided_by(Single::from_count(total))
    }
}

/// The slot of a key.
pub open spec fn slot_of(idx: int, shifted: bool) -> int {
    2 * idx + if shifted {
        1int
    } else {
        0
    }
}

/// How many characters of a text are not white space.
pub open spec fn visible(s: Seq<char>) -> nat
    decreases s.len(),
{
    if s.len() == 0 {
        0
    } else {
        visible(s.drop_last()) + if text::whitespace(s.last()) {
            0nat
        } else {
            1
        }
    }
}

/// How many characters of a text that are not white space a layout can type.
pub open spec fn typed(b: Board, s: Seq<char>) -> nat
    decreases s.len(),
{
    if s.len() == 0 {
        0
    } else {
        typed(b, s.drop_last()) + if !text::whitespace(s.last()) && b.types(s.last()) {
            1nat
        } else {
            0
        }
    }
}

pub open spec fn coverage_of(b: Board, s: Seq<char>) -> Single {
    if visible(s) == 0 {
        Single { bits: 0 }
    } else {
        single::count(typed(b, s)).quotient(single::count(visible(s)))
    }
}

/// One thing that was typed: a key of the layout, or a character that no key of
/// it produces.
pub enum Stroke {
    Slot(int),
    Literal(char),
}

/// The keystrokes that produce a character.
pub open spec fn strokes_of(b: Board, c: char) -> Seq<Stroke> {
    match b.key(c) {
        Some(j) => seq![Stroke::Slot(j)],
        None => match b.accent(c) {
            Some((dead, base)) => seq![Stroke::Slot(dead), Stroke::Slot(base)],
            None => seq![Stroke::Literal(c)],
        },
    }
}

/// The keystrokes that produce a text.
pub open spec fn strokes(b: Board, s: Seq<char>) -> Seq<Stroke>
    decreases s.len(),
{
    if s.len() == 0 {
        Seq::empty()
    } else {
        strokes(b, s.drop_last()) + strokes_of(b, s.last())
    }
}

/// What has been typed so far.
#[verifier::ext_equal]
pub struct Typing {
    pub out: Seq<char>,
    /// The mark of a dead key that waits for its letter, and what the key shows
    /// on its own.
    pub pending: Option<(char, Seq<char>)>,
}

impl Typing {
    /// A character or a key's product arrives.
    pub open spec fn append(self, token: Seq<char>) -> Typing {
        Typing {
            out: match self.pending {
                Some((mark, _)) => self.out + composition(seq![token[0], mark]) + token.skip(1),
                None => self.out + token,
            },
            pending: None,
        }
    }

    /// A dead key arrives. One that already waits stands alone.
    pub open spec fn dead(self, mark: char, shown: Seq<char>) -> Typing {
        Typing {
            out: match self.pending {
                Some((_, before)) => self.out + before,
                None => self.out,
            },
            pending: Some((mark, shown)),
        }
    }

    /// Nothing follows.
    pub open spec fn end(self) -> Seq<char> {
        match self.pending {
            Some((_, shown)) => self.out + shown,
            None => self.out,
        }
    }
}

/// One more keystroke on a layout.
pub open spec fn press(b: Board, t: Typing, stroke: Stroke) -> Typing {
    match stroke {
        Stroke::Slot(j) => match b.mark(j) {
            Some(mark) => t.dead(mark, b.slots[j]),
            None => if b.slots[j].len() == 0 {
                t
            } else {
                t.append(b.slots[j])
            },
        },
        Stroke::Literal(c) => t.append(seq![c]),
    }
}

/// The keystrokes, one after another.
pub open spec fn replay(b: Board, strokes: Seq<Stroke>) -> Typing
    decreases strokes.len(),
{
    if strokes.len() == 0 {
        Typing { out: Seq::empty(), pending: None }
    } else {
        press(b, replay(b, strokes.drop_last()), strokes.last())
    }
}

/// The text re-typed on `to` with the keys that produce it on `from`.
pub open spec fn converted(s: Seq<char>, from: Board, to: Board) -> Seq<char> {
    replay(to, strokes(from, s)).end()
}

/// A keystroke: a key, or a character that no key of the layout produces.
#[derive(Debug, Clone, Copy, PartialEq, Eq, Structural)]
pub enum Press {
    Key { slot: usize },
    Literal(char),
}

impl Press {
    pub open spec fn stroke(self) -> Stroke {
        match self {
            Press::Key { slot } => Stroke::Slot(slot as int),
            Press::Literal(c) => Stroke::Literal(c),
        }
    }
}

pub open spec fn stroke_seq(presses: Seq<Press>) -> Seq<Stroke> {
    presses.map_values(|p: Press| p.stroke())
}

/// Every key among these is on a layout.
pub open spec fn on_board(presses: Seq<Press>) -> bool {
    forall|i: int|
        0 <= i < presses.len() ==> ((#[trigger] presses[i]) matches Press::Key { slot } ==> slot < 2
            * KEY_COUNT)
}

proof fn lemma_dead_slots_on_board(slots: Seq<Seq<char>>, dead: Seq<(char, char)>)
    ensures
        forall|i: int|
            0 <= i < dead_slots(slots, dead).len() ==> 0 <= (#[trigger] dead_slots(slots, dead)[i]).1
                < slots.len(),
    decreases dead.len(),
{
    if dead.len() > 0 {
        lemma_dead_slots_on_board(slots, dead.drop_last());
        lemma_slot_for(slots, dead.last().1);
        let before = dead_slots(slots, dead.drop_last());
        assert forall|i: int| 0 <= i < dead_slots(slots, dead).len() implies 0 <= (
        #[trigger] dead_slots(slots, dead)[i]).1 < slots.len() by {
            if i < before.len() {
                assert(dead_slots(slots, dead)[i] == before[i]);
            }
        }
    }
}

proof fn lemma_dead_slot_among(b: Board, mark: char, n: int)
    requires
        n <= b.dead.len(),
    ensures
        b.dead_slot_among(mark, n) matches Some(j) ==> exists|i: int|
            0 <= i < n && (#[trigger] b.dead[i]) == (mark, j),
    decreases n,
{
    if n > 0 {
        if b.dead[n - 1].0 == mark {
            assert(b.dead[n - 1] == (mark, b.dead[n - 1].1));
        } else {
            lemma_dead_slot_among(b, mark, n - 1);
        }
    }
}

/// The keystrokes by which an accented letter is typed are keys of the layout.
proof fn lemma_accent_on_board(d: Def, c: char)
    ensures
        board_of(d).accent(c) matches Some((dead, base)) ==> 0 <= dead < 2 * KEY_COUNT && 0 <= base
            < 2 * KEY_COUNT,
{
    let b = board_of(d);
    lemma_dead_slots_on_board(b.slots, d.dead);
    lemma_slot_for(b.slots, decomposition(c)[0]);
    lemma_dead_slot_among(b, decomposition(c)[1], b.dead.len() as int);
}

/// The keystrokes that produced `text` on `from`.
fn to_presses(text: &str, from: &Layout) -> (r: Vec<Press>)
    requires
        from.wf(),
    ensures
        stroke_seq(r@) == strokes(from@, text@),
        on_board(r@),
{
    let chars: Vec<char> = text::chars_of(text);
    let mut presses: Vec<Press> = Vec::new();
    let mut i: usize = 0;
    assert(stroke_seq(presses@) =~= strokes(from@, chars@.take(0)));
    while i < chars.len()
        invariant
            from.wf(),
            i <= chars@.len(),
            stroke_seq(presses@) == strokes(from@, chars@.take(i as int)),
            on_board(presses@),
        decreases chars@.len() - i,
    {
        let c: char = text::nth(&chars, i);
        let ghost was = presses@;
        assert(chars@.take(i + 1).drop_last() =~= chars@.take(i as int));
        assert(chars@.take(i + 1).last() == c);
        match from.slot(c) {
            Some(slot) => {
                presses.push(Press::Key { slot });
                assert(stroke_seq(presses@) =~= stroke_seq(was) + strokes_of(from@, c));
            },
            None => {
                // An accented letter is two keystrokes on a layout with dead keys.
                match from.dead_key_presses(c) {
                    Some((dead, base)) => {
                        proof {
                            lemma_accent_on_board(from.def@, c);
                        }
                        presses.push(Press::Key { slot: dead });
                        presses.push(Press::Key { slot: base });
                        proof {
                            let pair = seq![Press::Key { slot: dead }, Press::Key { slot: base }];
                            assert(presses@ =~= was + pair);
                            assert(stroke_seq(pair) =~= strokes_of(from@, c));
                            assert(stroke_seq(presses@) =~= stroke_seq(was) + stroke_seq(pair));
                        }
                    },
                    None => {
                        presses.push(Press::Literal(c));
                        assert(stroke_seq(presses@) =~= stroke_seq(was) + strokes_of(from@, c));
                    },
                }
            },
        }
        assert forall|k: int| 0 <= k < presses@.len() implies ((
        #[trigger] presses@[k]) matches Press::Key { slot } ==> slot < 2 * KEY_COUNT) by {
            if k < was.len() {
                assert(presses@[k] == was[k]);
            }
        }
        i += 1;
    }
    assert(chars@.take(chars@.len() as int) =~= text@);
    presses
}

/// A letter with a mark applied, as one character where there is one and as two
/// where there is none.
fn composed(mark: char, base: char) -> (r: String)
    ensures
        r@ == composition(seq![base, mark]),
{
    let mut pair: String = String::new();
    pair.push(base);
    pair.push(mark);
    assert(pair@ =~= seq![base, mark]);
    nfc(pair.as_str())
}

/// Replays keystrokes on `to`.
fn render(presses: &Vec<Press>, to: &Layout) -> (r: String)
    requires
        to.wf(),
        on_board(presses@),
    ensures
        r@ == replay(to@, stroke_seq(presses@)).end(),
{
    let mut out: String = String::new();
    let mut pending: Option<(char, String)> = None;
    let mut i: usize = 0;
    let ghost all = stroke_seq(presses@);
    while i < presses.len()
        invariant
            to.wf(),
            on_board(presses@),
            i <= presses@.len(),
            all == stroke_seq(presses@),
            out@ == replay(to@, all.take(i as int)).out,
            pending matches Some((mark, shown)) ==> replay(to@, all.take(i as int)).pending == Some(
                (mark, shown@),
            ),
            pending is None ==> replay(to@, all.take(i as int)).pending is None,
        decreases presses@.len() - i,
    {
        let ghost t = replay(to@, all.take(i as int));
        assert(all.take(i + 1).drop_last() =~= all.take(i as int));
        assert(all.take(i + 1).last() == presses@[i as int].stroke());
        assert(replay(to@, all.take(i + 1)) == press(to@, t, presses@[i as int].stroke()));
        match presses[i] {
            Press::Key { slot } => {
                assert(text::views(to.slots@)[slot as int] == to.slots@[slot as int]@);
                let token: &String = &to.slots[slot];
                match to.mark_for_key(slot) {
                    Some(mark) => {
                        if let Some((_, shown)) = pending {
                            out.append(shown.as_str());
                        }
                        pending = Some((mark, token.clone()));
                    },
                    None => {
                        let chars: Vec<char> = text::chars_of(token.as_str());
                        if chars.len() > 0 {
                            if let Some((mark, _)) = pending {
                                let letter: String = composed(mark, chars[0]);
                                out.append(letter.as_str());
                                let rest: String = text::slice_of(
                                    chars.as_slice(),
                                    1,
                                    chars.len(),
                                );
                                out.append(rest.as_str());
                                assert(rest@ =~= token@.skip(1));
                            } else {
                                out.append(token.as_str());
                            }
                            pending = None;
                        }
                    },
                }
            },
            Press::Literal(c) => {
                if let Some((mark, _)) = pending {
                    let letter: String = composed(mark, c);
                    out.append(letter.as_str());
                    assert(out@ =~= t.append(seq![c]).out);
                } else {
                    out.push(c);
                    assert(out@ =~= t.append(seq![c]).out);
                }
                pending = None;
            },
        }
        i += 1;
    }
    assert(all.take(all.len() as int) =~= all);
    // A dead key with nothing after it shows as the bare accent.
    if let Some((_, shown)) = pending {
        out.append(shown.as_str());
    }
    out
}

/// Re-types `text` as if the same keys had been pressed with `to` active
/// instead of `from`. Characters that `from` cannot produce stay as they are.
pub fn convert(text: &str, from: &Layout, to: &Layout) -> (r: String)
    requires
        from.wf(),
        to.wf(),
    ensures
        r@ == converted(text@, from@, to@),
{
    let presses: Vec<Press> = to_presses(text, from);
    render(&presses, to)
}

/// The first of these definitions with this identifier.
pub open spec fn def_among(defs: Seq<Def>, id: Seq<char>) -> Option<Def>
    decreases defs.len(),
{
    if defs.len() == 0 {
        None
    } else if defs[0].id == id {
        Some(defs[0])
    } else {
        def_among(defs.skip(1), id)
    }
}

/// The definition of the layout with this identifier.
pub open spec fn def_for(id: Seq<char>) -> Option<Def> {
    def_among(tables::known(), id)
}

/// The layout with this identifier.
pub open spec fn board_for(id: Seq<char>) -> Option<Board> {
    match def_for(id) {
        Some(d) => Some(board_of(d)),
        None => None,
    }
}

/// Every layout in the tables names every key.
pub proof fn lemma_known_layouts_complete(i: int)
    requires
        0 <= i < tables::known().len(),
    ensures
        complete(tables::known()[i]),
{
    tables::lemma_every_layout_has_47_keys(i);
    lemma_tokens_count(tables::known()[i].lower);
    lemma_tokens_count(tables::known()[i].upper);
}

/// Looks up a layout by its identifier.
pub fn layout(id: &str) -> (r: Option<Layout>)
    ensures
        match r {
            Some(l) => l.wf() && def_for(id@) == Some(l.def@),
            None => def_for(id@) is None,
        },
{
    let defs: Vec<LayoutDef> = tables::layout_defs();
    let ghost all = tables::known();
    let mut i: usize = 0;
    assert(all.skip(0) =~= all);
    while i < defs.len()
        invariant
            i <= defs@.len(),
            all == tables::known(),
            defs@.len() == all.len(),
            forall|k: int| 0 <= k < defs@.len() ==> (#[trigger] defs@[k])@ == all[k],
            def_for(id@) == def_among(all.skip(i as int), id@),
        decreases defs@.len() - i,
    {
        assert(defs@[i as int]@ == all[i as int]);
        assert(all.skip(i as int).skip(1) =~= all.skip(i + 1));
        if text::same(defs[i].id, id) {
            proof {
                lemma_known_layouts_complete(i as int);
            }
            return Some(Layout::build(defs[i]));
        }
        i += 1;
    }
    None
}

/// The identifiers of all layouts.
pub fn layout_ids() -> (r: Vec<&'static str>)
    ensures
        r@.len() == tables::known().len(),
        forall|i: int| 0 <= i < r@.len() ==> (#[trigger] r@[i])@ == tables::known()[i].id,
{
    let defs: Vec<LayoutDef> = tables::layout_defs();
    let mut ids: Vec<&'static str> = Vec::new();
    let mut i: usize = 0;
    while i < defs.len()
        invariant
            i <= defs@.len(),
            defs@.len() == tables::known().len(),
            forall|k: int| 0 <= k < defs@.len() ==> (#[trigger] defs@[k])@ == tables::known()[k],
            ids@.len() == i,
            forall|k: int| 0 <= k < i ==> (#[trigger] ids@[k])@ == tables::known()[k].id,
        decreases defs@.len() - i,
    {
        assert(defs@[i as int]@ == tables::known()[i as int]);
        ids.push(defs[i].id);
        i += 1;
    }
    ids
}

/// The text re-typed between two layouts, where both are known.
pub open spec fn converted_by_id(s: Seq<char>, from: Seq<char>, to: Seq<char>) -> Option<
    Seq<char>,
> {
    match (board_for(from), board_for(to)) {
        (Some(a), Some(b)) => Some(converted(s, a, b)),
        _ => None,
    }
}

/// [`convert`] between two layouts given by their identifiers.
pub fn convert_by_id(text: &str, from: &str, to: &str) -> (r: Option<String>)
    ensures
        match r {
            Some(s) => converted_by_id(text@, from@, to@) == Some(s@),
            None => converted_by_id(text@, from@, to@) is None,
        },
{
    match layout(from) {
        Some(a) => match layout(to) {
            Some(b) => Some(convert(text, &a, &b)),
            None => None,
        },
        None => None,
    }
}

/// A keystroke to inject.
#[derive(Debug, Clone, Copy, PartialEq, Eq, Structural)]
pub enum KeyPress {
    /// A key of the layout, by its index.
    Key { index: usize, shift: bool },
    Space,
    Tab,
    Enter,
}

/// The keystroke to inject for a character or key.
pub open spec fn key_press(stroke: Stroke) -> Option<KeyPress> {
    match stroke {
        Stroke::Slot(j) => Some(KeyPress::Key { index: (j / 2) as usize, shift: j % 2 == 1 }),
        Stroke::Literal(c) => if c == ' ' {
            Some(KeyPress::Space)
        } else if c == '\t' {
            Some(KeyPress::Tab)
        } else if c == '\n' {
            Some(KeyPress::Enter)
        } else {
            None
        },
    }
}

/// Whether a keyboard has a key for everything typed.
pub open spec fn injectable(strokes: Seq<Stroke>) -> bool {
    forall|i: int| 0 <= i < strokes.len() ==> key_press(#[trigger] strokes[i]) is Some
}

/// The keystrokes to inject so that `text` appears with layout `id` active, if
/// keys alone can produce it.
pub fn presses_for(text: &str, id: &str) -> (r: Option<Vec<KeyPress>>)
    ensures
        r is Some <==> (board_for(id@) matches Some(b) && injectable(strokes(b, text@))),
        r matches Some(presses) ==> ({
            let typed = strokes(board_for(id@)->0, text@);
            &&& presses@.len() == typed.len()
            &&& forall|i: int|
                0 <= i < typed.len() ==> Some(#[trigger] presses@[i]) == key_press(typed[i])
        }),
{
    match layout(id) {
        Some(from) => {
            let presses: Vec<Press> = to_presses(text, &from);
            let mut keys: Vec<KeyPress> = Vec::new();
            let ghost typed = strokes(from@, text@);
            let mut i: usize = 0;
            while i < presses.len()
                invariant
                    i <= presses@.len(),
                    on_board(presses@),
                    typed == stroke_seq(presses@),
                    keys@.len() == i,
                    forall|k: int|
                        0 <= k < i ==> Some(#[trigger] keys@[k]) == key_press(typed[k]),
                    board_for(id@) == Some(from@),
                    typed == strokes(from@, text@),
                decreases presses@.len() - i,
            {
                assert(typed[i as int] == presses@[i as int].stroke());
                match presses[i] {
                    Press::Key { slot } => {
                        keys.push(KeyPress::Key { index: slot / 2, shift: slot % 2 == 1 });
                    },
                    Press::Literal(c) => {
                        if c == ' ' {
                            keys.push(KeyPress::Space);
                        } else if c == '\t' {
                            keys.push(KeyPress::Tab);
                        } else if c == '\n' {
                            keys.push(KeyPress::Enter);
                        } else {
                            assert(key_press(typed[i as int]) is None);
                            return None;
                        }
                    },
                }
                i += 1;
            }
            assert forall|k: int| 0 <= k < typed.len() implies key_press(
                #[trigger] typed[k],
            ) is Some by {
                assert(Some(keys@[k]) == key_press(typed[k]));
            }
            Some(keys)
        },
        None => None,
    }
}

/// A key is pressed at its place, with shift exactly where the slot is that of the key
/// with shift; white space has keys of its own; and nothing else has a key.
pub proof fn lemma_what_is_pressed(stroke: Stroke)
    requires
        stroke matches Stroke::Slot(j) ==> 0 <= j < 94,
    ensures
        match stroke {
            Stroke::Slot(j) => key_press(stroke) matches Some(KeyPress::Key { index, shift }) && j
                == 2 * index + if shift {
                1int
            } else {
                0
            },
            Stroke::Literal(c) => {
                &&& key_press(stroke) == Some(KeyPress::Space) <==> c == ' '
                &&& key_press(stroke) == Some(KeyPress::Tab) <==> c == '\t'
                &&& key_press(stroke) == Some(KeyPress::Enter) <==> c == '\n'
                &&& key_press(stroke) is None <==> c != ' ' && c != '\t' && c != '\n'
            },
        },
{
}

/// How much of a text a layout can type, character by character: white space does not
/// count, and of the rest those count that a key produces, alone or behind a dead key.
pub proof fn lemma_coverage_is_counted(b: Board, s: Seq<char>, c: char)
    ensures
        visible(s.push(c)) == visible(s) + if text::whitespace(c) {
            0int
        } else {
            1
        },
        typed(b, s.push(c)) == typed(b, s) + if !text::whitespace(c) && (b.key(c) is Some
            || b.accent(c) is Some) {
            1int
        } else {
            0
        },
        visible(Seq::empty()) == 0 && typed(b, Seq::empty()) == 0,
        visible(s) > 0 ==> coverage_of(b, s) == single::count(typed(b, s)).quotient(
            single::count(visible(s)),
        ),
        visible(s) == 0 ==> coverage_of(b, s) == (Single { bits: 0 }),
{
    assert(s.push(c).drop_last() =~= s);
}

/// All that can be typed is visible, and where every character can be typed, all that
/// is visible is.
pub proof fn lemma_coverage_is_a_part(b: Board, s: Seq<char>)
    ensures
        typed(b, s) <= visible(s) <= s.len(),
        (forall|i: int| 0 <= i < s.len() ==> b.types(#[trigger] s[i])) ==> typed(b, s) == visible(
            s,
        ),
    decreases s.len(),
{
    if s.len() > 0 {
        let before = s.drop_last();
        lemma_coverage_is_a_part(b, before);
        if forall|i: int| 0 <= i < s.len() ==> b.types(#[trigger] s[i]) {
            assert forall|i: int| 0 <= i < before.len() implies b.types(#[trigger] before[i]) by {
                assert(before[i] == s[i]);
            }
            assert(s.last() == s[s.len() - 1]);
        }
    }
}

/// Keys are found one character after another: a character of its own key is that key,
/// an accented one its dead key and then its letter, and what no key produces stands
/// for itself.
pub proof fn lemma_how_text_is_typed(b: Board, s: Seq<char>, c: char)
    ensures
        b.key(c) matches Some(j) ==> strokes(b, s.push(c)) == strokes(b, s).push(Stroke::Slot(j)),
        b.key(c) is None && b.accent(c) is None ==> strokes(b, s.push(c)) == strokes(b, s).push(
            Stroke::Literal(c),
        ),
        b.key(c) is None && b.accent(c) is Some ==> strokes(b, s.push(c)) == strokes(b, s).push(
            Stroke::Slot((b.accent(c)->0).0),
        ).push(Stroke::Slot((b.accent(c)->0).1)),
        strokes(b, Seq::empty()).len() == 0,
{
    assert(s.push(c).drop_last() =~= s);
    if let Some(j) = b.key(c) {
        assert(strokes(b, s.push(c)) =~= strokes(b, s).push(Stroke::Slot(j)));
    } else if let Some((dead, base)) = b.accent(c) {
        assert(strokes(b, s.push(c)) =~= strokes(b, s).push(Stroke::Slot(dead)).push(
            Stroke::Slot(base),
        ));
    } else {
        assert(strokes(b, s.push(c)) =~= strokes(b, s).push(Stroke::Literal(c)));
    }
}

/// What a keystroke adds to what was typed: a dead key nothing until the next one comes;
/// another key what it produces, the first character of it with the mark of a dead key
/// that waits; and a dead key that another one follows, or nothing, shows itself.
pub proof fn lemma_what_a_keystroke_adds(b: Board, strokes: Seq<Stroke>, j: int)
    ensures
        ({
            let before = replay(b, strokes);
            let after = replay(b, strokes.push(Stroke::Slot(j)));
            let waiting = match before.pending {
                Some((_, shown)) => shown,
                None => Seq::empty(),
            };
            &&& before.end() == before.out + waiting
            &&& b.mark(j) matches Some(mark) ==> after.out == before.out + waiting && after.pending
                == Some((mark, b.slots[j]))
            &&& b.mark(j) is None && b.slots[j].len() == 0 ==> after == before
            &&& b.mark(j) is None && b.slots[j].len() > 0 ==> after.pending is None
            &&& b.mark(j) is None && b.slots[j].len() > 0 && before.pending is None ==> after.out
                == before.out + b.slots[j]
            &&& b.mark(j) is None && b.slots[j].len() > 0 && before.pending is Some ==> after.out
                == before.out + composition(seq![b.slots[j][0], (before.pending->0).0])
                + b.slots[j].skip(1)
        }),
{
    assert(strokes.push(Stroke::Slot(j)).drop_last() =~= strokes);
    let before = replay(b, strokes);
    assert(before.out + Seq::<char>::empty() =~= before.out);
}

/// A dead key is found by its mark, and a mark by its key: whatever is found is among the
/// dead keys, none behind it would do, and where nothing is found none does.
pub proof fn lemma_dead_keys_are_found(b: Board, mark: char, slot: int, n: int)
    requires
        0 <= n <= b.dead.len(),
    ensures
        match b.dead_slot_among(mark, n) {
            Some(j) => exists|k: int|
                0 <= k < n && #[trigger] b.dead[k] == (mark, j) && forall|l: int|
                    k < l < n ==> (#[trigger] b.dead[l]).0 != mark,
            None => forall|k: int| 0 <= k < n ==> (#[trigger] b.dead[k]).0 != mark,
        },
        match b.mark_among(slot, n) {
            Some(m) => exists|k: int|
                0 <= k < n && #[trigger] b.dead[k] == (m, slot) && forall|l: int|
                    k < l < n ==> (#[trigger] b.dead[l]).1 != slot,
            None => forall|k: int| 0 <= k < n ==> (#[trigger] b.dead[k]).1 != slot,
        },
        b.dead_slot(mark) == b.dead_slot_among(mark, b.dead.len() as int),
        b.mark(slot) == b.mark_among(slot, b.dead.len() as int),
    decreases n,
{
    if n > 0 {
        lemma_dead_keys_are_found(b, mark, slot, n - 1);
        let last = b.dead[n - 1];
        if last.0 == mark {
            assert(b.dead[n - 1] == (mark, last.1));
        }
        if last.1 == slot {
            assert(b.dead[n - 1] == (last.0, slot));
        }
    }
}

/// An accented letter is typed by a dead key and a letter exactly if it comes apart into
/// a letter and a mark, the layout has a dead key with that mark, and a key for the
/// letter.
pub proof fn lemma_accented_letters(b: Board, c: char)
    ensures
        b.accent(c) is Some <==> decomposition(c).len() == 2 && b.dead_slot(
            decomposition(c)[1],
        ) is Some && b.key(decomposition(c)[0]) is Some,
        b.accent(c) matches Some((dead, base)) ==> b.dead_slot(decomposition(c)[1]) == Some(dead)
            && b.key(decomposition(c)[0]) == Some(base),
{
}

/// What the slots of a layout produce: each key in its place what the rows say, alone the
/// one and with shift the other, and where they say that it produces nothing, nothing.
pub proof fn lemma_what_the_slots_produce(d: Def, k: int)
    requires
        0 <= k < 47,
    ensures
        ({
            let lower = text::pieces(d.lower, ' ')[k];
            let upper = text::pieces(d.upper, ' ')[k];
            let slots = board_of(d).slots;
            &&& slots.len() == 94
            &&& slots[2 * k] == if lower == "~NONE~"@ {
                Seq::empty()
            } else {
                lower
            }
            &&& slots[2 * k + 1] == if upper == "~NONE~"@ {
                Seq::empty()
            } else {
                upper
            }
        }),
{
    assert((2 * k) / 2 == k && (2 * k) % 2 == 0);
    assert((2 * k + 1) / 2 == k && (2 * k + 1) % 2 == 1);
}

} // verus!
