//! Characters and strings.
//!
//! Text is worked on as a sequence of characters. What the Unicode tables say of
//! a character or a string comes from the standard library, under the names
//! declared here.

use vstd::prelude::*;
use vstd::string::{StrSliceExecFns, StringExecFns};

verus! {

/// Whether a character has the `Alphabetic` property.
pub uninterp spec fn alphabetic(c: char) -> bool;

/// `char::is_alphabetic` depends on the character alone.
pub assume_specification[ char::is_alphabetic ](c: char) -> (r: bool)
    ensures
        r == alphabetic(c),
;

/// Whether a character is in one of the general categories for numbers.
pub uninterp spec fn numeric(c: char) -> bool;

/// `char::is_numeric` depends on the character alone.
pub assume_specification[ char::is_numeric ](c: char) -> (r: bool)
    ensures
        r == numeric(c),
;

/// Whether a character has the `White_Space` property.
pub uninterp spec fn whitespace(c: char) -> bool;

/// `char::is_whitespace` depends on the character alone.
pub assume_specification[ char::is_whitespace ](c: char) -> (r: bool)
    ensures
        r == whitespace(c),
;

/// Whether a character has the `Uppercase` property.
pub uninterp spec fn uppercase_letter(c: char) -> bool;

/// `char::is_uppercase` depends on the character alone.
pub assume_specification[ char::is_uppercase ](c: char) -> (r: bool)
    ensures
        r == uppercase_letter(c),
;

/// Whether a character has the `Lowercase` property.
pub uninterp spec fn lowercase_letter(c: char) -> bool;

/// `char::is_lowercase` depends on the character alone.
pub assume_specification[ char::is_lowercase ](c: char) -> (r: bool)
    ensures
        r == lowercase_letter(c),
;

/// The text in lower case.
pub uninterp spec fn lowercase(s: Seq<char>) -> Seq<char>;

/// `str::to_lowercase` depends on the text alone.
#[verifier::external_body]
pub(crate) fn to_lowercase(s: &str) -> (r: String)
    ensures
        r@ == lowercase(s@),
{
    s.to_lowercase()
}

/// The text in upper case.
pub uninterp spec fn uppercase(s: Seq<char>) -> Seq<char>;

/// `str::to_uppercase` depends on the text alone.
#[verifier::external_body]
pub(crate) fn to_uppercase(s: &str) -> (r: String)
    ensures
        r@ == uppercase(s@),
{
    s.to_uppercase()
}

/// `String::push` appends the character.
pub assume_specification[ String::push ](s: &mut String, c: char)
    ensures
        final(s)@ == old(s)@.push(c),
;

/// `String::pop` takes the last character off, if there is one.
pub assume_specification[ String::pop ](s: &mut String) -> (r: Option<char>)
    ensures
        old(s)@.len() == 0 ==> r is None && final(s)@ == old(s)@,
        old(s)@.len() > 0 ==> r == Some(old(s)@.last()) && final(s)@ == old(s)@.drop_last(),
;

/// `==` on string slices compares their characters.
#[verifier::external_body]
pub(crate) fn same(a: &str, b: &str) -> (r: bool)
    ensures
        r == (a@ == b@),
{
    a == b
}

/// `std::str::from_utf8` succeeds on well-formed UTF-8 and gives the text that
/// these bytes encode.
#[verifier::external_body]
pub(crate) fn from_utf8(bytes: &[u8]) -> (r: Option<String>)
    ensures
        r is Some <==> vstd::utf8::valid_utf8(bytes@),
        r matches Some(s) ==> vstd::utf8::encode_utf8(s@) == bytes@,
{
    std::str::from_utf8(bytes).ok().map(str::to_string)
}

/// Whether a character is a C0 or C1 control code or the delete character.
pub open spec fn control(c: char) -> bool {
    c as int <= 0x1f || 0x7f <= c as int <= 0x9f
}

pub fn is_control(c: char) -> (r: bool)
    ensures
        r == control(c),
{
    let code: u32 = c as u32;
    code <= 0x1f || (0x7f <= code && code <= 0x9f)
}

/// A character's code with the ASCII capitals brought to lower case.
pub open spec fn ascii_folded(c: char) -> int {
    if 0x41 <= c as int <= 0x5a {
        c as int + 0x20
    } else {
        c as int
    }
}

/// Two texts that differ at most in the case of ASCII letters.
pub open spec fn same_ignoring_ascii_case(a: Seq<char>, b: Seq<char>) -> bool {
    a.len() == b.len() && forall|i: int|
        0 <= i < a.len() ==> ascii_folded(#[trigger] a[i]) == ascii_folded(b[i])
}

fn ascii_fold(c: char) -> (r: u32)
    ensures
        r == ascii_folded(c),
{
    let code: u32 = c as u32;
    if 0x41 <= code && code <= 0x5a {
        code + 0x20
    } else {
        code
    }
}

/// `a.eq_ignore_ascii_case(b)`.
pub fn eq_ignore_ascii_case(a: &str, b: &str) -> (r: bool)
    ensures
        r == same_ignoring_ascii_case(a@, b@),
{
    let left: Vec<char> = chars_of(a);
    let right: Vec<char> = chars_of(b);
    if left.len() != right.len() {
        return false;
    }
    let mut i: usize = 0;
    while i < left.len()
        invariant
            left@ == a@,
            right@ == b@,
            left@.len() == right@.len(),
            i <= left@.len(),
            forall|j: int|
                0 <= j < i ==> ascii_folded(#[trigger] left@[j]) == ascii_folded(right@[j]),
        decreases left@.len() - i,
    {
        if ascii_fold(left[i]) != ascii_fold(right[i]) {
            assert(ascii_folded(a@[i as int]) != ascii_folded(b@[i as int]));
            return false;
        }
        i += 1;
    }
    true
}

/// The characters of a text.
pub fn chars_of(s: &str) -> (r: Vec<char>)
    ensures
        r@ == s@,
{
    let mut out: Vec<char> = Vec::new();
    for c in it: s.chars()
        invariant
            out@ == s@.take(it.index()),
            it.seq() == s@,
    {
        out.push(c);
    }
    assert(s@.take(s@.len() as int) == s@);
    out
}

/// `String::clear` leaves the empty text.
pub assume_specification[ String::clear ](s: &mut String)
    ensures
        final(s)@ == Seq::<char>::empty(),
;

/// A count as a `usize` can hold it. No text in memory is longer.
pub open spec fn capped(n: nat) -> nat {
    if n <= usize::MAX {
        n
    } else {
        usize::MAX as nat
    }
}

/// How many characters a word and what ended it take up.
pub open spec fn span(word: Seq<char>, terminator: Option<char>) -> nat {
    capped(
        word.len() + if terminator is Some {
            1nat
        } else {
            0
        },
    )
}

/// How many characters a word and what ended it take up.
pub fn span_of(word: &str, terminator: Option<char>) -> (r: usize)
    ensures
        r == span(word@, terminator),
{
    let len: usize = word.unicode_len();
    if terminator.is_some() {
        len.saturating_add(1)
    } else {
        len
    }
}

/// A word followed by what ended it.
pub open spec fn ended(word: Seq<char>, terminator: Option<char>) -> Seq<char> {
    match terminator {
        Some(c) => word.push(c),
        None => word,
    }
}

/// A word followed by what ended it.
pub fn with_terminator(word: &str, terminator: Option<char>) -> (r: String)
    ensures
        r@ == ended(word@, terminator),
{
    let mut out: String = word.to_owned();
    if let Some(c) = terminator {
        out.push(c);
    }
    out
}

/// One character of a text.
pub fn nth(chars: &Vec<char>, i: usize) -> (r: char)
    requires
        i < chars@.len(),
    ensures
        r == chars@[i as int],
{
    chars[i]
}

/// A copy of a list of characters.
pub fn copy_chars(chars: &Vec<char>) -> (r: Vec<char>)
    ensures
        r@ == chars@,
{
    let mut out: Vec<char> = Vec::new();
    let mut i: usize = 0;
    while i < chars.len()
        invariant
            i <= chars@.len(),
            out@ == chars@.take(i as int),
        decreases chars@.len() - i,
    {
        out.push(nth(chars, i));
        i += 1;
    }
    assert(chars@.take(chars@.len() as int) == chars@);
    out
}

/// The text that these characters make.
pub fn text_of(chars: &[char]) -> (r: String)
    ensures
        r@ == chars@,
{
    let mut out: String = String::new();
    let mut i: usize = 0;
    while i < chars.len()
        invariant
            i <= chars@.len(),
            out@ == chars@.take(i as int),
        decreases chars@.len() - i,
    {
        out.push(chars[i]);
        i += 1;
    }
    assert(chars@.take(chars@.len() as int) == chars@);
    out
}

/// A copy of part of a text.
pub fn slice_of(chars: &[char], from: usize, to: usize) -> (r: String)
    requires
        from <= to <= chars@.len(),
    ensures
        r@ == chars@.subrange(from as int, to as int),
{
    let mut out: String = String::new();
    let mut i: usize = from;
    while i < to
        invariant
            from <= i <= to <= chars@.len(),
            out@ == chars@.subrange(from as int, i as int),
        decreases to - i,
    {
        out.push(chars[i]);
        i += 1;
    }
    out
}

/// Whether every character of a text is white space.
pub open spec fn blank(s: Seq<char>) -> bool {
    forall|i: int| 0 <= i < s.len() ==> whitespace(#[trigger] s[i])
}

/// Whether nothing is left of a text once white space is trimmed.
pub fn is_blank(s: &str) -> (r: bool)
    ensures
        r == blank(s@),
{
    let chars: Vec<char> = chars_of(s);
    let mut i: usize = 0;
    while i < chars.len()
        invariant
            chars@ == s@,
            i <= chars@.len(),
            forall|j: int| 0 <= j < i ==> whitespace(#[trigger] chars@[j]),
        decreases chars@.len() - i,
    {
        if !chars[i].is_whitespace() {
            assert(!whitespace(s@[i as int]));
            return false;
        }
        i += 1;
    }
    true
}

/// Whether every character of a text is alphabetic.
pub open spec fn all_alphabetic(s: Seq<char>) -> bool {
    forall|i: int| 0 <= i < s.len() ==> alphabetic(#[trigger] s[i])
}

pub fn is_all_alphabetic(s: &str) -> (r: bool)
    ensures
        r == all_alphabetic(s@),
{
    let chars: Vec<char> = chars_of(s);
    let mut i: usize = 0;
    while i < chars.len()
        invariant
            chars@ == s@,
            i <= chars@.len(),
            forall|j: int| 0 <= j < i ==> alphabetic(#[trigger] chars@[j]),
        decreases chars@.len() - i,
    {
        if !chars[i].is_alphabetic() {
            assert(!alphabetic(s@[i as int]));
            return false;
        }
        i += 1;
    }
    true
}

/// The text in an optional string.
pub open spec fn optional(s: Option<String>) -> Option<Seq<char>> {
    match s {
        Some(s) => Some(s@),
        None => None,
    }
}

/// The text in an optional string slice.
pub open spec fn optional_slice(s: Option<&str>) -> Option<Seq<char>> {
    match s {
        Some(s) => Some(s@),
        None => None,
    }
}

/// Whether two optional texts are the same.
pub fn same_optional(a: &Option<String>, b: &Option<String>) -> (r: bool)
    ensures
        r == (optional(*a) == optional(*b)),
{
    match a {
        Some(x) => match b {
            Some(y) => same(x.as_str(), y.as_str()),
            None => false,
        },
        None => b.is_none(),
    }
}

/// A copy of an optional text.
pub fn copy_optional(s: &Option<String>) -> (r: Option<String>)
    ensures
        optional(r) == optional(*s),
{
    match s {
        Some(x) => Some(x.clone()),
        None => None,
    }
}

/// The views of a list of texts.
pub open spec fn views(texts: Seq<String>) -> Seq<Seq<char>> {
    texts.map_values(|s: String| s@)
}

/// Whether a list of texts holds this one.
pub fn holds(texts: &Vec<String>, s: &str) -> (r: bool)
    ensures
        r == views(texts@).contains(s@),
{
    let mut i: usize = 0;
    while i < texts.len()
        invariant
            i <= texts@.len(),
            forall|j: int| 0 <= j < i ==> #[trigger] views(texts@)[j] != s@,
        decreases texts@.len() - i,
    {
        if same(texts[i].as_str(), s) {
            assert(views(texts@)[i as int] == s@);
            return true;
        }
        i += 1;
    }
    false
}

/// A copy of a list of texts.
pub fn copy_of(texts: &Vec<String>) -> (r: Vec<String>)
    ensures
        views(r@) == views(texts@),
{
    let mut out: Vec<String> = Vec::new();
    let mut i: usize = 0;
    while i < texts.len()
        invariant
            i <= texts@.len(),
            out@.len() == i,
            forall|j: int| 0 <= j < i ==> #[trigger] out@[j]@ == texts@[j]@,
        decreases texts@.len() - i,
    {
        out.push(texts[i].clone());
        i += 1;
    }
    assert(views(out@) =~= views(texts@));
    out
}

/// The decimal digits of a number.
pub open spec fn digits(n: nat) -> Seq<char>
    decreases n,
{
    if n < 10 {
        seq![(0x30 + n) as char]
    } else {
        digits(n / 10).push((0x30 + n % 10) as char)
    }
}

fn digit(n: u64) -> (r: char)
    requires
        n < 10,
    ensures
        r == (0x30 + n) as char,
{
    let code: u8 = 0x30 + n as u8;
    code as char
}

/// A number in decimal.
pub fn decimal(n: u64) -> (r: String)
    ensures
        r@ == digits(n as nat),
    decreases n,
{
    if n < 10 {
        let mut out: String = String::new();
        out.push(digit(n));
        assert(out@ =~= digits(n as nat));
        out
    } else {
        let mut out: String = decimal(n / 10);
        out.push(digit(n % 10));
        out
    }
}

/// The pieces of a text between the occurrences of a character.
pub open spec fn pieces(s: Seq<char>, separator: char) -> Seq<Seq<char>>
    decreases s.len(),
{
    if s.len() == 0 {
        seq![Seq::empty()]
    } else {
        let before = pieces(s.drop_last(), separator);
        if s.last() == separator {
            before.push(Seq::empty())
        } else {
            before.drop_last().push(before.last().push(s.last()))
        }
    }
}

pub proof fn lemma_pieces_nonempty(s: Seq<char>, separator: char)
    ensures
        pieces(s, separator).len() >= 1,
    decreases s.len(),
{
    if s.len() > 0 {
        lemma_pieces_nonempty(s.drop_last(), separator);
    }
}

/// A text without the character is one piece.
pub proof fn lemma_only_piece(s: Seq<char>, separator: char)
    requires
        forall|j: int| 0 <= j < s.len() ==> s[j] != separator,
    ensures
        pieces(s, separator) == seq![s],
    decreases s.len(),
{
    if s.len() > 0 {
        lemma_only_piece(s.drop_last(), separator);
        assert(s.drop_last().push(s.last()) =~= s);
        assert(pieces(s, separator) =~= seq![s]);
    } else {
        assert(s =~= Seq::empty());
    }
}

/// The pieces of a text between the occurrences of a character.
pub fn split(s: &str, separator: char) -> (r: Vec<String>)
    ensures
        views(r@) == pieces(s@, separator),
{
    let mut done: Vec<String> = Vec::new();
    let mut current: String = String::new();
    let chars: Vec<char> = chars_of(s);
    let mut i: usize = 0;
    assert(views(done@).push(current@) =~= pieces(chars@.take(0), separator));
    while i < chars.len()
        invariant
            i <= chars@.len(),
            views(done@).push(current@) == pieces(chars@.take(i as int), separator),
        decreases chars@.len() - i,
    {
        let ghost before = chars@.take(i as int);
        assert(chars@.take(i + 1).drop_last() =~= before);
        assert(chars@.take(i + 1).last() == chars@[i as int]);
        let ghost were = views(done@);
        assert(were.push(current@).drop_last() =~= were);
        let c: char = nth(&chars, i);
        if c == separator {
            done.push(current);
            current = String::new();
            assert(views(done@) =~= pieces(before, separator));
            assert(views(done@).push(current@) =~= pieces(chars@.take(i + 1), separator));
        } else {
            current.push(c);
            assert(views(done@).push(current@) =~= pieces(chars@.take(i + 1), separator));
        }
        i += 1;
    }
    assert(chars@.take(chars@.len() as int) =~= s@);
    let ghost were = views(done@);
    let ghost last = current@;
    done.push(current);
    assert(views(done@) =~= were.push(last));
    done
}

/// The words of a text that are followed by white space, and what comes after.
pub open spec fn words_before(s: Seq<char>) -> (Seq<Seq<char>>, Seq<char>)
    decreases s.len(),
{
    if s.len() == 0 {
        (Seq::empty(), Seq::empty())
    } else {
        let (done, current) = words_before(s.drop_last());
        if !whitespace(s.last()) {
            (done, current.push(s.last()))
        } else if current.len() == 0 {
            (done, current)
        } else {
            (done.push(current), Seq::empty())
        }
    }
}

/// The words of a text, which white space separates.
pub open spec fn words_of(s: Seq<char>) -> Seq<Seq<char>> {
    let (done, current) = words_before(s);
    if current.len() == 0 {
        done
    } else {
        done.push(current)
    }
}

/// What ends up in the words of a text, and what is left at its end.
proof fn lemma_words_before(s: Seq<char>)
    ensures
        forall|i: int|
            0 <= i < words_before(s).0.len() ==> is_word(#[trigger] words_before(s).0[i]),
        forall|k: int|
            0 <= k < words_before(s).1.len() ==> !whitespace(#[trigger] words_before(s).1[k]),
    decreases s.len(),
{
    if s.len() > 0 {
        lemma_words_before(s.drop_last());
        let (done, current) = words_before(s.drop_last());
        assert forall|i: int| 0 <= i < words_before(s).0.len() implies is_word(
            #[trigger] words_before(s).0[i],
        ) by {
            if i < done.len() {
                assert(words_before(s).0[i] == done[i]);
            } else {
                assert(words_before(s).0[i] == current);
            }
        }
        assert forall|k: int| 0 <= k < words_before(s).1.len() implies !whitespace(
            #[trigger] words_before(s).1[k],
        ) by {
            if k < current.len() {
                assert(words_before(s).1[k] == current[k]);
            }
        }
    }
}

/// One or more characters, none of them white space.
pub open spec fn is_word(s: Seq<char>) -> bool {
    s.len() > 0 && forall|k: int| 0 <= k < s.len() ==> !whitespace(#[trigger] s[k])
}

/// The words of a text are words.
pub proof fn lemma_words_are_words(s: Seq<char>)
    ensures
        forall|i: int| 0 <= i < words_of(s).len() ==> is_word(#[trigger] words_of(s)[i]),
{
    lemma_words_before(s);
}

proof fn lemma_run(s: Seq<char>)
    requires
        forall|k: int| 0 <= k < s.len() ==> !whitespace(#[trigger] s[k]),
    ensures
        words_before(s) == (Seq::<Seq<char>>::empty(), s),
    decreases s.len(),
{
    if s.len() > 0 {
        lemma_run(s.drop_last());
        assert(s.drop_last().push(s.last()) =~= s);
    } else {
        assert(s =~= Seq::empty());
    }
}

/// A word is all there is of a text that is one, and nothing is in a text that is
/// blank.
pub proof fn lemma_one_word_or_none(s: Seq<char>)
    ensures
        is_word(s) ==> words_of(s) == seq![s],
        blank(s) ==> words_of(s) == Seq::<Seq<char>>::empty(),
    decreases s.len(),
{
    if is_word(s) {
        lemma_run(s);
        assert(words_of(s) =~= seq![s]);
    }
    if blank(s) {
        if s.len() > 0 {
            let before = s.drop_last();
            assert(blank(before));
            lemma_one_word_or_none(before);
            assert(words_before(before).0.len() + words_before(before).1.len() == 0) by {
                if words_before(before).1.len() > 0 {
                    assert(words_of(before).len() > 0);
                }
            }
            assert(whitespace(s[s.len() - 1]));
        }
        assert(words_of(s) =~= Seq::<Seq<char>>::empty());
    }
}

proof fn lemma_words_before_split(a: Seq<char>, space: char, b: Seq<char>)
    requires
        whitespace(space),
    ensures
        words_before(a.push(space) + b) == (words_of(a) + words_before(b).0, words_before(b).1),
    decreases b.len(),
{
    let whole = a.push(space) + b;
    if b.len() == 0 {
        assert(whole =~= a.push(space));
        assert(whole.drop_last() =~= a);
        assert(words_of(a) + Seq::<Seq<char>>::empty() =~= words_of(a));
    } else {
        assert(whole.drop_last() =~= a.push(space) + b.drop_last());
        assert(whole.last() == b.last());
        lemma_words_before_split(a, space, b.drop_last());
        let (done, current) = words_before(b.drop_last());
        assert((words_of(a) + done).push(current) =~= words_of(a) + done.push(current));
    }
}

/// The words of two texts with white space in between are those of the one and
/// those of the other.
pub proof fn lemma_white_space_separates(a: Seq<char>, space: char, b: Seq<char>)
    requires
        whitespace(space),
    ensures
        words_of(a.push(space) + b) == words_of(a) + words_of(b),
{
    lemma_words_before_split(a, space, b);
    let (done, current) = words_before(b);
    assert((words_of(a) + done).push(current) =~= words_of(a) + done.push(current));
}

/// The words of a text, which white space separates.
pub fn split_whitespace(s: &str) -> (r: Vec<String>)
    ensures
        views(r@) == words_of(s@),
{
    let mut done: Vec<String> = Vec::new();
    let mut current: String = String::new();
    let chars: Vec<char> = chars_of(s);
    let mut i: usize = 0;
    assert(views(done@) =~= Seq::<Seq<char>>::empty());
    assert(current@ =~= Seq::<char>::empty());
    while i < chars.len()
        invariant
            i <= chars@.len(),
            (views(done@), current@) == words_before(chars@.take(i as int)),
        decreases chars@.len() - i,
    {
        assert(chars@.take(i + 1).drop_last() =~= chars@.take(i as int));
        let c: char = nth(&chars, i);
        if !c.is_whitespace() {
            current.push(c);
        } else if current.as_str().unicode_len() > 0 {
            let ghost were = views(done@);
            let ghost word = current@;
            done.push(current);
            current = String::new();
            assert(views(done@) =~= were.push(word));
            assert(current@ =~= Seq::<char>::empty());
        }
        i += 1;
    }
    assert(chars@.take(chars@.len() as int) =~= s@);
    if current.as_str().unicode_len() > 0 {
        let ghost were = views(done@);
        let ghost word = current@;
        done.push(current);
        assert(views(done@) =~= were.push(word));
    }
    done
}

/// Texts one after another with a space in between.
pub open spec fn spaced(texts: Seq<Seq<char>>) -> Seq<char>
    decreases texts.len(),
{
    if texts.len() == 0 {
        Seq::empty()
    } else if texts.len() == 1 {
        texts[0]
    } else {
        spaced(texts.drop_last()) + seq![' '] + texts.last()
    }
}

/// Two runs of texts are strung together with one more space.
pub proof fn lemma_spaced_apart(a: Seq<Seq<char>>, b: Seq<Seq<char>>)
    requires
        a.len() > 0,
        b.len() > 0,
    ensures
        spaced(a + b) == spaced(a) + seq![' '] + spaced(b),
    decreases b.len(),
{
    assert((a + b).drop_last() =~= a + b.drop_last());
    assert((a + b).last() == b.last());
    if b.len() > 1 {
        lemma_spaced_apart(a, b.drop_last());
        assert(spaced(a + b) =~= spaced(a) + seq![' '] + spaced(b));
    } else {
        assert(b.drop_last() =~= Seq::<Seq<char>>::empty());
        assert(a + b.drop_last() =~= a);
    }
}

/// Texts one after another with a space in between.
pub fn join(texts: &Vec<String>) -> (r: String)
    ensures
        r@ == spaced(views(texts@)),
{
    let ghost all = views(texts@);
    let mut out: String = String::new();
    let mut i: usize = 0;
    assert(out@ =~= spaced(all.take(0)));
    while i < texts.len()
        invariant
            i <= texts@.len(),
            all == views(texts@),
            out@ == spaced(all.take(i as int)),
        decreases texts@.len() - i,
    {
        assert(all.take(i + 1).drop_last() =~= all.take(i as int));
        assert(all.take(i + 1).last() == texts@[i as int]@);
        if i > 0 {
            out.push(' ');
        }
        out.append(texts[i].as_str());
        assert(out@ =~= spaced(all.take(i + 1)));
        i += 1;
    }
    assert(all.take(all.len() as int) =~= all);
    out
}

/// Whether a text stands at a position of another.
pub open spec fn stands_at(s: Seq<char>, part: Seq<char>, i: int) -> bool {
    0 <= i && i + part.len() <= s.len() && s.subrange(i, i + part.len()) == part
}

/// The first position from `i` on at which a text stands in another.
pub open spec fn found_from(s: Seq<char>, part: Seq<char>, i: int) -> Option<int>
    decreases s.len() + 1 - i,
{
    if i < 0 || i > s.len() {
        None
    } else if stands_at(s, part, i) {
        Some(i)
    } else {
        found_from(s, part, i + 1)
    }
}

fn is_at(chars: &Vec<char>, part: &Vec<char>, i: usize) -> (r: bool)
    requires
        i <= chars@.len(),
    ensures
        r == stands_at(chars@, part@, i as int),
{
    if chars.len() - i < part.len() {
        return false;
    }
    let ghost here = chars@.subrange(i as int, i + part@.len());
    let mut k: usize = 0;
    while k < part.len()
        invariant
            k <= part@.len(),
            i + part@.len() <= chars@.len(),
            chars@.len() <= usize::MAX,
            here == chars@.subrange(i as int, i + part@.len()),
            forall|j: int| 0 <= j < k ==> here[j] == part@[j],
        decreases part@.len() - k,
    {
        if nth(chars, i + k) != nth(part, k) {
            assert(here[k as int] != part@[k as int]);
            return false;
        }
        k += 1;
    }
    assert(here =~= part@);
    true
}

/// Where a text first stands in another.
pub fn find(s: &str, part: &str) -> (r: Option<usize>)
    ensures
        match r {
            Some(i) => found_from(s@, part@, 0) == Some(i as int),
            None => found_from(s@, part@, 0) is None,
        },
{
    let chars: Vec<char> = chars_of(s);
    let letters: Vec<char> = chars_of(part);
    let mut i: usize = 0;
    let n: usize = chars.len();
    loop
        invariant
            chars@ == s@,
            letters@ == part@,
            n == chars@.len(),
            i <= n,
            found_from(s@, part@, 0) == found_from(s@, part@, i as int),
        decreases n - i,
    {
        if is_at(&chars, &letters, i) {
            return Some(i);
        }
        if i == n {
            assert(found_from(s@, part@, n + 1) is None);
            return None;
        }
        i += 1;
    }
}

/// Whether a text begins with another.
pub fn begins_with(s: &str, part: &str) -> (r: bool)
    ensures
        r == stands_at(s@, part@, 0),
{
    let chars: Vec<char> = chars_of(s);
    let letters: Vec<char> = chars_of(part);
    is_at(&chars, &letters, 0)
}

/// Whether a text ends with another.
pub fn finishes_with(s: &str, part: &str) -> (r: bool)
    ensures
        r == stands_at(s@, part@, s@.len() - part@.len()),
{
    let chars: Vec<char> = chars_of(s);
    let letters: Vec<char> = chars_of(part);
    letters.len() <= chars.len() && is_at(&chars, &letters, chars.len() - letters.len())
}

/// How many characters a text has.
pub fn length(s: &str) -> (r: usize)
    ensures
        r == s@.len(),
{
    s.unicode_len()
}

/// Texts one after another with a character in between.
pub open spec fn joined(texts: Seq<Seq<char>>, separator: char) -> Seq<char>
    decreases texts.len(),
{
    if texts.len() == 0 {
        Seq::empty()
    } else if texts.len() == 1 {
        texts[0]
    } else {
        joined(texts.drop_last(), separator).push(separator) + texts.last()
    }
}

/// The pieces of a text do not hold the character, and with the character between
/// them they make up the text.
pub proof fn lemma_pieces_make_up_the_text(s: Seq<char>, separator: char)
    ensures
        joined(pieces(s, separator), separator) == s,
        pieces(s, separator).len() >= 1,
        forall|i: int|
            0 <= i < pieces(s, separator).len() ==> !(#[trigger] pieces(s, separator)[i]).contains(
                separator,
            ),
    decreases s.len(),
{
    let all = pieces(s, separator);
    if s.len() == 0 {
        assert(joined(all, separator) =~= s);
    } else {
        let before = s.drop_last();
        let old_all = pieces(before, separator);
        lemma_pieces_make_up_the_text(before, separator);
        let n = all.len() - 1;
        if s.last() == separator {
            assert(all.drop_last() =~= old_all);
            assert(joined(all, separator) =~= before.push(separator));
            assert(before.push(separator) =~= s);
        } else {
            assert(all.drop_last() =~= old_all.drop_last());
            if all.len() == 1 {
                assert(joined(all, separator) =~= old_all.last().push(s.last()));
            } else {
                assert(joined(all, separator) =~= joined(old_all, separator).push(s.last()));
            }
            assert(before.push(s.last()) =~= s);
        }
        assert forall|i: int| 0 <= i < all.len() implies !(#[trigger] all[i]).contains(
            separator,
        ) by {
            if i < old_all.len() {
                assert(!old_all[i].contains(separator));
            }
            if all[i].contains(separator) {
                let k = all[i].index_of(separator);
                if i == n && s.last() != separator {
                    if k < old_all[i].len() {
                        assert(old_all[i][k] == separator);
                    }
                }
            }
        }
    }
}

/// The last piece of a text is what comes behind the last occurrence of the
/// character.
pub proof fn lemma_the_last_piece(a: Seq<char>, separator: char, b: Seq<char>)
    requires
        !b.contains(separator),
    ensures
        pieces(a.push(separator) + b, separator).last() == b,
    decreases b.len(),
{
    let s = a.push(separator) + b;
    if b.len() == 0 {
        assert(s =~= a.push(separator));
        assert(b =~= Seq::empty());
    } else {
        assert(s.drop_last() =~= a.push(separator) + b.drop_last());
        assert(s.last() == b.last());
        assert(b[b.len() - 1] == b.last());
        if b.drop_last().contains(separator) {
            let k = b.drop_last().index_of(separator);
            assert(b[k] == separator);
        }
        lemma_the_last_piece(a, separator, b.drop_last());
        assert(b.drop_last().push(b.last()) =~= b);
    }
}

/// What is found is the first place at which the text stands.
pub proof fn lemma_found_first(s: Seq<char>, part: Seq<char>, i: int)
    requires
        0 <= i,
    ensures
        match found_from(s, part, i) {
            Some(k) => i <= k && stands_at(s, part, k) && forall|j: int|
                i <= j < k ==> !#[trigger] stands_at(s, part, j),
            None => forall|j: int| i <= j ==> !#[trigger] stands_at(s, part, j),
        },
    decreases s.len() + 1 - i,
{
    if i <= s.len() && !stands_at(s, part, i) {
        lemma_found_first(s, part, i + 1);
    }
}

} // verus!
