//! Word lists: counting their words, and measuring the detector by them.
//!
//! A list has one word in each line, followed by how often it occurs.

use crate::detect::{Detector, Judge, Opinion, Verdict};
use crate::layout;
use crate::model;
use crate::text;
use vstd::hash_map::StringHashMap;
use vstd::prelude::*;
use vstd::string::{StrSliceExecFns, StringExecFns};

verus! {

/// Shorter words are kept only where they are frequent.
pub const MIN_TRIGRAM_LEN: usize = 2;

/// How often a short word must occur.
pub const SHORT_WORD_COUNT: u64 = 1000;

/// Words that occur less often are noise.
pub const MIN_COUNT: u64 = 2;

/// Shorter words are no measure of the detector.
pub const MIN_SAMPLE_LEN: usize = 3;

/// Whether a character is a decimal digit.
pub open spec fn is_digit(c: char) -> bool {
    '0' <= c <= '9'
}

/// The number that these digits make.
pub open spec fn number(digits: Seq<char>) -> nat
    decreases digits.len(),
{
    if digits.len() == 0 {
        0
    } else {
        10 * number(digits.drop_last()) + (digits.last() as nat - '0' as nat) as nat
    }
}

/// The digits of a number, which a plus sign may precede.
pub open spec fn unsigned(s: Seq<char>) -> Seq<char> {
    if s.len() > 0 && s[0] == '+' {
        s.skip(1)
    } else {
        s
    }
}

/// The number that a text stands for, if it stands for one that `u64` can hold.
pub open spec fn count_in(s: Seq<char>) -> Option<u64> {
    let digits = unsigned(s);
    if digits.len() > 0 && (forall|i: int| 0 <= i < digits.len() ==> is_digit(#[trigger] digits[i]))
        && number(digits) <= u64::MAX {
        Some(number(digits) as u64)
    } else {
        None
    }
}

proof fn lemma_number_grows(digits: Seq<char>, i: int)
    requires
        0 <= i <= digits.len(),
    ensures
        number(digits.take(i)) <= number(digits),
    decreases digits.len() - i,
{
    if i == digits.len() {
        assert(digits.take(i) =~= digits);
    } else {
        lemma_number_grows(digits, i + 1);
        assert(digits.take(i + 1).drop_last() =~= digits.take(i));
    }
}

/// Reads a number as `u64::from_str` does.
pub fn parse_count(s: &str) -> (r: Option<u64>)
    ensures
        r == count_in(s@),
{
    let chars: Vec<char> = text::chars_of(s);
    let start: usize = if chars.len() > 0 && text::nth(&chars, 0) == '+' {
        1
    } else {
        0
    };
    let ghost digits = unsigned(s@);
    assert(chars@.skip(start as int) =~= digits);
    if chars.len() == start {
        return None;
    }
    let mut n: u64 = 0;
    let mut i: usize = start;
    while i < chars.len()
        invariant
            chars@ == s@,
            digits == unsigned(s@),
            start <= i <= chars@.len(),
            start <= 1,
            digits == chars@.skip(start as int),
            forall|k: int| 0 <= k < i - start ==> is_digit(#[trigger] digits[k]),
            n == number(digits.take(i - start)),
        decreases chars@.len() - i,
    {
        let c: char = text::nth(&chars, i);
        let ghost k = i - start;
        assert(digits[k] == c);
        assert(digits.take(k + 1).drop_last() =~= digits.take(k));
        if !('0' <= c && c <= '9') {
            assert(!is_digit(digits[k]));
            return None;
        }
        proof {
            lemma_number_grows(digits, k + 1);
        }
        let digit: u64 = (c as u32 - 48) as u64;
        if n > (u64::MAX - digit) / 10 {
            assert(10 * n + digit > u64::MAX);
            return None;
        }
        n = 10 * n + digit;
        i += 1;
    }
    assert(digits.take(digits.len() as int) =~= digits);
    Some(n)
}

/// The word in a line and how often it occurs, if the line says so and the word
/// is vocabulary: it consists of letters, and is not too rare for its length.
pub open spec fn entry(line: Seq<char>) -> Option<(Seq<char>, u64)> {
    let words = text::words_of(line);
    if words.len() < 2 {
        None
    } else {
        match count_in(words[1]) {
            Some(count) => {
                let w = text::lowercase(words[0]);
                if count < MIN_COUNT || w.len() == 0 || !text::all_alphabetic(w) || (w.len()
                    < MIN_TRIGRAM_LEN && count < SHORT_WORD_COUNT) {
                    None
                } else {
                    Some((w, count))
                }
            },
            None => None,
        }
    }
}

fn read_entry(line: &str) -> (r: Option<(String, u64)>)
    ensures
        match r {
            Some((w, count)) => entry(line@) == Some((w@, count)),
            None => entry(line@) is None,
        },
{
    let words: Vec<String> = text::split_whitespace(line);
    let ghost all = text::views(words@);
    assert(all == text::words_of(line@));
    if words.len() < 2 {
        return None;
    }
    assert(all[0] == words@[0]@);
    assert(all[1] == words@[1]@);
    let count: u64 = match parse_count(words[1].as_str()) {
        Some(count) => count,
        None => {
            return None;
        },
    };
    if count < MIN_COUNT {
        return None;
    }
    let w: String = model::normalize(words[0].as_str());
    let len: usize = w.as_str().unicode_len();
    if len == 0 || !text::is_all_alphabetic(w.as_str()) {
        return None;
    }
    if len < MIN_TRIGRAM_LEN && count < SHORT_WORD_COUNT {
        return None;
    }
    Some((w, count))
}

/// How often each word occurs in these lines altogether, as far as `u64` goes.
pub open spec fn tally(lines: Seq<Seq<char>>) -> Map<Seq<char>, u64>
    decreases lines.len(),
{
    if lines.len() == 0 {
        Map::empty()
    } else {
        let before = tally(lines.drop_last());
        match entry(lines.last()) {
            Some((w, count)) => before.insert(
                w,
                if before.contains_key(w) {
                    together(before[w], count)
                } else {
                    count
                },
            ),
            None => before,
        }
    }
}

/// The sum, as far as `u64` goes.
pub open spec fn together(a: u64, b: u64) -> u64 {
    if a + b <= u64::MAX {
        (a + b) as u64
    } else {
        u64::MAX
    }
}

/// What a list of words and counts says.
pub open spec fn counts_view(counts: Seq<(String, u64)>) -> Map<Seq<char>, u64>
    decreases counts.len(),
{
    if counts.len() == 0 {
        Map::empty()
    } else {
        counts_view(counts.drop_last()).insert(counts.last().0@, counts.last().1)
    }
}

/// No word occurs twice in a list of words and counts.
pub open spec fn distinct(counts: Seq<(String, u64)>) -> bool {
    forall|i: int, j: int|
        0 <= i < j < counts.len() ==> (#[trigger] counts[i]).0@ != (#[trigger] counts[j]).0@
}

/// Where each word stands in a list of words and counts.
spec fn indexes(index: Map<Seq<char>, usize>, counts: Seq<(String, u64)>) -> bool {
    &&& forall|w: Seq<char>| #[trigger]
        index.contains_key(w) ==> index[w] < counts.len() && counts[index[w] as int].0@ == w
    &&& forall|i: int|
        0 <= i < counts.len() ==> index.contains_key((#[trigger] counts[i]).0@) && index[counts[i].0@]
            == i
}

proof fn lemma_counts_view(counts: Seq<(String, u64)>)
    requires
        distinct(counts),
    ensures
        forall|i: int|
            0 <= i < counts.len() ==> counts_view(counts).contains_key((#[trigger] counts[i]).0@)
                && counts_view(counts)[counts[i].0@] == counts[i].1,
        forall|w: Seq<char>| #[trigger]
            counts_view(counts).contains_key(w) ==> exists|i: int|
                0 <= i < counts.len() && (#[trigger] counts[i]).0@ == w,
    decreases counts.len(),
{
    if counts.len() > 0 {
        let before = counts.drop_last();
        assert forall|i: int, j: int| 0 <= i < j < before.len() implies (#[trigger] before[i]).0@
            != (#[trigger] before[j]).0@ by {
            assert(counts[i] == before[i]);
            assert(counts[j] == before[j]);
        }
        lemma_counts_view(before);
        let last = counts.len() - 1;
        assert forall|i: int| 0 <= i < counts.len() implies counts_view(counts).contains_key(
            (#[trigger] counts[i]).0@,
        ) && counts_view(counts)[counts[i].0@] == counts[i].1 by {
            if i < last {
                assert(before[i] == counts[i]);
                assert(counts[i].0@ != counts[last].0@);
            }
        }
        assert forall|w: Seq<char>| #[trigger] counts_view(counts).contains_key(w) implies exists|
            i: int,
        |
            0 <= i < counts.len() && (#[trigger] counts[i]).0@ == w by {
            if w != counts[last].0@ {
                assert(counts_view(before).contains_key(w));
                let i = choose|i: int| 0 <= i < before.len() && (#[trigger] before[i]).0@ == w;
                assert(counts[i] == before[i]);
            }
        }
    }
}

proof fn lemma_counts_update(counts: Seq<(String, u64)>, i: int, e: (String, u64))
    requires
        distinct(counts),
        0 <= i < counts.len(),
        e.0@ == counts[i].0@,
    ensures
        distinct(counts.update(i, e)),
        counts_view(counts.update(i, e)) == counts_view(counts).insert(e.0@, e.1),
{
    let after = counts.update(i, e);
    assert forall|j: int, k: int| 0 <= j < k < after.len() implies (#[trigger] after[j]).0@ != (
    #[trigger] after[k]).0@ by {
        assert(counts[j].0@ != counts[k].0@);
    }
    lemma_counts_view(counts);
    lemma_counts_view(after);
    let expected = counts_view(counts).insert(e.0@, e.1);
    assert forall|w: Seq<char>|
        counts_view(after).contains_key(w) == #[trigger] expected.contains_key(w) by {
        if counts_view(after).contains_key(w) {
            let k = choose|k: int| 0 <= k < after.len() && (#[trigger] after[k]).0@ == w;
            assert(counts_view(counts).contains_key(counts[k].0@));
        }
        if expected.contains_key(w) {
            if w == e.0@ {
                assert(counts_view(after).contains_key(after[i].0@));
            } else {
                let k = choose|k: int| 0 <= k < counts.len() && (#[trigger] counts[k]).0@ == w;
                assert(counts_view(after).contains_key(after[k].0@));
            }
        }
    }
    assert forall|w: Seq<char>| #[trigger] counts_view(after).contains_key(w) implies counts_view(
        after,
    )[w] == expected[w] by {
        let k = choose|k: int| 0 <= k < after.len() && (#[trigger] after[k]).0@ == w;
        assert(counts_view(after)[after[k].0@] == after[k].1);
        if k != i {
            assert(counts_view(counts)[counts[k].0@] == counts[k].1);
            assert(w != e.0@) by {
                if k < i {
                    assert(counts[k].0@ != counts[i].0@);
                } else {
                    assert(counts[i].0@ != counts[k].0@);
                }
            }
        }
    }
    assert(counts_view(after) =~= expected);
}

/// How often each word of a list occurs, each word once.
pub fn count_words(list: &str) -> (r: Vec<(String, u64)>)
    ensures
        counts_view(r@) == tally(text::pieces(list@, '\n')),
        distinct(r@),
{
    let lines: Vec<String> = text::split(list, '\n');
    let ghost all = text::views(lines@);
    let mut counts: Vec<(String, u64)> = Vec::new();
    let mut index: StringHashMap<usize> = StringHashMap::new();
    let mut i: usize = 0;
    while i < lines.len()
        invariant
            i <= lines@.len(),
            all == text::views(lines@),
            indexes(index@, counts@),
            distinct(counts@),
            counts_view(counts@) == tally(all.take(i as int)),
        decreases lines@.len() - i,
    {
        assert(all.take(i + 1).drop_last() =~= all.take(i as int));
        assert(all.take(i + 1).last() == lines@[i as int]@);
        if let Some((w, count)) = read_entry(lines[i].as_str()) {
            let ghost before = counts@;
            let known: Option<usize> = match index.get(w.as_str()) {
                Some(at) => Some(*at),
                None => None,
            };
            proof {
                lemma_counts_view(before);
            }
            match known {
                Some(at) => {
                    let (_, had) = counts[at];
                    let total: u64 = had.saturating_add(count);
                    assert(total == together(had, count));
                    let ghost new = (w, total);
                    proof {
                        lemma_counts_update(before, at as int, new);
                    }
                    counts.set(at, (w, total));
                    assert(counts@ =~= before.update(at as int, new));
                },
                None => {
                    assert(!counts_view(before).contains_key(w@)) by {
                        if counts_view(before).contains_key(w@) {
                            let k = choose|k: int|
                                0 <= k < before.len() && (#[trigger] before[k]).0@ == w@;
                            assert(index@.contains_key(before[k].0@));
                        }
                    }
                    index.insert(w.clone(), counts.len());
                    counts.push((w, count));
                    assert(counts@.drop_last() =~= before);
                },
            }
        }
        i += 1;
    }
    assert(all.take(all.len() as int) =~= all);
    counts
}

/// The words of these lines by which the detector is measured: the first of each
/// line, in lower case, if it is long enough and consists of letters.
pub open spec fn samples(lines: Seq<Seq<char>>) -> Seq<Seq<char>>
    decreases lines.len(),
{
    if lines.len() == 0 {
        Seq::empty()
    } else {
        let before = samples(lines.drop_last());
        match sample(lines.last()) {
            Some(w) => before.push(w),
            None => before,
        }
    }
}

pub open spec fn sample(line: Seq<char>) -> Option<Seq<char>> {
    let words = text::words_of(line);
    if words.len() == 0 {
        None
    } else {
        let w = text::lowercase(words[0]);
        if w.len() >= MIN_SAMPLE_LEN && text::all_alphabetic(w) {
            Some(w)
        } else {
            None
        }
    }
}

/// At most `n` of these.
pub open spec fn at_most(words: Seq<Seq<char>>, n: nat) -> Seq<Seq<char>> {
    if words.len() <= n {
        words
    } else {
        words.take(n as int)
    }
}

proof fn lemma_samples_prefix(lines: Seq<Seq<char>>, i: int)
    requires
        0 <= i <= lines.len(),
    ensures
        samples(lines.take(i)).len() <= samples(lines).len(),
        samples(lines).take(samples(lines.take(i)).len() as int) == samples(lines.take(i)),
    decreases lines.len() - i,
{
    if i == lines.len() {
        assert(lines.take(i) =~= lines);
        assert(samples(lines).take(samples(lines).len() as int) =~= samples(lines));
    } else {
        lemma_samples_prefix(lines, i + 1);
        assert(lines.take(i + 1).drop_last() =~= lines.take(i));
        let shorter = samples(lines.take(i));
        let longer = samples(lines.take(i + 1));
        assert(longer.take(shorter.len() as int) =~= shorter);
        assert(samples(lines).take(shorter.len() as int) =~= samples(lines).take(
            longer.len() as int,
        ).take(shorter.len() as int));
    }
}

/// The first `n` words of a list by which the detector is measured.
pub fn load_words(list: &str, n: usize) -> (r: Vec<String>)
    ensures
        text::views(r@) == at_most(samples(text::pieces(list@, '\n')), n as nat),
{
    let lines: Vec<String> = text::split(list, '\n');
    let ghost all = text::views(lines@);
    let mut out: Vec<String> = Vec::new();
    let mut i: usize = 0;
    assert(text::views(out@) =~= samples(all.take(0)));
    while i < lines.len() && out.len() < n
        invariant
            i <= lines@.len(),
            all == text::views(lines@),
            text::views(out@) == samples(all.take(i as int)),
            out@.len() <= n,
        decreases lines@.len() - i,
    {
        assert(all.take(i + 1).drop_last() =~= all.take(i as int));
        assert(all.take(i + 1).last() == lines@[i as int]@);
        let words: Vec<String> = text::split_whitespace(lines[i].as_str());
        assert(text::views(words@).len() == words@.len());
        if words.len() > 0 {
            assert(text::views(words@)[0] == words@[0]@);
            let w: String = model::normalize(words[0].as_str());
            if w.as_str().unicode_len() >= MIN_SAMPLE_LEN && text::is_all_alphabetic(w.as_str()) {
                let ghost were = text::views(out@);
                let ghost new = w@;
                out.push(w);
                assert(text::views(out@) =~= were.push(new));
            }
        }
        i += 1;
    }
    proof {
        lemma_samples_prefix(all, i as int);
        if i == all.len() {
            assert(all.take(i as int) =~= all);
        }
        assert(text::views(out@).len() == out@.len());
        assert(text::views(out@) =~= at_most(samples(all), n as nat));
    }
    out
}

/// Whether a word meant for `target` but typed on `typed_on` is recovered.
pub open spec fn recovered(
    judge: Judge,
    word: Seq<char>,
    target: Seq<char>,
    typed_on: Seq<char>,
) -> bool {
    match layout::converted_by_id(word, target, typed_on) {
        Some(mistyped) => judge.opinion(mistyped, typed_on) matches Opinion::Switch(r) && r.converted
            == word,
        None => false,
    }
}

/// How many of these words meant for `target` but typed on `typed_on` are
/// recovered, and how many could be tried.
pub open spec fn recall_of(
    judge: Judge,
    words: Seq<Seq<char>>,
    target: Seq<char>,
    typed_on: Seq<char>,
) -> (nat, nat)
    decreases words.len(),
{
    if words.len() == 0 {
        (0, 0)
    } else {
        let (fixed, total) = recall_of(judge, words.drop_last(), target, typed_on);
        (
            fixed + if recovered(judge, words.last(), target, typed_on) {
                1nat
            } else {
                0
            },
            total + if layout::converted_by_id(words.last(), target, typed_on) is Some {
                1nat
            } else {
                0
            },
        )
    }
}

/// How many of these words meant for `target` but typed on `typed_on` are
/// recovered, and how many could be tried.
pub fn recall(detector: &Detector, words: &Vec<String>, target: &str, typed_on: &str) -> (r: (
    usize,
    usize,
))
    ensures
        (r.0 as nat, r.1 as nat) == recall_of(
            detector@,
            text::views(words@),
            target@,
            typed_on@,
        ),
        r.0 <= r.1 <= words@.len(),
{
    let ghost all = text::views(words@);
    let mut fixed: usize = 0;
    let mut total: usize = 0;
    let mut i: usize = 0;
    while i < words.len()
        invariant
            i <= words@.len(),
            all == text::views(words@),
            fixed <= total <= i,
            (fixed as nat, total as nat) == recall_of(
                detector@,
                all.take(i as int),
                target@,
                typed_on@,
            ),
        decreases words@.len() - i,
    {
        assert(all.take(i + 1).drop_last() =~= all.take(i as int));
        assert(all.take(i + 1).last() == words@[i as int]@);
        if let Some(mistyped) = layout::convert_by_id(words[i].as_str(), target, typed_on) {
            total += 1;
            if let Verdict::Switch(c) = detector.evaluate(mistyped.as_str(), typed_on) {
                if text::same(c.converted.as_str(), words[i].as_str()) {
                    fixed += 1;
                }
            }
        }
        i += 1;
    }
    assert(all.take(all.len() as int) =~= all);
    (fixed, total)
}

/// How many of these words, typed on their own layout, would be rewritten.
pub open spec fn wrecked(judge: Judge, words: Seq<Seq<char>>, layout: Seq<char>) -> nat
    decreases words.len(),
{
    if words.len() == 0 {
        0
    } else {
        wrecked(judge, words.drop_last(), layout) + if judge.opinion(
            words.last(),
            layout,
        ) is Switch {
            1nat
        } else {
            0
        }
    }
}

/// How many of these words, typed on their own layout, would be rewritten, and
/// how many there are.
pub fn false_positives(detector: &Detector, words: &Vec<String>, layout: &str) -> (r: (usize, usize))
    ensures
        r.0 == wrecked(detector@, text::views(words@), layout@),
        r.1 == words@.len(),
        r.0 <= r.1,
{
    let ghost all = text::views(words@);
    let mut bad: usize = 0;
    let mut i: usize = 0;
    while i < words.len()
        invariant
            i <= words@.len(),
            all == text::views(words@),
            bad <= i,
            bad == wrecked(detector@, all.take(i as int), layout@),
        decreases words@.len() - i,
    {
        assert(all.take(i + 1).drop_last() =~= all.take(i as int));
        assert(all.take(i + 1).last() == words@[i as int]@);
        if detector.evaluate(words[i].as_str(), layout).is_switch() {
            bad += 1;
        }
        i += 1;
    }
    assert(all.take(all.len() as int) =~= all);
    (bad, words.len())
}

/// A count for each of these trigrams that is this one.
pub open spec fn hits(tris: Seq<Seq<char>>, t: Seq<char>, count: u64) -> Seq<u64>
    decreases tris.len(),
{
    if tris.len() == 0 {
        Seq::empty()
    } else if tris.last() == t {
        hits(tris.drop_last(), t, count).push(count)
    } else {
        hits(tris.drop_last(), t, count)
    }
}

/// The trigrams of a word in lower case.
pub open spec fn lower_trigrams(word: Seq<char>) -> Seq<Seq<char>> {
    if text::lowercase(word).len() == 0 {
        Seq::empty()
    } else {
        model::trigrams_of(text::lowercase(word))
    }
}

/// The counts of the words that hold a trigram, in order, one for each time that
/// they hold it.
pub open spec fn sources(counts: Seq<(String, u64)>, t: Seq<char>) -> Seq<u64>
    decreases counts.len(),
{
    if counts.len() == 0 {
        Seq::empty()
    } else {
        sources(counts.drop_last(), t) + hits(
            lower_trigrams(counts.last().0@),
            t,
            counts.last().1,
        )
    }
}

/// Where each trigram stands in a list of trigrams and counts.
spec fn places(index: Map<Seq<char>, usize>, list: Seq<(String, Vec<u64>)>) -> bool {
    &&& forall|t: Seq<char>| #[trigger]
        index.contains_key(t) ==> index[t] < list.len() && list[index[t] as int].0@ == t
    &&& forall|i: int|
        0 <= i < list.len() ==> index.contains_key((#[trigger] list[i]).0@) && index[list[i].0@]
            == i
}

/// Whether a list holds, for every trigram, the counts that this gives.
spec fn holds_counts(
    index: Map<Seq<char>, usize>,
    list: Seq<(String, Vec<u64>)>,
    counts: Seq<(String, u64)>,
    tris: Seq<Seq<char>>,
    count: u64,
) -> bool {
    &&& forall|i: int|
        0 <= i < list.len() ==> (#[trigger] list[i]).1@ == sources(counts, list[i].0@) + hits(
            tris,
            list[i].0@,
            count,
        )
    &&& forall|t: Seq<char>|
        !(#[trigger] index.contains_key(t)) ==> (sources(counts, t) + hits(tris, t, count)).len()
            == 0
}

/// One more trigram.
fn add_trigram(
    index: &mut StringHashMap<usize>,
    list: &mut Vec<(String, Vec<u64>)>,
    t: &String,
    count: u64,
    Ghost(counts): Ghost<Seq<(String, u64)>>,
    Ghost(tris): Ghost<Seq<Seq<char>>>,
)
    requires
        places(old(index)@, old(list)@),
        holds_counts(old(index)@, old(list)@, counts, tris, count),
    ensures
        places(final(index)@, final(list)@),
        holds_counts(final(index)@, final(list)@, counts, tris.push(t@), count),
{
    let ghost before = list@;
    let ghost known_before = index@;
    let ghost longer = tris.push(t@);
    assert(longer.drop_last() =~= tris);
    let known: Option<usize> = match index.get(t.as_str()) {
        Some(at) => Some(*at),
        None => None,
    };
    match known {
        Some(at) => {
            let (name, mut list_at): (String, Vec<u64>) = take_entry(list, at);
            list_at.push(count);
            list.set(at, (name, list_at));
            assert(list@.len() == before.len());
            assert forall|i: int| 0 <= i < list@.len() implies (#[trigger] list@[i]).0@
                == before[i].0@ by {}
            assert forall|i: int| 0 <= i < list@.len() implies (#[trigger] list@[i]).1@ == sources(
                counts,
                list@[i].0@,
            ) + hits(longer, list@[i].0@, count) by {
                assert(before[i].1@ == sources(counts, before[i].0@) + hits(
                    tris,
                    before[i].0@,
                    count,
                ));
                if i == at {
                    assert(list@[i].1@ =~= sources(counts, list@[i].0@) + hits(
                        longer,
                        list@[i].0@,
                        count,
                    ));
                } else {
                    assert(index@[before[i].0@] == i);
                    assert(before[i].0@ != t@);
                }
            }
            assert forall|k: Seq<char>| !(#[trigger] index@.contains_key(k)) implies (sources(
                counts,
                k,
            ) + hits(longer, k, count)).len() == 0 by {
                assert((sources(counts, k) + hits(tris, k, count)).len() == 0);
            }
            assert forall|i: int| 0 <= i < list@.len() implies index@.contains_key(
                (#[trigger] list@[i]).0@,
            ) && index@[list@[i].0@] == i by {
                assert(index@.contains_key(before[i].0@));
            }
        },
        None => {
            let mut first: Vec<u64> = Vec::new();
            first.push(count);
            index.insert(t.clone(), list.len());
            list.push((t.clone(), first));
            assert((sources(counts, t@) + hits(tris, t@, count)).len() == 0) by {
                assert(!known_before.contains_key(t@));
            }
            assert forall|i: int| 0 <= i < list@.len() implies (#[trigger] list@[i]).1@ == sources(
                counts,
                list@[i].0@,
            ) + hits(longer, list@[i].0@, count) by {
                if i < before.len() {
                    assert(list@[i] == before[i]);
                    assert(known_before.contains_key(before[i].0@));
                    assert(before[i].0@ != t@);
                } else {
                    assert(list@[i].1@ =~= sources(counts, t@) + hits(longer, t@, count));
                }
            }
            assert forall|k: Seq<char>| !(#[trigger] index@.contains_key(k)) implies (sources(
                counts,
                k,
            ) + hits(longer, k, count)).len() == 0 by {
                assert(!known_before.contains_key(k));
                assert((sources(counts, k) + hits(tris, k, count)).len() == 0);
            }
            assert forall|i: int| 0 <= i < list@.len() implies index@.contains_key(
                (#[trigger] list@[i]).0@,
            ) && index@[list@[i].0@] == i by {
                if i < before.len() {
                    assert(list@[i] == before[i]);
                    assert(known_before.contains_key(before[i].0@));
                    assert(before[i].0@ != t@);
                }
            }
            assert forall|k: Seq<char>| #[trigger] index@.contains_key(k) implies index@[k]
                < list@.len() && list@[index@[k] as int].0@ == k by {
                if k != t@ {
                    assert(known_before.contains_key(k));
                }
            }
        },
    }
}

/// Takes an entry out of a list, leaving an empty one in its place.
fn take_entry(list: &mut Vec<(String, Vec<u64>)>, at: usize) -> (r: (String, Vec<u64>))
    requires
        at < old(list)@.len(),
    ensures
        r == old(list)@[at as int],
        final(list)@.len() == old(list)@.len(),
        forall|i: int|
            0 <= i < old(list)@.len() && i != at ==> #[trigger] final(list)@[i] == old(list)@[i],
{
    let last: usize = list.len() - 1;
    let entry: (String, Vec<u64>) = list.swap_remove(at);
    list.push((String::new(), Vec::new()));
    if at < last {
        let moved: (String, Vec<u64>) = list.swap_remove(at);
        list.push(moved);
    }
    entry
}

/// Every trigram of these words in lower case, with the counts of the words that
/// hold it.
pub fn trigram_sources(counts: &Vec<(String, u64)>) -> (r: Vec<(String, Vec<u64>)>)
    ensures
        forall|i: int, j: int|
            0 <= i < j < r@.len() ==> (#[trigger] r@[i]).0@ != (#[trigger] r@[j]).0@,
        forall|i: int| 0 <= i < r@.len() ==> (#[trigger] r@[i]).1@ == sources(counts@, r@[i].0@),
        forall|t: Seq<char>|
            (#[trigger] sources(counts@, t)).len() > 0 ==> exists|i: int|
                0 <= i < r@.len() && (#[trigger] r@[i]).0@ == t,
{
    let mut index: StringHashMap<usize> = StringHashMap::new();
    let mut list: Vec<(String, Vec<u64>)> = Vec::new();
    let mut k: usize = 0;
    while k < counts.len()
        invariant
            k <= counts@.len(),
            places(index@, list@),
            holds_counts(index@, list@, counts@.take(k as int), Seq::empty(), 0),
        decreases counts@.len() - k,
    {
        let count: u64 = counts[k].1;
        let w: String = model::normalize(counts[k].0.as_str());
        let ghost word = counts@[k as int].0@;
        let ghost before = counts@.take(k as int);
        let ghost after = counts@.take(k + 1);
        assert(after.drop_last() =~= before);
        assert(after.last() == counts@[k as int]);
        let tris: Vec<String> = if w.as_str().unicode_len() == 0 {
            Vec::new()
        } else {
            model::trigrams(w.as_str())
        };
        let ghost all = text::views(tris@);
        assert(all =~= lower_trigrams(word));
        assert(holds_counts(index@, list@, before, all.take(0), count)) by {
            assert forall|t: Seq<char>| #[trigger]
                hits(all.take(0), t, count) == hits(Seq::empty(), t, 0) by {}
        }
        let mut m: usize = 0;
        while m < tris.len()
            invariant
                m <= tris@.len(),
                all == text::views(tris@),
                places(index@, list@),
                holds_counts(index@, list@, before, all.take(m as int), count),
            decreases tris@.len() - m,
        {
            assert(all.take(m + 1) =~= all.take(m as int).push(tris@[m as int]@));
            add_trigram(
                &mut index,
                &mut list,
                &tris[m],
                count,
                Ghost(before),
                Ghost(all.take(m as int)),
            );
            m += 1;
        }
        assert(all.take(all.len() as int) =~= all);
        assert(holds_counts(index@, list@, after, Seq::empty(), 0)) by {
            assert forall|t: Seq<char>| #[trigger]
                sources(after, t) == sources(before, t) + hits(all, t, count) by {}
            assert forall|t: Seq<char>| #[trigger]
                sources(after, t) + hits(Seq::empty(), t, 0) == sources(after, t) by {
                assert(sources(after, t) + hits(Seq::empty(), t, 0) =~= sources(after, t));
            }
        }
        k += 1;
    }
    proof {
        assert(counts@.take(counts@.len() as int) =~= counts@);
        assert forall|i: int| 0 <= i < list@.len() implies (#[trigger] list@[i]).1@ == sources(
            counts@,
            list@[i].0@,
        ) by {
            assert(list@[i].1@ =~= sources(counts@, list@[i].0@));
        }
        assert forall|t: Seq<char>| (#[trigger] sources(counts@, t)).len() > 0 implies exists|
            i: int,
        |
            0 <= i < list@.len() && (#[trigger] list@[i]).0@ == t by {
            if !index@.contains_key(t) {
                assert((sources(counts@, t) + hits(Seq::empty(), t, 0)).len() == 0);
            }
            assert(list@[index@[t] as int].0@ == t);
        }
        assert forall|i: int, j: int| 0 <= i < j < list@.len() implies (#[trigger] list@[i]).0@ != (
        #[trigger] list@[j]).0@ by {
            assert(index@[list@[i].0@] == i);
            assert(index@[list@[j].0@] == j);
        }
    }
    list
}

/// The hashes of these words in lower case, in order, each with the word's count.
/// A word of which nothing is left has none.
pub open spec fn hashes(counts: Seq<(String, u64)>) -> Seq<(u32, u64)>
    decreases counts.len(),
{
    if counts.len() == 0 {
        Seq::empty()
    } else {
        let before = hashes(counts.drop_last());
        let word = text::lowercase(counts.last().0@);
        if word.len() == 0 {
            before
        } else {
            before.push((model::hash_of(word), counts.last().1))
        }
    }
}

/// The hashes of these words in lower case, each with the word's count.
pub fn word_hashes(counts: &Vec<(String, u64)>) -> (r: Vec<(u32, u64)>)
    ensures
        r@ == hashes(counts@),
{
    let mut out: Vec<(u32, u64)> = Vec::new();
    let mut i: usize = 0;
    assert(counts@.take(0) =~= Seq::empty());
    while i < counts.len()
        invariant
            i <= counts@.len(),
            out@ == hashes(counts@.take(i as int)),
        decreases counts@.len() - i,
    {
        assert(counts@.take(i + 1).drop_last() =~= counts@.take(i as int));
        let word: String = model::normalize(counts[i].0.as_str());
        if word.as_str().unicode_len() > 0 {
            out.push((model::hash_str(word.as_str()), counts[i].1));
        }
        i += 1;
    }
    assert(counts@.take(counts@.len() as int) =~= counts@);
    out
}

/// How the file name of a word list ends.
pub const LIST_SUFFIX: &'static str = "_50k.txt";

/// How the file name of a model ends.
pub const MODEL_SUFFIX: &'static str = ".rkm";

/// The language of a word list by its file name, which begins with it and an
/// underscore, if it is the file name of one.
pub open spec fn language_of(name: Seq<char>) -> Option<Seq<char>> {
    if text::stands_at(name, LIST_SUFFIX@, name.len() - LIST_SUFFIX@.len()) {
        Some(text::pieces(name, '_')[0])
    } else {
        None
    }
}

/// The language of a word list by its file name, if it is the file name of one.
pub fn list_language(name: &str) -> (r: Option<String>)
    ensures
        text::optional(r) == language_of(name@),
{
    if !text::finishes_with(name, LIST_SUFFIX) {
        return None;
    }
    let mut pieces: Vec<String> = text::split(name, '_');
    proof {
        text::lemma_pieces_nonempty(name@, '_');
        assert(text::views(pieces@)[0] == pieces@[0]@);
    }
    Some(pieces.remove(0))
}

/// The file name of the word list of a language.
pub fn list_name(lang: &str) -> (r: String)
    ensures
        r@ == lang@ + LIST_SUFFIX@,
{
    let mut name: String = lang.to_owned();
    name.append(LIST_SUFFIX);
    name
}

/// The file name of the model of a language.
pub fn model_name(lang: &str) -> (r: String)
    ensures
        r@ == lang@ + MODEL_SUFFIX@,
{
    let mut name: String = lang.to_owned();
    name.append(MODEL_SUFFIX);
    name
}

/// The word list of a language is found by its file name again, for a language
/// whose name has no underscore.
pub proof fn lemma_lists_are_found(lang: Seq<char>)
    requires
        !lang.contains('_'),
    ensures
        language_of(lang + LIST_SUFFIX@) == Some(lang),
{
    reveal_strlit("_50k.txt");
    let name = lang + LIST_SUFFIX@;
    assert(name.subrange(lang.len() as int, name.len() as int) =~= LIST_SUFFIX@);
    lemma_first_piece(name, '_', lang.len() as int);
    assert(name.take(lang.len() as int) =~= lang);
}

proof fn lemma_first_piece(s: Seq<char>, separator: char, i: int)
    requires
        0 <= i < s.len(),
        s[i] == separator,
        forall|j: int| 0 <= j < i ==> s[j] != separator,
    ensures
        text::pieces(s, separator).len() >= 2,
        text::pieces(s, separator)[0] == s.take(i),
    decreases s.len(),
{
    let before = s.drop_last();
    text::lemma_pieces_nonempty(before, separator);
    if i < s.len() - 1 {
        lemma_first_piece(before, separator, i);
        assert(before.take(i) =~= s.take(i));
    } else {
        text::lemma_only_piece(before, separator);
        assert(before =~= s.take(i));
    }
}

proof fn lemma_digits(n: nat)
    ensures
        number(text::digits(n)) == n,
        text::digits(n).len() > 0,
        forall|i: int|
            0 <= i < text::digits(n).len() ==> is_digit(#[trigger] text::digits(n)[i]),
    decreases n,
{
    let d = text::digits(n);
    if n < 10 {
        assert(d.drop_last() =~= Seq::empty());
        assert(number(d.drop_last()) == 0);
        assert(d.last() as int == 0x30 + n);
    } else {
        lemma_digits(n / 10);
        assert(d.drop_last() =~= text::digits(n / 10));
        assert(d.last() as int == 0x30 + n % 10);
        assert forall|i: int| 0 <= i < d.len() implies is_digit(#[trigger] d[i]) by {
            if i < d.len() - 1 {
                assert(d[i] == text::digits(n / 10)[i]);
            }
        }
    }
}

/// A number written in decimal is read back as it was, with a plus sign or without.
pub proof fn lemma_numbers_are_read_back(n: u64)
    ensures
        count_in(text::digits(n as nat)) == Some(n),
        count_in(seq!['+'] + text::digits(n as nat)) == Some(n),
{
    let d = text::digits(n as nat);
    lemma_digits(n as nat);
    assert(is_digit(d[0]));
    assert((seq!['+'] + d).skip(1) =~= d);
}

/// Which lines count: those with a word of letters and behind it a number of at least
/// 2, or of at least 1000 for a word of one letter. What else is in the line does not
/// matter.
pub proof fn lemma_which_lines_count(line: Seq<char>, w: Seq<char>, count: u64)
    ensures
        entry(line) == Some((w, count)) <==> {
            let words = text::words_of(line);
            &&& words.len() >= 2
            &&& w == text::lowercase(words[0])
            &&& count_in(words[1]) == Some(count)
            &&& w.len() > 0
            &&& forall|i: int| 0 <= i < w.len() ==> text::alphabetic(#[trigger] w[i])
            &&& count >= 2
            &&& w.len() == 1 ==> count >= 1000
        },
{
}

/// How often a word occurs by what these lines say of it.
pub open spec fn said_of(lines: Seq<Seq<char>>, w: Seq<char>) -> nat
    decreases lines.len(),
{
    if lines.len() == 0 {
        0
    } else {
        said_of(lines.drop_last(), w) + match entry(lines.last()) {
            Some((v, count)) => if v == w {
                count as nat
            } else {
                0
            },
            None => 0,
        }
    }
}

/// A word is counted exactly if some line counts for it, and its count is the sum of
/// what the lines say of it, as far as a counter goes.
pub proof fn lemma_counts_are_sums(lines: Seq<Seq<char>>, w: Seq<char>)
    ensures
        tally(lines).contains_key(w) <==> exists|i: int|
            0 <= i < lines.len() && (entry(#[trigger] lines[i]) matches Some((v, _)) && v == w),
        tally(lines).contains_key(w) ==> tally(lines)[w] == if said_of(lines, w) <= u64::MAX {
            said_of(lines, w)
        } else {
            u64::MAX as nat
        },
        !tally(lines).contains_key(w) ==> said_of(lines, w) == 0,
    decreases lines.len(),
{
    if lines.len() > 0 {
        let before = lines.drop_last();
        let n = lines.len() - 1;
        lemma_counts_are_sums(before, w);
        assert(lines[n] == lines.last());
        if tally(before).contains_key(w) {
            let i = choose|i: int|
                0 <= i < before.len() && (entry(#[trigger] before[i]) matches Some((v, _)) && v
                    == w);
            assert(lines[i] == before[i]);
        }
        if exists|i: int|
            0 <= i < lines.len() && (entry(#[trigger] lines[i]) matches Some((v, _)) && v == w) {
            let i = choose|i: int|
                0 <= i < lines.len() && (entry(#[trigger] lines[i]) matches Some((v, _)) && v
                    == w);
            if i < n {
                assert(before[i] == lines[i]);
            }
        }
    }
}

/// A line gives a word to measure by exactly if it begins with one of at least three
/// letters, and the words of some lines and others are those of the ones and those of
/// the others; of too many the first ones are taken.
pub proof fn lemma_what_is_measured_by(
    a: Seq<Seq<char>>,
    b: Seq<Seq<char>>,
    line: Seq<char>,
    w: Seq<char>,
    n: nat,
)
    ensures
        sample(line) == Some(w) <==> {
            &&& text::words_of(line).len() > 0
            &&& w == text::lowercase(text::words_of(line)[0])
            &&& w.len() >= 3
            &&& forall|i: int| 0 <= i < w.len() ==> text::alphabetic(#[trigger] w[i])
        },
        samples(a + b) == samples(a) + samples(b),
        sample(line) == Some(w) ==> samples(seq![line]) == seq![w],
        sample(line) is None ==> samples(seq![line]).len() == 0,
        at_most(a, n).len() <= n,
        at_most(a, n).len() == n || at_most(a, n) == a,
        forall|i: int| 0 <= i < at_most(a, n).len() ==> #[trigger] at_most(a, n)[i] == a[i],
    decreases b.len(),
{
    if b.len() == 0 {
        assert(a + b =~= a);
        assert(samples(a) + samples(b) =~= samples(a));
    } else {
        assert((a + b).drop_last() =~= a + b.drop_last());
        assert((a + b).last() == b.last());
        lemma_what_is_measured_by(a, b.drop_last(), line, w, n);
        assert(samples(a + b) =~= samples(a) + samples(b));
    }
    assert(seq![line].drop_last() =~= Seq::empty());
    assert(seq![line].last() == line);
    assert(samples(seq![line].drop_last()) =~= Seq::empty());
    if sample(line) == Some(w) {
        assert(samples(seq![line]) =~= seq![w]);
    }
}

/// Recall is counted word by word: one more that could be tried where the word can be
/// typed on the other layout, and one more that is recovered where the detector, given
/// what that types, would switch to the word itself.
pub proof fn lemma_recall_is_counted_word_by_word(
    judge: Judge,
    words: Seq<Seq<char>>,
    w: Seq<char>,
    target: Seq<char>,
    typed_on: Seq<char>,
)
    ensures
        ({
            let (fixed, total) = recall_of(judge, words, target, typed_on);
            let (now, tried) = recall_of(judge, words.push(w), target, typed_on);
            let mistyped = layout::converted_by_id(w, target, typed_on);
            let fixes = mistyped is Some && judge.opinion(mistyped->0, typed_on) is Switch
                && judge.opinion(mistyped->0, typed_on)->Switch_0.converted == w;
            &&& tried == total + if mistyped is Some {
                1int
            } else {
                0
            }
            &&& now == fixed + if fixes {
                1int
            } else {
                0
            }
            &&& recall_of(judge, Seq::empty(), target, typed_on) == (0nat, 0nat)
        }),
{
    assert(words.push(w).drop_last() =~= words);
}

/// Never more words are recovered than could be tried, nor tried than there are.
pub proof fn lemma_recall_is_a_part(
    judge: Judge,
    words: Seq<Seq<char>>,
    target: Seq<char>,
    typed_on: Seq<char>,
)
    ensures
        recall_of(judge, words, target, typed_on).0 <= recall_of(
            judge,
            words,
            target,
            typed_on,
        ).1 <= words.len(),
    decreases words.len(),
{
    if words.len() > 0 {
        lemma_recall_is_a_part(judge, words.drop_last(), target, typed_on);
    }
}

/// Words that would be rewritten are counted one by one: those on which the opinion is
/// to switch.
pub proof fn lemma_wrecked_words_are_counted(
    judge: Judge,
    words: Seq<Seq<char>>,
    w: Seq<char>,
    layout: Seq<char>,
)
    ensures
        wrecked(judge, words.push(w), layout) == wrecked(judge, words, layout) + if judge.opinion(
            w,
            layout,
        ) is Switch {
            1int
        } else {
            0
        },
        wrecked(judge, Seq::empty(), layout) == 0,
{
    assert(words.push(w).drop_last() =~= words);
}

proof fn lemma_hits(tris: Seq<Seq<char>>, t: Seq<char>, count: u64)
    ensures
        hits(tris, t, count).len() == tris.to_multiset().count(t),
        forall|i: int|
            0 <= i < hits(tris, t, count).len() ==> #[trigger] hits(tris, t, count)[i] == count,
    decreases tris.len(),
{
    if tris.len() > 0 {
        let before = tris.drop_last();
        lemma_hits(before, t, count);
        before.to_multiset_ensures();
        assert(before.push(tris.last()) =~= tris);
        assert(tris.to_multiset() =~= before.to_multiset().insert(tris.last()));
    } else {
        tris.to_multiset_ensures();
        assert(tris.to_multiset().count(t) == 0) by {
            assert(!tris.contains(t));
        }
    }
}

/// A trigram is counted for one more word with that word's count, once for each time
/// that the word in lower case holds it, and not at all for a word that does not.
pub proof fn lemma_trigrams_are_counted_word_by_word(
    counts: Seq<(String, u64)>,
    one: (String, u64),
    t: Seq<char>,
)
    ensures
        ({
            let before = sources(counts, t);
            let after = sources(counts.push(one), t);
            let tris = model::trigrams_of(text::lowercase(one.0@));
            &&& before.len() <= after.len()
            &&& after.take(before.len() as int) == before
            &&& forall|i: int| before.len() <= i < after.len() ==> #[trigger] after[i] == one.1
            &&& text::lowercase(one.0@).len() > 0 ==> after.len() == before.len()
                + tris.to_multiset().count(t)
            &&& text::lowercase(one.0@).len() == 0 ==> after == before
        }),
{
    assert(counts.push(one).drop_last() =~= counts);
    let more = hits(lower_trigrams(one.0@), t, one.1);
    let before = sources(counts, t);
    let after = sources(counts.push(one), t);
    lemma_hits(lower_trigrams(one.0@), t, one.1);
    assert(after == before + more);
    assert(after.take(before.len() as int) =~= before);
    assert forall|i: int| before.len() <= i < after.len() implies #[trigger] after[i] == one.1 by {
        assert(after[i] == more[i - before.len()]);
    }
    if text::lowercase(one.0@).len() == 0 {
        assert(more.len() == 0);
        assert(after =~= before);
    }
}

/// One more word has one more hash, that of the word in lower case with its count,
/// behind the others.
pub proof fn lemma_words_are_hashed_one_by_one(counts: Seq<(String, u64)>, one: (String, u64))
    ensures
        text::lowercase(one.0@).len() > 0 ==> hashes(counts.push(one)) == hashes(counts).push(
            (model::hash_of(text::lowercase(one.0@)), one.1),
        ),
        text::lowercase(one.0@).len() == 0 ==> hashes(counts.push(one)) == hashes(counts),
        hashes(Seq::empty()).len() == 0,
{
    assert(counts.push(one).drop_last() =~= counts);
}

/// Only a name that ends as those of word lists do is one, and the name of a model is
/// not.
pub proof fn lemma_only_lists_are_lists(name: Seq<char>)
    ensures
        language_of(name) is Some <==> {
            let n = name.len() as int;
            &&& n >= 8
            &&& name[n - 8] == '_' && name[n - 7] == '5' && name[n - 6] == '0' && name[n - 5] == 'k'
            &&& name[n - 4] == '.' && name[n - 3] == 't' && name[n - 2] == 'x' && name[n - 1] == 't'
        },
{
    reveal_strlit("_50k.txt");
    let n = name.len() as int;
    if n >= 8 {
        let end = name.subrange(n - 8, n);
        if language_of(name) is Some {
            assert(end == LIST_SUFFIX@);
            assert(end[0] == name[n - 8] && end[1] == name[n - 7] && end[2] == name[n - 6]);
            assert(end[3] == name[n - 5] && end[4] == name[n - 4] && end[5] == name[n - 3]);
            assert(end[6] == name[n - 2] && end[7] == name[n - 1]);
        }
        if name[n - 8] == '_' && name[n - 7] == '5' && name[n - 6] == '0' && name[n - 5] == 'k'
            && name[n - 4] == '.' && name[n - 3] == 't' && name[n - 2] == 'x' && name[n - 1] == 't' {
            assert(end =~= LIST_SUFFIX@);
        }
    }
}

} // verus!
