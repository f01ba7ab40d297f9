//! How plausible a text is as a word of a language.
//!
//! A model holds two tables. The word table gives the log10 probability of the
//! words it was trained on. The trigram table gives that of three characters in
//! a row, by which words that the word table misses are judged: typing errors,
//! inflections, names, new slang. Both are keyed by a hash of the text and
//! sorted by it.

use crate::single;
use crate::single::Single;
use crate::text;
use vstd::prelude::*;

verus! {

/// The first bytes of a model file.
pub const MAGIC: [u8; 4] = [0x52, 0x4b, 0x4d, 0x32];

/// The version of the file format.
pub const VERSION: u16 = 2;

/// The mark that stands before and after a word in its trigrams.
pub const BOUND: char = '\u{2}';

/// -7, the score of a trigram that never occurred.
pub const UNSEEN_TRIGRAM: u32 = 0xc0e0_0000;

/// -3, added to the score of a word that the word table does not hold.
pub const OOV_PENALTY: u32 = 0xc040_0000;

/// A trained model for one language.
#[derive(Debug, Clone)]
pub struct Model {
    pub lang: String,
    /// Hashes of words and their log10 probabilities.
    pub words: Vec<(u32, Single)>,
    /// Hashes of trigrams and their log10 probabilities.
    pub trigrams: Vec<(u32, Single)>,
}

/// What a [`Model`] says.
#[verifier::ext_equal]
pub struct Lexicon {
    pub lang: Seq<char>,
    pub words: Seq<(u32, Single)>,
    pub trigrams: Seq<(u32, Single)>,
}

impl View for Model {
    type V = Lexicon;

    open spec fn view(&self) -> Lexicon {
        Lexicon { lang: self.lang@, words: self.words@, trigrams: self.trigrams@ }
    }
}

/// The 32-bit FNV-1a hash of these bytes.
pub open spec fn fnv1a(bytes: Seq<u8>) -> u32
    decreases bytes.len(),
{
    if bytes.len() == 0 {
        0x811c_9dc5
    } else {
        (fnv1a(bytes.drop_last()) ^ (bytes.last() as u32)).wrapping_mul(0x0100_0193)
    }
}

/// The hash of a text.
pub open spec fn hash_of(s: Seq<char>) -> u32 {
    fnv1a(vstd::utf8::encode_utf8(s))
}

/// FNV-1a of a text's UTF-8.
pub fn hash_str(s: &str) -> (r: u32)
    ensures
        r == hash_of(s@),
{
    let bytes: &[u8] = s.as_bytes();
    let mut h: u32 = 0x811c_9dc5;
    let mut i: usize = 0;
    while i < bytes.len()
        invariant
            i <= bytes@.len(),
            h == fnv1a(bytes@.take(i as int)),
        decreases bytes@.len() - i,
    {
        assert(bytes@.take(i + 1).drop_last() =~= bytes@.take(i as int));
        h = h ^ (bytes[i] as u32);
        h = h.wrapping_mul(0x0100_0193);
        i += 1;
    }
    assert(bytes@.take(bytes@.len() as int) =~= bytes@);
    h
}

/// A word as it is looked up: in lower case, with its diacritics.
pub fn normalize(word: &str) -> (r: String)
    ensures
        r@ == text::lowercase(word@),
{
    text::to_lowercase(word)
}

/// A word between its boundary marks.
pub open spec fn padded(word: Seq<char>) -> Seq<char> {
    seq![BOUND, BOUND] + word + seq![BOUND, BOUND]
}

/// The trigrams of a word, in order.
pub open spec fn trigrams_of(word: Seq<char>) -> Seq<Seq<char>> {
    Seq::new(word.len() + 2, |i: int| padded(word).subrange(i, i + 3))
}

/// The padded trigrams of a word: for `abc`, with `_` for the boundary mark,
/// `__a`, `_ab`, `abc`, `bc_`, `c__`.
pub fn trigrams(word: &str) -> (r: Vec<String>)
    ensures
        text::views(r@) == trigrams_of(word@),
{
    let mut chars: Vec<char> = Vec::new();
    chars.push(BOUND);
    chars.push(BOUND);
    let mut letters: Vec<char> = text::chars_of(word);
    chars.append(&mut letters);
    chars.push(BOUND);
    chars.push(BOUND);
    assert(chars@ =~= padded(word@));
    let mut out: Vec<String> = Vec::new();
    let mut i: usize = 0;
    while i < chars.len() - 2
        invariant
            chars@ == padded(word@),
            chars@.len() == word@.len() + 4,
            i <= word@.len() + 2,
            text::views(out@) == trigrams_of(word@).take(i as int),
        decreases word@.len() + 2 - i,
    {
        let ghost was = out@;
        let t: String = text::slice_of(chars.as_slice(), i, i + 3);
        assert(t@ == trigrams_of(word@)[i as int]);
        out.push(t);
        assert(text::views(out@) =~= text::views(was).push(t@));
        assert(trigrams_of(word@).take(i + 1) =~= trigrams_of(word@).take(i as int).push(t@));
        i += 1;
    }
    assert(trigrams_of(word@).take((word@.len() + 2) as int) =~= trigrams_of(word@));
    out
}

/// What a binary search for `key` finds between `lo` and `hi`.
pub open spec fn bisect(table: Seq<(u32, Single)>, key: u32, lo: int, hi: int) -> Option<Single>
    decreases hi - lo,
{
    if lo >= hi {
        None
    } else {
        let mid = lo + (hi - lo) / 2;
        if table[mid].0 == key {
            Some(table[mid].1)
        } else if table[mid].0 < key {
            bisect(table, key, mid + 1, hi)
        } else {
            bisect(table, key, lo, mid)
        }
    }
}

/// What a table holds under a hash.
pub open spec fn lookup(table: Seq<(u32, Single)>, key: u32) -> Option<Single> {
    bisect(table, key, 0, table.len() as int)
}

/// A table in ascending order of its hashes, each of which occurs once.
pub open spec fn ascending(table: Seq<(u32, Single)>) -> bool {
    forall|i: int, j: int|
        0 <= i < j < table.len() ==> (#[trigger] table[i]).0 < (#[trigger] table[j]).0
}

proof fn lemma_bisect(table: Seq<(u32, Single)>, key: u32, lo: int, hi: int)
    requires
        ascending(table),
        0 <= lo <= hi <= table.len(),
    ensures
        bisect(table, key, lo, hi) matches Some(p) ==> exists|i: int|
            lo <= i < hi && #[trigger] table[i] == (key, p),
        bisect(table, key, lo, hi) is None ==> forall|i: int|
            lo <= i < hi ==> (#[trigger] table[i]).0 != key,
    decreases hi - lo,
{
    if lo < hi {
        let mid = lo + (hi - lo) / 2;
        if table[mid].0 == key {
            assert(table[mid] == (key, table[mid].1));
        } else if table[mid].0 < key {
            lemma_bisect(table, key, mid + 1, hi);
        } else {
            lemma_bisect(table, key, lo, mid);
        }
    }
}

/// In an ascending table a lookup finds what is there, and nothing else.
pub proof fn lemma_lookup(table: Seq<(u32, Single)>, key: u32)
    requires
        ascending(table),
    ensures
        forall|i: int|
            0 <= i < table.len() && (#[trigger] table[i]).0 == key ==> lookup(table, key) == Some(
                table[i].1,
            ),
        lookup(table, key) is Some ==> exists|i: int|
            0 <= i < table.len() && (#[trigger] table[i]).0 == key,
{
    lemma_bisect(table, key, 0, table.len() as int);
    assert forall|i: int| 0 <= i < table.len() && (#[trigger] table[i]).0 == key implies lookup(
        table,
        key,
    ) == Some(table[i].1) by {
        let p = lookup(table, key)->0;
        let k = choose|k: int| 0 <= k < table.len() && #[trigger] table[k] == (key, p);
        assert(table[k].0 == key);
        if k < i {
            assert(table[k].0 < table[i].0);
        } else if i < k {
            assert(table[i].0 < table[k].0);
        }
    }
}

fn find(table: &Vec<(u32, Single)>, key: u32) -> (r: Option<Single>)
    ensures
        r == lookup(table@, key),
{
    let mut lo: usize = 0;
    let mut hi: usize = table.len();
    while lo < hi
        invariant
            lo <= hi <= table@.len(),
            lookup(table@, key) == bisect(table@, key, lo as int, hi as int),
        decreases hi - lo,
    {
        let mid: usize = lo + (hi - lo) / 2;
        let (hash, logp) = table[mid];
        if hash == key {
            return Some(logp);
        }
        if hash < key {
            lo = mid + 1;
        } else {
            hi = mid;
        }
    }
    None
}

impl Lexicon {
    /// The log10 probability of a word that the word table holds.
    pub open spec fn word(self, w: Seq<char>) -> Option<Single> {
        lookup(self.words, hash_of(w))
    }

    pub open spec fn trigram(self, t: Seq<char>) -> Single {
        match lookup(self.trigrams, hash_of(t)) {
            Some(logp) => logp,
            None => Single { bits: UNSEEN_TRIGRAM },
        }
    }

    /// The sum of the scores of these trigrams, from the first to the last.
    pub open spec fn total(self, tris: Seq<Seq<char>>) -> Single
        decreases tris.len(),
    {
        if tris.len() == 0 {
            Single { bits: single::SIGN_BIT }
        } else {
            self.total(tris.drop_last()).sum(self.trigram(tris.last()))
        }
    }

    /// The mean score of the trigrams of a word.
    pub open spec fn shape(self, w: Seq<char>) -> Single {
        self.total(trigrams_of(w)).quotient(single::count(trigrams_of(w).len()))
    }

    /// How plausible a text is as a word of the language.
    pub open spec fn plausibility(self, w: Seq<char>) -> Single {
        match self.word(text::lowercase(w)) {
            Some(logp) => logp,
            None => self.shape(text::lowercase(w)).sum(Single { bits: OOV_PENALTY }),
        }
    }
}

/// A text with the characters at `i` and `i + 1` exchanged.
pub open spec fn exchanged(w: Seq<char>, i: int) -> Seq<char> {
    w.update(i, w[i + 1]).update(i + 1, w[i])
}

/// A word with one character left out, in order of its position.
pub open spec fn deletions(w: Seq<char>) -> Seq<Seq<char>> {
    Seq::new(w.len(), |i: int| w.remove(i))
}

/// A word with two neighbouring characters exchanged, in order of position.
pub open spec fn transpositions(w: Seq<char>) -> Seq<Seq<char>> {
    Seq::new(
        if w.len() == 0 {
            0
        } else {
            (w.len() - 1) as nat
        },
        |i: int| exchanged(w, i),
    )
}

/// A word with another of its first `n` characters replaced by this letter.
pub open spec fn substitutions(w: Seq<char>, letter: char, n: int) -> Seq<Seq<char>>
    decreases n,
{
    if n <= 0 {
        Seq::empty()
    } else if w[n - 1] == letter {
        substitutions(w, letter, n - 1)
    } else {
        substitutions(w, letter, n - 1).push(w.update(n - 1, letter))
    }
}

/// A word with this letter inserted, in order of its position.
pub open spec fn insertions(w: Seq<char>, letter: char) -> Seq<Seq<char>> {
    Seq::new(w.len() + 1, |i: int| w.insert(i, letter))
}

/// The substitutions and insertions of each letter of an alphabet.
pub open spec fn letter_edits(w: Seq<char>, alphabet: Seq<char>) -> Seq<Seq<char>>
    decreases alphabet.len(),
{
    if alphabet.len() == 0 {
        Seq::empty()
    } else {
        letter_edits(w, alphabet.drop_last()) + substitutions(
            w,
            alphabet.last(),
            w.len() as int,
        ) + insertions(w, alphabet.last())
    }
}

/// Everything one typing slip away from a word: a character typed too much, two
/// in the wrong order, a wrong one, one missed out.
pub open spec fn edits(w: Seq<char>, alphabet: Seq<char>) -> Seq<Seq<char>> {
    deletions(w) + transpositions(w) + letter_edits(w, alphabet)
}

impl Lexicon {
    /// The better of what was found before and what a word scores.
    pub open spec fn better(self, best: Option<Single>, w: Seq<char>) -> Option<Single> {
        match (self.word(w), best) {
            (Some(logp), Some(b)) => if b.is_less(logp) {
                Some(logp)
            } else {
                Some(b)
            },
            (Some(logp), None) => Some(logp),
            (None, _) => best,
        }
    }

    /// The best score among these words.
    pub open spec fn best(self, words: Seq<Seq<char>>) -> Option<Single>
        decreases words.len(),
    {
        if words.len() == 0 {
            None
        } else {
            self.better(self.best(words.drop_last()), words.last())
        }
    }
}

impl Model {
    /// A model that knows nothing.
    pub fn new(lang: &str) -> (r: Model)
        ensures
            r@ == (Lexicon { lang: lang@, words: Seq::empty(), trigrams: Seq::empty() }),
    {
        let m = Model { lang: lang.to_owned(), words: Vec::new(), trigrams: Vec::new() };
        assert(m@ =~= (Lexicon { lang: lang@, words: Seq::empty(), trigrams: Seq::empty() }));
        m
    }

    pub fn word_count(&self) -> (r: usize)
        ensures
            r == self@.words.len(),
    {
        self.words.len()
    }

    pub fn trigram_count(&self) -> (r: usize)
        ensures
            r == self@.trigrams.len(),
    {
        self.trigrams.len()
    }

    /// The log10 probability of a word, if the word table holds it.
    pub fn word_logp(&self, word: &str) -> (r: Option<Single>)
        ensures
            r == self@.word(word@),
    {
        find(&self.words, hash_str(word))
    }

    /// Whether the word table holds this word, as it stands.
    pub fn knows(&self, word: &str) -> (r: bool)
        ensures
            r == (self@.word(word@) is Some),
    {
        self.word_logp(word).is_some()
    }

    fn trigram_logp(&self, t: &str) -> (r: Single)
        ensures
            r == self@.trigram(t@),
    {
        match find(&self.trigrams, hash_str(t)) {
            Some(logp) => logp,
            None => Single { bits: UNSEEN_TRIGRAM },
        }
    }

    /// The mean score of a word's trigrams.
    pub fn shape_score(&self, word: &str) -> (r: Single)
        ensures
            r == self@.shape(word@),
    {
        let tris: Vec<String> = trigrams(word);
        let mut sum: Single = Single { bits: single::SIGN_BIT };
        let mut i: usize = 0;
        let ghost all = text::views(tris@);
        while i < tris.len()
            invariant
                i <= tris@.len(),
                all == text::views(tris@),
                sum == self@.total(all.take(i as int)),
            decreases tris@.len() - i,
        {
            assert(all.take(i + 1).drop_last() =~= all.take(i as int));
            assert(all.take(i + 1).last() == tris@[i as int]@);
            sum = sum.plus(self.trigram_logp(tris[i].as_str()));
            i += 1;
        }
        assert(all.take(all.len() as int) =~= all);
        assert(tris@.len() == trigrams_of(word@).len());
        sum.divided_by(Single::from_count(tris.len()))
    }

    /// How plausible a text is as a word of the language, in log10 units: the
    /// probability of a known word, and of another one how its letters look less
    /// a penalty.
    pub fn score(&self, word: &str) -> (r: Single)
        ensures
            r == self@.plausibility(word@),
    {
        let w: String = normalize(word);
        match self.word_logp(w.as_str()) {
            Some(logp) => logp,
            None => self.shape_score(w.as_str()).plus(Single { bits: OOV_PENALTY }),
        }
    }
}

proof fn lemma_best_step(lexicon: Lexicon, words: Seq<Seq<char>>, w: Seq<char>)
    ensures
        lexicon.best(words.push(w)) == lexicon.better(lexicon.best(words), w),
{
    assert(words.push(w).drop_last() =~= words);
}

/// The best score among these words is that of one of them, and no score among
/// them is higher.
pub proof fn lemma_best(lexicon: Lexicon, words: Seq<Seq<char>>)
    ensures
        match lexicon.best(words) {
            Some(b) => {
                &&& exists|i: int| 0 <= i < words.len() && lexicon.word(#[trigger] words[i]) == Some(b)
                &&& forall|i: int|
                    0 <= i < words.len() ==> (lexicon.word(#[trigger] words[i]) matches Some(logp)
                        ==> b.nan() || !b.is_less(logp))
            },
            None => forall|i: int|
                0 <= i < words.len() ==> lexicon.word(#[trigger] words[i]) is None,
        },
    decreases words.len(),
{
    if words.len() > 0 {
        let before = words.drop_last();
        lemma_best(lexicon, before);
        assert(lexicon.word(words[words.len() - 1]) == lexicon.word(words.last()));
        match lexicon.best(words) {
            Some(b) => {
                if lexicon.best(before) == Some(b) {
                    let i = choose|i: int|
                        0 <= i < before.len() && lexicon.word(#[trigger] before[i]) == Some(b);
                    assert(lexicon.word(words[i]) == Some(b));
                } else {
                    assert(lexicon.word(words[words.len() - 1]) == Some(b));
                }
                assert forall|i: int| 0 <= i < words.len() implies (lexicon.word(
                    #[trigger] words[i],
                ) matches Some(logp) ==> b.nan() || !b.is_less(logp)) by {
                    if i < before.len() {
                        assert(words[i] == before[i]);
                    }
                }
            },
            None => {
                assert forall|i: int| 0 <= i < words.len() implies lexicon.word(
                    #[trigger] words[i],
                ) is None by {
                    if i < before.len() {
                        assert(words[i] == before[i]);
                    }
                }
            },
        }
    }
}

impl Model {
    fn consider(&self, best: Option<Single>, candidate: &Vec<char>) -> (r: Option<Single>)
        ensures
            r == self@.better(best, candidate@),
    {
        let word: String = text::text_of(candidate.as_slice());
        match self.word_logp(word.as_str()) {
            Some(logp) => match best {
                Some(b) => if b.less_than(logp) {
                    Some(logp)
                } else {
                    Some(b)
                },
                None => Some(logp),
            },
            None => best,
        }
    }

    /// The score of the most likely word within one typing slip of `word`.
    pub fn best_within_one_edit(&self, word: &str, alphabet: &[char]) -> (r: Option<Single>)
        ensures
            r == self@.best(edits(word@, alphabet@)),
    {
        let chars: Vec<char> = text::chars_of(word);
        let n: usize = chars.len();
        let mut best: Option<Single> = None;
        let ghost mut done: Seq<Seq<char>> = Seq::empty();

        let mut i: usize = 0;
        while i < n
            invariant
                chars@ == word@,
                n == chars@.len(),
                i <= n,
                done == deletions(word@).take(i as int),
                best == self@.best(done),
            decreases n - i,
        {
            let mut shorter: Vec<char> = text::copy_chars(&chars);
            shorter.remove(i);
            best = self.consider(best, &shorter);
            proof {
                assert(shorter@ =~= deletions(word@)[i as int]);
                lemma_best_step(self@, done, shorter@);
                done = done.push(shorter@);
                assert(done =~= deletions(word@).take(i + 1));
            }
            i += 1;
        }
        assert(done =~= deletions(word@));
        assert(done =~= deletions(word@) + transpositions(word@).take(0));

        let mut i: usize = 0;
        while n > 0 && i < n - 1
            invariant
                chars@ == word@,
                n == chars@.len(),
                i <= transpositions(word@).len(),
                done == deletions(word@) + transpositions(word@).take(i as int),
                best == self@.best(done),
            decreases n - i,
        {
            let mut swapped: Vec<char> = text::copy_chars(&chars);
            swapped.set(i, text::nth(&chars, i + 1));
            swapped.set(i + 1, text::nth(&chars, i));
            best = self.consider(best, &swapped);
            proof {
                assert(swapped@ =~= transpositions(word@)[i as int]);
                lemma_best_step(self@, done, swapped@);
                done = done.push(swapped@);
                assert(done =~= deletions(word@) + transpositions(word@).take(i + 1));
            }
            i += 1;
        }
        let ghost slips = deletions(word@) + transpositions(word@);
        assert(transpositions(word@).take(i as int) =~= transpositions(word@));
        assert(done =~= slips + letter_edits(word@, alphabet@.take(0)));

        let mut a: usize = 0;
        while a < alphabet.len()
            invariant
                chars@ == word@,
                n == chars@.len(),
                a <= alphabet@.len(),
                done == slips + letter_edits(word@, alphabet@.take(a as int)),
                best == self@.best(done),
            decreases alphabet@.len() - a,
        {
            let letter: char = alphabet[a];
            let ghost base = done;
            let ghost upto = alphabet@.take(a + 1);
            assert(upto.drop_last() =~= alphabet@.take(a as int));
            assert(upto.last() == letter);
            assert(done =~= base + substitutions(word@, letter, 0));
            let mut i: usize = 0;
            while i < n
                invariant
                    chars@ == word@,
                    n == chars@.len(),
                    i <= n,
                    done == base + substitutions(word@, letter, i as int),
                    best == self@.best(done),
                decreases n - i,
            {
                if text::nth(&chars, i) != letter {
                    let mut replaced: Vec<char> = text::copy_chars(&chars);
                    replaced.set(i, letter);
                    best = self.consider(best, &replaced);
                    proof {
                        lemma_best_step(self@, done, replaced@);
                        done = done.push(replaced@);
                        assert(done =~= base + substitutions(word@, letter, i + 1));
                    }
                }
                i += 1;
            }
            let ghost replaced_all = done;
            assert(done =~= replaced_all + insertions(word@, letter).take(0));
            let mut i: usize = 0;
            while i < n
                invariant
                    chars@ == word@,
                    n == chars@.len(),
                    i <= n,
                    done == replaced_all + insertions(word@, letter).take(i as int),
                    best == self@.best(done),
                decreases n - i,
            {
                let mut longer: Vec<char> = text::copy_chars(&chars);
                longer.insert(i, letter);
                best = self.consider(best, &longer);
                proof {
                    assert(longer@ =~= insertions(word@, letter)[i as int]);
                    lemma_best_step(self@, done, longer@);
                    done = done.push(longer@);
                    assert(done =~= replaced_all + insertions(word@, letter).take(i + 1));
                }
                i += 1;
            }
            let mut longer: Vec<char> = text::copy_chars(&chars);
            longer.push(letter);
            best = self.consider(best, &longer);
            proof {
                assert(longer@ =~= insertions(word@, letter)[n as int]);
                lemma_best_step(self@, done, longer@);
                done = done.push(longer@);
                assert(done =~= replaced_all + insertions(word@, letter).take(n + 1));
            }
            assert(insertions(word@, letter).take(n + 1) =~= insertions(word@, letter));
            assert(done =~= slips + letter_edits(word@, upto));
            a += 1;
        }
        assert(alphabet@.take(alphabet@.len() as int) =~= alphabet@);
        assert(done =~= edits(word@, alphabet@));
        best
    }
}

/// In order of the hashes, equal ones side by side.
pub open spec fn sorted(table: Seq<(u32, Single)>) -> bool {
    forall|i: int, j: int|
        0 <= i < j < table.len() ==> (#[trigger] table[i]).0 <= (#[trigger] table[j]).0
}

/// `slice::sort_unstable_by_key` keeps the entries and puts them in order of
/// the key. Which of two entries with one hash comes first is not said.
#[verifier::external_body]
fn sort_by_hash(table: &mut Vec<(u32, Single)>)
    ensures
        final(table)@.to_multiset() == old(table)@.to_multiset(),
        sorted(final(table)@),
{
    table.sort_unstable_by_key(|e| e.0)
}

/// A table sorted for lookup, with one entry for each hash among these.
fn table_of(entries: Vec<(u32, Single)>) -> (r: Vec<(u32, Single)>)
    ensures
        ascending(r@),
        forall|i: int| 0 <= i < r@.len() ==> entries@.contains(#[trigger] r@[i]),
        forall|i: int|
            0 <= i < entries@.len() ==> lookup(r@, (#[trigger] entries@[i]).0) is Some,
{
    let mut all: Vec<(u32, Single)> = entries;
    sort_by_hash(&mut all);
    proof {
        entries@.to_multiset_ensures();
        all@.to_multiset_ensures();
    }
    let mut out: Vec<(u32, Single)> = Vec::new();
    let mut i: usize = 0;
    while i < all.len()
        invariant
            i <= all@.len(),
            sorted(all@),
            ascending(out@),
            forall|k: int| 0 <= k < out@.len() ==> all@.contains(#[trigger] out@[k]),
            i > 0 ==> out@.len() > 0 && out@.last().0 == all@[i - 1].0,
            i == 0 ==> out@.len() == 0,
            forall|k: int|
                0 <= k < i ==> exists|j: int|
                    0 <= j < out@.len() && (#[trigger] out@[j]).0 == (#[trigger] all@[k]).0,
        decreases all@.len() - i,
    {
        let entry: (u32, Single) = all[i];
        let ghost was = out@;
        assert(all@.contains(all@[i as int]));
        if out.len() == 0 || out[out.len() - 1].0 != entry.0 {
            out.push(entry);
            assert forall|k: int| 0 <= k < i implies exists|j: int|
                0 <= j < out@.len() && (#[trigger] out@[j]).0 == (#[trigger] all@[k]).0 by {
                let j = choose|j: int| 0 <= j < was.len() && (#[trigger] was[j]).0 == all@[k].0;
                assert(out@[j] == was[j]);
            }
        }
        assert(out@[out@.len() - 1].0 == all@[i as int].0);
        i += 1;
    }
    assert forall|k: int| 0 <= k < out@.len() implies entries@.contains(#[trigger] out@[k]) by {
        assert(all@.contains(out@[k]));
        assert(all@.to_multiset().count(out@[k]) > 0);
    }
    assert forall|k: int| 0 <= k < entries@.len() implies lookup(
        out@,
        (#[trigger] entries@[k]).0,
    ) is Some by {
        assert(entries@.contains(entries@[k]));
        assert(all@.to_multiset().count(entries@[k]) > 0);
        let m = choose|m: int| 0 <= m < all@.len() && all@[m] == entries@[k];
        let j = choose|j: int| 0 <= j < out@.len() && (#[trigger] out@[j]).0 == all@[m].0;
        lemma_lookup(out@, entries@[k].0);
    }
    out
}

impl Model {
    /// A model with these words and trigrams, given by hash. Of several entries
    /// for one hash one is kept.
    pub fn from_tables(
        lang: &str,
        words: Vec<(u32, Single)>,
        trigrams: Vec<(u32, Single)>,
    ) -> (r: Model)
        ensures
            r@.lang == lang@,
            ascending(r@.words),
            ascending(r@.trigrams),
            forall|i: int| 0 <= i < r@.words.len() ==> words@.contains(#[trigger] r@.words[i]),
            forall|i: int|
                0 <= i < r@.trigrams.len() ==> trigrams@.contains(#[trigger] r@.trigrams[i]),
            forall|i: int|
                0 <= i < words@.len() ==> lookup(r@.words, (#[trigger] words@[i]).0) is Some,
            forall|i: int|
                0 <= i < trigrams@.len() ==> lookup(
                    r@.trigrams,
                    (#[trigger] trigrams@[i]).0,
                ) is Some,
    {
        Model { lang: lang.to_owned(), words: table_of(words), trigrams: table_of(trigrams) }
    }
}

/// The models, one for each language.
#[derive(Debug, Clone)]
pub struct Models {
    pub list: Vec<Model>,
}

/// The last of these models for each language.
pub open spec fn by_lang(list: Seq<Model>) -> Map<Seq<char>, Lexicon>
    decreases list.len(),
{
    if list.len() == 0 {
        Map::empty()
    } else {
        by_lang(list.drop_last()).insert(list.last()@.lang, list.last()@)
    }
}

impl View for Models {
    type V = Map<Seq<char>, Lexicon>;

    open spec fn view(&self) -> Map<Seq<char>, Lexicon> {
        by_lang(self.list@)
    }
}

proof fn lemma_by_lang(list: Seq<Model>, lang: Seq<char>)
    ensures
        by_lang(list).contains_key(lang) <==> exists|i: int|
            0 <= i < list.len() && (#[trigger] list[i])@.lang == lang,
    decreases list.len(),
{
    if list.len() > 0 {
        lemma_by_lang(list.drop_last(), lang);
        if by_lang(list).contains_key(lang) && list.last()@.lang != lang {
            let i = choose|i: int|
                0 <= i < list.drop_last().len() && (#[trigger] list.drop_last()[i])@.lang == lang;
            assert(list[i]@.lang == lang);
        }
        if exists|i: int| 0 <= i < list.len() && (#[trigger] list[i])@.lang == lang {
            let i = choose|i: int| 0 <= i < list.len() && (#[trigger] list[i])@.lang == lang;
            if i < list.len() - 1 {
                assert(list.drop_last()[i]@.lang == lang);
            }
        }
        if list.last()@.lang == lang {
            assert(list[list.len() - 1]@.lang == lang);
        }
    }
}

/// Nothing behind `n` changes what the first `n` say of a language that does not
/// occur there.
proof fn lemma_by_lang_prefix(list: Seq<Model>, lang: Seq<char>, n: int)
    requires
        0 <= n <= list.len(),
        forall|i: int| n <= i < list.len() ==> (#[trigger] list[i])@.lang != lang,
    ensures
        by_lang(list).contains_key(lang) == by_lang(list.take(n)).contains_key(lang),
        by_lang(list).contains_key(lang) ==> by_lang(list)[lang] == by_lang(list.take(n))[lang],
    decreases list.len(),
{
    if n == list.len() {
        assert(list.take(n) =~= list);
    } else {
        assert(list.drop_last().take(n) =~= list.take(n));
        assert(list[list.len() - 1]@.lang != lang);
        lemma_by_lang_prefix(list.drop_last(), lang, n);
    }
}

proof fn lemma_by_lang_update(list: Seq<Model>, n: int, m: Model)
    requires
        0 <= n < list.len(),
        list[n]@.lang == m@.lang,
        forall|i: int| n < i < list.len() ==> (#[trigger] list[i])@.lang != m@.lang,
    ensures
        by_lang(list.update(n, m)) == by_lang(list).insert(m@.lang, m@),
    decreases list.len(),
{
    let after = list.update(n, m);
    if n == list.len() - 1 {
        assert(after.drop_last() =~= list.drop_last());
    } else {
        assert(after.drop_last() =~= list.drop_last().update(n, m));
        assert(list[list.len() - 1]@.lang != m@.lang);
        lemma_by_lang_update(list.drop_last(), n, m);
    }
    assert(by_lang(after) =~= by_lang(list).insert(m@.lang, m@));
}

impl Default for Models {
    fn default() -> (r: Models)
        ensures
            r@ == Map::<Seq<char>, Lexicon>::empty(),
    {
        Models::new()
    }
}

impl Models {
    pub fn new() -> (r: Models)
        ensures
            r@ == Map::<Seq<char>, Lexicon>::empty(),
    {
        Models { list: Vec::new() }
    }

    /// The position behind the last model of a language.
    fn position(&self, lang: &str) -> (r: usize)
        ensures
            r <= self.list@.len(),
            r > 0 ==> self.list@[r - 1]@.lang == lang@,
            forall|i: int| r <= i < self.list@.len() ==> (#[trigger] self.list@[i])@.lang != lang@,
    {
        let mut n: usize = self.list.len();
        while n > 0
            invariant
                n <= self.list@.len(),
                forall|i: int|
                    n <= i < self.list@.len() ==> (#[trigger] self.list@[i])@.lang != lang@,
            decreases n,
        {
            if text::same(self.list[n - 1].lang.as_str(), lang) {
                return n;
            }
            n -= 1;
        }
        0
    }

    /// Adds a model, in place of an earlier one for the language.
    pub fn insert(&mut self, model: Model)
        ensures
            final(self)@ == old(self)@.insert(model@.lang, model@),
    {
        let n: usize = self.position(model.lang.as_str());
        if n > 0 {
            proof {
                lemma_by_lang_update(self.list@, n - 1, model);
            }
            self.list.set(n - 1, model);
        } else {
            let ghost was = self.list@;
            self.list.push(model);
            assert(self.list@.drop_last() =~= was);
        }
    }

    pub fn get(&self, lang: &str) -> (r: Option<&Model>)
        ensures
            match r {
                Some(m) => self@.contains_key(lang@) && self@[lang@] == m@,
                None => !self@.contains_key(lang@),
            },
    {
        let n: usize = self.position(lang);
        proof {
            lemma_by_lang(self.list@, lang@);
            lemma_by_lang_prefix(self.list@, lang@, n as int);
        }
        if n > 0 {
            assert(self.list@.take(n as int).last() == self.list@[n - 1]);
            Some(&self.list[n - 1])
        } else {
            None
        }
    }

    pub fn has(&self, lang: &str) -> (r: bool)
        ensures
            r == self@.contains_key(lang@),
    {
        self.get(lang).is_some()
    }

    /// The languages there is a model for, each once.
    pub fn langs(&self) -> (r: Vec<&str>)
        ensures
            forall|i: int, j: int|
                0 <= i < j < r@.len() ==> (#[trigger] r@[i])@ != (#[trigger] r@[j])@,
            forall|l: Seq<char>| #[trigger]
                self@.contains_key(l) <==> exists|i: int|
                    0 <= i < r@.len() && (#[trigger] r@[i])@ == l,
    {
        let mut out: Vec<&str> = Vec::new();
        let mut k: usize = 0;
        while k < self.list.len()
            invariant
                k <= self.list@.len(),
                forall|i: int, j: int|
                    0 <= i < j < out@.len() ==> (#[trigger] out@[i])@ != (#[trigger] out@[j])@,
                forall|i: int|
                    0 <= i < out@.len() ==> exists|j: int|
                        0 <= j < self.list@.len() && (#[trigger] self.list@[j])@.lang == (
                        #[trigger] out@[i])@,
                forall|j: int|
                    0 <= j < k ==> exists|i: int|
                        0 <= i < out@.len() && (#[trigger] out@[i])@ == (
                        #[trigger] self.list@[j])@.lang,
            decreases self.list@.len() - k,
        {
            let lang: &str = self.list[k].lang.as_str();
            let mut seen: bool = false;
            let mut i: usize = 0;
            while i < out.len()
                invariant
                    i <= out@.len(),
                    seen <==> exists|j: int| 0 <= j < i && (#[trigger] out@[j])@ == lang@,
                decreases out@.len() - i,
            {
                if text::same(out[i], lang) {
                    seen = true;
                }
                i += 1;
            }
            let ghost was = out@;
            if !seen {
                out.push(lang);
            }
            assert forall|j: int| 0 <= j < k + 1 implies exists|i: int|
                0 <= i < out@.len() && (#[trigger] out@[i])@ == (#[trigger] self.list@[j])@.lang by {
                if j < k {
                    let i = choose|i: int|
                        0 <= i < was.len() && (#[trigger] was[i])@ == self.list@[j]@.lang;
                    assert(out@[i] == was[i]);
                } else if !seen {
                    assert(out@[out@.len() - 1]@ == self.list@[j]@.lang);
                }
            }
            assert forall|i: int| 0 <= i < out@.len() implies exists|j: int|
                0 <= j < self.list@.len() && (#[trigger] self.list@[j])@.lang == (
                #[trigger] out@[i])@ by {
                if i < was.len() {
                    assert(out@[i] == was[i]);
                } else {
                    assert(self.list@[k as int]@.lang == out@[i]@);
                }
            }
            k += 1;
        }
        assert forall|l: Seq<char>| #[trigger]
            self@.contains_key(l) <==> exists|i: int|
                0 <= i < out@.len() && (#[trigger] out@[i])@ == l by {
            lemma_by_lang(self.list@, l);
            if self@.contains_key(l) {
                let j = choose|j: int|
                    0 <= j < self.list@.len() && (#[trigger] self.list@[j])@.lang == l;
                let i = choose|i: int|
                    0 <= i < out@.len() && (#[trigger] out@[i])@ == self.list@[j]@.lang;
                assert(out@[i]@ == l);
            }
        }
        out
    }

    pub fn is_empty(&self) -> (r: bool)
        ensures
            r == (self@.dom().is_empty()),
    {
        proof {
            if self.list@.len() > 0 {
                assert(self@.contains_key(self.list@.last()@.lang));
            } else {
                assert(self@.dom() =~= Set::empty());
            }
        }
        self.list.len() == 0
    }
}

/// What stands at a place of a word, where a mark stands before its first character
/// and behind its last one.
pub open spec fn around(word: Seq<char>, i: int) -> char {
    if 0 <= i < word.len() {
        word[i]
    } else {
        '\u{2}'
    }
}

/// A word has two trigrams more than characters, and each is three characters in a
/// row, the first one ending with the first character and the last one beginning
/// with the last.
pub proof fn lemma_trigrams_run_over_the_word(word: Seq<char>)
    ensures
        trigrams_of(word).len() == word.len() + 2,
        forall|i: int|
            0 <= i < word.len() + 2 ==> #[trigger] trigrams_of(word)[i] == seq![
                around(word, i - 2),
                around(word, i - 1),
                around(word, i),
            ],
{
    assert forall|i: int| 0 <= i < word.len() + 2 implies #[trigger] trigrams_of(word)[i] == seq![
        around(word, i - 2),
        around(word, i - 1),
        around(word, i),
    ] by {
        assert(trigrams_of(word)[i] =~= seq![
            around(word, i - 2),
            around(word, i - 1),
            around(word, i),
        ]);
    }
}

/// The hash of nothing is the offset basis; one more byte is mixed in by an
/// exclusive or and then the prime, modulo two to the power of 32.
pub proof fn lemma_hash(bytes: Seq<u8>, b: u8)
    ensures
        fnv1a(Seq::empty()) == 2166136261,
        fnv1a(bytes.push(b)) as int == ((fnv1a(bytes) ^ (b as u32)) * 16777619) % 0x1_0000_0000,
{
    assert(bytes.push(b).drop_last() =~= bytes);
}

/// What a text scores: a known word what the word table says of it, in whatever
/// case it is typed; another one the mean of its trigrams less 3, where a trigram
/// that never occurred counts -7.
pub proof fn lemma_what_a_text_scores(m: Lexicon, w: Seq<char>, v: Seq<char>, t: Seq<char>)
    ensures
        m.word(text::lowercase(w)) matches Some(logp) ==> m.plausibility(w) == logp,
        m.word(text::lowercase(w)) is None ==> m.plausibility(w) == m.total(
            trigrams_of(text::lowercase(w)),
        ).quotient(single::count(text::lowercase(w).len() + 2)).sum(Single { bits: 0xc040_0000 }),
        text::lowercase(w) == text::lowercase(v) ==> m.plausibility(w) == m.plausibility(v),
        lookup(m.trigrams, hash_of(t)) is None ==> m.trigram(t) == (Single { bits: 0xc0e0_0000 }),
        lookup(m.trigrams, hash_of(t)) matches Some(logp) ==> m.trigram(t) == logp,
{
}

/// Trigrams are summed one after another, the first to the last, from nothing.
pub proof fn lemma_trigrams_are_summed(m: Lexicon, tris: Seq<Seq<char>>, t: Seq<char>)
    ensures
        m.total(tris.push(t)) == m.total(tris).sum(m.trigram(t)),
        m.total(Seq::empty()).magnitude() == 0,
{
    assert(tris.push(t).drop_last() =~= tris);
}

/// Whether a text is another with one character too much, at this place.
pub open spec fn longer_by_one(a: Seq<char>, b: Seq<char>, i: int) -> bool {
    &&& 0 <= i < a.len() == b.len() + 1
    &&& forall|k: int| 0 <= k < i ==> #[trigger] a[k] == b[k]
    &&& forall|k: int| i < k < a.len() ==> #[trigger] a[k] == b[k - 1]
}

/// Whether two texts differ in nothing but the character at this place.
pub open spec fn differ_at(a: Seq<char>, b: Seq<char>, i: int) -> bool {
    &&& 0 <= i < a.len() == b.len()
    &&& a[i] != b[i]
    &&& forall|k: int| 0 <= k < a.len() && k != i ==> #[trigger] a[k] == b[k]
}

/// Whether two texts are the same but for the two characters from this place on,
/// which stand the other way round.
pub open spec fn swapped_at(a: Seq<char>, b: Seq<char>, i: int) -> bool {
    &&& 0 <= i < a.len() - 1
    &&& a.len() == b.len()
    &&& a[i] == b[i + 1] && a[i + 1] == b[i]
    &&& forall|k: int| 0 <= k < a.len() && k != i && k != i + 1 ==> #[trigger] a[k] == b[k]
}

/// Whether what was typed is one slip away from what was meant: a character was
/// typed too much, two were typed in the wrong order, a letter of the alphabet was
/// missed for another, or one was left out.
pub open spec fn one_slip(typed: Seq<char>, meant: Seq<char>, alphabet: Seq<char>) -> bool {
    ||| exists|i: int| longer_by_one(typed, meant, i)
    ||| exists|i: int| swapped_at(typed, meant, i)
    ||| exists|i: int| #[trigger] differ_at(typed, meant, i) && alphabet.contains(meant[i])
    ||| exists|i: int| #[trigger] longer_by_one(meant, typed, i) && alphabet.contains(meant[i])
}

proof fn lemma_substitutions(w: Seq<char>, letter: char, n: int, x: Seq<char>)
    requires
        0 <= n <= w.len(),
    ensures
        substitutions(w, letter, n).contains(x) <==> exists|i: int|
            0 <= i < n && #[trigger] differ_at(w, x, i) && x[i] == letter,
    decreases n,
{
    if n > 0 {
        lemma_substitutions(w, letter, n - 1, x);
        let before = substitutions(w, letter, n - 1);
        let all = substitutions(w, letter, n);
        let here = w.update(n - 1, letter);
        if all.contains(x) && !before.contains(x) {
            let k = all.index_of(x);
            if k < before.len() {
                assert(before[k] == x);
            }
            assert(x == here);
            assert(differ_at(w, x, n - 1));
        }
        if exists|i: int| 0 <= i < n && #[trigger] differ_at(w, x, i) && x[i] == letter {
            let i = choose|i: int| 0 <= i < n && #[trigger] differ_at(w, x, i) && x[i] == letter;
            if i < n - 1 {
                let k = before.index_of(x);
                assert(all[k] == x);
            } else {
                assert(x =~= here);
                assert(all[all.len() - 1] == x);
            }
        }
    }
}

proof fn lemma_insertions(w: Seq<char>, letter: char, x: Seq<char>)
    ensures
        insertions(w, letter).contains(x) <==> exists|i: int| #[trigger]
            longer_by_one(x, w, i) && x[i] == letter,
{
    if insertions(w, letter).contains(x) {
        let i = insertions(w, letter).index_of(x);
        assert(longer_by_one(x, w, i));
    }
    if exists|i: int| #[trigger] longer_by_one(x, w, i) && x[i] == letter {
        let i = choose|i: int| #[trigger] longer_by_one(x, w, i) && x[i] == letter;
        assert(x =~= w.insert(i, letter));
        assert(insertions(w, letter)[i] == x);
    }
}

proof fn lemma_letter_edits(w: Seq<char>, alphabet: Seq<char>, x: Seq<char>)
    ensures
        letter_edits(w, alphabet).contains(x) <==> (exists|i: int| #[trigger]
            differ_at(w, x, i) && alphabet.contains(x[i])) || (exists|i: int| #[trigger]
            longer_by_one(x, w, i) && alphabet.contains(x[i])),
    decreases alphabet.len(),
{
    if alphabet.len() > 0 {
        let before = alphabet.drop_last();
        let letter = alphabet.last();
        lemma_letter_edits(w, before, x);
        lemma_substitutions(w, letter, w.len() as int, x);
        lemma_insertions(w, letter, x);
        let a = letter_edits(w, before);
        let b = substitutions(w, letter, w.len() as int);
        let c = insertions(w, letter);
        assert(letter_edits(w, alphabet) == a + b + c);
        lemma_among(a + b, c, x);
        lemma_among(a, b, x);
        assert forall|d: char| #[trigger] alphabet.contains(d) <==> before.contains(d) || d
            == letter by {
            if alphabet.contains(d) {
                let k = alphabet.index_of(d);
                if k < before.len() {
                    assert(before[k] == d);
                }
            }
            if before.contains(d) {
                assert(alphabet[before.index_of(d)] == d);
            }
            assert(alphabet[alphabet.len() - 1] == letter);
        }
    }
}

proof fn lemma_among(a: Seq<Seq<char>>, b: Seq<Seq<char>>, x: Seq<char>)
    ensures
        (a + b).contains(x) <==> a.contains(x) || b.contains(x),
{
    if (a + b).contains(x) {
        let k = (a + b).index_of(x);
        if k < a.len() {
            assert(a[k] == x);
        } else {
            assert(b[k - a.len()] == x);
        }
    }
    if a.contains(x) {
        assert((a + b)[a.index_of(x)] == x);
    }
    if b.contains(x) {
        assert((a + b)[a.len() + b.index_of(x)] == x);
    }
}

/// The words that are tried for a typing error are exactly those one slip away.
pub proof fn lemma_every_slip_is_tried(typed: Seq<char>, alphabet: Seq<char>, meant: Seq<char>)
    ensures
        edits(typed, alphabet).contains(meant) <==> one_slip(typed, meant, alphabet),
{
    let d = deletions(typed);
    let t = transpositions(typed);
    lemma_among(d + t, letter_edits(typed, alphabet), meant);
    lemma_among(d, t, meant);
    lemma_letter_edits(typed, alphabet, meant);
    if d.contains(meant) {
        let i = d.index_of(meant);
        assert(longer_by_one(typed, meant, i));
    }
    if exists|i: int| longer_by_one(typed, meant, i) {
        let i = choose|i: int| longer_by_one(typed, meant, i);
        assert(d[i] =~= meant);
    }
    if t.contains(meant) {
        let i = t.index_of(meant);
        assert(swapped_at(typed, meant, i));
    }
    if exists|i: int| swapped_at(typed, meant, i) {
        let i = choose|i: int| swapped_at(typed, meant, i);
        assert(t[i] =~= meant);
    }
}

/// The score within one slip is that of a known word one slip away, and no known
/// word one slip away scores higher; there is one exactly if such a word is known.
pub proof fn lemma_the_best_within_one_slip(m: Lexicon, typed: Seq<char>, alphabet: Seq<char>)
    ensures
        m.best(edits(typed, alphabet)) matches Some(b) ==> exists|w: Seq<char>| #[trigger]
            one_slip(typed, w, alphabet) && m.word(w) == Some(b),
        forall|w: Seq<char>| #[trigger]
            one_slip(typed, w, alphabet) ==> (m.word(w) matches Some(logp) ==> (m.best(
                edits(typed, alphabet),
            ) matches Some(b) && (b.nan() || !b.is_less(logp)))),
{
    let all = edits(typed, alphabet);
    lemma_best(m, all);
    if let Some(b) = m.best(all) {
        let i = choose|i: int| 0 <= i < all.len() && m.word(#[trigger] all[i]) == Some(b);
        lemma_every_slip_is_tried(typed, alphabet, all[i]);
        assert(one_slip(typed, all[i], alphabet));
    }
    assert forall|w: Seq<char>| #[trigger] one_slip(typed, w, alphabet) implies (m.word(
        w,
    ) matches Some(logp) ==> (m.best(all) matches Some(b) && (b.nan() || !b.is_less(logp)))) by {
        lemma_every_slip_is_tried(typed, alphabet, w);
        let i = all.index_of(w);
        assert(m.word(all[i]) == m.word(w));
    }
}

} // verus!
