//! The file format of a model.
//!
//! A file holds the bytes `RKM2`, the format's version in two bytes, the
//! length of the language tag in one byte, the tag in UTF-8, and the two tables.
//! A table is the number of its entries in four bytes, and for each entry the
//! hash and the bits of the probability, four bytes each. All numbers have their
//! lowest byte first. What follows is ignored.

use crate::model;
use crate::model::{Lexicon, Model};
use crate::single::Single;
use crate::text;
use vstd::prelude::*;
use vstd::string::StringExecFns;

verus! {

/// Why a file is no model.
#[derive(Debug, Clone, Copy, PartialEq, Eq, Structural)]
pub enum ModelError {
    /// The file ends too early.
    Truncated,
    /// The file does not begin as a model file does.
    NotAModel,
    /// The file has another version of the format.
    Version(u16),
    /// The language tag is not UTF-8.
    Language,
}

impl ModelError {
    /// The error in words.
    pub open spec fn words(self) -> Seq<char> {
        match self {
            ModelError::Truncated => "model file is truncated"@,
            ModelError::NotAModel => "not a Rekey model file"@,
            ModelError::Version(version) => "model version "@ + text::digits(version as nat)
                + " is not supported (expected "@ + text::digits(model::VERSION as nat) + ")"@,
            ModelError::Language => "language tag is not valid UTF-8"@,
        }
    }

    /// The error in words.
    pub fn message(&self) -> (r: String)
        ensures
            r@ == self.words(),
    {
        match *self {
            ModelError::Truncated => "model file is truncated".to_owned(),
            ModelError::NotAModel => "not a Rekey model file".to_owned(),
            ModelError::Version(version) => {
                let mut out: String = "model version ".to_owned();
                out.append(text::decimal(version as u64).as_str());
                out.append(" is not supported (expected ");
                out.append(text::decimal(model::VERSION as u64).as_str());
                out.append(")");
                out
            },
            ModelError::Language => "language tag is not valid UTF-8".to_owned(),
        }
    }
}

/// The number in the two bytes at `p`.
pub open spec fn le16(b: Seq<u8>, p: int) -> u16 {
    (b[p] + 0x100 * b[p + 1]) as u16
}

/// The number in the four bytes at `p`.
pub open spec fn le32(b: Seq<u8>, p: int) -> u32 {
    (b[p] + 0x100 * b[p + 1] + 0x1_0000 * b[p + 2] + 0x100_0000 * b[p + 3]) as u32
}

/// A number in two bytes.
pub open spec fn le16_bytes(n: u16) -> Seq<u8> {
    seq![(n % 0x100) as u8, (n / 0x100) as u8]
}

/// A number in four bytes.
pub open spec fn le32_bytes(n: u32) -> Seq<u8> {
    seq![
        (n % 0x100) as u8,
        (n / 0x100 % 0x100) as u8,
        (n / 0x1_0000 % 0x100) as u8,
        (n / 0x100_0000) as u8,
    ]
}

/// The entries of a table.
pub open spec fn entry_bytes(table: Seq<(u32, Single)>) -> Seq<u8>
    decreases table.len(),
{
    if table.len() == 0 {
        Seq::empty()
    } else {
        entry_bytes(table.drop_last()) + le32_bytes(table.last().0) + le32_bytes(
            table.last().1.bits,
        )
    }
}

/// A table with the number of its entries.
pub open spec fn table_bytes(table: Seq<(u32, Single)>) -> Seq<u8> {
    le32_bytes((table.len() % 0x1_0000_0000) as u32) + entry_bytes(table)
}

/// The beginning of every model file.
pub open spec fn signature() -> Seq<u8> {
    seq![0x52u8, 0x4b, 0x4d, 0x32] + le16_bytes(model::VERSION)
}

/// The language tag with its length.
pub open spec fn tag_bytes(lang: Seq<char>) -> Seq<u8> {
    let tag = vstd::utf8::encode_utf8(lang);
    seq![(tag.len() % 0x100) as u8] + tag
}

/// The file of a model.
pub open spec fn encoded(m: Lexicon) -> Seq<u8> {
    signature() + tag_bytes(m.lang) + table_bytes(m.words) + table_bytes(m.trigrams)
}

/// The `n` entries that begin at `p`.
pub open spec fn entries_at(b: Seq<u8>, p: int, n: nat) -> Seq<(u32, Single)> {
    Seq::new(n, |i: int| (le32(b, p + 8 * i), Single { bits: le32(b, p + 8 * i + 4) }))
}

/// The table at `p` and the position behind it, if the file holds all of it.
pub open spec fn table_at(b: Seq<u8>, p: int) -> Option<(Seq<(u32, Single)>, int)> {
    if p + 4 > b.len() || p + 4 + 8 * le32(b, p) > b.len() {
        None
    } else {
        Some((entries_at(b, p + 4, le32(b, p) as nat), p + 4 + 8 * le32(b, p)))
    }
}

/// The model in a file.
pub open spec fn decoded(b: Seq<u8>) -> Result<Lexicon, ModelError> {
    if b.len() < 4 {
        Err(ModelError::Truncated)
    } else if b.take(4) != signature().take(4) {
        Err(ModelError::NotAModel)
    } else if b.len() < 6 {
        Err(ModelError::Truncated)
    } else if le16(b, 4) != model::VERSION {
        Err(ModelError::Version(le16(b, 4)))
    } else if b.len() < 7 || b.len() < 7 + b[6] {
        Err(ModelError::Truncated)
    } else {
        let tag = b.subrange(7, 7 + b[6]);
        if !vstd::utf8::valid_utf8(tag) {
            Err(ModelError::Language)
        } else {
            match table_at(b, 7 + b[6]) {
                None => Err(ModelError::Truncated),
                Some((words, p)) => match table_at(b, p) {
                    None => Err(ModelError::Truncated),
                    Some((trigrams, _)) => Ok(
                        Lexicon { lang: vstd::utf8::decode_utf8(tag), words, trigrams },
                    ),
                },
            }
        }
    }
}

fn push_u32(out: &mut Vec<u8>, n: u32)
    ensures
        final(out)@ == old(out)@ + le32_bytes(n),
{
    out.push((n % 0x100) as u8);
    out.push((n / 0x100 % 0x100) as u8);
    out.push((n / 0x1_0000 % 0x100) as u8);
    out.push((n / 0x100_0000) as u8);
    assert(out@ =~= old(out)@ + le32_bytes(n));
}

fn push_table(out: &mut Vec<u8>, table: &Vec<(u32, Single)>)
    ensures
        final(out)@ == old(out)@ + table_bytes(table@),
{
    let len: u64 = table.len() as u64;
    push_u32(out, (len % 0x1_0000_0000) as u32);
    let ghost head = out@;
    assert(out@ =~= head + entry_bytes(table@.take(0)));
    let mut i: usize = 0;
    while i < table.len()
        invariant
            i <= table@.len(),
            out@ == head + entry_bytes(table@.take(i as int)),
        decreases table@.len() - i,
    {
        let (hash, logp) = table[i];
        assert(table@.take(i + 1).drop_last() =~= table@.take(i as int));
        push_u32(out, hash);
        push_u32(out, logp.bits);
        assert(out@ =~= head + entry_bytes(table@.take(i + 1)));
        i += 1;
    }
    assert(table@.take(table@.len() as int) =~= table@);
    assert(out@ =~= old(out)@ + table_bytes(table@));
}

fn push_bytes(out: &mut Vec<u8>, bytes: &[u8])
    ensures
        final(out)@ == old(out)@ + bytes@,
{
    let ghost head = out@;
    assert(out@ =~= head + bytes@.take(0));
    let mut i: usize = 0;
    while i < bytes.len()
        invariant
            i <= bytes@.len(),
            out@ == head + bytes@.take(i as int),
        decreases bytes@.len() - i,
    {
        out.push(bytes[i]);
        assert(out@ =~= head + bytes@.take(i + 1));
        i += 1;
    }
    assert(bytes@.take(bytes@.len() as int) =~= bytes@);
}

fn read_u32(buf: &[u8], p: usize) -> (r: u32)
    requires
        p + 4 <= buf@.len(),
    ensures
        r == le32(buf@, p as int),
{
    buf[p] as u32 + 0x100 * (buf[p + 1] as u32) + 0x1_0000 * (buf[p + 2] as u32) + 0x100_0000 * (
    buf[p + 3] as u32)
}

fn read_table(buf: &[u8], p: usize) -> (r: Option<(Vec<(u32, Single)>, usize)>)
    requires
        p <= buf@.len(),
    ensures
        match r {
            Some((table, end)) => table_at(buf@, p as int) == Some((table@, end as int)) && end
                <= buf@.len(),
            None => table_at(buf@, p as int) is None,
        },
{
    if buf.len() - p < 4 {
        return None;
    }
    let n: u32 = read_u32(buf, p);
    let start: usize = p + 4;
    let len: usize = buf.len();
    let room: usize = (len - start) / 8;
    if (room as u64) < n as u64 {
        return None;
    }
    let mut table: Vec<(u32, Single)> = Vec::new();
    let mut i: u32 = 0;
    let mut at: usize = start;
    while i < n
        invariant
            i <= n,
            start + 8 * n <= len,
            len == buf@.len(),
            at == start + 8 * i,
            table@ == entries_at(buf@, start as int, n as nat).take(i as int),
        decreases n - i,
    {
        let hash: u32 = read_u32(buf, at);
        let bits: u32 = read_u32(buf, at + 4);
        table.push((hash, Single { bits }));
        assert(table@ =~= entries_at(buf@, start as int, n as nat).take(i + 1));
        at = at + 8;
        i += 1;
    }
    assert(table@ =~= entries_at(buf@, start as int, n as nat));
    Some((table, at))
}

impl Model {
    /// Appends the model's file to `out`.
    pub fn write(&self, out: &mut Vec<u8>) -> (r: Result<(), ModelError>)
        ensures
            r is Ok,
            final(out)@ == old(out)@ + encoded(self@),
    {
        let ghost head = out@;
        out.push(model::MAGIC[0]);
        out.push(model::MAGIC[1]);
        out.push(model::MAGIC[2]);
        out.push(model::MAGIC[3]);
        out.push((model::VERSION % 0x100) as u8);
        out.push((model::VERSION / 0x100) as u8);
        assert(out@ =~= head + signature());
        let lang: &[u8] = self.lang.as_str().as_bytes();
        out.push((lang.len() % 0x100) as u8);
        push_bytes(out, lang);
        assert(out@ =~= head + signature() + tag_bytes(self@.lang));
        push_table(out, &self.words);
        push_table(out, &self.trigrams);
        assert(out@ =~= head + encoded(self@));
        Ok(())
    }

    /// Reads a model file.
    pub fn from_bytes(buf: &[u8]) -> (r: Result<Model, ModelError>)
        ensures
            match r {
                Ok(m) => decoded(buf@) == Ok::<Lexicon, ModelError>(m@),
                Err(e) => decoded(buf@) == Err::<Lexicon, ModelError>(e),
            },
    {
        if buf.len() < 4 {
            return Err(ModelError::Truncated);
        }
        if buf[0] != model::MAGIC[0] || buf[1] != model::MAGIC[1] || buf[2] != model::MAGIC[2]
            || buf[3] != model::MAGIC[3] {
            assert(buf@.take(4)[0] == buf@[0]);
            assert(buf@.take(4)[1] == buf@[1]);
            assert(buf@.take(4)[2] == buf@[2]);
            assert(buf@.take(4)[3] == buf@[3]);
            assert(signature().take(4) =~= seq![0x52u8, 0x4b, 0x4d, 0x32]);
            return Err(ModelError::NotAModel);
        }
        assert(buf@.take(4) =~= signature().take(4));
        if buf.len() < 6 {
            return Err(ModelError::Truncated);
        }
        let version: u16 = buf[4] as u16 + 0x100 * (buf[5] as u16);
        if version != model::VERSION {
            return Err(ModelError::Version(version));
        }
        if buf.len() < 7 {
            return Err(ModelError::Truncated);
        }
        let lang_len: usize = buf[6] as usize;
        if buf.len() - 7 < lang_len {
            return Err(ModelError::Truncated);
        }
        let start: usize = 7 + lang_len;
        let mut tag: Vec<u8> = Vec::new();
        let mut i: usize = 7;
        while i < start
            invariant
                7 <= i <= start <= buf@.len(),
                tag@ == buf@.subrange(7, i as int),
            decreases start - i,
        {
            tag.push(buf[i]);
            assert(tag@ =~= buf@.subrange(7, i + 1));
            i += 1;
        }
        let lang: String = match text::from_utf8(tag.as_slice()) {
            Some(lang) => lang,
            None => {
                return Err(ModelError::Language);
            },
        };
        proof {
            lemma_decode(lang@, tag@);
        }
        match read_table(buf, start) {
            None => Err(ModelError::Truncated),
            Some((words, next)) => match read_table(buf, next) {
                None => Err(ModelError::Truncated),
                Some((trigrams, _)) => Ok(Model { lang, words, trigrams }),
            },
        }
    }
}

proof fn lemma_decode(s: Seq<char>, bytes: Seq<u8>)
    requires
        vstd::utf8::encode_utf8(s) == bytes,
    ensures
        vstd::utf8::valid_utf8(bytes),
        vstd::utf8::decode_utf8(bytes) == s,
{
    vstd::utf8::encode_utf8_valid_utf8(s);
    vstd::utf8::encode_utf8_decode_utf8(s);
}

proof fn lemma_le32(b: Seq<u8>, p: int, n: u32)
    requires
        0 <= p,
        p + 4 <= b.len(),
        b.subrange(p, p + 4) == le32_bytes(n),
    ensures
        le32(b, p) == n,
{
    let four = b.subrange(p, p + 4);
    assert(four[0] == b[p]);
    assert(four[1] == b[p + 1]);
    assert(four[2] == b[p + 2]);
    assert(four[3] == b[p + 3]);
}

proof fn lemma_entry_bytes(table: Seq<(u32, Single)>, i: int)
    requires
        0 <= i < table.len(),
    ensures
        entry_bytes(table).len() == 8 * table.len(),
        entry_bytes(table).subrange(8 * i, 8 * i + 4) == le32_bytes(table[i].0),
        entry_bytes(table).subrange(8 * i + 4, 8 * i + 8) == le32_bytes(table[i].1.bits),
    decreases table.len(),
{
    lemma_entry_bytes_len(table);
    let before = entry_bytes(table.drop_last());
    lemma_entry_bytes_len(table.drop_last());
    if i < table.len() - 1 {
        lemma_entry_bytes(table.drop_last(), i);
        assert(entry_bytes(table).subrange(8 * i, 8 * i + 4) =~= before.subrange(8 * i, 8 * i + 4));
        assert(entry_bytes(table).subrange(8 * i + 4, 8 * i + 8) =~= before.subrange(
            8 * i + 4,
            8 * i + 8,
        ));
    } else {
        assert(entry_bytes(table).subrange(8 * i, 8 * i + 4) =~= le32_bytes(table[i].0));
        assert(entry_bytes(table).subrange(8 * i + 4, 8 * i + 8) =~= le32_bytes(table[i].1.bits));
    }
}

proof fn lemma_entry_bytes_len(table: Seq<(u32, Single)>)
    ensures
        entry_bytes(table).len() == 8 * table.len(),
    decreases table.len(),
{
    if table.len() > 0 {
        lemma_entry_bytes_len(table.drop_last());
    }
}

/// The table that was written at `p` is read there.
proof fn lemma_table(b: Seq<u8>, p: int, table: Seq<(u32, Single)>)
    requires
        0 <= p,
        table.len() < 0x1_0000_0000,
        p + table_bytes(table).len() <= b.len(),
        b.subrange(p, p + table_bytes(table).len()) == table_bytes(table),
    ensures
        table_at(b, p) == Some((table, p + table_bytes(table).len())),
        table_bytes(table).len() == 4 + 8 * table.len(),
{
    let written = table_bytes(table);
    lemma_entry_bytes_len(table);
    assert(written.len() == 4 + 8 * table.len());
    assert(b.subrange(p, p + 4) =~= le32_bytes(table.len() as u32)) by {
        assert(b.subrange(p, p + written.len()).subrange(0, 4) =~= b.subrange(p, p + 4));
        assert(written.subrange(0, 4) =~= le32_bytes(table.len() as u32));
    }
    lemma_le32(b, p, table.len() as u32);
    let read = entries_at(b, p + 4, table.len());
    assert forall|i: int| 0 <= i < table.len() implies read[i] == table[i] by {
        lemma_entry_bytes(table, i);
        let at = p + 4 + 8 * i;
        let mine = b.subrange(p, p + written.len());
        assert(b.subrange(at, at + 4) =~= mine.subrange(4 + 8 * i, 8 + 8 * i));
        assert(mine.subrange(4 + 8 * i, 8 + 8 * i) =~= entry_bytes(table).subrange(
            8 * i,
            8 * i + 4,
        ));
        lemma_le32(b, at, table[i].0);
        assert(b.subrange(at + 4, at + 8) =~= mine.subrange(8 + 8 * i, 12 + 8 * i));
        assert(mine.subrange(8 + 8 * i, 12 + 8 * i) =~= entry_bytes(table).subrange(
            8 * i + 4,
            8 * i + 8,
        ));
        lemma_le32(b, at + 4, table[i].1.bits);
    }
    assert(read =~= table);
}

/// A model that fits the format: a tag of at most 255 bytes, and tables whose
/// number of entries takes four bytes.
pub open spec fn fits(m: Lexicon) -> bool {
    &&& vstd::utf8::encode_utf8(m.lang).len() < 0x100
    &&& m.words.len() < 0x1_0000_0000
    &&& m.trigrams.len() < 0x1_0000_0000
}

/// A model that was written is read back as it was, whatever follows it.
pub proof fn lemma_reads_what_was_written(m: Lexicon, rest: Seq<u8>)
    requires
        fits(m),
    ensures
        decoded(encoded(m) + rest) == Ok::<Lexicon, ModelError>(m),
{
    let tag = vstd::utf8::encode_utf8(m.lang);
    let p = (7 + tag.len()) as int;
    let q = p + table_bytes(m.words).len();
    let r = q + table_bytes(m.trigrams).len();
    lemma_decode(m.lang, tag);
    lemma_parts(m, rest);
    lemma_reads_parts(encoded(m) + rest, m, p, q, r);
}

proof fn lemma_reads_parts(b: Seq<u8>, m: Lexicon, p: int, q: int, r: int)
    requires
        7 <= p <= b.len(),
        b.take(6) == signature(),
        b[6] == p - 7,
        vstd::utf8::valid_utf8(b.subrange(7, p)),
        vstd::utf8::decode_utf8(b.subrange(7, p)) == m.lang,
        m.words.len() < 0x1_0000_0000,
        m.trigrams.len() < 0x1_0000_0000,
        q == p + table_bytes(m.words).len(),
        r == q + table_bytes(m.trigrams).len(),
        r <= b.len(),
        b.subrange(p, q) == table_bytes(m.words),
        b.subrange(q, r) == table_bytes(m.trigrams),
    ensures
        decoded(b) == Ok::<Lexicon, ModelError>(m),
{
    lemma_table(b, p, m.words);
    lemma_table(b, q, m.trigrams);
    lemma_decoded_parts(b, m, p, q, r);
}

proof fn lemma_decoded_parts(b: Seq<u8>, m: Lexicon, p: int, q: int, r: int)
    requires
        7 <= p <= b.len(),
        b.take(6) == signature(),
        b[6] == p - 7,
        vstd::utf8::valid_utf8(b.subrange(7, p)),
        vstd::utf8::decode_utf8(b.subrange(7, p)) == m.lang,
        table_at(b, p) == Some((m.words, q)),
        table_at(b, q) == Some((m.trigrams, r)),
    ensures
        decoded(b) == Ok::<Lexicon, ModelError>(m),
{
    lemma_signature(b);
}

proof fn lemma_signature(b: Seq<u8>)
    requires
        b.len() >= 6,
        b.take(6) == signature(),
    ensures
        b.take(4) == signature().take(4),
        le16(b, 4) == model::VERSION,
{
    assert(b.take(4) =~= b.take(6).take(4));
    assert(b.take(6)[4] == b[4]);
    assert(b.take(6)[5] == b[5]);
}

/// Where the parts of a file stand.
proof fn lemma_parts(m: Lexicon, rest: Seq<u8>)
    ensures
        ({
            let b = encoded(m) + rest;
            let tag = vstd::utf8::encode_utf8(m.lang);
            let p = 7 + tag.len();
            let q = p + table_bytes(m.words).len();
            let r = q + table_bytes(m.trigrams).len();
            &&& b.len() == r + rest.len()
            &&& b.take(6) == signature()
            &&& b[6] == (tag.len() % 0x100) as u8
            &&& b.subrange(7, p as int) == tag
            &&& b.subrange(p as int, q as int) == table_bytes(m.words)
            &&& b.subrange(q as int, r as int) == table_bytes(m.trigrams)
        }),
{
    let b = encoded(m) + rest;
    let tag = vstd::utf8::encode_utf8(m.lang);
    let p = (7 + tag.len()) as int;
    let q = p + table_bytes(m.words).len();
    let r = q + table_bytes(m.trigrams).len();
    let head = signature() + tag_bytes(m.lang);
    assert(signature().len() == 6);
    assert(head.len() == p);
    assert(b.take(6) =~= signature());
    assert(b[6] == head[6]);
    assert(head[6] == tag_bytes(m.lang)[0]);
    assert(b.subrange(7, p) =~= tag) by {
        assert(head.subrange(7, p) =~= tag);
        assert(b.subrange(7, p) =~= head.subrange(7, p));
    }
    assert(b.subrange(p, q) =~= table_bytes(m.words));
    assert(b.subrange(q, r) =~= table_bytes(m.trigrams));
}

/// A file that was cut short is refused.
pub proof fn lemma_refuses_what_was_cut_short(m: Lexicon, len: int)
    requires
        fits(m),
        0 <= len < encoded(m).len(),
    ensures
        decoded(encoded(m).take(len)) == Err::<Lexicon, ModelError>(ModelError::Truncated),
{
    let whole = encoded(m);
    let b = whole.take(len);
    let tag = vstd::utf8::encode_utf8(m.lang);
    lemma_decode(m.lang, tag);
    let p = (7 + tag.len()) as int;
    let q = p + table_bytes(m.words).len();
    let r = q + table_bytes(m.trigrams).len();
    assert(whole[6] == tag_bytes(m.lang)[0]);
    assert(whole[6] == tag.len());
    assert(whole.take(4) =~= signature().take(4));
    if len >= 4 {
        assert(b.take(4) =~= whole.take(4));
    }
    if len >= 6 {
        assert(b[4] == signature()[4]);
        assert(b[5] == signature()[5]);
        assert(le16(b, 4) == model::VERSION);
    }
    if len >= p {
        assert(b[6] == whole[6]);
        assert(b.subrange(7, p) =~= tag);
        assert(whole.subrange(p, q) =~= table_bytes(m.words));
        assert(whole.subrange(q, r) =~= table_bytes(m.trigrams));
        lemma_table(whole, p, m.words);
        lemma_table(whole, q, m.trigrams);
        if len >= q {
            assert(b.subrange(p, q) =~= whole.subrange(p, q));
            lemma_table(b, p, m.words);
            if len >= q + 4 {
                assert(le32(b, q) == le32(whole, q));
            }
        } else if len >= p + 4 {
            assert(le32(b, p) == le32(whole, p));
        }
    }
}

/// The number in the four bytes at `p`, the lowest first.
pub open spec fn number_at(b: Seq<u8>, p: int) -> int {
    b[p] + 256 * (b[p + 1] + 256 * (b[p + 2] + 256 * b[p + 3]))
}

/// Whether a table stands at `p`: the number of its entries, and then for each one
/// the hash and the bits of its probability.
pub open spec fn holds_table(b: Seq<u8>, p: int, table: Seq<(u32, Single)>) -> bool {
    &&& p + 4 + 8 * table.len() <= b.len()
    &&& number_at(b, p) == table.len()
    &&& forall|i: int|
        0 <= i < table.len() ==> number_at(b, p + 4 + 8 * i) == (#[trigger] table[i]).0
            && number_at(b, p + 8 + 8 * i) == table[i].1.bits
}

proof fn lemma_holds_table(b: Seq<u8>, p: int, table: Seq<(u32, Single)>)
    requires
        0 <= p,
        table.len() < 0x1_0000_0000,
        p + table_bytes(table).len() <= b.len(),
        b.subrange(p, p + table_bytes(table).len()) == table_bytes(table),
    ensures
        holds_table(b, p, table),
        table_bytes(table).len() == 4 + 8 * table.len(),
{
    lemma_entry_bytes_len(table);
    lemma_table(b, p, table);
    let read = entries_at(b, p + 4, table.len());
    assert(le32(b, p) == table.len());
    assert(read == table);
    assert forall|i: int| 0 <= i < table.len() implies number_at(b, p + 4 + 8 * i) == (
    #[trigger] table[i]).0 && number_at(b, p + 8 + 8 * i) == table[i].1.bits by {
        assert(read[i] == table[i]);
        assert(le32(b, p + 4 + 8 * i) == table[i].0);
        assert(le32(b, p + 4 + 8 * i + 4) == table[i].1.bits);
    }
}

/// Whether a file is that of a model, byte by byte: `RKM2`, the version, which is 2,
/// in two bytes, the lowest first, the length of the language tag and the tag, and
/// the two tables, the words before the trigrams. Nothing follows.
pub open spec fn is_file_of(b: Seq<u8>, m: Lexicon) -> bool {
    let tag = vstd::utf8::encode_utf8(m.lang);
    let p = 7 + tag.len() as int;
    let q = p + 4 + 8 * m.words.len();
    &&& b.len() == q + 4 + 8 * m.trigrams.len()
    &&& b[0] == 'R' as u8 && b[1] == 'K' as u8 && b[2] == 'M' as u8 && b[3] == '2' as u8
    &&& b[4] == 2 && b[5] == 0
    &&& b[6] == tag.len()
    &&& b.subrange(7, p) == tag
    &&& holds_table(b, p, m.words)
    &&& holds_table(b, q, m.trigrams)
}

/// What is written for a model is its file, byte by byte.
pub proof fn lemma_where_everything_stands(m: Lexicon)
    requires
        fits(m),
    ensures
        is_file_of(encoded(m), m),
{
    lemma_parts(m, Seq::empty());
    lemma_nothing_follows(encoded(m));
    lemma_is_file(encoded(m), m);
}

proof fn lemma_nothing_follows(b: Seq<u8>)
    ensures
        b + Seq::<u8>::empty() == b,
{
    assert(b + Seq::<u8>::empty() =~= b);
}

proof fn lemma_is_file(b: Seq<u8>, m: Lexicon)
    requires
        fits(m),
        ({
            let tag = vstd::utf8::encode_utf8(m.lang);
            let p = 7 + tag.len() as int;
            let q = p + table_bytes(m.words).len();
            let r = q + table_bytes(m.trigrams).len();
            &&& b.len() == r
            &&& b.take(6) == signature()
            &&& b[6] == (tag.len() % 0x100) as u8
            &&& b.subrange(7, p) == tag
            &&& b.subrange(p, q) == table_bytes(m.words)
            &&& b.subrange(q, r) == table_bytes(m.trigrams)
        }),
    ensures
        is_file_of(b, m),
{
    let tag = vstd::utf8::encode_utf8(m.lang);
    lemma_begins(b);
    lemma_holds_both(b, m, 7 + tag.len() as int);
}

proof fn lemma_begins(b: Seq<u8>)
    requires
        b.len() >= 6,
        b.take(6) == signature(),
    ensures
        b[0] == 'R' as u8 && b[1] == 'K' as u8 && b[2] == 'M' as u8 && b[3] == '2' as u8,
        b[4] == 2 && b[5] == 0,
{
    let six = b.take(6);
    assert(b[0] == six[0] && b[1] == six[1] && b[2] == six[2]);
    assert(b[3] == six[3] && b[4] == six[4] && b[5] == six[5]);
}

proof fn lemma_holds_both(b: Seq<u8>, m: Lexicon, p: int)
    requires
        fits(m),
        0 <= p,
        ({
            let q = p + table_bytes(m.words).len();
            let r = q + table_bytes(m.trigrams).len();
            r == b.len() && b.subrange(p, q) == table_bytes(m.words) && b.subrange(q, r)
                == table_bytes(m.trigrams)
        }),
    ensures
        ({
            let q = p + 4 + 8 * m.words.len();
            &&& b.len() == q + 4 + 8 * m.trigrams.len()
            &&& holds_table(b, p, m.words)
            &&& holds_table(b, q, m.trigrams)
        }),
{
    lemma_holds_table(b, p, m.words);
    lemma_holds_table(b, p + table_bytes(m.words).len(), m.trigrams);
}

/// What is no model file is told by its first four bytes, and of those that are, any
/// version but 2 is refused by its number.
pub proof fn lemma_what_is_no_model(b: Seq<u8>, v: u16)
    ensures
        ({
            let ours = b.len() >= 4 && b[0] == 'R' as u8 && b[1] == 'K' as u8 && b[2] == 'M' as u8
                && b[3] == '2' as u8;
            &&& decoded(b) == Err::<Lexicon, ModelError>(ModelError::NotAModel) <==> b.len() >= 4
                && !ours
            &&& b.len() < 4 ==> decoded(b) == Err::<Lexicon, ModelError>(ModelError::Truncated)
            &&& ours && b.len() < 6 ==> decoded(b) == Err::<Lexicon, ModelError>(
                ModelError::Truncated,
            )
            &&& decoded(b) == Err::<Lexicon, ModelError>(ModelError::Version(v)) <==> ours
                && b.len() >= 6 && v != 2 && b[4] + 256 * b[5] == v
        }),
{
    if b.len() >= 4 {
        let ours = b[0] == 'R' as u8 && b[1] == 'K' as u8 && b[2] == 'M' as u8 && b[3] == '2' as u8;
        let four = b.take(4);
        let sig = signature().take(4);
        assert(sig =~= seq![0x52u8, 0x4b, 0x4d, 0x32]);
        if ours {
            assert(four =~= sig);
        }
        if four == sig {
            assert(four[0] == b[0] && four[1] == b[1] && four[2] == b[2] && four[3] == b[3]);
        }
    }
}

} // verus!
