//! A second opinion on the words that the models cannot settle.
//!
//! A request takes far longer than a keystroke may, so nothing here is asked
//! while a key is handled. Ambiguous words are queued and asked about in the
//! background, and the answer is remembered: the next time the word is typed it
//! is there. Only single words are sent, and a word that was answered is not sent
//! again.

use crate::assist;
use crate::assist::Doubt;
use crate::text;
use serde_json::Value;
use vstd::hash_map::StringHashMap;
use vstd::prelude::*;
use vstd::string::{StrSliceExecFns, StringExecFns};

verus! {

pub const API_URL: &'static str = "https://api.anthropic.com/v1/messages";

pub const API_VERSION: &'static str = "2023-06-01";

/// How long an answer may be, in tokens.
pub const MAX_TOKENS: u32 = 256;

/// How much effort an answer is worth.
pub const EFFORT: &'static str = "low";

/// How long to wait for an answer, in seconds.
pub const TIMEOUT_SECS: u64 = 30;

/// What is asked of the model.
pub const SYSTEM_PROMPT: &'static str = "\
You settle ambiguous keyboard-layout corrections.

A user typed a word while the wrong keyboard layout was active. The local \
model could not decide whether it was a genuine mistake or intentional text.

You are given the word as typed and the reading it would have on the other \
layout. Decide which the user actually meant.

Answer with exactly one word:
- CONVERT if the alternative reading is what the user meant
- KEEP if the text as typed is what the user meant

Consider slang, names, brand names, deliberate transliteration, and technical \
jargon. When genuinely uncertain, answer KEEP: leaving text alone is always \
recoverable, silently rewriting it is not.";

/// What the model concluded about a word.
#[derive(Debug, Clone, Copy, PartialEq, Eq, Structural)]
pub enum Verdict {
    Convert,
    Keep,
}

/// One question for the model.
#[derive(Debug, Clone, Eq, Hash)]
pub struct Question {
    /// The word as the user typed it.
    pub typed: String,
    /// What it reads as on the other layout.
    pub alternative: String,
    pub typed_language: String,
    pub alternative_language: String,
}

impl PartialEq for Question {
    fn eq(&self, other: &Question) -> (r: bool) {
        text::same(self.typed.as_str(), other.typed.as_str()) && text::same(
            self.alternative.as_str(),
            other.alternative.as_str(),
        ) && text::same(self.typed_language.as_str(), other.typed_language.as_str()) && text::same(
            self.alternative_language.as_str(),
            other.alternative_language.as_str(),
        )
    }
}

impl vstd::std_specs::cmp::PartialEqSpecImpl for Question {
    open spec fn obeys_eq_spec() -> bool {
        true
    }

    open spec fn eq_spec(&self, other: &Question) -> bool {
        self@ == other@
    }
}

impl View for Question {
    type V = Doubt;

    open spec fn view(&self) -> Doubt {
        Doubt {
            typed: self.typed@,
            alternative: self.alternative@,
            typed_language: self.typed_language@,
            alternative_language: self.alternative_language@,
        }
    }
}

/// The question in words.
pub open spec fn prompt_of(q: Doubt) -> Seq<char> {
    "Typed: "@ + q.typed + "\nLanguage of the active layout: "@ + q.typed_language
        + "\nAlternative reading: "@ + q.alternative + "\nLanguage of the other layout: "@
        + q.alternative_language + "\n\nCONVERT or KEEP?"@
}

/// What tells one question from another: the two readings, in whatever case.
pub open spec fn key_of(q: Doubt) -> Seq<char> {
    text::lowercase(q.typed) + "|"@ + text::lowercase(q.alternative)
}

/// Two questions about the same readings are the same, whatever their case and
/// whatever languages they name.
pub proof fn lemma_case_does_not_matter(a: Doubt, b: Doubt)
    requires
        text::lowercase(a.typed) == text::lowercase(b.typed),
        text::lowercase(a.alternative) == text::lowercase(b.alternative),
    ensures
        key_of(a) == key_of(b),
{
}

impl Question {
    /// The question in words.
    pub fn prompt(&self) -> (r: String)
        ensures
            r@ == prompt_of(self@),
    {
        let mut out: String = "Typed: ".to_owned();
        out.append(self.typed.as_str());
        out.append("\nLanguage of the active layout: ");
        out.append(self.typed_language.as_str());
        out.append("\nAlternative reading: ");
        out.append(self.alternative.as_str());
        out.append("\nLanguage of the other layout: ");
        out.append(self.alternative_language.as_str());
        out.append("\n\nCONVERT or KEEP?");
        out
    }

    /// What tells one question from another.
    fn key(&self) -> (r: String)
        ensures
            r@ == key_of(self@),
    {
        let mut out: String = text::to_lowercase(self.typed.as_str());
        out.append("|");
        out.append(text::to_lowercase(self.alternative.as_str()).as_str());
        out
    }
}

/// Why there is no answer.
#[derive(Debug)]
pub enum AiError {
    NoApiKey,
    Http(String),
    /// There is a response, but none that can be acted on.
    Unparseable(String),
}

/// What an [`AiError`] says.
#[verifier::ext_equal]
pub enum Failure {
    NoApiKey,
    Http(Seq<char>),
    Unparseable(Seq<char>),
}

impl View for AiError {
    type V = Failure;

    open spec fn view(&self) -> Failure {
        match *self {
            AiError::NoApiKey => Failure::NoApiKey,
            AiError::Http(e) => Failure::Http(e@),
            AiError::Unparseable(e) => Failure::Unparseable(e@),
        }
    }
}

impl Failure {
    /// The error in words.
    pub open spec fn words(self) -> Seq<char> {
        match self {
            Failure::NoApiKey => "no Anthropic API key configured"@,
            Failure::Http(e) => "request failed: "@ + e,
            Failure::Unparseable(e) => "unexpected response: "@ + e,
        }
    }
}

impl AiError {
    /// The error in words.
    pub fn message(&self) -> (r: String)
        ensures
            r@ == self@.words(),
    {
        match self {
            AiError::NoApiKey => "no Anthropic API key configured".to_owned(),
            AiError::Http(e) => {
                let mut out: String = "request failed: ".to_owned();
                out.append(e.as_str());
                out
            },
            AiError::Unparseable(e) => {
                let mut out: String = "unexpected response: ".to_owned();
                out.append(e.as_str());
                out
            },
        }
    }
}

/// What is known of a conclusion, or why there is none.
pub open spec fn conclusion(r: Result<Verdict, AiError>) -> Result<Verdict, Failure> {
    match r {
        Ok(v) => Ok(v),
        Err(e) => Err(e@),
    }
}

/// How to reach the model.
#[derive(Debug, Clone)]
pub struct AiConfig {
    pub api_key: String,
    /// The name of the model. Answers are remembered, so that getting them right
    /// matters more than getting them fast.
    pub model: String,
    pub timeout_secs: u64,
}

impl AiConfig {
    pub fn new(api_key: &str, model: &str) -> (r: AiConfig)
        ensures
            r.api_key@ == api_key@,
            r.model@ == model@,
            r.timeout_secs == TIMEOUT_SECS,
    {
        AiConfig {
            api_key: api_key.to_owned(),
            model: model.to_owned(),
            timeout_secs: TIMEOUT_SECS,
        }
    }
}

/// What is sent to the model.
#[derive(Debug, Clone)]
pub struct Request {
    pub url: &'static str,
    pub version: &'static str,
    pub api_key: String,
    pub timeout_secs: u64,
    pub model: String,
    pub max_tokens: u32,
    pub effort: &'static str,
    pub system: &'static str,
    /// The user's message.
    pub prompt: String,
}

/// The request that asks one question, unless there is no key to send it with.
pub fn ask(config: &AiConfig, question: &Question) -> (r: Result<Request, AiError>)
    ensures
        match r {
            Ok(request) => {
                &&& !text::blank(config.api_key@)
                &&& request.url@ == API_URL@
                &&& request.version@ == API_VERSION@
                &&& request.api_key@ == config.api_key@
                &&& request.timeout_secs == config.timeout_secs
                &&& request.model@ == config.model@
                &&& request.max_tokens == MAX_TOKENS
                &&& request.effort@ == EFFORT@
                &&& request.system@ == SYSTEM_PROMPT@
                &&& request.prompt@ == prompt_of(question@)
            },
            Err(e) => text::blank(config.api_key@) && e@ == Failure::NoApiKey,
        },
{
    if text::is_blank(config.api_key.as_str()) {
        return Err(AiError::NoApiKey);
    }
    Ok(
        Request {
            url: API_URL,
            version: API_VERSION,
            api_key: config.api_key.clone(),
            timeout_secs: config.timeout_secs,
            model: config.model.clone(),
            max_tokens: MAX_TOKENS,
            effort: EFFORT,
            system: SYSTEM_PROMPT,
            prompt: question.prompt(),
        },
    )
}

/// One block of a response.
#[derive(Debug, Clone)]
pub struct Block {
    pub kind: Option<String>,
    pub text: Option<String>,
}

/// What of a response matters.
#[derive(Debug, Clone)]
pub struct Reply {
    pub stop_reason: Option<String>,
    /// The blocks, if there is a list of them.
    pub content: Option<Vec<Block>>,
}

/// The kinds and texts of blocks.
pub open spec fn block_views(blocks: Seq<Block>) -> Seq<(Option<Seq<char>>, Option<Seq<char>>)> {
    blocks.map_values(|b: Block| (text::optional(b.kind), text::optional(b.text)))
}

impl View for Reply {
    type V = (Option<Seq<char>>, Option<Seq<(Option<Seq<char>>, Option<Seq<char>>)>>);

    open spec fn view(&self) -> (
        Option<Seq<char>>,
        Option<Seq<(Option<Seq<char>>, Option<Seq<char>>)>>,
    ) {
        (
            text::optional(self.stop_reason),
            match self.content {
                Some(blocks) => Some(block_views(blocks@)),
                None => None,
            },
        )
    }
}

/// The members of an object in a response, each with its text if it is one.
#[derive(Debug, Clone)]
pub struct Item {
    pub members: Vec<(String, Option<String>)>,
}

/// A member of a response.
#[derive(Debug, Clone)]
pub enum Field {
    Text(String),
    /// A list, and of each of its items the members.
    List(Vec<Item>),
    Other,
}

/// The view of a [`Field`].
pub enum Part {
    Text(Seq<char>),
    List(Seq<Seq<(Seq<char>, Option<Seq<char>>)>>),
    Other,
}

impl View for Item {
    type V = Seq<(Seq<char>, Option<Seq<char>>)>;

    open spec fn view(&self) -> Seq<(Seq<char>, Option<Seq<char>>)> {
        self.members@.map_values(|m: (String, Option<String>)| (m.0@, text::optional(m.1)))
    }
}

impl View for Field {
    type V = Part;

    open spec fn view(&self) -> Part {
        match *self {
            Field::Text(s) => Part::Text(s@),
            Field::List(items) => Part::List(items@.map_values(|item: Item| item@)),
            Field::Other => Part::Other,
        }
    }
}

/// The members of a response.
pub open spec fn parts(members: Seq<(String, Field)>) -> Seq<(Seq<char>, Part)> {
    members.map_values(|m: (String, Field)| (m.0@, m.1@))
}

/// The members of the object that a text holds as JSON, none if it holds no
/// object, or why it is not JSON.
pub uninterp spec fn members_in(body: Seq<char>) -> Result<Seq<(Seq<char>, Part)>, Seq<char>>;

/// `serde_json::from_str` into a `serde_json::Value`, taken apart: the members of
/// the value, those of the items of a list among them, and all texts among these.
/// They depend on the text alone, and so does the message of the error.
#[verifier::external_body]
fn read_members(body: &str) -> (r: Result<Vec<(String, Field)>, String>)
    ensures
        match r {
            Ok(members) => members_in(body@) == Ok::<Seq<(Seq<char>, Part)>, Seq<char>>(
                parts(members@),
            ),
            Err(e) => members_in(body@) == Err::<Seq<(Seq<char>, Part)>, Seq<char>>(e@),
        },
{
    let object = |v: &Value| v.as_object().cloned().unwrap_or_default();
    let item = |v: &Value| Item {
        members: object(v)
            .into_iter()
            .map(|(k, v)| (k, v.as_str().map(str::to_string)))
            .collect()
    };
    let field = |v: &Value| match v {
        Value::String(s) => Field::Text(s.clone()),
        Value::Array(items) => Field::List(items.iter().map(item).collect()),
        _ => Field::Other
    };
    let all = object(&serde_json::from_str(body).map_err(|e| e.to_string())?);
    Ok(all.into_iter().map(|(k, v)| (k, field(&v))).collect())
}

/// The first member from `i` on that has a name.
pub open spec fn member<T>(members: Seq<(Seq<char>, T)>, name: Seq<char>, i: int) -> Option<T>
    decreases members.len() - i,
{
    if i < 0 || i >= members.len() {
        None
    } else if members[i].0 == name {
        Some(members[i].1)
    } else {
        member(members, name, i + 1)
    }
}

/// A member of an item, if it is a text.
pub open spec fn text_member(
    item: Seq<(Seq<char>, Option<Seq<char>>)>,
    name: Seq<char>,
) -> Option<Seq<char>> {
    match member(item, name, 0) {
        Some(s) => s,
        None => None,
    }
}

/// The kind and the text of a block.
pub open spec fn block_in(item: Seq<(Seq<char>, Option<Seq<char>>)>) -> (
    Option<Seq<char>>,
    Option<Seq<char>>,
) {
    (text_member(item, "type"@), text_member(item, "text"@))
}

/// What of these members matters.
pub open spec fn reply_of(members: Seq<(Seq<char>, Part)>) -> (
    Option<Seq<char>>,
    Option<Seq<(Option<Seq<char>>, Option<Seq<char>>)>>,
) {
    (
        match member(members, "stop_reason"@, 0) {
            Some(Part::Text(s)) => Some(s),
            _ => None,
        },
        match member(members, "content"@, 0) {
            Some(Part::List(items)) => Some(
                items.map_values(|item: Seq<(Seq<char>, Option<Seq<char>>)>| block_in(item)),
            ),
            _ => None,
        },
    )
}

fn find_text(item: &Item, name: &str) -> (r: Option<String>)
    ensures
        text::optional(r) == text_member(item@, name@),
{
    let mut i: usize = 0;
    while i < item.members.len()
        invariant
            i <= item.members@.len(),
            member(item@, name@, 0) == member(item@, name@, i as int),
        decreases item.members@.len() - i,
    {
        if text::same(item.members[i].0.as_str(), name) {
            return text::copy_optional(&item.members[i].1);
        }
        i += 1;
    }
    None
}

fn find_field<'a>(members: &'a Vec<(String, Field)>, name: &str) -> (r: Option<&'a Field>)
    ensures
        match r {
            Some(field) => member(parts(members@), name@, 0) == Some(field@),
            None => member(parts(members@), name@, 0) is None,
        },
{
    let mut i: usize = 0;
    while i < members.len()
        invariant
            i <= members@.len(),
            member(parts(members@), name@, 0) == member(parts(members@), name@, i as int),
        decreases members@.len() - i,
    {
        if text::same(members[i].0.as_str(), name) {
            return Some(&members[i].1);
        }
        i += 1;
    }
    None
}

/// What of the members of a response matters.
pub fn reply(members: &Vec<(String, Field)>) -> (r: Reply)
    ensures
        r@ == reply_of(parts(members@)),
{
    let stop_reason: Option<String> = match find_field(members, "stop_reason") {
        Some(Field::Text(s)) => Some(s.clone()),
        _ => None,
    };
    let content: Option<Vec<Block>> = match find_field(members, "content") {
        Some(Field::List(items)) => {
            let mut blocks: Vec<Block> = Vec::new();
            let mut i: usize = 0;
            while i < items.len()
                invariant
                    i <= items@.len(),
                    blocks@.len() == i,
                    forall|k: int|
                        0 <= k < i ==> #[trigger] block_views(blocks@)[k] == block_in(items@[k]@),
                decreases items@.len() - i,
            {
                let ghost were = block_views(blocks@);
                let block: Block = Block {
                    kind: find_text(&items[i], "type"),
                    text: find_text(&items[i], "text"),
                };
                blocks.push(block);
                assert(block_views(blocks@) =~= were.push(block_in(items@[i as int]@)));
                i += 1;
            }
            proof {
                let all = items@.map_values(|item: Item| item@);
                assert(block_views(blocks@) =~= all.map_values(
                    |item: Seq<(Seq<char>, Option<Seq<char>>)>| block_in(item),
                ));
            }
            Some(blocks)
        },
        _ => None,
    };
    Reply { stop_reason, content }
}

/// The quoted form of a text.
pub uninterp spec fn quoted(s: Seq<char>) -> Seq<char>;

/// The `Debug` form of a `str` depends on the text alone.
#[verifier::external_body]
fn quote(s: &str) -> (r: String)
    ensures
        r@ == quoted(s@),
{
    format!("{s:?}")
}

/// The texts of the blocks that are text.
pub open spec fn texts_in(blocks: Seq<(Option<Seq<char>>, Option<Seq<char>>)>) -> Seq<Seq<char>>
    decreases blocks.len(),
{
    if blocks.len() == 0 {
        Seq::empty()
    } else {
        let before = texts_in(blocks.drop_last());
        match blocks.last() {
            (Some(kind), Some(s)) => if kind == "text"@ {
                before.push(s)
            } else {
                before
            },
            _ => before,
        }
    }
}

/// What a text concludes: the word, of the two, that comes first in it, in
/// whatever case.
pub open spec fn concluded(s: Seq<char>) -> Option<Verdict> {
    let upper = text::uppercase(s);
    match (text::found_from(upper, "CONVERT"@, 0), text::found_from(upper, "KEEP"@, 0)) {
        (Some(convert), Some(keep)) => Some(
            if convert < keep {
                Verdict::Convert
            } else {
                Verdict::Keep
            },
        ),
        (Some(_), None) => Some(Verdict::Convert),
        (None, Some(_)) => Some(Verdict::Keep),
        (None, None) => None,
    }
}

/// What a response concludes. One that was declined leaves the text alone, and
/// one that says neither is an error, not a guess.
pub open spec fn verdict_of(
    reply: (Option<Seq<char>>, Option<Seq<(Option<Seq<char>>, Option<Seq<char>>)>>),
) -> Result<Verdict, Failure> {
    if reply.0 == Some("refusal"@) {
        Ok(Verdict::Keep)
    } else {
        match reply.1 {
            None => Err(Failure::Unparseable("no content blocks in response"@)),
            Some(blocks) => {
                let s = text::spaced(texts_in(blocks));
                match concluded(s) {
                    Some(verdict) => Ok(verdict),
                    None => Err(Failure::Unparseable("expected CONVERT or KEEP, got "@ + quoted(s))),
                }
            },
        }
    }
}

fn is_text(s: &Option<String>, word: &str) -> (r: bool)
    ensures
        r == (text::optional(*s) == Some(word@)),
{
    match s {
        Some(s) => text::same(s.as_str(), word),
        None => false,
    }
}

/// What a response concludes.
pub fn parse_verdict(reply: &Reply) -> (r: Result<Verdict, AiError>)
    ensures
        conclusion(r) == verdict_of(reply@),
{
    if is_text(&reply.stop_reason, "refusal") {
        return Ok(Verdict::Keep);
    }
    let blocks: &Vec<Block> = match &reply.content {
        Some(blocks) => blocks,
        None => {
            return Err(AiError::Unparseable("no content blocks in response".to_owned()));
        },
    };
    let ghost all = block_views(blocks@);
    let mut texts: Vec<String> = Vec::new();
    let mut i: usize = 0;
    assert(text::views(texts@) =~= texts_in(all.take(0)));
    while i < blocks.len()
        invariant
            i <= blocks@.len(),
            all == block_views(blocks@),
            text::views(texts@) == texts_in(all.take(i as int)),
        decreases blocks@.len() - i,
    {
        assert(all.take(i + 1).drop_last() =~= all.take(i as int));
        assert(all.take(i + 1).last() == (
            text::optional(blocks@[i as int].kind),
            text::optional(blocks@[i as int].text),
        ));
        if is_text(&blocks[i].kind, "text") {
            if let Some(s) = &blocks[i].text {
                let ghost were = text::views(texts@);
                texts.push(s.clone());
                assert(text::views(texts@) =~= were.push(s@));
            }
        }
        i += 1;
    }
    assert(all.take(all.len() as int) =~= all);
    let said: String = text::join(&texts);
    let upper: String = text::to_uppercase(said.as_str());
    match text::find(upper.as_str(), "CONVERT") {
        Some(convert) => match text::find(upper.as_str(), "KEEP") {
            Some(keep) => if convert < keep {
                Ok(Verdict::Convert)
            } else {
                Ok(Verdict::Keep)
            },
            None => Ok(Verdict::Convert),
        },
        None => match text::find(upper.as_str(), "KEEP") {
            Some(_) => Ok(Verdict::Keep),
            None => {
                let mut why: String = "expected CONVERT or KEEP, got ".to_owned();
                why.append(quote(said.as_str()).as_str());
                Err(AiError::Unparseable(why))
            },
        },
    }
}

/// What the text of a response concludes.
pub fn parse_response(body: &str) -> (r: Result<Verdict, AiError>)
    ensures
        conclusion(r) == (match members_in(body@) {
            Ok(members) => verdict_of(reply_of(members)),
            Err(e) => Err(Failure::Unparseable("json: "@ + e)),
        }),
{
    match read_members(body) {
        Ok(members) => parse_verdict(&reply(&members)),
        Err(e) => {
            let mut why: String = "json: ".to_owned();
            why.append(e.as_str());
            Err(AiError::Unparseable(why))
        },
    }
}

/// A response that was declined never rewrites anything.
pub proof fn lemma_declined_means_keep(
    content: Option<Seq<(Option<Seq<char>>, Option<Seq<char>>)>>,
)
    ensures
        verdict_of((Some("refusal"@), content)) == Ok::<Verdict, Failure>(Verdict::Keep),
{
}

/// Blocks that are not text do not count.
pub proof fn lemma_only_text_counts(
    blocks: Seq<(Option<Seq<char>>, Option<Seq<char>>)>,
    extra: (Option<Seq<char>>, Option<Seq<char>>),
    stop_reason: Option<Seq<char>>,
)
    requires
        extra.0 != Some("text"@),
    ensures
        verdict_of((stop_reason, Some(blocks.push(extra)))) == verdict_of(
            (stop_reason, Some(blocks)),
        ),
{
    assert(blocks.push(extra).drop_last() =~= blocks);
}

/// The answers there are.
pub struct VerdictCache {
    pub map: StringHashMap<Verdict>,
}

impl View for VerdictCache {
    type V = Map<Seq<char>, Verdict>;

    open spec fn view(&self) -> Map<Seq<char>, Verdict> {
        self.map@
    }
}

/// The answer to a question, if there is one.
pub open spec fn answer(cache: Map<Seq<char>, Verdict>, q: Doubt) -> Option<Verdict> {
    if cache.contains_key(key_of(q)) {
        Some(cache[key_of(q)])
    } else {
        None
    }
}

impl Default for VerdictCache {
    fn default() -> (r: VerdictCache)
        ensures
            r@ == Map::<Seq<char>, Verdict>::empty(),
    {
        VerdictCache::new()
    }
}

impl VerdictCache {
    pub fn new() -> (r: VerdictCache)
        ensures
            r@ == Map::<Seq<char>, Verdict>::empty(),
    {
        VerdictCache { map: StringHashMap::new() }
    }

    pub fn get(&self, question: &Question) -> (r: Option<Verdict>)
        ensures
            r == answer(self@, question@),
    {
        match self.map.get(question.key().as_str()) {
            Some(verdict) => Some(*verdict),
            None => None,
        }
    }

    pub fn insert(&mut self, question: &Question, verdict: Verdict)
        ensures
            final(self)@ == old(self)@.insert(key_of(question@), verdict),
    {
        self.map.insert(question.key(), verdict);
    }

    pub fn len(&self) -> (r: usize)
        ensures
            r == self@.len(),
    {
        self.map.len()
    }

    pub fn is_empty(&self) -> (r: bool)
        ensures
            r == (self@.len() == 0),
    {
        self.len() == 0
    }
}

/// The questions that wait, in order.
pub open spec fn doubts(questions: Seq<Question>) -> Seq<Doubt> {
    questions.map_values(|q: Question| q@)
}

/// The state of an [`Assist`].
#[verifier::ext_equal]
pub struct Learner {
    pub known: Map<Seq<char>, Verdict>,
    pub waiting: Seq<Doubt>,
}

impl Learner {
    /// A question is put. One that is answered already is not asked.
    pub open spec fn asked(self, q: Doubt) -> Learner {
        if answer(self.known, q) is Some {
            self
        } else {
            Learner { waiting: self.waiting.push(q), ..self }
        }
    }

    /// The next question to send, and what waits behind it. Those that have been
    /// answered meanwhile are dropped.
    pub open spec fn next(self) -> (Option<Doubt>, Learner)
        decreases self.waiting.len(),
    {
        if self.waiting.len() == 0 {
            (None, self)
        } else {
            let rest = Learner { waiting: self.waiting.skip(1), ..self };
            if answer(self.known, self.waiting[0]) is Some {
                rest.next()
            } else {
                (Some(self.waiting[0]), rest)
            }
        }
    }

    /// An answer arrives. Without one nothing is learned.
    pub open spec fn told(self, q: Doubt, r: Result<Verdict, Failure>) -> Learner {
        match r {
            Ok(verdict) => Learner { known: self.known.insert(key_of(q), verdict), ..self },
            Err(_) => self,
        }
    }
}

/// A question that is sent is not yet answered.
pub proof fn lemma_only_open_questions_are_sent(l: Learner)
    ensures
        l.next().0 matches Some(q) ==> answer(l.known, q) is None,
        l.next().1.known == l.known,
    decreases l.waiting.len(),
{
    if l.waiting.len() > 0 && answer(l.known, l.waiting[0]) is Some {
        lemma_only_open_questions_are_sent(Learner { waiting: l.waiting.skip(1), ..l });
    }
}

/// A word that was answered is neither queued nor sent again, in whatever case.
pub proof fn lemma_answered_once_never_asked_again(
    l: Learner,
    q: Doubt,
    verdict: Verdict,
    again: Doubt,
)
    requires
        key_of(again) == key_of(q),
    ensures
        ({
            let told = l.told(q, Ok(verdict));
            &&& answer(told.known, again) == Some(verdict)
            &&& told.asked(again) == told
            &&& told.next().0 matches Some(sent) ==> key_of(sent) != key_of(q)
        }),
{
    lemma_only_open_questions_are_sent(l.told(q, Ok(verdict)));
}

/// A question that was put is sent once everything before it has been dealt with.
pub proof fn lemma_questions_are_sent(l: Learner, q: Doubt)
    requires
        answer(l.known, q) is None,
    ensures
        l.asked(q).next().0 is Some,
    decreases l.waiting.len(),
{
    let asked = l.asked(q);
    if l.waiting.len() == 0 {
        assert(asked.waiting[0] == q);
    } else if answer(l.known, l.waiting[0]) is Some {
        let rest = Learner { waiting: l.waiting.skip(1), ..l };
        lemma_questions_are_sent(rest, q);
        assert(asked.waiting.skip(1) =~= rest.waiting.push(q));
        assert(asked.waiting[0] == l.waiting[0]);
    } else {
        assert(asked.waiting[0] == l.waiting[0]);
    }
}

/// The answers there are and the questions that wait.
pub struct Assist {
    pub cache: VerdictCache,
    pub queue: Vec<Question>,
}

impl View for Assist {
    type V = Learner;

    open spec fn view(&self) -> Learner {
        Learner { known: self.cache@, waiting: doubts(self.queue@) }
    }
}

impl Assist {
    pub fn new() -> (r: Assist)
        ensures
            r@ == (Learner { known: Map::empty(), waiting: Seq::empty() }),
    {
        let a = Assist { cache: VerdictCache::new(), queue: Vec::new() };
        assert(a@.waiting =~= Seq::empty());
        a
    }

    /// The answer to a question, if there is one already.
    pub fn cached(&self, question: &Question) -> (r: Option<Verdict>)
        ensures
            r == answer(self@.known, question@),
    {
        self.cache.get(question)
    }

    /// Queues a question, unless it is answered already.
    pub fn enqueue(&mut self, question: Question)
        ensures
            final(self)@ == old(self)@.asked(question@),
    {
        if self.cache.get(&question).is_some() {
            return;
        }
        let ghost were = doubts(self.queue@);
        let ghost q = question@;
        self.queue.push(question);
        assert(doubts(self.queue@) =~= were.push(q));
    }

    /// How many answers there are.
    pub fn learned(&self) -> (r: usize)
        ensures
            r == self@.known.len(),
    {
        self.cache.len()
    }

    /// Takes the next question that has no answer yet off the queue.
    pub fn next(&mut self) -> (r: Option<Question>)
        ensures
            match r {
                Some(q) => old(self)@.next() == (Some(q@), final(self)@),
                None => old(self)@.next() == (None::<Doubt>, final(self)@),
            },
    {
        while self.queue.len() > 0
            invariant
                old(self)@.next() == self@.next(),
            decreases self.queue@.len(),
        {
            let ghost before = self@;
            let question: Question = self.queue.remove(0);
            assert(before.waiting[0] == question@);
            assert(self@.waiting =~= before.waiting.skip(1));
            if self.cache.get(&question).is_none() {
                return Some(question);
            }
        }
        None
    }

    /// Remembers the answer to a question, if there was one.
    pub fn learn(&mut self, question: &Question, verdict: Result<Verdict, AiError>)
        ensures
            final(self)@ == old(self)@.told(question@, conclusion(verdict)),
    {
        if let Ok(verdict) = verdict {
            self.cache.insert(question, verdict);
        }
    }
}

/// The second opinion as the engine asks for it.
pub struct ClaudeAssist {
    pub config: AiConfig,
    pub inner: Assist,
}

fn to_ai(question: assist::Question) -> (r: Question)
    ensures
        r@ == question@,
{
    Question {
        typed: question.typed,
        alternative: question.alternative,
        typed_language: question.typed_language,
        alternative_language: question.alternative_language,
    }
}

/// A question about two readings, in no particular languages.
pub open spec fn pair(typed: Seq<char>, alternative: Seq<char>) -> Doubt {
    Doubt {
        typed,
        alternative,
        typed_language: Seq::empty(),
        alternative_language: Seq::empty(),
    }
}

impl ClaudeAssist {
    /// There is no second opinion without a key: one that can only fail would
    /// look switched on while doing nothing.
    pub fn start(api_key: &str, model: &str) -> (r: Option<ClaudeAssist>)
        ensures
            r is Some <==> !text::blank(api_key@),
            r matches Some(a) ==> a.config.api_key@ == api_key@ && a.config.model@ == model@
                && a.config.timeout_secs == TIMEOUT_SECS && a.inner@ == (Learner {
                known: Map::empty(),
                waiting: Seq::empty(),
            }),
    {
        if text::is_blank(api_key) {
            return None;
        }
        Some(ClaudeAssist { config: AiConfig::new(api_key, model), inner: Assist::new() })
    }

    /// Whether to convert, if that is known already.
    pub fn cached(&self, typed: &str, alternative: &str) -> (r: Option<bool>)
        ensures
            r == (match answer(self.inner@.known, pair(typed@, alternative@)) {
                Some(verdict) => Some(verdict == Verdict::Convert),
                None => None,
            }),
    {
        let question = Question {
            typed: typed.to_owned(),
            alternative: alternative.to_owned(),
            typed_language: String::new(),
            alternative_language: String::new(),
        };
        match self.inner.cached(&question) {
            Some(verdict) => Some(verdict == Verdict::Convert),
            None => None,
        }
    }

    pub fn enqueue(&mut self, question: assist::Question)
        ensures
            final(self).inner@ == old(self).inner@.asked(question@),
            final(self).config == old(self).config,
    {
        self.inner.enqueue(to_ai(question));
    }

    pub fn learned(&self) -> (r: usize)
        ensures
            r == self.inner@.known.len(),
    {
        self.inner.learned()
    }
}

/// What the model says is the word of the two that comes first: to convert exactly
/// if CONVERT stands somewhere with no KEEP before it, to keep exactly if KEEP stands
/// somewhere with no CONVERT before it, and neither if none of them stands anywhere.
pub proof fn lemma_the_first_word_decides(s: Seq<char>)
    ensures
        ({
            let upper = text::uppercase(s);
            &&& concluded(s) == Some(Verdict::Convert) <==> exists|i: int| #[trigger]
                text::stands_at(upper, "CONVERT"@, i) && forall|j: int| #[trigger]
                    text::stands_at(upper, "KEEP"@, j) ==> i < j
            &&& concluded(s) == Some(Verdict::Keep) <==> exists|j: int| #[trigger]
                text::stands_at(upper, "KEEP"@, j) && forall|i: int| #[trigger]
                    text::stands_at(upper, "CONVERT"@, i) ==> j <= i
            &&& concluded(s) is None <==> (forall|i: int|
                !#[trigger] text::stands_at(upper, "CONVERT"@, i)) && (forall|i: int|
                !#[trigger] text::stands_at(upper, "KEEP"@, i))
        }),
{
    let upper = text::uppercase(s);
    text::lemma_found_first(upper, "CONVERT"@, 0);
    text::lemma_found_first(upper, "KEEP"@, 0);
    if let Some(k) = text::found_from(upper, "CONVERT"@, 0) {
        assert(text::stands_at(upper, "CONVERT"@, k));
    }
    if let Some(k) = text::found_from(upper, "KEEP"@, 0) {
        assert(text::stands_at(upper, "KEEP"@, k));
    }
}

/// A response that was not declined says what its texts say, one after another; one
/// with nothing in it, or with neither word, is an error that leaves things open.
pub proof fn lemma_what_a_response_says(
    stop_reason: Option<Seq<char>>,
    blocks: Seq<(Option<Seq<char>>, Option<Seq<char>>)>,
    s: Seq<char>,
)
    requires
        stop_reason != Some("refusal"@),
    ensures
        texts_in(blocks.push((Some("text"@), Some(s)))) == texts_in(blocks).push(s),
        texts_in(Seq::empty()) == Seq::<Seq<char>>::empty(),
        verdict_of((stop_reason, Some(seq![(Some("text"@), Some(s))]))) == (match concluded(s) {
            Some(v) => Ok::<Verdict, Failure>(v),
            None => Err(Failure::Unparseable("expected CONVERT or KEEP, got "@ + quoted(s))),
        }),
        verdict_of((stop_reason, None)) is Err,
{
    let block = (Some("text"@), Some(s));
    assert(blocks.push(block).drop_last() =~= blocks);
    assert(seq![block].drop_last() =~= Seq::empty());
    assert(seq![block].last() == block);
    assert(texts_in(seq![block].drop_last()) =~= Seq::<Seq<char>>::empty());
    assert(texts_in(seq![block]) =~= seq![s]);
    assert(text::spaced(seq![s]) == s);
}

/// Questions are sent in the order in which they were put: the first one that is not
/// answered yet, with those behind it still waiting. There is none exactly if all
/// are answered.
pub proof fn lemma_first_come_first_sent(l: Learner)
    ensures
        match l.next() {
            (Some(q), rest) => exists|k: int|
                0 <= k < l.waiting.len() && #[trigger] l.waiting[k] == q && rest.waiting
                    == l.waiting.skip(k + 1) && answer(l.known, q) is None && forall|i: int|
                    0 <= i < k ==> answer(l.known, #[trigger] l.waiting[i]) is Some,
            (None, rest) => rest.waiting.len() == 0 && forall|i: int|
                0 <= i < l.waiting.len() ==> answer(l.known, #[trigger] l.waiting[i]) is Some,
        },
    decreases l.waiting.len(),
{
    if l.waiting.len() > 0 {
        let rest = Learner { waiting: l.waiting.skip(1), ..l };
        if answer(l.known, l.waiting[0]) is Some {
            lemma_first_come_first_sent(rest);
            match rest.next() {
                (Some(q), left) => {
                    let k = choose|k: int|
                        0 <= k < rest.waiting.len() && #[trigger] rest.waiting[k] == q
                            && left.waiting == rest.waiting.skip(k + 1) && answer(l.known, q) is None
                            && forall|i: int|
                            0 <= i < k ==> answer(l.known, #[trigger] rest.waiting[i]) is Some;
                    assert(l.waiting[k + 1] == q);
                    assert(l.waiting.skip(k + 2) =~= left.waiting);
                    assert forall|i: int| 0 <= i < k + 1 implies answer(
                        l.known,
                        #[trigger] l.waiting[i],
                    ) is Some by {
                        if i > 0 {
                            assert(rest.waiting[i - 1] == l.waiting[i]);
                        }
                    }
                },
                (None, left) => {
                    assert forall|i: int| 0 <= i < l.waiting.len() implies answer(
                        l.known,
                        #[trigger] l.waiting[i],
                    ) is Some by {
                        if i > 0 {
                            assert(rest.waiting[i - 1] == l.waiting[i]);
                        }
                    }
                },
            }
        } else {
            assert(l.waiting[0] == l.next().0->0);
            assert(l.waiting.skip(1) =~= rest.waiting);
        }
    }
}

/// A question goes to the end of those that wait, and an answer settles that question
/// and no other; a failure settles none.
pub proof fn lemma_an_answer_settles_its_question(
    l: Learner,
    q: Doubt,
    verdict: Verdict,
    failure: Failure,
    other: Doubt,
)
    ensures
        answer(l.known, q) is None ==> l.asked(q).waiting == l.waiting.push(q),
        l.asked(q).known == l.known,
        answer(l.told(q, Ok(verdict)).known, q) == Some(verdict),
        key_of(other) != key_of(q) ==> answer(l.told(q, Ok(verdict)).known, other) == answer(
            l.known,
            other,
        ),
        l.told(q, Ok(verdict)).waiting == l.waiting,
        l.told(q, Err(failure)) == l,
{
}

/// Two questions are the same only if they are about the same two readings, in
/// whatever case, unless there is a bar in what was typed.
pub proof fn lemma_other_readings_are_other_questions(a: Doubt, b: Doubt)
    requires
        key_of(a) == key_of(b),
        !text::lowercase(a.typed).contains('|'),
        !text::lowercase(b.typed).contains('|'),
    ensures
        text::lowercase(a.typed) == text::lowercase(b.typed),
        text::lowercase(a.alternative) == text::lowercase(b.alternative),
{
    reveal_strlit("|");
    let (x, y) = (text::lowercase(a.typed), text::lowercase(b.typed));
    let (u, v) = (text::lowercase(a.alternative), text::lowercase(b.alternative));
    let k = key_of(a);
    assert(k[x.len() as int] == '|');
    assert(k[y.len() as int] == '|');
    if x.len() < y.len() {
        assert(y[x.len() as int] == '|');
    }
    if y.len() < x.len() {
        assert(x[y.len() as int] == '|');
    }
    assert(x =~= k.take(x.len() as int));
    assert(y =~= k.take(y.len() as int));
    assert(u =~= k.skip(x.len() as int + 1));
    assert(v =~= k.skip(y.len() as int + 1));
}

proof fn lemma_member<T>(members: Seq<(Seq<char>, T)>, name: Seq<char>, i: int, k: int)
    requires
        0 <= i <= k < members.len(),
        members[k].0 == name,
        forall|j: int| i <= j < k ==> (#[trigger] members[j]).0 != name,
    ensures
        member(members, name, i) == Some(members[k].1),
    decreases k - i,
{
    if i < k {
        lemma_member(members, name, i + 1, k);
    }
}

/// Why a response ended is what its first member `stop_reason` says, and what it holds is
/// the list that its first member `content` is, whatever other members there are.
pub proof fn lemma_what_of_a_response_matters(members: Seq<(Seq<char>, Part)>, k: int)
    requires
        0 <= k < members.len(),
        forall|j: int| 0 <= j < k ==> (#[trigger] members[j]).0 != members[k].0,
    ensures
        members[k].0 == "stop_reason"@ ==> (members[k].1 matches Part::Text(s) ==> reply_of(
            members,
        ).0 == Some(s)),
        members[k].0 == "content"@ ==> (members[k].1 matches Part::List(items) ==> (reply_of(
            members,
        ).1 matches Some(blocks) && blocks.len() == items.len() && forall|i: int|
            0 <= i < items.len() ==> #[trigger] blocks[i] == block_in(items[i]))),
{
    lemma_member(members, members[k].0, 0, k);
}

/// The kind of a block is the text of its first member `type`, and what it says that of its
/// first member `text`.
pub proof fn lemma_what_of_a_block_matters(item: Seq<(Seq<char>, Option<Seq<char>>)>, k: int)
    requires
        0 <= k < item.len(),
        forall|j: int| 0 <= j < k ==> (#[trigger] item[j]).0 != item[k].0,
    ensures
        item[k].0 == "type"@ ==> block_in(item).0 == item[k].1,
        item[k].0 == "text"@ ==> block_in(item).1 == item[k].1,
{
    lemma_member(item, item[k].0, 0, k);
}

/// A question in words says what was typed and in which language, and then the other
/// reading and its language, each behind its own heading.
pub proof fn lemma_what_a_question_says(q: Doubt)
    ensures
        ({
            let said = prompt_of(q);
            let first = "Typed: "@ + q.typed;
            let second = "\nLanguage of the active layout: "@ + q.typed_language;
            let third = "\nAlternative reading: "@ + q.alternative;
            let fourth = "\nLanguage of the other layout: "@ + q.alternative_language;
            &&& text::stands_at(said, first, 0)
            &&& text::stands_at(said, second, first.len() as int)
            &&& text::stands_at(said, third, (first + second).len() as int)
            &&& text::stands_at(said, fourth, (first + second + third).len() as int)
            &&& text::stands_at(
                said,
                "\n\nCONVERT or KEEP?"@,
                (first + second + third + fourth).len() as int,
            )
        }),
{
    let first = "Typed: "@ + q.typed;
    let second = "\nLanguage of the active layout: "@ + q.typed_language;
    let third = "\nAlternative reading: "@ + q.alternative;
    let fourth = "\nLanguage of the other layout: "@ + q.alternative_language;
    let last = "\n\nCONVERT or KEEP?"@;
    let said = prompt_of(q);
    assert(said =~= first + second + third + fourth + last);
    lemma_stands(Seq::empty(), first, second + third + fourth + last, said);
    lemma_stands(first, second, third + fourth + last, said);
    lemma_stands(first + second, third, fourth + last, said);
    lemma_stands(first + second + third, fourth, last, said);
    lemma_stands(first + second + third + fourth, last, Seq::empty(), said);
}

proof fn lemma_stands(before: Seq<char>, part: Seq<char>, behind: Seq<char>, whole: Seq<char>)
    requires
        whole =~= before + part + behind,
    ensures
        text::stands_at(whole, part, before.len() as int),
{
    let i = before.len() as int;
    assert(whole.subrange(i, i + part.len()) =~= part);
}

} // verus!
