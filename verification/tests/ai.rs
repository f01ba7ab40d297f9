use rekey::ai::{
    ask, parse_response, parse_verdict, reply, AiConfig, AiError, Assist, Block, ClaudeAssist,
    Field, Item, Question, Reply, Verdict, VerdictCache,
};
use rekey::assist;

fn q() -> Question {
    Question {
        typed: "ghbdtn".into(),
        alternative: "привет".into(),
        typed_language: "en".into(),
        alternative_language: "ru".into(),
    }
}

#[test]
fn parses_a_plain_convert() {
    let r = r#"{
        "content": [{"type": "text", "text": "CONVERT"}],
        "stop_reason": "end_turn"
    }"#;
    assert_eq!(parse_response(r).unwrap(), Verdict::Convert);
}

#[test]
fn parses_a_plain_keep() {
    let r = r#"{
        "content": [{"type": "text", "text": "KEEP"}],
        "stop_reason": "end_turn"
    }"#;
    assert_eq!(parse_response(r).unwrap(), Verdict::Keep);
}

#[test]
fn tolerates_surrounding_prose() {
    let r = r#"{
        "content": [{"type": "text", "text": "This is Russian typed on QWERTY. CONVERT"}],
        "stop_reason": "end_turn"
    }"#;
    assert_eq!(parse_response(r).unwrap(), Verdict::Convert);
}

#[test]
fn ignores_thinking_blocks() {
    let r = r#"{
        "content": [
            {"type": "thinking", "thinking": "KEEP might apply here but no"},
            {"type": "text", "text": "CONVERT"}
        ],
        "stop_reason": "end_turn"
    }"#;
    assert_eq!(parse_response(r).unwrap(), Verdict::Convert);
}

#[test]
fn a_refusal_leaves_the_text_alone() {
    let r = r#"{
        "content": [],
        "stop_reason": "refusal",
        "stop_details": {"type": "refusal", "category": "other"}
    }"#;
    assert_eq!(parse_response(r).unwrap(), Verdict::Keep);
}

#[test]
fn an_unusable_answer_is_an_error_not_a_guess() {
    let r = r#"{
        "content": [{"type": "text", "text": "I am not sure about this one"}],
        "stop_reason": "end_turn"
    }"#;
    assert!(parse_response(r).is_err());
    assert_eq!(
        parse_response(r).unwrap_err().message(),
        "unexpected response: expected CONVERT or KEEP, got \"I am not sure about this one\""
    );
}

#[test]
fn what_is_not_json_is_an_error() {
    let e = parse_response("{").unwrap_err();
    assert_eq!(
        e.message(),
        "unexpected response: json: EOF while parsing an object at line 1 column 1"
    );
    for r in ["[]", "{}", r#"{"content": "CONVERT"}"#] {
        assert_eq!(
            parse_response(r).unwrap_err().message(),
            "unexpected response: no content blocks in response"
        );
    }
}

#[test]
fn the_word_that_comes_first_decides() {
    let said = |s: &str| Reply {
        stop_reason: None,
        content: Some(vec![Block {
            kind: Some("text".into()),
            text: Some(s.into()),
        }]),
    };
    assert_eq!(
        parse_verdict(&said("convert, do not keep")).unwrap(),
        Verdict::Convert
    );
    assert_eq!(
        parse_verdict(&said("Keep, do not convert")).unwrap(),
        Verdict::Keep
    );
    // Blocks are joined by a space, so a word is never made of two.
    let halves = Reply {
        stop_reason: Some("end_turn".into()),
        content: Some(vec![
            Block {
                kind: Some("text".into()),
                text: Some("KE".into()),
            },
            Block {
                kind: Some("text".into()),
                text: Some("EP".into()),
            },
            Block {
                kind: Some("text".into()),
                text: None,
            },
            Block {
                kind: None,
                text: Some("KEEP".into()),
            },
        ]),
    };
    assert_eq!(
        parse_verdict(&halves).unwrap_err().message(),
        "unexpected response: expected CONVERT or KEEP, got \"KE EP\""
    );
}

#[test]
fn missing_api_key_is_refused_before_any_request() {
    let config = AiConfig::new("   ", "judge-1");
    assert!(matches!(ask(&config, &q()), Err(AiError::NoApiKey)));
}

#[test]
fn a_request_carries_the_question() {
    let config = AiConfig::new("secret", "judge-1");
    let request = ask(&config, &q()).unwrap();
    assert_eq!(request.url, "https://api.anthropic.com/v1/messages");
    assert_eq!(request.version, "2023-06-01");
    assert_eq!(request.api_key, "secret");
    assert_eq!(request.model, "judge-1");
    assert_eq!(request.max_tokens, 256);
    assert_eq!(request.effort, "low");
    assert_eq!(request.timeout_secs, 30);
    assert_eq!(request.prompt, q().prompt());
    assert!(request.system.contains("answer KEEP: leaving text alone is always recoverable"));
}

#[test]
fn cache_is_case_insensitive() {
    let mut cache = VerdictCache::new();
    cache.insert(&q(), Verdict::Convert);
    let upper = Question {
        typed: "GHBDTN".into(),
        alternative: "ПРИВЕТ".into(),
        ..q()
    };
    assert_eq!(cache.get(&upper), Some(Verdict::Convert));
}

#[test]
fn the_cache_counts_its_answers() {
    let mut cache = VerdictCache::new();
    assert!(cache.is_empty());
    assert_eq!(cache.get(&q()), None);
    cache.insert(&q(), Verdict::Convert);
    cache.insert(&q(), Verdict::Keep);
    assert_eq!(cache.len(), 1);
    assert_eq!(cache.get(&q()), Some(Verdict::Keep));
}

#[test]
fn prompt_includes_both_readings_and_languages() {
    let p = q().prompt();
    assert!(p.contains("ghbdtn"));
    assert!(p.contains("привет"));
    assert!(p.contains("en"));
    assert!(p.contains("ru"));
}

#[test]
fn the_prompt_is_worded_exactly() {
    assert_eq!(
        q().prompt(),
        "Typed: ghbdtn\nLanguage of the active layout: en\nAlternative reading: привет\n\
         Language of the other layout: ru\n\nCONVERT or KEEP?"
    );
}

#[test]
fn an_answered_word_is_not_asked_again() {
    let mut a = Assist::new();
    a.enqueue(q());
    a.enqueue(q());
    let first = a.next().expect("a question waits");
    assert_eq!(first.typed, "ghbdtn");
    a.learn(&first, Ok(Verdict::Convert));
    assert_eq!(a.learned(), 1);
    // The second copy is dropped, and a third is not queued.
    assert!(a.next().is_none());
    a.enqueue(q());
    assert!(a.next().is_none());
    assert_eq!(a.cached(&q()), Some(Verdict::Convert));
}

#[test]
fn a_failed_request_teaches_nothing() {
    let mut a = Assist::new();
    a.enqueue(q());
    let first = a.next().expect("a question waits");
    a.learn(&first, Err(AiError::Http("timeout".into())));
    assert_eq!(a.learned(), 0);
    assert_eq!(a.cached(&q()), None);
    assert_eq!(
        AiError::Http("timeout".into()).message(),
        "request failed: timeout"
    );
    assert_eq!(
        AiError::NoApiKey.message(),
        "no Anthropic API key configured"
    );
}

#[test]
fn no_key_no_assist() {
    assert!(ClaudeAssist::start("", "judge-1").is_none());
    assert!(ClaudeAssist::start(" \n", "judge-1").is_none());
    let mut a = ClaudeAssist::start("key", "judge-1").expect("a key is enough");
    assert_eq!(a.config.api_key, "key");
    assert_eq!(a.cached("ghbdtn", "привет"), None);
    a.enqueue(assist::Question {
        typed: "ghbdtn".into(),
        alternative: "привет".into(),
        typed_language: "en".into(),
        alternative_language: "ru".into(),
    });
    let asked = a.inner.next().expect("a question waits");
    assert_eq!(asked.alternative_language, "ru");
    a.inner.learn(&asked, Ok(Verdict::Keep));
    assert_eq!(a.cached("Ghbdtn", "Привет"), Some(false));
    assert_eq!(a.learned(), 1);
}

#[test]
fn only_the_members_that_matter_are_read() {
    let item = |members: &[(&str, Option<&str>)]| Item {
        members: members
            .iter()
            .map(|(k, v)| (k.to_string(), v.map(str::to_string)))
            .collect(),
    };
    let members = vec![
        ("id".to_string(), Field::Text("text".into())),
        (
            "content".to_string(),
            Field::List(vec![
                item(&[("text", Some("CONVERT")), ("type", Some("text"))]),
                item(&[("type", None), ("text", Some("KEEP"))]),
                item(&[]),
            ]),
        ),
        ("stop_reason".to_string(), Field::Other),
    ];
    let read = reply(&members);
    assert_eq!(read.stop_reason, None);
    let blocks = read.content.as_ref().unwrap();
    assert_eq!(blocks.len(), 3);
    assert_eq!(blocks[0].kind.as_deref(), Some("text"));
    assert_eq!(blocks[0].text.as_deref(), Some("CONVERT"));
    assert_eq!(blocks[1].kind, None);
    assert_eq!(blocks[2].text, None);
    assert_eq!(parse_verdict(&read).unwrap(), Verdict::Convert);

    let named = |field: Field| reply(&vec![("content".to_string(), field)]);
    assert!(named(Field::Text("CONVERT".into())).content.is_none());
    assert!(named(Field::Other).content.is_none());
    assert_eq!(named(Field::List(vec![])).content.unwrap().len(), 0);
    // A reason that is no text, and a kind that is no text, count for nothing.
    let odd = r#"{"stop_reason": 1, "content": [{"type": ["text"], "text": "KEEP"}, 5,
        {"type": "text", "text": "CONVERT"}]}"#;
    assert_eq!(parse_response(odd).unwrap(), Verdict::Convert);
}
