use rekey::buffer::{Buffer, Input, LastCorrection, Word, MAX_WORD};

fn type_str(b: &mut Buffer, s: &str) -> Vec<Word> {
    let mut out = Vec::new();
    for c in s.chars() {
        let input = if c.is_whitespace() {
            Input::Boundary(c)
        } else {
            Input::Char(c)
        };
        if let Some(w) = b.push(input) {
            out.push(w);
        }
    }
    out
}

#[test]
fn emits_words_at_boundaries() {
    let mut b = Buffer::new();
    let words = type_str(&mut b, "hello world ");
    assert_eq!(words.len(), 2);
    assert_eq!(words[0].text, "hello");
    assert_eq!(words[0].terminator, Some(' '));
    assert_eq!(words[1].text, "world");
}

#[test]
fn word_in_progress_is_not_emitted() {
    let mut b = Buffer::new();
    let words = type_str(&mut b, "hello wor");
    assert_eq!(words.len(), 1);
    assert_eq!(b.current(), "wor");
}

#[test]
fn backspace_edits_the_current_word() {
    let mut b = Buffer::new();
    type_str(&mut b, "helxo");
    b.push(Input::Backspace);
    b.push(Input::Backspace);
    b.push(Input::Char('l'));
    b.push(Input::Char('o'));
    let w = b.push(Input::Boundary(' ')).expect("word");
    assert_eq!(w.text, "hello");
}

#[test]
fn backspacing_past_the_start_stops_trusting_the_position() {
    let mut b = Buffer::new();
    b.push(Input::Backspace);
    b.push(Input::Char('x'));
    assert_eq!(b.push(Input::Boundary(' ')), None);
    let w = type_str(&mut b, "hello ");
    assert_eq!(w[0].text, "hello");
}

#[test]
fn caret_movement_discards_the_word() {
    let mut b = Buffer::new();
    type_str(&mut b, "hel");
    b.push(Input::Reset);
    assert!(b.is_empty());
    assert_eq!(b.push(Input::Boundary(' ')), None);
}

#[test]
fn repeated_boundaries_emit_nothing() {
    let mut b = Buffer::new();
    let words = type_str(&mut b, "hi   ");
    assert_eq!(words.len(), 1);
}

#[test]
fn very_long_runs_are_abandoned() {
    let mut b = Buffer::new();
    let long: String = std::iter::repeat_n('a', MAX_WORD + 5).collect();
    type_str(&mut b, &long);
    assert_eq!(b.push(Input::Boundary(' ')), None);
}

#[test]
fn deletion_count_includes_the_terminator() {
    let w = Word {
        text: "ghbdtn".into(),
        terminator: Some(' '),
    };
    assert_eq!(w.chars_to_delete(), 7);
    let w = Word {
        text: "ghbdtn".into(),
        terminator: None,
    };
    assert_eq!(w.chars_to_delete(), 6);
}

#[test]
fn deletion_count_is_in_characters_not_bytes() {
    let c = LastCorrection {
        original: "ghbdtn".into(),
        corrected: "привет".into(),
        terminator: Some(' '),
    };
    assert_eq!(c.chars_to_delete(), 7);
    assert_eq!(c.restore_text(), "ghbdtn ");
}

#[test]
fn manual_flush_takes_the_word_in_progress() {
    let mut b = Buffer::new();
    type_str(&mut b, "ghbdt");
    let w = b.take_current().expect("word");
    assert_eq!(w.text, "ghbdt");
    assert_eq!(w.terminator, None);
    assert!(b.is_empty());
}

#[test]
fn the_longest_word_still_comes_out() {
    let mut b = Buffer::new();
    let long: String = std::iter::repeat_n('я', MAX_WORD).collect();
    type_str(&mut b, &long);
    let w = b.push(Input::Boundary('\t')).expect("word");
    assert_eq!(w.chars_to_delete(), MAX_WORD + 1);
    assert_eq!(w.terminator, Some('\t'));
}

#[test]
fn a_distrusted_word_cannot_be_taken() {
    let mut b = Buffer::new();
    b.push(Input::Backspace);
    type_str(&mut b, "abc");
    assert_eq!(b.take_current(), None);
    assert_eq!(b.current(), "abc");
    assert_eq!(Buffer::new().take_current(), None);
}

#[test]
fn a_backspace_undoes_a_character() {
    let mut b = Buffer::new();
    type_str(&mut b, "abc");
    b.push(Input::Char('d'));
    b.push(Input::Backspace);
    assert_eq!(b.current(), "abc");
    assert!(!b.poisoned);
}

#[test]
fn a_correction_is_taken_back_exactly() {
    let c = LastCorrection {
        original: "ghbdtn".into(),
        corrected: "привет".into(),
        terminator: Some(' '),
    };
    let mut doc: Vec<char> = "well, привет ".chars().collect();
    doc.truncate(doc.len() - c.chars_to_delete());
    let doc: String = doc.into_iter().chain(c.restore_text().chars()).collect();
    assert_eq!(doc, "well, ghbdtn ");
    assert!(c == c.clone());
    assert!(c != LastCorrection { terminator: None, ..c.clone() });
}
