use chat_cli::transcript::{StorageError, Transcript, Turn};
use chat_cli::transcript::updated_log;

fn turn(role: &str, content: &str) -> Turn {
    Turn { role: role.to_string(), content: content.to_string() }
}

#[test]
fn round_trip_empty() {
    let t = Transcript::new();
    let doc = t.serialize();
    assert_eq!(doc, "[]");
    let back = Transcript::load(&doc).unwrap();
    assert_eq!(back.turns.len(), 0);
}

#[test]
fn empty_text_is_empty_transcript() {
    let back = Transcript::load("").unwrap();
    assert_eq!(back.turns.len(), 0);
}

#[test]
fn round_trip_one_turn() {
    let t = Transcript { turns: vec![turn("user", "hello")] };
    let doc = t.serialize();
    assert_eq!(doc, "[{\"role\":\"user\",\"content\":\"hello\"}]");
    let back = Transcript::load(&doc).unwrap();
    assert_eq!(back.turns.len(), 1);
    assert_eq!(back.turns[0].role, "user");
    assert_eq!(back.turns[0].content, "hello");
}

#[test]
fn round_trip_fifty_turns() {
    let mut turns = Vec::new();
    for i in 0..25 {
        turns.push(turn("user", &format!("question {}", i)));
        turns.push(turn("assistant", &format!("answer {}", i)));
    }
    let t = Transcript { turns };
    let doc = t.serialize();
    let back = Transcript::load(&doc).unwrap();
    assert_eq!(back.turns.len(), 50);
    for i in 0..25 {
        assert_eq!(back.turns[2 * i].role, "user");
        assert_eq!(back.turns[2 * i].content, format!("question {}", i));
        assert_eq!(back.turns[2 * i + 1].role, "assistant");
        assert_eq!(back.turns[2 * i + 1].content, format!("answer {}", i));
    }
}

#[test]
fn round_trip_special_characters() {
    let tricky = "a \"quoted\" value with \\backslash\\,\nnewline,\ttab, \r cr, \u{1} ctl, caf\u{e9} \u{1f600}";
    let t = Transcript { turns: vec![turn("user", tricky), turn("as\"si\\stant", "")] };
    let doc = t.serialize();
    let back = Transcript::load(&doc).unwrap();
    assert_eq!(back.turns.len(), 2);
    assert_eq!(back.turns[0].content, tricky);
    assert_eq!(back.turns[1].role, "as\"si\\stant");
    assert_eq!(back.turns[1].content, "");
}

#[test]
fn escaping_is_canonical() {
    let t = Transcript { turns: vec![turn("user", "line\nbreak \"q\" \u{1f}")] };
    let doc = t.serialize();
    assert_eq!(
        doc,
        "[{\"role\":\"user\",\"content\":\"line\\nbreak \\\"q\\\" \\u001f\"}]"
    );
}

#[test]
fn load_rejects_malformed_text() {
    assert!(matches!(Transcript::load("not json"), Err(StorageError::Malformed)));
    assert!(matches!(Transcript::load("["), Err(StorageError::Malformed)));
    assert!(matches!(Transcript::load("[{}]"), Err(StorageError::Malformed)));
    assert!(matches!(
        Transcript::load("[{\"role\":\"user\",\"content\":\"x\"}"),
        Err(StorageError::Malformed)
    ));
    assert!(matches!(
        Transcript::load("[{\"role\":\"user\",\"content\":\"x\"}]trailing"),
        Err(StorageError::Malformed)
    ));
}

#[test]
fn append_keeps_order() {
    let mut t = Transcript::new();
    t.append(turn("user", "a"), turn("assistant", "b"));
    t.append(turn("user", "c"), turn("assistant", "d"));
    let doc = t.serialize();
    let back = Transcript::load(&doc).unwrap();
    let got: Vec<(String, String)> =
        back.turns.iter().map(|t| (t.role.clone(), t.content.clone())).collect();
    assert_eq!(
        got,
        vec![
            ("user".to_string(), "a".to_string()),
            ("assistant".to_string(), "b".to_string()),
            ("user".to_string(), "c".to_string()),
            ("assistant".to_string(), "d".to_string()),
        ]
    );
}

#[test]
fn updated_log_from_empty() {
    let doc = updated_log("", "hi", "there").unwrap();
    assert_eq!(
        doc,
        "[{\"role\":\"user\",\"content\":\"hi\"},{\"role\":\"assistant\",\"content\":\"there\"}]"
    );
}

#[test]
fn updated_log_appends_to_history() {
    let first = updated_log("", "hi", "there").unwrap();
    let second = updated_log(&first, "more?", "yes").unwrap();
    let back = Transcript::load(&second).unwrap();
    assert_eq!(back.turns.len(), 4);
    assert_eq!(back.turns[2].role, "user");
    assert_eq!(back.turns[2].content, "more?");
    assert_eq!(back.turns[3].role, "assistant");
    assert_eq!(back.turns[3].content, "yes");
}

#[test]
fn updated_log_rejects_malformed_history() {
    assert!(matches!(updated_log("{broken", "p", "a"), Err(StorageError::Malformed)));
}

#[test]
fn failed_exchange_leaves_store_untouched() {
    let doc = updated_log("", "hi", "there").unwrap();
    let before = Transcript::load(&doc).unwrap();
    let again = Transcript::load(&doc).unwrap();
    assert_eq!(before.turns.len(), again.turns.len());
    for (a, b) in before.turns.iter().zip(again.turns.iter()) {
        assert_eq!(a.role, b.role);
        assert_eq!(a.content, b.content);
    }
}

#[test]
fn whitespace_only_text_is_malformed() {
    assert!(matches!(Transcript::load("   "), Err(StorageError::Malformed)));
}

#[test]
fn load_accepts_whitespace_between_tokens() {
    let back = Transcript::load("[ ]").unwrap();
    assert_eq!(back.turns.len(), 0);
    let back = Transcript::load("[]\n").unwrap();
    assert_eq!(back.turns.len(), 0);
    let back = Transcript::load(" [\n  {\t\"role\" : \"user\" ,\r\n   \"content\" : \"hi\" }\n]\n")
        .unwrap();
    assert_eq!(back.turns.len(), 1);
    assert_eq!(back.turns[0].role, "user");
    assert_eq!(back.turns[0].content, "hi");
}

#[test]
fn load_accepts_either_member_order() {
    let back =
        Transcript::load("[{\"content\":\"hi\",\"role\":\"user\"}]").unwrap();
    assert_eq!(back.turns[0].role, "user");
    assert_eq!(back.turns[0].content, "hi");
}

#[test]
fn load_accepts_standard_escapes() {
    let back = Transcript::load(
        "[{\"role\":\"user\",\"content\":\"a\\bb\\fc\\u0041d\\/e\"}]",
    )
    .unwrap();
    assert_eq!(back.turns[0].content, "a\u{8}b\u{c}cAd/e");
}

#[test]
fn load_accepts_surrogate_pairs() {
    let back = Transcript::load(
        "[{\"role\":\"user\",\"content\":\"\\ud83d\\ude00\"}]",
    )
    .unwrap();
    assert_eq!(back.turns[0].content, "\u{1f600}");
}

#[test]
fn load_rejects_lone_surrogate() {
    assert!(matches!(
        Transcript::load("[{\"role\":\"user\",\"content\":\"\\ud83d\"}]"),
        Err(StorageError::Malformed)
    ));
}

#[test]
fn load_rejects_duplicate_keys() {
    assert!(matches!(
        Transcript::load("[{\"role\":\"user\",\"role\":\"system\"}]"),
        Err(StorageError::Malformed)
    ));
}

#[test]
fn serde_written_document_loads() {
    // the document shape an ordinary JSON serializer produces for a
    // control-heavy text: short escapes for 0x08 and 0x0C
    let doc = "[{\"role\":\"user\",\"content\":\"a\\b\\f\\u001fb\"}]";
    let back = Transcript::load(doc).unwrap();
    assert_eq!(back.turns[0].content, "a\u{8}\u{c}\u{1f}b");
}
