use chat_cli::session::{
    build_messages, get_messages_from_chatlog, request_body, step_exchange, Action, Config,
    ConfigError, ExchangeEvent, Message, Phase,
};
use chat_cli::transcript::{StorageError, Transcript, Turn};

fn pairs(msgs: &[Message]) -> Vec<(String, String)> {
    msgs.iter().map(|m| (m.role.clone(), m.content.clone())).collect()
}

#[test]
fn empty_transcript_is_seeded() {
    let t = Transcript::new();
    let msgs = build_messages(&t, "hi");
    assert_eq!(
        pairs(&msgs),
        vec![
            ("system".to_string(), "You are a chatbot.".to_string()),
            ("user".to_string(), "hi".to_string()),
        ]
    );
}

#[test]
fn history_is_forwarded_in_order() {
    let t = Transcript {
        turns: vec![
            Turn { role: "user".to_string(), content: "a".to_string() },
            Turn { role: "assistant".to_string(), content: "b".to_string() },
        ],
    };
    let msgs = build_messages(&t, "c");
    assert_eq!(
        pairs(&msgs),
        vec![
            ("user".to_string(), "a".to_string()),
            ("assistant".to_string(), "b".to_string()),
            ("user".to_string(), "c".to_string()),
        ]
    );
}

#[test]
fn messages_from_chatlog_text() {
    let msgs = get_messages_from_chatlog(
        "[{\"role\":\"user\",\"content\":\"a\"},{\"role\":\"assistant\",\"content\":\"b\"}]",
        "c",
    )
    .unwrap();
    assert_eq!(msgs.len(), 3);
    assert_eq!(msgs[2].role, "user");
    assert_eq!(msgs[2].content, "c");
}

#[test]
fn messages_from_empty_chatlog_text() {
    let msgs = get_messages_from_chatlog("", "hi").unwrap();
    assert_eq!(
        pairs(&msgs),
        vec![
            ("system".to_string(), "You are a chatbot.".to_string()),
            ("user".to_string(), "hi".to_string()),
        ]
    );
}

#[test]
fn messages_from_malformed_chatlog_fail() {
    assert!(matches!(
        get_messages_from_chatlog("oops", "hi"),
        Err(StorageError::Malformed)
    ));
}

#[test]
fn request_body_is_exact() {
    let msgs = vec![
        Message { role: "system".to_string(), content: "You are a chatbot.".to_string() },
        Message { role: "user".to_string(), content: "hi \"there\"".to_string() },
    ];
    let body = request_body("deepseek-chat", true, &msgs);
    assert_eq!(
        body,
        "{\"model\":\"deepseek-chat\",\"stream\":true,\"messages\":[{\"role\":\"system\",\"content\":\"You are a chatbot.\"},{\"role\":\"user\",\"content\":\"hi \\\"there\\\"\"}]}"
    );
}

#[test]
fn request_body_parses_as_json() {
    let msgs = vec![Message { role: "user".to_string(), content: "a\nb".to_string() }];
    let body = request_body("m", true, &msgs);
    let v: serde_json::Value = serde_json::from_str(&body).unwrap();
    assert_eq!(v["model"], "m");
    assert_eq!(v["stream"], true);
    assert_eq!(v["messages"][0]["role"], "user");
    assert_eq!(v["messages"][0]["content"], "a\nb");
}

#[test]
fn config_requires_api_key() {
    assert!(matches!(
        Config::from_values(None, Some("m".to_string()), Some(5)),
        Err(ConfigError::MissingKey)
    ));
}

#[test]
fn config_defaults() {
    let c = Config::from_values(Some("SECRET-REDACTED".to_string()), None, None).unwrap();
    assert_eq!(c.model, "deepseek-chat");
    assert_eq!(c.timeout, 120);
    assert!(c.stream);
}

#[test]
fn config_overrides() {
    let c = Config::from_values(
        Some("SECRET-REDACTED".to_string()),
        Some("other-model".to_string()),
        Some(7),
    )
    .unwrap();
    assert_eq!(c.model, "other-model");
    assert_eq!(c.timeout, 7);
}

#[test]
fn exchange_happy_path() {
    let (p1, a1) = step_exchange(Phase::Idle, ExchangeEvent::Submit);
    assert_eq!((p1, a1), (Phase::Requesting, Action::SendRequest));
    let (p2, a2) = step_exchange(p1, ExchangeEvent::ResponseStarted);
    assert_eq!((p2, a2), (Phase::Streaming, Action::Decode));
    let (p3, a3) = step_exchange(p2, ExchangeEvent::StreamEnded);
    assert_eq!((p3, a3), (Phase::Completed, Action::Commit));
}

#[test]
fn failure_never_commits() {
    for phase in [Phase::Idle, Phase::Requesting, Phase::Streaming, Phase::Completed, Phase::Failed]
    {
        let (p, a) = step_exchange(phase, ExchangeEvent::Failure);
        assert_eq!(p, Phase::Failed);
        assert_eq!(a, Action::Report);
    }
}

#[test]
fn commit_only_after_streaming() {
    for phase in [Phase::Idle, Phase::Requesting, Phase::Completed, Phase::Failed] {
        for ev in [
            ExchangeEvent::Submit,
            ExchangeEvent::ResponseStarted,
            ExchangeEvent::StreamEnded,
            ExchangeEvent::Failure,
        ] {
            let (_, a) = step_exchange(phase, ev);
            assert_ne!(a, Action::Commit);
        }
    }
}
