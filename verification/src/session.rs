//! Turn orchestration: the request configuration, the outgoing message list,
//! the wire form of a request body, and the state machine of one exchange.
//!
//! The surrounding program reads the environment, performs the network
//! exchange and the storage writes; this module decides what is sent, in what
//! order, and when a completed answer may be committed.
use vstd::prelude::*;

use crate::json_text::{esc_string, chars_to_string, push_escaped};
use crate::transcript::{
    Transcript, TurnView, StorageError, load_spec, ser_turn, ser_turns, ser_transcript,
    lemma_ser_turns_snoc, push_obj,
};

verus! {

/// The error configuration can raise: the required credential is absent.
#[derive(Debug)]
pub enum ConfigError {
    MissingKey,
}

/// What one exchange needs to know: the credential, the model, the request
/// timeout in seconds, and whether the answer is streamed.
pub struct Config {
    pub api_key: String,
    pub model: String,
    pub timeout: u64,
    pub stream: bool,
}

impl Config {
    /// The configuration from the environment's values: the key is required
    /// and its absence is fatal before any session work; the model and the
    /// timeout fall back to their defaults; answers are always streamed.
    pub fn from_values(api_key: Option<String>, model: Option<String>, timeout: Option<u64>) -> (r:
        Result<Config, ConfigError>)
        ensures
            match r {
                Ok(c) => api_key is Some && c.api_key@ == api_key.unwrap()@ && c.model@ == (
                    if model is Some {
                        model.unwrap()@
                    } else {
                        "deepseek-chat"@
                    }
                ) && c.timeout == (
                    if timeout is Some {
                        timeout.unwrap()
                    } else {
                        120u64
                    }
                ) && c.stream == true,
                Err(_) => api_key is None,
            },
    {
        let key = match api_key {
            Some(k) => k,
            None => {
                return Err(ConfigError::MissingKey);
            },
        };
        let model_name = match model {
            Some(m) => m,
            None => String::from_str("deepseek-chat"),
        };
        let secs = match timeout {
            Some(t) => t,
            None => 120,
        };
        Ok(Config { api_key: key, model: model_name, timeout: secs, stream: true })
    }
}

/// The wire projection of a turn.  It carries the same two texts as a stored
/// turn, but belongs to the outbound request, not to storage.
pub struct Message {
    pub role: String,
    pub content: String,
}

impl View for Message {
    type V = TurnView;

    open spec fn view(&self) -> TurnView {
        TurnView { role: self.role@, content: self.content@ }
    }
}

/// The outgoing message list: a fresh conversation is seeded with the default
/// system message; a stored history is forwarded whole, in order.  The new
/// prompt is always the last message.
pub open spec fn messages_spec(history: Seq<TurnView>, prompt: Seq<char>) -> Seq<TurnView> {
    if history.len() == 0 {
        seq![
            TurnView { role: "system"@, content: "You are a chatbot."@ },
            TurnView { role: "user"@, content: prompt },
        ]
    } else {
        history.push(TurnView { role: "user"@, content: prompt })
    }
}

/// Builds the outgoing message list for one exchange.
pub fn build_messages(history: &Transcript, prompt: &str) -> (r: Vec<Message>)
    ensures
        r@.map_values(|m: Message| m@) == messages_spec(history@, prompt@),
{
    let mut msgs: Vec<Message> = Vec::new();
    let n = history.len();
    if n == 0 {
        msgs.push(
            Message {
                role: String::from_str("system"),
                content: String::from_str("You are a chatbot."),
            },
        );
        msgs.push(Message { role: String::from_str("user"), content: String::from_str(prompt) });
        proof {
            assert(msgs@.map_values(|m: Message| m@) =~= messages_spec(history@, prompt@));
        }
        return msgs;
    }
    let mut k: usize = 0;
    while k < n
        invariant
            n == history@.len(),
            n == history.turns@.len(),
            k <= n,
            msgs@.map_values(|m: Message| m@) == history@.take(k as int),
        decreases n - k,
    {
        let ghost m0 = msgs@.map_values(|m: Message| m@);
        msgs.push(
            Message {
                role: String::from_str(history.turns[k].role.as_str()),
                content: String::from_str(history.turns[k].content.as_str()),
            },
        );
        proof {
            assert(history@[k as int] == history.turns@[k as int]@);
            assert(msgs@.map_values(|m: Message| m@) =~= m0.push(history@[k as int]));
            assert(history@.take(k + 1) =~= history@.take(k as int).push(history@[k as int]));
        }
        k = k + 1;
    }
    let ghost m1 = msgs@.map_values(|m: Message| m@);
    msgs.push(Message { role: String::from_str("user"), content: String::from_str(prompt) });
    proof {
        assert(history@.take(n as int) =~= history@);
        assert(msgs@.map_values(|m: Message| m@) =~= m1.push(
            TurnView { role: "user"@, content: prompt@ },
        ));
        assert(msgs@.map_values(|m: Message| m@) =~= messages_spec(history@, prompt@));
    }
    msgs
}

/// The outgoing messages for stored chatlog text and a new prompt: the
/// stored turns in order, or the seeded opening for an empty history, with
/// the prompt always last.  Fails exactly where the stored text is malformed.
pub fn get_messages_from_chatlog(chatlog_text: &str, prompt: &str) -> (r: Result<
    Vec<Message>,
    StorageError,
>)
    ensures
        match r {
            Ok(v) => load_spec(chatlog_text@) is Some && v@.map_values(|m: Message| m@)
                == messages_spec(load_spec(chatlog_text@).unwrap(), prompt@),
            Err(_) => load_spec(chatlog_text@) is None,
        },
{
    let t = match Transcript::load(chatlog_text) {
        Ok(t) => t,
        Err(e) => {
            return Err(e);
        },
    };
    Ok(build_messages(&t, prompt))
}

/// How a boolean is written in the request body.
pub open spec fn ser_bool(b: bool) -> Seq<char> {
    if b {
        "true"@
    } else {
        "false"@
    }
}

/// The request body sent to the chat-completions endpoint: the model, the
/// streaming flag, and the message list, in this order.
pub open spec fn ser_request(model: Seq<char>, stream: bool, msgs: Seq<TurnView>) -> Seq<char> {
    "{\"model\":\""@ + esc_string(model) + "\""@ + ",\"stream\":"@ + ser_bool(stream)
        + ",\"messages\":"@ + ser_transcript(msgs) + "}"@
}

/// Builds the request body for one exchange.
#[verifier::rlimit(60)]
pub fn request_body(model: &str, stream: bool, msgs: &Vec<Message>) -> (r: String)
    ensures
        r@ == ser_request(model@, stream, msgs@.map_values(|m: Message| m@)),
{
    let ghost mv = msgs@.map_values(|m: Message| m@);
    let mut out: Vec<char> = Vec::new();
    let ghost p0 = out@;
    out.push('{');
    out.push('"');
    out.push('m');
    out.push('o');
    out.push('d');
    out.push('e');
    out.push('l');
    out.push('"');
    out.push(':');
    out.push('"');
    proof {
        reveal_strlit("{\"model\":\"");
        assert(out@ =~= p0 + "{\"model\":\""@);
    }
    let ghost p1 = out@;
    push_escaped(&mut out, model);
    out.push('"');
    out.push(',');
    out.push('"');
    out.push('s');
    out.push('t');
    out.push('r');
    out.push('e');
    out.push('a');
    out.push('m');
    out.push('"');
    out.push(':');
    proof {
        reveal_strlit("\"");
        reveal_strlit(",\"stream\":");
        assert(out@ =~= p1 + esc_string(model@) + "\""@ + ",\"stream\":"@);
    }
    let ghost p2 = out@;
    if stream {
        out.push('t');
        out.push('r');
        out.push('u');
        out.push('e');
        proof {
            reveal_strlit("true");
            assert(out@ =~= p2 + "true"@);
        }
    } else {
        out.push('f');
        out.push('a');
        out.push('l');
        out.push('s');
        out.push('e');
        proof {
            reveal_strlit("false");
            assert(out@ =~= p2 + "false"@);
        }
    }
    let ghost p3 = out@;
    out.push(',');
    out.push('"');
    out.push('m');
    out.push('e');
    out.push('s');
    out.push('s');
    out.push('a');
    out.push('g');
    out.push('e');
    out.push('s');
    out.push('"');
    out.push(':');
    out.push('[');
    proof {
        reveal_strlit(",\"messages\":");
        assert(out@ =~= p3 + ",\"messages\":"@ + seq!['[']);
    }
    let ghost p4 = out@;
    let n = msgs.len();
    let mut k: usize = 0;
    while k < n
        invariant
            n == msgs@.len(),
            n == mv.len(),
            k <= n,
            mv == msgs@.map_values(|m: Message| m@),
            out@ == p4 + ser_turns(mv.take(k as int)),
        decreases n - k,
    {
        let ghost before = out@;
        if k > 0 {
            out.push(',');
        }
        push_obj(&mut out, msgs[k].role.as_str(), msgs[k].content.as_str());
        proof {
            assert(mv[k as int] == msgs@[k as int]@);
            assert(ser_turn(TurnView {
                role: msgs@[k as int]@.role,
                content: msgs@[k as int]@.content,
            }) == ser_turn(mv[k as int]));
            assert(mv.take(k + 1) =~= mv.take(k as int).push(mv[k as int]));
            lemma_ser_turns_snoc(mv.take(k as int), mv[k as int]);
            if k > 0 {
                assert(out@ =~= before + seq![','] + ser_turn(mv[k as int]));
                assert(out@ =~= p4 + ser_turns(mv.take(k + 1)));
            } else {
                assert(mv.take(0int) =~= Seq::<TurnView>::empty());
                assert(out@ =~= p4 + ser_turns(mv.take(k + 1)));
            }
        }
        k = k + 1;
    }
    out.push(']');
    out.push('}');
    proof {
        reveal_strlit("}");
        assert(mv.take(n as int) =~= mv);
        assert(out@ =~= p4 + ser_turns(mv) + seq![']'] + "}"@);
        assert(out@ =~= ser_request(model@, stream, mv));
    }
    chars_to_string(&out)
}

/// The phases of one exchange, in the order they are reached.
#[derive(PartialEq, Eq, Structural, Clone, Copy, Debug)]
pub enum Phase {
    Idle,
    Requesting,
    Streaming,
    Completed,
    Failed,
}

/// What the surrounding loop reports to the orchestrator.
#[derive(PartialEq, Eq, Structural, Clone, Copy, Debug)]
pub enum ExchangeEvent {
    /// A prompt was submitted.
    Submit,
    /// The transport produced a response stream.
    ResponseStarted,
    /// The response stream ended, normally or at the sentinel.
    StreamEnded,
    /// Transport, decoding or storage failed.
    Failure,
}

/// What the surrounding loop must do after a transition.
#[derive(PartialEq, Eq, Structural, Clone, Copy, Debug)]
pub enum Action {
    /// Issue the one network exchange.
    SendRequest,
    /// Feed the response stream to the decoder.
    Decode,
    /// Commit the user prompt and the decoded answer to storage, together.
    Commit,
    /// Report the failure; storage is left untouched.
    Report,
    /// Nothing: the event does not belong to this phase.
    Wait,
}

/// One transition of the exchange state machine
/// `Idle -> Requesting -> Streaming -> {Completed | Failed}`.
pub open spec fn step_spec(phase: Phase, ev: ExchangeEvent) -> (Phase, Action) {
    match (phase, ev) {
        (Phase::Idle, ExchangeEvent::Submit) => (Phase::Requesting, Action::SendRequest),
        (Phase::Requesting, ExchangeEvent::ResponseStarted) => (Phase::Streaming, Action::Decode),
        (Phase::Streaming, ExchangeEvent::StreamEnded) => (Phase::Completed, Action::Commit),
        (_, ExchangeEvent::Failure) => (Phase::Failed, Action::Report),
        (p, _) => (p, Action::Wait),
    }
}

/// Performs one transition of the exchange state machine.
pub fn step_exchange(phase: Phase, ev: ExchangeEvent) -> (r: (Phase, Action))
    ensures
        r == step_spec(phase, ev),
{
    match (phase, ev) {
        (Phase::Idle, ExchangeEvent::Submit) => (Phase::Requesting, Action::SendRequest),
        (Phase::Requesting, ExchangeEvent::ResponseStarted) => (Phase::Streaming, Action::Decode),
        (Phase::Streaming, ExchangeEvent::StreamEnded) => (Phase::Completed, Action::Commit),
        (_, ExchangeEvent::Failure) => (Phase::Failed, Action::Report),
        (p, _) => (p, Action::Wait),
    }
}

/// A failed exchange commits nothing: a failure, wherever it strikes, leads
/// to `Failed` and never to the commit action, so the stored transcript is
/// exactly what it was before the attempt and retrying the same prompt is
/// safe.  Conversely, the only way to a commit is a stream that ended while
/// streaming.
pub proof fn lemma_failure_never_commits(phase: Phase, ev: ExchangeEvent)
    ensures
        ev == ExchangeEvent::Failure ==> step_spec(phase, ev).0 == Phase::Failed && step_spec(
            phase,
            ev,
        ).1 != Action::Commit,
        step_spec(phase, ev).1 == Action::Commit ==> phase == Phase::Streaming && ev
            == ExchangeEvent::StreamEnded && step_spec(phase, ev).0 == Phase::Completed,
{
}

} // verus!
