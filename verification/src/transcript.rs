//! The session transcript: an ordered sequence of role-tagged turns, persisted
//! as a flat JSON array of `{"role": ..., "content": ...}` objects.
//!
//! The serializer writes one canonical document; the parser accepts any JSON
//! array of objects that each hold exactly a `role` and a `content` string
//! member, in either order, with whitespace allowed between tokens and the
//! standard string escapes, and the proof shows that loading inverts
//! serialization for every transcript.  Reading and writing the storage
//! location itself is the caller's business; the functions here map document
//! text to transcripts and back.
use vstd::prelude::*;

use crate::json_text::{
    esc_char, esc_string, parse_string_body, lemma_esc_roundtrip, push_escaped,
    parse_string_exec, chars_to_string, string_to_chars,
};

verus! {

/// One role-tagged message of a conversation.
pub struct Turn {
    pub role: String,
    pub content: String,
}

/// The mathematical value of a [`Turn`]: its two texts.
pub struct TurnView {
    pub role: Seq<char>,
    pub content: Seq<char>,
}

impl View for Turn {
    type V = TurnView;

    open spec fn view(&self) -> TurnView {
        TurnView { role: self.role@, content: self.content@ }
    }
}

/// The ordered history of turns of one session.
pub struct Transcript {
    pub turns: Vec<Turn>,
}

impl View for Transcript {
    type V = Seq<TurnView>;

    open spec fn view(&self) -> Seq<TurnView> {
        self.turns@.map_values(|t: Turn| t@)
    }
}

/// The error a transcript document can raise: its text does not carry
/// a well-formed transcript.
#[derive(Debug)]
pub enum StorageError {
    Malformed,
}

/// How one turn is written in the transcript document.
pub open spec fn ser_turn(t: TurnView) -> Seq<char> {
    "{\"role\":\""@ + esc_string(t.role) + "\""@ + ",\"content\":\""@ + esc_string(t.content)
        + "\""@ + "}"@
}

/// How the turns are written, comma-separated, between the brackets.
pub open spec fn ser_turns(ts: Seq<TurnView>) -> Seq<char>
    decreases ts.len(),
{
    if ts.len() == 0 {
        Seq::empty()
    } else if ts.len() == 1 {
        ser_turn(ts[0])
    } else {
        ser_turn(ts[0]) + seq![','] + ser_turns(ts.skip(1))
    }
}

/// The whole transcript document for a sequence of turns.
pub open spec fn ser_transcript(ts: Seq<TurnView>) -> Seq<char> {
    seq!['['] + ser_turns(ts) + seq![']']
}

/// A JSON whitespace character.
pub open spec fn ws_char(c: char) -> bool {
    c == '\u{20}' || c == '\u{9}' || c == '\u{a}' || c == '\u{d}'
}

/// `s` without its leading whitespace.
pub open spec fn skip_ws(s: Seq<char>) -> Seq<char>
    decreases s.len(),
{
    if s.len() > 0 && ws_char(s[0]) {
        skip_ws(s.skip(1))
    } else {
        s
    }
}

/// Reads one `"key": "value"` member starting at the key's opening quote:
/// the decoded key and value and what follows the value, or `None`.
pub open spec fn parse_member(s: Seq<char>) -> Option<((Seq<char>, Seq<char>), Seq<char>)> {
    if s.len() >= 1 && s[0] == '"' {
        match parse_string_body(s.skip(1)) {
            None => None,
            Some((key, r1)) => {
                let r2 = skip_ws(r1);
                if r2.len() >= 1 && r2[0] == ':' {
                    let r3 = skip_ws(r2.skip(1));
                    if r3.len() >= 1 && r3[0] == '"' {
                        match parse_string_body(r3.skip(1)) {
                            None => None,
                            Some((val, r4)) => Some(((key, val), r4)),
                        }
                    } else {
                        None
                    }
                } else {
                    None
                }
            },
        }
    } else {
        None
    }
}

/// The turn that two members denote: one must be `role` and the other
/// `content`, in either order.
pub open spec fn turn_of_members(
    k1: Seq<char>,
    v1: Seq<char>,
    k2: Seq<char>,
    v2: Seq<char>,
) -> Option<TurnView> {
    if k1 == "role"@ && k2 == "content"@ {
        Some(TurnView { role: v1, content: v2 })
    } else if k1 == "content"@ && k2 == "role"@ {
        Some(TurnView { role: v2, content: v1 })
    } else {
        None
    }
}

/// Reads one turn object starting at its opening brace: exactly a `role`
/// member and a `content` member, in either order, with whitespace allowed
/// between tokens.
pub open spec fn parse_turn(s: Seq<char>) -> Option<(TurnView, Seq<char>)> {
    if s.len() >= 1 && s[0] == '{' {
        match parse_member(skip_ws(s.skip(1))) {
            None => None,
            Some(((k1, v1), r1)) => {
                let r2 = skip_ws(r1);
                if r2.len() >= 1 && r2[0] == ',' {
                    match parse_member(skip_ws(r2.skip(1))) {
                        None => None,
                        Some(((k2, v2), r3)) => {
                            let r4 = skip_ws(r3);
                            if r4.len() >= 1 && r4[0] == '}' {
                                match turn_of_members(k1, v1, k2, v2) {
                                    None => None,
                                    Some(t) => Some((t, r4.skip(1))),
                                }
                            } else {
                                None
                            }
                        },
                    }
                } else {
                    None
                }
            },
        }
    } else {
        None
    }
}

/// Reads the comma-separated turns of the array, starting at the first turn
/// (leading whitespace already skipped); the closing bracket may only be
/// followed by whitespace.
pub open spec fn parse_turns(s: Seq<char>) -> Option<Seq<TurnView>>
    decreases s.len(),
{
    match parse_turn(s) {
        None => None,
        Some((t, rest)) => {
            let r = skip_ws(rest);
            if r.len() >= 1 && r[0] == ']' {
                if skip_ws(r.skip(1)).len() == 0 {
                    Some(seq![t])
                } else {
                    None
                }
            } else if r.len() >= 1 && r[0] == ',' && skip_ws(r.skip(1)).len() < s.len() {
                match parse_turns(skip_ws(r.skip(1))) {
                    None => None,
                    Some(ts) => Some(seq![t] + ts),
                }
            } else {
                None
            }
        },
    }
}

/// Reads a whole transcript document: a JSON array of turn objects, with
/// whitespace allowed between tokens and around the document.
pub open spec fn parse_transcript(s: Seq<char>) -> Option<Seq<TurnView>> {
    let t = skip_ws(s);
    if t.len() >= 1 && t[0] == '[' {
        let u = skip_ws(t.skip(1));
        if u.len() >= 1 && u[0] == ']' {
            if skip_ws(u.skip(1)).len() == 0 {
                Some(Seq::empty())
            } else {
                None
            }
        } else {
            parse_turns(u)
        }
    } else {
        None
    }
}

/// What loading stored text yields: an absent (empty) document is an empty
/// transcript; anything else must be a well-formed document.
pub open spec fn load_spec(s: Seq<char>) -> Option<Seq<TurnView>> {
    if s.len() == 0 {
        Some(Seq::empty())
    } else {
        parse_transcript(s)
    }
}

/// Skipping whitespace does nothing where none leads.
proof fn lemma_skip_ws_id(s: Seq<char>)
    requires
        s.len() == 0 || !ws_char(s[0]),
    ensures
        skip_ws(s) == s,
{
}

/// A string of ordinary characters is its own escaped form.
proof fn lemma_esc_plain(k: Seq<char>)
    requires
        forall|i: int| 0 <= i < k.len() ==> k[i] != '"' && k[i] != '\\' && (k[i] as nat) >= 32,
    ensures
        esc_string(k) == k,
    decreases k.len(),
{
    if k.len() > 0 {
        assert(esc_char(k[0]) =~= seq![k[0]]);
        lemma_esc_plain(k.skip(1));
        assert(seq![k[0]] + k.skip(1) =~= k);
    }
}

/// Reading a string of ordinary characters followed by its closing quote
/// yields those characters and leaves the remainder.
proof fn lemma_parse_plain_key(k: Seq<char>, rest: Seq<char>)
    requires
        forall|i: int| 0 <= i < k.len() ==> k[i] != '"' && k[i] != '\\' && (k[i] as nat) >= 32,
    ensures
        parse_string_body(k + seq!['"'] + rest) == Some((k, rest)),
{
    lemma_esc_plain(k);
    lemma_esc_roundtrip(k, rest);
    assert(esc_string(k) + seq!['"'] + rest == k + seq!['"'] + rest);
}

/// The two member keys hold only ordinary characters.
proof fn lemma_keys_plain()
    ensures
        forall|i: int|
            0 <= i < "role"@.len() ==> #[trigger] "role"@[i] != '"' && "role"@[i] != '\\' && (
            "role"@[i] as nat) >= 32,
        forall|i: int|
            0 <= i < "content"@.len() ==> #[trigger] "content"@[i] != '"' && "content"@[i] != '\\'
                && ("content"@[i] as nat) >= 32,
{
    reveal_strlit("role");
    reveal_strlit("content");
}

/// A serialized turn starts with its opening brace.
proof fn lemma_ser_turn_head(x: TurnView)
    ensures
        ser_turn(x).len() >= 9,
        ser_turn(x)[0] == '{',
{
    reveal_strlit("{\"role\":\"");
}

/// A serialized turn list starts with the first turn's opening brace.
proof fn lemma_ser_turns_head(ts: Seq<TurnView>)
    requires
        ts.len() >= 1,
    ensures
        ser_turns(ts).len() >= 9,
        ser_turns(ts)[0] == '{',
{
    lemma_ser_turn_head(ts[0]);
}

/// Reading the serialized member `"key":"value"` yields the key and the
/// unescaped value, and leaves the remainder.
#[verifier::rlimit(100)]
proof fn lemma_member_roundtrip(k: Seq<char>, v: Seq<char>, rest: Seq<char>)
    requires
        forall|i: int| 0 <= i < k.len() ==> k[i] != '"' && k[i] != '\\' && (k[i] as nat) >= 32,
    ensures
        parse_member(
            seq!['"'] + k + seq!['"'] + seq![':'] + seq!['"'] + esc_string(v) + seq!['"'] + rest,
        ) == Some(((k, v), rest)),
{
    let input = seq!['"'] + k + seq!['"'] + seq![':'] + seq!['"'] + esc_string(v) + seq!['"']
        + rest;
    assert(input[0] == '"');
    let b1 = seq![':'] + seq!['"'] + esc_string(v) + seq!['"'] + rest;
    assert(input.skip(1) =~= k + seq!['"'] + b1);
    lemma_parse_plain_key(k, b1);
    assert(b1[0] == ':');
    lemma_skip_ws_id(b1);
    let b2 = seq!['"'] + esc_string(v) + seq!['"'] + rest;
    assert(b1.skip(1) =~= b2);
    lemma_skip_ws_id(b2);
    assert(b2[0] == '"');
    assert(b2.skip(1) =~= esc_string(v) + seq!['"'] + rest);
    lemma_esc_roundtrip(v, rest);
}

/// Reading one serialized turn yields that turn and leaves the remainder.
#[verifier::rlimit(100)]
proof fn lemma_turn_roundtrip(t: TurnView, rest: Seq<char>)
    ensures
        parse_turn(ser_turn(t) + rest) == Some((t, rest)),
{
    reveal_strlit("{\"role\":\"");
    reveal_strlit(",\"content\":\"");
    reveal_strlit("\"");
    reveal_strlit("}");
    reveal_strlit("role");
    reveal_strlit("content");
    lemma_keys_plain();
    let input = ser_turn(t) + rest;
    assert(input[0] == '{');
    let d1 = seq!['}'] + rest;
    let m2 = seq!['"'] + "content"@ + seq!['"'] + seq![':'] + seq!['"'] + esc_string(t.content)
        + seq!['"'] + d1;
    let c1 = seq![','] + m2;
    let m1 = seq!['"'] + "role"@ + seq!['"'] + seq![':'] + seq!['"'] + esc_string(t.role)
        + seq!['"'] + c1;
    assert(input.skip(1) =~= m1);
    assert(m1[0] == '"');
    lemma_skip_ws_id(m1);
    lemma_member_roundtrip("role"@, t.role, c1);
    assert(parse_member(m1) == Some((("role"@, t.role), c1)));
    assert(c1[0] == ',');
    lemma_skip_ws_id(c1);
    assert(c1.skip(1) =~= m2);
    assert(m2[0] == '"');
    lemma_skip_ws_id(m2);
    lemma_member_roundtrip("content"@, t.content, d1);
    assert(parse_member(m2) == Some((("content"@, t.content), d1)));
    assert(d1[0] == '}');
    lemma_skip_ws_id(d1);
    assert(d1.skip(1) =~= rest);
    assert(turn_of_members("role"@, t.role, "content"@, t.content) == Some(
        TurnView { role: t.role, content: t.content },
    ));
    assert(TurnView { role: t.role, content: t.content } == t);
}

/// Reading the serialized turn list followed by the closing bracket yields
/// exactly those turns.
proof fn lemma_turns_roundtrip(ts: Seq<TurnView>)
    requires
        ts.len() >= 1,
    ensures
        parse_turns(ser_turns(ts) + seq![']']) == Some(ts),
    decreases ts.len(),
{
    let input = ser_turns(ts) + seq![']'];
    if ts.len() == 1 {
        lemma_turn_roundtrip(ts[0], seq![']']);
        assert(parse_turn(input) == Some((ts[0], seq![']'])));
        lemma_skip_ws_id(seq![']']);
        assert(seq![']'].skip(1) =~= Seq::<char>::empty());
        assert(skip_ws(Seq::<char>::empty()).len() == 0);
        assert(seq![ts[0]] =~= ts);
    } else {
        let tail = seq![','] + ser_turns(ts.skip(1)) + seq![']'];
        assert(input =~= ser_turn(ts[0]) + tail);
        lemma_turn_roundtrip(ts[0], tail);
        assert(parse_turn(input) == Some((ts[0], tail)));
        assert(tail[0] == ',');
        lemma_skip_ws_id(tail);
        let nxt = ser_turns(ts.skip(1)) + seq![']'];
        assert(tail.skip(1) =~= nxt);
        lemma_ser_turns_head(ts.skip(1));
        assert(nxt[0] == '{');
        lemma_skip_ws_id(nxt);
        lemma_ser_turn_head(ts[0]);
        assert(nxt.len() < input.len());
        lemma_turns_roundtrip(ts.skip(1));
        assert(parse_turns(nxt) == Some(ts.skip(1)));
        assert(seq![ts[0]] + ts.skip(1) =~= ts);
    }
}

/// Round trip: every transcript's document loads back to the same turns,
/// in the same order.
pub proof fn lemma_load_roundtrip(ts: Seq<TurnView>)
    ensures
        load_spec(ser_transcript(ts)) == Some(ts),
{
    let doc = ser_transcript(ts);
    assert(doc[0] == '[');
    assert(doc.len() >= 2);
    lemma_skip_ws_id(doc);
    if ts.len() == 0 {
        assert(doc.skip(1) =~= seq![']']);
        lemma_skip_ws_id(seq![']']);
        assert(seq![']'].skip(1) =~= Seq::<char>::empty());
        assert(skip_ws(Seq::<char>::empty()).len() == 0);
    } else {
        let u = ser_turns(ts) + seq![']'];
        assert(doc.skip(1) =~= u);
        lemma_ser_turns_head(ts);
        assert(u[0] == '{');
        lemma_skip_ws_id(u);
        assert(u[0] != ']');
        lemma_turns_roundtrip(ts);
    }
}

/// Writing one more turn at the end of the list inserts a comma first,
/// unless the list was empty.
pub(crate) proof fn lemma_ser_turns_snoc(ts: Seq<TurnView>, t: TurnView)
    ensures
        ser_turns(ts.push(t)) == if ts.len() == 0 {
            ser_turn(t)
        } else {
            ser_turns(ts) + seq![','] + ser_turn(t)
        },
    decreases ts.len(),
{
    let p = ts.push(t);
    if ts.len() == 0 {
        assert(p =~= seq![t]);
        assert(ser_turns(seq![t]) == ser_turn(t));
    } else if ts.len() == 1 {
        assert(p.len() == 2);
        assert(p[0] == ts[0]);
        assert(p.skip(1) =~= seq![t]);
        assert(ser_turns(seq![t]) == ser_turn(t));
        assert(ser_turns(p) == ser_turn(ts[0]) + seq![','] + ser_turn(t));
    } else {
        assert(p[0] == ts[0]);
        assert(p.skip(1) =~= ts.skip(1).push(t));
        lemma_ser_turns_snoc(ts.skip(1), t);
        assert(ser_turn(ts[0]) + seq![','] + (ser_turns(ts.skip(1)) + seq![','] + ser_turn(t))
            =~= (ser_turn(ts[0]) + seq![','] + ser_turns(ts.skip(1))) + seq![','] + ser_turn(t));
    }
}

/// Appends the document form of a `{"role": ..., "content": ...}` object
/// to `out`.
pub(crate) fn push_obj(out: &mut Vec<char>, role: &str, content: &str)
    ensures
        final(out)@ == old(out)@ + ser_turn(TurnView { role: role@, content: content@ }),
{
    let ghost tv = TurnView { role: role@, content: content@ };
    let ghost p0 = out@;
    out.push('{');
    out.push('"');
    out.push('r');
    out.push('o');
    out.push('l');
    out.push('e');
    out.push('"');
    out.push(':');
    out.push('"');
    proof {
        reveal_strlit("{\"role\":\"");
        assert(out@ =~= p0 + "{\"role\":\""@);
    }
    let ghost p1 = out@;
    push_escaped(out, role);
    out.push('"');
    proof {
        reveal_strlit("\"");
        assert(out@ =~= p1 + esc_string(tv.role) + "\""@);
    }
    let ghost p2 = out@;
    out.push(',');
    out.push('"');
    out.push('c');
    out.push('o');
    out.push('n');
    out.push('t');
    out.push('e');
    out.push('n');
    out.push('t');
    out.push('"');
    out.push(':');
    out.push('"');
    proof {
        reveal_strlit(",\"content\":\"");
        assert(out@ =~= p2 + ",\"content\":\""@);
    }
    let ghost p3 = out@;
    push_escaped(out, content);
    out.push('"');
    out.push('}');
    proof {
        reveal_strlit("\"");
        reveal_strlit("}");
        assert(out@ =~= p3 + esc_string(tv.content) + "\""@ + "}"@);
        assert(out@ =~= p0 + ser_turn(tv));
    }
}

impl Transcript {
    /// A transcript with no turns yet.
    pub fn new() -> (t: Transcript)
        ensures
            t@ == Seq::<TurnView>::empty(),
    {
        let t = Transcript { turns: Vec::new() };
        proof {
            assert(t@ =~= Seq::<TurnView>::empty());
        }
        t
    }

    /// The number of stored turns.
    pub fn len(&self) -> (n: usize)
        ensures
            n == self@.len(),
    {
        self.turns.len()
    }

    /// Appends a completed exchange: the user turn, then the assistant turn.
    pub fn append(&mut self, user: Turn, assistant: Turn)
        ensures
            final(self)@ == old(self)@.push(user@).push(assistant@),
    {
        let ghost m0 = self@;
        let ghost u = user@;
        let ghost a = assistant@;
        self.turns.push(user);
        proof {
            assert(self@ =~= m0.push(u));
        }
        let ghost m1 = self@;
        self.turns.push(assistant);
        proof {
            assert(self@ =~= m1.push(a));
        }
    }

    /// The transcript document: exactly `ser_transcript` of the stored turns.
    pub fn serialize(&self) -> (r: String)
        ensures
            r@ == ser_transcript(self@),
    {
        let mut out: Vec<char> = Vec::new();
        out.push('[');
        let n = self.turns.len();
        let mut k: usize = 0;
        while k < n
            invariant
                n == self.turns@.len(),
                n == self@.len(),
                k <= n,
                out@ == seq!['['] + ser_turns(self@.take(k as int)),
            decreases n - k,
        {
            let ghost before = out@;
            if k > 0 {
                out.push(',');
            }
            push_obj(&mut out, self.turns[k].role.as_str(), self.turns[k].content.as_str());
            proof {
                assert(self@[k as int] == self.turns@[k as int]@);
                assert(ser_turn(TurnView {
                    role: self.turns@[k as int]@.role,
                    content: self.turns@[k as int]@.content,
                }) == ser_turn(self@[k as int]));
                assert(self@.take(k + 1) =~= self@.take(k as int).push(self@[k as int]));
                lemma_ser_turns_snoc(self@.take(k as int), self@[k as int]);
                if k > 0 {
                    assert(out@ =~= before + seq![','] + ser_turn(self@[k as int]));
                    assert(out@ =~= seq!['['] + ser_turns(self@.take(k + 1)));
                } else {
                    assert(self@.take(0int) =~= Seq::<TurnView>::empty());
                    assert(out@ =~= seq!['['] + ser_turns(self@.take(k + 1)));
                }
            }
            k = k + 1;
        }
        out.push(']');
        proof {
            assert(self@.take(n as int) =~= self@);
            assert(out@ =~= ser_transcript(self@));
        }
        chars_to_string(&out)
    }

    /// Reads stored transcript text: empty text is an empty transcript, and
    /// any other text must be a JSON array of turn objects.
    pub fn load(text: &str) -> (r: Result<Transcript, StorageError>)
        ensures
            match r {
                Ok(t) => load_spec(text@) == Some(t@),
                Err(_) => load_spec(text@) is None,
            },
    {
        let n = text.unicode_len();
        if n == 0 {
            return Ok(Transcript::new());
        }
        let chars = string_to_chars(text);
        let j0 = skip_ws_exec(&chars, 0);
        proof {
            assert(chars@.skip(0) =~= chars@);
        }
        if j0 >= chars.len() {
            assert(chars@.skip(j0 as int).len() == 0);
            return Err(StorageError::Malformed);
        }
        let c0 = chars[j0];
        assert(chars@.skip(j0 as int)[0] == c0);
        if c0 != '[' {
            return Err(StorageError::Malformed);
        }
        let j1 = skip_ws_exec(&chars, j0 + 1);
        proof {
            assert(chars@.skip(j0 as int).skip(1) =~= chars@.skip(j0 + 1));
        }
        if j1 >= chars.len() {
            proof {
                assert(chars@.skip(j1 as int).len() == 0);
                assert(parse_turns(chars@.skip(j1 as int)) is None);
            }
            return Err(StorageError::Malformed);
        }
        let c1 = chars[j1];
        assert(chars@.skip(j1 as int)[0] == c1);
        if c1 == ']' {
            let j2 = skip_ws_exec(&chars, j1 + 1);
            proof {
                assert(chars@.skip(j1 as int).skip(1) =~= chars@.skip(j1 + 1));
            }
            if j2 == chars.len() {
                proof {
                    assert(chars@.skip(j2 as int).len() == 0);
                }
                let t = Transcript::new();
                proof {
                    assert(parse_transcript(text@) == Some(t@));
                }
                return Ok(t);
            } else {
                assert(chars@.skip(j2 as int).len() != 0);
                return Err(StorageError::Malformed);
            }
        }
        match parse_turns_exec(&chars, j1) {
            Some(v) => {
                let t = Transcript { turns: v };
                Ok(t)
            },
            None => Err(StorageError::Malformed),
        }
    }
}

/// The index of the first non-whitespace character at or after `i`.
fn skip_ws_exec(s: &Vec<char>, i: usize) -> (j: usize)
    requires
        i <= s@.len(),
    ensures
        i <= j <= s@.len(),
        s@.skip(j as int) == skip_ws(s@.skip(i as int)),
{
    let mut j: usize = i;
    loop
        invariant
            i <= j <= s@.len(),
            skip_ws(s@.skip(i as int)) == skip_ws(s@.skip(j as int)),
        decreases s@.len() - j,
    {
        if j >= s.len() {
            assert(s@.skip(j as int).len() == 0);
            return j;
        }
        let c = s[j];
        assert(s@.skip(j as int)[0] == c);
        if c == '\u{20}' || c == '\u{9}' || c == '\u{a}' || c == '\u{d}' {
            proof {
                assert(s@.skip(j as int).skip(1) =~= s@.skip(j + 1));
            }
            j = j + 1;
        } else {
            return j;
        }
    }
}

/// Whether the characters spell the key `role`.
fn is_role_key(v: &Vec<char>) -> (b: bool)
    ensures
        b == (v@ == "role"@),
{
    proof {
        reveal_strlit("role");
    }
    if v.len() != 4 {
        return false;
    }
    let b = v[0] == 'r' && v[1] == 'o' && v[2] == 'l' && v[3] == 'e';
    proof {
        if b {
            assert(v@ =~= "role"@);
        }
    }
    b
}

/// Whether the characters spell the key `content`.
fn is_content_key(v: &Vec<char>) -> (b: bool)
    ensures
        b == (v@ == "content"@),
{
    proof {
        reveal_strlit("content");
    }
    if v.len() != 7 {
        return false;
    }
    let b = v[0] == 'c' && v[1] == 'o' && v[2] == 'n' && v[3] == 't' && v[4] == 'e' && v[5] == 'n'
        && v[6] == 't';
    proof {
        if b {
            assert(v@ =~= "content"@);
        }
    }
    b
}

/// Reads one `"key": "value"` member starting at `i` (the key's opening
/// quote): the key, the value, and the index just past the value.
fn parse_member_exec(s: &Vec<char>, i: usize) -> (r: Option<(Vec<char>, Vec<char>, usize)>)
    requires
        i <= s@.len(),
    ensures
        match r {
            Some(p) => i <= p.2 <= s@.len() && parse_member(s@.skip(i as int)) == Some(
                ((p.0@, p.1@), s@.skip(p.2 as int)),
            ),
            None => parse_member(s@.skip(i as int)) is None,
        },
{
    let ghost suf = s@.skip(i as int);
    if i >= s.len() {
        assert(suf.len() == 0);
        return None;
    }
    if s[i] != '"' {
        assert(suf[0] != '"');
        return None;
    }
    assert(suf[0] == '"');
    proof {
        assert(suf.skip(1) =~= s@.skip(i + 1));
    }
    let key = match parse_string_exec(s, i + 1) {
        None => {
            return None;
        },
        Some(p) => p,
    };
    let j2 = skip_ws_exec(s, key.1);
    if j2 >= s.len() {
        assert(s@.skip(j2 as int).len() == 0);
        return None;
    }
    if s[j2] != ':' {
        assert(s@.skip(j2 as int)[0] != ':');
        return None;
    }
    assert(s@.skip(j2 as int)[0] == ':');
    let j3 = skip_ws_exec(s, j2 + 1);
    proof {
        assert(s@.skip(j2 as int).skip(1) =~= s@.skip(j2 + 1));
    }
    if j3 >= s.len() {
        assert(s@.skip(j3 as int).len() == 0);
        return None;
    }
    if s[j3] != '"' {
        assert(s@.skip(j3 as int)[0] != '"');
        return None;
    }
    assert(s@.skip(j3 as int)[0] == '"');
    proof {
        assert(s@.skip(j3 as int).skip(1) =~= s@.skip(j3 + 1));
    }
    let val = match parse_string_exec(s, j3 + 1) {
        None => {
            return None;
        },
        Some(p) => p,
    };
    Some((key.0, val.0, val.1))
}

/// Reads one turn object starting at `i` (its opening brace): the turn and
/// the index just past its closing brace.
#[verifier::rlimit(100)]
fn parse_turn_exec(s: &Vec<char>, i: usize) -> (r: Option<(Turn, usize)>)
    requires
        i <= s@.len(),
    ensures
        match r {
            Some(p) => i <= p.1 <= s@.len() && parse_turn(s@.skip(i as int)) == Some(
                (p.0@, s@.skip(p.1 as int)),
            ),
            None => parse_turn(s@.skip(i as int)) is None,
        },
{
    let ghost suf = s@.skip(i as int);
    if i >= s.len() {
        assert(suf.len() == 0);
        return None;
    }
    if s[i] != '{' {
        assert(suf[0] != '{');
        return None;
    }
    assert(suf[0] == '{');
    let j1 = skip_ws_exec(s, i + 1);
    proof {
        assert(suf.skip(1) =~= s@.skip(i + 1));
    }
    let m1 = match parse_member_exec(s, j1) {
        None => {
            return None;
        },
        Some(m) => m,
    };
    let j2 = skip_ws_exec(s, m1.2);
    if j2 >= s.len() {
        assert(s@.skip(j2 as int).len() == 0);
        return None;
    }
    if s[j2] != ',' {
        assert(s@.skip(j2 as int)[0] != ',');
        return None;
    }
    assert(s@.skip(j2 as int)[0] == ',');
    let j3 = skip_ws_exec(s, j2 + 1);
    proof {
        assert(s@.skip(j2 as int).skip(1) =~= s@.skip(j2 + 1));
    }
    let m2 = match parse_member_exec(s, j3) {
        None => {
            return None;
        },
        Some(m) => m,
    };
    let j4 = skip_ws_exec(s, m2.2);
    if j4 >= s.len() {
        assert(s@.skip(j4 as int).len() == 0);
        return None;
    }
    if s[j4] != '}' {
        assert(s@.skip(j4 as int)[0] != '}');
        return None;
    }
    assert(s@.skip(j4 as int)[0] == '}');
    proof {
        assert(s@.skip(j4 as int).skip(1) =~= s@.skip(j4 + 1));
    }
    let k1_role = is_role_key(&m1.0);
    let k2_content = is_content_key(&m2.0);
    if k1_role && k2_content {
        let t = Turn { role: chars_to_string(&m1.1), content: chars_to_string(&m2.1) };
        assert(t@ == TurnView { role: m1.1@, content: m2.1@ });
        return Some((t, j4 + 1));
    }
    let k1_content = is_content_key(&m1.0);
    let k2_role = is_role_key(&m2.0);
    if k1_content && k2_role {
        let t = Turn { role: chars_to_string(&m2.1), content: chars_to_string(&m1.1) };
        assert(t@ == TurnView { role: m2.1@, content: m1.1@ });
        return Some((t, j4 + 1));
    }
    assert(turn_of_members(m1.0@, m1.1@, m2.0@, m2.1@) is None);
    None
}

/// Reads the comma-separated turns starting at `i` (the first turn's opening
/// brace), which must end with the closing bracket followed by nothing but
/// whitespace.
fn parse_turns_exec(s: &Vec<char>, i: usize) -> (r: Option<Vec<Turn>>)
    requires
        i <= s@.len(),
    ensures
        match r {
            Some(v) => parse_turns(s@.skip(i as int)) == Some(v@.map_values(|t: Turn| t@)),
            None => parse_turns(s@.skip(i as int)) is None,
        },
{
    let mut acc: Vec<Turn> = Vec::new();
    let mut j: usize = i;
    loop
        invariant
            i <= j <= s@.len(),
            (match parse_turns(s@.skip(j as int)) {
                None => parse_turns(s@.skip(i as int)) is None,
                Some(ts) => parse_turns(s@.skip(i as int)) == Some(
                    acc@.map_values(|t: Turn| t@) + ts,
                ),
            }),
        decreases s@.len() - j,
    {
        let ghost suf = s@.skip(j as int);
        match parse_turn_exec(s, j) {
            None => {
                assert(parse_turns(suf) is None);
                return None;
            },
            Some((t, j2)) => {
                let ghost tv = t@;
                let ghost m0 = acc@.map_values(|x: Turn| x@);
                acc.push(t);
                proof {
                    assert(acc@.map_values(|x: Turn| x@) =~= m0.push(tv));
                }
                let j3 = skip_ws_exec(s, j2);
                if j3 >= s.len() {
                    assert(s@.skip(j3 as int).len() == 0);
                    assert(parse_turns(suf) is None);
                    return None;
                }
                let c = s[j3];
                assert(s@.skip(j3 as int)[0] == c);
                if c == ']' {
                    let j4 = skip_ws_exec(s, j3 + 1);
                    proof {
                        assert(s@.skip(j3 as int).skip(1) =~= s@.skip(j3 + 1));
                    }
                    if j4 == s.len() {
                        proof {
                            assert(s@.skip(j4 as int).len() == 0);
                            assert(parse_turns(suf) == Some(seq![tv]));
                            assert(m0 + seq![tv] =~= acc@.map_values(|x: Turn| x@));
                        }
                        return Some(acc);
                    } else {
                        assert(s@.skip(j4 as int).len() != 0);
                        assert(parse_turns(suf) is None);
                        return None;
                    }
                } else if c == ',' {
                    let j5 = skip_ws_exec(s, j3 + 1);
                    proof {
                        assert(s@.skip(j3 as int).skip(1) =~= s@.skip(j3 + 1));
                        assert(j5 >= j3 + 1);
                        assert(j3 >= j2 && j2 >= j);
                        assert(s@.skip(j5 as int).len() < suf.len());
                        match parse_turns(s@.skip(j5 as int)) {
                            Some(ts2) => {
                                assert(parse_turns(suf) == Some(seq![tv] + ts2));
                                assert(m0 + (seq![tv] + ts2) =~= acc@.map_values(|x: Turn| x@)
                                    + ts2);
                            },
                            None => {
                                assert(parse_turns(suf) is None);
                            },
                        }
                    }
                    j = j5;
                } else {
                    assert(parse_turns(suf) is None);
                    return None;
                }
            },
        }
    }
}

/// The role tag of a turn the user speaks.
pub open spec fn user_turn_view(content: Seq<char>) -> TurnView {
    TurnView { role: "user"@, content }
}

/// The role tag of a turn the assistant speaks.
pub open spec fn assistant_turn_view(content: Seq<char>) -> TurnView {
    TurnView { role: "assistant"@, content }
}

/// A user turn carrying `content`.
pub fn user_turn(content: &str) -> (t: Turn)
    ensures
        t@ == user_turn_view(content@),
{
    Turn { role: String::from_str("user"), content: String::from_str(content) }
}

/// An assistant turn carrying `content`.
pub fn assistant_turn(content: &str) -> (t: Turn)
    ensures
        t@ == assistant_turn_view(content@),
{
    Turn { role: String::from_str("assistant"), content: String::from_str(content) }
}

/// The document that replaces stored text `text` once an exchange completes:
/// the stored turns with the user prompt and the assistant answer appended,
/// serialized anew.  Fails exactly where the stored text is malformed, in
/// which case nothing can be said of the history and nothing is written.
pub fn updated_log(text: &str, prompt: &str, answer: &str) -> (r: Result<String, StorageError>)
    ensures
        match r {
            Ok(out) => load_spec(text@) is Some && out@ == ser_transcript(
                load_spec(text@).unwrap().push(user_turn_view(prompt@)).push(
                    assistant_turn_view(answer@),
                ),
            ),
            Err(_) => load_spec(text@) is None,
        },
{
    let mut t = match Transcript::load(text) {
        Ok(t) => t,
        Err(e) => {
            return Err(e);
        },
    };
    t.append(user_turn(prompt), assistant_turn(answer));
    Ok(t.serialize())
}

} // verus!
