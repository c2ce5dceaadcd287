//! The incremental response decoder.
//!
//! The chat service answers with a Server-Sent-Events byte stream: frames are
//! newline-delimited lines, and a line `data: <json>` carries one JSON event
//! whose `choices[0].delta.content` field, when present, is the next fragment
//! of the answer.  A line `data: [DONE]` ends the answer.  The network may cut
//! this stream into chunks at any byte, so the decoder keeps the trailing
//! partial line across calls and only acts on complete lines; a multi-byte
//! character split across chunks therefore stays intact in the byte buffer.
//!
//! [`Renderer::feed`] consumes one chunk and hands back the fragments to
//! display, in order; [`Renderer::finish`] closes the stream and returns the
//! whole accumulated answer.
use vstd::prelude::*;

verus! {

/// What a data frame's payload yields: `None` where the payload is not JSON,
/// `Some(None)` where it is JSON without a `choices[0].delta.content` string,
/// and `Some(Some(text))` where that string is present.  A pure function of
/// the payload bytes; its value is fixed by the JSON grammar.
pub uninterp spec fn frame_delta(payload: Seq<u8>) -> Option<Option<Seq<char>>>;

/// Relies on `serde_json::from_slice` and `serde_json::Value::as_str`:
/// whether the payload parses as JSON, and the `choices[0].delta.content`
/// string if there is one.  Both depend on the payload bytes alone.
#[verifier::external_body]
fn extract_delta(payload: &[u8]) -> (r: Option<Option<String>>)
    ensures
        (match (r, frame_delta(payload@)) {
            (Some(Some(s)), Some(Some(d))) => s@ == d,
            (Some(None), Some(None)) => true,
            (None, None) => true,
            _ => false,
        }),
{
    match serde_json::from_slice::<serde_json::Value>(payload) {
        Err(_) => None,
        Ok(v) => Some(v["choices"][0]["delta"]["content"].as_str().map(|c| c.to_string())),
    }
}

/// The frame prefix `data: `, as bytes.
pub open spec fn data_prefix() -> Seq<u8> {
    seq![100u8, 97u8, 116u8, 97u8, 58u8, 32u8]
}

/// The end-of-stream sentinel `[DONE]`, as bytes.
pub open spec fn done_sentinel() -> Seq<u8> {
    seq![91u8, 68u8, 79u8, 78u8, 69u8, 93u8]
}

/// An ASCII whitespace byte.
pub open spec fn is_ws(b: u8) -> bool {
    b == 32 || b == 9 || b == 10 || b == 11 || b == 12 || b == 13
}

/// Every byte of `p` is whitespace (also true of the empty payload).
pub open spec fn all_ws(p: Seq<u8>) -> bool {
    forall|k: int| 0 <= k < p.len() ==> is_ws(p[k])
}

/// A complete line without its newline, with a trailing carriage return
/// removed.
pub open spec fn strip_cr(line: Seq<u8>) -> Seq<u8> {
    if line.len() >= 1 && line.last() == 13 {
        line.drop_last()
    } else {
        line
    }
}

/// What one complete line means to the decoder.
pub enum LineEv {
    /// Not a data frame, or a blank one, or one without content.
    Skip,
    /// A data frame whose payload is not JSON; reported, never fatal.
    Bad,
    /// The end-of-stream sentinel.
    Terminal,
    /// A fragment of the answer.
    Delta(Seq<char>),
}

/// The meaning of one complete line.
pub open spec fn line_event(line: Seq<u8>) -> LineEv {
    if !(line.len() >= 6 && line.take(6) == data_prefix()) {
        LineEv::Skip
    } else {
        let p = line.skip(6);
        if all_ws(p) {
            LineEv::Skip
        } else if p == done_sentinel() {
            LineEv::Terminal
        } else {
            match frame_delta(p) {
                None => LineEv::Bad,
                Some(None) => LineEv::Skip,
                Some(Some(d)) => LineEv::Delta(d),
            }
        }
    }
}

/// The first complete line of `s` and what follows its newline, or `None`
/// where `s` holds no newline.
pub open spec fn split_first_line(s: Seq<u8>) -> Option<(Seq<u8>, Seq<u8>)>
    decreases s.len(),
{
    if s.len() == 0 {
        None
    } else if s[0] == 10 {
        Some((Seq::empty(), s.skip(1)))
    } else {
        match split_first_line(s.skip(1)) {
            None => None,
            Some((l, r)) => Some((seq![s[0]] + l, r)),
        }
    }
}

/// The concatenation of emitted fragments, in emission order.
pub open spec fn concat_texts(ds: Seq<Seq<char>>) -> Seq<char>
    decreases ds.len(),
{
    if ds.len() == 0 {
        Seq::empty()
    } else {
        ds[0] + concat_texts(ds.skip(1))
    }
}

/// Decoding the complete lines of `buf`: the fragments emitted in order, the
/// number of malformed frames, whether the sentinel was reached, and the
/// pending trailing bytes that do not yet form a line.  Lines after the
/// sentinel are discarded, as the stream is over.
pub open spec fn run(buf: Seq<u8>) -> (Seq<Seq<char>>, nat, bool, Seq<u8>)
    decreases buf.len(),
{
    match split_first_line(buf) {
        None => (Seq::empty(), 0, false, buf),
        Some((line, r)) => {
            if r.len() < buf.len() {
                match line_event(strip_cr(line)) {
                    LineEv::Terminal => (Seq::empty(), 0, true, Seq::empty()),
                    LineEv::Delta(d) => {
                        let rr = run(r);
                        (seq![d] + rr.0, rr.1, rr.2, rr.3)
                    },
                    LineEv::Skip => run(r),
                    LineEv::Bad => {
                        let rr = run(r);
                        (rr.0, rr.1 + 1, rr.2, rr.3)
                    },
                }
            } else {
                (Seq::empty(), 0, false, buf)
            }
        },
    }
}

/// The decoder's mathematical state: buffered trailing bytes, the answer
/// accumulated so far, and whether the sentinel has been seen.
#[verifier::ext_equal]
pub struct DecoderModel {
    pub pending: Seq<u8>,
    pub answer: Seq<char>,
    pub done: bool,
}

/// One call of [`Renderer::feed`]: the next state, the fragments emitted,
/// and the number of malformed frames seen.  After the sentinel a decoder
/// ignores everything.
pub open spec fn feed_spec(m: DecoderModel, chunk: Seq<u8>) -> (DecoderModel, Seq<Seq<char>>, nat) {
    if m.done {
        (m, Seq::empty(), 0)
    } else {
        let r = run(m.pending + chunk);
        (DecoderModel { pending: r.3, answer: m.answer + concat_texts(r.0), done: r.2 }, r.0, r.1)
    }
}

/// Closing the stream: the pending trailing bytes, if any, count as one last
/// line (a final frame need not be newline-terminated); a stream that closes
/// without the sentinel still yields the accumulated answer.
pub open spec fn finish_spec(m: DecoderModel) -> (Seq<char>, nat) {
    if m.done || m.pending.len() == 0 {
        (m.answer, 0)
    } else {
        match line_event(strip_cr(m.pending)) {
            LineEv::Delta(d) => (m.answer + d, 0),
            LineEv::Bad => (m.answer, 1),
            _ => (m.answer, 0),
        }
    }
}

/// What one complete line means, as a runtime value.
pub enum FrameEvent {
    Skip,
    Bad,
    Terminal,
    Delta(String),
}

impl View for FrameEvent {
    type V = LineEv;

    open spec fn view(&self) -> LineEv {
        match self {
            FrameEvent::Skip => LineEv::Skip,
            FrameEvent::Bad => LineEv::Bad,
            FrameEvent::Terminal => LineEv::Terminal,
            FrameEvent::Delta(s) => LineEv::Delta(s@),
        }
    }
}

/// Classifies one complete line (newline already removed, carriage return
/// already stripped).
fn classify_line(line: &Vec<u8>) -> (ev: FrameEvent)
    ensures
        ev@ == line_event(line@),
{
    if line.len() < 6 {
        return FrameEvent::Skip;
    }
    if !(line[0] == 100 && line[1] == 97 && line[2] == 116 && line[3] == 97 && line[4] == 58
        && line[5] == 32) {
        proof {
            if line@.take(6) == data_prefix() {
                assert(line@.take(6)[0] == line@[0]);
                assert(line@.take(6)[1] == line@[1]);
                assert(line@.take(6)[2] == line@[2]);
                assert(line@.take(6)[3] == line@[3]);
                assert(line@.take(6)[4] == line@[4]);
                assert(line@.take(6)[5] == line@[5]);
                assert(false);
            }
        }
        return FrameEvent::Skip;
    }
    assert(line@.take(6) =~= data_prefix());
    let mut payload: Vec<u8> = Vec::new();
    let mut m: usize = 6;
    while m < line.len()
        invariant
            6 <= m <= line@.len(),
            line@.len() >= 6,
            payload@ == line@.subrange(6, m as int),
        decreases line@.len() - m,
    {
        payload.push(line[m]);
        proof {
            assert(line@.subrange(6, m + 1) =~= line@.subrange(6, m as int).push(line@[m as int]));
        }
        m = m + 1;
    }
    proof {
        assert(payload@ =~= line@.skip(6));
    }
    let mut w: usize = 0;
    let mut only_ws = true;
    while w < payload.len()
        invariant
            w <= payload@.len(),
            only_ws == (forall|k: int| 0 <= k < w ==> is_ws(payload@[k])),
        decreases payload@.len() - w,
    {
        let b = payload[w];
        if !(b == 32 || b == 9 || b == 10 || b == 11 || b == 12 || b == 13) {
            only_ws = false;
        }
        w = w + 1;
    }
    if only_ws {
        assert(all_ws(payload@));
        return FrameEvent::Skip;
    }
    assert(!all_ws(payload@));
    if payload.len() == 6 && payload[0] == 91 && payload[1] == 68 && payload[2] == 79
        && payload[3] == 78 && payload[4] == 69 && payload[5] == 93 {
        assert(payload@ =~= done_sentinel());
        return FrameEvent::Terminal;
    }
    proof {
        if payload@ == done_sentinel() {
            assert(payload@.len() == 6);
            assert(payload@[0] == 91u8 && payload@[1] == 68u8 && payload@[2] == 79u8
                && payload@[3] == 78u8 && payload@[4] == 69u8 && payload@[5] == 93u8);
            assert(false);
        }
    }
    match extract_delta(payload.as_slice()) {
        None => FrameEvent::Bad,
        Some(None) => FrameEvent::Skip,
        Some(Some(s)) => FrameEvent::Delta(s),
    }
}

/// Nothing splits off a sequence without a newline.
proof fn lemma_split_none(s: Seq<u8>)
    requires
        forall|k: int| 0 <= k < s.len() ==> s[k] != 10,
    ensures
        split_first_line(s) is None,
    decreases s.len(),
{
    if s.len() > 0 {
        assert(s[0] != 10);
        assert(forall|k: int| 0 <= k < s.skip(1).len() ==> s.skip(1)[k] == s[k + 1] && s[k + 1]
            != 10);
        lemma_split_none(s.skip(1));
    }
}

/// The first newline at position `j` splits off exactly the first `j` bytes.
proof fn lemma_split_found(s: Seq<u8>, j: int)
    requires
        0 <= j < s.len(),
        s[j] == 10,
        forall|k: int| 0 <= k < j ==> s[k] != 10,
    ensures
        split_first_line(s) == Some((s.take(j), s.skip(j + 1))),
    decreases j,
{
    if j == 0 {
        assert(s.take(0) =~= Seq::<u8>::empty());
    } else {
        assert(s[0] != 10);
        let t = s.skip(1);
        assert(t[j - 1] == s[j]);
        assert(forall|k: int| 0 <= k < j - 1 ==> t[k] == s[k + 1] && s[k + 1] != 10);
        lemma_split_found(t, j - 1);
        assert(t.skip(j) =~= s.skip(j + 1));
        assert(seq![s[0]] + t.take(j - 1) =~= s.take(j));
    }
}

/// The streaming state of one answer: the buffered trailing bytes, the text
/// decoded so far, and whether the end-of-stream sentinel has been seen.
pub struct Renderer {
    pending: Vec<u8>,
    answer: String,
    done: bool,
}

impl View for Renderer {
    type V = DecoderModel;

    closed spec fn view(&self) -> DecoderModel {
        DecoderModel { pending: self.pending@, answer: self.answer@, done: self.done }
    }
}

impl Renderer {
    /// A decoder for a fresh stream: nothing buffered, nothing decoded.
    pub fn new() -> (r: Self)
        ensures
            r@ == (DecoderModel { pending: Seq::<u8>::empty(), answer: Seq::<char>::empty(), done: false }),
    {
        let r = Renderer { pending: Vec::new(), answer: String::new(), done: false };
        r
    }

    /// Whether the end-of-stream sentinel has been seen: after it, the
    /// answer is complete and no further chunk need be requested.
    pub fn is_done(&self) -> (r: bool)
        ensures
            r == self@.done,
    {
        self.done
    }

    /// Consumes one chunk of the stream: hands back the fragments to display,
    /// in order, and the number of malformed frames seen, exactly as
    /// [`feed_spec`] says.
    pub fn feed(&mut self, chunk: &[u8]) -> (r: (Vec<String>, usize))
        ensures
            ({
                let step = feed_spec(old(self)@, chunk@);
                final(self)@ == step.0 && r.0@.map_values(|s: String| s@) == step.1 && r.1
                    == step.2
            }),
    {
        if self.done {
            let out: Vec<String> = Vec::new();
            proof {
                assert(out@.map_values(|s: String| s@) =~= Seq::<Seq<char>>::empty());
            }
            return (out, 0);
        }
        let mut buf: Vec<u8> = Vec::new();
        buf.append(&mut self.pending);
        buf.extend_from_slice(chunk);
        let ghost buf0 = buf@;
        proof {
            assert(buf0 =~= old(self)@.pending + chunk@);
        }
        let mut deltas: Vec<String> = Vec::new();
        let mut errors: usize = 0;
        let mut start: usize = 0;
        proof {
            assert(buf0.skip(0) =~= buf0);
            assert(deltas@.map_values(|s: String| s@) =~= Seq::<Seq<char>>::empty());
            assert(Seq::<Seq<char>>::empty() + run(buf0).0 =~= run(buf0).0);
            assert(concat_texts(Seq::<Seq<char>>::empty()) == Seq::<char>::empty());
            assert(old(self)@.answer + Seq::<char>::empty() =~= old(self)@.answer);
        }
        loop
            invariant
                start <= buf@.len(),
                buf@ == buf0,
                errors <= start,
                self.done == false,
                self.pending@.len() == 0,
                old(self)@.done == false,
                buf0 == old(self)@.pending + chunk@,
                self.answer@ == old(self)@.answer + concat_texts(
                    deltas@.map_values(|s: String| s@),
                ),
                run(buf0).0 == deltas@.map_values(|s: String| s@) + run(
                    buf0.skip(start as int),
                ).0,
                run(buf0).1 == errors + run(buf0.skip(start as int)).1,
                run(buf0).2 == run(buf0.skip(start as int)).2,
                run(buf0).3 == run(buf0.skip(start as int)).3,
            decreases buf@.len() - start,
        {
            let ghost tail = buf0.skip(start as int);
            let mut k: usize = start;
            while k < buf.len() && buf[k] != 10
                invariant
                    start <= k <= buf@.len(),
                    buf@ == buf0,
                    forall|m: int| start <= m < k ==> buf0[m] != 10,
                decreases buf@.len() - k,
            {
                k = k + 1;
            }
            if k == buf.len() {
                proof {
                    assert(forall|m: int| 0 <= m < tail.len() ==> tail[m] == buf0[start + m]
                        && buf0[start + m] != 10);
                    lemma_split_none(tail);
                    assert(run(buf0.skip(start as int)) == (
                        Seq::<Seq<char>>::empty(),
                        0nat,
                        false,
                        tail,
                    ));
                    assert(deltas@.map_values(|s: String| s@) + Seq::<Seq<char>>::empty()
                        =~= deltas@.map_values(|s: String| s@));
                }
                let rest_vec = buf.split_off(start);
                self.pending = rest_vec;
                proof {
                    assert(self.pending@ =~= tail);
                }
                return (deltas, errors);
            }
            assert(buf0[k as int] == 10);
            let ghost rawline = buf0.subrange(start as int, k as int);
            proof {
                assert(tail[k - start] == buf0[k as int]);
                assert(forall|m: int| 0 <= m < k - start ==> tail[m] == buf0[start + m]
                    && buf0[start + m] != 10);
                lemma_split_found(tail, k - start);
                assert(tail.take(k - start) =~= rawline);
                assert(tail.skip(k - start + 1) =~= buf0.skip(k + 1));
                assert(split_first_line(tail) == Some((rawline, buf0.skip(k + 1))));
            }
            let mut line: Vec<u8> = Vec::new();
            let mut m: usize = start;
            while m < k
                invariant
                    start <= m <= k <= buf@.len(),
                    buf@ == buf0,
                    line@ == buf0.subrange(start as int, m as int),
                decreases k - m,
            {
                line.push(buf[m]);
                proof {
                    assert(buf0.subrange(start as int, m + 1) =~= buf0.subrange(
                        start as int,
                        m as int,
                    ).push(buf0[m as int]));
                }
                m = m + 1;
            }
            assert(line@ == rawline);
            if line.len() > 0 {
                let last = line.len() - 1;
                if line[last] == 13 {
                    line.pop();
                    proof {
                        assert(line@ =~= strip_cr(rawline));
                    }
                }
            }
            assert(line@ == strip_cr(rawline));
            let ev = classify_line(&line);
            let ghost next = buf0.skip(k + 1);
            proof {
                assert(next.len() < tail.len());
            }
            match ev {
                FrameEvent::Terminal => {
                    self.done = true;
                    proof {
                        assert(run(tail) == (Seq::<Seq<char>>::empty(), 0nat, true, Seq::<
                            u8,
                        >::empty()));
                        assert(deltas@.map_values(|s: String| s@) + Seq::<Seq<char>>::empty()
                            =~= deltas@.map_values(|s: String| s@));
                        assert(self.pending@ =~= Seq::<u8>::empty());
                    }
                    return (deltas, errors);
                },
                FrameEvent::Skip => {
                    proof {
                        assert(run(tail) == run(next));
                    }
                    start = k + 1;
                },
                FrameEvent::Bad => {
                    proof {
                        assert(run(tail).0 == run(next).0);
                        assert(run(tail).1 == run(next).1 + 1);
                        assert(run(tail).2 == run(next).2);
                        assert(run(tail).3 == run(next).3);
                    }
                    errors = errors + 1;
                    start = k + 1;
                },
                FrameEvent::Delta(s) => {
                    let ghost d = s@;
                    let ghost m0 = deltas@.map_values(|x: String| x@);
                    self.answer.append(s.as_str());
                    deltas.push(s);
                    proof {
                        assert(deltas@.map_values(|x: String| x@) =~= m0.push(d));
                        assert(run(tail).0 == seq![d] + run(next).0);
                        assert(run(tail).1 == run(next).1);
                        assert(run(tail).2 == run(next).2);
                        assert(run(tail).3 == run(next).3);
                        assert(m0 + (seq![d] + run(next).0) =~= m0.push(d) + run(next).0);
                        lemma_concat_snoc(m0, d);
                    }
                    start = k + 1;
                },
            }
        }
    }

    /// Closes the stream and yields the whole answer, together with whether
    /// the trailing bytes held one last malformed frame.  A stream that ended
    /// without the sentinel still yields everything decoded so far.
    pub fn finish(self) -> (r: (String, usize))
        ensures
            ({
                let end = finish_spec(self@);
                r.0@ == end.0 && r.1 == end.1
            }),
    {
        let Renderer { pending, mut answer, done } = self;
        if done || pending.len() == 0 {
            return (answer, 0);
        }
        let mut line = pending;
        let ghost raw = line@;
        let last = line.len() - 1;
        if line[last] == 13 {
            line.pop();
            proof {
                assert(line@ =~= strip_cr(raw));
            }
        }
        assert(line@ == strip_cr(raw));
        match classify_line(&line) {
            FrameEvent::Delta(s) => {
                answer.append(s.as_str());
                (answer, 0)
            },
            FrameEvent::Bad => (answer, 1),
            _ => (answer, 0),
        }
    }
}

/// Splitting off a first line leaves a strictly shorter remainder.
proof fn lemma_split_shorter(s: Seq<u8>)
    ensures
        split_first_line(s) is Some ==> split_first_line(s).unwrap().1.len() < s.len(),
    decreases s.len(),
{
    if s.len() > 0 && s[0] != 10 {
        lemma_split_shorter(s.skip(1));
    }
}

/// Appending more bytes does not change the first complete line.
proof fn lemma_split_append(s: Seq<u8>, y: Seq<u8>)
    ensures
        (match split_first_line(s) {
            Some((l, r)) => split_first_line(s + y) == Some((l, r + y)),
            None => true,
        }),
    decreases s.len(),
{
    match split_first_line(s) {
        None => {
        },
        Some((l, r)) => {
            assert((s + y).len() > 0);
            assert((s + y)[0] == s[0]);
            if s[0] == 10 {
                assert((s + y).skip(1) =~= s.skip(1) + y);
                assert(Seq::<u8>::empty() =~= l);
            } else {
                lemma_split_append(s.skip(1), y);
                assert((s + y).skip(1) =~= s.skip(1) + y);
                match split_first_line(s.skip(1)) {
                    Some((l2, r2)) => {
                        assert(split_first_line(s.skip(1) + y) == Some((l2, r2 + y)));
                        assert(split_first_line(s + y) == Some((seq![s[0]] + l2, r2 + y)));
                    },
                    None => {
                        assert(false);
                    },
                }
            }
        },
    }
}

/// Concatenation of fragment lists distributes over sequence concatenation.
proof fn lemma_concat_append(u: Seq<Seq<char>>, v: Seq<Seq<char>>)
    ensures
        concat_texts(u + v) == concat_texts(u) + concat_texts(v),
    decreases u.len(),
{
    if u.len() == 0 {
        assert(u + v =~= v);
        assert(concat_texts(u) + concat_texts(v) =~= concat_texts(v));
    } else {
        assert((u + v)[0] == u[0]);
        assert((u + v).skip(1) =~= u.skip(1) + v);
        lemma_concat_append(u.skip(1), v);
        assert(u[0] + (concat_texts(u.skip(1)) + concat_texts(v)) =~= (u[0] + concat_texts(
            u.skip(1),
        )) + concat_texts(v));
    }
}

/// Once the sentinel was seen, nothing stays buffered.
proof fn lemma_run_done_empty(s: Seq<u8>)
    ensures
        run(s).2 ==> run(s).3 == Seq::<u8>::empty(),
    decreases s.len(),
{
    match split_first_line(s) {
        None => {
        },
        Some((l, r)) => {
            lemma_split_shorter(s);
            if r.len() < s.len() {
                lemma_run_done_empty(r);
            }
        },
    }
}

/// Decoding composes over the byte stream: decoding `x` and then handing the
/// leftover bytes `y` decodes exactly what decoding `x + y` at once would,
/// and once the sentinel was seen in `x` nothing of `y` matters.
proof fn lemma_run_append(x: Seq<u8>, y: Seq<u8>)
    ensures
        ({
            let rx = run(x);
            if rx.2 {
                run(x + y) == (rx.0, rx.1, true, Seq::<u8>::empty())
            } else {
                let ry = run(rx.3 + y);
                run(x + y) == (rx.0 + ry.0, rx.1 + ry.1, ry.2, ry.3)
            }
        }),
    decreases x.len(),
{
    let rx = run(x);
    match split_first_line(x) {
        None => {
            assert(rx.3 + y =~= x + y);
            let ry = run(x + y);
            assert(Seq::<Seq<char>>::empty() + ry.0 =~= ry.0);
        },
        Some((l, r)) => {
            lemma_split_shorter(x);
            lemma_split_append(x, y);
            assert(split_first_line(x + y) == Some((l, r + y)));
            assert((r + y).len() < (x + y).len());
            match line_event(strip_cr(l)) {
                LineEv::Terminal => {
                },
                LineEv::Skip => {
                    lemma_run_append(r, y);
                },
                LineEv::Delta(d) => {
                    lemma_run_append(r, y);
                    let rr = run(r);
                    if !rr.2 {
                        let ry = run(rr.3 + y);
                        assert(seq![d] + (rr.0 + ry.0) =~= (seq![d] + rr.0) + ry.0);
                    }
                },
                LineEv::Bad => {
                    lemma_run_append(r, y);
                },
            }
        },
    }
}

/// How a stream is cut into chunks cannot matter: feeding `a` and then `b`
/// leaves the decoder in the same state as feeding `a + b` at once, emits the
/// same fragments in the same order, and reports the same malformed frames.
pub proof fn lemma_feed_split(m: DecoderModel, a: Seq<u8>, b: Seq<u8>)
    ensures
        ({
            let s1 = feed_spec(m, a);
            let s2 = feed_spec(s1.0, b);
            let s3 = feed_spec(m, a + b);
            s2.0 == s3.0 && s1.1 + s2.1 == s3.1 && s1.2 + s2.2 == s3.2
        }),
{
    let s1 = feed_spec(m, a);
    let s2 = feed_spec(s1.0, b);
    let s3 = feed_spec(m, a + b);
    if m.done {
        assert(s1.1 + s2.1 =~= s3.1);
    } else {
        let x = m.pending + a;
        let rx = run(x);
        assert(m.pending + (a + b) =~= x + b);
        lemma_run_append(x, b);
        lemma_run_done_empty(x);
        if rx.2 {
            assert(run(x + b) == (rx.0, rx.1, true, Seq::<u8>::empty()));
            assert(s1.1 + s2.1 =~= s3.1);
            assert(s2.0 =~= s3.0);
        } else {
            let ry = run(rx.3 + b);
            assert(run(x + b) == (rx.0 + ry.0, rx.1 + ry.1, ry.2, ry.3));
            lemma_concat_append(rx.0, ry.0);
            assert(m.answer + concat_texts(rx.0) + concat_texts(ry.0) =~= m.answer
                + (concat_texts(rx.0) + concat_texts(ry.0)));
            assert(s2.0.pending == s3.0.pending);
            assert(s2.0.done == s3.0.done);
            assert(s2.0.answer =~= s3.0.answer);
            assert(s2.0 =~= s3.0);
            assert(s1.1 + s2.1 =~= s3.1);
        }
    }
}

/// Concatenation after appending one more fragment.
proof fn lemma_concat_snoc(ds: Seq<Seq<char>>, d: Seq<char>)
    ensures
        concat_texts(ds.push(d)) == concat_texts(ds) + d,
    decreases ds.len(),
{
    let p = ds.push(d);
    if ds.len() == 0 {
        assert(p.len() == 1);
        assert(p[0] == d);
        assert(p.skip(1) =~= Seq::<Seq<char>>::empty());
        assert(concat_texts(p) == d + concat_texts(Seq::<Seq<char>>::empty()));
        assert(d + Seq::<char>::empty() =~= d);
        assert(Seq::<char>::empty() + d =~= d);
        assert(concat_texts(ds) + d =~= d);
    } else {
        assert(p[0] == ds[0]);
        assert(p.skip(1) =~= ds.skip(1).push(d));
        lemma_concat_snoc(ds.skip(1), d);
        assert(ds[0] + (concat_texts(ds.skip(1)) + d) =~= (ds[0] + concat_texts(ds.skip(1)))
            + d);
    }
}

} // verus!
