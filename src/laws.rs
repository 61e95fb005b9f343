//! Properties of the decoder model: chunk boundaries do not matter, encoded
//! frames decode to what was encoded, and out-of-range sizes are reported as such.
use vstd::prelude::*;
use crate::client::decimal;
use crate::error::ERROR_MESSAGE_SIZE_TOO_LARGE;
use vstd::utf8::valid_utf8;
use crate::parser::{
    all_text, lemma_ascii_valid_utf8,
    all_digits, declared_size, digits_value, initial_model, pub_event, Event,
    MAX_PAYLOAD, feed, is_ws, split_state, step, tokens, DecoderModel, Outcome, ParseState, Step, BUF_LEN, CR, LF,
    SPACE,
};

verus! {

/// An outcome seen from `k` bytes earlier in the stream.
pub open spec fn shift(o: Outcome, k: nat) -> Outcome {
    match o {
        Outcome::Done(e, n) => Outcome::Done(e, n + k),
        _ => o,
    }
}

proof fn lemma_feed_suffix(m: DecoderModel, a: Seq<u8>, b: Seq<u8>, j: int)
    requires
        0 <= j <= b.len(),
    ensures
        feed(m, a + b, a.len() + j) == shift(feed(m, b, j), a.len()),
    decreases b.len() - j,
{
    if j < b.len() {
        assert((a + b)[a.len() + j] == b[j]);
        match step(m, b[j]) {
            Step::Next(m2) => {
                lemma_feed_suffix(m2, a, b, j + 1);
            },
            _ => {},
        }
    }
}

proof fn lemma_feed_prefix(m: DecoderModel, a: Seq<u8>, b: Seq<u8>, i: int)
    requires
        0 <= i <= a.len(),
    ensures
        feed(m, a + b, i) == match feed(m, a, i) {
            Outcome::Pending(m2) => shift(feed(m2, b, 0), a.len()),
            o => o,
        },
    decreases a.len() - i,
{
    if i < a.len() {
        assert((a + b)[i] == a[i]);
        match step(m, a[i]) {
            Step::Next(m2) => {
                lemma_feed_prefix(m2, a, b, i + 1);
            },
            _ => {},
        }
    } else {
        lemma_feed_suffix(m, a, b, 0);
    }
}

/// Chunk boundaries do not matter: feeding `a` and then `b` gives what feeding
/// `a + b` at once gives. A frame that `a` already completes (or an error in
/// `a`) is reported as is; otherwise the decoder goes on in `b` from the state
/// that `a` left, and the count of consumed bytes continues past `a`.
pub proof fn lemma_feed_chunks(m: DecoderModel, a: Seq<u8>, b: Seq<u8>)
    ensures
        feed(m, a + b, 0) == match feed(m, a, 0) {
            Outcome::Pending(m2) => shift(feed(m2, b, 0), a.len()),
            o => o,
        },
{
    lemma_feed_prefix(m, a, b, 0);
}

/// A byte that may stand in a token.
pub open spec fn is_token_byte(b: u8) -> bool {
    !is_ws(b) && b != CR && b != LF
}

/// A non-empty field without whitespace or line breaks.
pub open spec fn is_token(t: Seq<u8>) -> bool {
    t.len() > 0 && forall|k: int| 0 <= k < t.len() ==> is_token_byte(#[trigger] t[k])
}

/// An argument line: the fields joined by single spaces.
pub open spec fn arg_line(subject: Seq<u8>, queue: Option<Seq<u8>>, sid: Seq<u8>) -> Seq<u8> {
    match queue {
        Some(q) => subject + seq![SPACE] + q + seq![SPACE] + sid,
        None => subject + seq![SPACE] + sid,
    }
}

/// `SUB <subject> [<queue>] <sid>\r\n`.
pub open spec fn sub_frame(subject: Seq<u8>, queue: Option<Seq<u8>>, sid: Seq<u8>) -> Seq<u8> {
    seq![83u8, 85u8, 66u8, SPACE] + arg_line(subject, queue, sid) + seq![CR, LF]
}

/// `PUB <subject> <size>\r\n`.
pub open spec fn pub_header(subject: Seq<u8>, size_text: Seq<u8>) -> Seq<u8> {
    seq![80u8, 85u8, 66u8, SPACE] + arg_line(subject, None, size_text) + seq![CR, LF]
}

/// `PUB <subject> <size>\r\n<payload>\r\n`.
pub open spec fn pub_frame(subject: Seq<u8>, size_text: Seq<u8>, payload: Seq<u8>) -> Seq<u8> {
    pub_header(subject, size_text) + payload + seq![CR, LF]
}

proof fn lemma_split_word(p: Seq<u8>, w: Seq<u8>)
    requires
        forall|k: int| 0 <= k < w.len() ==> !is_ws(#[trigger] w[k]),
    ensures
        split_state(p + w).0 == split_state(p).0,
        split_state(p + w).1 == split_state(p).1 + w,
    decreases w.len(),
{
    if w.len() == 0 {
        assert(p + w =~= p);
        assert(split_state(p).1 + w =~= split_state(p).1);
    } else {
        let w0 = w.drop_last();
        assert forall|k: int| 0 <= k < w0.len() implies !is_ws(#[trigger] w0[k]) by {
            assert(w0[k] == w[k]);
        }
        lemma_split_word(p, w0);
        assert((p + w).drop_last() =~= p + w0);
        assert((p + w).last() == w.last());
        assert(!is_ws(w[w.len() - 1]));
        assert((split_state(p).1 + w0).push(w.last()) =~= split_state(p).1 + w);
    }
}

proof fn lemma_split_space(p: Seq<u8>)
    requires
        split_state(p).1.len() > 0,
    ensures
        split_state(p + seq![SPACE]).0 == split_state(p).0.push(split_state(p).1),
        split_state(p + seq![SPACE]).1 == Seq::<u8>::empty(),
{
    assert((p + seq![SPACE]).drop_last() =~= p);
}

proof fn lemma_token_no_ws(t: Seq<u8>)
    requires
        is_token(t),
    ensures
        forall|k: int| 0 <= k < t.len() ==> !is_ws(#[trigger] t[k]),
{
}

/// The tokens of an argument line built from tokens joined by single spaces.
proof fn lemma_sub_args_tokens(subject: Seq<u8>, queue: Option<Seq<u8>>, sid: Seq<u8>)
    requires
        is_token(subject),
        is_token(sid),
        queue is Some ==> is_token(queue->0),
    ensures
        tokens(arg_line(subject, queue, sid)) == match queue {
            Some(q) => seq![subject, q, sid],
            None => seq![subject, sid],
        },
{
    lemma_token_no_ws(subject);
    lemma_token_no_ws(sid);
    let e = Seq::<u8>::empty();
    lemma_split_word(e, subject);
    assert(e + subject =~= subject);
    assert(split_state(e).1 + subject =~= subject);
    lemma_split_space(subject);
    let head = subject + seq![SPACE];
    match queue {
        Some(q) => {
            lemma_token_no_ws(q);
            lemma_split_word(head, q);
            assert(split_state(head).1 + q =~= q);
            lemma_split_space(head + q);
            let head_queue = head + q + seq![SPACE];
            lemma_split_word(head_queue, sid);
            assert(split_state(head_queue).1 + sid =~= sid);
            assert(seq![subject].push(q) =~= seq![subject, q]);
            assert(seq![subject, q].push(sid) =~= seq![subject, q, sid]);
        },
        None => {
            lemma_split_word(head, sid);
            assert(split_state(head).1 + sid =~= sid);
            assert(seq![subject].push(sid) =~= seq![subject, sid]);
        },
    }
}

/// Argument bytes are appended one by one while the line fits the scratch buffer.
proof fn lemma_feed_arg_run(m: DecoderModel, s: Seq<u8>, i: int, j: int)
    requires
        m.state == ParseState::OpSubArg || m.state == ParseState::OpPubArg,
        0 <= i <= j <= s.len(),
        forall|k: int| i <= k < j ==> #[trigger] s[k] != CR && s[k] != LF,
        m.arg.len() + (j - i) <= BUF_LEN,
    ensures
        feed(m, s, i) == feed(
            DecoderModel { state: m.state, arg: m.arg + s.subrange(i, j), total: m.total, msg: m.msg },
            s,
            j,
        ),
    decreases j - i,
{
    if i < j {
        let m2 = DecoderModel { state: m.state, arg: m.arg.push(s[i]), total: m.total, msg: m.msg };
        assert(step(m, s[i]) == Step::Next(m2));
        lemma_feed_arg_run(m2, s, i + 1, j);
        assert(m.arg.push(s[i]) + s.subrange(i + 1, j) =~= m.arg + s.subrange(i, j));
    } else {
        assert(m.arg + s.subrange(i, j) =~= m.arg);
    }
}

/// Payload bytes are taken as they come until the declared size is reached.
proof fn lemma_feed_payload_run(m: DecoderModel, s: Seq<u8>, i: int, j: int)
    requires
        m.state == ParseState::OpMsgPayload,
        0 <= i <= j <= s.len(),
        m.msg.len() + (j - i) <= m.total,
    ensures
        feed(m, s, i) == feed(
            DecoderModel { state: m.state, arg: m.arg, total: m.total, msg: m.msg + s.subrange(i, j) },
            s,
            j,
        ),
    decreases j - i,
{
    if i < j {
        let m2 = DecoderModel { state: m.state, arg: m.arg, total: m.total, msg: m.msg.push(s[i]) };
        assert(step(m, s[i]) == Step::Next(m2));
        lemma_feed_payload_run(m2, s, i + 1, j);
        assert(m.msg.push(s[i]) + s.subrange(i + 1, j) =~= m.msg + s.subrange(i, j));
    } else {
        assert(m.msg + s.subrange(i, j) =~= m.msg);
    }
}

proof fn lemma_arg_line_bytes(subject: Seq<u8>, queue: Option<Seq<u8>>, sid: Seq<u8>)
    requires
        is_token(subject),
        is_token(sid),
        queue is Some ==> is_token(queue->0),
    ensures
        forall|k: int|
            0 <= k < arg_line(subject, queue, sid).len() ==> #[trigger] arg_line(subject, queue, sid)[k]
                != CR && arg_line(subject, queue, sid)[k] != LF,
        is_token_byte(arg_line(subject, queue, sid)[0]),
{
    let a = arg_line(subject, queue, sid);
    assert(a[0] == subject[0]);
    assert forall|k: int| 0 <= k < a.len() implies #[trigger] a[k] != CR && a[k] != LF by {
        let n1 = subject.len() as int;
        match queue {
            Some(q) => {
                let n2 = n1 + 1 + q.len();
                if k < n1 {
                    assert(a[k] == subject[k]);
                } else if k == n1 {
                    assert(a[k] == SPACE);
                } else if k < n2 {
                    assert(a[k] == q[k - n1 - 1]);
                } else if k == n2 {
                    assert(a[k] == SPACE);
                } else {
                    assert(a[k] == sid[k - n2 - 1]);
                }
            },
            None => {
                if k < n1 {
                    assert(a[k] == subject[k]);
                } else if k == n1 {
                    assert(a[k] == SPACE);
                } else {
                    assert(a[k] == sid[k - n1 - 1]);
                }
            },
        }
    }
}

/// Runs the decoder over `<verb> <args>\r` from the start of a frame: the
/// argument line is collected and the line feed comes next.
proof fn lemma_feed_command(
    verb: Seq<u8>,
    st: ParseState,
    a: Seq<u8>,
    s: Seq<u8>,
)
    requires
        verb == seq![83u8, 85u8, 66u8] && st == ParseState::OpSubArg
            || verb == seq![80u8, 85u8, 66u8] && st == ParseState::OpPubArg,
        0 < a.len() <= BUF_LEN,
        is_token_byte(a[0]),
        forall|k: int| 0 <= k < a.len() ==> #[trigger] a[k] != CR && a[k] != LF,
        s.len() >= a.len() + 6,
        s.subrange(0, a.len() + 6 as int) == verb + seq![SPACE] + a + seq![CR, LF],
    ensures
        feed(initial_model(), s, 0) == feed(
            DecoderModel { state: st, arg: a, total: 0, msg: Seq::empty() },
            s,
            a.len() + 5 as int,
        ),
{
    let n = a.len() as int;
    let h = verb + seq![SPACE] + a + seq![CR, LF];
    assert forall|k: int| 0 <= k < n + 6 implies #[trigger] s[k] == h[k] by {
        assert(s[k] == s.subrange(0, n + 6)[k]);
    }
    assert forall|k: int| 0 <= k < n implies #[trigger] s[k + 4] == a[k] by {
        assert(h[k + 4] == a[k]);
    }
    assert(s[0] == verb[0] && s[1] == verb[1] && s[2] == verb[2] && s[3] == SPACE);
    assert(s[n + 4] == CR);
    let m0 = initial_model();
    let pub_verb = verb == seq![80u8, 85u8, 66u8];
    let (s1, s2, s3, s4) = if pub_verb {
        (ParseState::OpP, ParseState::OpPu, ParseState::OpPub, ParseState::OpPubSpace)
    } else {
        (ParseState::OpS, ParseState::OpSu, ParseState::OpSub, ParseState::OpSubSpace)
    };
    let m1 = DecoderModel { state: s1, arg: Seq::empty(), total: 0, msg: Seq::empty() };
    let m2 = DecoderModel { state: s2, arg: Seq::empty(), total: 0, msg: Seq::empty() };
    let m3 = DecoderModel { state: s3, arg: Seq::empty(), total: 0, msg: Seq::empty() };
    let m4 = DecoderModel { state: s4, arg: Seq::empty(), total: 0, msg: Seq::empty() };
    let m5 = DecoderModel { state: st, arg: seq![a[0]], total: 0, msg: Seq::empty() };
    assert(step(m0, s[0]) == Step::Next(m1));
    assert(step(m1, s[1]) == Step::Next(m2));
    assert(step(m2, s[2]) == Step::Next(m3));
    assert(step(m3, s[3]) == Step::Next(m4));
    assert(s[4] == a[0]);
    assert(Seq::<u8>::empty().push(a[0]) =~= seq![a[0]]);
    assert(step(m4, s[4]) == Step::Next(m5));
    assert(feed(m0, s, 0) == feed(m1, s, 1));
    assert(feed(m1, s, 1) == feed(m2, s, 2));
    assert(feed(m2, s, 2) == feed(m3, s, 3));
    assert(feed(m3, s, 3) == feed(m4, s, 4));
    assert(feed(m4, s, 4) == feed(m5, s, 5));
    lemma_feed_arg_run(m5, s, 5, n + 4);
    assert(seq![a[0]] + s.subrange(5, n + 4) =~= a);
    let m6 = DecoderModel { state: st, arg: a, total: 0, msg: Seq::empty() };
    assert(step(m6, s[n + 4]) == Step::Next(m6));
}

/// Decoding an encoded `SUB` frame gives back its subject, queue and sid,
/// after exactly the frame's bytes.
pub proof fn lemma_sub_round_trip(subject: Seq<u8>, queue: Option<Seq<u8>>, sid: Seq<u8>)
    requires
        is_token(subject),
        is_token(sid),
        queue is Some ==> is_token(queue->0),
        valid_utf8(subject),
        valid_utf8(sid),
        queue is Some ==> valid_utf8(queue->0),
        arg_line(subject, queue, sid).len() <= BUF_LEN,
    ensures
        feed(initial_model(), sub_frame(subject, queue, sid), 0) == Outcome::Done(
            Event::Sub { subject, sid, queue },
            sub_frame(subject, queue, sid).len(),
        ),
{
    let a = arg_line(subject, queue, sid);
    let f = sub_frame(subject, queue, sid);
    let n = a.len() as int;
    lemma_arg_line_bytes(subject, queue, sid);
    lemma_sub_args_tokens(subject, queue, sid);
    assert(f.subrange(0, n + 6) =~= seq![83u8, 85u8, 66u8] + seq![SPACE] + a + seq![CR, LF]);
    lemma_feed_command(seq![83u8, 85u8, 66u8], ParseState::OpSubArg, a, f);
    let m6 = DecoderModel { state: ParseState::OpSubArg, arg: a, total: 0, msg: Seq::empty() };
    assert(f[n + 5] == LF);
    assert(all_text(tokens(a)));
    assert(step(m6, f[n + 5]) == Step::Emit(Event::Sub { subject, sid, queue }));
}

proof fn lemma_digits_are_token(t: Seq<u8>)
    requires
        t.len() > 0,
        all_digits(t),
    ensures
        is_token(t),
{
    assert forall|k: int| 0 <= k < t.len() implies is_token_byte(#[trigger] t[k]) by {
        assert(48 <= t[k] <= 57);
    }
}

/// Runs the decoder over a `PUB` header: it fails with the size error, or waits
/// for the payload with the declared size.
proof fn lemma_feed_pub_header(subject: Seq<u8>, size_text: Seq<u8>, rest: Seq<u8>)
    requires
        is_token(subject),
        is_token(size_text),
        arg_line(subject, None, size_text).len() <= BUF_LEN,
    ensures
        feed(initial_model(), pub_header(subject, size_text) + rest, 0) == match declared_size(
            arg_line(subject, None, size_text),
        ) {
            Ok(n) => feed(
                DecoderModel {
                    state: ParseState::OpMsgPayload,
                    arg: arg_line(subject, None, size_text),
                    total: n,
                    msg: Seq::empty(),
                },
                pub_header(subject, size_text) + rest,
                pub_header(subject, size_text).len() as int,
            ),
            Err(c) => Outcome::Failed(c),
        },
{
    let a = arg_line(subject, None, size_text);
    let s = pub_header(subject, size_text) + rest;
    let n = a.len() as int;
    lemma_arg_line_bytes(subject, None, size_text);
    assert(s.subrange(0, n + 6) =~= seq![80u8, 85u8, 66u8] + seq![SPACE] + a + seq![CR, LF]);
    lemma_feed_command(seq![80u8, 85u8, 66u8], ParseState::OpPubArg, a, s);
    assert(s[n + 5] == LF);
}

/// Decoding an encoded `PUB` frame gives back its subject, size and payload
/// byte for byte, after exactly the frame's bytes.
pub proof fn lemma_pub_round_trip(subject: Seq<u8>, size_text: Seq<u8>, payload: Seq<u8>)
    requires
        is_token(subject),
        valid_utf8(subject),
        size_text.len() > 0,
        all_digits(size_text),
        digits_value(size_text) == payload.len(),
        0 < payload.len() <= MAX_PAYLOAD,
        arg_line(subject, None, size_text).len() <= BUF_LEN,
    ensures
        feed(initial_model(), pub_frame(subject, size_text, payload), 0) == Outcome::Done(
            Event::Pub { subject, size_buf: size_text, size: payload.len(), msg: payload },
            pub_frame(subject, size_text, payload).len(),
        ),
{
    let a = arg_line(subject, None, size_text);
    let h = pub_header(subject, size_text);
    let rest = payload + seq![CR, LF];
    let f = pub_frame(subject, size_text, payload);
    assert(f =~= h + rest);
    lemma_digits_are_token(size_text);
    lemma_sub_args_tokens(subject, None, size_text);
    lemma_feed_pub_header(subject, size_text, rest);
    let p = payload.len() as int;
    let hl = h.len() as int;
    let m7 = DecoderModel { state: ParseState::OpMsgPayload, arg: a, total: p as nat, msg: Seq::empty() };
    lemma_feed_payload_run(m7, f, hl, hl + p);
    assert(f.subrange(hl, hl + p) =~= payload);
    assert(Seq::<u8>::empty() + payload =~= payload);
    let m8 = DecoderModel { state: ParseState::OpMsgPayload, arg: a, total: p as nat, msg: payload };
    let m9 = DecoderModel { state: ParseState::OpMsgEnd, arg: a, total: p as nat, msg: payload };
    assert(f[hl + p] == CR);
    assert(f[hl + p + 1] == LF);
    assert(step(m8, f[hl + p]) == Step::Next(m9));
    assert(step(m9, f[hl + p + 1]) == Step::Emit(pub_event(m9)));
    assert(tokens(a) == seq![subject, size_text]);
    assert(declared_size(a) == Ok::<nat, i32>(p as nat));
    assert(feed(initial_model(), f, 0) == feed(m7, f, hl));
    assert(feed(m8, f, hl + p) == feed(m9, f, hl + p + 1));
    assert(f.len() == hl + p + 2);
}

/// A declared size of zero or above `MAX_PAYLOAD` is reported as a size error,
/// not as a malformed frame, whatever follows the header.
pub proof fn lemma_size_out_of_range(subject: Seq<u8>, size_text: Seq<u8>, rest: Seq<u8>)
    requires
        is_token(subject),
        valid_utf8(subject),
        size_text.len() > 0,
        all_digits(size_text),
        digits_value(size_text) == 0 || digits_value(size_text) > MAX_PAYLOAD,
        arg_line(subject, None, size_text).len() <= BUF_LEN,
    ensures
        feed(initial_model(), pub_header(subject, size_text) + rest, 0) == Outcome::Failed(
            ERROR_MESSAGE_SIZE_TOO_LARGE,
        ),
{
    lemma_digits_are_token(size_text);
    lemma_sub_args_tokens(subject, None, size_text);
    lemma_feed_pub_header(subject, size_text, rest);
}

proof fn lemma_decimal_token(n: nat)
    ensures
        is_token(decimal(n)),
        forall|k: int| 0 <= k < decimal(n).len() ==> 48 <= #[trigger] decimal(n)[k] <= 57,
    decreases n,
{
    if n >= 10 {
        lemma_decimal_token(n / 10);
        let d = decimal(n / 10);
        assert forall|k: int| 0 <= k < decimal(n).len() implies is_token_byte(#[trigger] decimal(n)[k])
            && 48 <= decimal(n)[k] <= 57 by {
            if k < d.len() {
                assert(decimal(n)[k] == d[k]);
            }
        }
    }
}

/// The frame that the client sends for a subscription decodes back to its
/// subject, queue and sid.
pub proof fn lemma_client_frame_decodes(subject: Seq<u8>, queue: Option<Seq<u8>>, sid: u64)
    requires
        is_token(subject),
        queue is Some ==> is_token(queue->0),
        valid_utf8(subject),
        queue is Some ==> valid_utf8(queue->0),
        arg_line(subject, queue, decimal(sid as nat)).len() <= BUF_LEN,
    ensures
        feed(initial_model(), sub_frame(subject, queue, decimal(sid as nat)), 0) == Outcome::Done(
            Event::Sub { subject, sid: decimal(sid as nat), queue },
            sub_frame(subject, queue, decimal(sid as nat)).len(),
        ),
{
    lemma_decimal_token(sid as nat);
    lemma_ascii_valid_utf8(decimal(sid as nat));
    lemma_sub_round_trip(subject, queue, decimal(sid as nat));
}

/// Successive calls of `Parser::parse` on the chunks, from the state `m`: each
/// call that completes no frame consumes its whole chunk, and the first frame
/// (or error) ends the run, its byte count taken from the start of the first chunk.
pub open spec fn feed_chunks(m: DecoderModel, chunks: Seq<Seq<u8>>) -> Outcome
    decreases chunks.len(),
{
    if chunks.len() == 0 {
        Outcome::Pending(m)
    } else {
        match feed(m, chunks[0], 0) {
            Outcome::Pending(m2) => shift(feed_chunks(m2, chunks.drop_first()), chunks[0].len()),
            o => o,
        }
    }
}

/// Any chunking of a stream decodes as the whole stream does in one call.
pub proof fn lemma_any_chunking(m: DecoderModel, chunks: Seq<Seq<u8>>)
    ensures
        feed_chunks(m, chunks) == feed(m, chunks.flatten(), 0),
    decreases chunks.len(),
{
    if chunks.len() > 0 {
        lemma_feed_chunks(m, chunks[0], chunks.drop_first().flatten());
        assert(chunks.flatten() == chunks[0] + chunks.drop_first().flatten());
        match feed(m, chunks[0], 0) {
            Outcome::Pending(m2) => {
                lemma_any_chunking(m2, chunks.drop_first());
            },
            _ => {},
        }
    } else {
        assert(feed(m, chunks.flatten(), 0) == Outcome::Pending(m));
    }
}

/// A `SUB` frame split into chunks in any way (byte by byte included) decodes,
/// over successive calls, to its subject, queue and sid, at the frame's last byte.
pub proof fn lemma_sub_any_chunking(
    subject: Seq<u8>,
    queue: Option<Seq<u8>>,
    sid: Seq<u8>,
    chunks: Seq<Seq<u8>>,
)
    requires
        is_token(subject),
        is_token(sid),
        queue is Some ==> is_token(queue->0),
        valid_utf8(subject),
        valid_utf8(sid),
        queue is Some ==> valid_utf8(queue->0),
        arg_line(subject, queue, sid).len() <= BUF_LEN,
        chunks.flatten() == sub_frame(subject, queue, sid),
    ensures
        feed_chunks(initial_model(), chunks) == Outcome::Done(
            Event::Sub { subject, sid, queue },
            sub_frame(subject, queue, sid).len(),
        ),
{
    lemma_any_chunking(initial_model(), chunks);
    lemma_sub_round_trip(subject, queue, sid);
}

/// A `PUB` frame split into chunks in any way (byte by byte included) decodes,
/// over successive calls, to its subject, size and payload, at the frame's last byte.
pub proof fn lemma_pub_any_chunking(
    subject: Seq<u8>,
    size_text: Seq<u8>,
    payload: Seq<u8>,
    chunks: Seq<Seq<u8>>,
)
    requires
        is_token(subject),
        valid_utf8(subject),
        size_text.len() > 0,
        all_digits(size_text),
        digits_value(size_text) == payload.len(),
        0 < payload.len() <= MAX_PAYLOAD,
        arg_line(subject, None, size_text).len() <= BUF_LEN,
        chunks.flatten() == pub_frame(subject, size_text, payload),
    ensures
        feed_chunks(initial_model(), chunks) == Outcome::Done(
            Event::Pub { subject, size_buf: size_text, size: payload.len(), msg: payload },
            pub_frame(subject, size_text, payload).len(),
        ),
{
    lemma_any_chunking(initial_model(), chunks);
    lemma_pub_round_trip(subject, size_text, payload);
}

} // verus!
