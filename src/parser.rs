//! Incremental decoder for the `SUB` and `PUB` frames of the text protocol.
use vstd::prelude::*;
use vstd::slice::{slice_subrange, slice_to_vec};
use vstd::utf8::{encode_utf8, valid_utf8};
use vstd::string::StringExecFns;
use crate::error::{NError, ERROR_MESSAGE_SIZE_TOO_LARGE, ERROR_PARSE};

verus! {

/// Capacity of the scratch buffer that holds the argument line and small payloads.
pub const BUF_LEN: usize = 512;

/// Largest payload size that a `PUB` frame may declare (1 MiB).
pub const MAX_PAYLOAD: usize = 1048576;

pub const CR: u8 = 13;

pub const LF: u8 = 10;

pub const SPACE: u8 = 32;

pub const TAB: u8 = 9;

pub open spec fn is_ws(b: u8) -> bool {
    b == SPACE || b == TAB
}

pub open spec fn is_digit(b: u8) -> bool {
    48 <= b <= 57
}

pub open spec fn all_digits(s: Seq<u8>) -> bool {
    forall|i: int| 0 <= i < s.len() ==> is_digit(#[trigger] s[i])
}

/// Decimal value of a sequence of digit bytes.
pub open spec fn digits_value(s: Seq<u8>) -> nat
    decreases s.len(),
{
    if s.len() == 0 {
        0
    } else {
        digits_value(s.drop_last()) * 10 + (s.last() - 48) as nat
    }
}

/// Splitting a prefix on whitespace: the finished tokens and the token still open.
pub open spec fn split_state(s: Seq<u8>) -> (Seq<Seq<u8>>, Seq<u8>)
    decreases s.len(),
{
    if s.len() == 0 {
        (Seq::empty(), Seq::empty())
    } else {
        let (done, cur) = split_state(s.drop_last());
        if is_ws(s.last()) {
            if cur.len() > 0 {
                (done.push(cur), Seq::empty())
            } else {
                (done, Seq::empty())
            }
        } else {
            (done, cur.push(s.last()))
        }
    }
}

/// The non-empty whitespace-delimited tokens of `s`, in order.
pub open spec fn tokens(s: Seq<u8>) -> Seq<Seq<u8>> {
    let (done, cur) = split_state(s);
    if cur.len() > 0 {
        done.push(cur)
    } else {
        done
    }
}

proof fn lemma_split_state_nonempty(s: Seq<u8>)
    ensures
        forall|k: int| 0 <= k < split_state(s).0.len() ==> #[trigger] split_state(s).0[k].len() > 0,
    decreases s.len(),
{
    if s.len() > 0 {
        lemma_split_state_nonempty(s.drop_last());
        let (done, cur) = split_state(s.drop_last());
        if is_ws(s.last()) && cur.len() > 0 {
            assert forall|k: int| 0 <= k < done.push(cur).len() implies #[trigger] done.push(cur)[k].len() > 0 by {
                if k < done.len() {
                    assert(done.push(cur)[k] == done[k]);
                }
            }
        }
    }
}

/// Every token is non-empty.
proof fn lemma_tokens_nonempty(s: Seq<u8>)
    ensures
        forall|k: int| 0 <= k < tokens(s).len() ==> #[trigger] tokens(s)[k].len() > 0,
{
    lemma_split_state_nonempty(s);
}

pub open spec fn views(v: Seq<Vec<u8>>) -> Seq<Seq<u8>> {
    v.map_values(|x: Vec<u8>| x@)
}

/// Splits `s` into its whitespace-delimited tokens.
fn split_tokens(s: &[u8]) -> (r: Vec<Vec<u8>>)
    ensures
        views(r@) == tokens(s@),
{
    let mut done: Vec<Vec<u8>> = Vec::new();
    let mut cur: Vec<u8> = Vec::new();
    let mut i: usize = 0;
    proof {
        assert(s@.subrange(0, 0) =~= Seq::<u8>::empty());
        assert(views(done@) =~= Seq::<Seq<u8>>::empty());
    }
    while i < s.len()
        invariant
            i <= s@.len(),
            (views(done@), cur@) == split_state(s@.subrange(0, i as int)),
        decreases s.len() - i,
    {
        let b = s[i];
        proof {
            let p = s@.subrange(0, i + 1);
            assert(p.drop_last() =~= s@.subrange(0, i as int));
            assert(p.last() == b);
        }
        if b == SPACE || b == TAB {
            if cur.len() > 0 {
                let ghost old_done = done@;
                let ghost old_cur = cur@;
                let c = cur;
                done.push(c);
                cur = Vec::new();
                proof {
                    assert(views(done@) =~= views(old_done).push(old_cur));
                    assert(cur@ =~= Seq::<u8>::empty());
                }
            } else {
                proof {
                    assert(cur@ =~= Seq::<u8>::empty());
                }
            }
        } else {
            cur.push(b);
        }
        i = i + 1;
    }
    proof {
        assert(s@.subrange(0, s@.len() as int) =~= s@);
    }
    if cur.len() > 0 {
        let ghost old_done = done@;
        let ghost old_cur = cur@;
        done.push(cur);
        proof {
            assert(views(done@) =~= views(old_done).push(old_cur));
        }
    }
    done
}

/// The decimal value of `s`, capped at `MAX_PAYLOAD + 1`, or `None` when `s` is
/// empty or holds a byte that is not a digit.
fn digits_capped(s: &[u8]) -> (r: Option<usize>)
    ensures
        r.is_none() <==> (s@.len() == 0 || !all_digits(s@)),
        r.is_some() ==> r.unwrap() as nat == if digits_value(s@) > MAX_PAYLOAD {
            MAX_PAYLOAD as nat + 1
        } else {
            digits_value(s@)
        },
{
    if s.len() == 0 {
        return None;
    }
    let mut acc: usize = 0;
    let mut i: usize = 0;
    proof {
        assert(s@.subrange(0, 0) =~= Seq::<u8>::empty());
    }
    while i < s.len()
        invariant
            i <= s@.len(),
            all_digits(s@.subrange(0, i as int)),
            acc as nat == if digits_value(s@.subrange(0, i as int)) > MAX_PAYLOAD {
                MAX_PAYLOAD as nat + 1
            } else {
                digits_value(s@.subrange(0, i as int))
            },
        decreases s.len() - i,
    {
        let b = s[i];
        if b < 48 || b > 57 {
            proof {
                assert(!is_digit(s@[i as int]));
            }
            return None;
        }
        let ghost p = s@.subrange(0, i + 1);
        let ghost v = digits_value(s@.subrange(0, i as int));
        proof {
            assert(p.drop_last() =~= s@.subrange(0, i as int));
            assert(digits_value(p) == v * 10 + (b - 48) as nat);
            assert forall|k: int| 0 <= k < p.len() implies is_digit(#[trigger] p[k]) by {
                if k < i {
                    assert(p[k] == s@.subrange(0, i as int)[k]);
                }
            }
        }
        let d: usize = (b - 48) as usize;
        if acc > MAX_PAYLOAD {
            proof {
                assert(v > MAX_PAYLOAD);
                assert(v * 10 + (b - 48) as nat > MAX_PAYLOAD) by (nonlinear_arith)
                    requires v > MAX_PAYLOAD;
            }
        } else {
            let n = acc * 10 + d;
            if n > MAX_PAYLOAD {
                acc = MAX_PAYLOAD + 1;
            } else {
                acc = n;
            }
        }
        i = i + 1;
    }
    proof {
        assert(s@.subrange(0, s@.len() as int) =~= s@);
    }
    Some(acc)
}


/// Relies on `std::str::from_utf8`: it succeeds exactly on valid UTF-8, and the
/// text it gives has the input's bytes.
#[verifier::external_body]
fn text_of(b: &[u8]) -> (r: Option<String>)
    ensures
        r is Some <==> valid_utf8(b@),
        r is Some ==> encode_utf8(r->0@) == b@,
{
    std::str::from_utf8(b).ok().map(str::to_owned)
}

/// Bytes below 0x80 are valid UTF-8.
pub proof fn lemma_ascii_valid_utf8(s: Seq<u8>)
    requires
        forall|k: int| 0 <= k < s.len() ==> #[trigger] s[k] < 128,
    ensures
        valid_utf8(s),
    decreases s.len(),
{
    if s.len() > 0 {
        let b = s[0];
        assert((b & 0x7f) as u32 <= 0x7f) by (bit_vector);
        let rest = s.subrange(1, s.len() as int);
        assert forall|k: int| 0 <= k < rest.len() implies #[trigger] rest[k] < 128 by {
            assert(rest[k] == s[k + 1]);
        }
        lemma_ascii_valid_utf8(rest);
    }
}

proof fn lemma_digits_text(s: Seq<u8>)
    requires
        all_digits(s),
    ensures
        valid_utf8(s),
{
    assert forall|k: int| 0 <= k < s.len() implies #[trigger] s[k] < 128 by {
        assert(is_digit(s[k]));
    }
    lemma_ascii_valid_utf8(s);
}

/// Index of the last blank or tab in `s`, or -1.
pub open spec fn last_blank(s: Seq<u8>) -> int
    decreases s.len(),
{
    if s.len() == 0 {
        -1
    } else if is_ws(s.last()) {
        s.len() - 1
    } else {
        last_blank(s.drop_last())
    }
}

/// What follows the last blank or tab of a `PUB` argument line, if there is one.
pub open spec fn size_field(arg: Seq<u8>) -> Option<Seq<u8>> {
    if last_blank(arg) < 0 {
        None
    } else {
        Some(arg.subrange(last_blank(arg) + 1, arg.len() as int))
    }
}

proof fn lemma_digits_value_prefix(s: Seq<u8>, i: int)
    requires
        0 <= i <= s.len(),
        all_digits(s),
    ensures
        digits_value(s.subrange(0, i)) <= digits_value(s),
    decreases s.len() - i,
{
    if i == s.len() {
        assert(s.subrange(0, i) =~= s);
    } else {
        lemma_digits_value_prefix(s, i + 1);
        assert(s.subrange(0, i + 1).drop_last() =~= s.subrange(0, i));
        assert(is_digit(s[i]));
    }
}

/// The decimal value of `s`, or `None` when `s` is empty, holds a byte that is
/// not a digit, or names a number above `usize::MAX`.
fn digits_exact(s: &[u8]) -> (r: Option<usize>)
    ensures
        r is Some <==> s@.len() > 0 && all_digits(s@) && digits_value(s@) <= usize::MAX,
        r is Some ==> r->0 as nat == digits_value(s@),
{
    if s.len() == 0 {
        return None;
    }
    let mut acc: usize = 0;
    let mut i: usize = 0;
    proof {
        assert(s@.subrange(0, 0) =~= Seq::<u8>::empty());
    }
    while i < s.len()
        invariant
            i <= s@.len(),
            all_digits(s@.subrange(0, i as int)),
            acc as nat == digits_value(s@.subrange(0, i as int)),
        decreases s.len() - i,
    {
        let b = s[i];
        if b < 48 || b > 57 {
            proof {
                assert(!is_digit(s@[i as int]));
            }
            return None;
        }
        let ghost p = s@.subrange(0, i + 1);
        proof {
            assert(p.drop_last() =~= s@.subrange(0, i as int));
            assert(digits_value(p) == acc * 10 + (b - 48) as nat);
            assert forall|k: int| 0 <= k < p.len() implies is_digit(#[trigger] p[k]) by {
                if k < i {
                    assert(p[k] == s@.subrange(0, i as int)[k]);
                }
            }
        }
        let d: usize = (b - 48) as usize;
        match acc.checked_mul(10) {
            None => {
                proof {
                    if all_digits(s@) {
                        lemma_digits_value_prefix(s@, i + 1);
                    }
                }
                return None;
            },
            Some(m) => match m.checked_add(d) {
                None => {
                    proof {
                        if all_digits(s@) {
                            lemma_digits_value_prefix(s@, i + 1);
                        }
                    }
                    return None;
                },
                Some(v) => {
                    acc = v;
                },
            },
        }
        i = i + 1;
    }
    proof {
        assert(s@.subrange(0, s@.len() as int) =~= s@);
    }
    Some(acc)
}

/// Progress through the grammar of one frame.
#[derive(Debug, Clone, Copy, PartialEq, Eq, Structural)]
pub enum ParseState {
    OpStart,
    OpP,
    OpPu,
    OpPub,
    OpPubSpace,
    OpPubArg,
    OpS,
    OpSu,
    OpSub,
    OpSubSpace,
    OpSubArg,
    OpMsgPayload,
    OpMsgEnd,
}

/// A decoded `SUB` frame.
#[derive(Debug, PartialEq)]
pub struct SubArg {
    pub subject: String,
    pub sid: String,
    pub queue: Option<String>,
}

/// A decoded `PUB` frame: its subject, the size as written and as a number, and
/// the payload.
#[derive(Debug, PartialEq)]
pub struct PubArg {
    pub subject: String,
    pub size_buf: String,
    pub size: usize,
    pub msg: Vec<u8>,
}

/// What one call of `Parser::parse` yields.
#[derive(Debug, PartialEq)]
pub enum ParseResult {
    NoMsg,
    Sub(SubArg),
    Pub(PubArg),
}

/// The abstract value of a decoded event.
pub enum Event {
    NoMsg,
    Sub { subject: Seq<u8>, sid: Seq<u8>, queue: Option<Seq<u8>> },
    Pub { subject: Seq<u8>, size_buf: Seq<u8>, size: nat, msg: Seq<u8> },
}

/// The UTF-8 bytes of an optional text.
pub open spec fn opt_bytes(o: Option<String>) -> Option<Seq<u8>> {
    match o {
        Some(v) => Some(encode_utf8(v@)),
        None => None,
    }
}

impl View for ParseResult {
    type V = Event;

    open spec fn view(&self) -> Event {
        match self {
            ParseResult::NoMsg => Event::NoMsg,
            ParseResult::Sub(a) => Event::Sub {
                subject: encode_utf8(a.subject@),
                sid: encode_utf8(a.sid@),
                queue: opt_bytes(a.queue),
            },
            ParseResult::Pub(a) => Event::Pub {
                subject: encode_utf8(a.subject@),
                size_buf: encode_utf8(a.size_buf@),
                size: a.size as nat,
                msg: a.msg@,
            },
        }
    }
}

/// The abstract state of the decoder: where it stands in the grammar, the
/// argument bytes read so far, the declared payload size and the payload read so far.
pub struct DecoderModel {
    pub state: ParseState,
    pub arg: Seq<u8>,
    pub total: nat,
    pub msg: Seq<u8>,
}

/// The result of one byte: a new state, a finished frame, or an error code.
pub enum Step {
    Next(DecoderModel),
    Emit(Event),
    Fail(i32),
}

/// The result of a chunk: all of it consumed with the frame still open, a frame
/// finished after the given number of bytes, or an error code.
pub enum Outcome {
    Pending(DecoderModel),
    Done(Event, nat),
    Failed(i32),
}

pub open spec fn initial_model() -> DecoderModel {
    DecoderModel { state: ParseState::OpStart, arg: Seq::empty(), total: 0, msg: Seq::empty() }
}

pub open spec fn with_state(m: DecoderModel, st: ParseState) -> DecoderModel {
    DecoderModel { state: st, arg: m.arg, total: m.total, msg: m.msg }
}

pub open spec fn is_letter(b: u8, upper: u8) -> bool {
    b == upper || b == upper + 32
}

/// Every field is valid UTF-8 text.
pub open spec fn all_text(t: Seq<Seq<u8>>) -> bool {
    forall|k: int| 0 <= k < t.len() ==> valid_utf8(#[trigger] t[k])
}

/// The event of a `SUB` argument line: subject and sid, or subject, queue and
/// sid, each of them UTF-8 text.
pub open spec fn sub_event(arg: Seq<u8>) -> Option<Event> {
    let t = tokens(arg);
    if !all_text(t) {
        None
    } else if t.len() == 2 {
        Some(Event::Sub { subject: t[0], sid: t[1], queue: None })
    } else if t.len() == 3 {
        Some(Event::Sub { subject: t[0], sid: t[2], queue: Some(t[1]) })
    } else {
        None
    }
}

/// The payload size declared by a `PUB` argument line (a UTF-8 subject and a
/// decimal size), or the error code.
pub open spec fn declared_size(arg: Seq<u8>) -> Result<nat, i32> {
    let t = tokens(arg);
    if t.len() != 2 || !all_digits(t[1]) || !valid_utf8(t[0]) {
        Err(ERROR_PARSE)
    } else if digits_value(t[1]) == 0 || digits_value(t[1]) > MAX_PAYLOAD {
        Err(ERROR_MESSAGE_SIZE_TOO_LARGE)
    } else {
        Ok(digits_value(t[1]))
    }
}

pub open spec fn pub_event(m: DecoderModel) -> Event {
    Event::Pub { subject: tokens(m.arg)[0], size_buf: tokens(m.arg)[1], size: m.total, msg: m.msg }
}

/// An argument byte: appended while the argument line fits the scratch buffer.
pub open spec fn arg_byte(m: DecoderModel, st: ParseState, b: u8) -> Step {
    if m.arg.len() >= BUF_LEN {
        Step::Fail(ERROR_PARSE)
    } else {
        Step::Next(DecoderModel { state: st, arg: m.arg.push(b), total: m.total, msg: m.msg })
    }
}

pub open spec fn pub_arg_byte(m: DecoderModel, b: u8) -> Step {
    if b == CR {
        Step::Next(with_state(m, ParseState::OpPubArg))
    } else if b == LF {
        match declared_size(m.arg) {
            Ok(n) => Step::Next(
                DecoderModel { state: ParseState::OpMsgPayload, arg: m.arg, total: n, msg: Seq::empty() },
            ),
            Err(c) => Step::Fail(c),
        }
    } else {
        arg_byte(m, ParseState::OpPubArg, b)
    }
}

pub open spec fn sub_arg_byte(m: DecoderModel, b: u8) -> Step {
    if b == CR {
        Step::Next(with_state(m, ParseState::OpSubArg))
    } else if b == LF {
        match sub_event(m.arg) {
            Some(e) => Step::Emit(e),
            None => Step::Fail(ERROR_PARSE),
        }
    } else {
        arg_byte(m, ParseState::OpSubArg, b)
    }
}

/// The decoder's transition on one byte.
pub open spec fn step(m: DecoderModel, b: u8) -> Step {
    match m.state {
        ParseState::OpStart => if is_letter(b, 80) {
            Step::Next(with_state(m, ParseState::OpP))
        } else if is_letter(b, 83) {
            Step::Next(with_state(m, ParseState::OpS))
        } else {
            Step::Fail(ERROR_PARSE)
        },
        ParseState::OpP => if is_letter(b, 85) {
            Step::Next(with_state(m, ParseState::OpPu))
        } else {
            Step::Fail(ERROR_PARSE)
        },
        ParseState::OpPu => if is_letter(b, 66) {
            Step::Next(with_state(m, ParseState::OpPub))
        } else {
            Step::Fail(ERROR_PARSE)
        },
        ParseState::OpPub => if is_ws(b) {
            Step::Next(with_state(m, ParseState::OpPubSpace))
        } else {
            Step::Fail(ERROR_PARSE)
        },
        ParseState::OpPubSpace => if is_ws(b) {
            Step::Next(m)
        } else {
            pub_arg_byte(m, b)
        },
        ParseState::OpPubArg => pub_arg_byte(m, b),
        ParseState::OpS => if is_letter(b, 85) {
            Step::Next(with_state(m, ParseState::OpSu))
        } else {
            Step::Fail(ERROR_PARSE)
        },
        ParseState::OpSu => if is_letter(b, 66) {
            Step::Next(with_state(m, ParseState::OpSub))
        } else {
            Step::Fail(ERROR_PARSE)
        },
        ParseState::OpSub => if is_ws(b) {
            Step::Next(with_state(m, ParseState::OpSubSpace))
        } else {
            Step::Fail(ERROR_PARSE)
        },
        ParseState::OpSubSpace => if is_ws(b) {
            Step::Next(m)
        } else {
            sub_arg_byte(m, b)
        },
        ParseState::OpSubArg => sub_arg_byte(m, b),
        ParseState::OpMsgPayload => if m.msg.len() < m.total {
            Step::Next(
                DecoderModel { state: m.state, arg: m.arg, total: m.total, msg: m.msg.push(b) },
            )
        } else if b == CR {
            Step::Next(with_state(m, ParseState::OpMsgEnd))
        } else {
            Step::Fail(ERROR_PARSE)
        },
        ParseState::OpMsgEnd => if is_ws(b) {
            Step::Next(m)
        } else if b == LF {
            Step::Emit(pub_event(m))
        } else {
            Step::Fail(ERROR_PARSE)
        },
    }
}

/// The decoder run over `s` from index `i` on: it stops at the first finished
/// frame or error.
pub open spec fn feed(m: DecoderModel, s: Seq<u8>, i: int) -> Outcome
    decreases s.len() - i,
{
    if i < 0 || i >= s.len() {
        Outcome::Pending(m)
    } else {
        match step(m, s[i]) {
            Step::Next(m2) => feed(m2, s, i + 1),
            Step::Emit(e) => Outcome::Done(e, (i + 1) as nat),
            Step::Fail(c) => Outcome::Failed(c),
        }
    }
}

pub open spec fn in_payload(st: ParseState) -> bool {
    st == ParseState::OpMsgPayload || st == ParseState::OpMsgEnd
}

pub open spec fn holds_arg(st: ParseState) -> bool {
    st == ParseState::OpPubArg || st == ParseState::OpSubArg || in_payload(st)
}

/// The protocol decoder. The argument line goes into a scratch buffer of
/// `BUF_LEN` bytes; a payload that does not fit after it goes into an overflow
/// buffer of its own, which lives until the frame ends.
pub struct Parser {
    state: ParseState,
    buf: Vec<u8>,
    arg_len: usize,
    msg_buf: Option<Vec<u8>>,
    msg_total_len: usize,
    msg_len: usize,
}

impl View for Parser {
    type V = DecoderModel;

    closed spec fn view(&self) -> DecoderModel {
        DecoderModel {
            state: self.state,
            arg: self.buf@.subrange(0, self.arg_len as int),
            total: self.msg_total_len as nat,
            msg: match self.msg_buf {
                Some(v) => v@,
                None => self.buf@.subrange(
                    self.arg_len as int,
                    self.arg_len + self.msg_len,
                ),
            },
        }
    }
}

impl Parser {
    /// The buffers agree with the grammar state: the argument line fits the
    /// scratch buffer, and a payload is in the overflow buffer exactly when it
    /// would not fit after the argument line.
    pub closed spec fn wf(&self) -> bool {
        &&& self.buf@.len() == BUF_LEN
        &&& self.arg_len <= BUF_LEN
        &&& !holds_arg(self.state) ==> self.arg_len == 0
        &&& !in_payload(self.state) ==> {
            &&& self.msg_len == 0
            &&& self.msg_buf is None
            &&& self.msg_total_len == 0
        }
        &&& in_payload(self.state) ==> {
            &&& self.msg_len <= self.msg_total_len
            &&& declared_size(self@.arg) == Ok::<nat, i32>(self.msg_total_len as nat)
            &&& self.msg_buf is Some <==> self.arg_len + self.msg_total_len > BUF_LEN
            &&& self.msg_buf is Some ==> self.msg_buf->0@.len() == self.msg_len
        }
        &&& self.state == ParseState::OpMsgEnd ==> self.msg_len == self.msg_total_len
    }

    pub fn new() -> (r: Parser)
        ensures
            r.wf(),
            r@ == initial_model(),
    {
        let p = Parser {
            state: ParseState::OpStart,
            buf: vec![0u8; BUF_LEN],
            arg_len: 0,
            msg_buf: None,
            msg_total_len: 0,
            msg_len: 0,
        };
        proof {
            assert(p@.arg =~= Seq::<u8>::empty());
            assert(p@.msg =~= Seq::<u8>::empty());
        }
        p
    }

    /// Returns the decoder to the start of a frame. A decoder that reported an
    /// error must be reset before it is fed again.
    pub fn reset(&mut self)
        requires
            old(self).wf(),
        ensures
            final(self).wf(),
            final(self)@ == initial_model(),
    {
        self.state = ParseState::OpStart;
        self.arg_len = 0;
        self.msg_buf = None;
        self.msg_total_len = 0;
        self.msg_len = 0;
        proof {
            assert(self@.arg =~= Seq::<u8>::empty());
            assert(self@.msg =~= Seq::<u8>::empty());
        }
    }

    fn add_arg(&mut self, b: u8) -> (r: Result<(), NError>)
        requires
            old(self).buf@.len() == BUF_LEN,
            old(self).arg_len <= BUF_LEN,
        ensures
            final(self).state == old(self).state,
            final(self).msg_buf == old(self).msg_buf,
            final(self).msg_len == old(self).msg_len,
            final(self).msg_total_len == old(self).msg_total_len,
            final(self).buf@.len() == BUF_LEN,
            old(self).arg_len >= BUF_LEN ==> r is Err && r->Err_0.error_code == ERROR_PARSE
                && final(self).arg_len == old(self).arg_len,
            old(self).arg_len < BUF_LEN ==> {
                &&& r is Ok
                &&& final(self).arg_len == old(self).arg_len + 1
                &&& final(self)@.arg == old(self)@.arg.push(b)
            },
    {
        if self.arg_len >= self.buf.len() {
            return Err(NError::new(ERROR_PARSE));
        }
        self.buf.set(self.arg_len, b);
        self.arg_len = self.arg_len + 1;
        proof {
            assert(self@.arg =~= old(self)@.arg.push(b));
        }
        Ok(())
    }

    fn add_msg(&mut self, b: u8)
        requires
            old(self).wf(),
            old(self).state == ParseState::OpMsgPayload,
            old(self).msg_len < old(self).msg_total_len,
        ensures
            final(self).wf(),
            final(self)@ == (DecoderModel {
                state: old(self)@.state,
                arg: old(self)@.arg,
                total: old(self)@.total,
                msg: old(self)@.msg.push(b),
            }),
    {
        let ghost old_arg = self@.arg;
        if self.msg_buf.is_some() {
            let mut v = self.msg_buf.take().unwrap();
            v.push(b);
            self.msg_buf = Some(v);
        } else {
            self.buf.set(self.arg_len + self.msg_len, b);
        }
        self.msg_len = self.msg_len + 1;
        proof {
            assert(self@.arg =~= old_arg);
            assert(self@.msg =~= old(self)@.msg.push(b));
        }
    }

    /// Decodes a `SUB` argument line. Fields that are not UTF-8 text are a
    /// parse error.
    pub fn process_sub(arg: &[u8]) -> (r: Result<ParseResult, NError>)
        ensures
            match sub_event(arg@) {
                Some(e) => r is Ok && r->Ok_0@ == e,
                None => r is Err && r->Err_0.error_code == ERROR_PARSE,
            },
    {
        let mut toks = split_tokens(arg);
        let ghost tv = toks@;
        let ghost t = tokens(arg@);
        proof {
            assert(views(tv).len() == tv.len());
        }
        if toks.len() != 2 && toks.len() != 3 {
            return Err(NError::new(ERROR_PARSE));
        }
        let three = toks.len() == 3;
        let sid_b = toks.pop().unwrap();
        let sid = text_of(sid_b.as_slice());
        let queue = if three {
            let q = toks.pop().unwrap();
            text_of(q.as_slice())
        } else {
            None
        };
        let subject_b = toks.pop().unwrap();
        let subject = text_of(subject_b.as_slice());
        proof {
            assert(views(tv)[0] == tv[0]@ && views(tv)[1] == tv[1]@);
            if three {
                assert(views(tv)[2] == tv[2]@);
            }
        }
        if subject.is_none() || sid.is_none() || (three && queue.is_none()) {
            return Err(NError::new(ERROR_PARSE));
        }
        proof {
            assert(all_text(t));
        }
        Ok(ParseResult::Sub(SubArg { subject: subject.unwrap(), sid: sid.unwrap(), queue }))
    }

    /// Reads the payload size written after the last blank or tab of a `PUB`
    /// argument line. A line without a blank or tab, or whose last field is
    /// empty, holds a non-digit or exceeds `usize::MAX`, is a parse error.
    pub fn process_payload_size(arg: &[u8]) -> (r: Result<usize, NError>)
        ensures
            r is Ok <==> ({
                &&& size_field(arg@) is Some
                &&& size_field(arg@)->0.len() > 0
                &&& all_digits(size_field(arg@)->0)
                &&& digits_value(size_field(arg@)->0) <= usize::MAX
            }),
            r is Ok ==> r->Ok_0 as nat == digits_value(size_field(arg@)->0),
            r is Err ==> r->Err_0.error_code == ERROR_PARSE,
    {
        let mut j: usize = arg.len();
        proof {
            assert(arg@.subrange(0, j as int) =~= arg@);
        }
        while j > 0 && arg[j - 1] != SPACE && arg[j - 1] != TAB
            invariant
                j <= arg@.len(),
                last_blank(arg@) == last_blank(arg@.subrange(0, j as int)),
            decreases j,
        {
            proof {
                assert(arg@.subrange(0, j as int).drop_last() =~= arg@.subrange(0, j - 1));
            }
            j = j - 1;
        }
        if j == 0 {
            return Err(NError::new(ERROR_PARSE));
        }
        proof {
            assert(arg@.subrange(0, j as int).last() == arg@[j - 1]);
        }
        match digits_exact(slice_subrange(arg, j, arg.len())) {
            None => Err(NError::new(ERROR_PARSE)),
            Some(n) => Ok(n),
        }
    }

    /// The declared size of a `PUB` argument line, checked against the grammar
    /// and the size bound.
    fn declared_size_of(arg: &[u8]) -> (r: Result<usize, NError>)
        ensures
            match declared_size(arg@) {
                Ok(n) => r is Ok && r->Ok_0 as nat == n,
                Err(c) => r is Err && r->Err_0.error_code == c,
            },
    {
        let toks = split_tokens(arg);
        proof {
            assert(views(toks@).len() == toks@.len());
        }
        if toks.len() != 2 {
            return Err(NError::new(ERROR_PARSE));
        }
        proof {
            assert(views(toks@)[0] == toks@[0]@);
            assert(views(toks@)[1] == toks@[1]@);
            lemma_tokens_nonempty(arg@);
            assert(tokens(arg@)[1].len() > 0);
        }
        match digits_capped(toks[1].as_slice()) {
            None => Err(NError::new(ERROR_PARSE)),
            Some(n) => {
                if text_of(toks[0].as_slice()).is_none() {
                    Err(NError::new(ERROR_PARSE))
                } else if n == 0 || n > MAX_PAYLOAD {
                    Err(NError::new(ERROR_MESSAGE_SIZE_TOO_LARGE))
                } else {
                    Ok(n)
                }
            },
        }
    }

    /// Builds the `PUB` event from its argument line, declared size and payload.
    pub fn process_payload(arg: &[u8], size: usize, msg: &[u8]) -> (r: Result<ParseResult, NError>)
        ensures
            tokens(arg@).len() == 2 && all_text(tokens(arg@)) ==> r is Ok && r->Ok_0@ == (
            Event::Pub {
                subject: tokens(arg@)[0],
                size_buf: tokens(arg@)[1],
                size: size as nat,
                msg: msg@,
            }),
            !(tokens(arg@).len() == 2 && all_text(tokens(arg@))) ==> r is Err && r->Err_0.error_code
                == ERROR_PARSE,
    {
        let mut toks = split_tokens(arg);
        let ghost tv = toks@;
        let ghost t = tokens(arg@);
        proof {
            assert(views(tv).len() == tv.len());
        }
        if toks.len() != 2 {
            return Err(NError::new(ERROR_PARSE));
        }
        let size_b = toks.pop().unwrap();
        let subject_b = toks.pop().unwrap();
        proof {
            assert(views(tv)[0] == tv[0]@ && views(tv)[1] == tv[1]@);
        }
        let size_buf = text_of(size_b.as_slice());
        let subject = text_of(subject_b.as_slice());
        if subject.is_none() || size_buf.is_none() {
            return Err(NError::new(ERROR_PARSE));
        }
        proof {
            assert(all_text(t));
        }
        Ok(
            ParseResult::Pub(
                PubArg {
                    subject: subject.unwrap(),
                    size_buf: size_buf.unwrap(),
                    size,
                    msg: slice_to_vec(msg),
                },
            ),
        )
    }

    /// Resets the frame after an event has been taken out.
    fn end_frame(&mut self)
        requires
            old(self).buf@.len() == BUF_LEN,
        ensures
            final(self).wf(),
            final(self)@ == initial_model(),
    {
        self.state = ParseState::OpStart;
        self.arg_len = 0;
        self.msg_buf = None;
        self.msg_total_len = 0;
        self.msg_len = 0;
        proof {
            assert(self@.arg =~= Seq::<u8>::empty());
            assert(self@.msg =~= Seq::<u8>::empty());
        }
    }

    fn on_pub_arg(&mut self, b: u8) -> (r: Result<Option<ParseResult>, NError>)
        requires
            old(self).wf(),
            old(self).state == ParseState::OpPubSpace || old(self).state == ParseState::OpPubArg,
        ensures
            final(self).wf(),
            match pub_arg_byte(old(self)@, b) {
                Step::Next(m) => r is Ok && r->Ok_0 is None && final(self)@ == m,
                Step::Emit(e) => false,
                Step::Fail(c) => r is Err && r->Err_0.error_code == c,
            },
    {
        if b == CR {
            self.state = ParseState::OpPubArg;
            Ok(None)
        } else if b == LF {
            let arg = slice_subrange(self.buf.as_slice(), 0, self.arg_len);
            match Parser::declared_size_of(arg) {
                Err(e) => Err(e),
                Ok(n) => {
                    self.state = ParseState::OpMsgPayload;
                    self.msg_total_len = n;
                    self.msg_len = 0;
                    if n + self.arg_len > BUF_LEN {
                        self.msg_buf = Some(Vec::with_capacity(n));
                    } else {
                        self.msg_buf = None;
                    }
                    proof {
                        assert(self@.msg =~= Seq::<u8>::empty());
                    }
                    Ok(None)
                },
            }
        } else {
            let ghost m = old(self)@;
            match self.add_arg(b) {
                Err(e) => Err(e),
                Ok(()) => {
                    self.state = ParseState::OpPubArg;
                    proof {
                        assert(self@.msg =~= m.msg);
                    }
                    Ok(None)
                },
            }
        }
    }

    fn on_sub_arg(&mut self, b: u8) -> (r: Result<Option<ParseResult>, NError>)
        requires
            old(self).wf(),
            old(self).state == ParseState::OpSubSpace || old(self).state == ParseState::OpSubArg,
        ensures
            final(self).wf(),
            match sub_arg_byte(old(self)@, b) {
                Step::Next(m) => r is Ok && r->Ok_0 is None && final(self)@ == m,
                Step::Emit(e) => r is Ok && r->Ok_0 is Some && r->Ok_0->0@ == e
                    && final(self)@ == initial_model(),
                Step::Fail(c) => r is Err && r->Err_0.error_code == c,
            },
    {
        if b == CR {
            self.state = ParseState::OpSubArg;
            Ok(None)
        } else if b == LF {
            let arg = slice_subrange(self.buf.as_slice(), 0, self.arg_len);
            match Parser::process_sub(arg) {
                Err(e) => Err(e),
                Ok(res) => {
                    self.end_frame();
                    Ok(Some(res))
                },
            }
        } else {
            let ghost m = old(self)@;
            match self.add_arg(b) {
                Err(e) => Err(e),
                Ok(()) => {
                    self.state = ParseState::OpSubArg;
                    proof {
                        assert(self@.msg =~= m.msg);
                    }
                    Ok(None)
                },
            }
        }
    }

    fn on_payload_end(&mut self) -> (r: ParseResult)
        requires
            old(self).wf(),
            old(self).state == ParseState::OpMsgEnd,
        ensures
            final(self).wf(),
            final(self)@ == initial_model(),
            r@ == pub_event(old(self)@),
    {
        let arg = slice_subrange(self.buf.as_slice(), 0, self.arg_len);
        let msg = match &self.msg_buf {
            Some(v) => slice_to_vec(v.as_slice()),
            None => slice_to_vec(
                slice_subrange(self.buf.as_slice(), self.arg_len, self.arg_len + self.msg_len),
            ),
        };
        proof {
            lemma_digits_text(tokens(arg@)[1]);
            assert(all_text(tokens(arg@)));
        }
        let res = Parser::process_payload(arg, self.msg_total_len, msg.as_slice());
        self.end_frame();
        res.unwrap()
    }

    fn step_byte(&mut self, b: u8) -> (r: Result<Option<ParseResult>, NError>)
        requires
            old(self).wf(),
        ensures
            final(self).wf(),
            match step(old(self)@, b) {
                Step::Next(m) => r is Ok && r->Ok_0 is None && final(self)@ == m,
                Step::Emit(e) => r is Ok && r->Ok_0 is Some && r->Ok_0->0@ == e
                    && final(self)@ == initial_model(),
                Step::Fail(c) => r is Err && r->Err_0.error_code == c,
            },
    {
        match self.state {
            ParseState::OpStart => {
                if b == 80 || b == 112 {
                    self.state = ParseState::OpP;
                } else if b == 83 || b == 115 {
                    self.state = ParseState::OpS;
                } else {
                    return Err(NError::new(ERROR_PARSE));
                }
            },
            ParseState::OpP => {
                if b == 85 || b == 117 {
                    self.state = ParseState::OpPu;
                } else {
                    return Err(NError::new(ERROR_PARSE));
                }
            },
            ParseState::OpPu => {
                if b == 66 || b == 98 {
                    self.state = ParseState::OpPub;
                } else {
                    return Err(NError::new(ERROR_PARSE));
                }
            },
            ParseState::OpPub => {
                if b == SPACE || b == TAB {
                    self.state = ParseState::OpPubSpace;
                } else {
                    return Err(NError::new(ERROR_PARSE));
                }
            },
            ParseState::OpPubSpace => {
                if b != SPACE && b != TAB {
                    return self.on_pub_arg(b);
                }
            },
            ParseState::OpPubArg => {
                return self.on_pub_arg(b);
            },
            ParseState::OpS => {
                if b == 85 || b == 117 {
                    self.state = ParseState::OpSu;
                } else {
                    return Err(NError::new(ERROR_PARSE));
                }
            },
            ParseState::OpSu => {
                if b == 66 || b == 98 {
                    self.state = ParseState::OpSub;
                } else {
                    return Err(NError::new(ERROR_PARSE));
                }
            },
            ParseState::OpSub => {
                if b == SPACE || b == TAB {
                    self.state = ParseState::OpSubSpace;
                } else {
                    return Err(NError::new(ERROR_PARSE));
                }
            },
            ParseState::OpSubSpace => {
                if b != SPACE && b != TAB {
                    return self.on_sub_arg(b);
                }
            },
            ParseState::OpSubArg => {
                return self.on_sub_arg(b);
            },
            ParseState::OpMsgPayload => {
                if self.msg_len < self.msg_total_len {
                    self.add_msg(b);
                } else if b == CR {
                    self.state = ParseState::OpMsgEnd;
                } else {
                    return Err(NError::new(ERROR_PARSE));
                }
            },
            ParseState::OpMsgEnd => {
                if b == LF {
                    return Ok(Some(self.on_payload_end()));
                } else if b != SPACE && b != TAB {
                    return Err(NError::new(ERROR_PARSE));
                }
            },
        }
        Ok(None)
    }

    /// Feeds the next chunk of the stream to the decoder. It returns the first
    /// frame that the chunk completes with the number of bytes consumed up to
    /// its end (the caller resumes from there), or `NoMsg` with the whole chunk
    /// consumed. After an error the decoder must be `reset` before reuse.
    pub fn parse(&mut self, buf: &[u8]) -> (r: Result<(ParseResult, usize), NError>)
        requires
            old(self).wf(),
        ensures
            final(self).wf(),
            match feed(old(self)@, buf@, 0) {
                Outcome::Pending(m) => r is Ok && r->Ok_0.0 is NoMsg && r->Ok_0.1 == buf@.len()
                    && final(self)@ == m,
                Outcome::Done(e, n) => r is Ok && r->Ok_0.0@ == e && r->Ok_0.1 as nat == n
                    && final(self)@ == initial_model(),
                Outcome::Failed(c) => r is Err && r->Err_0.error_code == c,
            },
    {
        let mut i: usize = 0;
        while i < buf.len()
            invariant
                self.wf(),
                i <= buf@.len(),
                feed(old(self)@, buf@, 0) == feed(self@, buf@, i as int),
            decreases buf.len() - i,
        {
            match self.step_byte(buf[i]) {
                Err(e) => {
                    return Err(e);
                },
                Ok(Some(res)) => {
                    return Ok((res, i + 1));
                },
                Ok(None) => {},
            }
            i = i + 1;
        }
        Ok((ParseResult::NoMsg, buf.len()))
    }
}

} // verus!
