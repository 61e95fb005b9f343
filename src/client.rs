//! The client's connection manager and subscription registry. The transport
//! itself is driven by the caller: these functions decide, from the lines read
//! and the outcome of each attempt, what is sent next and what state is kept.
use vstd::prelude::*;
use vstd::string::{StrSliceExecFns, StringExecFns, StringSliceAdditionalSpecFns};
use std::collections::HashMap;
use crate::errors::{ErrorKind, NatsClientError};
use crate::laws::{is_token_byte, sub_frame};
use crate::parser::{CR, LF, SPACE, TAB};

verus! {

broadcast use vstd::std_specs::hash::group_hash_axioms;

pub const DEFAULT_PORT: u16 = 4222;

/// How many times an operation is attempted before its last failure is returned.
pub const RETRIES_MAX: u32 = 5;

/// Pause after each full round over the candidate servers.
pub const CIRCUIT_BREAKER_WAIT_BETWEEN_ROUNDS_MS: u64 = 250;

/// Number of full rounds over the candidate servers before giving up.
pub const CIRCUIT_BREAKER_ROUNDS_BEFORE_BREAKING: u32 = 4;

/// A handle on an active subscription.
#[derive(Debug, Copy, Clone, PartialEq, Eq, Structural)]
pub struct Channel {
    pub sid: u64,
}

/// A candidate broker.
#[derive(Debug)]
pub struct ServerInfo {
    pub host: String,
    pub port: u16,
}

impl View for ServerInfo {
    type V = (Seq<char>, u16);

    open spec fn view(&self) -> (Seq<char>, u16) {
        (self.host@, self.port)
    }
}

/// A subscription as registered: its subject and optional queue group.
#[derive(Debug)]
pub struct Subscription {
    pub subject: String,
    pub queue: Option<String>,
}

pub open spec fn opt_string_view(o: Option<String>) -> Option<Seq<char>> {
    match o {
        Some(s) => Some(s@),
        None => None,
    }
}

impl View for Subscription {
    type V = (Seq<char>, Option<Seq<char>>);

    open spec fn view(&self) -> (Seq<char>, Option<Seq<char>>) {
        (self.subject@, opt_string_view(self.queue))
    }
}

/// Whether `url::Url::parse` accepts the text.
pub uninterp spec fn url_accepts(uri: Seq<char>) -> bool;

/// The scheme of the URL that `url::Url::parse` makes of the text.
pub uninterp spec fn url_scheme(uri: Seq<char>) -> Seq<char>;

/// The host of the URL that `url::Url::parse` makes of the text.
pub uninterp spec fn url_host(uri: Seq<char>) -> Option<Seq<char>>;

/// The explicit port of the URL that `url::Url::parse` makes of the text.
pub uninterp spec fn url_port(uri: Seq<char>) -> Option<u16>;

/// Relies on `url::Url::parse`, and on `Url::scheme`, `Url::host_str` and
/// `Url::port` of the URL it returns: each depends on the text alone.
#[verifier::external_body]
fn parse_url(uri: &str) -> (r: Result<(String, Option<String>, Option<u16>), url::ParseError>)
    ensures
        r is Ok <==> url_accepts(uri@),
        r is Ok ==> {
            &&& r->Ok_0.0@ == url_scheme(uri@)
            &&& opt_string_view(r->Ok_0.1) == url_host(uri@)
            &&& r->Ok_0.2 == url_port(uri@)
        },
{
    let u = url::Url::parse(uri)?;
    Ok((u.scheme().to_string(), u.host_str().map(str::to_owned), u.port()))
}

/// The endpoint that a broker URI names, or the kind of configuration error.
pub open spec fn endpoint_of(uri: Seq<char>) -> Result<(Seq<char>, u16), ErrorKind> {
    if !url_accepts(uri) {
        Err(ErrorKind::InvalidClientConfig)
    } else if url_scheme(uri) != "nats"@ {
        Err(ErrorKind::InvalidSchemeError)
    } else {
        match url_host(uri) {
            None => Err(ErrorKind::InvalidClientConfig),
            Some(h) => Ok(
                (
                    h,
                    match url_port(uri) {
                        Some(p) => p,
                        None => DEFAULT_PORT,
                    },
                ),
            ),
        }
    }
}

/// The endpoints of a list of URIs, or the error of the first that fails.
pub open spec fn endpoints_of(uris: Seq<Seq<char>>) -> Result<Seq<(Seq<char>, u16)>, ErrorKind>
    decreases uris.len(),
{
    if uris.len() == 0 {
        Ok(Seq::empty())
    } else {
        match endpoints_of(uris.drop_last()) {
            Err(k) => Err(k),
            Ok(v) => match endpoint_of(uris.last()) {
                Err(k) => Err(k),
                Ok(e) => Ok(v.push(e)),
            },
        }
    }
}

pub open spec fn server_views(v: Seq<ServerInfo>) -> Seq<(Seq<char>, u16)> {
    v.map_values(|s: ServerInfo| s@)
}

pub open spec fn string_views(v: Seq<String>) -> Seq<Seq<char>> {
    v.map_values(|s: String| s@)
}

/// A parsed broker URI of the `nats` scheme: its host and explicit port, if any.
#[derive(Debug)]
pub struct NatsUri {
    pub host: Option<String>,
    pub port: Option<u16>,
}

/// Parses one broker URI; it fails only when the text is not a URL or its
/// scheme is not `nats`.
pub fn parse_nats_uri(uri: &str) -> (r: Result<NatsUri, NatsClientError>)
    ensures
        !url_accepts(uri@) ==> r is Err && r->Err_0.kind == ErrorKind::InvalidClientConfig,
        url_accepts(uri@) && url_scheme(uri@) != "nats"@ ==> r is Err && r->Err_0.kind
            == ErrorKind::InvalidSchemeError && r->Err_0.description == "Unsupproted scheme",
        url_accepts(uri@) && url_scheme(uri@) == "nats"@ ==> r is Ok && opt_string_view(
            r->Ok_0.host,
        ) == url_host(uri@) && r->Ok_0.port == url_port(uri@),
{
    match parse_url(uri) {
        Err(e) => Err(NatsClientError::from_url_error(e)),
        Ok((scheme, host, port)) => {
            let nats = String::from_str("nats");
            if scheme != nats {
                Err(NatsClientError::new(ErrorKind::InvalidSchemeError, "Unsupproted scheme"))
            } else {
                Ok(NatsUri { host, port })
            }
        },
    }
}

/// The endpoint of a parsed URI: a missing host is a configuration error,
/// and the port defaults to `DEFAULT_PORT`.
fn endpoint_from(uri: NatsUri) -> (r: Result<ServerInfo, NatsClientError>)
    ensures
        uri.host is None ==> r is Err && r->Err_0.kind == ErrorKind::InvalidClientConfig
            && r->Err_0.description == "Missing host",
        uri.host is Some ==> r is Ok && r->Ok_0@ == (
            uri.host->0@,
            match uri.port {
                Some(p) => p,
                None => DEFAULT_PORT,
            },
        ),
{
    match uri.host {
        None => Err(NatsClientError::new(ErrorKind::InvalidClientConfig, "Missing host")),
        Some(host) => {
            let port = match uri.port {
                Some(p) => p,
                None => DEFAULT_PORT,
            };
            Ok(ServerInfo { host, port })
        },
    }
}

/// Relies on `rand::seq::SliceRandom::shuffle` with `rand::thread_rng`: it only
/// swaps elements, so the same endpoints remain, in an order left to chance.
#[verifier::external_body]
fn shuffle_servers(v: &mut Vec<ServerInfo>)
    ensures
        server_views(final(v)@).to_multiset() == server_views(old(v)@).to_multiset(),
{
    rand::seq::SliceRandom::shuffle(v.as_mut_slice(), &mut rand::thread_rng());
}

/// Broker URIs handed to `Client::new`.
pub trait ToStringVec: Sized {
    spec fn uri_strings(&self) -> Seq<Seq<char>>;

    fn to_string_vec(self) -> (r: Vec<String>)
        ensures
            string_views(r@) == self.uri_strings(),
    ;
}

impl<'a> ToStringVec for &'a str {
    open spec fn uri_strings(&self) -> Seq<Seq<char>> {
        seq![(*self)@]
    }

    fn to_string_vec(self) -> (r: Vec<String>) {
        let v = vec![String::from_str(self)];
        proof {
            assert(string_views(v@) =~= seq![self@]);
        }
        v
    }
}

impl ToStringVec for Vec<String> {
    open spec fn uri_strings(&self) -> Seq<Seq<char>> {
        string_views(self@)
    }

    fn to_string_vec(self) -> (r: Vec<String>) {
        self
    }
}

/// The connection manager's state: the candidate brokers in a randomized
/// order, the one to try next, the next subscription id and the registry of
/// active subscriptions.
#[derive(Debug)]
pub struct Client {
    servers_info: Vec<ServerInfo>,
    server_idx: usize,
    sid: u64,
    subscriptions: HashMap<u64, Subscription>,
}

/// No whitespace or line break in the bytes.
pub open spec fn no_space(b: Seq<u8>) -> bool {
    forall|k: int| 0 <= k < b.len() ==> is_token_byte(#[trigger] b[k])
}

/// The decimal digits of `n`.
pub open spec fn decimal(n: nat) -> Seq<u8>
    decreases n,
{
    if n < 10 {
        seq![(48 + n) as u8]
    } else {
        decimal(n / 10).push((48 + n % 10) as u8)
    }
}

fn push_decimal(n: u64, out: &mut Vec<u8>)
    ensures
        final(out)@ == old(out)@ + decimal(n as nat),
    decreases n,
{
    if n >= 10 {
        push_decimal(n / 10, out);
    }
    let ghost mid = out@;
    out.push(48 + (n % 10) as u8);
    proof {
        if n < 10 {
            assert(mid =~= old(out)@);
        }
        assert(out@ =~= old(out)@ + decimal(n as nat));
    }
}

fn check_space(name: &str, errmsg: &'static str) -> (r: Result<(), NatsClientError>)
    ensures
        no_space(name.spec_bytes()) ==> r is Ok,
        !no_space(name.spec_bytes()) ==> r is Err && r->Err_0.kind == ErrorKind::ClientProtocolError
            && r->Err_0.description == errmsg,
{
    let b = name.as_bytes();
    let mut i: usize = 0;
    while i < b.len()
        invariant
            i <= b@.len(),
            b@ == name.spec_bytes(),
            forall|k: int| 0 <= k < i ==> is_token_byte(#[trigger] b@[k]),
        decreases b.len() - i,
    {
        let c = b[i];
        if c == SPACE || c == TAB || c == CR || c == LF {
            return Err(NatsClientError::new(ErrorKind::ClientProtocolError, errmsg));
        }
        i = i + 1;
    }
    Ok(())
}

pub fn check_subject(subject: &str) -> (r: Result<(), NatsClientError>)
    ensures
        no_space(subject.spec_bytes()) ==> r is Ok,
        !no_space(subject.spec_bytes()) ==> r is Err && r->Err_0.kind
            == ErrorKind::ClientProtocolError && r->Err_0.description
            == "Subject can't contain spaces",
{
    check_space(subject, "Subject can't contain spaces")
}

pub fn check_inbox(inbox: &str) -> (r: Result<(), NatsClientError>)
    ensures
        no_space(inbox.spec_bytes()) ==> r is Ok,
        !no_space(inbox.spec_bytes()) ==> r is Err && r->Err_0.kind == ErrorKind::ClientProtocolError
            && r->Err_0.description == "Inbox name can't contain spaces",
{
    check_space(inbox, "Inbox name can't contain spaces")
}

pub fn check_queue(queue: &str) -> (r: Result<(), NatsClientError>)
    ensures
        no_space(queue.spec_bytes()) ==> r is Ok,
        !no_space(queue.spec_bytes()) ==> r is Err && r->Err_0.kind == ErrorKind::ClientProtocolError
            && r->Err_0.description == "Queue name can't contain spaces",
{
    check_space(queue, "Queue name can't contain spaces")
}

pub open spec fn opt_str_bytes(q: Option<&str>) -> Option<Seq<u8>> {
    match q {
        Some(s) => Some(s.spec_bytes()),
        None => None,
    }
}

pub open spec fn opt_str_view(q: Option<&str>) -> Option<Seq<char>> {
    match q {
        Some(s) => Some(s@),
        None => None,
    }
}

/// Builds `SUB <subject> [<queue>] <sid>\r\n`.
pub fn sub_command(subject: &str, queue: Option<&str>, sid: u64) -> (r: Vec<u8>)
    ensures
        r@ == sub_frame(subject.spec_bytes(), opt_str_bytes(queue), decimal(sid as nat)),
{
    let mut out: Vec<u8> = vec![83u8, 85u8, 66u8, SPACE];
    let sb = subject.as_bytes();
    let ghost start = out@;
    let mut i: usize = 0;
    while i < sb.len()
        invariant
            i <= sb@.len(),
            out@ == start + sb@.subrange(0, i as int),
        decreases sb.len() - i,
    {
        out.push(sb[i]);
        proof {
            assert(sb@.subrange(0, i + 1) =~= sb@.subrange(0, i as int).push(sb@[i as int]));
        }
        i = i + 1;
    }
    proof {
        assert(sb@.subrange(0, sb@.len() as int) =~= sb@);
    }
    out.push(SPACE);
    match queue {
        Some(q) => {
            let qb = q.as_bytes();
            let ghost mid = out@;
            let mut j: usize = 0;
            while j < qb.len()
                invariant
                    j <= qb@.len(),
                    out@ == mid + qb@.subrange(0, j as int),
                decreases qb.len() - j,
            {
                out.push(qb[j]);
                proof {
                    assert(qb@.subrange(0, j + 1) =~= qb@.subrange(0, j as int).push(qb@[j as int]));
                }
                j = j + 1;
            }
            proof {
                assert(qb@.subrange(0, qb@.len() as int) =~= qb@);
            }
            out.push(SPACE);
        },
        None => {},
    }
    push_decimal(sid, &mut out);
    out.push(CR);
    out.push(LF);
    proof {
        assert(out@ =~= sub_frame(subject.spec_bytes(), opt_str_bytes(queue), decimal(sid as nat)));
    }
    out
}

/// Where a connection attempt stands: the round over the candidates, how many
/// candidates failed in this round, how many there are, and the time paused so far.
#[derive(Debug, Clone, Copy, PartialEq, Eq, Structural)]
pub struct ConnectProgress {
    pub round: u32,
    pub tried: usize,
    pub servers: usize,
    pub paused_ms: u64,
}

/// What the connection manager does next.
#[derive(Debug)]
pub enum ConnectAction {
    /// Attempt the candidate at this index.
    Try(usize),
    /// Pause this many milliseconds, then ask again.
    Pause(u64),
    /// Every candidate failed in every round.
    GiveUp(NatsClientError),
}

pub open spec fn progress_wf(p: ConnectProgress) -> bool {
    &&& p.servers >= 1
    &&& p.tried < p.servers
    &&& p.round <= CIRCUIT_BREAKER_ROUNDS_BEFORE_BREAKING
    &&& p.paused_ms == p.round * CIRCUIT_BREAKER_WAIT_BETWEEN_ROUNDS_MS
    &&& p.round == CIRCUIT_BREAKER_ROUNDS_BEFORE_BREAKING ==> p.tried == 0
}

pub open spec fn start_progress(servers: usize) -> ConnectProgress {
    ConnectProgress { round: 0, tried: 0, servers, paused_ms: 0 }
}

/// The progress after one more candidate failed: a round ends when every
/// candidate has failed in it, and is followed by a pause.
pub open spec fn after_failure(p: ConnectProgress) -> ConnectProgress {
    if p.tried + 1 < p.servers {
        ConnectProgress { round: p.round, tried: (p.tried + 1) as usize, servers: p.servers, paused_ms: p.paused_ms }
    } else {
        ConnectProgress {
            round: (p.round + 1) as u32,
            tried: 0,
            servers: p.servers,
            paused_ms: (p.paused_ms + CIRCUIT_BREAKER_WAIT_BETWEEN_ROUNDS_MS) as u64,
        }
    }
}

/// A subscription that has been validated and given the next sid, but not
/// yet acknowledged: `frame` is what goes to the broker.
#[derive(Debug)]
pub struct SubscribeRequest {
    pub sid: u64,
    pub subject: String,
    pub queue: Option<String>,
    pub frame: Vec<u8>,
}

impl Client {
    pub closed spec fn wf(&self) -> bool {
        &&& self.servers_info@.len() >= 1
        &&& self.server_idx < self.servers_info@.len()
        &&& self.subscriptions@.dom().finite()
    }

    /// The candidate endpoints, in the order in which they are tried.
    pub closed spec fn endpoints(&self) -> Seq<(Seq<char>, u16)> {
        server_views(self.servers_info@)
    }

    pub closed spec fn current(&self) -> int {
        self.server_idx as int
    }

    pub closed spec fn next_sid_spec(&self) -> u64 {
        self.sid
    }

    pub closed spec fn registry(&self) -> Map<u64, Subscription> {
        self.subscriptions@
    }

    pub fn new<T: ToStringVec>(uris: T) -> (r: Result<Client, NatsClientError>)
        ensures
            Client::from_uris_result(uris.uri_strings(), r),
    {
        Client::from_uris(uris.to_string_vec())
    }

    /// What building a client from these URIs yields: the error of the first
    /// URI that fails, a configuration error for an empty list, and otherwise
    /// a client over exactly these endpoints, in some order, starting with the
    /// first of them, sid 1 and no subscription.
    pub open spec fn from_uris_result(uris: Seq<Seq<char>>, r: Result<Client, NatsClientError>) -> bool {
        match endpoints_of(uris) {
            Err(k) => r is Err && r->Err_0.kind == k,
            Ok(v) => if v.len() == 0 {
                r is Err && r->Err_0.kind == ErrorKind::InvalidClientConfig
            } else {
                &&& r is Ok
                &&& r->Ok_0.wf()
                &&& r->Ok_0.endpoints().to_multiset() == v.to_multiset()
                &&& r->Ok_0.current() == 0
                &&& r->Ok_0.next_sid_spec() == 1
                &&& r->Ok_0.registry() == Map::<u64, Subscription>::empty()
            },
        }
    }

    pub fn from_uris(uris: Vec<String>) -> (r: Result<Client, NatsClientError>)
        ensures
            Client::from_uris_result(string_views(uris@), r),
    {
        let mut servers: Vec<ServerInfo> = Vec::new();
        let mut i: usize = 0;
        proof {
            assert(string_views(uris@).subrange(0, 0) =~= Seq::<Seq<char>>::empty());
            assert(server_views(servers@) =~= Seq::<(Seq<char>, u16)>::empty());
        }
        while i < uris.len()
            invariant
                i <= uris@.len(),
                endpoints_of(string_views(uris@).subrange(0, i as int)) == Ok::<
                    Seq<(Seq<char>, u16)>,
                    ErrorKind,
                >(server_views(servers@)),
            decreases uris.len() - i,
        {
            let ghost pre = string_views(uris@).subrange(0, i as int);
            let ghost cur = string_views(uris@).subrange(0, i + 1);
            proof {
                assert(cur.drop_last() =~= pre);
                assert(cur.last() == uris@[i as int]@);
            }
            let parsed = match parse_nats_uri(uris[i].as_str()) {
                Err(e) => {
                    proof {
                        lemma_endpoints_error_extends(string_views(uris@), i as int + 1);
                    }
                    return Err(e);
                },
                Ok(u) => endpoint_from(u),
            };
            match parsed {
                Err(e) => {
                    proof {
                        lemma_endpoints_error_extends(string_views(uris@), i as int + 1);
                    }
                    return Err(e);
                },
                Ok(s) => {
                    let ghost before = servers@;
                    servers.push(s);
                    proof {
                        assert(server_views(servers@) =~= server_views(before).push(s@));
                    }
                },
            }
            i = i + 1;
        }
        proof {
            assert(string_views(uris@).subrange(0, uris@.len() as int) =~= string_views(uris@));
        }
        proof {
            assert(server_views(servers@).len() == servers@.len());
        }
        if servers.len() == 0 {
            return Err(NatsClientError::new(ErrorKind::InvalidClientConfig, "No server given"));
        }
        let ghost unshuffled = servers@;
        shuffle_servers(&mut servers);
        proof {
            server_views(unshuffled).to_multiset_ensures();
            server_views(servers@).to_multiset_ensures();
            assert(server_views(servers@).len() == servers@.len());
            assert(server_views(unshuffled).len() == unshuffled.len());
        }
        let c = Client { servers_info: servers, server_idx: 0, sid: 1, subscriptions: HashMap::new() };
        proof {
            server_views(c.servers_info@).to_multiset_ensures();
            assert(c.endpoints().len() == c.servers_info@.len());
            assert(c.registry() == Map::<u64, Subscription>::empty());
        }
        Ok(c)
    }

    /// The candidate endpoints, in the order in which they are tried.
    pub fn servers(&self) -> (r: &Vec<ServerInfo>)
        ensures
            server_views(r@) == self.endpoints(),
    {
        &self.servers_info
    }

    /// Index of the candidate that the next connection attempt goes to.
    pub fn server_index(&self) -> (r: usize)
        ensures
            r == self.current(),
    {
        self.server_idx
    }

    /// The sid that the next subscription will get.
    pub fn next_sid(&self) -> (r: u64)
        ensures
            r == self.next_sid_spec(),
    {
        self.sid
    }

    /// First half of a subscription: validates the subject and queue (no
    /// whitespace) and builds the `SUB` frame with the next sid. Nothing is
    /// committed yet.
    pub fn prepare_subscribe(&self, subject: &str, queue: Option<&str>) -> (r: Result<
        SubscribeRequest,
        NatsClientError,
    >)
        ensures
            !no_space(subject.spec_bytes()) ==> r is Err && r->Err_0.kind
                == ErrorKind::ClientProtocolError && r->Err_0.description
                == "Subject can't contain spaces",
            no_space(subject.spec_bytes()) && queue is Some && !no_space(queue->0.spec_bytes())
                ==> r is Err && r->Err_0.kind == ErrorKind::ClientProtocolError
                && r->Err_0.description == "Queue name can't contain spaces",
            no_space(subject.spec_bytes()) && (queue is Some ==> no_space(queue->0.spec_bytes()))
                ==> r is Ok && ({
                let req = r->Ok_0;
                &&& req.sid == self.next_sid_spec()
                &&& req.subject@ == subject@
                &&& opt_string_view(req.queue) == opt_str_view(queue)
                &&& req.frame@ == sub_frame(
                    subject.spec_bytes(),
                    opt_str_bytes(queue),
                    decimal(self.next_sid_spec() as nat),
                )
            }),
    {
        check_subject(subject)?;
        let sid = self.sid;
        let q = match queue {
            Some(q) => {
                check_queue(q)?;
                Some(String::from_str(q))
            },
            None => None,
        };
        let frame = sub_command(subject, queue, sid);
        Ok(SubscribeRequest { sid, subject: String::from_str(subject), queue: q, frame })
    }

    /// Second half of a subscription, given how sending the frame and waiting
    /// for the acknowledgment went. Only on success is the sid counter advanced
    /// (wrapping) and the subscription registered; on failure nothing changes.
    pub fn commit_subscribe(&mut self, req: SubscribeRequest, outcome: Result<(), NatsClientError>) -> (r:
        Result<Channel, NatsClientError>)
        requires
            req.sid == old(self).next_sid_spec(),
        ensures
            final(self).wf() == old(self).wf(),
            final(self).endpoints() == old(self).endpoints(),
            final(self).current() == old(self).current(),
            outcome is Err ==> {
                &&& r is Err && r->Err_0 == outcome->Err_0
                &&& final(self).next_sid_spec() == old(self).next_sid_spec()
                &&& final(self).registry() == old(self).registry()
            },
            outcome is Ok ==> {
                &&& r == Ok::<Channel, NatsClientError>(Channel { sid: req.sid })
                &&& final(self).next_sid_spec() as int == (old(self).next_sid_spec() as int + 1) % 0x1_0000_0000_0000_0000
                &&& final(self).registry() == old(self).registry().insert(
                    req.sid,
                    Subscription { subject: req.subject, queue: req.queue },
                )
                &&& old(self).wf() ==> final(self).registry().len() == old(self).registry().len() + if old(
                    self,
                ).registry().contains_key(req.sid) {
                    0int
                } else {
                    1int
                }
            },
    {
        match outcome {
            Err(e) => Err(e),
            Ok(()) => {
                let sid = req.sid;
                self.sid = self.sid.wrapping_add(1);
                self.subscriptions.insert(sid, Subscription { subject: req.subject, queue: req.queue });
                Ok(Channel { sid })
            },
        }
    }

    /// Starts connecting: the current candidate is tried first.
    pub fn begin_connect(&self) -> (r: (ConnectProgress, ConnectAction))
        requires
            self.wf(),
        ensures
            r.0 == start_progress(self.endpoints().len() as usize),
            progress_wf(r.0),
            r.1 is Try && r.1->Try_0 == self.current(),
    {
        (
            ConnectProgress { round: 0, tried: 0, servers: self.servers_info.len(), paused_ms: 0 },
            ConnectAction::Try(self.server_idx),
        )
    }

    /// The attempt on the current candidate failed: move to the next candidate
    /// (wrapping around), and pause at the end of a round.
    pub fn connect_failed(&mut self, p: &mut ConnectProgress) -> (r: ConnectAction)
        requires
            old(self).wf(),
            progress_wf(*old(p)),
            old(p).servers == old(self).endpoints().len(),
            old(p).round < CIRCUIT_BREAKER_ROUNDS_BEFORE_BREAKING,
        ensures
            final(self).wf(),
            final(self).endpoints() == old(self).endpoints(),
            final(self).next_sid_spec() == old(self).next_sid_spec(),
            final(self).registry() == old(self).registry(),
            final(self).current() == (old(self).current() + 1) % (old(self).endpoints().len() as int),
            *final(p) == after_failure(*old(p)),
            progress_wf(*final(p)),
            final(p).tried == 0 ==> r is Pause && r->Pause_0 == CIRCUIT_BREAKER_WAIT_BETWEEN_ROUNDS_MS,
            final(p).tried != 0 ==> r is Try && r->Try_0 == final(self).current(),
    {
        proof {
            assert(server_views(self.servers_info@).len() == self.servers_info@.len());
        }
        self.server_idx = (self.server_idx + 1) % self.servers_info.len();
        if p.tried + 1 < p.servers {
            p.tried = p.tried + 1;
            ConnectAction::Try(self.server_idx)
        } else {
            p.round = p.round + 1;
            p.tried = 0;
            p.paused_ms = p.paused_ms + CIRCUIT_BREAKER_WAIT_BETWEEN_ROUNDS_MS;
            ConnectAction::Pause(CIRCUIT_BREAKER_WAIT_BETWEEN_ROUNDS_MS)
        }
    }

    /// After a pause: give up once every round is spent, else try the current candidate.
    pub fn resume_connect(&self, p: &ConnectProgress) -> (r: ConnectAction)
        requires
            progress_wf(*p),
        ensures
            p.round >= CIRCUIT_BREAKER_ROUNDS_BEFORE_BREAKING ==> r is GiveUp && r->GiveUp_0.kind
                == ErrorKind::ClusterUnreachable,
            p.round < CIRCUIT_BREAKER_ROUNDS_BEFORE_BREAKING ==> r is Try && r->Try_0 == self.current(),
    {
        if p.round >= CIRCUIT_BREAKER_ROUNDS_BEFORE_BREAKING {
            ConnectAction::GiveUp(
                NatsClientError::new(
                    ErrorKind::ClusterUnreachable,
                    "The entire cluster is down or unreachable",
                ),
            )
        } else {
            ConnectAction::Try(self.server_idx)
        }
    }

    pub fn subscription_count(&self) -> (r: usize)
        ensures
            r == self.registry().len(),
    {
        self.subscriptions.len()
    }
}

/// Once a URI fails, every longer list fails with the first error.
proof fn lemma_endpoints_error_extends(uris: Seq<Seq<char>>, i: int)
    requires
        0 < i <= uris.len(),
        endpoints_of(uris.subrange(0, i - 1)) is Ok,
        endpoint_of(uris[i - 1]) is Err,
    ensures
        endpoints_of(uris) == Err::<Seq<(Seq<char>, u16)>, ErrorKind>(endpoint_of(uris[i - 1])->Err_0),
    decreases uris.len() - i,
{
    assert(uris.subrange(0, i).drop_last() =~= uris.subrange(0, i - 1));
    assert(endpoints_of(uris.subrange(0, i)) == Err::<Seq<(Seq<char>, u16)>, ErrorKind>(
        endpoint_of(uris[i - 1])->Err_0,
    ));
    lemma_endpoints_error_prefix(uris, i);
}

proof fn lemma_endpoints_error_prefix(uris: Seq<Seq<char>>, i: int)
    requires
        0 <= i <= uris.len(),
        endpoints_of(uris.subrange(0, i)) is Err,
    ensures
        endpoints_of(uris) == endpoints_of(uris.subrange(0, i)),
    decreases uris.len() - i,
{
    if i < uris.len() {
        assert(uris.subrange(0, i + 1).drop_last() =~= uris.subrange(0, i));
        lemma_endpoints_error_prefix(uris, i + 1);
    } else {
        assert(uris.subrange(0, i) =~= uris);
    }
}

/// The progress after `k` consecutive failures.
pub open spec fn fail_times(p: ConnectProgress, k: nat) -> ConnectProgress
    decreases k,
{
    if k == 0 {
        p
    } else {
        after_failure(fail_times(p, (k - 1) as nat))
    }
}

proof fn lemma_fail_times_add(p: ConnectProgress, a: nat, b: nat)
    ensures
        fail_times(p, a + b) == fail_times(fail_times(p, a), b),
    decreases b,
{
    if b > 0 {
        lemma_fail_times_add(p, a, (b - 1) as nat);
        assert((a + b - 1) as nat == a + (b - 1) as nat);
    }
}

proof fn lemma_within_round(p: ConnectProgress, j: nat)
    requires
        p.tried == 0,
        j < p.servers,
    ensures
        fail_times(p, j) == (ConnectProgress { tried: j as usize, ..p }),
    decreases j,
{
    if j > 0 {
        lemma_within_round(p, (j - 1) as nat);
    }
}

proof fn lemma_rounds(n: usize, q: nat)
    requires
        n >= 1,
        q <= CIRCUIT_BREAKER_ROUNDS_BEFORE_BREAKING,
    ensures
        fail_times(start_progress(n), (q * n) as nat) == (ConnectProgress {
            round: q as u32,
            tried: 0,
            servers: n,
            paused_ms: (q * CIRCUIT_BREAKER_WAIT_BETWEEN_ROUNDS_MS) as u64,
        }),
    decreases q,
{
    if q > 0 {
        let q1 = (q - 1) as nat;
        lemma_rounds(n, q1);
        assert(q * n == q1 * n + n) by (nonlinear_arith)
            requires q1 == q - 1;
        lemma_fail_times_add(start_progress(n), (q1 * n) as nat, n as nat);
        let p = fail_times(start_progress(n), (q1 * n) as nat);
        lemma_within_round(p, (n - 1) as nat);
        assert(fail_times(p, n as nat) == after_failure(fail_times(p, (n - 1) as nat)));
        assert(q1 * n >= 0) by (nonlinear_arith)
            requires n >= 1;
        assert((q * n) as nat == (q1 * n) as nat + n as nat);
        assert(fail_times(start_progress(n), (q * n) as nat) == fail_times(p, n as nat));
    } else {
        assert(q * n == 0) by (nonlinear_arith)
            requires q == 0;
    }
}

/// The circuit breaker: from the start of a connection, after `q` full rounds
/// and `r` more failures short of all rounds the manager still tries the next
/// candidate, having paused `q` round pauses; after every candidate has failed
/// in every round it gives up, having paused exactly
/// `CIRCUIT_BREAKER_ROUNDS_BEFORE_BREAKING` round pauses in all.
pub proof fn lemma_circuit_breaker(n: usize, q: nat, r: nat)
    requires
        n >= 1,
        q < CIRCUIT_BREAKER_ROUNDS_BEFORE_BREAKING,
        r < n,
    ensures
        fail_times(start_progress(n), (q * n + r) as nat).round < CIRCUIT_BREAKER_ROUNDS_BEFORE_BREAKING,
        fail_times(start_progress(n), (q * n + r) as nat).paused_ms == q * CIRCUIT_BREAKER_WAIT_BETWEEN_ROUNDS_MS,
        fail_times(start_progress(n), (CIRCUIT_BREAKER_ROUNDS_BEFORE_BREAKING * n) as nat).round
            == CIRCUIT_BREAKER_ROUNDS_BEFORE_BREAKING,
        fail_times(start_progress(n), (CIRCUIT_BREAKER_ROUNDS_BEFORE_BREAKING * n) as nat).paused_ms
            == CIRCUIT_BREAKER_ROUNDS_BEFORE_BREAKING * CIRCUIT_BREAKER_WAIT_BETWEEN_ROUNDS_MS,
{
    lemma_rounds(n, q);
    lemma_rounds(n, CIRCUIT_BREAKER_ROUNDS_BEFORE_BREAKING as nat);
    lemma_fail_times_add(start_progress(n), (q * n) as nat, r);
    lemma_within_round(fail_times(start_progress(n), (q * n) as nat), r);
}

} // verus!
