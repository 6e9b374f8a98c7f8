//! Frames with their headers read.

use vstd::prelude::*;
use vstd::string::*;

use crate::common::text::same;
use crate::common::top::{find_top, json_top, opt_top, parse_top, top_at, Top, TopV};
use crate::daemon::proto::{first_frame, read_frame, FrameError};

verus! {

/// One frame header: a correlation id and the type of the message.
#[derive(Debug, PartialEq, Eq)]
pub struct Frame {
    /// Correlation id, echoed by the answer. A client numbers its requests from
    /// 1 on each connection. The other links push frames with 0.
    pub req: u64,
    pub t: String,
}

/// What a header says, where it is one: its correlation id, 0 where it gives
/// none, and the type of its message.
pub open spec fn head(fields: Option<Seq<(Seq<char>, TopV)>>) -> Option<(u64, Seq<char>)> {
    match fields {
        Some(f) => match (top_at(f, "t"@), top_at(f, "req"@)) {
            (Some(TopV::Text(t)), None) => Some((0, t)),
            (Some(TopV::Text(t)), Some(TopV::Whole(n))) => Some((n, t)),
            _ => None,
        },
        None => None,
    }
}

/// A header as a mathematical value.
pub open spec fn opt_frame(f: Option<Frame>) -> Option<(u64, Seq<char>)> {
    match f {
        Some(x) => Some((x.req, x.t@)),
        None => None,
    }
}

/// What a header says, from its fields.
pub fn frame_head(fields: &Option<Vec<(String, Top)>>) -> (r: Option<Frame>)
    ensures
        opt_frame(r) == head(opt_top(*fields)),
{
    match fields {
        Some(f) => match (find_top(f, "t"), find_top(f, "req")) {
            (Some(Top::Text(t)), None) => Some(Frame { req: 0, t: t.clone() }),
            (Some(Top::Text(t)), Some(Top::Whole(n))) => Some(Frame { req: *n, t: t.clone() }),
            _ => None,
        },
        None => None,
    }
}

/// What a header says, from its bytes. Nothing can be replied where the
/// correlation id itself is unreadable.
pub fn parse_header(header: &[u8]) -> (r: Option<Frame>)
    ensures
        opt_frame(r) == head(json_top(header@)),
{
    let fields = parse_top(header);
    frame_head(&fields)
}

/// Why the next frame cannot be had.
#[derive(Clone, Copy, Debug, PartialEq, Eq, Structural)]
pub enum ReadError {
    Frame(FrameError),
    /// The header is not JSON, or lacks what every header has.
    BadHeader,
}

/// The next frame of an input that ends where its bytes end.
pub open spec fn next(input: Seq<u8>) -> Result<Option<((u64, Seq<char>), Seq<u8>)>, ReadError> {
    match first_frame(input) {
        Err(e) => Err(ReadError::Frame(e)),
        Ok(None) => Ok(None),
        Ok(Some((h, p))) => match head(json_top(h)) {
            Some(f) => Ok(Some((f, p))),
            None => Err(ReadError::BadHeader),
        },
    }
}

/// A frame as a mathematical value.
pub open spec fn next_view(r: Result<Option<(Frame, Vec<u8>)>, ReadError>) -> Result<
    Option<((u64, Seq<char>), Seq<u8>)>,
    ReadError,
> {
    match r {
        Ok(Some((f, p))) => Ok(Some(((f.req, f.t@), p@))),
        Ok(None) => Ok(None),
        Err(e) => Err(e),
    }
}

/// The next frame of an input that ends where its bytes end, with its header
/// read. A header that is not JSON is an error: it closes the link.
pub fn next_frame(input: &[u8]) -> (r: Result<Option<(Frame, Vec<u8>)>, ReadError>)
    ensures
        next_view(r) == next(input@),
{
    match read_frame(input) {
        Err(e) => Err(ReadError::Frame(e)),
        Ok(None) => Ok(None),
        Ok(Some((h, p))) => match parse_header(h.as_slice()) {
            Some(f) => Ok(Some((f, p))),
            None => Err(ReadError::BadHeader),
        },
    }
}

/// Whether a type of message is one that a client sends.
pub open spec fn client_type(t: Seq<char>) -> bool {
    ||| t == "hello"@
    ||| t == "nodes"@
    ||| t == "resources"@
    ||| t == "available"@
    ||| t == "claim"@
    ||| t == "pg_create"@
    ||| t == "pg_table"@
    ||| t == "pg_remove"@
    ||| t == "actor_create"@
    ||| t == "actor_call"@
    ||| t == "ref_get"@
    ||| t == "ref_wait"@
    ||| t == "status"@
    ||| t == "actor_stop"@
}

/// Whether a type of message is one that a client is answered with.
pub open spec fn answer_type(t: Seq<char>) -> bool {
    ||| t == "ok"@
    ||| t == "err"@
    ||| t == "hello_ok"@
    ||| t == "nodes_ok"@
    ||| t == "resources_ok"@
    ||| t == "available_ok"@
    ||| t == "claim_ok"@
    ||| t == "pg_create_ok"@
    ||| t == "pg_table_ok"@
    ||| t == "actor_create_ok"@
    ||| t == "actor_call_ok"@
    ||| t == "ref_get_ok"@
    ||| t == "ref_wait_ok"@
    ||| t == "status_ok"@
}

/// Whether a type of message is one that an agent and its daemon exchange.
pub open spec fn agent_type(t: Seq<char>) -> bool {
    ||| t == "agent_register"@
    ||| t == "agent_register_ok"@
    ||| t == "actor_spawn"@
    ||| t == "actor_spawn_result"@
    ||| t == "actor_dispatch"@
    ||| t == "actor_result"@
    ||| t == "actor_exit"@
    ||| t == "actor_kill"@
    ||| t == "service_note"@
    ||| t == "ping"@
    ||| t == "pong"@
}

/// Whether a type of message is one that two daemons exchange.
pub open spec fn peer_type(t: Seq<char>) -> bool {
    ||| t == "peer_hello"@
    ||| t == "peer_hello_ok"@
    ||| t == "probe"@
    ||| t == "probe_ok"@
    ||| t == "peer_status"@
    ||| t == "peer_event"@
}

/// Whether a type of message is one that an actor host and its agent exchange.
pub open spec fn host_type(t: Seq<char>) -> bool {
    ||| t == "host_hello"@
    ||| t == "ctor"@
    ||| t == "ctor_ok"@
    ||| t == "ctor_err"@
    ||| t == "host_call"@
    ||| t == "host_result"@
}

/// Whether a type of message is one this build knows.
pub open spec fn known(t: Seq<char>) -> bool {
    client_type(t) || answer_type(t) || agent_type(t) || peer_type(t) || host_type(t)
}

fn is_client(t: &str) -> (r: bool)
    ensures
        r == client_type(t@),
{
    same(t, "hello")
        || same(t, "nodes")
        || same(t, "resources")
        || same(t, "available")
        || same(t, "claim")
        || same(t, "pg_create")
        || same(t, "pg_table")
        || same(t, "pg_remove")
        || same(t, "actor_create")
        || same(t, "actor_call")
        || same(t, "ref_get")
        || same(t, "ref_wait")
        || same(t, "status")
        || same(t, "actor_stop")
}

fn is_answer(t: &str) -> (r: bool)
    ensures
        r == answer_type(t@),
{
    same(t, "ok")
        || same(t, "err")
        || same(t, "hello_ok")
        || same(t, "nodes_ok")
        || same(t, "resources_ok")
        || same(t, "available_ok")
        || same(t, "claim_ok")
        || same(t, "pg_create_ok")
        || same(t, "pg_table_ok")
        || same(t, "actor_create_ok")
        || same(t, "actor_call_ok")
        || same(t, "ref_get_ok")
        || same(t, "ref_wait_ok")
        || same(t, "status_ok")
}

fn is_agent(t: &str) -> (r: bool)
    ensures
        r == agent_type(t@),
{
    same(t, "agent_register")
        || same(t, "agent_register_ok")
        || same(t, "actor_spawn")
        || same(t, "actor_spawn_result")
        || same(t, "actor_dispatch")
        || same(t, "actor_result")
        || same(t, "actor_exit")
        || same(t, "actor_kill")
        || same(t, "service_note")
        || same(t, "ping")
        || same(t, "pong")
}

fn is_peer(t: &str) -> (r: bool)
    ensures
        r == peer_type(t@),
{
    same(t, "peer_hello")
        || same(t, "peer_hello_ok")
        || same(t, "probe")
        || same(t, "probe_ok")
        || same(t, "peer_status")
        || same(t, "peer_event")
}

fn is_host(t: &str) -> (r: bool)
    ensures
        r == host_type(t@),
{
    same(t, "host_hello")
        || same(t, "ctor")
        || same(t, "ctor_ok")
        || same(t, "ctor_err")
        || same(t, "host_call")
        || same(t, "host_result")
}

impl Frame {
    /// Whether the frame is of a type this build knows. A minor bump may add one,
    /// so an unknown type parses, and is refused on the same `req` with the link
    /// kept.
    pub fn is_known(&self) -> (r: bool)
        ensures
            r == known(self.t@),
    {
        let t = self.t.as_str();
        is_client(t) || is_answer(t) || is_agent(t) || is_peer(t) || is_host(t)
    }
}

} // verus!
