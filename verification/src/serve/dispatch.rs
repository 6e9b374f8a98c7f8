//! Sending a request on: when it waits, when it is refused, and what a stream is
//! told meanwhile.

use vstd::prelude::*;
use vstd::string::*;

use crate::common::dict::ordered;
use crate::common::json::{meaning, put, str_array, Json, JsonV};
use crate::common::quote::{debug_quoted, debug_text, json_quoted, json_text, law_a_json_text_is_one_line};
use crate::common::text::{dec, decimal, texts};
use crate::daemon::status::{keys_json, rows, texts_json};
use crate::serve::net::Net;
use crate::serve::probe::SendError;
use crate::serve::proxy::{upstream, upstream_url};
use crate::serve::shared::{Shared, SharedV};
use crate::serve::table::{model_table, models_table, not_ready, unready};

verus! {

broadcast use meaning;

// ---------------------------------------------------------------------------
// Refusals
// ---------------------------------------------------------------------------
/// What could be asked for instead.
#[derive(Debug)]
pub struct Offer {
    pub available: Json,
    pub not_ready: Json,
}

/// A request the router answers itself.
#[derive(Debug)]
pub struct Refusal {
    pub status: u16,
    pub error: String,
    pub offer: Option<Offer>,
}

/// A `Refusal` as a mathematical value.
pub struct RefusalV {
    pub status: u16,
    pub error: Seq<char>,
    pub offer: Option<(JsonV, JsonV)>,
}

impl View for Refusal {
    type V = RefusalV;

    open spec fn view(&self) -> RefusalV {
        RefusalV {
            status: self.status,
            error: self.error@,
            offer: match self.offer {
                Some(o) => Some((o.available.v(), o.not_ready.v())),
                None => None,
            },
        }
    }
}

/// The body of a refusal.
pub open spec fn refusal_doc(r: RefusalV) -> JsonV {
    match r.offer {
        Some((available, pending)) => JsonV::Obj(
            map![
                "error"@ => JsonV::Str(r.error),
                "available"@ => available,
                "not_ready"@ => pending,
            ],
        ),
        None => JsonV::Obj(map!["error"@ => JsonV::Str(r.error)]),
    }
}

impl Refusal {
    /// A refusal with nothing to offer instead.
    pub fn new(status: u16, error: String) -> (r: Refusal)
        ensures
            r@ == (RefusalV { status, error: error@, offer: None }),
    {
        Refusal { status, error, offer: None }
    }

    /// The body of the refusal.
    pub fn to_json(&self) -> (r: Json)
        ensures
            r.v() == refusal_doc(self@),
    {
        let mut d = Json::object();
        put(&mut d, "error", Json::str(self.error.as_str()));
        if let Some(o) = &self.offer {
            put(&mut d, "available", o.available.copy());
            put(&mut d, "not_ready", o.not_ready.copy());
        }
        Json::Obj(d)
    }

    /// The refusal in words.
    pub fn message(&self) -> (r: String)
        ensures
            r@ == self@.error,
    {
        self.error.clone()
    }
}

/// The refusal of a body that is too large.
pub fn too_large(max: usize) -> (r: Refusal)
    ensures
        r@ == (RefusalV {
            status: 413,
            error: "request body over "@ + decimal(max as nat) + " bytes"@,
            offer: None,
        }),
{
    let mut e = "request body over ".to_string();
    e.append(dec(max as u64).as_str());
    e.append(" bytes");
    Refusal::new(413, e)
}

// ---------------------------------------------------------------------------
// Dispatch
// ---------------------------------------------------------------------------
/// The refusal of a model that is not routable: one of a known group that cannot
/// serve, or one of a name nothing claims.
pub open spec fn refused(s: SharedV, model: Seq<char>, now: u64, local: Seq<Net>) -> RefusalV {
    let pending = unready(s, now, local);
    let waited = decimal((s.cfg.model_wait / 1000) as nat);
    if pending.contains_key(model) {
        RefusalV {
            status: 503,
            error: model + " is not ready after "@ + waited + "s: "@ + pending[model],
            offer: None,
        }
    } else {
        RefusalV {
            status: 404,
            error: "no group serves model "@ + debug_text(model) + " after "@ + waited + "s"@,
            offer: Some(
                (
                    str_array(ordered(models_table(s, now, local).dom())),
                    rows(pending, |x: Seq<char>| JsonV::Str(x)),
                ),
            ),
        }
    }
}

/// The refusal of a model that is not routable: 503 for a known group that cannot
/// serve, 404 for a name nothing claims.
pub fn refusal(sh: &Shared, model: &str, now: u64, local: &Vec<Net>) -> (r: Refusal)
    ensures
        r@ == refused(sh@, model@, now, local@),
{
    let pending = not_ready(sh, now, local);
    let waited = dec(sh.cfg.model_wait / 1000);
    let ghost pv = pending.deep_view();
    if let Some(why) = pending.get(model) {
        proof {
            assert(pv[model@] == why@);
        }
        let mut e = model.to_string();
        e.append(" is not ready after ");
        e.append(waited.as_str());
        e.append("s: ");
        e.append(why.as_str());
        return Refusal::new(503, e);
    }
    let mut e = "no group serves model ".to_string();
    e.append(debug_quoted(model).as_str());
    e.append(" after ");
    e.append(waited.as_str());
    e.append("s");
    let table = model_table(sh, now, local);
    proof {
        assert(table.deep_view().dom() =~= table@.dom());
    }
    Refusal {
        status: 404,
        error: e,
        offer: Some(Offer { available: keys_json(&table), not_ready: texts_json(&pending) }),
    }
}

/// What to do with a request.
#[derive(Debug)]
pub enum Step {
    /// Send it to this group, at this URL.
    Send { group: String, url: String },
    /// Hold it for a moment and look again.
    Wait,
    Refuse { refusal: Refusal },
}

/// What to do with a request, as a mathematical value.
pub enum StepV {
    Send { group: Seq<char>, url: Seq<char> },
    Wait,
    Refuse { refusal: RefusalV },
}

impl View for Step {
    type V = StepV;

    open spec fn view(&self) -> StepV {
        match self {
            Step::Send { group, url } => StepV::Send { group: group@, url: url@ },
            Step::Wait => StepV::Wait,
            Step::Refuse { refusal } => StepV::Refuse { refusal: refusal@ },
        }
    }
}

/// What to do with a request before it is sent.
pub open spec fn before_send(
    s: SharedV,
    model: Seq<char>,
    tail: Seq<char>,
    deadline: u64,
    now: u64,
    local: Seq<Net>,
) -> StepV {
    let table = models_table(s, now, local);
    if table.contains_key(model) {
        StepV::Send { group: table[model].group, url: upstream(table[model].url, tail) }
    } else if now < deadline {
        StepV::Wait
    } else {
        StepV::Refuse { refusal: refused(s, model, now, local) }
    }
}

/// What to do with a request: send it to whichever group serves the model. Until
/// the deadline a model that is not routable is waited for, since a restarting
/// one is missing for a while.
pub fn dispatch(
    sh: &Shared,
    model: &str,
    tail: &str,
    deadline: u64,
    now: u64,
    local: &Vec<Net>,
) -> (r: Step)
    ensures
        r@ == before_send(sh@, model@, tail@, deadline, now, local@),
{
    let table = model_table(sh, now, local);
    let ghost tv = table.deep_view();
    match table.get(model) {
        Some(route) => {
            proof {
                assert(tv[model@] == route.deep_view());
            }
            Step::Send {
                group: route.group.clone(),
                url: upstream_url(route.url.as_str(), tail),
            }
        },
        None => if now < deadline {
            Step::Wait
        } else {
            Step::Refuse { refusal: refusal(sh, model, now, local) }
        },
    }
}

/// Milliseconds as whole seconds, to the nearest, and to the even one of two
/// equally near.
pub open spec fn nearest_second(ms: u64) -> nat {
    let q = (ms / 1000) as nat;
    let r = ms % 1000;
    if r > 500 || (r == 500 && q % 2 == 1) {
        q + 1
    } else {
        q
    }
}

/// What to do with a request whose sending failed.
pub open spec fn after_failure(
    s: SharedV,
    group: Seq<char>,
    msg: Seq<char>,
    connect: bool,
    timeout: bool,
    deadline: u64,
    now: u64,
) -> StepV {
    if connect && now < deadline {
        StepV::Wait
    } else if timeout {
        StepV::Refuse {
            refusal: RefusalV {
                status: 504,
                error: group + " gave no response within "@ + decimal(
                    nearest_second(s.cfg.serving_timeout),
                ) + "s"@,
                offer: None,
            },
        }
    } else {
        StepV::Refuse {
            refusal: RefusalV {
                status: 502,
                error: group + " did not answer: "@ + msg,
                offer: None,
            },
        }
    }
}

/// What to do with a request whose sending failed. A refused connection never
/// reached the upstream, and is waited out until the deadline. Once the upstream
/// has taken the request it is never sent again: the work may already be under
/// way.
pub fn send_failed(sh: &Shared, group: &str, e: &SendError, deadline: u64, now: u64) -> (r: Step)
    ensures
        r@ == after_failure(sh@, group@, e.msg@, e.connect, e.timeout, deadline, now),
{
    if e.connect && now < deadline {
        return Step::Wait;
    }
    let mut msg = group.to_string();
    if e.timeout {
        let ms: u64 = sh.cfg.serving_timeout;
        let q: u64 = ms / 1000;
        let secs: u64 = if ms % 1000 > 500 || (ms % 1000 == 500 && q % 2 == 1) {
            q + 1
        } else {
            q
        };
        msg.append(" gave no response within ");
        msg.append(dec(secs).as_str());
        msg.append("s");
        return Step::Refuse { refusal: Refusal::new(504, msg) };
    }
    msg.append(" did not answer: ");
    msg.append(e.msg.as_str());
    Step::Refuse { refusal: Refusal::new(502, msg) }
}

/// A request is sent again only after a connection that was refused: one that an
/// upstream may have taken is never repeated.
pub proof fn law_a_taken_request_is_never_sent_again(
    s: SharedV,
    group: Seq<char>,
    msg: Seq<char>,
    timeout: bool,
    deadline: u64,
    now: u64,
)
    ensures
        after_failure(s, group, msg, false, timeout, deadline, now) is Refuse,
{
}

/// No request is held past its deadline.
pub proof fn law_no_request_waits_past_its_deadline(
    s: SharedV,
    model: Seq<char>,
    tail: Seq<char>,
    group: Seq<char>,
    msg: Seq<char>,
    connect: bool,
    timeout: bool,
    deadline: u64,
    now: u64,
    local: Seq<Net>,
)
    requires
        now >= deadline,
    ensures
        !(before_send(s, model, tail, deadline, now, local) is Wait),
        !(after_failure(s, group, msg, connect, timeout, deadline, now) is Wait),
{
}

/// Whether a stream is kept open with comment lines while the upstream has not
/// replied.
pub fn keeps_alive(sh: &Shared, stream: bool) -> (r: bool)
    ensures
        r == (stream && sh@.cfg.sse_keepalive != 0),
{
    stream && sh.cfg.sse_keepalive != 0
}

// ---------------------------------------------------------------------------
// A stream whose headers went out first
// ---------------------------------------------------------------------------
/// The line that keeps an idle stream open.
pub const KEEPALIVE: &'static str = ": keepalive\n\n";

/// An error event and the terminator.
pub open spec fn error_frames(msg: Seq<char>) -> Seq<Seq<char>> {
    seq![
        "data: {\"error\":{\"message\":"@ + json_text(msg)
            + ",\"type\":\"upstream_error\"}}\n\n"@,
        "data: [DONE]\n\n"@,
    ]
}

/// An error event is one line and its end, whatever the error says.
pub proof fn law_an_error_event_is_one_line(msg: Seq<char>)
    ensures
        ({
            let e = error_frames(msg)[0];
            &&& e.len() > 2
            &&& e[e.len() - 1] == '\n'
            &&& e[e.len() - 2] == '\n'
            &&& forall|i: int| 0 <= i < e.len() - 2 ==> #[trigger] e[i] as u32 >= 0x20
        }),
{
    let a = "data: {\"error\":{\"message\":"@;
    let b = json_text(msg);
    let c = ",\"type\":\"upstream_error\"}}\n\n"@;
    let e = a + b + c;
    law_a_json_text_is_one_line(msg);
    reveal_strlit("data: {\"error\":{\"message\":");
    reveal_strlit(",\"type\":\"upstream_error\"}}\n\n");
    reveal_with_fuel(shows_to, 28);
    lemma_shows_to(a, 26);
    lemma_shows_to(c, 26);
    assert forall|i: int| 0 <= i < e.len() - 2 implies #[trigger] e[i] as u32 >= 0x20 by {
        if i < a.len() {
            assert(e[i] == a[i]);
        } else if i < a.len() + b.len() {
            assert(e[i] == b[i - a.len()]);
        } else {
            assert(e[i] == c[i - a.len() - b.len()]);
        }
    }
}

/// Whether the first `n` characters of a text are no control characters.
spec fn shows_to(s: Seq<char>, n: nat) -> bool
    decreases n,
{
    n == 0 || (s[n - 1] as u32 >= 0x20 && shows_to(s, (n - 1) as nat))
}

proof fn lemma_shows_to(s: Seq<char>, n: nat)
    requires
        shows_to(s, n),
        n <= s.len(),
    ensures
        forall|i: int| 0 <= i < n ==> #[trigger] s[i] as u32 >= 0x20,
    decreases n,
{
    if n > 0 {
        lemma_shows_to(s, (n - 1) as nat);
    }
}

/// An error event in the client's own shape and the terminator, for a stream
/// whose headers already said 200.
pub fn error_events(msg: &str) -> (r: Vec<String>)
    ensures
        texts(r@) == error_frames(msg@),
{
    let mut e = "data: {\"error\":{\"message\":".to_string();
    e.append(json_quoted(msg).as_str());
    e.append(",\"type\":\"upstream_error\"}}\n\n");
    let mut out: Vec<String> = Vec::new();
    out.push(e);
    out.push("data: [DONE]\n\n".to_string());
    proof {
        assert(texts(out@) =~= error_frames(msg@));
    }
    out
}

/// How a stream stands whose headers went out before the upstream replied.
#[derive(Debug)]
pub enum Keep {
    /// Comment lines every tick until the upstream replies.
    Waiting,
    /// What the upstream sends is passed on.
    Relaying,
    /// The upstream failed after the headers went out: these, then the end.
    Failing { left: Vec<String> },
    Done,
}

/// How a stream stands, as a mathematical value.
pub enum KeepV {
    Waiting,
    Relaying,
    Failing { left: Seq<Seq<char>> },
    Done,
}

impl View for Keep {
    type V = KeepV;

    open spec fn view(&self) -> KeepV {
        match self {
            Keep::Waiting => KeepV::Waiting,
            Keep::Relaying => KeepV::Relaying,
            Keep::Failing { left } => KeepV::Failing { left: texts(left@) },
            Keep::Done => KeepV::Done,
        }
    }
}

/// What became of the request that a stream waits for.
#[derive(Debug)]
pub enum Answer {
    /// The upstream replied, with this status.
    Replied { success: bool, status: String },
    Refused { message: String },
    /// The request was dropped without a word.
    Lost,
}

/// How a stream stands once its request was answered.
pub open spec fn kept(a: Answer) -> KeepV {
    match a {
        Answer::Replied { success, status } => if success {
            KeepV::Relaying
        } else {
            KeepV::Failing { left: error_frames("upstream answered HTTP "@ + status@) }
        },
        Answer::Refused { message } => KeepV::Failing { left: error_frames(message@) },
        Answer::Lost => KeepV::Failing { left: error_frames("the router dropped the request"@) },
    }
}

/// How a stream stands once its request was answered. A failure after the headers
/// went out arrives as an error event.
pub fn keep_answered(a: Answer) -> (r: Keep)
    ensures
        r@ == kept(a),
{
    match a {
        Answer::Replied { success, status } => if success {
            Keep::Relaying
        } else {
            let mut m = "upstream answered HTTP ".to_string();
            m.append(status.as_str());
            Keep::Failing { left: error_events(m.as_str()) }
        },
        Answer::Refused { message } => Keep::Failing { left: error_events(message.as_str()) },
        Answer::Lost => Keep::Failing { left: error_events("the router dropped the request") },
    }
}

/// What a stream sends next.
#[derive(Debug)]
pub enum Chunk {
    /// A comment line at the next tick.
    Tick,
    /// Whatever the upstream sends next.
    Upstream,
    /// This.
    Data { text: String },
    /// Nothing more.
    End,
}

/// What a stream sends next. After the last event of a failure it is over.
pub fn keep_next(k: &mut Keep) -> (r: Chunk)
    ensures
        match old(k)@ {
            KeepV::Waiting => r is Tick && final(k)@ == old(k)@,
            KeepV::Relaying => r is Upstream && final(k)@ == old(k)@,
            KeepV::Failing { left } => if left.len() > 0 {
                r matches Chunk::Data { text } && text@ == left[0] && final(k)@
                    == (KeepV::Failing { left: left.skip(1) })
            } else {
                r is End && final(k)@ == KeepV::Done
            },
            KeepV::Done => r is End && final(k)@ == old(k)@,
        },
{
    match k {
        Keep::Waiting => Chunk::Tick,
        Keep::Relaying => Chunk::Upstream,
        Keep::Done => Chunk::End,
        Keep::Failing { left } => {
            if left.len() > 0 {
                let ghost was = texts(left@);
                proof {
                    assert(was[0] == left@[0]@);
                }
                let text = left.remove(0);
                proof {
                    assert(texts(left@) =~= was.skip(1));
                }
                Chunk::Data { text }
            } else {
                *k = Keep::Done;
                Chunk::End
            }
        },
    }
}

} // verus!
