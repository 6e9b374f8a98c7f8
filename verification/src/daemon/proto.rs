//! Wire protocol for every mentat link: client, agent, mesh peer, and actor
//! host.
//!
//! A frame is u32le header_len, u32le payload_len, a flat JSON header, and an
//! opaque payload. The payload is moved unread.

use vstd::bytes::*;
use vstd::prelude::*;
use vstd::string::*;

use crate::common::text::{
    dec, decimal, digits, number, parse_digits, same, split_first, split_once, texts,
};

verus! {

/// The wire version this build uses, `major.minor`.
pub const PROTO: &'static str = "0.99";

/// Cap on each length prefix. A corrupt length would otherwise size an
/// allocation straight off the wire.
pub const MAX_FRAME: u32 = 268435456;

/// The major of a version whose minor is a plain number.
pub open spec fn major_of(v: Seq<char>) -> Option<Seq<char>> {
    match split_first(v, '.') {
        Some((maj, rest)) => if digits(rest) && number(rest) <= u32::MAX {
            Some(maj)
        } else {
            None
        },
        None => None,
    }
}

fn major(v: &str) -> (r: Option<&str>)
    ensures
        match r {
            Some(m) => major_of(v@) == Some(m@),
            None => major_of(v@) is None,
        },
{
    match split_once(v, '.') {
        Some((maj, rest)) => match parse_digits(rest, 4294967295) {
            Some(_) => Some(maj),
            None => None,
        },
        None => None,
    }
}

/// Whether two versions share a major.
pub open spec fn shares_major(a: Seq<char>, b: Seq<char>) -> bool {
    major_of(a) is Some && major_of(a) == major_of(b)
}

/// Whether a peer's `proto` shares this build's major.
///
/// A major bump changes a field's type or meaning, so the link is refused. A
/// minor difference is compatible both ways, since a peer sends only what the
/// minor its counterpart announced defines. Returns false for a version with
/// no dot, or with a minor that is not a plain number.
pub fn major_matches(peer: &str) -> (r: bool)
    ensures
        r == shares_major(PROTO@, peer@),
{
    match (major(PROTO), major(peer)) {
        (Some(a), Some(b)) => same(a, b),
        _ => false,
    }
}

/// `PROTO` as a `String`, for the message fields that hold one.
pub fn proto() -> (r: String)
    ensures
        r@ == PROTO@,
{
    PROTO.to_string()
}

// ---------------------------------------------------------------------------
// What a box is
// ---------------------------------------------------------------------------
/// What a box is: total memory, cpus, and every GPU an agent may bind.
///
/// A count cannot describe a box with two GPU models in it.
#[derive(Debug, PartialEq, Eq)]
pub struct Machine {
    /// Total system memory in bytes.
    pub memory: u64,
    pub cpus: u32,
    /// Every device the agent may bind, in device order.
    pub gpus: Vec<Gpu>,
}

/// One GPU as the machine probe reports it.
#[derive(Debug, PartialEq, Eq)]
pub struct Gpu {
    /// The device index the agent binds on `actor_spawn`.
    pub index: u32,
    /// The vendor the probe matched, such as "nvidia".
    pub vendor: String,
    /// The vendor's product string, e.g. "RTX 6000".
    pub name: String,
    /// The device's own memory in bytes. For a UMA device this is the shared
    /// pool, the same figure as the machine's `memory`, so a consumer adding
    /// the two counts it twice.
    pub memory: u64,
    /// The device shares the system memory pool.
    pub uma: bool,
}

/// Where a service listens.
///
/// An empty `host` means the consumer resolves it against the node's
/// addresses, because the container knows its port but not which of its
/// node's links the consumer shares.
#[derive(Debug, PartialEq, Eq)]
pub struct Service {
    pub host: String,
    pub port: u16,
    /// Empty, or starts with `/`.
    pub path: String,
    /// What serves the endpoint. The daemon stores and forwards it unread.
    pub provider: String,
    /// What the agent found after announcing, such as its server binding one
    /// address. Advisory: a failed probe quotes it.
    pub note: String,
}

/// A `Gpu` as a mathematical value.
pub struct GpuV {
    pub index: u32,
    pub vendor: Seq<char>,
    pub name: Seq<char>,
    pub memory: u64,
    pub uma: bool,
}

/// A `Machine` as a mathematical value.
pub struct MachineV {
    pub memory: u64,
    pub cpus: u32,
    pub gpus: Seq<GpuV>,
}

/// A `Service` as a mathematical value.
pub struct ServiceV {
    pub host: Seq<char>,
    pub port: u16,
    pub path: Seq<char>,
    pub provider: Seq<char>,
    pub note: Seq<char>,
}

impl DeepView for Gpu {
    type V = GpuV;

    open spec fn deep_view(&self) -> GpuV {
        GpuV {
            index: self.index,
            vendor: self.vendor@,
            name: self.name@,
            memory: self.memory,
            uma: self.uma,
        }
    }
}

impl DeepView for Machine {
    type V = MachineV;

    open spec fn deep_view(&self) -> MachineV {
        MachineV {
            memory: self.memory,
            cpus: self.cpus,
            gpus: Seq::new(self.gpus@.len(), |i: int| self.gpus@[i].deep_view()),
        }
    }
}

impl DeepView for Service {
    type V = ServiceV;

    open spec fn deep_view(&self) -> ServiceV {
        ServiceV {
            host: self.host@,
            port: self.port,
            path: self.path@,
            provider: self.provider@,
            note: self.note@,
        }
    }
}

/// One actor process the agent still holds, reported in `agent_register`.
#[derive(Debug)]
pub struct ResumeActor {
    pub actor_id: String,
    /// The actor's class name, as `actor_spawn` gave it.
    pub name: String,
    pub gpu_ids: Vec<u32>,
    pub pid: u32,
    /// The client this actor belongs to, as the daemon named it on spawn.
    pub owner: String,
    /// Ref ids of calls the agent has relayed but not yet replied.
    pub pending_refs: Vec<String>,
}

/// A `ResumeActor` as a mathematical value.
pub struct ResumeV {
    pub actor_id: Seq<char>,
    pub name: Seq<char>,
    pub gpu_ids: Seq<u32>,
    pub pid: u32,
    pub owner: Seq<char>,
    pub pending_refs: Seq<Seq<char>>,
}

impl DeepView for ResumeActor {
    type V = ResumeV;

    open spec fn deep_view(&self) -> ResumeV {
        ResumeV {
            actor_id: self.actor_id@,
            name: self.name@,
            gpu_ids: self.gpu_ids@,
            pid: self.pid,
            owner: self.owner@,
            pending_refs: texts(self.pending_refs@),
        }
    }
}

// ---------------------------------------------------------------------------
// Frames
// ---------------------------------------------------------------------------
/// A header and a payload as they go over the wire: the length of each, then
/// each.
pub open spec fn framed(header: Seq<u8>, payload: Seq<u8>) -> Seq<u8> {
    spec_u32_to_le_bytes(header.len() as u32) + spec_u32_to_le_bytes(payload.len() as u32) + header
        + payload
}

/// Why a frame cannot be read.
#[derive(Clone, Copy, Debug, PartialEq, Eq, Structural)]
pub enum FrameError {
    /// The input ends part way through a frame.
    MidFrame,
    /// A length is over `MAX_FRAME`.
    Over { header: u32, payload: u32 },
}

/// What a frame error says.
pub open spec fn frame_error_text(e: FrameError) -> Seq<char> {
    match e {
        FrameError::MidFrame => "EOF mid-frame"@,
        FrameError::Over { header, payload } => "frame over "@ + decimal(MAX_FRAME as nat)
            + " bytes: header="@ + decimal(header as nat) + " payload="@ + decimal(payload as nat),
    }
}

impl FrameError {
    /// What the error says.
    pub fn message(&self) -> (r: String)
        ensures
            r@ == frame_error_text(*self),
    {
        match self {
            FrameError::MidFrame => "EOF mid-frame".to_string(),
            FrameError::Over { header, payload } => {
                let mut s = "frame over ".to_string();
                s.append(dec(MAX_FRAME as u64).as_str());
                s.append(" bytes: header=");
                s.append(dec(*header as u64).as_str());
                s.append(" payload=");
                s.append(dec(*payload as u64).as_str());
                s
            },
        }
    }
}

/// The two lengths that open a frame.
pub open spec fn lengths(lens: Seq<u8>) -> (u32, u32) {
    (
        spec_u32_from_le_bytes(lens.subrange(0, 4)),
        spec_u32_from_le_bytes(lens.subrange(4, 8)),
    )
}

/// What the first frame of an input is: none where the input is empty, its
/// header and payload, or why it cannot be read.
pub open spec fn first_frame(input: Seq<u8>) -> Result<Option<(Seq<u8>, Seq<u8>)>, FrameError> {
    if input.len() == 0 {
        Ok(None)
    } else if input.len() < 8 {
        Err(FrameError::MidFrame)
    } else {
        let (h, p) = lengths(input);
        if h > MAX_FRAME || p > MAX_FRAME {
            Err(FrameError::Over { header: h, payload: p })
        } else if input.len() < 8 + h + p {
            Err(FrameError::MidFrame)
        } else {
            Ok(
                Some(
                    (
                        input.subrange(8, 8 + h as int),
                        input.subrange(8 + h as int, 8 + h as int + p as int),
                    ),
                ),
            )
        }
    }
}

fn extend(out: &mut Vec<u8>, from: &[u8])
    ensures
        final(out)@ == old(out)@ + from@,
{
    let ghost was = out@;
    let mut i: usize = 0;
    while i < from.len()
        invariant
            i <= from@.len(),
            out@ == was + from@.take(i as int),
        decreases from@.len() - i,
    {
        out.push(from[i]);
        proof {
            assert(out@ =~= was + from@.take(i + 1));
        }
        i += 1;
    }
    proof {
        assert(from@.take(from@.len() as int) =~= from@);
    }
}

fn part(from: &[u8], a: usize, b: usize) -> (r: Vec<u8>)
    requires
        a <= b <= from@.len(),
    ensures
        r@ == from@.subrange(a as int, b as int),
{
    let mut out: Vec<u8> = Vec::new();
    let mut i: usize = a;
    while i < b
        invariant
            a <= i <= b <= from@.len(),
            out@ == from@.subrange(a as int, i as int),
        decreases b - i,
    {
        out.push(from[i]);
        proof {
            assert(out@ =~= from@.subrange(a as int, i + 1));
        }
        i += 1;
    }
    out
}

/// A frame as it goes over the wire.
pub fn write_frame(header: &[u8], payload: &[u8]) -> (r: Vec<u8>)
    ensures
        r@ == framed(header@, payload@),
{
    let mut out = u32_to_le_bytes(header.len() as u32);
    let plen = u32_to_le_bytes(payload.len() as u32);
    extend(&mut out, plen.as_slice());
    extend(&mut out, header);
    extend(&mut out, payload);
    out
}

/// The two lengths that open a frame, where neither is over the cap.
pub fn read_lengths(lens: &[u8]) -> (r: Result<(u32, u32), FrameError>)
    requires
        lens@.len() >= 8,
    ensures
        ({
            let (h, p) = lengths(lens@);
            match r {
                Ok(x) => x == (h, p) && h <= MAX_FRAME && p <= MAX_FRAME,
                Err(e) => (h > MAX_FRAME || p > MAX_FRAME) && e == (FrameError::Over {
                    header: h,
                    payload: p,
                }),
            }
        }),
{
    let a = part(lens, 0, 4);
    let b = part(lens, 4, 8);
    let h: u32 = u32_from_le_bytes(a.as_slice());
    let p: u32 = u32_from_le_bytes(b.as_slice());
    if h > MAX_FRAME || p > MAX_FRAME {
        Err(FrameError::Over { header: h, payload: p })
    } else {
        Ok((h, p))
    }
}

/// The first frame of an input that ends where its bytes end.
///
/// `Ok(None)` is a clean end at a frame boundary. An input that ends part way
/// through a frame, or a length over `MAX_FRAME`, is an error.
pub fn read_frame(input: &[u8]) -> (r: Result<Option<(Vec<u8>, Vec<u8>)>, FrameError>)
    ensures
        match r {
            Ok(None) => first_frame(input@) == Ok::<Option<(Seq<u8>, Seq<u8>)>, FrameError>(None),
            Ok(Some((h, p))) => first_frame(input@) == Ok::<
                Option<(Seq<u8>, Seq<u8>)>,
                FrameError,
            >(Some((h@, p@))),
            Err(e) => first_frame(input@) == Err::<Option<(Seq<u8>, Seq<u8>)>, FrameError>(e),
        },
{
    if input.len() == 0 {
        return Ok(None);
    }
    if input.len() < 8 {
        return Err(FrameError::MidFrame);
    }
    match read_lengths(input) {
        Err(e) => Err(e),
        Ok((h, p)) => {
            let rest: usize = input.len() - 8;
            if rest < h as usize || rest - (h as usize) < p as usize {
                return Err(FrameError::MidFrame);
            }
            let header = part(input, 8, 8 + h as usize);
            let payload = part(input, 8 + h as usize, 8 + h as usize + p as usize);
            Ok(Some((header, payload)))
        },
    }
}

/// What to do after a read into a buffer that must be filled.
#[derive(Clone, Copy, Debug, PartialEq, Eq, Structural)]
pub enum Fill {
    /// The input ended before the first byte.
    CleanEof,
    /// The input ended part way.
    MidFrame,
    /// Read again from this offset.
    More(usize),
    /// The buffer is full.
    Full,
}

/// The step of filling a buffer of `want` bytes, of which `filled` are there,
/// after a read that gave `got` more. An end of input before the first byte is
/// a clean one.
pub fn read_exact_or_eof(want: usize, filled: usize, got: usize) -> (r: Fill)
    requires
        filled < want,
        got <= want - filled,
    ensures
        r == (if got == 0 {
            if filled == 0 {
                Fill::CleanEof
            } else {
                Fill::MidFrame
            }
        } else if filled + got == want {
            Fill::Full
        } else {
            Fill::More((filled + got) as usize)
        }),
{
    if got == 0 {
        if filled == 0 {
            Fill::CleanEof
        } else {
            Fill::MidFrame
        }
    } else if filled + got == want {
        Fill::Full
    } else {
        Fill::More(filled + got)
    }
}

/// Reading gives back what was written, whatever follows it on the wire.
pub proof fn law_a_frame_reads_back(header: Seq<u8>, payload: Seq<u8>, after: Seq<u8>)
    requires
        header.len() <= MAX_FRAME,
        payload.len() <= MAX_FRAME,
    ensures
        first_frame(framed(header, payload) + after) == Ok::<
            Option<(Seq<u8>, Seq<u8>)>,
            FrameError,
        >(Some((header, payload))),
{
    lemma_auto_spec_u32_to_from_le_bytes();
    let input = framed(header, payload) + after;
    let a = spec_u32_to_le_bytes(header.len() as u32);
    let b = spec_u32_to_le_bytes(payload.len() as u32);
    assert(input.subrange(0, 4) =~= a);
    assert(input.subrange(4, 8) =~= b);
    assert(input.subrange(8, 8 + header.len() as int) =~= header);
    assert(input.subrange(
        8 + header.len() as int,
        8 + header.len() as int + payload.len() as int,
    ) =~= payload);
}

/// A frame that is cut short, after its first byte, is an error.
pub proof fn law_a_cut_frame_is_an_error(header: Seq<u8>, payload: Seq<u8>, n: int)
    requires
        header.len() <= MAX_FRAME,
        payload.len() <= MAX_FRAME,
        0 < n < framed(header, payload).len(),
    ensures
        first_frame(framed(header, payload).take(n)) == Err::<
            Option<(Seq<u8>, Seq<u8>)>,
            FrameError,
        >(FrameError::MidFrame),
{
    lemma_auto_spec_u32_to_from_le_bytes();
    let whole = framed(header, payload);
    let input = whole.take(n);
    let a = spec_u32_to_le_bytes(header.len() as u32);
    let b = spec_u32_to_le_bytes(payload.len() as u32);
    if n >= 8 {
        assert(input.subrange(0, 4) =~= a);
        assert(input.subrange(4, 8) =~= b);
    }
}

/// How a dead peer is found out: idle seconds, seconds between probes, and
/// the number of probes.
pub open spec fn keepalive(dead_after_ms: u64) -> (int, int, int) {
    let total = if dead_after_ms / 1000 > 5 {
        dead_after_ms as int / 1000
    } else {
        5
    };
    (total - 3 * (total / 5), total / 5, 3)
}

/// Splits the time after which a silent peer is dead into idle time and three
/// probes: two fifths, and one fifth each.
pub fn keepalive_split(dead_after_ms: u64) -> (r: (u64, u64, u64))
    ensures
        (r.0 as int, r.1 as int, r.2 as int) == keepalive(dead_after_ms),
        r.0 >= 1,
        r.1 >= 1,
        dead_after_ms >= 5000 ==> r.0 + r.1 * r.2 == dead_after_ms / 1000,
{
    let whole: u64 = dead_after_ms / 1000;
    let total: u64 = if whole > 5 {
        whole
    } else {
        5
    };
    let every: u64 = total / 5;
    (total - 3 * every, every, 3)
}

} // verus!
