//! Probing the groups' endpoints, and sending to them.

use vstd::prelude::*;
use vstd::string::*;

use crate::common::dict::{drop_keys, lemma_those, those, Dict};
use crate::common::json::{meaning, metas, put, Json, JsonV};
use crate::common::text::{
    copied, join, joined, opt_text, same, strip_back, texts, trim_end_matches,
};
use crate::daemon::sweep::{elapsed, since};
use crate::serve::shared::{GroupEntry, GroupV, ProbeResult, ProbeV, Shared, SharedV};

verus! {

broadcast use meaning;

// ---------------------------------------------------------------------------
// The order of a round
// ---------------------------------------------------------------------------
/// Where a text first stands in a list, or its length.
pub open spec fn place_of(v: Seq<Seq<char>>, x: Seq<char>) -> int
    decreases v.len(),
{
    if v.len() == 0 {
        0
    } else if v[0] == x {
        0
    } else {
        1 + place_of(v.skip(1), x)
    }
}

/// The order candidates are tried in: the one that serves already, then the
/// others by rank. In a promotion round, and with none that serves, by rank
/// alone.
pub open spec fn probe_order(
    candidates: Seq<Seq<char>>,
    sticky: Option<Seq<char>>,
    promote: bool,
) -> Seq<Seq<char>> {
    match sticky {
        Some(s) if !promote && place_of(candidates, s) < candidates.len() => {
            let i = place_of(candidates, s);
            seq![candidates[i]] + candidates.take(i) + candidates.skip(i + 1)
        },
        _ => candidates,
    }
}

/// Whether the top-ranked candidate is among those a round has come to, with so
/// many that failed. With none to rank there is none left untried.
pub open spec fn top_tried(order: Seq<Seq<char>>, top: Option<Seq<char>>, failed: nat) -> bool {
    match top {
        Some(c) => exists|i: int| 0 <= i <= failed && i < order.len() && #[trigger] order[i] == c,
        None => true,
    }
}

/// The top-ranked of some candidates.
pub open spec fn top_of(candidates: Seq<Seq<char>>) -> Option<Seq<char>> {
    if candidates.len() > 0 {
        Some(candidates[0])
    } else {
        None
    }
}

fn find_place(v: &Vec<String>, x: &str) -> (r: usize)
    ensures
        r == place_of(texts(v@), x@),
        r <= v@.len(),
{
    let ghost all = texts(v@);
    let mut i: usize = 0;
    proof {
        assert(all.skip(0) =~= all);
    }
    while i < v.len()
        invariant
            i <= v@.len(),
            all == texts(v@),
            place_of(all, x@) == i + place_of(all.skip(i as int), x@),
        decreases v@.len() - i,
    {
        proof {
            assert(all.skip(i as int)[0] == v@[i as int]@);
            assert(all.skip(i as int).skip(1) =~= all.skip(i + 1));
        }
        if same(v[i].as_str(), x) {
            return i;
        }
        i += 1;
    }
    i
}

/// One round of probing a group's endpoint: the candidates in the order they are
/// tried, how many have failed, and how.
#[derive(Debug)]
pub struct ProbeRun {
    pub order: Vec<String>,
    /// The top-ranked candidate.
    pub top: Option<String>,
    /// Whether the round has come to the top-ranked candidate, which is what resets
    /// the promotion clock.
    pub tried_top: bool,
    pub errors: Vec<String>,
}

impl ProbeRun {
    /// Whether the flag says what it stands for.
    pub open spec fn wf(&self) -> bool {
        self.tried_top == top_tried(texts(self.order@), opt_text(self.top), self.errors@.len())
    }
}

/// Starts a round.
///
/// The order is the whole behaviour. With a selection that serves, that address
/// goes first and the list is only walked when it fails, so a working route is
/// never abandoned for a decision anew. A promotion round walks plain rank
/// order, and a success above the selection restores the route to the node's
/// preferred link.
pub fn probe_start(candidates: &Vec<String>, sticky: &Option<String>, promote: bool) -> (r:
    ProbeRun)
    ensures
        texts(r.order@) == probe_order(texts(candidates@), opt_text(*sticky), promote),
        opt_text(r.top) == top_of(texts(candidates@)),
        r.errors@.len() == 0,
        r.wf(),
{
    let ghost all = texts(candidates@);
    let mut order: Vec<String> = Vec::new();
    let at: usize = match sticky {
        Some(s) => if promote {
            candidates.len()
        } else {
            find_place(candidates, s.as_str())
        },
        None => candidates.len(),
    };
    if at < candidates.len() {
        order.push(candidates[at].clone());
        let mut i: usize = 0;
        proof {
            assert(texts(order@) =~= seq![all[at as int]] + all.take(0));
        }
        while i < at
            invariant
                i <= at < candidates@.len(),
                all == texts(candidates@),
                texts(order@) == seq![all[at as int]] + all.take(i as int),
            decreases at - i,
        {
            let ghost was = texts(order@);
            order.push(candidates[i].clone());
            proof {
                assert(texts(order@) =~= was.push(all[i as int]));
                assert(texts(order@) =~= seq![all[at as int]] + all.take(i + 1));
            }
            i += 1;
        }
        let ghost head = texts(order@);
        i = at + 1;
        proof {
            assert(head + all.subrange(at + 1, at + 1) =~= head);
        }
        while i < candidates.len()
            invariant
                at + 1 <= i <= candidates@.len(),
                all == texts(candidates@),
                texts(order@) == head + all.subrange(at + 1, i as int),
            decreases candidates@.len() - i,
        {
            let ghost was = texts(order@);
            order.push(candidates[i].clone());
            proof {
                assert(texts(order@) =~= was.push(all[i as int]));
                assert(texts(order@) =~= head + all.subrange(at + 1, i + 1));
            }
            i += 1;
        }
        proof {
            assert(all.subrange(at + 1, all.len() as int) =~= all.skip(at + 1));
        }
    } else {
        order = copied(candidates);
    }
    proof {
        assert(texts(order@) =~= probe_order(all, opt_text(*sticky), promote));
        if candidates@.len() > 0 {
            assert(all[0] == candidates@[0]@);
        }
    }
    let top = if candidates.len() > 0 {
        Some(candidates[0].clone())
    } else {
        None
    };
    let mut run = ProbeRun { order, top, tried_top: true, errors: Vec::new() };
    run.tried_top = run.top.is_none() || run.at_top();
    proof {
        if run.top is Some {
            lemma_come_to(texts(run.order@), opt_text(run.top), 0);
        }
    }
    run
}

/// A round comes to one candidate at a time.
proof fn lemma_come_to(order: Seq<Seq<char>>, top: Option<Seq<char>>, n: nat)
    requires
        top is Some,
    ensures
        top_tried(order, top, n) == ((n > 0 && top_tried(order, top, (n - 1) as nat)) || (n
            < order.len() && order[n as int] == top->Some_0)),
{
    if top_tried(order, top, n) {
        let i = choose|i: int|
            0 <= i <= n && i < order.len() && #[trigger] order[i] == top->Some_0;
        if i < n {
            assert(0 <= i <= n - 1);
        }
    }
    if n > 0 && top_tried(order, top, (n - 1) as nat) {
        let i = choose|i: int|
            0 <= i <= n - 1 && i < order.len() && #[trigger] order[i] == top->Some_0;
        assert(0 <= i <= n);
    }
    if n < order.len() && order[n as int] == top->Some_0 {
        assert(0 <= n <= n);
    }
}

proof fn lemma_place(v: Seq<Seq<char>>, x: Seq<char>)
    ensures
        0 <= place_of(v, x) <= v.len(),
        place_of(v, x) < v.len() ==> v[place_of(v, x)] == x,
        v.contains(x) ==> place_of(v, x) < v.len(),
    decreases v.len(),
{
    if v.len() > 0 && v[0] != x {
        lemma_place(v.skip(1), x);
        if v.contains(x) {
            assert(v.skip(1)[v.index_of(x) - 1] == x);
        }
    }
}

/// A round tries every candidate, each as often as it is listed.
pub proof fn law_a_round_tries_every_candidate(
    candidates: Seq<Seq<char>>,
    sticky: Option<Seq<char>>,
    promote: bool,
)
    ensures
        probe_order(candidates, sticky, promote).to_multiset() == candidates.to_multiset(),
{
    broadcast use vstd::seq_lib::group_to_multiset_ensures;

    if let Some(s) = sticky {
        lemma_place(candidates, s);
        let i = place_of(candidates, s);
        if !promote && i < candidates.len() {
            let x = candidates[i];
            let rest = candidates.take(i) + candidates.skip(i + 1);
            assert(candidates.remove(i) =~= rest);
            assert(candidates =~= rest.insert(i, x));
            vstd::seq_lib::to_multiset_insert(rest, i, x);
            assert(probe_order(candidates, sticky, promote) =~= rest.insert(0, x));
            vstd::seq_lib::to_multiset_insert(rest, 0, x);
        }
    }
}

/// A selection that serves is tried first, unless the round is one of promotion,
/// which starts from the top of the ranking.
pub proof fn law_a_working_selection_goes_first(
    candidates: Seq<Seq<char>>,
    sticky: Seq<char>,
    promote: bool,
)
    requires
        candidates.contains(sticky),
    ensures
        probe_order(candidates, Some(sticky), promote)[0] == (if promote {
            candidates[0]
        } else {
            sticky
        }),
{
    lemma_place(candidates, sticky);
}

/// A round that nobody replied to has tried the top-ranked candidate, and so has
/// any round of promotion.
pub proof fn law_the_top_is_tried(
    candidates: Seq<Seq<char>>,
    sticky: Option<Seq<char>>,
    promote: bool,
)
    ensures
        top_tried(
            probe_order(candidates, sticky, promote),
            top_of(candidates),
            candidates.len(),
        ),
        top_tried(probe_order(candidates, sticky, true), top_of(candidates), 0),
{
    let order = probe_order(candidates, sticky, promote);
    if candidates.len() > 0 {
        assert(probe_order(candidates, sticky, true)[0] == candidates[0]);
        if let Some(s) = sticky {
            lemma_place(candidates, s);
            let i = place_of(candidates, s);
            if !promote && i < candidates.len() && i > 0 {
                assert(order[1] == candidates[0]);
            } else {
                assert(order[0] == candidates[0]);
            }
        } else {
            assert(order[0] == candidates[0]);
        }
    }
}

/// What a candidate is asked for.
pub open spec fn models_url(base: Seq<char>) -> Seq<char> {
    strip_back(base, '/') + "/models"@
}

impl ProbeRun {
    /// The URL to ask next, or nothing when every candidate has failed.
    pub fn next(&self) -> (r: Option<String>)
        ensures
            match r {
                Some(u) => self.errors@.len() < self.order@.len() && u@ == models_url(
                    self.order@[self.errors@.len() as int]@,
                ),
                None => self.errors@.len() >= self.order@.len(),
            },
    {
        if self.errors.len() < self.order.len() {
            let mut u = trim_end_matches(
                self.order[self.errors.len()].as_str(),
                '/',
            ).to_string();
            u.append("/models");
            Some(u)
        } else {
            None
        }
    }

    fn at_top(&self) -> (r: bool)
        ensures
            r == (self.errors@.len() < self.order@.len() && self.top is Some
                && self.order@[self.errors@.len() as int]@ == self.top->Some_0@),
    {
        match &self.top {
            Some(c) => self.errors.len() < self.order.len() && same(
                self.order[self.errors.len()].as_str(),
                c.as_str(),
            ),
            None => false,
        }
    }

    /// Takes in that the candidate asked last failed, and comes to the next one.
    pub fn failed(&mut self, error: &str)
        requires
            old(self).errors@.len() < old(self).order@.len(),
            old(self).wf(),
        ensures
            final(self).order == old(self).order,
            final(self).top == old(self).top,
            texts(final(self).errors@) == texts(old(self).errors@).push(
                old(self).order@[old(self).errors@.len() as int]@ + ": "@ + error@,
            ),
            final(self).wf(),
    {
        let ghost was = self.errors@;
        let mut e = self.order[self.errors.len()].clone();
        e.append(": ");
        e.append(error);
        let ghost ev = e@;
        self.errors.push(e);
        let here = self.at_top();
        self.tried_top = self.tried_top || here;
        proof {
            assert(texts(self.errors@) =~= texts(was).push(ev));
            if self.top is Some {
                lemma_come_to(texts(self.order@), opt_text(self.top), self.errors@.len());
            }
        }
    }

    /// What a round comes to when the candidate asked last replied: whether the
    /// top-ranked one was tried, who replied, and its models.
    pub fn replied(&self, reply: &Json) -> (r: (bool, RoundResult))
        requires
            self.errors@.len() < self.order@.len(),
            self.wf(),
        ensures
            r.0 == top_tried(texts(self.order@), opt_text(self.top), self.errors@.len()),
            r.1 matches RoundResult::Replied { url, models } && url@
                == self.order@[self.errors@.len() as int]@ && metas(models@) == named_models(
                reply.v().field("data"@).items(),
            ),
    {
        let url = self.order[self.errors.len()].clone();
        (self.tried_top, RoundResult::Replied { url, models: models_in(reply) })
    }

    /// What a round comes to when nobody replied: whether the top-ranked candidate
    /// was tried, and what went wrong with every one.
    pub fn exhausted(&self) -> (r: (bool, RoundResult))
        requires
            self.wf(),
        ensures
            r.0 == top_tried(texts(self.order@), opt_text(self.top), self.errors@.len()),
            r.1 matches RoundResult::Failed { error } && error@ == joined(
                texts(self.errors@),
                "; "@,
            ),
    {
        (self.tried_top, RoundResult::Failed { error: self.error() })
    }

    /// What went wrong with every candidate.
    pub fn error(&self) -> (r: String)
        ensures
            r@ == joined(texts(self.errors@), "; "@),
    {
        join(&self.errors, "; ")
    }
}

/// The entries of a listing that have a name. One without cannot be named or
/// routed to.
pub open spec fn named_models(v: Seq<JsonV>) -> Seq<JsonV>
    decreases v.len(),
{
    if v.len() == 0 {
        Seq::empty()
    } else {
        let had = named_models(v.drop_last());
        if v.last().field("id"@).text() is Some {
            had.push(v.last())
        } else {
            had
        }
    }
}

/// The model entries of an endpoint's reply.
pub fn models_in(reply: &Json) -> (r: Vec<Json>)
    ensures
        metas(r@) == named_models(reply.v().field("data"@).items()),
{
    let mut out: Vec<Json> = Vec::new();
    proof {
        assert(metas(out@) =~= Seq::<JsonV>::empty());
    }
    let data = match reply.items_at("data") {
        Some(d) => d,
        None => {
            proof {
                assert(reply.v().field("data"@).items() =~= Seq::<JsonV>::empty());
            }
            return out;
        },
    };
    let ghost all = metas(data@);
    let mut i: usize = 0;
    while i < data.len()
        invariant
            i <= data@.len(),
            all == metas(data@),
            metas(out@) == named_models(all.take(i as int)),
        decreases data@.len() - i,
    {
        let m = &data[i];
        proof {
            assert(all.take(i + 1).drop_last() =~= all.take(i as int));
            assert(all.take(i + 1).last() == m.v());
        }
        if m.text_at("id").is_some() {
            let ghost was = out@;
            let c = m.copy();
            let ghost cv = c.v();
            out.push(c);
            proof {
                assert(metas(out@) =~= metas(was).push(cv));
            }
        }
        i += 1;
    }
    proof {
        assert(all.take(all.len() as int) =~= all);
    }
    out
}

// ---------------------------------------------------------------------------
// Probes
// ---------------------------------------------------------------------------
/// Whether a group's probe is kept: it still announces an endpoint.
pub open spec fn still_announced(table: Map<Seq<char>, GroupV>, k: Seq<char>) -> bool {
    table.contains_key(k) && table[k].openai is Some
}

/// Drops the probes of the groups that no longer announce an endpoint.
pub fn keep_probes(sh: &mut Shared, table: &Dict<GroupEntry>)
    ensures
        final(sh)@ == (SharedV {
            probes: old(sh)@.probes.restrict(
                Set::new(|k: Seq<char>| still_announced(table.deep_view(), k)),
            ),
            ..old(sh)@
        }),
{
    let ghost s0 = sh@;
    let ghost tv = table.deep_view();
    let keys = sh.probes.keys();
    let ghost order = texts(keys@);
    let ghost p = |k: Seq<char>| !still_announced(tv, k);
    let mut dead: Vec<String> = Vec::new();
    let mut i: usize = 0;
    proof {
        assert(texts(dead@) =~= Seq::<Seq<char>>::empty());
    }
    while i < keys.len()
        invariant
            i <= keys@.len(),
            order == texts(keys@),
            tv == table.deep_view(),
            p == (|k: Seq<char>| !still_announced(tv, k)),
            texts(dead@) == those(order.take(i as int), p),
        decreases keys@.len() - i,
    {
        proof {
            assert(order.take(i + 1).drop_last() =~= order.take(i as int));
            assert(order.take(i + 1).last() == keys@[i as int]@);
        }
        let keep = match table.get(keys[i].as_str()) {
            Some(e) => {
                proof {
                    assert(tv[keys@[i as int]@] == e.deep_view());
                }
                e.openai.is_some()
            },
            None => false,
        };
        if !keep {
            let ghost was = dead@;
            dead.push(keys[i].clone());
            proof {
                assert(texts(dead@) =~= texts(was).push(keys@[i as int]@));
            }
        }
        i += 1;
    }
    proof {
        assert(order.take(order.len() as int) =~= order);
    }
    drop_keys(&mut sh.probes, &dead);
    proof {
        lemma_those(order, p);
        let keep = Set::new(|k: Seq<char>| still_announced(tv, k));
        assert forall|k: Seq<char>| s0.probes.contains_key(k) implies (texts(dead@).to_set().contains(
            k,
        ) <==> !keep.contains(k)) by {
            assert(order.contains(k)) by {
                assert(s0.probes.dom().contains(k));
            }
        }
        assert(sh@.probes =~= s0.probes.restrict(keep));
    }
}

/// The probe a group is due: the candidate that serves it, and whether the ones
/// ranked above are tried first. A fall-through is already serving, so that is
/// rare: every attempt while the preferred link is down is a wasted connect.
pub open spec fn due(s: SharedV, group: Seq<char>, now: u64) -> (Option<Seq<char>>, bool) {
    if s.probes.contains_key(group) {
        (
            s.probes[group].selected,
            since(now, s.probes[group].promoted_at) >= s.cfg.probe_promote,
        )
    } else {
        (None, true)
    }
}

/// The round of probes a group is due, where it has candidates.
pub fn probe_group(sh: &Shared, e: &GroupEntry, now: u64) -> (r: Option<ProbeRun>)
    ensures
        match r {
            Some(run) => e.deep_view().openai matches Some(ep) && ep.candidates.len() > 0 && texts(
                run.order@,
            ) == ({
                let (sticky, promote) = due(sh@, e.deep_view().group, now);
                probe_order(ep.candidates, sticky, promote)
            }) && opt_text(run.top) == top_of(ep.candidates) && run.wf() && run.errors@.len() == 0,
            None => e.deep_view().openai is None || e.deep_view().openai->Some_0.candidates.len()
                == 0,
        },
{
    let ep = match &e.openai {
        Some(ep) => ep,
        None => return None,
    };
    if ep.candidates.len() == 0 {
        return None;
    }
    match sh.probes.get(e.group.as_str()) {
        Some(p) => {
            proof {
                assert(sh@.probes[e.group@] == p.deep_view());
            }
            let promote = elapsed(now, p.promoted_at) >= sh.cfg.probe_promote;
            Some(probe_start(&ep.candidates, &p.selected, promote))
        },
        None => Some(probe_start(&ep.candidates, &None, true)),
    }
}

/// What came of a round of probes: who replied and with which models, or what
/// went wrong with every candidate.
#[derive(Debug)]
pub enum RoundResult {
    Replied { url: String, models: Vec<Json> },
    Failed { error: String },
}

/// A group's probe after a round.
pub open spec fn probed(
    s: SharedV,
    group: Seq<char>,
    tried_top: bool,
    got: RoundResult,
    now: u64,
) -> ProbeV {
    let promoted_at = if tried_top || !s.probes.contains_key(group) {
        now
    } else {
        s.probes[group].promoted_at
    };
    match got {
        RoundResult::Replied { url, models } => ProbeV {
            ok: true,
            models: if models@.len() == 0 {
                seq![JsonV::Obj(map!["id"@ => JsonV::Str(group)])]
            } else {
                metas(models@)
            },
            seen: now,
            error: None,
            selected: Some(url@),
            promoted_at,
        },
        RoundResult::Failed { error } => ProbeV {
            ok: false,
            models: Seq::empty(),
            seen: now,
            error: Some(error@),
            selected: None,
            promoted_at,
        },
    }
}

/// Stores what came of a round. An endpoint that replies but lists nothing still
/// serves, under the group's name. With nothing that replied there is nothing to
/// be routed to, and recovery starts from the top of the ranking.
pub fn probe_landed(sh: &mut Shared, group: &str, tried_top: bool, got: RoundResult, now: u64)
    ensures
        final(sh)@ == (SharedV {
            probes: old(sh)@.probes.insert(
                group@,
                probed(old(sh)@, group@, tried_top, got, now),
            ),
            ..old(sh)@
        }),
{
    let ghost s0 = sh@;
    let promoted_at: u64 = match sh.probes.get(group) {
        Some(p) => {
            proof {
                assert(s0.probes[group@] == p.deep_view());
            }
            if tried_top {
                now
            } else {
                p.promoted_at
            }
        },
        None => now,
    };
    let pr = match got {
        RoundResult::Replied { url, models } => {
            let mut models = models;
            if models.len() == 0 {
                let mut d = Json::object();
                put(&mut d, "id", Json::str(group));
                proof {
                    assert(d.deep_view() =~= map!["id"@ => JsonV::Str(group@)]);
                }
                models.push(Json::Obj(d));
                proof {
                    assert(metas(models@) =~= seq![
                        JsonV::Obj(map!["id"@ => JsonV::Str(group@)]),
                    ]);
                }
            }
            ProbeResult {
                ok: true,
                models,
                seen: now,
                error: None,
                selected: Some(url),
                promoted_at,
            }
        },
        RoundResult::Failed { error } => {
            let none: Vec<Json> = Vec::new();
            proof {
                assert(metas(none@) =~= Seq::<JsonV>::empty());
            }
            ProbeResult {
                ok: false,
                models: none,
                seen: now,
                error: Some(error),
                selected: None,
                promoted_at,
            }
        },
    };
    let ghost pv = pr.deep_view();
    sh.probes.insert(group.to_string(), pr);
    proof {
        assert(pv == probed(s0, group@, tried_top, got, now));
        assert(sh@.probes =~= s0.probes.insert(group@, pv));
    }
}

// ---------------------------------------------------------------------------
// Sending
// ---------------------------------------------------------------------------
/// Why a request did not get a response.
#[derive(Debug)]
pub struct SendError {
    pub msg: String,
    /// The connection was refused or unreachable. Nothing was sent.
    pub connect: bool,
    pub timeout: bool,
}

/// What to do after a failed attempt over the pool.
#[derive(Debug)]
pub enum AfterFirst {
    /// Report this.
    GiveUp { error: String },
    /// Try once more, over a new connection.
    Retry,
}

/// What to do after a failed attempt over the pool, for a request that is safe to
/// repeat.
///
/// A refused connection never got anywhere, so a retry would only fail the same
/// way, and a timeout would double. Anything else got far enough to have been a
/// live socket, which the server may have closed while it was idle.
pub fn after_first(e: &SendError) -> (r: AfterFirst)
    ensures
        match r {
            AfterFirst::GiveUp { error } => (e.connect || e.timeout) && error@ == e.msg@,
            AfterFirst::Retry => !e.connect && !e.timeout,
        },
{
    if e.connect || e.timeout {
        AfterFirst::GiveUp { error: e.msg.clone() }
    } else {
        AfterFirst::Retry
    }
}

/// What to report when the retry failed too. Its own error leads: it is the one
/// with no stale connection behind it.
pub fn after_retry(first: &SendError, retry: &SendError) -> (r: String)
    ensures
        r@ == (if retry.timeout {
            retry.msg@
        } else {
            retry.msg@ + " (first attempt: "@ + first.msg@ + ")"@
        }),
{
    let mut s = retry.msg.clone();
    if !retry.timeout {
        let mut note = " (first attempt: ".to_string();
        note.append(first.msg.as_str());
        note.append(")");
        s.append(note.as_str());
    }
    proof {
        if !retry.timeout {
            assert(s@ =~= retry.msg@ + " (first attempt: "@ + first.msg@ + ")"@);
        }
    }
    s
}

// ---------------------------------------------------------------------------
// Requests
// ---------------------------------------------------------------------------
/// Who answers a request.
#[derive(Clone, Copy, Debug, PartialEq, Eq, Structural)]
pub enum Page {
    /// The page a browser gets.
    Ui,
    /// The status document.
    Status,
    /// The statistics document.
    Stats,
    /// The list of models.
    Models,
    /// The tools endpoint.
    Mcp,
    /// The token counter, which the router answers itself.
    Tokens,
    /// Whoever serves the model that the body names.
    Forward,
    NotFound,
}

/// A path without the slashes at its end.
pub open spec fn plain_path(path: Seq<char>) -> Seq<char> {
    if strip_back(path, '/').len() == 0 {
        "/"@
    } else {
        strip_back(path, '/')
    }
}

/// Who answers a request.
pub open spec fn page_for(method: Seq<char>, path: Seq<char>, html: bool) -> Page {
    let p = plain_path(path);
    if method == "GET"@ {
        if p == "/"@ && html {
            Page::Ui
        } else if p == "/"@ || p == "/healthz"@ || p == "/status.json"@ {
            Page::Status
        } else if p == "/stats.json"@ {
            Page::Stats
        } else if p == "/v1"@ || p == "/v1/models"@ {
            Page::Models
        } else {
            Page::NotFound
        }
    } else if method == "POST"@ {
        if p == "/mcp"@ {
            Page::Mcp
        } else if p == "/v1/responses/input_tokens"@ {
            Page::Tokens
        } else {
            Page::Forward
        }
    } else {
        Page::NotFound
    }
}

/// Who answers a request. A browser requesting the root gets the page; everything
/// else gets the document. Anything posted that the router does not own goes to
/// whoever serves the model in its body: the engines' endpoints move between
/// versions and a pinned list would rot.
pub fn handle(method: &str, path: &str, html: bool) -> (r: Page)
    ensures
        r == page_for(method@, path@, html),
{
    let t = trim_end_matches(path, '/');
    let p = if t.is_empty() {
        "/"
    } else {
        t
    };
    if same(method, "GET") {
        if same(p, "/") && html {
            Page::Ui
        } else if same(p, "/") || same(p, "/healthz") || same(p, "/status.json") {
            Page::Status
        } else if same(p, "/stats.json") {
            Page::Stats
        } else if same(p, "/v1") || same(p, "/v1/models") {
            Page::Models
        } else {
            Page::NotFound
        }
    } else if same(method, "POST") {
        if same(p, "/mcp") {
            Page::Mcp
        } else if same(p, "/v1/responses/input_tokens") {
            Page::Tokens
        } else {
            Page::Forward
        }
    } else {
        Page::NotFound
    }
}

} // verus!
