//! The groups that may serve: their clocks, their health, and their models.

use vstd::prelude::*;
use vstd::string::*;

use crate::common::dict::{drop_keys, lemma_take_contains, lemma_those, lists, ordered, those, Dict};
use crate::common::json::{
    copies, lemma_valued, meaning, metas, opt_str, opt_str_json, opt_uint, opt_uint_json, put,
    str_array, str_list, Json, JsonV,
};
use crate::common::text::{opt_text, texts};
use crate::daemon::status::keys_json;
use crate::daemon::sweep::{elapsed, since};
use crate::serve::groups::{announced_groups, announced_table, law_the_table_is_by_group};
use crate::serve::net::Net;
use crate::serve::shared::{best_of, DaemonV, GroupEntry, GroupV, Liveness, Shared, SharedV};

verus! {

broadcast use meaning;

// ---------------------------------------------------------------------------
// The serving clock
// ---------------------------------------------------------------------------
/// A clock that starts.
pub open spec fn started(now: u64) -> Liveness {
    Liveness { ok_at: now, told: false }
}

/// Whether a group has been unable to serve for longer than `ttl`.
pub open spec fn is_retired(l: Liveness, now: u64, ttl: u64) -> bool {
    since(now, l.ok_at) > ttl
}

/// A clock after one probe round.
pub open spec fn after_round(l: Liveness, now: u64, ok: bool, ttl: u64) -> Liveness {
    if ok {
        started(now)
    } else {
        Liveness { told: l.told || is_retired(l, now, ttl), ..l }
    }
}

/// Whether a round is the one that retires the group.
pub open spec fn retires(l: Liveness, now: u64, ok: bool, ttl: u64) -> bool {
    !ok && !l.told && is_retired(l, now, ttl)
}

impl Liveness {
    /// A clock that starts.
    pub fn new(now: u64) -> (r: Liveness)
        ensures
            r == started(now),
    {
        Liveness { ok_at: now, told: false }
    }

    /// Whether the group has been unable to serve for longer than `ttl`.
    pub fn retired(&self, now: u64, ttl: u64) -> (r: bool)
        ensures
            r == is_retired(*self, now, ttl),
    {
        elapsed(now, self.ok_at) > ttl
    }

    /// Folds in one probe round. True on the round that retires the group, which
    /// is the one round worth a log line.
    pub fn round(&mut self, now: u64, ok: bool, ttl: u64) -> (r: bool)
        ensures
            *final(self) == after_round(*old(self), now, ok, ttl),
            r == retires(*old(self), now, ok, ttl),
    {
        if ok {
            *self = Liveness::new(now);
            return false;
        }
        if self.told || !self.retired(now, ttl) {
            return false;
        }
        self.told = true;
        true
    }
}

/// One good round is the whole recovery, however long the group was down.
pub proof fn law_serving_again_un_retires(l: Liveness, now: u64, ttl: u64)
    ensures
        !is_retired(after_round(l, now, true, ttl), now, ttl),
        !after_round(l, now, true, ttl).told,
{
}

/// A retirement is told once in an outage, whatever rounds follow.
pub proof fn law_a_retirement_is_told_once(l: Liveness, now: u64, later: u64, ttl: u64)
    requires
        retires(l, now, false, ttl),
    ensures
        !retires(after_round(l, now, false, ttl), later, false, ttl),
{
}

// ---------------------------------------------------------------------------
// The table that callers see
// ---------------------------------------------------------------------------
/// Whether a group's clock has retired it. One announced since the prober last
/// ran has not been judged yet.
pub open spec fn gone(s: SharedV, now: u64, group: Seq<char>) -> bool {
    s.live.contains_key(group) && is_retired(s.live[group], now, s.cfg.model_ttl)
}

/// The groups a caller may see: those announced, without the retired ones.
pub open spec fn visible(s: SharedV, now: u64, local: Seq<Net>) -> Map<Seq<char>, GroupV> {
    let t = announced_table(s, now, local);
    Map::new(|k: Seq<char>| t.contains_key(k) && !gone(s, now, k), |k: Seq<char>| t[k])
}

/// The groups a caller may see: those announced, without the ones retired for
/// being unable to serve.
///
/// A daemon never declares a group over: it keeps the rows of a container that
/// is long gone. The clock is the router's own and starts when a group is first
/// seen, so one that never comes up is retired on the same terms as one that
/// stopped.
pub fn group_table(sh: &Shared, now: u64, local: &Vec<Net>) -> (r: Dict<GroupEntry>)
    ensures
        r.deep_view() == visible(sh@, now, local@),
{
    let mut out = announced_groups(sh, now, local);
    let ghost order = out.order();
    let n: usize = out.len();
    let ghost p = |k: Seq<char>| gone(sh@, now, k);
    let mut dead: Vec<String> = Vec::new();
    let mut i: usize = 0;
    proof {
        assert(order.take(0) =~= Seq::<Seq<char>>::empty());
        assert(texts(dead@) =~= Seq::<Seq<char>>::empty());
    }
    while i < n
        invariant
            i <= n,
            n == order.len(),
            order == out.order(),
            p == (|k: Seq<char>| gone(sh@, now, k)),
            texts(dead@) == those(order.take(i as int), p),
        decreases n - i,
    {
        let k = out.key_at(i);
        proof {
            assert(order.take(i + 1).drop_last() =~= order.take(i as int));
            assert(order.take(i + 1).last() == k@);
        }
        if let Some(l) = sh.live.get(k.as_str()) {
            proof {
                assert(sh@.live[k@] == *l);
            }
            if l.retired(now, sh.cfg.model_ttl) {
                let ghost was = dead@;
                dead.push(k.clone());
                proof {
                    assert(texts(dead@) =~= texts(was).push(k@));
                }
            }
        }
        i += 1;
    }
    proof {
        assert(order.take(order.len() as int) =~= order);
    }
    drop_keys(&mut out, &dead);
    proof {
        lemma_those(order, p);
        assert(out.deep_view() =~= visible(sh@, now, local@));
    }
    out
}

// ---------------------------------------------------------------------------
// Health
// ---------------------------------------------------------------------------
/// The models of a group that may serve, or why it may not.
pub open spec fn health(s: SharedV, e: GroupV, now: u64) -> Result<Seq<JsonV>, Seq<char>> {
    match e.openai {
        None => Err("no announced OpenAI endpoint"@),
        Some(ep) => if ep.candidates.len() == 0 {
            Err(
                "announced "@ + ep.announced
                    + ", and no address of that node passes ALLOWED_SOURCES"@,
            )
        } else if e.placed && e.running == 0 {
            Err("no running actors"@)
        } else if !s.probes.contains_key(e.group) {
            Err("not probed yet"@)
        } else {
            let p = s.probes[e.group];
            if !p.ok {
                Err(
                    "endpoint probe failed: "@ + (match p.error {
                        Some(x) => x,
                        None => "unknown"@,
                    }) + (match ep.note {
                        Some(n) => " (agent reports: "@ + n + ")"@,
                        None => Seq::empty(),
                    }),
                )
            } else if since(now, p.seen) > s.cfg.probe_fresh {
                Err("endpoint probe stale"@)
            } else {
                Ok(p.models)
            }
        },
    }
}

/// The models of a group that may serve traffic, or why it may not.
///
/// An endpoint that outlives every rank still lists models, and only rank state
/// catches it; a group that never had actors has none to consult. What the
/// agent found is appended to a probe failure: it explains it without being the
/// gate.
pub fn health_of(sh: &Shared, e: &GroupEntry, now: u64) -> (r: Result<Vec<Json>, String>)
    ensures
        match r {
            Ok(m) => health(sh@, e.deep_view(), now) == Ok::<Seq<JsonV>, Seq<char>>(metas(m@)),
            Err(w) => health(sh@, e.deep_view(), now) == Err::<Seq<JsonV>, Seq<char>>(w@),
        },
{
    let ep = match &e.openai {
        Some(ep) => ep,
        None => return Err("no announced OpenAI endpoint".to_string()),
    };
    if ep.candidates.len() == 0 {
        let mut why = "announced ".to_string();
        why.append(ep.announced.as_str());
        why.append(", and no address of that node passes ALLOWED_SOURCES");
        return Err(why);
    }
    if e.placed && e.running == 0 {
        return Err("no running actors".to_string());
    }
    match sh.probes.get(e.group.as_str()) {
        None => Err("not probed yet".to_string()),
        Some(p) => {
            proof {
                assert(sh@.probes[e.group@] == p.deep_view());
            }
            if !p.ok {
                let mut why = "endpoint probe failed: ".to_string();
                match &p.error {
                    Some(x) => why.append(x.as_str()),
                    None => why.append("unknown"),
                }
                match &ep.note {
                    Some(n) => {
                        let mut note = " (agent reports: ".to_string();
                        note.append(n.as_str());
                        note.append(")");
                        why.append(note.as_str());
                    },
                    None => {
                        proof {
                            assert(why@ + Seq::<char>::empty() =~= why@);
                        }
                    },
                }
                return Err(why);
            }
            if elapsed(now, p.seen) > sh.cfg.probe_fresh {
                return Err("endpoint probe stale".to_string());
            }
            Ok(copies(&p.models))
        },
    }
}

/// A group is routable only while its endpoint answered a recent probe, and
/// never on the strength of a dead set of ranks.
pub proof fn law_only_a_probed_group_serves(s: SharedV, e: GroupV, now: u64)
    ensures
        health(s, e, now) is Ok ==> {
            &&& s.probes.contains_key(e.group)
            &&& s.probes[e.group].ok
            &&& since(now, s.probes[e.group].seen) <= s.cfg.probe_fresh
            &&& !(e.placed && e.running == 0)
            &&& e.openai is Some
        },
{
}

/// A group serves exactly where its endpoint is announced on an address that may be
/// used, its ranks run or it has none, and its endpoint answered a probe that is no
/// older than is fresh. It then serves the models that the probe found.
pub proof fn law_a_probed_group_serves(s: SharedV, e: GroupV, now: u64)
    ensures
        ({
            let p = s.probes[e.group];
            &&& health(s, e, now) is Ok <==> {
                &&& e.openai is Some
                &&& e.openai->0.candidates.len() > 0
                &&& !e.placed || e.running != 0
                &&& s.probes.contains_key(e.group)
                &&& p.ok
                &&& now <= p.seen + s.cfg.probe_fresh
            }
            &&& health(s, e, now) is Ok ==> health(s, e, now)->Ok_0 == p.models
        }),
{
}

/// Where a group's traffic goes: the candidate the prober settled on, or the
/// best-ranked one.
pub open spec fn url_for(s: SharedV, e: GroupV) -> Option<Seq<char>> {
    match e.openai {
        None => None,
        Some(ep) => if s.probes.contains_key(e.group) && s.probes[e.group].selected is Some {
            s.probes[e.group].selected
        } else {
            best_of(ep)
        },
    }
}

/// Where a group's traffic goes: the candidate the prober settled on, or the
/// best-ranked one.
pub fn endpoint_url(sh: &Shared, e: &GroupEntry) -> (r: Option<String>)
    ensures
        opt_text(r) == url_for(sh@, e.deep_view()),
{
    let ep = match &e.openai {
        Some(ep) => ep,
        None => return None,
    };
    if let Some(p) = sh.probes.get(e.group.as_str()) {
        proof {
            assert(sh@.probes[e.group@] == p.deep_view());
        }
        if let Some(u) = &p.selected {
            return Some(u.clone());
        }
    }
    match ep.best() {
        Some(u) => Some(u.to_string()),
        None => None,
    }
}

// ---------------------------------------------------------------------------
// Ageing
// ---------------------------------------------------------------------------
/// A group's clock before a round: the one it has, or one that starts.
pub open spec fn clock_of(s: SharedV, now: u64, group: Seq<char>) -> Liveness {
    if s.live.contains_key(group) {
        s.live[group]
    } else {
        started(now)
    }
}

/// The clocks after a probe round. A group no daemon mentions any more is gone
/// rather than retired, and keeps none.
pub open spec fn aged(s: SharedV, table: Map<Seq<char>, GroupV>, now: u64) -> Map<
    Seq<char>,
    Liveness,
> {
    Map::new(
        |k: Seq<char>| table.contains_key(k),
        |k: Seq<char>|
            after_round(
                clock_of(s, now, k),
                now,
                health(s, table[k], now) is Ok,
                s.cfg.model_ttl,
            ),
    )
}

/// Of some groups those that a round retires, with the reason.
pub open spec fn retirements(
    s: SharedV,
    table: Map<Seq<char>, GroupV>,
    keys: Seq<Seq<char>>,
    now: u64,
) -> Seq<(Seq<char>, Seq<char>)>
    decreases keys.len(),
{
    if keys.len() == 0 {
        Seq::empty()
    } else {
        let had = retirements(s, table, keys.drop_last(), now);
        let k = keys.last();
        match health(s, table[k], now) {
            Err(why) if retires(clock_of(s, now, k), now, false, s.cfg.model_ttl) => had.push(
                (k, why),
            ),
            _ => had,
        }
    }
}

/// Pairs of texts as mathematical values.
pub open spec fn text_pairs(v: Seq<(String, String)>) -> Seq<(Seq<char>, Seq<char>)> {
    Seq::new(v.len(), |i: int| (v[i].0@, v[i].1@))
}

/// Notes which announced groups can serve right now, and retires those that have
/// not been able to for long. What comes back is each retirement and its reason,
/// once per outage.
pub fn age_groups(sh: &mut Shared, table: &Dict<GroupEntry>, now: u64) -> (r: Vec<
    (String, String),
>)
    ensures
        final(sh)@ == (SharedV {
            live: aged(old(sh)@, table.deep_view(), now),
            ..old(sh)@
        }),
        text_pairs(r@) == retirements(
            old(sh)@,
            table.deep_view(),
            ordered(table.deep_view().dom()),
            now,
        ),
{
    let ghost s0 = sh@;
    let ghost tv = table.deep_view();
    let ghost order = table.order();
    let n: usize = table.len();
    let mut clocks: Vec<Liveness> = Vec::new();
    let mut told: Vec<(String, String)> = Vec::new();
    let mut i: usize = 0;
    proof {
        assert(tv.dom() =~= table@.dom());
        assert(order.take(0) =~= Seq::<Seq<char>>::empty());
        assert(text_pairs(told@) =~= Seq::<(Seq<char>, Seq<char>)>::empty());
    }
    while i < n
        invariant
            i <= n,
            n == order.len(),
            order == table.order(),
            tv == table.deep_view(),
            s0 == sh@,
            clocks@.len() == i,
            forall|j: int|
                0 <= j < i ==> #[trigger] clocks@[j] == after_round(
                    clock_of(s0, now, order[j]),
                    now,
                    health(s0, tv[order[j]], now) is Ok,
                    s0.cfg.model_ttl,
                ),
            text_pairs(told@) == retirements(s0, tv, order.take(i as int), now),
        decreases n - i,
    {
        let e = table.val_at(i);
        let k = table.key_at(i);
        proof {
            assert(order.take(i + 1).drop_last() =~= order.take(i as int));
            assert(order.take(i + 1).last() == k@);
            assert(tv[k@] == e.deep_view());
        }
        let mut l: Liveness = match sh.live.get(k.as_str()) {
            Some(l) => {
                proof {
                    assert(sh@.live[k@] == *l);
                }
                *l
            },
            None => Liveness::new(now),
        };
        match health_of(sh, e, now) {
            Ok(_) => {
                l.round(now, true, sh.cfg.model_ttl);
            },
            Err(why) => {
                if l.round(now, false, sh.cfg.model_ttl) {
                    let ghost was = told@;
                    let ghost wv = why@;
                    told.push((k.clone(), why));
                    proof {
                        assert(text_pairs(told@) =~= text_pairs(was).push((k@, wv)));
                    }
                }
            },
        }
        clocks.push(l);
        i += 1;
    }
    proof {
        assert(order.take(order.len() as int) =~= order);
    }
    let live = table.with_values(clocks);
    proof {
        let want = aged(s0, tv, now);
        assert forall|k: Seq<char>| tv.contains_key(k) implies live@[k] == want[k] by {
            assert(table@.dom().contains(k));
            let j = order.index_of(k);
            assert(order[j] == k);
            assert(clocks@[j] == live@[order[j]]);
        }
        assert(live.deep_view() =~= want);
    }
    sh.live = live;
    told
}

// ---------------------------------------------------------------------------
// Models
// ---------------------------------------------------------------------------
/// The ids of some model entries.
pub open spec fn ids_of(models: Seq<JsonV>) -> Seq<Seq<char>>
    decreases models.len(),
{
    if models.len() == 0 {
        Seq::empty()
    } else {
        let had = ids_of(models.drop_last());
        match models.last().field("id"@).text() {
            Some(id) => had.push(id),
            None => had,
        }
    }
}

/// The `id` of each model entry.
pub fn model_ids(models: &Vec<Json>) -> (r: Vec<String>)
    ensures
        texts(r@) == ids_of(metas(models@)),
{
    let ghost all = metas(models@);
    let mut out: Vec<String> = Vec::new();
    let mut i: usize = 0;
    proof {
        assert(texts(out@) =~= Seq::<Seq<char>>::empty());
    }
    while i < models.len()
        invariant
            i <= models@.len(),
            all == metas(models@),
            texts(out@) == ids_of(all.take(i as int)),
        decreases models@.len() - i,
    {
        proof {
            assert(all.take(i + 1).drop_last() =~= all.take(i as int));
            assert(all.take(i + 1).last() == models@[i as int].v());
        }
        if let Some(id) = models[i].text_at("id") {
            let ghost was = out@;
            out.push(id.to_string());
            proof {
                assert(texts(out@) =~= texts(was).push(id@));
            }
        }
        i += 1;
    }
    proof {
        assert(all.take(all.len() as int) =~= all);
    }
    out
}

/// Where a model is served.
#[derive(Debug, PartialEq, Eq)]
pub struct ModelRoute {
    pub group: String,
    pub url: String,
}

/// A `ModelRoute` as a mathematical value.
pub struct RouteV {
    pub group: Seq<char>,
    pub url: Seq<char>,
}

impl DeepView for ModelRoute {
    type V = RouteV;

    open spec fn deep_view(&self) -> RouteV {
        RouteV { group: self.group@, url: self.url@ }
    }
}

/// Routes with some more names for one, where they have none yet.
pub open spec fn routed(
    out: Map<Seq<char>, RouteV>,
    ids: Seq<Seq<char>>,
    to: RouteV,
) -> Map<Seq<char>, RouteV>
    decreases ids.len(),
{
    if ids.len() == 0 {
        out
    } else {
        let had = routed(out, ids.drop_last(), to);
        if had.contains_key(ids.last()) {
            had
        } else {
            had.insert(ids.last(), to)
        }
    }
}

/// Where a group's models are served.
pub open spec fn route_of(s: SharedV, e: GroupV) -> RouteV {
    RouteV {
        group: e.group,
        url: match url_for(s, e) {
            Some(u) => u,
            None => Seq::empty(),
        },
    }
}

/// The routes of the healthy ones of some groups.
pub open spec fn routes(
    s: SharedV,
    table: Map<Seq<char>, GroupV>,
    keys: Seq<Seq<char>>,
    now: u64,
) -> Map<Seq<char>, RouteV>
    decreases keys.len(),
{
    if keys.len() == 0 {
        Map::empty()
    } else {
        let had = routes(s, table, keys.drop_last(), now);
        let e = table[keys.last()];
        match health(s, e, now) {
            Ok(models) => routed(had, ids_of(models), route_of(s, e)),
            Err(_) => had,
        }
    }
}

/// Where each model is served.
pub open spec fn models_table(s: SharedV, now: u64, local: Seq<Net>) -> Map<Seq<char>, RouteV> {
    let t = visible(s, now, local);
    routes(s, t, ordered(t.dom()), now)
}

fn add_routes(out: &mut Dict<ModelRoute>, ids: &Vec<String>, group: &str, url: &str)
    ensures
        final(out).deep_view() == routed(
            old(out).deep_view(),
            texts(ids@),
            RouteV { group: group@, url: url@ },
        ),
{
    let ghost start = out.deep_view();
    let ghost all = texts(ids@);
    let ghost to = RouteV { group: group@, url: url@ };
    let mut i: usize = 0;
    while i < ids.len()
        invariant
            i <= ids@.len(),
            all == texts(ids@),
            to == (RouteV { group: group@, url: url@ }),
            out.deep_view() == routed(start, all.take(i as int), to),
        decreases ids@.len() - i,
    {
        proof {
            assert(all.take(i + 1).drop_last() =~= all.take(i as int));
            assert(all.take(i + 1).last() == ids@[i as int]@);
        }
        if !out.contains(ids[i].as_str()) {
            let ghost had = out.deep_view();
            let route = ModelRoute { group: group.to_string(), url: url.to_string() };
            proof {
                assert(route.deep_view() == to);
            }
            out.insert(ids[i].clone(), route);
            proof {
                assert(out.deep_view() =~= had.insert(ids@[i as int]@, to));
            }
        }
        i += 1;
    }
    proof {
        assert(all.take(all.len() as int) =~= all);
    }
}

/// Where each model of the healthy groups is served. Names come from probing the
/// endpoints, so they do not need announcing. The first group to list a name
/// keeps it.
pub fn model_table(sh: &Shared, now: u64, local: &Vec<Net>) -> (r: Dict<ModelRoute>)
    ensures
        r.deep_view() == models_table(sh@, now, local@),
{
    let table = group_table(sh, now, local);
    let ghost tv = table.deep_view();
    let ghost order = table.order();
    let n: usize = table.len();
    let mut out: Dict<ModelRoute> = Dict::new();
    let mut i: usize = 0;
    proof {
        assert(tv.dom() =~= table@.dom());
        assert(order.take(0) =~= Seq::<Seq<char>>::empty());
        assert(out.deep_view() =~= Map::<Seq<char>, RouteV>::empty());
    }
    while i < n
        invariant
            i <= n,
            n == order.len(),
            order == table.order(),
            tv == table.deep_view(),
            out.deep_view() == routes(sh@, tv, order.take(i as int), now),
        decreases n - i,
    {
        let e = table.val_at(i);
        proof {
            assert(order.take(i + 1).drop_last() =~= order.take(i as int));
            assert(order.take(i + 1).last() == order[i as int]);
            assert(tv[order[i as int]] == e.deep_view());
        }
        if let Ok(models) = health_of(sh, e, now) {
            let url = match endpoint_url(sh, e) {
                Some(u) => u,
                None => {
                    let none = String::new();
                    proof {
                        assert(none@ =~= Seq::<char>::empty());
                    }
                    none
                },
            };
            let ids = model_ids(&models);
            add_routes(&mut out, &ids, e.group.as_str(), url.as_str());
        }
        i += 1;
    }
    proof {
        assert(order.take(order.len() as int) =~= order);
    }
    out
}

/// A model entry as the router republishes it.
pub open spec fn listed_as(m: JsonV, group: Seq<char>) -> JsonV {
    match m {
        JsonV::Obj(d) => JsonV::Obj(d.insert("owned_by"@, JsonV::Str(group))),
        _ => m,
    }
}

/// A model entry as the router republishes it: the engine's own object with
/// `owned_by` set to the serving group, which through a router is the useful
/// owner.
pub fn listed_model(m: &Json, group: &str) -> (r: Json)
    ensures
        r.v() == listed_as(m.v(), group@),
{
    match m.copy() {
        Json::Obj(d) => {
            let mut d = d;
            put(&mut d, "owned_by", Json::str(group));
            Json::Obj(d)
        },
        other => other,
    }
}

/// A listing with some more entries of one group, where their names have none
/// yet.
pub open spec fn with_entries(
    out: Map<Seq<char>, JsonV>,
    models: Seq<JsonV>,
    group: Seq<char>,
) -> Map<Seq<char>, JsonV>
    decreases models.len(),
{
    if models.len() == 0 {
        out
    } else {
        let had = with_entries(out, models.drop_last(), group);
        match models.last().field("id"@).text() {
            Some(id) if !had.contains_key(id) => had.insert(id, listed_as(models.last(), group)),
            _ => had,
        }
    }
}

/// The listing of the healthy ones of some groups, by name.
pub open spec fn listing(
    s: SharedV,
    table: Map<Seq<char>, GroupV>,
    keys: Seq<Seq<char>>,
    now: u64,
) -> Map<Seq<char>, JsonV>
    decreases keys.len(),
{
    if keys.len() == 0 {
        Map::empty()
    } else {
        let had = listing(s, table, keys.drop_last(), now);
        let e = table[keys.last()];
        match health(s, e, now) {
            Ok(models) => with_entries(had, models, e.group),
            Err(_) => had,
        }
    }
}

fn add_entries(out: &mut Dict<Json>, models: &Vec<Json>, group: &str)
    ensures
        final(out).deep_view() == with_entries(old(out).deep_view(), metas(models@), group@),
{
    let ghost start = out.deep_view();
    let ghost all = metas(models@);
    let mut i: usize = 0;
    while i < models.len()
        invariant
            i <= models@.len(),
            all == metas(models@),
            out.deep_view() == with_entries(start, all.take(i as int), group@),
        decreases models@.len() - i,
    {
        let m = &models[i];
        proof {
            assert(all.take(i + 1).drop_last() =~= all.take(i as int));
            assert(all.take(i + 1).last() == m.v());
        }
        if let Some(id) = m.text_at("id") {
            if !out.contains(id) {
                put(out, id, listed_model(m, group));
            }
        }
        i += 1;
    }
    proof {
        assert(all.take(all.len() as int) =~= all);
    }
}

/// What a client is told of the models: every healthy group's entries as the
/// engine wrote them, with their owner. The first group to list a name keeps it,
/// as it does in the routes, so the listing cannot advertise an entry that
/// routes elsewhere.
pub fn model_objects(sh: &Shared, now: u64, local: &Vec<Net>) -> (r: Vec<Json>)
    ensures
        metas(r@) == ({
            let t = visible(sh@, now, local@);
            let m = listing(sh@, t, ordered(t.dom()), now);
            ordered(m.dom()).map_values(|k: Seq<char>| m[k])
        }),
{
    let table = group_table(sh, now, local);
    let ghost tv = table.deep_view();
    let ghost order = table.order();
    let n: usize = table.len();
    let mut out: Dict<Json> = Json::object();
    let mut i: usize = 0;
    proof {
        assert(tv.dom() =~= table@.dom());
        assert(order.take(0) =~= Seq::<Seq<char>>::empty());
    }
    while i < n
        invariant
            i <= n,
            n == order.len(),
            order == table.order(),
            tv == table.deep_view(),
            out.deep_view() == listing(sh@, tv, order.take(i as int), now),
        decreases n - i,
    {
        let e = table.val_at(i);
        proof {
            assert(order.take(i + 1).drop_last() =~= order.take(i as int));
            assert(order.take(i + 1).last() == order[i as int]);
            assert(tv[order[i as int]] == e.deep_view());
        }
        if let Ok(models) = health_of(sh, e, now) {
            add_entries(&mut out, &models, e.group.as_str());
        }
        i += 1;
    }
    proof {
        assert(order.take(order.len() as int) =~= order);
    }
    let mut list: Vec<Json> = Vec::new();
    let count: usize = out.len();
    let ghost keys = out.order();
    let mut i: usize = 0;
    while i < count
        invariant
            i <= count,
            count == keys.len(),
            keys == out.order(),
            list@.len() == i,
            forall|j: int| 0 <= j < i ==> (#[trigger] list@[j]).v() == out.deep_view()[keys[j]],
        decreases count - i,
    {
        list.push(out.val_at(i).copy());
        i += 1;
    }
    proof {
        let m = out.deep_view();
        assert(m.dom() =~= out@.dom());
        assert(metas(list@) =~= ordered(m.dom()).map_values(|k: Seq<char>| m[k]));
    }
    list
}

/// Why each of the visible groups that is not routable is not.
pub open spec fn unready(s: SharedV, now: u64, local: Seq<Net>) -> Map<Seq<char>, Seq<char>> {
    let t = visible(s, now, local);
    Map::new(
        |k: Seq<char>| t.contains_key(k) && health(s, t[k], now) is Err,
        |k: Seq<char>| health(s, t[k], now)->Err_0,
    )
}

/// The visible groups that are not routable, with the reason. A group that announced
/// no endpoint is one of them: it is known, and cannot serve.
pub fn not_ready(sh: &Shared, now: u64, local: &Vec<Net>) -> (r: Dict<String>)
    ensures
        r.deep_view() == unready(sh@, now, local@),
{
    let table = group_table(sh, now, local);
    let ghost tv = table.deep_view();
    let ghost order = table.order();
    let n: usize = table.len();
    let mut out: Dict<String> = Dict::new();
    let mut i: usize = 0;
    proof {
        law_the_table_is_by_group(sh@, now, local@);
        assert(tv.dom() =~= table@.dom());
        assert(out.deep_view() =~= Map::<Seq<char>, Seq<char>>::empty());
    }
    while i < n
        invariant
            i <= n,
            n == order.len(),
            order == table.order(),
            lists(order, tv.dom()),
            tv == table.deep_view(),
            tv == visible(sh@, now, local@),
            forall|k: Seq<char>| tv.contains_key(k) ==> (#[trigger] tv[k]).group == k,
            forall|k: Seq<char>| #[trigger]
                out.deep_view().contains_key(k) <==> order.take(i as int).contains(k) && health(
                    sh@,
                    tv[k],
                    now,
                ) is Err,
            forall|k: Seq<char>|
                out.deep_view().contains_key(k) ==> #[trigger] out.deep_view()[k] == health(
                    sh@,
                    tv[k],
                    now,
                )->Err_0,
        decreases n - i,
    {
        let e = table.val_at(i);
        let ghost k0 = order[i as int];
        proof {
            assert(tv[k0] == e.deep_view());
            assert(order.contains(k0));
            assert(tv.dom().contains(k0));
            assert(e.group@ == k0);
            assert forall|k: Seq<char>| #[trigger] order.take(i + 1).contains(k) <==> order.take(
                i as int,
            ).contains(k) || k == k0 by {
                lemma_take_contains(order, i as int, k);
            }
        }
        if let Err(why) = health_of(sh, e, now) {
            let ghost had = out.deep_view();
            let ghost wv = why@;
            out.insert(e.group.clone(), why);
            proof {
                assert(out.deep_view() =~= had.insert(k0, wv));
            }
        }
        i += 1;
    }
    proof {
        assert(order.take(order.len() as int) =~= order);
        let want = unready(sh@, now, local@);
        assert forall|k: Seq<char>| out.deep_view().contains_key(k) <==> #[trigger]
            want.contains_key(k) by {
            assert(tv.dom().contains(k) <==> order.contains(k));
        }
        assert(out.deep_view() =~= want);
    }
    out
}

/// Every routed model is one that its group's probe listed, and goes to that
/// group's endpoint: nothing is routed to a group that may not serve.
pub proof fn law_routes_lead_to_healthy_groups(
    s: SharedV,
    table: Map<Seq<char>, GroupV>,
    keys: Seq<Seq<char>>,
    now: u64,
    model: Seq<char>,
)
    requires
        routes(s, table, keys, now).contains_key(model),
    ensures
        exists|i: int|
            0 <= i < keys.len() && health(s, #[trigger] table[keys[i]], now) is Ok && ids_of(
                health(s, table[keys[i]], now)->Ok_0,
            ).contains(model) && routes(s, table, keys, now)[model] == route_of(s, table[keys[i]]),
    decreases keys.len(),
{
    if keys.len() > 0 {
        let n = keys.len() - 1;
        let had = routes(s, table, keys.drop_last(), now);
        let e = table[keys[n]];
        match health(s, e, now) {
            Ok(models) => {
                lemma_routed(had, ids_of(models), route_of(s, e), model);
                if had.contains_key(model) {
                    law_routes_lead_to_healthy_groups(s, table, keys.drop_last(), now, model);
                    let i = choose|i: int|
                        0 <= i < n && health(s, #[trigger] table[keys.drop_last()[i]], now) is Ok
                            && ids_of(health(s, table[keys.drop_last()[i]], now)->Ok_0).contains(
                            model,
                        ) && had[model] == route_of(s, table[keys.drop_last()[i]]);
                    assert(keys.drop_last()[i] == keys[i]);
                    assert(health(s, table[keys[i]], now) is Ok);
                } else {
                    assert(health(s, table[keys[n]], now) is Ok);
                }
            },
            Err(_) => {
                law_routes_lead_to_healthy_groups(s, table, keys.drop_last(), now, model);
                let i = choose|i: int|
                    0 <= i < n && health(s, #[trigger] table[keys.drop_last()[i]], now) is Ok
                        && ids_of(health(s, table[keys.drop_last()[i]], now)->Ok_0).contains(model)
                        && had[model] == route_of(s, table[keys.drop_last()[i]]);
                assert(keys.drop_last()[i] == keys[i]);
                assert(health(s, table[keys[i]], now) is Ok);
            },
        }
    }
}

proof fn lemma_routed(
    out: Map<Seq<char>, RouteV>,
    ids: Seq<Seq<char>>,
    to: RouteV,
    model: Seq<char>,
)
    ensures
        out.contains_key(model) ==> routed(out, ids, to).contains_key(model) && routed(
            out,
            ids,
            to,
        )[model] == out[model],
        !out.contains_key(model) && routed(out, ids, to).contains_key(model) ==> ids.contains(model)
            && routed(out, ids, to)[model] == to,
        ids.contains(model) ==> routed(out, ids, to).contains_key(model),
    decreases ids.len(),
{
    if ids.len() > 0 {
        lemma_routed(out, ids.drop_last(), to, model);
        assert(ids[ids.len() - 1] == ids.last());
        if ids.drop_last().contains(model) {
            let i = ids.drop_last().index_of(model);
            assert(ids[i] == model);
        }
        if ids.contains(model) && model != ids.last() {
            let i = ids.index_of(model);
            assert(ids.drop_last()[i] == model);
        }
    }
}

/// A model is listed exactly where it is routed, and as its own group's: the
/// listing cannot advertise an entry that routes elsewhere.
pub proof fn law_the_listing_matches_the_routes(
    s: SharedV,
    table: Map<Seq<char>, GroupV>,
    keys: Seq<Seq<char>>,
    now: u64,
    model: Seq<char>,
)
    ensures
        listing(s, table, keys, now).contains_key(model) <==> routes(
            s,
            table,
            keys,
            now,
        ).contains_key(model),
        listing(s, table, keys, now).contains_key(model) ==> listing(
            s,
            table,
            keys,
            now,
        )[model].field("owned_by"@) == JsonV::Str(routes(s, table, keys, now)[model].group),
    decreases keys.len(),
{
    if keys.len() > 0 {
        law_the_listing_matches_the_routes(s, table, keys.drop_last(), now, model);
        let e = table[keys.last()];
        if let Ok(models) = health(s, e, now) {
            lemma_listed_as_routed(
                listing(s, table, keys.drop_last(), now),
                routes(s, table, keys.drop_last(), now),
                models,
                route_of(s, e),
                model,
            );
        }
    }
}

proof fn lemma_listed_as_routed(
    l: Map<Seq<char>, JsonV>,
    r: Map<Seq<char>, RouteV>,
    models: Seq<JsonV>,
    to: RouteV,
    model: Seq<char>,
)
    requires
        l.contains_key(model) <==> r.contains_key(model),
        l.contains_key(model) ==> l[model].field("owned_by"@) == JsonV::Str(r[model].group),
    ensures
        ({
            let l2 = with_entries(l, models, to.group);
            let r2 = routed(r, ids_of(models), to);
            &&& l2.contains_key(model) <==> r2.contains_key(model)
            &&& l2.contains_key(model) ==> l2[model].field("owned_by"@) == JsonV::Str(
                r2[model].group,
            )
        }),
    decreases models.len(),
{
    if models.len() > 0 {
        lemma_listed_as_routed(l, r, models.drop_last(), to, model);
        if let Some(id) = models.last().field("id"@).text() {
            assert(ids_of(models).drop_last() =~= ids_of(models.drop_last()));
            assert(models.last() is Obj);
        }
    }
}

// ---------------------------------------------------------------------------
// The status document
// ---------------------------------------------------------------------------
/// The row of a daemon.
pub open spec fn daemon_row(s: SharedV, d: DaemonV, now: u64) -> JsonV {
    JsonV::Obj(
        map![
            "connected"@ => JsonV::Bool(d.status is Some),
            "age_s"@ => opt_uint(match d.seen {
                Some(t) => Some((since(now, t) / 1000) as u64),
                None => None,
            }),
            "error"@ => opt_str(d.error),
            "node_id"@ => opt_str(d.node_id),
            "seed"@ => JsonV::Bool(d.seed),
            "alternates"@ => match d.node_id {
                Some(id) => if s.nodes.contains_key(id) {
                    str_array(ordered(s.nodes[id].alternates))
                } else {
                    JsonV::Null
                },
                None => JsonV::Null,
            },
        ],
    )
}

/// The row of a group: which address is in use and which were available to fall
/// through to, whether it serves, and if not, why.
pub open spec fn group_row(s: SharedV, e: GroupV, now: u64) -> JsonV {
    let h = health(s, e, now);
    JsonV::Obj(
        map![
            "daemon"@ => JsonV::Str(e.daemon),
            "agents_alive"@ => JsonV::Uint(e.agents_alive as u64),
            "actors_running"@ => JsonV::Uint(e.running as u64),
            "openai"@ => opt_str(url_for(s, e)),
            "openai_candidates"@ => match e.openai {
                Some(x) => str_array(x.candidates),
                None => JsonV::Null,
            },
            "openai_note"@ => match e.openai {
                Some(x) => opt_str(x.note),
                None => JsonV::Null,
            },
            "provider"@ => JsonV::Str(e.provider),
            "mcp"@ => match e.mcp {
                Some(x) => opt_str(best_of(x)),
                None => JsonV::Null,
            },
            "healthy"@ => JsonV::Bool(h is Ok),
            "models"@ => match h {
                Ok(m) => str_array(ids_of(m)),
                Err(_) => JsonV::Null,
            },
            "why_not"@ => match h {
                Ok(_) => JsonV::Null,
                Err(w) => JsonV::Str(w),
            },
        ],
    )
}

/// The row of a model.
pub open spec fn model_row(r: RouteV) -> JsonV {
    JsonV::Obj(map!["group"@ => JsonV::Str(r.group), "url"@ => JsonV::Str(r.url)])
}

/// The router's own status.
pub open spec fn status_doc(s: SharedV, now: u64, local: Seq<Net>) -> JsonV {
    let t = visible(s, now, local);
    let m = models_table(s, now, local);
    JsonV::Obj(
        map![
            "uptime_s"@ => JsonV::Uint((since(now, s.started) / 1000) as u64),
            "verify"@ => JsonV::Bool(s.verify),
            "daemons"@ => JsonV::Obj(
                Map::new(
                    |k: Seq<char>| s.daemons.dom().contains(k),
                    |k: Seq<char>| daemon_row(s, s.daemons[k], now),
                ),
            ),
            "groups"@ => JsonV::Obj(
                Map::new(
                    |k: Seq<char>| t.dom().contains(k),
                    |k: Seq<char>| group_row(s, t[k], now),
                ),
            ),
            "models"@ => JsonV::Obj(
                Map::new(|k: Seq<char>| m.dom().contains(k), |k: Seq<char>| model_row(m[k])),
            ),
        ],
    )
}

fn daemons_json(sh: &Shared, now: u64) -> (r: Json)
    ensures
        r.v() == JsonV::Obj(
            Map::new(
                |k: Seq<char>| sh@.daemons.dom().contains(k),
                |k: Seq<char>| daemon_row(sh@, sh@.daemons[k], now),
            ),
        ),
{
    let n: usize = sh.daemons.len();
    let ghost order = sh.daemons.order();
    let ghost dv = sh@.daemons;
    let ghost f = |k: Seq<char>| daemon_row(sh@, sh@.daemons[k], now);
    let mut vals: Vec<Json> = Vec::new();
    let mut i: usize = 0;
    proof {
        assert(dv.dom() =~= sh.daemons@.dom());
    }
    while i < n
        invariant
            i <= n,
            n == order.len(),
            order == sh.daemons.order(),
            dv == sh@.daemons,
            f == (|k: Seq<char>| daemon_row(sh@, sh@.daemons[k], now)),
            vals@.len() == i,
            forall|j: int| 0 <= j < i ==> (#[trigger] vals@[j]).v() == f(order[j]),
        decreases n - i,
    {
        let v = sh.daemons.val_at(i);
        proof {
            assert(dv[order[i as int]] == v.deep_view());
        }
        let connected = match &v.status {
            Some(_) => true,
            None => false,
        };
        let age = match v.seen {
            Some(t) => Some(elapsed(now, t) / 1000),
            None => None,
        };
        let alternates = match &v.node_id {
            Some(id) => match sh.nodes.get(id.as_str()) {
                Some(w) => {
                    proof {
                        assert(sh@.nodes[id@] == w.deep_view());
                    }
                    keys_json(&w.alternates)
                },
                None => Json::Null,
            },
            None => Json::Null,
        };
        let mut d = Json::object();
        put(&mut d, "connected", Json::Bool(connected));
        put(&mut d, "age_s", opt_uint_json(age));
        put(&mut d, "error", opt_str_json(&v.error));
        put(&mut d, "node_id", opt_str_json(&v.node_id));
        put(&mut d, "seed", Json::Bool(v.seed));
        put(&mut d, "alternates", alternates);
        vals.push(Json::Obj(d));
        i += 1;
    }
    let ghost vs = vals@;
    let out = sh.daemons.with_values(vals);
    proof {
        lemma_valued(dv.dom(), order, out, vs, f);
    }
    Json::Obj(out)
}

fn group_json(sh: &Shared, e: &GroupEntry, now: u64) -> (r: Json)
    ensures
        r.v() == group_row(sh@, e.deep_view(), now),
{
    let url = endpoint_url(sh, e);
    let candidates = match &e.openai {
        Some(x) => str_list(&x.candidates),
        None => Json::Null,
    };
    let note = match &e.openai {
        Some(x) => opt_str_json(&x.note),
        None => Json::Null,
    };
    let mcp = match &e.mcp {
        Some(x) => match x.best() {
            Some(u) => Json::str(u),
            None => Json::Null,
        },
        None => Json::Null,
    };
    let (healthy, models, why): (bool, Json, Json) = match health_of(sh, e, now) {
        Ok(m) => (true, str_list(&model_ids(&m)), Json::Null),
        Err(w) => (false, Json::Null, Json::Str(w)),
    };
    let mut d = Json::object();
    put(&mut d, "daemon", Json::str(e.daemon.as_str()));
    put(&mut d, "agents_alive", Json::Uint(e.agents_alive as u64));
    put(&mut d, "actors_running", Json::Uint(e.running as u64));
    put(&mut d, "openai", opt_str_json(&url));
    put(&mut d, "openai_candidates", candidates);
    put(&mut d, "openai_note", note);
    put(&mut d, "provider", Json::str(e.provider.as_str()));
    put(&mut d, "mcp", mcp);
    put(&mut d, "healthy", Json::Bool(healthy));
    put(&mut d, "models", models);
    put(&mut d, "why_not", why);
    Json::Obj(d)
}

fn groups_json(sh: &Shared, now: u64, local: &Vec<Net>) -> (r: Json)
    ensures
        r.v() == ({
            let t = visible(sh@, now, local@);
            JsonV::Obj(
                Map::new(
                    |k: Seq<char>| t.dom().contains(k),
                    |k: Seq<char>| group_row(sh@, t[k], now),
                ),
            )
        }),
{
    let table = group_table(sh, now, local);
    let ghost t = table.deep_view();
    let ghost order = table.order();
    let ghost f = |k: Seq<char>| group_row(sh@, t[k], now);
    let n: usize = table.len();
    let mut vals: Vec<Json> = Vec::new();
    let mut i: usize = 0;
    proof {
        assert(t.dom() =~= table@.dom());
    }
    while i < n
        invariant
            i <= n,
            n == order.len(),
            order == table.order(),
            t == table.deep_view(),
            f == (|k: Seq<char>| group_row(sh@, t[k], now)),
            vals@.len() == i,
            forall|j: int| 0 <= j < i ==> (#[trigger] vals@[j]).v() == f(order[j]),
        decreases n - i,
    {
        let e = table.val_at(i);
        proof {
            assert(t[order[i as int]] == e.deep_view());
        }
        vals.push(group_json(sh, e, now));
        i += 1;
    }
    let ghost vs = vals@;
    let out = table.with_values(vals);
    proof {
        lemma_valued(t.dom(), order, out, vs, f);
    }
    Json::Obj(out)
}

fn models_json(sh: &Shared, now: u64, local: &Vec<Net>) -> (r: Json)
    ensures
        r.v() == ({
            let m = models_table(sh@, now, local@);
            JsonV::Obj(
                Map::new(|k: Seq<char>| m.dom().contains(k), |k: Seq<char>| model_row(m[k])),
            )
        }),
{
    let table = model_table(sh, now, local);
    let ghost m = table.deep_view();
    let ghost order = table.order();
    let ghost f = |k: Seq<char>| model_row(m[k]);
    let n: usize = table.len();
    let mut vals: Vec<Json> = Vec::new();
    let mut i: usize = 0;
    proof {
        assert(m.dom() =~= table@.dom());
    }
    while i < n
        invariant
            i <= n,
            n == order.len(),
            order == table.order(),
            m == table.deep_view(),
            f == (|k: Seq<char>| model_row(m[k])),
            vals@.len() == i,
            forall|j: int| 0 <= j < i ==> (#[trigger] vals@[j]).v() == f(order[j]),
        decreases n - i,
    {
        let r = table.val_at(i);
        proof {
            assert(m[order[i as int]] == r.deep_view());
        }
        let mut d = Json::object();
        put(&mut d, "group", Json::str(r.group.as_str()));
        put(&mut d, "url", Json::str(r.url.as_str()));
        vals.push(Json::Obj(d));
        i += 1;
    }
    let ghost vs = vals@;
    let out = table.with_values(vals);
    proof {
        lemma_valued(m.dom(), order, out, vs, f);
    }
    Json::Obj(out)
}

/// The router's own status: its daemons, its groups and its models.
pub fn status_view(sh: &Shared, now: u64, local: &Vec<Net>) -> (r: Json)
    ensures
        r.v() == status_doc(sh@, now, local@),
{
    let mut d = Json::object();
    put(&mut d, "uptime_s", Json::Uint(elapsed(now, sh.started) / 1000));
    put(&mut d, "verify", Json::Bool(sh.verify));
    put(&mut d, "daemons", daemons_json(sh, now));
    put(&mut d, "groups", groups_json(sh, now, local));
    put(&mut d, "models", models_json(sh, now, local));
    Json::Obj(d)
}

} // verus!
