//! Which models are served, by which group, and where a group's description comes from.

use vstd::prelude::*;
use vstd::string::*;

use crate::common::dict::{
    lemma_finite_lists, lemma_increasing_distinct, lemma_those, ordered, those,
};
use crate::common::json::JsonV;
use crate::common::text::{before, decimal};
use crate::daemon::sweep_laws::lemma_listed;
use crate::serve::groups::{
    all_addrs, all_groups, announced_table, base_url, daemon_groups, endpoint, fresh_view, group_of,
    hosts_of, law_only_permitted_hosts_are_tried, live_row, ranked, tabled, NodeAddrs,
};
use crate::serve::net::{permitted, AllowV, Net};
use crate::serve::shared::{GroupV, SharedV};
use crate::serve::table::{
    aged, health, ids_of, law_a_probed_group_serves, models_table,
    route_of, routed, routes, unready, visible, RouteV,
};

verus! {

// ---------------------------------------------------------------------------
// Models
// ---------------------------------------------------------------------------
/// Whether a group may serve: its endpoint is announced where it may be used, its ranks
/// run or it has none, and its last probe answered and is fresh.
pub open spec fn may_serve(s: SharedV, e: GroupV, now: u64) -> bool {
    let p = s.probes[e.group];
    &&& e.openai is Some
    &&& e.openai->0.candidates.len() > 0
    &&& !e.placed || e.running != 0
    &&& s.probes.contains_key(e.group)
    &&& p.ok
    &&& now <= p.seen + s.cfg.probe_fresh
}

/// Whether a group serves a model: it may serve, and its last probe found the model.
pub open spec fn serves_model(s: SharedV, e: GroupV, now: u64, model: Seq<char>) -> bool {
    &&& may_serve(s, e, now)
    &&& exists|i: int|
        0 <= i < s.probes[e.group].models.len() && (
        #[trigger] s.probes[e.group].models[i]).field("id"@) == JsonV::Str(model)
}

proof fn lemma_ids_of(models: Seq<JsonV>, model: Seq<char>)
    ensures
        ids_of(models).contains(model) <==> exists|i: int|
            0 <= i < models.len() && (#[trigger] models[i]).field("id"@) == JsonV::Str(model),
    decreases models.len(),
{
    if models.len() > 0 {
        let init = models.drop_last();
        lemma_ids_of(init, model);
        assert(models[models.len() - 1] == models.last());
        let had = ids_of(init);
        let v = ids_of(models);
        if v.contains(model) {
            let x = v.index_of(model);
            if x < had.len() {
                assert(had[x] == model);
                assert(had.contains(model));
                let i = choose|i: int|
                    0 <= i < init.len() && (#[trigger] init[i]).field("id"@) == JsonV::Str(model);
                assert(models[i] == init[i]);
            }
        }
        if exists|i: int|
            0 <= i < models.len() && (#[trigger] models[i]).field("id"@) == JsonV::Str(model) {
            let i = choose|i: int|
                0 <= i < models.len() && (#[trigger] models[i]).field("id"@) == JsonV::Str(model);
            if i < init.len() {
                assert(init[i] == models[i]);
                assert(had.contains(model));
                assert(v[had.index_of(model)] == model);
            } else {
                assert(v[had.len() as int] == model);
            }
        }
    }
}

proof fn lemma_serves(s: SharedV, e: GroupV, now: u64, model: Seq<char>)
    ensures
        serves_model(s, e, now, model) <==> health(s, e, now) is Ok && ids_of(
            health(s, e, now)->Ok_0,
        ).contains(model),
{
    law_a_probed_group_serves(s, e, now);
    lemma_ids_of(s.probes[e.group].models, model);
}

proof fn lemma_routed(
    out: Map<Seq<char>, RouteV>,
    ids: Seq<Seq<char>>,
    to: RouteV,
    model: Seq<char>,
)
    ensures
        ({
            let r = routed(out, ids, to);
            &&& r.contains_key(model) <==> out.contains_key(model) || ids.contains(model)
            &&& out.contains_key(model) ==> r[model] == out[model]
            &&& !out.contains_key(model) && ids.contains(model) ==> r[model] == to
        }),
    decreases ids.len(),
{
    if ids.len() > 0 {
        let init = ids.drop_last();
        lemma_routed(out, init, to, model);
        assert(ids[ids.len() - 1] == ids.last());
        if init.contains(model) {
            assert(ids[init.index_of(model)] == model);
        }
        if ids.contains(model) && model != ids.last() {
            assert(init[ids.index_of(model)] == model);
        }
    }
}

proof fn lemma_routes(
    s: SharedV,
    table: Map<Seq<char>, GroupV>,
    keys: Seq<Seq<char>>,
    now: u64,
    model: Seq<char>,
)
    ensures
        ({
            let r = routes(s, table, keys, now);
            &&& r.contains_key(model) <==> exists|i: int|
                0 <= i < keys.len() && serves_model(s, table[#[trigger] keys[i]], now, model)
            &&& r.contains_key(model) ==> exists|i: int|
                {
                    &&& 0 <= i < keys.len()
                    &&& serves_model(s, table[#[trigger] keys[i]], now, model)
                    &&& r[model] == route_of(s, table[keys[i]])
                    &&& forall|j: int|
                        0 <= j < i ==> !serves_model(s, table[#[trigger] keys[j]], now, model)
                }
        }),
    decreases keys.len(),
{
    if keys.len() > 0 {
        let init = keys.drop_last();
        let n = keys.len() - 1;
        lemma_routes(s, table, init, now, model);
        let had = routes(s, table, init, now);
        let r = routes(s, table, keys, now);
        let e = table[keys[n]];
        lemma_serves(s, e, now, model);
        if health(s, e, now) is Ok {
            lemma_routed(had, ids_of(health(s, e, now)->Ok_0), route_of(s, e), model);
        }
        if had.contains_key(model) {
            let i = choose|i: int|
                {
                    &&& 0 <= i < init.len()
                    &&& serves_model(s, table[#[trigger] init[i]], now, model)
                    &&& had[model] == route_of(s, table[init[i]])
                    &&& forall|j: int|
                        0 <= j < i ==> !serves_model(s, table[#[trigger] init[j]], now, model)
                };
            assert(keys[i] == init[i]);
            assert forall|j: int| 0 <= j < i implies !serves_model(
                s,
                table[#[trigger] keys[j]],
                now,
                model,
            ) by {
                assert(init[j] == keys[j]);
            }
        } else if r.contains_key(model) {
            assert forall|j: int| 0 <= j < n implies !serves_model(
                s,
                table[#[trigger] keys[j]],
                now,
                model,
            ) by {
                assert(init[j] == keys[j]);
            }
        }
        if exists|i: int|
            0 <= i < keys.len() && serves_model(s, table[#[trigger] keys[i]], now, model) {
            let i = choose|i: int|
                0 <= i < keys.len() && serves_model(s, table[#[trigger] keys[i]], now, model);
            if i < n {
                assert(init[i] == keys[i]);
            }
        }
    }
}

/// A model is routed exactly where a group that is shown serves it. It goes to the first
/// such group by name: to the address its prober settled on, or else its best one.
pub proof fn law_a_model_goes_to_the_first_group_that_serves_it(
    s: SharedV,
    now: u64,
    local: Seq<Net>,
    model: Seq<char>,
)
    requires
        visible(s, now, local).dom().finite(),
    ensures
        ({
            let t = visible(s, now, local);
            let r = models_table(s, now, local);
            &&& r.contains_key(model) <==> exists|k: Seq<char>| #[trigger]
                t.contains_key(k) && serves_model(s, t[k], now, model)
            &&& r.contains_key(model) ==> {
                let g = r[model].group;
                exists|k: Seq<char>|
                    {
                        &&& #[trigger] t.contains_key(k)
                        &&& serves_model(s, t[k], now, model)
                        &&& r[model].group == t[k].group
                        &&& s.probes[t[k].group].selected is Some ==> r[model].url
                            == s.probes[t[k].group].selected->0
                        &&& s.probes[t[k].group].selected is None ==> r[model].url
                            == t[k].openai->0.candidates[0]
                        &&& forall|o: Seq<char>|
                            #[trigger] t.contains_key(o) && serves_model(s, t[o], now, model)
                                ==> o == k || before(k, o)
                    }
            }
        }),
{
    let t = visible(s, now, local);
    let keys = ordered(t.dom());
    lemma_finite_lists(t.dom());
    lemma_routes(s, t, keys, now, model);
    let r = models_table(s, now, local);
    assert forall|k: Seq<char>| #[trigger] t.contains_key(k) implies exists|i: int|
        0 <= i < keys.len() && keys[i] == k by {
        assert(t.dom().contains(k));
        assert(keys.contains(k));
    }
    assert forall|i: int| 0 <= i < keys.len() implies t.contains_key(#[trigger] keys[i]) by {
        assert(keys.contains(keys[i]));
        assert(t.dom().contains(keys[i]));
    }
    if exists|k: Seq<char>| #[trigger] t.contains_key(k) && serves_model(s, t[k], now, model) {
        let k = choose|k: Seq<char>| #[trigger]
            t.contains_key(k) && serves_model(s, t[k], now, model);
        let i = choose|i: int| 0 <= i < keys.len() && keys[i] == k;
        assert(serves_model(s, t[keys[i]], now, model));
    }
    if r.contains_key(model) {
        let i = choose|i: int|
            {
                &&& 0 <= i < keys.len()
                &&& serves_model(s, t[#[trigger] keys[i]], now, model)
                &&& r[model] == route_of(s, t[keys[i]])
                &&& forall|j: int|
                    0 <= j < i ==> !serves_model(s, t[#[trigger] keys[j]], now, model)
            };
        let k = keys[i];
        assert(t.contains_key(k));
        assert forall|o: Seq<char>|
            #[trigger] t.contains_key(o) && serves_model(s, t[o], now, model) implies o == k
            || before(k, o) by {
            let j = choose|j: int| 0 <= j < keys.len() && keys[j] == o;
            if j < i {
                assert(!serves_model(s, t[keys[j]], now, model));
            } else if j > i {
                assert(before(keys[i], keys[j]));
            }
        }
    }
}

/// A group is shown while it is announced and served no longer ago than models are kept.
/// One that cannot serve is told with the reason, and no other is.
pub proof fn law_a_group_is_shown_until_it_is_retired(
    s: SharedV,
    now: u64,
    local: Seq<Net>,
    k: Seq<char>,
)
    ensures
        ({
            let t = announced_table(s, now, local);
            let v = visible(s, now, local);
            &&& v.contains_key(k) <==> t.contains_key(k) && !(s.live.contains_key(k) && now
                > s.live[k].ok_at + s.cfg.model_ttl)
            &&& v.contains_key(k) ==> v[k] == t[k]
            &&& unready(s, now, local).contains_key(k) <==> v.contains_key(k) && !may_serve(
                s,
                v[k],
                now,
            )
        }),
{
    let v = visible(s, now, local);
    law_a_probed_group_serves(s, v[k], now);
}

/// A round of ageing keeps a clock for each group that is announced and no other. One
/// that may serve starts anew; one that may not keeps the time it last did, or starts
/// now where it has none.
pub proof fn law_a_serving_groups_clock_starts_anew(
    s: SharedV,
    table: Map<Seq<char>, GroupV>,
    now: u64,
    k: Seq<char>,
)
    ensures
        ({
            let m = aged(s, table, now);
            &&& m.contains_key(k) <==> table.contains_key(k)
            &&& table.contains_key(k) && may_serve(s, table[k], now) ==> m[k].ok_at == now
                && !m[k].told
            &&& table.contains_key(k) && !may_serve(s, table[k], now) && s.live.contains_key(k)
                ==> m[k].ok_at == s.live[k].ok_at && (m[k].told <==> s.live[k].told || now
                > s.live[k].ok_at + s.cfg.model_ttl)
            &&& table.contains_key(k) && !may_serve(s, table[k], now) && !s.live.contains_key(k)
                ==> m[k].ok_at == now
        }),
{
    law_a_probed_group_serves(s, table[k], now);
}

// ---------------------------------------------------------------------------
// Descriptions
// ---------------------------------------------------------------------------
/// The names in a table of rows that a condition holds of.
pub open spec fn rows_where(m: Map<Seq<char>, JsonV>, p: spec_fn(JsonV) -> bool) -> Set<Seq<char>> {
    Set::new(|k: Seq<char>| m.contains_key(k) && p(m[k]))
}

proof fn lemma_count(m: Map<Seq<char>, JsonV>, p: spec_fn(JsonV) -> bool)
    requires
        m.dom().finite(),
    ensures
        rows_where(m, p).finite(),
        those(ordered(m.dom()), |k: Seq<char>| p(m[k])).len() == rows_where(m, p).len(),
{
    let q = |k: Seq<char>| p(m[k]);
    let v = those(ordered(m.dom()), q);
    lemma_finite_lists(m.dom());
    lemma_those(ordered(m.dom()), q);
    lemma_listed(m, q);
    assert(v.no_duplicates()) by {
        assert forall|a: int, b: int| 0 <= a < v.len() && 0 <= b < v.len() && a != b implies v[a]
            != v[b] by {
            if v[a] == v[b] {
                lemma_increasing_distinct(v, a, b);
            }
        }
    }
    v.unique_seq_to_set();
    assert(v.to_set() =~= rows_where(m, p)) by {
        assert forall|k: Seq<char>| v.to_set().contains(k) == rows_where(m, p).contains(k) by {
            assert(v.contains(k) <==> m.contains_key(k) && q(k));
        }
    }
}

/// A group's description counts its live agents and its running actors, and says whether
/// it has any actor at all.
pub proof fn law_a_description_counts_ranks_and_agents(
    name: Seq<char>,
    daemon: Seq<char>,
    g: JsonV,
    nodes: NodeAddrs,
    a: AllowV,
    local: Seq<Net>,
)
    requires
        g.field("agents"@).fields().dom().finite(),
        g.field("actors"@).fields().dom().finite(),
    ensures
        ({
            let e = group_of(name, daemon, g, nodes, a, local);
            let up = rows_where(
                g.field("agents"@).fields(),
                |r: JsonV| r.field("alive"@) == JsonV::Bool(true),
            );
            let running = rows_where(
                g.field("actors"@).fields(),
                |r: JsonV| r.field("state"@) == JsonV::Str("running"@),
            );
            &&& e.group == name && e.daemon == daemon
            &&& up.finite() && e.agents_alive == up.len()
            &&& running.finite() && e.running == running.len()
            &&& e.placed <==> exists|k: Seq<char>| #[trigger]
                g.field("actors"@).fields().contains_key(k)
        }),
{
    let agents = g.field("agents"@).fields();
    let actors = g.field("actors"@).fields();
    let p = |r: JsonV| r.field("alive"@) == JsonV::Bool(true);
    let q = |r: JsonV| r.field("state"@) == JsonV::Str("running"@);
    lemma_count(agents, p);
    lemma_count(actors, q);
    lemma_same_those(
        ordered(agents.dom()),
        |k: Seq<char>| live_row(agents[k]),
        |k: Seq<char>| p(agents[k]),
    );
    lemma_same_those(
        ordered(actors.dom()),
        |k: Seq<char>| actors[k].field("state"@).text() == Some("running"@),
        |k: Seq<char>| q(actors[k]),
    );
    lemma_finite_lists(actors.dom());
    let keys = ordered(actors.dom());
    if keys.len() > 0 {
        assert(keys.contains(keys[0]));
        assert(actors.dom().contains(keys[0]));
        assert(actors.contains_key(keys[0]));
    }
    if exists|k: Seq<char>| #[trigger] actors.contains_key(k) {
        let k = choose|k: Seq<char>| #[trigger] actors.contains_key(k);
        assert(actors.dom().contains(k));
        assert(keys.contains(k));
    }
}

proof fn lemma_same_those(
    keys: Seq<Seq<char>>,
    p: spec_fn(Seq<char>) -> bool,
    q: spec_fn(Seq<char>) -> bool,
)
    requires
        forall|k: Seq<char>| #[trigger] p(k) == q(k),
    ensures
        those(keys, p) == those(keys, q),
    decreases keys.len(),
{
    if keys.len() > 0 {
        lemma_same_those(keys.drop_last(), p, q);
    }
}

/// Whether a daemon's view describes a group, and was seen within three polls.
pub open spec fn describes(s: SharedV, d: Seq<char>, now: u64, group: Seq<char>) -> bool {
    let v = s.daemons[d];
    &&& s.daemons.contains_key(d)
    &&& v.status is Some
    &&& v.status->0.field("groups"@).has(group)
    &&& v.seen is Some
    &&& now <= v.seen->0 + 3 * s.cfg.poll_interval
}

proof fn lemma_tabled(out: Map<Seq<char>, GroupV>, e: GroupV, k: Seq<char>)
    ensures
        ({
            let r = tabled(out, e);
            &&& r.contains_key(k) <==> out.contains_key(k) || e.group == k
            &&& r.contains_key(k) ==> (out.contains_key(k) && r[k] == out[k]) || (e.group == k
                && r[k] == e)
        }),
{
}

proof fn lemma_daemon_groups(
    out: Map<Seq<char>, GroupV>,
    daemon: Seq<char>,
    groups: Map<Seq<char>, JsonV>,
    keys: Seq<Seq<char>>,
    nodes: NodeAddrs,
    a: AllowV,
    local: Seq<Net>,
    k: Seq<char>,
)
    ensures
        ({
            let r = daemon_groups(out, daemon, groups, keys, nodes, a, local);
            &&& r.contains_key(k) <==> out.contains_key(k) || keys.contains(k)
            &&& r.contains_key(k) ==> (out.contains_key(k) && r[k] == out[k]) || (keys.contains(k)
                && r[k] == group_of(k, daemon, groups[k], nodes, a, local))
        }),
    decreases keys.len(),
{
    if keys.len() > 0 {
        let init = keys.drop_last();
        let last = keys.last();
        assert(keys[keys.len() - 1] == last);
        lemma_daemon_groups(out, daemon, groups, init, nodes, a, local, k);
        let had = daemon_groups(out, daemon, groups, init, nodes, a, local);
        lemma_tabled(had, group_of(last, daemon, groups[last], nodes, a, local), k);
        if init.contains(k) {
            assert(keys[init.index_of(k)] == k);
        }
        if keys.contains(k) && k != last {
            assert(init[keys.index_of(k)] == k);
        }
    }
}

proof fn lemma_all_groups(
    s: SharedV,
    keys: Seq<Seq<char>>,
    now: u64,
    nodes: NodeAddrs,
    local: Seq<Net>,
    k: Seq<char>,
)
    requires
        forall|i: int| 0 <= i < keys.len() ==> s.daemons.contains_key(#[trigger] keys[i]),
        forall|d: Seq<char>| #[trigger]
            s.daemons.contains_key(d) && s.daemons[d].status is Some
                ==> s.daemons[d].status->0.field("groups"@).fields().dom().finite(),
    ensures
        ({
            let r = all_groups(
                s.daemons,
                keys,
                now,
                s.cfg.poll_interval,
                nodes,
                s.cfg.allowed,
                local,
            );
            &&& r.contains_key(k) <==> exists|i: int|
                0 <= i < keys.len() && describes(s, #[trigger] keys[i], now, k)
            &&& r.contains_key(k) ==> exists|i: int|
                {
                    &&& 0 <= i < keys.len()
                    &&& describes(s, #[trigger] keys[i], now, k)
                    &&& r[k] == group_of(
                        k,
                        keys[i],
                        s.daemons[keys[i]].status->0.field("groups"@).field(k),
                        nodes,
                        s.cfg.allowed,
                        local,
                    )
                }
        }),
    decreases keys.len(),
{
    if keys.len() > 0 {
        let init = keys.drop_last();
        let d = keys.last();
        let n = keys.len() - 1;
        assert(keys[n] == d);
        assert forall|i: int| 0 <= i < init.len() implies s.daemons.contains_key(
            #[trigger] init[i],
        ) by {
            assert(init[i] == keys[i]);
        }
        lemma_all_groups(s, init, now, nodes, local, k);
        let had = all_groups(
            s.daemons,
            init,
            now,
            s.cfg.poll_interval,
            nodes,
            s.cfg.allowed,
            local,
        );
        let r = all_groups(
            s.daemons,
            keys,
            now,
            s.cfg.poll_interval,
            nodes,
            s.cfg.allowed,
            local,
        );
        let v = s.daemons[d];
        assert(s.daemons.contains_key(d));
        if v.status is Some && fresh_view(v, now, s.cfg.poll_interval) {
            let doc = v.status->0.field("groups"@);
            let groups = doc.fields();
            lemma_finite_lists(groups.dom());
            lemma_daemon_groups(
                had,
                d,
                groups,
                ordered(groups.dom()),
                nodes,
                s.cfg.allowed,
                local,
                k,
            );
            assert(ordered(groups.dom()).contains(k) == groups.dom().contains(k));
            assert(doc.has(k) == groups.contains_key(k));
            if groups.contains_key(k) {
                assert(groups[k] == doc.field(k));
                assert(describes(s, keys[n], now, k));
            }
        }
        if had.contains_key(k) {
            let i = choose|i: int|
                {
                    &&& 0 <= i < init.len()
                    &&& describes(s, #[trigger] init[i], now, k)
                    &&& had[k] == group_of(
                        k,
                        init[i],
                        s.daemons[init[i]].status->0.field("groups"@).field(k),
                        nodes,
                        s.cfg.allowed,
                        local,
                    )
                };
            assert(keys[i] == init[i]);
        }
        if exists|i: int| 0 <= i < keys.len() && describes(s, #[trigger] keys[i], now, k) {
            let i = choose|i: int|
                0 <= i < keys.len() && describes(s, #[trigger] keys[i], now, k);
            if i < n {
                assert(init[i] == keys[i]);
            }
        }
    }
}

/// A group is announced exactly while some daemon's fresh view describes it, and its row
/// is one of those descriptions.
pub proof fn law_a_group_is_announced_by_a_fresh_view(
    s: SharedV,
    now: u64,
    local: Seq<Net>,
    k: Seq<char>,
)
    requires
        s.daemons.dom().finite(),
        forall|d: Seq<char>| #[trigger]
            s.daemons.contains_key(d) && s.daemons[d].status is Some
                ==> s.daemons[d].status->0.field("groups"@).fields().dom().finite(),
    ensures
        ({
            let t = announced_table(s, now, local);
            let nodes = all_addrs(s.daemons, ordered(s.daemons.dom()));
            &&& t.contains_key(k) <==> exists|d: Seq<char>| #[trigger] describes(s, d, now, k)
            &&& t.contains_key(k) ==> exists|d: Seq<char>|
                #[trigger] describes(s, d, now, k) && t[k] == group_of(
                    k,
                    d,
                    s.daemons[d].status->0.field("groups"@).field(k),
                    nodes,
                    s.cfg.allowed,
                    local,
                )
        }),
{
    let keys = ordered(s.daemons.dom());
    let nodes = all_addrs(s.daemons, keys);
    lemma_finite_lists(s.daemons.dom());
    assert forall|i: int| 0 <= i < keys.len() implies s.daemons.contains_key(#[trigger] keys[i]) by {
        assert(keys.contains(keys[i]));
        assert(s.daemons.dom().contains(keys[i]));
    }
    lemma_all_groups(s, keys, now, nodes, local, k);
    if exists|d: Seq<char>| #[trigger] describes(s, d, now, k) {
        let d = choose|d: Seq<char>| #[trigger] describes(s, d, now, k);
        assert(s.daemons.dom().contains(d));
        assert(keys.contains(d));
        assert(describes(s, keys[keys.index_of(d)], now, k));
    }
}

/// Of two descriptions of a group the one with more running actors stands; of two alike
/// the one with more live agents; and of two alike in both the one from the daemon whose
/// address comes first.
pub proof fn law_the_fuller_description_stands(
    out: Map<Seq<char>, GroupV>,
    e: GroupV,
)
    requires
        out.contains_key(e.group),
    ensures
        ({
            let had = out[e.group];
            let now = tabled(out, e)[e.group];
            &&& e.running > had.running ==> now == e
            &&& e.running < had.running ==> now == had
            &&& e.running == had.running && e.agents_alive > had.agents_alive ==> now == e
            &&& e.running == had.running && e.agents_alive < had.agents_alive ==> now == had
            &&& e.running == had.running && e.agents_alive == had.agents_alive ==> (if before(
                e.daemon,
                had.daemon,
            ) {
                now == e
            } else {
                now == had
            })
        }),
{
}

// ---------------------------------------------------------------------------
// Endpoints
// ---------------------------------------------------------------------------
/// A text, of a string; none of anything else.
pub open spec fn said(j: JsonV) -> Seq<char> {
    match j {
        JsonV::Str(s) => s,
        _ => Seq::empty(),
    }
}

/// A service that an agent announces with a host is there and nowhere else. One without
/// is at each address of the agent's node that may be used, at its port and path.
pub proof fn law_an_endpoint_is_where_it_is_announced(
    agent: JsonV,
    svc: Seq<char>,
    nodes: NodeAddrs,
    a: AllowV,
    local: Seq<Net>,
    url: Seq<char>,
)
    ensures
        ({
            let e = agent.field("services"@).field(svc);
            let port = e.field("port"@);
            let host = e.field("host"@);
            let path = said(e.field("path"@));
            let ip = said(agent.field("node_ip"@));
            let r = endpoint(agent, svc, nodes, a, local);
            let named = host is Str && host->Str_0.len() > 0;
            &&& r is Some <==> port is Uint
            &&& port is Uint && named ==> r->0.candidates == seq![
                "http://"@ + host->Str_0 + ":"@ + decimal(port->Uint_0 as nat) + path,
            ]
            &&& port is Uint && !named ==> (r->0.candidates.contains(url) <==> exists|h: Seq<char>|
                {
                    &&& #[trigger] hosts_of(nodes, ip).contains(h)
                    &&& h.len() > 0
                    &&& permitted(a, h, local)
                    &&& url == "http://"@ + h + ":"@ + decimal(port->Uint_0 as nat) + path
                })
        }),
{
    let e = agent.field("services"@).field(svc);
    if e.field("port"@) is Uint {
        let port = e.field("port"@)->Uint_0;
        let path = said(e.field("path"@));
        let ip = said(agent.field("node_ip"@));
        assert(path == e.field("path"@).text_or_empty());
        assert(ip == agent.field("node_ip"@).text_or_empty());
        let hosts = hosts_of(nodes, ip);
        law_only_permitted_hosts_are_tried(hosts, a, local);
        let v = ranked(hosts, a, local);
        let f = |h: Seq<char>| base_url(h, port, path);
        let w = v.map_values(f);
        if w.contains(url) {
            let i = w.index_of(url);
            assert(v.contains(v[i]));
            assert(hosts.contains(v[i]));
        }
        if exists|h: Seq<char>|
            {
                &&& #[trigger] hosts.contains(h)
                &&& h.len() > 0
                &&& permitted(a, h, local)
                &&& url == "http://"@ + h + ":"@ + decimal(port as nat) + path
            } {
            let h = choose|h: Seq<char>|
                {
                    &&& #[trigger] hosts.contains(h)
                    &&& h.len() > 0
                    &&& permitted(a, h, local)
                    &&& url == "http://"@ + h + ":"@ + decimal(port as nat) + path
                };
            assert(v.contains(h));
            let i = v.index_of(h);
            assert(w[i] == url);
        }
    }
}

} // verus!
