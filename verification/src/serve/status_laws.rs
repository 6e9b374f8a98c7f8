//! What the router shows of itself, and what it asks for.

use vstd::prelude::*;

use crate::common::dict::ordered;
use crate::common::ifaces::IfaceRowV;
use crate::common::ip::{ip_of, Ip};
use crate::common::json::JsonV;
use crate::serve::dispatch::{refusal_doc, RefusalV};
use crate::serve::mcp::{
    cache_key, page_fetches, page_row, tool_names, tool_row, tool_rows, MergedV,
};
use crate::serve::net::{key_of, ones, row_net, row_nets, Net};
use crate::serve::poll::{added, replied, with_row, WatcherV};
use crate::serve::probe::{models_url, named_models};
use crate::serve::route_laws::may_serve;
use crate::serve::shared::{CachedV, DaemonV, GroupV, SharedV};
use crate::serve::table::{
    daemon_row, group_row, law_a_probed_group_serves, model_row, models_table, retirements,
    status_doc, visible,
};
use crate::serve::watch_laws::seen_lately;

verus! {

// ---------------------------------------------------------------------------
// The status page
// ---------------------------------------------------------------------------
proof fn lemma_page_names()
    ensures
        "uptime_s"@ != "verify"@,
        "uptime_s"@ != "daemons"@,
        "uptime_s"@ != "groups"@,
        "uptime_s"@ != "models"@,
        "verify"@ != "daemons"@,
        "verify"@ != "groups"@,
        "verify"@ != "models"@,
        "daemons"@ != "groups"@,
        "daemons"@ != "models"@,
        "groups"@ != "models"@,
        "group"@ != "url"@,
{
    reveal_strlit("uptime_s");
    reveal_strlit("verify");
    reveal_strlit("daemons");
    reveal_strlit("groups");
    reveal_strlit("models");
    reveal_strlit("group");
    reveal_strlit("url");
    assert("uptime_s"@.len() == 8 && "daemons"@.len() == 7);
    assert("verify"@.len() == 6 && "groups"@.len() == 6 && "models"@.len() == 6);
    assert("verify"@[0] == 'v' && "groups"@[0] == 'g' && "models"@[0] == 'm');
    assert("group"@.len() == 5 && "url"@.len() == 3);
}

/// The status page tells how many seconds the router is up and has a row for each daemon
/// that is watched, for each group that is shown, and for each model with where its
/// requests go.
pub proof fn law_the_page_has_every_row(s: SharedV, now: u64, local: Seq<Net>)
    ensures
        ({
            let d = status_doc(s, now, local);
            let m = models_table(s, now, local);
            &&& now >= s.started ==> d.field("uptime_s"@) == JsonV::Uint(
                ((now - s.started) / 1000) as u64,
            )
            &&& now < s.started ==> d.field("uptime_s"@) == JsonV::Uint(0)
            &&& d.field("verify"@) == JsonV::Bool(s.verify)
            &&& d.field("daemons"@).fields().dom() == s.daemons.dom()
            &&& d.field("groups"@).fields().dom() == visible(s, now, local).dom()
            &&& d.field("models"@).fields().dom() == m.dom()
            &&& forall|k: Seq<char>| #[trigger]
                m.contains_key(k) ==> d.field("models"@).field(k).field("group"@) == JsonV::Str(
                    m[k].group,
                ) && d.field("models"@).field(k).field("url"@) == JsonV::Str(m[k].url)
        }),
{
    lemma_page_names();
    let d = status_doc(s, now, local);
    let m = models_table(s, now, local);
    assert(d.field("daemons"@).fields().dom() =~= s.daemons.dom());
    assert(d.field("groups"@).fields().dom() =~= visible(s, now, local).dom());
    assert(d.field("models"@).fields().dom() =~= m.dom());
    assert forall|k: Seq<char>| #[trigger] m.contains_key(k) implies d.field("models"@).field(
        k,
    ).field("group"@) == JsonV::Str(m[k].group) && d.field("models"@).field(k).field("url"@)
        == JsonV::Str(m[k].url) by {
        assert(d.field("models"@).fields().contains_key(k));
        assert(d.field("models"@).field(k) == model_row(m[k]));
    }
}

/// A daemon's row tells whether it was heard, how many seconds ago, what went wrong and
/// whether it was named by the operator.
pub proof fn law_a_daemons_row_tells_its_age(s: SharedV, d: DaemonV, now: u64)
    ensures
        ({
            let r = daemon_row(s, d, now);
            &&& r.field("connected"@) == JsonV::Bool(d.status is Some)
            &&& d.seen is None ==> r.field("age_s"@) is Null
            &&& d.seen is Some && now >= d.seen->0 ==> r.field("age_s"@) == JsonV::Uint(
                ((now - d.seen->0) / 1000) as u64,
            )
            &&& d.error is Some ==> r.field("error"@) == JsonV::Str(d.error->0)
            &&& d.error is None ==> r.field("error"@) is Null
            &&& d.node_id is Some ==> r.field("node_id"@) == JsonV::Str(d.node_id->0)
            &&& r.field("seed"@) == JsonV::Bool(d.seed)
            &&& d.node_id is Some && s.nodes.contains_key(d.node_id->0) ==> r.field(
                "alternates"@,
            ).items().len() == ordered(s.nodes[d.node_id->0].alternates).len()
        }),
{
    reveal_strlit("connected");
    reveal_strlit("age_s");
    reveal_strlit("error");
    reveal_strlit("node_id");
    reveal_strlit("seed");
    reveal_strlit("alternates");
    assert("connected"@.len() == 9 && "alternates"@.len() == 10 && "node_id"@.len() == 7
        && "seed"@.len() == 4);
    assert("age_s"@.len() == 5 && "error"@.len() == 5 && "age_s"@[0] == 'a' && "error"@[0] == 'e');
}

/// A group's row tells what it runs, where it may be reached, whether it may serve, and if
/// not why.
pub proof fn law_a_groups_row_tells_whether_it_serves(s: SharedV, e: GroupV, now: u64)
    ensures
        ({
            let r = group_row(s, e, now);
            &&& r.field("daemon"@) == JsonV::Str(e.daemon)
            &&& r.field("agents_alive"@) == JsonV::Uint(e.agents_alive as u64)
            &&& r.field("actors_running"@) == JsonV::Uint(e.running as u64)
            &&& r.field("provider"@) == JsonV::Str(e.provider)
            &&& r.field("healthy"@) == JsonV::Bool(may_serve(s, e, now))
            &&& r.field("models"@) is Null <==> !may_serve(s, e, now)
            &&& r.field("why_not"@) is Null <==> may_serve(s, e, now)
            &&& e.openai is None ==> r.field("openai_candidates"@) is Null && r.field(
                "openai_note"@,
            ) is Null
            &&& e.openai matches Some(x) ==> r.field("openai_candidates"@).items().len()
                == x.candidates.len()
            &&& e.mcp is Some && e.mcp->0.candidates.len() > 0 ==> r.field("mcp"@) == JsonV::Str(
                e.mcp->0.candidates[0],
            )
        }),
{
    law_a_probed_group_serves(s, e, now);
    reveal_strlit("daemon");
    reveal_strlit("agents_alive");
    reveal_strlit("actors_running");
    reveal_strlit("openai");
    reveal_strlit("openai_candidates");
    reveal_strlit("openai_note");
    reveal_strlit("provider");
    reveal_strlit("mcp");
    reveal_strlit("healthy");
    reveal_strlit("models");
    reveal_strlit("why_not");
    assert("daemon"@.len() == 6 && "openai"@.len() == 6 && "models"@.len() == 6);
    assert("daemon"@[0] == 'd' && "openai"@[0] == 'o' && "models"@[0] == 'm');
    assert("healthy"@.len() == 7 && "why_not"@.len() == 7 && "healthy"@[0] == 'h' && "why_not"@[0]
        == 'w');
    assert("agents_alive"@.len() == 12 && "actors_running"@.len() == 14 && "openai_candidates"@.len()
        == 17 && "openai_note"@.len() == 11 && "provider"@.len() == 8 && "mcp"@.len() == 3);
}

/// The groups that a round retires are those that cannot serve, could not for longer than
/// models are kept, and were not told of before.
pub proof fn law_a_round_retires_what_cannot_serve(
    s: SharedV,
    table: Map<Seq<char>, GroupV>,
    keys: Seq<Seq<char>>,
    now: u64,
    k: Seq<char>,
)
    ensures
        (exists|i: int|
            0 <= i < retirements(s, table, keys, now).len() && (
            #[trigger] retirements(s, table, keys, now)[i]).0 == k) <==> keys.contains(k)
            && !may_serve(s, table[k], now) && s.live.contains_key(k) && !s.live[k].told && now
            > s.live[k].ok_at + s.cfg.model_ttl,
    decreases keys.len(),
{
    if keys.len() > 0 {
        let init = keys.drop_last();
        law_a_round_retires_what_cannot_serve(s, table, init, now, k);
        law_a_probed_group_serves(s, table[k], now);
        let had = retirements(s, table, init, now);
        let all = retirements(s, table, keys, now);
        assert(keys[keys.len() - 1] == keys.last());
        if init.contains(k) {
            let i = init.index_of(k);
            assert(keys[i] == k);
        }
        if keys.contains(k) && k != keys.last() {
            let i = keys.index_of(k);
            assert(init[i] == k);
        }
        assert forall|i: int| 0 <= i < had.len() implies #[trigger] had[i] == all[i] by {}
        assert forall|i: int| 0 <= i < had.len() implies #[trigger] all[i] == had[i] by {}
        if all.len() > had.len() {
            assert(all[had.len() as int].0 == keys.last());
        }
    }
}

/// A refusal tells why, and where it has an offer, what there is and what is not ready.
pub proof fn law_a_refusal_tells_why(r: RefusalV)
    ensures
        refusal_doc(r).field("error"@) == JsonV::Str(r.error),
        r.offer matches Some((available, pending)) ==> refusal_doc(r).field("available"@)
            == available && refusal_doc(r).field("not_ready"@) == pending,
        r.offer is None ==> !refusal_doc(r).has("available"@) && !refusal_doc(r).has("not_ready"@),
{
    reveal_strlit("error");
    reveal_strlit("available");
    reveal_strlit("not_ready");
    assert("error"@.len() == 5);
    assert("available"@.len() == 9 && "not_ready"@.len() == 9 && "available"@[0] == 'a'
        && "not_ready"@[0] == 'n');
}

// ---------------------------------------------------------------------------
// Models
// ---------------------------------------------------------------------------
/// Of a list of models those count that are named, in their order.
pub proof fn law_only_named_models_count(v: Seq<JsonV>, m: JsonV)
    ensures
        named_models(v).contains(m) <==> v.contains(m) && m.field("id"@) is Str,
        (forall|i: int| 0 <= i < v.len() ==> (#[trigger] v[i]).field("id"@) is Str) ==> named_models(
            v,
        ) == v,
    decreases v.len(),
{
    if v.len() > 0 {
        let init = v.drop_last();
        law_only_named_models_count(init, m);
        let had = named_models(init);
        let all = named_models(v);
        assert(v[v.len() - 1] == v.last());
        if init.contains(m) {
            let i = init.index_of(m);
            assert(v[i] == m);
        }
        if v.contains(m) && m != v.last() {
            let i = v.index_of(m);
            assert(init[i] == m);
        }
        if had.contains(m) {
            let i = had.index_of(m);
            assert(all[i] == m);
        }
        if all.len() > had.len() {
            assert(all[had.len() as int] == v.last());
        }
        if all.contains(m) && !had.contains(m) {
            let i = all.index_of(m);
            if i < had.len() {
                assert(had[i] == m);
            }
        }
        if forall|i: int| 0 <= i < v.len() ==> (#[trigger] v[i]).field("id"@) is Str {
            assert forall|i: int| 0 <= i < init.len() implies (#[trigger] init[i]).field(
                "id"@,
            ) is Str by {
                assert(init[i] == v[i]);
            }
            assert(all =~= v);
        }
    } else {
        assert(named_models(v) =~= v);
    }
}

/// Models are asked for under the address of their endpoint, with one slash between,
/// however many it ends in.
pub proof fn law_models_are_asked_for_under_their_endpoint(base: Seq<char>)
    ensures
        models_url(base.push('/')) == models_url(base),
        base.len() > 0 && base.last() != '/' ==> models_url(base) == base + "/models"@,
{
    assert(base.push('/').drop_last() =~= base);
}

// ---------------------------------------------------------------------------
// Tools
// ---------------------------------------------------------------------------
/// The tools that are listed are the router's own, then every tool that a group offers,
/// by name, each with its own description.
pub proof fn law_every_tool_has_a_row(m: Map<Seq<char>, MergedV>)
    ensures
        ({
            let v = tool_rows(m);
            let keys = ordered(m.dom());
            &&& v.len() == 1 + keys.len()
            &&& forall|i: int|
                0 <= i < keys.len() ==> {
                    &&& (#[trigger] v[i + 1]).field("name"@) == JsonV::Str(keys[i])
                    &&& v[i + 1].field("description"@) == JsonV::Str(m[keys[i]].description)
                }
        }),
{
    reveal_strlit("name");
    reveal_strlit("description");
    reveal_strlit("inputSchema");
    assert("name"@.len() == 4);
    assert("description"@.len() == 11 && "inputSchema"@.len() == 11 && "description"@[0] == 'd'
        && "inputSchema"@[0] == 'i');
    let v = tool_rows(m);
    let keys = ordered(m.dom());
    assert forall|i: int| 0 <= i < keys.len() implies (#[trigger] v[i + 1]).field("name"@)
        == JsonV::Str(keys[i]) && v[i + 1].field("description"@) == JsonV::Str(
        m[keys[i]].description,
    ) by {
        assert(v[i + 1] == tool_row(keys[i], m[keys[i]]));
    }
}

/// The names of a list of tools are those of the tools that have one.
pub proof fn law_tools_are_listed_by_name(v: Seq<JsonV>, name: Seq<char>)
    ensures
        tool_names(v).contains(name) <==> exists|i: int|
            0 <= i < v.len() && (#[trigger] v[i]).field("name"@) == JsonV::Str(name),
    decreases v.len(),
{
    if v.len() > 0 {
        let init = v.drop_last();
        law_tools_are_listed_by_name(init, name);
        let had = tool_names(init);
        let all = tool_names(v);
        let n = v.len() - 1;
        assert(v[n] == v.last());
        assert forall|i: int| 0 <= i < n implies #[trigger] v[i] == init[i] by {}
        assert forall|i: int| 0 <= i < n implies #[trigger] init[i] == v[i] by {}
        if had.contains(name) {
            let i = had.index_of(name);
            assert(all[i] == name);
        }
        if all.len() > had.len() {
            assert(JsonV::Str(all[had.len() as int]) == v[n].field("name"@));
        }
        if all.contains(name) && !had.contains(name) {
            let i = all.index_of(name);
            if i < had.len() {
                assert(had[i] == name);
            }
        }
    }
}

/// A group's row on the page of tools lists their names where it has them, and otherwise
/// what went wrong.
pub proof fn law_a_groups_tools_or_what_went_wrong(group: Seq<char>, cached: Option<CachedV>)
    ensures
        ({
            let r = page_row(group, cached);
            let listed = cached is Some && cached->0.error is None;
            &&& r.field("group"@) == JsonV::Str(group)
            &&& !listed ==> r.field("tools"@) is Null
            &&& listed ==> r.field("tools"@).items().len() == tool_names(cached->0.tools).len()
            &&& listed ==> forall|i: int|
                0 <= i < tool_names(cached->0.tools).len() ==> #[trigger] r.field(
                    "tools"@,
                ).items()[i] == JsonV::Str(tool_names(cached->0.tools)[i])
            &&& cached is Some && cached->0.error is Some ==> r.field("error"@) == JsonV::Str(
                cached->0.error->0,
            )
            &&& cached is None || listed ==> r.field("error"@) is Null
        }),
{
    reveal_strlit("group");
    reveal_strlit("tools");
    reveal_strlit("error");
    assert("group"@[0] == 'g' && "tools"@[0] == 't' && "error"@[0] == 'e');
}

/// Whether what is cached under a key still stands.
pub open spec fn stands(s: SharedV, key: Seq<char>, now: u64) -> bool {
    let c = s.tools[key];
    s.tools.contains_key(key) && c.error is None && c.tools.len() > 0 && now <= c.at
        + s.cfg.tools_ttl
}

/// The page asks a server for its tools exactly when what is cached of it does not stand
/// and nobody asks already; it is asked once, and marked as asked.
pub proof fn law_the_page_asks_for_what_does_not_stand(
    s: SharedV,
    servers: Seq<(Seq<char>, Seq<char>)>,
    now: u64,
)
    ensures
        ({
            let (f, asks) = page_fetches(s, servers, now);
            &&& forall|k: Seq<char>| #[trigger]
                f.contains(k) <==> s.tools_fetching.contains(k) || (!stands(s, k, now) && exists|
                    i: int,
                |
                    0 <= i < servers.len() && cache_key(
                        (#[trigger] servers[i]).0,
                        servers[i].1,
                    ) == k)
            &&& forall|i: int|
                0 <= i < asks.len() ==> servers.contains(#[trigger] asks[i]) && !stands(
                    s,
                    cache_key(asks[i].0, asks[i].1),
                    now,
                ) && !s.tools_fetching.contains(cache_key(asks[i].0, asks[i].1))
            &&& forall|i: int|
                0 <= i < asks.len() ==> f.contains(
                    cache_key((#[trigger] asks[i]).0, asks[i].1),
                )
            &&& forall|i: int, j: int|
                0 <= i < j < asks.len() ==> cache_key((#[trigger] asks[i]).0, asks[i].1)
                    != cache_key((#[trigger] asks[j]).0, asks[j].1)
            &&& forall|k: Seq<char>| #[trigger]
                f.contains(k) && !s.tools_fetching.contains(k) ==> exists|i: int|
                    0 <= i < asks.len() && cache_key((#[trigger] asks[i]).0, asks[i].1) == k
        }),
    decreases servers.len(),
{
    if servers.len() > 0 {
        let init = servers.drop_last();
        law_the_page_asks_for_what_does_not_stand(s, init, now);
        let (f0, asks0) = page_fetches(s, init, now);
        let (f, asks) = page_fetches(s, servers, now);
        let n = servers.len() - 1;
        let last = servers[n];
        assert(last == servers.last());
        assert forall|i: int| 0 <= i < n implies #[trigger] servers[i] == init[i] by {}
        assert forall|i: int| 0 <= i < n implies #[trigger] init[i] == servers[i] by {}
        assert forall|k: Seq<char>| #[trigger]
            f.contains(k) <==> s.tools_fetching.contains(k) || (!stands(s, k, now) && exists|i: int|
                0 <= i < servers.len() && cache_key((#[trigger] servers[i]).0, servers[i].1)
                    == k) by {
            assert(f0.contains(k) <==> s.tools_fetching.contains(k) || (!stands(s, k, now)
                && exists|i: int|
                0 <= i < init.len() && cache_key((#[trigger] init[i]).0, init[i].1) == k));
            if k == cache_key(last.0, last.1) {
                assert(cache_key(servers[n].0, servers[n].1) == k);
            }
        }
        assert forall|i: int| 0 <= i < asks.len() implies servers.contains(#[trigger] asks[i])
            && !stands(s, cache_key(asks[i].0, asks[i].1), now) && !s.tools_fetching.contains(
            cache_key(asks[i].0, asks[i].1),
        ) by {
            if i < asks0.len() {
                assert(asks0[i] == asks[i]);
                let j = init.index_of(asks0[i]);
                assert(servers[j] == asks[i]);
            } else {
                assert(asks[i] == last);
                assert(f0.contains(cache_key(last.0, last.1)) <==> s.tools_fetching.contains(
                    cache_key(last.0, last.1),
                ) || (!stands(s, cache_key(last.0, last.1), now) && exists|j: int|
                    0 <= j < init.len() && cache_key((#[trigger] init[j]).0, init[j].1)
                        == cache_key(last.0, last.1)));
            }
        }
        assert forall|i: int| 0 <= i < asks0.len() implies #[trigger] asks[i] == asks0[i] by {}
        assert forall|i: int| 0 <= i < asks0.len() implies #[trigger] asks0[i] == asks[i] by {}
        assert forall|i: int, j: int| 0 <= i < j < asks.len() implies cache_key(
            (#[trigger] asks[i]).0,
            asks[i].1,
        ) != cache_key((#[trigger] asks[j]).0, asks[j].1) by {
            assert(f0.contains(cache_key(asks0[i].0, asks0[i].1)));
            if j < asks0.len() {
                assert(asks0[j] == asks[j]);
            }
        }
        assert forall|k: Seq<char>| #[trigger]
            f.contains(k) && !s.tools_fetching.contains(k) implies exists|i: int|
            0 <= i < asks.len() && cache_key((#[trigger] asks[i]).0, asks[i].1) == k by {
            if f0.contains(k) {
                let i = choose|i: int|
                    0 <= i < asks0.len() && cache_key((#[trigger] asks0[i]).0, asks0[i].1) == k;
                assert(asks[i] == asks0[i]);
            } else {
                assert(asks[asks0.len() as int] == last);
            }
        }
    }
}

// ---------------------------------------------------------------------------
// Networks
// ---------------------------------------------------------------------------
/// An interface is on a network when it has an address and a mask of one kind: the
/// network that its address is in under its mask.
pub proof fn law_an_interface_is_on_its_network(r: IfaceRowV)
    ensures
        ({
            let both = r.addr is Some && r.mask is Some && ip_of(r.addr->0) is Some && ip_of(
                r.mask->0,
            ) is Some;
            let a = ip_of(r.addr->0)->0;
            let m = ip_of(r.mask->0)->0;
            &&& row_net(r) is Some <==> both && (a is V6 <==> m is V6)
            &&& row_net(r) is Some ==> {
                let n = row_net(r)->0;
                let x = match a {
                    Ip::V4(v) => v as u128,
                    Ip::V6(v) => v,
                };
                &&& n.v6 == a is V6
                &&& n.mask == match m {
                    Ip::V4(v) => v as u128,
                    Ip::V6(v) => v,
                }
                &&& n.net == x & n.mask
                &&& n.net & n.mask == n.net
            }
        }),
{
    if row_net(r) is Some {
        let x = key_of(ip_of(r.addr->0)->0);
        let m = key_of(ip_of(r.mask->0)->0);
        assert((x & m) & m == x & m) by (bit_vector);
    }
}

/// The networks of a box are those of its interfaces.
pub proof fn law_a_box_is_on_its_interfaces_networks(rows: Seq<IfaceRowV>, n: Net)
    ensures
        row_nets(rows).contains(n) <==> exists|i: int|
            0 <= i < rows.len() && row_net(#[trigger] rows[i]) == Some(n),
    decreases rows.len(),
{
    if rows.len() > 0 {
        let init = rows.drop_last();
        law_a_box_is_on_its_interfaces_networks(init, n);
        let had = row_nets(init);
        let all = row_nets(rows);
        let z = rows.len() - 1;
        assert(rows[z] == rows.last());
        assert forall|i: int| 0 <= i < z implies #[trigger] rows[i] == init[i] by {}
        assert forall|i: int| 0 <= i < z implies #[trigger] init[i] == rows[i] by {}
        if had.contains(n) {
            let i = had.index_of(n);
            assert(all[i] == n);
        }
        if all.len() > had.len() {
            assert(Some(all[had.len() as int]) == row_net(rows[z]));
        }
        if all.contains(n) && !had.contains(n) {
            let i = all.index_of(n);
            if i < had.len() {
                assert(had[i] == n);
            }
        }
    }
}

/// The length of a mask is the number of its ones.
pub proof fn law_a_masks_length_is_its_ones(m: u128)
    ensures
        ones(0) == 0,
        m <= u128::MAX / 2 ==> ones((2 * m) as u128) == ones(m),
        m <= u128::MAX / 2 ==> ones((2 * m + 1) as u128) == ones(m) + 1,
{
    if m <= u128::MAX / 2 {
        let a = (2 * m) as u128;
        let b = (2 * m + 1) as u128;
        assert(a / 2 == m && a % 2 == 0);
        assert(b / 2 == m && b % 2 == 1);
        if m == 0 {
            assert(ones(0) == 0);
            assert(ones(b) == 1 + ones(b / 2));
        }
    }
}

// ---------------------------------------------------------------------------
// Watches
// ---------------------------------------------------------------------------
proof fn lemma_added(had: Set<Seq<char>>, v: Seq<Seq<char>>, a: Seq<char>)
    ensures
        added(had, v).contains(a) <==> had.contains(a) || v.contains(a),
    decreases v.len(),
{
    if v.len() > 0 {
        let init = v.drop_last();
        lemma_added(had, init, a);
        assert(v[v.len() - 1] == v.last());
        if init.contains(a) {
            let i = init.index_of(a);
            assert(v[i] == a);
        }
        if v.contains(a) && a != v.last() {
            let i = v.index_of(a);
            assert(init[i] == a);
        }
    }
}

/// A daemon that replies ends a failure. The first reply tells which node it is: where
/// the node was heard lately at another address this watch stands down, and otherwise the
/// node is watched here, and the addresses not tried yet are kept for it.
pub proof fn law_a_reply_settles_a_watch(s: SharedV, w: WatcherV, id: Seq<char>, now: u64)
    ensures
        ({
            let (t, v) = replied(s, w, id, now);
            let known = w.node == Some(id);
            let elsewhere = s.nodes.contains_key(id) && s.nodes[id].addr != w.addr && seen_lately(
                s,
                s.nodes[id].addr,
                now,
            );
            &&& v.failing_since is None && v.addr == w.addr && v.seed == w.seed
            &&& known ==> t == s && v.node == w.node && v.untried == w.untried
            &&& !known && elsewhere ==> v.node == w.node && !t.daemons.contains_key(w.addr)
                && !t.watched.contains(w.addr) && t.nodes[id].addr == s.nodes[id].addr
            &&& !known && !elsewhere ==> {
                &&& v.node == Some(id) && v.untried.len() == 0
                &&& t.nodes.contains_key(id) && t.nodes[id].addr == w.addr
                &&& forall|a: Seq<char>| #[trigger]
                    w.untried.contains(a) ==> t.nodes[id].alternates.contains(a)
            }
        }),
{
    assert forall|had: Set<Seq<char>>, a: Seq<char>| #[trigger]
        added(had, w.untried).contains(a) <==> had.contains(a) || w.untried.contains(a) by {
        lemma_added(had, w.untried, a);
    }
}

/// A row for a daemon is added where there is none, unheard, and changes none that is
/// there.
pub proof fn law_a_new_row_is_unheard(s: SharedV, addr: Seq<char>, seed: bool)
    ensures
        ({
            let t = with_row(s, addr, seed);
            &&& s.daemons.contains_key(addr) ==> t == s
            &&& !s.daemons.contains_key(addr) ==> {
                let d = t.daemons[addr];
                &&& t.daemons.contains_key(addr)
                &&& d.status is None && d.seen is None && d.error is None && d.node_id is None
                    && d.seed == seed
                &&& forall|k: Seq<char>|
                    k != addr && s.daemons.contains_key(k) ==> #[trigger] t.daemons[k]
                        == s.daemons[k]
            }
        }),
{
}

} // verus!
