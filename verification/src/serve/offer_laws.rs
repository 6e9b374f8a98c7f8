//! What the router reads out of its settings and out of the daemons' snapshots.

use vstd::prelude::*;

use crate::common::json::JsonV;
use crate::common::text::{
    decimal, lemma_before_irreflexive, lemma_before_transitive, trimmed,
};
use crate::common::text_laws::law_a_number_reads_back;
use crate::serve::groups::{
    endpoint, mcp_offer, openai_offers, opt_before, recorded_all, NodeAddrs,
};
use crate::serve::net::{AllowV, Net};
use crate::serve::shared::{best_of, config_of, port_setting, setting, EndpointV, Settings};

verus! {

// ---------------------------------------------------------------------------
// Settings
// ---------------------------------------------------------------------------
/// A time that is set stands; one that is not is its default, and what a probe's freshness
/// and its promotion default to follows how often probes are made.
pub proof fn law_times_are_set_or_default(s: Settings)
    ensures
        ({
            let c = config_of(s);
            &&& c.poll_interval == s.poll_interval.unwrap_or(10_000)
            &&& c.probe_interval == s.probe_interval.unwrap_or(5_000)
            &&& c.probe_timeout == s.probe_timeout.unwrap_or(3_000)
            &&& s.probe_fresh is Some ==> c.probe_fresh == s.probe_fresh->0
            &&& s.probe_fresh is None && 3 * c.probe_interval + c.probe_timeout <= u64::MAX
                ==> c.probe_fresh == 3 * c.probe_interval + c.probe_timeout
            &&& s.probe_promote is Some ==> c.probe_promote == s.probe_promote->0
            &&& s.probe_promote is None && 6 * c.probe_interval <= u64::MAX ==> c.probe_promote == 6
                * c.probe_interval
            &&& c.serving_timeout == s.serving_timeout.unwrap_or(1_800_000)
            &&& c.model_wait == s.model_wait.unwrap_or(60_000)
            &&& c.sse_keepalive == s.sse_keepalive.unwrap_or(10_000)
            &&& c.mcp_timeout == s.mcp_timeout.unwrap_or(180_000)
            &&& c.tools_ttl == s.tools_ttl.unwrap_or(60_000)
            &&& c.model_ttl == s.model_ttl.unwrap_or(3_600_000)
        }),
{
}

/// A port that is set in decimal is that port, and anything that is no port is the default.
pub proof fn law_a_port_is_set_in_decimal(n: nat, default: u16)
    ensures
        n <= 65535 ==> port_setting(Some(decimal(n)), default) == n,
        n > 65535 ==> port_setting(Some(decimal(n)), default) == default,
        port_setting(None, default) == default,
        port_setting(Some(Seq::empty()), default) == default,
{
    law_a_number_reads_back(n);
}

/// A setting stands as it is written, and one that is not set, or blank, is the default.
pub proof fn law_a_blank_setting_is_the_default(v: Seq<char>, default: Seq<char>)
    ensures
        setting(None, default) == default,
        setting(Some(v), default) == if trimmed(v) == Seq::<char>::empty() {
            default
        } else {
            v
        },
{
    if trimmed(v).len() == 0 {
        assert(trimmed(v) =~= Seq::empty());
    }
}

/// Peers are discovered unless the setting is something else than a one.
pub proof fn law_peers_are_discovered_by_default(s: Settings)
    ensures
        s.discover_peers is None ==> config_of(s).discover_peers,
        s.discover_peers matches Some(v) ==> config_of(s).discover_peers == (v@ == "1"@
            || trimmed(v@).len() == 0),
        s.port is None ==> config_of(s).port == 6381,
        s.announce_port is None ==> config_of(s).announce_port == 6382,
{
}

// ---------------------------------------------------------------------------
// Addresses of nodes
// ---------------------------------------------------------------------------
/// A node's addresses are those of the longest list that was heard of it: a list replaces
/// a shorter one, and an empty list or a node without a name records nothing.
pub proof fn law_the_longest_list_stands(
    out: NodeAddrs,
    ids: Seq<Seq<char>>,
    addrs: Seq<Seq<char>>,
    id: Seq<char>,
)
    ensures
        ({
            let t = recorded_all(out, ids, addrs);
            let named = ids.contains(id) && id.len() > 0 && addrs.len() > 0;
            &&& t.contains_key(id) <==> out.contains_key(id) || named
            &&& named && !out.contains_key(id) ==> t[id] == addrs
            &&& named && out.contains_key(id) && out[id].len() < addrs.len() ==> t[id] == addrs
            &&& out.contains_key(id) && (!named || out[id].len() >= addrs.len()) ==> t[id]
                == out[id]
        }),
    decreases ids.len(),
{
    if ids.len() > 0 {
        let init = ids.drop_last();
        law_the_longest_list_stands(out, init, addrs, id);
        assert(ids[ids.len() - 1] == ids.last());
        if init.contains(id) {
            let i = init.index_of(id);
            assert(ids[i] == id);
        }
        if ids.contains(id) && id != ids.last() {
            let i = ids.index_of(id);
            assert(init[i] == id);
        }
    }
}

// ---------------------------------------------------------------------------
// Offers
// ---------------------------------------------------------------------------
/// Whether an agent's row says that it is alive.
pub open spec fn says_alive(row: JsonV) -> bool {
    row.field("alive"@) == JsonV::Bool(true)
}

/// Every agent that says it is alive and announces an endpoint offers it, with its
/// provider, and no other does.
pub proof fn law_every_live_agent_offers_its_endpoint(
    agents: Map<Seq<char>, JsonV>,
    keys: Seq<Seq<char>>,
    nodes: NodeAddrs,
    a: AllowV,
    local: Seq<Net>,
    offer: (EndpointV, Seq<char>),
)
    ensures
        openai_offers(agents, keys, nodes, a, local).contains(offer) <==> exists|i: int|
            0 <= i < keys.len() && offered(agents[#[trigger] keys[i]], nodes, a, local, offer),
    decreases keys.len(),
{
    if keys.len() > 0 {
        let init = keys.drop_last();
        law_every_live_agent_offers_its_endpoint(agents, init, nodes, a, local, offer);
        let had = openai_offers(agents, init, nodes, a, local);
        let all = openai_offers(agents, keys, nodes, a, local);
        assert(keys[keys.len() - 1] == keys.last());
        if all.contains(offer) {
            let k = all.index_of(offer);
            if k < had.len() {
                assert(had[k] == offer);
                let i = choose|i: int|
                    0 <= i < init.len() && offered(
                        agents[#[trigger] init[i]],
                        nodes,
                        a,
                        local,
                        offer,
                    );
                assert(keys[i] == init[i]);
            } else {
                assert(offered(agents[keys[keys.len() - 1]], nodes, a, local, offer));
            }
        }
        if exists|i: int|
            0 <= i < keys.len() && offered(agents[#[trigger] keys[i]], nodes, a, local, offer) {
            let i = choose|i: int|
                0 <= i < keys.len() && offered(agents[#[trigger] keys[i]], nodes, a, local, offer);
            if i < init.len() {
                assert(init[i] == keys[i]);
                let k = had.index_of(offer);
                assert(all[k] == offer);
            } else {
                assert(all[had.len() as int] == offer);
            }
        }
    }
}

/// Whether a row offers an endpoint for models: it is alive, announces it and names its
/// provider, or none.
pub open spec fn offered(
    row: JsonV,
    nodes: NodeAddrs,
    a: AllowV,
    local: Seq<Net>,
    offer: (EndpointV, Seq<char>),
) -> bool {
    let provider = row.field("services"@).field("openai"@).field("provider"@);
    &&& says_alive(row)
    &&& endpoint(row, "openai"@, nodes, a, local) == Some(offer.0)
    &&& provider is Str ==> offer.1 == provider->Str_0
    &&& !(provider is Str) ==> offer.1.len() == 0
}

/// Whether a row offers tools: it is alive and announces where.
pub open spec fn offers_tools(row: JsonV, nodes: NodeAddrs, a: AllowV, local: Seq<Net>) -> bool {
    says_alive(row) && endpoint(row, "mcp"@, nodes, a, local) is Some
}

/// A row's offer of tools: whether it serves models too, and where the tools are.
pub open spec fn tools_offer(
    row: JsonV,
    nodes: NodeAddrs,
    a: AllowV,
    local: Seq<Net>,
) -> (bool, EndpointV) {
    (
        !(row.field("services"@).field("openai"@) is Null),
        endpoint(row, "mcp"@, nodes, a, local)->0,
    )
}

/// A group's tools are those of an agent that is alive and announces them: one that serves
/// models too if there is one, and of equals one whose best address none comes before.
pub proof fn law_tools_come_from_where_models_are_served(
    agents: Map<Seq<char>, JsonV>,
    keys: Seq<Seq<char>>,
    nodes: NodeAddrs,
    a: AllowV,
    local: Seq<Net>,
)
    ensures
        ({
            let won = mcp_offer(agents, keys, nodes, a, local);
            &&& won is Some <==> exists|i: int|
                0 <= i < keys.len() && offers_tools(agents[#[trigger] keys[i]], nodes, a, local)
            &&& won is Some ==> exists|i: int|
                0 <= i < keys.len() && offers_tools(agents[#[trigger] keys[i]], nodes, a, local)
                    && tools_offer(agents[keys[i]], nodes, a, local) == won->0
            &&& forall|i: int|
                #![trigger keys[i]]
                0 <= i < keys.len() && offers_tools(agents[keys[i]], nodes, a, local) ==> ({
                    let o = tools_offer(agents[keys[i]], nodes, a, local);
                    &&& o.0 ==> (won->0).0
                    &&& o.0 == (won->0).0 ==> !opt_before(best_of(o.1), best_of((won->0).1))
                })
        }),
    decreases keys.len(),
{
    if keys.len() > 0 {
        let init = keys.drop_last();
        law_tools_come_from_where_models_are_served(agents, init, nodes, a, local);
        let had = mcp_offer(agents, init, nodes, a, local);
        let won = mcp_offer(agents, keys, nodes, a, local);
        let n = keys.len() - 1;
        assert(keys[n] == keys.last());
        let row = agents[keys[n]];
        let new = tools_offer(row, nodes, a, local);
        if had is Some {
            let i = choose|i: int|
                0 <= i < init.len() && offers_tools(agents[#[trigger] init[i]], nodes, a, local)
                    && tools_offer(agents[init[i]], nodes, a, local) == had->0;
            assert(keys[i] == init[i]);
            assert(offers_tools(agents[keys[i]], nodes, a, local));
        }
        assert forall|i: int| #![trigger keys[i]] 0 <= i < n implies keys[i] == init[i] by {}
        if offers_tools(row, nodes, a, local) {
            assert(won is Some);
        }
        assert forall|i: int|
            #![trigger keys[i]]
            0 <= i < keys.len() && offers_tools(agents[keys[i]], nodes, a, local) implies ({
            let o = tools_offer(agents[keys[i]], nodes, a, local);
            &&& o.0 ==> (won->0).0
            &&& o.0 == (won->0).0 ==> !opt_before(best_of(o.1), best_of((won->0).1))
        }) by {
            let o = tools_offer(agents[keys[i]], nodes, a, local);
            lemma_order(best_of(o.1), best_of((had->0).1), best_of(new.1));
            if i < n {
                assert(init[i] == keys[i]);
            }
        }
    }
}

proof fn lemma_order(o: Option<Seq<char>>, h: Option<Seq<char>>, n: Option<Seq<char>>)
    ensures
        !opt_before(n, n),
        opt_before(o, n) && opt_before(n, h) ==> opt_before(o, h),
{
    if n is Some {
        lemma_before_irreflexive(n->0);
        if opt_before(o, n) && opt_before(n, h) && o is Some {
            lemma_before_transitive(o->0, n->0, h->0);
        }
    }
}

} // verus!
