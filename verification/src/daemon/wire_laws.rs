//! What goes over the wire: frames by their bytes, and rows by their names.

use vstd::bytes::*;
use vstd::prelude::*;
use vstd::string::*;

use crate::common::ifaces::IfaceRowV;
use crate::common::ip::v4_of;
use crate::common::json::JsonV;
use crate::common::text::{decimal, has_prefix, trimmed};
use crate::common::text_laws::law_a_number_reads_back;
use crate::common::top::{top_at, TopV};
use crate::daemon::announce::{
    at_rank, bad_addrs, broadcasts_to, by_rank, entries, first_match, globs, good_addrs, held_addrs,
    held_names, held_tags, port_of, selected, specs_of, unranked, up_addrs,
    IfaceV, SpecV,
};
use crate::daemon::calls::pg_entered;
use crate::daemon::frames::head;
use crate::daemon::proto::{first_frame, framed, keepalive, FrameError};
use crate::daemon::state::{
    ActorStateV, ActorV, AgentV, ClientV, PeerV, PgState, PgV, StateV,
};
use crate::daemon::status::{
    actor_row_of, agent_row_of, client_row_of, peer_row_of, pg_row_of,
};

verus! {

// ---------------------------------------------------------------------------
// Frames
// ---------------------------------------------------------------------------
/// A frame is the length of its header and that of its payload, four bytes each with the
/// least first, and then the two.
pub proof fn law_a_frame_is_its_lengths_and_its_parts(header: Seq<u8>, payload: Seq<u8>)
    requires
        header.len() <= u32::MAX,
        payload.len() <= u32::MAX,
    ensures
        ({
            let f = framed(header, payload);
            &&& f.len() == 8 + header.len() + payload.len()
            &&& spec_u32_from_le_bytes(f.subrange(0, 4)) == header.len()
            &&& spec_u32_from_le_bytes(f.subrange(4, 8)) == payload.len()
            &&& f.subrange(8, 8 + header.len() as int) == header
            &&& f.skip(8 + header.len() as int) == payload
        }),
{
    lemma_auto_spec_u32_to_from_le_bytes();
    let f = framed(header, payload);
    let a = spec_u32_to_le_bytes(header.len() as u32);
    let b = spec_u32_to_le_bytes(payload.len() as u32);
    assert(a.len() == 4 && b.len() == 4);
    assert(f.subrange(0, 4) =~= a);
    assert(f.subrange(4, 8) =~= b);
    assert(f.subrange(8, 8 + header.len() as int) =~= header);
    assert(f.skip(8 + header.len() as int) =~= payload);
}

/// What is read is nothing where there is nothing, an error where a frame is cut short or
/// a part of it is over the limit, and otherwise the two parts that the lengths tell.
pub proof fn law_a_frame_is_read_by_its_lengths(input: Seq<u8>)
    ensures
        ({
            let h = spec_u32_from_le_bytes(input.subrange(0, 4)) as int;
            let p = spec_u32_from_le_bytes(input.subrange(4, 8)) as int;
            let over = h > 268435456 || p > 268435456;
            &&& first_frame(input) == Ok::<Option<(Seq<u8>, Seq<u8>)>, FrameError>(None)
                <==> input.len() == 0
            &&& input.len() > 0 && (input.len() < 8 || (!over && input.len() < 8 + h + p))
                ==> first_frame(input) == Err::<Option<(Seq<u8>, Seq<u8>)>, FrameError>(
                FrameError::MidFrame,
            )
            &&& input.len() >= 8 && over ==> first_frame(input) is Err
            &&& input.len() >= 8 && !over && input.len() >= 8 + h + p ==> first_frame(input) == Ok::<
                Option<(Seq<u8>, Seq<u8>)>,
                FrameError,
            >(Some((input.subrange(8, 8 + h), input.subrange(8 + h, 8 + h + p))))
        }),
{
}

/// A header says its type in `t`, and its request in `req`, or none; anything else is no
/// header.
pub proof fn law_a_header_has_a_type(f: Seq<(Seq<char>, TopV)>)
    ensures
        head(Some(f)) is Some <==> (top_at(f, "t"@) matches Some(TopV::Text(_)) && true) && (top_at(
            f,
            "req"@,
        ) is None || (top_at(f, "req"@) matches Some(TopV::Whole(_)) && true)),
        head(Some(f)) is Some ==> top_at(f, "t"@) == Some(TopV::Text((head(Some(f))->0).1)),
        head(Some(f)) is Some && top_at(f, "req"@) is None ==> (head(Some(f))->0).0 == 0,
        head(Some(f)) is Some && top_at(f, "req"@) is Some ==> top_at(f, "req"@) == Some(
            TopV::Whole((head(Some(f))->0).0),
        ),
        head(None) is None,
{
}

/// The silence after which a link is dead is split between the wait before the first
/// keepalive and three of them: together it is that, in whole seconds, and five at least.
pub proof fn law_keepalives_add_up(dead_after_ms: u64)
    ensures
        ({
            let (idle, every, count) = keepalive(dead_after_ms);
            let total = if dead_after_ms as int / 1000 > 5 {
                dead_after_ms as int / 1000
            } else {
                5
            };
            &&& count == 3
            &&& idle + every * count == total
            &&& idle >= 1 && every >= 1
        }),
{
}

// ---------------------------------------------------------------------------
// Rows
// ---------------------------------------------------------------------------
/// An actor's row tells its name, its node, its GPUs, its state by name, why it died and
/// its process.
pub proof fn law_an_actors_row_tells_its_state(a: ActorV)
    ensures
        ({
            let r = actor_row_of(a);
            &&& r.field("name"@) == JsonV::Str(a.name)
            &&& r.field("node_id"@) == JsonV::Str(a.node_id)
            &&& r.field("gpu_ids"@).items().len() == a.gpu_ids.len()
            &&& forall|i: int|
                0 <= i < a.gpu_ids.len() ==> #[trigger] r.field("gpu_ids"@).items()[i]
                    == JsonV::Uint(a.gpu_ids[i] as u64)
            &&& a.state is Spawning ==> r.field("state"@) == JsonV::Str("spawning"@)
            &&& a.state is Running ==> r.field("state"@) == JsonV::Str("running"@)
            &&& a.state matches ActorStateV::Dead { reason, .. } ==> r.field("state"@)
                == JsonV::Str("dead"@) && r.field("reason"@) == JsonV::Str(reason)
            &&& a.pid is Some ==> r.field("pid"@) == JsonV::Uint(a.pid->0 as u64)
            &&& a.pid is None ==> r.field("pid"@) is Null
        }),
{
    reveal_strlit("name");
    reveal_strlit("node_id");
    reveal_strlit("gpu_ids");
    reveal_strlit("state");
    reveal_strlit("reason");
    reveal_strlit("pid");
    assert("name"@.len() == 4 && "state"@.len() == 5 && "reason"@.len() == 6 && "pid"@.len() == 3);
    assert("node_id"@.len() == 7 && "gpu_ids"@.len() == 7);
    assert("node_id"@[0] == 'n' && "gpu_ids"@[0] == 'g');
}

/// An agent's row tells its node, whether it is alive or degraded, and the GPUs it has
/// free.
pub proof fn law_an_agents_row_tells_what_is_free(s: StateV, a: AgentV)
    ensures
        ({
            let r = agent_row_of(s, a);
            &&& r.field("node_ip"@) == JsonV::Str(a.node_ip)
            &&& r.field("node_id"@) == JsonV::Str(a.node_id)
            &&& r.field("container"@) == JsonV::Str(a.container)
            &&& r.field("alive"@) == JsonV::Bool(a.alive)
            &&& r.field("degraded"@) == JsonV::Bool(a.degraded)
            &&& r.field("pid"@) == JsonV::Uint(a.pid as u64)
            &&& r.field("gpus_free"@).items().len() == s.free_gpus(a.id).len()
            &&& forall|i: int|
                0 <= i < s.free_gpus(a.id).len() ==> #[trigger] r.field("gpus_free"@).items()[i]
                    == JsonV::Uint(s.free_gpus(a.id)[i] as u64)
            &&& r.field("services"@).fields().dom() == a.services.dom()
        }),
{
    reveal_strlit("node_ip");
    reveal_strlit("node_id");
    reveal_strlit("container");
    reveal_strlit("alive");
    reveal_strlit("degraded");
    reveal_strlit("gone_since_ms");
    reveal_strlit("machine");
    reveal_strlit("gpus_free");
    reveal_strlit("services");
    reveal_strlit("pid");
    assert("node_ip"@.len() == 7 && "node_id"@.len() == 7 && "machine"@.len() == 7);
    assert("node_ip"@[6] == 'p' && "node_id"@[6] == 'd' && "machine"@[6] == 'e');
    assert("container"@.len() == 9 && "gpus_free"@.len() == 9);
    assert("container"@[0] == 'c' && "gpus_free"@[0] == 'g');
    assert("degraded"@.len() == 8 && "services"@.len() == 8);
    assert("degraded"@[0] == 'd' && "services"@[0] == 's');
    assert("alive"@.len() == 5 && "gone_since_ms"@.len() == 13 && "pid"@.len() == 3);
    assert(agent_row_of(s, a).field("services"@).fields().dom() =~= a.services.dom());
}

/// A placement group's row tells its bundles, its state by name, its claim, why it waits
/// and how many nodes its fabric has.
pub proof fn law_a_groups_row_tells_its_state(p: PgV)
    ensures
        ({
            let r = pg_row_of(p);
            &&& r.field("bundles"@).items().len() == p.bundles.len()
            &&& forall|i: int|
                0 <= i < p.bundles.len() ==> #[trigger] r.field("bundles"@).items()[i]
                    == JsonV::Uint(p.bundles[i] as u64)
            &&& r.field("strategy"@) == JsonV::Str(p.strategy)
            &&& r.field("claim"@) == JsonV::Str(p.claim)
            &&& p.state == PgState::Pending ==> r.field("state"@) == JsonV::Str("PENDING"@)
            &&& p.state == PgState::Created ==> r.field("state"@) == JsonV::Str("CREATED"@)
            &&& p.state == PgState::Removed ==> r.field("state"@) == JsonV::Str("REMOVED"@)
            &&& p.pending_reason is Some ==> r.field("pending_reason"@) == JsonV::Str(
                p.pending_reason->0,
            )
            &&& p.island is None ==> r.field("island_nodes"@) is Null
        }),
{
    reveal_strlit("bundles");
    reveal_strlit("strategy");
    reveal_strlit("state");
    reveal_strlit("claim");
    reveal_strlit("pending_reason");
    reveal_strlit("island_nodes");
    assert("bundles"@.len() == 7 && "strategy"@.len() == 8 && "pending_reason"@.len() == 14
        && "island_nodes"@.len() == 12);
    assert("state"@.len() == 5 && "claim"@.len() == 5 && "state"@[0] == 's' && "claim"@[0] == 'c');
}

/// A client's row tells its group, its kind, its node and whether it is in session.
pub proof fn law_a_clients_row_tells_its_session(c: ClientV)
    ensures
        ({
            let r = client_row_of(c);
            &&& r.field("group"@) == JsonV::Str(c.group)
            &&& r.field("kind"@) == JsonV::Str(c.kind)
            &&& r.field("node_id"@) == JsonV::Str(c.node_id)
            &&& r.field("session"@) == JsonV::Bool(c.has_session)
        }),
{
    reveal_strlit("group");
    reveal_strlit("kind");
    reveal_strlit("node_id");
    reveal_strlit("session");
    assert("group"@.len() == 5 && "kind"@.len() == 4);
    assert("node_id"@.len() == 7 && "session"@.len() == 7 && "node_id"@[0] == 'n' && "session"@[0]
        == 's');
}

/// A peer's row tells its addresses, its ports and whether it is alive, stale and when it
/// was heard.
pub proof fn law_a_peers_row_tells_how_it_is(p: PeerV)
    ensures
        ({
            let r = peer_row_of(p);
            &&& r.field("node_ip"@) == JsonV::Str(p.node_ip)
            &&& r.field("link_ip"@) == JsonV::Str(p.link_ip)
            &&& r.field("addrs"@).items().len() == p.addrs.len()
            &&& forall|i: int|
                0 <= i < p.addrs.len() ==> #[trigger] r.field("addrs"@).items()[i] == JsonV::Str(
                    p.addrs[i],
                )
            &&& r.field("control_port"@) == JsonV::Uint(p.control_port as u64)
            &&& r.field("http_port"@) == JsonV::Uint(p.http_port as u64)
            &&& r.field("alive"@) == JsonV::Bool(p.alive)
            &&& r.field("stale"@) == JsonV::Bool(p.stale)
            &&& r.field("last_seen_ms"@) == JsonV::Uint(p.last_seen_ms)
            &&& r.field("dead_since_ms"@) == JsonV::Uint(p.dead_since_ms)
            &&& r.field("probes"@).fields().dom() == p.probe_pairs.dom()
        }),
{
    reveal_strlit("node_ip");
    reveal_strlit("link_ip");
    reveal_strlit("addrs");
    reveal_strlit("addr_tags");
    reveal_strlit("addr_ifaces");
    reveal_strlit("probes");
    reveal_strlit("control_port");
    reveal_strlit("http_port");
    reveal_strlit("alive");
    reveal_strlit("stale");
    reveal_strlit("last_seen_ms");
    reveal_strlit("dead_since_ms");
    assert("node_ip"@.len() == 7 && "link_ip"@.len() == 7 && "node_ip"@[0] == 'n' && "link_ip"@[0]
        == 'l');
    assert("addrs"@.len() == 5 && "alive"@.len() == 5 && "stale"@.len() == 5);
    assert("addrs"@[1] == 'd' && "alive"@[1] == 'l' && "stale"@[1] == 't');
    assert("addr_tags"@.len() == 9 && "http_port"@.len() == 9 && "addr_tags"@[0] == 'a'
        && "http_port"@[0] == 'h');
    assert("control_port"@.len() == 12 && "last_seen_ms"@.len() == 12 && "control_port"@[0] == 'c'
        && "last_seen_ms"@[0] == 'l');
    assert("addr_ifaces"@.len() == 11 && "probes"@.len() == 6 && "dead_since_ms"@.len() == 13);
    assert(peer_row_of(p).field("probes"@).fields().dom() =~= p.probe_pairs.dom());
}

/// A placement group is entered pending, as its client's and its client's group's, with
/// nothing assigned; nothing else changes.
pub proof fn law_a_new_group_is_pending(
    s: StateV,
    client: Seq<char>,
    id: Seq<char>,
    bundles: Seq<u32>,
    strategy: Seq<char>,
    claim: Seq<char>,
    now: u64,
)
    ensures
        ({
            let t = pg_entered(s, client, id, bundles, strategy, claim, now);
            let p = t.pgs[id];
            &&& t.pgs.contains_key(id)
            &&& p.id == id && p.owner == client && p.bundles == bundles && p.strategy == strategy
                && p.claim == claim && p.created_ms == now
            &&& s.clients.contains_key(client) ==> p.group == s.clients[client].group
            &&& p.state == PgState::Pending
            &&& p.assignment.len() == bundles.len()
            &&& forall|i: int| 0 <= i < bundles.len() ==> (#[trigger] p.assignment[i]) is None
            &&& p.fail_reason is None && p.removed_ms is None && p.island is None
            &&& forall|k: Seq<char>|
                k != id && s.pgs.contains_key(k) ==> #[trigger] t.pgs[k] == s.pgs[k]
            &&& t.actors == s.actors && t.agents == s.agents
        }),
{
}

// ---------------------------------------------------------------------------
// Interfaces
// ---------------------------------------------------------------------------
/// Whether an interface of a box may be announced: an IPv4 one that is up and is not a
/// box's own.
pub open spec fn speaks(r: IfaceRowV) -> bool {
    r.v4 && r.up && !r.loopback
}

proof fn lemma_unranked(rows: Seq<IfaceRowV>, name: Seq<char>)
    ensures
        (exists|i: int| 0 <= i < unranked(rows).len() && (#[trigger] unranked(rows)[i]).name == name)
            <==> exists|j: int|
            0 <= j < rows.len() && (#[trigger] rows[j]).name == name && speaks(rows[j])
                && !has_prefix(name, "docker"@) && !has_prefix(name, "veth"@) && !has_prefix(
                name,
                "br-"@,
            ) && !has_prefix(name, "virbr"@),
    decreases rows.len(),
{
    if rows.len() > 0 {
        let init = rows.drop_last();
        let last = rows.last();
        assert(rows[rows.len() - 1] == last);
        lemma_unranked(init, name);
        let had = unranked(init);
        let all = unranked(rows);
        if exists|i: int| 0 <= i < all.len() && (#[trigger] all[i]).name == name {
            let i = choose|i: int| 0 <= i < all.len() && (#[trigger] all[i]).name == name;
            if i < had.len() {
                assert(had[i] == all[i]);
                let j = choose|j: int|
                    0 <= j < init.len() && (#[trigger] init[j]).name == name && speaks(init[j])
                        && !has_prefix(name, "docker"@) && !has_prefix(name, "veth"@)
                        && !has_prefix(name, "br-"@) && !has_prefix(name, "virbr"@);
                assert(rows[j] == init[j]);
            }
        }
        if exists|j: int|
            0 <= j < rows.len() && (#[trigger] rows[j]).name == name && speaks(rows[j])
                && !has_prefix(name, "docker"@) && !has_prefix(name, "veth"@) && !has_prefix(
                name,
                "br-"@,
            ) && !has_prefix(name, "virbr"@) {
            let j = choose|j: int|
                0 <= j < rows.len() && (#[trigger] rows[j]).name == name && speaks(rows[j])
                    && !has_prefix(name, "docker"@) && !has_prefix(name, "veth"@) && !has_prefix(
                    name,
                    "br-"@,
                ) && !has_prefix(name, "virbr"@);
            if j < init.len() {
                assert(init[j] == rows[j]);
                let i = choose|i: int| 0 <= i < had.len() && (#[trigger] had[i]).name == name;
                assert(all[i] == had[i]);
            } else {
                assert(all[had.len() as int].name == name);
            }
        }
    }
}

/// With no list of interfaces, those that speak are all announced but a container
/// runtime's own bridges.
pub proof fn law_without_a_list_every_interface_but_bridges(
    list: Seq<char>,
    rows: Seq<IfaceRowV>,
    name: Seq<char>,
)
    requires
        specs_of(list).len() == 0,
    ensures
        (exists|i: int|
            0 <= i < selected(list, rows).len() && (#[trigger] selected(list, rows)[i]).name
                == name) <==> exists|j: int|
            0 <= j < rows.len() && (#[trigger] rows[j]).name == name && speaks(rows[j])
                && !has_prefix(name, "docker"@) && !has_prefix(name, "veth"@) && !has_prefix(
                name,
                "br-"@,
            ) && !has_prefix(name, "virbr"@),
{
    lemma_unranked(rows, name);
}

proof fn lemma_first_match(spec: Seq<SpecV>, name: Seq<char>, i: int)
    requires
        0 <= i <= spec.len(),
    ensures
        ({
            let r = first_match(spec, name, i);
            &&& i <= r <= spec.len()
            &&& r < spec.len() ==> globs(spec[r].pat, name)
            &&& forall|j: int| i <= j < r ==> !globs((#[trigger] spec[j]).pat, name)
        }),
    decreases spec.len() - i,
{
    if i < spec.len() && !globs(spec[i].pat, name) {
        lemma_first_match(spec, name, i + 1);
    }
}

proof fn lemma_at_rank(spec: Seq<SpecV>, rows: Seq<IfaceRowV>, rank: int)
    requires
        0 <= rank < spec.len(),
    ensures
        forall|i: int|
            0 <= i < at_rank(spec, rows, rank).len() ==> ({
                let v = #[trigger] at_rank(spec, rows, rank)[i];
                &&& globs(spec[rank].pat, v.name)
                &&& v.tags == spec[rank].tags
                &&& forall|j: int| 0 <= j < rank ==> !globs((#[trigger] spec[j]).pat, v.name)
            }),
        forall|j: int|
            0 <= j < rows.len() && speaks(#[trigger] rows[j]) && globs(spec[rank].pat, rows[j].name)
                && (forall|x: int|
                0 <= x < rank ==> !globs((#[trigger] spec[x]).pat, rows[j].name)) ==> exists|i: int|
                0 <= i < at_rank(spec, rows, rank).len() && (
                #[trigger] at_rank(spec, rows, rank)[i]).name == rows[j].name,
    decreases rows.len(),
{
    if rows.len() > 0 {
        let init = rows.drop_last();
        let last = rows.last();
        assert(rows[rows.len() - 1] == last);
        lemma_at_rank(spec, init, rank);
        let had = at_rank(spec, init, rank);
        let all = at_rank(spec, rows, rank);
        lemma_first_match(spec, last.name, 0);
        assert forall|i: int| 0 <= i < all.len() implies ({
            let v = #[trigger] all[i];
            &&& globs(spec[rank].pat, v.name)
            &&& v.tags == spec[rank].tags
            &&& forall|j: int| 0 <= j < rank ==> !globs((#[trigger] spec[j]).pat, v.name)
        }) by {
            if i < had.len() {
                assert(all[i] == had[i]);
            }
        }
        assert forall|j: int|
            0 <= j < rows.len() && speaks(#[trigger] rows[j]) && globs(spec[rank].pat, rows[j].name)
                && (forall|x: int|
                0 <= x < rank ==> !globs((#[trigger] spec[x]).pat, rows[j].name)) implies exists|
            i: int,
        | 0 <= i < all.len() && (#[trigger] all[i]).name == rows[j].name by {
            if j < init.len() {
                assert(init[j] == rows[j]);
                let i = choose|i: int|
                    0 <= i < had.len() && (#[trigger] had[i]).name == init[j].name;
                assert(all[i] == had[i]);
            } else {
                let m = first_match(spec, last.name, 0);
                if m < rank {
                    assert(globs(spec[m].pat, last.name));
                } else if m > rank {
                    assert(!globs(spec[rank].pat, last.name));
                }
                assert(all[had.len() as int].name == last.name);
            }
        }
    }
}

proof fn lemma_by_rank(spec: Seq<SpecV>, rows: Seq<IfaceRowV>, n: nat)
    requires
        n <= spec.len(),
    ensures
        ({
            let v = by_rank(spec, rows, n);
            &&& forall|i: int|
                0 <= i < v.len() ==> exists|r: int|
                    {
                        &&& 0 <= r < n
                        &&& globs((#[trigger] spec[r]).pat, (#[trigger] v[i]).name)
                        &&& v[i].tags == spec[r].tags
                        &&& forall|j: int| 0 <= j < r ==> !globs((#[trigger] spec[j]).pat, v[i].name)
                    }
            &&& forall|j: int, r: int|
                #![trigger rows[j], spec[r]]
                0 <= j < rows.len() && 0 <= r < n && speaks(rows[j]) && globs(
                    spec[r].pat,
                    rows[j].name,
                ) ==> exists|i: int| 0 <= i < v.len() && (#[trigger] v[i]).name == rows[j].name
        }),
    decreases n,
{
    if n > 0 {
        let m = (n - 1) as nat;
        lemma_by_rank(spec, rows, m);
        lemma_at_rank(spec, rows, n - 1);
        let a = by_rank(spec, rows, m);
        let b = at_rank(spec, rows, n - 1);
        let v = by_rank(spec, rows, n);
        assert forall|i: int| 0 <= i < v.len() implies exists|r: int|
            {
                &&& 0 <= r < n
                &&& globs((#[trigger] spec[r]).pat, (#[trigger] v[i]).name)
                &&& v[i].tags == spec[r].tags
                &&& forall|j: int| 0 <= j < r ==> !globs((#[trigger] spec[j]).pat, v[i].name)
            } by {
            if i < a.len() {
                assert(v[i] == a[i]);
                let r = choose|r: int|
                    {
                        &&& 0 <= r < m
                        &&& globs((#[trigger] spec[r]).pat, a[i].name)
                        &&& a[i].tags == spec[r].tags
                        &&& forall|j: int| 0 <= j < r ==> !globs((#[trigger] spec[j]).pat, a[i].name)
                    };
                assert(0 <= r < n && globs(spec[r].pat, v[i].name));
            } else {
                assert(v[i] == b[i - a.len()]);
                assert(globs(spec[n - 1].pat, v[i].name));
            }
        }
        assert forall|j: int, r: int|
            #![trigger rows[j], spec[r]]
            0 <= j < rows.len() && 0 <= r < n && speaks(rows[j]) && globs(
                spec[r].pat,
                rows[j].name,
            ) implies exists|i: int| 0 <= i < v.len() && (#[trigger] v[i]).name == rows[j].name by {
            if exists|x: int| 0 <= x < m && globs((#[trigger] spec[x]).pat, rows[j].name) {
                let x = choose|x: int| 0 <= x < m && globs((#[trigger] spec[x]).pat, rows[j].name);
                let i = choose|i: int| 0 <= i < a.len() && (#[trigger] a[i]).name == rows[j].name;
                assert(v[i] == a[i]);
            } else {
                assert(r == n - 1);
                let i = choose|i: int| 0 <= i < b.len() && (#[trigger] b[i]).name == rows[j].name;
                assert(v[a.len() + i] == b[i]);
            }
        }
    }
}

/// With a list of interfaces, those that speak and match an entry are announced, each
/// with the tags of the first entry it matches.
pub proof fn law_a_list_names_the_interfaces_and_their_tags(
    list: Seq<char>,
    rows: Seq<IfaceRowV>,
)
    requires
        specs_of(list).len() > 0,
    ensures
        ({
            let spec = specs_of(list);
            let v = selected(list, rows);
            &&& forall|i: int|
                0 <= i < v.len() ==> exists|r: int|
                    {
                        &&& 0 <= r < spec.len()
                        &&& globs((#[trigger] spec[r]).pat, (#[trigger] v[i]).name)
                        &&& v[i].tags == spec[r].tags
                        &&& forall|j: int| 0 <= j < r ==> !globs((#[trigger] spec[j]).pat, v[i].name)
                    }
            &&& forall|j: int, r: int|
                #![trigger rows[j], spec[r]]
                0 <= j < rows.len() && 0 <= r < spec.len() && speaks(rows[j]) && globs(
                    spec[r].pat,
                    rows[j].name,
                ) ==> exists|i: int| 0 <= i < v.len() && (#[trigger] v[i]).name == rows[j].name
        }),
{
    lemma_by_rank(specs_of(list), rows, specs_of(list).len());
}

/// A pattern matches a name letter by letter: a question mark stands for any one, a star
/// for any run, none included.
pub proof fn law_a_pattern_matches_letter_by_letter(p: Seq<char>, n: Seq<char>, c: char)
    ensures
        globs(Seq::empty(), n) <==> n.len() == 0,
        globs(seq!['*'], n),
        globs(seq!['?'] + p, seq![c] + n) == globs(p, n),
        c != '*' && c != '?' ==> globs(seq![c] + p, seq![c] + n) == globs(p, n),
        globs(p, n) ==> globs(seq!['*'] + p, n),
        globs(p, n) ==> globs(seq!['*'] + p, seq![c] + n),
        !globs(seq!['?'] + p, Seq::empty()),
    decreases n.len(),
{
    assert((seq!['?'] + p).skip(1) =~= p);
    assert((seq![c] + n).skip(1) =~= n);
    assert((seq![c] + p).skip(1) =~= p);
    assert((seq!['*'] + p).skip(1) =~= p);
    assert(seq!['*'].skip(1) =~= Seq::empty());
    if n.len() > 0 {
        law_a_pattern_matches_letter_by_letter(p, n.skip(1), c);
    }
    if globs(p, n) {
        assert(globs(seq!['*'] + p, n));
    }
}

/// An address is announced if an interface that was picked holds it, under that
/// interface's name.
pub proof fn law_the_addresses_are_the_interfaces(v: Seq<IfaceV>, addr: Seq<char>)
    ensures
        held_addrs(v).contains(addr) <==> exists|i: int|
            0 <= i < v.len() && (#[trigger] v[i]).addr == Some(addr),
        held_names(v).contains_key(addr) <==> held_addrs(v).contains(addr),
        held_names(v).contains_key(addr) ==> exists|i: int|
            0 <= i < v.len() && (#[trigger] v[i]).addr == Some(addr) && v[i].name == held_names(
                v,
            )[addr],
        held_tags(v).contains_key(addr) <==> exists|i: int|
            0 <= i < v.len() && (#[trigger] v[i]).addr == Some(addr) && v[i].tags.len() > 0,
        held_tags(v).contains_key(addr) ==> exists|i: int|
            0 <= i < v.len() && (#[trigger] v[i]).addr == Some(addr) && v[i].tags == held_tags(
                v,
            )[addr],
    decreases v.len(),
{
    if v.len() > 0 {
        let init = v.drop_last();
        law_the_addresses_are_the_interfaces(init, addr);
        let had = held_addrs(init);
        let all = held_addrs(v);
        let n = v.len() - 1;
        assert(v[n] == v.last());
        assert forall|i: int| 0 <= i < n implies #[trigger] v[i] == init[i] by {}
        assert forall|i: int| 0 <= i < n implies #[trigger] init[i] == v[i] by {}
        if had.contains(addr) {
            let k = had.index_of(addr);
            assert(all[k] == addr);
        }
        if v[n].addr == Some(addr) {
            assert(all[had.len() as int] == addr);
        } else if all.contains(addr) {
            let k = all.index_of(addr);
            assert(k < had.len());
            assert(had[k] == addr);
        }
    }
}

/// The addresses are announced in the order of their interfaces.
pub proof fn law_addresses_keep_their_order(v: Seq<IfaceV>)
    requires
        forall|i: int| 0 <= i < v.len() ==> (#[trigger] v[i]).addr is Some,
    ensures
        held_addrs(v).len() == v.len(),
        forall|i: int| 0 <= i < v.len() ==> #[trigger] held_addrs(v)[i] == v[i].addr->0,
    decreases v.len(),
{
    if v.len() > 0 {
        let init = v.drop_last();
        assert forall|i: int| 0 <= i < init.len() implies (#[trigger] init[i]).addr is Some by {
            assert(init[i] == v[i]);
        }
        law_addresses_keep_their_order(init);
        assert(v[v.len() - 1].addr is Some);
    }
}

/// Datagrams go out on the interfaces that broadcast and have somewhere to send to.
pub proof fn law_datagrams_go_where_they_are_broadcast(v: Seq<IfaceV>, port: u16, to: Seq<char>)
    ensures
        broadcasts_to(v, port).contains(to) <==> exists|i: int|
            0 <= i < v.len() && (#[trigger] v[i]).broadcasts && v[i].far is Some && to == v[i].far->0
                + ":"@ + decimal(port as nat),
    decreases v.len(),
{
    if v.len() > 0 {
        let init = v.drop_last();
        law_datagrams_go_where_they_are_broadcast(init, port, to);
        let had = broadcasts_to(init, port);
        let all = broadcasts_to(v, port);
        let n = v.len() - 1;
        assert(v[n] == v.last());
        assert forall|i: int| 0 <= i < n implies #[trigger] v[i] == init[i] by {}
        assert forall|i: int| 0 <= i < n implies #[trigger] init[i] == v[i] by {}
        if had.contains(to) {
            let k = had.index_of(to);
            assert(all[k] == to);
        }
        if all.len() > had.len() {
            assert(all[had.len() as int] == v[n].far->0 + ":"@ + decimal(port as nat));
        }
        if all.contains(to) && !had.contains(to) {
            let k = all.index_of(to);
            if k < had.len() {
                assert(had[k] == to);
            }
        }
    }
}

/// Every address of an IPv4 interface that is up is the box's own.
pub proof fn law_every_interface_that_is_up_is_the_boxs(rows: Seq<IfaceRowV>, addr: Seq<char>)
    ensures
        up_addrs(rows).contains(addr) <==> exists|i: int|
            0 <= i < rows.len() && (#[trigger] rows[i]).addr == Some(addr) && rows[i].v4
                && rows[i].up,
    decreases rows.len(),
{
    if rows.len() > 0 {
        let init = rows.drop_last();
        law_every_interface_that_is_up_is_the_boxs(init, addr);
        let had = up_addrs(init);
        let all = up_addrs(rows);
        let n = rows.len() - 1;
        assert(rows[n] == rows.last());
        assert forall|i: int| 0 <= i < n implies #[trigger] rows[i] == init[i] by {}
        assert forall|i: int| 0 <= i < n implies #[trigger] init[i] == rows[i] by {}
        if had.contains(addr) {
            let k = had.index_of(addr);
            assert(all[k] == addr);
        }
        if all.len() > had.len() {
            assert(all[had.len() as int] == rows[n].addr->0);
        }
        if all.contains(addr) && !had.contains(addr) {
            let k = all.index_of(addr);
            if k < had.len() {
                assert(had[k] == addr);
            }
        }
    }
}

/// Of the addresses that are named, those that are IPv4 are announced and the others are
/// told apart.
pub proof fn law_a_named_address_is_an_address(spec: Seq<SpecV>, e: SpecV)
    ensures
        good_addrs(spec).contains(e) <==> spec.contains(e) && v4_of(e.pat) is Some,
        bad_addrs(spec).contains(e.pat) ==> v4_of(e.pat) is None,
        spec.contains(e) && v4_of(e.pat) is None ==> bad_addrs(spec).contains(e.pat),
        good_addrs(spec).len() + bad_addrs(spec).len() == spec.len(),
    decreases spec.len(),
{
    if spec.len() > 0 {
        let init = spec.drop_last();
        law_a_named_address_is_an_address(init, e);
        let last = spec.last();
        assert(spec[spec.len() - 1] == last);
        let good = good_addrs(init);
        let bad = bad_addrs(init);
        let goods = good_addrs(spec);
        let bads = bad_addrs(spec);
        if init.contains(e) {
            let i = init.index_of(e);
            assert(spec[i] == e);
        }
        if spec.contains(e) && e != last {
            let i = spec.index_of(e);
            assert(init[i] == e);
        }
        if good.contains(e) {
            let k = good.index_of(e);
            assert(goods[k] == e);
        }
        if bad.contains(e.pat) {
            let k = bad.index_of(e.pat);
            assert(bads[k] == e.pat);
        }
        if v4_of(last.pat) is Some {
            assert(goods[good.len() as int] == last);
        } else {
            assert(bads[bad.len() as int] == last.pat);
        }
        if goods.contains(e) && !good.contains(e) {
            let k = goods.index_of(e);
            if k < good.len() {
                assert(good[k] == e);
            }
        }
        if bads.contains(e.pat) && !bad.contains(e.pat) {
            let k = bads.index_of(e.pat);
            if k < bad.len() {
                assert(bad[k] == e.pat);
            }
        }
    }
}

/// A list is read entry by entry: each that is not blank, without the blanks round it.
pub proof fn law_a_list_is_read_entry_by_entry(parts: Seq<Seq<char>>, e: Seq<char>)
    ensures
        entries(parts).contains(e) <==> e.len() > 0 && exists|i: int|
            0 <= i < parts.len() && trimmed(#[trigger] parts[i]) == e,
        entries(parts).len() <= parts.len(),
    decreases parts.len(),
{
    if parts.len() > 0 {
        let init = parts.drop_last();
        law_a_list_is_read_entry_by_entry(init, e);
        let had = entries(init);
        let all = entries(parts);
        let n = parts.len() - 1;
        assert(parts[n] == parts.last());
        assert forall|i: int| 0 <= i < n implies #[trigger] parts[i] == init[i] by {}
        assert forall|i: int| 0 <= i < n implies #[trigger] init[i] == parts[i] by {}
        if had.contains(e) {
            let k = had.index_of(e);
            assert(all[k] == e);
        }
        if all.len() > had.len() {
            assert(all[had.len() as int] == trimmed(parts[n]));
        }
        if all.contains(e) && !had.contains(e) {
            let k = all.index_of(e);
            if k < had.len() {
                assert(had[k] == e);
            }
        }
    }
}

/// A port for announcements that is set in decimal is that port, blanks aside, and
/// anything that is no port is 6382.
pub proof fn law_the_port_of_announcements(v: Seq<char>)
    ensures
        forall|n: u16| trimmed(v) == #[trigger] decimal(n as nat) ==> port_of(Some(v)) == n,
        forall|n: nat|
            n > 65535 && trimmed(v) == #[trigger] decimal(n) ==> port_of(Some(v)) == 6382,
        trimmed(v).len() == 0 ==> port_of(Some(v)) == 6382,
        port_of(None) == 6382,
{
    assert forall|n: u16| trimmed(v) == #[trigger] decimal(n as nat) implies port_of(Some(v))
        == n by {
        law_a_number_reads_back(n as nat);
    }
    assert forall|n: nat| n > 65535 && trimmed(v) == #[trigger] decimal(n) implies port_of(Some(v))
        == 6382 by {
        law_a_number_reads_back(n);
    }
}

} // verus!
