//! What an actor starts with, what a call comes to, and what a wait gives.

use vstd::prelude::*;
use vstd::string::*;

use crate::common::dict::those;
use crate::common::text::{decimal, digit, joined, lemma_decimal_reads_back, number};
use crate::daemon::actors::{looked, resolved, settled, waited, GotV};
use crate::daemon::calls::{create_complaint, created, decimals, spawn_of, ActorReqV};
use crate::daemon::state::{PgState, RefStateV, StateV};

verus! {

// ---------------------------------------------------------------------------
// The environment of an actor
// ---------------------------------------------------------------------------
/// Where a text's first comma is; its length where there is none.
pub open spec fn first_comma(s: Seq<char>) -> int
    decreases s.len(),
{
    if s.len() == 0 || s[0] == ',' {
        0
    } else {
        1 + first_comma(s.skip(1))
    }
}

/// The numbers that a text lists, with commas between them.
pub open spec fn numbers_in(s: Seq<char>) -> Seq<nat>
    decreases s.len(),
{
    if s.len() == 0 {
        Seq::empty()
    } else {
        let i = first_comma(s);
        if 0 <= i < s.len() {
            seq![number(s.take(i))] + numbers_in(s.skip(i + 1))
        } else {
            seq![number(s)]
        }
    }
}

proof fn lemma_first_comma(a: Seq<char>, rest: Seq<char>)
    requires
        forall|i: int| 0 <= i < a.len() ==> #[trigger] a[i] != ',',
        rest.len() == 0 || rest[0] == ',',
    ensures
        first_comma(a + rest) == a.len(),
    decreases a.len(),
{
    if a.len() > 0 {
        let t = a.skip(1);
        assert forall|i: int| 0 <= i < t.len() implies #[trigger] t[i] != ',' by {
            assert(t[i] == a[i + 1]);
        }
        lemma_first_comma(t, rest);
        assert((a + rest).skip(1) =~= t + rest);
        assert((a + rest)[0] == a[0]);
    } else {
        assert(a + rest =~= rest);
    }
}

/// A list with a first member, and the rest after a comma.
proof fn lemma_joined_head(v: Seq<Seq<char>>)
    requires
        v.len() > 1,
    ensures
        joined(v, ","@) == v[0] + ","@ + joined(v.drop_first(), ","@),
    decreases v.len(),
{
    let t = v.drop_first();
    let sep = ","@;
    if v.len() == 2 {
        assert(v.drop_last() =~= seq![v[0]]);
        assert(joined(v.drop_last(), sep) == v[0]);
        assert(t[0] == v.last());
        assert(joined(t, sep) == v.last());
    } else {
        lemma_joined_head(v.drop_last());
        assert(v.drop_last().drop_first() =~= t.drop_last());
        assert(t.last() == v.last());
        let a = joined(t.drop_last(), sep);
        assert(v[0] + sep + a + sep + v.last() =~= v[0] + sep + (a + sep + v.last()));
    }
}

proof fn lemma_numbers_read_back(ids: Seq<u32>)
    ensures
        numbers_in(joined(decimals(ids), ","@)) == Seq::new(ids.len(), |i: int| ids[i] as nat),
    decreases ids.len(),
{
    reveal_strlit(",");
    let v = decimals(ids);
    let s = joined(v, ","@);
    let want = Seq::new(ids.len(), |i: int| ids[i] as nat);
    if ids.len() == 0 {
        assert(numbers_in(s) =~= want);
    } else {
        let d = decimal(ids[0] as nat);
        lemma_decimal_reads_back(ids[0] as nat);
        assert forall|i: int| 0 <= i < d.len() implies #[trigger] d[i] != ',' by {
            assert(digit(d[i]));
        }
        if ids.len() == 1 {
            assert(s == d);
            assert(d + Seq::<char>::empty() =~= d);
            lemma_first_comma(d, Seq::empty());
            assert(numbers_in(s) =~= want);
        } else {
            lemma_joined_head(v);
            let t = ids.drop_first();
            assert(v.drop_first() =~= decimals(t));
            lemma_numbers_read_back(t);
            let rest = ","@ + joined(decimals(t), ","@);
            assert(s =~= d + rest);
            lemma_first_comma(d, rest);
            assert(s.take(d.len() as int) =~= d);
            assert(s.skip((d.len() + 1) as int) =~= joined(decimals(t), ","@));
            assert(numbers_in(s) =~= want);
        }
    }
}

proof fn lemma_env_names()
    ensures
        "MENTAT_ACTOR_ID"@.len() == 15,
        "MENTAT_NODE_ID"@.len() == 14,
        "MENTAT_NODE_ID"@[12] == 'I',
        "MENTAT_GPU_IDS"@.len() == 14,
        "MENTAT_GPU_IDS"@[12] == 'D',
        "MENTAT_GCS_ADDRESS"@.len() == 18,
        "MENTAT_NODE_IP"@.len() == 14,
        "MENTAT_NODE_IP"@[13] == 'P',
        "MENTAT_NODE_ID"@[13] == 'D',
        "MENTAT_GPU_IDS"@[13] == 'S',
        "MENTAT_FABRIC_IP"@.len() == 16,
{
    reveal_strlit("MENTAT_ACTOR_ID");
    reveal_strlit("MENTAT_NODE_ID");
    reveal_strlit("MENTAT_GPU_IDS");
    reveal_strlit("MENTAT_GCS_ADDRESS");
    reveal_strlit("MENTAT_NODE_IP");
    reveal_strlit("MENTAT_FABRIC_IP");
}

/// An actor is pinned to the GPUs of its bundle: the numbers that its environment
/// lists are the ids the bundle reserves, which are also its own. It knows its id, its
/// node and the daemon, and keeps what its caller set besides.
pub proof fn law_an_actor_is_pinned_to_its_bundle(s: StateV, q: ActorReqV)
    requires
        create_complaint(s, q) is None,
    ensures
        ({
            let p = s.pgs[q.pg_id];
            let b = p.assignment[q.bundle as int]->0;
            let w = spawn_of(s, q);
            let a = created(s, q).actors[q.actor_id];
            &&& w.env.contains_key("MENTAT_GPU_IDS"@)
            &&& numbers_in(w.env["MENTAT_GPU_IDS"@]) == Seq::new(
                b.gpu_ids.len(),
                |i: int| b.gpu_ids[i] as nat,
            )
            &&& w.gpu_ids == b.gpu_ids
            &&& a.gpu_ids == b.gpu_ids
            &&& w.agent == b.agent && a.agent == b.agent
            &&& w.node_id == b.node_id && a.node_id == b.node_id
            &&& w.link == s.agents[b.agent].link
            &&& w.env.contains_pair("MENTAT_ACTOR_ID"@, q.actor_id)
            &&& w.env.contains_pair("MENTAT_NODE_ID"@, b.node_id)
            &&& w.env.contains_pair("MENTAT_GCS_ADDRESS"@, s.control_addr)
            &&& s.agents[b.agent].node_ip.len() > 0 ==> w.env.contains_pair(
                "MENTAT_NODE_IP"@,
                s.agents[b.agent].node_ip,
            )
            &&& p.island is Some && p.island->0.addr.contains_key(b.node_id)
                ==> w.env.contains_pair("MENTAT_FABRIC_IP"@, p.island->0.addr[b.node_id])
            &&& forall|k: Seq<char>| #[trigger]
                q.env.contains_key(k) ==> w.env.contains_key(k)
            &&& forall|k: Seq<char>| #[trigger]
                q.env.contains_key(k) && k != "MENTAT_ACTOR_ID"@ && k != "MENTAT_NODE_ID"@ && k
                    != "MENTAT_GPU_IDS"@ && k != "MENTAT_GCS_ADDRESS"@ && k != "MENTAT_NODE_IP"@
                    && k != "MENTAT_FABRIC_IP"@ ==> w.env[k] == q.env[k]
        }),
{
    let b = s.pgs[q.pg_id].assignment[q.bundle as int]->0;
    lemma_numbers_read_back(b.gpu_ids);
    lemma_env_names();
}

/// An actor's environment has a fabric address only where its caller set one, or its
/// group was placed on a fabric that gives its node one.
pub proof fn law_no_fabric_address_without_a_fabric(s: StateV, q: ActorReqV)
    requires
        create_complaint(s, q) is None,
        spawn_of(s, q).env.contains_key("MENTAT_FABRIC_IP"@),
    ensures
        ({
            let p = s.pgs[q.pg_id];
            let b = p.assignment[q.bundle as int]->0;
            q.env.contains_key("MENTAT_FABRIC_IP"@) || (p.island is Some
                && p.island->0.addr.contains_key(b.node_id))
        }),
{
    lemma_env_names();
}

/// An actor is created exactly where no live actor of its group has its name, its
/// placement group is created, its bundle is placed and reserves as many GPUs as it
/// wants, and the bundle's agent is alive.
pub proof fn law_an_actor_is_created_where_it_can_be(s: StateV, q: ActorReqV)
    ensures
        create_complaint(s, q) is None <==> {
            let p = s.pgs[q.pg_id];
            let b = p.assignment[q.bundle as int];
            &&& forall|k: Seq<char>| #[trigger]
                s.actors.contains_key(k) && s.actors[k].name == q.name && s.actors[k].group
                    == (if s.clients.contains_key(q.client) {
                    s.clients[q.client].group
                } else {
                    "default"@
                }) ==> s.actors[k].state is Dead
            &&& s.pgs.contains_key(q.pg_id)
            &&& p.state == PgState::Created
            &&& q.bundle < p.assignment.len()
            &&& b is Some
            &&& q.num_gpus <= b->0.gpu_ids.len()
            &&& s.agents.contains_key(b->0.agent)
            &&& s.agents[b->0.agent].alive
        },
{
}

/// A new actor is spawning, its client's and its client's group's, with no process and
/// no calls yet; nothing else of the cluster changes but the count of spawns.
pub proof fn law_a_new_actor_is_spawning(s: StateV, q: ActorReqV)
    requires
        create_complaint(s, q) is None,
    ensures
        ({
            let t = created(s, q);
            let a = t.actors[q.actor_id];
            &&& t.actors.contains_key(q.actor_id)
            &&& a.id == q.actor_id
            &&& a.name == q.name
            &&& a.owner == q.client
            &&& s.clients.contains_key(q.client) ==> a.group == s.clients[q.client].group
            &&& !s.clients.contains_key(q.client) ==> a.group == "default"@
            &&& a.state is Spawning
            &&& a.pid is None
            &&& a.queued_calls.len() == 0
            &&& forall|k: Seq<char>|
                k != q.actor_id ==> (#[trigger] t.actors.contains_key(k) == s.actors.contains_key(k))
            &&& forall|k: Seq<char>|
                k != q.actor_id && s.actors.contains_key(k) ==> #[trigger] t.actors[k]
                    == s.actors[k]
            &&& t.agents == s.agents
            &&& t.pgs == s.pgs
            &&& t.refs == s.refs
            &&& t.clients == s.clients
            &&& t.claims == s.claims
            &&& s.counters.actors_spawned < u64::MAX ==> t.counters.actors_spawned
                == s.counters.actors_spawned + 1
        }),
{
}

// ---------------------------------------------------------------------------
// Waiting
// ---------------------------------------------------------------------------
/// Whether a ref has nothing to give yet: a placement group's that is still pending,
/// or a call's that is.
pub open spec fn outstanding(s: StateV, id: Seq<char>) -> bool {
    if id.len() >= 2 && id[0] == 'p' && id[1] == ':' {
        s.pgs.contains_key(id) && s.pgs[id].state == PgState::Pending
    } else {
        s.refs.contains_key(id) && s.refs[id].state is Pending
    }
}

proof fn lemma_outstanding(s: StateV, id: Seq<char>)
    ensures
        resolved(s, id) is Pending == outstanding(s, id),
{
    reveal_strlit("p:");
    let p = "p:"@;
    if id.len() >= 2 {
        assert(id.take(2)[0] == id[0] && id.take(2)[1] == id[1]);
        if id[0] == 'p' && id[1] == ':' {
            assert(id.take(2) =~= p);
        }
    }
}

proof fn lemma_settled(s: StateV, ids: Seq<Seq<char>>)
    ensures
        settled(s, ids) == ids.filter(|k: Seq<char>| !outstanding(s, k)),
    decreases ids.len(),
{
    reveal(Seq::filter);
    let p = |k: Seq<char>| !(resolved(s, k) is Pending);
    if ids.len() > 0 {
        lemma_settled(s, ids.drop_last());
        lemma_outstanding(s, ids.last());
        assert(settled(s, ids.drop_last()) == those(ids.drop_last(), p));
    }
}

/// A wait comes back exactly where the time is up, or as many refs as were asked for
/// have resolved, or all of them have. It gives the ones that have, in the order they
/// were given, and no more than were asked for, whether the time is up or not.
pub proof fn law_a_wait_comes_back_when_enough_resolved(
    s: StateV,
    ids: Seq<Seq<char>>,
    want: nat,
    expired: bool,
)
    ensures
        ({
            let done = ids.filter(|k: Seq<char>| !outstanding(s, k));
            let r = waited(s, ids, want, expired);
            &&& r is Some <==> expired || done.len() >= want || done.len() == ids.len()
            &&& r is Some && done.len() >= want ==> r->0 == done.take(want as int)
            &&& r is Some && done.len() < want ==> r->0 == done
        }),
{
    lemma_settled(s, ids);
    let done = settled(s, ids);
    lemma_those_len(ids, |k: Seq<char>| !(resolved(s, k) is Pending));
    assert(done.take(done.len() as int) =~= done);
}

proof fn lemma_those_len(keys: Seq<Seq<char>>, p: spec_fn(Seq<char>) -> bool)
    ensures
        those(keys, p).len() <= keys.len(),
    decreases keys.len(),
{
    if keys.len() > 0 {
        lemma_those_len(keys.drop_last(), p);
    }
}

/// A look at a ref gives what it resolved to even when the time is up: the result of a
/// call, the reason its actor died, or that nothing goes by the id. Of one that is
/// outstanding it says to wait, or that the time is up.
pub proof fn law_a_look_gives_what_there_is(s: StateV, id: Seq<char>, expired: bool)
    requires
        !(id.len() >= 2 && id[0] == 'p' && id[1] == ':'),
    ensures
        match looked(s, id, expired) {
            GotV::Value { ok, payload } => s.refs.contains_key(id) && s.refs[id].state == (
            RefStateV::Ready { ok, payload }),
            GotV::Died { reason } => s.refs.contains_key(id) && s.refs[id].state == (
            RefStateV::ActorDied { reason }),
            GotV::Unknown { .. } => !s.refs.contains_key(id),
            GotV::Timeout => expired && outstanding(s, id),
            GotV::Wait => !expired && outstanding(s, id),
        },
{
    lemma_outstanding(s, id);
    reveal_strlit("p:");
    if id.len() >= 2 {
        assert(id.take(2)[0] == id[0] && id.take(2)[1] == id[1]);
    }
}

/// A look at a placement group gives nothing but that it is there once it is created,
/// and fails with the reason once it is removed.
pub proof fn law_a_look_at_a_group_waits_for_it(s: StateV, id: Seq<char>, expired: bool)
    requires
        id.len() >= 2,
        id[0] == 'p',
        id[1] == ':',
    ensures
        match looked(s, id, expired) {
            GotV::Value { ok, payload } => s.pgs.contains_key(id) && s.pgs[id].state
                == PgState::Created && ok && payload.len() == 0,
            GotV::Died { reason } => {
                &&& s.pgs.contains_key(id)
                &&& s.pgs[id].state == PgState::Removed
                &&& s.pgs[id].fail_reason is Some ==> reason == s.pgs[id].fail_reason->0
            },
            GotV::Unknown { .. } => !s.pgs.contains_key(id),
            GotV::Timeout => expired && s.pgs.contains_key(id) && s.pgs[id].state
                == PgState::Pending,
            GotV::Wait => !expired && s.pgs.contains_key(id) && s.pgs[id].state
                == PgState::Pending,
        },
{
    reveal_strlit("p:");
    assert(id.take(2) =~= "p:"@);
}

} // verus!
