//! What becomes of a message: of an agent, of a peer, of an operator.

use vstd::prelude::*;
use vstd::string::*;

use crate::common::ip::v4_of;
use crate::common::json::JsonV;
use crate::common::text::{decimal, lemma_last_at_is, signed};
use crate::common::text_laws::{law_a_number_reads_back, law_a_text_is_cut_at_its_last};
use crate::daemon::agents::{exit_counted, exit_reason};
use crate::daemon::announce::announcement_of;
use crate::daemon::end_laws::{
    law_a_death_ends_one_actor, law_a_result_resolves_its_call,
    law_a_spawn_result_settles_its_actor,
};
use crate::daemon::messages::{agent_said, AgentMsg};
use crate::daemon::peering::{dialled_parts, peer_said, probe_ends, PeerMsg};
use crate::daemon::proto::PROTO;
use crate::daemon::state::{ActorStateV, RefStateV, StateV};
use crate::daemon::status::LocalV;

verus! {

/// An agent that says an actor's process exited ends that actor, if it lived; no other
/// actor changes.
pub proof fn law_an_exit_ends_its_actor(
    s: StateV,
    agent: Seq<char>,
    actor: String,
    exit_code: Option<i32>,
    signal: Option<i32>,
    payload: Seq<u8>,
    now: u64,
    by_island: bool,
)
    requires
        s.actors.contains_key(actor@),
    ensures
        ({
            let t = agent_said(
                s,
                agent,
                AgentMsg::Exit { actor_id: actor, exit_code, signal },
                payload,
                now,
                by_island,
            );
            &&& !(s.actors[actor@].state is Dead) ==> t.actors[actor@].state == (ActorStateV::Dead {
                reason: exit_reason(exit_code, signal),
                at_ms: now,
            })
            &&& s.actors[actor@].state is Dead ==> t.actors[actor@] == s.actors[actor@]
            &&& forall|k: Seq<char>|
                k != actor@ && s.actors.contains_key(k) ==> #[trigger] t.actors[k] == s.actors[k]
        }),
{
    let u = StateV {
        counters: exit_counted(s.counters, exit_code, signal),
        ..s
    };
    law_a_death_ends_one_actor(u, actor@, exit_reason(exit_code, signal), now, by_island);
}

/// The reason of an exit tells its code and its signal, and says of each where there is
/// none.
pub proof fn law_an_exits_reason_tells_code_and_signal(n: i32)
    ensures
        exit_reason(Some(n), None) == "actor process exited (exit_code="@ + signed(n as int)
            + " signal="@ + "none"@ + ")"@,
        exit_reason(None, Some(n)) == "actor process exited (exit_code="@ + "none"@ + " signal="@
            + signed(n as int) + ")"@,
        n >= 0 ==> signed(n as int) == decimal(n as nat),
        n < 0 ==> signed(n as int) == seq!['-'] + decimal((-n) as nat),
{
}

/// An agent that says a spawn went well makes its actor run, under the process it names.
pub proof fn law_a_spawned_actor_runs(
    s: StateV,
    agent: Seq<char>,
    actor: String,
    error: String,
    pid: u32,
    payload: Seq<u8>,
    now: u64,
    by_island: bool,
)
    requires
        s.actors.contains_key(actor@),
        s.actors[actor@].state is Spawning,
    ensures
        ({
            let good = agent_said(
                s,
                agent,
                AgentMsg::SpawnResult { actor_id: actor, ok: true, error, pid },
                payload,
                now,
                by_island,
            );
            let bad = agent_said(
                s,
                agent,
                AgentMsg::SpawnResult { actor_id: actor, ok: false, error, pid },
                payload,
                now,
                by_island,
            );
            &&& good.actors[actor@].state is Running
            &&& pid != 0 ==> good.actors[actor@].pid == Some(pid)
            &&& bad.actors[actor@].state is Dead
        }),
{
    law_a_spawn_result_settles_its_actor(s, actor@, true, error@, pid, now, by_island);
    law_a_spawn_result_settles_its_actor(s, actor@, false, error@, pid, now, by_island);
}

/// An agent that says what a call returned resolves that call, if it was pending.
pub proof fn law_a_result_is_its_calls(
    s: StateV,
    agent: Seq<char>,
    rid: String,
    ok: bool,
    error: String,
    payload: Seq<u8>,
    now: u64,
    by_island: bool,
)
    requires
        s.refs.contains_key(rid@),
        s.refs[rid@].state is Pending,
        ok || payload.len() > 0,
    ensures
        agent_said(
            s,
            agent,
            AgentMsg::Result { ref_id: rid, ok, error },
            payload,
            now,
            by_island,
        ).refs[rid@].state == (RefStateV::Ready { ok, payload }),
{
    law_a_result_resolves_its_call(s, rid@, ok, error@, payload);
}

/// A note is kept with the service it is of, on the agent that said it; an agent without
/// that service changes nothing.
pub proof fn law_a_note_is_kept_with_its_service(
    s: StateV,
    agent: Seq<char>,
    service: String,
    note: String,
    payload: Seq<u8>,
    now: u64,
    by_island: bool,
)
    ensures
        ({
            let t = agent_said(s, agent, AgentMsg::Note { service, note }, payload, now, by_island);
            let offers = s.agents.contains_key(agent) && s.agents[agent].services.contains_key(
                service@,
            );
            &&& !offers ==> t == s
            &&& offers ==> {
                let a = t.agents[agent];
                let b = s.agents[agent];
                &&& a.services[service@].note == note@
                &&& a.services[service@].port == b.services[service@].port
                &&& forall|k: Seq<char>|
                    k != service@ && b.services.contains_key(k) ==> #[trigger] a.services[k]
                        == b.services[k]
                &&& a.alive == b.alive
                &&& forall|k: Seq<char>|
                    k != agent && s.agents.contains_key(k) ==> #[trigger] t.agents[k]
                        == s.agents[k]
            }
            &&& t.actors == s.actors && t.pgs == s.pgs
        }),
{
}

/// A message that nobody knows changes nothing.
pub proof fn law_an_unknown_message_changes_nothing(
    s: StateV,
    from: Seq<char>,
    payload: Seq<u8>,
    now: u64,
    by_island: bool,
)
    ensures
        agent_said(s, from, AgentMsg::Other, payload, now, by_island) == s,
        peer_said(s, from, PeerMsg::Other, now) == s,
{
}

/// An address that is dialled is a host and a port after the last colon; what is no port
/// is none.
pub proof fn law_a_dialled_address_is_host_and_port(host: Seq<char>, port: u16)
    ensures
        dialled_parts(host.push(':') + decimal(port as nat)) == (host, port),
        !host.contains(':') ==> dialled_parts(host) == (host, 0u16),
{
    let d = decimal(port as nat);
    let s = host.push(':') + d;
    law_a_number_reads_back(port as nat);
    assert(s[host.len() as int] == ':');
    assert forall|j: int| host.len() < j < s.len() implies s[j] != ':' by {
        assert(s[j] == d[j - host.len() - 1]);
    }
    lemma_last_at_is(s, ':', host.len() as int);
    assert(s.take(host.len() as int) =~= host);
    assert(s.skip(host.len() as int + 1) =~= d);
    law_a_text_is_cut_at_its_last(host, ':');
}

/// A probe is between two IPv4 addresses, and the first of the two that is none is told.
pub proof fn law_a_probe_is_between_two_addresses(near: Seq<char>, far: Seq<char>)
    ensures
        probe_ends(near, far) is Ok <==> v4_of(near) is Some && v4_of(far) is Some,
        probe_ends(near, far) matches Ok((a, b)) ==> v4_of(near) == Some(a) && v4_of(far) == Some(
            b,
        ),
        v4_of(near) is None ==> probe_ends(near, far) == Err::<(u32, u32), Seq<char>>(
            near + " is not an IPv4 address"@,
        ),
        v4_of(near) is Some && v4_of(far) is None ==> probe_ends(near, far) == Err::<
            (u32, u32),
            Seq<char>,
        >(far + " is not an IPv4 address"@),
{
}

/// An announcement tells who speaks, where to reach it, at which addresses, and when.
pub proof fn law_an_announcement_tells_where_to_reach(
    s: StateV,
    local: LocalV,
    universe: Seq<char>,
    boot: Seq<char>,
    seq: u64,
    now_s: u64,
)
    ensures
        ({
            let v = announcement_of(s, local, universe, boot, seq, now_s);
            &&& v.field("node_id"@) == JsonV::Str(s.node_id)
            &&& v.field("control"@) == JsonV::Str(s.control_addr)
            &&& v.field("http"@) == JsonV::Str(s.node_ip + ":"@ + decimal(s.http_port as nat))
            &&& v.field("universe"@) == JsonV::Str(universe)
            &&& v.field("boot_id"@) == JsonV::Str(boot)
            &&& v.field("seq"@) == JsonV::Uint(seq)
            &&& v.field("t"@) == JsonV::Uint(now_s)
            &&& v.field("proto"@) == JsonV::Str(PROTO@)
            &&& v.field("addrs"@).items().len() == local.addrs.len()
            &&& forall|i: int|
                0 <= i < local.addrs.len() ==> #[trigger] v.field("addrs"@).items()[i]
                    == JsonV::Str(local.addrs[i])
        }),
{
    reveal_strlit("proto");
    reveal_strlit("node_id");
    reveal_strlit("control");
    reveal_strlit("http");
    reveal_strlit("universe");
    reveal_strlit("addrs");
    reveal_strlit("addr_tags");
    reveal_strlit("boot_id");
    reveal_strlit("seq");
    reveal_strlit("t");
    assert("proto"@.len() == 5 && "addrs"@.len() == 5 && "proto"@[0] == 'p' && "addrs"@[0] == 'a');
    assert("node_id"@.len() == 7 && "control"@.len() == 7 && "boot_id"@.len() == 7);
    assert("node_id"@[0] == 'n' && "control"@[0] == 'c' && "boot_id"@[0] == 'b');
    assert("http"@.len() == 4 && "universe"@.len() == 8 && "addr_tags"@.len() == 9 && "seq"@.len()
        == 3 && "t"@.len() == 1);
}

} // verus!
