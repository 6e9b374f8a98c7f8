//! What a daemon's events store is what its snapshot says: a reader that applies
//! them lands where a reader that asks for the snapshot again lands.

use vstd::prelude::*;
use vstd::seq_lib::seq_to_set_is_finite;
use vstd::set_lib::lemma_set_subset_finite;
use vstd::string::*;

use crate::common::dict::{lemma_finite_lists, lemma_those, lists, ordered};
use crate::common::json::JsonV;
use crate::daemon::actors::{died_row, marked};
use crate::daemon::agents::link_gone;
use crate::daemon::calls::{pg_gone, removed_row};
use crate::daemon::moved::{
    actor_sets, all_claims_gone, bereft_agents, claims_gone, clients_gone, emptied_out,
    freed_agents, hands_over, mentioned_groups, moved_actors, moved_away, moved_patch, moved_pgs,
    moved_reason, pg_sets, used_path, used_sets,
};
use crate::daemon::place::{
    agent_change, agent_changes, pg_agent_changes, pg_agents, placed_one, row_gone, row_path,
    row_set,
};
use crate::daemon::sessions::client_patch_of;
use crate::daemon::state::{gpu_indices, AgentV, ClaimV, PatchV, PgState, StateV};
use crate::daemon::status::{
    actor_row_of, actors_of, agent_row_of, agents_of, capped, claim_row_of, claims_of, client_row_of,
    clients_doc, gpus_total, gpus_used, group_row, groups_doc, mentioned, pg_row_of, pgs_of,
    shown, snapshot_of, LocalV,
};
use crate::daemon::sweep::{
    actors_gone, agents_gone, emptied, groups_gone, history_swept, pgs_gone, spent_actors,
    spent_agents, spent_pgs, without,
};
use crate::serve::events::{found, law_a_removed_path_is_gone, law_a_stored_value_is_found, stored};

verus! {

/// The names at the top of a snapshot that come after `groups` and `clients`.
pub proof fn lemma_top_names()
    ensures
        "groups"@ != "counters"@,
        "clients"@ != "counters"@,
        "clients"@ != "groups"@,
{
    reveal_strlit("groups");
    reveal_strlit("clients");
    reveal_strlit("counters");
    assert("groups"@[0] == 'g');
    assert("clients"@[1] == 'l');
    assert("counters"@[0] == 'c' && "counters"@[1] == 'o');
    assert("clients"@[0] == 'c');
}

/// The names of a group's row.
pub proof fn lemma_group_names()
    ensures
        "claims"@ != "agents"@,
        "claims"@ != "actors"@,
        "agents"@ != "actors"@,
        "claims"@ != "placement_groups"@,
        "agents"@ != "placement_groups"@,
        "actors"@ != "placement_groups"@,
        "claims"@ != "gpus_total"@,
        "agents"@ != "gpus_total"@,
        "actors"@ != "gpus_total"@,
        "placement_groups"@ != "gpus_total"@,
        "claims"@ != "gpus_used"@,
        "agents"@ != "gpus_used"@,
        "actors"@ != "gpus_used"@,
        "placement_groups"@ != "gpus_used"@,
        "gpus_total"@ != "gpus_used"@,
{
    reveal_strlit("claims");
    reveal_strlit("agents");
    reveal_strlit("actors");
    reveal_strlit("placement_groups");
    reveal_strlit("gpus_total");
    reveal_strlit("gpus_used");
    assert("claims"@[0] == 'c');
    assert("placement_groups"@[0] == 'p');
    assert("gpus_total"@[0] == 'g');
    assert("gpus_used"@[0] == 'g');
    assert("gpus_total"@[5] == 't' && "gpus_used"@[5] == 'u');
    assert("agents"@[0] == 'a' && "agents"@[1] == 'g');
    assert("actors"@[0] == 'a' && "actors"@[1] == 'c');
}

pub proof fn lemma_found_row(
    s: StateV,
    local: LocalV,
    group: Seq<char>,
    kind: Seq<char>,
    id: Seq<char>,
)
    requires
        mentioned(s, group),
    ensures
        ({
            let doc = snapshot_of(s, None, local);
            let row = group_row(s, group);
            found(doc, row_path(group, kind, id)) == (if row.has(kind) && row.field(kind).has(id) {
                Some(row.field(kind).field(id))
            } else {
                None
            })
        }),
{
    lemma_top_names();
    let doc = snapshot_of(s, None, local);
    let at = row_path(group, kind, id);
    let groups = groups_doc(s, None);
    let row = group_row(s, group);
    assert(doc.has("groups"@) && doc.field("groups"@) == groups);
    assert(groups.has(group) && groups.field(group) == row);
    assert(at.skip(1)[0] == group);
    assert(at.skip(1).skip(1)[0] == kind);
    assert(at.skip(1).skip(1).skip(1)[0] == id);
    assert(at.skip(1).skip(1).skip(1).skip(1) =~= Seq::<Seq<char>>::empty());
    assert(found(doc, at) == found(groups, at.skip(1)));
    assert(found(groups, at.skip(1)) == found(row, at.skip(1).skip(1)));
    if row.has(kind) {
        assert(found(row, at.skip(1).skip(1)) == found(
            row.field(kind),
            at.skip(1).skip(1).skip(1),
        ));
        if row.field(kind).has(id) {
            assert(found(row.field(kind), at.skip(1).skip(1).skip(1)) == found(
                row.field(kind).field(id),
                at.skip(1).skip(1).skip(1).skip(1),
            ));
        }
    }
}

/// The row of an actor stands in the snapshot where its events store it.
pub proof fn law_an_actors_row_is_the_snapshots(s: StateV, local: LocalV, id: Seq<char>)
    requires
        s.actors.contains_key(id),
    ensures
        found(snapshot_of(s, None, local), row_path(s.actors[id].group, "actors"@, id)) == Some(
            actor_row_of(s.actors[id]),
        ),
{
    lemma_group_names();
    assert(mentioned(s, s.actors[id].group));
    lemma_found_row(s, local, s.actors[id].group, "actors"@, id);
}

/// The row of an agent stands in the snapshot where its events store it.
pub proof fn law_an_agents_row_is_the_snapshots(s: StateV, local: LocalV, id: Seq<char>)
    requires
        s.agents.contains_key(id),
    ensures
        found(snapshot_of(s, None, local), row_path(s.agents[id].group, "agents"@, id)) == Some(
            agent_row_of(s, s.agents[id]),
        ),
{
    lemma_group_names();
    assert(mentioned(s, s.agents[id].group));
    lemma_found_row(s, local, s.agents[id].group, "agents"@, id);
}

/// The row of a placement group stands in the snapshot where its events store
/// it, as long as an agent or an actor mentions its group.
pub proof fn law_a_placement_groups_row_is_the_snapshots(s: StateV, local: LocalV, id: Seq<char>)
    requires
        s.pgs.contains_key(id),
        mentioned(s, s.pgs[id].group),
    ensures
        found(
            snapshot_of(s, None, local),
            row_path(s.pgs[id].group, "placement_groups"@, id),
        ) == Some(pg_row_of(s.pgs[id])),
{
    lemma_group_names();
    lemma_found_row(s, local, s.pgs[id].group, "placement_groups"@, id);
}

/// The row of a claim stands in the snapshot where its events store it, as long
/// as an agent or an actor mentions its group; and one that was released stands
/// there no more.
pub proof fn law_a_claims_row_is_the_snapshots(
    s: StateV,
    local: LocalV,
    group: Seq<char>,
    name: Seq<char>,
)
    requires
        mentioned(s, group),
    ensures
        found(snapshot_of(s, None, local), row_path(group, "claims"@, name)) == (if claims_of(
            s,
            group,
        ).contains_key(name) {
            Some(claim_row_of(claims_of(s, group)[name]))
        } else {
            None
        }),
{
    lemma_group_names();
    lemma_found_row(s, local, group, "claims"@, name);
}

/// The row of a client stands in the snapshot where its events store it, and is
/// gone from there once the client is.
pub proof fn law_a_clients_row_is_the_snapshots(s: StateV, local: LocalV, id: Seq<char>)
    ensures
        found(snapshot_of(s, None, local), client_patch_of(id, None).at) == (
        if s.clients.contains_key(id) {
            Some(client_row_of(s.clients[id]))
        } else {
            None
        }),
{
    lemma_top_names();
    let doc = snapshot_of(s, None, local);
    let at = client_patch_of(id, None).at;
    let clients = clients_doc(s, None);
    assert(doc.has("clients"@) && doc.field("clients"@) == clients);
    assert(at.skip(1)[0] == id);
    assert(at.skip(1).skip(1) =~= Seq::<Seq<char>>::empty());
    assert(found(doc, at) == found(clients, at.skip(1)));
    if s.clients.contains_key(id) {
        assert(found(clients, at.skip(1)) == found(clients.field(id), at.skip(1).skip(1)));
    }
}

// ---------------------------------------------------------------------------
// Events
// ---------------------------------------------------------------------------
/// Whether a document says of a path what a patch says of it.
pub open spec fn agrees(doc: JsonV, p: PatchV) -> bool {
    found(doc, p.at) == p.value
}

/// Whether a document says what every one of some patches says.
pub open spec fn all_agree(doc: JsonV, ps: Seq<PatchV>) -> bool {
    forall|i: int| 0 <= i < ps.len() ==> agrees(doc, #[trigger] ps[i])
}

/// Whether the last event of a state says what the state's snapshot says.
pub open spec fn tells_the_truth(s: StateV, local: LocalV) -> bool {
    all_agree(snapshot_of(s, None, local), s.events.last().patch)
}

proof fn lemma_both_agree(doc: JsonV, a: Seq<PatchV>, b: Seq<PatchV>)
    requires
        all_agree(doc, a),
        all_agree(doc, b),
    ensures
        all_agree(doc, a + b),
{
    assert forall|i: int| 0 <= i < (a + b).len() implies agrees(doc, #[trigger] (a + b)[i]) by {
        if i < a.len() {
            assert((a + b)[i] == a[i]);
        } else {
            assert((a + b)[i] == b[i - a.len()]);
        }
    }
}

proof fn lemma_same_unheld(s: StateV, t: StateV, agent: Seq<char>, gpus: Seq<u32>)
    requires
        s.pgs == t.pgs,
        s.actors == t.actors,
    ensures
        s.unheld(agent, gpus) == t.unheld(agent, gpus),
    decreases gpus.len(),
{
    if gpus.len() > 0 {
        lemma_same_unheld(s, t, agent, gpus.drop_last());
        assert(s.held(agent, gpus.last()) == t.held(agent, gpus.last()));
    }
}

proof fn lemma_same_free(s: StateV, t: StateV, agent: Seq<char>)
    requires
        s.pgs == t.pgs,
        s.actors == t.actors,
        s.agents == t.agents,
    ensures
        s.free_gpus(agent) == t.free_gpus(agent),
{
    if s.agents.contains_key(agent) {
        lemma_same_unheld(s, t, agent, gpu_indices(s.agents[agent].machine));
    }
}

proof fn lemma_same_used(s: StateV, t: StateV, g: Seq<char>, keys: Seq<Seq<char>>)
    requires
        s.pgs == t.pgs,
        s.actors == t.actors,
        s.agents == t.agents,
    ensures
        gpus_used(s, g, keys) == gpus_used(t, g, keys),
        gpus_total(s, g, keys) == gpus_total(t, g, keys),
    decreases keys.len(),
{
    if keys.len() > 0 {
        lemma_same_used(s, t, g, keys.drop_last());
        lemma_same_free(s, t, keys.last());
    }
}

/// Telling of something changes no snapshot.
proof fn lemma_quiet(
    s: StateV,
    kind: Seq<char>,
    patch: Seq<PatchV>,
    detail: Seq<char>,
    local: LocalV,
)
    ensures
        snapshot_of(s.emit(kind, patch, detail), None, local) == snapshot_of(s, None, local),
{
    let t = s.emit(kind, patch, detail);
    let a = groups_doc(s, None)->Obj_0;
    let b = groups_doc(t, None)->Obj_0;
    assert forall|g: Seq<char>| shown(s, None, g) == #[trigger] shown(t, None, g) by {}
    assert forall|g: Seq<char>| #[trigger] group_row(s, g) == group_row(t, g) by {
        lemma_same_used(s, t, g, ordered(s.agents.dom()));
        assert forall|k: Seq<char>| #[trigger] s.agents.contains_key(k) implies agent_row_of(
            s,
            s.agents[k],
        ) == agent_row_of(t, t.agents[k]) by {
            lemma_same_free(s, t, s.agents[k].id);
        }
        assert(agents_of(s, g)->Obj_0 =~= agents_of(t, g)->Obj_0);
        assert(actors_of(s, g)->Obj_0 =~= actors_of(t, g)->Obj_0);
        assert(pgs_of(s, g)->Obj_0 =~= pgs_of(t, g)->Obj_0);
    }
    assert(a =~= b);
    assert(clients_doc(s, None)->Obj_0 =~= clients_doc(t, None)->Obj_0);
}

proof fn lemma_agent_agrees(t: StateV, local: LocalV, id: Seq<char>)
    ensures
        all_agree(snapshot_of(t, None, local), agent_change(t, id)),
{
    if t.agents.contains_key(id) {
        law_an_agents_row_is_the_snapshots(t, local, id);
    }
}

proof fn lemma_agents_agree(t: StateV, local: LocalV, ids: Seq<Seq<char>>)
    ensures
        all_agree(snapshot_of(t, None, local), agent_changes(t, ids)),
    decreases ids.len(),
{
    if ids.len() > 0 {
        lemma_agents_agree(t, local, ids.drop_last());
        lemma_agent_agrees(t, local, ids.last());
        lemma_both_agree(
            snapshot_of(t, None, local),
            agent_changes(t, ids.drop_last()),
            agent_change(t, ids.last()),
        );
    }
}

/// The event of an actor's death says what the snapshot after it says.
pub proof fn law_the_event_of_a_death_is_true(
    s: StateV,
    local: LocalV,
    id: Seq<char>,
    reason: Seq<char>,
    now: u64,
)
    requires
        s.actors.contains_key(id),
    ensures
        tells_the_truth(marked(s, id, reason, now), local),
{
    let a = died_row(s.actors[id], reason, now);
    let t = StateV { actors: s.actors.insert(id, a), ..s };
    let doc = snapshot_of(t, None, local);
    let mine = seq![row_set(a.group, "actors"@, id, actor_row_of(a))];
    law_an_actors_row_is_the_snapshots(t, local, id);
    assert(all_agree(doc, mine));
    lemma_agent_agrees(t, local, a.agent);
    lemma_both_agree(doc, mine, agent_change(t, a.agent));
    lemma_quiet(t, "actor_dead"@, mine + agent_change(t, a.agent), reason, local);
}

/// The event of a placement says what the snapshot after it says, for a group
/// that an agent or an actor mentions.
pub proof fn law_the_event_of_a_placement_is_true(
    s: StateV,
    local: LocalV,
    id: Seq<char>,
    by_island: bool,
)
    requires
        s.pgs.contains_key(id),
        mentioned(s, s.pgs[id].group),
        placed_one(s, id, by_island) != s,
    ensures
        tells_the_truth(placed_one(s, id, by_island), local),
{
    let u = placed_one(s, id, by_island);
    let q = u.pgs[id];
    let t = StateV { pgs: s.pgs.insert(id, q), ..s };
    let doc = snapshot_of(t, None, local);
    let mine = seq![row_set(q.group, "placement_groups"@, id, pg_row_of(q))];
    let patch = u.events.last().patch;
    assert(mentioned(t, q.group));
    law_a_placement_groups_row_is_the_snapshots(t, local, id);
    assert(all_agree(doc, mine));
    lemma_agents_agree(t, local, ordered(pg_agents(q)));
    lemma_both_agree(doc, mine, pg_agent_changes(t, id));
    assert(all_agree(doc, patch));
    lemma_quiet(t, u.events.last().kind, patch, u.events.last().detail, local);
}

/// The event of a removal says what the snapshot after it says, for a group that
/// an agent or an actor mentions.
pub proof fn law_the_event_of_a_removal_is_true(
    s: StateV,
    local: LocalV,
    id: Seq<char>,
    now: u64,
    detail: Seq<char>,
)
    requires
        s.pgs.contains_key(id),
        mentioned(s, s.pgs[id].group),
    ensures
        tells_the_truth(pg_gone(s, id, now, detail), local),
{
    let p = removed_row(s.pgs[id], now);
    let t = StateV { pgs: s.pgs.insert(id, p), ..s };
    let doc = snapshot_of(t, None, local);
    let mine = seq![row_set(p.group, "placement_groups"@, id, pg_row_of(p))];
    assert(mentioned(t, p.group));
    law_a_placement_groups_row_is_the_snapshots(t, local, id);
    assert(all_agree(doc, mine));
    lemma_agents_agree(t, local, ordered(pg_agents(p)));
    lemma_both_agree(doc, mine, pg_agent_changes(t, id));
    lemma_quiet(t, "pg_removed"@, mine + pg_agent_changes(t, id), detail, local);
}

/// The event of a lost agent says what the snapshot after it says.
pub proof fn law_the_event_of_a_lost_agent_is_true(
    s: StateV,
    local: LocalV,
    agent: Seq<char>,
    now: u64,
    dead_after_ms: u64,
)
    requires
        s.agents.contains_key(agent),
    ensures
        tells_the_truth(link_gone(s, agent, s.agents[agent].link, now, dead_after_ms), local),
{
    let a = AgentV {
        alive: false,
        lost_at_ms: Some(now),
        gone_since_ms: Some(now),
        degraded: false,
        ..s.agents[agent]
    };
    let t = StateV { agents: s.agents.insert(agent, a), ..s };
    let u = link_gone(s, agent, s.agents[agent].link, now, dead_after_ms);
    lemma_agent_agrees(t, local, agent);
    lemma_quiet(t, "agent_lost"@, agent_change(t, agent), u.events.last().detail, local);
}

proof fn lemma_claim_gone(t: StateV, local: LocalV, group: Seq<char>, name: Seq<char>)
    requires
        !claims_of(t, group).contains_key(name),
    ensures
        agrees(snapshot_of(t, None, local), row_gone(group, "claims"@, name)),
{
    if mentioned(t, group) {
        law_a_claims_row_is_the_snapshots(t, local, group, name);
    } else {
        lemma_top_names();
        let doc = snapshot_of(t, None, local);
        let at = row_path(group, "claims"@, name);
        let groups = groups_doc(t, None);
        assert(doc.has("groups"@) && doc.field("groups"@) == groups);
        assert(at.skip(1)[0] == group);
        assert(found(doc, at) == found(groups, at.skip(1)));
        assert(!groups.has(group));
    }
}

proof fn lemma_claims_gone(
    t: StateV,
    local: LocalV,
    claims: Map<Seq<char>, Map<Seq<char>, ClaimV>>,
    groups: Seq<Seq<char>>,
)
    requires
        t.claims == Map::<Seq<char>, Map<Seq<char>, ClaimV>>::empty(),
    ensures
        all_agree(snapshot_of(t, None, local), all_claims_gone(claims, groups)),
    decreases groups.len(),
{
    if groups.len() > 0 {
        lemma_claims_gone(t, local, claims, groups.drop_last());
        let g = groups.last();
        let names = ordered(claims[g].dom());
        let mine = claims_gone(g, names);
        assert forall|i: int| 0 <= i < mine.len() implies agrees(
            snapshot_of(t, None, local),
            #[trigger] mine[i],
        ) by {
            lemma_claim_gone(t, local, g, names[i]);
        }
        lemma_both_agree(
            snapshot_of(t, None, local),
            all_claims_gone(claims, groups.drop_last()),
            mine,
        );
    }
}

proof fn lemma_freed_agree(t: StateV, local: LocalV, pgs: Seq<Seq<char>>)
    ensures
        all_agree(snapshot_of(t, None, local), freed_agents(t, pgs)),
    decreases pgs.len(),
{
    if pgs.len() > 0 {
        lemma_freed_agree(t, local, pgs.drop_last());
        if t.pgs.contains_key(pgs.last()) {
            lemma_agents_agree(t, local, ordered(pg_agents(t.pgs[pgs.last()])));
        }
        lemma_both_agree(
            snapshot_of(t, None, local),
            freed_agents(t, pgs.drop_last()),
            pg_agent_changes(t, pgs.last()),
        );
    }
}

proof fn lemma_bereft_agree(t: StateV, local: LocalV, actors: Seq<Seq<char>>)
    ensures
        all_agree(snapshot_of(t, None, local), bereft_agents(t, actors)),
    decreases actors.len(),
{
    if actors.len() > 0 {
        lemma_bereft_agree(t, local, actors.drop_last());
        lemma_agent_agrees(t, local, t.actors[actors.last()].agent);
        lemma_both_agree(
            snapshot_of(t, None, local),
            bereft_agents(t, actors.drop_last()),
            agent_change(t, t.actors[actors.last()].agent),
        );
    }
}

/// What a snapshot says of the GPUs of a group that are held.
pub proof fn lemma_found_used(s: StateV, local: LocalV, g: Seq<char>)
    ensures
        found(snapshot_of(s, None, local), used_path(g)) == (if mentioned(s, g) {
            Some(JsonV::Uint(capped(gpus_used(s, g, ordered(s.agents.dom())))))
        } else {
            None
        }),
{
    lemma_top_names();
    lemma_group_names();
    let doc = snapshot_of(s, None, local);
    let at = used_path(g);
    let groups = groups_doc(s, None);
    assert(doc.has("groups"@) && doc.field("groups"@) == groups);
    assert(at.skip(1)[0] == g);
    assert(at.skip(1).skip(1)[0] == "gpus_used"@);
    assert(at.skip(1).skip(1).skip(1) =~= Seq::<Seq<char>>::empty());
    assert(found(doc, at) == found(groups, at.skip(1)));
    if mentioned(s, g) {
        let row = group_row(s, g);
        assert(groups.has(g) && groups.field(g) == row);
        assert(found(groups, at.skip(1)) == found(row, at.skip(1).skip(1)));
        assert(row.has("gpus_used"@));
        assert(found(row, at.skip(1).skip(1)) == found(
            row.field("gpus_used"@),
            at.skip(1).skip(1).skip(1),
        ));
    }
}

/// The groups that are mentioned are as many as agents and actors at most.
pub proof fn lemma_mentioned_finite(s: StateV)
    requires
        s.agents.dom().finite(),
        s.actors.dom().finite(),
    ensures
        mentioned_groups(s).finite(),
        lists(ordered(mentioned_groups(s)), mentioned_groups(s)),
{
    let a = s.agents.dom().map(|k: Seq<char>| s.agents[k].group);
    let b = s.actors.dom().map(|k: Seq<char>| s.actors[k].group);
    s.agents.dom().lemma_map_finite(|k: Seq<char>| s.agents[k].group);
    s.actors.dom().lemma_map_finite(|k: Seq<char>| s.actors[k].group);
    assert forall|g: Seq<char>| #[trigger] mentioned_groups(s).contains(g) implies a.union(
        b,
    ).contains(g) by {
        if exists|k: Seq<char>| #[trigger] s.agents.contains_key(k) && s.agents[k].group == g {
            let k = choose|k: Seq<char>| #[trigger]
                s.agents.contains_key(k) && s.agents[k].group == g;
            assert(s.agents.dom().contains(k));
            assert(a.contains(g));
        } else {
            let k = choose|k: Seq<char>| #[trigger]
                s.actors.contains_key(k) && s.actors[k].group == g;
            assert(s.actors.dom().contains(k));
            assert(b.contains(g));
        }
    }
    lemma_set_subset_finite(a.union(b), mentioned_groups(s));
    lemma_finite_lists(mentioned_groups(s));
}

/// A head that moves away changes no group's name.
pub proof fn lemma_still_mentioned(s: StateV, now: u64, g: Seq<char>)
    ensures
        mentioned(emptied_out(s, now), g) == mentioned(s, g),
{
    let t = emptied_out(s, now);
    if exists|k: Seq<char>| #[trigger] s.actors.contains_key(k) && s.actors[k].group == g {
        let k = choose|k: Seq<char>| #[trigger]
            s.actors.contains_key(k) && s.actors[k].group == g;
        assert(t.actors.contains_key(k) && t.actors[k].group == g);
    }
    if exists|k: Seq<char>| #[trigger] t.actors.contains_key(k) && t.actors[k].group == g {
        let k = choose|k: Seq<char>| #[trigger]
            t.actors.contains_key(k) && t.actors[k].group == g;
        assert(s.actors.contains_key(k) && s.actors[k].group == g);
    }
}

/// Whether a path is that of a placement group's row that no snapshot shows: one of
/// a group that no agent or actor mentions.
pub open spec fn out_of_sight(s: StateV, at: Seq<Seq<char>>) -> bool {
    &&& at.len() == 4
    &&& at[0] == "groups"@
    &&& at[2] == "placement_groups"@
    &&& s.pgs.contains_key(at[3])
    &&& s.pgs[at[3]].group == at[1]
    &&& s.pgs[at[3]].state != PgState::Removed
    &&& !mentioned(s, at[1])
}

/// Whether a document says what every one of some patches says, of the paths that
/// are not out of sight.
pub open spec fn agree_in_sight(s: StateV, doc: JsonV, ps: Seq<PatchV>) -> bool {
    forall|i: int|
        0 <= i < ps.len() ==> agrees(doc, #[trigger] ps[i]) || out_of_sight(s, ps[i].at)
}

proof fn lemma_both_agree_in_sight(s: StateV, doc: JsonV, a: Seq<PatchV>, b: Seq<PatchV>)
    requires
        agree_in_sight(s, doc, a),
        agree_in_sight(s, doc, b),
    ensures
        agree_in_sight(s, doc, a + b),
{
    assert forall|i: int| 0 <= i < (a + b).len() implies agrees(doc, #[trigger] (a + b)[i])
        || out_of_sight(s, (a + b)[i].at) by {
        if i < a.len() {
            assert((a + b)[i] == a[i]);
        } else {
            assert((a + b)[i] == b[i - a.len()]);
        }
    }
}

/// The one event of a head that moved away says what the snapshot after it says,
/// of every path it names but those of placement groups that no snapshot shows.
/// Where there are none of those, all of it is so.
pub proof fn law_the_event_of_a_moved_head_is_true(s: StateV, local: LocalV, now: u64)
    requires
        hands_over(s),
        s.agents.dom().finite(),
        s.actors.dom().finite(),
        s.pgs.dom().finite(),
    ensures
        agree_in_sight(
            s,
            snapshot_of(moved_away(s, now), None, local),
            moved_away(s, now).events.last().patch,
        ),
        (forall|k: Seq<char>|
            s.pgs.contains_key(k) ==> mentioned(s, (#[trigger] s.pgs[k]).group))
            ==> tells_the_truth(moved_away(s, now), local),
        moved_away(s, now).events.last().patch == moved_patch(s, emptied_out(s, now)),
        snapshot_of(moved_away(s, now), None, local) == snapshot_of(
            emptied_out(s, now),
            None,
            local,
        ),
{
    let t = emptied_out(s, now);
    let doc = snapshot_of(t, None, local);
    let a = clients_gone(ordered(s.clients.dom()));
    assert forall|i: int| 0 <= i < a.len() implies agrees(doc, #[trigger] a[i]) by {
        law_a_clients_row_is_the_snapshots(t, local, ordered(s.clients.dom())[i]);
    }
    let b = all_claims_gone(s.claims, ordered(s.claims.dom()));
    lemma_claims_gone(t, local, s.claims, ordered(s.claims.dom()));
    let c = freed_agents(t, moved_pgs(s));
    lemma_freed_agree(t, local, moved_pgs(s));
    let c2 = bereft_agents(t, moved_actors(s));
    lemma_bereft_agree(t, local, moved_actors(s));
    let d = actor_sets(t, moved_actors(s));
    lemma_finite_lists(s.actors.dom());
    lemma_those(ordered(s.actors.dom()), |k: Seq<char>| !(s.actors[k].state is Dead));
    assert forall|i: int| 0 <= i < d.len() implies agrees(doc, #[trigger] d[i]) by {
        let id = moved_actors(s)[i];
        assert(moved_actors(s).contains(id));
        assert(s.actors.dom().contains(id));
        assert(t.actors.contains_key(id));
        law_an_actors_row_is_the_snapshots(t, local, id);
    }
    let e = pg_sets(t, moved_pgs(s));
    lemma_finite_lists(s.pgs.dom());
    lemma_those(ordered(s.pgs.dom()), |k: Seq<char>| s.pgs[k].state != PgState::Removed);
    assert forall|i: int| 0 <= i < e.len() implies agrees(doc, #[trigger] e[i]) || out_of_sight(
        s,
        e[i].at,
    ) by {
        let id = moved_pgs(s)[i];
        assert(moved_pgs(s).contains(id));
        assert(s.pgs.dom().contains(id));
        assert(t.pgs.contains_key(id));
        lemma_still_mentioned(s, now, s.pgs[id].group);
        if mentioned(s, s.pgs[id].group) {
            law_a_placement_groups_row_is_the_snapshots(t, local, id);
        }
    }
    let names = ordered(mentioned_groups(t));
    let f = used_sets(t, names);
    assert(t.actors.dom() =~= s.actors.dom());
    lemma_mentioned_finite(t);
    assert forall|i: int| 0 <= i < f.len() implies agrees(doc, #[trigger] f[i]) by {
        assert(names.contains(names[i]));
        assert(mentioned_groups(t).contains(names[i]));
        lemma_found_used(t, local, names[i]);
    }
    lemma_both_agree_in_sight(s, doc, a, b);
    lemma_both_agree_in_sight(s, doc, a + b, c);
    lemma_both_agree_in_sight(s, doc, a + b + c, c2);
    lemma_both_agree_in_sight(s, doc, a + b + c + c2, d);
    lemma_both_agree_in_sight(s, doc, a + b + c + c2 + d, e);
    lemma_both_agree_in_sight(s, doc, a + b + c + c2 + d + e, f);
    lemma_quiet(t, "head_moved"@, moved_patch(s, t), moved_reason(s), local);
}

proof fn lemma_row_gone(
    t: StateV,
    local: LocalV,
    group: Seq<char>,
    kind: Seq<char>,
    id: Seq<char>,
)
    requires
        mentioned(t, group) ==> !(group_row(t, group).has(kind) && group_row(t, group).field(
            kind,
        ).has(id)),
    ensures
        agrees(snapshot_of(t, None, local), row_gone(group, kind, id)),
{
    if mentioned(t, group) {
        lemma_found_row(t, local, group, kind, id);
    } else {
        lemma_top_names();
        let doc = snapshot_of(t, None, local);
        let at = row_path(group, kind, id);
        let groups = groups_doc(t, None);
        assert(doc.has("groups"@) && doc.field("groups"@) == groups);
        assert(at.skip(1)[0] == group);
        assert(found(doc, at) == found(groups, at.skip(1)));
        assert(!groups.has(group));
    }
}

proof fn lemma_group_gone(t: StateV, local: LocalV, group: Seq<char>)
    requires
        !mentioned(t, group),
    ensures
        agrees(
            snapshot_of(t, None, local),
            (PatchV { at: seq!["groups"@, group], value: None }),
        ),
{
    lemma_top_names();
    let doc = snapshot_of(t, None, local);
    let at = seq!["groups"@, group];
    let groups = groups_doc(t, None);
    assert(doc.has("groups"@) && doc.field("groups"@) == groups);
    assert(at.skip(1)[0] == group);
    assert(found(doc, at) == found(groups, at.skip(1)));
    assert(!groups.has(group));
}

/// The event of a sweep of old rows says what the snapshot after it says: every
/// row it takes out is gone, and every group that nothing mentions any more.
pub proof fn law_the_event_of_a_sweep_is_true(s: StateV, local: LocalV, now: u64, keep: u64)
    requires
        history_swept(s, now, keep) != s,
    ensures
        tells_the_truth(history_swept(s, now, keep), local),
{
    let actors = spent_actors(s, now, keep);
    let pgs = spent_pgs(s, now, keep);
    let agents = spent_agents(s, now, keep);
    let t = without(s, actors, pgs, agents);
    let doc = snapshot_of(t, None, local);
    lemma_group_names();
    let a = actors_gone(s, actors);
    assert forall|i: int| 0 <= i < a.len() implies agrees(doc, #[trigger] a[i]) by {
        assert(actors.contains(actors[i]));
        assert(!t.actors.contains_key(actors[i]));
        lemma_row_gone(t, local, s.actors[actors[i]].group, "actors"@, actors[i]);
    }
    let b = pgs_gone(s, pgs);
    assert forall|i: int| 0 <= i < b.len() implies agrees(doc, #[trigger] b[i]) by {
        assert(pgs.contains(pgs[i]));
        assert(!t.pgs.contains_key(pgs[i]));
        lemma_row_gone(t, local, s.pgs[pgs[i]].group, "placement_groups"@, pgs[i]);
    }
    let c = agents_gone(s, agents);
    assert forall|i: int| 0 <= i < c.len() implies agrees(doc, #[trigger] c[i]) by {
        assert(agents.contains(agents[i]));
        assert(!t.agents.contains_key(agents[i]));
        lemma_row_gone(t, local, s.agents[agents[i]].group, "agents"@, agents[i]);
    }
    let gone = emptied(s, t, actors, agents);
    let names = ordered(gone);
    let d = groups_gone(names);
    let of_actors = actors.map_values(|k: Seq<char>| s.actors[k].group);
    let of_agents = agents.map_values(|k: Seq<char>| s.agents[k].group);
    seq_to_set_is_finite(of_actors);
    seq_to_set_is_finite(of_agents);
    let every = of_actors.to_set().union(of_agents.to_set());
    assert forall|g: Seq<char>| #[trigger] gone.contains(g) implies every.contains(g) by {
        if exists|i: int| 0 <= i < actors.len() && s.actors[#[trigger] actors[i]].group == g {
            let i = choose|i: int|
                0 <= i < actors.len() && s.actors[#[trigger] actors[i]].group == g;
            assert(of_actors[i] == g);
        } else {
            let i = choose|i: int|
                0 <= i < agents.len() && s.agents[#[trigger] agents[i]].group == g;
            assert(of_agents[i] == g);
        }
    }
    lemma_set_subset_finite(every, gone);
    lemma_finite_lists(gone);
    assert forall|i: int| 0 <= i < d.len() implies agrees(doc, #[trigger] d[i]) by {
        assert(names.contains(names[i]));
        assert(gone.contains(names[i]));
        lemma_group_gone(t, local, names[i]);
    }
    lemma_both_agree(doc, a, b);
    lemma_both_agree(doc, a + b, c);
    lemma_both_agree(doc, a + b + c, d);
    let u = history_swept(s, now, keep);
    lemma_quiet(t, "history_swept"@, a + b + c + d, u.events.last().detail, local);
}

/// What an event stores, in whatever document a reader holds, is what the
/// snapshot says, for every path the event names once.
pub proof fn law_a_true_event_lands_where_the_snapshot_lands(
    doc: JsonV,
    s: StateV,
    local: LocalV,
    p: PatchV,
)
    requires
        agrees(snapshot_of(s, None, local), p),
        stored(doc, p.at, p.value) is Some,
    ensures
        found(stored(doc, p.at, p.value)->Some_0, p.at) == found(
            snapshot_of(s, None, local),
            p.at,
        ),
{
    match p.value {
        Some(v) => law_a_stored_value_is_found(doc, p.at, v),
        None => law_a_removed_path_is_gone(doc, p.at),
    }
}

} // verus!
