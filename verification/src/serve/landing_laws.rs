//! A reader that applies the one event of a head that moved away lands where a
//! reader that asks for the snapshot again lands, at every row.

use vstd::prelude::*;

use crate::common::dict::{lemma_finite_lists, lemma_those, ordered};
use crate::common::json::JsonV;
use crate::daemon::agent_laws::agents_named;
use crate::daemon::moved::{
    actor_sets, all_claims_gone, bereft_agents, claims_gone, clients_gone, emptied_out,
    freed_agents, hands_over, mentioned_groups, moved_actors, moved_away, moved_patch, moved_pgs,
    pg_sets, used_path, used_sets,
};
use crate::daemon::place::{
    agent_change, agent_changes, pg_agent_changes, pg_agents, row_path, row_set,
};
use crate::daemon::sessions::client_patch_of;
use crate::daemon::state::{
    actor_holds, gpu_indices, pg_holds, reserves, BundleV, ClaimV, PatchV, PgState, PgV, StateV,
};
use crate::daemon::status::{
    agent_row_of, claims_of, clients_doc, group_row, groups_doc, mentioned,
    snapshot_of, LocalV,
};
use crate::serve::events::{
    found, law_a_removed_path_is_gone, law_a_stored_value_is_found, law_other_paths_are_untouched,
    stored,
};
use crate::serve::stream_laws::{
    agrees, law_a_clients_row_is_the_snapshots, law_the_event_of_a_moved_head_is_true,
    lemma_found_row, lemma_found_used, lemma_group_names, lemma_mentioned_finite,
    lemma_still_mentioned, lemma_top_names, out_of_sight,
};

verus! {

// ---------------------------------------------------------------------------
// Applying patches
// ---------------------------------------------------------------------------
/// A document with every one of some patches applied, where every one can be.
pub open spec fn all_stored(doc: JsonV, ps: Seq<PatchV>) -> Option<JsonV>
    decreases ps.len(),
{
    if ps.len() == 0 {
        Some(doc)
    } else {
        match all_stored(doc, ps.drop_last()) {
            Some(d) => stored(d, ps.last().at, ps.last().value),
            None => None,
        }
    }
}

/// Whether a name is that of a table of a group's rows.
pub open spec fn table_name(k: Seq<char>) -> bool {
    k == "claims"@ || k == "agents"@ || k == "actors"@ || k == "placement_groups"@
}

/// Whether a path is that of a row: a client's, one in a group's tables, or the
/// count of a group's GPUs that are held.
pub open spec fn row_at(at: Seq<Seq<char>>) -> bool {
    ||| at.len() == 2 && at[0] == "clients"@
    ||| at.len() == 3 && at[0] == "groups"@ && at[2] == "gpus_used"@
    ||| at.len() == 4 && at[0] == "groups"@ && table_name(at[2])
}

/// Whether a group's tables are objects, as far as there are any.
spec fn group_tabled(g: JsonV) -> bool {
    g is Obj && forall|k: Seq<char>|
        table_name(k) && #[trigger] g.has(k) ==> g.field(k) is Obj
}

/// Whether a document holds its rows in objects, as far as it holds any.
spec fn tabled(doc: JsonV) -> bool {
    &&& doc is Obj
    &&& doc.has("clients"@) ==> doc.field("clients"@) is Obj
    &&& doc.has("groups"@) ==> doc.field("groups"@) is Obj && forall|g: Seq<char>| #[trigger]
        doc.field("groups"@).has(g) ==> group_tabled(doc.field("groups"@).field(g))
}

proof fn lemma_group_stored(g: JsonV, at: Seq<Seq<char>>, value: Option<JsonV>)
    requires
        group_tabled(g),
        (at.len() == 1 && at[0] == "gpus_used"@) || (at.len() == 2 && table_name(at[0])),
    ensures
        stored(g, at, value) is Some,
        group_tabled(stored(g, at, value)->Some_0),
{
    lemma_group_names();
    let m = g->Obj_0;
    let out = stored(g, at, value);
    if at.len() == 2 {
        let child = if m.contains_key(at[0]) {
            m[at[0]]
        } else {
            JsonV::Obj(Map::empty())
        };
        assert(g.has(at[0]) == m.contains_key(at[0]));
        assert(child is Obj);
        assert(at.skip(1).len() == 1);
        assert(stored(child, at.skip(1), value) is Some);
    }
    let r = out->Some_0;
    assert forall|k: Seq<char>| table_name(k) && #[trigger] r.has(k) implies r.field(k) is Obj by {
        if k != at[0] {
            assert(g.has(k));
            assert(r.field(k) == g.field(k));
        }
    }
}

proof fn lemma_stored_tabled(doc: JsonV, at: Seq<Seq<char>>, value: Option<JsonV>)
    requires
        tabled(doc),
        row_at(at),
    ensures
        stored(doc, at, value) is Some,
        tabled(stored(doc, at, value)->Some_0),
{
    lemma_top_names();
    let m = doc->Obj_0;
    let child = if m.contains_key(at[0]) {
        m[at[0]]
    } else {
        JsonV::Obj(Map::empty())
    };
    assert(doc.has(at[0]) == m.contains_key(at[0]));
    assert(child is Obj);
    let rest = at.skip(1);
    assert(rest[0] == at[1]);
    if at[0] == "groups"@ {
        let n = child->Obj_0;
        let g = if n.contains_key(rest[0]) {
            n[rest[0]]
        } else {
            JsonV::Obj(Map::empty())
        };
        assert(child.has(rest[0]) == n.contains_key(rest[0]));
        assert(group_tabled(g)) by {
            if n.contains_key(rest[0]) {
                assert(doc.field("groups"@).has(rest[0]));
            }
        }
        let deep = rest.skip(1);
        assert(deep[0] == at[2]);
        lemma_group_stored(g, deep, value);
        let c = stored(child, rest, value);
        assert(c is Some);
        let r = stored(doc, at, value)->Some_0;
        assert(r.field("groups"@) == c->Some_0);
        assert forall|x: Seq<char>| #[trigger] r.field("groups"@).has(x) implies group_tabled(
            r.field("groups"@).field(x),
        ) by {
            if x != rest[0] {
                assert(child.has(x));
                assert(doc.field("groups"@).has(x));
            }
        }
        if doc.has("clients"@) {
            assert(r.field("clients"@) == doc.field("clients"@));
        }
    } else {
        assert(rest.len() == 1);
        assert(stored(child, rest, value) is Some);
        let r = stored(doc, at, value)->Some_0;
        if doc.has("groups"@) {
            assert(r.field("groups"@) == doc.field("groups"@));
        }
    }
}

/// Two rows that are not the same stand apart: neither path leads through the
/// other.
proof fn lemma_rows_apart(a: Seq<Seq<char>>, b: Seq<Seq<char>>) -> (i: int)
    requires
        row_at(a),
        row_at(b),
        a != b,
    ensures
        0 <= i < a.len(),
        i < b.len(),
        a[i] != b[i],
{
    lemma_top_names();
    lemma_group_names();
    if a[0] != b[0] {
        0
    } else if a[1] != b[1] {
        1
    } else if a.len() == 2 {
        assert(a =~= b);
        0
    } else if a[2] != b[2] {
        2
    } else if a.len() == 3 {
        assert(a =~= b);
        0
    } else {
        if a[3] == b[3] {
            assert(a =~= b);
        }
        3
    }
}

/// Whether a patch is for a path.
pub open spec fn named(ps: Seq<PatchV>, at: Seq<Seq<char>>) -> bool {
    exists|i: int| 0 <= i < ps.len() && (#[trigger] ps[i]).at == at
}

/// What stands at a row after some patches: what the patches say, where one of them
/// names it, and else what stood there before.
proof fn lemma_all_stored(doc: JsonV, ps: Seq<PatchV>, then: JsonV, at: Seq<Seq<char>>)
    requires
        tabled(doc),
        row_at(at),
        forall|i: int|
            0 <= i < ps.len() ==> row_at((#[trigger] ps[i]).at) && (ps[i].at == at ==> agrees(
                then,
                ps[i],
            )),
    ensures
        all_stored(doc, ps) is Some,
        tabled(all_stored(doc, ps)->Some_0),
        found(all_stored(doc, ps)->Some_0, at) == (if named(ps, at) {
            found(then, at)
        } else {
            found(doc, at)
        }),
    decreases ps.len(),
{
    if ps.len() > 0 {
        let init = ps.drop_last();
        let p = ps.last();
        assert(p == ps[ps.len() - 1]);
        assert forall|i: int| 0 <= i < init.len() implies row_at((#[trigger] init[i]).at) && (
        init[i].at == at ==> agrees(then, init[i])) by {
            assert(init[i] == ps[i]);
        }
        lemma_all_stored(doc, init, then, at);
        let d = all_stored(doc, init)->Some_0;
        lemma_stored_tabled(d, p.at, p.value);
        if p.at == at {
            match p.value {
                Some(v) => law_a_stored_value_is_found(d, p.at, v),
                None => law_a_removed_path_is_gone(d, p.at),
            }
            assert(named(ps, at));
        } else {
            let i = lemma_rows_apart(p.at, at);
            law_other_paths_are_untouched(d, p.at, p.value, at, i);
            if named(ps, at) {
                let j = choose|j: int| 0 <= j < ps.len() && (#[trigger] ps[j]).at == at;
                assert(init[j].at == at);
            }
            if named(init, at) {
                let j = choose|j: int| 0 <= j < init.len() && (#[trigger] init[j]).at == at;
                assert(ps[j].at == at);
            }
        }
    }
}

proof fn lemma_snapshot_tabled(s: StateV, local: LocalV)
    ensures
        tabled(snapshot_of(s, None, local)),
{
    lemma_top_names();
    lemma_group_names();
    let doc = snapshot_of(s, None, local);
    let groups = groups_doc(s, None);
    assert(doc.field("groups"@) == groups);
    assert(doc.field("clients"@) == clients_doc(s, None));
    assert forall|g: Seq<char>| #[trigger] groups.has(g) implies group_tabled(groups.field(g)) by {
        assert(groups.field(g) == group_row(s, g));
    }
}

// ---------------------------------------------------------------------------
// What the event names
// ---------------------------------------------------------------------------
proof fn lemma_named_left(a: Seq<PatchV>, b: Seq<PatchV>, at: Seq<Seq<char>>)
    requires
        named(a, at) || named(b, at),
    ensures
        named(a + b, at),
{
    if named(a, at) {
        let i = choose|i: int| 0 <= i < a.len() && (#[trigger] a[i]).at == at;
        assert((a + b)[i].at == at);
    } else {
        let i = choose|i: int| 0 <= i < b.len() && (#[trigger] b[i]).at == at;
        assert((a + b)[a.len() + i].at == at);
    }
}

spec fn all_rows(ps: Seq<PatchV>) -> bool {
    forall|i: int| 0 <= i < ps.len() ==> row_at((#[trigger] ps[i]).at)
}

proof fn lemma_rows_join(a: Seq<PatchV>, b: Seq<PatchV>)
    requires
        all_rows(a),
        all_rows(b),
    ensures
        all_rows(a + b),
{
    assert forall|i: int| 0 <= i < (a + b).len() implies row_at((#[trigger] (a + b)[i]).at) by {
        if i < a.len() {
            assert((a + b)[i] == a[i]);
        } else {
            assert((a + b)[i] == b[i - a.len()]);
        }
    }
}

proof fn lemma_claims(claims: Map<Seq<char>, Map<Seq<char>, ClaimV>>, groups: Seq<Seq<char>>)
    ensures
        all_rows(all_claims_gone(claims, groups)),
        forall|g: Seq<char>, n: Seq<char>|
            groups.contains(g) && claims[g].dom().finite() && claims[g].contains_key(n)
                ==> named(
                all_claims_gone(claims, groups),
                #[trigger] row_path(g, "claims"@, n),
            ),
    decreases groups.len(),
{
    let all = all_claims_gone(claims, groups);
    if groups.len() > 0 {
        let init = groups.drop_last();
        let had = all_claims_gone(claims, init);
        lemma_claims(claims, init);
        let x = groups.last();
        let names = ordered(claims[x].dom());
        let mine = claims_gone(x, names);
        lemma_rows_join(had, mine);
        assert forall|g: Seq<char>, n: Seq<char>|
            groups.contains(g) && claims[g].dom().finite() && claims[g].contains_key(n) implies named(
            all,
            #[trigger] row_path(g, "claims"@, n),
        ) by {
            let at = row_path(g, "claims"@, n);
            if g == x {
                lemma_finite_lists(claims[x].dom());
                assert(claims[x].dom().contains(n));
                assert(names.contains(n));
                let i = names.index_of(n);
                assert(mine[i].at == at);
                assert(named(mine, at));
            } else {
                let i = groups.index_of(g);
                assert(init[i] == g);
                assert(named(had, at));
            }
            lemma_named_left(had, mine, at);
        }
    }
}

proof fn lemma_agent_changes(t: StateV, ids: Seq<Seq<char>>)
    ensures
        all_rows(agent_changes(t, ids)),
        forall|k: Seq<char>|
            #![trigger t.agents.contains_key(k)]
            ids.contains(k) && t.agents.contains_key(k) ==> named(
                agent_changes(t, ids),
                row_path(t.agents[k].group, "agents"@, k),
            ),
    decreases ids.len(),
{
    if ids.len() > 0 {
        let init = ids.drop_last();
        lemma_agent_changes(t, init);
        let a = agent_changes(t, init);
        let b = agent_change(t, ids.last());
        lemma_rows_join(a, b);
        assert forall|k: Seq<char>|
            #![trigger t.agents.contains_key(k)]
            ids.contains(k) && t.agents.contains_key(k) implies named(
            agent_changes(t, ids),
            row_path(t.agents[k].group, "agents"@, k),
        ) by {
            let at = row_path(t.agents[k].group, "agents"@, k);
            if k == ids.last() {
                assert(b[0].at == at);
                assert(named(b, at));
            } else {
                assert(init[ids.index_of(k)] == k);
            }
            lemma_named_left(a, b, at);
        }
    }
}

/// The agents a placement group reserves GPUs on are finitely many.
proof fn lemma_pg_agents(p: PgV)
    ensures
        pg_agents(p).finite(),
{
    let v = p.assignment.map_values(
        |b: Option<BundleV>|
            match b {
                Some(x) => x.agent,
                None => Seq::empty(),
            },
    );
    vstd::seq_lib::seq_to_set_is_finite(v);
    assert forall|a: Seq<char>| #[trigger] pg_agents(p).contains(a) implies v.to_set().contains(a) by {
        let i = choose|i: int|
            0 <= i < p.assignment.len() && (#[trigger] p.assignment[i]) is Some
                && p.assignment[i]->Some_0.agent == a;
        assert(v[i] == a);
    }
    vstd::set_lib::lemma_set_subset_finite(v.to_set(), pg_agents(p));
}

proof fn lemma_freed(t: StateV, pgs: Seq<Seq<char>>)
    ensures
        all_rows(freed_agents(t, pgs)),
        forall|x: Seq<char>, k: Seq<char>|
            #![trigger pgs.contains(x), t.agents.contains_key(k)]
            pgs.contains(x) && t.pgs.contains_key(x) && pg_agents(t.pgs[x]).contains(k)
                && t.agents.contains_key(k) ==> named(
                freed_agents(t, pgs),
                row_path(t.agents[k].group, "agents"@, k),
            ),
    decreases pgs.len(),
{
    if pgs.len() > 0 {
        let init = pgs.drop_last();
        lemma_freed(t, init);
        let y = pgs.last();
        let a = freed_agents(t, init);
        let b = pg_agent_changes(t, y);
        if t.pgs.contains_key(y) {
            lemma_agent_changes(t, ordered(pg_agents(t.pgs[y])));
            lemma_pg_agents(t.pgs[y]);
            lemma_finite_lists(pg_agents(t.pgs[y]));
        }
        lemma_rows_join(a, b);
        assert forall|x: Seq<char>, k: Seq<char>|
            #![trigger pgs.contains(x), t.agents.contains_key(k)]
            pgs.contains(x) && t.pgs.contains_key(x) && pg_agents(t.pgs[x]).contains(k)
                && t.agents.contains_key(k) implies named(
            freed_agents(t, pgs),
            row_path(t.agents[k].group, "agents"@, k),
        ) by {
            let at = row_path(t.agents[k].group, "agents"@, k);
            if x == y {
                assert(ordered(pg_agents(t.pgs[y])).contains(k));
                assert(named(b, at));
            } else {
                assert(init[pgs.index_of(x)] == x);
                assert(init.contains(x));
                assert(named(a, at));
            }
            lemma_named_left(a, b, at);
        }
    }
}

proof fn lemma_bereft(t: StateV, actors: Seq<Seq<char>>)
    ensures
        all_rows(bereft_agents(t, actors)),
        forall|x: Seq<char>|
            #![trigger actors.contains(x)]
            actors.contains(x) && t.agents.contains_key(t.actors[x].agent) ==> named(
                bereft_agents(t, actors),
                row_path(t.agents[t.actors[x].agent].group, "agents"@, t.actors[x].agent),
            ),
    decreases actors.len(),
{
    if actors.len() > 0 {
        let init = actors.drop_last();
        lemma_bereft(t, init);
        let y = actors.last();
        let a = bereft_agents(t, init);
        let b = agent_change(t, t.actors[y].agent);
        lemma_rows_join(a, b);
        assert forall|x: Seq<char>|
            #![trigger actors.contains(x)]
            actors.contains(x) && t.agents.contains_key(t.actors[x].agent) implies named(
            bereft_agents(t, actors),
            row_path(t.agents[t.actors[x].agent].group, "agents"@, t.actors[x].agent),
        ) by {
            let at = row_path(t.agents[t.actors[x].agent].group, "agents"@, t.actors[x].agent);
            if x == y {
                assert(b[0].at == at);
                assert(named(b, at));
            } else {
                assert(init[actors.index_of(x)] == x);
                assert(init.contains(x));
            }
            lemma_named_left(a, b, at);
        }
    }
}

proof fn lemma_six(
    a: Seq<PatchV>,
    b: Seq<PatchV>,
    c: Seq<PatchV>,
    d: Seq<PatchV>,
    e: Seq<PatchV>,
    f: Seq<PatchV>,
    g: Seq<PatchV>,
    at: Seq<Seq<char>>,
)
    requires
        all_rows(a),
        all_rows(b),
        all_rows(c),
        all_rows(d),
        all_rows(e),
        all_rows(f),
        all_rows(g),
    ensures
        all_rows(a + b + c + d + e + f + g),
        named(a, at) || named(b, at) || named(c, at) || named(d, at) || named(e, at) || named(f, at)
            || named(g, at) ==> named(a + b + c + d + e + f + g, at),
{
    lemma_rows_join(a, b);
    lemma_rows_join(a + b, c);
    lemma_rows_join(a + b + c, d);
    lemma_rows_join(a + b + c + d, e);
    lemma_rows_join(a + b + c + d + e, f);
    lemma_rows_join(a + b + c + d + e + f, g);
    if named(a, at) || named(b, at) {
        lemma_named_left(a, b, at);
    }
    if named(a + b, at) || named(c, at) {
        lemma_named_left(a + b, c, at);
    }
    if named(a + b + c, at) || named(d, at) {
        lemma_named_left(a + b + c, d, at);
    }
    if named(a + b + c + d, at) || named(e, at) {
        lemma_named_left(a + b + c + d, e, at);
    }
    if named(a + b + c + d + e, at) || named(f, at) {
        lemma_named_left(a + b + c + d + e, f, at);
    }
    if named(a + b + c + d + e + f, at) || named(g, at) {
        lemma_named_left(a + b + c + d + e + f, g, at);
    }
}

/// Whether a state's tables are finite, and each agent goes by the id in its row.
pub open spec fn in_order(s: StateV) -> bool {
    &&& s.clients.dom().finite()
    &&& s.claims.dom().finite()
    &&& forall|g: Seq<char>| #[trigger] s.claims.contains_key(g) ==> s.claims[g].dom().finite()
    &&& s.agents.dom().finite()
    &&& s.actors.dom().finite()
    &&& s.pgs.dom().finite()
    &&& agents_named(s)
}

/// What the event of a moved head names: every client and claim, each agent that
/// something held GPUs of, each live actor, each placement group that was not
/// removed, and the count of each group.
proof fn lemma_moved_names(s: StateV, now: u64, at: Seq<Seq<char>>)
    requires
        in_order(s),
    ensures
        ({
            let t = emptied_out(s, now);
            let ps = moved_patch(s, t);
            &&& all_rows(ps)
            &&& (exists|k: Seq<char>| #[trigger]
                s.clients.contains_key(k) && at == client_patch_of(k, None).at) ==> named(ps, at)
            &&& (exists|g: Seq<char>, n: Seq<char>|
                #![trigger row_path(g, "claims"@, n)]
                s.claims.contains_key(g) && s.claims[g].contains_key(n) && at == row_path(
                    g,
                    "claims"@,
                    n,
                )) ==> named(ps, at)
            &&& (exists|x: Seq<char>, k: Seq<char>|
                #![trigger s.pgs.contains_key(x), s.agents.contains_key(k)]
                s.pgs.contains_key(x) && s.pgs[x].state != PgState::Removed && pg_agents(
                    s.pgs[x],
                ).contains(k) && s.agents.contains_key(k) && at == row_path(
                    s.agents[k].group,
                    "agents"@,
                    k,
                )) ==> named(ps, at)
            &&& (exists|x: Seq<char>| #[trigger]
                s.actors.contains_key(x) && !(s.actors[x].state is Dead) && s.agents.contains_key(
                    s.actors[x].agent,
                ) && at == row_path(
                    s.agents[s.actors[x].agent].group,
                    "agents"@,
                    s.actors[x].agent,
                )) ==> named(ps, at)
            &&& (exists|x: Seq<char>| #[trigger]
                s.actors.contains_key(x) && !(s.actors[x].state is Dead) && at == row_path(
                    s.actors[x].group,
                    "actors"@,
                    x,
                )) ==> named(ps, at)
            &&& (exists|x: Seq<char>| #[trigger]
                s.pgs.contains_key(x) && s.pgs[x].state != PgState::Removed && at == row_path(
                    s.pgs[x].group,
                    "placement_groups"@,
                    x,
                )) ==> named(ps, at)
            &&& (exists|g: Seq<char>| #[trigger] mentioned(t, g) && at == used_path(g)) ==> named(
                ps,
                at,
            )
        }),
{
    let t = emptied_out(s, now);
    let live = moved_actors(s);
    let kept = moved_pgs(s);
    lemma_finite_lists(s.clients.dom());
    lemma_finite_lists(s.claims.dom());
    lemma_finite_lists(s.actors.dom());
    lemma_finite_lists(s.pgs.dom());
    lemma_those(ordered(s.actors.dom()), |k: Seq<char>| !(s.actors[k].state is Dead));
    lemma_those(ordered(s.pgs.dom()), |k: Seq<char>| s.pgs[k].state != PgState::Removed);
    assert(t.actors.dom() =~= s.actors.dom());
    lemma_mentioned_finite(t);
    let ids = ordered(s.clients.dom());
    let a = clients_gone(ids);
    let b = all_claims_gone(s.claims, ordered(s.claims.dom()));
    let c = freed_agents(t, kept);
    let d = bereft_agents(t, live);
    let e = actor_sets(t, live);
    let f = pg_sets(t, kept);
    let names = ordered(mentioned_groups(t));
    let g = used_sets(t, names);
    lemma_claims(s.claims, ordered(s.claims.dom()));
    lemma_freed(t, kept);
    lemma_bereft(t, live);
    lemma_six(a, b, c, d, e, f, g, at);
    let ps = moved_patch(s, t);
    if exists|k: Seq<char>| #[trigger]
        s.clients.contains_key(k) && at == client_patch_of(k, None).at {
        let k = choose|k: Seq<char>| #[trigger]
            s.clients.contains_key(k) && at == client_patch_of(k, None).at;
        assert(s.clients.dom().contains(k));
        assert(ids.contains(k));
        assert(a[ids.index_of(k)].at == at);
        assert(named(a, at));
    }
    if exists|g: Seq<char>, n: Seq<char>|
        #![trigger row_path(g, "claims"@, n)]
        s.claims.contains_key(g) && s.claims[g].contains_key(n) && at == row_path(g, "claims"@, n) {
        let (x, n) = choose|g: Seq<char>, n: Seq<char>|
            #![trigger row_path(g, "claims"@, n)]
            s.claims.contains_key(g) && s.claims[g].contains_key(n) && at == row_path(
                g,
                "claims"@,
                n,
            );
        assert(s.claims.dom().contains(x));
        assert(ordered(s.claims.dom()).contains(x));
        assert(named(b, row_path(x, "claims"@, n)));
    }
    if exists|x: Seq<char>, k: Seq<char>|
        #![trigger s.pgs.contains_key(x), s.agents.contains_key(k)]
        s.pgs.contains_key(x) && s.pgs[x].state != PgState::Removed && pg_agents(
            s.pgs[x],
        ).contains(k) && s.agents.contains_key(k) && at == row_path(
            s.agents[k].group,
            "agents"@,
            k,
        ) {
        let (x, k) = choose|x: Seq<char>, k: Seq<char>|
            #![trigger s.pgs.contains_key(x), s.agents.contains_key(k)]
            s.pgs.contains_key(x) && s.pgs[x].state != PgState::Removed && pg_agents(
                s.pgs[x],
            ).contains(k) && s.agents.contains_key(k) && at == row_path(
                s.agents[k].group,
                "agents"@,
                k,
            );
        assert(s.pgs.dom().contains(x));
        assert(kept.contains(x));
        assert(t.pgs.contains_key(x));
        assert(t.pgs[x].assignment == s.pgs[x].assignment);
        assert(pg_agents(t.pgs[x]).contains(k));
        assert(t.agents.contains_key(k));
        assert(named(c, at));
    }
    if exists|x: Seq<char>| #[trigger]
        s.actors.contains_key(x) && !(s.actors[x].state is Dead) && s.agents.contains_key(
            s.actors[x].agent,
        ) && at == row_path(s.agents[s.actors[x].agent].group, "agents"@, s.actors[x].agent) {
        let x = choose|x: Seq<char>| #[trigger]
            s.actors.contains_key(x) && !(s.actors[x].state is Dead) && s.agents.contains_key(
                s.actors[x].agent,
            ) && at == row_path(s.agents[s.actors[x].agent].group, "agents"@, s.actors[x].agent);
        assert(s.actors.dom().contains(x));
        assert(live.contains(x));
        assert(t.actors[x].agent == s.actors[x].agent);
        assert(named(d, at));
    }
    if exists|x: Seq<char>| #[trigger]
        s.actors.contains_key(x) && !(s.actors[x].state is Dead) && at == row_path(
            s.actors[x].group,
            "actors"@,
            x,
        ) {
        let x = choose|x: Seq<char>| #[trigger]
            s.actors.contains_key(x) && !(s.actors[x].state is Dead) && at == row_path(
                s.actors[x].group,
                "actors"@,
                x,
            );
        assert(s.actors.dom().contains(x));
        assert(live.contains(x));
        assert(e[live.index_of(x)].at == at);
        assert(named(e, at));
    }
    if exists|x: Seq<char>| #[trigger]
        s.pgs.contains_key(x) && s.pgs[x].state != PgState::Removed && at == row_path(
            s.pgs[x].group,
            "placement_groups"@,
            x,
        ) {
        let x = choose|x: Seq<char>| #[trigger]
            s.pgs.contains_key(x) && s.pgs[x].state != PgState::Removed && at == row_path(
                s.pgs[x].group,
                "placement_groups"@,
                x,
            );
        assert(s.pgs.dom().contains(x));
        assert(kept.contains(x));
        assert(f[kept.index_of(x)].at == at);
        assert(named(f, at));
    }
    if exists|x: Seq<char>| #[trigger] mentioned(t, x) && at == used_path(x) {
        let x = choose|x: Seq<char>| #[trigger] mentioned(t, x) && at == used_path(x);
        assert(mentioned_groups(t).contains(x));
        assert(names.contains(x));
        assert(g[names.index_of(x)].at == at);
        assert(named(g, at));
    }
}

// ---------------------------------------------------------------------------
// What it does not name has not changed
// ---------------------------------------------------------------------------
proof fn lemma_unheld_alike(s: StateV, t: StateV, agent: Seq<char>, gpus: Seq<u32>)
    requires
        forall|g: u32| s.held(agent, g) == t.held(agent, g),
    ensures
        s.unheld(agent, gpus) == t.unheld(agent, gpus),
    decreases gpus.len(),
{
    if gpus.len() > 0 {
        lemma_unheld_alike(s, t, agent, gpus.drop_last());
    }
}

/// An agent that the event does not name has the GPUs free that it had.
proof fn lemma_free_alike(s: StateV, now: u64, k: Seq<char>)
    requires
        in_order(s),
        s.agents.contains_key(k),
        !named(
            moved_patch(s, emptied_out(s, now)),
            row_path(s.agents[k].group, "agents"@, k),
        ),
    ensures
        s.free_gpus(k) == emptied_out(s, now).free_gpus(k),
{
    let t = emptied_out(s, now);
    let at = row_path(s.agents[k].group, "agents"@, k);
    lemma_moved_names(s, now, at);
    assert forall|g: u32| s.held(k, g) == t.held(k, g) by {
        if s.held(k, g) {
            if exists|x: Seq<char>| #[trigger] s.pgs.contains_key(x) && pg_holds(s.pgs[x], k, g) {
                let x = choose|x: Seq<char>| #[trigger]
                    s.pgs.contains_key(x) && pg_holds(s.pgs[x], k, g);
                let p = s.pgs[x];
                assert(reserves(p.assignment, k, g));
                assert(pg_agents(p).contains(k));
                assert(named(moved_patch(s, t), at));
            } else {
                let x = choose|x: Seq<char>| #[trigger]
                    s.actors.contains_key(x) && actor_holds(s.actors[x], k, g);
                assert(named(moved_patch(s, t), at));
            }
        }
        if t.held(k, g) {
            if exists|x: Seq<char>| #[trigger] t.pgs.contains_key(x) && pg_holds(t.pgs[x], k, g) {
                let x = choose|x: Seq<char>| #[trigger]
                    t.pgs.contains_key(x) && pg_holds(t.pgs[x], k, g);
                assert(t.pgs[x].state == PgState::Removed);
            } else {
                let x = choose|x: Seq<char>| #[trigger]
                    t.actors.contains_key(x) && actor_holds(t.actors[x], k, g);
                assert(t.actors[x].state is Dead);
            }
        }
    }
    lemma_unheld_alike(s, t, k, gpu_indices(s.agents[k].machine));
}

proof fn lemma_found_nothing(
    s: StateV,
    local: LocalV,
    group: Seq<char>,
    kind: Seq<char>,
    id: Seq<char>,
)
    requires
        !mentioned(s, group),
    ensures
        found(snapshot_of(s, None, local), row_path(group, kind, id)) is None,
{
    lemma_top_names();
    let doc = snapshot_of(s, None, local);
    let at = row_path(group, kind, id);
    let groups = groups_doc(s, None);
    assert(doc.has("groups"@) && doc.field("groups"@) == groups);
    assert(at.skip(1)[0] == group);
    assert(found(doc, at) == found(groups, at.skip(1)));
    assert(!groups.has(group));
}

proof fn lemma_unnamed_is_unchanged(s: StateV, local: LocalV, now: u64, at: Seq<Seq<char>>)
    requires
        in_order(s),
        row_at(at),
        !named(moved_patch(s, emptied_out(s, now)), at),
    ensures
        found(snapshot_of(s, None, local), at) == found(
            snapshot_of(emptied_out(s, now), None, local),
            at,
        ),
{
    let t = emptied_out(s, now);
    lemma_moved_names(s, now, at);
    lemma_top_names();
    lemma_group_names();
    if at.len() == 2 {
        let id = at[1];
        assert(at =~= client_patch_of(id, None).at);
        law_a_clients_row_is_the_snapshots(s, local, id);
        law_a_clients_row_is_the_snapshots(t, local, id);
    } else if at.len() == 3 {
        let g = at[1];
        assert(at =~= used_path(g));
        lemma_still_mentioned(s, now, g);
        lemma_found_used(s, local, g);
        lemma_found_used(t, local, g);
    } else {
        let (g, kind, id) = (at[1], at[2], at[3]);
        assert(at =~= row_path(g, kind, id));
        lemma_still_mentioned(s, now, g);
        if !mentioned(s, g) {
            lemma_found_nothing(s, local, g, kind, id);
            lemma_found_nothing(t, local, g, kind, id);
        } else {
            lemma_found_row(s, local, g, kind, id);
            lemma_found_row(t, local, g, kind, id);
            let x = group_row(s, g);
            let y = group_row(t, g);
            assert(x.has(kind) && y.has(kind));
            if kind == "claims"@ {
                if claims_of(s, g).contains_key(id) {
                    assert(at == row_path(g, "claims"@, id));
                    assert(s.claims.contains_key(g) && s.claims[g].contains_key(id));
                }
                assert(!x.field(kind).has(id));
                assert(!y.field(kind).has(id));
            } else if kind == "agents"@ {
                assert(x.field(kind).has(id) == y.field(kind).has(id));
                if x.field(kind).has(id) {
                    lemma_free_alike(s, now, id);
                    assert(agent_row_of(s, s.agents[id]) == agent_row_of(t, t.agents[id]));
                }
            } else if kind == "actors"@ {
                assert(x.field(kind).has(id) == y.field(kind).has(id)) by {
                    assert(s.actors.contains_key(id) == t.actors.contains_key(id));
                }
                if x.field(kind).has(id) {
                    assert(s.actors.contains_key(id) && s.actors[id].group == g);
                    assert(s.actors[id].state is Dead);
                    assert(t.actors[id] == s.actors[id]);
                }
            } else {
                assert(x.field(kind).has(id) == y.field(kind).has(id)) by {
                    assert(s.pgs.contains_key(id) == t.pgs.contains_key(id));
                }
                if x.field(kind).has(id) {
                    assert(s.pgs.contains_key(id) && s.pgs[id].group == g);
                    assert(s.pgs[id].state == PgState::Removed);
                    assert(t.pgs[id] == s.pgs[id]);
                }
            }
        }
    }
}

/// A consumer that applies the event of a head that moved away to the snapshot it
/// holds lands where a consumer that reads the snapshot again lands: at every row
/// of every client, claim, agent, actor and placement group, and at the count of
/// GPUs of every group. The one exception is the row of a placement group that no
/// snapshot shows, since no agent or actor mentions its group.
pub proof fn law_a_moved_head_lands_where_the_snapshot_lands(
    s: StateV,
    local: LocalV,
    now: u64,
    at: Seq<Seq<char>>,
)
    requires
        hands_over(s),
        in_order(s),
        row_at(at),
        !out_of_sight(s, at),
    ensures
        ({
            let u = moved_away(s, now);
            let doc = all_stored(snapshot_of(s, None, local), u.events.last().patch);
            &&& doc is Some
            &&& found(doc->Some_0, at) == found(snapshot_of(u, None, local), at)
        }),
{
    let t = emptied_out(s, now);
    let then = snapshot_of(t, None, local);
    let ps = moved_patch(s, t);
    law_the_event_of_a_moved_head_is_true(s, local, now);
    lemma_moved_names(s, now, at);
    lemma_snapshot_tabled(s, local);
    assert forall|i: int| 0 <= i < ps.len() implies row_at((#[trigger] ps[i]).at) && (ps[i].at == at
        ==> agrees(then, ps[i])) by {
    }
    lemma_all_stored(snapshot_of(s, None, local), ps, then, at);
    if !named(ps, at) {
        lemma_unnamed_is_unchanged(s, local, now, at);
    }
}

/// The event of a head that moved away holds the new row of every agent that it
/// frees GPUs of.
pub proof fn law_a_moved_head_names_every_agent_it_frees(s: StateV, now: u64, k: Seq<char>)
    requires
        hands_over(s),
        in_order(s),
        s.agents.contains_key(k),
        moved_away(s, now).free_gpus(k) != s.free_gpus(k),
    ensures
        ({
            let u = moved_away(s, now);
            u.events.last().patch.contains(
                row_set(s.agents[k].group, "agents"@, k, agent_row_of(u, u.agents[k])),
            )
        }),
{
    let t = emptied_out(s, now);
    let u = moved_away(s, now);
    let ps = moved_patch(s, t);
    let local: LocalV = arbitrary();
    let g = s.agents[k].group;
    let at = row_path(g, "agents"@, k);
    lemma_top_names();
    lemma_group_names();
    lemma_unheld_alike(t, u, k, gpu_indices(s.agents[k].machine));
    if !named(ps, at) {
        lemma_free_alike(s, now, k);
    }
    law_the_event_of_a_moved_head_is_true(s, local, now);
    let i = choose|i: int| 0 <= i < ps.len() && (#[trigger] ps[i]).at == at;
    assert(at[2] == "agents"@);
    assert(agrees(snapshot_of(u, None, local), ps[i]));
    assert(mentioned(u, g));
    lemma_found_row(u, local, g, "agents"@, k);
    assert(group_row(u, g).field("agents"@).has(k));
    assert(ps[i] == row_set(g, "agents"@, k, agent_row_of(u, u.agents[k])));
}

} // verus!
