//! What a daemon does when it stops being the head.

use vstd::prelude::*;
use vstd::string::*;

use crate::common::dict::{lemma_increasing_distinct, lists, ordered, those, Dict};
use crate::common::json::{meaning, Json, JsonV};
use crate::common::text::{same, texts};
use crate::daemon::calls::removed_row;
use crate::daemon::place::{
    agent_change, agent_patches, pg_agent_changes, push_agent_patch, row_gone, row_patch, row_set,
};
use crate::daemon::sessions::{client_patch, client_patch_of};
use crate::daemon::state::{
    patch_views, ActorState, ActorStateV, ActorV, ClaimV, ClientV, Patch, PatchV, PgState, RefV,
    State, StateV,
};
use crate::daemon::status::{
    actor_row, actor_row_of, capped, count_gpus, gpus_used, groups_of, mentioned, pg_row, pg_row_of,
};

verus! {

broadcast use meaning;

/// Whether a daemon has anything to hand over to another head.
pub open spec fn hands_over(s: StateV) -> bool {
    s.head_node_id != s.node_id && !(s.agents.dom().is_empty() && s.clients.dom().is_empty())
}

/// Why everything here is over.
pub open spec fn moved_reason(s: StateV) -> Seq<char> {
    "group moved to head "@ + s.head_node_id
}

/// The removals of every client's row.
pub open spec fn clients_gone(ids: Seq<Seq<char>>) -> Seq<PatchV> {
    Seq::new(ids.len(), |i: int| client_patch_of(ids[i], None))
}

/// The removals of some claims of a group.
pub open spec fn claims_gone(group: Seq<char>, names: Seq<Seq<char>>) -> Seq<PatchV> {
    Seq::new(names.len(), |i: int| row_gone(group, "claims"@, names[i]))
}

/// The removals of every claim of some groups.
pub open spec fn all_claims_gone(
    claims: Map<Seq<char>, Map<Seq<char>, ClaimV>>,
    groups: Seq<Seq<char>>,
) -> Seq<PatchV>
    decreases groups.len(),
{
    if groups.len() == 0 {
        Seq::empty()
    } else {
        all_claims_gone(claims, groups.drop_last()) + claims_gone(
            groups.last(),
            ordered(claims[groups.last()].dom()),
        )
    }
}

/// The actors that were alive.
pub open spec fn moved_actors(s: StateV) -> Seq<Seq<char>> {
    those(ordered(s.actors.dom()), |k: Seq<char>| !(s.actors[k].state is Dead))
}

/// The placement groups that were not removed.
pub open spec fn moved_pgs(s: StateV) -> Seq<Seq<char>> {
    those(ordered(s.pgs.dom()), |k: Seq<char>| s.pgs[k].state != PgState::Removed)
}

/// The state without anything of the groups it held: no clients, claims or
/// refs, every actor dead, every placement group removed.
pub open spec fn emptied_out(s: StateV, now: u64) -> StateV {
    StateV {
        clients: Map::empty(),
        claims: Map::empty(),
        refs: Map::empty(),
        actors: Map::new(
            |k: Seq<char>| s.actors.contains_key(k),
            |k: Seq<char>|
                if s.actors[k].state is Dead {
                    s.actors[k]
                } else {
                    ActorV {
                        state: ActorStateV::Dead { reason: moved_reason(s), at_ms: now },
                        ..s.actors[k]
                    }
                },
        ),
        pgs: Map::new(
            |k: Seq<char>| s.pgs.contains_key(k),
            |k: Seq<char>|
                if s.pgs[k].state == PgState::Removed {
                    s.pgs[k]
                } else {
                    removed_row(s.pgs[k], now)
                },
        ),
        ..s
    }
}

/// The patches of the agents whose GPUs some placement groups let go.
pub open spec fn freed_agents(s: StateV, pgs: Seq<Seq<char>>) -> Seq<PatchV>
    decreases pgs.len(),
{
    if pgs.len() == 0 {
        Seq::empty()
    } else {
        freed_agents(s, pgs.drop_last()) + pg_agent_changes(s, pgs.last())
    }
}

/// The patches of the agents that some actors were on, whose GPUs they let go.
pub open spec fn bereft_agents(s: StateV, actors: Seq<Seq<char>>) -> Seq<PatchV>
    decreases actors.len(),
{
    if actors.len() == 0 {
        Seq::empty()
    } else {
        bereft_agents(s, actors.drop_last()) + agent_change(s, s.actors[actors.last()].agent)
    }
}

/// The groups that an agent or an actor mentions.
pub open spec fn mentioned_groups(s: StateV) -> Set<Seq<char>> {
    Set::new(|g: Seq<char>| mentioned(s, g))
}

/// Where a snapshot says how many of a group's GPUs are held.
pub open spec fn used_path(g: Seq<char>) -> Seq<Seq<char>> {
    seq!["groups"@, g, "gpus_used"@]
}

/// How many of the GPUs of each of some groups are held.
pub open spec fn used_sets(s: StateV, groups: Seq<Seq<char>>) -> Seq<PatchV> {
    Seq::new(
        groups.len(),
        |i: int|
            PatchV {
                at: used_path(groups[i]),
                value: Some(
                    JsonV::Uint(capped(gpus_used(s, groups[i], ordered(s.agents.dom())))),
                ),
            },
    )
}

/// The rows of some actors.
pub open spec fn actor_sets(s: StateV, ids: Seq<Seq<char>>) -> Seq<PatchV> {
    Seq::new(
        ids.len(),
        |i: int|
            row_set(s.actors[ids[i]].group, "actors"@, ids[i], actor_row_of(s.actors[ids[i]])),
    )
}

/// The rows of some placement groups.
pub open spec fn pg_sets(s: StateV, ids: Seq<Seq<char>>) -> Seq<PatchV> {
    Seq::new(
        ids.len(),
        |i: int|
            row_set(s.pgs[ids[i]].group, "placement_groups"@, ids[i], pg_row_of(s.pgs[ids[i]])),
    )
}

/// What the event of a moved head stores and takes out, with the state after it:
/// everything that is gone, every row that changed, and how many GPUs are held.
pub open spec fn moved_patch(s: StateV, t: StateV) -> Seq<PatchV> {
    clients_gone(ordered(s.clients.dom())) + all_claims_gone(s.claims, ordered(s.claims.dom()))
        + freed_agents(t, moved_pgs(s)) + bereft_agents(t, moved_actors(s)) + actor_sets(
        t,
        moved_actors(s),
    ) + pg_sets(t, moved_pgs(s)) + used_sets(t, ordered(mentioned_groups(t)))
}

/// The state after the head moved away. The rows go in one event, so a
/// consumer applying it lands where a consumer re-reading the snapshot lands.
pub open spec fn moved_away(s: StateV, now: u64) -> StateV {
    if !hands_over(s) {
        s
    } else {
        let t = emptied_out(s, now);
        t.emit("head_moved"@, moved_patch(s, t), moved_reason(s))
    }
}

fn end_actors(st: &mut State, reason: &str, now: u64) -> (r: Vec<String>)
    ensures
        final(st)@ == (StateV {
            actors: Map::new(
                |k: Seq<char>| old(st)@.actors.contains_key(k),
                |k: Seq<char>|
                    if old(st)@.actors[k].state is Dead {
                        old(st)@.actors[k]
                    } else {
                        ActorV {
                            state: ActorStateV::Dead { reason: reason@, at_ms: now },
                            ..old(st)@.actors[k]
                        }
                    },
            ),
            ..old(st)@
        }),
        texts(r@) == moved_actors(old(st)@),
        forall|i: int| 0 <= i < r@.len() ==> old(st)@.actors.contains_key((#[trigger] r@[i])@),
{
    let ghost s = st@;
    let ghost was = st.actors@;
    let n: usize = st.actors.len();
    let ghost order = st.actors.order();
    let mut out: Vec<String> = Vec::new();
    let mut i: usize = 0;
    proof {
        assert(s.actors.dom() =~= was.dom());
        assert(texts(out@) =~= Seq::<Seq<char>>::empty());
    }
    while i < n
        invariant
            i <= n,
            n == order.len(),
            order == st.actors.order(),
            lists(order, was.dom()),
            st@ == (StateV { actors: st@.actors, ..s }),
            st.actors@.dom() == was.dom(),
            s.actors.dom() == was.dom(),
            forall|k: Seq<char>| #[trigger]
                was.contains_key(k) ==> s.actors[k] == was[k].deep_view(),
            forall|j: int|
                0 <= j < i ==> st.actors@[#[trigger] order[j]].deep_view() == (
                if s.actors[order[j]].state is Dead {
                    s.actors[order[j]]
                } else {
                    ActorV {
                        state: ActorStateV::Dead { reason: reason@, at_ms: now },
                        ..s.actors[order[j]]
                    }
                }),
            forall|j: int| i <= j < n ==> st.actors@[#[trigger] order[j]] == was[order[j]],
            forall|i: int| 0 <= i < out@.len() ==> s.actors.contains_key((#[trigger] out@[i])@),
            texts(out@) == those(
                order.take(i as int),
                |k: Seq<char>| !(s.actors[k].state is Dead),
            ),
        decreases n - i,
    {
        let ghost mid = st.actors@;
        let ghost key = order[i as int];
        proof {
            assert(order.contains(key));
            assert(was.dom().contains(key));
            assert(order.take(i + 1).drop_last() =~= order.take(i as int));
            assert(order.take(i + 1).last() == key);
        }
        let name = st.actors.key_at(i).clone();
        let a = st.actors.val_at_mut(i);
        let live = !a.dead();
        if live {
            a.state = ActorState::Dead { reason: reason.to_string(), at_ms: now };
        }
        if live {
            let ghost had = out@;
            out.push(name);
            proof {
                assert(texts(out@) =~= texts(had).push(key));
                assert(s.actors.dom().contains(key));
            }
        }
        proof {
            assert(st.actors@.dom() =~= was.dom());
            assert forall|j: int| 0 <= j < n && j != i implies st.actors@[#[trigger] order[j]]
                == mid[order[j]] by {
                if order[j] == key {
                    lemma_increasing_distinct(order, i as int, j);
                }
            }
        }
        i += 1;
    }
    proof {
        assert(order.take(order.len() as int) =~= order);
        let want = Map::new(
            |k: Seq<char>| s.actors.contains_key(k),
            |k: Seq<char>|
                if s.actors[k].state is Dead {
                    s.actors[k]
                } else {
                    ActorV {
                        state: ActorStateV::Dead { reason: reason@, at_ms: now },
                        ..s.actors[k]
                    }
                },
        );
        assert forall|k: Seq<char>| #[trigger] want.contains_key(k) implies st@.actors[k]
            == want[k] by {
            assert(was.dom().contains(k));
            let j = order.index_of(k);
            assert(order[j] == k);
        }
        assert(st@.actors =~= want);
    }
    out
}

fn end_pgs(st: &mut State, now: u64) -> (r: Vec<String>)
    ensures
        final(st)@ == (StateV {
            pgs: Map::new(
                |k: Seq<char>| old(st)@.pgs.contains_key(k),
                |k: Seq<char>|
                    if old(st)@.pgs[k].state == PgState::Removed {
                        old(st)@.pgs[k]
                    } else {
                        removed_row(old(st)@.pgs[k], now)
                    },
            ),
            ..old(st)@
        }),
        texts(r@) == moved_pgs(old(st)@),
        forall|i: int| 0 <= i < r@.len() ==> old(st)@.pgs.contains_key((#[trigger] r@[i])@),
{
    let ghost s = st@;
    let ghost was = st.pgs@;
    let n: usize = st.pgs.len();
    let ghost order = st.pgs.order();
    let mut out: Vec<String> = Vec::new();
    let mut i: usize = 0;
    proof {
        assert(s.pgs.dom() =~= was.dom());
        assert(texts(out@) =~= Seq::<Seq<char>>::empty());
    }
    while i < n
        invariant
            i <= n,
            n == order.len(),
            order == st.pgs.order(),
            lists(order, was.dom()),
            st@ == (StateV { pgs: st@.pgs, ..s }),
            st.pgs@.dom() == was.dom(),
            s.pgs.dom() == was.dom(),
            forall|k: Seq<char>| #[trigger]
                was.contains_key(k) ==> s.pgs[k] == was[k].deep_view(),
            forall|j: int|
                0 <= j < i ==> st.pgs@[#[trigger] order[j]].deep_view() == (
                if s.pgs[order[j]].state == PgState::Removed {
                    s.pgs[order[j]]
                } else {
                    removed_row(s.pgs[order[j]], now)
                }),
            forall|j: int| i <= j < n ==> st.pgs@[#[trigger] order[j]] == was[order[j]],
            forall|i: int| 0 <= i < out@.len() ==> s.pgs.contains_key((#[trigger] out@[i])@),
            texts(out@) == those(
                order.take(i as int),
                |k: Seq<char>| s.pgs[k].state != PgState::Removed,
            ),
        decreases n - i,
    {
        let ghost mid = st.pgs@;
        let ghost key = order[i as int];
        proof {
            assert(order.contains(key));
            assert(was.dom().contains(key));
            assert(order.take(i + 1).drop_last() =~= order.take(i as int));
            assert(order.take(i + 1).last() == key);
        }
        let name = st.pgs.key_at(i).clone();
        let p = st.pgs.val_at_mut(i);
        let live = p.state != PgState::Removed;
        if live {
            p.state = PgState::Removed;
            p.removed_ms = Some(now);
        }
        if live {
            let ghost had = out@;
            out.push(name);
            proof {
                assert(texts(out@) =~= texts(had).push(key));
                assert(s.pgs.dom().contains(key));
            }
        }
        proof {
            assert(st.pgs@.dom() =~= was.dom());
            assert forall|j: int| 0 <= j < n && j != i implies st.pgs@[#[trigger] order[j]]
                == mid[order[j]] by {
                if order[j] == key {
                    lemma_increasing_distinct(order, i as int, j);
                }
            }
        }
        i += 1;
    }
    proof {
        assert(order.take(order.len() as int) =~= order);
        let want = Map::new(
            |k: Seq<char>| s.pgs.contains_key(k),
            |k: Seq<char>|
                if s.pgs[k].state == PgState::Removed {
                    s.pgs[k]
                } else {
                    removed_row(s.pgs[k], now)
                },
        );
        assert forall|k: Seq<char>| #[trigger] want.contains_key(k) implies st@.pgs[k]
            == want[k] by {
            assert(was.dom().contains(k));
            let j = order.index_of(k);
            assert(order[j] == k);
        }
        assert(st@.pgs =~= want);
    }
    out
}

fn push_clients_gone(out: &mut Vec<Patch>, ids: &Vec<String>)
    ensures
        patch_views(final(out)@) == patch_views(old(out)@) + clients_gone(texts(ids@)),
{
    let ghost start = patch_views(out@);
    let ghost want = clients_gone(texts(ids@));
    let mut i: usize = 0;
    proof {
        assert(start + want.take(0) =~= start);
    }
    while i < ids.len()
        invariant
            i <= ids@.len(),
            want == clients_gone(texts(ids@)),
            patch_views(out@) == start + want.take(i as int),
        decreases ids@.len() - i,
    {
        let ghost had = out@;
        let p = client_patch(ids[i].as_str(), None);
        let ghost pv = p.deep_view();
        out.push(p);
        proof {
            assert(patch_views(out@) =~= patch_views(had).push(pv));
            assert(want.take(i + 1) =~= want.take(i as int).push(want[i as int]));
            assert(patch_views(out@) =~= start + want.take(i + 1));
        }
        i += 1;
    }
    proof {
        assert(want.take(want.len() as int) =~= want);
    }
}

fn push_claims_gone(out: &mut Vec<Patch>, group: &str, names: &Vec<String>)
    ensures
        patch_views(final(out)@) == patch_views(old(out)@) + claims_gone(group@, texts(names@)),
{
    let ghost start = patch_views(out@);
    let ghost want = claims_gone(group@, texts(names@));
    let mut i: usize = 0;
    proof {
        assert(start + want.take(0) =~= start);
    }
    while i < names.len()
        invariant
            i <= names@.len(),
            want == claims_gone(group@, texts(names@)),
            patch_views(out@) == start + want.take(i as int),
        decreases names@.len() - i,
    {
        let ghost had = out@;
        let p = row_patch(group, "claims", names[i].as_str(), None);
        let ghost pv = p.deep_view();
        out.push(p);
        proof {
            assert(patch_views(out@) =~= patch_views(had).push(pv));
            assert(want.take(i + 1) =~= want.take(i as int).push(want[i as int]));
            assert(patch_views(out@) =~= start + want.take(i + 1));
        }
        i += 1;
    }
    proof {
        assert(want.take(want.len() as int) =~= want);
    }
}

fn push_all_claims_gone(out: &mut Vec<Patch>, st: &State)
    ensures
        patch_views(final(out)@) == patch_views(old(out)@) + all_claims_gone(
            st@.claims,
            ordered(st@.claims.dom()),
        ),
{
    let ghost start = patch_views(out@);
    let n: usize = st.claims.len();
    let ghost order = st.claims.order();
    let mut i: usize = 0;
    proof {
        assert(st@.claims.dom() =~= st.claims@.dom());
        assert(start + all_claims_gone(st@.claims, order.take(0)) =~= start);
    }
    while i < n
        invariant
            i <= n,
            n == order.len(),
            order == st.claims.order(),
            patch_views(out@) == start + all_claims_gone(st@.claims, order.take(i as int)),
        decreases n - i,
    {
        let d = st.claims.val_at(i);
        let names = d.keys();
        proof {
            assert(order.take(i + 1).drop_last() =~= order.take(i as int));
            assert(order.take(i + 1).last() == order[i as int]);
            assert(st@.claims[order[i as int]] == d.deep_view());
            assert(d.deep_view().dom() =~= d@.dom());
        }
        push_claims_gone(out, st.claims.key_at(i).as_str(), &names);
        proof {
            assert(patch_views(out@) =~= start + all_claims_gone(st@.claims, order.take(i + 1)));
        }
        i += 1;
    }
    proof {
        assert(order.take(order.len() as int) =~= order);
    }
}

fn push_freed(out: &mut Vec<Patch>, st: &State, pgs: &Vec<String>)
    ensures
        patch_views(final(out)@) == patch_views(old(out)@) + freed_agents(st@, texts(pgs@)),
{
    let ghost start = patch_views(out@);
    let ghost all = texts(pgs@);
    let mut i: usize = 0;
    proof {
        assert(start + freed_agents(st@, all.take(0)) =~= start);
    }
    while i < pgs.len()
        invariant
            i <= pgs@.len(),
            all == texts(pgs@),
            patch_views(out@) == start + freed_agents(st@, all.take(i as int)),
        decreases pgs@.len() - i,
    {
        proof {
            assert(all.take(i + 1).drop_last() =~= all.take(i as int));
            assert(all.take(i + 1).last() == pgs@[i as int]@);
        }
        agent_patches(st, pgs[i].as_str(), out);
        proof {
            assert(patch_views(out@) =~= start + freed_agents(st@, all.take(i + 1)));
        }
        i += 1;
    }
    proof {
        assert(all.take(all.len() as int) =~= all);
    }
}

fn push_bereft(out: &mut Vec<Patch>, st: &State, ids: &Vec<String>)
    requires
        forall|i: int| 0 <= i < ids@.len() ==> st@.actors.contains_key((#[trigger] ids@[i])@),
    ensures
        patch_views(final(out)@) == patch_views(old(out)@) + bereft_agents(st@, texts(ids@)),
{
    let ghost start = patch_views(out@);
    let ghost all = texts(ids@);
    let mut i: usize = 0;
    proof {
        assert(start + bereft_agents(st@, all.take(0)) =~= start);
    }
    while i < ids.len()
        invariant
            i <= ids@.len(),
            all == texts(ids@),
            forall|i: int| 0 <= i < ids@.len() ==> st@.actors.contains_key((#[trigger] ids@[i])@),
            patch_views(out@) == start + bereft_agents(st@, all.take(i as int)),
        decreases ids@.len() - i,
    {
        proof {
            assert(all.take(i + 1).drop_last() =~= all.take(i as int));
            assert(all.take(i + 1).last() == ids@[i as int]@);
            assert(st@.actors.contains_key(ids@[i as int]@));
        }
        if let Some(a) = st.actors.get(ids[i].as_str()) {
            proof {
                assert(st@.actors[ids@[i as int]@] == a.deep_view());
            }
            push_agent_patch(st, a.agent.as_str(), out);
            proof {
                assert(patch_views(out@) =~= start + bereft_agents(st@, all.take(i + 1)));
            }
        }
        i += 1;
    }
    proof {
        assert(all.take(all.len() as int) =~= all);
    }
}

fn push_used(out: &mut Vec<Patch>, st: &State)
    ensures
        patch_views(final(out)@) == patch_views(old(out)@) + used_sets(
            st@,
            ordered(mentioned_groups(st@)),
        ),
{
    let ghost start = patch_views(out@);
    let groups = groups_of(st);
    let names = groups.keys();
    let ghost want = used_sets(st@, texts(names@));
    let mut i: usize = 0;
    proof {
        assert(groups@.dom() =~= mentioned_groups(st@));
        assert(start + want.take(0) =~= start);
    }
    while i < names.len()
        invariant
            i <= names@.len(),
            want == used_sets(st@, texts(names@)),
            patch_views(out@) == start + want.take(i as int),
        decreases names@.len() - i,
    {
        let ghost had = out@;
        let (_, used) = count_gpus(st, names[i].as_str());
        let mut at: Vec<String> = Vec::new();
        at.push("groups".to_string());
        at.push(names[i].clone());
        at.push("gpus_used".to_string());
        let p = Patch { at, value: Some(Json::Uint(used)) };
        let ghost pv = p.deep_view();
        out.push(p);
        proof {
            assert(pv.at =~= used_path(names@[i as int]@));
            assert(pv == want[i as int]);
            assert(patch_views(out@) =~= patch_views(had).push(pv));
            assert(want.take(i + 1) =~= want.take(i as int).push(want[i as int]));
            assert(patch_views(out@) =~= start + want.take(i + 1));
        }
        i += 1;
    }
    proof {
        assert(want.take(want.len() as int) =~= want);
    }
}

fn push_actor_sets(out: &mut Vec<Patch>, st: &State, ids: &Vec<String>)
    requires
        forall|i: int| 0 <= i < ids@.len() ==> st@.actors.contains_key((#[trigger] ids@[i])@),
    ensures
        patch_views(final(out)@) == patch_views(old(out)@) + actor_sets(st@, texts(ids@)),
{
    let ghost start = patch_views(out@);
    let ghost want = actor_sets(st@, texts(ids@));
    let mut i: usize = 0;
    proof {
        assert(start + want.take(0) =~= start);
    }
    while i < ids.len()
        invariant
            i <= ids@.len(),
            forall|i: int| 0 <= i < ids@.len() ==> st@.actors.contains_key((#[trigger] ids@[i])@),
            want == actor_sets(st@, texts(ids@)),
            patch_views(out@) == start + want.take(i as int),
        decreases ids@.len() - i,
    {
        let ghost had = out@;
        proof {
            assert(st@.actors.contains_key(ids@[i as int]@));
        }
        if let Some(a) = st.actors.get(ids[i].as_str()) {
            let p = row_patch(a.group.as_str(), "actors", ids[i].as_str(), Some(actor_row(a)));
            let ghost pv = p.deep_view();
            out.push(p);
            proof {
                assert(pv == want[i as int]);
                assert(patch_views(out@) =~= patch_views(had).push(pv));
                assert(want.take(i + 1) =~= want.take(i as int).push(want[i as int]));
                assert(patch_views(out@) =~= start + want.take(i + 1));
            }
        }
        i += 1;
    }
    proof {
        assert(want.take(want.len() as int) =~= want);
    }
}

fn push_pg_sets(out: &mut Vec<Patch>, st: &State, ids: &Vec<String>)
    requires
        forall|i: int| 0 <= i < ids@.len() ==> st@.pgs.contains_key((#[trigger] ids@[i])@),
    ensures
        patch_views(final(out)@) == patch_views(old(out)@) + pg_sets(st@, texts(ids@)),
{
    let ghost start = patch_views(out@);
    let ghost want = pg_sets(st@, texts(ids@));
    let mut i: usize = 0;
    proof {
        assert(start + want.take(0) =~= start);
    }
    while i < ids.len()
        invariant
            i <= ids@.len(),
            forall|i: int| 0 <= i < ids@.len() ==> st@.pgs.contains_key((#[trigger] ids@[i])@),
            want == pg_sets(st@, texts(ids@)),
            patch_views(out@) == start + want.take(i as int),
        decreases ids@.len() - i,
    {
        let ghost had = out@;
        proof {
            assert(st@.pgs.contains_key(ids@[i as int]@));
        }
        if let Some(a) = st.pgs.get(ids[i].as_str()) {
            let p = row_patch(
                a.group.as_str(),
                "placement_groups",
                ids[i].as_str(),
                Some(pg_row(a)),
            );
            let ghost pv = p.deep_view();
            out.push(p);
            proof {
                assert(pv == want[i as int]);
                assert(patch_views(out@) =~= patch_views(had).push(pv));
                assert(want.take(i + 1) =~= want.take(i as int).push(want[i as int]));
                assert(patch_views(out@) =~= start + want.take(i + 1));
            }
        }
        i += 1;
    }
    proof {
        assert(want.take(want.len() as int) =~= want);
    }
}

/// Called when the head changes. A daemon that has stopped being head drops
/// every group it held, and says whether it did: its agent and client links
/// are then to be closed, so that the agents register with the new head. Its
/// driver rows go without a reap, since the actors are alive and the new head
/// adopts them.
pub fn head_moved(st: &mut State, now: u64) -> (r: bool)
    ensures
        final(st)@ == moved_away(old(st)@, now),
        r == hands_over(old(st)@),
{
    let ghost s = st@;
    let no_agents = st.agents.len() == 0;
    let no_clients = st.clients.len() == 0;
    proof {
        assert(s.agents.dom() =~= st.agents@.dom());
        assert(s.clients.dom() =~= st.clients@.dom());
        if !no_agents {
            let order = st.agents.order();
            assert(order.contains(order[0]));
            assert(s.agents.dom().contains(order[0]));
        } else {
            assert forall|k: Seq<char>| !s.agents.dom().contains(k) by {
                assert(st.agents@.dom().contains(k) == st.agents.order().contains(k));
            }
            assert(s.agents.dom() =~= Set::empty());
        }
        if !no_clients {
            let order = st.clients.order();
            assert(order.contains(order[0]));
            assert(s.clients.dom().contains(order[0]));
        } else {
            assert forall|k: Seq<char>| !s.clients.dom().contains(k) by {
                assert(st.clients@.dom().contains(k) == st.clients.order().contains(k));
            }
            assert(s.clients.dom() =~= Set::empty());
        }
    }
    if same(st.head_node_id.as_str(), st.node_id.as_str()) || (no_agents && no_clients) {
        return false;
    }
    let mut reason = "group moved to head ".to_string();
    reason.append(st.head_node_id.as_str());
    let mut patch: Vec<Patch> = Vec::new();
    let ids = st.clients.keys();
    push_clients_gone(&mut patch, &ids);
    push_all_claims_gone(&mut patch, st);
    let ghost first = clients_gone(ordered(s.clients.dom())) + all_claims_gone(
        s.claims,
        ordered(s.claims.dom()),
    );
    proof {
        assert(patch_views(patch@) =~= first);
    }
    st.clients = Dict::new();
    st.claims = Dict::new();
    st.refs = Dict::new();
    proof {
        assert(st@.clients =~= Map::<Seq<char>, ClientV>::empty());
        assert(st@.claims =~= Map::<Seq<char>, Map<Seq<char>, ClaimV>>::empty());
        assert(st@.refs =~= Map::<Seq<char>, RefV>::empty());
    }
    let actors = end_actors(st, reason.as_str(), now);
    let pgs = end_pgs(st, now);
    let ghost t = emptied_out(s, now);
    proof {
        assert(st@.actors =~= t.actors);
        assert(st@.pgs =~= t.pgs);
        assert(st@ =~= t);
    }
    push_freed(&mut patch, st, &pgs);
    push_bereft(&mut patch, st, &actors);
    push_actor_sets(&mut patch, st, &actors);
    push_pg_sets(&mut patch, st, &pgs);
    push_used(&mut patch, st);
    st.emit_patch("head_moved", patch, reason.as_str());
    true
}

} // verus!
