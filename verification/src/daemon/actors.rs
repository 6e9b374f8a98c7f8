//! Actors: their calls, their deaths, and the refs that wait on them.

use vstd::prelude::*;
use vstd::string::*;

use crate::common::dict::{lists, ordered, those, Dict};
use crate::common::json::meaning;
use crate::common::text::{has_prefix, join, joined, same, starts_with, texts};
use crate::daemon::place::{agent_change, placed, push_agent_patch, row_patch, row_set, try_place};
use crate::daemon::state::{
    call_views, patch_views, ActorState, ActorStateV, ActorV, Patch, PgState, QueuedCallV,
    RefState, RefStateV, RefV, State, StateV,
};
use crate::daemon::status::{actor_row, actor_row_of};

verus! {

broadcast use meaning;

// ---------------------------------------------------------------------------
// Death
// ---------------------------------------------------------------------------
/// An actor that has died.
pub open spec fn died_row(a: ActorV, reason: Seq<char>, now: u64) -> ActorV {
    ActorV {
        state: ActorStateV::Dead { reason, at_ms: now },
        queued_calls: Seq::empty(),
        ..a
    }
}

/// A ref, after the actor it may wait on died.
pub open spec fn failed_ref(r: RefV, actor: Seq<char>, reason: Seq<char>) -> RefV {
    if r.actor == Some(actor) && r.state is Pending {
        RefV { state: RefStateV::ActorDied { reason }, ..r }
    } else {
        r
    }
}

/// The refs, after an actor died: each that waited on it is failed.
pub open spec fn fan_out(
    refs: Map<Seq<char>, RefV>,
    actor: Seq<char>,
    reason: Seq<char>,
) -> Map<Seq<char>, RefV> {
    Map::new(
        |k: Seq<char>| refs.contains_key(k),
        |k: Seq<char>| failed_ref(refs[k], actor, reason),
    )
}

/// The state after an actor's row says that it died.
pub open spec fn marked(s: StateV, id: Seq<char>, reason: Seq<char>, now: u64) -> StateV {
    if s.actors.contains_key(id) {
        let a = died_row(s.actors[id], reason, now);
        let t = StateV { actors: s.actors.insert(id, a), ..s };
        t.emit(
            "actor_dead"@,
            seq![row_set(a.group, "actors"@, id, actor_row_of(a))] + agent_change(t, a.agent),
            reason,
        )
    } else {
        s
    }
}

/// The state after an actor died: its row says so, its refs are failed, and
/// what waited for its GPUs is placed. Of one that is dead already nothing
/// changes.
pub open spec fn died(
    s: StateV,
    id: Seq<char>,
    reason: Seq<char>,
    now: u64,
    by_island: bool,
) -> StateV {
    if s.actors.contains_key(id) && s.actors[id].state is Dead {
        s
    } else {
        let t = marked(s, id, reason, now);
        placed(StateV { refs: fan_out(t.refs, id, reason), ..t }, by_island)
    }
}

fn fail_refs(st: &mut State, actor: &str, reason: &str)
    ensures
        final(st)@ == (StateV { refs: fan_out(old(st)@.refs, actor@, reason@), ..old(st)@ }),
{
    let ghost s = st@;
    let n: usize = st.refs.len();
    let ghost order = st.refs.order();
    let ghost was = st.refs@;
    let mut i: usize = 0;
    while i < n
        invariant
            i <= n,
            n == order.len(),
            order == st.refs.order(),
            lists(order, was.dom()),
            st@ == (StateV { refs: st@.refs, ..s }),
            st.refs@.dom() == was.dom(),
            s.refs.dom() == was.dom(),
            forall|k: Seq<char>| #[trigger]
                was.contains_key(k) ==> s.refs[k] == was[k].deep_view(),
            forall|j: int|
                0 <= j < i ==> st.refs@[#[trigger] order[j]].deep_view() == failed_ref(
                    s.refs[order[j]],
                    actor@,
                    reason@,
                ),
            forall|j: int| i <= j < n ==> st.refs@[#[trigger] order[j]] == was[order[j]],
        decreases n - i,
    {
        let ghost mid = st.refs@;
        let ghost key = order[i as int];
        proof {
            assert(order.contains(key));
            assert(was.dom().contains(key));
        }
        let r = st.refs.val_at_mut(i);
        let hit = match &r.actor {
            Some(a) => same(a.as_str(), actor),
            None => false,
        };
        let waits = match &r.state {
            RefState::Pending => true,
            _ => false,
        };
        if hit && waits {
            r.state = RefState::ActorDied { reason: reason.to_string() };
        }
        proof {
            assert(st.refs@.dom() =~= was.dom());
            assert forall|j: int| 0 <= j < n && j != i implies st.refs@[#[trigger] order[j]]
                == mid[order[j]] by {
                if order[j] == key {
                    crate::common::dict::lemma_increasing_distinct(order, i as int, j);
                }
            }
        }
        i += 1;
    }
    proof {
        let want = fan_out(s.refs, actor@, reason@);
        assert forall|k: Seq<char>| #[trigger] want.contains_key(k) implies st@.refs[k]
            == want[k] by {
            assert(was.dom().contains(k));
            let j = order.index_of(k);
            assert(order[j] == k);
        }
        assert(st@.refs =~= want);
    }
}

/// Mark an actor dead and fan the death out to every pending ref that
/// belongs to it. This is the mechanism behind the run()-ref liveness
/// sentinel: a wait on the ref sees it complete.
///
/// A live actor holds its GPUs, so its death frees them for a group waiting
/// on them.
pub fn mark_actor_dead(st: &mut State, id: &str, reason: &str, now: u64, by_island: bool)
    ensures
        final(st)@ == died(old(st)@, id@, reason@, now, by_island),
{
    let ghost s = st@;
    if let Some(a) = st.actors.get(id) {
        if a.dead() {
            return ;
        }
    }
    let ghost d = died_row(s.actors[id@], reason@, now);
    let ghost t = StateV { actors: s.actors.insert(id@, d), ..s };
    let known = st.actors.contains(id);
    if let Some(a) = st.actors.get_mut(id) {
        a.state = ActorState::Dead { reason: reason.to_string(), at_ms: now };
        a.queued_calls = Vec::new();
        proof {
            assert(call_views(a.queued_calls@) =~= Seq::<QueuedCallV>::empty());
        }
    }
    if known {
        proof {
            assert(st@.actors =~= t.actors);
            assert(st@ =~= t);
        }
        let mut patch: Vec<Patch> = Vec::new();
        if let Some(a) = st.actors.get(id) {
            patch.push(row_patch(a.group.as_str(), "actors", id, Some(actor_row(a))));
            proof {
                assert(a.deep_view() == t.actors[id@]);
                assert(patch_views(patch@) =~= seq![
                    row_set(d.group, "actors"@, id@, actor_row_of(d)),
                ]);
            }
            push_agent_patch(st, a.agent.as_str(), &mut patch);
        }
        st.emit_patch("actor_dead", patch, reason);
    } else {
        proof {
            assert(st@ =~= s);
        }
    }
    proof {
        assert(st@ == marked(s, id@, reason@, now));
    }
    fail_refs(st, id, reason);
    try_place(st, by_island);
}

// ---------------------------------------------------------------------------
// Killing
// ---------------------------------------------------------------------------
/// What to do about an actor that is to be killed.
#[derive(Debug)]
pub enum Kill {
    /// There is no such live actor.
    Nothing,
    /// Tell the agent behind this connection. The death is recorded when the
    /// agent reports the exit, since it knows the real exit status.
    Tell { link: u64, actor: String },
    /// Its agent is down, so it has been marked dead.
    Marked,
}

/// A `Kill` as a mathematical value.
pub enum KillV {
    Nothing,
    Tell { link: u64, actor: Seq<char> },
    Marked,
}

impl View for Kill {
    type V = KillV;

    open spec fn view(&self) -> KillV {
        match self {
            Kill::Nothing => KillV::Nothing,
            Kill::Tell { link, actor } => KillV::Tell { link: *link, actor: actor@ },
            Kill::Marked => KillV::Marked,
        }
    }
}

/// Whether an agent can be reached.
pub open spec fn reachable(s: StateV, agent: Seq<char>) -> bool {
    s.agents.contains_key(agent) && s.agents[agent].alive
}

/// Whether an actor is there and has not died.
pub open spec fn living(s: StateV, id: Seq<char>) -> bool {
    s.actors.contains_key(id) && !(s.actors[id].state is Dead)
}

/// What is done about an actor that is to be killed, and the state after it.
pub open spec fn killed(s: StateV, id: Seq<char>, now: u64, by_island: bool) -> (StateV, KillV) {
    if !living(s, id) {
        (s, KillV::Nothing)
    } else if reachable(s, s.actors[id].agent) {
        (s, KillV::Tell { link: s.agents[s.actors[id].agent].link, actor: id })
    } else {
        (died(s, id, "killed while its agent was down"@, now, by_island), KillV::Marked)
    }
}

/// Kills an actor: through its agent, or by marking it where the agent is
/// down.
pub fn kill_actor(st: &mut State, id: &str, now: u64, by_island: bool) -> (r: Kill)
    ensures
        (final(st)@, r@) == killed(old(st)@, id@, now, by_island),
{
    let link = match st.actors.get(id) {
        None => return Kill::Nothing,
        Some(a) => {
            if a.dead() {
                return Kill::Nothing;
            }
            match st.agents.get(a.agent.as_str()) {
                Some(g) => if g.alive {
                    Some(g.link)
                } else {
                    None
                },
                None => None,
            }
        },
    };
    match link {
        Some(link) => Kill::Tell { link, actor: id.to_string() },
        None => {
            mark_actor_dead(st, id, "killed while its agent was down", now, by_island);
            Kill::Marked
        },
    }
}

/// The views of a list of kills.
pub open spec fn kill_views(v: Seq<Kill>) -> Seq<KillV> {
    Seq::new(v.len(), |i: int| v[i]@)
}

/// What is done about each of some actors in turn, and the state after it.
pub open spec fn all_killed(
    s: StateV,
    ids: Seq<Seq<char>>,
    now: u64,
    by_island: bool,
) -> (StateV, Seq<KillV>)
    decreases ids.len(),
{
    if ids.len() == 0 {
        (s, Seq::empty())
    } else {
        let (t, had) = all_killed(s, ids.drop_last(), now, by_island);
        let (u, k) = killed(t, ids.last(), now, by_island);
        (u, had.push(k))
    }
}

/// Kills each of some actors in turn.
pub fn kill_all(st: &mut State, ids: &Vec<String>, now: u64, by_island: bool) -> (r: Vec<Kill>)
    ensures
        (final(st)@, kill_views(r@)) == all_killed(old(st)@, texts(ids@), now, by_island),
{
    let ghost s = st@;
    let ghost all = texts(ids@);
    let mut out: Vec<Kill> = Vec::new();
    let mut i: usize = 0;
    proof {
        assert(kill_views(out@) =~= Seq::<KillV>::empty());
    }
    while i < ids.len()
        invariant
            i <= ids@.len(),
            all == texts(ids@),
            (st@, kill_views(out@)) == all_killed(s, all.take(i as int), now, by_island),
        decreases ids@.len() - i,
    {
        proof {
            assert(all.take(i + 1).drop_last() =~= all.take(i as int));
            assert(all.take(i + 1).last() == ids@[i as int]@);
        }
        let ghost was = out@;
        let k = kill_actor(st, ids[i].as_str(), now, by_island);
        out.push(k);
        proof {
            assert(kill_views(out@) =~= kill_views(was).push(k@));
        }
        i += 1;
    }
    proof {
        assert(all.take(all.len() as int) =~= all);
    }
    out
}

/// The actors that `actor_stop` reaches: the live ones of a group, or of
/// every group.
pub open spec fn stoppable(s: StateV, group: Seq<char>, all: bool) -> Seq<Seq<char>> {
    those(
        ordered(s.actors.dom()),
        |k: Seq<char>| (all || s.actors[k].group == group) && !(s.actors[k].state is Dead),
    )
}

fn to_stop(st: &State, group: &str, all: bool) -> (r: Vec<String>)
    ensures
        texts(r@) == stoppable(st@, group@, all),
{
    let n: usize = st.actors.len();
    let ghost order = st.actors.order();
    let ghost s = st@;
    let mut out: Vec<String> = Vec::new();
    let mut i: usize = 0;
    proof {
        assert(s.actors.dom() =~= st.actors@.dom());
        assert(texts(out@) =~= Seq::<Seq<char>>::empty());
    }
    while i < n
        invariant
            i <= n,
            n == order.len(),
            order == st.actors.order(),
            s == st@,
            texts(out@) == those(
                order.take(i as int),
                |k: Seq<char>|
                    (all || s.actors[k].group == group@) && !(s.actors[k].state is Dead),
            ),
        decreases n - i,
    {
        let a = st.actors.val_at(i);
        proof {
            assert(order.take(i + 1).drop_last() =~= order.take(i as int));
            assert(order.take(i + 1).last() == order[i as int]);
            assert(s.actors[order[i as int]] == a.deep_view());
        }
        if (all || same(a.group.as_str(), group)) && !a.dead() {
            let ghost was = out@;
            out.push(st.actors.key_at(i).clone());
            proof {
                assert(texts(out@) =~= texts(was).push(order[i as int]));
            }
        }
        i += 1;
    }
    proof {
        assert(order.take(order.len() as int) =~= order);
    }
    out
}

/// The groups that actors belong to.
pub open spec fn actor_groups(s: StateV) -> Set<Seq<char>> {
    Set::new(
        |g: Seq<char>|
            exists|k: Seq<char>| #[trigger] s.actors.contains_key(k) && s.actors[k].group == g,
    )
}

fn groups_with_actors(st: &State) -> (r: Vec<String>)
    ensures
        texts(r@) == ordered(actor_groups(st@)),
{
    let mut out: Dict<()> = Dict::new();
    let n: usize = st.actors.len();
    let ghost order = st.actors.order();
    let mut i: usize = 0;
    while i < n
        invariant
            i <= n,
            n == order.len(),
            order == st.actors.order(),
            lists(order, st.actors@.dom()),
            forall|g: Seq<char>| #[trigger]
                out@.contains_key(g) <==> exists|j: int|
                    0 <= j < i && st@.actors[#[trigger] order[j]].group == g,
        decreases n - i,
    {
        let a = st.actors.val_at(i);
        let ghost had = out@;
        proof {
            assert(st@.actors[order[i as int]] == a.deep_view());
        }
        out.insert(a.group.clone(), ());
        proof {
            assert forall|g: Seq<char>| #[trigger] out@.contains_key(g) <==> exists|j: int|
                0 <= j < i + 1 && st@.actors[#[trigger] order[j]].group == g by {
                if had.contains_key(g) {
                    let j = choose|j: int|
                        0 <= j < i && st@.actors[#[trigger] order[j]].group == g;
                    assert(0 <= j < i + 1);
                }
                if g == a.group@ {
                    assert(st@.actors[order[i as int]].group == g);
                }
            }
        }
        i += 1;
    }
    proof {
        assert forall|g: Seq<char>| #[trigger]
            out@.dom().contains(g) == actor_groups(st@).contains(g) by {
            if out@.contains_key(g) {
                let j = choose|j: int| 0 <= j < n && st@.actors[#[trigger] order[j]].group == g;
                assert(order.contains(order[j]));
                assert(st.actors@.dom().contains(order[j]));
                assert(st@.actors.contains_key(order[j]));
            }
            if actor_groups(st@).contains(g) {
                let k = choose|k: Seq<char>| #[trigger]
                    st@.actors.contains_key(k) && st@.actors[k].group == g;
                assert(st.actors@.dom().contains(k));
                let j = order.index_of(k);
                assert(order[j] == k);
                assert(out@.contains_key(g));
            }
        }
        assert(out@.dom() =~= actor_groups(st@));
    }
    out.keys()
}

/// The complaint about a stop whose scope is unsaid, or said twice.
pub open spec fn stop_complaint(s: StateV) -> Seq<char> {
    let groups = ordered(actor_groups(s));
    "actor_stop takes a group or all. Groups: "@ + (if groups.len() == 0 {
        "none"@
    } else {
        joined(groups, ", "@)
    })
}

/// What a stop does: kills what it reaches, where its scope is said once.
///
/// The wide form has to be requested: this binary is also installed as `ray`,
/// where an inherited `ray stop` in an entrypoint would otherwise reach every
/// group on the cluster.
pub open spec fn stopped(
    s: StateV,
    group: Seq<char>,
    all: bool,
    now: u64,
    by_island: bool,
) -> (StateV, Result<Seq<KillV>, Seq<char>>) {
    if (group.len() == 0) == !all {
        (s, Err(stop_complaint(s)))
    } else {
        let (t, kills) = all_killed(s, stoppable(s, group, all), now, by_island);
        (t, Ok(kills))
    }
}

/// Kills a group's actors, or every group's with `all`. Neither leaves the
/// scope unsaid and both contradict, so either is refused.
pub fn stop_actors(st: &mut State, group: &str, all: bool, now: u64, by_island: bool) -> (r: Result<
    Vec<Kill>,
    String,
>)
    ensures
        ({
            let (t, want) = stopped(old(st)@, group@, all, now, by_island);
            &&& final(st)@ == t
            &&& match r {
                Ok(v) => want == Ok::<Seq<KillV>, Seq<char>>(kill_views(v@)),
                Err(e) => want == Err::<Seq<KillV>, Seq<char>>(e@),
            }
        }),
{
    if group.is_empty() == !all {
        let groups = groups_with_actors(st);
        let mut e = "actor_stop takes a group or all. Groups: ".to_string();
        if groups.len() == 0 {
            e.append("none");
        } else {
            e.append(join(&groups, ", ").as_str());
        }
        return Err(e);
    }
    let ids = to_stop(st, group, all);
    Ok(kill_all(st, &ids, now, by_island))
}

// ---------------------------------------------------------------------------
// Orphans
// ---------------------------------------------------------------------------
/// Whether a client holds a driver session.
pub open spec fn in_session(s: StateV, client: Seq<char>) -> bool {
    s.clients.contains_key(client) && s.clients[client].has_session
}

/// The live actors in a group that a new driver session for it replaces.
pub open spec fn orphans(s: StateV, group: Seq<char>, client: Seq<char>) -> Seq<Seq<char>> {
    those(
        ordered(s.actors.dom()),
        |k: Seq<char>|
            s.actors[k].group == group && s.actors[k].owner != client && !(s.actors[k].state is Dead)
                && !in_session(s, s.actors[k].owner),
    )
}

/// The live actors in `group` that a new driver session for it replaces.
///
/// A group holds one driver session, so an actor whose owner holds none
/// belongs to a driver that is gone. An adopted actor has no reap pending,
/// so killing it here is the only thing that frees its GPUs.
pub fn orphans_of(st: &State, group: &str, client: &str) -> (r: Vec<String>)
    ensures
        texts(r@) == orphans(st@, group@, client@),
{
    let n: usize = st.actors.len();
    let ghost order = st.actors.order();
    let ghost s = st@;
    let mut out: Vec<String> = Vec::new();
    let mut i: usize = 0;
    proof {
        assert(s.actors.dom() =~= st.actors@.dom());
        assert(texts(out@) =~= Seq::<Seq<char>>::empty());
    }
    while i < n
        invariant
            i <= n,
            n == order.len(),
            order == st.actors.order(),
            s == st@,
            texts(out@) == those(
                order.take(i as int),
                |k: Seq<char>|
                    s.actors[k].group == group@ && s.actors[k].owner != client@ && !(
                    s.actors[k].state is Dead) && !in_session(s, s.actors[k].owner),
            ),
        decreases n - i,
    {
        let a = st.actors.val_at(i);
        proof {
            assert(order.take(i + 1).drop_last() =~= order.take(i as int));
            assert(order.take(i + 1).last() == order[i as int]);
            assert(s.actors[order[i as int]] == a.deep_view());
        }
        let held = match st.clients.get(a.owner.as_str()) {
            Some(c) => c.has_session,
            None => false,
        };
        if same(a.group.as_str(), group) && !same(a.owner.as_str(), client) && !a.dead()
            && !held {
            let ghost was = out@;
            out.push(st.actors.key_at(i).clone());
            proof {
                assert(texts(out@) =~= texts(was).push(order[i as int]));
            }
        }
        i += 1;
    }
    proof {
        assert(order.take(order.len() as int) =~= order);
    }
    out
}

// ---------------------------------------------------------------------------
// Refs
// ---------------------------------------------------------------------------
/// What a ref id currently stands for.
#[derive(Debug)]
pub enum Res {
    Pending,
    Ready { ok: bool, payload: Vec<u8> },
    ActorDied { reason: String },
    Unknown,
}

/// A `Res` as a mathematical value.
pub enum ResV {
    Pending,
    Ready { ok: bool, payload: Seq<u8> },
    ActorDied { reason: Seq<char> },
    Unknown,
}

impl View for Res {
    type V = ResV;

    open spec fn view(&self) -> ResV {
        match self {
            Res::Pending => ResV::Pending,
            Res::Ready { ok, payload } => ResV::Ready { ok: *ok, payload: payload@ },
            Res::ActorDied { reason } => ResV::ActorDied { reason: reason@ },
            Res::Unknown => ResV::Unknown,
        }
    }
}

/// What a ref id currently stands for. An id that starts with `p:` is a
/// placement group, which resolves once it is created; any other is a call's.
pub open spec fn resolved(s: StateV, id: Seq<char>) -> ResV {
    if has_prefix(id, "p:"@) {
        if !s.pgs.contains_key(id) {
            ResV::Unknown
        } else {
            match s.pgs[id].state {
                PgState::Created => ResV::Ready { ok: true, payload: Seq::empty() },
                PgState::Pending => ResV::Pending,
                PgState::Removed => ResV::ActorDied {
                    reason: match s.pgs[id].fail_reason {
                        Some(r) => r,
                        None => "placement group removed"@,
                    },
                },
            }
        }
    } else if !s.refs.contains_key(id) {
        ResV::Unknown
    } else {
        match s.refs[id].state {
            RefStateV::Pending => ResV::Pending,
            RefStateV::Ready { ok, payload } => ResV::Ready { ok, payload },
            RefStateV::ActorDied { reason } => ResV::ActorDied { reason },
        }
    }
}

fn copy_bytes(v: &Vec<u8>) -> (r: Vec<u8>)
    ensures
        r@ == v@,
{
    let mut out: Vec<u8> = Vec::new();
    let mut i: usize = 0;
    while i < v.len()
        invariant
            i <= v@.len(),
            out@ == v@.take(i as int),
        decreases v@.len() - i,
    {
        out.push(v[i]);
        proof {
            assert(out@ =~= v@.take(i + 1));
        }
        i += 1;
    }
    proof {
        assert(out@ =~= v@);
    }
    out
}

/// What a ref currently holds.
///
/// Every id holds its type, so this reads the prefix rather than inferring
/// from what the id is not.
pub fn resolve_ref(st: &State, id: &str) -> (r: Res)
    ensures
        r@ == resolved(st@, id@),
{
    if starts_with(id, "p:") {
        return match st.pgs.get(id) {
            None => Res::Unknown,
            Some(pg) => match pg.state {
                PgState::Created => {
                    let payload: Vec<u8> = Vec::new();
                    proof {
                        assert(payload@ =~= Seq::<u8>::empty());
                    }
                    Res::Ready { ok: true, payload }
                },
                PgState::Pending => Res::Pending,
                PgState::Removed => Res::ActorDied {
                    reason: match &pg.fail_reason {
                        Some(r) => r.clone(),
                        None => "placement group removed".to_string(),
                    },
                },
            },
        };
    }
    match st.refs.get(id) {
        None => Res::Unknown,
        Some(r) => match &r.state {
            RefState::Pending => Res::Pending,
            RefState::Ready { ok, payload } => Res::Ready { ok: *ok, payload: copy_bytes(payload) },
            RefState::ActorDied { reason } => Res::ActorDied { reason: reason.clone() },
        },
    }
}

/// What one look at a ref comes to.
#[derive(Debug)]
pub enum Got {
    /// The value, or the exception.
    Value { ok: bool, payload: Vec<u8> },
    /// Why the actor died.
    Died { reason: String },
    /// Nothing goes by this id.
    Unknown { error: String },
    /// The time is up.
    Timeout,
    /// Look again when something changes.
    Wait,
}

/// A `Got` as a mathematical value.
pub enum GotV {
    Value { ok: bool, payload: Seq<u8> },
    Died { reason: Seq<char> },
    Unknown { error: Seq<char> },
    Timeout,
    Wait,
}

impl View for Got {
    type V = GotV;

    open spec fn view(&self) -> GotV {
        match self {
            Got::Value { ok, payload } => GotV::Value { ok: *ok, payload: payload@ },
            Got::Died { reason } => GotV::Died { reason: reason@ },
            Got::Unknown { error } => GotV::Unknown { error: error@ },
            Got::Timeout => GotV::Timeout,
            Got::Wait => GotV::Wait,
        }
    }
}

/// What one look at a ref comes to, with the time up or not.
pub open spec fn looked(s: StateV, id: Seq<char>, expired: bool) -> GotV {
    match resolved(s, id) {
        ResV::Ready { ok, payload } => GotV::Value { ok, payload },
        ResV::ActorDied { reason } => GotV::Died { reason },
        ResV::Unknown => GotV::Unknown { error: "unknown ref "@ + id },
        ResV::Pending => if expired {
            GotV::Timeout
        } else {
            GotV::Wait
        },
    }
}

/// One look at a ref that a client waits on. A ref that has resolved is
/// answered even when the time is up.
pub fn do_get(st: &State, id: &str, expired: bool) -> (r: Got)
    ensures
        r@ == looked(st@, id@, expired),
{
    match resolve_ref(st, id) {
        Res::Ready { ok, payload } => Got::Value { ok, payload },
        Res::ActorDied { reason } => Got::Died { reason },
        Res::Unknown => {
            let mut error = "unknown ref ".to_string();
            error.append(id);
            Got::Unknown { error }
        },
        Res::Pending => if expired {
            Got::Timeout
        } else {
            Got::Wait
        },
    }
}

/// Those of some refs that have resolved, in the order given. A ref that
/// failed counts as resolved, and so does one that nothing goes by.
pub open spec fn settled(s: StateV, ids: Seq<Seq<char>>) -> Seq<Seq<char>> {
    those(ids, |k: Seq<char>| !(resolved(s, k) is Pending))
}

/// What one look at several refs comes to: those that have resolved, capped at
/// the number asked for, once there are as many as can be; else none yet.
pub open spec fn waited(s: StateV, ids: Seq<Seq<char>>, want: nat, expired: bool) -> Option<
    Seq<Seq<char>>,
> {
    let ready = settled(s, ids);
    if ready.len() >= want || ready.len() >= ids.len() {
        Some(if ready.len() > want {
            ready.take(want as int)
        } else {
            ready
        })
    } else if expired {
        Some(ready)
    } else {
        None
    }
}

/// The texts of an optional list.
pub open spec fn opt_list(v: Option<Vec<String>>) -> Option<Seq<Seq<char>>> {
    match v {
        Some(x) => Some(texts(x@)),
        None => None,
    }
}

/// One look at several refs that a client waits on for `want` of them. None
/// means to look again when something changes.
pub fn do_wait(st: &State, ids: &Vec<String>, want: usize, expired: bool) -> (r: Option<
    Vec<String>,
>)
    ensures
        opt_list(r) == waited(st@, texts(ids@), want as nat, expired),
{
    let ghost all = texts(ids@);
    let ghost s = st@;
    let mut ready: Vec<String> = Vec::new();
    let mut i: usize = 0;
    proof {
        assert(texts(ready@) =~= Seq::<Seq<char>>::empty());
    }
    while i < ids.len()
        invariant
            i <= ids@.len(),
            all == texts(ids@),
            s == st@,
            texts(ready@) == those(
                all.take(i as int),
                |k: Seq<char>| !(resolved(s, k) is Pending),
            ),
        decreases ids@.len() - i,
    {
        proof {
            assert(all.take(i + 1).drop_last() =~= all.take(i as int));
            assert(all.take(i + 1).last() == ids@[i as int]@);
        }
        let settled = match resolve_ref(st, ids[i].as_str()) {
            Res::Pending => false,
            _ => true,
        };
        if settled {
            let ghost was = ready@;
            ready.push(ids[i].clone());
            proof {
                assert(texts(ready@) =~= texts(was).push(ids@[i as int]@));
            }
        }
        i += 1;
    }
    proof {
        assert(all.take(all.len() as int) =~= all);
    }
    if ready.len() >= want || ready.len() >= ids.len() {
        if ready.len() > want {
            let ghost was = texts(ready@);
            ready.truncate(want);
            proof {
                assert(texts(ready@) =~= was.take(want as int));
            }
        }
        Some(ready)
    } else if expired {
        Some(ready)
    } else {
        None
    }
}

} // verus!
