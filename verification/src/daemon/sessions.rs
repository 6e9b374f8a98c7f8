//! Client sessions: opening one, closing one, and the head moving away.

use vstd::prelude::*;
use vstd::string::*;

use crate::common::dict::{drop_keys, lemma_increasing_distinct, lemma_those, lists, ordered, those};
use crate::common::json::{meaning, Json, JsonV};
use crate::common::text::{dec, decimal, same, texts};
use crate::daemon::actors::{all_killed, kill_all, kill_views, orphans, orphans_of, Kill, KillV};
use crate::daemon::calls::{bump, client_group, group_of, next, removed_row};
use crate::daemon::claims::{all_released, release_all, Refusal, RefusalV};
use crate::daemon::ident::{client_node, client_node_of};
use crate::daemon::place::{agent_patches, pg_agent_changes, placed, row_patch, row_set, try_place};
use crate::daemon::proto::{major_matches, shares_major, PROTO};
use crate::daemon::state::{
    patch_views, ClientInfo, ClientV, Counters, Patch, PatchV, PgState, PgV, State, StateV,
};
use crate::daemon::status::{client_row, client_row_of, pg_row, pg_row_of};

verus! {

broadcast use meaning;

// ---------------------------------------------------------------------------
// Patches of client rows
// ---------------------------------------------------------------------------
/// A patch that stores, or removes, a client's row.
pub open spec fn client_patch_of(id: Seq<char>, row: Option<JsonV>) -> PatchV {
    PatchV { at: seq!["clients"@, id], value: row }
}

/// A patch that stores, or removes, a client's row.
pub fn client_patch(id: &str, row: Option<Json>) -> (r: Patch)
    ensures
        r.deep_view() == client_patch_of(
            id@,
            match row {
                Some(j) => Some(j.v()),
                None => None,
            },
        ),
{
    let mut at: Vec<String> = Vec::new();
    at.push("clients".to_string());
    at.push(id.to_string());
    proof {
        assert(texts(at@) =~= seq!["clients"@, id@]);
    }
    Patch { at, value: row }
}

// ---------------------------------------------------------------------------
// Opening a session
// ---------------------------------------------------------------------------
/// What a client says when it connects.
#[derive(Debug)]
pub struct Hello {
    pub proto: String,
    pub client_id: String,
    pub group: String,
    /// Claims the group's one driver session.
    pub session: bool,
    /// "driver" or "cli".
    pub kind: String,
    /// The box the client is on. Empty leaves the daemon to read it off the
    /// connection.
    pub node_ip: String,
}

/// A `Hello` as a mathematical value.
pub struct HelloV {
    pub proto: Seq<char>,
    pub client_id: Seq<char>,
    pub group: Seq<char>,
    pub session: bool,
    pub kind: Seq<char>,
    pub node_ip: Seq<char>,
}

impl View for Hello {
    type V = HelloV;

    open spec fn view(&self) -> HelloV {
        HelloV {
            proto: self.proto@,
            client_id: self.client_id@,
            group: self.group@,
            session: self.session,
            kind: self.kind@,
            node_ip: self.node_ip@,
        }
    }
}

/// The refusal of a peer whose version this build does not read.
pub open spec fn proto_refusal(offered: Seq<char>) -> RefusalV {
    RefusalV {
        code: "proto_mismatch"@,
        error: "proto "@ + PROTO@ + " here, "@ + offered + " offered"@,
        head: Seq::empty(),
    }
}

/// The refusal of a peer whose version this build does not read.
pub fn refuse_proto(offered: &str) -> (r: Refusal)
    ensures
        r@ == proto_refusal(offered@),
{
    let mut error = "proto ".to_string();
    error.append(PROTO);
    error.append(" here, ");
    error.append(offered);
    error.append(" offered");
    let head = String::new();
    proof {
        assert(head@ =~= Seq::<char>::empty());
    }
    Refusal { code: "proto_mismatch".to_string(), error, head }
}

/// Whether another client holds a group's driver session.
pub open spec fn session_taken(s: StateV, group: Seq<char>, client: Seq<char>) -> bool {
    exists|k: Seq<char>| #[trigger]
        s.clients.contains_key(k) && s.clients[k].group == group && s.clients[k].has_session && k
            != client
}

/// The refusal of a second driver session.
pub open spec fn session_refusal(group: Seq<char>) -> RefusalV {
    RefusalV {
        code: "duplicate_session"@,
        error: "group '"@ + group
            + "' already has an active driver session. Run a second instance under a different MENTAT_GROUP"@,
        head: Seq::empty(),
    }
}

/// Why a client is refused, if it is.
pub open spec fn hello_refusal(s: StateV, h: HelloV) -> Option<RefusalV> {
    if !shares_major(PROTO@, h.proto) {
        Some(proto_refusal(h.proto))
    } else if h.session && session_taken(s, h.group, h.client_id) {
        Some(session_refusal(h.group))
    } else {
        None
    }
}

/// A client's row after it said hello. The worker threads of a driver share
/// its row.
pub open spec fn hello_row(
    s: StateV,
    h: HelloV,
    peer_ip: Seq<char>,
    mine: Seq<Seq<char>>,
) -> ClientV {
    let had = if s.clients.contains_key(h.client_id) {
        s.clients[h.client_id]
    } else {
        ClientV {
            id: h.client_id,
            group: h.group,
            kind: h.kind,
            node_id: client_node_of(
                s,
                if h.node_ip.len() == 0 {
                    peer_ip
                } else {
                    h.node_ip
                },
                mine,
            ),
            has_session: false,
        }
    };
    ClientV { group: h.group, has_session: had.has_session || h.session, ..had }
}

/// The state after a client said hello.
pub open spec fn greeted(
    s: StateV,
    h: HelloV,
    peer_ip: Seq<char>,
    mine: Seq<Seq<char>>,
) -> StateV {
    let c = hello_row(s, h, peer_ip, mine);
    let t = StateV {
        clients: s.clients.insert(h.client_id, c),
        counters: Counters { clients_total: next(s.counters.clients_total), ..s.counters },
        ..s
    };
    if h.session {
        t.emit(
            "driver_connected"@,
            seq![client_patch_of(h.client_id, Some(client_row_of(c)))],
            Seq::empty(),
        )
    } else {
        t
    }
}

/// What a client that is let in is told, and the actors that its session
/// replaces.
#[derive(Debug)]
pub struct Welcome {
    pub node_id: String,
    pub orphans: Vec<String>,
}

fn is_session_taken(st: &State, group: &str, client: &str) -> (r: bool)
    ensures
        r == session_taken(st@, group@, client@),
{
    let n: usize = st.clients.len();
    let ghost order = st.clients.order();
    let mut i: usize = 0;
    while i < n
        invariant
            i <= n,
            n == order.len(),
            order == st.clients.order(),
            lists(order, st.clients@.dom()),
            forall|j: int|
                0 <= j < i ==> !(st@.clients[#[trigger] order[j]].group == group@
                    && st@.clients[order[j]].has_session && order[j] != client@),
        decreases n - i,
    {
        let c = st.clients.val_at(i);
        proof {
            assert(st@.clients[order[i as int]] == c.deep_view());
            assert(st@.clients.contains_key(order[i as int]));
        }
        if same(c.group.as_str(), group) && c.has_session && !same(
            st.clients.key_at(i).as_str(),
            client,
        ) {
            return true;
        }
        i += 1;
    }
    proof {
        if session_taken(st@, group@, client@) {
            let k = choose|k: Seq<char>| #[trigger]
                st@.clients.contains_key(k) && st@.clients[k].group == group@
                    && st@.clients[k].has_session && k != client@;
            assert(st.clients@.dom().contains(k));
            let j = order.index_of(k);
            assert(order[j] == k);
        }
    }
    false
}

/// Lets a client in, or refuses it. `mine` lists every address of this box.
///
/// A group holds one driver session. A new one replaces the live actors whose
/// owner holds none.
pub fn hello(st: &mut State, h: &Hello, peer_ip: &str, mine: &Vec<String>) -> (r: Result<
    Welcome,
    Refusal,
>)
    ensures
        match r {
            Err(e) => hello_refusal(old(st)@, h@) == Some(e@) && final(st)@ == old(st)@,
            Ok(w) => {
                &&& hello_refusal(old(st)@, h@) is None
                &&& final(st)@ == greeted(old(st)@, h@, peer_ip@, texts(mine@))
                &&& w.node_id@ == hello_row(old(st)@, h@, peer_ip@, texts(mine@)).node_id
                &&& texts(w.orphans@) == (if h.session {
                    orphans(old(st)@, h.group@, h.client_id@)
                } else {
                    Seq::empty()
                })
            },
        },
{
    let ghost s = st@;
    let ghost hv = h@;
    if !major_matches(h.proto.as_str()) {
        return Err(refuse_proto(h.proto.as_str()));
    }
    if h.session && is_session_taken(st, h.group.as_str(), h.client_id.as_str()) {
        let mut error = "group '".to_string();
        error.append(h.group.as_str());
        error.append(
            "' already has an active driver session. Run a second instance under a different MENTAT_GROUP",
        );
        let head = String::new();
        proof {
            assert(head@ =~= Seq::<char>::empty());
        }
        return Err(Refusal { code: "duplicate_session".to_string(), error, head });
    }
    let from = if h.node_ip.as_str().is_empty() {
        peer_ip
    } else {
        h.node_ip.as_str()
    };
    let node = client_node(st, from, mine);
    let gone = if h.session {
        orphans_of(st, h.group.as_str(), h.client_id.as_str())
    } else {
        let none: Vec<String> = Vec::new();
        proof {
            assert(texts(none@) =~= Seq::<Seq<char>>::empty());
        }
        none
    };
    let (id, kind, node_id, had_session) = match st.clients.get(h.client_id.as_str()) {
        Some(c) => (c.id.clone(), c.kind.clone(), c.node_id.clone(), c.has_session),
        None => (h.client_id.clone(), h.kind.clone(), node, false),
    };
    let row = ClientInfo {
        id,
        group: h.group.clone(),
        kind,
        node_id: node_id.clone(),
        has_session: had_session || h.session,
    };
    let ghost rv = row.deep_view();
    proof {
        assert(rv == hello_row(s, hv, peer_ip@, texts(mine@)));
    }
    let mut patch: Vec<Patch> = Vec::new();
    patch.push(client_patch(h.client_id.as_str(), Some(client_row(&row))));
    proof {
        assert(patch_views(patch@) =~= seq![
            client_patch_of(hv.client_id, Some(client_row_of(rv))),
        ]);
        reveal_strlit("");
        assert(""@ =~= Seq::<char>::empty());
    }
    st.clients.insert(h.client_id.clone(), row);
    st.counters.clients_total = bump(st.counters.clients_total);
    proof {
        assert(st@.clients =~= s.clients.insert(hv.client_id, rv));
    }
    if h.session {
        st.emit_patch("driver_connected", patch, "");
    }
    proof {
        assert(st@ =~= greeted(s, hv, peer_ip@, texts(mine@)));
    }
    Ok(Welcome { node_id, orphans: gone })
}

// ---------------------------------------------------------------------------
// Closing a connection
// ---------------------------------------------------------------------------
/// Whether a closed connection takes its session with it. One that closes on a
/// daemon that is not the head was cut by a head change, and its actors belong
/// to the new head.
pub open spec fn ends_session(s: StateV, is_session: bool) -> bool {
    is_session && s.head_node_id == s.node_id
}

/// The state after a connection closed that took no session with it. A CLI
/// connection's row leaves with it; a driver's leaves with its session.
pub open spec fn conn_gone(s: StateV, client: Seq<char>) -> StateV {
    if s.clients.contains_key(client) && (!s.clients[client].has_session || s.head_node_id
        != s.node_id) {
        StateV { clients: s.clients.remove(client), ..s }
    } else {
        s
    }
}

/// The state after a driver's session closed.
pub open spec fn driver_gone(s: StateV, client: Seq<char>) -> StateV {
    StateV { clients: s.clients.remove(client), ..s }.emit(
        "driver_disconnected"@,
        seq![client_patch_of(client, None)],
        Seq::empty(),
    )
}

/// Takes out the row of a driver whose session closed, and tells its group.
/// The identity goes at once even where its resources are kept for a while: a
/// restarting engine is a new client that must be able to open its session.
pub fn reap_client(st: &mut State, client: &str) -> (r: String)
    ensures
        final(st)@ == driver_gone(old(st)@, client@),
        r@ == group_of(old(st)@, client@),
{
    let ghost s = st@;
    let group = client_group(st, client);
    st.clients.remove(client);
    proof {
        assert(st@.clients =~= s.clients.remove(client@));
    }
    let mut patch: Vec<Patch> = Vec::new();
    patch.push(client_patch(client, None));
    proof {
        assert(patch_views(patch@) =~= seq![client_patch_of(client@, None)]);
        reveal_strlit("");
        assert(""@ =~= Seq::<char>::empty());
    }
    st.emit_patch("driver_disconnected", patch, "");
    group
}

/// What is left to do about a connection that closed.
#[derive(Debug)]
pub enum Closed {
    /// Nothing.
    Done,
    /// Reap the driver's resources, in the group named.
    Reap { group: String },
}

/// Closes a client's connection. A driver's session goes with the connection
/// that opened it, unless the head has moved away.
pub fn client_closed(st: &mut State, client: &str, is_session: bool) -> (r: Closed)
    ensures
        match r {
            Closed::Done => !ends_session(old(st)@, is_session) && final(st)@ == conn_gone(
                old(st)@,
                client@,
            ),
            Closed::Reap { group } => ends_session(old(st)@, is_session) && final(st)@
                == driver_gone(old(st)@, client@) && group@ == group_of(old(st)@, client@),
        },
{
    let ghost s = st@;
    let moved = !same(st.head_node_id.as_str(), st.node_id.as_str());
    if is_session && !moved {
        let group = reap_client(st, client);
        return Closed::Reap { group };
    }
    let drop = match st.clients.get(client) {
        Some(c) => !c.has_session || moved,
        None => false,
    };
    if drop {
        st.clients.remove(client);
        proof {
            assert(st@.clients =~= s.clients.remove(client@));
        }
    }
    Closed::Done
}

// ---------------------------------------------------------------------------
// Reaping
// ---------------------------------------------------------------------------
/// Whether a placement group is removed with its owner.
pub open spec fn reaped_pg(p: PgV, client: Seq<char>) -> bool {
    p.owner == client && p.state != PgState::Removed
}

/// The placement groups after their owner went.
pub open spec fn reaped_pgs(m: Map<Seq<char>, PgV>, client: Seq<char>, now: u64) -> Map<
    Seq<char>,
    PgV,
> {
    Map::new(
        |k: Seq<char>| m.contains_key(k),
        |k: Seq<char>|
            if reaped_pg(m[k], client) {
                removed_row(m[k], now)
            } else {
                m[k]
            },
    )
}

/// The state after it is told that some placement groups were removed.
pub open spec fn told_removed(s: StateV, ids: Seq<Seq<char>>, detail: Seq<char>) -> StateV
    decreases ids.len(),
{
    if ids.len() == 0 {
        s
    } else {
        let t = told_removed(s, ids.drop_last(), detail);
        let id = ids.last();
        t.emit(
            "pg_removed"@,
            seq![row_set(t.pgs[id].group, "placement_groups"@, id, pg_row_of(t.pgs[id]))]
                + pg_agent_changes(t, id),
            detail,
        )
    }
}

/// The live actors of an owner.
pub open spec fn owned_actors(s: StateV, client: Seq<char>) -> Seq<Seq<char>> {
    those(
        ordered(s.actors.dom()),
        |k: Seq<char>| s.actors[k].owner == client && !(s.actors[k].state is Dead),
    )
}

/// The state without the refs of an owner.
pub open spec fn without_refs(s: StateV, client: Seq<char>) -> StateV {
    StateV {
        refs: Map::new(
            |k: Seq<char>| s.refs.contains_key(k) && s.refs[k].owner != client,
            |k: Seq<char>| s.refs[k],
        ),
        ..s
    }
}

/// What is done about a dead driver's resources, and the state after it: its
/// claims are given up, its placement groups removed, its actors killed and
/// its refs dropped, and what waited for its GPUs is placed.
pub open spec fn reaped(
    s: StateV,
    client: Seq<char>,
    group: Seq<char>,
    now: u64,
    by_island: bool,
) -> (StateV, Seq<KillV>) {
    let a = all_released(s, client);
    let ids = owned_actors(a, client);
    let gone = those(ordered(a.pgs.dom()), |k: Seq<char>| reaped_pg(a.pgs[k], client));
    let b = told_removed(
        StateV { pgs: reaped_pgs(a.pgs, client, now), ..a },
        gone,
        "driver session closed"@,
    );
    let c = if ids.len() > 0 {
        b.emit(
            "driver_gone_reaping"@,
            Seq::empty(),
            decimal(ids.len()) + " actors in group "@ + group,
        )
    } else {
        b
    };
    let (d, kills) = all_killed(c, ids, now, by_island);
    (placed(without_refs(d, client), by_island), kills)
}

fn find_owned(st: &State, client: &str) -> (r: Vec<String>)
    ensures
        texts(r@) == owned_actors(st@, client@),
{
    let n: usize = st.actors.len();
    let ghost order = st.actors.order();
    let ghost s = st@;
    let mut out: Vec<String> = Vec::new();
    let mut i: usize = 0;
    proof {
        assert(s.actors.dom() =~= st.actors@.dom());
        assert(texts(out@) =~= Seq::<Seq<char>>::empty());
    }
    while i < n
        invariant
            i <= n,
            n == order.len(),
            order == st.actors.order(),
            s == st@,
            texts(out@) == those(
                order.take(i as int),
                |k: Seq<char>| s.actors[k].owner == client@ && !(s.actors[k].state is Dead),
            ),
        decreases n - i,
    {
        let a = st.actors.val_at(i);
        proof {
            assert(order.take(i + 1).drop_last() =~= order.take(i as int));
            assert(order.take(i + 1).last() == order[i as int]);
            assert(s.actors[order[i as int]] == a.deep_view());
        }
        if same(a.owner.as_str(), client) && !a.dead() {
            let ghost was = out@;
            out.push(st.actors.key_at(i).clone());
            proof {
                assert(texts(out@) =~= texts(was).push(order[i as int]));
            }
        }
        i += 1;
    }
    proof {
        assert(order.take(order.len() as int) =~= order);
    }
    out
}

fn remove_owned_pgs(st: &mut State, client: &str, now: u64) -> (r: Vec<String>)
    ensures
        final(st)@ == (StateV { pgs: reaped_pgs(old(st)@.pgs, client@, now), ..old(st)@ }),
        texts(r@) == those(
            ordered(old(st)@.pgs.dom()),
            |k: Seq<char>| reaped_pg(old(st)@.pgs[k], client@),
        ),
        forall|i: int| 0 <= i < r@.len() ==> old(st)@.pgs.contains_key((#[trigger] r@[i])@),
{
    let ghost s = st@;
    let ghost was = st.pgs@;
    let n: usize = st.pgs.len();
    let ghost order = st.pgs.order();
    let mut out: Vec<String> = Vec::new();
    let mut i: usize = 0;
    proof {
        assert(s.pgs.dom() =~= was.dom());
        assert(texts(out@) =~= Seq::<Seq<char>>::empty());
    }
    while i < n
        invariant
            i <= n,
            n == order.len(),
            order == st.pgs.order(),
            lists(order, was.dom()),
            st@ == (StateV { pgs: st@.pgs, ..s }),
            st.pgs@.dom() == was.dom(),
            s.pgs.dom() == was.dom(),
            forall|k: Seq<char>| #[trigger]
                was.contains_key(k) ==> s.pgs[k] == was[k].deep_view(),
            forall|j: int|
                0 <= j < i ==> st.pgs@[#[trigger] order[j]].deep_view() == (if reaped_pg(
                    s.pgs[order[j]],
                    client@,
                ) {
                    removed_row(s.pgs[order[j]], now)
                } else {
                    s.pgs[order[j]]
                }),
            forall|j: int| i <= j < n ==> st.pgs@[#[trigger] order[j]] == was[order[j]],
            forall|i: int| 0 <= i < out@.len() ==> s.pgs.contains_key((#[trigger] out@[i])@),
            texts(out@) == those(
                order.take(i as int),
                |k: Seq<char>| reaped_pg(s.pgs[k], client@),
            ),
        decreases n - i,
    {
        let ghost mid = st.pgs@;
        let ghost key = order[i as int];
        proof {
            assert(order.contains(key));
            assert(was.dom().contains(key));
            assert(order.take(i + 1).drop_last() =~= order.take(i as int));
            assert(order.take(i + 1).last() == key);
        }
        let name = st.pgs.key_at(i).clone();
        let p = st.pgs.val_at_mut(i);
        let hit = same(p.owner.as_str(), client) && p.state != PgState::Removed;
        if hit {
            p.state = PgState::Removed;
            p.removed_ms = Some(now);
        }
        if hit {
            let ghost had = out@;
            out.push(name);
            proof {
                assert(texts(out@) =~= texts(had).push(key));
                assert(s.pgs.dom().contains(key));
            }
        }
        proof {
            assert(st.pgs@.dom() =~= was.dom());
            assert forall|j: int| 0 <= j < n && j != i implies st.pgs@[#[trigger] order[j]]
                == mid[order[j]] by {
                if order[j] == key {
                    lemma_increasing_distinct(order, i as int, j);
                }
            }
        }
        i += 1;
    }
    proof {
        assert(order.take(order.len() as int) =~= order);
        let want = reaped_pgs(s.pgs, client@, now);
        assert forall|k: Seq<char>| #[trigger] want.contains_key(k) implies st@.pgs[k]
            == want[k] by {
            assert(was.dom().contains(k));
            let j = order.index_of(k);
            assert(order[j] == k);
        }
        assert(st@.pgs =~= want);
    }
    out
}

proof fn lemma_told_removed_pgs(s: StateV, ids: Seq<Seq<char>>, detail: Seq<char>)
    ensures
        told_removed(s, ids, detail).pgs == s.pgs,
    decreases ids.len(),
{
    if ids.len() > 0 {
        lemma_told_removed_pgs(s, ids.drop_last(), detail);
    }
}

fn tell_removed(st: &mut State, ids: &Vec<String>, detail: &str)
    requires
        forall|i: int| 0 <= i < ids@.len() ==> old(st)@.pgs.contains_key((#[trigger] ids@[i])@),
    ensures
        final(st)@ == told_removed(old(st)@, texts(ids@), detail@),
{
    let ghost s = st@;
    let ghost all = texts(ids@);
    let mut i: usize = 0;
    while i < ids.len()
        invariant
            i <= ids@.len(),
            all == texts(ids@),
            forall|i: int| 0 <= i < ids@.len() ==> s.pgs.contains_key((#[trigger] ids@[i])@),
            st@ == told_removed(s, all.take(i as int), detail@),
        decreases ids@.len() - i,
    {
        let ghost t = st@;
        let ghost id = ids@[i as int]@;
        proof {
            assert(all.take(i + 1).drop_last() =~= all.take(i as int));
            assert(all.take(i + 1).last() == id);
            lemma_told_removed_pgs(s, all.take(i as int), detail@);
            assert(s.pgs.contains_key(ids@[i as int]@));
        }
        let mut patch: Vec<Patch> = Vec::new();
        if let Some(p) = st.pgs.get(ids[i].as_str()) {
            patch.push(
                row_patch(
                    p.group.as_str(),
                    "placement_groups",
                    ids[i].as_str(),
                    Some(pg_row(p)),
                ),
            );
            proof {
                assert(p.deep_view() == t.pgs[id]);
                assert(patch_views(patch@) =~= seq![
                    row_set(t.pgs[id].group, "placement_groups"@, id, pg_row_of(t.pgs[id])),
                ]);
            }
        }
        agent_patches(st, ids[i].as_str(), &mut patch);
        st.emit_patch("pg_removed", patch, detail);
        i += 1;
    }
    proof {
        assert(all.take(all.len() as int) =~= all);
    }
}

fn drop_owned_refs(st: &mut State, client: &str)
    ensures
        final(st)@ == without_refs(old(st)@, client@),
{
    let ghost s = st@;
    let ghost was = st.refs@;
    let n: usize = st.refs.len();
    let ghost order = st.refs.order();
    let mut gone: Vec<String> = Vec::new();
    let mut i: usize = 0;
    proof {
        assert(texts(gone@) =~= Seq::<Seq<char>>::empty());
    }
    while i < n
        invariant
            i <= n,
            n == order.len(),
            order == st.refs.order(),
            lists(order, was.dom()),
            was == st.refs@,
            s == st@,
            texts(gone@) == those(
                order.take(i as int),
                |k: Seq<char>| s.refs[k].owner == client@,
            ),
        decreases n - i,
    {
        let r = st.refs.val_at(i);
        proof {
            assert(order.take(i + 1).drop_last() =~= order.take(i as int));
            assert(order.take(i + 1).last() == order[i as int]);
            assert(s.refs[order[i as int]] == r.deep_view());
        }
        if same(r.owner.as_str(), client) {
            let ghost had = gone@;
            gone.push(st.refs.key_at(i).clone());
            proof {
                assert(texts(gone@) =~= texts(had).push(order[i as int]));
            }
        }
        i += 1;
    }
    proof {
        assert(order.take(order.len() as int) =~= order);
        lemma_those(order, |k: Seq<char>| s.refs[k].owner == client@);
    }
    drop_keys(&mut st.refs, &gone);
    proof {
        let want = without_refs(s, client@).refs;
        assert forall|k: Seq<char>| #[trigger] st@.refs.contains_key(k) == want.contains_key(k) by {
            assert(was.dom().contains(k) == order.contains(k));
        }
        assert(st@.refs =~= want);
    }
}

/// Kill a dead driver's actors, remove its placement groups and refs. Split
/// from `reap_client` so that a grace period can defer just this part.
pub fn reap_client_resources(
    st: &mut State,
    client: &str,
    group: &str,
    now: u64,
    by_island: bool,
) -> (r: Vec<Kill>)
    ensures
        (final(st)@, kill_views(r@)) == reaped(old(st)@, client@, group@, now, by_island),
{
    release_all(st, client);
    let ids = find_owned(st, client);
    let ghost a = st@;
    let gone = remove_owned_pgs(st, client, now);
    proof {
        assert forall|i: int| 0 <= i < gone@.len() implies st@.pgs.contains_key(
            (#[trigger] gone@[i])@,
        ) by {
            assert(a.pgs.contains_key(gone@[i]@));
        }
    }
    tell_removed(st, &gone, "driver session closed");
    if ids.len() > 0 {
        let mut detail = dec(ids.len() as u64);
        detail.append(" actors in group ");
        detail.append(group);
        let none: Vec<Patch> = Vec::new();
        proof {
            assert(patch_views(none@) =~= Seq::<PatchV>::empty());
        }
        st.emit_patch("driver_gone_reaping", none, detail.as_str());
    }
    let kills = kill_all(st, &ids, now, by_island);
    drop_owned_refs(st, client);
    try_place(st, by_island);
    kills
}

} // verus!
