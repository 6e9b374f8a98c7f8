//! Placing groups of bundles on agents.

use vstd::prelude::*;
use vstd::string::*;

use crate::common::dict::{copy_texts, lists, ordered, Dict};
use crate::common::json::{meaning, metas, Json, JsonV};
use crate::common::quote::{debug_quoted, debug_text};
use crate::common::text::{
    before, copied, dec, dec_wide, decimal, listed, opt_text, same, sorts_before, texts,
};
use crate::daemon::claim::Island;
use crate::daemon::state::{
    bundle_views, island_views, opt_bundle, opt_island, patch_views, AgentInfo, AgentV,
    BundleAssignment, BundleV, IslandV, Patch, PatchV, PgState, PgV, State, StateV,
};
use crate::daemon::status::{agent_row, agent_row_of, counts, pg_row, pg_row_of};

verus! {

broadcast use meaning;

// ---------------------------------------------------------------------------
// Patches
// ---------------------------------------------------------------------------
/// The path of a row of a group.
pub open spec fn row_path(group: Seq<char>, kind: Seq<char>, id: Seq<char>) -> Seq<Seq<char>> {
    seq!["groups"@, group, kind, id]
}

/// A patch that stores a row of a group.
pub open spec fn row_set(
    group: Seq<char>,
    kind: Seq<char>,
    id: Seq<char>,
    row: JsonV,
) -> PatchV {
    PatchV { at: row_path(group, kind, id), value: Some(row) }
}

/// A patch that removes a row of a group.
pub open spec fn row_gone(group: Seq<char>, kind: Seq<char>, id: Seq<char>) -> PatchV {
    PatchV { at: row_path(group, kind, id), value: None }
}

/// A patch that stores, or removes, a row of a group.
pub fn row_patch(group: &str, kind: &str, id: &str, value: Option<Json>) -> (r: Patch)
    ensures
        r.deep_view() == (PatchV {
            at: row_path(group@, kind@, id@),
            value: match value {
                Some(j) => Some(j.v()),
                None => None,
            },
        }),
{
    let mut at: Vec<String> = Vec::new();
    at.push("groups".to_string());
    at.push(group.to_string());
    at.push(kind.to_string());
    at.push(id.to_string());
    proof {
        assert(texts(at@) =~= row_path(group@, kind@, id@));
    }
    Patch { at, value }
}

/// The patch for one agent's row, where there is such an agent. Its free GPUs
/// change when a placement group or a live actor on it starts or stops
/// holding some.
pub open spec fn agent_change(s: StateV, id: Seq<char>) -> Seq<PatchV> {
    if s.agents.contains_key(id) {
        seq![row_set(s.agents[id].group, "agents"@, id, agent_row_of(s, s.agents[id]))]
    } else {
        Seq::empty()
    }
}

/// The row patch for one agent.
pub fn agent_patch(st: &State, id: &str) -> (r: Option<Patch>)
    ensures
        match r {
            Some(p) => agent_change(st@, id@) == seq![p.deep_view()],
            None => agent_change(st@, id@).len() == 0,
        },
{
    match st.agents.get(id) {
        Some(a) => Some(row_patch(a.group.as_str(), "agents", id, Some(agent_row(st, a)))),
        None => None,
    }
}

/// Adds the row patch for one agent, where there is such an agent.
pub fn push_agent_patch(st: &State, id: &str, out: &mut Vec<Patch>)
    ensures
        patch_views(final(out)@) == patch_views(old(out)@) + agent_change(st@, id@),
{
    let ghost was = out@;
    match agent_patch(st, id) {
        Some(p) => {
            out.push(p);
            proof {
                assert(patch_views(out@) =~= patch_views(was) + seq![p.deep_view()]);
            }
        },
        None => {
            proof {
                assert(patch_views(out@) =~= patch_views(was) + agent_change(st@, id@));
            }
        },
    }
}

/// The patches for the rows of some agents.
pub open spec fn agent_changes(s: StateV, ids: Seq<Seq<char>>) -> Seq<PatchV>
    decreases ids.len(),
{
    if ids.len() == 0 {
        Seq::empty()
    } else {
        agent_changes(s, ids.drop_last()) + agent_change(s, ids.last())
    }
}

/// The agents that a placement group has reserved GPUs on.
pub open spec fn pg_agents(p: PgV) -> Set<Seq<char>> {
    Set::new(
        |a: Seq<char>|
            exists|i: int|
                0 <= i < p.assignment.len() && (#[trigger] p.assignment[i]) is Some
                    && p.assignment[i]->Some_0.agent == a,
    )
}

/// The patches for each agent a placement group reserves GPUs on.
pub open spec fn pg_agent_changes(s: StateV, pg: Seq<char>) -> Seq<PatchV> {
    if s.pgs.contains_key(pg) {
        agent_changes(s, ordered(pg_agents(s.pgs[pg])))
    } else {
        Seq::empty()
    }
}

/// Adds the row patches for each agent a placement group reserves GPUs on.
pub fn agent_patches(st: &State, pg: &str, out: &mut Vec<Patch>)
    ensures
        patch_views(final(out)@) == patch_views(old(out)@) + pg_agent_changes(st@, pg@),
{
    let ghost start = patch_views(out@);
    let p = match st.pgs.get(pg) {
        Some(p) => p,
        None => {
            proof {
                assert(start + pg_agent_changes(st@, pg@) =~= start);
            }
            return ;
        },
    };
    let ghost bs = bundle_views(p.assignment@);
    let mut ids: Dict<()> = Dict::new();
    let mut i: usize = 0;
    while i < p.assignment.len()
        invariant
            bs == bundle_views(p.assignment@),
            i <= p.assignment@.len(),
            forall|a: Seq<char>| #[trigger]
                ids@.contains_key(a) <==> exists|j: int|
                    0 <= j < i && (#[trigger] bs[j]) is Some && bs[j]->Some_0.agent == a,
        decreases p.assignment@.len() - i,
    {
        let ghost had = ids@;
        proof {
            assert(bs[i as int] == opt_bundle(p.assignment@[i as int]));
        }
        if let Some(b) = &p.assignment[i] {
            ids.insert(b.agent.clone(), ());
        }
        proof {
            assert forall|a: Seq<char>| #[trigger] ids@.contains_key(a) <==> exists|j: int|
                0 <= j < i + 1 && (#[trigger] bs[j]) is Some && bs[j]->Some_0.agent == a by {
                if had.contains_key(a) {
                    let j = choose|j: int|
                        0 <= j < i && (#[trigger] bs[j]) is Some && bs[j]->Some_0.agent == a;
                    assert(0 <= j < i + 1);
                }
                if ids@.contains_key(a) && !had.contains_key(a) {
                    assert(bs[i as int] is Some && bs[i as int]->Some_0.agent == a);
                }
                if bs[i as int] is Some && bs[i as int]->Some_0.agent == a {
                    assert(ids@.contains_key(a));
                }
            }
        }
        i += 1;
    }
    let n: usize = ids.len();
    let ghost order = ids.order();
    proof {
        assert(ids@.dom() =~= pg_agents(p.deep_view()));
        assert(start + agent_changes(st@, order.take(0)) =~= start);
    }
    let mut i: usize = 0;
    while i < n
        invariant
            i <= n,
            n == order.len(),
            order == ids.order(),
            patch_views(out@) == start + agent_changes(st@, order.take(i as int)),
        decreases n - i,
    {
        let id = ids.key_at(i);
        push_agent_patch(st, id.as_str(), out);
        proof {
            let t = order.take(i + 1);
            assert(t.drop_last() =~= order.take(i as int));
            assert(t.last() == id@);
            assert(patch_views(out@) =~= start + agent_changes(st@, t));
        }
        i += 1;
    }
    proof {
        assert(order.take(order.len() as int) =~= order);
    }
}

// ---------------------------------------------------------------------------
// First fit
// ---------------------------------------------------------------------------
/// Which of two agents is filled first: one on the driver's node, then the one
/// that registered first, then by id.
pub open spec fn fills_before(s: StateV, driver: Seq<char>, x: Seq<char>, y: Seq<char>) -> bool {
    let (a, b) = (s.agents[x], s.agents[y]);
    let (p, q) = (a.node_id != driver, b.node_id != driver);
    if p != q {
        q
    } else if a.seq != b.seq {
        a.seq < b.seq
    } else {
        before(x, y)
    }
}

/// Where an agent goes among agents already in order.
pub open spec fn filling_place(
    s: StateV,
    driver: Seq<char>,
    sorted: Seq<Seq<char>>,
    x: Seq<char>,
) -> int
    decreases sorted.len(),
{
    if sorted.len() > 0 && fills_before(s, driver, x, sorted.last()) {
        filling_place(s, driver, sorted.drop_last(), x)
    } else {
        sorted.len() as int
    }
}

/// Whether an agent may take bundles of a group inside a scope.
pub open spec fn eligible(
    a: AgentV,
    group: Seq<char>,
    nodes: Option<Seq<Seq<char>>>,
) -> bool {
    counts(a, group) && (nodes is None || nodes->Some_0.contains(a.node_id))
}

/// The agents that may take bundles, in the order in which they are filled.
pub open spec fn filling_order(
    s: StateV,
    group: Seq<char>,
    driver: Seq<char>,
    nodes: Option<Seq<Seq<char>>>,
    keys: Seq<Seq<char>>,
) -> Seq<Seq<char>>
    decreases keys.len(),
{
    if keys.len() == 0 {
        Seq::empty()
    } else {
        let had = filling_order(s, group, driver, nodes, keys.drop_last());
        let x = keys.last();
        if eligible(s.agents[x], group, nodes) {
            had.insert(filling_place(s, driver, had, x), x)
        } else {
            had
        }
    }
}

/// An agent and the GPUs it has left.
#[derive(Debug)]
pub struct Slot {
    pub agent: String,
    pub free: Vec<u32>,
}

/// A `Slot` as a mathematical value.
pub struct SlotV {
    pub agent: Seq<char>,
    pub free: Seq<u32>,
}

impl View for Slot {
    type V = SlotV;

    open spec fn view(&self) -> SlotV {
        SlotV { agent: self.agent@, free: self.free@ }
    }
}

/// Slots as mathematical values.
pub open spec fn slot_views(v: Seq<Slot>) -> Seq<SlotV> {
    Seq::new(v.len(), |i: int| v[i]@)
}

/// Each agent with its free GPUs.
pub open spec fn slots(s: StateV, ids: Seq<Seq<char>>) -> Seq<SlotV> {
    Seq::new(ids.len(), |i: int| SlotV { agent: ids[i], free: s.free_gpus(ids[i]) })
}

/// The GPUs a bundle takes: at least one.
pub open spec fn need_of(b: u32) -> nat {
    if b == 0 {
        1
    } else {
        b as nat
    }
}

/// The first slot with room, or the number of slots.
pub open spec fn first_room(pool: Seq<SlotV>, need: nat) -> int
    decreases pool.len(),
{
    if pool.len() == 0 || pool[0].free.len() >= need {
        0
    } else {
        1 + first_room(pool.drop_first(), need)
    }
}

pub proof fn lemma_first_room(pool: Seq<SlotV>, need: nat)
    ensures
        0 <= first_room(pool, need) <= pool.len(),
        first_room(pool, need) < pool.len() ==> pool[first_room(pool, need)].free.len() >= need,
        forall|j: int|
            0 <= j < first_room(pool, need) ==> (#[trigger] pool[j]).free.len() < need,
    decreases pool.len(),
{
    if pool.len() > 0 && pool[0].free.len() < need {
        let t = pool.drop_first();
        lemma_first_room(t, need);
        assert forall|j: int| 0 <= j < first_room(pool, need) implies (#[trigger] pool[j]).free.len()
            < need by {
            if j > 0 {
                assert(t[j - 1] == pool[j]);
            }
        }
    }
}

/// The bundles from `bundles` on, after `had`: each on the first agent with
/// room for it.
pub open spec fn packed(
    s: StateV,
    bundles: Seq<u32>,
    pool: Seq<SlotV>,
    had: Seq<Option<BundleV>>,
) -> Option<Seq<Option<BundleV>>>
    decreases bundles.len(),
{
    if bundles.len() == 0 {
        Some(had)
    } else {
        let need = need_of(bundles[0]);
        let i = first_room(pool, need);
        if i < pool.len() {
            let b = BundleV {
                agent: pool[i].agent,
                node_id: s.agents[pool[i].agent].node_id,
                gpu_ids: pool[i].free.take(need as int),
            };
            packed(
                s,
                bundles.drop_first(),
                pool.update(
                    i,
                    SlotV { agent: pool[i].agent, free: pool[i].free.skip(need as int) },
                ),
                had.push(Some(b)),
            )
        } else {
            None
        }
    }
}

/// The bundles fitted over one scope's agents, if they all fit.
pub open spec fn fitted(
    s: StateV,
    group: Seq<char>,
    bundles: Seq<u32>,
    driver: Seq<char>,
    nodes: Option<Seq<Seq<char>>>,
) -> Option<Seq<Option<BundleV>>> {
    packed(
        s,
        bundles,
        slots(s, filling_order(s, group, driver, nodes, ordered(s.agents.dom()))),
        Seq::empty(),
    )
}

/// The texts of an optional list of strings.
pub open spec fn opt_texts(v: Option<Vec<String>>) -> Option<Seq<Seq<char>>> {
    match v {
        Some(x) => Some(texts(x@)),
        None => None,
    }
}

fn agent_fills_before(st: &State, driver: &str, x: &str, y: &str) -> (r: bool)
    requires
        st@.agents.contains_key(x@),
        st@.agents.contains_key(y@),
    ensures
        r == fills_before(st@, driver@, x@, y@),
{
    match (st.agents.get(x), st.agents.get(y)) {
        (Some(a), Some(b)) => {
            let p = !same(a.node_id.as_str(), driver);
            let q = !same(b.node_id.as_str(), driver);
            if p != q {
                q
            } else if a.seq != b.seq {
                a.seq < b.seq
            } else {
                sorts_before(x, y)
            }
        },
        _ => false,
    }
}

fn is_eligible(a: &AgentInfo, group: &str, nodes: &Option<Vec<String>>) -> (r: bool)
    ensures
        r == eligible(a.deep_view(), group@, opt_texts(*nodes)),
{
    a.alive && same(a.group.as_str(), group) && match nodes {
        Some(ns) => listed(ns, a.node_id.as_str()),
        None => true,
    }
}

fn fill_order(st: &State, group: &str, driver: &str, nodes: &Option<Vec<String>>) -> (r: Vec<
    String,
>)
    ensures
        texts(r@) == filling_order(
            st@,
            group@,
            driver@,
            opt_texts(*nodes),
            ordered(st@.agents.dom()),
        ),
        forall|i: int| 0 <= i < r@.len() ==> st@.agents.contains_key((#[trigger] r@[i])@),
{
    let n: usize = st.agents.len();
    let ghost order = st.agents.order();
    let ghost ns = opt_texts(*nodes);
    let mut out: Vec<String> = Vec::new();
    let mut i: usize = 0;
    proof {
        assert(st@.agents.dom() =~= st.agents@.dom());
        assert(texts(out@) =~= Seq::<Seq<char>>::empty());
    }
    while i < n
        invariant
            i <= n,
            n == order.len(),
            order == st.agents.order(),
            ns == opt_texts(*nodes),
            texts(out@) == filling_order(st@, group@, driver@, ns, order.take(i as int)),
            forall|j: int| 0 <= j < out@.len() ==> st@.agents.contains_key((#[trigger] out@[j])@),
        decreases n - i,
    {
        let x = st.agents.key_at(i).clone();
        let a = st.agents.val_at(i);
        proof {
            assert(order.take(i + 1).drop_last() =~= order.take(i as int));
            assert(order.take(i + 1).last() == x@);
            assert(st@.agents[x@] == a.deep_view());
        }
        if is_eligible(a, group, nodes) {
            let ghost had = texts(out@);
            let ghost was = out@;
            let mut j: usize = out.len();
            proof {
                assert(had.take(had.len() as int) =~= had);
            }
            while j > 0 && agent_fills_before(st, driver, x.as_str(), out[j - 1].as_str())
                invariant
                    j <= out@.len(),
                    had == texts(out@),
                    st@.agents.contains_key(x@),
                    forall|j: int|
                        0 <= j < out@.len() ==> st@.agents.contains_key((#[trigger] out@[j])@),
                    filling_place(st@, driver@, had, x@) == filling_place(
                        st@,
                        driver@,
                        had.take(j as int),
                        x@,
                    ),
                decreases j,
            {
                proof {
                    assert(had.take(j as int).drop_last() =~= had.take(j - 1));
                    assert(had.take(j as int).last() == out@[j - 1]@);
                }
                j -= 1;
            }
            let ghost name = x@;
            proof {
                if j > 0 {
                    assert(had.take(j as int).last() == out@[j - 1]@);
                }
                assert(filling_place(st@, driver@, had, name) == j);
            }
            out.insert(j, x);
            proof {
                assert(texts(out@) =~= had.insert(j as int, name));
                assert forall|m: int| 0 <= m < out@.len() implies st@.agents.contains_key(
                    (#[trigger] out@[m])@,
                ) by {
                    if m < j {
                        assert(out@[m] == was[m]);
                    } else if m > j {
                        assert(out@[m] == was[m - 1]);
                    }
                }
            }
        }
        i += 1;
    }
    proof {
        assert(order.take(order.len() as int) =~= order);
    }
    out
}

fn split_front(v: &Vec<u32>, n: usize) -> (r: (Vec<u32>, Vec<u32>))
    requires
        n <= v@.len(),
    ensures
        r.0@ == v@.take(n as int),
        r.1@ == v@.skip(n as int),
{
    let mut a: Vec<u32> = Vec::new();
    let mut b: Vec<u32> = Vec::new();
    let mut i: usize = 0;
    while i < v.len()
        invariant
            i <= v@.len(),
            n <= v@.len(),
            i <= n ==> a@ == v@.take(i as int) && b@.len() == 0,
            i > n ==> a@ == v@.take(n as int) && b@ == v@.subrange(n as int, i as int),
        decreases v@.len() - i,
    {
        if i < n {
            a.push(v[i]);
            proof {
                assert(a@ =~= v@.take(i + 1));
            }
        } else {
            b.push(v[i]);
            proof {
                assert(b@ =~= v@.subrange(n as int, i + 1));
            }
        }
        i += 1;
    }
    proof {
        assert(b@ =~= v@.skip(n as int));
        assert(a@ =~= v@.take(n as int));
    }
    (a, b)
}

/// A copy of a list of numbers.
pub fn copy_u32(v: &Vec<u32>) -> (r: Vec<u32>)
    ensures
        r@ == v@,
{
    let (a, _) = split_front(v, v.len());
    proof {
        assert(a@ =~= v@);
    }
    a
}

/// First-fit the bundles over one scope's agents, or None if they do not
/// all fit. `nodes` of None means every node in the group.
///
/// Agent order is this group's, alive, driver-node first, then registration
/// order. Bundle 0 lands on the driver's node when it can, which puts rank 0
/// next to the engine.
pub fn fit(
    st: &State,
    group: &str,
    bundles: &Vec<u32>,
    driver: &str,
    nodes: &Option<Vec<String>>,
) -> (r: Option<Vec<Option<BundleAssignment>>>)
    ensures
        match r {
            Some(v) => fitted(st@, group@, bundles@, driver@, opt_texts(*nodes)) == Some(
                bundle_views(v@),
            ),
            None => fitted(st@, group@, bundles@, driver@, opt_texts(*nodes)) is None,
        },
{
    let ids = fill_order(st, group, driver, nodes);
    let ghost idv = texts(ids@);
    let mut pool: Vec<Slot> = Vec::new();
    let mut i: usize = 0;
    while i < ids.len()
        invariant
            i <= ids@.len(),
            idv == texts(ids@),
            pool@.len() == i,
            forall|j: int| 0 <= j < i ==> (#[trigger] pool@[j])@ == slots(st@, idv)[j],
            forall|j: int| 0 <= j < ids@.len() ==> st@.agents.contains_key((#[trigger] ids@[j])@),
        decreases ids@.len() - i,
    {
        pool.push(Slot { agent: ids[i].clone(), free: st.free_gpus_of(ids[i].as_str()) });
        i += 1;
    }
    let ghost start = slot_views(pool@);
    proof {
        assert(start =~= slots(st@, idv));
        assert forall|j: int| 0 <= j < pool@.len() implies st@.agents.contains_key(
            (#[trigger] pool@[j]).agent@,
        ) by {
            assert(pool@[j]@ == slots(st@, idv)[j]);
            assert(st@.agents.contains_key(ids@[j]@));
        }
        assert(bundles@.skip(0) =~= bundles@);
    }
    let mut out: Vec<Option<BundleAssignment>> = Vec::new();
    let mut k: usize = 0;
    proof {
        assert(bundle_views(out@) =~= Seq::<Option<BundleV>>::empty());
    }
    while k < bundles.len()
        invariant
            k <= bundles@.len(),
            forall|j: int|
                0 <= j < pool@.len() ==> st@.agents.contains_key((#[trigger] pool@[j]).agent@),
            fitted(st@, group@, bundles@, driver@, opt_texts(*nodes)) == packed(
                st@,
                bundles@.skip(k as int),
                slot_views(pool@),
                bundle_views(out@),
            ),
        decreases bundles@.len() - k,
    {
        let need: usize = if bundles[k] == 0 {
            1
        } else {
            bundles[k] as usize
        };
        let ghost pv = slot_views(pool@);
        let ghost rest = bundles@.skip(k as int);
        proof {
            assert(rest[0] == bundles@[k as int]);
            assert(rest.drop_first() =~= bundles@.skip(k + 1));
            assert(pv.skip(0) =~= pv);
        }
        let mut i: usize = 0;
        while i < pool.len() && pool[i].free.len() < need
            invariant
                i <= pool@.len(),
                pv == slot_views(pool@),
                first_room(pv, need as nat) == i + first_room(pv.skip(i as int), need as nat),
            decreases pool@.len() - i,
        {
            proof {
                assert(pv.skip(i as int)[0] == pool@[i as int]@);
                assert(pv.skip(i as int).drop_first() =~= pv.skip(i + 1));
            }
            i += 1;
        }
        proof {
            if i < pool@.len() {
                assert(pv.skip(i as int)[0] == pool@[i as int]@);
            } else {
                assert(pv.skip(i as int).len() == 0);
            }
            assert(first_room(pv, need as nat) == i);
        }
        if i >= pool.len() {
            return None;
        }
        let ghost was = pool@;
        let agent = pool[i].agent.clone();
        let (gpu_ids, left) = split_front(&pool[i].free, need);
        proof {
            assert(st@.agents.contains_key(pool@[i as int].agent@));
        }
        let node_id = match st.agents.get(agent.as_str()) {
            Some(a) => a.node_id.clone(),
            None => String::new(),
        };
        pool.set(i, Slot { agent: agent.clone(), free: left });
        let b = BundleAssignment { agent, node_id, gpu_ids };
        let ghost bv = b.deep_view();
        let ghost had = out@;
        out.push(Some(b));
        proof {
            assert(bundle_views(out@) =~= bundle_views(had).push(Some(bv)));
            assert(slot_views(pool@) =~= pv.update(
                i as int,
                SlotV { agent: pv[i as int].agent, free: pv[i as int].free.skip(need as int) },
            ));
            assert forall|j: int| 0 <= j < pool@.len() implies st@.agents.contains_key(
                (#[trigger] pool@[j]).agent@,
            ) by {
                if j != i {
                    assert(pool@[j] == was[j]);
                }
            }
        }
        k += 1;
    }
    Some(out)
}

// ---------------------------------------------------------------------------
// Sums
// ---------------------------------------------------------------------------
/// The GPUs that all the bundles take.
pub open spec fn need_total(bundles: Seq<u32>) -> nat
    decreases bundles.len(),
{
    if bundles.len() == 0 {
        0
    } else {
        need_total(bundles.drop_last()) + need_of(bundles.last())
    }
}

fn total_need(bundles: &Vec<u32>) -> (r: u128)
    ensures
        r == need_total(bundles@),
{
    let mut sum: u128 = 0;
    let mut i: usize = 0;
    while i < bundles.len()
        invariant
            i <= bundles.len(),
            sum == need_total(bundles@.take(i as int)),
            sum <= i * 0x1_0000_0000,
        decreases bundles.len() - i,
    {
        let need: u32 = if bundles[i] == 0 {
            1
        } else {
            bundles[i]
        };
        proof {
            assert(bundles@.take(i + 1).drop_last() =~= bundles@.take(i as int));
            assert(bundles@.take(i + 1).last() == bundles@[i as int]);
            assert(i * 0x1_0000_0000 + 0x1_0000_0000 == (i + 1) * 0x1_0000_0000);
        }
        sum = sum + need as u128;
        i += 1;
    }
    proof {
        assert(bundles@.take(bundles@.len() as int) =~= bundles@);
    }
    sum
}

/// The free GPUs of the agents that may take bundles, of those in `keys`.
pub open spec fn free_among(
    s: StateV,
    group: Seq<char>,
    nodes: Option<Seq<Seq<char>>>,
    keys: Seq<Seq<char>>,
) -> nat
    decreases keys.len(),
{
    if keys.len() == 0 {
        0
    } else {
        let had = free_among(s, group, nodes, keys.drop_last());
        if eligible(s.agents[keys.last()], group, nodes) {
            had + s.free_gpus(keys.last()).len()
        } else {
            had
        }
    }
}

/// How many agents may take bundles, of those in `keys`.
pub open spec fn agents_among(
    s: StateV,
    group: Seq<char>,
    nodes: Option<Seq<Seq<char>>>,
    keys: Seq<Seq<char>>,
) -> nat
    decreases keys.len(),
{
    if keys.len() == 0 {
        0
    } else {
        agents_among(s, group, nodes, keys.drop_last()) + (if eligible(
            s.agents[keys.last()],
            group,
            nodes,
        ) {
            1nat
        } else {
            0nat
        })
    }
}

/// The free GPUs of a group inside a scope.
pub open spec fn free_in(s: StateV, group: Seq<char>, nodes: Option<Seq<Seq<char>>>) -> nat {
    free_among(s, group, nodes, ordered(s.agents.dom()))
}

/// How many agents of a group a scope holds.
pub open spec fn agents_in(s: StateV, group: Seq<char>, nodes: Option<Seq<Seq<char>>>) -> nat {
    agents_among(s, group, nodes, ordered(s.agents.dom()))
}

fn count_free(st: &State, group: &str, nodes: &Option<Vec<String>>) -> (r: (u128, usize))
    ensures
        r.0 == free_in(st@, group@, opt_texts(*nodes)),
        r.1 == agents_in(st@, group@, opt_texts(*nodes)),
{
    let n: usize = st.agents.len();
    let ghost order = st.agents.order();
    let ghost ns = opt_texts(*nodes);
    let mut sum: u128 = 0;
    let mut held: usize = 0;
    let mut i: usize = 0;
    proof {
        assert(st@.agents.dom() =~= st.agents@.dom());
    }
    while i < n
        invariant
            i <= n,
            n == order.len(),
            order == st.agents.order(),
            ns == opt_texts(*nodes),
            sum == free_among(st@, group@, ns, order.take(i as int)),
            sum <= i * 0xffff_ffff_ffff_ffff,
            held == agents_among(st@, group@, ns, order.take(i as int)),
            held <= i,
        decreases n - i,
    {
        let a = st.agents.val_at(i);
        let ghost key = order[i as int];
        proof {
            assert(order.take(i + 1).drop_last() =~= order.take(i as int));
            assert(order.take(i + 1).last() == key);
            assert(st@.agents[key] == a.deep_view());
            assert(i * 0xffff_ffff_ffff_ffff + 0xffff_ffff_ffff_ffff == (i + 1)
                * 0xffff_ffff_ffff_ffff);
            assert((i + 1) * 0xffff_ffff_ffff_ffff <= 0x1_0000_0000_0000_0000
                * 0xffff_ffff_ffff_ffff) by (nonlinear_arith)
                requires
                    i + 1 <= 0x1_0000_0000_0000_0000,
            ;
        }
        if is_eligible(a, group, nodes) {
            let free = st.free_gpus_of(st.agents.key_at(i).as_str());
            sum = sum + free.len() as u128;
            held += 1;
        }
        i += 1;
    }
    proof {
        assert(order.take(order.len() as int) =~= order);
    }
    (sum, held)
}

// ---------------------------------------------------------------------------
// Claimed nodes
// ---------------------------------------------------------------------------
/// Whether a member of a set stands on a node.
pub open spec fn names_node(members: Seq<JsonV>, n: Seq<char>) -> bool {
    exists|i: int| 0 <= i < members.len() && (#[trigger] members[i]).field("node"@).text() == Some(n)
}

/// The nodes a claim placed, across all its sets.
pub open spec fn claimed(view: JsonV) -> Set<Seq<char>> {
    let sets = view.field("sets"@).fields();
    Set::new(
        |n: Seq<char>|
            exists|k: Seq<char>| #[trigger] sets.contains_key(k) && names_node(sets[k].items(), n),
    )
}

fn collect_nodes(members: &Json, out: &mut Dict<()>)
    ensures
        forall|n: Seq<char>| #[trigger]
            final(out)@.contains_key(n) <==> old(out)@.contains_key(n) || names_node(
                members.v().items(),
                n,
            ),
{
    let ghost start = out@;
    let ghost all = members.v().items();
    if let Json::Arr(ms) = members {
        let mut i: usize = 0;
        while i < ms.len()
            invariant
                all == metas(ms@),
                i <= ms@.len(),
                forall|n: Seq<char>| #[trigger]
                    out@.contains_key(n) <==> start.contains_key(n) || names_node(
                        all.take(i as int),
                        n,
                    ),
            decreases ms@.len() - i,
        {
            let ghost m = all[i as int];
            let t = ms[i].text_at("node");
            if let Some(node) = t {
                out.insert(node.to_string(), ());
            }
            proof {
                assert forall|n: Seq<char>| #[trigger]
                    out@.contains_key(n) <==> start.contains_key(n) || names_node(
                        all.take(i + 1),
                        n,
                    ) by {
                    let (a, b) = (all.take(i as int), all.take(i + 1));
                    if names_node(a, n) {
                        let j = choose|j: int|
                            0 <= j < a.len() && (#[trigger] a[j]).field("node"@).text() == Some(n);
                        assert(b[j] == a[j]);
                    }
                    if names_node(b, n) {
                        let j = choose|j: int|
                            0 <= j < b.len() && (#[trigger] b[j]).field("node"@).text() == Some(n);
                        if j < i {
                            assert(a[j] == b[j]);
                        }
                    }
                    assert(b[i as int] == m);
                }
            }
            i += 1;
        }
        proof {
            assert(all.take(all.len() as int) =~= all);
        }
    }
}

/// Every node a claim placed, across all its sets, in order.
pub fn claimed_nodes(view: &Json) -> (r: Vec<String>)
    ensures
        texts(r@) == ordered(claimed(view.v())),
        forall|n: Seq<char>| #[trigger] texts(r@).contains(n) <==> claimed(view.v()).contains(n),
{
    let mut out: Dict<()> = Dict::new();
    let ghost sets = view.v().field("sets"@).fields();
    if let Some(s) = view.fields_at("sets") {
        let n: usize = s.len();
        let ghost order = s.order();
        let mut i: usize = 0;
        while i < n
            invariant
                i <= n,
                n == order.len(),
                order == s.order(),
                lists(order, s@.dom()),
                sets == s.deep_view(),
                forall|x: Seq<char>| #[trigger]
                    out@.contains_key(x) <==> exists|j: int|
                        0 <= j < i && names_node(sets[#[trigger] order[j]].items(), x),
            decreases n - i,
        {
            let members = s.val_at(i);
            let ghost had = out@;
            collect_nodes(members, &mut out);
            proof {
                assert(sets[order[i as int]] == members.v());
                assert forall|x: Seq<char>| #[trigger] out@.contains_key(x) <==> exists|j: int|
                    0 <= j < i + 1 && names_node(sets[#[trigger] order[j]].items(), x) by {
                    if had.contains_key(x) {
                        let j = choose|j: int|
                            0 <= j < i && names_node(sets[#[trigger] order[j]].items(), x);
                        assert(0 <= j < i + 1);
                    }
                    if names_node(members.v().items(), x) {
                        assert(names_node(sets[order[i as int]].items(), x));
                    }
                }
            }
            i += 1;
        }
        proof {
            assert forall|x: Seq<char>| #[trigger]
                out@.dom().contains(x) == claimed(view.v()).contains(x) by {
                if out@.contains_key(x) {
                    let j = choose|j: int|
                        0 <= j < n && names_node(sets[#[trigger] order[j]].items(), x);
                    assert(order.contains(order[j]));
                    assert(s@.dom().contains(order[j]));
                    assert(sets.contains_key(order[j]));
                }
                if claimed(view.v()).contains(x) {
                    let k = choose|k: Seq<char>| #[trigger]
                        sets.contains_key(k) && names_node(sets[k].items(), x);
                    assert(s@.dom().contains(k));
                    let j = order.index_of(k);
                    assert(order[j] == k);
                    assert(out@.contains_key(x));
                }
            }
        }
    }
    proof {
        assert(out@.dom() =~= claimed(view.v()));
    }
    out.keys()
}

// ---------------------------------------------------------------------------
// Scopes
// ---------------------------------------------------------------------------
/// Where to try placing a group: the fabric it would span, and the nodes it
/// may use. No nodes means every one.
#[derive(Debug)]
pub struct Scope {
    pub island: Option<Island>,
    pub nodes: Option<Vec<String>>,
}

/// A `Scope` as a mathematical value.
pub struct ScopeV {
    pub island: Option<IslandV>,
    pub nodes: Option<Seq<Seq<char>>>,
}

impl View for Scope {
    type V = ScopeV;

    open spec fn view(&self) -> ScopeV {
        ScopeV { island: opt_island(self.island), nodes: opt_texts(self.nodes) }
    }
}

/// Scopes as mathematical values.
pub open spec fn scope_views(v: Seq<Scope>) -> Seq<ScopeV> {
    Seq::new(v.len(), |i: int| v[i]@)
}

/// A scope under consideration: whether the driver is outside it, and its
/// nodes.
#[derive(Debug)]
pub struct Room {
    pub away: bool,
    pub island: Island,
}

/// A scope under consideration, as a mathematical value.
pub struct RoomV {
    pub away: bool,
    pub island: IslandV,
}

impl View for Room {
    type V = RoomV;

    open spec fn view(&self) -> RoomV {
        RoomV { away: self.away, island: self.island.deep_view() }
    }
}

/// Rooms as mathematical values.
pub open spec fn room_views(v: Seq<Room>) -> Seq<RoomV> {
    Seq::new(v.len(), |i: int| v[i]@)
}

/// Lists of texts in dictionary order.
pub open spec fn list_before(a: Seq<Seq<char>>, b: Seq<Seq<char>>) -> bool
    decreases a.len(),
{
    if b.len() == 0 {
        false
    } else if a.len() == 0 {
        true
    } else if a[0] != b[0] {
        before(a[0], b[0])
    } else {
        list_before(a.drop_first(), b.drop_first())
    }
}

/// Which of two scopes is tried first: the driver's own, then the smallest,
/// then by the names of its nodes.
pub open spec fn tried_before(a: RoomV, b: RoomV) -> bool {
    if a.away != b.away {
        b.away
    } else if a.island.nodes.len() != b.island.nodes.len() {
        a.island.nodes.len() < b.island.nodes.len()
    } else {
        list_before(a.island.nodes, b.island.nodes)
    }
}

/// Where a scope goes among scopes already in order.
pub open spec fn room_place(sorted: Seq<RoomV>, x: RoomV) -> int
    decreases sorted.len(),
{
    if sorted.len() > 0 && tried_before(x, sorted.last()) {
        room_place(sorted.drop_last(), x)
    } else {
        sorted.len() as int
    }
}

/// The scopes in the order in which they are tried.
pub open spec fn trying_order(rooms: Seq<RoomV>) -> Seq<RoomV>
    decreases rooms.len(),
{
    if rooms.len() == 0 {
        Seq::empty()
    } else {
        let had = trying_order(rooms.drop_last());
        had.insert(room_place(had, rooms.last()), rooms.last())
    }
}

/// The islands with enough free GPUs for a group.
pub open spec fn island_rooms(
    s: StateV,
    group: Seq<char>,
    driver: Seq<char>,
    need: nat,
    islands: Seq<IslandV>,
) -> Seq<RoomV>
    decreases islands.len(),
{
    if islands.len() == 0 {
        Seq::empty()
    } else {
        let had = island_rooms(s, group, driver, need, islands.drop_last());
        let i = islands.last();
        if free_in(s, group, Some(i.nodes)) >= need {
            had.push(RoomV { away: !i.nodes.contains(driver), island: i })
        } else {
            had
        }
    }
}

/// A node as an island of one.
pub open spec fn alone(n: Seq<char>) -> IslandV {
    IslandV { nodes: seq![n], addr: Map::empty() }
}

/// The nodes of `names` that have enough free GPUs for a group by themselves.
pub open spec fn lone_rooms(
    s: StateV,
    group: Seq<char>,
    driver: Seq<char>,
    need: nat,
    names: Seq<Seq<char>>,
) -> Seq<RoomV>
    decreases names.len(),
{
    if names.len() == 0 {
        Seq::empty()
    } else {
        let had = lone_rooms(s, group, driver, need, names.drop_last());
        let n = names.last();
        if free_in(s, group, Some(seq![n])) >= need {
            had.push(RoomV { away: n != driver, island: alone(n) })
        } else {
            had
        }
    }
}

/// The nodes of a group's live agents.
pub open spec fn served(s: StateV, group: Seq<char>) -> Set<Seq<char>> {
    Set::new(
        |n: Seq<char>|
            exists|k: Seq<char>| #[trigger]
                s.agents.contains_key(k) && counts(s.agents[k], group) && s.agents[k].node_id == n,
    )
}

/// Every scope with room for a group: the islands, and each node that serves it
/// as an island of one.
pub open spec fn rooms(
    s: StateV,
    group: Seq<char>,
    driver: Seq<char>,
    need: nat,
) -> Seq<RoomV> {
    island_rooms(s, group, driver, need, s.islands) + lone_rooms(
        s,
        group,
        driver,
        need,
        ordered(served(s, group)),
    )
}

/// A scope as it is tried. One node has no fabric address to hand out.
pub open spec fn room_scope(r: RoomV) -> ScopeV {
    ScopeV {
        island: if r.island.nodes.len() > 1 {
            Some(r.island)
        } else {
            None
        },
        nodes: Some(r.island.nodes),
    }
}

/// The best of the islands that hold an agent of a group: the most free GPUs,
/// then the most nodes.
pub open spec fn best_island(s: StateV, group: Seq<char>, islands: Seq<IslandV>) -> Option<
    (nat, nat),
>
    decreases islands.len(),
{
    if islands.len() == 0 {
        None
    } else {
        let had = best_island(s, group, islands.drop_last());
        let nodes = islands.last().nodes;
        let free = free_in(s, group, Some(nodes));
        if agents_in(s, group, Some(nodes)) == 0 {
            had
        } else {
            match had {
                None => Some((free, nodes.len())),
                Some((f, n)) => if f > free || (f == free && n > nodes.len()) {
                    had
                } else {
                    Some((free, nodes.len()))
                },
            }
        }
    }
}

/// Why no island could hold a group.
pub open spec fn no_island_text(
    s: StateV,
    group: Seq<char>,
    bundles: nat,
    need: nat,
) -> Seq<char> {
    match best_island(s, group, s.islands) {
        Some((free, nodes)) => decimal(bundles) + " bundles ("@ + decimal(need)
            + " GPUs) must share one rdma fabric. The best fabric holding group '"@ + group
            + "' offers "@ + decimal(free) + " free GPUs across "@ + decimal(nodes) + " nodes"@,
        None => decimal(bundles) + " bundles ("@ + decimal(need)
            + " GPUs) must share one rdma fabric, and no node holding group '"@ + group
            + "' is on one"@,
    }
}

/// Why the bundles did not fit where there was a scope to try.
pub open spec fn no_fit_text(s: StateV, group: Seq<char>, bundles: Seq<u32>) -> Seq<char> {
    decimal(bundles.len()) + " bundles need "@ + decimal(need_total(bundles)) + " GPUs and group '"@
        + group + "' has "@ + decimal(free_in(s, group, None)) + " free"@
}

/// The first of `nodes` that no live agent of the group is on.
pub open spec fn first_unserved(s: StateV, group: Seq<char>, nodes: Seq<Seq<char>>) -> Option<
    Seq<char>,
>
    decreases nodes.len(),
{
    if nodes.len() == 0 {
        None
    } else if !served(s, group).contains(nodes[0]) {
        Some(nodes[0])
    } else {
        first_unserved(s, group, nodes.drop_first())
    }
}

/// Where the head takes control connections, as far as this daemon knows.
pub open spec fn head_addr(s: StateV) -> Option<Seq<char>> {
    if s.peers.contains_key(s.head_node_id) {
        let p = s.peers[s.head_node_id];
        Some(p.node_ip + ":"@ + decimal(p.control_port as nat))
    } else {
        None
    }
}

/// Why a claimed node cannot be placed on here.
pub open spec fn unserved_text(
    s: StateV,
    group: Seq<char>,
    claim: Seq<char>,
    missing: Seq<char>,
) -> Seq<char> {
    let place = if s.peers.contains_key(missing) {
        s.peers[missing].node_ip
    } else {
        missing
    };
    let head = match head_addr(s) {
        Some(a) => a,
        None => "this node"@,
    };
    "claim "@ + debug_text(claim) + " placed a bundle on "@ + place
        + ", which has no agent of group "@ + group
        + " registered with this daemon. The head solved the claim against the whole mesh. "@
        + "Point the driver and every agent of the group at the head, "@ + head
}

/// The scope a claim settles: the nodes it placed, where this daemon serves
/// the group on all of them.
pub open spec fn claim_scope(s: StateV, group: Seq<char>, claim: Seq<char>) -> Result<
    Seq<ScopeV>,
    Seq<char>,
> {
    if !(s.claims.contains_key(group) && s.claims[group].contains_key(claim)) {
        Err("claim "@ + debug_text(claim) + " is not held here"@)
    } else {
        let nodes = ordered(claimed(s.claims[group][claim].view));
        if nodes.len() == 0 {
            Err("claim "@ + debug_text(claim) + " names no nodes"@)
        } else {
            match first_unserved(s, group, nodes) {
                Some(missing) => Err(unserved_text(s, group, claim, missing)),
                None => Ok(seq![ScopeV { island: None, nodes: Some(nodes) }]),
            }
        }
    }
}

/// Whether a group's own nodes claim a fabric.
pub open spec fn opted_in(s: StateV, group: Seq<char>) -> bool {
    exists|n: Seq<char>| #[trigger] served(s, group).contains(n) && s.tagged.contains(n)
}

/// The scopes to try placing a group in, best first, or why there is none.
pub open spec fn scopes_of(
    s: StateV,
    group: Seq<char>,
    bundles: Seq<u32>,
    driver: Seq<char>,
    claim: Seq<char>,
    by_island: bool,
) -> Result<Seq<ScopeV>, Seq<char>> {
    if claim.len() > 0 {
        claim_scope(s, group, claim)
    } else if bundles.len() < 2 || !by_island || !opted_in(s, group) {
        Ok(seq![ScopeV { island: None, nodes: None }])
    } else {
        let found = rooms(s, group, driver, need_total(bundles));
        if found.len() == 0 {
            Err(no_island_text(s, group, bundles.len(), need_total(bundles)))
        } else {
            let order = trying_order(found);
            Ok(Seq::new(order.len(), |i: int| room_scope(order[i])))
        }
    }
}

impl Island {
    /// A copy of the island.
    pub fn copy(&self) -> (r: Island)
        ensures
            r.deep_view() == self.deep_view(),
    {
        Island { nodes: copied(&self.nodes), addr: copy_texts(&self.addr) }
    }
}

fn names_before(a: &Vec<String>, b: &Vec<String>) -> (r: bool)
    ensures
        r == list_before(texts(a@), texts(b@)),
{
    let ghost x = texts(a@);
    let ghost y = texts(b@);
    let mut i: usize = 0;
    proof {
        assert(x.skip(0) =~= x);
        assert(y.skip(0) =~= y);
    }
    loop
        invariant
            x == texts(a@),
            y == texts(b@),
            i <= a@.len(),
            i <= b@.len(),
            list_before(x, y) == list_before(x.skip(i as int), y.skip(i as int)),
        decreases a@.len() - i,
    {
        if i >= b.len() {
            return false;
        }
        if i >= a.len() {
            return true;
        }
        proof {
            assert(x.skip(i as int)[0] == a@[i as int]@);
            assert(y.skip(i as int)[0] == b@[i as int]@);
            assert(x.skip(i as int).drop_first() =~= x.skip(i + 1));
            assert(y.skip(i as int).drop_first() =~= y.skip(i + 1));
        }
        if !same(a[i].as_str(), b[i].as_str()) {
            return sorts_before(a[i].as_str(), b[i].as_str());
        }
        i += 1;
    }
}

fn room_tried_before(a: &Room, b: &Room) -> (r: bool)
    ensures
        r == tried_before(a@, b@),
{
    if a.away != b.away {
        b.away
    } else if a.island.nodes.len() != b.island.nodes.len() {
        a.island.nodes.len() < b.island.nodes.len()
    } else {
        names_before(&a.island.nodes, &b.island.nodes)
    }
}

fn in_trying_order(found: Vec<Room>) -> (r: Vec<Room>)
    ensures
        room_views(r@) == trying_order(room_views(found@)),
{
    let ghost all = room_views(found@);
    let mut left = found;
    let mut out: Vec<Room> = Vec::new();
    proof {
        assert(room_views(out@) =~= Seq::<RoomV>::empty());
    }
    let mut i: usize = 0;
    let n: usize = left.len();
    while i < n
        invariant
            i <= n,
            n == all.len(),
            left@.len() == n - i,
            room_views(left@) == all.skip(i as int),
            room_views(out@) == trying_order(all.take(i as int)),
        decreases n - i,
    {
        let ghost before_left = left@;
        let x = left.remove(0);
        let ghost xv = x@;
        proof {
            assert(room_views(before_left)[0] == all[i as int]);
            assert(room_views(left@) =~= all.skip(i + 1)) by {
                assert forall|j: int| 0 <= j < left@.len() implies room_views(left@)[j] == all.skip(
                    i + 1,
                )[j] by {
                    assert(left@[j] == before_left[j + 1]);
                    assert(room_views(before_left)[j + 1] == all.skip(i as int)[j + 1]);
                }
            }
            assert(all.take(i + 1).drop_last() =~= all.take(i as int));
            assert(all.take(i + 1).last() == xv);
        }
        let ghost had = room_views(out@);
        let mut j: usize = out.len();
        proof {
            assert(had.take(had.len() as int) =~= had);
        }
        while j > 0 && room_tried_before(&x, &out[j - 1])
            invariant
                j <= out@.len(),
                had == room_views(out@),
                room_place(had, x@) == room_place(had.take(j as int), x@),
            decreases j,
        {
            proof {
                assert(had.take(j as int).drop_last() =~= had.take(j - 1));
                assert(had.take(j as int).last() == out@[j - 1]@);
            }
            j -= 1;
        }
        proof {
            if j > 0 {
                assert(had.take(j as int).last() == out@[j - 1]@);
            }
            assert(room_place(had, xv) == j);
        }
        out.insert(j, x);
        proof {
            assert(room_views(out@) =~= had.insert(j as int, xv));
        }
        i += 1;
    }
    proof {
        assert(all.take(all.len() as int) =~= all);
    }
    out
}

fn served_nodes(st: &State, group: &str) -> (r: Dict<()>)
    ensures
        r@.dom() == served(st@, group@),
{
    let mut out: Dict<()> = Dict::new();
    let n: usize = st.agents.len();
    let ghost order = st.agents.order();
    let mut i: usize = 0;
    while i < n
        invariant
            i <= n,
            n == order.len(),
            order == st.agents.order(),
            lists(order, st.agents@.dom()),
            forall|x: Seq<char>| #[trigger]
                out@.contains_key(x) <==> exists|j: int|
                    0 <= j < i && counts(st@.agents[#[trigger] order[j]], group@)
                        && st@.agents[order[j]].node_id == x,
        decreases n - i,
    {
        let a = st.agents.val_at(i);
        let ghost had = out@;
        proof {
            assert(st@.agents[order[i as int]] == a.deep_view());
        }
        if a.alive && same(a.group.as_str(), group) {
            out.insert(a.node_id.clone(), ());
        }
        proof {
            assert forall|x: Seq<char>| #[trigger] out@.contains_key(x) <==> exists|j: int|
                0 <= j < i + 1 && counts(st@.agents[#[trigger] order[j]], group@)
                    && st@.agents[order[j]].node_id == x by {
                if had.contains_key(x) {
                    let j = choose|j: int|
                        0 <= j < i && counts(st@.agents[#[trigger] order[j]], group@)
                            && st@.agents[order[j]].node_id == x;
                    assert(0 <= j < i + 1);
                }
                if counts(st@.agents[order[i as int]], group@)
                    && st@.agents[order[i as int]].node_id == x {
                    assert(out@.contains_key(x));
                }
            }
        }
        i += 1;
    }
    proof {
        assert forall|x: Seq<char>| #[trigger]
            out@.dom().contains(x) == served(st@, group@).contains(x) by {
            if out@.contains_key(x) {
                let j = choose|j: int|
                    0 <= j < n && counts(st@.agents[#[trigger] order[j]], group@)
                        && st@.agents[order[j]].node_id == x;
                assert(order.contains(order[j]));
                assert(st.agents@.dom().contains(order[j]));
                assert(st@.agents.contains_key(order[j]));
            }
            if served(st@, group@).contains(x) {
                let k = choose|k: Seq<char>| #[trigger]
                    st@.agents.contains_key(k) && counts(st@.agents[k], group@)
                        && st@.agents[k].node_id == x;
                assert(st.agents@.dom().contains(k));
                let j = order.index_of(k);
                assert(order[j] == k);
                assert(out@.contains_key(x));
            }
        }
        assert(out@.dom() =~= served(st@, group@));
    }
    out
}

fn find_rooms(st: &State, group: &str, driver: &str, need: u128) -> (r: Vec<Room>)
    ensures
        room_views(r@) == rooms(st@, group@, driver@, need as nat),
{
    let mut out: Vec<Room> = Vec::new();
    let ghost all = st@.islands;
    let mut i: usize = 0;
    proof {
        assert(room_views(out@) =~= Seq::<RoomV>::empty());
    }
    while i < st.fabrics.islands.len()
        invariant
            all == island_views(st.fabrics.islands@),
            i <= st.fabrics.islands@.len(),
            room_views(out@) == island_rooms(
                st@,
                group@,
                driver@,
                need as nat,
                all.take(i as int),
            ),
        decreases st.fabrics.islands@.len() - i,
    {
        let isl = st.fabrics.islands[i].copy();
        let ghost iv = isl.deep_view();
        let nodes = Some(copied(&isl.nodes));
        proof {
            assert(all.take(i + 1).drop_last() =~= all.take(i as int));
            assert(all.take(i + 1).last() == iv);
            assert(opt_texts(nodes) == Some(iv.nodes));
        }
        let (free, _) = count_free(st, group, &nodes);
        if free >= need {
            let ghost was = out@;
            let away = !listed(&isl.nodes, driver);
            out.push(Room { away, island: isl });
            proof {
                assert(room_views(out@) =~= room_views(was).push(RoomV { away, island: iv }));
            }
        }
        i += 1;
    }
    let ghost first = room_views(out@);
    proof {
        assert(all.take(all.len() as int) =~= all);
    }
    let lone = served_nodes(st, group);
    let m: usize = lone.len();
    let ghost names = lone.order();
    let mut i: usize = 0;
    proof {
        assert(first + lone_rooms(st@, group@, driver@, need as nat, names.take(0)) =~= first);
    }
    while i < m
        invariant
            i <= m,
            m == names.len(),
            names == lone.order(),
            room_views(out@) == first + lone_rooms(
                st@,
                group@,
                driver@,
                need as nat,
                names.take(i as int),
            ),
        decreases m - i,
    {
        let x = lone.key_at(i);
        let mut one: Vec<String> = Vec::new();
        one.push(x.clone());
        let nodes = Some(copied(&one));
        proof {
            assert(names.take(i + 1).drop_last() =~= names.take(i as int));
            assert(names.take(i + 1).last() == x@);
            assert(texts(one@) =~= seq![x@]);
        }
        let (free, _) = count_free(st, group, &nodes);
        if free >= need {
            let ghost was = out@;
            let away = !same(x.as_str(), driver);
            let isl = Island { nodes: one, addr: Dict::new() };
            proof {
                assert(isl.deep_view().addr =~= Map::<Seq<char>, Seq<char>>::empty());
            }
            out.push(Room { away, island: isl });
            proof {
                assert(room_views(out@) =~= room_views(was).push(
                    RoomV { away, island: alone(x@) },
                ));
                assert(room_views(out@) =~= first + lone_rooms(
                    st@,
                    group@,
                    driver@,
                    need as nat,
                    names.take(i + 1),
                ));
            }
        }
        i += 1;
    }
    proof {
        assert(names.take(names.len() as int) =~= names);
    }
    out
}

/// Why no island could hold this group, in the terms an operator can act
/// on: how many nodes it needs on one fabric, and what the best fabric that
/// actually holds part of this group offers.
///
/// Islands with no agent of this group are left out. Naming the cluster's
/// largest fabric when the group has nothing on it sends the reader to the
/// wrong rack.
pub fn no_island_reason(st: &State, group: &str, bundles: usize, need: u128) -> (r: String)
    ensures
        r@ == no_island_text(st@, group@, bundles as nat, need as nat),
{
    let ghost all = st@.islands;
    let mut best: Option<(u128, usize)> = None;
    let mut i: usize = 0;
    while i < st.fabrics.islands.len()
        invariant
            all == island_views(st.fabrics.islands@),
            i <= st.fabrics.islands@.len(),
            match best {
                Some((f, n)) => best_island(st@, group@, all.take(i as int)) == Some(
                    (f as nat, n as nat),
                ),
                None => best_island(st@, group@, all.take(i as int)) is None,
            },
        decreases st.fabrics.islands@.len() - i,
    {
        let isl = &st.fabrics.islands[i];
        let nodes = Some(copied(&isl.nodes));
        proof {
            assert(all.take(i + 1).drop_last() =~= all.take(i as int));
            assert(all.take(i + 1).last() == isl.deep_view());
            assert(opt_texts(nodes) == Some(isl.deep_view().nodes));
        }
        let (free, held) = count_free(st, group, &nodes);
        let size: usize = isl.nodes.len();
        if held > 0 {
            let keep = match best {
                None => false,
                Some((f, n)) => f > free || (f == free && n > size),
            };
            if !keep {
                best = Some((free, size));
            }
        }
        i += 1;
    }
    proof {
        assert(all.take(all.len() as int) =~= all);
    }
    let mut e = dec(bundles as u64);
    e.append(" bundles (");
    e.append(dec_wide(need).as_str());
    match best {
        Some((free, nodes)) => {
            e.append(" GPUs) must share one rdma fabric. The best fabric holding group '");
            e.append(group);
            e.append("' offers ");
            e.append(dec_wide(free).as_str());
            e.append(" free GPUs across ");
            e.append(dec(nodes as u64).as_str());
            e.append(" nodes");
        },
        None => {
            e.append(" GPUs) must share one rdma fabric, and no node holding group '");
            e.append(group);
            e.append("' is on one");
        },
    }
    e
}

/// Why the bundles did not fit, when a scope existed to try. Free GPUs are
/// the usual answer.
pub fn no_fit_reason(st: &State, group: &str, bundles: &Vec<u32>) -> (r: String)
    ensures
        r@ == no_fit_text(st@, group@, bundles@),
{
    let (free, _) = count_free(st, group, &None);
    let mut e = dec(bundles.len() as u64);
    e.append(" bundles need ");
    e.append(dec_wide(total_need(bundles)).as_str());
    e.append(" GPUs and group '");
    e.append(group);
    e.append("' has ");
    e.append(dec_wide(free).as_str());
    e.append(" free");
    e
}

/// Where the head takes control connections, as far as this daemon knows.
pub fn head_address(st: &State) -> (r: Option<String>)
    ensures
        opt_text(r) == head_addr(st@),
{
    match st.peers.get(st.head_node_id.as_str()) {
        Some(p) => {
            let mut a = p.node_ip.clone();
            a.append(":");
            a.append(dec(p.control_port as u64).as_str());
            Some(a)
        },
        None => None,
    }
}

fn unserved_reason(st: &State, group: &str, claim: &str, missing: &str) -> (r: String)
    ensures
        r@ == unserved_text(st@, group@, claim@, missing@),
{
    let place = match st.peers.get(missing) {
        Some(p) => p.node_ip.clone(),
        None => missing.to_string(),
    };
    let head = match head_address(st) {
        Some(a) => a,
        None => "this node".to_string(),
    };
    let mut e = "claim ".to_string();
    e.append(debug_quoted(claim).as_str());
    e.append(" placed a bundle on ");
    e.append(place.as_str());
    e.append(", which has no agent of group ");
    e.append(group);
    e.append(" registered with this daemon. The head solved the claim against the whole mesh. ");
    e.append("Point the driver and every agent of the group at the head, ");
    e.append(head.as_str());
    e
}

fn scope_of_claim(st: &State, group: &str, claim: &str) -> (r: Result<Vec<Scope>, String>)
    ensures
        match r {
            Ok(v) => claim_scope(st@, group@, claim@) == Ok::<Seq<ScopeV>, Seq<char>>(
                scope_views(v@),
            ),
            Err(e) => claim_scope(st@, group@, claim@) == Err::<Seq<ScopeV>, Seq<char>>(e@),
        },
{
    let held = match st.claims.get(group) {
        Some(names) => names.get(claim),
        None => None,
    };
    let c = match held {
        Some(c) => c,
        None => {
            let mut e = "claim ".to_string();
            e.append(debug_quoted(claim).as_str());
            e.append(" is not held here");
            return Err(e);
        },
    };
    let nodes = claimed_nodes(&c.view);
    proof {
        assert(st@.claims[group@][claim@] == c.deep_view());
    }
    if nodes.len() == 0 {
        let mut e = "claim ".to_string();
        e.append(debug_quoted(claim).as_str());
        e.append(" names no nodes");
        return Err(e);
    }
    let ok = served_nodes(st, group);
    let ghost all = texts(nodes@);
    let mut i: usize = 0;
    proof {
        assert(all.skip(0) =~= all);
    }
    while i < nodes.len()
        invariant
            all == texts(nodes@),
            ok@.dom() == served(st@, group@),
            st@.claims.contains_key(group@),
            st@.claims[group@].contains_key(claim@),
            all == ordered(claimed(st@.claims[group@][claim@].view)),
            nodes@.len() > 0,
            i <= nodes@.len(),
            first_unserved(st@, group@, all) == first_unserved(st@, group@, all.skip(i as int)),
        decreases nodes@.len() - i,
    {
        proof {
            assert(all.skip(i as int)[0] == nodes@[i as int]@);
            assert(all.skip(i as int).drop_first() =~= all.skip(i + 1));
            assert(ok@.contains_key(nodes@[i as int]@) == ok@.dom().contains(nodes@[i as int]@));
        }
        if !ok.contains(nodes[i].as_str()) {
            return Err(unserved_reason(st, group, claim, nodes[i].as_str()));
        }
        i += 1;
    }
    let mut out: Vec<Scope> = Vec::new();
    out.push(Scope { island: None, nodes: Some(nodes) });
    proof {
        assert(scope_views(out@) =~= seq![ScopeV { island: None, nodes: Some(all) }]);
    }
    Ok(out)
}

fn is_opted_in(st: &State, group: &str) -> (r: bool)
    ensures
        r == opted_in(st@, group@),
{
    let nodes = served_nodes(st, group);
    let n: usize = nodes.len();
    let ghost order = nodes.order();
    let mut i: usize = 0;
    while i < n
        invariant
            i <= n,
            n == order.len(),
            order == nodes.order(),
            lists(order, nodes@.dom()),
            nodes@.dom() == served(st@, group@),
            forall|j: int| 0 <= j < i ==> !st@.tagged.contains(#[trigger] order[j]),
        decreases n - i,
    {
        let x = nodes.key_at(i);
        if st.fabrics.tagged.contains(x.as_str()) {
            proof {
                assert(served(st@, group@).contains(x@));
            }
            return true;
        }
        i += 1;
    }
    proof {
        assert forall|x: Seq<char>| #[trigger]
            served(st@, group@).contains(x) implies !st@.tagged.contains(x) by {
            assert(nodes@.dom().contains(x));
            let j = order.index_of(x);
            assert(order[j] == x);
        }
    }
    false
}

/// The scopes to try placing a group in, best first.
///
/// No nodes in a scope means "anywhere", which is the whole answer for a
/// single-bundle group and for a group that has not opted in. Otherwise the
/// driver's own island comes first -- keeping rank 0 next to the engine --
/// and the rest follow smallest-sufficient-first, so a two-node group does
/// not consume the only four-node fabric.
///
/// Every node also stands as an island of one, since a group whose bundles
/// all land on one node never crosses a fabric.
///
/// Opting in is per group: what counts is whether this group's own nodes
/// claim a fabric. A claim already settled where its group goes, and it
/// settled for every holder of that name.
pub fn placement_scopes(
    st: &State,
    group: &str,
    bundles: &Vec<u32>,
    driver: &str,
    claim: &str,
    by_island: bool,
) -> (r: Result<Vec<Scope>, String>)
    ensures
        match r {
            Ok(v) => scopes_of(st@, group@, bundles@, driver@, claim@, by_island) == Ok::<
                Seq<ScopeV>,
                Seq<char>,
            >(scope_views(v@)),
            Err(e) => scopes_of(st@, group@, bundles@, driver@, claim@, by_island) == Err::<
                Seq<ScopeV>,
                Seq<char>,
            >(e@),
        },
{
    if !claim.is_empty() {
        return scope_of_claim(st, group, claim);
    }
    let mut out: Vec<Scope> = Vec::new();
    if bundles.len() < 2 || !by_island || !is_opted_in(st, group) {
        out.push(Scope { island: None, nodes: None });
        proof {
            assert(scope_views(out@) =~= seq![ScopeV { island: None, nodes: None }]);
        }
        return Ok(out);
    }
    let need: u128 = total_need(bundles);
    let found = find_rooms(st, group, driver, need);
    if found.len() == 0 {
        return Err(no_island_reason(st, group, bundles.len(), need));
    }
    let order = in_trying_order(found);
    let ghost ov = room_views(order@);
    let mut i: usize = 0;
    while i < order.len()
        invariant
            ov == room_views(order@),
            i <= order@.len(),
            out@.len() == i,
            forall|j: int| 0 <= j < i ==> (#[trigger] out@[j])@ == room_scope(ov[j]),
        decreases order@.len() - i,
    {
        let isl = &order[i].island;
        proof {
            assert(ov[i as int] == order@[i as int]@);
        }
        let nodes = copied(&isl.nodes);
        let island = if isl.nodes.len() > 1 {
            Some(isl.copy())
        } else {
            None
        };
        out.push(Scope { island, nodes: Some(nodes) });
        i += 1;
    }
    proof {
        assert(scope_views(out@) =~= Seq::new(ov.len(), |i: int| room_scope(ov[i])));
    }
    Ok(out)
}

// ---------------------------------------------------------------------------
// Placing
// ---------------------------------------------------------------------------
/// The state after a group could not be placed for `why`. A reason that is
/// already on the row is not told again.
pub open spec fn pending_because(s: StateV, id: Seq<char>, why: Seq<char>) -> StateV {
    if !s.pgs.contains_key(id) || s.pgs[id].pending_reason == Some(why) {
        s
    } else {
        let p = PgV { pending_reason: Some(why), ..s.pgs[id] };
        StateV { pgs: s.pgs.insert(id, p), ..s }.emit(
            "pg_pending"@,
            seq![row_set(p.group, "placement_groups"@, id, pg_row_of(p))],
            Seq::empty(),
        )
    }
}

/// Record why a placement group cannot be placed, reporting a reason that
/// differs from the one already on the row.
///
/// Placement runs on every state change, so an unconditional event would
/// repeat one reason for as long as the group waits.
pub fn set_pending_reason(st: &mut State, id: &str, why: String)
    ensures
        final(st)@ == pending_because(old(st)@, id@, why@),
{
    let ghost s = st@;
    let known = match st.pgs.get(id) {
        Some(p) => match &p.pending_reason {
            Some(r) => same(r.as_str(), why.as_str()),
            None => false,
        },
        None => true,
    };
    if known {
        return ;
    }
    let ghost w = why@;
    if let Some(p) = st.pgs.get_mut(id) {
        p.pending_reason = Some(why);
    }
    let ghost p1 = PgV { pending_reason: Some(w), ..s.pgs[id@] };
    let ghost s1 = StateV { pgs: s.pgs.insert(id@, p1), ..s };
    proof {
        assert(st@.pgs =~= s1.pgs);
    }
    let mut patch: Vec<Patch> = Vec::new();
    if let Some(p) = st.pgs.get(id) {
        patch.push(row_patch(p.group.as_str(), "placement_groups", id, Some(pg_row(p))));
        proof {
            assert(p.deep_view() == s1.pgs[id@]);
            assert(patch_views(patch@) =~= seq![
                row_set(p1.group, "placement_groups"@, id@, pg_row_of(p1)),
            ]);
        }
    }
    st.emit_patch("pg_pending", patch, "");
    proof {
        reveal_strlit("");
        assert(""@ =~= Seq::<char>::empty());
    }
}

/// The first scope a group fits in, and how.
pub open spec fn first_fit(
    s: StateV,
    group: Seq<char>,
    bundles: Seq<u32>,
    driver: Seq<char>,
    scopes: Seq<ScopeV>,
) -> Option<(Option<IslandV>, Seq<Option<BundleV>>)>
    decreases scopes.len(),
{
    if scopes.len() == 0 {
        None
    } else {
        match fitted(s, group, bundles, driver, scopes[0].nodes) {
            Some(a) => Some((scopes[0].island, a)),
            None => first_fit(s, group, bundles, driver, scopes.drop_first()),
        }
    }
}

/// The node a group's driver is on, as far as this daemon knows.
pub open spec fn driver_node(s: StateV, owner: Seq<char>) -> Seq<char> {
    if s.clients.contains_key(owner) {
        s.clients[owner].node_id
    } else {
        Seq::empty()
    }
}

/// The state after one attempt to place a group. It is placed whole or not at
/// all.
pub open spec fn placed_one(s: StateV, id: Seq<char>, by_island: bool) -> StateV {
    let p = s.pgs[id];
    let driver = driver_node(s, p.owner);
    match scopes_of(s, p.group, p.bundles, driver, p.claim, by_island) {
        Err(why) => pending_because(s, id, why),
        Ok(scopes) => match first_fit(s, p.group, p.bundles, driver, scopes) {
            None => pending_because(s, id, no_fit_text(s, p.group, p.bundles)),
            Some((island, assignment)) => {
                let q = PgV {
                    assignment,
                    state: PgState::Created,
                    island,
                    pending_reason: None,
                    ..p
                };
                let t = StateV { pgs: s.pgs.insert(id, q), ..s };
                t.emit(
                    "pg_ready"@,
                    seq![row_set(q.group, "placement_groups"@, id, pg_row_of(q))]
                        + pg_agent_changes(t, id),
                    Seq::empty(),
                )
            },
        },
    }
}

/// The state after an attempt to place each of `ids` in turn.
pub open spec fn placed_all(s: StateV, ids: Seq<Seq<char>>, by_island: bool) -> StateV
    decreases ids.len(),
{
    if ids.len() == 0 {
        s
    } else {
        placed_one(placed_all(s, ids.drop_last(), by_island), ids.last(), by_island)
    }
}

/// The groups of `keys` that wait to be placed.
pub open spec fn pending_of(s: StateV, keys: Seq<Seq<char>>) -> Seq<Seq<char>>
    decreases keys.len(),
{
    if keys.len() == 0 {
        Seq::empty()
    } else {
        let had = pending_of(s, keys.drop_last());
        if s.pgs[keys.last()].state == PgState::Pending {
            had.push(keys.last())
        } else {
            had
        }
    }
}

/// The state after an attempt to place every group that waits.
pub open spec fn placed(s: StateV, by_island: bool) -> StateV {
    placed_all(s, pending_of(s, ordered(s.pgs.dom())), by_island)
}

proof fn lemma_pending_of(s: StateV, keys: Seq<Seq<char>>)
    requires
        forall|i: int| 0 <= i < keys.len() ==> s.pgs.contains_key(#[trigger] keys[i]),
    ensures
        forall|i: int|
            0 <= i < pending_of(s, keys).len() ==> s.pgs.contains_key(
                #[trigger] pending_of(s, keys)[i],
            ),
    decreases keys.len(),
{
    if keys.len() > 0 {
        let init = keys.drop_last();
        assert forall|i: int| 0 <= i < init.len() implies s.pgs.contains_key(#[trigger] init[i]) by {
            assert(init[i] == keys[i]);
        }
        lemma_pending_of(s, init);
        let had = pending_of(s, init);
        let out = pending_of(s, keys);
        assert forall|i: int| 0 <= i < out.len() implies s.pgs.contains_key(#[trigger] out[i]) by {
            if i < had.len() {
                assert(out[i] == had[i]);
            } else {
                assert(keys[keys.len() - 1] == out[i]);
            }
        }
    }
}

/// Placing adds no group and takes none away.
pub proof fn lemma_placed_one_keys(s: StateV, id: Seq<char>, by_island: bool)
    requires
        s.pgs.contains_key(id),
    ensures
        placed_one(s, id, by_island).pgs.dom() == s.pgs.dom(),
{
    let t = placed_one(s, id, by_island);
    assert(t.pgs.dom() =~= s.pgs.dom());
}

fn find_fit(
    st: &State,
    group: &str,
    bundles: &Vec<u32>,
    driver: &str,
    scopes: &Vec<Scope>,
) -> (r: Option<(Option<Island>, Vec<Option<BundleAssignment>>)>)
    ensures
        match r {
            Some((i, a)) => first_fit(st@, group@, bundles@, driver@, scope_views(scopes@)) == Some(
                (opt_island(i), bundle_views(a@)),
            ),
            None => first_fit(st@, group@, bundles@, driver@, scope_views(scopes@)) is None,
        },
{
    let ghost all = scope_views(scopes@);
    let mut i: usize = 0;
    proof {
        assert(all.skip(0) =~= all);
    }
    while i < scopes.len()
        invariant
            all == scope_views(scopes@),
            i <= scopes@.len(),
            first_fit(st@, group@, bundles@, driver@, all) == first_fit(
                st@,
                group@,
                bundles@,
                driver@,
                all.skip(i as int),
            ),
        decreases scopes@.len() - i,
    {
        let sc = &scopes[i];
        proof {
            assert(all.skip(i as int)[0] == sc@);
            assert(all.skip(i as int).drop_first() =~= all.skip(i + 1));
        }
        if let Some(a) = fit(st, group, bundles, driver, &sc.nodes) {
            let island = match &sc.island {
                Some(x) => Some(x.copy()),
                None => None,
            };
            return Some((island, a));
        }
        i += 1;
    }
    None
}

fn place_one(st: &mut State, id: &str, by_island: bool)
    requires
        old(st)@.pgs.contains_key(id@),
    ensures
        final(st)@ == placed_one(old(st)@, id@, by_island),
{
    let ghost s = st@;
    let (group, bundles, driver, claim) = match st.pgs.get(id) {
        Some(p) => {
            let driver = match st.clients.get(p.owner.as_str()) {
                Some(c) => c.node_id.clone(),
                None => String::new(),
            };
            (p.group.clone(), copy_u32(&p.bundles), driver, p.claim.clone())
        },
        None => return ,
    };
    let scopes = match placement_scopes(
        st,
        group.as_str(),
        &bundles,
        driver.as_str(),
        claim.as_str(),
        by_island,
    ) {
        Ok(v) => v,
        Err(why) => {
            set_pending_reason(st, id, why);
            return ;
        },
    };
    let (island, assignment) = match find_fit(
        st,
        group.as_str(),
        &bundles,
        driver.as_str(),
        &scopes,
    ) {
        Some(x) => x,
        None => {
            let why = no_fit_reason(st, group.as_str(), &bundles);
            set_pending_reason(st, id, why);
            return ;
        },
    };
    let ghost q = PgV {
        assignment: bundle_views(assignment@),
        state: PgState::Created,
        island: opt_island(island),
        pending_reason: None,
        ..s.pgs[id@]
    };
    let ghost t = StateV { pgs: s.pgs.insert(id@, q), ..s };
    if let Some(p) = st.pgs.get_mut(id) {
        p.assignment = assignment;
        p.state = PgState::Created;
        p.island = island;
        p.pending_reason = None;
    }
    proof {
        assert(st@.pgs =~= t.pgs);
        assert(st@ =~= t);
    }
    let mut patch: Vec<Patch> = Vec::new();
    if let Some(p) = st.pgs.get(id) {
        patch.push(row_patch(p.group.as_str(), "placement_groups", id, Some(pg_row(p))));
        proof {
            assert(p.deep_view() == t.pgs[id@]);
            assert(patch_views(patch@) =~= seq![
                row_set(q.group, "placement_groups"@, id@, pg_row_of(q)),
            ]);
        }
    }
    agent_patches(st, id, &mut patch);
    st.emit_patch("pg_ready", patch, "");
    proof {
        reveal_strlit("");
        assert(""@ =~= Seq::<char>::empty());
    }
}

/// Try to complete every pending placement group. All-or-nothing per group:
/// partial reservations are never held, so two pending groups can't deadlock.
///
/// A group of more than one bundle is placed inside one fabric island. Ranks
/// split across two fabrics would rendezvous and then hang. Waiting is the
/// better answer: the group stays PENDING and fails loudly at the pending
/// timeout, naming what it could not find.
///
/// The constraint applies only where it means something. A cluster with no
/// derived island places exactly as it did before fabrics existed, and a node
/// is its own island of one.
pub fn try_place(st: &mut State, by_island: bool)
    ensures
        final(st)@ == placed(old(st)@, by_island),
{
    let ghost s = st@;
    let n: usize = st.pgs.len();
    let ghost order = st.pgs.order();
    let mut ids: Vec<String> = Vec::new();
    let mut i: usize = 0;
    proof {
        assert(s.pgs.dom() =~= st.pgs@.dom());
        assert(texts(ids@) =~= Seq::<Seq<char>>::empty());
    }
    while i < n
        invariant
            i <= n,
            n == order.len(),
            order == st.pgs.order(),
            s == st@,
            texts(ids@) == pending_of(s, order.take(i as int)),
        decreases n - i,
    {
        let p = st.pgs.val_at(i);
        proof {
            assert(order.take(i + 1).drop_last() =~= order.take(i as int));
            assert(order.take(i + 1).last() == order[i as int]);
            assert(s.pgs[order[i as int]] == p.deep_view());
        }
        if p.state == PgState::Pending {
            let ghost was = ids@;
            ids.push(st.pgs.key_at(i).clone());
            proof {
                assert(texts(ids@) =~= texts(was).push(order[i as int]));
            }
        }
        i += 1;
    }
    let ghost todo = texts(ids@);
    proof {
        assert(order.take(order.len() as int) =~= order);
        assert forall|j: int| 0 <= j < order.len() implies s.pgs.contains_key(#[trigger] order[j]) by {
            assert(order.contains(order[j]));
            assert(st.pgs@.dom().contains(order[j]));
        }
        lemma_pending_of(s, order);
        assert(placed_all(s, todo.take(0), by_island) == s);
    }
    let mut k: usize = 0;
    while k < ids.len()
        invariant
            k <= ids@.len(),
            todo == texts(ids@),
            st@ == placed_all(s, todo.take(k as int), by_island),
            st@.pgs.dom() == s.pgs.dom(),
            forall|j: int| 0 <= j < todo.len() ==> s.pgs.contains_key(#[trigger] todo[j]),
        decreases ids@.len() - k,
    {
        proof {
            assert(todo.take(k + 1).drop_last() =~= todo.take(k as int));
            assert(todo.take(k + 1).last() == ids@[k as int]@);
            assert(s.pgs.contains_key(todo[k as int]));
            assert(s.pgs.dom().contains(todo[k as int]));
            assert(st@.pgs.dom().contains(todo[k as int]));
            lemma_placed_one_keys(st@, todo[k as int], by_island);
        }
        place_one(st, ids[k].as_str(), by_island);
        k += 1;
    }
    proof {
        assert(todo.take(todo.len() as int) =~= todo);
    }
}

} // verus!
