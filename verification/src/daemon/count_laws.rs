//! How many GPUs are free, held and there, counted one by one.

use vstd::prelude::*;

use crate::common::dict::{lemma_finite_lists, lemma_increasing_distinct, ordered};
use crate::daemon::claim::{solved, RequestV};
use crate::daemon::claim_laws::{law_sets_are_well_placed, well_placed};
use crate::daemon::claims::{
    gather, nothing, ports_of, topology_of, with_agents, with_node, with_peers, GatherV,
};
use crate::daemon::state::{actor_holds, gpu_indices, pg_holds, reserves, PgState, PgV, StateV};
use crate::serve::stream_laws::lemma_group_names;
use crate::daemon::status::{counts, gpus_total, gpus_used, group_row, LocalV};

verus! {

// ---------------------------------------------------------------------------
// GPUs
// ---------------------------------------------------------------------------
/// Whether one bundle of a placement group reserves a GPU of an agent.
pub open spec fn reserved_by(p: PgV, i: int, agent: Seq<char>, g: u32) -> bool {
    &&& p.state == PgState::Created
    &&& 0 <= i < p.assignment.len()
    &&& p.assignment[i] is Some
    &&& p.assignment[i]->Some_0.agent == agent
    &&& p.assignment[i]->Some_0.gpu_ids.contains(g)
}

/// Whether a GPU of an agent is taken: a bundle of a created placement group
/// reserves it, or an actor that is not dead runs on it.
pub open spec fn taken(s: StateV, agent: Seq<char>, g: u32) -> bool {
    ||| exists|k: Seq<char>, i: int|
        s.pgs.contains_key(k) && #[trigger] reserved_by(s.pgs[k], i, agent, g)
    ||| exists|k: Seq<char>| #[trigger]
        s.actors.contains_key(k) && s.actors[k].agent == agent && !(s.actors[k].state is Dead)
            && s.actors[k].gpu_ids.contains(g)
}

/// The GPUs of all agents that a condition holds of, each as its agent and its
/// place among that agent's devices.
pub open spec fn gpus_where(s: StateV, p: spec_fn(Seq<char>, int) -> bool) -> Set<
    (Seq<char>, int),
> {
    Set::new(
        |x: (Seq<char>, int)|
            s.agents.contains_key(x.0) && 0 <= x.1 < s.agents[x.0].machine.gpus.len() && p(
                x.0,
                x.1,
            ),
    )
}

/// Whether a device of an agent is taken.
pub open spec fn device_taken(s: StateV, k: Seq<char>, i: int) -> bool {
    taken(s, k, s.agents[k].machine.gpus[i].index)
}

proof fn lemma_taken(s: StateV, agent: Seq<char>, g: u32)
    ensures
        s.held(agent, g) == taken(s, agent, g),
{
    if s.held(agent, g) && (exists|k: Seq<char>| #[trigger]
        s.pgs.contains_key(k) && pg_holds(s.pgs[k], agent, g)) {
        let k = choose|k: Seq<char>| #[trigger]
            s.pgs.contains_key(k) && pg_holds(s.pgs[k], agent, g);
        let bs = s.pgs[k].assignment;
        let i = choose|i: int|
            0 <= i < bs.len() && (#[trigger] bs[i]) is Some && bs[i]->Some_0.agent == agent
                && bs[i]->Some_0.gpu_ids.contains(g);
        assert(reserved_by(s.pgs[k], i, agent, g));
    }
    if exists|k: Seq<char>, i: int|
        s.pgs.contains_key(k) && #[trigger] reserved_by(s.pgs[k], i, agent, g) {
        let (k, i) = choose|k: Seq<char>, i: int|
            s.pgs.contains_key(k) && #[trigger] reserved_by(s.pgs[k], i, agent, g);
        let bs = s.pgs[k].assignment;
        assert(bs[i] is Some);
        assert(reserves(bs, agent, g));
        assert(s.pgs.contains_key(k) && pg_holds(s.pgs[k], agent, g));
    }
    if exists|k: Seq<char>| #[trigger]
        s.actors.contains_key(k) && s.actors[k].agent == agent && !(s.actors[k].state is Dead)
            && s.actors[k].gpu_ids.contains(g) {
        let k = choose|k: Seq<char>| #[trigger]
            s.actors.contains_key(k) && s.actors[k].agent == agent && !(s.actors[k].state is Dead)
                && s.actors[k].gpu_ids.contains(g);
        assert(actor_holds(s.actors[k], agent, g));
    }
}

/// The free GPUs of an agent are those of its devices that nothing has taken, in
/// device order.
pub proof fn law_free_gpus_are_those_not_taken(s: StateV, agent: Seq<char>)
    requires
        s.agents.contains_key(agent),
    ensures
        s.free_gpus(agent) == Seq::new(
            s.agents[agent].machine.gpus.len(),
            |i: int| s.agents[agent].machine.gpus[i].index,
        ).filter(|g: u32| !taken(s, agent, g)),
{
    let all = gpu_indices(s.agents[agent].machine);
    assert(all =~= Seq::new(
        s.agents[agent].machine.gpus.len(),
        |i: int| s.agents[agent].machine.gpus[i].index,
    ));
    lemma_unheld_filter(s, agent, all);
}

proof fn lemma_unheld_filter(s: StateV, agent: Seq<char>, all: Seq<u32>)
    ensures
        s.unheld(agent, all) == all.filter(|g: u32| !taken(s, agent, g)),
    decreases all.len(),
{
    reveal(Seq::filter);
    if all.len() > 0 {
        lemma_unheld_filter(s, agent, all.drop_last());
        lemma_taken(s, agent, all.last());
    }
}

// ---------------------------------------------------------------------------
// Counting
// ---------------------------------------------------------------------------
/// How many of an agent's first `m` devices a condition holds of.
pub(crate) open spec fn tally_one(k: Seq<char>, m: nat, q: spec_fn(Seq<char>, int) -> bool) -> nat
    decreases m,
{
    if m == 0 {
        0
    } else {
        tally_one(k, (m - 1) as nat, q) + (if q(k, m - 1) {
            1nat
        } else {
            0
        })
    }
}

/// How many devices of some agents a condition holds of.
pub(crate) open spec fn tally(s: StateV, keys: Seq<Seq<char>>, q: spec_fn(Seq<char>, int) -> bool) -> nat
    decreases keys.len(),
{
    if keys.len() == 0 {
        0
    } else {
        tally(s, keys.drop_last(), q) + tally_one(
            keys.last(),
            s.agents[keys.last()].machine.gpus.len(),
            q,
        )
    }
}

/// The devices of some agents, and the first `m` of one more, that a condition
/// holds of.
spec fn among(
    s: StateV,
    keys: Seq<Seq<char>>,
    k: Seq<char>,
    m: nat,
    q: spec_fn(Seq<char>, int) -> bool,
) -> Set<(Seq<char>, int)> {
    Set::new(
        |x: (Seq<char>, int)|
            q(x.0, x.1) && ((keys.contains(x.0) && 0 <= x.1 < s.agents[x.0].machine.gpus.len())
                || (x.0 == k && 0 <= x.1 < m)),
    )
}

proof fn lemma_among(
    s: StateV,
    keys: Seq<Seq<char>>,
    k: Seq<char>,
    m: nat,
    q: spec_fn(Seq<char>, int) -> bool,
)
    requires
        keys.no_duplicates(),
        !keys.contains(k),
    ensures
        among(s, keys, k, m, q).finite(),
        among(s, keys, k, m, q).len() == tally(s, keys, q) + tally_one(k, m, q),
    decreases keys.len(), m,
{
    let out = among(s, keys, k, m, q);
    if m > 0 {
        lemma_among(s, keys, k, (m - 1) as nat, q);
        let had = among(s, keys, k, (m - 1) as nat, q);
        if q(k, m - 1) {
            assert(out =~= had.insert((k, m - 1)));
            assert(!had.contains((k, m - 1)));
        } else {
            assert(out =~= had);
        }
    } else if keys.len() > 0 {
        let init = keys.drop_last();
        let last = keys.last();
        assert(!init.contains(last)) by {
            if init.contains(last) {
                assert(keys[init.index_of(last)] == keys[keys.len() - 1]);
            }
        }
        assert(init.no_duplicates()) by {
            assert forall|a: int, b: int|
                0 <= a < init.len() && 0 <= b < init.len() && a != b implies init[a] != init[b] by {
                assert(init[a] == keys[a] && init[b] == keys[b]);
            }
        }
        let n = s.agents[last].machine.gpus.len();
        lemma_among(s, init, last, n, q);
        assert forall|x: Seq<char>| keys.contains(x) == (init.contains(x) || x == last) by {
            if keys.contains(x) {
                let i = keys.index_of(x);
                if i < init.len() {
                    assert(init[i] == x);
                }
            }
            if init.contains(x) {
                assert(keys[init.index_of(x)] == x);
            }
            assert(keys[keys.len() - 1] == last);
        }
        assert(out =~= among(s, init, last, n, q));
    } else {
        assert(out =~= Set::empty());
    }
}

/// The devices of all agents that a condition holds of, counted agent by agent.
pub(crate) proof fn lemma_tally(s: StateV, q: spec_fn(Seq<char>, int) -> bool)
    requires
        s.agents.dom().finite(),
    ensures
        gpus_where(s, q).finite(),
        gpus_where(s, q).len() == tally(s, ordered(s.agents.dom()), q),
{
    let keys = ordered(s.agents.dom());
    lemma_finite_lists(s.agents.dom());
    assert(keys.no_duplicates()) by {
        assert forall|a: int, b: int|
            0 <= a < keys.len() && 0 <= b < keys.len() && a != b implies keys[a] != keys[b] by {
            if keys[a] == keys[b] {
                lemma_increasing_distinct(keys, a, b);
            }
        }
    }
    let k = choose|k: Seq<char>| !keys.contains(k);
    assert(exists|k: Seq<char>| !keys.contains(k)) by {
        lemma_a_text_besides(keys);
    }
    lemma_among(s, keys, k, 0, q);
    assert forall|x: (Seq<char>, int)| gpus_where(s, q).contains(x) == among(
        s,
        keys,
        k,
        0,
        q,
    ).contains(x) by {
        assert(keys.contains(x.0) == s.agents.dom().contains(x.0));
    }
    assert(gpus_where(s, q) =~= among(s, keys, k, 0, q));
}

/// A text longer than each of some is none of them.
proof fn lemma_a_text_besides(keys: Seq<Seq<char>>)
    ensures
        exists|k: Seq<char>| !keys.contains(k),
{
    let n = longest(keys);
    let k = Seq::new((n + 1) as nat, |i: int| 'x');
    lemma_longest(keys);
    if keys.contains(k) {
        let i = keys.index_of(k);
        assert(keys[i].len() <= n);
    }
    assert(!keys.contains(k));
}

spec fn longest(keys: Seq<Seq<char>>) -> nat
    decreases keys.len(),
{
    if keys.len() == 0 {
        0
    } else {
        let n = longest(keys.drop_last());
        if n >= keys.last().len() {
            n
        } else {
            keys.last().len()
        }
    }
}

proof fn lemma_longest(keys: Seq<Seq<char>>)
    ensures
        forall|i: int| 0 <= i < keys.len() ==> (#[trigger] keys[i]).len() <= longest(keys),
    decreases keys.len(),
{
    if keys.len() > 0 {
        let init = keys.drop_last();
        lemma_longest(init);
        assert forall|i: int| 0 <= i < keys.len() implies (#[trigger] keys[i]).len() <= longest(
            keys,
        ) by {
            if i < init.len() {
                assert(init[i] == keys[i]);
            }
        }
    }
}

pub(crate) proof fn lemma_nothing_counted(k: Seq<char>, m: nat, q: spec_fn(Seq<char>, int) -> bool)
    requires
        forall|i: int| 0 <= i < m ==> !(#[trigger] q(k, i)),
    ensures
        tally_one(k, m, q) == 0,
    decreases m,
{
    if m > 0 {
        lemma_nothing_counted(k, (m - 1) as nat, q);
    }
}

pub(crate) proof fn lemma_all_counted(k: Seq<char>, m: nat, q: spec_fn(Seq<char>, int) -> bool)
    requires
        forall|i: int| 0 <= i < m ==> #[trigger] q(k, i),
    ensures
        tally_one(k, m, q) == m,
    decreases m,
{
    if m > 0 {
        lemma_all_counted(k, (m - 1) as nat, q);
    }
}

pub(crate) proof fn lemma_unheld_counted(
    s: StateV,
    k: Seq<char>,
    gpus: Seq<u32>,
    q: spec_fn(Seq<char>, int) -> bool,
    free: bool,
)
    requires
        forall|i: int| 0 <= i < gpus.len() ==> q(k, i) == (free != taken(s, k, #[trigger] gpus[i])),
    ensures
        tally_one(k, gpus.len(), q) == (if free {
            s.unheld(k, gpus).len() as int
        } else {
            gpus.len() - s.unheld(k, gpus).len()
        }),
    decreases gpus.len(),
{
    if gpus.len() > 0 {
        let init = gpus.drop_last();
        assert forall|i: int| 0 <= i < init.len() implies q(k, i) == (free != taken(
            s,
            k,
            #[trigger] init[i],
        )) by {
            assert(init[i] == gpus[i]);
        }
        lemma_unheld_counted(s, k, init, q, free);
        lemma_taken(s, k, gpus.last());
        assert(gpus[gpus.len() - 1] == gpus.last());
    }
}

// ---------------------------------------------------------------------------
// A group's counts
// ---------------------------------------------------------------------------
proof fn lemma_totals(s: StateV, g: Seq<char>, keys: Seq<Seq<char>>)
    requires
        forall|i: int| 0 <= i < keys.len() ==> s.agents.contains_key(#[trigger] keys[i]),
    ensures
        gpus_total(s, g, keys) == tally(
            s,
            keys,
            |k: Seq<char>, i: int| s.agents[k].alive && s.agents[k].group == g,
        ),
        gpus_used(s, g, keys) == tally(
            s,
            keys,
            |k: Seq<char>, i: int|
                s.agents[k].alive && s.agents[k].group == g && device_taken(s, k, i),
        ),
    decreases keys.len(),
{
    if keys.len() > 0 {
        let init = keys.drop_last();
        assert forall|i: int| 0 <= i < init.len() implies s.agents.contains_key(
            #[trigger] init[i],
        ) by {
            assert(init[i] == keys[i]);
        }
        lemma_totals(s, g, init);
        let k = keys.last();
        assert(keys[keys.len() - 1] == k);
        let a = s.agents[k];
        let all = gpu_indices(a.machine);
        let p = |k: Seq<char>, i: int| s.agents[k].alive && s.agents[k].group == g;
        let q = |k: Seq<char>, i: int|
            s.agents[k].alive && s.agents[k].group == g && device_taken(s, k, i);
        if counts(a, g) {
            lemma_all_counted(k, all.len(), p);
            assert forall|i: int| 0 <= i < all.len() implies q(k, i) == (false != taken(
                s,
                k,
                #[trigger] all[i],
            )) by {
                assert(all[i] == a.machine.gpus[i].index);
            }
            lemma_unheld_counted(s, k, all, q, false);
            assert(s.free_gpus(k) == s.unheld(k, all));
        } else {
            lemma_nothing_counted(k, all.len(), p);
            lemma_nothing_counted(k, all.len(), q);
        }
    }
}

pub(crate) proof fn lemma_keys(s: StateV)
    requires
        s.agents.dom().finite(),
    ensures
        forall|i: int|
            0 <= i < ordered(s.agents.dom()).len() ==> s.agents.contains_key(
                #[trigger] ordered(s.agents.dom())[i],
            ),
{
    let keys = ordered(s.agents.dom());
    lemma_finite_lists(s.agents.dom());
    assert forall|i: int| 0 <= i < keys.len() implies s.agents.contains_key(#[trigger] keys[i]) by {
        assert(keys.contains(keys[i]));
        assert(s.agents.dom().contains(keys[i]));
    }
}

/// The smaller of a count and the largest that a `u64` holds.
pub open spec fn at_most_u64(n: nat) -> int {
    if n > u64::MAX {
        u64::MAX as int
    } else {
        n as int
    }
}

/// A group's row counts GPUs: in all, those of the live agents of the group, and as
/// used, those of them that are taken.
pub proof fn law_a_group_counts_its_gpus(s: StateV, g: Seq<char>)
    requires
        s.agents.dom().finite(),
    ensures
        ({
            let there = gpus_where(
                s,
                |k: Seq<char>, i: int| s.agents[k].alive && s.agents[k].group == g,
            );
            let used = gpus_where(
                s,
                |k: Seq<char>, i: int|
                    s.agents[k].alive && s.agents[k].group == g && device_taken(s, k, i),
            );
            &&& there.finite() && used.finite()
            &&& group_row(s, g).field("gpus_total"@).uint() is Some
            &&& group_row(s, g).field("gpus_total"@).uint()->0 == at_most_u64(there.len())
            &&& group_row(s, g).field("gpus_used"@).uint() is Some
            &&& group_row(s, g).field("gpus_used"@).uint()->0 == at_most_u64(used.len())
        }),
{
    let keys = ordered(s.agents.dom());
    lemma_keys(s);
    lemma_totals(s, g, keys);
    lemma_tally(s, |k: Seq<char>, i: int| s.agents[k].alive && s.agents[k].group == g);
    lemma_tally(
        s,
        |k: Seq<char>, i: int|
            s.agents[k].alive && s.agents[k].group == g && device_taken(s, k, i),
    );
    lemma_group_names();
}

// ---------------------------------------------------------------------------
// What a claim is solved on
// ---------------------------------------------------------------------------
/// The GPUs of a node that a claim can be given: those of its live agents that
/// nothing has taken.
pub open spec fn free_on(s: StateV, n: Seq<char>) -> Set<(Seq<char>, int)> {
    gpus_where(
        s,
        |k: Seq<char>, i: int|
            s.agents[k].alive && s.agents[k].node_id == n && !device_taken(s, k, i),
    )
}

proof fn lemma_agents_counted(g: GatherV, s: StateV, keys: Seq<Seq<char>>, n: Seq<char>)
    requires
        g.free_gpus == Map::<Seq<char>, u64>::empty(),
        forall|i: int| 0 <= i < keys.len() ==> s.agents.contains_key(#[trigger] keys[i]),
    ensures
        ({
            let m = with_agents(g, s, keys).free_gpus;
            &&& m.contains_key(n) <==> exists|i: int|
                0 <= i < keys.len() && s.agents[#[trigger] keys[i]].alive
                    && s.agents[keys[i]].node_id == n
            &&& (if m.contains_key(n) {
                m[n] as int
            } else {
                0
            }) == at_most_u64(
                tally(
                    s,
                    keys,
                    |k: Seq<char>, i: int|
                        s.agents[k].alive && s.agents[k].node_id == n && !device_taken(s, k, i),
                ),
            )
        }),
    decreases keys.len(),
{
    if keys.len() > 0 {
        let init = keys.drop_last();
        assert forall|i: int| 0 <= i < init.len() implies s.agents.contains_key(
            #[trigger] init[i],
        ) by {
            assert(init[i] == keys[i]);
        }
        lemma_agents_counted(g, s, init, n);
        let k = keys.last();
        assert(keys[keys.len() - 1] == k);
        let a = s.agents[k];
        let all = gpu_indices(a.machine);
        let q = |k: Seq<char>, i: int|
            s.agents[k].alive && s.agents[k].node_id == n && !device_taken(s, k, i);
        if a.alive && a.node_id == n {
            assert forall|i: int| 0 <= i < all.len() implies q(k, i) == (true != taken(
                s,
                k,
                #[trigger] all[i],
            )) by {
                assert(all[i] == a.machine.gpus[i].index);
            }
            lemma_unheld_counted(s, k, all, q, true);
            assert(s.free_gpus(k) == s.unheld(k, all));
        } else {
            lemma_nothing_counted(k, all.len(), q);
        }
        let had = with_agents(g, s, init).free_gpus;
        let m = with_agents(g, s, keys).free_gpus;
        if had.contains_key(n) {
            let i = choose|i: int|
                0 <= i < init.len() && s.agents[#[trigger] init[i]].alive
                    && s.agents[init[i]].node_id == n;
            assert(keys[i] == init[i]);
        }
        if exists|i: int|
            0 <= i < keys.len() && s.agents[#[trigger] keys[i]].alive && s.agents[keys[i]].node_id
                == n {
            let i = choose|i: int|
                0 <= i < keys.len() && s.agents[#[trigger] keys[i]].alive
                    && s.agents[keys[i]].node_id == n;
            if i < init.len() {
                assert(init[i] == keys[i]);
            }
        }
    }
}

proof fn lemma_peers_give_no_gpus(
    g: GatherV,
    s: StateV,
    keys: Seq<Seq<char>>,
)
    ensures
        with_peers(g, s.peers, keys).free_gpus == g.free_gpus,
    decreases keys.len(),
{
    if keys.len() > 0 {
        lemma_peers_give_no_gpus(g, s, keys.drop_last());
    }
}

/// A claim is solved on the nodes that live agents are on, each with as many GPUs as
/// its live agents have that nothing has taken.
pub proof fn law_a_claim_is_solved_on_free_gpus(s: StateV, local: LocalV, n: Seq<char>)
    requires
        s.agents.dom().finite(),
    ensures
        free_on(s, n).finite(),
        topology_of(s, local).free(n) == at_most_u64(free_on(s, n).len()),
        topology_of(s, local).nodes.contains(n) <==> exists|k: Seq<char>| #[trigger]
            s.agents.contains_key(k) && s.agents[k].alive && s.agents[k].node_id == n,
{
    let keys = ordered(s.agents.dom());
    lemma_keys(s);
    lemma_finite_lists(s.agents.dom());
    let own = with_node(
        nothing(),
        s.node_id,
        s.hostname,
        ports_of(local.addrs, local.addr_tags, local.addr_ifaces),
    );
    let met = with_peers(own, s.peers, ordered(s.peers.dom()));
    lemma_peers_give_no_gpus(own, s, ordered(s.peers.dom()));
    lemma_agents_counted(met, s, keys, n);
    lemma_tally(
        s,
        |k: Seq<char>, i: int|
            s.agents[k].alive && s.agents[k].node_id == n && !device_taken(s, k, i),
    );
    let m = gather(s, local).free_gpus;
    lemma_gathered_finite(met, s, keys);
    lemma_finite_lists(m.dom());
    assert(m.dom().contains(n) == m.contains_key(n));
    if exists|k: Seq<char>| #[trigger]
        s.agents.contains_key(k) && s.agents[k].alive && s.agents[k].node_id == n {
        let k = choose|k: Seq<char>| #[trigger]
            s.agents.contains_key(k) && s.agents[k].alive && s.agents[k].node_id == n;
        assert(s.agents.dom().contains(k));
        assert(keys[keys.index_of(k)] == k);
    }
}

proof fn lemma_gathered_finite(g: GatherV, s: StateV, keys: Seq<Seq<char>>)
    requires
        g.free_gpus == Map::<Seq<char>, u64>::empty(),
    ensures
        with_agents(g, s, keys).free_gpus.dom().finite(),
    decreases keys.len(),
{
    if keys.len() > 0 {
        lemma_gathered_finite(g, s, keys.drop_last());
        let had = with_agents(g, s, keys.drop_last()).free_gpus;
        let a = s.agents[keys.last()];
        if a.alive {
            assert(with_agents(g, s, keys).free_gpus.dom() =~= had.dom().insert(a.node_id));
        }
    } else {
        assert(g.free_gpus.dom() =~= Set::empty());
    }
}

/// A claim that is granted anew gives each member a node on which as many GPUs as the
/// member asks for are free: of live agents, and taken by nothing.
pub proof fn law_a_granted_claim_has_its_gpus(s: StateV, local: LocalV, req: RequestV, i: int, j: int)
    requires
        s.agents.dom().finite(),
        solved(topology_of(s, local), req) is Ok,
        0 <= i < req.sets.len(),
        0 <= j < req.sets[i].bundles.len(),
    ensures
        ({
            let sets = (solved(topology_of(s, local), req)->Ok_0).sets;
            let name = req.sets[i].name;
            &&& sets.contains_key(name)
            &&& sets[name].len() == req.sets[i].bundles.len()
            &&& free_on(s, sets[name][j].node).finite()
            &&& free_on(s, sets[name][j].node).len() >= req.sets[i].bundles[j]
        }),
{
    let t = topology_of(s, local);
    law_sets_are_well_placed(t, req);
    let sets = (solved(t, req)->Ok_0).sets;
    let set = req.sets[i];
    let nodes = Seq::new(sets[set.name].len(), |k: int| sets[set.name][k].node);
    assert(well_placed(t, set, nodes));
    assert(t.free(nodes[j]) >= set.bundles[j]);
    law_a_claim_is_solved_on_free_gpus(s, local, nodes[j]);
}

} // verus!
