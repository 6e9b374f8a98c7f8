//! What holds of every answer that `claim::solve` gives.

use vstd::prelude::*;

use crate::common::text::{
    before, lemma_before_asymmetric, lemma_before_irreflexive, lemma_before_total,
    lemma_before_transitive,
};
use crate::daemon::claim::{
    all_bound, assignment, best_from_port, best_link, best_path, better_of, bind_of, bound,
    choices, completed, distinct_names, first_of, first_serving, goes_before, has_set,
    island_choices, lemma_completed, lemma_place_of, lemma_placing_order_names, links_between,
    picked, place_of, placing_order, serves, solved, usable, BetweenV, Link, MemberV, PathV,
    PortV, RequestV, SetV, TopologyV,
};

verus! {

// ---------------------------------------------------------------------------
// The order of placing
// ---------------------------------------------------------------------------
proof fn lemma_goes_before_transitive(a: SetV, b: SetV, c: SetV)
    requires
        !goes_before(b, a),
        !goes_before(c, b),
    ensures
        !goes_before(c, a),
{
}

proof fn lemma_goes_before_asymmetric(a: SetV, b: SetV)
    requires
        goes_before(a, b),
    ensures
        !goes_before(b, a),
{
}

proof fn lemma_place_parts(sorted: Seq<SetV>, s: SetV)
    ensures
        forall|k: int|
            place_of(sorted, s) <= k < sorted.len() ==> goes_before(s, #[trigger] sorted[k]),
        place_of(sorted, s) > 0 ==> !goes_before(s, sorted[place_of(sorted, s) - 1]),
    decreases sorted.len(),
{
    if sorted.len() > 0 && goes_before(s, sorted.last()) {
        let init = sorted.drop_last();
        lemma_place_parts(init, s);
        lemma_place_of(init, s);
        assert forall|k: int| place_of(sorted, s) <= k < sorted.len() implies goes_before(
            s,
            #[trigger] sorted[k],
        ) by {
            if k < init.len() {
                assert(init[k] == sorted[k]);
            }
        }
    }
}

/// Sets are placed in order: none comes behind one that has to wait for it.
pub proof fn law_placing_order_is_sorted(sets: Seq<SetV>)
    ensures
        forall|i: int, j: int|
            0 <= i < j < placing_order(sets).len() ==> !goes_before(
                #[trigger] placing_order(sets)[j],
                #[trigger] placing_order(sets)[i],
            ),
    decreases sets.len(),
{
    if sets.len() > 0 {
        let had = placing_order(sets.drop_last());
        let s = sets.last();
        let p = place_of(had, s);
        let out = placing_order(sets);
        law_placing_order_is_sorted(sets.drop_last());
        lemma_place_of(had, s);
        lemma_place_parts(had, s);
        assert(out == had.insert(p, s));
        assert forall|i: int, j: int| 0 <= i < j < out.len() implies !goes_before(
            #[trigger] out[j],
            #[trigger] out[i],
        ) by {
            let x = if i < p {
                i
            } else {
                i - 1
            };
            let y = if j < p {
                j
            } else {
                j - 1
            };
            if i == p {
                assert(out[j] == had[y]);
                lemma_goes_before_asymmetric(s, had[y]);
            } else if j == p {
                assert(out[i] == had[x]);
                if x < p - 1 {
                    assert(!goes_before(had[p - 1], had[x]));
                    lemma_goes_before_transitive(had[x], had[p - 1], s);
                }
            } else {
                assert(out[i] == had[x] && out[j] == had[y]);
            }
        }
    }
}

/// A set that needs a fabric is placed before every loose one, whatever order
/// the caller wrote.
pub proof fn law_fabric_sets_are_placed_first(sets: Seq<SetV>)
    ensures
        forall|i: int, j: int|
            0 <= i < j < placing_order(sets).len() && (#[trigger] placing_order(sets)[j]).link
                == Link::Rdma ==> (#[trigger] placing_order(sets)[i]).link == Link::Rdma,
{
    law_placing_order_is_sorted(sets);
}

/// The sets that need a fabric, or those that do not, in the order given.
pub open spec fn of_kind(sets: Seq<SetV>, fabric: bool) -> Seq<SetV>
    decreases sets.len(),
{
    if sets.len() == 0 {
        Seq::empty()
    } else {
        let had = of_kind(sets.drop_last(), fabric);
        if (sets.last().link == Link::Rdma) == fabric {
            had.push(sets.last())
        } else {
            had
        }
    }
}

proof fn lemma_of_kind(sets: Seq<SetV>, fabric: bool)
    ensures
        forall|i: int|
            0 <= i < of_kind(sets, fabric).len() ==> ((#[trigger] of_kind(sets, fabric)[i]).link
                == Link::Rdma) == fabric,
    decreases sets.len(),
{
    if sets.len() > 0 {
        lemma_of_kind(sets.drop_last(), fabric);
    }
}

proof fn lemma_place_behind(sorted: Seq<SetV>, s: SetV, n: int)
    requires
        0 <= n <= sorted.len(),
        forall|k: int| n <= k < sorted.len() ==> goes_before(s, #[trigger] sorted[k]),
        n > 0 ==> !goes_before(s, sorted[n - 1]),
    ensures
        place_of(sorted, s) == n,
    decreases sorted.len(),
{
    if n < sorted.len() {
        assert(goes_before(s, sorted[sorted.len() - 1]));
        lemma_place_behind(sorted.drop_last(), s, n);
    }
}

/// Sets are placed in the order given, with those that need a fabric first.
pub proof fn law_sets_keep_the_order_given(sets: Seq<SetV>)
    ensures
        placing_order(sets) == of_kind(sets, true) + of_kind(sets, false),
    decreases sets.len(),
{
    if sets.len() > 0 {
        let init = sets.drop_last();
        let s = sets.last();
        law_sets_keep_the_order_given(init);
        lemma_of_kind(init, true);
        lemma_of_kind(init, false);
        let a = of_kind(init, true);
        let b = of_kind(init, false);
        let had = a + b;
        if s.link == Link::Rdma {
            assert forall|k: int| a.len() <= k < had.len() implies goes_before(
                s,
                #[trigger] had[k],
            ) by {
                assert(had[k] == b[k - a.len()]);
            }
            if a.len() > 0 {
                assert(had[a.len() - 1] == a[a.len() - 1]);
            }
            lemma_place_behind(had, s, a.len() as int);
            assert(had.insert(a.len() as int, s) =~= a.push(s) + b);
        } else {
            lemma_place_behind(had, s, had.len() as int);
            assert(had.insert(had.len() as int, s) =~= a + b.push(s));
        }
    } else {
        assert(placing_order(sets) =~= of_kind(sets, true) + of_kind(sets, false));
    }
}

// ---------------------------------------------------------------------------
// What a set is given
// ---------------------------------------------------------------------------
/// Whether a topology lists each node once, at large and on each island.
pub open spec fn lists_once(t: TopologyV) -> bool {
    t.nodes.no_duplicates() && forall|k: int|
        0 <= k < t.islands.len() ==> (#[trigger] t.islands[k]).no_duplicates()
}

/// Nodes that a set may be given: one for each bundle, each with the GPUs its
/// bundle asks for, none of them twice, all on one island where the set needs a
/// fabric.
pub open spec fn well_placed(t: TopologyV, set: SetV, nodes: Seq<Seq<char>>) -> bool {
    &&& nodes.len() == set.bundles.len()
    &&& forall|i: int| 0 <= i < nodes.len() ==> t.free(#[trigger] nodes[i]) >= set.bundles[i]
    &&& set.link == Link::Rdma ==> exists|k: int|
        0 <= k < t.islands.len() && all_in(nodes, #[trigger] t.islands[k])
    &&& set.link == Link::Any ==> all_in(nodes, t.nodes)
    &&& lists_once(t) ==> nodes.no_duplicates()
}

/// Each of `nodes` is one of `pool`.
pub open spec fn all_in(nodes: Seq<Seq<char>>, pool: Seq<Seq<char>>) -> bool {
    forall|i: int| 0 <= i < nodes.len() ==> pool.contains(#[trigger] nodes[i])
}

/// None of `nodes` is in `taken`.
pub open spec fn none_in(nodes: Seq<Seq<char>>, taken: Set<Seq<char>>) -> bool {
    forall|i: int| 0 <= i < nodes.len() ==> !taken.contains(#[trigger] nodes[i])
}

proof fn lemma_picked(t: TopologyV, set: SetV, taken: Set<Seq<char>>, nodes: Seq<Seq<char>>)
    ensures
        picked(t, set, taken, nodes).len() <= set.bundles.len(),
        all_in(picked(t, set, taken, nodes), nodes),
        none_in(picked(t, set, taken, nodes), taken),
        forall|i: int|
            0 <= i < picked(t, set, taken, nodes).len() ==> t.free(
                #[trigger] picked(t, set, taken, nodes)[i],
            ) >= set.bundles[i],
        nodes.no_duplicates() ==> picked(t, set, taken, nodes).no_duplicates(),
    decreases nodes.len(),
{
    if nodes.len() > 0 {
        let init = nodes.drop_last();
        lemma_picked(t, set, taken, init);
        let had = picked(t, set, taken, init);
        let out = picked(t, set, taken, nodes);
        if nodes.no_duplicates() {
            assert(init.no_duplicates()) by {
                assert forall|i: int, j: int| 0 <= i < init.len() && 0 <= j < init.len() && i
                    != j implies init[i] != init[j] by {
                    assert(nodes[i] != nodes[j]);
                }
            }
            if out.len() > had.len() {
                assert forall|i: int, j: int| 0 <= i < out.len() && 0 <= j < out.len() && i
                    != j implies out[i] != out[j] by {
                    if i < had.len() && j < had.len() {
                        assert(had[i] != had[j]);
                    } else {
                        let x = if i < had.len() {
                            i
                        } else {
                            j
                        };
                        assert(init.contains(had[x]));
                        let k = choose|k: int| 0 <= k < init.len() && init[k] == had[x];
                        assert(nodes[k] != nodes[nodes.len() - 1]);
                    }
                }
            }
        }
        assert forall|i: int| 0 <= i < out.len() implies nodes.contains(#[trigger] out[i]) by {
            if i < had.len() {
                assert(init.contains(had[i]));
                let k = choose|k: int| 0 <= k < init.len() && init[k] == had[i];
                assert(nodes[k] == out[i]);
            } else {
                assert(nodes[nodes.len() - 1] == out[i]);
            }
        }
        assert forall|i: int| 0 <= i < out.len() implies !taken.contains(#[trigger] out[i]) by {
            if i < had.len() {
                assert(out[i] == had[i]);
            }
        }
        assert forall|i: int| 0 <= i < out.len() implies t.free(#[trigger] out[i])
            >= set.bundles[i] by {
            if i < had.len() {
                assert(out[i] == had[i]);
            }
        }
    }
}

proof fn lemma_island_choices(
    t: TopologyV,
    set: SetV,
    taken: Set<Seq<char>>,
    islands: Seq<Seq<Seq<char>>>,
)
    requires
        set.link == Link::Rdma,
        forall|k: int|
            0 <= k < islands.len() ==> t.islands.contains(#[trigger] islands[k]),
    ensures
        forall|c: int|
            0 <= c < island_choices(t, set, taken, islands).len() ==> well_placed(
                t,
                set,
                #[trigger] island_choices(t, set, taken, islands)[c],
            ) && none_in(island_choices(t, set, taken, islands)[c], taken),
    decreases islands.len(),
{
    if islands.len() > 0 {
        let init = islands.drop_last();
        assert forall|k: int| 0 <= k < init.len() implies t.islands.contains(
            #[trigger] init[k],
        ) by {
            assert(init[k] == islands[k]);
        }
        lemma_island_choices(t, set, taken, init);
        let had = island_choices(t, set, taken, init);
        let out = island_choices(t, set, taken, islands);
        let pick = picked(t, set, taken, islands.last());
        lemma_picked(t, set, taken, islands.last());
        assert(t.islands.contains(islands[islands.len() - 1]));
        let k = choose|k: int| 0 <= k < t.islands.len() && t.islands[k] == islands.last();
        assert forall|c: int| 0 <= c < out.len() implies well_placed(t, set, #[trigger] out[c])
            && none_in(out[c], taken) by {
            if c < had.len() {
                assert(out[c] == had[c]);
            } else {
                assert(out[c] == pick);
                assert(all_in(pick, t.islands[k]));
            }
        }
    }
}

proof fn lemma_choices(t: TopologyV, set: SetV, taken: Set<Seq<char>>)
    ensures
        forall|c: int|
            0 <= c < choices(t, set, taken).len() ==> well_placed(
                t,
                set,
                #[trigger] choices(t, set, taken)[c],
            ) && none_in(choices(t, set, taken)[c], taken),
{
    match set.link {
        Link::Rdma => {
            assert forall|k: int| 0 <= k < t.islands.len() implies t.islands.contains(
                #[trigger] t.islands[k],
            ) by {}
            lemma_island_choices(t, set, taken, t.islands);
        },
        Link::Any => {
            lemma_picked(t, set, taken, t.nodes);
        },
    }
}

/// What a successful search says of each set it placed.
pub open spec fn sound(
    t: TopologyV,
    rest: Seq<SetV>,
    chosen: Map<Seq<char>, Seq<Seq<char>>>,
    taken: Set<Seq<char>>,
    m: Map<Seq<char>, Seq<Seq<char>>>,
) -> bool {
    &&& forall|k: Seq<char>|
        chosen.contains_key(k) && !has_set(rest, k) ==> #[trigger] m.contains_key(k) && m[k]
            == chosen[k]
    &&& forall|i: int|
        0 <= i < rest.len() ==> well_placed(t, #[trigger] rest[i], m[rest[i].name]) && none_in(
            m[rest[i].name],
            taken,
        )
    &&& forall|i: int, j: int|
        0 <= i < j < rest.len() ==> none_in(
            m[(#[trigger] rest[j]).name],
            m[(#[trigger] rest[i]).name].to_set(),
        )
}

proof fn lemma_sound(
    t: TopologyV,
    between: Seq<BetweenV>,
    rest: Seq<SetV>,
    chosen: Map<Seq<char>, Seq<Seq<char>>>,
    taken: Set<Seq<char>>,
)
    requires
        distinct_names(rest),
        completed(t, between, rest, chosen, taken) is Some,
    ensures
        sound(t, rest, chosen, taken, completed(t, between, rest, chosen, taken)->Some_0),
    decreases rest.len(), 1int, 0int,
{
    if rest.len() > 0 {
        lemma_choices(t, rest[0], taken);
        lemma_sound_first(t, between, rest, choices(t, rest[0], taken), chosen, taken);
    }
}

proof fn lemma_sound_first(
    t: TopologyV,
    between: Seq<BetweenV>,
    rest: Seq<SetV>,
    cands: Seq<Seq<Seq<char>>>,
    chosen: Map<Seq<char>, Seq<Seq<char>>>,
    taken: Set<Seq<char>>,
)
    requires
        rest.len() > 0,
        distinct_names(rest),
        first_of(t, between, rest, cands, chosen, taken) is Some,
        forall|c: int|
            0 <= c < cands.len() ==> well_placed(t, rest[0], #[trigger] cands[c]) && none_in(
                cands[c],
                taken,
            ),
    ensures
        sound(t, rest, chosen, taken, first_of(t, between, rest, cands, chosen, taken)->Some_0),
    decreases rest.len(), 0int, cands.len(),
{
    let tail = rest.drop_first();
    let c0 = cands[0];
    let c1 = chosen.insert(rest[0].name, c0);
    let t1 = taken.union(c0.to_set());
    if completed(t, between, tail, c1, t1) is Some {
        let m = completed(t, between, tail, c1, t1)->Some_0;
        assert(distinct_names(tail)) by {
            assert forall|i: int, j: int| 0 <= i < j < tail.len() implies (#[trigger] tail[i]).name
                != (#[trigger] tail[j]).name by {
                assert(tail[i] == rest[i + 1] && tail[j] == rest[j + 1]);
            }
        }
        lemma_sound(t, between, tail, c1, t1);
        assert(!has_set(tail, rest[0].name)) by {
            if has_set(tail, rest[0].name) {
                let i = choose|i: int|
                    0 <= i < tail.len() && (#[trigger] tail[i]).name == rest[0].name;
                assert(rest[i + 1].name == rest[0].name);
            }
        }
        assert(c1.contains_key(rest[0].name));
        assert(m.contains_key(rest[0].name) && m[rest[0].name] == c0);
        assert(well_placed(t, rest[0], cands[0]) && none_in(cands[0], taken));
        assert forall|k: Seq<char>| chosen.contains_key(k) && !has_set(rest, k) implies #[trigger] m.contains_key(
            k,
        ) && m[k] == chosen[k] by {
            assert(k != rest[0].name);
            if has_set(tail, k) {
                let i = choose|i: int| 0 <= i < tail.len() && (#[trigger] tail[i]).name == k;
                assert(rest[i + 1].name == k);
            }
            assert(c1.contains_key(k));
        }
        assert forall|i: int| 0 <= i < rest.len() implies well_placed(
            t,
            #[trigger] rest[i],
            m[rest[i].name],
        ) && none_in(m[rest[i].name], taken) by {
            if i > 0 {
                assert(tail[i - 1] == rest[i]);
                let v = m[rest[i].name];
                assert(none_in(v, t1));
                assert forall|x: int| 0 <= x < v.len() implies !taken.contains(#[trigger] v[x]) by {
                    assert(!t1.contains(v[x]));
                }
            }
        }
        assert forall|i: int, j: int| 0 <= i < j < rest.len() implies none_in(
            m[(#[trigger] rest[j]).name],
            m[(#[trigger] rest[i]).name].to_set(),
        ) by {
            assert(tail[j - 1] == rest[j]);
            if i > 0 {
                assert(tail[i - 1] == rest[i]);
            } else {
                let v = m[rest[j].name];
                assert(none_in(v, t1));
                assert forall|x: int| 0 <= x < v.len() implies !c0.to_set().contains(
                    #[trigger] v[x],
                ) by {
                    assert(!t1.contains(v[x]));
                }
            }
        }
    } else {
        assert forall|c: int| 0 <= c < cands.drop_first().len() implies well_placed(
            t,
            rest[0],
            #[trigger] cands.drop_first()[c],
        ) && none_in(cands.drop_first()[c], taken) by {
            assert(cands.drop_first()[c] == cands[c + 1]);
        }
        lemma_sound_first(t, between, rest, cands.drop_first(), chosen, taken);
    }
}

proof fn lemma_bound(
    t: TopologyV,
    set: SetV,
    peers: Seq<Seq<char>>,
    nodes: Seq<Seq<char>>,
    had: Seq<MemberV>,
)
    requires
        bound(t, set, peers, nodes, had) is Ok,
    ensures
        ({
            let ms = bound(t, set, peers, nodes, had)->Ok_0;
            &&& ms.len() == had.len() + nodes.len()
            &&& forall|i: int| 0 <= i < had.len() ==> #[trigger] ms[i] == had[i]
            &&& forall|i: int|
                had.len() <= i < ms.len() ==> (#[trigger] ms[i]).node == nodes[i - had.len()]
                    && bind_of(t, set.link, ms[i].node, peers) == Some(ms[i].bind)
        }),
    decreases nodes.len(),
{
    if nodes.len() > 0 {
        let m = MemberV {
            node: nodes[0],
            bind: bind_of(t, set.link, nodes[0], peers)->Some_0,
        };
        let next = had.push(m);
        lemma_bound(t, set, peers, nodes.drop_first(), next);
        let ms = bound(t, set, peers, nodes, had)->Ok_0;
        assert forall|i: int| 0 <= i < had.len() implies #[trigger] ms[i] == had[i] by {
            assert(next[i] == had[i]);
        }
        assert forall|i: int| had.len() <= i < ms.len() implies (#[trigger] ms[i]).node
            == nodes[i - had.len()] && bind_of(t, set.link, ms[i].node, peers) == Some(
            ms[i].bind,
        ) by {
            if i == had.len() {
                assert(ms[i] == next[i]);
            } else {
                assert(nodes.drop_first()[i - next.len()] == nodes[i - had.len()]);
            }
        }
    }
}

/// The members of each set stand on the nodes chosen for it, each with the
/// address that `bind_of` gives it.
pub open spec fn members_match(
    t: TopologyV,
    set: SetV,
    nodes: Seq<Seq<char>>,
    ms: Seq<MemberV>,
) -> bool {
    &&& ms.len() == nodes.len()
    &&& forall|i: int|
        0 <= i < ms.len() ==> (#[trigger] ms[i]).node == nodes[i] && bind_of(
            t,
            set.link,
            ms[i].node,
            nodes,
        ) == Some(ms[i].bind)
}

pub(crate) proof fn lemma_all_bound(
    t: TopologyV,
    sets: Seq<SetV>,
    chosen: Map<Seq<char>, Seq<Seq<char>>>,
    had: Map<Seq<char>, Seq<MemberV>>,
)
    requires
        distinct_names(sets),
        all_bound(t, sets, chosen, had) is Ok,
    ensures
        ({
            let r = all_bound(t, sets, chosen, had)->Ok_0;
            &&& forall|k: Seq<char>| #[trigger]
                r.contains_key(k) <==> had.contains_key(k) || has_set(sets, k)
            &&& forall|k: Seq<char>|
                had.contains_key(k) && !has_set(sets, k) ==> #[trigger] r[k] == had[k]
            &&& forall|i: int|
                0 <= i < sets.len() ==> members_match(
                    t,
                    #[trigger] sets[i],
                    chosen[sets[i].name],
                    r[sets[i].name],
                )
        }),
    decreases sets.len(),
{
    if sets.len() > 0 {
        let s = sets[0];
        let tail = sets.drop_first();
        let nodes = chosen[s.name];
        lemma_bound(t, s, nodes, nodes, Seq::empty());
        let ms = bound(t, s, nodes, nodes, Seq::empty())->Ok_0;
        let next = had.insert(s.name, ms);
        assert(distinct_names(tail)) by {
            assert forall|i: int, j: int| 0 <= i < j < tail.len() implies (#[trigger] tail[i]).name
                != (#[trigger] tail[j]).name by {
                assert(tail[i] == sets[i + 1] && tail[j] == sets[j + 1]);
            }
        }
        lemma_all_bound(t, tail, chosen, next);
        let r = all_bound(t, sets, chosen, had)->Ok_0;
        assert(!has_set(tail, s.name)) by {
            if has_set(tail, s.name) {
                let i = choose|i: int| 0 <= i < tail.len() && (#[trigger] tail[i]).name == s.name;
                assert(sets[i + 1].name == sets[0].name);
            }
        }
        assert(has_set(sets, s.name));
        assert forall|k: Seq<char>| has_set(sets, k) == (k == s.name || #[trigger] has_set(
            tail,
            k,
        )) by {
            if has_set(sets, k) {
                let i = choose|i: int| 0 <= i < sets.len() && (#[trigger] sets[i]).name == k;
                if i > 0 {
                    assert(tail[i - 1].name == k);
                }
            }
            if has_set(tail, k) {
                let i = choose|i: int| 0 <= i < tail.len() && (#[trigger] tail[i]).name == k;
                assert(sets[i + 1].name == k);
            }
        }
        assert forall|k: Seq<char>| #[trigger]
            r.contains_key(k) <==> had.contains_key(k) || has_set(sets, k) by {
            assert(r.contains_key(k) <==> next.contains_key(k) || has_set(tail, k));
        }
        assert(next.contains_key(s.name));
        assert(r[s.name] == next[s.name]);
        assert forall|k: Seq<char>| had.contains_key(k) && !has_set(sets, k) implies #[trigger] r[k]
            == had[k] by {
            assert(!has_set(tail, k));
            assert(next.contains_key(k));
            assert(r[k] == next[k]);
        }
        assert forall|i: int| 0 <= i < sets.len() implies members_match(
            t,
            #[trigger] sets[i],
            chosen[sets[i].name],
            r[sets[i].name],
        ) by {
            if i > 0 {
                assert(tail[i - 1] == sets[i]);
            }
        }
    }
}

/// Whatever is placed is placed as asked: each set of the request has its
/// members, one for each bundle, on nodes with the GPUs to give; a set that
/// needs a fabric stands on one island; and each member binds the address
/// that `bind_of` gives it.
pub proof fn law_sets_are_well_placed(t: TopologyV, req: RequestV)
    requires
        solved(t, req) is Ok,
    ensures
        ({
            let s = solved(t, req)->Ok_0;
            forall|i: int|
                0 <= i < req.sets.len() ==> ({
                    let set = #[trigger] req.sets[i];
                    let nodes = Seq::new(s.sets[set.name].len(), |k: int| s.sets[set.name][k].node);
                    &&& s.sets.contains_key(set.name)
                    &&& well_placed(t, set, nodes)
                    &&& members_match(t, set, nodes, s.sets[set.name])
                })
        }),
{
    let m = assignment(t, req)->Some_0;
    let order = placing_order(req.sets);
    lemma_placing_order_names(req.sets);
    lemma_sound(t, req.between, order, Map::empty(), Set::empty());
    lemma_all_bound(t, req.sets, m, Map::empty());
    let s = solved(t, req)->Ok_0;
    assert forall|i: int| 0 <= i < req.sets.len() implies ({
        let set = #[trigger] req.sets[i];
        let nodes = Seq::new(s.sets[set.name].len(), |k: int| s.sets[set.name][k].node);
        &&& s.sets.contains_key(set.name)
        &&& well_placed(t, set, nodes)
        &&& members_match(t, set, nodes, s.sets[set.name])
    }) by {
        let set = req.sets[i];
        assert(order.contains(set));
        let k = choose|k: int| 0 <= k < order.len() && order[k] == set;
        assert(well_placed(t, order[k], m[order[k].name]));
        let nodes = Seq::new(s.sets[set.name].len(), |k: int| s.sets[set.name][k].node);
        assert(members_match(t, set, m[set.name], s.sets[set.name]));
        assert(nodes =~= m[set.name]);
        assert(has_set(req.sets, set.name));
        assert(s.sets.contains_key(set.name));
    }
}

/// Sets never share a node, or two ranks would collide on one box.
pub proof fn law_sets_are_disjoint(t: TopologyV, req: RequestV, a: int, b: int, i: int, j: int)
    requires
        solved(t, req) is Ok,
        0 <= a < req.sets.len(),
        0 <= b < req.sets.len(),
        a != b,
        0 <= i < (solved(t, req)->Ok_0).sets[req.sets[a].name].len(),
        0 <= j < (solved(t, req)->Ok_0).sets[req.sets[b].name].len(),
    ensures
        (solved(t, req)->Ok_0).sets[req.sets[a].name][i].node != (solved(
            t,
            req,
        )->Ok_0).sets[req.sets[b].name][j].node,
{
    let s = solved(t, req)->Ok_0;
    let m = assignment(t, req)->Some_0;
    let order = placing_order(req.sets);
    lemma_placing_order_names(req.sets);
    lemma_sound(t, req.between, order, Map::empty(), Set::empty());
    lemma_all_bound(t, req.sets, m, Map::empty());
    let x = req.sets[a];
    let y = req.sets[b];
    assert(members_match(t, x, m[x.name], s.sets[x.name]));
    assert(members_match(t, y, m[y.name], s.sets[y.name]));
    assert(order.contains(x) && order.contains(y));
    let p = choose|p: int| 0 <= p < order.len() && order[p] == x;
    let q = choose|q: int| 0 <= q < order.len() && order[q] == y;
    if a < b {
        assert(req.sets[a].name != req.sets[b].name);
    } else {
        assert(req.sets[b].name != req.sets[a].name);
    }
    assert(p != q);
    let vx = m[x.name];
    let vy = m[y.name];
    assert(s.sets[x.name][i].node == vx[i]);
    assert(s.sets[y.name][j].node == vy[j]);
    if p < q {
        assert(none_in(m[order[q].name], m[order[p].name].to_set()));
        assert(!vx.to_set().contains(vy[j]));
        assert(vx.contains(vx[i]));
    } else {
        assert(none_in(m[order[p].name], m[order[q].name].to_set()));
        assert(!vy.to_set().contains(vx[i]));
        assert(vy.contains(vy[j]));
    }
}

/// No node occurs twice within a set, where no island lists one twice.
pub proof fn law_a_set_has_no_node_twice(t: TopologyV, req: RequestV, a: int, i: int, j: int)
    requires
        solved(t, req) is Ok,
        lists_once(t),
        0 <= a < req.sets.len(),
        0 <= i < j < (solved(t, req)->Ok_0).sets[req.sets[a].name].len(),
    ensures
        (solved(t, req)->Ok_0).sets[req.sets[a].name][i].node != (solved(
            t,
            req,
        )->Ok_0).sets[req.sets[a].name][j].node,
{
    law_sets_are_well_placed(t, req);
    let ms = (solved(t, req)->Ok_0).sets[req.sets[a].name];
    let nodes = Seq::new(ms.len(), |k: int| ms[k].node);
    assert(well_placed(t, req.sets[a], nodes));
    assert(nodes[i] != nodes[j]);
}

/// A member of a set that needs a fabric binds a fabric address from which
/// every other member's fabric was probed.
pub proof fn law_fabric_members_bind_the_fabric(t: TopologyV, req: RequestV, a: int, i: int)
    requires
        solved(t, req) is Ok,
        0 <= a < req.sets.len(),
        req.sets[a].link == Link::Rdma,
        0 <= i < (solved(t, req)->Ok_0).sets[req.sets[a].name].len(),
    ensures
        ({
            let ms = (solved(t, req)->Ok_0).sets[req.sets[a].name];
            serves(t, ms[i].bind, ms[i].node, Seq::new(ms.len(), |k: int| ms[k].node))
        }),
{
    law_sets_are_well_placed(t, req);
    let set = req.sets[a];
    let ms = (solved(t, req)->Ok_0).sets[set.name];
    let nodes = Seq::new(ms.len(), |k: int| ms[k].node);
    assert(members_match(t, set, nodes, ms));
    assert(bind_of(t, set.link, ms[i].node, nodes) == Some(ms[i].bind));
    lemma_first_serving(t, t.ports[ms[i].node], ms[i].node, nodes);
}

pub(crate) proof fn lemma_first_serving(
    t: TopologyV,
    ports: Seq<PortV>,
    node: Seq<char>,
    peers: Seq<Seq<char>>,
)
    ensures
        match first_serving(t, ports, node, peers) {
            Some(p) => serves(t, p, node, peers) && ports.contains(p),
            None => forall|i: int|
                0 <= i < ports.len() ==> !serves(t, #[trigger] ports[i], node, peers),
        },
    decreases ports.len(),
{
    if ports.len() > 0 {
        let tail = ports.drop_first();
        lemma_first_serving(t, tail, node, peers);
        if serves(t, ports[0], node, peers) {
            assert(ports.contains(ports[0]));
        } else {
            match first_serving(t, tail, node, peers) {
                Some(p) => {
                    let k = choose|k: int| 0 <= k < tail.len() && tail[k] == p;
                    assert(ports[k + 1] == p);
                },
                None => {
                    assert forall|i: int| 0 <= i < ports.len() implies !serves(
                        t,
                        #[trigger] ports[i],
                        node,
                        peers,
                    ) by {
                        if i > 0 {
                            assert(tail[i - 1] == ports[i]);
                        }
                    }
                },
            }
        }
    }
}

/// A placement has one link for each requirement between sets.
pub proof fn law_every_requirement_is_linked(t: TopologyV, req: RequestV)
    requires
        solved(t, req) is Ok,
    ensures
        links_between(t, req.between, assignment(t, req)->Some_0) == Some(
            (solved(t, req)->Ok_0).between,
        ),
        (solved(t, req)->Ok_0).between.len() == req.between.len(),
{
    let m = assignment(t, req)->Some_0;
    lemma_completed(t, req.between, placing_order(req.sets), Map::empty(), Set::empty());
    lemma_links_len(t, req.between, m);
}

proof fn lemma_links_len(
    t: TopologyV,
    between: Seq<BetweenV>,
    m: Map<Seq<char>, Seq<Seq<char>>>,
)
    ensures
        links_between(t, between, m) matches Some(v) ==> v.len() == between.len(),
    decreases between.len(),
{
    if between.len() > 0 {
        lemma_links_len(t, between.drop_last(), m);
    }
}

// ---------------------------------------------------------------------------
// The search leaves nothing out
// ---------------------------------------------------------------------------
/// A run of choices, one for each set in `rest`, each among the candidates
/// that the choices before it leave, with which every link can be had.
pub open spec fn works(
    t: TopologyV,
    between: Seq<BetweenV>,
    rest: Seq<SetV>,
    picks: Seq<int>,
    chosen: Map<Seq<char>, Seq<Seq<char>>>,
    taken: Set<Seq<char>>,
) -> bool
    decreases rest.len(),
{
    if rest.len() == 0 {
        links_between(t, between, chosen) is Some
    } else {
        let cands = choices(t, rest[0], taken);
        &&& picks.len() == rest.len()
        &&& 0 <= picks[0] < cands.len()
        &&& works(
            t,
            between,
            rest.drop_first(),
            picks.drop_first(),
            chosen.insert(rest[0].name, cands[picks[0]]),
            taken.union(cands[picks[0]].to_set()),
        )
    }
}

proof fn lemma_exhaustive(
    t: TopologyV,
    between: Seq<BetweenV>,
    rest: Seq<SetV>,
    picks: Seq<int>,
    chosen: Map<Seq<char>, Seq<Seq<char>>>,
    taken: Set<Seq<char>>,
)
    requires
        works(t, between, rest, picks, chosen, taken),
    ensures
        completed(t, between, rest, chosen, taken) is Some,
    decreases rest.len(), 1int, 0int,
{
    if rest.len() > 0 {
        assert(choices(t, rest[0], taken).skip(0) =~= choices(t, rest[0], taken));
        lemma_exhaustive_first(
            t,
            between,
            rest,
            picks,
            choices(t, rest[0], taken),
            0,
            chosen,
            taken,
        );
    }
}

proof fn lemma_exhaustive_first(
    t: TopologyV,
    between: Seq<BetweenV>,
    rest: Seq<SetV>,
    picks: Seq<int>,
    cands: Seq<Seq<Seq<char>>>,
    from: int,
    chosen: Map<Seq<char>, Seq<Seq<char>>>,
    taken: Set<Seq<char>>,
)
    requires
        rest.len() > 0,
        works(t, between, rest, picks, chosen, taken),
        0 <= from <= picks[0],
        cands == choices(t, rest[0], taken).skip(from),
    ensures
        first_of(t, between, rest, cands, chosen, taken) is Some,
    decreases rest.len(), 0int, cands.len(),
{
    let all = choices(t, rest[0], taken);
    if from == picks[0] {
        assert(cands[0] == all[from]);
        lemma_exhaustive(
            t,
            between,
            rest.drop_first(),
            picks.drop_first(),
            chosen.insert(rest[0].name, cands[0]),
            taken.union(cands[0].to_set()),
        );
    } else {
        assert(cands.drop_first() =~= all.skip(from + 1));
        lemma_exhaustive_first(
            t,
            between,
            rest,
            picks,
            cands.drop_first(),
            from + 1,
            chosen,
            taken,
        );
    }
}

/// The search leaves nothing out: where some run of choices works, the
/// request is assigned nodes.
pub proof fn law_the_search_is_exhaustive(t: TopologyV, req: RequestV, picks: Seq<int>)
    requires
        works(t, req.between, placing_order(req.sets), picks, Map::empty(), Set::empty()),
    ensures
        assignment(t, req) is Some,
{
    lemma_exhaustive(t, req.between, placing_order(req.sets), picks, Map::empty(), Set::empty());
}

// ---------------------------------------------------------------------------
// The best link
// ---------------------------------------------------------------------------
proof fn lemma_better_transitive(a: PathV, b: PathV, c: PathV)
    requires
        !b.better(a),
        !c.better(b),
    ensures
        !c.better(a),
{
    let (al, ar) = (a.local.addr, a.remote.addr);
    let (bl, br) = (b.local.addr, b.remote.addr);
    let (cl, cr) = (c.local.addr, c.remote.addr);
    if c.better(a) {
        assert(a.rtt_ms == b.rtt_ms && b.rtt_ms == c.rtt_ms);
        lemma_before_total(al, bl);
        lemma_before_total(bl, cl);
        if al == bl && bl == cl {
            lemma_before_total(ar, br);
            lemma_before_total(br, cr);
            lemma_before_irreflexive(al);
            if ar != br && br != cr {
                lemma_before_transitive(ar, br, cr);
            }
            lemma_before_asymmetric(cr, ar);
        } else {
            if al != bl && bl != cl {
                lemma_before_transitive(al, bl, cl);
            }
            assert(before(al, cl));
            lemma_before_asymmetric(al, cl);
            lemma_before_irreflexive(al);
        }
    }
}

proof fn lemma_better_irreflexive(a: PathV)
    ensures
        !a.better(a),
{
    lemma_before_irreflexive(a.local.addr);
    lemma_before_irreflexive(a.remote.addr);
}

/// Nothing in hand beats the best.
spec fn no_better(c: Option<PathV>, best: Option<PathV>) -> bool {
    c matches Some(x) ==> best is Some && !x.better(best->Some_0)
}

proof fn lemma_better_of(best: Option<PathV>, cand: Option<PathV>, other: Option<PathV>)
    ensures
        no_better(cand, better_of(best, cand)),
        no_better(best, better_of(best, cand)),
        no_better(other, best) ==> no_better(other, better_of(best, cand)),
{
    if cand is Some && best is Some {
        let c = cand->Some_0;
        let b = best->Some_0;
        lemma_better_irreflexive(c);
        lemma_better_irreflexive(b);
        if c.better(b) {
            lemma_better_asymmetric(c, b);
            if no_better(other, best) && other is Some {
                lemma_better_transitive(c, b, other->Some_0);
            }
        }
    } else if cand is Some {
        lemma_better_irreflexive(cand->Some_0);
    } else if best is Some {
        lemma_better_irreflexive(best->Some_0);
    }
}

proof fn lemma_better_asymmetric(a: PathV, b: PathV)
    requires
        a.better(b),
    ensures
        !b.better(a),
{
    if b.better(a) {
        if before(a.local.addr, b.local.addr) {
            lemma_before_asymmetric(a.local.addr, b.local.addr);
            lemma_before_irreflexive(a.local.addr);
        } else if before(b.local.addr, a.local.addr) {
            lemma_before_irreflexive(a.local.addr);
        } else {
            lemma_before_asymmetric(a.remote.addr, b.remote.addr);
        }
    }
}

proof fn lemma_best_from_port(
    t: TopologyV,
    a: Seq<char>,
    b: Seq<char>,
    link: Link,
    x: PortV,
    ys: Seq<PortV>,
    best: Option<PathV>,
    other: Option<PathV>,
)
    ensures
        no_better(other, best) ==> no_better(
            other,
            best_from_port(t, a, b, link, x, ys, best),
        ),
        forall|j: int|
            0 <= j < ys.len() ==> no_better(
                usable(t, a, b, link, x, #[trigger] ys[j]),
                best_from_port(t, a, b, link, x, ys, best),
            ),
    decreases ys.len(),
{
    if ys.len() > 0 {
        let init = ys.drop_last();
        let had = best_from_port(t, a, b, link, x, init, best);
        let last = usable(t, a, b, link, x, ys.last());
        lemma_best_from_port(t, a, b, link, x, init, best, other);
        lemma_better_of(had, last, other);
        assert forall|j: int| 0 <= j < ys.len() implies no_better(
            usable(t, a, b, link, x, #[trigger] ys[j]),
            best_from_port(t, a, b, link, x, ys, best),
        ) by {
            if j < init.len() {
                assert(init[j] == ys[j]);
                lemma_better_of(had, last, usable(t, a, b, link, x, ys[j]));
            }
        }
    }
}

proof fn lemma_best_link(
    t: TopologyV,
    a: Seq<char>,
    b: Seq<char>,
    link: Link,
    xs: Seq<PortV>,
    ys: Seq<PortV>,
    i: int,
    j: int,
)
    requires
        0 <= i < xs.len(),
        0 <= j < ys.len(),
    ensures
        no_better(usable(t, a, b, link, xs[i], ys[j]), best_link(t, a, b, link, xs, ys)),
    decreases xs.len(),
{
    let init = xs.drop_last();
    let had = best_link(t, a, b, link, init, ys);
    if i < init.len() {
        lemma_best_link(t, a, b, link, init, ys, i, j);
        lemma_best_from_port(
            t,
            a,
            b,
            link,
            xs.last(),
            ys,
            had,
            usable(t, a, b, link, xs[i], ys[j]),
        );
    } else {
        lemma_best_from_port(t, a, b, link, xs.last(), ys, had, None);
    }
}

/// The link that is used between two nodes is one that no usable link beats.
pub proof fn law_the_best_link_is_used(
    t: TopologyV,
    a: Seq<char>,
    b: Seq<char>,
    link: Link,
    i: int,
    j: int,
)
    requires
        t.ports.contains_key(a),
        t.ports.contains_key(b),
        0 <= i < t.ports[a].len(),
        0 <= j < t.ports[b].len(),
        usable(t, a, b, link, t.ports[a][i], t.ports[b][j]) is Some,
    ensures
        best_path(t, a, b, link) is Some,
        !(usable(t, a, b, link, t.ports[a][i], t.ports[b][j])->Some_0).better(
            best_path(t, a, b, link)->Some_0,
        ),
{
    lemma_best_link(t, a, b, link, t.ports[a], t.ports[b], i, j);
}

} // verus!
