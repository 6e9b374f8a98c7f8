//! Which daemon is the head.
//!
//! A settled head stays head while it is alive, since a change moves every
//! group. A daemon with no head takes the one its live peers publish, else the
//! lowest live id, and two settled heads that meet resolve to the lower.

use vstd::prelude::*;
use vstd::string::*;

use crate::common::dict::lists;
use crate::common::json::{meaning, Json, JsonV};
use crate::common::text::{
    before, lemma_before_asymmetric, lemma_before_irreflexive, lemma_before_total,
    lemma_before_transitive, same, sorts_before, texts,
};
use crate::daemon::calls::{bump, next};
use crate::daemon::mesh::peer_alive;
use crate::daemon::moved::{hands_over, head_moved, moved_away};
use crate::daemon::state::{patch_views, Patch, PatchV, State, StateV};
use crate::daemon::sweep::{elapsed, since};

verus! {

broadcast use meaning;

/// Whether a node is this one or a live peer.
pub open spec fn lives(s: StateV, id: Seq<char>) -> bool {
    id == s.node_id || peer_alive(s, id)
}

/// Whether a live peer publishes a head.
pub open spec fn published_head(s: StateV, h: Seq<char>) -> bool {
    exists|k: Seq<char>| #[trigger]
        s.peers.contains_key(k) && s.peers[k].alive && s.peers[k].last_status.field(
            "head_node_id"@,
        ).text_or_empty() == h
}

/// Whether a live node is taken for the head, here or by a live peer.
pub open spec fn claimed_head(s: StateV, h: Seq<char>) -> bool {
    h.len() > 0 && lives(s, h) && (published_head(s, h) || s.head_node_id == h)
}

/// Whether any live node is taken for the head.
pub open spec fn some_head(s: StateV) -> bool {
    exists|h: Seq<char>| #[trigger] claimed_head(s, h)
}

/// Whether a node stands for election: one that is taken for the head, where
/// there is any; else any live one.
pub open spec fn stands(s: StateV, h: Seq<char>) -> bool {
    if some_head(s) {
        claimed_head(s, h)
    } else {
        lives(s, h)
    }
}

/// Whether a node is the lowest that stands.
pub open spec fn is_candidate(s: StateV, h: Seq<char>) -> bool {
    stands(s, h) && forall|o: Seq<char>| #[trigger] stands(s, o) ==> !before(o, h)
}

/// The head a daemon should follow.
pub open spec fn head_choice(s: StateV) -> Seq<char> {
    choose|h: Seq<char>| is_candidate(s, h)
}

/// There is one candidate, whoever counts.
pub proof fn law_the_candidate_is_unique(s: StateV, a: Seq<char>, b: Seq<char>)
    requires
        is_candidate(s, a),
        is_candidate(s, b),
    ensures
        a == b,
        head_choice(s) == a,
{
    lemma_before_total(a, b);
    let c = head_choice(s);
    assert(is_candidate(s, c));
    lemma_before_total(a, c);
}

/// A settled head stays head while it is alive and no live peer publishes a
/// lower one.
pub proof fn law_a_settled_head_stays(s: StateV)
    requires
        s.head_node_id.len() > 0,
        lives(s, s.head_node_id),
        forall|h: Seq<char>| #[trigger]
            claimed_head(s, h) ==> !before(h, s.head_node_id),
    ensures
        head_choice(s) == s.head_node_id,
{
    assert(claimed_head(s, s.head_node_id));
    assert(is_candidate(s, s.head_node_id));
    law_the_candidate_is_unique(s, s.head_node_id, s.head_node_id);
}

/// Two settled heads that meet resolve to the lower, at both ends.
pub proof fn law_two_heads_resolve_to_the_lower(a: StateV, b: StateV)
    requires
        a.node_id != b.node_id,
        a.node_id.len() > 0,
        b.node_id.len() > 0,
        a.head_node_id == a.node_id,
        b.head_node_id == b.node_id,
        peer_alive(a, b.node_id),
        peer_alive(b, a.node_id),
        // Each end knows the other alone, and has its snapshot.
        forall|k: Seq<char>| #[trigger] a.peers.contains_key(k) ==> k == b.node_id,
        forall|k: Seq<char>| #[trigger] b.peers.contains_key(k) ==> k == a.node_id,
        a.peers[b.node_id].last_status.field("head_node_id"@).text_or_empty() == b.node_id,
        b.peers[a.node_id].last_status.field("head_node_id"@).text_or_empty() == a.node_id,
    ensures
        head_choice(a) == head_choice(b),
        head_choice(a) == (if before(a.node_id, b.node_id) {
            a.node_id
        } else {
            b.node_id
        }),
{
    let (x, y) = (a.node_id, b.node_id);
    let low = if before(x, y) {
        x
    } else {
        y
    };
    lemma_before_total(x, y);
    lemma_before_irreflexive(x);
    lemma_before_irreflexive(y);
    if before(x, y) {
        lemma_before_asymmetric(x, y);
    }
    assert(a.peers.contains_key(y) && b.peers.contains_key(x));
    assert(claimed_head(a, x) && claimed_head(a, y));
    assert(claimed_head(b, x) && claimed_head(b, y));
    assert(is_candidate(a, low));
    assert(is_candidate(b, low));
    law_the_candidate_is_unique(a, low, low);
    law_the_candidate_is_unique(b, low, low);
}

fn is_alive(st: &State, id: &str) -> (r: bool)
    ensures
        r == lives(st@, id@),
{
    same(id, st.node_id.as_str()) || match st.peers.get(id) {
        Some(p) => p.alive,
        None => false,
    }
}

/// The lower of a node in hand and another.
fn lower(best: Option<String>, id: &str) -> (r: Option<String>)
    ensures
        r is Some,
        best is None ==> r->Some_0@ == id@,
        best is Some ==> r->Some_0@ == (if before(id@, best->Some_0@) {
            id@
        } else {
            best->Some_0@
        }),
{
    match best {
        None => Some(id.to_string()),
        Some(b) => if sorts_before(id, b.as_str()) {
            Some(id.to_string())
        } else {
            Some(b)
        },
    }
}

/// The lowest of the heads that live nodes are taken for, if there is any.
fn lowest_claimed(st: &State) -> (r: Option<String>)
    ensures
        match r {
            None => !some_head(st@),
            Some(h) => claimed_head(st@, h@) && forall|o: Seq<char>| #[trigger]
                claimed_head(st@, o) ==> !before(o, h@),
        },
{
    let ghost s = st@;
    let n: usize = st.peers.len();
    let ghost order = st.peers.order();
    let mut best: Option<String> = None;
    let mut i: usize = 0;
    while i < n
        invariant
            i <= n,
            n == order.len(),
            order == st.peers.order(),
            lists(order, st.peers@.dom()),
            s == st@,
            best is Some ==> claimed_head(s, best->Some_0@),
            forall|j: int| #![trigger order[j]]
                0 <= j < i ==> ({
                    let p = s.peers[order[j]];
                    let h = p.last_status.field("head_node_id"@).text_or_empty();
                    p.alive && claimed_head(s, h) ==> best is Some && !before(h, best->Some_0@)
                }),
        decreases n - i,
    {
        let p = st.peers.val_at(i);
        let ghost key = order[i as int];
        let h = p.last_status.text_or_empty_at("head_node_id");
        proof {
            assert(s.peers[key] == p.deep_view());
            assert(s.peers.contains_key(key));
        }
        if p.alive && !h.as_str().is_empty() && is_alive(st, h.as_str()) {
            let ghost was = best;
            proof {
                assert(published_head(s, h@));
                lemma_before_irreflexive(h@);
            }
            best = lower(best, h.as_str());
            proof {
                assert forall|j: int| 0 <= j < i + 1 implies ({
                    let p = s.peers[#[trigger] order[j]];
                    let x = p.last_status.field("head_node_id"@).text_or_empty();
                    p.alive && claimed_head(s, x) ==> best is Some && !before(x, best->Some_0@)
                }) by {
                    let p = s.peers[order[j]];
                    let x = p.last_status.field("head_node_id"@).text_or_empty();
                    if p.alive && claimed_head(s, x) && j < i {
                        let b = was->Some_0@;
                        lemma_not_before_transitive(x, b, best->Some_0@);
                    } else if j == i && was is Some {
                        lemma_before_total(h@, was->Some_0@);
                    }
                }
            }
        }
        i += 1;
    }
    let own = st.head_node_id.as_str();
    let ghost was = best;
    if !own.is_empty() && is_alive(st, own) {
        proof {
            lemma_before_irreflexive(own@);
        }
        best = lower(best, own);
    }
    proof {
        assert forall|o: Seq<char>| #[trigger] claimed_head(s, o) implies best is Some && !before(
            o,
            best->Some_0@,
        ) by {
            if published_head(s, o) {
                let k = choose|k: Seq<char>| #[trigger]
                    s.peers.contains_key(k) && s.peers[k].alive && s.peers[k].last_status.field(
                        "head_node_id"@,
                    ).text_or_empty() == o;
                assert(st.peers@.dom().contains(k));
                let j = order.index_of(k);
                assert(order[j] == k);
                assert(was is Some && !before(o, was->Some_0@));
                lemma_not_before_transitive(o, was->Some_0@, best->Some_0@);
            } else {
                if was is Some {
                    lemma_before_total(o, was->Some_0@);
                    lemma_before_irreflexive(o);
                }
            }
        }
    }
    best
}

proof fn lemma_not_before_transitive(x: Seq<char>, b: Seq<char>, c: Seq<char>)
    requires
        !before(x, b),
        c == b || before(c, b),
    ensures
        !before(x, c),
{
    if before(x, c) && before(c, b) {
        lemma_before_transitive(x, c, b);
    }
}

/// The lowest of this node and its live peers.
fn lowest_live(st: &State) -> (r: String)
    ensures
        lives(st@, r@),
        forall|o: Seq<char>| #[trigger] lives(st@, o) ==> !before(o, r@),
{
    let ghost s = st@;
    let n: usize = st.peers.len();
    let ghost order = st.peers.order();
    let mut best = st.node_id.clone();
    let mut i: usize = 0;
    proof {
        lemma_before_irreflexive(s.node_id);
    }
    while i < n
        invariant
            i <= n,
            n == order.len(),
            order == st.peers.order(),
            lists(order, st.peers@.dom()),
            s == st@,
            lives(s, best@),
            !before(s.node_id, best@),
            forall|j: int|
                0 <= j < i && s.peers[#[trigger] order[j]].alive ==> !before(order[j], best@),
        decreases n - i,
    {
        let p = st.peers.val_at(i);
        let ghost key = order[i as int];
        proof {
            assert(s.peers[key] == p.deep_view());
            assert(s.peers.contains_key(key));
            lemma_before_irreflexive(key);
        }
        let ghost was = best@;
        if p.alive && sorts_before(st.peers.key_at(i).as_str(), best.as_str()) {
            best = st.peers.key_at(i).clone();
            proof {
                lemma_not_before_transitive(s.node_id, was, best@);
                assert forall|j: int|
                    0 <= j < i + 1 && s.peers[#[trigger] order[j]].alive implies !before(
                    order[j],
                    best@,
                ) by {
                    if j < i {
                        lemma_not_before_transitive(order[j], was, best@);
                    }
                }
            }
        }
        i += 1;
    }
    proof {
        assert forall|o: Seq<char>| #[trigger] lives(s, o) implies !before(o, best@) by {
            if o != s.node_id {
                assert(st.peers@.dom().contains(o));
                let j = order.index_of(o);
                assert(order[j] == o);
            }
        }
    }
    best
}

/// The head this daemon should follow.
pub fn head_candidate(st: &State) -> (r: String)
    ensures
        is_candidate(st@, r@),
        r@ == head_choice(st@),
{
    let r = match lowest_claimed(st) {
        Some(h) => h,
        None => lowest_live(st),
    };
    proof {
        if some_head(st@) {
            let h = choose|h: Seq<char>| #[trigger] claimed_head(st@, h);
        }
        assert(claimed_head(st@, r@) ==> some_head(st@));
        law_the_candidate_is_unique(st@, r@, r@);
    }
    r
}

/// A patch of one field of a snapshot.
pub open spec fn field_set(name: Seq<char>, value: JsonV) -> PatchV {
    PatchV { at: seq![name], value: Some(value) }
}

fn field_patch(name: &str, value: Json) -> (r: Patch)
    ensures
        r.deep_view() == field_set(name@, value.v()),
{
    let mut at: Vec<String> = Vec::new();
    at.push(name.to_string());
    proof {
        assert(texts(at@) =~= seq![name@]);
    }
    Patch { at, value: Some(value) }
}

/// The state after a new head was taken.
pub open spec fn headed(s: StateV, h: Seq<char>, now: u64) -> StateV {
    moved_away(
        StateV { head_node_id: h, head_generation: next(s.head_generation), ..s }.emit(
            "head_change"@,
            seq![
                field_set("head_node_id"@, JsonV::Str(h)),
                field_set("head_generation"@, JsonV::Uint(next(s.head_generation))),
            ],
            s.head_node_id,
        ),
        now,
    )
}

/// A candidate, and since when it has been one.
#[derive(Debug)]
pub struct Waiting {
    pub id: String,
    pub since_ms: u64,
}

/// The view of an optional `Waiting`.
pub open spec fn waiting_view(w: Option<Waiting>) -> Option<(Seq<char>, u64)> {
    match w {
        Some(x) => Some((x.id@, x.since_ms)),
        None => None,
    }
}

/// One tick of the election: what is waited for after it, and the state. A
/// candidate is taken once it has been one for the hold-down.
pub open spec fn election_tick(
    s: StateV,
    held: Option<(Seq<char>, u64)>,
    now: u64,
    hold_down_ms: u64,
) -> (StateV, Option<(Seq<char>, u64)>) {
    let c = head_choice(s);
    if c == s.head_node_id {
        (s, None)
    } else if held is Some && held->Some_0.0 == c {
        if since(now, held->Some_0.1) >= hold_down_ms {
            (headed(s, c, now), None)
        } else {
            (s, held)
        }
    } else {
        (s, Some((c, now)))
    }
}

/// What one tick of the election did.
#[derive(Debug)]
pub struct Ticked {
    /// What is waited for now.
    pub waiting: Option<Waiting>,
    /// A head was taken.
    pub changed: bool,
    /// This daemon handed over what it held, and its links are to be closed.
    pub moved: bool,
}

/// One tick of the election.
pub fn elector(st: &mut State, held: Option<Waiting>, now: u64, hold_down_ms: u64) -> (r: Ticked)
    ensures
        (final(st)@, waiting_view(r.waiting)) == election_tick(
            old(st)@,
            waiting_view(held),
            now,
            hold_down_ms,
        ),
        r.changed == (head_choice(old(st)@) != old(st)@.head_node_id && held is Some
            && held->Some_0.id@ == head_choice(old(st)@) && since(now, held->Some_0.since_ms)
            >= hold_down_ms),
        r.moved == (r.changed && hands_over(
            (StateV { head_node_id: head_choice(old(st)@), ..old(st)@ }),
        )),
{
    let ghost s = st@;
    let c = head_candidate(st);
    if same(c.as_str(), st.head_node_id.as_str()) {
        return Ticked { waiting: None, changed: false, moved: false };
    }
    let due = match &held {
        Some(w) => if same(w.id.as_str(), c.as_str()) {
            Some(elapsed(now, w.since_ms) >= hold_down_ms)
        } else {
            None
        },
        None => None,
    };
    match due {
        None => Ticked {
            waiting: Some(Waiting { id: c, since_ms: now }),
            changed: false,
            moved: false,
        },
        Some(false) => Ticked { waiting: held, changed: false, moved: false },
        Some(true) => {
            let old_head = st.head_node_id.clone();
            let generation: u64 = bump(st.head_generation);
            st.head_node_id = c.clone();
            st.head_generation = generation;
            let mut patch: Vec<Patch> = Vec::new();
            patch.push(field_patch("head_node_id", Json::Str(c)));
            patch.push(field_patch("head_generation", Json::Uint(generation)));
            proof {
                assert(patch_views(patch@) =~= seq![
                    field_set("head_node_id"@, JsonV::Str(head_choice(s))),
                    field_set("head_generation"@, JsonV::Uint(next(s.head_generation))),
                ]);
            }
            st.emit_patch("head_change", patch, old_head.as_str());
            let moved = head_moved(st, now);
            Ticked { waiting: None, changed: true, moved }
        },
    }
}

} // verus!
