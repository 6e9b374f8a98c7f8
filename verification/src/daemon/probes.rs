//! Which of this node's addresses reach which of a peer's.

use vstd::prelude::*;
use vstd::string::*;

use crate::common::dict::{drop_keys, lemma_those, lists, ordered, those, Dict};
use crate::common::text::{copied, listed, same, texts};
use crate::daemon::state::{PairProbe, PairV, PeerV, State, StateV};

verus! {

/// A peer worth probing: its id, its port and its addresses.
#[derive(Debug)]
pub struct ProbeTarget {
    pub peer: String,
    pub port: u16,
    pub addrs: Vec<String>,
}

/// A `ProbeTarget` as a mathematical value.
pub struct ProbeTargetV {
    pub peer: Seq<char>,
    pub port: u16,
    pub addrs: Seq<Seq<char>>,
}

impl View for ProbeTarget {
    type V = ProbeTargetV;

    open spec fn view(&self) -> ProbeTargetV {
        ProbeTargetV { peer: self.peer@, port: self.port, addrs: texts(self.addrs@) }
    }
}

/// Targets as mathematical values.
pub open spec fn target_views(v: Seq<ProbeTarget>) -> Seq<ProbeTargetV> {
    Seq::new(v.len(), |i: int| v[i]@)
}

/// Whether a peer is worth probing: alive, with addresses and a port to aim
/// at.
pub open spec fn probeable(p: PeerV) -> bool {
    p.alive && p.addrs.len() > 0 && p.control_port > 0
}

/// The peers of `keys` worth probing.
pub open spec fn probe_list(peers: Map<Seq<char>, PeerV>, keys: Seq<Seq<char>>) -> Seq<ProbeTargetV>
    decreases keys.len(),
{
    if keys.len() == 0 {
        Seq::empty()
    } else {
        let had = probe_list(peers, keys.drop_last());
        let p = peers[keys.last()];
        if probeable(p) {
            had.push(ProbeTargetV { peer: keys.last(), port: p.control_port, addrs: p.addrs })
        } else {
            had
        }
    }
}

/// The peers worth probing.
pub fn probe_targets(st: &State) -> (r: Vec<ProbeTarget>)
    ensures
        target_views(r@) == probe_list(st@.peers, ordered(st@.peers.dom())),
{
    let mut out: Vec<ProbeTarget> = Vec::new();
    let n: usize = st.peers.len();
    let ghost order = st.peers.order();
    let mut i: usize = 0;
    proof {
        assert(st@.peers.dom() =~= st.peers@.dom());
        assert(target_views(out@) =~= Seq::<ProbeTargetV>::empty());
    }
    while i < n
        invariant
            i <= n,
            n == order.len(),
            order == st.peers.order(),
            target_views(out@) == probe_list(st@.peers, order.take(i as int)),
        decreases n - i,
    {
        let p = st.peers.val_at(i);
        proof {
            assert(order.take(i + 1).drop_last() =~= order.take(i as int));
            assert(order.take(i + 1).last() == order[i as int]);
            assert(st@.peers[order[i as int]] == p.deep_view());
        }
        if p.alive && p.addrs.len() > 0 && p.control_port > 0 {
            let ghost was = out@;
            let t = ProbeTarget {
                peer: st.peers.key_at(i).clone(),
                port: p.control_port,
                addrs: copied(&p.addrs),
            };
            let ghost tv = t@;
            out.push(t);
            proof {
                assert(target_views(out@) =~= target_views(was).push(tv));
            }
        }
        i += 1;
    }
    proof {
        assert(order.take(order.len() as int) =~= order);
    }
    out
}

/// Whether a probe's answer counts: it came from the node that was meant. Both
/// fabrics are numbered out of one subnet, and an address that replies is no
/// evidence of which node replied.
pub fn probe_answered(answered: &str, meant: &str) -> (r: Result<(), String>)
    ensures
        match r {
            Ok(_) => answered@ == meant@,
            Err(e) => answered@ != meant@ && e@ == "node "@ + answered@ + " answered, expected "@ + meant@,
        },
{
    if same(answered, meant) {
        return Ok(());
    }
    let mut e = "node ".to_string();
    e.append(answered);
    e.append(" answered, expected ");
    e.append(meant);
    Err(e)
}

/// What came of a probe: its round trip, or why it failed.
#[derive(Debug)]
pub enum Probed {
    Answered { rtt_ms: u64 },
    Failed { error: String },
}

/// A pair of addresses that has not been probed.
pub open spec fn unprobed() -> PairV {
    PairV { ok: false, rtt_ms: 0, last_ok_ms: 0, error: Seq::empty() }
}

/// A pair after a probe. A failure keeps the last round trip.
pub open spec fn after_probe(c: PairV, got: Probed, now: u64) -> PairV {
    match got {
        Probed::Answered { rtt_ms } => PairV {
            ok: true,
            rtt_ms,
            last_ok_ms: now,
            error: Seq::empty(),
        },
        Probed::Failed { error } => PairV { ok: false, error: error@, ..c },
    }
}

/// The row of a near address.
pub open spec fn row_of(
    m: Map<Seq<char>, Map<Seq<char>, PairV>>,
    near: Seq<char>,
) -> Map<Seq<char>, PairV> {
    if m.contains_key(near) {
        m[near]
    } else {
        Map::empty()
    }
}

/// The last probe of a pair.
pub open spec fn cell_of(
    m: Map<Seq<char>, Map<Seq<char>, PairV>>,
    near: Seq<char>,
    far: Seq<char>,
) -> PairV {
    if row_of(m, near).contains_key(far) {
        row_of(m, near)[far]
    } else {
        unprobed()
    }
}

/// The pairs of a peer after one of them was probed.
pub open spec fn probed_pairs(
    m: Map<Seq<char>, Map<Seq<char>, PairV>>,
    near: Seq<char>,
    far: Seq<char>,
    got: Probed,
    now: u64,
) -> Map<Seq<char>, Map<Seq<char>, PairV>> {
    m.insert(near, row_of(m, near).insert(far, after_probe(cell_of(m, near, far), got, now)))
}

/// The state after a pair of a peer's addresses was probed.
pub open spec fn probe_told(
    s: StateV,
    peer: Seq<char>,
    near: Seq<char>,
    far: Seq<char>,
    got: Probed,
    now: u64,
) -> StateV {
    if s.peers.contains_key(peer) {
        let p = s.peers[peer];
        StateV {
            peers: s.peers.insert(
                peer,
                PeerV { probe_pairs: probed_pairs(p.probe_pairs, near, far, got, now), ..p },
            ),
            ..s
        }
    } else {
        s
    }
}

fn apply_probe(cell: &mut PairProbe, got: Probed, now: u64)
    ensures
        final(cell).deep_view() == after_probe(old(cell).deep_view(), got, now),
{
    match got {
        Probed::Answered { rtt_ms } => {
            cell.ok = true;
            cell.rtt_ms = rtt_ms;
            cell.last_ok_ms = now;
            cell.error = String::new();
            proof {
                assert(cell.error@ =~= Seq::<char>::empty());
            }
        },
        Probed::Failed { error } => {
            cell.ok = false;
            cell.error = error;
        },
    }
}

/// Records what came of probing one pair of addresses. None where the peer is
/// gone; else whether the pair changed from good to bad or back.
pub fn probe_peer(st: &mut State, peer: &str, near: &str, far: &str, got: Probed, now: u64) -> (r:
    Option<bool>)
    ensures
        final(st)@ == probe_told(old(st)@, peer@, near@, far@, got, now),
        match r {
            None => !old(st)@.peers.contains_key(peer@),
            Some(b) => old(st)@.peers.contains_key(peer@) && b == (cell_of(
                old(st)@.peers[peer@].probe_pairs,
                near@,
                far@,
            ).ok != (got is Answered)),
        },
{
    let ghost s = st@;
    let good = match &got {
        Probed::Answered { .. } => true,
        _ => false,
    };
    let ghost g = got;
    if !st.peers.contains(peer) {
        return None;
    }
    let mut was_ok = false;
    if let Some(p) = st.peers.get_mut(peer) {
        let ghost pairs = p.probe_pairs.deep_view();
        let mut row = match p.probe_pairs.remove(near) {
            Some(d) => d,
            None => {
                let none: Dict<PairProbe> = Dict::new();
                proof {
                    assert(none.deep_view() =~= Map::<Seq<char>, PairV>::empty());
                }
                none
            },
        };
        let ghost rv = row.deep_view();
        proof {
            assert(rv =~= row_of(pairs, near@));
        }
        let mut cell = match row.remove(far) {
            Some(c) => c,
            None => {
                let error = String::new();
                proof {
                    assert(error@ =~= Seq::<char>::empty());
                }
                PairProbe { ok: false, rtt_ms: 0, last_ok_ms: 0, error }
            },
        };
        proof {
            assert(cell.deep_view() == cell_of(pairs, near@, far@));
        }
        was_ok = cell.ok;
        apply_probe(&mut cell, got, now);
        let ghost cv = cell.deep_view();
        row.insert(far.to_string(), cell);
        proof {
            assert(row.deep_view() =~= rv.insert(far@, cv));
        }
        let ghost rv2 = row.deep_view();
        p.probe_pairs.insert(near.to_string(), row);
        proof {
            assert(p.probe_pairs.deep_view() =~= pairs.insert(near@, rv2));
            assert(p.probe_pairs.deep_view() == probed_pairs(pairs, near@, far@, g, now));
        }
    }
    proof {
        assert(st@.peers =~= probe_told(s, peer@, near@, far@, g, now).peers);
        assert(st@ =~= probe_told(s, peer@, near@, far@, g, now));
    }
    Some(was_ok != good)
}

/// The pairs whose addresses are both still in use.
pub open spec fn pruned(
    m: Map<Seq<char>, Map<Seq<char>, PairV>>,
    locals: Seq<Seq<char>>,
    remotes: Seq<Seq<char>>,
) -> Map<Seq<char>, Map<Seq<char>, PairV>> {
    Map::new(
        |a: Seq<char>| m.contains_key(a) && locals.contains(a),
        |a: Seq<char>| kept_row(m[a], remotes),
    )
}

/// The pairs of a row whose far address is still in use.
pub open spec fn kept_row(m: Map<Seq<char>, PairV>, remotes: Seq<Seq<char>>) -> Map<
    Seq<char>,
    PairV,
> {
    Map::new(|b: Seq<char>| m.contains_key(b) && remotes.contains(b), |b: Seq<char>| m[b])
}

fn unlisted<V>(d: &Dict<V>, keep: &Vec<String>) -> (r: Vec<String>)
    ensures
        forall|k: Seq<char>| #[trigger]
            texts(r@).contains(k) <==> d@.contains_key(k) && !texts(keep@).contains(k),
{
    let n: usize = d.len();
    let ghost order = d.order();
    let ghost kv = texts(keep@);
    let mut out: Vec<String> = Vec::new();
    let mut i: usize = 0;
    proof {
        assert(texts(out@) =~= Seq::<Seq<char>>::empty());
    }
    while i < n
        invariant
            i <= n,
            n == order.len(),
            order == d.order(),
            kv == texts(keep@),
            texts(out@) == those(order.take(i as int), |k: Seq<char>| !kv.contains(k)),
        decreases n - i,
    {
        let k = d.key_at(i);
        proof {
            assert(order.take(i + 1).drop_last() =~= order.take(i as int));
            assert(order.take(i + 1).last() == k@);
        }
        if !listed(keep, k.as_str()) {
            let ghost was = out@;
            out.push(k.clone());
            proof {
                assert(texts(out@) =~= texts(was).push(k@));
            }
        }
        i += 1;
    }
    proof {
        assert(order.take(order.len() as int) =~= order);
        lemma_those(order, |k: Seq<char>| !kv.contains(k));
        assert forall|k: Seq<char>| #[trigger]
            texts(out@).contains(k) <==> d@.contains_key(k) && !kv.contains(k) by {
            assert(d@.dom().contains(k) == order.contains(k));
        }
    }
    out
}

/// Drop rows for addresses outside `locals` and `remotes`. A row that is never
/// probed again would keep its last result.
pub fn prune_pairs(table: &mut Dict<Dict<PairProbe>>, locals: &Vec<String>, remotes: &Vec<String>)
    ensures
        final(table).deep_view() == pruned(old(table).deep_view(), texts(locals@), texts(remotes@)),
{
    let ghost m = table.deep_view();
    let ghost rv = texts(remotes@);
    let gone = unlisted(table, locals);
    drop_keys(table, &gone);
    let ghost start = table.deep_view();
    proof {
        assert forall|a: Seq<char>| #[trigger]
            start.contains_key(a) <==> m.contains_key(a) && texts(locals@).contains(a) by {
            assert(texts(gone@).contains(a) <==> m.contains_key(a) && !texts(locals@).contains(a));
        }
    }
    let n: usize = table.len();
    let ghost order = table.order();
    let ghost dom = table@.dom();
    let mut i: usize = 0;
    while i < n
        invariant
            i <= n,
            n == order.len(),
            order == table.order(),
            lists(order, dom),
            table@.dom() == dom,
            rv == texts(remotes@),
            start.dom() == dom,
            forall|j: int|
                0 <= j < i ==> table@[#[trigger] order[j]].deep_view() == kept_row(
                    start[order[j]],
                    rv,
                ),
            forall|j: int|
                i <= j < n ==> table@[#[trigger] order[j]].deep_view() == start[order[j]],
        decreases n - i,
    {
        let ghost mid = table@;
        let ghost key = order[i as int];
        let row = table.val_at_mut(i);
        let ghost had = row.deep_view();
        let gone = unlisted(row, remotes);
        drop_keys(row, &gone);
        proof {
            assert forall|b: Seq<char>| #[trigger]
                row.deep_view().contains_key(b) <==> had.contains_key(b) && rv.contains(b) by {
                assert(texts(gone@).contains(b) <==> had.contains_key(b) && !rv.contains(b));
            }
            assert(row.deep_view() =~= kept_row(had, rv));
        }
        proof {
            assert(table@.dom() =~= dom);
            assert forall|j: int| 0 <= j < n && j != i implies table@[#[trigger] order[j]]
                == mid[order[j]] by {
                if order[j] == key {
                    crate::common::dict::lemma_increasing_distinct(order, i as int, j);
                }
            }
        }
        i += 1;
    }
    proof {
        let want = pruned(m, texts(locals@), rv);
        assert forall|a: Seq<char>| #[trigger] want.contains_key(a) implies table.deep_view()[a]
            == want[a] by {
            assert(start.contains_key(a));
            assert(dom.contains(a));
            let j = order.index_of(a);
            assert(order[j] == a);
            assert(start[a] == m[a]);
        }
        assert forall|a: Seq<char>| #[trigger] table.deep_view().contains_key(a)
            == want.contains_key(a) by {
            assert(start.contains_key(a) == dom.contains(a));
        }
        assert(table.deep_view() =~= want);
    }
}

/// The state after a round of probes of a peer: rows for a lost near address or
/// an unannounced far one are dropped.
pub open spec fn round_done(
    s: StateV,
    peer: Seq<char>,
    locals: Seq<Seq<char>>,
    remotes: Seq<Seq<char>>,
) -> StateV {
    if s.peers.contains_key(peer) {
        let p = s.peers[peer];
        StateV {
            peers: s.peers.insert(
                peer,
                PeerV { probe_pairs: pruned(p.probe_pairs, locals, remotes), ..p },
            ),
            ..s
        }
    } else {
        s
    }
}

/// Ends a round of probes of a peer.
pub fn end_round(st: &mut State, peer: &str, locals: &Vec<String>, remotes: &Vec<String>)
    ensures
        final(st)@ == round_done(old(st)@, peer@, texts(locals@), texts(remotes@)),
{
    let ghost s = st@;
    if let Some(p) = st.peers.get_mut(peer) {
        prune_pairs(&mut p.probe_pairs, locals, remotes);
    }
    proof {
        assert(st@.peers =~= round_done(s, peer@, texts(locals@), texts(remotes@)).peers);
        assert(st@ =~= round_done(s, peer@, texts(locals@), texts(remotes@)));
    }
}

} // verus!
