//! What a box knows of itself and of the others.

use vstd::prelude::*;

use crate::common::text::{hex_digit, trimmed};
use crate::daemon::entry::{host_name, relayed_claim};
use crate::daemon::ident::{box_with, hex, known_boxes, misfiling, BoxV};
use crate::daemon::machine::{first_file, probe_at, source_of, Place, SourceV};
use crate::daemon::state::{loopback, StateV};

verus! {

/// The first box that has an address: no box before it has.
pub open spec fn first_with(boxes: Seq<BoxV>, ip: Seq<char>, i: int) -> bool {
    &&& 0 <= i < boxes.len()
    &&& boxes[i].addrs.contains(ip)
    &&& forall|j: int| 0 <= j < i ==> !(#[trigger] boxes[j]).addrs.contains(ip)
}

proof fn lemma_box_with(boxes: Seq<BoxV>, ip: Seq<char>)
    ensures
        box_with(boxes, ip) is None ==> forall|j: int|
            0 <= j < boxes.len() ==> !(#[trigger] boxes[j]).addrs.contains(ip),
        box_with(boxes, ip) is Some ==> exists|i: int|
            #[trigger] first_with(boxes, ip, i) && boxes[i] == box_with(boxes, ip)->0,
    decreases boxes.len(),
{
    if boxes.len() > 0 {
        let rest = boxes.drop_first();
        lemma_box_with(rest, ip);
        if boxes[0].addrs.contains(ip) {
            assert(first_with(boxes, ip, 0));
        } else {
            assert forall|j: int| 0 < j < boxes.len() implies #[trigger] boxes[j] == rest[j
                - 1] by {}
            if box_with(rest, ip) is Some {
                let i = choose|i: int|
                    #[trigger] first_with(rest, ip, i) && rest[i] == box_with(rest, ip)->0;
                assert(boxes[i + 1] == rest[i]);
                assert(first_with(boxes, ip, i + 1));
            }
        }
    }
}

/// An agent is misfiled exactly when the address it claims is another node's: the first
/// box that has it goes by another id. An address that nobody has, that is empty or that
/// is a loopback one misfiles nobody.
pub proof fn law_an_agent_is_misfiled_under_anothers_address(
    node_ip: Seq<char>,
    node_id: Seq<char>,
    boxes: Seq<BoxV>,
)
    ensures
        misfiling(node_ip, node_id, boxes) is Some <==> node_ip.len() > 0 && !loopback(node_ip)
            && exists|i: int|
            #[trigger] first_with(boxes, node_ip, i) && boxes[i].id != node_id,
{
    lemma_box_with(boxes, node_ip);
    if box_with(boxes, node_ip) is Some {
        let k = choose|i: int|
            #[trigger] first_with(boxes, node_ip, i) && boxes[i] == box_with(boxes, node_ip)->0;
        assert forall|i: int| #[trigger] first_with(boxes, node_ip, i) implies i == k by {
            if i < k {
                assert(!boxes[i].addrs.contains(node_ip));
            } else if k < i {
                assert(!boxes[k].addrs.contains(node_ip));
            }
        }
    }
}

/// The boxes that are known are this one, at its own addresses, and the peers that live,
/// at theirs.
pub proof fn law_the_known_boxes_are_the_living_peers(
    s: StateV,
    local: Seq<Seq<char>>,
    keys: Seq<Seq<char>>,
    b: BoxV,
)
    ensures
        known_boxes(s, local, keys).len() > 0,
        known_boxes(s, local, keys)[0].id == s.node_id,
        known_boxes(s, local, keys)[0].addrs == local,
        known_boxes(s, local, keys).skip(1).contains(b) <==> exists|i: int|
            0 <= i < keys.len() && ({
                let p = s.peers[#[trigger] keys[i]];
                p.alive && b.id == p.node_id && b.name == p.node_ip && b.addrs == p.addrs
            }),
    decreases keys.len(),
{
    let all = known_boxes(s, local, keys);
    if keys.len() > 0 {
        let init = keys.drop_last();
        law_the_known_boxes_are_the_living_peers(s, local, init, b);
        let had = known_boxes(s, local, init);
        let n = keys.len() - 1;
        let p = s.peers[keys[n]];
        assert(keys[n] == keys.last());
        assert forall|i: int| 0 <= i < n implies #[trigger] keys[i] == init[i] by {}
        assert forall|i: int| 0 <= i < n implies #[trigger] init[i] == keys[i] by {}
        if had.skip(1).contains(b) {
            let k = had.skip(1).index_of(b);
            assert(all.skip(1)[k] == b);
        }
        if p.alive {
            assert(all.skip(1)[had.len() - 1] == BoxV {
                id: p.node_id,
                name: p.node_ip,
                addrs: p.addrs,
            });
        }
        if all.skip(1).contains(b) && !had.skip(1).contains(b) {
            let k = all.skip(1).index_of(b);
            if k < had.len() - 1 {
                assert(had.skip(1)[k] == b);
            }
            assert(k == had.len() - 1);
        }
    } else {
        assert(all.skip(1).len() == 0);
    }
}

/// Bytes are written with two digits each, the high one first.
pub proof fn law_a_byte_is_two_digits(b: Seq<u8>)
    ensures
        hex(b).len() == 2 * b.len(),
        forall|i: int|
            0 <= i < b.len() ==> hex(b)[2 * i] == hex_digit(((#[trigger] b[i]) / 16) as u8)
                && hex(b)[2 * i + 1] == hex_digit((b[i] % 16) as u8),
    decreases b.len(),
{
    if b.len() > 0 {
        let init = b.drop_last();
        law_a_byte_is_two_digits(init);
        assert forall|i: int| 0 <= i < b.len() implies hex(b)[2 * i] == hex_digit(
            ((#[trigger] b[i]) / 16) as u8,
        ) && hex(b)[2 * i + 1] == hex_digit((b[i] % 16) as u8) by {
            if i < init.len() {
                assert(init[i] == b[i]);
                assert(hex(init)[2 * i] == hex(b)[2 * i]);
                assert(hex(init)[2 * i + 1] == hex(b)[2 * i + 1]);
            }
        }
    }
}

/// A box goes by what it says its name is, blanks aside, and one that says nothing is
/// unknown.
pub proof fn law_a_nameless_box_is_unknown(said: Seq<char>)
    ensures
        trimmed(said).len() > 0 ==> host_name(said) == trimmed(said),
        trimmed(said).len() == 0 ==> host_name(said) == "unknown"@,
        host_name(said).len() > 0,
{
    reveal_strlit("unknown");
}

/// An inventory that is given stands; where none is given, or a blank one, the probe is
/// run, and without a probe there is nothing to do.
pub proof fn law_a_given_inventory_stands(given: Option<Seq<char>>, probe: Option<Seq<char>>)
    ensures
        ({
            let says = given is Some && trimmed(given->0).len() > 0;
            &&& says ==> source_of(given, probe) == (SourceV::Given { raw: given->0 })
            &&& !says && probe is Some ==> source_of(given, probe) == (SourceV::Run {
                probe: probe->0,
            })
            &&& !says && probe is None ==> source_of(given, probe) is Fatal
        }),
{
}

/// A probe that is named is that one, and otherwise it is the first place with a file.
pub proof fn law_the_probe_is_the_first_file(named: Option<Seq<char>>, places: Seq<Place>)
    ensures
        ({
            let says = named is Some && named->0.len() > 0;
            let r = probe_at(named, places);
            &&& says ==> r == named
            &&& !says && r is Some ==> exists|i: int|
                {
                    &&& 0 <= i < places.len()
                    &&& (#[trigger] places[i]).is_file
                    &&& r == Some(places[i].path@)
                    &&& forall|j: int| 0 <= j < i ==> !(#[trigger] places[j]).is_file
                }
            &&& !says && r is None ==> forall|j: int|
                0 <= j < places.len() ==> !(#[trigger] places[j]).is_file
        }),
{
    lemma_first_file(places);
}

proof fn lemma_first_file(v: Seq<Place>)
    ensures
        first_file(v) is None ==> forall|j: int|
            0 <= j < v.len() ==> !(#[trigger] v[j]).is_file,
        first_file(v) is Some ==> exists|i: int|
            {
                &&& 0 <= i < v.len()
                &&& (#[trigger] v[i]).is_file
                &&& first_file(v) == Some(v[i].path@)
                &&& forall|j: int| 0 <= j < i ==> !(#[trigger] v[j]).is_file
            },
    decreases v.len(),
{
    if v.len() > 0 {
        let rest = v.skip(1);
        lemma_first_file(rest);
        assert forall|j: int| 0 < j < v.len() implies #[trigger] v[j] == rest[j - 1] by {}
        if v[0].is_file {
            assert(first_file(v) == Some(v[0].path@));
        } else if first_file(rest) is Some {
            let i = choose|i: int|
                {
                    &&& 0 <= i < rest.len()
                    &&& (#[trigger] rest[i]).is_file
                    &&& first_file(rest) == Some(rest[i].path@)
                    &&& forall|j: int| 0 <= j < i ==> !(#[trigger] rest[j]).is_file
                };
            assert(v[i + 1] == rest[i]);
            assert(v[i + 1].is_file);
        }
    }
}

/// An agent that is relayed from this box, and says no address, is at this box's.
pub proof fn law_a_relayed_agent_of_this_box_is_here(
    s: StateV,
    peer_ip: Seq<char>,
    mine: Seq<Seq<char>>,
    claimed: Seq<char>,
)
    ensures
        claimed.len() > 0 ==> relayed_claim(s, peer_ip, mine, claimed) == claimed,
        claimed.len() == 0 && (loopback(peer_ip) || mine.contains(peer_ip)) ==> relayed_claim(
            s,
            peer_ip,
            mine,
            claimed,
        ) == s.node_ip,
        claimed.len() == 0 && !loopback(peer_ip) && !mine.contains(peer_ip) ==> relayed_claim(
            s,
            peer_ip,
            mine,
            claimed,
        ).len() == 0,
{
}

} // verus!
