//! Keeping a daemon's snapshot current from its event stream.

use vstd::prelude::*;
use vstd::string::*;

use crate::common::json::{meaning, metas, put, Json, JsonV};
use crate::common::text::{opt_text, same, texts};
use crate::serve::shared::{DaemonV, Shared, SharedV};

verus! {

broadcast use meaning;

// ---------------------------------------------------------------------------
// Patches
// ---------------------------------------------------------------------------
/// The names of a path, where it is made of names.
pub open spec fn path_of(at: Seq<JsonV>) -> Option<Seq<Seq<char>>>
    decreases at.len(),
{
    if at.len() == 0 {
        Some(Seq::empty())
    } else {
        match (path_of(at.drop_last()), at.last().text()) {
            (Some(had), Some(k)) => Some(had.push(k)),
            _ => None,
        }
    }
}

/// A document with a value stored at a path, or with what is there taken out,
/// where the path leads through objects. Those on the way that are absent are
/// made.
pub open spec fn stored(root: JsonV, at: Seq<Seq<char>>, value: Option<JsonV>) -> Option<JsonV>
    decreases at.len(),
{
    match root {
        JsonV::Obj(m) => if at.len() == 0 {
            None
        } else if at.len() == 1 {
            Some(
                JsonV::Obj(
                    match value {
                        Some(v) => m.insert(at[0], v),
                        None => m.remove(at[0]),
                    },
                ),
            )
        } else {
            let child = if m.contains_key(at[0]) {
                m[at[0]]
            } else {
                JsonV::Obj(Map::empty())
            };
            match stored(child, at.skip(1), value) {
                Some(c) => Some(JsonV::Obj(m.insert(at[0], c))),
                None => None,
            }
        },
        _ => None,
    }
}

/// What stands at a path.
pub open spec fn found(root: JsonV, at: Seq<Seq<char>>) -> Option<JsonV>
    decreases at.len(),
{
    if at.len() == 0 {
        Some(root)
    } else if root.has(at[0]) {
        found(root.field(at[0]), at.skip(1))
    } else {
        None
    }
}

proof fn lemma_new_path(at: Seq<Seq<char>>, value: Option<JsonV>)
    requires
        at.len() > 0,
    ensures
        stored(JsonV::Obj(Map::empty()), at, value) is Some,
    decreases at.len(),
{
    if at.len() > 1 {
        lemma_new_path(at.skip(1), value);
    }
}

fn store(root: &mut Json, keys: &Vec<String>, i: usize, value: Option<&Json>) -> (r: bool)
    requires
        i <= keys@.len(),
    ensures
        ({
            let v = match value {
                Some(j) => Some(j.v()),
                None => None,
            };
            match stored(old(root).v(), texts(keys@).skip(i as int), v) {
                Some(new) => r && final(root).v() == new,
                None => !r && final(root).v() == old(root).v(),
            }
        }),
    decreases keys@.len() - i,
{
    let ghost at = texts(keys@).skip(i as int);
    let ghost vv = match value {
        Some(j) => Some(j.v()),
        None => None,
    };
    if i >= keys.len() {
        return false;
    }
    proof {
        assert(at[0] == keys@[i as int]@);
        assert(at.skip(1) =~= texts(keys@).skip(i + 1));
    }
    match root {
        Json::Obj(d) => {
            let ghost d0 = d.deep_view();
            let key = keys[i].as_str();
            if i + 1 == keys.len() {
                match value {
                    Some(v) => put(d, key, v.copy()),
                    None => {
                        d.remove(key);
                        proof {
                            assert(d.deep_view() =~= d0.remove(key@));
                        }
                    },
                }
                return true;
            }
            if !d.contains(key) {
                proof {
                    lemma_new_path(at.skip(1), vv);
                }
                let mut child = Json::Obj(Json::object());
                let ok = store(&mut child, keys, i + 1, value);
                let ghost cv = child.v();
                if ok {
                    put(d, key, child);
                }
                return ok;
            }
            match d.get_mut(key) {
                Some(c) => {
                    let ok = store(c, keys, i + 1, value);
                    let ghost cv = c.v();
                    proof {
                        assert(d.deep_view() =~= d0.insert(key@, cv));
                        if !ok {
                            assert(d.deep_view() =~= d0);
                        }
                    }
                    ok
                },
                None => false,
            }
        },
        _ => false,
    }
}

fn read_path(at: &Vec<Json>) -> (r: Option<Vec<String>>)
    ensures
        match r {
            Some(k) => path_of(metas(at@)) == Some(texts(k@)),
            None => path_of(metas(at@)) is None,
        },
{
    let ghost all = metas(at@);
    let mut out: Vec<String> = Vec::new();
    let mut i: usize = 0;
    proof {
        assert(texts(out@) =~= Seq::<Seq<char>>::empty());
    }
    while i < at.len()
        invariant
            i <= at@.len(),
            all == metas(at@),
            path_of(all.take(i as int)) == Some(texts(out@)),
        decreases at@.len() - i,
    {
        proof {
            assert(all.take(i + 1).drop_last() =~= all.take(i as int));
            assert(all.take(i + 1).last() == at@[i as int].v());
        }
        match at[i].as_str() {
            Some(k) => {
                let ghost was = out@;
                out.push(k.to_string());
                proof {
                    assert(texts(out@) =~= texts(was).push(k@));
                }
            },
            None => {
                proof {
                    lemma_path_stuck(all, i + 1);
                }
                return None;
            },
        }
        i += 1;
    }
    proof {
        assert(all.take(all.len() as int) =~= all);
    }
    Some(out)
}

proof fn lemma_path_stuck(at: Seq<JsonV>, i: int)
    requires
        0 <= i <= at.len(),
        path_of(at.take(i)) is None,
    ensures
        path_of(at) is None,
    decreases at.len() - i,
{
    if i < at.len() {
        assert(at.take(i + 1).drop_last() =~= at.take(i));
        lemma_path_stuck(at, i + 1);
    } else {
        assert(at.take(i) =~= at);
    }
}

/// A document with a patch's entry applied.
pub open spec fn patch_stored(root: JsonV, at: Seq<JsonV>, value: Option<JsonV>) -> Option<JsonV> {
    match path_of(at) {
        Some(keys) => stored(root, keys, value),
        None => None,
    }
}

/// Stores `value` at `at` in the snapshot, or takes out what is there when
/// `value` is absent. Returns false, and changes nothing, when the path does not
/// lead through objects.
///
/// Objects on the way are made, since the first event for a collection
/// addresses a row under a name the snapshot has never held.
pub fn patch_at(root: &mut Json, at: &Vec<Json>, value: Option<&Json>) -> (r: bool)
    ensures
        ({
            let v = match value {
                Some(j) => Some(j.v()),
                None => None,
            };
            match patch_stored(old(root).v(), metas(at@), v) {
                Some(new) => r && final(root).v() == new,
                None => !r && final(root).v() == old(root).v(),
            }
        }),
{
    match read_path(at) {
        Some(keys) => {
            proof {
                assert(texts(keys@).skip(0) =~= texts(keys@));
            }
            store(root, &keys, 0, value)
        },
        None => false,
    }
}

/// A document with one entry of an event's patch applied.
pub open spec fn entry_applied(root: JsonV, e: JsonV) -> Option<JsonV> {
    match e.field("at"@) {
        JsonV::Arr(at) => patch_stored(
            root,
            at,
            if e.has("value"@) {
                Some(e.field("value"@))
            } else {
                None
            },
        ),
        _ => None,
    }
}

/// A document with every entry of a patch applied, where every one can be.
pub open spec fn patched(root: JsonV, patch: Seq<JsonV>) -> Option<JsonV>
    decreases patch.len(),
{
    if patch.len() == 0 {
        Some(root)
    } else {
        match patched(root, patch.drop_last()) {
            Some(s) => entry_applied(s, patch.last()),
            None => None,
        }
    }
}

/// A snapshot with an event applied, where it can be.
pub open spec fn event_applied(root: JsonV, event: JsonV) -> Option<JsonV> {
    match event.field("patch"@) {
        JsonV::Arr(patch) => patched(root, patch),
        _ => None,
    }
}

proof fn lemma_patch_stuck(root: JsonV, patch: Seq<JsonV>, i: int)
    requires
        0 <= i <= patch.len(),
        patched(root, patch.take(i)) is None,
    ensures
        patched(root, patch) is None,
    decreases patch.len() - i,
{
    if i < patch.len() {
        assert(patch.take(i + 1).drop_last() =~= patch.take(i));
        lemma_patch_stuck(root, patch, i + 1);
    } else {
        assert(patch.take(i) =~= patch);
    }
}

/// Applies one event's patch to a stored snapshot. Returns false when the caller
/// has to read the snapshot again instead.
///
/// Every entry lands, or none does: a half-applied event leaves a view that is
/// wrong with nothing to report it.
pub fn apply_patch(snapshot: &mut Json, event: &Json) -> (r: bool)
    ensures
        match event_applied(old(snapshot).v(), event.v()) {
            Some(new) => r && final(snapshot).v() == new,
            None => !r && final(snapshot).v() == old(snapshot).v(),
        },
{
    let ghost s0 = snapshot.v();
    let patch = match event.items_at("patch") {
        Some(p) => p,
        None => return false,
    };
    let ghost all = metas(patch@);
    let mut staged = snapshot.copy();
    let mut i: usize = 0;
    while i < patch.len()
        invariant
            i <= patch@.len(),
            all == metas(patch@),
            s0 == snapshot.v(),
            event.v().field("patch"@) == JsonV::Arr(all),
            patched(s0, all.take(i as int)) == Some(staged.v()),
        decreases patch@.len() - i,
    {
        let e = &patch[i];
        proof {
            assert(all.take(i + 1).drop_last() =~= all.take(i as int));
            assert(all.take(i + 1).last() == e.v());
        }
        let at = match e.items_at("at") {
            Some(a) => a,
            None => {
                proof {
                    lemma_patch_stuck(s0, all, i + 1);
                }
                return false;
            },
        };
        let value = e.get("value");
        if !patch_at(&mut staged, at, value) {
            proof {
                lemma_patch_stuck(s0, all, i + 1);
            }
            return false;
        }
        i += 1;
    }
    proof {
        assert(all.take(all.len() as int) =~= all);
    }
    *snapshot = staged;
    true
}

/// What was stored at a path is what stands there.
pub proof fn law_a_stored_value_is_found(root: JsonV, at: Seq<Seq<char>>, value: JsonV)
    requires
        stored(root, at, Some(value)) is Some,
    ensures
        found(stored(root, at, Some(value))->Some_0, at) == Some(value),
    decreases at.len(),
{
    let new = stored(root, at, Some(value))->Some_0;
    if at.len() == 1 {
        assert(at.skip(1) =~= Seq::<Seq<char>>::empty());
        assert(found(new.field(at[0]), at.skip(1)) == Some(value));
    } else {
        let m = root->Obj_0;
        let child = if m.contains_key(at[0]) {
            m[at[0]]
        } else {
            JsonV::Obj(Map::empty())
        };
        law_a_stored_value_is_found(child, at.skip(1), value);
    }
}

/// What was taken out of a path is no longer there.
pub proof fn law_a_removed_path_is_gone(root: JsonV, at: Seq<Seq<char>>)
    requires
        stored(root, at, None) is Some,
    ensures
        found(stored(root, at, None)->Some_0, at) is None,
    decreases at.len(),
{
    if at.len() > 1 {
        let m = root->Obj_0;
        let child = if m.contains_key(at[0]) {
            m[at[0]]
        } else {
            JsonV::Obj(Map::empty())
        };
        law_a_removed_path_is_gone(child, at.skip(1));
    }
}

/// Storing at one path leaves what stands at another as it was, unless one path
/// leads through the other.
pub proof fn law_other_paths_are_untouched(
    root: JsonV,
    at: Seq<Seq<char>>,
    value: Option<JsonV>,
    other: Seq<Seq<char>>,
    i: int,
)
    requires
        stored(root, at, value) is Some,
        0 <= i < at.len(),
        i < other.len(),
        at[i] != other[i],
    ensures
        found(stored(root, at, value)->Some_0, other) == found(root, other),
    decreases at.len(),
{
    let m = root->Obj_0;
    let new = stored(root, at, value)->Some_0;
    if at[0] != other[0] {
        assert(new.has(other[0]) == root.has(other[0]));
        assert(new.field(other[0]) == root.field(other[0]));
    } else {
        let child = if m.contains_key(at[0]) {
            m[at[0]]
        } else {
            JsonV::Obj(Map::empty())
        };
        assert(at.skip(1)[i - 1] == at[i]);
        assert(other.skip(1)[i - 1] == other[i]);
        law_other_paths_are_untouched(child, at.skip(1), value, other.skip(1), i - 1);
        if !m.contains_key(at[0]) {
            assert(!child.has(other.skip(1)[0]));
        }
    }
}

// ---------------------------------------------------------------------------
// Frames
// ---------------------------------------------------------------------------
/// The event number the daemon's stored snapshot reflects.
pub open spec fn anchor(s: SharedV, addr: Seq<char>) -> Option<u64> {
    if s.daemons.contains_key(addr) {
        match s.daemons[addr].status {
            Some(snap) => snap.field("seq"@).uint(),
            None => None,
        }
    } else {
        None
    }
}

/// The event number the daemon's last polled snapshot reflects. A poll resumes
/// the stream from here: without it every poll drops the position and the next
/// event costs another poll.
pub fn anchored_seq(sh: &Shared, addr: &str) -> (r: Option<u64>)
    ensures
        r == anchor(sh@, addr@),
{
    match sh.daemons.get(addr) {
        Some(v) => {
            proof {
                assert(sh@.daemons[addr@] == v.deep_view());
            }
            match &v.status {
                Some(snap) => snap.uint_at("seq"),
                None => None,
            }
        },
        None => None,
    }
}

/// What one frame did to the stored view.
#[derive(Clone, Copy, Debug, PartialEq, Eq, Structural)]
pub enum Applied {
    /// The view moved. Readers should wake.
    Yes,
    /// Nothing to do: another node's event, or one the view reflects already.
    Skip,
    /// The view cannot be trusted. Read the snapshot again.
    Resync,
}

/// What a frame does to a daemon's view: the view after it, the number of the
/// last event it reflects, and what became of the frame.
pub open spec fn framed(
    d: DaemonV,
    node: Option<Seq<char>>,
    ev: JsonV,
    last: Option<u64>,
    now: u64,
) -> (DaemonV, Option<u64>, Applied) {
    if ev.field("type"@).text() == Some("snapshot"@) {
        (
            DaemonV { status: Some(ev.field("data"@)), seen: Some(now), error: None, ..d },
            ev.field("seq"@).uint(),
            Applied::Yes,
        )
    } else if ev.field("node"@).text() != node {
        (d, last, Applied::Skip)
    } else {
        match (ev.field("seq"@).uint(), last) {
            (Some(seq), Some(prev)) => if seq <= prev {
                (d, last, Applied::Skip)
            } else if seq > prev + 1 {
                (d, last, Applied::Resync)
            } else {
                match d.status {
                    Some(snap) => match event_applied(snap, ev) {
                        Some(new) => (
                            DaemonV { status: Some(new), seen: Some(now), ..d },
                            Some(seq),
                            Applied::Yes,
                        ),
                        None => (d, last, Applied::Resync),
                    },
                    None => (d, last, Applied::Resync),
                }
            },
            _ => (d, last, Applied::Resync),
        }
    }
}

/// Whether a field's text is the given one, absent on both sides included.
fn field_is(j: &Json, key: &str, want: &Option<String>) -> (r: bool)
    ensures
        r == (j.v().field(key@).text() == opt_text(*want)),
{
    match (j.text_at(key), want) {
        (Some(a), Some(b)) => same(a, b.as_str()),
        (None, None) => true,
        _ => false,
    }
}

/// Folds one frame of a daemon's event stream into its stored snapshot.
///
/// The first frame of a stream is a snapshot, which seeds the view. After that
/// each event holds a patch. A daemon replicates its peers' events, and those
/// describe another snapshot: only the watched daemon's own are applied. A gap
/// in the numbers leaves a view that is wrong, so it is read again, and so does an
/// event of the daemon's own that says it changed something and not what.
pub fn apply_frame(
    sh: &mut Shared,
    addr: &str,
    node: &Option<String>,
    ev: &Json,
    last_seq: &mut Option<u64>,
    now: u64,
) -> (r: Applied)
    ensures
        if old(sh)@.daemons.contains_key(addr@) {
            let (d, last, what) = framed(
                old(sh)@.daemons[addr@],
                opt_text(*node),
                ev.v(),
                *old(last_seq),
                now,
            );
            &&& final(sh)@ == (SharedV {
                daemons: old(sh)@.daemons.insert(addr@, d),
                ..old(sh)@
            })
            &&& *final(last_seq) == last
            &&& r == what
        } else {
            &&& final(sh)@ == old(sh)@
            &&& *final(last_seq) == *old(last_seq)
            &&& r == Applied::Skip
        },
{
    let ghost s0 = sh@;
    let ghost l0 = *last_seq;
    let view = match sh.daemons.get_mut(addr) {
        Some(v) => v,
        None => return Applied::Skip,
    };
    let ghost d0 = view.deep_view();
    let is_snapshot = match ev.text_at("type") {
        Some(t) => same(t, "snapshot"),
        None => false,
    };
    let r = if is_snapshot {
        let data = match ev.get("data") {
            Some(j) => j.copy(),
            None => Json::Null,
        };
        view.status = Some(data);
        view.seen = Some(now);
        view.error = None;
        *last_seq = ev.uint_at("seq");
        Applied::Yes
    } else if !field_is(ev, "node", node) {
        Applied::Skip
    } else {
        match (ev.uint_at("seq"), *last_seq) {
            (Some(seq), Some(prev)) => if seq <= prev {
                Applied::Skip
            } else if seq - 1 > prev {
                Applied::Resync
            } else {
                match &mut view.status {
                    Some(snap) => if apply_patch(snap, ev) {
                        *last_seq = Some(seq);
                        view.seen = Some(now);
                        Applied::Yes
                    } else {
                        Applied::Resync
                    },
                    None => Applied::Resync,
                }
            },
            _ => Applied::Resync,
        }
    };
    let ghost d1 = view.deep_view();
    proof {
        assert(d1 == framed(d0, opt_text(*node), ev.v(), l0, now).0);
        assert(sh@.daemons =~= s0.daemons.insert(addr@, d1));
    }
    r
}

/// An event the view already reflects changes nothing: what a stream delivers
/// again after a poll is skipped.
pub proof fn law_an_old_event_is_skipped(
    d: DaemonV,
    node: Option<Seq<char>>,
    ev: JsonV,
    last: u64,
    seq: u64,
    now: u64,
)
    requires
        ev.field("type"@).text() != Some("snapshot"@),
        ev.field("node"@).text() == node,
        ev.field("seq"@).uint() == Some(seq),
        seq <= last,
    ensures
        framed(d, node, ev, Some(last), now) == (d, Some(last), Applied::Skip),
{
}

/// A stream that skips a number is never folded in: the snapshot has to be read
/// again.
pub proof fn law_a_gap_is_never_applied(
    d: DaemonV,
    node: Option<Seq<char>>,
    ev: JsonV,
    last: u64,
    seq: u64,
    now: u64,
)
    requires
        ev.field("type"@).text() != Some("snapshot"@),
        ev.field("node"@).text() == node,
        ev.field("seq"@).uint() == Some(seq),
        seq > last + 1,
    ensures
        framed(d, node, ev, Some(last), now) == (d, Some(last), Applied::Resync),
{
}

/// A frame that is not folded in leaves the view and its number as they were. One
/// that is folded in is the watched daemon's own next event, with the whole of its
/// patch, and the number moves to it.
pub proof fn law_a_frame_is_folded_in_or_changes_nothing(
    d: DaemonV,
    node: Option<Seq<char>>,
    ev: JsonV,
    last: Option<u64>,
    now: u64,
)
    requires
        ev.field("type"@).text() != Some("snapshot"@),
    ensures
        ({
            let (after, reached, what) = framed(d, node, ev, last, now);
            &&& what != Applied::Yes ==> after == d && reached == last
            &&& what == Applied::Yes ==> {
                &&& ev.field("node"@).text() == node
                &&& last is Some && ev.field("seq"@).uint() is Some
                &&& ev.field("seq"@).uint()->0 == last->0 + 1
                &&& reached == ev.field("seq"@).uint()
                &&& d.status is Some
                &&& event_applied(d.status->0, ev) is Some
                &&& after == (DaemonV {
                    status: event_applied(d.status->0, ev),
                    seen: Some(now),
                    ..d
                })
            }
        }),
{
}

/// An event of the watched daemon's own that holds no patch, and that the view does
/// not reflect already, has the snapshot read again.
pub proof fn law_an_event_with_no_patch_is_read_again(
    d: DaemonV,
    node: Option<Seq<char>>,
    ev: JsonV,
    last: Option<u64>,
    now: u64,
)
    requires
        ev.field("type"@).text() != Some("snapshot"@),
        ev.field("node"@).text() == node,
        !(ev.field("patch"@) is Arr),
        match (ev.field("seq"@).uint(), last) {
            (Some(seq), Some(prev)) => seq > prev,
            _ => true,
        },
    ensures
        framed(d, node, ev, last, now) == (d, last, Applied::Resync),
{
}

} // verus!
