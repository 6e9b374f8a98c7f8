//! Discovery: what a daemon announces of itself, on which interfaces, and what
//! it does with the announcements of others.

use vstd::prelude::*;
use vstd::string::*;

use crate::common::dict::Dict;
use crate::common::ifaces::{iface_rows, interface_rows, IfaceRow, IfaceRowV};
use crate::common::ip::{parse_v4, v4_of};
use crate::common::json::{meaning, put, str_array, str_list, Json, JsonV};
use crate::common::text::{
    chars_of, copied, dec, decimal, has_prefix, holds_char, opt_text, parse_unsigned, same, split,
    split_first, split_on, split_once, starts_with, texts, trim, trimmed, unsigned,
};
use crate::daemon::proto::{major_matches, shares_major, PROTO};
use crate::daemon::state::{State, StateV};
use crate::daemon::status::{lists_json, rows, LocalAddrs, LocalV};

verus! {

broadcast use meaning;

/// The port announcements travel on.
pub const DEFAULT_PORT: u16 = 6382;

/// One Ethernet frame on a 1500-MTU path, so a datagram never fragments.
pub const MAX_DATAGRAM: usize = 1400;

// ---------------------------------------------------------------------------
// Lists of entries
// ---------------------------------------------------------------------------
/// The parts of a list that hold something once trimmed, trimmed.
pub open spec fn entries(parts: Seq<Seq<char>>) -> Seq<Seq<char>>
    decreases parts.len(),
{
    if parts.len() == 0 {
        Seq::empty()
    } else {
        let had = entries(parts.drop_last());
        let e = trimmed(parts.last());
        if e.len() > 0 {
            had.push(e)
        } else {
            had
        }
    }
}

/// The entries of a text, with `c` between them.
pub fn entries_of(s: &str, c: char) -> (r: Vec<String>)
    ensures
        texts(r@) == entries(split(s@, c)),
{
    let parts = split_on(s, c);
    let ghost all = texts(parts@);
    let mut out: Vec<String> = Vec::new();
    let mut i: usize = 0;
    proof {
        assert(texts(out@) =~= Seq::<Seq<char>>::empty());
    }
    while i < parts.len()
        invariant
            i <= parts@.len(),
            all == texts(parts@),
            texts(out@) == entries(all.take(i as int)),
        decreases parts@.len() - i,
    {
        proof {
            assert(all.take(i + 1).drop_last() =~= all.take(i as int));
            assert(all.take(i + 1).last() == parts@[i as int]@);
        }
        let e = trim(parts[i].as_str());
        if !e.is_empty() {
            let ghost was = out@;
            out.push(e.to_string());
            proof {
                assert(texts(out@) =~= texts(was).push(e@));
            }
        }
        i += 1;
    }
    proof {
        assert(all.take(all.len() as int) =~= all);
    }
    out
}

/// One entry of an announce list: a pattern, and the tags every address it
/// matches holds.
#[derive(Debug)]
pub struct Spec {
    pub pat: String,
    pub tags: Vec<String>,
}

/// A `Spec` as a mathematical value.
pub struct SpecV {
    pub pat: Seq<char>,
    pub tags: Seq<Seq<char>>,
}

impl View for Spec {
    type V = SpecV;

    open spec fn view(&self) -> SpecV {
        SpecV { pat: self.pat@, tags: texts(self.tags@) }
    }
}

/// Entries as mathematical values.
pub open spec fn spec_views(v: Seq<Spec>) -> Seq<SpecV> {
    Seq::new(v.len(), |i: int| v[i]@)
}

/// What an entry says: `name`, or `name=tag+tag`.
pub open spec fn entry_of(e: Seq<char>) -> SpecV {
    match split_first(e, '=') {
        Some((name, tags)) => SpecV { pat: trimmed(name), tags: entries(split(tags, '+')) },
        None => SpecV { pat: trimmed(e), tags: Seq::empty() },
    }
}

/// What a list says, its order kept.
pub open spec fn specs_of(s: Seq<char>) -> Seq<SpecV> {
    entries(split(s, ',')).map_values(|e: Seq<char>| entry_of(e))
}

/// Reads a comma-separated list of `name` or `name=tag+tag`, its order kept.
pub fn parse_spec(s: &str) -> (r: Vec<Spec>)
    ensures
        spec_views(r@) == specs_of(s@),
{
    let es = entries_of(s, ',');
    let mut out: Vec<Spec> = Vec::new();
    let mut i: usize = 0;
    while i < es.len()
        invariant
            i <= es@.len(),
            out@.len() == i,
            forall|j: int| 0 <= j < i ==> (#[trigger] out@[j])@ == entry_of(es@[j]@),
        decreases es@.len() - i,
    {
        let e = es[i].as_str();
        match split_once(e, '=') {
            Some((name, tags)) => out.push(
                Spec { pat: trim(name).to_string(), tags: entries_of(tags, '+') },
            ),
            None => {
                let sp = Spec { pat: trim(e).to_string(), tags: Vec::new() };
                proof {
                    assert(sp@.tags =~= Seq::<Seq<char>>::empty());
                }
                out.push(sp);
            },
        }
        i += 1;
    }
    proof {
        assert(specs_of(s@) == texts(es@).map_values(|e: Seq<char>| entry_of(e)));
        assert(spec_views(out@) =~= specs_of(s@));
    }
    out
}

// ---------------------------------------------------------------------------
// Patterns
// ---------------------------------------------------------------------------
/// Whether a name matches a pattern: `*` stands for any run of characters, `?`
/// for exactly one, and everything else for itself.
pub open spec fn globs(p: Seq<char>, n: Seq<char>) -> bool
    decreases p.len(), n.len(),
{
    if p.len() == 0 {
        n.len() == 0
    } else if p[0] == '*' {
        globs(p.skip(1), n) || (n.len() > 0 && globs(p, n.skip(1)))
    } else {
        n.len() > 0 && (p[0] == '?' || p[0] == n[0]) && globs(p.skip(1), n.skip(1))
    }
}

/// A run without stars either matches one for one, or nothing matches.
proof fn lemma_steps(p: Seq<char>, n: Seq<char>, from: int, to: int, at: int)
    requires
        0 <= from <= to <= p.len(),
        0 <= at <= n.len(),
        forall|i: int| from <= i < to ==> (#[trigger] p[i]) != '*',
        globs(p.skip(from), n.skip(at)),
    ensures
        at + (to - from) <= n.len(),
        globs(p.skip(to), n.skip(at + (to - from))),
    decreases to - from,
{
    if from < to {
        assert(p.skip(from)[0] == p[from]);
        assert(p.skip(from).skip(1) =~= p.skip(from + 1));
        assert(n.skip(at).skip(1) =~= n.skip(at + 1));
        lemma_steps(p, n, from + 1, to, at + 1);
    }
}

/// A pattern that starts with a star matches a longer name where it matches
/// the name's end.
proof fn lemma_star_absorbs(p: Seq<char>, n: Seq<char>, at: int, later: int)
    requires
        p.len() > 0,
        p[0] == '*',
        0 <= at <= later <= n.len(),
        globs(p, n.skip(later)),
    ensures
        globs(p, n.skip(at)),
    decreases later - at,
{
    if at < later {
        lemma_star_absorbs(p, n, at + 1, later);
        assert(n.skip(at).skip(1) =~= n.skip(at + 1));
    }
}

/// A pattern that starts with a star matches exactly where its rest matches
/// some end of the name.
proof fn lemma_star_some(p: Seq<char>, n: Seq<char>, at: int) -> (k: int)
    requires
        p.len() > 0,
        p[0] == '*',
        0 <= at <= n.len(),
        globs(p, n.skip(at)),
    ensures
        at <= k <= n.len(),
        globs(p.skip(1), n.skip(k)),
    decreases n.len() - at,
{
    if globs(p.skip(1), n.skip(at)) {
        at
    } else {
        assert(n.skip(at).skip(1) =~= n.skip(at + 1));
        lemma_star_some(p, n, at + 1)
    }
}

/// A second star takes over from the first.
proof fn lemma_next_star(p: Seq<char>, n: Seq<char>, s: int, resume: int, pi: int, ni: int)
    requires
        0 <= s < pi < p.len(),
        p[s] == '*',
        p[pi] == '*',
        0 <= resume <= ni <= n.len(),
        ni - resume == pi - s - 1,
        forall|i: int| s < i < pi ==> (#[trigger] p[i]) != '*',
        globs(p.skip(s + 1), n.skip(resume)) == globs(p.skip(pi), n.skip(ni)),
    ensures
        globs(p.skip(s), n.skip(resume)) == globs(p.skip(pi), n.skip(ni)),
{
    let ps = p.skip(s);
    assert(ps[0] == '*');
    assert(ps.skip(1) =~= p.skip(s + 1));
    if globs(ps, n.skip(resume)) {
        let k = lemma_star_some(ps, n, resume);
        lemma_steps(p, n, s + 1, pi, k);
        assert(p.skip(pi)[0] == '*');
        lemma_star_absorbs(p.skip(pi), n, ni, k + (pi - s - 1));
    }
}

proof fn lemma_only_stars(p: Seq<char>)
    ensures
        globs(p, Seq::empty()) == (forall|i: int| 0 <= i < p.len() ==> (#[trigger] p[i]) == '*'),
    decreases p.len(),
{
    if p.len() > 0 {
        let t = p.skip(1);
        lemma_only_stars(t);
        if p[0] == '*' {
            if globs(t, Seq::empty()) {
                assert forall|i: int| 0 <= i < p.len() implies (#[trigger] p[i]) == '*' by {
                    if i > 0 {
                        assert(t[i - 1] == '*');
                    }
                }
            } else {
                let i = choose|i: int| 0 <= i < t.len() && (#[trigger] t[i]) != '*';
                assert(p[i + 1] != '*');
            }
        }
    }
}

/// Whether a name matches a pattern. A pattern without a wildcard is an exact
/// name: a prefix has to say so, as `en*` does.
pub fn glob_match(pat: &str, name: &str) -> (r: bool)
    ensures
        r == globs(pat@, name@),
{
    let p = chars_of(pat);
    let n = chars_of(name);
    let ghost want = globs(p@, n@);
    let mut pi: usize = 0;
    let mut ni: usize = 0;
    // Where to resume if the last star turns out to have consumed too little.
    let mut starred: bool = false;
    let mut star: usize = 0;
    let mut resume: usize = 0;
    proof {
        assert(p@.skip(0) =~= p@);
        assert(n@.skip(0) =~= n@);
    }
    while ni < n.len()
        invariant
            p@ == pat@,
            n@ == name@,
            want == globs(p@, n@),
            pi <= p@.len(),
            resume <= ni <= n@.len(),
            starred ==> star < pi && p@[star as int] == '*' && ni - resume == pi - star - 1 && (
            forall|i: int| star < i < pi ==> (#[trigger] p@[i]) != '*') && want == globs(
                p@.skip(star as int),
                n@.skip(resume as int),
            ) && globs(p@.skip(star + 1), n@.skip(resume as int)) == globs(
                p@.skip(pi as int),
                n@.skip(ni as int),
            ),
            !starred ==> resume == 0 && star == 0 && want == globs(
                p@.skip(pi as int),
                n@.skip(ni as int),
            ),
        decreases
                n@.len() - resume,
                p@.len() - star + (if starred {
                    0int
                } else {
                    1int
                }),
                n@.len() - ni,
    {
        proof {
            if pi < p@.len() {
                assert(p@.skip(pi as int)[0] == p@[pi as int]);
                assert(p@.skip(pi as int).skip(1) =~= p@.skip(pi + 1));
            }
            assert(n@.skip(ni as int)[0] == n@[ni as int]);
            assert(n@.skip(ni as int).skip(1) =~= n@.skip(ni + 1));
        }
        if pi < p.len() && p[pi] == '*' {
            proof {
                if starred {
                    lemma_next_star(
                        p@,
                        n@,
                        star as int,
                        resume as int,
                        pi as int,
                        ni as int,
                    );
                }
            }
            starred = true;
            star = pi;
            resume = ni;
            pi += 1;
        } else if pi < p.len() && (p[pi] == '?' || p[pi] == n[ni]) {
            pi += 1;
            ni += 1;
        } else if starred {
            proof {
                assert(!globs(p@.skip(pi as int), n@.skip(ni as int)));
                let ps = p@.skip(star as int);
                assert(ps[0] == '*');
                assert(ps.skip(1) =~= p@.skip(star + 1));
                assert(n@.skip(resume as int).skip(1) =~= n@.skip(resume + 1));
            }
            pi = star + 1;
            resume += 1;
            ni = resume;
        } else {
            return false;
        }
    }
    let mut i: usize = pi;
    while i < p.len() && p[i] == '*'
        invariant
            pi <= i <= p@.len(),
            forall|j: int| pi <= j < i ==> (#[trigger] p@[j]) == '*',
        decreases p@.len() - i,
    {
        i += 1;
    }
    proof {
        let rest = p@.skip(pi as int);
        assert(n@.skip(ni as int) =~= Seq::<char>::empty());
        lemma_only_stars(rest);
        if i < p@.len() {
            assert(rest[i - pi] != '*');
            if starred && want {
                let ps = p@.skip(star as int);
                assert(ps[0] == '*');
                assert(ps.skip(1) =~= p@.skip(star + 1));
                let k = lemma_star_some(ps, n@, resume as int);
                lemma_steps(p@, n@, star + 1, pi as int, k);
                assert(k == resume);
            }
        } else {
            assert forall|j: int| 0 <= j < rest.len() implies (#[trigger] rest[j]) == '*' by {
                assert(p@[pi + j] == '*');
            }
            if starred {
                let ps = p@.skip(star as int);
                assert(ps[0] == '*');
                assert(ps.skip(1) =~= p@.skip(star + 1));
            }
        }
    }
    i >= p.len()
}

/// The first entry from `i` on that a name matches, or the number of entries.
pub open spec fn first_match(spec: Seq<SpecV>, name: Seq<char>, i: int) -> int
    decreases spec.len() - i,
{
    if i >= spec.len() {
        spec.len() as int
    } else if globs(spec[i].pat, name) {
        i
    } else {
        first_match(spec, name, i + 1)
    }
}

/// The rank and the tags of an interface name: those of the first entry it
/// matches.
pub fn match_spec(spec: &Vec<Spec>, name: &str) -> (r: Option<(usize, Vec<String>)>)
    ensures
        match r {
            Some((rank, tags)) => rank < spec@.len() && rank == first_match(
                spec_views(spec@),
                name@,
                0,
            ) && texts(tags@) == spec_views(spec@)[rank as int].tags,
            None => first_match(spec_views(spec@), name@, 0) == spec@.len(),
        },
{
    let ghost all = spec_views(spec@);
    let mut i: usize = 0;
    while i < spec.len()
        invariant
            i <= spec@.len(),
            all == spec_views(spec@),
            first_match(all, name@, 0) == first_match(all, name@, i as int),
        decreases spec@.len() - i,
    {
        proof {
            assert(all[i as int] == spec@[i as int]@);
        }
        if glob_match(spec[i].pat.as_str(), name) {
            return Some((i, copied(&spec[i].tags)));
        }
        i += 1;
    }
    None
}

// ---------------------------------------------------------------------------
// Interfaces
// ---------------------------------------------------------------------------
/// One selected interface: the address it holds and the tags it was given.
#[derive(Debug)]
pub struct Iface {
    pub name: String,
    pub addr: Option<String>,
    pub far: Option<String>,
    pub broadcasts: bool,
    pub tags: Vec<String>,
}

/// An `Iface` as a mathematical value.
pub struct IfaceV {
    pub name: Seq<char>,
    pub addr: Option<Seq<char>>,
    pub far: Option<Seq<char>>,
    pub broadcasts: bool,
    pub tags: Seq<Seq<char>>,
}

impl View for Iface {
    type V = IfaceV;

    open spec fn view(&self) -> IfaceV {
        IfaceV {
            name: self.name@,
            addr: opt_text(self.addr),
            far: opt_text(self.far),
            broadcasts: self.broadcasts,
            tags: texts(self.tags@),
        }
    }
}

/// Interfaces as mathematical values.
pub open spec fn iface_views(v: Seq<Iface>) -> Seq<IfaceV> {
    Seq::new(v.len(), |i: int| v[i]@)
}

/// A row, selected with some tags.
pub open spec fn picked(r: IfaceRowV, tags: Seq<Seq<char>>) -> IfaceV {
    IfaceV { name: r.name, addr: r.addr, far: r.far, broadcasts: r.broadcasts, tags }
}

/// Whether a row can be announced on: of IPv4, up, and no loopback.
pub open spec fn usable(r: IfaceRowV) -> bool {
    r.v4 && r.up && !r.loopback
}

/// Whether a name is that of a container bridge, where no peer sits.
pub open spec fn bridge(name: Seq<char>) -> bool {
    has_prefix(name, "docker"@) || has_prefix(name, "veth"@) || has_prefix(name, "br-"@)
        || has_prefix(name, "virbr"@)
}

/// Every usable row that is no bridge, in kernel order and without tags.
pub open spec fn unranked(rows: Seq<IfaceRowV>) -> Seq<IfaceV>
    decreases rows.len(),
{
    if rows.len() == 0 {
        Seq::empty()
    } else {
        let had = unranked(rows.drop_last());
        let r = rows.last();
        if usable(r) && !bridge(r.name) {
            had.push(picked(r, Seq::empty()))
        } else {
            had
        }
    }
}

/// The usable rows whose name matches entry `rank` first, in kernel order and
/// with the entry's tags.
pub open spec fn at_rank(spec: Seq<SpecV>, rows: Seq<IfaceRowV>, rank: int) -> Seq<IfaceV>
    decreases rows.len(),
{
    if rows.len() == 0 {
        Seq::empty()
    } else {
        let had = at_rank(spec, rows.drop_last(), rank);
        let r = rows.last();
        if usable(r) && first_match(spec, r.name, 0) == rank {
            had.push(picked(r, spec[rank].tags))
        } else {
            had
        }
    }
}

/// The rows of the first `n` entries, entry by entry.
pub open spec fn by_rank(spec: Seq<SpecV>, rows: Seq<IfaceRowV>, n: nat) -> Seq<IfaceV>
    decreases n,
{
    if n == 0 {
        Seq::empty()
    } else {
        by_rank(spec, rows, (n - 1) as nat) + at_rank(spec, rows, n - 1)
    }
}

/// The interfaces worth announcing on, most preferred first: those the list
/// names, in its order; with an empty list every usable one but the bridges.
pub open spec fn selected(list: Seq<char>, rows: Seq<IfaceRowV>) -> Seq<IfaceV> {
    let spec = specs_of(list);
    if spec.len() == 0 {
        unranked(rows)
    } else {
        by_rank(spec, rows, spec.len())
    }
}

fn is_bridge(name: &str) -> (r: bool)
    ensures
        r == bridge(name@),
{
    starts_with(name, "docker") || starts_with(name, "veth") || starts_with(name, "br-")
        || starts_with(name, "virbr")
}

fn copy_opt(v: &Option<String>) -> (r: Option<String>)
    ensures
        opt_text(r) == opt_text(*v),
{
    match v {
        Some(s) => Some(s.clone()),
        None => None,
    }
}

fn pick(r: &IfaceRow, tags: Vec<String>) -> (i: Iface)
    ensures
        i@ == picked(r@, texts(tags@)),
{
    Iface {
        name: r.name.clone(),
        addr: copy_opt(&r.addr),
        far: copy_opt(&r.far),
        broadcasts: r.broadcasts,
        tags,
    }
}

fn pick_rank(spec: &Vec<Spec>, rows: &Vec<IfaceRow>, rank: usize, out: &mut Vec<Iface>)
    requires
        rank < spec@.len(),
    ensures
        iface_views(final(out)@) == iface_views(old(out)@) + at_rank(
            spec_views(spec@),
            iface_rows(rows@),
            rank as int,
        ),
{
    let ghost sv = spec_views(spec@);
    let ghost rv = iface_rows(rows@);
    let ghost start = iface_views(out@);
    let mut i: usize = 0;
    proof {
        assert(start + Seq::<IfaceV>::empty() =~= start);
    }
    while i < rows.len()
        invariant
            i <= rows@.len(),
            rank < spec@.len(),
            sv == spec_views(spec@),
            rv == iface_rows(rows@),
            iface_views(out@) == start + at_rank(sv, rv.take(i as int), rank as int),
        decreases rows@.len() - i,
    {
        let r = &rows[i];
        proof {
            assert(rv.take(i + 1).drop_last() =~= rv.take(i as int));
            assert(rv.take(i + 1).last() == r@);
        }
        if r.v4 && r.up && !r.loopback {
            if let Some((at, tags)) = match_spec(spec, r.name.as_str()) {
                if at == rank {
                    let ghost was = out@;
                    let f = pick(r, tags);
                    let ghost fv = f@;
                    out.push(f);
                    proof {
                        assert(iface_views(out@) =~= iface_views(was).push(fv));
                        assert(iface_views(out@) =~= start + at_rank(
                            sv,
                            rv.take(i as int),
                            rank as int,
                        ).push(fv));
                    }
                }
            }
        }
        i += 1;
    }
    proof {
        assert(rv.take(rv.len() as int) =~= rv);
    }
}

/// The interfaces worth announcing on, most preferred first.
///
/// `list` names them, and its order is the preference order: only this node can
/// rank its own links. An entry names an interface or a pattern over their
/// names, and may hold tags, which travel with the address. The first entry a
/// name matches decides its rank and its tags. Interfaces of one entry rank
/// together, in kernel order.
pub fn selected_ifaces(list: &str, rows: &Vec<IfaceRow>) -> (r: Vec<Iface>)
    ensures
        iface_views(r@) == selected(list@, iface_rows(rows@)),
{
    let spec = parse_spec(list);
    let ghost sv = spec_views(spec@);
    let ghost rv = iface_rows(rows@);
    let mut out: Vec<Iface> = Vec::new();
    proof {
        assert(iface_views(out@) =~= Seq::<IfaceV>::empty());
    }
    if spec.len() == 0 {
        let mut i: usize = 0;
        while i < rows.len()
            invariant
                i <= rows@.len(),
                rv == iface_rows(rows@),
                iface_views(out@) == unranked(rv.take(i as int)),
            decreases rows@.len() - i,
        {
            let r = &rows[i];
            proof {
                assert(rv.take(i + 1).drop_last() =~= rv.take(i as int));
                assert(rv.take(i + 1).last() == r@);
            }
            if r.v4 && r.up && !r.loopback && !is_bridge(r.name.as_str()) {
                let ghost was = out@;
                let none: Vec<String> = Vec::new();
                proof {
                    assert(texts(none@) =~= Seq::<Seq<char>>::empty());
                }
                let f = pick(r, none);
                let ghost fv = f@;
                out.push(f);
                proof {
                    assert(iface_views(out@) =~= iface_views(was).push(fv));
                }
            }
            i += 1;
        }
        proof {
            assert(rv.take(rv.len() as int) =~= rv);
        }
        return out;
    }
    let mut rank: usize = 0;
    while rank < spec.len()
        invariant
            rank <= spec@.len(),
            sv == spec_views(spec@),
            rv == iface_rows(rows@),
            iface_views(out@) == by_rank(sv, rv, rank as nat),
        decreases spec@.len() - rank,
    {
        pick_rank(&spec, rows, rank, &mut out);
        rank += 1;
    }
    out
}

// ---------------------------------------------------------------------------
// Addresses named outright
// ---------------------------------------------------------------------------
/// The entries that are IPv4 addresses.
pub open spec fn good_addrs(spec: Seq<SpecV>) -> Seq<SpecV>
    decreases spec.len(),
{
    if spec.len() == 0 {
        Seq::empty()
    } else {
        let had = good_addrs(spec.drop_last());
        if v4_of(spec.last().pat) is Some {
            had.push(spec.last())
        } else {
            had
        }
    }
}

/// The patterns of the entries that are no IPv4 addresses.
pub open spec fn bad_addrs(spec: Seq<SpecV>) -> Seq<Seq<char>>
    decreases spec.len(),
{
    if spec.len() == 0 {
        Seq::empty()
    } else {
        let had = bad_addrs(spec.drop_last());
        if v4_of(spec.last().pat) is Some {
            had
        } else {
            had.push(spec.last().pat)
        }
    }
}

/// The addresses this node advertises where the operator names them outright
/// instead of naming interfaces, and the entries that are no address and are
/// left out. Without a single address the interfaces decide, as they do with an
/// empty list.
pub fn announced_override(raw: &str) -> (r: (Vec<Spec>, Vec<String>))
    ensures
        spec_views(r.0@) == good_addrs(specs_of(raw@)),
        texts(r.1@) == bad_addrs(specs_of(raw@)),
{
    let spec = parse_spec(raw);
    let ghost sv = spec_views(spec@);
    let mut good: Vec<Spec> = Vec::new();
    let mut bad: Vec<String> = Vec::new();
    let mut i: usize = 0;
    proof {
        assert(spec_views(good@) =~= Seq::<SpecV>::empty());
        assert(texts(bad@) =~= Seq::<Seq<char>>::empty());
    }
    while i < spec.len()
        invariant
            i <= spec@.len(),
            sv == spec_views(spec@),
            spec_views(good@) == good_addrs(sv.take(i as int)),
            texts(bad@) == bad_addrs(sv.take(i as int)),
        decreases spec@.len() - i,
    {
        let e = &spec[i];
        proof {
            assert(sv.take(i + 1).drop_last() =~= sv.take(i as int));
            assert(sv.take(i + 1).last() == e@);
        }
        match parse_v4(e.pat.as_str()) {
            Some(_) => {
                let ghost was = good@;
                good.push(Spec { pat: e.pat.clone(), tags: copied(&e.tags) });
                proof {
                    assert(spec_views(good@) =~= spec_views(was).push(e@));
                }
            },
            None => {
                let ghost was = bad@;
                bad.push(e.pat.clone());
                proof {
                    assert(texts(bad@) =~= texts(was).push(e.pat@));
                }
            },
        }
        i += 1;
    }
    proof {
        assert(sv.take(sv.len() as int) =~= sv);
    }
    (good, bad)
}

/// How a node is told to announce itself.
#[derive(Debug)]
pub struct AnnounceOpts {
    /// The list of interfaces.
    pub ifaces: String,
    /// The list of addresses named outright.
    pub addrs: String,
}

/// The addresses of some entries.
pub open spec fn pats(spec: Seq<SpecV>) -> Seq<Seq<char>> {
    Seq::new(spec.len(), |i: int| spec[i].pat)
}

/// The addresses of some interfaces.
pub open spec fn held_addrs(v: Seq<IfaceV>) -> Seq<Seq<char>>
    decreases v.len(),
{
    if v.len() == 0 {
        Seq::empty()
    } else {
        let had = held_addrs(v.drop_last());
        match v.last().addr {
            Some(a) => had.push(a),
            None => had,
        }
    }
}

/// The interface each address of some interfaces sits on.
pub open spec fn held_names(v: Seq<IfaceV>) -> Map<Seq<char>, Seq<char>>
    decreases v.len(),
{
    if v.len() == 0 {
        Map::empty()
    } else {
        let had = held_names(v.drop_last());
        match v.last().addr {
            Some(a) => had.insert(a, v.last().name),
            None => had,
        }
    }
}

/// The tags of each address of some interfaces that has any.
pub open spec fn held_tags(v: Seq<IfaceV>) -> Map<Seq<char>, Seq<Seq<char>>>
    decreases v.len(),
{
    if v.len() == 0 {
        Map::empty()
    } else {
        let had = held_tags(v.drop_last());
        match v.last().addr {
            Some(a) if v.last().tags.len() > 0 => had.insert(a, v.last().tags),
            _ => had,
        }
    }
}

/// The tags of each address named outright that has any.
pub open spec fn named_tags(v: Seq<SpecV>) -> Map<Seq<char>, Seq<Seq<char>>>
    decreases v.len(),
{
    if v.len() == 0 {
        Map::empty()
    } else {
        let had = named_tags(v.drop_last());
        if v.last().tags.len() > 0 {
            had.insert(v.last().pat, v.last().tags)
        } else {
            had
        }
    }
}

/// What a node announces of its addresses, with its interfaces as they are.
pub open spec fn announced(ifaces: Seq<char>, addrs: Seq<char>, rows: Seq<IfaceRowV>) -> LocalV {
    let named = good_addrs(specs_of(addrs));
    if named.len() > 0 {
        LocalV { addrs: pats(named), addr_tags: named_tags(named), addr_ifaces: Map::empty() }
    } else {
        let held = selected(ifaces, rows);
        LocalV {
            addrs: held_addrs(held),
            addr_tags: held_tags(held),
            addr_ifaces: held_names(held),
        }
    }
}

/// Addresses named outright pass the interfaces by: what is announced is the
/// same whatever interfaces there are, and none is recorded for an address.
pub proof fn law_named_addresses_pass_the_interfaces_by(
    ifaces: Seq<char>,
    addrs: Seq<char>,
    rows: Seq<IfaceRowV>,
    others: Seq<IfaceRowV>,
)
    requires
        good_addrs(specs_of(addrs)).len() > 0,
    ensures
        announced(ifaces, addrs, rows) == announced(ifaces, addrs, others),
        announced(ifaces, addrs, rows).addrs == pats(good_addrs(specs_of(addrs))),
        announced(ifaces, addrs, rows).addr_ifaces == Map::<Seq<char>, Seq<char>>::empty(),
{
}

/// What a node announces of its addresses: those named outright, where there
/// are any, and otherwise those of the selected interfaces. An address named
/// outright sits on no interface anybody recorded.
pub fn announced_addrs(opts: &AnnounceOpts, rows: &Vec<IfaceRow>) -> (r: LocalAddrs)
    ensures
        r.deep_view() == announced(opts.ifaces@, opts.addrs@, iface_rows(rows@)),
{
    let (named, _) = announced_override(opts.addrs.as_str());
    let ghost nv = spec_views(named@);
    let mut addrs: Vec<String> = Vec::new();
    let mut tags: Dict<Vec<String>> = Dict::new();
    let mut names: Dict<String> = Dict::new();
    proof {
        assert(texts(addrs@) =~= Seq::<Seq<char>>::empty());
        assert(tags.deep_view() =~= Map::<Seq<char>, Seq<Seq<char>>>::empty());
        assert(names.deep_view() =~= Map::<Seq<char>, Seq<char>>::empty());
    }
    let mut i: usize = 0;
    if named.len() > 0 {
        while i < named.len()
            invariant
                i <= named@.len(),
                nv == spec_views(named@),
                texts(addrs@) == pats(nv).take(i as int),
                tags.deep_view() == named_tags(nv.take(i as int)),
            decreases named@.len() - i,
        {
            let e = &named[i];
            proof {
                assert(nv.take(i + 1).drop_last() =~= nv.take(i as int));
                assert(nv.take(i + 1).last() == e@);
                assert(pats(nv).take(i + 1) =~= pats(nv).take(i as int).push(e.pat@));
            }
            let ghost was = addrs@;
            addrs.push(e.pat.clone());
            proof {
                assert(texts(addrs@) =~= texts(was).push(e.pat@));
            }
            if e.tags.len() > 0 {
                let ghost had = tags.deep_view();
                let c = copied(&e.tags);
                proof {
                    assert(c.deep_view() =~= texts(e.tags@));
                }
                tags.insert(e.pat.clone(), c);
                proof {
                    assert(tags.deep_view() =~= had.insert(e.pat@, texts(e.tags@)));
                }
            }
            i += 1;
        }
        proof {
            assert(nv.take(nv.len() as int) =~= nv);
            assert(pats(nv).take(nv.len() as int) =~= pats(nv));
        }
        return LocalAddrs { addrs, addr_tags: tags, addr_ifaces: names };
    }
    let held = selected_ifaces(opts.ifaces.as_str(), rows);
    let ghost hv = iface_views(held@);
    while i < held.len()
        invariant
            i <= held@.len(),
            hv == iface_views(held@),
            texts(addrs@) == held_addrs(hv.take(i as int)),
            tags.deep_view() == held_tags(hv.take(i as int)),
            names.deep_view() == held_names(hv.take(i as int)),
        decreases held@.len() - i,
    {
        let e = &held[i];
        proof {
            assert(hv.take(i + 1).drop_last() =~= hv.take(i as int));
            assert(hv.take(i + 1).last() == e@);
        }
        if let Some(a) = &e.addr {
            let ghost was = addrs@;
            addrs.push(a.clone());
            let ghost hadn = names.deep_view();
            names.insert(a.clone(), e.name.clone());
            proof {
                assert(texts(addrs@) =~= texts(was).push(a@));
                assert(names.deep_view() =~= hadn.insert(a@, e.name@));
            }
            if e.tags.len() > 0 {
                let ghost had = tags.deep_view();
                let c = copied(&e.tags);
                proof {
                    assert(c.deep_view() =~= texts(e.tags@));
                }
                tags.insert(a.clone(), c);
                proof {
                    assert(tags.deep_view() =~= had.insert(a@, texts(e.tags@)));
                }
            }
        }
        i += 1;
    }
    proof {
        assert(hv.take(hv.len() as int) =~= hv);
    }
    LocalAddrs { addrs, addr_tags: tags, addr_ifaces: names }
}

/// The addresses this node announces, whatever interfaces it has now.
pub fn local_addrs(opts: &AnnounceOpts) -> (r: Vec<String>)
    ensures
        exists|rows: Seq<IfaceRowV>|
            texts(r@) == (#[trigger] announced(opts.ifaces@, opts.addrs@, rows)).addrs,
{
    let rows = interface_rows();
    announced_addrs(opts, &rows).addrs
}

/// The interface each announced address sits on, for those discovered from one.
pub fn local_addr_ifaces(opts: &AnnounceOpts) -> (r: Dict<String>)
    ensures
        exists|rows: Seq<IfaceRowV>|
            r.deep_view() == (#[trigger] announced(opts.ifaces@, opts.addrs@, rows)).addr_ifaces,
{
    let rows = interface_rows();
    announced_addrs(opts, &rows).addr_ifaces
}

/// The tags of each announced address that was given any: every one is a tag
/// an operator set.
pub fn local_addr_tags(opts: &AnnounceOpts) -> (r: Dict<Vec<String>>)
    ensures
        exists|rows: Seq<IfaceRowV>|
            r.deep_view() == (#[trigger] announced(opts.ifaces@, opts.addrs@, rows)).addr_tags,
{
    let rows = interface_rows();
    announced_addrs(opts, &rows).addr_tags
}

/// The addresses of the IPv4 rows that are up.
pub open spec fn up_addrs(rows: Seq<IfaceRowV>) -> Seq<Seq<char>>
    decreases rows.len(),
{
    if rows.len() == 0 {
        Seq::empty()
    } else {
        let had = up_addrs(rows.drop_last());
        match rows.last().addr {
            Some(a) if rows.last().v4 && rows.last().up => had.push(a),
            _ => had,
        }
    }
}

/// Every IPv4 address among some rows, whatever the announce settings select.
pub fn addrs_up(rows: &Vec<IfaceRow>) -> (r: Vec<String>)
    ensures
        texts(r@) == up_addrs(iface_rows(rows@)),
{
    let ghost rv = iface_rows(rows@);
    let mut out: Vec<String> = Vec::new();
    let mut i: usize = 0;
    proof {
        assert(texts(out@) =~= Seq::<Seq<char>>::empty());
    }
    while i < rows.len()
        invariant
            i <= rows@.len(),
            rv == iface_rows(rows@),
            texts(out@) == up_addrs(rv.take(i as int)),
        decreases rows@.len() - i,
    {
        let r = &rows[i];
        proof {
            assert(rv.take(i + 1).drop_last() =~= rv.take(i as int));
            assert(rv.take(i + 1).last() == r@);
        }
        if let Some(a) = &r.addr {
            if r.v4 && r.up {
                let ghost was = out@;
                out.push(a.clone());
                proof {
                    assert(texts(out@) =~= texts(was).push(a@));
                }
            }
        }
        i += 1;
    }
    proof {
        assert(rv.take(rv.len() as int) =~= rv);
    }
    out
}

/// Every IPv4 address this box listens on: the question is "is that host me".
pub fn all_local_addrs() -> (r: Vec<String>)
    ensures
        exists|rows: Seq<IfaceRowV>| texts(r@) == #[trigger] up_addrs(rows),
{
    let rows = interface_rows();
    addrs_up(&rows)
}

/// Where a broadcast on some interfaces goes.
pub open spec fn broadcasts_to(v: Seq<IfaceV>, port: u16) -> Seq<Seq<char>>
    decreases v.len(),
{
    if v.len() == 0 {
        Seq::empty()
    } else {
        let had = broadcasts_to(v.drop_last(), port);
        match v.last().far {
            Some(b) if v.last().broadcasts => had.push(b + ":"@ + decimal(port as nat)),
            _ => had,
        }
    }
}

/// One broadcast address for each selected interface that has one.
pub fn broadcast_targets(held: &Vec<Iface>, port: u16) -> (r: Vec<String>)
    ensures
        texts(r@) == broadcasts_to(iface_views(held@), port),
{
    let ghost hv = iface_views(held@);
    let mut out: Vec<String> = Vec::new();
    let mut i: usize = 0;
    proof {
        assert(texts(out@) =~= Seq::<Seq<char>>::empty());
    }
    while i < held.len()
        invariant
            i <= held@.len(),
            hv == iface_views(held@),
            texts(out@) == broadcasts_to(hv.take(i as int), port),
        decreases held@.len() - i,
    {
        let e = &held[i];
        proof {
            assert(hv.take(i + 1).drop_last() =~= hv.take(i as int));
            assert(hv.take(i + 1).last() == e@);
        }
        if let Some(b) = &e.far {
            if e.broadcasts {
                let ghost was = out@;
                let mut t = b.clone();
                t.append(":");
                t.append(dec(port as u64).as_str());
                let ghost tv = t@;
                out.push(t);
                proof {
                    assert(texts(out@) =~= texts(was).push(tv));
                }
            }
        }
        i += 1;
    }
    proof {
        assert(hv.take(hv.len() as int) =~= hv);
    }
    out
}

// ---------------------------------------------------------------------------
// Sending
// ---------------------------------------------------------------------------
/// The port a setting names, or the usual one. At 0 nothing is announced.
pub open spec fn port_of(setting: Option<Seq<char>>) -> u16 {
    match setting {
        Some(s) => match unsigned(trimmed(s)) {
            Some(n) if n <= 65535 => n as u16,
            _ => DEFAULT_PORT,
        },
        None => DEFAULT_PORT,
    }
}

/// The port a setting names, or the usual one. At 0 nothing is announced.
pub fn announce_port(setting: &Option<String>) -> (r: u16)
    ensures
        r == port_of(opt_text(*setting)),
{
    match setting {
        Some(s) => match parse_unsigned(trim(s.as_str()), 65535) {
            Some(n) => n as u16,
            None => DEFAULT_PORT,
        },
        None => DEFAULT_PORT,
    }
}

/// A target as the network takes it: with the port, where it names none.
pub open spec fn with_port(e: Seq<char>, port: u16) -> Seq<char> {
    if e.contains(':') {
        e
    } else {
        e + ":"@ + decimal(port as nat)
    }
}

/// Explicit unicast targets, `host` or `host:port`, for a listener that shares
/// no broadcast domain with this box.
pub fn extra_targets(list: &str, port: u16) -> (r: Vec<String>)
    ensures
        texts(r@) == entries(split(list@, ',')).map_values(|e: Seq<char>| with_port(e, port)),
{
    let es = entries_of(list, ',');
    let mut out: Vec<String> = Vec::new();
    let mut i: usize = 0;
    while i < es.len()
        invariant
            i <= es@.len(),
            out@.len() == i,
            forall|j: int| 0 <= j < i ==> (#[trigger] out@[j])@ == with_port(es@[j]@, port),
        decreases es@.len() - i,
    {
        let mut t = es[i].clone();
        if !holds_char(t.as_str(), ':') {
            t.append(":");
            t.append(dec(port as u64).as_str());
        }
        out.push(t);
        i += 1;
    }
    proof {
        assert(texts(out@) =~= texts(es@).map_values(|e: Seq<char>| with_port(e, port)));
    }
    out
}

/// What a daemon announces. `t` and `seq` bound replay: the first against the
/// listener's clock, the second against the last it accepted from this boot.
pub open spec fn announcement_of(
    s: StateV,
    local: LocalV,
    universe: Seq<char>,
    boot: Seq<char>,
    seq: u64,
    now_s: u64,
) -> JsonV {
    JsonV::Obj(
        map![
            "proto"@ => JsonV::Str(PROTO@),
            "node_id"@ => JsonV::Str(s.node_id),
            "control"@ => JsonV::Str(s.control_addr),
            "http"@ => JsonV::Str(s.node_ip + ":"@ + decimal(s.http_port as nat)),
            "universe"@ => JsonV::Str(universe),
            "addrs"@ => str_array(local.addrs),
            "addr_tags"@ => rows(local.addr_tags, |x: Seq<Seq<char>>| str_array(x)),
            "boot_id"@ => JsonV::Str(boot),
            "seq"@ => JsonV::Uint(seq),
            "t"@ => JsonV::Uint(now_s),
        ],
    )
}

/// What a daemon announces.
pub fn announcement(
    st: &State,
    local: &LocalAddrs,
    universe: &str,
    boot: &str,
    seq: u64,
    now_s: u64,
) -> (r: Json)
    ensures
        r.v() == announcement_of(st@, local.deep_view(), universe@, boot@, seq, now_s),
{
    let mut http = st.node_ip.clone();
    http.append(":");
    http.append(dec(st.http_port as u64).as_str());
    let mut d = Json::object();
    put(&mut d, "proto", Json::str(PROTO));
    put(&mut d, "node_id", Json::str(st.node_id.as_str()));
    put(&mut d, "control", Json::str(st.control_addr.as_str()));
    put(&mut d, "http", Json::str(http.as_str()));
    put(&mut d, "universe", Json::str(universe));
    put(&mut d, "addrs", str_list(&local.addrs));
    put(&mut d, "addr_tags", lists_json(&local.addr_tags));
    put(&mut d, "boot_id", Json::str(boot));
    put(&mut d, "seq", Json::Uint(seq));
    put(&mut d, "t", Json::Uint(now_s));
    Json::Obj(d)
}

/// Whether a datagram of so many bytes may be sent.
pub fn sendable(bytes: usize) -> (r: bool)
    ensures
        r == (bytes <= MAX_DATAGRAM),
{
    bytes <= MAX_DATAGRAM
}

// ---------------------------------------------------------------------------
// Listening
// ---------------------------------------------------------------------------
/// The last announcement taken from a node: the boot it came from and its
/// number.
#[derive(Debug)]
pub struct Seen {
    pub boot: String,
    pub seq: u64,
}

impl DeepView for Seen {
    type V = (Seq<char>, u64);

    open spec fn deep_view(&self) -> (Seq<char>, u64) {
        (self.boot@, self.seq)
    }
}

/// What becomes of an announcement.
#[derive(Debug)]
pub enum Heard {
    /// It is of a protocol this daemon does not speak.
    WrongProto { offered: String },
    /// It says nothing new.
    Dropped,
    /// The node it came from is to be dialled here.
    Dial { control: String },
}

/// What becomes of an announcement, as a mathematical value.
pub enum HeardV {
    WrongProto { offered: Seq<char> },
    Dropped,
    Dial { control: Seq<char> },
}

impl View for Heard {
    type V = HeardV;

    open spec fn view(&self) -> HeardV {
        match self {
            Heard::WrongProto { offered } => HeardV::WrongProto { offered: offered@ },
            Heard::Dropped => HeardV::Dropped,
            Heard::Dial { control } => HeardV::Dial { control: control@ },
        }
    }
}

/// Whether two clocks are within so many seconds of each other.
pub open spec fn within(a: u64, b: u64, window: u64) -> bool {
    a - b <= window && b - a <= window
}

/// Whether two clocks are within so many seconds of each other.
pub fn fresh(a: u64, b: u64, window: u64) -> (r: bool)
    ensures
        r == within(a, b, window),
{
    if a >= b {
        a - b <= window
    } else {
        b - a <= window
    }
}

/// Whether an announcement repeats what was taken from its node before.
pub open spec fn replayed(
    seen: Map<Seq<char>, (Seq<char>, u64)>,
    node: Seq<char>,
    boot: Seq<char>,
    seq: u64,
) -> bool {
    seen.contains_key(node) && seen[node].0 == boot && seq <= seen[node].1
}

/// The number of an announcement.
pub open spec fn number_in(v: JsonV) -> u64 {
    match v.field("seq"@).uint() {
        Some(n) => n,
        None => 0,
    }
}

/// Whether an announcement is taken: of this protocol, in time, from another
/// node, and not heard before.
pub open spec fn taken(
    s: StateV,
    seen: Map<Seq<char>, (Seq<char>, u64)>,
    v: JsonV,
    now_s: u64,
    window_s: u64,
) -> bool {
    let node = v.field("node_id"@).text_or_empty();
    let boot = v.field("boot_id"@).text_or_empty();
    &&& shares_major(PROTO@, v.field("proto"@).text_or_empty())
    &&& v.field("t"@).uint() matches Some(t) && within(t, now_s, window_s)
    &&& node.len() > 0 && boot.len() > 0 && node != s.node_id
    &&& !replayed(seen, node, boot, number_in(v))
}

/// What becomes of an announcement.
pub open spec fn heard(
    s: StateV,
    seen: Map<Seq<char>, (Seq<char>, u64)>,
    v: JsonV,
    now_s: u64,
    window_s: u64,
) -> HeardV {
    let node = v.field("node_id"@).text_or_empty();
    let control = v.field("control"@).text_or_empty();
    if !shares_major(PROTO@, v.field("proto"@).text_or_empty()) {
        HeardV::WrongProto { offered: v.field("proto"@).text_or_empty() }
    } else if taken(s, seen, v, now_s, window_s) && control.len() > 0 && !(s.peers.contains_key(
        node,
    ) && s.peers[node].alive) {
        HeardV::Dial { control }
    } else {
        HeardV::Dropped
    }
}

/// What becomes of an announcement whose signature holds. It is a hint: it
/// produces one dial at most, and what it claims is settled over the link. A
/// node with a live link is not dialled again.
pub fn listen(
    st: &State,
    seen: &mut Dict<Seen>,
    v: &Json,
    now_s: u64,
    window_s: u64,
) -> (r: Heard)
    ensures
        r@ == heard(st@, old(seen).deep_view(), v.v(), now_s, window_s),
        final(seen).deep_view() == (if taken(
            st@,
            old(seen).deep_view(),
            v.v(),
            now_s,
            window_s,
        ) {
            old(seen).deep_view().insert(
                v.v().field("node_id"@).text_or_empty(),
                (v.v().field("boot_id"@).text_or_empty(), number_in(v.v())),
            )
        } else {
            old(seen).deep_view()
        }),
{
    let offered = v.text_or_empty_at("proto");
    if !major_matches(offered.as_str()) {
        return Heard::WrongProto { offered };
    }
    let t = match v.uint_at("t") {
        Some(t) => t,
        None => return Heard::Dropped,
    };
    if !fresh(t, now_s, window_s) {
        return Heard::Dropped;
    }
    let node = v.text_or_empty_at("node_id");
    let boot = v.text_or_empty_at("boot_id");
    let seq: u64 = match v.uint_at("seq") {
        Some(n) => n,
        None => 0,
    };
    if node.as_str().is_empty() || boot.as_str().is_empty() || same(node.as_str(), st.node_id.as_str()) {
        return Heard::Dropped;
    }
    let ghost had = seen.deep_view();
    if let Some(last) = seen.get(node.as_str()) {
        proof {
            assert(had[node@] == last.deep_view());
        }
        if same(last.boot.as_str(), boot.as_str()) && seq <= last.seq {
            return Heard::Dropped;
        }
    }
    seen.insert(node.clone(), Seen { boot: boot.clone(), seq });
    proof {
        assert(seen.deep_view() =~= had.insert(node@, (boot@, seq)));
    }
    let control = v.text_or_empty_at("control");
    if control.as_str().is_empty() {
        return Heard::Dropped;
    }
    if let Some(p) = st.peers.get(node.as_str()) {
        proof {
            assert(st@.peers[node@] == p.deep_view());
        }
        if p.alive {
            return Heard::Dropped;
        }
    }
    Heard::Dial { control }
}

/// An announcement heard twice is taken once: after one was taken, the same one
/// is dropped for good.
pub proof fn law_an_announcement_counts_once(
    s: StateV,
    seen: Map<Seq<char>, (Seq<char>, u64)>,
    v: JsonV,
    now_s: u64,
    window_s: u64,
    later: StateV,
    later_s: u64,
)
    requires
        taken(s, seen, v, now_s, window_s),
    ensures
        !taken(
            later,
            seen.insert(
                v.field("node_id"@).text_or_empty(),
                (v.field("boot_id"@).text_or_empty(), number_in(v)),
            ),
            v,
            later_s,
            window_s,
        ),
{
}

} // verus!
