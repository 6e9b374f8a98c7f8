//! This box's own networks, and the allowlist of addresses the router will act
//! on.
//!
//! Both settle the same question from different sides: which addresses are near
//! enough to be worth connecting to.

use vstd::prelude::*;
use vstd::string::*;

use crate::common::ifaces::{iface_rows, interface_rows, IfaceRow, IfaceRowV};
use crate::common::ip::{ip_of, parse_ip, show_v4, show_v6, v4_text, v6_text, Ip};
use crate::common::text::{
    dec_wide, decimal, has_prefix, join, joined, lowered, parse_unsigned, same_ignoring_case,
    split, split_first, split_once, starts_with, texts, trim, trimmed, unsigned,
};
use crate::daemon::announce::{entries, entries_of};

verus! {

/// One IP network: an address masked to a prefix length, in the one integer
/// width both families fit into.
#[derive(Clone, Copy, PartialEq, Eq, Debug, Structural)]
pub struct Net {
    pub net: u128,
    pub mask: u128,
    pub v6: bool,
}

/// An address as a number.
pub open spec fn key_of(a: Ip) -> u128 {
    match a {
        Ip::V4(a) => a as u128,
        Ip::V6(a) => a,
    }
}

/// The number of bits in an address.
pub open spec fn width_of(a: Ip) -> u32 {
    if a is V6 {
        128
    } else {
        32
    }
}

/// The mask of a prefix.
pub open spec fn prefix_mask(bits: u32, width: u32) -> u128 {
    if bits == 0 {
        0
    } else {
        (!0u128 >> ((128 - bits) as u128)) << ((width - bits) as u128)
    }
}

/// The network of an address and a prefix length, which the address's width
/// bounds.
pub open spec fn prefix_net(a: Ip, bits: u32) -> Net {
    let w = width_of(a);
    let m = prefix_mask(
        if bits < w {
            bits
        } else {
            w
        },
        w,
    );
    Net { net: key_of(a) & m, mask: m, v6: a is V6 }
}

/// The network of an address and a netmask.
pub open spec fn masked_net(a: Ip, m: Ip) -> Net {
    Net { net: key_of(a) & key_of(m), mask: key_of(m), v6: a is V6 }
}

/// Whether an address lies in a network.
pub open spec fn lies_in(a: Ip, n: Net) -> bool {
    n.v6 == (a is V6) && key_of(a) & n.mask == n.net
}

/// The network a text writes: `10.0.0.0/22`, `fd00::/8`, or a bare address as a
/// single host.
pub open spec fn net_of(s: Seq<char>) -> Option<Net> {
    match split_first(s, '/') {
        Some((a, b)) => match (ip_of(trimmed(a)), unsigned(trimmed(b))) {
            (Some(ip), Some(bits)) => if bits <= width_of(ip) {
                Some(prefix_net(ip, bits as u32))
            } else {
                None
            },
            _ => None,
        },
        None => match ip_of(trimmed(s)) {
            Some(ip) => Some(prefix_net(ip, width_of(ip))),
            None => None,
        },
    }
}

/// The number of bits set.
pub open spec fn ones(m: u128) -> nat
    decreases m,
{
    if m == 0 {
        0
    } else {
        (m % 2) as nat + ones(m / 2)
    }
}

/// A network as text. A netmask is contiguous, so its set bits are its prefix
/// length.
pub open spec fn net_text(n: Net) -> Seq<char> {
    (if n.v6 {
        v6_text(n.net)
    } else {
        v4_text(n.net as u32)
    }) + "/"@ + decimal(ones(n.mask))
}

fn key(a: Ip) -> (r: u128)
    ensures
        r == key_of(a),
{
    match a {
        Ip::V4(a) => a as u128,
        Ip::V6(a) => a,
    }
}

proof fn lemma_ones_fit(m: u128)
    ensures
        ones(m) <= m,
    decreases m,
{
    if m != 0 {
        lemma_ones_fit(m / 2);
    }
}

fn count_ones(m: u128) -> (r: u128)
    ensures
        r == ones(m),
{
    let mut left: u128 = m;
    let mut n: u128 = 0;
    proof {
        lemma_ones_fit(m);
    }
    while left != 0
        invariant
            n + ones(left) == ones(m),
            ones(m) <= m,
        decreases left,
    {
        n = n + left % 2;
        left = left / 2;
    }
    n
}

impl Net {
    /// The network of an address and a prefix length. A length beyond the
    /// family's width is clamped to it.
    pub fn new(addr: Ip, bits: u32) -> (r: Net)
        ensures
            r == prefix_net(addr, bits),
    {
        let (v6, width): (bool, u32) = match addr {
            Ip::V4(_) => (false, 32),
            Ip::V6(_) => (true, 128),
        };
        let bits: u32 = if bits < width {
            bits
        } else {
            width
        };
        // A shift by the full width is undefined, so /0 is spelled out.
        let mask: u128 = if bits == 0 {
            0
        } else {
            (!0u128 >> ((128 - bits) as u128)) << ((width - bits) as u128)
        };
        Net { net: key(addr) & mask, mask, v6 }
    }

    /// The network of an address and the netmask the interface list reports
    /// beside it.
    pub fn masked(addr: Ip, mask: Ip) -> (r: Net)
        ensures
            r == masked_net(addr, mask),
    {
        let v6: bool = match addr {
            Ip::V4(_) => false,
            Ip::V6(_) => true,
        };
        Net { net: key(addr) & key(mask), mask: key(mask), v6 }
    }

    /// Whether an address lies in the network.
    pub fn contains(&self, addr: Ip) -> (r: bool)
        ensures
            r == lies_in(addr, *self),
    {
        let v6: bool = match addr {
            Ip::V4(_) => false,
            Ip::V6(_) => true,
        };
        self.v6 == v6 && key(addr) & self.mask == self.net
    }

    /// The network a text writes.
    pub fn parse(s: &str) -> (r: Result<Net, ()>)
        ensures
            match r {
                Ok(n) => net_of(s@) == Some(n),
                Err(_) => net_of(s@) is None,
            },
    {
        match split_once(s, '/') {
            Some((a, b)) => {
                let bits: u64 = match parse_unsigned(trim(b), 0xffff_ffff) {
                    Some(n) => n,
                    None => return Err(()),
                };
                match parse_ip(trim(a)) {
                    Some(ip) => {
                        let width: u64 = match ip {
                            Ip::V4(_) => 32,
                            Ip::V6(_) => 128,
                        };
                        if bits > width {
                            return Err(());
                        }
                        Ok(Net::new(ip, bits as u32))
                    },
                    None => Err(()),
                }
            },
            None => match parse_ip(trim(s)) {
                Some(ip) => {
                    let width: u32 = match ip {
                        Ip::V4(_) => 32,
                        Ip::V6(_) => 128,
                    };
                    Ok(Net::new(ip, width))
                },
                None => Err(()),
            },
        }
    }

    /// The network as text.
    pub fn to_string(&self) -> (r: String)
        ensures
            r@ == net_text(*self),
    {
        let mut s = if self.v6 {
            show_v6(self.net)
        } else {
            show_v4(self.net as u32)
        };
        s.append("/");
        s.append(dec_wide(count_ones(self.mask)).as_str());
        s
    }
}

/// The leading bits of an address.
pub open spec fn leading(a: Ip, bits: u32) -> u128 {
    if bits == 0 {
        0
    } else {
        key_of(a) >> ((width_of(a) - bits) as u128)
    }
}

proof fn lemma_masked_is_shifted(x: u128, n: u128)
    requires
        n < 128,
    ensures
        x & ((!0u128 >> n) << n) == (x >> n) << n,
        ((x >> n) << n) >> n == x >> n,
{
    assert(x & ((!0u128 >> n) << n) == (x >> n) << n) by (bit_vector)
        requires
            n < 128,
    ;
    assert(((x >> n) << n) >> n == x >> n) by (bit_vector)
        requires
            n < 128,
    ;
}

/// A prefix network holds exactly the addresses of its family that share its
/// first bits.
pub proof fn law_a_network_is_its_prefix(a: Ip, bits: u32, b: Ip)
    requires
        bits <= width_of(a),
    ensures
        lies_in(b, prefix_net(a, bits)) <==> ((a is V6) == (b is V6)) && leading(a, bits)
            == leading(b, bits),
{
    let x = key_of(a);
    let y = key_of(b);
    if (a is V6) == (b is V6) {
        let w = width_of(a);
        if bits == 0 {
            assert(x & 0 == 0 && y & 0 == 0) by (bit_vector);
        } else if a is V6 {
            let n = (128 - bits) as u128;
            lemma_masked_is_shifted(x, n);
            lemma_masked_is_shifted(y, n);
        } else {
            let n = (128 - bits) as u128;
            let k = (32 - bits) as u128;
            assert(((x & ((!0u128 >> n) << k)) == (y & ((!0u128 >> n) << k))) == (x >> k == y >> k))
                by (bit_vector)
                requires
                    n == k + 96u128,
                    k < 32,
                    x <= 0xffff_ffff,
                    y <= 0xffff_ffff,
            ;
        }
    }
}

/// An address lies in every network that is written with it.
pub proof fn law_an_address_lies_in_its_network(a: Ip, bits: u32)
    ensures
        lies_in(a, prefix_net(a, bits)),
{
}

// ---------------------------------------------------------------------------
// This box's own networks
// ---------------------------------------------------------------------------
/// The network of an interface's address, where it has one.
pub open spec fn row_net(r: IfaceRowV) -> Option<Net> {
    match (r.addr, r.mask) {
        (Some(a), Some(m)) => match (ip_of(a), ip_of(m)) {
            (Some(x), Some(y)) => if (x is V6) == (y is V6) {
                Some(masked_net(x, y))
            } else {
                None
            },
            _ => None,
        },
        _ => None,
    }
}

/// The networks of some interfaces.
pub open spec fn row_nets(rows: Seq<IfaceRowV>) -> Seq<Net>
    decreases rows.len(),
{
    if rows.len() == 0 {
        Seq::empty()
    } else {
        let had = row_nets(rows.drop_last());
        match row_net(rows.last()) {
            Some(n) => had.push(n),
            None => had,
        }
    }
}

/// The networks of some interfaces.
pub fn nets_of(rows: &Vec<IfaceRow>) -> (r: Vec<Net>)
    ensures
        r@ == row_nets(iface_rows(rows@)),
{
    let ghost rv = iface_rows(rows@);
    let mut out: Vec<Net> = Vec::new();
    let mut i: usize = 0;
    while i < rows.len()
        invariant
            i <= rows@.len(),
            rv == iface_rows(rows@),
            out@ == row_nets(rv.take(i as int)),
        decreases rows@.len() - i,
    {
        let r = &rows[i];
        proof {
            assert(rv.take(i + 1).drop_last() =~= rv.take(i as int));
            assert(rv.take(i + 1).last() == r@);
        }
        if let (Some(a), Some(m)) = (&r.addr, &r.mask) {
            match (parse_ip(a.as_str()), parse_ip(m.as_str())) {
                (Some(Ip::V4(x)), Some(Ip::V4(y))) => out.push(Net::masked(Ip::V4(x), Ip::V4(y))),
                (Some(Ip::V6(x)), Some(Ip::V6(y))) => out.push(Net::masked(Ip::V6(x), Ip::V6(y))),
                _ => {},
            }
        }
        i += 1;
    }
    proof {
        assert(rv.take(rv.len() as int) =~= rv);
    }
    out
}

/// The networks this box has an interface on. An address inside one of these is
/// on a wire we are attached to.
///
/// Read fresh rather than kept: a bridge appears, a fabric link comes up, and a
/// list read at boot would be wrong for the life of the process.
pub fn local_nets() -> (r: Vec<Net>)
    ensures
        exists|rows: Seq<IfaceRowV>| r@ == #[trigger] row_nets(rows),
{
    let rows = interface_rows();
    nets_of(&rows)
}

/// Whether an address lies in one of some networks.
pub open spec fn in_any(a: Ip, nets: Seq<Net>) -> bool {
    exists|i: int| 0 <= i < nets.len() && lies_in(a, #[trigger] nets[i])
}

fn held_by(nets: &Vec<Net>, ip: Ip) -> (r: bool)
    ensures
        r == in_any(ip, nets@),
{
    let mut i: usize = 0;
    while i < nets.len()
        invariant
            i <= nets@.len(),
            forall|j: int| 0 <= j < i ==> !lies_in(ip, #[trigger] nets@[j]),
        decreases nets@.len() - i,
    {
        if nets[i].contains(ip) {
            return true;
        }
        i += 1;
    }
    false
}

/// Whether a text is an address in one of some networks.
pub open spec fn on_net(addr: Seq<char>, nets: Seq<Net>) -> bool {
    ip_of(addr) matches Some(ip) && in_any(ip, nets)
}

/// Whether a text is an address in one of some networks.
pub fn on_local_net(addr: &str, local: &Vec<Net>) -> (r: bool)
    ensures
        r == on_net(addr@, local@),
{
    match parse_ip(addr) {
        Some(ip) => held_by(local, ip),
        None => false,
    }
}

// ---------------------------------------------------------------------------
// The allowlist
// ---------------------------------------------------------------------------
/// The addresses this router will act on, whether as the source of an
/// announcement, a candidate derived from one, or the peer of a request.
#[derive(Debug)]
pub struct Allow {
    /// Any address on a network this box has an interface on.
    pub local: bool,
    pub nets: Vec<Net>,
    /// Entries that are neither, as literal text prefixes. `172.` names a range
    /// no single network does.
    pub prefixes: Vec<String>,
}

/// An `Allow` as a mathematical value.
pub struct AllowV {
    pub local: bool,
    pub nets: Seq<Net>,
    pub prefixes: Seq<Seq<char>>,
}

impl View for Allow {
    type V = AllowV;

    open spec fn view(&self) -> AllowV {
        AllowV { local: self.local, nets: self.nets@, prefixes: texts(self.prefixes@) }
    }
}

/// What some entries allow.
pub open spec fn allowed(es: Seq<Seq<char>>) -> AllowV
    decreases es.len(),
{
    if es.len() == 0 {
        AllowV { local: false, nets: Seq::empty(), prefixes: Seq::empty() }
    } else {
        let had = allowed(es.drop_last());
        let e = es.last();
        if lowered(e) == lowered("local"@) {
            AllowV { local: true, ..had }
        } else {
            match net_of(e) {
                Some(n) => AllowV { nets: had.nets.push(n), ..had },
                None => AllowV { prefixes: had.prefixes.push(e), ..had },
            }
        }
    }
}

/// Whether some prefix starts an address.
pub open spec fn any_prefix(addr: Seq<char>, prefixes: Seq<Seq<char>>) -> bool {
    exists|i: int| 0 <= i < prefixes.len() && has_prefix(addr, #[trigger] prefixes[i])
}

/// Whether an address may be acted on, by a box with these networks. A name
/// matches text prefixes and nothing else.
pub open spec fn permitted(a: AllowV, addr: Seq<char>, local: Seq<Net>) -> bool {
    any_prefix(addr, a.prefixes) || on_net(addr, a.nets) || (a.local && on_net(addr, local))
}

/// How the entries were read.
pub open spec fn allow_parts(a: AllowV) -> Seq<Seq<char>> {
    (if a.local {
        seq!["local"@]
    } else {
        Seq::empty()
    }) + a.nets.map_values(|n: Net| net_text(n)) + a.prefixes.map_values(
        |p: Seq<char>| "prefix:"@ + p,
    )
}

impl Allow {
    /// Comma-separated `local`, networks, bare addresses and text prefixes, in
    /// any mix.
    pub fn parse(s: &str) -> (r: Allow)
        ensures
            r@ == allowed(entries(split(s@, ','))),
    {
        let es = entries_of(s, ',');
        let ghost all = texts(es@);
        let mut allow = Allow { local: false, nets: Vec::new(), prefixes: Vec::new() };
        let mut i: usize = 0;
        proof {
            assert(allow@.prefixes =~= Seq::<Seq<char>>::empty());
        }
        while i < es.len()
            invariant
                i <= es@.len(),
                all == texts(es@),
                allow@ == allowed(all.take(i as int)),
            decreases es@.len() - i,
        {
            let e = es[i].as_str();
            proof {
                assert(all.take(i + 1).drop_last() =~= all.take(i as int));
                assert(all.take(i + 1).last() == e@);
            }
            if same_ignoring_case(e, "local") {
                allow.local = true;
            } else {
                match Net::parse(e) {
                    Ok(n) => allow.nets.push(n),
                    Err(_) => {
                        let ghost was = allow.prefixes@;
                        allow.prefixes.push(es[i].clone());
                        proof {
                            assert(texts(allow.prefixes@) =~= texts(was).push(e@));
                        }
                    },
                }
            }
            i += 1;
        }
        proof {
            assert(all.take(all.len() as int) =~= all);
        }
        allow
    }

    fn prefixed(&self, addr: &str) -> (r: bool)
        ensures
            r == any_prefix(addr@, self@.prefixes),
    {
        let mut i: usize = 0;
        while i < self.prefixes.len()
            invariant
                i <= self.prefixes@.len(),
                forall|j: int| 0 <= j < i ==> !has_prefix(addr@, #[trigger] self@.prefixes[j]),
            decreases self.prefixes@.len() - i,
        {
            proof {
                assert(self@.prefixes[i as int] == self.prefixes@[i as int]@);
            }
            if starts_with(addr, self.prefixes[i].as_str()) {
                return true;
            }
            i += 1;
        }
        false
    }

    /// Whether `addr` may be acted on, against a snapshot of this box's own
    /// networks.
    pub fn permits(&self, addr: &str, local: &Vec<Net>) -> (r: bool)
        ensures
            r == permitted(self@, addr@, local@),
    {
        if self.prefixed(addr) {
            return true;
        }
        match parse_ip(addr) {
            Some(ip) => held_by(&self.nets, ip) || (self.local && held_by(local, ip)),
            None => false,
        }
    }

    /// `permits` for a caller with no snapshot in hand. The interfaces are read
    /// only where `local` is configured.
    pub fn permits_now(&self, addr: &str) -> (r: bool)
        ensures
            exists|rows: Seq<IfaceRowV>| r == permitted(self@, addr@, #[trigger] row_nets(rows)),
            !self.local ==> r == permitted(self@, addr@, Seq::empty()),
    {
        if self.local {
            let local = local_nets();
            self.permits(addr, &local)
        } else {
            let none: Vec<Net> = Vec::new();
            proof {
                assert(none@ =~= row_nets(Seq::<IfaceRowV>::empty()));
            }
            self.permits(addr, &none)
        }
    }

    /// How the entries were read, for the log lines that name them. A typo lands
    /// in `prefix:`, where it matches nothing and says so.
    pub fn to_string(&self) -> (r: String)
        ensures
            r@ == joined(allow_parts(self@), ","@),
    {
        let mut parts: Vec<String> = Vec::new();
        if self.local {
            parts.push("local".to_string());
        }
        let ghost head = texts(parts@);
        let ghost nv = self@.nets.map_values(|n: Net| net_text(n));
        let ghost pv = self@.prefixes.map_values(|p: Seq<char>| "prefix:"@ + p);
        proof {
            assert(head =~= (if self.local {
                seq!["local"@]
            } else {
                Seq::empty()
            }));
            assert(head + nv.take(0) =~= head);
        }
        let mut i: usize = 0;
        while i < self.nets.len()
            invariant
                i <= self.nets@.len(),
                nv == self@.nets.map_values(|n: Net| net_text(n)),
                texts(parts@) == head + nv.take(i as int),
            decreases self.nets@.len() - i,
        {
            let ghost was = parts@;
            let t = self.nets[i].to_string();
            let ghost tv = t@;
            parts.push(t);
            proof {
                assert(texts(parts@) =~= texts(was).push(tv));
                assert(texts(parts@) =~= head + nv.take(i + 1));
            }
            i += 1;
        }
        proof {
            assert(nv.take(nv.len() as int) =~= nv);
            assert(head + nv + pv.take(0) =~= head + nv);
        }
        let mut i: usize = 0;
        while i < self.prefixes.len()
            invariant
                i <= self.prefixes@.len(),
                pv == self@.prefixes.map_values(|p: Seq<char>| "prefix:"@ + p),
                texts(parts@) == head + nv + pv.take(i as int),
            decreases self.prefixes@.len() - i,
        {
            let ghost was = parts@;
            let mut t = "prefix:".to_string();
            t.append(self.prefixes[i].as_str());
            let ghost tv = t@;
            parts.push(t);
            proof {
                assert(texts(parts@) =~= texts(was).push(tv));
                assert(tv == pv[i as int]);
                assert(texts(parts@) =~= head + nv + pv.take(i + 1));
            }
            i += 1;
        }
        proof {
            assert(pv.take(pv.len() as int) =~= pv);
        }
        join(&parts, ",")
    }
}

/// Without `local` the interface list decides nothing.
pub proof fn law_local_is_consulted_only_when_configured(
    a: AllowV,
    addr: Seq<char>,
    one: Seq<Net>,
    other: Seq<Net>,
)
    requires
        !a.local,
    ensures
        permitted(a, addr, one) == permitted(a, addr, other),
{
}

/// A text that is no address is permitted by a text prefix or not at all.
pub proof fn law_a_name_matches_prefixes_only(a: AllowV, addr: Seq<char>, local: Seq<Net>)
    requires
        ip_of(addr) is None,
    ensures
        permitted(a, addr, local) == any_prefix(addr, a.prefixes),
{
}

} // verus!
