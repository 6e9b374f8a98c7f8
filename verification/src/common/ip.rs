//! IP addresses as text and as numbers.

use vstd::prelude::*;
use vstd::string::*;

use crate::common::text::{
    chars_of, dec, decimal, digits, join, joined, number, parse_digits, split, split_on, texts,
};

verus! {

/// An address of either family.
#[derive(Clone, Copy, Debug, PartialEq, Eq, Structural)]
pub enum Ip {
    V4(u32),
    V6(u128),
}

// ---------------------------------------------------------------------------
// IPv4
// ---------------------------------------------------------------------------
/// The number of one part of an IPv4 address: up to three digits, without a
/// leading zero, at most 255.
pub open spec fn octet(p: Seq<char>) -> Option<nat> {
    if digits(p) && p.len() <= 3 && (p.len() == 1 || p[0] != '0') && number(p) <= 255 {
        Some(number(p))
    } else {
        None
    }
}

/// The IPv4 address a text writes: four parts with dots between them.
pub open spec fn v4_of(s: Seq<char>) -> Option<u32> {
    let p = split(s, '.');
    if p.len() == 4 && octet(p[0]) is Some && octet(p[1]) is Some && octet(p[2]) is Some && octet(
        p[3],
    ) is Some {
        Some(
            (octet(p[0])->Some_0 * 16777216 + octet(p[1])->Some_0 * 65536 + octet(p[2])->Some_0
                * 256 + octet(p[3])->Some_0) as u32,
        )
    } else {
        None
    }
}

fn read_octet(p: &str) -> (r: Option<u64>)
    ensures
        match r {
            Some(n) => octet(p@) == Some(n as nat) && n <= 255,
            None => octet(p@) is None,
        },
{
    let n: usize = p.unicode_len();
    if n == 0 || n > 3 {
        return None;
    }
    if n > 1 && p.get_char(0) == '0' {
        return None;
    }
    parse_digits(p, 255)
}

/// The IPv4 address a text writes.
pub fn parse_v4(s: &str) -> (r: Option<u32>)
    ensures
        r == v4_of(s@),
{
    let p = split_on(s, '.');
    proof {
        assert(texts(p@).len() == p@.len());
    }
    if p.len() != 4 {
        return None;
    }
    proof {
        assert(texts(p@)[0] == p@[0]@);
        assert(texts(p@)[1] == p@[1]@);
        assert(texts(p@)[2] == p@[2]@);
        assert(texts(p@)[3] == p@[3]@);
    }
    match (
        read_octet(p[0].as_str()),
        read_octet(p[1].as_str()),
        read_octet(p[2].as_str()),
        read_octet(p[3].as_str()),
    ) {
        (Some(a), Some(b), Some(c), Some(d)) => {
            Some((a * 16777216 + b * 65536 + c * 256 + d) as u32)
        },
        _ => None,
    }
}

/// An IPv4 address as text.
pub open spec fn v4_text(a: u32) -> Seq<char> {
    decimal((a / 16777216) as nat) + "."@ + decimal((a / 65536 % 256) as nat) + "."@ + decimal(
        (a / 256 % 256) as nat,
    ) + "."@ + decimal((a % 256) as nat)
}

/// An IPv4 address as text.
pub fn show_v4(a: u32) -> (r: String)
    ensures
        r@ == v4_text(a),
{
    let mut s = dec((a / 16777216) as u64);
    s.append(".");
    s.append(dec((a / 65536 % 256) as u64).as_str());
    s.append(".");
    s.append(dec((a / 256 % 256) as u64).as_str());
    s.append(".");
    s.append(dec((a % 256) as u64).as_str());
    s
}

// ---------------------------------------------------------------------------
// IPv6
// ---------------------------------------------------------------------------
/// The value of a hexadecimal digit.
pub open spec fn hex_value(c: char) -> Option<nat> {
    if '0' <= c <= '9' {
        Some((c as u32 - '0' as u32) as nat)
    } else if 'a' <= c <= 'f' {
        Some((c as u32 - 'a' as u32 + 10) as nat)
    } else if 'A' <= c <= 'F' {
        Some((c as u32 - 'A' as u32 + 10) as nat)
    } else {
        None
    }
}

/// The number that hexadecimal digits write.
pub open spec fn hex_number(p: Seq<char>) -> Option<nat>
    decreases p.len(),
{
    if p.len() == 0 {
        Some(0)
    } else {
        match (hex_number(p.drop_last()), hex_value(p.last())) {
            (Some(a), Some(b)) => Some(a * 16 + b),
            _ => None,
        }
    }
}

/// The number of one group of an IPv6 address: one to four hexadecimal digits.
pub open spec fn group_of(p: Seq<char>) -> Option<nat> {
    if 1 <= p.len() <= 4 {
        hex_number(p)
    } else {
        None
    }
}

/// The groups that some parts write, one each.
pub open spec fn groups_of(parts: Seq<Seq<char>>) -> Option<Seq<nat>>
    decreases parts.len(),
{
    if parts.len() == 0 {
        Some(Seq::empty())
    } else {
        match (groups_of(parts.drop_last()), group_of(parts.last())) {
            (Some(had), Some(g)) => Some(had.push(g)),
            _ => None,
        }
    }
}

/// The groups that some parts write, where the last may be an IPv4 address
/// that stands for two.
pub open spec fn tail_groups(parts: Seq<Seq<char>>) -> Option<Seq<nat>> {
    if parts.len() > 0 && v4_of(parts.last()) is Some {
        let a = v4_of(parts.last())->Some_0;
        match groups_of(parts.drop_last()) {
            Some(had) => Some(had.push((a / 65536) as nat).push((a % 65536) as nat)),
            None => None,
        }
    } else {
        groups_of(parts)
    }
}

/// The parts of a text between colons; none of an empty text.
pub open spec fn colon_parts(s: Seq<char>) -> Seq<Seq<char>> {
    if s.len() == 0 {
        Seq::empty()
    } else {
        split(s, ':')
    }
}

/// Where two colons first stand together, or the length.
pub open spec fn gap_at(s: Seq<char>) -> int
    decreases s.len(),
{
    if s.len() < 2 {
        s.len() as int
    } else if s[0] == ':' && s[1] == ':' {
        0
    } else {
        1 + gap_at(s.drop_first())
    }
}

/// The number that groups of sixteen bits make.
pub open spec fn from_groups(g: Seq<nat>) -> nat
    decreases g.len(),
{
    if g.len() == 0 {
        0
    } else {
        from_groups(g.drop_last()) * 65536 + g.last()
    }
}

/// So many groups of zero.
pub open spec fn zero_groups(n: nat) -> Seq<nat> {
    Seq::new(n, |i: int| 0nat)
}

/// The groups of the IPv6 address a text writes: eight with colons between
/// them, or fewer around two colons that stand for at least one of zero.
pub open spec fn v6_groups(s: Seq<char>) -> Option<Seq<nat>> {
    let k = gap_at(s);
    if k >= s.len() {
        match tail_groups(colon_parts(s)) {
            Some(g) => if g.len() == 8 {
                Some(g)
            } else {
                None
            },
            None => None,
        }
    } else {
        match (groups_of(colon_parts(s.take(k))), tail_groups(colon_parts(s.skip(k + 2)))) {
            (Some(a), Some(b)) => if a.len() + b.len() <= 7 {
                Some(a + zero_groups((8 - a.len() - b.len()) as nat) + b)
            } else {
                None
            },
            _ => None,
        }
    }
}

/// The IPv6 address a text writes.
pub open spec fn v6_of(s: Seq<char>) -> Option<u128> {
    match v6_groups(s) {
        Some(g) => Some(from_groups(g) as u128),
        None => None,
    }
}

/// The address a text writes.
pub open spec fn ip_of(s: Seq<char>) -> Option<Ip> {
    match v4_of(s) {
        Some(a) => Some(Ip::V4(a)),
        None => match v6_of(s) {
            Some(a) => Some(Ip::V6(a)),
            None => None,
        },
    }
}

fn read_hex(c: char) -> (r: Option<u32>)
    ensures
        match r {
            Some(n) => hex_value(c) == Some(n as nat) && n < 16,
            None => hex_value(c) is None,
        },
{
    if '0' <= c && c <= '9' {
        Some(c as u32 - '0' as u32)
    } else if 'a' <= c && c <= 'f' {
        Some(c as u32 - 'a' as u32 + 10)
    } else if 'A' <= c && c <= 'F' {
        Some(c as u32 - 'A' as u32 + 10)
    } else {
        None
    }
}

proof fn lemma_hex_stuck(p: Seq<char>, i: int)
    requires
        0 <= i <= p.len(),
        hex_number(p.take(i)) is None,
    ensures
        hex_number(p) is None,
    decreases p.len() - i,
{
    if i < p.len() {
        assert(p.take(i + 1).drop_last() =~= p.take(i));
        lemma_hex_stuck(p, i + 1);
    } else {
        assert(p.take(i) =~= p);
    }
}

fn read_group(p: &str) -> (r: Option<u32>)
    ensures
        match r {
            Some(n) => group_of(p@) == Some(n as nat) && n <= 0xffff,
            None => group_of(p@) is None,
        },
{
    let cs = chars_of(p);
    if cs.len() == 0 || cs.len() > 4 {
        return None;
    }
    let mut n: u32 = 0;
    let mut i: usize = 0;
    let ghost mut bound: nat = 1;
    while i < cs.len()
        invariant
            i <= cs@.len() <= 4,
            cs@.len() > 0,
            cs@ == p@,
            hex_number(p@.take(i as int)) == Some(n as nat),
            bound == (if i == 0 {
                1
            } else if i == 1 {
                16
            } else if i == 2 {
                256
            } else if i == 3 {
                4096
            } else {
                65536int
            }),
            n < bound,
        decreases cs@.len() - i,
    {
        proof {
            assert(p@.take(i + 1).drop_last() =~= p@.take(i as int));
            assert(p@.take(i + 1).last() == cs@[i as int]);
        }
        match read_hex(cs[i]) {
            Some(d) => {
                n = n * 16 + d;
                proof {
                    bound = bound * 16;
                }
            },
            None => {
                proof {
                    lemma_hex_stuck(p@, i + 1);
                }
                return None;
            },
        }
        i += 1;
    }
    proof {
        assert(p@.take(p@.len() as int) =~= p@);
    }
    Some(n)
}

/// Groups as natural numbers.
pub open spec fn nats(v: Seq<u32>) -> Seq<nat> {
    Seq::new(v.len(), |i: int| v[i] as nat)
}

proof fn lemma_groups_stuck(p: Seq<Seq<char>>, i: int)
    requires
        0 <= i <= p.len(),
        groups_of(p.take(i)) is None,
    ensures
        groups_of(p) is None,
    decreases p.len() - i,
{
    if i < p.len() {
        assert(p.take(i + 1).drop_last() =~= p.take(i));
        lemma_groups_stuck(p, i + 1);
    } else {
        assert(p.take(i) =~= p);
    }
}

fn read_groups(parts: &Vec<String>, n: usize) -> (r: Option<Vec<u32>>)
    requires
        n <= parts@.len(),
    ensures
        match r {
            Some(v) => groups_of(texts(parts@).take(n as int)) == Some(nats(v@)) && v@.len() == n
                && forall|i: int| 0 <= i < v@.len() ==> (#[trigger] v@[i]) <= 0xffff,
            None => groups_of(texts(parts@).take(n as int)) is None,
        },
{
    let ghost all = texts(parts@).take(n as int);
    let mut out: Vec<u32> = Vec::new();
    let mut i: usize = 0;
    proof {
        assert(nats(out@) =~= Seq::<nat>::empty());
    }
    while i < n
        invariant
            i <= n <= parts@.len(),
            all == texts(parts@).take(n as int),
            groups_of(all.take(i as int)) == Some(nats(out@)),
            out@.len() == i,
            forall|i: int| 0 <= i < out@.len() ==> (#[trigger] out@[i]) <= 0xffff,
        decreases n - i,
    {
        proof {
            assert(all.take(i + 1).drop_last() =~= all.take(i as int));
            assert(all.take(i + 1).last() == parts@[i as int]@);
        }
        match read_group(parts[i].as_str()) {
            Some(g) => {
                let ghost was = out@;
                out.push(g);
                proof {
                    assert(nats(out@) =~= nats(was).push(g as nat));
                }
            },
            None => {
                proof {
                    lemma_groups_stuck(all, i + 1);
                }
                return None;
            },
        }
        i += 1;
    }
    proof {
        assert(all.take(all.len() as int) =~= all);
    }
    Some(out)
}

fn read_tail(parts: &Vec<String>) -> (r: Option<Vec<u32>>)
    ensures
        match r {
            Some(v) => tail_groups(texts(parts@)) == Some(nats(v@)) && forall|i: int|
                0 <= i < v@.len() ==> (#[trigger] v@[i]) <= 0xffff,
            None => tail_groups(texts(parts@)) is None,
        },
{
    let ghost all = texts(parts@);
    let n: usize = parts.len();
    if n > 0 {
        proof {
            assert(all.last() == parts@[n - 1]@);
        }
        if let Some(a) = parse_v4(parts[n - 1].as_str()) {
            proof {
                assert(all.take(n - 1) =~= all.drop_last());
            }
            return match read_groups(parts, n - 1) {
                Some(v) => {
                    let mut v = v;
                    let ghost was = v@;
                    v.push(a / 65536);
                    v.push(a % 65536);
                    proof {
                        assert(nats(v@) =~= nats(was).push((a / 65536) as nat).push(
                            (a % 65536) as nat,
                        ));
                        assert forall|i: int| 0 <= i < v@.len() implies (#[trigger] v@[i])
                            <= 0xffff by {
                            if i < was.len() {
                                assert(v@[i] == was[i]);
                            }
                        }
                    }
                    Some(v)
                },
                None => None,
            };
        }
    }
    proof {
        assert(all.take(n as int) =~= all);
    }
    read_groups(parts, n)
}

fn parts_of(s: &str) -> (r: Vec<String>)
    ensures
        texts(r@) == colon_parts(s@),
{
    if s.is_empty() {
        let none: Vec<String> = Vec::new();
        proof {
            assert(texts(none@) =~= Seq::<Seq<char>>::empty());
        }
        none
    } else {
        split_on(s, ':')
    }
}

fn find_gap(s: &str) -> (r: usize)
    ensures
        r == gap_at(s@),
        r <= s@.len(),
        r < s@.len() ==> r + 2 <= s@.len(),
{
    let cs = chars_of(s);
    let mut i: usize = 0;
    proof {
        assert(s@.skip(0) =~= s@);
    }
    loop
        invariant
            i <= cs@.len(),
            cs@ == s@,
            gap_at(s@) == i + gap_at(s@.skip(i as int)),
        decreases cs@.len() - i,
    {
        if cs.len() - i < 2 {
            return cs.len();
        }
        proof {
            let t = s@.skip(i as int);
            assert(t[0] == cs@[i as int] && t[1] == cs@[i + 1]);
            assert(t.drop_first() =~= s@.skip(i + 1));
        }
        if cs[i] == ':' && cs[i + 1] == ':' {
            return i;
        }
        i += 1;
    }
}

proof fn lemma_from_groups_bound(g: Seq<nat>)
    requires
        g.len() <= 8,
        forall|i: int| 0 <= i < g.len() ==> (#[trigger] g[i]) <= 0xffff,
    ensures
        g.len() == 0 ==> from_groups(g) == 0,
        g.len() == 1 ==> from_groups(g) < 0x1_0000,
        g.len() == 2 ==> from_groups(g) < 0x1_0000_0000,
        g.len() == 3 ==> from_groups(g) < 0x1_0000_0000_0000,
        g.len() == 4 ==> from_groups(g) < 0x1_0000_0000_0000_0000,
        g.len() == 5 ==> from_groups(g) < 0x1_0000_0000_0000_0000_0000,
        g.len() == 6 ==> from_groups(g) < 0x1_0000_0000_0000_0000_0000_0000,
        g.len() == 7 ==> from_groups(g) < 0x1_0000_0000_0000_0000_0000_0000_0000,
        g.len() == 8 ==> from_groups(g) <= u128::MAX,
    decreases g.len(),
{
    if g.len() > 0 {
        let t = g.drop_last();
        assert forall|i: int| 0 <= i < t.len() implies (#[trigger] t[i]) <= 0xffff by {
            assert(t[i] == g[i]);
        }
        lemma_from_groups_bound(t);
        assert(g[g.len() - 1] <= 0xffff);
    }
}

fn number_of(g: &Vec<u32>) -> (r: u128)
    requires
        g@.len() == 8,
        forall|i: int| 0 <= i < g@.len() ==> (#[trigger] g@[i]) <= 0xffff,
    ensures
        r == from_groups(nats(g@)),
{
    let ghost all = nats(g@);
    let mut n: u128 = 0;
    let mut i: usize = 0;
    while i < 8
        invariant
            i <= 8,
            g@.len() == 8,
            all == nats(g@),
            forall|i: int| 0 <= i < g@.len() ==> (#[trigger] g@[i]) <= 0xffff,
            n == from_groups(all.take(i as int)),
        decreases 8 - i,
    {
        proof {
            let t = all.take(i + 1);
            assert(t.drop_last() =~= all.take(i as int));
            assert(t.last() == g@[i as int] as nat);
            assert forall|j: int| 0 <= j < t.len() implies (#[trigger] t[j]) <= 0xffff by {
                assert(g@[j] <= 0xffff);
            }
            lemma_from_groups_bound(t);
        }
        n = n * 65536 + g[i] as u128;
        i += 1;
    }
    proof {
        assert(all.take(8) =~= all);
    }
    n
}

/// The IPv6 address a text writes.
pub fn parse_v6(s: &str) -> (r: Option<u128>)
    ensures
        r == v6_of(s@),
{
    let n: usize = s.unicode_len();
    let k: usize = find_gap(s);
    if k >= n {
        let parts = parts_of(s);
        return match read_tail(&parts) {
            Some(g) => {
                proof {
                    assert(nats(g@).len() == g@.len());
                }
                if g.len() == 8 {
                    proof {
                        let ng = nats(g@);
                        assert forall|j: int| 0 <= j < ng.len() implies (#[trigger] ng[j])
                            <= 0xffff by {
                            assert(g@[j] <= 0xffff);
                        }
                        lemma_from_groups_bound(ng);
                    }
                    Some(number_of(&g))
                } else {
                    None
                }
            },
            None => None,
        };
    }
    let head = s.substring_char(0, k);
    let tail = s.substring_char(k + 2, n);
    proof {
        assert(head@ =~= s@.take(k as int));
        assert(tail@ =~= s@.skip(k + 2));
    }
    let hp = parts_of(head);
    let tp = parts_of(tail);
    proof {
        assert(texts(hp@).take(hp@.len() as int) =~= texts(hp@));
    }
    let a = match read_groups(&hp, hp.len()) {
        Some(v) => v,
        None => return None,
    };
    let b = match read_tail(&tp) {
        Some(v) => v,
        None => return None,
    };
    proof {
        assert(nats(a@).len() == a@.len());
        assert(nats(b@).len() == b@.len());
    }
    if a.len() > 7 || b.len() > 7 - a.len() {
        return None;
    }
    let mut g: Vec<u32> = Vec::new();
    let mut i: usize = 0;
    while i < a.len()
        invariant
            i <= a@.len(),
            g@ == a@.take(i as int),
        decreases a@.len() - i,
    {
        g.push(a[i]);
        proof {
            assert(g@ =~= a@.take(i + 1));
        }
        i += 1;
    }
    let zeros: usize = 8 - a.len() - b.len();
    let mut i: usize = 0;
    while i < zeros
        invariant
            i <= zeros,
            g@ == a@ + Seq::new(i as nat, |j: int| 0u32),
        decreases zeros - i,
    {
        g.push(0);
        proof {
            assert(g@ =~= a@ + Seq::new((i + 1) as nat, |j: int| 0u32));
        }
        i += 1;
    }
    let ghost start = g@;
    let mut i: usize = 0;
    while i < b.len()
        invariant
            i <= b@.len(),
            g@ == start + b@.take(i as int),
        decreases b@.len() - i,
    {
        g.push(b[i]);
        proof {
            assert(g@ =~= start + b@.take(i + 1));
        }
        i += 1;
    }
    proof {
        let want = nats(a@) + zero_groups(zeros as nat) + nats(b@);
        assert(nats(g@) =~= want);
        assert forall|j: int| 0 <= j < g@.len() implies (#[trigger] g@[j]) <= 0xffff by {
            if j < a@.len() {
                assert(g@[j] == a@[j]);
            } else if j >= a@.len() + zeros {
                assert(g@[j] == b@[j - a@.len() - zeros]);
            }
        }
        let ng = nats(g@);
        assert forall|j: int| 0 <= j < ng.len() implies (#[trigger] ng[j]) <= 0xffff by {
            assert(g@[j] <= 0xffff);
        }
        lemma_from_groups_bound(ng);
    }
    Some(number_of(&g))
}

/// The address a text writes.
pub fn parse_ip(s: &str) -> (r: Option<Ip>)
    ensures
        r == ip_of(s@),
{
    match parse_v4(s) {
        Some(a) => Some(Ip::V4(a)),
        None => match parse_v6(s) {
            Some(a) => Some(Ip::V6(a)),
            None => None,
        },
    }
}

// ---------------------------------------------------------------------------
// IPv6 as text
// ---------------------------------------------------------------------------
/// Group `i` of an address, from the left.
pub open spec fn group_at(a: u128, i: int) -> u32 {
    let g = if i <= 0 {
        a / 0x1_0000_0000_0000_0000_0000_0000_0000
    } else if i == 1 {
        a / 0x1_0000_0000_0000_0000_0000_0000
    } else if i == 2 {
        a / 0x1_0000_0000_0000_0000_0000
    } else if i == 3 {
        a / 0x1_0000_0000_0000_0000
    } else if i == 4 {
        a / 0x1_0000_0000_0000
    } else if i == 5 {
        a / 0x1_0000_0000
    } else if i == 6 {
        a / 0x1_0000
    } else {
        a
    };
    (g % 0x1_0000) as u32
}

/// The groups of an address, from the left.
pub open spec fn to_groups(a: u128) -> Seq<u32> {
    Seq::new(8, |i: int| group_at(a, i))
}

/// How many groups from `i` on are zero.
pub open spec fn zeros_from(g: Seq<u32>, i: int) -> nat
    decreases g.len() - i,
{
    if 0 <= i < g.len() && g[i] == 0 {
        1 + zeros_from(g, i + 1)
    } else {
        0
    }
}

/// Where the longest run of zeros starts among the first `n` places, and how
/// long it is; of two equally long ones the first.
pub open spec fn longest_zeros(g: Seq<u32>, n: nat) -> (nat, nat)
    decreases n,
{
    if n == 0 {
        (0, 0)
    } else {
        let had = longest_zeros(g, (n - 1) as nat);
        if zeros_from(g, n - 1) > had.1 {
            ((n - 1) as nat, zeros_from(g, n - 1))
        } else {
            had
        }
    }
}

/// The hexadecimal digit that writes `n`, for `n` under sixteen.
pub open spec fn hex_char(n: nat) -> char {
    if n < 10 {
        ((48 + n) as u8) as char
    } else {
        ((87 + n) as u8) as char
    }
}

/// `n` in hexadecimal, without leading zeros.
pub open spec fn hex(n: nat) -> Seq<char>
    decreases n,
{
    if n < 16 {
        seq![hex_char(n)]
    } else {
        hex(n / 16).push(hex_char(n % 16))
    }
}

/// Groups as text, with colons between them.
pub open spec fn hexes(g: Seq<u32>) -> Seq<char> {
    joined(Seq::new(g.len(), |i: int| hex(g[i] as nat)), ":"@)
}

/// An IPv6 address as text. The longest run of two or more groups of zero is
/// left out; an IPv4 address mapped into IPv6 keeps its own form.
pub open spec fn v6_text(a: u128) -> Seq<char> {
    let g = to_groups(a);
    let z = longest_zeros(g, 8);
    if a / 0x1_0000_0000 == 0xffff {
        "::ffff:"@ + v4_text((a % 0x1_0000_0000) as u32)
    } else if z.1 > 1 {
        hexes(g.take(z.0 as int)) + "::"@ + hexes(g.skip((z.0 + z.1) as int))
    } else {
        hexes(g)
    }
}

/// An address as text.
pub open spec fn ip_text(a: Ip) -> Seq<char> {
    match a {
        Ip::V4(a) => v4_text(a),
        Ip::V6(a) => v6_text(a),
    }
}

fn show_hex(n: u32) -> (r: String)
    ensures
        r@ == hex(n as nat),
    decreases n,
{
    let d: u32 = n % 16;
    let c = if d < 10 {
        ((48 + d) as u8) as char
    } else {
        ((87 + d) as u8) as char
    };
    if n < 16 {
        let mut s = String::new();
        s.push(c);
        proof {
            assert(s@ =~= hex(n as nat));
        }
        s
    } else {
        let mut s = show_hex(n / 16);
        s.push(c);
        s
    }
}

fn show_groups(g: &Vec<u32>, from: usize, to: usize) -> (r: String)
    requires
        from <= to <= g@.len(),
    ensures
        r@ == hexes(g@.subrange(from as int, to as int)),
{
    let ghost part = g@.subrange(from as int, to as int);
    let mut out: Vec<String> = Vec::new();
    let mut i: usize = from;
    while i < to
        invariant
            from <= i <= to <= g@.len(),
            out@.len() == i - from,
            forall|j: int| 0 <= j < out@.len() ==> (#[trigger] out@[j])@ == hex(g@[from + j] as nat),
        decreases to - i,
    {
        out.push(show_hex(g[i]));
        i += 1;
    }
    proof {
        assert(texts(out@) =~= Seq::new(part.len(), |i: int| hex(part[i] as nat)));
    }
    join(&out, ":")
}

fn count_zeros(g: &Vec<u32>, from: usize) -> (r: usize)
    requires
        from <= g@.len(),
    ensures
        r == zeros_from(g@, from as int),
        from + r <= g@.len(),
    decreases g@.len() - from,
{
    if from < g.len() && g[from] == 0 {
        1 + count_zeros(g, from + 1)
    } else {
        0
    }
}

/// An IPv6 address as text.
pub fn show_v6(a: u128) -> (r: String)
    ensures
        r@ == v6_text(a),
{
    if a / 0x1_0000_0000 == 0xffff {
        let mut s = "::ffff:".to_string();
        s.append(show_v4((a % 0x1_0000_0000) as u32).as_str());
        return s;
    }
    let mut g: Vec<u32> = Vec::new();
    g.push((a / 0x1_0000_0000_0000_0000_0000_0000_0000 % 0x1_0000) as u32);
    g.push((a / 0x1_0000_0000_0000_0000_0000_0000 % 0x1_0000) as u32);
    g.push((a / 0x1_0000_0000_0000_0000_0000 % 0x1_0000) as u32);
    g.push((a / 0x1_0000_0000_0000_0000 % 0x1_0000) as u32);
    g.push((a / 0x1_0000_0000_0000 % 0x1_0000) as u32);
    g.push((a / 0x1_0000_0000 % 0x1_0000) as u32);
    g.push((a / 0x1_0000 % 0x1_0000) as u32);
    g.push((a % 0x1_0000) as u32);
    proof {
        assert(g@ =~= to_groups(a));
    }
    let mut start: usize = 0;
    let mut len: usize = 0;
    let mut i: usize = 0;
    while i < 8
        invariant
            i <= 8,
            g@.len() == 8,
            (start as nat, len as nat) == longest_zeros(g@, i as nat),
            start + len <= 8,
        decreases 8 - i,
    {
        let n: usize = count_zeros(&g, i);
        if n > len {
            start = i;
            len = n;
        }
        i += 1;
    }
    if len > 1 {
        let mut s = show_groups(&g, 0, start);
        s.append("::");
        s.append(show_groups(&g, start + len, 8).as_str());
        proof {
            assert(g@.subrange(0, start as int) =~= g@.take(start as int));
            assert(g@.subrange(start + len, 8) =~= g@.skip(start + len));
        }
        s
    } else {
        proof {
            assert(g@.subrange(0, 8) =~= g@);
        }
        show_groups(&g, 0, 8)
    }
}

/// An address as text.
pub fn show_ip(a: Ip) -> (r: String)
    ensures
        r@ == ip_text(a),
{
    match a {
        Ip::V4(a) => show_v4(a),
        Ip::V6(a) => show_v6(a),
    }
}

} // verus!
