//! What reading and cutting texts gives back.

use vstd::arithmetic::div_mod::lemma_div_denominator;
use vstd::prelude::*;

use crate::common::ip::{
    from_groups, hex, hex_number, hex_value, hexes, longest_zeros, nats, octet, to_groups, v4_of,
    v4_text, v6_text, zeros_from,
};
use crate::common::logfmt::three_digits;
use crate::common::quote::json_char;
use crate::common::text::{
    decimal, digit, digit_char, first_at, has_prefix, hex_digit, joined, last_at,
    lemma_decimal_reads_back, lemma_first_at, lowered, number, split, split_first, split_last, strip_back, strip_front,
    sub_at, trim_back, trim_front, trimmed, unsigned, white,
};

verus! {

// ---------------------------------------------------------------------------
// Cutting
// ---------------------------------------------------------------------------
/// A text is cut at its first `c`: the two sides and the `c` give it back, the first side
/// holds none, and only a text with none is not cut.
pub proof fn law_a_text_is_cut_at_its_first(s: Seq<char>, c: char)
    ensures
        split_first(s, c) is Some <==> s.contains(c),
        split_first(s, c) matches Some((a, b)) ==> s == a.push(c) + b && !a.contains(c),
{
    lemma_first_at(s, c);
    let i = first_at(s, c);
    if i < s.len() {
        assert(s[i] == c);
        assert(s =~= s.take(i).push(c) + s.skip(i + 1));
    }
}

proof fn lemma_last_at(s: Seq<char>, c: char)
    ensures
        -1 <= last_at(s, c) < s.len(),
        last_at(s, c) >= 0 ==> s[last_at(s, c)] == c,
        forall|j: int| last_at(s, c) < j < s.len() ==> s[j] != c,
    decreases s.len(),
{
    if s.len() > 0 && s.last() != c {
        let t = s.drop_last();
        lemma_last_at(t, c);
        assert forall|j: int| last_at(s, c) < j < s.len() implies s[j] != c by {
            if j < t.len() {
                assert(t[j] == s[j]);
            }
        }
    }
}

/// A text is cut at its last `c`: the two sides and the `c` give it back, the second side
/// holds none, and only a text with none is not cut.
pub proof fn law_a_text_is_cut_at_its_last(s: Seq<char>, c: char)
    ensures
        split_last(s, c) is Some <==> s.contains(c),
        split_last(s, c) matches Some((a, b)) ==> s == a.push(c) + b && !b.contains(c),
{
    lemma_last_at(s, c);
    let i = last_at(s, c);
    if i >= 0 {
        assert(s[i] == c);
        assert(s =~= s.take(i).push(c) + s.skip(i + 1));
    }
}

proof fn lemma_joined_front(a: Seq<char>, rest: Seq<Seq<char>>, sep: Seq<char>)
    requires
        rest.len() > 0,
    ensures
        joined(seq![a] + rest, sep) == a + sep + joined(rest, sep),
    decreases rest.len(),
{
    let all = seq![a] + rest;
    assert(all.last() == rest.last());
    if rest.len() == 1 {
        assert(all.drop_last() =~= seq![a]);
        assert(joined(all.drop_last(), sep) == a);
    } else {
        assert(all.drop_last() =~= seq![a] + rest.drop_last());
        lemma_joined_front(a, rest.drop_last(), sep);
        assert(joined(all, sep) =~= a + sep + joined(rest, sep));
    }
}

/// The pieces of a text between its `c`s hold none, and joined with `c` they give the text
/// back.
pub proof fn law_the_pieces_give_the_text_back(s: Seq<char>, c: char)
    ensures
        split(s, c).len() > 0,
        joined(split(s, c), seq![c]) == s,
        forall|i: int| 0 <= i < split(s, c).len() ==> !(#[trigger] split(s, c)[i]).contains(c),
    decreases s.len(),
{
    lemma_first_at(s, c);
    let i = first_at(s, c);
    if i < s.len() {
        let rest = s.skip(i + 1);
        law_the_pieces_give_the_text_back(rest, c);
        lemma_joined_front(s.take(i), split(rest, c), seq![c]);
        assert(s =~= s.take(i) + seq![c] + rest);
        assert forall|k: int| 0 <= k < split(s, c).len() implies !(
        #[trigger] split(s, c)[k]).contains(c) by {
            if k > 0 {
                assert(split(s, c)[k] == split(rest, c)[k - 1]);
            }
        }
    }
}

/// Whether a text is blank.
pub open spec fn blank(s: Seq<char>) -> bool {
    forall|i: int| 0 <= i < s.len() ==> white(#[trigger] s[i])
}

proof fn lemma_trim_front(s: Seq<char>)
    ensures
        exists|k: int|
            0 <= k <= s.len() && trim_front(s) == #[trigger] s.skip(k) && blank(s.take(k)),
        trim_front(s).len() > 0 ==> !white(trim_front(s)[0]),
    decreases s.len(),
{
    if s.len() > 0 && white(s[0]) {
        let t = s.drop_first();
        lemma_trim_front(t);
        let k = choose|k: int|
            0 <= k <= t.len() && trim_front(t) == #[trigger] t.skip(k) && blank(t.take(k));
        assert(t.skip(k) =~= s.skip(k + 1));
        assert forall|i: int| 0 <= i < s.take(k + 1).len() implies white(
            #[trigger] s.take(k + 1)[i],
        ) by {
            if i > 0 {
                assert(t.take(k)[i - 1] == s.take(k + 1)[i]);
            }
        }
        assert(blank(s.take(k + 1)));
    } else {
        assert(s.skip(0) =~= s);
        assert(blank(s.take(0)));
    }
}

proof fn lemma_trim_back(s: Seq<char>)
    ensures
        exists|k: int|
            0 <= k <= s.len() && trim_back(s) == #[trigger] s.take(k) && blank(s.skip(k)),
        trim_back(s).len() > 0 ==> !white(trim_back(s).last()),
    decreases s.len(),
{
    if s.len() > 0 && white(s.last()) {
        let t = s.drop_last();
        lemma_trim_back(t);
        let k = choose|k: int|
            0 <= k <= t.len() && trim_back(t) == #[trigger] t.take(k) && blank(t.skip(k));
        assert(t.take(k) =~= s.take(k));
        assert forall|i: int| 0 <= i < s.skip(k).len() implies white(#[trigger] s.skip(k)[i]) by {
            if i < t.skip(k).len() {
                assert(t.skip(k)[i] == s.skip(k)[i]);
            }
        }
        assert(blank(s.skip(k)));
    } else {
        assert(s.take(s.len() as int) =~= s);
        assert(blank(s.skip(s.len() as int)));
    }
}

/// A text is trimmed of the blanks round it and of nothing else.
pub proof fn law_only_blanks_are_trimmed(s: Seq<char>)
    ensures
        exists|i: int, j: int|
            0 <= i <= j <= s.len() && trimmed(s) == #[trigger] s.subrange(i, j) && blank(s.take(i))
                && blank(s.skip(j)),
        trimmed(s).len() > 0 ==> !white(trimmed(s)[0]) && !white(trimmed(s).last()),
{
    lemma_trim_front(s);
    let f = trim_front(s);
    lemma_trim_back(f);
    let i = choose|k: int| 0 <= k <= s.len() && f == #[trigger] s.skip(k) && blank(s.take(k));
    let n = choose|k: int|
        0 <= k <= f.len() && trim_back(f) == #[trigger] f.take(k) && blank(f.skip(k));
    assert(f.take(n) =~= s.subrange(i, i + n));
    assert(s.skip(i + n) =~= f.skip(n));
    if trimmed(s).len() > 0 {
        assert(trimmed(s)[0] == f[0]);
    }
}

/// What is stripped off the front of a text is `c`s, all of them.
pub proof fn law_every_leading_one_is_stripped(s: Seq<char>, c: char)
    ensures
        ({
            let t = strip_front(s, c);
            &&& t.len() <= s.len()
            &&& s == Seq::new((s.len() - t.len()) as nat, |i: int| c) + t
            &&& t.len() > 0 ==> t[0] != c
        }),
    decreases s.len(),
{
    let t = strip_front(s, c);
    if s.len() > 0 && s[0] == c {
        law_every_leading_one_is_stripped(s.drop_first(), c);
        let m = Seq::new((s.len() - 1 - t.len()) as nat, |i: int| c) + t;
        assert(s.drop_first() == m);
        assert(s =~= seq![c] + s.drop_first());
        assert(seq![c] + m =~= Seq::new((s.len() - t.len()) as nat, |i: int| c) + t);
    } else {
        assert(s =~= Seq::new(0, |i: int| c) + t);
    }
}

/// What is stripped off the end of a text is `c`s, all of them.
pub proof fn law_every_trailing_one_is_stripped(s: Seq<char>, c: char)
    ensures
        ({
            let t = strip_back(s, c);
            &&& t.len() <= s.len()
            &&& s == t + Seq::new((s.len() - t.len()) as nat, |i: int| c)
            &&& t.len() > 0 ==> t.last() != c
        }),
    decreases s.len(),
{
    let t = strip_back(s, c);
    if s.len() > 0 && s.last() == c {
        law_every_trailing_one_is_stripped(s.drop_last(), c);
        let m = t + Seq::new((s.len() - 1 - t.len()) as nat, |i: int| c);
        assert(s.drop_last() == m);
        assert(s =~= s.drop_last().push(c));
        assert(m.push(c) =~= t + Seq::new((s.len() - t.len()) as nat, |i: int| c));
    } else {
        assert(s =~= t + Seq::new(0, |i: int| c));
    }
}

/// A text is found at the first place where it stands, and found if it stands anywhere.
pub proof fn law_a_text_is_found_at_its_first_place(s: Seq<char>, p: Seq<char>)
    ensures
        sub_at(s, p) matches Some(i) ==> 0 <= i <= s.len() && has_prefix(s.skip(i), p) && forall|
            j: int,
        |
            0 <= j < i ==> !has_prefix(#[trigger] s.skip(j), p),
        sub_at(s, p) is None ==> forall|j: int|
            0 <= j <= s.len() ==> !has_prefix(#[trigger] s.skip(j), p),
    decreases s.len(),
{
    assert(s.skip(0) =~= s);
    if !has_prefix(s, p) && s.len() > 0 {
        let t = s.skip(1);
        law_a_text_is_found_at_its_first_place(t, p);
        assert forall|j: int| 0 < j <= s.len() implies #[trigger] s.skip(j) == t.skip(j - 1) by {
            assert(s.skip(j) =~= t.skip(j - 1));
        }
    }
}

/// Letters are lowered one by one, and only the capitals change, to letters that are no
/// capitals and that stand as far from `a` as they stood from `A`.
pub proof fn law_only_capitals_are_lowered(s: Seq<char>)
    ensures
        lowered(s).len() == s.len(),
        forall|i: int|
            0 <= i < s.len() ==> {
                let c = #[trigger] s[i];
                let d = lowered(s)[i];
                &&& !('A' <= c <= 'Z') ==> d == c
                &&& 'A' <= c <= 'Z' ==> d as u32 - 'a' as u32 == c as u32 - 'A' as u32
            },
{
}

// ---------------------------------------------------------------------------
// Numbers
// ---------------------------------------------------------------------------
proof fn lemma_decimal_short(n: nat)
    ensures
        decimal(n).len() >= 1,
        n < 10 ==> decimal(n).len() == 1,
        10 <= n < 100 ==> decimal(n).len() == 2,
        100 <= n < 1000 ==> decimal(n).len() == 3,
        n >= 10 ==> decimal(n).len() == decimal(n / 10).len() + 1,
        n > 0 ==> decimal(n)[0] != '0',
    decreases n,
{
    if n >= 10 {
        lemma_decimal_short(n / 10);
    } else {
        assert(digit_char(n) as u32 == 48 + n);
    }
}

/// A number written in decimal reads back as itself, has no leading zero, and is read with
/// a plus sign too.
pub proof fn law_a_number_reads_back(n: nat)
    ensures
        unsigned(decimal(n)) == Some(n),
        unsigned(seq!['+'] + decimal(n)) == Some(n),
        n > 0 ==> decimal(n)[0] != '0',
        forall|i: int| 0 <= i < decimal(n).len() ==> '0' <= #[trigger] decimal(n)[i] <= '9',
{
    lemma_decimal_reads_back(n);
    lemma_decimal_short(n);
    let s = decimal(n);
    assert(digit(s[0]));
    assert((seq!['+'] + s).skip(1) =~= s);
    assert forall|i: int| 0 <= i < s.len() implies '0' <= #[trigger] s[i] <= '9' by {
        assert(digit(s[i]));
    }
}

/// A text that is read as a number holds digits alone, after a plus sign or none.
pub proof fn law_only_digits_are_a_number(s: Seq<char>)
    ensures
        unsigned(s) is Some ==> s.len() > 0 && forall|i: int|
            1 <= i < s.len() ==> '0' <= #[trigger] s[i] <= '9',
        unsigned(s) is Some ==> ('0' <= s[0] <= '9') || (s[0] == '+' && s.len() > 1),
{
    if unsigned(s) is Some {
        if s.len() > 1 && s[0] == '+' {
            let t = s.skip(1);
            assert forall|i: int| 1 <= i < s.len() implies '0' <= #[trigger] s[i] <= '9' by {
                assert(digit(t[i - 1]));
            }
        } else {
            assert(digit(s[0]));
            assert forall|i: int| 1 <= i < s.len() implies '0' <= #[trigger] s[i] <= '9' by {
                assert(digit(s[i]));
            }
        }
    }
}

// ---------------------------------------------------------------------------
// Addresses
// ---------------------------------------------------------------------------
proof fn lemma_octet(n: nat)
    requires
        n <= 255,
    ensures
        octet(decimal(n)) == Some(n),
        !decimal(n).contains('.'),
{
    lemma_decimal_reads_back(n);
    lemma_decimal_short(n);
    let s = decimal(n);
    if s.contains('.') {
        let i = s.index_of('.');
        assert(digit(s[i]));
    }
}

proof fn lemma_split_front(a: Seq<char>, rest: Seq<char>, c: char)
    requires
        !a.contains(c),
    ensures
        split(a.push(c) + rest, c) == seq![a] + split(rest, c),
{
    let s = a.push(c) + rest;
    lemma_first_at(s, c);
    let i = first_at(s, c);
    assert(s[a.len() as int] == c);
    if i < a.len() {
        assert(a[i] == s[i]);
        assert(a.contains(c));
    }
    assert(i == a.len());
    assert(s.take(i) =~= a);
    assert(s.skip(i + 1) =~= rest);
}

proof fn lemma_split_one(a: Seq<char>, c: char)
    requires
        !a.contains(c),
    ensures
        split(a, c) == seq![a],
{
    lemma_first_at(a, c);
    let i = first_at(a, c);
    if i < a.len() {
        assert(a[i] == c);
    }
}

proof fn lemma_dotted(a: Seq<char>, b: Seq<char>, c: Seq<char>, d: Seq<char>)
    requires
        !a.contains('.'),
        !b.contains('.'),
        !c.contains('.'),
        !d.contains('.'),
    ensures
        split(a + "."@ + b + "."@ + c + "."@ + d, '.') == seq![a, b, c, d],
{
    reveal_strlit(".");
    assert("."@ =~= seq!['.']);
    let r2 = c.push('.') + d;
    let r1 = b.push('.') + r2;
    let r0 = a.push('.') + r1;
    assert(a + "."@ + b + "."@ + c + "."@ + d =~= r0);
    lemma_split_one(d, '.');
    lemma_split_front(c, d, '.');
    lemma_split_front(b, r2, '.');
    lemma_split_front(a, r1, '.');
    assert(split(r0, '.') =~= seq![a, b, c, d]);
}

/// Four numbers of a byte with points between them are an address, with the highest byte
/// first.
pub proof fn law_the_highest_byte_is_first(a: nat, b: nat, c: nat, d: nat)
    requires
        a <= 255,
        b <= 255,
        c <= 255,
        d <= 255,
    ensures
        v4_of(decimal(a) + "."@ + decimal(b) + "."@ + decimal(c) + "."@ + decimal(d)) == Some(
            (a * 0x100_0000 + b * 0x1_0000 + c * 0x100 + d) as u32,
        ),
{
    lemma_octet(a);
    lemma_octet(b);
    lemma_octet(c);
    lemma_octet(d);
    lemma_dotted(decimal(a), decimal(b), decimal(c), decimal(d));
}

/// An address written as four numbers with points between them reads back as itself.
pub proof fn law_an_address_reads_back(a: u32)
    ensures
        v4_of(v4_text(a)) == Some(a),
{
    let h = (a / 16777216) as nat;
    let m = (a / 65536 % 256) as nat;
    let l = (a / 256 % 256) as nat;
    let e = (a % 256) as nat;
    law_the_highest_byte_is_first(h, m, l, e);
    lemma_bytes_of(a as nat);
}

proof fn lemma_bytes_of(a: nat)
    ensures
        a / 16777216 * 16777216 + a / 65536 % 256 * 65536 + a / 256 % 256 * 256 + a % 256 == a,
{
    let x = a / 256;
    let y = a / 65536;
    let z = a / 16777216;
    assert(y == x / 256);
    assert(z == y / 256);
    assert(a == x * 256 + a % 256);
    assert(x == y * 256 + x % 256);
    assert(y == z * 256 + y % 256);
}

/// Whether `n` groups from `i` on are all zero.
pub open spec fn zero_run(g: Seq<u32>, i: int, n: int) -> bool {
    &&& 0 <= i
    &&& 0 <= n
    &&& i + n <= g.len()
    &&& forall|j: int| i <= j < i + n ==> #[trigger] g[j] == 0
}

proof fn lemma_zeros_from(g: Seq<u32>, i: int, n: int)
    requires
        0 <= i <= g.len(),
    ensures
        zero_run(g, i, zeros_from(g, i) as int),
        zero_run(g, i, n) ==> n <= zeros_from(g, i),
    decreases g.len() - i,
{
    if i < g.len() && g[i] == 0 {
        lemma_zeros_from(g, i + 1, n - 1);
    } else if zero_run(g, i, n) && n > 0 {
        assert(g[i] == 0);
    }
}

proof fn lemma_longest_zeros(g: Seq<u32>, n: nat, i: int, k: int)
    requires
        n <= g.len(),
    ensures
        ({
            let z = longest_zeros(g, n);
            &&& zero_run(g, z.0 as int, z.1 as int)
            &&& zero_run(g, i, k) && i < n ==> k <= z.1
            &&& zero_run(g, i, k) && i < z.0 ==> k < z.1
        }),
    decreases n,
{
    if n > 0 {
        lemma_longest_zeros(g, (n - 1) as nat, i, k);
        lemma_zeros_from(g, n - 1, k);
    }
}

/// The groups of an address are its sixteen-bit parts, the highest first.
pub proof fn law_groups_are_the_parts_of_an_address(a: u128)
    ensures
        to_groups(a).len() == 8,
        from_groups(nats(to_groups(a))) == a,
        forall|i: int| 0 <= i < 8 ==> #[trigger] to_groups(a)[i] <= 0xffff,
{
    let v = nats(to_groups(a));
    let x6 = a as nat / 0x1_0000;
    let x5 = x6 / 0x1_0000;
    let x4 = x5 / 0x1_0000;
    let x3 = x4 / 0x1_0000;
    let x2 = x3 / 0x1_0000;
    let x1 = x2 / 0x1_0000;
    let x0 = x1 / 0x1_0000;
    lemma_parts(a as nat);
    assert(x0 < 0x1_0000);
    assert(v[0] == x0 % 0x1_0000);
    lemma_groups_step(v, 1, x0);
    assert(v[1] == x1 % 0x1_0000);
    lemma_groups_step(v, 2, x1);
    assert(v[2] == x2 % 0x1_0000);
    lemma_groups_step(v, 3, x2);
    assert(v[3] == x3 % 0x1_0000);
    lemma_groups_step(v, 4, x3);
    assert(v[4] == x4 % 0x1_0000);
    lemma_groups_step(v, 5, x4);
    assert(v[5] == x5 % 0x1_0000);
    lemma_groups_step(v, 6, x5);
    assert(v[6] == x6 % 0x1_0000);
    lemma_groups_step(v, 7, x6);
    lemma_groups_step(v, 8, a as nat);
    assert(v.take(8) =~= v);
}

proof fn lemma_parts(a: nat)
    ensures
        a / 0x1_0000 / 0x1_0000 == a / 0x1_0000_0000,
        a / 0x1_0000_0000 / 0x1_0000 == a / 0x1_0000_0000_0000,
        a / 0x1_0000_0000_0000 / 0x1_0000 == a / 0x1_0000_0000_0000_0000,
        a / 0x1_0000_0000_0000_0000 / 0x1_0000 == a / 0x1_0000_0000_0000_0000_0000,
        a / 0x1_0000_0000_0000_0000_0000 / 0x1_0000 == a / 0x1_0000_0000_0000_0000_0000_0000,
        a / 0x1_0000_0000_0000_0000_0000_0000 / 0x1_0000 == a
            / 0x1_0000_0000_0000_0000_0000_0000_0000,
{
    lemma_div_denominator(a as int, 0x1_0000, 0x1_0000);
    lemma_div_denominator(a as int, 0x1_0000_0000, 0x1_0000);
    lemma_div_denominator(a as int, 0x1_0000_0000_0000, 0x1_0000);
    lemma_div_denominator(a as int, 0x1_0000_0000_0000_0000, 0x1_0000);
    lemma_div_denominator(a as int, 0x1_0000_0000_0000_0000_0000, 0x1_0000);
    lemma_div_denominator(a as int, 0x1_0000_0000_0000_0000_0000_0000, 0x1_0000);
}

proof fn lemma_groups_step(v: Seq<nat>, n: int, x: nat)
    requires
        1 <= n <= v.len(),
        n == 1 ==> x < 0x1_0000,
        n > 1 ==> from_groups(v.take(n - 1)) == x / 0x1_0000,
        v[n - 1] == x % 0x1_0000,
    ensures
        from_groups(v.take(n)) == x,
{
    assert(v.take(n).drop_last() =~= v.take(n - 1));
    assert(v.take(n).last() == v[n - 1]);
    if n == 1 {
        assert(v.take(0) =~= Seq::empty());
        assert(from_groups(v.take(0)) == 0);
    }
}

/// An address of eight groups is written with the longest run of zero groups left out,
/// the first of equals, where it is of two groups at least; otherwise every group is
/// written. One that holds an address of four bytes is written with that.
pub proof fn law_the_longest_run_of_zeros_is_left_out(a: u128)
    ensures
        ({
            let g = to_groups(a);
            let held = a / 0x1_0000_0000 == 0xffff;
            &&& held ==> v6_text(a) == "::ffff:"@ + v4_text((a % 0x1_0000_0000) as u32)
            &&& !held && (forall|i: int| 0 <= i < 7 ==> !(#[trigger] zero_run(g, i, 2)))
                ==> v6_text(a) == hexes(g)
            &&& !held && (exists|i: int| #[trigger] zero_run(g, i, 2)) ==> exists|i: int, n: int|
                {
                    &&& #[trigger] zero_run(g, i, n)
                    &&& n >= 2
                    &&& forall|j: int, m: int| #[trigger] zero_run(g, j, m) ==> m <= n
                    &&& forall|j: int, m: int| #[trigger] zero_run(g, j, m) && j < i ==> m < n
                    &&& v6_text(a) == hexes(g.take(i)) + "::"@ + hexes(g.skip(i + n))
                }
        }),
{
    let g = to_groups(a);
    let z = longest_zeros(g, 8);
    assert forall|j: int, m: int| #[trigger] zero_run(g, j, m) implies m <= z.1 && (j < z.0 ==> m
        < z.1) by {
        lemma_longest_zeros(g, 8, j, m);
    }
    lemma_longest_zeros(g, 8, 0, 0);
    if z.1 > 1 {
        assert(zero_run(g, z.0 as int, z.1 as int));
        assert(zero_run(g, z.0 as int, 2));
    }
}

/// A group is written in sixteens with no more digits than it needs, and reads back as
/// itself.
pub proof fn law_a_group_reads_back(n: nat)
    ensures
        hex_number(hex(n)) == Some(n),
        n > 0 ==> hex(n)[0] != '0',
        hex(n).len() >= 1,
        n < 0x1_0000 ==> hex(n).len() <= 4,
    decreases n,
{
    if n >= 16 {
        law_a_group_reads_back(n / 16);
        assert(hex(n).drop_last() =~= hex(n / 16));
        lemma_hex_len(n);
    } else {
        assert(hex(n).drop_last() =~= Seq::empty());
        assert(hex_number(Seq::empty()) == Some(0nat));
    }
}

proof fn lemma_hex_len(n: nat)
    ensures
        n < 16 ==> hex(n).len() == 1,
        n < 256 ==> hex(n).len() <= 2,
        n < 4096 ==> hex(n).len() <= 3,
        n < 65536 ==> hex(n).len() <= 4,
    decreases n,
{
    if n >= 16 {
        lemma_hex_len(n / 16);
    }
}

// ---------------------------------------------------------------------------
// Writing
// ---------------------------------------------------------------------------
/// A digit of sixteen is written as one of the digits, or a small letter, and reads back
/// as itself.
pub proof fn law_a_hex_digit_reads_back(n: u8)
    requires
        n < 16,
    ensures
        hex_value(hex_digit(n)) == Some(n as nat),
        '0' <= hex_digit(n) <= '9' || 'a' <= hex_digit(n) <= 'f',
{
}

proof fn lemma_leading_zero(d: Seq<char>)
    ensures
        number(seq!['0'] + d) == number(d),
    decreases d.len(),
{
    let t = seq!['0'] + d;
    if d.len() == 0 {
        assert(t.drop_last() =~= d);
    } else {
        lemma_leading_zero(d.drop_last());
        assert(t.drop_last() =~= seq!['0'] + d.drop_last());
        assert(t.last() == d.last());
    }
}

/// Thousandths are written with three digits.
pub proof fn law_thousandths_have_three_digits(n: nat)
    requires
        n < 1000,
    ensures
        three_digits(n).len() == 3,
        number(three_digits(n)) == n,
{
    lemma_decimal_short(n);
    lemma_decimal_reads_back(n);
    reveal_strlit("0");
    reveal_strlit("00");
    let d = decimal(n);
    let one = seq!['0'] + d;
    lemma_leading_zero(d);
    lemma_leading_zero(one);
    assert("0"@ + d =~= one);
    assert("00"@ + d =~= seq!['0'] + one);
}

/// In a JSON text a letter stands for itself unless it is a quote, a backslash or a
/// control: those begin with a backslash, and no two letters are written the same.
pub proof fn law_no_two_letters_are_written_the_same(c: char, d: char)
    ensures
        c as u32 >= 0x20 && c != '"' && c != '\\' ==> json_char(c) == seq![c],
        (c as u32) < 0x20 || c == '"' || c == '\\' ==> json_char(c).len() >= 2 && json_char(c)[0]
            == '\\',
        json_char(c) == json_char(d) ==> c == d,
{
    let (x, y) = (json_char(c), json_char(d));
    if x == y {
        assert(x.len() == y.len());
        assert(x[0] == y[0]);
        if x.len() >= 2 {
            assert(x[1] == y[1]);
        }
        if x.len() == 6 {
            assert(x[4] == y[4] && x[5] == y[5]);
            law_a_hex_digit_reads_back((c as u32 / 16) as u8);
            law_a_hex_digit_reads_back((d as u32 / 16) as u8);
            law_a_hex_digit_reads_back((c as u32 % 16) as u8);
            law_a_hex_digit_reads_back((d as u32 % 16) as u8);
        }
    }
}

} // verus!
