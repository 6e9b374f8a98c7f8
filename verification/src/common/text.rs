//! Text as sequences of characters.
//!
//! Each function here is stated over `Seq<char>`, the view of a string, so
//! that the parsers and messages built from them can say exactly what text
//! they read and write.

use vstd::prelude::*;
use vstd::string::*;
use vstd::utf8::*;

verus! {

/// `String::push` appends one character.
pub assume_specification[ String::push ](s: &mut String, c: char)
    ensures
        final(s)@ == old(s)@.push(c),
;

// ---------------------------------------------------------------------------
// Views
// ---------------------------------------------------------------------------
/// The texts of a list of strings.
pub open spec fn texts(v: Seq<String>) -> Seq<Seq<char>> {
    Seq::new(v.len(), |i: int| v[i]@)
}

/// The text of an optional string.
pub open spec fn opt_text(v: Option<String>) -> Option<Seq<char>> {
    match v {
        Some(s) => Some(s@),
        None => None,
    }
}

/// The characters of `s`, one by one.
pub fn chars_of(s: &str) -> (v: Vec<char>)
    ensures
        v@ == s@,
{
    let mut v: Vec<char> = Vec::new();
    for c in it: s.chars()
        invariant
            v@ == it.seq().take(it.index() as int),
            it.seq() == s@,
    {
        v.push(c);
    }
    v
}

/// The characters of `cs` from `from` up to `to`, as a string.
pub fn text_of(cs: &Vec<char>, from: usize, to: usize) -> (s: String)
    requires
        from <= to <= cs@.len(),
    ensures
        s@ == cs@.subrange(from as int, to as int),
{
    let mut s = String::new();
    let mut i: usize = from;
    while i < to
        invariant
            from <= i <= to <= cs@.len(),
            s@ == cs@.subrange(from as int, i as int),
        decreases to - i,
    {
        s.push(cs[i]);
        i += 1;
    }
    s
}

// ---------------------------------------------------------------------------
// Equality and order
// ---------------------------------------------------------------------------
/// Byte strings in dictionary order.
pub open spec fn lex(a: Seq<u8>, b: Seq<u8>) -> bool
    decreases a.len(),
{
    if b.len() == 0 {
        false
    } else if a.len() == 0 {
        true
    } else if a[0] != b[0] {
        a[0] < b[0]
    } else {
        lex(a.drop_first(), b.drop_first())
    }
}

/// Whether `a` sorts before `b`: the order of their UTF-8 bytes.
pub open spec fn before(a: Seq<char>, b: Seq<char>) -> bool {
    lex(encode_utf8(a), encode_utf8(b))
}

proof fn lemma_lex_irreflexive(a: Seq<u8>)
    ensures
        !lex(a, a),
    decreases a.len(),
{
    if a.len() > 0 {
        lemma_lex_irreflexive(a.drop_first());
    }
}

proof fn lemma_lex_transitive(a: Seq<u8>, b: Seq<u8>, c: Seq<u8>)
    requires
        lex(a, b),
        lex(b, c),
    ensures
        lex(a, c),
    decreases a.len(),
{
    if a.len() > 0 && b.len() > 0 && c.len() > 0 && a[0] == b[0] && b[0] == c[0] {
        lemma_lex_transitive(a.drop_first(), b.drop_first(), c.drop_first());
    }
}

proof fn lemma_lex_total(a: Seq<u8>, b: Seq<u8>)
    ensures
        lex(a, b) || lex(b, a) || a == b,
    decreases a.len(),
{
    if a.len() > 0 && b.len() > 0 && a[0] == b[0] {
        lemma_lex_total(a.drop_first(), b.drop_first());
        if a.drop_first() == b.drop_first() {
            assert(a =~= seq![a[0]] + a.drop_first());
            assert(b =~= seq![b[0]] + b.drop_first());
        }
    } else if a.len() == 0 && b.len() == 0 {
        assert(a =~= b);
    }
}

/// Two texts with the same bytes are the same text.
pub proof fn lemma_bytes_injective(a: Seq<char>, b: Seq<char>)
    requires
        encode_utf8(a) == encode_utf8(b),
    ensures
        a == b,
{
    encode_utf8_decode_utf8(a);
    encode_utf8_decode_utf8(b);
}

/// No text sorts before itself.
pub proof fn lemma_before_irreflexive(a: Seq<char>)
    ensures
        !before(a, a),
{
    lemma_lex_irreflexive(encode_utf8(a));
}

/// The order of texts is transitive.
pub proof fn lemma_before_transitive(a: Seq<char>, b: Seq<char>, c: Seq<char>)
    requires
        before(a, b),
        before(b, c),
    ensures
        before(a, c),
{
    lemma_lex_transitive(encode_utf8(a), encode_utf8(b), encode_utf8(c));
}

/// Of two different texts, one sorts first.
pub proof fn lemma_before_total(a: Seq<char>, b: Seq<char>)
    ensures
        before(a, b) || before(b, a) || a == b,
{
    lemma_lex_total(encode_utf8(a), encode_utf8(b));
    if encode_utf8(a) == encode_utf8(b) {
        lemma_bytes_injective(a, b);
    }
}

/// Two texts do not each sort before the other.
pub proof fn lemma_before_asymmetric(a: Seq<char>, b: Seq<char>)
    requires
        before(a, b),
    ensures
        !before(b, a),
{
    if before(b, a) {
        lemma_before_transitive(a, b, a);
        lemma_before_irreflexive(a);
    }
}

/// Whether two strings hold the same text.
pub fn same(a: &str, b: &str) -> (r: bool)
    ensures
        r == (a@ == b@),
{
    let x = a.as_bytes();
    let y = b.as_bytes();
    if x.len() != y.len() {
        return false;
    }
    let mut i: usize = 0;
    while i < x.len()
        invariant
            i <= x@.len(),
            x@.len() == y@.len(),
            x@ == encode_utf8(a@),
            y@ == encode_utf8(b@),
            forall|j: int| 0 <= j < i ==> x@[j] == y@[j],
        decreases x@.len() - i,
    {
        if x[i] != y[i] {
            return false;
        }
        i += 1;
    }
    proof {
        assert(x@ =~= y@);
        lemma_bytes_injective(a@, b@);
    }
    true
}

/// Whether `a` sorts before `b`.
pub fn sorts_before(a: &str, b: &str) -> (r: bool)
    ensures
        r == before(a@, b@),
{
    let x = a.as_bytes();
    let y = b.as_bytes();
    let mut i: usize = 0;
    proof {
        assert(x@.skip(0) =~= x@);
        assert(y@.skip(0) =~= y@);
    }
    loop
        invariant
            i <= x@.len(),
            i <= y@.len(),
            lex(x@, y@) == lex(x@.skip(i as int), y@.skip(i as int)),
            before(a@, b@) == lex(x@, y@),
        decreases x@.len() - i,
    {
        if i >= y.len() {
            return false;
        }
        if i >= x.len() {
            return true;
        }
        if x[i] != y[i] {
            return x[i] < y[i];
        }
        proof {
            assert(x@.skip(i as int).drop_first() =~= x@.skip(i + 1));
            assert(y@.skip(i as int).drop_first() =~= y@.skip(i + 1));
        }
        i += 1;
    }
}

/// Whether `s` is one of `list`.
pub fn listed(list: &Vec<String>, s: &str) -> (r: bool)
    ensures
        r == texts(list@).contains(s@),
{
    let mut i: usize = 0;
    while i < list.len()
        invariant
            i <= list@.len(),
            forall|j: int| 0 <= j < i ==> list@[j]@ != s@,
        decreases list@.len() - i,
    {
        if same(list[i].as_str(), s) {
            proof {
                assert(texts(list@)[i as int] == s@);
            }
            return true;
        }
        i += 1;
    }
    proof {
        if texts(list@).contains(s@) {
            let j = choose|j: int| 0 <= j < texts(list@).len() && texts(list@)[j] == s@;
            assert(list@[j]@ == s@);
        }
    }
    false
}

/// A copy of a list of strings.
pub fn copied(list: &Vec<String>) -> (r: Vec<String>)
    ensures
        r@ == list@,
{
    let mut out: Vec<String> = Vec::new();
    let mut i: usize = 0;
    while i < list.len()
        invariant
            i <= list@.len(),
            out@ == list@.take(i as int),
        decreases list@.len() - i,
    {
        out.push(list[i].clone());
        i += 1;
    }
    out
}

// ---------------------------------------------------------------------------
// Prefixes, suffixes, places
// ---------------------------------------------------------------------------
/// Where `c` first occurs in `s`, or the length of `s`.
pub open spec fn first_at(s: Seq<char>, c: char) -> int
    decreases s.len(),
{
    if s.len() == 0 || s[0] == c {
        0
    } else {
        1 + first_at(s.drop_first(), c)
    }
}

/// `first_at` is the least index that holds `c`.
pub proof fn lemma_first_at(s: Seq<char>, c: char)
    ensures
        0 <= first_at(s, c) <= s.len(),
        first_at(s, c) < s.len() ==> s[first_at(s, c)] == c,
        forall|j: int| 0 <= j < first_at(s, c) ==> s[j] != c,
    decreases s.len(),
{
    if s.len() > 0 && s[0] != c {
        let t = s.drop_first();
        lemma_first_at(t, c);
        assert forall|j: int| 0 <= j < first_at(s, c) implies s[j] != c by {
            if j > 0 {
                assert(t[j - 1] == s[j]);
            }
        }
    }
}

/// The least index that holds `c` is the only one with nothing before it.
pub proof fn lemma_first_at_is(s: Seq<char>, c: char, i: int)
    requires
        0 <= i <= s.len(),
        i < s.len() ==> s[i] == c,
        forall|j: int| 0 <= j < i ==> s[j] != c,
    ensures
        first_at(s, c) == i,
{
    lemma_first_at(s, c);
}

/// The first index at or after `from` that holds `c`, or the length.
pub fn find_char(cs: &Vec<char>, from: usize, c: char) -> (r: usize)
    requires
        from <= cs@.len(),
    ensures
        from <= r <= cs@.len(),
        r == from + first_at(cs@.skip(from as int), c),
{
    let mut i: usize = from;
    while i < cs.len() && cs[i] != c
        invariant
            from <= i <= cs@.len(),
            forall|j: int| from <= j < i ==> cs@[j] != c,
        decreases cs@.len() - i,
    {
        i += 1;
    }
    proof {
        lemma_first_at_is(cs@.skip(from as int), c, i - from);
    }
    i
}

/// Whether the text holds the character.
pub fn holds_char(s: &str, c: char) -> (r: bool)
    ensures
        r == s@.contains(c),
{
    let cs = chars_of(s);
    let i: usize = find_char(&cs, 0, c);
    proof {
        assert(s@.skip(0) =~= s@);
        lemma_first_at(s@, c);
        if i < cs@.len() {
            assert(s@[i as int] == c);
        }
    }
    i < cs.len()
}

/// The parts of `s` around the first `c`, when there is one.
pub open spec fn split_first(s: Seq<char>, c: char) -> Option<(Seq<char>, Seq<char>)> {
    let i = first_at(s, c);
    if i < s.len() {
        Some((s.take(i), s.skip(i + 1)))
    } else {
        None
    }
}

/// `s` cut at the first `c`.
pub fn split_once<'a>(s: &'a str, c: char) -> (r: Option<(&'a str, &'a str)>)
    ensures
        match r {
            Some((x, y)) => split_first(s@, c) == Some((x@, y@)),
            None => split_first(s@, c) is None,
        },
{
    let cs = chars_of(s);
    let i: usize = find_char(&cs, 0, c);
    proof {
        assert(s@.skip(0) =~= s@);
        lemma_first_at(s@, c);
    }
    if i < cs.len() {
        let x = s.substring_char(0, i);
        let y = s.substring_char(i + 1, cs.len());
        proof {
            assert(x@ =~= s@.take(i as int));
            assert(y@ =~= s@.skip(i + 1));
        }
        Some((x, y))
    } else {
        None
    }
}

/// Where `c` last occurs in `s`, or -1.
pub open spec fn last_at(s: Seq<char>, c: char) -> int
    decreases s.len(),
{
    if s.len() == 0 {
        -1
    } else if s.last() == c {
        s.len() - 1
    } else {
        last_at(s.drop_last(), c)
    }
}

/// The parts of `s` around the last `c`, when there is one.
pub open spec fn split_last(s: Seq<char>, c: char) -> Option<(Seq<char>, Seq<char>)> {
    let i = last_at(s, c);
    if i >= 0 {
        Some((s.take(i), s.skip(i + 1)))
    } else {
        None
    }
}

/// `s` cut at the last `c`.
pub fn rsplit_once<'a>(s: &'a str, c: char) -> (r: Option<(&'a str, &'a str)>)
    ensures
        match r {
            Some((x, y)) => split_last(s@, c) == Some((x@, y@)),
            None => split_last(s@, c) is None,
        },
{
    let cs = chars_of(s);
    let mut i: usize = cs.len();
    proof {
        assert(s@.take(s@.len() as int) =~= s@);
    }
    while i > 0
        invariant
            i <= cs@.len(),
            cs@ == s@,
            last_at(s@, c) == last_at(s@.take(i as int), c),
        decreases i,
    {
        if cs[i - 1] == c {
            let x = s.substring_char(0, i - 1);
            let y = s.substring_char(i, cs.len());
            proof {
                assert(s@.take(i as int).last() == c);
                assert(x@ =~= s@.take(i - 1));
                assert(y@ =~= s@.skip(i as int));
            }
            return Some((x, y));
        }
        proof {
            assert(s@.take(i as int).drop_last() =~= s@.take(i - 1));
        }
        i -= 1;
    }
    None
}

/// Whether `s` starts with `p`.
pub open spec fn has_prefix(s: Seq<char>, p: Seq<char>) -> bool {
    p.len() <= s.len() && s.take(p.len() as int) == p
}

/// Whether `s` ends with `p`.
pub open spec fn has_suffix(s: Seq<char>, p: Seq<char>) -> bool {
    p.len() <= s.len() && s.skip(s.len() - p.len()) == p
}

/// What follows the prefix `p`, when `s` has it.
pub fn strip_prefix<'a>(s: &'a str, p: &str) -> (r: Option<&'a str>)
    ensures
        match r {
            Some(x) => has_prefix(s@, p@) && x@ == s@.skip(p@.len() as int),
            None => !has_prefix(s@, p@),
        },
{
    let n: usize = s.unicode_len();
    let m: usize = p.unicode_len();
    if m > n {
        return None;
    }
    let head = s.substring_char(0, m);
    proof {
        assert(head@ =~= s@.take(m as int));
    }
    if same(head, p) {
        let rest = s.substring_char(m, n);
        proof {
            assert(rest@ =~= s@.skip(m as int));
        }
        Some(rest)
    } else {
        None
    }
}

/// What comes before the suffix `p`, when `s` has it.
pub fn strip_suffix<'a>(s: &'a str, p: &str) -> (r: Option<&'a str>)
    ensures
        match r {
            Some(x) => has_suffix(s@, p@) && x@ == s@.take(s@.len() - p@.len()),
            None => !has_suffix(s@, p@),
        },
{
    let n: usize = s.unicode_len();
    let m: usize = p.unicode_len();
    if m > n {
        return None;
    }
    let tail = s.substring_char(n - m, n);
    proof {
        assert(tail@ =~= s@.skip(n - m));
    }
    if same(tail, p) {
        let rest = s.substring_char(0, n - m);
        proof {
            assert(rest@ =~= s@.take(n - m));
        }
        Some(rest)
    } else {
        None
    }
}

/// Whether `s` starts with `p`.
pub fn starts_with(s: &str, p: &str) -> (r: bool)
    ensures
        r == has_prefix(s@, p@),
{
    strip_prefix(s, p).is_some()
}

// ---------------------------------------------------------------------------
// Trimming
// ---------------------------------------------------------------------------
/// Unicode's White_Space property.
pub open spec fn white(c: char) -> bool {
    ||| '\u{9}' <= c <= '\u{d}'
    ||| c == ' '
    ||| c == '\u{85}'
    ||| c == '\u{a0}'
    ||| c == '\u{1680}'
    ||| '\u{2000}' <= c <= '\u{200a}'
    ||| c == '\u{2028}'
    ||| c == '\u{2029}'
    ||| c == '\u{202f}'
    ||| c == '\u{205f}'
    ||| c == '\u{3000}'
}

fn is_white(c: char) -> (r: bool)
    ensures
        r == white(c),
{
    ('\u{9}' <= c && c <= '\u{d}') || c == ' ' || c == '\u{85}' || c == '\u{a0}' || c == '\u{1680}'
        || ('\u{2000}' <= c && c <= '\u{200a}') || c == '\u{2028}' || c == '\u{2029}'
        || c == '\u{202f}' || c == '\u{205f}' || c == '\u{3000}'
}

/// `s` without its leading white space.
pub open spec fn trim_front(s: Seq<char>) -> Seq<char>
    decreases s.len(),
{
    if s.len() > 0 && white(s[0]) {
        trim_front(s.drop_first())
    } else {
        s
    }
}

/// `s` without its trailing white space.
pub open spec fn trim_back(s: Seq<char>) -> Seq<char>
    decreases s.len(),
{
    if s.len() > 0 && white(s.last()) {
        trim_back(s.drop_last())
    } else {
        s
    }
}

/// `s` without white space at either end.
pub open spec fn trimmed(s: Seq<char>) -> Seq<char> {
    trim_back(trim_front(s))
}

/// `s` without white space at either end.
pub fn trim<'a>(s: &'a str) -> (r: &'a str)
    ensures
        r@ == trimmed(s@),
{
    let cs = chars_of(s);
    let mut i: usize = 0;
    proof {
        assert(s@.skip(0) =~= s@);
    }
    while i < cs.len() && is_white(cs[i])
        invariant
            i <= cs@.len(),
            cs@ == s@,
            trim_front(s@) == trim_front(s@.skip(i as int)),
        decreases cs@.len() - i,
    {
        proof {
            assert(s@.skip(i as int).drop_first() =~= s@.skip(i + 1));
        }
        i += 1;
    }
    let ghost t = s@.skip(i as int);
    let mut j: usize = cs.len();
    proof {
        assert(t.take(t.len() as int) =~= t);
    }
    while j > i && is_white(cs[j - 1])
        invariant
            i <= j <= cs@.len(),
            cs@ == s@,
            t == s@.skip(i as int),
            trim_back(t) == trim_back(t.take(j - i)),
        decreases j,
    {
        proof {
            assert(t.take(j - i).drop_last() =~= t.take(j - i - 1));
        }
        j -= 1;
    }
    let r = s.substring_char(i, j);
    proof {
        assert(r@ =~= t.take(j - i));
    }
    r
}

/// `s` without its leading `c`s.
pub open spec fn strip_front(s: Seq<char>, c: char) -> Seq<char>
    decreases s.len(),
{
    if s.len() > 0 && s[0] == c {
        strip_front(s.drop_first(), c)
    } else {
        s
    }
}

/// `s` without its trailing `c`s.
pub open spec fn strip_back(s: Seq<char>, c: char) -> Seq<char>
    decreases s.len(),
{
    if s.len() > 0 && s.last() == c {
        strip_back(s.drop_last(), c)
    } else {
        s
    }
}

/// `s` without its leading `c`s.
pub fn trim_start_matches<'a>(s: &'a str, c: char) -> (r: &'a str)
    ensures
        r@ == strip_front(s@, c),
{
    let cs = chars_of(s);
    let mut i: usize = 0;
    proof {
        assert(s@.skip(0) =~= s@);
    }
    while i < cs.len() && cs[i] == c
        invariant
            i <= cs@.len(),
            cs@ == s@,
            strip_front(s@, c) == strip_front(s@.skip(i as int), c),
        decreases cs@.len() - i,
    {
        proof {
            assert(s@.skip(i as int).drop_first() =~= s@.skip(i + 1));
        }
        i += 1;
    }
    let r = s.substring_char(i, cs.len());
    proof {
        assert(r@ =~= s@.skip(i as int));
    }
    r
}

/// `s` without its trailing `c`s.
pub fn trim_end_matches<'a>(s: &'a str, c: char) -> (r: &'a str)
    ensures
        r@ == strip_back(s@, c),
{
    let cs = chars_of(s);
    let mut j: usize = cs.len();
    proof {
        assert(s@.take(s@.len() as int) =~= s@);
    }
    while j > 0 && cs[j - 1] == c
        invariant
            j <= cs@.len(),
            cs@ == s@,
            strip_back(s@, c) == strip_back(s@.take(j as int), c),
        decreases j,
    {
        proof {
            assert(s@.take(j as int).drop_last() =~= s@.take(j - 1));
        }
        j -= 1;
    }
    let r = s.substring_char(0, j);
    proof {
        assert(r@ =~= s@.take(j as int));
    }
    r
}

// ---------------------------------------------------------------------------
// Splitting and joining
// ---------------------------------------------------------------------------
/// The pieces of `s` between the `c`s. There is always at least one.
pub open spec fn split(s: Seq<char>, c: char) -> Seq<Seq<char>>
    decreases s.len(),
    via split_shrinks
{
    let i = first_at(s, c);
    if i < s.len() {
        seq![s.take(i)] + split(s.skip(i + 1), c)
    } else {
        seq![s]
    }
}

#[via_fn]
proof fn split_shrinks(s: Seq<char>, c: char) {
    lemma_first_at(s, c);
}

/// The pieces of `s` between the `c`s.
pub fn split_on(s: &str, c: char) -> (r: Vec<String>)
    ensures
        texts(r@) == split(s@, c),
{
    let cs = chars_of(s);
    let mut out: Vec<String> = Vec::new();
    let mut from: usize = 0;
    proof {
        assert(s@.skip(0) =~= s@);
        assert(texts(out@) + split(s@, c) =~= split(s@, c));
    }
    loop
        invariant
            from <= cs@.len(),
            cs@ == s@,
            split(s@, c) == texts(out@) + split(s@.skip(from as int), c),
        decreases cs@.len() - from,
    {
        let i: usize = find_char(&cs, from, c);
        let piece = text_of(&cs, from, i);
        let ghost rest = s@.skip(from as int);
        let ghost had = out@;
        proof {
            lemma_first_at(rest, c);
        }
        out.push(piece);
        proof {
            assert(texts(out@) =~= texts(had).push(piece@));
            assert(piece@ =~= rest.take(i - from));
        }
        if i >= cs.len() {
            proof {
                assert(rest.take(i - from) =~= rest);
                assert(texts(out@) =~= texts(had) + seq![rest]);
            }
            return out;
        }
        proof {
            assert(rest.skip(i - from + 1) =~= s@.skip(i + 1));
            assert(texts(had) + (seq![piece@] + split(s@.skip(i + 1), c)) =~= texts(out@) + split(
                s@.skip(i + 1),
                c,
            ));
        }
        from = i + 1;
    }
}

/// The texts of `v`, with `sep` between each two.
pub open spec fn joined(v: Seq<Seq<char>>, sep: Seq<char>) -> Seq<char>
    decreases v.len(),
{
    if v.len() == 0 {
        Seq::empty()
    } else if v.len() == 1 {
        v[0]
    } else {
        joined(v.drop_last(), sep) + sep + v.last()
    }
}

/// The strings of `v`, with `sep` between each two.
pub fn join(v: &Vec<String>, sep: &str) -> (r: String)
    ensures
        r@ == joined(texts(v@), sep@),
{
    let mut out = String::new();
    let mut i: usize = 0;
    while i < v.len()
        invariant
            i <= v@.len(),
            out@ == joined(texts(v@).take(i as int), sep@),
        decreases v@.len() - i,
    {
        if i > 0 {
            out.append(sep);
        }
        out.append(v[i].as_str());
        proof {
            let t = texts(v@).take(i + 1);
            assert(t.drop_last() =~= texts(v@).take(i as int));
            assert(t.last() == v@[i as int]@);
            if i == 0 {
                assert(out@ =~= t[0]);
            }
        }
        i += 1;
    }
    proof {
        assert(texts(v@).take(v@.len() as int) =~= texts(v@));
    }
    out
}

/// Where `p` first stands in `s`, or nothing.
pub open spec fn sub_at(s: Seq<char>, p: Seq<char>) -> Option<int>
    decreases s.len(),
{
    if has_prefix(s, p) {
        Some(0)
    } else if s.len() == 0 {
        None
    } else {
        match sub_at(s.skip(1), p) {
            Some(i) => Some(i + 1),
            None => None,
        }
    }
}

/// What stands before the first `p` in `s`, and after it.
pub open spec fn split_at(s: Seq<char>, p: Seq<char>) -> Option<(Seq<char>, Seq<char>)> {
    match sub_at(s, p) {
        Some(i) => Some((s.take(i), s.skip(i + p.len()))),
        None => None,
    }
}

/// What stands before the first `p` in `s`, and after it.
pub fn split_text<'a>(s: &'a str, p: &str) -> (r: Option<(&'a str, &'a str)>)
    ensures
        match r {
            Some((a, b)) => split_at(s@, p@) == Some((a@, b@)),
            None => split_at(s@, p@) is None,
        },
{
    let n: usize = s.unicode_len();
    let m: usize = p.unicode_len();
    let mut i: usize = 0;
    proof {
        assert(s@.skip(0) =~= s@);
    }
    loop
        invariant
            i <= n,
            n == s@.len(),
            m == p@.len(),
            sub_at(s@, p@) == (match sub_at(s@.skip(i as int), p@) {
                Some(k) => Some(k + i),
                None => None,
            }),
        decreases n - i,
    {
        let rest = s.substring_char(i, n);
        proof {
            assert(rest@ =~= s@.skip(i as int));
        }
        if starts_with(rest, p) {
            let a = s.substring_char(0, i);
            let b = s.substring_char(i + m, n);
            proof {
                assert(a@ =~= s@.take(i as int));
                assert(b@ =~= s@.skip(i + m));
            }
            return Some((a, b));
        }
        if i == n {
            return None;
        }
        proof {
            assert(s@.skip(i as int).skip(1) =~= s@.skip(i + 1));
        }
        i += 1;
    }
}

// ---------------------------------------------------------------------------
// ASCII letter case
// ---------------------------------------------------------------------------
/// An ASCII capital as its small letter, anything else as it is.
pub open spec fn low(c: char) -> char {
    if 'A' <= c <= 'Z' {
        ((c as u32 + 32) as u8) as char
    } else {
        c
    }
}

/// `s` with its ASCII capitals made small.
pub open spec fn lowered(s: Seq<char>) -> Seq<char> {
    Seq::new(s.len(), |i: int| low(s[i]))
}

/// An ASCII capital as its small letter.
pub fn low_char(c: char) -> (r: char)
    ensures
        r == low(c),
{
    if 'A' <= c && c <= 'Z' {
        ((c as u32 + 32) as u8) as char
    } else {
        c
    }
}

/// `s` with its ASCII capitals made small.
pub fn lower(s: &str) -> (r: String)
    ensures
        r@ == lowered(s@),
{
    let cs = chars_of(s);
    let mut out = String::new();
    let mut i: usize = 0;
    while i < cs.len()
        invariant
            i <= cs@.len(),
            cs@ == s@,
            out@ == lowered(s@).take(i as int),
        decreases cs@.len() - i,
    {
        out.push(low_char(cs[i]));
        i += 1;
    }
    proof {
        assert(out@ =~= lowered(s@));
    }
    out
}

/// Whether two strings differ at most in ASCII letter case.
pub fn same_ignoring_case(a: &str, b: &str) -> (r: bool)
    ensures
        r == (lowered(a@) == lowered(b@)),
{
    let x = lower(a);
    let y = lower(b);
    same(x.as_str(), y.as_str())
}

// ---------------------------------------------------------------------------
// Decimal numbers
// ---------------------------------------------------------------------------
/// Whether `c` is an ASCII digit.
pub open spec fn digit(c: char) -> bool {
    '0' <= c <= '9'
}

/// Whether `s` is one or more ASCII digits.
pub open spec fn digits(s: Seq<char>) -> bool {
    s.len() > 0 && forall|i: int| 0 <= i < s.len() ==> digit(#[trigger] s[i])
}

/// The number that a run of digits writes.
pub open spec fn number(s: Seq<char>) -> nat
    decreases s.len(),
{
    if s.len() == 0 {
        0
    } else {
        number(s.drop_last()) * 10 + (s.last() as u32 - '0' as u32) as nat
    }
}

/// The digit that writes `n`, for `n` under ten.
pub open spec fn digit_char(n: nat) -> char {
    ((48 + n) as u8) as char
}

/// A hexadecimal digit, for a value under sixteen.
pub open spec fn hex_digit(n: u8) -> char {
    if n < 10 {
        ((48 + n) as u8) as char
    } else {
        ((87 + n) as u8) as char
    }
}

/// `n` in decimal, without leading zeros.
pub open spec fn decimal(n: nat) -> Seq<char>
    decreases n,
{
    if n < 10 {
        seq![digit_char(n)]
    } else {
        decimal(n / 10).push(digit_char(n % 10))
    }
}

/// What decimal digits write reads back as the number.
pub proof fn lemma_decimal_reads_back(n: nat)
    ensures
        digits(decimal(n)),
        number(decimal(n)) == n,
    decreases n,
{
    let s = decimal(n);
    assert(digit_char(n % 10) as u32 == 48 + n % 10);
    if n < 10 {
        assert(s.drop_last() =~= Seq::empty());
        assert(number(s.drop_last()) == 0);
    } else {
        lemma_decimal_reads_back(n / 10);
        assert(s.drop_last() =~= decimal(n / 10));
    }
}

/// The last of a character is where none follows.
pub proof fn lemma_last_at_is(s: Seq<char>, c: char, i: int)
    requires
        0 <= i < s.len(),
        s[i] == c,
        forall|j: int| i < j < s.len() ==> s[j] != c,
    ensures
        last_at(s, c) == i,
    decreases s.len(),
{
    if i < s.len() - 1 {
        assert(s[s.len() - 1] != c);
        lemma_last_at_is(s.drop_last(), c, i);
    }
}

/// Whether the string is one or more ASCII digits.
pub fn is_digits(s: &str) -> (r: bool)
    ensures
        r == digits(s@),
{
    let cs = chars_of(s);
    let mut i: usize = 0;
    while i < cs.len()
        invariant
            i <= cs@.len(),
            cs@ == s@,
            forall|j: int| 0 <= j < i ==> digit(#[trigger] s@[j]),
        decreases cs@.len() - i,
    {
        let c = cs[i];
        if !('0' <= c && c <= '9') {
            proof {
                assert(!digit(s@[i as int]));
            }
            return false;
        }
        i += 1;
    }
    cs.len() > 0
}

/// A longer run of digits writes no smaller number.
proof fn lemma_number_grows(s: Seq<char>, i: int)
    requires
        digits(s),
        0 <= i <= s.len(),
    ensures
        number(s.take(i)) <= number(s),
    decreases s.len() - i,
{
    if i < s.len() {
        let t = s.take(i + 1);
        assert(t.drop_last() =~= s.take(i));
        assert(digit(s[i]));
        assert(t.last() == s[i]);
        assert(number(t) >= number(s.take(i)));
        lemma_number_grows(s, i + 1);
    } else {
        assert(s.take(i) =~= s);
    }
}

/// The number that a string of digits writes, when it is at most `max`.
pub fn parse_digits(s: &str, max: u64) -> (r: Option<u64>)
    ensures
        match r {
            Some(n) => digits(s@) && number(s@) == n && n <= max,
            None => !digits(s@) || number(s@) > max,
        },
{
    if !is_digits(s) {
        return None;
    }
    let cs = chars_of(s);
    let mut n: u64 = 0;
    let mut i: usize = 0;
    while i < cs.len()
        invariant
            i <= cs@.len(),
            cs@ == s@,
            digits(s@),
            number(s@.take(i as int)) == n,
            n <= max,
        decreases cs@.len() - i,
    {
        let c = cs[i];
        proof {
            assert(digit(s@[i as int]));
            assert(s@.take(i + 1).drop_last() =~= s@.take(i as int));
            assert(s@.take(i + 1).last() == c);
            lemma_number_grows(s@, i + 1);
        }
        let d: u64 = (c as u32 - '0' as u32) as u64;
        if n > max / 10 || n * 10 > max - d.min(max) || d > max {
            return None;
        }
        n = n * 10 + d;
        i += 1;
    }
    proof {
        assert(s@.take(s@.len() as int) =~= s@);
    }
    Some(n)
}

/// `n` in decimal.
pub fn dec(n: u64) -> (r: String)
    ensures
        r@ == decimal(n as nat),
    decreases n,
{
    let d = ((48 + n % 10) as u8) as char;
    if n < 10 {
        let mut s = String::new();
        s.push(d);
        proof {
            assert(s@ =~= decimal(n as nat));
        }
        s
    } else {
        let mut s = dec(n / 10);
        s.push(d);
        s
    }
}

/// `n` in decimal.
pub fn dec_wide(n: u128) -> (r: String)
    ensures
        r@ == decimal(n as nat),
    decreases n,
{
    let d = ((48 + n % 10) as u8) as char;
    if n < 10 {
        let mut s = String::new();
        s.push(d);
        proof {
            assert(s@ =~= decimal(n as nat));
        }
        s
    } else {
        let mut s = dec_wide(n / 10);
        s.push(d);
        s
    }
}

/// The number that a text writes, as an unsigned integer is read: digits, with
/// a plus sign before them or none.
pub open spec fn unsigned(s: Seq<char>) -> Option<nat> {
    let t = if s.len() > 1 && s[0] == '+' {
        s.skip(1)
    } else {
        s
    };
    if digits(t) {
        Some(number(t))
    } else {
        None
    }
}

/// The number that a string writes, when it is at most `max`.
pub fn parse_unsigned(s: &str, max: u64) -> (r: Option<u64>)
    ensures
        match r {
            Some(n) => unsigned(s@) == Some(n as nat) && n <= max,
            None => unsigned(s@) is None || unsigned(s@)->Some_0 > max,
        },
{
    let n: usize = s.unicode_len();
    if n > 1 && s.get_char(0) == '+' {
        let t = s.substring_char(1, n);
        proof {
            assert(t@ =~= s@.skip(1));
        }
        parse_digits(t, max)
    } else {
        parse_digits(s, max)
    }
}

/// An integer in decimal, with a minus sign where it is negative.
pub open spec fn signed(n: int) -> Seq<char> {
    if n < 0 {
        seq!['-'] + decimal((-n) as nat)
    } else {
        decimal(n as nat)
    }
}

/// An integer in decimal.
pub fn dec_signed(n: i64) -> (r: String)
    ensures
        r@ == signed(n as int),
{
    if n < 0 {
        let mut s = String::new();
        s.push('-');
        let m: u64 = (-(n as i128)) as u64;
        s.append(dec(m).as_str());
        proof {
            assert(s@ =~= seq!['-'] + decimal(m as nat));
        }
        s
    } else {
        dec(n as u64)
    }
}

} // verus!
