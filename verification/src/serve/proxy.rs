//! The OpenAI-compatible route: pick the group by the request's model name, and
//! forward.

use vstd::prelude::*;
use vstd::string::*;
use vstd::utf8::{decode_utf8, encode_utf8, valid_utf8};

use crate::common::bytes::{find_from, first_from, lossy_text, part_of, text_exact, text_lossy};
use crate::common::dict::Dict;
use crate::common::text::{
    has_prefix, has_suffix, lower, lowered, opt_text, same, same_ignoring_case, split, split_at,
    split_first, split_on, split_once, split_text, strip_back, strip_front, strip_prefix,
    strip_suffix, sub_at, texts, trim, trim_end_matches, trim_start_matches, trimmed,
};
use crate::common::top::{find_top, json_top, opt_top, parse_top, top_at, Top, TopV};

verus! {

/// The largest request body taken: sized for an audio upload rather than a
/// prompt.
pub const MAX_BODY: usize = 134217728;

// ---------------------------------------------------------------------------
// Where a request lands
// ---------------------------------------------------------------------------
/// Where a request path lands on the upstream.
pub open spec fn upstream(base: Seq<char>, tail: Seq<char>) -> Seq<char> {
    let b = strip_back(base, '/');
    if has_suffix(b, "/v1"@) {
        if has_prefix(tail, "/v1"@) {
            b + tail.skip("/v1"@.len() as int)
        } else {
            b.take(b.len() - "/v1"@.len()) + tail
        }
    } else {
        b + tail
    }
}

/// Where a request path lands on the upstream.
///
/// The announced base ends in `/v1`, since that is what a client is handed. An
/// engine serves some endpoints there and others at the root, so a root-level
/// path is resolved against the base with its `/v1` removed. A base that does
/// not end in `/v1` is already the root a caller meant.
pub fn upstream_url(base: &str, tail: &str) -> (r: String)
    ensures
        r@ == upstream(base@, tail@),
{
    let base = trim_end_matches(base, '/');
    match (strip_suffix(base, "/v1"), strip_prefix(tail, "/v1")) {
        (Some(_), Some(rest)) => {
            let mut u = base.to_string();
            u.append(rest);
            u
        },
        (Some(root), None) => {
            let mut u = root.to_string();
            u.append(tail);
            u
        },
        (None, _) => {
            let mut u = base.to_string();
            u.append(tail);
            u
        },
    }
}

// ---------------------------------------------------------------------------
// What a body asks for
// ---------------------------------------------------------------------------
/// What the router needs from a request body.
#[derive(Debug, PartialEq, Eq)]
pub struct Routed {
    pub model: String,
    pub stream: bool,
}

/// A text without the quotes around it.
pub open spec fn unquoted(s: Seq<char>) -> Seq<char> {
    strip_back(strip_front(s, '"'), '"')
}

/// The boundary a parameter names, where it names one.
pub open spec fn boundary_in(p: Seq<char>) -> Option<Seq<char>> {
    match split_first(p, '=') {
        Some((k, v)) => if lowered(trimmed(k)) == lowered("boundary"@) {
            Some(unquoted(trimmed(v)))
        } else {
            None
        },
        None => None,
    }
}

/// The boundary of the first parameter that names one.
pub open spec fn first_boundary(ps: Seq<Seq<char>>) -> Option<Seq<char>>
    decreases ps.len(),
{
    if ps.len() == 0 {
        None
    } else {
        match boundary_in(ps[0]) {
            Some(b) => Some(b),
            None => first_boundary(ps.skip(1)),
        }
    }
}

/// The boundary of a multipart/form-data content type.
pub open spec fn boundary(ct: Seq<char>) -> Option<Seq<char>> {
    match split_first(ct, ';') {
        Some((kind, params)) => if lowered(trimmed(kind)) == lowered("multipart/form-data"@) {
            first_boundary(split(params, ';'))
        } else {
            None
        },
        None => None,
    }
}

/// The boundary of a multipart/form-data content type. A boundary may contain
/// `=`, so the parameter splits at its first one and the rest is the value. It
/// may not contain `;`.
pub fn boundary_of(content_type: &str) -> (r: Option<String>)
    ensures
        opt_text(r) == boundary(content_type@),
{
    let (kind, params) = match split_once(content_type, ';') {
        Some(x) => x,
        None => return None,
    };
    if !same_ignoring_case(trim(kind), "multipart/form-data") {
        return None;
    }
    let ps = split_on(params, ';');
    let ghost all = texts(ps@);
    let mut i: usize = 0;
    proof {
        assert(all.skip(0) =~= all);
    }
    while i < ps.len()
        invariant
            i <= ps@.len(),
            all == texts(ps@),
            all == split(params@, ';'),
            split_first(content_type@, ';') == Some((kind@, params@)),
            lowered(trimmed(kind@)) == lowered("multipart/form-data"@),
            first_boundary(all) == first_boundary(all.skip(i as int)),
        decreases ps@.len() - i,
    {
        proof {
            assert(all.skip(i as int)[0] == ps@[i as int]@);
            assert(all.skip(i as int).skip(1) =~= all.skip(i + 1));
        }
        if let Some((k, v)) = split_once(ps[i].as_str(), '=') {
            if same_ignoring_case(trim(k), "boundary") {
                let v = trim_end_matches(trim_start_matches(trim(v), '"'), '"');
                return Some(v.to_string());
            }
        }
        i += 1;
    }
    None
}

/// The bytes between a part's headers and its value.
pub open spec fn blank_line() -> Seq<u8> {
    seq![13u8, 10u8, 13u8, 10u8]
}

/// A part's value without the line end that belongs to the delimiter after it.
pub open spec fn without_line_end(v: Seq<u8>) -> Seq<u8> {
    if v.len() >= 2 && v[v.len() - 2] == 13 && v[v.len() - 1] == 10 {
        v.take(v.len() - 2)
    } else {
        v
    }
}

/// The name in a part's headers, where they give one and no file name.
pub open spec fn field_name(head: Seq<char>) -> Option<Seq<char>> {
    if sub_at(head, "filename="@) is Some {
        None
    } else {
        match split_at(head, "name=\""@) {
            Some((a, b)) => match split_first(b, '"') {
                Some((name, rest)) => Some(name),
                None => None,
            },
            None => None,
        }
    }
}

/// One part as its field's name and value.
pub open spec fn text_field(part: Seq<u8>) -> Option<(Seq<char>, Seq<char>)> {
    match first_from(part, blank_line(), 0) {
        Some(i) => {
            let value = without_line_end(part.skip(i + 4));
            match field_name(lowered(lossy_text(part.take(i)))) {
                Some(name) => if valid_utf8(value) {
                    Some((name, decode_utf8(value)))
                } else {
                    None
                },
                None => None,
            }
        },
        None => None,
    }
}

/// One part as its field's name and value. Nothing for a file, and for anything
/// whose headers do not parse.
pub fn text_part(part: &[u8]) -> (r: Option<(String, String)>)
    ensures
        match r {
            Some((n, v)) => text_field(part@) == Some((n@, v@)),
            None => text_field(part@) is None,
        },
{
    let mut blank: Vec<u8> = Vec::new();
    blank.push(13);
    blank.push(10);
    blank.push(13);
    blank.push(10);
    proof {
        assert(blank@ =~= blank_line());
    }
    let i: usize = match find_from(part, blank.as_slice(), 0) {
        Some(i) => i,
        None => return None,
    };
    let headers = part_of(part, 0, i);
    let head = lower(text_lossy(headers.as_slice()).as_str());
    proof {
        assert(headers@ =~= part@.take(i as int));
    }
    if split_text(head.as_str(), "filename=").is_some() {
        return None;
    }
    let (_, rest) = match split_text(head.as_str(), "name=\"") {
        Some(x) => x,
        None => return None,
    };
    let (name, _) = match split_once(rest, '"') {
        Some(x) => x,
        None => return None,
    };
    let n: usize = part.len();
    let from: usize = i + 4;
    let to: usize = if n - from >= 2 && part[n - 2] == 13 && part[n - 1] == 10 {
        n - 2
    } else {
        n
    };
    let value = part_of(part, from, to);
    proof {
        assert(value@ =~= without_line_end(part@.skip(from as int)));
    }
    match text_exact(value) {
        Some(v) => Some((name.to_string(), v)),
        None => None,
    }
}

/// The fields of the parts from `at` on. `start` is where the part began that is
/// being read, where one has.
pub open spec fn fields_from(
    body: Seq<u8>,
    delim: Seq<u8>,
    at: int,
    start: Option<int>,
    out: Map<Seq<char>, Seq<char>>,
) -> Map<Seq<char>, Seq<char>>
    decreases body.len() - at,
{
    match first_from(body, delim, at) {
        Some(i) => {
            let next = match start {
                Some(s) => match text_field(body.subrange(s, i)) {
                    Some((n, v)) => out.insert(n, v),
                    None => out,
                },
                None => out,
            };
            if delim.len() > 0 && i >= at && at >= 0 && i + delim.len() <= body.len() {
                fields_from(body, delim, i + delim.len(), Some(i + delim.len()), next)
            } else {
                next
            }
        },
        None => out,
    }
}

/// The line that parts a form.
pub open spec fn delimiter(boundary: Seq<char>) -> Seq<u8> {
    encode_utf8("--"@ + boundary)
}

/// The text fields of a multipart/form-data body, by name.
pub open spec fn form(body: Seq<u8>, boundary: Seq<char>) -> Map<Seq<char>, Seq<char>> {
    fields_from(body, delimiter(boundary), 0, None, Map::empty())
}

/// The text fields of a multipart/form-data body, by name.
///
/// The parts are walked rather than the body searched for a field's name,
/// because an upload's bytes can spell anything. A part with a file name is
/// skipped without its value being touched.
pub fn form_fields(body: &[u8], boundary: &str) -> (r: Dict<String>)
    ensures
        r.deep_view() == form(body@, boundary@),
{
    let mut line = "--".to_string();
    line.append(boundary);
    let delim = line.as_str().as_bytes();
    let mut out: Dict<String> = Dict::new();
    proof {
        assert(out.deep_view() =~= Map::<Seq<char>, Seq<char>>::empty());
        reveal_strlit("--");
        lemma_starts_with_bytes(line@);
    }
    let n: usize = body.len();
    let mut at: usize = 0;
    let mut start: Option<usize> = None;
    loop
        invariant
            n == body@.len(),
            at <= n,
            delim@ == delimiter(boundary@),
            delim@.len() > 0,
            start matches Some(s) ==> s <= at,
            form(body@, boundary@) == fields_from(
                body@,
                delim@,
                at as int,
                match start {
                    Some(s) => Some(s as int),
                    None => None,
                },
                out.deep_view(),
            ),
        decreases body@.len() - at,
    {
        match find_from(body, delim, at) {
            Some(i) => {
                if let Some(s) = start {
                    let part = part_of(body, s, i);
                    if let Some((name, value)) = text_part(part.as_slice()) {
                        let ghost had = out.deep_view();
                        let ghost nv = name@;
                        let ghost vv = value@;
                        out.insert(name, value);
                        proof {
                            assert(out.deep_view() =~= had.insert(nv, vv));
                        }
                    }
                }
                at = i + delim.len();
                start = Some(at);
            },
            None => return out,
        }
    }
}

proof fn lemma_starts_with_bytes(s: Seq<char>)
    requires
        s.len() >= 2,
    ensures
        encode_utf8(s).len() > 0,
{
    if encode_utf8(s).len() == 0 {
        assert(encode_utf8(s) =~= encode_utf8(Seq::<char>::empty()));
        crate::common::text::lemma_bytes_injective(s, Seq::empty());
    }
}

// ---------------------------------------------------------------------------
// JSON bodies
// ---------------------------------------------------------------------------
/// What the router needs, or why it is not there.
pub open spec fn routed_view(r: Result<Routed, String>) -> Result<(Seq<char>, bool), Seq<char>> {
    match r {
        Ok(x) => Ok((x.model@, x.stream)),
        Err(e) => Err(e@),
    }
}

/// What a form asks for.
pub open spec fn form_route(fields: Map<Seq<char>, Seq<char>>) -> Result<
    (Seq<char>, bool),
    Seq<char>,
> {
    if fields.contains_key("model"@) {
        Ok(
            (
                fields["model"@],
                fields.contains_key("stream"@) && fields["stream"@] == "true"@,
            ),
        )
    } else {
        Err("no model field in the form"@)
    }
}

/// What a JSON body asks for, from its top level.
pub open spec fn json_route(fields: Option<Seq<(Seq<char>, TopV)>>) -> Result<
    (Seq<char>, bool),
    Seq<char>,
> {
    match fields {
        Some(f) => match top_at(f, "model"@) {
            Some(TopV::Text(m)) => Ok((m, top_at(f, "stream"@) == Some(TopV::Flag(true)))),
            _ => Err("no model field in request"@),
        },
        None => Err("body is neither JSON nor multipart/form-data"@),
    }
}

/// What a form asks for.
pub fn route_form(fields: &Dict<String>) -> (r: Result<Routed, String>)
    ensures
        routed_view(r) == form_route(fields.deep_view()),
{
    let ghost fv = fields.deep_view();
    let stream = match fields.get("stream") {
        Some(s) => {
            proof {
                assert(fv["stream"@] == s@);
            }
            same(s.as_str(), "true")
        },
        None => false,
    };
    match fields.get("model") {
        Some(m) => {
            proof {
                assert(fv["model"@] == m@);
            }
            Ok(Routed { model: m.clone(), stream })
        },
        None => Err("no model field in the form".to_string()),
    }
}

/// What a JSON body asks for, from its top level.
pub fn route_json(fields: &Option<Vec<(String, Top)>>) -> (r: Result<Routed, String>)
    ensures
        routed_view(r) == json_route(opt_top(*fields)),
{
    match fields {
        Some(f) => {
            let stream = match find_top(f, "stream") {
                Some(Top::Flag(b)) => *b,
                _ => false,
            };
            match find_top(f, "model") {
                Some(Top::Text(m)) => Ok(Routed { model: m.clone(), stream }),
                _ => Err("no model field in request".to_string()),
            }
        },
        None => Err("body is neither JSON nor multipart/form-data".to_string()),
    }
}

/// What a body asks for, by its content type.
pub open spec fn route(ct: Option<Seq<char>>, body: Seq<u8>) -> Result<
    (Seq<char>, bool),
    Seq<char>,
> {
    match boundary(
        match ct {
            Some(c) => c,
            None => Seq::empty(),
        },
    ) {
        Some(b) => form_route(form(body, b)),
        None => json_route(json_top(body)),
    }
}

/// Reads the model and the stream flag out of a body, whatever form it takes.
///
/// JSON carries both as top-level fields. The audio endpoints are
/// multipart/form-data instead, and spell the model as a text field beside the
/// upload. The body is forwarded byte for byte either way.
pub fn route_by(content_type: Option<&str>, body: &[u8]) -> (r: Result<Routed, String>)
    ensures
        routed_view(r) == route(
            match content_type {
                Some(c) => Some(c@),
                None => None,
            },
            body@,
        ),
{
    let b = match content_type {
        Some(c) => boundary_of(c),
        None => None,
    };
    match b {
        Some(b) => {
            let fields = form_fields(body, b.as_str());
            route_form(&fields)
        },
        None => {
            let fields = parse_top(body);
            route_json(&fields)
        },
    }
}

/// An upload is never read for a field: a part that names a file gives none,
/// whatever its bytes spell.
pub proof fn law_an_upload_is_never_a_field(part: Seq<u8>, i: int)
    requires
        first_from(part, blank_line(), 0) == Some(i),
        sub_at(lowered(lossy_text(part.take(i))), "filename="@) is Some,
    ensures
        text_field(part) is None,
{
}

} // verus!
