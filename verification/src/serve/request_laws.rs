//! What becomes of a request: where it goes, how long it waits, and how it is refused.

use vstd::prelude::*;
use vstd::string::*;

use crate::common::bytes::{first_from, lossy_text, stands_at};
use crate::common::json::{metas, JsonV};
use crate::common::text::{has_suffix, lowered, strip_back};
use crate::common::top::{top_at, TopV};
use crate::serve::dispatch::{after_failure, before_send, kept, Answer};
use crate::serve::net::Net;
use crate::serve::probe::{due, page_for, place_of, probe_order, probed, RoundResult};
use crate::serve::proxy::{
    blank_line, field_name, form_route, json_route, text_field, upstream, without_line_end,
};
use crate::serve::shared::SharedV;
use crate::serve::table::{models_table, unready};

verus! {

// ---------------------------------------------------------------------------
// Dispatch
// ---------------------------------------------------------------------------
/// A request goes out as soon as its model is routed, to the group and the address it is
/// routed to. Before its deadline it waits for that; after it, it is refused: as not
/// ready where a group of that name is known, and otherwise as unknown, with what there
/// is instead.
pub proof fn law_a_request_goes_where_its_model_is_routed(
    s: SharedV,
    model: Seq<char>,
    tail: Seq<char>,
    deadline: u64,
    now: u64,
    local: Seq<Net>,
)
    ensures
        ({
            let table = models_table(s, now, local);
            let r = before_send(s, model, tail, deadline, now, local);
            &&& r is Send <==> table.contains_key(model)
            &&& r is Send ==> r->group == table[model].group && r->url == upstream(
                table[model].url,
                tail,
            )
            &&& r is Wait <==> !table.contains_key(model) && now < deadline
            &&& r is Refuse <==> !table.contains_key(model) && now >= deadline
            &&& r is Refuse ==> {
                let known = unready(s, now, local).contains_key(model);
                &&& r->refusal.status == (if known {
                    503int
                } else {
                    404
                })
                &&& r->refusal.offer is Some <==> !known
            }
        }),
{
}

/// A request whose upstream could not be reached is tried again until its deadline. One
/// that was taken is not: it is refused as timed out where it was, and otherwise as a bad
/// gateway.
pub proof fn law_a_failed_request_is_told_why(
    s: SharedV,
    group: Seq<char>,
    msg: Seq<char>,
    connect: bool,
    timeout: bool,
    deadline: u64,
    now: u64,
)
    ensures
        ({
            let r = after_failure(s, group, msg, connect, timeout, deadline, now);
            &&& r is Wait <==> connect && now < deadline
            &&& r is Refuse <==> !(connect && now < deadline)
            &&& r is Refuse ==> r->refusal.offer is None && r->refusal.status == (if timeout {
                504int
            } else {
                502
            })
        }),
{
}

/// A stream that was kept alive relays an answer that succeeded; any other outcome ends
/// it with an error event and the end mark.
pub proof fn law_a_kept_stream_ends_with_what_went_wrong(a: Answer)
    ensures
        kept(a) is Relaying <==> (a matches Answer::Replied { success, .. } && success),
        !(kept(a) is Relaying) ==> kept(a) is Failing && kept(a)->left.len() == 2 && kept(a)->left[1]
            == "data: [DONE]\n\n"@,
{
}

proof fn lemma_strip_back(s: Seq<char>, c: char)
    ensures
        strip_back(s, c).len() <= s.len(),
        strip_back(s, c) == s.take(strip_back(s, c).len() as int),
        strip_back(s, c).len() == 0 || strip_back(s, c).last() != c,
        forall|i: int| strip_back(s, c).len() <= i < s.len() ==> s[i] == c,
    decreases s.len(),
{
    if s.len() > 0 && s.last() == c {
        let t = s.drop_last();
        lemma_strip_back(t, c);
        assert(strip_back(s, c) =~= s.take(strip_back(t, c).len() as int));
        assert forall|i: int| strip_back(s, c).len() <= i < s.len() implies s[i] == c by {
            if i < t.len() {
                assert(t[i] == s[i]);
            }
        }
    } else {
        assert(s.take(s.len() as int) =~= s);
    }
}

/// A request's path is put behind the endpoint's address with one `/v1` between them,
/// whether the address has it or not; strokes at the end of the address do not count.
pub proof fn law_an_upstream_address_has_one_version(root: Seq<char>, rest: Seq<char>)
    requires
        root.len() > 0,
        root.last() != '/',
        !has_suffix(root, "/v1"@),
    ensures
        upstream(root, "/v1"@ + rest) == root + "/v1"@ + rest,
        upstream(root + "/v1"@, "/v1"@ + rest) == root + "/v1"@ + rest,
        upstream(root + "/v1/"@, "/v1"@ + rest) == root + "/v1"@ + rest,
        upstream(root + "/"@, "/v1"@ + rest) == root + "/v1"@ + rest,
{
    reveal_strlit("/v1");
    reveal_strlit("/v1/");
    reveal_strlit("/");
    let v = "/v1"@;
    let tail = v + rest;
    assert(tail.take(3) =~= v);
    assert(tail.skip(3) =~= rest);
    assert(strip_back(root, '/') == root);
    let a = root + v;
    assert(a.last() == '1');
    assert(strip_back(a, '/') == a);
    assert(a.skip(a.len() - 3) =~= v);
    assert(upstream(root, tail) =~= root + v + rest);
    assert(upstream(a, tail) == a + rest);
    let b = root + "/v1/"@;
    assert(b.drop_last() =~= a);
    assert(b.last() == '/');
    assert(strip_back(b, '/') == a);
    let c = root + "/"@;
    assert(c.drop_last() =~= root);
    assert(c.last() == '/');
    assert(strip_back(c, '/') == root);
}

// ---------------------------------------------------------------------------
// Reading a request
// ---------------------------------------------------------------------------
/// A form is routed by its `model`, and streams where its `stream` says `true`; without a
/// `model` it is refused.
pub proof fn law_a_form_is_routed_by_its_model(fields: Map<Seq<char>, Seq<char>>)
    ensures
        form_route(fields) is Ok <==> fields.contains_key("model"@),
        form_route(fields) is Ok ==> (form_route(fields)->Ok_0).0 == fields["model"@] && ((
        form_route(fields)->Ok_0).1 <==> fields.contains_pair("stream"@, "true"@)),
{
}

proof fn lemma_top_at(fields: Seq<(Seq<char>, TopV)>, name: Seq<char>)
    ensures
        match top_at(fields, name) {
            Some(v) => exists|i: int| 0 <= i < fields.len() && #[trigger] fields[i] == (name, v),
            None => forall|i: int| 0 <= i < fields.len() ==> (#[trigger] fields[i]).0 != name,
        },
    decreases fields.len(),
{
    if fields.len() > 0 {
        let tail = fields.skip(1);
        lemma_top_at(tail, name);
        if fields[0].0 == name {
            assert(fields[0] == (name, fields[0].1));
        } else {
            match top_at(tail, name) {
                Some(v) => {
                    let i = choose|i: int| 0 <= i < tail.len() && #[trigger] tail[i] == (name, v);
                    assert(fields[i + 1] == (name, v));
                },
                None => {
                    assert forall|i: int| 0 <= i < fields.len() implies (#[trigger] fields[i]).0
                        != name by {
                        if i > 0 {
                            assert(tail[i - 1] == fields[i]);
                        }
                    }
                },
            }
        }
    }
}

/// A document is routed by its `model`, where that is a text, and streams where its
/// `stream` is true. Without such a `model`, or where the body is no JSON, it is refused.
pub proof fn law_a_document_is_routed_by_its_model(fields: Seq<(Seq<char>, TopV)>)
    requires
        forall|i: int, j: int|
            0 <= i < j < fields.len() ==> (#[trigger] fields[i]).0 != (#[trigger] fields[j]).0,
    ensures
        ({
            let r = json_route(Some(fields));
            &&& r is Ok <==> exists|i: int|
                0 <= i < fields.len() && (#[trigger] fields[i]).0 == "model"@ && fields[i].1 is Text
            &&& r is Ok ==> fields.contains(("model"@, TopV::Text((r->Ok_0).0)))
            &&& r is Ok ==> ((r->Ok_0).1 <==> fields.contains(("stream"@, TopV::Flag(true))))
        }),
        json_route(None) is Err,
{
    lemma_top_at(fields, "model"@);
    lemma_top_at(fields, "stream"@);
    match top_at(fields, "model"@) {
        Some(v) => {
            let i = choose|i: int| 0 <= i < fields.len() && #[trigger] fields[i] == ("model"@, v);
            assert forall|j: int| 0 <= j < fields.len() && (#[trigger] fields[j]).0
                == "model"@ implies j == i by {
                if j < i {
                    assert(fields[j].0 != fields[i].0);
                } else if i < j {
                    assert(fields[i].0 != fields[j].0);
                }
            }
            assert(fields.contains(fields[i]));
        },
        None => {},
    }
    let yes = ("stream"@, TopV::Flag(true));
    match top_at(fields, "stream"@) {
        Some(v) => {
            let i = choose|i: int| 0 <= i < fields.len() && #[trigger] fields[i] == ("stream"@, v);
            assert(fields.contains(fields[i]));
            if fields.contains(yes) {
                let j = fields.index_of(yes);
                if j < i {
                    assert(fields[j].0 != fields[i].0);
                } else if i < j {
                    assert(fields[i].0 != fields[j].0);
                }
            }
        },
        None => {
            if fields.contains(yes) {
                assert(fields[fields.index_of(yes)].0 == "stream"@);
            }
        },
    }
}

/// The end of a line.
pub open spec fn line_end() -> Seq<u8> {
    seq![13u8, 10u8]
}

proof fn lemma_first_is(hay: Seq<u8>, needle: Seq<u8>, n: int, i: int)
    requires
        0 <= i <= n,
        stands_at(hay, needle, n),
        forall|j: int| 0 <= j < n ==> !#[trigger] stands_at(hay, needle, j),
    ensures
        first_from(hay, needle, i) == Some(n),
    decreases n - i,
{
    if i < n {
        lemma_first_is(hay, needle, n, i + 1);
        assert(!stands_at(hay, needle, i));
    }
}

proof fn lemma_value_ends(value: Seq<u8>)
    ensures
        without_line_end(value + line_end()) == value,
{
    let rest = value + line_end();
    assert(rest.take(rest.len() - 2) =~= value);
}

proof fn lemma_head_ends(head: Seq<u8>, value: Seq<u8>, part: Seq<u8>)
    requires
        part == head + (line_end() + line_end()) + value + line_end(),
        forall|j: int|
            0 <= j < head.len() ==> !#[trigger] stands_at(part, line_end() + line_end(), j),
    ensures
        first_from(part, blank_line(), 0) == Some(head.len() as int),
        part.take(head.len() as int) == head,
        without_line_end(part.skip(head.len() as int + 4)) == value,
{
    let blank = line_end() + line_end();
    assert(blank =~= blank_line());
    lemma_four(head, blank, value, line_end());
    lemma_first_is(part, blank, head.len() as int, 0);
    lemma_value_ends(value);
}

/// A part of a form gives the value behind the blank line after its head, without the
/// line end before the next part, under the name that its head tells.
pub proof fn law_a_part_gives_its_value(head: Seq<u8>, value: Seq<u8>, part: Seq<u8>)
    requires
        part == head + (line_end() + line_end()) + value + line_end(),
        // The head runs up to the first blank line.
        forall|j: int|
            0 <= j < head.len() ==> !#[trigger] stands_at(part, line_end() + line_end(), j),
        vstd::utf8::valid_utf8(value),
    ensures
        ({
            let name = field_name(lowered(lossy_text(head)));
            &&& name is Some ==> text_field(part) == Some((name->0, vstd::utf8::decode_utf8(value)))
            &&& name is None ==> text_field(part) is None
        }),
{
    lemma_head_ends(head, value, part);
}

/// What stands where in four runs of bytes one after another.
proof fn lemma_four(a: Seq<u8>, b: Seq<u8>, c: Seq<u8>, d: Seq<u8>)
    ensures
        ({
            let s = a + b + c + d;
            &&& s.len() == a.len() + b.len() + c.len() + d.len()
            &&& s.take(a.len() as int) == a
            &&& s.skip(a.len() as int + b.len() as int) == c + d
            &&& s.subrange(a.len() as int, a.len() as int + b.len() as int) == b
            &&& forall|k: int| 0 <= k < b.len() ==> s[a.len() + k] == #[trigger] b[k]
        }),
{
    let s = a + b + c + d;
    assert(s.take(a.len() as int) =~= a);
    assert(s.skip(a.len() as int + b.len() as int) =~= c + d);
    assert(s.subrange(a.len() as int, a.len() as int + b.len() as int) =~= b);
}

/// What a path and a method stand for. Strokes at the end of a path do not count.
pub proof fn law_a_page_is_found_by_its_path(method: Seq<char>, path: Seq<char>, html: bool)
    ensures
        ({
            let p = strip_back(path, '/');
            let get = method == "GET"@;
            let post = method == "POST"@;
            let r = page_for(method, path, html);
            &&& r is Ui <==> get && !post && html && (p.len() == 0 || p == "/"@)
            &&& r is Forward ==> post
            &&& get && (p == "/healthz"@ || p == "/status.json"@) ==> r is Status
            &&& get && p.len() == 0 && !html ==> r is Status
            &&& get && p == "/stats.json"@ ==> r is Stats
            &&& get && (p == "/v1"@ || p == "/v1/models"@) ==> r is Models
            &&& post && p == "/mcp"@ ==> r is Mcp
            &&& post && p == "/v1/responses/input_tokens"@ ==> r is Tokens
            &&& post && p != "/mcp"@ && p != "/v1/responses/input_tokens"@ ==> r is Forward
            &&& !get && !post ==> r is NotFound
            &&& get && p.len() > 0 && p != "/"@ && p != "/healthz"@ && p != "/status.json"@ && p
                != "/stats.json"@ && p != "/v1"@ && p != "/v1/models"@ ==> r is NotFound
        }),
{
    reveal_strlit("GET");
    reveal_strlit("POST");
    reveal_strlit("/");
    reveal_strlit("/healthz");
    reveal_strlit("/status.json");
    reveal_strlit("/stats.json");
    reveal_strlit("/v1");
    reveal_strlit("/v1/models");
    reveal_strlit("/mcp");
    reveal_strlit("/v1/responses/input_tokens");
    assert("GET"@.len() == 3 && "POST"@.len() == 4);
    lemma_strip_back(path, '/');
    assert("/"@.len() == 1 && "/"@[0] == '/');
    assert("/healthz"@.len() == 8 && "/status.json"@.len() == 12 && "/stats.json"@.len() == 11);
    assert("/v1"@.len() == 3 && "/v1/models"@.len() == 10 && "/mcp"@.len() == 4);
    assert("/v1/responses/input_tokens"@.len() == 26);
}

// ---------------------------------------------------------------------------
// Probing
// ---------------------------------------------------------------------------
proof fn lemma_place_of(v: Seq<Seq<char>>, x: Seq<char>)
    ensures
        0 <= place_of(v, x) <= v.len(),
        place_of(v, x) < v.len() ==> v[place_of(v, x)] == x,
        place_of(v, x) < v.len() <==> v.contains(x),
    decreases v.len(),
{
    if v.len() > 0 {
        if v[0] == x {
            assert(v.contains(v[0]));
        } else {
            let t = v.skip(1);
            lemma_place_of(t, x);
            if t.contains(x) {
                assert(v[t.index_of(x) + 1] == x);
            }
            if v.contains(x) {
                let i = v.index_of(x);
                assert(t[i - 1] == x);
            }
        }
    }
}

/// A round tries every candidate once: the one that worked last comes first, unless the
/// best is due for another try, and the others keep their order.
pub proof fn law_a_round_starts_with_what_worked(
    candidates: Seq<Seq<char>>,
    sticky: Option<Seq<char>>,
    promote: bool,
)
    ensures
        ({
            let o = probe_order(candidates, sticky, promote);
            let kept = sticky is Some && !promote && candidates.contains(sticky->0);
            &&& o.len() == candidates.len()
            &&& !kept ==> o == candidates
            &&& kept ==> o[0] == sticky->0
            &&& kept ==> exists|i: int|
                0 <= i < candidates.len() && candidates[i] == sticky->0 && #[trigger] o.skip(1)
                    == candidates.remove(i)
        }),
{
    if sticky is Some {
        lemma_place_of(candidates, sticky->0);
        let i = place_of(candidates, sticky->0);
        if !promote && i < candidates.len() {
            let o = probe_order(candidates, sticky, promote);
            assert(o.skip(1) =~= candidates.remove(i));
        }
    }
}

/// A group's best candidate is due for another try once as long as is set has passed since
/// it was last tried, and at once where the group was never probed.
pub proof fn law_the_best_is_tried_again(s: SharedV, group: Seq<char>, now: u64)
    ensures
        ({
            let (sticky, promote) = due(s, group, now);
            let p = s.probes[group];
            &&& s.probes.contains_key(group) ==> sticky == p.selected && (promote <==> now
                >= p.promoted_at + s.cfg.probe_promote || (s.cfg.probe_promote == 0))
            &&& !s.probes.contains_key(group) ==> sticky is None && promote
        }),
{
}

/// A round that was answered makes its group healthy with the models that were listed, or
/// one of the group's name where none was, at the address that answered. One that was not
/// says why, and forgets the address.
pub proof fn law_a_round_tells_what_it_found(
    s: SharedV,
    group: Seq<char>,
    tried_top: bool,
    got: RoundResult,
    now: u64,
)
    ensures
        ({
            let p = probed(s, group, tried_top, got, now);
            &&& p.seen == now
            &&& p.ok <==> got is Replied
            &&& got matches RoundResult::Replied { url, models } ==> {
                &&& p.selected == Some(url@)
                &&& p.error is None
                &&& models@.len() > 0 ==> p.models == metas(models@)
                &&& models@.len() == 0 ==> p.models.len() == 1 && p.models[0].field("id"@)
                    == JsonV::Str(group)
            }
            &&& got matches RoundResult::Failed { error } ==> p.error == Some(error@)
                && p.selected is None && p.models.len() == 0
            &&& tried_top || !s.probes.contains_key(group) ==> p.promoted_at == now
            &&& !tried_top && s.probes.contains_key(group) ==> p.promoted_at
                == s.probes[group].promoted_at
        }),
{
}

} // verus!
