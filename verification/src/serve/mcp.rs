//! The merged tools endpoint: every group's management tools behind a single
//! URL, in one flat namespace.
//!
//! Groups run the same status server, so a tool's name in several of them is one
//! tool with several places to run it. It is listed once and gains an argument
//! that names where to run it.

use vstd::prelude::*;
use vstd::string::*;

use crate::common::dict::{ordered, Dict};
use crate::common::json::{copies, meaning, metas, opt_str, put, str_array, str_list, Json, JsonV};
use crate::common::quote::{debug_quoted, debug_text};
use crate::common::show::{show, shown};
use crate::common::text::{has_prefix, join, joined, listed, opt_text, same, starts_with, texts};
use crate::daemon::sweep::{elapsed, since};
use crate::serve::net::Net;
use crate::serve::shared::{best_of, CachedTools, CachedV, GroupV, Shared, SharedV};
use crate::serve::table::{group_table, text_pairs, visible};

verus! {

broadcast use meaning;

/// The argument added to every merged tool to say which group runs it. The
/// leading underscores keep it clear of the tools' own parameter names.
pub const GROUP_ARG: &'static str = "__group";

/// The one tool this server serves itself. A group's tool of the same name would
/// be unreachable, so the merge drops it.
pub const NATIVE: &'static str = "serve_status";

/// Tool calls are small. A bigger body is a client's mistake.
pub const MAX_CALL: usize = 16777216;

// ---------------------------------------------------------------------------
// Replies
// ---------------------------------------------------------------------------
/// A reply with a result.
pub open spec fn result_doc(rid: JsonV, result: JsonV) -> JsonV {
    JsonV::Obj(map!["jsonrpc"@ => JsonV::Str("2.0"@), "id"@ => rid, "result"@ => result])
}

/// A reply with an error.
pub open spec fn error_doc(rid: JsonV, code: i64, message: Seq<char>) -> JsonV {
    JsonV::Obj(
        map![
            "jsonrpc"@ => JsonV::Str("2.0"@),
            "id"@ => rid,
            "error"@ => JsonV::Obj(
                map!["code"@ => JsonV::Neg(code), "message"@ => JsonV::Str(message)],
            ),
        ],
    )
}

/// A result that is one text.
pub open spec fn text_result(text: Seq<char>, failed: bool) -> JsonV {
    JsonV::Obj(
        map![
            "content"@ => JsonV::Arr(
                seq![
                    JsonV::Obj(
                        map!["type"@ => JsonV::Str("text"@), "text"@ => JsonV::Str(text)],
                    ),
                ],
            ),
            "isError"@ => JsonV::Bool(failed),
        ],
    )
}

fn reply(rid: Json, result: Json) -> (r: Json)
    ensures
        r.v() == result_doc(rid.v(), result.v()),
{
    let mut d = Json::object();
    put(&mut d, "jsonrpc", Json::str("2.0"));
    put(&mut d, "id", rid);
    put(&mut d, "result", result);
    Json::Obj(d)
}

fn error_reply(rid: Json, code: i64, message: &str) -> (r: Json)
    ensures
        r.v() == error_doc(rid.v(), code, message@),
{
    let mut e = Json::object();
    put(&mut e, "code", Json::Neg(code));
    put(&mut e, "message", Json::str(message));
    let mut d = Json::object();
    put(&mut d, "jsonrpc", Json::str("2.0"));
    put(&mut d, "id", rid);
    put(&mut d, "error", Json::Obj(e));
    Json::Obj(d)
}

fn text_reply(rid: &Json, text: &str, failed: bool) -> (r: Json)
    ensures
        r.v() == result_doc(rid.v(), text_result(text@, failed)),
{
    let mut c = Json::object();
    put(&mut c, "type", Json::str("text"));
    put(&mut c, "text", Json::str(text));
    let mut content: Vec<Json> = Vec::new();
    let one = Json::Obj(c);
    let ghost ov = one.v();
    content.push(one);
    proof {
        assert(metas(content@) =~= seq![ov]);
    }
    let mut d = Json::object();
    put(&mut d, "content", Json::Arr(content));
    put(&mut d, "isError", Json::Bool(failed));
    reply(rid.copy(), Json::Obj(d))
}

/// A tool's error. It rides in the result, so the caller sees it and can recover.
pub fn tool_err(rid: &Json, msg: &str) -> (r: Json)
    ensures
        r.v() == result_doc(rid.v(), text_result(msg@, true)),
{
    text_reply(rid, msg, true)
}

/// What this server's own tool replies: the status document as text.
pub fn native_reply(rid: &Json, text: &str) -> (r: Json)
    ensures
        r.v() == result_doc(rid.v(), text_result(text@, false)),
{
    text_reply(rid, text, false)
}

/// What a body that is no JSON is answered.
pub fn parse_error(e: &str) -> (r: Json)
    ensures
        r.v() == error_doc(JsonV::Null, -32700i64 as i64, "parse error: "@ + e@),
{
    let mut m = "parse error: ".to_string();
    m.append(e);
    error_reply(Json::Null, -32700, m.as_str())
}

// ---------------------------------------------------------------------------
// Requests
// ---------------------------------------------------------------------------
/// What a request comes to.
#[derive(Debug)]
pub enum Rpc {
    /// It is answered with this.
    Reply { doc: Json },
    /// It is a notification, and is not answered.
    Silent,
    /// It asks for the list of tools.
    List { id: Json },
    /// It calls a tool.
    Call { id: Json, params: Json },
}

/// What a request comes to, as a mathematical value.
pub enum RpcV {
    Reply { doc: JsonV },
    Silent,
    List { id: JsonV },
    Call { id: JsonV, params: JsonV },
}

impl View for Rpc {
    type V = RpcV;

    open spec fn view(&self) -> RpcV {
        match self {
            Rpc::Reply { doc } => RpcV::Reply { doc: doc.v() },
            Rpc::Silent => RpcV::Silent,
            Rpc::List { id } => RpcV::List { id: id.v() },
            Rpc::Call { id, params } => RpcV::Call { id: id.v(), params: params.v() },
        }
    }
}

/// What an `initialize` is answered.
pub open spec fn hello_result(proto: Seq<char>, version: Seq<char>) -> JsonV {
    JsonV::Obj(
        map![
            "protocolVersion"@ => JsonV::Str(proto),
            "capabilities"@ => JsonV::Obj(
                map!["tools"@ => JsonV::Obj(map!["listChanged"@ => JsonV::Bool(false)])],
            ),
            "serverInfo"@ => JsonV::Obj(
                map![
                    "name"@ => JsonV::Str("mentatd-serve"@),
                    "version"@ => JsonV::Str(version),
                ],
            ),
        ],
    )
}

/// What a request comes to.
pub open spec fn rpc_of(req: JsonV, version: Seq<char>) -> RpcV {
    let rid = req.field("id"@);
    let m = req.field("method"@).text_or_empty();
    if m == "initialize"@ {
        RpcV::Reply {
            doc: result_doc(
                rid,
                hello_result(
                    match req.field("params"@).field("protocolVersion"@).text() {
                        Some(p) => p,
                        None => "2025-06-18"@,
                    },
                    version,
                ),
            ),
        }
    } else if has_prefix(m, "notifications/"@) {
        RpcV::Silent
    } else if m == "ping"@ {
        RpcV::Reply { doc: result_doc(rid, JsonV::Obj(Map::empty())) }
    } else if m == "tools/list"@ {
        RpcV::List { id: rid }
    } else if m == "tools/call"@ {
        RpcV::Call { id: rid, params: req.field("params"@) }
    } else {
        RpcV::Reply { doc: error_doc(rid, -32601i64 as i64, "no method "@ + debug_text(m)) }
    }
}

fn copy_at(j: &Json, key: &str) -> (r: Json)
    ensures
        r.v() == j.v().field(key@),
{
    match j.get(key) {
        Some(x) => x.copy(),
        None => Json::Null,
    }
}

/// What a request comes to.
pub fn rpc(req: &Json, version: &str) -> (r: Rpc)
    ensures
        r@ == rpc_of(req.v(), version@),
{
    let rid = copy_at(req, "id");
    let m = req.text_or_empty_at("method");
    let method = m.as_str();
    if same(method, "initialize") {
        let params = copy_at(req, "params");
        let proto = match params.text_at("protocolVersion") {
            Some(p) => p,
            None => "2025-06-18",
        };
        let mut tools = Json::object();
        put(&mut tools, "listChanged", Json::Bool(false));
        let mut caps = Json::object();
        put(&mut caps, "tools", Json::Obj(tools));
        let mut info = Json::object();
        put(&mut info, "name", Json::str("mentatd-serve"));
        put(&mut info, "version", Json::str(version));
        let mut d = Json::object();
        put(&mut d, "protocolVersion", Json::str(proto));
        put(&mut d, "capabilities", Json::Obj(caps));
        put(&mut d, "serverInfo", Json::Obj(info));
        Rpc::Reply { doc: reply(rid, Json::Obj(d)) }
    } else if starts_with(method, "notifications/") {
        Rpc::Silent
    } else if same(method, "ping") {
        Rpc::Reply { doc: reply(rid, Json::Obj(Json::object())) }
    } else if same(method, "tools/list") {
        Rpc::List { id: rid }
    } else if same(method, "tools/call") {
        Rpc::Call { id: rid, params: copy_at(req, "params") }
    } else {
        let mut e = "no method ".to_string();
        e.append(debug_quoted(method).as_str());
        Rpc::Reply { doc: error_reply(rid, -32601, e.as_str()) }
    }
}

/// What a batch of requests is answered: the replies as an array, or nothing
/// where none of them gets one.
pub fn batch_reply(out: Vec<Json>) -> (r: Option<Json>)
    ensures
        match r {
            Some(j) => out@.len() > 0 && j.v() == JsonV::Arr(metas(out@)),
            None => out@.len() == 0,
        },
{
    if out.len() == 0 {
        None
    } else {
        Some(Json::Arr(out))
    }
}

// ---------------------------------------------------------------------------
// The groups' lists
// ---------------------------------------------------------------------------
/// The groups of some that have a server of tools, each with its URL. There is no
/// probe to choose among candidates with, so the best-ranked one is the answer.
pub open spec fn tool_servers(table: Map<Seq<char>, GroupV>, keys: Seq<Seq<char>>) -> Seq<
    (Seq<char>, Seq<char>),
>
    decreases keys.len(),
{
    if keys.len() == 0 {
        Seq::empty()
    } else {
        let had = tool_servers(table, keys.drop_last());
        let e = table[keys.last()];
        match e.mcp {
            Some(m) => match best_of(m) {
                Some(u) => had.push((e.group, u)),
                None => had,
            },
            None => had,
        }
    }
}

/// The visible groups that have a server of tools, each with its URL. Health does
/// not matter here: the status server exists for when the engine is loading or
/// wedged.
pub fn mcp_groups(sh: &Shared, now: u64, local: &Vec<Net>) -> (r: Vec<(String, String)>)
    ensures
        text_pairs(r@) == ({
            let t = visible(sh@, now, local@);
            tool_servers(t, ordered(t.dom()))
        }),
{
    let table = group_table(sh, now, local);
    let ghost tv = table.deep_view();
    let ghost order = table.order();
    let n: usize = table.len();
    let mut out: Vec<(String, String)> = Vec::new();
    let mut i: usize = 0;
    proof {
        assert(tv.dom() =~= table@.dom());
        assert(order.take(0) =~= Seq::<Seq<char>>::empty());
        assert(text_pairs(out@) =~= Seq::<(Seq<char>, Seq<char>)>::empty());
    }
    while i < n
        invariant
            i <= n,
            n == order.len(),
            order == table.order(),
            tv == table.deep_view(),
            text_pairs(out@) == tool_servers(tv, order.take(i as int)),
        decreases n - i,
    {
        let e = table.val_at(i);
        proof {
            assert(order.take(i + 1).drop_last() =~= order.take(i as int));
            assert(order.take(i + 1).last() == order[i as int]);
            assert(tv[order[i as int]] == e.deep_view());
        }
        if let Some(m) = &e.mcp {
            if let Some(u) = m.best() {
                let ghost was = out@;
                out.push((e.group.clone(), u.to_string()));
                proof {
                    assert(text_pairs(out@) =~= text_pairs(was).push((e.group@, u@)));
                }
            }
        }
        i += 1;
    }
    proof {
        assert(order.take(order.len() as int) =~= order);
    }
    out
}

/// What a group's list is cached under.
pub open spec fn cache_key(group: Seq<char>, url: Seq<char>) -> Seq<char> {
    group + " "@ + url
}

/// Whether a cached list still stands. One that is empty or failed counts as a
/// miss, so a container that was still booting is asked again at once.
pub open spec fn cache_fresh(c: CachedV, now: u64, ttl: u64) -> bool {
    c.error is None && c.tools.len() > 0 && since(now, c.at) <= ttl
}

fn key_of(group: &str, url: &str) -> (r: String)
    ensures
        r@ == cache_key(group@, url@),
{
    let mut k = group.to_string();
    k.append(" ");
    k.append(url);
    k
}

fn is_fresh(c: &CachedTools, now: u64, ttl: u64) -> (r: bool)
    ensures
        r == cache_fresh(c.deep_view(), now, ttl),
{
    c.error.is_none() && c.tools.len() > 0 && elapsed(now, c.at) <= ttl
}

/// A group's list of tools, where a cached one still stands. Otherwise its server
/// is to be asked.
pub fn group_tools(sh: &Shared, group: &str, url: &str, now: u64) -> (r: Option<Vec<Json>>)
    ensures
        ({
            let k = cache_key(group@, url@);
            match r {
                Some(t) => sh@.tools.contains_key(k) && cache_fresh(
                    sh@.tools[k],
                    now,
                    sh@.cfg.tools_ttl,
                ) && metas(t@) == sh@.tools[k].tools,
                None => !(sh@.tools.contains_key(k) && cache_fresh(
                    sh@.tools[k],
                    now,
                    sh@.cfg.tools_ttl,
                )),
            }
        }),
{
    let k = key_of(group, url);
    match sh.tools.get(k.as_str()) {
        Some(c) => {
            proof {
                assert(sh@.tools[k@] == c.deep_view());
            }
            if is_fresh(c, now, sh.cfg.tools_ttl) {
                Some(copies(&c.tools))
            } else {
                None
            }
        },
        None => None,
    }
}

/// The request that asks a server for its tools.
pub fn list_request() -> (r: Json)
    ensures
        r.v() == JsonV::Obj(
            map![
                "jsonrpc"@ => JsonV::Str("2.0"@),
                "id"@ => JsonV::Uint(1),
                "method"@ => JsonV::Str("tools/list"@),
            ],
        ),
{
    let mut d = Json::object();
    put(&mut d, "jsonrpc", Json::str("2.0"));
    put(&mut d, "id", Json::Uint(1));
    put(&mut d, "method", Json::str("tools/list"));
    Json::Obj(d)
}

/// The tools a server's reply lists.
pub open spec fn tools_of(reply: JsonV) -> Seq<JsonV> {
    reply.field("result"@).field("tools"@).items()
}

/// What a cache holds of a server's reply.
pub open spec fn cached_reply(got: Result<JsonV, Seq<char>>, now: u64) -> CachedV {
    match got {
        Ok(v) => CachedV { at: now, tools: tools_of(v), error: None },
        Err(e) => CachedV { at: now, tools: Seq::empty(), error: Some(e) },
    }
}

/// A reply as a mathematical value.
pub open spec fn reply_view(got: Result<Json, String>) -> Result<JsonV, Seq<char>> {
    match got {
        Ok(v) => Ok(v.v()),
        Err(e) => Err(e@),
    }
}

/// Stores what a group's server replied, or that it did not, and gives back the
/// tools it listed. The containers already differ in what they expose, so the
/// list is read rather than assumed.
pub fn store_tools(
    sh: &mut Shared,
    group: &str,
    url: &str,
    got: &Result<Json, String>,
    now: u64,
) -> (r: Vec<Json>)
    ensures
        final(sh)@ == (SharedV {
            tools: old(sh)@.tools.insert(
                cache_key(group@, url@),
                cached_reply(reply_view(*got), now),
            ),
            ..old(sh)@
        }),
        metas(r@) == cached_reply(reply_view(*got), now).tools,
{
    let ghost s0 = sh@;
    let key = key_of(group, url);
    let none: Vec<Json> = Vec::new();
    proof {
        assert(metas(none@) =~= Seq::<JsonV>::empty());
    }
    let (tools, error): (Vec<Json>, Option<String>) = match got {
        Ok(v) => {
            let t = match v.get("result") {
                Some(res) => match res.items_at("tools") {
                    Some(a) => copies(a),
                    None => none,
                },
                None => none,
            };
            (t, None)
        },
        Err(e) => (none, Some(e.clone())),
    };
    proof {
        assert(metas(tools@) =~= cached_reply(reply_view(*got), now).tools);
    }
    let out = copies(&tools);
    let c = CachedTools { at: now, tools, error };
    let ghost cv = c.deep_view();
    let ghost kv = key@;
    sh.tools.insert(key, c);
    proof {
        assert(sh@.tools =~= s0.tools.insert(kv, cv));
    }
    out
}

// ---------------------------------------------------------------------------
// The merge
// ---------------------------------------------------------------------------
/// One tool as the groups offering it describe it. The first group's words stand
/// for all of them: a difference between them is version skew.
#[derive(Debug)]
pub struct Merged {
    pub description: String,
    /// The schema of its arguments, an object.
    pub schema: Dict<Json>,
    /// Every group offering the tool, in the order of the table.
    pub groups: Vec<String>,
}

/// A `Merged` as a mathematical value.
pub struct MergedV {
    pub description: Seq<char>,
    pub schema: Map<Seq<char>, JsonV>,
    pub groups: Seq<Seq<char>>,
}

impl DeepView for Merged {
    type V = MergedV;

    open spec fn deep_view(&self) -> MergedV {
        MergedV {
            description: self.description@,
            schema: self.schema.deep_view(),
            groups: texts(self.groups@),
        }
    }
}

/// The tools of one group.
#[derive(Debug)]
pub struct GroupTools {
    pub group: String,
    pub tools: Vec<Json>,
}

/// Lists as mathematical values.
pub open spec fn list_views(v: Seq<GroupTools>) -> Seq<(Seq<char>, Seq<JsonV>)> {
    Seq::new(v.len(), |i: int| (v[i].group@, metas(v[i].tools@)))
}

/// The groups that offer a tool, with one more that does. A group that lists the
/// tool twice is one group.
pub open spec fn with_group(groups: Seq<Seq<char>>, group: Seq<char>) -> Seq<Seq<char>> {
    if groups.len() > 0 && groups.last() == group {
        groups
    } else {
        groups.push(group)
    }
}

/// The merge with one more tool of a group.
pub open spec fn merged_tool(
    out: Map<Seq<char>, MergedV>,
    group: Seq<char>,
    t: JsonV,
) -> Map<Seq<char>, MergedV> {
    match t.field("name"@).text() {
        Some(name) => if name == NATIVE@ {
            out
        } else if out.contains_key(name) {
            out.insert(name, MergedV { groups: with_group(out[name].groups, group), ..out[name] })
        } else {
            out.insert(
                name,
                MergedV {
                    description: t.field("description"@).text_or_empty(),
                    schema: match t.field("inputSchema"@) {
                        JsonV::Obj(m) => m,
                        _ => map![
                            "type"@ => JsonV::Str("object"@),
                            "properties"@ => JsonV::Obj(Map::empty()),
                        ],
                    },
                    groups: seq![group],
                },
            )
        },
        None => out,
    }
}

/// The merge with some more tools of a group.
pub open spec fn merged_tools(
    out: Map<Seq<char>, MergedV>,
    group: Seq<char>,
    tools: Seq<JsonV>,
) -> Map<Seq<char>, MergedV>
    decreases tools.len(),
{
    if tools.len() == 0 {
        out
    } else {
        merged_tool(merged_tools(out, group, tools.drop_last()), group, tools.last())
    }
}

/// The tools of some groups by name.
pub open spec fn merged(v: Seq<(Seq<char>, Seq<JsonV>)>) -> Map<Seq<char>, MergedV>
    decreases v.len(),
{
    if v.len() == 0 {
        Map::empty()
    } else {
        merged_tools(merged(v.drop_last()), v.last().0, v.last().1)
    }
}

fn merge_tool(out: &mut Dict<Merged>, group: &str, t: &Json)
    ensures
        final(out).deep_view() == merged_tool(old(out).deep_view(), group@, t.v()),
{
    let ghost had = out.deep_view();
    let name = match t.text_at("name") {
        Some(n) => n,
        None => return,
    };
    if same(name, NATIVE) {
        return;
    }
    if let Some(m) = out.get_mut(name) {
        let ghost was = texts(m.groups@);
        let n: usize = m.groups.len();
        if n == 0 || !same(m.groups[n - 1].as_str(), group) {
            m.groups.push(group.to_string());
            proof {
                assert(texts(m.groups@) =~= was.push(group@));
            }
        }
        proof {
            assert(texts(m.groups@) == with_group(was, group@));
        }
        let ghost m1 = m.deep_view();
        proof {
            assert(out.deep_view() =~= had.insert(name@, m1));
        }
        return;
    }
    let schema: Dict<Json> = match copy_at(t, "inputSchema") {
        Json::Obj(d) => d,
        _ => {
            let mut d = Json::object();
            put(&mut d, "type", Json::str("object"));
            put(&mut d, "properties", Json::Obj(Json::object()));
            proof {
                assert(d.deep_view() =~= map![
                    "type"@ => JsonV::Str("object"@),
                    "properties"@ => JsonV::Obj(Map::empty()),
                ]);
            }
            d
        },
    };
    let mut groups: Vec<String> = Vec::new();
    groups.push(group.to_string());
    proof {
        assert(texts(groups@) =~= seq![group@]);
    }
    let m = Merged { description: t.text_or_empty_at("description"), schema, groups };
    let ghost mv = m.deep_view();
    out.insert(name.to_string(), m);
    proof {
        assert(out.deep_view() =~= had.insert(name@, mv));
    }
}

/// Every group's tools by name, merged across groups.
pub fn merge(lists: &Vec<GroupTools>) -> (r: Dict<Merged>)
    ensures
        r.deep_view() == merged(list_views(lists@)),
{
    let ghost all = list_views(lists@);
    let mut out: Dict<Merged> = Dict::new();
    let mut i: usize = 0;
    proof {
        assert(out.deep_view() =~= Map::<Seq<char>, MergedV>::empty());
    }
    while i < lists.len()
        invariant
            i <= lists@.len(),
            all == list_views(lists@),
            out.deep_view() == merged(all.take(i as int)),
        decreases lists@.len() - i,
    {
        let l = &lists[i];
        let ghost tools = metas(l.tools@);
        let ghost start = out.deep_view();
        proof {
            assert(all.take(i + 1).drop_last() =~= all.take(i as int));
            assert(all.take(i + 1).last() == (l.group@, tools));
        }
        let mut j: usize = 0;
        while j < l.tools.len()
            invariant
                j <= l.tools@.len(),
                tools == metas(l.tools@),
                out.deep_view() == merged_tools(start, l.group@, tools.take(j as int)),
            decreases l.tools@.len() - j,
        {
            proof {
                assert(tools.take(j + 1).drop_last() =~= tools.take(j as int));
                assert(tools.take(j + 1).last() == l.tools@[j as int].v());
            }
            merge_tool(&mut out, l.group.as_str(), &l.tools[j]);
            j += 1;
        }
        proof {
            assert(tools.take(tools.len() as int) =~= tools);
        }
        i += 1;
    }
    proof {
        assert(all.take(all.len() as int) =~= all);
    }
    out
}

/// What the merge makes of the schema's `properties`.
pub open spec fn properties_of(schema: Map<Seq<char>, JsonV>) -> Map<Seq<char>, JsonV> {
    if schema.contains_key("properties"@) {
        match schema["properties"@] {
            JsonV::Obj(p) => p,
            _ => Map::empty(),
        }
    } else {
        Map::empty()
    }
}

/// The argument that names a group.
pub open spec fn group_arg(groups: Seq<Seq<char>>) -> JsonV {
    JsonV::Obj(
        map![
            "type"@ => JsonV::Str("string"@),
            "enum"@ => str_array(groups),
            "description"@ => JsonV::Str(
                "Which group runs this tool. Offered by: "@ + joined(groups, ", "@) + "."@,
            ),
        ],
    )
}

/// A tool's schema with the argument that names a group.
pub open spec fn grouped_schema(m: MergedV) -> Map<Seq<char>, JsonV> {
    let typed = if m.schema.contains_key("type"@) {
        m.schema
    } else {
        m.schema.insert("type"@, JsonV::Str("object"@))
    };
    let full = typed.insert(
        "properties"@,
        JsonV::Obj(properties_of(typed).insert(GROUP_ARG@, group_arg(m.groups))),
    );
    if m.groups.len() > 1 {
        full.insert(
            "required"@,
            JsonV::Arr(
                (if full.contains_key("required"@) {
                    full["required"@].items()
                } else {
                    Seq::empty()
                }).push(JsonV::Str(GROUP_ARG@)),
            ),
        )
    } else {
        full
    }
}

fn copy_dict(d: &Dict<Json>) -> (r: Dict<Json>)
    ensures
        r.deep_view() == d.deep_view(),
{
    let mut vals: Vec<Json> = Vec::new();
    let n: usize = d.len();
    let ghost order = d.order();
    let mut i: usize = 0;
    while i < n
        invariant
            i <= n,
            n == order.len(),
            order == d.order(),
            vals@.len() == i,
            forall|j: int| 0 <= j < i ==> (#[trigger] vals@[j]).v() == d@[order[j]].v(),
        decreases n - i,
    {
        vals.push(d.val_at(i).copy());
        i += 1;
    }
    let ghost vs = vals@;
    let out = d.with_values(vals);
    proof {
        assert forall|k: Seq<char>| d@.contains_key(k) implies out@[k].v() == d@[k].v() by {
            assert(d@.dom().contains(k));
            assert(order.contains(k));
            let j = order.index_of(k);
            assert(order[j] == k);
            assert(vs[j].v() == d@[order[j]].v());
        }
        assert(out.deep_view() =~= d.deep_view());
    }
    out
}

/// The tool's own schema with the argument that names a group.
///
/// The argument is required when more than one group offers the tool: picking one
/// for the caller would run a management action somewhere it did not ask for. A
/// tool whose `properties` is missing or malformed still gets it.
pub fn with_group_arg(m: &Merged) -> (r: Json)
    ensures
        r.v() == JsonV::Obj(grouped_schema(m.deep_view())),
{
    let mut obj = copy_dict(&m.schema);
    if !obj.contains("type") {
        put(&mut obj, "type", Json::str("object"));
    }
    let ghost typed = obj.deep_view();
    let mut props: Dict<Json> = match obj.get("properties") {
        Some(p) => {
            proof {
                assert(typed["properties"@] == p.v());
            }
            match p {
                Json::Obj(d) => copy_dict(d),
                _ => Json::object(),
            }
        },
        None => Json::object(),
    };
    let mut about = "Which group runs this tool. Offered by: ".to_string();
    about.append(join(&m.groups, ", ").as_str());
    about.append(".");
    let mut arg = Json::object();
    put(&mut arg, "type", Json::str("string"));
    put(&mut arg, "enum", str_list(&m.groups));
    put(&mut arg, "description", Json::str(about.as_str()));
    put(&mut props, GROUP_ARG, Json::Obj(arg));
    put(&mut obj, "properties", Json::Obj(props));
    if m.groups.len() > 1 {
        let ghost full = obj.deep_view();
        let mut req: Vec<Json> = match obj.get("required") {
            Some(r) => {
                proof {
                    assert(full["required"@] == r.v());
                }
                match r {
                    Json::Arr(a) => copies(a),
                    _ => Vec::new(),
                }
            },
            None => Vec::new(),
        };
        let ghost was = metas(req@);
        proof {
            assert(was =~= (if full.contains_key("required"@) {
                full["required"@].items()
            } else {
                Seq::empty()
            }));
        }
        let g = Json::str(GROUP_ARG);
        let ghost gv = g.v();
        req.push(g);
        proof {
            assert(metas(req@) =~= was.push(gv));
        }
        put(&mut obj, "required", Json::Arr(req));
    }
    Json::Obj(obj)
}

/// A tool offered by several groups asks its caller to name one.
pub proof fn law_a_shared_tool_requires_a_group(m: MergedV)
    requires
        m.groups.len() > 1,
    ensures
        grouped_schema(m).contains_key("required"@),
        grouped_schema(m)["required"@].items().contains(JsonV::Str(GROUP_ARG@)),
{
    let items = grouped_schema(m)["required"@].items();
    assert(items.last() == JsonV::Str(GROUP_ARG@));
    assert(items[items.len() - 1] == items.last());
}

/// Whether each of some groups stands once in a list.
pub open spec fn once_each(groups: Seq<Seq<char>>) -> bool {
    forall|i: int, j: int| 0 <= i < j < groups.len() ==> groups[i] != groups[j]
}

/// Whether the groups of each tool are some of the first `n` that were merged, each
/// once, and in that order.
spec fn in_turn(
    out: Map<Seq<char>, MergedV>,
    v: Seq<(Seq<char>, Seq<JsonV>)>,
    n: int,
) -> bool {
    forall|k: Seq<char>|
        #![trigger out[k]]
        out.contains_key(k) ==> once_each(out[k].groups) && forall|i: int|
            0 <= i < out[k].groups.len() ==> exists|j: int|
                0 <= j < n && (#[trigger] v[j]).0 == #[trigger] out[k].groups[i]
}

proof fn lemma_tools_in_turn(
    out: Map<Seq<char>, MergedV>,
    v: Seq<(Seq<char>, Seq<JsonV>)>,
    n: int,
    tools: Seq<JsonV>,
)
    requires
        0 <= n < v.len(),
        forall|i: int, j: int| 0 <= i < j < v.len() ==> v[i].0 != v[j].0,
        in_turn(out, v, n),
    ensures
        in_turn(merged_tools(out, v[n].0, tools), v, n + 1),
        forall|k: Seq<char>|
            #![trigger merged_tools(out, v[n].0, tools)[k]]
            merged_tools(out, v[n].0, tools).contains_key(k) ==> ({
                let g = merged_tools(out, v[n].0, tools)[k].groups;
                forall|i: int| 0 <= i < g.len() - 1 ==> #[trigger] g[i] != v[n].0
            }),
    decreases tools.len(),
{
    let group = v[n].0;
    if tools.len() == 0 {
        assert forall|k: Seq<char>|
            #![trigger out[k]]
            out.contains_key(k) implies (once_each(out[k].groups) && forall|i: int|
            0 <= i < out[k].groups.len() ==> exists|j: int|
                0 <= j < n + 1 && (#[trigger] v[j]).0 == #[trigger] out[k].groups[i]) && (forall|
            i: int,
        |
            0 <= i < out[k].groups.len() - 1 ==> #[trigger] out[k].groups[i] != group) by {
            assert forall|i: int| 0 <= i < out[k].groups.len() implies (exists|j: int|
                0 <= j < n + 1 && (#[trigger] v[j]).0 == #[trigger] out[k].groups[i])
                && out[k].groups[i] != group by {
                let j = choose|j: int|
                    0 <= j < n && (#[trigger] v[j]).0 == out[k].groups[i];
                assert(0 <= j < n + 1);
                assert(v[j].0 != v[n].0);
            }
        }
    } else {
        lemma_tools_in_turn(out, v, n, tools.drop_last());
        let had = merged_tools(out, group, tools.drop_last());
        let now = merged_tools(out, group, tools);
        assert forall|k: Seq<char>|
            #![trigger now[k]]
            now.contains_key(k) implies (once_each(now[k].groups) && forall|i: int|
            0 <= i < now[k].groups.len() ==> exists|j: int|
                0 <= j < n + 1 && (#[trigger] v[j]).0 == #[trigger] now[k].groups[i]) && (forall|
            i: int,
        |
            0 <= i < now[k].groups.len() - 1 ==> #[trigger] now[k].groups[i] != group) by {
            assert(v[n].0 == group);
            if had.contains_key(k) {
                let g = had[k].groups;
                let h = now[k].groups;
                assert(h == g || (h == g.push(group) && (g.len() == 0 || g.last() != group)));
                if h != g {
                    assert forall|i: int| 0 <= i < g.len() implies #[trigger] g[i] != group by {}
                    assert forall|i: int| 0 <= i < h.len() implies exists|j: int|
                        0 <= j < n + 1 && (#[trigger] v[j]).0 == #[trigger] h[i] by {
                        if i < g.len() {
                            assert(h[i] == g[i]);
                        }
                    }
                    assert forall|i: int, j: int| 0 <= i < j < h.len() implies h[i] != h[j] by {
                        assert(h[i] == g[i]);
                        if j < g.len() {
                            assert(h[j] == g[j]);
                        }
                    }
                }
            } else {
                assert(now[k].groups =~= seq![group]);
            }
        }
    }
}

proof fn lemma_merged_in_turn(v: Seq<(Seq<char>, Seq<JsonV>)>, n: nat)
    requires
        n <= v.len(),
        forall|i: int, j: int| 0 <= i < j < v.len() ==> v[i].0 != v[j].0,
    ensures
        in_turn(merged(v.take(n as int)), v, n as int),
    decreases n,
{
    if n > 0 {
        lemma_merged_in_turn(v, (n - 1) as nat);
        assert(v.take(n as int).drop_last() =~= v.take(n - 1));
        lemma_tools_in_turn(merged(v.take(n - 1)), v, n - 1, v[n - 1].1);
    }
}

/// A tool asks for a group only where more than one group offers it: each group
/// counts once, however often it lists the tool.
pub proof fn law_a_group_offers_a_tool_once(v: Seq<(Seq<char>, Seq<JsonV>)>, name: Seq<char>)
    requires
        forall|i: int, j: int| 0 <= i < j < v.len() ==> v[i].0 != v[j].0,
        merged(v).contains_key(name),
    ensures
        once_each(merged(v)[name].groups),
{
    lemma_merged_in_turn(v, v.len());
    assert(v.take(v.len() as int) =~= v);
}

/// What the list says of this server's own tool.
pub open spec fn native_row() -> JsonV {
    JsonV::Obj(
        map![
            "name"@ => JsonV::Str(NATIVE@),
            "description"@ => JsonV::Str(
                "What mentatd-serve can route right now: watched daemons, each group's health and endpoints, and the model table."@,
            ),
            "inputSchema"@ => JsonV::Obj(
                map![
                    "type"@ => JsonV::Str("object"@),
                    "properties"@ => JsonV::Obj(Map::empty()),
                ],
            ),
        ],
    )
}

/// What the list says of a merged tool.
pub open spec fn tool_row(name: Seq<char>, m: MergedV) -> JsonV {
    JsonV::Obj(
        map![
            "name"@ => JsonV::Str(name),
            "description"@ => JsonV::Str(m.description),
            "inputSchema"@ => JsonV::Obj(grouped_schema(m)),
        ],
    )
}

/// The list of tools: this server's own, and the merged ones by name.
pub open spec fn tool_rows(m: Map<Seq<char>, MergedV>) -> Seq<JsonV> {
    seq![native_row()] + ordered(m.dom()).map_values(|k: Seq<char>| tool_row(k, m[k]))
}

/// The list of tools: this server's own, and the merged ones by name.
pub fn tool_list(merged: &Dict<Merged>) -> (r: Vec<Json>)
    ensures
        metas(r@) == tool_rows(merged.deep_view()),
{
    let mut schema = Json::object();
    put(&mut schema, "type", Json::str("object"));
    put(&mut schema, "properties", Json::Obj(Json::object()));
    let mut d = Json::object();
    put(&mut d, "name", Json::str(NATIVE));
    put(
        &mut d,
        "description",
        Json::str(
            "What mentatd-serve can route right now: watched daemons, each group's health and endpoints, and the model table.",
        ),
    );
    put(&mut d, "inputSchema", Json::Obj(schema));
    let mut out: Vec<Json> = Vec::new();
    out.push(Json::Obj(d));
    let ghost mv = merged.deep_view();
    let ghost order = merged.order();
    let n: usize = merged.len();
    let mut i: usize = 0;
    proof {
        assert(mv.dom() =~= merged@.dom());
        assert(out@[0].v() == native_row());
    }
    while i < n
        invariant
            i <= n,
            n == order.len(),
            order == merged.order(),
            mv == merged.deep_view(),
            out@.len() == i + 1,
            out@[0].v() == native_row(),
            forall|j: int|
                0 < j <= i ==> (#[trigger] out@[j]).v() == tool_row(order[j - 1], mv[order[j - 1]]),
        decreases n - i,
    {
        let m = merged.val_at(i);
        let name = merged.key_at(i);
        proof {
            assert(mv[order[i as int]] == m.deep_view());
        }
        let mut d = Json::object();
        put(&mut d, "name", Json::str(name.as_str()));
        put(&mut d, "description", Json::str(m.description.as_str()));
        put(&mut d, "inputSchema", with_group_arg(m));
        out.push(Json::Obj(d));
        i += 1;
    }
    proof {
        assert(metas(out@) =~= tool_rows(mv));
    }
    out
}

/// What a `tools/list` is answered.
pub fn list_reply(rid: &Json, tools: Vec<Json>) -> (r: Json)
    ensures
        r.v() == result_doc(rid.v(), JsonV::Obj(map!["tools"@ => JsonV::Arr(metas(tools@))])),
{
    let mut d = Json::object();
    put(&mut d, "tools", Json::Arr(tools));
    reply(rid.copy(), Json::Obj(d))
}

// ---------------------------------------------------------------------------
// Calls
// ---------------------------------------------------------------------------
/// Names for a message. An empty list reads as "none".
pub open spec fn named_list(names: Seq<Seq<char>>) -> Seq<char> {
    if joined(names, ", "@).len() == 0 {
        "none"@
    } else {
        joined(names, ", "@)
    }
}

/// Names for an error message. An empty list reads as "none", since a caller
/// cannot tell an empty list from a mistake.
pub fn list_or_none(names: &Vec<String>) -> (r: String)
    ensures
        r@ == named_list(texts(names@)),
{
    let all = join(names, ", ");
    if all.as_str().is_empty() {
        "none".to_string()
    } else {
        all
    }
}

/// What a call comes to.
#[derive(Debug)]
pub enum CallPlan {
    /// This server's own tool.
    Native,
    /// It is answered with this.
    Reply { doc: Json },
    /// It goes to a group's server.
    Forward { group: String, url: String, body: Json },
}

/// What a call comes to, as a mathematical value.
pub enum CallPlanV {
    Native,
    Reply { doc: JsonV },
    Forward { group: Seq<char>, url: Seq<char>, body: JsonV },
}

impl View for CallPlan {
    type V = CallPlanV;

    open spec fn view(&self) -> CallPlanV {
        match self {
            CallPlan::Native => CallPlanV::Native,
            CallPlan::Reply { doc } => CallPlanV::Reply { doc: doc.v() },
            CallPlan::Forward { group, url, body } => CallPlanV::Forward {
                group: group@,
                url: url@,
                body: body.v(),
            },
        }
    }
}

/// The group a call runs in, or why none can be told. A `__group` that is no text
/// reads the same as none.
pub open spec fn chosen_group(
    m: MergedV,
    name: Seq<char>,
    asked: Option<Seq<char>>,
) -> Result<Seq<char>, Seq<char>> {
    match asked {
        Some(g) => if m.groups.contains(g) {
            Ok(g)
        } else {
            Err(
                "group "@ + debug_text(g) + " does not offer "@ + debug_text(name)
                    + ". Groups that do: "@ + named_list(m.groups),
            )
        },
        None => if m.groups.len() == 1 {
            Ok(m.groups[0])
        } else {
            Err(
                debug_text(name) + " runs in more than one group. Pass "@ + debug_text(GROUP_ARG@)
                    + ": "@ + named_list(m.groups),
            )
        },
    }
}

/// What is forwarded to a group's server.
pub open spec fn forwarded(rid: JsonV, name: Seq<char>, args: Map<Seq<char>, JsonV>) -> JsonV {
    JsonV::Obj(
        map![
            "jsonrpc"@ => JsonV::Str("2.0"@),
            "id"@ => rid,
            "method"@ => JsonV::Str("tools/call"@),
            "params"@ => JsonV::Obj(
                map!["name"@ => JsonV::Str(name), "arguments"@ => JsonV::Obj(args)],
            ),
        ],
    )
}

/// What a call comes to.
pub open spec fn planned(
    table: Map<Seq<char>, GroupV>,
    m: Map<Seq<char>, MergedV>,
    rid: JsonV,
    params: JsonV,
) -> CallPlanV {
    let name = params.field("name"@).text_or_empty();
    let args = params.field("arguments"@).fields();
    if name == NATIVE@ {
        CallPlanV::Native
    } else if !m.contains_key(name) {
        CallPlanV::Reply {
            doc: result_doc(
                rid,
                text_result(
                    "no tool "@ + debug_text(name) + ". Tools right now: "@ + named_list(
                        seq![NATIVE@] + ordered(m.dom()),
                    ),
                    true,
                ),
            ),
        }
    } else {
        let asked = if args.contains_key(GROUP_ARG@) {
            args[GROUP_ARG@].text()
        } else {
            None
        };
        match chosen_group(m[name], name, asked) {
            Err(why) => CallPlanV::Reply { doc: result_doc(rid, text_result(why, true)) },
            Ok(group) => match server_of(table, group) {
                Some(url) => CallPlanV::Forward {
                    group,
                    url,
                    body: forwarded(rid, name, args.remove(GROUP_ARG@)),
                },
                None => CallPlanV::Reply {
                    doc: result_doc(
                        rid,
                        text_result(
                            "group "@ + debug_text(group) + " has no MCP endpoint"@,
                            true,
                        ),
                    ),
                },
            },
        }
    }
}

/// The URL of a group's server of tools.
pub open spec fn server_of(table: Map<Seq<char>, GroupV>, group: Seq<char>) -> Option<Seq<char>> {
    if table.contains_key(group) {
        match table[group].mcp {
            Some(x) => best_of(x),
            None => None,
        }
    } else {
        None
    }
}

fn choose_group(m: &Merged, name: &str, asked: Option<&str>) -> (r: Result<String, String>)
    ensures
        match r {
            Ok(g) => chosen_group(
                m.deep_view(),
                name@,
                match asked {
                    Some(a) => Some(a@),
                    None => None,
                },
            ) == Ok::<Seq<char>, Seq<char>>(g@),
            Err(e) => chosen_group(
                m.deep_view(),
                name@,
                match asked {
                    Some(a) => Some(a@),
                    None => None,
                },
            ) == Err::<Seq<char>, Seq<char>>(e@),
        },
{
    match asked {
        Some(g) => if listed(&m.groups, g) {
            Ok(g.to_string())
        } else {
            let mut e = "group ".to_string();
            e.append(debug_quoted(g).as_str());
            e.append(" does not offer ");
            e.append(debug_quoted(name).as_str());
            e.append(". Groups that do: ");
            e.append(list_or_none(&m.groups).as_str());
            Err(e)
        },
        None => if m.groups.len() == 1 {
            proof {
                assert(texts(m.groups@)[0] == m.groups@[0]@);
            }
            Ok(m.groups[0].clone())
        } else {
            let mut e = debug_quoted(name);
            e.append(" runs in more than one group. Pass ");
            e.append(debug_quoted(GROUP_ARG).as_str());
            e.append(": ");
            e.append(list_or_none(&m.groups).as_str());
            Err(e)
        },
    }
}

fn find_server(sh: &Shared, group: &str, now: u64, local: &Vec<Net>) -> (r: Option<String>)
    ensures
        opt_text(r) == server_of(visible(sh@, now, local@), group@),
{
    let table = group_table(sh, now, local);
    let ghost tv = table.deep_view();
    match table.get(group) {
        Some(e) => {
            proof {
                assert(tv[group@] == e.deep_view());
            }
            match &e.mcp {
                Some(m) => match m.best() {
                    Some(u) => Some(u.to_string()),
                    None => None,
                },
                None => None,
            }
        },
        None => None,
    }
}

/// What a call comes to, against the same merge the listing was built from: a
/// name that was listed resolves the same way here. The group's own tool has no
/// argument that names a group, so that one is taken out of what is forwarded.
pub fn call(
    sh: &Shared,
    merged: &Dict<Merged>,
    rid: &Json,
    params: &Json,
    now: u64,
    local: &Vec<Net>,
) -> (r: CallPlan)
    ensures
        r@ == planned(visible(sh@, now, local@), merged.deep_view(), rid.v(), params.v()),
{
    let name = params.text_or_empty_at("name");
    if same(name.as_str(), NATIVE) {
        return CallPlan::Native;
    }
    let ghost mv = merged.deep_view();
    let m = match merged.get(name.as_str()) {
        Some(m) => m,
        None => {
            let mut names: Vec<String> = Vec::new();
            names.push(NATIVE.to_string());
            let keys = merged.keys();
            let ghost head = texts(names@);
            let mut i: usize = 0;
            proof {
                assert(mv.dom() =~= merged@.dom());
                assert(head =~= seq![NATIVE@]);
                assert(head + texts(keys@).take(0) =~= head);
            }
            while i < keys.len()
                invariant
                    i <= keys@.len(),
                    texts(names@) == head + texts(keys@).take(i as int),
                decreases keys@.len() - i,
            {
                let ghost was = texts(names@);
                names.push(keys[i].clone());
                proof {
                    assert(texts(names@) =~= was.push(keys@[i as int]@));
                    assert(texts(names@) =~= head + texts(keys@).take(i + 1));
                }
                i += 1;
            }
            proof {
                assert(texts(keys@).take(keys@.len() as int) =~= texts(keys@));
            }
            let mut e = "no tool ".to_string();
            e.append(debug_quoted(name.as_str()).as_str());
            e.append(". Tools right now: ");
            e.append(list_or_none(&names).as_str());
            return CallPlan::Reply { doc: tool_err(rid, e.as_str()) };
        },
    };
    proof {
        assert(mv[name@] == m.deep_view());
    }
    let ghost av = params.v().field("arguments"@).fields();
    let mut args: Dict<Json> = match params.fields_at("arguments") {
        Some(d) => copy_dict(d),
        None => Json::object(),
    };
    proof {
        assert(args.deep_view() =~= av);
    }
    let asked = args.remove(GROUP_ARG);
    proof {
        assert(args.deep_view() =~= av.remove(GROUP_ARG@));
    }
    let wanted = match &asked {
        Some(j) => {
            proof {
                assert(av[GROUP_ARG@] == j.v());
            }
            j.as_str()
        },
        None => None,
    };
    let group = match choose_group(m, name.as_str(), wanted) {
        Ok(g) => g,
        Err(why) => return CallPlan::Reply { doc: tool_err(rid, why.as_str()) },
    };
    let url = match find_server(sh, group.as_str(), now, local) {
        Some(u) => u,
        None => {
            let mut e = "group ".to_string();
            e.append(debug_quoted(group.as_str()).as_str());
            e.append(" has no MCP endpoint");
            return CallPlan::Reply { doc: tool_err(rid, e.as_str()) };
        },
    };
    let mut p = Json::object();
    put(&mut p, "name", Json::str(name.as_str()));
    put(&mut p, "arguments", Json::Obj(args));
    let mut d = Json::object();
    put(&mut d, "jsonrpc", Json::str("2.0"));
    put(&mut d, "id", rid.copy());
    put(&mut d, "method", Json::str("tools/call"));
    put(&mut d, "params", Json::Obj(p));
    CallPlan::Forward { group, url, body: Json::Obj(d) }
}

/// What a group's server replied, as the caller gets it.
pub open spec fn answered(
    rid: JsonV,
    group: Seq<char>,
    got: Result<JsonV, Seq<char>>,
) -> JsonV {
    match got {
        Ok(v) => if v.has("result"@) || v.has("error"@) {
            v
        } else {
            result_doc(
                rid,
                text_result(
                    group + " replied with neither result nor error: "@ + shown(v),
                    true,
                ),
            )
        },
        Err(e) => result_doc(rid, text_result(group + " did not answer: "@ + e, true)),
    }
}

/// What a group's server replied, as the caller gets it.
pub fn call_answered(rid: &Json, group: &str, got: Result<Json, String>) -> (r: Json)
    ensures
        r.v() == answered(rid.v(), group@, reply_view(got)),
{
    match got {
        Ok(v) => {
            if v.get("result").is_some() || v.get("error").is_some() {
                return v;
            }
            let mut e = group.to_string();
            e.append(" replied with neither result nor error: ");
            e.append(show(&v).as_str());
            tool_err(rid, e.as_str())
        },
        Err(err) => {
            let mut e = group.to_string();
            e.append(" did not answer: ");
            e.append(err.as_str());
            tool_err(rid, e.as_str())
        },
    }
}

/// A call runs in a group that offers the tool, and in the one that was named
/// where one was: never somewhere its caller did not ask for.
pub proof fn law_a_call_runs_where_it_was_asked(
    m: MergedV,
    name: Seq<char>,
    asked: Option<Seq<char>>,
)
    ensures
        chosen_group(m, name, asked) matches Ok(g) ==> {
            &&& m.groups.contains(g)
            &&& asked is Some ==> asked == Some(g)
            &&& asked is None ==> m.groups.len() == 1
        },
{
    if asked is None && m.groups.len() == 1 {
        assert(m.groups.contains(m.groups[0]));
    }
}

// ---------------------------------------------------------------------------
// The status page
// ---------------------------------------------------------------------------
/// The names of some tools.
pub open spec fn tool_names(v: Seq<JsonV>) -> Seq<Seq<char>>
    decreases v.len(),
{
    if v.len() == 0 {
        Seq::empty()
    } else {
        let had = tool_names(v.drop_last());
        match v.last().field("name"@).text() {
            Some(n) => had.push(n),
            None => had,
        }
    }
}

/// A group's row on the status page. `tools` is null until a list has been read,
/// and `error` is the last failure.
pub open spec fn page_row(group: Seq<char>, cached: Option<CachedV>) -> JsonV {
    JsonV::Obj(
        map![
            "group"@ => JsonV::Str(group),
            "tools"@ => match cached {
                Some(c) => if c.error is None {
                    str_array(tool_names(c.tools))
                } else {
                    JsonV::Null
                },
                None => JsonV::Null,
            },
            "error"@ => match cached {
                Some(c) => opt_str(c.error),
                None => JsonV::Null,
            },
        ],
    )
}

/// What is cached under a key.
pub open spec fn cached_at(s: SharedV, key: Seq<char>) -> Option<CachedV> {
    if s.tools.contains_key(key) {
        Some(s.tools[key])
    } else {
        None
    }
}

/// Whether the list of a group is to be read.
pub open spec fn fetch_due(s: SharedV, key: Seq<char>, fetching: Set<Seq<char>>, now: u64) -> bool {
    !(s.tools.contains_key(key) && cache_fresh(s.tools[key], now, s.cfg.tools_ttl))
        && !fetching.contains(key)
}

/// The lists being read after the page was built for some groups, and those to
/// be read.
pub open spec fn page_fetches(
    s: SharedV,
    servers: Seq<(Seq<char>, Seq<char>)>,
    now: u64,
) -> (Set<Seq<char>>, Seq<(Seq<char>, Seq<char>)>)
    decreases servers.len(),
{
    if servers.len() == 0 {
        (s.tools_fetching, Seq::empty())
    } else {
        let (f, asks) = page_fetches(s, servers.drop_last(), now);
        let (g, u) = servers.last();
        if fetch_due(s, cache_key(g, u), f, now) {
            (f.insert(cache_key(g, u)), asks.push((g, u)))
        } else {
            (f, asks)
        }
    }
}

fn names_json(tools: &Vec<Json>) -> (r: Json)
    ensures
        r.v() == str_array(tool_names(metas(tools@))),
{
    let ghost all = metas(tools@);
    let mut out: Vec<String> = Vec::new();
    let mut i: usize = 0;
    proof {
        assert(texts(out@) =~= Seq::<Seq<char>>::empty());
    }
    while i < tools.len()
        invariant
            i <= tools@.len(),
            all == metas(tools@),
            texts(out@) == tool_names(all.take(i as int)),
        decreases tools@.len() - i,
    {
        proof {
            assert(all.take(i + 1).drop_last() =~= all.take(i as int));
            assert(all.take(i + 1).last() == tools@[i as int].v());
        }
        if let Some(n) = tools[i].text_at("name") {
            let ghost was = out@;
            out.push(n.to_string());
            proof {
                assert(texts(out@) =~= texts(was).push(n@));
            }
        }
        i += 1;
    }
    proof {
        assert(all.take(all.len() as int) =~= all);
    }
    str_list(&out)
}

fn page_entry(group: &str, cached: Option<&CachedTools>) -> (r: Json)
    ensures
        r.v() == page_row(
            group@,
            match cached {
                Some(c) => Some(c.deep_view()),
                None => None,
            },
        ),
{
    let (tools, error): (Json, Json) = match cached {
        Some(c) => match &c.error {
            None => (names_json(&c.tools), Json::Null),
            Some(e) => (Json::Null, Json::str(e.as_str())),
        },
        None => (Json::Null, Json::Null),
    };
    let mut d = Json::object();
    put(&mut d, "group", Json::str(group));
    put(&mut d, "tools", tools);
    put(&mut d, "error", error);
    Json::Obj(d)
}

/// Each group's server of tools for the status page, and the groups whose list
/// is to be read in the background. The page reads the cache and never waits on
/// a container.
pub fn page_view(sh: &mut Shared, now: u64, local: &Vec<Net>) -> (r: (
    Vec<Json>,
    Vec<(String, String)>,
))
    ensures
        ({
            let t = visible(old(sh)@, now, local@);
            let servers = tool_servers(t, ordered(t.dom()));
            let (f, asks) = page_fetches(old(sh)@, servers, now);
            &&& metas(r.0@) == servers.map_values(
                |x: (Seq<char>, Seq<char>)|
                    page_row(x.0, cached_at(old(sh)@, cache_key(x.0, x.1))),
            )
            &&& text_pairs(r.1@) == asks
            &&& final(sh)@ == (SharedV { tools_fetching: f, ..old(sh)@ })
        }),
{
    let servers = mcp_groups(sh, now, local);
    let ghost s0 = sh@;
    let ghost sv = text_pairs(servers@);
    let mut rows: Vec<Json> = Vec::new();
    let mut asks: Vec<(String, String)> = Vec::new();
    let mut i: usize = 0;
    proof {
        assert(text_pairs(asks@) =~= Seq::<(Seq<char>, Seq<char>)>::empty());
    }
    while i < servers.len()
        invariant
            i <= servers@.len(),
            sv == text_pairs(servers@),
            rows@.len() == i,
            forall|j: int|
                0 <= j < i ==> (#[trigger] rows@[j]).v() == page_row(
                    sv[j].0,
                    cached_at(s0, cache_key(sv[j].0, sv[j].1)),
                ),
            (sh@.tools_fetching, text_pairs(asks@)) == page_fetches(s0, sv.take(i as int), now),
            sh@ == (SharedV { tools_fetching: sh@.tools_fetching, ..s0 }),
        decreases servers@.len() - i,
    {
        let group = servers[i].0.as_str();
        let url = servers[i].1.as_str();
        proof {
            assert(sv.take(i + 1).drop_last() =~= sv.take(i as int));
            assert(sv.take(i + 1).last() == (group@, url@));
            assert(sv[i as int] == (group@, url@));
        }
        let key = key_of(group, url);
        let cached = sh.tools.get(key.as_str());
        proof {
            if let Some(c) = cached {
                assert(s0.tools[key@] == c.deep_view());
            }
        }
        let fresh = match cached {
            Some(c) => is_fresh(c, now, sh.cfg.tools_ttl),
            None => false,
        };
        rows.push(page_entry(group, cached));
        if !fresh && !sh.tools_fetching.contains(key.as_str()) {
            let ghost fv = sh@.tools_fetching;
            let ghost kv = key@;
            sh.tools_fetching.insert(key, ());
            let ghost was = asks@;
            asks.push((group.to_string(), url.to_string()));
            proof {
                assert(sh@.tools_fetching =~= fv.insert(kv));
                assert(text_pairs(asks@) =~= text_pairs(was).push((group@, url@)));
            }
        }
        i += 1;
    }
    proof {
        assert(sv.take(sv.len() as int) =~= sv);
        let want = sv.map_values(
            |x: (Seq<char>, Seq<char>)| page_row(x.0, cached_at(s0, cache_key(x.0, x.1))),
        );
        assert(metas(rows@) =~= want);
    }
    (rows, asks)
}

/// Takes in that a background read is over.
pub fn fetch_done(sh: &mut Shared, group: &str, url: &str)
    ensures
        final(sh)@ == (SharedV {
            tools_fetching: old(sh)@.tools_fetching.remove(cache_key(group@, url@)),
            ..old(sh)@
        }),
{
    let ghost f = sh@.tools_fetching;
    let key = key_of(group, url);
    sh.tools_fetching.remove(key.as_str());
    proof {
        assert(sh@.tools_fetching =~= f.remove(key@));
    }
}

} // verus!
