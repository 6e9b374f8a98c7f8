//! Which tools are offered, by whom, and where a call of one goes.

use vstd::prelude::*;
use vstd::string::*;

use crate::common::dict::{lemma_finite_lists, ordered};
use crate::common::json::JsonV;
use crate::serve::mcp::{
    answered, cache_fresh, cached_reply, merged, merged_tool, merged_tools, planned, rpc_of,
    tool_servers, MergedV, RpcV, GROUP_ARG, NATIVE,
};
use crate::serve::shared::{CachedV, GroupV};

verus! {

// ---------------------------------------------------------------------------
// The list
// ---------------------------------------------------------------------------
/// Whether a list of tools has one of a name.
pub open spec fn lists(tools: Seq<JsonV>, name: Seq<char>) -> bool {
    exists|i: int| 0 <= i < tools.len() && (#[trigger] tools[i]).field("name"@) == JsonV::Str(name)
}

proof fn lemma_one(out: Map<Seq<char>, MergedV>, group: Seq<char>, t: JsonV, name: Seq<char>)
    requires
        name != NATIVE@,
    ensures
        ({
            let r = merged_tool(out, group, t);
            let hit = t.field("name"@) == JsonV::Str(name);
            &&& r.contains_key(name) <==> out.contains_key(name) || hit
            &&& !hit ==> r[name] == out[name] || !r.contains_key(name)
            &&& hit && out.contains_key(name) ==> forall|g: Seq<char>| #[trigger]
                r[name].groups.contains(g) <==> out[name].groups.contains(g) || g == group
            &&& hit && !out.contains_key(name) ==> r[name].groups == seq![group]
            &&& hit && out.contains_key(name) ==> r[name].description == out[name].description
                && r[name].schema == out[name].schema
        }),
{
    let r = merged_tool(out, group, t);
    if t.field("name"@) == JsonV::Str(name) && out.contains_key(name) {
        let had = out[name].groups;
        let now = r[name].groups;
        assert forall|g: Seq<char>| #[trigger] now.contains(g) <==> had.contains(g) || g == group by {
            if had.contains(g) {
                assert(now[had.index_of(g)] == g);
            }
            if now.contains(g) {
                let i = now.index_of(g);
                if i < had.len() {
                    assert(had[i] == g);
                }
            }
            if had.len() > 0 && had.last() == group {
                assert(had[had.len() - 1] == group);
            } else {
                assert(now[had.len() as int] == group);
            }
        }
    }
}

proof fn lemma_tools(
    out: Map<Seq<char>, MergedV>,
    group: Seq<char>,
    tools: Seq<JsonV>,
    name: Seq<char>,
)
    requires
        name != NATIVE@,
    ensures
        ({
            let r = merged_tools(out, group, tools);
            &&& r.contains_key(name) <==> out.contains_key(name) || lists(tools, name)
            &&& !lists(tools, name) && out.contains_key(name) ==> r[name] == out[name]
            &&& lists(tools, name) ==> forall|g: Seq<char>| #[trigger]
                r[name].groups.contains(g) <==> (out.contains_key(name)
                    && out[name].groups.contains(g)) || g == group
        }),
    decreases tools.len(),
{
    if tools.len() > 0 {
        let init = tools.drop_last();
        let last = tools.last();
        assert(tools[tools.len() - 1] == last);
        lemma_tools(out, group, init, name);
        let had = merged_tools(out, group, init);
        lemma_one(had, group, last, name);
        if lists(init, name) {
            let i = choose|i: int|
                0 <= i < init.len() && (#[trigger] init[i]).field("name"@) == JsonV::Str(name);
            assert(tools[i] == init[i]);
        }
        if lists(tools, name) && last.field("name"@) != JsonV::Str(name) {
            let i = choose|i: int|
                0 <= i < tools.len() && (#[trigger] tools[i]).field("name"@) == JsonV::Str(name);
            assert(init[i] == tools[i]);
        }
        let r = merged_tools(out, group, tools);
        if lists(tools, name) {
            assert forall|g: Seq<char>| #[trigger] r[name].groups.contains(g) <==> (
            out.contains_key(name) && out[name].groups.contains(g)) || g == group by {
                if !had.contains_key(name) {
                    assert(r[name].groups == seq![group]);
                    assert(seq![group][0] == group);
                    if r[name].groups.contains(g) {
                        assert(r[name].groups[r[name].groups.index_of(g)] == g);
                    }
                } else {
                    assert(had[name].groups.contains(g) == had[name].groups.contains(g));
                }
            }
        }
    }
}

/// A tool is offered exactly where some group lists it, and by all the groups that do;
/// the router's own name for its tool is no group's.
pub proof fn law_a_tool_is_offered_by_whoever_lists_it(
    v: Seq<(Seq<char>, Seq<JsonV>)>,
    name: Seq<char>,
)
    requires
        name != NATIVE@,
    ensures
        merged(v).contains_key(name) <==> exists|i: int|
            0 <= i < v.len() && lists((#[trigger] v[i]).1, name),
        merged(v).contains_key(name) ==> forall|g: Seq<char>| #[trigger]
            merged(v)[name].groups.contains(g) <==> exists|i: int|
                0 <= i < v.len() && (#[trigger] v[i]).0 == g && lists(v[i].1, name),
    decreases v.len(),
{
    if v.len() > 0 {
        let init = v.drop_last();
        let last = v.last();
        assert(v[v.len() - 1] == last);
        law_a_tool_is_offered_by_whoever_lists_it(init, name);
        let had = merged(init);
        let all = merged(v);
        lemma_tools(had, last.0, last.1, name);
        if exists|i: int| 0 <= i < init.len() && lists((#[trigger] init[i]).1, name) {
            let i = choose|i: int| 0 <= i < init.len() && lists((#[trigger] init[i]).1, name);
            assert(v[i] == init[i]);
        }
        if exists|i: int| 0 <= i < v.len() && lists((#[trigger] v[i]).1, name) {
            let i = choose|i: int| 0 <= i < v.len() && lists((#[trigger] v[i]).1, name);
            if i < init.len() {
                assert(init[i] == v[i]);
            }
        }
        if all.contains_key(name) {
            assert forall|g: Seq<char>| #[trigger] all[name].groups.contains(g) <==> exists|i: int|
                0 <= i < v.len() && (#[trigger] v[i]).0 == g && lists(v[i].1, name) by {
                if had.contains_key(name) && had[name].groups.contains(g) {
                    let i = choose|i: int|
                        0 <= i < init.len() && (#[trigger] init[i]).0 == g && lists(
                            init[i].1,
                            name,
                        );
                    assert(v[i] == init[i]);
                }
                if exists|i: int|
                    0 <= i < v.len() && (#[trigger] v[i]).0 == g && lists(v[i].1, name) {
                    let i = choose|i: int|
                        0 <= i < v.len() && (#[trigger] v[i]).0 == g && lists(v[i].1, name);
                    if i < init.len() {
                        assert(init[i] == v[i]);
                        assert(had.contains_key(name) && had[name].groups.contains(g));
                    }
                }
            }
        }
    }
}

proof fn lemma_servers(table: Map<Seq<char>, GroupV>, keys: Seq<Seq<char>>, x: (Seq<char>, Seq<char>))
    ensures
        tool_servers(table, keys).contains(x) <==> exists|i: int|
            {
                &&& 0 <= i < keys.len()
                &&& table[#[trigger] keys[i]].group == x.0
                &&& table[keys[i]].mcp is Some
                &&& table[keys[i]].mcp->0.candidates.len() > 0
                &&& table[keys[i]].mcp->0.candidates[0] == x.1
            },
    decreases keys.len(),
{
    if keys.len() > 0 {
        let init = keys.drop_last();
        let last = keys.last();
        assert(keys[keys.len() - 1] == last);
        lemma_servers(table, init, x);
        let had = tool_servers(table, init);
        let all = tool_servers(table, keys);
        if all.contains(x) {
            let j = all.index_of(x);
            if j < had.len() {
                assert(had[j] == x);
                assert(had.contains(x));
                let i = choose|i: int|
                    {
                        &&& 0 <= i < init.len()
                        &&& table[#[trigger] init[i]].group == x.0
                        &&& table[init[i]].mcp is Some
                        &&& table[init[i]].mcp->0.candidates.len() > 0
                        &&& table[init[i]].mcp->0.candidates[0] == x.1
                    };
                assert(keys[i] == init[i]);
            }
        }
        if exists|i: int|
            {
                &&& 0 <= i < keys.len()
                &&& table[#[trigger] keys[i]].group == x.0
                &&& table[keys[i]].mcp is Some
                &&& table[keys[i]].mcp->0.candidates.len() > 0
                &&& table[keys[i]].mcp->0.candidates[0] == x.1
            } {
            let i = choose|i: int|
                {
                    &&& 0 <= i < keys.len()
                    &&& table[#[trigger] keys[i]].group == x.0
                    &&& table[keys[i]].mcp is Some
                    &&& table[keys[i]].mcp->0.candidates.len() > 0
                    &&& table[keys[i]].mcp->0.candidates[0] == x.1
                };
            if i < init.len() {
                assert(init[i] == keys[i]);
                assert(had.contains(x));
                assert(all[had.index_of(x)] == x);
            } else {
                assert(all[had.len() as int] == x);
            }
        }
    }
}

/// Every group with a server of tools that may be used is asked for its list, at its best
/// address, and no other is.
pub proof fn law_every_server_of_tools_is_asked(
    table: Map<Seq<char>, GroupV>,
    group: Seq<char>,
    url: Seq<char>,
)
    requires
        table.dom().finite(),
    ensures
        tool_servers(table, ordered(table.dom())).contains((group, url)) <==> exists|k: Seq<char>|
            {
                &&& #[trigger] table.contains_key(k)
                &&& table[k].group == group
                &&& table[k].mcp is Some
                &&& table[k].mcp->0.candidates.len() > 0
                &&& table[k].mcp->0.candidates[0] == url
            },
{
    let keys = ordered(table.dom());
    lemma_finite_lists(table.dom());
    lemma_servers(table, keys, (group, url));
    if exists|k: Seq<char>|
        {
            &&& #[trigger] table.contains_key(k)
            &&& table[k].group == group
            &&& table[k].mcp is Some
            &&& table[k].mcp->0.candidates.len() > 0
            &&& table[k].mcp->0.candidates[0] == url
        } {
        let k = choose|k: Seq<char>|
            {
                &&& #[trigger] table.contains_key(k)
                &&& table[k].group == group
                &&& table[k].mcp is Some
                &&& table[k].mcp->0.candidates.len() > 0
                &&& table[k].mcp->0.candidates[0] == url
            };
        assert(table.dom().contains(k));
        assert(keys.contains(k));
        assert(keys[keys.index_of(k)] == k);
    }
    if tool_servers(table, keys).contains((group, url)) {
        let i = choose|i: int|
            {
                &&& 0 <= i < keys.len()
                &&& table[#[trigger] keys[i]].group == group
                &&& table[keys[i]].mcp is Some
                &&& table[keys[i]].mcp->0.candidates.len() > 0
                &&& table[keys[i]].mcp->0.candidates[0] == url
            };
        assert(keys.contains(keys[i]));
        assert(table.dom().contains(keys[i]));
    }
}

/// A list of tools stands while it holds something, did not fail, and is no older than is
/// set; what a server replied is kept as it was, and a failure with its reason.
pub proof fn law_a_list_of_tools_stands_while_it_holds_something(
    c: CachedV,
    got: Result<JsonV, Seq<char>>,
    now: u64,
    ttl: u64,
)
    ensures
        cache_fresh(c, now, ttl) <==> c.error is None && c.tools.len() > 0 && now <= c.at + ttl,
        ({
            let k = cached_reply(got, now);
            &&& k.at == now
            &&& got is Ok ==> k.error is None && k.tools == got->Ok_0.field("result"@).field(
                "tools"@,
            ).items()
            &&& got is Err ==> k.error == Some(got->Err_0) && k.tools.len() == 0
        }),
{
}

// ---------------------------------------------------------------------------
// Calls
// ---------------------------------------------------------------------------
/// A call goes to the one group that offers its tool, or to the one its caller named of
/// those that do; at that group's best address, with the name of the group taken out of
/// the arguments and nothing else. The router's own tool is answered here, and anything
/// else is explained.
pub proof fn law_a_call_goes_to_the_group_it_names(
    table: Map<Seq<char>, GroupV>,
    m: Map<Seq<char>, MergedV>,
    rid: JsonV,
    name: Seq<char>,
    args: Map<Seq<char>, JsonV>,
    params: JsonV,
)
    requires
        params.field("name"@) == JsonV::Str(name),
        params.field("arguments"@) == JsonV::Obj(args),
    ensures
        ({
            let r = planned(table, m, rid, params);
            let named = args.contains_key(GROUP_ARG@) && args[GROUP_ARG@] is Str;
            let groups = m[name].groups;
            let fit = |g: Seq<char>|
                if named {
                    g == args[GROUP_ARG@]->Str_0 && groups.contains(g)
                } else {
                    groups.len() == 1 && g == groups[0]
                };
            &&& r is Native <==> name == NATIVE@
            &&& r is Forward ==> {
                &&& m.contains_key(name)
                &&& fit(r->group)
                &&& table.contains_key(r->group) && table[r->group].mcp is Some
                &&& r->url == table[r->group].mcp->0.candidates[0]
                &&& r->body.field("params"@).field("name"@) == JsonV::Str(name)
                &&& r->body.field("params"@).field("arguments"@) == JsonV::Obj(
                    args.remove(GROUP_ARG@),
                )
                &&& r->body.field("id"@) == rid
            }
            &&& name != NATIVE@ && m.contains_key(name) && (exists|g: Seq<char>|
                #[trigger] fit(g) && table.contains_key(g) && table[g].mcp is Some
                    && table[g].mcp->0.candidates.len() > 0) ==> r is Forward
        }),
{
    lemma_call_names();
}

proof fn lemma_call_names()
    ensures
        "jsonrpc"@ != "id"@,
        "jsonrpc"@ != "params"@,
        "method"@ != "id"@,
        "method"@ != "params"@,
        "id"@ != "params"@,
        "name"@ != "arguments"@,
        "jsonrpc"@ != "method"@,
{
    reveal_strlit("jsonrpc");
    reveal_strlit("id");
    reveal_strlit("method");
    reveal_strlit("params");
    reveal_strlit("name");
    reveal_strlit("arguments");
    assert("jsonrpc"@.len() == 7 && "id"@.len() == 2 && "name"@.len() == 4 && "arguments"@.len()
        == 9);
    assert("method"@.len() == 6 && "params"@.len() == 6 && "method"@[0] == 'm' && "params"@[0]
        == 'p');
}

/// A reply with a result or an error is passed on as it is.
pub proof fn law_a_reply_is_passed_on(rid: JsonV, group: Seq<char>, v: JsonV)
    ensures
        v.has("result"@) || v.has("error"@) ==> answered(rid, group, Ok(v)) == v,
{
}

/// What a request to the tools endpoint asks for: the list, a call with its parameters,
/// nothing where it only notifies; each with the id it came with.
pub proof fn law_a_tools_request_is_told_by_its_method(req: JsonV, version: Seq<char>)
    ensures
        req.field("method"@) == JsonV::Str("tools/list"@) ==> rpc_of(req, version) == (RpcV::List {
            id: req.field("id"@),
        }),
        req.field("method"@) == JsonV::Str("tools/call"@) ==> rpc_of(req, version) == (RpcV::Call {
            id: req.field("id"@),
            params: req.field("params"@),
        }),
        req.field("method"@) == JsonV::Str("notifications/initialized"@) ==> rpc_of(
            req,
            version,
        ) is Silent,
        req.field("method"@) == JsonV::Str("ping"@) ==> rpc_of(req, version) is Reply,
        !(req.field("method"@) is Str) ==> rpc_of(req, version) is Reply,
{
    reveal_strlit("tools/list");
    reveal_strlit("tools/call");
    reveal_strlit("notifications/");
    reveal_strlit("notifications/initialized");
    reveal_strlit("initialize");
    reveal_strlit("ping");
    assert("tools/list"@.len() == 10 && "tools/call"@.len() == 10 && "initialize"@.len() == 10);
    assert("tools/list"@[6] == 'l' && "tools/call"@[6] == 'c');
    assert("tools/list"@[0] == 't' && "tools/call"@[0] == 't' && "initialize"@[0] == 'i');
    assert("notifications/"@.len() == 14 && "notifications/initialized"@.len() == 25);
    assert("ping"@.len() == 4);
    assert("notifications/initialized"@.take(14) =~= "notifications/"@);
    let none = Seq::<char>::empty();
    assert(none.len() == 0);
}

} // verus!
