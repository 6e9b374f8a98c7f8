//! What a start-up script can rely on in a rendered snapshot: in group scope one
//! line counts GPUs the way it greps for, and no other line does.

use vstd::prelude::*;

use crate::common::dict::ordered;
use crate::common::json::JsonV;
use crate::common::show::{shown, truth};
use crate::common::text::{decimal, digit, joined, lemma_decimal_reads_back};
use crate::daemon::mesh::strings_of;
use crate::daemon::render::{
    actor_line, agent_line, cell_text, cells, daemon_line, fabric_line, fabric_lines,
    group_line, group_lines, groups_lines, head_of, law_the_totals_line_comes_first, lemma_fitting,
    member_text,
    peer_line, peer_lines, peers_lines, pg_line, reach_line, reach_lines, rendered, row_line,
    row_lines, table_lines, text_or, totals_line, vendor_text,
    whole_devices, RowKind,
};

verus! {

// ---------------------------------------------------------------------------
// The pattern
// ---------------------------------------------------------------------------
/// Whether a character stands in a number, as `[0-9.]` has it.
pub open spec fn in_number(c: char) -> bool {
    digit(c) || c == '.'
}

/// Whether `[0-9.]+/[0-9.]+ GPU` matches here: the first number from `i` on, the
/// stroke at `j`, and the blank at `k`.
pub open spec fn counts_gpus_at(s: Seq<char>, i: int, j: int, k: int) -> bool {
    &&& 0 <= i < j
    &&& j + 1 < k
    &&& k + 4 <= s.len()
    &&& forall|x: int| i <= x < j ==> in_number(#[trigger] s[x])
    &&& s[j] == '/'
    &&& forall|x: int| j < x < k ==> in_number(#[trigger] s[x])
    &&& s[k] == ' '
    &&& s[k + 1] == 'G'
    &&& s[k + 2] == 'P'
    &&& s[k + 3] == 'U'
}

/// Whether `[0-9.]+/[0-9.]+ GPU` matches anywhere.
pub open spec fn counts_gpus(s: Seq<char>) -> bool {
    exists|i: int, j: int, k: int| counts_gpus_at(s, i, j, k)
}

// ---------------------------------------------------------------------------
// Texts that do not say it
// ---------------------------------------------------------------------------
/// Whether a text says nothing of a `GPU`.
pub open spec fn quiet(s: Seq<char>) -> bool {
    forall|i: int|
        0 <= i && i + 2 < s.len() ==> !(#[trigger] s[i] == 'G' && s[i + 1] == 'P' && s[i + 2]
            == 'U')
}

/// Whether a character is one of `GPU`.
pub open spec fn letter(c: char) -> bool {
    c == 'G' || c == 'P' || c == 'U'
}

/// Whether no character of a text is one of `GPU`.
spec fn plain(s: Seq<char>) -> bool {
    forall|i: int| 0 <= i < s.len() ==> !letter(#[trigger] s[i])
}

/// Whether a text is quiet, and stays so whatever quiet text follows.
spec fn closed_off(s: Seq<char>) -> bool {
    quiet(s) && (s.len() > 0 ==> !letter(s.last()))
}

proof fn lemma_text_follows(a: Seq<char>, b: Seq<char>)
    requires
        closed_off(a),
        quiet(b),
    ensures
        quiet(a + b),
{
    let s = a + b;
    assert forall|i: int| 0 <= i && i + 2 < s.len() implies !(#[trigger] s[i] == 'G' && s[i + 1]
        == 'P' && s[i + 2] == 'U') by {
        if i + 2 < a.len() {
            assert(a[i] == s[i]);
        } else if i >= a.len() {
            assert(b[i - a.len()] == s[i]);
        } else {
            assert(a.last() == s[a.len() - 1]);
        }
    }
}

proof fn lemma_literal_follows(a: Seq<char>, b: Seq<char>)
    requires
        quiet(a),
        plain(b),
        b.len() > 0 || closed_off(a),
    ensures
        closed_off(a + b),
{
    let s = a + b;
    assert forall|i: int| 0 <= i && i + 2 < s.len() implies !(#[trigger] s[i] == 'G' && s[i + 1]
        == 'P' && s[i + 2] == 'U') by {
        if i + 2 < a.len() {
            assert(a[i] == s[i]);
        } else {
            assert(b[i + 2 - a.len()] == s[i + 2]);
        }
    }
    if b.len() > 0 {
        assert(s.last() == b[b.len() - 1]);
    } else {
        assert(s =~= a);
    }
}

proof fn lemma_closed_follows(a: Seq<char>, b: Seq<char>)
    requires
        closed_off(a),
        closed_off(b),
    ensures
        closed_off(a + b),
{
    lemma_text_follows(a, b);
    if b.len() > 0 {
        assert((a + b).last() == b.last());
    } else {
        assert(a + b =~= a);
    }
}

proof fn lemma_decimal_plain(n: nat)
    ensures
        plain(decimal(n)),
        decimal(n).len() > 0,
{
    lemma_decimal_reads_back(n);
    assert forall|i: int| 0 <= i < decimal(n).len() implies !letter(#[trigger] decimal(n)[i]) by {
        assert(digit(decimal(n)[i]));
    }
}

proof fn lemma_head_of(s: Seq<char>, n: nat)
    requires
        quiet(s),
    ensures
        quiet(head_of(s, n)),
{
    lemma_fitting(s, n);
    let t = head_of(s, n);
    assert forall|i: int| 0 <= i && i + 2 < t.len() implies !(#[trigger] t[i] == 'G' && t[i + 1]
        == 'P' && t[i + 2] == 'U') by {
        assert(s[i] == t[i]);
    }
}

proof fn lemma_joined(v: Seq<Seq<char>>, sep: Seq<char>)
    requires
        forall|i: int| 0 <= i < v.len() ==> quiet(#[trigger] v[i]),
        plain(sep),
        sep.len() > 0,
    ensures
        quiet(joined(v, sep)),
    decreases v.len(),
{
    if v.len() > 1 {
        let init = v.drop_last();
        assert forall|i: int| 0 <= i < init.len() implies quiet(#[trigger] init[i]) by {
            assert(init[i] == v[i]);
        }
        lemma_joined(init, sep);
        lemma_literal_follows(joined(init, sep), sep);
        assert(quiet(v[v.len() - 1]));
        lemma_text_follows(joined(init, sep) + sep, v.last());
    } else if v.len() == 1 {
        assert(quiet(v[0]));
    }
}

// ---------------------------------------------------------------------------
// Literals
// ---------------------------------------------------------------------------
spec fn plain_to(s: Seq<char>, n: nat) -> bool
    decreases n,
{
    n == 0 || (!letter(s[n - 1]) && plain_to(s, (n - 1) as nat))
}

proof fn lemma_plain_to(s: Seq<char>, n: nat)
    requires
        plain_to(s, n),
        n <= s.len(),
    ensures
        forall|i: int| 0 <= i < n ==> !letter(#[trigger] s[i]),
    decreases n,
{
    if n > 0 {
        lemma_plain_to(s, (n - 1) as nat);
    }
}

/// Whether a text is a literal that no `GPU` can run into.
spec fn spacer(s: Seq<char>) -> bool {
    plain(s) && s.len() > 0
}

proof fn lemma_spacer(s: Seq<char>, n: nat)
    requires
        s.len() == n,
        0 < n,
        plain_to(s, n),
    ensures
        spacer(s),
{
    lemma_plain_to(s, n);
}

proof fn lemma_daemon_literals()
    ensures
        spacer("mentat daemon: "@),
        spacer(" ("@),
        spacer(")"@),
        spacer(" [head]"@),
        plain(""@),
        spacer("?"@),
        spacer("\n"@),
{
    reveal_with_fuel(plain_to, 16);
    reveal_strlit("mentat daemon: ");
    lemma_spacer("mentat daemon: "@, 15);
    reveal_strlit(" (");
    lemma_spacer(" ("@, 2);
    reveal_strlit(")");
    lemma_spacer(")"@, 1);
    reveal_strlit(" [head]");
    lemma_spacer(" [head]"@, 7);
    reveal_strlit("");
    reveal_strlit("?");
    lemma_spacer("?"@, 1);
    reveal_strlit("\n");
    lemma_spacer("\n"@, 1);
}

proof fn lemma_peer_literals()
    ensures
        spacer("peer "@),
        spacer("... "@),
        spacer(" alive="@),
        spacer("true"@),
        spacer("false"@),
        spacer("null"@),
        spacer("  reach from "@),
        spacer(": "@),
        spacer("=ok/"@),
        spacer("ms"@),
        spacer("=fail"@),
        spacer(" "@),
        spacer("fabric "@),
{
    reveal_with_fuel(plain_to, 16);
    reveal_strlit("peer ");
    lemma_spacer("peer "@, 5);
    reveal_strlit("... ");
    lemma_spacer("... "@, 4);
    reveal_strlit(" alive=");
    lemma_spacer(" alive="@, 7);
    reveal_strlit("true");
    lemma_spacer("true"@, 4);
    reveal_strlit("false");
    lemma_spacer("false"@, 5);
    reveal_strlit("null");
    lemma_spacer("null"@, 4);
    reveal_strlit("  reach from ");
    lemma_spacer("  reach from "@, 13);
    reveal_strlit(": ");
    lemma_spacer(": "@, 2);
    reveal_strlit("=ok/");
    lemma_spacer("=ok/"@, 4);
    reveal_strlit("ms");
    lemma_spacer("ms"@, 2);
    reveal_strlit("=fail");
    lemma_spacer("=fail"@, 5);
    reveal_strlit(" ");
    lemma_spacer(" "@, 1);
    reveal_strlit("fabric ");
    lemma_spacer("fabric "@, 7);
}

proof fn lemma_row_literals()
    ensures
        spacer("group "@),
        spacer(": gpus="@),
        spacer("/"@),
        spacer("  agent "@),
        spacer(" node="@),
        spacer(" container="@),
        spacer(" gpus="@),
        spacer(" vendor="@),
        spacer("+"@),
        spacer(" degraded=true"@),
        spacer("  pg "@),
        spacer(" bundles="@),
        spacer(" state="@),
        spacer("  actor "@),
        spacer(" ["@),
        spacer("] node="@),
        spacer("... pid="@),
        spacer("??????"@),
{
    reveal_with_fuel(plain_to, 16);
    reveal_strlit("group ");
    lemma_spacer("group "@, 6);
    reveal_strlit(": gpus=");
    lemma_spacer(": gpus="@, 7);
    reveal_strlit("/");
    lemma_spacer("/"@, 1);
    reveal_strlit("  agent ");
    lemma_spacer("  agent "@, 8);
    reveal_strlit(" node=");
    lemma_spacer(" node="@, 6);
    reveal_strlit(" container=");
    lemma_spacer(" container="@, 11);
    reveal_strlit(" gpus=");
    lemma_spacer(" gpus="@, 6);
    reveal_strlit(" vendor=");
    lemma_spacer(" vendor="@, 8);
    reveal_strlit("+");
    lemma_spacer("+"@, 1);
    reveal_strlit(" degraded=true");
    lemma_spacer(" degraded=true"@, 14);
    reveal_strlit("  pg ");
    lemma_spacer("  pg "@, 5);
    reveal_strlit(" bundles=");
    lemma_spacer(" bundles="@, 9);
    reveal_strlit(" state=");
    lemma_spacer(" state="@, 7);
    reveal_strlit("  actor ");
    lemma_spacer("  actor "@, 8);
    reveal_strlit(" [");
    lemma_spacer(" ["@, 2);
    reveal_strlit("] node=");
    lemma_spacer("] node="@, 7);
    reveal_strlit("... pid=");
    lemma_spacer("... pid="@, 8);
    reveal_strlit("??????");
    lemma_spacer("??????"@, 6);
}

// ---------------------------------------------------------------------------
// Lines
// ---------------------------------------------------------------------------
proof fn lemma_piece(a: Seq<char>, text: Seq<char>, lit: Seq<char>)
    requires
        closed_off(a),
        quiet(text),
        spacer(lit),
    ensures
        closed_off(a + text + lit),
{
    lemma_text_follows(a, text);
    lemma_literal_follows(a + text, lit);
}

proof fn lemma_daemon_line(data: JsonV)
    requires
        quiet(text_or(data.field("control_addr"@), "?"@)),
        quiet(text_or(data.field("hostname"@), "?"@)),
    ensures
        closed_off(daemon_line(data)),
{
    lemma_daemon_literals();
    let a = "mentat daemon: "@;
    let x = text_or(data.field("control_addr"@), "?"@);
    let y = text_or(data.field("hostname"@), "?"@);
    lemma_piece(a, x, " ("@);
    lemma_piece(a + x + " ("@, y, ")"@);
    let b = a + x + " ("@ + y + ")"@;
    let flag = if data.field("head_node_id"@) == data.field("node_id"@) {
        " [head]"@
    } else {
        ""@
    };
    lemma_literal_follows(b, flag);
    lemma_literal_follows(b + flag, "\n"@);
}

/// Whether the texts of a row of the reachability matrix are quiet.
pub open spec fn reach_quiet(local: Seq<char>, row: JsonV) -> bool {
    let keys = ordered(row.fields().dom());
    quiet(local) && forall|i: int| 0 <= i < keys.len() ==> quiet(#[trigger] keys[i])
}

proof fn lemma_cell(remote: Seq<char>, r: JsonV)
    requires
        quiet(remote),
    ensures
        quiet(cell_text(remote, r)),
{
    lemma_peer_literals();
    let n: nat = match r.field("rtt_ms"@).uint() {
        Some(n) => n as nat,
        None => 0,
    };
    lemma_decimal_plain(n);
    lemma_literal_follows(remote, "=ok/"@);
    lemma_literal_follows(remote + "=ok/"@, decimal(n));
    lemma_literal_follows(remote + "=ok/"@ + decimal(n), "ms"@);
    lemma_literal_follows(remote, "=fail"@);
}

proof fn lemma_reach_line(local: Seq<char>, row: JsonV)
    requires
        reach_quiet(local, row),
    ensures
        closed_off(reach_line(local, row)),
{
    lemma_peer_literals();
    lemma_daemon_literals();
    let m = row.fields();
    let keys = ordered(m.dom());
    let v = cells(m);
    assert forall|i: int| 0 <= i < v.len() implies quiet(#[trigger] v[i]) by {
        assert(v[i] == cell_text(keys[i], m[keys[i]]));
        lemma_cell(keys[i], m[keys[i]]);
    }
    lemma_joined(v, " "@);
    let a = "  reach from "@;
    lemma_piece(a, local, ": "@);
    lemma_piece(a + local + ": "@, joined(v, " "@), "\n"@);
}

proof fn lemma_reach_lines(m: Map<Seq<char>, JsonV>, keys: Seq<Seq<char>>)
    requires
        forall|i: int| 0 <= i < keys.len() ==> reach_quiet(#[trigger] keys[i], m[keys[i]]),
    ensures
        closed_off(reach_lines(m, keys)),
    decreases keys.len(),
{
    if keys.len() > 0 {
        let init = keys.drop_last();
        assert forall|i: int| 0 <= i < init.len() implies reach_quiet(
            #[trigger] init[i],
            m[init[i]],
        ) by {
            assert(init[i] == keys[i]);
        }
        lemma_reach_lines(m, init);
        assert(reach_quiet(keys[keys.len() - 1], m[keys[keys.len() - 1]]));
        lemma_reach_line(keys.last(), m[keys.last()]);
        lemma_closed_follows(reach_lines(m, init), reach_line(keys.last(), m[keys.last()]));
    }
}

/// Whether the texts of a peer's lines are quiet.
pub open spec fn peer_quiet(id: Seq<char>, p: JsonV) -> bool {
    let probes = p.field("probes"@).fields();
    let keys = ordered(probes.dom());
    &&& quiet(id)
    &&& quiet(text_or(p.field("node_ip"@), "?"@))
    &&& quiet(shown(p.field("alive"@)))
    &&& forall|i: int| 0 <= i < keys.len() ==> reach_quiet(#[trigger] keys[i], probes[keys[i]])
}

proof fn lemma_peer_lines(id: Seq<char>, p: JsonV, is_head: bool)
    requires
        peer_quiet(id, p),
    ensures
        closed_off(peer_lines(id, p, is_head)),
{
    lemma_peer_literals();
    lemma_daemon_literals();
    let a = "peer "@;
    let x = head_of(id, 8);
    let y = text_or(p.field("node_ip"@), "?"@);
    lemma_head_of(id, 8);
    lemma_piece(a, x, "... "@);
    lemma_piece(a + x + "... "@, y, " alive="@);
    let b = a + x + "... "@ + y + " alive="@;
    let alive = shown(p.field("alive"@));
    lemma_text_follows(b, alive);
    let flag = if is_head {
        " [head]"@
    } else {
        ""@
    };
    if is_head {
        lemma_literal_follows(b + alive, flag);
    } else {
        reveal_strlit("");
        assert(b + alive + flag =~= b + alive);
    }
    lemma_literal_follows(b + alive + flag, "\n"@);
    let probes = p.field("probes"@).fields();
    lemma_reach_lines(probes, ordered(probes.dom()));
    lemma_closed_follows(peer_line(id, p, is_head), reach_lines(probes, ordered(probes.dom())));
}

proof fn lemma_peers_lines(m: Map<Seq<char>, JsonV>, keys: Seq<Seq<char>>, head: JsonV)
    requires
        forall|i: int| 0 <= i < keys.len() ==> peer_quiet(#[trigger] keys[i], m[keys[i]]),
    ensures
        closed_off(peers_lines(m, keys, head)),
    decreases keys.len(),
{
    if keys.len() > 0 {
        let init = keys.drop_last();
        assert forall|i: int| 0 <= i < init.len() implies peer_quiet(
            #[trigger] init[i],
            m[init[i]],
        ) by {
            assert(init[i] == keys[i]);
        }
        lemma_peers_lines(m, init, head);
        assert(peer_quiet(keys[keys.len() - 1], m[keys[keys.len() - 1]]));
        let id = keys.last();
        let is_head = head.text() == Some(id);
        lemma_peer_lines(id, m[id], is_head);
        lemma_closed_follows(peers_lines(m, init, head), peer_lines(id, m[id], is_head));
    }
}

/// Whether the texts of a fabric's line are quiet.
pub open spec fn fabric_quiet(isl: JsonV) -> bool {
    let nodes = strings_of(isl.field("nodes"@).items());
    forall|i: int| 0 <= i < nodes.len() ==> quiet(member_text(isl, #[trigger] nodes[i]))
}

proof fn lemma_fabric_line(i: nat, isl: JsonV)
    requires
        fabric_quiet(isl),
    ensures
        closed_off(fabric_line(i, isl)),
{
    lemma_peer_literals();
    lemma_daemon_literals();
    let nodes = strings_of(isl.field("nodes"@).items());
    let v = nodes.map_values(|n: Seq<char>| member_text(isl, n));
    assert forall|x: int| 0 <= x < v.len() implies quiet(#[trigger] v[x]) by {
        assert(v[x] == member_text(isl, nodes[x]));
    }
    lemma_joined(v, " "@);
    lemma_decimal_plain(i);
    let a = "fabric "@;
    lemma_literal_follows(a, decimal(i));
    lemma_literal_follows(a + decimal(i), ": "@);
    lemma_piece(a + decimal(i) + ": "@, joined(v, " "@), "\n"@);
}

proof fn lemma_fabric_lines(v: Seq<JsonV>)
    requires
        forall|i: int| 0 <= i < v.len() ==> fabric_quiet(#[trigger] v[i]),
    ensures
        closed_off(fabric_lines(v)),
    decreases v.len(),
{
    if v.len() > 0 {
        let init = v.drop_last();
        assert forall|i: int| 0 <= i < init.len() implies fabric_quiet(#[trigger] init[i]) by {
            assert(init[i] == v[i]);
        }
        lemma_fabric_lines(init);
        assert(fabric_quiet(v[v.len() - 1]));
        let n = (v.len() - 1) as nat;
        lemma_fabric_line(n, v.last());
        lemma_closed_follows(fabric_lines(init), fabric_line(n, v.last()));
    }
}

/// Whether the texts of a row's line are quiet.
pub open spec fn row_quiet(kind: RowKind, id: Seq<char>, row: JsonV) -> bool {
    quiet(id) && match kind {
        RowKind::Agent => {
            &&& quiet(text_or(row.field("node_ip"@), "?"@))
            &&& quiet(text_or(row.field("container"@), "?"@))
            &&& quiet(vendor_text(row.field("machine"@).field("gpus"@).items()))
        },
        RowKind::Pg => quiet(text_or(row.field("state"@), "?"@)),
        RowKind::Actor => {
            &&& quiet(text_or(row.field("name"@), "?"@))
            &&& quiet(text_or(row.field("node_id"@), "??????"@))
            &&& quiet(text_or(row.field("state"@), "?"@))
        },
    }
}

proof fn lemma_agent_line(id: Seq<char>, a: JsonV)
    requires
        row_quiet(RowKind::Agent, id, a),
    ensures
        closed_off(agent_line(id, a)),
{
    lemma_row_literals();
    lemma_peer_literals();
    lemma_daemon_literals();
    let gpus = a.field("machine"@).field("gpus"@).items();
    let free = a.field("gpus_free"@).items().len();
    let held: nat = if gpus.len() >= free {
        (gpus.len() - free) as nat
    } else {
        0
    };
    let x = text_or(a.field("node_ip"@), "?"@);
    let y = text_or(a.field("container"@), "?"@);
    let z = vendor_text(gpus);
    lemma_decimal_plain(held);
    lemma_decimal_plain(gpus.len());
    let s = "  agent "@;
    lemma_piece(s, id, " node="@);
    let s = s + id + " node="@;
    lemma_piece(s, x, " container="@);
    let s = s + x + " container="@;
    lemma_piece(s, y, " gpus="@);
    let s = s + y + " gpus="@;
    lemma_literal_follows(s, decimal(held));
    let s = s + decimal(held);
    lemma_literal_follows(s, "/"@);
    let s = s + "/"@;
    lemma_literal_follows(s, decimal(gpus.len()));
    let s = s + decimal(gpus.len());
    lemma_literal_follows(s, " vendor="@);
    let s = s + " vendor="@;
    lemma_piece(s, z, " alive="@);
    let s = s + z + " alive="@;
    let alive = truth(a.field("alive"@).is_true());
    lemma_literal_follows(s, alive);
    let s = s + alive;
    let flag = if a.field("degraded"@).is_true() {
        " degraded=true"@
    } else {
        ""@
    };
    lemma_literal_follows(s, flag);
    let s = s + flag;
    lemma_literal_follows(s, "\n"@);
    assert(agent_line(id, a) == s + "\n"@);
}

proof fn lemma_pg_line(id: Seq<char>, p: JsonV)
    requires
        row_quiet(RowKind::Pg, id, p),
    ensures
        closed_off(pg_line(id, p)),
{
    lemma_row_literals();
    lemma_daemon_literals();
    let n = p.field("bundles"@).items().len();
    lemma_decimal_plain(n);
    let s = "  pg "@;
    lemma_piece(s, id, " bundles="@);
    let s = s + id + " bundles="@;
    lemma_literal_follows(s, decimal(n));
    let s = s + decimal(n);
    lemma_literal_follows(s, " state="@);
    let s = s + " state="@;
    lemma_piece(s, text_or(p.field("state"@), "?"@), "\n"@);
}

proof fn lemma_actor_line(id: Seq<char>, a: JsonV)
    requires
        row_quiet(RowKind::Actor, id, a),
    ensures
        closed_off(actor_line(id, a)),
{
    lemma_row_literals();
    lemma_daemon_literals();
    let n: nat = match a.field("pid"@).uint() {
        Some(n) => n as nat,
        None => 0,
    };
    lemma_decimal_plain(n);
    let x = text_or(a.field("name"@), "?"@);
    let y = head_of(text_or(a.field("node_id"@), "??????"@), 6);
    lemma_head_of(text_or(a.field("node_id"@), "??????"@), 6);
    let s = "  actor "@;
    lemma_piece(s, x, " ["@);
    let s = s + x + " ["@;
    lemma_piece(s, id, "] node="@);
    let s = s + id + "] node="@;
    lemma_piece(s, y, "... pid="@);
    let s = s + y + "... pid="@;
    lemma_literal_follows(s, decimal(n));
    let s = s + decimal(n);
    lemma_literal_follows(s, " state="@);
    let s = s + " state="@;
    lemma_piece(s, text_or(a.field("state"@), "?"@), "\n"@);
}

proof fn lemma_row_lines(kind: RowKind, m: Map<Seq<char>, JsonV>, keys: Seq<Seq<char>>)
    requires
        forall|i: int| 0 <= i < keys.len() ==> row_quiet(kind, #[trigger] keys[i], m[keys[i]]),
    ensures
        closed_off(row_lines(kind, m, keys)),
    decreases keys.len(),
{
    if keys.len() > 0 {
        let init = keys.drop_last();
        assert forall|i: int| 0 <= i < init.len() implies row_quiet(
            kind,
            #[trigger] init[i],
            m[init[i]],
        ) by {
            assert(init[i] == keys[i]);
        }
        lemma_row_lines(kind, m, init);
        assert(row_quiet(kind, keys[keys.len() - 1], m[keys[keys.len() - 1]]));
        let id = keys.last();
        match kind {
            RowKind::Agent => lemma_agent_line(id, m[id]),
            RowKind::Pg => lemma_pg_line(id, m[id]),
            RowKind::Actor => lemma_actor_line(id, m[id]),
        }
        lemma_closed_follows(row_lines(kind, m, init), row_line(kind, id, m[id]));
    }
}

/// Whether the texts of a table's lines are quiet.
pub open spec fn table_quiet(kind: RowKind, t: JsonV) -> bool {
    let m = t.fields();
    let keys = ordered(m.dom());
    forall|i: int| 0 <= i < keys.len() ==> row_quiet(kind, #[trigger] keys[i], m[keys[i]])
}

/// Whether the texts of a group's lines are quiet.
pub open spec fn group_quiet(name: Seq<char>, g: JsonV) -> bool {
    &&& quiet(name)
    &&& table_quiet(RowKind::Agent, g.field("agents"@))
    &&& table_quiet(RowKind::Pg, g.field("placement_groups"@))
    &&& table_quiet(RowKind::Actor, g.field("actors"@))
}

proof fn lemma_group_lines(name: Seq<char>, g: JsonV)
    requires
        group_quiet(name, g),
    ensures
        closed_off(group_lines(name, g)),
{
    lemma_row_literals();
    lemma_daemon_literals();
    let used = whole_devices(g.field("gpus_used"@));
    let total = whole_devices(g.field("gpus_total"@));
    lemma_decimal_plain(used);
    lemma_decimal_plain(total);
    let s = "group "@;
    lemma_piece(s, name, ": gpus="@);
    let s = s + name + ": gpus="@;
    lemma_literal_follows(s, decimal(used));
    let s = s + decimal(used);
    lemma_literal_follows(s, "/"@);
    let s = s + "/"@;
    lemma_literal_follows(s, decimal(total));
    let s = s + decimal(total);
    lemma_literal_follows(s, "\n"@);
    let line = group_line(name, g);
    let a = g.field("agents"@);
    let b = g.field("placement_groups"@);
    let c = g.field("actors"@);
    lemma_row_lines(RowKind::Agent, a.fields(), ordered(a.fields().dom()));
    lemma_row_lines(RowKind::Pg, b.fields(), ordered(b.fields().dom()));
    lemma_row_lines(RowKind::Actor, c.fields(), ordered(c.fields().dom()));
    let x = table_lines(RowKind::Agent, a);
    let y = table_lines(RowKind::Pg, b);
    let z = table_lines(RowKind::Actor, c);
    lemma_closed_follows(line, x);
    lemma_closed_follows(line + x, y);
    lemma_closed_follows(line + x + y, z);
}

proof fn lemma_groups_lines(m: Map<Seq<char>, JsonV>, keys: Seq<Seq<char>>)
    requires
        forall|i: int| 0 <= i < keys.len() ==> group_quiet(#[trigger] keys[i], m[keys[i]]),
    ensures
        closed_off(groups_lines(m, keys)),
    decreases keys.len(),
{
    if keys.len() > 0 {
        let init = keys.drop_last();
        assert forall|i: int| 0 <= i < init.len() implies group_quiet(
            #[trigger] init[i],
            m[init[i]],
        ) by {
            assert(init[i] == keys[i]);
        }
        lemma_groups_lines(m, init);
        assert(group_quiet(keys[keys.len() - 1], m[keys[keys.len() - 1]]));
        lemma_group_lines(keys.last(), m[keys.last()]);
        lemma_closed_follows(groups_lines(m, init), group_lines(keys.last(), m[keys.last()]));
    }
}

/// Whether no text that a rendering shows says anything of a `GPU`.
pub open spec fn shown_quiet(data: JsonV) -> bool {
    let groups = data.field("groups"@).fields();
    let names = ordered(groups.dom());
    let peers = data.field("peers"@).fields();
    let ids = ordered(peers.dom());
    let islands = data.field("islands"@).items();
    &&& quiet(text_or(data.field("control_addr"@), "?"@))
    &&& quiet(text_or(data.field("hostname"@), "?"@))
    &&& forall|i: int| 0 <= i < ids.len() ==> peer_quiet(#[trigger] ids[i], peers[ids[i]])
    &&& forall|i: int| 0 <= i < islands.len() ==> fabric_quiet(#[trigger] islands[i])
    &&& forall|i: int| 0 <= i < names.len() ==> group_quiet(#[trigger] names[i], groups[names[i]])
}

proof fn lemma_rendered_quiet(data: JsonV, u: Seq<char>, t: Seq<char>)
    requires
        shown_quiet(data),
    ensures
        quiet(rendered(data, false, u, t)),
{
    let groups = data.field("groups"@).fields();
    let names = ordered(groups.dom());
    let peers = data.field("peers"@).fields();
    let ids = ordered(peers.dom());
    let islands = data.field("islands"@).items();
    let head = data.field("head_node_id"@);
    lemma_daemon_line(data);
    lemma_peers_lines(peers, ids, head);
    lemma_fabric_lines(islands);
    lemma_groups_lines(groups, names);
    let none = Seq::<char>::empty();
    let a = none + daemon_line(data);
    lemma_closed_follows(none, daemon_line(data));
    let b = a + peers_lines(peers, ids, head);
    lemma_closed_follows(a, peers_lines(peers, ids, head));
    let c = b + fabric_lines(islands);
    lemma_closed_follows(b, fabric_lines(islands));
    lemma_closed_follows(c, groups_lines(groups, names));
}

// ---------------------------------------------------------------------------
// The line of totals
// ---------------------------------------------------------------------------
/// Whether a text is a number, as `[0-9.]+` has it.
pub open spec fn figure(s: Seq<char>) -> bool {
    s.len() > 0 && forall|i: int| 0 <= i < s.len() ==> in_number(#[trigger] s[i])
}

/// The line of totals counts GPUs once: the numbers of the match are the totals.
proof fn lemma_totals_line(u: Seq<char>, t: Seq<char>, i: int, j: int, k: int)
    requires
        figure(u),
        figure(t),
        i == 11,
        j == i + u.len(),
        k == j + 1 + t.len(),
    ensures
        ({
            let s = totals_line(u, t);
            &&& counts_gpus_at(s, i, j, k)
            &&& s.subrange(i, j) == u
            &&& s.subrange(j + 1, k) == t
            &&& s.last() == '\n'
            &&& forall|x: int| 0 <= x < s.len() - 1 ==> #[trigger] s[x] != '\n'
            &&& forall|x: int, y: int, z: int| #[trigger]
                counts_gpus_at(s, x, y, z) ==> y == j && z == k
        }),
{
    let s = totals_line(u, t);
    reveal_strlit("Resources: ");
    reveal_strlit("/");
    reveal_strlit(" GPU (");
    reveal_strlit(" reserved in placement groups)\n");
    let d = " reserved in placement groups)\n"@;
    let e = k + 6;
    assert(s.len() == e + u.len() + d.len());
    assert forall|x: int| i <= x < j implies in_number(#[trigger] s[x]) by {
        assert(s[x] == u[x - i]);
    }
    assert forall|x: int| j < x < k implies in_number(#[trigger] s[x]) by {
        assert(s[x] == t[x - j - 1]);
    }
    assert(counts_gpus_at(s, i, j, k));
    assert(s.subrange(i, j) =~= u);
    assert(s.subrange(j + 1, k) =~= t);
    lemma_tail_literal();
    assert forall|x: int| 0 <= x < s.len() && x != k + 1 implies #[trigger] s[x] != 'G' && (s[x]
        == '\n' ==> x == s.len() - 1) by {
        if x < i {
            assert(s[x] == "Resources: "@[x]);
            lemma_first_literal(x);
        } else if x < j {
            assert(in_number(s[x]));
        } else if x < k {
            if x > j {
                assert(in_number(s[x]));
            }
        } else if x < e {
            assert(s[x] == " GPU ("@[x - k]);
        } else if x < e + u.len() {
            assert(s[x] == u[x - e]);
            assert(in_number(u[x - e]));
        } else {
            assert(s[x] == d[x - e - u.len()]);
        }
    }
    assert(s[s.len() - 1] == d[d.len() - 1]);
    assert forall|x: int, y: int, z: int| #[trigger] counts_gpus_at(s, x, y, z) implies y == j && z
        == k by {
        assert(s[z + 1] == 'G');
        assert(z == k);
        if y < j {
            assert(in_number(s[j]));
        } else if y > j {
            assert(in_number(s[y]));
        }
    }
}

proof fn lemma_first_literal(x: int)
    requires
        0 <= x < 11,
    ensures
        "Resources: "@[x] != 'G',
        "Resources: "@[x] != '\n',
{
    reveal_strlit("Resources: ");
}

/// Whether a text up to `n` has neither a `G` nor a line end.
spec fn inline_to(s: Seq<char>, n: nat) -> bool
    decreases n,
{
    n == 0 || (s[n - 1] != 'G' && s[n - 1] != '\n' && inline_to(s, (n - 1) as nat))
}

proof fn lemma_inline_to(s: Seq<char>, n: nat)
    requires
        inline_to(s, n),
        n <= s.len(),
    ensures
        forall|i: int| 0 <= i < n ==> #[trigger] s[i] != 'G' && s[i] != '\n',
    decreases n,
{
    if n > 0 {
        lemma_inline_to(s, (n - 1) as nat);
    }
}

proof fn lemma_tail_literal()
    ensures
        ({
            let d = " reserved in placement groups)\n"@;
            &&& d.len() == 31
            &&& d[30] == '\n'
            &&& forall|i: int| 0 <= i < 30 ==> #[trigger] d[i] != 'G' && d[i] != '\n'
        }),
{
    reveal_strlit(" reserved in placement groups)\n");
    reveal_with_fuel(inline_to, 32);
    lemma_inline_to(" reserved in placement groups)\n"@, 30);
}

/// In group scope exactly one line counts GPUs the way a start-up script greps for
/// them, `[0-9.]+/[0-9.]+ GPU`: the first, once, with the figures for its numbers.
/// Out of scope none does. A text that itself says `GPU` can count as well, so
/// the texts shown are those that do not.
pub proof fn law_one_line_counts_gpus(
    data: JsonV,
    used: Seq<char>,
    total: Seq<char>,
    u: Seq<char>,
    t: Seq<char>,
)
    requires
        shown_quiet(data),
        figure(used),
        figure(total),
    ensures
        ({
            let line = totals_line(used, total);
            let rest = rendered(data, false, u, t);
            &&& rendered(data, true, used, total) == line + rest
            &&& line.last() == '\n'
            &&& forall|x: int| 0 <= x < line.len() - 1 ==> #[trigger] line[x] != '\n'
            &&& exists|i: int, j: int, k: int|
                {
                    &&& #[trigger] counts_gpus_at(line, i, j, k)
                    &&& line.subrange(i, j) == used
                    &&& line.subrange(j + 1, k) == total
                    &&& forall|x: int, y: int, z: int| #[trigger]
                        counts_gpus_at(line, x, y, z) ==> y == j && z == k
                }
            &&& !counts_gpus(rest)
        }),
{
    law_the_totals_line_comes_first(data, used, total, u, t);
    let i: int = 11;
    let j: int = i + used.len();
    let k: int = j + 1 + total.len();
    lemma_totals_line(used, total, i, j, k);
    lemma_rendered_quiet(data, u, t);
    let rest = rendered(data, false, u, t);
    assert forall|x: int, y: int, z: int| !counts_gpus_at(rest, x, y, z) by {
        if counts_gpus_at(rest, x, y, z) {
            assert(rest[z + 1] == 'G');
        }
    }
}

} // verus!
