//! One-line structured logging. Everything that changes state gets exactly one
//! line, so "why did rank 0 die" is answerable from the log.

use vstd::prelude::*;
use vstd::string::*;

use crate::common::quote::{debug_quoted, debug_text};
use crate::common::text::{
    chars_of, dec, dec_wide, decimal, digit, lemma_decimal_reads_back, opt_text,
};

verus! {

/// Which program the lines are labelled with.
#[derive(Debug)]
pub struct Program {
    pub name: Option<String>,
}

/// The label of the lines: the program's name, or the default one.
pub open spec fn label_of(name: Option<Seq<char>>) -> Seq<char> {
    match name {
        Some(n) => n,
        None => "mentat"@,
    }
}

impl Program {
    /// A log without a name of its own.
    pub fn new() -> (r: Program)
        ensures
            opt_text(r.name) is None,
    {
        Program { name: None }
    }

    /// Labels every line with `program`, so a merged log says which binary
    /// spoke. A second call changes nothing.
    pub fn set_program(&mut self, program: &str)
        ensures
            opt_text(final(self).name) == (match opt_text(old(self).name) {
                Some(n) => Some(n),
                None => Some(program@),
            }),
    {
        if self.name.is_none() {
            self.name = Some(program.to_string());
        }
    }

    /// One line of the log: when, what, and its fields. It is one line whatever the
    /// values hold.
    pub fn line(&self, ms: u128, event: &str, fields: &Vec<(String, String)>) -> (r: String)
        ensures
            r@ == line_of(label_of(opt_text(self.name)), ms, event@, field_views(fields@)),
            names_one_line(label_of(opt_text(self.name)), event@, field_views(fields@))
                ==> one_line(r@),
    {
        let mut out = match &self.name {
            Some(n) => n.clone(),
            None => "mentat".to_string(),
        };
        out.append(" ts=");
        out.append(dec_wide(ms / 1000).as_str());
        out.append(".");
        out.append(padded((ms % 1000) as u64).as_str());
        out.append(" event=");
        out.append(event);
        let ghost head = out@;
        let ghost all = field_views(fields@);
        let ghost plain = names_one_line(label_of(opt_text(self.name)), event@, all);
        let mut i: usize = 0;
        proof {
            assert(head + Seq::<char>::empty() =~= head);
            if plain {
                lemma_head_one_line(label_of(opt_text(self.name)), ms, event@);
            }
        }
        while i < fields.len()
            invariant
                i <= fields@.len(),
                all == field_views(fields@),
                out@ == head + fields_text(all.take(i as int)),
                plain == names_one_line(label_of(opt_text(self.name)), event@, all),
                plain ==> one_line(out@),
            decreases fields@.len() - i,
        {
            let k = fields[i].0.as_str();
            let v = fields[i].1.as_str();
            proof {
                assert(all.take(i + 1).drop_last() =~= all.take(i as int));
                assert(all.take(i + 1).last() == (k@, v@));
            }
            let ghost before = out@;
            out.append(" ");
            out.append(k);
            out.append("=");
            if needs_quotes(v) {
                out.append(debug_quoted(v).as_str());
            } else {
                out.append(v);
            }
            proof {
                assert(out@ =~= before + field_text(k@, v@));
                assert(out@ =~= head + fields_text(all.take(i + 1)));
                if plain {
                    assert(all[i as int] == (k@, v@));
                    lemma_field_one_line(k@, v@);
                    lemma_one_line_joins(before, field_text(k@, v@));
                }
            }
            i += 1;
        }
        proof {
            assert(all.take(all.len() as int) =~= all);
        }
        out
    }
}

/// Three digits, for a number under a thousand.
pub open spec fn three_digits(n: nat) -> Seq<char> {
    if n < 10 {
        "00"@ + decimal(n)
    } else if n < 100 {
        "0"@ + decimal(n)
    } else {
        decimal(n)
    }
}

fn padded(n: u64) -> (r: String)
    ensures
        r@ == three_digits(n as nat),
{
    if n < 10 {
        let mut s = "00".to_string();
        s.append(dec(n).as_str());
        s
    } else if n < 100 {
        let mut s = "0".to_string();
        s.append(dec(n).as_str());
        s
    } else {
        dec(n)
    }
}

/// Whether a value is quoted: one with a space, a quote or a line end in it.
pub open spec fn quoted(v: Seq<char>) -> bool {
    exists|i: int| 0 <= i < v.len() && (#[trigger] v[i] == ' ' || v[i] == '"' || v[i] == '\n')
}

fn needs_quotes(v: &str) -> (r: bool)
    ensures
        r == quoted(v@),
{
    let cs = chars_of(v);
    let mut i: usize = 0;
    while i < cs.len()
        invariant
            i <= cs@.len(),
            cs@ == v@,
            forall|j: int|
                0 <= j < i ==> !(#[trigger] v@[j] == ' ' || v@[j] == '"' || v@[j] == '\n'),
        decreases cs@.len() - i,
    {
        let c = cs[i];
        if c == ' ' || c == '"' || c == '\n' {
            proof {
                assert(v@[i as int] == c);
            }
            return true;
        }
        i += 1;
    }
    false
}

/// Whether a text is on one line.
pub open spec fn one_line(s: Seq<char>) -> bool {
    forall|i: int| 0 <= i < s.len() ==> #[trigger] s[i] != '\n'
}

/// Whether what a line is labelled with, its event, and the names of its fields
/// are on one line.
pub open spec fn names_one_line(
    label: Seq<char>,
    event: Seq<char>,
    fields: Seq<(Seq<char>, Seq<char>)>,
) -> bool {
    one_line(label) && one_line(event) && forall|i: int|
        0 <= i < fields.len() ==> one_line((#[trigger] fields[i]).0)
}

proof fn lemma_one_line_joins(a: Seq<char>, b: Seq<char>)
    requires
        one_line(a),
        one_line(b),
    ensures
        one_line(a + b),
{
}

proof fn lemma_decimal_one_line(n: nat)
    ensures
        one_line(decimal(n)),
{
    lemma_decimal_reads_back(n);
    assert forall|i: int| 0 <= i < decimal(n).len() implies #[trigger] decimal(n)[i] != '\n' by {
        assert(digit(decimal(n)[i]));
    }
}

proof fn lemma_head_one_line(label: Seq<char>, ms: u128, event: Seq<char>)
    requires
        one_line(label),
        one_line(event),
    ensures
        one_line(
            label + " ts="@ + decimal((ms / 1000) as nat) + "."@ + three_digits(
                (ms % 1000) as nat,
            ) + " event="@ + event,
        ),
{
    reveal_strlit(" ts=");
    reveal_strlit(".");
    reveal_strlit(" event=");
    reveal_strlit("0");
    reveal_strlit("00");
    lemma_decimal_one_line((ms / 1000) as nat);
    lemma_decimal_one_line((ms % 1000) as nat);
    assert(one_line("0"@));
    assert(one_line("00"@));
    assert(one_line(" ts="@));
    assert(one_line("."@));
    assert(one_line(" event="@));
    let d = decimal((ms / 1000) as nat);
    let m = three_digits((ms % 1000) as nat);
    lemma_one_line_joins("00"@, decimal((ms % 1000) as nat));
    lemma_one_line_joins("0"@, decimal((ms % 1000) as nat));
    lemma_one_line_joins(label, " ts="@);
    lemma_one_line_joins(label + " ts="@, d);
    lemma_one_line_joins(label + " ts="@ + d, "."@);
    lemma_one_line_joins(label + " ts="@ + d + "."@, m);
    lemma_one_line_joins(label + " ts="@ + d + "."@ + m, " event="@);
    lemma_one_line_joins(label + " ts="@ + d + "."@ + m + " event="@, event);
}

proof fn lemma_field_one_line(k: Seq<char>, v: Seq<char>)
    requires
        one_line(k),
        quoted(v) ==> one_line(debug_text(v)),
    ensures
        one_line(field_text(k, v)),
{
    reveal_strlit(" ");
    reveal_strlit("=");
    assert(one_line(" "@));
    assert(one_line("="@));
    if !quoted(v) {
        assert forall|i: int| 0 <= i < v.len() implies #[trigger] v[i] != '\n' by {
        }
    }
    lemma_one_line_joins(" "@, k);
    lemma_one_line_joins(" "@ + k, "="@);
    lemma_one_line_joins(
        " "@ + k + "="@,
        if quoted(v) {
            debug_text(v)
        } else {
            v
        },
    );
}

/// One field of a line. A value with a space, a quote or a line end in it
/// is quoted.
pub open spec fn field_text(k: Seq<char>, v: Seq<char>) -> Seq<char> {
    " "@ + k + "="@ + (if quoted(v) {
        debug_text(v)
    } else {
        v
    })
}

/// The fields of a line.
pub open spec fn fields_text(fields: Seq<(Seq<char>, Seq<char>)>) -> Seq<char>
    decreases fields.len(),
{
    if fields.len() == 0 {
        Seq::empty()
    } else {
        fields_text(fields.drop_last()) + field_text(fields.last().0, fields.last().1)
    }
}

/// Fields as mathematical values.
pub open spec fn field_views(v: Seq<(String, String)>) -> Seq<(Seq<char>, Seq<char>)> {
    Seq::new(v.len(), |i: int| (v[i].0@, v[i].1@))
}

/// One line of the log.
pub open spec fn line_of(
    label: Seq<char>,
    ms: u128,
    event: Seq<char>,
    fields: Seq<(Seq<char>, Seq<char>)>,
) -> Seq<char> {
    label + " ts="@ + decimal((ms / 1000) as nat) + "."@ + three_digits((ms % 1000) as nat)
        + " event="@ + event + fields_text(fields)
}

} // verus!
