//! What a box is, as its probe reports it. Every failure here stops the
//! program: an agent that registers no devices starts normally, and fails
//! minutes later as a scheduling error in another process.

use vstd::prelude::*;
use vstd::string::*;

use crate::common::bytes::{lossy_text, text_lossy};
use crate::common::text::{opt_text, trim, trimmed};
use crate::daemon::entry::{set_to, setting};

verus! {

/// The probe's name. It holds the vendor detection: a part it does not know
/// needs an edit there, and nothing here.
pub const PROBE: &'static str = "mentatd-probe-machine";

/// A place where the probe may be.
#[derive(Debug)]
pub struct Place {
    pub path: String,
    pub is_file: bool,
}

/// The first of some places that holds a file.
pub open spec fn first_file(v: Seq<Place>) -> Option<Seq<char>>
    decreases v.len(),
{
    if v.len() == 0 {
        None
    } else if v[0].is_file {
        Some(v[0].path@)
    } else {
        first_file(v.skip(1))
    }
}

/// Where the probe is: where it is said to be, or else the first place that
/// holds it.
pub open spec fn probe_at(named: Option<Seq<char>>, places: Seq<Place>) -> Option<Seq<char>> {
    match named {
        Some(p) if p.len() > 0 => Some(p),
        _ => first_file(places),
    }
}

/// Where the probe is: where it is said to be, or else the first place that
/// holds it.
pub fn probe_path(named: &Option<String>, places: &Vec<Place>) -> (r: Option<String>)
    ensures
        opt_text(r) == probe_at(opt_text(*named), places@),
{
    if let Some(p) = named {
        if !p.as_str().is_empty() {
            return Some(p.clone());
        }
    }
    let ghost all = places@;
    let mut i: usize = 0;
    proof {
        assert(all.skip(0) =~= all);
    }
    while i < places.len()
        invariant
            i <= all.len(),
            all == places@,
            first_file(all) == first_file(all.skip(i as int)),
            probe_at(opt_text(*named), all) == first_file(all),
        decreases all.len() - i,
    {
        proof {
            assert(all.skip(i as int)[0] == all[i as int]);
            assert(all.skip(i as int).skip(1) =~= all.skip(i + 1));
        }
        if places[i].is_file {
            return Some(places[i].path.clone());
        }
        i += 1;
    }
    None
}

/// How a box's inventory is come by.
#[derive(Debug)]
pub enum Source {
    /// It was given, in place of what the probe says.
    Given { raw: String },
    /// The probe is to be run.
    Run { probe: String },
    Fatal { why: String },
}

/// A `Source` as a mathematical value.
pub enum SourceV {
    Given { raw: Seq<char> },
    Run { probe: Seq<char> },
    Fatal { why: Seq<char> },
}

impl View for Source {
    type V = SourceV;

    open spec fn view(&self) -> SourceV {
        match self {
            Source::Given { raw } => SourceV::Given { raw: raw@ },
            Source::Run { probe } => SourceV::Run { probe: probe@ },
            Source::Fatal { why } => SourceV::Fatal { why: why@ },
        }
    }
}

/// What is said where there is no probe.
pub open spec fn no_probe() -> Seq<char> {
    "no "@ + PROBE@
        + " beside this binary or on PATH. Install it, or set MENTAT_MACHINE to the inventory this box has"@
}

/// How a box's inventory is come by. A setting that is exported with no value
/// is not a request to pass the probe by.
pub open spec fn source_of(given: Option<Seq<char>>, probe: Option<Seq<char>>) -> SourceV {
    match set_to(given) {
        Some(raw) => SourceV::Given { raw },
        None => match probe {
            Some(p) => SourceV::Run { probe: p },
            None => SourceV::Fatal { why: no_probe() },
        },
    }
}

/// How a box's inventory is come by.
pub fn machine_source(given: Option<&str>, probe: Option<String>) -> (r: Source)
    ensures
        r@ == source_of(
            match given {
                Some(s) => Some(s@),
                None => None,
            },
            opt_text(probe),
        ),
{
    if let Some(raw) = setting(given) {
        return Source::Given { raw };
    }
    match probe {
        Some(p) => Source::Run { probe: p },
        None => {
            let mut why = "no ".to_string();
            why.append(PROBE);
            why.append(
                " beside this binary or on PATH. Install it, or set MENTAT_MACHINE to the inventory this box has",
            );
            Source::Fatal { why }
        },
    }
}

/// How a run of the probe went.
#[derive(Debug)]
pub enum Run {
    Failed { error: String },
    /// It ran to its end; `status` is how the system shows that end.
    Ended { success: bool, status: String, stdout: Vec<u8>, stderr: Vec<u8> },
}

/// What a run of the probe comes to: the text it wrote, or what is said of the
/// failure.
pub open spec fn probe_said(probe: Seq<char>, run: Run) -> Result<Seq<char>, Seq<char>> {
    match run {
        Run::Failed { error } => Err(probe + " did not run: "@ + error@),
        Run::Ended { success, status, stdout, stderr } => if success {
            Ok(lossy_text(stdout@))
        } else {
            Err(probe + " exited "@ + status@ + ": "@ + trimmed(lossy_text(stderr@)))
        },
    }
}

/// What a run of the probe comes to.
pub fn probe_ran(probe: &str, run: &Run) -> (r: Result<String, String>)
    ensures
        match r {
            Ok(s) => probe_said(probe@, *run) == Ok::<Seq<char>, Seq<char>>(s@),
            Err(e) => probe_said(probe@, *run) == Err::<Seq<char>, Seq<char>>(e@),
        },
{
    match run {
        Run::Failed { error } => {
            let mut why = probe.to_string();
            why.append(" did not run: ");
            why.append(error.as_str());
            Err(why)
        },
        Run::Ended { success, status, stdout, stderr } => if *success {
            Ok(text_lossy(stdout.as_slice()))
        } else {
            let said = text_lossy(stderr.as_slice());
            let mut why = probe.to_string();
            why.append(" exited ");
            why.append(status.as_str());
            why.append(": ");
            why.append(trim(said.as_str()));
            Err(why)
        },
    }
}

/// What is said of a text that writes no machine.
pub open spec fn not_machine(from: Seq<char>, error: Seq<char>, raw: Seq<char>) -> Seq<char> {
    from + " is not a machine: "@ + error + ": "@ + trimmed(raw)
}

/// What is said of a text that writes no machine.
pub fn no_machine(from: &str, error: &str, raw: &str) -> (r: String)
    ensures
        r@ == not_machine(from@, error@, raw@),
{
    let mut why = from.to_string();
    why.append(" is not a machine: ");
    why.append(error);
    why.append(": ");
    why.append(trim(raw));
    why
}

} // verus!
