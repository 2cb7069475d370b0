//! The stages of the unpack pipeline and how each front end names them.

use vstd::prelude::*;

use crate::exit::{CliError, ExitKind};
use crate::text::{chars_of, decimal, push_char, push_decimal, push_str, string_of, trim, trim_range};

verus! {

/// A step of the unpack pipeline, reported as it starts.
#[derive(Debug, Clone, Copy, PartialEq, Eq, Structural)]
pub enum Stage {
    Locate,
    Dump,
    Clean,
    Verify,
    Done,
}

/// The command line's progress wording of each stage.
pub open spec fn spec_stage_label(s: Stage) -> Seq<char> {
    match s {
        Stage::Locate => "locating dumper"@,
        Stage::Dump => "dumping (unlicense)"@,
        Stage::Clean => "cleaning"@,
        Stage::Verify => "verifying"@,
        Stage::Done => "done"@,
    }
}

/// The short stage names of the desktop panel's progress events.
pub open spec fn spec_stage_str(s: Stage) -> Seq<char> {
    match s {
        Stage::Locate => "locate"@,
        Stage::Dump => "dump"@,
        Stage::Clean => "clean"@,
        Stage::Verify => "verify"@,
        Stage::Done => "done"@,
    }
}

pub fn stage_label(s: Stage) -> (r: &'static str)
    ensures
        r@ == spec_stage_label(s),
{
    match s {
        Stage::Locate => "locating dumper",
        Stage::Dump => "dumping (unlicense)",
        Stage::Clean => "cleaning",
        Stage::Verify => "verifying",
        Stage::Done => "done",
    }
}

pub fn stage_str(s: Stage) -> (r: &'static str)
    ensures
        r@ == spec_stage_str(s),
{
    match s {
        Stage::Locate => "locate",
        Stage::Dump => "dump",
        Stage::Clean => "clean",
        Stage::Verify => "verify",
        Stage::Done => "done",
    }
}

/// The file name the dumper writes for a packed file named `name`.
pub open spec fn spec_dump_file_name(name: Seq<char>) -> Seq<char> {
    "unpacked_"@ + name
}

pub fn dump_file_name(name: &str) -> (r: String)
    ensures
        r@ == spec_dump_file_name(name@),
{
    let mut s = String::new();
    push_str(&mut s, "unpacked_");
    push_str(&mut s, name);
    s
}

/// A process exit code as text, or `signal` when the process was ended by one.
pub open spec fn exit_code_text(code: Option<i32>) -> Seq<char> {
    match code {
        Some(c) => if c < 0 {
            seq!['-'] + decimal((-c) as nat)
        } else {
            decimal(c as nat)
        },
        None => "signal"@,
    }
}

/// The failure of a dumper run: its exit code and what it printed on its error stream, trimmed.
pub open spec fn spec_dumper_failure(code: Option<i32>, detail: Seq<char>) -> Seq<char> {
    "unlicense failed (exit "@ + exit_code_text(code) + "). "@ + trim(detail)
}

pub fn dumper_failure(code: Option<i32>, detail: &str) -> (r: String)
    ensures
        r@ == spec_dumper_failure(code, detail@),
{
    let mut s = String::new();
    push_str(&mut s, "unlicense failed (exit ");
    match code {
        Some(c) => {
            if c < 0 {
                push_char(&mut s, '-');
                let m: i64 = -(c as i64);
                push_decimal(&mut s, m as u64);
            } else {
                push_decimal(&mut s, c as u64);
            }
        },
        None => push_str(&mut s, "signal"),
    }
    push_str(&mut s, "). ");
    let cs = chars_of(detail);
    assert(cs@.subrange(0, cs@.len() as int) =~= detail@);
    let (a, b) = trim_range(&cs, 0, cs.len());
    let t = string_of(&cs, a, b);
    push_str(&mut s, t.as_str());
    assert(s@ =~= spec_dumper_failure(code, detail@));
    s
}

/// A file that an `--out` path would overwrite while the unpack still reads it.
#[derive(Debug, Clone, Copy, PartialEq, Eq, Structural)]
pub enum OutClash {
    Input,
    Packed,
    Dump,
}

/// Which file `--out` names, checked in order: the input, then the packed reference when one is
/// given, then the intermediate dump when one will be written. Each argument says whether `--out`
/// is that file (`None`: there is no such file to clash with).
pub open spec fn spec_out_clash(
    same_input: bool,
    same_packed: Option<bool>,
    same_dump: Option<bool>,
) -> Option<OutClash> {
    if same_input {
        Some(OutClash::Input)
    } else if same_packed == Some(true) {
        Some(OutClash::Packed)
    } else if same_dump == Some(true) {
        Some(OutClash::Dump)
    } else {
        None
    }
}

pub fn out_clash(same_input: bool, same_packed: Option<bool>, same_dump: Option<bool>) -> (r: Option<
    OutClash,
>)
    ensures
        r == spec_out_clash(same_input, same_packed, same_dump),
{
    if same_input {
        return Some(OutClash::Input);
    }
    if let Some(true) = same_packed {
        return Some(OutClash::Packed);
    }
    if let Some(true) = same_dump {
        return Some(OutClash::Dump);
    }
    None
}

/// The refusal for an `--out` that would overwrite a file still being read.
pub open spec fn clash_text(c: OutClash) -> Seq<char> {
    match c {
        OutClash::Input => "refusing to overwrite the input with --out"@,
        OutClash::Packed => "refusing to overwrite the packed reference with --out"@,
        OutClash::Dump => "refusing to overwrite the intermediate dump with --out"@,
    }
}

/// The error an `--out` clash ends the unpack with: invalid input, with the refusal.
pub fn clash_error(c: OutClash) -> (r: CliError)
    ensures
        r.kind == ExitKind::InvalidInput,
        r.msg@ == clash_text(c),
{
    let msg = match c {
        OutClash::Input => "refusing to overwrite the input with --out",
        OutClash::Packed => "refusing to overwrite the packed reference with --out",
        OutClash::Dump => "refusing to overwrite the intermediate dump with --out",
    };
    CliError::new(ExitKind::InvalidInput, crate::text::owned(msg))
}

} // verus!
