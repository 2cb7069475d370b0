//! How a target process is named for attaching: by process name or by window class.

use vstd::prelude::*;

use crate::config::{opt_text, ResolvedAttach};
use crate::text::{ascii_lower, chars_of, lower_range_is, owned, string_of, trim, trim_range};

verus! {

/// What identifies the target process.
#[derive(Debug, Clone, PartialEq, Eq)]
pub enum Locator {
    /// A process name, `.exe` optional, compared without regard to case.
    Name(String),
    /// The class of one of the process's top-level windows.
    Class(String),
}

/// The message when neither a process name nor a window class was given.
pub open spec fn no_target_text() -> Seq<char> {
    "specify --process <name> or --class <window-class>"@
}

/// The locator of resolved attach settings: the process name if there is one, else the window
/// class; with neither, the message asking for one.
pub fn locator(at: &ResolvedAttach) -> (r: Result<Locator, String>)
    ensures
        match (opt_text(at.process), opt_text(at.class)) {
            (Some(p), _) => r matches Ok(Locator::Name(n)) && n@ == p,
            (None, Some(c)) => r matches Ok(Locator::Class(n)) && n@ == c,
            (None, None) => r matches Err(e) && e@ == no_target_text(),
        },
{
    if let Some(process) = &at.process {
        Ok(Locator::Name(process.clone()))
    } else if let Some(class) = &at.class {
        Ok(Locator::Class(class.clone()))
    } else {
        Err(owned("specify --process <name> or --class <window-class>"))
    }
}

/// The locator a desktop scan request names: `class` (in any letter case) selects a window class,
/// anything else a process name; either way the target text is kept as given.
pub open spec fn spec_request_locator(kind: Seq<char>, target: Seq<char>) -> (bool, Seq<char>) {
    (kind.map_values(|c: char| ascii_lower(c)) == "class"@, target)
}

pub fn request_locator(kind: &str, target: &str) -> (r: Locator)
    ensures
        match r {
            Locator::Class(t) => spec_request_locator(kind@, target@) == (true, t@),
            Locator::Name(t) => spec_request_locator(kind@, target@) == (false, t@),
        },
{
    let cs = chars_of(kind);
    assert(cs@.subrange(0, cs@.len() as int) =~= kind@);
    if lower_range_is(&cs, 0, cs.len(), "class") {
        Locator::Class(owned(target))
    } else {
        Locator::Name(owned(target))
    }
}

/// The module name a desktop scan reports: the requested module, trimmed, or the trimmed target
/// when no module was given.
pub open spec fn spec_scan_module_name(module: Seq<char>, target: Seq<char>) -> Seq<char> {
    if trim(module).len() == 0 {
        trim(target)
    } else {
        trim(module)
    }
}

pub fn scan_module_name(module: &str, target: &str) -> (r: String)
    ensures
        r@ == spec_scan_module_name(module@, target@),
{
    let m = chars_of(module);
    assert(m@.subrange(0, m@.len() as int) =~= module@);
    let (a, b) = trim_range(&m, 0, m.len());
    if a == b {
        let t = chars_of(target);
        assert(t@.subrange(0, t@.len() as int) =~= target@);
        let (c, d) = trim_range(&t, 0, t.len());
        string_of(&t, c, d)
    } else {
        string_of(&m, a, b)
    }
}

} // verus!
