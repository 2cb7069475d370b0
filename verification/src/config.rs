//! The configuration file of defaults (`key = value` lines), and how command-line values and those
//! defaults combine into the settings a command runs with: the command line wins, the file fills
//! the gaps, and fixed defaults fill what is left.

use std::path::PathBuf;
use std::time::Duration;

use vstd::prelude::*;

use crate::pattern::{arch_error_text, spec_parse_arch, Arch};
use crate::text::{
    ascii_lower, chars_of, decimal, find_char, find_char_in, hex_digit_char, is_ws, lower,
    lower_range_is, push_char, push_decimal, push_str, range_is, string_of, trim, trim_end,
    trim_range, trim_start, upper_hex,
};

verus! {

#[verifier::external_type_specification]
#[verifier::external_body]
pub struct ExPathBuf(std::path::PathBuf);

/// The path that `PathBuf::from` makes of the text `s`.
pub uninterp spec fn path_of(s: Seq<char>) -> PathBuf;

/// `PathBuf::from(&str)`: the path whose text is `s`, the same for the same text.
#[verifier::external_body]
fn path_from(s: &str) -> (r: PathBuf)
    ensures
        r == path_of(s@),
{
    PathBuf::from(s)
}

/// `<PathBuf as Clone>::clone`: a path equal to `p`.
#[verifier::external_body]
fn clone_path(p: &PathBuf) -> (r: PathBuf)
    ensures
        r == *p,
{
    p.clone()
}

/// The duration that `Duration::from_secs` makes of `s` seconds.
pub uninterp spec fn secs_duration(s: u64) -> Duration;

/// `Duration::from_secs`: `s` whole seconds, the same for the same count.
#[verifier::external_body]
fn duration_from_secs(s: u64) -> (r: Duration)
    ensures
        r == secs_duration(s),
{
    Duration::from_secs(s)
}

/// Defaults read from a configuration file; every setting is optional.
pub struct Config {
    pub process: Option<String>,
    pub module: Option<String>,
    pub arch: Option<Arch>,
    pub patterns: Option<PathBuf>,
    pub out: Option<PathBuf>,
    pub strict: Option<bool>,
}

/// The settings of a configuration file, with each path setting held as the text it was given as.
pub struct ConfigModel {
    pub process: Option<Seq<char>>,
    pub module: Option<Seq<char>>,
    pub arch: Option<Arch>,
    pub patterns: Option<Seq<char>>,
    pub out: Option<Seq<char>>,
    pub strict: Option<bool>,
}

/// The configuration with nothing set.
pub open spec fn empty_config() -> ConfigModel {
    ConfigModel { process: None, module: None, arch: None, patterns: None, out: None, strict: None }
}

pub open spec fn opt_text(o: Option<String>) -> Option<Seq<char>> {
    match o {
        Some(s) => Some(s@),
        None => None,
    }
}

pub open spec fn opt_path(o: Option<Seq<char>>) -> Option<PathBuf> {
    match o {
        Some(s) => Some(path_of(s)),
        None => None,
    }
}

/// `cfg` holds the settings `m`.
pub open spec fn config_is(cfg: Config, m: ConfigModel) -> bool {
    &&& opt_text(cfg.process) == m.process
    &&& opt_text(cfg.module) == m.module
    &&& cfg.arch == m.arch
    &&& cfg.patterns == opt_path(m.patterns)
    &&& cfg.out == opt_path(m.out)
    &&& cfg.strict == m.strict
}

impl Default for Config {
    fn default() -> (r: Self)
        ensures
            config_is(r, empty_config()),
    {
        Config { process: None, module: None, arch: None, patterns: None, out: None, strict: None }
    }
}

/// A yes/no setting: `true`, `yes`, `on`, `1` or `false`, `no`, `off`, `0`, in any letter case and
/// with surrounding whitespace; anything else is refused, quoting the value lower-cased.
pub open spec fn spec_parse_bool(v: Seq<char>) -> Result<bool, Seq<char>> {
    let l = trim(v).map_values(|c: char| ascii_lower(c));
    if l == "true"@ || l == "yes"@ || l == "on"@ || l == "1"@ {
        Ok(true)
    } else if l == "false"@ || l == "no"@ || l == "off"@ || l == "0"@ {
        Ok(false)
    } else {
        Err("expected a boolean, got '"@ + l + "'"@)
    }
}

/// The position prefix of a message about line `n` of the file labelled `label`.
pub open spec fn at_line(label: Seq<char>, n: nat) -> Seq<char> {
    label + ":"@ + decimal(n)
}

/// What line number `n` of a configuration file, `raw`, does to the settings `m`.
pub open spec fn spec_config_line(raw: Seq<char>, n: nat, label: Seq<char>, m: ConfigModel) -> Result<
    ConfigModel,
    Seq<char>,
> {
    let line = trim(raw);
    if line.len() == 0 || line[0] == '#' {
        Ok(m)
    } else {
        let k = find_char(line, '=');
        if k >= line.len() {
            Err(at_line(label, n) + " expected key = value"@)
        } else {
            let key = trim(line.subrange(0, k));
            let val = trim(line.subrange(k + 1, line.len() as int));
            if key == "process"@ || key == "process_name"@ {
                Ok(ConfigModel { process: Some(val), ..m })
            } else if key == "module"@ || key == "module_name"@ {
                Ok(ConfigModel { module: Some(val), ..m })
            } else if key == "arch"@ {
                match spec_parse_arch(val) {
                    Some(a) => Ok(ConfigModel { arch: Some(a), ..m }),
                    None => Err(at_line(label, n) + " "@ + arch_error_text(val)),
                }
            } else if key == "patterns"@ {
                Ok(ConfigModel { patterns: Some(val), ..m })
            } else if key == "out"@ || key == "outputs"@ {
                Ok(ConfigModel { out: Some(val), ..m })
            } else if key == "strict"@ || key == "strict_patterns"@ {
                match spec_parse_bool(val) {
                    Ok(b) => Ok(ConfigModel { strict: Some(b), ..m }),
                    Err(e) => Err(at_line(label, n) + " "@ + e),
                }
            } else {
                Err(at_line(label, n) + " unknown key '"@ + key + "'"@)
            }
        }
    }
}

/// The settings after the lines of `rest` (split at `\n`, the first being line `n`), starting from
/// `m`; the first bad line's message otherwise.
pub open spec fn spec_config_text(rest: Seq<char>, n: nat, label: Seq<char>, m: ConfigModel) -> Result<
    ConfigModel,
    Seq<char>,
>
    decreases rest.len(),
{
    let j = find_char(rest, '\n');
    match spec_config_line(rest.subrange(0, j), n, label, m) {
        Err(e) => Err(e),
        Ok(m2) => if 0 <= j < rest.len() {
            spec_config_text(rest.subrange(j + 1, rest.len() as int), n + 1, label, m2)
        } else {
            Ok(m2)
        },
    }
}

/// The settings of a configuration file's text, lines numbered from 1, later lines overriding
/// earlier ones.
pub open spec fn spec_parse_config(text: Seq<char>, label: Seq<char>) -> Result<
    ConfigModel,
    Seq<char>,
> {
    spec_config_text(text, 1, label, empty_config())
}

/// The lower-cased characters of `[lo, hi)`.
fn lowered(cs: &Vec<char>, lo: usize, hi: usize) -> (r: String)
    requires
        lo <= hi <= cs@.len(),
    ensures
        r@ == cs@.subrange(lo as int, hi as int).map_values(|c: char| ascii_lower(c)),
{
    let mut out = String::new();
    let mut i: usize = lo;
    while i < hi
        invariant
            lo <= i <= hi <= cs@.len(),
            out@ == cs@.subrange(lo as int, i as int).map_values(|c: char| ascii_lower(c)),
        decreases hi - i,
    {
        push_char(&mut out, lower(cs[i]));
        assert(cs@.subrange(lo as int, i + 1).map_values(|c: char| ascii_lower(c))
            =~= cs@.subrange(lo as int, i as int).map_values(|c: char| ascii_lower(c)).push(
            ascii_lower(cs@[i as int]),
        ));
        i = i + 1;
    }
    out
}

/// The yes/no value of `[lo, hi)`.
fn parse_bool_in(cs: &Vec<char>, lo: usize, hi: usize) -> (r: Result<bool, String>)
    requires
        lo <= hi <= cs@.len(),
    ensures
        match spec_parse_bool(cs@.subrange(lo as int, hi as int)) {
            Ok(b) => r == Ok::<bool, String>(b),
            Err(e) => r matches Err(s) && s@ == e,
        },
{
    let (a, b) = trim_range(cs, lo, hi);
    if lower_range_is(cs, a, b, "true") || lower_range_is(cs, a, b, "yes") || lower_range_is(
        cs,
        a,
        b,
        "on",
    ) || lower_range_is(cs, a, b, "1") {
        Ok(true)
    } else if lower_range_is(cs, a, b, "false") || lower_range_is(cs, a, b, "no")
        || lower_range_is(cs, a, b, "off") || lower_range_is(cs, a, b, "0") {
        Ok(false)
    } else {
        let mut e = String::new();
        push_str(&mut e, "expected a boolean, got '");
        let l = lowered(cs, a, b);
        push_str(&mut e, l.as_str());
        push_str(&mut e, "'");
        Err(e)
    }
}

/// Read a yes/no setting.
pub fn parse_bool(v: &str) -> (r: Result<bool, String>)
    ensures
        match spec_parse_bool(v@) {
            Ok(b) => r == Ok::<bool, String>(b),
            Err(e) => r matches Err(s) && s@ == e,
        },
{
    let cs = chars_of(v);
    assert(cs@.subrange(0, cs@.len() as int) =~= v@);
    parse_bool_in(&cs, 0, cs.len())
}

/// Read an architecture setting (`32`, `x86`, `64`, `x64`).
pub fn parse_arch(s: &str) -> (r: Result<Arch, String>)
    ensures
        match spec_parse_arch(s@) {
            Some(a) => r == Ok::<Arch, String>(a),
            None => r matches Err(e) && e@ == arch_error_text(s@),
        },
{
    Arch::parse(s)
}

/// The message prefix `label:n`.
fn line_prefix(label: &str, n: u64) -> (r: String)
    ensures
        r@ == at_line(label@, n as nat),
{
    let mut e = String::new();
    push_str(&mut e, label);
    push_str(&mut e, ":");
    push_decimal(&mut e, n);
    e
}

/// Apply line number `n`, `[lo, hi)`, to `cfg`.
fn apply_line(
    cs: &Vec<char>,
    lo: usize,
    hi: usize,
    n: u64,
    label: &str,
    cfg: &mut Config,
    Ghost(m): Ghost<ConfigModel>,
) -> (r: Result<(), String>)
    requires
        lo <= hi <= cs@.len(),
        config_is(*old(cfg), m),
    ensures
        match spec_config_line(cs@.subrange(lo as int, hi as int), n as nat, label@, m) {
            Ok(m2) => r is Ok && config_is(*final(cfg), m2),
            Err(e) => r matches Err(s) && s@ == e,
        },
{
    let ghost raw = cs@.subrange(lo as int, hi as int);
    let (a, b) = trim_range(cs, lo, hi);
    let ghost line = cs@.subrange(a as int, b as int);
    if a == b || cs[a] == '#' {
        return Ok(());
    }
    let k = find_char_in(cs, a, b, '=');
    if k >= b {
        let mut e = line_prefix(label, n);
        push_str(&mut e, " expected key = value");
        return Err(e);
    }
    assert(line.subrange(0, k - a) =~= cs@.subrange(a as int, k as int));
    assert(line.subrange(k - a + 1, line.len() as int) =~= cs@.subrange(k + 1, b as int));
    let (k0, k1) = trim_range(cs, a, k);
    let (v0, v1) = trim_range(cs, k + 1, b);
    let ghost key = cs@.subrange(k0 as int, k1 as int);
    let ghost val = cs@.subrange(v0 as int, v1 as int);
    if range_is(cs, k0, k1, "process") || range_is(cs, k0, k1, "process_name") {
        cfg.process = Some(string_of(cs, v0, v1));
        Ok(())
    } else if range_is(cs, k0, k1, "module") || range_is(cs, k0, k1, "module_name") {
        cfg.module = Some(string_of(cs, v0, v1));
        Ok(())
    } else if range_is(cs, k0, k1, "arch") {
        let v = string_of(cs, v0, v1);
        match parse_arch(v.as_str()) {
            Ok(arch) => {
                cfg.arch = Some(arch);
                Ok(())
            },
            Err(msg) => {
                let mut e = line_prefix(label, n);
                push_str(&mut e, " ");
                push_str(&mut e, msg.as_str());
                Err(e)
            },
        }
    } else if range_is(cs, k0, k1, "patterns") {
        let v = string_of(cs, v0, v1);
        cfg.patterns = Some(path_from(v.as_str()));
        Ok(())
    } else if range_is(cs, k0, k1, "out") || range_is(cs, k0, k1, "outputs") {
        let v = string_of(cs, v0, v1);
        cfg.out = Some(path_from(v.as_str()));
        Ok(())
    } else if range_is(cs, k0, k1, "strict") || range_is(cs, k0, k1, "strict_patterns") {
        assert(cs@.subrange(v0 as int, v1 as int) == val);
        match parse_bool_in(cs, v0, v1) {
            Ok(flag) => {
                cfg.strict = Some(flag);
                Ok(())
            },
            Err(msg) => {
                let mut e = line_prefix(label, n);
                push_str(&mut e, " ");
                push_str(&mut e, msg.as_str());
                Err(e)
            },
        }
    } else {
        let mut e = line_prefix(label, n);
        push_str(&mut e, " unknown key '");
        let kt = string_of(cs, k0, k1);
        push_str(&mut e, kt.as_str());
        push_str(&mut e, "'");
        Err(e)
    }
}

/// Read a configuration file's text; `label` names the file in error messages, which give the line
/// number and refuse a line without `=`, an unknown key, or a bad architecture or yes/no value.
pub fn parse_config(text: &str, label: &str) -> (r: Result<Config, String>)
    ensures
        match spec_parse_config(text@, label@) {
            Ok(m) => r matches Ok(cfg) && config_is(cfg, m),
            Err(e) => r matches Err(s) && s@ == e,
        },
{
    let cs = chars_of(text);
    let len = cs.len();
    let mut cfg = Config::default();
    let ghost mut m = empty_config();
    let mut pos: usize = 0;
    let mut n: u64 = 1;
    assert(cs@.subrange(0, len as int) =~= text@);
    loop
        invariant
            pos <= len == cs@.len(),
            cs@ == text@,
            1 <= n <= pos + 1,
            config_is(cfg, m),
            spec_parse_config(text@, label@) == spec_config_text(
                cs@.subrange(pos as int, len as int),
                n as nat,
                label@,
                m,
            ),
        decreases len - pos,
    {
        let ghost rest = cs@.subrange(pos as int, len as int);
        let j = find_char_in(&cs, pos, len, '\n');
        assert(rest.subrange(0, j - pos) =~= cs@.subrange(pos as int, j as int));
        let ghost m2 = match spec_config_line(cs@.subrange(pos as int, j as int), n as nat, label@, m) {
            Ok(x) => x,
            Err(_) => m,
        };
        match apply_line(&cs, pos, j, n, label, &mut cfg, Ghost(m)) {
            Err(e) => {
                return Err(e);
            },
            Ok(()) => {},
        }
        proof {
            m = m2;
        }
        if j >= len {
            return Ok(cfg);
        }
        assert(rest.subrange(j - pos + 1, rest.len() as int) =~= cs@.subrange(j + 1, len as int));
        if j + 1 == len {
            let ghost e = cs@.subrange(len as int, len as int);
            assert(e.subrange(0, 0) =~= e);
            assert(trim_start(e) == e);
            assert(trim_end(e) == e);
            assert(spec_config_line(e, (n + 1) as nat, label@, m) == Ok::<ConfigModel, Seq<char>>(m));
            assert(spec_config_text(e, (n + 1) as nat, label@, m) == Ok::<ConfigModel, Seq<char>>(m));
            return Ok(cfg);
        }
        pos = j + 1;
        n = n + 1;
    }
}

/// Resolve the architecture: a command-line value wins and must name one, then the configuration
/// file, then x64.
pub fn resolve_arch(cli: Option<&str>, cfg: &Config) -> (r: Result<Arch, String>)
    ensures
        match cli {
            Some(s) => match spec_parse_arch(s@) {
                Some(a) => r == Ok::<Arch, String>(a),
                None => r matches Err(e) && e@ == arch_error_text(s@),
            },
            None => r == Ok::<Arch, String>(
                match cfg.arch {
                    Some(a) => a,
                    None => Arch::X64,
                },
            ),
        },
{
    match cli {
        Some(s) => parse_arch(s),
        None => match cfg.arch {
            Some(a) => Ok(a),
            None => Ok(Arch::X64),
        },
    }
}

/// Whether malformed pattern lines fail the load: `--lenient` turns it off, otherwise the
/// configuration file decides, and by default it is on.
pub fn resolve_strict(lenient: bool, cfg: &Config) -> (r: bool)
    ensures
        r == (!lenient && match cfg.strict {
            Some(b) => b,
            None => true,
        }),
{
    if lenient {
        return false;
    }
    match cfg.strict {
        Some(b) => b,
        None => true,
    }
}

/// The pattern file: the command line's, else the configuration file's, else `patterns.txt`.
pub fn resolve_patterns(cli: Option<&PathBuf>, cfg: &Config) -> (r: PathBuf)
    ensures
        r == match cli {
            Some(p) => *p,
            None => match cfg.patterns {
                Some(p) => p,
                None => path_of("patterns.txt"@),
            },
        },
{
    match cli {
        Some(p) => clone_path(p),
        None => match &cfg.patterns {
            Some(p) => clone_path(p),
            None => path_from("patterns.txt"),
        },
    }
}

/// The output directory: the command line's, else the configuration file's, else `.`.
pub fn resolve_out(cli: Option<&PathBuf>, cfg: &Config) -> (r: PathBuf)
    ensures
        r == match cli {
            Some(p) => *p,
            None => match cfg.out {
                Some(p) => p,
                None => path_of("."@),
            },
        },
{
    match cli {
        Some(p) => clone_path(p),
        None => match &cfg.out {
            Some(p) => clone_path(p),
            None => path_from("."),
        },
    }
}

/// How the command line names the target process and module.
pub struct AttachArgs {
    /// Attach by process name.
    pub process: Option<String>,
    /// Attach by top-level window class.
    pub class: Option<String>,
    /// Attach by process id.
    pub pid: Option<u32>,
    /// The module to scan.
    pub module: Option<String>,
    /// Fail at once if the target is not running.
    pub no_wait: bool,
    /// Seconds to wait for the target; 0 waits without limit.
    pub timeout: Option<u64>,
}

/// The attach settings a command runs with.
pub struct ResolvedAttach {
    pub process: Option<String>,
    pub class: Option<String>,
    pub pid: Option<u32>,
    pub module: String,
    pub wait: bool,
    pub timeout: Option<Duration>,
}

/// The process name attached by: a window class on the command line leaves none, else the command
/// line's name, else the configuration file's.
pub open spec fn resolved_process(a: AttachArgs, cfg: Config) -> Option<Seq<char>> {
    if a.class is Some {
        None
    } else if a.process is Some {
        opt_text(a.process)
    } else {
        opt_text(cfg.process)
    }
}

/// The module scanned: the command line's, else the configuration file's, else the process name
/// attached by, else `MapleStory.exe`.
pub open spec fn resolved_module(a: AttachArgs, cfg: Config) -> Seq<char> {
    match (a.module, cfg.module, resolved_process(a, cfg)) {
        (Some(m), _, _) => m@,
        (None, Some(m), _) => m@,
        (None, None, Some(p)) => p,
        (None, None, None) => "MapleStory.exe"@,
    }
}

/// A copy of an optional string.
fn clone_text(o: &Option<String>) -> (r: Option<String>)
    ensures
        opt_text(r) == opt_text(*o),
{
    match o {
        Some(s) => Some(s.clone()),
        None => None,
    }
}

/// Combine the command line's attach options with the configuration file's defaults.
pub fn resolve_attach(a: &AttachArgs, cfg: &Config) -> (r: ResolvedAttach)
    ensures
        opt_text(r.process) == resolved_process(*a, *cfg),
        opt_text(r.class) == opt_text(a.class),
        r.pid == a.pid,
        r.module@ == resolved_module(*a, *cfg),
        r.wait == !a.no_wait,
        r.timeout == match a.timeout {
            Some(s) if s > 0 => Some(secs_duration(s)),
            _ => None::<Duration>,
        },
{
    let (process, class) = if a.class.is_some() {
        (None, clone_text(&a.class))
    } else if a.process.is_some() {
        (clone_text(&a.process), None)
    } else {
        (clone_text(&cfg.process), None)
    };
    let module = match &a.module {
        Some(m) => m.clone(),
        None => match &cfg.module {
            Some(m) => m.clone(),
            None => match &process {
                Some(p) => p.clone(),
                None => crate::text::owned("MapleStory.exe"),
            },
        },
    };
    let timeout = match a.timeout {
        Some(s) => if s > 0 {
            Some(duration_from_secs(s))
        } else {
            None
        },
        None => None,
    };
    ResolvedAttach { process, class, pid: a.pid, module, wait: !a.no_wait, timeout }
}

/// `s` with every leading copy of `p` removed, as `str::trim_start_matches` does.
pub open spec fn strip_all(s: Seq<char>, p: Seq<char>) -> Seq<char>
    decreases s.len(),
{
    if p.len() > 0 && s.len() >= p.len() && s.subrange(0, p.len() as int) == p {
        strip_all(s.subrange(p.len() as int, s.len() as int), p)
    } else {
        s
    }
}

/// The value of a hexadecimal digit in either letter case.
pub open spec fn hex_digit(c: char) -> Option<nat> {
    if '0' <= c && c <= '9' {
        Some((c as u32 - '0' as u32) as nat)
    } else if 'a' <= c && c <= 'f' {
        Some((c as u32 - 'a' as u32 + 10) as nat)
    } else if 'A' <= c && c <= 'F' {
        Some((c as u32 - 'A' as u32 + 10) as nat)
    } else {
        None
    }
}

/// The number the hexadecimal digits `d` spell, or `None` if one is not a digit.
pub open spec fn hex_value(d: Seq<char>) -> Option<nat>
    decreases d.len(),
{
    if d.len() == 0 {
        Some(0)
    } else {
        match (hex_value(d.drop_last()), hex_digit(d.last())) {
            (Some(v), Some(x)) => Some(v * 16 + x),
            _ => None,
        }
    }
}

/// Base-16 text as `from_str_radix(_, 16)` reads it for an unsigned type: an optional `+`, then at
/// least one hexadecimal digit.
pub open spec fn radix16(s: Seq<char>) -> Option<nat> {
    let d = if s.len() > 0 && s[0] == '+' {
        s.drop_first()
    } else {
        s
    };
    if d.len() == 0 {
        None
    } else {
        hex_value(d)
    }
}

/// An optional address setting: absent or blank is none; otherwise the trimmed text, after its
/// leading `0x` and then `0X` prefixes, must be hexadecimal that fits in an address.
pub open spec fn spec_parse_hex_opt(field: Option<Seq<char>>) -> Result<Option<usize>, Seq<char>> {
    match field {
        None => Ok(None),
        Some(f) => {
            let raw = trim(f);
            if raw.len() == 0 {
                Ok(None)
            } else {
                match radix16(strip_all(strip_all(raw, "0x"@), "0X"@)) {
                    Some(v) if v <= usize::MAX => Ok(Some(v as usize)),
                    _ => Err("invalid address '"@ + raw + "'"@),
                }
            }
        },
    }
}

/// A longer run of digits never reads as a smaller number, and a bad digit stays bad.
proof fn lemma_hex_prefix(d: Seq<char>, k: int)
    requires
        0 <= k <= d.len(),
    ensures
        hex_value(d.take(k)) is None ==> hex_value(d) is None,
        hex_value(d.take(k)) matches Some(v) ==> (hex_value(d) is None || hex_value(d).unwrap()
            >= v),
    decreases d.len(),
{
    if k == d.len() {
        assert(d.take(k) =~= d);
    } else {
        assert(d.drop_last().take(k) =~= d.take(k));
        lemma_hex_prefix(d.drop_last(), k);
    }
}

fn hex_digit_of(c: char) -> (r: Option<usize>)
    ensures
        match hex_digit(c) {
            Some(x) => r == Some(x as usize),
            None => r is None,
        },
{
    if '0' <= c && c <= '9' {
        Some((c as u32 - '0' as u32) as usize)
    } else if 'a' <= c && c <= 'f' {
        Some((c as u32 - 'a' as u32 + 10) as usize)
    } else if 'A' <= c && c <= 'F' {
        Some((c as u32 - 'A' as u32 + 10) as usize)
    } else {
        None
    }
}

/// The start of `[lo, hi)` after every leading copy of the two-character prefix `p0 p1`.
fn skip_prefixes(cs: &Vec<char>, lo: usize, hi: usize, p0: char, p1: char) -> (k: usize)
    requires
        lo <= hi <= cs@.len(),
    ensures
        lo <= k <= hi,
        strip_all(cs@.subrange(lo as int, hi as int), seq![p0, p1]) == cs@.subrange(
            k as int,
            hi as int,
        ),
{
    let mut i: usize = lo;
    while hi - i >= 2 && cs[i] == p0 && cs[i + 1] == p1
        invariant
            lo <= i <= hi <= cs@.len(),
            strip_all(cs@.subrange(lo as int, hi as int), seq![p0, p1]) == strip_all(
                cs@.subrange(i as int, hi as int),
                seq![p0, p1],
            ),
        decreases hi - i,
    {
        let ghost t = cs@.subrange(i as int, hi as int);
        assert(t.subrange(0, 2) =~= seq![p0, p1]);
        assert(t.subrange(2, t.len() as int) =~= cs@.subrange(i + 2, hi as int));
        i = i + 2;
    }
    let ghost t = cs@.subrange(i as int, hi as int);
    assert(!(t.len() >= 2 && t.subrange(0, 2) == seq![p0, p1])) by {
        if t.len() >= 2 && t.subrange(0, 2) == seq![p0, p1] {
            assert(t.subrange(0, 2)[0] == cs@[i as int]);
            assert(t.subrange(0, 2)[1] == cs@[i + 1]);
        }
    }
    i
}

/// The base-16 value of `[lo, hi)` if it fits in an address.
fn radix16_in(cs: &Vec<char>, lo: usize, hi: usize) -> (r: Option<usize>)
    requires
        lo <= hi <= cs@.len(),
    ensures
        match radix16(cs@.subrange(lo as int, hi as int)) {
            Some(v) if v <= usize::MAX => r == Some(v as usize),
            _ => r is None,
        },
{
    let ghost s = cs@.subrange(lo as int, hi as int);
    let start: usize = if lo < hi && cs[lo] == '+' {
        lo + 1
    } else {
        lo
    };
    let ghost d = cs@.subrange(start as int, hi as int);
    assert(start == lo + 1 ==> s.drop_first() =~= d);
    assert(start == lo ==> s =~= d);
    if start == hi {
        return None;
    }
    let mut val: usize = 0;
    let mut i: usize = start;
    assert(d.take(0) =~= Seq::<char>::empty());
    while i < hi
        invariant
            start <= i <= hi <= cs@.len(),
            d == cs@.subrange(start as int, hi as int),
            d.len() > 0,
            radix16(cs@.subrange(lo as int, hi as int)) == hex_value(d),
            hex_value(d.take(i - start)) == Some(val as nat),
        decreases hi - i,
    {
        let ghost k = i - start;
        assert(d.take(k + 1).drop_last() =~= d.take(k));
        assert(d.take(k + 1).last() == cs@[i as int]);
        match hex_digit_of(cs[i]) {
            None => {
                proof {
                    lemma_hex_prefix(d, k + 1);
                }
                return None;
            },
            Some(x) => {
                if val > (usize::MAX - x) / 16 {
                    proof {
                        lemma_hex_prefix(d, k + 1);
                        assert(val * 16 + x > usize::MAX) by (nonlinear_arith)
                            requires
                                val > (usize::MAX - x) / 16,
                                x <= 15,
                        ;
                    }
                    return None;
                }
                assert(val * 16 + x <= usize::MAX) by (nonlinear_arith)
                    requires
                        val <= (usize::MAX - x) / 16,
                        x <= 15,
                ;
                val = val * 16 + x;
            },
        }
        i = i + 1;
    }
    assert(d.take(hi - start) =~= d);
    Some(val)
}

/// Read an optional hexadecimal address setting, with or without a `0x` prefix.
pub fn parse_hex_opt(field: &Option<String>) -> (r: Result<Option<usize>, String>)
    ensures
        match spec_parse_hex_opt(opt_text(*field)) {
            Ok(v) => r == Ok::<Option<usize>, String>(v),
            Err(e) => r matches Err(s) && s@ == e,
        },
{
    match field {
        None => Ok(None),
        Some(f) => {
            let cs = chars_of(f.as_str());
            let (a, b) = trim_range(&cs, 0, cs.len());
            assert(cs@.subrange(0, cs@.len() as int) =~= f@);
            if a == b {
                return Ok(None);
            }
            let ghost raw = cs@.subrange(a as int, b as int);
            let h1 = skip_prefixes(&cs, a, b, '0', 'x');
            let h2 = skip_prefixes(&cs, h1, b, '0', 'X');
            assert(seq!['0', 'x'] == "0x"@) by {
                reveal_strlit("0x");
            }
            assert(seq!['0', 'X'] == "0X"@) by {
                reveal_strlit("0X");
            }
            match radix16_in(&cs, h2, b) {
                Some(v) => Ok(Some(v)),
                None => {
                    let mut e = String::new();
                    push_str(&mut e, "invalid address '");
                    let t = string_of(&cs, a, b);
                    push_str(&mut e, t.as_str());
                    push_str(&mut e, "'");
                    Err(e)
                },
            }
        },
    }
}

/// The rendered digits read back as the number rendered.
proof fn lemma_upper_hex_value(n: nat)
    ensures
        hex_value(upper_hex(n)) == Some(n),
        upper_hex(n).len() >= 1,
        forall|i: int| 0 <= i < upper_hex(n).len() ==> hex_digit(#[trigger] upper_hex(n)[i]) is Some,
    decreases n,
{
    if n < 16 {
        let d = upper_hex(n);
        assert(d.drop_last() =~= Seq::<char>::empty());
        assert(hex_value(d.drop_last()) == Some(0nat));
        assert(hex_digit(hex_digit_char(n as int)) == Some(n));
        assert(d.last() == hex_digit_char(n as int));
    } else {
        lemma_upper_hex_value(n / 16);
        let d = upper_hex(n);
        assert(d.drop_last() =~= upper_hex(n / 16));
        assert(hex_digit(hex_digit_char((n % 16) as int)) == Some(n % 16));
        assert forall|i: int| 0 <= i < d.len() implies hex_digit(#[trigger] d[i]) is Some by {
            if i < d.len() - 1 {
                assert(d[i] == upper_hex(n / 16)[i]);
            }
        }
    }
}

/// An address rendered as `0x` and upper-case hexadecimal digits reads back as itself.
pub proof fn lemma_hex_round_trip(v: usize)
    ensures
        spec_parse_hex_opt(Some("0x"@ + upper_hex(v as nat))) == Ok::<Option<usize>, Seq<char>>(
            Some(v),
        ),
{
    reveal_strlit("0x");
    reveal_strlit("0X");
    lemma_upper_hex_value(v as nat);
    let d = upper_hex(v as nat);
    let raw = "0x"@ + d;
    assert(raw[0] == '0');
    assert(raw.last() == d.last());
    assert(hex_digit(d[d.len() - 1]) is Some);
    assert(!is_ws(raw.last()));
    assert(trim_start(raw) == raw);
    assert(trim_end(raw) == raw);
    assert(raw.subrange(0, 2) =~= "0x"@);
    assert(raw.subrange(2, raw.len() as int) =~= d);
    assert(strip_all(d, "0x"@) == d) by {
        if d.len() >= 2 && d.subrange(0, 2) == "0x"@ {
            assert(d.subrange(0, 2)[1] == d[1]);
            assert(hex_digit(d[1]) is Some);
        }
    }
    assert(strip_all(raw, "0x"@) == strip_all(d, "0x"@));
    assert(strip_all(d, "0X"@) == d) by {
        if d.len() >= 2 && d.subrange(0, 2) == "0X"@ {
            assert(d.subrange(0, 2)[1] == d[1]);
            assert(hex_digit(d[1]) is Some);
        }
    }
    assert(hex_digit(d[0]) is Some);
    assert(radix16(d) == hex_value(d));
}

} // verus!
