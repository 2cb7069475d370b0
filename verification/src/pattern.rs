//! The signature language: pattern files of `Name = AA ?? BB` lines with architecture sections,
//! category sections, comments, quoting and wildcards, parsed into masked byte signatures.

use vstd::prelude::*;

use crate::text::{
    ascii_lower, hex_digit_char, chars_of, contains_word, contains_word_in, find_char, find_char_in, find_either,
    find_either_in, find_ws, find_ws_in, is_ws, is_ws_char, lemma_find_ws, lower_range_is, push_str,
    string_of, trim, trim_range,
};

verus! {

#[derive(Debug, Clone, Copy, PartialEq, Eq, Structural)]
pub enum Arch {
    X86,
    X64,
}

/// The lower-case name of an architecture.
pub open spec fn arch_label(a: Arch) -> Seq<char> {
    match a {
        Arch::X86 => "x86"@,
        Arch::X64 => "x64"@,
    }
}

/// The pointer width of an architecture, in bits, as text.
pub open spec fn arch_bits(a: Arch) -> Seq<char> {
    match a {
        Arch::X86 => "32"@,
        Arch::X64 => "64"@,
    }
}

/// The architecture a command-line or configuration value names: `32` or `x86`, `64` or `x64`,
/// surrounding whitespace and letter case aside.
pub open spec fn spec_parse_arch(s: Seq<char>) -> Option<Arch> {
    let l = trim(s).map_values(|c: char| ascii_lower(c));
    if l == "32"@ || l == "x86"@ {
        Some(Arch::X86)
    } else if l == "64"@ || l == "x64"@ {
        Some(Arch::X64)
    } else {
        None
    }
}

/// The error for a value that names no architecture.
pub open spec fn arch_error_text(s: Seq<char>) -> Seq<char> {
    "unknown architecture '"@ + s + "' (expected 32 or 64)"@
}

impl Arch {
    pub fn parse(s: &str) -> (r: Result<Arch, String>)
        ensures
            match spec_parse_arch(s@) {
                Some(a) => r == Ok::<Arch, String>(a),
                None => r matches Err(e) && e@ == arch_error_text(s@),
            },
    {
        let cs = chars_of(s);
        let (a, b) = trim_range(&cs, 0, cs.len());
        assert(cs@.subrange(0, cs@.len() as int) =~= s@);
        if lower_range_is(&cs, a, b, "32") || lower_range_is(&cs, a, b, "x86") {
            Ok(Arch::X86)
        } else if lower_range_is(&cs, a, b, "64") || lower_range_is(&cs, a, b, "x64") {
            Ok(Arch::X64)
        } else {
            let mut e = String::new();
            push_str(&mut e, "unknown architecture '");
            push_str(&mut e, s);
            push_str(&mut e, "' (expected 32 or 64)");
            Err(e)
        }
    }

    pub fn label(&self) -> (r: &'static str)
        ensures
            r@ == arch_label(*self),
    {
        match self {
            Arch::X86 => "x86",
            Arch::X64 => "x64",
        }
    }

    pub fn bits(&self) -> (r: &'static str)
        ensures
            r@ == arch_bits(*self),
    {
        match self {
            Arch::X86 => "32",
            Arch::X64 => "64",
        }
    }
}

/// The complaint about a module whose architecture is known to differ from the requested one.
pub open spec fn mismatch_text(requested: Arch, actual: Arch, module: Seq<char>) -> Seq<char> {
    module + " is a "@ + arch_bits(actual) + "-bit ("@ + arch_label(actual)
        + ") module but --arch "@ + arch_bits(requested) + " ("@ + arch_label(requested)
        + ") was requested; rerun with --arch "@ + arch_bits(actual)
}

/// An actionable message when the module's architecture is known and differs from the requested
/// one; nothing when they agree or the module's architecture is unknown, so a guess never blocks a
/// scan.
pub fn arch_mismatch(requested: Arch, actual: Option<Arch>, module: &str) -> (r: Option<String>)
    ensures
        match actual {
            Some(a) if a != requested => r matches Some(m) && m@ == mismatch_text(requested, a, module@),
            _ => r is None,
        },
{
    match actual {
        Some(a) => {
            if a == requested {
                return None;
            }
            let mut m = String::new();
            push_str(&mut m, module);
            push_str(&mut m, " is a ");
            push_str(&mut m, a.bits());
            push_str(&mut m, "-bit (");
            push_str(&mut m, a.label());
            push_str(&mut m, ") module but --arch ");
            push_str(&mut m, requested.bits());
            push_str(&mut m, " (");
            push_str(&mut m, requested.label());
            push_str(&mut m, ") was requested; rerun with --arch ");
            push_str(&mut m, a.bits());
            assert(m@ =~= mismatch_text(requested, a, module@));
            Some(m)
        },
        None => None,
    }
}

/// The architecture a desktop-panel setting selects: `x86` in any letter case, or any text
/// containing `32`, is x86; everything else is x64.
pub open spec fn spec_arch_of(s: Seq<char>) -> Arch {
    if s.map_values(|c: char| ascii_lower(c)) == "x86"@ || contains_word(s, "32"@) {
        Arch::X86
    } else {
        Arch::X64
    }
}

pub fn arch_of(s: &str) -> (r: Arch)
    ensures
        r == spec_arch_of(s@),
{
    let cs = chars_of(s);
    assert(cs@.subrange(0, cs@.len() as int) =~= s@);
    let w: Vec<char> = vec!['3', '2'];
    assert(w@ =~= "32"@) by {
        reveal_strlit("32");
    }
    if lower_range_is(&cs, 0, cs.len(), "x86") || contains_word_in(&cs, 0, cs.len(), &w) {
        Arch::X86
    } else {
        Arch::X64
    }
}

/// A masked byte signature: `mask[i]` is true where `bytes[i]` must match, false for a wildcard.
#[derive(Debug, Clone, PartialEq, Eq)]
pub struct Signature {
    pub bytes: Vec<u8>,
    pub mask: Vec<bool>,
}

impl Signature {
    pub fn len(&self) -> (r: usize)
        ensures
            r == self.bytes@.len(),
    {
        self.bytes.len()
    }

    pub fn is_empty(&self) -> (r: bool)
        ensures
            r == (self.bytes@.len() == 0),
    {
        self.bytes.len() == 0
    }
}

#[derive(Debug, Clone, PartialEq, Eq)]
pub struct Pattern {
    pub name: String,
    pub category: String,
    pub signature: Signature,
    /// The comment after `;` or `#` on the pattern's line, trimmed, when there is one.
    pub note: Option<String>,
}

/// What a parsed pattern holds, as plain values.
#[verifier::ext_equal]
pub struct PatternModel {
    pub name: Seq<char>,
    pub category: Seq<char>,
    pub bytes: Seq<u8>,
    pub mask: Seq<bool>,
    pub note: Option<Seq<char>>,
}

impl View for Pattern {
    type V = PatternModel;

    open spec fn view(&self) -> PatternModel {
        PatternModel {
            name: self.name@,
            category: self.category@,
            bytes: self.signature.bytes@,
            mask: self.signature.mask@,
            note: match self.note {
                Some(n) => Some(n@),
                None => None,
            },
        }
    }
}

enum Token {
    Byte(u8),
    Wild,
}

/// The value of an upper-case hexadecimal digit.
pub open spec fn spec_hex_val(c: u8) -> Option<u8> {
    if 0x30 <= c && c <= 0x39 {
        Some((c - 0x30) as u8)
    } else if 0x41 <= c && c <= 0x46 {
        Some((c - 0x41 + 10) as u8)
    } else {
        None
    }
}

fn hex_val(c: u8) -> (r: Option<u8>)
    ensures
        r == spec_hex_val(c),
{
    if 0x30 <= c && c <= 0x39 {
        Some(c - 0x30)
    } else if 0x41 <= c && c <= 0x46 {
        Some(c - 0x41 + 10)
    } else {
        None
    }
}

pub open spec fn is_ascii_char(c: char) -> bool {
    (c as u32) < 0x80
}

/// `char::to_ascii_uppercase`: only `a`..=`z` change.
pub open spec fn ascii_upper(c: char) -> char {
    if 'a' <= c && c <= 'z' {
        ((c as u32) - 32) as char
    } else {
        c
    }
}

fn upper(c: char) -> (r: char)
    ensures
        r == ascii_upper(c),
{
    if 'a' <= c && c <= 'z' {
        let b: u8 = c as u8;
        assert(b as u32 == c as u32);
        ((b - 32) as u8) as char
    } else {
        c
    }
}

/// `s` without its trailing commas.
pub open spec fn strip_trailing_commas(s: Seq<char>) -> Seq<char>
    decreases s.len(),
{
    if s.len() > 0 && s.last() == ',' {
        strip_trailing_commas(s.drop_last())
    } else {
        s
    }
}

/// One whitespace-separated token of a signature: `None` when it is not a token at all (it is
/// skipped), `Some(None)` for a wildcard, `Some(Some(b))` for a fixed byte. Tokens are compared
/// after ASCII upper-casing; a two-byte token holding a `?` is a wildcard, and a hexadecimal byte
/// may carry a `0x` prefix.
pub open spec fn spec_token(raw: Seq<char>) -> Option<Option<u8>> {
    let t = strip_trailing_commas(raw);
    let u = t.map_values(|c: char| ascii_upper(c));
    if u.len() == 0 {
        None
    } else if u.len() == 1 && u[0] == '?' {
        Some(None)
    } else if u.len() == 2 && is_ascii_char(u[0]) && is_ascii_char(u[1]) && (u[0] == '?' || u[1]
        == '?') {
        Some(None)
    } else {
        let h = if u.len() >= 2 && u[0] == '0' && u[1] == 'X' {
            u.subrange(2, u.len() as int)
        } else {
            u
        };
        if h.len() == 2 && is_ascii_char(h[0]) && is_ascii_char(h[1]) {
            match (spec_hex_val(h[0] as u8), spec_hex_val(h[1] as u8)) {
                (Some(hi), Some(lo)) => Some(Some((hi * 16 + lo) as u8)),
                _ => None,
            }
        } else {
            None
        }
    }
}

/// The signature spelled by `rest`: its whitespace-separated tokens in order, with the tokens that
/// are neither a byte nor a wildcard dropped.
pub open spec fn spec_signature(rest: Seq<char>) -> (Seq<u8>, Seq<bool>)
    decreases rest.len(),
{
    if rest.len() == 0 {
        (Seq::empty(), Seq::empty())
    } else if is_ws(rest[0]) {
        spec_signature(rest.drop_first())
    } else {
        let j = find_ws(rest);
        if 0 < j <= rest.len() {
            let tail = spec_signature(rest.subrange(j, rest.len() as int));
            match spec_token(rest.subrange(0, j)) {
                Some(Some(b)) => (seq![b] + tail.0, seq![true] + tail.1),
                Some(None) => (seq![0u8] + tail.0, seq![false] + tail.1),
                None => tail,
            }
        } else {
            (Seq::empty(), Seq::empty())
        }
    }
}

/// `s` with one pair of surrounding double quotes removed.
pub open spec fn strip_quotes(s: Seq<char>) -> Seq<char> {
    if s.len() >= 2 && s[0] == '"' && s.last() == '"' {
        s.subrange(1, s.len() - 1)
    } else {
        s
    }
}

/// The note of a pattern line: the text after its first `;` or `#`, trimmed, when not empty.
pub open spec fn spec_note(line: Seq<char>) -> Option<Seq<char>> {
    let k = find_either(line, ';', '#');
    if k < line.len() && trim(line.subrange(k + 1, line.len() as int)).len() > 0 {
        Some(trim(line.subrange(k + 1, line.len() as int)))
    } else {
        None
    }
}

/// A pattern line split into its name and its byte text: everything from the first `;` or `#` is a
/// comment; the name ends at the first `=`, else the first `:`, else the first space or tab.
pub open spec fn spec_split_name_aob(line: Seq<char>) -> Option<(Seq<char>, Seq<char>)> {
    let s = trim(line.subrange(0, find_either(line, ';', '#')));
    let e = find_char(s, '=');
    let c = find_char(s, ':');
    let i = if e < s.len() {
        e
    } else if c < s.len() {
        c
    } else {
        find_either(s, ' ', '\t')
    };
    if s.len() == 0 || i >= s.len() {
        None
    } else {
        let name = trim(s.subrange(0, i));
        let aob = strip_quotes(trim(s.subrange(i + 1, s.len() as int)));
        if name.len() == 0 || aob.len() == 0 {
            None
        } else {
            Some((name, aob))
        }
    }
}

/// The parser's state between lines: the architecture section in force, if any, and the current
/// category.
pub struct LineState {
    pub section: Option<Arch>,
    pub category: Seq<char>,
}

/// What one raw line does to the state, and the pattern it defines, if any.
pub open spec fn spec_line(raw: Seq<char>, st: LineState, arch: Arch) -> (LineState, Option<
    PatternModel,
>) {
    let line = trim(raw);
    if line.len() == 0 {
        (st, None)
    } else if line[0] == '#' {
        let section = if contains_word(line, seq!['3', '2', 'B', 'I', 'T']) {
            Some(Arch::X86)
        } else if contains_word(line, seq!['6', '4', 'B', 'I', 'T']) {
            Some(Arch::X64)
        } else {
            st.section
        };
        (LineState { section, category: st.category }, None)
    } else if line.len() >= 2 && line[0] == '[' && line.last() == ']' {
        let inner = trim(line.subrange(1, line.len() - 1));
        if inner.len() > 0 {
            (LineState { section: st.section, category: inner }, None)
        } else {
            (st, None)
        }
    } else if st.section is Some && st.section != Some(arch) {
        (st, None)
    } else {
        match spec_split_name_aob(line) {
            Some((name, aob)) => {
                let sig = spec_signature(aob);
                if sig.0.len() > 0 {
                    (
                        st,
                        Some(
                            PatternModel {
                                name,
                                category: st.category,
                                bytes: sig.0,
                                mask: sig.1,
                                note: spec_note(line),
                            },
                        ),
                    )
                } else {
                    (st, None)
                }
            },
            None => (st, None),
        }
    }
}

/// The patterns defined by the lines of `rest` (split at `\n`), starting from state `st`.
pub open spec fn spec_parse_text(rest: Seq<char>, st: LineState, arch: Arch) -> Seq<PatternModel>
    decreases rest.len(),
{
    let j = find_char(rest, '\n');
    let (next, p) = spec_line(rest.subrange(0, j), st, arch);
    let here = match p {
        Some(p) => seq![p],
        None => Seq::empty(),
    };
    if 0 <= j < rest.len() {
        here + spec_parse_text(rest.subrange(j + 1, rest.len() as int), next, arch)
    } else {
        here
    }
}

/// The patterns of a pattern file for `arch`: a leading byte-order mark is dropped, the category
/// starts as `globals`, and lines before any architecture section apply to both architectures.
pub open spec fn spec_parse_patterns(text: Seq<char>, arch: Arch) -> Seq<PatternModel> {
    let t = if text.len() > 0 && text[0] == '\u{feff}' {
        text.drop_first()
    } else {
        text
    };
    spec_parse_text(t, LineState { section: None, category: "globals"@ }, arch)
}

/// The token view of an exec token.
spec fn token_model(t: Option<Token>) -> Option<Option<u8>> {
    match t {
        None => None,
        Some(Token::Wild) => Some(None),
        Some(Token::Byte(b)) => Some(Some(b)),
    }
}

fn parse_token(cs: &Vec<char>, lo: usize, hi: usize) -> (r: Option<Token>)
    requires
        lo <= hi <= cs@.len(),
    ensures
        token_model(r) == spec_token(cs@.subrange(lo as int, hi as int)),
{
    let mut e: usize = hi;
    while e > lo && cs[e - 1] == ','
        invariant
            lo <= e <= hi <= cs@.len(),
            strip_trailing_commas(cs@.subrange(lo as int, hi as int)) == strip_trailing_commas(
                cs@.subrange(lo as int, e as int),
            ),
        decreases e - lo,
    {
        assert(cs@.subrange(lo as int, e as int).drop_last() =~= cs@.subrange(lo as int, e - 1));
        e = e - 1;
    }
    let ghost t = cs@.subrange(lo as int, e as int);
    let ghost u = t.map_values(|c: char| ascii_upper(c));
    assert(strip_trailing_commas(cs@.subrange(lo as int, hi as int)) == t);
    assert(forall|i: int| 0 <= i < u.len() ==> u[i] == ascii_upper(cs@[lo + i]));
    let n: usize = e - lo;
    if n == 0 {
        return None;
    }
    let c0 = upper(cs[lo]);
    if n == 1 && c0 == '?' {
        return Some(Token::Wild);
    }
    if n == 2 {
        let c1 = upper(cs[lo + 1]);
        if (c0 as u32) < 0x80 && (c1 as u32) < 0x80 && (c0 == '?' || c1 == '?') {
            return Some(Token::Wild);
        }
    }
    let mut h0: usize = lo;
    if n >= 2 && c0 == '0' && upper(cs[lo + 1]) == 'X' {
        h0 = lo + 2;
    }
    let ghost h = if u.len() >= 2 && u[0] == '0' && u[1] == 'X' {
        u.subrange(2, u.len() as int)
    } else {
        u
    };
    assert(h.len() == e - h0);
    assert(forall|i: int| 0 <= i < h.len() ==> h[i] == ascii_upper(cs@[h0 + i]));
    if e - h0 == 2 {
        let d0 = upper(cs[h0]);
        let d1 = upper(cs[h0 + 1]);
        if (d0 as u32) < 0x80 && (d1 as u32) < 0x80 {
            match (hex_val(d0 as u8), hex_val(d1 as u8)) {
                (Some(a), Some(b)) => Some(Token::Byte(a * 16 + b)),
                _ => None,
            }
        } else {
            None
        }
    } else {
        None
    }
}

fn parse_signature(cs: &Vec<char>, lo: usize, hi: usize) -> (sig: Signature)
    requires
        lo <= hi <= cs@.len(),
    ensures
        (sig.bytes@, sig.mask@) == spec_signature(cs@.subrange(lo as int, hi as int)),
{
    let mut bytes: Vec<u8> = Vec::new();
    let mut mask: Vec<bool> = Vec::new();
    let mut pos: usize = lo;
    while pos < hi
        invariant
            lo <= pos <= hi <= cs@.len(),
            spec_signature(cs@.subrange(lo as int, hi as int)).0 == bytes@ + spec_signature(
                cs@.subrange(pos as int, hi as int),
            ).0,
            spec_signature(cs@.subrange(lo as int, hi as int)).1 == mask@ + spec_signature(
                cs@.subrange(pos as int, hi as int),
            ).1,
        decreases hi - pos,
    {
        let ghost rest = cs@.subrange(pos as int, hi as int);
        if is_ws_char(cs[pos]) {
            assert(rest.drop_first() =~= cs@.subrange(pos + 1, hi as int));
            pos = pos + 1;
        } else {
            let j = find_ws_in(cs, pos, hi);
            proof {
                lemma_find_ws(rest.drop_first());
                assert(rest.drop_first() =~= cs@.subrange(pos + 1, hi as int));
                assert(rest.subrange(0, j - pos) =~= cs@.subrange(pos as int, j as int));
                assert(rest.subrange(j - pos, rest.len() as int) =~= cs@.subrange(
                    j as int,
                    hi as int,
                ));
            }
            let ghost tail = spec_signature(cs@.subrange(j as int, hi as int));
            let tok = parse_token(cs, pos, j);
            match tok {
                Some(Token::Byte(b)) => {
                    assert(bytes@.push(b) + tail.0 =~= bytes@ + (seq![b] + tail.0));
                    assert(mask@.push(true) + tail.1 =~= mask@ + (seq![true] + tail.1));
                    bytes.push(b);
                    mask.push(true);
                },
                Some(Token::Wild) => {
                    assert(bytes@.push(0u8) + tail.0 =~= bytes@ + (seq![0u8] + tail.0));
                    assert(mask@.push(false) + tail.1 =~= mask@ + (seq![false] + tail.1));
                    bytes.push(0);
                    mask.push(false);
                },
                None => {},
            }
            pos = j;
        }
    }
    assert(bytes@ + Seq::<u8>::empty() =~= bytes@);
    assert(mask@ + Seq::<bool>::empty() =~= mask@);
    Signature { bytes, mask }
}

/// The ranges of the name and of the byte text of a pattern line `[a, b)`.
fn split_name_aob(cs: &Vec<char>, a: usize, b: usize) -> (r: Option<(usize, usize, usize, usize)>)
    requires
        a <= b <= cs@.len(),
    ensures
        match spec_split_name_aob(cs@.subrange(a as int, b as int)) {
            None => r is None,
            Some((name, aob)) => r matches Some((n0, n1, o0, o1)) && n0 <= n1 <= cs@.len() && o0
                <= o1 <= cs@.len() && cs@.subrange(n0 as int, n1 as int) == name && cs@.subrange(
                o0 as int,
                o1 as int,
            ) == aob,
        },
{
    let ghost line = cs@.subrange(a as int, b as int);
    let k = find_either_in(cs, a, b, ';', '#');
    assert(line.subrange(0, k - a) =~= cs@.subrange(a as int, k as int));
    let (s0, s1) = trim_range(cs, a, k);
    let ghost s = cs@.subrange(s0 as int, s1 as int);
    if s0 == s1 {
        return None;
    }
    let e = find_char_in(cs, s0, s1, '=');
    let i = if e < s1 {
        e
    } else {
        let c = find_char_in(cs, s0, s1, ':');
        if c < s1 {
            c
        } else {
            find_either_in(cs, s0, s1, ' ', '\t')
        }
    };
    if i >= s1 {
        return None;
    }
    assert(s.subrange(0, i - s0) =~= cs@.subrange(s0 as int, i as int));
    assert(s.subrange(i - s0 + 1, s.len() as int) =~= cs@.subrange(i + 1, s1 as int));
    let (n0, n1) = trim_range(cs, s0, i);
    let (q0, q1) = trim_range(cs, i + 1, s1);
    let ghost q = cs@.subrange(q0 as int, q1 as int);
    let (o0, o1) = if q1 - q0 >= 2 && cs[q0] == '"' && cs[q1 - 1] == '"' {
        assert(q.subrange(1, q.len() - 1) =~= cs@.subrange(q0 + 1, q1 - 1));
        (q0 + 1, q1 - 1)
    } else {
        (q0, q1)
    };
    if n0 == n1 || o0 == o1 {
        None
    } else {
        Some((n0, n1, o0, o1))
    }
}

/// The note of the line `[a, b)`.
fn note_of(cs: &Vec<char>, a: usize, b: usize) -> (r: Option<String>)
    requires
        a <= b <= cs@.len(),
    ensures
        match spec_note(cs@.subrange(a as int, b as int)) {
            Some(n) => r matches Some(s) && s@ == n,
            None => r is None,
        },
{
    let ghost line = cs@.subrange(a as int, b as int);
    let k = find_either_in(cs, a, b, ';', '#');
    if k >= b {
        return None;
    }
    assert(line.subrange(k - a + 1, line.len() as int) =~= cs@.subrange(k + 1, b as int));
    let (c, d) = trim_range(cs, k + 1, b);
    if c == d {
        None
    } else {
        Some(string_of(cs, c, d))
    }
}

/// One line `[lo, hi)`: the new section, the new category if it changed, and the pattern defined.
fn parse_line(
    cs: &Vec<char>,
    lo: usize,
    hi: usize,
    section: Option<Arch>,
    category: &String,
    arch: Arch,
) -> (r: (Option<Arch>, Option<String>, Option<Pattern>))
    requires
        lo <= hi <= cs@.len(),
    ensures
        ({
            let (next, p) = spec_line(
                cs@.subrange(lo as int, hi as int),
                LineState { section, category: category@ },
                arch,
            );
            &&& next.section == r.0
            &&& next.category == match r.1 {
                Some(c) => c@,
                None => category@,
            }
            &&& match p {
                Some(m) => r.2 matches Some(pat) && pat@ == m,
                None => r.2 is None,
            }
        }),
{
    let (a, b) = trim_range(cs, lo, hi);
    let ghost line = cs@.subrange(a as int, b as int);
    if a == b {
        return (section, None, None);
    }
    if cs[a] == '#' {
        let w32: Vec<char> = vec!['3', '2', 'B', 'I', 'T'];
        let w64: Vec<char> = vec!['6', '4', 'B', 'I', 'T'];
        assert(w32@ =~= seq!['3', '2', 'B', 'I', 'T']);
        assert(w64@ =~= seq!['6', '4', 'B', 'I', 'T']);
        if contains_word_in(cs, a, b, &w32) {
            return (Some(Arch::X86), None, None);
        } else if contains_word_in(cs, a, b, &w64) {
            return (Some(Arch::X64), None, None);
        } else {
            return (section, None, None);
        }
    }
    if b - a >= 2 && cs[a] == '[' && cs[b - 1] == ']' {
        assert(line.subrange(1, line.len() - 1) =~= cs@.subrange(a + 1, b - 1));
        let (c, d) = trim_range(cs, a + 1, b - 1);
        if c < d {
            return (section, Some(string_of(cs, c, d)), None);
        } else {
            return (section, None, None);
        }
    }
    match section {
        Some(sec) => {
            if sec != arch {
                return (section, None, None);
            }
        },
        None => {},
    }
    match split_name_aob(cs, a, b) {
        None => (section, None, None),
        Some((n0, n1, o0, o1)) => {
            let signature = parse_signature(cs, o0, o1);
            if signature.bytes.len() > 0 {
                let name = string_of(cs, n0, n1);
                let cat = category.clone();
                let note = note_of(cs, a, b);
                let p = Pattern { name, category: cat, signature, note };
                assert(p@ =~= (PatternModel {
                    name: cs@.subrange(n0 as int, n1 as int),
                    category: category@,
                    bytes: p.signature.bytes@,
                    mask: p.signature.mask@,
                    note: spec_note(line),
                }));
                (section, None, Some(p))
            } else {
                (section, None, None)
            }
        },
    }
}

/// Parse a pattern file's text into the patterns that apply to `arch`, in file order.
pub fn parse_patterns(text: &str, arch: Arch) -> (out: Vec<Pattern>)
    ensures
        out@.map_values(|p: Pattern| p@) == spec_parse_patterns(text@, arch),
{
    let cs = chars_of(text);
    let n = cs.len();
    let start: usize = if n > 0 && cs[0] == '\u{feff}' {
        1
    } else {
        0
    };
    assert(start == 1 ==> text@.drop_first() =~= cs@.subrange(1, n as int));
    assert(start == 0 ==> text@ =~= cs@.subrange(0, n as int));
    let globals = chars_of("globals");
    let mut category = string_of(&globals, 0, globals.len());
    assert(globals@.subrange(0, globals@.len() as int) =~= globals@);
    let mut section: Option<Arch> = None;
    let mut out: Vec<Pattern> = Vec::new();
    let mut pos: usize = start;
    let mut done = false;
    while !done
        invariant
            start <= pos <= n == cs@.len(),
            cs@ == text@,
            !done ==> spec_parse_patterns(text@, arch) == out@.map_values(|p: Pattern| p@)
                + spec_parse_text(
                cs@.subrange(pos as int, n as int),
                LineState { section, category: category@ },
                arch,
            ),
            done ==> spec_parse_patterns(text@, arch) == out@.map_values(|p: Pattern| p@),
        decreases n + 1 - pos - (if done {
            1int
        } else {
            0int
        }),
    {
        let ghost rest = cs@.subrange(pos as int, n as int);
        let ghost before = out@.map_values(|p: Pattern| p@);
        let j = find_char_in(&cs, pos, n, '\n');
        assert(rest.subrange(0, j - pos) =~= cs@.subrange(pos as int, j as int));
        let (sec2, cat2, p) = parse_line(&cs, pos, j, section, &category, arch);
        let ghost here = match &p {
            Some(q) => seq![q@],
            None => Seq::<PatternModel>::empty(),
        };
        match p {
            Some(q) => {
                out.push(q);
                assert(out@.map_values(|p: Pattern| p@) =~= before + here);
            },
            None => {
                assert(before + here =~= before);
            },
        }
        section = sec2;
        match cat2 {
            Some(c) => {
                category = c;
            },
            None => {},
        }
        if j < n {
            assert(rest.subrange(j - pos + 1, rest.len() as int) =~= cs@.subrange(
                j + 1,
                n as int,
            ));
            assert(before + here + spec_parse_text(
                cs@.subrange(j + 1, n as int),
                LineState { section, category: category@ },
                arch,
            ) =~= before + (here + spec_parse_text(
                cs@.subrange(j + 1, n as int),
                LineState { section, category: category@ },
                arch,
            )));
            pos = j + 1;
        } else {
            done = true;
        }
    }
    out
}

proof fn lemma_trim_plain(s: Seq<char>)
    requires
        s.len() > 0,
        !is_ws(s[0]),
        !is_ws(s.last()),
    ensures
        trim(s) == s,
{
    assert(crate::text::trim_start(s) == s);
    assert(crate::text::trim_end(s) == s);
}

/// An architecture's bit width and its label both read back as that architecture.
pub proof fn lemma_arch_round_trip(a: Arch)
    ensures
        spec_parse_arch(arch_bits(a)) == Some(a),
        spec_parse_arch(arch_label(a)) == Some(a),
{
    reveal_strlit("32");
    reveal_strlit("64");
    reveal_strlit("x86");
    reveal_strlit("x64");
    let b = arch_bits(a);
    let l = arch_label(a);
    lemma_trim_plain(b);
    lemma_trim_plain(l);
    assert(b.map_values(|c: char| ascii_lower(c)) =~= b);
    assert(l.map_values(|c: char| ascii_lower(c)) =~= l);
}

/// Whether a raw line is an architecture section header: after trimming it starts with `#` and
/// names `32BIT` or `64BIT`.
pub open spec fn is_section_header(raw: Seq<char>) -> bool {
    let line = trim(raw);
    &&& line.len() > 0
    &&& line[0] == '#'
    &&& (contains_word(line, seq!['3', '2', 'B', 'I', 'T']) || contains_word(
        line,
        seq!['6', '4', 'B', 'I', 'T'],
    ))
}

/// None of the lines of `rest` (split at `\n`) is an architecture section header.
pub open spec fn no_section_headers(rest: Seq<char>) -> bool
    decreases rest.len(),
{
    let j = find_char(rest, '\n');
    &&& !is_section_header(rest.subrange(0, j))
    &&& (0 <= j < rest.len() ==> no_section_headers(rest.subrange(j + 1, rest.len() as int)))
}

/// Outside any architecture section, lines that open no section define the same patterns for
/// either architecture.
proof fn lemma_parse_text_neutral(rest: Seq<char>, st: LineState)
    requires
        no_section_headers(rest),
        st.section is None,
    ensures
        spec_parse_text(rest, st, Arch::X86) == spec_parse_text(rest, st, Arch::X64),
    decreases rest.len(),
{
    let j = find_char(rest, '\n');
    let raw = rest.subrange(0, j);
    let (n86, p86) = spec_line(raw, st, Arch::X86);
    let (n64, p64) = spec_line(raw, st, Arch::X64);
    assert(n86 == n64 && p86 == p64);
    assert(n86.section is None);
    if 0 <= j < rest.len() {
        lemma_parse_text_neutral(rest.subrange(j + 1, rest.len() as int), n86);
    }
}

/// Patterns before any architecture section apply to both architectures: a pattern file that
/// opens no section loads the same patterns for x86 and x64.
pub proof fn lemma_sectionless_file_is_arch_neutral(text: Seq<char>)
    requires
        no_section_headers(
            if text.len() > 0 && text[0] == '\u{feff}' {
                text.drop_first()
            } else {
                text
            },
        ),
    ensures
        spec_parse_patterns(text, Arch::X86) == spec_parse_patterns(text, Arch::X64),
{
    let t = if text.len() > 0 && text[0] == '\u{feff}' {
        text.drop_first()
    } else {
        text
    };
    lemma_parse_text_neutral(t, LineState { section: None, category: "globals"@ });
}

/// A signature's mask covers exactly its bytes.
proof fn lemma_signature_lengths(rest: Seq<char>)
    ensures
        spec_signature(rest).0.len() == spec_signature(rest).1.len(),
    decreases rest.len(),
{
    if rest.len() == 0 {
    } else if is_ws(rest[0]) {
        lemma_signature_lengths(rest.drop_first());
    } else {
        let j = find_ws(rest);
        if 0 < j <= rest.len() {
            lemma_signature_lengths(rest.subrange(j, rest.len() as int));
        }
    }
}

/// Every pattern the lines of `rest` define has at least one byte and a mask entry per byte.
proof fn lemma_parse_text_well_formed(rest: Seq<char>, st: LineState, arch: Arch)
    ensures
        forall|k: int|
            0 <= k < spec_parse_text(rest, st, arch).len() ==> {
                let p = #[trigger] spec_parse_text(rest, st, arch)[k];
                p.bytes.len() > 0 && p.bytes.len() == p.mask.len()
            },
    decreases rest.len(),
{
    let j = find_char(rest, '\n');
    let (next, p) = spec_line(rest.subrange(0, j), st, arch);
    let here = match p {
        Some(p) => seq![p],
        None => Seq::empty(),
    };
    let line = trim(rest.subrange(0, j));
    if let Some((name, aob)) = spec_split_name_aob(line) {
        lemma_signature_lengths(aob);
    }
    if 0 <= j < rest.len() {
        let tail = rest.subrange(j + 1, rest.len() as int);
        lemma_parse_text_well_formed(tail, next, arch);
        let all = spec_parse_text(rest, st, arch);
        assert(all == here + spec_parse_text(tail, next, arch));
        assert forall|k: int| 0 <= k < all.len() implies #[trigger] all[k].bytes.len() > 0
            && all[k].bytes.len() == all[k].mask.len() by {
            if k >= here.len() {
                assert(all[k] == spec_parse_text(tail, next, arch)[k - here.len()]);
            }
        }
    }
}

/// Every parsed pattern has at least one byte, and a mask entry for each byte.
pub proof fn lemma_parsed_patterns_well_formed(text: Seq<char>, arch: Arch)
    ensures
        forall|k: int|
            0 <= k < spec_parse_patterns(text, arch).len() ==> {
                let p = #[trigger] spec_parse_patterns(text, arch)[k];
                p.bytes.len() > 0 && p.bytes.len() == p.mask.len()
            },
{
    let t = if text.len() > 0 && text[0] == '\u{feff}' {
        text.drop_first()
    } else {
        text
    };
    lemma_parse_text_well_formed(t, LineState { section: None, category: "globals"@ }, arch);
}

/// A byte written as two hexadecimal digits, upper- or lower-case as `lower` asks.
pub open spec fn byte_token(b: u8, lower: bool) -> Seq<char> {
    let hi = hex_digit_char(b as int / 16);
    let lo = hex_digit_char(b as int % 16);
    if lower {
        seq![ascii_lower(hi), ascii_lower(lo)]
    } else {
        seq![hi, lo]
    }
}

proof fn lemma_digit_value(d: int)
    requires
        0 <= d < 16,
    ensures
        is_ascii_char(hex_digit_char(d)),
        is_ascii_char(ascii_upper(ascii_lower(hex_digit_char(d)))),
        ascii_upper(hex_digit_char(d)) == hex_digit_char(d),
        ascii_upper(ascii_lower(hex_digit_char(d))) == hex_digit_char(d),
        spec_hex_val(hex_digit_char(d) as u8) == Some(d as u8),
        hex_digit_char(d) != '?' && hex_digit_char(d) != 'X' && hex_digit_char(d) != ',',
        ascii_lower(hex_digit_char(d)) != ',',
{
}

/// Every byte written as two hexadecimal digits, in either case, is read back as that fixed byte:
/// the token `hl` stands for `16 * value(h) + value(l)`, for each digit `0`..`9`, `A`..`F`,
/// `a`..`f`.
pub proof fn lemma_byte_token_round_trip(b: u8, lower: bool)
    ensures
        spec_token(byte_token(b, lower)) == Some(Some(b)),
{
    let hi = b as int / 16;
    let lo = b as int % 16;
    lemma_digit_value(hi);
    lemma_digit_value(lo);
    let raw = byte_token(b, lower);
    assert(strip_trailing_commas(raw) == raw);
    let u = raw.map_values(|c: char| ascii_upper(c));
    assert(u =~= seq![hex_digit_char(hi), hex_digit_char(lo)]);
}

/// A byte token keeps its value behind a `0x` or `0X` prefix and before trailing commas, and a
/// lone `?` or `??` is a wildcard.
pub proof fn lemma_token_forms(b: u8, lower: bool)
    ensures
        spec_token(seq!['0', 'x'] + byte_token(b, lower)) == Some(Some(b)),
        spec_token(seq!['0', 'X'] + byte_token(b, lower)) == Some(Some(b)),
        spec_token(byte_token(b, lower).push(',')) == Some(Some(b)),
        spec_token(seq!['?']) == Some(None::<u8>),
        spec_token(seq!['?', '?']) == Some(None::<u8>),
{
    let hi = b as int / 16;
    let lo = b as int % 16;
    lemma_digit_value(hi);
    lemma_digit_value(lo);
    let tok = byte_token(b, lower);
    let digits = seq![hex_digit_char(hi), hex_digit_char(lo)];
    let x1 = seq!['0', 'x'] + tok;
    assert(strip_trailing_commas(x1) == x1);
    let u1 = x1.map_values(|c: char| ascii_upper(c));
    assert(u1 =~= seq!['0', 'X'] + digits);
    assert(u1.subrange(2, u1.len() as int) =~= digits);
    let x2 = seq!['0', 'X'] + tok;
    assert(strip_trailing_commas(x2) == x2);
    let u2 = x2.map_values(|c: char| ascii_upper(c));
    assert(u2 =~= seq!['0', 'X'] + digits);
    assert(u2.subrange(2, u2.len() as int) =~= digits);
    let x3 = tok.push(',');
    assert(x3.drop_last() =~= tok);
    assert(strip_trailing_commas(tok) == tok);
    assert(strip_trailing_commas(x3) == tok);
    lemma_byte_token_round_trip(b, lower);
    let q1: Seq<char> = seq!['?'];
    assert(strip_trailing_commas(q1) == q1);
    assert(q1.map_values(|c: char| ascii_upper(c)) =~= q1);
    let q2: Seq<char> = seq!['?', '?'];
    assert(strip_trailing_commas(q2) == q2);
    assert(q2.map_values(|c: char| ascii_upper(c)) =~= q2);
}

/// A signature that starts with a byte token and a space is that fixed byte followed by the
/// signature of the rest.
pub proof fn lemma_signature_leading_byte(b: u8, lower: bool, rest: Seq<char>)
    ensures
        spec_signature(byte_token(b, lower) + seq![' '] + rest) == (
            seq![b] + spec_signature(rest).0,
            seq![true] + spec_signature(rest).1,
        ),
        spec_signature(byte_token(b, lower)) == (seq![b], seq![true]),
{
    let hi = b as int / 16;
    let lo = b as int % 16;
    lemma_digit_value(hi);
    lemma_digit_value(lo);
    lemma_byte_token_round_trip(b, lower);
    let tok = byte_token(b, lower);
    assert(!is_ws(tok[0]) && !is_ws(tok[1]));
    let x = tok + seq![' '] + rest;
    assert(x.drop_first().drop_first() =~= seq![' '] + rest);
    assert(find_ws(x.drop_first().drop_first()) == 0);
    assert(x.drop_first()[0] == tok[1]);
    assert(find_ws(x.drop_first()) == 1);
    assert(find_ws(x) == 2);
    assert(x.subrange(0, 2) =~= tok);
    let after = x.subrange(2, x.len() as int);
    assert(after =~= seq![' '] + rest);
    assert(after.drop_first() =~= rest);
    assert(spec_signature(after) == spec_signature(rest));
    assert(tok.drop_first().drop_first() =~= Seq::<char>::empty());
    assert(find_ws(Seq::<char>::empty()) == 0);
    assert(tok.drop_first()[0] == tok[1]);
    assert(find_ws(tok.drop_first()) == 1);
    assert(find_ws(tok) == 2);
    assert(tok.subrange(0, 2) =~= tok);
    assert(tok.subrange(2, 2) =~= Seq::<char>::empty());
    assert(spec_signature(Seq::<char>::empty()) == (Seq::<u8>::empty(), Seq::<bool>::empty()));
    assert(seq![b] + Seq::<u8>::empty() =~= seq![b]);
    assert(seq![true] + Seq::<bool>::empty() =~= seq![true]);
}

} // verus!
