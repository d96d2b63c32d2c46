//! The pattern compiler and matcher: turns a path template with `{name}` /
//! `{name:type}` placeholders into an anchored regular expression plus the
//! ordered list of the placeholders' source offsets, and extracts named
//! parameters from a path the compiled pattern matches.

use vstd::prelude::*;
use vstd::string::StringSliceAdditionalSpecFns;
use vstd::utf8::encode_utf8;
use vstd::utf8::valid_utf8;

use crate::matcher::capture_span;
use crate::matcher::pattern_matches;
use crate::matcher::regex_capture;
use crate::matcher::regex_is_match;
use crate::matcher::regex_new;
use crate::matcher::regex_ok;
use crate::matcher::regex_source;
use crate::matcher::string_from_utf8;
use crate::params::param_insert;
use crate::params::Params;
use crate::strutil::extend_bytes;
use vstd::utf8::decode_utf8;
use vstd::utf8::encode_utf8_decode_utf8;

pub mod glob;
pub mod types;

use types::default_pattern_spec;
use types::default_types_map;
use types::Types;

verus! {

pub const LBRACE: u8 = 123;

pub const RBRACE: u8 = 125;

pub const BACKSLASH: u8 = 92;

pub const COLON: u8 = 58;

pub const CARET: u8 = 94;

pub const DOLLAR: u8 = 36;

pub const SLASH: u8 = 47;

pub const QUESTION: u8 = 63;

pub const LPAREN: u8 = 40;

pub const RPAREN: u8 = 41;

pub const CAPTURE_P: u8 = 80;

pub const LANGLE: u8 = 60;

pub const RANGLE: u8 = 62;

/// The half-open byte range a whole `{...}` placeholder occupies in the
/// original template, together with the placeholder's name; reverse
/// generation substitutes a value for exactly these bytes.
#[derive(Debug, Clone, PartialEq, Eq)]
pub struct ParamChunk {
    pub name: String,
    pub start: usize,
    pub end: usize,
}

/// The mathematical shadow of a `ParamChunk`: the name as its UTF-8 bytes
/// and the source offsets as unbounded integers.
pub ghost struct GChunk {
    pub name: Seq<u8>,
    pub start: int,
    pub end: int,
}

impl ParamChunk {
    /// The chunk as its mathematical shadow.
    pub open spec fn abs(self) -> GChunk {
        GChunk { name: encode_utf8(self.name@), start: self.start as int, end: self.end as int }
    }
}

/// A list of chunks as their mathematical shadows.
pub open spec fn chunks_abs(s: Seq<ParamChunk>) -> Seq<GChunk> {
    s.map_values(|c: ParamChunk| c.abs())
}

/// ASCII whitespace skipped inside a placeholder.
pub open spec fn is_ws(b: u8) -> bool {
    b == 32 || b == 9 || b == 13 || b == 10
}

/// A byte that may start an identifier: `[_a-zA-Z]`.
pub open spec fn is_ident_start(b: u8) -> bool {
    b == 95 || (65 <= b <= 90) || (97 <= b <= 122)
}

/// A byte that may continue an identifier: `[_0-9a-zA-Z]`.
pub open spec fn is_ident_byte(b: u8) -> bool {
    is_ident_start(b) || (48 <= b <= 57)
}

/// Whether the bytes form an identifier, `[_a-zA-Z][_0-9a-zA-Z]*`.
pub open spec fn is_identifier(s: Seq<u8>) -> bool {
    &&& s.len() > 0
    &&& is_ident_start(s[0])
    &&& forall|i: int| 1 <= i < s.len() ==> is_ident_byte(#[trigger] s[i])
}

/// The position of the first unescaped `}` at or after `j`, or `t.len()`
/// when there is none.
pub open spec fn close_pos(t: Seq<u8>, j: int) -> int
    decreases t.len() - j,
{
    if j < 0 || j >= t.len() {
        t.len() as int
    } else if t[j] == RBRACE && t[j - 1] != BACKSLASH {
        j
    } else {
        close_pos(t, j + 1)
    }
}

/// `close_pos` stays between its starting point and the end of the template,
/// and where it lands short of the end, an unescaped `}` stands there with
/// none earlier.
pub proof fn lemma_close_pos(t: Seq<u8>, j: int)
    requires
        0 <= j <= t.len(),
    ensures
        j <= close_pos(t, j) <= t.len(),
        close_pos(t, j) < t.len() ==> t[close_pos(t, j)] == RBRACE && t[close_pos(t, j) - 1]
            != BACKSLASH,
        forall|k: int|
            j <= k < close_pos(t, j) ==> !(#[trigger] t[k] == RBRACE && t[k - 1] != BACKSLASH),
    decreases t.len() - j,
{
    if j >= t.len() {
    } else if t[j] == RBRACE && t[j - 1] != BACKSLASH {
    } else {
        lemma_close_pos(t, j + 1);
    }
}

/// Splits the inside of a placeholder into its name part and its type part:
/// ASCII whitespace is dropped, the first `:` switches from name to type, and
/// every other byte lands in whichever part is being read.
pub open spec fn strip_ph(body: Seq<u8>, seen_colon: bool) -> (Seq<u8>, Seq<u8>)
    decreases body.len(),
{
    if body.len() == 0 {
        (Seq::empty(), Seq::empty())
    } else {
        let b = body[0];
        if is_ws(b) {
            strip_ph(body.drop_first(), seen_colon)
        } else if b == COLON && !seen_colon {
            strip_ph(body.drop_first(), true)
        } else {
            let rest = strip_ph(body.drop_first(), seen_colon);
            if seen_colon {
                (rest.0, seq![b] + rest.1)
            } else {
                (seq![b] + rest.0, rest.1)
            }
        }
    }
}

/// What one placeholder contributes to the compiled pattern.
pub ghost struct PhOut {
    /// False when a name or type part is not valid UTF-8, which fails the
    /// whole compilation.
    pub ok: bool,
    /// The bytes emitted into the pattern.
    pub emit: Seq<u8>,
    /// The parameter chunk recorded for a named capture, if any.
    pub chunk: Option<GChunk>,
}

/// The contribution of the placeholder running from `start` (its `{`) to
/// `close` (its `}`): nothing for an empty placeholder, the literal
/// `{name}` when the name is no identifier, and otherwise a capture group
/// around the registered fragment for the type (or the name, or the
/// default), named and recorded as a chunk when the name is nonempty.
pub open spec fn ph_out(t: Seq<u8>, m: Map<Seq<u8>, Seq<u8>>, start: int, close: int) -> PhOut {
    let parts = strip_ph(t.subrange(start + 1, close), false);
    let nb = parts.0;
    let tb = parts.1;
    if nb.len() == 0 && tb.len() == 0 {
        PhOut { ok: true, emit: Seq::empty(), chunk: None }
    } else if !valid_utf8(nb) {
        PhOut { ok: false, emit: Seq::empty(), chunk: None }
    } else if nb.len() > 0 && !is_identifier(nb) {
        PhOut { ok: true, emit: seq![LBRACE] + nb + seq![RBRACE], chunk: None }
    } else if !valid_utf8(tb) {
        PhOut { ok: false, emit: Seq::empty(), chunk: None }
    } else {
        let frag = if tb.len() > 0 {
            if m.dom().contains(tb) {
                m[tb]
            } else {
                tb
            }
        } else {
            if m.dom().contains(nb) {
                m[nb]
            } else {
                default_pattern_spec()
            }
        };
        if nb.len() > 0 {
            PhOut {
                ok: true,
                emit: seq![LPAREN, QUESTION, CAPTURE_P, LANGLE] + nb + seq![RANGLE] + frag + seq![RPAREN],
                chunk: Some(GChunk { name: nb, start, end: close + 1 }),
            }
        } else {
            PhOut { ok: true, emit: seq![LPAREN] + frag + seq![RPAREN], chunk: None }
        }
    }
}

/// An optional chunk as a sequence of length zero or one.
pub open spec fn opt_chunk(c: Option<GChunk>) -> Seq<GChunk> {
    match c {
        None => Seq::empty(),
        Some(g) => seq![g],
    }
}

/// One left-to-right scan of the template from position `i`: literal bytes
/// are copied, an unescaped `{` opens a placeholder that runs to its
/// unescaped `}` (a placeholder that never closes drops the rest of the
/// template), and the scan fails only where a placeholder fails.
pub open spec fn scan(t: Seq<u8>, m: Map<Seq<u8>, Seq<u8>>, i: int) -> Option<
    (Seq<u8>, Seq<GChunk>),
>
    decreases t.len() - i,
    via scan_decreases
{
    if i < 0 || i >= t.len() {
        Some((Seq::empty(), Seq::empty()))
    } else if t[i] == LBRACE && (i == 0 || t[i - 1] != BACKSLASH) {
        let close = close_pos(t, i + 1);
        if close >= t.len() {
            Some((Seq::empty(), Seq::empty()))
        } else {
            let ph = ph_out(t, m, i, close);
            if !ph.ok {
                None
            } else {
                match scan(t, m, close + 1) {
                    None => None,
                    Some(rest) => Some((ph.emit + rest.0, opt_chunk(ph.chunk) + rest.1)),
                }
            }
        }
    } else {
        match scan(t, m, i + 1) {
            None => None,
            Some(rest) => Some((seq![t[i]] + rest.0, rest.1)),
        }
    }
}

#[via_fn]
proof fn scan_decreases(t: Seq<u8>, m: Map<Seq<u8>, Seq<u8>>, i: int) {
    if 0 <= i < t.len() {
        lemma_close_pos(t, i + 1);
    }
}

/// The pattern with its anchors: a leading `^` always, and a trailing `$`
/// where the template's pattern already ends in `/`, else `/?$` so that one
/// optional trailing slash is accepted.
pub open spec fn anchored(emit: Seq<u8>) -> Seq<u8> {
    let p = seq![CARET] + emit;
    if p.last() == SLASH {
        p + seq![DOLLAR]
    } else {
        p + seq![SLASH, QUESTION, DOLLAR]
    }
}

/// The anchored pattern a template compiles to, meaningful where the scan
/// succeeds.
pub open spec fn compiled_pattern(t: Seq<u8>, m: Map<Seq<u8>, Seq<u8>>) -> Seq<u8> {
    anchored(scan(t, m, 0).unwrap().0)
}

/// The parameter chunks a template compiles to, meaningful where the scan
/// succeeds.
pub open spec fn compiled_chunks(t: Seq<u8>, m: Map<Seq<u8>, Seq<u8>>) -> Seq<GChunk> {
    scan(t, m, 0).unwrap().1
}

/// Whether compiling the template can succeed at all: the scan accepts it,
/// the assembled pattern is valid UTF-8, and the regex engine accepts it.
pub open spec fn compiles(t: Seq<u8>, m: Map<Seq<u8>, Seq<u8>>) -> bool {
    &&& scan(t, m, 0) is Some
    &&& valid_utf8(compiled_pattern(t, m))
    &&& regex_ok(compiled_pattern(t, m))
}

/// A template with no `{` scans to itself, with no parameter chunks, from
/// any position on.
proof fn lemma_literal_scan(t: Seq<u8>, m: Map<Seq<u8>, Seq<u8>>, i: int)
    requires
        0 <= i <= t.len(),
        forall|k: int| 0 <= k < t.len() ==> #[trigger] t[k] != LBRACE,
    ensures
        scan(t, m, i) == Some((t.skip(i), Seq::<GChunk>::empty())),
    decreases t.len() - i,
{
    if i >= t.len() {
        assert(t.skip(i) =~= Seq::<u8>::empty());
    } else {
        lemma_literal_scan(t, m, i + 1);
        assert(seq![t[i]] + t.skip(i + 1) =~= t.skip(i));
    }
}

/// A template without placeholders compiles to itself between the anchors:
/// a leading `^`, the template's own bytes, and `$` after a trailing slash
/// or the optional-trailing-slash anchor `/?$` otherwise. The anchors are
/// what make the compiled pattern match the template itself and the
/// template with one trailing slash added, and nothing longer.
pub proof fn lemma_literal_template(t: Seq<u8>, m: Map<Seq<u8>, Seq<u8>>)
    requires
        forall|k: int| 0 <= k < t.len() ==> #[trigger] t[k] != LBRACE,
    ensures
        scan(t, m, 0) == Some((t, Seq::<GChunk>::empty())),
        compiled_chunks(t, m) == Seq::<GChunk>::empty(),
        t.len() > 0 && t.last() == SLASH ==> compiled_pattern(t, m) == seq![CARET] + t + seq![
            DOLLAR,
        ],
        !(t.len() > 0 && t.last() == SLASH) ==> compiled_pattern(t, m) == seq![CARET] + t + seq![
            SLASH,
            QUESTION,
            DOLLAR,
        ],
{
    lemma_literal_scan(t, m, 0);
    assert(t.skip(0) =~= t);
    let p = seq![CARET] + t;
    if t.len() > 0 && t.last() == SLASH {
        assert(p.last() == SLASH);
    } else {
        assert(p.last() != SLASH);
    }
}

/// The chunks a scan records are in template order, pairwise disjoint,
/// nonempty, and within the template: each placeholder's range starts at or
/// after the scan position and every later chunk begins after the one
/// before it ends.
pub proof fn lemma_scan_chunks(t: Seq<u8>, m: Map<Seq<u8>, Seq<u8>>, i: int)
    requires
        0 <= i,
        scan(t, m, i) is Some,
    ensures
        ({
            let cs = scan(t, m, i).unwrap().1;
            &&& forall|k: int|
                0 <= k < cs.len() ==> i <= (#[trigger] cs[k]).start < cs[k].end <= t.len()
            &&& forall|k: int, l: int|
                0 <= k < l < cs.len() ==> (#[trigger] cs[k]).end <= (#[trigger] cs[l]).start
        }),
    decreases t.len() - i,
{
    if i >= t.len() {
    } else if t[i] == LBRACE && (i == 0 || t[i - 1] != BACKSLASH) {
        lemma_close_pos(t, i + 1);
        let close = close_pos(t, i + 1);
        if close >= t.len() {
        } else {
            lemma_scan_chunks(t, m, close + 1);
            let ph = ph_out(t, m, i, close);
            let rest = scan(t, m, close + 1).unwrap();
            let cs = scan(t, m, i).unwrap().1;
            assert(cs == opt_chunk(ph.chunk) + rest.1);
            assert forall|k: int| 0 <= k < cs.len() implies i <= (#[trigger] cs[k]).start
                && cs[k].start < cs[k].end && cs[k].end <= t.len() by {
                if k >= opt_chunk(ph.chunk).len() {
                    assert(cs[k] == rest.1[k - opt_chunk(ph.chunk).len()]);
                }
            }
        }
    } else {
        lemma_scan_chunks(t, m, i + 1);
        let rest = scan(t, m, i + 1).unwrap();
        let cs = scan(t, m, i).unwrap().1;
        assert(cs == rest.1);
    }
}

/// Finds the first unescaped `}` at or after `from`, returning the
/// template's length when there is none.
fn find_close(t: &[u8], from: usize) -> (c: usize)
    requires
        1 <= from,
    ensures
        c as int == close_pos(t@, from as int),
{
    let n = t.len();
    let mut j = from;
    while j < n
        invariant
            1 <= from <= j,
            n == t@.len(),
            close_pos(t@, from as int) == close_pos(t@, j as int),
        decreases n - j,
    {
        if t[j] == RBRACE && t[j - 1] != BACKSLASH {
            return j;
        }
        j = j + 1;
    }
    n
}

/// Splits the placeholder body `t[lo..hi]` into its name and type bytes.
fn split_body(t: &[u8], lo: usize, hi: usize) -> (r: (Vec<u8>, Vec<u8>))
    requires
        lo <= hi <= t@.len(),
    ensures
        r.0@ == strip_ph(t@.subrange(lo as int, hi as int), false).0,
        r.1@ == strip_ph(t@.subrange(lo as int, hi as int), false).1,
{
    let ghost body = t@.subrange(lo as int, hi as int);
    let mut name: Vec<u8> = Vec::new();
    let mut ty: Vec<u8> = Vec::new();
    let mut seen: bool = false;
    let mut k = lo;
    proof {
        assert(t@.subrange(lo as int, hi as int) =~= body);
    }
    while k < hi
        invariant
            lo <= k <= hi <= t@.len(),
            body == t@.subrange(lo as int, hi as int),
            strip_ph(body, false).0 == name@ + strip_ph(
                t@.subrange(k as int, hi as int),
                seen,
            ).0,
            strip_ph(body, false).1 == ty@ + strip_ph(t@.subrange(k as int, hi as int), seen).1,
        decreases hi - k,
    {
        let ghost sub = t@.subrange(k as int, hi as int);
        proof {
            assert(sub.len() > 0);
            assert(sub[0] == t@[k as int]);
            assert(sub.drop_first() =~= t@.subrange(k as int + 1, hi as int));
        }
        let b = t[k];
        if b == 32 || b == 9 || b == 13 || b == 10 {
            // whitespace: dropped
        } else if b == COLON && !seen {
            seen = true;
        } else if seen {
            let ghost rest = strip_ph(sub.drop_first(), seen);
            let ghost ty0 = ty@;
            ty.push(b);
            proof {
                assert(ty0 + (seq![b] + rest.1) =~= (ty0 + seq![b]) + rest.1);
            }
        } else {
            let ghost rest = strip_ph(sub.drop_first(), seen);
            let ghost name0 = name@;
            name.push(b);
            proof {
                assert(name0 + (seq![b] + rest.0) =~= (name0 + seq![b]) + rest.0);
            }
        }
        k = k + 1;
    }
    proof {
        assert(t@.subrange(hi as int, hi as int).len() == 0);
        assert(name@ + strip_ph(t@.subrange(hi as int, hi as int), seen).0 =~= name@);
        assert(ty@ + strip_ph(t@.subrange(hi as int, hi as int), seen).1 =~= ty@);
    }
    (name, ty)
}

/// Whether the bytes form an identifier, `[_a-zA-Z][_0-9a-zA-Z]*`.
fn is_identifier_exec(v: &[u8]) -> (r: bool)
    ensures
        r == is_identifier(v@),
{
    let n = v.len();
    if n == 0 {
        return false;
    }
    let b0 = v[0];
    if !(b0 == 95 || (65 <= b0 && b0 <= 90) || (97 <= b0 && b0 <= 122)) {
        return false;
    }
    let mut i: usize = 1;
    while i < n
        invariant
            1 <= i <= n,
            n == v@.len(),
            is_ident_start(v@[0]),
            forall|j: int| 1 <= j < i ==> is_ident_byte(#[trigger] v@[j]),
        decreases n - i,
    {
        let b = v[i];
        if !(b == 95 || (65 <= b && b <= 90) || (97 <= b && b <= 122) || (48 <= b && b <= 57)) {
            return false;
        }
        i = i + 1;
    }
    true
}

/// Why a template was rejected at registration time.
#[derive(Debug, Clone, Copy, PartialEq, Eq, Structural)]
pub enum PatternError {
    /// A placeholder name or type, or the assembled pattern, is not valid
    /// UTF-8.
    InvalidUtf8,
    /// The assembled pattern is not a regular expression the engine accepts.
    InvalidRegex,
}

/// A compiled route pattern: the anchored regular expression built from a
/// template, and the source offsets of the template's named placeholders.
pub struct Recognizer {
    pub glob_regex: regex::Regex,
    pub param_chunks: Vec<ParamChunk>,
}

impl Recognizer {
    /// Compiles a template against a type registry into an anchored matching
    /// regex and the ordered list of its named placeholders' source ranges.
    #[verifier::rlimit(100)]
    pub fn parse_glob(glob: &[u8], types: &Types) -> (r: Result<
        (regex::Regex, Vec<ParamChunk>),
        PatternError,
    >)
        ensures
            r is Ok <==> compiles(glob@, types@),
            r matches Ok(p) ==> regex_source(p.0) == compiled_pattern(glob@, types@)
                && chunks_abs(p.1@) == compiled_chunks(glob@, types@),
            r == Err::<(regex::Regex, Vec<ParamChunk>), PatternError>(PatternError::InvalidUtf8)
                <==> (scan(glob@, types@, 0) is None || (scan(glob@, types@, 0) is Some
                && !valid_utf8(compiled_pattern(glob@, types@)))),
            r == Err::<(regex::Regex, Vec<ParamChunk>), PatternError>(PatternError::InvalidRegex)
                <==> (scan(glob@, types@, 0) is Some && valid_utf8(
                compiled_pattern(glob@, types@),
            ) && !regex_ok(compiled_pattern(glob@, types@))),
    {
        let ghost t = glob@;
        let ghost m = types@;
        let n = glob.len();
        let mut pattern: Vec<u8> = Vec::new();
        pattern.push(CARET);
        let mut chunks: Vec<ParamChunk> = Vec::new();
        let mut i: usize = 0;
        while i < n
            invariant
                0 <= i <= n,
                n == t.len(),
                t == glob@,
                m == types@,
                pattern@.len() >= 1,
                pattern@[0] == CARET,
                scan(t, m, 0) is Some <==> scan(t, m, i as int) is Some,
                scan(t, m, i as int) is Some ==> scan(t, m, 0) == Some::<(Seq<u8>, Seq<GChunk>)>(
                    (
                        pattern@.skip(1) + scan(t, m, i as int).unwrap().0,
                        chunks_abs(chunks@) + scan(t, m, i as int).unwrap().1,
                    ),
                ),
            decreases n - i,
        {
            let ghost pat0 = pattern@;
            let ghost ch0 = chunks@;
            let b = glob[i];
            if b == LBRACE && (i == 0 || glob[i - 1] != BACKSLASH) {
                proof {
                    lemma_close_pos(t, i as int + 1);
                }
                let close = find_close(glob, i + 1);
                if close == n {
                    // unterminated placeholder: the rest of the template is
                    // dropped, as the scan never finds its closing brace
                    proof {
                        let rest0 = (Seq::<u8>::empty(), Seq::<GChunk>::empty());
                        assert(scan(t, m, i as int) == Some::<(Seq<u8>, Seq<GChunk>)>(rest0));
                        assert(scan(t, m, n as int) == Some::<(Seq<u8>, Seq<GChunk>)>(rest0));
                    }
                    i = n;
                } else {
                    let ghost ph = ph_out(t, m, i as int, close as int);
                    let (name_b, type_b) = split_body(glob, i + 1, close);
                    let nonempty = name_b.len() > 0 || type_b.len() > 0;
                    if nonempty {
                        let name_opt = string_from_utf8(name_b.as_slice());
                        match name_opt {
                            None => {
                                proof {
                                    assert(!ph.ok);
                                    assert(scan(t, m, i as int) is None);
                                }
                                return Err(PatternError::InvalidUtf8);
                            },
                            Some(name_s) => {
                                if name_b.len() > 0 && !is_identifier_exec(name_b.as_slice()) {
                                    pattern.push(LBRACE);
                                    extend_bytes(&mut pattern, name_b.as_slice());
                                    pattern.push(RBRACE);
                                    proof {
                                        assert(pattern@ =~= pat0 + ph.emit);
                                    }
                                } else {
                                    let type_ok = string_from_utf8(type_b.as_slice());
                                    if type_ok.is_none() {
                                        proof {
                                            assert(!ph.ok);
                                            assert(scan(t, m, i as int) is None);
                                        }
                                        return Err(PatternError::InvalidUtf8);
                                    }
                                    let named = name_b.len() > 0;
                                    if named {
                                        pattern.push(LPAREN);
                                        pattern.push(QUESTION);
                                        pattern.push(CAPTURE_P);
                                        pattern.push(LANGLE);
                                        extend_bytes(&mut pattern, name_b.as_slice());
                                        pattern.push(RANGLE);
                                        chunks.push(
                                            ParamChunk { name: name_s, start: i, end: close + 1 },
                                        );
                                    } else {
                                        pattern.push(LPAREN);
                                    }
                                    let lookup = if type_b.len() > 0 {
                                        types.get(type_b.as_slice())
                                    } else {
                                        types.get(name_b.as_slice())
                                    };
                                    match lookup {
                                        Some(f) => {
                                            extend_bytes(&mut pattern, f.as_slice());
                                        },
                                        None => {
                                            if type_b.len() > 0 {
                                                extend_bytes(&mut pattern, type_b.as_slice());
                                            } else {
                                                extend_bytes(
                                                    &mut pattern,
                                                    Types::default_type().as_bytes(),
                                                );
                                            }
                                        },
                                    }
                                    pattern.push(RPAREN);
                                    proof {
                                        if named {
                                            assert(pattern@ =~= pat0 + ph.emit);
                                            assert(chunks@ == ch0.push(
                                                ParamChunk {
                                                    name: name_s,
                                                    start: i as usize,
                                                    end: (close + 1) as usize,
                                                },
                                            ));
                                            assert(chunks_abs(chunks@) =~= chunks_abs(ch0)
                                                + opt_chunk(ph.chunk));
                                        } else {
                                            assert(pattern@ =~= pat0 + ph.emit);
                                        }
                                    }
                                }
                            },
                        }
                    } else {
                        proof {
                            assert(ph.emit =~= Seq::<u8>::empty());
                            assert(pattern@ =~= pat0 + ph.emit);
                        }
                    }
                    proof {
                        assert(ph.ok);
                        assert(pattern@ == pat0 + ph.emit);
                        assert(chunks_abs(chunks@) =~= chunks_abs(ch0) + opt_chunk(ph.chunk));
                        assert(scan(t, m, i as int) == match scan(t, m, close as int + 1) {
                            None => None::<(Seq<u8>, Seq<GChunk>)>,
                            Some(rest) => Some(
                                (ph.emit + rest.0, opt_chunk(ph.chunk) + rest.1),
                            ),
                        });
                        if scan(t, m, close as int + 1) is Some {
                            let rest2 = scan(t, m, close as int + 1).unwrap();
                            let rest = scan(t, m, i as int).unwrap();
                            assert(rest.0 == ph.emit + rest2.0);
                            assert(pat0.skip(1) + rest.0 =~= pattern@.skip(1) + rest2.0) by {
                                assert(pattern@.skip(1) =~= pat0.skip(1) + ph.emit);
                            }
                            assert(chunks_abs(ch0) + rest.1 =~= chunks_abs(chunks@) + rest2.1);
                        }
                    }
                    i = close + 1;
                }
            } else {
                pattern.push(b);
                proof {
                    assert(scan(t, m, i as int) == match scan(t, m, i as int + 1) {
                        None => None::<(Seq<u8>, Seq<GChunk>)>,
                        Some(rest) => Some((seq![t[i as int]] + rest.0, rest.1)),
                    });
                    if scan(t, m, i as int + 1) is Some {
                        let rest2 = scan(t, m, i as int + 1).unwrap();
                        let rest = scan(t, m, i as int).unwrap();
                        assert(pat0.skip(1) + rest.0 =~= pattern@.skip(1) + rest2.0) by {
                            assert(pattern@.skip(1) =~= pat0.skip(1) + seq![t[i as int]]);
                        }
                    }
                }
                i = i + 1;
            }
        }
        let ghost emit = pattern@.skip(1);
        let ghost pat_before = pattern@;
        proof {
            assert(scan(t, m, n as int) == Some::<(Seq<u8>, Seq<GChunk>)>(
                (Seq::<u8>::empty(), Seq::<GChunk>::empty()),
            ));
            let full = scan(t, m, 0).unwrap();
            assert(full.0 =~= pattern@.skip(1) + Seq::<u8>::empty());
            assert(full.0 =~= emit);
            assert(full.1 =~= chunks_abs(chunks@) + Seq::<GChunk>::empty());
            assert(full.1 =~= chunks_abs(chunks@));
            assert(pat_before =~= seq![CARET] + emit);
        }
        let last = pattern[pattern.len() - 1];
        if last == SLASH {
            pattern.push(DOLLAR);
        } else {
            pattern.push(SLASH);
            pattern.push(QUESTION);
            pattern.push(DOLLAR);
        }
        proof {
            assert((seq![CARET] + emit).last() == last);
            if last == SLASH {
                assert(pattern@ =~= pat_before + seq![DOLLAR]);
            } else {
                assert(pattern@ =~= pat_before + seq![SLASH, QUESTION, DOLLAR]);
            }
            assert(pattern@ =~= anchored(emit));
            assert(compiled_pattern(t, m) == anchored(emit));
        }
        let pattern_s = string_from_utf8(pattern.as_slice());
        match pattern_s {
            None => Err(PatternError::InvalidUtf8),
            Some(ps) => {
                match regex_new(ps.as_str()) {
                    None => Err(PatternError::InvalidRegex),
                    Some(re) => Ok((re, chunks)),
                }
            },
        }
    }
}


/// The registry a compilation effectively uses: the one supplied, or the
/// built-in types when none is.
pub open spec fn effective_types(types: Option<&Types>) -> Map<Seq<u8>, Seq<u8>> {
    match types {
        Some(t) => t@,
        None => default_types_map(),
    }
}

/// The parameter set extracted when the compiled pattern matched `text`:
/// each chunk whose named group took part in the match binds its name to the
/// matched slice of the text, in chunk order.
pub open spec fn extracted(pattern: Seq<u8>, text: Seq<u8>, chunks: Seq<ParamChunk>) -> Seq<
    (Seq<char>, Seq<char>),
>
    decreases chunks.len(),
{
    if chunks.len() == 0 {
        Seq::empty()
    } else {
        let prev = extracted(pattern, text, chunks.drop_last());
        let c = chunks.last();
        match capture_span(pattern, text, encode_utf8(c.name@)) {
            None => prev,
            Some(span) => param_insert(prev, c.name@, decode_utf8(text.subrange(span.0, span.1))),
        }
    }
}

impl Recognizer {
    /// Compiles a template, against the given registry or the built-in types.
    pub fn new(glob: &[u8], types: Option<&Types>) -> (r: Result<Recognizer, PatternError>)
        ensures
            r is Ok <==> compiles(glob@, effective_types(types)),
            r matches Ok(rec) ==> {
                &&& regex_source(rec.glob_regex) == compiled_pattern(glob@, effective_types(types))
                &&& chunks_abs(rec.param_chunks@) == compiled_chunks(glob@, effective_types(types))
            },
    {
        let parsed = match types {
            Some(t) => Recognizer::parse_glob(glob, t),
            None => {
                let defaults = Types::with_default_types();
                Recognizer::parse_glob(glob, &defaults)
            },
        };
        match parsed {
            Ok(p) => Ok(Recognizer { glob_regex: p.0, param_chunks: p.1 }),
            Err(e) => Err(e),
        }
    }

    /// Matches a path against the compiled pattern; on a match, extracts the
    /// named parameters that took part in it.
    pub fn recognize(&self, path: &str) -> (r: Option<Params>)
        ensures
            r is Some <==> pattern_matches(regex_source(self.glob_regex), path.spec_bytes()),
            r matches Some(p) ==> {
                &&& p@ == extracted(
                    regex_source(self.glob_regex),
                    path.spec_bytes(),
                    self.param_chunks@,
                )
                &&& p.wf()
            },
    {
        if !regex_is_match(&self.glob_regex, path) {
            return None;
        }
        let ghost src = regex_source(self.glob_regex);
        let ghost text = path.spec_bytes();
        let mut params = Params::new();
        let n = self.param_chunks.len();
        let mut i: usize = 0;
        proof {
            assert(self.param_chunks@.take(0) =~= Seq::<ParamChunk>::empty());
        }
        while i < n
            invariant
                0 <= i <= n,
                n == self.param_chunks@.len(),
                src == regex_source(self.glob_regex),
                text == path.spec_bytes(),
                params.wf(),
                params@ == extracted(src, text, self.param_chunks@.take(i as int)),
            decreases n - i,
        {
            let ghost taken = self.param_chunks@.take(i as int + 1);
            proof {
                assert(taken.drop_last() =~= self.param_chunks@.take(i as int));
                assert(taken.last() == self.param_chunks@[i as int]);
            }
            let c = &self.param_chunks[i];
            match regex_capture(&self.glob_regex, path, c.name.as_str()) {
                Some(m) => {
                    proof {
                        encode_utf8_decode_utf8(m.2@);
                    }
                    let name = c.name.clone();
                    params.insert(name, m.2);
                },
                None => {},
            }
            i = i + 1;
        }
        proof {
            assert(self.param_chunks@.take(n as int) =~= self.param_chunks@);
        }
        Some(params)
    }
}

/// What a successful dispatch hands back: a reference to the matched route's
/// handler and the parameters extracted from the path.
pub struct RouteMatch<'a, H> {
    pub handler: &'a H,
    pub params: Params,
}

impl<'a, H> RouteMatch<'a, H> {
    /// Pairs a handler reference with extracted parameters.
    pub fn new(handler: &'a H, params: Params) -> (r: RouteMatch<'a, H>)
        ensures
            r.handler == handler,
            r.params == params,
    {
        RouteMatch { handler, params }
    }
}

} // verus!
