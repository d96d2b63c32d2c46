//! Reverse URI generation: rebuilding a concrete path from a route's
//! template by splicing parameter values over the placeholders' source
//! ranges (or over a regex match's capture spans), and appending whatever
//! parameters were not consumed as a deterministic query string.

use vstd::prelude::*;
use vstd::string::StringExecFns;
use vstd::string::StringSliceAdditionalSpecFns;
use vstd::utf8::encode_utf8;

use crate::matcher::capture_span;
use crate::matcher::group_names;
use crate::matcher::lossy_decode;
use crate::matcher::pattern_matches;
use crate::matcher::regex_capture;
use crate::matcher::regex_capture_names;
use crate::matcher::regex_is_match;
use crate::matcher::regex_source;
use crate::matcher::string_from_utf8_lossy;
use crate::params::param_remove;
use crate::params::param_value;
use crate::params::params_contains;
use crate::params::Params;
use crate::recognizer::ParamChunk;
use crate::recognizer::Recognizer;
use crate::router::find_id;
use crate::router::Router;

verus! {

/// One pending substitution: the half-open byte range it replaces in the
/// source, and the text that goes in.
pub ghost struct Rep {
    pub start: int,
    pub end: int,
    pub val: Seq<char>,
}

/// A list of substitution triples as their mathematical shadows.
pub open spec fn reps_abs(rs: Seq<(usize, usize, String)>) -> Seq<Rep> {
    rs.map_values(|p: (usize, usize, String)| Rep { start: p.0 as int, end: p.1 as int, val: p.2@ })
}

/// The first position holding the smallest start offset.
pub open spec fn min_start_at(rs: Seq<Rep>) -> int
    decreases rs.len(),
{
    if rs.len() <= 1 {
        0
    } else {
        let m = 1 + min_start_at(rs.drop_first());
        if rs[0].start <= rs[m].start {
            0
        } else {
            m
        }
    }
}

/// The substitutions ordered by start offset (stably: of equal starts, the
/// earlier one first).
pub open spec fn sort_reps(rs: Seq<Rep>) -> Seq<Rep>
    decreases rs.len(),
    via sort_reps_decreases
{
    if rs.len() == 0 {
        rs
    } else {
        let m = min_start_at(rs);
        seq![rs[m]] + sort_reps(rs.remove(m))
    }
}

#[via_fn]
proof fn sort_reps_decreases(rs: Seq<Rep>) {
    if rs.len() > 0 {
        lemma_min_start_at(rs);
    }
}

/// Whether an ordered substitution list fits a source of `n` bytes: every
/// range within bounds and no range starting before the previous one ends.
pub open spec fn reps_fit(rs: Seq<Rep>, n: int) -> bool {
    &&& forall|i: int| 0 <= i < rs.len() ==> 0 <= (#[trigger] rs[i]).start <= rs[i].end <= n
    &&& forall|i: int| 1 <= i < rs.len() ==> (#[trigger] rs[i]).start >= rs[i - 1].end
}

/// The text spliced from the source from byte `from` on: the bytes between
/// substitutions decoded as UTF-8 (lossily), the substituted values
/// verbatim.
pub open spec fn spliced(src: Seq<u8>, rs: Seq<Rep>, from: int) -> Seq<char>
    decreases rs.len(),
{
    if rs.len() == 0 {
        lossy_decode(src.subrange(from, src.len() as int))
    } else {
        lossy_decode(src.subrange(from, rs[0].start)) + rs[0].val + spliced(
            src,
            rs.drop_first(),
            rs[0].end,
        )
    }
}

/// What substituting a list of ranges into the source yields: the splice in
/// start order where the ranges fit the source, and the source unchanged
/// where they do not.
pub open spec fn spliced_or_source(src: Seq<u8>, rs: Seq<Rep>) -> Seq<char> {
    let s = sort_reps(rs);
    if reps_fit(s, src.len() as int) {
        spliced(src, s, 0)
    } else {
        lossy_decode(src)
    }
}

/// `min_start_at` lands on the first position with the smallest start.
proof fn lemma_min_start_at(rs: Seq<Rep>)
    requires
        rs.len() > 0,
    ensures
        0 <= min_start_at(rs) < rs.len(),
        forall|k: int|
            0 <= k < rs.len() ==> (#[trigger] rs[k]).start >= rs[min_start_at(rs)].start,
        forall|k: int| 0 <= k < min_start_at(rs) ==> (#[trigger] rs[k]).start > rs[min_start_at(
            rs,
        )].start,
    decreases rs.len(),
{
    if rs.len() == 1 {
    } else {
        lemma_min_start_at(rs.drop_first());
        let d = rs.drop_first();
        let m = 1 + min_start_at(d);
        assert(forall|k: int| 1 <= k < rs.len() ==> (#[trigger] rs[k]).start == d[k - 1].start);
        if rs[0].start <= rs[m].start {
        }
    }
}

/// Splices each substitution's value over its byte range in the source,
/// after ordering the substitutions by start offset; where the ranges do
/// not fit the source, the source is returned unchanged.
#[verifier::rlimit(100)]
pub fn replace_params(source: &str, replacements: Vec<(usize, usize, String)>) -> (r: String)
    ensures
        r@ == spliced_or_source(source.spec_bytes(), reps_abs(replacements@)),
{
    let ghost src = source.spec_bytes();
    let ghost orig = reps_abs(replacements@);
    let sorted = sort_replacements(replacements);
    let ghost rs = reps_abs(sorted@);
    let src_bytes = source.as_bytes();
    let n = src_bytes.len();
    if !replacements_fit(&sorted, n) {
        return string_from_utf8_lossy(src_bytes);
    }
    let len = sorted.len();
    let mut out = String::new();
    let mut idx: usize = 0;
    let mut i: usize = 0;
    proof {
        assert(rs.skip(0) =~= rs);
        assert(out@ + spliced(src, rs, 0) =~= spliced(src, rs, 0));
    }
    while i < len
        invariant
            0 <= i <= len,
            len == sorted@.len(),
            rs == reps_abs(sorted@),
            rs.len() == len,
            src == src_bytes@,
            src_bytes@ == source.spec_bytes(),
            reps_fit(rs, src.len() as int),
            idx <= src.len(),
            i < len ==> idx <= rs[i as int].start,
            i > 0 ==> idx == rs[i as int - 1].end,
            i == 0 ==> idx == 0,
            spliced(src, rs, 0) == out@ + spliced(src, rs.skip(i as int), idx as int),
        decreases len - i,
    {
        let ghost sub = rs.skip(i as int);
        proof {
            assert(sub[0] == rs[i as int]);
            assert(sub.drop_first() =~= rs.skip(i as int + 1));
        }
        let start = sorted[i].0;
        let end = sorted[i].1;
        proof {
            assert(rs[i as int].start == start as int && rs[i as int].end == end as int);
            assert(start <= end <= src.len());
        }
        let piece = string_from_utf8_lossy(&src_bytes[idx..start]);
        out.append(piece.as_str());
        out.append(sorted[i].2.as_str());
        proof {
            assert(rs[i as int].val == sorted@[i as int].2@);
        }
        idx = end;
        i = i + 1;
    }
    proof {
        assert(rs.skip(len as int).len() == 0);
    }
    let tail = string_from_utf8_lossy(&src_bytes[idx..n]);
    out.append(tail.as_str());
    out
}

/// The parameters left after each chunk's name, in chunk order, has been
/// consumed (whether or not it was bound).
pub open spec fn glob_params(
    chunks: Seq<ParamChunk>,
    p: Seq<(Seq<char>, Seq<char>)>,
) -> Seq<(Seq<char>, Seq<char>)>
    decreases chunks.len(),
{
    if chunks.len() == 0 {
        p
    } else {
        param_remove(glob_params(chunks.drop_last(), p), chunks.last().name@)
    }
}

/// The substitutions gathered from the chunks: each chunk whose name is
/// bound replaces its source range with the bound value.
pub open spec fn glob_reps(chunks: Seq<ParamChunk>, p: Seq<(Seq<char>, Seq<char>)>) -> Seq<Rep>
    decreases chunks.len(),
{
    if chunks.len() == 0 {
        Seq::empty()
    } else {
        let prev_reps = glob_reps(chunks.drop_last(), p);
        let prev_p = glob_params(chunks.drop_last(), p);
        let c = chunks.last();
        if params_contains(prev_p, c.name@) {
            prev_reps.push(
                Rep { start: c.start as int, end: c.end as int, val: param_value(prev_p, c.name@) },
            )
        } else {
            prev_reps
        }
    }
}

/// Substitutions whose starts strictly increase are already in order: the
/// sort leaves them as they stand.
proof fn lemma_sort_sorted(rs: Seq<Rep>)
    requires
        forall|i: int, j: int|
            0 <= i < j < rs.len() ==> (#[trigger] rs[i]).start < (#[trigger] rs[j]).start,
    ensures
        sort_reps(rs) == rs,
    decreases rs.len(),
{
    if rs.len() > 0 {
        lemma_min_start_at(rs);
        assert(min_start_at(rs) == 0) by {
            if min_start_at(rs) > 0 {
                assert(rs[0].start < rs[min_start_at(rs)].start);
            }
        }
        let d = rs.drop_first();
        assert(forall|i: int, j: int|
            0 <= i < j < d.len() ==> (#[trigger] d[i]).start < (#[trigger] d[j]).start) by {
            assert(forall|k: int| 0 <= k < d.len() ==> (#[trigger] d[k]).start == rs[k + 1].start);
        }
        lemma_sort_sorted(d);
        assert(rs.remove(0) =~= d);
        assert(seq![rs[0]] + d =~= rs);
    }
}

/// An ordered substitution list: it fits a source of `n` bytes, every range
/// is nonempty, and the starts strictly increase.
pub open spec fn reps_ordered(rs: Seq<Rep>, n: int) -> bool {
    &&& reps_fit(rs, n)
    &&& forall|i: int| 0 <= i < rs.len() ==> (#[trigger] rs[i]).start < rs[i].end
    &&& forall|i: int, j: int|
        0 <= i < j < rs.len() ==> (#[trigger] rs[i]).start < (#[trigger] rs[j]).start
}

/// Appending a further-right, nonempty, in-bounds range keeps a substitution
/// list ordered.
proof fn lemma_reps_push_ordered(prev: Seq<Rep>, added: Rep, n: int)
    requires
        reps_ordered(prev, n),
        0 <= added.start < added.end <= n,
        prev.len() > 0 ==> prev.last().end <= added.start,
    ensures
        reps_ordered(prev.push(added), n),
{
    let w = prev.push(added);
    assert(forall|i: int| 0 <= i < prev.len() ==> #[trigger] w[i] == prev[i]);
    assert(w[w.len() - 1] == added);
    assert forall|i: int, j: int| 0 <= i < j < w.len() implies (#[trigger] w[i]).start < (
    #[trigger] w[j]).start by {
        if j == w.len() - 1 {
            if i < prev.len() - 1 {
                assert(prev[i].start < prev.last().start);
            }
            assert(prev.last().start < prev.last().end);
            assert(prev.last().end <= added.start);
        }
    }
}

/// The substitutions gathered from chunks that are ordered, disjoint,
/// nonempty and within a source of `n` bytes — as every compiled template's
/// chunks are — fit that source in order, so splicing them takes the plain
/// splice and never the unchanged-source fallback.
pub proof fn lemma_glob_reps_ordered(
    chunks: Seq<ParamChunk>,
    p: Seq<(Seq<char>, Seq<char>)>,
    n: int,
)
    requires
        crate::router::chunks_ok(crate::recognizer::chunks_abs(chunks), n),
    ensures
        reps_ordered(glob_reps(chunks, p), n),
        sort_reps(glob_reps(chunks, p)) == glob_reps(chunks, p),
        glob_reps(chunks, p).len() > 0 ==> (exists|k: int|
            0 <= k < chunks.len() && glob_reps(chunks, p).last().start == chunks[k].start as int
                && glob_reps(chunks, p).last().end == chunks[k].end as int),
    decreases chunks.len(),
{
    let cs = crate::recognizer::chunks_abs(chunks);
    assert(cs.len() == chunks.len());
    if chunks.len() == 0 {
        lemma_sort_sorted(glob_reps(chunks, p));
    } else {
        let front = chunks.drop_last();
        let cs_front = crate::recognizer::chunks_abs(front);
        assert(forall|k: int| 0 <= k < front.len() ==> #[trigger] cs_front[k] == cs[k]);
        assert(crate::router::chunks_ok(cs_front, n));
        lemma_glob_reps_ordered(front, p, n);
        let prev = glob_reps(front, p);
        let reps = glob_reps(chunks, p);
        let c = chunks.last();
        assert(cs[chunks.len() - 1] == c.abs());
        if params_contains(glob_params(front, p), c.name@) {
            let added = Rep {
                start: c.start as int,
                end: c.end as int,
                val: param_value(glob_params(front, p), c.name@),
            };
            assert(reps == prev.push(added));
            assert(0 <= added.start < added.end <= n) by {
                assert(0 <= cs[chunks.len() - 1].start < cs[chunks.len() - 1].end <= n);
            }
            if prev.len() > 0 {
                let k = choose|k: int|
                    0 <= k < front.len() && prev.last().start == front[k].start as int
                        && prev.last().end == front[k].end as int;
                assert(cs[k] == front[k].abs());
                assert(cs[k].end <= cs[chunks.len() - 1].start);
                assert(prev.last().end <= added.start);
            }
            lemma_reps_push_ordered(prev, added, n);
            lemma_sort_sorted(reps);
        } else {
            assert(reps == prev);
        }
    }
}

/// Rebuilds a concrete path from the original template: each placeholder
/// whose name is bound in `params` is replaced by the bound value (and the
/// binding consumed); an unbound placeholder stays in the output verbatim.
pub fn generate_for_glob(source: &str, recognizer: &Recognizer, params: &mut Params) -> (r: String)
    requires
        old(params).wf(),
    ensures
        final(params).wf(),
        final(params)@ == glob_params(recognizer.param_chunks@, old(params)@),
        r@ == spliced_or_source(
            source.spec_bytes(),
            glob_reps(recognizer.param_chunks@, old(params)@),
        ),
{
    let ghost chunks = recognizer.param_chunks@;
    let ghost p0 = old(params)@;
    let mut replacements: Vec<(usize, usize, String)> = Vec::new();
    let n = recognizer.param_chunks.len();
    let mut i: usize = 0;
    proof {
        assert(chunks.take(0) =~= Seq::<ParamChunk>::empty());
        assert(reps_abs(replacements@) =~= Seq::<Rep>::empty());
    }
    while i < n
        invariant
            0 <= i <= n,
            n == recognizer.param_chunks@.len(),
            chunks == recognizer.param_chunks@,
            params.wf(),
            params@ == glob_params(chunks.take(i as int), p0),
            reps_abs(replacements@) == glob_reps(chunks.take(i as int), p0),
        decreases n - i,
    {
        let ghost taken = chunks.take(i as int + 1);
        proof {
            assert(taken.drop_last() =~= chunks.take(i as int));
            assert(taken.last() == chunks[i as int]);
        }
        let c = &recognizer.param_chunks[i];
        let ghost reps0 = reps_abs(replacements@);
        match params.remove(c.name.as_str()) {
            Some(val) => {
                replacements.push((c.start, c.end, val));
                proof {
                    let ci = chunks[i as int];
                    assert(reps_abs(replacements@) =~= reps0.push(
                        Rep {
                            start: ci.start as int,
                            end: ci.end as int,
                            val: param_value(glob_params(chunks.take(i as int), p0), ci.name@),
                        },
                    ));
                }
            },
            None => {},
        }
        i = i + 1;
    }
    proof {
        assert(chunks.take(n as int) =~= chunks);
    }
    replace_params(source, replacements)
}

/// The parameters left after every named capture group of the pattern has
/// consumed its binding (where the pattern matched the text at all).
pub open spec fn gfr_params(
    names: Seq<Option<Seq<u8>>>,
    p: Seq<(Seq<char>, Seq<char>)>,
) -> Seq<(Seq<char>, Seq<char>)>
    decreases names.len(),
{
    if names.len() == 0 {
        p
    } else {
        let prev = gfr_params(names.drop_last(), p);
        match names.last() {
            None => prev,
            Some(nb) => param_remove(prev, vstd::utf8::decode_utf8(nb)),
        }
    }
}

/// The substitutions gathered from a match's capture spans: each named
/// group that is bound in the parameters and took part in the match
/// replaces its span; a bound name whose group did not take part is
/// consumed without a substitution.
pub open spec fn gfr_reps(
    pattern: Seq<u8>,
    text: Seq<u8>,
    names: Seq<Option<Seq<u8>>>,
    p: Seq<(Seq<char>, Seq<char>)>,
) -> Seq<Rep>
    decreases names.len(),
{
    if names.len() == 0 {
        Seq::empty()
    } else {
        let prev_reps = gfr_reps(pattern, text, names.drop_last(), p);
        let prev_p = gfr_params(names.drop_last(), p);
        match names.last() {
            None => prev_reps,
            Some(nb) => {
                let key = vstd::utf8::decode_utf8(nb);
                if params_contains(prev_p, key) {
                    match capture_span(pattern, text, nb) {
                        Some(span) => prev_reps.push(
                            Rep { start: span.0, end: span.1, val: param_value(prev_p, key) },
                        ),
                        None => prev_reps,
                    }
                } else {
                    prev_reps
                }
            },
        }
    }
}

/// Rebuilds a concrete path from a previous concrete path: the pattern is
/// re-matched against it, and each named capture group whose name is bound
/// in `params` is replaced, over the group's own byte span, by the bound
/// value. Where the pattern does not match, the path is returned unchanged
/// and no parameter is consumed.
pub fn generate_for_regex_captures(source: &str, regex: &regex::Regex, params: &mut Params) -> (r:
    String)
    requires
        old(params).wf(),
    ensures
        final(params).wf(),
        pattern_matches(regex_source(*regex), source.spec_bytes()) ==> {
            &&& final(params)@ == gfr_params(group_names(regex_source(*regex)), old(params)@)
            &&& r@ == spliced_or_source(
                source.spec_bytes(),
                gfr_reps(
                    regex_source(*regex),
                    source.spec_bytes(),
                    group_names(regex_source(*regex)),
                    old(params)@,
                ),
            )
        },
        !pattern_matches(regex_source(*regex), source.spec_bytes()) ==> {
            &&& final(params)@ == old(params)@
            &&& r@ == spliced_or_source(source.spec_bytes(), Seq::<Rep>::empty())
        },
{
    let ghost pattern = regex_source(*regex);
    let ghost text = source.spec_bytes();
    let ghost p0 = old(params)@;
    let mut replacements: Vec<(usize, usize, String)> = Vec::new();
    if regex_is_match(regex, source) {
        let names = regex_capture_names(regex);
        let ghost gn = group_names(pattern);
        let n = names.len();
        let mut i: usize = 0;
        proof {
            assert(gn.take(0) =~= Seq::<Option<Seq<u8>>>::empty());
            assert(reps_abs(replacements@) =~= Seq::<Rep>::empty());
        }
        while i < n
            invariant
                0 <= i <= n,
                n == names@.len(),
                gn == group_names(pattern),
                gn.len() == n,
                pattern == regex_source(*regex),
                text == source.spec_bytes(),
                forall|j: int|
                    #![auto]
                    0 <= j < n ==> {
                        &&& (names@[j] is Some <==> gn[j] is Some)
                        &&& (names@[j] matches Some(s) ==> gn[j] == Some(encode_utf8(s@)))
                    },
                params.wf(),
                params@ == gfr_params(gn.take(i as int), p0),
                reps_abs(replacements@) == gfr_reps(pattern, text, gn.take(i as int), p0),
            decreases n - i,
        {
            let ghost taken = gn.take(i as int + 1);
            proof {
                assert(taken.drop_last() =~= gn.take(i as int));
                assert(taken.last() == gn[i as int]);
            }
            if let Some(name) = &names[i] {
                proof {
                    vstd::utf8::encode_utf8_decode_utf8(name@);
                }
                let ghost reps0 = reps_abs(replacements@);
                match params.remove(name.as_str()) {
                    Some(val) => {
                        match regex_capture(regex, source, name.as_str()) {
                            Some(m) => {
                                replacements.push((m.0, m.1, val));
                                proof {
                                    assert(reps_abs(replacements@) =~= reps0.push(
                                        Rep {
                                            start: m.0 as int,
                                            end: m.1 as int,
                                            val: param_value(
                                                gfr_params(gn.take(i as int), p0),
                                                vstd::utf8::decode_utf8(gn[i as int].unwrap()),
                                            ),
                                        },
                                    ));
                                }
                            },
                            None => {},
                        }
                    },
                    None => {},
                }
            }
            i = i + 1;
        }
        proof {
            assert(gn.take(n as int) =~= gn);
        }
    }
    replace_params(source, replacements)
}

/// The same substitution as `generate_for_regex_captures`, reached from a
/// bare pattern and a previous concrete path rather than from a stored
/// template.
pub fn replace_regex_captures(source: &str, regex: &regex::Regex, params: &mut Params) -> (r:
    String)
    requires
        old(params).wf(),
    ensures
        final(params).wf(),
        pattern_matches(regex_source(*regex), source.spec_bytes()) ==> {
            &&& final(params)@ == gfr_params(group_names(regex_source(*regex)), old(params)@)
            &&& r@ == spliced_or_source(
                source.spec_bytes(),
                gfr_reps(
                    regex_source(*regex),
                    source.spec_bytes(),
                    group_names(regex_source(*regex)),
                    old(params)@,
                ),
            )
        },
        !pattern_matches(regex_source(*regex), source.spec_bytes()) ==> {
            &&& final(params)@ == old(params)@
            &&& r@ == spliced_or_source(source.spec_bytes(), Seq::<Rep>::empty())
        },
{
    generate_for_regex_captures(source, regex, params)
}

/// The `key=value` pairs of the parameters, joined by `&`, in the
/// parameters' own (name-sorted) order.
pub open spec fn query_pairs(ps: Seq<(Seq<char>, Seq<char>)>) -> Seq<char>
    decreases ps.len(),
{
    if ps.len() == 0 {
        Seq::empty()
    } else if ps.len() == 1 {
        ps[0].0 + "="@ + ps[0].1
    } else {
        ps[0].0 + "="@ + ps[0].1 + "&"@ + query_pairs(ps.drop_first())
    }
}

/// The query string appended for leftover parameters: nothing when none are
/// left, else `?` and the joined pairs.
pub open spec fn query_suffix(ps: Seq<(Seq<char>, Seq<char>)>) -> Seq<char> {
    if ps.len() == 0 {
        Seq::empty()
    } else {
        "?"@ + query_pairs(ps)
    }
}

/// Appends the query string for the leftover parameters.
fn append_query(out: &mut String, params: &Params)
    requires
        params.wf(),
    ensures
        final(out)@ == old(out)@ + query_suffix(params@),
{
    let ghost ps = params@;
    if params.is_empty() {
        proof {
            assert(old(out)@ + query_suffix(ps) =~= old(out)@);
        }
        return ;
    }
    out.append("?");
    let n = params.len();
    let mut i: usize = 0;
    proof {
        assert(ps.skip(0) =~= ps);
    }
    while i < n
        invariant
            0 <= i < n,
            n == params@.len(),
            ps == params@,
            params.wf(),
            out@ + query_pairs(ps.skip(i as int)) == old(out)@ + query_suffix(ps),
        decreases n - i,
    {
        let ghost sub = ps.skip(i as int);
        proof {
            assert(sub[0] == ps[i as int]);
            assert(sub.drop_first() =~= ps.skip(i as int + 1));
        }
        let entry = params.entry_at(i);
        out.append(entry.0.as_str());
        out.append("=");
        out.append(entry.1.as_str());
        if i + 1 < n {
            out.append("&");
            i = i + 1;
        } else {
            proof {
                assert(ps.skip(n as int).len() == 0);
                assert(out@ + query_pairs(ps.skip(n as int)) =~= out@);
            }
            return ;
        }
    }
}

/// The base of the request being answered, as far as reverse generation
/// reads it: its scheme and authority are copied into the generated URI,
/// and its path is the fallback source for capture-span substitution.
pub struct BaseUri {
    pub scheme: Option<String>,
    pub authority: Option<String>,
    pub path: String,
}

/// Why reverse generation failed.
#[derive(Debug, Clone, Copy, PartialEq, Eq, Structural)]
pub enum UriError {
    /// The route id was never registered.
    UnknownRouteId,
}

impl BaseUri {
    /// The asterisk-form base (an `OPTIONS *` request), into which nothing
    /// can be substituted.
    pub open spec fn is_star(&self) -> bool {
        &&& self.scheme is None
        &&& self.authority is None
        &&& self.path@ == "*"@
    }

    /// The characters the base contributes before the path: the scheme with
    /// `://` and the authority, each when present.
    pub open spec fn prefix_chars(&self) -> Seq<char> {
        (match self.scheme {
            Some(s) => s@ + "://"@,
            None => Seq::<char>::empty(),
        }) + (match self.authority {
            Some(a) => a@,
            None => Seq::<char>::empty(),
        })
    }

    /// Assembles a base URI from its parts.
    pub fn new(scheme: Option<String>, authority: Option<String>, path: String) -> (r: BaseUri)
        ensures
            r.scheme == scheme,
            r.authority == authority,
            r.path == path,
    {
        BaseUri { scheme, authority, path }
    }

    /// Whether this is the asterisk-form base.
    fn star(&self) -> (r: bool)
        ensures
            r == self.is_star(),
    {
        self.scheme.is_none() && self.authority.is_none() && crate::strutil::str_eq(
            self.path.as_str(),
            "*",
        )
    }

    /// Generates a URI against this base: scheme and authority are copied,
    /// the path is rebuilt from the original template (or, with no
    /// template, from this base's own path by capture spans), and leftover
    /// parameters are appended as a query string. The asterisk-form base is
    /// returned unchanged.
    pub fn generate(&self, glob_path: Option<&str>, recognizer: &Recognizer, params: Params) -> (r:
        String)
        requires
            params.wf(),
        ensures
            self.is_star() ==> r@ == self.path@,
            glob_path matches Some(t) ==> (!self.is_star() ==> r@ == self.prefix_chars()
                + spliced_or_source(
                t.spec_bytes(),
                glob_reps(recognizer.param_chunks@, params@),
            ) + query_suffix(glob_params(recognizer.param_chunks@, params@))),
            !self.is_star() && glob_path is None && pattern_matches(
                regex_source(recognizer.glob_regex),
                encode_utf8(self.path@),
            ) ==> r@ == self.prefix_chars() + spliced_or_source(
                encode_utf8(self.path@),
                gfr_reps(
                    regex_source(recognizer.glob_regex),
                    encode_utf8(self.path@),
                    group_names(regex_source(recognizer.glob_regex)),
                    params@,
                ),
            ) + query_suffix(gfr_params(group_names(regex_source(recognizer.glob_regex)), params@)),
            !self.is_star() && glob_path is None && !pattern_matches(
                regex_source(recognizer.glob_regex),
                encode_utf8(self.path@),
            ) ==> r@ == self.prefix_chars() + spliced_or_source(
                encode_utf8(self.path@),
                Seq::<Rep>::empty(),
            ) + query_suffix(params@),
    {
        if self.star() {
            return self.path.clone();
        }
        let mut p = params;
        let mut uri = String::new();
        if let Some(s) = &self.scheme {
            uri.append(s.as_str());
            uri.append("://");
        }
        if let Some(a) = &self.authority {
            uri.append(a.as_str());
        }
        proof {
            assert(uri@ =~= self.prefix_chars());
        }
        let path_part = match glob_path {
            Some(t) => generate_for_glob(t, recognizer, &mut p),
            None => generate_for_regex_captures(self.path.as_str(), &recognizer.glob_regex, &mut p),
        };
        uri.append(path_part.as_str());
        append_query(&mut uri, &p);
        uri
    }

    /// Generates a URI against this base by capture spans alone: the
    /// pattern is re-matched against this base's path and each bound named
    /// group replaced there.
    pub fn replace(&self, glob_regex: &regex::Regex, params: Params) -> (r: String)
        requires
            params.wf(),
        ensures
            self.is_star() ==> r@ == self.path@,
            !self.is_star() && pattern_matches(
                regex_source(*glob_regex),
                encode_utf8(self.path@),
            ) ==> r@ == self.prefix_chars() + spliced_or_source(
                encode_utf8(self.path@),
                gfr_reps(
                    regex_source(*glob_regex),
                    encode_utf8(self.path@),
                    group_names(regex_source(*glob_regex)),
                    params@,
                ),
            ) + query_suffix(gfr_params(group_names(regex_source(*glob_regex)), params@)),
            !self.is_star() && !pattern_matches(
                regex_source(*glob_regex),
                encode_utf8(self.path@),
            ) ==> r@ == self.prefix_chars() + spliced_or_source(
                encode_utf8(self.path@),
                Seq::<Rep>::empty(),
            ) + query_suffix(params@),
    {
        if self.star() {
            return self.path.clone();
        }
        let mut p = params;
        let mut uri = String::new();
        if let Some(s) = &self.scheme {
            uri.append(s.as_str());
            uri.append("://");
        }
        if let Some(a) = &self.authority {
            uri.append(a.as_str());
        }
        proof {
            assert(uri@ =~= self.prefix_chars());
        }
        let path_part = replace_regex_captures(self.path.as_str(), glob_regex, &mut p);
        uri.append(path_part.as_str());
        append_query(&mut uri, &p);
        uri
    }
}

/// On a well-formed router — as registration builds them — reverse
/// generation always takes the plain splice: the stored chunks fit the
/// stored template, so the unchanged-source fallback is never the result.
pub proof fn lemma_wf_router_splices<H>(r: Router<H>, ix: int, p: Seq<(Seq<char>, Seq<char>)>)
    requires
        r.wf(),
        0 <= ix < r.route_ids@.len(),
    ensures
        ({
            let e = r.route_ids@[ix];
            spliced_or_source(
                encode_utf8(e.glob_path@),
                glob_reps(e.recognizer.param_chunks@, p),
            ) == spliced(
                encode_utf8(e.glob_path@),
                glob_reps(e.recognizer.param_chunks@, p),
                0,
            )
        }),
{
    let e = r.route_ids@[ix];
    lemma_glob_reps_ordered(e.recognizer.param_chunks@, p, encode_utf8(e.glob_path@).len() as int);
}

/// Generates a URI for the route registered under `route_id`: the id's
/// stored template has its placeholders substituted from `params`, leftover
/// parameters become the query string, and the scheme and authority come
/// from `base`. An unregistered id is a recoverable error.
pub fn uri_for<H>(router: &Router<H>, base: &BaseUri, route_id: &str, params: Params) -> (r: Result<
    String,
    UriError,
>)
    requires
        params.wf(),
    ensures
        r is Ok <==> find_id(router.route_ids@, route_id@) >= 0,
        r is Err ==> r == Err::<String, UriError>(UriError::UnknownRouteId),
        r matches Ok(s) ==> {
            let e = router.route_ids@[find_id(router.route_ids@, route_id@)];
            &&& base.is_star() ==> s@ == base.path@
            &&& !base.is_star() ==> s@ == base.prefix_chars() + spliced_or_source(
                encode_utf8(e.glob_path@),
                glob_reps(e.recognizer.param_chunks@, params@),
            ) + query_suffix(glob_params(e.recognizer.param_chunks@, params@))
        },
{
    match router.resolve_id(route_id) {
        Some(e) => Ok(base.generate(Some(e.glob_path.as_str()), &e.recognizer, params)),
        None => Err(UriError::UnknownRouteId),
    }
}

/// Whether the ordered substitution list fits a source of `n` bytes.
fn replacements_fit(rs: &Vec<(usize, usize, String)>, n: usize) -> (r: bool)
    ensures
        r == reps_fit(reps_abs(rs@), n as int),
{
    let ghost cs = reps_abs(rs@);
    let len = rs.len();
    let mut i: usize = 0;
    while i < len
        invariant
            0 <= i <= len,
            len == rs@.len(),
            cs == reps_abs(rs@),
            cs.len() == len,
            forall|j: int| 0 <= j < i ==> 0 <= (#[trigger] cs[j]).start <= cs[j].end <= n,
            forall|j: int| 1 <= j < i ==> (#[trigger] cs[j]).start >= cs[j - 1].end,
        decreases len - i,
    {
        let ghost ci = cs[i as int];
        let start = rs[i].0;
        let end = rs[i].1;
        proof {
            assert(ci.start == start as int && ci.end == end as int);
        }
        if !(start <= end && end <= n) {
            proof {
                assert(!(0 <= cs[i as int].start <= cs[i as int].end <= n as int));
            }
            return false;
        }
        if i > 0 {
            let prev_end = rs[i - 1].1;
            if start < prev_end {
                proof {
                    assert(cs[i as int - 1].end == prev_end as int);
                    assert(!reps_fit(cs, n as int));
                }
                return false;
            }
        }
        i = i + 1;
    }
    true
}

/// Orders the substitutions by start offset, keeping the earlier of two
/// with equal starts first.
fn sort_replacements(replacements: Vec<(usize, usize, String)>) -> (r: Vec<(usize, usize, String)>)
    ensures
        reps_abs(r@) == sort_reps(reps_abs(replacements@)),
{
    let ghost orig = reps_abs(replacements@);
    let mut remaining = replacements;
    let mut out: Vec<(usize, usize, String)> = Vec::new();
    proof {
        assert(reps_abs(out@) =~= Seq::<Rep>::empty());
        assert(Seq::<Rep>::empty() + sort_reps(reps_abs(remaining@)) =~= sort_reps(
            reps_abs(remaining@),
        ));
    }
    while remaining.len() > 0
        invariant
            sort_reps(orig) == reps_abs(out@) + sort_reps(reps_abs(remaining@)),
        decreases remaining@.len(),
    {
        let ghost rem = reps_abs(remaining@);
        proof {
            lemma_min_start_at(rem);
        }
        let len = remaining.len();
        let mut best: usize = 0;
        let mut j: usize = 1;
        while j < len
            invariant
                0 <= best < j <= len,
                len == remaining@.len(),
                rem == reps_abs(remaining@),
                rem.len() == len,
                forall|k: int| 0 <= k < j ==> (#[trigger] rem[k]).start >= rem[best as int].start,
                forall|k: int| 0 <= k < best ==> (#[trigger] rem[k]).start > rem[best as int].start,
            decreases len - j,
        {
            if remaining[j].0 < remaining[best].0 {
                best = j;
            }
            j = j + 1;
        }
        proof {
            lemma_min_start_at(rem);
            let m = min_start_at(rem);
            assert(best as int == m) by {
                if m < best {
                    assert(rem[m].start > rem[best as int].start);
                    assert(rem[m].start <= rem[best as int].start);
                } else if m > best {
                    assert(rem[best as int].start > rem[m].start);
                    assert(rem[best as int].start >= rem[m].start);
                }
            }
        }
        let ghost out0 = reps_abs(out@);
        let e = remaining.remove(best);
        out.push(e);
        proof {
            assert(reps_abs(remaining@) =~= rem.remove(best as int));
            assert(reps_abs(out@) =~= out0 + seq![rem[best as int]]);
            assert(out0 + (seq![rem[best as int]] + sort_reps(rem.remove(best as int))) =~= (out0
                + seq![rem[best as int]]) + sort_reps(rem.remove(best as int)));
        }
    }
    proof {
        assert(reps_abs(remaining@).len() == 0);
        assert(reps_abs(out@) + sort_reps(reps_abs(remaining@)) =~= reps_abs(out@));
    }
    out
}

} // verus!
