//! The route table: per-method, insertion-ordered lists of compiled routes,
//! a wildcard list consulted when no method-specific route matches, and a
//! registry of route ids for reverse URI generation. Registration mutates
//! the table through `&mut self`; serving reads it through `&self`, so a
//! frozen table (say, behind an `Arc`) can be shared by any number of
//! concurrent readers.

use vstd::prelude::*;
use vstd::string::StringSliceAdditionalSpecFns;
use vstd::utf8::encode_utf8;
use vstd::utf8::valid_utf8;

use crate::matcher::lossy_decode;
use crate::matcher::pattern_matches;
use crate::matcher::regex_clone;
use crate::matcher::regex_source;
use crate::matcher::string_from_utf8_lossy;
use crate::recognizer::chunks_abs;
use crate::recognizer::compiled_chunks;
use crate::recognizer::compiled_pattern;
use crate::recognizer::compiles;
use crate::recognizer::effective_types;
use crate::recognizer::extracted;
use crate::recognizer::glob::Glob;
use crate::recognizer::scan;
use crate::recognizer::types::Types;
use crate::recognizer::GChunk;
use crate::recognizer::ParamChunk;
use crate::recognizer::PatternError;
use crate::recognizer::Recognizer;
use crate::recognizer::RouteMatch;
use crate::strutil::bytes_eq;
use crate::strutil::str_eq;

pub mod id;

use id::Id;

verus! {

/// The HTTP methods the router distinguishes.
#[derive(Debug, Clone, Copy, PartialEq, Eq, Hash, Structural)]
pub enum Method {
    Get,
    Post,
    Put,
    Delete,
    Head,
    Patch,
    Options,
}

/// A registered route: the method it answers to, its compiled pattern, and
/// its handler.
pub struct RouteEntry<H> {
    pub method: Method,
    pub recognizer: Recognizer,
    pub handler: H,
}

/// A route registered under an id, kept for reverse URI generation: the
/// original template text and its compiled pattern.
pub struct IdEntry {
    pub id: Id,
    pub glob_path: String,
    pub recognizer: Recognizer,
}

/// Why a registration was rejected.
#[derive(Debug, Clone, Copy, PartialEq, Eq)]
pub enum RouteError {
    /// The template did not compile.
    Pattern(PatternError),
    /// The compiled placeholder ranges do not fit inside the stored
    /// template text (possible only for a template that is not valid
    /// UTF-8, whose stored text differs from its bytes).
    Template,
    /// The id is already bound to a different template.
    DuplicateId,
}

/// Whether the chunk ranges are ordered, pairwise disjoint and within a
/// template of length `n` — what splicing values into the template needs.
pub open spec fn chunks_ok(cs: Seq<GChunk>, n: int) -> bool {
    &&& forall|i: int| 0 <= i < cs.len() ==> 0 <= #[trigger] cs[i].start < cs[i].end <= n
    &&& forall|i: int, j: int|
        0 <= i < j < cs.len() ==> #[trigger] cs[i].end <= #[trigger] cs[j].start
}

/// Whether the template's compiled chunks fit inside its stored text.
pub open spec fn fits(t: Seq<u8>, m: Map<Seq<u8>, Seq<u8>>) -> bool {
    chunks_ok(compiled_chunks(t, m), encode_utf8(lossy_decode(t)).len() as int)
}

/// The first entry at or after the head answering to `method` and matching
/// the path bytes, or `-1`.
pub open spec fn first_route_match<H>(rs: Seq<RouteEntry<H>>, method: Method, text: Seq<u8>) -> int
    decreases rs.len(),
{
    if rs.len() == 0 {
        -1
    } else if rs[0].method == method && pattern_matches(
        regex_source(rs[0].recognizer.glob_regex),
        text,
    ) {
        0
    } else {
        let r = first_route_match(rs.drop_first(), method, text);
        if r < 0 {
            -1
        } else {
            r + 1
        }
    }
}

/// The first wildcard route matching the path bytes, or `-1`.
pub open spec fn first_any_match<H>(ws: Seq<(Recognizer, H)>, text: Seq<u8>) -> int
    decreases ws.len(),
{
    if ws.len() == 0 {
        -1
    } else if pattern_matches(regex_source(ws[0].0.glob_regex), text) {
        0
    } else {
        let r = first_any_match(ws.drop_first(), text);
        if r < 0 {
            -1
        } else {
            r + 1
        }
    }
}

/// The first id-registry entry labelled `id`, or `-1`.
pub open spec fn find_id(ids: Seq<IdEntry>, id: Seq<char>) -> int
    decreases ids.len(),
{
    if ids.len() == 0 {
        -1
    } else if ids[0].id@ == id {
        0
    } else {
        let r = find_id(ids.drop_first(), id);
        if r < 0 {
            -1
        } else {
            r + 1
        }
    }
}

/// `first_route_match` finds the first hit and nothing earlier.
pub proof fn lemma_first_route_match<H>(rs: Seq<RouteEntry<H>>, method: Method, text: Seq<u8>)
    ensures
        first_route_match(rs, method, text) == -1 || 0 <= first_route_match(rs, method, text)
            < rs.len(),
        first_route_match(rs, method, text) >= 0 ==> {
            let e = rs[first_route_match(rs, method, text)];
            e.method == method && pattern_matches(regex_source(e.recognizer.glob_regex), text)
        },
        forall|j: int|
            0 <= j < rs.len() && (#[trigger] rs[j].method) == method && pattern_matches(
                regex_source(rs[j].recognizer.glob_regex),
                text,
            ) ==> first_route_match(rs, method, text) >= 0 && first_route_match(rs, method, text)
                <= j,
    decreases rs.len(),
{
    if rs.len() == 0 {
    } else if rs[0].method == method && pattern_matches(
        regex_source(rs[0].recognizer.glob_regex),
        text,
    ) {
    } else {
        lemma_first_route_match(rs.drop_first(), method, text);
        assert forall|j: int|
            0 <= j < rs.len() && (#[trigger] rs[j].method) == method && pattern_matches(
                regex_source(rs[j].recognizer.glob_regex),
                text,
            ) implies first_route_match(rs, method, text) >= 0 && first_route_match(
            rs,
            method,
            text,
        ) <= j by {
            assert(j >= 1);
            assert(rs.drop_first()[j - 1] == rs[j]);
        }
    }
}

/// `first_any_match` finds the first hit and nothing earlier.
pub proof fn lemma_first_any_match<H>(ws: Seq<(Recognizer, H)>, text: Seq<u8>)
    ensures
        first_any_match(ws, text) == -1 || 0 <= first_any_match(ws, text) < ws.len(),
        first_any_match(ws, text) >= 0 ==> pattern_matches(
            regex_source(ws[first_any_match(ws, text)].0.glob_regex),
            text,
        ),
        forall|j: int|
            0 <= j < ws.len() && pattern_matches(
                regex_source((#[trigger] ws[j]).0.glob_regex),
                text,
            ) ==> first_any_match(ws, text) >= 0 && first_any_match(ws, text) <= j,
    decreases ws.len(),
{
    if ws.len() == 0 {
    } else if pattern_matches(regex_source(ws[0].0.glob_regex), text) {
    } else {
        lemma_first_any_match(ws.drop_first(), text);
        assert forall|j: int|
            0 <= j < ws.len() && pattern_matches(
                regex_source((#[trigger] ws[j]).0.glob_regex),
                text,
            ) implies first_any_match(ws, text) >= 0 && first_any_match(ws, text) <= j by {
            assert(j >= 1);
            assert(ws.drop_first()[j - 1] == ws[j]);
        }
    }
}

/// `find_id` finds the first entry with the label and nothing earlier.
pub proof fn lemma_find_id(ids: Seq<IdEntry>, id: Seq<char>)
    ensures
        find_id(ids, id) == -1 || 0 <= find_id(ids, id) < ids.len(),
        find_id(ids, id) >= 0 ==> ids[find_id(ids, id)].id@ == id,
        forall|j: int|
            0 <= j < ids.len() && (#[trigger] ids[j].id)@ == id ==> find_id(ids, id) >= 0
                && find_id(ids, id) <= j,
    decreases ids.len(),
{
    if ids.len() == 0 {
    } else if ids[0].id@ == id {
    } else {
        lemma_find_id(ids.drop_first(), id);
        assert forall|j: int|
            0 <= j < ids.len() && (#[trigger] ids[j].id)@ == id implies find_id(ids, id) >= 0
                && find_id(ids, id) <= j by {
            assert(j >= 1);
            assert(ids.drop_first()[j - 1] == ids[j]);
        }
    }
}

/// Whether `id` is already bound to a template other than `t`.
pub open spec fn id_conflicts(ids: Seq<IdEntry>, id: Seq<char>, t: Seq<u8>) -> bool {
    find_id(ids, id) >= 0 && encode_utf8(ids[find_id(ids, id)].glob_path@) != t
}

/// Whether the entry binds `id` to the template `t` as compiled against `m`.
pub open spec fn binds_route(e: IdEntry, id: Seq<char>, t: Seq<u8>, m: Map<Seq<u8>, Seq<u8>>) -> bool {
    &&& e.id@ == id
    &&& e.glob_path@ == lossy_decode(t)
    &&& regex_source(e.recognizer.glob_regex) == compiled_pattern(t, m)
    &&& chunks_abs(e.recognizer.param_chunks@) == compiled_chunks(t, m)
}

/// How the id registry changes when `id` is (re-)bound to template `t`:
/// a present entry is replaced in place, a new one is appended.
pub open spec fn ids_updated(
    pre: Seq<IdEntry>,
    post: Seq<IdEntry>,
    id: Seq<char>,
    t: Seq<u8>,
    m: Map<Seq<u8>, Seq<u8>>,
) -> bool {
    if find_id(pre, id) >= 0 {
        let f = find_id(pre, id);
        &&& post.len() == pre.len()
        &&& forall|j: int| 0 <= j < pre.len() && j != f ==> post[j] == pre[j]
        &&& binds_route(post[f], id, t, m)
    } else {
        &&& post.len() == pre.len() + 1
        &&& forall|j: int| 0 <= j < pre.len() ==> post[j] == pre[j]
        &&& binds_route(post[pre.len() as int], id, t, m)
    }
}

/// The whole effect of registering a route list entry: when and why it
/// fails, and exactly how the table changes when it succeeds.
pub open spec fn route_outcome<H>(
    pre: Router<H>,
    post: Router<H>,
    method: Method,
    t: Seq<u8>,
    m: Map<Seq<u8>, Seq<u8>>,
    id: Option<Id>,
    handler: H,
    r: Result<(), RouteError>,
) -> bool {
    &&& (r is Ok <==> compiles(t, m) && fits(t, m) && (id matches Some(i) ==> !id_conflicts(
        pre.route_ids@,
        i@,
        t,
    )))
    &&& (r == Err::<(), RouteError>(RouteError::Pattern(PatternError::InvalidUtf8)) <==> (scan(
        t,
        m,
        0,
    ) is None || (scan(t, m, 0) is Some && !valid_utf8(compiled_pattern(t, m)))))
    &&& (r == Err::<(), RouteError>(RouteError::Pattern(PatternError::InvalidRegex)) <==> (scan(
        t,
        m,
        0,
    ) is Some && valid_utf8(compiled_pattern(t, m)) && !crate::matcher::regex_ok(
        compiled_pattern(t, m),
    )))
    &&& (r == Err::<(), RouteError>(RouteError::Template) <==> compiles(t, m) && !fits(t, m))
    &&& (r == Err::<(), RouteError>(RouteError::DuplicateId) <==> compiles(t, m) && fits(t, m)
        && (id matches Some(i) && id_conflicts(pre.route_ids@, i@, t)))
    &&& (r is Err ==> post == pre)
    &&& (r is Ok ==> {
        &&& post.routes@.len() == pre.routes@.len() + 1
        &&& forall|j: int| 0 <= j < pre.routes@.len() ==> post.routes@[j] == pre.routes@[j]
        &&& post.routes@.last().method == method
        &&& post.routes@.last().handler == handler
        &&& regex_source(post.routes@.last().recognizer.glob_regex) == compiled_pattern(t, m)
        &&& chunks_abs(post.routes@.last().recognizer.param_chunks@) == compiled_chunks(t, m)
        &&& post.wildcard@ == pre.wildcard@
        &&& match id {
            None => post.route_ids@ == pre.route_ids@,
            Some(i) => ids_updated(pre.route_ids@, post.route_ids@, i@, t, m),
        }
    })
}

/// The effect of registering a wildcard (any-method) route.
pub open spec fn any_outcome<H>(
    pre: Router<H>,
    post: Router<H>,
    t: Seq<u8>,
    m: Map<Seq<u8>, Seq<u8>>,
    id: Option<Id>,
    handler: H,
    r: Result<(), RouteError>,
) -> bool {
    &&& (r is Ok <==> compiles(t, m) && fits(t, m) && (id matches Some(i) ==> !id_conflicts(
        pre.route_ids@,
        i@,
        t,
    )))
    &&& (r is Err ==> post == pre)
    &&& (r is Ok ==> {
        &&& post.wildcard@.len() == pre.wildcard@.len() + 1
        &&& forall|j: int| 0 <= j < pre.wildcard@.len() ==> post.wildcard@[j] == pre.wildcard@[j]
        &&& post.wildcard@.last().1 == handler
        &&& regex_source(post.wildcard@.last().0.glob_regex) == compiled_pattern(t, m)
        &&& chunks_abs(post.wildcard@.last().0.param_chunks@) == compiled_chunks(t, m)
        &&& post.routes@ == pre.routes@
        &&& match id {
            None => post.route_ids@ == pre.route_ids@,
            Some(i) => ids_updated(pre.route_ids@, post.route_ids@, i@, t, m),
        }
    })
}

/// The router: the ordered route list, the wildcard list, and the id
/// registry.
pub struct Router<H> {
    pub routes: Vec<RouteEntry<H>>,
    pub wildcard: Vec<(Recognizer, H)>,
    pub route_ids: Vec<IdEntry>,
}

impl<H> Router<H> {
    /// Every id-registry entry's chunk ranges fit its stored template text;
    /// registration keeps this, and reverse generation relies on it.
    pub open spec fn wf(&self) -> bool {
        forall|i: int|
            0 <= i < self.route_ids@.len() ==> chunks_ok(
                chunks_abs((#[trigger] self.route_ids@[i]).recognizer.param_chunks@),
                encode_utf8(self.route_ids@[i].glob_path@).len() as int,
            )
    }

    /// An empty router.
    pub fn new() -> (r: Router<H>)
        ensures
            r.routes@.len() == 0,
            r.wildcard@.len() == 0,
            r.route_ids@.len() == 0,
            r.wf(),
    {
        Router { routes: Vec::new(), wildcard: Vec::new(), route_ids: Vec::new() }
    }

    /// Finds the first matching route for the method, falling back to the
    /// wildcard list; returns the route's handler and the parameters its
    /// pattern extracted from the path.
    pub fn recognize(&self, method: &Method, path: &str) -> (r: Option<RouteMatch<'_, H>>)
        ensures
            r is Some <==> (first_route_match(self.routes@, *method, path.spec_bytes()) >= 0
                || first_any_match(self.wildcard@, path.spec_bytes()) >= 0),
            first_route_match(self.routes@, *method, path.spec_bytes()) >= 0 ==> (r matches Some(
                rm,
            ) && {
                let e = self.routes@[first_route_match(self.routes@, *method, path.spec_bytes())];
                &&& *rm.handler == e.handler
                &&& rm.params@ == extracted(
                    regex_source(e.recognizer.glob_regex),
                    path.spec_bytes(),
                    e.recognizer.param_chunks@,
                )
                &&& rm.params.wf()
            }),
            first_route_match(self.routes@, *method, path.spec_bytes()) < 0 && first_any_match(
                self.wildcard@,
                path.spec_bytes(),
            ) >= 0 ==> (r matches Some(rm) && {
                let e = self.wildcard@[first_any_match(self.wildcard@, path.spec_bytes())];
                &&& *rm.handler == e.1
                &&& rm.params@ == extracted(
                    regex_source(e.0.glob_regex),
                    path.spec_bytes(),
                    e.0.param_chunks@,
                )
                &&& rm.params.wf()
            }),
    {
        let ghost text = path.spec_bytes();
        proof {
            lemma_first_route_match(self.routes@, *method, text);
            lemma_first_any_match(self.wildcard@, text);
        }
        let n = self.routes.len();
        let mut i: usize = 0;
        while i < n
            invariant
                0 <= i <= n,
                n == self.routes@.len(),
                text == path.spec_bytes(),
                forall|j: int|
                    0 <= j < i ==> !((#[trigger] self.routes@[j].method) == *method
                        && pattern_matches(
                        regex_source(self.routes@[j].recognizer.glob_regex),
                        text,
                    )),
            decreases n - i,
        {
            let e = &self.routes[i];
            if e.method == *method {
                if let Some(params) = e.recognizer.recognize(path) {
                    proof {
                        lemma_first_route_match(self.routes@, *method, text);
                        assert(first_route_match(self.routes@, *method, text) == i) by {
                            let f = first_route_match(self.routes@, *method, text);
                            if f < i {
                                assert(self.routes@[f].method == *method && pattern_matches(
                                    regex_source(self.routes@[f].recognizer.glob_regex),
                                    text,
                                ));
                            }
                        }
                    }
                    return Some(RouteMatch::new(&e.handler, params));
                }
            }
            i = i + 1;
        }
        proof {
            lemma_first_route_match(self.routes@, *method, text);
            assert(first_route_match(self.routes@, *method, text) == -1) by {
                let f = first_route_match(self.routes@, *method, text);
                if f >= 0 {
                    assert(self.routes@[f].method == *method && pattern_matches(
                        regex_source(self.routes@[f].recognizer.glob_regex),
                        text,
                    ));
                }
            }
        }
        let w = self.wildcard.len();
        let mut k: usize = 0;
        while k < w
            invariant
                0 <= k <= w,
                w == self.wildcard@.len(),
                text == path.spec_bytes(),
                first_route_match(self.routes@, *method, text) == -1,
                forall|j: int|
                    0 <= j < k ==> !pattern_matches(
                        regex_source((#[trigger] self.wildcard@[j]).0.glob_regex),
                        text,
                    ),
            decreases w - k,
        {
            let e = &self.wildcard[k];
            if let Some(params) = e.0.recognize(path) {
                proof {
                    lemma_first_any_match(self.wildcard@, text);
                    assert(first_any_match(self.wildcard@, text) == k) by {
                        let f = first_any_match(self.wildcard@, text);
                        if f < k {
                            assert(pattern_matches(
                                regex_source(self.wildcard@[f].0.glob_regex),
                                text,
                            ));
                        }
                    }
                }
                return Some(RouteMatch::new(&e.1, params));
            }
            k = k + 1;
        }
        proof {
            lemma_first_any_match(self.wildcard@, text);
            assert(first_any_match(self.wildcard@, text) == -1) by {
                let f = first_any_match(self.wildcard@, text);
                if f >= 0 {
                    assert(pattern_matches(regex_source(self.wildcard@[f].0.glob_regex), text));
                }
            }
        }
        None
    }

    /// The position of the id-registry entry labelled `id`.
    fn find_id_pos(&self, id: &str) -> (r: Option<usize>)
        ensures
            r is Some <==> find_id(self.route_ids@, id@) >= 0,
            r matches Some(ix) ==> ix as int == find_id(self.route_ids@, id@),
    {
        let ghost k = id@;
        proof {
            lemma_find_id(self.route_ids@, k);
        }
        let n = self.route_ids.len();
        let mut i: usize = 0;
        while i < n
            invariant
                0 <= i <= n,
                n == self.route_ids@.len(),
                k == id@,
                forall|j: int| 0 <= j < i ==> (#[trigger] self.route_ids@[j].id)@ != k,
            decreases n - i,
        {
            if str_eq(self.route_ids[i].id.as_str(), id) {
                proof {
                    lemma_find_id(self.route_ids@, k);
                    assert(find_id(self.route_ids@, k) == i) by {
                        let f = find_id(self.route_ids@, k);
                        if f < i {
                            assert(self.route_ids@[f].id@ == k);
                        }
                    }
                }
                return Some(i);
            }
            i = i + 1;
        }
        proof {
            lemma_find_id(self.route_ids@, k);
            assert(find_id(self.route_ids@, k) == -1) by {
                let f = find_id(self.route_ids@, k);
                if f >= 0 {
                    assert(self.route_ids@[f].id@ == k);
                }
            }
        }
        None
    }

    /// Resolves a route id to its stored template and compiled pattern.
    pub fn resolve_id(&self, id: &str) -> (r: Option<&IdEntry>)
        ensures
            r is Some <==> find_id(self.route_ids@, id@) >= 0,
            r matches Some(e) ==> *e == self.route_ids@[find_id(self.route_ids@, id@)],
    {
        proof {
            lemma_find_id(self.route_ids@, id@);
        }
        match self.find_id_pos(id) {
            Some(ix) => Some(&self.route_ids[ix]),
            None => None,
        }
    }

    /// How many ids are registered.
    pub fn route_ids_len(&self) -> (n: usize)
        ensures
            n == self.route_ids@.len(),
    {
        self.route_ids.len()
    }

    /// Registers a route for one method: compiles the template, binds the
    /// optional id (failing on a conflicting binding), and appends the route
    /// to the table.
    pub fn route(&mut self, method: Method, glob: Glob<'_>, handler: H, route_id: Option<Id>) -> (r:
        Result<(), RouteError>)
        requires
            old(self).wf(),
        ensures
            final(self).wf(),
            route_outcome(
                *old(self),
                *final(self),
                method,
                glob.path@,
                effective_types(glob.types),
                route_id,
                handler,
                r,
            ),
    {
        let ghost t = glob.path@;
        let ghost m = effective_types(glob.types);
        let path = glob.path();
        let parsed = match glob.types() {
            Some(ty) => Recognizer::parse_glob(path, ty),
            None => {
                let defaults = Types::with_default_types();
                Recognizer::parse_glob(path, &defaults)
            },
        };
        let (re, chunks) = match parsed {
            Err(e) => {
                return Err(RouteError::Pattern(e));
            },
            Ok(p) => p,
        };
        let template = string_from_utf8_lossy(path);
        if !chunks_fit(&chunks, template.as_str().as_bytes().len()) {
            return Err(RouteError::Template);
        }
        if let Some(id) = route_id {
            if !self.bind_id(id, path, template, &re, &chunks, Ghost(m)) {
                return Err(RouteError::DuplicateId);
            }
        }
        self.routes.push(RouteEntry { method, recognizer: Recognizer { glob_regex: re, param_chunks: chunks }, handler });
        Ok(())
    }

    /// Registers a route matched regardless of the request's method, after
    /// every method-specific route has failed.
    pub fn any(&mut self, glob: Glob<'_>, handler: H, route_id: Option<Id>) -> (r: Result<
        (),
        RouteError,
    >)
        requires
            old(self).wf(),
        ensures
            final(self).wf(),
            any_outcome(
                *old(self),
                *final(self),
                glob.path@,
                effective_types(glob.types),
                route_id,
                handler,
                r,
            ),
    {
        let ghost t = glob.path@;
        let ghost m = effective_types(glob.types);
        let path = glob.path();
        let parsed = match glob.types() {
            Some(ty) => Recognizer::parse_glob(path, ty),
            None => {
                let defaults = Types::with_default_types();
                Recognizer::parse_glob(path, &defaults)
            },
        };
        let (re, chunks) = match parsed {
            Err(e) => {
                return Err(RouteError::Pattern(e));
            },
            Ok(p) => p,
        };
        let template = string_from_utf8_lossy(path);
        if !chunks_fit(&chunks, template.as_str().as_bytes().len()) {
            return Err(RouteError::Template);
        }
        if let Some(id) = route_id {
            if !self.bind_id(id, path, template, &re, &chunks, Ghost(m)) {
                return Err(RouteError::DuplicateId);
            }
        }
        self.wildcard.push((Recognizer { glob_regex: re, param_chunks: chunks }, handler));
        Ok(())
    }

    /// Binds `id` to the compiled route in the id registry; false on a
    /// conflicting earlier binding.
    fn bind_id(
        &mut self,
        id: Id,
        path: &[u8],
        template: String,
        re: &regex::Regex,
        chunks: &Vec<ParamChunk>,
        Ghost(m): Ghost<Map<Seq<u8>, Seq<u8>>>,
    ) -> (r: bool)
        requires
            old(self).wf(),
            template@ == lossy_decode(path@),
            regex_source(*re) == compiled_pattern(path@, m),
            chunks_abs(chunks@) == compiled_chunks(path@, m),
            chunks_ok(chunks_abs(chunks@), encode_utf8(template@).len() as int),
        ensures
            final(self).wf(),
            r <==> !id_conflicts(old(self).route_ids@, id@, path@),
            !r ==> *final(self) == *old(self),
            r ==> ids_updated(old(self).route_ids@, final(self).route_ids@, id@, path@, m),
            final(self).routes == old(self).routes,
            final(self).wildcard == old(self).wildcard,
    {
        let ghost t = path@;
        let ghost pre = self.route_ids@;
        let entry_recognizer = Recognizer {
            glob_regex: regex_clone(re),
            param_chunks: clone_chunks(chunks),
        };
        match self.find_id_pos(id.as_str()) {
            Some(ix) => {
                proof {
                    lemma_find_id(pre, id@);
                }
                if !bytes_eq(self.route_ids[ix].glob_path.as_str().as_bytes(), path) {
                    return false;
                }
                let entry = IdEntry { id, glob_path: template, recognizer: entry_recognizer };
                self.route_ids.remove(ix);
                self.route_ids.insert(ix, entry);
                proof {
                    assert(self.route_ids@ =~= pre.update(ix as int, entry));
                    assert(ids_updated(pre, self.route_ids@, id@, t, m));
                }
                true
            },
            None => {
                proof {
                    lemma_find_id(pre, id@);
                }
                let entry = IdEntry { id, glob_path: template, recognizer: entry_recognizer };
                self.route_ids.push(entry);
                true
            },
        }
    }
}

/// The routes under `method` that match the path, in probe order.
pub open spec fn method_allowed<H>(rs: Seq<RouteEntry<H>>, method: Method, text: Seq<u8>) -> Seq<
    Method,
> {
    if first_route_match(rs, method, text) >= 0 {
        seq![method]
    } else {
        Seq::empty()
    }
}

/// The methods an `OPTIONS` answer allows for the path: each probed method
/// with a matching route, and `Head` implied by `Get` (a HEAD answer is a
/// GET answer without its body).
pub open spec fn allowed_methods<H>(rs: Seq<RouteEntry<H>>, text: Seq<u8>) -> Seq<Method> {
    method_allowed(rs, Method::Get, text) + method_allowed(rs, Method::Post, text)
        + method_allowed(rs, Method::Put, text) + method_allowed(rs, Method::Delete, text)
        + method_allowed(rs, Method::Head, text) + method_allowed(rs, Method::Patch, text) + (
    if first_route_match(rs, Method::Get, text) >= 0 && first_route_match(
        rs,
        Method::Head,
        text,
    ) < 0 {
        seq![Method::Head]
    } else {
        Seq::empty()
    })
}

/// How a request is answered: by a matched route's handler, by a
/// synthesized `Allow` set for an unmatched `OPTIONS` request, or not at
/// all.
pub enum Handling<'a, H> {
    Matched(RouteMatch<'a, H>),
    Options(Vec<Method>),
    NotFound,
}

impl<H> Router<H> {
    /// Whether some route under `method` matches the path.
    fn method_matches(&self, method: Method, path: &str) -> (r: bool)
        ensures
            r == (first_route_match(self.routes@, method, path.spec_bytes()) >= 0),
    {
        let ghost text = path.spec_bytes();
        proof {
            lemma_first_route_match(self.routes@, method, text);
        }
        let n = self.routes.len();
        let mut i: usize = 0;
        while i < n
            invariant
                0 <= i <= n,
                n == self.routes@.len(),
                text == path.spec_bytes(),
                forall|j: int|
                    0 <= j < i ==> !((#[trigger] self.routes@[j].method) == method
                        && pattern_matches(
                        regex_source(self.routes@[j].recognizer.glob_regex),
                        text,
                    )),
            decreases n - i,
        {
            let e = &self.routes[i];
            if e.method == method {
                if crate::matcher::regex_is_match(&e.recognizer.glob_regex, path) {
                    proof {
                        lemma_first_route_match(self.routes@, method, text);
                    }
                    return true;
                }
            }
            i = i + 1;
        }
        proof {
            lemma_first_route_match(self.routes@, method, text);
            assert(first_route_match(self.routes@, method, text) == -1) by {
                let f = first_route_match(self.routes@, method, text);
                if f >= 0 {
                    assert(self.routes@[f].method == method && pattern_matches(
                        regex_source(self.routes@[f].recognizer.glob_regex),
                        text,
                    ));
                }
            }
        }
        false
    }

    /// The methods to allow in answer to an `OPTIONS` request for the path:
    /// every probed method under which some route matches, with `Head`
    /// added when `Get` is allowed and `Head` itself is not.
    pub fn handle_options(&self, path: &str) -> (r: Vec<Method>)
        ensures
            r@ == allowed_methods(self.routes@, path.spec_bytes()),
    {
        let mut allowed: Vec<Method> = Vec::new();
        let has_get = self.method_matches(Method::Get, path);
        let has_head = self.method_matches(Method::Head, path);
        if has_get {
            allowed.push(Method::Get);
        }
        if self.method_matches(Method::Post, path) {
            allowed.push(Method::Post);
        }
        if self.method_matches(Method::Put, path) {
            allowed.push(Method::Put);
        }
        if self.method_matches(Method::Delete, path) {
            allowed.push(Method::Delete);
        }
        if has_head {
            allowed.push(Method::Head);
        }
        if self.method_matches(Method::Patch, path) {
            allowed.push(Method::Patch);
        }
        if has_get && !has_head {
            allowed.push(Method::Head);
        }
        proof {
            assert(allowed@ =~= allowed_methods(self.routes@, path.spec_bytes()));
        }
        allowed
    }

    /// Answers one request: the first matching route's handler and
    /// parameters; failing that, the allowed-method set for an `OPTIONS`
    /// request, a retry as `Get` for a `Head` request, and otherwise
    /// nothing.
    pub fn handle(&self, method: Method, path: &str) -> (r: Handling<'_, H>)
        ensures
            ({
                let text = path.spec_bytes();
                let fr = first_route_match(self.routes@, method, text);
                let fa = first_any_match(self.wildcard@, text);
                &&& (fr >= 0 || fa >= 0) ==> (r matches Handling::Matched(rm) && {
                    let e = if fr >= 0 {
                        self.routes@[fr]
                    } else {
                        RouteEntry {
                            method,
                            recognizer: self.wildcard@[fa].0,
                            handler: self.wildcard@[fa].1,
                        }
                    };
                    &&& *rm.handler == e.handler
                    &&& rm.params@ == extracted(
                        regex_source(e.recognizer.glob_regex),
                        text,
                        e.recognizer.param_chunks@,
                    )
                    &&& rm.params.wf()
                })
                &&& (fr < 0 && fa < 0 && method == Method::Options) ==> (r matches
                    Handling::Options(a) && a@ == allowed_methods(self.routes@, text))
                &&& (fr < 0 && fa < 0 && method == Method::Head) ==> {
                    let gr = first_route_match(self.routes@, Method::Get, text);
                    &&& gr >= 0 ==> (r matches Handling::Matched(rm) && {
                        let e = self.routes@[gr];
                        &&& *rm.handler == e.handler
                        &&& rm.params@ == extracted(
                            regex_source(e.recognizer.glob_regex),
                            text,
                            e.recognizer.param_chunks@,
                        )
                        &&& rm.params.wf()
                    })
                    &&& gr < 0 ==> r is NotFound
                }
                &&& (fr < 0 && fa < 0 && method != Method::Options && method != Method::Head)
                    ==> r is NotFound
            }),
    {
        match self.recognize(&method, path) {
            Some(rm) => Handling::Matched(rm),
            None => {
                if method == Method::Options {
                    Handling::Options(self.handle_options(path))
                } else if method == Method::Head {
                    match self.recognize(&Method::Get, path) {
                        Some(rm) => Handling::Matched(rm),
                        None => Handling::NotFound,
                    }
                } else {
                    Handling::NotFound
                }
            },
        }
    }

    /// Like `route`, but for the `Get` method.
    pub fn get(&mut self, glob: Glob<'_>, handler: H, route_id: Option<Id>) -> (r: Result<
        (),
        RouteError,
    >)
        requires
            old(self).wf(),
        ensures
            final(self).wf(),
            route_outcome(
                *old(self),
                *final(self),
                Method::Get,
                glob.path@,
                effective_types(glob.types),
                route_id,
                handler,
                r,
            ),
    {
        self.route(Method::Get, glob, handler, route_id)
    }

    /// Like `route`, but for the `Post` method.
    pub fn post(&mut self, glob: Glob<'_>, handler: H, route_id: Option<Id>) -> (r: Result<
        (),
        RouteError,
    >)
        requires
            old(self).wf(),
        ensures
            final(self).wf(),
            route_outcome(
                *old(self),
                *final(self),
                Method::Post,
                glob.path@,
                effective_types(glob.types),
                route_id,
                handler,
                r,
            ),
    {
        self.route(Method::Post, glob, handler, route_id)
    }

    /// Like `route`, but for the `Put` method.
    pub fn put(&mut self, glob: Glob<'_>, handler: H, route_id: Option<Id>) -> (r: Result<
        (),
        RouteError,
    >)
        requires
            old(self).wf(),
        ensures
            final(self).wf(),
            route_outcome(
                *old(self),
                *final(self),
                Method::Put,
                glob.path@,
                effective_types(glob.types),
                route_id,
                handler,
                r,
            ),
    {
        self.route(Method::Put, glob, handler, route_id)
    }

    /// Like `route`, but for the `Delete` method.
    pub fn delete(&mut self, glob: Glob<'_>, handler: H, route_id: Option<Id>) -> (r: Result<
        (),
        RouteError,
    >)
        requires
            old(self).wf(),
        ensures
            final(self).wf(),
            route_outcome(
                *old(self),
                *final(self),
                Method::Delete,
                glob.path@,
                effective_types(glob.types),
                route_id,
                handler,
                r,
            ),
    {
        self.route(Method::Delete, glob, handler, route_id)
    }

    /// Like `route`, but for the `Head` method.
    pub fn head(&mut self, glob: Glob<'_>, handler: H, route_id: Option<Id>) -> (r: Result<
        (),
        RouteError,
    >)
        requires
            old(self).wf(),
        ensures
            final(self).wf(),
            route_outcome(
                *old(self),
                *final(self),
                Method::Head,
                glob.path@,
                effective_types(glob.types),
                route_id,
                handler,
                r,
            ),
    {
        self.route(Method::Head, glob, handler, route_id)
    }

    /// Like `route`, but for the `Patch` method.
    pub fn patch(&mut self, glob: Glob<'_>, handler: H, route_id: Option<Id>) -> (r: Result<
        (),
        RouteError,
    >)
        requires
            old(self).wf(),
        ensures
            final(self).wf(),
            route_outcome(
                *old(self),
                *final(self),
                Method::Patch,
                glob.path@,
                effective_types(glob.types),
                route_id,
                handler,
                r,
            ),
    {
        self.route(Method::Patch, glob, handler, route_id)
    }

    /// Like `route`, but for the `Options` method.
    pub fn options(&mut self, glob: Glob<'_>, handler: H, route_id: Option<Id>) -> (r: Result<
        (),
        RouteError,
    >)
        requires
            old(self).wf(),
        ensures
            final(self).wf(),
            route_outcome(
                *old(self),
                *final(self),
                Method::Options,
                glob.path@,
                effective_types(glob.types),
                route_id,
                handler,
                r,
            ),
    {
        self.route(Method::Options, glob, handler, route_id)
    }
}

/// The condition surfaced when no route matches a request.
#[derive(Debug, Clone, Copy, PartialEq, Eq, Structural)]
pub struct NoRoute;

impl NoRoute {
    /// The condition in words.
    pub fn message(&self) -> (s: &'static str)
        ensures
            s@ == "No matching route found."@,
    {
        "No matching route found."
    }
}

/// The condition surfaced when a request is redirected by adding or
/// removing a trailing slash.
#[derive(Debug, Clone, Copy, PartialEq, Eq, Structural)]
pub struct TrailingSlash;

impl TrailingSlash {
    /// The condition in words.
    pub fn message(&self) -> (s: &'static str)
        ensures
            s@ == "The request had a trailing slash."@,
    {
        "The request had a trailing slash."
    }
}

/// A valid-UTF-8 template whose scan succeeds always fits its stored text:
/// on such templates, registration never fails for want of fit.
pub proof fn lemma_valid_template_fits(t: Seq<u8>, m: Map<Seq<u8>, Seq<u8>>)
    requires
        valid_utf8(t),
        scan(t, m, 0) is Some,
    ensures
        fits(t, m),
{
    crate::recognizer::lemma_scan_chunks(t, m, 0);
    vstd::utf8::decode_utf8_encode_utf8(t);
}

/// Rebinding a route id is idempotent and conflicts are exact: once the
/// registry binds `id` to a valid-UTF-8 template `t`, registering `id`
/// again with `t` raises no conflict, and registering it with any other
/// template always does.
pub proof fn lemma_id_rebinding(
    pre: Seq<IdEntry>,
    post: Seq<IdEntry>,
    id: Seq<char>,
    t: Seq<u8>,
    m: Map<Seq<u8>, Seq<u8>>,
    t2: Seq<u8>,
)
    requires
        ids_updated(pre, post, id, t, m),
        valid_utf8(t),
    ensures
        !id_conflicts(post, id, t),
        t2 != t ==> id_conflicts(post, id, t2),
{
    lemma_find_id(pre, id);
    lemma_find_id(post, id);
    let f = find_id(pre, id);
    let bound: int = if f >= 0 {
        f
    } else {
        pre.len() as int
    };
    assert(post[bound].id@ == id);
    assert(find_id(post, id) == bound) by {
        if find_id(post, id) < bound {
            assert(post[find_id(post, id)] == pre[find_id(post, id)]);
            assert(pre[find_id(post, id)].id@ == id);
        }
    }
    assert(post[bound].glob_path@ == lossy_decode(t));
    assert(encode_utf8(post[bound].glob_path@) == t) by {
        assert(lossy_decode(t) == vstd::utf8::decode_utf8(t));
        vstd::utf8::decode_utf8_encode_utf8(t);
    }
}

/// `Get` being allowed makes `Head` allowed, and nothing is allowed beyond
/// the methods some route actually answers for the path (with `Head`
/// standing in for `Get`).
pub proof fn lemma_options_allow<H>(rs: Seq<RouteEntry<H>>, text: Seq<u8>)
    ensures
        first_route_match(rs, Method::Get, text) >= 0 ==> allowed_methods(rs, text).contains(
            Method::Head,
        ),
        forall|meth: Method| #[trigger]
            allowed_methods(rs, text).contains(meth) ==> (first_route_match(rs, meth, text) >= 0
                || (meth == Method::Head && first_route_match(rs, Method::Get, text) >= 0)),
{
    let a = allowed_methods(rs, text);
    if first_route_match(rs, Method::Get, text) >= 0 {
        if first_route_match(rs, Method::Head, text) >= 0 {
            let k = method_allowed(rs, Method::Get, text).len() + method_allowed(
                rs,
                Method::Post,
                text,
            ).len() + method_allowed(rs, Method::Put, text).len() + method_allowed(
                rs,
                Method::Delete,
                text,
            ).len();
            assert(a[k as int] == Method::Head);
            assert(a.contains(Method::Head));
        } else {
            assert(a.last() == Method::Head);
            assert(a.contains(Method::Head));
        }
    }
    assert forall|meth: Method| #[trigger]
        a.contains(meth) implies (first_route_match(rs, meth, text) >= 0 || (meth == Method::Head
        && first_route_match(rs, Method::Get, text) >= 0)) by {
        let k = choose|k: int| 0 <= k < a.len() && a[k] == meth;
        assert(a[k] == meth);
    }
}

/// Whether the chunks are ordered, disjoint and within a template of `n`
/// bytes.
fn chunks_fit(chunks: &Vec<ParamChunk>, n: usize) -> (r: bool)
    ensures
        r == chunks_ok(chunks_abs(chunks@), n as int),
{
    let ghost cs = chunks_abs(chunks@);
    let len = chunks.len();
    let mut i: usize = 0;
    while i < len
        invariant
            0 <= i <= len,
            len == chunks@.len(),
            cs == chunks_abs(chunks@),
            cs.len() == len,
            forall|j: int| 0 <= j < i ==> 0 <= (#[trigger] cs[j]).start < cs[j].end <= n,
            forall|j: int| 1 <= j < i ==> (#[trigger] cs[j]).start >= cs[j - 1].end,
        decreases len - i,
    {
        let c = &chunks[i];
        proof {
            assert(cs[i as int] == chunks@[i as int].abs());
        }
        if !(c.start < c.end && c.end <= n) {
            proof {
                assert(!(0 <= cs[i as int].start < cs[i as int].end <= n as int));
                assert(!chunks_ok(cs, n as int));
            }
            return false;
        }
        if i > 0 {
            let prev_end = chunks[i - 1].end;
            if c.start < prev_end {
                proof {
                    assert(cs[i as int - 1] == chunks@[i as int - 1].abs());
                    assert(cs[i as int - 1].end > cs[i as int].start);
                    assert(!chunks_ok(cs, n as int));
                }
                return false;
            }
        }
        i = i + 1;
    }
    proof {
        assert forall|p: int, q: int| 0 <= p < q < cs.len() implies (#[trigger] cs[p]).end <= (
        #[trigger] cs[q]).start by {
            lemma_chunk_span(cs, p, q);
        }
    }
    true
}

/// With every chunk ending before the next begins, any earlier chunk ends
/// before any later one begins.
proof fn lemma_chunk_span(cs: Seq<GChunk>, p: int, q: int)
    requires
        forall|j: int| 0 <= j < cs.len() ==> (#[trigger] cs[j]).start < cs[j].end,
        forall|j: int| 1 <= j < cs.len() ==> (#[trigger] cs[j]).start >= cs[j - 1].end,
        0 <= p < q < cs.len(),
    ensures
        cs[p].end <= cs[q].start,
    decreases q - p,
{
    if q == p + 1 {
    } else {
        lemma_chunk_span(cs, p, q - 1);
    }
}

/// Copies a chunk list.
fn clone_chunks(chunks: &Vec<ParamChunk>) -> (r: Vec<ParamChunk>)
    ensures
        r@ == chunks@,
{
    let mut r: Vec<ParamChunk> = Vec::new();
    let n = chunks.len();
    let mut i: usize = 0;
    while i < n
        invariant
            0 <= i <= n,
            n == chunks@.len(),
            r@ == chunks@.take(i as int),
        decreases n - i,
    {
        let c = &chunks[i];
        let copied = ParamChunk { name: c.name.clone(), start: c.start, end: c.end };
        proof {
            assert(copied == chunks@[i as int]);
        }
        r.push(copied);
        proof {
            assert(r@ =~= chunks@.take(i as int + 1));
        }
        i = i + 1;
    }
    proof {
        assert(chunks@.take(n as int) =~= chunks@);
    }
    r
}

} // verus!
