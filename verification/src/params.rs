//! The parameter set: an ordered mapping from parameter name to string
//! value, kept sorted by the byte order of the names (the order in which a
//! `BTreeMap<String, String>` would iterate), so that query strings built
//! from leftover parameters come out deterministically.

use vstd::prelude::*;
use vstd::utf8::encode_utf8;

use crate::strutil::bytes_eq;
use crate::strutil::bytes_lt;
use crate::strutil::lemma_encode_utf8_injective;
use crate::strutil::lemma_lex_transitive;
use crate::strutil::lemma_lex_trichotomy;
use crate::strutil::lex_lt;

verus! {

/// Whether name `a` sorts strictly before name `b`.
pub open spec fn key_lt(a: Seq<char>, b: Seq<char>) -> bool {
    lex_lt(encode_utf8(a), encode_utf8(b))
}

/// Whether the entries are strictly sorted by name.
pub open spec fn params_sorted(v: Seq<(Seq<char>, Seq<char>)>) -> bool {
    forall|i: int, j: int| 0 <= i < j < v.len() ==> key_lt(#[trigger] v[i].0, #[trigger] v[j].0)
}

/// The position of the entry named `k`, or `-1` when there is none.
pub open spec fn find_key(v: Seq<(Seq<char>, Seq<char>)>, k: Seq<char>) -> int
    decreases v.len(),
{
    if v.len() == 0 {
        -1
    } else if v[0].0 == k {
        0
    } else {
        let r = find_key(v.drop_first(), k);
        if r < 0 {
            -1
        } else {
            r + 1
        }
    }
}

/// Whether an entry named `k` is present.
pub open spec fn params_contains(v: Seq<(Seq<char>, Seq<char>)>, k: Seq<char>) -> bool {
    find_key(v, k) >= 0
}

/// The value of the entry named `k`, meaningful where one is present.
pub open spec fn param_value(v: Seq<(Seq<char>, Seq<char>)>, k: Seq<char>) -> Seq<char> {
    v[find_key(v, k)].1
}

/// Where an entry named `k` would be inserted to keep the entries sorted.
pub open spec fn insert_pos(v: Seq<(Seq<char>, Seq<char>)>, k: Seq<char>) -> int
    decreases v.len(),
{
    if v.len() == 0 {
        0
    } else if key_lt(v[0].0, k) {
        1 + insert_pos(v.drop_first(), k)
    } else {
        0
    }
}

/// The entries after binding `k` to `val`: the present entry is replaced,
/// a new one is placed at its sorted position.
pub open spec fn param_insert(
    v: Seq<(Seq<char>, Seq<char>)>,
    k: Seq<char>,
    val: Seq<char>,
) -> Seq<(Seq<char>, Seq<char>)> {
    if params_contains(v, k) {
        v.update(find_key(v, k), (k, val))
    } else {
        v.insert(insert_pos(v, k), (k, val))
    }
}

/// The entries after removing the one named `k`, if present.
pub open spec fn param_remove(v: Seq<(Seq<char>, Seq<char>)>, k: Seq<char>) -> Seq<
    (Seq<char>, Seq<char>),
> {
    if params_contains(v, k) {
        v.remove(find_key(v, k))
    } else {
        v
    }
}

/// `find_key` lands on the first entry with the given name, and fails only
/// when no entry has it.
pub proof fn lemma_find_key(v: Seq<(Seq<char>, Seq<char>)>, k: Seq<char>)
    ensures
        find_key(v, k) == -1 || 0 <= find_key(v, k) < v.len(),
        find_key(v, k) >= 0 ==> v[find_key(v, k)].0 == k,
        forall|j: int|
            0 <= j < v.len() && #[trigger] v[j].0 == k ==> find_key(v, k) >= 0 && find_key(v, k)
                <= j,
    decreases v.len(),
{
    if v.len() == 0 {
    } else if v[0].0 == k {
    } else {
        lemma_find_key(v.drop_first(), k);
        assert forall|j: int| 0 <= j < v.len() && #[trigger] v[j].0 == k implies find_key(v, k)
            >= 0 && find_key(v, k) <= j by {
            assert(j >= 1);
            assert(v.drop_first()[j - 1].0 == k);
        }
    }
}

/// In a sorted entry list, `insert_pos` is the boundary between the names
/// before `k` and the names after it.
pub proof fn lemma_insert_pos(v: Seq<(Seq<char>, Seq<char>)>, k: Seq<char>)
    requires
        params_sorted(v),
    ensures
        0 <= insert_pos(v, k) <= v.len(),
        forall|j: int| 0 <= j < insert_pos(v, k) ==> key_lt(#[trigger] v[j].0, k),
        forall|j: int| insert_pos(v, k) <= j < v.len() ==> !key_lt(#[trigger] v[j].0, k),
    decreases v.len(),
{
    if v.len() == 0 {
    } else {
        let d = v.drop_first();
        assert(params_sorted(d)) by {
            assert(forall|i: int, j: int|
                0 <= i < j < d.len() ==> #[trigger] d[i].0 == v[i + 1].0 && #[trigger] d[j].0
                    == v[j + 1].0);
        }
        lemma_insert_pos(d, k);
        if key_lt(v[0].0, k) {
            assert forall|j: int| 0 <= j < insert_pos(v, k) implies key_lt(
                #[trigger] v[j].0,
                k,
            ) by {
                if j >= 1 {
                    assert(d[j - 1].0 == v[j].0);
                }
            }
            assert forall|j: int| insert_pos(v, k) <= j < v.len() implies !key_lt(
                #[trigger] v[j].0,
                k,
            ) by {
                assert(d[j - 1].0 == v[j].0);
            }
        } else {
            assert forall|j: int| 0 <= j < v.len() implies !key_lt(#[trigger] v[j].0, k) by {
                if j >= 1 {
                    assert(key_lt(v[0].0, v[j].0));
                    lemma_key_not_lt(v[0].0, v[j].0, k);
                } else {
                    assert(!key_lt(v[0].0, k));
                }
            }
        }
    }
}

/// From `a` before `b` and not `a` before `k`, `b` is not before `k`.
proof fn lemma_key_not_lt(a: Seq<char>, b: Seq<char>, k: Seq<char>)
    requires
        key_lt(a, b),
        !key_lt(a, k),
    ensures
        !key_lt(b, k),
{
    if key_lt(b, k) {
        lemma_lex_transitive(encode_utf8(a), encode_utf8(b), encode_utf8(k));
    }
}

/// An ordered mapping from parameter name to string value.
#[derive(Debug, Clone)]
pub struct Params {
    entries: Vec<(String, String)>,
}

impl View for Params {
    type V = Seq<(Seq<char>, Seq<char>)>;

    closed spec fn view(&self) -> Seq<(Seq<char>, Seq<char>)> {
        self.entries@.map_values(|p: (String, String)| (p.0@, p.1@))
    }
}

impl Params {
    /// Whether the entries are strictly sorted by name, as every operation
    /// here keeps them.
    pub open spec fn wf(&self) -> bool {
        params_sorted(self@)
    }

    /// An empty parameter set.
    pub fn new() -> (r: Params)
        ensures
            r@ =~= Seq::<(Seq<char>, Seq<char>)>::empty(),
            r.wf(),
    {
        let r = Params { entries: Vec::new() };
        proof {
            assert(r@ =~= Seq::<(Seq<char>, Seq<char>)>::empty());
        }
        r
    }

    /// How many parameters are bound.
    pub fn len(&self) -> (n: usize)
        ensures
            n == self@.len(),
    {
        self.entries.len()
    }

    /// Whether no parameter is bound.
    pub fn is_empty(&self) -> (b: bool)
        ensures
            b == (self@.len() == 0),
    {
        self.entries.len() == 0
    }

    /// The entry at a position, in name order.
    pub fn entry_at(&self, i: usize) -> (r: &(String, String))
        requires
            i < self@.len(),
        ensures
            r.0@ == self@[i as int].0,
            r.1@ == self@[i as int].1,
    {
        &self.entries[i]
    }

    /// Binds `value` under `name`, replacing any earlier binding.
    pub fn insert(&mut self, name: String, value: String)
        requires
            old(self).wf(),
        ensures
            final(self)@ == param_insert(old(self)@, name@, value@),
            final(self).wf(),
    {
        let ghost v = self@;
        let ghost k = name@;
        proof {
            lemma_find_key(v, k);
            lemma_insert_pos(v, k);
        }
        let n = self.entries.len();
        let mut i: usize = 0;
        while i < n
            invariant
                0 <= i <= n,
                n == self.entries@.len(),
                v == self@,
                v == old(self)@,
                k == name@,
                params_sorted(v),
                forall|j: int| 0 <= j < i ==> key_lt(#[trigger] v[j].0, k),
            decreases n - i,
        {
            let key_bytes = self.entries[i].0.as_str().as_bytes();
            if bytes_eq(key_bytes, name.as_str().as_bytes()) {
                proof {
                    lemma_encode_utf8_injective(v[i as int].0, k);
                    lemma_find_key(v, k);
                    assert forall|j: int| 0 <= j < i implies v[j].0 != k by {
                        lemma_lex_trichotomy(encode_utf8(v[j].0), encode_utf8(k));
                    }
                    assert(find_key(v, k) == i) by {
                        if find_key(v, k) < i {
                            assert(v[find_key(v, k)].0 == k);
                        }
                    }
                }
                self.entries.remove(i);
                self.entries.insert(i, (name, value));
                proof {
                    assert(self@ =~= v.update(i as int, (k, value@)));
                    lemma_sorted_update(v, i as int, k, value@);
                }
                return ;
            } else if bytes_lt(key_bytes, name.as_str().as_bytes()) {
                i = i + 1;
            } else {
                proof {
                    assert(v[i as int].0 == self.entries@[i as int].0@);
                    lemma_not_contains_at(v, k, i as int);
                    assert(insert_pos(v, k) == i) by {
                        lemma_insert_pos(v, k);
                        if insert_pos(v, k) < i {
                            assert(key_lt(v[insert_pos(v, k)].0, k));
                        }
                        if insert_pos(v, k) > i {
                            assert(!key_lt(v[i as int].0, k));
                        }
                    }
                }
                self.entries.insert(i, (name, value));
                proof {
                    assert(self@ =~= v.insert(i as int, (k, value@)));
                    lemma_sorted_insert(v, i as int, k, value@);
                }
                return ;
            }
        }
        proof {
            lemma_not_contains_at(v, k, n as int);
            assert(insert_pos(v, k) == n) by {
                lemma_insert_pos(v, k);
                if insert_pos(v, k) < n {
                    assert(key_lt(v[insert_pos(v, k)].0, k));
                }
            }
        }
        self.entries.push((name, value));
        proof {
            assert(self@ =~= v.insert(n as int, (k, value@)));
            lemma_sorted_insert(v, n as int, k, value@);
        }
    }

    /// Removes the binding under `name` and returns its value.
    pub fn remove(&mut self, name: &str) -> (r: Option<String>)
        requires
            old(self).wf(),
        ensures
            final(self)@ == param_remove(old(self)@, name@),
            final(self).wf(),
            r is Some <==> params_contains(old(self)@, name@),
            r matches Some(s) ==> s@ == param_value(old(self)@, name@),
    {
        let ghost v = self@;
        let ghost k = name@;
        proof {
            assert(v == old(self)@);
            lemma_find_key(v, k);
        }
        let n = self.entries.len();
        let mut i: usize = 0;
        while i < n
            invariant
                0 <= i <= n,
                n == self.entries@.len(),
                v == self@,
                v == old(self)@,
                k == name@,
                params_sorted(v),
                forall|j: int| 0 <= j < i ==> #[trigger] v[j].0 != k,
            decreases n - i,
        {
            if bytes_eq(self.entries[i].0.as_str().as_bytes(), name.as_bytes()) {
                proof {
                    lemma_encode_utf8_injective(v[i as int].0, k);
                    lemma_find_key(v, k);
                    assert(find_key(v, k) == i) by {
                        if find_key(v, k) < i {
                            assert(v[find_key(v, k)].0 == k);
                        }
                    }
                }
                let entry = self.entries.remove(i);
                proof {
                    assert(self@ =~= v.remove(i as int));
                    lemma_sorted_remove(v, i as int);
                }
                return Some(entry.1);
            }
            i = i + 1;
        }
        proof {
            lemma_find_key(v, k);
            assert(find_key(v, k) == -1) by {
                if find_key(v, k) >= 0 {
                    assert(v[find_key(v, k)].0 == k);
                }
            }
        }
        None
    }

    /// The value bound under `name`, if any.
    pub fn get(&self, name: &str) -> (r: Option<&String>)
        requires
            self.wf(),
        ensures
            r is Some <==> params_contains(self@, name@),
            r matches Some(s) ==> s@ == param_value(self@, name@),
    {
        let ghost v = self@;
        let ghost k = name@;
        let n = self.entries.len();
        let mut i: usize = 0;
        while i < n
            invariant
                0 <= i <= n,
                n == self.entries@.len(),
                v == self@,
                k == name@,
                forall|j: int| 0 <= j < i ==> #[trigger] v[j].0 != k,
            decreases n - i,
        {
            if bytes_eq(self.entries[i].0.as_str().as_bytes(), name.as_bytes()) {
                proof {
                    lemma_encode_utf8_injective(v[i as int].0, k);
                    lemma_find_key(v, k);
                    assert(find_key(v, k) == i) by {
                        if find_key(v, k) < i {
                            assert(v[find_key(v, k)].0 == k);
                        }
                    }
                }
                return Some(&self.entries[i].1);
            }
            i = i + 1;
        }
        proof {
            lemma_find_key(v, k);
            assert(find_key(v, k) == -1) by {
                if find_key(v, k) >= 0 {
                    assert(v[find_key(v, k)].0 == k);
                }
            }
        }
        None
    }
}

/// A name that sorts before position `i` of a sorted list and differs from
/// everything before `i` is absent from the whole list.
proof fn lemma_not_contains_at(v: Seq<(Seq<char>, Seq<char>)>, k: Seq<char>, i: int)
    requires
        params_sorted(v),
        0 <= i <= v.len(),
        forall|j: int| 0 <= j < i ==> key_lt(#[trigger] v[j].0, k),
        i < v.len() ==> !key_lt(v[i].0, k) && encode_utf8(v[i].0) != encode_utf8(k),
    ensures
        !params_contains(v, k),
{
    lemma_find_key(v, k);
    if find_key(v, k) >= 0 {
        let f = find_key(v, k);
        assert(v[f].0 == k);
        if f < i {
            lemma_lex_trichotomy(encode_utf8(v[f].0), encode_utf8(k));
        } else if f == i {
        } else {
            assert(key_lt(v[i].0, v[f].0));
            lemma_lex_trichotomy(encode_utf8(v[i].0), encode_utf8(k));
            lemma_lex_trichotomy(encode_utf8(v[f].0), encode_utf8(k));
            lemma_lex_transitive(encode_utf8(k), encode_utf8(v[i].0), encode_utf8(v[f].0));
        }
    }
}

/// Replacing the entry at `i` with one of the same name keeps the list
/// sorted.
proof fn lemma_sorted_update(v: Seq<(Seq<char>, Seq<char>)>, i: int, k: Seq<char>, val: Seq<char>)
    requires
        params_sorted(v),
        0 <= i < v.len(),
        v[i].0 == k,
    ensures
        params_sorted(v.update(i, (k, val))),
{
}

/// Inserting an entry at the boundary of the names before it keeps the list
/// sorted.
proof fn lemma_sorted_insert(v: Seq<(Seq<char>, Seq<char>)>, i: int, k: Seq<char>, val: Seq<char>)
    requires
        params_sorted(v),
        0 <= i <= v.len(),
        forall|j: int| 0 <= j < i ==> key_lt(#[trigger] v[j].0, k),
        i < v.len() ==> !key_lt(v[i].0, k) && encode_utf8(v[i].0) != encode_utf8(k),
    ensures
        params_sorted(v.insert(i, (k, val))),
{
    let w = v.insert(i, (k, val));
    if i < v.len() {
        lemma_lex_trichotomy(encode_utf8(v[i].0), encode_utf8(k));
        assert(key_lt(k, v[i].0));
    }
    assert forall|p: int, q: int| 0 <= p < q < w.len() implies key_lt(
        #[trigger] w[p].0,
        #[trigger] w[q].0,
    ) by {
        if p < i && q == i {
        } else if p == i && q > i {
            assert(w[q].0 == v[q - 1].0);
            assert(key_lt(k, v[i].0));
            if q - 1 > i {
                assert(key_lt(v[i].0, v[q - 1].0));
                lemma_lex_transitive(
                    encode_utf8(k),
                    encode_utf8(v[i].0),
                    encode_utf8(v[q - 1].0),
                );
            }
        } else if p < i && q > i {
            assert(w[p].0 == v[p].0 && w[q].0 == v[q - 1].0);
        } else if q < i {
        } else if p > i {
        }
    }
}

/// Removing an entry keeps the list sorted.
proof fn lemma_sorted_remove(v: Seq<(Seq<char>, Seq<char>)>, i: int)
    requires
        params_sorted(v),
        0 <= i < v.len(),
    ensures
        params_sorted(v.remove(i)),
{
    let w = v.remove(i);
    assert forall|p: int, q: int| 0 <= p < q < w.len() implies key_lt(
        #[trigger] w[p].0,
        #[trigger] w[q].0,
    ) by {
        if q < i {
        } else if p < i && q >= i {
            assert(w[q].0 == v[q + 1].0);
        } else {
            assert(w[p].0 == v[p + 1].0 && w[q].0 == v[q + 1].0);
        }
    }
}

} // verus!
