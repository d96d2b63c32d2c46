//! The type registry: a mapping from a type name to a regex-pattern
//! fragment, consulted when a placeholder carries a type annotation (or,
//! failing that, under the placeholder's own name).

use vstd::prelude::*;
use vstd::string::StringSliceAdditionalSpecFns;
use vstd::utf8::encode_utf8;

use crate::strutil::bytes_eq;
use crate::strutil::bytes_to_vec;

verus! {

/// The built-in type names and pattern fragments.
pub struct Type;

impl Type {
    /// The name under which the default fragment is registered.
    pub fn string_name() -> (s: &'static str)
        ensures
            s@ == "string"@,
    {
        "string"
    }

    /// The fragment for `string`: any run of bytes without `/` or `.`.
    pub fn string_pattern() -> (s: &'static str)
        ensures
            s@ == "[^/.]+"@,
    {
        "[^/.]+"
    }

    /// The name under which the digits-only fragment is registered.
    pub fn number_name() -> (s: &'static str)
        ensures
            s@ == "number"@,
    {
        "number"
    }

    /// The fragment for `number`: a nonempty run of decimal digits.
    pub fn number_pattern() -> (s: &'static str)
        ensures
            s@ == "[0-9]+"@,
    {
        "[0-9]+"
    }
}

/// The bytes of the fragment a placeholder falls back to when neither its
/// type nor its name is registered.
pub open spec fn default_pattern_spec() -> Seq<u8> {
    encode_utf8("[^/.]+"@)
}

/// The mapping held by a registry of the built-in types alone.
pub open spec fn default_types_map() -> Map<Seq<u8>, Seq<u8>> {
    Map::<Seq<u8>, Seq<u8>>::empty().insert(encode_utf8("string"@), encode_utf8("[^/.]+"@)).insert(
        encode_utf8("number"@),
        encode_utf8("[0-9]+"@),
    )
}

/// A registry of pattern fragments, keyed by type name. A later insertion
/// of the same name shadows the earlier one.
pub struct Types {
    entries: Vec<(Vec<u8>, Vec<u8>)>,
}

/// The mapping a list of name/fragment pairs denotes; the earliest pair
/// with a given name wins.
pub open spec fn entries_map(s: Seq<(Seq<u8>, Seq<u8>)>) -> Map<Seq<u8>, Seq<u8>>
    decreases s.len(),
{
    if s.len() == 0 {
        Map::empty()
    } else {
        entries_map(s.drop_first()).insert(s[0].0, s[0].1)
    }
}

impl View for Types {
    type V = Map<Seq<u8>, Seq<u8>>;

    closed spec fn view(&self) -> Map<Seq<u8>, Seq<u8>> {
        entries_map(self.entries@.map_values(|p: (Vec<u8>, Vec<u8>)| (p.0@, p.1@)))
    }
}

impl Types {
    /// An empty registry.
    pub fn new() -> (r: Types)
        ensures
            r@ == Map::<Seq<u8>, Seq<u8>>::empty(),
    {
        Types { entries: Vec::new() }
    }

    /// The fragment used when a placeholder's type and name are both
    /// unregistered.
    pub fn default_type() -> (s: &'static str)
        ensures
            s@ == "[^/.]+"@,
            s.spec_bytes() == default_pattern_spec(),
    {
        "[^/.]+"
    }

    /// A registry holding the built-in `string` and `number` types.
    pub fn with_default_types() -> (r: Types)
        ensures
            r@ == default_types_map(),
    {
        let mut r = Types::new();
        r.insert(Type::string_name(), Type::string_pattern());
        r.insert(Type::number_name(), Type::number_pattern());
        r
    }

    /// Registers `pattern` under `name`, shadowing any earlier entry.
    pub fn insert(&mut self, name: &str, pattern: &str)
        ensures
            final(self)@ == old(self)@.insert(name.spec_bytes(), pattern.spec_bytes()),
    {
        let key = bytes_to_vec(name.as_bytes());
        let value = bytes_to_vec(pattern.as_bytes());
        self.entries.insert(0, (key, value));
        proof {
            let mapped = self.entries@.map_values(|p: (Vec<u8>, Vec<u8>)| (p.0@, p.1@));
            let old_mapped = old(self).entries@.map_values(
                |p: (Vec<u8>, Vec<u8>)| (p.0@, p.1@),
            );
            assert(mapped.drop_first() =~= old_mapped);
        }
    }

    /// Looks a name up, returning the registered fragment if there is one.
    pub fn get(&self, name: &[u8]) -> (r: Option<&Vec<u8>>)
        ensures
            r is Some <==> self@.dom().contains(name@),
            r matches Some(v) ==> self@[name@] == v@,
    {
        let n = self.entries.len();
        let ghost mapped = self.entries@.map_values(|p: (Vec<u8>, Vec<u8>)| (p.0@, p.1@));
        let mut i: usize = 0;
        proof {
            assert(mapped.skip(0) =~= mapped);
        }
        while i < n
            invariant
                0 <= i <= n,
                n == self.entries@.len(),
                mapped == self.entries@.map_values(|p: (Vec<u8>, Vec<u8>)| (p.0@, p.1@)),
                self@ == entries_map(mapped),
                entries_map(mapped).dom().contains(name@) == entries_map(
                    mapped.skip(i as int),
                ).dom().contains(name@),
                entries_map(mapped).dom().contains(name@) ==> entries_map(mapped)[name@]
                    == entries_map(mapped.skip(i as int))[name@],
            decreases n - i,
        {
            proof {
                assert(mapped.skip(i as int).drop_first() =~= mapped.skip(i + 1));
                assert(mapped.skip(i as int)[0] == mapped[i as int]);
            }
            if bytes_eq(self.entries[i].0.as_slice(), name) {
                return Some(&self.entries[i].1);
            }
            i = i + 1;
        }
        proof {
            assert(mapped.skip(n as int).len() == 0);
        }
        None
    }
}

} // verus!
