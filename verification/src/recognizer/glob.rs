//! A pairing of a template path with an optional type registry, handed to
//! route registration.

use vstd::prelude::*;

use crate::recognizer::types::Types;

verus! {

/// A template path together with the registry its placeholders' types are
/// looked up in; with no registry, registration uses the built-in types.
pub struct Glob<'a> {
    pub path: &'a [u8],
    pub types: Option<&'a Types>,
}

impl<'a> Glob<'a> {
    /// Pairs a template path with an optional registry.
    pub fn new(path: &'a [u8], types: Option<&'a Types>) -> (r: Glob<'a>)
        ensures
            r.path@ == path@,
            r.types == types,
    {
        Glob { path, types }
    }

    /// The template path.
    pub fn path(&self) -> (r: &'a [u8])
        ensures
            r@ == self.path@,
    {
        self.path
    }

    /// The registry, if one was attached.
    pub fn types(&self) -> (r: Option<&'a Types>)
        ensures
            r == self.types,
    {
        self.types
    }
}

} // verus!
