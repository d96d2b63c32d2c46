//! A builder for template byte strings: a fixed prefix and postfix around a
//! path, with a type registry attached for the placeholders in between.

use vstd::prelude::*;

use crate::recognizer::types::Types;
use crate::strutil::extend_bytes;

verus! {

/// A template builder: the produced template is the prefix followed by the
/// postfix, with a registry for the types its placeholders may name.
pub struct Glob {
    pub prefix: Vec<u8>,
    pub postfix: Vec<u8>,
    pub types: Types,
}

impl Glob {
    /// A builder with empty prefix and postfix and an empty registry.
    pub fn without_suffixes() -> (r: Glob)
        ensures
            r.prefix@ == Seq::<u8>::empty(),
            r.postfix@ == Seq::<u8>::empty(),
            r.types@ == Map::<Seq<u8>, Seq<u8>>::empty(),
    {
        Glob { prefix: Vec::new(), postfix: Vec::new(), types: Types::new() }
    }

    /// The produced template: the prefix followed by the postfix. The path
    /// handed in contributes nothing to the produced bytes; its placeholders
    /// are compiled later, against this builder's registry.
    pub fn produce(&self, _path: &[u8]) -> (r: Vec<u8>)
        ensures
            r@ == self.prefix@ + self.postfix@,
    {
        let mut glob: Vec<u8> = Vec::new();
        extend_bytes(&mut glob, self.prefix.as_slice());
        extend_bytes(&mut glob, self.postfix.as_slice());
        proof {
            assert(Seq::<u8>::empty() + self.prefix@ =~= self.prefix@);
        }
        glob
    }
}

} // verus!
