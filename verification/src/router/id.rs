//! The route id: an opaque label attached to a route at registration, used
//! only to find the route again for reverse URI generation.

use vstd::prelude::*;

verus! {

/// A unique-per-router label for a route.
#[derive(Debug, Clone, PartialEq, Eq, Hash)]
pub struct Id(pub String);

impl View for Id {
    type V = Seq<char>;

    open spec fn view(&self) -> Seq<char> {
        self.0@
    }
}

impl Id {
    /// Wraps a label.
    pub fn new(id: &str) -> (r: Id)
        ensures
            r@ == id@,
    {
        Id(id.to_owned())
    }

    /// A present label, for registration calls that take an optional id.
    pub fn some(id: &str) -> (r: Option<Id>)
        ensures
            r matches Some(v) && v@ == id@,
    {
        Some(Id::new(id))
    }

    /// An absent label.
    pub fn none() -> (r: Option<Id>)
        ensures
            r is None,
    {
        None
    }

    /// The label's text.
    pub fn as_str(&self) -> (r: &str)
        ensures
            r@ == self@,
    {
        self.0.as_str()
    }
}

} // verus!
