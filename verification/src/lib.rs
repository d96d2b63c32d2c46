//! Fast and flexible request routing.
//!
//! A path template such as `/posts/{id:number}` is compiled into an anchored
//! regular expression together with the source offsets of its placeholders;
//! a router keeps an insertion-ordered table of such compiled routes per HTTP
//! method, dispatches a request path to the first matching route, and can
//! regenerate a concrete URI from a registered route id and a parameter set.


pub mod glob;
pub mod matcher;
pub mod params;
pub mod recognizer;
pub mod router;
pub mod strutil;
pub mod uri_for;

pub use params::Params;
pub use recognizer::ParamChunk;
pub use recognizer::PatternError;
pub use recognizer::Recognizer;
pub use recognizer::RouteMatch;
pub use router::id::Id;
pub use router::Handling;
pub use router::Method;
pub use router::NoRoute;
pub use router::RouteError;
pub use router::Router;
pub use router::TrailingSlash;
pub use uri_for::uri_for;
pub use uri_for::BaseUri;
pub use uri_for::UriError;
