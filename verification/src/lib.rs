//! An in-memory core for a URL-shortening service.
//!
//! Two independent components, both verified:
//!
//! * [`store::Store`]: the identifier-to-URL table. It assigns each inserted
//!   URL a fresh, randomly drawn 64-bit identifier and resolves identifiers
//!   back to their URLs.
//! * [`counter::RequestCounter`]: the request-metrics table. It counts, per
//!   operation name, how many operations the caller has reported.
//!
//! URL syntax validation and normalization, HTTP routing, and the encoding of
//! metrics for a wire format are the caller's business: the store receives
//! URLs that the caller has already validated and normalized, stores them
//! verbatim, and returns them verbatim.

pub mod counter;
pub mod store;

pub use counter::RequestCounter;
pub use store::{Store, StoreError};
