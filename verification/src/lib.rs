//! A catalog of astronomical bodies served through a query/mutation/subscription
//! API: an arbitrary-precision numeric codec for the wire formats, a per-request
//! batched detail loader that eliminates N+1 lookups, an in-process broadcast
//! broker for newly created records, and the resolvers that tie them together.

pub mod broker;
pub mod codec;
pub mod error;
pub mod graphql;
pub mod loader;
pub mod persistence;
pub mod planet;
