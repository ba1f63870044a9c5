//! Keeps keyword and student rows in step with their embeddings and ranks
//! students against a query by the distances of their keywords.
//!
//! The library decides and its caller performs: the caller reads the rows,
//! calls the embedding provider and writes to the store; the library says
//! which entities are pending ([`select`]), cuts them into batches
//! ([`batch`]), forms the provider's requests ([`request`]), leads a run
//! batch by batch ([`sync`]), says what the writes of a run leave pending
//! ([`store`]) and ranks the candidates of a search ([`search`], [`rank`]).

pub mod batch;
pub mod model;
pub mod rank;
pub mod request;
pub mod search;
pub mod select;
pub mod store;
pub mod sync;
