//! A private-information-retrieval search library in the Tiptoe style,
//! built on a learning-with-errors linear PIR engine.
//!
//! A server holds a corpus of short text records. A client retrieves the
//! record most relevant to a query in two PIR rounds: an embedding round
//! that scores every record homomorphically, and a text round that fetches
//! the chosen record, without the server learning either the query or the
//! choice.

pub mod client;
pub mod correctness;
pub mod embedding;
pub mod encoding;
pub mod linalg;
pub mod lwe;
pub mod matrix;
pub mod params;
pub mod pir;
pub mod protocol;
pub mod rng;
pub mod server_state;
pub mod utils;
pub mod wire;

pub use params::{PirError, PirParams};
