//! The client's view of the two-round protocol. A query proceeds through
//! a fixed pipeline of library calls, each verified on its own: quantise
//! the embedded query text, probe the embedding database, recover and
//! rank the scores, fetch the winning column from the text database, and
//! decode it. The state between rounds is the ephemeral secret inside
//! each round's `ClientState`; nothing persists across queries.

use vstd::prelude::*;

use crate::encoding::{decode_ok, decode_text, decoded_bytes};
use crate::params::PirError;
use crate::server_state::TEXT_GROUP;

use vstd::utf8::{decode_utf8, valid_utf8};

verus! {

/// Which of the server's two databases a request addresses.
pub enum DatabaseType {
    /// The packed-record text database.
    EncodingDatabase,
    /// The quantised-embedding database.
    EmbeddingDatabase,
}

/// Decodes a recovered text-database column into the record it packs.
/// Invalid UTF-8 here is the signature of decryption garble: the caller
/// retries the whole query with a fresh secret.
pub fn decode_fetched_record(cells: &Vec<u64>) -> (r: Result<String, PirError>)
    requires
        cells@.len() <= 0x200_0000,
    ensures
        match r {
            Ok(s) => {
                &&& decode_ok(cells@, TEXT_GROUP as int)
                &&& valid_utf8(decoded_bytes(cells@, TEXT_GROUP as int))
                &&& s@ == decode_utf8(decoded_bytes(cells@, TEXT_GROUP as int))
            },
            Err(e) => {
                ||| (e == PirError::DimensionMismatch && !decode_ok(cells@, TEXT_GROUP as int))
                ||| (e == PirError::InvalidUtf8 && decode_ok(cells@, TEXT_GROUP as int)
                    && !valid_utf8(decoded_bytes(cells@, TEXT_GROUP as int)))
            },
        },
{
    decode_text(cells, TEXT_GROUP)
}

} // verus!
