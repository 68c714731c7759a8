//! Server-side state: one epoch bundles the embedding database, the text
//! database, and their hints, all built atomically from a record set. A
//! refresh builds the next epoch off to the side and installs it only on
//! success; a failed rebuild leaves the previous epoch untouched. An
//! empty record set is never published.

use vstd::prelude::*;

use crate::embedding::build_embedding_matrix;
use crate::encoding::{
    build_packed, bytes_rows, encoded_len, encoded_with, lemma_pack_cell_bound, lemma_utf8_len,
    max_enc_len, packed_matrix, packed_side, pow256,
};
use crate::matrix::Matrix;
use crate::params::{lemma_shift_monotone, PirError, PirParams};
use crate::pir::{answer, answer_uncompressed, CompressedDatabase, Database};

use vstd::slice::slice_to_vec;
use vstd::utf8::encode_utf8;

verus! {

/// Bytes per cell in the text database: one, so every cell holds a
/// single byte or a record length, keeping the noise a row accumulates
/// small against the rounding step.
pub const TEXT_GROUP: usize = 1;

/// One published generation of the server's databases and hints.
pub struct Epoch {
    /// The refresh counter this epoch was published under.
    pub epoch_id: u64,
    /// The shared parameters.
    pub params: PirParams,
    /// How many records the epoch serves.
    pub record_count: usize,
    /// The embedding database, one record's quantised embedding per row.
    pub emb_db: Database,
    /// The text database, one packed record per column.
    pub txt_db: Database,
    /// The text database packed two cells per word for answering.
    pub txt_compressed: CompressedDatabase,
    /// The seed that regenerates the embedding database's public matrix.
    pub emb_seed: u64,
    /// The embedding database's client hint.
    pub emb_hint: Matrix,
    /// The seed that regenerates the text database's public matrix.
    pub txt_seed: u64,
    /// The text database's client hint.
    pub txt_hint: Matrix,
}

impl Epoch {
    /// Well-formedness: both databases are valid, the record count fits
    /// in both, the compressed copy mirrors the text database, and both
    /// hints are the hint matrices of their databases and seeds.
    pub open spec fn wf(self) -> bool {
        &&& self.params.valid()
        &&& self.params.secret_dimension <= 0x1_0000
        &&& self.emb_db.wf()
        &&& self.txt_db.wf()
        &&& self.emb_db.mod_power == self.params.mod_power
        &&& self.txt_db.mod_power == self.params.mod_power
        &&& 1 <= self.record_count
        &&& self.record_count <= self.emb_db.side_len_spec()
        &&& self.record_count <= self.txt_db.side_len_spec()
        &&& self.txt_compressed.wf()
        &&& self.txt_compressed.src@ == self.txt_db.matrix@
        &&& self.txt_compressed.side == self.txt_db.side_len_spec()
        &&& self.emb_hint.wf()
        &&& self.emb_hint.nrows == self.emb_db.side_len_spec()
        &&& self.emb_hint.ncols == self.params.secret_dimension
        &&& self.emb_hint.bounded(crate::params::CIPHER_MOD)
        &&& self.emb_hint@ == crate::pir::hint_rows(
            self.emb_db.matrix@,
            self.emb_seed,
            self.emb_db.side_len_spec() as int,
            self.params.secret_dimension as int,
        )
        &&& self.txt_hint.wf()
        &&& self.txt_hint.nrows == self.txt_db.side_len_spec()
        &&& self.txt_hint.ncols == self.params.secret_dimension
        &&& self.txt_hint.bounded(crate::params::CIPHER_MOD)
        &&& self.txt_hint@ == crate::pir::hint_rows(
            self.txt_db.matrix@,
            self.txt_seed,
            self.txt_db.side_len_spec() as int,
            self.params.secret_dimension as int,
        )
    }
}

/// Every record encoding in a packed matrix stays under the bound when
/// the records themselves are short enough and the bound covers a full
/// cell of `g` bytes.
proof fn lemma_packed_cells_bound(recs: Seq<Seq<u8>>, g: int, bound: u64)
    requires
        1 <= g <= 8,
        pow256(g) <= bound,
        forall|r: int| 0 <= r < recs.len() ==> (#[trigger] recs[r]).len() < bound,
    ensures
        forall|j: int, r: int|
            0 <= j < packed_matrix(recs, g).len() && 0 <= r < packed_matrix(recs, g)[j].len()
                ==> #[trigger] packed_matrix(recs, g)[j][r] < bound,
{
    let m = packed_matrix(recs, g);
    assert forall|j: int, r: int|
        0 <= j < m.len() && 0 <= r < m[j].len() implies #[trigger] m[j][r] < bound by {
        if r < recs.len() && j < encoded_with(recs[r], g).len() {
            if j == 0 {
                assert(encoded_with(recs[r], g)[0] == recs[r].len() as u64);
            } else {
                let ch = crate::encoding::chunk(recs[r], g, j - 1);
                let cp = j - 1;
                let len = recs[r].len() as int;
                vstd::arithmetic::div_mod::lemma_fundamental_div_mod(len + g - 1, g);
                vstd::arithmetic::div_mod::lemma_mod_bound(len + g - 1, g);
                assert(g * (cp + 1) <= g * ((len + g - 1) / g)) by (nonlinear_arith)
                    requires
                        cp + 1 <= (len + g - 1) / g,
                        g >= 1,
                ;
                assert(g * (cp + 1) == g * cp + g) by (nonlinear_arith);
                assert(g * cp <= len - 1);
                lemma_pack_cell_bound(ch);
                assert(ch.len() <= g);
                crate::encoding::lemma_pow256_mono(ch.len() as int, g);
                assert(encoded_with(recs[r], g)[j] == pack_cell_u64(ch));
            }
        }
    }
}

/// The packed cell of a chunk, as a word.
pub open spec fn pack_cell_u64(b: Seq<u8>) -> u64 {
    crate::encoding::pack_cell(b) as u64
}

/// The widest encoding among records all of whose encodings fit a bound
/// also fits that bound.
proof fn lemma_max_enc_len_bound(recs: Seq<Seq<u8>>, g: int, k: int, bound: int)
    requires
        0 <= bound,
        forall|r: int|
            0 <= r < k ==> encoded_len((#[trigger] recs[r]).len() as int, g) <= bound,
    ensures
        max_enc_len(recs, g, k) <= bound,
    decreases k,
{
    if k > 0 {
        lemma_max_enc_len_bound(recs, g, k - 1, bound);
    }
}

/// The input faults a dimension error reports when an epoch is built:
/// record and embedding counts disagree, a record's encoding does not fit
/// the plaintext modulus, or an embedding has the wrong dimension or an
/// over-range cell.
pub open spec fn epoch_input_mismatch(
    records: Seq<String>,
    embs: Seq<Vec<u64>>,
    dim: int,
    p: u64,
) -> bool {
    ||| embs.len() != records.len()
    ||| exists|t: int|
        0 <= t < records.len() && encode_utf8((#[trigger] records[t])@).len() >= p
    ||| exists|c: int| 0 <= c < embs.len() && (#[trigger] embs[c])@.len() != dim
    ||| exists|c: int, j: int|
        0 <= c < embs.len() && 0 <= j < embs[c]@.len() && #[trigger] embs[c]@[j] >= p
}

/// Builds one epoch from the records and their quantised embeddings.
/// Fails with an empty-corpus error on no records, a dimension error on
/// mismatched lengths or over-range embedding cells, and a modulus error
/// when the plaintext modulus is too small for the text packing; on
/// success every published piece is determined by the inputs and seeds.
pub fn build_epoch(
    records: &Vec<String>,
    embs: &Vec<Vec<u64>>,
    dim: usize,
    params: PirParams,
    epoch_id: u64,
    emb_seed: u64,
    txt_seed: u64,
) -> (r: Result<Epoch, PirError>)
    requires
        params.valid(),
        params.secret_dimension <= 0x1_0000,
        1 <= dim <= 0xFFF,
        records@.len() <= 0xFFF,
        forall|t: int| 0 <= t < records@.len() ==> (#[trigger] records@[t]@).len() <= 0x1FF0,
    ensures
        match r {
            Ok(ep) => {
                &&& ep.wf()
                &&& ep.epoch_id == epoch_id
                &&& ep.params == params
                &&& ep.record_count == records@.len()
                &&& ep.emb_seed == emb_seed
                &&& ep.txt_seed == txt_seed
                &&& records@.len() >= 1
                &&& params.mod_power >= 9
                &&& ep.txt_db.matrix@ == packed_matrix(
                    crate::encoding::StringMatrix::records_of(records@),
                    TEXT_GROUP as int,
                )
                &&& embs@.len() == records@.len()
                &&& forall|c: int|
                    0 <= c < embs@.len() ==> (#[trigger] embs@[c]@).len() == dim
                &&& forall|c: int, j: int|
                    0 <= c < embs@.len() && 0 <= j < dim
                        ==> #[trigger] ep.emb_db.matrix@[c][j] == embs@[c]@[j]
            },
            Err(e) => {
                ||| (e == PirError::EmptyCorpus && records@.len() == 0)
                ||| (e == PirError::ModulusTooLarge && params.mod_power < 9)
                ||| (e == PirError::DimensionMismatch && epoch_input_mismatch(
                    records@,
                    embs@,
                    dim as int,
                    params.plain_mod_spec(),
                ))
            },
        },
{
    if records.len() == 0 {
        return Err(PirError::EmptyCorpus);
    }
    if params.mod_power < 9 {
        return Err(PirError::ModulusTooLarge);
    }
    if embs.len() != records.len() {
        return Err(PirError::DimensionMismatch);
    }
    let plain_mod = params.plain_mod();
    // Text database: pack the records two bytes per cell.
    let count = records.len();
    let mut recs: Vec<Vec<u8>> = Vec::new();
    let mut t: usize = 0;
    while t < count
        invariant
            t <= count,
            count == records@.len(),
            forall|i: int| 0 <= i < count ==> (#[trigger] records@[i]@).len() <= 0x1FF0,
            recs@.len() == t,
            forall|i: int| #![trigger recs@[i]]
                0 <= i < t ==> recs@[i]@ == encode_utf8(records@[i]@),
            forall|i: int| #![trigger recs@[i]]
                0 <= i < t ==> recs@[i]@.len() <= 0x7FC0,
        decreases count - t,
    {
        proof {
            lemma_utf8_len(records@[t as int]@);
        }
        let bytes = slice_to_vec(records[t].as_str().as_bytes());
        recs.push(bytes);
        t += 1;
    }
    // Every record must fit the plaintext modulus, length prefix included.
    let mut t2: usize = 0;
    while t2 < count
        invariant
            t2 <= count,
            count == recs@.len(),
            count == records@.len(),
            plain_mod == params.plain_mod_spec(),
            forall|i: int| #![trigger recs@[i]]
                0 <= i < count ==> recs@[i]@ == encode_utf8(records@[i]@),
            forall|i: int| #![trigger recs@[i]]
                0 <= i < t2 ==> recs@[i]@.len() < plain_mod,
        decreases count - t2,
    {
        if recs[t2].len() as u64 >= plain_mod {
            proof {
                assert(encode_utf8((records@[t2 as int])@).len() >= params.plain_mod_spec());
            }
            return Err(PirError::DimensionMismatch);
        }
        t2 += 1;
    }
    proof {
        assert(bytes_rows(recs@) =~= crate::encoding::StringMatrix::records_of(records@));
    }
    let txt_matrix = build_packed(&recs, TEXT_GROUP);
    proof {
        let brecs = bytes_rows(recs@);
        lemma_shift_monotone(params.mod_power);
        assert(plain_mod >= 0x200);
        assert(pow256(0) == 1);
        assert(pow256(1) == 256);
        lemma_packed_cells_bound(brecs, TEXT_GROUP as int, plain_mod);
        assert(txt_matrix.bounded(plain_mod)) by {
            assert(forall|j: int, l: int|
                0 <= j < txt_matrix@.len() && 0 <= l < txt_matrix@[j].len()
                    ==> #[trigger] txt_matrix@[j][l] < plain_mod);
        }
        // The packed side stays small enough for hint setup.
        assert forall|r: int|
            0 <= r < brecs.len() implies encoded_len((#[trigger] brecs[r]).len() as int, 1)
            <= 0x7FC1 by {
            vstd::arithmetic::div_mod::lemma_div_basics(brecs[r].len() as int);
        }
        lemma_max_enc_len_bound(brecs, 1, brecs.len() as int, 0x7FC1);
        assert(packed_side(brecs, 1) <= 0x7FC1);
    }
    let txt_db = match Database::from_matrix(txt_matrix, params.mod_power) {
        Ok(db) => db,
        Err(_) => {
            proof {
                assert(false);
            }
            return Err(PirError::DimensionMismatch);
        },
    };
    // Embedding database: one quantised embedding per column, transposed
    // so the scoring round dots every record row against the probe.
    let emb_cols = match build_embedding_matrix(embs, dim, plain_mod) {
        Ok(m) => m,
        Err(e) => {
            return Err(e);
        },
    };
    let emb_rows = emb_cols.transpose();
    proof {
        assert(emb_rows.bounded(plain_mod)) by {
            assert(forall|j: int, l: int|
                0 <= j < emb_rows@.len() && 0 <= l < emb_rows@[j].len()
                    ==> #[trigger] emb_rows@[j][l] < plain_mod) by {
                assert(forall|j: int, l: int|
                    0 <= j < emb_rows.nrows && 0 <= l < emb_rows.ncols
                        ==> #[trigger] emb_rows@[j][l] == emb_cols@[l][j]);
            }
        }
    }
    let emb_db = match Database::from_matrix(emb_rows, params.mod_power) {
        Ok(db) => db,
        Err(_) => {
            proof {
                assert(false);
            }
            return Err(PirError::DimensionMismatch);
        },
    };
    let txt_compressed = match txt_db.compress() {
        Ok(c) => c,
        Err(_) => {
            proof {
                assert(false);
            }
            return Err(PirError::DimensionMismatch);
        },
    };
    proof {
        assert(emb_db.side_len_spec() * params.secret_dimension <= 0xFFF_0000)
            by (nonlinear_arith)
            requires
                emb_db.side_len_spec() <= 0xFFF,
                params.secret_dimension <= 0x1_0000,
        ;
        assert(txt_db.side_len_spec() * params.secret_dimension <= 0x7FC1_0000)
            by (nonlinear_arith)
            requires
                txt_db.side_len_spec() <= 0x7FC1,
                params.secret_dimension <= 0x1_0000,
        ;
    }
    let (emb_seed_out, emb_hint) = crate::pir::setup_with_seed(
        &emb_db,
        params.secret_dimension,
        emb_seed,
    );
    let (txt_seed_out, txt_hint) = crate::pir::setup_with_seed(
        &txt_db,
        params.secret_dimension,
        txt_seed,
    );
    Ok(
        Epoch {
            epoch_id,
            params,
            record_count: count,
            emb_db,
            txt_db,
            txt_compressed,
            emb_seed: emb_seed_out,
            emb_hint,
            txt_seed: txt_seed_out,
            txt_hint,
        },
    )
}

/// The published configuration of the current epoch; side lengths and
/// hints are absent until a first epoch exists.
pub struct DbConfig {
    /// Plaintext modulus exponent.
    pub mod_power: u64,
    /// LWE secret dimension.
    pub secret_dimension: usize,
    /// The plaintext modulus.
    pub plain_mod: u64,
    /// Text database side length; absent before the first refresh.
    pub db_side_len: Option<usize>,
    /// Embedding database side length; absent before the first refresh.
    pub emb_side_len: Option<usize>,
    /// The seeds regenerating the public matrices, embedding then text.
    pub server_hints: Option<(u64, u64)>,
    /// The current refresh counter.
    pub epoch: Option<u64>,
}

/// The server's mutable state: the published epoch, replaced wholesale by
/// each successful refresh.
pub struct ServerState {
    /// The shared parameters every epoch is built with.
    pub params: PirParams,
    /// The current epoch, absent until the first successful refresh.
    pub current: Option<Epoch>,
}

impl ServerState {
    /// Well-formedness: any published epoch is itself well-formed and was
    /// built with these parameters.
    pub open spec fn wf(self) -> bool {
        match self.current {
            Some(ep) => ep.wf() && ep.params == self.params,
            None => true,
        }
    }

    /// A fresh server with no published epoch.
    pub fn new(params: PirParams) -> (r: ServerState)
        ensures
            r.wf(),
            r.params == params,
            r.current is None,
    {
        ServerState { params, current: None }
    }

    /// Atomically rebuilds both databases from a new record set. On
    /// success the new epoch replaces the old one with the next counter;
    /// on failure the previous epoch remains authoritative, untouched.
    pub fn refresh(
        &mut self,
        records: &Vec<String>,
        embs: &Vec<Vec<u64>>,
        dim: usize,
        emb_seed: u64,
        txt_seed: u64,
    ) -> (r: Result<(), PirError>)
        requires
            old(self).wf(),
            old(self).params.valid(),
            old(self).params.secret_dimension <= 0x1_0000,
            1 <= dim <= 0xFFF,
            records@.len() <= 0xFFF,
            forall|t: int| 0 <= t < records@.len() ==> (#[trigger] records@[t]@).len() <= 0x1FF0,
        ensures
            final(self).params == old(self).params,
            final(self).wf(),
            match r {
                Ok(_) => {
                    &&& final(self).current is Some
                    &&& final(self).current->0.wf()
                    &&& final(self).current->0.record_count == records@.len()
                    &&& final(self).current->0.epoch_id == (match old(self).current {
                        Some(ep) => ep.epoch_id + 1,
                        None => 1,
                    })
                    &&& final(self).current->0.txt_db.matrix@ == packed_matrix(
                        crate::encoding::StringMatrix::records_of(records@),
                        TEXT_GROUP as int,
                    )
                    &&& embs@.len() == records@.len()
                    &&& forall|c: int, j: int|
                        0 <= c < embs@.len() && 0 <= j < dim
                            ==> #[trigger] final(self).current->0.emb_db.matrix@[c][j]
                                == embs@[c]@[j]
                },
                Err(e) => {
                    &&& final(self).current == old(self).current
                    &&& {
                        ||| (e == PirError::DimensionMismatch && {
                            ||| (old(self).current is Some && old(self).current->0.epoch_id
                                == u64::MAX)
                            ||| epoch_input_mismatch(
                                records@,
                                embs@,
                                dim as int,
                                old(self).params.plain_mod_spec(),
                            )
                        })
                        ||| (e == PirError::EmptyCorpus && records@.len() == 0)
                        ||| (e == PirError::ModulusTooLarge && old(self).params.mod_power < 9)
                    }
                },
            },
    {
        let next_id: u64 = match &self.current {
            Some(ep) => {
                if ep.epoch_id == u64::MAX {
                    return Err(PirError::DimensionMismatch);
                }
                ep.epoch_id + 1
            },
            None => 1,
        };
        let built = build_epoch(
            records,
            embs,
            dim,
            self.params,
            next_id,
            emb_seed,
            txt_seed,
        );
        match built {
            Ok(ep) => {
                self.current = Some(ep);
                Ok(())
            },
            Err(e) => Err(e),
        }
    }

    /// The configuration payload: always well-formed, with absent side
    /// lengths before the first epoch is published.
    pub fn db_config(&self) -> (r: DbConfig)
        requires
            self.wf(),
            self.params.valid(),
        ensures
            r.mod_power == self.params.mod_power,
            r.secret_dimension == self.params.secret_dimension,
            r.db_side_len is Some <==> self.current is Some,
            match self.current {
                Some(ep) => {
                    &&& r.db_side_len == Some(ep.txt_db.side_len_spec())
                    &&& r.emb_side_len == Some(ep.emb_db.side_len_spec())
                    &&& r.server_hints == Some((ep.emb_seed, ep.txt_seed))
                    &&& r.epoch == Some(ep.epoch_id)
                },
                None => {
                    &&& r.db_side_len is None
                    &&& r.emb_side_len is None
                    &&& r.server_hints is None
                    &&& r.epoch is None
                },
            },
    {
        let plain_mod = self.params.plain_mod();
        match &self.current {
            Some(ep) => DbConfig {
                mod_power: self.params.mod_power,
                secret_dimension: self.params.secret_dimension,
                plain_mod,
                db_side_len: Some(ep.txt_db.side_len()),
                emb_side_len: Some(ep.emb_db.side_len()),
                server_hints: Some((ep.emb_seed, ep.txt_seed)),
                epoch: Some(ep.epoch_id),
            },
            None => DbConfig {
                mod_power: self.params.mod_power,
                secret_dimension: self.params.secret_dimension,
                plain_mod,
                db_side_len: None,
                emb_side_len: None,
                server_hints: None,
                epoch: None,
            },
        }
    }

    /// Answers a scoring query against the embedding database of the
    /// current epoch, or reports that no epoch is published yet.
    pub fn answer_embedding(&self, query: &Vec<u64>) -> (r: Result<Vec<u64>, PirError>)
        requires
            self.wf(),
        ensures
            match r {
                Ok(a) => {
                    &&& self.current is Some
                    &&& query@.len() == self.current->0.emb_db.side_len_spec()
                    &&& a@.len() == self.current->0.emb_db.side_len_spec()
                    &&& forall|j: int|
                        0 <= j < a@.len()
                            ==> #[trigger] a@[j] == crate::linalg::dot_to(
                                crate::linalg::ints(self.current->0.emb_db.matrix@[j]),
                                crate::linalg::ints(query@),
                                self.current->0.emb_db.side_len_spec() as int,
                            ) % (crate::params::CIPHER_MOD as int)
                },
                Err(e) => {
                    ||| (e == PirError::NotReady && self.current is None)
                    ||| (e == PirError::DimensionMismatch && self.current is Some && (
                    query@.len() != self.current->0.emb_db.side_len_spec() || exists|t: int|
                        0 <= t < query@.len() && #[trigger] query@[t]
                            >= crate::params::CIPHER_MOD))
                },
            },
    {
        match &self.current {
            Some(ep) => answer_uncompressed(&ep.emb_db, query),
            None => Err(PirError::NotReady),
        }
    }

    /// Answers a fetch query against the text database of the current
    /// epoch on the compressed path, or reports that no epoch exists.
    pub fn answer_text(&self, query: &Vec<u64>) -> (r: Result<Vec<u64>, PirError>)
        requires
            self.wf(),
        ensures
            match r {
                Ok(a) => {
                    &&& self.current is Some
                    &&& query@.len() == self.current->0.txt_db.side_len_spec()
                    &&& a@.len() == self.current->0.txt_db.side_len_spec()
                    &&& forall|j: int|
                        0 <= j < a@.len()
                            ==> #[trigger] a@[j] == crate::linalg::dot_to(
                                crate::linalg::ints(self.current->0.txt_db.matrix@[j]),
                                crate::linalg::ints(query@),
                                self.current->0.txt_db.side_len_spec() as int,
                            ) % (crate::params::CIPHER_MOD as int)
                },
                Err(e) => {
                    ||| (e == PirError::NotReady && self.current is None)
                    ||| (e == PirError::DimensionMismatch && self.current is Some && (
                    query@.len() != self.current->0.txt_db.side_len_spec() || exists|t: int|
                        0 <= t < query@.len() && #[trigger] query@[t]
                            >= crate::params::CIPHER_MOD))
                },
            },
    {
        match &self.current {
            Some(ep) => answer(&ep.txt_compressed, query),
            None => Err(PirError::NotReady),
        }
    }
}

} // verus!
