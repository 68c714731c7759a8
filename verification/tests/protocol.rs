//! The two-round protocol end to end: score, select, fetch, decode; epoch
//! refresh semantics; and the garble-and-retry path.

use tiptoe_rs::client::{decode_fetched_record, DatabaseType};
use tiptoe_rs::embedding::{quantize_coord, quantize_embedding};
use tiptoe_rs::lwe::{encrypt, ClientState};
use tiptoe_rs::params::{PirError, PirParams};
use tiptoe_rs::pir::{delta_for, probe_query, query, query_noise, recover_row};
use tiptoe_rs::protocol::{adjust_embedding, find_closest_index, top_k_indices};
use tiptoe_rs::rng::{expand_a, gen_secret};
use tiptoe_rs::server_state::{build_epoch, Epoch, ServerState};

const MOD_POWER: u64 = 17;
const PLAIN_MOD: u64 = 1u64 << 17;
const SECRET_DIMENSION: usize = 48;
const DIM: usize = 4;

fn params() -> PirParams {
    PirParams::new(SECRET_DIMENSION, MOD_POWER).unwrap()
}

fn fetch_record(ep: &Epoch, index: usize) -> Result<String, PirError> {
    let side = ep.txt_db.side_len();
    let (state, cipher) = query(
        index,
        side,
        SECRET_DIMENSION,
        ep.txt_seed,
        PLAIN_MOD,
    )?;
    let ans = tiptoe_rs::pir::answer(&ep.txt_compressed, &cipher)?;
    let row = recover_row(&state, &ep.txt_hint, &ans, &cipher, PLAIN_MOD)?;
    decode_fetched_record(&row)
}

fn score_records(ep: &Epoch, probe: &[i64]) -> Result<Vec<u64>, PirError> {
    let quantized = quantize_embedding(&probe.to_vec(), PLAIN_MOD);
    let adjusted = adjust_embedding(&quantized, ep.emb_db.side_len());
    let (state, cipher) = probe_query(
        &adjusted,
        ep.emb_db.side_len(),
        SECRET_DIMENSION,
        ep.emb_seed,
        PLAIN_MOD,
    )?;
    let ans = tiptoe_rs::pir::answer_uncompressed(&ep.emb_db, &cipher)?;
    recover_row(&state, &ep.emb_hint, &ans, &cipher, PLAIN_MOD)
}

#[test]
fn test_hello_world_round() {
    let records = vec!["hello world".to_string()];
    let embs = vec![vec![50u64, 3, 7, 9]];
    let ep = build_epoch(&records, &embs, DIM, params(), 1, 11, 12).unwrap();

    // Round one: the probe is the record's own embedding, so its score wins.
    let scores = score_records(&ep, &[50, 3, 7, 9]).unwrap();
    let best = find_closest_index(&scores, ep.record_count, PLAIN_MOD).unwrap();
    assert_eq!(best, 0);

    // Round two: fetch and decode the winning column.
    let text = fetch_record(&ep, best).unwrap();
    assert_eq!(text, "hello world");
}

#[test]
fn test_single_record_square() {
    // One record: the matrix is still square, sided by the column height.
    let records = vec!["hello world".to_string()];
    let embs = vec![vec![1u64, 0, 0, 0]];
    let ep = build_epoch(&records, &embs, DIM, params(), 1, 3, 4).unwrap();
    // One length cell plus one cell per byte.
    assert_eq!(ep.txt_db.side_len(), 1 + "hello world".len());
    assert_eq!(ep.txt_db.matrix.nrows, ep.txt_db.matrix.ncols);
    let text = fetch_record(&ep, 0).unwrap();
    assert_eq!(text, "hello world");
}

#[test]
fn test_three_records_select_banana() {
    let records = vec![
        "Apple".to_string(),
        "Banana".to_string(),
        "Carrot".to_string(),
    ];
    let embs = vec![
        vec![10u64, 0, 0, 0],
        vec![0u64, 10, 0, 0],
        vec![0u64, 0, 10, 0],
    ];
    let ep = build_epoch(&records, &embs, DIM, params(), 1, 21, 22).unwrap();

    // A probe leaning toward the second embedding direction.
    let scores = score_records(&ep, &[1, 9, 2, 0]).unwrap();
    let best = find_closest_index(&scores, ep.record_count, PLAIN_MOD).unwrap();
    assert_eq!(best, 1);
    let text = fetch_record(&ep, best).unwrap();
    assert_eq!(text, "Banana");

    // Top-2 ranking: the carrot direction scores second.
    let top = top_k_indices(&scores, ep.record_count, 2, PLAIN_MOD).unwrap();
    assert_eq!(top, vec![1, 2]);
}

#[test]
fn test_hundred_records_exact_match() {
    // One hundred distinct records; the probe is a verbatim copy of the
    // forty-second embedding, so the argmax lands there exactly.
    let count = 100usize;
    let mut records = Vec::new();
    let mut seed = 1u64;
    for i in 0..count {
        let mut s = String::new();
        for _ in 0..50 {
            seed = seed.wrapping_mul(6364136223846793005).wrapping_add(1442695040888963407);
            let c = (b'a' + ((seed >> 33) % 26) as u8) as char;
            s.push(c);
        }
        records.push(format!("{:02}{}", i, &s[..48]));
    }
    let mut embs = Vec::new();
    for i in 0..count {
        let mut e = vec![0u64; count];
        e[i] = 10;
        embs.push(e);
    }
    let ep = build_epoch(&records, &embs, count, params(), 1, 5, 6).unwrap();

    let probe: Vec<u64> = embs[42].clone();
    let adjusted = adjust_embedding(&probe, ep.emb_db.side_len());
    let (state, cipher) = probe_query(
        &adjusted,
        ep.emb_db.side_len(),
        SECRET_DIMENSION,
        ep.emb_seed,
        PLAIN_MOD,
    )
    .unwrap();
    let ans = tiptoe_rs::pir::answer_uncompressed(&ep.emb_db, &cipher).unwrap();
    let scores = recover_row(&state, &ep.emb_hint, &ans, &cipher, PLAIN_MOD).unwrap();
    let best = find_closest_index(&scores, ep.record_count, PLAIN_MOD).unwrap();
    assert_eq!(best, 42);

    // Fetch with a narrow error so the worst-case noise of one hundred
    // byte-cells stays inside the rounding budget.
    let side = ep.txt_db.side_len();
    let (state, cipher) =
        query_noise(best, side, SECRET_DIMENSION, ep.txt_seed, PLAIN_MOD, 1).unwrap();
    let ans = tiptoe_rs::pir::answer(&ep.txt_compressed, &cipher).unwrap();
    let row = recover_row(&state, &ep.txt_hint, &ans, &cipher, PLAIN_MOD).unwrap();
    let text = decode_fetched_record(&row).unwrap();
    assert_eq!(text, records[42]);
}

#[test]
fn test_empty_corpus_refused() {
    let records: Vec<String> = Vec::new();
    let embs: Vec<Vec<u64>> = Vec::new();
    let r = build_epoch(&records, &embs, DIM, params(), 1, 0, 0);
    assert_eq!(r.err(), Some(PirError::EmptyCorpus));

    let state = ServerState::new(params());
    let cfg = state.db_config();
    assert!(cfg.db_side_len.is_none());
    assert!(cfg.server_hints.is_none());
    assert_eq!(cfg.mod_power, MOD_POWER);
    let r = state.answer_embedding(&vec![0u64; 4]);
    assert_eq!(r.err(), Some(PirError::NotReady));
}

#[test]
fn test_refresh_epochs() {
    let mut state = ServerState::new(params());
    let set_a = vec!["alpha".to_string(), "beta".to_string()];
    let embs_a = vec![vec![10u64, 0, 0, 0], vec![0u64, 10, 0, 0]];
    state.refresh(&set_a, &embs_a, DIM, 101, 102).unwrap();
    let cfg_a = state.db_config();
    assert_eq!(cfg_a.epoch, Some(1));

    // Start a query against the first epoch and cache its hints.
    let ep_a_hint = state.current.as_ref().unwrap().txt_hint.data.clone();
    let ep_a_seed = state.current.as_ref().unwrap().txt_seed;
    let side_a = state.current.as_ref().unwrap().txt_db.side_len();
    let (st1, cipher1) =
        query(0, side_a, SECRET_DIMENSION, ep_a_seed, PLAIN_MOD).unwrap();
    let ans1 = state.answer_text(&cipher1).unwrap();

    // Refresh mid-stream: a new epoch replaces the old one.
    let set_b = vec!["gamma".to_string()];
    let embs_b = vec![vec![10u64, 0, 0, 0]];
    state.refresh(&set_b, &embs_b, DIM, 103, 104).unwrap();
    assert_eq!(state.db_config().epoch, Some(2));

    // The in-flight answer still recovers against the cached hints.
    let hint_matrix = tiptoe_rs::matrix::Matrix::from_data(ep_a_hint).unwrap();
    let row = recover_row(&st1, &hint_matrix, &ans1, &cipher1, PLAIN_MOD).unwrap();
    assert_eq!(decode_fetched_record(&row).unwrap(), "alpha");

    // A fresh query against the new epoch succeeds.
    let side_b = state.current.as_ref().unwrap().txt_db.side_len();
    let seed_b = state.current.as_ref().unwrap().txt_seed;
    let (st2, cipher2) =
        query(0, side_b, SECRET_DIMENSION, seed_b, PLAIN_MOD).unwrap();
    let ans2 = state.answer_text(&cipher2).unwrap();
    let hint_b = &state.current.as_ref().unwrap().txt_hint;
    let row2 = recover_row(&st2, hint_b, &ans2, &cipher2, PLAIN_MOD).unwrap();
    assert_eq!(decode_fetched_record(&row2).unwrap(), "gamma");

    // A failed refresh leaves the current epoch authoritative.
    let r = state.refresh(&Vec::new(), &Vec::new(), DIM, 0, 0);
    assert_eq!(r.err(), Some(PirError::EmptyCorpus));
    assert_eq!(state.db_config().epoch, Some(2));
}

#[test]
fn test_garble_and_retry() {
    // Oversized noise garbles a byte into an invalid UTF-8 lead; the
    // client sees the decode error and retries with fresh narrow errors.
    let records = vec!["hello world".to_string(), "x".to_string()];
    let embs = vec![vec![10u64, 0, 0, 0], vec![0u64, 10, 0, 0]];
    let ep = build_epoch(&records, &embs, DIM, params(), 1, 31, 32).unwrap();
    let side = ep.txt_db.side_len();

    // Craft a ciphertext whose error in the second column pushes the first
    // record's first byte past the ASCII range while the length survives.
    let a = expand_a(ep.txt_seed, side, SECRET_DIMENSION);
    let secret = gen_secret(SECRET_DIMENSION);
    let mut err = vec![0u64; side];
    err[1] = 6554;
    let mut onehot = vec![0u64; side];
    onehot[0] = 1;
    let delta = delta_for(PLAIN_MOD).unwrap();
    let cipher = encrypt(&a, &secret, &err, &onehot, delta, PLAIN_MOD);
    let state = ClientState::assemble(secret, 0);
    let ans = tiptoe_rs::pir::answer(&ep.txt_compressed, &cipher).unwrap();
    let row = recover_row(&state, &ep.txt_hint, &ans, &cipher, PLAIN_MOD).unwrap();
    assert_eq!(decode_fetched_record(&row).err(), Some(PirError::InvalidUtf8));

    // Retry with the standard narrow error distribution: exact recovery.
    let text = fetch_record(&ep, 0).unwrap();
    assert_eq!(text, "hello world");
}

#[test]
fn test_two_queries_same_epoch() {
    // Two independent queries against one epoch: each carries its own
    // ephemeral secret and both complete; neither disturbs the other.
    let records = vec!["alpha".to_string(), "beta".to_string()];
    let embs = vec![vec![10u64, 0, 0, 0], vec![0u64, 10, 0, 0]];
    let ep = build_epoch(&records, &embs, DIM, params(), 1, 51, 52).unwrap();
    let side = ep.txt_db.side_len();
    let (st1, c1) = query(0, side, SECRET_DIMENSION, ep.txt_seed, PLAIN_MOD).unwrap();
    let (st2, c2) = query(1, side, SECRET_DIMENSION, ep.txt_seed, PLAIN_MOD).unwrap();
    let a1 = tiptoe_rs::pir::answer(&ep.txt_compressed, &c1).unwrap();
    let a2 = tiptoe_rs::pir::answer(&ep.txt_compressed, &c2).unwrap();
    let r2 = recover_row(&st2, &ep.txt_hint, &a2, &c2, PLAIN_MOD).unwrap();
    let r1 = recover_row(&st1, &ep.txt_hint, &a1, &c1, PLAIN_MOD).unwrap();
    assert_eq!(decode_fetched_record(&r1).unwrap(), "alpha");
    assert_eq!(decode_fetched_record(&r2).unwrap(), "beta");
}

#[test]
fn test_quantize_extremes() {
    // Every signed coordinate reduces without overflow, extremes included.
    assert_eq!(quantize_coord(i64::MAX, PLAIN_MOD), (1 << 17) - 1);
    assert_eq!(quantize_coord(i64::MIN, PLAIN_MOD), 0);
    assert_eq!(quantize_coord(-1, PLAIN_MOD), (1 << 17) - 1);
    assert_eq!(quantize_coord(100, PLAIN_MOD), 100);
    assert_eq!(quantize_coord(-100, PLAIN_MOD), (1 << 17) - 100);
}

#[test]
fn test_adjust_embedding_pads_and_truncates() {
    let v = vec![5u64, 6, 7];
    assert_eq!(adjust_embedding(&v, 5), vec![5, 6, 7, 0, 0]);
    assert_eq!(adjust_embedding(&v, 2), vec![5, 6]);
    assert_eq!(adjust_embedding(&v, 3), vec![5, 6, 7]);
}

#[test]
fn test_selection_ties_break_low() {
    // Scores 5, 5, 3: the tie between the first two goes to index zero,
    // and a wrapped residue near the modulus counts as negative.
    let scores = vec![5u64, 5, 3, PLAIN_MOD - 1];
    let best = find_closest_index(&scores, 4, PLAIN_MOD).unwrap();
    assert_eq!(best, 0);
    let top = top_k_indices(&scores, 4, 3, PLAIN_MOD).unwrap();
    assert_eq!(top, vec![0, 1, 2]);
    let which = DatabaseType::EmbeddingDatabase;
    match which {
        DatabaseType::EmbeddingDatabase => {}
        DatabaseType::EncodingDatabase => panic!("wrong database"),
    }
}
