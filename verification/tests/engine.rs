//! The PIR engine end to end: parameter gating, hint determinism, the
//! compressed answer path, and full round trips at several moduli.

use tiptoe_rs::correctness::{score_self_test, self_test};
use tiptoe_rs::matrix::Matrix;
use tiptoe_rs::params::{PirError, PirParams};
use tiptoe_rs::pir::{
    answer, answer_uncompressed, delta_for, query, recover, recover_row, setup, setup_with_seed,
    Database,
};

#[test]
fn test_params_reject_large_modulus() {
    // The compressed path needs p < 2^21; 2^21 itself is a parameter error.
    assert_eq!(
        PirParams::new(2048, 21).unwrap_err(),
        PirError::ModulusTooLarge
    );
    assert!(PirParams::new(2048, 20).is_ok());
    assert!(PirParams::new(2048, 17).is_ok());
    assert!(delta_for(1u64 << 21).is_none());
    assert_eq!(delta_for(1u64 << 17), Some(1u64 << 15));
    // A non-power-of-two modulus is rejected too.
    assert!(delta_for((1u64 << 17) + 1).is_none());
    // A database cannot even be built at the rejected modulus.
    let m = Matrix::from_data(vec![vec![0u64]]).unwrap();
    assert_eq!(
        Database::from_matrix(m, 21).err(),
        Some(PirError::ModulusTooLarge)
    );
}

#[test]
fn test_query_rejects_bad_inputs() {
    // Index out of range.
    let r = query(5, 4, 16, 7, 1 << 17);
    assert_eq!(r.err(), Some(PirError::IndexOutOfRange));
    // Modulus outside the regime.
    let r = query(0, 4, 16, 7, 1 << 21);
    assert_eq!(r.err(), Some(PirError::ModulusTooLarge));
}

#[test]
fn test_self_test_verified_pipeline() {
    // The contract of self_test proves it can only return Ok(true).
    assert_eq!(self_test(16, 8, 32), Ok(true));
    assert_eq!(self_test(1, 8, 4), Ok(true));
    // And the scoring round: recovered scores are exact dot products.
    assert_eq!(score_self_test(16, 8, 32), Ok(true));
}

#[test]
fn test_setup_deterministic() {
    let rows = vec![vec![1u64, 2], vec![3u64, 4]];
    let m = Matrix::from_data(rows).unwrap();
    let db = Database::from_matrix(m, 8).unwrap();
    let (s1, h1) = setup_with_seed(&db, 16, 42);
    let (s2, h2) = setup_with_seed(&db, 16, 42);
    assert_eq!(s1, s2);
    assert_eq!(h1.data, h2.data);
    let (_, h3) = setup_with_seed(&db, 16, 43);
    assert_ne!(h1.data, h3.data);
}

#[test]
fn test_compressed_answer_matches_uncompressed() {
    let db = Database::new_random(9, 8).unwrap();
    let cdb = db.compress().unwrap();
    let q: Vec<u64> = (0..9u64).map(|i| i * 0x0101_0101 + 7).collect();
    let a1 = answer_uncompressed(&db, &q).unwrap();
    let a2 = answer(&cdb, &q).unwrap();
    assert_eq!(a1, a2);
}

#[test]
fn test_row_round_trip() {
    // A small database inside the proved noise budget: every cell of the
    // recovered column must match the database column exactly.
    let side = 8usize;
    let mod_power = 8u64;
    let n = 32usize;
    let db = Database::new_random(side, mod_power).unwrap();
    let (seed, hint) = setup(&db, n);
    let plain_mod = 1u64 << mod_power;
    for index in 0..side {
        let (state, cipher) = query(index, side, n, seed, plain_mod).unwrap();
        let ans = answer_uncompressed(&db, &cipher).unwrap();
        let row = recover_row(&state, &hint, &ans, &cipher, plain_mod).unwrap();
        for j in 0..side {
            assert_eq!(row[j], db.matrix.data[j][index]);
        }
        let cell = recover(&state, &hint, &ans, &cipher, plain_mod).unwrap();
        assert_eq!(cell, db.matrix.data[index][index]);
    }
}

#[test]
fn test_round_trip_both_moduli() {
    // Small plaintexts keep the worst-case noise under half a rounding
    // step at p = 2^17 and even at p = 2^20, so both decrypt exactly.
    for &(mod_power, cell_cap) in &[(17u64, 100u64), (20u64, 30u64)] {
        let side = 3usize;
        let n = 32usize;
        let mut rows = Vec::new();
        for j in 0..side {
            let mut row = Vec::new();
            for l in 0..side {
                row.push(((j * 3 + l) as u64) % cell_cap);
            }
            rows.push(row);
        }
        let m = Matrix::from_data(rows).unwrap();
        let db = Database::from_matrix(m, mod_power).unwrap();
        let (seed, hint) = setup(&db, n);
        let plain_mod = 1u64 << mod_power;
        let (state, cipher) = query(1, side, n, seed, plain_mod).unwrap();
        let ans = answer_uncompressed(&db, &cipher).unwrap();
        let row = recover_row(&state, &hint, &ans, &cipher, plain_mod).unwrap();
        for j in 0..side {
            assert_eq!(row[j], db.matrix.data[j][1]);
        }
    }
}
