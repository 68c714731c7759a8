//! The transport payload shapes: matrices and parameters survive the trip.

use tiptoe_rs::matrix::Matrix;
use tiptoe_rs::params::PirParams;
use tiptoe_rs::wire::{
    deserialize_matrix, deserialize_params, serialize_matrix, serialize_params, MatrixResponse,
    QueryRequest, QueryResponse,
};

#[test]
fn test_matrix_wire_round_trip() {
    let m = Matrix::from_data(vec![vec![1u64, 2, 3], vec![4u64, 5, 6]]).unwrap();
    let resp = serialize_matrix(&m);
    assert_eq!(resp.rows, 2);
    assert_eq!(resp.cols, 3);
    assert_eq!(resp.data, vec![1, 2, 3, 4, 5, 6]);
    let back = deserialize_matrix(&resp).unwrap();
    assert_eq!(back.data, m.data);
}

#[test]
fn test_matrix_wire_rejects_bad_shape() {
    let resp = MatrixResponse { rows: 2, cols: 3, data: vec![1, 2, 3, 4, 5] };
    assert!(deserialize_matrix(&resp).is_err());
}

#[test]
fn test_params_wire_round_trip() {
    let params = PirParams::new(2048, 17).unwrap();
    let data = serialize_params(&params, 64);
    assert_eq!(data.p, 1u64 << 17);
    assert_eq!(data.q, 0x1_0000_0000);
    let (back, side) = deserialize_params(&data).unwrap();
    assert_eq!(back, params);
    assert_eq!(side, 64);
    let req = QueryRequest { query: vec![1, 2, 3] };
    let resp = QueryResponse { response: req.query.clone() };
    assert_eq!(resp.response, vec![1, 2, 3]);
}
