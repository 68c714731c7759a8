//! The byte-packing string codec: a record is laid out as one cell holding
//! its byte length followed by cells each packing up to `group` bytes
//! little-endian. The standard layout packs eight bytes per cell; a
//! narrower group keeps every cell inside a small plaintext modulus so a
//! packed record can ride through the PIR engine unchanged.

use vstd::prelude::*;
use vstd::arithmetic::div_mod::{
    lemma_div_by_multiple, lemma_div_denominator, lemma_fundamental_div_mod,
    lemma_fundamental_div_mod_converse_div, lemma_mod_bound, lemma_mod_multiples_vanish,
    lemma_small_mod,
};

use vstd::slice::slice_to_vec;
use vstd::utf8::{decode_utf8, encode_utf8, encode_utf8_decode_utf8, encode_utf8_valid_utf8,
    valid_utf8};

use crate::matrix::Matrix;
use crate::params::PirError;

verus! {

/// `256^k`.
pub open spec fn pow256(k: int) -> int
    decreases k,
{
    if k <= 0 {
        1
    } else {
        256 * pow256(k - 1)
    }
}

/// The little-endian value of a byte string: byte `k` has weight `256^k`.
pub open spec fn pack_cell(b: Seq<u8>) -> int
    decreases b.len(),
{
    if b.len() == 0 {
        0
    } else {
        b[0] + 256 * pack_cell(b.drop_first())
    }
}

/// Chunk `c` of a byte string under a group of `g` bytes per cell.
pub open spec fn chunk(b: Seq<u8>, g: int, c: int) -> Seq<u8> {
    b.subrange(g * c, if g * c + g <= b.len() {
        g * c + g
    } else {
        b.len() as int
    })
}

/// The number of cells a byte string of length `n` encodes to.
pub open spec fn encoded_len(n: int, g: int) -> int {
    1 + (n + g - 1) / g
}

/// The cell encoding of a byte string: its length, then its chunks packed
/// little-endian.
pub open spec fn encoded_with(b: Seq<u8>, g: int) -> Seq<u64> {
    Seq::new(
        encoded_len(b.len() as int, g) as nat,
        |t: int|
            if t == 0 {
                b.len() as u64
            } else {
                pack_cell(chunk(b, g, t - 1)) as u64
            },
    )
}

/// The standard eight-byte-per-cell encoding.
pub open spec fn encoded(b: Seq<u8>) -> Seq<u64> {
    encoded_with(b, 8)
}

/// Byte `k` of a packed cell.
pub open spec fn byte_of(cell: u64, k: int) -> u8 {
    (((cell as int) / pow256(k)) % 256) as u8
}

/// Whether a cell sequence is long enough to decode: the length prefix
/// must be covered by the cells that follow. The empty sequence decodes to
/// the empty byte string.
pub open spec fn decode_ok(cells: Seq<u64>, g: int) -> bool {
    cells.len() == 0 || cells.len() >= encoded_len(cells[0] as int, g)
}

/// The bytes a cell sequence decodes to.
pub open spec fn decoded_bytes(cells: Seq<u64>, g: int) -> Seq<u8> {
    if cells.len() == 0 {
        Seq::empty()
    } else {
        Seq::new(cells[0] as nat, |i: int| byte_of(cells[1 + i / g], i % g))
    }
}

/// A packed cell is bounded by `256^len`.
pub proof fn lemma_pack_cell_bound(b: Seq<u8>)
    ensures
        0 <= pack_cell(b) < pow256(b.len() as int),
    decreases b.len(),
{
    if b.len() == 0 {
    } else {
        lemma_pack_cell_bound(b.drop_first());
        assert(b[0] + 256 * pack_cell(b.drop_first()) < 256 * pow256(b.len() - 1))
            by (nonlinear_arith)
            requires
                b[0] < 256,
                0 <= pack_cell(b.drop_first()) <= pow256(b.len() - 1) - 1,
        ;
    }
}

/// `pow256` is positive and monotone.
pub proof fn lemma_pow256_pos(k: int)
    ensures
        pow256(k) >= 1,
    decreases (if k >= 0 { k } else { 0 }),
{
    if k > 0 {
        lemma_pow256_pos(k - 1);
    }
}

/// `pow256` is monotone.
pub proof fn lemma_pow256_mono(j: int, k: int)
    requires
        j <= k,
    ensures
        pow256(j) <= pow256(k),
    decreases k - j,
{
    if j < k {
        lemma_pow256_mono(j, k - 1);
        lemma_pow256_pos(k - 1);
        if k > 0 {
            assert(pow256(k) == 256 * pow256(k - 1));
            assert(256 * pow256(k - 1) >= pow256(k - 1)) by (nonlinear_arith)
                requires
                    pow256(k - 1) >= 1,
            ;
        }
    }
}

/// `pow256` is positive and at most `2^64` for `k <= 8`.
pub proof fn lemma_pow256_bounds(k: int)
    ensures
        pow256(k) >= 1,
        k <= 7 ==> pow256(k) <= 0x100_0000_0000_0000,
        k <= 8 ==> pow256(k) <= 0x1_0000_0000_0000_0000,
{
    lemma_pow256_pos(k);
    assert(pow256(0) == 1);
    assert(pow256(1) == 256);
    assert(pow256(2) == 0x1_0000);
    assert(pow256(3) == 0x100_0000);
    assert(pow256(4) == 0x1_0000_0000);
    assert(pow256(5) == 0x100_0000_0000);
    assert(pow256(6) == 0x1_0000_0000_0000);
    assert(pow256(7) == 0x100_0000_0000_0000);
    assert(pow256(8) == 0x1_0000_0000_0000_0000);
}

/// Appending a byte adds it at the top weight.
pub proof fn lemma_pack_cell_push(b: Seq<u8>, x: u8)
    ensures
        pack_cell(b.push(x)) == pack_cell(b) + (x as int) * pow256(b.len() as int),
    decreases b.len(),
{
    if b.len() == 0 {
        assert(b.push(x).len() == 1);
        assert(b.push(x)[0] == x);
        assert(b.push(x).drop_first() =~= Seq::<u8>::empty());
        assert(pack_cell(Seq::<u8>::empty()) == 0);
        assert(pack_cell(b.push(x)) == x + 256 * pack_cell(b.push(x).drop_first()));
        assert(pow256(0) == 1);
    } else {
        assert(b.push(x).drop_first() =~= b.drop_first().push(x));
        lemma_pack_cell_push(b.drop_first(), x);
        assert(256 * (pack_cell(b.drop_first()) + (x as int) * pow256(b.len() - 1))
            == 256 * pack_cell(b.drop_first()) + (x as int) * (256 * pow256(b.len() - 1)))
            by (nonlinear_arith);
    }
}

/// Extracting byte `k` from a packed cell returns the original byte.
pub proof fn lemma_pack_cell_extract(b: Seq<u8>, k: int)
    requires
        0 <= k < b.len() <= 8,
    ensures
        byte_of((pack_cell(b) as u64), k) == b[k],
    decreases k,
{
    lemma_pack_cell_bound(b);
    lemma_pow256_bounds(b.len() as int);
    let p = pack_cell(b);
    if k == 0 {
        assert(p / pow256(0) == p) by {
            assert(pow256(0) == 1);
        }
        assert(p % 256 == b[0]) by {
            lemma_mod_multiples_vanish(pack_cell(b.drop_first()), b[0] as int, 256);
            lemma_small_mod(b[0] as nat, 256);
        }
    } else {
        let rest = pack_cell(b.drop_first());
        assert(p / 256 == rest) by {
            lemma_fundamental_div_mod_converse_div(p, 256, rest, b[0] as int);
        }
        assert(p / pow256(k) == rest / pow256(k - 1)) by {
            lemma_pow256_bounds(k - 1);
            lemma_div_denominator(p, 256, pow256(k - 1));
        }
        lemma_pack_cell_extract(b.drop_first(), k - 1);
        lemma_pack_cell_bound(b.drop_first());
        lemma_pow256_bounds(b.drop_first().len() as int);
        assert(b.drop_first()[k - 1] == b[k]);
    }
}

/// Round trip of the cell codec: decoding an encoding returns the original
/// byte string, for any group of one to eight bytes per cell.
pub proof fn lemma_codec_round_trip(b: Seq<u8>, g: int)
    requires
        1 <= g <= 8,
        b.len() <= u64::MAX,
    ensures
        decode_ok(encoded_with(b, g), g),
        decoded_bytes(encoded_with(b, g), g) =~= b,
{
    let cells = encoded_with(b, g);
    if b.len() == 0 {
        assert(decoded_bytes(cells, g) =~= b);
    } else {
        assert(cells[0] == b.len() as u64);
        assert forall|i: int| 0 <= i < b.len() implies decoded_bytes(cells, g)[i] == b[i] by {
            let c = i / g;
            let k = i % g;
            lemma_fundamental_div_mod(i, g);
            lemma_mod_bound(i, g);
            assert(0 <= c) by (nonlinear_arith)
                requires
                    i == g * c + k,
                    0 <= i,
                    0 <= k < g,
            ;
            assert(c < encoded_len(b.len() as int, g) - 1) by {
                let len = b.len() as int;
                assert(g * c + k < len);
                assert(g * (c + 1) <= len + g - 1) by (nonlinear_arith)
                    requires
                        g * c + k < len,
                        0 <= k,
                        1 <= g,
                ;
                vstd::arithmetic::div_mod::lemma_div_is_ordered(g * (c + 1), len + g - 1, g);
                lemma_div_by_multiple(c + 1, g);
                assert((c + 1) * g == g * (c + 1)) by (nonlinear_arith);
            }
            assert(cells[1 + c] == pack_cell(chunk(b, g, c)) as u64);
            let ch = chunk(b, g, c);
            assert(k < ch.len());
            lemma_pack_cell_bound(ch);
            lemma_pow256_bounds(ch.len() as int);
            lemma_pack_cell_extract(ch, k);
            assert(ch[k] == b[g * c + k]);
        }
    }
}

/// Packs a byte string into cells: the length, then `g` bytes per cell.
pub fn encode_bytes(b: &Vec<u8>, g: usize) -> (r: Vec<u64>)
    requires
        1 <= g <= 8,
        b@.len() <= 0x0FFF_FFFF,
    ensures
        r@ == encoded_with(b@, g as int),
{
    let len = b.len();
    let mut out: Vec<u64> = Vec::new();
    out.push(len as u64);
    let mut pos: usize = 0;
    let ghost mut c: int = 0;
    while pos < len
        invariant
            1 <= g <= 8,
            len == b@.len(),
            len <= 0x0FFF_FFFF,
            pos == g * c,
            pos <= len + g,
            0 <= c,
            c > 0 ==> g * (c - 1) < len,
            out@.len() == 1 + c,
            out@[0] == len as u64,
            forall|t: int|
                1 <= t < out@.len()
                    ==> #[trigger] out@[t] == pack_cell(chunk(b@, g as int, t - 1)) as u64,
        decreases len + g - pos,
    {
        let end = if pos + g <= len {
            pos + g
        } else {
            len
        };
        let mut cell: u64 = 0;
        let mut mult: u64 = 1;
        let mut k: usize = pos;
        while k < end
            invariant
                pos <= k <= end <= len,
                len == b@.len(),
                1 <= end - pos <= g <= 8,
                k < end ==> mult == pow256((k - pos) as int),
                cell == pack_cell(b@.subrange(pos as int, k as int)),
            decreases end - k,
        {
            let ghost pre = b@.subrange(pos as int, k as int);
            proof {
                lemma_pack_cell_bound(pre);
                lemma_pow256_bounds((k - pos) as int);
                lemma_pow256_bounds((k + 1 - pos) as int);
                lemma_pack_cell_push(pre, b@[k as int]);
                assert(pre.push(b@[k as int]) =~= b@.subrange(pos as int, k + 1));
                assert(pack_cell(pre) + (b@[k as int] as int) * pow256((k - pos) as int)
                    < pow256((k + 1 - pos) as int)) by (nonlinear_arith)
                    requires
                        0 <= pack_cell(pre) < pow256((k - pos) as int),
                        b@[k as int] < 256,
                        pow256((k + 1 - pos) as int) == 256 * pow256((k - pos) as int),
                        pow256((k - pos) as int) >= 1,
                ;
            }
            cell = cell + (b[k] as u64) * mult;
            if k + 1 < end {
                proof {
                    lemma_pow256_bounds((k + 1 - pos) as int);
                    assert(mult * 256 == pow256((k + 1 - pos) as int));
                }
                mult = mult * 256;
            }
            k += 1;
        }
        proof {
            assert(b@.subrange(pos as int, end as int) =~= chunk(b@, g as int, c));
        }
        out.push(cell);
        proof {
            c = c + 1;
            assert(g * c == g * (c - 1) + g) by (nonlinear_arith);
        }
        pos = pos + g;
    }
    proof {
        let gi = g as int;
        let li = len as int;
        if len == 0 {
            assert((0 + gi - 1) / gi == 0) by {
                lemma_small_mod((gi - 1) as nat, gi as nat);
                lemma_fundamental_div_mod_converse_div(gi - 1, gi, 0, gi - 1);
            }
        } else {
            assert((li + gi - 1) / gi == c) by {
                assert(gi * (c - 1) < li);
                assert(gi * c == gi * (c - 1) + gi) by (nonlinear_arith);
                assert(c * gi == gi * c) by (nonlinear_arith);
                lemma_fundamental_div_mod_converse_div(li + gi - 1, gi, c, li + gi - 1 - gi * c);
            }
        }
        assert(out@ =~= encoded_with(b@, g as int));
    }
    out
}

/// Extracts byte `k` of a packed cell by repeated division.
pub(crate) fn extract_byte(cell: u64, k: usize) -> (r: u8)
    requires
        k <= 7,
    ensures
        r == byte_of(cell, k as int),
{
    let mut v: u64 = cell;
    let mut t: usize = 0;
    while t < k
        invariant
            t <= k <= 7,
            v == (cell as int) / pow256(t as int),
        decreases k - t,
    {
        proof {
            lemma_pow256_bounds(t as int);
            lemma_div_denominator(cell as int, pow256(t as int), 256);
            assert(pow256(t as int) * 256 == pow256(t + 1)) by (nonlinear_arith)
                requires
                    pow256(t + 1) == 256 * pow256(t as int),
            ;
        }
        v = v / 256;
        t += 1;
    }
    (v % 256) as u8
}

/// Unpacks a cell sequence: reads the length prefix and extracts that many
/// bytes, `g` per cell. Rejects a sequence with too few cells.
pub fn decode_bytes(cells: &Vec<u64>, g: usize) -> (r: Result<Vec<u8>, PirError>)
    requires
        1 <= g <= 8,
        cells@.len() <= 0x200_0000,
    ensures
        match r {
            Ok(bytes) => decode_ok(cells@, g as int) && bytes@ == decoded_bytes(
                cells@,
                g as int,
            ),
            Err(e) => e == PirError::DimensionMismatch && !decode_ok(cells@, g as int),
        },
{
    if cells.len() == 0 {
        let empty: Vec<u8> = Vec::new();
        proof {
            assert(empty@ =~= decoded_bytes(cells@, g as int));
        }
        return Ok(empty);
    }
    let len_u64 = cells[0];
    if len_u64 >= 0x1000_0000 {
        proof {
            let gi = g as int;
            let li = len_u64 as int;
            vstd::arithmetic::div_mod::lemma_div_is_ordered(li, li + gi - 1, gi);
            vstd::arithmetic::div_mod::lemma_div_is_ordered_by_denominator(li, gi, 8);
            vstd::arithmetic::div_mod::lemma_div_is_ordered(0x1000_0000, li, 8);
            assert(0x1000_0000int / 8 == 0x200_0000);
        }
        return Err(PirError::DimensionMismatch);
    }
    let len = len_u64 as usize;
    let needed = 1 + (len + g - 1) / g;
    if cells.len() < needed {
        return Err(PirError::DimensionMismatch);
    }
    let mut out: Vec<u8> = Vec::new();
    let mut i: usize = 0;
    while i < len
        invariant
            i <= len,
            1 <= g <= 8,
            len == cells@[0],
            cells@.len() as int >= 1 + ((len as int) + (g as int) - 1) / (g as int),
            out@.len() == i,
            forall|t: int|
                0 <= t < i
                    ==> #[trigger] out@[t] == byte_of(cells@[1 + t / (g as int)], t % (g as int)),
        decreases len - i,
    {
        let c = 1 + i / g;
        let k = i % g;
        proof {
            let gi = g as int;
            let ii = i as int;
            lemma_mod_bound(ii, gi);
            lemma_fundamental_div_mod(ii, gi);
            assert(gi * (ii / gi) + 1 <= len) by (nonlinear_arith)
                requires
                    gi * (ii / gi) + ii % gi == ii,
                    ii < len,
                    0 <= ii % gi,
            ;
            assert(ii / gi < (len + gi - 1) / gi) by {
                assert(gi * (ii / gi + 1) == gi * (ii / gi) + gi) by (nonlinear_arith);
                vstd::arithmetic::div_mod::lemma_div_is_ordered(
                    gi * (ii / gi + 1),
                    len + gi - 1,
                    gi,
                );
                lemma_div_by_multiple(ii / gi + 1, gi);
                assert((ii / gi + 1) * gi == gi * (ii / gi + 1)) by (nonlinear_arith);
            }
        }
        let byte = extract_byte(cells[c], k);
        out.push(byte);
        i += 1;
    }
    proof {
        assert(out@ =~= decoded_bytes(cells@, g as int));
    }
    Ok(out)
}

/// A record encoded as length-prefixed packed cells, eight bytes per cell.
pub struct EncodedString(pub Vec<u64>);

/// Relies on `String::from_utf8`: it succeeds exactly on valid UTF-8 input
/// and returns the string those bytes encode.
#[verifier::external_body]
pub(crate) fn bytes_to_string(v: Vec<u8>) -> (r: Option<String>)
    ensures
        r is Some <==> valid_utf8(v@),
        r is Some ==> r.unwrap()@ == decode_utf8(v@),
{
    String::from_utf8(v).ok()
}

/// Decodes a record's cell sequence into text, `g` bytes per cell.
/// Fails with a dimension error when cells are missing and with a UTF-8
/// error when the bytes are garbled, the signature of decryption noise.
pub fn decode_text(cells: &Vec<u64>, g: usize) -> (r: Result<String, PirError>)
    requires
        1 <= g <= 8,
        cells@.len() <= 0x200_0000,
    ensures
        match r {
            Ok(s) => {
                &&& decode_ok(cells@, g as int)
                &&& valid_utf8(decoded_bytes(cells@, g as int))
                &&& s@ == decode_utf8(decoded_bytes(cells@, g as int))
            },
            Err(e) => {
                ||| (e == PirError::DimensionMismatch && !decode_ok(cells@, g as int))
                ||| (e == PirError::InvalidUtf8 && decode_ok(cells@, g as int) && !valid_utf8(
                    decoded_bytes(cells@, g as int),
                ))
            },
        },
{
    let bytes = decode_bytes(cells, g)?;
    match bytes_to_string(bytes) {
        Some(s) => Ok(s),
        None => Err(PirError::InvalidUtf8),
    }
}

impl EncodedString {
    /// Encodes a string's UTF-8 bytes, eight per cell after the length.
    pub fn encode(s: &str) -> (r: EncodedString)
        requires
            s@.len() <= 0x1FF_FFFF,
        ensures
            r.0@ == encoded(encode_utf8(s@)),
    {
        proof {
            crate::encoding::lemma_utf8_len(s@);
        }
        let bytes = slice_to_vec(s.as_bytes());
        EncodedString(encode_bytes(&bytes, 8))
    }

    /// Decodes back to a string. Fails with a dimension error when cells
    /// are missing and with a UTF-8 error when the bytes are garbled, the
    /// signature of decryption noise.
    pub fn decode(&self) -> (r: Result<String, PirError>)
        requires
            self.0@.len() <= 0x200_0000,
        ensures
            match r {
                Ok(s) => {
                    &&& decode_ok(self.0@, 8)
                    &&& valid_utf8(decoded_bytes(self.0@, 8))
                    &&& s@ == decode_utf8(decoded_bytes(self.0@, 8))
                },
                Err(e) => {
                    ||| (e == PirError::DimensionMismatch && !decode_ok(self.0@, 8))
                    ||| (e == PirError::InvalidUtf8 && decode_ok(self.0@, 8) && !valid_utf8(
                        decoded_bytes(self.0@, 8),
                    ))
                },
            },
    {
        decode_text(&self.0, 8)
    }
}

/// The UTF-8 encoding of a bounded character sequence is at most four
/// bytes per character.
pub proof fn lemma_utf8_len(chars: Seq<char>)
    ensures
        encode_utf8(chars).len() <= 4 * chars.len(),
    decreases chars.len(),
{
    if chars.len() > 0 {
        lemma_utf8_len(chars.drop_first());
    }
}

/// Round trip through the string codec: encoding a string's UTF-8 bytes
/// and decoding them returns the same character sequence.
pub proof fn lemma_string_round_trip(s: Seq<char>)
    requires
        s.len() <= 0x1FF_FFFF,
    ensures
        decode_ok(encoded(encode_utf8(s)), 8),
        valid_utf8(decoded_bytes(encoded(encode_utf8(s)), 8)),
        decode_utf8(decoded_bytes(encoded(encode_utf8(s)), 8)) == s,
{
    lemma_utf8_len(s);
    lemma_codec_round_trip(encode_utf8(s), 8);
    encode_utf8_valid_utf8(s);
    encode_utf8_decode_utf8(s);
}

/// The rows of a vector of byte vectors, as a sequence of sequences.
pub open spec fn bytes_rows(data: Seq<Vec<u8>>) -> Seq<Seq<u8>> {
    Seq::new(data.len(), |i: int| data[i]@)
}

/// The widest cell encoding among the first `k` records.
pub open spec fn max_enc_len(recs: Seq<Seq<u8>>, g: int, k: int) -> int
    decreases k,
{
    if k <= 0 {
        0
    } else {
        let prev = max_enc_len(recs, g, k - 1);
        let cur = encoded_len(recs[k - 1].len() as int, g);
        if cur > prev {
            cur
        } else {
            prev
        }
    }
}

/// The side length of the square matrix that packs the records: large
/// enough for one record per column and for the longest encoding.
pub open spec fn packed_side(recs: Seq<Seq<u8>>, g: int) -> int {
    let w = max_enc_len(recs, g, recs.len() as int);
    if recs.len() > w {
        recs.len() as int
    } else {
        w
    }
}

/// The square matrix that stores record `r`'s cell encoding down column
/// `r`, zero elsewhere.
pub open spec fn packed_matrix(recs: Seq<Seq<u8>>, g: int) -> Seq<Seq<u64>> {
    let side = packed_side(recs, g);
    Seq::new(
        side as nat,
        |j: int|
            Seq::new(
                side as nat,
                |r: int|
                    if r < recs.len() && j < encoded_with(recs[r], g).len() {
                        encoded_with(recs[r], g)[j]
                    } else {
                        0u64
                    },
            ),
    )
}

/// The first `k` cells of column `r` of a row-major cell matrix.
pub open spec fn column_prefix(m: Seq<Seq<u64>>, r: int, k: int) -> Seq<u64> {
    Seq::new(k as nat, |j: int| m[j][r])
}

/// The cells that hold record `r` in a packed matrix: the column cut to
/// the length its prefix cell announces.
pub open spec fn record_cells(m: Seq<Seq<u64>>, r: int) -> Seq<u64> {
    column_prefix(m, r, encoded_len(m[0][r] as int, 8))
}

/// Every record's encoding fits the maximum.
pub proof fn lemma_max_enc_len(recs: Seq<Seq<u8>>, g: int, k: int, r: int)
    requires
        0 <= r < k,
    ensures
        encoded_len(recs[r].len() as int, g) <= max_enc_len(recs, g, k),
        max_enc_len(recs, g, k - 1) <= max_enc_len(recs, g, k),
    decreases k,
{
    if r < k - 1 {
        lemma_max_enc_len(recs, g, k - 1, r);
    }
}

/// Column `r` of the packed matrix, cut to the record's encoded length,
/// is exactly the record's cell encoding; decoding it returns the record.
pub proof fn lemma_packed_column(recs: Seq<Seq<u8>>, g: int, r: int)
    requires
        1 <= g <= 8,
        0 <= r < recs.len(),
        recs[r].len() <= u64::MAX,
    ensures
        column_prefix(packed_matrix(recs, g), r, encoded_len(recs[r].len() as int, g))
            =~= encoded_with(recs[r], g),
        decode_ok(
            column_prefix(packed_matrix(recs, g), r, encoded_len(recs[r].len() as int, g)),
            g,
        ),
        decoded_bytes(
            column_prefix(packed_matrix(recs, g), r, encoded_len(recs[r].len() as int, g)),
            g,
        ) =~= recs[r],
{
    let el = encoded_len(recs[r].len() as int, g);
    let m = packed_matrix(recs, g);
    assert(el >= 1) by {
        vstd::arithmetic::div_mod::lemma_div_pos_is_pos(recs[r].len() + g - 1, g);
    }
    lemma_max_enc_len(recs, g, recs.len() as int, r);
    assert forall|j: int| 0 <= j < el implies column_prefix(m, r, el)[j] == encoded_with(
        recs[r],
        g,
    )[j] by {
        assert(m[j][r] == encoded_with(recs[r], g)[j]);
    }
    lemma_codec_round_trip(recs[r], g);
    assert(column_prefix(m, r, el) =~= encoded_with(recs[r], g));
}

/// Builds the square cell matrix that packs the records column-wise, `g`
/// bytes per cell.
pub fn build_packed(recs: &Vec<Vec<u8>>, g: usize) -> (r: Matrix)
    requires
        1 <= g <= 8,
        recs@.len() <= 0xFFFF,
        forall|t: int| 0 <= t < recs@.len() ==> (#[trigger] recs@[t]@).len() <= 0x0FFF_FFFF,
    ensures
        r.wf(),
        r.nrows == r.ncols,
        r.nrows == packed_side(bytes_rows(recs@), g as int),
        r@ == packed_matrix(bytes_rows(recs@), g as int),
{
    let ghost brecs = bytes_rows(recs@);
    let count = recs.len();
    let mut encs: Vec<Vec<u64>> = Vec::new();
    let mut w: usize = 0;
    let mut t: usize = 0;
    while t < count
        invariant
            t <= count,
            count == recs@.len(),
            1 <= g <= 8,
            brecs == bytes_rows(recs@),
            forall|i: int| 0 <= i < count ==> (#[trigger] recs@[i]@).len() <= 0x0FFF_FFFF,
            encs@.len() == t,
            forall|i: int| #![trigger encs@[i]]
                0 <= i < t ==> encs@[i]@ == encoded_with(brecs[i], g as int),
            w == max_enc_len(brecs, g as int, t as int),
            w <= 0x1000_0007,
        decreases count - t,
    {
        proof {
            assert(brecs[t as int] == recs@[t as int]@);
        }
        let cells = encode_bytes(&recs[t], g);
        proof {
            assert(cells@.len() == encoded_len(brecs[t as int].len() as int, g as int));
            assert(encoded_len(brecs[t as int].len() as int, g as int) <= 0x1000_0007) by {
                vstd::arithmetic::div_mod::lemma_div_is_ordered_by_denominator(
                    brecs[t as int].len() + g - 1,
                    1,
                    g as int,
                );
                vstd::arithmetic::div_mod::lemma_div_basics(
                    brecs[t as int].len() + g - 1,
                );
            }
        }
        if cells.len() > w {
            w = cells.len();
        }
        encs.push(cells);
        t += 1;
    }
    let side = if count > w {
        count
    } else {
        w
    };
    proof {
        assert(side == packed_side(brecs, g as int));
    }
    let mut data: Vec<Vec<u64>> = Vec::new();
    let mut j: usize = 0;
    while j < side
        invariant
            j <= side,
            count == recs@.len(),
            count <= side,
            encs@.len() == count,
            forall|i: int| #![trigger encs@[i]]
                0 <= i < count ==> encs@[i]@ == encoded_with(brecs[i], g as int),
            data@.len() == j,
            forall|u: int| #![trigger data@[u]] 0 <= u < j ==> data@[u]@.len() == side,
            forall|u: int, v: int|
                #![trigger data@[u]@[v]]
                0 <= u < j && 0 <= v < side
                    ==> data@[u]@[v] == (if v < count && u < encoded_with(
                        brecs[v],
                        g as int,
                    ).len() {
                        encoded_with(brecs[v], g as int)[u]
                    } else {
                        0u64
                    }),
        decreases side - j,
    {
        let mut row: Vec<u64> = Vec::new();
        let mut rr: usize = 0;
        while rr < side
            invariant
                rr <= side,
                j < side,
                count <= side,
                count == recs@.len(),
                encs@.len() == count,
                forall|i: int| #![trigger encs@[i]]
                    0 <= i < count ==> encs@[i]@ == encoded_with(brecs[i], g as int),
                row@.len() == rr,
                forall|v: int|
                    0 <= v < rr
                        ==> #[trigger] row@[v] == (if v < count && (j as int) < encoded_with(
                            brecs[v],
                            g as int,
                        ).len() {
                            encoded_with(brecs[v], g as int)[j as int]
                        } else {
                            0u64
                        }),
            decreases side - rr,
        {
            let cell = if rr < count && j < encs[rr].len() {
                encs[rr][j]
            } else {
                0u64
            };
            row.push(cell);
            rr += 1;
        }
        data.push(row);
        j += 1;
    }
    let m = Matrix { data, nrows: side, ncols: side };
    proof {
        assert forall|u: int| 0 <= u < side implies #[trigger] m@[u]
            == packed_matrix(brecs, g as int)[u] by {
            assert(m@[u] == m.data@[u]@);
            assert(m@[u] =~= packed_matrix(brecs, g as int)[u]);
        }
        assert(m@ =~= packed_matrix(brecs, g as int));
    }
    m
}

/// Records packed one per column of a square cell matrix, eight bytes per
/// cell after each column's length prefix.
pub struct StringMatrix {
    /// The square cell matrix.
    pub data: Matrix,
    /// How many leading columns hold records.
    pub num_strings: usize,
}

impl StringMatrix {
    /// The records a string sequence stands for: each string's UTF-8 bytes.
    pub open spec fn records_of(strings: Seq<String>) -> Seq<Seq<u8>> {
        strings.map_values(|s: String| encode_utf8(s@))
    }

    /// Packs the strings into a square matrix, one record per column.
    pub fn new(strings: &Vec<String>) -> (r: StringMatrix)
        requires
            strings@.len() <= 0xFFFF,
            forall|t: int| 0 <= t < strings@.len() ==> (#[trigger] strings@[t]@).len()
                <= 0x1FF_FFFF,
        ensures
            r.data.wf(),
            r.data.nrows == r.data.ncols,
            r.data@ == packed_matrix(Self::records_of(strings@), 8),
            r.num_strings == strings@.len(),
    {
        let count = strings.len();
        let mut recs: Vec<Vec<u8>> = Vec::new();
        let mut t: usize = 0;
        while t < count
            invariant
                t <= count,
                count == strings@.len(),
                forall|i: int| 0 <= i < count ==> (#[trigger] strings@[i]@).len() <= 0x1FF_FFFF,
                recs@.len() == t,
                forall|i: int| #![trigger recs@[i]]
                    0 <= i < t ==> recs@[i]@ == encode_utf8(strings@[i]@),
                forall|i: int| #![trigger recs@[i]]
                    0 <= i < t ==> recs@[i]@.len() <= 0x7FF_FFFC,
            decreases count - t,
        {
            proof {
                lemma_utf8_len(strings@[t as int]@);
            }
            let bytes = slice_to_vec(strings[t].as_str().as_bytes());
            recs.push(bytes);
            t += 1;
        }
        proof {
            assert(bytes_rows(recs@) =~= Self::records_of(strings@));
        }
        let data = build_packed(&recs, 8);
        StringMatrix { data, num_strings: count }
    }

    /// Unpacks every record column back into a string: succeeds exactly
    /// when every record's length prefix fits the matrix and its bytes
    /// decode as UTF-8.
    pub fn to_strings(&self) -> (r: Result<Vec<String>, PirError>)
        requires
            self.data.wf(),
            self.data.nrows == self.data.ncols,
            self.num_strings <= self.data.nrows,
            self.data.nrows <= 0xFF_FFFF,
        ensures
            match r {
                Ok(v) => {
                    &&& v@.len() == self.num_strings
                    &&& forall|t: int|
                        0 <= t < self.num_strings ==> #[trigger] self.data@[0][t] < 0x800_0000
                    &&& forall|t: int|
                        #![trigger v@[t]]
                        0 <= t < v@.len() ==> {
                            &&& encoded_len(self.data@[0][t] as int, 8) <= self.data.nrows
                            &&& decode_ok(record_cells(self.data@, t), 8)
                            &&& valid_utf8(decoded_bytes(record_cells(self.data@, t), 8))
                            &&& v@[t]@ == decode_utf8(decoded_bytes(record_cells(self.data@, t), 8))
                        }
                },
                Err(e) => {
                    ||| (e == PirError::DimensionMismatch && exists|t: int|
                        0 <= t < self.num_strings && (#[trigger] self.data@[0][t] >= 0x800_0000
                            || encoded_len(self.data@[0][t] as int, 8) > self.data.nrows))
                    ||| (e == PirError::InvalidUtf8 && exists|t: int|
                        0 <= t < self.num_strings && #[trigger] self.data@[0][t] < 0x800_0000
                            && encoded_len(self.data@[0][t] as int, 8) <= self.data.nrows
                            && !valid_utf8(decoded_bytes(record_cells(self.data@, t), 8)))
                },
            },
    {
        let side = self.data.nrows;
        let mut out: Vec<String> = Vec::new();
        let mut t: usize = 0;
        while t < self.num_strings
            invariant
                t <= self.num_strings,
                self.data.wf(),
                self.data.nrows == self.data.ncols,
                self.num_strings <= self.data.nrows,
                side == self.data.nrows,
                side <= 0xFF_FFFF,
                out@.len() == t,
                forall|i: int| 0 <= i < t ==> #[trigger] self.data@[0][i] < 0x800_0000,
                forall|i: int|
                    0 <= i < t ==> #[trigger] encoded_len(self.data@[0][i] as int, 8) <= side,
                forall|i: int|
                    0 <= i < t ==> decode_ok(#[trigger] record_cells(self.data@, i), 8),
                forall|i: int|
                    0 <= i < t ==> valid_utf8(decoded_bytes(#[trigger] record_cells(self.data@, i), 8)),
                forall|i: int|
                    #![trigger out@[i]]
                    0 <= i < t
                        ==> out@[i]@ == decode_utf8(decoded_bytes(record_cells(self.data@, i), 8)),
            decreases self.num_strings - t,
        {
            proof {
                assert(self.data@[0].len() == self.data.ncols);
                assert(self.data@[0] == self.data.data@[0]@);
            }
            let len_cell = self.data.data[0][t];
            if len_cell >= 0x800_0000 {
                proof {
                    assert(self.data@[0][t as int] >= 0x800_0000);
                }
                return Err(PirError::DimensionMismatch);
            }
            let needed = 1 + ((len_cell as usize) + 7) / 8;
            if needed > side {
                proof {
                    assert(encoded_len(self.data@[0][t as int] as int, 8) > self.data.nrows);
                }
                return Err(PirError::DimensionMismatch);
            }
            let mut col: Vec<u64> = Vec::new();
            let mut j: usize = 0;
            while j < needed
                invariant
                    j <= needed,
                    needed <= side,
                    t < self.num_strings,
                    self.num_strings <= side,
                    self.data.wf(),
                    self.data.nrows == self.data.ncols,
                    side == self.data.nrows,
                    col@.len() == j,
                    forall|u: int|
                        0 <= u < j ==> #[trigger] col@[u] == self.data@[u][t as int],
                decreases needed - j,
            {
                proof {
                    assert(self.data@[j as int].len() == self.data.ncols);
                    assert(self.data@[j as int] == self.data.data@[j as int]@);
                }
                col.push(self.data.data[j][t]);
                j += 1;
            }
            proof {
                assert(col@ =~= column_prefix(
                    self.data@,
                    t as int,
                    encoded_len(self.data@[0][t as int] as int, 8),
                ));
            }
            let enc = EncodedString(col);
            let s = match enc.decode() {
                Ok(s) => s,
                Err(e) => {
                    proof {
                        let cells = record_cells(self.data@, t as int);
                        assert(enc.0@ == cells);
                        assert(cells[0] == self.data@[0][t as int]);
                        assert(decode_ok(cells, 8));
                        assert(e == PirError::InvalidUtf8);
                        assert(!valid_utf8(decoded_bytes(cells, 8)));
                    }
                    return Err(e);
                },
            };
            proof {
                let cells = record_cells(self.data@, t as int);
                assert(enc.0@ == cells);
                assert(needed == encoded_len(self.data@[0][t as int] as int, 8));
                assert(decode_ok(cells, 8));
                assert(valid_utf8(decoded_bytes(cells, 8)));
                assert(s@ == decode_utf8(decoded_bytes(cells, 8)));
            }
            out.push(s);
            t += 1;
        }
        Ok(out)
    }
}

/// Round trip through the record matrix, for any group of one to eight
/// bytes per cell: every column of the packed matrix, cut to its encoded
/// length and decoded, returns the string it was built from. The
/// eight-byte group is the stand-alone record layout; the one-byte group
/// is the text database the fetch round retrieves from.
pub proof fn lemma_string_matrix_round_trip(strings: Seq<String>, r: int, g: int)
    requires
        1 <= g <= 8,
        0 <= r < strings.len(),
        strings[r]@.len() <= 0x1FF_FFFF,
    ensures
        ({
            let recs = StringMatrix::records_of(strings);
            let cells = column_prefix(
                packed_matrix(recs, g),
                r,
                encoded_len(recs[r].len() as int, g),
            );
            &&& decode_ok(cells, g)
            &&& valid_utf8(decoded_bytes(cells, g))
            &&& decode_utf8(decoded_bytes(cells, g)) == strings[r]@
            &&& packed_matrix(recs, g)[0][r] == recs[r].len() as u64
            &&& encoded_len(recs[r].len() as int, g) <= packed_side(recs, g)
        }),
{
    let recs = StringMatrix::records_of(strings);
    lemma_utf8_len(strings[r]@);
    assert(recs[r] == encode_utf8(strings[r]@));
    lemma_packed_column(recs, g, r);
    encode_utf8_valid_utf8(strings[r]@);
    encode_utf8_decode_utf8(strings[r]@);
    lemma_max_enc_len(recs, g, recs.len() as int, r);
    assert(encoded_len(recs[r].len() as int, g) >= 1) by {
        vstd::arithmetic::div_mod::lemma_div_pos_is_pos(recs[r].len() + g - 1, g);
    }
    assert(packed_matrix(recs, g)[0][r] == encoded_with(recs[r], g)[0]);
}

} // verus!
