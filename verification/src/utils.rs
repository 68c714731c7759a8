//! The padded record codec: strings are padded with zero bytes to a
//! common length, packed eight bytes per cell with no length prefix, and
//! laid one record per column of a square matrix. Decoding unpacks a
//! column, checks the raw bytes as UTF-8, and then removes the NUL
//! characters the padding decoded to.

use vstd::prelude::*;
use vstd::utf8::{
    decode_utf8, decode_utf8_encode_utf8, encode_scalar, encode_utf8, encode_utf8_decode_utf8,
    encode_utf8_valid_utf8, valid_utf8,
};

use crate::encoding::{byte_of, bytes_to_string, chunk, encoded_len, extract_byte, pack_cell};
use crate::matrix::Matrix;
use crate::params::PirError;

verus! {

/// A byte string padded with zeros up to length `n`.
pub open spec fn pad_zeros(b: Seq<u8>, n: int) -> Seq<u8> {
    b + Seq::new((if n >= b.len() {
        n - b.len()
    } else {
        0
    }) as nat, |i: int| 0u8)
}

/// All the bytes a cell vector unpacks to: eight per cell, in order.
pub open spec fn all_bytes(cells: Seq<u64>) -> Seq<u8> {
    Seq::new(cells.len() * 8, |i: int| byte_of(cells[i / 8], i % 8))
}

/// A byte string with every zero byte removed.
pub open spec fn strip_zeros(b: Seq<u8>) -> Seq<u8>
    decreases b.len(),
{
    if b.len() == 0 {
        Seq::empty()
    } else if b.last() == 0 {
        strip_zeros(b.drop_last())
    } else {
        strip_zeros(b.drop_last()).push(b.last())
    }
}

/// A character sequence with every NUL character removed.
pub open spec fn strip_nul(chars: Seq<char>) -> Seq<char>
    decreases chars.len(),
{
    if chars.len() == 0 {
        Seq::empty()
    } else if chars[0] as u32 == 0 {
        strip_nul(chars.drop_first())
    } else {
        seq![chars[0]] + strip_nul(chars.drop_first())
    }
}

/// Stripping zeros distributes over concatenation.
proof fn lemma_strip_zeros_concat(x: Seq<u8>, y: Seq<u8>)
    ensures
        strip_zeros(x + y) == strip_zeros(x) + strip_zeros(y),
    decreases y.len(),
{
    if y.len() == 0 {
        assert(x + y =~= x);
        assert(strip_zeros(x) + strip_zeros(y) =~= strip_zeros(x));
    } else {
        assert((x + y).drop_last() =~= x + y.drop_last());
        assert((x + y).last() == y.last());
        lemma_strip_zeros_concat(x, y.drop_last());
        if y.last() != 0 {
            assert(strip_zeros(x) + strip_zeros(y) =~= (strip_zeros(x) + strip_zeros(
                y.drop_last(),
            )).push(y.last()));
        }
    }
}

/// A byte string without zeros is unchanged by stripping.
proof fn lemma_strip_zeros_absent(b: Seq<u8>)
    requires
        forall|i: int| 0 <= i < b.len() ==> #[trigger] b[i] != 0,
    ensures
        strip_zeros(b) == b,
    decreases b.len(),
{
    if b.len() > 0 {
        lemma_strip_zeros_absent(b.drop_last());
        assert(strip_zeros(b.drop_last()).push(b.last()) =~= b);
    }
}

/// Stripping NUL characters distributes over concatenation.
proof fn lemma_strip_nul_concat(x: Seq<char>, y: Seq<char>)
    ensures
        strip_nul(x + y) == strip_nul(x) + strip_nul(y),
    decreases x.len(),
{
    if x.len() == 0 {
        assert(x + y =~= y);
        assert(strip_nul(x) + strip_nul(y) =~= strip_nul(y));
    } else {
        assert((x + y).drop_first() =~= x.drop_first() + y);
        assert((x + y)[0] == x[0]);
        lemma_strip_nul_concat(x.drop_first(), y);
        if x[0] as u32 != 0 {
            assert(seq![x[0]] + (strip_nul(x.drop_first()) + strip_nul(y)) =~= (seq![x[0]]
                + strip_nul(x.drop_first())) + strip_nul(y));
        }
    }
}

/// A character sequence without NUL is unchanged by stripping.
proof fn lemma_strip_nul_absent(chars: Seq<char>)
    requires
        forall|i: int| 0 <= i < chars.len() ==> (#[trigger] chars[i]) as u32 != 0,
    ensures
        strip_nul(chars) == chars,
    decreases chars.len(),
{
    if chars.len() > 0 {
        lemma_strip_nul_absent(chars.drop_first());
        assert(seq![chars[0]] + chars.drop_first() =~= chars);
    }
}

/// A run of NUL characters strips to nothing, and encodes to a run of
/// zero bytes of the same length.
proof fn lemma_nul_run(k: int)
    requires
        0 <= k,
    ensures
        strip_nul(Seq::new(k as nat, |i: int| '\0')) == Seq::<char>::empty(),
        encode_utf8(Seq::new(k as nat, |i: int| '\0')) =~= Seq::new(k as nat, |i: int| 0u8),
    decreases k,
{
    let nuls = Seq::new(k as nat, |i: int| '\0');
    if k > 0 {
        lemma_nul_run(k - 1);
        assert(nuls.drop_first() =~= Seq::new((k - 1) as nat, |i: int| '\0'));
        assert('\0' as u32 == 0);
        assert((0u32 & 0x7F) as u8 == 0) by (bit_vector);
        assert(vstd::utf8::leading_byte_width_1(0) == 0);
        assert(encode_scalar(0) =~= seq![0u8]);
        assert(encode_utf8(nuls) == encode_scalar(0) + encode_utf8(nuls.drop_first()));
    }
}

/// The UTF-8 encoding distributes over concatenation.
proof fn lemma_encode_utf8_concat(x: Seq<char>, y: Seq<char>)
    ensures
        encode_utf8(x + y) == encode_utf8(x) + encode_utf8(y),
    decreases x.len(),
{
    if x.len() == 0 {
        assert(x + y =~= y);
        assert(encode_utf8(x) + encode_utf8(y) =~= encode_utf8(y));
    } else {
        assert((x + y).drop_first() =~= x.drop_first() + y);
        assert((x + y)[0] == x[0]);
        lemma_encode_utf8_concat(x.drop_first(), y);
        assert(encode_scalar(x[0] as u32) + (encode_utf8(x.drop_first()) + encode_utf8(y))
            =~= (encode_scalar(x[0] as u32) + encode_utf8(x.drop_first())) + encode_utf8(y));
    }
}

/// Every byte of the encoding of a non-NUL scalar is non-zero.
proof fn lemma_encode_scalar_nonzero(s: u32)
    requires
        vstd::utf8::is_scalar(s),
        s != 0,
    ensures
        forall|i: int|
            0 <= i < encode_scalar(s).len() ==> #[trigger] encode_scalar(s)[i] != 0,
{
    if vstd::utf8::has_width_1_encoding(s) {
        assert((s & 0x7F) as u8 != 0) by (bit_vector)
            requires
                s != 0,
                s <= 0x7F,
        ;
    } else {
        assert((0xC0u8 | ((s >> 6) & 0x1F) as u8) != 0 && (0xE0u8 | ((s >> 12) & 0x0F) as u8)
            != 0 && (0xF0u8 | ((s >> 18) & 0x7) as u8) != 0 && (0x80u8 | (s & 0x3F) as u8) != 0
            && (0x80u8 | ((s >> 6) & 0x3F) as u8) != 0 && (0x80u8 | ((s >> 12) & 0x3F) as u8)
            != 0) by (bit_vector);
    }
}

/// Stripping the zero bytes of an encoding is the encoding of the
/// NUL-stripped characters: zero bytes occur in UTF-8 exactly as the
/// one-byte encodings of NUL.
proof fn lemma_strip_zeros_encode(chars: Seq<char>)
    ensures
        strip_zeros(encode_utf8(chars)) == encode_utf8(strip_nul(chars)),
    decreases chars.len(),
{
    if chars.len() > 0 {
        let s = chars[0] as u32;
        let head = encode_scalar(s);
        let tail = encode_utf8(chars.drop_first());
        lemma_strip_zeros_concat(head, tail);
        lemma_strip_zeros_encode(chars.drop_first());
        vstd::utf8::char_is_scalar(chars[0]);
        if s == 0 {
            assert((0u32 & 0x7F) as u8 == 0) by (bit_vector);
            assert(vstd::utf8::leading_byte_width_1(0) == 0);
            assert(head =~= seq![0u8]);
            assert(seq![0u8].drop_last() =~= Seq::<u8>::empty());
            assert(seq![0u8].last() == 0u8);
            assert(strip_zeros(Seq::<u8>::empty()) == Seq::<u8>::empty());
            assert(strip_zeros(seq![0u8]) == strip_zeros(Seq::<u8>::empty()));
            assert(strip_zeros(head) =~= Seq::<u8>::empty());
            assert(Seq::<u8>::empty() + encode_utf8(strip_nul(chars.drop_first())) =~= encode_utf8(
                strip_nul(chars),
            ));
        } else {
            lemma_encode_scalar_nonzero(s);
            lemma_strip_zeros_absent(head);
            assert(strip_nul(chars) == seq![chars[0]] + strip_nul(chars.drop_first()));
            lemma_encode_utf8_concat(seq![chars[0]], strip_nul(chars.drop_first()));
            assert(encode_utf8(seq![chars[0]]) =~= head) by {
                assert(seq![chars[0]].drop_first() =~= Seq::<char>::empty());
                assert(seq![chars[0]][0] == chars[0]);
                assert(encode_utf8(Seq::<char>::empty()) =~= Seq::<u8>::empty());
                assert(encode_scalar(s) + Seq::<u8>::empty() =~= head);
            }
        }
    }
}

/// On valid bytes, stripping the zero bytes keeps the encoding valid and
/// decodes to the NUL-stripped characters of the original.
proof fn lemma_strip_zeros_valid(b: Seq<u8>)
    requires
        valid_utf8(b),
    ensures
        valid_utf8(strip_zeros(b)),
        decode_utf8(strip_zeros(b)) == strip_nul(decode_utf8(b)),
{
    let chars = decode_utf8(b);
    decode_utf8_encode_utf8(b);
    lemma_strip_zeros_encode(chars);
    encode_utf8_valid_utf8(strip_nul(chars));
    encode_utf8_decode_utf8(strip_nul(chars));
}

/// Packs a byte string into unprefixed cells, eight bytes each, the last
/// cell zero-padded.
pub fn encode_input(b: &Vec<u8>) -> (r: Vec<u64>)
    requires
        b@.len() <= 0x0FFF_FFFF,
    ensures
        r@.len() == encoded_len(b@.len() as int, 8) - 1,
        forall|c: int|
            0 <= c < r@.len() ==> #[trigger] r@[c] == pack_cell(chunk(b@, 8, c)) as u64,
{
    let cells = crate::encoding::encode_bytes(b, 8);
    let mut out: Vec<u64> = Vec::new();
    let mut t: usize = 1;
    while t < cells.len()
        invariant
            1 <= t <= cells@.len(),
            cells@ == crate::encoding::encoded_with(b@, 8),
            out@.len() == t - 1,
            forall|c: int|
                0 <= c < out@.len() ==> #[trigger] out@[c] == pack_cell(chunk(b@, 8, c)) as u64,
        decreases cells@.len() - t,
    {
        out.push(cells[t]);
        t += 1;
    }
    out
}

/// Unpacks a cell vector completely, checks the raw bytes as UTF-8, and
/// removes the NUL characters that zero padding decodes to. A garbled
/// record surfaces here as a UTF-8 error on the raw bytes.
pub fn decode_input(data: &Vec<u64>) -> (r: Result<String, PirError>)
    requires
        data@.len() <= 0x200_0000,
    ensures
        match r {
            Ok(s) => {
                &&& valid_utf8(all_bytes(data@))
                &&& s@ == strip_nul(decode_utf8(all_bytes(data@)))
            },
            Err(e) => {
                &&& e == PirError::InvalidUtf8
                &&& !valid_utf8(all_bytes(data@))
            },
        },
{
    let mut bytes: Vec<u8> = Vec::new();
    let mut raw: Vec<u8> = Vec::new();
    let mut t: usize = 0;
    while t < data.len()
        invariant
            t <= data@.len(),
            bytes@.len() == 8 * t,
            raw@ == bytes@,
            forall|i: int|
                0 <= i < bytes@.len()
                    ==> #[trigger] bytes@[i] == byte_of(data@[i / 8], i % 8),
        decreases data@.len() - t,
    {
        let cell = data[t];
        let mut k: usize = 0;
        while k < 8
            invariant
                k <= 8,
                t < data@.len(),
                cell == data@[t as int],
                bytes@.len() == 8 * t + k,
                raw@ == bytes@,
                forall|i: int|
                    0 <= i < bytes@.len()
                        ==> #[trigger] bytes@[i] == byte_of(data@[i / 8], i % 8),
            decreases 8 - k,
        {
            proof {
                vstd::arithmetic::div_mod::lemma_fundamental_div_mod_converse(
                    8 * (t as int) + k,
                    8,
                    t as int,
                    k as int,
                );
            }
            let byte = extract_byte(cell, k);
            bytes.push(byte);
            raw.push(byte);
            k += 1;
        }
        t += 1;
    }
    proof {
        assert(bytes@ =~= all_bytes(data@));
    }
    // The raw bytes must be valid UTF-8 before any padding is removed.
    if bytes_to_string(raw).is_none() {
        return Err(PirError::InvalidUtf8);
    }
    let mut kept: Vec<u8> = Vec::new();
    let mut i: usize = 0;
    while i < bytes.len()
        invariant
            i <= bytes@.len(),
            kept@ == strip_zeros(bytes@.take(i as int)),
        decreases bytes@.len() - i,
    {
        proof {
            assert(bytes@.take(i + 1).drop_last() =~= bytes@.take(i as int));
            assert(bytes@.take(i + 1).last() == bytes@[i as int]);
        }
        if bytes[i] != 0 {
            kept.push(bytes[i]);
        }
        i += 1;
    }
    proof {
        assert(bytes@.take(bytes@.len() as int) =~= bytes@);
        lemma_strip_zeros_valid(bytes@);
    }
    match bytes_to_string(kept) {
        Some(s) => Ok(s),
        None => {
            proof {
                assert(false);
            }
            Err(PirError::InvalidUtf8)
        },
    }
}

/// The longest UTF-8 byte length among the first `k` strings.
pub open spec fn max_byte_len(strings: Seq<String>, k: int) -> int
    decreases k,
{
    if k <= 0 {
        0
    } else {
        let prev = max_byte_len(strings, k - 1);
        let cur = encode_utf8(strings[k - 1]@).len() as int;
        if cur > prev {
            cur
        } else {
            prev
        }
    }
}

/// The square side the padded codec uses: enough columns for every record
/// and enough rows for the longest encoding, eight bytes per cell.
pub open spec fn padded_side(strings: Seq<String>) -> int {
    let w = (max_byte_len(strings, strings.len() as int) + 7) / 8;
    if strings.len() > w {
        strings.len() as int
    } else {
        w
    }
}

/// Packs every string into a square matrix, one record per column: the
/// strings' bytes are padded with zeros to eight times the side length,
/// then laid down the columns eight bytes per cell. An empty record list
/// is a parameter error.
pub fn encode_data(data: &Vec<String>) -> (r: Result<Matrix, PirError>)
    requires
        data@.len() <= 0xFFFF,
        forall|t: int| 0 <= t < data@.len() ==> (#[trigger] data@[t]@).len() <= 0x1FF_FFF,
    ensures
        match r {
            Ok(m) => {
                &&& data@.len() >= 1
                &&& m.wf()
                &&& m.nrows == m.ncols
                &&& m.nrows == padded_side(data@)
                &&& forall|i: int, j: int|
                    0 <= i < data@.len() && 0 <= j < m.nrows
                        ==> #[trigger] m@[j][i] == pack_cell(
                            chunk(
                                pad_zeros(encode_utf8(data@[i]@), 8 * (m.nrows as int)),
                                8,
                                j,
                            ),
                        ) as u64
            },
            Err(e) => {
                &&& e == PirError::DimensionMismatch
                &&& data@.len() == 0
            },
        },
{
    if data.len() == 0 {
        return Err(PirError::DimensionMismatch);
    }
    let count = data.len();
    // Convert and find the longest byte length.
    let mut recs: Vec<Vec<u8>> = Vec::new();
    let mut maxlen: usize = 0;
    let mut t: usize = 0;
    while t < count
        invariant
            t <= count,
            count == data@.len(),
            forall|i: int| 0 <= i < count ==> (#[trigger] data@[i]@).len() <= 0x1FF_FFF,
            recs@.len() == t,
            forall|i: int| #![trigger recs@[i]]
                0 <= i < t ==> recs@[i]@ == encode_utf8(data@[i]@),
            forall|i: int| #![trigger recs@[i]]
                0 <= i < t ==> recs@[i]@.len() <= maxlen,
            maxlen == max_byte_len(data@, t as int),
            maxlen <= 0x7F_FFFC,
        decreases count - t,
    {
        proof {
            crate::encoding::lemma_utf8_len(data@[t as int]@);
        }
        let bytes = vstd::slice::slice_to_vec(data[t].as_str().as_bytes());
        if bytes.len() > maxlen {
            maxlen = bytes.len();
        }
        recs.push(bytes);
        t += 1;
    }
    // Cells per record and square side.
    let cells_per = (maxlen + 7) / 8;
    let side = if count > cells_per {
        count
    } else {
        cells_per
    };
    let padded_len = 8 * side;
    let mut rows: Vec<Vec<u64>> = Vec::new();
    let mut j: usize = 0;
    while j < side
        invariant
            j <= side,
            count == data@.len(),
            count <= side,
            side == padded_side(data@),
            padded_len == 8 * side,
            side <= 0xFF_FFFF,
            recs@.len() == count,
            forall|i: int| #![trigger recs@[i]]
                0 <= i < count ==> recs@[i]@ == encode_utf8(data@[i]@),
            forall|i: int| #![trigger recs@[i]]
                0 <= i < count ==> recs@[i]@.len() <= 8 * side,
            rows@.len() == j,
            forall|u: int| #![trigger rows@[u]] 0 <= u < j ==> rows@[u]@.len() == side,
            forall|u: int, v: int|
                #![trigger rows@[u]@[v]]
                0 <= u < j && 0 <= v < side
                    ==> rows@[u]@[v] == (if v < count {
                        pack_cell(
                            chunk(pad_zeros(recs@[v]@, 8 * (side as int)), 8, u),
                        ) as u64
                    } else {
                        0u64
                    }),
        decreases side - j,
    {
        let mut row: Vec<u64> = Vec::new();
        let mut v: usize = 0;
        while v < side
            invariant
                v <= side,
                j < side,
                count <= side,
                count == data@.len(),
                side <= 0xFF_FFFF,
                recs@.len() == count,
                forall|i: int| #![trigger recs@[i]]
                    0 <= i < count ==> recs@[i]@.len() <= 8 * side,
                row@.len() == v,
                forall|w: int|
                    0 <= w < v
                        ==> #[trigger] row@[w] == (if w < count {
                            pack_cell(
                                chunk(pad_zeros(recs@[w]@, 8 * (side as int)), 8, j as int),
                            ) as u64
                        } else {
                            0u64
                        }),
            decreases side - v,
        {
            let cell: u64 = if v < count {
                padded_chunk_cell(&recs[v], j, side)
            } else {
                0u64
            };
            row.push(cell);
            v += 1;
        }
        rows.push(row);
        j += 1;
    }
    let m = Matrix { data: rows, nrows: side, ncols: side };
    proof {
        assert forall|u: int| 0 <= u < side implies (#[trigger] m@[u]).len() == side by {
            assert(m@[u] == rows@[u]@);
        }
        assert forall|i: int, u: int|
            0 <= i < count && 0 <= u < side implies #[trigger] m@[u][i] == pack_cell(
            chunk(pad_zeros(encode_utf8(data@[i]@), 8 * (side as int)), 8, u),
        ) as u64 by {
            assert(m@[u] == rows@[u]@);
            assert(rows@[u]@[i] == (if i < count {
                pack_cell(chunk(pad_zeros(recs@[i]@, 8 * (side as int)), 8, u)) as u64
            } else {
                0u64
            }));
        }
    }
    Ok(m)
}

/// One padded chunk of a record, packed: chunk `j` of the record's bytes
/// extended with zeros to `8 * side`.
fn padded_chunk_cell(rec: &Vec<u8>, j: usize, side: usize) -> (r: u64)
    requires
        j < side,
        side <= 0xFF_FFFF,
        rec@.len() <= 8 * side,
    ensures
        r == pack_cell(chunk(pad_zeros(rec@, 8 * (side as int)), 8, j as int)) as u64,
{
    let ghost padded = pad_zeros(rec@, 8 * (side as int));
    let base = 8 * j;
    let mut cell: u64 = 0;
    let mut mult: u64 = 1;
    let mut k: usize = 0;
    while k < 8
        invariant
            k <= 8,
            j < side,
            side <= 0xFF_FFFF,
            base == 8 * j,
            rec@.len() <= 8 * side,
            padded == pad_zeros(rec@, 8 * (side as int)),
            k < 8 ==> mult == crate::encoding::pow256(k as int),
            cell == pack_cell(padded.subrange(base as int, base + k)),
        decreases 8 - k,
    {
        let b: u8 = if base + k < rec.len() {
            rec[base + k]
        } else {
            0u8
        };
        proof {
            let pre = padded.subrange(base as int, base + k);
            crate::encoding::lemma_pack_cell_bound(pre);
            crate::encoding::lemma_pow256_bounds(k as int);
            crate::encoding::lemma_pow256_bounds(k + 1);
            assert(padded.len() == 8 * side);
            assert(padded[base + k] == b);
            crate::encoding::lemma_pack_cell_push(pre, b);
            assert(pre.push(b) =~= padded.subrange(base as int, base + k + 1));
            assert(pack_cell(pre) + (b as int) * crate::encoding::pow256(k as int)
                < crate::encoding::pow256(k + 1)) by (nonlinear_arith)
                requires
                    0 <= pack_cell(pre) < crate::encoding::pow256(k as int),
                    b < 256,
                    crate::encoding::pow256(k + 1) == 256 * crate::encoding::pow256(k as int),
                    crate::encoding::pow256(k as int) >= 1,
            ;
        }
        cell = cell + (b as u64) * mult;
        if k + 1 < 8 {
            proof {
                crate::encoding::lemma_pow256_bounds(k + 1);
            }
            mult = mult * 256;
        }
        k += 1;
    }
    proof {
        assert(padded.subrange(base as int, base + 8) =~= chunk(padded, 8, j as int));
    }
    cell
}

/// Unpacks every record column of a padded matrix back into a string:
/// succeeds exactly when every column's raw bytes are valid UTF-8.
pub fn decode_data(m: &Matrix) -> (r: Result<Vec<String>, PirError>)
    requires
        m.wf(),
        m.nrows == m.ncols,
        m.nrows <= 0xFF_FFFF,
    ensures
        match r {
            Ok(v) => {
                &&& v@.len() == m.ncols
                &&& forall|i: int|
                    0 <= i < v@.len() ==> valid_utf8(
                        all_bytes(#[trigger] crate::encoding::column_prefix(
                            m@,
                            i,
                            m.nrows as int,
                        )),
                    )
                &&& forall|i: int|
                    #![trigger v@[i]]
                    0 <= i < v@.len() ==> v@[i]@ == strip_nul(
                        decode_utf8(all_bytes(crate::encoding::column_prefix(
                            m@,
                            i,
                            m.nrows as int,
                        ))),
                    )
            },
            Err(e) => {
                &&& e == PirError::InvalidUtf8
                &&& exists|i: int|
                    0 <= i < m.ncols && !valid_utf8(
                        all_bytes(#[trigger] crate::encoding::column_prefix(
                            m@,
                            i,
                            m.nrows as int,
                        )),
                    )
            },
        },
{
    let mut out: Vec<String> = Vec::new();
    let mut i: usize = 0;
    while i < m.ncols
        invariant
            i <= m.ncols,
            m.wf(),
            m.nrows == m.ncols,
            m.nrows <= 0xFF_FFFF,
            out@.len() == i,
            forall|t: int|
                0 <= t < i ==> valid_utf8(
                    all_bytes(#[trigger] crate::encoding::column_prefix(
                        m@,
                        t,
                        m.nrows as int,
                    )),
                ),
            forall|t: int|
                #![trigger out@[t]]
                0 <= t < i ==> out@[t]@ == strip_nul(
                    decode_utf8(all_bytes(crate::encoding::column_prefix(
                        m@,
                        t,
                        m.nrows as int,
                    ))),
                ),
        decreases m.ncols - i,
    {
        let mut col: Vec<u64> = Vec::new();
        let mut j: usize = 0;
        while j < m.nrows
            invariant
                j <= m.nrows,
                i < m.ncols,
                m.wf(),
                m.nrows == m.ncols,
                col@.len() == j,
                forall|u: int| 0 <= u < j ==> #[trigger] col@[u] == m@[u][i as int],
            decreases m.nrows - j,
        {
            proof {
                assert(m@[j as int].len() == m.ncols);
                assert(m@[j as int] == m.data@[j as int]@);
            }
            col.push(m.data[j][i]);
            j += 1;
        }
        proof {
            assert(col@ =~= crate::encoding::column_prefix(m@, i as int, m.nrows as int));
        }
        let s = match decode_input(&col) {
            Ok(s) => s,
            Err(e) => {
                return Err(e);
            },
        };
        out.push(s);
        i += 1;
    }
    Ok(out)
}

/// Every record's encoded length is bounded by the maximum.
pub proof fn lemma_max_byte_len(strings: Seq<String>, k: int, r: int)
    requires
        0 <= r < k,
    ensures
        encode_utf8(strings[r]@).len() <= max_byte_len(strings, k),
        max_byte_len(strings, k - 1) <= max_byte_len(strings, k),
    decreases k,
{
    if r < k - 1 {
        lemma_max_byte_len(strings, k - 1, r);
    }
}

/// Round trip of the padded codec: a column whose cells pack a record's
/// zero-padded encoding unpacks to valid UTF-8, and stripping the NUL
/// characters the padding decodes to returns exactly the record's
/// characters, for any record that itself contains no NUL.
pub proof fn lemma_padded_codec_round_trip(chars: Seq<char>, cells: Seq<u64>, side: int)
    requires
        0 <= side,
        cells.len() == side,
        encode_utf8(chars).len() <= 8 * side,
        forall|j: int|
            0 <= j < side
                ==> #[trigger] cells[j] == pack_cell(
                    chunk(pad_zeros(encode_utf8(chars), 8 * side), 8, j),
                ) as u64,
        forall|t: int| 0 <= t < chars.len() ==> (#[trigger] chars[t]) as u32 != 0,
    ensures
        valid_utf8(all_bytes(cells)),
        strip_nul(decode_utf8(all_bytes(cells))) == chars,
{
    let enc = encode_utf8(chars);
    let padded = pad_zeros(enc, 8 * side);
    let k = 8 * side - enc.len();
    let nuls = Seq::new(k as nat, |i: int| '\0');
    assert(padded.len() == 8 * side);
    // The unpacked column is the padded encoding, byte for byte.
    assert forall|t: int| 0 <= t < 8 * side implies all_bytes(cells)[t] == padded[t] by {
        let c = t / 8;
        let r = t % 8;
        vstd::arithmetic::div_mod::lemma_fundamental_div_mod(t, 8);
        vstd::arithmetic::div_mod::lemma_mod_bound(t, 8);
        assert(0 <= c < side) by (nonlinear_arith)
            requires
                t == 8 * c + r,
                0 <= t < 8 * side,
                0 <= r < 8,
        ;
        let ch = chunk(padded, 8, c);
        assert(ch =~= padded.subrange(8 * c, 8 * c + 8));
        assert(ch.len() == 8);
        crate::encoding::lemma_pack_cell_extract(ch, r);
        assert(ch[r] == padded[8 * c + r]);
    }
    assert(all_bytes(cells) =~= padded);
    // The padding is itself the encoding of a run of NUL characters.
    lemma_nul_run(k);
    lemma_encode_utf8_concat(chars, nuls);
    assert(padded =~= encode_utf8(chars + nuls));
    encode_utf8_valid_utf8(chars + nuls);
    encode_utf8_decode_utf8(chars + nuls);
    // Stripping the NULs recovers exactly the record's characters.
    lemma_strip_nul_concat(chars, nuls);
    lemma_strip_nul_absent(chars);
    assert(strip_nul(decode_utf8(all_bytes(cells))) =~= chars);
}

/// The composed law of the padded codec: every record column of the
/// matrix `encode_data` builds decodes, through `decode_data`'s contract,
/// back to the record it was built from, for records free of NUL.
pub proof fn lemma_data_round_trip(strings: Seq<String>, m: Seq<Seq<u64>>, i: int)
    requires
        0 <= i < strings.len(),
        forall|j: int|
            0 <= j < padded_side(strings)
                ==> #[trigger] crate::encoding::column_prefix(m, i, padded_side(strings))[j]
                    == pack_cell(
                    chunk(
                        pad_zeros(encode_utf8(strings[i]@), 8 * padded_side(strings)),
                        8,
                        j,
                    ),
                ) as u64,
        forall|t: int| 0 <= t < strings[i]@.len() ==> (#[trigger] strings[i]@[t]) as u32 != 0,
    ensures
        valid_utf8(all_bytes(crate::encoding::column_prefix(m, i, padded_side(strings)))),
        strip_nul(
            decode_utf8(all_bytes(crate::encoding::column_prefix(m, i, padded_side(strings)))),
        ) == strings[i]@,
{
    let side = padded_side(strings);
    let cells = crate::encoding::column_prefix(m, i, side);
    lemma_max_byte_len(strings, strings.len() as int, i);
    let w = max_byte_len(strings, strings.len() as int);
    assert(encode_utf8(strings[i]@).len() <= 8 * side) by {
        vstd::arithmetic::div_mod::lemma_fundamental_div_mod(w + 7, 8);
        vstd::arithmetic::div_mod::lemma_mod_bound(w + 7, 8);
        assert(8 * ((w + 7) / 8) >= w);
    }
    lemma_padded_codec_round_trip(strings[i]@, cells, side);
}

} // verus!
