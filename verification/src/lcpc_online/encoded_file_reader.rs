use vstd::prelude::*;

use crate::fields::data_field::DataField;
use crate::fields::writable_ft63::WriteableFt63;
use crate::lcpc_online::column_digest_accumulator::AccumulatorError;
use crate::lcpc_online::commit::{column_digest, digest_of_column};
use crate::lcpc_online::encoding::{
    all_canonical, canonical_elements, decode_row, fft_io_of, fft_len_ok, field_words, ifft_oi_of, max_fft_len,
    spec_dims_ok, FftError, PoSEncoding,
};
use crate::fields::data_field::{field_vec_to_byte_vec, from_byte_vec, padded_chunk, spec_field_vec_to_byte_vec, spec_from_byte_vec};
use crate::lcpc_online::commit::padded_words;
use crate::lcpc_online::encoded_file_writer::{lemma_row_decodes_to, row_holds, zero_extended};
use crate::lcpc_online::file_handler::spliced;
use crate::lcpc_online::merkle_tree::{MerkleTree, MerkleTreeError};
use crate::fields::spec_is_power_of_two;

verus! {

/// `ceil(a / b)`.
pub open spec fn ceil_div(a: nat, b: nat) -> nat {
    ((a + b - 1) as nat) / b
}

/// `ceil(a / b)` for machine words.
pub fn div_ceil(a: usize, b: usize) -> (r: usize)
    requires
        b > 0,
    ensures
        r == ceil_div(a as nat, b as nat),
{
    let q = a / b;
    let extra: usize = if a % b == 0 { 0 } else { 1 };
    proof {
        let ai = a as int;
        let bi = b as int;
        vstd::arithmetic::div_mod::lemma_fundamental_div_mod(ai, bi);
        vstd::arithmetic::div_mod::lemma_fundamental_div_mod(ai + bi - 1, bi);
        vstd::arithmetic::div_mod::lemma_mod_bound(ai, bi);
        vstd::arithmetic::div_mod::lemma_mod_bound(ai + bi - 1, bi);
        if extra == 1 {
            assert(q <= a / 2) by {
                vstd::arithmetic::div_mod::lemma_div_is_ordered_by_denominator(ai, 2, bi);
            }
            assert((ai + bi - 1) / bi == ai / bi + 1) by (nonlinear_arith)
                requires bi > 0, ai == bi * (ai / bi) + ai % bi, 0 < ai % bi < bi,
                    ai + bi - 1 == bi * ((ai + bi - 1) / bi) + (ai + bi - 1) % bi,
                    0 <= (ai + bi - 1) % bi < bi;
        } else {
            assert((ai + bi - 1) / bi == ai / bi) by (nonlinear_arith)
                requires bi > 0, ai == bi * (ai / bi) + ai % bi, ai % bi == 0,
                    ai + bi - 1 == bi * ((ai + bi - 1) / bi) + (ai + bi - 1) % bi,
                    0 <= (ai + bi - 1) % bi < bi;
        }
    }
    q + extra
}

/// Size in bytes of the encoded file for `decoded_file_size` data bytes: the number of
/// rows times the encoded width of a row.
pub fn get_encoded_file_size_from_rate<F: DataField>(
    decoded_file_size: usize,
    pre_encoded_len: usize,
    encoded_len: usize,
) -> (r: usize)
    requires
        pre_encoded_len > 0,
        ceil_div(ceil_div(decoded_file_size as nat, F::spec_data_byte_capacity()), pre_encoded_len as nat)
            * F::spec_written_bytes_width() * encoded_len <= usize::MAX,
    ensures
        r == ceil_div(ceil_div(decoded_file_size as nat, F::spec_data_byte_capacity()), pre_encoded_len as nat)
            * F::spec_written_bytes_width() * encoded_len,
{
    let rows = div_ceil(div_ceil(decoded_file_size, F::data_byte_capacity()), pre_encoded_len);
    let width = F::written_bytes_width();
    proof {
        assert(rows * width <= rows * width * encoded_len || encoded_len == 0) by (nonlinear_arith)
            requires encoded_len >= 0;
        if encoded_len == 0 {
            assert(rows * width * encoded_len == 0) by (nonlinear_arith)
                requires encoded_len == 0;
        }
    }
    if encoded_len == 0 {
        return 0;
    }
    rows * width * encoded_len
}

/// Size in bytes of the data an encoded file of `encoded_file_size` bytes holds room
/// for: its number of rows times the data bytes of a row.
pub fn get_decoded_file_size_from_rate<F: DataField>(
    encoded_file_size: usize,
    pre_encoded_len: usize,
    encoded_len: usize,
) -> (r: usize)
    requires
        encoded_len > 0,
        ceil_div(ceil_div(encoded_file_size as nat, encoded_len as nat), F::spec_written_bytes_width())
            * F::spec_data_byte_capacity() * pre_encoded_len <= usize::MAX,
    ensures
        r == ceil_div(ceil_div(encoded_file_size as nat, encoded_len as nat), F::spec_written_bytes_width())
            * F::spec_data_byte_capacity() * pre_encoded_len,
{
    let rows = div_ceil(div_ceil(encoded_file_size, encoded_len), F::written_bytes_width());
    let cap = F::data_byte_capacity();
    proof {
        if pre_encoded_len == 0 {
            assert(rows * cap * pre_encoded_len == 0) by (nonlinear_arith)
                requires pre_encoded_len == 0;
        }
    }
    if pre_encoded_len == 0 {
        return 0;
    }
    proof {
        assert(rows * cap <= rows * cap * pre_encoded_len) by (nonlinear_arith)
            requires pre_encoded_len >= 1;
    }
    rows * cap * pre_encoded_len
}

proof fn lemma_ceil_ceil(n: nat, a: nat, b: nat)
    requires
        a > 0,
        b > 0,
    ensures
        ceil_div(ceil_div(n, a), b) == ceil_div(n, a * b),
{
    let m = ceil_div(n, a);
    let k = ceil_div(m, b);
    let ab = a * b;
    assert(ab > 0) by (nonlinear_arith)
        requires a > 0, b > 0, ab == a * b;
    vstd::arithmetic::div_mod::lemma_fundamental_div_mod((n + a - 1) as int, a as int);
    vstd::arithmetic::div_mod::lemma_mod_bound((n + a - 1) as int, a as int);
    vstd::arithmetic::div_mod::lemma_fundamental_div_mod((m + b - 1) as int, b as int);
    vstd::arithmetic::div_mod::lemma_mod_bound((m + b - 1) as int, b as int);
    vstd::arithmetic::div_mod::lemma_fundamental_div_mod((n + ab - 1) as int, ab as int);
    vstd::arithmetic::div_mod::lemma_mod_bound((n + ab - 1) as int, ab as int);
    let c = ceil_div(n, ab);
    // m is the least integer with m * a >= n; k the least with k * b >= m.
    assert(m * a >= n && (m == 0 || (m - 1) * a < n)) by (nonlinear_arith)
        requires
            a > 0,
            n + a - 1 == a * m + (n + a - 1) % (a as int),
            0 <= (n + a - 1) % (a as int) < a;
    assert(k * b >= m && (k == 0 || (k - 1) * b < m)) by (nonlinear_arith)
        requires
            b > 0,
            m + b - 1 == b * k + (m + b - 1) % (b as int),
            0 <= (m + b - 1) % (b as int) < b;
    assert(c * ab >= n && (c == 0 || (c - 1) * ab < n)) by (nonlinear_arith)
        requires
            ab > 0,
            n + ab - 1 == ab * c + (n + ab - 1) % (ab as int),
            0 <= (n + ab - 1) % (ab as int) < ab;
    // k * a * b >= m * a >= n, so k >= c; and c * b * a >= n gives c * b >= m, so c >= k.
    assert(k * ab >= n) by (nonlinear_arith)
        requires k * b >= m, m * a >= n, ab == a * b, a > 0;
    assert(c * b >= m) by (nonlinear_arith)
        requires c * ab >= n, ab == a * b, a > 0, b > 0, m == 0 || (m - 1) * a < n;
    assert(k <= c) by (nonlinear_arith)
        requires c * b >= m, k == 0 || (k - 1) * b < m, b > 0;
    assert(c <= k) by (nonlinear_arith)
        requires k * ab >= n, c == 0 || (c - 1) * ab < n, ab > 0;
}

/// `ceil(ceil(n / a) / b) == ceil(n / (a * b))`.
pub proof fn lemma_ceil_ceil_pub(n: nat, a: nat, b: nat)
    requires
        a > 0,
        b > 0,
    ensures
        ceil_div(ceil_div(n, a), b) == ceil_div(n, a * b),
{
    lemma_ceil_ceil(n, a, b);
}

/// Encoding a file size and decoding it back gives the size rounded up to a whole
/// number of rows.
pub proof fn lemma_rate_aligns<F: DataField>(decoded_file_size: nat, pre_encoded_len: nat, encoded_len: nat)
    requires
        pre_encoded_len > 0,
        encoded_len > 0,
    ensures
        ({
            let cap = F::spec_data_byte_capacity();
            let enc = ceil_div(ceil_div(decoded_file_size, cap), pre_encoded_len) * F::spec_written_bytes_width()
                * encoded_len;
            ceil_div(ceil_div(enc, encoded_len), F::spec_written_bytes_width()) * cap * pre_encoded_len
                == ceil_div(decoded_file_size, cap * pre_encoded_len) * (cap * pre_encoded_len)
        }),
{
    let cap = F::spec_data_byte_capacity();
    let w = F::spec_written_bytes_width();
    F::lemma_capacity_positive();
    F::lemma_width_positive();
    let rows = ceil_div(ceil_div(decoded_file_size, cap), pre_encoded_len);
    lemma_ceil_ceil(decoded_file_size, cap, pre_encoded_len);
    lemma_ceil_exact(rows * w, encoded_len);
    assert(rows * w * encoded_len == (rows * w) * encoded_len);
    lemma_ceil_exact(rows, w);
    assert(rows * cap * pre_encoded_len == rows * (cap * pre_encoded_len)) by (nonlinear_arith);
}

proof fn lemma_ceil_exact(q: nat, b: nat)
    requires
        b > 0,
    ensures
        ceil_div(q * b, b) == q,
{
    vstd::arithmetic::div_mod::lemma_fundamental_div_mod_converse((q * b + b - 1) as int, b as int, q as int, (b - 1) as int);
}

/// Why an encoded-file operation failed.
#[derive(Debug, Clone, Copy, PartialEq, Eq, Structural)]
pub enum EncodedFileError {
    /// The requested dimensions cannot be encoded: fewer than one data column, fewer
    /// than two encoded columns, a number of encoded columns that is not a power of two,
    /// or not more encoded columns than data columns.
    InvalidDimensions,
    /// A read reached past the end of the file.
    ReadPastEnd,
    /// The row is not among the rows written (or the next one, for a write).
    RowOutOfBounds,
    /// The new capacity would not hold the rows written.
    CapacityTooSmall,
    /// A row could not be transformed.
    Encode(FftError),
    /// The Merkle tree could not be built over the column digests.
    Tree(MerkleTreeError),
    /// The column digests refused a row.
    Accumulator(AccumulatorError),
}

/// Row `r` of a column-major file whose columns are `cap` elements long.
pub open spec fn image_row(img: Seq<WriteableFt63>, cap: nat, enc: nat, r: nat) -> Seq<WriteableFt63> {
    Seq::new(enc, |c: int| img[c * cap + r])
}

/// The first `n` elements of column `c` of a column-major file with columns `cap` long.
pub open spec fn image_column(img: Seq<WriteableFt63>, cap: nat, c: nat, n: nat) -> Seq<WriteableFt63> {
    img.subrange((c * cap) as int, (c * cap + n) as int)
}

/// The data elements that row `r` of the file decodes to.
pub open spec fn decoded_row(img: Seq<WriteableFt63>, cap: nat, enc: nat, pre: nat, r: nat) -> Seq<WriteableFt63> {
    canonical_elements(ifft_oi_of(field_words(image_row(img, cap, enc, r)))).take(pre as int)
}

/// The data bytes of rows `0..rows` of the file, back to back.
pub open spec fn decoded_bytes(img: Seq<WriteableFt63>, cap: nat, enc: nat, pre: nat, rows: nat) -> Seq<u8>
    decreases rows,
{
    if rows == 0 {
        Seq::empty()
    } else {
        decoded_bytes(img, cap, enc, pre, (rows - 1) as nat) + spec_field_vec_to_byte_vec(
            decoded_row(img, cap, enc, pre, (rows - 1) as nat),
        )
    }
}

/// The file with row `r` replaced by the reduced elements of `row`.
pub open spec fn image_with_row(img: Seq<WriteableFt63>, cap: nat, r: nat, row: Seq<WriteableFt63>) -> Seq<WriteableFt63> {
    Seq::new(
        img.len(),
        |i: int|
            if i % (cap as int) == r && i / (cap as int) < row.len() {
                WriteableFt63::spec_from_canonical(row[i / (cap as int)].value())
            } else {
                img[i]
            },
    )
}

/// The file laid out again with columns `new_cap` long: each old column, then zeros.
pub open spec fn image_recapacitated(img: Seq<WriteableFt63>, cap: nat, enc: nat, new_cap: nat) -> Seq<WriteableFt63> {
    Seq::new(
        enc * new_cap,
        |i: int|
            if i % (new_cap as int) < cap {
                img[(i / (new_cap as int)) * cap + i % (new_cap as int)]
            } else {
                WriteableFt63::spec_zero()
            },
    )
}

/// Reads and rewrites rows and columns of an encoded file: a column-major matrix of
/// field elements, `encoded_size` columns of `row_capacity` elements, of which the first
/// `rows_written` rows hold encoded data.
#[derive(Debug, Clone)]
pub struct EncodedFileReader {
    encoding: PoSEncoding,
    file_to_read: Vec<WriteableFt63>,
    pre_encoded_size: usize,
    encoded_size: usize,
    rows_written: usize,
    row_capacity: usize,
}

impl EncodedFileReader {
    /// The file's elements, column by column.
    pub closed spec fn spec_file(self) -> Seq<WriteableFt63> {
        self.file_to_read@
    }

    pub closed spec fn spec_pre(self) -> nat {
        self.pre_encoded_size as nat
    }

    pub closed spec fn spec_enc(self) -> nat {
        self.encoded_size as nat
    }

    pub closed spec fn spec_rows_written(self) -> nat {
        self.rows_written as nat
    }

    pub closed spec fn spec_capacity(self) -> nat {
        self.row_capacity as nat
    }

    /// The dimensions are usable and the file has exactly the room they describe.
    pub open spec fn wf(self) -> bool {
        &&& self.spec_pre() > 0
        &&& spec_dims_ok(self.spec_pre(), self.spec_enc())
        &&& fft_len_ok(self.spec_enc())
        &&& self.spec_file().len() == self.spec_enc() * self.spec_capacity()
        &&& self.spec_rows_written() <= self.spec_capacity()
        &&& self.encoding_matches()
    }

    /// The encoding has the file's dimensions.
    pub closed spec fn encoding_matches(self) -> bool {
        &&& self.encoding.wf()
        &&& self.encoding.spec_n_per_row() == self.pre_encoded_size
        &&& self.encoding.spec_n_cols() == self.encoded_size
    }

    /// A reader over the elements of an encoded file.
    pub fn new_ligero(
        file_to_read: Vec<WriteableFt63>,
        pre_encoded_size: usize,
        encoded_size: usize,
        rows_written: usize,
        row_capacity: usize,
    ) -> (r: Self)
        requires
            pre_encoded_size > 0,
            spec_dims_ok(pre_encoded_size as nat, encoded_size as nat),
            encoded_size <= max_fft_len(),
            file_to_read@.len() == encoded_size * row_capacity,
            rows_written <= row_capacity,
        ensures
            r.wf(),
            r.spec_file() == file_to_read@,
            r.spec_pre() == pre_encoded_size,
            r.spec_enc() == encoded_size,
            r.spec_rows_written() == rows_written,
            r.spec_capacity() == row_capacity,
    {
        let encoding = PoSEncoding::new_from_dims(pre_encoded_size, encoded_size);
        EncodedFileReader { encoding, file_to_read, pre_encoded_size, encoded_size, rows_written, row_capacity }
    }

    /// Data elements per row.
    pub fn get_pre(&self) -> (r: usize)
        ensures
            r == self.spec_pre(),
    {
        self.pre_encoded_size
    }

    /// Encoded elements per row.
    pub fn get_enc(&self) -> (r: usize)
        ensures
            r == self.spec_enc(),
    {
        self.encoded_size
    }

    /// Number of rows holding data.
    pub fn get_rows_written(&self) -> (r: usize)
        ensures
            r == self.spec_rows_written(),
    {
        self.rows_written
    }

    /// Number of rows each column has room for.
    pub fn get_row_capacity(&self) -> (r: usize)
        ensures
            r == self.spec_capacity(),
    {
        self.row_capacity
    }

    /// Number of elements the file holds.
    pub fn file_len(&self) -> (r: usize)
        ensures
            r == self.spec_file().len(),
    {
        self.file_to_read.len()
    }

    /// The file's elements, column by column.
    pub fn into_file(self) -> (r: Vec<WriteableFt63>)
        ensures
            r@ == self.spec_file(),
    {
        self.file_to_read
    }

    /// The elements of row `target_row`, one from each column.
    pub fn get_encoded_row(&self, target_row: usize) -> (r: Result<Vec<WriteableFt63>, EncodedFileError>)
        requires
            self.wf(),
        ensures
            r is Ok <==> target_row < self.spec_capacity(),
            r matches Err(e) ==> e == EncodedFileError::ReadPastEnd,
            r matches Ok(row) ==> row@ == image_row(self.spec_file(), self.spec_capacity(), self.spec_enc(), target_row as nat),
    {
        if target_row >= self.row_capacity {
            return Err(EncodedFileError::ReadPastEnd);
        }
        let mut row: Vec<WriteableFt63> = Vec::new();
        let mut c: usize = 0;
        let flen = self.file_to_read.len();
        while c < self.encoded_size
            invariant
                self.wf(),
                flen == self.file_to_read@.len(),
                c <= self.encoded_size,
                target_row < self.row_capacity,
                row@ =~= image_row(self.spec_file(), self.spec_capacity(), self.spec_enc(), target_row as nat).subrange(0, c as int),
            decreases self.encoded_size - c,
        {
            proof {
                lemma_index_in_column(c as nat, target_row as nat, self.row_capacity as nat, self.encoded_size as nat);
            }
            row.push(self.file_to_read[c * self.row_capacity + target_row]);
            c = c + 1;
        }
        Ok(row)
    }

    /// Writes `encoded_row_to_write` (reduced) into row `target_row`, which must be one
    /// of the rows written or the next one; writing the next one adds a row.
    pub fn replace_encoded_row(&mut self, target_row: usize, encoded_row_to_write: &[WriteableFt63]) -> (r: Result<(), EncodedFileError>)
        requires
            old(self).wf(),
            encoded_row_to_write@.len() == old(self).spec_enc(),
            target_row < old(self).spec_capacity(),
        ensures
            final(self).wf(),
            final(self).spec_pre() == old(self).spec_pre(),
            final(self).spec_enc() == old(self).spec_enc(),
            final(self).spec_capacity() == old(self).spec_capacity(),
            r is Ok <==> target_row <= old(self).spec_rows_written(),
            r matches Err(e) ==> e == EncodedFileError::RowOutOfBounds && *final(self) == *old(self),
            r is Ok ==> final(self).spec_file() == image_with_row(
                old(self).spec_file(),
                old(self).spec_capacity(),
                target_row as nat,
                encoded_row_to_write@,
            ),
            r is Ok ==> final(self).spec_rows_written() == (if target_row == old(self).spec_rows_written() {
                old(self).spec_rows_written() + 1
            } else {
                old(self).spec_rows_written()
            }),
    {
        if target_row > self.rows_written {
            return Err(EncodedFileError::RowOutOfBounds);
        }
        let ghost before = self.file_to_read@;
        let cap = self.row_capacity;
        let flen = self.file_to_read.len();
        let mut c: usize = 0;
        while c < self.encoded_size
            invariant
                c <= self.encoded_size,
                flen == before.len(),
                self.encoded_size == old(self).encoded_size,
                self.pre_encoded_size == old(self).pre_encoded_size,
                self.rows_written == old(self).rows_written,
                self.encoding == old(self).encoding,
                self.row_capacity == cap,
                target_row < cap,
                self.file_to_read@.len() == before.len(),
                before.len() == self.encoded_size * cap,
                encoded_row_to_write@.len() == self.encoded_size,
                forall|i: int|
                    0 <= i < before.len() ==> #[trigger] self.file_to_read@[i] == (if i % (cap as int) == target_row
                        && i / (cap as int) < c {
                        WriteableFt63::spec_from_canonical(encoded_row_to_write@[i / (cap as int)].value())
                    } else {
                        before[i]
                    }),
            decreases self.encoded_size - c,
        {
            proof {
                lemma_index_in_column(c as nat, target_row as nat, cap as nat, self.encoded_size as nat);
                crate::fields::writable_ft63::lemma_mont_value_bound(encoded_row_to_write@[c as int].repr());
            }
            let v = encoded_row_to_write[c].to_canonical_u64();
            let idx = c * cap + target_row;
            self.file_to_read.set(idx, WriteableFt63::from_canonical_u64(v));
            proof {
                assert forall|i: int| 0 <= i < before.len() implies #[trigger] self.file_to_read@[i] == (if i % (cap as int) == target_row
                    && i / (cap as int) < c + 1 {
                    WriteableFt63::spec_from_canonical(encoded_row_to_write@[i / (cap as int)].value())
                } else {
                    before[i]
                }) by {
                    lemma_column_index_parts(i, cap as int);
                    if i == idx as int {
                        lemma_split_index(c as int, target_row as int, cap as int);
                    } else if i % (cap as int) == target_row && i / (cap as int) == c as int {
                        assert(i == (i / (cap as int)) * cap + i % (cap as int));
                    }
                }
            }
            c = c + 1;
        }
        proof {
            assert(self.file_to_read@ =~= image_with_row(before, cap as nat, target_row as nat, encoded_row_to_write@));
        }
        if target_row == self.rows_written {
            self.rows_written = self.rows_written + 1;
        }
        Ok(())
    }

    /// The first `rows_written` elements of column `target_col`.
    pub fn get_encoded_column_without_path(&self, target_col: usize) -> (r: Result<Vec<WriteableFt63>, EncodedFileError>)
        requires
            self.wf(),
            target_col * self.spec_capacity() + self.spec_rows_written() <= usize::MAX,
        ensures
            r is Ok <==> target_col * self.spec_capacity() + self.spec_rows_written() <= self.spec_file().len(),
            r matches Err(e) ==> e == EncodedFileError::ReadPastEnd,
            r matches Ok(col) ==> col@ == image_column(self.spec_file(), self.spec_capacity(), target_col as nat, self.spec_rows_written()),
    {
        let start = target_col * self.row_capacity;
        if start + self.rows_written > self.file_to_read.len() {
            return Err(EncodedFileError::ReadPastEnd);
        }
        let mut col: Vec<WriteableFt63> = Vec::new();
        let mut i: usize = 0;
        let flen = self.file_to_read.len();
        while i < self.rows_written
            invariant
                i <= self.rows_written,
                flen == self.file_to_read@.len(),
                start + self.rows_written <= self.file_to_read@.len(),
                col@ =~= self.file_to_read@.subrange(start as int, start + i),
            decreases self.rows_written - i,
        {
            col.push(self.file_to_read[start + i]);
            i = i + 1;
        }
        Ok(col)
    }

    /// The Merkle tree over the digests of the written part of every column.
    pub fn process_file_to_merkle_tree(&self) -> (r: Result<MerkleTree, EncodedFileError>)
        requires
            self.wf(),
        ensures
            r is Ok <==> self.spec_enc() > 2,
            r matches Err(e) ==> e == EncodedFileError::Tree(MerkleTreeError::TooSmall),
            r matches Ok(t) ==> t.shape_ok() && t.links_ok() && t.spec_width() == self.spec_enc() && forall|c: int|
                0 <= c < self.spec_enc() ==> (#[trigger] t.leaves()[c])@ == column_digest(
                    image_column(self.spec_file(), self.spec_capacity(), c as nat, self.spec_rows_written()),
                ),
    {
        let mut digests: Vec<[u8; 32]> = Vec::new();
        let mut c: usize = 0;
        let flen = self.file_to_read.len();
        while c < self.encoded_size
            invariant
                self.wf(),
                flen == self.file_to_read@.len(),
                c <= self.encoded_size,
                digests@.len() == c,
                forall|k: int|
                    0 <= k < c ==> (#[trigger] digests@[k])@ == column_digest(
                        image_column(self.spec_file(), self.spec_capacity(), k as nat, self.spec_rows_written()),
                    ),
            decreases self.encoded_size - c,
        {
            proof {
                lemma_column_fits(c as nat, self.row_capacity as nat, self.rows_written as nat, self.encoded_size as nat);
            }
            let column = match self.get_encoded_column_without_path(c) {
                Ok(col) => col,
                Err(e) => { return Err(e); },
            };
            digests.push(digest_of_column(&column));
            c = c + 1;
        }
        match MerkleTree::new(&digests) {
            Ok(tree) => {
                proof {
                    assert forall|k: int| 0 <= k < self.spec_enc() implies (#[trigger] tree.leaves()[k])@ == column_digest(
                        image_column(self.spec_file(), self.spec_capacity(), k as nat, self.spec_rows_written()),
                    ) by {
                        assert(tree.leaves()[k] == digests@[k]);
                    }
                }
                Ok(tree)
            },
            Err(e) => Err(EncodedFileError::Tree(e)),
        }
    }

    /// Lays the file out again with columns `new_row_capacity` long: each column keeps
    /// its first `new_row_capacity` elements and gains zeros when it grows.  A capacity
    /// below the rows written is refused and leaves the file as it was.
    pub fn set_new_capacity(&mut self, new_row_capacity: usize) -> (r: Result<(), EncodedFileError>)
        requires
            old(self).wf(),
            old(self).spec_enc() * new_row_capacity <= usize::MAX,
        ensures
            final(self).wf(),
            final(self).spec_pre() == old(self).spec_pre(),
            final(self).spec_enc() == old(self).spec_enc(),
            final(self).spec_rows_written() == old(self).spec_rows_written(),
            r is Ok <==> new_row_capacity >= old(self).spec_rows_written(),
            r matches Err(e) ==> e == EncodedFileError::CapacityTooSmall && *final(self) == *old(self),
            r is Ok ==> final(self).spec_capacity() == new_row_capacity && final(self).spec_file() == image_recapacitated(
                old(self).spec_file(),
                old(self).spec_capacity(),
                old(self).spec_enc(),
                new_row_capacity as nat,
            ),
    {
        if new_row_capacity < self.rows_written {
            return Err(EncodedFileError::CapacityTooSmall);
        }
        let old_cap = self.row_capacity;
        let enc = self.encoded_size;
        let total = enc * new_row_capacity;
        let ghost before = self.file_to_read@;
        let ghost target = image_recapacitated(before, old_cap as nat, enc as nat, new_row_capacity as nat);
        let mut out: Vec<WriteableFt63> = Vec::new();
        let mut i: usize = 0;
        let flen = self.file_to_read.len();
        while i < total
            invariant
                i <= total,
                flen == before.len(),
                total == enc * new_row_capacity,
                before == self.file_to_read@,
                before.len() == enc * old_cap,
                target == image_recapacitated(before, old_cap as nat, enc as nat, new_row_capacity as nat),
                out@ =~= target.subrange(0, i as int),
            decreases total - i,
        {
            proof {
                assert(new_row_capacity > 0) by (nonlinear_arith)
                    requires i < total, total == enc * new_row_capacity;
            }
            let col = i / new_row_capacity;
            let off = i % new_row_capacity;
            if off < old_cap {
                proof {
                    lemma_recap_index(i as int, new_row_capacity as int, old_cap as int, enc as int);
                }
                out.push(self.file_to_read[col * old_cap + off]);
            } else {
                out.push(WriteableFt63::zero());
            }
            i = i + 1;
        }
        self.file_to_read = out;
        self.row_capacity = new_row_capacity;
        Ok(())
    }

    /// The data elements of row `target_row`: the row decoded, cut to `pre_encoded_size`.
    pub fn get_unencoded_row(&self, target_row: usize) -> (r: Result<Vec<WriteableFt63>, EncodedFileError>)
        requires
            self.wf(),
        ensures
            r is Ok <==> target_row < self.spec_rows_written(),
            r matches Err(e) ==> e == EncodedFileError::RowOutOfBounds,
            r matches Ok(row) ==> row@ == decoded_row(
                self.spec_file(),
                self.spec_capacity(),
                self.spec_enc(),
                self.spec_pre(),
                target_row as nat,
            ),
            r matches Ok(row) ==> row@.len() == self.spec_pre(),
    {
        if target_row >= self.rows_written {
            return Err(EncodedFileError::RowOutOfBounds);
        }
        let encoded_row = match self.get_encoded_row(target_row) {
            Ok(row) => row,
            Err(e) => { return Err(e); },
        };
        let decoded = match decode_row(encoded_row) {
            Ok(d) => d,
            Err(e) => { return Err(EncodedFileError::Encode(e)); },
        };
        let mut out: Vec<WriteableFt63> = Vec::new();
        let mut i: usize = 0;
        while i < self.pre_encoded_size
            invariant
                self.wf(),
                i <= self.pre_encoded_size,
                decoded@.len() == self.encoded_size,
                out@ =~= decoded@.subrange(0, i as int),
            decreases self.pre_encoded_size - i,
        {
            out.push(decoded[i]);
            i = i + 1;
        }
        Ok(out)
    }

    /// The data bytes of row `target_row`.
    pub fn get_unencoded_row_bytes(&self, target_row: usize) -> (r: Result<Vec<u8>, EncodedFileError>)
        requires
            self.wf(),
        ensures
            r is Ok <==> target_row < self.spec_rows_written(),
            r matches Err(e) ==> e == EncodedFileError::RowOutOfBounds,
            r matches Ok(bytes) ==> bytes@ == spec_field_vec_to_byte_vec(
                decoded_row(self.spec_file(), self.spec_capacity(), self.spec_enc(), self.spec_pre(), target_row as nat),
            ),
            r matches Ok(bytes) ==> bytes@.len() == self.spec_pre() * 7,
    {
        match self.get_unencoded_row(target_row) {
            Ok(row) => {
                proof {
                    crate::fields::data_field::lemma_field_vec_bytes_len(row@);
                }
                Ok(field_vec_to_byte_vec(&row))
            },
            Err(e) => Err(e),
        }
    }

    /// Appends the data bytes of every written row, in order, to `target_file`.
    pub fn decode_to_target_file(&self, target_file: &mut Vec<u8>) -> (r: Result<(), EncodedFileError>)
        requires
            self.wf(),
        ensures
            r is Ok,
            final(target_file)@ == old(target_file)@ + decoded_bytes(
                self.spec_file(),
                self.spec_capacity(),
                self.spec_enc(),
                self.spec_pre(),
                self.spec_rows_written(),
            ),
    {
        let ghost start = target_file@;
        let mut r: usize = 0;
        while r < self.rows_written
            invariant
                self.wf(),
                r <= self.rows_written,
                target_file@ == start + decoded_bytes(
                    self.spec_file(),
                    self.spec_capacity(),
                    self.spec_enc(),
                    self.spec_pre(),
                    r as nat,
                ),
            decreases self.rows_written - r,
        {
            let mut bytes = match self.get_unencoded_row_bytes(r) {
                Ok(b) => b,
                Err(e) => { return Err(e); },
            };
            proof {
                assert(start + decoded_bytes(self.spec_file(), self.spec_capacity(), self.spec_enc(), self.spec_pre(), r as nat)
                    + bytes@ =~= start + decoded_bytes(
                    self.spec_file(),
                    self.spec_capacity(),
                    self.spec_enc(),
                    self.spec_pre(),
                    (r + 1) as nat,
                ));
            }
            target_file.append(&mut bytes);
            r = r + 1;
        }
        Ok(())
    }

    /// The size of the data the file has room for, from its length: the file's bytes
    /// divided by the encoding's expansion factor.
    pub fn get_unencoded_file_len(&self) -> (r: usize)
        requires
            self.wf(),
            self.spec_file().len() * 8 <= usize::MAX,
        ensures
            r == (self.spec_file().len() * 8) / (self.spec_enc() / self.spec_pre()),
    {
        proof {
            vstd::arithmetic::div_mod::lemma_div_non_zero(self.encoded_size as int, self.pre_encoded_size as int);
        }
        (self.file_to_read.len() * 8) / (self.encoded_size / self.pre_encoded_size)
    }
}

proof fn lemma_index_in_column(c: nat, r: nat, cap: nat, enc: nat)
    requires
        c < enc,
        r < cap,
    ensures
        c * cap + r < enc * cap,
{
    assert(c * cap + r < enc * cap) by (nonlinear_arith)
        requires c < enc, r < cap;
}

proof fn lemma_column_fits(c: nat, cap: nat, rows: nat, enc: nat)
    requires
        c < enc,
        rows <= cap,
    ensures
        c * cap + rows <= enc * cap,
{
    assert(c * cap + rows <= enc * cap) by (nonlinear_arith)
        requires c < enc, rows <= cap;
}

proof fn lemma_column_index_parts(i: int, cap: int)
    requires
        cap > 0,
        i >= 0,
    ensures
        i == (i / cap) * cap + i % cap,
        0 <= i % cap < cap,
        i / cap >= 0,
{
    vstd::arithmetic::div_mod::lemma_fundamental_div_mod(i, cap);
    vstd::arithmetic::div_mod::lemma_mod_bound(i, cap);
    vstd::arithmetic::div_mod::lemma_div_pos_is_pos(i, cap);
    vstd::arithmetic::mul::lemma_mul_is_commutative(cap, i / cap);
}

proof fn lemma_split_index(c: int, r: int, cap: int)
    requires
        0 <= r < cap,
        c >= 0,
    ensures
        (c * cap + r) / cap == c,
        (c * cap + r) % cap == r,
{
    vstd::arithmetic::div_mod::lemma_fundamental_div_mod_converse(c * cap + r, cap, c, r);
}

proof fn lemma_recap_index(i: int, new_cap: int, old_cap: int, enc: int)
    requires
        0 <= i < enc * new_cap,
        i % new_cap < old_cap,
        new_cap > 0,
    ensures
        (i / new_cap) * old_cap + i % new_cap < enc * old_cap,
{
    lemma_column_index_parts(i, new_cap);
    let q = i / new_cap;
    let rem = i % new_cap;
    assert(q < enc) by (nonlinear_arith)
        requires i == q * new_cap + rem, i < enc * new_cap, 0 <= rem, new_cap > 0;
    assert(q * old_cap + old_cap <= enc * old_cap) by (nonlinear_arith)
        requires q + 1 <= enc, old_cap >= 0;
}

/// Writing a row of reduced elements into a file changes that row only.
pub proof fn lemma_image_with_row_rows(
    img: Seq<WriteableFt63>,
    cap: nat,
    enc: nat,
    r0: nat,
    row: Seq<WriteableFt63>,
    r: nat,
)
    requires
        img.len() == enc * cap,
        r0 < cap,
        r < cap,
        row.len() == enc,
        all_canonical(row),
    ensures
        image_row(image_with_row(img, cap, r0, row), cap, enc, r) == (if r == r0 {
            row
        } else {
            image_row(img, cap, enc, r)
        }),
{
    let new_img = image_with_row(img, cap, r0, row);
    assert forall|c: int| 0 <= c < enc implies #[trigger] image_row(new_img, cap, enc, r)[c] == (if r == r0 {
        row
    } else {
        image_row(img, cap, enc, r)
    })[c] by {
        lemma_index_in_column(c as nat, r, cap, enc);
        lemma_split_index(c, r as int, cap as int);
        if r == r0 {
            WriteableFt63::lemma_canonical_is_from_value(row[c]);
        }
    }
    assert(image_row(new_img, cap, enc, r) =~= (if r == r0 {
        row
    } else {
        image_row(img, cap, enc, r)
    }));
}

/// Writing row `r0` of reduced elements extends the first `r0` elements of each column
/// by that column's new element.
pub proof fn lemma_image_with_row_column(
    img: Seq<WriteableFt63>,
    cap: nat,
    enc: nat,
    r0: nat,
    row: Seq<WriteableFt63>,
    c: nat,
)
    requires
        img.len() == enc * cap,
        r0 < cap,
        c < enc,
        row.len() == enc,
        all_canonical(row),
    ensures
        image_column(image_with_row(img, cap, r0, row), cap, c, r0 + 1) == image_column(img, cap, c, r0).push(
            row[c as int],
        ),
{
    let new_img = image_with_row(img, cap, r0, row);
    lemma_index_in_column(c, r0, cap, enc);
    let lhs = image_column(new_img, cap, c, r0 + 1);
    let rhs = image_column(img, cap, c, r0).push(row[c as int]);
    assert forall|k: int| 0 <= k <= r0 implies #[trigger] lhs[k] == rhs[k] by {
        lemma_split_index(c as int, k, cap as int);
        if k == r0 {
            WriteableFt63::lemma_canonical_is_from_value(row[c as int]);
        }
    }
    assert(lhs =~= rhs);
}

/// Lengthening the columns keeps every row that was in them.
pub proof fn lemma_recap_rows(img: Seq<WriteableFt63>, cap: nat, enc: nat, new_cap: nat, r: nat)
    requires
        img.len() == enc * cap,
        r < cap,
        cap <= new_cap,
    ensures
        image_row(image_recapacitated(img, cap, enc, new_cap), new_cap, enc, r) == image_row(img, cap, enc, r),
{
    let new_img = image_recapacitated(img, cap, enc, new_cap);
    assert forall|c: int| 0 <= c < enc implies #[trigger] image_row(new_img, new_cap, enc, r)[c] == image_row(img, cap, enc, r)[c] by {
        lemma_index_in_column(c as nat, r, new_cap, enc);
        lemma_split_index(c, r as int, new_cap as int);
    }
    assert(image_row(new_img, new_cap, enc, r) =~= image_row(img, cap, enc, r));
}

/// Lengthening the columns keeps the start of every column.
pub proof fn lemma_recap_column(img: Seq<WriteableFt63>, cap: nat, enc: nat, new_cap: nat, c: nat, n: nat)
    requires
        img.len() == enc * cap,
        c < enc,
        n <= cap,
        cap <= new_cap,
    ensures
        image_column(image_recapacitated(img, cap, enc, new_cap), new_cap, c, n) == image_column(img, cap, c, n),
{
    let new_img = image_recapacitated(img, cap, enc, new_cap);
    lemma_column_fits(c, new_cap, n, enc);
    lemma_column_fits(c, cap, n, enc);
    assert forall|k: int| 0 <= k < n implies #[trigger] image_column(new_img, new_cap, c, n)[k] == image_column(img, cap, c, n)[k] by {
        lemma_split_index(c as int, k, new_cap as int);
    }
    assert(image_column(new_img, new_cap, c, n) =~= image_column(img, cap, c, n));
}

impl EncodedFileReader {
    /// Encodes the data bytes `new_unencoded_row` (zero-padded) and writes them as row
    /// `row_index`, which must be one of the rows written or the next one.
    pub fn replace_row_with_decoded_bytes(&mut self, row_index: usize, new_unencoded_row: &[u8]) -> (r: Result<(), EncodedFileError>)
        requires
            old(self).wf(),
            crate::fields::data_field::num_chunks(new_unencoded_row@.len(), 7) <= old(self).spec_enc(),
            row_index < old(self).spec_capacity(),
        ensures
            final(self).wf(),
            final(self).spec_pre() == old(self).spec_pre(),
            final(self).spec_enc() == old(self).spec_enc(),
            final(self).spec_capacity() == old(self).spec_capacity(),
            r is Ok <==> row_index <= old(self).spec_rows_written(),
            r matches Err(e) ==> e == EncodedFileError::RowOutOfBounds && *final(self) == *old(self),
            r is Ok ==> row_holds(*final(self), new_unencoded_row@, row_index as nat),
            r is Ok ==> forall|q: nat|
                q < final(self).spec_capacity() && q != row_index ==> #[trigger] image_row(
                    final(self).spec_file(),
                    final(self).spec_capacity(),
                    final(self).spec_enc(),
                    q,
                ) == image_row(old(self).spec_file(), old(self).spec_capacity(), old(self).spec_enc(), q),
            r is Ok ==> final(self).spec_rows_written() == (if row_index == old(self).spec_rows_written() {
                old(self).spec_rows_written() + 1
            } else {
                old(self).spec_rows_written()
            }),
    {
        let elems = from_byte_vec::<WriteableFt63>(new_unencoded_row);
        let mut row: Vec<WriteableFt63> = Vec::new();
        let mut k: usize = 0;
        while k < self.encoded_size
            invariant
                k <= self.encoded_size,
                elems@.len() <= self.encoded_size,
                row@.len() == k,
                forall|t: int| 0 <= t < k ==> (#[trigger] row@[t]).value() as u64 == padded_words(elems@, self.encoded_size as nat)[t],
            decreases self.encoded_size - k,
        {
            if k < elems.len() {
                row.push(elems[k]);
            } else {
                row.push(WriteableFt63::zero());
            }
            k = k + 1;
        }
        proof {
            assert(field_words(row@) =~= padded_words(elems@, self.encoded_size as nat));
        }
        let encoded = self.encoding.encode(&row);
        let ghost before = *self;
        let res = self.replace_encoded_row(row_index, &encoded);
        proof {
            if res is Ok {
                lemma_image_with_row_rows(before.spec_file(), before.spec_capacity(), before.spec_enc(), row_index as nat, encoded@, row_index as nat);
                assert forall|q: nat| q < self.spec_capacity() && q != row_index implies #[trigger] image_row(
                    self.spec_file(),
                    self.spec_capacity(),
                    self.spec_enc(),
                    q,
                ) == image_row(before.spec_file(), before.spec_capacity(), before.spec_enc(), q) by {
                    lemma_image_with_row_rows(before.spec_file(), before.spec_capacity(), before.spec_enc(), row_index as nat, encoded@, q);
                }
            }
        }
        res
    }
}

/// The data bytes row `r` of the file decodes to.
pub open spec fn row_bytes(img: Seq<WriteableFt63>, cap: nat, enc: nat, pre: nat, r: nat) -> Seq<u8> {
    spec_field_vec_to_byte_vec(decoded_row(img, cap, enc, pre, r))
}

/// Where an edit from byte `start` starts within row `q` of `rb` bytes, as a byte
/// position in the file.
pub open spec fn edit_lo(start: nat, q: nat, rb: nat) -> nat {
    if start > q * rb { start } else { q * rb }
}

/// Where an edit of `len` bytes from byte `start` ends within row `q` of `rb` bytes, as a
/// byte position in the file.
pub open spec fn edit_hi(start: nat, len: nat, q: nat, rb: nat) -> nat {
    if start + len < (q + 1) * rb { start + len } else { (q + 1) * rb }
}

/// Row `q`'s bytes `row` after the edit that writes `new` from byte `start`.
pub open spec fn edited_row_bytes(row: Seq<u8>, start: nat, new: Seq<u8>, q: nat, rb: nat) -> Seq<u8> {
    let lo = edit_lo(start, q, rb);
    let hi = edit_hi(start, new.len(), q, rb);
    row.take(lo - q * rb) + new.subrange(lo - start, hi - start) + row.skip(hi - q * rb)
}

/// The bytes of rows `q0..q1` that an edit of `len` bytes from byte `start` replaces.
pub open spec fn replaced_bytes(
    img: Seq<WriteableFt63>,
    cap: nat,
    enc: nat,
    pre: nat,
    start: nat,
    len: nat,
    q0: nat,
    q1: nat,
) -> Seq<u8>
    decreases q1 - q0,
{
    if q1 <= q0 {
        Seq::empty()
    } else {
        let q = (q1 - 1) as nat;
        let rb = pre * 7;
        replaced_bytes(img, cap, enc, pre, start, len, q0, q).add(
            row_bytes(img, cap, enc, pre, q).subrange(
                edit_lo(start, q, rb) - q * rb,
                edit_hi(start, len, q, rb) - q * rb,
            ),
        )
    }
}

/// The rows an edit touches end less than a row past the edit.
proof fn lemma_edit_rows_fit(start: nat, len: nat, rb: nat)
    requires
        rb > 0,
    ensures
        ceil_div(start + len, rb) * rb < start + len + rb,
{
    let n = start + len;
    vstd::arithmetic::div_mod::lemma_fundamental_div_mod((n + rb - 1) as int, rb as int);
    vstd::arithmetic::div_mod::lemma_mod_bound((n + rb - 1) as int, rb as int);
    assert(ceil_div(n, rb) * rb < n + rb) by (nonlinear_arith)
        requires
            (n + rb - 1) as int == rb * ceil_div(n, rb) + (n + rb - 1) as int % (rb as int),
            (n + rb - 1) as int % (rb as int) >= 0;
}

/// The row an edit starts in begins at or before the edit and comes before the row the
/// edit ends past.
proof fn lemma_edit_start(start: nat, len: nat, rb: nat)
    requires
        rb > 0,
        len > 0,
    ensures
        (start / rb) * rb <= start,
        start / rb < ceil_div(start + len, rb),
{
    let n = (start + len + rb - 1) as int;
    vstd::arithmetic::div_mod::lemma_fundamental_div_mod(start as int, rb as int);
    vstd::arithmetic::div_mod::lemma_mod_bound(start as int, rb as int);
    vstd::arithmetic::div_mod::lemma_fundamental_div_mod(n, rb as int);
    vstd::arithmetic::div_mod::lemma_mod_bound(n, rb as int);
    assert((start / rb) * rb <= start) by (nonlinear_arith)
        requires start as int == rb * (start / rb) + start as int % (rb as int), start as int % (rb as int) >= 0;
    assert(start / rb < n / (rb as int)) by (nonlinear_arith)
        requires
            start as int == rb * (start / rb) + start as int % (rb as int),
            start as int % (rb as int) < rb,
            n == rb * (n / (rb as int)) + n % (rb as int),
            n % (rb as int) < rb,
            n >= start + rb,
            rb > 0;
}

/// A row the edit touches starts before the edit ends and ends after it starts.
proof fn lemma_row_in_edit(start: nat, len: nat, rb: nat, start_row: nat, row: nat, end_row: nat)
    requires
        rb > 0,
        start_row == start / rb,
        end_row == ceil_div(start + len, rb),
        start_row <= row < end_row,
    ensures
        row * rb < start + len,
        start < (row + 1) * rb,
        (row + 1) * rb <= end_row * rb,
        row * rb + rb == (row + 1) * rb,
        row + 1 < end_row ==> (row + 1) * rb < start + len,
{
    crate::lcpc_online::encoded_file_writer::lemma_row_start_in_data_pub(start + len, rb, row);
    if row + 1 < end_row {
        crate::lcpc_online::encoded_file_writer::lemma_row_start_in_data_pub(start + len, rb, row + 1);
    }
    vstd::arithmetic::div_mod::lemma_fundamental_div_mod(start as int, rb as int);
    vstd::arithmetic::div_mod::lemma_mod_bound(start as int, rb as int);
    assert(start < (row + 1) * rb) by (nonlinear_arith)
        requires
            start as int == rb * start_row + start as int % (rb as int),
            start as int % (rb as int) < rb,
            start_row <= row;
    assert((row + 1) * rb <= end_row * rb) by (nonlinear_arith)
        requires row < end_row;
    assert(row * rb + rb == (row + 1) * rb) by (nonlinear_arith);
}

/// A row of `pre` elements' worth of bytes packs into `pre` elements.
proof fn lemma_rb_chunks(pre: nat)
    ensures
        crate::fields::data_field::num_chunks(pre * 7, 7) == pre,
{
    vstd::arithmetic::div_mod::lemma_mod_multiples_basic(pre as int, 7);
    vstd::arithmetic::div_mod::lemma_div_multiples_vanish(pre as int, 7);
}

/// A row that holds some bytes still holds them in a file whose row is the same.
proof fn lemma_row_holds_same_row(a: EncodedFileReader, b: EncodedFileReader, chunk: Seq<u8>, q: nat)
    requires
        row_holds(a, chunk, q),
        image_row(b.spec_file(), b.spec_capacity(), b.spec_enc(), q) == image_row(
            a.spec_file(),
            a.spec_capacity(),
            a.spec_enc(),
            q,
        ),
        a.spec_enc() == b.spec_enc(),
    ensures
        row_holds(b, chunk, q),
{
}

impl EncodedFileReader {
    /// Replaces the data bytes from `unencoded_start_byte` on with `new_unencoded_data`,
    /// encoding again each row the edit touches; gives back the bytes that were replaced.
    /// All the rows the edit touches must have been written.
    pub fn edit_decoded_bytes(&mut self, unencoded_start_byte: usize, new_unencoded_data: &[u8]) -> (r: Result<
        Vec<u8>,
        EncodedFileError,
    >)
        requires
            old(self).wf(),
            new_unencoded_data@.len() > 0,
            unencoded_start_byte + new_unencoded_data@.len() + old(self).spec_pre() * 7 <= usize::MAX,
        ensures
            ({
                let rb = old(self).spec_pre() * 7;
                let end_row = ceil_div(unencoded_start_byte as nat + new_unencoded_data@.len(), rb);
                &&& r is Ok <==> end_row <= old(self).spec_rows_written()
                &&& r matches Err(e) ==> e == EncodedFileError::RowOutOfBounds && *final(self) == *old(self)
            }),
            final(self).wf(),
            final(self).spec_pre() == old(self).spec_pre(),
            final(self).spec_enc() == old(self).spec_enc(),
            final(self).spec_capacity() == old(self).spec_capacity(),
            final(self).spec_rows_written() == old(self).spec_rows_written(),
            r matches Ok(original) ==> {
                let rb = old(self).spec_pre() * 7;
                let start = unencoded_start_byte as nat;
                let start_row = start / rb;
                let end_row = ceil_div(start + new_unencoded_data@.len(), rb);
                let img = old(self).spec_file();
                let cap = old(self).spec_capacity();
                let enc = old(self).spec_enc();
                let pre = old(self).spec_pre();
                &&& original@ == replaced_bytes(img, cap, enc, pre, start, new_unencoded_data@.len(), start_row, end_row)
                &&& forall|q: nat|
                    start_row <= q < end_row ==> row_holds(
                        *final(self),
                        #[trigger] edited_row_bytes(row_bytes(img, cap, enc, pre, q), start, new_unencoded_data@, q, rb),
                        q,
                    )
                &&& forall|q: nat|
                    q < cap && !(start_row <= q < end_row) ==> #[trigger] image_row(
                        final(self).spec_file(),
                        cap,
                        enc,
                        q,
                    ) == image_row(img, cap, enc, q)
                &&& forall|q: nat| start_row <= q < end_row ==> #[trigger] row_bytes(img, cap, enc, pre, q).len() == rb
                &&& (forall|q: nat| q < old(self).spec_rows_written() ==> #[trigger] row_bytes(img, cap, enc, pre, q).len()
                    == rb) ==> {
                    &&& decoded_bytes(final(self).spec_file(), cap, enc, pre, old(self).spec_rows_written()) == spliced(
                        decoded_bytes(img, cap, enc, pre, old(self).spec_rows_written()),
                        start,
                        new_unencoded_data@,
                    )
                    &&& original@ == decoded_bytes(img, cap, enc, pre, old(self).spec_rows_written()).subrange(
                        start as int,
                        (start + new_unencoded_data@.len()) as int,
                    )
                }
            },
    {
        let pre = self.pre_encoded_size;
        let rb = pre * 7;
        let len = new_unencoded_data.len();
        let start = unencoded_start_byte;
        let end_byte = start + len;
        let start_row = (start / 7) / pre;
        let end_row = div_ceil(div_ceil(end_byte, 7), pre);
        proof {
            vstd::arithmetic::div_mod::lemma_div_denominator(start as int, 7, pre as int);
            lemma_ceil_ceil(end_byte as nat, 7, pre as nat);
            assert(7 * pre == pre * 7);
        }
        if end_row > self.rows_written {
            return Err(EncodedFileError::RowOutOfBounds);
        }
        let ghost old_self = *self;
        let ghost img = self.spec_file();
        let ghost cap = self.spec_capacity();
        let ghost enc = self.spec_enc();
        proof {
            lemma_edit_rows_fit(start as nat, len as nat, rb as nat);
            lemma_edit_start(start as nat, len as nat, rb as nat);
        }
        let mut original: Vec<u8> = Vec::new();
        let mut row = start_row;
        let mut current = start;
        while row < end_row
            invariant
                self.wf(),
                old_self.wf(),
                self.spec_pre() == pre,
                pre == old_self.spec_pre(),
                rb == pre * 7,
                self.spec_enc() == enc,
                enc == old_self.spec_enc(),
                self.spec_capacity() == cap,
                cap == old_self.spec_capacity(),
                img == old_self.spec_file(),
                self.spec_rows_written() == old_self.spec_rows_written(),
                end_row <= old_self.spec_rows_written(),
                old_self.spec_rows_written() <= cap,
                len == new_unencoded_data@.len(),
                len > 0,
                end_byte == start + len,
                start_row == start / rb,
                end_row == ceil_div(end_byte as nat, rb as nat),
                start + len + rb <= usize::MAX,
                start_row <= row <= end_row,
                end_row * rb < end_byte + rb,
                row < end_row ==> current == edit_lo(start as nat, row as nat, rb as nat),
                original@ == replaced_bytes(img, cap, enc, pre as nat, start as nat, len as nat, start_row as nat, row as nat),
                forall|q: nat|
                    start_row <= q < row ==> row_holds(
                        *self,
                        #[trigger] edited_row_bytes(row_bytes(img, cap, enc, pre as nat, q), start as nat, new_unencoded_data@, q, rb as nat),
                        q,
                    ),
                forall|q: nat|
                    q < cap && !(start_row <= q < row) ==> #[trigger] image_row(self.spec_file(), cap, enc, q)
                        == image_row(img, cap, enc, q),
                forall|q: nat| start_row <= q < row ==> #[trigger] row_bytes(img, cap, enc, pre as nat, q).len() == rb,
            decreases end_row - row,
        {
            let ghost before = *self;
            proof {
                lemma_row_in_edit(start as nat, len as nat, rb as nat, start_row as nat, row as nat, end_row as nat);
            }
            let bytes = match self.get_unencoded_row_bytes(row) {
                Ok(b) => b,
                Err(e) => { return Err(e); },
            };
            proof {
                assert(image_row(self.spec_file(), cap, enc, row as nat) == image_row(img, cap, enc, row as nat));
                assert(row_bytes(self.spec_file(), cap, enc, pre as nat, row as nat) == row_bytes(img, cap, enc, pre as nat, row as nat));
            }
            let row_start = row * rb;
            let row_end = row_start + rb;
            let lo = if current > row_start { current } else { row_start };
            let hi = if end_byte < row_end { end_byte } else { row_end };
            let a = lo - row_start;
            let b = hi - row_start;
            let written = lo - start;
            let mut edited: Vec<u8> = Vec::new();
            let mut i: usize = 0;
            while i < a
                invariant
                    i <= a,
                    a <= b,
                    b <= bytes@.len(),
                    edited@ =~= bytes@.take(i as int),
                decreases a - i,
            {
                edited.push(bytes[i]);
                i = i + 1;
            }
            let mut j: usize = a;
            while j < b
                invariant
                    a <= j <= b,
                    b <= bytes@.len(),
                    written + (b - a) <= len,
                    len == new_unencoded_data@.len(),
                    edited@ =~= bytes@.take(a as int) + new_unencoded_data@.subrange(written as int, written + (j - a)),
                    original@ =~= replaced_bytes(img, cap, enc, pre as nat, start as nat, len as nat, start_row as nat, row as nat)
                        + bytes@.subrange(a as int, j as int),
                decreases b - j,
            {
                edited.push(new_unencoded_data[written + (j - a)]);
                original.push(bytes[j]);
                j = j + 1;
            }
            let mut k: usize = b;
            while k < bytes.len()
                invariant
                    b <= k <= bytes@.len(),
                    edited@ =~= bytes@.take(a as int) + new_unencoded_data@.subrange(written as int, written + (b - a))
                        + bytes@.subrange(b as int, k as int),
                decreases bytes.len() - k,
            {
                edited.push(bytes[k]);
                k = k + 1;
            }
            proof {
                assert(edited@ =~= edited_row_bytes(
                    row_bytes(img, cap, enc, pre as nat, row as nat),
                    start as nat,
                    new_unencoded_data@,
                    row as nat,
                    rb as nat,
                ));
                lemma_rb_chunks(pre as nat);
            }
            let _ = self.replace_row_with_decoded_bytes(row, edited.as_slice());
            proof {
                assert forall|q: nat|
                    start_row <= q < row + 1 implies row_holds(
                        *self,
                        #[trigger] edited_row_bytes(row_bytes(img, cap, enc, pre as nat, q), start as nat, new_unencoded_data@, q, rb as nat),
                        q,
                    ) by {
                    if q < row {
                        lemma_row_holds_same_row(before, *self, edited_row_bytes(row_bytes(img, cap, enc, pre as nat, q), start as nat, new_unencoded_data@, q, rb as nat), q);
                    }
                }
            }
            current = hi;
            row = row + 1;
        }
        proof {
            let rw = old_self.spec_rows_written();
            if forall|q: nat| q < rw ==> #[trigger] row_bytes(img, cap, enc, pre as nat, q).len() == rb {
                lemma_edit_reads_back(old_self, *self, start as nat, new_unencoded_data@, original@);
            }
        }
        Ok(original)
    }
}

/// When each of the first `k` rows decodes to `rb` bytes, the decoded bytes of those rows
/// are `k * rb` long and byte `i` is byte `i % rb` of row `i / rb`.
pub proof fn lemma_decoded_bytes_index(img: Seq<WriteableFt63>, cap: nat, enc: nat, pre: nat, k: nat)
    requires
        pre > 0,
        forall|q: nat| q < k ==> #[trigger] row_bytes(img, cap, enc, pre, q).len() == pre * 7,
    ensures
        decoded_bytes(img, cap, enc, pre, k).len() == k * (pre * 7),
        forall|i: int|
            0 <= i < k * (pre * 7) ==> #[trigger] decoded_bytes(img, cap, enc, pre, k)[i] == row_bytes(
                img,
                cap,
                enc,
                pre,
                (i / (pre * 7) as int) as nat,
            )[i % (pre * 7) as int],
    decreases k,
{
    let rb = pre * 7;
    if k > 0 {
        lemma_decoded_bytes_index(img, cap, enc, pre, (k - 1) as nat);
        let prev = decoded_bytes(img, cap, enc, pre, (k - 1) as nat);
        let last = row_bytes(img, cap, enc, pre, (k - 1) as nat);
        assert(decoded_bytes(img, cap, enc, pre, k) == prev + last);
        assert((k - 1) * rb + rb == k * rb) by (nonlinear_arith);
        assert forall|i: int| 0 <= i < k * rb implies #[trigger] decoded_bytes(img, cap, enc, pre, k)[i] == row_bytes(
            img,
            cap,
            enc,
            pre,
            (i / rb as int) as nat,
        )[i % rb as int] by {
            if i >= (k - 1) * rb {
                let t = i - (k - 1) * rb;
                vstd::arithmetic::div_mod::lemma_fundamental_div_mod_converse(i, rb as int, (k - 1) as int, t);
            }
        }
    }
}

/// The bytes a file decodes to after an edit (every written row decoding to a full row
/// of bytes): the old decoded bytes with the edit spliced in; and the bytes the edit
/// handed back are the ones it replaced.
pub proof fn lemma_edit_reads_back(
    before: EncodedFileReader,
    after: EncodedFileReader,
    start: nat,
    data: Seq<u8>,
    original: Seq<u8>,
)
    requires
        before.wf(),
        after.wf(),
        after.spec_pre() == before.spec_pre(),
        after.spec_enc() == before.spec_enc(),
        after.spec_capacity() == before.spec_capacity(),
        after.spec_rows_written() == before.spec_rows_written(),
        data.len() > 0,
        ceil_div(start + data.len(), before.spec_pre() * 7) <= before.spec_rows_written(),
        forall|q: nat|
            q < before.spec_rows_written() ==> #[trigger] row_bytes(
                before.spec_file(),
                before.spec_capacity(),
                before.spec_enc(),
                before.spec_pre(),
                q,
            ).len() == before.spec_pre() * 7,
        original == replaced_bytes(
            before.spec_file(),
            before.spec_capacity(),
            before.spec_enc(),
            before.spec_pre(),
            start,
            data.len(),
            start / (before.spec_pre() * 7),
            ceil_div(start + data.len(), before.spec_pre() * 7),
        ),
        forall|q: nat|
            start / (before.spec_pre() * 7) <= q < ceil_div(start + data.len(), before.spec_pre() * 7) ==> row_holds(
                after,
                #[trigger] edited_row_bytes(
                    row_bytes(before.spec_file(), before.spec_capacity(), before.spec_enc(), before.spec_pre(), q),
                    start,
                    data,
                    q,
                    before.spec_pre() * 7,
                ),
                q,
            ),
        forall|q: nat|
            q < before.spec_capacity() && !(start / (before.spec_pre() * 7) <= q < ceil_div(
                start + data.len(),
                before.spec_pre() * 7,
            )) ==> #[trigger] image_row(after.spec_file(), before.spec_capacity(), before.spec_enc(), q)
                == image_row(before.spec_file(), before.spec_capacity(), before.spec_enc(), q),
    ensures
        decoded_bytes(
            after.spec_file(),
            after.spec_capacity(),
            after.spec_enc(),
            after.spec_pre(),
            after.spec_rows_written(),
        ) == spliced(
            decoded_bytes(
                before.spec_file(),
                before.spec_capacity(),
                before.spec_enc(),
                before.spec_pre(),
                before.spec_rows_written(),
            ),
            start,
            data,
        ),
        original == decoded_bytes(
            before.spec_file(),
            before.spec_capacity(),
            before.spec_enc(),
            before.spec_pre(),
            before.spec_rows_written(),
        ).subrange(start as int, (start + data.len()) as int),
{
    let pre = before.spec_pre();
    let enc = before.spec_enc();
    let cap = before.spec_capacity();
    let rw = before.spec_rows_written();
    let rb = pre * 7;
    let len = data.len();
    let img0 = before.spec_file();
    let img1 = after.spec_file();
    let start_row = start / rb;
    let end_row = ceil_div(start + len, rb);
    lemma_edit_start(start, len, rb);
    lemma_edit_rows_fit(start, len, rb);
    // the rows after the edit decode to the edited bytes, or to what they held
    assert forall|q: nat| q < rw implies #[trigger] row_bytes(img1, cap, enc, pre, q) == (if start_row <= q < end_row {
        edited_row_bytes(row_bytes(img0, cap, enc, pre, q), start, data, q, rb)
    } else {
        row_bytes(img0, cap, enc, pre, q)
    }) by {
        if start_row <= q < end_row {
            lemma_row_in_edit(start, len, rb, start_row, q, end_row);
            let chunk = edited_row_bytes(row_bytes(img0, cap, enc, pre, q), start, data, q, rb);
            assert(chunk.len() == rb);
            lemma_row_decodes_to(after, chunk, q);
            assert(zero_extended(chunk, rb) =~= chunk);
        } else {
            assert(image_row(img1, cap, enc, q) == image_row(img0, cap, enc, q));
        }
    }
    assert forall|q: nat| q < rw implies #[trigger] row_bytes(img1, cap, enc, pre, q).len() == rb by {
        if start_row <= q < end_row {
            lemma_row_in_edit(start, len, rb, start_row, q, end_row);
        }
    }
    lemma_decoded_bytes_index(img0, cap, enc, pre, rw);
    lemma_decoded_bytes_index(img1, cap, enc, pre, rw);
    let d0 = decoded_bytes(img0, cap, enc, pre, rw);
    let d1 = decoded_bytes(img1, cap, enc, pre, rw);
    assert(end_row * rb <= rw * rb) by (nonlinear_arith)
        requires end_row <= rw;
    lemma_ceil_covers(start + len, rb);
    assert(start + len <= d0.len());
    assert forall|i: int| 0 <= i < d1.len() implies d1[i] == spliced(d0, start, data)[i] by {
        let q = i / rb as int;
        let t = i % rb as int;
        vstd::arithmetic::div_mod::lemma_fundamental_div_mod(i, rb as int);
        vstd::arithmetic::div_mod::lemma_mod_bound(i, rb as int);
        assert(0 <= q < rw) by {
            vstd::arithmetic::div_mod::lemma_div_pos_is_pos(i, rb as int);
            vstd::arithmetic::div_mod::lemma_multiply_divide_lt(i, rb as int, rw as int);
        }
        assert(q * rb + rb == (q + 1) * rb) by (nonlinear_arith);
        assert(i == q * rb + t) by (nonlinear_arith)
            requires i == rb * q + t;
        let old_row = row_bytes(img0, cap, enc, pre, q as nat);
        assert(d1[i] == row_bytes(img1, cap, enc, pre, q as nat)[t]);
        assert(d0[i] == old_row[t]);
        if start_row <= q < end_row {
            lemma_row_in_edit(start, len, rb, start_row, q as nat, end_row);
            let lo = edit_lo(start, q as nat, rb);
            let hi = edit_hi(start, len, q as nat, rb);
            let a = lo - q * rb;
            let b = hi - q * rb;
            let edited = edited_row_bytes(old_row, start, data, q as nat, rb);
            assert(row_bytes(img1, cap, enc, pre, q as nat) == edited);
            if t < a {
                assert(edited[t] == old_row[t]);
                assert(i < start);
            } else if t < b {
                assert(edited[t] == data[lo - start + (t - a)]);
                assert(lo - start + (t - a) == i - start);
                assert(start <= i < start + len);
            } else {
                assert(edited[t] == old_row.skip(b)[t - b]);
                assert(i >= start + len);
            }
        } else {
            if q < start_row {
                assert((q + 1) * rb <= start_row * rb) by (nonlinear_arith)
                    requires q + 1 <= start_row;
                assert(i < start);
            } else {
                assert(end_row * rb <= q * rb) by (nonlinear_arith)
                    requires end_row <= q;
                assert(i >= start + len);
            }
        }
    }
    assert(d1 =~= spliced(d0, start, data));
    // the handed back bytes are the replaced ones, row after row
    assert forall|q: nat| start_row <= q <= end_row implies #[trigger] replaced_bytes(
        img0,
        cap,
        enc,
        pre,
        start,
        len,
        start_row,
        q,
    ) == d0.subrange(start as int, (if q * rb < start + len { if q * rb > start { q * rb } else { start } } else { start + len }) as int) by {
        lemma_replaced_prefix(img0, cap, enc, pre, start, len, rw, q);
    }
}

/// Rows of `rb` bytes, as many as `ceil(n / rb)`, cover `n` bytes.
proof fn lemma_ceil_covers(n: nat, rb: nat)
    requires
        rb > 0,
    ensures
        ceil_div(n, rb) * rb >= n,
{
    vstd::arithmetic::div_mod::lemma_fundamental_div_mod((n + rb - 1) as int, rb as int);
    vstd::arithmetic::div_mod::lemma_mod_bound((n + rb - 1) as int, rb as int);
    assert(ceil_div(n, rb) * rb >= n) by (nonlinear_arith)
        requires
            (n + rb - 1) as int == rb * ceil_div(n, rb) + (n + rb - 1) as int % (rb as int),
            (n + rb - 1) as int % (rb as int) < rb;
}

/// The bytes an edit replaces in its first rows are the decoded bytes from the edit's
/// start to the end of those rows.
proof fn lemma_replaced_prefix(
    img: Seq<WriteableFt63>,
    cap: nat,
    enc: nat,
    pre: nat,
    start: nat,
    len: nat,
    rw: nat,
    q: nat,
)
    requires
        pre > 0,
        len > 0,
        start / (pre * 7) <= q <= ceil_div(start + len, pre * 7),
        ceil_div(start + len, pre * 7) <= rw,
        forall|r: nat| r < rw ==> #[trigger] row_bytes(img, cap, enc, pre, r).len() == pre * 7,
    ensures
        replaced_bytes(img, cap, enc, pre, start, len, start / (pre * 7), q) == decoded_bytes(img, cap, enc, pre, rw).subrange(
            start as int,
            (if q * (pre * 7) < start + len {
                if q * (pre * 7) > start { q * (pre * 7) } else { start }
            } else {
                start + len
            }) as int,
        ),
    decreases q,
{
    let rb = pre * 7;
    let start_row = start / rb;
    let end_row = ceil_div(start + len, rb);
    let d = decoded_bytes(img, cap, enc, pre, rw);
    lemma_edit_start(start, len, rb);
    lemma_decoded_bytes_index(img, cap, enc, pre, rw);
    assert(end_row * rb <= rw * rb) by (nonlinear_arith)
        requires end_row <= rw;
    lemma_ceil_covers(start + len, rb);
    if q == start_row {
        assert(d.subrange(start as int, start as int) =~= Seq::<u8>::empty());
    } else {
        let p = (q - 1) as nat;
        lemma_replaced_prefix(img, cap, enc, pre, start, len, rw, p);
        lemma_row_in_edit(start, len, rb, start_row, p, end_row);
        let lo = edit_lo(start, p, rb);
        let hi = edit_hi(start, len, p, rb);
        let row = row_bytes(img, cap, enc, pre, p);
        assert(row.subrange(lo - p * rb, hi - p * rb) =~= d.subrange(lo as int, hi as int)) by {
            assert forall|j: int| 0 <= j < hi - lo implies row.subrange(lo - p * rb, hi - p * rb)[j] == d.subrange(
                lo as int,
                hi as int,
            )[j] by {
                let i = lo + j;
                let t = lo - p * rb + j;
                vstd::arithmetic::div_mod::lemma_fundamental_div_mod_converse(i, rb as int, p as int, t);
            }
        }
        assert(d.subrange(start as int, lo as int) + d.subrange(lo as int, hi as int) =~= d.subrange(
            start as int,
            hi as int,
        ));
    }
}

/// Zero bytes added to data within a row do not change the row's encoding.
pub proof fn lemma_zero_extension_same_row(c: Seq<u8>, pre: nat, enc: nat)
    requires
        c.len() <= pre * 7,
        pre < enc,
    ensures
        padded_words(spec_from_byte_vec::<WriteableFt63>(zero_extended(c, pre * 7)), enc) == padded_words(
            spec_from_byte_vec::<WriteableFt63>(c),
            enc,
        ),
{
    let z = zero_extended(c, pre * 7);
    let ez = spec_from_byte_vec::<WriteableFt63>(z);
    let ec = spec_from_byte_vec::<WriteableFt63>(c);
    let m = ec.len();
    vstd::arithmetic::div_mod::lemma_fundamental_div_mod_converse((pre * 7) as int, 7, pre as int, 0);
    assert(ez.len() == pre);
    if c.len() > 0 {
        crate::lcpc_online::encoded_file_writer::lemma_chunk_count_pub(c.len(), pre);
    } else {
        assert(crate::fields::data_field::num_chunks(0, 7) == 0);
    }
    assert(m <= pre);
    WriteableFt63::lemma_spec_zero();
    assert forall|i: int| 0 <= i < enc implies #[trigger] padded_words(ez, enc)[i] == padded_words(ec, enc)[i] by {
        if i < m {
            assert(padded_chunk(z, i as nat, 7) =~= padded_chunk(c, i as nat, 7));
        } else if i < pre {
            assert(padded_chunk(z, i as nat, 7) =~= Seq::new(7, |t: int| 0u8)) by {
                assert forall|t: int| 0 <= t < 7 implies #[trigger] padded_chunk(z, i as nat, 7)[t] == 0u8 by {
                    assert(7 * m >= c.len()) by {
                        crate::fields::data_field::lemma_num_chunks_cover(c.len(), 7);
                    }
                    assert(i * 7 + t >= c.len()) by (nonlinear_arith)
                        requires i >= m, t >= 0, 7 * m >= c.len();
                }
            }
            WriteableFt63::lemma_data_element_canonical(Seq::new(7, |t: int| 0u8));
            crate::fields::byte_math::lemma_le_to_nat_zeros(7);
            assert(ez[i].repr() == 0);
            WriteableFt63::lemma_eq_from_repr(ez[i], WriteableFt63::spec_zero());
        }
    }
    assert(padded_words(ez, enc) =~= padded_words(ec, enc));
}

} // verus!
