use vstd::prelude::*;

use crate::fields::spec_is_power_of_two;
use crate::fields::is_power_of_two;
use crate::fields::writable_ft63::{field_pow, p, WriteableFt63};

verus! {

#[verifier::external_type_specification]
#[verifier::external_body]
pub struct ExFt63(lcpc_test_fields::ft63::Ft63);

/// Why a row could not be transformed.
#[derive(Debug, Clone, Copy, PartialEq, Eq, Structural)]
pub enum FftError {
    /// The row length is not a power of two.
    NotPowerOfTwo,
    /// The row is longer than the field's largest power-of-two root of unity allows.
    TooBig,
    /// Precomputed data did not fit the row.
    WrongSizePrecomp,
    /// Any other failure.
    Unknown,
}

/// The largest transform length: the field has roots of unity of order 2^41.
pub open spec fn max_fft_len() -> nat {
    0x200_0000_0000
}

/// `f(0) + f(1) + ... + f(n - 1)`.
pub open spec fn sum_to(f: spec_fn(nat) -> nat, n: nat) -> nat
    decreases n,
{
    if n == 0 {
        0
    } else {
        sum_to(f, (n - 1) as nat) + f((n - 1) as nat)
    }
}

/// Position `j` of a transform of length `n` (a power of two) with its bits reversed.
pub open spec fn bit_reversed(j: nat, n: nat) -> nat
    decreases n,
{
    if n <= 1 {
        0
    } else {
        (j % 2) * (n / 2) + bit_reversed(j / 2, n / 2)
    }
}

/// The root of unity of order `n` the transforms of length `n` use: the field's
/// generator 10 raised to `(p - 1) / n`.
pub open spec fn unity_root(n: nat) -> nat {
    field_pow(10, ((p() - 1) as nat) / n)
}

/// The inverse of `unity_root(n)`.
pub open spec fn unity_root_inv(n: nat) -> nat {
    field_pow(10, ((p() - 1) - ((p() - 1) as nat) / n) as nat)
}

/// The inverse of `n` in the field.
pub open spec fn len_inv(n: nat) -> nat {
    field_pow(n % p(), (p() - 2) as nat)
}

/// The forward transform of a row of field values (given in `0..p`): the row read as
/// polynomial coefficients, evaluated at the powers of the root of unity of the row's
/// length, with the evaluations in bit-reversed order: entry `j` is the value at
/// `unity_root(n)^bit_reversed(j, n)`.
#[verifier::opaque]
pub open spec fn fft_io_of(values: Seq<u64>) -> Seq<u64> {
    let n = values.len();
    Seq::new(
        n,
        |j: int|
            (sum_to(
                |k: nat| values[k as int] as nat * field_pow(unity_root(n), bit_reversed(j as nat, n) * k),
                n,
            ) % p()) as u64,
    )
}

/// The inverse transform: evaluations in bit-reversed order back to coefficients in
/// natural order; entry `k` is `n^-1` times the sum of `values[j]` times
/// `unity_root(n)^-(bit_reversed(j, n) * k)`.
#[verifier::opaque]
pub open spec fn ifft_oi_of(values: Seq<u64>) -> Seq<u64> {
    let n = values.len();
    Seq::new(
        n,
        |k: int|
            ((len_inv(n) * sum_to(
                |j: nat| values[j as int] as nat * field_pow(unity_root_inv(n), bit_reversed(j, n) * (k as nat)),
                n,
            )) % p()) as u64,
    )
}

/// Whether every word is a field value, that is below the modulus.
pub open spec fn all_below_modulus(s: Seq<u64>) -> bool {
    forall|i: int| 0 <= i < s.len() ==> #[trigger] s[i] < p()
}

/// Whether a row of this length can be transformed.
pub open spec fn fft_len_ok(n: nat) -> bool {
    spec_is_power_of_two(n) && 2 <= n <= max_fft_len()
}

/// The field values of a row of elements, as machine words.
pub open spec fn field_words(fs: Seq<WriteableFt63>) -> Seq<u64> {
    fs.map_values(|f: WriteableFt63| f.value() as u64)
}

/// The reduced elements with the given values.
pub open spec fn canonical_elements(words: Seq<u64>) -> Seq<WriteableFt63> {
    words.map_values(|w: u64| WriteableFt63::spec_from_canonical(w as nat))
}

/// Whether every element of a row holds a reduced representation.
pub open spec fn all_canonical(fs: Seq<WriteableFt63>) -> bool {
    forall|i: int| 0 <= i < fs.len() ==> (#[trigger] fs[i]).canonical()
}

/// `fffft::FieldFFT::fft_io` on the 63-bit field: the forward transform of `values`.
/// Claimed: the result is `fft_io_of(values)`, the sums at the powers of
/// `10^((p - 1) / n)` in bit-reversed order (the field's root of unity is its generator
/// 10 raised to the odd part of `p - 1`, squared down to order `n`); it has the same
/// length, holds field values, and the inverse transform of it gives `values` back.
#[verifier::external_body]
fn fft_io_words(values: &[u64]) -> (r: Vec<u64>)
    requires
        fft_len_ok(values@.len()),
        all_below_modulus(values@),
    ensures
        r@ == fft_io_of(values@),
        r@.len() == values@.len(),
        all_below_modulus(r@),
        ifft_oi_of(r@) == values@,
{
    let mut xs: Vec<lcpc_test_fields::ft63::Ft63> =
        values.iter().map(|v| lcpc_test_fields::ft63::Ft63::from(*v)).collect();
    <lcpc_test_fields::ft63::Ft63 as fffft::FieldFFT>::fft_io(&mut xs).unwrap();
    xs.into_iter().map(|x| u64::from_le_bytes(lcpc_test_fields::ft63::Ft63Repr::from(x).0)).collect()
}

/// `fffft::FieldFFT::ifft_oi` on the 63-bit field: the inverse transform of `values`.
/// Claimed: it succeeds exactly on power-of-two lengths up to 2^41, with the error
/// that names the failure otherwise; on success the result is `ifft_oi_of(values)`
/// (the sums with the inverse root, scaled by `n^-1`), has the same length, holds
/// field values, and its forward transform is `values`.
#[verifier::external_body]
fn ifft_oi_words(values: &[u64]) -> (r: Result<Vec<u64>, FftError>)
    requires
        values@.len() != 1,
        all_below_modulus(values@),
    ensures
        r is Ok <==> fft_len_ok(values@.len()),
        r matches Err(e) ==> (e == FftError::NotPowerOfTwo <==> !spec_is_power_of_two(values@.len())),
        r matches Err(e) ==> (e == FftError::TooBig <==> (spec_is_power_of_two(values@.len())
            && values@.len() > max_fft_len())),
        r matches Ok(v) ==> v@ == ifft_oi_of(values@) && v@.len() == values@.len()
            && all_below_modulus(v@) && fft_io_of(v@) == values@,
{
    let mut xs: Vec<lcpc_test_fields::ft63::Ft63> =
        values.iter().map(|v| lcpc_test_fields::ft63::Ft63::from(*v)).collect();
    match <lcpc_test_fields::ft63::Ft63 as fffft::FieldFFT>::ifft_oi(&mut xs) {
        Ok(()) => Ok(xs.into_iter().map(|x| u64::from_le_bytes(lcpc_test_fields::ft63::Ft63Repr::from(x).0)).collect()),
        Err(fffft::FFTError::NotPowerOfTwo) => Err(FftError::NotPowerOfTwo),
        Err(fffft::FFTError::TooBig) => Err(FftError::TooBig),
        Err(fffft::FFTError::WrongSizePrecomp) => Err(FftError::WrongSizePrecomp),
        Err(fffft::FFTError::Unknown) => Err(FftError::Unknown),
    }
}

/// The field values of a row, as machine words.
pub fn to_words(row: &[WriteableFt63]) -> (r: Vec<u64>)
    ensures
        r@ == field_words(row@),
        all_below_modulus(r@),
{
    let mut out: Vec<u64> = Vec::new();
    let mut i: usize = 0;
    while i < row.len()
        invariant
            i <= row@.len(),
            out@ =~= field_words(row@).subrange(0, i as int),
            all_below_modulus(out@),
        decreases row.len() - i,
    {
        proof {
            crate::fields::writable_ft63::lemma_mont_value_bound(row@[i as int].repr());
        }
        out.push(row[i].to_canonical_u64());
        i = i + 1;
    }
    out
}

/// The reduced elements with the given field values.
pub fn from_words(words: &[u64]) -> (r: Vec<WriteableFt63>)
    requires
        all_below_modulus(words@),
    ensures
        field_words(r@) == words@,
        all_canonical(r@),
        r@.len() == words@.len(),
        r@ == canonical_elements(words@),
{
    let mut out: Vec<WriteableFt63> = Vec::new();
    let mut i: usize = 0;
    while i < words.len()
        invariant
            i <= words@.len(),
            all_below_modulus(words@),
            out@.len() == i,
            forall|k: int| 0 <= k < i ==> (#[trigger] out@[k]).value() == words@[k] && out@[k].canonical()
                && out@[k] == WriteableFt63::spec_from_canonical(words@[k] as nat),
        decreases words.len() - i,
    {
        out.push(WriteableFt63::from_canonical_u64(words[i]));
        i = i + 1;
    }
    proof {
        assert(field_words(out@) =~= words@);
        assert(out@ =~= canonical_elements(words@));
    }
    out
}

/// Whether `n_per_row` data elements per row can be encoded into `n_cols` columns.
pub open spec fn spec_dims_ok(n_per_row: nat, n_cols: nat) -> bool {
    n_per_row < n_cols && spec_is_power_of_two(n_cols)
}

/// Whether `n_per_row` data elements per row can be encoded into `n_cols` columns:
/// fewer data elements than columns, and a power-of-two number of columns.
pub fn dims_ok(n_per_row: usize, n_cols: usize) -> (r: bool)
    ensures
        r == spec_dims_ok(n_per_row as nat, n_cols as nat),
{
    n_per_row < n_cols && is_power_of_two(n_cols)
}

/// A Reed-Solomon encoding of rows of `n_per_row` field elements into `n_cols`
/// evaluations, at rate one half or below.
#[derive(Debug, Clone, Copy)]
pub struct PoSEncoding {
    n_per_row: usize,
    n_cols: usize,
}

impl PoSEncoding {
    /// Data elements per row.
    pub closed spec fn spec_n_per_row(self) -> nat {
        self.n_per_row as nat
    }

    /// Encoded elements per row.
    pub closed spec fn spec_n_cols(self) -> nat {
        self.n_cols as nat
    }

    /// The dimensions are usable: at least one data element per row, fewer data
    /// elements than columns, and a transformable power-of-two number of columns.
    pub open spec fn wf(self) -> bool {
        &&& self.spec_n_per_row() > 0
        &&& spec_dims_ok(self.spec_n_per_row(), self.spec_n_cols())
        &&& fft_len_ok(self.spec_n_cols())
    }

    /// The encoding for rows of `n_per_row` data elements into `n_cols` columns.
    pub fn new_from_dims(n_per_row: usize, n_cols: usize) -> (r: Self)
        requires
            n_per_row > 0,
            spec_dims_ok(n_per_row as nat, n_cols as nat),
            n_cols <= max_fft_len(),
        ensures
            r.wf(),
            r.spec_n_per_row() == n_per_row,
            r.spec_n_cols() == n_cols,
    {
        PoSEncoding { n_per_row, n_cols }
    }

    /// Data elements per row.
    pub fn get_n_per_row(&self) -> (r: usize)
        ensures
            r == self.spec_n_per_row(),
    {
        self.n_per_row
    }

    /// Encoded elements per row.
    pub fn get_n_cols(&self) -> (r: usize)
        ensures
            r == self.spec_n_cols(),
    {
        self.n_cols
    }

    /// Rows needed for `len` data elements, with the row widths: `(rows, per row, columns)`.
    pub fn get_dims(&self, len: usize) -> (r: (usize, usize, usize))
        requires
            self.wf(),
        ensures
            r.0 as int == (len as int + self.spec_n_per_row() - 1) / self.spec_n_per_row() as int,
            r.1 == self.spec_n_per_row(),
            r.2 == self.spec_n_cols(),
    {
        let q = len / self.n_per_row;
        let extra: usize = if len % self.n_per_row == 0 { 0 } else { 1 };
        proof {
            if extra == 1 {
                assert(self.n_per_row >= 2);
                assert(q <= len / 2) by {
                    vstd::arithmetic::div_mod::lemma_div_is_ordered_by_denominator(len as int, 2, self.n_per_row as int);
                }
            }
        }
        let n_rows = q + extra;
        proof {
            let n = len as int;
            let k = self.n_per_row as int;
            vstd::arithmetic::div_mod::lemma_fundamental_div_mod(n, k);
            vstd::arithmetic::div_mod::lemma_fundamental_div_mod(n + k - 1, k);
            vstd::arithmetic::div_mod::lemma_mod_bound(n, k);
            vstd::arithmetic::div_mod::lemma_mod_bound(n + k - 1, k);
            if n % k == 0 {
                assert((n + k - 1) / k == n / k) by (nonlinear_arith)
                    requires k > 0, n == k * (n / k) + n % k, n % k == 0,
                        n + k - 1 == k * ((n + k - 1) / k) + (n + k - 1) % k,
                        0 <= (n + k - 1) % k < k;
            } else {
                assert((n + k - 1) / k == n / k + 1) by (nonlinear_arith)
                    requires k > 0, n == k * (n / k) + n % k, 0 < n % k < k,
                        n + k - 1 == k * ((n + k - 1) / k) + (n + k - 1) % k,
                        0 <= (n + k - 1) % k < k;
            }
        }
        (n_rows, self.n_per_row, self.n_cols)
    }

    /// Encodes one full-width row (data elements followed by zeros).
    pub fn encode(&self, row: &[WriteableFt63]) -> (r: Vec<WriteableFt63>)
        requires
            self.wf(),
            row@.len() == self.spec_n_cols(),
        ensures
            field_words(r@) == fft_io_of(field_words(row@)),
            r@.len() == row@.len(),
            all_canonical(r@),
            ifft_oi_of(field_words(r@)) == field_words(row@),
            r@ == canonical_elements(fft_io_of(field_words(row@))),
    {
        let words = to_words(row);
        let encoded = fft_io_words(&words);
        from_words(&encoded)
    }
}

/// Transforms a row of encoded elements back to the coefficients it encodes (in the
/// field's natural order): the first `n_per_row` of them are the data, the rest zero.
pub fn decode_row(row: Vec<WriteableFt63>) -> (r: Result<Vec<WriteableFt63>, FftError>)
    requires
        row@.len() != 1,
    ensures
        r is Ok <==> fft_len_ok(row@.len()),
        r matches Err(e) ==> (e == FftError::NotPowerOfTwo <==> !spec_is_power_of_two(row@.len())),
        r matches Err(e) ==> (e == FftError::TooBig <==> (spec_is_power_of_two(row@.len())
            && row@.len() > max_fft_len())),
        r matches Ok(v) ==> field_words(v@) == ifft_oi_of(field_words(row@)) && v@.len() == row@.len()
            && all_canonical(v@) && v@ == canonical_elements(ifft_oi_of(field_words(row@))),
{
    let words = to_words(&row);
    match ifft_oi_words(&words) {
        Ok(decoded) => Ok(from_words(&decoded)),
        Err(e) => Err(e),
    }
}

} // verus!
