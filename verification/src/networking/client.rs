use vstd::prelude::*;

use rand::seq::IteratorRandom;
use rand_core::SeedableRng;

use crate::databases::FileMetadata;
use crate::fields::data_field::{
    lemma_from_byte_vec_concat, spec_field_vec_to_byte_vec, spec_from_byte_vec, DataField,
};
use crate::fields::writable_ft63::{p, WriteableFt63};
use crate::fields::{
    convert_byte_vec_to_field_elements_vec, convert_field_elements_vec_to_byte_vec,
    evaluate_field_polynomial_at_point_with_elevated_degree, field_values, lemma_poly_eval_append,
    lemma_poly_eval_shifted_bound, poly_eval, poly_eval_shifted, spec_is_power_of_two,
};
use crate::lcpc_online::commit::PoSColumn;
use crate::lcpc_online::file_handler::spliced;
use crate::lcpc_online::encoding::{fft_len_ok, field_words, ifft_oi_of};
use crate::lcpc_online::commit::{column_digest, PoSCommit};
use crate::lcpc_online::merkle_tree::spec_path;
use crate::lcpc_online::{
    client_online_verify_column_paths, client_verify_commitment, column_path_ok, columns_in_range, commit_shape_ok,
    committed_column, convert_file_data_to_commit, lemma_commit_columns, lemma_honest_columns_accepted, rows_for,
    within_soundness, CommitError, CommitOrLeavesOutput, CommitRequestType, partial_evaluation_ok, side_left_values, side_right_values,
    verify_full_polynomial_evaluation_wrapper_with_single_eval_point, words_values, VerifierError,
};

verus! {

/// The seed from which a client draws the columns it asks for and its evaluation points.
pub const FIXED_RANDOM_SEED: u64 = 1337;

/// Why a client gave up on an operation or rejected what a server answered.
#[derive(Debug, Clone, Copy, PartialEq, Eq, Structural)]
pub enum ClientError {
    /// A file needs at least one data column.
    TooFewColumns,
    /// A file needs at least two encoded columns.
    TooFewEncodedColumns,
    /// The number of encoded columns must be a power of two.
    NotPowerOfTwo,
    /// There must be at least twice as many encoded columns as data columns.
    EncodingTooNarrow,
    /// The server's new commitment has other dimensions than the old one.
    CommitShapeChanged,
    /// The server's new commitment covers the wrong number of bytes.
    SizeMismatch,
    /// An evaluation proof from the server did not check out.
    EvaluationRejected,
    /// The row the server sent does not hold the coefficient this verification needs.
    RowTooShort,
    /// The evaluations before and after do not differ by what the change accounts for.
    EvaluationMismatch,
    /// The edit would reach past the end of the file.
    EditOutOfBounds,
    /// The server's new metadata has another file size.
    FileSizeChanged,
    /// The server's new metadata has another file name.
    FileNameChanged,
    /// The server's new metadata has another number of rows.
    RowCountChanged,
    /// The server's new metadata has another number of data columns.
    ColumnCountChanged,
    /// The server's new metadata has another number of encoded columns.
    EncodedColumnCountChanged,
    /// The server sent fewer bytes than the edit replaces.
    InsufficientData,
    /// The server did not send whole rows.
    PartialRow,
    /// The edited bytes do not lie within the rows the server sent.
    ReplacementOutOfRange,
    /// The new dimensions are not the ones asked for.
    ReshapeDimensionsNotMet,
    /// The client could not derive the column digests from its own copy of the file.
    Commit(CommitError),
    /// The server's columns did not prove that it stores the file.
    ProofRejected(VerifierError),
}

/// The columns `choose_multiple` picks from `0..max` when driven by a ChaCha8 generator
/// seeded with `seed`.
pub uninterp spec fn seeded_columns(seed: u64, amount: usize, max: usize) -> Seq<usize>;

/// The value of the field element `Field::random` draws from a ChaCha8 generator seeded
/// with `seed`.
pub uninterp spec fn seeded_field_value(seed: u64) -> nat;

/// The smaller of two numbers.
pub open spec fn min_nat(a: nat, b: nat) -> nat {
    if a < b { a } else { b }
}

/// Whether no position occurs twice.
pub open spec fn distinct(s: Seq<usize>) -> bool {
    forall|i: int, j: int| 0 <= i < j < s.len() ==> s[i] != s[j]
}

/// `IteratorRandom::choose_multiple` over `0..max` with a ChaCha8 generator seeded by
/// `seed` (`SeedableRng::seed_from_u64`).  Claimed: the result is the named
/// `seeded_columns(seed, amount, max)`; it holds `min(amount, max)` positions (all of
/// them when fewer than `amount` exist), each below `max` and none twice, since the
/// reservoir only ever holds items of the range, each at most once.
#[verifier::external_body]
fn choose_columns_with_seed(seed: u64, amount: usize, max: usize) -> (r: Vec<usize>)
    ensures
        r@ == seeded_columns(seed, amount, max),
        r@.len() == min_nat(amount as nat, max as nat),
        forall|i: int| 0 <= i < r@.len() ==> #[trigger] r@[i] < max,
        distinct(r@),
{
    let mut rng = rand_chacha::ChaCha8Rng::seed_from_u64(seed);
    (0..max).choose_multiple(&mut rng, amount)
}

/// `ff::Field::random` on the 63-bit field with a ChaCha8 generator seeded by `seed`,
/// read back as its value.  Claimed: the value is the named `seeded_field_value(seed)`
/// and is below the modulus (the element is drawn by rejection sampling among reduced
/// representations).
#[verifier::external_body]
fn seeded_field_word(seed: u64) -> (r: u64)
    ensures
        r as nat == seeded_field_value(seed),
        r < p(),
{
    let mut rng = rand_chacha::ChaCha8Rng::seed_from_u64(seed);
    let x = <lcpc_test_fields::ft63::Ft63 as ff::Field>::random(&mut rng);
    u64::from_le_bytes(lcpc_test_fields::ft63::Ft63Repr::from(x).0)
}

/// The columns a client asks a server to open: `number_of_columns_to_extract` distinct
/// positions below `max_column_index`, drawn from a generator seeded with `random_seed`
/// (all positions when there are fewer).
pub fn get_columns_from_random_seed(
    random_seed: u64,
    number_of_columns_to_extract: usize,
    max_column_index: usize,
) -> (r: Vec<usize>)
    ensures
        r@ == seeded_columns(random_seed, number_of_columns_to_extract, max_column_index),
        r@.len() == min_nat(number_of_columns_to_extract as nat, max_column_index as nat),
        forall|i: int| 0 <= i < r@.len() ==> #[trigger] r@[i] < max_column_index,
        distinct(r@),
{
    choose_columns_with_seed(random_seed, number_of_columns_to_extract, max_column_index)
}

/// The point at which a client asks for the committed polynomial to be evaluated: a
/// field element drawn from a generator seeded with `seed`.
pub fn evaluation_point_from_seed(seed: u64) -> (r: WriteableFt63)
    ensures
        r.value() == seeded_field_value(seed),
        r.canonical(),
{
    let w = seeded_field_word(seed);
    proof {
        vstd::arithmetic::div_mod::lemma_small_mod(w as nat, p());
    }
    WriteableFt63::from_u64(w)
}

/// Whether `r` is the least power of two that is at least `n`.
pub open spec fn is_next_power_of_two(n: nat, r: nat) -> bool {
    &&& spec_is_power_of_two(r)
    &&& n <= r
    &&& (r == 1 || r / 2 < n)
}

/// The least power of two that is at least `n` (1 for 0).
pub fn next_power_of_two(n: usize) -> (r: usize)
    requires
        n <= usize::MAX / 2 + 1,
    ensures
        is_next_power_of_two(n as nat, r as nat),
{
    let mut r: usize = 1;
    while r < n
        invariant
            spec_is_power_of_two(r as nat),
            r == 1 || r / 2 < n,
            n <= usize::MAX / 2 + 1,
        decreases usize::MAX - r,
    {
        assert(r <= usize::MAX / 2);
        proof {
            lemma_double_power_of_two(r as nat);
        }
        r = r * 2;
    }
    r
}

/// Twice a power of two is a power of two.
proof fn lemma_double_power_of_two(r: nat)
    requires
        spec_is_power_of_two(r),
    ensures
        spec_is_power_of_two(r * 2),
{
    assert((r * 2) / 2 == r);
    assert((r * 2) % 2 == 0);
}

/// Whether `enc` is the least power of two above the least power of two that is at
/// least `cols`.
pub open spec fn doubled_power_of_two(cols: nat, enc: nat) -> bool {
    exists|rounded: nat| #[trigger] is_next_power_of_two(cols, rounded) && is_next_power_of_two(rounded + 1, enc)
}

/// The dimensions an upload asks for, from the data columns and encoded columns the user
/// gave: both as given when they fit, the encoded columns doubled past the data columns
/// rounded to a power of two, or half the encoded columns.  Neither given: `None`, and
/// the dimensions come from the file's length instead.
pub open spec fn spec_upload_dimensions(
    num_pre_encoded_columns: Option<usize>,
    num_encoded_columns: Option<usize>,
) -> Result<Option<(nat, nat)>, ClientError> {
    match (num_pre_encoded_columns, num_encoded_columns) {
        (Some(pre), Some(enc)) => if pre < 1 {
            Err(ClientError::TooFewColumns)
        } else if enc < 2 {
            Err(ClientError::TooFewEncodedColumns)
        } else if !spec_is_power_of_two(enc as nat) {
            Err(ClientError::NotPowerOfTwo)
        } else if enc < 2 * pre {
            Err(ClientError::EncodingTooNarrow)
        } else {
            Ok(Some((pre as nat, enc as nat)))
        },
        (Some(cols), None) => if cols < 1 {
            Err(ClientError::TooFewColumns)
        } else {
            Ok(Some((cols as nat, 0)))
        },
        (None, Some(enc)) => if enc < 2 {
            Err(ClientError::TooFewEncodedColumns)
        } else if !spec_is_power_of_two(enc as nat) {
            Err(ClientError::NotPowerOfTwo)
        } else {
            Ok(Some(((enc / 2) as nat, enc as nat)))
        },
        (None, None) => Ok(None),
    }
}

/// The default shape for data at least `data_min_width` elements wide (the rounded-up
/// square root of its length): the least power of two at or above that width as the
/// data columns, and the least power of two above those as the encoded columns.
pub fn default_dimensions_from_min_width(data_min_width: usize) -> (r: (usize, usize))
    requires
        data_min_width <= usize::MAX / 4,
    ensures
        is_next_power_of_two(data_min_width as nat, r.0 as nat),
        is_next_power_of_two(r.0 as nat + 1, r.1 as nat),
{
    let pre = next_power_of_two(data_min_width);
    let enc = next_power_of_two(pre + 1);
    (pre, enc)
}

/// Works out the dimensions of an upload from what the user gave (see
/// `spec_upload_dimensions`); with only the data columns given, the encoded columns are
/// the power of two after the data columns rounded up to a power of two.
pub fn upload_dimensions(num_pre_encoded_columns: Option<usize>, num_encoded_columns: Option<usize>) -> (r: Result<
    Option<(usize, usize)>,
    ClientError,
>)
    requires
        num_encoded_columns is None ==> (num_pre_encoded_columns matches Some(c) ==> c <= usize::MAX / 4),
    ensures
        r is Err <==> spec_upload_dimensions(num_pre_encoded_columns, num_encoded_columns) is Err,
        r matches Err(e) ==> spec_upload_dimensions(num_pre_encoded_columns, num_encoded_columns) == Err::<
            Option<(nat, nat)>,
            ClientError,
        >(e),
        r matches Ok(d) ==> (d is None <==> (num_pre_encoded_columns is None && num_encoded_columns is None)),
        r matches Ok(Some(d)) ==> spec_upload_dimensions(num_pre_encoded_columns, num_encoded_columns) matches Ok(
            Some(sd),
        ) && d.0 == sd.0 && (num_encoded_columns is Some ==> d.1 == sd.1),
        r matches Ok(Some(d)) ==> (num_encoded_columns is None ==> doubled_power_of_two(d.0 as nat, d.1 as nat)),
{
    match (num_pre_encoded_columns, num_encoded_columns) {
        (Some(pre), Some(enc)) => {
            if pre < 1 {
                Err(ClientError::TooFewColumns)
            } else if enc < 2 {
                Err(ClientError::TooFewEncodedColumns)
            } else if !crate::fields::is_power_of_two(enc) {
                Err(ClientError::NotPowerOfTwo)
            } else if enc / 2 < pre {
                assert(enc < 2 * pre);
                Err(ClientError::EncodingTooNarrow)
            } else {
                Ok(Some((pre, enc)))
            }
        },
        (Some(cols), None) => {
            if cols < 1 {
                Err(ClientError::TooFewColumns)
            } else {
                let rounded = next_power_of_two(cols);
                let enc = next_power_of_two(rounded + 1);
                assert(is_next_power_of_two(cols as nat, rounded as nat) && is_next_power_of_two(
                    rounded as nat + 1,
                    enc as nat,
                ));
                assert(doubled_power_of_two(cols as nat, enc as nat));
                Ok(Some((cols, enc)))
            }
        },
        (None, Some(enc)) => {
            if enc < 2 {
                Err(ClientError::TooFewEncodedColumns)
            } else if !crate::fields::is_power_of_two(enc) {
                Err(ClientError::NotPowerOfTwo)
            } else {
                Ok(Some((enc / 2, enc)))
            }
        },
        (None, None) => Ok(None),
    }
}


/// The field values of the elements that carry `bytes`.
pub open spec fn byte_coefficients(bytes: Seq<u8>) -> Seq<nat> {
    field_values(spec_from_byte_vec::<WriteableFt63>(bytes))
}

/// The bytes of a file after its last whole coefficient: what its last, partly filled
/// coefficient carries (nothing when the file ends on a coefficient boundary).
pub open spec fn tail_bytes(file: Seq<u8>) -> Seq<u8> {
    file.skip(((file.len() / 7) * 7) as int)
}

/// How much appending `appended` to a file of `old_size` bytes changes the evaluation of
/// its polynomial at `x`, given `head`, the bytes the file's last partly filled
/// coefficient carries: that coefficient is taken out and the coefficients carrying
/// `head` followed by the appended bytes are put in, from degree `old_size / 7` on.
pub open spec fn append_difference(old_size: nat, head: Seq<u8>, appended: Seq<u8>, x: nat) -> nat {
    let k = old_size / 7;
    ((p() - poly_eval_shifted(byte_coefficients(head), x, k)) + poly_eval_shifted(
        byte_coefficients(head + appended),
        x,
        k,
    )) as nat % p()
}

/// The bytes of the file's last partly filled coefficient as a client reads them from
/// the row a server sent: the first `old_size % 7` data bytes of the element at position
/// `(old_size / 7) % num_columns` (nothing when the file ends on a boundary).
pub open spec fn append_head(old_size: nat, num_columns: nat, row: Seq<WriteableFt63>) -> Seq<u8> {
    if old_size % 7 == 0 {
        Seq::empty()
    } else {
        row[((old_size / 7) % num_columns) as int].spec_data_bytes().take((old_size % 7) as int)
    }
}

/// The expected difference between the evaluations at `point` of a file's polynomial
/// after and before `data_to_append` was appended to its `old_size` bytes, computed from
/// the row the server sent holding the file's last coefficient.
pub fn expected_append_difference(
    old_size: usize,
    num_columns: usize,
    edited_unencoded_row: &[WriteableFt63],
    data_to_append: &[u8],
    point: &WriteableFt63,
) -> (r: WriteableFt63)
    requires
        num_columns > 0,
        old_size % 7 != 0 ==> (old_size / 7) % num_columns < edited_unencoded_row@.len(),
    ensures
        r.canonical(),
        r.value() == append_difference(
            old_size as nat,
            append_head(old_size as nat, num_columns as nat, edited_unencoded_row@),
            data_to_append@,
            point.value(),
        ),
{
    let degree = old_size / 7;
    let byte_offset = old_size % 7;
    let ghost x = point.value();
    let ghost k = degree as nat;
    let ghost head = append_head(old_size as nat, num_columns as nat, edited_unencoded_row@);
    let mut expected = WriteableFt63::zero();
    let mut byte_difference: Vec<u8> = Vec::new();
    proof {
        WriteableFt63::lemma_spec_zero();
    }
    if byte_offset != 0 {
        let changed = edited_unencoded_row[degree % num_columns];
        let one: Vec<WriteableFt63> = vec![changed];
        let original_coefficient_bytes = convert_field_elements_vec_to_byte_vec(one.as_slice(), byte_offset);
        proof {
            assert(spec_field_vec_to_byte_vec(one@) =~= changed.spec_data_bytes()) by {
                assert(one@.len() == 1);
                assert(one@.last() == changed);
                assert(one@.drop_last() =~= Seq::<WriteableFt63>::empty());
                assert(spec_field_vec_to_byte_vec(one@.drop_last()) == Seq::<u8>::empty());
                assert(Seq::<u8>::empty() + changed.spec_data_bytes() =~= changed.spec_data_bytes());
            }
            WriteableFt63::lemma_data_bytes_len(changed);
            assert(original_coefficient_bytes@ =~= head);
        }
        byte_difference = original_coefficient_bytes;
        let original_coefficient = convert_byte_vec_to_field_elements_vec::<WriteableFt63>(byte_difference.as_slice());
        let removed = evaluate_field_polynomial_at_point_with_elevated_degree(
            original_coefficient.as_slice(),
            point,
            degree as u64,
        );
        expected = expected.sub(&removed);
    }
    let ghost removed_value = poly_eval_shifted(byte_coefficients(head), x, k);
    proof {
        if byte_offset == 0 {
            assert(byte_coefficients(head) =~= Seq::<nat>::empty());
        }
        lemma_poly_eval_shifted_bound(byte_coefficients(head), x, k);
        assert(expected.value() == (p() - removed_value) as nat % p());
    }
    let mut i: usize = 0;
    let ghost start = byte_difference@;
    while i < data_to_append.len()
        invariant
            i <= data_to_append@.len(),
            byte_difference@ == start + data_to_append@.subrange(0, i as int),
        decreases data_to_append.len() - i,
    {
        byte_difference.push(data_to_append[i]);
        i = i + 1;
    }
    proof {
        assert(byte_difference@ =~= head + data_to_append@);
    }
    let coefficient_difference = convert_byte_vec_to_field_elements_vec::<WriteableFt63>(byte_difference.as_slice());
    let added = evaluate_field_polynomial_at_point_with_elevated_degree(
        coefficient_difference.as_slice(),
        point,
        degree as u64,
    );
    let result = expected.add(&added);
    proof {
        let e2 = poly_eval_shifted(byte_coefficients(head + data_to_append@), x, k);
        vstd::arithmetic::div_mod::lemma_add_mod_noop((p() - removed_value) as int, e2 as int, p() as int);
        lemma_poly_eval_shifted_bound(byte_coefficients(head + data_to_append@), x, k);
        vstd::arithmetic::div_mod::lemma_small_mod(e2, p());
    }
    result
}

/// Checks the server's new metadata for an append: the same dimensions, and exactly the
/// appended bytes more.
pub fn check_appended_metadata(
    file_metadata: &FileMetadata,
    appended_file_metadata: &FileMetadata,
    appended_len: usize,
) -> (r: Result<(), ClientError>)
    ensures
        r is Ok <==> (file_metadata.num_columns == appended_file_metadata.num_columns
            && file_metadata.num_encoded_columns == appended_file_metadata.num_encoded_columns
            && appended_file_metadata.filesize_in_bytes == file_metadata.filesize_in_bytes + appended_len),
        r matches Err(e) ==> (e == ClientError::CommitShapeChanged <==> !(file_metadata.num_columns
            == appended_file_metadata.num_columns && file_metadata.num_encoded_columns
            == appended_file_metadata.num_encoded_columns)),
        r matches Err(e) ==> e == ClientError::CommitShapeChanged || e == ClientError::SizeMismatch,
{
    if file_metadata.num_columns != appended_file_metadata.num_columns
        || file_metadata.num_encoded_columns != appended_file_metadata.num_encoded_columns {
        return Err(ClientError::CommitShapeChanged);
    }
    if appended_file_metadata.filesize_in_bytes < file_metadata.filesize_in_bytes
        || appended_file_metadata.filesize_in_bytes - file_metadata.filesize_in_bytes != appended_len {
        return Err(ClientError::SizeMismatch);
    }
    Ok(())
}

/// The value a server's evaluation answer claims for the committed polynomial at `x`,
/// for rows of `n_per_row` coefficients: the decoded result vector times the powers of
/// `x`.
pub open spec fn claimed_evaluation(result_vector: Seq<WriteableFt63>, x: nat, n_per_row: nat) -> nat {
    crate::fields::dot(words_values(ifft_oi_of(field_words(result_vector))), side_right_values(x, n_per_row))
}

/// Whether a server's evaluation answer checks against the opened columns.
pub open spec fn evaluation_answer_ok(
    result_vector: Seq<WriteableFt63>,
    x: nat,
    n_rows: nat,
    n_per_row: nat,
    requested: Seq<usize>,
    columns: Seq<PoSColumn>,
) -> bool {
    &&& result_vector.len() != 1
    &&& partial_evaluation_ok(
        side_left_values(x, n_rows, n_per_row),
        result_vector,
        requested,
        columns,
    )
    &&& fft_len_ok(result_vector.len())
}

/// Checks one evaluation answer and gives the value it claims.
fn checked_evaluation(
    point: &WriteableFt63,
    result_vector: &[WriteableFt63],
    n_rows: usize,
    n_per_row: usize,
    requested_columns: &[usize],
    columns: &[PoSColumn],
) -> (r: Result<WriteableFt63, ClientError>)
    ensures
        r is Ok <==> evaluation_answer_ok(
            result_vector@,
            point.value(),
            n_rows as nat,
            n_per_row as nat,
            requested_columns@,
            columns@,
        ),
        r matches Err(e) ==> e == ClientError::EvaluationRejected,
        r matches Ok(v) ==> v.canonical() && v.value() == claimed_evaluation(
            result_vector@,
            point.value(),
            n_per_row as nat,
        ),
{
    if result_vector.len() == 1 {
        return Err(ClientError::EvaluationRejected);
    }
    match verify_full_polynomial_evaluation_wrapper_with_single_eval_point(
        point,
        result_vector,
        n_rows,
        n_per_row,
        requested_columns,
        columns,
    ) {
        Ok(v) => Ok(v),
        Err(_) => Err(ClientError::EvaluationRejected),
    }
}

/// Decides whether to accept a server's append: both evaluation answers must check out,
/// and the new evaluation must be the old one plus the difference the appended bytes
/// account for (`append_difference`, read off the row the server sent).
pub fn check_append_evaluation(
    file_metadata: &FileMetadata,
    appended_file_metadata: &FileMetadata,
    data_to_append: &[u8],
    evaluation_point: &WriteableFt63,
    requested_columns: &[usize],
    original_result_vector: &[WriteableFt63],
    original_columns: &[PoSColumn],
    new_result_vector: &[WriteableFt63],
    new_columns: &[PoSColumn],
    edited_unencoded_row: &[WriteableFt63],
) -> (r: Result<(), ClientError>)
    ensures
        r is Ok <==> {
            &&& evaluation_answer_ok(
                original_result_vector@,
                evaluation_point.value(),
                file_metadata.num_rows as nat,
                file_metadata.num_columns as nat,
                requested_columns@,
                original_columns@,
            )
            &&& evaluation_answer_ok(
                new_result_vector@,
                evaluation_point.value(),
                appended_file_metadata.num_rows as nat,
                appended_file_metadata.num_columns as nat,
                requested_columns@,
                new_columns@,
            )
            &&& file_metadata.num_columns > 0
            &&& (file_metadata.filesize_in_bytes % 7 != 0 ==> (file_metadata.filesize_in_bytes / 7)
                % file_metadata.num_columns < edited_unencoded_row@.len())
            &&& claimed_evaluation(
                new_result_vector@,
                evaluation_point.value(),
                appended_file_metadata.num_columns as nat,
            ) == (claimed_evaluation(
                original_result_vector@,
                evaluation_point.value(),
                file_metadata.num_columns as nat,
            ) + append_difference(
                file_metadata.filesize_in_bytes as nat,
                append_head(
                    file_metadata.filesize_in_bytes as nat,
                    file_metadata.num_columns as nat,
                    edited_unencoded_row@,
                ),
                data_to_append@,
                evaluation_point.value(),
            )) % p()
        },
{
    let old_results = checked_evaluation(
        evaluation_point,
        original_result_vector,
        file_metadata.num_rows,
        file_metadata.num_columns,
        requested_columns,
        original_columns,
    );
    let new_results = checked_evaluation(
        evaluation_point,
        new_result_vector,
        appended_file_metadata.num_rows,
        appended_file_metadata.num_columns,
        requested_columns,
        new_columns,
    );
    let (old_value, new_value) = match (old_results, new_results) {
        (Ok(a), Ok(b)) => (a, b),
        _ => { return Err(ClientError::EvaluationRejected); },
    };
    let cols = file_metadata.num_columns;
    let size = file_metadata.filesize_in_bytes;
    if cols == 0 || (size % 7 != 0 && (size / 7) % cols >= edited_unencoded_row.len()) {
        return Err(ClientError::RowTooShort);
    }
    let expected = expected_append_difference(size, cols, edited_unencoded_row, data_to_append, evaluation_point);
    let predicted = old_value.add(&expected);
    if new_value.to_canonical_u64() != predicted.to_canonical_u64() {
        return Err(ClientError::EvaluationMismatch);
    }
    Ok(())
}

/// The field values of a concatenation are the field values of each part.
proof fn lemma_field_values_concat(a: Seq<WriteableFt63>, b: Seq<WriteableFt63>)
    ensures
        field_values(a + b) == field_values(a) + field_values(b),
{
    assert(field_values(a + b) =~= field_values(a) + field_values(b));
}

/// A file is its whole coefficients' bytes followed by its tail; the whole part packs
/// into `size / 7` coefficients on its own.
proof fn lemma_split_at_tail(file: Seq<u8>)
    ensures
        file == file.take(((file.len() / 7) * 7) as int) + tail_bytes(file),
        ((file.len() / 7) * 7) <= file.len(),
        (((file.len() / 7) * 7) as nat) % 7 == 0,
        spec_from_byte_vec::<WriteableFt63>(file.take(((file.len() / 7) * 7) as int)).len() == file.len() / 7,
{
    let k = file.len() / 7;
    vstd::arithmetic::div_mod::lemma_fundamental_div_mod(file.len() as int, 7);
    vstd::arithmetic::div_mod::lemma_mod_multiples_basic(k as int, 7);
    assert(file =~= file.take((k * 7) as int) + tail_bytes(file));
    vstd::arithmetic::div_mod::lemma_div_multiples_vanish(k as int, 7);
}

/// Appending bytes to a file changes the evaluation of its polynomial at `x` by exactly
/// `append_difference`, computed from the bytes the file's last partly filled
/// coefficient carries.
pub proof fn lemma_append_difference(old: Seq<u8>, appended: Seq<u8>, x: nat)
    ensures
        poly_eval(byte_coefficients(old + appended), x) == (poly_eval(byte_coefficients(old), x)
            + append_difference(old.len(), tail_bytes(old), appended, x)) % p(),
{
    let k = old.len() / 7;
    let whole = old.take((k * 7) as int);
    let t = tail_bytes(old);
    lemma_split_at_tail(old);
    assert(old + appended =~= whole + (t + appended));
    lemma_from_byte_vec_concat::<WriteableFt63>(whole, t);
    lemma_from_byte_vec_concat::<WriteableFt63>(whole, t + appended);
    let cw = spec_from_byte_vec::<WriteableFt63>(whole);
    lemma_field_values_concat(cw, spec_from_byte_vec::<WriteableFt63>(t));
    lemma_field_values_concat(cw, spec_from_byte_vec::<WriteableFt63>(t + appended));
    let vw = field_values(cw);
    let vt = byte_coefficients(t);
    let vta = byte_coefficients(t + appended);
    assert(vw.len() == k);
    lemma_poly_eval_append(vw, vt, x, 0);
    lemma_poly_eval_append(vw, vta, x, 0);
    let ew = poly_eval_shifted(vw, x, 0);
    let et = poly_eval_shifted(vt, x, k);
    let eta = poly_eval_shifted(vta, x, k);
    lemma_poly_eval_shifted_bound(vt, x, k);
    let m = p() as int;
    let a = (ew + et) as int;
    let b = ((p() - et) + eta) as int;
    vstd::arithmetic::div_mod::lemma_add_mod_noop(a, b, m);
    assert(a + b == (ew + eta) as int + m);
    vstd::arithmetic::div_mod::lemma_mod_add_multiples_vanish((ew + eta) as int, m);
}

/// The element a server sends at position `(size / 7) % num_columns` of the row that
/// holds a file's last coefficient, when it is that coefficient of the appended file,
/// carries the old file's tail first.
proof fn lemma_append_head_is_tail(old: Seq<u8>, appended: Seq<u8>, num_columns: nat, row: Seq<WriteableFt63>)
    requires
        num_columns > 0,
        old.len() % 7 != 0 ==> (old.len() / 7) % num_columns < row.len() && row[((old.len() / 7)
            % num_columns) as int] == spec_from_byte_vec::<WriteableFt63>(old + appended)[(old.len() / 7) as int],
    ensures
        append_head(old.len(), num_columns, row) == tail_bytes(old),
{
    let k = old.len() / 7;
    let o = old.len() % 7;
    vstd::arithmetic::div_mod::lemma_fundamental_div_mod(old.len() as int, 7);
    if o == 0 {
        assert(tail_bytes(old) =~= Seq::<u8>::empty());
    } else {
        let all = old + appended;
        vstd::arithmetic::div_mod::lemma_fundamental_div_mod(all.len() as int, 7);
        assert(k < spec_from_byte_vec::<WriteableFt63>(all).len()) by {
            crate::fields::data_field::lemma_num_chunks_cover(all.len(), 7);
            if spec_from_byte_vec::<WriteableFt63>(all).len() <= k {
                assert(spec_from_byte_vec::<WriteableFt63>(all).len() * 7 <= k * 7) by (nonlinear_arith)
                    requires spec_from_byte_vec::<WriteableFt63>(all).len() <= k;
            }
        }
        let chunk = crate::fields::data_field::padded_chunk(all, k, 7);
        <WriteableFt63 as DataField>::lemma_data_bytes_roundtrip(chunk);
        assert(chunk.take(o as int) =~= tail_bytes(old));
    }
}

/// Appending to a file changes its polynomial's evaluation at `x` by what a client
/// computes from the row an honest server sends: the client's check balances whenever
/// the server's two evaluations are the true ones.
pub proof fn lemma_honest_append_balances(
    old: Seq<u8>,
    appended: Seq<u8>,
    num_columns: nat,
    row: Seq<WriteableFt63>,
    x: nat,
)
    requires
        num_columns > 0,
        old.len() % 7 != 0 ==> (old.len() / 7) % num_columns < row.len() && row[((old.len() / 7)
            % num_columns) as int] == spec_from_byte_vec::<WriteableFt63>(old + appended)[(old.len() / 7) as int],
    ensures
        poly_eval(byte_coefficients(old + appended), x) == (poly_eval(byte_coefficients(old), x)
            + append_difference(old.len(), append_head(old.len(), num_columns, row), appended, x)) % p(),
{
    lemma_append_head_is_tail(old, appended, num_columns, row);
    lemma_append_difference(old, appended, x);
}

/// Checks that an edit of `data_len` bytes from `edit_start_location` stays within a file
/// of `file_size` bytes.
pub fn check_edit_request(file_size: usize, edit_start_location: usize, data_len: usize) -> (r: Result<(), ClientError>)
    ensures
        r is Ok <==> edit_start_location + data_len <= file_size,
        r matches Err(e) ==> e == ClientError::EditOutOfBounds,
{
    if edit_start_location > file_size || data_len > file_size - edit_start_location {
        return Err(ClientError::EditOutOfBounds);
    }
    Ok(())
}

/// Checks the server's new metadata for an edit: the same size, name, rows and columns.
pub fn check_edited_metadata(file_metadata: &FileMetadata, edited_file_metadata: &FileMetadata) -> (r: Result<
    (),
    ClientError,
>)
    ensures
        r is Ok <==> {
            &&& edited_file_metadata.filesize_in_bytes == file_metadata.filesize_in_bytes
            &&& edited_file_metadata.filename@ == file_metadata.filename@
            &&& edited_file_metadata.num_rows == file_metadata.num_rows
            &&& edited_file_metadata.num_columns == file_metadata.num_columns
            &&& edited_file_metadata.num_encoded_columns == file_metadata.num_encoded_columns
        },
        r matches Err(e) ==> (e == ClientError::FileSizeChanged <==> edited_file_metadata.filesize_in_bytes
            != file_metadata.filesize_in_bytes),
{
    if edited_file_metadata.filesize_in_bytes != file_metadata.filesize_in_bytes {
        return Err(ClientError::FileSizeChanged);
    }
    if edited_file_metadata.filename != file_metadata.filename {
        return Err(ClientError::FileNameChanged);
    }
    if edited_file_metadata.num_rows != file_metadata.num_rows {
        return Err(ClientError::RowCountChanged);
    }
    if edited_file_metadata.num_columns != file_metadata.num_columns {
        return Err(ClientError::ColumnCountChanged);
    }
    if edited_file_metadata.num_encoded_columns != file_metadata.num_encoded_columns {
        return Err(ClientError::EncodedColumnCountChanged);
    }
    Ok(())
}

/// The first row an edit starting at byte `start` touches, for rows of `num_columns`
/// coefficients of 7 bytes.
pub open spec fn edit_first_row(start: nat, num_columns: nat) -> nat {
    (start / num_columns) / 7
}

/// The first and last rows an edit of `data_len` bytes from `edit_start_location`
/// touches, for rows of `num_columns` coefficients of 7 bytes.
pub fn edit_row_range(edit_start_location: usize, data_len: usize, num_columns: usize) -> (r: (usize, usize))
    requires
        num_columns > 0,
        edit_start_location + data_len <= usize::MAX,
    ensures
        r.0 == edit_first_row(edit_start_location as nat, num_columns as nat),
        r.1 == edit_first_row((edit_start_location + data_len) as nat, num_columns as nat),
        r.0 <= r.1,
{
    let first = (edit_start_location / num_columns) / 7;
    let last = ((edit_start_location + data_len) / num_columns) / 7;
    proof {
        vstd::arithmetic::div_mod::lemma_div_is_ordered(
            edit_start_location as int,
            (edit_start_location + data_len) as int,
            num_columns as int,
        );
        vstd::arithmetic::div_mod::lemma_div_is_ordered(
            (edit_start_location / num_columns) as int,
            (((edit_start_location + data_len) as usize) / num_columns) as int,
            7,
        );
    }
    (first, last)
}

/// The first coefficient of the first row an edit touches lies at or before the edit.
proof fn lemma_first_row_degree(start: nat, cols: nat)
    requires
        cols > 0,
    ensures
        edit_first_row(start, cols) * cols <= start,
{
    let q = start / cols;
    let f = q / 7;
    vstd::arithmetic::div_mod::lemma_fundamental_div_mod(start as int, cols as int);
    vstd::arithmetic::div_mod::lemma_fundamental_div_mod(q as int, 7);
    vstd::arithmetic::div_mod::lemma_mod_bound(start as int, cols as int);
    vstd::arithmetic::div_mod::lemma_mod_bound(q as int, 7);
    assert(f * cols <= start) by (nonlinear_arith)
        requires
            start == cols * q + start % cols,
            q == 7 * f + q % 7,
            start % cols >= 0,
            q % 7 >= 0,
            cols > 0;
}

/// How much replacing the bytes of `rows` from `offset` on by `data` changes the
/// evaluation at `x` of a polynomial in which the coefficients carrying `rows` start at
/// degree `degree`.
pub open spec fn edit_difference(rows: Seq<u8>, offset: nat, data: Seq<u8>, degree: nat, x: nat) -> nat {
    ((poly_eval_shifted(byte_coefficients(spliced(rows, offset, data)), x, degree) + p()) - poly_eval_shifted(
        byte_coefficients(rows),
        x,
        degree,
    )) as nat % p()
}

/// `rows` with the bytes from `offset` on replaced by `data`.
fn splice_bytes(rows: &[u8], offset: usize, data: &[u8]) -> (r: Vec<u8>)
    requires
        offset + data@.len() <= rows@.len(),
    ensures
        r@ == spliced(rows@, offset as nat, data@),
{
    let mut out: Vec<u8> = Vec::new();
    let mut i: usize = 0;
    while i < offset
        invariant
            i <= offset,
            offset + data@.len() <= rows@.len(),
            out@ =~= rows@.take(i as int),
        decreases offset - i,
    {
        out.push(rows[i]);
        i = i + 1;
    }
    let mut j: usize = 0;
    while j < data.len()
        invariant
            j <= data@.len(),
            out@ =~= rows@.take(offset as int) + data@.take(j as int),
        decreases data.len() - j,
    {
        out.push(data[j]);
        j = j + 1;
    }
    let n = rows.len();
    let mut k: usize = offset + data.len();
    while k < rows.len()
        invariant
            offset + data@.len() <= k <= rows@.len(),
            out@ =~= rows@.take(offset as int) + data@ + rows@.subrange(offset + data@.len(), k as int),
        decreases rows.len() - k,
    {
        out.push(rows[k]);
        k = k + 1;
    }
    proof {
        assert(data@.take(data@.len() as int) =~= data@);
    }
    out
}

/// The expected difference between the evaluations at `point` of a file's polynomial
/// after and before an edit, from the rows of original bytes the server sent: the edit
/// starts `edit_start_location % (7 * num_columns)` bytes into them, and they start at
/// row `first_edited_row`.
pub fn expected_edit_difference(
    edit_start_location: usize,
    data: &[u8],
    num_columns: usize,
    original_unencoded_rows: &[u8],
    first_edited_row: usize,
    point: &WriteableFt63,
) -> (r: Result<WriteableFt63, ClientError>)
    requires
        num_columns > 0,
        7 * num_columns <= usize::MAX,
        first_edited_row * num_columns <= u64::MAX,
    ensures
        r is Ok <==> {
            &&& original_unencoded_rows@.len() >= data@.len()
            &&& original_unencoded_rows@.len() % (7 * num_columns as nat) == 0
            &&& (edit_start_location as nat) % (7 * num_columns as nat) + data@.len() <= original_unencoded_rows@.len()
        },
        r matches Err(e) ==> (e == ClientError::InsufficientData <==> original_unencoded_rows@.len() < data@.len()),
        r matches Err(e) ==> e == ClientError::InsufficientData || e == ClientError::PartialRow || e
            == ClientError::ReplacementOutOfRange,
        r matches Ok(v) ==> v.canonical() && v.value() == edit_difference(
            original_unencoded_rows@,
            edit_start_location as nat % (7 * num_columns as nat),
            data@,
            (first_edited_row * num_columns) as nat,
            point.value(),
        ),
{
    if original_unencoded_rows.len() < data.len() {
        return Err(ClientError::InsufficientData);
    }
    let row_bytes = 7 * num_columns;
    if original_unencoded_rows.len() % row_bytes != 0 {
        return Err(ClientError::PartialRow);
    }
    let offset = edit_start_location % row_bytes;
    if offset > original_unencoded_rows.len() - data.len() {
        return Err(ClientError::ReplacementOutOfRange);
    }
    let expected_edited_bytes = splice_bytes(original_unencoded_rows, offset, data);
    let original_coefficients = convert_byte_vec_to_field_elements_vec::<WriteableFt63>(original_unencoded_rows);
    let new_coefficients = convert_byte_vec_to_field_elements_vec::<WriteableFt63>(expected_edited_bytes.as_slice());
    let a = first_edited_row as u128;
    let b = num_columns as u128;
    assert(a * b <= u128::MAX) by (nonlinear_arith)
        requires a <= u64::MAX, b <= u64::MAX;
    let degree = (a * b) as u64;
    let new_value = evaluate_field_polynomial_at_point_with_elevated_degree(new_coefficients.as_slice(), point, degree);
    let old_value = evaluate_field_polynomial_at_point_with_elevated_degree(
        original_coefficients.as_slice(),
        point,
        degree,
    );
    Ok(new_value.sub(&old_value))
}

/// Decides whether to accept a server's edit: both evaluation answers must check out,
/// and the new evaluation must be the old one plus the difference the edit accounts for
/// (`edit_difference`, over the rows of original bytes the server sent).
pub fn check_edit_evaluation(
    file_metadata: &FileMetadata,
    edited_file_metadata: &FileMetadata,
    data: &[u8],
    edit_start_location: usize,
    evaluation_point: &WriteableFt63,
    requested_columns: &[usize],
    original_result_vector: &[WriteableFt63],
    original_columns: &[PoSColumn],
    new_result_vector: &[WriteableFt63],
    new_columns: &[PoSColumn],
    original_unencoded_rows: &[u8],
) -> (r: Result<(), ClientError>)
    requires
        file_metadata.num_columns > 0,
        7 * file_metadata.num_columns <= usize::MAX,
        edit_start_location + data@.len() <= usize::MAX,
    ensures
        r is Ok <==> {
            let cols = file_metadata.num_columns as nat;
            &&& original_unencoded_rows@.len() >= data@.len()
            &&& original_unencoded_rows@.len() % (7 * cols) == 0
            &&& evaluation_answer_ok(
                original_result_vector@,
                evaluation_point.value(),
                file_metadata.num_rows as nat,
                cols,
                requested_columns@,
                original_columns@,
            )
            &&& evaluation_answer_ok(
                new_result_vector@,
                evaluation_point.value(),
                edited_file_metadata.num_rows as nat,
                edited_file_metadata.num_columns as nat,
                requested_columns@,
                new_columns@,
            )
            &&& (edit_start_location as nat) % (7 * cols) + data@.len() <= original_unencoded_rows@.len()
            &&& claimed_evaluation(
                new_result_vector@,
                evaluation_point.value(),
                edited_file_metadata.num_columns as nat,
            ) == (claimed_evaluation(original_result_vector@, evaluation_point.value(), cols) + edit_difference(
                original_unencoded_rows@,
                edit_start_location as nat % (7 * cols),
                data@,
                edit_first_row(edit_start_location as nat, cols) * cols,
                evaluation_point.value(),
            )) % p()
        },
{
    let cols = file_metadata.num_columns;
    let (first_edited_row, _last_edited_row) = edit_row_range(edit_start_location, data.len(), cols);
    if original_unencoded_rows.len() < data.len() {
        return Err(ClientError::InsufficientData);
    }
    if original_unencoded_rows.len() % (7 * cols) != 0 {
        return Err(ClientError::PartialRow);
    }
    let old_results = checked_evaluation(
        evaluation_point,
        original_result_vector,
        file_metadata.num_rows,
        cols,
        requested_columns,
        original_columns,
    );
    let new_results = checked_evaluation(
        evaluation_point,
        new_result_vector,
        edited_file_metadata.num_rows,
        edited_file_metadata.num_columns,
        requested_columns,
        new_columns,
    );
    let (old_value, new_value) = match (old_results, new_results) {
        (Ok(a), Ok(b)) => (a, b),
        _ => { return Err(ClientError::EvaluationRejected); },
    };
    proof {
        lemma_first_row_degree(edit_start_location as nat, cols as nat);
    }
    let difference = match expected_edit_difference(
        edit_start_location,
        data,
        cols,
        original_unencoded_rows,
        first_edited_row,
        evaluation_point,
    ) {
        Ok(d) => d,
        Err(e) => { return Err(e); },
    };
    let predicted = old_value.add(&difference);
    if new_value.to_canonical_u64() != predicted.to_canonical_u64() {
        return Err(ClientError::EvaluationMismatch);
    }
    Ok(())
}

/// Swapping one term of a sum modulo `m` for another changes the sum by their difference.
proof fn lemma_swap_term_mod(e_p: int, e_r: int, e_r2: int, e_s: int, m: int)
    requires
        m > 0,
        0 <= e_r < m,
        0 <= e_r2,
        0 <= e_p,
        0 <= e_s,
    ensures
        (e_p + (e_r2 + e_s) % m) % m == ((e_p + (e_r + e_s) % m) % m + ((e_r2 + m) - e_r) % m) % m,
{
    vstd::arithmetic::div_mod::lemma_add_mod_noop_right(e_p, e_r2 + e_s, m);
    vstd::arithmetic::div_mod::lemma_add_mod_noop_right(e_p, e_r + e_s, m);
    vstd::arithmetic::div_mod::lemma_add_mod_noop(e_p + e_r + e_s, (e_r2 + m) - e_r, m);
    assert((e_p + e_r + e_s) + ((e_r2 + m) - e_r) == m + (e_p + e_r2 + e_s));
    vstd::arithmetic::div_mod::lemma_mod_add_multiples_vanish(e_p + e_r2 + e_s, m);
}

/// Packing three parts whose first two fill whole elements packs each part on its own.
proof fn lemma_coefficients_of_three(a: Seq<u8>, b: Seq<u8>, c: Seq<u8>)
    requires
        a.len() % 7 == 0,
        b.len() % 7 == 0,
    ensures
        byte_coefficients(a + b + c) == byte_coefficients(a) + byte_coefficients(b) + byte_coefficients(c),
        byte_coefficients(a).len() == a.len() / 7,
        byte_coefficients(b).len() == b.len() / 7,
{
    assert(a + b + c =~= a + (b + c));
    lemma_from_byte_vec_concat::<WriteableFt63>(a, b + c);
    lemma_from_byte_vec_concat::<WriteableFt63>(b, c);
    lemma_field_values_concat(spec_from_byte_vec::<WriteableFt63>(a), spec_from_byte_vec::<WriteableFt63>(b + c));
    lemma_field_values_concat(spec_from_byte_vec::<WriteableFt63>(b), spec_from_byte_vec::<WriteableFt63>(c));
    assert(byte_coefficients(a) + (byte_coefficients(b) + byte_coefficients(c)) =~= byte_coefficients(a)
        + byte_coefficients(b) + byte_coefficients(c));
}

/// The evaluation of three concatenated coefficient runs, the middle one starting at
/// degree `k`.
proof fn lemma_eval_three(vp: Seq<nat>, vr: Seq<nat>, vs: Seq<nat>, x: nat)
    ensures
        poly_eval(vp + vr + vs, x) == (poly_eval(vp, x) + (poly_eval_shifted(vr, x, vp.len()) + poly_eval_shifted(
            vs,
            x,
            vp.len() + vr.len(),
        )) % p()) % p(),
{
    assert(vp + vr + vs =~= vp + (vr + vs));
    lemma_poly_eval_append(vp, vr + vs, x, 0);
    lemma_poly_eval_append(vr, vs, x, vp.len());
}

/// Replacing bytes of a file within whole rows changes the evaluation of its polynomial
/// at `x` by what a client computes from the original bytes of those rows: the client's
/// check balances whenever the rows the server sent and its two evaluations are the
/// true ones.
pub proof fn lemma_honest_edit_balances(file: Seq<u8>, start: nat, data: Seq<u8>, cols: nat, rows: Seq<u8>, x: nat)
    requires
        cols > 0,
        start + data.len() <= file.len(),
        rows.len() % (7 * cols) == 0,
        start % (7 * cols) + data.len() <= rows.len(),
        edit_first_row(start, cols) * (7 * cols) + rows.len() <= file.len(),
        rows == file.subrange(
            (edit_first_row(start, cols) * (7 * cols)) as int,
            (edit_first_row(start, cols) * (7 * cols) + rows.len()) as int,
        ),
    ensures
        poly_eval(byte_coefficients(spliced(file, start, data)), x) == (poly_eval(byte_coefficients(file), x)
            + edit_difference(rows, start % (7 * cols), data, edit_first_row(start, cols) * cols, x)) % p(),
{
    let w = 7 * cols;
    let f = edit_first_row(start, cols);
    let off = start % w;
    vstd::arithmetic::div_mod::lemma_div_denominator(start as int, cols as int, 7);
    assert(cols * 7 == w);
    vstd::arithmetic::div_mod::lemma_fundamental_div_mod(start as int, w as int);
    let b = f * w;
    assert(start == b + off);
    let edited = spliced(rows, off, data);
    let pre = file.take(b as int);
    let post = file.skip((b + rows.len()) as int);
    assert(file =~= pre + rows + post);
    assert(spliced(file, start, data) =~= pre + edited + post);
    assert(b == 7 * (f * cols)) by (nonlinear_arith)
        requires b == f * w, w == 7 * cols;
    vstd::arithmetic::div_mod::lemma_mod_multiples_basic((f * cols) as int, 7);
    vstd::arithmetic::div_mod::lemma_div_multiples_vanish((f * cols) as int, 7);
    vstd::arithmetic::div_mod::lemma_fundamental_div_mod(rows.len() as int, w as int);
    let nr = rows.len() / w;
    assert(rows.len() == 7 * (nr * cols)) by (nonlinear_arith)
        requires rows.len() == w * nr + rows.len() % w, rows.len() % w == 0, w == 7 * cols;
    vstd::arithmetic::div_mod::lemma_mod_multiples_basic((nr * cols) as int, 7);
    assert(edited.len() == rows.len());
    lemma_coefficients_of_three(pre, rows, post);
    lemma_coefficients_of_three(pre, edited, post);
    let vp = byte_coefficients(pre);
    let vr = byte_coefficients(rows);
    let vr2 = byte_coefficients(edited);
    let vs = byte_coefficients(post);
    assert(vp.len() == f * cols);
    assert(vr.len() == vr2.len());
    lemma_eval_three(vp, vr, vs, x);
    lemma_eval_three(vp, vr2, vs, x);
    let k = f * cols;
    let e_r = poly_eval_shifted(vr, x, k);
    let e_r2 = poly_eval_shifted(vr2, x, k);
    let e_s = poly_eval_shifted(vs, x, k + vr.len());
    lemma_poly_eval_shifted_bound(vr, x, k);
    lemma_swap_term_mod(poly_eval(vp, x) as int, e_r as int, e_r2 as int, e_s as int, p() as int);
}

/// Checks the server's new metadata for a reshape: the dimensions asked for.
pub fn check_reshaped_metadata(
    new_file_metadata: &FileMetadata,
    new_pre_encoded_columns: usize,
    new_encoded_columns: usize,
) -> (r: Result<(), ClientError>)
    ensures
        r is Ok <==> (new_file_metadata.num_encoded_columns == new_encoded_columns && new_file_metadata.num_columns
            == new_pre_encoded_columns),
        r matches Err(e) ==> e == ClientError::ReshapeDimensionsNotMet,
{
    if new_file_metadata.num_encoded_columns != new_encoded_columns
        || new_file_metadata.num_columns != new_pre_encoded_columns {
        return Err(ClientError::ReshapeDimensionsNotMet);
    }
    Ok(())
}

/// Decides whether to accept a server's reshape: both evaluation answers must check out
/// and claim the same value, the file's polynomial being the same under both shapes.
pub fn check_reshape_evaluation(
    file_metadata: &FileMetadata,
    new_file_metadata: &FileMetadata,
    evaluation_point: &WriteableFt63,
    requested_original_columns: &[usize],
    requested_new_columns: &[usize],
    original_result_vector: &[WriteableFt63],
    original_columns: &[PoSColumn],
    new_result_vector: &[WriteableFt63],
    new_columns: &[PoSColumn],
) -> (r: Result<(), ClientError>)
    ensures
        r is Ok <==> {
            &&& evaluation_answer_ok(
                original_result_vector@,
                evaluation_point.value(),
                file_metadata.num_rows as nat,
                file_metadata.num_columns as nat,
                requested_original_columns@,
                original_columns@,
            )
            &&& evaluation_answer_ok(
                new_result_vector@,
                evaluation_point.value(),
                new_file_metadata.num_rows as nat,
                new_file_metadata.num_columns as nat,
                requested_new_columns@,
                new_columns@,
            )
            &&& claimed_evaluation(original_result_vector@, evaluation_point.value(), file_metadata.num_columns as nat)
                == claimed_evaluation(
                new_result_vector@,
                evaluation_point.value(),
                new_file_metadata.num_columns as nat,
            )
        },
        r matches Err(e) ==> e == ClientError::EvaluationRejected || e == ClientError::EvaluationMismatch,
{
    let old_results = checked_evaluation(
        evaluation_point,
        original_result_vector,
        file_metadata.num_rows,
        file_metadata.num_columns,
        requested_original_columns,
        original_columns,
    );
    let new_results = checked_evaluation(
        evaluation_point,
        new_result_vector,
        new_file_metadata.num_rows,
        new_file_metadata.num_columns,
        requested_new_columns,
        new_columns,
    );
    let (old_value, new_value) = match (old_results, new_results) {
        (Ok(a), Ok(b)) => (a, b),
        _ => { return Err(ClientError::EvaluationRejected); },
    };
    if old_value.to_canonical_u64() != new_value.to_canonical_u64() {
        return Err(ClientError::EvaluationMismatch);
    }
    Ok(())
}

/// Whether a server's columns prove that it stores `data` committed with rows of `pre`
/// data elements encoded into `enc` columns under `root`: no more columns than
/// soundness needs, one per requested position, each hashing to the digest of that
/// column of the data's encoded matrix and lying on a path to the root.
pub open spec fn storage_proof_ok(
    data: Seq<WriteableFt63>,
    pre: nat,
    enc: nat,
    root: [u8; 32],
    requested: Seq<usize>,
    received: Seq<PoSColumn>,
    required_columns_for_soundness: nat,
) -> bool {
    &&& within_soundness(required_columns_for_soundness, requested.len(), requested.len(), received.len())
    &&& received.len() == requested.len()
    &&& forall|i: int|
        0 <= i < requested.len() ==> column_digest(committed_column(data, pre, enc, requested[i] as nat))
            == column_digest(#[trigger] received[i].col@)
    &&& forall|i: int| 0 <= i < received.len() ==> column_path_ok(#[trigger] received[i], requested[i] as nat, root)
}

/// Checks a proof of storage against the client's own copy of the file: derives the
/// digests of the requested columns from `file_data` and checks the server's columns
/// against them and against the committed root.
pub fn check_storage_proof(
    file_data: &[u8],
    file_metadata: &FileMetadata,
    columns_to_verify: &Vec<usize>,
    received_columns: &[PoSColumn],
    required_columns_for_soundness: usize,
) -> (r: Result<(), ClientError>)
    ensures
        r is Ok <==> {
            let data = spec_from_byte_vec::<WriteableFt63>(file_data@);
            &&& commit_shape_ok(
                data.len(),
                file_metadata.num_columns as nat,
                file_metadata.num_encoded_columns as nat,
            )
            &&& columns_in_range(columns_to_verify@, file_metadata.num_encoded_columns as nat)
            &&& storage_proof_ok(
                data,
                file_metadata.num_columns as nat,
                file_metadata.num_encoded_columns as nat,
                file_metadata.root.root,
                columns_to_verify@,
                received_columns@,
                required_columns_for_soundness as nat,
            )
        },
        r matches Err(e) ==> (e is Commit <==> !(commit_shape_ok(
            spec_from_byte_vec::<WriteableFt63>(file_data@).len(),
            file_metadata.num_columns as nat,
            file_metadata.num_encoded_columns as nat,
        ) && columns_in_range(columns_to_verify@, file_metadata.num_encoded_columns as nat))),
{
    let field_data = convert_byte_vec_to_field_elements_vec::<WriteableFt63>(file_data);
    let requested = columns_to_verify.clone();
    proof {
        assert(requested@ =~= columns_to_verify@);
    }
    let leaves = match convert_file_data_to_commit(
        field_data.as_slice(),
        CommitRequestType::Leaves(requested),
        file_metadata.num_columns,
        file_metadata.num_encoded_columns,
    ) {
        Ok(CommitOrLeavesOutput::Leaves(ls)) => ls,
        Ok(_) => { return Err(ClientError::Commit(CommitError::EmptyData)); },
        Err(e) => { return Err(ClientError::Commit(e)); },
    };
    let ghost data = field_data@;
    let ghost pre = file_metadata.num_columns as nat;
    let ghost enc = file_metadata.num_encoded_columns as nat;
    let verdict = client_verify_commitment(
        &file_metadata.root,
        &leaves,
        columns_to_verify.as_slice(),
        received_columns,
        required_columns_for_soundness,
    );
    proof {
        let digests_agree = forall|i: int|
            0 <= i < columns_to_verify@.len() ==> (#[trigger] leaves@[i])@ == column_digest(received_columns@[i].col@);
        let spec_agree = forall|i: int|
            0 <= i < columns_to_verify@.len() ==> column_digest(committed_column(data, pre, enc, columns_to_verify@[i] as nat))
                == column_digest(#[trigger] received_columns@[i].col@);
        if leaves@.len() == columns_to_verify@.len() && received_columns@.len() == columns_to_verify@.len() {
            assert(digests_agree <==> spec_agree) by {
                if digests_agree {
                    assert forall|i: int| 0 <= i < columns_to_verify@.len() implies column_digest(
                        committed_column(data, pre, enc, columns_to_verify@[i] as nat),
                    ) == column_digest(#[trigger] received_columns@[i].col@) by {
                        assert(leaves@[i]@ == column_digest(received_columns@[i].col@));
                    }
                }
                if spec_agree {
                    assert forall|i: int| 0 <= i < columns_to_verify@.len() implies (#[trigger] leaves@[i])@
                        == column_digest(received_columns@[i].col@) by {
                        assert(column_digest(committed_column(data, pre, enc, columns_to_verify@[i] as nat))
                            == column_digest(received_columns@[i].col@));
                    }
                }
            }
        }
    }
    match verdict {
        Ok(()) => Ok(()),
        Err(e) => Err(ClientError::ProofRejected(e)),
    }
}

/// Checks a server's answer to a polynomial evaluation request: the opened columns lie
/// on paths to the committed root, and the answer checks against them; gives the value
/// the answer claims.  The rows are taken `num_encoded_columns` coefficients wide.
pub fn check_polynomial_evaluation(
    file_metadata: &FileMetadata,
    evaluation_point: &WriteableFt63,
    columns_to_verify: &[usize],
    received_columns: &[PoSColumn],
    evaluation_result: &[WriteableFt63],
) -> (r: Result<WriteableFt63, ClientError>)
    ensures
        r is Ok <==> {
            &&& received_columns@.len() == columns_to_verify@.len()
            &&& forall|i: int|
                0 <= i < received_columns@.len() ==> column_path_ok(
                    #[trigger] received_columns@[i],
                    columns_to_verify@[i] as nat,
                    file_metadata.root.root,
                )
            &&& evaluation_answer_ok(
                evaluation_result@,
                evaluation_point.value(),
                file_metadata.num_rows as nat,
                file_metadata.num_encoded_columns as nat,
                columns_to_verify@,
                received_columns@,
            )
        },
        r matches Ok(v) ==> v.canonical() && v.value() == claimed_evaluation(
            evaluation_result@,
            evaluation_point.value(),
            file_metadata.num_encoded_columns as nat,
        ),
        r matches Err(e) ==> (e is ProofRejected <==> !(received_columns@.len() == columns_to_verify@.len()
            && forall|i: int|
            0 <= i < received_columns@.len() ==> column_path_ok(
                #[trigger] received_columns@[i],
                columns_to_verify@[i] as nat,
                file_metadata.root.root,
            ))),
{
    match client_online_verify_column_paths(&file_metadata.root, columns_to_verify, received_columns) {
        Ok(()) => {},
        Err(e) => { return Err(ClientError::ProofRejected(e)); },
    }
    checked_evaluation(
        evaluation_point,
        evaluation_result,
        file_metadata.num_rows,
        file_metadata.num_encoded_columns,
        columns_to_verify,
        received_columns,
    )
}

/// A server that stores the committed file and opens the requested columns of its
/// commitment passes the proof of storage: its columns check against the client's own
/// copy of the file and against the root, whenever no more columns are asked for than
/// soundness allows.
pub proof fn lemma_stored_file_passes_proof(
    data: Seq<WriteableFt63>,
    c: PoSCommit,
    requested: Seq<usize>,
    received: Seq<PoSColumn>,
    required_columns_for_soundness: nat,
)
    requires
        c.wf(),
        c.spec_n_rows() == rows_for(data.len(), c.spec_n_per_row()),
        c.spec_coeffs() == crate::lcpc_online::commit::zero_padded(data, c.spec_n_rows() * c.spec_n_per_row()),
        columns_in_range(requested, c.spec_n_cols()),
        requested.len() <= required_columns_for_soundness,
        received.len() == requested.len(),
        forall|i: int|
            0 <= i < received.len() ==> (#[trigger] received[i]).col@ == c.spec_column(requested[i] as nat)
                && received[i].path@ == spec_path(c.spec_hashes(), c.spec_n_cols(), requested[i] as nat),
    ensures
        storage_proof_ok(
            data,
            c.spec_n_per_row(),
            c.spec_n_cols(),
            c.spec_root(),
            requested,
            received,
            required_columns_for_soundness,
        ),
{
    lemma_honest_columns_accepted(c, requested, received);
    assert forall|i: int| 0 <= i < requested.len() implies column_digest(
        committed_column(data, c.spec_n_per_row(), c.spec_n_cols(), requested[i] as nat),
    ) == column_digest(#[trigger] received[i].col@) by {
        lemma_commit_columns(c, data, requested[i] as nat);
    }
}

} // verus!
