use vstd::prelude::*;

pub mod column_digest_accumulator;
pub mod commit;
pub mod encoded_file_reader;
pub mod encoded_file_writer;
pub mod encoding;
pub mod evaluation;
pub mod file_handler;
pub mod hashing;
pub mod merkle_tree;
pub mod row_generator_iter;

pub use crate::lcpc_online::encoding::decode_row;

use crate::fields::writable_ft63::{field_pow, p, WriteableFt63};
use crate::fields::{dot, field_values, vector_multiply};
use crate::lcpc_online::commit::{
    column_digest, column_of, digest_of_column, gather_column, padded_words, row_of, zero_padded, PoSColumn, PoSCommit,
    PoSRoot,
};
use crate::lcpc_online::encoding::{
    all_canonical, canonical_elements, fft_io_of, fft_len_ok, field_words, ifft_oi_of, max_fft_len, spec_dims_ok,
    FftError, PoSEncoding,
};
use crate::lcpc_online::hashing::{digest_eq, hash_pair};
use crate::lcpc_online::merkle_tree::{digest_views, root_from_path, spec_path};

verus! {

/// Why a verifier rejected what a server sent.
#[derive(Debug, Clone, Copy, PartialEq, Eq, Structural)]
pub enum VerifierError {
    /// Wrong number of column openings.
    NumColOpens,
    /// A column's Merkle path failed.
    ColumnPath,
    /// A column's evaluation or digest did not match.
    ColumnEval,
    /// A column's degree test failed.
    ColumnDegree,
    /// The outer tensor has the wrong size.
    OuterTensor,
    /// The inner tensor has the wrong size.
    InnerTensor,
    /// The encoding dimensions do not match.
    EncodingDims,
    /// A row could not be transformed.
    Encode(FftError),
}

/// Whether a column's digest, hashed up its path from position `index`, gives `root`.
pub open spec fn column_path_ok(column: PoSColumn, index: nat, root: [u8; 32]) -> bool {
    root_from_path(column_digest(column.col@), index, digest_views(column.path@)) == root@
}

/// Hashes `leaf` up `path` from position `index`: on each step the running digest goes
/// left when the position is even and right when it is odd.
pub fn root_from_path_exec(leaf: [u8; 32], index: usize, path: &[[u8; 32]]) -> (r: [u8; 32])
    ensures
        r@ == root_from_path(leaf@, index as nat, digest_views(path@)),
{
    let mut hash = leaf;
    let mut col = index;
    let mut i: usize = 0;
    proof {
        assert(path@.skip(0) =~= path@);
    }
    while i < path.len()
        invariant
            i <= path@.len(),
            root_from_path(hash@, col as nat, digest_views(path@.skip(i as int))) == root_from_path(
                leaf@,
                index as nat,
                digest_views(path@),
            ),
        decreases path.len() - i,
    {
        let ghost rest = digest_views(path@.skip(i as int));
        proof {
            assert(rest.drop_first() =~= digest_views(path@.skip(i + 1)));
            assert(rest[0] == path@[i as int]@);
        }
        if col % 2 == 0 {
            hash = hash_pair(&hash, &path[i]);
        } else {
            hash = hash_pair(&path[i], &hash);
        }
        col = col / 2;
        i = i + 1;
    }
    proof {
        assert(digest_views(path@.skip(i as int)) =~= Seq::<Seq<u8>>::empty());
    }
    hash
}

/// Whether `column`, opened at position `col_num`, checks against `root`.
pub fn verify_column_path(column: &PoSColumn, col_num: usize, root: &[u8; 32]) -> (r: bool)
    ensures
        r == column_path_ok(*column, col_num as nat, *root),
{
    let leaf = digest_of_column(&column.col);
    let top = root_from_path_exec(leaf, col_num, &column.path);
    digest_eq(&top, root)
}

/// The digest of a column: a zero block, then each element's canonical encoding.
pub fn hash_column_to_digest(column: &PoSColumn) -> (r: [u8; 32])
    ensures
        r@ == column_digest(column.col@),
{
    digest_of_column(&column.col)
}

/// The columns at the requested positions, each with its Merkle path, for a client to
/// check.
pub fn server_retreive_columns(comm: &PoSCommit, requested_columns: &Vec<usize>) -> (r: Vec<PoSColumn>)
    requires
        comm.wf(),
        forall|i: int| 0 <= i < requested_columns@.len() ==> #[trigger] requested_columns@[i] < comm.spec_n_cols(),
    ensures
        r@.len() == requested_columns@.len(),
        forall|i: int|
            0 <= i < r@.len() ==> (#[trigger] r@[i]).col@ == comm.spec_column(requested_columns@[i] as nat)
                && r@[i].path@ == spec_path(comm.spec_hashes(), comm.spec_n_cols(), requested_columns@[i] as nat),
{
    let mut out: Vec<PoSColumn> = Vec::new();
    let mut i: usize = 0;
    while i < requested_columns.len()
        invariant
            i <= requested_columns@.len(),
            comm.wf(),
            forall|k: int| 0 <= k < requested_columns@.len() ==> #[trigger] requested_columns@[k] < comm.spec_n_cols(),
            out@.len() == i,
            forall|k: int|
                0 <= k < i ==> (#[trigger] out@[k]).col@ == comm.spec_column(requested_columns@[k] as nat)
                    && out@[k].path@ == spec_path(comm.spec_hashes(), comm.spec_n_cols(), requested_columns@[k] as nat),
        decreases requested_columns.len() - i,
    {
        out.push(comm.open_column(requested_columns[i]));
        i = i + 1;
    }
    out
}

/// Checks that every received column, at the requested position, is on a Merkle path
/// to the committed root.
pub fn client_online_verify_column_paths(
    commitment_root: &PoSRoot,
    requested_columns: &[usize],
    received_columns: &[PoSColumn],
) -> (r: Result<(), VerifierError>)
    ensures
        r is Ok <==> (received_columns@.len() == requested_columns@.len() && forall|i: int|
            0 <= i < received_columns@.len() ==> column_path_ok(
                #[trigger] received_columns@[i],
                requested_columns@[i] as nat,
                commitment_root.root,
            )),
        r matches Err(e) ==> e == VerifierError::ColumnEval,
{
    if received_columns.len() != requested_columns.len() {
        return Err(VerifierError::ColumnEval);
    }
    let mut i: usize = 0;
    while i < requested_columns.len()
        invariant
            i <= requested_columns@.len(),
            received_columns@.len() == requested_columns@.len(),
            forall|k: int|
                0 <= k < i ==> column_path_ok(
                    #[trigger] received_columns@[k],
                    requested_columns@[k] as nat,
                    commitment_root.root,
                ),
        decreases requested_columns.len() - i,
    {
        if !verify_column_path(&received_columns[i], requested_columns[i], &commitment_root.root) {
            return Err(VerifierError::ColumnEval);
        }
        i = i + 1;
    }
    Ok(())
}

/// Checks, for each requested position, that the received column digest hashed up the
/// received path gives the committed root; there must be one digest and one path per
/// requested position.
pub fn client_online_verify_column_paths_without_full_columns(
    commitment_root: &PoSRoot,
    requested_columns: &[usize],
    received_columns_digests: &[[u8; 32]],
    received_column_paths: &Vec<Vec<[u8; 32]>>,
) -> (r: Result<(), VerifierError>)
    ensures
        r is Ok <==> (received_column_paths@.len() == requested_columns@.len()
            && received_columns_digests@.len() == requested_columns@.len() && forall|i: int|
            0 <= i < requested_columns@.len() ==> root_from_path(
                (#[trigger] received_columns_digests@[i])@,
                requested_columns@[i] as nat,
                digest_views(received_column_paths@[i]@),
            ) == commitment_root.root@),
        r matches Err(e) ==> e == VerifierError::ColumnEval,
{
    if received_column_paths.len() != requested_columns.len() {
        return Err(VerifierError::ColumnEval);
    }
    if received_columns_digests.len() != requested_columns.len() {
        return Err(VerifierError::ColumnEval);
    }
    let n = requested_columns.len();
    let mut i: usize = 0;
    while i < n
        invariant
            i <= n,
            n == requested_columns@.len(),
            received_columns_digests@.len() == n,
            received_column_paths@.len() == n,
            forall|k: int|
                0 <= k < i ==> root_from_path(
                    (#[trigger] received_columns_digests@[k])@,
                    requested_columns@[k] as nat,
                    digest_views(received_column_paths@[k]@),
                ) == commitment_root.root@,
        decreases n - i,
    {
        let top = root_from_path_exec(received_columns_digests[i], requested_columns[i], received_column_paths[i].as_slice());
        if !digest_eq(&top, &commitment_root.root) {
            return Err(VerifierError::ColumnEval);
        }
        i = i + 1;
    }
    Ok(())
}

/// Checks that the column digests a client derived from its own copy of the file agree
/// with those the server sent, one per requested column.
pub fn client_online_verify_column_leaves(
    locally_derived_column_leaves: &Vec<[u8; 32]>,
    requested_columns: &[usize],
    received_column_leaves: &[[u8; 32]],
) -> (r: Result<(), VerifierError>)
    ensures
        r is Ok <==> (locally_derived_column_leaves@.len() == requested_columns@.len()
            && received_column_leaves@.len() == requested_columns@.len() && forall|i: int|
            0 <= i < requested_columns@.len() ==> (#[trigger] locally_derived_column_leaves@[i])@
                == received_column_leaves@[i]@),
        r matches Err(e) ==> e == VerifierError::NumColOpens,
{
    if locally_derived_column_leaves.len() != requested_columns.len()
        || received_column_leaves.len() != requested_columns.len() {
        return Err(VerifierError::NumColOpens);
    }
    let mut i: usize = 0;
    while i < requested_columns.len()
        invariant
            i <= requested_columns@.len(),
            locally_derived_column_leaves@.len() == requested_columns@.len(),
            received_column_leaves@.len() == requested_columns@.len(),
            forall|k: int| 0 <= k < i ==> (#[trigger] locally_derived_column_leaves@[k])@ == received_column_leaves@[k]@,
        decreases requested_columns.len() - i,
    {
        if !digest_eq(&locally_derived_column_leaves[i], &received_column_leaves[i]) {
            return Err(VerifierError::NumColOpens);
        }
        i = i + 1;
    }
    Ok(())
}

/// Whether no list is longer than the number of columns required for soundness.
pub open spec fn within_soundness(required: nat, a: nat, b: nat, c: nat) -> bool {
    required >= a && required >= b && required >= c
}

/// Checks a proof of storage: the received columns hash to the digests the client
/// derived locally, and each lies on a Merkle path to the committed root.
pub fn client_verify_commitment(
    commitment_root: &PoSRoot,
    locally_derived_column_leaves: &Vec<[u8; 32]>,
    requested_columns: &[usize],
    received_columns: &[PoSColumn],
    required_columns_for_soundness: usize,
) -> (r: Result<(), VerifierError>)
    ensures
        r is Ok <==> (within_soundness(
            required_columns_for_soundness as nat,
            locally_derived_column_leaves@.len(),
            requested_columns@.len(),
            received_columns@.len(),
        ) && locally_derived_column_leaves@.len() == requested_columns@.len()
            && received_columns@.len() == requested_columns@.len() && (forall|i: int|
            0 <= i < requested_columns@.len() ==> (#[trigger] locally_derived_column_leaves@[i])@
                == column_digest(received_columns@[i].col@)) && forall|i: int|
            0 <= i < received_columns@.len() ==> column_path_ok(
                #[trigger] received_columns@[i],
                requested_columns@[i] as nat,
                commitment_root.root,
            )),
        r matches Err(e) ==> (e == VerifierError::NumColOpens || e == VerifierError::ColumnEval),
        r matches Err(e) ==> (e == VerifierError::ColumnEval <==> (within_soundness(
            required_columns_for_soundness as nat,
            locally_derived_column_leaves@.len(),
            requested_columns@.len(),
            received_columns@.len(),
        ) && locally_derived_column_leaves@.len() == requested_columns@.len()
            && received_columns@.len() == requested_columns@.len() && forall|i: int|
            0 <= i < requested_columns@.len() ==> (#[trigger] locally_derived_column_leaves@[i])@
                == column_digest(received_columns@[i].col@))),
{
    if required_columns_for_soundness < locally_derived_column_leaves.len()
        || required_columns_for_soundness < requested_columns.len()
        || required_columns_for_soundness < received_columns.len() {
        return Err(VerifierError::NumColOpens);
    }
    let mut received_columns_leaves: Vec<[u8; 32]> = Vec::new();
    let mut i: usize = 0;
    while i < received_columns.len()
        invariant
            i <= received_columns@.len(),
            received_columns_leaves@.len() == i,
            forall|k: int|
                0 <= k < i ==> (#[trigger] received_columns_leaves@[k])@ == column_digest(received_columns@[k].col@),
        decreases received_columns.len() - i,
    {
        received_columns_leaves.push(hash_column_to_digest(&received_columns[i]));
        i = i + 1;
    }
    match client_online_verify_column_leaves(locally_derived_column_leaves, requested_columns, &received_columns_leaves) {
        Err(e) => { return Err(e); },
        Ok(()) => {},
    }
    client_online_verify_column_paths(commitment_root, requested_columns, received_columns)
}

/// Checks a proof of storage given only the column digests and their paths: the digests
/// agree with those the client derived locally, and each lies on a path to the root.
pub fn client_verify_commitment_without_full_columns(
    commitment_root: &PoSRoot,
    locally_derived_column_leaves: &Vec<[u8; 32]>,
    requested_columns: &[usize],
    received_column_digests: &Vec<[u8; 32]>,
    received_column_paths: &Vec<Vec<[u8; 32]>>,
    required_columns_for_soundness: usize,
) -> (r: Result<(), VerifierError>)
    ensures
        r is Ok <==> (within_soundness(
            required_columns_for_soundness as nat,
            locally_derived_column_leaves@.len(),
            requested_columns@.len(),
            received_column_digests@.len(),
        ) && locally_derived_column_leaves@.len() == requested_columns@.len()
            && received_column_digests@.len() == requested_columns@.len() && (forall|i: int|
            0 <= i < requested_columns@.len() ==> (#[trigger] locally_derived_column_leaves@[i])@
                == received_column_digests@[i]@) && received_column_paths@.len()
            == requested_columns@.len() && forall|i: int|
            0 <= i < requested_columns@.len() ==> root_from_path(
                (#[trigger] received_column_digests@[i])@,
                requested_columns@[i] as nat,
                digest_views(received_column_paths@[i]@),
            ) == commitment_root.root@),
        r matches Err(e) ==> (e == VerifierError::NumColOpens || e == VerifierError::ColumnEval),
{
    if required_columns_for_soundness < locally_derived_column_leaves.len()
        || required_columns_for_soundness < requested_columns.len()
        || required_columns_for_soundness < received_column_digests.len() {
        return Err(VerifierError::NumColOpens);
    }
    match client_online_verify_column_leaves(locally_derived_column_leaves, requested_columns, received_column_digests) {
        Err(e) => { return Err(e); },
        Ok(()) => {},
    }
    client_online_verify_column_paths_without_full_columns(
        commitment_root,
        requested_columns,
        received_column_digests,
        received_column_paths,
    )
}

/// Each column of the encoded matrix multiplied by `left_evaluation_column`: the
/// partial evaluation a server sends for a polynomial evaluation proof.
pub fn verifiable_polynomial_evaluation(commitment: &PoSCommit, left_evaluation_column: &[WriteableFt63]) -> (r: Vec<
    WriteableFt63,
>)
    requires
        commitment.wf(),
    ensures
        r@.len() == commitment.spec_n_cols(),
        forall|i: int|
            0 <= i < r@.len() ==> (#[trigger] r@[i]).value() == dot(
                field_values(left_evaluation_column@),
                field_values(commitment.spec_column(i as nat)),
            ) && r@[i].canonical(),
{
    let n_cols = commitment.get_n_cols();
    let n_rows = commitment.get_n_rows();
    let mut result: Vec<WriteableFt63> = Vec::new();
    let mut i: usize = 0;
    while i < n_cols
        invariant
            i <= n_cols,
            commitment.wf(),
            n_cols == commitment.spec_n_cols(),
            n_rows == commitment.spec_n_rows(),
            result@.len() == i,
            forall|k: int|
                0 <= k < i ==> (#[trigger] result@[k]).value() == dot(
                    field_values(left_evaluation_column@),
                    field_values(commitment.spec_column(k as nat)),
                ) && result@[k].canonical(),
        decreases n_cols - i,
    {
        let column = gather_column(commitment.comm(), n_rows, n_cols, i);
        result.push(vector_multiply(left_evaluation_column, &column));
        i = i + 1;
    }
    result
}

/// Whether each received column, multiplied by the left vector, gives the reduced
/// value of the partial evaluation at the position requested for it: one column per
/// requested position, each position inside the evaluation.
pub open spec fn partial_evaluation_ok(
    left: Seq<nat>,
    result: Seq<WriteableFt63>,
    indices: Seq<usize>,
    received: Seq<PoSColumn>,
) -> bool {
    &&& received.len() == indices.len()
    &&& forall|k: int|
        0 <= k < received.len() ==> {
            &&& (#[trigger] indices[k]) < result.len()
            &&& result[indices[k] as int].canonical()
            &&& result[indices[k] as int].value() == dot(left, field_values(received[k].col@))
        }
}

/// The values of the left evaluation vector at `x`: `(x^n_per_row)^r` for each row `r`.
pub open spec fn side_left_values(x: nat, n_rows: nat, n_per_row: nat) -> Seq<nat> {
    Seq::new(n_rows, |i: int| field_pow(field_pow(x, n_per_row), i as nat))
}

/// The values of the right evaluation vector at `x`: `x^j` for each position `j`.
pub open spec fn side_right_values(x: nat, n_per_row: nat) -> Seq<nat> {
    Seq::new(n_per_row, |j: int| field_pow(x, j as nat))
}

/// Checks that the partial evaluation agrees with the received columns: column `k`,
/// multiplied by the left vector, must give the evaluation's entry at the `k`-th
/// requested position (the columns' Merkle paths are checked elsewhere).
pub fn verify_proper_partial_polynomial_evaluation(
    left_evaluation_column: &[WriteableFt63],
    evaluation_result_vector: &[WriteableFt63],
    requested_columns_indices: &[usize],
    received_columns: &[PoSColumn],
) -> (r: Result<(), VerifierError>)
    ensures
        r is Ok <==> partial_evaluation_ok(
            field_values(left_evaluation_column@),
            evaluation_result_vector@,
            requested_columns_indices@,
            received_columns@,
        ),
        r matches Err(e) ==> e == VerifierError::ColumnEval,
{
    if received_columns.len() != requested_columns_indices.len() {
        return Err(VerifierError::ColumnEval);
    }
    let n = received_columns.len();
    let mut k: usize = 0;
    while k < n
        invariant
            k <= n,
            n == received_columns@.len(),
            n == requested_columns_indices@.len(),
            forall|j: int|
                0 <= j < k ==> {
                    &&& (#[trigger] requested_columns_indices@[j]) < evaluation_result_vector@.len()
                    &&& evaluation_result_vector@[requested_columns_indices@[j] as int].canonical()
                    &&& evaluation_result_vector@[requested_columns_indices@[j] as int].value() == dot(
                        field_values(left_evaluation_column@),
                        field_values(received_columns@[j].col@),
                    )
                },
        decreases n - k,
    {
        let idx = requested_columns_indices[k];
        if idx >= evaluation_result_vector.len() {
            return Err(VerifierError::ColumnEval);
        }
        let expected_result = vector_multiply(left_evaluation_column, received_columns[k].col.as_slice());
        let claimed = evaluation_result_vector[idx];
        if expected_result != claimed {
            proof {
                if claimed.canonical() && claimed.value() == expected_result.value() {
                    WriteableFt63::lemma_eq_from_value(claimed, expected_result);
                }
                assert(requested_columns_indices@[k as int] == idx);
            }
            return Err(VerifierError::ColumnEval);
        }
        k = k + 1;
    }
    Ok(())
}

/// The field values of machine words.
pub open spec fn words_values(s: Seq<u64>) -> Seq<nat> {
    s.map_values(|w: u64| w as nat)
}

proof fn lemma_values_of_words(v: Seq<WriteableFt63>)
    ensures
        field_values(v) == words_values(field_words(v)),
{
    assert forall|i: int| 0 <= i < v.len() implies field_values(v)[i] == words_values(field_words(v))[i] by {
        crate::fields::writable_ft63::lemma_mont_value_bound(v[i].repr());
    }
    assert(field_values(v) =~= words_values(field_words(v)));
}

/// Checks a server's partial evaluation against the received columns, decodes it and
/// multiplies it by the right vector: the value of the committed polynomial that the
/// server vouches for.  The commitment itself is not consulted.
pub fn verifiable_full_polynomial_evaluation(
    left_evaluation_column: &[WriteableFt63],
    right_evaluation_column: &[WriteableFt63],
    received_result_vector: &[WriteableFt63],
    commitment: &PoSCommit,
    requested_column_indices: &[usize],
    received_columns: &[PoSColumn],
) -> (r: Result<WriteableFt63, VerifierError>)
    requires
        received_result_vector@.len() != 1,
    ensures
        r is Ok <==> (partial_evaluation_ok(
            field_values(left_evaluation_column@),
            received_result_vector@,
            requested_column_indices@,
            received_columns@,
        ) && fft_len_ok(received_result_vector@.len())),
        r matches Err(e) ==> (e == VerifierError::ColumnEval <==> !partial_evaluation_ok(
            field_values(left_evaluation_column@),
            received_result_vector@,
            requested_column_indices@,
            received_columns@,
        )),
        r matches Err(e) ==> (e == VerifierError::ColumnEval || e is Encode),
        r matches Ok(v) ==> v.canonical() && v.value() == dot(
            words_values(ifft_oi_of(field_words(received_result_vector@))),
            field_values(right_evaluation_column@),
        ),
{
    full_evaluation_from_partial(
        left_evaluation_column,
        right_evaluation_column,
        received_result_vector,
        requested_column_indices,
        received_columns,
    )
}

fn full_evaluation_from_partial(
    left_evaluation_column: &[WriteableFt63],
    right_evaluation_column: &[WriteableFt63],
    received_result_vector: &[WriteableFt63],
    requested_column_indices: &[usize],
    received_columns: &[PoSColumn],
) -> (r: Result<WriteableFt63, VerifierError>)
    requires
        received_result_vector@.len() != 1,
    ensures
        r is Ok <==> (partial_evaluation_ok(
            field_values(left_evaluation_column@),
            received_result_vector@,
            requested_column_indices@,
            received_columns@,
        ) && fft_len_ok(received_result_vector@.len())),
        r matches Err(e) ==> (e == VerifierError::ColumnEval <==> !partial_evaluation_ok(
            field_values(left_evaluation_column@),
            received_result_vector@,
            requested_column_indices@,
            received_columns@,
        )),
        r matches Err(e) ==> (e == VerifierError::ColumnEval || e is Encode),
        r matches Ok(v) ==> v.canonical() && v.value() == dot(
            words_values(ifft_oi_of(field_words(received_result_vector@))),
            field_values(right_evaluation_column@),
        ),
{
    match verify_proper_partial_polynomial_evaluation(
        left_evaluation_column,
        received_result_vector,
        requested_column_indices,
        received_columns,
    ) {
        Err(e) => { return Err(e); },
        Ok(()) => {},
    }
    let mut row: Vec<WriteableFt63> = Vec::new();
    let mut i: usize = 0;
    while i < received_result_vector.len()
        invariant
            i <= received_result_vector@.len(),
            row@ =~= received_result_vector@.subrange(0, i as int),
        decreases received_result_vector.len() - i,
    {
        row.push(received_result_vector[i]);
        i = i + 1;
    }
    proof {
        assert(row@ =~= received_result_vector@);
    }
    match decode_row(row) {
        Err(e) => Err(VerifierError::Encode(e)),
        Ok(decoded) => {
            proof {
                lemma_values_of_words(decoded@);
            }
            Ok(vector_multiply(&decoded, right_evaluation_column))
        },
    }
}

/// The two vectors that evaluate the committed polynomial at `point`: the left one
/// holds `(point^n_per_row)^r` for each row `r`, the right one `point^j` for each
/// position `j` in a row.
pub fn form_side_vectors_for_polynomial_evaluation_from_point(
    point: &WriteableFt63,
    n_rows: usize,
    n_per_row: usize,
) -> (r: (Vec<WriteableFt63>, Vec<WriteableFt63>))
    ensures
        r.0@.len() == n_rows,
        r.1@.len() == n_per_row,
        forall|i: int|
            0 <= i < n_rows ==> (#[trigger] r.0@[i]).value() == field_pow(
                field_pow(point.value(), n_per_row as nat),
                i as nat,
            ) && r.0@[i].canonical(),
        forall|j: int|
            0 <= j < n_per_row ==> (#[trigger] r.1@[j]).value() == field_pow(point.value(), j as nat)
                && r.1@[j].canonical(),
{
    let step = point.pow(n_per_row as u64);
    let left = powers(&step, n_rows);
    let right = powers(point, n_per_row);
    (left, right)
}

/// `[1, x, x^2, ..., x^(n-1)]`.
fn powers(x: &WriteableFt63, n: usize) -> (r: Vec<WriteableFt63>)
    ensures
        r@.len() == n,
        forall|i: int| 0 <= i < n ==> (#[trigger] r@[i]).value() == field_pow(x.value(), i as nat) && r@[i].canonical(),
{
    let mut out: Vec<WriteableFt63> = Vec::new();
    let mut acc = WriteableFt63::one();
    let mut i: usize = 0;
    while i < n
        invariant
            i <= n,
            out@.len() == i,
            acc.value() == field_pow(x.value(), i as nat),
            acc.canonical(),
            forall|k: int| 0 <= k < i ==> (#[trigger] out@[k]).value() == field_pow(x.value(), k as nat) && out@[k].canonical(),
        decreases n - i,
    {
        out.push(acc);
        proof {
            assert(acc.value() * x.value() == x.value() * acc.value()) by (nonlinear_arith);
        }
        acc = acc.mul(x);
        i = i + 1;
    }
    out
}

/// Evaluates the committed polynomial at `point` from a server's partial evaluation and
/// opened columns, for a file of `n_rows` rows of `n_per_row` coefficients.
pub fn verify_full_polynomial_evaluation_wrapper_with_single_eval_point(
    point: &WriteableFt63,
    received_result_vector: &[WriteableFt63],
    n_rows: usize,
    n_per_row: usize,
    requested_column_indices: &[usize],
    received_columns: &[PoSColumn],
) -> (r: Result<WriteableFt63, VerifierError>)
    requires
        received_result_vector@.len() != 1,
    ensures
        r is Ok <==> (partial_evaluation_ok(
            side_left_values(point.value(), n_rows as nat, n_per_row as nat),
            received_result_vector@,
            requested_column_indices@,
            received_columns@,
        ) && fft_len_ok(received_result_vector@.len())),
        r matches Ok(v) ==> v.canonical() && v.value() == dot(
            words_values(ifft_oi_of(field_words(received_result_vector@))),
            side_right_values(point.value(), n_per_row as nat),
        ),
{
    let (left, right) = form_side_vectors_for_polynomial_evaluation_from_point(point, n_rows, n_per_row);
    proof {
        assert(field_values(left@) =~= side_left_values(point.value(), n_rows as nat, n_per_row as nat));
        assert(field_values(right@) =~= side_right_values(point.value(), n_per_row as nat));
    }
    full_evaluation_from_partial(&left, &right, received_result_vector, requested_column_indices, received_columns)
}

/// Columns that an honest server opens from a well-formed commitment (each with the
/// path the commitment hands out for its position) check against the commitment's
/// root; so a client whose own column digests are those of the same data accepts them.
pub proof fn lemma_honest_columns_accepted(c: PoSCommit, requested: Seq<usize>, columns: Seq<PoSColumn>)
    requires
        c.wf(),
        columns.len() == requested.len(),
        forall|i: int| 0 <= i < requested.len() ==> #[trigger] requested[i] < c.spec_n_cols(),
        forall|i: int|
            0 <= i < columns.len() ==> (#[trigger] columns[i]).col@ == c.spec_column(requested[i] as nat)
                && columns[i].path@ == spec_path(c.spec_hashes(), c.spec_n_cols(), requested[i] as nat),
    ensures
        forall|i: int|
            0 <= i < columns.len() ==> column_path_ok(#[trigger] columns[i], requested[i] as nat, c.spec_root()),
        forall|i: int|
            0 <= i < columns.len() ==> column_digest((#[trigger] columns[i]).col@) == c.spec_hashes()[requested[i] as int]@,
{
    assert forall|i: int| 0 <= i < columns.len() implies column_path_ok(#[trigger] columns[i], requested[i] as nat, c.spec_root())
        && column_digest(columns[i].col@) == c.spec_hashes()[requested[i] as int]@ by {
        crate::lcpc_online::commit::lemma_opened_column_verifies(c, requested[i] as nat);
        assert(c.spec_hashes()[requested[i] as int]@ == column_digest(c.spec_column(requested[i] as nat)));
    }
}


/// What to derive from a file's field elements.
#[derive(Debug, Clone)]
pub enum CommitRequestType {
    /// The whole commitment.
    Commit,
    /// The digests of the listed encoded columns.
    Leaves(Vec<usize>),
    /// The listed encoded columns, each with its Merkle path.
    ColumnsWithPath(Vec<usize>),
}

/// What was derived from a file's field elements.
#[derive(Debug, Clone)]
pub enum CommitOrLeavesOutput {
    Commit(PoSCommit),
    Leaves(Vec<[u8; 32]>),
    ColumnsWithPath(Vec<PoSColumn>),
}

/// Why a commitment could not be made.
#[derive(Debug, Clone, Copy, PartialEq, Eq, Structural)]
pub enum CommitError {
    /// The dimensions cannot be used: no data columns, no fewer data columns than
    /// encoded ones, a number of encoded columns that is not a transformable power of two.
    InvalidDimensions,
    /// There are no field elements to commit to.
    EmptyData,
    /// The encoded matrix would not fit in memory.
    TooLarge,
    /// A requested column does not exist.
    ColumnOutOfBounds,
}

/// Whether a file of `len` field elements can be committed with rows of `pre` data
/// elements encoded into `enc` columns.
pub open spec fn commit_shape_ok(len: nat, pre: nat, enc: nat) -> bool {
    &&& pre > 0
    &&& spec_dims_ok(pre, enc)
    &&& fft_len_ok(enc)
    &&& len > 0
    &&& (len + pre) * enc <= usize::MAX
}

/// The number of rows `len` data elements fill, `pre` to a row.
pub open spec fn rows_for(len: nat, pre: nat) -> nat {
    ((len + pre - 1) as nat) / pre
}

/// Column `c` of the encoded matrix of `data`: the data laid into rows of `pre`
/// elements (the last one zero-padded), each row encoded into `enc` elements.
pub open spec fn committed_column(data: Seq<WriteableFt63>, pre: nat, enc: nat, c: nat) -> Seq<WriteableFt63> {
    let n_rows = rows_for(data.len(), pre);
    let coeffs = zero_padded(data, n_rows * pre);
    Seq::new(n_rows, |r: int| canonical_elements(fft_io_of(padded_words(row_of(coeffs, pre, r as nat), enc)))[c as int])
}

/// Whether `c` is the commitment to `data` with rows of `pre` data elements encoded into
/// `enc` columns.
pub open spec fn commits_to(c: PoSCommit, data: Seq<WriteableFt63>, pre: nat, enc: nat) -> bool {
    &&& c.wf()
    &&& c.spec_n_per_row() == pre
    &&& c.spec_n_cols() == enc
    &&& c.spec_n_rows() == rows_for(data.len(), pre)
    &&& c.spec_coeffs() == zero_padded(data, c.spec_n_rows() * pre)
}

/// Whether each opened column carries the Merkle path that commitment `c` hands out for
/// the position it was opened at.
pub open spec fn paths_from(c: PoSCommit, cols: Seq<usize>, cs: Seq<PoSColumn>) -> bool {
    &&& cs.len() == cols.len()
    &&& forall|i: int|
        0 <= i < cs.len() ==> (#[trigger] cs[i]).path@ == spec_path(c.spec_hashes(), c.spec_n_cols(), cols[i] as nat)
}

/// Whether `cs` are the columns at positions `cols` of the commitment to `data`: each the
/// committed column with the commitment's Merkle path for its position.
pub open spec fn columns_opened_from(
    data: Seq<WriteableFt63>,
    pre: nat,
    enc: nat,
    cols: Seq<usize>,
    cs: Seq<PoSColumn>,
) -> bool {
    &&& cs.len() == cols.len()
    &&& forall|i: int| 0 <= i < cs.len() ==> (#[trigger] cs[i]).col@ == committed_column(data, pre, enc, cols[i] as nat)
    &&& exists|c: PoSCommit| #[trigger] commits_to(c, data, pre, enc) && paths_from(c, cols, cs)
}

/// Whether every listed column exists.
pub open spec fn columns_in_range(cols: Seq<usize>, enc: nat) -> bool {
    forall|i: int| 0 <= i < cols.len() ==> #[trigger] cols[i] < enc
}

/// The columns of a commitment to `data` are the columns of its encoded matrix.
pub proof fn lemma_commit_columns(c: PoSCommit, data: Seq<WriteableFt63>, k: nat)
    requires
        c.wf(),
        c.spec_n_rows() == rows_for(data.len(), c.spec_n_per_row()),
        c.spec_coeffs() == zero_padded(data, c.spec_n_rows() * c.spec_n_per_row()),
        k < c.spec_n_cols(),
    ensures
        c.spec_column(k) == committed_column(data, c.spec_n_per_row(), c.spec_n_cols(), k),
{
    let pre = c.spec_n_per_row();
    let enc = c.spec_n_cols();
    let a = c.spec_column(k);
    let b = committed_column(data, pre, enc, k);
    assert forall|r: int| 0 <= r < a.len() implies a[r] == b[r] by {
        let row = row_of(c.spec_comm(), enc, r as nat);
        assert(field_words(row) == fft_io_of(padded_words(row_of(c.spec_coeffs(), pre, r as nat), enc)));
        assert(r * enc + enc <= c.spec_n_rows() * enc) by (nonlinear_arith)
            requires 0 <= r < c.spec_n_rows();
        assert(row[k as int] == c.spec_comm()[r * enc + k]);
        WriteableFt63::lemma_canonical_is_from_value(row[k as int]);
        crate::fields::writable_ft63::lemma_mont_value_bound(row[k as int].repr());
        assert(field_words(row)[k as int] == row[k as int].value() as u64);
    }
    assert(a =~= b);
}

/// Whether every listed column is below `n`.
fn all_below(cols: &Vec<usize>, n: usize) -> (r: bool)
    ensures
        r == columns_in_range(cols@, n as nat),
{
    let mut i: usize = 0;
    while i < cols.len()
        invariant
            i <= cols@.len(),
            forall|k: int| 0 <= k < i ==> #[trigger] cols@[k] < n,
        decreases cols.len() - i,
    {
        if cols[i] >= n {
            return false;
        }
        i = i + 1;
    }
    true
}

/// Commits to a file's field elements with rows of `num_pre_encoded_columns` data
/// elements encoded into `num_encoded_columns` columns, and hands back what was asked
/// for: the commitment, the digests of some columns, or some columns with their paths.
pub fn convert_file_data_to_commit(
    field_data: &[WriteableFt63],
    request: CommitRequestType,
    num_pre_encoded_columns: usize,
    num_encoded_columns: usize,
) -> (r: Result<CommitOrLeavesOutput, CommitError>)
    ensures
        r is Ok <==> commit_shape_ok(field_data@.len(), num_pre_encoded_columns as nat, num_encoded_columns as nat)
            && match request {
            CommitRequestType::Commit => true,
            CommitRequestType::Leaves(cols) => columns_in_range(cols@, num_encoded_columns as nat),
            CommitRequestType::ColumnsWithPath(cols) => columns_in_range(cols@, num_encoded_columns as nat),
        },
        r matches Err(e) ==> (e == CommitError::InvalidDimensions <==> !(num_pre_encoded_columns > 0 && spec_dims_ok(
            num_pre_encoded_columns as nat,
            num_encoded_columns as nat,
        ) && fft_len_ok(num_encoded_columns as nat))),
        r matches Ok(out) ==> match request {
            CommitRequestType::Commit => out matches CommitOrLeavesOutput::Commit(c) && c.wf()
                && c.spec_n_per_row() == num_pre_encoded_columns && c.spec_n_cols() == num_encoded_columns
                && c.spec_n_rows() == rows_for(field_data@.len(), num_pre_encoded_columns as nat)
                && c.spec_coeffs() == zero_padded(field_data@, c.spec_n_rows() * c.spec_n_per_row()),
            CommitRequestType::Leaves(cols) => out matches CommitOrLeavesOutput::Leaves(ls) && ls@.len()
                == cols@.len() && forall|i: int|
                0 <= i < ls@.len() ==> (#[trigger] ls@[i])@ == column_digest(
                    committed_column(
                        field_data@,
                        num_pre_encoded_columns as nat,
                        num_encoded_columns as nat,
                        cols@[i] as nat,
                    ),
                ),
            CommitRequestType::ColumnsWithPath(cols) => out matches CommitOrLeavesOutput::ColumnsWithPath(cs)
                && columns_opened_from(
                field_data@,
                num_pre_encoded_columns as nat,
                num_encoded_columns as nat,
                cols@,
                cs@,
            ),
        },
{
    if num_pre_encoded_columns == 0 || num_encoded_columns as u64 > 0x200_0000_0000u64 || num_encoded_columns < 2
        || !crate::lcpc_online::encoding::dims_ok(num_pre_encoded_columns, num_encoded_columns) {
        return Err(CommitError::InvalidDimensions);
    }
    let len = field_data.len();
    if len == 0 {
        return Err(CommitError::EmptyData);
    }
    let per = num_pre_encoded_columns;
    if len > usize::MAX - per || (len + per) > usize::MAX / num_encoded_columns {
        proof {
            let n = num_encoded_columns as int;
            vstd::arithmetic::div_mod::lemma_fundamental_div_mod(usize::MAX as int, n);
            vstd::arithmetic::div_mod::lemma_mod_bound(usize::MAX as int, n);
            let t = len + per;
            assert(t * n > usize::MAX) by (nonlinear_arith)
                requires
                    n >= 2,
                    t > usize::MAX as int || t > usize::MAX as int / n,
                    usize::MAX as int == n * (usize::MAX as int / n) + usize::MAX as int % n,
                    usize::MAX as int % n < n;
        }
        return Err(CommitError::TooLarge);
    }
    proof {
        let t = (len + per) as int;
        vstd::arithmetic::div_mod::lemma_fundamental_div_mod(usize::MAX as int, num_encoded_columns as int);
        vstd::arithmetic::div_mod::lemma_mod_bound(usize::MAX as int, num_encoded_columns as int);
        assert(t * num_encoded_columns <= usize::MAX) by (nonlinear_arith)
            requires
                t <= usize::MAX as int / num_encoded_columns as int,
                num_encoded_columns > 0,
                usize::MAX as int == num_encoded_columns * (usize::MAX as int / num_encoded_columns as int)
                    + usize::MAX as int % num_encoded_columns as int,
                usize::MAX as int % num_encoded_columns as int >= 0;
    }
    let columns_ok = match &request {
        CommitRequestType::Commit => true,
        CommitRequestType::Leaves(cols) => all_below(cols, num_encoded_columns),
        CommitRequestType::ColumnsWithPath(cols) => all_below(cols, num_encoded_columns),
    };
    if !columns_ok {
        return Err(CommitError::ColumnOutOfBounds);
    }
    let enc = PoSEncoding::new_from_dims(num_pre_encoded_columns, num_encoded_columns);
    let commit = PoSCommit::commit(field_data, &enc);
    proof {
        assert(commit.spec_n_rows() == rows_for(field_data@.len(), num_pre_encoded_columns as nat));
    }
    match request {
        CommitRequestType::Commit => Ok(CommitOrLeavesOutput::Commit(commit)),
        CommitRequestType::Leaves(cols) => {
            let mut leaves: Vec<[u8; 32]> = Vec::new();
            let mut i: usize = 0;
            while i < cols.len()
                invariant
                    i <= cols@.len(),
                    commit.wf(),
                    commit.spec_n_cols() == num_encoded_columns,
                    commit.spec_n_per_row() == num_pre_encoded_columns,
                    commit.spec_n_rows() == rows_for(field_data@.len(), num_pre_encoded_columns as nat),
                    commit.spec_coeffs() == zero_padded(field_data@, commit.spec_n_rows() * commit.spec_n_per_row()),
                    columns_in_range(cols@, num_encoded_columns as nat),
                    leaves@.len() == i,
                    forall|k: int|
                        0 <= k < i ==> (#[trigger] leaves@[k])@ == column_digest(
                            committed_column(
                                field_data@,
                                num_pre_encoded_columns as nat,
                                num_encoded_columns as nat,
                                cols@[k] as nat,
                            ),
                        ),
                decreases cols.len() - i,
            {
                let column = commit.open_column(cols[i]);
                proof {
                    lemma_commit_columns(commit, field_data@, cols@[i as int] as nat);
                }
                leaves.push(hash_column_to_digest(&column));
                i = i + 1;
            }
            Ok(CommitOrLeavesOutput::Leaves(leaves))
        },
        CommitRequestType::ColumnsWithPath(cols) => {
            let columns = server_retreive_columns(&commit, &cols);
            proof {
                assert forall|i: int| 0 <= i < columns@.len() implies (#[trigger] columns@[i]).col@ == committed_column(
                    field_data@,
                    num_pre_encoded_columns as nat,
                    num_encoded_columns as nat,
                    cols@[i] as nat,
                ) by {
                    lemma_commit_columns(commit, field_data@, cols@[i] as nat);
                }
                assert(commits_to(commit, field_data@, num_pre_encoded_columns as nat, num_encoded_columns as nat));
                assert(paths_from(commit, cols@, columns@));
            }
            Ok(CommitOrLeavesOutput::ColumnsWithPath(columns))
        },
    }
}

} // verus!
