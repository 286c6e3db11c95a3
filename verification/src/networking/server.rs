use vstd::prelude::*;

use crate::databases::{FileMetadata, ServerHost};
use crate::fields::data_field::{num_chunks, spec_from_byte_vec};
use crate::fields::writable_ft63::{p, WriteableFt63};
use crate::fields::{
    convert_byte_vec_to_field_elements_vec, dot, evaluate_field_polynomial_at_point, field_values, poly_eval,
};
use crate::lcpc_online::commit::{zero_padded, PoSColumn, PoSCommit};
use crate::lcpc_online::encoded_file_reader::{ceil_div, div_ceil};
use crate::lcpc_online::encoding::{dims_ok, spec_dims_ok};
use crate::lcpc_online::merkle_tree::spec_path;
pub use crate::lcpc_online::commits_to;
use crate::lcpc_online::evaluation::{honest_partial_evaluation, lemma_honest_answer_value, spread_rows};
use crate::networking::client::{
    append_difference, append_head, byte_coefficients, claimed_evaluation, edit_difference, edit_first_row,
    evaluation_answer_ok, lemma_honest_append_balances, lemma_honest_edit_balances,
};
use crate::lcpc_online::file_handler::spliced;
use crate::lcpc_online::encoding::all_canonical;
use crate::lcpc_online::commit::lemma_opened_column_verifies;
use crate::lcpc_online::merkle_tree::lemma_merkle_nodes_agree;
use crate::lcpc_online::{
    column_path_ok, columns_in_range, columns_opened_from, commit_shape_ok, paths_from, committed_column, convert_file_data_to_commit,
    form_side_vectors_for_polynomial_evaluation_from_point, lemma_commit_columns, rows_for, server_retreive_columns,
    side_left_values, verifiable_polynomial_evaluation, CommitError, CommitOrLeavesOutput, CommitRequestType,
};

verus! {

/// Why a server could not serve a request.
#[derive(Debug, Clone, Copy, PartialEq, Eq, Structural)]
pub enum ServerError {
    /// The requested dimensions cannot be used.
    InvalidDimensions,
    /// The file could not be committed to.
    Commit(CommitError),
}

/// Whether `root` is the root of the commitment to `data` with the given dimensions.
pub open spec fn is_commitment_root(data: Seq<WriteableFt63>, pre: nat, enc: nat, root: [u8; 32]) -> bool {
    exists|c: PoSCommit| #[trigger] commits_to(c, data, pre, enc) && c.spec_root() == root
}

/// Columns a server opens from the commitment to `data` check against the root of that
/// commitment: each one's digest, hashed up its path, gives the root a client holds.
pub proof fn lemma_opened_columns_check(
    data: Seq<WriteableFt63>,
    pre: nat,
    enc: nat,
    cols: Seq<usize>,
    cs: Seq<PoSColumn>,
    root: [u8; 32],
)
    requires
        columns_opened_from(data, pre, enc, cols, cs),
        is_commitment_root(data, pre, enc, root),
        columns_in_range(cols, enc),
    ensures
        forall|i: int| 0 <= i < cs.len() ==> column_path_ok(#[trigger] cs[i], cols[i] as nat, root),
{
    let c = choose|c: PoSCommit| #[trigger] commits_to(c, data, pre, enc) && paths_from(c, cols, cs);
    let d = choose|d: PoSCommit| #[trigger] commits_to(d, data, pre, enc) && d.spec_root() == root;
    assert forall|j: int| 0 <= j < enc implies (#[trigger] c.spec_hashes()[j])@ == d.spec_hashes()[j]@ by {
        lemma_commit_columns(c, data, j as nat);
        lemma_commit_columns(d, data, j as nat);
    }
    lemma_merkle_nodes_agree(c.spec_hashes(), d.spec_hashes(), enc, (2 * enc - 2) as nat);
    assert forall|i: int| 0 <= i < cs.len() implies column_path_ok(#[trigger] cs[i], cols[i] as nat, root) by {
        assert(cols[i] < enc);
        lemma_commit_columns(c, data, cols[i] as nat);
        lemma_opened_column_verifies(c, cols[i] as nat);
    }
}

/// The commitment to the field elements of `file_data`.
fn commit_file(file_data: &[u8], pre: usize, enc: usize) -> (r: Result<(Vec<WriteableFt63>, PoSCommit), ServerError>)
    ensures
        r is Ok <==> commit_shape_ok(spec_from_byte_vec::<WriteableFt63>(file_data@).len(), pre as nat, enc as nat),
        r matches Err(e) ==> e is Commit,
        r matches Ok((data, c)) ==> data@ == spec_from_byte_vec::<WriteableFt63>(file_data@) && commits_to(
            c,
            data@,
            pre as nat,
            enc as nat,
        ),
{
    let field_data = convert_byte_vec_to_field_elements_vec::<WriteableFt63>(file_data);
    match convert_file_data_to_commit(field_data.as_slice(), CommitRequestType::Commit, pre, enc) {
        Ok(CommitOrLeavesOutput::Commit(c)) => Ok((field_data, c)),
        Ok(_) => Err(ServerError::Commit(CommitError::EmptyData)),
        Err(e) => Err(ServerError::Commit(e)),
    }
}

/// The host record a server puts in metadata it creates: no name, no address, port 0.
fn unnamed_host() -> (r: ServerHost)
    ensures
        r.server_name is None,
        r.server_ip@ == Seq::<char>::empty(),
        r.server_port == 0,
{
    ServerHost { server_name: None, server_ip: String::new(), server_port: 0 }
}

/// The metadata of a newly uploaded file: checks the dimensions, commits to the file and
/// records the commitment's shape and root under the new identifier.
pub fn upload_new_file_metadata(
    new_id: u128,
    filename: String,
    file_data: &[u8],
    pre_encoded_columns: usize,
    encoded_columns: usize,
) -> (r: Result<FileMetadata, ServerError>)
    ensures
        r is Ok <==> spec_dims_ok(pre_encoded_columns as nat, encoded_columns as nat) && commit_shape_ok(
            spec_from_byte_vec::<WriteableFt63>(file_data@).len(),
            pre_encoded_columns as nat,
            encoded_columns as nat,
        ),
        r matches Err(e) ==> (e == ServerError::InvalidDimensions <==> !spec_dims_ok(
            pre_encoded_columns as nat,
            encoded_columns as nat,
        )),
        r matches Ok(m) ==> {
            let data = spec_from_byte_vec::<WriteableFt63>(file_data@);
            &&& m.id_ulid == new_id
            &&& m.filename == filename
            &&& m.num_rows == rows_for(data.len(), pre_encoded_columns as nat)
            &&& m.num_columns == pre_encoded_columns
            &&& m.num_encoded_columns == encoded_columns
            &&& m.filesize_in_bytes == file_data@.len()
            &&& m.stored_server.server_name is None
            &&& m.stored_server.server_ip@ == Seq::<char>::empty()
            &&& m.stored_server.server_port == 0
            &&& is_commitment_root(data, pre_encoded_columns as nat, encoded_columns as nat, m.root.root)
        },
{
    if !dims_ok(pre_encoded_columns, encoded_columns) {
        return Err(ServerError::InvalidDimensions);
    }
    let (_data, commit) = match commit_file(file_data, pre_encoded_columns, encoded_columns) {
        Ok(x) => x,
        Err(e) => { return Err(e); },
    };
    let root = commit.get_root();
    Ok(FileMetadata {
        id_ulid: new_id,
        filename,
        num_rows: commit.get_n_rows(),
        num_columns: pre_encoded_columns,
        num_encoded_columns: encoded_columns,
        filesize_in_bytes: file_data.len(),
        stored_server: unnamed_host(),
        root,
    })
}

/// The metadata of an edited file: a new identifier, the size and commitment root of the
/// edited bytes under the old dimensions, everything else as before.
pub fn edited_file_metadata(file_metadata: FileMetadata, new_id: u128, new_file_data: &[u8]) -> (r: Result<
    FileMetadata,
    ServerError,
>)
    ensures
        r is Ok <==> commit_shape_ok(
            spec_from_byte_vec::<WriteableFt63>(new_file_data@).len(),
            file_metadata.num_columns as nat,
            file_metadata.num_encoded_columns as nat,
        ),
        r matches Ok(m) ==> {
            &&& m.id_ulid == new_id
            &&& m.filesize_in_bytes == new_file_data@.len()
            &&& is_commitment_root(
                spec_from_byte_vec::<WriteableFt63>(new_file_data@),
                file_metadata.num_columns as nat,
                file_metadata.num_encoded_columns as nat,
                m.root.root,
            )
            &&& m.filename == file_metadata.filename
            &&& m.num_rows == file_metadata.num_rows
            &&& m.num_columns == file_metadata.num_columns
            &&& m.num_encoded_columns == file_metadata.num_encoded_columns
            &&& m.stored_server == file_metadata.stored_server
        },
{
    let (_data, commit) = match commit_file(
        new_file_data,
        file_metadata.num_columns,
        file_metadata.num_encoded_columns,
    ) {
        Ok(x) => x,
        Err(e) => { return Err(e); },
    };
    let root = commit.get_root();
    Ok(FileMetadata {
        id_ulid: new_id,
        filename: file_metadata.filename,
        num_rows: file_metadata.num_rows,
        num_columns: file_metadata.num_columns,
        num_encoded_columns: file_metadata.num_encoded_columns,
        filesize_in_bytes: new_file_data.len(),
        stored_server: file_metadata.stored_server,
        root,
    })
}

/// The metadata of a file after an append: a new identifier, the size, number of rows
/// and commitment root of the longer file under the old dimensions.
pub fn appended_file_metadata(file_metadata: FileMetadata, new_id: u128, new_file_data: &[u8]) -> (r: Result<
    FileMetadata,
    ServerError,
>)
    ensures
        r is Ok <==> commit_shape_ok(
            spec_from_byte_vec::<WriteableFt63>(new_file_data@).len(),
            file_metadata.num_columns as nat,
            file_metadata.num_encoded_columns as nat,
        ),
        r matches Ok(m) ==> {
            let data = spec_from_byte_vec::<WriteableFt63>(new_file_data@);
            &&& m.id_ulid == new_id
            &&& m.filesize_in_bytes == new_file_data@.len()
            &&& m.num_rows == rows_for(data.len(), file_metadata.num_columns as nat)
            &&& is_commitment_root(
                data,
                file_metadata.num_columns as nat,
                file_metadata.num_encoded_columns as nat,
                m.root.root,
            )
            &&& m.filename == file_metadata.filename
            &&& m.num_columns == file_metadata.num_columns
            &&& m.num_encoded_columns == file_metadata.num_encoded_columns
            &&& m.stored_server == file_metadata.stored_server
        },
{
    let (_data, commit) = match commit_file(
        new_file_data,
        file_metadata.num_columns,
        file_metadata.num_encoded_columns,
    ) {
        Ok(x) => x,
        Err(e) => { return Err(e); },
    };
    let root = commit.get_root();
    Ok(FileMetadata {
        id_ulid: new_id,
        filename: file_metadata.filename,
        num_rows: commit.get_n_rows(),
        num_columns: file_metadata.num_columns,
        num_encoded_columns: file_metadata.num_encoded_columns,
        filesize_in_bytes: new_file_data.len(),
        stored_server: file_metadata.stored_server,
        root,
    })
}

/// The metadata of a file committed again with new dimensions: a new identifier, the new
/// shape and the new commitment root, the same name, size and host.
pub fn reshaped_file_metadata(
    file_metadata: FileMetadata,
    new_id: u128,
    file_data: &[u8],
    new_pre_encoded_columns: usize,
    new_encoded_columns: usize,
) -> (r: Result<FileMetadata, ServerError>)
    ensures
        r is Ok <==> commit_shape_ok(
            spec_from_byte_vec::<WriteableFt63>(file_data@).len(),
            new_pre_encoded_columns as nat,
            new_encoded_columns as nat,
        ),
        r matches Ok(m) ==> {
            let data = spec_from_byte_vec::<WriteableFt63>(file_data@);
            &&& m.id_ulid == new_id
            &&& m.num_rows == rows_for(data.len(), new_pre_encoded_columns as nat)
            &&& m.num_columns == new_pre_encoded_columns
            &&& m.num_encoded_columns == new_encoded_columns
            &&& is_commitment_root(data, new_pre_encoded_columns as nat, new_encoded_columns as nat, m.root.root)
            &&& m.filename == file_metadata.filename
            &&& m.filesize_in_bytes == file_metadata.filesize_in_bytes
            &&& m.stored_server == file_metadata.stored_server
        },
{
    let (_data, commit) = match commit_file(file_data, new_pre_encoded_columns, new_encoded_columns) {
        Ok(x) => x,
        Err(e) => { return Err(e); },
    };
    let root = commit.get_root();
    Ok(FileMetadata {
        id_ulid: new_id,
        filename: file_metadata.filename,
        num_rows: commit.get_n_rows(),
        num_columns: new_pre_encoded_columns,
        num_encoded_columns: new_encoded_columns,
        filesize_in_bytes: file_metadata.filesize_in_bytes,
        stored_server: file_metadata.stored_server,
        root,
    })
}

/// The metadata that stands once a client has answered a proposed change: the new one if
/// it accepted, the old one otherwise.
pub fn resolve_pending_change(old_file_metadata: FileMetadata, new_file_metadata: FileMetadata, accepted: bool) -> (r:
    FileMetadata)
    ensures
        r == (if accepted { new_file_metadata } else { old_file_metadata }),
{
    if accepted {
        new_file_metadata
    } else {
        old_file_metadata
    }
}

/// The partial evaluation a server answers with for `data` committed with rows of `pre`
/// data elements encoded into `enc` columns: each encoded column times the powers
/// `(x^left_width)^r` of the rows.
pub open spec fn partial_evaluation(
    data: Seq<WriteableFt63>,
    pre: nat,
    enc: nat,
    x: nat,
    left_width: nat,
) -> Seq<nat> {
    Seq::new(
        enc,
        |i: int|
            dot(
                side_left_values(x, rows_for(data.len(), pre), left_width),
                field_values(committed_column(data, pre, enc, i as nat)),
            ),
    )
}

/// Commits to `data` and answers an evaluation request on it: the partial evaluation
/// with rows weighted by powers of `point^left_width`, and the requested columns with
/// their paths.
fn evaluation_answer(
    data: &[WriteableFt63],
    pre: usize,
    enc: usize,
    point: &WriteableFt63,
    left_width: usize,
    columns: &Vec<usize>,
) -> (r: Result<(Vec<WriteableFt63>, Vec<PoSColumn>), ServerError>)
    requires
        columns_in_range(columns@, enc as nat),
    ensures
        r is Ok <==> commit_shape_ok(data@.len(), pre as nat, enc as nat),
        r matches Err(e) ==> e is Commit,
        r matches Ok((v, cs)) ==> field_values(v@) == partial_evaluation(
            data@,
            pre as nat,
            enc as nat,
            point.value(),
            left_width as nat,
        ) && crate::lcpc_online::encoding::all_canonical(v@) && columns_opened_from(
            data@,
            pre as nat,
            enc as nat,
            columns@,
            cs@,
        ),
{
    let commit = match convert_file_data_to_commit(data, CommitRequestType::Commit, pre, enc) {
        Ok(CommitOrLeavesOutput::Commit(c)) => c,
        Ok(_) => { return Err(ServerError::Commit(CommitError::EmptyData)); },
        Err(e) => { return Err(ServerError::Commit(e)); },
    };
    let (left, _right) = form_side_vectors_for_polynomial_evaluation_from_point(point, commit.get_n_rows(), left_width);
    proof {
        assert(field_values(left@) =~= side_left_values(point.value(), commit.spec_n_rows(), left_width as nat));
    }
    let result = verifiable_polynomial_evaluation(&commit, left.as_slice());
    let opened = server_retreive_columns(&commit, columns);
    proof {
        assert forall|i: int| 0 <= i < result@.len() implies field_values(result@)[i] == partial_evaluation(
            data@,
            pre as nat,
            enc as nat,
            point.value(),
            left_width as nat,
        )[i] by {
            lemma_commit_columns(commit, data@, i as nat);
        }
        assert(field_values(result@) =~= partial_evaluation(
            data@,
            pre as nat,
            enc as nat,
            point.value(),
            left_width as nat,
        ));
        assert forall|i: int| 0 <= i < opened@.len() implies (#[trigger] opened@[i]).col@ == committed_column(
            data@,
            pre as nat,
            enc as nat,
            columns@[i] as nat,
        ) by {
            lemma_commit_columns(commit, data@, columns@[i] as nat);
        }
        assert(commits_to(commit, data@, pre as nat, enc as nat));
    }
    Ok((result, opened))
}

/// Answers a request to evaluate a stored file's polynomial at `point`: the partial
/// evaluation over the file's commitment, with rows weighted by powers of
/// `point^num_encoded_columns`.
pub fn polynomial_evaluation_response(
    file_data: &[u8],
    file_metadata: &FileMetadata,
    evaluation_point: &WriteableFt63,
) -> (r: Result<Vec<WriteableFt63>, ServerError>)
    ensures
        r is Ok <==> commit_shape_ok(
            spec_from_byte_vec::<WriteableFt63>(file_data@).len(),
            file_metadata.num_columns as nat,
            file_metadata.num_encoded_columns as nat,
        ),
        r matches Ok(v) ==> field_values(v@) == partial_evaluation(
            spec_from_byte_vec::<WriteableFt63>(file_data@),
            file_metadata.num_columns as nat,
            file_metadata.num_encoded_columns as nat,
            evaluation_point.value(),
            file_metadata.num_encoded_columns as nat,
        ),
{
    let data = convert_byte_vec_to_field_elements_vec::<WriteableFt63>(file_data);
    let none: Vec<usize> = Vec::new();
    match evaluation_answer(
        data.as_slice(),
        file_metadata.num_columns,
        file_metadata.num_encoded_columns,
        evaluation_point,
        file_metadata.num_encoded_columns,
        &none,
    ) {
        Ok((v, _)) => Ok(v),
        Err(e) => Err(e),
    }
}

/// A server's answer to a reshape evaluation request.
#[derive(Debug, Clone)]
pub struct ReshapeEvaluation {
    pub expected_result: WriteableFt63,
    pub original_result_vector: Vec<WriteableFt63>,
    pub original_columns: Vec<PoSColumn>,
    pub new_result_vector: Vec<WriteableFt63>,
    pub new_columns: Vec<PoSColumn>,
}

/// Answers a reshape evaluation request: evaluation answers for the file under its old
/// and its new dimensions, and the file's polynomial evaluated at `point` directly.
pub fn reshape_evaluation_response(
    file_data: &[u8],
    old_file_metadata: &FileMetadata,
    new_file_metadata: &FileMetadata,
    evaluation_point: &WriteableFt63,
    columns_to_expand_original: &Vec<usize>,
    columns_to_expand_new: &Vec<usize>,
) -> (r: Result<ReshapeEvaluation, ServerError>)
    requires
        columns_in_range(columns_to_expand_original@, old_file_metadata.num_encoded_columns as nat),
        columns_in_range(columns_to_expand_new@, new_file_metadata.num_encoded_columns as nat),
    ensures
        r is Ok <==> {
            let n = spec_from_byte_vec::<WriteableFt63>(file_data@).len();
            &&& commit_shape_ok(
                n,
                old_file_metadata.num_columns as nat,
                old_file_metadata.num_encoded_columns as nat,
            )
            &&& commit_shape_ok(
                n,
                new_file_metadata.num_columns as nat,
                new_file_metadata.num_encoded_columns as nat,
            )
        },
        r matches Ok(a) ==> {
            let data = spec_from_byte_vec::<WriteableFt63>(file_data@);
            let x = evaluation_point.value();
            &&& a.expected_result.value() == poly_eval(field_values(data), x)
            &&& field_values(a.original_result_vector@) == partial_evaluation(
                data,
                old_file_metadata.num_columns as nat,
                old_file_metadata.num_encoded_columns as nat,
                x,
                old_file_metadata.num_columns as nat,
            )
            &&& field_values(a.new_result_vector@) == partial_evaluation(
                data,
                new_file_metadata.num_columns as nat,
                new_file_metadata.num_encoded_columns as nat,
                x,
                new_file_metadata.num_columns as nat,
            )
            &&& columns_opened_from(
                data,
                old_file_metadata.num_columns as nat,
                old_file_metadata.num_encoded_columns as nat,
                columns_to_expand_original@,
                a.original_columns@,
            )
            &&& columns_opened_from(
                data,
                new_file_metadata.num_columns as nat,
                new_file_metadata.num_encoded_columns as nat,
                columns_to_expand_new@,
                a.new_columns@,
            )
        },
{
    let data = convert_byte_vec_to_field_elements_vec::<WriteableFt63>(file_data);
    let (original_result_vector, original_columns) = match evaluation_answer(
        data.as_slice(),
        old_file_metadata.num_columns,
        old_file_metadata.num_encoded_columns,
        evaluation_point,
        old_file_metadata.num_columns,
        columns_to_expand_original,
    ) {
        Ok(x) => x,
        Err(e) => { return Err(e); },
    };
    let (new_result_vector, new_columns) = match evaluation_answer(
        data.as_slice(),
        new_file_metadata.num_columns,
        new_file_metadata.num_encoded_columns,
        evaluation_point,
        new_file_metadata.num_columns,
        columns_to_expand_new,
    ) {
        Ok(x) => x,
        Err(e) => { return Err(e); },
    };
    let expected_result = evaluate_field_polynomial_at_point(&data, evaluation_point);
    Ok(ReshapeEvaluation {
        expected_result,
        original_result_vector,
        original_columns,
        new_result_vector,
        new_columns,
    })
}

/// Where the row holding an appended file's old last coefficient lies among the new
/// file's coefficients: from the start of the old last row to the end of that row when
/// the append added rows, else to the new file's last coefficient (at position
/// `ceil(new size / 7) - 1`).
pub open spec fn spec_append_row_range(
    old_rows: nat,
    old_columns: nat,
    new_rows: nat,
    new_size: nat,
) -> (nat, nat) {
    (
        ((old_rows - 1) * old_columns) as nat,
        if old_rows < new_rows {
            (old_rows * old_columns - 1) as nat
        } else if new_size == 0 {
            0
        } else {
            (ceil_div(new_size, 7) - 1) as nat
        },
    )
}

/// The range of coefficient positions (both ends included) a server sends back for an
/// append (see `spec_append_row_range`).
pub fn append_row_range(old_file_metadata: &FileMetadata, new_file_metadata: &FileMetadata) -> (r: (usize, usize))
    requires
        old_file_metadata.num_rows >= 1,
        old_file_metadata.num_columns >= 1,
        old_file_metadata.num_rows * old_file_metadata.num_columns <= usize::MAX,
    ensures
        (r.0 as nat, r.1 as nat) == spec_append_row_range(
            old_file_metadata.num_rows as nat,
            old_file_metadata.num_columns as nat,
            new_file_metadata.num_rows as nat,
            new_file_metadata.filesize_in_bytes as nat,
        ),
        r.0 == (old_file_metadata.num_rows - 1) * old_file_metadata.num_columns,
        old_file_metadata.num_rows < new_file_metadata.num_rows ==> r.1 + 1 == old_file_metadata.num_rows
            * old_file_metadata.num_columns,
        old_file_metadata.num_rows >= new_file_metadata.num_rows && new_file_metadata.filesize_in_bytes > 0 ==> r.1
            + 1 == num_chunks(new_file_metadata.filesize_in_bytes as nat, 7),
{
    let rows = old_file_metadata.num_rows;
    let cols = old_file_metadata.num_columns;
    proof {
        assert((rows - 1) * cols <= rows * cols) by (nonlinear_arith)
            requires rows >= 1;
        assert(rows * cols >= 1) by (nonlinear_arith)
            requires rows >= 1, cols >= 1;
    }
    let start = (rows - 1) * cols;
    let end = if rows < new_file_metadata.num_rows {
        rows * cols - 1
    } else if new_file_metadata.filesize_in_bytes == 0 {
        0
    } else {
        div_ceil(new_file_metadata.filesize_in_bytes, 7) - 1
    };
    proof {
        if rows >= new_file_metadata.num_rows && new_file_metadata.filesize_in_bytes > 0 {
            lemma_elements_are_ceil(new_file_metadata.filesize_in_bytes as nat);
        }
    }
    (start, end)
}

/// The number of elements `len` bytes fill is `ceil(len / 7)`.
proof fn lemma_elements_are_ceil(len: nat)
    ensures
        num_chunks(len, 7) == ceil_div(len, 7),
{
    vstd::arithmetic::div_mod::lemma_fundamental_div_mod(len as int, 7);
    vstd::arithmetic::div_mod::lemma_mod_bound(len as int, 7);
    let q = len / 7;
    let r = len % 7;
    if r == 0 {
        vstd::arithmetic::div_mod::lemma_fundamental_div_mod_converse((len + 6) as int, 7, q as int, 6);
    } else {
        vstd::arithmetic::div_mod::lemma_fundamental_div_mod_converse((len + 6) as int, 7, (q + 1) as int, (r - 1) as int);
    }
}

/// The row a server sends back for an append, for an old file of `old_size` bytes and a
/// non-empty new file, both laid into rows of `cols` elements: it starts at the old last
/// row, holds the old file's last element, lies inside the new file's elements, and
/// ends where the old last row ends when the append added rows, else at the new file's
/// last element.
pub proof fn lemma_append_row_range_holds_last_row(old_size: nat, new_file: Seq<u8>, cols: nat)
    requires
        cols > 0,
        0 < old_size <= new_file.len(),
    ensures
        ({
            let old_elems = num_chunks(old_size, 7);
            let new_elems = spec_from_byte_vec::<WriteableFt63>(new_file).len();
            let old_rows = rows_for(old_elems, cols);
            let new_rows = rows_for(new_elems, cols);
            let range = spec_append_row_range(old_rows, cols, new_rows, new_file.len());
            &&& range.0 == (old_rows - 1) * cols
            &&& range.0 <= old_elems - 1 <= range.1 < new_elems
            &&& old_rows < new_rows ==> range.1 + 1 == old_rows * cols
            &&& old_rows >= new_rows ==> range.1 + 1 == new_elems
        }),
{
    let old_elems = num_chunks(old_size, 7);
    let new_elems = spec_from_byte_vec::<WriteableFt63>(new_file).len();
    assert(new_elems == num_chunks(new_file.len(), 7));
    lemma_elements_are_ceil(old_size);
    lemma_elements_are_ceil(new_file.len());
    assert(old_elems >= 1 && old_elems <= new_elems) by {
        vstd::arithmetic::div_mod::lemma_div_is_ordered((old_size + 6) as int, (new_file.len() + 6) as int, 7);
    }
    let old_rows = rows_for(old_elems, cols);
    let new_rows = rows_for(new_elems, cols);
    vstd::arithmetic::div_mod::lemma_fundamental_div_mod((old_elems + cols - 1) as int, cols as int);
    vstd::arithmetic::div_mod::lemma_mod_bound((old_elems + cols - 1) as int, cols as int);
    vstd::arithmetic::div_mod::lemma_fundamental_div_mod((new_elems + cols - 1) as int, cols as int);
    vstd::arithmetic::div_mod::lemma_mod_bound((new_elems + cols - 1) as int, cols as int);
    assert(old_rows >= 1 && old_rows * cols >= old_elems && (old_rows - 1) * cols < old_elems) by (nonlinear_arith)
        requires
            cols > 0,
            old_elems >= 1,
            old_rows == ((old_elems + cols - 1) as nat) / cols,
            old_elems + cols - 1 == cols * old_rows + (old_elems + cols - 1) % (cols as int),
            0 <= (old_elems + cols - 1) % (cols as int) < cols;
    if old_rows < new_rows {
        assert(new_elems > old_rows * cols) by (nonlinear_arith)
            requires
                cols > 0,
                new_rows >= old_rows + 1,
                new_elems + cols - 1 == cols * new_rows + (new_elems + cols - 1) % (cols as int),
                0 <= (new_elems + cols - 1) % (cols as int) < cols;
    }
}

/// The range of byte positions (both ends included) a server sends back for an edit of
/// rows `start_row` to `finish_row`: from the start of the first row to the end of the
/// last, or to the file's last byte when that comes first.
pub open spec fn spec_edit_byte_range(start_row: nat, finish_row: nat, columns: nat, old_len: nat) -> (nat, nat) {
    let end = ((finish_row + 1) * columns * 7 - 1) as nat;
    (start_row * columns * 7, if end < old_len { end } else if old_len == 0 { 0 } else { (old_len - 1) as nat })
}

/// The range of byte positions a server sends back for an edit (see
/// `spec_edit_byte_range`).
pub fn edit_byte_range(start_row: usize, finish_row: usize, num_columns: usize, old_len: usize) -> (r: (usize, usize))
    requires
        num_columns >= 1,
        (finish_row + 1) * num_columns * 7 <= usize::MAX,
        start_row * num_columns * 7 <= usize::MAX,
    ensures
        (r.0 as nat, r.1 as nat) == spec_edit_byte_range(
            start_row as nat,
            finish_row as nat,
            num_columns as nat,
            old_len as nat,
        ),
        r.0 == start_row * num_columns * 7,
        old_len > 0 ==> r.1 < old_len,
        (finish_row + 1) * num_columns * 7 <= old_len ==> r.1 + 1 == (finish_row + 1) * num_columns * 7,
        (finish_row + 1) * num_columns * 7 > old_len > 0 ==> r.1 + 1 == old_len,
{
    proof {
        assert((finish_row + 1) * num_columns * 7 >= 7) by (nonlinear_arith)
            requires num_columns >= 1;
        assert((finish_row + 1) * num_columns <= usize::MAX) by (nonlinear_arith)
            requires (finish_row + 1) * num_columns * 7 <= usize::MAX;
        assert(finish_row + 1 <= usize::MAX) by (nonlinear_arith)
            requires (finish_row + 1) * num_columns <= usize::MAX, num_columns >= 1;
        assert(start_row * num_columns <= usize::MAX) by (nonlinear_arith)
            requires start_row * num_columns * 7 <= usize::MAX;
    }
    let start = start_row * num_columns * 7;
    let end = (finish_row + 1) * num_columns * 7 - 1;
    let end = if end < old_len { end } else if old_len == 0 { 0 } else { old_len - 1 };
    (start, end)
}

/// A server's answer to an append or edit evaluation request.
#[derive(Debug, Clone)]
pub enum AppendOrEditEvaluation {
    Append {
        original_result_vector: Vec<WriteableFt63>,
        original_columns: Vec<PoSColumn>,
        new_result_vector: Vec<WriteableFt63>,
        new_columns: Vec<PoSColumn>,
        edited_unencoded_row: Vec<WriteableFt63>,
    },
    Edit {
        original_result_vector: Vec<WriteableFt63>,
        original_columns: Vec<PoSColumn>,
        new_result_vector: Vec<WriteableFt63>,
        new_columns: Vec<PoSColumn>,
        original_unencoded_rows: Vec<u8>,
    },
}

/// The elements of `v` from `start` to `end`, both included.
fn elements_between(v: &Vec<WriteableFt63>, start: usize, end: usize) -> (r: Vec<WriteableFt63>)
    requires
        start <= end < v@.len(),
    ensures
        r@ == v@.subrange(start as int, end + 1),
{
    let n = v.len();
    let mut out: Vec<WriteableFt63> = Vec::new();
    let mut i: usize = start;
    while i <= end
        invariant
            start <= i <= end + 1,
            end < v@.len(),
            n == v@.len(),
            out@ =~= v@.subrange(start as int, i as int),
        decreases end + 1 - i,
    {
        out.push(v[i]);
        i = i + 1;
    }
    out
}

/// The bytes of `v` from `start` to `end`, both included.
fn bytes_between(v: &[u8], start: usize, end: usize) -> (r: Vec<u8>)
    requires
        start <= end < v@.len(),
    ensures
        r@ == v@.subrange(start as int, end + 1),
{
    let n = v.len();
    let mut out: Vec<u8> = Vec::new();
    let mut i: usize = start;
    while i <= end
        invariant
            start <= i <= end + 1,
            end < v@.len(),
            n == v@.len(),
            out@ =~= v@.subrange(start as int, i as int),
        decreases end + 1 - i,
    {
        out.push(v[i]);
        i = i + 1;
    }
    out
}

/// Answers an append evaluation request (`row_range` absent) or an edit evaluation
/// request (`row_range` the first and last edited rows): evaluation answers for the old
/// and the new file under their dimensions, and the coefficients or bytes the client
/// needs to work out the expected difference.
pub fn append_or_edit_evaluation_response(
    old_file_data: &[u8],
    new_file_data: &[u8],
    old_file_metadata: &FileMetadata,
    new_file_metadata: &FileMetadata,
    evaluation_point: &WriteableFt63,
    columns_to_expand: &Vec<usize>,
    row_range: Option<(usize, usize)>,
) -> (r: Result<AppendOrEditEvaluation, ServerError>)
    requires
        columns_in_range(columns_to_expand@, old_file_metadata.num_encoded_columns as nat),
        columns_in_range(columns_to_expand@, new_file_metadata.num_encoded_columns as nat),
        row_range is None ==> {
            &&& old_file_metadata.num_rows >= 1
            &&& old_file_metadata.num_columns >= 1
            &&& old_file_metadata.num_rows * old_file_metadata.num_columns <= usize::MAX
            &&& spec_append_row_range(
                old_file_metadata.num_rows as nat,
                old_file_metadata.num_columns as nat,
                new_file_metadata.num_rows as nat,
                new_file_metadata.filesize_in_bytes as nat,
            ).0 <= spec_append_row_range(
                old_file_metadata.num_rows as nat,
                old_file_metadata.num_columns as nat,
                new_file_metadata.num_rows as nat,
                new_file_metadata.filesize_in_bytes as nat,
            ).1
            &&& spec_append_row_range(
                old_file_metadata.num_rows as nat,
                old_file_metadata.num_columns as nat,
                new_file_metadata.num_rows as nat,
                new_file_metadata.filesize_in_bytes as nat,
            ).1 < spec_from_byte_vec::<WriteableFt63>(new_file_data@).len()
        },
        row_range matches Some((s, f)) ==> {
            &&& old_file_metadata.num_columns >= 1
            &&& (f + 1) * old_file_metadata.num_columns * 7 <= usize::MAX
            &&& s * old_file_metadata.num_columns * 7 <= usize::MAX
            &&& spec_edit_byte_range(
                s as nat,
                f as nat,
                old_file_metadata.num_columns as nat,
                old_file_data@.len(),
            ).0 <= spec_edit_byte_range(
                s as nat,
                f as nat,
                old_file_metadata.num_columns as nat,
                old_file_data@.len(),
            ).1
            &&& spec_edit_byte_range(
                s as nat,
                f as nat,
                old_file_metadata.num_columns as nat,
                old_file_data@.len(),
            ).1 < old_file_data@.len()
        },
    ensures
        r is Ok <==> {
            &&& commit_shape_ok(
                spec_from_byte_vec::<WriteableFt63>(old_file_data@).len(),
                old_file_metadata.num_columns as nat,
                old_file_metadata.num_encoded_columns as nat,
            )
            &&& commit_shape_ok(
                spec_from_byte_vec::<WriteableFt63>(new_file_data@).len(),
                new_file_metadata.num_columns as nat,
                new_file_metadata.num_encoded_columns as nat,
            )
        },
        r matches Ok(a) ==> {
            let old_data = spec_from_byte_vec::<WriteableFt63>(old_file_data@);
            let new_data = spec_from_byte_vec::<WriteableFt63>(new_file_data@);
            let x = evaluation_point.value();
            match a {
                AppendOrEditEvaluation::Append {
                    original_result_vector,
                    original_columns,
                    new_result_vector,
                    new_columns,
                    edited_unencoded_row,
                } => {
                    let range = spec_append_row_range(
                        old_file_metadata.num_rows as nat,
                        old_file_metadata.num_columns as nat,
                        new_file_metadata.num_rows as nat,
                        new_file_metadata.filesize_in_bytes as nat,
                    );
                    &&& row_range is None
                    &&& field_values(original_result_vector@) == partial_evaluation(
                        old_data,
                        old_file_metadata.num_columns as nat,
                        old_file_metadata.num_encoded_columns as nat,
                        x,
                        old_file_metadata.num_columns as nat,
                    )
                    &&& field_values(new_result_vector@) == partial_evaluation(
                        new_data,
                        new_file_metadata.num_columns as nat,
                        new_file_metadata.num_encoded_columns as nat,
                        x,
                        new_file_metadata.num_columns as nat,
                    )
                    &&& columns_opened_from(
                        old_data,
                        old_file_metadata.num_columns as nat,
                        old_file_metadata.num_encoded_columns as nat,
                        columns_to_expand@,
                        original_columns@,
                    )
                    &&& columns_opened_from(
                        new_data,
                        new_file_metadata.num_columns as nat,
                        new_file_metadata.num_encoded_columns as nat,
                        columns_to_expand@,
                        new_columns@,
                    )
                    &&& edited_unencoded_row@ == new_data.subrange(range.0 as int, range.1 as int + 1)
                },
                AppendOrEditEvaluation::Edit {
                    original_result_vector,
                    original_columns,
                    new_result_vector,
                    new_columns,
                    original_unencoded_rows,
                } => {
                    &&& row_range matches Some((s, f)) && {
                        let range = spec_edit_byte_range(
                            s as nat,
                            f as nat,
                            old_file_metadata.num_columns as nat,
                            old_file_data@.len(),
                        );
                        original_unencoded_rows@ == old_file_data@.subrange(range.0 as int, range.1 as int + 1)
                    }
                    &&& field_values(original_result_vector@) == partial_evaluation(
                        old_data,
                        old_file_metadata.num_columns as nat,
                        old_file_metadata.num_encoded_columns as nat,
                        x,
                        old_file_metadata.num_columns as nat,
                    )
                    &&& field_values(new_result_vector@) == partial_evaluation(
                        new_data,
                        new_file_metadata.num_columns as nat,
                        new_file_metadata.num_encoded_columns as nat,
                        x,
                        new_file_metadata.num_columns as nat,
                    )
                    &&& columns_opened_from(
                        old_data,
                        old_file_metadata.num_columns as nat,
                        old_file_metadata.num_encoded_columns as nat,
                        columns_to_expand@,
                        original_columns@,
                    )
                    &&& columns_opened_from(
                        new_data,
                        new_file_metadata.num_columns as nat,
                        new_file_metadata.num_encoded_columns as nat,
                        columns_to_expand@,
                        new_columns@,
                    )
                },
            }
        },
{
    let old_data = convert_byte_vec_to_field_elements_vec::<WriteableFt63>(old_file_data);
    let new_data = convert_byte_vec_to_field_elements_vec::<WriteableFt63>(new_file_data);
    let (original_result_vector, original_columns) = match evaluation_answer(
        old_data.as_slice(),
        old_file_metadata.num_columns,
        old_file_metadata.num_encoded_columns,
        evaluation_point,
        old_file_metadata.num_columns,
        columns_to_expand,
    ) {
        Ok(x) => x,
        Err(e) => { return Err(e); },
    };
    let (new_result_vector, new_columns) = match evaluation_answer(
        new_data.as_slice(),
        new_file_metadata.num_columns,
        new_file_metadata.num_encoded_columns,
        evaluation_point,
        new_file_metadata.num_columns,
        columns_to_expand,
    ) {
        Ok(x) => x,
        Err(e) => { return Err(e); },
    };
    match row_range {
        None => {
            let (start, end) = append_row_range(old_file_metadata, new_file_metadata);
            let edited_unencoded_row = elements_between(&new_data, start, end);
            Ok(AppendOrEditEvaluation::Append {
                original_result_vector,
                original_columns,
                new_result_vector,
                new_columns,
                edited_unencoded_row,
            })
        },
        Some((s, f)) => {
            let (start, end) = edit_byte_range(s, f, old_file_metadata.num_columns, old_file_data.len());
            let original_unencoded_rows = bytes_between(old_file_data, start, end);
            Ok(AppendOrEditEvaluation::Edit {
                original_result_vector,
                original_columns,
                new_result_vector,
                new_columns,
                original_unencoded_rows,
            })
        },
    }
}

/// The text a server stores for a password: the BLAKE3 hash of its UTF-8 bytes, in hex.
pub uninterp spec fn password_hash_text(password: Seq<char>) -> Seq<char>;

/// `blake3::hash` over the password's UTF-8 bytes, written out as hex text
/// (`blake3::Hash`'s `Display`).  Claimed: the result is the named
/// `password_hash_text(password)`.
#[verifier::external_body]
fn blake3_hex_of(password: &String) -> (r: String)
    ensures
        r@ == password_hash_text(password@),
{
    blake3::hash(password.as_bytes()).to_string()
}

/// The hash a server stores for a new user's password.
pub fn hashed_password(password: &String) -> (r: String)
    ensures
        r@ == password_hash_text(password@),
{
    blake3_hex_of(password)
}

/// Whether a login's password matches the stored hash.
pub fn password_matches(stored_hash: &String, password: &String) -> (r: bool)
    ensures
        r == (stored_hash@ == password_hash_text(password@)),
{
    let h = blake3_hex_of(password);
    *stored_hash == h
}

/// The coefficients of `data` laid into whole rows of `pre` (the last one zero-padded).
pub open spec fn row_padded_values(data: Seq<WriteableFt63>, pre: nat) -> Seq<nat> {
    field_values(zero_padded(data, rows_for(data.len(), pre) * pre))
}

proof fn lemma_row_padded_polynomial(file: Seq<u8>, pre: nat, x: nat)
    requires
        pre > 0,
    ensures
        poly_eval(
            spread_rows(
                row_padded_values(spec_from_byte_vec::<WriteableFt63>(file), pre),
                pre,
                pre,
                rows_for(spec_from_byte_vec::<WriteableFt63>(file).len(), pre),
            ),
            x,
        ) == poly_eval(byte_coefficients(file), x),
{
    let data = spec_from_byte_vec::<WriteableFt63>(file);
    let nr = rows_for(data.len(), pre);
    let cv = row_padded_values(data, pre);
    let len = data.len();
    vstd::arithmetic::div_mod::lemma_fundamental_div_mod((len + pre - 1) as int, pre as int);
    vstd::arithmetic::div_mod::lemma_mod_bound((len + pre - 1) as int, pre as int);
    assert(nr * pre >= len) by (nonlinear_arith)
        requires
            pre > 0,
            nr == ((len + pre - 1) as nat) / pre,
            (len + pre - 1) == pre * nr + (len + pre - 1) % (pre as int),
            (len + pre - 1) % (pre as int) < pre;
    let sp = spread_rows(cv, pre, pre, nr);
    assert forall|i: int| 0 <= i < sp.len() implies sp[i] == cv[i] by {
        vstd::arithmetic::div_mod::lemma_fundamental_div_mod(i, pre as int);
        vstd::arithmetic::div_mod::lemma_mod_bound(i, pre as int);
        assert((i / (pre as int)) * pre + i % (pre as int) == i) by (nonlinear_arith)
            requires i == pre * (i / (pre as int)) + i % (pre as int);
    }
    assert(sp =~= cv);
    let bc = byte_coefficients(file);
    let zeros = Seq::new((nr * pre - len) as nat, |i: int| 0nat);
    WriteableFt63::lemma_spec_zero();
    assert(cv =~= bc + zeros);
    crate::fields::lemma_poly_eval_append(bc, zeros, x, 0);
    crate::fields::lemma_poly_eval_zeros((nr * pre - len) as nat, x, bc.len());
    crate::fields::lemma_poly_eval_shifted_bound(bc, x, 0);
    vstd::arithmetic::div_mod::lemma_small_mod(poly_eval(bc, x), crate::fields::writable_ft63::p());
}

/// An honest server's answer to an evaluation request on a committed file, decoded and
/// multiplied by the powers of the point as a client does, gives the value at the point
/// of the file's coefficients laid out `w` to a row; with `w` the number of data columns
/// (as for appends, edits and reshapes), the value of the file's polynomial itself.
pub proof fn lemma_honest_evaluation_value(
    file: Seq<u8>,
    pre: nat,
    enc: nat,
    root: [u8; 32],
    x: nat,
    w: nat,
    result: Seq<WriteableFt63>,
)
    requires
        is_commitment_root(spec_from_byte_vec::<WriteableFt63>(file), pre, enc, root),
        pre <= w <= enc,
        field_values(result) == partial_evaluation(spec_from_byte_vec::<WriteableFt63>(file), pre, enc, x, w),
    ensures
        claimed_evaluation(result, x, w) == poly_eval(
            spread_rows(
                row_padded_values(spec_from_byte_vec::<WriteableFt63>(file), pre),
                pre,
                w,
                rows_for(spec_from_byte_vec::<WriteableFt63>(file).len(), pre),
            ),
            x,
        ),
        w == pre ==> claimed_evaluation(result, x, w) == poly_eval(byte_coefficients(file), x),
{
    let data = spec_from_byte_vec::<WriteableFt63>(file);
    let c = choose|c: PoSCommit| #[trigger] commits_to(c, data, pre, enc) && c.spec_root() == root;
    assert(result.len() == enc) by {
        assert(field_values(result).len() == result.len());
    }
    assert forall|j: int| 0 <= j < result.len() implies (#[trigger] result[j]).value() == dot(
        side_left_values(x, c.spec_n_rows(), w),
        field_values(c.spec_column(j as nat)),
    ) by {
        assert(field_values(result)[j] == result[j].value());
        lemma_commit_columns(c, data, j as nat);
    }
    assert(honest_partial_evaluation(c, x, w, result));
    lemma_honest_answer_value(c, x, w, result);
    if w == pre {
        lemma_row_padded_polynomial(file, pre, x);
    }
}

/// Whether `m` describes `file` as a server committed it: its size, its rows for its
/// data columns, and the root of the commitment under its dimensions.
pub open spec fn describes_file(m: FileMetadata, file: Seq<u8>) -> bool {
    let data = spec_from_byte_vec::<WriteableFt63>(file);
    &&& m.filesize_in_bytes == file.len()
    &&& m.num_rows == rows_for(data.len(), m.num_columns as nat)
    &&& is_commitment_root(data, m.num_columns as nat, m.num_encoded_columns as nat, m.root.root)
}

/// Whether `result` and `cs` are what an honest server answers for `file` committed
/// under the dimensions of `m`: the partial evaluation at `x` with rows weighted by the
/// powers of `x^w`, and the committed columns at `cols` with their paths.
pub open spec fn honest_answer(
    file: Seq<u8>,
    m: FileMetadata,
    x: nat,
    w: nat,
    result: Seq<WriteableFt63>,
    cols: Seq<usize>,
    cs: Seq<PoSColumn>,
) -> bool {
    let data = spec_from_byte_vec::<WriteableFt63>(file);
    &&& field_values(result) == partial_evaluation(data, m.num_columns as nat, m.num_encoded_columns as nat, x, w)
    &&& all_canonical(result)
    &&& columns_opened_from(data, m.num_columns as nat, m.num_encoded_columns as nat, cols, cs)
    &&& columns_in_range(cols, m.num_encoded_columns as nat)
}

/// An honest answer on a described file passes the client's checks of the answer: the
/// columns lie on paths to the root and the partial evaluation agrees with them.
pub proof fn lemma_honest_answer_checks(
    file: Seq<u8>,
    m: FileMetadata,
    x: nat,
    w: nat,
    result: Seq<WriteableFt63>,
    cols: Seq<usize>,
    cs: Seq<PoSColumn>,
)
    requires
        describes_file(m, file),
        honest_answer(file, m, x, w, result, cols, cs),
    ensures
        evaluation_answer_ok(result, x, m.num_rows as nat, w, cols, cs),
        cs.len() == cols.len(),
        forall|i: int| 0 <= i < cs.len() ==> column_path_ok(#[trigger] cs[i], cols[i] as nat, m.root.root),
{
    let data = spec_from_byte_vec::<WriteableFt63>(file);
    let pre = m.num_columns as nat;
    let enc = m.num_encoded_columns as nat;
    let c = choose|c: PoSCommit| #[trigger] commits_to(c, data, pre, enc) && c.spec_root() == m.root.root;
    assert(field_values(result).len() == result.len());
    assert(result.len() == enc);
    lemma_opened_columns_check(data, pre, enc, cols, cs, m.root.root);
    assert forall|k: int| 0 <= k < cs.len() implies {
        &&& (#[trigger] cols[k]) < result.len()
        &&& result[cols[k] as int].canonical()
        &&& result[cols[k] as int].value() == dot(
            side_left_values(x, m.num_rows as nat, w),
            field_values(cs[k].col@),
        )
    } by {
        assert(cols[k] < enc);
        assert(field_values(result)[cols[k] as int] == result[cols[k] as int].value());
    }
}

/// A client asking a server that holds a described file for an evaluation at `x`
/// accepts the honest answer, and takes from it the value at `x` of the file's
/// coefficients laid out one encoded row's width to a row.
pub proof fn lemma_honest_polynomial_evaluation_accepted(
    file: Seq<u8>,
    m: FileMetadata,
    x: nat,
    result: Seq<WriteableFt63>,
    cols: Seq<usize>,
    cs: Seq<PoSColumn>,
)
    requires
        describes_file(m, file),
        honest_answer(file, m, x, m.num_encoded_columns as nat, result, cols, cs),
    ensures
        cs.len() == cols.len(),
        forall|i: int| 0 <= i < cs.len() ==> column_path_ok(#[trigger] cs[i], cols[i] as nat, m.root.root),
        evaluation_answer_ok(result, x, m.num_rows as nat, m.num_encoded_columns as nat, cols, cs),
        claimed_evaluation(result, x, m.num_encoded_columns as nat) == poly_eval(
            spread_rows(
                row_padded_values(spec_from_byte_vec::<WriteableFt63>(file), m.num_columns as nat),
                m.num_columns as nat,
                m.num_encoded_columns as nat,
                m.num_rows as nat,
            ),
            x,
        ),
{
    let data = spec_from_byte_vec::<WriteableFt63>(file);
    let pre = m.num_columns as nat;
    let enc = m.num_encoded_columns as nat;
    let c = choose|c: PoSCommit| #[trigger] commits_to(c, data, pre, enc) && c.spec_root() == m.root.root;
    lemma_honest_answer_checks(file, m, x, enc, result, cols, cs);
    lemma_honest_evaluation_value(file, pre, enc, m.root.root, x, enc, result);
}

/// A reshape answered honestly on a described file, under its old and its new
/// dimensions, passes the client's check: both answers check and claim the value of the
/// same polynomial, the file's.
pub proof fn lemma_honest_reshape_accepted(
    file: Seq<u8>,
    old_m: FileMetadata,
    new_m: FileMetadata,
    x: nat,
    old_result: Seq<WriteableFt63>,
    old_cols: Seq<usize>,
    old_cs: Seq<PoSColumn>,
    new_result: Seq<WriteableFt63>,
    new_cols: Seq<usize>,
    new_cs: Seq<PoSColumn>,
)
    requires
        describes_file(old_m, file),
        describes_file(new_m, file),
        honest_answer(file, old_m, x, old_m.num_columns as nat, old_result, old_cols, old_cs),
        honest_answer(file, new_m, x, new_m.num_columns as nat, new_result, new_cols, new_cs),
    ensures
        evaluation_answer_ok(old_result, x, old_m.num_rows as nat, old_m.num_columns as nat, old_cols, old_cs),
        evaluation_answer_ok(new_result, x, new_m.num_rows as nat, new_m.num_columns as nat, new_cols, new_cs),
        claimed_evaluation(old_result, x, old_m.num_columns as nat) == poly_eval(byte_coefficients(file), x),
        claimed_evaluation(new_result, x, new_m.num_columns as nat) == poly_eval(byte_coefficients(file), x),
{
    lemma_honest_answer_checks(file, old_m, x, old_m.num_columns as nat, old_result, old_cols, old_cs);
    lemma_honest_answer_checks(file, new_m, x, new_m.num_columns as nat, new_result, new_cols, new_cs);
    lemma_honest_data_columns_value(file, old_m, x, old_result, old_cols, old_cs);
    lemma_honest_data_columns_value(file, new_m, x, new_result, new_cols, new_cs);
}

/// An honest answer with rows weighted by powers of `x^(data columns)` claims the value
/// of the file's polynomial.
pub proof fn lemma_honest_data_columns_value(
    file: Seq<u8>,
    m: FileMetadata,
    x: nat,
    result: Seq<WriteableFt63>,
    cols: Seq<usize>,
    cs: Seq<PoSColumn>,
)
    requires
        describes_file(m, file),
        honest_answer(file, m, x, m.num_columns as nat, result, cols, cs),
    ensures
        claimed_evaluation(result, x, m.num_columns as nat) == poly_eval(byte_coefficients(file), x),
{
    let data = spec_from_byte_vec::<WriteableFt63>(file);
    let pre = m.num_columns as nat;
    let enc = m.num_encoded_columns as nat;
    let c = choose|c: PoSCommit| #[trigger] commits_to(c, data, pre, enc) && c.spec_root() == m.root.root;
    assert(c.wf());
    lemma_honest_evaluation_value(file, pre, enc, m.root.root, x, pre, result);
}

/// An append answered honestly passes the client's check: both answers check, the row
/// the server sends holds the old file's last coefficient, and the new file's
/// polynomial value is the old one plus the difference the appended bytes make.
pub proof fn lemma_honest_append_accepted(
    old_file: Seq<u8>,
    appended: Seq<u8>,
    old_m: FileMetadata,
    new_m: FileMetadata,
    x: nat,
    cols: Seq<usize>,
    old_result: Seq<WriteableFt63>,
    old_cs: Seq<PoSColumn>,
    new_result: Seq<WriteableFt63>,
    new_cs: Seq<PoSColumn>,
    row: Seq<WriteableFt63>,
)
    requires
        describes_file(old_m, old_file),
        describes_file(new_m, old_file + appended),
        new_m.num_columns == old_m.num_columns,
        old_m.num_rows >= 1,
        honest_answer(old_file, old_m, x, old_m.num_columns as nat, old_result, cols, old_cs),
        honest_answer(old_file + appended, new_m, x, new_m.num_columns as nat, new_result, cols, new_cs),
        ({
            let range = spec_append_row_range(
                old_m.num_rows as nat,
                old_m.num_columns as nat,
                new_m.num_rows as nat,
                new_m.filesize_in_bytes as nat,
            );
            let new_data = spec_from_byte_vec::<WriteableFt63>(old_file + appended);
            &&& range.0 <= range.1 < new_data.len()
            &&& row == new_data.subrange(range.0 as int, range.1 as int + 1)
        }),
    ensures
        evaluation_answer_ok(old_result, x, old_m.num_rows as nat, old_m.num_columns as nat, cols, old_cs),
        evaluation_answer_ok(new_result, x, new_m.num_rows as nat, new_m.num_columns as nat, cols, new_cs),
        old_m.num_columns > 0,
        old_m.filesize_in_bytes % 7 != 0 ==> (old_m.filesize_in_bytes / 7) % old_m.num_columns < row.len(),
        claimed_evaluation(new_result, x, new_m.num_columns as nat) == (claimed_evaluation(
            old_result,
            x,
            old_m.num_columns as nat,
        ) + append_difference(
            old_m.filesize_in_bytes as nat,
            append_head(old_m.filesize_in_bytes as nat, old_m.num_columns as nat, row),
            appended,
            x,
        )) % p(),
{
    let pre = old_m.num_columns as nat;
    let old_data = spec_from_byte_vec::<WriteableFt63>(old_file);
    let c = choose|c: PoSCommit| #[trigger] commits_to(c, old_data, pre, old_m.num_encoded_columns as nat)
        && c.spec_root() == old_m.root.root;
    assert(pre > 0);
    lemma_honest_answer_checks(old_file, old_m, x, pre, old_result, cols, old_cs);
    lemma_honest_answer_checks(old_file + appended, new_m, x, pre, new_result, cols, new_cs);
    lemma_honest_data_columns_value(old_file, old_m, x, old_result, cols, old_cs);
    lemma_honest_data_columns_value(old_file + appended, new_m, x, new_result, cols, new_cs);
    let len = old_file.len();
    if len % 7 != 0 {
        lemma_append_row_holds_last(old_file, appended, old_m, new_m, row);
    }
    lemma_honest_append_balances(old_file, appended, pre, row, x);
}

proof fn lemma_append_row_holds_last(
    old_file: Seq<u8>,
    appended: Seq<u8>,
    old_m: FileMetadata,
    new_m: FileMetadata,
    row: Seq<WriteableFt63>,
)
    requires
        old_m.num_columns > 0,
        old_file.len() % 7 != 0,
        old_m.filesize_in_bytes == old_file.len(),
        new_m.filesize_in_bytes == old_file.len() + appended.len(),
        old_m.num_rows == rows_for(spec_from_byte_vec::<WriteableFt63>(old_file).len(), old_m.num_columns as nat),
        ({
            let range = spec_append_row_range(
                old_m.num_rows as nat,
                old_m.num_columns as nat,
                new_m.num_rows as nat,
                new_m.filesize_in_bytes as nat,
            );
            let new_data = spec_from_byte_vec::<WriteableFt63>(old_file + appended);
            &&& range.0 <= range.1 < new_data.len()
            &&& row == new_data.subrange(range.0 as int, range.1 as int + 1)
        }),
    ensures
        (old_file.len() / 7) % (old_m.num_columns as nat) < row.len(),
        row[((old_file.len() / 7) % (old_m.num_columns as nat)) as int] == spec_from_byte_vec::<WriteableFt63>(
            old_file + appended,
        )[(old_file.len() / 7) as int],
{
    let pre = old_m.num_columns as nat;
    let len = old_file.len();
    let q = len / 7;
    let dlen = spec_from_byte_vec::<WriteableFt63>(old_file).len();
    assert(dlen == q + 1);
    let nr = old_m.num_rows as nat;
    vstd::arithmetic::div_mod::lemma_fundamental_div_mod(q as int, pre as int);
    vstd::arithmetic::div_mod::lemma_mod_bound(q as int, pre as int);
    let qq = q / pre;
    let rr = q % pre;
    assert(q + pre == pre * (qq + 1) + rr) by (nonlinear_arith)
        requires q == pre * qq + rr;
    assert(dlen + pre - 1 == q + pre);
    vstd::arithmetic::div_mod::lemma_fundamental_div_mod_converse((q + pre) as int, pre as int, (qq + 1) as int, rr as int);
    assert(nr == qq + 1);
    assert((nr - 1) * pre + rr == q) by (nonlinear_arith)
        requires nr == qq + 1, q == pre * qq + rr;
    let range = spec_append_row_range(nr, pre, new_m.num_rows as nat, new_m.filesize_in_bytes as nat);
    assert(range.0 == (nr - 1) * pre);
    assert(range.1 >= q) by {
        if nr < new_m.num_rows {
            assert(nr * pre >= q + 1) by (nonlinear_arith)
                requires nr == qq + 1, q == pre * qq + rr, rr < pre;
        } else {
            let n2 = len + appended.len();
            vstd::arithmetic::div_mod::lemma_fundamental_div_mod(n2 as int, 7);
            vstd::arithmetic::div_mod::lemma_fundamental_div_mod(len as int, 7);
            assert(ceil_div(n2, 7) >= q + 1);
        }
    }
}

/// An edit answered honestly passes the client's check: both answers check and the
/// edited file's polynomial value is the old one plus the difference the new bytes make
/// in the whole rows the server sends.
pub proof fn lemma_honest_edit_accepted(
    file: Seq<u8>,
    start: nat,
    data: Seq<u8>,
    old_m: FileMetadata,
    new_m: FileMetadata,
    x: nat,
    cols: Seq<usize>,
    old_result: Seq<WriteableFt63>,
    old_cs: Seq<PoSColumn>,
    new_result: Seq<WriteableFt63>,
    new_cs: Seq<PoSColumn>,
    rows: Seq<u8>,
)
    requires
        describes_file(old_m, file),
        describes_file(new_m, spliced(file, start, data)),
        new_m.num_columns == old_m.num_columns,
        old_m.num_columns > 0,
        start + data.len() <= file.len(),
        honest_answer(file, old_m, x, old_m.num_columns as nat, old_result, cols, old_cs),
        honest_answer(spliced(file, start, data), new_m, x, new_m.num_columns as nat, new_result, cols, new_cs),
        ({
            let w = 7 * old_m.num_columns as nat;
            let first = edit_first_row(start, old_m.num_columns as nat);
            &&& rows.len() % w == 0
            &&& start % w + data.len() <= rows.len()
            &&& first * w + rows.len() <= file.len()
            &&& rows == file.subrange((first * w) as int, (first * w + rows.len()) as int)
        }),
    ensures
        evaluation_answer_ok(old_result, x, old_m.num_rows as nat, old_m.num_columns as nat, cols, old_cs),
        evaluation_answer_ok(new_result, x, new_m.num_rows as nat, new_m.num_columns as nat, cols, new_cs),
        claimed_evaluation(new_result, x, new_m.num_columns as nat) == (claimed_evaluation(
            old_result,
            x,
            old_m.num_columns as nat,
        ) + edit_difference(
            rows,
            start % (7 * old_m.num_columns as nat),
            data,
            edit_first_row(start, old_m.num_columns as nat) * old_m.num_columns as nat,
            x,
        )) % p(),
{
    let pre = old_m.num_columns as nat;
    lemma_honest_answer_checks(file, old_m, x, pre, old_result, cols, old_cs);
    lemma_honest_answer_checks(spliced(file, start, data), new_m, x, pre, new_result, cols, new_cs);
    lemma_honest_data_columns_value(file, old_m, x, old_result, cols, old_cs);
    lemma_honest_data_columns_value(spliced(file, start, data), new_m, x, new_result, cols, new_cs);
    lemma_honest_edit_balances(file, start, data, pre, rows, x);
}

} // verus!
