use proof_of_storage::fields::{
    convert_byte_vec_to_field_elements_vec, evaluate_field_polynomial_at_point, random_writeable_field_vec,
    FieldGeneratorIter, RandomBytesIterator, WriteableFt63,
};
use proof_of_storage::lcpc_online::commit::{PoSCommit, PoSRoot};
use proof_of_storage::lcpc_online::encoded_file_reader::{
    get_decoded_file_size_from_rate, get_encoded_file_size_from_rate,
};
use proof_of_storage::lcpc_online::encoding::PoSEncoding;
use proof_of_storage::lcpc_online::merkle_tree::MerkleTree;
use proof_of_storage::lcpc_online::row_generator_iter::RowGeneratorIter;
use proof_of_storage::networking::client::get_columns_from_random_seed;
use proof_of_storage::lcpc_online::{
    client_online_verify_column_paths, client_online_verify_column_paths_without_full_columns,
    verify_proper_partial_polynomial_evaluation, VerifierError,
    client_verify_commitment, convert_file_data_to_commit, decode_row, hash_column_to_digest,
    server_retreive_columns, verifiable_full_polynomial_evaluation, verifiable_polynomial_evaluation, CommitError,
    CommitOrLeavesOutput, CommitRequestType,
};
use rand::Rng;
use rand_chacha::ChaCha8Rng;
use rand_core::SeedableRng;

fn random_bytes(len: usize) -> Vec<u8> {
    let mut bytes = vec![0u8; len];
    let mut rng = rand::thread_rng();
    for byte in bytes.iter_mut() {
        *byte = rng.gen::<u8>();
    }
    bytes
}

fn commit_of(bytes: &[u8], pre: usize, enc: usize) -> PoSCommit {
    let field_elements = convert_byte_vec_to_field_elements_vec::<WriteableFt63>(bytes);
    match convert_file_data_to_commit(&field_elements, CommitRequestType::Commit, pre, enc).unwrap() {
        CommitOrLeavesOutput::Commit(commit) => commit,
        _ => panic!(),
    }
}

#[test]
fn encode_then_decode_row() {
    let row = random_writeable_field_vec::<WriteableFt63>(4);
    let encoding = PoSEncoding::new_from_dims(1 << 4, 1 << 8);
    let commit = PoSCommit::commit(&row, &encoding);
    let decoded = decode_row(commit.comm().clone()).unwrap();
    assert_eq!(commit.coeffs()[..], decoded[..commit.coeffs().len()])
}

#[test]
fn verify_polynomial_eval() {
    let coefs = random_writeable_field_vec::<WriteableFt63>(10);

    // a square matrix for 2^10 coefficients: 32 per row, encoded into 64 columns
    let (data_realized_width, matrix_colums) = (32usize, 64usize);

    let encoding = PoSEncoding::new_from_dims(data_realized_width, matrix_colums);
    let commit = PoSCommit::commit(&coefs, &encoding);

    let eval_point = WriteableFt63::from_u64(rand::thread_rng().gen_range(0..5102708120182849537u64));
    let mut left_eval_column: Vec<WriteableFt63> = Vec::new();
    let mut right_eval_column: Vec<WriteableFt63> = Vec::new();
    let mut right_accumulator = WriteableFt63::one();

    for _ in 0..commit.get_n_rows() {
        right_eval_column.push(right_accumulator);
        right_accumulator = right_accumulator.mul(&eval_point);
    }

    let mut left_accumulator = WriteableFt63::one();
    for _ in 0..commit.get_n_rows() {
        left_eval_column.push(left_accumulator);
        left_accumulator = left_accumulator.mul(&right_accumulator);
    }

    let server_partial_evaluation = verifiable_polynomial_evaluation(&commit, &left_eval_column);

    let columns_to_fetch_indices: Vec<usize> = (0..commit.get_n_cols()).collect();
    let columns = server_retreive_columns(&commit, &columns_to_fetch_indices);

    let server_full_evaluation_of_polynomial = verifiable_full_polynomial_evaluation(
        &left_eval_column,
        &right_eval_column,
        &server_partial_evaluation,
        &commit,
        &columns_to_fetch_indices,
        &columns,
    )
    .unwrap();
    let local_evaluation = evaluate_field_polynomial_at_point(&coefs, &eval_point);

    assert_eq!(server_full_evaluation_of_polynomial, local_evaluation);
}

#[test]
fn to_bytes_and_back() {
    let tree_width = 1 << 5;
    let mut digests: Vec<[u8; 32]> = Vec::with_capacity(tree_width);
    let mut random_byte_iter = RandomBytesIterator::new();
    for _ in 0..tree_width {
        let mut chunk = Vec::new();
        for _ in 0..8 {
            chunk.push(random_byte_iter.next().unwrap());
        }
        digests.push(*blake3::hash(&chunk).as_bytes());
    }

    let tree = MerkleTree::new(&digests).unwrap();
    let bytes = tree.to_bytes();
    let new_tree = MerkleTree::from_bytes(&bytes).unwrap();
    for i in 0..new_tree.len() {
        assert_eq!(new_tree.index(i), tree.index(i));
    }
}

#[test]
fn is_row_iterator_the_same_as_non_iter() {
    const LEN: usize = 999;
    let bytes = random_bytes(LEN);

    const UNENCODED_LEN: usize = 4;
    const ENCODED_LEN: usize = 8;

    let regular_commit = commit_of(&bytes, UNENCODED_LEN, ENCODED_LEN);

    let iter_field = FieldGeneratorIter::<WriteableFt63>::new(bytes.clone());
    let mut iter_row = RowGeneratorIter::new_ligero(iter_field, UNENCODED_LEN, ENCODED_LEN);

    let mut chunks = regular_commit.comm().chunks(ENCODED_LEN);
    while let Some(iterated) = iter_row.next() {
        let regular = chunks.next().unwrap();
        assert_eq!(iterated[..], *regular);
    }
}

#[test]
fn are_specified_columns_correct() {
    const LEN: usize = 999;
    let bytes = random_bytes(LEN);

    const UNENCODED_LEN: usize = 4;
    const ENCODED_LEN: usize = 8;

    let iter_field = FieldGeneratorIter::<WriteableFt63>::new(bytes.clone());
    let iterated_commit_rows = RowGeneratorIter::new_ligero(iter_field, UNENCODED_LEN, ENCODED_LEN);
    let iterated_digests = iterated_commit_rows.get_column_digests();

    let mut random = RandomBytesIterator::new();
    let mut random_indices: Vec<usize> = Vec::new();
    for _ in 0..4 {
        let i = random.next().unwrap() as usize % ENCODED_LEN;
        if !random_indices.contains(&i) {
            random_indices.push(i);
        }
    }
    let iter_field = FieldGeneratorIter::<WriteableFt63>::new(bytes.clone());
    let iter_row_partial = RowGeneratorIter::new_ligero(iter_field, UNENCODED_LEN, ENCODED_LEN);
    let partial_digests = iter_row_partial.get_specified_column_digests(&random_indices);

    for (partial_index, full_index) in random_indices.iter().enumerate() {
        assert_eq!(iterated_digests[*full_index], partial_digests[partial_index]);
    }
}

#[test]
fn is_row_iterator_the_same_root() {
    const LEN: usize = 999;
    let bytes = random_bytes(LEN);

    const UNENCODED_LEN: usize = 4;
    const ENCODED_LEN: usize = 8;

    let regular_commit = commit_of(&bytes, UNENCODED_LEN, ENCODED_LEN);

    let iter_field = FieldGeneratorIter::<WriteableFt63>::new(bytes.clone());
    let iter_row = RowGeneratorIter::new_ligero(iter_field, UNENCODED_LEN, ENCODED_LEN);
    let iterated_commit_root = iter_row.convert_to_commit_root();

    assert_eq!(regular_commit.get_root().root, iterated_commit_root)
}

#[test]
fn test_that_rate_aligns() {
    let mut random = ChaCha8Rng::seed_from_u64(1337);
    for pre_encoded_len in (2..12).map(|x| 2usize.pow(x)).collect::<Vec<usize>>().into_iter() {
        let encoded_len = (pre_encoded_len + 1).next_power_of_two();
        for _ in 0..100 {
            let random_file_len = random.gen_range(1..10000);
            let encoded_file_size =
                get_encoded_file_size_from_rate::<WriteableFt63>(random_file_len, pre_encoded_len, encoded_len);
            let decoded_file_size =
                get_decoded_file_size_from_rate::<WriteableFt63>(encoded_file_size, pre_encoded_len, encoded_len);
            assert_eq!(
                random_file_len.next_multiple_of(7 * pre_encoded_len),
                decoded_file_size,
                "failed with an input file size of {}; for reference the encoded size was {}",
                random_file_len,
                encoded_file_size
            );
        }
    }
}

#[test]
fn leaves_request_matches_opened_columns() {
    let bytes = random_bytes(500);
    let fields = convert_byte_vec_to_field_elements_vec::<WriteableFt63>(&bytes);
    let commit = commit_of(&bytes, 4, 8);
    let cols = vec![0usize, 3, 7];
    let leaves = match convert_file_data_to_commit(&fields, CommitRequestType::Leaves(cols.clone()), 4, 8).unwrap() {
        CommitOrLeavesOutput::Leaves(ls) => ls,
        _ => panic!(),
    };
    let opened = match convert_file_data_to_commit(&fields, CommitRequestType::ColumnsWithPath(cols.clone()), 4, 8)
        .unwrap()
    {
        CommitOrLeavesOutput::ColumnsWithPath(cs) => cs,
        _ => panic!(),
    };
    for i in 0..cols.len() {
        assert_eq!(leaves[i], hash_column_to_digest(&opened[i]));
        assert_eq!(opened[i].col, commit.open_column(cols[i]).col);
    }
    let root = commit.get_root();
    assert!(client_verify_commitment(&root, &leaves, &cols, &opened, 3).is_ok());
    // asking for fewer columns than were opened breaks soundness
    assert!(client_verify_commitment(&root, &leaves, &cols, &opened, 2).is_err());
    // a different root rejects the columns
    let other = PoSRoot::new_from_root_digest([7u8; 32]);
    assert!(client_verify_commitment(&other, &leaves, &cols, &opened, 3).is_err());
}

#[test]
fn commit_request_errors() {
    let fields = convert_byte_vec_to_field_elements_vec::<WriteableFt63>(&[1, 2, 3]);
    assert_eq!(
        convert_file_data_to_commit(&fields, CommitRequestType::Commit, 4, 6).err(),
        Some(CommitError::InvalidDimensions)
    );
    assert_eq!(
        convert_file_data_to_commit(&fields, CommitRequestType::Commit, 8, 8).err(),
        Some(CommitError::InvalidDimensions)
    );
    assert_eq!(
        convert_file_data_to_commit(&[], CommitRequestType::Commit, 4, 8).err(),
        Some(CommitError::EmptyData)
    );
    assert_eq!(
        convert_file_data_to_commit(&fields, CommitRequestType::Leaves(vec![8]), 4, 8).err(),
        Some(CommitError::ColumnOutOfBounds)
    );
    let commit = match convert_file_data_to_commit(&fields, CommitRequestType::Commit, 4, 8).unwrap() {
        CommitOrLeavesOutput::Commit(c) => c,
        _ => panic!(),
    };
    assert_eq!(commit.get_n_rows(), 1);
    assert_eq!(commit.get_n_cols(), 8);
}

/// Commits to `coeffs` with rows of `pre` elements encoded into `enc` columns, evaluates
/// the committed polynomial at a random point through the partial evaluation, opens 40
/// seeded columns (in the seeded, unsorted order), and checks paths and evaluation.
fn commit_prove_and_verify(coeffs: &[WriteableFt63], pre: usize, enc: usize) {
    let encoding = PoSEncoding::new_from_dims(pre, enc);
    let commit = PoSCommit::commit(coeffs, &encoding);
    let root = commit.get_root();

    let x = WriteableFt63::from_u64(rand::thread_rng().gen_range(0..5102708120182849537u64));
    let mut inner_tensor = Vec::new();
    let mut acc = WriteableFt63::one();
    for _ in 0..commit.get_n_per_row() {
        inner_tensor.push(acc);
        acc = acc.mul(&x);
    }
    let xr = acc;
    let mut outer_tensor = Vec::new();
    let mut acc = WriteableFt63::one();
    for _ in 0..commit.get_n_rows() {
        outer_tensor.push(acc);
        acc = acc.mul(&xr);
    }

    let partial = verifiable_polynomial_evaluation(&commit, &outer_tensor);
    let requested = get_columns_from_random_seed(1337, 40, commit.get_n_cols());
    let opened = server_retreive_columns(&commit, &requested);

    client_online_verify_column_paths(&root, &requested, &opened).unwrap();
    let value = verifiable_full_polynomial_evaluation(
        &outer_tensor,
        &inner_tensor,
        &partial,
        &commit,
        &requested,
        &opened,
    )
    .unwrap();
    assert_eq!(value, evaluate_field_polynomial_at_point(&coeffs.to_vec(), &x));
}

fn square_dimensions(len: usize) -> (usize, usize) {
    let data_min_width = (len as f32).sqrt().ceil() as usize;
    let data_realized_width = data_min_width.next_power_of_two();
    let matrix_colums = (data_realized_width + 1).next_power_of_two();
    (data_realized_width, matrix_colums)
}

fn sample_text(len: usize) -> Vec<u8> {
    let text = b"The quick brown fox jumps over the lazy dog. ";
    (0..len).map(|i| text[i % text.len()]).collect()
}

#[test]
fn end_to_end_with_set_dimensions() {
    let data = convert_byte_vec_to_field_elements_vec::<WriteableFt63>(&sample_text(10000));
    let (pre, enc) = square_dimensions(data.len());
    commit_prove_and_verify(&data, pre, enc);
}

#[test]
fn ligero_with_my_field_end_to_end() {
    let mut rng = rand::thread_rng();
    let lgl = 8 + rng.gen::<usize>() % 8;
    let len_base = 1 << (lgl - 1);
    let len = len_base + (rng.gen::<usize>() % len_base);
    let bytes = random_bytes(len * 7);
    let coeffs = convert_byte_vec_to_field_elements_vec::<WriteableFt63>(&bytes);
    let (pre, enc) = square_dimensions(coeffs.len());
    commit_prove_and_verify(&coeffs, pre, enc);
}

#[test]
fn ligero_with_my_field_and_from_file_end_to_end() {
    let coeffs = convert_byte_vec_to_field_elements_vec::<WriteableFt63>(&sample_text(4321));
    let (pre, enc) = square_dimensions(coeffs.len());
    commit_prove_and_verify(&coeffs, pre, enc);
}

#[test]
fn ligero_with_my_field_and_from_file_and_custom_dims_end_to_end() {
    let data = convert_byte_vec_to_field_elements_vec::<WriteableFt63>(&sample_text(4321));
    let (pre, enc) = square_dimensions(data.len());
    commit_prove_and_verify(&data, pre, enc);
    commit_prove_and_verify(&data, pre / 2, enc / 2);
    commit_prove_and_verify(&data, pre * 2, enc * 2);
}

#[test]
fn partial_evaluation_pairs_each_column_with_its_requested_position() {
    let coeffs = random_writeable_field_vec::<WriteableFt63>(8);
    let commit = PoSCommit::commit(&coeffs, &PoSEncoding::new_from_dims(16, 32));
    let left: Vec<WriteableFt63> = (0..commit.get_n_rows()).map(|i| WriteableFt63::from_u64(i as u64 + 3)).collect();
    let partial = verifiable_polynomial_evaluation(&commit, &left);
    let requested = vec![17usize, 3, 29, 8];
    let opened = server_retreive_columns(&commit, &requested);
    assert_eq!(verify_proper_partial_polynomial_evaluation(&left, &partial, &requested, &opened), Ok(()));

    let mut swapped = opened.clone();
    swapped.swap(0, 1);
    assert_eq!(
        verify_proper_partial_polynomial_evaluation(&left, &partial, &requested, &swapped),
        Err(VerifierError::ColumnEval)
    );
    assert_eq!(
        verify_proper_partial_polynomial_evaluation(&left, &partial, &requested, &opened[..3]),
        Err(VerifierError::ColumnEval)
    );
    assert_eq!(
        verify_proper_partial_polynomial_evaluation(&left, &partial, &[17usize, 3, 29, 32], &opened),
        Err(VerifierError::ColumnEval)
    );
}

#[test]
fn path_check_needs_one_digest_per_column() {
    let coeffs = random_writeable_field_vec::<WriteableFt63>(8);
    let commit = PoSCommit::commit(&coeffs, &PoSEncoding::new_from_dims(16, 32));
    let root = commit.get_root();
    let requested = vec![5usize, 30];
    let opened = server_retreive_columns(&commit, &requested);
    let digests: Vec<[u8; 32]> = opened.iter().map(hash_column_to_digest).collect();
    let paths: Vec<Vec<[u8; 32]>> = opened.iter().map(|c| c.path.clone()).collect();
    assert_eq!(client_online_verify_column_paths_without_full_columns(&root, &requested, &digests, &paths), Ok(()));
    assert_eq!(
        client_online_verify_column_paths_without_full_columns(&root, &requested, &digests[..1], &paths),
        Err(VerifierError::ColumnEval)
    );
    assert_eq!(
        client_online_verify_column_paths_without_full_columns(&root, &requested[..1], &digests[..1], &paths[..1].to_vec()),
        Ok(())
    );
}

fn bit_reversed(j: usize, n: usize) -> usize {
    if n <= 1 { 0 } else { (j % 2) * (n / 2) + bit_reversed(j / 2, n / 2) }
}

const MODULUS: u64 = 5102708120182849537;

/// The transform written out as sums: entry `j` is the row evaluated at
/// `10^((p - 1) / n)` raised to the bit-reversed `j`.
fn naive_forward(row: &[WriteableFt63]) -> Vec<WriteableFt63> {
    let n = row.len();
    let root = WriteableFt63::from_u64(10).pow((MODULUS - 1) / n as u64);
    (0..n)
        .map(|j| {
            let w = root.pow(bit_reversed(j, n) as u64);
            let mut acc = WriteableFt63::zero();
            let mut power = WriteableFt63::one();
            for x in row {
                acc = acc.add(&x.mul(&power));
                power = power.mul(&w);
            }
            acc
        })
        .collect()
}

#[test]
fn transforms_are_the_stated_sums() {
    for (pre, enc) in [(1usize, 2usize), (2, 4), (3, 8), (8, 16), (16, 64)] {
        let data = random_writeable_field_vec::<WriteableFt63>(4);
        let mut row: Vec<WriteableFt63> = data[..pre.min(data.len())].to_vec();
        row.resize(enc, WriteableFt63::zero());
        let encoding = PoSEncoding::new_from_dims(pre, enc);
        let encoded = encoding.encode(&row);
        let expected = naive_forward(&row);
        for j in 0..enc {
            assert_eq!(encoded[j].to_canonical_u64(), expected[j].to_canonical_u64());
        }
        let decoded = decode_row(encoded).unwrap();
        for k in 0..enc {
            assert_eq!(decoded[k].to_canonical_u64(), row[k].to_canonical_u64());
        }
    }
}
