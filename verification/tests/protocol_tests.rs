use proof_of_storage::databases::{FileMetadata, ServerHost};
use proof_of_storage::fields::data_field::DataField;
use proof_of_storage::fields::{convert_byte_vec_to_field_elements_vec, WriteableFt63};
use proof_of_storage::file_metadata::ClientOwnedFileMetadata;
use proof_of_storage::lcpc_online::commit::PoSColumn;
use proof_of_storage::lcpc_online::{convert_file_data_to_commit, CommitOrLeavesOutput, CommitRequestType};
use proof_of_storage::networking::client::{
    default_dimensions_from_min_width,
    check_append_evaluation, check_appended_metadata, check_edit_evaluation, check_edit_request,
    check_edited_metadata, check_polynomial_evaluation, check_reshape_evaluation, check_reshaped_metadata,
    check_storage_proof, edit_row_range, evaluation_point_from_seed, expected_append_difference,
    get_columns_from_random_seed, next_power_of_two, upload_dimensions, ClientError, FIXED_RANDOM_SEED,
};
use proof_of_storage::networking::server::{
    append_or_edit_evaluation_response, append_row_range, appended_file_metadata, edit_byte_range,
    edited_file_metadata, hashed_password, password_matches, polynomial_evaluation_response, reshape_evaluation_response, reshaped_file_metadata,
    resolve_pending_change, upload_new_file_metadata, AppendOrEditEvaluation, ServerError,
};

fn sample_file(len: usize) -> Vec<u8> {
    (0..len).map(|i| ((i * 37 + 11) % 251) as u8).collect()
}

fn open_columns(file: &[u8], meta: &FileMetadata, cols: &Vec<usize>) -> Vec<PoSColumn> {
    let fields = convert_byte_vec_to_field_elements_vec::<WriteableFt63>(file);
    match convert_file_data_to_commit(
        &fields,
        CommitRequestType::ColumnsWithPath(cols.clone()),
        meta.num_columns,
        meta.num_encoded_columns,
    )
    .unwrap()
    {
        CommitOrLeavesOutput::ColumnsWithPath(cs) => cs,
        _ => panic!(),
    }
}

#[test]
fn upload_dimensions_follow_the_rules() {
    assert_eq!(upload_dimensions(Some(4), Some(8)), Ok(Some((4, 8))));
    assert_eq!(upload_dimensions(Some(0), Some(8)), Err(ClientError::TooFewColumns));
    assert_eq!(upload_dimensions(Some(4), Some(1)), Err(ClientError::TooFewEncodedColumns));
    assert_eq!(upload_dimensions(Some(4), Some(12)), Err(ClientError::NotPowerOfTwo));
    assert_eq!(upload_dimensions(Some(5), Some(8)), Err(ClientError::EncodingTooNarrow));
    assert_eq!(upload_dimensions(Some(5), None), Ok(Some((5, 16))));
    assert_eq!(upload_dimensions(Some(4), None), Ok(Some((4, 8))));
    assert_eq!(upload_dimensions(Some(0), None), Err(ClientError::TooFewColumns));
    assert_eq!(upload_dimensions(None, Some(16)), Ok(Some((8, 16))));
    assert_eq!(upload_dimensions(None, Some(12)), Err(ClientError::NotPowerOfTwo));
    assert_eq!(upload_dimensions(None, None), Ok(None));
}

#[test]
fn next_power_of_two_values() {
    assert_eq!(next_power_of_two(0), 1);
    assert_eq!(next_power_of_two(1), 1);
    assert_eq!(next_power_of_two(5), 8);
    assert_eq!(next_power_of_two(8), 8);
    assert_eq!(next_power_of_two(9), 16);
}

#[test]
fn seeded_columns_are_distinct_and_in_range() {
    let cols = get_columns_from_random_seed(FIXED_RANDOM_SEED, 5, 16);
    assert_eq!(cols.len(), 5);
    for (i, c) in cols.iter().enumerate() {
        assert!(*c < 16);
        for d in &cols[i + 1..] {
            assert_ne!(c, d);
        }
    }
    assert_eq!(cols, get_columns_from_random_seed(FIXED_RANDOM_SEED, 5, 16));
    let all = get_columns_from_random_seed(FIXED_RANDOM_SEED, 20, 6);
    assert_eq!(all.len(), 6);
    let a = evaluation_point_from_seed(FIXED_RANDOM_SEED);
    let b = evaluation_point_from_seed(FIXED_RANDOM_SEED);
    assert_eq!(a, b);
    assert_ne!(evaluation_point_from_seed(FIXED_RANDOM_SEED), evaluation_point_from_seed(7));
}

#[test]
fn upload_then_verify_in_memory() {
    let file = sample_file(1000);
    let (pre, enc) = upload_dimensions(Some(4), Some(8)).unwrap().unwrap();
    let meta = upload_new_file_metadata(1, "test.txt".to_string(), &file, pre, enc).unwrap();
    assert_eq!(meta.num_rows, 36);
    assert_eq!(meta.filesize_in_bytes, 1000);
    let cols = get_columns_from_random_seed(FIXED_RANDOM_SEED, 3, enc);
    let columns = open_columns(&file, &meta, &cols);
    assert_eq!(check_storage_proof(&file, &meta, &cols, &columns, 3), Ok(()));

    // a server that lost a byte of the file fails the proof
    let mut damaged = file.clone();
    damaged[500] ^= 1;
    let bad_columns = open_columns(&damaged, &meta, &cols);
    assert!(matches!(
        check_storage_proof(&file, &meta, &cols, &bad_columns, 3),
        Err(ClientError::ProofRejected(_))
    ));
    // asking for more columns than soundness allows is refused
    assert!(check_storage_proof(&file, &meta, &cols, &columns, 2).is_err());
}

#[test]
fn upload_rejects_bad_dimensions() {
    let file = sample_file(100);
    assert_eq!(
        upload_new_file_metadata(1, "f".to_string(), &file, 8, 8).err(),
        Some(ServerError::InvalidDimensions)
    );
    assert!(matches!(upload_new_file_metadata(1, "f".to_string(), &[], 4, 8), Err(ServerError::Commit(_))));
}

#[test]
fn append_verification_accepts_an_honest_server() {
    let old_file = sample_file(1000);
    let appended = vec![1u8, 2, 3, 4, 5, 6, 7, 8, 9, 10, 11, 12, 13, 14, 15, 16, 17, 18, 19, 20, 21, 22, 23, 24, 25,
        26, 27, 28, 29, 30, 31, 32];
    let mut new_file = old_file.clone();
    new_file.extend_from_slice(&appended);

    let old_meta = upload_new_file_metadata(1, "test.txt".to_string(), &old_file, 4, 8).unwrap();
    let new_meta = appended_file_metadata(old_meta.clone(), 2, &new_file).unwrap();
    assert_eq!(check_appended_metadata(&old_meta, &new_meta, appended.len()), Ok(()));
    assert_eq!(check_appended_metadata(&old_meta, &new_meta, appended.len() + 1), Err(ClientError::SizeMismatch));

    let point = evaluation_point_from_seed(FIXED_RANDOM_SEED);
    let cols = get_columns_from_random_seed(FIXED_RANDOM_SEED, 3, old_meta.num_encoded_columns);
    let answer = append_or_edit_evaluation_response(&old_file, &new_file, &old_meta, &new_meta, &point, &cols, None)
        .unwrap();
    let AppendOrEditEvaluation::Append {
        original_result_vector,
        original_columns,
        new_result_vector,
        new_columns,
        edited_unencoded_row,
    } = answer else {
        panic!()
    };
    assert_eq!(
        check_append_evaluation(
            &old_meta,
            &new_meta,
            &appended,
            &point,
            &cols,
            &original_result_vector,
            &original_columns,
            &new_result_vector,
            &new_columns,
            &edited_unencoded_row,
        ),
        Ok(())
    );
    // the client rejects the append when it thinks other bytes were appended
    let mut other = appended.clone();
    other[0] ^= 0xff;
    assert_eq!(
        check_append_evaluation(
            &old_meta,
            &new_meta,
            &other,
            &point,
            &cols,
            &original_result_vector,
            &original_columns,
            &new_result_vector,
            &new_columns,
            &edited_unencoded_row,
        ),
        Err(ClientError::EvaluationMismatch)
    );
}

#[test]
fn append_difference_of_aligned_file() {
    // a file of 14 bytes ends on a coefficient boundary: the difference is the appended
    // coefficient at degree 2
    let point = WriteableFt63::from_u64(3);
    let row: Vec<WriteableFt63> = Vec::new();
    let diff = expected_append_difference(14, 4, &row, &[5], &point);
    let coefficient = <WriteableFt63 as DataField>::from_data_bytes(&[5, 0, 0, 0, 0, 0, 0]);
    assert_eq!(diff, coefficient.mul(&point.pow(2)));
}

#[test]
fn edit_verification_accepts_an_honest_server() {
    let old_file = sample_file(1000);
    let edit_start = 100usize;
    let data: Vec<u8> = (0..32u8).collect();
    assert_eq!(check_edit_request(old_file.len(), edit_start, data.len()), Ok(()));
    assert_eq!(check_edit_request(old_file.len(), 990, data.len()), Err(ClientError::EditOutOfBounds));
    let mut new_file = old_file.clone();
    new_file[edit_start..edit_start + data.len()].copy_from_slice(&data);

    let old_meta = upload_new_file_metadata(1, "test.txt".to_string(), &old_file, 4, 8).unwrap();
    let new_meta = edited_file_metadata(old_meta.clone(), 2, &new_file).unwrap();
    assert_eq!(check_edited_metadata(&old_meta, &new_meta), Ok(()));

    let (first, last) = edit_row_range(edit_start, data.len(), old_meta.num_columns);
    assert_eq!((first, last), (3, 4));
    let point = evaluation_point_from_seed(FIXED_RANDOM_SEED);
    let cols = get_columns_from_random_seed(FIXED_RANDOM_SEED, 3, old_meta.num_encoded_columns);
    let answer = append_or_edit_evaluation_response(
        &old_file,
        &new_file,
        &old_meta,
        &new_meta,
        &point,
        &cols,
        Some((first, last)),
    )
    .unwrap();
    let AppendOrEditEvaluation::Edit {
        original_result_vector,
        original_columns,
        new_result_vector,
        new_columns,
        original_unencoded_rows,
    } = answer else {
        panic!()
    };
    // rows 3 and 4, of 4 coefficients of 7 bytes each
    assert_eq!(original_unencoded_rows, old_file[84..140].to_vec());
    let whole_rows = &original_unencoded_rows[..];
    let partial_rows = &original_unencoded_rows[..55];
    assert_eq!(
        check_edit_evaluation(
            &old_meta,
            &new_meta,
            &data,
            edit_start,
            &point,
            &cols,
            &original_result_vector,
            &original_columns,
            &new_result_vector,
            &new_columns,
            whole_rows,
        ),
        Ok(())
    );
    assert_eq!(
        check_edit_evaluation(
            &old_meta,
            &new_meta,
            &data,
            edit_start,
            &point,
            &cols,
            &original_result_vector,
            &original_columns,
            &new_result_vector,
            &new_columns,
            partial_rows,
        ),
        Err(ClientError::PartialRow)
    );
    let mut other = data.clone();
    other[3] ^= 1;
    assert_eq!(
        check_edit_evaluation(
            &old_meta,
            &new_meta,
            &other,
            edit_start,
            &point,
            &cols,
            &original_result_vector,
            &original_columns,
            &new_result_vector,
            &new_columns,
            whole_rows,
        ),
        Err(ClientError::EvaluationMismatch)
    );
}

#[test]
fn reshape_verification_accepts_an_honest_server() {
    let file = sample_file(1000);
    let old_meta = upload_new_file_metadata(1, "test.txt".to_string(), &file, 4, 8).unwrap();
    let new_meta = reshaped_file_metadata(old_meta.clone(), 2, &file, 8, 16).unwrap();
    assert_eq!(check_reshaped_metadata(&new_meta, 8, 16), Ok(()));
    assert_eq!(check_reshaped_metadata(&new_meta, 8, 32), Err(ClientError::ReshapeDimensionsNotMet));
    let point = evaluation_point_from_seed(FIXED_RANDOM_SEED);
    let cols_old = get_columns_from_random_seed(FIXED_RANDOM_SEED, 3, 8);
    let cols_new = get_columns_from_random_seed(FIXED_RANDOM_SEED, 3, 16);
    let answer = reshape_evaluation_response(&file, &old_meta, &new_meta, &point, &cols_old, &cols_new).unwrap();
    assert_eq!(
        check_reshape_evaluation(
            &old_meta,
            &new_meta,
            &point,
            &cols_old,
            &cols_new,
            &answer.original_result_vector,
            &answer.original_columns,
            &answer.new_result_vector,
            &answer.new_columns,
        ),
        Ok(())
    );
    // a server whose new evaluation claims something else is rejected
    let mut tampered = answer.new_result_vector.clone();
    tampered[0] = tampered[0].add(&WriteableFt63::one());
    assert!(check_reshape_evaluation(
        &old_meta,
        &new_meta,
        &point,
        &cols_old,
        &cols_new,
        &answer.original_result_vector,
        &answer.original_columns,
        &tampered,
        &answer.new_columns,
    )
    .is_err());
}

#[test]
fn polynomial_evaluation_round_trip() {
    let file = sample_file(700);
    let meta = upload_new_file_metadata(1, "test.txt".to_string(), &file, 4, 8).unwrap();
    let point = evaluation_point_from_seed(FIXED_RANDOM_SEED);
    let result = polynomial_evaluation_response(&file, &meta, &point).unwrap();
    assert_eq!(result.len(), 8);
    let cols = get_columns_from_random_seed(FIXED_RANDOM_SEED, 3, 8);
    let columns = open_columns(&file, &meta, &cols);
    assert!(check_polynomial_evaluation(&meta, &point, &cols, &columns, &result).is_ok());
    let other_meta = upload_new_file_metadata(1, "test.txt".to_string(), &sample_file(699), 4, 8).unwrap();
    assert!(matches!(
        check_polynomial_evaluation(&other_meta, &point, &cols, &columns, &result),
        Err(ClientError::ProofRejected(_))
    ));
}

#[test]
fn ranges_the_server_sends() {
    let host = ServerHost { server_name: None, server_ip: String::new(), server_port: 0 };
    let root = proof_of_storage::lcpc_online::commit::PoSRoot::new_from_root_digest([0u8; 32]);
    let old = FileMetadata {
        id_ulid: 1,
        filename: "f".to_string(),
        num_rows: 5,
        num_columns: 4,
        num_encoded_columns: 8,
        filesize_in_bytes: 130,
        stored_server: host.clone(),
        root,
    };
    let mut grown = old.clone();
    grown.num_rows = 6;
    grown.filesize_in_bytes = 160;
    assert_eq!(append_row_range(&old, &grown), (16, 19));
    let mut same_rows = old.clone();
    same_rows.filesize_in_bytes = 135;
    // 135 bytes are 20 elements: the row runs to the last one, at position 19
    assert_eq!(append_row_range(&old, &same_rows), (16, 19));
    assert_eq!(edit_byte_range(3, 4, 4, 1000), (84, 139));
    assert_eq!(edit_byte_range(3, 4, 4, 100), (84, 99));
    let kept = resolve_pending_change(old.clone(), grown.clone(), false);
    assert_eq!(kept.num_rows, 5);
    let taken = resolve_pending_change(old, grown, true);
    assert_eq!(taken.num_rows, 6);
}

#[test]
fn file_metadata_getters() {
    let host = ServerHost { server_name: Some("test_server".to_string()), server_ip: "0.0.0.0".to_string(), server_port: 8080 };
    let root = proof_of_storage::lcpc_online::commit::PoSRoot::new_from_root_digest([0u8; 32]);
    let meta = FileMetadata {
        id_ulid: 1,
        filename: "test_file".to_string(),
        num_rows: 100,
        num_columns: 128,
        num_encoded_columns: 256,
        filesize_in_bytes: 12800,
        stored_server: host.clone(),
        root,
    };
    assert_eq!(meta.get_end_coefficient_coordinates::<WriteableFt63>(), (100, 12800 % (256 * 7)));
    assert_eq!(meta.get_last_coefficient_write_byte_offset::<WriteableFt63>(), 12800 % 7);
    assert_eq!(meta.bytes_in_a_row::<WriteableFt63>(), 128 * 7);
    let client = ClientOwnedFileMetadata {
        filename: "test_file".to_string(),
        num_rows: 100,
        num_columns: 128,
        num_encoded_columns: 256,
        filesize_in_bytes: 12800,
        stored_server: host,
        root,
    };
    assert_eq!(client.get_file_columns(), 128);
    assert_eq!(client.get_end_coordinates(), (100, 12800 % 256));
}

#[test]
fn stored_password_hash_is_blake3_hex() {
    let password = "correct horse battery staple".to_string();
    let stored = hashed_password(&password);
    assert_eq!(stored, blake3::hash(password.as_bytes()).to_string());
    assert_ne!(stored, password);
    assert_eq!(stored.len(), 64);
}

#[test]
fn password_matches_only_its_own_hash() {
    let password = "hunter2".to_string();
    let stored = hashed_password(&password);
    assert!(password_matches(&stored, &password));
    assert!(!password_matches(&stored, &"hunter3".to_string()));
    assert!(!password_matches(&password, &password));
}

#[test]
fn append_within_the_last_row_is_accepted() {
    // 1000 bytes are 143 elements, 36 rows of 4 with one element free in the last row;
    // 5 more bytes fit in the last element and the free one, so no row is added.
    let old_file = sample_file(1000);
    let appended = vec![9u8, 8, 7, 6, 5];
    let mut new_file = old_file.clone();
    new_file.extend_from_slice(&appended);
    let old_meta = upload_new_file_metadata(1, "test.txt".to_string(), &old_file, 4, 8).unwrap();
    let new_meta = appended_file_metadata(old_meta.clone(), 2, &new_file).unwrap();
    assert_eq!(old_meta.num_rows, new_meta.num_rows);
    assert_eq!(append_row_range(&old_meta, &new_meta), (140, 143));

    let point = evaluation_point_from_seed(FIXED_RANDOM_SEED);
    let cols = get_columns_from_random_seed(FIXED_RANDOM_SEED, 3, old_meta.num_encoded_columns);
    let answer = append_or_edit_evaluation_response(&old_file, &new_file, &old_meta, &new_meta, &point, &cols, None)
        .unwrap();
    let AppendOrEditEvaluation::Append {
        original_result_vector,
        original_columns,
        new_result_vector,
        new_columns,
        edited_unencoded_row,
    } = answer else {
        panic!()
    };
    assert_eq!(edited_unencoded_row.len(), 4);
    assert_eq!(
        check_append_evaluation(
            &old_meta,
            &new_meta,
            &appended,
            &point,
            &cols,
            &original_result_vector,
            &original_columns,
            &new_result_vector,
            &new_columns,
            &edited_unencoded_row,
        ),
        Ok(())
    );
}

#[test]
fn default_dimensions_round_to_powers_of_two() {
    assert_eq!(default_dimensions_from_min_width(0), (1, 2));
    assert_eq!(default_dimensions_from_min_width(1), (1, 2));
    assert_eq!(default_dimensions_from_min_width(24), (32, 64));
    assert_eq!(default_dimensions_from_min_width(32), (32, 64));
    assert_eq!(default_dimensions_from_min_width(33), (64, 128));
}
