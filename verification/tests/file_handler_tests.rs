use proof_of_storage::fields::WriteableFt63;
use proof_of_storage::lcpc_online::column_digest_accumulator::ColumnsToCareAbout;
use proof_of_storage::lcpc_online::encoded_file_reader::{EncodedFileError, EncodedFileReader};
use proof_of_storage::lcpc_online::encoded_file_writer::EncodedFileWriter;
use proof_of_storage::lcpc_online::file_handler::{read_tree, write_tree_to_file, FileHandler, FileHandlerError};
use proof_of_storage::lcpc_online::{client_online_verify_column_paths, convert_file_data_to_commit, CommitOrLeavesOutput, CommitRequestType};
use proof_of_storage::fields::convert_byte_vec_to_field_elements_vec;

fn sample_file(len: usize) -> Vec<u8> {
    (0..len).map(|i| ((i * 13 + 5) % 253) as u8).collect()
}

fn decoded_bytes(handler: &FileHandler) -> Vec<u8> {
    let (_, _, _) = handler.get_dimensions().unwrap();
    let mut out = Vec::new();
    let rows = handler.get_encoded_metadata().rows_written;
    for row in 0..rows {
        out.extend(handler.get_decoded_row_bytes(row).unwrap());
    }
    out
}

#[test]
fn encode_then_decode_in_memory() {
    for (pre, enc) in [(4usize, 8usize), (8, 16), (16, 32), (3, 8)] {
        let file = sample_file(1000);
        let handler = FileHandler::create_from_unencoded_file(7, file.clone(), pre, enc).unwrap();
        let decoded = decoded_bytes(&handler);
        assert!(decoded.len() >= file.len());
        assert_eq!(decoded[..file.len()], file[..]);
        assert!(decoded[file.len()..].iter().all(|b| *b == 0));
        assert_eq!(handler.verify_all_files_agree(), Ok(()));
        let meta = handler.get_encoded_metadata();
        assert_eq!(meta.ulid, 7);
        assert_eq!(meta.bytes_of_data, 1000);
        assert!(meta.rows_written <= meta.row_capacity);
    }
}

#[test]
fn create_rejects_bad_dimensions() {
    assert_eq!(
        FileHandler::create_from_unencoded_file(1, sample_file(10), 4, 12).err(),
        Some(FileHandlerError::NotPowerOfTwo)
    );
    assert!(matches!(
        FileHandler::create_from_unencoded_file(1, sample_file(10), 8, 8),
        Err(FileHandlerError::Encoded(EncodedFileError::InvalidDimensions))
    ));
}

#[test]
fn edit_bytes_keeps_the_files_in_agreement() {
    let file = sample_file(1028);
    let mut handler = FileHandler::create_from_unencoded_file(1, file.clone(), 10, 16).unwrap();
    let edit: Vec<u8> = (0..100u8).collect();
    let (original, tree) = handler.edit_bytes(100, &edit).unwrap();
    assert_eq!(original, file[100..200].to_vec());
    let mut expected = file.clone();
    expected[100..200].copy_from_slice(&edit);
    assert_eq!(handler.unencoded_bytes(), &expected);
    assert_eq!(decoded_bytes(&handler)[..expected.len()], expected[..]);
    assert_eq!(handler.verify_all_files_agree(), Ok(()));
    assert_eq!(handler.get_commit_root().unwrap().root, tree.root());

    // the same bytes committed afresh give the same root
    let fresh = FileHandler::create_from_unencoded_file(2, expected.clone(), 10, 16).unwrap();
    assert_eq!(fresh.get_commit_root().unwrap().root, tree.root());

    assert_eq!(handler.edit_bytes(1000, &edit).err(), Some(FileHandlerError::EditOutOfBounds));
}

#[test]
fn append_bytes_keeps_the_files_in_agreement() {
    let file = sample_file(500);
    let mut handler = FileHandler::create_from_unencoded_file(1, file.clone(), 10, 16).unwrap();
    let extra: Vec<u8> = (0..32u8).collect();
    let tree = handler.append_bytes(extra.clone()).unwrap();
    let mut expected = file.clone();
    expected.extend_from_slice(&extra);
    assert_eq!(handler.get_total_data_bytes(), 532);
    assert_eq!(decoded_bytes(&handler)[..expected.len()], expected[..]);
    assert_eq!(handler.verify_all_files_agree(), Ok(()));
    let fresh = FileHandler::create_from_unencoded_file(2, expected, 10, 16).unwrap();
    assert_eq!(fresh.get_commit_root().unwrap().root, tree.root());
}

#[test]
fn reshape_keeps_the_data() {
    let file = sample_file(700);
    let mut handler = FileHandler::create_from_unencoded_file(1, file.clone(), 4, 8).unwrap();
    let tree = handler.reshape(8, 16).unwrap();
    let (pre, enc, _) = handler.get_dimensions().unwrap();
    assert_eq!((pre, enc), (8, 16));
    assert_eq!(decoded_bytes(&handler)[..file.len()], file[..]);
    assert_eq!(handler.verify_all_files_agree(), Ok(()));
    assert_eq!(tree.width(), 16);
}

#[test]
fn full_columns_verify_against_the_root() {
    let file = sample_file(2000);
    let handler = FileHandler::create_from_unencoded_file(1, file.clone(), 8, 16).unwrap();
    let columns = handler.read_full_columns(ColumnsToCareAbout::Only(vec![0, 5, 15])).unwrap();
    let root = handler.get_commit_root().unwrap();
    assert!(client_online_verify_column_paths(&root, &[0, 5, 15], &columns).is_ok());
    assert!(client_online_verify_column_paths(&root, &[1, 5, 15], &columns).is_err());
    let digests = handler.read_only_digests(ColumnsToCareAbout::All).unwrap();
    assert_eq!(digests.len(), 16);
    assert!(handler.read_full_columns(ColumnsToCareAbout::Only(vec![16])).is_err());
}

#[test]
fn stored_tree_round_trips_through_bytes() {
    let file = sample_file(300);
    let handler = FileHandler::create_from_unencoded_file(1, file, 4, 8).unwrap();
    let tree = handler.get_merkle_tree().unwrap();
    let bytes = handler.write_tree(&tree).unwrap();
    assert_eq!(bytes, write_tree_to_file(&tree));
    assert_eq!(bytes.len(), 15 * 32);
    let back = read_tree(&bytes).unwrap();
    assert!(back.eq(&tree));
    let attached = FileHandler::new_attach_to_existing_files(
        1,
        handler.unencoded_bytes().clone(),
        handler.encoded_file().clone(),
        &bytes,
    )
    .unwrap();
    assert_eq!(attached.verify_all_files_agree(), Ok(()));
    assert!(read_tree(&bytes[..64]).is_err());
}

#[test]
fn tampered_tree_is_detected() {
    let file = sample_file(300);
    let handler = FileHandler::create_from_unencoded_file(1, file.clone(), 4, 8).unwrap();
    let mut bytes = write_tree_to_file(&handler.get_merkle_tree().unwrap());
    bytes[3] ^= 1;
    let attached =
        FileHandler::new_attach_to_existing_files(1, file, handler.encoded_file().clone(), &bytes).unwrap();
    assert_eq!(attached.verify_all_files_agree(), Err(FileHandlerError::FilesDisagree));
}

#[test]
fn streaming_writer_matches_commitment() {
    let file = sample_file(999);
    let (meta, tree, reader) = EncodedFileWriter::convert_unencoded_file(&file, 4, 8).unwrap();
    assert_eq!(meta.rows_written, reader.get_rows_written());
    let fields = convert_byte_vec_to_field_elements_vec::<WriteableFt63>(&file);
    let commit = match convert_file_data_to_commit(&fields, CommitRequestType::Commit, 4, 8).unwrap() {
        CommitOrLeavesOutput::Commit(c) => c,
        _ => panic!(),
    };
    assert_eq!(tree.root(), commit.get_root().root);
}

#[test]
fn unencoded_bytes_read_from_the_start() {
    let file = sample_file(100);
    let handler = FileHandler::create_from_unencoded_file(1, file.clone(), 4, 8).unwrap();
    assert_eq!(handler.get_unencoded_bytes(10, 30).unwrap(), file[..20].to_vec());
    assert_eq!(handler.get_unencoded_bytes(0, 101).err(), Some(FileHandlerError::ReadPastEnd));
}

fn decoded_reader_bytes(reader: &EncodedFileReader) -> Vec<u8> {
    let mut out = Vec::new();
    reader.decode_to_target_file(&mut out).unwrap();
    out
}

#[test]
fn edit_decoded_bytes_reads_back_the_edit() {
    let file = sample_file(1000);
    let (_, _, mut reader) = EncodedFileWriter::convert_unencoded_file(&file, 4, 8).unwrap();
    let before = decoded_reader_bytes(&reader);
    assert_eq!(before[..file.len()], file[..]);

    let new_data = b"replacement bytes across a row edge".to_vec();
    let start = 20usize;
    let replaced = reader.edit_decoded_bytes(start, &new_data).unwrap();
    assert_eq!(replaced, file[start..start + new_data.len()].to_vec());

    let after = decoded_reader_bytes(&reader);
    let mut expected = before.clone();
    expected[start..start + new_data.len()].copy_from_slice(&new_data);
    assert_eq!(after, expected);
}

#[test]
fn edit_decoded_bytes_past_the_rows_written_is_refused() {
    let file = sample_file(100);
    let (_, _, mut reader) = EncodedFileWriter::convert_unencoded_file(&file, 4, 8).unwrap();
    let untouched = decoded_reader_bytes(&reader);
    let rows_bytes = untouched.len();
    let result = reader.edit_decoded_bytes(rows_bytes - 2, &[1u8, 2, 3, 4]);
    assert_eq!(result, Err(EncodedFileError::RowOutOfBounds));
    assert_eq!(decoded_reader_bytes(&reader), untouched);
}

#[test]
fn encode_then_decode_file() {
    let file = sample_file(10000);
    for pre_encoded_len in [8usize, 16, 32] {
        let encoded_len = (pre_encoded_len + 1).next_power_of_two();
        let (metadata, tree, reader) =
            EncodedFileWriter::convert_unencoded_file(&file, pre_encoded_len, encoded_len).unwrap();

        assert_eq!(tree.len(), encoded_len * 2 - 1);
        let expected_size = file.len().div_ceil(7).div_ceil(pre_encoded_len) * encoded_len;
        assert!(reader.file_len() == expected_size || reader.file_len() == expected_size * 2);
        assert_eq!(reader.file_len(), metadata.row_capacity * metadata.encoded_size);
        assert!(metadata.row_capacity > metadata.rows_written);
        assert_eq!(metadata.encoded_size, encoded_len);
        assert_eq!(metadata.pre_encoded_size, pre_encoded_len);
        assert_eq!(metadata.bytes_of_data, file.len());

        let decoded = decoded_reader_bytes(&reader);
        assert_eq!(file[..], decoded[..file.len()]);
    }
}

#[test]
fn set_new_capacity_shrinks_grows_and_refuses() {
    let file = sample_file(1000);
    let (metadata, _, mut reader) = EncodedFileWriter::convert_unencoded_file(&file, 4, 8).unwrap();
    let rows = metadata.rows_written;
    let decoded = decoded_reader_bytes(&reader);

    assert_eq!(reader.set_new_capacity(rows - 1), Err(EncodedFileError::CapacityTooSmall));
    assert_eq!(reader.get_row_capacity(), metadata.row_capacity);

    reader.set_new_capacity(rows).unwrap();
    assert_eq!(reader.get_row_capacity(), rows);
    assert_eq!(reader.file_len(), rows * 8);
    assert_eq!(decoded_reader_bytes(&reader), decoded);

    reader.set_new_capacity(rows * 3).unwrap();
    assert_eq!(reader.get_row_capacity(), rows * 3);
    assert_eq!(decoded_reader_bytes(&reader), decoded);
}
