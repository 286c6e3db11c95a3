use vstd::prelude::*;

use crate::fields::spec_is_power_of_two;
use crate::fields::writable_ft63::WriteableFt63;
use crate::lcpc_online::commit::{column_digest, PoSColumn, PoSRoot};
use crate::lcpc_online::encoded_file_reader::{
    ceil_div, decoded_bytes, decoded_row, image_column, image_row, EncodedFileError, EncodedFileReader,
};
use crate::lcpc_online::encoded_file_writer::{
    conversion_dims_ok, data_cap, encoded_data_row, file_encodes, lemma_chunk_count_pub, lemma_decode_after_encode,
    lemma_row_start_in_data_pub, row_chunk, row_holds, zero_extended, EncodedFileWriter,
};
use crate::lcpc_online::encoding::{max_fft_len, spec_dims_ok, PoSEncoding};
use crate::lcpc_online::merkle_tree::{lemma_trees_with_same_leaves, spec_path, MerkleTree, MerkleTreeError};
use crate::lcpc_online::column_digest_accumulator::{
    fed_all, AccumulatorError, ColumnDigestAccumulator, ColumnsToCareAbout,
};
use crate::lcpc_online::commit::{elements_bytes, padded_words, zero_block};
use crate::lcpc_online::encoding::{all_canonical, field_words};
use crate::lcpc_online::hashing::blake3_digest;
use crate::fields::byte_math::nat_to_le;
use crate::fields::data_field::{from_byte_vec, spec_field_vec_to_byte_vec, spec_from_byte_vec};

verus! {

/// Why a file operation failed.
#[derive(Debug, Clone, Copy, PartialEq, Eq, Structural)]
pub enum FileHandlerError {
    /// The number of encoded columns is not a power of two.
    NotPowerOfTwo,
    /// The edit would reach past the end of the file.
    EditOutOfBounds,
    /// The Merkle tree has the wrong number of nodes for the file.
    TreeSizeMismatch,
    /// The encoded file and the unencoded file do not give the same Merkle tree.
    FilesDisagree,
    /// The column does not exist.
    ColumnOutOfBounds,
    /// A read reached past the end of the unencoded file.
    ReadPastEnd,
    /// The stored tree file is too short to hold a digest.
    TreeFileTooShort,
    /// An operation on the encoded file failed.
    Encoded(EncodedFileError),
    /// The Merkle tree could not be built.
    Tree(MerkleTreeError),
}

/// A stored file in its three forms: the data bytes, the encoded file, and the Merkle
/// tree over the encoded file's column digests.
pub struct FileHandler {
    file_ulid: u128,
    pre_encoded_size: usize,
    encoded_size: usize,
    num_rows: usize,
    total_data_bytes: usize,
    encoding: PoSEncoding,
    unencoded_file_read_writer: Vec<u8>,
    encoded_file_read_writer: EncodedFileReader,
    merkle_tree: MerkleTree,
}

impl FileHandler {
    /// The data bytes.
    pub closed spec fn spec_unencoded(self) -> Seq<u8> {
        self.unencoded_file_read_writer@
    }

    /// The encoded file.
    pub closed spec fn spec_encoded(self) -> EncodedFileReader {
        self.encoded_file_read_writer
    }

    /// The stored Merkle tree.
    pub closed spec fn spec_tree(self) -> MerkleTree {
        self.merkle_tree
    }

    pub closed spec fn spec_pre(self) -> nat {
        self.pre_encoded_size as nat
    }

    pub closed spec fn spec_enc(self) -> nat {
        self.encoded_size as nat
    }

    pub closed spec fn spec_ulid(self) -> u128 {
        self.file_ulid
    }

    /// The three forms have consistent dimensions.
    pub closed spec fn wf(self) -> bool {
        &&& self.encoded_file_read_writer.wf()
        &&& self.encoded_file_read_writer.spec_pre() == self.pre_encoded_size
        &&& self.encoded_file_read_writer.spec_enc() == self.encoded_size
        &&& self.encoding.wf()
        &&& self.encoding.spec_n_per_row() == self.pre_encoded_size
        &&& self.encoding.spec_n_cols() == self.encoded_size
        &&& self.total_data_bytes == self.unencoded_file_read_writer@.len()
        &&& self.pre_encoded_size * 7 <= usize::MAX
        &&& self.merkle_tree.shape_ok()
    }

    /// The encoded file holds exactly the encoding of the data bytes, and the stored tree
    /// is the Merkle tree over its column digests.
    pub open spec fn files_agree(self) -> bool {
        &&& file_encodes(self.spec_encoded(), self.spec_unencoded())
        &&& tree_matches_file(self.spec_tree(), self.spec_encoded())
    }

    /// Opens a stored file from its three forms.
    pub fn new_attach_to_existing_files(
        ulid: u128,
        unencoded_file: Vec<u8>,
        encoded_file: EncodedFileReader,
        merkle_bytes: &[u8],
    ) -> (r: Result<Self, FileHandlerError>)
        requires
            encoded_file.wf(),
            encoded_file.spec_pre() * 7 <= usize::MAX,
        ensures
            r is Ok <==> (spec_is_power_of_two(merkle_bytes@.len() / 32 + 1) && merkle_bytes@.len() / 32 > 2),
            r matches Ok(h) ==> h.wf() && h.spec_unencoded() == unencoded_file@ && h.spec_encoded() == encoded_file
                && h.spec_pre() == encoded_file.spec_pre() && h.spec_enc() == encoded_file.spec_enc()
                && h.spec_ulid() == ulid && h.spec_tree().nodes().len() == merkle_bytes@.len() / 32,
            r matches Err(e) ==> e is Tree,
    {
        let pre_encoded_size = encoded_file.get_pre();
        let encoded_size = encoded_file.get_enc();
        let total_data_bytes = unencoded_file.len();
        let num_rows = crate::lcpc_online::encoded_file_reader::div_ceil(total_data_bytes, pre_encoded_size * 7);
        let merkle_tree = match MerkleTree::from_bytes(merkle_bytes) {
            Ok(t) => t,
            Err(e) => { return Err(FileHandlerError::Tree(e)); },
        };
        Ok(FileHandler {
            file_ulid: ulid,
            pre_encoded_size,
            encoded_size,
            num_rows,
            total_data_bytes,
            encoding: PoSEncoding::new_from_dims(pre_encoded_size, encoded_size),
            unencoded_file_read_writer: unencoded_file,
            encoded_file_read_writer: encoded_file,
            merkle_tree,
        })
    }

    /// Encodes the data bytes of a new file and keeps all three forms.
    pub fn create_from_unencoded_file(
        ulid: u128,
        unencoded_file: Vec<u8>,
        pre_encoded_size: usize,
        encoded_size: usize,
    ) -> (r: Result<Self, FileHandlerError>)
        requires
            conversion_dims_ok(pre_encoded_size as nat, encoded_size as nat) ==> {
                &&& encoded_size <= max_fft_len()
                &&& pre_encoded_size * 7 <= usize::MAX
                &&& encoded_size * (2 * ceil_div(unencoded_file@.len(), pre_encoded_size as nat * 7)) <= usize::MAX
            },
        ensures
            r is Ok <==> (conversion_dims_ok(pre_encoded_size as nat, encoded_size as nat) && encoded_size > 2),
            r matches Err(e) ==> (e == FileHandlerError::NotPowerOfTwo <==> !spec_is_power_of_two(encoded_size as nat)),
            r matches Ok(h) ==> h.wf() && h.files_agree() && h.spec_unencoded() == unencoded_file@ && h.spec_pre()
                == pre_encoded_size && h.spec_enc() == encoded_size && h.spec_ulid() == ulid,
    {
        if encoded_size == 0 || !crate::fields::is_power_of_two(encoded_size) {
            return Err(FileHandlerError::NotPowerOfTwo);
        }
        match EncodedFileWriter::convert_unencoded_file(unencoded_file.as_slice(), pre_encoded_size, encoded_size) {
            Ok((meta, tree, file)) => {
                let total_data_bytes = unencoded_file.len();
                let num_rows = crate::lcpc_online::encoded_file_reader::div_ceil(total_data_bytes, pre_encoded_size * 7);
                Ok(FileHandler {
                    file_ulid: ulid,
                    pre_encoded_size,
                    encoded_size,
                    num_rows,
                    total_data_bytes,
                    encoding: PoSEncoding::new_from_dims(pre_encoded_size, encoded_size),
                    unencoded_file_read_writer: unencoded_file,
                    encoded_file_read_writer: file,
                    merkle_tree: tree,
                })
            },
            Err(e) => {
                proof {
                    assert(spec_is_power_of_two(encoded_size as nat));
                }
                Err(FileHandlerError::Encoded(e))
            },
        }
    }

    /// Encodes the data bytes again from scratch, replacing the encoded file and the
    /// tree.
    pub fn reencode_unencoded_file(&mut self) -> (r: Result<(), FileHandlerError>)
        requires
            old(self).wf(),
            old(self).spec_enc() * (2 * ceil_div(old(self).spec_unencoded().len(), old(self).spec_pre() * 7)) <= usize::MAX,
        ensures
            final(self).wf(),
            final(self).spec_unencoded() == old(self).spec_unencoded(),
            final(self).spec_pre() == old(self).spec_pre(),
            final(self).spec_enc() == old(self).spec_enc(),
            final(self).spec_ulid() == old(self).spec_ulid(),
            r is Ok <==> old(self).spec_enc() > 2,
            r is Ok ==> final(self).files_agree(),
            r matches Err(e) ==> e == FileHandlerError::Encoded(EncodedFileError::Tree(MerkleTreeError::TooSmall))
                && *final(self) == *old(self),
    {
        proof {
            assert(self.encoded_file_read_writer.wf());
        }
        match EncodedFileWriter::convert_unencoded_file(
            self.unencoded_file_read_writer.as_slice(),
            self.pre_encoded_size,
            self.encoded_size,
        ) {
            Ok((meta, tree, file)) => {
                self.total_data_bytes = self.unencoded_file_read_writer.len();
                self.encoded_file_read_writer = file;
                self.merkle_tree = tree;
                Ok(())
            },
            Err(e) => Err(FileHandlerError::Encoded(e)),
        }
    }

    /// Appends data bytes to the file and encodes it again; hands back the new tree.
    pub fn append_bytes(&mut self, bytes_to_add: Vec<u8>) -> (r: Result<MerkleTree, FileHandlerError>)
        requires
            old(self).wf(),
            old(self).spec_unencoded().len() + bytes_to_add@.len() <= usize::MAX,
            old(self).spec_enc() * (2 * ceil_div(
                old(self).spec_unencoded().len() + bytes_to_add@.len(),
                old(self).spec_pre() * 7,
            )) <= usize::MAX,
        ensures
            final(self).wf(),
            final(self).spec_unencoded() == old(self).spec_unencoded() + bytes_to_add@,
            final(self).spec_pre() == old(self).spec_pre(),
            final(self).spec_enc() == old(self).spec_enc(),
            final(self).spec_ulid() == old(self).spec_ulid(),
            r is Ok <==> old(self).spec_enc() > 2,
            r matches Ok(t) ==> final(self).files_agree() && same_tree(t, final(self).spec_tree()),
    {
        let mut added = bytes_to_add;
        self.unencoded_file_read_writer.append(&mut added);
        self.total_data_bytes = self.unencoded_file_read_writer.len();
        match self.reencode_unencoded_file() {
            Ok(()) => self.get_merkle_tree(),
            Err(e) => Err(e),
        }
    }

    /// The stored tree.
    pub fn get_merkle_tree(&self) -> (r: Result<MerkleTree, FileHandlerError>)
        ensures
            r matches Ok(t) ==> same_tree(t, self.spec_tree()),
            r is Ok,
    {
        Ok(self.merkle_tree.clone())
    }

    /// Recomputes the tree from the encoded file and stores it.
    pub fn update_merkle_file(&mut self) -> (r: Result<MerkleTree, FileHandlerError>)
        requires
            old(self).wf(),
        ensures
            final(self).wf(),
            final(self).spec_unencoded() == old(self).spec_unencoded(),
            final(self).spec_encoded() == old(self).spec_encoded(),
            final(self).spec_pre() == old(self).spec_pre(),
            final(self).spec_enc() == old(self).spec_enc(),
            final(self).spec_ulid() == old(self).spec_ulid(),
            r is Ok <==> old(self).spec_enc() > 2,
            r matches Ok(t) ==> same_tree(t, final(self).spec_tree()) && tree_matches_file(t, final(self).spec_encoded()),
    {
        match self.encoded_file_read_writer.process_file_to_merkle_tree() {
            Ok(tree) => {
                self.merkle_tree = tree.clone();
                Ok(tree)
            },
            Err(e) => Err(FileHandlerError::Encoded(e)),
        }
    }
}

/// Two trees have the same nodes and width.
pub open spec fn same_tree(a: MerkleTree, b: MerkleTree) -> bool {
    a.nodes() == b.nodes() && a.spec_width() == b.spec_width()
}

/// A tree with the same nodes and width as one that matches a file matches it too.
pub proof fn lemma_same_tree_matches(a: MerkleTree, b: MerkleTree, f: EncodedFileReader)
    requires
        same_tree(a, b),
        tree_matches_file(a, f),
    ensures
        tree_matches_file(b, f),
{
    assert(a.leaves() == b.leaves());
}

/// The tree is the Merkle tree over the digests of the written part of the file's columns.
pub open spec fn tree_matches_file(t: MerkleTree, f: EncodedFileReader) -> bool {
    &&& t.shape_ok()
    &&& t.links_ok()
    &&& t.spec_width() == f.spec_enc()
    &&& forall|c: int|
        0 <= c < f.spec_enc() ==> (#[trigger] t.leaves()[c])@ == column_digest(
            image_column(f.spec_file(), f.spec_capacity(), c as nat, f.spec_rows_written()),
        )
}

/// `data` with the bytes from `start` on replaced by `new_bytes`.
pub open spec fn spliced(data: Seq<u8>, start: nat, new_bytes: Seq<u8>) -> Seq<u8> {
    data.take(start as int) + new_bytes + data.skip((start + new_bytes.len()) as int)
}

impl FileHandler {
    /// Replaces the data bytes from `byte_start` on with `unencoded_bytes_to_add`,
    /// encodes the rows they touch again, and recomputes the tree; hands back the bytes
    /// that were replaced and the new tree.
    pub fn edit_bytes(&mut self, byte_start: usize, unencoded_bytes_to_add: &[u8]) -> (r: Result<(Vec<u8>, MerkleTree), FileHandlerError>)
        requires
            old(self).wf(),
            byte_start + unencoded_bytes_to_add@.len() <= usize::MAX,
        ensures
            final(self).wf(),
            final(self).spec_pre() == old(self).spec_pre(),
            final(self).spec_enc() == old(self).spec_enc(),
            final(self).spec_ulid() == old(self).spec_ulid(),
            byte_start + unencoded_bytes_to_add@.len() > old(self).spec_unencoded().len() ==> r == Err::<
                (Vec<u8>, MerkleTree),
                FileHandlerError,
            >(FileHandlerError::EditOutOfBounds) && *final(self) == *old(self),
            (byte_start + unencoded_bytes_to_add@.len() <= old(self).spec_unencoded().len() && old(self).files_agree()
                && old(self).spec_enc() > 2) ==> r is Ok,
            r matches Ok((original, tree)) ==> {
                &&& original@ == old(self).spec_unencoded().subrange(
                    byte_start as int,
                    byte_start + unencoded_bytes_to_add@.len(),
                )
                &&& final(self).spec_unencoded() == spliced(
                    old(self).spec_unencoded(),
                    byte_start as nat,
                    unencoded_bytes_to_add@,
                )
                &&& (old(self).files_agree() ==> final(self).files_agree())
                &&& same_tree(tree, final(self).spec_tree())
                &&& tree_matches_file(tree, final(self).spec_encoded())
            },
    {
        let len = unencoded_bytes_to_add.len();
        let end = byte_start + len;
        if end > self.total_data_bytes {
            return Err(FileHandlerError::EditOutOfBounds);
        }
        let ghost old_data = self.unencoded_file_read_writer@;
        let ghost agreed = self.files_agree();
        let mut original: Vec<u8> = Vec::new();
        let mut i: usize = 0;
        while i < len
            invariant
                i <= len,
                end == byte_start + len,
                end <= old_data.len(),
                self.unencoded_file_read_writer@ == old_data,
                original@ =~= old_data.subrange(byte_start as int, byte_start + i),
            decreases len - i,
        {
            original.push(self.unencoded_file_read_writer[byte_start + i]);
            i = i + 1;
        }
        let ghost new_data = spliced(old_data, byte_start as nat, unencoded_bytes_to_add@);
        let mut j: usize = 0;
        while j < len
            invariant
                j <= len,
                self.wf(),
                old_data == old(self).unencoded_file_read_writer@,
                self.pre_encoded_size == old(self).pre_encoded_size,
                self.encoded_size == old(self).encoded_size,
                self.file_ulid == old(self).file_ulid,
                self.merkle_tree == old(self).merkle_tree,
                self.encoded_file_read_writer == old(self).encoded_file_read_writer,
                original@ == old_data.subrange(byte_start as int, byte_start + len),
                end == byte_start + len,
                end <= old_data.len(),
                len == unencoded_bytes_to_add@.len(),
                self.unencoded_file_read_writer@.len() == old_data.len(),
                forall|k: int| 0 <= k < old_data.len() ==> #[trigger] self.unencoded_file_read_writer@[k] == (if byte_start
                    <= k < byte_start + j {
                    unencoded_bytes_to_add@[k - byte_start]
                } else {
                    old_data[k]
                }),
            decreases len - j,
        {
            self.unencoded_file_read_writer.set(byte_start + j, unencoded_bytes_to_add[j]);
            j = j + 1;
        }
        proof {
            assert(self.unencoded_file_read_writer@ =~= new_data);
        }
        let rb = self.pre_encoded_size * 7;
        let start_row = byte_start / rb;
        let end_row = crate::lcpc_online::encoded_file_reader::div_ceil(end, rb);
        let ghost rows = self.encoded_file_read_writer.spec_rows_written();
        proof {
            if agreed {
                lemma_edit_rows(old_data, new_data, byte_start as nat, len as nat, rb as nat, rows);
            }
        }
        proof {
            vstd::arithmetic::div_mod::lemma_div_is_ordered((end + rb - 1) as int, (old_data.len() + rb - 1) as int, rb as int);
        }
        let mut row = start_row;
        while row < end_row
            invariant
                self.wf(),
                end_row <= ceil_div(old_data.len(), rb as nat),
                end <= old_data.len(),
                end == byte_start + unencoded_bytes_to_add@.len(),
                old_data == old(self).unencoded_file_read_writer@,
                agreed == old(self).files_agree(),
                old(self).encoded_size == self.encoded_size,
                original@ == old_data.subrange(byte_start as int, byte_start + unencoded_bytes_to_add@.len()),
                new_data == spliced(old_data, byte_start as nat, unencoded_bytes_to_add@),
                self.unencoded_file_read_writer@ == new_data,
                new_data.len() == old_data.len(),
                rb == self.pre_encoded_size * 7,
                rb > 0,
                start_row <= row,
                self.pre_encoded_size == old(self).pre_encoded_size,
                self.encoded_size == old(self).encoded_size,
                self.file_ulid == old(self).file_ulid,
                self.merkle_tree == old(self).merkle_tree,
                agreed ==> self.encoded_file_read_writer.spec_rows_written() == rows,
                agreed ==> rows == ceil_div(old_data.len(), rb as nat),
                agreed ==> end_row <= rows,
                agreed ==> forall|q: nat|
                    q < rows ==> crate::lcpc_online::encoded_file_writer::row_holds(
                        self.encoded_file_read_writer,
                        #[trigger] row_chunk(new_data, q, rb as nat),
                        q,
                    ) || (row <= q && q < end_row),
                agreed ==> forall|q: nat|
                    q < rows && !(start_row <= q && q < end_row) ==> #[trigger] row_chunk(new_data, q, rb as nat)
                        == row_chunk(old_data, q, rb as nat),
            decreases end_row - row,
        {
            let cap = self.encoded_file_read_writer.get_row_capacity();
            if row >= cap {
                return Err(FileHandlerError::Encoded(EncodedFileError::RowOutOfBounds));
            }
            proof {
                crate::lcpc_online::encoded_file_writer::lemma_row_start_in_data_pub(old_data.len(), rb as nat, row as nat);
            }
            let buf = zero_extended_row(&self.unencoded_file_read_writer, row, rb);
            proof {
                crate::lcpc_online::encoded_file_writer::lemma_chunk_count_pub(rb as nat, self.pre_encoded_size as nat);
            }
            let ghost before = self.encoded_file_read_writer;
            match self.encoded_file_read_writer.replace_row_with_decoded_bytes(row, &buf) {
                Ok(()) => {},
                Err(e) => { return Err(FileHandlerError::Encoded(e)); },
            }
            proof {
                if agreed {
                    let chunk = row_chunk(new_data, row as nat, rb as nat);
                    assert((row + 1) * rb == row * rb + rb) by (nonlinear_arith);
                    assert(chunk.len() <= rb);
                    crate::lcpc_online::encoded_file_reader::lemma_zero_extension_same_row(
                        chunk,
                        self.pre_encoded_size as nat,
                        self.encoded_size as nat,
                    );
                    assert forall|q: nat| q < rows implies crate::lcpc_online::encoded_file_writer::row_holds(
                        self.encoded_file_read_writer,
                        #[trigger] row_chunk(new_data, q, rb as nat),
                        q,
                    ) || (row + 1 <= q && q < end_row) by {
                        if q != row {
                            assert(image_row(
                                self.encoded_file_read_writer.spec_file(),
                                self.encoded_file_read_writer.spec_capacity(),
                                self.encoded_file_read_writer.spec_enc(),
                                q,
                            ) == image_row(before.spec_file(), before.spec_capacity(), before.spec_enc(), q));
                        }
                    }
                }
            }
            row = row + 1;
        }
        let ghost encoded_now = self.encoded_file_read_writer;
        match self.update_merkle_file() {
            Ok(tree) => {
                proof {
                    assert(self.unencoded_file_read_writer@ == new_data);
                    assert(original@ == old(self).spec_unencoded().subrange(
                        byte_start as int,
                        byte_start + unencoded_bytes_to_add@.len(),
                    ));
                    assert(same_tree(tree, self.spec_tree()));
                    assert(tree_matches_file(tree, self.spec_encoded()));
                    if agreed {
                        assert(file_encodes(self.encoded_file_read_writer, new_data));
                        lemma_same_tree_matches(tree, self.spec_tree(), self.spec_encoded());
                        assert(self.files_agree());
                    }
                }
                Ok((original, tree))
            },
            Err(e) => Err(e),
        }
    }
}

/// Row `row` of `data` (rows of `rb` bytes), zero-extended to a full row.
fn zero_extended_row(data: &Vec<u8>, row: usize, rb: usize) -> (r: Vec<u8>)
    requires
        rb > 0,
        row * rb < data@.len(),
    ensures
        r@ == zero_extended(row_chunk(data@, row as nat, rb as nat), rb as nat),
{
    let n = data.len();
    let start = row * rb;
    let mut out: Vec<u8> = Vec::new();
    let mut t: usize = 0;
    while t < rb
        invariant
            t <= rb,
            start == row * rb,
            start < data@.len(),
            out@ =~= zero_extended(row_chunk(data@, row as nat, rb as nat), rb as nat).subrange(0, t as int),
        decreases rb - t,
    {
        proof {
            assert((row + 1) * rb == row * rb + rb) by (nonlinear_arith);
        }
        if t < data.len() - start {
            out.push(data[start + t]);
        } else {
            out.push(0u8);
        }
        t = t + 1;
    }
    out
}

proof fn lemma_edit_rows(old_data: Seq<u8>, new_data: Seq<u8>, start: nat, len: nat, rb: nat, rows: nat)
    requires
        rb > 0,
        start + len <= old_data.len(),
        new_data.len() == old_data.len(),
        forall|k: int| 0 <= k < old_data.len() && !(start <= k < start + len) ==> #[trigger] new_data[k] == old_data[k],
        rows == ceil_div(old_data.len(), rb),
    ensures
        ceil_div(start + len, rb) <= rows,
        forall|q: nat|
            q < rows && !(start / rb <= q && q < ceil_div(start + len, rb)) ==> #[trigger] row_chunk(new_data, q, rb)
                == row_chunk(old_data, q, rb),
{
    let e = start + len;
    vstd::arithmetic::div_mod::lemma_div_is_ordered((e + rb - 1) as int, (old_data.len() + rb - 1) as int, rb as int);
    vstd::arithmetic::div_mod::lemma_fundamental_div_mod((e + rb - 1) as int, rb as int);
    vstd::arithmetic::div_mod::lemma_mod_bound((e + rb - 1) as int, rb as int);
    vstd::arithmetic::div_mod::lemma_fundamental_div_mod(start as int, rb as int);
    vstd::arithmetic::div_mod::lemma_mod_bound(start as int, rb as int);
    assert forall|q: nat| q < rows && !(start / rb <= q && q < ceil_div(e, rb)) implies #[trigger] row_chunk(new_data, q, rb)
        == row_chunk(old_data, q, rb) by {
        if q < start / rb {
            assert((q + 1) * rb <= start) by (nonlinear_arith)
                requires q + 1 <= start / rb, start == rb * (start / rb) + start % rb, rb > 0;
        } else {
            assert(q * rb >= e) by (nonlinear_arith)
                requires
                    q >= ceil_div(e, rb),
                    e + rb - 1 == rb * ceil_div(e, rb) + (e + rb - 1) % (rb as int),
                    (e + rb - 1) % (rb as int) < rb,
                    rb > 0;
        }
        let lo: int = (q * rb) as int;
        let hi: int = if (q + 1) * rb < old_data.len() { ((q + 1) * rb) as int } else { old_data.len() as int };
        assert forall|k: int| lo <= k < hi implies #[trigger] new_data[k] == old_data[k] by {
            if q < start / rb {
                assert(k < start);
            } else {
                assert(k >= e);
            }
        }
        lemma_row_start_in_data_local(old_data.len(), rb, q);
        assert((q + 1) * rb == q * rb + rb) by (nonlinear_arith);
        assert(lo <= hi);
        let a = row_chunk(new_data, q, rb);
        let b = row_chunk(old_data, q, rb);
        assert(a.len() == hi - lo);
        assert(b.len() == hi - lo);
        assert forall|i: int| 0 <= i < hi - lo implies a[i] == b[i] by {
            assert(a[i] == new_data[lo + i]);
            assert(b[i] == old_data[lo + i]);
        }
        assert(a =~= b);
    }
}

proof fn lemma_row_start_in_data_local(len: nat, rb: nat, r: nat)
    requires
        rb > 0,
        r < ceil_div(len, rb),
    ensures
        r * rb < len,
{
    crate::lcpc_online::encoded_file_writer::lemma_row_start_in_data_pub(len, rb, r);
}

impl FileHandler {
    /// Encodes the data bytes again with new dimensions; the file now uses them.
    pub fn reshape(&mut self, new_pre_encoded_columns: usize, new_encoded_columns: usize) -> (r: Result<MerkleTree, FileHandlerError>)
        requires
            old(self).wf(),
            conversion_dims_ok(new_pre_encoded_columns as nat, new_encoded_columns as nat) ==> {
                &&& new_encoded_columns <= max_fft_len()
                &&& new_pre_encoded_columns * 7 <= usize::MAX
                &&& new_encoded_columns * (2 * ceil_div(old(self).spec_unencoded().len(), new_pre_encoded_columns as nat * 7))
                    <= usize::MAX
            },
        ensures
            final(self).wf(),
            final(self).spec_unencoded() == old(self).spec_unencoded(),
            final(self).spec_ulid() == old(self).spec_ulid(),
            r is Ok <==> (conversion_dims_ok(new_pre_encoded_columns as nat, new_encoded_columns as nat)
                && new_encoded_columns > 2),
            r is Ok ==> final(self).files_agree() && final(self).spec_pre() == new_pre_encoded_columns
                && final(self).spec_enc() == new_encoded_columns,
            r matches Ok(t) ==> same_tree(t, final(self).spec_tree()),
            r is Err ==> *final(self) == *old(self),
    {
        match EncodedFileWriter::convert_unencoded_file(
            self.unencoded_file_read_writer.as_slice(),
            new_pre_encoded_columns,
            new_encoded_columns,
        ) {
            Ok((meta, tree, file)) => {
                self.pre_encoded_size = new_pre_encoded_columns;
                self.encoded_size = new_encoded_columns;
                self.encoding = PoSEncoding::new_from_dims(new_pre_encoded_columns, new_encoded_columns);
                self.encoded_file_read_writer = file;
                self.merkle_tree = tree.clone();
                proof {
                    lemma_same_tree_matches(tree, self.merkle_tree, self.encoded_file_read_writer);
                }
                Ok(tree)
            },
            Err(e) => Err(FileHandlerError::Encoded(e)),
        }
    }

    /// The elements of encoded row `row_index`.
    pub fn get_encoded_row(&self, row_index: usize) -> (r: Result<Vec<WriteableFt63>, FileHandlerError>)
        requires
            self.wf(),
        ensures
            r is Ok <==> row_index < self.spec_encoded().spec_capacity(),
            r matches Ok(row) ==> row@ == image_row(
                self.spec_encoded().spec_file(),
                self.spec_encoded().spec_capacity(),
                self.spec_encoded().spec_enc(),
                row_index as nat,
            ),
    {
        match self.encoded_file_read_writer.get_encoded_row(row_index) {
            Ok(row) => Ok(row),
            Err(e) => Err(FileHandlerError::Encoded(e)),
        }
    }

    /// The data elements of row `row_index`, decoded from the encoded file.
    pub fn get_decoded_row(&self, row_index: usize) -> (r: Result<Vec<WriteableFt63>, FileHandlerError>)
        requires
            self.wf(),
        ensures
            r is Ok <==> row_index < self.spec_encoded().spec_capacity(),
            r matches Ok(row) ==> row@ == decoded_row(
                self.spec_encoded().spec_file(),
                self.spec_encoded().spec_capacity(),
                self.spec_encoded().spec_enc(),
                self.spec_pre(),
                row_index as nat,
            ),
    {
        let encoded_row = match self.get_encoded_row(row_index) {
            Ok(row) => row,
            Err(e) => { return Err(e); },
        };
        let decoded = match crate::lcpc_online::encoding::decode_row(encoded_row) {
            Ok(d) => d,
            Err(e) => { return Err(FileHandlerError::Encoded(EncodedFileError::Encode(e))); },
        };
        let mut out: Vec<WriteableFt63> = Vec::new();
        let mut i: usize = 0;
        while i < self.pre_encoded_size
            invariant
                self.wf(),
                i <= self.pre_encoded_size,
                decoded@.len() == self.encoded_size,
                out@ =~= decoded@.subrange(0, i as int),
            decreases self.pre_encoded_size - i,
        {
            out.push(decoded[i]);
            i = i + 1;
        }
        Ok(out)
    }

    /// The data bytes of row `row_index`, decoded from the encoded file.
    pub fn get_decoded_row_bytes(&self, row_index: usize) -> (r: Result<Vec<u8>, FileHandlerError>)
        requires
            self.wf(),
        ensures
            r is Ok <==> row_index < self.spec_encoded().spec_capacity(),
            r matches Ok(bytes) ==> bytes@ == spec_field_vec_to_byte_vec(
                decoded_row(
                    self.spec_encoded().spec_file(),
                    self.spec_encoded().spec_capacity(),
                    self.spec_encoded().spec_enc(),
                    self.spec_pre(),
                    row_index as nat,
                ),
            ),
    {
        match self.get_decoded_row(row_index) {
            Ok(row) => Ok(crate::fields::data_field::field_vec_to_byte_vec(&row)),
            Err(e) => Err(e),
        }
    }

    /// The bytes to store for `tree`, which must have the node count of this file's
    /// tree.
    pub fn write_tree(&self, tree: &MerkleTree) -> (r: Result<Vec<u8>, FileHandlerError>)
        requires
            self.wf(),
        ensures
            r is Ok <==> tree.nodes().len() == self.spec_enc() * 2 - 1,
            r matches Err(e) ==> e == FileHandlerError::TreeSizeMismatch,
            r matches Ok(bytes) ==> bytes@ == crate::lcpc_online::merkle_tree::nodes_to_bytes(tree.nodes()),
    {
        let n = tree.len();
        if n % 2 == 0 || n / 2 + 1 != self.encoded_size {
            return Err(FileHandlerError::TreeSizeMismatch);
        }
        Ok(write_tree_to_file(tree))
    }

    /// Checks that the three forms agree: the Merkle tree recomputed from the encoded
    /// file, the one recomputed by encoding the data bytes again, and the stored one must
    /// be the same tree.
    pub fn verify_all_files_agree(&self) -> (r: Result<(), FileHandlerError>)
        requires
            self.wf(),
        ensures
            r is Ok <==> {
                &&& self.spec_enc() > 2
                &&& tree_matches_file(self.spec_tree(), self.spec_encoded())
                &&& forall|c: int|
                    0 <= c < self.spec_enc() ==> #[trigger] column_digest(
                        data_column(self.spec_unencoded(), self.spec_pre(), self.spec_enc(), c as nat),
                    ) == column_digest(
                        image_column(
                            self.spec_encoded().spec_file(),
                            self.spec_encoded().spec_capacity(),
                            c as nat,
                            self.spec_encoded().spec_rows_written(),
                        ),
                    )
            },
            r matches Err(e) ==> (e == FileHandlerError::Encoded(EncodedFileError::Tree(MerkleTreeError::TooSmall))
                <==> self.spec_enc() <= 2),
            r matches Err(e) ==> e == FileHandlerError::FilesDisagree || e == FileHandlerError::Encoded(
                EncodedFileError::Tree(MerkleTreeError::TooSmall),
            ),
            self.files_agree() && self.spec_enc() > 2 ==> r is Ok,
    {
        let encoded_tree = match self.encoded_file_read_writer.process_file_to_merkle_tree() {
            Ok(t) => t,
            Err(e) => { return Err(FileHandlerError::Encoded(e)); },
        };
        let ghost data = self.unencoded_file_read_writer@;
        let ghost pre = self.pre_encoded_size as nat;
        let ghost enc = self.encoded_size as nat;
        let rb = self.pre_encoded_size * 7;
        let len = self.unencoded_file_read_writer.len();
        let n_rows = crate::lcpc_online::encoded_file_reader::div_ceil(len, rb);
        let mut acc = ColumnDigestAccumulator::new(self.encoded_size, ColumnsToCareAbout::All);
        let mut r: usize = 0;
        while r < n_rows
            invariant
                self.wf(),
                data == self.unencoded_file_read_writer@,
                pre == self.pre_encoded_size,
                enc == self.encoded_size,
                rb == pre * 7,
                len == data.len(),
                n_rows == ceil_div(len as nat, rb as nat),
                r <= n_rows,
                acc.columns_mode() == ColumnsToCareAbout::All,
                acc.absorbed().len() == enc,
                forall|c: int|
                    0 <= c < enc ==> #[trigger] acc.absorbed()[c] == zero_block() + elements_bytes(
                        data_column(data, pre, enc, c as nat).take(r as int),
                    ),
            decreases n_rows - r,
        {
            proof {
                lemma_row_start_in_data_pub(len as nat, rb as nat, r as nat);
                assert(r * rb + rb == (r + 1) * rb) by (nonlinear_arith);
            }
            let start = r * rb;
            let end = if len - start < rb { len } else { start + rb };
            let chunk = slice_of(&self.unencoded_file_read_writer, start, end);
            proof {
                assert(chunk@ =~= row_chunk(data, r as nat, rb as nat));
            }
            let row = encode_data_chunk(chunk.as_slice(), &self.encoding);
            let ghost before = acc.absorbed();
            let _ = acc.update(row.as_slice());
            proof {
                assert forall|c: int| 0 <= c < enc implies #[trigger] acc.absorbed()[c] == zero_block() + elements_bytes(
                    data_column(data, pre, enc, c as nat).take(r + 1),
                ) by {
                    let col = data_column(data, pre, enc, c as nat);
                    assert(col.take(r + 1).drop_last() =~= col.take(r as int));
                    assert(col.take(r + 1).last() == row@[c]);
                }
            }
            r = r + 1;
        }
        proof {
            assert forall|c: int| 0 <= c < enc implies #[trigger] acc.absorbed()[c] == zero_block() + elements_bytes(
                data_column(data, pre, enc, c as nat),
            ) by {
                assert(data_column(data, pre, enc, c as nat).take(n_rows as int) =~= data_column(data, pre, enc, c as nat));
            }
        }
        let data_tree = match acc.finalize_to_merkle_tree() {
            Ok(t) => t,
            Err(_) => { return Err(FileHandlerError::FilesDisagree); },
        };
        let same_encoded = data_tree.eq(&encoded_tree);
        let same_stored = encoded_tree.eq(&self.merkle_tree);
        proof {
            assert forall|c: int| 0 <= c < enc implies (#[trigger] data_tree.leaves()[c])@ == column_digest(
                data_column(data, pre, enc, c as nat),
            ) by {
                assert(acc.absorbed()[c] == zero_block() + elements_bytes(data_column(data, pre, enc, c as nat)));
            }
            lemma_tree_agreement(data_tree, encoded_tree, self.merkle_tree, self.encoded_file_read_writer, data, pre);
            assert(same_stored == tree_matches_file(self.spec_tree(), self.spec_encoded()));
            assert(self.spec_unencoded() == data);
            assert(self.spec_pre() == pre);
            assert(self.spec_enc() == enc);
        }
        if same_encoded && same_stored {
            Ok(())
        } else {
            Err(FileHandlerError::FilesDisagree)
        }
    }

    /// The digests of the listed columns (all of them for `All`), read from the stored
    /// tree.
    pub fn read_only_digests(&self, columns_to_care_about: ColumnsToCareAbout) -> (r: Result<Vec<[u8; 32]>, FileHandlerError>)
        requires
            self.wf(),
            columns_to_care_about matches ColumnsToCareAbout::Only(v) ==> forall|i: int|
                0 <= i < v@.len() ==> #[trigger] v@[i] < self.spec_tree().nodes().len(),
            columns_to_care_about is All ==> self.spec_enc() <= self.spec_tree().nodes().len(),
        ensures
            r matches Ok(ds) ==> ds@.len() == listed_columns(columns_to_care_about, self.spec_enc()).len()
                && forall|i: int|
                0 <= i < ds@.len() ==> #[trigger] ds@[i] == self.spec_tree().nodes()[listed_columns(
                    columns_to_care_about,
                    self.spec_enc(),
                )[i] as int],
            r is Ok,
    {
        let column_indices = column_list(columns_to_care_about, self.encoded_size);
        let mut return_digests: Vec<[u8; 32]> = Vec::new();
        let mut i: usize = 0;
        while i < column_indices.len()
            invariant
                self.wf(),
                i <= column_indices@.len(),
                forall|k: int| 0 <= k < column_indices@.len() ==> #[trigger] column_indices@[k] < self.spec_tree().nodes().len(),
                return_digests@.len() == i,
                forall|k: int| 0 <= k < i ==> #[trigger] return_digests@[k] == self.spec_tree().nodes()[column_indices@[k] as int],
            decreases column_indices.len() - i,
        {
            return_digests.push(self.merkle_tree.index(column_indices[i]));
            i = i + 1;
        }
        Ok(return_digests)
    }

    /// Opens the listed columns (all of them for `All`): the written part of each column
    /// of the encoded file with its path in the stored tree.
    pub fn read_full_columns(&self, columns_to_care_about: ColumnsToCareAbout) -> (r: Result<Vec<PoSColumn>, FileHandlerError>)
        requires
            self.wf(),
        ensures
            r is Ok <==> forall|i: int|
                0 <= i < listed_columns(columns_to_care_about, self.spec_enc()).len() ==> #[trigger] listed_columns(
                    columns_to_care_about,
                    self.spec_enc(),
                )[i] < self.spec_enc() && self.spec_enc() <= self.spec_tree().spec_width(),
            r matches Ok(cols) ==> cols@.len() == listed_columns(columns_to_care_about, self.spec_enc()).len()
                && forall|i: int|
                0 <= i < cols@.len() ==> {
                    let c = listed_columns(columns_to_care_about, self.spec_enc())[i] as nat;
                    &&& (#[trigger] cols@[i]).col@ == image_column(
                        self.spec_encoded().spec_file(),
                        self.spec_encoded().spec_capacity(),
                        c,
                        self.spec_encoded().spec_rows_written(),
                    )
                    &&& cols@[i].path@ == spec_path(self.spec_tree().nodes(), self.spec_tree().spec_width(), c)
                },
    {
        let column_indices = column_list(columns_to_care_about, self.encoded_size);
        let flen = self.encoded_file_read_writer.file_len();
        let mut return_columns: Vec<PoSColumn> = Vec::new();
        let mut i: usize = 0;
        while i < column_indices.len()
            invariant
                self.wf(),
                i <= column_indices@.len(),
                column_indices@ == listed_columns(columns_to_care_about, self.spec_enc()),
                flen == self.spec_encoded().spec_file().len(),
                forall|k: int| 0 <= k < i ==> #[trigger] column_indices@[k] < self.spec_enc() && self.spec_enc() <= self.spec_tree().spec_width(),
                return_columns@.len() == i,
                forall|k: int|
                    0 <= k < i ==> {
                        let c = column_indices@[k] as nat;
                        &&& (#[trigger] return_columns@[k]).col@ == image_column(
                            self.spec_encoded().spec_file(),
                            self.spec_encoded().spec_capacity(),
                            c,
                            self.spec_encoded().spec_rows_written(),
                        )
                        &&& return_columns@[k].path@ == spec_path(self.spec_tree().nodes(), self.spec_tree().spec_width(), c)
                    },
            decreases column_indices.len() - i,
        {
            let c = column_indices[i];
            if c >= self.encoded_size || self.encoded_size > self.merkle_tree.width() {
                return Err(FileHandlerError::ColumnOutOfBounds);
            }
            proof {
                lemma_column_in_file(c as nat, self.spec_encoded().spec_capacity(), self.spec_encoded().spec_rows_written(), self.encoded_size as nat);
            }
            let col = match self.encoded_file_read_writer.get_encoded_column_without_path(c) {
                Ok(col) => col,
                Err(e) => { return Err(FileHandlerError::Encoded(e)); },
            };
            let path = match self.merkle_tree.get_path(c) {
                Some(p) => p,
                None => { return Err(FileHandlerError::ColumnOutOfBounds); },
            };
            return_columns.push(PoSColumn { col, path });
            i = i + 1;
        }
        Ok(return_columns)
    }

    /// The first `byte_end - byte_start` data bytes of the file (read from its start).
    pub fn get_unencoded_bytes(&self, byte_start: usize, byte_end: usize) -> (r: Result<Vec<u8>, FileHandlerError>)
        requires
            self.wf(),
            byte_start <= byte_end,
        ensures
            r is Ok <==> byte_end - byte_start <= self.spec_unencoded().len(),
            r matches Err(e) ==> e == FileHandlerError::ReadPastEnd,
            r matches Ok(bytes) ==> bytes@ == self.spec_unencoded().take(byte_end - byte_start),
    {
        let n = byte_end - byte_start;
        if n > self.unencoded_file_read_writer.len() {
            return Err(FileHandlerError::ReadPastEnd);
        }
        let mut out: Vec<u8> = Vec::new();
        let mut i: usize = 0;
        while i < n
            invariant
                i <= n,
                n <= self.unencoded_file_read_writer@.len(),
                out@ =~= self.unencoded_file_read_writer@.take(i as int),
            decreases n - i,
        {
            out.push(self.unencoded_file_read_writer[i]);
            i = i + 1;
        }
        Ok(out)
    }

    /// Number of data bytes.
    pub fn get_total_unencoded_bytes(&self) -> (r: usize)
        requires
            self.wf(),
        ensures
            r == self.spec_unencoded().len(),
    {
        self.total_data_bytes
    }

    /// Number of data bytes.
    pub fn get_total_data_bytes(&self) -> (r: usize)
        requires
            self.wf(),
        ensures
            r == self.spec_unencoded().len(),
    {
        self.total_data_bytes
    }

    /// The commitment root: the root of the stored tree.
    pub fn get_commit_root(&self) -> (r: Result<PoSRoot, FileHandlerError>)
        requires
            self.wf(),
        ensures
            r matches Ok(root) ==> root.root == self.spec_tree().spec_root(),
            r is Ok,
    {
        Ok(PoSRoot { root: self.merkle_tree.root() })
    }

    /// Data elements per row, encoded elements per row, and the number of rows the data
    /// filled when the file was opened.
    pub fn get_dimensions(&self) -> (r: Result<(usize, usize, usize), FileHandlerError>)
        ensures
            r matches Ok(d) ==> d.0 == self.spec_pre() && d.1 == self.spec_enc(),
            r is Ok,
    {
        Ok((self.pre_encoded_size, self.encoded_size, self.num_rows))
    }

    /// What describes the encoded file.
    pub fn get_encoded_metadata(&self) -> (r: crate::lcpc_online::encoded_file_writer::EncodedFileMetadata)
        requires
            self.wf(),
        ensures
            r.ulid == self.spec_ulid(),
            r.pre_encoded_size == self.spec_pre(),
            r.encoded_size == self.spec_enc(),
            r.rows_written == self.spec_encoded().spec_rows_written(),
            r.row_capacity == self.spec_encoded().spec_capacity(),
            r.bytes_of_data == self.spec_unencoded().len(),
    {
        crate::lcpc_online::encoded_file_writer::EncodedFileMetadata {
            ulid: self.file_ulid,
            pre_encoded_size: self.pre_encoded_size,
            encoded_size: self.encoded_size,
            rows_written: self.encoded_file_read_writer.get_rows_written(),
            row_capacity: self.encoded_file_read_writer.get_row_capacity(),
            bytes_of_data: self.total_data_bytes,
        }
    }

    /// The data bytes.
    pub fn unencoded_bytes(&self) -> (r: &Vec<u8>)
        ensures
            r@ == self.spec_unencoded(),
    {
        &self.unencoded_file_read_writer
    }

    /// The encoded file.
    pub fn encoded_file(&self) -> (r: &EncodedFileReader)
        ensures
            *r == self.spec_encoded(),
    {
        &self.encoded_file_read_writer
    }
}

/// The bytes `v[start..end]`.
fn slice_of(v: &Vec<u8>, start: usize, end: usize) -> (r: Vec<u8>)
    requires
        start <= end <= v@.len(),
    ensures
        r@ == v@.subrange(start as int, end as int),
{
    let mut out: Vec<u8> = Vec::new();
    let mut i: usize = start;
    while i < end
        invariant
            start <= i <= end,
            end <= v@.len(),
            out@ =~= v@.subrange(start as int, i as int),
        decreases end - i,
    {
        out.push(v[i]);
        i = i + 1;
    }
    out
}

/// How the three trees relate: a tree recomputed from the data and one recomputed from
/// the encoded file are the same tree exactly when their leaves agree, and the stored
/// tree is the encoded file's tree exactly when it matches the file.
proof fn lemma_tree_agreement(
    data_tree: MerkleTree,
    encoded_tree: MerkleTree,
    stored: MerkleTree,
    f: EncodedFileReader,
    data: Seq<u8>,
    pre: nat,
)
    requires
        tree_matches_file(encoded_tree, f),
        data_tree.shape_ok(),
        data_tree.links_ok(),
        data_tree.spec_width() == f.spec_enc(),
        stored.shape_ok(),
        forall|c: int|
            0 <= c < f.spec_enc() ==> (#[trigger] data_tree.leaves()[c])@ == column_digest(
                data_column(data, pre, f.spec_enc(), c as nat),
            ),
    ensures
        (data_tree.nodes() == encoded_tree.nodes() && data_tree.spec_width() == encoded_tree.spec_width()) <==> (
        forall|c: int|
            0 <= c < f.spec_enc() ==> #[trigger] column_digest(data_column(data, pre, f.spec_enc(), c as nat))
                == column_digest(image_column(f.spec_file(), f.spec_capacity(), c as nat, f.spec_rows_written()))),
        (encoded_tree.nodes() == stored.nodes() && encoded_tree.spec_width() == stored.spec_width()) <==> tree_matches_file(stored, f),
        file_encodes(f, data) && f.spec_pre() == pre ==> forall|c: int|
            0 <= c < f.spec_enc() ==> #[trigger] column_digest(data_column(data, pre, f.spec_enc(), c as nat))
                == column_digest(image_column(f.spec_file(), f.spec_capacity(), c as nat, f.spec_rows_written())),
{
    let enc = f.spec_enc();
    let cols_agree = forall|c: int|
        0 <= c < enc ==> #[trigger] column_digest(data_column(data, pre, enc, c as nat))
            == column_digest(image_column(f.spec_file(), f.spec_capacity(), c as nat, f.spec_rows_written()));
    if cols_agree {
        assert forall|c: int| 0 <= c < data_tree.spec_width() implies (#[trigger] data_tree.leaves()[c])@
            == encoded_tree.leaves()[c]@ by {
            assert(column_digest(data_column(data, pre, enc, c as nat)) == column_digest(
                image_column(f.spec_file(), f.spec_capacity(), c as nat, f.spec_rows_written()),
            ));
        }
        lemma_trees_with_same_leaves(data_tree, encoded_tree);
    }
    if data_tree.nodes() == encoded_tree.nodes() && data_tree.spec_width() == encoded_tree.spec_width() {
        assert forall|c: int| 0 <= c < enc implies #[trigger] column_digest(data_column(data, pre, enc, c as nat))
            == column_digest(image_column(f.spec_file(), f.spec_capacity(), c as nat, f.spec_rows_written())) by {
            assert(data_tree.leaves()[c] == encoded_tree.leaves()[c]);
        }
    }
    if tree_matches_file(stored, f) {
        assert forall|c: int| 0 <= c < encoded_tree.spec_width() implies (#[trigger] encoded_tree.leaves()[c])@
            == stored.leaves()[c]@ by {
        }
        lemma_trees_with_same_leaves(encoded_tree, stored);
    }
    if encoded_tree.nodes() == stored.nodes() && encoded_tree.spec_width() == stored.spec_width() {
        assert(encoded_tree.leaves() == stored.leaves());
    }
    if file_encodes(f, data) && f.spec_pre() == pre {
        assert forall|c: int| 0 <= c < enc implies #[trigger] column_digest(data_column(data, pre, enc, c as nat))
            == column_digest(image_column(f.spec_file(), f.spec_capacity(), c as nat, f.spec_rows_written())) by {
            assert(data_column(data, pre, enc, c as nat) =~= image_column(
                f.spec_file(),
                f.spec_capacity(),
                c as nat,
                f.spec_rows_written(),
            )) by {
                lemma_data_column_is_image_column(f, data, c as nat);
            }
        }
    }
}

/// When a file holds the encoding of `data`, each of its columns is the matching column of
/// that encoding.
proof fn lemma_data_column_is_image_column(f: EncodedFileReader, data: Seq<u8>, c: nat)
    requires
        file_encodes(f, data),
        c < f.spec_enc(),
    ensures
        data_column(data, f.spec_pre(), f.spec_enc(), c) == image_column(
            f.spec_file(),
            f.spec_capacity(),
            c,
            f.spec_rows_written(),
        ),
{
    let rb = f.spec_pre() * data_cap();
    let cap = f.spec_capacity();
    let a = data_column(data, f.spec_pre(), f.spec_enc(), c);
    let b = image_column(f.spec_file(), cap, c, f.spec_rows_written());
    lemma_column_in_file(c, cap, f.spec_rows_written(), f.spec_enc());
    assert forall|r: int| 0 <= r < a.len() implies a[r] == b[r] by {
        assert(row_holds(f, row_chunk(data, r as nat, rb), r as nat));
    }
    assert(a =~= b);
}

/// Column `c` of the encoding of `data` cut into rows of `pre * 7` bytes: one element
/// per row.
pub open spec fn data_column(data: Seq<u8>, pre: nat, enc: nat, c: nat) -> Seq<WriteableFt63> {
    let rb = pre * data_cap();
    Seq::new(ceil_div(data.len(), rb), |r: int| encoded_data_row(row_chunk(data, r as nat, rb), enc)[c as int])
}

/// The encoded row that holds the data bytes `chunk`.
fn encode_data_chunk(chunk: &[u8], encoding: &PoSEncoding) -> (r: Vec<WriteableFt63>)
    requires
        encoding.wf(),
        chunk@.len() <= encoding.spec_n_per_row() * 7,
    ensures
        r@ == encoded_data_row(chunk@, encoding.spec_n_cols()),
        r@.len() == encoding.spec_n_cols(),
{
    let elems = from_byte_vec::<WriteableFt63>(chunk);
    let n_cols = encoding.get_n_cols();
    proof {
        if chunk@.len() > 0 {
            lemma_chunk_count_pub(chunk@.len(), encoding.spec_n_per_row());
        }
    }
    let mut row: Vec<WriteableFt63> = Vec::new();
    let mut k: usize = 0;
    while k < n_cols
        invariant
            k <= n_cols,
            n_cols == encoding.spec_n_cols(),
            elems@ == spec_from_byte_vec::<WriteableFt63>(chunk@),
            elems@.len() < n_cols,
            row@.len() == k,
            forall|t: int| 0 <= t < k ==> (#[trigger] row@[t]).value() as u64 == padded_words(elems@, n_cols as nat)[t],
        decreases n_cols - k,
    {
        if k < elems.len() {
            row.push(elems[k]);
        } else {
            row.push(WriteableFt63::zero());
        }
        k = k + 1;
    }
    proof {
        assert(field_words(row@) =~= padded_words(elems@, n_cols as nat));
    }
    encoding.encode(&row)
}

/// The column positions a request lists: every column for `All`.
pub open spec fn listed_columns(columns: ColumnsToCareAbout, n: nat) -> Seq<usize> {
    match columns {
        ColumnsToCareAbout::All => Seq::new(n, |i: int| i as usize),
        ColumnsToCareAbout::Only(v) => v@,
    }
}

fn column_list(columns: ColumnsToCareAbout, n: usize) -> (r: Vec<usize>)
    ensures
        r@ == listed_columns(columns, n as nat),
{
    match columns {
        ColumnsToCareAbout::All => {
            let mut out: Vec<usize> = Vec::new();
            let mut i: usize = 0;
            while i < n
                invariant
                    i <= n,
                    out@ =~= Seq::new(i as nat, |k: int| k as usize),
                decreases n - i,
            {
                out.push(i);
                i = i + 1;
            }
            out
        },
        ColumnsToCareAbout::Only(v) => v,
    }
}

proof fn lemma_column_in_file(c: nat, cap: nat, rows: nat, enc: nat)
    requires
        c < enc,
        rows <= cap,
    ensures
        c * cap + rows <= enc * cap,
{
    assert(c * cap + rows <= enc * cap) by (nonlinear_arith)
        requires c < enc, rows <= cap;
}

/// Reads a Merkle tree from the bytes of its stored file.
pub fn read_tree(tree_bytes: &[u8]) -> (r: Result<MerkleTree, FileHandlerError>)
    requires
        tree_bytes@.len() >= 32,
    ensures
        r is Ok <==> (spec_is_power_of_two(tree_bytes@.len() / 32 + 1) && tree_bytes@.len() / 32 > 2),
        r matches Ok(t) ==> t.shape_ok() && t.nodes().len() == tree_bytes@.len() / 32 && forall|i: int, s: int|
            0 <= i < t.nodes().len() && 0 <= s < 32 ==> #[trigger] t.nodes()[i][s] == tree_bytes@[32 * i + s],
{
    match MerkleTree::from_bytes(tree_bytes) {
        Ok(t) => Ok(t),
        Err(e) => Err(FileHandlerError::Tree(e)),
    }
}

/// The bytes to store for a Merkle tree.
pub fn write_tree_to_file(tree: &MerkleTree) -> (r: Vec<u8>)
    ensures
        r@ == crate::lcpc_online::merkle_tree::nodes_to_bytes(tree.nodes()),
{
    tree.to_bytes()
}

} // verus!

