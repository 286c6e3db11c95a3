use vstd::prelude::*;

use crate::fields::byte_math::nat_to_le;
use crate::fields::data_field::{from_byte_vec, spec_from_byte_vec};
use crate::fields::writable_ft63::WriteableFt63;
use crate::lcpc_online::column_digest_accumulator::{ColumnDigestAccumulator, ColumnsToCareAbout};
use crate::lcpc_online::commit::{column_digest, elements_bytes, padded_words, zero_block};
use crate::lcpc_online::encoded_file_reader::{
    ceil_div, div_ceil, image_column, image_row, image_with_row, image_recapacitated, lemma_image_with_row_column,
    lemma_image_with_row_rows, lemma_recap_column, lemma_recap_rows, EncodedFileError, EncodedFileReader,
};
use crate::fields::data_field::{lemma_num_chunks_cover, num_chunks};
use crate::lcpc_online::encoding::{all_canonical, field_words};
use crate::lcpc_online::encoded_file_reader::{decoded_bytes, decoded_row};
use crate::fields::data_field::{
    lemma_byte_vec_roundtrip, lemma_field_vec_bytes_index, lemma_field_vec_bytes_len, padded_chunk,
    spec_field_vec_to_byte_vec, DataField,
};
use crate::lcpc_online::encoding::{
    canonical_elements, fft_io_of, ifft_oi_of, max_fft_len, spec_dims_ok, PoSEncoding,
};
use crate::lcpc_online::hashing::blake3_digest;
use crate::lcpc_online::merkle_tree::MerkleTree;
use crate::fields::spec_is_power_of_two;

verus! {

/// Number of data bytes each element of the 63-bit field carries.
pub open spec fn data_cap() -> nat {
    7
}

/// The bytes of row `r` when `b` is cut into rows of `rb` bytes (the last one shorter).
pub open spec fn row_chunk(b: Seq<u8>, r: nat, rb: nat) -> Seq<u8> {
    b.subrange((r * rb) as int, if (r + 1) * rb < b.len() { ((r + 1) * rb) as int } else { b.len() as int })
}

/// The encoded row holding the data bytes `bytes`: their elements, zero-padded to
/// `enc`, transformed.
pub open spec fn encoded_data_row(bytes: Seq<u8>, enc: nat) -> Seq<WriteableFt63> {
    canonical_elements(fft_io_of(padded_words(spec_from_byte_vec::<WriteableFt63>(bytes), enc)))
}

/// Row `r` of `file` is the encoding of the data bytes `chunk`, and decodes back to
/// their elements followed by zeros.
pub open spec fn row_holds(file: EncodedFileReader, chunk: Seq<u8>, r: nat) -> bool {
    let row = image_row(file.spec_file(), file.spec_capacity(), file.spec_enc(), r);
    &&& row == encoded_data_row(chunk, file.spec_enc())
    &&& ifft_oi_of(field_words(row)) == padded_words(spec_from_byte_vec::<WriteableFt63>(chunk), file.spec_enc())
}

/// What describes an encoded file: its identifier, its dimensions and how much data it
/// holds.
#[derive(Debug, Clone, Copy, PartialEq, Eq, Structural)]
pub struct EncodedFileMetadata {
    pub ulid: u128,
    pub pre_encoded_size: usize,
    pub encoded_size: usize,
    pub rows_written: usize,
    pub row_capacity: usize,
    pub bytes_of_data: usize,
}

/// Encodes a stream of data bytes into an encoded file: rows of `pre_encoded_size`
/// elements are encoded into `encoded_size` elements and written column-major, while
/// the digest of every column is kept up to date.  Columns are doubled in length when
/// they fill up.
pub struct EncodedFileWriter {
    encoding: PoSEncoding,
    column_digest_accumulator: ColumnDigestAccumulator,
    incoming_byte_buffer: Vec<u8>,
    bytes_received: usize,
    bytes_written: usize,
    rows_processed: usize,
    file_to_write_to: EncodedFileReader,
    pre_encoded_size: usize,
    encoded_size: usize,
    received: Ghost<Seq<u8>>,
    initial_capacity: Ghost<nat>,
}

impl EncodedFileWriter {
    /// Every byte pushed so far.
    pub closed spec fn spec_received(self) -> Seq<u8> {
        self.received@
    }

    /// The file written so far.
    pub closed spec fn spec_file(self) -> EncodedFileReader {
        self.file_to_write_to
    }

    pub closed spec fn spec_pre(self) -> nat {
        self.pre_encoded_size as nat
    }

    pub closed spec fn spec_enc(self) -> nat {
        self.encoded_size as nat
    }

    /// Number of data bytes a full row holds.
    pub open spec fn row_bytes(self) -> nat {
        self.spec_pre() * data_cap()
    }

    /// The rows made so far are the encodings of the bytes consumed so far, cut into
    /// rows, and the column digests follow the written rows.
    pub closed spec fn rows_consistent(self) -> bool {
        let rb = self.row_bytes();
        let f = self.file_to_write_to;
        let rows = f.spec_rows_written();
        &&& f.wf()
        &&& f.spec_pre() == self.pre_encoded_size
        &&& f.spec_enc() == self.encoded_size
        &&& self.encoding.wf()
        &&& self.encoding.spec_n_per_row() == self.pre_encoded_size
        &&& self.encoding.spec_n_cols() == self.encoded_size
        &&& rb <= usize::MAX
        &&& self.rows_processed == rows
        &&& self.bytes_received == self.received@.len()
        &&& self.bytes_written <= self.bytes_received
        &&& rows == ceil_div(self.bytes_written as nat, rb)
        &&& (rows < f.spec_capacity() || (rows == 0 && f.spec_capacity() == 0))
        &&& (f.spec_capacity() == self.initial_capacity@ || f.spec_capacity() <= 2 * rows)
        &&& forall|r: nat| r < rows ==> row_holds(f, #[trigger] row_chunk(self.received@.take(self.bytes_written as int), r, rb), r)
        &&& self.column_digest_accumulator.columns_mode() == ColumnsToCareAbout::All
        &&& self.column_digest_accumulator.absorbed().len() == self.encoded_size
        &&& forall|c: int|
            0 <= c < self.encoded_size ==> #[trigger] self.column_digest_accumulator.absorbed()[c] == zero_block()
                + elements_bytes(image_column(f.spec_file(), f.spec_capacity(), c as nat, rows))
    }

    /// Every full row pushed so far is encoded and written; the rest waits in the buffer.
    pub closed spec fn wf(self) -> bool {
        &&& self.rows_consistent()
        &&& self.bytes_written == self.file_to_write_to.spec_rows_written() * self.row_bytes()
        &&& self.incoming_byte_buffer@ == self.received@.skip(self.bytes_written as int)
        &&& self.incoming_byte_buffer@.len() < self.row_bytes()
    }

    /// A writer for a file of about `original_file_size` data bytes: the columns start
    /// with room for twice the rows that many bytes fill.
    pub fn new(num_pre_encoded_columns: usize, num_encoded_columns: usize, original_file_size: usize) -> (r: Self)
        requires
            num_pre_encoded_columns > 0,
            spec_dims_ok(num_pre_encoded_columns as nat, num_encoded_columns as nat),
            num_encoded_columns <= max_fft_len(),
            num_pre_encoded_columns * 7 <= usize::MAX,
            num_encoded_columns * (2 * ceil_div(ceil_div(original_file_size as nat, 7), num_pre_encoded_columns as nat))
                <= usize::MAX,
        ensures
            r.wf(),
            r.spec_received() == Seq::<u8>::empty(),
            r.spec_pre() == num_pre_encoded_columns,
            r.spec_enc() == num_encoded_columns,
            r.spec_file().spec_rows_written() == 0,
            r.spec_file().spec_capacity() == 2 * ceil_div(ceil_div(original_file_size as nat, 7), num_pre_encoded_columns as nat),
    {
        let column_digest_accumulator = ColumnDigestAccumulator::new(num_encoded_columns, ColumnsToCareAbout::All);
        let encoding = PoSEncoding::new_from_dims(num_pre_encoded_columns, num_encoded_columns);
        let num_rows = div_ceil(div_ceil(original_file_size, 7), num_pre_encoded_columns);
        proof {
            assert(num_rows * 2 <= num_encoded_columns * (2 * num_rows)) by (nonlinear_arith)
                requires num_encoded_columns >= 1;
            assert(num_rows * 2 * num_encoded_columns == num_encoded_columns * (2 * num_rows)) by (nonlinear_arith);
        }
        let row_capacity = num_rows * 2;
        let total = row_capacity * num_encoded_columns;
        let mut zeros: Vec<WriteableFt63> = Vec::new();
        let mut i: usize = 0;
        while i < total
            invariant
                i <= total,
                zeros@.len() == i,
                forall|k: int| 0 <= k < i ==> #[trigger] zeros@[k] == WriteableFt63::spec_zero(),
            decreases total - i,
        {
            zeros.push(WriteableFt63::zero());
            i = i + 1;
        }
        proof {
            assert(total == num_encoded_columns * row_capacity) by (nonlinear_arith)
                requires total == row_capacity * num_encoded_columns;
        }
        let file_to_write_to = EncodedFileReader::new_ligero(zeros, num_pre_encoded_columns, num_encoded_columns, 0, row_capacity);
        let w = EncodedFileWriter {
            encoding,
            column_digest_accumulator,
            incoming_byte_buffer: Vec::new(),
            bytes_received: 0,
            bytes_written: 0,
            rows_processed: 0,
            file_to_write_to,
            pre_encoded_size: num_pre_encoded_columns,
            encoded_size: num_encoded_columns,
            received: Ghost(Seq::empty()),
            initial_capacity: Ghost(row_capacity as nat),
        };
        proof {
            assert forall|c: int| 0 <= c < num_encoded_columns implies #[trigger] w.column_digest_accumulator.absorbed()[c]
                == zero_block() + elements_bytes(
                image_column(w.file_to_write_to.spec_file(), w.file_to_write_to.spec_capacity(), c as nat, 0),
            ) by {
                let col = image_column(w.file_to_write_to.spec_file(), w.file_to_write_to.spec_capacity(), c as nat, 0);
                assert(c * row_capacity <= num_encoded_columns * row_capacity) by (nonlinear_arith)
                    requires 0 <= c < num_encoded_columns;
                assert(col =~= Seq::<WriteableFt63>::empty());
                assert(zero_block() + elements_bytes(col) =~= zero_block());
            }
            assert(w.incoming_byte_buffer@ =~= w.received@.skip(0));
            let rb = (num_pre_encoded_columns * 7) as nat;
            assert(rb > 0);
            vstd::arithmetic::div_mod::lemma_basic_div((rb - 1) as int, rb as int);
            assert(ceil_div(0, rb) == 0);
        }
        w
    }

    /// What describes the file written so far.
    pub fn get_encoded_file_metadata(&self) -> (r: EncodedFileMetadata)
        requires
            self.wf(),
        ensures
            r.ulid == 0,
            r.pre_encoded_size == self.spec_pre(),
            r.encoded_size == self.spec_enc(),
            r.rows_written == self.spec_file().spec_rows_written(),
            r.row_capacity == self.spec_file().spec_capacity(),
            r.bytes_of_data == self.spec_received().len(),
    {
        EncodedFileMetadata {
            ulid: 0,
            pre_encoded_size: self.pre_encoded_size,
            encoded_size: self.encoded_size,
            rows_written: self.file_to_write_to.get_rows_written(),
            row_capacity: self.file_to_write_to.get_row_capacity(),
            bytes_of_data: self.bytes_received,
        }
    }
}

impl EncodedFileWriter {
    /// Encodes `chunk` (the next bytes after those consumed, at most a row's worth) as
    /// the next row: its digests are fed, it is written, and the columns are doubled in
    /// length when they fill up.
    fn process_row(&mut self, chunk: Vec<u8>)
        requires
            old(self).rows_consistent(),
            old(self).bytes_written == old(self).file_to_write_to.spec_rows_written() * old(self).row_bytes(),
            0 < chunk@.len() <= old(self).row_bytes(),
            old(self).bytes_written + chunk@.len() <= old(self).bytes_received,
            chunk@ == old(self).received@.subrange(
                old(self).bytes_written as int,
                old(self).bytes_written + chunk@.len(),
            ),
            old(self).file_to_write_to.spec_capacity() > 0,
            old(self).spec_enc() * (2 * (old(self).file_to_write_to.spec_rows_written() + 1)) <= usize::MAX,
        ensures
            final(self).rows_consistent(),
            final(self).bytes_written == old(self).bytes_written + chunk@.len(),
            final(self).file_to_write_to.spec_rows_written() == old(self).file_to_write_to.spec_rows_written() + 1,
            final(self).received == old(self).received,
            final(self).bytes_received == old(self).bytes_received,
            final(self).incoming_byte_buffer == old(self).incoming_byte_buffer,
            final(self).pre_encoded_size == old(self).pre_encoded_size,
            final(self).encoded_size == old(self).encoded_size,
            final(self).initial_capacity == old(self).initial_capacity,
            old(self).file_to_write_to.spec_rows_written() + 1 < old(self).file_to_write_to.spec_capacity()
                ==> final(self).file_to_write_to.spec_capacity() == old(self).file_to_write_to.spec_capacity(),
    {
        let ghost rb = self.row_bytes();
        let ghost enc = self.encoded_size as nat;
        let ghost bw = self.bytes_written as nat;
        let ghost rows = self.file_to_write_to.spec_rows_written();
        let elems = from_byte_vec::<WriteableFt63>(chunk.as_slice());
        proof {
            lemma_chunk_count(chunk@.len(), self.pre_encoded_size as nat);
        }
        let mut row: Vec<WriteableFt63> = Vec::new();
        let mut k: usize = 0;
        while k < self.encoded_size
            invariant
                k <= self.encoded_size,
                elems@.len() <= self.pre_encoded_size,
                self.pre_encoded_size < self.encoded_size,
                row@.len() == k,
                forall|t: int| 0 <= t < k ==> (#[trigger] row@[t]).value() as u64 == padded_words(elems@, self.encoded_size as nat)[t],
            decreases self.encoded_size - k,
        {
            if k < elems.len() {
                row.push(elems[k]);
            } else {
                row.push(WriteableFt63::zero());
            }
            k = k + 1;
        }
        proof {
            assert(field_words(row@) =~= padded_words(elems@, self.encoded_size as nat));
        }
        let encoded = self.encoding.encode(&row);
        let ghost acc = self.column_digest_accumulator.absorbed();
        let ghost old_img = self.file_to_write_to.spec_file();
        let ghost cap = self.file_to_write_to.spec_capacity();
        let _ = self.column_digest_accumulator.update(&encoded);
        let cur = self.file_to_write_to.get_rows_written();
        let cap_before = self.file_to_write_to.get_row_capacity();
        let _ = self.file_to_write_to.replace_encoded_row(cur, &encoded);
        let ghost mid_img = self.file_to_write_to.spec_file();
        proof {
            lemma_chunks_after_row(self.received@, bw, chunk@.len(), rb, rows);
            assert forall|r: nat| r < rows + 1 implies row_holds(
                self.file_to_write_to,
                #[trigger] row_chunk(self.received@.take((bw + chunk@.len()) as int), r, rb),
                r,
            ) by {
                lemma_image_with_row_rows(old_img, cap, enc, rows, encoded@, r);
                if r < rows {
                    assert(row_chunk(self.received@.take((bw + chunk@.len()) as int), r, rb) == row_chunk(
                        self.received@.take(bw as int),
                        r,
                        rb,
                    ));
                    assert(row_holds(old(self).file_to_write_to, row_chunk(self.received@.take(bw as int), r, rb), r));
                }
            }
            assert forall|c: int| 0 <= c < enc implies #[trigger] self.column_digest_accumulator.absorbed()[c]
                == zero_block() + elements_bytes(image_column(mid_img, cap, c as nat, rows + 1)) by {
                lemma_image_with_row_column(old_img, cap, enc, rows, encoded@, c as nat);
                let col = image_column(old_img, cap, c as nat, rows);
                assert(col.push(encoded@[c]).drop_last() =~= col);
                crate::fields::writable_ft63::lemma_mont_value_bound(encoded@[c].repr());
                assert(zero_block() + elements_bytes(col) + nat_to_le(encoded@[c].value(), 8) =~= zero_block()
                    + elements_bytes(col.push(encoded@[c])));
            }
        }
        proof {
            assert(self.rows_processed == rows);
            assert(rows < cap_before);
        }
        self.bytes_written = self.bytes_written + chunk.len();
        self.rows_processed = self.rows_processed + 1;
        let cap_now = self.file_to_write_to.get_row_capacity();
        if cur + 1 == cap_now {
            proof {
                assert(enc * (2 * cap_now) <= usize::MAX);
                assert(2 * cap_now <= enc * (2 * cap_now)) by (nonlinear_arith)
                    requires enc >= 1;
            }
            let _ = self.file_to_write_to.set_new_capacity(2 * cap_now);
            proof {
                let new_img = self.file_to_write_to.spec_file();
                let new_cap = (2 * cap_now) as nat;
                assert forall|r: nat| r < rows + 1 implies row_holds(
                    self.file_to_write_to,
                    #[trigger] row_chunk(self.received@.take((bw + chunk@.len()) as int), r, rb),
                    r,
                ) by {
                    lemma_recap_rows(mid_img, cap, enc, new_cap, r);
                }
                assert forall|c: int| 0 <= c < enc implies #[trigger] self.column_digest_accumulator.absorbed()[c]
                    == zero_block() + elements_bytes(image_column(new_img, new_cap, c as nat, rows + 1)) by {
                    lemma_recap_column(mid_img, cap, enc, new_cap, c as nat, rows + 1);
                }
            }
        }
    }
}

/// At most `pre * 7` bytes fill at most `pre` elements.
pub proof fn lemma_chunk_count_pub(len: nat, pre: nat)
    requires
        0 < len <= pre * 7,
    ensures
        num_chunks(len, 7) <= pre,
{
    lemma_chunk_count(len, pre);
}

proof fn lemma_chunk_count(len: nat, pre: nat)
    requires
        0 < len <= pre * 7,
    ensures
        num_chunks(len, 7) <= pre,
{
    vstd::arithmetic::div_mod::lemma_fundamental_div_mod(len as int, 7);
    vstd::arithmetic::div_mod::lemma_mod_bound(len as int, 7);
    assert(len / 7 <= pre) by (nonlinear_arith)
        requires len <= pre * 7, len == 7 * (len / 7) + len % 7, 0 <= len % 7;
    if len % 7 != 0 {
        assert(len / 7 < pre) by (nonlinear_arith)
            requires len <= pre * 7, len == 7 * (len / 7) + len % 7, 0 < len % 7;
    }
}

proof fn lemma_chunks_after_row(received: Seq<u8>, bw: nat, len: nat, rb: nat, rows: nat)
    requires
        bw == rows * rb,
        0 < len <= rb,
        bw + len <= received.len(),
    ensures
        forall|r: nat|
            r < rows ==> #[trigger] row_chunk(received.take((bw + len) as int), r, rb) == row_chunk(
                received.take(bw as int),
                r,
                rb,
            ),
        row_chunk(received.take((bw + len) as int), rows, rb) == received.subrange(bw as int, (bw + len) as int),
        ceil_div(bw + len, rb) == rows + 1,
{
    assert forall|r: nat| r < rows implies #[trigger] row_chunk(received.take((bw + len) as int), r, rb) == row_chunk(
        received.take(bw as int),
        r,
        rb,
    ) by {
        assert((r + 1) * rb <= rows * rb) by (nonlinear_arith)
            requires r < rows;
        assert(r * rb + rb == (r + 1) * rb) by (nonlinear_arith);
        assert(row_chunk(received.take((bw + len) as int), r, rb) =~= row_chunk(received.take(bw as int), r, rb));
    }
    assert((rows + 1) * rb == rows * rb + rb) by (nonlinear_arith);
    assert(row_chunk(received.take((bw + len) as int), rows, rb) =~= received.subrange(bw as int, (bw + len) as int));
    vstd::arithmetic::div_mod::lemma_fundamental_div_mod_converse(
        (bw + len + rb - 1) as int,
        rb as int,
        (rows + 1) as int,
        (len - 1) as int,
    );
}

/// Whether `file` holds exactly the encoding of `data`: one row per `pre * 7` data
/// bytes (the last row zero-padded), each row encoded.
pub open spec fn file_encodes(file: EncodedFileReader, data: Seq<u8>) -> bool {
    let rb = file.spec_pre() * data_cap();
    &&& file.wf()
    &&& file.spec_rows_written() == ceil_div(data.len(), rb)
    &&& forall|r: nat| r < file.spec_rows_written() ==> row_holds(file, #[trigger] row_chunk(data, r, rb), r)
}

impl EncodedFileWriter {
    /// Takes in more data bytes, encoding and writing every full row they complete.
    pub fn push_bytes(&mut self, bytes: &[u8]) -> (r: Result<(), EncodedFileError>)
        requires
            old(self).wf(),
            old(self).spec_received().len() + bytes@.len() <= usize::MAX,
            old(self).spec_enc() * (2 * ceil_div(old(self).spec_received().len() + bytes@.len(), old(self).row_bytes()))
                <= usize::MAX,
            old(self).spec_file().spec_capacity() > 0 || old(self).spec_received().len() + bytes@.len() < old(self).row_bytes(),
        ensures
            r is Ok,
            final(self).wf(),
            final(self).spec_received() == old(self).spec_received() + bytes@,
            final(self).spec_pre() == old(self).spec_pre(),
            final(self).spec_enc() == old(self).spec_enc(),
            ceil_div(old(self).spec_received().len() + bytes@.len(), old(self).row_bytes()) < old(self).spec_file().spec_capacity()
                ==> final(self).spec_file().spec_capacity() == old(self).spec_file().spec_capacity(),
    {
        let ghost total = self.received@ + bytes@;
        let ghost rb = self.row_bytes();
        self.bytes_received = self.bytes_received + bytes.len();
        self.received = Ghost(total);
        let mut i: usize = 0;
        let mut extended: Vec<u8> = Vec::new();
        std::mem::swap(&mut extended, &mut self.incoming_byte_buffer);
        let ghost buf0 = extended@;
        while i < bytes.len()
            invariant
                i <= bytes@.len(),
                extended@ == buf0 + bytes@.subrange(0, i as int),
            decreases bytes.len() - i,
        {
            extended.push(bytes[i]);
            i = i + 1;
        }
        self.incoming_byte_buffer = extended;
        proof {
            assert(bytes@.subrange(0, bytes@.len() as int) =~= bytes@);
            assert(self.incoming_byte_buffer@ =~= total.skip(self.bytes_written as int));
            assert forall|r: nat| r < self.file_to_write_to.spec_rows_written() implies
                #[trigger] row_chunk(total.take(self.bytes_written as int), r, rb) == row_chunk(
                old(self).received@.take(self.bytes_written as int),
                r,
                rb,
            ) by {
                assert(total.take(self.bytes_written as int) =~= old(self).received@.take(self.bytes_written as int));
            }
        }
        let rbx = self.pre_encoded_size * 7;
        while self.incoming_byte_buffer.len() >= rbx
            invariant
                rbx == rb,
                rb == self.row_bytes(),
                rb > 0,
                self.rows_consistent(),
                self.received@ == total,
                self.bytes_written == self.file_to_write_to.spec_rows_written() * rb,
                self.incoming_byte_buffer@ == total.skip(self.bytes_written as int),
                self.pre_encoded_size == old(self).pre_encoded_size,
                self.encoded_size == old(self).encoded_size,
                self.spec_enc() * (2 * ceil_div(total.len(), rb)) <= usize::MAX,
                self.file_to_write_to.spec_capacity() > 0 || total.len() < rb,
                ceil_div(total.len(), rb) < old(self).file_to_write_to.spec_capacity() ==> self.file_to_write_to.spec_capacity()
                    == old(self).file_to_write_to.spec_capacity(),
            decreases self.incoming_byte_buffer@.len(),
        {
            let mut chunk: Vec<u8> = Vec::new();
            std::mem::swap(&mut chunk, &mut self.incoming_byte_buffer);
            let rest = chunk.split_off(rbx);
            self.incoming_byte_buffer = rest;
            proof {
                let rows = self.file_to_write_to.spec_rows_written();
                assert(rows + 1 <= ceil_div(total.len(), rb)) by {
                    lemma_rows_below_total(total.len(), rb, rows);
                }
                assert(2 * (rows + 1) <= 2 * ceil_div(total.len(), rb));
                assert(self.spec_enc() * (2 * (rows + 1)) <= self.spec_enc() * (2 * ceil_div(total.len(), rb)))
                    by (nonlinear_arith)
                    requires 2 * (rows + 1) <= 2 * ceil_div(total.len(), rb);
                assert(self.file_to_write_to.spec_capacity() > 0);
                assert(self.row_bytes() == rb);
                assert(self.bytes_written == self.file_to_write_to.spec_rows_written() * self.row_bytes());
                assert(chunk@ =~= total.subrange(self.bytes_written as int, self.bytes_written + chunk@.len()));
            }
            self.process_row(chunk);
            proof {
                assert(self.incoming_byte_buffer@ =~= total.skip(self.bytes_written as int));
                assert((self.file_to_write_to.spec_rows_written()) * rb == (self.file_to_write_to.spec_rows_written() - 1) * rb + rb)
                    by (nonlinear_arith)
                    requires self.file_to_write_to.spec_rows_written() >= 1;
            }
        }
        Ok(())
    }

    /// Encodes the last, partial row if any bytes wait in the buffer.
    fn finish(&mut self)
        requires
            old(self).wf(),
            old(self).spec_enc() * (2 * ceil_div(old(self).spec_received().len(), old(self).row_bytes())) <= usize::MAX,
            old(self).spec_file().spec_capacity() > 0 || old(self).spec_received().len() == 0,
        ensures
            final(self).rows_consistent(),
            final(self).bytes_written == final(self).bytes_received,
            final(self).received == old(self).received,
            final(self).pre_encoded_size == old(self).pre_encoded_size,
            final(self).encoded_size == old(self).encoded_size,
            ceil_div(old(self).spec_received().len(), old(self).row_bytes()) < old(self).spec_file().spec_capacity()
                ==> final(self).spec_file().spec_capacity() == old(self).spec_file().spec_capacity(),
    {
        if self.incoming_byte_buffer.len() > 0 {
            let mut chunk: Vec<u8> = Vec::new();
            std::mem::swap(&mut chunk, &mut self.incoming_byte_buffer);
            proof {
                let rb = self.row_bytes();
                let rows = self.file_to_write_to.spec_rows_written();
                let total = self.received@;
                assert(rows + 1 <= ceil_div(total.len(), rb)) by {
                    lemma_rows_below_total_partial(total.len(), rb, rows);
                }
                assert(self.spec_enc() * (2 * (rows + 1)) <= self.spec_enc() * (2 * ceil_div(total.len(), rb)))
                    by (nonlinear_arith)
                    requires 2 * (rows + 1) <= 2 * ceil_div(total.len(), rb);
                assert(chunk@ =~= total.subrange(self.bytes_written as int, self.bytes_written + chunk@.len()));
                assert(self.file_to_write_to.spec_capacity() > 0);
            }
            self.process_row(chunk);
        }
    }

    /// Encodes what is left in the buffer and hands back what describes the file, the
    /// digest of every column, and the file.
    pub fn finalize_to_column_digest(self) -> (r: Result<(EncodedFileMetadata, Vec<[u8; 32]>, EncodedFileReader), EncodedFileError>)
        requires
            self.wf(),
            self.spec_enc() * (2 * ceil_div(self.spec_received().len(), self.row_bytes())) <= usize::MAX,
            self.spec_file().spec_capacity() > 0 || self.spec_received().len() == 0,
        ensures
            r matches Ok((meta, digests, file)) ==> {
                &&& file_encodes(file, self.spec_received())
                &&& file.spec_pre() == self.spec_pre() && file.spec_enc() == self.spec_enc()
                &&& meta.pre_encoded_size == self.spec_pre() && meta.encoded_size == self.spec_enc()
                &&& meta.rows_written == file.spec_rows_written() && meta.row_capacity == file.spec_capacity()
                &&& meta.bytes_of_data == self.spec_received().len() && meta.ulid == 0
                &&& (ceil_div(self.spec_received().len(), self.row_bytes()) < self.spec_file().spec_capacity()
                    ==> file.spec_capacity() == self.spec_file().spec_capacity())
                &&& digests@.len() == self.spec_enc()
                &&& forall|c: int| 0 <= c < self.spec_enc() ==> (#[trigger] digests@[c])@ == column_digest(
                    image_column(file.spec_file(), file.spec_capacity(), c as nat, file.spec_rows_written()),
                )
            },
            r is Ok,
    {
        let mut me = self;
        me.finish();
        let meta = EncodedFileMetadata {
            ulid: 0,
            pre_encoded_size: me.pre_encoded_size,
            encoded_size: me.encoded_size,
            rows_written: me.file_to_write_to.get_rows_written(),
            row_capacity: me.file_to_write_to.get_row_capacity(),
            bytes_of_data: me.bytes_received,
        };
        let ghost absorbed = me.column_digest_accumulator.absorbed();
        let ghost f = me.file_to_write_to;
        proof {
            assert(me.received@.take(me.bytes_written as int) =~= me.received@);
        }
        let digests = me.column_digest_accumulator.get_column_digests();
        Ok((meta, digests, me.file_to_write_to))
    }

    /// Encodes what is left in the buffer and hands back what describes the file, the
    /// Merkle tree over the column digests, and the file.
    pub fn finalize_to_merkle_tree(self) -> (r: Result<(EncodedFileMetadata, MerkleTree, EncodedFileReader), EncodedFileError>)
        requires
            self.wf(),
            self.spec_enc() * (2 * ceil_div(self.spec_received().len(), self.row_bytes())) <= usize::MAX,
            self.spec_file().spec_capacity() > 0 || self.spec_received().len() == 0,
        ensures
            r is Ok <==> self.spec_enc() > 2,
            r matches Ok((meta, tree, file)) ==> {
                &&& file_encodes(file, self.spec_received())
                &&& file.spec_pre() == self.spec_pre() && file.spec_enc() == self.spec_enc()
                &&& meta.pre_encoded_size == self.spec_pre() && meta.encoded_size == self.spec_enc()
                &&& meta.rows_written == file.spec_rows_written() && meta.row_capacity == file.spec_capacity()
                &&& meta.bytes_of_data == self.spec_received().len() && meta.ulid == 0
                &&& (ceil_div(self.spec_received().len(), self.row_bytes()) < self.spec_file().spec_capacity()
                    ==> file.spec_capacity() == self.spec_file().spec_capacity())
                &&& tree.shape_ok() && tree.links_ok() && tree.spec_width() == self.spec_enc()
                &&& forall|c: int| 0 <= c < self.spec_enc() ==> (#[trigger] tree.leaves()[c])@ == column_digest(
                    image_column(file.spec_file(), file.spec_capacity(), c as nat, file.spec_rows_written()),
                )
            },
            r matches Err(e) ==> e == EncodedFileError::Tree(crate::lcpc_online::merkle_tree::MerkleTreeError::TooSmall),
    {
        let enc = self.encoded_size;
        match self.finalize_to_column_digest() {
            Ok((meta, digests, file)) => {
                match MerkleTree::new(&digests) {
                    Ok(tree) => {
                        proof {
                            assert forall|c: int| 0 <= c < enc implies (#[trigger] tree.leaves()[c])@ == column_digest(
                                image_column(file.spec_file(), file.spec_capacity(), c as nat, file.spec_rows_written()),
                            ) by {
                                assert(tree.leaves()[c] == digests@[c]);
                            }
                        }
                        Ok((meta, tree, file))
                    },
                    Err(e) => Err(EncodedFileError::Tree(e)),
                }
            },
            Err(e) => Err(e),
        }
    }

    /// Encodes what is left in the buffer and hands back what describes the file, the
    /// Merkle root over the column digests, and the file.
    pub fn finalize_to_commit(self) -> (r: Result<(EncodedFileMetadata, [u8; 32], EncodedFileReader), EncodedFileError>)
        requires
            self.wf(),
            self.spec_enc() * (2 * ceil_div(self.spec_received().len(), self.row_bytes())) <= usize::MAX,
            self.spec_file().spec_capacity() > 0 || self.spec_received().len() == 0,
        ensures
            r is Ok <==> self.spec_enc() > 2,
            r matches Ok((meta, root, file)) ==> {
                &&& file_encodes(file, self.spec_received())
                &&& meta.bytes_of_data == self.spec_received().len()
                &&& meta.rows_written == file.spec_rows_written() && meta.row_capacity == file.spec_capacity()
                &&& exists|t: MerkleTree| #![trigger t.spec_root()] t.spec_root() == root && t.shape_ok() && t.links_ok()
                    && t.spec_width() == self.spec_enc() && forall|c: int| 0 <= c < self.spec_enc() ==> (#[trigger] t.leaves()[c])@
                    == column_digest(image_column(file.spec_file(), file.spec_capacity(), c as nat, file.spec_rows_written()))
            },
    {
        match self.finalize_to_merkle_tree() {
            Ok((meta, tree, file)) => {
                let root = tree.root();
                Ok((meta, root, file))
            },
            Err(e) => Err(e),
        }
    }
}

proof fn lemma_rows_below_total(total: nat, rb: nat, rows: nat)
    requires
        rb > 0,
        rows * rb + rb <= total,
    ensures
        rows + 1 <= ceil_div(total, rb),
{
    vstd::arithmetic::div_mod::lemma_fundamental_div_mod((total + rb - 1) as int, rb as int);
    vstd::arithmetic::div_mod::lemma_mod_bound((total + rb - 1) as int, rb as int);
    assert(rows + 1 <= ceil_div(total, rb)) by (nonlinear_arith)
        requires
            rb > 0,
            rows * rb + rb <= total,
            total + rb - 1 == rb * ceil_div(total, rb) + (total + rb - 1) % (rb as int),
            (total + rb - 1) % (rb as int) < rb;
}

proof fn lemma_rows_below_total_partial(total: nat, rb: nat, rows: nat)
    requires
        rb > 0,
        rows * rb < total,
    ensures
        rows + 1 <= ceil_div(total, rb),
{
    vstd::arithmetic::div_mod::lemma_fundamental_div_mod((total + rb - 1) as int, rb as int);
    vstd::arithmetic::div_mod::lemma_mod_bound((total + rb - 1) as int, rb as int);
    assert(rows + 1 <= ceil_div(total, rb)) by (nonlinear_arith)
        requires
            rb > 0,
            rows * rb + 1 <= total,
            total + rb - 1 == rb * ceil_div(total, rb) + (total + rb - 1) % (rb as int),
            (total + rb - 1) % (rb as int) < rb;
}

/// `data` followed by zeros up to length `n`.
pub open spec fn zero_extended(data: Seq<u8>, n: nat) -> Seq<u8> {
    Seq::new(n, |j: int| if j < data.len() { data[j] } else { 0u8 })
}

/// A row that holds the data bytes `chunk` (at most a row's worth) decodes to those
/// bytes followed by zeros.
pub proof fn lemma_row_decodes_to(file: EncodedFileReader, chunk: Seq<u8>, r: nat)
    requires
        file.wf(),
        row_holds(file, chunk, r),
        chunk.len() <= file.spec_pre() * 7,
    ensures
        spec_field_vec_to_byte_vec(
            decoded_row(file.spec_file(), file.spec_capacity(), file.spec_enc(), file.spec_pre(), r),
        ) == zero_extended(chunk, file.spec_pre() * 7),
{
    let pre = file.spec_pre();
    let enc = file.spec_enc();
    let rb = pre * 7;
    let e = spec_from_byte_vec::<WriteableFt63>(chunk);
    let m = e.len();
    let dr = decoded_row(file.spec_file(), file.spec_capacity(), enc, pre, r);
    if chunk.len() > 0 {
        lemma_chunk_count(chunk.len(), pre);
    } else {
        assert(num_chunks(0, 7) == 0);
    }
    assert(m == num_chunks(chunk.len(), 7));
    let zeros = Seq::new((pre - m) as nat, |i: int| WriteableFt63::spec_zero());
    assert(dr =~= e + zeros) by {
        assert forall|i: int| 0 <= i < pre implies #[trigger] dr[i] == (e + zeros)[i] by {
            WriteableFt63::lemma_spec_zero();
            if i < m {
                WriteableFt63::lemma_data_element_canonical(padded_chunk(chunk, i as nat, 7));
                crate::fields::writable_ft63::lemma_mont_value_bound(e[i].repr());
                WriteableFt63::lemma_canonical_is_from_value(e[i]);
            } else {
                WriteableFt63::lemma_canonical_is_from_value(WriteableFt63::spec_zero());
            }
        }
    }
    let bytes = spec_field_vec_to_byte_vec(dr);
    lemma_field_vec_bytes_len(dr);
    lemma_field_vec_bytes_len(e);
    lemma_byte_vec_roundtrip::<WriteableFt63>(chunk);
    WriteableFt63::lemma_zero_data_bytes();
    assert forall|j: int| 0 <= j < rb implies #[trigger] bytes[j] == zero_extended(chunk, rb)[j] by {
        let i = j / 7;
        let t = j % 7;
        vstd::arithmetic::div_mod::lemma_fundamental_div_mod(j, 7);
        assert(0 <= i < pre) by (nonlinear_arith)
            requires j == 7 * i + t, 0 <= t < 7, 0 <= j < pre * 7;
        lemma_field_vec_bytes_index(dr, i as nat, t as nat);
        if i < m {
            lemma_field_vec_bytes_index(e, i as nat, t as nat);
            assert(dr[i] == e[i]);
        } else {
            assert(dr[i] == WriteableFt63::spec_zero());
            assert(j >= 7 * m) by (nonlinear_arith)
                requires j == 7 * i + t, i >= m, t >= 0;
            assert(7 * m >= chunk.len()) by {
                crate::fields::data_field::lemma_num_chunks_cover(chunk.len(), 7);
            }
        }
    }
    assert(bytes =~= zero_extended(chunk, rb));
}

proof fn lemma_decoded_row_is_data(file: EncodedFileReader, data: Seq<u8>, r: nat)
    requires
        file_encodes(file, data),
        r < file.spec_rows_written(),
    ensures
        spec_field_vec_to_byte_vec(
            decoded_row(file.spec_file(), file.spec_capacity(), file.spec_enc(), file.spec_pre(), r),
        ) == zero_extended(row_chunk(data, r, file.spec_pre() * 7), file.spec_pre() * 7),
{
    let rb = file.spec_pre() * 7;
    let chunk = row_chunk(data, r, rb);
    assert(row_holds(file, chunk, r));
    lemma_row_start_in_data(data.len(), rb, r);
    assert((r + 1) * rb == r * rb + rb) by (nonlinear_arith);
    lemma_row_decodes_to(file, chunk, r);
}

/// Every written row of a file that holds the encoding of some data decodes to a full
/// row of bytes.
pub proof fn lemma_written_rows_full(file: EncodedFileReader, data: Seq<u8>)
    requires
        file_encodes(file, data),
    ensures
        forall|q: nat|
            q < file.spec_rows_written() ==> #[trigger] crate::lcpc_online::encoded_file_reader::row_bytes(
                file.spec_file(),
                file.spec_capacity(),
                file.spec_enc(),
                file.spec_pre(),
                q,
            ).len() == file.spec_pre() * 7,
{
    assert forall|q: nat| q < file.spec_rows_written() implies #[trigger] crate::lcpc_online::encoded_file_reader::row_bytes(
        file.spec_file(),
        file.spec_capacity(),
        file.spec_enc(),
        file.spec_pre(),
        q,
    ).len() == file.spec_pre() * 7 by {
        lemma_decoded_row_is_data(file, data, q);
    }
}

proof fn lemma_decoded_prefix(file: EncodedFileReader, data: Seq<u8>, k: nat)
    requires
        file_encodes(file, data),
        k <= file.spec_rows_written(),
    ensures
        decoded_bytes(file.spec_file(), file.spec_capacity(), file.spec_enc(), file.spec_pre(), k) == zero_extended(
            data,
            k * (file.spec_pre() * 7),
        ),
    decreases k,
{
    let rb = file.spec_pre() * 7;
    let db = decoded_bytes(file.spec_file(), file.spec_capacity(), file.spec_enc(), file.spec_pre(), k);
    if k == 0 {
        assert(db =~= zero_extended(data, 0));
    } else {
        lemma_decoded_prefix(file, data, (k - 1) as nat);
        lemma_decoded_row_is_data(file, data, (k - 1) as nat);
        let prev = zero_extended(data, ((k - 1) * rb) as nat);
        let chunk = row_chunk(data, (k - 1) as nat, rb);
        assert(k * rb == (k - 1) * rb + rb) by (nonlinear_arith)
            requires k >= 1;
        let rowb = spec_field_vec_to_byte_vec(
            decoded_row(file.spec_file(), file.spec_capacity(), file.spec_enc(), file.spec_pre(), (k - 1) as nat),
        );
        assert(db == decoded_bytes(file.spec_file(), file.spec_capacity(), file.spec_enc(), file.spec_pre(), (k - 1) as nat)
            + rowb);
        assert(rowb == zero_extended(chunk, rb));
        assert(db.len() == k * rb);
        lemma_row_start_in_data(data.len(), rb, (k - 1) as nat);
        assert(((k - 1) + 1) * rb == k * rb) by (nonlinear_arith);
        assert forall|j: int| 0 <= j < k * rb implies #[trigger] db[j] == zero_extended(data, k * rb)[j] by {
            if j >= (k - 1) * rb {
                let t = j - (k - 1) * rb;
                assert(db[j] == rowb[t]);
                assert(zero_extended(chunk, rb)[t] == (if t < chunk.len() { chunk[t] } else { 0u8 }));
                if t < chunk.len() {
                    assert(chunk[t] == data[j]);
                } else {
                    assert(j >= data.len());
                }
            } else {
                assert(db[j] == prev[j]);
            }
        }
        assert(db =~= zero_extended(data, k * rb));
    }
}

/// A row before the last row that `len` bytes fill starts inside the data.
pub proof fn lemma_row_start_in_data_pub(len: nat, rb: nat, r: nat)
    requires
        rb > 0,
        r < ceil_div(len, rb),
    ensures
        r * rb < len,
{
    lemma_row_start_in_data(len, rb, r);
}

proof fn lemma_row_start_in_data(len: nat, rb: nat, r: nat)
    requires
        rb > 0,
        r < ceil_div(len, rb),
    ensures
        r * rb < len,
{
    vstd::arithmetic::div_mod::lemma_fundamental_div_mod((len + rb - 1) as int, rb as int);
    vstd::arithmetic::div_mod::lemma_mod_bound((len + rb - 1) as int, rb as int);
    assert(r * rb < len) by (nonlinear_arith)
        requires
            rb > 0,
            r < ceil_div(len, rb),
            len + rb - 1 == rb * ceil_div(len, rb) + (len + rb - 1) % (rb as int),
            (len + rb - 1) % (rb as int) >= 0;
}

/// Decoding an encoded file gives back the data it was written from, followed by the
/// zeros that fill its last row.
pub proof fn lemma_decode_after_encode(file: EncodedFileReader, data: Seq<u8>)
    requires
        file_encodes(file, data),
    ensures
        decoded_bytes(file.spec_file(), file.spec_capacity(), file.spec_enc(), file.spec_pre(), file.spec_rows_written())
            == zero_extended(data, file.spec_rows_written() * (file.spec_pre() * 7)),
        file.spec_rows_written() * (file.spec_pre() * 7) >= data.len(),
{
    let rb = file.spec_pre() * 7;
    lemma_decoded_prefix(file, data, file.spec_rows_written());
    vstd::arithmetic::div_mod::lemma_fundamental_div_mod((data.len() + rb - 1) as int, rb as int);
    vstd::arithmetic::div_mod::lemma_mod_bound((data.len() + rb - 1) as int, rb as int);
    assert(file.spec_rows_written() * rb >= data.len()) by (nonlinear_arith)
        requires
            rb > 0,
            file.spec_rows_written() == ceil_div(data.len(), rb),
            data.len() + rb - 1 == rb * ceil_div(data.len(), rb) + (data.len() + rb - 1) % (rb as int),
            (data.len() + rb - 1) % (rb as int) < rb;
}

/// Whether data columns and encoded columns make a usable encoding.
pub open spec fn conversion_dims_ok(pre: nat, enc: nat) -> bool {
    pre >= 1 && enc >= 2 && spec_is_power_of_two(enc) && enc > pre
}

impl EncodedFileWriter {
    /// Encodes the data bytes of a file into an encoded file, checking the dimensions
    /// first; hands back what describes the encoded file, the Merkle tree over its
    /// column digests, and the encoded file.
    pub fn convert_unencoded_file(
        unencoded_file: &[u8],
        num_pre_encoded_columns: usize,
        num_encoded_columns: usize,
    ) -> (r: Result<(EncodedFileMetadata, MerkleTree, EncodedFileReader), EncodedFileError>)
        requires
            conversion_dims_ok(num_pre_encoded_columns as nat, num_encoded_columns as nat) ==> {
                &&& num_encoded_columns <= max_fft_len()
                &&& num_pre_encoded_columns * 7 <= usize::MAX
                &&& num_encoded_columns * (2 * ceil_div(unencoded_file@.len(), num_pre_encoded_columns as nat * 7))
                    <= usize::MAX
            },
        ensures
            r is Ok <==> (conversion_dims_ok(num_pre_encoded_columns as nat, num_encoded_columns as nat)
                && num_encoded_columns > 2),
            r matches Err(e) ==> (e == EncodedFileError::InvalidDimensions <==> !conversion_dims_ok(
                num_pre_encoded_columns as nat,
                num_encoded_columns as nat,
            )),
            r matches Err(e) ==> (e == EncodedFileError::InvalidDimensions || e == EncodedFileError::Tree(
                crate::lcpc_online::merkle_tree::MerkleTreeError::TooSmall,
            )),
            r matches Ok((meta, tree, file)) ==> {
                &&& file_encodes(file, unencoded_file@)
                &&& decoded_bytes(file.spec_file(), file.spec_capacity(), file.spec_enc(), file.spec_pre(), meta.rows_written as nat)
                    == zero_extended(unencoded_file@, (meta.rows_written * (num_pre_encoded_columns * 7)) as nat)
                &&& meta.rows_written * (num_pre_encoded_columns * 7) >= unencoded_file@.len()
                &&& file.spec_pre() == num_pre_encoded_columns && file.spec_enc() == num_encoded_columns
                &&& meta.pre_encoded_size == num_pre_encoded_columns && meta.encoded_size == num_encoded_columns
                &&& meta.rows_written == file.spec_rows_written() && meta.row_capacity == file.spec_capacity()
                &&& meta.bytes_of_data == unencoded_file@.len() && meta.ulid == 0
                &&& (unencoded_file@.len() > 0 ==> file.spec_capacity() == 2 * file.spec_rows_written())
                &&& tree.shape_ok() && tree.links_ok() && tree.spec_width() == num_encoded_columns
                &&& forall|c: int| 0 <= c < num_encoded_columns ==> (#[trigger] tree.leaves()[c])@ == column_digest(
                    image_column(file.spec_file(), file.spec_capacity(), c as nat, file.spec_rows_written()),
                )
            },
    {
        if num_pre_encoded_columns < 1 {
            return Err(EncodedFileError::InvalidDimensions);
        }
        if num_encoded_columns < 2 {
            return Err(EncodedFileError::InvalidDimensions);
        }
        if !crate::fields::is_power_of_two(num_encoded_columns) {
            return Err(EncodedFileError::InvalidDimensions);
        }
        if num_encoded_columns <= num_pre_encoded_columns {
            return Err(EncodedFileError::InvalidDimensions);
        }
        proof {
            crate::lcpc_online::encoded_file_reader::lemma_ceil_ceil_pub(
                unencoded_file@.len(),
                7,
                num_pre_encoded_columns as nat,
            );
            assert(7 * (num_pre_encoded_columns as nat) == num_pre_encoded_columns as nat * 7);
        }
        let mut writer = EncodedFileWriter::new(num_pre_encoded_columns, num_encoded_columns, unencoded_file.len());
        let ghost cap = writer.spec_file().spec_capacity();
        proof {
            let rb = num_pre_encoded_columns as nat * 7;
            if unencoded_file@.len() > 0 {
                lemma_rows_below_total_partial(unencoded_file@.len(), rb, 0);
            }
            assert(writer.row_bytes() == rb);
        }
        let _ = writer.push_bytes(unencoded_file);
        proof {
            assert(Seq::<u8>::empty() + unencoded_file@ =~= unencoded_file@);
        }
        let ghost cap1 = writer.spec_file().spec_capacity();
        let r = writer.finalize_to_merkle_tree();
        proof {
            let rows = ceil_div(unencoded_file@.len(), num_pre_encoded_columns as nat * 7);
            assert(cap == 2 * rows);
            if unencoded_file@.len() > 0 {
                lemma_rows_below_total_partial(unencoded_file@.len(), num_pre_encoded_columns as nat * 7, 0);
                assert(cap1 == cap);
            }
            if r is Ok {
                lemma_decode_after_encode(r->Ok_0.2, unencoded_file@);
            }
        }
        r
    }
}

} // verus!
