use vstd::prelude::*;

use crate::fields::byte_math::nat_to_le;
use crate::fields::data_field::spec_from_byte_vec;
use crate::fields::field_generator_iter::{lemma_from_byte_vec_first, FieldGeneratorIter};
use crate::fields::writable_ft63::WriteableFt63;
use crate::lcpc_online::column_digest_accumulator::{fed_all, ColumnDigestAccumulator, ColumnsToCareAbout};
use crate::lcpc_online::commit::{column_digest, column_of, elements_bytes, padded_words, row_of, zero_block, zero_padded, PoSCommit};
use crate::lcpc_online::merkle_tree::{lemma_merkle_nodes_agree, parent_digest};
use crate::lcpc_online::encoding::{
    all_canonical, fft_io_of, field_words, max_fft_len, spec_dims_ok, PoSEncoding,
};
use crate::lcpc_online::hashing::{
    blake3_digest, hasher_absorbed, hasher_finalize, hasher_new, hasher_update,
};
use crate::lcpc_online::merkle_tree::{merkle_links, merkle_nodes};

verus! {

/// How many elements the next row takes from `n` pending elements: a full row of
/// `n_per_row`, or what is left.
pub open spec fn row_take(n: nat, n_per_row: nat) -> nat {
    if n < n_per_row { n } else { n_per_row }
}

/// The encoded words of the next row made from `elems`.
pub open spec fn first_row_words(elems: Seq<WriteableFt63>, n_per_row: nat, n_cols: nat) -> Seq<u64> {
    fft_io_of(padded_words(elems.take(row_take(elems.len(), n_per_row) as int), n_cols))
}

/// The bytes fed to column `c` while every row made from `elems` is encoded in turn.
pub open spec fn stream_column_bytes(elems: Seq<WriteableFt63>, n_per_row: nat, n_cols: nat, c: nat) -> Seq<u8>
    decreases elems.len(),
{
    if elems.len() == 0 || n_per_row == 0 {
        Seq::empty()
    } else {
        nat_to_le(first_row_words(elems, n_per_row, n_cols)[c as int] as nat, 8) + stream_column_bytes(
            elems.skip(row_take(elems.len(), n_per_row) as int),
            n_per_row,
            n_cols,
            c,
        )
    }
}

/// Encoded rows made from a stream of field elements: `n_per_row` elements at a time
/// (fewer for the last row), zero-padded and encoded into `n_cols` elements.
pub struct RowGeneratorIter {
    field_iterator: FieldGeneratorIter<WriteableFt63>,
    unencoded_len: usize,
    encoded_len: usize,
    encoding: PoSEncoding,
}

impl RowGeneratorIter {
    /// The field elements not yet made into rows.
    pub closed spec fn pending(self) -> Seq<WriteableFt63> {
        spec_from_byte_vec::<WriteableFt63>(self.field_iterator.remaining())
    }

    pub closed spec fn spec_n_per_row(self) -> nat {
        self.unencoded_len as nat
    }

    pub closed spec fn spec_n_cols(self) -> nat {
        self.encoded_len as nat
    }

    /// The generator and its encoding agree on the dimensions.
    pub closed spec fn wf(self) -> bool {
        &&& self.field_iterator.wf()
        &&& self.encoding.wf()
        &&& self.encoding.spec_n_per_row() == self.unencoded_len
        &&& self.encoding.spec_n_cols() == self.encoded_len
    }

    /// Rows of `num_pre_encoded` elements from `field_iterator`, encoded into
    /// `num_encoded` elements each.
    pub fn new_ligero(field_iterator: FieldGeneratorIter<WriteableFt63>, num_pre_encoded: usize, num_encoded: usize) -> (r: Self)
        requires
            field_iterator.wf(),
            num_pre_encoded > 0,
            spec_dims_ok(num_pre_encoded as nat, num_encoded as nat),
            num_encoded <= max_fft_len(),
        ensures
            r.wf(),
            r.pending() == spec_from_byte_vec::<WriteableFt63>(field_iterator.remaining()),
            r.spec_n_per_row() == num_pre_encoded,
            r.spec_n_cols() == num_encoded,
    {
        let encoding = PoSEncoding::new_from_dims(num_pre_encoded, num_encoded);
        RowGeneratorIter { field_iterator, unencoded_len: num_pre_encoded, encoded_len: num_encoded, encoding }
    }

    /// The next encoded row, or `None` once every element has been used.
    pub fn next(&mut self) -> (r: Option<Vec<WriteableFt63>>)
        requires
            old(self).wf(),
        ensures
            final(self).wf(),
            final(self).spec_n_per_row() == old(self).spec_n_per_row(),
            final(self).spec_n_cols() == old(self).spec_n_cols(),
            old(self).pending().len() == 0 ==> r is None && final(self).pending() == old(self).pending(),
            old(self).pending().len() > 0 ==> (r matches Some(row) && row@.len() == old(self).spec_n_cols()
                && all_canonical(row@) && field_words(row@) == first_row_words(
                old(self).pending(),
                old(self).spec_n_per_row(),
                old(self).spec_n_cols(),
            ) && final(self).pending() == old(self).pending().skip(
                row_take(old(self).pending().len(), old(self).spec_n_per_row()) as int,
            )),
    {
        let ghost start = self.pending();
        let mut buf: Vec<WriteableFt63> = Vec::new();
        let mut done = false;
        while !done && buf.len() < self.unencoded_len
            invariant
                self.wf(),
                self.unencoded_len == old(self).unencoded_len,
                self.encoded_len == old(self).encoded_len,
                self.encoding == old(self).encoding,
                buf@.len() <= self.unencoded_len,
                buf@ + self.pending() == start,
                done ==> self.pending().len() == 0,
            decreases self.unencoded_len - buf@.len() + (if done { 0int } else { 1int }),
        {
            let ghost rem = self.field_iterator.remaining();
            proof {
                if rem.len() > 0 {
                    lemma_from_byte_vec_first::<WriteableFt63>(rem);
                } else {
                    assert(spec_from_byte_vec::<WriteableFt63>(rem).len() == 0);
                }
            }
            match self.field_iterator.next() {
                Some(x) => {
                    proof {
                        assert(buf@.push(x) + self.pending() =~= buf@ + spec_from_byte_vec::<WriteableFt63>(rem));
                    }
                    buf.push(x);
                },
                None => {
                    done = true;
                },
            }
        }
        proof {
            assert(buf@ =~= start.take(row_take(start.len(), self.unencoded_len as nat) as int));
            assert(self.pending() =~= start.skip(row_take(start.len(), self.unencoded_len as nat) as int));
        }
        if buf.len() == 0 {
            return None;
        }
        let mut row: Vec<WriteableFt63> = Vec::new();
        let mut k: usize = 0;
        while k < self.encoded_len
            invariant
                k <= self.encoded_len,
                buf@.len() <= self.unencoded_len,
                self.unencoded_len < self.encoded_len,
                row@.len() == k,
                forall|t: int| 0 <= t < k ==> (#[trigger] row@[t]).value() as u64 == padded_words(buf@, self.encoded_len as nat)[t],
            decreases self.encoded_len - k,
        {
            if k < buf.len() {
                row.push(buf[k]);
            } else {
                row.push(WriteableFt63::zero());
            }
            k = k + 1;
        }
        proof {
            assert(field_words(row@) =~= padded_words(buf@, self.encoded_len as nat));
        }
        Some(self.encoding.encode(&row))
    }

    /// The digest of every encoded column, after encoding all remaining rows.
    pub fn get_column_digests(self) -> (r: Vec<[u8; 32]>)
        requires
            self.wf(),
        ensures
            r@.len() == self.spec_n_cols(),
            forall|c: int|
                0 <= c < self.spec_n_cols() ==> (#[trigger] r@[c])@ == blake3_digest(
                    zero_block() + stream_column_bytes(self.pending(), self.spec_n_per_row(), self.spec_n_cols(), c as nat),
                ),
    {
        let mut it = self;
        let ghost elems = it.pending();
        let ghost np = it.spec_n_per_row();
        let ghost nc = it.spec_n_cols();
        let n_cols = it.encoded_len;
        let mut digests = ColumnDigestAccumulator::new(n_cols, ColumnsToCareAbout::All);
        proof {
            assert forall|c: int| 0 <= c < nc implies #[trigger] digests.absorbed()[c] + stream_column_bytes(it.pending(), np, nc, c as nat)
                == zero_block() + stream_column_bytes(elems, np, nc, c as nat) by {
            }
        }
        loop
            invariant
                it.wf(),
                it.spec_n_per_row() == np,
                it.spec_n_cols() == nc,
                n_cols == nc,
                np > 0,
                digests.columns_mode() == ColumnsToCareAbout::All,
                digests.absorbed().len() == nc,
                forall|c: int|
                    0 <= c < nc ==> #[trigger] digests.absorbed()[c] + stream_column_bytes(it.pending(), np, nc, c as nat)
                        == zero_block() + stream_column_bytes(elems, np, nc, c as nat),
            ensures
                digests.absorbed().len() == nc,
                forall|c: int|
                    0 <= c < nc ==> #[trigger] digests.absorbed()[c] == zero_block() + stream_column_bytes(elems, np, nc, c as nat),
            decreases it.pending().len(),
        {
            let ghost before = it.pending();
            let ghost acc = digests.absorbed();
            match it.next() {
                None => {
                    proof {
                        assert forall|c: int| 0 <= c < nc implies #[trigger] digests.absorbed()[c]
                            == zero_block() + stream_column_bytes(elems, np, nc, c as nat) by {
                            assert(digests.absorbed()[c] + Seq::<u8>::empty() =~= digests.absorbed()[c]);
                        }
                    }
                    break;
                },
                Some(row) => {
                    let res = digests.update(&row);
                    proof {
                        assert forall|c: int| 0 <= c < nc implies #[trigger] digests.absorbed()[c] + stream_column_bytes(
                            it.pending(),
                            np,
                            nc,
                            c as nat,
                        ) == zero_block() + stream_column_bytes(elems, np, nc, c as nat) by {
                            assert(digests.absorbed() == fed_all(acc, row@));
                            assert(digests.absorbed()[c] == acc[c] + nat_to_le(row@[c].value(), 8));
                            assert(row@[c].value() as u64 == field_words(row@)[c]);
                            crate::fields::writable_ft63::lemma_mont_value_bound(row@[c].repr());
                            assert(stream_column_bytes(before, np, nc, c as nat) == nat_to_le(
                                first_row_words(before, np, nc)[c] as nat,
                                8,
                            ) + stream_column_bytes(it.pending(), np, nc, c as nat));
                            assert(acc[c] + nat_to_le(row@[c].value(), 8) + stream_column_bytes(it.pending(), np, nc, c as nat)
                                =~= acc[c] + stream_column_bytes(before, np, nc, c as nat));
                        }
                    }
                },
            }
        }
        digests.get_column_digests()
    }

    /// The digests of the listed columns (in the listed order), after encoding all
    /// remaining rows.
    pub fn get_specified_column_digests(self, column_indices: &[usize]) -> (r: Vec<[u8; 32]>)
        requires
            self.wf(),
            self.pending().len() > 0 ==> forall|d: int| 0 <= d < column_indices@.len() ==> #[trigger] column_indices@[d] < self.spec_n_cols(),
        ensures
            r@.len() == column_indices@.len(),
            forall|d: int|
                0 <= d < column_indices@.len() ==> (#[trigger] r@[d])@ == blake3_digest(
                    zero_block() + stream_column_bytes(self.pending(), self.spec_n_per_row(), self.spec_n_cols(), column_indices@[d] as nat),
                ),
    {
        let mut it = self;
        let ghost elems = it.pending();
        let ghost np = it.spec_n_per_row();
        let ghost nc = it.spec_n_cols();
        let mut digests: Vec<blake3::Hasher> = Vec::new();
        let zeros: [u8; 32] = [0u8; 32];
        proof {
            assert(zeros@ =~= zero_block());
            assert(Seq::<u8>::empty() + zeros@ =~= zero_block());
        }
        let mut i: usize = 0;
        while i < column_indices.len()
            invariant
                i <= column_indices@.len(),
                zeros@ == zero_block(),
                digests@.len() == i,
                forall|k: int| 0 <= k < i ==> #[trigger] hasher_absorbed(digests@[k]) == zero_block(),
            decreases column_indices.len() - i,
        {
            let mut digest = hasher_new();
            hasher_update(&mut digest, &zeros);
            digests.push(digest);
            i = i + 1;
        }
        proof {
            assert forall|d: int| 0 <= d < column_indices@.len() implies #[trigger] hasher_absorbed(digests@[d])
                + stream_column_bytes(it.pending(), np, nc, column_indices@[d] as nat) == zero_block()
                + stream_column_bytes(elems, np, nc, column_indices@[d] as nat) by {
            }
        }
        loop
            invariant
                it.wf(),
                it.spec_n_per_row() == np,
                it.spec_n_cols() == nc,
                np > 0,
                digests@.len() == column_indices@.len(),
                it.pending().len() > 0 ==> forall|d: int| 0 <= d < column_indices@.len() ==> #[trigger] column_indices@[d] < nc,
                forall|d: int|
                    0 <= d < column_indices@.len() ==> #[trigger] hasher_absorbed(digests@[d]) + stream_column_bytes(
                        it.pending(),
                        np,
                        nc,
                        column_indices@[d] as nat,
                    ) == zero_block() + stream_column_bytes(elems, np, nc, column_indices@[d] as nat),
            ensures
                it.pending().len() == 0,
                digests@.len() == column_indices@.len(),
                forall|d: int|
                    0 <= d < column_indices@.len() ==> #[trigger] hasher_absorbed(digests@[d]) + stream_column_bytes(
                        it.pending(),
                        np,
                        nc,
                        column_indices@[d] as nat,
                    ) == zero_block() + stream_column_bytes(elems, np, nc, column_indices@[d] as nat),
            decreases it.pending().len(),
        {
            let ghost before = it.pending();
            match it.next() {
                None => {
                    break;
                },
                Some(row) => {
                    let ghost acc = digests@;
                    let mut d: usize = 0;
                    while d < column_indices.len()
                        invariant
                            d <= column_indices@.len(),
                            digests@.len() == column_indices@.len(),
                            acc.len() == column_indices@.len(),
                            row@.len() == nc,
                            forall|t: int| 0 <= t < column_indices@.len() ==> #[trigger] column_indices@[t] < nc,
                            forall|t: int|
                                0 <= t < d ==> #[trigger] hasher_absorbed(digests@[t]) == hasher_absorbed(acc[t]) + nat_to_le(
                                    row@[column_indices@[t] as int].value(),
                                    8,
                                ),
                            forall|t: int| d <= t < column_indices@.len() ==> #[trigger] digests@[t] == acc[t],
                        decreases column_indices.len() - d,
                    {
                        let bytes = row[column_indices[d]].to_repr();
                        hasher_update(&mut digests[d], bytes.as_slice());
                        d = d + 1;
                    }
                    proof {
                        assert forall|t: int| 0 <= t < column_indices@.len() implies #[trigger] hasher_absorbed(digests@[t])
                            + stream_column_bytes(it.pending(), np, nc, column_indices@[t] as nat) == zero_block()
                            + stream_column_bytes(elems, np, nc, column_indices@[t] as nat) by {
                            let c = column_indices@[t] as int;
                            crate::fields::writable_ft63::lemma_mont_value_bound(row@[c].repr());
                            assert(row@[c].value() as u64 == field_words(row@)[c]);
                            assert(stream_column_bytes(before, np, nc, c as nat) == nat_to_le(
                                first_row_words(before, np, nc)[c] as nat,
                                8,
                            ) + stream_column_bytes(it.pending(), np, nc, c as nat));
                            assert(hasher_absorbed(acc[t]) + nat_to_le(row@[c].value(), 8) + stream_column_bytes(
                                it.pending(),
                                np,
                                nc,
                                c as nat,
                            ) =~= hasher_absorbed(acc[t]) + stream_column_bytes(before, np, nc, c as nat));
                        }
                    }
                },
            }
        }
        let mut hashes: Vec<[u8; 32]> = Vec::new();
        let mut k: usize = 0;
        while k < digests.len()
            invariant
                k <= digests@.len(),
                digests@.len() == column_indices@.len(),
                hashes@.len() == k,
                it.pending().len() == 0,
                forall|d: int|
                    0 <= d < column_indices@.len() ==> #[trigger] hasher_absorbed(digests@[d]) + stream_column_bytes(
                        it.pending(),
                        np,
                        nc,
                        column_indices@[d] as nat,
                    ) == zero_block() + stream_column_bytes(elems, np, nc, column_indices@[d] as nat),
                forall|j: int|
                    0 <= j < k ==> (#[trigger] hashes@[j])@ == blake3_digest(
                        zero_block() + stream_column_bytes(elems, np, nc, column_indices@[j] as nat),
                    ),
            decreases digests.len() - k,
        {
            proof {
                assert(hasher_absorbed(digests@[k as int]) + Seq::<u8>::empty() =~= hasher_absorbed(digests@[k as int]));
            }
            hashes.push(hasher_finalize(&digests[k]));
            k = k + 1;
        }
        hashes
    }

    /// The Merkle root over the digests of all encoded columns.
    pub fn convert_to_commit_root(self) -> (r: [u8; 32])
        requires
            self.wf(),
        ensures
            exists|nodes: Seq<[u8; 32]>|
                #![trigger merkle_links(nodes, self.spec_n_cols())]
                nodes.len() == 2 * self.spec_n_cols() - 1 && merkle_links(nodes, self.spec_n_cols())
                    && nodes.last() == r && forall|c: int|
                    0 <= c < self.spec_n_cols() ==> (#[trigger] nodes[c])@ == blake3_digest(
                        zero_block() + stream_column_bytes(self.pending(), self.spec_n_per_row(), self.spec_n_cols(), c as nat),
                    ),
    {
        let ghost me = self;
        let leaves = self.get_column_digests();
        let nodes = merkle_nodes(&leaves);
        proof {
            assert forall|c: int| 0 <= c < me.spec_n_cols() implies (#[trigger] nodes@[c])@ == blake3_digest(
                zero_block() + stream_column_bytes(me.pending(), me.spec_n_per_row(), me.spec_n_cols(), c as nat),
            ) by {
                assert(nodes@[c] == nodes@.subrange(0, leaves@.len() as int)[c]);
            }
        }
        nodes[nodes.len() - 1]
    }
}

proof fn lemma_elements_bytes_front(s: Seq<WriteableFt63>)
    requires
        s.len() > 0,
    ensures
        elements_bytes(s) == nat_to_le(s[0].value(), 8) + elements_bytes(s.drop_first()),
    decreases s.len(),
{
    if s.len() == 1 {
        assert(s.drop_last() =~= Seq::<WriteableFt63>::empty());
        assert(s.drop_first() =~= Seq::<WriteableFt63>::empty());
        assert(elements_bytes(s.drop_last()) =~= Seq::<u8>::empty());
        assert(elements_bytes(s) =~= Seq::<u8>::empty() + nat_to_le(s[0].value(), 8));
        assert(elements_bytes(s) =~= nat_to_le(s[0].value(), 8));
        assert(nat_to_le(s[0].value(), 8) + Seq::<u8>::empty() =~= nat_to_le(s[0].value(), 8));
    } else {
        lemma_elements_bytes_front(s.drop_last());
        assert(s.drop_last().drop_first() =~= s.drop_first().drop_last());
        assert(s.drop_first().last() == s.last());
        assert(s.drop_last()[0] == s[0]);
    }
}

/// The column `col` of the rows `r..n_rows` of a row-major matrix.
spec fn column_suffix(m: Seq<WriteableFt63>, n_rows: nat, nc: nat, col: nat, r: nat) -> Seq<WriteableFt63> {
    Seq::new((n_rows - r) as nat, |i: int| m[(r + i) * nc + col])
}

proof fn lemma_padded_row_words(elems: Seq<WriteableFt63>, np: nat, nc: nat, n_rows: nat, r: nat)
    requires
        np > 0,
        np < nc,
        r < n_rows,
        r * np < elems.len(),
        n_rows * np >= elems.len(),
    ensures
        padded_words(row_of(zero_padded(elems, n_rows * np), np, r), nc) == padded_words(
            elems.skip((r * np) as int).take(row_take((elems.len() - r * np) as nat, np) as int),
            nc,
        ),
{
    let e = elems.skip((r * np) as int);
    let k = row_take(e.len(), np);
    let row = row_of(zero_padded(elems, n_rows * np), np, r);
    assert(r * np + np <= n_rows * np) by (nonlinear_arith)
        requires r < n_rows;
    crate::fields::writable_ft63::WriteableFt63::lemma_spec_zero();
    let lhs = padded_words(row, nc);
    let rhs = padded_words(e.take(k as int), nc);
    assert(lhs.len() == nc);
    assert(rhs.len() == nc);
    assert forall|t: int| 0 <= t < nc implies lhs[t] == rhs[t] by {
        if t < k {
            assert(row[t] == elems[r * np + t]);
        } else if t < np {
            assert(row[t] == WriteableFt63::spec_zero());
        }
    }
    assert(lhs =~= rhs);
}

proof fn lemma_stream_column_matches(c: PoSCommit, elems: Seq<WriteableFt63>, col: nat, r: nat)
    requires
        c.wf(),
        elems.len() > 0,
        c.spec_n_rows() * c.spec_n_per_row() >= elems.len(),
        (c.spec_n_rows() - 1) * c.spec_n_per_row() < elems.len(),
        c.spec_n_rows() > 0,
        c.spec_coeffs() == zero_padded(elems, c.spec_n_rows() * c.spec_n_per_row()),
        col < c.spec_n_cols(),
        r <= c.spec_n_rows(),
    ensures
        elements_bytes(column_suffix(c.spec_comm(), c.spec_n_rows(), c.spec_n_cols(), col, r)) == stream_column_bytes(
            elems.skip(if r * c.spec_n_per_row() < elems.len() { (r * c.spec_n_per_row()) as int } else { elems.len() as int }),
            c.spec_n_per_row(),
            c.spec_n_cols(),
            col,
        ),
    decreases c.spec_n_rows() - r,
{
    let np = c.spec_n_per_row();
    let nc = c.spec_n_cols();
    let n_rows = c.spec_n_rows();
    let m = c.spec_comm();
    if r == n_rows {
        assert(r * np >= elems.len());
        assert(column_suffix(m, n_rows, nc, col, r) =~= Seq::<WriteableFt63>::empty());
        assert(elems.skip(elems.len() as int) =~= Seq::<WriteableFt63>::empty());
    } else {
        assert(r * np < elems.len()) by (nonlinear_arith)
            requires r < n_rows, (n_rows - 1) * np < elems.len(), np > 0;
        lemma_stream_column_matches(c, elems, col, r + 1);
        let e = elems.skip((r * np) as int);
        let k = row_take(e.len(), np);
        assert(e.skip(k as int) =~= elems.skip(
            if (r + 1) * np < elems.len() { ((r + 1) * np) as int } else { elems.len() as int },
        )) by {
            assert((r + 1) * np == r * np + np) by (nonlinear_arith);
        }
        let suf = column_suffix(m, n_rows, nc, col, r);
        lemma_elements_bytes_front(suf);
        assert(suf.drop_first() =~= column_suffix(m, n_rows, nc, col, r + 1));
        lemma_padded_row_words(elems, np, nc, n_rows, r);
        let idx: int = (r * nc + col) as int;
        assert(r * nc + nc <= n_rows * nc) by (nonlinear_arith)
            requires r < n_rows;
        assert(row_of(m, nc, r)[col as int] == m[idx]);
        assert(field_words(row_of(m, nc, r)) == fft_io_of(padded_words(row_of(c.spec_coeffs(), np, r), nc)));
        crate::fields::writable_ft63::lemma_mont_value_bound(m[idx].repr());
        assert(suf[0] == m[idx]);
        assert(m[idx].value() == first_row_words(e, np, nc)[col as int] as nat);
    }
}

/// Encoding the rows one at a time, as a stream, gives the same Merkle root as
/// committing to all the data at once: the tree whose leaves are the streamed column
/// digests has the commitment's root.
pub proof fn lemma_streamed_root_matches_commit(elems: Seq<WriteableFt63>, c: PoSCommit, nodes: Seq<[u8; 32]>)
    requires
        c.wf(),
        elems.len() > 0,
        c.spec_n_rows() as int == (elems.len() + c.spec_n_per_row() - 1) / c.spec_n_per_row() as int,
        c.spec_coeffs() == zero_padded(elems, c.spec_n_rows() * c.spec_n_per_row()),
        nodes.len() == 2 * c.spec_n_cols() - 1,
        merkle_links(nodes, c.spec_n_cols()),
        forall|col: int|
            0 <= col < c.spec_n_cols() ==> (#[trigger] nodes[col])@ == blake3_digest(
                zero_block() + stream_column_bytes(elems, c.spec_n_per_row(), c.spec_n_cols(), col as nat),
            ),
    ensures
        nodes.last()@ == c.spec_root()@,
{
    let np = c.spec_n_per_row();
    let nc = c.spec_n_cols();
    let n_rows = c.spec_n_rows();
    let len = elems.len();
    vstd::arithmetic::div_mod::lemma_fundamental_div_mod((len + np - 1) as int, np as int);
    vstd::arithmetic::div_mod::lemma_mod_bound((len + np - 1) as int, np as int);
    assert(n_rows * np >= len && (n_rows - 1) * np < len && n_rows > 0) by (nonlinear_arith)
        requires
            np > 0,
            len > 0,
            len + np - 1 == np * n_rows + (len + np - 1) % (np as int),
            0 <= (len + np - 1) % (np as int) < np;
    assert forall|col: int| 0 <= col < nc implies (#[trigger] nodes[col])@ == c.spec_hashes()[col]@ by {
        lemma_stream_column_matches(c, elems, col as nat, 0);
        assert(column_suffix(c.spec_comm(), n_rows, nc, col as nat, 0) =~= c.spec_column(col as nat));
        assert(elems.skip(0) =~= elems);
        assert(c.spec_hashes()[col]@ == column_digest(c.spec_column(col as nat)));
    }
    lemma_merkle_nodes_agree(nodes, c.spec_hashes(), nc, (2 * nc - 2) as nat);
}

/// Whether `c` commits to `elems`: its rows are the elements, `n_per_row` at a time,
/// with the last row zero-padded.
pub open spec fn commits_to_elements(c: PoSCommit, elems: Seq<WriteableFt63>) -> bool {
    &&& c.wf()
    &&& elems.len() > 0
    &&& c.spec_n_rows() as int == (elems.len() + c.spec_n_per_row() - 1) / c.spec_n_per_row() as int
    &&& c.spec_coeffs() == zero_padded(elems, c.spec_n_rows() * c.spec_n_per_row())
}

proof fn lemma_commit_row_count(c: PoSCommit, elems: Seq<WriteableFt63>)
    requires
        commits_to_elements(c, elems),
    ensures
        c.spec_n_rows() * c.spec_n_per_row() >= elems.len(),
        (c.spec_n_rows() - 1) * c.spec_n_per_row() < elems.len(),
        c.spec_n_rows() > 0,
{
    let np = c.spec_n_per_row();
    let n_rows = c.spec_n_rows();
    let len = elems.len();
    vstd::arithmetic::div_mod::lemma_fundamental_div_mod((len + np - 1) as int, np as int);
    vstd::arithmetic::div_mod::lemma_mod_bound((len + np - 1) as int, np as int);
    assert(n_rows * np >= len && (n_rows - 1) * np < len && n_rows > 0) by (nonlinear_arith)
        requires
            np > 0,
            len > 0,
            len + np - 1 == np * n_rows + (len + np - 1) % (np as int),
            0 <= (len + np - 1) % (np as int) < np;
}

/// Streaming the elements a commitment was made from yields the commitment's rows:
/// before row `r` is made, the `r * n_per_row` elements of the earlier rows have been
/// used, some element is still pending, and the row made next is row `r` of the encoded
/// matrix; once every row is made no element is left.
pub proof fn lemma_streamed_rows_are_committed(c: PoSCommit, elems: Seq<WriteableFt63>, r: nat)
    requires
        commits_to_elements(c, elems),
        r < c.spec_n_rows(),
    ensures
        r * c.spec_n_per_row() < elems.len(),
        elems.len() <= c.spec_n_rows() * c.spec_n_per_row(),
        elems.skip((r * c.spec_n_per_row()) as int).skip(
            row_take((elems.len() - r * c.spec_n_per_row()) as nat, c.spec_n_per_row()) as int,
        ) == elems.skip(
            if (r + 1) * c.spec_n_per_row() < elems.len() { ((r + 1) * c.spec_n_per_row()) as int } else { elems.len() as int },
        ),
        first_row_words(elems.skip((r * c.spec_n_per_row()) as int), c.spec_n_per_row(), c.spec_n_cols())
            == field_words(row_of(c.spec_comm(), c.spec_n_cols(), r)),
{
    let np = c.spec_n_per_row();
    let nc = c.spec_n_cols();
    let n_rows = c.spec_n_rows();
    lemma_commit_row_count(c, elems);
    assert(r * np < elems.len()) by (nonlinear_arith)
        requires r < n_rows, (n_rows - 1) * np < elems.len(), np > 0;
    let e = elems.skip((r * np) as int);
    let k = row_take(e.len(), np);
    assert(e.skip(k as int) =~= elems.skip(
        if (r + 1) * np < elems.len() { ((r + 1) * np) as int } else { elems.len() as int },
    )) by {
        assert((r + 1) * np == r * np + np) by (nonlinear_arith);
    }
    lemma_padded_row_words(elems, np, nc, n_rows, r);
    assert(field_words(row_of(c.spec_comm(), nc, r)) == fft_io_of(padded_words(row_of(c.spec_coeffs(), np, r), nc)));
}

/// The digest of each column made by streaming the elements a commitment was made from
/// is that commitment's column digest, so the streamed digests of any listed columns are
/// the commitment's digests of those columns.
pub proof fn lemma_streamed_columns_are_committed(c: PoSCommit, elems: Seq<WriteableFt63>, col: nat)
    requires
        commits_to_elements(c, elems),
        col < c.spec_n_cols(),
    ensures
        blake3_digest(zero_block() + stream_column_bytes(elems, c.spec_n_per_row(), c.spec_n_cols(), col))
            == column_digest(c.spec_column(col)),
{
    lemma_commit_row_count(c, elems);
    lemma_stream_column_matches(c, elems, col, 0);
    assert(column_suffix(c.spec_comm(), c.spec_n_rows(), c.spec_n_cols(), col, 0) =~= c.spec_column(col));
    assert(elems.skip(0) =~= elems);
}

} // verus!
