use vstd::prelude::*;

use crate::fields::byte_math::nat_to_le;
use crate::fields::writable_ft63::WriteableFt63;
use crate::lcpc_online::encoding::{
    all_canonical, fft_io_of, fft_len_ok, field_words, ifft_oi_of, spec_dims_ok, PoSEncoding,
};
use crate::lcpc_online::hashing::{
    blake3_digest, hasher_absorbed, hasher_finalize, hasher_new, hasher_update,
};
use crate::lcpc_online::merkle_tree::{
    digest_views, lemma_path_leads_to_root, merkle_links, merkle_nodes, path_in_nodes,
    root_from_path, spec_path,
};

verus! {

/// The 32 zero bytes that every column hash starts from.
pub open spec fn zero_block() -> Seq<u8> {
    Seq::new(32, |i: int| 0u8)
}

/// The canonical 8-byte little-endian encodings of the elements, back to back.
pub open spec fn elements_bytes(col: Seq<WriteableFt63>) -> Seq<u8>
    decreases col.len(),
{
    if col.len() == 0 {
        Seq::empty()
    } else {
        elements_bytes(col.drop_last()) + nat_to_le(col.last().value(), 8)
    }
}

/// The digest of a column: the hash of a zero block followed by the column's elements.
pub open spec fn column_digest(col: Seq<WriteableFt63>) -> Seq<u8> {
    blake3_digest(zero_block() + elements_bytes(col))
}

/// Row `r` of a row-major matrix with rows of width `w`.
pub open spec fn row_of<T>(s: Seq<T>, w: nat, r: nat) -> Seq<T> {
    s.subrange((r * w) as int, (r * w + w) as int)
}

/// Column `c` of a row-major matrix with `n_rows` rows of width `n_cols`.
pub open spec fn column_of(s: Seq<WriteableFt63>, n_rows: nat, n_cols: nat, c: nat) -> Seq<WriteableFt63> {
    Seq::new(n_rows, |r: int| s[r * n_cols + c])
}

/// The field values of a row followed by zeros up to width `n`.
pub open spec fn padded_words(row: Seq<WriteableFt63>, n: nat) -> Seq<u64> {
    field_words(row) + Seq::new((n - row.len()) as nat, |i: int| 0u64)
}

/// The coefficients laid into whole rows: the input followed by zeros up to `len`.
pub open spec fn zero_padded(coeffs: Seq<WriteableFt63>, len: nat) -> Seq<WriteableFt63> {
    Seq::new(len, |i: int| if i < coeffs.len() { coeffs[i] } else { WriteableFt63::spec_zero() })
}

/// The digest of a column of field elements.
pub fn digest_of_column(col: &[WriteableFt63]) -> (r: [u8; 32])
    ensures
        r@ == column_digest(col@),
{
    let mut h = hasher_new();
    let zeros: [u8; 32] = [0u8; 32];
    hasher_update(&mut h, &zeros);
    proof {
        assert(zeros@ =~= zero_block());
        assert(Seq::<u8>::empty() + zeros@ =~= zero_block() + elements_bytes(col@.subrange(0, 0)));
    }
    let mut i: usize = 0;
    while i < col.len()
        invariant
            i <= col@.len(),
            hasher_absorbed(h) == zero_block() + elements_bytes(col@.subrange(0, i as int)),
        decreases col.len() - i,
    {
        let bytes = col[i].to_repr();
        hasher_update(&mut h, bytes.as_slice());
        proof {
            let prev = col@.subrange(0, i as int);
            let next = col@.subrange(0, i + 1);
            assert(next.drop_last() =~= prev);
            assert(zero_block() + elements_bytes(prev) + bytes@ =~= zero_block() + elements_bytes(next));
        }
        i = i + 1;
    }
    proof {
        assert(col@.subrange(0, col@.len() as int) =~= col@);
    }
    hasher_finalize(&h)
}

/// The Merkle root of a commitment.
#[derive(Debug, Clone, Copy, PartialEq, Eq)]
pub struct PoSRoot {
    pub root: [u8; 32],
}

impl PoSRoot {
    /// The root with the given digest.
    pub fn new_from_root_digest(root: [u8; 32]) -> (r: Self)
        ensures
            r.root == root,
    {
        PoSRoot { root }
    }

    /// The digest of the root.
    pub fn into_raw(self) -> (r: [u8; 32])
        ensures
            r == self.root,
    {
        self.root
    }
}

/// One opened column of an encoded matrix with the Merkle path from its digest to the
/// root.
#[derive(Debug, Clone)]
pub struct PoSColumn {
    pub col: Vec<WriteableFt63>,
    pub path: Vec<[u8; 32]>,
}

/// A commitment to a file's field elements: the data laid into rows of `n_per_row`,
/// each row zero-padded and encoded into `n_cols` elements, and a Merkle tree over the
/// digests of the encoded columns.
#[derive(Debug, Clone)]
pub struct PoSCommit {
    comm: Vec<WriteableFt63>,
    coeffs: Vec<WriteableFt63>,
    n_rows: usize,
    n_cols: usize,
    n_per_row: usize,
    hashes: Vec<[u8; 32]>,
}

impl PoSCommit {
    /// The encoded matrix, row-major.
    pub closed spec fn spec_comm(self) -> Seq<WriteableFt63> {
        self.comm@
    }

    /// The data matrix (input followed by zeros), row-major.
    pub closed spec fn spec_coeffs(self) -> Seq<WriteableFt63> {
        self.coeffs@
    }

    pub closed spec fn spec_n_rows(self) -> nat {
        self.n_rows as nat
    }

    pub closed spec fn spec_n_cols(self) -> nat {
        self.n_cols as nat
    }

    pub closed spec fn spec_n_per_row(self) -> nat {
        self.n_per_row as nat
    }

    /// The Merkle tree nodes: column digests, then each level of parents, root last.
    pub closed spec fn spec_hashes(self) -> Seq<[u8; 32]> {
        self.hashes@
    }

    /// Column `c` of the encoded matrix.
    pub open spec fn spec_column(self, c: nat) -> Seq<WriteableFt63> {
        column_of(self.spec_comm(), self.spec_n_rows(), self.spec_n_cols(), c)
    }

    /// The root digest.
    pub open spec fn spec_root(self) -> [u8; 32] {
        self.spec_hashes().last()
    }

    /// Every row of the encoded matrix is the encoding of the zero-padded data row, and
    /// decodes back to it.
    pub open spec fn rows_encoded(self) -> bool {
        forall|r: nat|
            r < self.spec_n_rows() ==> {
                &&& field_words(#[trigger] row_of(self.spec_comm(), self.spec_n_cols(), r)) == fft_io_of(
                    padded_words(row_of(self.spec_coeffs(), self.spec_n_per_row(), r), self.spec_n_cols()),
                )
                &&& ifft_oi_of(field_words(row_of(self.spec_comm(), self.spec_n_cols(), r))) == padded_words(
                    row_of(self.spec_coeffs(), self.spec_n_per_row(), r),
                    self.spec_n_cols(),
                )
            }
    }

    /// The leaves of the tree are the column digests.
    pub open spec fn leaves_are_column_digests(self) -> bool {
        forall|c: nat|
            c < self.spec_n_cols() ==> (#[trigger] self.spec_hashes()[c as int])@ == column_digest(
                self.spec_column(c),
            )
    }

    /// The commitment is consistent: dimensions, encoding, column digests, Merkle links.
    pub open spec fn wf(self) -> bool {
        &&& self.spec_n_per_row() > 0
        &&& spec_dims_ok(self.spec_n_per_row(), self.spec_n_cols())
        &&& fft_len_ok(self.spec_n_cols())
        &&& self.spec_coeffs().len() == self.spec_n_rows() * self.spec_n_per_row()
        &&& self.spec_comm().len() == self.spec_n_rows() * self.spec_n_cols()
        &&& all_canonical(self.spec_comm())
        &&& self.rows_encoded()
        &&& self.spec_hashes().len() == 2 * self.spec_n_cols() - 1
        &&& self.leaves_are_column_digests()
        &&& merkle_links(self.spec_hashes(), self.spec_n_cols())
    }

    /// Commits to `coeffs_in` under encoding `enc`.
    pub fn commit(coeffs_in: &[WriteableFt63], enc: &PoSEncoding) -> (r: Self)
        requires
            enc.wf(),
            coeffs_in@.len() > 0,
            (coeffs_in@.len() + enc.spec_n_per_row()) * enc.spec_n_cols() <= usize::MAX,
        ensures
            r.wf(),
            r.spec_n_per_row() == enc.spec_n_per_row(),
            r.spec_n_cols() == enc.spec_n_cols(),
            r.spec_n_rows() as int == (coeffs_in@.len() + enc.spec_n_per_row() - 1) / enc.spec_n_per_row() as int,
            r.spec_coeffs() == zero_padded(coeffs_in@, r.spec_n_rows() * r.spec_n_per_row()),
    {
        let (n_rows, n_per_row, n_cols) = enc.get_dims(coeffs_in.len());
        let ghost len = coeffs_in@.len();
        proof {
            lemma_rows_cover(len, n_per_row as nat, n_rows as nat, n_cols as nat);
        }
        let total_coeffs = n_rows * n_per_row;
        let total_comm = n_rows * n_cols;
        let mut coeffs: Vec<WriteableFt63> = Vec::new();
        let mut i: usize = 0;
        while i < total_coeffs
            invariant
                i <= total_coeffs,
                total_coeffs >= coeffs_in@.len(),
                coeffs@ =~= zero_padded(coeffs_in@, total_coeffs as nat).subrange(0, i as int),
            decreases total_coeffs - i,
        {
            if i < coeffs_in.len() {
                coeffs.push(coeffs_in[i]);
            } else {
                coeffs.push(WriteableFt63::zero());
            }
            i = i + 1;
        }
        proof {
            assert(coeffs@ =~= zero_padded(coeffs_in@, total_coeffs as nat));
        }
        let mut comm: Vec<WriteableFt63> = Vec::new();
        let mut r: usize = 0;
        while r < n_rows
            invariant
                r <= n_rows,
                enc.wf(),
                n_per_row == enc.spec_n_per_row(),
                n_cols == enc.spec_n_cols(),
                total_coeffs == n_rows * n_per_row,
                total_comm == n_rows * n_cols,
                coeffs@.len() == total_coeffs,
                comm@.len() == r * n_cols,
                all_canonical(comm@),
                forall|q: nat|
                    q < r ==> field_words(#[trigger] row_of(comm@, n_cols as nat, q)) == fft_io_of(
                        padded_words(row_of(coeffs@, n_per_row as nat, q), n_cols as nat),
                    ) && ifft_oi_of(field_words(row_of(comm@, n_cols as nat, q))) == padded_words(
                        row_of(coeffs@, n_per_row as nat, q),
                        n_cols as nat,
                    ),
            decreases n_rows - r,
        {
            proof {
                lemma_row_bounds(r as nat, n_rows as nat, n_per_row as nat);
                lemma_row_bounds(r as nat, n_rows as nat, n_cols as nat);
            }
            let start = r * n_per_row;
            let mut row: Vec<WriteableFt63> = Vec::new();
            let mut k: usize = 0;
            while k < n_cols
                invariant
                    k <= n_cols,
                    n_per_row < n_cols,
                    coeffs@.len() == total_coeffs,
                    start + n_per_row <= coeffs@.len(),
                    row@.len() == k,
                    forall|t: int|
                        0 <= t < k ==> (#[trigger] row@[t]).value() as u64 == padded_words(
                            coeffs@.subrange(start as int, start + n_per_row),
                            n_cols as nat,
                        )[t],
                decreases n_cols - k,
            {
                if k < n_per_row {
                    row.push(coeffs[start + k]);
                } else {
                    row.push(WriteableFt63::zero());
                }
                k = k + 1;
            }
            proof {
                assert(field_words(row@) =~= padded_words(row_of(coeffs@, n_per_row as nat, r as nat), n_cols as nat));
            }
            let encoded = enc.encode(&row);
            let ghost before = comm@;
            let mut t: usize = 0;
            while t < n_cols
                invariant
                    t <= n_cols,
                    encoded@.len() == n_cols,
                    all_canonical(encoded@),
                    all_canonical(before),
                    comm@ =~= before + encoded@.subrange(0, t as int),
                decreases n_cols - t,
            {
                comm.push(encoded[t]);
                t = t + 1;
            }
            proof {
                assert(encoded@.subrange(0, n_cols as int) =~= encoded@);
                assert(all_canonical(comm@));
                assert(row_of(comm@, n_cols as nat, r as nat) =~= encoded@);
                assert forall|q: nat| q < r + 1 implies field_words(#[trigger] row_of(comm@, n_cols as nat, q))
                    == fft_io_of(padded_words(row_of(coeffs@, n_per_row as nat, q), n_cols as nat))
                    && ifft_oi_of(field_words(row_of(comm@, n_cols as nat, q))) == padded_words(
                        row_of(coeffs@, n_per_row as nat, q),
                        n_cols as nat,
                    ) by {
                    if q < r {
                        lemma_row_bounds(q, r as nat, n_cols as nat);
                        assert(row_of(comm@, n_cols as nat, q) =~= row_of(before, n_cols as nat, q));
                    }
                }
                assert(comm@.len() == (r + 1) * n_cols) by (nonlinear_arith)
                    requires comm@.len() == r * n_cols + n_cols;
            }
            r = r + 1;
        }
        let mut leaves: Vec<[u8; 32]> = Vec::new();
        let mut c: usize = 0;
        while c < n_cols
            invariant
                c <= n_cols,
                comm@.len() == n_rows * n_cols,
                total_comm == n_rows * n_cols,
                leaves@.len() == c,
                forall|j: nat|
                    j < c ==> (#[trigger] leaves@[j as int])@ == column_digest(
                        column_of(comm@, n_rows as nat, n_cols as nat, j),
                    ),
            decreases n_cols - c,
        {
            let column = gather_column(&comm, n_rows, n_cols, c);
            leaves.push(digest_of_column(&column));
            c = c + 1;
        }
        let hashes = merkle_nodes(&leaves);
        proof {
            assert forall|j: nat| j < n_cols implies (#[trigger] hashes@[j as int])@ == column_digest(
                column_of(comm@, n_rows as nat, n_cols as nat, j),
            ) by {
                assert(hashes@[j as int] == hashes@.subrange(0, n_cols as int)[j as int]);
                assert(hashes@.subrange(0, n_cols as int) == leaves@);
            }
        }
        PoSCommit { comm, coeffs, n_rows, n_cols, n_per_row, hashes }
    }

    /// The Merkle root of the commitment.
    pub fn get_root(&self) -> (r: PoSRoot)
        requires
            self.wf(),
        ensures
            r.root == self.spec_root(),
    {
        PoSRoot { root: self.hashes[self.hashes.len() - 1] }
    }

    /// Number of rows.
    pub fn get_n_rows(&self) -> (r: usize)
        ensures
            r == self.spec_n_rows(),
    {
        self.n_rows
    }

    /// Number of encoded columns.
    pub fn get_n_cols(&self) -> (r: usize)
        ensures
            r == self.spec_n_cols(),
    {
        self.n_cols
    }

    /// Number of data elements per row.
    pub fn get_n_per_row(&self) -> (r: usize)
        ensures
            r == self.spec_n_per_row(),
    {
        self.n_per_row
    }

    /// The encoded matrix, row-major.
    pub fn comm(&self) -> (r: &Vec<WriteableFt63>)
        ensures
            r@ == self.spec_comm(),
    {
        &self.comm
    }

    /// The zero-padded data matrix, row-major.
    pub fn coeffs(&self) -> (r: &Vec<WriteableFt63>)
        ensures
            r@ == self.spec_coeffs(),
    {
        &self.coeffs
    }

    /// Opens column `column`: its elements and its Merkle path.
    pub fn open_column(&self, column: usize) -> (r: PoSColumn)
        requires
            self.wf(),
            column < self.spec_n_cols(),
        ensures
            r.col@ == self.spec_column(column as nat),
            r.path@ == spec_path(self.spec_hashes(), self.spec_n_cols(), column as nat),
    {
        let col = gather_column(&self.comm, self.n_rows, self.n_cols, column);
        let path = path_in_nodes(&self.hashes, self.n_cols, column);
        PoSColumn { col, path }
    }
}

/// Column `c` of a row-major matrix.
pub(crate) fn gather_column(m: &Vec<WriteableFt63>, n_rows: usize, n_cols: usize, c: usize) -> (r: Vec<WriteableFt63>)
    requires
        m@.len() == n_rows * n_cols,
        c < n_cols,
    ensures
        r@ == column_of(m@, n_rows as nat, n_cols as nat, c as nat),
{
    let mut out: Vec<WriteableFt63> = Vec::new();
    let mut r: usize = 0;
    let total = m.len();
    while r < n_rows
        invariant
            r <= n_rows,
            c < n_cols,
            total == m@.len(),
            m@.len() == n_rows * n_cols,
            out@ =~= column_of(m@, n_rows as nat, n_cols as nat, c as nat).subrange(0, r as int),
        decreases n_rows - r,
    {
        proof {
            lemma_row_bounds(r as nat, n_rows as nat, n_cols as nat);
        }
        out.push(m[r * n_cols + c]);
        r = r + 1;
    }
    out
}

proof fn lemma_row_bounds(r: nat, n: nat, w: nat)
    requires
        r < n,
    ensures
        r * w + w <= n * w,
{
    assert(r * w + w <= n * w) by (nonlinear_arith)
        requires r < n;
}

proof fn lemma_rows_cover(len: nat, np: nat, n_rows: nat, nc: nat)
    requires
        np > 0,
        n_rows as int == (len + np - 1) / np as int,
        (len + np) * nc <= usize::MAX,
        np < nc,
    ensures
        n_rows * np >= len,
        n_rows * np <= usize::MAX,
        n_rows * nc <= usize::MAX,
{
    vstd::arithmetic::div_mod::lemma_fundamental_div_mod((len + np - 1) as int, np as int);
    vstd::arithmetic::div_mod::lemma_mod_bound((len + np - 1) as int, np as int);
    assert(n_rows * np <= len + np - 1) by (nonlinear_arith)
        requires
            len + np - 1 == np * n_rows + (len + np - 1) % (np as int),
            0 <= (len + np - 1) % (np as int);
    assert(n_rows * nc <= (len + np) * nc) by (nonlinear_arith)
        requires n_rows <= len + np;
    assert(n_rows * np <= n_rows * nc) by (nonlinear_arith)
        requires np < nc;
}

/// Decoding any row of a well-formed commitment's encoded matrix gives back that row's
/// data followed by zeros.
pub proof fn lemma_decode_recovers_row(c: PoSCommit, r: nat)
    requires
        c.wf(),
        r < c.spec_n_rows(),
    ensures
        ifft_oi_of(field_words(row_of(c.spec_comm(), c.spec_n_cols(), r))) == padded_words(
            row_of(c.spec_coeffs(), c.spec_n_per_row(), r),
            c.spec_n_cols(),
        ),
{
    assert(field_words(row_of(c.spec_comm(), c.spec_n_cols(), r)) == fft_io_of(
        padded_words(row_of(c.spec_coeffs(), c.spec_n_per_row(), r), c.spec_n_cols()),
    ));
}

/// An opened column of a well-formed commitment checks against its root along the path
/// that the commitment hands out with it.
pub proof fn lemma_opened_column_verifies(c: PoSCommit, column: nat)
    requires
        c.wf(),
        column < c.spec_n_cols(),
    ensures
        root_from_path(
            column_digest(c.spec_column(column)),
            column,
            digest_views(spec_path(c.spec_hashes(), c.spec_n_cols(), column)),
        ) == c.spec_root()@,
{
    lemma_path_leads_to_root(c.spec_hashes(), c.spec_n_cols(), column);
}

} // verus!
