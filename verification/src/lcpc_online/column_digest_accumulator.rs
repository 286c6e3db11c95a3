use vstd::prelude::*;

use crate::fields::byte_math::nat_to_le;
use crate::fields::writable_ft63::WriteableFt63;
use crate::lcpc_online::commit::{column_digest, elements_bytes, zero_block};
use crate::lcpc_online::hashing::{
    blake3_digest, hasher_absorbed, hasher_finalize, hasher_new, hasher_update,
};
use crate::lcpc_online::merkle_tree::{MerkleTree, MerkleTreeError};
use crate::fields::spec_is_power_of_two;

verus! {

/// Which columns of an encoded matrix to track.  Positions listed more than once are
/// fed more than once.
#[derive(Debug, Clone, PartialEq)]
pub enum ColumnsToCareAbout {
    All,
    Only(Vec<usize>),
}

/// Why the accumulator refused a request.
#[derive(Debug, Clone, Copy, PartialEq, Eq, Structural)]
pub enum AccumulatorError {
    /// The row does not have one element per followed digest.
    IncorrectLength,
    /// A root or tree was asked for while only some columns are followed.
    NotAllColumnsTracked,
    /// The Merkle tree could not be built over the digests.
    Tree(MerkleTreeError),
}

/// The bytes absorbed by each hasher.
pub open spec fn absorbed_of(hs: Seq<blake3::Hasher>) -> Seq<Seq<u8>> {
    hs.map_values(|h: blake3::Hasher| hasher_absorbed(h))
}

/// What feeding `row` gives when only the columns at `cols` are followed: each listed
/// position, in order, appends its element's encoding to the digest at that position.
pub open spec fn fed_only(acc: Seq<Seq<u8>>, row: Seq<WriteableFt63>, cols: Seq<usize>) -> Seq<Seq<u8>>
    decreases cols.len(),
{
    if cols.len() == 0 {
        acc
    } else {
        let prev = fed_only(acc, row, cols.drop_last());
        let c = cols.last() as int;
        prev.update(c, prev[c] + nat_to_le(row[c].value(), 8))
    }
}

/// What feeding `row` gives when every column is followed.
pub open spec fn fed_all(acc: Seq<Seq<u8>>, row: Seq<WriteableFt63>) -> Seq<Seq<u8>> {
    Seq::new(acc.len(), |k: int| acc[k] + nat_to_le(row[k].value(), 8))
}

/// What feeding `rows` one after another gives, every column followed.
pub open spec fn fed_all_rows(acc: Seq<Seq<u8>>, rows: Seq<Seq<WriteableFt63>>) -> Seq<Seq<u8>>
    decreases rows.len(),
{
    if rows.len() == 0 {
        acc
    } else {
        fed_all(fed_all_rows(acc, rows.drop_last()), rows.last())
    }
}

/// What `n` fresh digests have absorbed: a block of zeros each.
pub open spec fn fresh_digests(n: nat) -> Seq<Seq<u8>> {
    Seq::new(n, |k: int| zero_block())
}

/// Column `k` of a matrix given as its rows.
pub open spec fn rows_column(rows: Seq<Seq<WriteableFt63>>, k: int) -> Seq<WriteableFt63> {
    Seq::new(rows.len(), |r: int| rows[r][k])
}

/// Feeding rows of width `n` one at a time to fresh digests that follow every column
/// leaves each digest having absorbed a zero block and then its column's elements, so
/// its finished digest is the digest of that column.
pub proof fn lemma_fed_rows_digests(n: nat, rows: Seq<Seq<WriteableFt63>>)
    requires
        forall|r: int| 0 <= r < rows.len() ==> (#[trigger] rows[r]).len() == n,
    ensures
        fed_all_rows(fresh_digests(n), rows).len() == n,
        forall|k: int|
            0 <= k < n ==> #[trigger] fed_all_rows(fresh_digests(n), rows)[k] == zero_block()
                + elements_bytes(rows_column(rows, k)),
        forall|k: int|
            0 <= k < n ==> blake3_digest(#[trigger] fed_all_rows(fresh_digests(n), rows)[k])
                == column_digest(rows_column(rows, k)),
    decreases rows.len(),
{
    let start = fresh_digests(n);
    if rows.len() == 0 {
        assert forall|k: int| 0 <= k < n implies #[trigger] fed_all_rows(start, rows)[k] == zero_block()
            + elements_bytes(rows_column(rows, k)) by {
            assert(rows_column(rows, k) =~= Seq::<WriteableFt63>::empty());
            assert(zero_block() + Seq::<u8>::empty() =~= zero_block());
        }
    } else {
        let init = rows.drop_last();
        lemma_fed_rows_digests(n, init);
        assert forall|k: int| 0 <= k < n implies #[trigger] fed_all_rows(start, rows)[k] == zero_block()
            + elements_bytes(rows_column(rows, k)) by {
            let col = rows_column(rows, k);
            assert(col.drop_last() =~= rows_column(init, k));
            assert(fed_all_rows(start, init)[k] == zero_block() + elements_bytes(rows_column(init, k)));
            assert(zero_block() + elements_bytes(col) =~= zero_block() + elements_bytes(rows_column(init, k))
                + nat_to_le(rows.last()[k].value(), 8));
        }
    }
    assert forall|k: int| 0 <= k < n implies blake3_digest(#[trigger] fed_all_rows(start, rows)[k]) == column_digest(
        rows_column(rows, k),
    ) by {
        assert(fed_all_rows(start, rows)[k] == zero_block() + elements_bytes(rows_column(rows, k)));
    }
}

/// Running digests of the columns of an encoded matrix, fed one row at a time.
pub struct ColumnDigestAccumulator {
    column_digests: Vec<blake3::Hasher>,
    columns_to_care_about: ColumnsToCareAbout,
}

impl ColumnDigestAccumulator {
    /// The bytes fed so far to each followed digest.
    pub closed spec fn absorbed(self) -> Seq<Seq<u8>> {
        absorbed_of(self.column_digests@)
    }

    /// Which columns are followed.
    pub closed spec fn columns_mode(self) -> ColumnsToCareAbout {
        self.columns_to_care_about
    }

    /// Starts `number_of_encoded_columns` digests (or one per listed column), each fed
    /// a block of 32 zero bytes.
    pub fn new(number_of_encoded_columns: usize, columns_to_care_about: ColumnsToCareAbout) -> (r: Self)
        ensures
            r.columns_mode() == columns_to_care_about,
            r.absorbed().len() == (match columns_to_care_about {
                ColumnsToCareAbout::All => number_of_encoded_columns as nat,
                ColumnsToCareAbout::Only(v) => v@.len(),
            }),
            forall|k: int| 0 <= k < r.absorbed().len() ==> #[trigger] r.absorbed()[k] == zero_block(),
    {
        let n = match &columns_to_care_about {
            ColumnsToCareAbout::All => number_of_encoded_columns,
            ColumnsToCareAbout::Only(indices) => indices.len(),
        };
        let mut column_digests: Vec<blake3::Hasher> = Vec::new();
        let zeros: [u8; 32] = [0u8; 32];
        proof {
            assert(zeros@ =~= zero_block());
        }
        let mut i: usize = 0;
        while i < n
            invariant
                i <= n,
                zeros@ == zero_block(),
                column_digests@.len() == i,
                forall|k: int| 0 <= k < i ==> #[trigger] hasher_absorbed(column_digests@[k]) == zero_block(),
            decreases n - i,
        {
            let mut digest = hasher_new();
            hasher_update(&mut digest, &zeros);
            proof {
                assert(Seq::<u8>::empty() + zeros@ =~= zero_block());
            }
            column_digests.push(digest);
            i = i + 1;
        }
        ColumnDigestAccumulator { column_digests, columns_to_care_about }
    }

    /// Number of followed digests.
    pub fn get_width(&self) -> (r: usize)
        ensures
            r == self.absorbed().len(),
    {
        self.column_digests.len()
    }

    /// Feeds one encoded row: each followed column's element is appended to its digest.
    /// The row must have exactly one element per followed digest; when only some columns
    /// are followed, each listed position addresses the digest at that same position.
    pub fn update(&mut self, encoded_row: &[WriteableFt63]) -> (r: Result<(), AccumulatorError>)
        requires
            old(self).columns_mode() matches ColumnsToCareAbout::Only(cols) ==> forall|j: int|
                0 <= j < cols@.len() ==> #[trigger] cols@[j] < old(self).absorbed().len(),
        ensures
            final(self).columns_mode() == old(self).columns_mode(),
            r is Ok <==> encoded_row@.len() == old(self).absorbed().len(),
            r matches Err(e) ==> e == AccumulatorError::IncorrectLength && final(self).absorbed() == old(self).absorbed(),
            r is Ok ==> final(self).absorbed() == (match old(self).columns_mode() {
                ColumnsToCareAbout::All => fed_all(old(self).absorbed(), encoded_row@),
                ColumnsToCareAbout::Only(cols) => fed_only(old(self).absorbed(), encoded_row@, cols@),
            }),
    {
        if encoded_row.len() != self.column_digests.len() {
            return Err(AccumulatorError::IncorrectLength);
        }
        let ghost start = self.absorbed();
        match &self.columns_to_care_about {
            ColumnsToCareAbout::All => {
                let mut k: usize = 0;
                while k < encoded_row.len()
                    invariant
                        k <= encoded_row@.len(),
                        encoded_row@.len() == start.len(),
                        self.column_digests@.len() == start.len(),
                        self.columns_to_care_about == ColumnsToCareAbout::All,
                        forall|j: int|
                            0 <= j < k ==> #[trigger] absorbed_of(self.column_digests@)[j] == start[j] + nat_to_le(
                                encoded_row@[j].value(),
                                8,
                            ),
                        forall|j: int| k <= j < start.len() ==> #[trigger] absorbed_of(self.column_digests@)[j] == start[j],
                    decreases encoded_row.len() - k,
                {
                    let bytes = encoded_row[k].to_repr();
                    let ghost prev = self.column_digests@;
                    hasher_update(&mut self.column_digests[k], bytes.as_slice());
                    proof {
                        assert forall|j: int| 0 <= j < start.len() implies #[trigger] absorbed_of(self.column_digests@)[j]
                            == (if j == k { absorbed_of(prev)[j] + bytes@ } else { absorbed_of(prev)[j] }) by {
                        }
                    }
                    k = k + 1;
                }
                proof {
                    assert(absorbed_of(self.column_digests@) =~= fed_all(start, encoded_row@));
                }
            },
            ColumnsToCareAbout::Only(columns) => {
                let cols = columns;
                let mut j: usize = 0;
                while j < cols.len()
                    invariant
                        j <= cols@.len(),
                        self.columns_to_care_about == old(self).columns_mode(),
                        old(self).columns_mode() matches ColumnsToCareAbout::Only(v) && v@ == cols@,
                        encoded_row@.len() == start.len(),
                        self.column_digests@.len() == start.len(),
                        forall|t: int| 0 <= t < cols@.len() ==> #[trigger] cols@[t] < start.len(),
                        absorbed_of(self.column_digests@) == fed_only(start, encoded_row@, cols@.subrange(0, j as int)),
                    decreases cols.len() - j,
                {
                    let c = cols[j];
                    let bytes = encoded_row[c].to_repr();
                    let ghost prev = self.column_digests@;
                    hasher_update(&mut self.column_digests[c], bytes.as_slice());
                    proof {
                        assert forall|t: int| 0 <= t < start.len() implies #[trigger] absorbed_of(self.column_digests@)[t]
                            == (if t == c { absorbed_of(prev)[t] + bytes@ } else { absorbed_of(prev)[t] }) by {
                        }
                    }
                    proof {
                        assert(cols@.subrange(0, j + 1).drop_last() =~= cols@.subrange(0, j as int));
                        lemma_fed_only_len(start, encoded_row@, cols@.subrange(0, j as int));
                        assert(absorbed_of(self.column_digests@) =~= fed_only(start, encoded_row@, cols@.subrange(0, j + 1)));
                    }
                    j = j + 1;
                }
                proof {
                    assert(cols@.subrange(0, cols@.len() as int) =~= cols@);
                }
            },
        }
        Ok(())
    }

    /// The finished digest of every followed column.
    pub fn get_column_digests(self) -> (r: Vec<[u8; 32]>)
        ensures
            r@.len() == self.absorbed().len(),
            forall|k: int| 0 <= k < r@.len() ==> (#[trigger] r@[k])@ == blake3_digest(self.absorbed()[k]),
    {
        let mut hashes: Vec<[u8; 32]> = Vec::new();
        let mut k: usize = 0;
        while k < self.column_digests.len()
            invariant
                k <= self.column_digests@.len(),
                hashes@.len() == k,
                forall|j: int|
                    0 <= j < k ==> (#[trigger] hashes@[j])@ == blake3_digest(absorbed_of(self.column_digests@)[j]),
            decreases self.column_digests.len() - k,
        {
            hashes.push(hasher_finalize(&self.column_digests[k]));
            k = k + 1;
        }
        hashes
    }

    /// The Merkle root over all column digests; refused unless every column is followed.
    pub fn finalize_to_commit(self) -> (r: Result<[u8; 32], AccumulatorError>)
        ensures
            r is Ok <==> (self.columns_mode() is All && spec_is_power_of_two(self.absorbed().len())
                && self.absorbed().len() > 2),
            r matches Err(e) ==> (e == AccumulatorError::NotAllColumnsTracked <==> !(self.columns_mode() is All)),
            r matches Ok(root) ==> exists|t: MerkleTree|
                #[trigger] t.spec_root() == root && t.shape_ok() && t.links_ok() && t.spec_width()
                    == self.absorbed().len() && forall|k: int|
                    0 <= k < self.absorbed().len() ==> (#[trigger] t.leaves()[k])@ == blake3_digest(
                        self.absorbed()[k],
                    ),
    {
        match self.finalize_to_merkle_tree() {
            Ok(tree) => Ok(tree.root()),
            Err(e) => Err(e),
        }
    }

    /// The Merkle tree over all column digests; refused unless every column is followed.
    pub fn finalize_to_merkle_tree(self) -> (r: Result<MerkleTree, AccumulatorError>)
        ensures
            r is Ok <==> (self.columns_mode() is All && spec_is_power_of_two(self.absorbed().len())
                && self.absorbed().len() > 2),
            r matches Err(e) ==> (e == AccumulatorError::NotAllColumnsTracked <==> !(self.columns_mode() is All)),
            r matches Ok(t) ==> t.shape_ok() && t.links_ok() && t.spec_width() == self.absorbed().len()
                && forall|k: int|
                0 <= k < self.absorbed().len() ==> (#[trigger] t.leaves()[k])@ == blake3_digest(
                    self.absorbed()[k],
                ),
    {
        let all = match &self.columns_to_care_about {
            ColumnsToCareAbout::All => true,
            ColumnsToCareAbout::Only(_) => false,
        };
        if !all {
            return Err(AccumulatorError::NotAllColumnsTracked);
        }
        let ghost absorbed = self.absorbed();
        let leaves = self.get_column_digests();
        match MerkleTree::new(&leaves) {
            Ok(tree) => {
                proof {
                    assert forall|k: int| 0 <= k < absorbed.len() implies (#[trigger] tree.leaves()[k])@
                        == blake3_digest(absorbed[k]) by {
                        assert(tree.leaves()[k] == leaves@[k]);
                    }
                }
                Ok(tree)
            },
            Err(e) => Err(AccumulatorError::Tree(e)),
        }
    }
}

proof fn lemma_fed_only_len(acc: Seq<Seq<u8>>, row: Seq<WriteableFt63>, cols: Seq<usize>)
    requires
        forall|t: int| 0 <= t < cols.len() ==> #[trigger] cols[t] < acc.len(),
    ensures
        fed_only(acc, row, cols).len() == acc.len(),
    decreases cols.len(),
{
    if cols.len() > 0 {
        lemma_fed_only_len(acc, row, cols.drop_last());
    }
}

} // verus!
