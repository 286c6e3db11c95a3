use vstd::prelude::*;

use crate::fields::is_power_of_two;
use crate::fields::spec_is_power_of_two;
use crate::lcpc_online::hashing::{blake3_digest, digest_eq, hash_pair, hasher_absorbed, hasher_finalize};

verus! {

/// Number of bytes in one digest.
pub const DIGEST_LEN: usize = 32;

/// Why a Merkle tree could not be built.
#[derive(Debug, Clone, Copy, PartialEq, Eq, Structural)]
pub enum MerkleTreeError {
    /// The number of leaves is not a power of two.
    NotPowerOfTwo,
    /// The tree would have two leaves or fewer.
    TooSmall,
}

/// The parent digest of two nodes.
pub open spec fn parent_digest(left: [u8; 32], right: [u8; 32]) -> Seq<u8> {
    blake3_digest(left@ + right@)
}

/// `nodes` lays out a complete binary tree with `width` leaves: the leaves first, then
/// each level of parents, the root last.  Node `width + j` is the hash of nodes `2j`
/// and `2j + 1`.
pub open spec fn merkle_links(nodes: Seq<[u8; 32]>, width: nat) -> bool {
    forall|j: int|
        0 <= j < width - 1 ==> (#[trigger] nodes[width + j])@ == parent_digest(
            nodes[2 * j],
            nodes[2 * j + 1],
        )
}

/// The sibling of node `index` on its level.
pub open spec fn sibling(index: nat) -> nat {
    if index % 2 == 0 {
        index + 1
    } else {
        (index - 1) as nat
    }
}

/// The siblings met on the way from leaf `index` up to the root.
pub open spec fn spec_path(nodes: Seq<[u8; 32]>, width: nat, index: nat) -> Seq<[u8; 32]>
    decreases width,
{
    if width <= 1 {
        Seq::empty()
    } else {
        seq![nodes[sibling(index) as int]] + spec_path(nodes.skip(width as int), width / 2, index / 2)
    }
}

/// The root reached from digest `leaf` at position `index` by hashing with each digest of
/// `path` in turn, on the left when the position is odd, on the right when even.
pub open spec fn root_from_path(leaf: Seq<u8>, index: nat, path: Seq<Seq<u8>>) -> Seq<u8>
    decreases path.len(),
{
    if path.len() == 0 {
        leaf
    } else {
        let up = if index % 2 == 0 {
            blake3_digest(leaf + path[0])
        } else {
            blake3_digest(path[0] + leaf)
        };
        root_from_path(up, index / 2, path.drop_first())
    }
}

/// The digests of a sequence of digest arrays.
pub open spec fn digest_views(ds: Seq<[u8; 32]>) -> Seq<Seq<u8>> {
    ds.map_values(|d: [u8; 32]| d@)
}

/// A Merkle tree over a power-of-two number of leaf digests, stored as all its nodes:
/// the leaves, then each level of parents, the root last.
#[derive(Debug)]
pub struct MerkleTree {
    digests: Vec<[u8; 32]>,
    width: usize,
}

impl MerkleTree {
    /// All nodes of the tree, leaves first, root last.
    pub closed spec fn nodes(self) -> Seq<[u8; 32]> {
        self.digests@
    }

    /// Number of leaves.
    pub closed spec fn spec_width(self) -> nat {
        self.width as nat
    }

    /// The leaves.
    pub open spec fn leaves(self) -> Seq<[u8; 32]> {
        self.nodes().subrange(0, self.spec_width() as int)
    }

    /// The tree has the shape of a complete binary tree with at least two leaves.
    pub open spec fn shape_ok(self) -> bool {
        &&& spec_is_power_of_two(self.spec_width())
        &&& self.spec_width() >= 2
        &&& self.nodes().len() == 2 * self.spec_width() - 1
    }

    /// Every parent is the hash of its two children.
    pub open spec fn links_ok(self) -> bool {
        merkle_links(self.nodes(), self.spec_width())
    }

    /// The root digest.
    pub open spec fn spec_root(self) -> [u8; 32] {
        self.nodes().last()
    }

    /// Builds the tree over `children_leaves`, whose number must be a power of two
    /// greater than two.
    pub fn new(children_leaves: &[[u8; 32]]) -> (r: Result<Self, MerkleTreeError>)
        ensures
            r is Ok <==> (spec_is_power_of_two(children_leaves@.len()) && children_leaves@.len()
                > 2),
            r matches Err(e) ==> (e == MerkleTreeError::NotPowerOfTwo <==> !spec_is_power_of_two(
                children_leaves@.len(),
            )),
            r matches Ok(t) ==> t.shape_ok() && t.links_ok() && t.leaves()
                == children_leaves@ && t.spec_width() == children_leaves@.len(),
    {
        let width = children_leaves.len();
        if width == 0 || !is_power_of_two(width) {
            return Err(MerkleTreeError::NotPowerOfTwo);
        }
        if width <= 2 {
            return Err(MerkleTreeError::TooSmall);
        }
        let digests = merkle_nodes(children_leaves);
        Ok(MerkleTree { digests, width })
    }

    /// Builds the tree over the digests of the given incremental hashers.
    pub fn new_from_hashers(hashers: Vec<blake3::Hasher>) -> (r: Result<Self, MerkleTreeError>)
        ensures
            r is Ok <==> (spec_is_power_of_two(hashers@.len()) && hashers@.len() > 2),
            r matches Err(e) ==> (e == MerkleTreeError::NotPowerOfTwo <==> !spec_is_power_of_two(
                hashers@.len(),
            )),
            r matches Ok(t) ==> t.shape_ok() && t.links_ok() && t.spec_width() == hashers@.len()
                && forall|i: int|
                0 <= i < hashers@.len() ==> (#[trigger] t.leaves()[i])@ == blake3_digest(
                    hasher_absorbed(hashers@[i]),
                ),
    {
        let mut digests: Vec<[u8; 32]> = Vec::new();
        let mut i: usize = 0;
        while i < hashers.len()
            invariant
                i <= hashers@.len(),
                digests@.len() == i,
                forall|k: int|
                    0 <= k < i ==> (#[trigger] digests@[k])@ == blake3_digest(hasher_absorbed(hashers@[k])),
            decreases hashers.len() - i,
        {
            digests.push(hasher_finalize(&hashers[i]));
            i = i + 1;
        }
        Self::new(&digests)
    }

    /// The root digest.
    pub fn root(&self) -> (r: [u8; 32])
        requires
            self.shape_ok(),
        ensures
            r == self.spec_root(),
    {
        self.digests[self.digests.len() - 1]
    }

    /// Number of nodes in the tree.
    pub fn len(&self) -> (r: usize)
        ensures
            r == self.nodes().len(),
    {
        self.digests.len()
    }

    /// Number of leaves.
    pub fn width(&self) -> (r: usize)
        ensures
            r == self.spec_width(),
    {
        self.width
    }

    /// Node `index` (leaves first, root last).
    pub fn index(&self, index: usize) -> (r: [u8; 32])
        requires
            index < self.nodes().len(),
        ensures
            r == self.nodes()[index as int],
    {
        self.digests[index]
    }

    /// The siblings on the way from leaf `index` to the root, or `None` when there is
    /// no such leaf.
    pub fn get_path(&self, index: usize) -> (r: Option<Vec<[u8; 32]>>)
        requires
            self.shape_ok(),
        ensures
            index >= self.spec_width() ==> r is None,
            index < self.spec_width() ==> (r matches Some(path) && path@ == spec_path(
                self.nodes(),
                self.spec_width(),
                index as nat,
            )),
    {
        if index >= self.width {
            return None;
        }
        Some(path_in_nodes(&self.digests, self.width, index))
    }

    /// All node digests back to back.
    pub fn to_bytes(&self) -> (r: Vec<u8>)
        ensures
            r@ == nodes_to_bytes(self.nodes()),
    {
        let mut out: Vec<u8> = Vec::new();
        let mut i: usize = 0;
        while i < self.digests.len()
            invariant
                i <= self.digests@.len(),
                out@.len() == 32 * i,
                forall|k: int, t: int|
                    0 <= k < i && 0 <= t < 32 ==> out@[32 * k + t] == #[trigger] self.digests@[k][t],
            decreases self.digests.len() - i,
        {
            let d = self.digests[i];
            let mut t: usize = 0;
            while t < 32
                invariant
                    t <= 32,
                    i < self.digests@.len(),
                    d == self.digests@[i as int],
                    out@.len() == 32 * i + t,
                    forall|k: int, s: int|
                        0 <= k < i && 0 <= s < 32 ==> out@[32 * k + s] == #[trigger] self.digests@[k][s],
                    forall|s: int| 0 <= s < t ==> out@[32 * i + s] == d[s],
                decreases 32 - t,
            {
                out.push(d[t]);
                t = t + 1;
            }
            proof {
                assert forall|k: int, s: int| 0 <= k < i + 1 && 0 <= s < 32 implies out@[32 * k + s]
                    == #[trigger] self.digests@[k][s] by {
                    if k == i {
                        assert(out@[32 * i + s] == d[s]);
                    }
                }
            }
            i = i + 1;
        }
        proof {
            assert forall|j: int| 0 <= j < out@.len() implies out@[j] == nodes_to_bytes(self.digests@)[j] by {
                let k = j / 32;
                let s = j % 32;
                vstd::arithmetic::div_mod::lemma_fundamental_div_mod(j, 32);
                vstd::arithmetic::div_mod::lemma_mod_bound(j, 32);
                vstd::arithmetic::div_mod::lemma_div_pos_is_pos(j, 32);
                vstd::arithmetic::div_mod::lemma_multiply_divide_lt(j, 32, self.digests@.len() as int);
                assert(out@[32 * k + s] == self.digests@[k][s]);
            }
            assert(out@ =~= nodes_to_bytes(self.digests@));
        }
        out
    }

    /// Reads a tree from its node digests back to back.  The number of whole digests
    /// must be one less than a power of two and more than two; bytes past the last
    /// whole digest are ignored.
    pub fn from_bytes(bytes: &[u8]) -> (r: Result<Self, MerkleTreeError>)
        ensures
            r is Ok <==> (spec_is_power_of_two(bytes@.len() / 32 + 1) && bytes@.len() / 32 > 2),
            r matches Ok(t) ==> t.shape_ok(),
            r matches Ok(t) ==> t.nodes().len() == bytes@.len() / 32 && t.spec_width() == (
            bytes@.len() / 32 + 1) / 2 && (forall|i: int, s: int|
                0 <= i < t.nodes().len() && 0 <= s < 32 ==> #[trigger] t.nodes()[i][s]
                    == bytes@[32 * i + s]),
    {
        let num_digests = bytes.len() / DIGEST_LEN;
        if !is_power_of_two(num_digests + 1) {
            return Err(MerkleTreeError::NotPowerOfTwo);
        }
        if num_digests <= 2 {
            return Err(MerkleTreeError::TooSmall);
        }
        let mut digests: Vec<[u8; 32]> = Vec::new();
        let mut i: usize = 0;
        let blen = bytes.len();
        while i < num_digests
            invariant
                i <= num_digests,
                blen == bytes@.len(),
                num_digests == bytes@.len() / 32,
                digests@.len() == i,
                forall|k: int, s: int|
                    0 <= k < i && 0 <= s < 32 ==> #[trigger] digests@[k][s] == bytes@[32 * k + s],
            decreases num_digests - i,
        {
            let mut d: [u8; 32] = [0u8; 32];
            let mut t: usize = 0;
            proof {
                assert(32 * i + 32 <= bytes@.len()) by (nonlinear_arith)
                    requires
                        i < num_digests,
                        num_digests == bytes@.len() / 32,
                ;
            }
            while t < 32
                invariant
                    t <= 32,
                    blen == bytes@.len(),
                    32 * i + 32 <= bytes@.len(),
                    forall|s: int| 0 <= s < t ==> d[s] == bytes@[32 * i + s],
                decreases 32 - t,
            {
                d[t] = bytes[32 * i + t];
                t = t + 1;
            }
            digests.push(d);
            i = i + 1;
        }
        Ok(MerkleTree { digests, width: (num_digests + 1) / 2 })
    }

    /// Whether two trees have the same width and the same nodes.
    pub fn eq(&self, other: &Self) -> (r: bool)
        requires
            self.shape_ok(),
            other.shape_ok(),
        ensures
            r == (self.spec_width() == other.spec_width() && self.nodes() == other.nodes()),
    {
        if self.width != other.width {
            return false;
        }
        let mut i: usize = 0;
        while i < self.digests.len()
            invariant
                i <= self.digests@.len(),
                self.digests@.len() == other.digests@.len(),
                forall|k: int| 0 <= k < i ==> self.digests@[k] == other.digests@[k],
            decreases self.digests.len() - i,
        {
            if !digest_eq(&self.digests[i], &other.digests[i]) {
                return false;
            }
            i = i + 1;
        }
        proof {
            assert(self.digests@ =~= other.digests@);
        }
        true
    }

    /// A copy of the tree.
    pub fn clone(&self) -> (r: Self)
        ensures
            r.nodes() == self.nodes(),
            r.spec_width() == self.spec_width(),
    {
        let mut digests: Vec<[u8; 32]> = Vec::new();
        let mut i: usize = 0;
        while i < self.digests.len()
            invariant
                i <= self.digests@.len(),
                digests@ =~= self.digests@.subrange(0, i as int),
            decreases self.digests.len() - i,
        {
            digests.push(self.digests[i]);
            i = i + 1;
        }
        MerkleTree { digests, width: self.width }
    }

    /// All node digests, leaves first, root last.
    pub fn into_digests(self) -> (r: Vec<[u8; 32]>)
        ensures
            r@ == self.nodes(),
    {
        self.digests
    }
}

/// All nodes of the complete binary tree over `leaves`: the leaves, then each level of
/// parents, the root last.
pub fn merkle_nodes(leaves: &[[u8; 32]]) -> (r: Vec<[u8; 32]>)
    requires
        spec_is_power_of_two(leaves@.len()),
    ensures
        r@.len() == 2 * leaves@.len() - 1,
        r@.subrange(0, leaves@.len() as int) == leaves@,
        merkle_links(r@, leaves@.len()),
{
    let width = leaves.len();
    proof {
        lemma_level_shape(width as nat);
    }
    let mut digests: Vec<[u8; 32]> = Vec::new();
    let mut i: usize = 0;
    while i < width
        invariant
            i <= width,
            width == leaves@.len(),
            digests@ =~= leaves@.subrange(0, i as int),
        decreases width - i,
    {
        digests.push(leaves[i]);
        i = i + 1;
    }
    let mut j: usize = 0;
    while j < width - 1
        invariant
            j <= width - 1,
            width >= 1,
            width == leaves@.len(),
            digests@.len() == width + j,
            digests@.subrange(0, width as int) == leaves@,
            forall|k: int|
                0 <= k < j ==> (#[trigger] digests@[width + k])@ == parent_digest(
                    digests@[2 * k],
                    digests@[2 * k + 1],
                ),
        decreases width - 1 - j,
    {
        let cur = digests.len();
        proof {
            assert(2 * j + 1 < cur);
        }
        let parent = hash_pair(&digests[2 * j], &digests[2 * j + 1]);
        digests.push(parent);
        j = j + 1;
    }
    digests
}

/// The siblings on the way from leaf `index` up to the root of the tree whose nodes
/// are `nodes`.
pub fn path_in_nodes(nodes: &[[u8; 32]], width: usize, index: usize) -> (r: Vec<[u8; 32]>)
    requires
        spec_is_power_of_two(width as nat),
        nodes@.len() == 2 * width - 1,
        index < width,
    ensures
        r@ == spec_path(nodes@, width as nat, index as nat),
{
    let mut path: Vec<[u8; 32]> = Vec::new();
    let mut offset: usize = 0;
    let mut level_width: usize = width;
    let mut idx: usize = index;
    let ghost full = nodes@;
    let total = nodes.len();
    proof {
        assert(full.skip(0) =~= full);
        lemma_level_shape(width as nat);
    }
    while level_width > 1
        invariant
            total == full.len(),
            spec_is_power_of_two(level_width as nat),
            level_width >= 1,
            idx < level_width,
            offset + 2 * level_width - 1 == full.len(),
            full == nodes@,
            full.len() == 2 * width - 1,
            path@ + spec_path(full.skip(offset as int), level_width as nat, idx as nat) == spec_path(
                full,
                width as nat,
                index as nat,
            ),
        decreases level_width,
    {
        let other = if idx % 2 == 0 {
            idx + 1
        } else {
            idx - 1
        };
        proof {
            lemma_pow2_even(level_width as nat);
            assert(other < level_width);
        }
        let ghost rest = full.skip(offset as int);
        let ghost sub = spec_path(rest, level_width as nat, idx as nat);
        proof {
            assert(rest.skip(level_width as int) =~= full.skip(offset + level_width));
            assert(sub == seq![rest[other as int]] + spec_path(
                full.skip(offset + level_width),
                (level_width / 2) as nat,
                (idx / 2) as nat,
            ));
            assert(path@.push(rest[other as int]) + spec_path(
                full.skip(offset + level_width),
                (level_width / 2) as nat,
                (idx / 2) as nat,
            ) =~= path@ + sub);
        }
        path.push(nodes[offset + other]);
        offset = offset + level_width;
        level_width = level_width / 2;
        idx = idx / 2;
    }
    proof {
        assert(path@ + Seq::<[u8; 32]>::empty() =~= path@);
    }
    path
}

proof fn lemma_pow2_even(w: nat)
    requires
        spec_is_power_of_two(w),
        w > 1,
    ensures
        w % 2 == 0,
        spec_is_power_of_two(w / 2),
{
}

proof fn lemma_level_shape(w: nat)
    requires
        spec_is_power_of_two(w),
    ensures
        w >= 1,
{
}

/// Two well-linked trees with the same leaf digests have the same node digests.
pub proof fn lemma_merkle_nodes_agree(a: Seq<[u8; 32]>, b: Seq<[u8; 32]>, w: nat, i: nat)
    requires
        a.len() == 2 * w - 1,
        b.len() == 2 * w - 1,
        merkle_links(a, w),
        merkle_links(b, w),
        forall|j: int| 0 <= j < w ==> (#[trigger] a[j])@ == b[j]@,
        i < 2 * w - 1,
    ensures
        a[i as int]@ == b[i as int]@,
    decreases i,
{
    if i >= w {
        let j: int = i - w;
        lemma_merkle_nodes_agree(a, b, w, (2 * j) as nat);
        lemma_merkle_nodes_agree(a, b, w, (2 * j + 1) as nat);
        assert(a[w + j]@ == parent_digest(a[2 * j], a[2 * j + 1]));
        assert(b[w + j]@ == parent_digest(b[2 * j], b[2 * j + 1]));
        assert(a[2 * j] =~= b[2 * j]);
        assert(a[2 * j + 1] =~= b[2 * j + 1]);
    }
}

/// Two well-formed trees over the same leaf digests are the same tree.
pub proof fn lemma_trees_with_same_leaves(a: MerkleTree, b: MerkleTree)
    requires
        a.shape_ok(),
        b.shape_ok(),
        a.links_ok(),
        b.links_ok(),
        a.spec_width() == b.spec_width(),
        forall|c: int| 0 <= c < a.spec_width() ==> (#[trigger] a.leaves()[c])@ == b.leaves()[c]@,
    ensures
        a.nodes() == b.nodes(),
{
    let w = a.spec_width();
    assert forall|j: int| 0 <= j < w implies (#[trigger] a.nodes()[j])@ == b.nodes()[j]@ by {
        assert(a.nodes()[j] == a.leaves()[j]);
        assert(b.nodes()[j] == b.leaves()[j]);
    }
    assert forall|i: int| 0 <= i < a.nodes().len() implies a.nodes()[i] == b.nodes()[i] by {
        lemma_merkle_nodes_agree(a.nodes(), b.nodes(), w, i as nat);
        assert(a.nodes()[i] =~= b.nodes()[i]);
    }
    assert(a.nodes() =~= b.nodes());
}

/// The nodes above the leaves form a tree over half as many leaves.
proof fn lemma_upper_levels(nodes: Seq<[u8; 32]>, w: nat)
    requires
        spec_is_power_of_two(w),
        w > 1,
        nodes.len() == 2 * w - 1,
        merkle_links(nodes, w),
    ensures
        spec_is_power_of_two(w / 2),
        nodes.skip(w as int).len() == 2 * (w / 2) - 1,
        merkle_links(nodes.skip(w as int), w / 2),
        nodes.skip(w as int).last() == nodes.last(),
{
    lemma_pow2_even(w);
    let rest = nodes.skip(w as int);
    assert forall|j: int| 0 <= j < w / 2 - 1 implies (#[trigger] rest[w / 2 + j])@ == parent_digest(
        rest[2 * j],
        rest[2 * j + 1],
    ) by {
        assert(rest[w / 2 + j] == nodes[w + (w / 2 + j)]);
        assert(2 * (w / 2 + j) == w + 2 * j);
    }
}

/// Hashing a leaf with the siblings on its path gives the root: the path that
/// `get_path` hands out for a leaf checks against the root of a well-linked tree.
pub proof fn lemma_path_leads_to_root(nodes: Seq<[u8; 32]>, w: nat, index: nat)
    requires
        spec_is_power_of_two(w),
        nodes.len() == 2 * w - 1,
        merkle_links(nodes, w),
        index < w,
    ensures
        root_from_path(nodes[index as int]@, index, digest_views(spec_path(nodes, w, index)))
            == nodes.last()@,
    decreases w,
{
    if w <= 1 {
        assert(w == 1);
        assert(digest_views(spec_path(nodes, w, index)) =~= Seq::<Seq<u8>>::empty());
    } else {
        lemma_upper_levels(nodes, w);
        let rest = nodes.skip(w as int);
        lemma_path_leads_to_root(rest, w / 2, index / 2);
        let parent: int = (index / 2) as int;
        assert(rest[parent] == nodes[w + parent]);
        assert(nodes[w + parent]@ == parent_digest(nodes[2 * parent], nodes[2 * parent + 1]));
        let path = spec_path(nodes, w, index);
        assert(digest_views(path).drop_first() =~= digest_views(spec_path(rest, w / 2, index / 2)));
        assert(digest_views(path)[0] == nodes[sibling(index) as int]@);
        if index % 2 == 0 {
            assert(2 * parent == index);
        } else {
            assert(2 * parent + 1 == index);
        }
    }
}

/// The number of levels above the leaves of a tree with `width` leaves: `log2(width)`.
pub open spec fn tree_depth(width: nat) -> nat
    decreases width,
{
    if width <= 1 {
        0
    } else {
        1 + tree_depth(width / 2)
    }
}

proof fn lemma_path_len(nodes: Seq<[u8; 32]>, width: nat, index: nat)
    ensures
        spec_path(nodes, width, index).len() == tree_depth(width),
    decreases width,
{
    if width > 1 {
        lemma_path_len(nodes.skip(width as int), width / 2, index / 2);
    }
}

/// A built tree: every leaf's path has one sibling per level and checks against the
/// root.
pub proof fn lemma_tree_paths_verify(t: MerkleTree, index: nat)
    requires
        t.shape_ok(),
        t.links_ok(),
        index < t.spec_width(),
    ensures
        spec_path(t.nodes(), t.spec_width(), index).len() == tree_depth(t.spec_width()),
        root_from_path(
            t.nodes()[index as int]@,
            index,
            digest_views(spec_path(t.nodes(), t.spec_width(), index)),
        ) == t.spec_root()@,
{
    lemma_path_len(t.nodes(), t.spec_width(), index);
    lemma_path_leads_to_root(t.nodes(), t.spec_width(), index);
}

/// The bytes of all node digests back to back.
pub open spec fn nodes_to_bytes(nodes: Seq<[u8; 32]>) -> Seq<u8> {
    Seq::new(32 * nodes.len(), |j: int| nodes[j / 32][j % 32])
}

proof fn lemma_double_pow2(w: nat)
    requires
        spec_is_power_of_two(w),
    ensures
        spec_is_power_of_two(2 * w),
{
    assert((2 * w) / 2 == w);
}

/// A tree read back from its bytes is the same tree, and the bytes of a well-shaped
/// tree are always accepted.
pub proof fn lemma_bytes_roundtrip(t: MerkleTree, u: MerkleTree)
    requires
        t.shape_ok(),
        u.nodes().len() == nodes_to_bytes(t.nodes()).len() / 32,
        u.spec_width() == (nodes_to_bytes(t.nodes()).len() / 32 + 1) / 2,
        forall|i: int, s: int|
            0 <= i < u.nodes().len() && 0 <= s < 32 ==> #[trigger] u.nodes()[i][s]
                == nodes_to_bytes(t.nodes())[32 * i + s],
    ensures
        spec_is_power_of_two(nodes_to_bytes(t.nodes()).len() / 32 + 1),
        nodes_to_bytes(t.nodes()).len() / 32 > 2,
        u.nodes() == t.nodes(),
        u.spec_width() == t.spec_width(),
{
    let b = nodes_to_bytes(t.nodes());
    let n = t.nodes().len();
    assert(b.len() / 32 == n) by {
        vstd::arithmetic::div_mod::lemma_div_multiples_vanish(n as int, 32);
    }
    lemma_double_pow2(t.spec_width());
    assert forall|i: int| 0 <= i < n implies u.nodes()[i] == t.nodes()[i] by {
        assert forall|s: int| 0 <= s < 32 implies u.nodes()[i][s] == t.nodes()[i][s] by {
            let j = 32 * i + s;
            assert(j / 32 == i && j % 32 == s) by {
                vstd::arithmetic::div_mod::lemma_fundamental_div_mod_converse(j, 32, i, s);
            }
            assert(u.nodes()[i][s] == b[j]);
        }
        assert(u.nodes()[i] =~= t.nodes()[i]);
    }
    assert(u.nodes() =~= t.nodes());
}

} // verus!
