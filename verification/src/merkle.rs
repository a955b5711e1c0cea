//! Merkle commitments to the rows of a matrix.
use crate::encoding::lemma_sizes;
use crate::field::{Ext, Felt};
use crate::poly::coeffs::lift_all;
use crate::poly::vector::all_canonical;
use crate::types::ExtField;
use p3_commit::{ExtensionMmcs, Mmcs};
use p3_field::{BasedVectorSpace, PrimeCharacteristicRing, PrimeField64};
use p3_goldilocks::Goldilocks;
use p3_keccak::Keccak256Hash;
use p3_matrix::dense::RowMajorMatrix;
use p3_matrix::extension::FlatMatrixView;
use p3_merkle_tree::{MerkleTree, MerkleTreeMmcs};
use p3_symmetric::{CompressionFunctionFromHasher, SerializingHasher};
use vstd::arithmetic::power2::pow2;
use vstd::prelude::*;

verus! {

/// The prover's side of a commitment to a matrix over the base field.
pub type BaseTree = MerkleTree<Goldilocks, u8, RowMajorMatrix<Goldilocks>, 32>;

/// The prover's side of a commitment to a matrix over the extension field.
pub type ExtTree = MerkleTree<
    Goldilocks,
    u8,
    FlatMatrixView<Goldilocks, ExtField, RowMajorMatrix<ExtField>>,
    32,
>;

type BaseMmcs = MerkleTreeMmcs<
    Goldilocks,
    u8,
    SerializingHasher<Keccak256Hash>,
    CompressionFunctionFromHasher<Keccak256Hash, 2, 32>,
    32,
>;

/// The rows of the matrix `values`, which is stored row by row.
pub open spec fn rows_of<T>(values: Seq<T>, width: nat) -> Seq<Seq<T>> {
    Seq::new(
        values.len() / width,
        |i: int| values.subrange(i * width, i * width + width),
    )
}

/// A matrix with `2^log_size` entries has `2^(log_size - log_width)` rows of `2^log_width` entries.
pub proof fn lemma_rows_shape<T>(values: Seq<T>, log_size: nat, log_width: nat)
    requires
        log_width <= log_size,
        values.len() == pow2(log_size),
    ensures
        pow2(log_width) > 0,
        values.len() > 0,
        values.len() % pow2(log_width) == 0,
        rows_of(values, pow2(log_width)).len() == pow2((log_size - log_width) as nat),
        forall|i: int|
            0 <= i < pow2((log_size - log_width) as nat) ==> (#[trigger] rows_of(
                values,
                pow2(log_width),
            )[i]).len() == pow2(log_width),
{
    lemma_sizes(log_size, log_width);
    assert forall|i: int| 0 <= i < pow2((log_size - log_width) as nat) implies (
    #[trigger] rows_of(values, pow2(log_width))[i]).len() == pow2(log_width) by {
        lemma_row_bounds(log_size, log_width, i);
    }
}

/// Row `i` lies within the matrix.
pub proof fn lemma_row_bounds(log_size: nat, log_width: nat, i: int)
    requires
        log_width <= log_size,
        0 <= i < pow2((log_size - log_width) as nat),
    ensures
        0 <= i * pow2(log_width),
        i * pow2(log_width) + pow2(log_width) <= pow2(log_size),
{
    let w = pow2(log_width);
    let h = pow2((log_size - log_width) as nat);
    lemma_sizes(log_size, log_width);
    assert(0 <= i * w && i * w + w <= w * h) by (nonlinear_arith)
        requires
            0 <= i,
            i + 1 <= h,
    ;
}

/// The digests of a path, as sequences of bytes.
pub open spec fn path_view(path: Seq<[u8; 32]>) -> Seq<Seq<u8>> {
    Seq::new(path.len(), |i: int| path[i]@)
}

/// A committed matrix: its rows, and the authentication path of each of them.
#[verifier::ext_equal]
pub struct TreeView<F> {
    pub rows: Seq<Seq<F>>,
    pub paths: Seq<Seq<Seq<u8>>>,
}

/// Opened rows, with their authentication paths.
#[verifier::ext_equal]
pub struct OpeningsView<F> {
    pub leaves: Seq<Seq<F>>,
    pub paths: Seq<Seq<Seq<u8>>>,
}

impl<F> TreeView<F> {
    /// The rows with the given indices, opened.
    pub open spec fn open(self, indices: Seq<usize>) -> OpeningsView<F> {
        OpeningsView {
            leaves: Seq::new(indices.len(), |i: int| self.rows[indices[i] as int]),
            paths: Seq::new(indices.len(), |i: int| self.paths[indices[i] as int]),
        }
    }

    /// There are `2^log_height` rows with `2^log_width` entries each.
    pub open spec fn shaped(self, log_height: nat, log_width: nat) -> bool {
        &&& self.rows.len() == pow2(log_height)
        &&& forall|i: int|
            0 <= i < self.rows.len() ==> (#[trigger] self.rows[i]).len() == pow2(log_width)
    }
}

/// Authentication paths.
pub type Proof = Vec<Vec<[u8; 32]>>;

/// Rows of a matrix.
pub type Leafs<F> = Vec<Vec<F>>;

/// Opened rows as sequences.
pub open spec fn openings_view<F>(opened: (Leafs<F>, Proof)) -> OpeningsView<F> {
    OpeningsView {
        leaves: Seq::new(opened.0@.len(), |i: int| opened.0@[i]@),
        paths: Seq::new(opened.1@.len(), |i: int| path_view(opened.1@[i]@)),
    }
}

/// The committed matrix.
pub open spec fn base_tree_view(tree: BaseTree) -> TreeView<Felt> {
    TreeView { rows: base_rows(tree), paths: base_paths(tree) }
}

/// The committed matrix.
pub open spec fn ext_tree_view(tree: ExtTree) -> TreeView<Ext> {
    TreeView { rows: ext_rows(tree), paths: ext_paths(tree) }
}

/// The rows that the leaves of the tree open to.
pub uninterp spec fn base_rows(tree: BaseTree) -> Seq<Seq<Felt>>;

/// The authentication paths of the leaves of the tree.
pub uninterp spec fn base_paths(tree: BaseTree) -> Seq<Seq<Seq<u8>>>;

/// The rows that the leaves of the tree open to.
pub uninterp spec fn ext_rows(tree: ExtTree) -> Seq<Seq<Ext>>;

/// The authentication paths of the leaves of the tree.
pub uninterp spec fn ext_paths(tree: ExtTree) -> Seq<Seq<Seq<u8>>>;

/// The root of the tree over the given rows, and the authentication paths of its leaves.
pub uninterp spec fn base_commitment(rows: Seq<Seq<Felt>>) -> (Seq<u8>, Seq<Seq<Seq<u8>>>);

/// The root of the tree over the given rows, and the authentication paths of its leaves.
pub uninterp spec fn ext_commitment(rows: Seq<Seq<Ext>>) -> (Seq<u8>, Seq<Seq<Seq<u8>>>);

/// Commits to the rows of a matrix over the base field.
///
/// Trusted: calls `Mmcs::commit_matrix` of `MerkleTreeMmcs` with Keccak-256 as the hash of the
/// rows and of the nodes. The tree keeps the rows that it was built from; its root and its paths
/// are a function of them. How they come from the hashes of the rows is not said here.
#[verifier::external_body]
pub(crate) fn commit_base_matrix(values: &Vec<Felt>, width: usize) -> (res: ([u8; 32], BaseTree))
    requires
        width > 0,
        values@.len() > 0,
        values@.len() % (width as nat) == 0,
        all_canonical(lift_all(values@)),
    ensures
        base_rows(res.1) == rows_of(values@, width as nat),
        (res.0@, base_paths(res.1)) == base_commitment(base_rows(res.1)),
{
    let hash = SerializingHasher::new(Keccak256Hash {});
    let mmcs = BaseMmcs::new(hash, CompressionFunctionFromHasher::new(Keccak256Hash {}));
    let values = values.iter().map(|x| Goldilocks::from_u64(x.value)).collect();
    let (root, tree) = mmcs.commit_matrix(RowMajorMatrix::new(values, width));
    (root.into(), tree)
}

/// Commits to the rows of a matrix over the extension field.
///
/// Trusted: calls `Mmcs::commit_matrix` of `ExtensionMmcs` over `MerkleTreeMmcs` with Keccak-256
/// as the hash of the rows and of the nodes. The tree keeps the rows that it was built from; its
/// root and its paths are a function of them. How they come from the hashes of the rows is not
/// said here.
#[verifier::external_body]
pub(crate) fn commit_ext_matrix(values: &Vec<Ext>, width: usize) -> (res: ([u8; 32], ExtTree))
    requires
        width > 0,
        values@.len() > 0,
        values@.len() % (width as nat) == 0,
        all_canonical(values@),
    ensures
        ext_rows(res.1) == rows_of(values@, width as nat),
        (res.0@, ext_paths(res.1)) == ext_commitment(ext_rows(res.1)),
{
    let hash = SerializingHasher::new(Keccak256Hash {});
    let mmcs = BaseMmcs::new(hash, CompressionFunctionFromHasher::new(Keccak256Hash {}));
    let mmcs = ExtensionMmcs::<Goldilocks, ExtField, BaseMmcs>::new(mmcs);
    let values = values.iter().map(|x| {
        ExtField::from_basis_coefficients_fn(|i| Goldilocks::from_u64([x.c0, x.c1][i]))
    }).collect();
    let (root, tree) = mmcs.commit_matrix(RowMajorMatrix::new(values, width));
    (root.into(), tree)
}

/// Opens one row of a commitment over the base field.
///
/// Trusted: calls `Mmcs::open_batch` of `MerkleTreeMmcs` and takes the row of the first matrix. It
/// returns the row that was committed at that index and the siblings on the way to the root; an
/// index that is no row makes it panic.
#[verifier::external_body]
pub(crate) fn open_base_row(index: usize, tree: &BaseTree) -> (res: (Vec<Felt>, Vec<[u8; 32]>))
    requires
        index < base_rows(*tree).len(),
    ensures
        res.0@ == base_rows(*tree)[index as int],
        path_view(res.1@) == base_paths(*tree)[index as int],
{
    let hash = SerializingHasher::new(Keccak256Hash {});
    let mmcs = BaseMmcs::new(hash, CompressionFunctionFromHasher::new(Keccak256Hash {}));
    let (leaf, path) = mmcs.open_batch(index, tree).unpack();
    (leaf[0].iter().map(|x| Felt { value: x.as_canonical_u64() }).collect(), path)
}

/// Opens one row of a commitment over the extension field.
///
/// Trusted: calls `Mmcs::open_batch` of `ExtensionMmcs` over `MerkleTreeMmcs` and takes the row of
/// the first matrix. It returns the row that was committed at that index and the siblings on the
/// way to the root; an index that is no row makes it panic.
#[verifier::external_body]
pub(crate) fn open_ext_row(index: usize, tree: &ExtTree) -> (res: (Vec<Ext>, Vec<[u8; 32]>))
    requires
        index < ext_rows(*tree).len(),
    ensures
        res.0@ == ext_rows(*tree)[index as int],
        path_view(res.1@) == ext_paths(*tree)[index as int],
{
    let hash = SerializingHasher::new(Keccak256Hash {});
    let mmcs = BaseMmcs::new(hash, CompressionFunctionFromHasher::new(Keccak256Hash {}));
    let mmcs = ExtensionMmcs::<Goldilocks, ExtField, BaseMmcs>::new(mmcs);
    let (leaf, path) = mmcs.open_batch(index, tree).unpack();
    let row = leaf[0].iter().map(|x| {
        let c: &[Goldilocks] = x.as_basis_coefficients_slice();
        Ext { c0: c[0].as_canonical_u64(), c1: c[1].as_canonical_u64() }
    }).collect();
    (row, path)
}

/// Opens the rows with the given indices.
pub fn open_base_rows(indices: &Vec<usize>, tree: &BaseTree) -> (res: (Leafs<Felt>, Proof))
    requires
        forall|i: int|
            0 <= i < indices@.len() ==> #[trigger] indices@[i] < base_tree_view(*tree).rows.len(),
    ensures
        openings_view(res) == base_tree_view(*tree).open(indices@),
{
    let n: usize = indices.len();
    let mut leaves: Leafs<Felt> = Vec::new();
    let mut paths: Proof = Vec::new();
    for i in 0..n
        invariant
            n == indices@.len(),
            forall|i: int|
                0 <= i < indices@.len() ==> #[trigger] indices@[i] < base_rows(*tree).len(),
            leaves@.len() == i,
            paths@.len() == i,
            forall|k: int|
                0 <= k < i ==> (#[trigger] leaves@[k])@ == base_rows(*tree)[indices@[k] as int],
            forall|k: int|
                0 <= k < i ==> path_view((#[trigger] paths@[k])@) == base_paths(
                    *tree,
                )[indices@[k] as int],
    {
        let (leaf, path) = open_base_row(indices[i], tree);
        leaves.push(leaf);
        paths.push(path);
    }
    assert(openings_view((leaves, paths)) =~= base_tree_view(*tree).open(indices@));
    (leaves, paths)
}

/// Opens the rows with the given indices.
pub fn open_ext_rows(indices: &Vec<usize>, tree: &ExtTree) -> (res: (Leafs<Ext>, Proof))
    requires
        forall|i: int|
            0 <= i < indices@.len() ==> #[trigger] indices@[i] < ext_tree_view(*tree).rows.len(),
    ensures
        openings_view(res) == ext_tree_view(*tree).open(indices@),
{
    let n: usize = indices.len();
    let mut leaves: Leafs<Ext> = Vec::new();
    let mut paths: Proof = Vec::new();
    for i in 0..n
        invariant
            n == indices@.len(),
            forall|i: int|
                0 <= i < indices@.len() ==> #[trigger] indices@[i] < ext_rows(*tree).len(),
            leaves@.len() == i,
            paths@.len() == i,
            forall|k: int|
                0 <= k < i ==> (#[trigger] leaves@[k])@ == ext_rows(*tree)[indices@[k] as int],
            forall|k: int|
                0 <= k < i ==> path_view((#[trigger] paths@[k])@) == ext_paths(
                    *tree,
                )[indices@[k] as int],
    {
        let (leaf, path) = open_ext_row(indices[i], tree);
        leaves.push(leaf);
        paths.push(path);
    }
    assert(openings_view((leaves, paths)) =~= ext_tree_view(*tree).open(indices@));
    (leaves, paths)
}

// What an opening holds.

/// The row and the path of each opening are those of the same index, the queried one.
pub proof fn law_open_entries<F>(tree: TreeView<F>, indices: Seq<usize>)
    ensures
        tree.open(indices).leaves.len() == indices.len(),
        tree.open(indices).paths.len() == indices.len(),
        forall|i: int|
            0 <= i < indices.len() ==> #[trigger] tree.open(indices).leaves[i]
                == tree.rows[indices[i] as int],
        forall|i: int|
            0 <= i < indices.len() ==> #[trigger] tree.open(indices).paths[i]
                == tree.paths[indices[i] as int],
{
}

/// Opened rows as sequences are the rows and the paths that are handed over, in their order.
pub proof fn law_openings_view<F>(opened: (Leafs<F>, Proof))
    ensures
        openings_view(opened).leaves.len() == opened.0@.len(),
        openings_view(opened).paths.len() == opened.1@.len(),
        forall|i: int|
            0 <= i < opened.0@.len() ==> #[trigger] openings_view(opened).leaves[i]
                == opened.0@[i]@,
        forall|i: int|
            0 <= i < opened.1@.len() ==> (#[trigger] openings_view(opened).paths[i]).len()
                == opened.1@[i]@.len(),
        forall|i: int, j: int|
            0 <= i < opened.1@.len() && 0 <= j < opened.1@[i]@.len() ==> #[trigger] openings_view(
                opened,
            ).paths[i][j] == opened.1@[i]@[j]@,
{
}

/// The rows of a matrix hold its entries, row by row.
pub proof fn law_rows<T>(values: Seq<T>, log_size: nat, log_width: nat, i: int, j: int)
    requires
        log_width <= log_size,
        values.len() == pow2(log_size),
        0 <= i < pow2((log_size - log_width) as nat),
        0 <= j < pow2(log_width),
    ensures
        rows_of(values, pow2(log_width)).len() == pow2((log_size - log_width) as nat),
        rows_of(values, pow2(log_width))[i].len() == pow2(log_width),
        rows_of(values, pow2(log_width))[i][j] == values[i * pow2(log_width) + j],
{
    lemma_rows_shape(values, log_size, log_width);
    lemma_row_bounds(log_size, log_width, i);
    assert(rows_of(values, pow2(log_width))[i].len() == pow2(log_width));
}

} // verus!
