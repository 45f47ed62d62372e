//! Merkle commitment over a list of vector ids.
//!
//! Leaves are `SHA-256("leaf:" ++ utf8(id))`; each inner node is
//! `SHA-256("node:" ++ left ++ right)`, where the last node of a layer of odd
//! length is paired with itself. The root of the empty list is 32 zero bytes.

use vstd::prelude::*;
use vstd::utf8::{encode_utf8, encode_utf8_decode_utf8};
use crate::digest::{
    digest_eq, hex_bytes, hex_decode, hex_encode, hex_error_message, hex_lower, is_hex_text, lemma_hex_roundtrip, push_all,
    lemma_sha256_len, sha256, sha256_spec,
};

verus! {

// ---------------------------------------------------------------------------
// Mathematical model
// ---------------------------------------------------------------------------

/// The bytes of `"leaf:"`.
pub open spec fn leaf_prefix() -> Seq<u8> {
    seq![108u8, 101u8, 97u8, 102u8, 58u8]
}

/// The bytes of `"node:"`.
pub open spec fn node_prefix() -> Seq<u8> {
    seq![110u8, 111u8, 100u8, 101u8, 58u8]
}

/// Digest of a leaf over raw bytes.
pub open spec fn leaf_digest(data: Seq<u8>) -> Seq<u8> {
    sha256_spec(leaf_prefix() + data)
}

/// Digest of an inner node over its two children.
pub open spec fn node_digest(left: Seq<u8>, right: Seq<u8>) -> Seq<u8> {
    sha256_spec(node_prefix() + left + right)
}

/// Leaf digest of a vector id (its UTF-8 bytes).
pub open spec fn leaf_of(id: Seq<char>) -> Seq<u8> {
    leaf_digest(encode_utf8(id))
}

/// The leaf layer of a list of ids.
pub open spec fn leaf_digests(ids: Seq<Seq<char>>) -> Seq<Seq<u8>> {
    ids.map_values(|id: Seq<char>| leaf_of(id))
}

/// 32 zero bytes: the root of an empty collection.
pub open spec fn zero_digest() -> Seq<u8> {
    Seq::new(32, |i: int| 0u8)
}

/// Index of the right partner of position `2 * i` in a layer of length `len`
/// (the last node of an odd layer is its own partner).
pub open spec fn partner(i: int, len: int) -> int {
    if i + 1 < len { i + 1 } else { i }
}

/// The layer above `layer`: pairs of neighbours hashed together.
pub open spec fn parent_layer(layer: Seq<Seq<u8>>) -> Seq<Seq<u8>> {
    Seq::new(
        ((layer.len() + 1) / 2) as nat,
        |j: int| node_digest(layer[2 * j], layer[partner(2 * j, layer.len() as int)]),
    )
}

/// `layer` followed by every layer above it, up to a layer of at most one digest.
pub open spec fn layers_from(layer: Seq<Seq<u8>>) -> Seq<Seq<Seq<u8>>>
    decreases layer.len(),
{
    if layer.len() <= 1 {
        seq![layer]
    } else {
        seq![layer] + layers_from(parent_layer(layer))
    }
}

/// All layers of the tree over `leaves`, leaves first, root layer last.
pub open spec fn tree_layers(leaves: Seq<Seq<u8>>) -> Seq<Seq<Seq<u8>>> {
    if leaves.len() == 0 {
        seq![seq![zero_digest()]]
    } else {
        layers_from(leaves)
    }
}

/// The Merkle root over a leaf layer.
pub open spec fn merkle_root(leaves: Seq<Seq<u8>>) -> Seq<u8> {
    tree_layers(leaves).last()[0]
}

/// The Merkle root committed to by a list of ids.
pub open spec fn root_of(ids: Seq<Seq<char>>) -> Seq<u8> {
    merkle_root(leaf_digests(ids))
}

/// Sibling path of the node at `pos` in the first of `layers`, bottom-up.
/// `Right` marks a step where the running digest is the left input.
pub open spec fn path(layers: Seq<Seq<Seq<u8>>>, pos: int) -> Seq<(Seq<u8>, NodePosition)>
    decreases layers.len(),
{
    if layers.len() <= 1 {
        seq![]
    } else {
        let layer = layers[0];
        let is_right = pos % 2 == 0;
        let sibling = if is_right { partner(pos, layer.len() as int) } else { pos - 1 };
        seq![(layer[sibling], if is_right { NodePosition::Right } else { NodePosition::Left })]
            + path(layers.skip(1), pos / 2)
    }
}

/// First index of `x` in `s`, or `s.len()` when absent.
pub open spec fn first_index(s: Seq<Seq<u8>>, x: Seq<u8>) -> int
    decreases s.len(),
{
    if s.len() == 0 {
        0
    } else if s[0] == x {
        0
    } else {
        1 + first_index(s.skip(1), x)
    }
}

/// The sibling path that the tree over `ids` hands out for `id`.
pub open spec fn proof_path_of(ids: Seq<Seq<char>>, id: Seq<char>) -> Seq<(Seq<u8>, NodePosition)> {
    let leaves = leaf_digests(ids);
    path(tree_layers(leaves), first_index(leaves, leaf_of(id)))
}

/// One step of proof checking.
pub open spec fn combine(current: Seq<u8>, node: (Seq<u8>, NodePosition)) -> Seq<u8> {
    match node.1 {
        NodePosition::Right => node_digest(current, node.0),
        NodePosition::Left => node_digest(node.0, current),
    }
}

/// The digest reached by folding a sibling path onto a leaf digest.
pub open spec fn fold_path(leaf: Seq<u8>, nodes: Seq<(Seq<u8>, NodePosition)>) -> Seq<u8>
    decreases nodes.len(),
{
    if nodes.len() == 0 {
        leaf
    } else {
        fold_path(combine(leaf, nodes[0]), nodes.skip(1))
    }
}

/// A proof for `id` with leaf digest `leaf` and sibling path `nodes` checks
/// against `root`: the leaf is the id's digest and the path folds to `root`.
pub open spec fn proof_checks(id: Seq<char>, leaf: Seq<u8>, nodes: Seq<(Seq<u8>, NodePosition)>, root: Seq<u8>) -> bool {
    leaf == leaf_of(id) && fold_path(leaf, nodes) == root
}

/// Views of a sequence of 32-byte hashes.
pub open spec fn digests(v: Seq<[u8; 32]>) -> Seq<Seq<u8>> {
    v.map_values(|h: [u8; 32]| h@)
}

/// Views of a sequence of layers.
pub open spec fn layer_digests(t: Seq<Vec<[u8; 32]>>) -> Seq<Seq<Seq<u8>>> {
    t.map_values(|l: Vec<[u8; 32]>| digests(l@))
}

/// Views of proof nodes.
pub open spec fn node_views(v: Seq<ProofNode>) -> Seq<(Seq<u8>, NodePosition)> {
    v.map_values(|n: ProofNode| (n.hash@, n.position))
}

// ---------------------------------------------------------------------------
// Types
// ---------------------------------------------------------------------------

/// Merkle tree for cryptographic verification of vector collections.
/// The root (32 bytes) is what gets posted on chain.
pub struct MerkleTree {
    leaves: Vec<[u8; 32]>,
    tree: Vec<Vec<[u8; 32]>>,
    original_ids: Vec<String>,
}

/// A single node in a Merkle proof.
#[derive(Debug, Clone)]
pub struct ProofNode {
    pub hash: [u8; 32],
    pub position: NodePosition,
}

/// Which side the sibling stands on: `Right` means the running digest is the
/// left input of the next hash, `Left` that it is the right input.
#[derive(Debug, Clone, Copy, PartialEq, Eq)]
pub enum NodePosition {
    Left,
    Right,
}

/// A complete Merkle proof for a single vector id.
#[derive(Debug, Clone)]
pub struct MerkleProof {
    pub vector_id: String,
    pub leaf_hash: [u8; 32],
    pub proof_nodes: Vec<ProofNode>,
    pub root: [u8; 32],
}

impl View for MerkleTree {
    type V = Seq<Seq<char>>;

    /// The ids the tree was built from, in order.
    closed spec fn view(&self) -> Seq<Seq<char>> {
        self.original_ids@.map_values(|s: String| s@)
    }
}

impl MerkleTree {
    #[verifier::type_invariant]
    spec fn well_formed(self) -> bool {
        &&& digests(self.leaves@) == leaf_digests(self@)
        &&& layer_digests(self.tree@) == tree_layers(digests(self.leaves@))
    }
}


// ---------------------------------------------------------------------------
// Lemmas about the model
// ---------------------------------------------------------------------------

proof fn lemma_parent_len(layer: Seq<Seq<u8>>)
    ensures
        parent_layer(layer).len() == (layer.len() + 1) / 2,
        layer.len() > 1 ==> parent_layer(layer).len() < layer.len(),
        layer.len() >= 1 ==> parent_layer(layer).len() >= 1,
{
}

/// Shape of the layers above a non-empty layer.
proof fn lemma_layers_from_shape(layer: Seq<Seq<u8>>)
    requires
        layer.len() >= 1,
    ensures
        layers_from(layer).len() >= 1,
        layers_from(layer)[0] == layer,
        layers_from(layer).last().len() == 1,
        forall|k: int| 0 <= k < layers_from(layer).len() ==> #[trigger] layers_from(layer)[k].len() >= 1,
        forall|k: int|
            0 <= k < layers_from(layer).len() - 1 ==> layers_from(layer)[k + 1] == parent_layer(
                #[trigger] layers_from(layer)[k],
            ),
    decreases layer.len(),
{
    lemma_parent_len(layer);
    if layer.len() > 1 {
        let p = parent_layer(layer);
        lemma_layers_from_shape(p);
        let rest = layers_from(p);
        let all = layers_from(layer);
        assert(all =~= seq![layer] + rest);
        assert forall|k: int| 0 <= k < all.len() implies #[trigger] all[k].len() >= 1 by {
            if k > 0 {
                assert(all[k] == rest[k - 1]);
            }
        }
        assert forall|k: int| 0 <= k < all.len() - 1 implies all[k + 1] == parent_layer(
            #[trigger] all[k],
        ) by {
            if k > 0 {
                assert(all[k] == rest[k - 1]);
                assert(all[k + 1] == rest[k]);
            }
        }
    }
}

/// Shape of the layers of any tree.
proof fn lemma_tree_layers_shape(leaves: Seq<Seq<u8>>)
    ensures
        tree_layers(leaves).len() >= 1,
        tree_layers(leaves).last().len() == 1,
        forall|k: int| 0 <= k < tree_layers(leaves).len() ==> #[trigger] tree_layers(leaves)[k].len() >= 1,
        forall|k: int|
            0 <= k < tree_layers(leaves).len() - 1 ==> tree_layers(leaves)[k + 1] == parent_layer(
                #[trigger] tree_layers(leaves)[k],
            ),
        leaves.len() >= 1 ==> tree_layers(leaves)[0] == leaves,
{
    if leaves.len() >= 1 {
        lemma_layers_from_shape(leaves);
    }
}

/// Two byte strings with one SHA-256 digest.
pub open spec fn sha256_collision() -> bool {
    exists|a: Seq<u8>, b: Seq<u8>| a != b && sha256_spec(a) == sha256_spec(b)
}

/// The layers above a leaf layer, read as a tree: each layer the parent of
/// the one below, non-empty, a single digest on top, digests of 32 bytes.
spec fn tree_shape(t: Seq<Seq<Seq<u8>>>) -> bool {
    &&& t.len() >= 1
    &&& forall|k: int| 0 <= k < t.len() - 1 ==> t[k + 1] == parent_layer(#[trigger] t[k])
    &&& forall|k: int| 0 <= k < t.len() ==> (#[trigger] t[k]).len() >= 1
    &&& t[t.len() - 1].len() == 1
    &&& forall|k: int, e: int| 0 <= k < t.len() && 0 <= e < t[k].len() ==> (#[trigger] t[k][e]).len() == 32
}

/// The layers above non-empty leaves of 32-byte digests form a tree.
proof fn lemma_tree_shape(leaves: Seq<Seq<u8>>)
    requires
        leaves.len() >= 1,
        forall|e: int| 0 <= e < leaves.len() ==> (#[trigger] leaves[e]).len() == 32,
    ensures
        tree_shape(layers_from(leaves)),
        layers_from(leaves)[0] == leaves,
{
    lemma_all_digests_32();
    lemma_layers_from_shape(leaves);
    let t = layers_from(leaves);
    assert forall|k: int, e: int| 0 <= k < t.len() && 0 <= e < t[k].len() implies (#[trigger] t[k][e]).len() == 32 by {
        if k > 0 {
            assert(t[k] == parent_layer(t[k - 1]));
            let l = t[k - 1];
            assert(t[k][e] == sha256_spec(node_prefix() + l[2 * e] + l[partner(2 * e, l.len() as int)]));
        }
    }
}

/// The left input of node `j` of the layer above `l`.
spec fn left_child(l: Seq<Seq<u8>>, j: int) -> Seq<u8> {
    l[2 * j]
}

/// The right input of node `j` of the layer above `l`.
spec fn right_child(l: Seq<Seq<u8>>, j: int) -> Seq<u8> {
    l[partner(2 * j, l.len() as int)]
}

/// Equal inner-node inputs over 32-byte children have equal children.
proof fn lemma_split_pair(a: Seq<u8>, b: Seq<u8>, c: Seq<u8>, d: Seq<u8>)
    requires
        a.len() == 32,
        b.len() == 32,
        c.len() == 32,
        d.len() == 32,
        node_prefix() + a + b == node_prefix() + c + d,
    ensures
        a == c,
        b == d,
{
    let x = node_prefix() + a + b;
    let y = node_prefix() + c + d;
    assert(x.subrange(5, 37) =~= a);
    assert(y.subrange(5, 37) =~= c);
    assert(x.subrange(37, 69) =~= b);
    assert(y.subrange(37, 69) =~= d);
}

/// Without a SHA-256 collision, a tree over distinct leaves has distinct
/// digests in every layer.
proof fn lemma_no_dup_up(t: Seq<Seq<Seq<u8>>>, k: int)
    requires
        tree_shape(t),
        !sha256_collision(),
        t[0].no_duplicates(),
        0 <= k < t.len(),
    ensures
        t[k].no_duplicates(),
    decreases k,
{
    if k > 0 {
        lemma_no_dup_up(t, k - 1);
        let l = t[k - 1];
        let n = l.len() as int;
        assert(t[k] == parent_layer(l));
        assert forall|a: int, b: int| 0 <= a < t[k].len() && 0 <= b < t[k].len() && a != b implies t[k][a] != t[k][b] by {
            let xa = node_prefix() + l[2 * a] + l[partner(2 * a, n)];
            let xb = node_prefix() + l[2 * b] + l[partner(2 * b, n)];
            if t[k][a] == t[k][b] {
                assert(sha256_spec(xa) == sha256_spec(xb));
                if xa != xb {
                    assert(sha256_collision());
                }
                assert(l[2 * a].len() == 32 && l[partner(2 * a, n)].len() == 32);
                assert(l[2 * b].len() == 32 && l[partner(2 * b, n)].len() == 32);
                lemma_split_pair(l[2 * a], l[partner(2 * a, n)], l[2 * b], l[partner(2 * b, n)]);
            }
        }
    }
}

/// Without a SHA-256 collision, two trees of distinct digests per layer with
/// one root agree layer by layer, counted from the top.
proof fn lemma_top_down(t1: Seq<Seq<Seq<u8>>>, t2: Seq<Seq<Seq<u8>>>, d: int)
    requires
        tree_shape(t1),
        tree_shape(t2),
        !sha256_collision(),
        forall|k: int| 0 <= k < t1.len() ==> (#[trigger] t1[k]).no_duplicates(),
        forall|k: int| 0 <= k < t2.len() ==> (#[trigger] t2[k]).no_duplicates(),
        t1[t1.len() - 1][0] == t2[t2.len() - 1][0],
        0 <= d < t1.len(),
        d < t2.len(),
    ensures
        t1[t1.len() - 1 - d] == t2[t2.len() - 1 - d],
    decreases d,
{
    let h1 = t1.len() - 1;
    let h2 = t2.len() - 1;
    if d == 0 {
        assert(t1[h1] =~= t2[h2]);
    } else {
        lemma_top_down(t1, t2, d - 1);
        let x = t1[h1 - d];
        let y = t2[h2 - d];
        assert(t1[h1 - d + 1] == parent_layer(x));
        assert(t2[h2 - d + 1] == parent_layer(y));
        let p = parent_layer(x);
        assert(parent_layer(x) == parent_layer(y));
        assert forall|j: int| 0 <= j < p.len() implies #[trigger] left_child(x, j) == left_child(y, j) && right_child(x, j)
            == right_child(y, j) by {
            let xa = node_prefix() + x[2 * j] + x[partner(2 * j, x.len() as int)];
            let ya = node_prefix() + y[2 * j] + y[partner(2 * j, y.len() as int)];
            assert(parent_layer(x)[j] == sha256_spec(xa));
            assert(parent_layer(y)[j] == sha256_spec(ya));
            if xa != ya {
                assert(sha256_collision());
            }
            assert(x[2 * j].len() == 32 && x[partner(2 * j, x.len() as int)].len() == 32);
            assert(y[2 * j].len() == 32 && y[partner(2 * j, y.len() as int)].len() == 32);
            lemma_split_pair(x[2 * j], x[partner(2 * j, x.len() as int)], y[2 * j], y[partner(2 * j, y.len() as int)]);
        }
        if x.len() != y.len() {
            let m = p.len() as int;
            assert(left_child(x, m - 1) == left_child(y, m - 1) && right_child(x, m - 1) == right_child(y, m - 1));
            if x.len() < y.len() {
                assert(y.len() == 2 * m && x.len() == 2 * m - 1);
                assert(y[2 * m - 2] == x[2 * m - 2] && y[2 * m - 1] == x[2 * m - 2]);
                assert(!y.no_duplicates());
            } else {
                assert(x.len() == 2 * m && y.len() == 2 * m - 1);
                assert(x[2 * m - 2] == y[2 * m - 2] && x[2 * m - 1] == y[2 * m - 2]);
                assert(!x.no_duplicates());
            }
        }
        assert forall|i: int| 0 <= i < x.len() implies x[i] == y[i] by {
            let j = i / 2;
            assert(left_child(x, j) == left_child(y, j) && right_child(x, j) == right_child(y, j));
            if i % 2 == 1 {
                assert(partner(2 * j, x.len() as int) == i);
            }
        }
        assert(x =~= y);
    }
}

/// The top of the layers above a layer of more than one digest is the top
/// of the layers above its parent.
proof fn lemma_top_of_parent(layer: Seq<Seq<u8>>)
    requires
        layer.len() > 1,
    ensures
        layers_from(layer).last() == layers_from(parent_layer(layer)).last(),
{
    let p = parent_layer(layer);
    lemma_parent_len(layer);
    lemma_layers_from_shape(p);
    assert(layers_from(layer) =~= seq![layer] + layers_from(p));
}

/// Two layers of equal length, of 32-byte digests, with one top digest are
/// equal unless SHA-256 has a collision.
proof fn lemma_equal_tops(l1: Seq<Seq<u8>>, l2: Seq<Seq<u8>>)
    requires
        l1.len() == l2.len(),
        l1.len() >= 1,
        forall|i: int| 0 <= i < l1.len() ==> (#[trigger] l1[i]).len() == 32,
        forall|i: int| 0 <= i < l2.len() ==> (#[trigger] l2[i]).len() == 32,
        layers_from(l1).last()[0] == layers_from(l2).last()[0],
        l1 != l2,
    ensures
        sha256_collision(),
    decreases l1.len(),
{
    lemma_all_digests_32();
    if l1.len() == 1 {
        assert(layers_from(l1).last() == l1);
        assert(layers_from(l2).last() == l2);
        assert(l1 =~= l2);
    } else {
        let p1 = parent_layer(l1);
        let p2 = parent_layer(l2);
        lemma_parent_len(l1);
        lemma_parent_len(l2);
        lemma_top_of_parent(l1);
        lemma_top_of_parent(l2);
        if p1 != p2 {
            lemma_equal_tops(p1, p2);
        } else {
            let k = choose|k: int| 0 <= k < l1.len() && l1[k] != l2[k];
            if !(0 <= k < l1.len() && l1[k] != l2[k]) {
                assert(l1 =~= l2);
            }
            let j = k / 2;
            let n = l1.len() as int;
            let a = node_prefix() + l1[2 * j] + l1[partner(2 * j, n)];
            let b = node_prefix() + l2[2 * j] + l2[partner(2 * j, n)];
            assert(p1[j] == sha256_spec(a));
            assert(p2[j] == sha256_spec(b));
            if a == b {
                assert(a.subrange(5, 37) =~= l1[2 * j]);
                assert(b.subrange(5, 37) =~= l2[2 * j]);
                assert(a.subrange(37, 69) =~= l1[partner(2 * j, n)]);
                assert(b.subrange(37, 69) =~= l2[partner(2 * j, n)]);
                if k == 2 * j {
                } else {
                    assert(partner(2 * j, n) == k);
                }
                assert(false);
            }
            assert(a != b && sha256_spec(a) == sha256_spec(b));
        }
    }
}

/// Folding the sibling path of the node at `pos` onto that node reaches the top.
proof fn lemma_path_folds(layer: Seq<Seq<u8>>, pos: int)
    requires
        0 <= pos < layer.len(),
    ensures
        fold_path(layer[pos], path(layers_from(layer), pos)) == layers_from(layer).last()[0],
    decreases layer.len(),
{
    lemma_parent_len(layer);
    if layer.len() > 1 {
        let p = parent_layer(layer);
        let rest = layers_from(p);
        let all = layers_from(layer);
        assert(all =~= seq![layer] + rest);
        assert(all.skip(1) =~= rest);
        lemma_layers_from_shape(p);
        let is_right = pos % 2 == 0;
        let sibling = if is_right { partner(pos, layer.len() as int) } else { pos - 1 };
        let node = (layer[sibling], if is_right { NodePosition::Right } else { NodePosition::Left });
        let nodes = path(all, pos);
        assert(nodes =~= seq![node] + path(rest, pos / 2));
        assert(nodes.skip(1) =~= path(rest, pos / 2));
        assert(combine(layer[pos], node) == p[pos / 2]);
        lemma_path_folds(p, pos / 2);
    }
}

proof fn lemma_first_index(s: Seq<Seq<u8>>, x: Seq<u8>)
    ensures
        0 <= first_index(s, x) <= s.len(),
        s.contains(x) <==> first_index(s, x) < s.len(),
        first_index(s, x) < s.len() ==> s[first_index(s, x)] == x,
        forall|j: int| 0 <= j < first_index(s, x) ==> s[j] != x,
    decreases s.len(),
{
    if s.len() > 0 && s[0] != x {
        lemma_first_index(s.skip(1), x);
        if s.contains(x) {
            let k = choose|k: int| 0 <= k < s.len() && s[k] == x;
            assert(s.skip(1)[k - 1] == x);
        }
        if s.skip(1).contains(x) {
            let k = choose|k: int| 0 <= k < s.skip(1).len() && s.skip(1)[k] == x;
            assert(s[k + 1] == x);
        }
        assert forall|j: int| 0 <= j < first_index(s, x) implies s[j] != x by {
            if j > 0 {
                assert(s[j] == s.skip(1)[j - 1]);
            }
        }
    } else if s.len() > 0 {
        assert(s[0] == x);
        assert(s.contains(x));
    }
}

// ---------------------------------------------------------------------------
// Hashing
// ---------------------------------------------------------------------------

/// `SHA-256("leaf:" ++ data)`.
fn hash_leaf(data: &[u8]) -> (out: [u8; 32])
    ensures
        out@ == leaf_digest(data@),
{
    let mut buf: Vec<u8> = Vec::new();
    buf.push(108u8);
    buf.push(101u8);
    buf.push(97u8);
    buf.push(102u8);
    buf.push(58u8);
    assert(buf@ =~= leaf_prefix());
    push_all(&mut buf, data);
    sha256(buf.as_slice())
}

/// `SHA-256("node:" ++ left ++ right)`.
fn hash_pair(left: &[u8; 32], right: &[u8; 32]) -> (out: [u8; 32])
    ensures
        out@ == node_digest(left@, right@),
{
    let mut buf: Vec<u8> = Vec::new();
    buf.push(110u8);
    buf.push(111u8);
    buf.push(100u8);
    buf.push(101u8);
    buf.push(58u8);
    assert(buf@ =~= node_prefix());
    push_all(&mut buf, left.as_slice());
    push_all(&mut buf, right.as_slice());
    sha256(buf.as_slice())
}

/// The layer above `layer`.
fn parent_of(layer: &Vec<[u8; 32]>) -> (next: Vec<[u8; 32]>)
    requires
        layer.len() >= 1,
    ensures
        digests(next@) == parent_layer(digests(layer@)),
{
    let n = layer.len();
    let count = n / 2 + n % 2;
    let ghost d = digests(layer@);
    let mut next: Vec<[u8; 32]> = Vec::new();
    let mut j: usize = 0;
    while j < count
        invariant
            n == layer.len(),
            count == n / 2 + n % 2,
            d == digests(layer@),
            j <= count,
            next@.len() == j,
            forall|k: int|
                0 <= k < j ==> (#[trigger] next@[k])@ == node_digest(
                    d[2 * k],
                    d[partner(2 * k, n as int)],
                ),
        decreases count - j,
    {
        let i = 2 * j;
        let r = if i + 1 < n { i + 1 } else { i };
        let h = hash_pair(&layer[i], &layer[r]);
        next.push(h);
        j = j + 1;
    }
    assert(digests(next@) =~= parent_layer(d));
    next
}

/// A copy of a layer.
fn copy_layer(layer: &Vec<[u8; 32]>) -> (out: Vec<[u8; 32]>)
    ensures
        out@ == layer@,
{
    let mut out: Vec<[u8; 32]> = Vec::new();
    let mut i: usize = 0;
    while i < layer.len()
        invariant
            i <= layer.len(),
            out@ == layer@.take(i as int),
        decreases layer.len() - i,
    {
        out.push(layer[i]);
        i = i + 1;
        assert(layer@.take(i as int) =~= layer@.take(i - 1).push(layer@[i - 1]));
    }
    assert(layer@.take(i as int) =~= layer@);
    out
}

/// All layers of the tree over `leaves`, leaves first and the root layer last.
fn build_tree(leaves: &Vec<[u8; 32]>) -> (tree: Vec<Vec<[u8; 32]>>)
    ensures
        layer_digests(tree@) == tree_layers(digests(leaves@)),
{
    let ghost ld = digests(leaves@);
    if leaves.len() == 0 {
        let z: [u8; 32] = [0u8; 32];
        assert(z@ =~= zero_digest());
        let tree = vec![vec![z]];
        assert(layer_digests(tree@) =~= tree_layers(ld)) by {
            assert(digests(tree@[0]@) =~= seq![zero_digest()]);
        }
        return tree;
    }
    let mut tree: Vec<Vec<[u8; 32]>> = Vec::new();
    tree.push(copy_layer(leaves));
    proof {
        lemma_layers_from_shape(ld);
        assert(layers_from(ld) =~= seq![ld] + layers_from(ld).skip(1));
        assert(layer_digests(tree@) =~= seq![ld]);
    }
    while tree[tree.len() - 1].len() > 1
        invariant
            tree.len() >= 1,
            tree@.last().len() >= 1,
            ld == digests(leaves@),
            ld.len() >= 1,
            layer_digests(tree@) + layers_from(digests(tree@.last()@)).skip(1) == layers_from(ld),
        decreases tree@.last().len(),
    {
        let ghost old_tree = layer_digests(tree@);
        let ghost cur = digests(tree@.last()@);
        let next = parent_of(&tree[tree.len() - 1]);
        proof {
            lemma_parent_len(cur);
            lemma_layers_from_shape(digests(next@));
            let p = parent_layer(cur);
            assert(layers_from(cur) =~= seq![cur] + layers_from(p));
            assert(layers_from(cur).skip(1) =~= layers_from(p));
            assert(layers_from(p) =~= seq![p] + layers_from(p).skip(1));
        }
        tree.push(next);
        proof {
            let p = digests(next@);
            assert(layer_digests(tree@) =~= old_tree.push(p));
            assert(old_tree.push(p) + layers_from(p).skip(1) =~= old_tree + layers_from(p));
        }
    }
    proof {
        let cur = digests(tree@.last()@);
        assert(layers_from(cur).skip(1) =~= Seq::<Seq<Seq<u8>>>::empty());
        assert(layer_digests(tree@) =~= layer_digests(tree@) + layers_from(cur).skip(1));
    }
    tree
}

/// Position of the first digest of `v` equal to `x`.
fn find_digest(v: &Vec<[u8; 32]>, x: &[u8; 32]) -> (r: Option<usize>)
    ensures
        r matches Some(p) ==> p < v.len() && v@[p as int]@ == x@ && forall|j: int|
            0 <= j < p ==> (#[trigger] v@[j])@ != x@,
        r is None ==> forall|j: int| 0 <= j < v.len() ==> (#[trigger] v@[j])@ != x@,
{
    let mut i: usize = 0;
    while i < v.len()
        invariant
            i <= v.len(),
            forall|j: int| 0 <= j < i ==> (#[trigger] v@[j])@ != x@,
        decreases v.len() - i,
    {
        if digest_eq(&v[i], x) {
            return Some(i);
        }
        i = i + 1;
    }
    None
}

/// Consecutive layers of a tree.
proof fn lemma_layer_step(leaves: Seq<Seq<u8>>, k: int)
    requires
        0 <= k < tree_layers(leaves).len() - 1,
    ensures
        tree_layers(leaves)[k + 1] == parent_layer(tree_layers(leaves)[k]),
{
    lemma_tree_layers_shape(leaves);
}

/// A step of the sibling path out of the `k`-th layer.
proof fn lemma_path_step(layers: Seq<Seq<Seq<u8>>>, k: int, pos: int)
    requires
        0 <= k,
        k + 1 < layers.len(),
    ensures
        ({
            let layer = layers[k];
            let is_right = pos % 2 == 0;
            let sibling = if is_right { partner(pos, layer.len() as int) } else { pos - 1 };
            path(layers.skip(k), pos) == seq![
                (layer[sibling], if is_right { NodePosition::Right } else { NodePosition::Left }),
            ] + path(layers.skip(k + 1), pos / 2)
        }),
{
    let rest = layers.skip(k);
    assert(rest[0] == layers[k]);
    assert(rest.skip(1) =~= layers.skip(k + 1));
}

// ---------------------------------------------------------------------------
// Operations
// ---------------------------------------------------------------------------

impl MerkleTree {
    /// Builds a Merkle tree from a list of vector ids.
    pub fn new(vector_ids: &[String]) -> (tree: Self)
        ensures
            tree@ == vector_ids@.map_values(|s: String| s@),
    {
        let mut leaves: Vec<[u8; 32]> = Vec::new();
        let mut ids: Vec<String> = Vec::new();
        let mut i: usize = 0;
        while i < vector_ids.len()
            invariant
                i <= vector_ids.len(),
                leaves@.len() == i,
                ids@ == vector_ids@.take(i as int),
                forall|k: int| 0 <= k < i ==> (#[trigger] leaves@[k])@ == leaf_of(vector_ids@[k]@),
            decreases vector_ids.len() - i,
        {
            let id = &vector_ids[i];
            let leaf = hash_leaf(id.as_str().as_bytes());
            leaves.push(leaf);
            ids.push(id.clone());
            i = i + 1;
            assert(ids@ =~= vector_ids@.take(i as int));
        }
        assert(ids@ =~= vector_ids@);
        assert(digests(leaves@) =~= leaf_digests(ids@.map_values(|s: String| s@)));
        let tree = build_tree(&leaves);
        MerkleTree { leaves, tree, original_ids: ids }
    }

    /// The Merkle root: the 32-byte value that goes on chain.
    pub fn root(&self) -> (r: [u8; 32])
        ensures
            r@ == root_of(self@),
    {
        proof {
            use_type_invariant(self);
            lemma_tree_layers_shape(digests(self.leaves@));
        }
        let n = self.tree.len();
        if n > 0 && self.tree[n - 1].len() > 0 {
            proof {
                assert(layer_digests(self.tree@)[n - 1] == digests(self.tree@[n - 1]@));
            }
            self.tree[n - 1][0]
        } else {
            [0u8; 32]
        }
    }

    /// Generates a proof that `vector_id` belongs to this collection, or
    /// `None` when no leaf of the tree is that id's leaf digest.
    pub fn generate_proof(&self, vector_id: &str) -> (proof: Option<MerkleProof>)
        ensures
            proof is None <==> !leaf_digests(self@).contains(leaf_of(vector_id@)),
            proof matches Some(p) ==> {
                &&& p.vector_id@ == vector_id@
                &&& p.leaf_hash@ == leaf_of(vector_id@)
                &&& node_views(p.proof_nodes@) == proof_path_of(self@, vector_id@)
                &&& p.root@ == root_of(self@)
            },
    {
        proof {
            use_type_invariant(self);
        }
        let ghost leaves = digests(self.leaves@);
        let ghost layers = tree_layers(leaves);
        let leaf = hash_leaf(vector_id.as_bytes());
        proof {
            lemma_first_index(leaves, leaf@);
        }
        let found = find_digest(&self.leaves, &leaf);
        if found.is_none() {
            proof {
                assert forall|j: int| 0 <= j < leaves.len() implies leaves[j] != leaf@ by {
                    assert(leaves[j] == self.leaves@[j]@);
                }
            }
            return None;
        }
        let mut pos: usize = found.unwrap();
        proof {
            assert(leaves[pos as int] == leaf@);
            assert(leaves.contains(leaf@));
            let fi = first_index(leaves, leaf@);
            if fi < pos {
                assert(leaves[fi] == self.leaves@[fi]@);
            }
            assert(first_index(leaves, leaf@) == pos);
            lemma_tree_layers_shape(leaves);
            assert(layers.skip(0) =~= layers);
            assert(node_views(Seq::<ProofNode>::empty()) =~= Seq::<(Seq<u8>, NodePosition)>::empty());
        }
        let ghost pos0 = pos as int;
        let mut proof_nodes: Vec<ProofNode> = Vec::new();
        let n_layers = self.tree.len();
        let mut k: usize = 0;
        while k + 1 < n_layers
            invariant
                n_layers == self.tree.len(),
                layers == tree_layers(leaves),
                layers == layer_digests(self.tree@),
                layers.len() >= 1,
                leaves.len() >= 1,
                k < n_layers,
                pos < layers[k as int].len(),
                node_views(proof_nodes@) + path(layers.skip(k as int), pos as int) == path(layers, pos0),
            decreases n_layers - k,
        {
            let layer = &self.tree[k];
            let is_right = pos % 2 == 0;
            let sibling = if is_right {
                if pos + 1 < layer.len() { pos + 1 } else { layer.len() - 1 }
            } else {
                pos - 1
            };
            let node = ProofNode {
                hash: layer[sibling],
                position: if is_right { NodePosition::Right } else { NodePosition::Left },
            };
            proof {
                assert(layers[k as int] == digests(self.tree@[k as int]@));
                assert(node.hash@ == layers[k as int][sibling as int]);
                lemma_path_step(layers, k as int, pos as int);
            }
            let ghost before = node_views(proof_nodes@);
            proof_nodes.push(node);
            proof {
                assert(node_views(proof_nodes@) =~= before.push((node.hash@, node.position)));
                lemma_layer_step(leaves, k as int);
                lemma_parent_len(layers[k as int]);
            }
            pos = pos / 2;
            k = k + 1;
        }
        proof {
            assert(layers.skip(k as int) =~= seq![layers.last()]);
            assert(node_views(proof_nodes@) =~= node_views(proof_nodes@) + path(layers.skip(k as int), pos as int));
        }
        Some(MerkleProof {
            vector_id: vector_id.to_owned(),
            leaf_hash: leaf,
            proof_nodes,
            root: self.root(),
        })
    }

    /// The root as lower-case hex (for display and logging).
    pub fn root_hex(&self) -> (s: String)
        ensures
            s@ == hex_lower(root_of(self@)),
    {
        let r = self.root();
        hex_encode(r.as_slice())
    }

    /// Number of vectors in this tree.
    pub fn vector_count(&self) -> (n: usize)
        ensures
            n == self@.len(),
    {
        self.original_ids.len()
    }
}

impl MerkleProof {
    /// Checks this proof against `expected_root`: true exactly when the leaf
    /// digest is that of `vector_id` and folding the sibling path onto it
    /// reaches that root, so that the id is provably in the collection.
    pub fn verify(&self, expected_root: &[u8; 32]) -> (ok: bool)
        ensures
            ok == proof_checks(self.vector_id@, self.leaf_hash@, node_views(self.proof_nodes@), expected_root@),
    {
        let id_leaf = hash_leaf(self.vector_id.as_str().as_bytes());
        if !digest_eq(&id_leaf, &self.leaf_hash) {
            return false;
        }
        let ghost nodes = node_views(self.proof_nodes@);
        let mut current: [u8; 32] = self.leaf_hash;
        let mut i: usize = 0;
        assert(nodes.skip(0) =~= nodes);
        while i < self.proof_nodes.len()
            invariant
                i <= self.proof_nodes.len(),
                nodes == node_views(self.proof_nodes@),
                fold_path(current@, nodes.skip(i as int)) == fold_path(self.leaf_hash@, nodes),
            decreases self.proof_nodes.len() - i,
        {
            let node = &self.proof_nodes[i];
            proof {
                let rest = nodes.skip(i as int);
                assert(rest[0] == (node.hash@, node.position));
                assert(rest.skip(1) =~= nodes.skip(i + 1));
            }
            current = match node.position {
                NodePosition::Right => hash_pair(&current, &node.hash),
                NodePosition::Left => hash_pair(&node.hash, &current),
            };
            i = i + 1;
        }
        proof {
            assert(nodes.skip(i as int) =~= Seq::<(Seq<u8>, NodePosition)>::empty());
        }
        digest_eq(&current, expected_root)
    }

    /// The root carried by this proof, as lower-case hex.
    pub fn root_hex(&self) -> (s: String)
        ensures
            s@ == hex_lower(self.root@),
    {
        hex_encode(self.root.as_slice())
    }
}

/// The list of strings that the JSON text `text` denotes, as `serde_json`
/// reads it into a `Vec<String>`; `None` when the text is not such a list.
pub uninterp spec fn json_string_array(text: Seq<char>) -> Option<Seq<Seq<char>>>;

/// Calls `serde_json::from_str` for a `Vec<String>`, turning its error into
/// its message.
/// Trusted: the outcome depends on the text alone; on success the strings
/// are those the text denotes, in order. The message is left unsaid.
#[verifier::external_body]
fn parse_id_list(text: &str) -> (r: Result<Vec<String>, String>)
    ensures
        r is Ok <==> json_string_array(text@) is Some,
        r matches Ok(v) ==> json_string_array(text@) == Some(v@.map_values(|s: String| s@)),
{
    match serde_json::from_str::<Vec<String>>(text) {
        Ok(v) => Ok(v),
        Err(e) => Err(e.to_string()),
    }
}

/// The Merkle root, in lower-case hex, of the ids listed by a JSON array of
/// strings; the parser's message when the text is not such an array.
pub fn compute_merkle_root(ids_json: &str) -> (r: Result<String, String>)
    ensures
        r is Ok <==> json_string_array(ids_json@) is Some,
        r matches Ok(s) ==> s@ == hex_lower(root_of(json_string_array(ids_json@)->Some_0)),
{
    match parse_id_list(ids_json) {
        Err(e) => Err(e),
        Ok(ids) => {
            let tree = MerkleTree::new(ids.as_slice());
            Ok(tree.root_hex())
        },
    }
}

/// Checks `proof` against a root written as hex text (digits of either
/// case). Text that is not hex is reported with the decoder's message.
pub fn verify_merkle_proof(proof: &MerkleProof, expected_root_hex: &str) -> (r: Result<bool, String>)
    requires
        is_hex_text(encode_utf8(expected_root_hex@)) ==> encode_utf8(expected_root_hex@).len() == 64,
    ensures
        r is Ok <==> is_hex_text(encode_utf8(expected_root_hex@)),
        r matches Ok(ok) ==> ok == proof_checks(
            proof.vector_id@,
            proof.leaf_hash@,
            node_views(proof.proof_nodes@),
            hex_bytes(encode_utf8(expected_root_hex@)),
        ),
{
    match hex_decode(expected_root_hex) {
        Err(e) => Err(hex_error_message(&e)),
        Ok(bytes) => {
            let mut root = [0u8; 32];
            let mut i: usize = 0;
            while i < 32
                invariant
                    i <= 32,
                    bytes@.len() == 32,
                    forall|j: int| 0 <= j < i ==> root@[j] == bytes@[j],
                decreases 32 - i,
            {
                root[i] = bytes[i];
                i = i + 1;
            }
            assert(root@ =~= bytes@);
            Ok(proof.verify(&root))
        },
    }
}

// ---------------------------------------------------------------------------
// Laws
// ---------------------------------------------------------------------------

/// Every id of a collection has a proof, and that proof, folded onto the id's
/// leaf digest, reaches the collection's root.
pub proof fn lemma_member_proof_reaches_root(ids: Seq<Seq<char>>, id: Seq<char>)
    requires
        ids.contains(id),
    ensures
        leaf_digests(ids).contains(leaf_of(id)),
        fold_path(leaf_of(id), proof_path_of(ids, id)) == root_of(ids),
        proof_checks(id, leaf_of(id), proof_path_of(ids, id), root_of(ids)),
{
    let leaves = leaf_digests(ids);
    let k = choose|k: int| 0 <= k < ids.len() && ids[k] == id;
    assert(leaves[k] == leaf_of(id));
    assert(leaves.contains(leaf_of(id)));
    lemma_first_index(leaves, leaf_of(id));
    let pos = first_index(leaves, leaf_of(id));
    lemma_path_folds(leaves, pos);
}

/// A proof checks against at most one root: the digest its path folds to.
pub proof fn lemma_proof_checks_one_root(
    leaf: Seq<u8>,
    nodes: Seq<(Seq<u8>, NodePosition)>,
    root1: Seq<u8>,
    root2: Seq<u8>,
)
    requires
        fold_path(leaf, nodes) == root1,
        fold_path(leaf, nodes) == root2,
    ensures
        root1 == root2,
{
}

/// The root of an empty collection is 32 zero bytes, and the root of a
/// single id is that id's leaf digest.
pub proof fn lemma_small_roots(id: Seq<char>)
    ensures
        root_of(seq![]) == zero_digest(),
        root_of(seq![id]) == leaf_of(id),
{
    assert(leaf_digests(seq![]) =~= Seq::<Seq<u8>>::empty());
    assert(leaf_digests(seq![id]) =~= seq![leaf_of(id)]);
}

/// The hex text of a 32-byte root is accepted by `verify_merkle_proof` and
/// decodes to that root, so checking a proof against `root_hex()` is
/// checking it against `root()`.
pub proof fn lemma_root_hex_decodes(root: Seq<u8>)
    requires
        root.len() == 32,
    ensures
        is_hex_text(encode_utf8(hex_lower(root))),
        encode_utf8(hex_lower(root)).len() == 64,
        hex_bytes(encode_utf8(hex_lower(root))) == root,
{
    lemma_hex_roundtrip(root);
}

/// Every SHA-256 digest is 32 bytes long.
proof fn lemma_all_digests_32()
    ensures
        forall|d: Seq<u8>| #[trigger] sha256_spec(d).len() == 32,
{
    assert forall|d: Seq<u8>| #[trigger] sha256_spec(d).len() == 32 by {
        lemma_sha256_len(d);
    }
}

/// Distinct id lists of one length commit to distinct roots, unless SHA-256
/// has a collision. Lists of different
/// lengths are left out: an odd layer pairs its last digest with itself, so
/// `[a, b, c]` and `[a, b, c, c]` share a root.
pub proof fn lemma_distinct_ids_distinct_roots(ids1: Seq<Seq<char>>, ids2: Seq<Seq<char>>)
    requires
        ids1.len() == ids2.len(),
        ids1 != ids2,
        root_of(ids1) == root_of(ids2),
    ensures
        sha256_collision(),
{
    lemma_all_digests_32();
    let l1 = leaf_digests(ids1);
    let l2 = leaf_digests(ids2);
    let k = choose|k: int| 0 <= k < ids1.len() && ids1[k] != ids2[k];
    if !(0 <= k < ids1.len() && ids1[k] != ids2[k]) {
        assert(ids1 =~= ids2);
    }
    if l1 != l2 {
        assert forall|i: int| 0 <= i < l1.len() implies (#[trigger] l1[i]).len() == 32 by {
            assert(l1[i] == sha256_spec(leaf_prefix() + encode_utf8(ids1[i])));
        }
        assert forall|i: int| 0 <= i < l2.len() implies (#[trigger] l2[i]).len() == 32 by {
            assert(l2[i] == sha256_spec(leaf_prefix() + encode_utf8(ids2[i])));
        }
        lemma_equal_tops(l1, l2);
    } else {
        let a = leaf_prefix() + encode_utf8(ids1[k]);
        let b = leaf_prefix() + encode_utf8(ids2[k]);
        assert(l1[k] == l2[k]);
        if a == b {
            assert(a.subrange(5, a.len() as int) =~= encode_utf8(ids1[k]));
            assert(b.subrange(5, b.len() as int) =~= encode_utf8(ids2[k]));
            encode_utf8_decode_utf8(ids1[k]);
            encode_utf8_decode_utf8(ids2[k]);
        }
        assert(a != b && sha256_spec(a) == sha256_spec(b));
    }
}

/// Without a SHA-256 collision, distinct ids have distinct leaf digests.
proof fn lemma_leaf_injective(a: Seq<char>, b: Seq<char>)
    requires
        !sha256_collision(),
        leaf_of(a) == leaf_of(b),
    ensures
        a == b,
{
    let x = leaf_prefix() + encode_utf8(a);
    let y = leaf_prefix() + encode_utf8(b);
    if x != y {
        assert(sha256_collision());
    }
    assert(x.subrange(5, x.len() as int) =~= encode_utf8(a));
    assert(y.subrange(5, y.len() as int) =~= encode_utf8(b));
    encode_utf8_decode_utf8(a);
    encode_utf8_decode_utf8(b);
}

/// The tree over the leaves of an id list without repeated ids, as a tree
/// of distinct digests in every layer (when SHA-256 has no collision).
proof fn lemma_id_tree(ids: Seq<Seq<char>>)
    requires
        !sha256_collision(),
        ids.len() >= 1,
        ids.no_duplicates(),
    ensures
        tree_shape(layers_from(leaf_digests(ids))),
        layers_from(leaf_digests(ids))[0] == leaf_digests(ids),
        forall|k: int| 0 <= k < layers_from(leaf_digests(ids)).len() ==> (#[trigger] layers_from(leaf_digests(ids))[k]).no_duplicates(),
        root_of(ids) == layers_from(leaf_digests(ids))[layers_from(leaf_digests(ids)).len() - 1][0],
{
    lemma_all_digests_32();
    let l = leaf_digests(ids);
    assert forall|e: int| 0 <= e < l.len() implies (#[trigger] l[e]).len() == 32 by {
        assert(l[e] == sha256_spec(leaf_prefix() + encode_utf8(ids[e])));
    }
    assert forall|a: int, b: int| 0 <= a < l.len() && 0 <= b < l.len() && a != b implies l[a] != l[b] by {
        if l[a] == l[b] {
            lemma_leaf_injective(ids[a], ids[b]);
        }
    }
    lemma_tree_shape(l);
    let t = layers_from(l);
    assert forall|k: int| 0 <= k < t.len() implies (#[trigger] t[k]).no_duplicates() by {
        lemma_no_dup_up(t, k);
    }
}

/// A leaf layer is no inner layer of a tree, unless SHA-256 collides: the
/// two are hashed under different prefixes.
proof fn lemma_leaf_not_node(ids: Seq<Seq<char>>, t1: Seq<Seq<Seq<u8>>>, t2: Seq<Seq<Seq<u8>>>, k: int)
    requires
        ids.len() >= 1,
        t1.len() >= 1,
        t1[0] == leaf_digests(ids),
        tree_shape(t2),
        1 <= k < t2.len(),
        t1[0] == t2[k],
    ensures
        sha256_collision(),
{
    let l = t2[k - 1];
    assert(t2[k] == parent_layer(l));
    let y = node_prefix() + l[0] + l[partner(0, l.len() as int)];
    let x = leaf_prefix() + encode_utf8(ids[0]);
    assert(t2[k][0] == sha256_spec(y));
    assert(t1[0][0] == sha256_spec(x));
    assert(x[0] != y[0]);
    assert(x != y);
}

/// Distinct id lists without repeated ids commit to distinct roots unless
/// SHA-256 has a collision or gives 32 zero bytes (the empty list's root)
/// for some input: adding, removing or replacing an id changes the root.
/// Lists with a repeated id are left out, as `[a, b, c]` and `[a, b, c, c]`
/// share a root.
pub proof fn lemma_distinct_id_sets_distinct_roots(ids1: Seq<Seq<char>>, ids2: Seq<Seq<char>>)
    requires
        ids1.no_duplicates(),
        ids2.no_duplicates(),
        ids1 != ids2,
        root_of(ids1) == root_of(ids2),
    ensures
        sha256_collision() || is_sha256_output(zero_digest()),
{
    lemma_all_digests_32();
    if ids1.len() == 0 {
        assert(ids1 =~= Seq::<Seq<char>>::empty());
        if ids2.len() == 0 {
            assert(ids1 =~= ids2);
        }
        lemma_empty_root_differs(ids2);
    } else if ids2.len() == 0 {
        assert(ids2 =~= Seq::<Seq<char>>::empty());
        lemma_empty_root_differs(ids1);
    } else if ids1.len() == ids2.len() {
        lemma_distinct_ids_distinct_roots(ids1, ids2);
    } else if !sha256_collision() {
        lemma_id_tree(ids1);
        lemma_id_tree(ids2);
        let t1 = layers_from(leaf_digests(ids1));
        let t2 = layers_from(leaf_digests(ids2));
        let h1 = t1.len() - 1;
        let h2 = t2.len() - 1;
        let d = if h1 < h2 { h1 } else { h2 };
        lemma_top_down(t1, t2, d);
        if h1 == h2 {
            assert(t1[0] == t2[0]);
        } else if h1 < h2 {
            lemma_leaf_not_node(ids1, t1, t2, h2 - h1);
        } else {
            lemma_leaf_not_node(ids2, t2, t1, h1 - h2);
        }
    }
}

/// `x` is what SHA-256 gives for some input.
pub open spec fn is_sha256_output(x: Seq<u8>) -> bool {
    exists|d: Seq<u8>| sha256_spec(d) == x
}

/// Every digest of the top layer above a layer of SHA-256 outputs is one.
proof fn lemma_top_is_output(layer: Seq<Seq<u8>>)
    requires
        layer.len() >= 1,
        forall|e: int| 0 <= e < layer.len() ==> is_sha256_output(#[trigger] layer[e]),
    ensures
        is_sha256_output(layers_from(layer).last()[0]),
    decreases layer.len(),
{
    if layer.len() <= 1 {
        assert(layers_from(layer).last() == layer);
    } else {
        let p = parent_layer(layer);
        lemma_parent_len(layer);
        assert forall|j: int| 0 <= j < p.len() implies is_sha256_output(#[trigger] p[j]) by {
            let d = node_prefix() + layer[2 * j] + layer[partner(2 * j, layer.len() as int)];
            assert(sha256_spec(d) == p[j]);
        }
        lemma_top_is_output(p);
        assert(layers_from(layer) == seq![layer] + layers_from(p));
        assert(layers_from(layer).last() == layers_from(p).last());
    }
}

/// An empty collection and a non-empty one commit to distinct roots unless
/// SHA-256 gives 32 zero bytes for some input: the empty root is 32 zero
/// bytes, every other root a SHA-256 digest. So taking out the last id, or
/// adding a first one, changes the root.
pub proof fn lemma_empty_root_differs(ids: Seq<Seq<char>>)
    requires
        ids.len() >= 1,
        root_of(ids) == root_of(Seq::<Seq<char>>::empty()),
    ensures
        is_sha256_output(zero_digest()),
{
    let l = leaf_digests(ids);
    assert(leaf_digests(Seq::<Seq<char>>::empty()).len() == 0);
    assert(root_of(Seq::<Seq<char>>::empty()) == zero_digest());
    assert forall|e: int| 0 <= e < l.len() implies is_sha256_output(#[trigger] l[e]) by {
        assert(l[e] == sha256_spec(leaf_prefix() + encode_utf8(ids[e])));
    }
    lemma_top_is_output(l);
}
} // verus!
