//! The Merkle engine: root, inclusion path and path check over a power-of-two long
//! sequence of leaves.
//!
//! Adjacent nodes are paired left to right and each parent is the hash of its two
//! children's hashes, concatenated. Nothing separates leaves from inner nodes beyond
//! that fixed pairing.

use vstd::prelude::*;
use crate::hash::{blake3_digest, hash_eq, hex_string, to_hex, Blake3Hasher};
use crate::leaves::{is_power_of_two, power_of_two, StructuralError};

verus! {

/// Which child of its parent a node is.
#[derive(Clone, Copy, Debug, PartialEq, Eq, Structural)]
pub enum Side {
    Left,
    Right,
}

/// One level of an inclusion path: the hash of the node's sibling, and the side on
/// which the node itself stands.
#[derive(Clone, Copy, Debug, PartialEq, Eq)]
pub struct PathStep {
    pub sibling: [u8; 32],
    pub side: Side,
}

/// The 64 bytes that are hashed into a parent.
pub open spec fn node_input(left: [u8; 32], right: [u8; 32]) -> Seq<u8> {
    left@ + right@
}

/// The parent of two adjacent nodes.
pub open spec fn node_hash(left: [u8; 32], right: [u8; 32]) -> [u8; 32] {
    blake3_digest(node_input(left, right))
}

/// The level above `level`: node `i` is the parent of nodes `2i` and `2i + 1`.
pub open spec fn parent_level(level: Seq<[u8; 32]>) -> Seq<[u8; 32]> {
    Seq::new(level.len() / 2, |i: int| node_hash(level[2 * i], level[2 * i + 1]))
}

/// The root above `level`: the one node that is left when levels are paired up
/// until one node remains.
pub open spec fn merkle_root(level: Seq<[u8; 32]>) -> [u8; 32]
    decreases level.len(),
{
    if level.len() <= 1 {
        level[0]
    } else {
        merkle_root(parent_level(level))
    }
}

/// The number of levels between `n` leaves and their root.
pub open spec fn tree_height(n: nat) -> nat
    decreases n,
{
    if n <= 1 {
        0
    } else {
        1 + tree_height(n / 2)
    }
}

/// The position of the sibling of node `index`.
pub open spec fn sibling_index(index: int) -> int {
    if index % 2 == 0 {
        index + 1
    } else {
        index - 1
    }
}

/// The side on which node `index` stands.
pub open spec fn side_of(index: int) -> Side {
    if index % 2 == 0 {
        Side::Left
    } else {
        Side::Right
    }
}

/// The inclusion path of node `index` of `level`, from the leaf's level up to the
/// level below the root.
pub open spec fn merkle_path(level: Seq<[u8; 32]>, index: int) -> Seq<PathStep>
    decreases level.len(),
{
    if level.len() <= 1 {
        Seq::empty()
    } else {
        seq![PathStep { sibling: level[sibling_index(index)], side: side_of(index) }]
            + merkle_path(parent_level(level), index / 2)
    }
}

/// The two children that one step of a path hashes, in left-to-right order.
pub open spec fn climb_input(node: [u8; 32], step: PathStep) -> Seq<u8> {
    match step.side {
        Side::Left => node_input(node, step.sibling),
        Side::Right => node_input(step.sibling, node),
    }
}

/// The parent reached from `node` by one step of a path.
pub open spec fn climb(node: [u8; 32], step: PathStep) -> [u8; 32] {
    blake3_digest(climb_input(node, step))
}

/// The node reached from `leaf` by taking the steps of `path` in order.
pub open spec fn fold_path(leaf: [u8; 32], path: Seq<PathStep>) -> [u8; 32]
    decreases path.len(),
{
    if path.len() == 0 {
        leaf
    } else {
        climb(fold_path(leaf, path.drop_last()), path.last())
    }
}

/// Hashes two adjacent nodes into their parent.
pub fn hash_pair(left: &[u8; 32], right: &[u8; 32]) -> (parent: [u8; 32])
    ensures
        parent == node_hash(*left, *right),
{
    let mut buffer: Vec<u8> = Vec::with_capacity(64);
    let mut i: usize = 0;
    while i < 32
        invariant
            i <= 32,
            buffer@ == left@.take(i as int),
        decreases 32 - i,
    {
        buffer.push(left[i]);
        i += 1;
    }
    let mut j: usize = 0;
    while j < 32
        invariant
            j <= 32,
            buffer@ == left@ + right@.take(j as int),
        decreases 32 - j,
    {
        buffer.push(right[j]);
        j += 1;
    }
    assert(buffer@ == node_input(*left, *right));
    Blake3Hasher::hash(buffer.as_slice())
}

/// Pairs up one level into the level above it.
fn next_level(level: &Vec<[u8; 32]>) -> (parents: Vec<[u8; 32]>)
    ensures
        parents@ == parent_level(level@),
{
    let count = level.len();
    let half = count / 2;
    let mut parents: Vec<[u8; 32]> = Vec::with_capacity(half);
    let mut i: usize = 0;
    while i < half
        invariant
            count == level@.len(),
            half == count / 2,
            i <= half,
            parents@.len() == i,
            forall|k: int| 0 <= k < i ==> parents@[k] == node_hash(level@[2 * k], level@[2 * k + 1]),
        decreases half - i,
    {
        let parent = hash_pair(&level[2 * i], &level[2 * i + 1]);
        parents.push(parent);
        i += 1;
    }
    assert(parents@ =~= parent_level(level@));
    parents
}

/// A copy of one level.
fn copy_level(level: &Vec<[u8; 32]>) -> (copy: Vec<[u8; 32]>)
    ensures
        copy@ == level@,
{
    let mut copy: Vec<[u8; 32]> = Vec::with_capacity(level.len());
    let mut i: usize = 0;
    while i < level.len()
        invariant
            i <= level@.len(),
            copy@ == level@.take(i as int),
        decreases level@.len() - i,
    {
        copy.push(level[i]);
        i += 1;
    }
    copy
}

/// The root over `leaves`.
///
/// Fails with `InvalidLeafCount` when there is no leaf or the count is not a power
/// of two.
pub fn build_root(leaves: &Vec<[u8; 32]>) -> (result: Result<[u8; 32], StructuralError>)
    ensures
        result is Ok <==> is_power_of_two(leaves@.len()),
        result matches Err(e) ==> e == StructuralError::InvalidLeafCount,
        result matches Ok(root) ==> root == merkle_root(leaves@),
{
    if !power_of_two(leaves.len()) {
        return Err(StructuralError::InvalidLeafCount);
    }
    let mut level = copy_level(leaves);
    while level.len() > 1
        invariant
            is_power_of_two(level@.len()),
            merkle_root(level@) == merkle_root(leaves@),
        decreases level@.len(),
    {
        level = next_level(&level);
    }
    Ok(level[0])
}

/// The root over `leaves`, in lowercase hexadecimal digits.
///
/// Fails with `InvalidLeafCount` when there is no leaf or the count is not a power
/// of two.
pub fn generate_tree(leaves: &Vec<[u8; 32]>) -> (result: Result<String, StructuralError>)
    ensures
        result is Ok <==> is_power_of_two(leaves@.len()),
        result matches Err(e) ==> e == StructuralError::InvalidLeafCount,
        result matches Ok(text) ==> text@ == hex_string(merkle_root(leaves@)@),
{
    match build_root(leaves) {
        Ok(root) => Ok(to_hex(root.as_slice())),
        Err(e) => Err(e),
    }
}

/// The inclusion path of leaf `index`: at each level, from the leaves upwards, the
/// sibling's hash and the side on which the node stands.
///
/// Fails with `InvalidLeafCount` when there is no leaf or the count is not a power
/// of two, and with `IndexOutOfRange` when the count is valid and there is no leaf
/// `index`.
pub fn build_path(leaves: &Vec<[u8; 32]>, index: usize) -> (result: Result<
    Vec<PathStep>,
    StructuralError,
>)
    ensures
        result is Ok <==> is_power_of_two(leaves@.len()) && index < leaves@.len(),
        result matches Err(e) ==> e == (if is_power_of_two(leaves@.len()) {
            StructuralError::IndexOutOfRange
        } else {
            StructuralError::InvalidLeafCount
        }),
        result matches Ok(path) ==> path@ == merkle_path(leaves@, index as int),
{
    if !power_of_two(leaves.len()) {
        return Err(StructuralError::InvalidLeafCount);
    }
    if index >= leaves.len() {
        return Err(StructuralError::IndexOutOfRange);
    }
    let mut path: Vec<PathStep> = Vec::new();
    let mut level = copy_level(leaves);
    let mut position: usize = index;
    while level.len() > 1
        invariant
            is_power_of_two(level@.len()),
            position < level@.len(),
            merkle_path(leaves@, index as int) == path@ + merkle_path(level@, position as int),
        decreases level@.len(),
    {
        let step = if position % 2 == 0 {
            PathStep { sibling: level[position + 1], side: Side::Left }
        } else {
            PathStep { sibling: level[position - 1], side: Side::Right }
        };
        proof {
            let rest = merkle_path(parent_level(level@), position as int / 2);
            assert(path@ + (seq![step] + rest) =~= path@.push(step) + rest);
        }
        path.push(step);
        level = next_level(&level);
        position = position / 2;
    }
    assert(path@ + Seq::<PathStep>::empty() =~= path@);
    Ok(path)
}

/// Folds `leaf` with the steps of `path`, in order, into the node they lead to.
pub fn root_from_path(leaf: &[u8; 32], path: &Vec<PathStep>) -> (top: [u8; 32])
    ensures
        top == fold_path(*leaf, path@),
{
    let mut node: [u8; 32] = *leaf;
    let mut i: usize = 0;
    while i < path.len()
        invariant
            i <= path@.len(),
            node == fold_path(*leaf, path@.take(i as int)),
        decreases path@.len() - i,
    {
        let step = path[i];
        assert(path@.take(i + 1).drop_last() =~= path@.take(i as int));
        node = match step.side {
            Side::Left => hash_pair(&node, &step.sibling),
            Side::Right => hash_pair(&step.sibling, &node),
        };
        i += 1;
    }
    assert(path@.take(path@.len() as int) =~= path@);
    node
}

/// `path` has the shape of the path of leaf `index` among `count` leaves: one step per
/// level, each with the side on which the node on the way up stands.
pub open spec fn path_fits(path: Seq<PathStep>, index: int, count: nat) -> bool
    decreases path.len(),
{
    if count <= 1 {
        path.len() == 0
    } else {
        path.len() > 0 && path[0].side == side_of(index) && path_fits(
            path.drop_first(),
            index / 2,
            count / 2,
        )
    }
}

/// `path` proves that `leaf` is leaf `index` of the `count` leaves under `root`: the
/// count is valid, the index is in range, the path has the shape of that leaf's path and
/// leads from `leaf` to `root`.
pub open spec fn includes(
    leaf: [u8; 32],
    index: int,
    count: nat,
    path: Seq<PathStep>,
    root: [u8; 32],
) -> bool {
    &&& is_power_of_two(count)
    &&& 0 <= index < count
    &&& path_fits(path, index, count)
    &&& fold_path(leaf, path) == root
}

/// Whether `path` proves that `leaf` is leaf `index` of the `count` leaves under `root`.
pub fn verify_inclusion(
    leaf: &[u8; 32],
    index: usize,
    count: usize,
    path: &Vec<PathStep>,
    root: &[u8; 32],
) -> (accepted: bool)
    ensures
        accepted == includes(*leaf, index as int, count as nat, path@, *root),
{
    if !power_of_two(count) || index >= count {
        return false;
    }
    let mut position: usize = index;
    let mut width: usize = count;
    let mut k: usize = 0;
    assert(path@.skip(0) =~= path@);
    while k < path.len()
        invariant
            k <= path@.len(),
            path_fits(path@, index as int, count as nat) == path_fits(
                path@.skip(k as int),
                position as int,
                width as nat,
            ),
        decreases path@.len() - k,
    {
        let fits = width > 1 && match path[k].side {
            Side::Left => position % 2 == 0,
            Side::Right => position % 2 == 1,
        };
        assert(path@.skip(k as int)[0] == path@[k as int]);
        if !fits {
            return false;
        }
        assert(path@.skip(k as int).drop_first() =~= path@.skip(k + 1));
        position = position / 2;
        width = width / 2;
        k += 1;
    }
    if width > 1 {
        return false;
    }
    verify_path(leaf, path, root)
}

/// Whether `path` leads from `leaf` to `root`.
pub fn verify_path(leaf: &[u8; 32], path: &Vec<PathStep>, root: &[u8; 32]) -> (accepted: bool)
    ensures
        accepted == (fold_path(*leaf, path@) == *root),
{
    let top = root_from_path(leaf, path);
    hash_eq(&top, root)
}

/// Taking a first step and then the rest of a path is taking the whole path.
pub proof fn lemma_fold_first(leaf: [u8; 32], first: PathStep, rest: Seq<PathStep>)
    ensures
        fold_path(leaf, seq![first] + rest) == fold_path(climb(leaf, first), rest),
    decreases rest.len(),
{
    let whole = seq![first] + rest;
    if rest.len() == 0 {
        assert(whole.drop_last() =~= Seq::<PathStep>::empty());
        assert(fold_path(leaf, whole.drop_last()) == leaf);
    } else {
        assert(whole.drop_last() =~= seq![first] + rest.drop_last());
        assert(whole.last() == rest.last());
        lemma_fold_first(leaf, first, rest.drop_last());
    }
}

/// An inclusion path has one step per level of the tree.
pub proof fn lemma_path_length(leaves: Seq<[u8; 32]>, index: int)
    ensures
        merkle_path(leaves, index).len() == tree_height(leaves.len()),
    decreases leaves.len(),
{
    if leaves.len() > 1 {
        lemma_path_length(parent_level(leaves), index / 2);
    }
}

/// Path soundness: over a power-of-two long leaf sequence, folding any leaf with its
/// own inclusion path gives the root.
pub proof fn lemma_path_reaches_root(leaves: Seq<[u8; 32]>, index: int)
    requires
        is_power_of_two(leaves.len()),
        0 <= index < leaves.len(),
    ensures
        fold_path(leaves[index], merkle_path(leaves, index)) == merkle_root(leaves),
    decreases leaves.len(),
{
    if leaves.len() > 1 {
        let first = PathStep { sibling: leaves[sibling_index(index)], side: side_of(index) };
        let above = parent_level(leaves);
        let rest = merkle_path(above, index / 2);
        lemma_fold_first(leaves[index], first, rest);
        assert(climb(leaves[index], first) == above[index / 2]);
        lemma_path_reaches_root(above, index / 2);
    }
}

/// The node that `path` has reached from `leaf` after its first `k` steps.
pub open spec fn node_on_path(leaf: [u8; 32], path: Seq<PathStep>, k: int) -> [u8; 32] {
    fold_path(leaf, path.take(k))
}

/// Somewhere along the two paths, two different 64-byte inputs have the same digest.
pub open spec fn path_collision(
    leaf: [u8; 32],
    path: Seq<PathStep>,
    other_leaf: [u8; 32],
    other: Seq<PathStep>,
) -> bool {
    exists|k: int|
        0 <= k < path.len() && k < other.len() && #[trigger] climb_input(
            node_on_path(leaf, path, k),
            path[k],
        ) != climb_input(node_on_path(other_leaf, other, k), other[k]) && climb(
            node_on_path(leaf, path, k),
            path[k],
        ) == climb(node_on_path(other_leaf, other, k), other[k])
}

/// Two steps on the same side that hash the same 64 bytes start from the same node and
/// hold the same sibling.
proof fn lemma_climb_input_splits(node: [u8; 32], step: PathStep, other_node: [u8; 32], other: PathStep)
    requires
        step.side == other.side,
        climb_input(node, step) == climb_input(other_node, other),
    ensures
        node == other_node,
        step == other,
{
    let a = climb_input(node, step);
    let b = climb_input(other_node, other);
    assert(a.subrange(0, 32) == b.subrange(0, 32));
    assert(a.subrange(32, 64) == b.subrange(32, 64));
    match step.side {
        Side::Left => {
            assert(a.subrange(0, 32) =~= node@);
            assert(b.subrange(0, 32) =~= other_node@);
            assert(a.subrange(32, 64) =~= step.sibling@);
            assert(b.subrange(32, 64) =~= other.sibling@);
        },
        Side::Right => {
            assert(a.subrange(32, 64) =~= node@);
            assert(b.subrange(32, 64) =~= other_node@);
            assert(a.subrange(0, 32) =~= step.sibling@);
            assert(b.subrange(0, 32) =~= other.sibling@);
        },
    }
    assert(node =~= other_node);
    assert(step.sibling =~= other.sibling);
}

/// A path is bound to the node it reaches: two paths of the same length and the same
/// sides that lead to the same node start from the same leaf and hold the same
/// siblings, unless they exhibit a collision of the hash. So a path with one sibling
/// replaced no longer leads to the root, short of such a collision.
pub proof fn lemma_path_binds(
    leaf: [u8; 32],
    path: Seq<PathStep>,
    other_leaf: [u8; 32],
    other: Seq<PathStep>,
)
    requires
        path.len() == other.len(),
        forall|k: int| 0 <= k < path.len() ==> path[k].side == other[k].side,
        fold_path(leaf, path) == fold_path(other_leaf, other),
    ensures
        (leaf == other_leaf && path == other) || path_collision(leaf, path, other_leaf, other),
    decreases path.len(),
{
    if path.len() > 0 {
        let last = path.len() - 1;
        let shorter = path.drop_last();
        let other_shorter = other.drop_last();
        assert(path.take(last) =~= shorter);
        assert(other.take(last) =~= other_shorter);
        let node = node_on_path(leaf, path, last);
        let other_node = node_on_path(other_leaf, other, last);
        if climb_input(node, path[last]) != climb_input(other_node, other[last]) {
            assert(path_collision(leaf, path, other_leaf, other));
        } else {
            lemma_climb_input_splits(node, path[last], other_node, other[last]);
            lemma_path_binds(leaf, shorter, other_leaf, other_shorter);
            if path_collision(leaf, shorter, other_leaf, other_shorter) {
                let k = choose|k: int|
                    0 <= k < shorter.len() && k < other_shorter.len() && #[trigger] climb_input(
                        node_on_path(leaf, shorter, k),
                        shorter[k],
                    ) != climb_input(node_on_path(other_leaf, other_shorter, k), other_shorter[k])
                        && climb(node_on_path(leaf, shorter, k), shorter[k]) == climb(
                        node_on_path(other_leaf, other_shorter, k),
                        other_shorter[k],
                    );
                assert(shorter.take(k) =~= path.take(k));
                assert(other_shorter.take(k) =~= other.take(k));
                assert(climb_input(node_on_path(leaf, path, k), path[k]) != climb_input(
                    node_on_path(other_leaf, other, k),
                    other[k],
                ));
                assert(path_collision(leaf, path, other_leaf, other));
            } else {
                assert forall|k: int| 0 <= k < path.len() implies path[k] == other[k] by {
                    if k < last {
                        assert(path[k] == shorter[k]);
                        assert(other[k] == other_shorter[k]);
                    }
                }
                assert(path =~= other);
            }
        }
    } else {
        assert(path =~= other);
    }
}

/// Corrupting a sibling makes verification fail: a path that has the sides of the true
/// path of leaf `index` and another sibling hash at some level does not lead from the
/// leaf to the root, unless the two paths exhibit a collision of the hash.
pub proof fn lemma_corrupted_sibling_fails(
    leaves: Seq<[u8; 32]>,
    index: int,
    corrupted: Seq<PathStep>,
    level: int,
)
    requires
        is_power_of_two(leaves.len()),
        0 <= index < leaves.len(),
        corrupted.len() == merkle_path(leaves, index).len(),
        forall|k: int|
            0 <= k < corrupted.len() ==> corrupted[k].side == merkle_path(leaves, index)[k].side,
        0 <= level < corrupted.len(),
        corrupted[level].sibling != merkle_path(leaves, index)[level].sibling,
    ensures
        fold_path(leaves[index], corrupted) != merkle_root(leaves) || path_collision(
            leaves[index],
            corrupted,
            leaves[index],
            merkle_path(leaves, index),
        ),
{
    lemma_path_reaches_root(leaves, index);
    if fold_path(leaves[index], corrupted) == merkle_root(leaves) {
        lemma_path_binds(leaves[index], corrupted, leaves[index], merkle_path(leaves, index));
    }
}

/// The path of a leaf has the shape of that leaf's path.
pub proof fn lemma_own_path_fits(leaves: Seq<[u8; 32]>, index: int)
    ensures
        path_fits(merkle_path(leaves, index), index, leaves.len()),
    decreases leaves.len(),
{
    if leaves.len() > 1 {
        let path = merkle_path(leaves, index);
        assert(path.drop_first() =~= merkle_path(parent_level(leaves), index / 2));
        lemma_own_path_fits(parent_level(leaves), index / 2);
    }
}

/// A path with the shape of a leaf's path has the length and the sides of that path.
pub proof fn lemma_fitting_path_has_sides(path: Seq<PathStep>, leaves: Seq<[u8; 32]>, index: int)
    requires
        path_fits(path, index, leaves.len()),
    ensures
        path.len() == merkle_path(leaves, index).len(),
        forall|k: int| 0 <= k < path.len() ==> path[k].side == merkle_path(leaves, index)[k].side,
    decreases leaves.len(),
{
    if leaves.len() > 1 {
        let own = merkle_path(leaves, index);
        let above = parent_level(leaves);
        assert(own.drop_first() =~= merkle_path(above, index / 2));
        lemma_fitting_path_has_sides(path.drop_first(), above, index / 2);
        assert forall|k: int| 0 <= k < path.len() implies path[k].side == own[k].side by {
            if k > 0 {
                assert(path[k] == path.drop_first()[k - 1]);
                assert(own[k] == own.drop_first()[k - 1]);
            }
        }
    }
}

/// Inclusion is complete: every leaf is included by its own path.
pub proof fn lemma_inclusion_is_complete(leaves: Seq<[u8; 32]>, index: int)
    requires
        is_power_of_two(leaves.len()),
        0 <= index < leaves.len(),
    ensures
        includes(
            leaves[index],
            index,
            leaves.len(),
            merkle_path(leaves, index),
            merkle_root(leaves),
        ),
{
    lemma_own_path_fits(leaves, index);
    lemma_path_reaches_root(leaves, index);
}

/// Inclusion is sound: what is included at `index` under the root of `leaves` is leaf
/// `index`, by that leaf's own path, unless the proof exhibits a collision of the hash.
pub proof fn lemma_inclusion_is_sound(
    leaves: Seq<[u8; 32]>,
    index: int,
    leaf: [u8; 32],
    path: Seq<PathStep>,
)
    requires
        includes(leaf, index, leaves.len(), path, merkle_root(leaves)),
    ensures
        (leaf == leaves[index] && path == merkle_path(leaves, index)) || path_collision(
            leaf,
            path,
            leaves[index],
            merkle_path(leaves, index),
        ),
{
    lemma_fitting_path_has_sides(path, leaves, index);
    lemma_path_reaches_root(leaves, index);
    lemma_path_binds(leaf, path, leaves[index], merkle_path(leaves, index));
}

/// At one level of the two trees, two different 64-byte inputs have the same digest.
pub open spec fn level_collision(level: Seq<[u8; 32]>, other: Seq<[u8; 32]>) -> bool {
    exists|i: int|
        0 <= i < level.len() / 2 && #[trigger] node_input(level[2 * i], level[2 * i + 1])
            != node_input(other[2 * i], other[2 * i + 1]) && node_hash(
            level[2 * i],
            level[2 * i + 1],
        ) == node_hash(other[2 * i], other[2 * i + 1])
}

/// At some level of the two trees, two different 64-byte inputs have the same digest.
pub open spec fn tree_collision(level: Seq<[u8; 32]>, other: Seq<[u8; 32]>) -> bool
    decreases level.len(),
{
    if level.len() <= 1 {
        false
    } else {
        level_collision(level, other) || tree_collision(parent_level(level), parent_level(other))
    }
}

/// Tree determinism: the root is a function of the leaves' contents and order alone.
pub proof fn lemma_root_deterministic(leaves: Seq<[u8; 32]>, again: Seq<[u8; 32]>)
    requires
        leaves =~= again,
    ensures
        merkle_root(leaves) == merkle_root(again),
{
}

/// The root binds every leaf: two leaf sequences of the same power-of-two length with
/// the same root are the same sequence, unless the two trees exhibit a collision of the
/// hash. So changing any single leaf changes the root, short of such a collision.
pub proof fn lemma_root_binds_leaves(leaves: Seq<[u8; 32]>, other: Seq<[u8; 32]>)
    requires
        is_power_of_two(leaves.len()),
        leaves.len() == other.len(),
        merkle_root(leaves) == merkle_root(other),
    ensures
        leaves == other || tree_collision(leaves, other),
    decreases leaves.len(),
{
    if leaves.len() > 1 {
        let above = parent_level(leaves);
        let other_above = parent_level(other);
        lemma_root_binds_leaves(above, other_above);
        if !tree_collision(leaves, other) {
            assert(above == other_above);
            assert forall|j: int| 0 <= j < leaves.len() implies leaves[j] == other[j] by {
                let i = j / 2;
                assert(above[i] == other_above[i]);
                let a = node_input(leaves[2 * i], leaves[2 * i + 1]);
                let b = node_input(other[2 * i], other[2 * i + 1]);
                assert(a == b);
                assert(a.subrange(0, 32) =~= leaves[2 * i]@);
                assert(b.subrange(0, 32) =~= other[2 * i]@);
                assert(a.subrange(32, 64) =~= leaves[2 * i + 1]@);
                assert(b.subrange(32, 64) =~= other[2 * i + 1]@);
                assert(leaves[2 * i] =~= other[2 * i]);
                assert(leaves[2 * i + 1] =~= other[2 * i + 1]);
            }
            assert(leaves =~= other);
        }
    } else {
        assert(leaves =~= other);
    }
}

/// Changing a leaf changes the root: over a power-of-two long leaf sequence, putting
/// another hash in the place of one leaf gives another root, unless the two trees
/// exhibit a collision of the hash.
pub proof fn lemma_changed_leaf_changes_root(leaves: Seq<[u8; 32]>, index: int, changed: [u8; 32])
    requires
        is_power_of_two(leaves.len()),
        0 <= index < leaves.len(),
        changed != leaves[index],
    ensures
        merkle_root(leaves.update(index, changed)) != merkle_root(leaves) || tree_collision(
            leaves.update(index, changed),
            leaves,
        ),
{
    let other = leaves.update(index, changed);
    if merkle_root(other) == merkle_root(leaves) {
        lemma_root_binds_leaves(other, leaves);
        assert(other[index] != leaves[index]);
    }
}

} // verus!
