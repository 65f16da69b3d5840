//! What holds of the map's operations taken together, for every tree and
//! every key.
use vstd::prelude::*;
use crate::errors::Errors;
use crate::node::{ascending, bindings, grown, ordered, spec_lookup, spliced, Node, Pair};
use crate::tree::Tree;

verus! {

/// What inserting `pairs`, first to last, into the empty tree returns: the
/// tree with all of them, or the error of the first insertion that failed.
pub open spec fn inserted_all(pairs: Seq<Pair>) -> Result<Tree, Errors>
    decreases pairs.len(),
{
    if pairs.len() == 0 {
        Ok(Tree::with_root(None))
    } else {
        match inserted_all(pairs.drop_last()) {
            Ok(tree) => tree.spec_insert(pairs.last().0, pairs.last().1),
            Err(e) => Err(e),
        }
    }
}

/// The in-order traversal of an ordered tree has strictly ascending keys,
/// and it lists the bindings of the tree, each of them and nothing else.
pub proof fn law_traversal_ascending(tree: Tree)
    requires
        tree.well_formed(),
    ensures
        ascending(tree.in_order()),
        forall|i: int|
            0 <= i < tree.in_order().len() ==> tree@.contains_pair(
                (#[trigger] tree.in_order()[i]).0,
                tree.in_order()[i].1,
            ),
        forall|k: i32|
            tree@.contains_key(k) ==> exists|i: int|
                0 <= i < tree.in_order().len() && #[trigger] tree.in_order()[i] == (k, tree@[k]),
{
    match tree.spec_root() {
        Some(root) => {
            root.lemma_in_order();
            assert forall|k: i32| tree@.contains_key(k) implies exists|i: int|
                0 <= i < tree.in_order().len() && #[trigger] tree.in_order()[i] == (k, tree@[k]) by {
                let i = choose|i: int|
                    0 <= i < root.in_order().len() && #[trigger] root.in_order()[i] == (k, root@[k]);
                assert(tree.in_order()[i] == (k, tree@[k]));
            }
        },
        None => {},
    }
}

/// Insertion keeps a tree ordered.
pub proof fn law_insert_keeps_order(tree: Tree, key: i32, value: char)
    requires
        tree.well_formed(),
    ensures
        tree.spec_insert(key, value) matches Ok(newer) ==> newer.well_formed() && newer@
            == tree@.insert(key, value),
{
    if !tree@.contains_key(key) {
        Tree::lemma_with_root();
        match tree.spec_root() {
            Some(root) => root.lemma_inserted(key, value),
            None => Node::lemma_leaf(key, value),
        }
    }
}

/// Whatever sequence of insertions built a tree, the tree is ordered and its
/// in-order traversal has strictly ascending keys.
pub proof fn law_order_invariant(pairs: Seq<Pair>)
    ensures
        inserted_all(pairs) matches Ok(tree) ==> tree.well_formed() && ascending(tree.in_order()),
    decreases pairs.len(),
{
    if pairs.len() == 0 {
        Tree::lemma_with_root();
    } else {
        law_order_invariant(pairs.drop_last());
        if let Ok(earlier) = inserted_all(pairs.drop_last()) {
            law_insert_keeps_order(earlier, pairs.last().0, pairs.last().1);
        }
    }
    if let Ok(tree) = inserted_all(pairs) {
        law_traversal_ascending(tree);
    }
}

/// A fresh key can be inserted, and a lookup in the new version then finds
/// the value that was inserted with it.
pub proof fn law_insert_then_lookup(tree: Tree, key: i32, value: char)
    requires
        tree.well_formed(),
        !tree@.contains_key(key),
    ensures
        tree.spec_insert(key, value) is Ok,
        tree.spec_insert(key, value).unwrap().spec_lookup(key) == Ok::<char, Errors>(value),
{
    law_insert_keeps_order(tree, key, value);
}

/// An insertion leaves every binding of the old version in place: the new
/// version gives, for each key that the old one binds, the value that the old
/// one gives. The old version is a value that no operation changes, so a
/// lookup in it returns after the insertion what it returned before.
pub proof fn law_insert_keeps_bindings(tree: Tree, key: i32, value: char, other: i32)
    requires
        tree.well_formed(),
        tree@.contains_key(other),
    ensures
        tree.spec_insert(key, value) matches Ok(newer) ==> newer.spec_lookup(other)
            == tree.spec_lookup(other),
{
    law_insert_keeps_order(tree, key, value);
}

/// A key that the tree binds is refused, and no other is.
pub proof fn law_duplicate_rejected(tree: Tree, key: i32, value: char)
    ensures
        tree@.contains_key(key) <==> tree.spec_insert(key, value) == Err::<Tree, Errors>(
            Errors::DuplicateKey,
        ),
        tree.spec_insert(key, value) is Err <==> tree@.contains_key(key),
{
}

/// Deletion keeps a tree ordered and takes away the one binding.
pub proof fn law_delete_keeps_order(tree: Tree, key: i32)
    requires
        tree.well_formed(),
    ensures
        tree.spec_delete(key) matches Ok(newer) ==> newer.well_formed() && newer@ == tree@.remove(
            key,
        ),
{
    if tree@.contains_key(key) {
        let root = tree.spec_root().unwrap();
        Tree::lemma_with_root();
        if root.spec_key() == key {
            root.lemma_without_root();
        } else {
            root.lemma_removed(key);
        }
    }
}

/// A key that the tree binds can be deleted; a lookup of it in the new
/// version fails with `NoKeyFound`, and a lookup of any other key returns
/// what it returned in the old version.
pub proof fn law_delete_removes_one(tree: Tree, key: i32, other: i32)
    requires
        tree.well_formed(),
        tree@.contains_key(key),
    ensures
        tree.spec_delete(key) is Ok,
        tree.spec_delete(key).unwrap().spec_lookup(key) == Err::<char, Errors>(Errors::NoKeyFound),
        other != key ==> tree.spec_delete(key).unwrap().spec_lookup(other) == tree.spec_lookup(
            other,
        ),
{
    law_delete_keeps_order(tree, key);
}

/// A key that the tree does not bind is neither found nor deleted: both
/// operations fail with `NoKeyFound`, and only for such a key.
pub proof fn law_absent_key(tree: Tree, key: i32)
    ensures
        !tree@.contains_key(key) <==> tree.spec_lookup(key) == Err::<char, Errors>(
            Errors::NoKeyFound,
        ),
        !tree@.contains_key(key) <==> tree.spec_delete(key) == Err::<Tree, Errors>(
            Errors::NoKeyFound,
        ),
        tree.spec_lookup(key) is Err <==> !tree@.contains_key(key),
        tree.spec_delete(key) is Err <==> !tree@.contains_key(key),
{
}

/// The empty tree binds no key: every lookup in it and every deletion from
/// it fails with `NoKeyFound`.
pub proof fn law_empty_tree(key: i32)
    ensures
        Tree::with_root(None)@ == Map::<i32, char>::empty(),
        Tree::with_root(None).spec_lookup(key) == Err::<char, Errors>(Errors::NoKeyFound),
        Tree::with_root(None).spec_delete(key) == Err::<Tree, Errors>(Errors::NoKeyFound),
{
    Tree::lemma_with_root();
}

/// No deletion ends in `MissedStep`, whatever the tree and the key.
pub proof fn law_no_missed_step(tree: Tree, node: Node, key: i32)
    ensures
        tree.spec_delete(key) != Err::<Tree, Errors>(Errors::MissedStep),
        node.spec_remove(key) != Err::<Option<Node>, Errors>(Errors::MissedStep),
{
}

/// A fresh key can be added to a tree of nodes, and a lookup in the new
/// version finds its value; every key of the old version keeps its value in
/// the new one.
pub proof fn law_add_then_get(node: Node, key: i32, value: char, other: i32)
    requires
        node.well_formed(),
        !node@.contains_key(key),
    ensures
        node.spec_add(key, value) matches Ok(newer) && newer.well_formed() && newer.spec_get(key)
            == Ok::<char, Errors>(value),
        node@.contains_key(other) ==> node.spec_add(key, value).unwrap().spec_get(other)
            == node.spec_get(other),
{
    node.lemma_inserted(key, value);
}

/// A key that a tree of nodes binds can be removed; what is left is ordered,
/// a lookup of the key in it fails with `NoKeyFound`, and a lookup of any
/// other key returns what it returned in the old version.
pub proof fn law_remove_removes_one(node: Node, key: i32, other: i32)
    requires
        node.well_formed(),
        node@.contains_key(key),
    ensures
        node.spec_remove(key) matches Ok(rest) && ordered(rest) && spec_lookup(rest, key)
            == Err::<char, Errors>(Errors::NoKeyFound),
        other != key ==> spec_lookup(node.spec_remove(key).unwrap(), other) == node.spec_get(other),
{
    if key == node.spec_key() {
        node.lemma_without_root();
    } else {
        node.lemma_removed(key);
    }
}

/// An insertion rebuilds the nodes on the way to the new leaf and nothing
/// else: the root keeps its binding, the subtree on the other side of the
/// root is the old one, and the subtree on the key's side is the old one
/// with the key inserted in the same manner.
pub proof fn law_insert_shares_untouched(node: Node, key: i32, value: char)
    ensures
        node.inserted(key, value).spec_key() == node.spec_key(),
        node.inserted(key, value).spec_value() == node.spec_value(),
        key < node.spec_key() ==> {
            &&& node.inserted(key, value).spec_right() == node.spec_right()
            &&& node.inserted(key, value).spec_left() == Some(grown(node.spec_left(), key, value))
        },
        key > node.spec_key() ==> {
            &&& node.inserted(key, value).spec_left() == node.spec_left()
            &&& node.inserted(key, value).spec_right() == Some(grown(node.spec_right(), key, value))
        },
{
    Node::lemma_assemble();
}

/// A deletion below the root rebuilds the nodes on the way to the key and
/// nothing else: the root keeps its binding, the subtree on the other side
/// of the root is the old one, and the subtree on the key's side is the old
/// one with the key spliced out in the same manner.
pub proof fn law_delete_shares_untouched(node: Node, key: i32)
    ensures
        node.removed(key).spec_key() == node.spec_key(),
        node.removed(key).spec_value() == node.spec_value(),
        key < node.spec_key() ==> {
            &&& node.removed(key).spec_right() == node.spec_right()
            &&& node.removed(key).spec_left() == spliced(node.spec_left(), key)
        },
        key > node.spec_key() ==> {
            &&& node.removed(key).spec_left() == node.spec_left()
            &&& node.removed(key).spec_right() == spliced(node.spec_right(), key)
        },
{
    Node::lemma_assemble();
}

/// The replacement of a node whose binding is deleted: nothing for a leaf,
/// the only child for a node with one, and for a node with two the binding
/// of the smallest key of the right subtree, over the old left subtree and
/// over the right subtree with that key spliced out.
pub proof fn law_replacement(node: Node)
    requires
        node.well_formed(),
    ensures
        node.spec_left() is None ==> node.without_root() == node.spec_right(),
        node.spec_right() is None ==> node.without_root() == node.spec_left(),
        node.spec_left() is Some && node.spec_right() is Some ==> {
            let right = node.spec_right().unwrap();
            let next = right.leftmost();
            &&& node.without_root() matches Some(top)
            &&& top.spec_key() == next.spec_key()
            &&& top.spec_value() == next.spec_value()
            &&& top.spec_left() == node.spec_left()
            &&& top.spec_right() == spliced(node.spec_right(), next.spec_key())
            &&& right@.contains_key(next.spec_key())
            &&& forall|k: i32| right@.contains_key(k) ==> next.spec_key() <= k
        },
{
    Node::lemma_assemble();
    if let Some(right) = node.spec_right() {
        assert(right.well_formed());
        right.lemma_leftmost();
        if let Some(child) = right.spec_left() {
            assert(child.well_formed());
            child.lemma_leftmost();
            assert(right.leftmost() == child.leftmost());
            assert(bindings(right.spec_left()).contains_key(child.leftmost().spec_key()));
        }
    }
}

} // verus!
