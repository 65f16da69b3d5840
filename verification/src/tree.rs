//! A persistent ordered map from `i32` keys to `char` values. Every change
//! gives a new version of the map and leaves the old one as it was; the two
//! share all the subtrees that the change did not touch.
use std::rc::Rc;
use vstd::prelude::*;
use crate::errors::Errors;
use crate::node::{
    bindings, grown, ordered, spec_delete, spec_lookup, splice, spliced, traversal, unshared, Node, Pair,
};

verus! {

/// One version of the map: a search tree, or nothing for the empty map.
#[derive(Debug)]
pub struct Tree {
    root: Option<Rc<Node>>,
}

impl View for Tree {
    type V = Map<i32, char>;

    /// The bindings of the map.
    open spec fn view(&self) -> Map<i32, char> {
        bindings(self.spec_root())
    }
}

impl Tree {
    /// The root node, if the tree is not empty.
    pub closed spec fn spec_root(self) -> Option<Node> {
        unshared(self.root)
    }

    /// The tree with the given root.
    pub closed spec fn with_root(root: Option<Node>) -> Tree {
        Tree {
            root: match root {
                Some(node) => Some(Rc::new(node)),
                None => None,
            },
        }
    }

    /// The order property of a search tree, at every node of this tree.
    /// Every tree that a program holds has it.
    #[verifier::type_invariant]
    pub open spec fn well_formed(self) -> bool {
        ordered(self.spec_root())
    }

    /// The bindings in the order of an in-order traversal.
    pub open spec fn in_order(self) -> Seq<Pair> {
        traversal(self.spec_root())
    }

    /// What inserting the binding of `key` to `value` returns.
    pub open spec fn spec_insert(self, key: i32, value: char) -> Result<Tree, Errors> {
        if self@.contains_key(key) {
            Err(Errors::DuplicateKey)
        } else {
            Ok(Tree::with_root(Some(grown(self.spec_root(), key, value))))
        }
    }

    /// What a lookup of `key` returns.
    pub open spec fn spec_lookup(self, key: i32) -> Result<char, Errors> {
        spec_lookup(self.spec_root(), key)
    }

    /// What deleting `key` returns.
    pub open spec fn spec_delete(self, key: i32) -> Result<Tree, Errors> {
        match spec_delete(self.spec_root(), key) {
            Ok(root) => Ok(Tree::with_root(root)),
            Err(e) => Err(e),
        }
    }

    /// The root of the tree with a given root is that root.
    pub proof fn lemma_with_root()
        ensures
            forall|root: Option<Node>| (#[trigger] Tree::with_root(root)).spec_root() == root,
    {
    }

    /// The empty map.
    pub fn empty() -> (tree: Tree)
        ensures
            tree == Tree::with_root(None),
            tree.spec_root() is None,
            tree@ == Map::<i32, char>::empty(),
            tree.well_formed(),
    {
        Tree { root: None }
    }

    /// The tree whose root is `node`.
    pub fn from_node(node: Node) -> (tree: Tree)
        ensures
            tree == Tree::with_root(Some(node)),
            tree.spec_root() == Some(node),
            tree@ == node@,
            tree.well_formed(),
    {
        proof {
            use_type_invariant(&node);
        }
        Tree { root: Some(Rc::new(node)) }
    }

    /// The root node, if the tree is not empty, by the handle that the tree
    /// holds it with.
    pub fn root(&self) -> (root: Option<&Rc<Node>>)
        ensures
            match root {
                Some(node) => self.spec_root() == Some(**node),
                None => self.spec_root() is None,
            },
    {
        match &self.root {
            Some(node) => Some(node),
            None => None,
        }
    }

    /// Inserts the binding `pair` and returns the new version; this version
    /// stays as it is. A key that the map already binds is refused with
    /// `DuplicateKey`.
    pub fn insert(&self, pair: Pair) -> (res: Result<Tree, Errors>)
        ensures
            res == self.spec_insert(pair.0, pair.1),
            res matches Ok(tree) ==> {
                &&& tree.spec_root() == Some(grown(self.spec_root(), pair.0, pair.1))
                &&& tree.well_formed()
                &&& tree@ == self@.insert(pair.0, pair.1)
            },
    {
        match &self.root {
            Some(node) => {
                match node.add(pair) {
                    Ok(root) => Ok(Tree { root: Some(Rc::new(root)) }),
                    Err(e) => Err(e),
                }
            },
            None => Ok(Tree { root: Some(Rc::new(Node::new(pair))) }),
        }
    }

    /// Looks `key` up: the value bound to it, or `NoKeyFound` where the map
    /// does not bind it.
    pub fn lookup(&self, key: i32) -> (res: Result<char, Errors>)
        ensures
            res == self.spec_lookup(key),
    {
        match &self.root {
            Some(node) => node.get(key),
            None => Err(Errors::NoKeyFound),
        }
    }

    /// Deletes the binding of `key` and returns the new version, which is
    /// empty where the key was the only one; this version stays as it is. A
    /// key that the map does not bind is refused with `NoKeyFound`.
    ///
    /// The tree stands to its root as a node stands to a child: where the
    /// root holds the key, the root is replaced as any other node is.
    pub fn delete(&self, key: i32) -> (res: Result<Tree, Errors>)
        ensures
            res == self.spec_delete(key),
            res matches Ok(tree) ==> {
                &&& tree.spec_root() == spliced(self.spec_root(), key)
                &&& tree.well_formed()
                &&& tree@ == self@.remove(key)
            },
    {
        match &self.root {
            Some(node) => {
                match splice(node, key) {
                    Ok(root) => Ok(Tree { root }),
                    Err(e) => Err(e),
                }
            },
            None => Err(Errors::NoKeyFound),
        }
    }
}

} // verus!
