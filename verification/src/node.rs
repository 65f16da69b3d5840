//! The node of a persistent binary search tree, and the operations that
//! build new versions of a tree from old ones.
//!
//! The file has four parts: the node and its parts; what a tree means (its
//! bindings, its order property, its in-order traversal) and what each
//! operation returns; the lemmas that tie the two together; and the
//! operations themselves.
use std::rc::Rc;
use vstd::prelude::*;
use crate::errors::Errors;

verus! {

/// A key together with the value bound to it.
pub type Pair = (i32, char);

/// One binding of the map, with the subtrees of the smaller and of the larger
/// keys. A node is never changed once it is built; a child may be shared with
/// any number of other versions of the tree.
#[derive(Debug)]
pub struct Node {
    left: Option<Rc<Node>>,
    right: Option<Rc<Node>>,
    key: i32,
    value: char,
}

/// What a child slot holds, as a plain optional node.
pub open spec fn unshared(link: Option<Rc<Node>>) -> Option<Node> {
    match link {
        Some(rc) => Some(*rc),
        None => None,
    }
}

impl Node {
    /// The key at this node.
    pub closed spec fn spec_key(self) -> i32 {
        self.key
    }

    /// The value at this node.
    pub closed spec fn spec_value(self) -> char {
        self.value
    }

    /// The subtree of the smaller keys.
    pub closed spec fn spec_left(self) -> Option<Node> {
        unshared(self.left)
    }

    /// The subtree of the larger keys.
    pub closed spec fn spec_right(self) -> Option<Node> {
        unshared(self.right)
    }

    /// The node with the given parts.
    pub closed spec fn assemble(key: i32, value: char, left: Option<Node>, right: Option<Node>) -> Node {
        Node {
            left: match left {
                Some(l) => Some(Rc::new(l)),
                None => None,
            },
            right: match right {
                Some(r) => Some(Rc::new(r)),
                None => None,
            },
            key,
            value,
        }
    }

    /// The parts of an assembled node are the parts it was assembled from.
    pub proof fn lemma_assemble()
        ensures
            forall|key: i32, value: char, left: Option<Node>, right: Option<Node>|
                {
                    let node = #[trigger] Node::assemble(key, value, left, right);
                    &&& node.spec_key() == key
                    &&& node.spec_value() == value
                    &&& node.spec_left() == left
                    &&& node.spec_right() == right
                },
    {
    }
}

// What a tree means.

impl View for Node {
    type V = Map<i32, char>;

    /// Every binding held anywhere in the tree below and at this node.
    open spec fn view(&self) -> Map<i32, char>
        decreases self,
    {
        let smaller = match self.spec_left() {
            Some(child) => child.view(),
            None => Map::empty(),
        };
        let larger = match self.spec_right() {
            Some(child) => child.view(),
            None => Map::empty(),
        };
        smaller.union_prefer_right(larger).insert(self.spec_key(), self.spec_value())
    }
}

/// The bindings of an optional tree; the empty tree binds nothing.
pub open spec fn bindings(tree: Option<Node>) -> Map<i32, char> {
    match tree {
        Some(node) => node@,
        None => Map::empty(),
    }
}

impl Node {
    /// The order property of a search tree: at every node, each key of the
    /// left subtree is smaller than the node's key and each key of the right
    /// subtree is larger. Every node that a program holds has it.
    #[verifier::type_invariant]
    pub open spec fn well_formed(self) -> bool
        decreases self,
    {
        &&& (self.spec_left() matches Some(child) ==> child.well_formed())
        &&& (self.spec_right() matches Some(child) ==> child.well_formed())
        &&& (forall|k: i32| bindings(self.spec_left()).contains_key(k) ==> k < self.spec_key())
        &&& (forall|k: i32| bindings(self.spec_right()).contains_key(k) ==> k > self.spec_key())
    }

    /// The bindings in the order of an in-order traversal: those of the left
    /// subtree, then the node's own, then those of the right subtree.
    pub open spec fn in_order(self) -> Seq<Pair>
        decreases self,
    {
        let before = match self.spec_left() {
            Some(child) => child.in_order(),
            None => Seq::empty(),
        };
        let after = match self.spec_right() {
            Some(child) => child.in_order(),
            None => Seq::empty(),
        };
        before.push((self.spec_key(), self.spec_value())) + after
    }
}

/// The order property of an optional tree; the empty tree has it.
pub open spec fn ordered(tree: Option<Node>) -> bool {
    match tree {
        Some(node) => node.well_formed(),
        None => true,
    }
}

/// The in-order traversal of an optional tree; the empty tree has none.
pub open spec fn traversal(tree: Option<Node>) -> Seq<Pair> {
    match tree {
        Some(node) => node.in_order(),
        None => Seq::empty(),
    }
}

/// The keys of the pairs rise strictly from each pair to the next.
pub open spec fn ascending(pairs: Seq<Pair>) -> bool {
    forall|i: int, j: int| 0 <= i < j < pairs.len() ==> pairs[i].0 < pairs[j].0
}

// What each operation returns.

impl Node {
    /// The tree of one binding.
    pub open spec fn leaf(key: i32, value: char) -> Node {
        Node::assemble(key, value, None, None)
    }

    /// What a lookup of `key` returns.
    pub open spec fn spec_get(self, key: i32) -> Result<char, Errors> {
        spec_lookup(Some(self), key)
    }

    /// This tree with the fresh binding of `key` added as a new leaf. The
    /// nodes on the way from the root to the leaf are rebuilt; every subtree
    /// off that way is the one of this tree.
    pub open spec fn inserted(self, key: i32, value: char) -> Node
        decreases self,
    {
        if key < self.spec_key() {
            let child = match self.spec_left() {
                Some(child) => child.inserted(key, value),
                None => Node::leaf(key, value),
            };
            Node::assemble(self.spec_key(), self.spec_value(), Some(child), self.spec_right())
        } else if key > self.spec_key() {
            let child = match self.spec_right() {
                Some(child) => child.inserted(key, value),
                None => Node::leaf(key, value),
            };
            Node::assemble(self.spec_key(), self.spec_value(), self.spec_left(), Some(child))
        } else {
            self
        }
    }

    /// What adding the binding of `key` to `value` returns.
    pub open spec fn spec_add(self, key: i32, value: char) -> Result<Node, Errors> {
        if self@.contains_key(key) {
            Err(Errors::DuplicateKey)
        } else {
            Ok(self.inserted(key, value))
        }
    }

    /// The node of the smallest key: the end of the way that goes left from
    /// here as long as it can.
    pub open spec fn leftmost(self) -> Node
        decreases self,
    {
        match self.spec_left() {
            Some(child) => child.leftmost(),
            None => self,
        }
    }

    /// What takes this node's place when its own binding is deleted: nothing
    /// for a leaf, the only child where there is one, and with two children
    /// the in-order successor's binding over the same left subtree and the
    /// right subtree without the successor.
    pub open spec fn without_root(self) -> Option<Node>
        decreases self,
    {
        match (self.spec_left(), self.spec_right()) {
            (None, None) => None,
            (None, Some(child)) => Some(child),
            (Some(child), None) => Some(child),
            (Some(left), Some(right)) => {
                let next = right.leftmost();
                let rest = if next.spec_key() == right.spec_key() {
                    right.spec_right()
                } else {
                    Some(right.removed(next.spec_key()))
                };
                Some(Node::assemble(next.spec_key(), next.spec_value(), Some(left), rest))
            },
        }
    }

    /// This tree with the binding of `key` deleted from below the root: the
    /// root rebuilt over the subtree on the key's side with the key spliced
    /// out, and over the other subtree as it is.
    pub open spec fn removed(self, key: i32) -> Node
        decreases self,
    {
        if key < self.spec_key() {
            let rest = match self.spec_left() {
                Some(child) => if child.spec_key() == key {
                    child.without_root()
                } else {
                    Some(child.removed(key))
                },
                None => None,
            };
            Node::assemble(self.spec_key(), self.spec_value(), rest, self.spec_right())
        } else if key > self.spec_key() {
            let rest = match self.spec_right() {
                Some(child) => if child.spec_key() == key {
                    child.without_root()
                } else {
                    Some(child.removed(key))
                },
                None => None,
            };
            Node::assemble(self.spec_key(), self.spec_value(), self.spec_left(), rest)
        } else {
            self
        }
    }

    /// What deleting `key` from this tree returns: the tree that is left,
    /// which is empty where the key was the only one.
    pub open spec fn spec_remove(self, key: i32) -> Result<Option<Node>, Errors> {
        spec_delete(Some(self), key)
    }
}

/// What a lookup of `key` in an optional tree returns.
pub open spec fn spec_lookup(tree: Option<Node>, key: i32) -> Result<char, Errors> {
    if bindings(tree).contains_key(key) {
        Ok(bindings(tree)[key])
    } else {
        Err(Errors::NoKeyFound)
    }
}

/// The tree that an optional tree becomes when a fresh binding is put where
/// the search for its key ends.
pub open spec fn grown(tree: Option<Node>, key: i32, value: char) -> Node {
    match tree {
        Some(node) => node.inserted(key, value),
        None => Node::leaf(key, value),
    }
}

/// An optional tree with the binding of `key` spliced out: the root's
/// replacement where the root holds the key, else the root rebuilt over the
/// subtree that lost it.
pub open spec fn spliced(tree: Option<Node>, key: i32) -> Option<Node> {
    match tree {
        Some(node) => if node.spec_key() == key {
            node.without_root()
        } else {
            Some(node.removed(key))
        },
        None => None,
    }
}

/// What deleting `key` from an optional tree returns.
pub open spec fn spec_delete(tree: Option<Node>, key: i32) -> Result<Option<Node>, Errors> {
    if bindings(tree).contains_key(key) {
        Ok(spliced(tree, key))
    } else {
        Err(Errors::NoKeyFound)
    }
}

// The lemmas.

impl Node {
    /// The tree of one binding is ordered and binds just that.
    pub proof fn lemma_leaf(key: i32, value: char)
        ensures
            Node::leaf(key, value).well_formed(),
            Node::leaf(key, value)@ == Map::<i32, char>::empty().insert(key, value),
    {
        assert(Node::leaf(key, value)@ =~= Map::<i32, char>::empty().insert(key, value));
    }

    /// In an ordered tree a key is found at the root, or else in the one
    /// subtree on its side of the root's key.
    pub proof fn lemma_search_step(self, key: i32)
        requires
            self.well_formed(),
        ensures
            key == self.spec_key() ==> self.spec_get(key) == Ok::<char, Errors>(self.spec_value()),
            key < self.spec_key() ==> self.spec_get(key) == spec_lookup(self.spec_left(), key),
            key > self.spec_key() ==> self.spec_get(key) == spec_lookup(self.spec_right(), key),
    {
        let smaller = bindings(self.spec_left());
        let larger = bindings(self.spec_right());
        if key < self.spec_key() {
            assert(!larger.contains_key(key));
        } else if key > self.spec_key() {
            assert(!smaller.contains_key(key));
        }
    }

    /// Adding a fresh key to an ordered tree gives an ordered tree with that
    /// one binding more.
    pub proof fn lemma_inserted(self, key: i32, value: char)
        requires
            self.well_formed(),
            !self@.contains_key(key),
        ensures
            self.inserted(key, value).well_formed(),
            self.inserted(key, value)@ == self@.insert(key, value),
        decreases self,
    {
        let smaller = bindings(self.spec_left());
        let larger = bindings(self.spec_right());
        if key < self.spec_key() {
            if let Some(child) = self.spec_left() {
                child.lemma_inserted(key, value);
            } else {
                Node::lemma_leaf(key, value);
            }
            let child = grown(self.spec_left(), key, value);
            assert(child.well_formed());
            assert(child@ == smaller.insert(key, value));
            assert(!larger.contains_key(key));
            assert(self.inserted(key, value)@ =~= self@.insert(key, value));
            assert forall|k: i32| child@.contains_key(k) implies k < self.spec_key() by {
                assert(k == key || smaller.contains_key(k));
            }
        } else {
            if let Some(child) = self.spec_right() {
                child.lemma_inserted(key, value);
            } else {
                Node::lemma_leaf(key, value);
            }
            let child = grown(self.spec_right(), key, value);
            assert(child.well_formed());
            assert(child@ == larger.insert(key, value));
            assert(!smaller.contains_key(key));
            assert(self.inserted(key, value)@ =~= self@.insert(key, value));
            assert forall|k: i32| child@.contains_key(k) implies k > self.spec_key() by {
                assert(k == key || larger.contains_key(k));
            }
        }
    }

    /// The in-order traversal of an ordered tree lists the tree's bindings,
    /// each once, by strictly ascending key.
    pub proof fn lemma_in_order(self)
        requires
            self.well_formed(),
        ensures
            ascending(self.in_order()),
            forall|i: int|
                0 <= i < self.in_order().len() ==> self@.contains_pair(
                    (#[trigger] self.in_order()[i]).0,
                    self.in_order()[i].1,
                ),
            forall|k: i32|
                self@.contains_key(k) ==> exists|i: int|
                    0 <= i < self.in_order().len() && #[trigger] self.in_order()[i] == (k, self@[k]),
        decreases self,
    {
        let smaller = bindings(self.spec_left());
        let larger = bindings(self.spec_right());
        let before = traversal(self.spec_left());
        let after = traversal(self.spec_right());
        let here = (self.spec_key(), self.spec_value());
        let all = self.in_order();
        let n = before.len() as int;
        if let Some(child) = self.spec_left() {
            child.lemma_in_order();
        }
        if let Some(child) = self.spec_right() {
            child.lemma_in_order();
        }
        assert(all == before.push(here) + after);
        assert forall|i: int| 0 <= i < all.len() implies self@.contains_pair(
            (#[trigger] all[i]).0,
            all[i].1,
        ) && (i < n ==> all[i] == before[i] && all[i].0 < here.0) && (i == n ==> all[i] == here) && (i
            > n ==> all[i] == after[i - n - 1] && all[i].0 > here.0) by {
            if i < n {
                assert(smaller.contains_pair(before[i].0, before[i].1));
                assert(!larger.contains_key(before[i].0));
            } else if i > n {
                assert(larger.contains_pair(after[i - n - 1].0, after[i - n - 1].1));
            }
        }
        assert forall|k: i32| self@.contains_key(k) implies exists|i: int|
            0 <= i < all.len() && #[trigger] all[i] == (k, self@[k]) by {
            if k == here.0 {
                assert(all[n] == (k, self@[k]));
            } else if larger.contains_key(k) {
                let i = choose|i: int| 0 <= i < after.len() && #[trigger] after[i] == (k, larger[k]);
                assert(all[n + 1 + i] == (k, self@[k]));
            } else {
                assert(smaller.contains_key(k));
                let i = choose|i: int| 0 <= i < before.len() && #[trigger] before[i] == (k, smaller[k]);
                assert(all[i] == (k, self@[k]));
            }
        }
    }

    /// In an ordered tree the leftmost node holds the smallest key, with the
    /// value that the tree binds to it, and has no left child.
    pub proof fn lemma_leftmost(self)
        requires
            self.well_formed(),
        ensures
            self@.contains_key(self.leftmost().spec_key()),
            self@[self.leftmost().spec_key()] == self.leftmost().spec_value(),
            forall|k: i32| self@.contains_key(k) ==> self.leftmost().spec_key() <= k,
            self.leftmost().spec_left() is None,
            self.leftmost().well_formed(),
        decreases self,
    {
        if let Some(child) = self.spec_left() {
            child.lemma_leftmost();
            let least = child.leftmost().spec_key();
            assert(bindings(self.spec_left()).contains_key(least));
            assert(!bindings(self.spec_right()).contains_key(least));
            assert forall|k: i32| self@.contains_key(k) implies least <= k by {
                assert(k == self.spec_key() || bindings(self.spec_left()).contains_key(k) || bindings(
                    self.spec_right(),
                ).contains_key(k));
            }
        } else {
            assert forall|k: i32| self@.contains_key(k) implies self.spec_key() <= k by {
                assert(k == self.spec_key() || bindings(self.spec_right()).contains_key(k));
            }
        }
    }

    /// Deleting the root's own binding from an ordered tree leaves an ordered
    /// tree with that one binding less.
    pub proof fn lemma_without_root(self)
        requires
            self.well_formed(),
        ensures
            ordered(self.without_root()),
            bindings(self.without_root()) == self@.remove(self.spec_key()),
        decreases self, 0int,
    {
        let smaller = bindings(self.spec_left());
        let larger = bindings(self.spec_right());
        assert(!smaller.contains_key(self.spec_key()));
        assert(!larger.contains_key(self.spec_key()));
        match (self.spec_left(), self.spec_right()) {
            (Some(left), Some(right)) => {
                right.lemma_leftmost();
                let next = right.leftmost();
                let rest = if next.spec_key() == right.spec_key() {
                    right.spec_right()
                } else {
                    Some(right.removed(next.spec_key()))
                };
                assert(right.well_formed());
                match right.spec_left() {
                    Some(child) => {
                        assert(child.well_formed());
                        child.lemma_leftmost();
                        assert(next == child.leftmost());
                        assert(bindings(right.spec_left()).contains_key(next.spec_key()));
                        right.lemma_removed(next.spec_key());
                    },
                    None => {
                        assert(!bindings(right.spec_right()).contains_key(right.spec_key()));
                        assert(bindings(rest) =~= larger.remove(next.spec_key()));
                    },
                }
                let top = Node::assemble(next.spec_key(), next.spec_value(), Some(left), rest);
                assert forall|k: i32| bindings(rest).contains_key(k) implies k > next.spec_key() by {
                    assert(larger.contains_key(k));
                }
                assert forall|k: i32| smaller.contains_key(k) implies k < next.spec_key() by {
                    assert(k < self.spec_key());
                    assert(larger.contains_key(next.spec_key()));
                }
                assert(top.well_formed());
                assert(top@ =~= self@.remove(self.spec_key()));
            },
            _ => {
                assert(bindings(self.without_root()) =~= self@.remove(self.spec_key()));
            },
        }
    }

    /// Deleting a key that an ordered tree binds below its root leaves an
    /// ordered tree with that one binding less.
    pub proof fn lemma_removed(self, key: i32)
        requires
            self.well_formed(),
            self@.contains_key(key),
            key != self.spec_key(),
        ensures
            self.removed(key).well_formed(),
            self.removed(key)@ == self@.remove(key),
        decreases self, 1int,
    {
        let smaller = bindings(self.spec_left());
        let larger = bindings(self.spec_right());
        if key < self.spec_key() {
            assert(!larger.contains_key(key));
            let child = self.spec_left().unwrap();
            let rest = spliced(self.spec_left(), key);
            if child.spec_key() == key {
                child.lemma_without_root();
            } else {
                child.lemma_removed(key);
            }
            assert(bindings(rest) == smaller.remove(key));
            assert forall|k: i32| bindings(rest).contains_key(k) implies k < self.spec_key() by {
                assert(smaller.contains_key(k));
            }
            assert(self.removed(key)@ =~= self@.remove(key));
        } else {
            assert(!smaller.contains_key(key));
            let child = self.spec_right().unwrap();
            let rest = spliced(self.spec_right(), key);
            if child.spec_key() == key {
                child.lemma_without_root();
            } else {
                child.lemma_removed(key);
            }
            assert(bindings(rest) == larger.remove(key));
            assert forall|k: i32| bindings(rest).contains_key(k) implies k > self.spec_key() by {
                assert(larger.contains_key(k));
            }
            assert(self.removed(key)@ =~= self@.remove(key));
        }
    }
}

// The operations.

/// `Rc::clone`: a second handle to the node that `node` points to. The
/// contract claims that both handles give the same node.
#[verifier::external_body]
fn share(node: &Rc<Node>) -> (shared: Rc<Node>)
    ensures
        shared == *node,
{
    Rc::clone(node)
}

/// A second handle to the subtree in a child slot; the subtree is not copied.
fn share_link(link: &Option<Rc<Node>>) -> (shared: Option<Rc<Node>>)
    ensures
        shared == *link,
{
    match link {
        Some(node) => Some(share(node)),
        None => None,
    }
}

/// Puts an optional tree behind a handle that can be shared.
fn into_link(tree: Option<Node>) -> (link: Option<Rc<Node>>)
    ensures
        unshared(link) == tree,
{
    match tree {
        Some(node) => Some(Rc::new(node)),
        None => None,
    }
}

/// Computes what takes the place of `node` when its own binding is deleted.
/// A leaf leaves nothing; a node with one child leaves that child, shared and
/// not copied; a node with two children leaves a new node that carries the
/// binding of its in-order successor.
pub fn remove_child(node: &Rc<Node>) -> (res: Option<Rc<Node>>)
    ensures
        unshared(res) == node.without_root(),
        ordered(unshared(res)),
        bindings(unshared(res)) == node@.remove(node.spec_key()),
    decreases *node, 1int,
{
    proof {
        use_type_invariant(&**node);
        let here: &Node = &**node;
        here.lemma_without_root();
    }
    match (&node.left, &node.right) {
        (None, None) => None,
        (None, Some(child)) => Some(share(child)),
        (Some(child), None) => Some(share(child)),
        (Some(left), Some(right)) => Some(Rc::new(node.over_successor(left, right))),
    }
}

/// Deletes `key` from the tree that hangs at `child`, on behalf of whoever
/// holds `child`, and returns what is to hang there instead: the replacement
/// of `child` where `child` itself holds the key, else `child` rebuilt
/// without the key. A key that the tree does not bind is refused with
/// `NoKeyFound`.
pub fn splice(child: &Rc<Node>, key: i32) -> (res: Result<Option<Rc<Node>>, Errors>)
    ensures
        match res {
            Ok(link) => {
                &&& child.spec_remove(key) == Ok::<Option<Node>, Errors>(unshared(link))
                &&& ordered(unshared(link))
                &&& bindings(unshared(link)) == child@.remove(key)
            },
            Err(e) => child.spec_remove(key) == Err::<Option<Node>, Errors>(e),
        },
    decreases *child, 2int,
{
    proof {
        use_type_invariant(&**child);
    }
    if child.key == key {
        Ok(remove_child(child))
    } else {
        Ok(into_link(child.remove(key)?))
    }
}

impl Node {
    /// The value of a pair. It is taken by a call: a `char` that a call
    /// returns is known to be a valid one, a tuple's field is not.
    fn value_of(pair: Pair) -> (value: char)
        ensures
            value == pair.1,
    {
        pair.1
    }

    /// Builds the tree that holds the one binding `pair`.
    pub fn new(pair: Pair) -> (node: Node)
        ensures
            node == Node::leaf(pair.0, pair.1),
            node.spec_key() == pair.0,
            node.spec_value() == pair.1,
            node.spec_left() is None,
            node.spec_right() is None,
            node@ == Map::<i32, char>::empty().insert(pair.0, pair.1),
            node.well_formed(),
    {
        proof {
            Node::lemma_leaf(pair.0, pair.1);
        }
        Node { left: None, right: None, key: pair.0, value: Self::value_of(pair) }
    }

    /// Builds the node of `pair` over two subtrees whose keys lie on the
    /// proper sides of the pair's key.
    fn new_with_children(pair: Pair, left: Option<Rc<Node>>, right: Option<Rc<Node>>) -> (node: Node)
        requires
            Node::assemble(pair.0, pair.1, unshared(left), unshared(right)).well_formed(),
        ensures
            node == Node::assemble(pair.0, pair.1, unshared(left), unshared(right)),
    {
        Node { left, right, key: pair.0, value: Self::value_of(pair) }
    }

    /// Adds the binding `pair` and returns the new version of the tree; this
    /// version stays as it is. A key that the tree already binds is refused
    /// with `DuplicateKey`.
    ///
    /// The new binding becomes a leaf where the search for its key ends. The
    /// nodes on the way there are built anew; the subtrees off the way are
    /// shared with this version.
    pub fn add(&self, pair: Pair) -> (res: Result<Node, Errors>)
        ensures
            res == self.spec_add(pair.0, pair.1),
            res matches Ok(tree) ==> {
                &&& tree.well_formed()
                &&& tree@ == self@.insert(pair.0, pair.1)
                &&& tree.spec_key() == self.spec_key()
                &&& tree.spec_value() == self.spec_value()
            },
        decreases self,
    {
        let key: i32 = pair.0;
        proof {
            use_type_invariant(self);
            self.lemma_search_step(key);
            if !self@.contains_key(key) {
                self.lemma_inserted(key, pair.1);
            }
        }
        if key > self.key {
            if let Some(ref node) = self.right {
                Ok(
                    Node::new_with_children(
                        (self.key, self.value),
                        share_link(&self.left),
                        Some(Rc::new(node.add(pair)?)),
                    ),
                )
            } else {
                Ok(
                    Node::new_with_children(
                        (self.key, self.value),
                        share_link(&self.left),
                        Some(Rc::new(Node::new(pair))),
                    ),
                )
            }
        } else if key < self.key {
            if let Some(ref node) = self.left {
                Ok(
                    Node::new_with_children(
                        (self.key, self.value),
                        Some(Rc::new(node.add(pair)?)),
                        share_link(&self.right),
                    ),
                )
            } else {
                Ok(
                    Node::new_with_children(
                        (self.key, self.value),
                        Some(Rc::new(Node::new(pair))),
                        share_link(&self.right),
                    ),
                )
            }
        } else {
            Err(Errors::DuplicateKey)
        }
    }

    /// Finds the node of the smallest key in this tree.
    pub fn get_smallest_child(&self) -> (node: &Node)
        ensures
            *node == self.leftmost(),
            self@.contains_key(node.spec_key()),
            self@[node.spec_key()] == node.spec_value(),
            forall|k: i32| self@.contains_key(k) ==> node.spec_key() <= k,
        decreases self,
    {
        proof {
            use_type_invariant(self);
            self.lemma_leftmost();
        }
        if let Some(ref node) = self.left {
            node.get_smallest_child()
        } else {
            self
        }
    }

    /// Looks `key` up: the value bound to it, or `NoKeyFound` where the tree
    /// does not bind it.
    pub fn get(&self, key: i32) -> (res: Result<char, Errors>)
        ensures
            res == self.spec_get(key),
        decreases self,
    {
        proof {
            use_type_invariant(self);
            self.lemma_search_step(key);
        }
        if key > self.key {
            if let Some(ref node) = self.right {
                node.get(key)
            } else {
                Err(Errors::NoKeyFound)
            }
        } else if key < self.key {
            if let Some(ref node) = self.left {
                node.get(key)
            } else {
                Err(Errors::NoKeyFound)
            }
        } else {
            Ok(self.value)
        }
    }

    /// A node with the parts of this one. The subtrees are shared, not
    /// copied.
    fn copy_root(&self) -> (node: Node)
        ensures
            node == *self,
    {
        proof {
            use_type_invariant(self);
        }
        Node {
            left: share_link(&self.left),
            right: share_link(&self.right),
            key: self.key,
            value: self.value,
        }
    }

    /// Builds what takes the place of this node, whose two subtrees are
    /// `left` and `right`, when its own binding is deleted: a node that
    /// carries the binding of the in-order successor, the smallest key of
    /// `right`, over `left` as it is and over `right` with the successor
    /// spliced out.
    fn over_successor(&self, left: &Rc<Node>, right: &Rc<Node>) -> (node: Node)
        requires
            self.spec_left() == Some(**left),
            self.spec_right() == Some(**right),
        ensures
            Some(node) == self.without_root(),
        decreases self, 0int,
    {
        proof {
            use_type_invariant(self);
            self.lemma_without_root();
        }
        let next = right.get_smallest_child();
        let key: i32 = next.key;
        let value = next.value;
        let rest = if key != right.key {
            Some(Rc::new(right.remove(key).unwrap().unwrap()))
        } else {
            share_link(&right.right)
        };
        Node { key, value, left: Some(share(left)), right: rest }
    }

    /// Deletes the binding of `key` and returns the new version of the tree,
    /// which is empty where the key was the only one; this version stays as
    /// it is. A key that the tree does not bind is refused with `NoKeyFound`.
    ///
    /// Below the root the deletion is directed by the parent: each node on
    /// the way to the key is rebuilt over what `splice` returns for its child
    /// on that side, and shares its other subtree with this version. Where
    /// the root itself holds the key, the root is replaced as any other node
    /// is; an only child that takes its place is a new node over the child's
    /// own subtrees.
    pub fn remove(&self, key: i32) -> (res: Result<Option<Node>, Errors>)
        ensures
            res == self.spec_remove(key),
            res matches Ok(tree) ==> ordered(tree) && bindings(tree) == self@.remove(key),
            res matches Ok(Some(tree)) ==> key != self.spec_key() ==> {
                &&& tree.spec_key() == self.spec_key()
                &&& tree.spec_value() == self.spec_value()
            },
        decreases self, 1int,
    {
        proof {
            use_type_invariant(self);
            self.lemma_search_step(key);
            if self@.contains_key(key) {
                if key == self.key {
                    self.lemma_without_root();
                } else {
                    self.lemma_removed(key);
                }
            }
        }
        if key > self.key {
            if let Some(ref node) = self.right {
                let new_right = splice(node, key)?;
                Ok(
                    Some(
                        Node {
                            key: self.key,
                            value: self.value,
                            left: share_link(&self.left),
                            right: new_right,
                        },
                    ),
                )
            } else {
                Err(Errors::NoKeyFound)
            }
        } else if key < self.key {
            if let Some(ref node) = self.left {
                let new_left = splice(node, key)?;
                Ok(
                    Some(
                        Node {
                            key: self.key,
                            value: self.value,
                            right: share_link(&self.right),
                            left: new_left,
                        },
                    ),
                )
            } else {
                Err(Errors::NoKeyFound)
            }
        } else {
            Ok(
                match (&self.left, &self.right) {
                    (None, None) => None,
                    (None, Some(child)) => Some(child.copy_root()),
                    (Some(child), None) => Some(child.copy_root()),
                    (Some(left), Some(right)) => Some(self.over_successor(left, right)),
                },
            )
        }
    }

    /// The key at this node.
    pub fn key(&self) -> (key: i32)
        ensures
            key == self.spec_key(),
    {
        self.key
    }

    /// The value at this node.
    pub fn value(&self) -> (value: char)
        ensures
            value == self.spec_value(),
    {
        self.value
    }

    /// The left subtree, if there is one, by the handle that this node holds
    /// it with.
    pub fn left(&self) -> (child: Option<&Rc<Node>>)
        ensures
            match child {
                Some(node) => self.spec_left() == Some(**node),
                None => self.spec_left() is None,
            },
    {
        match &self.left {
            Some(node) => Some(node),
            None => None,
        }
    }

    /// The right subtree, if there is one, by the handle that this node holds
    /// it with.
    pub fn right(&self) -> (child: Option<&Rc<Node>>)
        ensures
            match child {
                Some(node) => self.spec_right() == Some(**node),
                None => self.spec_right() is None,
            },
    {
        match &self.right {
            Some(node) => Some(node),
            None => None,
        }
    }
}

} // verus!
