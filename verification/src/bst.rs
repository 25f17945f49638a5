//! A binary search tree keyed by weight.
//!
//! Every node carries one item. Items lighter than a node's own go to its
//! left, the others to its right, so that an in-order walk visits the items
//! from lightest to heaviest. The tree is not rebalanced: inserting items in
//! sorted order gives a tree as deep as it is long, and every operation
//! here then takes as many steps as there are items.

use vstd::prelude::*;
use crate::error::SamplingError;
use crate::weighted::Weighted;

pub use crate::distribution::cfd;

verus! {

/// A node of the tree, with the subtrees below it.
#[derive(Debug)]
pub struct Node<T> {
    pub value: T,
    pub left: Option<Box<Node<T>>>,
    pub right: Option<Box<Node<T>>>,
}

/// A tree that may be empty.
#[derive(Debug)]
pub struct BinarySearchTree<T> {
    pub root: Option<Box<Node<T>>>,
}

impl<T> Node<T> {
    /// The node that holds `value` and has no children.
    pub open spec fn leaf(value: T) -> Node<T> {
        Node { value, left: None, right: None }
    }

    /// The items below a link, in order; none where the link is empty.
    pub open spec fn below(link: Option<Box<Node<T>>>) -> Seq<T>
        decreases link,
    {
        match link {
            None => Seq::empty(),
            Some(node) => node.in_order(),
        }
    }

    /// The items of the tree in in-order: left subtree, node, right subtree.
    pub open spec fn in_order(self) -> Seq<T>
        decreases self,
    {
        Self::below(self.left).push(self.value) + Self::below(self.right)
    }

    /// Whether the node has neither a left nor a right child.
    pub open spec fn is_leaf(self) -> bool {
        self.left is None && self.right is None
    }
}

impl<T> View for Node<T> {
    type V = Seq<T>;

    open spec fn view(&self) -> Seq<T> {
        self.in_order()
    }
}

impl<T: Weighted> Node<T> {
    /// The key that orders this node: the weight of its item.
    pub open spec fn key(self) -> u64 {
        self.value.weight_spec()
    }

    /// The search-tree order: everything to the left of a node is lighter
    /// than the node, nothing to its right is, and the same holds below.
    pub open spec fn ordered(self) -> bool
        decreases self,
    {
        &&& forall|i: int|
            0 <= i < Self::below(self.left).len() ==> (#[trigger] Self::below(self.left)[i]).weight_spec()
                < self.key()
        &&& forall|i: int|
            0 <= i < Self::below(self.right).len() ==> (#[trigger] Self::below(self.right)[i]).weight_spec()
                >= self.key()
        &&& match self.left {
            Some(left) => left.ordered(),
            None => true,
        }
        &&& match self.right {
            Some(right) => right.ordered(),
            None => true,
        }
    }

    /// The tree with `node` hung below it: the walk goes left where `node`
    /// is lighter than the node it meets, right otherwise, and ends at the
    /// first empty place.
    pub open spec fn attach(self, node: Node<T>) -> Node<T>
        decreases self,
    {
        if node.key() < self.key() {
            Node {
                value: self.value,
                left: Some(
                    Box::new(
                        match self.left {
                            Some(left) => left.attach(node),
                            None => node,
                        },
                    ),
                ),
                right: self.right,
            }
        } else {
            Node {
                value: self.value,
                left: self.left,
                right: Some(
                    Box::new(
                        match self.right {
                            Some(right) => right.attach(node),
                            None => node,
                        },
                    ),
                ),
            }
        }
    }

    /// The tree grown from `values`: the first is the root, the others are
    /// attached in order. Meaningful for a non-empty sequence.
    pub open spec fn grow(values: Seq<T>) -> Node<T>
        decreases values.len(),
    {
        if values.len() <= 1 {
            Self::leaf(values[0])
        } else {
            Self::grow(values.drop_last()).attach(Self::leaf(values.last()))
        }
    }

    /// Where the search for `value` ends: at a node whose key is `value`,
    /// at a leaf, or at a node that has no child on the side where `value`
    /// would be. A node whose key equals `value` is the answer itself; the
    /// search never passes it for something below.
    pub open spec fn find(self, value: u64) -> Node<T>
        decreases self,
    {
        if self.is_leaf() || self.key() == value {
            self
        } else if value > self.key() {
            match self.right {
                Some(right) => right.find(value),
                None => self,
            }
        } else {
            match self.left {
                Some(left) => left.find(value),
                None => self,
            }
        }
    }

    /// Whether some item of the tree has the key `value`.
    pub open spec fn has_key(self, value: u64) -> bool {
        exists|i: int| 0 <= i < self@.len() && (#[trigger] self@[i]).weight_spec() == value
    }

    /// The tree without the node at which the search for `weight` finds that
    /// key; the tree itself where the search finds none. The subtrees of the
    /// node that leaves stay: where it has one child, the child takes its
    /// place; where it has two, the right one does, with the left one hung
    /// below it.
    pub open spec fn without(self, weight: u64) -> Option<Box<Node<T>>>
        decreases self,
    {
        if weight < self.key() {
            Some(
                Box::new(
                    Node {
                        value: self.value,
                        left: match self.left {
                            Some(left) => left.without(weight),
                            None => None,
                        },
                        right: self.right,
                    },
                ),
            )
        } else if weight > self.key() {
            Some(
                Box::new(
                    Node {
                        value: self.value,
                        left: self.left,
                        right: match self.right {
                            Some(right) => right.without(weight),
                            None => None,
                        },
                    },
                ),
            )
        } else {
            match (self.left, self.right) {
                (None, right) => right,
                (Some(left), None) => Some(left),
                (Some(left), Some(right)) => Some(Box::new(right.attach(*left))),
            }
        }
    }
}

impl<T> Node<T> {
    /// A node that holds `value` and has no children.
    pub fn new(value: T) -> (node: Self)
        ensures
            node == Self::leaf(value),
    {
        Self { value, left: None, right: None }
    }

    /// The root of the right subtree, if there is one.
    pub fn right(&self) -> (child: Option<&Node<T>>)
        ensures
            match child {
                Some(node) => self.right == Some(Box::new(*node)),
                None => self.right is None,
            },
    {
        match &self.right {
            Some(right) => Some(&**right),
            None => None,
        }
    }

    /// The root of the left subtree, if there is one.
    pub fn left(&self) -> (child: Option<&Node<T>>)
        ensures
            match child {
                Some(node) => self.left == Some(Box::new(*node)),
                None => self.left is None,
            },
    {
        match &self.left {
            Some(left) => Some(&**left),
            None => None,
        }
    }

    /// Whether a walk has to stop here: true exactly when the node has
    /// neither a left nor a right child.
    pub fn has_children(&self) -> (stop: bool)
        ensures
            stop == self.is_leaf(),
    {
        self.left.is_none() && self.right.is_none()
    }

    /// The item at this node.
    pub fn get_ref(&self) -> (value: &T)
        ensures
            *value == self.value,
    {
        &self.value
    }

    /// The item at this node, for changing in place. The children stay as
    /// they are; whether the tree is still ordered afterwards is up to the
    /// caller.
    pub fn get_ref_mut(&mut self) -> (value: &mut T)
        ensures
            *value == old(self).value,
            final(self).value == *final(value),
            final(self).left == old(self).left,
            final(self).right == old(self).right,
    {
        &mut self.value
    }

    fn collect<'a>(&'a self, items: &mut Vec<&'a T>)
        ensures
            final(items)@.len() == old(items)@.len() + self@.len(),
            forall|j: int| 0 <= j < old(items)@.len() ==> final(items)@[j] == old(items)@[j],
            forall|j: int|
                old(items)@.len() <= j < final(items)@.len() ==> *(#[trigger] final(items)@[j]) == self@[j - old(
                    items,
                )@.len()],
        decreases self,
    {
        let ghost start = items@.len();
        let ghost lower = Self::below(self.left);
        if let Some(left) = &self.left {
            left.collect(items);
        }
        items.push(&self.value);
        let ghost middle = items@;
        if let Some(right) = &self.right {
            right.collect(items);
        }
        proof {
            assert forall|j: int| start <= j < items@.len() implies *(#[trigger] items@[j]) == self@[j - start] by {
                if j < start + lower.len() + 1 {
                    assert(items@[j] == middle[j]);
                }
            }
        }
    }

    /// The items of the tree in in-order, by reference.
    pub fn inorder(&self) -> (items: Vec<&T>)
        ensures
            items@.len() == self@.len(),
            forall|i: int| 0 <= i < items@.len() ==> *(#[trigger] items@[i]) == self@[i],
    {
        let mut items: Vec<&T> = Vec::new();
        self.collect(&mut items);
        items
    }
}

impl<T: Clone> Node<T> {
    /// Appends a clone of every item below `node`, in in-order, to `values`.
    pub fn recursive_inorder(values: &mut Vec<T>, node: &Self)
        ensures
            final(values)@.len() == old(values)@.len() + node@.len(),
            forall|j: int| 0 <= j < old(values)@.len() ==> final(values)@[j] == old(values)@[j],
            forall|j: int|
                old(values)@.len() <= j < final(values)@.len() ==> cloned(
                    node@[j - old(values)@.len()],
                    #[trigger] final(values)@[j],
                ),
        decreases node,
    {
        let ghost start = values@.len();
        let ghost lower = Self::below(node.left);
        if let Some(left) = &node.left {
            Self::recursive_inorder(values, left);
        }
        values.push(node.value.clone());
        let ghost middle = values@;
        if let Some(right) = &node.right {
            Self::recursive_inorder(values, right);
        }
        proof {
            assert forall|j: int| start <= j < values@.len() implies cloned(
                node@[j - start],
                #[trigger] values@[j],
            ) by {
                if j < start + lower.len() + 1 {
                    assert(values@[j] == middle[j]);
                }
            }
        }
    }

    /// A clone of every item of the tree, in in-order.
    pub fn get_inorder(&self) -> (values: Vec<T>)
        ensures
            values@.len() == self@.len(),
            forall|i: int| 0 <= i < values@.len() ==> cloned(self@[i], #[trigger] values@[i]),
    {
        let mut values = vec![];
        Self::recursive_inorder(&mut values, self);
        values
    }
}

impl<T: Weighted> Node<T> {
    /// Hangs `node` below this one, at the place that its weight leads to.
    pub fn insert(&mut self, node: Self)
        ensures
            *final(self) == old(self).attach(node),
        decreases *old(self),
    {
        if node.value.weight() < self.value.weight() {
            match self.left.take() {
                Some(mut left) => {
                    left.insert(node);
                    self.left = Some(left);
                },
                None => {
                    self.left = Some(Box::new(node));
                },
            }
        } else {
            match self.right.take() {
                Some(mut right) => {
                    right.insert(node);
                    self.right = Some(right);
                },
                None => {
                    self.right = Some(Box::new(node));
                },
            }
        }
    }
}

/// Walks from `root` towards `value` and returns the node where the walk
/// ends: the node whose key is `value` if the walk meets one, and otherwise
/// the last node before the walk would leave the tree.
pub fn search_and_remove<T: Weighted>(root: &Node<T>, value: u64) -> (found: &Node<T>)
    ensures
        *found == root.find(value),
{
    let mut current = root;
    loop
        invariant
            current.find(value) == root.find(value),
        ensures
            *current == root.find(value),
        decreases *current,
    {
        let key = current.value.weight();
        if current.has_children() || key == value {
            break ;
        }
        if value > key {
            match &current.right {
                Some(right) => {
                    current = &**right;
                },
                None => {
                    break ;
                },
            }
        } else {
            match &current.left {
                Some(left) => {
                    current = &**left;
                },
                None => {
                    break ;
                },
            }
        }
    }
    current
}

/// The items of `values` in the opposite order.
fn reversed<T>(values: Vec<T>) -> (turned: Vec<T>)
    ensures
        turned@.len() == values@.len(),
        forall|i: int| 0 <= i < turned@.len() ==> turned@[i] == values@[values@.len() - 1 - i],
{
    let mut values = values;
    let ghost all = values@;
    let mut turned: Vec<T> = Vec::new();
    loop
        invariant
            values@.len() + turned@.len() == all.len(),
            forall|i: int| 0 <= i < values@.len() ==> values@[i] == all[i],
            forall|i: int| 0 <= i < turned@.len() ==> turned@[i] == all[all.len() - 1 - i],
        ensures
            turned@.len() == all.len(),
        decreases values@.len(),
    {
        match values.pop() {
            Some(value) => {
                turned.push(value);
            },
            None => {
                break ;
            },
        }
    }
    turned
}

impl<T: Weighted> TryFrom<Vec<T>> for Node<T> {
    type Error = SamplingError;

    /// Grows a tree from `value`: the first item becomes the root and the
    /// others are inserted in order. Fails with `EmptyInput` on an empty
    /// list.
    fn try_from(value: Vec<T>) -> (out: Result<Self, SamplingError>) {
        let ghost all = value@;
        let mut rest = reversed(value);
        let Some(first) = rest.pop() else {
            return Err(SamplingError::EmptyInput);
        };
        let mut root = Node::new(first);
        assert(all.take(1) =~= seq![all[0]]);
        loop
            invariant
                rest@.len() < all.len(),
                forall|i: int| 0 <= i < rest@.len() ==> rest@[i] == all[all.len() - 1 - i],
                root == Node::grow(all.take(all.len() - rest@.len())),
            ensures
                root == Node::grow(all),
            decreases rest@.len(),
        {
            let ghost done = all.take(all.len() - rest@.len());
            let ghost more = all.take(all.len() - rest@.len() + 1);
            match rest.pop() {
                Some(value) => {
                    assert(more.drop_last() =~= done);
                    assert(more.last() == value);
                    root.insert(Node::new(value));
                },
                None => {
                    assert(done =~= all);
                    break ;
                },
            }
        }
        Ok(root)
    }
}

impl<T: Weighted> vstd::std_specs::convert::TryFromSpecImpl<Vec<T>> for Node<T> {
    open spec fn obeys_try_from_spec() -> bool {
        true
    }

    open spec fn try_from_spec(v: Vec<T>) -> Result<Self, SamplingError> {
        if v@.len() == 0 {
            Err(SamplingError::EmptyInput)
        } else {
            Ok(Node::grow(v@))
        }
    }
}

impl<T: Default> Default for Node<T> {
    /// A leaf that holds the default item.
    fn default() -> (node: Self)
        ensures
            node.is_leaf(),
            call_ensures(T::default, (), node.value),
    {
        Self { value: T::default(), left: None, right: None }
    }
}

impl<T> Default for BinarySearchTree<T> {
    /// The empty tree.
    fn default() -> (tree: Self)
        ensures
            tree.root is None,
    {
        Self { root: None }
    }
}

impl<T> View for BinarySearchTree<T> {
    type V = Seq<T>;

    open spec fn view(&self) -> Seq<T> {
        Node::below(self.root)
    }
}

impl<T: Weighted> BinarySearchTree<T> {
    /// Puts `value` into the tree, at the place that its weight leads to.
    pub fn insert(&mut self, value: T)
        ensures
            final(self).root == Some(
                Box::new(
                    match old(self).root {
                        Some(root) => root.attach(Node::leaf(value)),
                        None => Node::leaf(value),
                    },
                ),
            ),
    {
        match self.root.take() {
            Some(mut root) => {
                root.insert(Node::new(value));
                self.root = Some(root);
            },
            None => {
                self.root = Some(Box::new(Node::new(value)));
            },
        }
    }

    /// The root node, if the tree has one.
    pub fn root(&self) -> (node: Option<&Node<T>>)
        ensures
            match node {
                Some(root) => self.root == Some(Box::new(*root)),
                None => self.root is None,
            },
    {
        match &self.root {
            Some(root) => Some(&**root),
            None => None,
        }
    }
}

/// Takes one node of key `weight` out of the tree below `this`: the one at
/// which the search for `weight` arrives. Everything else stays in the
/// tree. Where no node on the search path has that key, the tree comes back
/// as it was.
pub fn delete<T: Weighted>(this: Box<Node<T>>, weight: u64) -> (rest: Option<Box<Node<T>>>)
    ensures
        rest == this.without(weight),
    decreases this,
{
    let mut this = this;
    let key = this.value.weight();
    if weight < key {
        if let Some(left) = this.left.take() {
            this.left = delete(left, weight);
        }
        return Some(this);
    }
    if weight > key {
        if let Some(right) = this.right.take() {
            this.right = delete(right, weight);
        }
        return Some(this);
    }
    let left = this.left.take();
    let right = this.right.take();
    match (left, right) {
        (None, right) => right,
        (Some(left), None) => Some(left),
        (Some(left), Some(right)) => {
            let mut right = right;
            right.insert(*left);
            Some(right)
        },
    }
}

/// Where the search for `weight` finds its key, the place of that node in
/// the in-order walk; `-1` where it finds none.
pub open spec fn place<T: Weighted>(tree: Node<T>, weight: u64) -> int
    decreases tree,
{
    if weight < tree.key() {
        match tree.left {
            Some(left) => place(*left, weight),
            None => -1,
        }
    } else if weight > tree.key() {
        match tree.right {
            Some(right) => if place(*right, weight) < 0 {
                -1
            } else {
                Node::below(tree.left).len() + 1 + place(*right, weight)
            },
            None => -1,
        }
    } else {
        Node::below(tree.left).len() as int
    }
}

} // verus!
