//! What holds of the binary search tree: that inserting and deleting keep
//! its order and its items, that its in-order walk is sorted, and that a
//! search for a key that is there arrives at it.

use vstd::prelude::*;
use vstd::multiset::Multiset;
use crate::bst::{place, Node};
use crate::weighted::Weighted;

verus! {

proof fn lemma_empty_items<T>(items: Seq<T>)
    requires
        items.len() == 0,
    ensures
        items.to_multiset() == Multiset::<T>::empty(),
{
    broadcast use {vstd::seq_lib::to_multiset_len, vstd::multiset::group_multiset_axioms};

    assert(items.to_multiset().len() == 0);
    assert(items.to_multiset() =~= Multiset::<T>::empty());
}

/// Attaching adds and loses nothing: the items of the result are those of
/// the tree together with those of the attached node.
pub proof fn lemma_attach_items<T: Weighted>(tree: Node<T>, node: Node<T>)
    ensures
        tree.attach(node)@.to_multiset() == tree@.to_multiset().add(node@.to_multiset()),
    decreases tree,
{
    broadcast use {
        vstd::seq_lib::lemma_multiset_commutative,
        vstd::seq_lib::to_multiset_build,
        vstd::multiset::group_multiset_axioms,
    };

    let lower = Node::below(tree.left);
    let upper = Node::below(tree.right);
    if node.key() < tree.key() {
        let grown = match tree.left {
            Some(left) => left.attach(node),
            None => node,
        };
        match tree.left {
            Some(left) => {
                lemma_attach_items(*left, node);
            },
            None => {
                lemma_empty_items(lower);
            },
        }
        assert(tree.attach(node)@ == grown@.push(tree.value) + upper);
        assert(tree.attach(node)@.to_multiset() =~= tree@.to_multiset().add(node@.to_multiset()));
    } else {
        let grown = match tree.right {
            Some(right) => right.attach(node),
            None => node,
        };
        match tree.right {
            Some(right) => {
                lemma_attach_items(*right, node);
            },
            None => {
                lemma_empty_items(upper);
            },
        }
        assert(tree.attach(node)@ == lower.push(tree.value) + grown@);
        assert(tree.attach(node)@.to_multiset() =~= tree@.to_multiset().add(node@.to_multiset()));
    }
}

/// Every item of a tree after a single item was attached is that item or
/// was in the tree before.
pub proof fn lemma_attach_members<T: Weighted>(tree: Node<T>, value: T)
    ensures
        forall|i: int|
            0 <= i < tree.attach(Node::leaf(value))@.len() ==> {
                let item = #[trigger] tree.attach(Node::leaf(value))@[i];
                item == value || tree@.contains(item)
            },
{
    broadcast use {vstd::seq_lib::to_multiset_contains, vstd::multiset::group_multiset_axioms};

    let after = tree.attach(Node::leaf(value))@;
    lemma_attach_items(tree, Node::leaf(value));
    assert(Node::leaf(value)@ =~= seq![value]);
    assert forall|i: int| 0 <= i < after.len() implies (after[i] == value || tree@.contains(#[trigger] after[i])) by {
        let item = after[i];
        assert(after.contains(item));
        assert(after.to_multiset().count(item) > 0);
        if item != value {
            assert(seq![value].to_multiset().count(item) == 0) by {
                if seq![value].contains(item) {
                    let j = choose|j: int| 0 <= j < 1 && seq![value][j] == item;
                }
            }
            assert(tree@.to_multiset().count(item) > 0);
        }
    }
}

/// Inserting a single item keeps the search-tree order.
pub proof fn lemma_attach_ordered<T: Weighted>(tree: Node<T>, value: T)
    requires
        tree.ordered(),
    ensures
        tree.attach(Node::leaf(value)).ordered(),
    decreases tree,
{
    let node = Node::leaf(value);
    assert(node@ =~= seq![value]);
    assert(node.ordered());
    if node.key() < tree.key() {
        match tree.left {
            Some(left) => {
                lemma_attach_ordered(*left, value);
                lemma_attach_members(*left, value);
                let grown = left.attach(node)@;
                assert forall|i: int| 0 <= i < grown.len() implies (#[trigger] grown[i]).weight_spec()
                    < tree.key() by {
                    if grown[i] != value {
                        let j = choose|j: int| 0 <= j < left@.len() && left@[j] == grown[i];
                        assert(Node::below(tree.left)[j] == grown[i]);
                    }
                }
            },
            None => {},
        }
    } else {
        match tree.right {
            Some(right) => {
                lemma_attach_ordered(*right, value);
                lemma_attach_members(*right, value);
                let grown = right.attach(node)@;
                assert forall|i: int| 0 <= i < grown.len() implies (#[trigger] grown[i]).weight_spec()
                    >= tree.key() by {
                    if grown[i] != value {
                        let j = choose|j: int| 0 <= j < right@.len() && right@[j] == grown[i];
                        assert(Node::below(tree.right)[j] == grown[i]);
                    }
                }
            },
            None => {},
        }
    }
}

/// In an ordered tree the in-order walk meets the items from lightest to
/// heaviest.
pub proof fn lemma_ordered_sorted<T: Weighted>(tree: Node<T>)
    requires
        tree.ordered(),
    ensures
        forall|i: int, j: int|
            0 <= i <= j < tree@.len() ==> (#[trigger] tree@[i]).weight_spec() <= (#[trigger] tree@[j]).weight_spec(),
    decreases tree,
{
    let lower = Node::below(tree.left);
    let upper = Node::below(tree.right);
    match tree.left {
        Some(left) => {
            lemma_ordered_sorted(*left);
        },
        None => {},
    }
    match tree.right {
        Some(right) => {
            lemma_ordered_sorted(*right);
        },
        None => {},
    }
    assert forall|i: int, j: int| 0 <= i <= j < tree@.len() implies (#[trigger] tree@[i]).weight_spec() <= (
    #[trigger] tree@[j]).weight_spec() by {
        let n = lower.len() as int;
        if i < n {
            assert(tree@[i] == lower[i]);
        } else if i > n {
            assert(tree@[i] == upper[i - n - 1]);
        }
        if j < n {
            assert(tree@[j] == lower[j]);
        } else if j > n {
            assert(tree@[j] == upper[j - n - 1]);
        }
        if j < n {
            let left = tree.left->0;
            assert(left@[i].weight_spec() <= left@[j].weight_spec());
        } else if i > n {
            let right = tree.right->0;
            assert(right@[i - n - 1].weight_spec() <= right@[j - n - 1].weight_spec());
        }
    }
}

/// A tree grown from a list is ordered and holds exactly the items of the
/// list.
pub proof fn lemma_grow<T: Weighted>(values: Seq<T>)
    requires
        values.len() > 0,
    ensures
        Node::grow(values).ordered(),
        Node::grow(values)@.to_multiset() == values.to_multiset(),
        Node::grow(values)@.len() == values.len(),
    decreases values.len(),
{
    broadcast use {
        vstd::seq_lib::to_multiset_build,
        vstd::seq_lib::to_multiset_len,
        vstd::multiset::group_multiset_axioms,
    };

    lemma_empty_items(Seq::<T>::empty());
    if values.len() <= 1 {
        assert(Node::leaf(values[0])@ =~= Seq::empty().push(values[0]));
        assert(values =~= Seq::empty().push(values[0]));
    } else {
        let shorter = values.drop_last();
        let last = values.last();
        lemma_grow(shorter);
        lemma_attach_ordered(Node::grow(shorter), last);
        lemma_attach_items(Node::grow(shorter), Node::leaf(last));
        assert(Node::leaf(last)@ =~= Seq::empty().push(last));
        assert(values =~= shorter.push(last));
        assert(Node::grow(values)@.to_multiset() =~= values.to_multiset());
        assert(Node::grow(values)@.to_multiset().len() == values.to_multiset().len());
    }
}

/// Boundary resolution: in an ordered tree that holds an item of key
/// `value`, the search for `value` ends at a node with exactly that key. It
/// does not pass an equal key for something lighter or heavier.
pub proof fn lemma_find_hits<T: Weighted>(tree: Node<T>, value: u64)
    requires
        tree.ordered(),
        tree.has_key(value),
    ensures
        tree.find(value).key() == value,
    decreases tree,
{
    let lower = Node::below(tree.left);
    let upper = Node::below(tree.right);
    let n = lower.len() as int;
    let i = choose|i: int| 0 <= i < tree@.len() && (#[trigger] tree@[i]).weight_spec() == value;
    if tree.key() != value {
        if i < n {
            assert(tree@[i] == lower[i]);
        } else if i > n {
            assert(tree@[i] == upper[i - n - 1]);
        }
        if value > tree.key() {
            assert(i > n);
            let right = tree.right->0;
            assert(right@[i - n - 1].weight_spec() == value);
            lemma_find_hits(*right, value);
        } else {
            assert(i < n);
            let left = tree.left->0;
            assert(left@[i].weight_spec() == value);
            lemma_find_hits(*left, value);
        }
    }
}

/// A tree hung below another whose items are all heavier comes first in
/// the in-order walk, and the result is ordered.
proof fn lemma_attach_lighter<T: Weighted>(tree: Node<T>, node: Node<T>)
    requires
        tree.ordered(),
        node.ordered(),
        forall|i: int, j: int|
            0 <= i < node@.len() && 0 <= j < tree@.len() ==> (#[trigger] node@[i]).weight_spec() < (
            #[trigger] tree@[j]).weight_spec(),
    ensures
        tree.attach(node)@ == node@ + tree@,
        tree.attach(node).ordered(),
    decreases tree,
{
    let lower = Node::below(tree.left);
    let upper = Node::below(tree.right);
    let n = lower.len() as int;
    let m = Node::below(node.left).len() as int;
    assert(node@[m] == node.value);
    assert(tree@[n] == tree.value);
    assert(node.key() < tree.key());
    match tree.left {
        Some(left) => {
            assert forall|i: int, j: int| 0 <= i < node@.len() && 0 <= j < left@.len() implies (
            #[trigger] node@[i]).weight_spec() < (#[trigger] left@[j]).weight_spec() by {
                assert(tree@[j] == left@[j]);
            }
            lemma_attach_lighter(*left, node);
            let grown = left.attach(node)@;
            assert(grown == node@ + left@);
            assert(tree.attach(node)@ =~= node@ + tree@);
            assert forall|i: int| 0 <= i < grown.len() implies (#[trigger] grown[i]).weight_spec()
                < tree.key() by {
                if i < node@.len() {
                    assert(grown[i] == node@[i]);
                } else {
                    assert(grown[i] == lower[i - node@.len()]);
                }
            }
        },
        None => {
            assert(tree.attach(node)@ =~= node@ + tree@);
            assert forall|i: int| 0 <= i < node@.len() implies (#[trigger] node@[i]).weight_spec()
                < tree.key() by {}
        },
    }
}

/// How the in-order walk of a node is laid out: the left subtree, the
/// node's own item, the right subtree.
proof fn lemma_layout<T>(tree: Node<T>)
    ensures
        tree@.len() == Node::below(tree.left).len() + 1 + Node::below(tree.right).len(),
        tree@[Node::below(tree.left).len() as int] == tree.value,
        forall|j: int| 0 <= j < Node::below(tree.left).len() ==> #[trigger] tree@[j] == Node::below(tree.left)[j],
        forall|j: int|
            Node::below(tree.left).len() < j < tree@.len() ==> #[trigger] tree@[j] == Node::below(tree.right)[j
                - Node::below(tree.left).len() - 1],
{
}

/// In an ordered tree the search finds a key exactly when some item has
/// it, and then finds the first such item of the in-order walk.
pub proof fn lemma_place<T: Weighted>(tree: Node<T>, weight: u64)
    requires
        tree.ordered(),
    ensures
        place(tree, weight) >= 0 <==> tree.has_key(weight),
        place(tree, weight) >= 0 ==> {
            &&& place(tree, weight) < tree@.len()
            &&& tree@[place(tree, weight)].weight_spec() == weight
            &&& forall|j: int| 0 <= j < place(tree, weight) ==> (#[trigger] tree@[j]).weight_spec() != weight
        },
    decreases tree,
{
    let lower = Node::below(tree.left);
    let upper = Node::below(tree.right);
    let n = lower.len() as int;
    lemma_layout(tree);
    if weight < tree.key() {
        match tree.left {
            Some(left) => {
                lemma_place(*left, weight);
                if place(*left, weight) >= 0 {
                    assert(tree@[place(*left, weight)].weight_spec() == weight);
                }
            },
            None => {},
        }
        if tree.has_key(weight) {
            let i = choose|i: int| 0 <= i < tree@.len() && (#[trigger] tree@[i]).weight_spec() == weight;
            if i > n {
                assert(upper[i - n - 1].weight_spec() >= tree.key());
            }
            assert(lower[i].weight_spec() == weight);
        }
    } else if weight > tree.key() {
        match tree.right {
            Some(right) => {
                lemma_place(*right, weight);
                let q = place(*right, weight);
                if q >= 0 {
                    assert(tree@[n + 1 + q] == right@[q]);
                    assert forall|j: int| 0 <= j < n + 1 + q implies (#[trigger] tree@[j]).weight_spec()
                        != weight by {
                        if j < n {
                            assert(lower[j].weight_spec() < tree.key());
                        } else if j > n {
                            assert(right@[j - n - 1].weight_spec() != weight);
                        }
                    }
                }
            },
            None => {},
        }
        if tree.has_key(weight) {
            let i = choose|i: int| 0 <= i < tree@.len() && (#[trigger] tree@[i]).weight_spec() == weight;
            if i < n {
                assert(lower[i].weight_spec() < tree.key());
            }
            assert(upper[i - n - 1].weight_spec() == weight);
        }
    } else {
        assert forall|j: int| 0 <= j < n implies (#[trigger] tree@[j]).weight_spec() != weight by {
            assert(lower[j].weight_spec() < tree.key());
        }
    }
}

/// Deleting a key takes the found item, and nothing else, out of the
/// in-order walk. Where the search finds none, the tree is unchanged.
pub proof fn lemma_without_items<T: Weighted>(tree: Node<T>, weight: u64)
    requires
        tree.ordered(),
    ensures
        place(tree, weight) < 0 ==> tree.without(weight) == Some(Box::new(tree)),
        place(tree, weight) >= 0 ==> Node::below(tree.without(weight)) == tree@.remove(place(tree, weight)),
    decreases tree,
{
    let lower = Node::below(tree.left);
    let upper = Node::below(tree.right);
    let n = lower.len() as int;
    lemma_layout(tree);
    lemma_place(tree, weight);
    if weight < tree.key() {
        match tree.left {
            Some(left) => {
                lemma_without_items(*left, weight);
                lemma_place(*left, weight);
                if place(*left, weight) >= 0 {
                    assert(Node::below(tree.without(weight)) =~= tree@.remove(place(tree, weight)));
                }
            },
            None => {},
        }
    } else if weight > tree.key() {
        match tree.right {
            Some(right) => {
                lemma_without_items(*right, weight);
                lemma_place(*right, weight);
                if place(*right, weight) >= 0 {
                    assert(Node::below(tree.without(weight)) =~= tree@.remove(place(tree, weight)));
                }
            },
            None => {},
        }
    } else {
        match (tree.left, tree.right) {
            (None, _) => {
                assert(Node::below(tree.without(weight)) =~= tree@.remove(n));
            },
            (Some(left), None) => {
                assert(Node::below(tree.without(weight)) =~= tree@.remove(n));
            },
            (Some(left), Some(right)) => {
                assert forall|i: int, j: int| 0 <= i < left@.len() && 0 <= j < right@.len() implies (
                #[trigger] left@[i]).weight_spec() < (#[trigger] right@[j]).weight_spec() by {
                    assert(lower[i].weight_spec() < tree.key());
                    assert(upper[j].weight_spec() >= tree.key());
                }
                lemma_attach_lighter(*right, *left);
                assert(Node::below(tree.without(weight)) =~= tree@.remove(n));
            },
        }
    }
}

/// Deleting a key keeps the search-tree order.
pub proof fn lemma_without_ordered<T: Weighted>(tree: Node<T>, weight: u64)
    requires
        tree.ordered(),
    ensures
        match tree.without(weight) {
            Some(rest) => rest.ordered(),
            None => true,
        },
    decreases tree,
{
    let lower = Node::below(tree.left);
    let upper = Node::below(tree.right);
    if weight < tree.key() {
        match tree.left {
            Some(left) => {
                lemma_without_ordered(*left, weight);
                lemma_without_items(*left, weight);
                lemma_place(*left, weight);
                let rest = Node::below(left.without(weight));
                let q = place(*left, weight);
                assert forall|k: int| 0 <= k < rest.len() implies (#[trigger] rest[k]).weight_spec()
                    < tree.key() by {
                    if q >= 0 {
                        if k < q {
                            assert(rest[k] == lower[k]);
                        } else {
                            assert(rest[k] == lower[k + 1]);
                        }
                    }
                }
            },
            None => {},
        }
    } else if weight > tree.key() {
        match tree.right {
            Some(right) => {
                lemma_without_ordered(*right, weight);
                lemma_without_items(*right, weight);
                lemma_place(*right, weight);
                let rest = Node::below(right.without(weight));
                let q = place(*right, weight);
                assert forall|k: int| 0 <= k < rest.len() implies (#[trigger] rest[k]).weight_spec()
                    >= tree.key() by {
                    if q >= 0 {
                        if k < q {
                            assert(rest[k] == upper[k]);
                        } else {
                            assert(rest[k] == upper[k + 1]);
                        }
                    }
                }
            },
            None => {},
        }
    } else {
        match (tree.left, tree.right) {
            (Some(left), Some(right)) => {
                assert forall|i: int, j: int| 0 <= i < left@.len() && 0 <= j < right@.len() implies (
                #[trigger] left@[i]).weight_spec() < (#[trigger] right@[j]).weight_spec() by {
                    assert(lower[i].weight_spec() < tree.key());
                    assert(upper[j].weight_spec() >= tree.key());
                }
                lemma_attach_lighter(*right, *left);
            },
            _ => {},
        }
    }
}

} // verus!
