//! The binary search tree itself: nodes owned through `left`/`right` child
//! edges, a tree owning an optional root. Every public operation keeps the
//! ordering invariant, and node storage is reclaimed exactly once through
//! single ownership of each child edge.

use crate::total_order::{
    has_match, inserted_at, key_matches, sorted_le, strict_lt, LookupKey, TotalOrder,
};
use vstd::prelude::*;

verus! {

/// One node of the tree: a stored key and the two owned child subtrees.
/// A node with neither child is a leaf.
pub struct Node<T: TotalOrder> {
    item: T,
    left: Option<Box<Node<T>>>,
    right: Option<Box<Node<T>>>,
}

/// An ordered container of keys backed by an unbalanced binary search tree.
/// The tree owns its root node; each node owns its children. Duplicate keys
/// are kept, accumulating in right subtrees.
pub struct BinarySearchTree<T: TotalOrder> {
    root: Option<Box<Node<T>>>,
}

impl<T: TotalOrder> Node<T> {
    /// The keys of an optional subtree, in order.
    pub closed spec fn seq_of(node_opt: Option<Box<Node<T>>>) -> Seq<T>
        decreases node_opt,
    {
        match node_opt {
            None => Seq::empty(),
            Some(node) => node.seq(),
        }
    }

    /// The keys of this subtree, in order: left subtree, then this node's
    /// key, then right subtree.
    pub closed spec fn seq(self) -> Seq<T>
        decreases self,
    {
        Node::<T>::seq_of(self.left) + seq![self.item] + Node::<T>::seq_of(self.right)
    }

    /// The key stored in this node.
    pub closed spec fn spec_item(self) -> T {
        self.item
    }

    /// The ordering invariant: every key in the left subtree comes strictly
    /// before this node's key, every key in the right subtree no earlier than
    /// it, and both subtrees are themselves well formed.
    pub closed spec fn well_formed(self) -> bool
        decreases self,
    {
        &&& forall|i: int|
            0 <= i < Node::<T>::seq_of(self.left).len() ==> strict_lt(
                #[trigger] Node::<T>::seq_of(self.left)[i],
                self.item,
            )
        &&& forall|i: int|
            0 <= i < Node::<T>::seq_of(self.right).len() ==> self.item.le(
                #[trigger] Node::<T>::seq_of(self.right)[i],
            )
        &&& match self.left {
            Some(node) => node.well_formed(),
            None => true,
        }
        &&& match self.right {
            Some(node) => node.well_formed(),
            None => true,
        }
    }

    /// The key sequence of a well-formed subtree is sorted: everything in a
    /// left subtree comes strictly before its node's key, everything in a
    /// right subtree no earlier, and so on recursively.
    proof fn lemma_subtree_sorted(node_opt: Option<Box<Node<T>>>)
        requires
            node_opt.is_some() ==> node_opt.unwrap().well_formed(),
        ensures
            sorted_le(Node::<T>::seq_of(node_opt)),
        decreases node_opt,
    {
        match node_opt {
            None => {
            },
            Some(n) => {
                Self::lemma_subtree_sorted(n.left);
                Self::lemma_subtree_sorted(n.right);
                let l = Node::<T>::seq_of(n.left);
                let r = Node::<T>::seq_of(n.right);
                let s = n.seq();
                let m = n.item;
                assert forall|i: int, j: int|
                    #![trigger s[i], s[j]]
                    0 <= i < j < s.len() implies s[i].le(s[j]) by {
                    if i < l.len() {
                        assert(s[i] == l[i]);
                        T::lemma_le_total(m, l[i]);
                        if j < l.len() {
                            assert(s[j] == l[j]);
                        } else if j == l.len() {
                            assert(s[j] == m);
                        } else {
                            assert(s[j] == r[j - l.len() - 1]);
                            T::lemma_le_transitive(l[i], m, r[j - l.len() - 1]);
                        }
                    } else if i == l.len() {
                        assert(s[i] == m);
                        assert(s[j] == r[j - l.len() - 1]);
                    } else {
                        assert(s[i] == r[i - l.len() - 1]);
                        assert(s[j] == r[j - l.len() - 1]);
                    }
                }
            },
        }
    }

    /// A detached leaf node holding `item`.
    pub fn new(item: T) -> (node: Self)
        ensures
            node.spec_item() == item,
            node.seq() == seq![item],
            node.well_formed(),
    {
        let node = Node { item, left: None, right: None };
        proof {
            assert(node.seq() =~= seq![node.item]);
        }
        node
    }

    /// A reference to the key stored in this node.
    pub fn item(&self) -> (r: &T)
        ensures
            *r == self.spec_item(),
    {
        &self.item
    }

    /// Insert `item` into the optional subtree at `node`, descending left on
    /// strictly-less and right otherwise, and growing a new leaf at the
    /// absent child slot that the descent reaches.
    fn insert_into(node: &mut Option<Box<Node<T>>>, item: T)
        requires
            old(node).is_some() ==> old(node).unwrap().well_formed(),
        ensures
            final(node).is_some(),
            final(node).unwrap().well_formed(),
            exists|i: int|
                inserted_at(
                    Node::<T>::seq_of(*old(node)),
                    item,
                    i,
                    Node::<T>::seq_of(*final(node)),
                ),
        decreases *old(node),
    {
        match node.take() {
            None => {
                let ghost s0 = Node::<T>::seq_of(None::<Box<Node<T>>>);
                *node = Some(Box::new(Node::new(item)));
                proof {
                    assert(Node::<T>::seq_of(*node) =~= s0.insert(0, item));
                    assert(inserted_at(s0, item, 0, Node::<T>::seq_of(*node)));
                }
            },
            Some(mut boxed) => {
                let ghost b0 = boxed.seq();
                (&mut *boxed).insert_node(item);
                let ghost i1 = choose|i: int| inserted_at(b0, item, i, boxed.seq());
                let ghost b1 = boxed.seq();
                *node = Some(boxed);
                proof {
                    assert(Node::<T>::seq_of(*old(node)) == b0);
                    assert(Node::<T>::seq_of(*node) == b1);
                    assert(inserted_at(Node::<T>::seq_of(*old(node)), item, i1, b1));
                }
            },
        }
    }

    /// Look up `q` in the optional subtree at `node` by the classic descent:
    /// equal means found, strictly less descends left, otherwise right.
    fn search_in<'a, Q: LookupKey<T> + ?Sized>(node: &'a Option<Box<Node<T>>>, q: &Q) -> (r: Option<
        &'a T,
    >)
        requires
            node.is_some() ==> node.unwrap().well_formed(),
        ensures
            match r {
                Some(t) => key_matches(q, *t) && Node::<T>::seq_of(*node).contains(*t),
                None => !has_match(q, Node::<T>::seq_of(*node)),
            },
        decreases node,
    {
        match node {
            None => None,
            Some(n) => {
                let ghost s = n.seq();
                let ghost l = Node::<T>::seq_of(n.left);
                let ghost r0 = Node::<T>::seq_of(n.right);
                let ghost m = n.item;
                let below = q.cmp_le(&n.item);
                let above = q.cmp_ge(&n.item);
                if below && above {
                    proof {
                        assert(s[l.len() as int] == m);
                    }
                    Some(&n.item)
                } else if below {
                    // `q` comes strictly before this node's key, so neither
                    // this key nor anything in the right subtree matches.
                    let res = Self::search_in(&n.left, q);
                    proof {
                        match res {
                            Some(t) => {
                                let j = choose|j: int| 0 <= j < l.len() && l[j] == *t;
                                assert(s[j] == *t);
                            },
                            None => {
                                assert forall|j: int|
                                    0 <= j < s.len() implies !#[trigger] key_matches(
                                    q,
                                    s[j],
                                ) by {
                                    if j < l.len() {
                                        assert(s[j] == l[j]);
                                        assert(!key_matches(q, l[j]));
                                    } else if j > l.len() {
                                        let k = j - l.len() - 1;
                                        assert(s[j] == r0[k]);
                                        if q.key_ge(r0[k]) {
                                            Q::lemma_key_ge_extends(q, m, r0[k]);
                                        }
                                    }
                                }
                            },
                        }
                    }
                    res
                } else {
                    // `q` comes strictly after this node's key, so neither
                    // this key nor anything in the left subtree matches.
                    proof {
                        Q::lemma_key_total(q, m);
                    }
                    let res = Self::search_in(&n.right, q);
                    proof {
                        match res {
                            Some(t) => {
                                let j = choose|j: int| 0 <= j < r0.len() && r0[j] == *t;
                                assert(s[l.len() + 1 + j] == *t);
                            },
                            None => {
                                assert forall|j: int|
                                    0 <= j < s.len() implies !#[trigger] key_matches(
                                    q,
                                    s[j],
                                ) by {
                                    if j < l.len() {
                                        assert(s[j] == l[j]);
                                        if q.key_le(l[j]) {
                                            Q::lemma_key_between(q, m, l[j]);
                                        }
                                    } else if j > l.len() {
                                        let k = j - l.len() - 1;
                                        assert(s[j] == r0[k]);
                                        assert(!key_matches(q, r0[k]));
                                    }
                                }
                            },
                        }
                    }
                    res
                }
            },
        }
    }

    /// Detach the leftmost node of the subtree at `node` — the holder of its
    /// smallest key — and return that key. The detached node's right subtree,
    /// if any, is relinked into its place; the node itself is freed here,
    /// its storage reclaimed by ownership of the child edge.
    fn pop_leftmost(node: &mut Option<Box<Node<T>>>) -> (popped: T)
        requires
            old(node).is_some(),
            old(node).unwrap().well_formed(),
        ensures
            final(node).is_some() ==> final(node).unwrap().well_formed(),
            Node::<T>::seq_of(*old(node)).len() > 0,
            popped == Node::<T>::seq_of(*old(node))[0],
            Node::<T>::seq_of(*final(node)) == Node::<T>::seq_of(*old(node)).drop_first(),
            forall|j: int|
                0 <= j < Node::<T>::seq_of(*old(node)).len() ==> popped.le(
                    #[trigger] Node::<T>::seq_of(*old(node))[j],
                ),
        decreases *old(node),
    {
        let mut boxed = node.take().unwrap();
        let ghost s0 = boxed.seq();
        let ghost l0 = Node::<T>::seq_of(boxed.left);
        let ghost r0 = Node::<T>::seq_of(boxed.right);
        let ghost m = boxed.item;
        if boxed.left.is_some() {
            let popped = Self::pop_leftmost(&mut boxed.left);
            let ghost l1 = Node::<T>::seq_of(boxed.left);
            *node = Some(boxed);
            proof {
                assert(Node::<T>::seq_of(*node) =~= s0.drop_first());
                assert(s0[0] == l0[0]);
                assert forall|k: int| 0 <= k < l1.len() implies strict_lt(
                    #[trigger] l1[k],
                    m,
                ) by {
                    assert(l1[k] == l0[k + 1]);
                }
                assert forall|j: int| 0 <= j < s0.len() implies popped.le(
                    #[trigger] s0[j],
                ) by {
                    if j == l0.len() {
                        T::lemma_le_total(m, l0[0]);
                        assert(popped.le(m));
                    } else if j > l0.len() {
                        T::lemma_le_total(m, l0[0]);
                        T::lemma_le_transitive(popped, m, r0[j - l0.len() - 1]);
                    }
                }
            }
            popped
        } else {
            // This node holds the smallest key: relink its right subtree
            // into its slot and hand the key out.
            *node = boxed.right;
            proof {
                assert(s0 =~= seq![m] + r0);
                assert(Node::<T>::seq_of(*node) =~= s0.drop_first());
                assert forall|j: int| 0 <= j < s0.len() implies m.le(#[trigger] s0[j]) by {
                    if j == 0 {
                        T::lemma_le_total(m, m);
                    }
                }
            }
            boxed.item
        }
    }

    /// Delete from the optional subtree at `node` the first node met by the
    /// descent whose key compares equal to `q`; a no-op when no key does.
    fn delete_from<Q: LookupKey<T> + ?Sized>(node: &mut Option<Box<Node<T>>>, q: &Q)
        requires
            old(node).is_some() ==> old(node).unwrap().well_formed(),
        ensures
            final(node).is_some() ==> final(node).unwrap().well_formed(),
            if has_match(q, Node::<T>::seq_of(*old(node))) {
                exists|i: int|
                    0 <= i < Node::<T>::seq_of(*old(node)).len() && key_matches(
                        q,
                        Node::<T>::seq_of(*old(node))[i],
                    ) && Node::<T>::seq_of(*final(node)) == Node::<T>::seq_of(
                        *old(node),
                    ).remove(i)
            } else {
                Node::<T>::seq_of(*final(node)) == Node::<T>::seq_of(*old(node))
            },
        decreases *old(node),
    {
        match node.take() {
            None => {
            },
            Some(mut boxed) => {
                let ghost s0 = boxed.seq();
                let ghost l0 = Node::<T>::seq_of(boxed.left);
                let ghost r0 = Node::<T>::seq_of(boxed.right);
                let ghost m = boxed.item;
                let below = q.cmp_le(&boxed.item);
                let above = q.cmp_ge(&boxed.item);
                if below && above {
                    // This node's key matches: remove this node. With both
                    // children present its key is replaced by the in-order
                    // successor, the smallest key of the right subtree;
                    // otherwise the single child (or nothing) is relinked
                    // into the node's place.
                    if boxed.left.is_none() {
                        *node = boxed.right;
                        proof {
                            assert(s0 =~= seq![m] + r0);
                            assert(key_matches(q, s0[0]));
                            assert(Node::<T>::seq_of(*node) =~= s0.remove(0));
                        }
                    } else if boxed.right.is_none() {
                        *node = boxed.left;
                        proof {
                            assert(s0 =~= l0 + seq![m]);
                            assert(key_matches(q, s0[l0.len() as int]));
                            assert(Node::<T>::seq_of(*node) =~= s0.remove(l0.len() as int));
                        }
                    } else {
                        let popped = Self::pop_leftmost(&mut boxed.right);
                        let ghost r1 = Node::<T>::seq_of(boxed.right);
                        boxed.item = popped;
                        *node = Some(boxed);
                        proof {
                            assert(key_matches(q, s0[l0.len() as int]));
                            assert(Node::<T>::seq_of(*node) =~= s0.remove(l0.len() as int));
                            assert(m.le(popped));
                            assert forall|k: int| 0 <= k < l0.len() implies strict_lt(
                                #[trigger] l0[k],
                                popped,
                            ) by {
                                if popped.le(l0[k]) {
                                    T::lemma_le_transitive(m, popped, l0[k]);
                                }
                            }
                            assert forall|k: int| 0 <= k < r1.len() implies popped.le(
                                #[trigger] r1[k],
                            ) by {
                                assert(r1[k] == r0[k + 1]);
                            }
                        }
                    }
                } else if below {
                    // `q` comes strictly before this node's key: only the
                    // left subtree can hold a match.
                    Self::delete_from(&mut boxed.left, q);
                    let ghost l1 = Node::<T>::seq_of(boxed.left);
                    *node = Some(boxed);
                    proof {
                        if has_match(q, l0) {
                            let i = choose|i: int|
                                0 <= i < l0.len() && key_matches(q, l0[i]) && l1 == l0.remove(i);
                            assert(s0[i] == l0[i]);
                            assert(Node::<T>::seq_of(*node) =~= s0.remove(i));
                            assert forall|k: int| 0 <= k < l1.len() implies strict_lt(
                                #[trigger] l1[k],
                                m,
                            ) by {
                                if k >= i {
                                    assert(l1[k] == l0[k + 1]);
                                }
                            }
                            assert(has_match(q, s0));
                        } else {
                            assert(Node::<T>::seq_of(*node) == s0);
                            assert forall|j: int|
                                0 <= j < s0.len() implies !#[trigger] key_matches(q, s0[j]) by {
                                if j < l0.len() {
                                    assert(s0[j] == l0[j]);
                                    assert(!key_matches(q, l0[j]));
                                } else if j > l0.len() {
                                    let k = j - l0.len() - 1;
                                    assert(s0[j] == r0[k]);
                                    if q.key_ge(r0[k]) {
                                        Q::lemma_key_ge_extends(q, m, r0[k]);
                                    }
                                }
                            }
                        }
                    }
                } else {
                    // `q` comes strictly after this node's key: only the
                    // right subtree can hold a match.
                    proof {
                        Q::lemma_key_total(q, m);
                    }
                    Self::delete_from(&mut boxed.right, q);
                    let ghost r1 = Node::<T>::seq_of(boxed.right);
                    *node = Some(boxed);
                    proof {
                        if has_match(q, r0) {
                            let i = choose|i: int|
                                0 <= i < r0.len() && key_matches(q, r0[i]) && r1 == r0.remove(i);
                            assert(s0[l0.len() + 1 + i] == r0[i]);
                            assert(Node::<T>::seq_of(*node) =~= s0.remove(l0.len() + 1 + i));
                            assert forall|k: int| 0 <= k < r1.len() implies m.le(
                                #[trigger] r1[k],
                            ) by {
                                if k >= i {
                                    assert(r1[k] == r0[k + 1]);
                                }
                            }
                            assert(has_match(q, s0));
                        } else {
                            assert(Node::<T>::seq_of(*node) == s0);
                            assert forall|j: int|
                                0 <= j < s0.len() implies !#[trigger] key_matches(q, s0[j]) by {
                                if j < l0.len() {
                                    assert(s0[j] == l0[j]);
                                    if q.key_le(l0[j]) {
                                        Q::lemma_key_between(q, m, l0[j]);
                                    }
                                } else if j > l0.len() {
                                    let k = j - l0.len() - 1;
                                    assert(s0[j] == r0[k]);
                                    assert(!key_matches(q, r0[k]));
                                }
                            }
                        }
                    }
                }
            },
        }
    }

    /// Insert `item` into the subtree rooted at this node.
    fn insert_node(&mut self, item: T)
        requires
            old(self).well_formed(),
        ensures
            final(self).well_formed(),
            exists|i: int| inserted_at(old(self).seq(), item, i, final(self).seq()),
        decreases *old(self),
    {
        let ghost s0 = self.seq();
        let ghost l0 = Node::<T>::seq_of(self.left);
        let ghost r0 = Node::<T>::seq_of(self.right);
        let ghost m = self.item;
        if self.item.leq(&item) {
            // The node's key comes no later than `item`: descend right.
            Self::insert_into(&mut self.right, item);
            proof {
                let i1 = choose|i: int|
                    inserted_at(r0, item, i, Node::<T>::seq_of(self.right));
                let i = l0.len() + 1 + i1;
                assert(self.seq() =~= s0.insert(i, item));
                assert forall|j: int| 0 <= j < i implies (#[trigger] s0[j]).le(item) by {
                    if j < l0.len() {
                        T::lemma_le_total(m, l0[j]);
                        T::lemma_le_transitive(l0[j], m, item);
                    }
                }
                assert(inserted_at(s0, item, i, self.seq()));
                assert forall|k: int|
                    0 <= k < Node::<T>::seq_of(self.right).len() implies m.le(
                    #[trigger] Node::<T>::seq_of(self.right)[k],
                ) by {
                    assert(Node::<T>::seq_of(self.right) == r0.insert(i1, item));
                }
            }
        } else {
            // `item` comes strictly before the node's key: descend left.
            Self::insert_into(&mut self.left, item);
            proof {
                let i = choose|j: int|
                    inserted_at(l0, item, j, Node::<T>::seq_of(self.left));
                assert(self.seq() =~= s0.insert(i, item));
                assert forall|j: int| i <= j < s0.len() implies strict_lt(
                    item,
                    #[trigger] s0[j],
                ) by {
                    if j > l0.len() {
                        let k = j - l0.len() - 1;
                        if !strict_lt(item, r0[k]) {
                            T::lemma_le_transitive(m, r0[k], item);
                        }
                    }
                }
                assert(inserted_at(s0, item, i, self.seq()));
                assert forall|k: int|
                    0 <= k < Node::<T>::seq_of(self.left).len() implies strict_lt(
                    #[trigger] Node::<T>::seq_of(self.left)[k],
                    m,
                ) by {
                    assert(Node::<T>::seq_of(self.left) == l0.insert(i, item));
                }
            }
        }
    }
}

impl<T: TotalOrder> BinarySearchTree<T> {
    /// The invariant of every tree a caller can hold: either the tree is
    /// empty, or its root is a well-formed subtree. Established by the
    /// constructor and preserved by every operation, so it holds of every
    /// tree built through the public interface.
    #[verifier::type_invariant]
    pub closed spec fn well_formed(self) -> bool {
        match self.root {
            Some(node) => node.well_formed(),
            None => true,
        }
    }

    /// An empty tree.
    pub fn new() -> (tree: Self)
        ensures
            tree@ == Seq::<T>::empty(),
    {
        BinarySearchTree { root: None }
    }

    /// Insert `item` as a new leaf. Always succeeds; a key equal to one
    /// already present is stored again, to the right of its duplicates. The
    /// new key takes the unique in-order position that keeps the tree's keys
    /// sorted: after every key comparing no later than `item`, before every
    /// key comparing strictly after it.
    pub fn insert(&mut self, item: T)
        ensures
            exists|i: int| inserted_at(old(self)@, item, i, final(self)@),
    {
        proof {
            use_type_invariant(&*self);
        }
        let mut root = None;
        std::mem::swap(&mut root, &mut self.root);
        let ghost s0 = Node::<T>::seq_of(root);
        Node::<T>::insert_into(&mut root, item);
        let ghost i1 = choose|i: int| inserted_at(s0, item, i, Node::<T>::seq_of(root));
        let ghost s1 = Node::<T>::seq_of(root);
        self.root = root;
        proof {
            assert(old(self)@ == s0);
            assert(self@ == s1);
            assert(inserted_at(old(self)@, item, i1, final(self)@));
        }
    }

    /// Delete one stored key comparing equal to `q`: the first one met by
    /// the classic descent. When no stored key compares equal, the call is a
    /// no-op and the tree is unchanged. The removed node's storage is freed
    /// exactly once, by ownership of the child edge that held it.
    pub fn delete<Q: LookupKey<T> + ?Sized>(&mut self, q: &Q)
        ensures
            if has_match(q, old(self)@) {
                exists|i: int|
                    0 <= i < old(self)@.len() && key_matches(q, old(self)@[i]) && final(self)@
                        == old(self)@.remove(i)
            } else {
                final(self)@ == old(self)@
            },
    {
        proof {
            use_type_invariant(&*self);
        }
        let mut root = None;
        std::mem::swap(&mut root, &mut self.root);
        let ghost s0 = Node::<T>::seq_of(root);
        Node::<T>::delete_from(&mut root, q);
        let ghost s1 = Node::<T>::seq_of(root);
        self.root = root;
        proof {
            assert(old(self)@ == s0);
            assert(self@ == s1);
            if has_match(q, s0) {
                let i = choose|i: int|
                    0 <= i < s0.len() && key_matches(q, s0[i]) && s1 == s0.remove(i);
                assert(key_matches(q, old(self)@[i]) && final(self)@ == old(self)@.remove(i));
            }
        }
    }

    /// Look up `q` and return a reference to a stored key that compares
    /// equal to it, or `None` exactly when no stored key does. With
    /// duplicates present, which of the equal keys is returned is the first
    /// one met by the descent.
    pub fn get<'a, Q: LookupKey<T> + ?Sized>(&'a self, q: &Q) -> (r: Option<&'a T>)
        ensures
            match r {
                Some(t) => key_matches(q, *t) && self@.contains(*t),
                None => !has_match(q, self@),
            },
    {
        proof {
            use_type_invariant(&*self);
        }
        Node::<T>::search_in(&self.root, q)
    }

    /// Whether some stored key compares equal to `q`.
    pub fn contains<Q: LookupKey<T> + ?Sized>(&self, q: &Q) -> (r: bool)
        ensures
            r == has_match(q, self@),
    {
        let found = self.get(q);
        proof {
            if let Some(t) = found {
                let j = choose|j: int| 0 <= j < self@.len() && self@[j] == *t;
                assert(key_matches(q, self@[j]));
            }
        }
        found.is_some()
    }

    /// The ordering invariant, seen from outside: whatever sequence of
    /// inserts and deletes built a tree, its in-order key sequence is
    /// non-decreasing under the order of `T`. In particular the key `min`
    /// returns comes no later than every stored key, and the key `max`
    /// returns no earlier.
    pub proof fn lemma_inorder_sorted(tree: BinarySearchTree<T>)
        requires
            tree.well_formed(),
        ensures
            sorted_le(tree@),
    {
        Node::<T>::lemma_subtree_sorted(tree.root);
    }

    /// A reference to the smallest stored key — the first key in order —
    /// or `None` exactly when the tree is empty. Reached by walking `left`
    /// from the root until no left child remains.
    pub fn min(&self) -> (r: Option<&T>)
        ensures
            match r {
                Some(t) => {
                    &&& self@.len() > 0
                    &&& *t == self@[0]
                    &&& forall|j: int| 0 <= j < self@.len() ==> (*t).le(#[trigger] self@[j])
                },
                None => self@.len() == 0,
            },
    {
        proof {
            use_type_invariant(&*self);
        }
        match &self.root {
            None => None,
            Some(root) => {
                let mut cur: &Node<T> = &**root;
                while cur.left.is_some()
                    invariant
                        cur.well_formed(),
                        cur.seq().len() > 0,
                        self@.len() > 0,
                        cur.seq()[0] == self@[0],
                    decreases cur.seq().len(),
                {
                    match &cur.left {
                        Some(l) => {
                            proof {
                                assert(cur.seq()[0] == l.seq()[0]);
                            }
                            cur = &**l;
                        },
                        None => {},
                    }
                }
                proof {
                    assert(Node::<T>::seq_of(cur.left).len() == 0);
                    assert(cur.seq()[0] == cur.spec_item());
                    Self::lemma_inorder_sorted(*self);
                    T::lemma_le_total(self@[0], self@[0]);
                }
                Some(&cur.item)
            },
        }
    }

    /// A reference to the largest stored key — the last key in order — or
    /// `None` exactly when the tree is empty. Reached by walking `right`
    /// from the root until no right child remains.
    pub fn max(&self) -> (r: Option<&T>)
        ensures
            match r {
                Some(t) => {
                    &&& self@.len() > 0
                    &&& *t == self@[self@.len() - 1]
                    &&& forall|j: int| 0 <= j < self@.len() ==> (#[trigger] self@[j]).le(*t)
                },
                None => self@.len() == 0,
            },
    {
        proof {
            use_type_invariant(&*self);
        }
        match &self.root {
            None => None,
            Some(root) => {
                let mut cur: &Node<T> = &**root;
                while cur.right.is_some()
                    invariant
                        cur.well_formed(),
                        cur.seq().len() > 0,
                        self@.len() > 0,
                        cur.seq()[cur.seq().len() - 1] == self@[self@.len() - 1],
                    decreases cur.seq().len(),
                {
                    match &cur.right {
                        Some(rt) => {
                            proof {
                                assert(cur.seq()[cur.seq().len() - 1] == rt.seq()[rt.seq().len()
                                    - 1]);
                            }
                            cur = &**rt;
                        },
                        None => {},
                    }
                }
                proof {
                    assert(Node::<T>::seq_of(cur.right).len() == 0);
                    assert(cur.seq()[cur.seq().len() - 1] == cur.spec_item());
                    Self::lemma_inorder_sorted(*self);
                    let last = self@.len() - 1;
                    T::lemma_le_total(self@[last], self@[last]);
                }
                Some(&cur.item)
            },
        }
    }
}

impl<T: TotalOrder> View for BinarySearchTree<T> {
    type V = Seq<T>;

    /// The keys held by the tree, in order.
    closed spec fn view(&self) -> Seq<T> {
        Node::<T>::seq_of(self.root)
    }
}

impl<T: TotalOrder> Default for BinarySearchTree<T> {
    /// An empty tree.
    fn default() -> (tree: Self)
        ensures
            tree@ == Seq::<T>::empty(),
    {
        BinarySearchTree::new()
    }
}

} // verus!
