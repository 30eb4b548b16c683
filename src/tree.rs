//! The tree handle: one root node, grown in height when the root splits.
use vstd::prelude::*;
use crate::node::BTreeNode;

verus! {

/// An ordered map from `u64` keys to values, kept as a B-tree whose nodes
/// (inner ones included) each hold up to a fixed number of pairs.
pub struct BTree<V> {
    pub root: BTreeNode<V>,
}

impl<V> View for BTree<V> {
    type V = Map<u64, V>;

    /// The pairs held in the tree.
    open spec fn view(&self) -> Map<u64, V> {
        self.root@
    }
}

impl<V> BTree<V> {
    /// Most keys that one node holds.
    pub open spec fn capacity(self) -> nat {
        self.root.node_size as nat
    }

    /// The capacity is at least one, and the root is well formed for it.
    pub open spec fn wf(self) -> bool {
        self.capacity() >= 1 && self.root.wf(self.capacity())
    }

    /// Levels from the root down to a leaf.
    pub open spec fn height_spec(self) -> nat {
        self.root.height()
    }

    /// An empty tree whose nodes hold at most `node_size` keys.
    pub fn new(node_size: usize) -> (r: BTree<V>)
        requires
            node_size >= 1,
        ensures
            r.wf(),
            r.capacity() == node_size,
            r@ == Map::<u64, V>::empty(),
            r.height_spec() == 1,
            r.root.keys@.len() == 0,
    {
        BTree { root: BTreeNode::new(node_size) }
    }

    /// The value stored under `k`, if any.
    pub fn find(&self, k: u64) -> (r: Option<&V>)
        requires
            self.wf(),
        ensures
            r is Some <==> self@.contains_key(k),
            r matches Some(v) ==> *v == self@[k],
    {
        self.root.find(&k)
    }

    /// Stores `value` under `key`; a key that is already present gets the
    /// new value. When the root overflows, a new root takes its middle pair,
    /// with the old root and its new sibling as the two children.
    pub fn add(&mut self, key: u64, value: V)
        requires
            old(self).wf(),
        ensures
            final(self).wf(),
            final(self).capacity() == old(self).capacity(),
            final(self)@ == old(self)@.insert(key, value),
            final(self).height_spec() == old(self).height_spec() || (final(self).height_spec()
                == old(self).height_spec() + 1 && final(self).root.keys@.len() == 1),
            old(self).height_spec() == 1 ==> final(self).height_spec() == if old(self).root.keys@.len()
                == old(self).capacity() && !old(self)@.contains_key(key) {
                2nat
            } else {
                1nat
            },
            old(self).height_spec() == 1 && final(self).height_spec() == 1 ==> final(self).root.keys@.len()
                == old(self).root.keys@.len() + if old(self)@.contains_key(key) {
                0int
            } else {
                1int
            },
    {
        let ghost cap = self.capacity();
        proof {
            if self.root.children@.len() > 0 {
                crate::node::lemma_height_positive(self.root.children@[0]);
            }
        }
        let overflow = self.root.add_recursive(key, value);
        match overflow {
            None => {},
            Some((mid_key, mid_value, right)) => {
                let mut old_root = BTreeNode::new(self.root.node_size);
                std::mem::swap(&mut self.root, &mut old_root);
                self.root.children.push(old_root);
                self.root.keys.push(mid_key);
                self.root.values.push(mid_value);
                self.root.children.push(right);
                proof {
                    assert(self.root.keys@ =~= seq![mid_key]);
                    assert(self.root.values@ =~= seq![mid_value]);
                    assert(self.root.children@ =~= seq![old_root, right]);
                    crate::node::lemma_grown_root(self.root, cap, old_root, mid_key, mid_value, right);
                }
            },
        }
    }

    /// Levels from the root down to a leaf.
    pub fn height(&self) -> (r: usize)
        requires
            self.height_spec() <= usize::MAX,
        ensures
            r == self.height_spec(),
    {
        let mut levels: usize = 1;
        let mut current = &self.root;
        while current.children.len() > 0
            invariant
                levels + current.height() == self.height_spec() + 1,
                self.height_spec() <= usize::MAX,
            decreases current.height(),
        {
            proof {
                crate::node::lemma_height_positive(current.children@[0]);
            }
            levels = levels + 1;
            current = &current.children[0];
        }
        levels
    }
}

/// The map that adding the pairs of `pairs` one by one, in order, to an
/// empty tree yields (see `BTree::new` and `BTree::add`).
pub open spec fn added<V>(pairs: Seq<(u64, V)>) -> Map<u64, V>
    decreases pairs.len(),
{
    if pairs.len() == 0 {
        Map::empty()
    } else {
        added(pairs.drop_last()).insert(pairs.last().0, pairs.last().1)
    }
}

/// No two of the pairs share a key.
pub open spec fn distinct_keys<V>(pairs: Seq<(u64, V)>) -> bool {
    forall|i: int, j: int| 0 <= i < j < pairs.len() ==> pairs[i].0 != pairs[j].0
}

proof fn lemma_added<V>(pairs: Seq<(u64, V)>)
    requires
        distinct_keys(pairs),
    ensures
        forall|j: int|
            #![trigger pairs[j]]
            0 <= j < pairs.len() ==> added(pairs).contains_key(pairs[j].0) && added(pairs)[pairs[j].0]
                == pairs[j].1,
        forall|k: u64| added(pairs).contains_key(k) ==> exists|j: int| 0 <= j < pairs.len() && pairs[j].0 == k,
    decreases pairs.len(),
{
    if pairs.len() > 0 {
        let init = pairs.drop_last();
        assert(distinct_keys(init));
        lemma_added(init);
        assert forall|j: int| #![trigger pairs[j]] 0 <= j < pairs.len() implies added(pairs).contains_key(pairs[j].0)
            && added(pairs)[pairs[j].0] == pairs[j].1 by {
            if j < pairs.len() - 1 {
                assert(init[j] == pairs[j]);
            }
        }
        assert forall|k: u64| added(pairs).contains_key(k) implies exists|j: int| 0 <= j < pairs.len() && pairs[j].0 == k by {
            if k != pairs.last().0 {
                assert(added(init).contains_key(k));
                let j = choose|j: int| 0 <= j < init.len() && init[j].0 == k;
                assert(pairs[j] == init[j]);
            } else {
                assert(pairs[pairs.len() - 1].0 == k);
            }
        }
    }
}

/// Find after add: once pairs with distinct keys have been added one by one
/// to a new tree, a find of the key of any of them yields its value, and a
/// find of any other key yields nothing. This holds after every addition,
/// as each prefix of the pairs is such a run in its own right.
pub proof fn lemma_find_after_add<V>(t: BTree<V>, pairs: Seq<(u64, V)>)
    requires
        t.wf(),
        t@ == added(pairs),
        distinct_keys(pairs),
    ensures
        forall|j: int|
            #![trigger pairs[j]]
            0 <= j < pairs.len() ==> t@.contains_key(pairs[j].0) && t@[pairs[j].0] == pairs[j].1,
        forall|k: u64| t@.contains_key(k) ==> exists|j: int| 0 <= j < pairs.len() && pairs[j].0 == k,
{
    lemma_added(pairs);
}

/// Ordering and capacity: in every node of a well-formed tree the keys
/// strictly increase, each key under child `i` lies between the node's keys
/// `i - 1` and `i`, and no node holds more keys than the capacity.
pub proof fn lemma_tree_invariants<V>(t: BTree<V>)
    requires
        t.wf(),
    ensures
        t.root.ordered(),
        t.root.within_capacity(t.capacity()),
{
    crate::node::lemma_ordered(t.root, t.capacity());
    crate::node::lemma_within_capacity(t.root, t.capacity());
}

} // verus!
