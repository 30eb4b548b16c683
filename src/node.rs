//! Tree nodes: the search primitive, lookup along a search path, and
//! insertion with node splitting.
use vstd::prelude::*;
use crate::search::{SearchResult, strictly_increasing, lower_bound, search, lemma_lower_bound, lemma_lower_bound_at, lemma_search};

verus! {

/// One node of the tree: a strictly increasing run of keys, the values that
/// go with them slot by slot, and either no children (a leaf) or one child
/// more than there are keys.
pub struct BTreeNode<V> {
    /// Largest number of keys a node holds once an insertion is complete.
    pub node_size: usize,
    pub keys: Vec<u64>,
    pub values: Vec<V>,
    pub children: Vec<BTreeNode<V>>,
}

impl<V> BTreeNode<V> {
    /// What a lookup of `k` that starts at this node yields: the value in
    /// the slot that holds `k`, or else the lookup in the child between the
    /// keys around `k`, or nothing at a leaf. In an ordered subtree that
    /// child is the only place below this node where `k` can be stored.
    pub open spec fn lookup(self, k: u64) -> Option<V>
        decreases self,
    {
        let i = lower_bound(self.keys@, k) as int;
        if i < self.keys@.len() && self.keys@[i] == k {
            Some(self.values@[i])
        } else if i < self.children@.len() {
            self.children@[i].lookup(k)
        } else {
            None
        }
    }

    /// The slots that a search for `k` picks from this node down, root
    /// first: the child taken at each level, then the slot of `k` in the node
    /// that holds it. Empty when the search ends at a leaf without `k`.
    pub open spec fn search_path(self, k: u64) -> Seq<usize>
        decreases self,
    {
        match search(self.keys@, k) {
            SearchResult::Found(m) => seq![m],
            SearchResult::NotFound(i) => if (i as int) < self.children@.len() {
                let p = self.children@[i as int].search_path(k);
                if p.len() == 0 {
                    Seq::empty()
                } else {
                    seq![i] + p
                }
            } else {
                Seq::empty()
            },
        }
    }

    /// Number of levels a search for `k` descends below this node.
    pub open spec fn descent(self, k: u64) -> nat
        decreases self,
    {
        match search(self.keys@, k) {
            SearchResult::Found(_) => 0,
            SearchResult::NotFound(i) => if (i as int) < self.children@.len() {
                1 + self.children@[i as int].descent(k)
            } else {
                0
            },
        }
    }

    /// At every node of the subtree the keys strictly increase, and every
    /// key held under child `i` is greater than the key before that child
    /// and smaller than the key after it.
    pub open spec fn ordered(self) -> bool
        decreases self,
    {
        &&& strictly_increasing(self.keys@)
        &&& forall|i: int|
            #![trigger self.children@[i]]
            0 <= i < self.children@.len() ==> {
                &&& self.children@[i].ordered()
                &&& forall|k: u64|
                    self.children@[i]@.contains_key(k) ==> {
                        &&& (i > 0 ==> self.keys@[i - 1] < k)
                        &&& (i < self.keys@.len() ==> k < self.keys@[i])
                    }
            }
    }

    /// No node of the subtree holds more than `cap` keys.
    pub open spec fn within_capacity(self, cap: nat) -> bool
        decreases self,
    {
        &&& self.keys@.len() <= cap
        &&& forall|i: int|
            #![trigger self.children@[i]]
            0 <= i < self.children@.len() ==> self.children@[i].within_capacity(cap)
    }

    /// Shape and order of this node alone.
    pub open spec fn local_ok(self, cap: nat) -> bool {
        &&& self.node_size == cap
        &&& self.keys@.len() == self.values@.len()
        &&& (self.children@.len() == 0 || self.children@.len() == self.keys@.len() + 1)
        &&& strictly_increasing(self.keys@)
    }

    /// Every key held under child `i` lies strictly between the keys on
    /// either side of that child.
    pub open spec fn child_in_range(self, i: int) -> bool {
        forall|k: u64|
            #![trigger self.children@[i].lookup(k)]
            self.children@[i].lookup(k) is Some ==> {
                &&& (i > 0 ==> self.keys@[i - 1] < k)
                &&& (i < self.keys@.len() ==> k < self.keys@[i])
            }
    }

    /// Order and shape hold at this node and at every node under it, all
    /// children of a node stand equally high (so every leaf is at the same
    /// depth), and every node under this one holds at most `cap` keys. This
    /// node itself may hold more (as it does just before a split).
    pub open spec fn layout(self, cap: nat) -> bool
        decreases self,
    {
        &&& self.local_ok(cap)
        &&& forall|i: int|
            #![trigger self.children@[i]]
            0 <= i < self.children@.len() ==> {
                &&& self.children@[i].layout(cap)
                &&& self.children@[i].keys@.len() <= cap
                &&& self.child_in_range(i)
                &&& self.children@[i].height() == self.children@[0].height()
            }
    }

    /// A well-formed node of a tree whose nodes hold at most `cap` keys.
    pub open spec fn wf(self, cap: nat) -> bool {
        self.layout(cap) && self.keys@.len() <= cap
    }

    /// Levels from this node down to a leaf, along the first children.
    pub open spec fn height(self) -> nat
        decreases self,
    {
        if self.children@.len() == 0 {
            1
        } else {
            1 + self.children@[0].height()
        }
    }
}

impl<V> View for BTreeNode<V> {
    type V = Map<u64, V>;

    /// The pairs that a lookup from this node finds.
    open spec fn view(&self) -> Map<u64, V> {
        Map::new(|k: u64| self.lookup(k) is Some, |k: u64| self.lookup(k)->0)
    }
}

/// A key in slot `j` is found there.
proof fn lemma_lookup_slot<V>(n: BTreeNode<V>, cap: nat, j: int)
    requires
        n.local_ok(cap),
        0 <= j < n.keys@.len(),
    ensures
        n.lookup(n.keys@[j]) == Some(n.values@[j]),
{
    let k = n.keys@[j];
    assert forall|x: int| 0 <= x < j implies n.keys@[x] < k by {}
    lemma_lower_bound_at(n.keys@, k, j);
}

/// A key that falls in the gap before slot `i` of an inner node is looked up
/// in child `i`.
proof fn lemma_lookup_gap<V>(n: BTreeNode<V>, cap: nat, k: u64, i: int)
    requires
        n.local_ok(cap),
        n.children@.len() == n.keys@.len() + 1,
        0 <= i <= n.keys@.len(),
        i > 0 ==> n.keys@[i - 1] < k,
        i < n.keys@.len() ==> k < n.keys@[i],
    ensures
        n.lookup(k) == n.children@[i].lookup(k),
{
    gap_bound(n.keys@, k, i);
}

/// A leaf does not hold a key that is not among its keys.
proof fn lemma_lookup_leaf_gap<V>(n: BTreeNode<V>, cap: nat, k: u64, i: int)
    requires
        n.local_ok(cap),
        n.children@.len() == 0,
        0 <= i <= n.keys@.len(),
        i > 0 ==> n.keys@[i - 1] < k,
        i < n.keys@.len() ==> k < n.keys@[i],
    ensures
        n.lookup(k) is None,
{
    gap_bound(n.keys@, k, i);
}

proof fn gap_bound(s: Seq<u64>, k: u64, i: int)
    requires
        strictly_increasing(s),
        0 <= i <= s.len(),
        i > 0 ==> s[i - 1] < k,
        i < s.len() ==> k < s[i],
    ensures
        lower_bound(s, k) == i,
{
    assert forall|j: int| 0 <= j < i implies s[j] < k by {
        if j < i - 1 {
            assert(s[j] < s[i - 1]);
        }
    }
    assert forall|j: int| i <= j < s.len() implies k <= s[j] by {
        if j > i {
            assert(s[i] < s[j]);
        }
    }
    lemma_lower_bound_at(s, k, i);
}

/// Every key found from a node lies below `b` when its keys do and what its
/// last child holds does.
proof fn lemma_found_below<V>(n: BTreeNode<V>, cap: nat, k: u64, b: int)
    requires
        n.layout(cap),
        n.lookup(k) is Some,
        forall|j: int| 0 <= j < n.keys@.len() ==> n.keys@[j] < b,
        n.children@.len() > 0 ==> forall|x: u64|
            #[trigger] n.children@[n.children@.len() - 1].lookup(x) is Some ==> x < b,
    ensures
        k < b,
{
    lemma_lower_bound(n.keys@, k);
    let i = lower_bound(n.keys@, k) as int;
    if !(i < n.keys@.len() && n.keys@[i] == k) && i < n.children@.len() {
        assert(n.child_in_range(i));
        assert(n.children@[i].lookup(k) is Some);
        if i == n.keys@.len() {
            assert(i == n.children@.len() - 1);
        }
    }
}

/// Every key found from a node lies above `b` when its keys do and what its
/// first child holds does.
proof fn lemma_found_above<V>(n: BTreeNode<V>, cap: nat, k: u64, b: int)
    requires
        n.layout(cap),
        n.lookup(k) is Some,
        forall|j: int| 0 <= j < n.keys@.len() ==> b < n.keys@[j],
        n.children@.len() > 0 ==> forall|x: u64| #[trigger] n.children@[0].lookup(x) is Some ==> b < x,
    ensures
        b < k,
{
    lemma_lower_bound(n.keys@, k);
    let i = lower_bound(n.keys@, k) as int;
    if !(i < n.keys@.len() && n.keys@[i] == k) && i < n.children@.len() {
        assert(n.child_in_range(i));
        assert(n.children@[i].lookup(k) is Some);
    }
}

/// The two halves of an overfull node around its middle key `o.keys@[mid]`
/// are well formed, lie on either side of that key, and together with it
/// hold exactly what the node held.
proof fn lemma_split_halves<V>(o: BTreeNode<V>, l: BTreeNode<V>, r: BTreeNode<V>, cap: nat, mid: int)
    requires
        o.layout(cap),
        0 <= mid < o.keys@.len(),
        mid <= cap,
        o.keys@.len() - mid - 1 <= cap,
        l.node_size == cap,
        r.node_size == cap,
        l.keys@ == o.keys@.subrange(0, mid),
        l.values@ == o.values@.subrange(0, mid),
        r.keys@ == o.keys@.subrange(mid + 1, o.keys@.len() as int),
        r.values@ == o.values@.subrange(mid + 1, o.values@.len() as int),
        o.children@.len() == 0 ==> l.children@.len() == 0 && r.children@.len() == 0,
        o.children@.len() > 0 ==> l.children@ == o.children@.subrange(0, mid + 1),
        o.children@.len() > 0 ==> r.children@ == o.children@.subrange(mid + 1, o.children@.len() as int),
    ensures
        l.wf(cap),
        r.wf(cap),
        forall|k: u64| l@.contains_key(k) ==> k < o.keys@[mid],
        forall|k: u64| r@.contains_key(k) ==> o.keys@[mid] < k,
        o@ == l@.union_prefer_right(r@).insert(o.keys@[mid], o.values@[mid]),
        l.height() == o.height(),
        r.height() == o.height(),
{
    let mk = o.keys@[mid];
    let internal = o.children@.len() > 0;
    assert(o.keys@.len() == o.keys.len());
    assert(l.local_ok(cap));
    assert(r.local_ok(cap)) by {
        assert forall|i: int, j: int| 0 <= i < j < r.keys@.len() implies r.keys@[i] < r.keys@[j] by {
            assert(o.keys@[i + mid + 1] < o.keys@[j + mid + 1]);
        }
    }
    assert forall|i: int| 0 <= i < l.children@.len() implies {
        &&& #[trigger] l.children@[i].layout(cap)
        &&& l.children@[i].keys@.len() <= cap
        &&& l.child_in_range(i)
    } by {
        assert(l.children@[i] == o.children@[i]);
        assert(o.child_in_range(i));
    }
    assert(l.layout(cap));
    assert forall|i: int| 0 <= i < r.children@.len() implies {
        &&& #[trigger] r.children@[i].layout(cap)
        &&& r.children@[i].keys@.len() <= cap
        &&& r.child_in_range(i)
    } by {
        assert(r.children@[i] == o.children@[i + mid + 1]);
        assert(o.child_in_range(i + mid + 1));
    }
    assert(r.layout(cap));
    assert forall|k: u64| l.lookup(k) is Some implies k < mk by {
        if internal {
            assert(l.children@[l.children@.len() - 1] == o.children@[mid]);
            assert(o.child_in_range(mid));
        }
        lemma_found_below(l, cap, k, mk as int);
    }
    assert forall|k: u64| r.lookup(k) is Some implies mk < k by {
        if internal {
            assert(r.children@[0] == o.children@[mid + 1]);
            assert(o.child_in_range(mid + 1));
        }
        lemma_found_above(r, cap, k, mk as int);
    }
    assert forall|k: u64| #[trigger] o.lookup(k) == (if k == mk {
        Some(o.values@[mid])
    } else if k < mk {
        l.lookup(k)
    } else {
        r.lookup(k)
    }) by {
        lemma_lookup_slot(o, cap, mid);
        lemma_search(o.keys@, k);
        match search(o.keys@, k) {
            SearchResult::Found(m) => {
                let m = m as int;
                if m < mid {
                    lemma_lookup_slot(l, cap, m);
                } else if m > mid {
                    lemma_lookup_slot(r, cap, m - mid - 1);
                }
            },
            SearchResult::NotFound(i) => {
                let i = i as int;
                if k < mk {
                    if internal {
                        lemma_lookup_gap(o, cap, k, i);
                        lemma_lookup_gap(l, cap, k, i);
                        assert(l.children@[i] == o.children@[i]);
                    } else {
                        lemma_lookup_leaf_gap(o, cap, k, i);
                        lemma_lookup_leaf_gap(l, cap, k, i);
                    }
                } else {
                    if internal {
                        lemma_lookup_gap(o, cap, k, i);
                        lemma_lookup_gap(r, cap, k, i - mid - 1);
                        assert(r.children@[i - mid - 1] == o.children@[i]);
                    } else {
                        lemma_lookup_leaf_gap(o, cap, k, i);
                        lemma_lookup_leaf_gap(r, cap, k, i - mid - 1);
                    }
                }
            },
        }
    }
    assert(o@ =~= l@.union_prefer_right(r@).insert(mk, o.values@[mid]));
}

/// Overwriting the value in the slot of `key` maps `key` to the new value and
/// changes nothing else.
proof fn lemma_value_replaced<V>(o: BTreeNode<V>, n: BTreeNode<V>, cap: nat, m: int, key: u64, value: V)
    requires
        o.wf(cap),
        0 <= m < o.keys@.len(),
        o.keys@[m] == key,
        n.node_size == o.node_size,
        n.keys@ == o.keys@,
        n.values@ == o.values@.update(m, value),
        n.children@ == o.children@,
    ensures
        n.wf(cap),
        n@ == o@.insert(key, value),
        n.height() == o.height(),
{
    assert forall|k: u64| #[trigger] n.lookup(k) == (if k == key { Some(value) } else { o.lookup(k) }) by {
        lemma_lower_bound(o.keys@, k);
        let b = lower_bound(o.keys@, k) as int;
        if b < o.keys@.len() && o.keys@[b] == k && b != m {
            assert(o.keys@[b] != o.keys@[m]) by {
                if b < m {
                    assert(o.keys@[b] < o.keys@[m]);
                } else {
                    assert(o.keys@[m] < o.keys@[b]);
                }
            }
        }
    }
    assert forall|i: int| 0 <= i < n.children@.len() implies {
        &&& #[trigger] n.children@[i].layout(cap)
        &&& n.children@[i].keys@.len() <= cap
        &&& n.child_in_range(i)
    } by {
        assert(o.child_in_range(i));
    }
    assert(n@ =~= o@.insert(key, value));
}

/// Putting `x` into the slot between the keys below it and those above it
/// keeps a run strictly increasing.
proof fn lemma_insert_increasing(s: Seq<u64>, i: int, x: u64)
    requires
        strictly_increasing(s),
        0 <= i <= s.len(),
        i > 0 ==> s[i - 1] < x,
        i < s.len() ==> x < s[i],
    ensures
        strictly_increasing(s.insert(i, x)),
{
    let t = s.insert(i, x);
    assert forall|a: int, b: int| 0 <= a < b < t.len() implies t[a] < t[b] by {
        if b < i {
        } else if a > i {
            assert(s[a - 1] < s[b - 1]);
        } else if a == i {
            assert(x < s[b - 1]) by {
                if b - 1 > i {
                    assert(s[i] < s[b - 1]);
                }
            }
        } else if b == i {
            assert(s[a] < x) by {
                if a < i - 1 {
                    assert(s[a] < s[i - 1]);
                }
            }
        } else {
            assert(s[a] < s[b - 1]);
        }
    }
}

/// Inserting `key` into the slot of a leaf where it belongs adds the pair.
proof fn lemma_leaf_insert<V>(o: BTreeNode<V>, n: BTreeNode<V>, cap: nat, i: int, key: u64, value: V)
    requires
        o.layout(cap),
        o.children@.len() == 0,
        0 <= i <= o.keys@.len(),
        i > 0 ==> o.keys@[i - 1] < key,
        i < o.keys@.len() ==> key < o.keys@[i],
        n.node_size == o.node_size,
        n.keys@ == o.keys@.insert(i, key),
        n.values@ == o.values@.insert(i, value),
        n.children@.len() == 0,
    ensures
        n.layout(cap),
        n@ == o@.insert(key, value),
        n.height() == o.height(),
{
    assert(o.keys@.len() == o.keys.len());
    lemma_insert_increasing(o.keys@, i, key);
    assert(n.local_ok(cap));
    assert forall|k: u64| #[trigger] n.lookup(k) == (if k == key { Some(value) } else { o.lookup(k) }) by {
        lemma_lookup_slot(n, cap, i);
        lemma_search(o.keys@, k);
        match search(o.keys@, k) {
            SearchResult::Found(m) => {
                let m = m as int;
                lemma_lookup_slot(o, cap, m);
                if m < i {
                    lemma_lookup_slot(n, cap, m);
                } else {
                    lemma_lookup_slot(n, cap, m + 1);
                }
            },
            SearchResult::NotFound(j) => {
                let j = j as int;
                lemma_lookup_leaf_gap(o, cap, k, j);
                if k != key {
                    if j <= i && (j < i || k < key) {
                        lemma_lookup_leaf_gap(n, cap, k, j);
                    } else {
                        lemma_lookup_leaf_gap(n, cap, k, j + 1);
                    }
                }
            },
        }
    }
    assert(n@ =~= o@.insert(key, value));
}

/// A node whose view is that of another with one pair added looks keys up
/// accordingly.
proof fn lemma_lookup_of_view<V>(c: BTreeNode<V>, o: BTreeNode<V>, k: u64, key: u64, value: V)
    requires
        c@ == o@.insert(key, value),
    ensures
        c.lookup(k) == (if k == key { Some(value) } else { o.lookup(k) }),
{
    assert(c@.contains_key(k) == (k == key || o@.contains_key(k)));
    if k == key {
        assert(c@[k] == value);
    } else if o.lookup(k) is Some {
        assert(c@[k] == o@[k]);
    }
}

/// Replacing the child in whose gap `key` falls by a well-formed node that
/// holds the child's pairs and the new one adds the pair.
proof fn lemma_child_replaced<V>(
    o: BTreeNode<V>,
    n: BTreeNode<V>,
    cap: nat,
    i: int,
    key: u64,
    value: V,
    c: BTreeNode<V>,
)
    requires
        o.wf(cap),
        o.children@.len() > 0,
        0 <= i <= o.keys@.len(),
        i > 0 ==> o.keys@[i - 1] < key,
        i < o.keys@.len() ==> key < o.keys@[i],
        c.wf(cap),
        c@ == o.children@[i]@.insert(key, value),
        c.height() == o.children@[i].height(),
        n.node_size == o.node_size,
        n.keys@ == o.keys@,
        n.values@ == o.values@,
        n.children@ == o.children@.update(i, c),
    ensures
        n.wf(cap),
        n@ == o@.insert(key, value),
        n.height() == o.height(),
{
    assert(o.keys@.len() == o.keys.len());
    assert(n.local_ok(cap));
    assert forall|j: int| 0 <= j < n.children@.len() implies {
        &&& #[trigger] n.children@[j].layout(cap)
        &&& n.children@[j].keys@.len() <= cap
        &&& n.child_in_range(j)
    } by {
        assert(o.child_in_range(j));
        if j == i {
            assert forall|k: u64| #[trigger] c.lookup(k) is Some implies {
                &&& (j > 0 ==> n.keys@[j - 1] < k)
                &&& (j < n.keys@.len() ==> k < n.keys@[j])
            } by {
                assert(c@.contains_key(k));
                if k != key {
                    assert(o.children@[i].lookup(k) is Some);
                }
            }
        }
    }
    assert forall|k: u64| #[trigger] n.lookup(k) == (if k == key { Some(value) } else { o.lookup(k) }) by {
        lemma_search(o.keys@, k);
        match search(o.keys@, k) {
            SearchResult::Found(m) => {
                lemma_lookup_slot(o, cap, m as int);
                lemma_lookup_slot(n, cap, m as int);
            },
            SearchResult::NotFound(j) => {
                let j = j as int;
                lemma_lookup_gap(o, cap, k, j);
                lemma_lookup_gap(n, cap, k, j);
                if j == i {
                    lemma_lookup_of_view(c, o.children@[i], k, key, value);
                } else {
                    assert(k != key) by {
                        if k == key {
                            if j < i {
                                assert(k < o.keys@[j]);
                                assert(o.keys@[j] <= o.keys@[i - 1]) by {
                                    if j < i - 1 {
                                        assert(o.keys@[j] < o.keys@[i - 1]);
                                    }
                                }
                            } else {
                                assert(o.keys@[j - 1] < k);
                                assert(o.keys@[i] <= o.keys@[j - 1]) by {
                                    if i < j - 1 {
                                        assert(o.keys@[i] < o.keys@[j - 1]);
                                    }
                                }
                            }
                        }
                    }
                }
            },
        }
    }
    assert(n@ =~= o@.insert(key, value));
}

/// What a lookup from a node yields, read off its view.
proof fn lemma_lookup_view<V>(x: BTreeNode<V>, k: u64)
    ensures
        x.lookup(k) == (if x@.contains_key(k) { Some(x@[k]) } else { None }),
{
}

/// When the child in whose gap `key` falls has split around `mk` after
/// taking the new pair, putting `mk` into the gap with the two halves on
/// either side of it adds the pair.
proof fn lemma_child_split<V>(
    o: BTreeNode<V>,
    n: BTreeNode<V>,
    cap: nat,
    i: int,
    key: u64,
    value: V,
    l: BTreeNode<V>,
    mk: u64,
    mv: V,
    r: BTreeNode<V>,
)
    requires
        o.wf(cap),
        o.children@.len() > 0,
        search(o.keys@, key) == SearchResult::NotFound(i as usize),
        0 <= i <= o.keys@.len(),
        i > 0 ==> o.keys@[i - 1] < key,
        i < o.keys@.len() ==> key < o.keys@[i],
        l.wf(cap),
        r.wf(cap),
        forall|k: u64| l@.contains_key(k) ==> k < mk,
        forall|k: u64| r@.contains_key(k) ==> mk < k,
        o.children@[i]@.insert(key, value) == l@.union_prefer_right(r@).insert(mk, mv),
        l.height() == o.children@[i].height(),
        r.height() == o.children@[i].height(),
        n.node_size == o.node_size,
        n.keys@ == o.keys@.insert(i, mk),
        n.values@ == o.values@.insert(i, mv),
        n.children@ == o.children@.update(i, l).insert(i + 1, r),
    ensures
        n.layout(cap),
        n.keys@.len() == o.keys@.len() + 1,
        n@ == o@.insert(key, value),
        n.height() == o.height(),
{
    lemma_child_split_layout(o, n, cap, i, key, value, l, mk, mv, r);
    assert forall|k: u64| #[trigger] n.lookup(k) == (if k == key { Some(value) } else { o.lookup(k) }) by {
        lemma_child_split_lookup(o, n, cap, i, key, value, l, mk, mv, r, k);
    }
    assert(n@ =~= o@.insert(key, value));
}

/// Everything the split child holds, the new pair included, lies in gap `i`.
proof fn lemma_child_split_gap<V>(
    o: BTreeNode<V>,
    n: BTreeNode<V>,
    cap: nat,
    i: int,
    key: u64,
    value: V,
    l: BTreeNode<V>,
    mk: u64,
    mv: V,
    r: BTreeNode<V>,
    k: u64,
)
    requires
        o.wf(cap),
        o.children@.len() > 0,
        search(o.keys@, key) == SearchResult::NotFound(i as usize),
        0 <= i <= o.keys@.len(),
        i > 0 ==> o.keys@[i - 1] < key,
        i < o.keys@.len() ==> key < o.keys@[i],
        l.wf(cap),
        r.wf(cap),
        forall|k: u64| l@.contains_key(k) ==> k < mk,
        forall|k: u64| r@.contains_key(k) ==> mk < k,
        o.children@[i]@.insert(key, value) == l@.union_prefer_right(r@).insert(mk, mv),
        l.height() == o.children@[i].height(),
        r.height() == o.children@[i].height(),
        n.node_size == o.node_size,
        n.keys@ == o.keys@.insert(i, mk),
        n.values@ == o.values@.insert(i, mv),
        n.children@ == o.children@.update(i, l).insert(i + 1, r),
        o.children@[i]@.insert(key, value).contains_key(k),
    ensures
        i > 0 ==> o.keys@[i - 1] < k,
        i < o.keys@.len() ==> k < o.keys@[i],
{
    assert(o.child_in_range(i));
    if k != key {
        lemma_lookup_view(o.children@[i], k);
    }
}

proof fn lemma_child_split_layout<V>(
    o: BTreeNode<V>,
    n: BTreeNode<V>,
    cap: nat,
    i: int,
    key: u64,
    value: V,
    l: BTreeNode<V>,
    mk: u64,
    mv: V,
    r: BTreeNode<V>,
)
    requires
        o.wf(cap),
        o.children@.len() > 0,
        search(o.keys@, key) == SearchResult::NotFound(i as usize),
        0 <= i <= o.keys@.len(),
        i > 0 ==> o.keys@[i - 1] < key,
        i < o.keys@.len() ==> key < o.keys@[i],
        l.wf(cap),
        r.wf(cap),
        forall|k: u64| l@.contains_key(k) ==> k < mk,
        forall|k: u64| r@.contains_key(k) ==> mk < k,
        o.children@[i]@.insert(key, value) == l@.union_prefer_right(r@).insert(mk, mv),
        l.height() == o.children@[i].height(),
        r.height() == o.children@[i].height(),
        n.node_size == o.node_size,
        n.keys@ == o.keys@.insert(i, mk),
        n.values@ == o.values@.insert(i, mv),
        n.children@ == o.children@.update(i, l).insert(i + 1, r),
    ensures
        n.layout(cap),
        n.keys@.len() == o.keys@.len() + 1,
{
    let big = o.children@[i]@.insert(key, value);
    assert(o.keys@.len() == o.keys.len());
    assert(big.contains_key(mk));
    lemma_child_split_gap(o, n, cap, i, key, value, l, mk, mv, r, mk);
    lemma_insert_increasing(o.keys@, i, mk);
    assert(n.local_ok(cap));
    assert forall|j: int| 0 <= j < n.children@.len() implies {
        &&& #[trigger] n.children@[j].layout(cap)
        &&& n.children@[j].keys@.len() <= cap
        &&& n.child_in_range(j)
    } by {
        if j < i {
            assert(n.children@[j] == o.children@[j]);
            assert(o.child_in_range(j));
        } else if j > i + 1 {
            assert(n.children@[j] == o.children@[j - 1]);
            assert(o.child_in_range(j - 1));
        } else if j == i {
            assert(n.children@[j] == l);
            assert forall|k: u64| #[trigger] l.lookup(k) is Some implies {
                &&& (j > 0 ==> n.keys@[j - 1] < k)
                &&& (j < n.keys@.len() ==> k < n.keys@[j])
            } by {
                lemma_lookup_view(l, k);
                assert(big.contains_key(k));
                lemma_child_split_gap(o, n, cap, i, key, value, l, mk, mv, r, k);
            }
        } else {
            assert(n.children@[j] == r);
            assert forall|k: u64| #[trigger] r.lookup(k) is Some implies {
                &&& (j > 0 ==> n.keys@[j - 1] < k)
                &&& (j < n.keys@.len() ==> k < n.keys@[j])
            } by {
                lemma_lookup_view(r, k);
                assert(big.contains_key(k));
                lemma_child_split_gap(o, n, cap, i, key, value, l, mk, mv, r, k);
            }
        }
    }
}

/// A lookup in a node's view with one pair added.
proof fn lemma_insert_lookup<V>(c: BTreeNode<V>, k: u64, key: u64, value: V)
    ensures
        (if k == key { Some(value) } else { c.lookup(k) }) == (if c@.insert(key, value).contains_key(k) {
            Some(c@.insert(key, value)[k])
        } else {
            None
        }),
{
    lemma_lookup_view(c, k);
}

/// A lookup in the pairs of two halves split around `mk`, with `mk` itself.
proof fn lemma_parts_lookup<V>(l: BTreeNode<V>, r: BTreeNode<V>, mk: u64, mv: V, k: u64, big: Map<u64, V>)
    requires
        big == l@.union_prefer_right(r@).insert(mk, mv),
        forall|x: u64| l@.contains_key(x) ==> x < mk,
        forall|x: u64| r@.contains_key(x) ==> mk < x,
    ensures
        (if big.contains_key(k) { Some(big[k]) } else { None }) == (if k == mk {
            Some(mv)
        } else if k < mk {
            l.lookup(k)
        } else {
            r.lookup(k)
        }),
{
    lemma_lookup_view(l, k);
    lemma_lookup_view(r, k);
}

#[verifier::rlimit(50)]
proof fn lemma_child_split_lookup<V>(
    o: BTreeNode<V>,
    n: BTreeNode<V>,
    cap: nat,
    i: int,
    key: u64,
    value: V,
    l: BTreeNode<V>,
    mk: u64,
    mv: V,
    r: BTreeNode<V>,
    k: u64,
)
    requires
        o.wf(cap),
        o.children@.len() > 0,
        search(o.keys@, key) == SearchResult::NotFound(i as usize),
        0 <= i <= o.keys@.len(),
        i > 0 ==> o.keys@[i - 1] < key,
        i < o.keys@.len() ==> key < o.keys@[i],
        l.wf(cap),
        r.wf(cap),
        forall|k: u64| l@.contains_key(k) ==> k < mk,
        forall|k: u64| r@.contains_key(k) ==> mk < k,
        o.children@[i]@.insert(key, value) == l@.union_prefer_right(r@).insert(mk, mv),
        l.height() == o.children@[i].height(),
        r.height() == o.children@[i].height(),
        n.node_size == o.node_size,
        n.keys@ == o.keys@.insert(i, mk),
        n.values@ == o.values@.insert(i, mv),
        n.children@ == o.children@.update(i, l).insert(i + 1, r),
        n.layout(cap),
    ensures
        n.lookup(k) == (if k == key { Some(value) } else { o.lookup(k) }),
{
    let c = o.children@[i];
    let big = c@.insert(key, value);
    assert(o.keys@.len() == o.keys.len());
    lemma_search(o.keys@, k);
    match search(o.keys@, k) {
        SearchResult::Found(m) => {
            let m = m as int;
            lemma_lookup_slot(o, cap, m);
            if m < i {
                lemma_lookup_slot(n, cap, m);
            } else {
                lemma_lookup_slot(n, cap, m + 1);
            }
        },
        SearchResult::NotFound(j) => {
            let j = j as int;
            lemma_lookup_gap(o, cap, k, j);
            if j < i {
                lemma_lookup_gap(n, cap, k, j);
                assert(n.children@[j] == o.children@[j]);
            } else if j > i {
                lemma_lookup_gap(n, cap, k, j + 1);
                assert(n.children@[j + 1] == o.children@[j]);
            } else {
                lemma_insert_lookup(c, k, key, value);
                lemma_parts_lookup(l, r, mk, mv, k, big);
                if k == mk {
                    lemma_lookup_slot(n, cap, i);
                } else if k < mk {
                    lemma_lookup_gap(n, cap, k, i);
                    assert(n.children@[i] == l);
                } else {
                    lemma_lookup_gap(n, cap, k, i + 1);
                    assert(n.children@[i + 1] == r);
                }
            }
        },
    }
}

/// Reversing a run that starts with `x` ends it with `x`.
proof fn lemma_reverse_cons(x: usize, p: Seq<usize>)
    ensures
        (seq![x] + p).reverse() == p.reverse().push(x),
{
    let s = seq![x] + p;
    assert(s.reverse() =~= p.reverse().push(x));
}

/// A search path is empty exactly when the lookup finds nothing; a path of
/// one slot names the slot of `k` in this node; a longer one starts with the
/// child that the lookup descends into.
proof fn lemma_search_path<V>(n: BTreeNode<V>, cap: nat, k: u64)
    requires
        n.layout(cap),
    ensures
        n.search_path(k).len() == 0 <==> n.lookup(k) is None,
        n.search_path(k).len() == 1 ==> search(n.keys@, k) == SearchResult::Found(n.search_path(k)[0]),
        n.search_path(k).len() > 1 ==> {
            &&& search(n.keys@, k) == SearchResult::NotFound(n.search_path(k)[0])
            &&& n.search_path(k)[0] < n.children@.len()
            &&& n.children@[n.search_path(k)[0] as int].search_path(k) == n.search_path(k).drop_first()
            &&& n.lookup(k) == n.children@[n.search_path(k)[0] as int].lookup(k)
        },
    decreases n,
{
    assert(n.keys@.len() == n.keys.len());
    lemma_lower_bound(n.keys@, k);
    match search(n.keys@, k) {
        SearchResult::Found(m) => {},
        SearchResult::NotFound(i) => {
            if (i as int) < n.children@.len() {
                let c = n.children@[i as int];
                assert(c.layout(cap));
                lemma_search_path(c, cap, k);
                let p = c.search_path(k);
                if p.len() > 0 {
                    assert((seq![i] + p).drop_first() =~= p);
                }
            }
        },
    }
}

/// A node with the single key `mk` between two halves split around it is
/// well formed, one level above them, and holds the halves' pairs and `mk`.
pub(crate) proof fn lemma_grown_root<V>(n: BTreeNode<V>, cap: nat, l: BTreeNode<V>, mk: u64, mv: V, r: BTreeNode<V>)
    requires
        cap >= 1,
        n.node_size == cap,
        n.keys@ == seq![mk],
        n.values@ == seq![mv],
        n.children@ == seq![l, r],
        l.wf(cap),
        r.wf(cap),
        forall|k: u64| l@.contains_key(k) ==> k < mk,
        forall|k: u64| r@.contains_key(k) ==> mk < k,
        r.height() == l.height(),
    ensures
        n.wf(cap),
        n@ == l@.union_prefer_right(r@).insert(mk, mv),
        n.height() == 1 + l.height(),
{
    assert(n.local_ok(cap));
    assert forall|j: int| 0 <= j < n.children@.len() implies {
        &&& #[trigger] n.children@[j].layout(cap)
        &&& n.children@[j].keys@.len() <= cap
        &&& n.child_in_range(j)
    } by {
        assert forall|k: u64| #[trigger] n.children@[j].lookup(k) is Some implies {
            &&& (j > 0 ==> n.keys@[j - 1] < k)
            &&& (j < n.keys@.len() ==> k < n.keys@[j])
        } by {
            lemma_lookup_view(n.children@[j], k);
        }
    }
    let big = l@.union_prefer_right(r@).insert(mk, mv);
    assert forall|k: u64| #[trigger] n.lookup(k) == (if big.contains_key(k) { Some(big[k]) } else { None }) by {
        lemma_parts_lookup(l, r, mk, mv, k, big);
        if k == mk {
            lemma_lookup_slot(n, cap, 0);
        } else if k < mk {
            lemma_lookup_gap(n, cap, k, 0);
        } else {
            lemma_lookup_gap(n, cap, k, 1);
        }
    }
    assert(n@ =~= big);
}

/// Every node stands at least one level high.
pub(crate) proof fn lemma_height_positive<V>(n: BTreeNode<V>)
    ensures
        n.height() >= 1,
{
}

/// Ordering: in a well-formed subtree the keys of every node strictly
/// increase, and every key under child `i` of a node lies strictly between
/// that node's keys `i - 1` and `i`.
pub proof fn lemma_ordered<V>(n: BTreeNode<V>, cap: nat)
    requires
        n.layout(cap),
    ensures
        n.ordered(),
    decreases n,
{
    assert forall|i: int| #![trigger n.children@[i]] 0 <= i < n.children@.len() implies {
        &&& n.children@[i].ordered()
        &&& forall|k: u64|
            n.children@[i]@.contains_key(k) ==> {
                &&& (i > 0 ==> n.keys@[i - 1] < k)
                &&& (i < n.keys@.len() ==> k < n.keys@[i])
            }
    } by {
        lemma_ordered(n.children@[i], cap);
        assert(n.child_in_range(i));
    }
}

/// Capacity: no node of a well-formed subtree holds more than `cap` keys.
pub proof fn lemma_within_capacity<V>(n: BTreeNode<V>, cap: nat)
    requires
        n.wf(cap),
    ensures
        n.within_capacity(cap),
    decreases n,
{
    assert forall|i: int| #![trigger n.children@[i]] 0 <= i < n.children@.len() implies n.children@[i].within_capacity(cap) by {
        lemma_within_capacity(n.children@[i], cap);
    }
}

/// The view of a well-formed subtree holds every pair stored in it: the
/// pairs of the node itself, and everything in the view of each child. (By
/// the definition of `lookup` it holds nothing else.)
pub proof fn lemma_view_holds_stored_pairs<V>(n: BTreeNode<V>, cap: nat)
    requires
        n.layout(cap),
    ensures
        forall|j: int|
            #![trigger n.keys@[j]]
            0 <= j < n.keys@.len() ==> n@.contains_key(n.keys@[j]) && n@[n.keys@[j]] == n.values@[j],
        forall|i: int, k: u64|
            0 <= i < n.children@.len() && #[trigger] n.children@[i]@.contains_key(k) ==> n@.contains_key(k)
                && n@[k] == n.children@[i]@[k],
{
    assert forall|j: int| #![trigger n.keys@[j]] 0 <= j < n.keys@.len() implies n@.contains_key(n.keys@[j])
        && n@[n.keys@[j]] == n.values@[j] by {
        lemma_lookup_slot(n, cap, j);
    }
    assert forall|i: int, k: u64|
        0 <= i < n.children@.len() && #[trigger] n.children@[i]@.contains_key(k) implies n@.contains_key(k)
            && n@[k] == n.children@[i]@[k] by {
        assert(n.child_in_range(i));
        lemma_lookup_gap(n, cap, k, i);
    }
}

impl<V> BTreeNode<V> {
    /// An empty leaf of a tree whose nodes hold at most `node_size` keys.
    pub fn new(node_size: usize) -> (r: BTreeNode<V>)
        ensures
            r.node_size == node_size,
            r.keys@.len() == 0,
            r.children@.len() == 0,
            r.wf(node_size as nat),
            r@ == Map::<u64, V>::empty(),
    {
        let r = BTreeNode { node_size, keys: Vec::new(), values: Vec::new(), children: Vec::new() };
        assert(r@ =~= Map::<u64, V>::empty());
        r
    }

    /// The search path for `key` (see `search_path`), listed from the slot
    /// at its end back up to the root's choice; empty when `key` is absent.
    pub fn generate_find_path(&self, key: &u64) -> (r: Vec<usize>)
        requires
            self.layout(self.node_size as nat),
        ensures
            r@ == self.search_path(*key).reverse(),
    {
        let ghost cap = self.node_size as nat;
        let mut stack: Vec<usize> = Vec::new();
        let mut current = self;
        loop
            invariant_except_break
                self.search_path(*key).reverse() == (if current.search_path(*key).len() == 0 {
                    Seq::<usize>::empty()
                } else {
                    current.search_path(*key).reverse() + stack@
                }),
            invariant
                current.layout(cap),
            ensures
                stack@ == self.search_path(*key).reverse(),
            decreases current.descent(*key),
        {
            proof {
                assert(current.keys@.len() == current.keys.len());
                lemma_lower_bound(current.keys@, *key);
            }
            match Self::find_it(&current.keys, key) {
                SearchResult::Found(m) => {
                    let ghost before = stack@;
                    stack.insert(0, m);
                    proof {
                        assert(seq![m].reverse() =~= seq![m]);
                        assert(stack@ =~= seq![m] + before);
                    }
                    break;
                },
                SearchResult::NotFound(i) => {
                    if i < current.children.len() {
                        let ghost p = current.children@[i as int].search_path(*key);
                        proof {
                            assert(current.children@[i as int].layout(cap));
                            if p.len() > 0 {
                                lemma_reverse_cons(i, p);
                            }
                        }
                        let ghost before = stack@;
                        stack.insert(0, i);
                        proof {
                            assert(stack@ =~= seq![i] + before);
                            assert(p.reverse().push(i) + before =~= p.reverse() + stack@);
                        }
                        current = &current.children[i];
                    } else {
                        stack.clear();
                        proof {
                            assert(stack@ =~= Seq::<usize>::empty());
                        }
                        break;
                    }
                },
            }
        }
        stack
    }

    /// The value stored under `key` in the subtree under this node, read at
    /// the end of the search path for `key`.
    pub fn find(&self, key: &u64) -> (r: Option<&V>)
        requires
            self.layout(self.node_size as nat),
        ensures
            r is Some <==> self@.contains_key(*key),
            r matches Some(v) ==> *v == self@[*key],
    {
        let ghost cap = self.node_size as nat;
        let mut path = self.generate_find_path(key);
        proof {
            lemma_search_path(*self, cap, *key);
        }
        if path.len() == 0 {
            return None;
        }
        let mut current = self;
        let mut key_index: usize = 0;
        loop
            invariant_except_break
                path@.len() > 0,
                path@ == current.search_path(*key).reverse(),
            invariant
                current.layout(cap),
                current.lookup(*key) == self.lookup(*key),
            ensures
                key_index < current.keys@.len(),
                current.keys@[key_index as int] == *key,
                current.lookup(*key) == Some(current.values@[key_index as int]),
            decreases path@.len(),
        {
            let ghost sp = current.search_path(*key);
            proof {
                lemma_search_path(*current, cap, *key);
                assert(sp =~= seq![sp[0]] + sp.drop_first());
                lemma_reverse_cons(sp[0], sp.drop_first());
            }
            let index = path.pop().unwrap();
            if path.len() == 0 {
                key_index = index;
                proof {
                    assert(sp.len() == 1);
                    assert(current.keys@.len() == current.keys.len());
                    lemma_search(current.keys@, *key);
                    lemma_lookup_slot(*current, cap, index as int);
                }
                break;
            }
            proof {
                assert(current.children@[index as int].layout(cap));
            }
            current = &current.children[index];
        }
        if current.keys[key_index] == *key {
            Some(&current.values[key_index])
        } else {
            None
        }
    }

    /// Binary search for `key` in a strictly increasing run of keys.
    pub fn find_it(keys: &Vec<u64>, key: &u64) -> (r: SearchResult)
        requires
            strictly_increasing(keys@),
        ensures
            r == search(keys@, *key),
    {
        let mut low: usize = 0;
        let mut high: usize = keys.len();
        proof {
            lemma_lower_bound(keys@, *key);
        }
        while high != low
            invariant
                low <= high <= keys.len(),
                strictly_increasing(keys@),
                forall|j: int| 0 <= j < low ==> keys@[j] < *key,
                forall|j: int| high <= j < keys.len() ==> *key < keys@[j],
                lower_bound(keys@, *key) <= keys.len(),
                forall|j: int| 0 <= j < lower_bound(keys@, *key) ==> keys@[j] < *key,
                forall|j: int| lower_bound(keys@, *key) <= j < keys.len() ==> *key <= keys@[j],
            decreases high - low,
        {
            let mid = low + (high - low) / 2;
            if *key < keys[mid] {
                high = mid;
            } else if *key > keys[mid] {
                low = mid + 1;
            } else {
                proof {
                    let b = lower_bound(keys@, *key) as int;
                    if b < mid {
                        assert(keys@[b] < keys@[mid as int]);
                    } else if b > mid {
                        assert(keys@[mid as int] < *key);
                    }
                }
                return SearchResult::Found(mid);
            }
        }
        proof {
            let b = lower_bound(keys@, *key) as int;
            if b < low {
                assert(keys@[b] < *key);
            } else if b > low {
                assert(keys@[low as int] < *key);
            }
        }
        SearchResult::NotFound(low)
    }

    /// Inserts `key` with `value` into the subtree under this node; a key
    /// that is already present, in any node, gets the new value. A new key
    /// goes into the leaf where a search for it ends (a node is a leaf when
    /// it has no children; an inner node always has one child more than it
    /// has keys, since a split divides the children along with the keys).
    /// When a child splits, its middle pair moves into this node next to it.
    /// When this node then holds one key more than its capacity, it splits
    /// in turn and hands back the middle pair and the new upper sibling, for
    /// the caller to place.
    pub fn add_recursive(&mut self, key: u64, value: V) -> (r: Option<(u64, V, BTreeNode<V>)>)
        requires
            old(self).wf(old(self).node_size as nat),
        ensures
            final(self).node_size == old(self).node_size,
            final(self).wf(old(self).node_size as nat),
            final(self).height() == old(self).height(),
            match r {
                None => final(self)@ == old(self)@.insert(key, value),
                Some(t) => {
                    &&& t.2.wf(old(self).node_size as nat)
                    &&& t.2.height() == old(self).height()
                    &&& forall|k: u64| final(self)@.contains_key(k) ==> k < t.0
                    &&& forall|k: u64| t.2@.contains_key(k) ==> t.0 < k
                    &&& old(self)@.insert(key, value) == final(self)@.union_prefer_right(t.2@).insert(
                        t.0,
                        t.1,
                    )
                },
            },
            old(self).children@.len() == 0 ==> {
                &&& final(self).children@.len() == 0
                &&& (r is Some <==> old(self).keys@.len() == old(self).node_size
                    && !old(self)@.contains_key(key))
                &&& (r matches Some(t) ==> t.2.children@.len() == 0)
                &&& (r is None ==> final(self).keys@.len() == old(self).keys@.len() + if old(
                    self,
                )@.contains_key(key) {
                    0int
                } else {
                    1int
                })
            },
        decreases *old(self),
    {
        let ghost o = *self;
        let ghost cap = self.node_size as nat;
        proof {
            assert(o.keys@.len() == o.keys.len());
            lemma_search(o.keys@, key);
        }
        match Self::find_it(&self.keys, &key) {
            SearchResult::Found(m) => {
                self.values.set(m, value);
                proof {
                    lemma_value_replaced(o, *self, cap, m as int, key, value);
                    lemma_lookup_slot(o, cap, m as int);
                }
                return None;
            },
            SearchResult::NotFound(i) => {
                if self.children.len() == 0 {
                    self.keys.insert(i, key);
                    self.values.insert(i, value);
                    proof {
                        lemma_leaf_insert(o, *self, cap, i as int, key, value);
                        lemma_lookup_leaf_gap(o, cap, key, i as int);
                    }
                } else {
                    proof {
                        assert(o.children@[i as int].layout(cap));
                    }
                    let split_child = self.children[i].add_recursive(key, value);
                    match split_child {
                        None => {
                            proof {
                                lemma_child_replaced(o, *self, cap, i as int, key, value, self.children@[i as int]);
                            }
                        },
                        Some((mid_key, mid_value, right)) => {
                            let ghost left = self.children@[i as int];
                            self.children.insert(i + 1, right);
                            self.keys.insert(i, mid_key);
                            self.values.insert(i, mid_value);
                            proof {
                                lemma_child_split(o, *self, cap, i as int, key, value, left, mid_key, mid_value, right);
                            }
                        },
                    }
                }
            },
        }
        if self.keys.len() > self.node_size {
            Some(self.split())
        } else {
            None
        }
    }

    /// Splits a node that holds one key more than its capacity. This node
    /// keeps the keys before the middle one; the middle pair is handed back
    /// to move up to the parent, together with a new sibling that takes the
    /// keys after it and the children to the right of it.
    pub fn split(&mut self) -> (r: (u64, V, BTreeNode<V>))
        requires
            old(self).layout(old(self).node_size as nat),
            old(self).keys@.len() == old(self).node_size + 1,
        ensures
            ({
                let cap = old(self).node_size as nat;
                let mid = (old(self).keys@.len() / 2) as int;
                let len = old(self).keys@.len() as int;
                &&& r.0 == old(self).keys@[mid]
                &&& r.1 == old(self).values@[mid]
                &&& final(self).keys@ == old(self).keys@.subrange(0, mid)
                &&& final(self).values@ == old(self).values@.subrange(0, mid)
                &&& r.2.keys@ == old(self).keys@.subrange(mid + 1, len)
                &&& r.2.values@ == old(self).values@.subrange(mid + 1, len)
                &&& (old(self).children@.len() == 0 ==> final(self).children@.len() == 0
                    && r.2.children@.len() == 0)
                &&& (old(self).children@.len() > 0 ==> final(self).children@
                    == old(self).children@.subrange(0, mid + 1) && r.2.children@
                    == old(self).children@.subrange(mid + 1, len + 1))
                &&& final(self).wf(cap)
                &&& r.2.wf(cap)
                &&& forall|k: u64| final(self)@.contains_key(k) ==> k < r.0
                &&& forall|k: u64| r.2@.contains_key(k) ==> r.0 < k
                &&& old(self)@ == final(self)@.union_prefer_right(r.2@).insert(r.0, r.1)
                &&& final(self).height() == old(self).height()
                &&& r.2.height() == old(self).height()
            }),
    {
        let ghost o = *self;
        let mid = self.keys.len() / 2;
        let mut right_keys = self.keys.split_off(mid);
        let mid_key = right_keys.remove(0);
        let mut right_values = self.values.split_off(mid);
        let mid_value = right_values.remove(0);
        let right_children = if self.children.len() == 0 {
            Vec::new()
        } else {
            self.children.split_off(mid + 1)
        };
        let right = BTreeNode {
            node_size: self.node_size,
            keys: right_keys,
            values: right_values,
            children: right_children,
        };
        proof {
            assert(right.keys@ =~= o.keys@.subrange(mid + 1, o.keys@.len() as int));
            assert(right.values@ =~= o.values@.subrange(mid + 1, o.values@.len() as int));
            lemma_split_halves(o, *self, right, o.node_size as nat, mid as int);
        }
        (mid_key, mid_value, right)
    }
}

} // verus!
