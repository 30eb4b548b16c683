//! Searching a strictly increasing run of keys.
use vstd::prelude::*;

verus! {

/// Outcome of a binary search over the keys of one node.
#[derive(PartialEq, Eq, Structural, Clone, Copy, Debug)]
pub enum SearchResult {
    /// The key sits at this slot.
    Found(usize),
    /// The key is absent; this is the slot where it would be inserted.
    NotFound(usize),
}

/// Every key is smaller than the one after it.
pub open spec fn strictly_increasing(s: Seq<u64>) -> bool {
    forall|i: int, j: int| 0 <= i < j < s.len() ==> s[i] < s[j]
}

/// The number of leading keys that are smaller than `k`.
pub open spec fn lower_bound(s: Seq<u64>, k: u64) -> nat
    decreases s.len(),
{
    if s.len() == 0 || k <= s[0] {
        0
    } else {
        1 + lower_bound(s.drop_first(), k)
    }
}

/// What a search for `k` in `s` reports: the slot of `k`, or where it belongs.
pub open spec fn search(s: Seq<u64>, k: u64) -> SearchResult {
    let i = lower_bound(s, k);
    if i < s.len() && s[i as int] == k {
        SearchResult::Found(i as usize)
    } else {
        SearchResult::NotFound(i as usize)
    }
}

/// In a strictly increasing run, `lower_bound` splits the run into the keys
/// below `k` and those at or above it.
pub proof fn lemma_lower_bound(s: Seq<u64>, k: u64)
    requires
        strictly_increasing(s),
    ensures
        lower_bound(s, k) <= s.len(),
        forall|j: int| 0 <= j < lower_bound(s, k) ==> s[j] < k,
        forall|j: int| lower_bound(s, k) <= j < s.len() ==> k <= s[j],
    decreases s.len(),
{
    if s.len() > 0 && k > s[0] {
        let t = s.drop_first();
        assert(strictly_increasing(t)) by {
            assert forall|i: int, j: int| 0 <= i < j < t.len() implies t[i] < t[j] by {
                assert(s[i + 1] < s[j + 1]);
            }
        }
        lemma_lower_bound(t, k);
        assert forall|j: int| 0 <= j < lower_bound(s, k) implies s[j] < k by {
            if j > 0 {
                assert(s[j] == t[j - 1]);
            }
        }
        assert forall|j: int| lower_bound(s, k) <= j < s.len() implies k <= s[j] by {
            assert(s[j] == t[j - 1]);
        }
    } else if s.len() > 0 {
        assert forall|j: int| 0 <= j < s.len() implies k <= s[j] by {
            if j > 0 {
                assert(s[0] < s[j]);
            }
        }
    }
}

/// The one slot that splits a strictly increasing run around `k` is its
/// `lower_bound`.
pub proof fn lemma_lower_bound_at(s: Seq<u64>, k: u64, i: int)
    requires
        strictly_increasing(s),
        0 <= i <= s.len(),
        forall|j: int| 0 <= j < i ==> s[j] < k,
        forall|j: int| i <= j < s.len() ==> k <= s[j],
    ensures
        lower_bound(s, k) == i,
{
    lemma_lower_bound(s, k);
    let b = lower_bound(s, k) as int;
    if b < i {
        assert(s[b] < k);
    } else if b > i {
        assert(s[i] < k);
    }
}

/// In a strictly increasing run, a search finds exactly the keys of the run,
/// and otherwise reports the slot between the smaller and the larger keys.
pub proof fn lemma_search(s: Seq<u64>, k: u64)
    requires
        strictly_increasing(s),
        s.len() <= usize::MAX,
    ensures
        match search(s, k) {
            SearchResult::Found(m) => m < s.len() && s[m as int] == k,
            SearchResult::NotFound(i) => {
                &&& i <= s.len()
                &&& !s.contains(k)
                &&& forall|j: int| 0 <= j < i ==> s[j] < k
                &&& forall|j: int| i <= j < s.len() ==> k < s[j]
            },
        },
{
    lemma_lower_bound(s, k);
    let i = lower_bound(s, k) as int;
    if !(i < s.len() && s[i] == k) {
        assert forall|j: int| i <= j < s.len() implies k < s[j] by {
            if j > i {
                assert(s[i] < s[j]);
            }
        }
        assert(!s.contains(k)) by {
            if s.contains(k) {
                let j = choose|j: int| 0 <= j < s.len() && s[j] == k;
                assert(s[j] == k);
            }
        }
    }
}

} // verus!
