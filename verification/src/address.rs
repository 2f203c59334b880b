//! Pairs of addresses, and what it takes for them to belong to boxes and
//! handles that share nothing.

use crate::line::{debug_ptr, report_line};
use vstd::prelude::*;

verus! {

/// The two addresses of one box: where its handle is stored, and where the
/// value that the handle owns lives on the heap.
#[derive(Clone, Copy, Debug, PartialEq, Eq, Structural)]
pub struct AddressPair {
    /// The address of the handle's own slot.
    pub root: usize,
    /// The address of the heap allocation that the handle owns.
    pub ptr: usize,
}

impl AddressPair {
    /// Both addresses are real and the handle does not sit in its own box.
    pub open spec fn is_live(self) -> bool {
        self.root != 0 && self.ptr != 0 && self.root != self.ptr
    }

    /// No address of `self` is an address of `other`.
    pub open spec fn apart_from(self, other: AddressPair) -> bool {
        &&& self.root != other.root
        &&& self.root != other.ptr
        &&& self.ptr != other.root
        &&& self.ptr != other.ptr
    }

    /// The pair for a handle at `root` that owns the box at `ptr`.
    pub fn new(root: usize, ptr: usize) -> (pair: AddressPair)
        ensures
            pair.root == root,
            pair.ptr == ptr,
    {
        AddressPair { root, ptr }
    }

    /// The line that reports this pair.
    pub fn line(&self) -> (line: String)
        ensures
            line@ == report_line(self.root as nat, self.ptr as nat),
    {
        debug_ptr(self.ptr, self.root)
    }
}

/// Every address in `pairs` is non-zero, and no two of them are equal,
/// whether they are handles' or boxes'.
pub open spec fn distinct_nonzero(pairs: Seq<AddressPair>) -> bool {
    &&& forall|i: int| 0 <= i < pairs.len() ==> (#[trigger] pairs[i]).is_live()
    &&& forall|i: int, j: int|
        0 <= i < j < pairs.len() ==> (#[trigger] pairs[i]).apart_from(#[trigger] pairs[j])
}

/// `pair` is live and shares no address with any of `pairs`.
pub open spec fn is_fresh(pairs: Seq<AddressPair>, pair: AddressPair) -> bool {
    &&& pair.is_live()
    &&& forall|i: int| 0 <= i < pairs.len() ==> (#[trigger] pairs[i]).apart_from(pair)
}

/// Adding a pair keeps all addresses distinct and non-zero exactly when
/// they were so before and the new pair is fresh.
pub proof fn lemma_push_fresh(pairs: Seq<AddressPair>, pair: AddressPair)
    ensures
        distinct_nonzero(pairs.push(pair)) <==> distinct_nonzero(pairs) && is_fresh(pairs, pair),
{
    let more = pairs.push(pair);
    let last = pairs.len() as int;
    if distinct_nonzero(more) {
        assert(more[last] == pair);
        assert forall|i: int| 0 <= i < pairs.len() implies (#[trigger] pairs[i]).is_live() by {
            assert(more[i] == pairs[i]);
        }
        assert forall|i: int, j: int| 0 <= i < j < pairs.len() implies (#[trigger] pairs[i]).apart_from(
            #[trigger] pairs[j],
        ) by {
            assert(more[i] == pairs[i] && more[j] == pairs[j]);
        }
        assert forall|i: int| 0 <= i < pairs.len() implies (#[trigger] pairs[i]).apart_from(
            pair,
        ) by {
            assert(more[i] == pairs[i]);
        }
    }
    if distinct_nonzero(pairs) && is_fresh(pairs, pair) {
        assert forall|i: int| 0 <= i < more.len() implies (#[trigger] more[i]).is_live() by {
            if i < last {
                assert(more[i] == pairs[i]);
            }
        }
        assert forall|i: int, j: int| 0 <= i < j < more.len() implies (#[trigger] more[i]).apart_from(
            #[trigger] more[j],
        ) by {
            assert(more[i] == pairs[i]);
            if j < last {
                assert(more[j] == pairs[j]);
            }
        }
    }
}

/// Whether `pair` is live and shares no address with any of `pairs`.
pub fn is_fresh_among(pairs: &Vec<AddressPair>, pair: AddressPair) -> (fresh: bool)
    ensures
        fresh == is_fresh(pairs@, pair),
{
    if pair.root == 0 || pair.ptr == 0 || pair.root == pair.ptr {
        return false;
    }
    let mut i: usize = 0;
    while i < pairs.len()
        invariant
            i <= pairs.len(),
            pair.is_live(),
            forall|k: int| 0 <= k < i ==> (#[trigger] pairs@[k]).apart_from(pair),
        decreases pairs.len() - i,
    {
        let seen = pairs[i];
        if seen.root == pair.root || seen.root == pair.ptr || seen.ptr == pair.root || seen.ptr
            == pair.ptr {
            return false;
        }
        i = i + 1;
    }
    true
}

/// Whether every address in `pairs` is non-zero and no two of them are
/// equal.
pub fn are_distinct_nonzero(pairs: &Vec<AddressPair>) -> (ok: bool)
    ensures
        ok == distinct_nonzero(pairs@),
{
    let mut seen: Vec<AddressPair> = Vec::new();
    let mut i: usize = 0;
    while i < pairs.len()
        invariant
            i <= pairs.len(),
            seen@ == pairs@.take(i as int),
            distinct_nonzero(seen@),
        decreases pairs.len() - i,
    {
        let pair = pairs[i];
        proof {
            lemma_push_fresh(seen@, pair);
        }
        if !is_fresh_among(&seen, pair) {
            proof {
                if distinct_nonzero(pairs@) {
                    lemma_prefix_distinct(pairs@, i + 1);
                }
            }
            return false;
        }
        seen.push(pair);
        i = i + 1;
    }
    assert(pairs@.take(i as int) =~= pairs@);
    true
}

/// What holds of all pairs holds of the first `n` of them.
pub proof fn lemma_prefix_distinct(pairs: Seq<AddressPair>, n: int)
    requires
        0 <= n <= pairs.len(),
        distinct_nonzero(pairs),
    ensures
        distinct_nonzero(pairs.take(n)),
{
    let head = pairs.take(n);
    assert forall|i: int| 0 <= i < head.len() implies (#[trigger] head[i]).is_live() by {
        assert(head[i] == pairs[i]);
    }
    assert forall|i: int, j: int| 0 <= i < j < head.len() implies (#[trigger] head[i]).apart_from(
        #[trigger] head[j],
    ) by {
        assert(head[i] == pairs[i] && head[j] == pairs[j]);
    }
}

} // verus!
