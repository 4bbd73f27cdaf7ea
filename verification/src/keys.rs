//! Sorted, duplicate-free sequences of integer keys.
//!
//! Cells are ordered and found again by their post-order numbers, so sets
//! of cells are kept as strictly increasing vectors of those numbers.

use vstd::prelude::*;
use vstd::seq_lib::to_multiset_contains;

verus! {

/// Every key is smaller than the keys after it.
pub open spec fn strictly_increasing(keys: Seq<u64>) -> bool {
    forall|i: int, j: int| 0 <= i < j < keys.len() ==> keys[i] < keys[j]
}

/// Every key is at most the keys after it.
pub open spec fn nondecreasing(keys: Seq<u64>) -> bool {
    forall|i: int, j: int| 0 <= i < j < keys.len() ==> keys[i] <= keys[j]
}

/// Sort keys into nondecreasing order.
///
/// Calls std's `slice::sort_unstable` on `u64` keys. The contract claims what
/// std documents for it: the keys afterwards are the same keys, each as often
/// as before, in nondecreasing order.
#[verifier::external_body]
fn sort_keys(keys: &mut Vec<u64>)
    ensures
        final(keys)@.to_multiset() == old(keys)@.to_multiset(),
        nondecreasing(final(keys)@),
{
    keys.sort_unstable();
}

/// The distinct keys of `keys`, in increasing order.
pub fn sorted_distinct(keys: Vec<u64>) -> (r: Vec<u64>)
    ensures
        strictly_increasing(r@),
        r@.to_set() == keys@.to_set(),
        r@.len() <= keys@.len(),
{
    let mut sorted = keys;
    let ghost original = sorted@;
    sort_keys(&mut sorted);
    proof {
        assert forall|k: u64| #[trigger] sorted@.contains(k) <==> original.contains(k) by {
            to_multiset_contains(sorted@, k);
            to_multiset_contains(original, k);
        }
    }
    let mut result: Vec<u64> = Vec::new();
    let n = sorted.len();
    let mut i: usize = 0;
    while i < n
        invariant
            n == sorted@.len(),
            i <= n,
            nondecreasing(sorted@),
            strictly_increasing(result@),
            result@.len() <= i,
            forall|k: u64| #[trigger] result@.contains(k) <==> sorted@.take(i as int).contains(k),
            result@.len() > 0 ==> i > 0 && result@.last() == sorted@[i - 1],
        decreases n - i,
    {
        let key = sorted[i];
        let ghost previous = sorted@.take(i as int);
        let ghost before = result@;
        if result.len() == 0 || result[result.len() - 1] != key {
            proof {
                if result@.len() > 0 {
                    assert(result@.last() <= key);
                }
                assert forall|a: int, b: int| 0 <= a < b < result@.len() + 1 implies result@.push(
                    key,
                )[a] < result@.push(key)[b] by {
                    if b == result@.len() as int {
                        assert(result@[a] <= result@.last());
                    }
                }
            }
            result.push(key);
        }
        proof {
            let next = sorted@.take(i + 1);
            assert(next =~= previous.push(key));
            assert(result@.len() > 0 && result@.last() == key);
            assert(result@[result@.len() - 1] == key);
            assert(next[i as int] == key);
            assert(result@ == before || result@ == before.push(key));
            assert forall|k: u64| #[trigger] result@.contains(k) <==> next.contains(k) by {
                if k != key {
                    if next.contains(k) {
                        let j = choose|j: int| 0 <= j < next.len() && next[j] == k;
                        assert(previous[j] == k);
                        assert(previous.contains(k));
                        assert(before.contains(k));
                        let m = choose|m: int| 0 <= m < before.len() && before[m] == k;
                        assert(result@[m] == k);
                    }
                    if result@.contains(k) {
                        let j = choose|j: int| 0 <= j < result@.len() && result@[j] == k;
                        assert(j < before.len());
                        assert(before[j] == k);
                        assert(before.contains(k));
                        assert(previous.contains(k));
                        let m = choose|m: int| 0 <= m < previous.len() && previous[m] == k;
                        assert(next[m] == k);
                    }
                }
            }
        }
        i += 1;
    }
    proof {
        assert(sorted@.len() == original.len()) by {
            vstd::seq_lib::to_multiset_len(sorted@);
            vstd::seq_lib::to_multiset_len(original);
        }
        assert(sorted@.take(n as int) =~= sorted@);
        assert(result@.to_set() =~= original.to_set());
    }
    result
}

/// Whether a strictly increasing sequence holds `key`, by binary search.
pub fn contains_key(keys: &Vec<u64>, key: u64) -> (r: bool)
    requires
        strictly_increasing(keys@),
    ensures
        r == keys@.contains(key),
{
    let mut low: usize = 0;
    let mut high: usize = keys.len();
    while low < high
        invariant
            low <= high <= keys@.len(),
            strictly_increasing(keys@),
            forall|j: int| 0 <= j < low ==> keys@[j] < key,
            forall|j: int| high <= j < keys@.len() ==> keys@[j] > key,
        decreases high - low,
    {
        let middle = low + (high - low) / 2;
        if keys[middle] == key {
            return true;
        } else if keys[middle] < key {
            low = middle + 1;
        } else {
            high = middle;
        }
    }
    false
}

} // verus!
