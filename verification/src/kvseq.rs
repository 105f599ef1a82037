//! Sequences of key-value pairs with unique keys, used as the mathematical
//! model of every association this crate maintains: token counts, weighted
//! profiles, and the name-keyed profile tables.

use vstd::prelude::*;

verus! {

/// Position of the first pair whose key is `k`, or `-1` if no pair has it.
pub open spec fn find_pos<K, V>(s: Seq<(K, V)>, k: K) -> int
    decreases s.len(),
{
    if s.len() == 0 {
        -1
    } else if s[0].0 == k {
        0
    } else if find_pos(s.drop_first(), k) == -1 {
        -1
    } else {
        1 + find_pos(s.drop_first(), k)
    }
}

/// `find_pos` returns either `-1` with no pair holding the key, or the first
/// position that holds it.
pub proof fn lemma_find_pos<K, V>(s: Seq<(K, V)>, k: K)
    ensures
        find_pos(s, k) == -1 ==> forall|j: int| 0 <= j < s.len() ==> (#[trigger] s[j]).0 != k,
        find_pos(s, k) != -1 ==> 0 <= find_pos(s, k) < s.len() && s[find_pos(s, k)].0 == k
            && forall|j: int| 0 <= j < find_pos(s, k) ==> (#[trigger] s[j]).0 != k,
    decreases s.len(),
{
    if s.len() > 0 && s[0].0 != k {
        lemma_find_pos(s.drop_first(), k);
        assert forall|j: int| 0 <= j < s.len() && find_pos(s, k) == -1 implies (#[trigger] s[j]).0
            != k by {
            if j > 0 {
                assert(s.drop_first()[j - 1] == s[j]);
            }
        }
        if find_pos(s, k) != -1 {
            let p = find_pos(s.drop_first(), k);
            assert(s.drop_first()[p] == s[p + 1]);
            assert forall|j: int| 0 <= j < find_pos(s, k) implies (#[trigger] s[j]).0 != k by {
                if j > 0 {
                    assert(s.drop_first()[j - 1] == s[j]);
                }
            }
        }
    }
}

/// A scan that stopped at the first matching position computed `find_pos`.
pub proof fn lemma_find_pos_is_first<K, V>(s: Seq<(K, V)>, k: K, i: int)
    requires
        0 <= i < s.len(),
        s[i].0 == k,
        forall|j: int| 0 <= j < i ==> (#[trigger] s[j]).0 != k,
    ensures
        find_pos(s, k) == i,
    decreases s.len(),
{
    if i > 0 {
        assert forall|j: int| 0 <= j < i - 1 implies (#[trigger] s.drop_first()[j]).0 != k by {
            assert(s.drop_first()[j] == s[j + 1]);
        }
        assert(s.drop_first()[i - 1] == s[i]);
        lemma_find_pos_is_first(s.drop_first(), k, i - 1);
    }
}

/// A scan that found no matching position computed `find_pos == -1`.
pub proof fn lemma_find_pos_absent<K, V>(s: Seq<(K, V)>, k: K)
    requires
        forall|j: int| 0 <= j < s.len() ==> (#[trigger] s[j]).0 != k,
    ensures
        find_pos(s, k) == -1,
    decreases s.len(),
{
    if s.len() > 0 {
        assert forall|j: int| 0 <= j < s.len() - 1 implies (#[trigger] s.drop_first()[j]).0
            != k by {
            assert(s.drop_first()[j] == s[j + 1]);
        }
        lemma_find_pos_absent(s.drop_first(), k);
    }
}

/// Keys are pairwise distinct.
pub open spec fn unique_keys<K, V>(s: Seq<(K, V)>) -> bool {
    forall|i: int, j: int| 0 <= i < j < s.len() ==> (#[trigger] s[i]).0 != (#[trigger] s[j]).0
}

} // verus!
