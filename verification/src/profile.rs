//! A bounded frequency profile: a fixed-capacity association from token index
//! to an accumulated signed weight. Feeding a weight into a full profile
//! evicts the entry with the smallest current weight.

use vstd::prelude::*;
use crate::kvseq::{find_pos, lemma_find_pos, lemma_find_pos_is_first, lemma_find_pos_absent,
    unique_keys};

verus! {

/// An integer clamped to the range of `i64`.
pub open spec fn sat_i64(x: int) -> int {
    if x > i64::MAX as int {
        i64::MAX as int
    } else if x < i64::MIN as int {
        i64::MIN as int
    } else {
        x
    }
}

/// Saturating addition on `i64`.
pub fn sat_add_i64(a: i64, b: i64) -> (r: i64)
    ensures
        r as int == sat_i64(a as int + b as int),
{
    if b >= 0 {
        if a > i64::MAX - b {
            i64::MAX
        } else {
            a + b
        }
    } else {
        if a < i64::MIN - b {
            i64::MIN
        } else {
            a + b
        }
    }
}

/// The weight recorded for `idx`, `0` when no entry holds it.
pub open spec fn weight_of(s: Seq<(int, int)>, idx: int) -> int {
    let p = find_pos(s, idx);
    if p == -1 {
        0
    } else {
        s[p].1
    }
}

/// The entries after feeding `amt` into the weight at `idx`: the existing
/// entry is increased (saturating), or a fresh entry is appended.
pub open spec fn weight_bump(s: Seq<(int, int)>, idx: int, amt: int) -> Seq<(int, int)> {
    let p = find_pos(s, idx);
    if p == -1 {
        s.push((idx, sat_i64(amt)))
    } else {
        s.update(p, (idx, sat_i64(s[p].1 + amt)))
    }
}

/// The first position holding the smallest weight.
pub open spec fn min_pos(s: Seq<(int, int)>) -> int
    recommends
        s.len() > 0,
    decreases s.len(),
{
    if s.len() <= 1 {
        0
    } else {
        let p = min_pos(s.drop_first()) + 1;
        if s[0].1 <= s[p].1 {
            0
        } else {
            p
        }
    }
}

/// `min_pos` lies in range, holds a weight no larger than any other, and is
/// the first position to do so.
pub proof fn lemma_min_pos(s: Seq<(int, int)>)
    requires
        s.len() > 0,
    ensures
        0 <= min_pos(s) < s.len(),
        forall|j: int| 0 <= j < s.len() ==> s[min_pos(s)].1 <= (#[trigger] s[j]).1,
        forall|j: int| 0 <= j < min_pos(s) ==> (#[trigger] s[j]).1 > s[min_pos(s)].1,
    decreases s.len(),
{
    if s.len() > 1 {
        lemma_min_pos(s.drop_first());
        assert forall|j: int| 0 <= j < s.len() implies s[min_pos(s)].1 <= (#[trigger] s[j]).1 by {
            if j > 0 {
                assert(s.drop_first()[j - 1] == s[j]);
                assert(s.drop_first()[min_pos(s.drop_first())] == s[min_pos(s.drop_first()) + 1]);
            }
        }
        assert forall|j: int| 0 <= j < min_pos(s) implies (#[trigger] s[j]).1 > s[min_pos(s)].1 by {
            if j > 0 {
                assert(s.drop_first()[j - 1] == s[j]);
            }
        }
    }
}

/// The full effect of one `add` on a profile with capacity `cap`: bump the
/// weight at `idx`, then, if the profile outgrew its capacity, drop the first
/// entry with the smallest weight.
pub open spec fn profile_add(s: Seq<(int, int)>, idx: int, amt: int, cap: int) -> Seq<(int, int)> {
    let u = weight_bump(s, idx, amt);
    if u.len() <= cap {
        u
    } else {
        u.remove(min_pos(u))
    }
}

/// A profile never holds more than its capacity of distinct entries, whatever
/// is fed into it.
pub proof fn lemma_profile_capacity(s: Seq<(int, int)>, idx: int, amt: int, cap: int)
    requires
        s.len() <= cap,
        1 <= cap,
    ensures
        profile_add(s, idx, amt, cap).len() <= cap,
{
    let u = weight_bump(s, idx, amt);
    lemma_find_pos(s, idx);
    if u.len() > cap {
        lemma_min_pos(u);
    }
}

/// Every index present after an `add` is the added index or one that was
/// already present.
pub proof fn lemma_profile_add_indices(s: Seq<(int, int)>, idx: int, amt: int, cap: int)
    ensures
        forall|k: int| 0 <= k < profile_add(s, idx, amt, cap).len()
            ==> (#[trigger] profile_add(s, idx, amt, cap)[k]).0 == idx
                || exists|j: int| 0 <= j < s.len() && (#[trigger] s[j]).0 == profile_add(s, idx, amt, cap)[k].0,
{
    let u = weight_bump(s, idx, amt);
    lemma_find_pos(s, idx);
    if u.len() > cap {
        lemma_min_pos(u);
    }
    assert forall|k: int| 0 <= k < profile_add(s, idx, amt, cap).len() implies
        (#[trigger] profile_add(s, idx, amt, cap)[k]).0 == idx
            || exists|j: int| 0 <= j < s.len() && (#[trigger] s[j]).0 == profile_add(s, idx, amt, cap)[k].0 by {
        let r = profile_add(s, idx, amt, cap);
        let uk = if u.len() <= cap { k } else if k < min_pos(u) { k } else { k + 1 };
        assert(r[k] == u[uk]);
        let p = find_pos(s, idx);
        if p == -1 {
            if uk < s.len() {
                assert(s[uk].0 == u[uk].0);
            }
        } else {
            if uk != p {
                assert(s[uk].0 == u[uk].0);
            }
        }
    }
}

/// Bumping a weight keeps the entry keys pairwise distinct.
pub proof fn lemma_profile_add_unique(s: Seq<(int, int)>, idx: int, amt: int, cap: int)
    requires
        unique_keys(s),
    ensures
        unique_keys(profile_add(s, idx, amt, cap)),
{
    let u = weight_bump(s, idx, amt);
    lemma_find_pos(s, idx);
    let p = find_pos(s, idx);
    if p == -1 {
        assert forall|i: int, j: int| 0 <= i < j < u.len() implies (#[trigger] u[i]).0
            != (#[trigger] u[j]).0 by {
            if j == s.len() {
                assert(u[i] == s[i]);
            }
        }
    }
    if u.len() > cap {
        lemma_min_pos(u);
        let m = min_pos(u);
        let r = u.remove(m);
        assert forall|i: int, j: int| 0 <= i < j < r.len() implies (#[trigger] r[i]).0
            != (#[trigger] r[j]).0 by {
            let ui = if i < m { i } else { i + 1 };
            let uj = if j < m { j } else { j + 1 };
            assert(r[i] == u[ui] && r[j] == u[uj]);
        }
    }
}

/// A bounded association from token index to accumulated weight.
pub struct Profile {
    cap: usize,
    entries: Vec<(usize, i64)>,
}

impl View for Profile {
    type V = Seq<(int, int)>;

    closed spec fn view(&self) -> Seq<(int, int)> {
        self.entries@.map_values(|p: (usize, i64)| (p.0 as int, p.1 as int))
    }
}

impl Profile {
    /// The fixed capacity the profile was created with.
    pub closed spec fn capacity(self) -> int {
        self.cap as int
    }

    /// Entry keys are distinct and the entry count stays within capacity.
    pub open spec fn wf(self) -> bool {
        &&& self@.len() <= self.capacity()
        &&& 1 <= self.capacity()
        &&& unique_keys(self@)
    }

    /// An empty profile with capacity `cap`.
    pub fn new(cap: usize) -> (r: Profile)
        requires
            cap >= 1,
        ensures
            r@ == Seq::<(int, int)>::empty(),
            r.capacity() == cap as int,
            r.wf(),
    {
        let r = Profile { cap, entries: Vec::new() };
        proof {
            assert(r@ =~= Seq::<(int, int)>::empty());
        }
        r
    }

    /// The first position whose entry holds `idx`, if any.
    fn find(&self, idx: usize) -> (r: Option<usize>)
        ensures
            match r {
                Some(i) => 0 <= i < self@.len() && self@[i as int].0 == idx as int
                    && forall|j: int| 0 <= j < i ==> (#[trigger] self@[j]).0 != idx as int,
                None => forall|j: int| 0 <= j < self@.len() ==> (#[trigger] self@[j]).0 != idx as int,
            },
    {
        let n = self.entries.len();
        let mut i: usize = 0;
        while i < n
            invariant
                0 <= i <= n,
                n == self@.len(),
                forall|j: int| 0 <= j < i ==> (#[trigger] self@[j]).0 != idx as int,
            decreases n - i,
        {
            if self.entries[i].0 == idx {
                return Some(i);
            }
            i = i + 1;
        }
        None
    }

    /// The current weight at `idx`, `0` when absent or evicted.
    pub fn get(&self, idx: usize) -> (w: i64)
        ensures
            w as int == weight_of(self@, idx as int),
    {
        match self.find(idx) {
            Some(i) => {
                proof {
                    lemma_find_pos_is_first(self@, idx as int, i as int);
                }
                self.entries[i].1
            },
            None => {
                proof {
                    lemma_find_pos_absent(self@, idx as int);
                }
                0
            },
        }
    }

    /// The first position holding the smallest weight.
    fn min_position(&self) -> (r: usize)
        requires
            self@.len() > 0,
        ensures
            0 <= r < self@.len(),
            forall|j: int| 0 <= j < self@.len() ==> self@[r as int].1 <= (#[trigger] self@[j]).1,
            forall|j: int| 0 <= j < r ==> (#[trigger] self@[j]).1 > self@[r as int].1,
    {
        let n = self.entries.len();
        let mut best: usize = 0;
        let mut i: usize = 1;
        while i < n
            invariant
                0 <= best < i <= n,
                n == self@.len(),
                forall|j: int| 0 <= j < i ==> self@[best as int].1 <= (#[trigger] self@[j]).1,
                forall|j: int| 0 <= j < best ==> (#[trigger] self@[j]).1 > self@[best as int].1,
            decreases n - i,
        {
            if self.entries[i].1 < self.entries[best].1 {
                best = i;
            }
            i = i + 1;
        }
        best
    }

    /// Feed `amt` into the weight at `idx`; on overflow of the capacity the
    /// entry with the smallest weight is evicted.
    pub fn add(&mut self, idx: usize, amt: i64)
        requires
            old(self).wf(),
        ensures
            final(self)@ == profile_add(old(self)@, idx as int, amt as int, old(self).capacity()),
            final(self).capacity() == old(self).capacity(),
            final(self).wf(),
    {
        let ghost s0 = self@;
        proof {
            lemma_profile_add_unique(s0, idx as int, amt as int, self.capacity());
            lemma_profile_capacity(s0, idx as int, amt as int, self.capacity());
        }
        match self.find(idx) {
            Some(i) => {
                proof {
                    lemma_find_pos_is_first(s0, idx as int, i as int);
                }
                let w = self.entries[i].1;
                let nw = sat_add_i64(w, amt);
                self.entries[i] = (idx, nw);
                proof {
                    assert(self@ =~= weight_bump(s0, idx as int, amt as int));
                }
            },
            None => {
                proof {
                    lemma_find_pos_absent(s0, idx as int);
                }
                let nw = sat_add_i64(0, amt);
                self.entries.push((idx, nw));
                proof {
                    assert(self@ =~= weight_bump(s0, idx as int, amt as int));
                }
                if self.entries.len() > self.cap {
                    let ghost u = self@;
                    let m = self.min_position();
                    proof {
                        lemma_min_pos(u);
                        if m as int != min_pos(u) {
                            // both are first minimal positions, so they agree
                            assert(u[min_pos(u)].1 == u[m as int].1);
                        }
                    }
                    self.entries.remove(m);
                    proof {
                        assert(self@ =~= u.remove(m as int));
                    }
                }
            },
        }
    }

    /// Every (index, weight) entry, in storage order.
    pub fn snapshot(&self) -> (r: Vec<(usize, i64)>)
        ensures
            r@.map_values(|p: (usize, i64)| (p.0 as int, p.1 as int)) == self@,
    {
        let mut r: Vec<(usize, i64)> = Vec::new();
        let n = self.entries.len();
        let mut i: usize = 0;
        while i < n
            invariant
                0 <= i <= n,
                n == self.entries@.len(),
                r@ == self.entries@.take(i as int),
            decreases n - i,
        {
            r.push(self.entries[i]);
            proof {
                assert(r@ =~= self.entries@.take(i as int + 1));
            }
            i = i + 1;
        }
        proof {
            assert(self.entries@.take(n as int) =~= self.entries@);
        }
        r
    }
}

} // verus!
