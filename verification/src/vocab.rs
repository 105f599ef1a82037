//! The token vocabulary: an append-only bijection between token strings and
//! stable integer indices, backed by `bimap::BiHashMap`. Index `0` is a
//! permanent sentinel bound to the empty string.

use vstd::prelude::*;

verus! {

#[verifier::external_type_specification]
#[verifier::external_body]
#[verifier::reject_recursive_types(L)]
#[verifier::reject_recursive_types(R)]
#[verifier::reject_recursive_types(LS)]
#[verifier::reject_recursive_types(RS)]
pub struct ExBiHashMap<L, R, LS, RS>(bimap::BiHashMap<L, R, LS, RS>);

/// The string-to-index pairs that a bimap holds, keyed by the string's
/// characters.
pub uninterp spec fn bimap_pairs(m: bimap::BiMap<String, usize>) -> Map<Seq<char>, int>;

/// Relies on `bimap::BiHashMap::new`: the new bimap holds no pairs.
#[verifier::external_body]
fn bimap_new() -> (r: bimap::BiMap<String, usize>)
    ensures
        bimap_pairs(r).dom() =~= Set::<Seq<char>>::empty(),
{
    bimap::BiMap::new()
}

/// Relies on `bimap::BiHashMap::len`: the number of left-right pairs, which
/// is the number of distinct left values.
#[verifier::external_body]
fn bimap_len(m: &bimap::BiMap<String, usize>) -> (n: usize)
    ensures
        n as int == bimap_pairs(*m).dom().len() as int,
{
    m.len()
}

/// Relies on `bimap::BiHashMap::get_by_left`: the right value paired with the
/// given left value, or `None` when the left value holds no pair.
#[verifier::external_body]
fn bimap_get_by_left(m: &bimap::BiMap<String, usize>, left: &String) -> (r: Option<usize>)
    ensures
        match r {
            Some(i) => bimap_pairs(*m).contains_key(left@) && bimap_pairs(*m)[left@] == i as int,
            None => !bimap_pairs(*m).contains_key(left@),
        },
{
    m.get_by_left(left).copied()
}

/// Relies on `bimap::BiHashMap::get_by_right`: the left value paired with the
/// given right value, or `None` when no pair holds that right value.
#[verifier::external_body]
fn bimap_get_by_right<'a>(m: &'a bimap::BiMap<String, usize>, right: usize) -> (r: Option<
    &'a String,
>)
    ensures
        match r {
            Some(s) => bimap_pairs(*m).contains_key(s@) && bimap_pairs(*m)[s@] == right as int,
            None => forall|t: Seq<char>| bimap_pairs(*m).contains_key(t)
                ==> bimap_pairs(*m)[t] != right as int,
        },
{
    m.get_by_right(&right)
}

/// Relies on `bimap::BiHashMap::insert`: when neither the left nor the right
/// value is already paired, the pair is added and nothing is overwritten.
#[verifier::external_body]
fn bimap_insert(m: &mut bimap::BiMap<String, usize>, left: String, right: usize)
    requires
        !bimap_pairs(*old(m)).contains_key(left@),
        forall|t: Seq<char>| bimap_pairs(*old(m)).contains_key(t)
            ==> bimap_pairs(*old(m))[t] != right as int,
    ensures
        bimap_pairs(*final(m)) == bimap_pairs(*old(m)).insert(left@, right as int),
{
    let _ = m.insert(left, right);
}

/// The index a token resolves to: its registered index, or the next free one.
pub open spec fn resolve_index(m: Map<Seq<char>, int>, t: Seq<char>) -> int {
    if m.contains_key(t) {
        m[t]
    } else {
        m.dom().len() as int
    }
}

/// The registry after a token is resolved: unchanged for a registered token,
/// extended by the next free index for a fresh one.
pub open spec fn resolve_map(m: Map<Seq<char>, int>, t: Seq<char>) -> Map<Seq<char>, int> {
    if m.contains_key(t) {
        m
    } else {
        m.insert(t, m.dom().len() as int)
    }
}

/// Some registered token holds index `i`.
pub open spec fn has_index(m: Map<Seq<char>, int>, i: int) -> bool {
    exists|t: Seq<char>| m.contains_key(t) && #[trigger] m[t] == i
}

/// An append-only registry of tokens with stable indices `0..n`, where index
/// `0` is bound to the empty string.
pub struct Vocab {
    map: bimap::BiMap<String, usize>,
}

impl View for Vocab {
    type V = Map<Seq<char>, int>;

    closed spec fn view(&self) -> Map<Seq<char>, int> {
        bimap_pairs(self.map)
    }
}

impl Vocab {
    /// The registry is a bijection between its tokens and the indices
    /// `0..n`, and the empty string is bound to index `0`.
    pub open spec fn wf(self) -> bool {
        &&& self@.dom().finite()
        &&& self@.contains_key(Seq::<char>::empty())
        &&& self@[Seq::<char>::empty()] == 0
        &&& forall|t: Seq<char>| self@.contains_key(t) ==> 0 <= #[trigger] self@[t] < self@.dom().len()
        &&& forall|t1: Seq<char>, t2: Seq<char>|
            self@.contains_key(t1) && self@.contains_key(t2) && #[trigger] self@[t1] == #[trigger] self@[t2]
                ==> t1 == t2
        &&& forall|i: int| 0 <= i < self@.dom().len() ==> #[trigger] has_index(self@, i)
    }

    /// A registry holding only the sentinel pair: the empty string at index 0.
    pub fn new() -> (r: Vocab)
        ensures
            r.wf(),
            r@ == Map::<Seq<char>, int>::empty().insert(Seq::<char>::empty(), 0),
    {
        let mut m = bimap_new();
        bimap_insert(&mut m, String::new(), 0);
        let r = Vocab { map: m };
        proof {
            assert(r@.dom() =~= Set::<Seq<char>>::empty().insert(Seq::<char>::empty()));
            assert forall|i: int| 0 <= i < r@.dom().len() implies #[trigger] has_index(r@, i) by {
                assert(r@.contains_key(Seq::<char>::empty()) && r@[Seq::<char>::empty()] == 0);
            }
        }
        r
    }

    /// The number of registered tokens, the sentinel included.
    pub fn len(&self) -> (n: usize)
        ensures
            n as int == self@.dom().len() as int,
    {
        bimap_len(&self.map)
    }

    /// The index registered for `token`; a fresh non-empty token is assigned
    /// the next sequential index. Index `0` is returned exactly for the empty
    /// string.
    pub fn resolve(&mut self, token: &String) -> (idx: usize)
        requires
            old(self).wf(),
        ensures
            final(self).wf(),
            idx as int == resolve_index(old(self)@, token@),
            final(self)@ == resolve_map(old(self)@, token@),
            idx == 0 <==> token@.len() == 0,
            idx < final(self)@.dom().len(),
            old(self)@.dom().len() <= final(self)@.dom().len(),
    {
        let ghost m0 = self@;
        proof {
            if token@.len() == 0 {
                assert(token@ =~= Seq::<char>::empty());
            }
        }
        match bimap_get_by_left(&self.map, token) {
            Some(i) => {
                proof {
                    if i == 0 {
                        // only the sentinel maps to index 0
                        assert(m0.contains_key(Seq::<char>::empty()));
                        assert(token@ == Seq::<char>::empty());
                    }
                }
                i
            },
            None => {
                let n = bimap_len(&self.map);
                proof {
                    // the registry already holds the sentinel, so n >= 1
                    if n == 0 {
                        m0.dom().lemma_len0_is_empty();
                    }
                }
                bimap_insert(&mut self.map, token.clone(), n);
                proof {
                    assert(self@.dom() =~= m0.dom().insert(token@));
                    let m1 = self@;
                    assert(m1.dom().len() == m0.dom().len() + 1);
                    assert forall|i: int| 0 <= i < m1.dom().len() implies #[trigger] has_index(
                        m1,
                        i,
                    ) by {
                        if i < m0.dom().len() {
                            assert(has_index(m0, i));
                            let t = choose|t: Seq<char>| m0.contains_key(t) && #[trigger] m0[t] == i;
                            assert(m1.contains_key(t) && m1[t] == i);
                        } else {
                            assert(m1.contains_key(token@) && m1[token@] == i);
                        }
                    }
                }
                n
            },
        }
    }

    /// The token registered at `idx`, or `None` when no token has it.
    pub fn token_at(&self, idx: usize) -> (r: Option<&String>)
        ensures
            match r {
                Some(s) => self@.contains_key(s@) && self@[s@] == idx as int,
                None => forall|t: Seq<char>| self@.contains_key(t) ==> self@[t] != idx as int,
            },
    {
        bimap_get_by_right(&self.map, idx)
    }
}

/// Interning is idempotent: the index a token resolves to, once assigned, is
/// what every later resolution of the same token returns, and the registry is
/// not changed again by it.
pub proof fn lemma_resolve_idempotent(m: Map<Seq<char>, int>, t: Seq<char>)
    ensures
        resolve_index(resolve_map(m, t), t) == resolve_index(m, t),
        resolve_map(resolve_map(m, t), t) == resolve_map(m, t),
{
}

/// Fresh tokens are assigned strictly increasing indices: a token not yet
/// registered gets the registry's size as its index, which exceeds every
/// index assigned before it and is at least 1; registered pairs are kept, so
/// an index, once assigned, is never reassigned or reused.
pub proof fn lemma_fresh_index_increases(m: Map<Seq<char>, int>, t: Seq<char>)
    requires
        !m.contains_key(t),
        m.dom().finite(),
        m.contains_key(Seq::<char>::empty()),
        forall|u: Seq<char>| m.contains_key(u) ==> 0 <= #[trigger] m[u] < m.dom().len(),
    ensures
        resolve_index(m, t) == m.dom().len(),
        resolve_index(m, t) >= 1,
        forall|u: Seq<char>| m.contains_key(u) ==> #[trigger] m[u] < resolve_index(m, t),
        forall|u: Seq<char>| m.contains_key(u)
            ==> resolve_map(m, t).contains_key(u) && #[trigger] resolve_map(m, t)[u] == m[u],
{
    if m.dom().len() == 0 {
        m.dom().lemma_len0_is_empty();
    }
}

} // verus!
