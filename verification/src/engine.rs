//! The idiom engine: ingests (place, person, message) triples, accumulates
//! weighted token frequencies per place and per person, and reports the
//! tokens characteristic of a person relative to the places they post in.

use vstd::prelude::*;
use crate::kvseq::{find_pos, lemma_find_pos, lemma_find_pos_is_first, lemma_find_pos_absent};
use crate::profile::{Profile, profile_add, weight_of, sat_i64, lemma_profile_add_indices};
use crate::tokenize::{tokenize, word_tokens, token_counts};
use crate::vocab::{Vocab, resolve_index, resolve_map, has_index};

verus! {

/// Capacity of a place profile: distinct token indices it can hold at once.
pub const PLACE_CAPACITY: usize = 200;

/// Capacity of a person profile, and the weighting factor of contributions.
pub const PERSON_CAPACITY: usize = 100;

/// The contribution fed into a person's profile when the place-profile weight
/// of the token, right after the place update, is `w`: the exact value of
/// `(1.01 - w) * 100`, saturated to the `i64` range.
pub open spec fn contribution(w: int) -> int {
    sat_i64(101 - sat_i64(100 * w))
}

/// Weighting is exact: away from the saturation bounds, the contribution for
/// a place weight `w` is `(1.01 - w) * 100 == 101 - 100 * w`; in particular
/// `w == 0` yields `101` and `w == 1` yields `1`.
pub proof fn lemma_contribution_exact(w: int)
    requires
        -92233720368547757 <= w <= 92233720368547758,
    ensures
        contribution(w) == 101 - 100 * w,
{
}

/// Exact computation of `contribution` on machine integers.
fn contribution_exec(w: i64) -> (r: i64)
    ensures
        r as int == contribution(w as int),
{
    let m: i64 = if w > 92233720368547758 {
        i64::MAX
    } else if w < -92233720368547758 {
        i64::MIN
    } else {
        w * 100
    };
    if m < -9223372036854775706 {
        i64::MAX
    } else {
        101 - m
    }
}

/// One token with count `c` flowing through the engine: resolve its index,
/// feed the count into the place profile, read the post-update place weight,
/// and feed the derived contribution into the person profile.
pub open spec fn step_token(
    voc: Map<Seq<char>, int>,
    pl: Seq<(int, int)>,
    pe: Seq<(int, int)>,
    t: Seq<char>,
    c: int,
) -> (Map<Seq<char>, int>, Seq<(int, int)>, Seq<(int, int)>) {
    let idx = resolve_index(voc, t);
    let voc2 = resolve_map(voc, t);
    let pl2 = profile_add(pl, idx, sat_i64(c), PLACE_CAPACITY as int);
    let w = weight_of(pl2, idx);
    let pe2 = profile_add(pe, idx, contribution(w), PERSON_CAPACITY as int);
    (voc2, pl2, pe2)
}

/// The engine state reached from `(voc, pl, pe)` after all the (token, count)
/// pairs flowed through it, in order.
pub open spec fn run_tokens(
    voc: Map<Seq<char>, int>,
    pl: Seq<(int, int)>,
    pe: Seq<(int, int)>,
    pairs: Seq<(Seq<char>, int)>,
) -> (Map<Seq<char>, int>, Seq<(int, int)>, Seq<(int, int)>)
    decreases pairs.len(),
{
    if pairs.len() == 0 {
        (voc, pl, pe)
    } else {
        let prev = run_tokens(voc, pl, pe, pairs.drop_last());
        step_token(prev.0, prev.1, prev.2, pairs.last().0, pairs.last().1)
    }
}

/// A name-keyed profile table, as named profile contents.
pub open spec fn table_view(v: Seq<(String, Profile)>) -> Seq<(Seq<char>, Seq<(int, int)>)> {
    v.map_values(|p: (String, Profile)| (p.0@, p.1@))
}

/// The profile registered under `name`, if any.
pub open spec fn lookup_profile(s: Seq<(Seq<char>, Seq<(int, int)>)>, name: Seq<char>) -> Option<
    Seq<(int, int)>,
> {
    let p = find_pos(s, name);
    if p == -1 {
        None
    } else {
        Some(s[p].1)
    }
}

/// The profile registered under `name`, or an empty one.
pub open spec fn lookup_or_empty(s: Seq<(Seq<char>, Seq<(int, int)>)>, name: Seq<char>) -> Seq<
    (int, int),
> {
    match lookup_profile(s, name) {
        Some(p) => p,
        None => Seq::empty(),
    }
}

/// The table with `prof` stored under `name`: in place for a known name,
/// appended for a fresh one.
pub open spec fn upsert_profile(
    s: Seq<(Seq<char>, Seq<(int, int)>)>,
    name: Seq<char>,
    prof: Seq<(int, int)>,
) -> Seq<(Seq<char>, Seq<(int, int)>)> {
    let p = find_pos(s, name);
    if p == -1 {
        s.push((name, prof))
    } else {
        s.update(p, (name, prof))
    }
}

/// Every index in the profile is a registered non-sentinel index.
pub open spec fn indices_in(s: Seq<(int, int)>, n: int) -> bool {
    forall|k: int| 0 <= k < s.len() ==> 1 <= (#[trigger] s[k]).0 < n
}

/// Distinct names, well-formed profiles of capacity `cap`, and profile
/// entries that only hold registered non-sentinel indices.
pub open spec fn table_wf(v: Seq<(String, Profile)>, cap: int, n: int) -> bool {
    &&& forall|i: int, j: int| 0 <= i < j < v.len() ==> (#[trigger] v[i]).0@ != (#[trigger] v[j]).0@
    &&& forall|i: int| 0 <= i < v.len() ==> (#[trigger] v[i]).1.wf()
    &&& forall|i: int| 0 <= i < v.len() ==> (#[trigger] v[i]).1.capacity() == cap
    &&& forall|i: int| 0 <= i < v.len() ==> indices_in((#[trigger] v[i]).1@, n)
}

/// The token registered at index `idx`.
pub open spec fn token_at_index(voc: Map<Seq<char>, int>, idx: int) -> Seq<char> {
    choose|t: Seq<char>| voc.contains_key(t) && voc[t] == idx
}

/// The (token string, score) pairs reported for a person profile: sentinel
/// entries dropped, every other index translated back to its token.
pub open spec fn idiom_entries(s: Seq<(int, int)>, voc: Map<Seq<char>, int>) -> Seq<
    (Seq<char>, int),
>
    decreases s.len(),
{
    if s.len() == 0 {
        Seq::empty()
    } else {
        let rest = idiom_entries(s.drop_last(), voc);
        if s.last().0 == 0 {
            rest
        } else {
            rest.push((token_at_index(voc, s.last().0), s.last().1))
        }
    }
}

/// Find the first entry of the table whose name is `name`.
fn find_name(v: &Vec<(String, Profile)>, name: &String) -> (r: Option<usize>)
    ensures
        match r {
            Some(i) => i < v@.len() && table_view(v@)[i as int].0 == name@ && find_pos(
                table_view(v@),
                name@,
            ) == i as int,
            None => find_pos(table_view(v@), name@) == -1,
        },
{
    let n = v.len();
    let mut i: usize = 0;
    while i < n
        invariant
            0 <= i <= n,
            n == v@.len(),
            forall|j: int| 0 <= j < i ==> (#[trigger] v@[j]).0@ != name@,
        decreases n - i,
    {
        if v[i].0 == *name {
            proof {
                assert forall|j: int| 0 <= j < i implies (#[trigger] table_view(v@)[j]).0
                    != name@ by {
                    assert(table_view(v@)[j].0 == v@[j].0@);
                }
                assert(table_view(v@)[i as int].0 == name@);
                lemma_find_pos_is_first(table_view(v@), name@, i as int);
            }
            return Some(i);
        }
        i = i + 1;
    }
    proof {
        assert forall|j: int| 0 <= j < table_view(v@).len() implies (#[trigger] table_view(v@)[j]).0
            != name@ by {
            assert(table_view(v@)[j].0 == v@[j].0@);
        }
        lemma_find_pos_absent(table_view(v@), name@);
    }
    None
}

/// Feed `amt` into the profile stored at position `i` and read back the
/// post-update weight at `idx`.
fn table_add(v: &mut Vec<(String, Profile)>, i: usize, idx: usize, amt: i64) -> (w: i64)
    requires
        i < old(v)@.len(),
        old(v)@[i as int].1.wf(),
    ensures
        ({
            let p2 = profile_add(
                old(v)@[i as int].1@,
                idx as int,
                amt as int,
                old(v)@[i as int].1.capacity(),
            );
            &&& final(v)@.len() == old(v)@.len()
            &&& final(v)@[i as int].0 == old(v)@[i as int].0
            &&& final(v)@[i as int].1@ == p2
            &&& final(v)@[i as int].1.wf()
            &&& final(v)@[i as int].1.capacity() == old(v)@[i as int].1.capacity()
            &&& (forall|j: int| 0 <= j < old(v)@.len() && j != i ==> final(v)@[j] == old(v)@[j])
            &&& w as int == weight_of(p2, idx as int)
        }),
{
    let e = &mut v[i];
    e.1.add(idx, amt);
    e.1.get(idx)
}

/// Find the entry registered under `name`, creating an empty profile of
/// capacity `cap` for a fresh name; returns its position.
fn get_or_create(v: &mut Vec<(String, Profile)>, name: String, cap: usize, voc_len: Ghost<int>) -> (i:
    usize)
    requires
        cap >= 1,
        table_wf(old(v)@, cap as int, voc_len@),
    ensures
        table_wf(final(v)@, cap as int, voc_len@),
        i < final(v)@.len(),
        ({
            let s0 = table_view(old(v)@);
            let p = find_pos(s0, name@);
            &&& (p >= 0 ==> final(v)@ == old(v)@ && i as int == p)
            &&& (p < 0 ==> table_view(final(v)@) == s0.push((name@, Seq::<(int, int)>::empty()))
                && i as int == old(v)@.len())
            &&& table_view(final(v)@)[i as int] == (name@, lookup_or_empty(s0, name@))
        }),
{
    let ghost nm = name@;
    let ghost s0 = table_view(v@);
    match find_name(v, &name) {
        Some(i) => i,
        None => {
            let n = v.len();
            v.push((name, Profile::new(cap)));
            proof {
                assert(table_view(v@) =~= s0.push((nm, Seq::<(int, int)>::empty())));
                assert forall|i2: int, j2: int| 0 <= i2 < j2 < v@.len() implies (#[trigger] v@[i2]).0@
                    != (#[trigger] v@[j2]).0@ by {
                    if j2 == n as int {
                        lemma_find_pos(s0, nm);
                        assert(s0[i2].0 == v@[i2].0@);
                    }
                }
            }
            n
        },
    }
}

/// The idiom engine: the token registry and the name-keyed place and person
/// profile tables.
pub struct Idioms {
    tokens: Vocab,
    places: Vec<(String, Profile)>,
    people: Vec<(String, Profile)>,
}

impl Idioms {
    /// The token registry's contents.
    pub closed spec fn voc(self) -> Map<Seq<char>, int> {
        self.tokens@
    }

    /// The place profile table: (place name, profile contents) in creation
    /// order.
    pub closed spec fn place_profiles(self) -> Seq<(Seq<char>, Seq<(int, int)>)> {
        table_view(self.places@)
    }

    /// The person profile table: (person name, profile contents) in creation
    /// order.
    pub closed spec fn people_profiles(self) -> Seq<(Seq<char>, Seq<(int, int)>)> {
        table_view(self.people@)
    }

    /// The registry is a bijection onto `0..n` holding the sentinel, names
    /// are distinct, and every profile is within capacity and holds only
    /// registered non-sentinel indices.
    pub closed spec fn wf(self) -> bool {
        &&& self.tokens.wf()
        &&& table_wf(self.places@, PLACE_CAPACITY as int, self.tokens@.dom().len() as int)
        &&& table_wf(self.people@, PERSON_CAPACITY as int, self.tokens@.dom().len() as int)
    }

    /// An empty engine: no places, no people, and a registry holding only
    /// the sentinel.
    pub fn new() -> (r: Idioms)
        ensures
            r.wf(),
            r.voc() == Map::<Seq<char>, int>::empty().insert(Seq::<char>::empty(), 0),
            r.place_profiles() == Seq::<(Seq<char>, Seq<(int, int)>)>::empty(),
            r.people_profiles() == Seq::<(Seq<char>, Seq<(int, int)>)>::empty(),
    {
        let r = Idioms { tokens: Vocab::new(), places: Vec::new(), people: Vec::new() };
        proof {
            assert(r.place_profiles() =~= Seq::<(Seq<char>, Seq<(int, int)>)>::empty());
            assert(r.people_profiles() =~= Seq::<(Seq<char>, Seq<(int, int)>)>::empty());
        }
        r
    }

    /// Ingest one (place, person, message) triple: tokenize the message and
    /// flow every (token, count) pair through the place and person profiles,
    /// creating the registry entries and the two profiles as needed.
    pub fn update(&mut self, place: String, person: String, message: String)
        requires
            old(self).wf(),
        ensures
            final(self).wf(),
            ({
                let pairs = token_counts(word_tokens(message@));
                let pl0 = lookup_or_empty(old(self).place_profiles(), place@);
                let pe0 = lookup_or_empty(old(self).people_profiles(), person@);
                let st = run_tokens(old(self).voc(), pl0, pe0, pairs);
                &&& final(self).voc() == st.0
                &&& final(self).place_profiles() == upsert_profile(
                    old(self).place_profiles(),
                    place@,
                    st.1,
                )
                &&& final(self).people_profiles() == upsert_profile(
                    old(self).people_profiles(),
                    person@,
                    st.2,
                )
            }),
    {
        let ghost place_v = place@;
        let ghost person_v = person@;
        let ghost voc0 = self.tokens@;
        let ghost pp0 = table_view(self.places@);
        let ghost qq0 = table_view(self.people@);
        let ghost pairs = token_counts(word_tokens(message@));

        let counts = tokenize(&message);
        let ghost n_voc = self.tokens@.dom().len() as int;
        let pi = get_or_create(&mut self.places, place, PLACE_CAPACITY, Ghost(n_voc));
        let qi = get_or_create(&mut self.people, person, PERSON_CAPACITY, Ghost(n_voc));
        let ghost base_pl = table_view(self.places@);
        let ghost base_pe = table_view(self.people@);
        let ghost pl0 = lookup_or_empty(pp0, place_v);
        let ghost pe0 = lookup_or_empty(qq0, person_v);

        proof {
            assert(pairs.take(0) =~= Seq::<(Seq<char>, int)>::empty());
            assert(base_pl.update(pi as int, (place_v, pl0)) =~= base_pl);
            assert(base_pe.update(qi as int, (person_v, pe0)) =~= base_pe);
        }

        let n = counts.len();
        let mut k: usize = 0;
        while k < n
            invariant
                0 <= k <= n,
                n == counts@.len(),
                counts@.map_values(|p: (String, usize)| (p.0@, p.1 as int)) == pairs,
                forall|i: int| 0 <= i < counts@.len() ==> (#[trigger] counts@[i]).0@.len() > 0,
                self.tokens.wf(),
                pi < self.places@.len(),
                qi < self.people@.len(),
                base_pl.len() == self.places@.len(),
                base_pe.len() == self.people@.len(),
                ({
                    let st = run_tokens(voc0, pl0, pe0, pairs.take(k as int));
                    &&& self.tokens@ == st.0
                    &&& table_view(self.places@) == base_pl.update(pi as int, (place_v, st.1))
                    &&& table_view(self.people@) == base_pe.update(qi as int, (person_v, st.2))
                }),
                table_wf(self.places@, PLACE_CAPACITY as int, self.tokens@.dom().len() as int),
                table_wf(self.people@, PERSON_CAPACITY as int, self.tokens@.dom().len() as int),
            decreases n - k,
        {
            let ghost st_k = run_tokens(voc0, pl0, pe0, pairs.take(k as int));
            let ghost tok_v = counts@[k as int].0@;
            let ghost cnt_v = counts@[k as int].1 as int;
            proof {
                assert(pairs.take(k as int + 1).drop_last() =~= pairs.take(k as int));
                assert(pairs[k as int] == (counts@[k as int].0@, counts@[k as int].1 as int));
                assert(pairs.take(k as int + 1).last() == pairs[k as int]);
            }
            let tok_count = counts[k].1;
            let amt: i64 = if tok_count as u64 > i64::MAX as u64 {
                i64::MAX
            } else {
                tok_count as i64
            };
            let ghost l0 = self.tokens@.dom().len() as int;
            let idx = self.tokens.resolve(&counts[k].0);
            let ghost pl_k = st_k.1;
            let ghost pe_k = st_k.2;
            let ghost l1 = self.tokens@.dom().len() as int;

            let ghost places_b = self.places@;
            let w = table_add(&mut self.places, pi, idx, amt);
            let s_val = contribution_exec(w);
            let ghost people_b = self.people@;
            let _ = table_add(&mut self.people, qi, idx, s_val);

            proof {
                let st_next = run_tokens(voc0, pl0, pe0, pairs.take(k as int + 1));
                assert(st_next == step_token(st_k.0, st_k.1, st_k.2, tok_v, cnt_v));
                assert(amt as int == sat_i64(cnt_v));
                assert(idx as int == resolve_index(st_k.0, tok_v));
                assert(self.tokens@ == st_next.0);

                // the place table after the add, pointwise
                assert(table_view(places_b)[pi as int] == (place_v, pl_k));
                assert(places_b[pi as int].1@ == pl_k && places_b[pi as int].0@ == place_v);
                assert(places_b[pi as int].1.capacity() == PLACE_CAPACITY as int);
                let p2 = profile_add(pl_k, idx as int, amt as int, PLACE_CAPACITY as int);
                assert(self.places@[pi as int].1@ == p2 && self.places@[pi as int].0
                    == places_b[pi as int].0);
                assert(p2 == st_next.1);
                assert(w as int == weight_of(st_next.1, idx as int));
                assert forall|j: int| 0 <= j < self.places@.len() implies #[trigger] table_view(
                    self.places@,
                )[j] == base_pl.update(pi as int, (place_v, st_next.1))[j] by {
                    assert(table_view(self.places@)[j] == (self.places@[j].0@, self.places@[j].1@));
                    assert(table_view(places_b)[j] == (places_b[j].0@, places_b[j].1@));
                    if j != pi as int {
                        assert(self.places@[j] == places_b[j]);
                    }
                }
                assert(table_view(self.places@) =~= base_pl.update(
                    pi as int,
                    (place_v, st_next.1),
                ));

                // the person table after the add, pointwise
                assert(s_val as int == contribution(w as int));
                assert(table_view(people_b)[qi as int] == (person_v, pe_k));
                assert(people_b[qi as int].1@ == pe_k && people_b[qi as int].0@ == person_v);
                assert(people_b[qi as int].1.capacity() == PERSON_CAPACITY as int);
                let q2 = profile_add(pe_k, idx as int, s_val as int, PERSON_CAPACITY as int);
                assert(self.people@[qi as int].1@ == q2 && self.people@[qi as int].0
                    == people_b[qi as int].0);
                assert(q2 == st_next.2);
                assert forall|j: int| 0 <= j < self.people@.len() implies #[trigger] table_view(
                    self.people@,
                )[j] == base_pe.update(qi as int, (person_v, st_next.2))[j] by {
                    assert(table_view(self.people@)[j] == (self.people@[j].0@, self.people@[j].1@));
                    assert(table_view(people_b)[j] == (people_b[j].0@, people_b[j].1@));
                    if j != qi as int {
                        assert(self.people@[j] == people_b[j]);
                    }
                }
                assert(table_view(self.people@) =~= base_pe.update(
                    qi as int,
                    (person_v, st_next.2),
                ));

                // the profile tables stay well-formed under the larger registry
                assert(l0 <= l1);
                assert(1 <= idx as int && (idx as int) < l1);
                lemma_profile_add_indices(pl_k, idx as int, amt as int, PLACE_CAPACITY as int);
                lemma_profile_add_indices(pe_k, idx as int, s_val as int, PERSON_CAPACITY as int);
                assert(indices_in(places_b[pi as int].1@, l0));
                assert(indices_in(people_b[qi as int].1@, l0));
                assert forall|i: int| 0 <= i < self.places@.len() implies indices_in(
                    (#[trigger] self.places@[i]).1@,
                    l1,
                ) by {
                    if i != pi as int {
                        assert(self.places@[i] == places_b[i]);
                        assert(indices_in(places_b[i].1@, l0));
                    }
                }
                assert forall|i: int| 0 <= i < self.people@.len() implies indices_in(
                    (#[trigger] self.people@[i]).1@,
                    l1,
                ) by {
                    if i != qi as int {
                        assert(self.people@[i] == people_b[i]);
                        assert(indices_in(people_b[i].1@, l0));
                    }
                }
                assert forall|i: int| 0 <= i < self.places@.len() implies
                    (#[trigger] self.places@[i]).1.wf() && self.places@[i].1.capacity()
                    == PLACE_CAPACITY as int by {
                    if i != pi as int {
                        assert(self.places@[i] == places_b[i]);
                    }
                }
                assert forall|i: int| 0 <= i < self.people@.len() implies
                    (#[trigger] self.people@[i]).1.wf() && self.people@[i].1.capacity()
                    == PERSON_CAPACITY as int by {
                    if i != qi as int {
                        assert(self.people@[i] == people_b[i]);
                    }
                }
                assert forall|i: int, j: int| 0 <= i < j < self.places@.len() implies
                    (#[trigger] self.places@[i]).0@ != (#[trigger] self.places@[j]).0@ by {
                    assert(self.places@[i].0@ == places_b[i].0@);
                    assert(self.places@[j].0@ == places_b[j].0@);
                }
                assert forall|i: int, j: int| 0 <= i < j < self.people@.len() implies
                    (#[trigger] self.people@[i]).0@ != (#[trigger] self.people@[j]).0@ by {
                    assert(self.people@[i].0@ == people_b[i].0@);
                    assert(self.people@[j].0@ == people_b[j].0@);
                }
            }
            k = k + 1;
        }
        proof {
            assert(pairs.take(n as int) =~= pairs);
            let st = run_tokens(voc0, pl0, pe0, pairs);
            assert(self.tokens@ == st.0);
            assert(table_view(self.places@) == base_pl.update(pi as int, (place_v, st.1)));
            assert(table_view(self.people@) == base_pe.update(qi as int, (person_v, st.2)));
            let p = find_pos(pp0, place_v);
            if p >= 0 {
                assert(base_pl == pp0 && pi as int == p);
                assert(table_view(self.places@) == pp0.update(p, (place_v, st.1)));
                assert(upsert_profile(pp0, place_v, st.1) == pp0.update(p, (place_v, st.1)));
            } else {
                lemma_find_pos(pp0, place_v);
                assert(p == -1);
                assert(base_pl == pp0.push((place_v, Seq::<(int, int)>::empty())));
                assert(pi as int == pp0.len());
                assert(table_view(self.places@) =~= pp0.push((place_v, st.1)));
                assert(upsert_profile(pp0, place_v, st.1) == pp0.push((place_v, st.1)));
            }
            assert(table_view(self.places@) == upsert_profile(pp0, place_v, st.1));
            let q = find_pos(qq0, person_v);
            if q >= 0 {
                assert(base_pe == qq0 && qi as int == q);
                assert(table_view(self.people@) == qq0.update(q, (person_v, st.2)));
                assert(upsert_profile(qq0, person_v, st.2) == qq0.update(q, (person_v, st.2)));
            } else {
                lemma_find_pos(qq0, person_v);
                assert(q == -1);
                assert(base_pe == qq0.push((person_v, Seq::<(int, int)>::empty())));
                assert(qi as int == qq0.len());
                assert(table_view(self.people@) =~= qq0.push((person_v, st.2)));
                assert(upsert_profile(qq0, person_v, st.2) == qq0.push((person_v, st.2)));
            }
            assert(table_view(self.people@) == upsert_profile(qq0, person_v, st.2));
        }
    }

    /// The (token, score) pairs accumulated for `person`: the person's
    /// profile with the sentinel dropped and every index translated back to
    /// its token string. Unknown persons yield the empty sequence; no
    /// reported token is empty. Pair order carries no meaning to callers.
    pub fn idiom(&self, person: String) -> (r: Vec<(String, i64)>)
        requires
            self.wf(),
        ensures
            r@.map_values(|p: (String, i64)| (p.0@, p.1 as int)) == idiom_entries(
                lookup_or_empty(self.people_profiles(), person@),
                self.voc(),
            ),
            forall|i: int| 0 <= i < r@.len() ==> (#[trigger] r@[i]).0@.len() > 0,
    {
        let mut r: Vec<(String, i64)> = Vec::new();
        let found = find_name(&self.people, &person);
        match found {
            None => {
                proof {
                    assert(r@.map_values(|p: (String, i64)| (p.0@, p.1 as int)) =~= Seq::<
                        (Seq<char>, int),
                    >::empty());
                }
                r
            },
            Some(i) => {
                let ghost pv = self.people@[i as int].1@;
                let snap = self.people[i].1.snapshot();
                let m = snap.len();
                let mut j: usize = 0;
                proof {
                    assert(pv.take(0) =~= Seq::<(int, int)>::empty());
                    assert(indices_in(pv, self.tokens@.dom().len() as int));
                }
                while j < m
                    invariant
                        0 <= j <= m,
                        m == snap@.len(),
                        snap@.map_values(|p: (usize, i64)| (p.0 as int, p.1 as int)) == pv,
                        indices_in(pv, self.tokens@.dom().len() as int),
                        self.tokens.wf(),
                        r@.map_values(|p: (String, i64)| (p.0@, p.1 as int)) == idiom_entries(
                            pv.take(j as int),
                            self.tokens@,
                        ),
                        forall|x: int| 0 <= x < r@.len() ==> (#[trigger] r@[x]).0@.len() > 0,
                    decreases m - j,
                {
                    let ghost cur = r@.map_values(|p: (String, i64)| (p.0@, p.1 as int));
                    proof {
                        assert(pv.take(j as int + 1).drop_last() =~= pv.take(j as int));
                        assert(pv[j as int] == (snap@[j as int].0 as int, snap@[j as int].1 as int));
                        assert(pv.take(j as int + 1).last() == pv[j as int]);
                    }
                    let (ti, w) = snap[j];
                    if ti != 0 {
                        proof {
                            assert(1 <= ti as int && (ti as int) < self.tokens@.dom().len());
                            assert(has_index(self.tokens@, ti as int));
                        }
                        match self.tokens.token_at(ti) {
                            Some(tok) => {
                                proof {
                                    let t0 = token_at_index(self.tokens@, ti as int);
                                    assert(self.tokens@.contains_key(tok@) && self.tokens@[tok@]
                                        == ti as int);
                                    assert(self.tokens@.contains_key(t0) && self.tokens@[t0]
                                        == ti as int);
                                    assert(t0 == tok@);
                                    if tok@.len() == 0 {
                                        assert(tok@ =~= Seq::<char>::empty());
                                    }
                                }
                                let t = tok.clone();
                                r.push((t, w));
                                proof {
                                    assert(r@.map_values(|p: (String, i64)| (p.0@, p.1 as int))
                                        =~= cur.push(
                                        (token_at_index(self.tokens@, ti as int), w as int),
                                    ));
                                }
                            },
                            None => {
                                proof {
                                    let t1 = choose|t: Seq<char>|
                                        self.tokens@.contains_key(t) && #[trigger] self.tokens@[t]
                                            == ti as int;
                                    assert(self.tokens@[t1] == ti as int);
                                    assert(false);
                                }
                                unreached()
                            },
                        }
                    }
                    j = j + 1;
                }
                proof {
                    assert(pv.take(m as int) =~= pv);
                    assert(lookup_or_empty(self.people_profiles(), person@) == pv);
                }
                r
            },
        }
    }

    /// Every person ever named in an `update`, exactly once each, in creation
    /// order. Order carries no meaning to callers.
    pub fn people(&self) -> (r: Vec<String>)
        requires
            self.wf(),
        ensures
            r@.map_values(|s: String| s@) == self.people_profiles().map_values(
                |p: (Seq<char>, Seq<(int, int)>)| p.0,
            ),
            forall|i: int, j: int| 0 <= i < j < r@.len() ==> r@[i]@ != r@[j]@,
    {
        let n = self.people.len();
        let mut r: Vec<String> = Vec::new();
        let mut i: usize = 0;
        while i < n
            invariant
                0 <= i <= n,
                n == self.people@.len(),
                r@.len() == i as int,
                r@.map_values(|s: String| s@) == table_view(self.people@).map_values(
                    |p: (Seq<char>, Seq<(int, int)>)| p.0,
                ).take(i as int),
                forall|x: int| 0 <= x < i ==> (#[trigger] r@[x])@ == self.people@[x].0@,
            decreases n - i,
        {
            let nm = self.people[i].0.clone();
            r.push(nm);
            proof {
                assert(r@.map_values(|s: String| s@) =~= table_view(self.people@).map_values(
                    |p: (Seq<char>, Seq<(int, int)>)| p.0,
                ).take(i as int + 1));
            }
            i = i + 1;
        }
        proof {
            let names = table_view(self.people@).map_values(
                |p: (Seq<char>, Seq<(int, int)>)| p.0,
            );
            assert(names.take(n as int) =~= names);
            assert forall|i2: int, j2: int| 0 <= i2 < j2 < r@.len() implies r@[i2]@ != r@[j2]@ by {
                assert(r@[i2]@ == self.people@[i2].0@);
                assert(r@[j2]@ == self.people@[j2].0@);
            }
        }
        r
    }
}

/// No profile outgrows its declared capacity: in a well-formed engine every
/// place profile holds at most 200 distinct indices and every person profile
/// at most 100, however many distinct tokens were driven into it.
pub proof fn lemma_profiles_bounded(e: Idioms)
    requires
        e.wf(),
    ensures
        forall|i: int| 0 <= i < e.place_profiles().len()
            ==> (#[trigger] e.place_profiles()[i]).1.len() <= PLACE_CAPACITY as int,
        forall|i: int| 0 <= i < e.people_profiles().len()
            ==> (#[trigger] e.people_profiles()[i]).1.len() <= PERSON_CAPACITY as int,
{
    assert forall|i: int| 0 <= i < e.place_profiles().len() implies
        (#[trigger] e.place_profiles()[i]).1.len() <= PLACE_CAPACITY as int by {
        assert(e.place_profiles()[i].1 == e.places@[i].1@);
    }
    assert forall|i: int| 0 <= i < e.people_profiles().len() implies
        (#[trigger] e.people_profiles()[i]).1.len() <= PERSON_CAPACITY as int by {
        assert(e.people_profiles()[i].1 == e.people@[i].1@);
    }
}

/// A person never named in an `update` stays unknown: storing a profile under
/// a different name leaves an absent name absent, so `idiom` keeps returning
/// the empty sequence for it and `people` keeps omitting it.
pub proof fn lemma_unknown_person_stays_unknown(
    s: Seq<(Seq<char>, Seq<(int, int)>)>,
    name: Seq<char>,
    prof: Seq<(int, int)>,
    p: Seq<char>,
)
    requires
        p != name,
        lookup_profile(s, p) is None,
    ensures
        lookup_profile(upsert_profile(s, name, prof), p) is None,
{
    lemma_find_pos(s, p);
    lemma_find_pos(s, name);
    let s2 = upsert_profile(s, name, prof);
    assert forall|j: int| 0 <= j < s2.len() implies (#[trigger] s2[j]).0 != p by {
        if find_pos(s, name) == -1 && j < s.len() {
            assert(s2[j] == s[j]);
        }
    }
    lemma_find_pos_absent(s2, p);
}

/// A person an `update` names is known afterwards: storing a profile under a
/// name makes lookup yield exactly that profile, whatever the table held
/// before, so the name appears in `people` from then on.
pub proof fn lemma_upsert_present(
    s: Seq<(Seq<char>, Seq<(int, int)>)>,
    name: Seq<char>,
    prof: Seq<(int, int)>,
)
    ensures
        lookup_profile(upsert_profile(s, name, prof), name) == Some(prof),
{
    lemma_find_pos(s, name);
    let s2 = upsert_profile(s, name, prof);
    let p = find_pos(s, name);
    if p == -1 {
        assert forall|j: int| 0 <= j < s.len() implies (#[trigger] s2[j]).0 != name by {
            assert(s2[j] == s[j]);
        }
        lemma_find_pos_is_first(s2, name, s.len() as int);
    } else {
        assert forall|j: int| 0 <= j < p implies (#[trigger] s2[j]).0 != name by {
            assert(s2[j] == s[j]);
        }
        lemma_find_pos_is_first(s2, name, p);
    }
}

} // verus!
