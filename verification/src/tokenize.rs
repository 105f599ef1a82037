//! Tokenization: a message is split into maximal runs of word characters, and
//! the runs are folded into (token, occurrence count) pairs in first-seen
//! order.

use vstd::prelude::*;
use crate::kvseq::{find_pos, lemma_find_pos_is_first, lemma_find_pos_absent};

verus! {

/// The maximal runs of word characters in `text`, in order of appearance.
pub uninterp spec fn word_tokens(text: Seq<char>) -> Seq<Seq<char>>;

/// Relies on `regex::Regex::find_iter` with the pattern of one-or-more word
/// characters: the matches are a function of the text alone, every match is
/// non-empty, and an empty text has no match.
#[verifier::external_body]
fn find_word_tokens(text: &String) -> (r: Vec<String>)
    ensures
        r@.map_values(|t: String| t@) == word_tokens(text@),
        forall|i: int| 0 <= i < r@.len() ==> (#[trigger] r@[i])@.len() > 0,
        text@.len() == 0 ==> r@.len() == 0,
{
    let re = regex::Regex::new(r"\w+").unwrap();
    re.find_iter(text).map(|m| m.as_str().to_owned()).collect()
}

/// One token folded into a count table: the existing count is raised by one,
/// or a fresh entry with count one is appended.
pub open spec fn bump_count(s: Seq<(Seq<char>, int)>, t: Seq<char>) -> Seq<(Seq<char>, int)> {
    let p = find_pos(s, t);
    if p == -1 {
        s.push((t, 1))
    } else {
        s.update(p, (t, s[p].1 + 1))
    }
}

/// The (token, count) pairs of a token sequence: distinct tokens in first-seen
/// order, each with its number of occurrences.
pub open spec fn token_counts(toks: Seq<Seq<char>>) -> Seq<(Seq<char>, int)>
    decreases toks.len(),
{
    if toks.len() == 0 {
        Seq::empty()
    } else {
        bump_count(token_counts(toks.drop_last()), toks.last())
    }
}

/// The (token, occurrence count) pairs of the word tokens of `text`, distinct
/// tokens in first-seen order. Pair order carries no meaning to callers.
pub fn tokenize(text: &String) -> (r: Vec<(String, usize)>)
    ensures
        r@.map_values(|p: (String, usize)| (p.0@, p.1 as int)) == token_counts(word_tokens(text@)),
        forall|i: int| 0 <= i < r@.len() ==> (#[trigger] r@[i]).0@.len() > 0,
{
    let toks = find_word_tokens(text);
    let n = toks.len();
    let mut r: Vec<(String, usize)> = Vec::new();
    let mut k: usize = 0;
    while k < n
        invariant
            0 <= k <= n,
            n == toks@.len(),
            toks@.map_values(|t: String| t@) == word_tokens(text@),
            forall|i: int| 0 <= i < toks@.len() ==> (#[trigger] toks@[i])@.len() > 0,
            r@.map_values(|p: (String, usize)| (p.0@, p.1 as int))
                == token_counts(word_tokens(text@).take(k as int)),
            forall|i: int| 0 <= i < r@.len() ==> (#[trigger] r@[i]).0@.len() > 0,
            forall|i: int| 0 <= i < r@.len() ==> (#[trigger] r@[i]).1 <= k,
        decreases n - k,
    {
        let ghost pre = word_tokens(text@).take(k as int);
        let ghost cur = r@.map_values(|p: (String, usize)| (p.0@, p.1 as int));
        proof {
            assert(word_tokens(text@).take(k as int + 1).drop_last() =~= pre);
            assert(word_tokens(text@).take(k as int + 1).last() == toks@[k as int]@);
        }
        let m = r.len();
        let mut i: usize = 0;
        let mut found = false;
        while i < m && !found
            invariant
                0 <= i <= m,
                m == r@.len(),
                !found ==> forall|j: int| 0 <= j < i ==> (#[trigger] r@[j]).0@ != toks@[k as int]@,
                found ==> i < m && r@[i as int].0@ == toks@[k as int]@
                    && forall|j: int| 0 <= j < i ==> (#[trigger] r@[j]).0@ != toks@[k as int]@,
                0 <= k < toks@.len(),
            decreases m - i + (if found { 0int } else { 1int }),
        {
            if r[i].0 == toks[k] {
                found = true;
            } else {
                i = i + 1;
            }
        }
        if found {
            proof {
                assert(cur[i as int].0 == r@[i as int].0@);
                assert forall|j: int| 0 <= j < i implies (#[trigger] cur[j]).0 != toks@[k as int]@ by {
                    assert(cur[j].0 == r@[j].0@);
                }
                lemma_find_pos_is_first(cur, toks@[k as int]@, i as int);
            }
            let c = r[i].1;
            let t = toks[k].clone();
            r[i] = (t, c + 1);
            proof {
                assert(r@.map_values(|p: (String, usize)| (p.0@, p.1 as int))
                    =~= bump_count(cur, toks@[k as int]@));
            }
        } else {
            proof {
                assert forall|j: int| 0 <= j < cur.len() implies (#[trigger] cur[j]).0
                    != toks@[k as int]@ by {
                    assert(cur[j].0 == r@[j].0@);
                }
                lemma_find_pos_absent(cur, toks@[k as int]@);
            }
            let t = toks[k].clone();
            r.push((t, 1));
            proof {
                assert(r@.map_values(|p: (String, usize)| (p.0@, p.1 as int))
                    =~= bump_count(cur, toks@[k as int]@));
            }
        }
        k = k + 1;
    }
    proof {
        assert(word_tokens(text@).take(n as int) =~= word_tokens(text@));
    }
    r
}

} // verus!
