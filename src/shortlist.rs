//! Deduplication and ordering of candidates, through itertools.
use vstd::prelude::*;

use itertools::Itertools;

verus! {

/// The values of `s` with every repeat after the first occurrence left out.
pub open spec fn first_occurrences(s: Seq<isize>) -> Seq<isize>
    decreases s.len(),
{
    if s.len() == 0 {
        Seq::empty()
    } else {
        let rest = first_occurrences(s.drop_last());
        if s.drop_last().contains(s.last()) {
            rest
        } else {
            rest.push(s.last())
        }
    }
}

/// Pairs in ascending order: by key, then by point index.
pub open spec fn pairs_ascending(s: Seq<(u64, usize)>) -> bool {
    forall|i: int, j: int|
        0 <= i < j < s.len() ==> (#[trigger] s[i]).0 < (#[trigger] s[j]).0 || (s[i].0 == s[j].0
            && s[i].1 <= s[j].1)
}

/// Relies on itertools' `Itertools::unique`: a stable filter that keeps the
/// first occurrence of each value.
#[verifier::external_body]
fn unique_codes(v: Vec<isize>) -> (r: Vec<isize>)
    ensures
        r@ == first_occurrences(v@),
{
    v.into_iter().unique().collect_vec()
}

/// Relies on itertools' `Itertools::sorted`: the same pairs, sorted by the
/// tuple order of std (key first, then point index).
#[verifier::external_body]
pub(crate) fn sorted_pairs(v: Vec<(u64, usize)>) -> (r: Vec<(u64, usize)>)
    ensures
        r@.to_multiset() == v@.to_multiset(),
        pairs_ascending(r@),
{
    v.into_iter().sorted().collect_vec()
}

proof fn lemma_first_occurrences(s: Seq<isize>)
    ensures
        forall|x: isize| first_occurrences(s).contains(x) <==> s.contains(x),
        first_occurrences(s).no_duplicates(),
    decreases s.len(),
{
    if s.len() > 0 {
        let d = s.drop_last();
        lemma_first_occurrences(d);
        assert forall|x: isize| first_occurrences(s).contains(x) <==> s.contains(x) by {
            if s.contains(x) && x != s.last() {
                let i = choose|i: int| 0 <= i < s.len() && s[i] == x;
                assert(d[i] == x);
            }
            if d.contains(x) {
                let i = choose|i: int| 0 <= i < d.len() && d[i] == x;
                assert(s[i] == x);
            }
            if x == s.last() {
                assert(s[s.len() - 1] == x);
            }
            let rest = first_occurrences(d);
            if !d.contains(s.last()) && first_occurrences(s).contains(x) && x != s.last() {
                let i = choose|i: int| 0 <= i < rest.len() + 1 && rest.push(s.last())[i] == x;
                assert(rest[i] == x);
            }
            if !d.contains(s.last()) && rest.contains(x) {
                let i = choose|i: int| 0 <= i < rest.len() && rest[i] == x;
                assert(rest.push(s.last())[i] == x);
            }
            if !d.contains(s.last()) && x == s.last() {
                assert(rest.push(s.last())[rest.len() as int] == x);
            }
        }
    }
}

/// The distinct cell codes of `v`, each kept at its first occurrence.
pub fn distinct_codes(v: Vec<isize>) -> (r: Vec<isize>)
    ensures
        r@ == first_occurrences(v@),
        forall|x: isize| r@.contains(x) <==> v@.contains(x),
        r@.no_duplicates(),
{
    let r = unique_codes(v);
    proof {
        lemma_first_occurrences(v@);
    }
    r
}

} // verus!
