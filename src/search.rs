//! Substring search over characters, and the conversion of a character
//! offset into a cluster index.
use crate::segment::{all_nonempty, concat_all, lemma_concat_split, views_of};
use vstd::prelude::*;
use vstd::string::StrSliceExecFns;

verus! {

/// `q` occurs in `s` starting at character `p`.
pub open spec fn occurs_at(s: Seq<char>, q: Seq<char>, p: int) -> bool {
    0 <= p && p + q.len() <= s.len() && s.subrange(p, p + q.len()) == q
}

/// The leftmost occurrence of `q` in `s` that starts at `from` or later.
pub open spec fn first_match(s: Seq<char>, q: Seq<char>, from: int) -> Option<int>
    decreases s.len() + 1 - from,
{
    if from < 0 || from + q.len() > s.len() {
        None
    } else if occurs_at(s, q, from) {
        Some(from)
    } else {
        first_match(s, q, from + 1)
    }
}

/// The rightmost occurrence of `q` in `s` that starts at `upto` or earlier.
pub open spec fn last_match(s: Seq<char>, q: Seq<char>, upto: int) -> Option<int>
    decreases upto + 1,
{
    if upto < 0 {
        None
    } else if occurs_at(s, q, upto) {
        Some(upto)
    } else {
        last_match(s, q, upto - 1)
    }
}

/// The leftmost occurrence of `q` anywhere in `s`.
pub open spec fn leftmost(s: Seq<char>, q: Seq<char>) -> Option<int> {
    first_match(s, q, 0)
}

/// The rightmost occurrence of `q` anywhere in `s`.
pub open spec fn rightmost(s: Seq<char>, q: Seq<char>) -> Option<int> {
    last_match(s, q, s.len() - q.len())
}

/// The index, from `k` on, of the cluster of `gs` that starts at character
/// `p`, where cluster `k` starts at character `off`.
pub open spec fn cluster_index(gs: Seq<Seq<char>>, p: int, k: int, off: int) -> Option<int>
    decreases gs.len() - k,
{
    if k < 0 || k >= gs.len() {
        None
    } else if off == p {
        Some(k)
    } else {
        cluster_index(gs, p, k + 1, off + gs[k].len())
    }
}

pub proof fn lemma_cluster_index_from(gs: Seq<Seq<char>>, p: int, k: int, off: int)
    ensures
        cluster_index(gs, p, k, off) matches Some(j) ==> k <= j,
    decreases gs.len() - k,
{
    if 0 <= k < gs.len() && off != p {
        lemma_cluster_index_from(gs, p, k + 1, off + gs[k].len());
    }
}

/// With non-empty clusters, the cluster found starts no earlier than its
/// index: cluster `j` starts at character `p >= j`.
pub proof fn lemma_cluster_index_bound(gs: Seq<Seq<char>>, p: int, k: int, off: int)
    requires
        all_nonempty(gs),
        0 <= k <= off,
    ensures
        cluster_index(gs, p, k, off) matches Some(j) ==> j <= p,
    decreases gs.len() - k,
{
    if 0 <= k < gs.len() && off != p {
        assert(gs[k].len() > 0);
        lemma_cluster_index_bound(gs, p, k + 1, off + gs[k].len());
    }
}

pub proof fn lemma_first_match_occurs(s: Seq<char>, q: Seq<char>, from: int)
    ensures
        first_match(s, q, from) matches Some(p) ==> occurs_at(s, q, p),
    decreases s.len() + 1 - from,
{
    if !(from < 0 || from + q.len() > s.len()) && !occurs_at(s, q, from) {
        lemma_first_match_occurs(s, q, from + 1);
    }
}

pub proof fn lemma_last_match_occurs(s: Seq<char>, q: Seq<char>, upto: int)
    ensures
        last_match(s, q, upto) matches Some(p) ==> occurs_at(s, q, p),
    decreases upto + 1,
{
    if upto >= 0 && !occurs_at(s, q, upto) {
        lemma_last_match_occurs(s, q, upto - 1);
    }
}

pub open spec fn opt_int(r: Option<usize>) -> Option<int> {
    match r {
        Some(v) => Some(v as int),
        None => None,
    }
}

fn occurs(s: &Vec<char>, q: &Vec<char>, p: usize) -> (r: bool)
    requires
        p + q@.len() <= s@.len(),
    ensures
        r == occurs_at(s@, q@, p as int),
{
    let n = s.len();
    let mut j: usize = 0;
    while j < q.len()
        invariant
            n == s@.len(),
            p + q@.len() <= s@.len(),
            j <= q@.len(),
            forall|t: int| 0 <= t < j ==> s@[p + t] == q@[t],
        decreases q@.len() - j,
    {
        if s[p + j] != q[j] {
            proof {
                assert(s@.subrange(p as int, p + q@.len())[j as int] != q@[j as int]);
            }
            return false;
        }
        j = j + 1;
    }
    proof {
        assert(s@.subrange(p as int, p + q@.len()) =~= q@);
    }
    true
}

/// The leftmost start of `q` in `s`.
pub fn find_first(s: &Vec<char>, q: &Vec<char>) -> (r: Option<usize>)
    ensures
        opt_int(r) == leftmost(s@, q@),
{
    if q.len() > s.len() {
        return None;
    }
    let last = s.len() - q.len();
    let mut i: usize = 0;
    while i <= last
        invariant
            last == s@.len() - q@.len(),
            first_match(s@, q@, 0) == first_match(s@, q@, i as int),
        decreases last + 1 - i,
    {
        if occurs(s, q, i) {
            return Some(i);
        }
        if i == last {
            assert(first_match(s@, q@, i + 1) == None::<int>);
            return None;
        }
        i = i + 1;
    }
    None
}

/// The rightmost start of `q` in `s`.
pub fn find_last(s: &Vec<char>, q: &Vec<char>) -> (r: Option<usize>)
    ensures
        opt_int(r) == rightmost(s@, q@),
{
    if q.len() > s.len() {
        return None;
    }
    let mut i: usize = s.len() - q.len();
    loop
        invariant
            i + q@.len() <= s@.len(),
            last_match(s@, q@, s@.len() - q@.len()) == last_match(s@, q@, i as int),
        decreases i,
    {
        if occurs(s, q, i) {
            return Some(i);
        }
        if i == 0 {
            assert(last_match(s@, q@, -1) == None::<int>);
            return None;
        }
        i = i - 1;
    }
}

/// The index of the cluster of `gs` that starts at character `p`.
pub fn cluster_at(gs: &Vec<String>, p: usize) -> (r: Option<usize>)
    requires
        concat_all(views_of(gs@)).len() <= usize::MAX,
    ensures
        opt_int(r) == cluster_index(views_of(gs@), p as int, 0, 0),
        r matches Some(k) ==> k < gs@.len(),
{
    let ghost v = views_of(gs@);
    let mut k: usize = 0;
    let mut off: usize = 0;
    while k < gs.len()
        invariant
            v == views_of(gs@),
            concat_all(v).len() <= usize::MAX,
            k <= gs@.len(),
            off == concat_all(v.take(k as int)).len(),
            cluster_index(v, p as int, 0, 0) == cluster_index(v, p as int, k as int, off as int),
        decreases gs@.len() - k,
    {
        if off == p {
            return Some(k);
        }
        let w = gs[k].as_str().unicode_len();
        proof {
            assert(v.take(k + 1).drop_last() =~= v.take(k as int));
            assert(v[k as int] == gs@[k as int]@);
            lemma_concat_split(v, k + 1);
        }
        off = off + w;
        k = k + 1;
    }
    None
}

} // verus!
