//! Rebuilding text from a sequence of clusters: a range of them, with a
//! character put in, or with one left out.
use crate::segment::{concat_all, lemma_concat_append, push_char, views_of};
use vstd::prelude::*;
use vstd::string::StringExecFns;

verus! {

/// Clusters `from` up to `to` of `g`, joined.
pub fn join_range(g: &Vec<String>, from: usize, to: usize) -> (r: String)
    requires
        from <= to <= g@.len(),
    ensures
        r@ == concat_all(views_of(g@).subrange(from as int, to as int)),
{
    let ghost v = views_of(g@);
    let mut out = String::new();
    let mut i: usize = from;
    proof {
        assert(v.subrange(from as int, from as int) =~= Seq::<Seq<char>>::empty());
        assert(concat_all(Seq::<Seq<char>>::empty()) == Seq::<char>::empty());
    }
    while i < to
        invariant
            v == views_of(g@),
            from <= i <= to <= g@.len(),
            out@ == concat_all(v.subrange(from as int, i as int)),
        decreases to - i,
    {
        out.append(g[i].as_str());
        proof {
            assert(g@[i as int]@ == v[i as int]);
            assert(v.subrange(from as int, i + 1).drop_last() =~= v.subrange(from as int, i as int));
        }
        i = i + 1;
    }
    out
}

/// The clusters of `g` joined, with `c` just before cluster `at`.
pub fn join_inserting(g: &Vec<String>, at: usize, c: char) -> (r: String)
    requires
        at <= g@.len(),
    ensures
        r@ == concat_all(views_of(g@).take(at as int)) + seq![c] + concat_all(
            views_of(g@).skip(at as int),
        ),
{
    let ghost v = views_of(g@);
    let mut out = join_range(g, 0, at);
    push_char(&mut out, c);
    let rest = join_range(g, at, g.len());
    out.append(rest.as_str());
    proof {
        assert(v.subrange(0, at as int) =~= v.take(at as int));
        assert(v.subrange(at as int, v.len() as int) =~= v.skip(at as int));
    }
    out
}

/// The clusters of `g` joined, cluster `at` left out.
pub fn join_without(g: &Vec<String>, at: usize) -> (r: String)
    requires
        at < g@.len(),
    ensures
        r@ == concat_all(views_of(g@).remove(at as int)),
{
    let ghost v = views_of(g@);
    let n = g.len();
    let mut out = join_range(g, 0, at);
    let rest = join_range(g, at + 1, n);
    out.append(rest.as_str());
    proof {
        lemma_concat_append(v.subrange(0, at as int), v.subrange(at + 1, v.len() as int));
        assert(v.subrange(0, at as int) + v.subrange(at + 1, v.len() as int) =~= v.remove(at as int));
    }
    out
}

} // verus!
