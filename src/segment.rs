//! Grapheme clusters, as the `unicode-segmentation` crate splits text, and
//! the few character-level helpers the rows are built from.
use unicode_segmentation::UnicodeSegmentation;
use vstd::prelude::*;

verus! {

/// The extended grapheme clusters of `s`, in order.
pub uninterp spec fn graphemes_of(s: Seq<char>) -> Seq<Seq<char>>;

/// The clusters joined back together.
pub open spec fn concat_all(gs: Seq<Seq<char>>) -> Seq<char>
    decreases gs.len(),
{
    if gs.len() == 0 {
        Seq::empty()
    } else {
        concat_all(gs.drop_last()) + gs.last()
    }
}

/// Every cluster holds at least one character.
pub open spec fn all_nonempty(gs: Seq<Seq<char>>) -> bool {
    forall|i: int| 0 <= i < gs.len() ==> #[trigger] gs[i].len() > 0
}

/// `s` is the concatenation of its clusters, none of them empty.
pub open spec fn well_segmented(s: Seq<char>) -> bool {
    &&& concat_all(graphemes_of(s)) == s
    &&& all_nonempty(graphemes_of(s))
}

pub open spec fn views_of(v: Seq<String>) -> Seq<Seq<char>> {
    v.map_values(|g: String| g@)
}

/// Relies on `UnicodeSegmentation::graphemes(s, true)`: it yields the extended
/// grapheme clusters of `s` as consecutive non-empty slices that together
/// make up `s`.
#[verifier::external_body]
pub(crate) fn clusters(s: &str) -> (r: Vec<String>)
    ensures
        views_of(r@) == graphemes_of(s@),
        concat_all(views_of(r@)) == s@,
        all_nonempty(views_of(r@)),
{
    s.graphemes(true).map(String::from).collect()
}

/// The characters of `s`, in order.
pub(crate) fn chars_of(s: &str) -> (r: Vec<char>)
    ensures
        r@ == s@,
{
    let mut v: Vec<char> = Vec::new();
    for c in it: s.chars()
        invariant
            v@.len() == it.index(),
            forall|i: int| 0 <= i < v@.len() ==> v@[i] == it.seq()[i],
    {
        v.push(c);
    }
    proof {
        assert(v@ =~= s@);
    }
    v
}

/// Relies on `String::push`: appends one character.
#[verifier::external_body]
pub(crate) fn push_char(s: &mut String, c: char)
    ensures
        final(s)@ == old(s)@.push(c),
{
    s.push(c)
}

pub proof fn lemma_concat_append(a: Seq<Seq<char>>, b: Seq<Seq<char>>)
    ensures
        concat_all(a + b) == concat_all(a) + concat_all(b),
    decreases b.len(),
{
    if b.len() == 0 {
        assert(a + b =~= a);
        assert(concat_all(a) + concat_all(b) =~= concat_all(a));
    } else {
        lemma_concat_append(a, b.drop_last());
        assert((a + b).drop_last() =~= a + b.drop_last());
        assert((a + b).last() == b.last());
        assert(concat_all(a) + concat_all(b) =~= concat_all(a) + concat_all(b.drop_last())
            + b.last());
    }
}

pub proof fn lemma_concat_split(gs: Seq<Seq<char>>, k: int)
    requires
        0 <= k <= gs.len(),
    ensures
        concat_all(gs.take(k)) + concat_all(gs.skip(k)) == concat_all(gs),
        concat_all(gs.take(k)).len() <= concat_all(gs).len(),
{
    lemma_concat_append(gs.take(k), gs.skip(k));
    assert(gs.take(k) + gs.skip(k) =~= gs);
}

/// Non-empty clusters hold at least as many characters as there are clusters.
pub proof fn lemma_concat_len(gs: Seq<Seq<char>>)
    requires
        all_nonempty(gs),
    ensures
        concat_all(gs).len() >= gs.len(),
    decreases gs.len(),
{
    if gs.len() > 0 {
        assert(all_nonempty(gs.drop_last())) by {
            assert forall|i: int| 0 <= i < gs.drop_last().len() implies #[trigger] gs.drop_last()[i].len() > 0 by {
                assert(gs.drop_last()[i] == gs[i]);
            }
        }
        lemma_concat_len(gs.drop_last());
        assert(gs.last().len() > 0);
    }
}

} // verus!
