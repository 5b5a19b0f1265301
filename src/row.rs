//! One line of text, addressed by grapheme cluster.
use crate::color::{fg_reset, fg_reset_code, fg_rgb, fg_rgb_code};
use crate::filetype::HighLightingOptions;
use crate::highlighting::{classify, classify_chars, ints, lemma_walk_len, Type};
use crate::position::SearchDirection;
use crate::splice::{join_inserting, join_range, join_without};
use crate::search::{
    cluster_at, cluster_index, find_first, find_last, first_match, last_match,
    lemma_cluster_index_bound, lemma_cluster_index_from, lemma_first_match_occurs,
    lemma_last_match_occurs, leftmost, occurs_at, opt_int, rightmost,
};
use crate::segment::{
    all_nonempty, chars_of, clusters, concat_all, graphemes_of, lemma_concat_append,
    lemma_concat_len, lemma_concat_split, push_char, views_of, well_segmented,
};
use vstd::prelude::*;
use vstd::utf8::encode_utf8;
use vstd::string::StrSliceExecFns;
use vstd::string::StringExecFns;

verus! {

/// `s` with `c` placed just before cluster `at`, or at the end when `at` is
/// not below the number of clusters.
pub open spec fn inserted(s: Seq<char>, at: int, c: char) -> Seq<char> {
    let g = graphemes_of(s);
    let k = if at < g.len() { at } else { g.len() as int };
    concat_all(g.take(k)) + seq![c] + concat_all(g.skip(k))
}

/// `s` without cluster `at`; `s` itself when there is no such cluster.
pub open spec fn deleted(s: Seq<char>, at: int) -> Seq<char> {
    let g = graphemes_of(s);
    if 0 <= at < g.len() {
        concat_all(g.remove(at))
    } else {
        s
    }
}

/// How many clusters stay on the line when it is split at `at`: those up to
/// and including cluster `at`.
pub open spec fn split_point(s: Seq<char>, at: int) -> int {
    let n = graphemes_of(s).len() as int;
    if at + 1 < n {
        at + 1
    } else {
        n
    }
}

/// The part of `s` that stays when it is split at `at`.
pub open spec fn split_head(s: Seq<char>, at: int) -> Seq<char> {
    concat_all(graphemes_of(s).take(split_point(s, at)))
}

/// The part of `s` that moves to a new row when it is split at `at`.
pub open spec fn split_tail(s: Seq<char>, at: int) -> Seq<char> {
    concat_all(graphemes_of(s).skip(split_point(s, at)))
}

/// The clusters of `s` that a search from `at` in direction `dir` looks at:
/// from `at` to the end going forward, from the start up to `at` going back.
pub open spec fn search_span(n: int, at: int, dir: SearchDirection) -> (int, int) {
    match dir {
        SearchDirection::Forward => (at, n),
        SearchDirection::Backward => (0, at),
    }
}

/// Where a search for `q` from cluster `at` of `s` finds a match, as a
/// cluster index of `s`: the first match going forward, the last going back,
/// reported only where the match begins a cluster of the searched span.
pub open spec fn row_find(s: Seq<char>, q: Seq<char>, at: int, dir: SearchDirection) -> Option<int> {
    let g = graphemes_of(s);
    if at > g.len() || q.len() == 0 {
        None
    } else {
        let (start, end) = search_span(g.len() as int, at, dir);
        let sub = concat_all(g.subrange(start, end));
        let m = match dir {
            SearchDirection::Forward => leftmost(sub, q),
            SearchDirection::Backward => rightmost(sub, q),
        };
        match m {
            Some(p) => match cluster_index(graphemes_of(sub), p, 0, 0) {
                Some(k) => Some(start + k),
                None => None,
            },
            None => None,
        }
    }
}

/// The starts of the successive matches of `w` (of `wl` clusters) in `s`,
/// each search going forward from the cluster just past the previous match.
pub open spec fn match_starts(s: Seq<char>, w: Seq<char>, wl: int, from: int) -> Seq<int>
    decreases (if 0 <= from <= graphemes_of(s).len() {
        graphemes_of(s).len() + 1 - from
    } else {
        0
    }),
{
    if from < 0 || from > graphemes_of(s).len() {
        Seq::empty()
    } else {
        match row_find(s, w, from, SearchDirection::Forward) {
            Some(m) => if from <= m && wl > 0 && m + wl <= graphemes_of(s).len() {
                seq![m] + match_starts(s, w, wl, m + wl)
            } else {
                seq![m]
            },
            None => Seq::empty(),
        }
    }
}

pub open spec fn opt_view(word: Option<&str>) -> Option<Seq<char>> {
    match word {
        Some(w) => Some(w@),
        None => None,
    }
}

/// The highlight tags of a row with text `s`: with a word, its matches are
/// marked first, then numbers when `numbers` is set.
pub open spec fn row_tags(s: Seq<char>, numbers: bool, word: Option<Seq<char>>) -> Seq<Type> {
    match word {
        Some(w) => {
            let wl = graphemes_of(w).len() as int;
            classify(s, numbers, match_starts(s, w, wl, 0), wl)
        },
        None => classify(s, numbers, Seq::empty(), 0),
    }
}

/// Inserting a character and then deleting at the same cluster position gives
/// back the text and the length, wherever the inserted character stands as a
/// cluster of its own between the clusters around it.
pub proof fn lemma_insert_then_delete(r0: Row, r1: Row, at: usize, c: char)
    requires
        r0.wf(),
        r1.wf(),
        at <= r0.count(),
        r1.text() == inserted(r0.text(), at as int, c),
        graphemes_of(r1.text()) == graphemes_of(r0.text()).insert(at as int, seq![c]),
    ensures
        deleted(r1.text(), at as int) == r0.text(),
        r1.count() == r0.count() + 1,
{
    let g = graphemes_of(r0.text());
    assert(graphemes_of(r1.text()).remove(at as int) =~= g);
}

/// Splitting a row and appending the split-off part back onto what stayed
/// gives back the text it started with.
pub proof fn lemma_split_then_append(r: Row, at: usize)
    requires
        r.wf(),
        at < r.count(),
    ensures
        split_head(r.text(), at as int) + split_tail(r.text(), at as int) == r.text(),
{
    lemma_concat_split(graphemes_of(r.text()), split_point(r.text(), at as int));
}

proof fn lemma_first_unique(s: Seq<char>, q: Seq<char>, p: int, from: int)
    requires
        0 <= from <= p,
        occurs_at(s, q, p),
        forall|p2: int| #[trigger] occurs_at(s, q, p2) ==> p2 == p,
    ensures
        first_match(s, q, from) == Some(p),
    decreases p - from,
{
    if from < p {
        lemma_first_unique(s, q, p, from + 1);
    }
}

proof fn lemma_last_unique(s: Seq<char>, q: Seq<char>, p: int, upto: int)
    requires
        0 <= p <= upto,
        occurs_at(s, q, p),
        forall|p2: int| #[trigger] occurs_at(s, q, p2) ==> p2 == p,
    ensures
        last_match(s, q, upto) == Some(p),
    decreases upto - p,
{
    if upto > p {
        lemma_last_unique(s, q, p, upto - 1);
    }
}

/// Where `q` occurs exactly once in a row, a forward search from the row's
/// start and a backward search from its end report the same cluster.
pub proof fn lemma_find_directions_agree(r: Row, q: Seq<char>, p: int)
    requires
        r.wf(),
        q.len() > 0,
        occurs_at(r.text(), q, p),
        forall|p2: int| #[trigger] occurs_at(r.text(), q, p2) ==> p2 == p,
    ensures
        row_find(r.text(), q, 0, SearchDirection::Forward) == row_find(
            r.text(),
            q,
            r.count() as int,
            SearchDirection::Backward,
        ),
        row_find(r.text(), q, 0, SearchDirection::Forward) == cluster_index(
            graphemes_of(r.text()),
            p,
            0,
            0,
        ),
{
    let s = r.text();
    let g = graphemes_of(s);
    assert(g.subrange(0, g.len() as int) =~= g);
    lemma_first_unique(s, q, p, 0);
    lemma_last_unique(s, q, p, s.len() - q.len());
}

/// What a cluster shows as: its first character, a tab as four spaces.
pub open spec fn shown(g: Seq<char>) -> Seq<char> {
    if g[0] == '\t' {
        seq![' ', ' ', ' ', ' ']
    } else {
        seq![g[0]]
    }
}

/// The tag a renderer uses for the `i`-th shown cluster.
pub open spec fn tag_at(tags: Seq<Type>, i: int) -> Type {
    if 0 <= i < tags.len() {
        tags[i]
    } else {
        Type::Normal
    }
}

/// The rendering of clusters `start + i` up to `start + count` of `gs`, the
/// colour in force being that of `current`: a colour escape wherever the tag
/// changes, then the shown cluster; the colour is reset at the end.
pub open spec fn render_from(
    gs: Seq<Seq<char>>,
    tags: Seq<Type>,
    start: int,
    i: int,
    count: int,
    current: Type,
) -> Seq<char>
    decreases count - i,
{
    if i >= count {
        fg_reset_code()
    } else {
        let t = tag_at(tags, i);
        let esc = if t != current {
            fg_rgb_code(t.spec_color())
        } else {
            Seq::empty()
        };
        esc + shown(gs[start + i]) + render_from(gs, tags, start, i + 1, count, t)
    }
}

/// The visible text of clusters `start` to `end` of a row of text `s`, both
/// bounds clamped to the number of clusters.
pub open spec fn rendered(s: Seq<char>, tags: Seq<Type>, start: int, end: int) -> Seq<char> {
    let n = graphemes_of(s).len() as int;
    let e = if end < n {
        end
    } else {
        n
    };
    let b = if start < e {
        start
    } else {
        e
    };
    render_from(graphemes_of(s), tags, b, 0, e - b, Type::Normal)
}

/// The rendering of clusters `start` up to `end` of `g` with tags `tags`.
pub fn render_clusters(g: &Vec<String>, tags: &Vec<Type>, start: usize, end: usize) -> (r: String)
    requires
        start <= end <= g@.len(),
        all_nonempty(views_of(g@)),
    ensures
        r@ == render_from(views_of(g@), tags@, start as int, 0, end - start, Type::Normal),
{
    let ghost v = views_of(g@);
    let count = end - start;
    let glen = g.len();
    let mut result = String::new();
    let mut current = Type::Normal;
    let mut i: usize = 0;
    proof {
        assert(result@ + render_from(v, tags@, start as int, 0, count as int, current)
            =~= render_from(v, tags@, start as int, 0, count as int, Type::Normal));
    }
    while i < count
        invariant
            v == views_of(g@),
            all_nonempty(v),
            glen == g@.len(),
            start + count <= g@.len(),
            i <= count,
            result@ + render_from(v, tags@, start as int, i as int, count as int, current)
                == render_from(v, tags@, start as int, 0, count as int, Type::Normal),
        decreases count - i,
    {
        let ghost before = result@;
        let ghost prev = current;
        let grapheme = g[start + i].as_str();
        proof {
            assert(grapheme@ == v[start + i]);
            assert(v[start + i].len() > 0);
        }
        let c = grapheme.get_char(0);
        let t = if i < tags.len() {
            tags[i]
        } else {
            Type::Normal
        };
        let ghost esc = if t != current {
            fg_rgb_code(t.spec_color())
        } else {
            Seq::<char>::empty()
        };
        if t != current {
            current = t;
            let code = fg_rgb(t.to_color());
            result.append(code.as_str());
        } else {
            proof {
                assert(result@ =~= before + esc);
            }
        }
        if c == '\t' {
            result.append("    ");
            proof {
                reveal_strlit("    ");
            }
        } else {
            push_char(&mut result, c);
        }
        proof {
            assert(result@ =~= before + esc + shown(v[start + i]));
            assert(result@ + render_from(v, tags@, start as int, i + 1, count as int, current)
                =~= before + render_from(v, tags@, start as int, i as int, count as int, prev));
        }
        i = i + 1;
    }
    let reset = fg_reset();
    result.append(reset.as_str());
    result
}

/// A single line of a document.
#[derive(Debug)]
pub struct Row {
    string: String,
    len: usize,
    highlighting: Vec<Type>,
}

impl Row {
    /// The characters of the line.
    pub closed spec fn text(&self) -> Seq<char> {
        self.string@
    }

    /// The cached number of clusters.
    pub closed spec fn count(&self) -> nat {
        self.len as nat
    }

    /// The tags of the last highlight pass.
    pub closed spec fn tags(&self) -> Seq<Type> {
        self.highlighting@
    }

    /// The cached count is the true number of clusters, and the clusters
    /// make up the text.
    pub open spec fn wf(&self) -> bool {
        &&& self.count() == graphemes_of(self.text()).len()
        &&& well_segmented(self.text())
    }

    /// A row holding `s`, not yet highlighted.
    pub fn from(s: &str) -> (r: Row)
        ensures
            r.wf(),
            r.text() == s@,
            r.count() == graphemes_of(s@).len(),
            r.tags() == Seq::<Type>::empty(),
    {
        let g = clusters(s);
        Row { string: String::from_str(s), len: g.len(), highlighting: Vec::new() }
    }

    /// The number of clusters.
    pub fn len(&self) -> (r: usize)
        ensures
            r == self.count(),
    {
        self.len
    }

    pub fn is_empty(&self) -> (r: bool)
        ensures
            r == (self.count() == 0),
    {
        self.len == 0
    }

    /// Counts the clusters of the text anew.
    pub fn update_len(&mut self)
        ensures
            final(self).wf(),
            final(self).text() == old(self).text(),
            final(self).tags() == old(self).tags(),
    {
        let g = clusters(self.string.as_str());
        self.len = g.len();
    }

    /// Puts `c` before the cluster at `at`, or at the end when `at` is not
    /// below the length.
    pub fn insert(&mut self, at: usize, c: char)
        requires
            old(self).wf(),
        ensures
            final(self).wf(),
            final(self).text() == inserted(old(self).text(), at as int, c),
            final(self).tags() == old(self).tags(),
    {
        let ghost s = self.string@;
        if at >= self.len {
            push_char(&mut self.string, c);
            self.update_len();
            proof {
                let g = graphemes_of(s);
                assert(g.take(g.len() as int) =~= g);
                assert(g.skip(g.len() as int) =~= Seq::<Seq<char>>::empty());
                assert(concat_all(Seq::<Seq<char>>::empty()) == Seq::<char>::empty());
                assert(self.string@ =~= inserted(s, at as int, c));
            }
            return;
        }
        let g = clusters(self.string.as_str());
        self.string = join_inserting(&g, at, c);
        self.update_len();
    }
    /// Removes the cluster at `at`; does nothing when `at` is not below the
    /// length.
    pub fn delete(&mut self, at: usize)
        requires
            old(self).wf(),
        ensures
            final(self).wf(),
            final(self).text() == deleted(old(self).text(), at as int),
            final(self).tags() == old(self).tags(),
    {
        let ghost s = self.string@;
        if at >= self.len {
            return;
        }
        let g = clusters(self.string.as_str());
        self.string = join_without(&g, at);
        self.update_len();
    }

    /// Adds the text of `new` at the end of this row.
    pub fn append(&mut self, new: &Row)
        requires
            old(self).wf(),
        ensures
            final(self).wf(),
            final(self).text() == old(self).text() + new.text(),
            final(self).tags() == old(self).tags(),
    {
        self.string.append(new.string.as_str());
        self.update_len();
    }

    /// Keeps the clusters up to and including `at` and returns a new row,
    /// not yet highlighted, with the rest.
    pub fn split(&mut self, at: usize) -> (r: Row)
        requires
            old(self).wf(),
        ensures
            final(self).wf(),
            r.wf(),
            final(self).text() == split_head(old(self).text(), at as int),
            r.text() == split_tail(old(self).text(), at as int),
            final(self).tags() == old(self).tags(),
            r.tags() == Seq::<Type>::empty(),
    {
        let ghost s = self.string@;
        let g = clusters(self.string.as_str());
        let ghost v = views_of(g@);
        let n = g.len();
        let k = if n > 0 && at < n - 1 {
            at + 1
        } else {
            n
        };
        proof {
            assert(k == split_point(s, at as int));
            assert(v.subrange(0, k as int) =~= v.take(k as int));
            assert(v.subrange(k as int, n as int) =~= v.skip(k as int));
        }
        let beginning = join_range(&g, 0, k);
        let remainder = join_range(&g, k, n);
        self.string = beginning;
        self.update_len();
        let mut rest = Row { string: remainder, len: 0, highlighting: Vec::new() };
        rest.update_len();
        rest
    }
    /// Searches this row for `query` from cluster `at` in `direction`.
    pub fn find(&self, query: &str, at: usize, direction: SearchDirection) -> (r: Option<usize>)
        requires
            self.wf(),
        ensures
            opt_int(r) == row_find(self.text(), query@, at as int, direction),
            r matches Some(m) ==> m + query@.len() <= self.text().len(),
    {
        if at > self.len || query.is_empty() {
            return None;
        }
        let total = self.string.as_str().unicode_len();
        let g = clusters(self.string.as_str());
        let ghost s = self.string@;
        let ghost v = views_of(g@);
        let (start, end) = match direction {
            SearchDirection::Forward => (at, self.len),
            SearchDirection::Backward => (0, at),
        };
        let sub = join_range(&g, start, end);
        let sc = chars_of(sub.as_str());
        let sub_len = sc.len();
        let qc = chars_of(query);
        let m = match direction {
            SearchDirection::Forward => find_first(&sc, &qc),
            SearchDirection::Backward => find_last(&sc, &qc),
        };
        match m {
            Some(p) => {
                let sg = clusters(sub.as_str());
                match cluster_at(&sg, p) {
                    Some(k) => {
                        proof {
                            let sv = views_of(sg@);
                            lemma_concat_len(sv);
                            let head = v.take(start as int);
                            assert(all_nonempty(head)) by {
                                assert forall|t: int| 0 <= t < head.len() implies #[trigger] head[t].len() > 0 by {
                                    assert(head[t] == v[t]);
                                }
                            }
                            lemma_concat_len(head);
                            lemma_concat_append(head, v.subrange(start as int, end as int));
                            assert(head + v.subrange(start as int, end as int) =~= v.take(end as int));
                            lemma_concat_split(v, end as int);
                            lemma_cluster_index_bound(sv, p as int, 0, 0);
                            lemma_first_match_occurs(sc@, qc@, 0);
                            lemma_last_match_occurs(sc@, qc@, sc@.len() - qc@.len());
                            assert(occurs_at(sub@, query@, p as int));
                        }
                        Some(start + k)
                    },
                    None => None,
                }
            },
            None => None,
        }
    }
    /// Computes the tags of every character of the row afresh.
    pub fn highlight(&mut self, opts: HighLightingOptions, word: Option<&str>)
        requires
            old(self).wf(),
        ensures
            final(self).wf(),
            final(self).text() == old(self).text(),
            final(self).tags() == row_tags(old(self).text(), opts.numbers(), opt_view(word)),
            final(self).tags().len() == old(self).text().len(),
    {
        let ghost s = self.string@;
        let chars = chars_of(self.string.as_str());
        let mut matches: Vec<usize> = Vec::new();
        let mut wl: usize = 0;
        match word {
            Some(w) => {
                let wg = clusters(w);
                wl = wg.len();
                proof {
                    lemma_concat_len(graphemes_of(w@));
                }
                let n = self.len;
                let mut search_index: usize = 0;
                proof {
                    assert(ints(matches@) =~= Seq::<int>::empty());
                    assert(Seq::<int>::empty() + match_starts(s, w@, wl as int, 0) =~= match_starts(
                        s,
                        w@,
                        wl as int,
                        0,
                    ));
                }
                loop
                    invariant_except_break
                        ints(matches@) + match_starts(s, w@, wl as int, search_index as int)
                            == match_starts(s, w@, wl as int, 0),
                    invariant
                        self.wf(),
                        self.string@ == s,
                        n == graphemes_of(s).len(),
                        wl == graphemes_of(w@).len(),
                        concat_all(graphemes_of(w@)) == w@,
                        wl <= w@.len(),
                        forall|j: int|
                            0 <= j < matches@.len() ==> #[trigger] matches@[j] + wl <= s.len(),
                    ensures
                        ints(matches@) == match_starts(s, w@, wl as int, 0),
                    decreases (if search_index <= n {
                        n + 1 - search_index
                    } else {
                        0
                    }),
                {
                    match self.find(w, search_index, SearchDirection::Forward) {
                        Some(m) => {
                            proof {
                                let g = graphemes_of(s);
                                let sub = concat_all(g.subrange(search_index as int, g.len() as int));
                                lemma_cluster_index_from(graphemes_of(sub), leftmost(sub, w@)->0, 0, 0);
                                if wl == 0 {
                                    assert(graphemes_of(w@) =~= Seq::<Seq<char>>::empty());
                                    assert(concat_all(Seq::<Seq<char>>::empty()) == Seq::<char>::empty());
                                }
                            }
                            let ghost old_matches = ints(matches@);
                            matches.push(m);
                            proof {
                                assert(ints(matches@) =~= old_matches.push(m as int));
                            }
                            match m.checked_add(wl) {
                                Some(next) => {
                                    proof {
                                        assert(ints(matches@) + match_starts(s, w@, wl as int, next as int)
                                            =~= old_matches + match_starts(s, w@, wl as int, search_index as int));
                                    }
                                    search_index = next;
                                },
                                None => {
                                    proof {
                                        assert(match_starts(s, w@, wl as int, search_index as int) == seq![m as int]);
                                        assert(ints(matches@) =~= old_matches + match_starts(s, w@, wl as int, search_index as int));
                                    }
                                    break;
                                },
                            }
                        },
                        None => {
                            proof {
                                assert(match_starts(s, w@, wl as int, search_index as int) =~= Seq::<int>::empty());
                                assert(ints(matches@) + Seq::<int>::empty() =~= ints(matches@));
                            }
                            break;
                        },
                    }
                }
            },
            None => {},
        }
        self.highlighting = classify_chars(&chars, opts.numbers(), &matches, wl);
        proof {
            assert forall|j: int| 0 <= j < ints(matches@).len() implies #[trigger] ints(matches@)[j]
                + wl <= s.len() by {
                assert(ints(matches@)[j] == matches@[j] as int);
            }
            lemma_walk_len(s, opts.numbers(), ints(matches@), wl as int, 0, true, Seq::empty());
            assert(chars@ == s);
            if word is None {
                assert(ints(matches@) =~= Seq::<int>::empty());
            }
        }
    }
    /// The UTF-8 bytes of the text.
    pub fn as_bytes(&self) -> (r: &[u8])
        ensures
            r@ == encode_utf8(self.text()),
    {
        self.string.as_str().as_bytes()
    }
    /// The clusters from `start` to `end`, coloured by their tags, for display.
    pub fn render(&self, start: usize, end: usize) -> (r: String)
        requires
            self.wf(),
        ensures
            r@ == rendered(self.text(), self.tags(), start as int, end as int),
    {
        let end = if end < self.len {
            end
        } else {
            self.len
        };
        let start = if start < end {
            start
        } else {
            end
        };
        let g = clusters(self.string.as_str());
        render_clusters(&g, &self.highlighting, start, end)
    }

    /// The tags of the last highlight pass, one per character.
    pub fn highlighting(&self) -> (r: &Vec<Type>)
        ensures
            r@ == self.tags(),
    {
        &self.highlighting
    }

    /// The text.
    pub fn as_str(&self) -> (r: &str)
        ensures
            r@ == self.text(),
    {
        self.string.as_str()
    }
}

impl Default for Row {
    /// An empty row.
    fn default() -> (r: Row)
        ensures
            r.wf(),
            r.text() == Seq::<char>::empty(),
            r.count() == 0,
            r.tags() == Seq::<Type>::empty(),
    {
        let r = Row::from("");
        proof {
            reveal_strlit("");
            if graphemes_of(r.text()).len() > 0 {
                assert(all_nonempty(graphemes_of(r.text())));
                lemma_concat_len(graphemes_of(r.text()));
            }
        }
        r
    }
}

} // verus!
