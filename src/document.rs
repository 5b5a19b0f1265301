//! A document: an ordered sequence of rows with a file name, a dirty flag
//! and a file type.
use crate::highlighting::Type;
use crate::filetype::{default_name, is_rust_file, rust_name, FileType, HighLightingOptions};
use crate::position::{Position, SearchDirection};
use crate::row::{
    deleted, inserted, opt_view, row_find, row_tags, split_head, split_point, split_tail, Row,
};
use crate::segment::{chars_of, concat_all, graphemes_of, lemma_concat_len, push_char};
use vstd::prelude::*;
use vstd::string::StringExecFns;

verus! {

/// The texts after a line break at column `x` of row `y`: a new empty row at
/// the end when `y` is the row count, else row `y` split at `x`, its
/// remainder placed just after it.
pub open spec fn broken(texts: Seq<Seq<char>>, x: int, y: int) -> Seq<Seq<char>> {
    if y >= texts.len() {
        texts.push(Seq::empty())
    } else {
        texts.update(y, split_head(texts[y], x)).insert(y + 1, split_tail(texts[y], x))
    }
}

/// The texts after row `y + 1` is merged onto the end of row `y`.
pub open spec fn merged(texts: Seq<Seq<char>>, y: int) -> Seq<Seq<char>> {
    texts.update(y, texts[y] + texts[y + 1]).remove(y + 1)
}

/// The texts after typing `c` at `(x, y)`.
pub open spec fn after_insert(texts: Seq<Seq<char>>, x: int, y: int, c: char) -> Seq<Seq<char>> {
    if y > texts.len() {
        texts
    } else if c == '\n' {
        broken(texts, x, y)
    } else if y == texts.len() {
        texts.push(seq![c])
    } else {
        texts.update(y, inserted(texts[y], x, c))
    }
}

/// The texts after a delete at `(x, y)`: at the end of a row with a
/// successor the two merge, elsewhere cluster `x` of row `y` goes.
pub open spec fn after_delete(texts: Seq<Seq<char>>, x: int, y: int) -> Seq<Seq<char>> {
    if y < 0 || y >= texts.len() {
        texts
    } else if y + 1 < texts.len() && x == graphemes_of(texts[y]).len() {
        merged(texts, y)
    } else {
        texts.update(y, deleted(texts[y], x))
    }
}

/// Rows `lo` up to `hi` of `new` are rows `lo + shift` up to `hi + shift` of
/// `old`, text and tags alike.
pub open spec fn kept(new: Seq<Row>, old: Seq<Row>, lo: int, hi: int, shift: int) -> bool {
    forall|i: int| lo <= i < hi ==> #[trigger] new[i] == old[i + shift]
}

pub open spec fn texts_of(rows: Seq<Row>) -> Seq<Seq<char>> {
    rows.map_values(|r: Row| r.text())
}

pub open spec fn all_wf(rows: Seq<Row>) -> bool {
    forall|i: int| 0 <= i < rows.len() ==> #[trigger] rows[i].wf()
}

/// `s` cut at each line feed, the line feeds dropped.
pub open spec fn pieces(s: Seq<char>) -> Seq<Seq<char>>
    decreases s.len(),
{
    if s.len() == 0 {
        seq![Seq::empty()]
    } else {
        let p = pieces(s.drop_last());
        if s.last() == '\n' {
            p.push(Seq::empty())
        } else {
            p.update(p.len() - 1, p.last().push(s.last()))
        }
    }
}

/// The lines of `s`: its pieces, less the empty one after a final line feed.
pub open spec fn lines_of(s: Seq<char>) -> Seq<Seq<char>> {
    if s.len() == 0 {
        Seq::empty()
    } else if s.last() == '\n' {
        pieces(s).drop_last()
    } else {
        pieces(s)
    }
}

/// Each line followed by a line feed.
pub open spec fn joined(texts: Seq<Seq<char>>) -> Seq<char>
    decreases texts.len(),
{
    if texts.len() == 0 {
        Seq::empty()
    } else {
        joined(texts.drop_last()) + texts.last() + seq!['\n']
    }
}

pub proof fn lemma_pieces_nonempty(s: Seq<char>)
    ensures
        pieces(s).len() >= 1,
    decreases s.len(),
{
    if s.len() > 0 {
        lemma_pieces_nonempty(s.drop_last());
    }
}

/// A forward search from `(x, y)`: row `y` from column `x`, then each later
/// row from its start.
pub open spec fn find_forward(texts: Seq<Seq<char>>, q: Seq<char>, x: int, y: int) -> Option<(int, int)>
    decreases texts.len() - y,
{
    if y < 0 || y >= texts.len() {
        None
    } else {
        match row_find(texts[y], q, x, SearchDirection::Forward) {
            Some(k) => Some((k, y)),
            None => find_forward(texts, q, 0, y + 1),
        }
    }
}

/// A backward search from `(x, y)`: row `y` up to column `x`, then each
/// earlier row from its own end.
pub open spec fn find_backward(texts: Seq<Seq<char>>, q: Seq<char>, x: int, y: int) -> Option<(int, int)>
    decreases y,
{
    if y < 0 || y >= texts.len() {
        None
    } else {
        match row_find(texts[y], q, x, SearchDirection::Backward) {
            Some(k) => Some((k, y)),
            None => if y == 0 {
                None
            } else {
                find_backward(texts, q, graphemes_of(texts[y - 1]).len() as int, y - 1)
            },
        }
    }
}

pub open spec fn doc_find(texts: Seq<Seq<char>>, q: Seq<char>, x: int, y: int, dir: SearchDirection) -> Option<(int, int)> {
    match dir {
        SearchDirection::Forward => find_forward(texts, q, x, y),
        SearchDirection::Backward => find_backward(texts, q, x, y),
    }
}

pub open spec fn pos_view(p: Option<Position>) -> Option<(int, int)> {
    match p {
        Some(p) => Some((p.x as int, p.y as int)),
        None => None,
    }
}

proof fn lemma_pieces_joined(t: Seq<Seq<char>>, w: Seq<char>)
    requires
        forall|i: int| 0 <= i < t.len() ==> !(#[trigger] t[i]).contains('\n'),
        !w.contains('\n'),
    ensures
        pieces(joined(t) + w) == t.push(w),
    decreases t.len(), w.len(),
{
    if w.len() > 0 {
        let w0 = w.drop_last();
        assert(!w0.contains('\n')) by {
            if w0.contains('\n') {
                let k = choose|k: int| 0 <= k < w0.len() && w0[k] == '\n';
                assert(w[k] == '\n');
            }
        }
        lemma_pieces_joined(t, w0);
        assert((joined(t) + w).drop_last() =~= joined(t) + w0);
        assert(w.last() != '\n') by {
            assert(w[w.len() - 1] == w.last());
        }
        assert(w0.push(w.last()) =~= w);
        let x = joined(t) + w;
        assert(x.last() == w.last());
        assert(x.drop_last() =~= joined(t) + w0);
        assert(t.push(w0).update(t.len() as int, w0.push(w.last())) =~= t.push(w));
        assert(pieces(x) == pieces(x.drop_last()).update(t.len() as int, w0.push(x.last())));
    } else if t.len() == 0 {
        assert(joined(t) + w =~= Seq::<char>::empty());
        assert(t.push(w) =~= seq![Seq::<char>::empty()]);
    } else {
        let t0 = t.drop_last();
        let l = t.last();
        assert forall|i: int| 0 <= i < t0.len() implies !(#[trigger] t0[i]).contains('\n') by {
            assert(t0[i] == t[i]);
        }
        assert(!l.contains('\n')) by {
            assert(t[t.len() - 1] == l);
        }
        lemma_pieces_joined(t0, l);
        assert(joined(t) + w =~= joined(t0) + l + seq!['\n']);
        let x = joined(t0) + l + seq!['\n'];
        assert(x.drop_last() =~= joined(t0) + l);
        assert(x.last() == '\n');
        assert(pieces(x) == pieces(x.drop_last()).push(Seq::<char>::empty()));
        assert(w =~= Seq::<char>::empty());
        assert(t0.push(l) =~= t);
    }
}

/// Reading back what a save writes gives the same rows, for rows without
/// line feeds.
pub proof fn lemma_save_then_open(texts: Seq<Seq<char>>)
    requires
        forall|i: int| 0 <= i < texts.len() ==> !(#[trigger] texts[i]).contains('\n'),
    ensures
        lines_of(joined(texts)) == texts,
{
    lemma_pieces_joined(texts, Seq::empty());
    assert(joined(texts) + Seq::<char>::empty() =~= joined(texts));
    if texts.len() > 0 {
        let j = joined(texts);
        assert(j =~= joined(texts.drop_last()) + texts.last() + seq!['\n']);
        assert(j.last() == '\n');
        assert(texts.push(Seq::<char>::empty()).drop_last() =~= texts);
    } else {
        assert(joined(texts) =~= Seq::<char>::empty());
    }
}

/// Breaking row `y` at its end and then deleting at the start of the new row
/// that follows gives back the texts it started from, wherever another row follows
/// row `y`.
pub proof fn lemma_line_break_then_delete(d0: Document, d1: Document, y: usize)
    requires
        d0.wf(),
        d1.wf(),
        y + 1 < d0.texts().len(),
        d1.texts() == after_insert(
            d0.texts(),
            graphemes_of(d0.texts()[y as int]).len() as int,
            y as int,
            '\n',
        ),
    ensures
        after_delete(d1.texts(), 0, y + 1) == d0.texts(),
{
    let t0 = d0.texts();
    let s = t0[y as int];
    let g = graphemes_of(s);
    let n = g.len() as int;
    assert(d0.rows_spec()[y as int].wf());
    assert(split_point(s, n) == n);
    assert(g.take(n) =~= g);
    assert(g.skip(n) =~= Seq::<Seq<char>>::empty());
    assert(concat_all(Seq::<Seq<char>>::empty()) == Seq::<char>::empty());
    assert(split_head(s, n) == s);
    assert(split_tail(s, n) == Seq::<char>::empty());
    let t1 = d1.texts();
    assert(t1.len() == t0.len() + 1);
    assert(d1.rows_spec().len() == t1.len());
    assert(t1[y + 1] == Seq::<char>::empty());
    assert(d1.rows_spec()[y + 1].text() == t1[y + 1]);
    assert(d1.rows_spec()[y + 1].wf());
    let ge = graphemes_of(Seq::<char>::empty());
    if ge.len() > 0 {
        lemma_concat_len(ge);
    }
    assert(t1[y + 2] == t0[y + 1]);
    assert(merged(t1, y + 1) =~= t0);
}

/// The text being edited, one row per line.
#[derive(Debug)]
pub struct Document {
    rows: Vec<Row>,
    pub file_name: Option<String>,
    dirty: bool,
    file_type: FileType,
}

fn row_mut(rows: &mut Vec<Row>, i: usize) -> (r: &mut Row)
    requires
        i < old(rows)@.len(),
    ensures
        *r == old(rows)@[i as int],
        final(rows)@ == old(rows)@.update(i as int, *final(r)),
{
    &mut rows[i]
}

impl Document {
    pub closed spec fn rows_spec(&self) -> Seq<Row> {
        self.rows@
    }

    pub closed spec fn file_name_spec(&self) -> Option<String> {
        self.file_name
    }

    pub closed spec fn dirty_spec(&self) -> bool {
        self.dirty
    }

    pub closed spec fn file_type_spec(&self) -> FileType {
        self.file_type
    }

    /// The text of each row, in order.
    pub open spec fn texts(&self) -> Seq<Seq<char>> {
        texts_of(self.rows_spec())
    }

    pub open spec fn wf(&self) -> bool {
        all_wf(self.rows_spec())
    }

    pub open spec fn options(&self) -> HighLightingOptions {
        self.file_type_spec().spec_options()
    }

    /// The row at `index`, if there is one.
    pub fn row(&self, index: usize) -> (r: Option<&Row>)
        ensures
            index < self.rows_spec().len() ==> r == Some(&self.rows_spec()[index as int]),
            index >= self.rows_spec().len() ==> r is None,
    {
        if index < self.rows.len() {
            Some(&self.rows[index])
        } else {
            None
        }
    }

    pub fn is_empty(&self) -> (r: bool)
        ensures
            r == (self.rows_spec().len() == 0),
    {
        self.rows.len() == 0
    }

    /// The number of rows.
    pub fn len(&self) -> (r: usize)
        ensures
            r == self.rows_spec().len(),
    {
        self.rows.len()
    }

    pub fn is_dirty(&self) -> (r: bool)
        ensures
            r == self.dirty_spec(),
    {
        self.dirty
    }

    /// The display name of the file type.
    pub fn file_type(&self) -> (r: String)
        ensures
            r@ == self.file_type_spec().spec_name(),
    {
        self.file_type.name()
    }

    /// Highlights every row again, with `word` as the search term.
    pub fn highlight(&mut self, word: Option<&str>)
        requires
            old(self).wf(),
        ensures
            final(self).wf(),
            final(self).texts() == old(self).texts(),
            final(self).rows_spec().len() == old(self).rows_spec().len(),
            forall|i: int|
                0 <= i < final(self).rows_spec().len() ==> #[trigger] final(self).rows_spec()[i].tags()
                    == row_tags(
                    old(self).texts()[i],
                    old(self).options().numbers(),
                    opt_view(word),
                ),
            final(self).dirty_spec() == old(self).dirty_spec(),
            final(self).file_name_spec() == old(self).file_name_spec(),
            final(self).file_type_spec() == old(self).file_type_spec(),
    {
        let opts = self.file_type.highlighting_options();
        let ghost old_rows = self.rows@;
        let mut i: usize = 0;
        while i < self.rows.len()
            invariant
                opts == self.file_type.spec_options(),
                self.file_name == old(self).file_name,
                self.dirty == old(self).dirty,
                self.file_type == old(self).file_type,
                self.rows@.len() == old_rows.len(),
                all_wf(self.rows@),
                all_wf(old_rows),
                i <= self.rows@.len(),
                forall|j: int| 0 <= j < self.rows@.len() ==> #[trigger] self.rows@[j].text() == old_rows[j].text(),
                forall|j: int|
                    0 <= j < i ==> #[trigger] self.rows@[j].tags() == row_tags(
                        old_rows[j].text(),
                        opts.numbers(),
                        opt_view(word),
                    ),
            decreases self.rows@.len() - i,
        {
            let r = row_mut(&mut self.rows, i);
            r.highlight(opts, word);
            i = i + 1;
        }
        proof {
            assert(texts_of(self.rows@) =~= texts_of(old_rows));
        }
    }
    /// Types `c` at `at`: a line break splits the row, a character on the row
    /// just past the last one starts a new row. Does nothing when `at.y` is
    /// past that row.
    pub fn insert(&mut self, at: &Position, c: char)
        requires
            old(self).wf(),
        ensures
            final(self).wf(),
            final(self).file_name_spec() == old(self).file_name_spec(),
            final(self).file_type_spec() == old(self).file_type_spec(),
            at.y > old(self).texts().len() ==> *final(self) == *old(self),
            at.y <= old(self).texts().len() ==> final(self).dirty_spec(),
            final(self).texts() == after_insert(old(self).texts(), at.x as int, at.y as int, c),
            at.y <= old(self).texts().len() && c != '\n' ==> final(self).rows_spec()[at.y as int].tags()
                == row_tags(final(self).texts()[at.y as int], old(self).options().numbers(), None),
            at.y < old(self).texts().len() && c == '\n' ==> {
                &&& final(self).rows_spec()[at.y as int].tags() == row_tags(
                    final(self).texts()[at.y as int],
                    old(self).options().numbers(),
                    None,
                )
                &&& final(self).rows_spec()[at.y + 1].tags() == row_tags(
                    final(self).texts()[at.y + 1],
                    old(self).options().numbers(),
                    None,
                )
            },
            at.y < old(self).texts().len() && c != '\n' ==> {
                &&& kept(final(self).rows_spec(), old(self).rows_spec(), 0, at.y as int, 0)
                &&& kept(
                    final(self).rows_spec(),
                    old(self).rows_spec(),
                    at.y + 1,
                    old(self).texts().len() as int,
                    0,
                )
            },
            at.y == old(self).texts().len() ==> kept(
                final(self).rows_spec(),
                old(self).rows_spec(),
                0,
                at.y as int,
                0,
            ),
            at.y == old(self).texts().len() && c == '\n'
                ==> final(self).rows_spec()[at.y as int].tags() == Seq::<Type>::empty(),
            at.y < old(self).texts().len() && c == '\n' ==> {
                &&& kept(final(self).rows_spec(), old(self).rows_spec(), 0, at.y as int, 0)
                &&& kept(
                    final(self).rows_spec(),
                    old(self).rows_spec(),
                    at.y + 2,
                    old(self).texts().len() + 1 as int,
                    -1,
                )
            },
    {
        if at.y > self.rows.len() {
            return;
        }
        self.dirty = true;
        if c == '\n' {
            self.insert_newline(at);
            return;
        }
        let opts = self.file_type.highlighting_options();
        let ghost old_rows = self.rows@;
        if at.y == self.rows.len() {
            let mut row = Row::default();
            row.insert(0, c);
            proof {
                let g = graphemes_of(Seq::<char>::empty());
                assert(g.take(0) =~= Seq::<Seq<char>>::empty());
                assert(g =~= Seq::<Seq<char>>::empty());
                assert(crate::segment::concat_all(Seq::<Seq<char>>::empty()) == Seq::<char>::empty());
                assert(row.text() =~= seq![c]);
            }
            row.highlight(opts, None);
            self.rows.push(row);
            proof {
                assert(texts_of(self.rows@) =~= texts_of(old_rows).push(seq![c]));
            }
        } else {
            let r = row_mut(&mut self.rows, at.y);
            r.insert(at.x, c);
            r.highlight(opts, None);
            proof {
                assert(texts_of(self.rows@) =~= texts_of(old_rows).update(
                    at.y as int,
                    inserted(old_rows[at.y as int].text(), at.x as int, c),
                ));
            }
        }
    }

    fn insert_newline(&mut self, at: &Position)
        requires
            old(self).wf(),
            at.y <= old(self).texts().len(),
        ensures
            final(self).wf(),
            final(self).file_name_spec() == old(self).file_name_spec(),
            final(self).file_type_spec() == old(self).file_type_spec(),
            final(self).dirty_spec() == old(self).dirty_spec(),
            final(self).texts() == broken(old(self).texts(), at.x as int, at.y as int),
            at.y < old(self).texts().len() ==> {
                &&& final(self).rows_spec()[at.y as int].tags() == row_tags(
                    final(self).texts()[at.y as int],
                    old(self).options().numbers(),
                    None,
                )
                &&& final(self).rows_spec()[at.y + 1].tags() == row_tags(
                    final(self).texts()[at.y + 1],
                    old(self).options().numbers(),
                    None,
                )
                &&& kept(
                    final(self).rows_spec(),
                    old(self).rows_spec(),
                    at.y + 2,
                    old(self).texts().len() + 1 as int,
                    -1,
                )
            },
            kept(final(self).rows_spec(), old(self).rows_spec(), 0, at.y as int, 0),
            at.y == old(self).texts().len() ==> final(self).rows_spec()[at.y as int].tags()
                == Seq::<Type>::empty(),
    {
        if at.y > self.rows.len() {
            return;
        }
        let ghost old_rows = self.rows@;
        if at.y >= self.rows.len() {
            self.rows.push(Row::default());
            proof {
                assert(texts_of(self.rows@) =~= texts_of(old_rows).push(Seq::empty()));
            }
            return;
        }
        let opts = self.file_type.highlighting_options();
        let current_row = row_mut(&mut self.rows, at.y);
        let mut new_row = current_row.split(at.x);
        current_row.highlight(opts, None);
        new_row.highlight(opts, None);
        self.rows.insert(at.y + 1, new_row);
        proof {
            let t = old_rows[at.y as int].text();
            assert(texts_of(self.rows@) =~= texts_of(old_rows).update(
                at.y as int,
                split_head(t, at.x as int),
            ).insert(at.y + 1, split_tail(t, at.x as int)));
        }
    }

    /// Deletes at `at`: at the end of a row that has a successor the two rows
    /// merge, elsewhere the cluster at `at.x` goes. Does nothing when `at.y`
    /// is not a row.
    pub fn delete(&mut self, at: &Position)
        requires
            old(self).wf(),
        ensures
            final(self).wf(),
            final(self).file_name_spec() == old(self).file_name_spec(),
            final(self).file_type_spec() == old(self).file_type_spec(),
            at.y >= old(self).texts().len() ==> *final(self) == *old(self),
            at.y < old(self).texts().len() ==> final(self).dirty_spec(),
            at.y < old(self).texts().len() ==> final(self).rows_spec()[at.y as int].tags() == row_tags(
                final(self).texts()[at.y as int],
                old(self).options().numbers(),
                None,
            ),
            final(self).texts() == after_delete(old(self).texts(), at.x as int, at.y as int),
            at.y < old(self).texts().len() ==> kept(
                final(self).rows_spec(),
                old(self).rows_spec(),
                0,
                at.y as int,
                0,
            ),
            at.y + 1 < old(self).texts().len() && at.x == graphemes_of(
                old(self).texts()[at.y as int],
            ).len() ==> kept(
                final(self).rows_spec(),
                old(self).rows_spec(),
                at.y + 1,
                old(self).texts().len() - 1 as int,
                1,
            ),
            at.y < old(self).texts().len() && !(at.y + 1 < old(self).texts().len() && at.x
                == graphemes_of(old(self).texts()[at.y as int]).len()) ==> kept(
                final(self).rows_spec(),
                old(self).rows_spec(),
                at.y + 1,
                old(self).texts().len() as int,
                0,
            ),
    {
        let len = self.rows.len();
        if at.y >= len {
            return;
        }
        self.dirty = true;
        let opts = self.file_type.highlighting_options();
        let ghost old_rows = self.rows@;
        proof {
            assert(old_rows[at.y as int].wf());
        }
        if at.x == self.rows[at.y].len() && at.y + 1 < len {
            let next_row = self.rows.remove(at.y + 1);
            let r = row_mut(&mut self.rows, at.y);
            r.append(&next_row);
            r.highlight(opts, None);
            proof {
                assert(texts_of(self.rows@) =~= merged(texts_of(old_rows), at.y as int));
            }
        } else {
            let r = row_mut(&mut self.rows, at.y);
            r.delete(at.x);
            r.highlight(opts, None);
            proof {
                assert(texts_of(self.rows@) =~= texts_of(old_rows).update(
                    at.y as int,
                    deleted(old_rows[at.y as int].text(), at.x as int),
                ));
            }
        }
    }
    /// Searches for `query` from `at` in `direction`, across rows, without
    /// wrapping around.
    pub fn find(&self, query: &str, at: &Position, direction: SearchDirection) -> (r: Option<Position>)
        requires
            self.wf(),
        ensures
            pos_view(r) == doc_find(self.texts(), query@, at.x as int, at.y as int, direction),
    {
        let n = self.rows.len();
        if at.y >= n {
            return None;
        }
        let ghost texts = self.texts();
        let mut x = at.x;
        let mut y = at.y;
        match direction {
            SearchDirection::Forward => {
                while y < n
                    invariant
                        direction == SearchDirection::Forward,
                        n == self.rows@.len(),
                        texts == self.texts(),
                        all_wf(self.rows@),
                        y <= n,
                        find_forward(texts, query@, at.x as int, at.y as int) == find_forward(
                            texts,
                            query@,
                            x as int,
                            y as int,
                        ),
                    decreases n - y,
                {
                    proof {
                        assert(self.rows@[y as int].wf());
                        assert(texts[y as int] == self.rows@[y as int].text());
                    }
                    match self.rows[y].find(query, x, SearchDirection::Forward) {
                        Some(k) => {
                            return Some(Position { x: k, y });
                        },
                        None => {},
                    }
                    y = y + 1;
                    x = 0;
                }
                None
            },
            SearchDirection::Backward => {
                loop
                    invariant
                        direction == SearchDirection::Backward,
                        n == self.rows@.len(),
                        texts == self.texts(),
                        all_wf(self.rows@),
                        y < n,
                        find_backward(texts, query@, at.x as int, at.y as int) == find_backward(
                            texts,
                            query@,
                            x as int,
                            y as int,
                        ),
                    decreases y,
                {
                    proof {
                        assert(self.rows@[y as int].wf());
                        assert(texts[y as int] == self.rows@[y as int].text());
                    }
                    match self.rows[y].find(query, x, SearchDirection::Backward) {
                        Some(k) => {
                            return Some(Position { x: k, y });
                        },
                        None => {},
                    }
                    if y == 0 {
                        return None;
                    }
                    proof {
                        assert(self.rows@[y - 1].wf());
                        assert(texts[y - 1] == self.rows@[y - 1].text());
                    }
                    x = self.rows[y - 1].len();
                    y = y - 1;
                }
            },
        }
    }
    /// A document named `path` holding `content`, one row per line, every row
    /// highlighted for the file type that the name gives.
    pub fn from_text(path: &str, content: &str) -> (r: Document)
        ensures
            r.wf(),
            r.texts() == lines_of(content@),
            forall|j: int|
                0 <= j < r.rows_spec().len() ==> #[trigger] r.rows_spec()[j].tags() == row_tags(
                    r.texts()[j],
                    is_rust_file(path@),
                    None,
                ),
            r.file_name_spec() matches Some(n) && n@ == path@,
            !r.dirty_spec(),
            r.options().numbers() == is_rust_file(path@),
            r.file_type_spec().spec_name() == (if is_rust_file(path@) {
                rust_name()
            } else {
                default_name()
            }),
    {
        let chars = chars_of(content);
        let file_type = FileType::from(path);
        let opts = file_type.highlighting_options();
        let mut rows: Vec<Row> = Vec::new();
        let mut cur = String::new();
        let mut i: usize = 0;
        proof {
            assert(chars@.take(0) =~= Seq::<char>::empty());
            assert(texts_of(rows@).push(cur@) =~= seq![Seq::<char>::empty()]);
        }
        while i < chars.len()
            invariant
                i <= chars@.len(),
                opts.numbers() == is_rust_file(path@),
                all_wf(rows@),
                texts_of(rows@).push(cur@) == pieces(chars@.take(i as int)),
                forall|j: int|
                    0 <= j < rows@.len() ==> #[trigger] rows@[j].tags() == row_tags(
                        rows@[j].text(),
                        opts.numbers(),
                        None,
                    ),
            decreases chars@.len() - i,
        {
            let c = chars[i];
            let ghost before = texts_of(rows@);
            proof {
                assert(chars@.take(i + 1).drop_last() =~= chars@.take(i as int));
            }
            if c == '\n' {
                let mut row = Row::from(cur.as_str());
                row.highlight(opts, None);
                rows.push(row);
                cur = String::new();
                proof {
                    assert(texts_of(rows@).push(cur@) =~= (before.push(row.text())).push(
                        Seq::<char>::empty(),
                    ));
                }
            } else {
                let ghost old_cur = cur@;
                push_char(&mut cur, c);
                proof {
                    let p = pieces(chars@.take(i as int));
                    assert(texts_of(rows@).push(cur@) =~= p.update(p.len() - 1, p.last().push(c)));
                }
            }
            i = i + 1;
        }
        proof {
            assert(chars@.take(chars@.len() as int) =~= chars@);
        }
        let n = chars.len();
        if n > 0 && chars[n - 1] != '\n' {
            let ghost before = texts_of(rows@);
            let mut row = Row::from(cur.as_str());
            row.highlight(opts, None);
            rows.push(row);
            proof {
                assert(texts_of(rows@) =~= before.push(cur@));
            }
        } else {
            proof {
                if n > 0 {
                    lemma_pieces_nonempty(chars@.drop_last());
                    assert(texts_of(rows@) =~= pieces(chars@).drop_last());
                } else {
                    assert(texts_of(rows@) =~= Seq::<Seq<char>>::empty());
                }
            }
        }
        Document {
            rows,
            file_name: Some(String::from_str(path)),
            dirty: false,
            file_type,
        }
    }

    /// The text a save writes: every row followed by a line feed.
    pub fn contents(&self) -> (r: String)
        ensures
            r@ == joined(self.texts()),
    {
        let mut out = String::new();
        let mut i: usize = 0;
        proof {
            assert(self.texts().take(0) =~= Seq::<Seq<char>>::empty());
        }
        while i < self.rows.len()
            invariant
                i <= self.rows@.len(),
                out@ == joined(self.texts().take(i as int)),
            decreases self.rows@.len() - i,
        {
            out.append(self.rows[i].as_str());
            push_char(&mut out, '\n');
            proof {
                assert(self.texts().take(i + 1).drop_last() =~= self.texts().take(i as int));
            }
            i = i + 1;
        }
        proof {
            assert(self.texts().take(i as int) =~= self.texts());
        }
        out
    }

    /// Records a successful save: the file type is chosen again from the
    /// file name, every row is highlighted for it, and the document is clean.
    /// Does nothing for an unnamed document.
    pub fn mark_saved(&mut self)
        requires
            old(self).wf(),
        ensures
            final(self).wf(),
            old(self).file_name_spec() is None ==> *final(self) == *old(self),
            old(self).file_name_spec() matches Some(n) ==> {
                &&& !final(self).dirty_spec()
                &&& final(self).texts() == old(self).texts()
                &&& final(self).file_name_spec() == old(self).file_name_spec()
                &&& final(self).options().numbers() == is_rust_file(n@)
                &&& final(self).file_type_spec().spec_name() == (if is_rust_file(n@) {
                    rust_name()
                } else {
                    default_name()
                })
                &&& forall|j: int|
                    0 <= j < final(self).rows_spec().len()
                        ==> #[trigger] final(self).rows_spec()[j].tags() == row_tags(
                        old(self).texts()[j],
                        is_rust_file(n@),
                        None,
                    )
            },
    {
        match &self.file_name {
            Some(name) => {
                self.file_type = FileType::from(name.as_str());
            },
            None => {
                return;
            },
        }
        self.highlight(None);
        self.dirty = false;
    }
}

impl Default for Document {
    /// An empty, unnamed document of the default file type.
    fn default() -> (r: Document)
        ensures
            r.wf(),
            r.texts() == Seq::<Seq<char>>::empty(),
            r.file_name_spec() is None,
            !r.dirty_spec(),
            !r.options().numbers(),
    {
        let d = Document {
            rows: Vec::new(),
            file_name: None,
            dirty: false,
            file_type: FileType::default(),
        };
        proof {
            assert(texts_of(d.rows@) =~= Seq::<Seq<char>>::empty());
        }
        d
    }
}

} // verus!
