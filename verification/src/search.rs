//! Search: the per-line match positions of a literal term over the display
//! lines, with a two-level navigation cursor that walks the matches in
//! line-then-column order. Coordinates are (column, row) pairs; rows are
//! one-based terminal rows.

use vstd::prelude::*;
use crate::matching::{is_match_at, line_matches, find_offsets, to_ints, lemma_offsets_props,
    lemma_offsets_absent};
use crate::layout::views_of;

verus! {

/// The match table of a term over the lines, scanning from line `i`: one
/// row per line with at least one occurrence, in line order, holding the
/// one-based line number and the match offsets of that line.
pub open spec fn table_from(lines: Seq<Seq<u8>>, term: Seq<u8>, i: int) -> Seq<(int, Seq<int>)>
    decreases lines.len() - i,
{
    if i < 0 || i >= lines.len() {
        Seq::empty()
    } else if line_matches(lines[i], term).len() == 0 {
        table_from(lines, term, i + 1)
    } else {
        seq![(i + 1, line_matches(lines[i], term))] + table_from(lines, term, i + 1)
    }
}

/// The whole match table of a term over the lines.
pub open spec fn match_table(lines: Seq<Seq<u8>>, term: Seq<u8>) -> Seq<(int, Seq<int>)> {
    table_from(lines, term, 0)
}

/// The number of matches on the first `k` rows of a table.
pub open spec fn count_upto(rows: Seq<(int, Seq<int>)>, k: int) -> int
    decreases k,
{
    if k <= 0 {
        0
    } else {
        count_upto(rows, k - 1) + rows[k - 1].1.len()
    }
}

/// The total number of matches in a table.
pub open spec fn total_of(rows: Seq<(int, Seq<int>)>) -> int {
    count_upto(rows, rows.len() as int)
}

/// All matches of a table as one flat (column, row) sequence, in
/// line-then-column order: the order navigation walks them in.
pub open spec fn flat_of(rows: Seq<(int, Seq<int>)>) -> Seq<(int, int)>
    decreases rows.len(),
{
    if rows.len() == 0 {
        Seq::empty()
    } else {
        rows[0].1.map_values(|c: int| (c, rows[0].0)) + flat_of(rows.drop_first())
    }
}

/// Structural well-formedness of a match table: every row holds at least
/// one offset, offsets are non-negative and strictly increasing within a
/// row, and rows carry strictly increasing one-based line numbers.
pub open spec fn wf_rows(rows: Seq<(int, Seq<int>)>) -> bool {
    &&& forall|i: int| 0 <= i < rows.len() ==> (#[trigger] rows[i]).1.len() >= 1
    &&& forall|i: int| 0 <= i < rows.len() ==> (#[trigger] rows[i]).0 >= 1
    &&& forall|i: int, a: int|
        0 <= i < rows.len() && 0 <= a < rows[i].1.len() ==> #[trigger] rows[i].1[a] >= 0
    &&& forall|i: int, a: int, b: int|
        0 <= i < rows.len() && 0 <= a < b < rows[i].1.len() ==> #[trigger] rows[i].1[a]
            < #[trigger] rows[i].1[b]
    &&& forall|i: int, j: int|
        0 <= i < j < rows.len() ==> (#[trigger] rows[i]).0 < (#[trigger] rows[j]).0
}

/// Machine bounds of a match table: line numbers and offsets fit in the
/// machine word, offsets strictly so, leaving room for the one-based
/// column arithmetic.
pub open spec fn rows_bounded(rows: Seq<(int, Seq<int>)>) -> bool {
    &&& forall|i: int| 0 <= i < rows.len() ==> (#[trigger] rows[i]).0 <= usize::MAX as int
    &&& forall|i: int, a: int|
        0 <= i < rows.len() && 0 <= a < rows[i].1.len() ==> #[trigger] rows[i].1[a]
            < usize::MAX as int
}

/// A navigation answer: the `k`-th match coordinate if `k` is in range.
pub open spec fn nav_result(rows: Seq<(int, Seq<int>)>, k: int) -> Option<(int, int)> {
    if 0 <= k < flat_of(rows).len() {
        Some(flat_of(rows)[k])
    } else {
        None
    }
}

/// A returned coordinate pair, as mathematical integers.
pub open spec fn opt_view(r: Option<(usize, usize)>) -> Option<(int, int)> {
    match r {
        Some(p) => Some((p.0 as int, p.1 as int)),
        None => None,
    }
}

/// Prefix counts never shrink as the prefix grows.
pub proof fn lemma_count_mono(rows: Seq<(int, Seq<int>)>, a: int, b: int)
    requires
        a <= b,
    ensures
        count_upto(rows, a) <= count_upto(rows, b),
    decreases b - a,
{
    if a < b {
        lemma_count_mono(rows, a, b - 1);
    }
}

/// Dropping the first row shifts the prefix count by that row's matches.
proof fn lemma_count_drop(rows: Seq<(int, Seq<int>)>, k: int)
    requires
        rows.len() > 0,
        1 <= k <= rows.len(),
    ensures
        count_upto(rows, k) == rows[0].1.len() + count_upto(rows.drop_first(), k - 1),
    decreases k,
{
    if k == 1 {
        assert(count_upto(rows, 0) == 0);
        assert(count_upto(rows.drop_first(), 0) == 0);
    } else {
        lemma_count_drop(rows, k - 1);
        assert(rows.drop_first()[k - 2] == rows[k - 1]);
        assert(count_upto(rows, k) == count_upto(rows, k - 1) + rows[k - 1].1.len());
        assert(count_upto(rows.drop_first(), k - 1) == count_upto(rows.drop_first(), k - 2)
            + rows.drop_first()[k - 2].1.len());
    }
}

/// The flat sequence holds exactly as many entries as the table counts.
pub proof fn lemma_flat_len(rows: Seq<(int, Seq<int>)>)
    ensures
        flat_of(rows).len() == total_of(rows),
    decreases rows.len(),
{
    if rows.len() == 0 {
    } else {
        lemma_flat_len(rows.drop_first());
        lemma_count_drop(rows, rows.len() as int);
    }
}

/// The match `j` of row `i` sits at flat position `count_upto(rows, i) + j`
/// and carries that row's line number.
pub proof fn lemma_flat_index(rows: Seq<(int, Seq<int>)>, i: int, j: int)
    requires
        0 <= i < rows.len(),
        0 <= j < rows[i].1.len(),
    ensures
        0 <= count_upto(rows, i) + j < flat_of(rows).len(),
        flat_of(rows)[count_upto(rows, i) + j] == (rows[i].1[j], rows[i].0),
    decreases i,
{
    lemma_flat_len(rows);
    lemma_count_mono(rows, 0, i);
    assert(count_upto(rows, i + 1) == count_upto(rows, i) + rows[i].1.len());
    lemma_count_mono(rows, i + 1, rows.len() as int);
    let g0 = rows[0].1.map_values(|c: int| (c, rows[0].0));
    if i == 0 {
        assert(flat_of(rows)[j] == g0[j]);
        assert(g0[j] == (rows[0].1[j], rows[0].0));
    } else {
        let rest = rows.drop_first();
        assert(rest[i - 1] == rows[i]);
        lemma_flat_index(rest, i - 1, j);
        lemma_count_drop(rows, i);
        assert(count_upto(rows, i) + j >= g0.len());
        assert(flat_of(rows)[count_upto(rows, i) + j] == flat_of(rest)[count_upto(rows, i) + j
            - g0.len()]);
        assert(count_upto(rows, i) + j - g0.len() == count_upto(rest, i - 1) + j);
    }
}

/// A table with rows has matches, and one without has none.
pub proof fn lemma_total_zero_iff(rows: Seq<(int, Seq<int>)>)
    requires
        wf_rows(rows),
    ensures
        (total_of(rows) == 0) <==> rows.len() == 0,
{
    if rows.len() > 0 {
        assert(count_upto(rows, 0) == 0);
        assert(count_upto(rows, 1) == rows[0].1.len());
        lemma_count_mono(rows, 1, rows.len() as int);
    }
}

/// Dropping a table's first row keeps it well formed.
proof fn lemma_wf_rows_drop(rows: Seq<(int, Seq<int>)>)
    requires
        wf_rows(rows),
        rows.len() > 0,
    ensures
        wf_rows(rows.drop_first()),
{
    let rest = rows.drop_first();
    assert(forall|i: int| 0 <= i < rest.len() ==> #[trigger] rest[i] == rows[i + 1]);
}

/// Every flat entry's row lies above any bound the table's rows lie above.
proof fn lemma_flat_row_bound(rows: Seq<(int, Seq<int>)>, lb: int)
    requires
        forall|i: int| 0 <= i < rows.len() ==> (#[trigger] rows[i]).0 > lb,
    ensures
        forall|k: int| 0 <= k < flat_of(rows).len() ==> (#[trigger] flat_of(rows)[k]).1 > lb,
    decreases rows.len(),
{
    if rows.len() == 0 {
    } else {
        let rest = rows.drop_first();
        assert(forall|i: int| 0 <= i < rest.len() ==> #[trigger] rest[i] == rows[i + 1]);
        lemma_flat_row_bound(rest, lb);
        let g0 = rows[0].1.map_values(|c: int| (c, rows[0].0));
        assert forall|k: int|
            0 <= k < flat_of(rows).len() implies (#[trigger] flat_of(rows)[k]).1 > lb by {
            if k < g0.len() {
                assert(flat_of(rows)[k] == g0[k]);
            } else {
                assert(flat_of(rows)[k] == flat_of(rest)[k - g0.len()]);
            }
        }
    }
}

/// The navigation order is sound: walking forward from the first match
/// visits the flat coordinate list, whose entries are strictly ordered by
/// line and then column — so every match is visited exactly once, in
/// line-then-column order — and whose final entry, the one a full forward
/// walk ends on, is the last matched line's last match: the coordinate
/// `last` reports with a one-based column.
pub proof fn lemma_navigation_order(rows: Seq<(int, Seq<int>)>)
    requires
        wf_rows(rows),
    ensures
        flat_of(rows).len() == total_of(rows),
        forall|a: int, b: int|
            0 <= a < b < flat_of(rows).len() ==> (#[trigger] flat_of(rows)[a]).1 < (
            #[trigger] flat_of(rows)[b]).1 || (flat_of(rows)[a].1 == flat_of(rows)[b].1 && flat_of(
                rows,
            )[a].0 < flat_of(rows)[b].0),
        forall|a: int, b: int|
            0 <= a < b < flat_of(rows).len() ==> flat_of(rows)[a] != flat_of(rows)[b],
        rows.len() > 0 ==> flat_of(rows).len() > 0 && flat_of(rows)[flat_of(rows).len() - 1] == (
            rows[rows.len() - 1].1[rows[rows.len() - 1].1.len() - 1],
            rows[rows.len() - 1].0,
        ),
    decreases rows.len(),
{
    lemma_flat_len(rows);
    if rows.len() == 0 {
    } else {
        let rest = rows.drop_first();
        assert(forall|i: int| 0 <= i < rest.len() ==> #[trigger] rest[i] == rows[i + 1]);
        lemma_wf_rows_drop(rows);
        lemma_navigation_order(rest);
        lemma_flat_row_bound(rest, rows[0].0);
        let g0 = rows[0].1.map_values(|c: int| (c, rows[0].0));
        let f = flat_of(rows);
        assert(f == g0 + flat_of(rest));
        assert forall|a: int, b: int|
            0 <= a < b < f.len() implies (#[trigger] f[a]).1 < (#[trigger] f[b]).1 || (f[a].1
            == f[b].1 && f[a].0 < f[b].0) by {
            if b < g0.len() {
                assert(f[a] == g0[a] && f[b] == g0[b]);
                assert(g0[a] == (rows[0].1[a], rows[0].0));
                assert(g0[b] == (rows[0].1[b], rows[0].0));
            } else if a < g0.len() {
                assert(f[a] == g0[a]);
                assert(g0[a] == (rows[0].1[a], rows[0].0));
                assert(f[b] == flat_of(rest)[b - g0.len()]);
            } else {
                assert(f[a] == flat_of(rest)[a - g0.len()]);
                assert(f[b] == flat_of(rest)[b - g0.len()]);
            }
        }
        assert forall|a: int, b: int| 0 <= a < b < f.len() implies f[a] != f[b] by {
            if f[a].1 < f[b].1 || (f[a].1 == f[b].1 && f[a].0 < f[b].0) {
            }
        }
        if rest.len() == 0 {
            assert(f.len() == g0.len());
            assert(f[f.len() - 1] == g0[g0.len() - 1]);
            assert(g0[g0.len() - 1] == (rows[0].1[rows[0].1.len() - 1], rows[0].0));
        } else {
            lemma_total_zero_iff(rest);
            assert(flat_of(rest).len() > 0);
            assert(f[f.len() - 1] == flat_of(rest)[flat_of(rest).len() - 1]);
            assert(rest[rest.len() - 1] == rows[rows.len() - 1]);
        }
    }
}

/// Rows of a partial match table are the matched lines at or after the scan
/// start, so the table is well formed.
proof fn lemma_table_from_wf(lines: Seq<Seq<u8>>, term: Seq<u8>, i: int)
    requires
        i >= 0,
    ensures
        wf_rows(table_from(lines, term, i)),
        forall|k: int|
            0 <= k < table_from(lines, term, i).len() ==> i + 1 <= (#[trigger] table_from(
                lines,
                term,
                i,
            )[k]).0 <= lines.len(),
        forall|k: int|
            0 <= k < table_from(lines, term, i).len() ==> (#[trigger] table_from(
                lines,
                term,
                i,
            )[k]).1 == line_matches(lines[table_from(lines, term, i)[k].0 - 1], term),
    decreases lines.len() - i,
{
    if i >= lines.len() {
    } else {
        lemma_table_from_wf(lines, term, i + 1);
        let rest = table_from(lines, term, i + 1);
        if line_matches(lines[i], term).len() == 0 {
        } else {
            lemma_offsets_props(lines[i], term, 0);
            let t = table_from(lines, term, i);
            assert(t == seq![(i + 1, line_matches(lines[i], term))] + rest);
            assert(forall|k: int| 1 <= k < t.len() ==> #[trigger] t[k] == rest[k - 1]);
            assert(t[0] == (i + 1, line_matches(lines[i], term)));
        }
    }
}

/// The whole match table is well formed: rows in increasing line order,
/// each holding that line's strictly increasing match offsets.
pub proof fn lemma_table_wf(lines: Seq<Seq<u8>>, term: Seq<u8>)
    ensures
        wf_rows(match_table(lines, term)),
        forall|k: int|
            0 <= k < match_table(lines, term).len() ==> 1 <= (#[trigger] match_table(
                lines,
                term,
            )[k]).0 <= lines.len(),
        forall|k: int|
            0 <= k < match_table(lines, term).len() ==> (#[trigger] match_table(
                lines,
                term,
            )[k]).1 == line_matches(lines[match_table(lines, term)[k].0 - 1], term),
{
    lemma_table_from_wf(lines, term, 0);
}

/// A partial match table is empty exactly when no line at or after the scan
/// start holds a match.
proof fn lemma_table_from_empty_iff(lines: Seq<Seq<u8>>, term: Seq<u8>, i: int)
    requires
        i >= 0,
    ensures
        table_from(lines, term, i).len() == 0 <==> (forall|k: int|
            i <= k < lines.len() ==> line_matches(#[trigger] lines[k], term).len() == 0),
    decreases lines.len() - i,
{
    if i >= lines.len() {
    } else {
        lemma_table_from_empty_iff(lines, term, i + 1);
    }
}

/// The emptiness law: a search index reports no matches exactly when the
/// term, taken non-empty, occurs nowhere in any line.
pub proof fn lemma_is_empty_iff_absent(lines: Seq<Seq<u8>>, term: Seq<u8>)
    requires
        term.len() > 0,
    ensures
        (total_of(match_table(lines, term)) == 0) <==> (forall|i: int, j: int|
            0 <= i < lines.len() ==> !(#[trigger] is_match_at(lines[i], term, j))),
{
    lemma_table_wf(lines, term);
    lemma_total_zero_iff(match_table(lines, term));
    lemma_table_from_empty_iff(lines, term, 0);
    if match_table(lines, term).len() == 0 {
        assert forall|i: int, j: int|
            0 <= i < lines.len() implies !(#[trigger] is_match_at(lines[i], term, j)) by {
            assert(line_matches(lines[i], term).len() == 0);
            lemma_offsets_absent(lines[i], term, 0);
            if j < 0 {
            } else {
            }
        }
    } else {
        let t = match_table(lines, term);
        assert(t[0].1 == line_matches(lines[t[0].0 - 1], term));
        assert(t[0].1.len() >= 1);
        lemma_offsets_props(lines[t[0].0 - 1], term, 0);
        assert(is_match_at(lines[t[0].0 - 1], term, line_matches(lines[t[0].0 - 1], term)[0]));
    }
}

/// Per-line matched positions: the one-based terminal row of the line, the
/// match byte offsets on it, and the inner cursor counting how many of them
/// navigation has passed.
#[derive(Debug)]
pub struct InlineMatches {
    pub term_line_idx: usize,
    pub current_hl: usize,
    pub matches: Vec<usize>,
}

impl InlineMatches {
    /// The inner cursor never passes the end of the match list.
    pub open spec fn wf(self) -> bool {
        self.current_hl <= self.matches@.len()
    }

    /// The table row this line stands for.
    pub open spec fn row_view(self) -> (int, Seq<int>) {
        (self.term_line_idx as int, to_ints(self.matches@))
    }

    pub fn new(term_line_idx: usize, matches: Vec<usize>) -> (r: InlineMatches)
        ensures
            r.term_line_idx == term_line_idx,
            r.matches == matches,
            r.current_hl == 0,
    {
        InlineMatches { current_hl: 0, term_line_idx, matches }
    }

    /// Steps forward on this line: hands out the match under the cursor and
    /// advances, or reports no match when the line is exhausted.
    pub fn next(&mut self) -> (r: Option<(usize, usize)>)
        requires
            old(self).wf(),
        ensures
            final(self).wf(),
            final(self).term_line_idx == old(self).term_line_idx,
            final(self).matches == old(self).matches,
            old(self).current_hl < old(self).matches@.len() ==> final(self).current_hl == old(
                self,
            ).current_hl + 1 && r == Some(
                (
                    old(self).matches@[old(self).current_hl as int],
                    old(self).term_line_idx,
                ),
            ),
            old(self).current_hl >= old(self).matches@.len() ==> final(self).current_hl == old(
                self,
            ).current_hl && r is None,
    {
        if self.current_hl < self.matches.len() {
            let col = self.matches[self.current_hl];
            let row = self.term_line_idx;
            self.current_hl = self.current_hl + 1;
            Some((col, row))
        } else {
            None
        }
    }

    /// Steps backward on this line: recedes the cursor and hands out the
    /// match it lands on, or reports no match at the line's start.
    pub fn prev(&mut self) -> (r: Option<(usize, usize)>)
        requires
            old(self).wf(),
        ensures
            final(self).wf(),
            final(self).term_line_idx == old(self).term_line_idx,
            final(self).matches == old(self).matches,
            old(self).current_hl > 0 ==> final(self).current_hl == old(self).current_hl - 1 && r
                == Some(
                (
                    old(self).matches@[old(self).current_hl - 1],
                    old(self).term_line_idx,
                ),
            ),
            old(self).current_hl == 0 ==> final(self).current_hl == 0 && r is None,
    {
        if self.current_hl > 0 {
            self.current_hl = self.current_hl - 1;
            let col = self.matches[self.current_hl];
            Some((col, self.term_line_idx))
        } else {
            None
        }
    }

    /// Resets this line's cursor to its first match and reports it with a
    /// one-based column.
    pub fn first(&mut self) -> (r: (usize, usize))
        requires
            old(self).matches@.len() > 0,
            old(self).matches@[0] < usize::MAX,
        ensures
            final(self).term_line_idx == old(self).term_line_idx,
            final(self).matches == old(self).matches,
            final(self).current_hl == 0,
            r.0 == old(self).matches@[0] + 1,
            r.1 == old(self).term_line_idx,
    {
        self.current_hl = 0;
        (self.matches[0] + 1, self.term_line_idx)
    }

}

/// The table rows a list of matched lines stands for.
pub open spec fn rows_of(ms: Seq<InlineMatches>) -> Seq<(int, Seq<int>)> {
    ms.map_values(|m: InlineMatches| (m.term_line_idx as int, to_ints(m.matches@)))
}

/// The match index of one term over the display lines: the matched lines in
/// order, and a two-level cursor over them. The cursor position is the
/// number of matches navigation has passed, counted in line-then-column
/// order.
#[derive(Debug)]
pub struct Search {
    inner: Vec<InlineMatches>,
    current_line: usize,
    size: Option<usize>,
    pub term_len: usize,
}

impl Search {
    /// The length of the searched term, in bytes.
    pub closed spec fn tlen(self) -> int {
        self.term_len as int
    }

    /// The match table this index holds.
    pub closed spec fn rows(self) -> Seq<(int, Seq<int>)> {
        rows_of(self.inner@)
    }

    /// The cursor position: how many matches navigation has passed.
    pub closed spec fn pos(self) -> int {
        count_upto(self.rows(), self.current_line as int) + if (self.current_line as int)
            < self.inner@.len() {
            self.inner@[self.current_line as int].current_hl as int
        } else {
            0
        }
    }

    /// The index invariant: the table is well formed and bounded, the line
    /// cursor stays on a matched line, lines before it are exhausted, lines
    /// after it untouched, and a memoized size is the true total.
    pub closed spec fn wf(self) -> bool {
        &&& wf_rows(self.rows())
        &&& rows_bounded(self.rows())
        &&& (self.inner@.len() == 0 ==> self.current_line == 0)
        &&& (self.inner@.len() > 0 ==> (self.current_line as int) < self.inner@.len())
        &&& (forall|i: int|
            0 <= i < self.inner@.len() ==> (#[trigger] self.inner@[i]).current_hl
                <= self.inner@[i].matches@.len())
        &&& (forall|i: int|
            0 <= i < self.current_line ==> (#[trigger] self.inner@[i]).current_hl
                == self.inner@[i].matches@.len())
        &&& (forall|i: int|
            self.current_line < i < self.inner@.len() ==> (#[trigger] self.inner@[i]).current_hl
                == 0)
        &&& (match self.size {
            Some(n) => n as int == total_of(self.rows()),
            None => true,
        })
    }

    /// Builds the index: scans every line for the term and keeps, in line
    /// order, those with at least one occurrence. The cursor starts before
    /// the first match.
    pub fn new(search_term: &Vec<u8>, lines: &Vec<Vec<u8>>) -> (r: Search)
        requires
            lines@.len() < usize::MAX,
        ensures
            r.wf(),
            r.rows() == match_table(views_of(lines@), search_term@),
            r.pos() == 0,
            r.tlen() == search_term@.len() as int,
    {
        let n = lines.len();
        let ghost vl = views_of(lines@);
        let mut inner: Vec<InlineMatches> = Vec::new();
        let mut idx: usize = 0;
        proof {
            assert(rows_of(inner@) + table_from(vl, search_term@, 0) =~= match_table(
                vl,
                search_term@,
            ));
        }
        while idx < n
            invariant
                n == lines@.len(),
                n < usize::MAX,
                vl == views_of(lines@),
                0 <= idx <= n,
                rows_of(inner@) + table_from(vl, search_term@, idx as int) == match_table(
                    vl,
                    search_term@,
                ),
                forall|i: int|
                    0 <= i < inner@.len() ==> (#[trigger] inner@[i]).current_hl == 0,
                forall|i: int|
                    0 <= i < inner@.len() ==> 1 <= (#[trigger] inner@[i]).term_line_idx <= idx,
                wf_rows(rows_of(inner@)),
                rows_bounded(rows_of(inner@)),
            decreases n - idx,
        {
            let line_ref = &lines[idx];
            let ll = line_ref.len();
            let offs = find_offsets(line_ref, search_term);
            proof {
                assert(vl[idx as int] == lines@[idx as int]@);
                assert(to_ints(offs@) == line_matches(vl[idx as int], search_term@));
            }
            if offs.len() > 0 {
                let ghost lm = line_matches(vl[idx as int], search_term@);
                proof {
                    lemma_offsets_props(vl[idx as int], search_term@, 0);
                    assert(search_term@.len() >= 1) by {
                        if search_term@.len() == 0 {
                            assert(lm.len() == 0);
                        }
                    }
                    assert forall|a: int| 0 <= a < lm.len() implies 0 <= #[trigger] lm[a]
                        < usize::MAX as int by {
                        assert(is_match_at(vl[idx as int], search_term@, lm[a]));
                        assert(lm[a] + search_term@.len() <= ll);
                    }
                }
                let ghost prev = inner@;
                let ghost prev_rs = rows_of(inner@);
                let m = InlineMatches { term_line_idx: idx + 1, current_hl: 0, matches: offs };
                inner.push(m);
                proof {
                    let newrow = (idx as int + 1, lm);
                    assert forall|j: int|
                        0 <= j < inner@.len() implies rows_of(inner@)[j] == (prev_rs
                        + seq![newrow])[j] by {
                        if j < prev.len() {
                            assert(inner@[j] == prev[j]);
                        }
                    }
                    assert(rows_of(inner@) =~= prev_rs + seq![newrow]);
                    assert(table_from(vl, search_term@, idx as int) == seq![newrow] + table_from(
                        vl,
                        search_term@,
                        idx as int + 1,
                    ));
                    assert(rows_of(inner@) + table_from(vl, search_term@, idx as int + 1)
                        =~= prev_rs + table_from(vl, search_term@, idx as int));
                    let rs = rows_of(inner@);
                    assert(rs.len() == prev_rs.len() + 1);
                    assert(rs[prev_rs.len() as int] == newrow);
                    assert forall|i2: int| 0 <= i2 < rs.len() implies (#[trigger] rs[i2]).1.len()
                        >= 1 && rs[i2].0 >= 1 && rs[i2].0 <= usize::MAX as int by {
                        if i2 < prev_rs.len() {
                            assert(rs[i2] == prev_rs[i2]);
                        }
                    }
                    assert forall|i2: int, a: int|
                        0 <= i2 < rs.len() && 0 <= a < rs[i2].1.len() implies 0
                        <= #[trigger] rs[i2].1[a] < usize::MAX as int by {
                        if i2 < prev_rs.len() {
                            assert(rs[i2] == prev_rs[i2]);
                        } else {
                            assert(rs[i2].1 == lm);
                        }
                    }
                    assert forall|i2: int, a: int, b: int|
                        0 <= i2 < rs.len() && 0 <= a < b < rs[i2].1.len() implies #[trigger] rs[i2].1[a]
                        < #[trigger] rs[i2].1[b] by {
                        if i2 < prev_rs.len() {
                            assert(rs[i2] == prev_rs[i2]);
                        } else {
                            assert(rs[i2].1 == lm);
                        }
                    }
                    assert forall|i2: int, j2: int|
                        0 <= i2 < j2 < rs.len() implies (#[trigger] rs[i2]).0
                        < (#[trigger] rs[j2]).0 by {
                        assert(rs[i2] == prev_rs[i2]);
                        assert(prev_rs[i2].0 == prev[i2].term_line_idx);
                        if j2 < prev_rs.len() {
                            assert(rs[j2] == prev_rs[j2]);
                        }
                    }
                }
            } else {
                proof {
                    assert(line_matches(vl[idx as int], search_term@).len() == 0);
                    assert(table_from(vl, search_term@, idx as int) == table_from(
                        vl,
                        search_term@,
                        idx as int + 1,
                    ));
                }
            }
            idx += 1;
        }
        proof {
            assert(table_from(vl, search_term@, n as int) == Seq::<(int, Seq<int>)>::empty());
            assert(rows_of(inner@) =~= rows_of(inner@) + table_from(vl, search_term@, n as int));
        }
        let r = Search { inner, current_line: 0, size: None, term_len: search_term.len() };
        proof {
            if r.inner@.len() > 0 {
                assert(r.pos() == count_upto(r.rows(), 0) + 0);
            }
        }
        r
    }

    /// Steps to the next match in line-then-column order: hands out its
    /// coordinate and advances the cursor, or reports no match once every
    /// match has been passed, leaving the cursor where it stands.
    pub fn next(&mut self) -> (r: Option<(usize, usize)>)
        requires
            old(self).wf(),
        ensures
            final(self).wf(),
            final(self).rows() == old(self).rows(),
            final(self).tlen() == old(self).tlen(),
            opt_view(r) == nav_result(old(self).rows(), old(self).pos()),
            final(self).pos() == if old(self).pos() < total_of(old(self).rows()) {
                old(self).pos() + 1
            } else {
                old(self).pos()
            },
    {
        let ghost rs = self.rows();
        proof {
            lemma_flat_len(rs);
        }
        if self.inner.len() == 0 {
            proof {
                assert(count_upto(rs, 0) == 0);
            }
            return None;
        }
        let cl = self.current_line;
        let hl = self.inner[cl].current_hl;
        let mlen = self.inner[cl].matches.len();
        proof {
            assert(rs[cl as int].1 == to_ints(self.inner@[cl as int].matches@));
            assert(count_upto(rs, cl as int + 1) == count_upto(rs, cl as int) + rs[
                cl as int
            ].1.len());
            lemma_count_mono(rs, cl as int + 1, rs.len() as int);
            lemma_count_mono(rs, 0, cl as int);
        }
        if hl < mlen {
            let col = self.inner[cl].matches[hl];
            let row = self.inner[cl].term_line_idx;
            let ghost prev_inner = self.inner@;
            self.inner[cl].current_hl = hl + 1;
            proof {
                assert forall|j: int|
                    0 <= j < self.inner@.len() implies rows_of(self.inner@)[j] == rs[j] by {
                    if j != cl {
                        assert(self.inner@[j] == prev_inner[j]);
                    }
                }
                assert(rows_of(self.inner@) =~= rs);
                lemma_flat_index(rs, cl as int, hl as int);
                assert(rs[cl as int].1[hl as int] == col as int);
                assert(rs[cl as int].0 == row as int);
            }
            Some((col, row))
        } else if cl + 1 < self.inner.len() {
            proof {
                assert(self.inner@[cl as int + 1].current_hl == 0);
                assert(rs[cl as int + 1].1 == to_ints(self.inner@[cl as int + 1].matches@));
                assert(rs[cl as int + 1].1.len() >= 1);
            }
            self.current_line = cl + 1;
            let col = self.inner[cl + 1].matches[0];
            let row = self.inner[cl + 1].term_line_idx;
            let ghost prev_inner = self.inner@;
            self.inner[cl + 1].current_hl = 1;
            proof {
                assert forall|j: int|
                    0 <= j < self.inner@.len() implies rows_of(self.inner@)[j] == rs[j] by {
                    if j != cl + 1 {
                        assert(self.inner@[j] == prev_inner[j]);
                    }
                }
                assert(rows_of(self.inner@) =~= rs);
                lemma_flat_index(rs, cl as int + 1, 0);
                assert(count_upto(rs, cl as int + 2) == count_upto(rs, cl as int + 1) + rs[
                    cl as int + 1
                ].1.len());
                lemma_count_mono(rs, cl as int + 2, rs.len() as int);
            }
            Some((col, row))
        } else {
            proof {
                assert(cl as int + 1 == rs.len());
            }
            None
        }
    }

    /// Steps back to the match before the cursor: hands out its coordinate
    /// and recedes, or reports no match at the very start. Stepping back off
    /// a line's first match lands on the previous matched line's last match.
    pub fn prev(&mut self) -> (r: Option<(usize, usize)>)
        requires
            old(self).wf(),
        ensures
            final(self).wf(),
            final(self).rows() == old(self).rows(),
            final(self).tlen() == old(self).tlen(),
            opt_view(r) == nav_result(old(self).rows(), old(self).pos() - 1),
            final(self).pos() == if old(self).pos() > 0 {
                old(self).pos() - 1
            } else {
                0
            },
    {
        let ghost rs = self.rows();
        proof {
            lemma_flat_len(rs);
        }
        if self.inner.len() == 0 {
            proof {
                assert(count_upto(rs, 0) == 0);
            }
            return None;
        }
        let cl = self.current_line;
        let hl = self.inner[cl].current_hl;
        proof {
            assert(rs[cl as int].1 == to_ints(self.inner@[cl as int].matches@));
            assert(count_upto(rs, cl as int + 1) == count_upto(rs, cl as int) + rs[
                cl as int
            ].1.len());
            lemma_count_mono(rs, cl as int + 1, rs.len() as int);
            lemma_count_mono(rs, 0, cl as int);
        }
        if hl > 0 {
            let nh = hl - 1;
            let col = self.inner[cl].matches[nh];
            let row = self.inner[cl].term_line_idx;
            let ghost prev_inner = self.inner@;
            self.inner[cl].current_hl = nh;
            proof {
                assert forall|j: int|
                    0 <= j < self.inner@.len() implies rows_of(self.inner@)[j] == rs[j] by {
                    if j != cl {
                        assert(self.inner@[j] == prev_inner[j]);
                    }
                }
                assert(rows_of(self.inner@) =~= rs);
                lemma_flat_index(rs, cl as int, nh as int);
            }
            Some((col, row))
        } else if cl > 0 {
            proof {
                assert(self.inner@[cl as int - 1].current_hl == self.inner@[
                    cl as int - 1
                ].matches@.len());
                assert(rs[cl as int - 1].1 == to_ints(self.inner@[cl as int - 1].matches@));
                assert(rs[cl as int - 1].1.len() >= 1);
                assert(count_upto(rs, cl as int) == count_upto(rs, cl as int - 1) + rs[
                    cl as int - 1
                ].1.len());
            }
            self.current_line = cl - 1;
            let mlen = self.inner[cl - 1].matches.len();
            let nh = mlen - 1;
            let col = self.inner[cl - 1].matches[nh];
            let row = self.inner[cl - 1].term_line_idx;
            let ghost prev_inner = self.inner@;
            self.inner[cl - 1].current_hl = nh;
            proof {
                assert forall|j: int|
                    0 <= j < self.inner@.len() implies rows_of(self.inner@)[j] == rs[j] by {
                    if j != cl - 1 {
                        assert(self.inner@[j] == prev_inner[j]);
                    }
                }
                assert(rows_of(self.inner@) =~= rs);
                lemma_flat_index(rs, cl as int - 1, nh as int);
            }
            Some((col, row))
        } else {
            None
        }
    }

    /// Resets navigation to the very first match, on the first matched
    /// line, and reports it with a one-based column.
    pub fn first(&mut self) -> (r: (usize, usize))
        requires
            old(self).wf(),
            old(self).rows().len() > 0,
        ensures
            final(self).wf(),
            final(self).rows() == old(self).rows(),
            final(self).tlen() == old(self).tlen(),
            final(self).pos() == 0,
            r.0 as int == flat_of(old(self).rows())[0].0 + 1,
            r.1 as int == flat_of(old(self).rows())[0].1,
    {
        let ghost rs = self.rows();
        let n = self.inner.len();
        let mut i: usize = 0;
        while i < n
            invariant
                n == self.inner@.len(),
                rs == rows_of(old(self).inner@),
                self.inner@.len() == old(self).inner@.len(),
                0 <= i <= n,
                forall|j: int|
                    0 <= j < n ==> (#[trigger] self.inner@[j]).term_line_idx == old(self).inner@[
                        j
                    ].term_line_idx,
                forall|j: int|
                    0 <= j < n ==> (#[trigger] self.inner@[j]).matches == old(self).inner@[
                        j
                    ].matches,
                forall|j: int| 0 <= j < i ==> (#[trigger] self.inner@[j]).current_hl == 0,
                self.current_line == old(self).current_line,
                self.size == old(self).size,
                self.term_len == old(self).term_len,
            decreases n - i,
        {
            self.inner[i].current_hl = 0;
            i += 1;
        }
        self.current_line = 0;
        proof {
            assert forall|j: int|
                0 <= j < self.inner@.len() implies rows_of(self.inner@)[j] == rs[j] by {
                assert(self.inner@[j].term_line_idx == old(self).inner@[j].term_line_idx);
                assert(self.inner@[j].matches == old(self).inner@[j].matches);
            }
            assert(rows_of(self.inner@) =~= rs);
            assert(rs[0].1 == to_ints(self.inner@[0].matches@));
            lemma_flat_index(rs, 0, 0);
            assert(count_upto(rs, 0) == 0);
        }
        let col = self.inner[0].matches[0];
        let row = self.inner[0].term_line_idx;
        (col + 1, row)
    }

    /// Sets navigation on the very last match, on the last matched line,
    /// and reports it with a one-based column.
    pub fn last(&mut self) -> (r: (usize, usize))
        requires
            old(self).wf(),
            old(self).rows().len() > 0,
        ensures
            final(self).wf(),
            final(self).rows() == old(self).rows(),
            final(self).tlen() == old(self).tlen(),
            final(self).pos() == total_of(old(self).rows()) - 1,
            r.0 as int == flat_of(old(self).rows())[total_of(old(self).rows()) - 1].0 + 1,
            r.1 as int == flat_of(old(self).rows())[total_of(old(self).rows()) - 1].1,
    {
        let ghost rs = self.rows();
        proof {
            lemma_flat_len(rs);
        }
        let n = self.inner.len();
        let mut i: usize = 0;
        while i < n
            invariant
                n == self.inner@.len(),
                rs == rows_of(old(self).inner@),
                self.inner@.len() == old(self).inner@.len(),
                0 <= i <= n,
                forall|j: int|
                    0 <= j < n ==> (#[trigger] self.inner@[j]).term_line_idx == old(self).inner@[
                        j
                    ].term_line_idx,
                forall|j: int|
                    0 <= j < n ==> (#[trigger] self.inner@[j]).matches == old(self).inner@[
                        j
                    ].matches,
                forall|j: int|
                    0 <= j < i ==> (#[trigger] self.inner@[j]).current_hl == self.inner@[
                        j
                    ].matches@.len(),
                self.current_line == old(self).current_line,
                self.size == old(self).size,
                self.term_len == old(self).term_len,
            decreases n - i,
        {
            let mlen = self.inner[i].matches.len();
            self.inner[i].current_hl = mlen;
            i += 1;
        }
        self.current_line = n - 1;
        proof {
            assert forall|j: int|
                0 <= j < self.inner@.len() implies rows_of(self.inner@)[j] == rs[j] by {
                assert(self.inner@[j].term_line_idx == old(self).inner@[j].term_line_idx);
                assert(self.inner@[j].matches == old(self).inner@[j].matches);
            }
            assert(rows_of(self.inner@) =~= rs);
            assert(rs[n - 1].1 == to_ints(self.inner@[n - 1].matches@));
            assert(rs[n - 1].1.len() >= 1);
        }
        let mlen = self.inner[n - 1].matches.len();
        let nh = mlen - 1;
        let ghost prev_inner = self.inner@;
        self.inner[n - 1].current_hl = nh;
        let col = self.inner[n - 1].matches[nh];
        let row = self.inner[n - 1].term_line_idx;
        proof {
            assert forall|j: int|
                0 <= j < self.inner@.len() implies rows_of(self.inner@)[j] == rs[j] by {
                if j != n - 1 {
                    assert(self.inner@[j] == prev_inner[j]);
                }
            }
            assert(rows_of(self.inner@) =~= rs);
            lemma_flat_index(rs, n as int - 1, nh as int);
            assert(count_upto(rs, n as int) == count_upto(rs, n as int - 1) + rs[n - 1].1.len());
        }
        (col + 1, row)
    }

    /// The total number of matches, memoized after the first call.
    pub fn size(&mut self) -> (r: usize)
        requires
            old(self).wf(),
            total_of(old(self).rows()) <= usize::MAX as int,
        ensures
            final(self).wf(),
            final(self).rows() == old(self).rows(),
            final(self).pos() == old(self).pos(),
            final(self).tlen() == old(self).tlen(),
            r as int == total_of(old(self).rows()),
    {
        match self.size {
            Some(s) => s,
            None => {
                let n = self.inner.len();
                let mut acc: usize = 0;
                let mut i: usize = 0;
                while i < n
                    invariant
                        old(self).wf(),
                        total_of(old(self).rows()) <= usize::MAX as int,
                        *self == *old(self),
                        n == self.inner@.len(),
                        0 <= i <= n,
                        acc as int == count_upto(self.rows(), i as int),
                    decreases n - i,
                {
                    proof {
                        assert(count_upto(self.rows(), i as int + 1) == count_upto(
                            self.rows(),
                            i as int,
                        ) + self.rows()[i as int].1.len());
                        assert(self.rows()[i as int].1 == to_ints(self.inner@[i as int].matches@));
                        lemma_count_mono(self.rows(), i as int + 1, n as int);
                    }
                    acc = acc + self.inner[i].matches.len();
                    i += 1;
                }
                self.size = Some(acc);
                acc
            },
        }
    }

    /// True exactly when the term occurs nowhere: the index holds no
    /// matched line.
    pub fn is_empty(&mut self) -> (r: bool)
        requires
            old(self).wf(),
        ensures
            final(self).wf(),
            final(self).rows() == old(self).rows(),
            final(self).pos() == old(self).pos(),
            final(self).tlen() == old(self).tlen(),
            r == (total_of(old(self).rows()) == 0),
    {
        proof {
            lemma_total_zero_iff(self.rows());
        }
        self.inner.len() == 0
    }
}

} // verus!
