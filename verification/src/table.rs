//! The annotation scanner and the table parser/renderer.
//!
//! `CodeTables::parse_chapter_contents` walks a document body, replaces every
//! `@code` marker that is followed by a pipe-delimited table with that table's
//! HTML rendering, drops markers that no table follows, and leaves everything
//! else untouched.  The whole transformation is pinned down by `scan_spec`.
//!
//! Cell text is inserted into the emitted HTML verbatim: no escaping of
//! `<`, `&` or similar characters is performed.

use crate::text::chars_of;
use crate::text::find_char;
use crate::text::find_in_range;
use crate::text::find_marker;
use crate::text::find_marker_in;
use crate::text::marker_at;
use crate::text::split_char;
use crate::text::trim_range;
use crate::text::trim_spec;
use vstd::prelude::*;

verus! {

/// The classification of one table cell, the tag that decides how the cell
/// renders.  Every cell of the table's first row is a `Headings` cell by
/// position; the other kinds are computed from the trimmed cell text.
#[derive(Clone, Copy)]
pub enum RowType {
    Headings,
    Alignments,
    TextEntry,
    CodeEntry,
    Empty,
}

/// Content-based classification of one trimmed data-row cell, in rule order:
/// a cell with a hyphen and no space is a column-alignment marker; then a
/// cell with an inline-code delimiter is a code cell; then an empty cell;
/// everything else is plain text.
pub open spec fn classify(cell: Seq<char>) -> RowType {
    if find_char(cell, '-') >= 0 && find_char(cell, ' ') == -1 {
        RowType::Alignments
    } else if find_char(cell, '`') >= 0 {
        RowType::CodeEntry
    } else if cell.len() == 0 {
        RowType::Empty
    } else {
        RowType::TextEntry
    }
}

/// The cells of one table line: the line split on every pipe, each fragment
/// trimmed of surrounding whitespace.
pub open spec fn row_cells(line: Seq<char>) -> Seq<Seq<char>> {
    split_char(line, '|').map(|i: int, f: Seq<char>| trim_spec(f))
}

/// The kind of one cell: every first-row cell is a heading regardless of
/// its text; other cells are classified by content.
pub open spec fn spec_kind(cell: Seq<char>, is_first: bool) -> RowType {
    if is_first {
        RowType::Headings
    } else {
        classify(cell)
    }
}

/// The cell kinds of a row, one per cell.
pub open spec fn row_kinds(cells: Seq<Seq<char>>, is_first: bool) -> Seq<RowType> {
    cells.map(|i: int, c: Seq<char>| spec_kind(c, is_first))
}

/// The HTML emitted for one cell.  Alignment markers and empty cells emit
/// nothing; a code cell keeps its delimiters and, deliberately, closes with
/// a bare `<td>` rather than `</td>`: that asymmetric tag is part of the
/// output contract.
pub open spec fn cell_html(cell: Seq<char>, k: RowType) -> Seq<char> {
    match k {
        RowType::Headings => "<th>"@ + cell + "</th>"@,
        RowType::CodeEntry => "<td><pre>"@ + cell + "</pre><td>"@,
        RowType::TextEntry => "<td>"@ + cell + "</td>"@,
        RowType::Alignments => Seq::<char>::empty(),
        RowType::Empty => Seq::<char>::empty(),
    }
}

/// The concatenated HTML of the cells from index `i` on.
pub open spec fn cells_html_from(cells: Seq<Seq<char>>, kinds: Seq<RowType>, i: int) -> Seq<char>
    decreases cells.len() - i,
{
    if i < 0 || i >= cells.len() {
        Seq::<char>::empty()
    } else {
        cell_html(cells[i], kinds[i]) + cells_html_from(cells, kinds, i + 1)
    }
}

/// The HTML of one row: its cells' HTML inside a `<tr>` element.
pub open spec fn row_html(cells: Seq<Seq<char>>, kinds: Seq<RowType>) -> Seq<char> {
    "<tr>"@ + cells_html_from(cells, kinds, 0) + "</tr>"@
}

/// The concatenated HTML of the data rows from index `i` on.
pub open spec fn rows_html_from(rows: Seq<Seq<Seq<char>>>, i: int) -> Seq<char>
    decreases rows.len() - i,
{
    if i < 0 || i >= rows.len() {
        Seq::<char>::empty()
    } else {
        row_html(rows[i], row_kinds(rows[i], false)) + rows_html_from(rows, i + 1)
    }
}

/// The HTML of the heading section's contents: the first row rendered with
/// every cell a heading cell.
pub open spec fn thead_html(rows: Seq<Seq<Seq<char>>>) -> Seq<char> {
    if rows.len() > 0 {
        row_html(rows[0], row_kinds(rows[0], true))
    } else {
        Seq::<char>::empty()
    }
}

/// The HTML of a whole table: the first row inside `<thead>`, then the data
/// rows, all inside a `<table>` element.
pub open spec fn table_html(rows: Seq<Seq<Seq<char>>>) -> Seq<char> {
    "<table><thead>"@ + thead_html(rows) + "</thead>"@ + rows_html_from(rows, 1) + "</table>"@
}

/// The first line of `s`: the text before the first line feed (all of `s`
/// when there is none).  A carriage return is removed only as part of a
/// terminating carriage-return/line-feed pair; a bare `'\r'` that ends the
/// input stays part of the line, as `str::lines` keeps it.
pub open spec fn line_at(s: Seq<char>) -> Seq<char> {
    let e = find_char(s, '\n');
    if e >= 0 {
        let raw = s.take(e);
        if raw.len() > 0 && raw.last() == '\r' {
            raw.drop_last()
        } else {
            raw
        }
    } else {
        s
    }
}

/// The consecutive leading lines of `s` that each contain a pipe: the lines
/// that make up the table.  Empty when the very first line has no pipe.
pub open spec fn table_lines(s: Seq<char>) -> Seq<Seq<char>>
    decreases s.len(),
{
    if s.len() == 0 {
        Seq::<Seq<char>>::empty()
    } else {
        let line = line_at(s);
        if find_char(line, '|') == -1 {
            Seq::<Seq<char>>::empty()
        } else {
            let e = find_char(s, '\n');
            if 0 <= e < s.len() {
                seq![line] + table_lines(s.skip(e + 1))
            } else {
                seq![line]
            }
        }
    }
}

/// How much of `s` the parser consumes for a recognized table: everything
/// through the end of the last accumulated line, separators between lines
/// included, so the scanner resumes cleanly after the table.  A line feed
/// that terminates the last line is not consumed (it stays in the
/// remainder), but a carriage return before it is; a table that runs to the
/// end of the input is consumed whole.  Zero when no table is found.
pub open spec fn consumed_spec(s: Seq<char>) -> int
    decreases s.len(),
{
    if s.len() == 0 {
        0
    } else {
        let line = line_at(s);
        if find_char(line, '|') == -1 {
            0
        } else {
            let e = find_char(s, '\n');
            if 0 <= e < s.len() {
                let restc = consumed_spec(s.skip(e + 1));
                if restc > 0 {
                    e + 1 + restc
                } else {
                    e
                }
            } else {
                s.len() as int
            }
        }
    }
}

/// True when a table immediately follows: the very first line of `s`
/// contains a pipe.
pub open spec fn table_found(s: Seq<char>) -> bool {
    table_lines(s).len() > 0
}

/// The parsed table at the start of `s`, as rows of trimmed cells.
pub open spec fn table_rows_spec(s: Seq<char>) -> Seq<Seq<Seq<char>>> {
    table_lines(s).map(|i: int, l: Seq<char>| row_cells(l))
}

/// The scanner's result on `s` with `fuel` remaining iterations: text before
/// each marker is kept, a marker followed by a table becomes that table's
/// HTML, a marker followed by no table is dropped, and when the fuel runs
/// out the rest of the input is kept untouched.
pub open spec fn scan_spec(s: Seq<char>, fuel: nat) -> Seq<char>
    decreases fuel,
{
    if fuel == 0 {
        s
    } else if s.len() == 0 {
        Seq::<char>::empty()
    } else {
        let i = find_marker(s);
        if i == -1 {
            s
        } else {
            let rest = s.skip(i + 5);
            if table_found(rest) {
                s.take(i) + table_html(table_rows_spec(rest)) + scan_spec(
                    rest.skip(consumed_spec(rest)),
                    (fuel - 1) as nat,
                )
            } else {
                s.take(i) + scan_spec(rest, (fuel - 1) as nat)
            }
        }
    }
}

/// The first row's cells each wrapped in a `<th>` element, from index `i`
/// on.
pub open spec fn th_cells_from(cells: Seq<Seq<char>>, i: int) -> Seq<char>
    decreases cells.len() - i,
{
    if i < 0 || i >= cells.len() {
        Seq::<char>::empty()
    } else {
        "<th>"@ + cells[i] + "</th>"@ + th_cells_from(cells, i + 1)
    }
}

proof fn lemma_th_cells(cells: Seq<Seq<char>>, i: int)
    ensures
        cells_html_from(cells, row_kinds(cells, true), i) == th_cells_from(cells, i),
    decreases cells.len() - i,
{
    if 0 <= i < cells.len() {
        assert(row_kinds(cells, true)[i] == spec_kind(cells[i], true));
        lemma_th_cells(cells, i + 1);
    }
}

/// For any recognized table, every cell of rendered row 0 stands inside a
/// `<th>` element whatever its text: the heading section is exactly the
/// first row's cells, each wrapped in `<th>`, inside one `<tr>`.
pub proof fn lemma_header_row_all_th(rows: Seq<Seq<Seq<char>>>)
    requires
        rows.len() > 0,
    ensures
        thead_html(rows) == "<tr>"@ + th_cells_from(rows[0], 0) + "</tr>"@,
{
    lemma_th_cells(rows[0], 0);
}

/// For a body that contains no occurrence of the annotation marker, the
/// scanner's output equals its input exactly, whatever fuel it is given.
pub proof fn lemma_marker_free_unchanged(s: Seq<char>, fuel: nat)
    requires
        forall|j: int| !marker_at(s, j),
    ensures
        scan_spec(s, fuel) == s,
{
    if fuel == 0 {
    } else if s.len() == 0 {
        assert(scan_spec(s, fuel) =~= s);
    } else {
        crate::text::lemma_find_marker_none(s);
    }
}

/// A marker that no table follows is dropped: nothing is emitted for it,
/// the text before it is kept, and scanning resumes on the text just after
/// the marker.
pub proof fn lemma_unmatched_marker_dropped(s: Seq<char>, fuel: nat)
    requires
        fuel > 0,
        find_marker(s) >= 0,
        !table_found(s.skip(find_marker(s) + 5)),
    ensures
        scan_spec(s, fuel) == s.take(find_marker(s)) + scan_spec(
            s.skip(find_marker(s) + 5),
            (fuel - 1) as nat,
        ),
{
    assert(s.len() > 0);
}

/// One parsed table row: the trimmed cell texts and, index-aligned, each
/// cell's classification.
pub struct TableRow {
    contents: Vec<String>,
    row_types: Vec<RowType>,
}

impl TableRow {
    /// The row's cell texts.
    pub closed spec fn cells(&self) -> Seq<Seq<char>> {
        self.contents@.map(|i: int, s: String| s@)
    }

    /// The row's cell kinds.
    pub closed spec fn kinds(&self) -> Seq<RowType> {
        self.row_types@
    }

    /// Each cell has exactly one kind.
    pub open spec fn wf(&self) -> bool {
        self.kinds().len() == self.cells().len()
    }

    /// Renders the row: one `<tr>` element holding each cell's HTML in
    /// order.  Heading cells render as `<th>`, code cells keep their
    /// delimiters inside `<pre>`, alignment and empty cells emit nothing.
    pub fn get_as_html(&self) -> (r: String)
        requires
            self.wf(),
        ensures
            r@ == row_html(self.cells(), self.kinds()),
    {
        let mut out = String::from_str("<tr>");
        let n = self.contents.len();
        let mut i: usize = 0;
        while i < n
            invariant
                self.wf(),
                n == self.contents@.len(),
                i <= n,
                out@ + cells_html_from(self.cells(), self.kinds(), i as int) == "<tr>"@
                    + cells_html_from(self.cells(), self.kinds(), 0),
            decreases n - i,
        {
            let ghost cells = self.cells();
            let ghost kinds = self.kinds();
            let ghost out0 = out@;
            proof {
                assert(cells_html_from(cells, kinds, i as int) == cell_html(
                    cells[i as int],
                    kinds[i as int],
                ) + cells_html_from(cells, kinds, i + 1));
                assert(cells[i as int] == self.contents@[i as int]@);
            }
            match self.row_types[i] {
                RowType::Headings => {
                    out.append("<th>");
                    out.append(self.contents[i].as_str());
                    out.append("</th>");
                },
                RowType::CodeEntry => {
                    out.append("<td><pre>");
                    out.append(self.contents[i].as_str());
                    out.append("</pre><td>");
                },
                RowType::TextEntry => {
                    out.append("<td>");
                    out.append(self.contents[i].as_str());
                    out.append("</td>");
                },
                RowType::Alignments => {},
                RowType::Empty => {},
            }
            proof {
                assert(out@ =~= out0 + cell_html(cells[i as int], kinds[i as int]));
                assert(out@ + cells_html_from(cells, kinds, i + 1) =~= out0 + cells_html_from(
                    cells,
                    kinds,
                    i as int,
                ));
            }
            i += 1;
        }
        out.append("</tr>");
        proof {
            assert(cells_html_from(self.cells(), self.kinds(), n as int)
                == Seq::<char>::empty());
            assert(out@ =~= row_html(self.cells(), self.kinds()));
        }
        out
    }
}

/// A parsed table: its rows in order.  Row 0 is the heading row; its cells
/// carry heading kinds whatever their text, and every later row's cells are
/// classified by content.
pub struct CodeTable {
    rows: Vec<TableRow>,
}

impl CodeTable {
    /// The table's rows, each as its sequence of cell texts.
    pub closed spec fn table(&self) -> Seq<Seq<Seq<char>>> {
        self.rows@.map(|i: int, r: TableRow| r.cells())
    }

    /// Every row is well formed and carries the kinds its position demands:
    /// heading kinds in row 0, content-classified kinds below it.
    pub closed spec fn wf(&self) -> bool {
        forall|i: int|
            0 <= i < self.rows@.len() ==> (#[trigger] self.rows@[i]).wf() && self.rows@[i].kinds()
                == row_kinds(self.rows@[i].cells(), i == 0)
    }

    /// Renders the table: the heading row inside `<thead>`, then the data
    /// rows, all inside one `<table>` element.
    pub fn get_as_html(&self) -> (r: String)
        requires
            self.wf(),
        ensures
            r@ == table_html(self.table()),
    {
        let mut out = String::from_str("<table><thead>");
        let n = self.rows.len();
        if n > 0 {
            let h = self.rows[0].get_as_html();
            out.append(h.as_str());
        }
        out.append("</thead>");
        proof {
            assert(out@ =~= "<table><thead>"@ + thead_html(self.table()) + "</thead>"@);
        }
        let mut i: usize = 1;
        while i < n
            invariant
                self.wf(),
                n == self.rows@.len(),
                1 <= i,
                i <= n || i == 1,
                out@ + rows_html_from(self.table(), i as int) == "<table><thead>"@ + thead_html(
                    self.table(),
                ) + "</thead>"@ + rows_html_from(self.table(), 1),
            decreases n - i,
        {
            let ghost t = self.table();
            let ghost out0 = out@;
            proof {
                assert(rows_html_from(t, i as int) == row_html(
                    t[i as int],
                    row_kinds(t[i as int], false),
                ) + rows_html_from(t, i + 1));
                assert(t[i as int] == self.rows@[i as int].cells());
            }
            let h = self.rows[i].get_as_html();
            out.append(h.as_str());
            proof {
                assert(out@ + rows_html_from(t, i + 1) =~= out0 + rows_html_from(t, i as int));
            }
            i += 1;
        }
        out.append("</table>");
        proof {
            assert(rows_html_from(self.table(), i as int) == Seq::<char>::empty());
            assert(out@ =~= table_html(self.table()));
        }
        out
    }
}

/// The classification of the trimmed cell `cv[a..b)`.
fn classify_range(cv: &Vec<char>, a: usize, b: usize) -> (k: RowType)
    requires
        a <= b <= cv@.len(),
    ensures
        k == classify(cv@.subrange(a as int, b as int)),
{
    let hy = find_in_range(cv, a, b, '-');
    let sp = find_in_range(cv, a, b, ' ');
    let bt = find_in_range(cv, a, b, '`');
    if hy.is_some() && sp.is_none() {
        RowType::Alignments
    } else if bt.is_some() {
        RowType::CodeEntry
    } else if a == b {
        proof {
            assert(cv@.subrange(a as int, b as int).len() == 0);
        }
        RowType::Empty
    } else {
        RowType::TextEntry
    }
}

/// Parses the line `cv[start..end)` into a table row, classifying its cells
/// as heading cells when `is_first` holds and by content otherwise.
fn row_from(s: &str, cv: &Vec<char>, start: usize, end: usize, is_first: bool) -> (r: TableRow)
    requires
        cv@ == s@,
        start <= end <= cv@.len(),
    ensures
        r.cells() == row_cells(cv@.subrange(start as int, end as int)),
        r.kinds() == row_kinds(row_cells(cv@.subrange(start as int, end as int)), is_first),
        r.wf(),
{
    let ghost line = cv@.subrange(start as int, end as int);
    let mut contents: Vec<String> = Vec::new();
    let mut types: Vec<RowType> = Vec::new();
    let ghost mut done: Seq<Seq<char>> = Seq::<Seq<char>>::empty();
    let mut cur: usize = start;
    loop
        invariant
            cv@ == s@,
            start <= cur <= end <= cv@.len(),
            line == cv@.subrange(start as int, end as int),
            split_char(line, '|') == done + split_char(
                cv@.subrange(cur as int, end as int),
                '|',
            ),
            contents@.len() == done.len(),
            types@.len() == done.len(),
            forall|i: int| 0 <= i < done.len() ==> #[trigger] contents@[i]@ == trim_spec(done[i]),
            forall|i: int| 0 <= i < done.len() ==> #[trigger] types@[i] == spec_kind(
                trim_spec(done[i]),
                is_first,
            ),
        decreases end - cur,
    {
        let j_opt = find_in_range(cv, cur, end, '|');
        let j = match j_opt {
            Some(j) => j,
            None => end,
        };
        let (a, b) = trim_range(cv, cur, j);
        let cell = String::from_str(s.substring_char(a, b));
        contents.push(cell);
        let k = if is_first {
            RowType::Headings
        } else {
            classify_range(cv, a, b)
        };
        types.push(k);
        proof {
            let frag = cv@.subrange(cur as int, j as int);
            let remv = cv@.subrange(cur as int, end as int);
            if j_opt is Some {
                assert(remv.take(j - cur) =~= frag);
                assert(remv.skip(j - cur + 1) =~= cv@.subrange(j + 1, end as int));
                assert(split_char(remv, '|') == seq![frag] + split_char(
                    cv@.subrange(j + 1, end as int),
                    '|',
                ));
                assert(done + split_char(remv, '|') =~= done.push(frag) + split_char(
                    cv@.subrange(j + 1, end as int),
                    '|',
                ));
            } else {
                assert(remv =~= frag);
                assert(split_char(remv, '|') == seq![frag]);
                assert(done + split_char(remv, '|') =~= done.push(frag));
            }
            done = done.push(frag);
        }
        match j_opt {
            Some(j) => {
                cur = j + 1;
            },
            None => {
                let r = TableRow { contents, row_types: types };
                proof {
                    assert(split_char(line, '|') == done);
                    assert forall|i: int| 0 <= i < done.len() implies r.cells()[i] == row_cells(
                        line,
                    )[i] by {
                        assert(r.cells()[i] == contents@[i]@);
                        assert(row_cells(line)[i] == trim_spec(done[i]));
                    }
                    assert(r.cells() =~= row_cells(line));
                    assert forall|i: int| 0 <= i < done.len() implies r.kinds()[i] == row_kinds(
                        row_cells(line),
                        is_first,
                    )[i] by {
                        assert(row_kinds(row_cells(line), is_first)[i] == spec_kind(
                            row_cells(line)[i],
                            is_first,
                        ));
                        assert(row_cells(line)[i] == trim_spec(done[i]));
                    }
                    assert(r.kinds() =~= row_kinds(row_cells(line), is_first));
                }
                return r;
            },
        }
    }
}

/// Parses the table that starts at `cv[start..]`, if one does: the leading
/// run of lines that each contain a pipe, plus how many characters of that
/// tail the table occupies.
fn table_at(s: &str, cv: &Vec<char>, start: usize) -> (r: Option<(CodeTable, usize)>)
    requires
        cv@ == s@,
        start <= cv@.len(),
    ensures
        match r {
            Some(p) => {
                &&& table_found(cv@.skip(start as int))
                &&& p.0.wf()
                &&& p.0.table() == table_rows_spec(cv@.skip(start as int))
                &&& p.1 as int == consumed_spec(cv@.skip(start as int))
                &&& p.1 <= cv@.len() - start
            },
            None => !table_found(cv@.skip(start as int)),
        },
{
    let n = cv.len();
    let ghost rest = cv@.skip(start as int);
    let mut rows: Vec<TableRow> = Vec::new();
    let ghost mut lns: Seq<Seq<char>> = Seq::<Seq<char>>::empty();
    let mut pos: usize = start;
    let mut last_end: usize = start;
    proof {
        assert(rest =~= cv@.subrange(start as int, n as int));
        assert(lns + table_lines(cv@.subrange(pos as int, n as int)) =~= table_lines(
            cv@.subrange(pos as int, n as int),
        ));
        assert(consumed_spec(rest) == consumed_spec(cv@.subrange(pos as int, n as int)));
    }
    loop
        invariant_except_break
            start <= pos <= n,
            table_lines(rest) == lns + table_lines(cv@.subrange(pos as int, n as int)),
            consumed_spec(rest) == (if consumed_spec(cv@.subrange(pos as int, n as int)) > 0 {
                (pos - start) + consumed_spec(cv@.subrange(pos as int, n as int))
            } else {
                last_end - start
            }),
        invariant
            cv@ == s@,
            n == cv@.len(),
            start <= n,
            start <= last_end <= n,
            rest == cv@.skip(start as int),
            rows@.len() == lns.len(),
            forall|i: int| 0 <= i < lns.len() ==> (#[trigger] rows@[i]).wf(),
            forall|i: int|
                0 <= i < lns.len() ==> (#[trigger] rows@[i]).cells() == row_cells(lns[i]),
            forall|i: int|
                0 <= i < lns.len() ==> (#[trigger] rows@[i]).kinds() == row_kinds(
                    row_cells(lns[i]),
                    i == 0,
                ),
        ensures
            table_lines(rest) == lns,
            consumed_spec(rest) == last_end - start,
        decreases n - pos,
    {
        if pos == n {
            proof {
                assert(cv@.subrange(pos as int, n as int) =~= Seq::<char>::empty());
                assert(lns + table_lines(cv@.subrange(pos as int, n as int)) =~= lns);
                assert(consumed_spec(cv@.subrange(pos as int, n as int)) == 0);
            }
            break ;
        }
        let eol = find_in_range(cv, pos, n, '\n');
        let raw_end = match eol {
            Some(e) => e,
            None => n,
        };
        let line_end = match eol {
            Some(e) => {
                if e > pos && cv[e - 1] == '\r' {
                    e - 1
                } else {
                    e
                }
            },
            None => n,
        };
        proof {
            match eol {
                Some(e) => {
                    assert(cv@.subrange(pos as int, n as int).take(e - pos) =~= cv@.subrange(
                        pos as int,
                        raw_end as int,
                    ));
                },
                None => {
                    assert(cv@.subrange(pos as int, n as int) =~= cv@.subrange(
                        pos as int,
                        raw_end as int,
                    ));
                },
            }
            if raw_end > pos {
                assert(cv@.subrange(pos as int, raw_end as int).last() == cv@[raw_end - 1]);
            }
            if line_end < raw_end {
                assert(cv@.subrange(pos as int, raw_end as int).drop_last() =~= cv@.subrange(
                    pos as int,
                    line_end as int,
                ));
            }
            assert(line_at(cv@.subrange(pos as int, n as int)) == cv@.subrange(
                pos as int,
                line_end as int,
            ));
        }
        let pipe = find_in_range(cv, pos, line_end, '|');
        if pipe.is_none() {
            proof {
                assert(table_lines(cv@.subrange(pos as int, n as int))
                    == Seq::<Seq<char>>::empty());
                assert(lns + table_lines(cv@.subrange(pos as int, n as int)) =~= lns);
                assert(consumed_spec(cv@.subrange(pos as int, n as int)) == 0);
            }
            break ;
        }
        let row = row_from(s, cv, pos, line_end, rows.len() == 0);
        rows.push(row);
        proof {
            let ghost line = cv@.subrange(pos as int, line_end as int);
            match eol {
                Some(e) => {
                    assert(table_lines(cv@.subrange(pos as int, n as int)) == seq![line]
                        + table_lines(cv@.subrange(pos as int, n as int).skip(e - pos + 1)));
                    assert(cv@.subrange(pos as int, n as int).skip(e - pos + 1) =~= cv@.subrange(
                        e + 1,
                        n as int,
                    ));
                    assert(lns + (seq![line] + table_lines(cv@.subrange(e + 1, n as int)))
                        =~= lns.push(line) + table_lines(cv@.subrange(e + 1, n as int)));
                },
                None => {
                    assert(table_lines(cv@.subrange(pos as int, n as int)) == seq![line]);
                    assert(lns + seq![line] =~= lns.push(line));
                },
            }
            lns = lns.push(line);
        }
        match eol {
            Some(e) => {
                last_end = e;
                proof {
                    let ghost sub = cv@.subrange(pos as int, n as int);
                    let ghost restc = consumed_spec(cv@.subrange(e + 1, n as int));
                    assert(consumed_spec(sub.skip(e - pos + 1)) == restc);
                    assert(consumed_spec(sub) == (if restc > 0 {
                        (e - pos) + 1 + restc
                    } else {
                        e - pos
                    }));
                    assert(consumed_spec(sub) > 0);
                }
                pos = e + 1;
            },
            None => {
                last_end = n;
                proof {
                    assert(consumed_spec(cv@.subrange(pos as int, n as int)) == n - pos);
                }
                break ;
            },
        }
    }
    if rows.len() == 0 {
        return None;
    }
    let consumed = last_end - start;
    let t = CodeTable { rows };
    proof {
        assert forall|i: int| 0 <= i < t.table().len() implies t.table()[i] == table_rows_spec(
            rest,
        )[i] by {
            assert(t.table()[i] == t.rows@[i].cells());
            assert(table_rows_spec(rest)[i] == row_cells(table_lines(rest)[i]));
        }
        assert(t.table() =~= table_rows_spec(rest));
    }
    Some((t, consumed))
}

/// The scanner's hard iteration ceiling: far above any realistic document's
/// marker count, it guarantees termination even on adversarial input; on
/// reaching it the scanner returns its output plus the untouched remainder.
pub const MAX_LOOP_STEPS: u32 = 2048;

/// The annotation scanner and table parser.  The type has no state: every
/// invocation is a pure function of its input text.
pub struct CodeTables;

impl CodeTables {
    /// Splits one table line into trimmed cells and classifies each cell:
    /// every cell is a heading cell when `is_first` holds, and content
    /// decides otherwise.
    pub fn get_table_row(string: &str, is_first: bool) -> (r: TableRow)
        ensures
            r.cells() == row_cells(string@),
            r.kinds() == row_kinds(row_cells(string@), is_first),
            r.wf(),
    {
        let cv = chars_of(string);
        let n = cv.len();
        proof {
            assert(cv@.subrange(0, n as int) =~= string@);
        }
        row_from(string, &cv, 0, n, is_first)
    }

    /// Determines whether a pipe-delimited table begins at the very first
    /// line of `string`.  On success, returns the parsed table and how many
    /// characters of `string` it occupies; reports no table exactly when the
    /// first line contains no pipe.
    pub fn get_table_metadata(string: &str) -> (r: Option<(CodeTable, usize)>)
        ensures
            match r {
                Some(p) => {
                    &&& table_found(string@)
                    &&& p.0.wf()
                    &&& p.0.table() == table_rows_spec(string@)
                    &&& p.1 as int == consumed_spec(string@)
                    &&& p.1 <= string@.len()
                },
                None => !table_found(string@),
            },
    {
        let cv = chars_of(string);
        proof {
            assert(cv@.skip(0) =~= string@);
        }
        table_at(string, &cv, 0)
    }

    /// Transforms one document body: every `@code` marker followed by a
    /// recognizable table is replaced by that table's HTML, a marker that no
    /// table follows is dropped, and all other text is kept verbatim in
    /// order.  The whole transformation equals `scan_spec` on the input.
    ///
    /// `find_marker_in`'s contract guarantees that the marker literally
    /// stands at the returned index, so no defensive re-check is needed
    /// before stepping past it.
    pub fn parse_chapter_contents(content: &str) -> (r: String)
        ensures
            r@ == scan_spec(content@, MAX_LOOP_STEPS as nat),
    {
        let cv = chars_of(content);
        let n = cv.len();
        let mut out = String::new();
        let mut pos: usize = 0;
        let mut steps: u32 = 0;
        proof {
            assert(cv@.skip(0) =~= content@);
            assert(out@ + scan_spec(content@, MAX_LOOP_STEPS as nat) =~= scan_spec(
                content@,
                MAX_LOOP_STEPS as nat,
            ));
        }
        while steps < MAX_LOOP_STEPS
            invariant
                cv@ == content@,
                n == cv@.len(),
                pos <= n,
                steps <= MAX_LOOP_STEPS,
                scan_spec(content@, MAX_LOOP_STEPS as nat) == out@ + scan_spec(
                    cv@.skip(pos as int),
                    (MAX_LOOP_STEPS - steps) as nat,
                ),
            ensures
                scan_spec(cv@.skip(pos as int), (MAX_LOOP_STEPS - steps) as nat) == cv@.skip(
                    pos as int,
                ),
            decreases MAX_LOOP_STEPS - steps,
        {
            let ghost fuel = (MAX_LOOP_STEPS - steps) as nat;
            let ghost pos0 = pos as int;
            let ghost out0 = out@;
            if pos == n {
                proof {
                    assert(cv@.skip(pos as int) =~= Seq::<char>::empty());
                }
                break ;
            }
            let m = find_marker_in(&cv, pos);
            let i = match m {
                Some(i) => i,
                None => {
                    break ;
                },
            };
            out.append(content.substring_char(pos, i));
            let rest_start = i + 5;
            proof {
                assert(cv@.skip(pos0).take(i - pos0) =~= cv@.subrange(pos0, i as int));
                assert(cv@.skip(pos0).skip(i - pos0 + 5) =~= cv@.skip(rest_start as int));
            }
            let t = table_at(content, &cv, rest_start);
            match t {
                Some(p) => {
                    let html = p.0.get_as_html();
                    out.append(html.as_str());
                    pos = rest_start + p.1;
                    proof {
                        assert(cv@.skip(rest_start as int).skip(p.1 as int) =~= cv@.skip(
                            pos as int,
                        ));
                        assert(scan_spec(cv@.skip(pos0), fuel) == cv@.skip(pos0).take(i - pos0)
                            + table_html(table_rows_spec(cv@.skip(rest_start as int)))
                            + scan_spec(cv@.skip(pos as int), (fuel - 1) as nat));
                        assert(out@ =~= out0 + (cv@.skip(pos0).take(i - pos0) + table_html(
                            table_rows_spec(cv@.skip(rest_start as int)),
                        )));
                        assert(out@ + scan_spec(cv@.skip(pos as int), (fuel - 1) as nat) =~= out0
                            + scan_spec(cv@.skip(pos0), fuel));
                    }
                },
                None => {
                    pos = rest_start;
                    proof {
                        assert(scan_spec(cv@.skip(pos0), fuel) == cv@.skip(pos0).take(i - pos0)
                            + scan_spec(cv@.skip(pos as int), (fuel - 1) as nat));
                        assert(out@ + scan_spec(cv@.skip(pos as int), (fuel - 1) as nat) =~= out0
                            + scan_spec(cv@.skip(pos0), fuel));
                    }
                },
            }
            steps += 1;
        }
        out.append(content.substring_char(pos, n));
        proof {
            assert(content@.subrange(pos as int, n as int) =~= cv@.skip(pos as int));
            assert(out@ =~= scan_spec(content@, MAX_LOOP_STEPS as nat));
        }
        out
    }
}

} // verus!
