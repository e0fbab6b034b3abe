//! Text tables with left-aligned columns.

use crate::text::{chars_of, push_char};
use vstd::prelude::*;
use vstd::utf8::encode_utf8;

verus! {

/// The length of a text in bytes, as UTF-8 (what `str::len` gives).
pub open spec fn byte_len(s: Seq<char>) -> usize {
    encode_utf8(s).len() as usize
}

pub open spec fn strings_view(v: Seq<String>) -> Seq<Seq<char>> {
    Seq::new(v.len(), |i: int| v[i]@)
}

pub open spec fn rows_view(v: Seq<Vec<String>>) -> Seq<Seq<Seq<char>>> {
    Seq::new(v.len(), |i: int| strings_view(v[i]@))
}

/// The widest cell in column `i` of the rows, in bytes (0 without one).
pub open spec fn rows_width(rows: Seq<Seq<Seq<char>>>, i: int) -> int
    decreases rows.len(),
{
    if rows.len() == 0 {
        0
    } else {
        let w = rows_width(rows.drop_last(), i);
        let last = rows.last();
        if 0 <= i < last.len() && byte_len(last[i]) > w {
            byte_len(last[i]) as int
        } else {
            w
        }
    }
}

/// The width of column `i`: the widest of its header and its cells, in bytes.
pub open spec fn column_width(headers: Seq<Seq<char>>, rows: Seq<Seq<Seq<char>>>, i: int) -> int {
    let w = rows_width(rows, i);
    if byte_len(headers[i]) > w {
        byte_len(headers[i]) as int
    } else {
        w
    }
}

pub open spec fn column_widths_of(headers: Seq<Seq<char>>, rows: Seq<Seq<Seq<char>>>) -> Seq<int> {
    Seq::new(headers.len(), |i: int| column_width(headers, rows, i))
}

/// `n` copies of `c` (none where `n` is not positive).
pub open spec fn repeat(c: char, n: int) -> Seq<char> {
    Seq::new(if n > 0 { n as nat } else { 0 }, |k: int| c)
}

/// `s` followed by spaces up to `w` characters, as `{:w$}` formats it.
pub open spec fn pad_to(s: Seq<char>, w: int) -> Seq<char> {
    s + repeat(' ', w - s.len())
}

/// The cells, each padded to the width of its column and followed by a space.
pub open spec fn cells_line(cells: Seq<Seq<char>>, widths: Seq<int>) -> Seq<char>
    decreases cells.len(),
{
    if cells.len() == 0 {
        Seq::empty()
    } else {
        cells_line(cells.drop_last(), widths) + pad_to(cells.last(), widths[cells.len() - 1])
            + seq![' ']
    }
}

/// For each column, dashes across its width (at least one), then a space.
pub open spec fn rule_line(widths: Seq<int>) -> Seq<char>
    decreases widths.len(),
{
    if widths.len() == 0 {
        Seq::empty()
    } else {
        rule_line(widths.drop_last()) + repeat(
            '-',
            if widths.last() > 1 {
                widths.last()
            } else {
                1
            },
        ) + seq![' ']
    }
}

/// Each row as a line of cells.
pub open spec fn rows_text(rows: Seq<Seq<Seq<char>>>, widths: Seq<int>) -> Seq<char>
    decreases rows.len(),
{
    if rows.len() == 0 {
        Seq::empty()
    } else {
        rows_text(rows.drop_last(), widths) + cells_line(rows.last(), widths) + seq!['\n']
    }
}

/// The text of a table: the header line, a rule of dashes, then the rows, each
/// line ended by a line feed.
pub open spec fn table_text(headers: Seq<Seq<char>>, rows: Seq<Seq<Seq<char>>>) -> Seq<char> {
    let w = column_widths_of(headers, rows);
    cells_line(headers, w) + seq!['\n'] + rule_line(w) + seq!['\n'] + rows_text(rows, w)
}

pub open spec fn widths_view(w: Seq<usize>) -> Seq<int> {
    Seq::new(w.len(), |i: int| w[i] as int)
}

fn push_repeat(out: &mut String, c: char, n: usize)
    ensures
        final(out)@ == old(out)@ + repeat(c, n as int),
{
    let ghost start = out@;
    let mut k: usize = 0;
    while k < n
        invariant
            k <= n,
            out@ == start + repeat(c, k as int),
        decreases n - k,
    {
        push_char(out, c);
        assert(start + repeat(c, k + 1) =~= (start + repeat(c, k as int)).push(c));
        k = k + 1;
    }
}

/// `cell` padded to `w` characters, then a space.
fn push_cell(out: &mut String, cell: &String, w: usize)
    ensures
        final(out)@ == old(out)@ + pad_to(cell@, w as int) + seq![' '],
{
    let ghost start = out@;
    let cs = chars_of(cell.as_str());
    let mut k: usize = 0;
    while k < cs.len()
        invariant
            k <= cs.len(),
            out@ == start + cs@.take(k as int),
        decreases cs.len() - k,
    {
        push_char(out, cs[k]);
        assert(start + cs@.take(k + 1) =~= (start + cs@.take(k as int)).push(cs@[k as int]));
        k = k + 1;
    }
    assert(cs@.take(k as int) =~= cell@);
    let pad: usize = if w > cs.len() {
        w - cs.len()
    } else {
        0
    };
    push_repeat(out, ' ', pad);
    assert(repeat(' ', pad as int) =~= repeat(' ', w - cell@.len()));
    push_char(out, ' ');
    assert(out@ =~= start + pad_to(cell@, w as int) + seq![' ']);
}

fn push_cells(out: &mut String, cells: &Vec<String>, widths: &Vec<usize>)
    requires
        cells.len() <= widths.len(),
    ensures
        final(out)@ == old(out)@ + cells_line(strings_view(cells@), widths_view(widths@)),
{
    let ghost start = out@;
    let ghost cv = strings_view(cells@);
    let ghost wv = widths_view(widths@);
    let mut c: usize = 0;
    while c < cells.len()
        invariant
            c <= cells.len() <= widths.len(),
            cv == strings_view(cells@),
            wv == widths_view(widths@),
            out@ == start + cells_line(cv.take(c as int), wv),
        decreases cells.len() - c,
    {
        push_cell(out, &cells[c], widths[c]);
        assert(cv.take(c + 1).drop_last() =~= cv.take(c as int));
        assert(out@ =~= start + cells_line(cv.take(c + 1), wv));
        c = c + 1;
    }
    assert(cv.take(c as int) =~= cv);
}

/// A header row and data rows of text cells, shown as columns.
#[derive(Debug)]
pub struct Table {
    headers: Vec<String>,
    rows: Vec<Vec<String>>,
}

impl Table {
    pub closed spec fn spec_headers(self) -> Seq<Seq<char>> {
        strings_view(self.headers@)
    }

    pub closed spec fn spec_rows(self) -> Seq<Seq<Seq<char>>> {
        rows_view(self.rows@)
    }

    /// No row has more cells than there are headers.
    pub open spec fn rows_fit(self) -> bool {
        forall|r: int|
            0 <= r < self.spec_rows().len() ==> (#[trigger] self.spec_rows()[r]).len()
                <= self.spec_headers().len()
    }

    pub fn new(headers: Vec<String>, rows: Vec<Vec<String>>) -> (r: Table)
        ensures
            r.spec_headers() == strings_view(headers@),
            r.spec_rows() == rows_view(rows@),
    {
        Table { headers, rows }
    }

    /// The width of each column, in bytes: the widest of its header and its
    /// cells.
    pub fn column_widths(&self) -> (r: Vec<usize>)
        requires
            self.rows_fit(),
        ensures
            r@.len() == self.spec_headers().len(),
            forall|i: int|
                0 <= i < r@.len() ==> r@[i] == column_width(
                    self.spec_headers(),
                    self.spec_rows(),
                    i,
                ),
    {
        let ghost hs = self.spec_headers();
        let ghost rs = self.spec_rows();
        let mut widths: Vec<usize> = Vec::new();
        let mut i: usize = 0;
        while i < self.headers.len()
            invariant
                i <= self.headers.len(),
                hs == strings_view(self.headers@),
                widths@.len() == i,
                forall|m: int| 0 <= m < i ==> #[trigger] widths@[m] == byte_len(hs[m]),
            decreases self.headers.len() - i,
        {
            let h = self.headers[i].as_str();
            let n = h.len();
            assert(h@ == hs[i as int]);
            assert(n == byte_len(hs[i as int]));
            widths.push(n);
            i = i + 1;
        }
        let mut r: usize = 0;
        while r < self.rows.len()
            invariant
                r <= self.rows.len(),
                hs == strings_view(self.headers@),
                rs == rows_view(self.rows@),
                rs == self.spec_rows(),
                hs == self.spec_headers(),
                self.rows_fit(),
                widths@.len() == hs.len(),
                forall|m: int|
                    0 <= m < widths@.len() ==> #[trigger] widths@[m] == column_width(
                        hs,
                        rs.take(r as int),
                        m,
                    ),
            decreases self.rows.len() - r,
        {
            let row = &self.rows[r];
            assert(rs[r as int].len() <= hs.len());
            assert(rs.take(r + 1).drop_last() =~= rs.take(r as int));
            assert(rs.take(r + 1).last() == rs[r as int]);
            let mut c: usize = 0;
            while c < row.len()
                invariant
                    c <= row.len(),
                    row@.len() <= widths@.len(),
                    r < rs.len(),
                    rs[r as int] == strings_view(row@),
                    rs.take(r + 1).drop_last() == rs.take(r as int),
                    rs.take(r + 1).last() == rs[r as int],
                    widths@.len() == hs.len(),
                    forall|m: int|
                        0 <= m < widths@.len() ==> #[trigger] widths@[m] == if m < c {
                            column_width(hs, rs.take(r + 1), m)
                        } else {
                            column_width(hs, rs.take(r as int), m)
                        },
                decreases row.len() - c,
            {
                let cell = row[c].as_str();
                let n = cell.len();
                assert(cell@ == rs[r as int][c as int]);
                assert(n == byte_len(rs[r as int][c as int]));
                assert(rows_width(rs.take(r + 1), c as int) == if byte_len(rs[r as int][c as int])
                    > rows_width(rs.take(r as int), c as int) {
                    byte_len(rs[r as int][c as int]) as int
                } else {
                    rows_width(rs.take(r as int), c as int)
                });
                if n > widths[c] {
                    widths[c] = n;
                }
                c = c + 1;
            }
            r = r + 1;
        }
        assert(rs.take(r as int) =~= rs);
        widths
    }

    /// The table as text: left-aligned columns as wide as their widest cell,
    /// a rule of dashes under the headers, one line per row.
    pub fn render(&self) -> (r: String)
        requires
            self.rows_fit(),
        ensures
            r@ == table_text(self.spec_headers(), self.spec_rows()),
    {
        let ghost hs = self.spec_headers();
        let ghost rs = self.spec_rows();
        let widths = self.column_widths();
        let ghost wv = widths_view(widths@);
        assert(wv =~= column_widths_of(hs, rs));
        let mut out = String::new();
        push_cells(&mut out, &self.headers, &widths);
        push_char(&mut out, '\n');
        let ghost head = out@;
        let mut i: usize = 0;
        while i < widths.len()
            invariant
                i <= widths.len(),
                wv == widths_view(widths@),
                out@ == head + rule_line(wv.take(i as int)),
            decreases widths.len() - i,
        {
            let n: usize = if widths[i] > 1 {
                widths[i]
            } else {
                1
            };
            push_repeat(&mut out, '-', n);
            push_char(&mut out, ' ');
            assert(wv.take(i + 1).drop_last() =~= wv.take(i as int));
            assert(out@ =~= head + rule_line(wv.take(i + 1)));
            i = i + 1;
        }
        assert(wv.take(i as int) =~= wv);
        push_char(&mut out, '\n');
        let ghost ruled = out@;
        let mut r: usize = 0;
        while r < self.rows.len()
            invariant
                r <= self.rows.len(),
                wv == widths_view(widths@),
                widths@.len() == hs.len(),
                rs == self.spec_rows(),
                hs == self.spec_headers(),
                self.rows_fit(),
                out@ == ruled + rows_text(rs.take(r as int), wv),
            decreases self.rows.len() - r,
        {
            assert(rs[r as int] == strings_view(self.rows@[r as int]@));
            push_cells(&mut out, &self.rows[r], &widths);
            push_char(&mut out, '\n');
            assert(rs.take(r + 1).drop_last() =~= rs.take(r as int));
            assert(out@ =~= ruled + rows_text(rs.take(r + 1), wv));
            r = r + 1;
        }
        assert(rs.take(r as int) =~= rs);
        out
    }
}

} // verus!
