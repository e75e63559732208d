//! Drawing a table as boxed text: rule lines, wrapped cells and rows of equal height.
use vstd::prelude::*;
use vstd::arithmetic::div_mod::{lemma_fundamental_div_mod, lemma_fundamental_div_mod_converse};
use crate::layout::Table;
use crate::text::{join, join_strings, push_char, push_repeated, repeat_char};

verus! {

/// One rule segment for each column: `w + 2 * padding` copies of `delim`.
pub open spec fn rule_segments(ws: Seq<usize>, padding: nat, delim: char) -> Seq<Seq<char>> {
    Seq::new(ws.len(), |i: int| repeat_char(delim, (ws[i] + 2 * padding) as nat))
}

/// A horizontal rule: the segments joined by `+`, with a `+` at each end.
pub open spec fn rule_line(ws: Seq<usize>, padding: nat, delim: char) -> Seq<char> {
    seq!['+'] + join(rule_segments(ws, padding, delim), seq!['+']) + seq!['+']
}

/// Line `i` of `s` cut at width `w`: characters `i * w` up to `(i + 1) * w`, or up
/// to the end of `s` where it comes first.
pub open spec fn wrap_piece(s: Seq<char>, w: nat, i: int) -> Seq<char> {
    s.subrange(i * w, if (i + 1) * w <= s.len() { (i + 1) * w } else { s.len() as int })
}

/// The text `s` cut into lines of `w` characters, the last holding what is left;
/// an empty text gives one empty line.
pub open spec fn wrapped(s: Seq<char>, w: nat) -> Seq<Seq<char>> {
    if s.len() == 0 {
        seq![Seq::empty()]
    } else {
        Seq::new(((s.len() + w - 1) as nat) / w, |i: int| wrap_piece(s, w, i))
    }
}

/// The greatest number of lines among the wrapped cells (0 for no cells).
pub open spec fn row_height(cells: Seq<Seq<Seq<char>>>) -> nat
    decreases cells.len(),
{
    if cells.len() == 0 {
        0
    } else {
        let rest = row_height(cells.drop_last());
        if rest >= cells.last().len() { rest } else { cells.last().len() }
    }
}

/// Line `h` of a wrapped cell, or an empty line below its last one.
pub open spec fn line_at(cell: Seq<Seq<char>>, h: int) -> Seq<char> {
    if h < cell.len() {
        cell[h]
    } else {
        Seq::empty()
    }
}

/// `x` right-aligned in `w` places, with spaces on the left; a longer `x` is kept whole.
pub open spec fn right_aligned(x: Seq<char>, w: nat) -> Seq<char> {
    if x.len() < w {
        repeat_char(' ', (w - x.len()) as nat) + x
    } else {
        x
    }
}

/// One column of a printed line: the aligned text with a space on each side.
pub open spec fn framed(x: Seq<char>, w: nat) -> Seq<char> {
    seq![' '] + right_aligned(x, w) + seq![' ']
}

/// Printed line `h` of a row of wrapped cells: the framed columns joined by `|`,
/// with a `|` at each end.
pub open spec fn text_line(cells: Seq<Seq<Seq<char>>>, ws: Seq<usize>, h: int) -> Seq<char> {
    seq!['|'] + join(
        Seq::new(cells.len(), |c: int| framed(line_at(cells[c], h), ws[c] as nat)),
        seq!['|'],
    ) + seq!['|']
}

/// The printed lines of a row of wrapped cells, as many as its tallest cell has.
pub open spec fn row_lines(cells: Seq<Seq<Seq<char>>>, ws: Seq<usize>) -> Seq<Seq<char>> {
    Seq::new(row_height(cells), |h: int| text_line(cells, ws, h))
}

/// Each cell of `row` wrapped at the width of its column.
pub open spec fn wrapped_row(row: Seq<Seq<char>>, ws: Seq<usize>) -> Seq<Seq<Seq<char>>> {
    Seq::new(row.len(), |c: int| wrapped(row[c], ws[c] as nat))
}

/// The text of one table row: its printed lines joined by newlines.
pub open spec fn row_text(row: Seq<Seq<char>>, ws: Seq<usize>) -> Seq<char> {
    join(row_lines(wrapped_row(row, ws), ws), seq!['\n'])
}

/// The pieces of a drawn table: a light top rule, then for each row its text and
/// a rule below it, heavy (`=`) under the first row and light (`-`) elsewhere.
pub open spec fn table_pieces(rows: Table, ws: Seq<usize>) -> Seq<Seq<char>>
    decreases rows.len(),
{
    if rows.len() == 0 {
        seq![rule_line(ws, 1, '-')]
    } else {
        table_pieces(rows.drop_last(), ws) + seq![
            row_text(rows.last(), ws),
            rule_line(ws, 1, if rows.len() == 1 { '=' } else { '-' }),
        ]
    }
}

/// The drawn table: its pieces joined by newlines, with no newline at the end.
pub open spec fn table_text(rows: Table, ws: Seq<usize>) -> Seq<char> {
    join(table_pieces(rows, ws), seq!['\n'])
}

/// Draws a horizontal rule for columns of widths `width`, each padded by
/// `padding` on both sides.
pub fn hline(width: &Vec<usize>, padding: usize, delim: char) -> (r: String)
    ensures
        r@ == rule_line(width@, padding as nat, delim),
{
    let mut segs: Vec<String> = Vec::new();
    let mut i: usize = 0;
    while i < width.len()
        invariant
            i <= width@.len(),
            segs.deep_view() =~= rule_segments(width@, padding as nat, delim).take(i as int),
        decreases width@.len() - i,
    {
        let mut seg = String::new();
        push_repeated(&mut seg, delim, width[i]);
        push_repeated(&mut seg, delim, padding);
        push_repeated(&mut seg, delim, padding);
        assert(seg@ =~= repeat_char(delim, (width@[i as int] + 2 * padding) as nat));
        let ghost prev = segs;
        segs.push(seg);
        assert(segs.deep_view() =~= prev.deep_view().push(seg@));
        i = i + 1;
    }
    assert(segs.deep_view() =~= rule_segments(width@, padding as nat, delim));
    proof {
        reveal_strlit("+");
        assert("+"@ =~= seq!['+']);
    }
    let body = join_strings(&segs, "+");
    let mut r = String::new();
    push_char(&mut r, '+');
    r.append(body.as_str());
    push_char(&mut r, '+');
    assert(r@ =~= rule_line(width@, padding as nat, delim));
    r
}

/// Cuts a cell's text into lines of `w` characters; an empty cell gives one
/// empty line.
pub fn draw_cell(cell: String, w: usize) -> (r: Vec<String>)
    requires
        w >= 1,
    ensures
        r.deep_view() == wrapped(cell@, w as nat),
{
    let n = cell.as_str().unicode_len();
    let mut r: Vec<String> = Vec::new();
    if n == 0 {
        r.push(String::new());
        assert(r.deep_view() =~= wrapped(cell@, w as nat));
        return r;
    }
    let ghost s = cell@;
    let ghost wi = w as int;
    let mut start: usize = 0;
    assert(0 * wi == 0);
    while start < n
        invariant
            s == cell@,
            n == s.len() > 0,
            wi == w >= 1,
            start <= n,
            start == (if r@.len() * wi <= n { r@.len() * wi } else { n as int }),
            r@.len() > 0 ==> (r@.len() - 1) * wi < n,
            r.deep_view() =~= Seq::new(r@.len(), |i: int| wrap_piece(s, w as nat, i)),
        decreases n - start,
    {
        let ghost i = r@.len() as int;
        assert(start == i * wi);
        assert(start < n);
        let end = if n - start > w { start + w } else { n };
        assert((i + 1) * wi == i * wi + wi) by (nonlinear_arith);
        assert(end == (if (i + 1) * wi <= n { (i + 1) * wi } else { n as int }));
        let line = String::from_str(cell.as_str().substring_char(start, end));
        assert(line@ == wrap_piece(s, w as nat, i));
        let ghost prev = r;
        r.push(line);
        assert(r.deep_view() =~= prev.deep_view().push(line@));
        start = end;
    }
    proof {
        let i = r@.len() as int;
        assert(i * wi >= n);
        let rem = n + wi - 1 - i * wi;
        assert(i * wi == (i - 1) * wi + wi) by (nonlinear_arith);
        lemma_fundamental_div_mod_converse(n + wi - 1, wi, i, rem);
        assert(r.deep_view() =~= wrapped(cell@, w as nat));
    }
    r
}

/// One column of a printed line: `x` right-aligned in `w` places between two spaces.
fn framed_text(x: &str, w: usize) -> (r: String)
    ensures
        r@ == framed(x@, w as nat),
{
    let len = x.unicode_len();
    let mut r = String::new();
    push_char(&mut r, ' ');
    if len < w {
        push_repeated(&mut r, ' ', w - len);
    }
    r.append(x);
    push_char(&mut r, ' ');
    assert(r@ =~= framed(x@, w as nat));
    r
}

/// Joins rows of wrapped cells into printed lines: the row is as tall as its
/// tallest cell, shorter cells continue with empty lines, and each column is
/// right-aligned in its width.
pub fn concat_cells_in_row(cells_in_row: Vec<Vec<String>>, transformed_maxwidth: &Vec<usize>) -> (r: String)
    requires
        cells_in_row@.len() == transformed_maxwidth@.len(),
    ensures
        r@ == join(row_lines(cells_in_row.deep_view(), transformed_maxwidth@), seq!['\n']),
{
    let ghost cells = cells_in_row.deep_view();
    let ghost ws = transformed_maxwidth@;
    let n = cells_in_row.len();
    let mut maxheight: usize = 0;
    let mut c: usize = 0;
    assert(cells.take(0) =~= Seq::<Seq<Seq<char>>>::empty());
    while c < n
        invariant
            c <= n == cells.len(),
            cells == cells_in_row.deep_view(),
            maxheight == row_height(cells.take(c as int)),
        decreases n - c,
    {
        assert(cells.take(c + 1).drop_last() =~= cells.take(c as int));
        assert(cells[c as int].len() == cells_in_row@[c as int]@.len());
        if cells_in_row[c].len() > maxheight {
            maxheight = cells_in_row[c].len();
        }
        c = c + 1;
    }
    assert(cells.take(n as int) =~= cells);
    proof {
        reveal_strlit("|");
        reveal_strlit("\n");
        reveal_strlit("");
        assert("|"@ =~= seq!['|']);
        assert("\n"@ =~= seq!['\n']);
    }
    let ghost want = row_lines(cells, ws);
    let mut lines: Vec<String> = Vec::new();
    let mut h: usize = 0;
    while h < maxheight
        invariant
            h <= maxheight == want.len(),
            n == cells.len() == ws.len(),
            cells == cells_in_row.deep_view(),
            ws == transformed_maxwidth@,
            want == row_lines(cells, ws),
            "|"@ == seq!['|'],
            ""@ == Seq::<char>::empty(),
            lines.deep_view() =~= want.take(h as int),
        decreases maxheight - h,
    {
        let ghost line_parts = Seq::new(n as nat, |c: int| framed(line_at(cells[c], h as int), ws[c] as nat));
        let mut parts: Vec<String> = Vec::new();
        let mut c: usize = 0;
        while c < n
            invariant
                c <= n == cells.len() == ws.len(),
                cells == cells_in_row.deep_view(),
                ws == transformed_maxwidth@,
                ""@ == Seq::<char>::empty(),
                line_parts == Seq::new(n as nat, |c: int| framed(line_at(cells[c], h as int), ws[c] as nat)),
                parts.deep_view() =~= line_parts.take(c as int),
            decreases n - c,
        {
            let cell = &cells_in_row[c];
            assert(cells[c as int] == cell.deep_view());
            let part = if h < cell.len() {
                assert(cell.deep_view()[h as int] == cell@[h as int]@);
                framed_text(cell[h].as_str(), transformed_maxwidth[c])
            } else {
                framed_text("", transformed_maxwidth[c])
            };
            let ghost prev = parts;
            parts.push(part);
            assert(parts.deep_view() =~= prev.deep_view().push(part@));
            c = c + 1;
        }
        assert(line_parts.take(n as int) =~= line_parts);
        let mid = join_strings(&parts, "|");
        let mut line = String::new();
        push_char(&mut line, '|');
        line.append(mid.as_str());
        push_char(&mut line, '|');
        assert(line@ =~= want[h as int]);
        let ghost prev = lines;
        lines.push(line);
        assert(lines.deep_view() =~= prev.deep_view().push(line@));
        h = h + 1;
    }
    assert(want.take(maxheight as int) =~= want);
    join_strings(&lines, "\n")
}

/// Draws one table row: every cell wrapped at its column's width, the lines
/// joined by newlines.
pub fn draw_row(row: &Vec<String>, transformed_maxwidth: &Vec<usize>) -> (r: String)
    requires
        row@.len() == transformed_maxwidth@.len(),
        forall|i: int| 0 <= i < transformed_maxwidth@.len() ==> #[trigger] transformed_maxwidth@[i] >= 1,
    ensures
        r@ == row_text(row.deep_view(), transformed_maxwidth@),
{
    let ghost want = wrapped_row(row.deep_view(), transformed_maxwidth@);
    let mut result: Vec<Vec<String>> = Vec::new();
    let mut i: usize = 0;
    while i < row.len()
        invariant
            i <= row@.len() == transformed_maxwidth@.len(),
            forall|i: int| 0 <= i < transformed_maxwidth@.len() ==> #[trigger] transformed_maxwidth@[i] >= 1,
            want == wrapped_row(row.deep_view(), transformed_maxwidth@),
            result.deep_view() =~= want.take(i as int),
        decreases row@.len() - i,
    {
        let cell = draw_cell(row[i].clone(), transformed_maxwidth[i]);
        let ghost prev = result;
        result.push(cell);
        assert(result.deep_view() =~= prev.deep_view().push(cell.deep_view()));
        i = i + 1;
    }
    assert(want.take(row@.len() as int) =~= want);
    concat_cells_in_row(result, transformed_maxwidth)
}

/// Draws the whole table: a light top rule, then each row followed by a rule,
/// heavy under the header row and light under the others, all joined by newlines.
pub fn draw(table: Vec<Vec<String>>, transformed_maxwidth: &Vec<usize>) -> (r: String)
    requires
        forall|i: int| 0 <= i < table@.len() ==> #[trigger] table@[i]@.len() == transformed_maxwidth@.len(),
        forall|i: int| 0 <= i < transformed_maxwidth@.len() ==> #[trigger] transformed_maxwidth@[i] >= 1,
    ensures
        r@ == table_text(table.deep_view(), transformed_maxwidth@),
{
    let ghost rows = table.deep_view();
    let ghost ws = transformed_maxwidth@;
    let mut result_row: Vec<String> = Vec::new();
    result_row.push(hline(transformed_maxwidth, 1, '-'));
    assert(rows.take(0) =~= Seq::<Seq<Seq<char>>>::empty());
    assert(result_row.deep_view() =~= seq![rule_line(ws, 1, '-')]);
    let mut first = true;
    let mut i: usize = 0;
    while i < table.len()
        invariant
            i <= table@.len() == rows.len(),
            rows == table.deep_view(),
            ws == transformed_maxwidth@,
            forall|i: int| 0 <= i < table@.len() ==> #[trigger] table@[i]@.len() == transformed_maxwidth@.len(),
            forall|i: int| 0 <= i < transformed_maxwidth@.len() ==> #[trigger] transformed_maxwidth@[i] >= 1,
            first == (i == 0),
            result_row.deep_view() =~= table_pieces(rows.take(i as int), ws),
        decreases table@.len() - i,
    {
        assert(rows.take(i + 1).drop_last() =~= rows.take(i as int));
        assert(rows[i as int] == table@[i as int].deep_view());
        let text = draw_row(&table[i], transformed_maxwidth);
        let delim = if first {
            first = false;
            '='
        } else {
            '-'
        };
        let rule = hline(transformed_maxwidth, 1, delim);
        let ghost prev = result_row;
        result_row.push(text);
        result_row.push(rule);
        assert(result_row.deep_view() =~= prev.deep_view() + seq![text@, rule@]);
        i = i + 1;
    }
    assert(rows.take(table@.len() as int) =~= rows);
    proof {
        reveal_strlit("\n");
        assert("\n"@ =~= seq!['\n']);
    }
    join_strings(&result_row, "\n")
}

/// Wrapping a text of `L` characters at width `w` gives one empty line when `L`
/// is 0, and otherwise the rounded-up quotient of `L` by `w` lines (just enough
/// to hold `L` characters), each of `w` characters but the last, which holds the
/// remainder of `L` by `w`, or `w` where that remainder is 0.
pub proof fn lemma_wrapped_lines(s: Seq<char>, w: nat)
    requires
        w >= 1,
    ensures
        s.len() == 0 ==> wrapped(s, w) == seq![Seq::<char>::empty()],
        s.len() > 0 ==> wrapped(s, w).len() == (s.len() + w - 1) / (w as int),
        s.len() > 0 ==> (wrapped(s, w).len() - 1) * w < s.len() <= wrapped(s, w).len() * w,
        s.len() > 0 ==> forall|i: int| 0 <= i < wrapped(s, w).len() - 1 ==> #[trigger] wrapped(s, w)[i].len() == w,
        s.len() > 0 ==> wrapped(s, w).last().len() == if s.len() % w == 0 { w } else { s.len() % w },
{
    if s.len() > 0 {
        let l = s.len() as int;
        let wi = w as int;
        let lines = wrapped(s, w);
        let n = lines.len() as int;
        lemma_fundamental_div_mod(l + wi - 1, wi);
        let rem = (l + wi - 1) % wi;
        assert(l + wi - 1 == wi * n + rem);
        assert(n * wi == wi * n) by (nonlinear_arith);
        assert((n - 1) * wi == n * wi - wi) by (nonlinear_arith);
        assert forall|i: int| 0 <= i < n - 1 implies #[trigger] lines[i].len() == w by {
            assert((i + 1) * wi <= (n - 1) * wi) by (nonlinear_arith)
                requires
                    i + 1 <= n - 1,
                    wi >= 1,
            ;
            assert((i + 1) * wi == i * wi + wi) by (nonlinear_arith);
            assert(i * wi >= 0) by (nonlinear_arith)
                requires
                    i >= 0,
                    wi >= 1,
            ;
        }
        lemma_fundamental_div_mod(l, wi);
        let q = l / wi;
        let m = l % wi;
        assert(l == q * wi + m) by (nonlinear_arith)
            requires
                l == wi * q + m,
        ;
        if m == 0 {
            lemma_fundamental_div_mod_converse(l + wi - 1, wi, q, wi - 1);
            assert(q >= 1) by (nonlinear_arith)
                requires
                    l == q * wi,
                    l > 0,
                    wi >= 1,
            ;
        } else {
            assert(l + wi - 1 == (q + 1) * wi + (m - 1)) by (nonlinear_arith)
                requires
                    l == q * wi + m,
            ;
            lemma_fundamental_div_mod_converse(l + wi - 1, wi, q + 1, m - 1);
        }
        assert(n >= 1);
        assert(lines.last() == wrap_piece(s, w, n - 1));
        assert((n - 1) * wi >= 0) by (nonlinear_arith)
            requires
                n >= 1,
                wi >= 1,
        ;
    }
}

/// A row is as tall as its tallest wrapped cell: no cell has more lines, some
/// cell has that many (where the row has cells), the row prints that many lines,
/// and a shorter cell shows empty lines below its last one.
pub proof fn lemma_row_height(cells: Seq<Seq<Seq<char>>>, ws: Seq<usize>)
    ensures
        forall|c: int| 0 <= c < cells.len() ==> #[trigger] cells[c].len() <= row_height(cells),
        cells.len() > 0 ==> exists|c: int| 0 <= c < cells.len() && #[trigger] cells[c].len() == row_height(cells),
        row_lines(cells, ws).len() == row_height(cells),
        forall|c: int, h: int|
            0 <= c < cells.len() && cells[c].len() <= h ==> #[trigger] line_at(cells[c], h) == Seq::<char>::empty(),
    decreases cells.len(),
{
    if cells.len() > 0 {
        let rest = cells.drop_last();
        lemma_row_height(rest, ws);
        assert forall|c: int| 0 <= c < cells.len() implies #[trigger] cells[c].len() <= row_height(cells) by {
            if c < rest.len() {
                assert(rest[c] == cells[c]);
            }
        }
        if rest.len() > 0 && row_height(rest) >= cells.last().len() {
            let c0 = choose|c: int| 0 <= c < rest.len() && #[trigger] rest[c].len() == row_height(rest);
            assert(cells[c0] == rest[c0]);
        } else {
            assert(cells[cells.len() - 1].len() == row_height(cells));
        }
    }
}

} // verus!
