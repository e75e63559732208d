//! Column widths and the folding of a tall table into side-by-side blocks.
use vstd::prelude::*;
use vstd::arithmetic::div_mod::{lemma_fundamental_div_mod, lemma_fundamental_div_mod_converse};

verus! {

/// A table as rows of cells, each cell a sequence of characters; row 0 is the header.
pub type Table = Seq<Seq<Seq<char>>>;

/// Every row of `t` has exactly `c` cells.
pub open spec fn is_uniform(t: Table, c: nat) -> bool {
    forall|r: int| 0 <= r < t.len() ==> #[trigger] t[r].len() == c
}

/// The longest cell, in characters, of column `i` over all rows of `t` (0 for no rows).
pub open spec fn column_width(t: Table, i: int) -> nat
    decreases t.len(),
{
    if t.len() == 0 {
        0
    } else {
        let rest = column_width(t.drop_last(), i);
        let here = t.last()[i].len();
        if rest >= here { rest } else { here }
    }
}

/// The natural width of every column: how many characters its longest cell holds.
pub open spec fn natural_widths(t: Table) -> Seq<nat> {
    Seq::new(t[0].len(), |i: int| column_width(t, i))
}

/// How many blocks of `k` data rows are needed to hold `data_len` rows: the
/// quotient rounded up.
pub open spec fn block_count(data_len: nat, k: nat) -> nat {
    ((data_len + k - 1) as nat) / k
}

/// `ws` laid side by side `blocks` times.
pub open spec fn repeated_widths(ws: Seq<usize>, blocks: nat) -> Seq<usize> {
    Seq::new(ws.len() * blocks, |j: int| ws[j % (ws.len() as int)])
}

/// The cell at row `r` (from 1) and column `j` of the folded table: column `j % c`
/// of source row `k * (j / c) + r`, or empty where that row is past the end.
pub open spec fn moved_cell(t: Table, k: nat, r: int, j: int) -> Seq<char> {
    let c = t[0].len() as int;
    let src = k * (j / c) + r;
    if src < t.len() {
        t[src][j % c]
    } else {
        Seq::empty()
    }
}

/// `t` folded at `k` data rows: `1 + k` rows, each made of one block of `c` cells
/// for every block; the header is repeated in row 0 and the data rows run down
/// the first block, then the next.
pub open spec fn folded(t: Table, k: nat) -> Table {
    let c = t[0].len();
    let b = block_count((t.len() - 1) as nat, k);
    Seq::new(
        k + 1,
        |r: int|
            Seq::new(
                c * b,
                |j: int|
                    if r == 0 {
                        t[0][j % (c as int)]
                    } else {
                        moved_cell(t, k, r, j)
                    },
            ),
    )
}

/// Splits an index of a row made of blocks of `c` cells into its block and its column.
proof fn lemma_block_index(i: int, col: int, c: int)
    requires
        0 <= col < c,
        0 <= i,
    ensures
        (i * c + col) / c == i,
        (i * c + col) % c == col,
{
    lemma_fundamental_div_mod_converse(i * c + col, c, i, col);
}

/// The rounded-up quotient, as computed without overflow.
proof fn lemma_block_count(d: nat, k: nat)
    requires
        k >= 1,
    ensures
        block_count(d, k) == d / k + if d % k == 0 { 0int } else { 1int },
{
    let q = (d / k) as int;
    let rm = (d % k) as int;
    lemma_fundamental_div_mod(d as int, k as int);
    assert(d == q * k + rm) by (nonlinear_arith)
        requires
            d == k * q + rm,
    ;
    if rm == 0 {
        lemma_fundamental_div_mod_converse(d + k - 1, k as int, q, k - 1);
    } else {
        assert(d + k - 1 == (q + 1) * k + (rm - 1)) by (nonlinear_arith)
            requires
                d == q * k + rm,
        ;
        lemma_fundamental_div_mod_converse(d + k - 1, k as int, q + 1, rm - 1);
    }
}

/// Every block but those past the data starts on a data row.
proof fn lemma_block_start(d: nat, k: nat, i: nat)
    requires
        k >= 1,
        i < block_count(d, k),
    ensures
        k * i < d,
{
    let x = (d + k - 1) as int;
    let b = block_count(d, k) as int;
    lemma_fundamental_div_mod(x, k as int);
    assert(k * b <= x);
    assert(k * i <= k * (b - 1)) by (nonlinear_arith)
        requires
            i <= b - 1,
            k >= 1,
    ;
    assert(k * (b - 1) == k * b - k) by (nonlinear_arith);
}

/// Appends a copy of each cell of `src` to `dst`.
fn append_cells(dst: &mut Vec<String>, src: &Vec<String>)
    ensures
        final(dst).deep_view() == old(dst).deep_view() + src.deep_view(),
{
    let ghost start = dst.deep_view();
    let mut i: usize = 0;
    while i < src.len()
        invariant
            i <= src@.len(),
            dst.deep_view() == start + src.deep_view().take(i as int),
        decreases src@.len() - i,
    {
        let cell = src[i].clone();
        let ghost prev = *dst;
        dst.push(cell);
        assert(dst@ == prev@.push(cell));
        assert(dst.deep_view() =~= prev.deep_view().push(src.deep_view()[i as int]));
        i = i + 1;
        assert(dst.deep_view() =~= start + src.deep_view().take(i as int));
    }
    assert(src.deep_view().take(src@.len() as int) =~= src.deep_view());
}

/// Appends `n` empty cells to `dst`.
fn append_empty_cells(dst: &mut Vec<String>, n: usize)
    ensures
        final(dst).deep_view() == old(dst).deep_view() + Seq::new(n as nat, |_j: int| Seq::<char>::empty()),
{
    let ghost start = dst.deep_view();
    let mut i: usize = 0;
    while i < n
        invariant
            i <= n,
            dst.deep_view() == start + Seq::new(i as nat, |_j: int| Seq::<char>::empty()),
        decreases n - i,
    {
        let ghost prev = *dst;
        dst.push(String::new());
        assert(dst.deep_view() =~= prev.deep_view().push(Seq::<char>::empty()));
        i = i + 1;
        assert(dst.deep_view() =~= start + Seq::new(i as nat, |_j: int| Seq::<char>::empty()));
    }
}

/// Computes the natural width of each column, counted in characters.
pub fn maxcols(cells: &Vec<Vec<String>>) -> (res: Vec<usize>)
    requires
        cells@.len() >= 1,
        is_uniform(cells.deep_view(), cells@[0]@.len()),
    ensures
        res@.len() == cells@[0]@.len(),
        forall|i: int| 0 <= i < res@.len() ==> res@[i] == column_width(cells.deep_view(), i),
{
    let ghost t = cells.deep_view();
    let ncols = cells[0].len();
    let mut res: Vec<usize> = Vec::new();
    let mut i: usize = 0;
    while i < ncols
        invariant
            i <= ncols,
            res@.len() == i,
            forall|j: int| 0 <= j < i ==> res@[j] == 0,
        decreases ncols - i,
    {
        res.push(0);
        i = i + 1;
    }
    assert(t.take(0) =~= Seq::<Seq<Seq<char>>>::empty());
    let mut r: usize = 0;
    while r < cells.len()
        invariant
            r <= cells@.len(),
            t == cells.deep_view(),
            t.len() == cells@.len(),
            ncols == t[0].len(),
            is_uniform(t, ncols as nat),
            res@.len() == ncols,
            forall|j: int| 0 <= j < ncols ==> res@[j] == column_width(t.take(r as int), j),
        decreases cells@.len() - r,
    {
        let row = &cells[r];
        let ghost done = t.take(r as int);
        let ghost next = t.take(r + 1);
        assert(next.drop_last() =~= done);
        assert(next.last() == t[r as int]);
        assert(t[r as int] == row.deep_view());
        assert(t[r as int].len() == ncols);
        let mut i: usize = 0;
        while i < ncols
            invariant
                i <= ncols,
                row == cells@[r as int],
                row@.len() == ncols,
                t == cells.deep_view(),
                next.drop_last() == done,
                next.last() == t[r as int],
                next.len() > 0,
                0 <= r < t.len(),
                t[r as int] == row.deep_view(),
                res@.len() == ncols,
                forall|j: int| 0 <= j < i ==> res@[j] == column_width(next, j),
                forall|j: int| i <= j < ncols ==> res@[j] == column_width(done, j),
            decreases ncols - i,
        {
            let len = row[i].as_str().unicode_len();
            assert(row.deep_view()[i as int] == row@[i as int]@);
            let ghost prev = res@[i as int];
            assert(prev == column_width(done, i as int));
            assert(column_width(next, i as int) == if prev >= len as nat { prev as nat } else { len as nat });
            if len > res[i] {
                res.set(i, len);
            }
            assert(res@[i as int] == column_width(next, i as int));
            i = i + 1;
        }
        r = r + 1;
    }
    assert(t.take(cells@.len() as int) =~= t);
    res
}

/// Folds the data rows of `cells` into side-by-side blocks of `line_to_wrap` rows
/// each, under a header repeated once per block; returns the block count and the
/// folded table. Cells past the last data row are empty.
pub fn transform(cells: &Vec<Vec<String>>, line_to_wrap: usize) -> (res: (usize, Vec<Vec<String>>))
    requires
        cells@.len() >= 1,
        line_to_wrap >= 1,
        is_uniform(cells.deep_view(), cells@[0]@.len()),
    ensures
        res.0 == block_count((cells@.len() - 1) as nat, line_to_wrap as nat),
        res.1.deep_view() == folded(cells.deep_view(), line_to_wrap as nat),
{
    let ghost t = cells.deep_view();
    let ghost k = line_to_wrap as nat;
    let head = &cells[0];
    let orig_len = cells.len();
    let data_len = orig_len - 1;
    let ncols = head.len();
    let blocks = data_len / line_to_wrap + if data_len % line_to_wrap == 0 { 0 } else { 1 };
    proof {
        lemma_block_count(data_len as nat, k);
    }
    let ghost c = ncols as int;
    let ghost want = folded(t, k);
    assert(t[0] == head.deep_view());

    let mut top: Vec<String> = Vec::new();
    let mut i: usize = 0;
    while i < blocks
        invariant
            i <= blocks,
            t == cells.deep_view(),
            t[0] == head.deep_view(),
            c == ncols == head@.len(),
            top.deep_view() =~= Seq::new((c * i) as nat, |j: int| t[0][j % c]),
        decreases blocks - i,
    {
        let ghost before = top.deep_view();
        append_cells(&mut top, head);
        proof {
            assert(c * (i + 1) == c * i + c) by (nonlinear_arith);
            assert forall|j: int| c * i <= j < c * (i + 1) implies #[trigger] top.deep_view()[j] == t[0][j % c] by {
                assert(i * c == c * i) by (nonlinear_arith);
                lemma_block_index(i as int, j - c * i, c);
            }
        }
        i = i + 1;
    }
    let mut result: Vec<Vec<String>> = Vec::new();
    result.push(top);
    assert(result.deep_view()[0] =~= want[0]);

    let mut l: usize = 0;
    while l < line_to_wrap
        invariant
            l <= line_to_wrap,
            t == cells.deep_view(),
            t.len() == orig_len == data_len + 1,
            is_uniform(t, ncols as nat),
            c == ncols == t[0].len(),
            k == line_to_wrap,
            blocks == block_count(data_len as nat, k),
            want == folded(t, k),
            result@.len() == l + 1,
            forall|r: int| 0 <= r <= l ==> #[trigger] result.deep_view()[r] == want[r],
        decreases line_to_wrap - l,
    {
        let ghost row = l + 1;
        let mut to_push: Vec<String> = Vec::new();
        let mut i: usize = 0;
        while i < blocks
            invariant
                i <= blocks,
                l < line_to_wrap,
                row == l + 1,
                t == cells.deep_view(),
                t.len() == orig_len == data_len + 1,
                is_uniform(t, ncols as nat),
                c == ncols == t[0].len(),
                k == line_to_wrap,
                blocks == block_count(data_len as nat, k),
                to_push.deep_view() =~= Seq::new((c * i) as nat, |j: int| moved_cell(t, k, row, j)),
            decreases blocks - i,
        {
            proof {
                lemma_block_start(data_len as nat, k, i as nat);
            }
            let base = line_to_wrap * i;
            let ghost before = to_push.deep_view();
            let ghost src = k * i + row;
            if l < data_len - base {
                assert(t[src] == cells@[src].deep_view());
                append_cells(&mut to_push, &cells[base + l + 1]);
            } else {
                append_empty_cells(&mut to_push, ncols);
            }
            proof {
                assert(c * (i + 1) == c * i + c) by (nonlinear_arith);
                assert forall|j: int| c * i <= j < c * (i + 1) implies #[trigger] to_push.deep_view()[j] == moved_cell(t, k, row, j) by {
                    assert(i * c == c * i) by (nonlinear_arith);
                    lemma_block_index(i as int, j - c * i, c);
                }
            }
            i = i + 1;
        }
        let ghost prev = result.deep_view();
        result.push(to_push);
        proof {
            assert(result.deep_view()[row] =~= want[row]);
            assert forall|r: int| 0 <= r <= l + 1 implies #[trigger] result.deep_view()[r] == want[r] by {
                if r <= l {
                    assert(result.deep_view()[r] == prev[r]);
                }
            }
        }
        l = l + 1;
    }
    assert(result.deep_view() =~= want);
    (blocks, result)
}

/// Lays the width vector side by side `blocks` times, one copy for each block.
pub fn transform_maxwidth(maxwidth: Vec<usize>, blocks: usize) -> (r: Vec<usize>)
    ensures
        r@ == repeated_widths(maxwidth@, blocks as nat),
{
    let n = maxwidth.len();
    let mut r: Vec<usize> = Vec::new();
    let mut i: usize = 0;
    while i < blocks
        invariant
            i <= blocks,
            n == maxwidth@.len(),
            r@.len() == i * n,
            forall|j: int| 0 <= j < r@.len() ==> r@[j] == maxwidth@[j % (n as int)],
        decreases blocks - i,
    {
        let mut col: usize = 0;
        while col < n
            invariant
                i < blocks,
                col <= n,
                n == maxwidth@.len(),
                r@.len() == i * n + col,
                forall|j: int| 0 <= j < r@.len() ==> r@[j] == maxwidth@[j % (n as int)],
            decreases n - col,
        {
            proof {
                lemma_block_index(i as int, col as int, n as int);
            }
            r.push(maxwidth[col]);
            col = col + 1;
        }
        assert((i + 1) * n == i * n + n) by (nonlinear_arith);
        i = i + 1;
    }
    assert(r@ =~= repeated_widths(maxwidth@, blocks as nat)) by {
        assert(n * blocks == blocks * n) by (nonlinear_arith);
    }
    r
}

/// Folding a table of `1 + d` uniform rows of `c` cells at `k` data rows per
/// block uses the rounded-up quotient of `d` by `k` as block count (enough blocks
/// for all data rows, and none wholly past them), and gives `1 + k` rows of
/// `c` cells per block each.
pub proof fn lemma_folded_shape(t: Table, k: nat)
    requires
        t.len() >= 1,
        k >= 1,
        is_uniform(t, t[0].len()),
    ensures
        k * block_count((t.len() - 1) as nat, k) >= t.len() - 1,
        block_count((t.len() - 1) as nat, k) >= 1 ==> k * (block_count((t.len() - 1) as nat, k) - 1) < t.len() - 1,
        folded(t, k).len() == k + 1,
        forall|r: int| 0 <= r <= k ==> #[trigger] folded(t, k)[r].len() == t[0].len() * block_count((t.len() - 1) as nat, k),
{
    let d = (t.len() - 1) as nat;
    let b = block_count(d, k);
    lemma_fundamental_div_mod((d + k - 1) as int, k as int);
    assert(k * b >= d);
    if b >= 1 {
        lemma_block_start(d, k, (b - 1) as nat);
    }
}

/// A cell of the folded table whose source row lies past the last row of the
/// table is empty; any other cell is copied from its source row.
pub proof fn lemma_folded_padding(t: Table, k: nat, r: int, j: int)
    requires
        t.len() >= 1,
        k >= 1,
        is_uniform(t, t[0].len()),
        1 <= r <= k,
        0 <= j < t[0].len() * block_count((t.len() - 1) as nat, k),
    ensures
        k * (j / (t[0].len() as int)) + r >= t.len() ==> folded(t, k)[r][j] == Seq::<char>::empty(),
        k * (j / (t[0].len() as int)) + r < t.len() ==> folded(t, k)[r][j] == t[k * (j / (t[0].len() as int)) + r][j % (t[0].len() as int)],
{
}

/// Where the block height is at least the number of data rows and there is at
/// least one data row, one block is used: its rows are the table's own rows,
/// followed by rows of empty cells up to the block height. At a block height
/// equal to the number of data rows the folded table is the table itself.
pub proof fn lemma_single_block(t: Table, k: nat)
    requires
        t.len() >= 2,
        k >= t.len() - 1,
        is_uniform(t, t[0].len()),
    ensures
        block_count((t.len() - 1) as nat, k) == 1,
        forall|r: int| 0 <= r < t.len() ==> #[trigger] folded(t, k)[r] == t[r],
        forall|r: int| t.len() <= r <= k ==> #[trigger] folded(t, k)[r] == Seq::new(t[0].len(), |_j: int| Seq::<char>::empty()),
        k == t.len() - 1 ==> folded(t, k) == t,
{
    let d = (t.len() - 1) as nat;
    let c = t[0].len() as int;
    lemma_fundamental_div_mod_converse((d + k - 1) as int, k as int, 1, d - 1);
    assert(block_count(d, k) == 1);
    assert(c * 1 == c);
    assert(k * 0 == 0);
    let f = folded(t, k);
    assert forall|r: int| 0 <= r < t.len() implies #[trigger] f[r] == t[r] by {
        assert forall|j: int| 0 <= j < c implies f[r][j] == t[r][j] by {
            lemma_block_index(0, j, c);
        }
        assert(f[r] =~= t[r]);
    }
    assert forall|r: int| t.len() <= r <= k implies #[trigger] f[r] == Seq::new(c as nat, |_j: int| Seq::<char>::empty()) by {
        assert forall|j: int| 0 <= j < c implies f[r][j] == Seq::<char>::empty() by {
            lemma_block_index(0, j, c);
        }
        assert(f[r] =~= Seq::new(c as nat, |_j: int| Seq::<char>::empty()));
    }
    if k == t.len() - 1 {
        assert(f =~= t);
    }
}

} // verus!
