//! The whole rendering of a table: checks on the inputs, natural or given widths,
//! folding at a number of data rows, and drawing.
use vstd::prelude::*;
use crate::layout::{
    block_count, column_width, folded, is_uniform, maxcols, repeated_widths, transform,
    transform_maxwidth, Table,
};
use crate::render::{draw, table_text};

verus! {

/// Why a table cannot be rendered.
#[derive(Clone, Copy, Debug, PartialEq, Eq, Structural)]
pub enum RenderError {
    /// Not every row has as many cells as the header.
    RaggedRows,
    /// The given width vector does not have one width per column.
    WidthCountMismatch,
    /// The number of data rows per block is zero.
    ZeroLineToWrap,
    /// Some column has width zero, so its cells cannot be wrapped.
    ZeroWidth,
}

/// The widths that columns are drawn at: the given ones, or else the natural widths.
pub open spec fn chosen_widths(t: Table, maxwidth: Option<Seq<usize>>) -> Seq<usize> {
    match maxwidth {
        Some(ws) => ws,
        None => Seq::new(t[0].len(), |i: int| column_width(t, i) as usize),
    }
}

/// What rendering `t` at `k` data rows per block gives: the empty text for no
/// rows, an error for a bad input, else the folded table drawn at the chosen
/// widths laid out once per block.
pub open spec fn render_outcome(t: Table, k: nat, maxwidth: Option<Seq<usize>>) -> Result<Seq<char>, RenderError> {
    if t.len() == 0 {
        Ok(Seq::empty())
    } else if !is_uniform(t, t[0].len()) {
        Err(RenderError::RaggedRows)
    } else {
        let ws = chosen_widths(t, maxwidth);
        if ws.len() != t[0].len() {
            Err(RenderError::WidthCountMismatch)
        } else if k == 0 {
            Err(RenderError::ZeroLineToWrap)
        } else if exists|i: int| 0 <= i < ws.len() && #[trigger] ws[i] == 0 {
            Err(RenderError::ZeroWidth)
        } else {
            Ok(table_text(folded(t, k), repeated_widths(ws, block_count((t.len() - 1) as nat, k))))
        }
    }
}

/// Tells whether every row has as many cells as the first.
pub fn has_uniform_columns(cells: &Vec<Vec<String>>) -> (r: bool)
    requires
        cells@.len() >= 1,
    ensures
        r == is_uniform(cells.deep_view(), cells@[0]@.len()),
{
    let ncols = cells[0].len();
    let mut i: usize = 0;
    while i < cells.len()
        invariant
            i <= cells@.len(),
            ncols == cells@[0]@.len(),
            forall|r: int| 0 <= r < i ==> #[trigger] cells.deep_view()[r].len() == ncols,
        decreases cells@.len() - i,
    {
        assert(cells.deep_view()[i as int].len() == cells@[i as int]@.len());
        if cells[i].len() != ncols {
            return false;
        }
        i = i + 1;
    }
    true
}

/// Tells whether some width is zero.
fn has_zero_width(ws: &Vec<usize>) -> (r: bool)
    ensures
        r == exists|i: int| 0 <= i < ws@.len() && #[trigger] ws@[i] == 0,
{
    let mut i: usize = 0;
    while i < ws.len()
        invariant
            i <= ws@.len(),
            forall|j: int| 0 <= j < i ==> #[trigger] ws@[j] != 0,
        decreases ws@.len() - i,
    {
        if ws[i] == 0 {
            return true;
        }
        i = i + 1;
    }
    false
}

/// Renders a table as boxed text with at most `line_to_wrap` data rows per block,
/// at the widths given in `maxwidth` or else at the natural widths. No rows give
/// the empty text.
pub fn render(cells: &Vec<Vec<String>>, line_to_wrap: usize, maxwidth: Option<Vec<usize>>) -> (r: Result<String, RenderError>)
    ensures
        match r {
            Ok(s) => render_outcome(cells.deep_view(), line_to_wrap as nat, maxwidth.deep_view()) == Ok::<Seq<char>, RenderError>(s@),
            Err(e) => render_outcome(cells.deep_view(), line_to_wrap as nat, maxwidth.deep_view()) == Err::<Seq<char>, RenderError>(e),
        },
{
    let ghost t = cells.deep_view();
    let ghost given = maxwidth.deep_view();
    if cells.len() == 0 {
        return Ok(String::new());
    }
    if !has_uniform_columns(cells) {
        return Err(RenderError::RaggedRows);
    }
    let ncols = cells[0].len();
    let widths = match maxwidth {
        Some(m) => m,
        None => maxcols(cells),
    };
    assert(widths@ =~= chosen_widths(t, given));
    if widths.len() != ncols {
        return Err(RenderError::WidthCountMismatch);
    }
    if line_to_wrap == 0 {
        return Err(RenderError::ZeroLineToWrap);
    }
    if has_zero_width(&widths) {
        return Err(RenderError::ZeroWidth);
    }
    let (blocks, table) = transform(cells, line_to_wrap);
    let expanded = transform_maxwidth(widths, blocks);
    proof {
        let ws = chosen_widths(t, given);
        let f = folded(t, line_to_wrap as nat);
        assert forall|i: int| 0 <= i < expanded@.len() implies #[trigger] expanded@[i] >= 1 by {
            assert(ws[i % (ws.len() as int)] != 0);
        }
        assert forall|i: int| 0 <= i < table@.len() implies #[trigger] table@[i]@.len() == expanded@.len() by {
            assert(table.deep_view()[i].len() == table@[i]@.len());
            assert(f[i].len() == ncols * blocks);
        }
    }
    Ok(draw(table, &expanded))
}

/// Rendering depends on the table, the block height and the widths alone: two
/// renderings of the same inputs have the same outcome, to the character.
pub proof fn lemma_render_deterministic(
    t: Table,
    k: nat,
    maxwidth: Option<Seq<usize>>,
    first: Result<Seq<char>, RenderError>,
    second: Result<Seq<char>, RenderError>,
)
    requires
        first == render_outcome(t, k, maxwidth),
        second == render_outcome(t, k, maxwidth),
    ensures
        first == second,
{
}

} // verus!
