//! Placement of the newest wrapped rows, the input row and the cursor on a
//! terminal of a given size.

use crate::editor::Editor;
use crate::wrap::{chunk_views, wrap_spec, ChunkModel};
use vstd::prelude::*;

verus! {

/// How many wrapped rows are drawn above the input row.
pub const VISIBLE_ROWS: usize = 5;

/// One wrapped row and the screen row on which it is drawn.
pub struct Placement {
    pub row: u16,
    pub text: Vec<char>,
}

/// Where everything is drawn.
pub struct Layout {
    /// The column at which every row of text begins.
    pub left: u16,
    /// The screen row of the input line.
    pub anchor: u16,
    /// The wrapped rows that are drawn, the newest first.
    pub placements: Vec<Placement>,
    /// The column of the cursor; its row is `anchor`.
    pub cursor_column: u16,
    /// The row of the first footer line.
    pub hint_row: u16,
    /// The row of the second footer line.
    pub exit_row: u16,
}

/// The row of the input line: one above the middle of the screen.
pub open spec fn anchor_row(height: int) -> int {
    height / 2 - 1
}

/// The column that centres a row of `line_width` characters.
pub open spec fn left_column(term_width: int, line_width: int) -> int {
    (term_width - line_width) / 2
}

/// How many of `n` wrapped rows are drawn.
pub open spec fn visible_count(n: int) -> int {
    if n < VISIBLE_ROWS as int {
        n
    } else {
        VISIBLE_ROWS as int
    }
}

/// How far the `i`-th newest row stands above what was drawn before it: one
/// row, and one more of spacing where a paragraph ends between the two. Such an
/// end is a chunk that closes its line, or, between the newest row and the
/// input line, a text that ends in a line feed.
pub open spec fn rise(chunks: Seq<ChunkModel>, ends_with_break: bool, i: int) -> int {
    if i == 0 {
        if ends_with_break {
            2
        } else {
            1
        }
    } else if chunks[chunks.len() - 1 - i].is_last {
        2
    } else {
        1
    }
}

/// The screen row of the `i`-th newest wrapped row, counted upward from the
/// anchor.
pub open spec fn row_of(chunks: Seq<ChunkModel>, ends_with_break: bool, anchor: int, i: int) -> int
    decreases i,
{
    if i <= 0 {
        anchor - rise(chunks, ends_with_break, 0)
    } else {
        row_of(chunks, ends_with_break, anchor, i - 1) - rise(chunks, ends_with_break, i)
    }
}

/// Whether the text ends in a line feed.
pub open spec fn ends_in_break(text: Seq<char>) -> bool {
    text.len() > 0 && text.last() == '\n'
}

/// Whether a terminal has room for the buffer: the rows of text fit between
/// its sides, the footer has its rows, and the topmost row that is drawn is on
/// the screen.
pub open spec fn fits(text: Seq<char>, line_width: int, term_width: int, term_height: int) -> bool {
    let chunks = wrap_spec(text, line_width);
    let shown = visible_count(chunks.len() as int);
    &&& line_width <= term_width
    &&& term_height >= 4
    &&& shown > 0 ==> row_of(chunks, ends_in_break(text), anchor_row(term_height), shown - 1) >= 0
}

/// Rows are drawn upward: a later one stands above an earlier one.
pub proof fn lemma_rows_ascend(
    chunks: Seq<ChunkModel>,
    ends_with_break: bool,
    anchor: int,
    i: int,
    j: int,
)
    requires
        0 <= i <= j,
    ensures
        row_of(chunks, ends_with_break, anchor, j) <= row_of(chunks, ends_with_break, anchor, i) - (
        j - i),
        row_of(chunks, ends_with_break, anchor, i) < anchor,
    decreases j,
{
    if i < j {
        lemma_rows_ascend(chunks, ends_with_break, anchor, i, j - 1);
    } else if i > 0 {
        lemma_rows_ascend(chunks, ends_with_break, anchor, i - 1, i - 1);
    }
}

/// Lays the buffer out on a terminal of the given size. The input line stands
/// on the anchor row, and the newest wrapped rows, five at most, stand above
/// it, each one row above the one before, with a blank row wherever a
/// paragraph ends. The cursor follows the input. A terminal without room for
/// this gives no layout.
pub fn layout(editor: &Editor, term_width: u16, term_height: u16) -> (out: Option<Layout>)
    requires
        editor@.wf(),
    ensures
        out is Some <==> fits(
            editor@.committed,
            editor@.width,
            term_width as int,
            term_height as int,
        ),
        out matches Some(l) ==> {
            let chunks = wrap_spec(editor@.committed, editor@.width);
            let brk = ends_in_break(editor@.committed);
            &&& l.anchor == anchor_row(term_height as int)
            &&& l.left == left_column(term_width as int, editor@.width)
            &&& l.cursor_column == l.left + editor@.pending.len()
            &&& l.hint_row == term_height - 4
            &&& l.exit_row == term_height - 3
            &&& l.placements@.len() == visible_count(chunks.len() as int)
            &&& forall|i: int|
                0 <= i < l.placements@.len() ==> {
                    &&& (#[trigger] l.placements@[i]).row == row_of(
                        chunks,
                        brk,
                        l.anchor as int,
                        i,
                    )
                    &&& l.placements@[i].text@ == chunks[chunks.len() - 1 - i].text
                }
        },
{
    if term_width < editor.line_width || term_height < 4 {
        return None;
    }
    let left: u16 = (term_width - editor.line_width) / 2;
    let anchor: u16 = term_height / 2 - 1;
    let ends_with_break = editor.newline();
    let mut lines = editor.lines();
    let ghost all = lines@;
    let ghost chunks = chunk_views(all);
    let n: usize = lines.len();
    let mut placements: Vec<Placement> = Vec::new();
    let mut y: u16 = anchor;
    let mut i: usize = 0;
    while i < VISIBLE_ROWS && lines.len() > 0
        invariant
            n == all.len(),
            i <= VISIBLE_ROWS,
            i <= n,
            lines@ == all.take(n - i),
            placements@.len() == i,
            chunks == chunk_views(all),
            chunks == wrap_spec(editor@.committed, editor@.width),
            ends_with_break == ends_in_break(editor@.committed),
            anchor == anchor_row(term_height as int),
            y <= anchor,
            i == 0 ==> y == anchor,
            i > 0 ==> y == row_of(chunks, ends_with_break, anchor as int, i - 1),
            forall|j: int|
                0 <= j < i ==> {
                    &&& (#[trigger] placements@[j]).row == row_of(
                        chunks,
                        ends_with_break,
                        anchor as int,
                        j,
                    )
                    &&& placements@[j].text@ == chunks[n - 1 - j].text
                },
        decreases VISIBLE_ROWS - i,
    {
        let line = lines.pop().unwrap();
        assert(line@ == chunks[n - 1 - i]);
        let step: u16 = if i == 0 {
            if ends_with_break {
                2
            } else {
                1
            }
        } else if line.is_last {
            2
        } else {
            1
        };
        if y < step {
            proof {
                assert(step == rise(chunks, ends_with_break, i as int));
                assert(row_of(chunks, ends_with_break, anchor as int, i as int) == y - step);
                assert(lines@.len() == n - i - 1);
                lemma_rows_ascend(
                    chunks,
                    ends_with_break,
                    anchor as int,
                    i as int,
                    visible_count(n as int) - 1,
                );
                assert(chunks.len() == n);
            }
            return None;
        }
        y = y - step;
        placements.push(Placement { row: y, text: line.text });
        i += 1;
    }
    let cursor_column: u16 = left + (editor.input.len() as u16);
    Some(
        Layout {
            left,
            anchor,
            placements,
            cursor_column,
            hint_row: term_height - 4,
            exit_row: term_height - 3,
        },
    )
}

} // verus!
