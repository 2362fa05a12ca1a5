use crate::photo::{overlap, PackError, Placement};
use vstd::prelude::*;

verus! {

/// The number of rows that the placements take up: the highest top.
pub open spec fn rows_needed(placements: Seq<Placement>) -> int
    decreases placements.len(),
{
    if placements.len() == 0 {
        0
    } else {
        let below = rows_needed(placements.drop_last());
        if placements.last().top() > below {
            placements.last().top()
        } else {
            below
        }
    }
}

/// Placement `k` cannot be drawn: it reaches beyond the canvas, or onto a
/// cell of a placement before it.
pub open spec fn clashes(placements: Seq<Placement>, width: int, k: int) -> bool {
    &&& 0 <= k < placements.len()
    &&& !placements[k].within(width) || exists|j: int|
        0 <= j < k && overlap(#[trigger] placements[j], placements[k])
}

/// Placement `k` cannot be drawn, and all before it can.
pub open spec fn is_first_clash(placements: Seq<Placement>, width: int, k: int) -> bool {
    &&& clashes(placements, width, k)
    &&& forall|j: int| 0 <= j < k ==> !clashes(placements, width, j)
}

/// None of the first `count` placements holds the cell in column `c` of row `r`.
pub open spec fn is_free(placements: Seq<Placement>, count: int, c: int, r: int) -> bool {
    forall|i: int| 0 <= i < count ==> !(#[trigger] placements[i]).covers(c, r)
}

/// The grid shows the placements on a canvas of the given width: it has the
/// rows that they take up, each as long as the canvas is wide, and each cell
/// names the placement that holds it, by its position in the sequence, or is
/// empty where none does.
pub open spec fn shows(grid: Seq<Vec<Option<usize>>>, placements: Seq<Placement>, width: int) -> bool {
    &&& grid.len() == rows_needed(placements)
    &&& forall|r: int| 0 <= r < grid.len() ==> (#[trigger] grid[r])@.len() == width
    &&& forall|r: int, c: int|
        0 <= r < grid.len() && 0 <= c < width ==> match #[trigger] grid[r]@[c] {
            Some(i) => i < placements.len() && placements[i as int].covers(c, r),
            None => is_free(placements, placements.len() as int, c, r),
        }
}

/// No placement has its top above the rows that the placements take up.
pub proof fn lemma_rows_hold(placements: Seq<Placement>, i: int)
    requires
        0 <= i < placements.len(),
    ensures
        placements[i].top() <= rows_needed(placements),
    decreases placements.len(),
{
    if i < placements.len() - 1 {
        lemma_rows_hold(placements.drop_last(), i);
    }
}

/// The rows that the first placements take up, and what one more adds.
pub proof fn lemma_rows_take(placements: Seq<Placement>, count: int)
    requires
        0 <= count < placements.len(),
    ensures
        0 <= rows_needed(placements.take(count)),
        rows_needed(placements.take(count + 1)) == if placements[count].top() > rows_needed(
            placements.take(count),
        ) {
            placements[count].top()
        } else {
            rows_needed(placements.take(count))
        },
    decreases count,
{
    assert(placements.take(count + 1).drop_last() =~= placements.take(count));
    if count > 0 {
        lemma_rows_take(placements, count - 1);
    }
}

/// A grid of empty cells.
fn blank(rows: usize, width: u32) -> (grid: Vec<Vec<Option<usize>>>)
    ensures
        grid@.len() == rows,
        forall|r: int| 0 <= r < rows ==> (#[trigger] grid@[r])@.len() == width,
        forall|r: int, c: int| 0 <= r < rows && 0 <= c < width ==> (#[trigger] grid@[r]@[c]) is None,
{
    let mut grid: Vec<Vec<Option<usize>>> = Vec::new();
    let mut r: usize = 0;
    while r < rows
        invariant
            0 <= r <= rows,
            grid@.len() == r,
            forall|q: int| 0 <= q < r ==> (#[trigger] grid@[q])@.len() == width,
            forall|q: int, c: int| 0 <= q < r && 0 <= c < width ==> (#[trigger] grid@[q]@[c]) is None,
        decreases rows - r,
    {
        let mut row: Vec<Option<usize>> = Vec::new();
        let mut c: u32 = 0;
        while c < width
            invariant
                0 <= c <= width,
                row@.len() == c,
                forall|d: int| 0 <= d < c ==> (#[trigger] row@[d]) is None,
            decreases width - c,
        {
            row.push(None);
            c += 1;
        }
        grid.push(row);
        r += 1;
    }
    grid
}

/// The cell in column `c` of row `r` belongs to the rectangle and has been
/// written when the rows before `row` are done, and of `row` the columns
/// before `column`.
pub open spec fn is_written(placed: Placement, row: int, column: int, c: int, r: int) -> bool {
    &&& placed.covers(c, r)
    &&& r < row || (r == row && c < column)
}

/// The state of a cell while placement `k` is drawn over the first `k`.
pub open spec fn cell_drawn(
    cell: Option<usize>,
    placements: Seq<Placement>,
    k: int,
    written: bool,
    c: int,
    r: int,
) -> bool {
    if written {
        cell == Some(k as usize) && is_free(placements, k, c, r)
    } else {
        match cell {
            Some(i) => i < k && placements[i as int].covers(c, r),
            None => is_free(placements, k, c, r),
        }
    }
}

/// Draws the placements into a grid with a row for each row that they take
/// up and a cell for each column of the canvas. A cell names the placement
/// that holds it, by its position in `placements`, and is empty where none
/// does. Where a placement reaches beyond the canvas, or onto a cell that an
/// earlier one holds, the error names the photo of the first such placement.
pub fn materialize(placements: &Vec<Placement>, width: u32) -> (result: Result<
    Vec<Vec<Option<usize>>>,
    PackError,
>)
    ensures
        match result {
            Ok(grid) => {
                &&& forall|k: int| !clashes(placements@, width as int, k)
                &&& shows(grid@, placements@, width as int)
            },
            Err(error) => exists|k: int|
                is_first_clash(placements@, width as int, k) && error
                    == (PackError::InternalInvariantViolation { id: placements@[k].photo_id }),
        },
{
    let n = placements.len();
    let mut rows: usize = 0;
    let mut sound: usize = 0;
    let mut all_within = true;
    while sound < n && all_within
        invariant
            0 <= sound <= n,
            n == placements@.len(),
            rows == rows_needed(placements@.take(sound as int)),
            forall|k: int| 0 <= k < sound ==> (#[trigger] placements@[k]).within(width as int),
            !all_within ==> sound < n && !placements@[sound as int].within(width as int),
        decreases n - sound + if all_within { 1int } else { 0int },
    {
        if placements[sound].fits(width) {
            proof {
                lemma_rows_take(placements@, sound as int);
            }
            let top = placements[sound].y + placements[sound].height as usize;
            if top > rows {
                rows = top;
            }
            sound += 1;
        } else {
            all_within = false;
        }
    }
    let mut grid = blank(rows, width);
    let ghost drawn = placements@;
    let mut k: usize = 0;
    while k < sound
        invariant
            0 <= k <= sound <= n,
            n == drawn.len(),
            drawn == placements@,
            rows == rows_needed(drawn.take(sound as int)),
            grid@.len() == rows,
            forall|r: int| 0 <= r < rows ==> (#[trigger] grid@[r])@.len() == width,
            forall|j: int| 0 <= j < sound ==> (#[trigger] drawn[j]).within(width as int),
            forall|j: int| 0 <= j < k ==> !clashes(drawn, width as int, j),
            forall|r: int, c: int|
                0 <= r < rows && 0 <= c < width ==> cell_drawn(
                    #[trigger] grid@[r]@[c],
                    drawn,
                    k as int,
                    false,
                    c,
                    r,
                ),
        decreases sound - k,
    {
        let x = placements[k].x;
        let y = placements[k].y;
        let right = x + placements[k].width as usize;
        let top = y + placements[k].height as usize;
        let ghost placed = drawn[k as int];
        proof {
            lemma_rows_hold(drawn.take(sound as int), k as int);
        }
        let mut r: usize = y;
        while r < top
            invariant
                0 <= k < sound <= n,
                n == drawn.len(),
                drawn == placements@,
                placed == drawn[k as int],
                x == placed.x,
                y == placed.y,
                right == x + placed.width,
                top == y + placed.height,
                right <= width,
                top <= rows,
                y <= r <= top,
                grid@.len() == rows,
                forall|q: int| 0 <= q < rows ==> (#[trigger] grid@[q])@.len() == width,
                forall|j: int| 0 <= j < k ==> !clashes(drawn, width as int, j),
                forall|q: int, c: int|
                    0 <= q < rows && 0 <= c < width ==> cell_drawn(
                        #[trigger] grid@[q]@[c],
                        drawn,
                        k as int,
                        is_written(placed, r as int, x as int, c, q),
                        c,
                        q,
                    ),
            decreases top - r,
        {
            let mut c: usize = x;
            while c < right
                invariant
                    0 <= k < sound <= n,
                    n == drawn.len(),
                    drawn == placements@,
                    placed == drawn[k as int],
                    x == placed.x,
                    y == placed.y,
                    right == x + placed.width,
                    top == y + placed.height,
                    right <= width,
                    top <= rows,
                    y <= r < top,
                    x <= c <= right,
                    grid@.len() == rows,
                    forall|q: int| 0 <= q < rows ==> (#[trigger] grid@[q])@.len() == width,
                    forall|j: int| 0 <= j < k ==> !clashes(drawn, width as int, j),
                    forall|q: int, d: int|
                        0 <= q < rows && 0 <= d < width ==> cell_drawn(
                            #[trigger] grid@[q]@[d],
                            drawn,
                            k as int,
                            is_written(placed, r as int, c as int, d, q),
                            d,
                            q,
                        ),
                decreases right - c,
            {
                let ghost before = grid@;
                assert(cell_drawn(before[r as int]@[c as int], drawn, k as int, false, c as int, r as int));
                match grid[r][c] {
                    Some(other) => {
                        proof {
                            assert(drawn[other as int].covers(c as int, r as int) && placed.covers(
                                c as int,
                                r as int,
                            ));
                            assert(overlap(drawn[other as int], drawn[k as int]));
                            assert(is_first_clash(drawn, width as int, k as int));
                        }
                        return Err(
                            PackError::InternalInvariantViolation {
                                id: placements[k].photo_id.clone(),
                            },
                        );
                    },
                    None => {},
                }
                grid[r][c] = Some(k);
                proof {
                    assert forall|q: int, d: int| 0 <= q < rows && 0 <= d < width implies cell_drawn(
                        #[trigger] grid@[q]@[d],
                        drawn,
                        k as int,
                        is_written(placed, r as int, c + 1, d, q),
                        d,
                        q,
                    ) by {
                        assert(cell_drawn(
                            before[q]@[d],
                            drawn,
                            k as int,
                            is_written(placed, r as int, c as int, d, q),
                            d,
                            q,
                        ));
                    }
                }
                c += 1;
            }
            proof {
                assert forall|q: int, d: int| 0 <= q < rows && 0 <= d < width implies cell_drawn(
                    #[trigger] grid@[q]@[d],
                    drawn,
                    k as int,
                    is_written(placed, r + 1, x as int, d, q),
                    d,
                    q,
                ) by {
                    assert(is_written(placed, r + 1, x as int, d, q) == is_written(
                        placed,
                        r as int,
                        right as int,
                        d,
                        q,
                    ));
                }
            }
            r += 1;
        }
        proof {
            assert forall|j: int| 0 <= j < k implies !overlap(#[trigger] drawn[j], placed) by {
                assert forall|cx: int, cy: int| #[trigger]
                    drawn[j].covers(cx, cy) && placed.covers(cx, cy) implies false by {
                    assert(is_written(placed, top as int, x as int, cx, cy));
                    assert(cell_drawn(grid@[cy]@[cx], drawn, k as int, true, cx, cy));
                }
            }
            assert(!clashes(drawn, width as int, k as int));
            assert forall|q: int, d: int| 0 <= q < rows && 0 <= d < width implies cell_drawn(
                #[trigger] grid@[q]@[d],
                drawn,
                k + 1,
                false,
                d,
                q,
            ) by {
                assert(cell_drawn(
                    grid@[q]@[d],
                    drawn,
                    k as int,
                    is_written(placed, top as int, x as int, d, q),
                    d,
                    q,
                ));
            }
        }
        k += 1;
    }
    if sound < n {
        proof {
            assert(is_first_clash(drawn, width as int, sound as int));
        }
        return Err(
            PackError::InternalInvariantViolation { id: placements[sound].photo_id.clone() },
        );
    }
    proof {
        assert(drawn.take(n as int) =~= drawn);
    }
    Ok(grid)
}

} // verus!
