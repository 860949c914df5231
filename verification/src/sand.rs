//! The falling-sand grid: a square of cells that can hold a grain of sand,
//! painted with a round brush and advanced one gravity step at a time.

use vstd::prelude::*;

verus! {

/// Size of one grain on screen, in pixels.
pub const SAND_SIZE: usize = 2;

/// Width and height of the drawing area, in pixels.
pub const DRAW_SIZE: usize = 800;

/// Radius of the brush, in cells.
pub const BRUSH_SIZE: usize = 10;

/// Number of rows, and of columns, of the grid.
pub const COUNT: usize = DRAW_SIZE / SAND_SIZE;

/// One cell of the grid.
#[derive(Clone, Copy, PartialEq, Eq, Structural, Debug)]
pub struct Sand {
    pub present: bool,
    pub falling: bool,
}

/// The square grid of cells, row by row.
pub struct SandGrid {
    cells: Vec<Vec<Sand>>,
}

/// Whether `(r, c)` names a cell of the grid.
pub open spec fn in_grid(r: int, c: int) -> bool {
    0 <= r < COUNT && 0 <= c < COUNT
}

/// What a painted cell holds.
pub open spec fn painted() -> Sand {
    Sand { present: true, falling: true }
}

/// The offsets covered by one horizontal stroke of the brush: the rows `dr`
/// and `-dr` away from the centre, columns `from` up to but not including `to`.
pub open spec fn in_stroke(dr: int, from: int, to: int, row_off: int, col_off: int) -> bool {
    (row_off == dr || row_off == -dr) && from <= col_off < to
}

/// The points `(x, y)` of the first octant of the brush outline, as the
/// midpoint circle walk of radius `BRUSH_SIZE` visits them.
pub open spec fn octant_point(k: int) -> (int, int) {
    if k == 0 {
        (10, 0)
    } else if k == 1 {
        (10, 1)
    } else if k == 2 {
        (10, 2)
    } else if k == 3 {
        (10, 3)
    } else if k == 4 {
        (9, 4)
    } else if k == 5 {
        (9, 5)
    } else if k == 6 {
        (8, 6)
    } else {
        (7, 7)
    }
}

/// Number of octant points of the brush.
pub open spec fn octant_len() -> int {
    8
}

/// The strokes drawn for one octant point `(x, y)`: rows `±y` across columns
/// `-x .. x`, and rows `±x` across columns `-y .. y`.
pub open spec fn in_span(p: (int, int), row_off: int, col_off: int) -> bool {
    in_stroke(p.1, -p.0, p.0, row_off, col_off) || in_stroke(p.0, -p.1, p.1, row_off, col_off)
}

/// The offsets covered by the strokes of the first `k` octant points.
pub open spec fn brush_upto(k: int, row_off: int, col_off: int) -> bool {
    exists|j: int| 0 <= j < k && #[trigger] in_span(octant_point(j), row_off, col_off)
}

/// The offsets from the centre that the brush paints.
pub open spec fn in_brush(row_off: int, col_off: int) -> bool {
    brush_upto(octant_len(), row_off, col_off)
}

/// The grid `g` after painting with the brush centred on row `row`, column
/// `col`: every grid cell within the brush holds a falling grain, every other
/// cell is as before. A centre outside the grid paints nothing.
pub open spec fn brushed(g: Seq<Seq<Sand>>, row: int, col: int) -> Seq<Seq<Sand>> {
    if in_grid(row, col) {
        Seq::new(
            g.len(),
            |r: int|
                Seq::new(
                    g[r].len(),
                    |c: int|
                        if in_brush(r - row, c - col) {
                            painted()
                        } else {
                            g[r][c]
                        },
                ),
        )
    } else {
        g
    }
}

/// Painting twice in the same place gives the same grid as painting once.
pub proof fn law_brush_idempotent(g: Seq<Seq<Sand>>, row: int, col: int)
    ensures
        brushed(brushed(g, row, col), row, col) == brushed(g, row, col),
{
    let once = brushed(g, row, col);
    if in_grid(row, col) {
        assert forall|r: int| 0 <= r < once.len() implies #[trigger] brushed(once, row, col)[r]
            =~= once[r] by {}
        assert(brushed(once, row, col) =~= once);
    }
}

/// Painting never removes sand: a cell holding a grain still holds one.
pub proof fn law_brush_keeps_sand(g: Seq<Seq<Sand>>, row: int, col: int, r: int, c: int)
    requires
        square(g),
        in_grid(r, c),
        g[r][c].present,
    ensures
        brushed(g, row, col)[r][c].present,
{
}

/// The walk's state `(x, y, decision)` before its `k`-th step.
spec fn walk_state(k: int) -> (int, int, int) {
    if k == 0 {
        (10, 0, -9)
    } else if k == 1 {
        (10, 1, -6)
    } else if k == 2 {
        (10, 2, -1)
    } else if k == 3 {
        (10, 3, 6)
    } else if k == 4 {
        (9, 4, -3)
    } else if k == 5 {
        (9, 5, 8)
    } else if k == 6 {
        (8, 6, 5)
    } else if k == 7 {
        (7, 7, 6)
    } else {
        (6, 8, 11)
    }
}

/// `g` with the presence of the cell at row `r`, column `c` set to `present`;
/// its `falling` flag is kept.
pub open spec fn with_presence(g: Seq<Seq<Sand>>, r: int, c: int, present: bool) -> Seq<
    Seq<Sand>,
> {
    g.update(r, g[r].update(c, Sand { present, falling: g[r][c].falling }))
}

/// Moves the grain at `(r0, c0)` to the empty cell `(r1, c1)`.
pub open spec fn move_grain(g: Seq<Seq<Sand>>, r0: int, c0: int, r1: int, c1: int) -> Seq<
    Seq<Sand>,
> {
    with_presence(with_presence(g, r0, c0, false), r1, c1, true)
}

/// The fate of a grain at row `y - 1`, column `x`: it falls straight down
/// when the cell below is empty, else down to the left, else down to the
/// right; with all three taken (or no grain) nothing changes.
pub open spec fn settle_at(g: Seq<Seq<Sand>>, y: int, x: int) -> Seq<Seq<Sand>> {
    if !g[y - 1][x].present {
        g
    } else if !g[y][x].present {
        move_grain(g, y - 1, x, y, x)
    } else if x > 0 && !g[y][x - 1].present {
        move_grain(g, y - 1, x, y, x - 1)
    } else if x < COUNT - 1 && !g[y][x + 1].present {
        move_grain(g, y - 1, x, y, x + 1)
    } else {
        g
    }
}

/// Settles the grains of row `y - 1` in columns `n - 1` down to `0`, in that
/// order.
pub open spec fn settle_row(g: Seq<Seq<Sand>>, y: int, n: int) -> Seq<Seq<Sand>>
    decreases n,
{
    if n <= 0 {
        g
    } else {
        settle_row(settle_at(g, y, n - 1), y, n - 1)
    }
}

/// Settles rows `m - 2` down to `0` into the row below each, bottom first.
pub open spec fn settle_rows(g: Seq<Seq<Sand>>, m: int) -> Seq<Seq<Sand>>
    decreases m,
{
    if m <= 1 {
        g
    } else {
        settle_rows(settle_row(g, m - 1, COUNT as int), m - 1)
    }
}

/// One gravity step of the whole grid.
pub open spec fn gravity_step(g: Seq<Seq<Sand>>) -> Seq<Seq<Sand>> {
    settle_rows(g, COUNT as int)
}

proof fn lemma_settle_at_square(g: Seq<Seq<Sand>>, y: int, x: int)
    requires
        square(g),
        1 <= y < COUNT,
        0 <= x < COUNT,
    ensures
        square(settle_at(g, y, x)),
{
}

proof fn lemma_settle_row_square(g: Seq<Seq<Sand>>, y: int, n: int)
    requires
        square(g),
        1 <= y < COUNT,
        n <= COUNT,
    ensures
        square(settle_row(g, y, n)),
    decreases n,
{
    if n > 0 {
        lemma_settle_at_square(g, y, n - 1);
        lemma_settle_row_square(settle_at(g, y, n - 1), y, n - 1);
    }
}

/// `h` is `g` with the grain at `(r0, c0)` moved to `(r1, c1)`: the source is
/// emptied, the target filled, both keep their `falling` flags, and every
/// other cell of the grid is untouched.
pub open spec fn grain_moved(g: Seq<Seq<Sand>>, h: Seq<Seq<Sand>>, r0: int, c0: int, r1: int, c1: int) -> bool {
    &&& square(h)
    &&& !h[r0][c0].present
    &&& h[r0][c0].falling == g[r0][c0].falling
    &&& h[r1][c1].present
    &&& h[r1][c1].falling == g[r1][c1].falling
    &&& forall|r: int, c: int|
        in_grid(r, c) && !(r == r0 && c == c0) && !(r == r1 && c == c1) ==> #[trigger] h[r][c]
            == g[r][c]
}

/// The rule for one grain at row `y - 1`, column `x`, with row `y` below it:
/// it falls into the cell below when that is empty; otherwise into the cell
/// below-left when that is in the grid and empty, whatever the cell
/// below-right holds; otherwise into the cell below-right when that is in the
/// grid and empty; otherwise it stays. A cell without a grain changes nothing.
pub proof fn law_settle_rule(g: Seq<Seq<Sand>>, y: int, x: int)
    requires
        square(g),
        1 <= y < COUNT,
        0 <= x < COUNT,
    ensures
        !g[y - 1][x].present ==> settle_at(g, y, x) == g,
        g[y - 1][x].present && !g[y][x].present ==> grain_moved(g, settle_at(g, y, x), y - 1, x, y, x),
        g[y - 1][x].present && g[y][x].present && x > 0 && !g[y][x - 1].present ==> grain_moved(
            g,
            settle_at(g, y, x),
            y - 1,
            x,
            y,
            x - 1,
        ),
        g[y - 1][x].present && g[y][x].present && (x == 0 || g[y][x - 1].present) && x < COUNT - 1
            && !g[y][x + 1].present ==> grain_moved(g, settle_at(g, y, x), y - 1, x, y, x + 1),
        g[y - 1][x].present && g[y][x].present && (x == 0 || g[y][x - 1].present) && (x == COUNT - 1
            || g[y][x + 1].present) ==> settle_at(g, y, x) == g,
{
}

/// Cells more than one row away from the grain's two rows are never touched
/// by its move, and no grain is created or lost by it.
pub proof fn law_settle_is_local(g: Seq<Seq<Sand>>, y: int, x: int)
    requires
        square(g),
        1 <= y < COUNT,
        0 <= x < COUNT,
    ensures
        square(settle_at(g, y, x)),
        grains(settle_at(g, y, x)) == grains(g),
        forall|r: int, c: int|
            in_grid(r, c) && r != y && r != y - 1 ==> #[trigger] settle_at(g, y, x)[r][c] == g[r][c],
{
    lemma_settle_at_grains(g, y, x);
}

/// The grid holds exactly one grain, at row `r`, column `c`.
pub open spec fn only_grain_at(g: Seq<Seq<Sand>>, r: int, c: int) -> bool {
    &&& square(g)
    &&& in_grid(r, c)
    &&& g[r][c].present
    &&& forall|r1: int, c1: int|
        in_grid(r1, c1) && !(r1 == r && c1 == c) ==> !#[trigger] g[r1][c1].present
}

proof fn lemma_settle_row_empty(g: Seq<Seq<Sand>>, y: int, n: int)
    requires
        square(g),
        1 <= y < COUNT,
        n <= COUNT,
        forall|x: int| 0 <= x < n ==> !#[trigger] g[y - 1][x].present,
    ensures
        settle_row(g, y, n) == g,
    decreases n,
{
    if n > 0 {
        assert(!g[y - 1][n - 1].present);
        lemma_settle_row_empty(g, y, n - 1);
    }
}

proof fn lemma_settle_rows_empty(g: Seq<Seq<Sand>>, m: int)
    requires
        square(g),
        m <= COUNT,
        forall|r: int, c: int| 0 <= r < m - 1 && 0 <= c < COUNT ==> !#[trigger] g[r][c].present,
    ensures
        settle_rows(g, m) == g,
    decreases m,
{
    if m > 1 {
        assert forall|x: int| 0 <= x < COUNT implies !#[trigger] g[m - 2][x].present by {}
        lemma_settle_row_empty(g, m - 1, COUNT as int);
        lemma_settle_rows_empty(g, m - 1);
    }
}

proof fn lemma_settle_row_single(g: Seq<Seq<Sand>>, y: int, x: int, n: int)
    requires
        only_grain_at(g, y - 1, x),
        1 <= y < COUNT,
        x < n <= COUNT,
    ensures
        settle_row(g, y, n) == move_grain(g, y - 1, x, y, x),
    decreases n,
{
    if n - 1 > x {
        assert(!g[y - 1][n - 1].present);
        lemma_settle_row_single(g, y, x, n - 1);
    } else {
        assert(!g[y][x].present);
        let h = move_grain(g, y - 1, x, y, x);
        assert(settle_at(g, y, x) == h);
        assert forall|c: int| 0 <= c < x implies !#[trigger] h[y - 1][c].present by {
            assert(h[y - 1][c] == g[y - 1][c]);
        }
        lemma_settle_row_empty(h, y, x);
    }
}

proof fn lemma_settle_rows_single(g: Seq<Seq<Sand>>, r: int, c: int, m: int)
    requires
        only_grain_at(g, r, c),
        r + 2 <= m <= COUNT,
    ensures
        settle_rows(g, m) == move_grain(g, r, c, r + 1, c),
    decreases m,
{
    if m - 1 > r + 1 {
        assert forall|x: int| 0 <= x < COUNT implies !#[trigger] g[m - 2][x].present by {}
        lemma_settle_row_empty(g, m - 1, COUNT as int);
        lemma_settle_rows_single(g, r, c, m - 1);
    } else {
        lemma_settle_row_single(g, r + 1, c, COUNT as int);
        let h = move_grain(g, r, c, r + 1, c);
        assert forall|r1: int, c1: int| 0 <= r1 < r + 1 - 1 + 1 && 0 <= c1 < COUNT implies !#[trigger] h[r1][c1].present by {
            if r1 == r && c1 == c {
            } else {
                assert(h[r1][c1] == g[r1][c1]);
            }
        }
        lemma_settle_rows_empty(h, r + 1);
    }
}

/// A lone grain falls exactly one row in a step, into the cell straight
/// below it, and everything else stays as it was; on the bottom row it stays.
pub proof fn law_lone_grain_falls_one_row(g: Seq<Seq<Sand>>, r: int, c: int)
    requires
        only_grain_at(g, r, c),
    ensures
        r + 1 < COUNT ==> grain_moved(g, gravity_step(g), r, c, r + 1, c),
        r + 1 == COUNT ==> gravity_step(g) == g,
{
    if r + 1 < COUNT {
        lemma_settle_rows_single(g, r, c, COUNT as int);
        assert(!g[r + 1][c].present);
        law_settle_rule(g, r + 1, c);
    } else {
        assert forall|r1: int, c1: int| 0 <= r1 < COUNT - 1 && 0 <= c1 < COUNT implies !#[trigger] g[r1][c1].present by {}
        lemma_settle_rows_empty(g, COUNT as int);
    }
}

/// Number of grains in one row.
pub open spec fn row_grains(row: Seq<Sand>) -> nat
    decreases row.len(),
{
    if row.len() == 0 {
        0
    } else {
        row_grains(row.drop_last()) + if row.last().present {
            1nat
        } else {
            0nat
        }
    }
}

/// Number of grains in the grid.
pub open spec fn grains(g: Seq<Seq<Sand>>) -> nat
    decreases g.len(),
{
    if g.len() == 0 {
        0
    } else {
        grains(g.drop_last()) + row_grains(g.last())
    }
}

spec fn grain(s: Sand) -> nat {
    if s.present {
        1nat
    } else {
        0nat
    }
}

proof fn lemma_row_grains_update(row: Seq<Sand>, c: int, v: Sand)
    requires
        0 <= c < row.len(),
    ensures
        row_grains(row.update(c, v)) + grain(row[c]) == row_grains(row) + grain(v),
    decreases row.len(),
{
    let u = row.update(c, v);
    if c == row.len() - 1 {
        assert(u.drop_last() =~= row.drop_last());
    } else {
        assert(u.drop_last() =~= row.drop_last().update(c, v));
        lemma_row_grains_update(row.drop_last(), c, v);
    }
}

proof fn lemma_grains_update(g: Seq<Seq<Sand>>, r: int, row: Seq<Sand>)
    requires
        0 <= r < g.len(),
    ensures
        grains(g.update(r, row)) + row_grains(g[r]) == grains(g) + row_grains(row),
    decreases g.len(),
{
    let u = g.update(r, row);
    if r == g.len() - 1 {
        assert(u.drop_last() =~= g.drop_last());
    } else {
        assert(u.drop_last() =~= g.drop_last().update(r, row));
        lemma_grains_update(g.drop_last(), r, row);
    }
}

proof fn lemma_with_presence_grains(g: Seq<Seq<Sand>>, r: int, c: int, present: bool)
    requires
        square(g),
        in_grid(r, c),
    ensures
        grains(with_presence(g, r, c, present)) + grain(g[r][c]) == grains(g) + grain(
            Sand { present, falling: g[r][c].falling },
        ),
{
    let v = Sand { present, falling: g[r][c].falling };
    lemma_row_grains_update(g[r], c, v);
    lemma_grains_update(g, r, g[r].update(c, v));
}

proof fn lemma_settle_at_grains(g: Seq<Seq<Sand>>, y: int, x: int)
    requires
        square(g),
        1 <= y < COUNT,
        0 <= x < COUNT,
    ensures
        grains(settle_at(g, y, x)) == grains(g),
{
    if g[y - 1][x].present {
        let tx = if !g[y][x].present {
            x
        } else if x > 0 && !g[y][x - 1].present {
            x - 1
        } else {
            x + 1
        };
        if settle_at(g, y, x) != g {
            let g1 = with_presence(g, y - 1, x, false);
            lemma_with_presence_grains(g, y - 1, x, false);
            assert(g1[y][tx] == g[y][tx]);
            lemma_with_presence_grains(g1, y, tx, true);
            assert(settle_at(g, y, x) == with_presence(g1, y, tx, true));
        }
    }
}

/// A gravity step neither creates nor destroys sand: the grid holds as many
/// grains after the step as before.
pub proof fn law_step_conserves_grains(g: Seq<Seq<Sand>>)
    requires
        square(g),
    ensures
        grains(gravity_step(g)) == grains(g),
{
    lemma_settle_rows_grains(g, COUNT as int);
}

proof fn lemma_settle_row_grains(g: Seq<Seq<Sand>>, y: int, n: int)
    requires
        square(g),
        1 <= y < COUNT,
        n <= COUNT,
    ensures
        grains(settle_row(g, y, n)) == grains(g),
    decreases n,
{
    if n > 0 {
        lemma_settle_at_grains(g, y, n - 1);
        lemma_settle_at_square(g, y, n - 1);
        lemma_settle_row_grains(settle_at(g, y, n - 1), y, n - 1);
    }
}

proof fn lemma_settle_rows_grains(g: Seq<Seq<Sand>>, m: int)
    requires
        square(g),
        m <= COUNT,
    ensures
        grains(settle_rows(g, m)) == grains(g),
    decreases m,
{
    if m > 1 {
        lemma_settle_row_grains(g, m - 1, COUNT as int);
        lemma_settle_row_square(g, m - 1, COUNT as int);
        lemma_settle_rows_grains(settle_row(g, m - 1, COUNT as int), m - 1);
    }
}

/// Two grids of the same shape whose cells carry the same `falling` flags.
pub open spec fn same_falling(a: Seq<Seq<Sand>>, b: Seq<Seq<Sand>>) -> bool {
    forall|r: int, c: int| in_grid(r, c) ==> #[trigger] a[r][c].falling == b[r][c].falling
}

proof fn lemma_settle_row_falling(g: Seq<Seq<Sand>>, y: int, n: int)
    requires
        square(g),
        1 <= y < COUNT,
        n <= COUNT,
    ensures
        same_falling(settle_row(g, y, n), g),
    decreases n,
{
    if n > 0 {
        let g1 = settle_at(g, y, n - 1);
        lemma_settle_at_square(g, y, n - 1);
        assert(same_falling(g1, g));
        lemma_settle_row_falling(g1, y, n - 1);
    }
}

proof fn lemma_settle_rows_falling(g: Seq<Seq<Sand>>, m: int)
    requires
        square(g),
        m <= COUNT,
    ensures
        same_falling(settle_rows(g, m), g),
    decreases m,
{
    if m > 1 {
        lemma_settle_row_falling(g, m - 1, COUNT as int);
        lemma_settle_row_square(g, m - 1, COUNT as int);
        lemma_settle_rows_falling(settle_row(g, m - 1, COUNT as int), m - 1);
    }
}

/// A gravity step only moves grains: every cell keeps its `falling` flag.
pub proof fn law_step_keeps_falling_flags(g: Seq<Seq<Sand>>)
    requires
        square(g),
    ensures
        same_falling(gravity_step(g), g),
{
    lemma_settle_rows_falling(g, COUNT as int);
}

/// Position of a cell in row-major order.
pub open spec fn rank(p: (usize, usize)) -> int {
    p.0 * COUNT + p.1
}

impl View for SandGrid {
    type V = Seq<Seq<Sand>>;

    closed spec fn view(&self) -> Seq<Seq<Sand>> {
        self.cells@.map_values(|row: Vec<Sand>| row@)
    }
}

/// A grid of the right shape: `COUNT` rows of `COUNT` cells.
pub open spec fn square(g: Seq<Seq<Sand>>) -> bool {
    g.len() == COUNT && forall|r: int| 0 <= r < COUNT ==> #[trigger] g[r].len() == COUNT
}

impl SandGrid {
    /// The grid has `COUNT` rows of `COUNT` cells.
    pub open spec fn wf(&self) -> bool {
        square(self@)
    }

    /// Marks the cell in column `x`, row `y` as holding a falling grain, when
    /// that cell lies in the grid; otherwise does nothing.
    pub fn set_pixel(&mut self, x: i32, y: i32)
        requires
            old(self).wf(),
        ensures
            final(self).wf(),
            in_grid(y as int, x as int) ==> final(self)@ == old(self)@.update(
                y as int,
                old(self)@[y as int].update(x as int, painted()),
            ),
            !in_grid(y as int, x as int) ==> final(self)@ == old(self)@,
    {
        if x >= 0 && x < COUNT as i32 && y >= 0 && y < COUNT as i32 {
            self.write_cell(y as usize, x as usize, Sand { present: true, falling: true });
        }
    }

    /// An empty grid.
    pub fn new() -> (g: Self)
        ensures
            g.wf(),
            forall|r: int, c: int| in_grid(r, c) ==> #[trigger] g@[r][c] == (Sand {
                present: false,
                falling: false,
            }),
    {
        let mut cells: Vec<Vec<Sand>> = Vec::new();
        for r in 0..COUNT
            invariant
                cells@.len() == r,
                forall|k: int| 0 <= k < r ==> #[trigger] cells@[k]@ == Seq::new(
                    COUNT as nat,
                    |j: int| Sand { present: false, falling: false },
                ),
        {
            let mut row: Vec<Sand> = Vec::new();
            for c in 0..COUNT
                invariant
                    row@ == Seq::new(c as nat, |j: int| Sand { present: false, falling: false }),
            {
                row.push(Sand { present: false, falling: false });
                assert(row@ =~= Seq::new((c + 1) as nat, |j: int| Sand { present: false, falling: false }));
            }
            cells.push(row);
        }
        let g = SandGrid { cells };
        assert forall|r: int| 0 <= r < COUNT implies #[trigger] g@[r].len() == COUNT by {
            assert(g@[r] == g.cells@[r]@);
        }
        assert forall|r: int, c: int| in_grid(r, c) implies #[trigger] g@[r][c] == (Sand {
            present: false,
            falling: false,
        }) by {
            assert(g@[r] == g.cells@[r]@);
        }
        g
    }

    /// The cell in row `r`, column `c`.
    pub fn cell(&self, r: usize, c: usize) -> (s: Sand)
        requires
            self.wf(),
            r < COUNT,
            c < COUNT,
        ensures
            s == self@[r as int][c as int],
    {
        assert(self@[r as int] == self.cells@[r as int]@);
        self.cells[r][c]
    }

    fn write_cell(&mut self, r: usize, c: usize, v: Sand)
        requires
            old(self).wf(),
            r < COUNT,
            c < COUNT,
        ensures
            final(self).wf(),
            final(self)@ == old(self)@.update(r as int, old(self)@[r as int].update(c as int, v)),
    {
        let ghost before = self.cells@;
        assert(self@[r as int].len() == COUNT);
        assert(before[r as int]@ == self@[r as int]);
        self.cells[r][c] = v;
        assert(self.cells@[r as int]@ == before[r as int]@.update(c as int, v));
        assert(forall|k: int| 0 <= k < before.len() && k != r ==> self.cells@[k] == before[k]);
        assert(self@ =~= old(self)@.update(r as int, old(self)@[r as int].update(c as int, v)));
    }

    /// Paints the stroke rows `row ± dr`, columns `col + from .. col + to`,
    /// skipping cells outside the grid.
    fn paint_stroke(&mut self, row: i32, col: i32, dr: i32, from: i32, to: i32)
        requires
            old(self).wf(),
            0 <= row < COUNT,
            0 <= col < COUNT,
            -100 <= dr <= 100,
            -100 <= from <= 100,
            -100 <= to <= 100,
            from <= to,
        ensures
            final(self).wf(),
            forall|r: int, c: int|
                in_grid(r, c) ==> #[trigger] final(self)@[r][c] == (if in_stroke(
                    dr as int,
                    from as int,
                    to as int,
                    r - row,
                    c - col,
                ) {
                    painted()
                } else {
                    old(self)@[r][c]
                }),
    {
        let ghost g0 = self@;
        let mut i: i32 = from;
        while i < to
            invariant
                self.wf(),
                from <= i <= to,
                -100 <= i <= 100,
                -100 <= to <= 100,
                0 <= row < COUNT,
                0 <= col < COUNT,
                -100 <= dr <= 100,
                forall|r: int, c: int|
                    in_grid(r, c) ==> #[trigger] self@[r][c] == (if in_stroke(
                        dr as int,
                        from as int,
                        i as int,
                        r - row,
                        c - col,
                    ) {
                        painted()
                    } else {
                        g0[r][c]
                    }),
            decreases to - i,
        {
            let ghost g1 = self@;
            self.set_pixel(col + i, row + dr);
            let ghost g2 = self@;
            self.set_pixel(col + i, row - dr);
            assert forall|r: int, c: int| in_grid(r, c) implies #[trigger] self@[r][c] == (if in_stroke(
                dr as int,
                from as int,
                i + 1,
                r - row,
                c - col,
            ) {
                painted()
            } else {
                g0[r][c]
            }) by {
                assert(g2[r][c] == (if r == row + dr && c == col + i { painted() } else { g1[r][c] }));
                assert(self@[r][c] == (if r == row - dr && c == col + i { painted() } else { g2[r][c] }));
            }
            i = i + 1;
        }
    }

    /// Paints with the round brush centred on row `row`, column `col` (both
    /// in cells); a centre outside the grid paints nothing. The centre cell is
    /// first given a grain, then every cell of the brush that lies in the grid
    /// is painted.
    pub fn paint_brush(&mut self, row: usize, col: usize)
        requires
            old(self).wf(),
        ensures
            final(self).wf(),
            final(self)@ == brushed(old(self)@, row as int, col as int),
    {
        if row >= COUNT || col >= COUNT {
            return;
        }
        assert(old(self)@.len() == COUNT);
        let centre = self.cell(row, col);
        self.write_cell(row, col, Sand { present: true, falling: centre.falling });
        let ghost base = self@;
        let mut x: i32 = BRUSH_SIZE as i32;
        let mut y: i32 = 0;
        let mut decision_over_2: i32 = 1 - x;
        let col = col as i32;
        let row = row as i32;
        let ghost mut k: int = 0;
        while x >= y
            invariant
                self.wf(),
                0 <= k <= octant_len(),
                (x as int, y as int, decision_over_2 as int) == walk_state(k),
                0 <= row < COUNT,
                0 <= col < COUNT,
                forall|r: int, c: int|
                    in_grid(r, c) ==> #[trigger] self@[r][c] == (if brush_upto(k, r - row, c - col) {
                        painted()
                    } else {
                        base[r][c]
                    }),
            decreases octant_len() - k,
        {
            assert(k < octant_len());
            assert((x as int, y as int) == octant_point(k));
            let ghost g0 = self@;
            self.paint_stroke(row, col, y, -x, x);
            self.paint_stroke(row, col, x, -y, y);
            assert forall|r: int, c: int| in_grid(r, c) implies #[trigger] self@[r][c] == (if brush_upto(
                k + 1,
                r - row,
                c - col,
            ) {
                painted()
            } else {
                base[r][c]
            }) by {
                let dr = r - row;
                let dc = c - col;
                if in_span(octant_point(k), dr, dc) {
                    assert(brush_upto(k + 1, dr, dc));
                } else if brush_upto(k, dr, dc) {
                    let j = choose|j: int| 0 <= j < k && #[trigger] in_span(octant_point(j), dr, dc);
                    assert(0 <= j < k + 1 && in_span(octant_point(j), dr, dc));
                } else {
                    if brush_upto(k + 1, dr, dc) {
                        let j = choose|j: int| 0 <= j < k + 1 && #[trigger] in_span(octant_point(j), dr, dc);
                        if j < k {
                            assert(brush_upto(k, dr, dc));
                        }
                    }
                }
            }
            y += 1;
            if decision_over_2 <= 0 {
                decision_over_2 += 2 * y + 1;
            } else {
                x -= 1;
                decision_over_2 += 2 * (y - x) + 1;
            }
            proof {
                k = k + 1;
            }
        }
        assert(k == octant_len());
        let ghost target = brushed(old(self)@, row as int, col as int);
        assert forall|r: int| 0 <= r < COUNT implies #[trigger] self@[r] =~= target[r] by {
            assert forall|c: int| 0 <= c < COUNT implies #[trigger] self@[r][c] == target[r][c] by {
                assert(in_grid(r, c));
                if r == row && c == col {
                    assert(in_span(octant_point(0), 0, 0));
                }
            }
        }
        assert(self@ =~= target);
    }

    fn set_presence(&mut self, r: usize, c: usize, present: bool)
        requires
            old(self).wf(),
            r < COUNT,
            c < COUNT,
        ensures
            final(self).wf(),
            final(self)@ == with_presence(old(self)@, r as int, c as int, present),
    {
        let cur = self.cell(r, c);
        self.write_cell(r, c, Sand { present, falling: cur.falling });
    }

    fn settle_cell(&mut self, y: usize, x: usize)
        requires
            old(self).wf(),
            1 <= y < COUNT,
            x < COUNT,
        ensures
            final(self).wf(),
            final(self)@ == settle_at(old(self)@, y as int, x as int),
    {
        if !self.cell(y - 1, x).present {
            return;
        }
        if !self.cell(y, x).present {
            self.set_presence(y - 1, x, false);
            self.set_presence(y, x, true);
        } else if x > 0 && !self.cell(y, x - 1).present {
            self.set_presence(y - 1, x, false);
            self.set_presence(y, x - 1, true);
        } else if x < COUNT - 1 && !self.cell(y, x + 1).present {
            self.set_presence(y - 1, x, false);
            self.set_presence(y, x + 1, true);
        }
    }

    /// Advances the sand by one gravity step: for each row from the bottom up
    /// (the bottom row itself excepted) and each column from right to left,
    /// the grain above falls into the cell below it if that is empty, else
    /// into the empty cell below-left, else below-right.
    pub fn step(&mut self)
        requires
            old(self).wf(),
        ensures
            final(self).wf(),
            final(self)@ == gravity_step(old(self)@),
    {
        let mut y: usize = COUNT - 1;
        while y >= 1
            invariant
                self.wf(),
                y < COUNT,
                settle_rows(self@, y + 1) == gravity_step(old(self)@),
            decreases y,
        {
            let ghost row_start = self@;
            let mut n: usize = COUNT;
            while n > 0
                invariant
                    self.wf(),
                    1 <= y < COUNT,
                    n <= COUNT,
                    settle_row(self@, y as int, n as int) == settle_row(
                        row_start,
                        y as int,
                        COUNT as int,
                    ),
                decreases n,
            {
                self.settle_cell(y, n - 1);
                n = n - 1;
            }
            y = y - 1;
        }
    }

    /// The cells that hold a grain, as `(row, column)` pairs in row-major
    /// order: the cells to draw.
    pub fn present_cells(&self) -> (cells: Vec<(usize, usize)>)
        requires
            self.wf(),
        ensures
            forall|k: int|
                0 <= k < cells@.len() ==> in_grid(#[trigger] cells@[k].0 as int, cells@[k].1 as int)
                    && self@[cells@[k].0 as int][cells@[k].1 as int].present,
            forall|r: int, c: int|
                in_grid(r, c) && #[trigger] self@[r][c].present ==> exists|k: int|
                    0 <= k < cells@.len() && #[trigger] cells@[k] == (r as usize, c as usize),
            forall|i: int, j: int|
                0 <= i < j < cells@.len() ==> rank(#[trigger] cells@[i]) < rank(#[trigger] cells@[j]),
    {
        let mut cells: Vec<(usize, usize)> = Vec::new();
        for y in 0..COUNT
            invariant
                self.wf(),
                forall|k: int|
                    0 <= k < cells@.len() ==> in_grid(#[trigger] cells@[k].0 as int, cells@[k].1 as int)
                        && self@[cells@[k].0 as int][cells@[k].1 as int].present && rank(cells@[k])
                        < y * COUNT,
                forall|r: int, c: int|
                    0 <= r < y && 0 <= c < COUNT && #[trigger] self@[r][c].present ==> exists|k: int|
                        0 <= k < cells@.len() && #[trigger] cells@[k] == (r as usize, c as usize),
                forall|i: int, j: int|
                    0 <= i < j < cells@.len() ==> rank(#[trigger] cells@[i]) < rank(#[trigger] cells@[j]),
        {
            for x in 0..COUNT
                invariant
                    self.wf(),
                    y < COUNT,
                    forall|k: int|
                        0 <= k < cells@.len() ==> in_grid(#[trigger] cells@[k].0 as int, cells@[k].1 as int)
                            && self@[cells@[k].0 as int][cells@[k].1 as int].present && rank(cells@[k])
                            < y * COUNT + x,
                    forall|r: int, c: int|
                        (0 <= r < y && 0 <= c < COUNT || r == y && 0 <= c < x) && #[trigger] self@[r][c].present
                            ==> exists|k: int|
                            0 <= k < cells@.len() && #[trigger] cells@[k] == (r as usize, c as usize),
                    forall|i: int, j: int|
                        0 <= i < j < cells@.len() ==> rank(#[trigger] cells@[i]) < rank(#[trigger] cells@[j]),
            {
                if self.cell(y, x).present {
                    let ghost before = cells@;
                    cells.push((y, x));
                    assert(cells@[before.len() as int] == (y, x));
                    assert forall|r: int, c: int|
                        (0 <= r < y && 0 <= c < COUNT || r == y && 0 <= c < x + 1) && #[trigger] self@[r][c].present
                        implies exists|k: int|
                        0 <= k < cells@.len() && #[trigger] cells@[k] == (r as usize, c as usize) by {
                        if r == y && c == x {
                            assert(cells@[before.len() as int] == (r as usize, c as usize));
                        } else {
                            let k = choose|k: int| 0 <= k < before.len() && #[trigger] before[k] == (r as usize, c as usize);
                            assert(cells@[k] == before[k]);
                        }
                    }
                }
            }
        }
        cells
    }
}

} // verus!
