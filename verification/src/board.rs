use crate::line::{line_bounded, slide_line_spec, lemma_slide_len, CELL_BOUND};
use crate::Direction;
use vstd::prelude::*;

verus! {

/// A board is square: every row is as long as the list of rows.
pub open spec fn wf_grid(g: Seq<Seq<u32>>) -> bool {
    forall|r: int| 0 <= r < g.len() ==> (#[trigger] g[r]).len() == g.len()
}

/// Every cell fits under `CELL_BOUND`, so one merge cannot overflow.
pub open spec fn grid_bounded(g: Seq<Seq<u32>>) -> bool {
    forall|r: int, c: int|
        0 <= r < g.len() && 0 <= c < g[r].len() ==> #[trigger] g[r][c] <= CELL_BOUND
}

/// Column `c` of the grid, read top to bottom.
pub open spec fn gcol(g: Seq<Seq<u32>>, c: int) -> Seq<u32> {
    Seq::new(g.len(), |r: int| g[r][c])
}

/// Line `t` of the grid for direction `d`, read from the edge the tiles
/// slide toward: rows for Left, reversed rows for Right, columns for Up,
/// reversed columns for Down.
pub open spec fn gline(g: Seq<Seq<u32>>, d: Direction, t: int) -> Seq<u32> {
    match d {
        Direction::Left => g[t],
        Direction::Right => g[t].reverse(),
        Direction::Up => gcol(g, t),
        Direction::Down => gcol(g, t).reverse(),
    }
}

/// Which line of direction `d` the cell (r, c) lies on.
pub open spec fn line_of(d: Direction, n: int, r: int, c: int) -> int {
    match d {
        Direction::Left | Direction::Right => r,
        Direction::Up | Direction::Down => c,
    }
}

/// Where on its line the cell (r, c) lies for direction `d`.
pub open spec fn pos_of(d: Direction, n: int, r: int, c: int) -> int {
    match d {
        Direction::Left => c,
        Direction::Right => n - 1 - c,
        Direction::Up => r,
        Direction::Down => n - 1 - r,
    }
}

/// The row of the cell at position `p` of line `t`.
pub open spec fn row_of(d: Direction, n: int, t: int, p: int) -> int {
    match d {
        Direction::Left | Direction::Right => t,
        Direction::Up => p,
        Direction::Down => n - 1 - p,
    }
}

/// The column of the cell at position `p` of line `t`.
pub open spec fn col_of(d: Direction, n: int, t: int, p: int) -> int {
    match d {
        Direction::Left => p,
        Direction::Right => n - 1 - p,
        Direction::Up | Direction::Down => t,
    }
}

/// The canonical post-move state: every line of direction `d` slides
/// independently toward the edge the move points at.
pub open spec fn spec_update(g: Seq<Seq<u32>>, d: Direction) -> Seq<Seq<u32>> {
    Seq::new(
        g.len(),
        |r: int|
            Seq::new(
                g.len(),
                |c: int|
                    slide_line_spec(gline(g, d, line_of(d, g.len() as int, r, c)))[pos_of(
                        d,
                        g.len() as int,
                        r,
                        c,
                    )],
            ),
    )
}

/// Some cell of the grid is empty.
pub open spec fn grid_has_zero(g: Seq<Seq<u32>>) -> bool {
    exists|r: int, c: int| 0 <= r < g.len() && 0 <= c < g[r].len() && g[r][c] == 0
}

/// Some pair of orthogonally adjacent cells holds equal tiles.
pub open spec fn has_equal_neighbours(g: Seq<Seq<u32>>) -> bool {
    (exists|r: int, c: int|
        0 <= r < g.len() && 0 <= c && c + 1 < g.len() && #[trigger] g[r][c] != 0 && g[r][c] == g[r][
            c + 1
        ]) || (exists|r: int, c: int|
        0 <= r && r + 1 < g.len() && 0 <= c < g.len() && #[trigger] g[r][c] != 0 && g[r][c] == g[r
            + 1][c])
}

/// A legal move exists: some cell is empty, or some pair of orthogonally
/// adjacent cells holds equal tiles.
pub open spec fn has_move_spec(g: Seq<Seq<u32>>) -> bool {
    grid_has_zero(g) || has_equal_neighbours(g)
}

/// The cell (r, c) could take part in a move: it is empty, or an
/// orthogonal neighbour holds the same value.
pub open spec fn compatible_at(g: Seq<Seq<u32>>, r: int, c: int) -> bool {
    g[r][c] == 0 || (r > 0 && g[r - 1][c] == g[r][c]) || (r + 1 < g.len() && g[r + 1][c] == g[r][c])
        || (c > 0 && g[r][c - 1] == g[r][c]) || (c + 1 < g.len() && g[r][c + 1] == g[r][c])
}


/// The deep view of a board indexes to the views of its rows.
pub proof fn lemma_deep_view_u32(v: &Vec<Vec<u32>>)
    ensures
        v.deep_view().len() == v@.len(),
        forall|a: int| 0 <= a < v@.len() ==> #[trigger] v.deep_view()[a] == v@[a]@,
{
    assert forall|a: int| 0 <= a < v@.len() implies #[trigger] v.deep_view()[a] == v@[a]@ by {
        assert(v@[a].deep_view() =~= v@[a]@);
    }
}

/// The deep view of a list of coordinate pairs indexes to their views.
pub proof fn lemma_deep_view_i32(v: &Vec<Vec<i32>>)
    ensures
        v.deep_view().len() == v@.len(),
        forall|a: int| 0 <= a < v@.len() ==> #[trigger] v.deep_view()[a] == v@[a]@,
{
    assert forall|a: int| 0 <= a < v@.len() implies #[trigger] v.deep_view()[a] == v@[a]@ by {
        assert(v@[a].deep_view() =~= v@[a]@);
    }
}

pub proof fn lemma_gline_len(g: Seq<Seq<u32>>, d: Direction, t: int)
    requires
        wf_grid(g),
        0 <= t < g.len(),
    ensures
        gline(g, d, t).len() == g.len(),
{
}

/// Reading a cell through its line gives the cell itself, and the
/// line/position maps invert each other.
pub proof fn lemma_line_cell(g: Seq<Seq<u32>>, d: Direction, t: int, p: int)
    requires
        wf_grid(g),
        0 <= t < g.len(),
        0 <= p < g.len(),
    ensures
        0 <= row_of(d, g.len() as int, t, p) < g.len(),
        0 <= col_of(d, g.len() as int, t, p) < g.len(),
        gline(g, d, t)[p] == g[row_of(d, g.len() as int, t, p)][col_of(d, g.len() as int, t, p)],
        line_of(d, g.len() as int, row_of(d, g.len() as int, t, p), col_of(d, g.len() as int, t, p))
            == t,
        pos_of(d, g.len() as int, row_of(d, g.len() as int, t, p), col_of(d, g.len() as int, t, p))
            == p,
{
    let n = g.len() as int;
    match d {
        Direction::Left => {},
        Direction::Right => {
            assert(g[t].reverse()[p] == g[t][n - 1 - p]);
        },
        Direction::Up => {
            assert(gcol(g, t)[p] == g[p][t]);
        },
        Direction::Down => {
            assert(gcol(g, t).reverse()[p] == gcol(g, t)[n - 1 - p]);
        },
    }
}

/// Reading a line through its cells: the cell (r, c) sits at position
/// `pos_of` of line `line_of`.
pub proof fn lemma_cell_line(g: Seq<Seq<u32>>, d: Direction, r: int, c: int)
    requires
        wf_grid(g),
        0 <= r < g.len(),
        0 <= c < g.len(),
    ensures
        0 <= line_of(d, g.len() as int, r, c) < g.len(),
        0 <= pos_of(d, g.len() as int, r, c) < g.len(),
        gline(g, d, line_of(d, g.len() as int, r, c))[pos_of(d, g.len() as int, r, c)] == g[r][c],
{
    let n = g.len() as int;
    match d {
        Direction::Left => {},
        Direction::Right => {
            assert(g[r].reverse()[n - 1 - c] == g[r][c]);
        },
        Direction::Up => {
            assert(gcol(g, c)[r] == g[r][c]);
        },
        Direction::Down => {
            assert(gcol(g, c).reverse()[n - 1 - r] == gcol(g, c)[r]);
        },
    }
}

/// Every line of a bounded grid is a bounded line.
pub proof fn lemma_gline_bounded(g: Seq<Seq<u32>>, d: Direction, t: int)
    requires
        wf_grid(g),
        grid_bounded(g),
        0 <= t < g.len(),
    ensures
        line_bounded(gline(g, d, t)),
{
    assert forall|p: int| 0 <= p < gline(g, d, t).len() implies gline(g, d, t)[p]
        <= CELL_BOUND by {
        lemma_line_cell(g, d, t, p);
    }
}

/// The shape of the post-move grid, and its cells written through lines.
pub proof fn lemma_update_cells(g: Seq<Seq<u32>>, d: Direction)
    requires
        wf_grid(g),
    ensures
        spec_update(g, d).len() == g.len(),
        wf_grid(spec_update(g, d)),
        forall|r: int, c: int|
            0 <= r < g.len() && 0 <= c < g.len() ==> #[trigger] spec_update(g, d)[r][c]
                == slide_line_spec(gline(g, d, line_of(d, g.len() as int, r, c)))[pos_of(
                d,
                g.len() as int,
                r,
                c,
            )],
{
}

/// A line of the post-move grid is the slide of the same line of the
/// starting grid.
pub proof fn lemma_update_lines(g: Seq<Seq<u32>>, d: Direction, t: int)
    requires
        wf_grid(g),
        0 <= t < g.len(),
    ensures
        gline(spec_update(g, d), d, t) == slide_line_spec(gline(g, d, t)),
{
    let n = g.len() as int;
    let m = spec_update(g, d);
    lemma_update_cells(g, d);
    lemma_gline_len(m, d, t);
    lemma_gline_len(g, d, t);
    lemma_slide_len(gline(g, d, t));
    assert forall|p: int| 0 <= p < n implies gline(m, d, t)[p] == slide_line_spec(gline(g, d, t))[p]
        by {
        lemma_line_cell(m, d, t, p);
        lemma_line_cell(g, d, t, p);
        let r = row_of(d, n, t, p);
        let c = col_of(d, n, t, p);
        assert(gline(m, d, t)[p] == m[r][c]);
        assert(m[r][c] == slide_line_spec(gline(g, d, line_of(d, n, r, c)))[pos_of(d, n, r, c)]);
    }
    assert(gline(m, d, t) =~= slide_line_spec(gline(g, d, t)));
}

/// The move leaves the grid unchanged exactly when every line of the
/// direction is already settled.
pub proof fn lemma_update_eq_iff(g: Seq<Seq<u32>>, d: Direction)
    requires
        wf_grid(g),
    ensures
        (spec_update(g, d) == g) <==> (forall|t: int|
            0 <= t < g.len() ==> slide_line_spec(#[trigger] gline(g, d, t)) == gline(g, d, t)),
{
    let n = g.len() as int;
    let m = spec_update(g, d);
    lemma_update_cells(g, d);
    if forall|t: int|
        0 <= t < g.len() ==> slide_line_spec(#[trigger] gline(g, d, t)) == gline(g, d, t) {
        assert forall|r: int, c: int| 0 <= r < n && 0 <= c < n implies m[r][c] == g[r][c] by {
            lemma_cell_line(g, d, r, c);
        }
        assert forall|r: int| 0 <= r < n implies m[r] == g[r] by {
            assert(m[r] =~= g[r]);
        }
        assert(m =~= g);
    }
    if m == g {
        assert forall|t: int| 0 <= t < g.len() implies slide_line_spec(#[trigger] gline(g, d, t))
            == gline(g, d, t) by {
            lemma_update_lines(g, d, t);
            assert(gline(m, d, t) == gline(g, d, t));
        }
    }
}

/// True iff some cell of the board holds 2048 or more.
pub fn win_condition(vec: &Vec<Vec<u32>>) -> (r: bool)
    ensures
        r == exists|i: int, j: int|
            0 <= i < vec.deep_view().len() && 0 <= j < vec.deep_view()[i].len()
                && vec.deep_view()[i][j] >= 2048,
{
    proof {
        lemma_deep_view_u32(vec);
    }
    let n = vec.len();
    let mut i: usize = 0;
    while i < n
        invariant
            n == vec@.len(),
            vec.deep_view().len() == vec@.len(),
            forall|a: int| 0 <= a < vec@.len() ==> #[trigger] vec.deep_view()[a] == vec@[a]@,
            i <= n,
            forall|a: int, b: int|
                0 <= a < i && 0 <= b < vec.deep_view()[a].len() ==> vec.deep_view()[a][b] < 2048,
        decreases n - i,
    {
        let rl = vec[i].len();
        let mut j: usize = 0;
        while j < rl
            invariant
                n == vec@.len(),
                vec.deep_view().len() == vec@.len(),
                forall|a: int| 0 <= a < vec@.len() ==> #[trigger] vec.deep_view()[a] == vec@[a]@,
                i < n,
                j <= rl,
                rl == vec.deep_view()[i as int].len(),
                forall|a: int, b: int|
                    0 <= a < i && 0 <= b < vec.deep_view()[a].len() ==> vec.deep_view()[a][b]
                        < 2048,
                forall|b: int| 0 <= b < j ==> vec.deep_view()[i as int][b] < 2048,
            decreases rl - j,
        {
            if vec[i][j] >= 2048 {
                assert(vec.deep_view()[i as int][j as int] >= 2048);
                return true;
            }
            j += 1;
        }
        i += 1;
    }
    false
}

/// True iff the cell named by `coordinates` (row, then column) is empty or
/// holds the same value as one of its orthogonal neighbours.
pub fn has_compatible_neighbours(coordinates: &Vec<usize>, vec: &Vec<Vec<u32>>) -> (r: bool)
    requires
        wf_grid(vec.deep_view()),
        coordinates@.len() == 2,
        coordinates@[0] < vec@.len(),
        coordinates@[1] < vec@.len(),
    ensures
        r == compatible_at(vec.deep_view(), coordinates@[0] as int, coordinates@[1] as int),
{
    let i = coordinates[0];
    let j = coordinates[1];
    let n = vec.len();
    proof {
        lemma_deep_view_u32(vec);
        assert forall|a: int| 0 <= a < vec@.len() implies (#[trigger] vec@[a]@).len()
            == vec@.len() by {
            assert(vec.deep_view()[a].len() == vec.deep_view().len());
        }
    }
    let v = vec[i][j];
    if v == 0 {
        return true;
    }
    if i > 0 && vec[i - 1][j] == v {
        return true;
    }
    if i + 1 < n && vec[i + 1][j] == v {
        return true;
    }
    if j > 0 && vec[i][j - 1] == v {
        return true;
    }
    if j + 1 < n && vec[i][j + 1] == v {
        return true;
    }
    false
}

/// True iff the player still has a legal move: an empty cell somewhere, or
/// two equal tiles side by side.
pub fn playable_move_exists(vec: &Vec<Vec<u32>>) -> (r: bool)
    requires
        wf_grid(vec.deep_view()),
    ensures
        r == has_move_spec(vec.deep_view()),
{
    let ghost g = vec.deep_view();
    proof {
        lemma_deep_view_u32(vec);
    }
    let n = vec.len();
    let mut i: usize = 0;
    while i < n
        invariant
            g == vec.deep_view(),
            n == g.len(),
            wf_grid(g),
            i <= n,
            forall|a: int, b: int| 0 <= a < i && 0 <= b < n ==> !compatible_at(g, a, b),
        decreases n - i,
    {
        let mut j: usize = 0;
        while j < n
            invariant
                g == vec.deep_view(),
                n == g.len(),
                wf_grid(g),
                i < n,
                j <= n,
                forall|a: int, b: int| 0 <= a < i && 0 <= b < n ==> !compatible_at(g, a, b),
                forall|b: int| 0 <= b < j ==> !compatible_at(g, i as int, b),
            decreases n - j,
        {
            let mut coordinates: Vec<usize> = Vec::new();
            coordinates.push(i);
            coordinates.push(j);
            if has_compatible_neighbours(&coordinates, vec) {
                proof {
                    lemma_compatible_move(g, i as int, j as int);
                }
                return true;
            }
            j += 1;
        }
        i += 1;
    }
    proof {
        if has_move_spec(g) {
            lemma_move_compatible(g);
            let (a, b) = choose|a: int, b: int|
                0 <= a < g.len() && 0 <= b < g.len() && compatible_at(g, a, b);
            assert(!compatible_at(g, a, b));
        }
    }
    false
}

/// A compatible cell witnesses a legal move.
proof fn lemma_compatible_move(g: Seq<Seq<u32>>, r: int, c: int)
    requires
        wf_grid(g),
        0 <= r < g.len(),
        0 <= c < g.len(),
        compatible_at(g, r, c),
    ensures
        has_move_spec(g),
{
    if g[r][c] == 0 {
    } else if r > 0 && g[r - 1][c] == g[r][c] {
        assert(g[r - 1][c] != 0 && g[r - 1][c] == g[(r - 1) + 1][c]);
    } else if r + 1 < g.len() && g[r + 1][c] == g[r][c] {
        assert(g[r][c] != 0 && g[r][c] == g[r + 1][c]);
    } else if c > 0 && g[r][c - 1] == g[r][c] {
        assert(g[r][c - 1] != 0 && g[r][c - 1] == g[r][(c - 1) + 1]);
    } else {
        assert(g[r][c] != 0 && g[r][c] == g[r][c + 1]);
    }
}

/// A legal move shows itself at some compatible cell.
proof fn lemma_move_compatible(g: Seq<Seq<u32>>)
    requires
        wf_grid(g),
        has_move_spec(g),
    ensures
        exists|a: int, b: int| 0 <= a < g.len() && 0 <= b < g.len() && compatible_at(g, a, b),
{
    if grid_has_zero(g) {
        let (r, c) = choose|r: int, c: int|
            0 <= r < g.len() && 0 <= c < g[r].len() && g[r][c] == 0;
        assert(compatible_at(g, r, c));
    } else if exists|r: int, c: int|
        0 <= r < g.len() && 0 <= c && c + 1 < g.len() && #[trigger] g[r][c] != 0 && g[r][c] == g[r][
            c + 1
        ] {
        let (r, c) = choose|r: int, c: int|
            0 <= r < g.len() && 0 <= c && c + 1 < g.len() && #[trigger] g[r][c] != 0 && g[r][c]
                == g[r][c + 1];
        assert(compatible_at(g, r, c));
    } else {
        let (r, c) = choose|r: int, c: int|
            0 <= r && r + 1 < g.len() && 0 <= c < g.len() && #[trigger] g[r][c] != 0 && g[r][c]
                == g[r + 1][c];
        assert(compatible_at(g, r, c));
    }
}

/// True iff the cell one step from (i, j) in direction `dir` still lies on
/// a board of side `board_l`.
pub fn is_inside_board(i: isize, j: isize, dir: Direction, board_l: isize) -> (r: bool)
    requires
        board_l > isize::MIN,
    ensures
        r == (match dir {
            Direction::Left => j - 1 >= 0,
            Direction::Right => j + 1 < board_l,
            Direction::Up => i - 1 >= 0,
            Direction::Down => i + 1 < board_l,
        }),
{
    match dir {
        Direction::Left => j >= 1,
        Direction::Right => j < board_l - 1,
        Direction::Up => i >= 1,
        Direction::Down => i < board_l - 1,
    }
}

/// True iff `coordinates` occurs as an element of `vec`.
pub fn is_inside(coordinates: &Vec<i32>, vec: &Vec<Vec<i32>>) -> (r: bool)
    ensures
        r == vec.deep_view().contains(coordinates.deep_view()),
{
    proof {
        lemma_deep_view_i32(vec);
        assert(coordinates.deep_view() =~= coordinates@);
    }
    let mut k: usize = 0;
    while k < vec.len()
        invariant
            vec.deep_view().len() == vec@.len(),
            forall|a: int| 0 <= a < vec@.len() ==> #[trigger] vec.deep_view()[a] == vec@[a]@,
            coordinates.deep_view() == coordinates@,
            k <= vec.deep_view().len(),
            forall|a: int| 0 <= a < k ==> vec.deep_view()[a] != coordinates.deep_view(),
        decreases vec.deep_view().len() - k,
    {
        if rows_equal_i32(&vec[k], coordinates) {
            assert(vec.deep_view()[k as int] == coordinates.deep_view());
            return true;
        }
        k += 1;
    }
    assert(!vec.deep_view().contains(coordinates.deep_view()));
    false
}

/// Element-by-element equality of two integer vectors.
fn rows_equal_i32(a: &Vec<i32>, b: &Vec<i32>) -> (r: bool)
    ensures
        r == (a@ == b@),
{
    if a.len() != b.len() {
        assert(a@ != b@);
        return false;
    }
    let mut k: usize = 0;
    while k < a.len()
        invariant
            a@.len() == b@.len(),
            k <= a@.len(),
            forall|j: int| 0 <= j < k ==> a@[j] == b@[j],
        decreases a@.len() - k,
    {
        if a[k] != b[k] {
            return false;
        }
        k += 1;
    }
    assert(a@ =~= b@);
    true
}

} // verus!
