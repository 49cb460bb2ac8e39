use crate::board::{
    gcol, gline, grid_bounded, grid_has_zero, has_equal_neighbours, has_move_spec,
    lemma_cell_line, lemma_gline_bounded, lemma_gline_len, lemma_line_cell, lemma_update_cells,
    lemma_update_eq_iff, lemma_update_lines, line_of, pos_of, spec_update, wf_grid,
};
use crate::engine::spawn_rel;
use crate::line::{
    appears, dbl, lemma_line_unmixed, lemma_meas_app, lemma_meas_reverse, lemma_meas_singleton,
    lemma_merge_origin, lemma_nonzeros_basic, lemma_slide_basic, lemma_slide_len,
    lemma_slide_merges, lemma_slide_noop, lemma_slide_of_slide, line_meas, line_sum, line_zeros,
    merged_line, nonzeros, slide_line_spec, sum_weight, zero_weight, CELL_BOUND,
};
use crate::Direction;
use vstd::prelude::*;

verus! {

/// No two adjacent cells along direction `d` hold the same nonzero tile.
pub open spec fn no_pending_merges(g: Seq<Seq<u32>>, d: Direction) -> bool {
    forall|t: int, k: int|
        0 <= t < g.len() && 0 <= k && k + 1 < g.len() ==> !((#[trigger] gline(g, d, t)[k]) != 0
            && gline(g, d, t)[k] == gline(g, d, t)[k + 1])
}

/// The value `v` sits in some cell of the grid.
pub open spec fn grid_appears(g: Seq<Seq<u32>>, v: u32) -> bool {
    exists|r: int, c: int| 0 <= r < g.len() && 0 <= c < g[r].len() && g[r][c] == v
}

/// `v` is 1, 2, 4, 8, ... — a power of two.
pub open spec fn is_pow2(v: int) -> bool
    decreases v,
{
    if v <= 1 {
        v == 1
    } else {
        v % 2 == 0 && is_pow2(v / 2)
    }
}

/// A cell is empty or holds a tile: a power of two of at least 2.
pub open spec fn valid_cell(v: u32) -> bool {
    v == 0 || (v >= 2 && is_pow2(v as int))
}

/// Every cell of the grid is empty or a tile.
pub open spec fn grid_valid(g: Seq<Seq<u32>>) -> bool {
    forall|r: int, c: int| 0 <= r < g.len() && 0 <= c < g[r].len() ==> valid_cell(#[trigger] g[r][c])
}

/// Each row of the grid reversed in place: the mirror image across the
/// vertical axis.
pub open spec fn reflect_rows(g: Seq<Seq<u32>>) -> Seq<Seq<u32>> {
    Seq::new(g.len(), |r: int| g[r].reverse())
}

/// The rows of the grid in reverse order: the mirror image across the
/// horizontal axis.
pub open spec fn reflect_cols(g: Seq<Seq<u32>>) -> Seq<Seq<u32>> {
    Seq::new(g.len(), |r: int| g[g.len() - 1 - r])
}

/// Idempotent quiescence: once a move has been resolved and no adjacent
/// equal tiles remain along its direction, repeating the same move changes
/// nothing. (When equal tiles do remain — merge-locked during the first
/// move — a second press may merge them, so that case is excluded.)
pub proof fn lemma_update_idempotent(g: Seq<Seq<u32>>, d: Direction)
    requires
        wf_grid(g),
        grid_bounded(g),
        no_pending_merges(spec_update(g, d), d),
    ensures
        spec_update(spec_update(g, d), d) == spec_update(g, d),
{
    let n = g.len() as int;
    let m = spec_update(g, d);
    lemma_update_cells(g, d);
    assert forall|t: int| 0 <= t < m.len() implies slide_line_spec(#[trigger] gline(m, d, t))
        == gline(m, d, t) by {
        lemma_update_lines(g, d, t);
        lemma_gline_bounded(g, d, t);
        lemma_gline_len(g, d, t);
        let l = gline(g, d, t);
        lemma_slide_len(l);
        assert forall|k: int|
            0 <= k < slide_line_spec(l).len() - 1 implies !((#[trigger] slide_line_spec(l)[k]) != 0
            && slide_line_spec(l)[k] == slide_line_spec(l)[k + 1]) by {
            assert(gline(m, d, t)[k] == slide_line_spec(l)[k]);
            assert(gline(m, d, t)[k + 1] == slide_line_spec(l)[k + 1]);
        }
        lemma_slide_of_slide(l);
    }
    lemma_update_eq_iff(m, d);
}

/// One merge per tile per move: every tile of the post-move grid is a tile
/// the grid already held, or the double of one — never more.
pub proof fn lemma_one_merge_per_tile(g: Seq<Seq<u32>>, d: Direction)
    requires
        wf_grid(g),
        grid_bounded(g),
    ensures
        forall|r: int, c: int|
            0 <= r < g.len() && 0 <= c < g.len() && #[trigger] spec_update(g, d)[r][c] != 0
                ==> grid_appears(g, spec_update(g, d)[r][c]) || (exists|w: u32|
                grid_appears(g, w) && (spec_update(g, d)[r][c] as int) == 2 * (w as int)),
{
    let n = g.len() as int;
    let m = spec_update(g, d);
    lemma_update_cells(g, d);
    assert forall|r: int, c: int|
        0 <= r < g.len() && 0 <= c < g.len() && #[trigger] m[r][c] != 0 implies grid_appears(
        g,
        m[r][c],
    ) || (exists|w: u32| grid_appears(g, w) && (m[r][c] as int) == 2 * (w as int)) by {
        lemma_cell_line(g, d, r, c);
        let t = line_of(d, n, r, c);
        let p = pos_of(d, n, r, c);
        let l = gline(g, d, t);
        lemma_gline_bounded(g, d, t);
        lemma_gline_len(g, d, t);
        lemma_slide_basic(l);
        let v = m[r][c];
        assert(v == slide_line_spec(l)[p]);
        assert(p < merged_line(l).len());
        assert(merged_line(l)[p] == v);
        lemma_merge_origin(nonzeros(l));
        lemma_nonzeros_basic(l);
        if appears(nonzeros(l), v) {
            lemma_appears_in_grid(g, d, t, v);
        } else {
            let w = choose|w: u32| appears(nonzeros(l), w) && merged_line(l)[p] == dbl(w);
            lemma_appears_in_grid(g, d, t, w);
            assert((v as int) == 2 * (w as int)) by {
                let j = choose|j: int| 0 <= j < nonzeros(l).len() && nonzeros(l)[j] == w;
                let q = choose|q: int| 0 <= q < l.len() && l[q] == w;
                assert(w <= CELL_BOUND);
            }
        }
    }
}

/// A value of the compacted line is a value of some grid cell.
proof fn lemma_appears_in_grid(g: Seq<Seq<u32>>, d: Direction, t: int, v: u32)
    requires
        wf_grid(g),
        0 <= t < g.len(),
        appears(nonzeros(gline(g, d, t)), v),
    ensures
        grid_appears(g, v),
        v <= CELL_BOUND || !grid_bounded(g),
{
    let l = gline(g, d, t);
    lemma_gline_len(g, d, t);
    lemma_nonzeros_basic(l);
    let j = choose|j: int| 0 <= j < nonzeros(l).len() && nonzeros(l)[j] == v;
    assert(appears(l, nonzeros(l)[j]));
    let p = choose|p: int| 0 <= p < l.len() && l[p] == v;
    lemma_line_cell(g, d, t, p);
    let r = crate::board::row_of(d, g.len() as int, t, p);
    let c = crate::board::col_of(d, g.len() as int, t, p);
    assert(g[r][c] == v);
    if grid_bounded(g) {
        assert(v <= CELL_BOUND);
    }
}

/// Tiles stay tiles: a move maps a grid of powers of two to a grid of
/// powers of two, and no cell can more than double, so no cell passes a
/// bound like 2048 unless a merge of two such halves produces it.
pub proof fn lemma_tiles_stay_powers(g: Seq<Seq<u32>>, d: Direction, m: u32)
    requires
        wf_grid(g),
        grid_bounded(g),
        grid_valid(g),
        m <= CELL_BOUND,
        forall|r: int, c: int| 0 <= r < g.len() && 0 <= c < g[r].len() ==> #[trigger] g[r][c] <= m,
    ensures
        grid_valid(spec_update(g, d)),
        forall|r: int, c: int|
            0 <= r < spec_update(g, d).len() && 0 <= c < spec_update(g, d)[r].len()
                ==> (#[trigger] spec_update(g, d)[r][c] as int) <= 2 * (m as int),
{
    let u = spec_update(g, d);
    lemma_update_cells(g, d);
    lemma_one_merge_per_tile(g, d);
    assert forall|r: int, c: int| 0 <= r < u.len() && 0 <= c < u[r].len() implies valid_cell(
        #[trigger] u[r][c],
    ) && (u[r][c] as int) <= 2 * (m as int) by {
        let v = u[r][c];
        if v != 0 {
            if grid_appears(g, v) {
                let (a, b) = choose|a: int, b: int|
                    0 <= a < g.len() && 0 <= b < g[a].len() && g[a][b] == v;
                assert(valid_cell(g[a][b]));
            } else {
                let w = choose|w: u32| grid_appears(g, w) && (v as int) == 2 * (w as int);
                let (a, b) = choose|a: int, b: int|
                    0 <= a < g.len() && 0 <= b < g[a].len() && g[a][b] == w;
                assert(valid_cell(w));
                assert(w != 0);
                assert(is_pow2(w as int));
                assert(is_pow2(2 * (w as int))) by {
                    assert((2 * (w as int)) / 2 == w as int);
                }
            }
        }
    }
}

/// Direction symmetry, horizontal: sliding the mirrored grid left is the
/// mirror of sliding the grid right.
pub proof fn lemma_reflect_row_symmetry(g: Seq<Seq<u32>>)
    requires
        wf_grid(g),
    ensures
        spec_update(reflect_rows(g), Direction::Left) == reflect_rows(
            spec_update(g, Direction::Right),
        ),
{
    let n = g.len() as int;
    let lhs = spec_update(reflect_rows(g), Direction::Left);
    let rhs = reflect_rows(spec_update(g, Direction::Right));
    lemma_update_cells(g, Direction::Right);
    assert forall|r: int| 0 <= r < n implies lhs[r] == rhs[r] by {
        assert forall|c: int| 0 <= c < n implies lhs[r][c] == rhs[r][c] by {
            assert(gline(reflect_rows(g), Direction::Left, r) == g[r].reverse());
            assert(lhs[r][c] == slide_line_spec(g[r].reverse())[c]);
            assert(rhs[r][c] == spec_update(g, Direction::Right)[r].reverse()[c]);
            assert(spec_update(g, Direction::Right)[r].len() == n);
            assert(rhs[r][c] == spec_update(g, Direction::Right)[r][n - 1 - c]);
            assert(spec_update(g, Direction::Right)[r][n - 1 - c] == slide_line_spec(
                gline(g, Direction::Right, r),
            )[n - 1 - (n - 1 - c)]);
        }
        assert(lhs[r] =~= rhs[r]);
    }
    assert(lhs =~= rhs);
}

/// Direction symmetry, vertical: sliding the flipped grid up is the flip
/// of sliding the grid down.
pub proof fn lemma_reflect_col_symmetry(g: Seq<Seq<u32>>)
    requires
        wf_grid(g),
    ensures
        spec_update(reflect_cols(g), Direction::Up) == reflect_cols(
            spec_update(g, Direction::Down),
        ),
{
    let n = g.len() as int;
    let lhs = spec_update(reflect_cols(g), Direction::Up);
    let rhs = reflect_cols(spec_update(g, Direction::Down));
    lemma_update_cells(g, Direction::Down);
    assert forall|r: int| 0 <= r < n implies lhs[r] == rhs[r] by {
        assert forall|c: int| 0 <= c < n implies lhs[r][c] == rhs[r][c] by {
            assert(crate::board::gcol(reflect_cols(g), c) =~= crate::board::gcol(g, c).reverse());
            assert(gline(reflect_cols(g), Direction::Up, c) == crate::board::gcol(g, c).reverse());
            assert(lhs[r][c] == slide_line_spec(crate::board::gcol(g, c).reverse())[r]);
            assert(rhs[r][c] == spec_update(g, Direction::Down)[n - 1 - r][c]);
            assert(spec_update(g, Direction::Down)[n - 1 - r][c] == slide_line_spec(
                gline(g, Direction::Down, c),
            )[n - 1 - (n - 1 - r)]);
        }
        assert(lhs[r] =~= rhs[r]);
    }
    assert(lhs =~= rhs);
}

/// Every cell of the line is empty.
pub open spec fn line_all_zero(l: Seq<u32>) -> bool {
    forall|k: int| 0 <= k < l.len() ==> l[k] == 0
}

/// Every cell of the line holds a tile.
pub open spec fn line_all_tiles(l: Seq<u32>) -> bool {
    forall|k: int| 0 <= k < l.len() ==> l[k] != 0
}

/// Stalemate: on a grid with at least one tile, a legal move exists
/// exactly when some directional move would change the grid. (The all-empty
/// grid is the one board where an empty cell exists but no tile can move.)
pub proof fn lemma_stalemate_iff(g: Seq<Seq<u32>>)
    requires
        wf_grid(g),
        grid_bounded(g),
        exists|r: int, c: int| 0 <= r < g.len() && 0 <= c < g[r].len() && g[r][c] != 0,
    ensures
        has_move_spec(g) <==> (exists|d: Direction| spec_update(g, d) != g),
{
    let n = g.len() as int;
    if !has_move_spec(g) {
        assert forall|d: Direction| #[trigger] spec_update(g, d) == g by {
            assert forall|t: int| 0 <= t < n implies slide_line_spec(#[trigger] gline(g, d, t))
                == gline(g, d, t) by {
                let l = gline(g, d, t);
                lemma_gline_len(g, d, t);
                lemma_gline_bounded(g, d, t);
                assert forall|p: int| 0 <= p < l.len() implies l[p] != 0 by {
                    lemma_line_cell(g, d, t, p);
                    assert(!grid_has_zero(g));
                }
                assert forall|k: int| 0 <= k < l.len() - 1 implies #[trigger] l[k] != l[k + 1] by {
                    lemma_line_cell(g, d, t, k);
                    lemma_line_cell(g, d, t, k + 1);
                    if l[k] == l[k + 1] {
                        match d {
                            Direction::Left => {
                                assert(g[t][k] != 0 && g[t][k] == g[t][k + 1]);
                            },
                            Direction::Right => {
                                assert(g[t][n - 2 - k] != 0 && g[t][n - 2 - k] == g[t][(n - 2 - k)
                                    + 1]);
                            },
                            Direction::Up => {
                                assert(g[k][t] != 0 && g[k][t] == g[k + 1][t]);
                            },
                            Direction::Down => {
                                assert(g[n - 2 - k][t] != 0 && g[n - 2 - k][t] == g[(n - 2 - k)
                                    + 1][t]);
                            },
                        }
                        assert(has_equal_neighbours(g));
                        assert(false);
                    }
                }
                lemma_slide_noop(l);
            }
            lemma_update_eq_iff(g, d);
        }
    }
    if has_move_spec(g) {
        if has_equal_neighbours(g) {
            if exists|r: int, c: int|
                0 <= r < g.len() && 0 <= c && c + 1 < g.len() && #[trigger] g[r][c] != 0 && g[r][c]
                    == g[r][c + 1] {
                let (r, c) = choose|r: int, c: int|
                    0 <= r < g.len() && 0 <= c && c + 1 < g.len() && #[trigger] g[r][c] != 0
                        && g[r][c] == g[r][c + 1];
                let l = gline(g, Direction::Left, r);
                lemma_gline_bounded(g, Direction::Left, r);
                lemma_slide_merges(l, c);
                lemma_update_eq_iff(g, Direction::Left);
                assert(spec_update(g, Direction::Left) != g);
            } else {
                let (r, c) = choose|r: int, c: int|
                    0 <= r && r + 1 < g.len() && 0 <= c < g.len() && #[trigger] g[r][c] != 0
                        && g[r][c] == g[r + 1][c];
                let l = gline(g, Direction::Up, c);
                lemma_gline_bounded(g, Direction::Up, c);
                assert(l[r] == g[r][c] && l[r + 1] == g[r + 1][c]);
                lemma_slide_merges(l, r);
                lemma_update_eq_iff(g, Direction::Up);
                assert(spec_update(g, Direction::Up) != g);
            }
        } else {
            if forall|d: Direction| #[trigger] spec_update(g, d) == g {
                assert forall|t: int| 0 <= t < n implies line_all_zero(#[trigger] g[t])
                    || line_all_tiles(g[t]) by {
                    assert(spec_update(g, Direction::Left) == g);
                    assert(spec_update(g, Direction::Right) == g);
                    lemma_update_eq_iff(g, Direction::Left);
                    lemma_update_eq_iff(g, Direction::Right);
                    assert(gline(g, Direction::Left, t) == g[t]);
                    assert(gline(g, Direction::Right, t) == g[t].reverse());
                    lemma_gline_bounded(g, Direction::Left, t);
                    lemma_line_unmixed(g[t]);
                }
                assert forall|t: int| 0 <= t < n implies line_all_zero(#[trigger] gcol(g, t))
                    || line_all_tiles(gcol(g, t)) by {
                    assert(spec_update(g, Direction::Up) == g);
                    assert(spec_update(g, Direction::Down) == g);
                    lemma_update_eq_iff(g, Direction::Up);
                    lemma_update_eq_iff(g, Direction::Down);
                    assert(gline(g, Direction::Up, t) == gcol(g, t));
                    assert(gline(g, Direction::Down, t) == gcol(g, t).reverse());
                    lemma_gline_bounded(g, Direction::Up, t);
                    lemma_line_unmixed(gcol(g, t));
                }
                let (rz, cz) = choose|a: int, b: int|
                    0 <= a < g.len() && 0 <= b < g[a].len() && g[a][b] == 0;
                let (r0, c0) = choose|a: int, b: int|
                    0 <= a < g.len() && 0 <= b < g[a].len() && g[a][b] != 0;
                assert(line_all_tiles(g[r0])) by {
                    assert(g[r0][c0] != 0);
                }
                assert(g[r0][cz] != 0);
                assert(line_all_zero(gcol(g, cz))) by {
                    assert(gcol(g, cz)[rz] == g[rz][cz]);
                    assert(!line_all_tiles(gcol(g, cz)));
                }
                assert(gcol(g, cz)[r0] == g[r0][cz]);
                assert(false);
            }
            assert(exists|d: Direction| spec_update(g, d) != g);
        }
    }
}

/// A measure of the whole grid: the line measure of each row, summed.
pub open spec fn grid_meas(g: Seq<Seq<u32>>, f: spec_fn(u32) -> int) -> int
    decreases g.len(),
{
    if g.len() == 0 {
        0
    } else {
        line_meas(g[0], f) + grid_meas(g.skip(1), f)
    }
}

/// How many cells of the grid are empty.
pub open spec fn grid_zeros(g: Seq<Seq<u32>>) -> int {
    grid_meas(g, zero_weight())
}

/// The total of all cell values of the grid.
pub open spec fn grid_sum(g: Seq<Seq<u32>>) -> int {
    grid_meas(g, sum_weight())
}

/// A measure summed over the first `t` lines of direction `d`.
pub open spec fn lines_meas(g: Seq<Seq<u32>>, d: Direction, f: spec_fn(u32) -> int, t: int) -> int
    decreases t,
{
    if t <= 0 {
        0
    } else {
        lines_meas(g, d, f, t - 1) + line_meas(gline(g, d, t - 1), f)
    }
}

/// How many merges a move in direction `d` performs on the first `t` lines.
pub open spec fn merge_total(g: Seq<Seq<u32>>, d: Direction, t: int) -> int
    decreases t,
{
    if t <= 0 {
        0
    } else {
        merge_total(g, d, t - 1) + (nonzeros(gline(g, d, t - 1)).len() - merged_line(
            gline(g, d, t - 1),
        ).len())
    }
}

proof fn lemma_grid_meas_app(a: Seq<Seq<u32>>, b: Seq<Seq<u32>>, f: spec_fn(u32) -> int)
    ensures
        grid_meas(a + b, f) == grid_meas(a, f) + grid_meas(b, f),
    decreases a.len(),
{
    if a.len() == 0 {
        assert(a + b =~= b);
    } else {
        assert((a + b).skip(1) =~= a.skip(1) + b);
        assert((a + b)[0] == a[0]);
        lemma_grid_meas_app(a.skip(1), b, f);
    }
}

proof fn lemma_grid_meas_single(row: Seq<u32>, f: spec_fn(u32) -> int)
    ensures
        grid_meas(seq![row], f) == line_meas(row, f),
{
    assert(seq![row].skip(1) =~= Seq::<Seq<u32>>::empty());
    assert(grid_meas(Seq::<Seq<u32>>::empty(), f) == 0);
}

proof fn lemma_grid_meas_take(g: Seq<Seq<u32>>, f: spec_fn(u32) -> int, t: int)
    requires
        0 <= t < g.len(),
    ensures
        grid_meas(g.take(t + 1), f) == grid_meas(g.take(t), f) + line_meas(g[t], f),
{
    assert(g.take(t + 1) =~= g.take(t) + seq![g[t]]);
    lemma_grid_meas_app(g.take(t), seq![g[t]], f);
    lemma_grid_meas_single(g[t], f);
}

/// For a horizontal direction the lines are the rows, so the line measures
/// add up to the grid measure row by row.
proof fn lemma_rows_meas(g: Seq<Seq<u32>>, d: Direction, f: spec_fn(u32) -> int, t: int)
    requires
        d == Direction::Left || d == Direction::Right,
        0 <= t <= g.len(),
    ensures
        lines_meas(g, d, f, t) == grid_meas(g.take(t), f),
    decreases t,
{
    if t == 0 {
        assert(g.take(0) =~= Seq::<Seq<u32>>::empty());
        assert(grid_meas(Seq::<Seq<u32>>::empty(), f) == 0);
    } else {
        lemma_rows_meas(g, d, f, t - 1);
        lemma_grid_meas_take(g, f, t - 1);
        if d == Direction::Right {
            lemma_meas_reverse(g[t - 1], f);
        }
    }
}

proof fn lemma_lines_meas_empty(g: Seq<Seq<u32>>, d: Direction, f: spec_fn(u32) -> int, t: int)
    requires
        d == Direction::Up || d == Direction::Down,
        g.len() == 0,
        t >= 0,
    ensures
        lines_meas(g, d, f, t) == 0,
    decreases t,
{
    if t > 0 {
        lemma_lines_meas_empty(g, d, f, t - 1);
        assert(gcol(g, t - 1).len() == 0);
        assert(gline(g, d, t - 1).len() == 0);
        assert(line_meas(gline(g, d, t - 1), f) == 0);
    }
}

/// Peeling the first row off a grid splits every column measure.
proof fn lemma_cols_split(
    g: Seq<Seq<u32>>,
    d: Direction,
    f: spec_fn(u32) -> int,
    m: int,
    c: int,
)
    requires
        d == Direction::Up || d == Direction::Down,
        g.len() >= 1,
        forall|r: int| 0 <= r < g.len() ==> (#[trigger] g[r]).len() == m,
        0 <= c <= m,
    ensures
        lines_meas(g, d, f, c) == line_meas(g[0].take(c), f) + lines_meas(g.skip(1), d, f, c),
    decreases c,
{
    if c == 0 {
        assert(g[0].take(0) =~= Seq::<u32>::empty());
        assert(line_meas(Seq::<u32>::empty(), f) == 0);
    } else {
        lemma_cols_split(g, d, f, m, c - 1);
        let col = gcol(g, c - 1);
        let colrest = gcol(g.skip(1), c - 1);
        assert(col.len() == g.len());
        assert(col[0] == g[0][c - 1]);
        assert(col.skip(1) =~= colrest);
        assert(line_meas(col, f) == f(g[0][c - 1]) + line_meas(colrest, f));
        if d == Direction::Down {
            lemma_meas_reverse(col, f);
            lemma_meas_reverse(colrest, f);
        }
        assert(line_meas(gline(g, d, c - 1), f) == f(g[0][c - 1]) + line_meas(
            gline(g.skip(1), d, c - 1),
            f,
        ));
        assert(g[0].take(c) =~= g[0].take(c - 1) + seq![g[0][c - 1]]);
        lemma_meas_app(g[0].take(c - 1), seq![g[0][c - 1]], f);
        lemma_meas_singleton(g[0][c - 1], f);
    }
}

/// The column measures of a grid add up to the grid measure: counting by
/// columns equals counting by rows.
proof fn lemma_fubini(g: Seq<Seq<u32>>, d: Direction, f: spec_fn(u32) -> int, m: int)
    requires
        d == Direction::Up || d == Direction::Down,
        forall|r: int| 0 <= r < g.len() ==> (#[trigger] g[r]).len() == m,
        m >= 0,
    ensures
        lines_meas(g, d, f, m) == grid_meas(g, f),
    decreases g.len(),
{
    if g.len() == 0 {
        lemma_lines_meas_empty(g, d, f, m);
    } else {
        lemma_cols_split(g, d, f, m, m);
        assert(g[0].take(m) =~= g[0]);
        lemma_fubini(g.skip(1), d, f, m);
    }
}

/// Whatever the direction, the line measures add up to the grid measure.
proof fn lemma_lines_total(g: Seq<Seq<u32>>, d: Direction, f: spec_fn(u32) -> int)
    requires
        wf_grid(g),
    ensures
        lines_meas(g, d, f, g.len() as int) == grid_meas(g, f),
{
    let n = g.len() as int;
    match d {
        Direction::Left | Direction::Right => {
            lemma_rows_meas(g, d, f, n);
            assert(g.take(n) =~= g);
        },
        Direction::Up | Direction::Down => {
            lemma_fubini(g, d, f, n);
        },
    }
}

/// Line by line, a move keeps the total value and turns exactly one empty
/// cell out of every merge.
proof fn lemma_lines_update(g: Seq<Seq<u32>>, d: Direction, t: int)
    requires
        wf_grid(g),
        grid_bounded(g),
        0 <= t <= g.len(),
    ensures
        lines_meas(spec_update(g, d), d, sum_weight(), t) == lines_meas(g, d, sum_weight(), t),
        lines_meas(spec_update(g, d), d, zero_weight(), t) == lines_meas(g, d, zero_weight(), t)
            + merge_total(g, d, t),
        merge_total(g, d, t) >= 0,
    decreases t,
{
    if t > 0 {
        lemma_lines_update(g, d, t - 1);
        lemma_update_lines(g, d, t - 1);
        lemma_gline_bounded(g, d, t - 1);
        lemma_slide_basic(gline(g, d, t - 1));
        assert(line_sum(slide_line_spec(gline(g, d, t - 1))) == line_sum(gline(g, d, t - 1)));
        assert(line_zeros(slide_line_spec(gline(g, d, t - 1))) == line_zeros(gline(g, d, t - 1))
            + (nonzeros(gline(g, d, t - 1)).len() - merged_line(gline(g, d, t - 1)).len()));
    }
}

/// Conservation: a move never changes the total tile value, and the count
/// of empty cells grows by exactly the number of merges.
pub proof fn lemma_update_conserves(g: Seq<Seq<u32>>, d: Direction)
    requires
        wf_grid(g),
        grid_bounded(g),
    ensures
        grid_sum(spec_update(g, d)) == grid_sum(g),
        grid_zeros(spec_update(g, d)) == grid_zeros(g) + merge_total(g, d, g.len() as int),
        merge_total(g, d, g.len() as int) >= 0,
{
    let m = spec_update(g, d);
    lemma_update_cells(g, d);
    lemma_lines_total(g, d, sum_weight());
    lemma_lines_total(m, d, sum_weight());
    lemma_lines_total(g, d, zero_weight());
    lemma_lines_total(m, d, zero_weight());
    lemma_lines_update(g, d, g.len() as int);
}

proof fn lemma_line_meas_update(l: Seq<u32>, c: int, v: u32, f: spec_fn(u32) -> int)
    requires
        0 <= c < l.len(),
    ensures
        line_meas(l.update(c, v), f) == line_meas(l, f) - f(l[c]) + f(v),
    decreases c,
{
    if c == 0 {
        assert(l.update(0, v)[0] == v);
        assert(l.update(0, v).skip(1) =~= l.skip(1));
    } else {
        assert(l.update(c, v)[0] == l[0]);
        assert(l.update(c, v).skip(1) =~= l.skip(1).update(c - 1, v));
        lemma_line_meas_update(l.skip(1), c - 1, v, f);
    }
}

proof fn lemma_grid_meas_update(g: Seq<Seq<u32>>, r: int, row: Seq<u32>, f: spec_fn(u32) -> int)
    requires
        0 <= r < g.len(),
    ensures
        grid_meas(g.update(r, row), f) == grid_meas(g, f) - line_meas(g[r], f) + line_meas(row, f),
    decreases r,
{
    if r == 0 {
        assert(g.update(0, row)[0] == row);
        assert(g.update(0, row).skip(1) =~= g.skip(1));
    } else {
        assert(g.update(r, row)[0] == g[0]);
        assert(g.update(r, row).skip(1) =~= g.skip(1).update(r - 1, row));
        lemma_grid_meas_update(g.skip(1), r - 1, row, f);
    }
}

/// Spawning fills exactly one empty cell, with a 2 or a 4.
pub proof fn lemma_spawn_accounting(g: Seq<Seq<u32>>, h: Seq<Seq<u32>>)
    requires
        spawn_rel(g, h),
    ensures
        grid_zeros(h) == grid_zeros(g) - 1,
        grid_sum(h) == grid_sum(g) + 2 || grid_sum(h) == grid_sum(g) + 4,
{
    let (r, c) = choose|r: int, c: int|
        0 <= r < g.len() && 0 <= c < g[r].len() && g[r][c] == 0 && (h[r][c] == 2 || h[r][c] == 4)
            && h == g.update(r, g[r].update(c, h[r][c]));
    let row = g[r].update(c, h[r][c]);
    lemma_line_meas_update(g[r], c, h[r][c], zero_weight());
    lemma_line_meas_update(g[r], c, h[r][c], sum_weight());
    lemma_grid_meas_update(g, r, row, zero_weight());
    lemma_grid_meas_update(g, r, row, sum_weight());
}

/// The count of empty cells never drops by more than the one the spawner
/// fills: across a full move it falls by at most 1.
pub proof fn lemma_move_zero_margin(g: Seq<Seq<u32>>, h: Seq<Seq<u32>>, d: Direction)
    requires
        wf_grid(g),
        grid_bounded(g),
        if spec_update(g, d) == g {
            h == g
        } else {
            spawn_rel(spec_update(g, d), h)
        },
    ensures
        grid_zeros(h) >= grid_zeros(g) - 1,
{
    lemma_update_conserves(g, d);
    if spec_update(g, d) != g {
        lemma_spawn_accounting(spec_update(g, d), h);
    }
}

/// The spawner keeps the board a board of tiles: it writes a 2 or a 4 and
/// touches nothing else, so with the move itself every reachable board
/// holds only empty cells and powers of two.
pub proof fn lemma_spawn_keeps_valid(g: Seq<Seq<u32>>, h: Seq<Seq<u32>>)
    requires
        spawn_rel(g, h),
        grid_valid(g),
    ensures
        grid_valid(h),
{
    let (r, c) = choose|r: int, c: int|
        0 <= r < g.len() && 0 <= c < g[r].len() && g[r][c] == 0 && (h[r][c] == 2 || h[r][c] == 4)
            && h == g.update(r, g[r].update(c, h[r][c]));
    assert(is_pow2(1));
    assert(is_pow2(2));
    assert(is_pow2(4));
    assert forall|a: int, b: int| 0 <= a < h.len() && 0 <= b < h[a].len() implies valid_cell(
        #[trigger] h[a][b],
    ) by {
        if a == r {
            assert(h[a] == g[r].update(c, h[r][c]));
            if b != c {
                assert(h[a][b] == g[a][b]);
            }
        } else {
            assert(h[a] == g[a]);
        }
    }
}

} // verus!
