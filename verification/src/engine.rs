use crate::board::{
    col_of, gline, grid_bounded, grid_has_zero, lemma_cell_line, lemma_deep_view_u32,
    lemma_gline_bounded, lemma_gline_len, lemma_line_cell, lemma_update_cells,
    lemma_update_eq_iff, lemma_update_lines, line_of, pos_of, row_of, spec_update, wf_grid,
};
use crate::line::{lemma_slide_changed_zero, lemma_slide_len, slide_line, slide_line_spec};
use crate::Direction;
use rand::Rng;
use vstd::prelude::*;

verus! {

/// The board after a spawn: exactly one previously empty cell now holds a
/// 2 or a 4, and every other cell is untouched.
pub open spec fn spawn_rel(g: Seq<Seq<u32>>, h: Seq<Seq<u32>>) -> bool {
    exists|r: int, c: int|
        0 <= r < g.len() && 0 <= c < g[r].len() && g[r][c] == 0 && (h[r][c] == 2 || h[r][c] == 4)
            && h == g.update(r, g[r].update(c, h[r][c]))
}

/// Write one cell of the board.
fn set_cell(board: &mut Vec<Vec<u32>>, r: usize, c: usize, v: u32)
    requires
        r < old(board)@.len(),
        c < old(board)@[r as int]@.len(),
    ensures
        final(board).deep_view() == old(board).deep_view().update(
            r as int,
            old(board).deep_view()[r as int].update(c as int, v),
        ),
        final(board)@.len() == old(board)@.len(),
{
    proof {
        lemma_deep_view_u32(board);
    }
    board[r][c] = v;
    proof {
        lemma_deep_view_u32(board);
        assert forall|a: int| 0 <= a < board@.len() implies board.deep_view()[a]
            == old(board).deep_view().update(
            r as int,
            old(board).deep_view()[r as int].update(c as int, v),
        )[a] by {
            if a == r {
                assert(board@[a]@ =~= old(board)@[a]@.update(c as int, v));
            } else {
                assert(board@[a] == old(board)@[a]);
            }
        }
        assert(board.deep_view() =~= old(board).deep_view().update(
            r as int,
            old(board).deep_view()[r as int].update(c as int, v),
        ));
    }
}

/// Read line `t` of the board for direction `d`, ordered from the edge the
/// tiles slide toward.
fn get_line(board: &Vec<Vec<u32>>, dir: Direction, t: usize) -> (line: Vec<u32>)
    requires
        wf_grid(board.deep_view()),
        t < board.deep_view().len(),
    ensures
        line@ == gline(board.deep_view(), dir, t as int),
{
    let ghost g = board.deep_view();
    proof {
        lemma_deep_view_u32(board);
        lemma_gline_len(g, dir, t as int);
    }
    let n = board.len();
    let mut line: Vec<u32> = Vec::new();
    let mut p: usize = 0;
    while p < n
        invariant
            g == board.deep_view(),
            wf_grid(g),
            n == g.len(),
            g.len() == board@.len(),
            forall|a: int| 0 <= a < board@.len() ==> #[trigger] board.deep_view()[a] == board@[a]@,
            t < n,
            p <= n,
            gline(g, dir, t as int).len() == n,
            line@.len() == p,
            forall|k: int| 0 <= k < p ==> line@[k] == gline(g, dir, t as int)[k],
        decreases n - p,
    {
        proof {
            lemma_line_cell(g, dir, t as int, p as int);
        }
        let v = match dir {
            Direction::Left => board[t][p],
            Direction::Right => board[t][n - 1 - p],
            Direction::Up => board[p][t],
            Direction::Down => board[n - 1 - p][t],
        };
        proof {
            assert(v == g[row_of(dir, n as int, t as int, p as int)][col_of(
                dir,
                n as int,
                t as int,
                p as int,
            )]);
        }
        line.push(v);
        p += 1;
    }
    proof {
        assert(line@ =~= gline(g, dir, t as int));
    }
    line
}

/// Write `vals` back as line `t` of the board for direction `d`.
fn set_line(board: &mut Vec<Vec<u32>>, dir: Direction, t: usize, vals: &Vec<u32>)
    requires
        wf_grid(old(board).deep_view()),
        t < old(board).deep_view().len(),
        vals@.len() == old(board).deep_view().len(),
    ensures
        final(board).deep_view().len() == old(board).deep_view().len(),
        wf_grid(final(board).deep_view()),
        forall|r: int, c: int|
            0 <= r < old(board).deep_view().len() && 0 <= c < old(board).deep_view().len()
                ==> #[trigger] final(board).deep_view()[r][c] == (if line_of(
                dir,
                old(board).deep_view().len() as int,
                r,
                c,
            ) == t {
                vals@[pos_of(dir, old(board).deep_view().len() as int, r, c)]
            } else {
                old(board).deep_view()[r][c]
            }),
{
    let ghost g0 = old(board).deep_view();
    let ghost n_ = g0.len();
    let n = board.len();
    proof {
        lemma_deep_view_u32(board);
    }
    let mut p: usize = 0;
    while p < n
        invariant
            n == n_,
            n_ == g0.len(),
            wf_grid(g0),
            t < n,
            vals@.len() == n_,
            p <= n,
            board.deep_view().len() == n_,
            wf_grid(board.deep_view()),
            forall|r: int, c: int|
                0 <= r < n_ && 0 <= c < n_ ==> #[trigger] board.deep_view()[r][c] == (if line_of(
                    dir,
                    n_ as int,
                    r,
                    c,
                ) == t && pos_of(dir, n_ as int, r, c) < p {
                    vals@[pos_of(dir, n_ as int, r, c)]
                } else {
                    g0[r][c]
                }),
        decreases n - p,
    {
        let (r, c) = match dir {
            Direction::Left => (t, p),
            Direction::Right => (t, n - 1 - p),
            Direction::Up => (p, t),
            Direction::Down => (n - 1 - p, t),
        };
        proof {
            lemma_line_cell(board.deep_view(), dir, t as int, p as int);
            assert(r as int == row_of(dir, n_ as int, t as int, p as int));
            assert(c as int == col_of(dir, n_ as int, t as int, p as int));
            lemma_deep_view_u32(board);
            assert(board@[r as int]@.len() == n_);
        }
        let ghost before = board.deep_view();
        set_cell(board, r, c, vals[p]);
        proof {
            assert forall|a: int, b: int| 0 <= a < n_ && 0 <= b < n_ implies
                #[trigger] board.deep_view()[a][b] == (if line_of(dir, n_ as int, a, b) == t
                && pos_of(dir, n_ as int, a, b) < p + 1 {
                vals@[pos_of(dir, n_ as int, a, b)]
            } else {
                g0[a][b]
            }) by {
                lemma_cell_line(g0, dir, a, b);
                if a == r && b == c {
                    assert(line_of(dir, n_ as int, a, b) == t && pos_of(dir, n_ as int, a, b)
                        == p);
                } else {
                    assert(board.deep_view()[a][b] == before[a][b]);
                    if line_of(dir, n_ as int, a, b) == t && pos_of(dir, n_ as int, a, b) == p {
                        assert(a == row_of(dir, n_ as int, t as int, p as int));
                        assert(b == col_of(dir, n_ as int, t as int, p as int));
                        assert(false);
                    }
                }
            }
            assert(wf_grid(board.deep_view())) by {
                assert forall|a: int| 0 <= a < board.deep_view().len() implies (
                #[trigger] board.deep_view()[a]).len() == board.deep_view().len() by {
                    if a == r {
                        assert(board.deep_view()[a] == before[a].update(c as int, vals@[p as int]));
                    } else {
                        assert(board.deep_view()[a] == before[a]);
                    }
                }
            }
        }
        p += 1;
    }
}

/// Element-by-element equality of two lines.
fn lines_equal(a: &Vec<u32>, b: &Vec<u32>) -> (r: bool)
    ensures
        r == (a@ == b@),
{
    if a.len() != b.len() {
        assert(a@ != b@);
        return false;
    }
    let mut k: usize = 0;
    while k < a.len()
        invariant
            a@.len() == b@.len(),
            k <= a@.len(),
            forall|j: int| 0 <= j < k ==> a@[j] == b@[j],
        decreases a@.len() - k,
    {
        if a[k] != b[k] {
            return false;
        }
        k += 1;
    }
    assert(a@ =~= b@);
    true
}

/// Slide every line of the board one move in direction `dir`, with merges,
/// and report whether anything moved. The spawner is not involved: this is
/// the deterministic part of a move.
pub fn apply_move(board: &mut Vec<Vec<u32>>, dir: Direction) -> (changed: bool)
    requires
        wf_grid(old(board).deep_view()),
        grid_bounded(old(board).deep_view()),
    ensures
        final(board).deep_view() == spec_update(old(board).deep_view(), dir),
        changed == (spec_update(old(board).deep_view(), dir) != old(board).deep_view()),
{
    let ghost g0 = old(board).deep_view();
    let n = board.len();
    proof {
        lemma_deep_view_u32(board);
        lemma_update_cells(g0, dir);
    }
    let mut changed = false;
    let mut t: usize = 0;
    while t < n
        invariant
            n == g0.len(),
            wf_grid(g0),
            grid_bounded(g0),
            t <= n,
            board.deep_view().len() == n,
            wf_grid(board.deep_view()),
            forall|r: int, c: int|
                0 <= r < n && 0 <= c < n ==> #[trigger] board.deep_view()[r][c] == (if line_of(
                    dir,
                    n as int,
                    r,
                    c,
                ) < t {
                    spec_update(g0, dir)[r][c]
                } else {
                    g0[r][c]
                }),
            changed == exists|u: int|
                0 <= u < t && slide_line_spec(#[trigger] gline(g0, dir, u)) != gline(g0, dir, u),
        decreases n - t,
    {
        let ghost cur = board.deep_view();
        let line = get_line(board, dir, t);
        proof {
            lemma_gline_len(cur, dir, t as int);
            lemma_gline_len(g0, dir, t as int);
            assert forall|p: int| 0 <= p < n implies gline(cur, dir, t as int)[p] == gline(
                g0,
                dir,
                t as int,
            )[p] by {
                lemma_line_cell(cur, dir, t as int, p);
                lemma_line_cell(g0, dir, t as int, p);
            }
            assert(gline(cur, dir, t as int) =~= gline(g0, dir, t as int));
            lemma_gline_bounded(g0, dir, t as int);
        }
        let slid = slide_line(&line);
        if !lines_equal(&line, &slid) {
            changed = true;
        }
        proof {
            lemma_slide_len(line@);
        }
        set_line(board, dir, t, &slid);
        proof {
            lemma_update_cells(g0, dir);
            assert forall|r: int, c: int| 0 <= r < n && 0 <= c < n implies
                #[trigger] board.deep_view()[r][c] == (if line_of(dir, n as int, r, c) < t + 1 {
                spec_update(g0, dir)[r][c]
            } else {
                g0[r][c]
            }) by {
                lemma_cell_line(g0, dir, r, c);
                if line_of(dir, n as int, r, c) == t {
                    assert(board.deep_view()[r][c] == slid@[pos_of(dir, n as int, r, c)]);
                    assert(spec_update(g0, dir)[r][c] == slide_line_spec(gline(g0, dir, t as int))[
                        pos_of(dir, n as int, r, c)]);
                }
            }
        }
        t += 1;
    }
    proof {
        lemma_update_cells(g0, dir);
        assert forall|r: int| 0 <= r < n implies board.deep_view()[r] == spec_update(g0, dir)[r] by {
            assert forall|c: int| 0 <= c < n implies board.deep_view()[r][c] == spec_update(
                g0,
                dir,
            )[r][c] by {
                assert(line_of(dir, n as int, r, c) < n);
            }
            assert(board.deep_view()[r] =~= spec_update(g0, dir)[r]);
        }
        assert(board.deep_view() =~= spec_update(g0, dir));
        lemma_update_eq_iff(g0, dir);
        if changed {
            let u = choose|u: int|
                0 <= u < n && slide_line_spec(#[trigger] gline(g0, dir, u)) != gline(g0, dir, u);
            assert(spec_update(g0, dir) != g0);
        }
    }
    changed
}

/// Relies on `rand::thread_rng` and `rand::Rng::gen_range`: returns a
/// uniformly chosen value below `bound`, and panics only on an empty
/// range, which the precondition rules out.
#[verifier::external_body]
fn random_below(bound: usize) -> (r: usize)
    requires
        bound >= 1,
    ensures
        r < bound,
{
    rand::thread_rng().gen_range(0..bound)
}

/// Place a new tile — 4 with probability one in ten, else 2 — on an empty
/// cell chosen uniformly at random.
pub fn spawn_new_block(board: &mut Vec<Vec<u32>>)
    requires
        wf_grid(old(board).deep_view()),
        grid_has_zero(old(board).deep_view()),
    ensures
        final(board).deep_view().len() == old(board).deep_view().len(),
        wf_grid(final(board).deep_view()),
        spawn_rel(old(board).deep_view(), final(board).deep_view()),
{
    let ghost g = old(board).deep_view();
    let n = board.len();
    proof {
        lemma_deep_view_u32(board);
    }
    let mut empties: Vec<(usize, usize)> = Vec::new();
    let mut r: usize = 0;
    while r < n
        invariant
            g == board.deep_view(),
            n == g.len(),
            wf_grid(g),
            g.len() == board@.len(),
            forall|a: int| 0 <= a < board@.len() ==> #[trigger] board.deep_view()[a] == board@[a]@,
            r <= n,
            forall|e: int|
                0 <= e < empties@.len() ==> (#[trigger] empties@[e]).0 < n && empties@[e].1 < n
                    && g[empties@[e].0 as int][empties@[e].1 as int] == 0,
            empties@.len() == 0 ==> forall|a: int, b: int|
                0 <= a < r && 0 <= b < n ==> g[a][b] != 0,
        decreases n - r,
    {
        let mut c: usize = 0;
        while c < n
            invariant
                g == board.deep_view(),
                n == g.len(),
                wf_grid(g),
                g.len() == board@.len(),
                forall|a: int| 0 <= a < board@.len() ==> #[trigger] board.deep_view()[a]
                    == board@[a]@,
                r < n,
                c <= n,
                forall|e: int|
                    0 <= e < empties@.len() ==> (#[trigger] empties@[e]).0 < n && empties@[e].1 < n
                        && g[empties@[e].0 as int][empties@[e].1 as int] == 0,
                empties@.len() == 0 ==> forall|a: int, b: int|
                    0 <= a < r && 0 <= b < n ==> g[a][b] != 0,
                empties@.len() == 0 ==> forall|b: int| 0 <= b < c ==> g[r as int][b] != 0,
            decreases n - c,
        {
            proof {
                assert(board.deep_view()[r as int] == board@[r as int]@);
                assert(g[r as int].len() == n);
            }
            if board[r][c] == 0 {
                empties.push((r, c));
            }
            c += 1;
        }
        r += 1;
    }
    proof {
        if empties@.len() == 0 {
            let (a, b) = choose|a: int, b: int|
                0 <= a < g.len() && 0 <= b < g[a].len() && g[a][b] == 0;
            assert(g[a][b] != 0);
        }
    }
    let idx = random_below(empties.len());
    let (pr, pc) = empties[idx];
    let value: u32 = if random_below(10) == 0 {
        4
    } else {
        2
    };
    proof {
        assert(g[pr as int][pc as int] == 0);
        assert(g[pr as int].len() == n);
        lemma_deep_view_u32(board);
        assert(board@[pr as int]@.len() == n);
    }
    set_cell(board, pr, pc, value);
    proof {
        assert(board.deep_view() == g.update(
            pr as int,
            g[pr as int].update(pc as int, value),
        ));
        assert(board.deep_view()[pr as int][pc as int] == value);
        assert(wf_grid(board.deep_view())) by {
            assert forall|a: int| 0 <= a < board.deep_view().len() implies (
            #[trigger] board.deep_view()[a]).len() == board.deep_view().len() by {
                if a != pr as int {
                    assert(board.deep_view()[a] == g[a]);
                }
            }
        }
    }
}

/// One full move: slide and merge in `dir`; if and only if that changed
/// the board, spawn one new tile on an empty cell.
pub fn update(board: &mut Vec<Vec<u32>>, dir: Direction) -> (changed: bool)
    requires
        wf_grid(old(board).deep_view()),
        grid_bounded(old(board).deep_view()),
    ensures
        changed == (spec_update(old(board).deep_view(), dir) != old(board).deep_view()),
        !changed ==> final(board).deep_view() == old(board).deep_view(),
        changed ==> spawn_rel(
            spec_update(old(board).deep_view(), dir),
            final(board).deep_view(),
        ),
        final(board).deep_view().len() == old(board).deep_view().len(),
        wf_grid(final(board).deep_view()),
{
    let ghost g0 = old(board).deep_view();
    let changed = apply_move(board, dir);
    if changed {
        proof {
            lemma_changed_has_zero(g0, dir);
        }
        spawn_new_block(board);
    }
    changed
}

/// A move that changed the board always leaves an empty cell for the
/// spawner.
pub proof fn lemma_changed_has_zero(g: Seq<Seq<u32>>, d: Direction)
    requires
        wf_grid(g),
        grid_bounded(g),
        spec_update(g, d) != g,
    ensures
        wf_grid(spec_update(g, d)),
        spec_update(g, d).len() == g.len(),
        grid_has_zero(spec_update(g, d)),
{
    let n = g.len() as int;
    let m = spec_update(g, d);
    lemma_update_cells(g, d);
    lemma_update_eq_iff(g, d);
    let t = choose|t: int|
        0 <= t < g.len() && slide_line_spec(#[trigger] gline(g, d, t)) != gline(g, d, t);
    lemma_gline_bounded(g, d, t);
    lemma_slide_changed_zero(gline(g, d, t));
    let k = choose|k: int|
        0 <= k < slide_line_spec(gline(g, d, t)).len() && slide_line_spec(gline(g, d, t))[k] == 0;
    lemma_gline_len(g, d, t);
    lemma_slide_len(gline(g, d, t));
    lemma_update_lines(g, d, t);
    lemma_line_cell(m, d, t, k);
    let r = row_of(d, n, t, k);
    let c = col_of(d, n, t, k);
    assert(m[r][c] == gline(m, d, t)[k]);
    assert(m[r][c] == 0);
}

} // verus!
