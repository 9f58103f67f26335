use vstd::prelude::*;
use crate::maze::GrowingTreeMaze;
use crate::maze::CellType;

verus! {

/// Discrete intermediate value for walks: consecutive cells of a walk differ
/// by at most one column, so a walk whose endpoints lie on either side of a
/// column visits that column.
proof fn lemma_path_crosses_column(
    m: GrowingTreeMaze,
    p: Seq<(int, int)>,
    ay: int,
    ax: int,
    by: int,
    bx: int,
    xm: int,
)
    requires
        m.is_path(p, ay, ax, by, bx),
        (ax <= xm <= bx) || (bx <= xm <= ax),
    ensures
        exists|k: int| 0 <= k < p.len() && (#[trigger] p[k]).1 == xm,
    decreases p.len(),
{
    if p[0].1 == xm {
        assert(0 <= 0 < p.len() && p[0].1 == xm);
    } else {
        assert(p.len() >= 2);
        let q = p.drop_first();
        let ny = p[1].0;
        let nx = p[1].1;
        assert(q.len() == p.len() - 1);
        assert(forall|k: int| 0 <= k < q.len() ==> #[trigger] q[k] == p[k + 1]);
        assert(m.is_path(q, ny, nx, by, bx));
        assert((nx <= xm <= bx) || (bx <= xm <= nx)) by {
            assert(step_within_one(p[0], p[1]));
        }
        lemma_path_crosses_column(m, q, ny, nx, by, bx, xm);
        let k = choose|k: int| 0 <= k < q.len() && (#[trigger] q[k]).1 == xm;
        assert(p[k + 1].1 == xm);
    }
}

/// Consecutive walk cells differ by at most one column and one row.
spec fn step_within_one(a: (int, int), b: (int, int)) -> bool {
    a.1 - 1 <= b.1 <= a.1 + 1 && a.0 - 1 <= b.0 <= a.0 + 1
}

/// Discrete intermediate value for walks, by rows: a walk whose endpoints lie
/// on either side of a row visits that row.
proof fn lemma_path_crosses_row(
    m: GrowingTreeMaze,
    p: Seq<(int, int)>,
    ay: int,
    ax: int,
    by: int,
    bx: int,
    ym: int,
)
    requires
        m.is_path(p, ay, ax, by, bx),
        (ay <= ym <= by) || (by <= ym <= ay),
    ensures
        exists|k: int| 0 <= k < p.len() && (#[trigger] p[k]).0 == ym,
    decreases p.len(),
{
    if p[0].0 == ym {
        assert(0 <= 0 < p.len() && p[0].0 == ym);
    } else {
        assert(p.len() >= 2);
        let q = p.drop_first();
        let ny = p[1].0;
        let nx = p[1].1;
        assert(forall|k: int| 0 <= k < q.len() ==> #[trigger] q[k] == p[k + 1]);
        assert(m.is_path(q, ny, nx, by, bx));
        assert((ny <= ym <= by) || (by <= ym <= ny)) by {
            assert(step_within_one(p[0], p[1]));
        }
        lemma_path_crosses_row(m, q, ny, nx, by, bx, ym);
        let k = choose|k: int| 0 <= k < q.len() && (#[trigger] q[k]).0 == ym;
        assert(p[k + 1].0 == ym);
    }
}

/// In a one-row maze, every cell within distance `d` of the open start column
/// `sx` is open.
proof fn lemma_row_open_interval(m: GrowingTreeMaze, sx: int, d: nat)
    requires
        m.wf(),
        m.spec_height() == 1,
        0 <= sx < m.spec_width(),
        m.open_at(0, sx),
        m.connected_from(0, sx),
        m.all_resolved(),
        m.walls_unadmissible(),
    ensures
        forall|x: int| sx - d <= x <= sx + d && 0 <= x < m.spec_width() ==> m.open_at(0, x),
    decreases d,
{
    if d > 0 {
        lemma_row_open_interval(m, sx, (d - 1) as nat);
        let r = sx + d;
        if r < m.spec_width() {
            assert(m.open_at(0, r - 1));
            if !m.open_at(0, r) {
                assert(m.cell(0, r) == CellType::Wall);
                if m.open_at(0, r + 1) {
                    let p = choose|p: Seq<(int, int)>| #[trigger] m.is_path(p, 0, sx, 0, r + 1);
                    lemma_path_crosses_column(m, p, 0, sx, 0, r + 1, r);
                    let k = choose|k: int| 0 <= k < p.len() && (#[trigger] p[k]).1 == r;
                    assert(m.open_at(p[k].0, p[k].1));
                    assert(p[k].0 == 0);
                    assert(false);
                }
                assert(m.open_neighbor_count(0, r) == 1);
                assert(m.diag_clear(0, r));
                assert(m.spec_check(0, r, true));
                assert(false);
            }
        }
        let l = sx - d;
        if 0 <= l {
            assert(m.open_at(0, l + 1));
            if !m.open_at(0, l) {
                assert(m.cell(0, l) == CellType::Wall);
                if m.open_at(0, l - 1) {
                    let p = choose|p: Seq<(int, int)>| #[trigger] m.is_path(p, 0, sx, 0, l - 1);
                    lemma_path_crosses_column(m, p, 0, sx, 0, l - 1, l);
                    let k = choose|k: int| 0 <= k < p.len() && (#[trigger] p[k]).1 == l;
                    assert(m.open_at(p[k].0, p[k].1));
                    assert(p[k].0 == 0);
                    assert(false);
                }
                assert(m.open_neighbor_count(0, l) == 1);
                assert(m.diag_clear(0, l));
                assert(m.spec_check(0, l, true));
                assert(false);
            }
        }
    }
}

/// A maze of a single row generates to one fully open corridor: in a finished
/// one-row maze, with its open cells one component reachable from the open
/// start cell and every wall inadmissible, every cell is open. A one-by-one
/// maze is the special case of a single open cell.
pub proof fn lemma_single_row_fully_open(m: GrowingTreeMaze, sx: int)
    requires
        m.wf(),
        m.spec_height() == 1,
        0 <= sx < m.spec_width(),
        m.open_at(0, sx),
        m.connected_from(0, sx),
        m.all_resolved(),
        m.walls_unadmissible(),
    ensures
        forall|x: int| 0 <= x < m.spec_width() ==> m.open_at(0, x),
{
    lemma_row_open_interval(m, sx, m.spec_width() as nat);
}

/// In a one-column maze, every cell within distance `d` of the open start row
/// `sy` is open.
proof fn lemma_column_open_interval(m: GrowingTreeMaze, sy: int, d: nat)
    requires
        m.wf(),
        m.spec_width() == 1,
        0 <= sy < m.spec_height(),
        m.open_at(sy, 0),
        m.connected_from(sy, 0),
        m.all_resolved(),
        m.walls_unadmissible(),
    ensures
        forall|y: int| sy - d <= y <= sy + d && 0 <= y < m.spec_height() ==> m.open_at(y, 0),
    decreases d,
{
    if d > 0 {
        lemma_column_open_interval(m, sy, (d - 1) as nat);
        let r = sy + d;
        if r < m.spec_height() {
            assert(m.open_at(r - 1, 0));
            if !m.open_at(r, 0) {
                assert(m.cell(r, 0) == CellType::Wall);
                if m.open_at(r + 1, 0) {
                    let p = choose|p: Seq<(int, int)>| #[trigger] m.is_path(p, sy, 0, r + 1, 0);
                    lemma_path_crosses_row(m, p, sy, 0, r + 1, 0, r);
                    let k = choose|k: int| 0 <= k < p.len() && (#[trigger] p[k]).0 == r;
                    assert(m.open_at(p[k].0, p[k].1));
                    assert(p[k].1 == 0);
                    assert(false);
                }
                assert(m.open_neighbor_count(r, 0) == 1);
                assert(m.diag_clear(r, 0));
                assert(m.spec_check(r, 0, true));
                assert(false);
            }
        }
        let l = sy - d;
        if 0 <= l {
            assert(m.open_at(l + 1, 0));
            if !m.open_at(l, 0) {
                assert(m.cell(l, 0) == CellType::Wall);
                if m.open_at(l - 1, 0) {
                    let p = choose|p: Seq<(int, int)>| #[trigger] m.is_path(p, sy, 0, l - 1, 0);
                    lemma_path_crosses_row(m, p, sy, 0, l - 1, 0, l);
                    let k = choose|k: int| 0 <= k < p.len() && (#[trigger] p[k]).0 == l;
                    assert(m.open_at(p[k].0, p[k].1));
                    assert(p[k].1 == 0);
                    assert(false);
                }
                assert(m.open_neighbor_count(l, 0) == 1);
                assert(m.diag_clear(l, 0));
                assert(m.spec_check(l, 0, true));
                assert(false);
            }
        }
    }
}

/// A maze of a single column generates to one fully open corridor: in a
/// finished one-column maze, with its open cells one component reachable from
/// the open start cell and every wall inadmissible, every cell is open.
pub proof fn lemma_single_column_fully_open(m: GrowingTreeMaze, sy: int)
    requires
        m.wf(),
        m.spec_width() == 1,
        0 <= sy < m.spec_height(),
        m.open_at(sy, 0),
        m.connected_from(sy, 0),
        m.all_resolved(),
        m.walls_unadmissible(),
    ensures
        forall|y: int| 0 <= y < m.spec_height() ==> m.open_at(y, 0),
{
    lemma_column_open_interval(m, sy, m.spec_height() as nat);
}

} // verus!
