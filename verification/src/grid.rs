//! The spatial layer: flattening per-axis grid cell indices into one cell
//! key, and building a cell list from per-point grid coordinates.

use crate::cell_list::CellList;
use vstd::prelude::*;

verus! {

/// Per-axis cell indices of one point on the uniform grid: the integer model
/// of a binned 3D point, with the coordinate-to-index division already done.
#[derive(Debug, Clone, Copy, PartialEq, Eq, Structural)]
pub struct GridCoord {
    pub ix: usize,
    pub iy: usize,
    pub iz: usize,
}

/// The flattened cell key of grid coordinate `c` on a grid with `nx` cells
/// along the x axis and `ny` along the y axis.
pub open spec fn flat_key(c: GridCoord, nx: usize, ny: usize) -> int {
    c.ix + c.iy * nx + c.iz * nx * ny
}

/// Flatten the grid coordinate `c` to its cell key, or report that the key
/// does not fit the platform's integer range.
pub fn flatten_cell_key(c: GridCoord, nx: usize, ny: usize) -> (r: Option<usize>)
    ensures
        match r {
            Some(k) => k == flat_key(c, nx, ny),
            None => flat_key(c, nx, ny) > usize::MAX,
        },
{
    let y_term = match c.iy.checked_mul(nx) {
        Some(t) => t,
        None => {
            proof {
                assert(flat_key(c, nx, ny) > usize::MAX) by (nonlinear_arith)
                    requires c.iy * nx > usize::MAX, c.ix >= 0, c.iz * nx * ny >= 0;
            }
            return None;
        },
    };
    let z_term = if c.iz == 0 {
        proof {
            assert(c.iz * nx * ny == 0) by (nonlinear_arith)
                requires c.iz == 0;
        }
        0
    } else {
        let sheet = match nx.checked_mul(ny) {
            Some(t) => t,
            None => {
                proof {
                    assert(flat_key(c, nx, ny) > usize::MAX) by (nonlinear_arith)
                        requires nx * ny > usize::MAX, c.iz >= 1, c.ix >= 0, c.iy * nx >= 0;
                }
                return None;
            },
        };
        match c.iz.checked_mul(sheet) {
            Some(t) => {
                proof {
                    assert(c.iz * (nx * ny) == c.iz * nx * ny) by (nonlinear_arith);
                }
                t
            },
            None => {
                proof {
                    assert(flat_key(c, nx, ny) > usize::MAX) by (nonlinear_arith)
                        requires c.iz * (nx * ny) > usize::MAX, c.ix >= 0, c.iy * nx >= 0;
                }
                return None;
            },
        }
    };
    proof {
        assert(z_term == c.iz * nx * ny);
    }
    let xy = match c.ix.checked_add(y_term) {
        Some(t) => t,
        None => {
            return None;
        },
    };
    match xy.checked_add(z_term) {
        Some(k) => Some(k),
        None => {
            return None;
        },
    }
}

/// The positions, in increasing order, of the coordinates in `coords` whose
/// flattened cell key is `k`.
pub open spec fn indices_with_key(coords: Seq<GridCoord>, nx: usize, ny: usize, k: usize)
    -> Seq<usize>
    decreases coords.len(),
{
    if coords.len() == 0 {
        Seq::empty()
    } else if flat_key(coords.last(), nx, ny) == k {
        indices_with_key(coords.drop_last(), nx, ny, k).push((coords.len() - 1) as usize)
    } else {
        indices_with_key(coords.drop_last(), nx, ny, k)
    }
}

proof fn lemma_indices_with_key_push(coords: Seq<GridCoord>, nx: usize, ny: usize, k: usize, c: GridCoord)
    ensures
        indices_with_key(coords.push(c), nx, ny, k)
            == if flat_key(c, nx, ny) == k {
                indices_with_key(coords, nx, ny, k).push(coords.len() as usize)
            } else {
                indices_with_key(coords, nx, ny, k)
            },
{
    assert(coords.push(c).drop_last() =~= coords);
    assert(coords.push(c).last() == c);
}

/// Build a cell list over the points whose grid coordinates are `coords`:
/// the point at position `i` is recorded under the flattened cell key of
/// `coords[i]`. Returns `None` when some coordinate's key does not fit the
/// platform's integer range; every in-range input yields an index whose
/// cells hold exactly the positions that map to them, in position order.
pub fn build_cell_index(coords: &Vec<GridCoord>, nx: usize, ny: usize) -> (r: Option<CellList>)
    requires
        coords@.len() < usize::MAX,
    ensures
        match r {
            Some(cl) => {
                &&& cl.wf()
                &&& forall|i: int| 0 <= i < coords@.len()
                    ==> flat_key(#[trigger] coords@[i], nx, ny) <= usize::MAX
                &&& forall|k: usize| #[trigger] cl.cell_ids(k)
                    == indices_with_key(coords@, nx, ny, k)
                &&& forall|k: usize| #[trigger] cl@.dom().contains(k)
                    <==> indices_with_key(coords@, nx, ny, k).len() > 0
            },
            None => exists|i: int| 0 <= i < coords@.len()
                && flat_key(#[trigger] coords@[i], nx, ny) > usize::MAX,
        },
{
    let mut cl = CellList::new();
    let mut i: usize = 0;
    while i < coords.len()
        invariant
            cl.wf(),
            i <= coords@.len(),
            coords@.len() < usize::MAX,
            forall|j: int| 0 <= j < i
                ==> flat_key(#[trigger] coords@[j], nx, ny) <= usize::MAX,
            forall|k: usize| #[trigger] cl.cell_ids(k)
                == indices_with_key(coords@.take(i as int), nx, ny, k),
            forall|id: usize| #[trigger] cl.contains_id(id) ==> id < i,
        decreases coords@.len() - i,
    {
        let c = coords[i];
        match flatten_cell_key(c, nx, ny) {
            None => {
                return None;
            },
            Some(k) => {
                let ghost pre = cl;
                let res = cl.push(k, i);
                proof {
                    assert(res is Ok);
                    assert(coords@.take(i + 1) =~= coords@.take(i as int).push(coords@[i as int]));
                    assert forall|k2: usize| #[trigger] cl.cell_ids(k2)
                            == indices_with_key(coords@.take(i + 1), nx, ny, k2) by {
                        lemma_indices_with_key_push(
                            coords@.take(i as int), nx, ny, k2, coords@[i as int],
                        );
                        if k2 == k {
                            assert(cl@ == pre@.insert(k, pre.cell_ids(k).push(i)));
                            assert(cl.cell_ids(k2) == pre.cell_ids(k).push(i));
                        } else {
                            assert(cl@.dom().contains(k2) <==> pre@.dom().contains(k2));
                            if cl@.dom().contains(k2) {
                                assert(cl@[k2] == pre@[k2]);
                            }
                            assert(cl.cell_ids(k2) == pre.cell_ids(k2));
                        }
                    }
                }
            },
        }
        i += 1;
    }
    proof {
        assert(coords@.take(i as int) =~= coords@);
        crate::cell_list::lemma_present_cells_nonempty(cl);
        assert forall|k: usize| #[trigger] cl@.dom().contains(k)
                <==> indices_with_key(coords@, nx, ny, k).len() > 0 by {
            if cl@.dom().contains(k) {
                assert(cl.cell_ids(k) == cl@[k]);
                assert(cl@[k].len() > 0);
            } else {
                assert(cl.cell_ids(k) == Seq::<usize>::empty());
            }
        }
    }
    Some(cl)
}

/// Grid boundary behavior of the key flattening, for a grid of `nx`, `ny`
/// and `nz` cells along the axes. A point on the lower box corner has grid
/// coordinate `(0, 0, 0)` and flattens to key `0`; a point exactly on the
/// upper box corner, whose per-axis index is the full axis cell count, gets
/// the strictly largest key of any in-box point, colliding with no other
/// grid coordinate; and every properly interior coordinate keeps a key
/// below `nx * ny * nz`.
pub proof fn lemma_boundary_keys(nx: usize, ny: usize, nz: usize)
    requires
        1 <= nx,
        1 <= ny,
        1 <= nz,
    ensures
        flat_key(GridCoord { ix: 0, iy: 0, iz: 0 }, nx, ny) == 0,
        flat_key(GridCoord { ix: nx, iy: ny, iz: nz }, nx, ny)
            == nx + ny * nx + nz * nx * ny,
        forall|c: GridCoord| c.ix <= nx && c.iy <= ny && c.iz <= nz
            ==> 0 <= #[trigger] flat_key(c, nx, ny) <= nx + ny * nx + nz * nx * ny,
        forall|c: GridCoord| c.ix <= nx && c.iy <= ny && c.iz <= nz
            && #[trigger] flat_key(c, nx, ny) == 0
            ==> c.ix == 0 && c.iy == 0 && c.iz == 0,
        forall|c: GridCoord| c.ix <= nx && c.iy <= ny && c.iz <= nz
            && #[trigger] flat_key(c, nx, ny) == nx + ny * nx + nz * nx * ny
            ==> c.ix == nx && c.iy == ny && c.iz == nz,
        forall|c: GridCoord| c.ix < nx && c.iy < ny && c.iz < nz
            ==> 0 <= #[trigger] flat_key(c, nx, ny) < nx * ny * nz,
{
    assert(flat_key(GridCoord { ix: 0, iy: 0, iz: 0 }, nx, ny) == 0) by (nonlinear_arith);
    assert forall|c: GridCoord| c.ix <= nx && c.iy <= ny && c.iz <= nz
            implies 0 <= #[trigger] flat_key(c, nx, ny) <= nx + ny * nx + nz * nx * ny by {
        assert(c.ix + c.iy * nx + c.iz * nx * ny >= 0) by (nonlinear_arith);
        assert(c.iy * nx <= ny * nx && c.iz * nx * ny <= nz * nx * ny) by (nonlinear_arith)
            requires c.iy <= ny, c.iz <= nz, nx >= 0, ny >= 0;
    }
    assert forall|c: GridCoord| c.ix <= nx && c.iy <= ny && c.iz <= nz
            && #[trigger] flat_key(c, nx, ny) == 0
            implies c.ix == 0 && c.iy == 0 && c.iz == 0 by {
        assert(c.ix == 0 && c.iy * nx == 0 && c.iz * nx * ny == 0) by (nonlinear_arith)
            requires c.ix + c.iy * nx + c.iz * nx * ny == 0;
        assert(c.iy == 0 && c.iz == 0) by (nonlinear_arith)
            requires c.iy * nx == 0, c.iz * nx * ny == 0, nx >= 1, ny >= 1;
    }
    assert forall|c: GridCoord| c.ix <= nx && c.iy <= ny && c.iz <= nz
            && #[trigger] flat_key(c, nx, ny) == nx + ny * nx + nz * nx * ny
            implies c.ix == nx && c.iy == ny && c.iz == nz by {
        if c.iz < nz {
            assert(c.ix + c.iy * nx + c.iz * nx * ny < nx + ny * nx + nz * nx * ny)
                by (nonlinear_arith)
                requires c.ix <= nx, c.iy <= ny, c.iz <= nz - 1, nx >= 1, ny >= 1;
        } else if c.iy < ny {
            assert(c.ix + c.iy * nx + c.iz * nx * ny < nx + ny * nx + nz * nx * ny)
                by (nonlinear_arith)
                requires c.ix <= nx, c.iy <= ny - 1, c.iz == nz, nx >= 1, ny >= 1;
        } else {
            assert(c.ix == nx) by (nonlinear_arith)
                requires
                    c.ix + c.iy * nx + c.iz * nx * ny == nx + ny * nx + nz * nx * ny,
                    c.iy == ny,
                    c.iz == nz;
        }
    }
    assert forall|c: GridCoord| c.ix < nx && c.iy < ny && c.iz < nz
            implies 0 <= #[trigger] flat_key(c, nx, ny) < nx * ny * nz by {
        assert(c.ix + c.iy * nx + c.iz * nx * ny >= 0) by (nonlinear_arith);
        assert(c.ix + c.iy * nx + c.iz * nx * ny
                <= (nx - 1) + (ny - 1) * nx + (nz - 1) * nx * ny) by (nonlinear_arith)
            requires c.ix <= nx - 1, c.iy <= ny - 1, c.iz <= nz - 1, nx >= 1, ny >= 1;
        assert((nx - 1) + (ny - 1) * nx + (nz - 1) * nx * ny < nx * ny * nz)
            by (nonlinear_arith)
            requires nx >= 1, ny >= 1, nz >= 1;
    }
}

} // verus!
