use cell_lists::cell_list::CellList;
use cell_lists::grid::{build_cell_index, flatten_cell_key, GridCoord};

fn collect_cell(cl: &CellList, cell: usize) -> Option<Vec<usize>> {
    let mut iter = cl.iter_cell_items(cell)?;
    let mut out = Vec::new();
    while let Some(id) = iter.next() {
        out.push(id);
    }
    Some(out)
}

/// The uniform-grid binning of one coordinate: cell index on one axis.
fn axis_index(coord: f64, lo: f64, side: f64) -> usize {
    ((coord - lo) / side).floor() as usize
}

/// Cells per axis for a box spanning `lo..hi` with the given cell side.
fn axis_cells(lo: f64, hi: f64, side: f64) -> usize {
    ((hi - lo) / side).ceil() as usize
}

fn bin_points(points: &[[f64; 3]], min: [f64; 3], side: f64) -> Vec<GridCoord> {
    points
        .iter()
        .map(|p| GridCoord {
            ix: axis_index(p[0], min[0], side),
            iy: axis_index(p[1], min[1], side),
            iz: axis_index(p[2], min[2], side),
        })
        .collect()
}

#[test]
fn test_flatten_exact() {
    assert_eq!(
        flatten_cell_key(GridCoord { ix: 1, iy: 2, iz: 3 }, 4, 5),
        Some(1 + 2 * 4 + 3 * 4 * 5)
    );
    assert_eq!(flatten_cell_key(GridCoord { ix: 0, iy: 0, iz: 0 }, 9, 9), Some(0));
    // A zero-cell axis collapses the z term entirely.
    assert_eq!(flatten_cell_key(GridCoord { ix: 2, iy: 0, iz: 5 }, 3, 0), Some(2));
}

#[test]
fn test_flatten_overflow() {
    assert_eq!(flatten_cell_key(GridCoord { ix: 0, iy: usize::MAX, iz: 0 }, 2, 2), None);
    assert_eq!(flatten_cell_key(GridCoord { ix: usize::MAX, iy: 1, iz: 0 }, 1, 1), None);
    let big = 1usize << (usize::BITS / 2);
    assert_eq!(flatten_cell_key(GridCoord { ix: 0, iy: 0, iz: 1 }, big, big), None);
}

#[test]
fn test_build_rejects_overflowing_key() {
    let coords = vec![
        GridCoord { ix: 0, iy: 0, iz: 0 },
        GridCoord { ix: 0, iy: usize::MAX, iz: 0 },
    ];
    assert!(build_cell_index(&coords, 2, 2).is_none());
}

#[test]
fn test_binning_boundary() {
    // An 8 x 8 x 8 box cut into cells of side 4: the side ratio is exactly
    // integral, so each axis has two cells and the box corners are the
    // extreme grid coordinates.
    let min = [0.0, 0.0, 0.0];
    let max = [8.0, 8.0, 8.0];
    let side = 4.0f64;
    let nx = axis_cells(min[0], max[0], side);
    let ny = axis_cells(min[1], max[1], side);
    assert_eq!((nx, ny), (2, 2));

    let points = [min, max, [5.0, 5.0, 5.0], [1.0, 6.0, 3.0]];
    let coords = bin_points(&points, min, side);
    assert_eq!(coords[0], GridCoord { ix: 0, iy: 0, iz: 0 });
    assert_eq!(coords[1], GridCoord { ix: 2, iy: 2, iz: 2 });

    let keys: Vec<usize> = coords
        .iter()
        .map(|&c| flatten_cell_key(c, nx, ny).unwrap())
        .collect();
    // The point on the lower corner takes cell key 0, the point on the upper
    // corner the largest key of all; neither collides with interior points.
    assert_eq!(keys[0], 0);
    assert_eq!(keys[1], 2 + 2 * 2 + 2 * 2 * 2);
    assert!(keys[2] > keys[0] && keys[2] < keys[1]);
    assert!(keys[3] > keys[0] && keys[3] < keys[1]);
    // Properly interior points stay below the nominal cell count.
    assert!(keys[2] < 8 && keys[3] < 8);

    let cl = build_cell_index(&coords, nx, ny).unwrap();
    assert_eq!(collect_cell(&cl, 0).unwrap(), vec![0]);
    assert_eq!(collect_cell(&cl, 14).unwrap(), vec![1]);
}

#[test]
fn test_points_end_to_end() {
    let points = [
        [2.0f64, 2.0, 1.0],
        [2.0, 8.0, 1.0],
        [5.0, 5.0, 1.0],
        [5.0, 5.0, -1.0],
        [6.0, 3.0, -1.0],
        [6.0, 7.0, 0.0],
        [7.0, 4.0, 0.0],
        [7.0, 9.0, 0.0],
    ];
    let mut min = points[0];
    let mut max = points[0];
    for p in &points {
        for i in 0..3 {
            min[i] = min[i].min(p[i]);
            max[i] = max[i].max(p[i]);
        }
    }
    let side = 4.0f64;
    let nx = axis_cells(min[0], max[0], side);
    let ny = axis_cells(min[1], max[1], side);
    assert_eq!((nx, ny), (2, 2));

    let coords = bin_points(&points, min, side);
    let cl = build_cell_index(&coords, nx, ny).unwrap();

    // The cell holding (5,5,1) and (5,5,-1) also holds (2,2,1): all three
    // sit in the grid cell at the box's low corner. Most recently inserted
    // comes first.
    let key_55 = flatten_cell_key(coords[2], nx, ny).unwrap();
    assert_eq!(key_55, 0);
    assert_eq!(collect_cell(&cl, key_55).unwrap(), vec![3, 2, 0]);

    // The cell of (2,8,1) holds only that point.
    let key_28 = flatten_cell_key(coords[1], nx, ny).unwrap();
    assert_eq!(key_28, 2);
    assert_eq!(collect_cell(&cl, key_28).unwrap(), vec![1]);

    // A cell key with no member points gives the absent result.
    assert!(cl.iter_cell_items(7).is_none());

    // Every point lands in exactly one cell.
    let mut seen = Vec::new();
    for &k in cl.cell_keys() {
        seen.extend(collect_cell(&cl, k).unwrap());
    }
    seen.sort();
    assert_eq!(seen, (0..points.len()).collect::<Vec<usize>>());
}
