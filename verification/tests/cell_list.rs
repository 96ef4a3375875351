use cell_lists::cell_list::{CapacityError, CellList};

fn collect_cell(cl: &CellList, cell: usize) -> Option<Vec<usize>> {
    let mut iter = cl.iter_cell_items(cell)?;
    let mut out = Vec::new();
    while let Some(id) = iter.next() {
        out.push(id);
    }
    Some(out)
}

#[test]
fn test_cell_list_get_unwrap() {
    let v = vec![9, 9, 8, 1, 1, 1, 2, 2, 2, 3, 4, 5];
    let mut cl = CellList::new();
    for (i, x) in v.iter().enumerate() {
        cl.push(x / 2usize, i).unwrap();
    }
    let mut iter = cl.iter_cell_items(1).unwrap();
    while let Some(i) = iter.next() {
        let _ = (&i, v[i]);
    }
}

#[test]
fn test_saving_inc() {
    let cell = 1;
    let mut cl = CellList::new();
    let r = 0..100;
    for i in r.clone() {
        cl.push(cell, i).unwrap();
    }
    let mut r = r;
    let mut iter = cl.iter_cell_items(cell).unwrap();
    while let Some(val) = iter.next() {
        assert_eq!(r.next_back().unwrap(), val);
    }
}

#[test]
fn test_saving_dec() {
    let mut cl = CellList::new();
    let r = 0..100;
    for i in r.clone().rev() {
        cl.push(i / 50, i).unwrap();
    }
    let mut r = 50..100;
    let mut iter = cl.iter_cell_items(1).unwrap();
    while let Some(val) = iter.next() {
        assert_eq!(r.next().unwrap(), val);
    }
}

#[test]
#[should_panic]
fn test_push_size() {
    let mut cl = CellList::new();
    cl.push(0, usize::MAX).unwrap();
}

#[test]
fn test_reverse_insertion_order() {
    let mut cl = CellList::new();
    cl.push(4, 10).unwrap();
    cl.push(7, 11).unwrap();
    cl.push(4, 0).unwrap();
    cl.push(4, 25).unwrap();
    cl.push(7, 1).unwrap();
    assert_eq!(collect_cell(&cl, 4).unwrap(), vec![25, 0, 10]);
    assert_eq!(collect_cell(&cl, 7).unwrap(), vec![1, 11]);
}

#[test]
fn test_cells_disjoint_and_complete() {
    let mut cl = CellList::new();
    let mut pushed = Vec::new();
    for i in 0..60 {
        cl.push(i % 7, i).unwrap();
        pushed.push(i);
    }
    let mut seen = Vec::new();
    for &k in cl.cell_keys() {
        let ids = collect_cell(&cl, k).unwrap();
        for id in ids {
            assert!(!seen.contains(&id), "identifier in two cells");
            seen.push(id);
        }
    }
    seen.sort();
    assert_eq!(seen, pushed);
}

#[test]
fn test_absent_cell_is_none() {
    let mut cl = CellList::new();
    assert!(cl.iter_cell_items(0).is_none());
    cl.push(3, 0).unwrap();
    cl.push(5, 1).unwrap();
    assert!(cl.iter_cell_items(0).is_none());
    assert!(cl.iter_cell_items(4).is_none());
    assert!(cl.iter_cell_items(usize::MAX).is_none());
    assert!(cl.iter_cell_items(3).is_some());
}

#[test]
fn test_repeated_read_is_identical() {
    let mut cl = CellList::new();
    for i in 0..20 {
        cl.push(i % 3, i).unwrap();
    }
    for k in 0..3 {
        let first = collect_cell(&cl, k).unwrap();
        let second = collect_cell(&cl, k).unwrap();
        assert_eq!(first, second);
    }
    assert_eq!(collect_cell(&cl, 9), None);
    assert_eq!(collect_cell(&cl, 9), None);
}

#[test]
fn test_capacity_error() {
    let mut cl = CellList::new();
    cl.push(2, 6).unwrap();
    assert_eq!(cl.push(0, usize::MAX), Err(CapacityError));
    assert_eq!(cl.push(3, usize::MAX - 1), Err(CapacityError));
    // A failed push leaves the index unchanged.
    assert_eq!(collect_cell(&cl, 2).unwrap(), vec![6]);
    assert!(cl.iter_cell_items(0).is_none());
    assert!(cl.iter_cell_items(3).is_none());
}

#[test]
fn test_cell_keys_are_the_pushed_cells() {
    let mut cl = CellList::new();
    for i in 0..30 {
        cl.push((i * i) % 5, i).unwrap();
    }
    let mut keys = cl.cell_keys().clone();
    keys.sort();
    assert_eq!(keys, vec![0, 1, 4]);
}

#[test]
fn test_default_is_empty() {
    let cl = CellList::default();
    assert!(cl.iter_cell_items(0).is_none());
    assert!(cl.cell_keys().is_empty());
}
