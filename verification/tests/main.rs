use exgrid::{compose, decompose, ExGrid, ExGridSparse, GlobalPos};

/// A fixed spread of global positions with both axes in the `i32` range,
/// covering the extremes, zero crossings and ordinary values.
fn sample_positions() -> Vec<GlobalPos> {
    let axis_values: [i64; 9] = [
        i32::MIN as i64,
        i32::MIN as i64 + 1,
        -65_537,
        -17,
        -1,
        0,
        1,
        4_096,
        i32::MAX as i64,
    ];
    let mut out = Vec::new();
    for &x in axis_values.iter() {
        for &y in axis_values.iter() {
            out.push(GlobalPos::new(x, y));
        }
    }
    out
}

fn sample_elements() -> Vec<(GlobalPos, u32)> {
    sample_positions()
        .into_iter()
        .enumerate()
        .map(|(i, pos)| (pos, 0x9e37_79b9u32.wrapping_mul(i as u32 + 1)))
        .collect()
}

#[test]
fn test_translate() {
    for extent in 2..=16usize {
        for pos in sample_positions() {
            let (chunk, local) = decompose(extent, pos);
            let back = compose(extent, chunk, local);
            assert_eq!(pos, back);
        }
    }
}

fn build_dense(extent: usize) -> ExGrid<u32> {
    let mut grid = ExGrid::<u32>::new(extent);
    for (pos, value) in sample_elements() {
        grid.insert_default(pos, value, 0);
        assert_eq!(grid.get(pos), Some(value));
    }
    grid
}

#[test]
fn test_grid_basics() {
    for extent in 2..=16usize {
        let grid = build_dense(extent);

        for (pos, value) in grid.cells() {
            assert_eq!(grid.get(pos), Some(value), "{pos:?}");
        }

        for (pos, value) in grid.clone().into_cells() {
            assert_eq!(grid.get(pos), Some(value), "{pos:?}");
        }
    }
}

fn build_sparse(extent: usize) -> ExGridSparse<u32> {
    let mut grid = ExGridSparse::<u32>::new(extent);
    for (pos, value) in sample_elements() {
        grid.insert(pos, value);
        assert_eq!(grid.get(pos), Some(value));
    }
    grid
}

#[test]
fn test_grid_sparse_basics() {
    for extent in 2..=16usize {
        let grid = build_sparse(extent);

        for (pos, value) in grid.cells() {
            assert_eq!(grid.get(pos), Some(value), "{pos:?}");
        }

        for (pos, value) in grid.clone().into_cells() {
            assert_eq!(grid.get(pos), Some(value), "{pos:?}");
        }
    }
}
