use exgrid::{
    compose, decompose, Chunk, ChunkPos, ChunkSparse, ExGrid, ExGridSparse, Expansion,
    Expansion4, Expansion8, GlobalPos, LocalPos,
};
use exgrid::automata::{targets_with_center, CopyRule, GrowthRule};

#[test]
fn test_decompose_scenario() {
    let (chunk, local) = decompose(4, GlobalPos::new(-1, -1));
    assert_eq!(chunk, ChunkPos::new(-1, -1));
    assert_eq!(local, LocalPos::new(3, 3));
    assert_eq!(compose(4, chunk, local), GlobalPos::new(-1, -1));
}

#[test]
fn test_decompose_positive() {
    let (chunk, local) = decompose(4, GlobalPos::new(9, 2));
    assert_eq!(chunk, ChunkPos::new(2, 0));
    assert_eq!(local, LocalPos::new(1, 2));
    assert_eq!(compose(4, chunk, local), GlobalPos::new(9, 2));
}

#[test]
fn test_write_read_distinct() {
    let mut grid = ExGrid::<u32>::new(5);
    let writes = [
        (GlobalPos::new(0, 0), 10),
        (GlobalPos::new(-1, -1), 20),
        (GlobalPos::new(4, 4), 30),
        (GlobalPos::new(5, 0), 40),
        (GlobalPos::new(-100, 250), 50),
    ];
    for &(pos, value) in writes.iter() {
        let prev = grid.insert_default(pos, value, 0);
        assert_eq!(prev, 0);
    }
    for &(pos, value) in writes.iter() {
        assert_eq!(grid.get(pos), Some(value));
    }
    // Overwriting returns the previous value and replaces it.
    let prev = grid.insert_default(GlobalPos::new(0, 0), 11, 0);
    assert_eq!(prev, 10);
    assert_eq!(grid.get(GlobalPos::new(0, 0)), Some(11));
    // Another cell of a touched chunk reads as the fill value.
    assert_eq!(grid.get(GlobalPos::new(1, 0)), Some(0));
}

#[test]
fn test_read_through_no_alloc() {
    let mut dense = ExGrid::<u32>::new(4);
    dense.insert_default(GlobalPos::new(0, 0), 7, 0);
    let count = dense.chunks_count();
    // A position in an untouched region reads as the default without
    // allocating a chunk.
    assert_eq!(dense.get(GlobalPos::new(1000, 1000)), None);
    assert_eq!(dense.get_or(GlobalPos::new(1000, 1000), 42), 42);
    assert_eq!(dense.chunks_count(), count);

    let mut sparse = ExGridSparse::<u32>::new(4);
    sparse.insert(GlobalPos::new(0, 0), 7);
    let count = sparse.chunks_count();
    assert_eq!(sparse.get(GlobalPos::new(1000, 1000)), None);
    assert_eq!(sparse.chunks_count(), count);
}

#[test]
fn test_get_mut_default_allocates() {
    let mut dense = ExGrid::<u32>::new(4);
    assert_eq!(dense.chunks_count(), 0);
    let v = dense.get_mut_default(GlobalPos::new(3, 3), 9);
    assert_eq!(v, 9);
    assert_eq!(dense.chunks_count(), 1);
    assert_eq!(dense.get(GlobalPos::new(3, 3)), Some(9));
    // The whole chunk was filled with the fill value.
    assert_eq!(dense.get(GlobalPos::new(0, 0)), Some(9));

    let mut sparse = ExGridSparse::<u32>::new(4);
    let v = sparse.get_mut_default(GlobalPos::new(3, 3));
    assert_eq!(v, None);
    assert_eq!(sparse.chunks_count(), 1);
    // Materializing a vacant chunk changes no cell value.
    assert_eq!(sparse.get(GlobalPos::new(3, 3)), None);
}

#[test]
fn test_iteration_completeness() {
    let mut grid = ExGridSparse::<u32>::new(3);
    let mut expected = vec![
        (GlobalPos::new(0, 0), 1),
        (GlobalPos::new(-1, -1), 2),
        (GlobalPos::new(2, 2), 3),
        (GlobalPos::new(3, 0), 4),
        (GlobalPos::new(-7, 11), 5),
        (GlobalPos::new(100, -100), 6),
    ];
    for &(pos, value) in expected.iter() {
        grid.insert(pos, value);
    }
    let mut got = grid.cells();
    let key = |p: &(GlobalPos, u32)| (p.0.x, p.0.y);
    got.sort_by_key(key);
    expected.sort_by_key(key);
    assert_eq!(got, expected);

    let mut values = grid.iter();
    values.sort();
    assert_eq!(values, vec![1, 2, 3, 4, 5, 6]);
}

#[test]
fn test_copy_rule_step_identity() {
    let mut grid = ExGrid::<u32>::new(4);
    grid.insert_default(GlobalPos::new(0, 0), 1, 0);
    grid.insert_default(GlobalPos::new(-1, -5), 2, 0);
    grid.insert_default(GlobalPos::new(7, 3), 3, 0);

    let mut before = Vec::new();
    for x in -12..12i64 {
        for y in -12..12i64 {
            before.push(grid.get_or(GlobalPos::new(x, y), 0));
        }
    }

    let mut rule = CopyRule { fill: 0 };
    grid.step(&mut rule);

    let mut after = Vec::new();
    for x in -12..12i64 {
        for y in -12..12i64 {
            after.push(grid.get_or(GlobalPos::new(x, y), 0));
        }
    }
    assert_eq!(before, after);
    // Expansion materialized the cardinal neighbors of each touched chunk.
    assert!(grid.contains_chunk(ChunkPos::new(1, 0)));
}

#[test]
fn test_step_scratch_holds_previous() {
    let mut grid = ExGridSparse::<u32>::new(4);
    grid.insert(GlobalPos::new(1, 1), 5);
    let mut scratch = ExGridSparse::<u32>::new(4);
    let mut rule = GrowthRule { steps: 0 };
    grid.step_scratch(&mut scratch, &mut rule);
    // The scratch grid now holds the previous generation.
    assert_eq!(scratch.chunks_count(), 1);
    assert_eq!(scratch.get(GlobalPos::new(1, 1)), Some(5));
    // The live grid carries the value forward (copy simulation).
    assert_eq!(grid.get(GlobalPos::new(1, 1)), Some(5));
    assert_eq!(rule.steps, 1);
}

#[test]
fn test_expansion_growth_north() {
    let mut grid = ExGridSparse::<u32>::new(4);
    // An occupied cell on the north edge of chunk (0, 0).
    grid.insert(GlobalPos::new(1, 0), 9);
    assert!(!grid.contains_chunk(ChunkPos::new(0, -1)));
    let mut rule = GrowthRule { steps: 0 };
    grid.step(&mut rule);
    assert!(grid.contains_chunk(ChunkPos::new(0, -1)));
    // The cell value itself survives the copy simulation.
    assert_eq!(grid.get(GlobalPos::new(1, 0)), Some(9));
    // No growth to the south: that edge is vacant.
    assert!(!grid.contains_chunk(ChunkPos::new(0, 1)));
}

#[test]
fn test_expansion_upgrade() {
    let four = Expansion4 { n: true, e: true, s: false, w: false };
    let eight = Expansion8::from(four);
    assert!(eight.nn);
    assert!(eight.ee);
    assert!(eight.ne);
    assert!(!eight.se);
    assert!(!eight.sw);
    assert!(!eight.nw);
    assert!(!eight.ss);
    assert!(!eight.ww);
}

#[test]
fn test_expansion_targets() {
    let four = Expansion4 { n: true, e: false, s: true, w: false };
    let origin = ChunkPos::new(2, 3);
    let ts = four.targets(origin);
    assert_eq!(ts, vec![ChunkPos::new(2, 2), ChunkPos::new(2, 4)]);

    let all = Expansion8 {
        nn: true,
        ne: true,
        ee: true,
        se: true,
        ss: true,
        sw: true,
        ww: true,
        nw: true,
    };
    assert_eq!(all.targets(origin).len(), 8);

    let with_center = targets_with_center(four, origin);
    assert_eq!(
        with_center,
        vec![ChunkPos::new(2, 3), ChunkPos::new(2, 2), ChunkPos::new(2, 4)]
    );
}

#[test]
fn test_edges_expansion() {
    let mut chunk = ChunkSparse::<u32>::new(4);
    assert_eq!(
        chunk.edges_not_empty_expansion(),
        Expansion4 { n: false, s: false, e: false, w: false }
    );
    chunk.set(LocalPos::new(2, 0), Some(1));
    let edges = chunk.edges_not_empty_expansion();
    assert_eq!(edges, Expansion4 { n: true, s: false, e: false, w: false });
    chunk.set(LocalPos::new(3, 3), Some(1));
    let edges = chunk.edges_not_empty_expansion();
    assert_eq!(edges, Expansion4 { n: true, s: true, e: true, w: false });
}

#[test]
fn test_bounds() {
    let mut grid = ExGrid::<u32>::new(4);
    assert_eq!(grid.chunks_bounds(), None);
    assert_eq!(grid.bounds(), None);
    grid.insert_default(GlobalPos::new(-1, -1), 1, 0);
    grid.insert_default(GlobalPos::new(5, 2), 2, 0);
    assert_eq!(
        grid.chunks_bounds(),
        Some((ChunkPos::new(-1, -1), ChunkPos::new(1, 0)))
    );
    assert_eq!(
        grid.bounds(),
        Some((GlobalPos::new(-4, -4), GlobalPos::new(7, 3)))
    );
}

#[test]
fn test_naive_bounds_sparse() {
    let mut grid = ExGridSparse::<u32>::new(4);
    assert_eq!(grid.naive_bounds(), None);
    grid.insert(GlobalPos::new(0, 0), 1);
    // Conservative: the box covers the whole chunk although only one cell is
    // occupied.
    assert_eq!(
        grid.naive_bounds(),
        Some((GlobalPos::new(0, 0), GlobalPos::new(3, 3)))
    );
}

#[test]
fn test_clean_up() {
    let mut grid = ExGridSparse::<u32>::new(4);
    grid.insert(GlobalPos::new(0, 0), 1);
    // Materialize a second, fully vacant chunk.
    grid.get_mut_default(GlobalPos::new(100, 100));
    assert_eq!(grid.chunks_count(), 2);
    grid.clean_up();
    assert_eq!(grid.chunks_count(), 1);
    assert_eq!(grid.get(GlobalPos::new(0, 0)), Some(1));
}

#[test]
fn test_dense_clean_up_rule() {
    let mut grid = ExGrid::<u32>::new(4);
    grid.insert_default(GlobalPos::new(0, 0), 1, 0);
    grid.get_mut_default(GlobalPos::new(100, 100), 0);
    assert_eq!(grid.chunks_count(), 2);
    let rule = CopyRule { fill: 0 };
    grid.clean_up(&rule);
    // The all-zero chunk counts as empty under the rule and is removed.
    assert_eq!(grid.chunks_count(), 1);
    assert_eq!(grid.get(GlobalPos::new(0, 0)), Some(1));
}

#[test]
fn test_chunk_basics() {
    let mut chunk = Chunk::<u32>::new(3, 7);
    assert_eq!(chunk.extent(), 3);
    assert_eq!(chunk.len(), 9);
    assert_eq!(*chunk.get(LocalPos::new(2, 1)), 7);
    chunk.set(LocalPos::new(2, 1), 42);
    assert_eq!(*chunk.get(LocalPos::new(2, 1)), 42);
    assert_eq!(*chunk.get(LocalPos::new(1, 2)), 7);
    assert_eq!(chunk.to_vec(), vec![7, 7, 7, 7, 7, 42, 7, 7, 7]);
    assert_eq!(chunk.iter(), chunk.to_vec());
}

#[test]
fn test_chunk_init_map() {
    let chunk = Chunk::<u32>::init(3, |l: LocalPos| (l.y * 3 + l.x) as u32);
    assert_eq!(chunk.to_vec(), vec![0, 1, 2, 3, 4, 5, 6, 7, 8]);
    let doubled = chunk.map(|v: u32| v * 2);
    assert_eq!(doubled.to_vec(), vec![0, 2, 4, 6, 8, 10, 12, 14, 16]);
    let cells = chunk.cells();
    assert_eq!(cells.len(), 9);
    assert_eq!(cells[5], (LocalPos::new(2, 1), 5));
    assert_eq!(chunk.into_cells()[7], (LocalPos::new(1, 2), 7));
}

#[test]
fn test_chunk_slices() {
    let chunk = Chunk::<u32>::init(3, |l: LocalPos| (l.y * 3 + l.x) as u32);
    assert_eq!(chunk.horizontal_slice(1), vec![3, 4, 5]);
    assert_eq!(chunk.vertical_slice(2), vec![2, 5, 8]);
}

#[test]
fn test_sparse_chunk_occupancy() {
    let mut chunk = ChunkSparse::<u32>::new(2);
    assert!(chunk.is_all_vacant());
    assert!(chunk.is_vacant());
    assert!(!chunk.is_all_occupied());
    chunk.set(LocalPos::new(0, 1), Some(5));
    assert!(!chunk.is_all_vacant());
    assert!(!chunk.is_all_occupied());
    chunk.set(LocalPos::new(0, 0), Some(1));
    chunk.set(LocalPos::new(1, 0), Some(2));
    chunk.set(LocalPos::new(1, 1), Some(3));
    assert!(chunk.is_all_occupied());
    assert_eq!(chunk.get(LocalPos::new(0, 1)), &Some(5));
}

#[test]
fn test_sparse_iter_cells() {
    let mut chunk = ChunkSparse::<u32>::new(3);
    chunk.set(LocalPos::new(1, 0), Some(10));
    chunk.set(LocalPos::new(0, 2), Some(20));
    assert_eq!(chunk.iter(), vec![10, 20]);
    assert_eq!(
        chunk.cells(),
        vec![(LocalPos::new(1, 0), 10), (LocalPos::new(0, 2), 20)]
    );
    let pairs = chunk.cells();
    let dense = chunk.map_dense(|slot: Option<u32>| slot.unwrap_or(0));
    assert_eq!(dense.to_vec(), vec![0, 10, 0, 0, 0, 0, 20, 0, 0]);
    let scaled = chunk.map_sparse(|v: u32| v * 3);
    assert_eq!(scaled.iter(), vec![30, 60]);
    assert_eq!(chunk.into_cells(), pairs);
}

#[test]
fn test_get_or_insert_default() {
    let mut grid = ExGridSparse::<u32>::new(4);
    assert_eq!(grid.get_or_insert_default(GlobalPos::new(2, 2), 8), 8);
    assert_eq!(grid.get(GlobalPos::new(2, 2)), Some(8));
    // The second call finds the stored value and does not replace it.
    assert_eq!(grid.get_or_insert_default(GlobalPos::new(2, 2), 99), 8);
    assert_eq!(grid.get(GlobalPos::new(2, 2)), Some(8));
}

#[test]
fn test_set_without_allocation() {
    let mut dense = ExGrid::<u32>::new(4);
    // No chunk yet: the write is refused and nothing is allocated.
    assert!(!dense.set(GlobalPos::new(0, 0), 5));
    assert_eq!(dense.chunks_count(), 0);
    dense.insert_default(GlobalPos::new(0, 0), 1, 0);
    assert!(dense.set(GlobalPos::new(1, 1), 5));
    assert_eq!(dense.get(GlobalPos::new(1, 1)), Some(5));

    let mut sparse = ExGridSparse::<u32>::new(4);
    assert!(!sparse.set(GlobalPos::new(0, 0), 5));
    assert_eq!(sparse.chunks_count(), 0);
    sparse.insert(GlobalPos::new(0, 0), 1);
    assert!(sparse.set(GlobalPos::new(1, 1), 5));
    assert_eq!(sparse.get(GlobalPos::new(1, 1)), Some(5));
}

#[test]
fn test_grid_clear_and_counts() {
    let mut grid = ExGrid::<u32>::new(3);
    grid.insert_default(GlobalPos::new(0, 0), 1, 0);
    grid.insert_default(GlobalPos::new(30, 30), 2, 0);
    assert_eq!(grid.chunks_count(), 2);
    assert_eq!(grid.cells_count(), 18);
    assert_eq!(grid.chunks().len(), 2);
    grid.clear();
    assert_eq!(grid.chunks_count(), 0);

    let mut sparse = ExGridSparse::<u32>::new(3);
    sparse.insert(GlobalPos::new(0, 0), 1);
    assert_eq!(sparse.cells_count_max(), 9);
    assert!(!sparse.is_all_vacant());
    assert!(sparse.is_all_occupied() == false);
    sparse.clear();
    assert!(sparse.is_all_vacant());
}

#[test]
fn test_get_chunk() {
    let mut grid = ExGridSparse::<u32>::new(4);
    assert!(grid.get_chunk(ChunkPos::new(0, 0)).is_none());
    grid.insert(GlobalPos::new(1, 2), 6);
    let chunk = grid.get_chunk(ChunkPos::new(0, 0)).unwrap();
    assert_eq!(chunk.get(LocalPos::new(1, 2)), &Some(6));
    let chunk = grid.get_chunk_default(ChunkPos::new(5, 5));
    assert!(chunk.is_all_vacant());
    assert_eq!(grid.chunks_count(), 2);
}

#[test]
fn test_retain() {
    let mut grid = ExGridSparse::<u32>::new(4);
    grid.insert(GlobalPos::new(0, 0), 1);
    grid.insert(GlobalPos::new(100, 100), 2);
    grid.retain(|c: ChunkPos, _chunk: &ChunkSparse<u32>| c.x == 0);
    assert_eq!(grid.chunks_count(), 1);
    assert_eq!(grid.get(GlobalPos::new(0, 0)), Some(1));
    assert_eq!(grid.get(GlobalPos::new(100, 100)), None);

    let mut dense = ExGrid::<u32>::new(4);
    dense.insert_default(GlobalPos::new(0, 0), 1, 0);
    dense.insert_default(GlobalPos::new(100, 100), 2, 0);
    dense.retain(|_c: ChunkPos, chunk: &Chunk<u32>| chunk.to_vec().contains(&2));
    assert_eq!(dense.chunks_count(), 1);
    assert_eq!(dense.get(GlobalPos::new(100, 100)), Some(2));
    assert_eq!(dense.get(GlobalPos::new(0, 0)), None);
}
