use bevy_voxel::{Grid, IVec3};

#[test]
fn grid_new_is_empty() {
    let g: Grid<u8> = Grid::new();
    assert_eq!(g.len(), 0);
    assert_eq!(g.count(), 0);
    assert_eq!(g.get(IVec3::new(0, 0, 0)), None);
    assert!(g.chunks().is_empty());
}

#[test]
fn grid_get_after_set() {
    let mut g: Grid<u8> = Grid::new();
    g.set(IVec3::new(-1, 5, 20), 7);
    assert_eq!(g.get(IVec3::new(-1, 5, 20)), Some(&7));
    // Same chunk: allocated with the default value.
    assert_eq!(g.get(IVec3::new(-16, 0, 16)), Some(&0));
    assert_eq!(g.get(IVec3::new(-2, 5, 20)), Some(&0));
    // Neighbouring chunk: not loaded.
    assert_eq!(g.get(IVec3::new(0, 5, 20)), None);
    assert_eq!(g.get(IVec3::new(-1, 5, 32)), None);
    assert_eq!(g.len(), 1);
}

#[test]
fn grid_set_allocates_chunk_once() {
    let mut g: Grid<u8> = Grid::new();
    g.set(IVec3::new(1, 2, 3), 1);
    g.set(IVec3::new(4, 5, 6), 2);
    assert_eq!(g.len(), 1);
    g.set(IVec3::new(16, 2, 3), 3);
    assert_eq!(g.len(), 2);
    assert!(g.contains_chunk(IVec3::new(0, 0, 0)));
    assert!(g.contains_chunk(IVec3::new(1, 0, 0)));
    assert!(!g.contains_chunk(IVec3::new(-1, 0, 0)));
    assert_eq!(g.take_new_chunks(), vec![IVec3::new(0, 0, 0), IVec3::new(1, 0, 0)]);
    assert!(g.take_new_chunks().is_empty());
    g.set(IVec3::new(17, 2, 3), 4);
    assert!(g.take_new_chunks().is_empty());
}

#[test]
fn grid_overwrite_keeps_last_value() {
    let mut g: Grid<u32> = Grid::new();
    let p = IVec3::new(100, -200, 300);
    g.set(p, 5);
    g.set(p, 6);
    assert_eq!(g.get(p), Some(&6));
}

#[test]
fn grid_count_non_default() {
    let mut g: Grid<u8> = Grid::new();
    g.set(IVec3::new(0, 0, 0), 1);
    assert_eq!(g.count(), 1);
    g.set(IVec3::new(1, 0, 0), 2);
    assert_eq!(g.count(), 2);
    g.set(IVec3::new(1, 0, 0), 3);
    assert_eq!(g.count(), 2);
    g.set(IVec3::new(-1, -1, -1), 4);
    assert_eq!(g.count(), 3);
    g.set(IVec3::new(0, 0, 0), 0);
    assert_eq!(g.count(), 2);
    // Writing the default value into an unloaded chunk allocates it but
    // adds no non-default cell.
    g.set(IVec3::new(1000, 0, 0), 0);
    assert_eq!(g.count(), 2);
    assert_eq!(g.len(), 3);
}

#[test]
fn grid_get_mut_writes_through() {
    let mut g: Grid<u8> = Grid::new();
    assert!(g.get_mut(IVec3::new(3, 3, 3)).is_none());
    g.set(IVec3::new(3, 3, 3), 1);
    *g.get_mut(IVec3::new(4, 3, 3)).unwrap() = 9;
    assert_eq!(g.get(IVec3::new(4, 3, 3)), Some(&9));
    assert_eq!(g.get(IVec3::new(3, 3, 3)), Some(&1));
    assert_eq!(g.count(), 2);
}

#[test]
fn grid_get_chunk_and_chunks() {
    let mut g: Grid<u8> = Grid::new();
    g.set(IVec3::new(-17, 0, 0), 5);
    g.set(IVec3::new(40, 0, 0), 6);
    let c = g.get_chunk(IVec3::new(-2, 0, 0)).unwrap();
    assert_eq!(c.get(IVec3::new(15, 0, 0)), Some(&5));
    assert!(g.get_chunk(IVec3::new(-1, 0, 0)).is_none());
    let all = g.chunks();
    assert_eq!(all.len(), 2);
    let mut coords: Vec<IVec3> = all.iter().map(|(c, _)| *c).collect();
    coords.sort_by_key(|c| c.x);
    assert_eq!(coords, vec![IVec3::new(-2, 0, 0), IVec3::new(2, 0, 0)]);
    for (coord, chunk) in all {
        let local = if coord.x < 0 { IVec3::new(15, 0, 0) } else { IVec3::new(8, 0, 0) };
        let expected = if coord.x < 0 { 5 } else { 6 };
        assert_eq!(chunk.get(local), Some(&expected));
    }
}

#[test]
fn grid_extreme_coordinates() {
    let mut g: Grid<i8> = Grid::new();
    let lo = IVec3::new(i32::MIN, i32::MIN, i32::MIN);
    let hi = IVec3::new(i32::MAX, i32::MAX, i32::MAX);
    g.set(lo, -1);
    g.set(hi, 1);
    assert_eq!(g.get(lo), Some(&-1));
    assert_eq!(g.get(hi), Some(&1));
    assert!(g.contains_chunk(IVec3::splat(-134217728)));
    assert!(g.contains_chunk(IVec3::splat(134217727)));
    assert_eq!(g.count(), 2);
}

#[test]
fn grid_count_after_write_changes_by_at_most_one() {
    let mut g: Grid<u8> = Grid::new();
    let p = IVec3::new(-5, 40, 7);
    // Unloaded chunk, non-default value: +1.
    let n0 = g.count();
    g.set(p, 3);
    assert_eq!(g.count(), n0 + 1);
    // Non-default to non-default: unchanged.
    g.set(p, 4);
    assert_eq!(g.count(), n0 + 1);
    // Non-default to default: -1.
    g.set(p, 0);
    assert_eq!(g.count(), n0);
    // Default to default in a loaded chunk: unchanged.
    g.set(IVec3::new(-6, 40, 7), 0);
    assert_eq!(g.count(), n0);
    // Two counts of the same grid agree.
    assert_eq!(g.count(), g.count());
}
