use bevy_voxel::{dims, Chunk, IVec3, CELLS, N};

#[test]
fn chunk_new_fills_every_cell() {
    let c = Chunk::new(9u8);
    for y in 0..16 {
        for z in 0..16 {
            for x in 0..16 {
                assert_eq!(c.get(IVec3::new(x, y, z)), Some(&9));
            }
        }
    }
    assert_eq!(CELLS, N * N * N);
}

#[test]
fn chunk_get_out_of_bounds_is_none() {
    let c = Chunk::new(1u8);
    assert_eq!(c.get(IVec3::new(-1, 0, 0)), None);
    assert_eq!(c.get(IVec3::new(0, -1, 0)), None);
    assert_eq!(c.get(IVec3::new(0, 0, -1)), None);
    assert_eq!(c.get(IVec3::new(16, 0, 0)), None);
    assert_eq!(c.get(IVec3::new(0, 16, 0)), None);
    assert_eq!(c.get(IVec3::new(0, 0, 16)), None);
    assert_eq!(c.get(IVec3::new(15, 15, 15)), Some(&1));
    assert_eq!(c.get(IVec3::new(0, 0, 0)), Some(&1));
}

#[test]
fn chunk_get_mut_writes_one_cell() {
    let mut c = Chunk::new(0u8);
    *c.get_mut(IVec3::new(3, 4, 5)).unwrap() = 7;
    assert_eq!(c.get(IVec3::new(3, 4, 5)), Some(&7));
    assert_eq!(c.get(IVec3::new(3, 4, 6)), Some(&0));
    assert_eq!(c.get(IVec3::new(4, 3, 5)), Some(&0));
    assert!(c.get_mut(IVec3::new(16, 4, 5)).is_none());
    assert!(c.get_mut(IVec3::new(-3, 4, 5)).is_none());
}

#[test]
fn chunk_index_and_index_mut() {
    let mut c = Chunk::new(2u16);
    *c.index_mut(IVec3::new(15, 0, 15)) = 300;
    assert_eq!(*c.index(IVec3::new(15, 0, 15)), 300);
    assert_eq!(*c.index(IVec3::new(0, 15, 0)), 2);
}

#[test]
fn ivec_euclidean_division() {
    let p = IVec3::new(-1, 17, -16);
    assert_eq!(p.div_euclid(dims()), IVec3::new(-1, 1, -1));
    assert_eq!(p.rem_euclid(dims()), IVec3::new(15, 1, 0));
    let q = IVec3::new(i32::MIN, i32::MAX, 0);
    assert_eq!(q.div_euclid(dims()), IVec3::new(-134217728, 134217727, 0));
    assert_eq!(q.rem_euclid(dims()), IVec3::new(0, 15, 0));
    let n = IVec3::new(7, -7, 7);
    let d = IVec3::new(-2, -2, 2);
    assert_eq!(n.div_euclid(d), IVec3::new(-3, 4, 3));
    assert_eq!(n.rem_euclid(d), IVec3::new(1, 1, 1));
}

#[test]
fn ivec_constructors_and_add() {
    assert_eq!(IVec3::splat(4), IVec3::new(4, 4, 4));
    assert_eq!(IVec3::zero(), IVec3::new(0, 0, 0));
    assert_eq!(IVec3::new(1, -2, 3).add(IVec3::new(-1, 2, 4)), IVec3::new(0, 0, 7));
}

#[test]
fn chunk_default_is_all_default() {
    let c: Chunk<u16> = Chunk::default();
    assert_eq!(c.get(IVec3::new(0, 0, 0)), Some(&0));
    assert_eq!(c.get(IVec3::new(1, 2, 3)), Some(&0));
    assert_eq!(c.get(IVec3::new(15, 15, 15)), Some(&0));
}
