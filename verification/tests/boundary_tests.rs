use bevy_voxel::{faces, sync_boundary_collider, BoundaryCollider, ColliderUpdate, Grid, IVec3};

fn sorted(mut v: Vec<IVec3>) -> Vec<IVec3> {
    v.sort_by_key(|c| (c.x, c.y, c.z));
    v
}

#[test]
fn faces_are_the_six_unit_directions() {
    let f = faces();
    assert_eq!(
        sorted(f.to_vec()),
        sorted(vec![
            IVec3::new(1, 0, 0),
            IVec3::new(-1, 0, 0),
            IVec3::new(0, 1, 0),
            IVec3::new(0, -1, 0),
            IVec3::new(0, 0, 1),
            IVec3::new(0, 0, -1),
        ])
    );
}

#[test]
fn sync_without_new_chunks_is_unchanged() {
    let mut g: Grid<u8> = Grid::new();
    let mut b = BoundaryCollider::new();
    assert!(matches!(sync_boundary_collider(&mut g, &mut b), ColliderUpdate::Unchanged));
    assert!(b.is_empty());
}

#[test]
fn sync_single_chunk_gives_its_six_neighbours() {
    let mut g: Grid<u8> = Grid::new();
    let mut b = BoundaryCollider::new();
    g.set(IVec3::new(3, 3, 3), 1);
    match sync_boundary_collider(&mut g, &mut b) {
        ColliderUpdate::Insert(v) => {
            assert_eq!(sorted(v), sorted(faces().to_vec()));
        }
        _ => panic!("expected a collider"),
    }
    assert!(!b.contains(IVec3::new(0, 0, 0)));
    assert!(b.contains(IVec3::new(0, 0, 1)));
    assert!(!b.contains(IVec3::new(1, 1, 0)));
    // A second sync with nothing new leaves everything as is.
    assert!(matches!(sync_boundary_collider(&mut g, &mut b), ColliderUpdate::Unchanged));
    assert_eq!(b.to_vec().len(), 6);
}

#[test]
fn sync_two_adjacent_chunks() {
    let mut g: Grid<u8> = Grid::new();
    let mut b = BoundaryCollider::new();
    g.set(IVec3::new(0, 0, 0), 1);
    sync_boundary_collider(&mut g, &mut b);
    g.set(IVec3::new(16, 0, 0), 1);
    match sync_boundary_collider(&mut g, &mut b) {
        ColliderUpdate::Insert(v) => {
            // Two loaded chunks side by side: 10 boundary chunks.
            assert_eq!(v.len(), 10);
            assert!(!v.contains(&IVec3::new(1, 0, 0)));
            assert!(!v.contains(&IVec3::new(0, 0, 0)));
            assert!(v.contains(&IVec3::new(2, 0, 0)));
            assert!(v.contains(&IVec3::new(-1, 0, 0)));
            assert!(v.contains(&IVec3::new(1, 1, 0)));
        }
        _ => panic!("expected a collider"),
    }
}

#[test]
fn sync_matches_batch_boundary() {
    // Loading chunks over several syncs gives the same boundary as loading
    // them all before one sync.
    let points = [
        IVec3::new(0, 0, 0),
        IVec3::new(16, 0, 0),
        IVec3::new(0, 16, 0),
        IVec3::new(-40, 3, 70),
        IVec3::new(-17, 0, 0),
    ];
    let mut g1: Grid<u8> = Grid::new();
    let mut b1 = BoundaryCollider::new();
    for p in points {
        g1.set(p, 1);
        sync_boundary_collider(&mut g1, &mut b1);
    }
    let mut g2: Grid<u8> = Grid::new();
    let mut b2 = BoundaryCollider::new();
    for p in points {
        g2.set(p, 1);
    }
    sync_boundary_collider(&mut g2, &mut b2);
    assert_eq!(sorted(b1.to_vec()), sorted(b2.to_vec()));
    for c in b1.to_vec() {
        assert!(!g1.contains_chunk(c));
    }
}

#[test]
fn boundary_starts_empty() {
    let b = BoundaryCollider::new();
    assert!(b.is_empty());
    assert!(b.to_vec().is_empty());
    assert!(!b.contains(IVec3::zero()));
}
