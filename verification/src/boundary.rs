//! The boundary of a grid: the unloaded chunks that share a face with a loaded
//! one. It is kept up to date incrementally as chunks are loaded, and mirrored
//! by a voxel collider (one voxel per boundary chunk).

use std::collections::HashSet;

use vstd::prelude::*;
use vstd::std_specs::iter::IteratorSpec;

use crate::grid::{chunk_coord_ok, Grid};
use crate::ivec::IVec3;
use crate::key::{chunk_key, key_coord, lemma_key_bijective, lemma_key_injective, pack, unpack, valid_key};

verus! {

broadcast use vstd::std_specs::hash::group_hash_axioms;

/// The `i`-th of the six unit face directions: `+x, -x, +y, -y, +z, -z`.
pub open spec fn face(i: int) -> IVec3 {
    if i == 0 {
        IVec3 { x: 1, y: 0, z: 0 }
    } else if i == 1 {
        IVec3 { x: -1i32, y: 0, z: 0 }
    } else if i == 2 {
        IVec3 { x: 0, y: 1, z: 0 }
    } else if i == 3 {
        IVec3 { x: 0, y: -1i32, z: 0 }
    } else if i == 4 {
        IVec3 { x: 0, y: 0, z: 1 }
    } else {
        IVec3 { x: 0, y: 0, z: -1i32 }
    }
}

/// The six unit face directions.
pub fn faces() -> (r: [IVec3; 6])
    ensures
        forall|i: int| 0 <= i < 6 ==> #[trigger] r@[i] == face(i),
{
    [
        IVec3 { x: 1, y: 0, z: 0 },
        IVec3 { x: -1, y: 0, z: 0 },
        IVec3 { x: 0, y: 1, z: 0 },
        IVec3 { x: 0, y: -1, z: 0 },
        IVec3 { x: 0, y: 0, z: 1 },
        IVec3 { x: 0, y: 0, z: -1 },
    ]
}

/// The chunk across face `i` of chunk `c`.
pub open spec fn neighbor(c: IVec3, i: int) -> IVec3 {
    IVec3 {
        x: (c.x + face(i).x) as i32,
        y: (c.y + face(i).y) as i32,
        z: (c.z + face(i).z) as i32,
    }
}

/// The chunks outside `loaded` that share a face with a chunk of `from`.
pub open spec fn unloaded_neighbors(from: Set<IVec3>, loaded: Set<IVec3>) -> Set<IVec3> {
    Set::new(
        |n: IVec3|
            !loaded.contains(n) && exists|c: IVec3, i: int|
                #![trigger from.contains(c), neighbor(c, i)]
                from.contains(c) && 0 <= i < 6 && n == neighbor(c, i),
    )
}

/// The boundary of `loaded`: the unloaded chunks adjacent to a loaded one.
pub open spec fn boundary_of(loaded: Set<IVec3>) -> Set<IVec3> {
    unloaded_neighbors(loaded, loaded)
}

/// The boundary `b` after the chunks `new` have been loaded, `loaded` being
/// every loaded chunk: the new chunks leave it and their unloaded neighbors
/// join it.
pub open spec fn synced(b: Set<IVec3>, new: Set<IVec3>, loaded: Set<IVec3>) -> Set<IVec3> {
    b.difference(new).union(unloaded_neighbors(new, loaded))
}

/// What becomes of the boundary's collider after a sync.
pub enum ColliderUpdate {
    /// No chunk was loaded: the collider stays as it is.
    Unchanged,
    /// The boundary is empty: the collider is removed.
    Remove,
    /// The collider is rebuilt as one voxel per listed boundary chunk.
    Insert(Vec<IVec3>),
}

/// The set of unloaded chunk coordinates adjacent to loaded ones.
pub struct BoundaryCollider {
    chunks: HashSet<u128>,
}

impl View for BoundaryCollider {
    type V = Set<IVec3>;

    closed spec fn view(&self) -> Set<IVec3> {
        Set::new(|c: IVec3| self.chunks@.contains(chunk_key(c) as u128))
    }
}

impl BoundaryCollider {
    /// Every stored key is the key of a coordinate.
    pub closed spec fn wf(&self) -> bool {
        forall|k: u128| #[trigger] self.chunks@.contains(k) ==> valid_key(k as int)
    }

    /// An empty boundary.
    pub fn new() -> (r: Self)
        ensures
            r.wf(),
            r@ == Set::<IVec3>::empty(),
    {
        let r = BoundaryCollider { chunks: HashSet::new() };
        assert(r@ =~= Set::<IVec3>::empty());
        r
    }

    /// Whether chunk `c` is on the boundary.
    pub fn contains(&self, c: IVec3) -> (r: bool)
        ensures
            r == self@.contains(c),
    {
        let k = pack(c);
        self.chunks.contains(&k)
    }

    /// Whether the boundary is empty.
    pub fn is_empty(&self) -> (r: bool)
        requires
            self.wf(),
        ensures
            r == (self@ == Set::<IVec3>::empty()),
    {
        let r = self.chunks.is_empty();
        proof {
            if !r {
                assert(exists|k: u128| self.chunks@.contains(k)) by {
                    if forall|k: u128| !self.chunks@.contains(k) {
                        assert(self.chunks@ =~= Set::<u128>::empty());
                    }
                }
                let k = choose|k: u128| self.chunks@.contains(k);
                lemma_key_bijective(IVec3 { x: 0, y: 0, z: 0 }, k as int);
                assert(self@.contains(key_coord(k as int)));
            } else {
                assert(self@ =~= Set::<IVec3>::empty());
            }
        }
        r
    }

    /// The boundary chunks, each once, in no particular order.
    pub fn to_vec(&self) -> (r: Vec<IVec3>)
        requires
            self.wf(),
        ensures
            r@.no_duplicates(),
            forall|c: IVec3| r@.contains(c) <==> self@.contains(c),
    {
        let mut r: Vec<IVec3> = Vec::new();
        let ghost items = vstd::std_specs::hash::spec_hash_keys_iter(&self.chunks).remaining().unref();
        let iter = self.chunks.iter();
        for k in it: iter
            invariant
                self.wf(),
                it.seq().unref() == items,
                items.no_duplicates(),
                items.to_set() == self.chunks@,
                r@.len() == it.index(),
                forall|j: int| 0 <= j < it.index() ==> chunk_key(#[trigger] r@[j]) == items[j],
        {
            assert(items.to_set().contains(items[it.index() as int]));
            r.push(unpack(*k));
        }
        assert forall|a: int, b: int| 0 <= a < b < r@.len() implies r@[a] != r@[b] by {
            lemma_key_injective(r@[a], r@[b]);
        }
        assert forall|c: IVec3| r@.contains(c) <==> self@.contains(c) by {
            if r@.contains(c) {
                let j = choose|j: int| 0 <= j < r@.len() && r@[j] == c;
                assert(items.to_set().contains(items[j]));
            }
            if self@.contains(c) {
                let k = chunk_key(c) as u128;
                lemma_key_bijective(c, 0);
                assert(items.to_set().contains(k));
                let j = choose|j: int| 0 <= j < items.len() && items[j] == k;
                lemma_key_injective(r@[j], c);
            }
        }
        r
    }

    /// Adds chunk `c`.
    fn insert(&mut self, c: IVec3)
        requires
            old(self).wf(),
        ensures
            final(self).wf(),
            final(self)@ == old(self)@.insert(c),
    {
        let k = pack(c);
        proof {
            lemma_key_bijective(c, 0);
        }
        self.chunks.insert(k);
        assert forall|b: IVec3| self@.contains(b) <==> old(self)@.insert(c).contains(b) by {
            lemma_key_injective(b, c);
        }
        assert(self@ =~= old(self)@.insert(c));
    }

    /// Removes chunk `c`.
    fn remove(&mut self, c: IVec3)
        requires
            old(self).wf(),
        ensures
            final(self).wf(),
            final(self)@ == old(self)@.remove(c),
    {
        let k = pack(c);
        self.chunks.remove(&k);
        assert forall|b: IVec3| self@.contains(b) <==> old(self)@.remove(c).contains(b) by {
            lemma_key_injective(b, c);
        }
        assert(self@ =~= old(self)@.remove(c));
    }
}

/// Syncing keeps the boundary exact: when `b` is the boundary of the chunks
/// loaded so far, then after the chunks `new` are loaded and synced, it is the
/// boundary of all loaded chunks.
pub proof fn lemma_sync_keeps_boundary_exact(before: Set<IVec3>, new: Set<IVec3>)
    ensures
        synced(boundary_of(before), new, before.union(new)) == boundary_of(before.union(new)),
{
    let loaded = before.union(new);
    let lhs = synced(boundary_of(before), new, loaded);
    let rhs = boundary_of(loaded);
    assert forall|n: IVec3| lhs.contains(n) implies rhs.contains(n) by {
        if unloaded_neighbors(new, loaded).contains(n) {
            let (c, f) = choose|c: IVec3, f: int|
                #![trigger new.contains(c), neighbor(c, f)]
                new.contains(c) && 0 <= f < 6 && n == neighbor(c, f);
            assert(loaded.contains(c));
        } else {
            let (c, f) = choose|c: IVec3, f: int|
                #![trigger before.contains(c), neighbor(c, f)]
                before.contains(c) && 0 <= f < 6 && n == neighbor(c, f);
            assert(loaded.contains(c));
        }
    }
    assert forall|n: IVec3| rhs.contains(n) implies lhs.contains(n) by {
        let (c, f) = choose|c: IVec3, f: int|
            #![trigger loaded.contains(c), neighbor(c, f)]
            loaded.contains(c) && 0 <= f < 6 && n == neighbor(c, f);
        if new.contains(c) {
            assert(unloaded_neighbors(new, loaded).contains(n));
        } else {
            assert(before.contains(c));
            assert(boundary_of(before).contains(n));
        }
    }
    assert(lhs =~= rhs);
}

/// The chunks among the first `i` entries of `s`.
spec fn prefix_set(s: Seq<IVec3>, i: int) -> Set<IVec3> {
    Set::new(|c: IVec3| exists|j: int| 0 <= j < i && s[j] == c)
}

/// The unloaded chunks across the first `k` faces of `c`.
spec fn face_neighbors(c: IVec3, k: int, loaded: Set<IVec3>) -> Set<IVec3> {
    Set::new(|n: IVec3| !loaded.contains(n) && exists|f: int| 0 <= f < k && n == neighbor(c, f))
}

/// Processing new chunk `s[i]`: remove it from the boundary, then add its
/// unloaded face neighbors.
proof fn lemma_sync_step(b0: Set<IVec3>, s: Seq<IVec3>, i: int, loaded: Set<IVec3>)
    requires
        0 <= i < s.len(),
        loaded.contains(s[i]),
    ensures
        synced(b0, prefix_set(s, i + 1), loaded) == synced(b0, prefix_set(s, i), loaded).remove(
            s[i],
        ).union(face_neighbors(s[i], 6, loaded)),
{
    let lhs = synced(b0, prefix_set(s, i + 1), loaded);
    let rhs = synced(b0, prefix_set(s, i), loaded).remove(s[i]).union(
        face_neighbors(s[i], 6, loaded),
    );
    assert forall|n: IVec3| lhs.contains(n) implies rhs.contains(n) by {
        if unloaded_neighbors(prefix_set(s, i + 1), loaded).contains(n) {
            let (c, f) = choose|c: IVec3, f: int|
                #![trigger prefix_set(s, i + 1).contains(c), neighbor(c, f)]
                prefix_set(s, i + 1).contains(c) && 0 <= f < 6 && n == neighbor(c, f);
            let j = choose|j: int| 0 <= j < i + 1 && s[j] == c;
            if j < i {
                assert(prefix_set(s, i).contains(c));
                assert(unloaded_neighbors(prefix_set(s, i), loaded).contains(n));
            } else {
                assert(face_neighbors(s[i], 6, loaded).contains(n));
            }
        } else {
            assert(b0.contains(n) && !prefix_set(s, i + 1).contains(n));
            assert(n != s[i]);
        }
    }
    assert forall|n: IVec3| rhs.contains(n) implies lhs.contains(n) by {
        if face_neighbors(s[i], 6, loaded).contains(n) {
            let f = choose|f: int| 0 <= f < 6 && n == neighbor(s[i], f);
            assert(prefix_set(s, i + 1).contains(s[i]));
            assert(unloaded_neighbors(prefix_set(s, i + 1), loaded).contains(n));
        } else if unloaded_neighbors(prefix_set(s, i), loaded).contains(n) {
            let (c, f) = choose|c: IVec3, f: int|
                #![trigger prefix_set(s, i).contains(c), neighbor(c, f)]
                prefix_set(s, i).contains(c) && 0 <= f < 6 && n == neighbor(c, f);
            let j = choose|j: int| 0 <= j < i && s[j] == c;
            assert(prefix_set(s, i + 1).contains(c));
        } else {
            assert(b0.contains(n) && !prefix_set(s, i).contains(n) && n != s[i]);
            if prefix_set(s, i + 1).contains(n) {
                let j = choose|j: int| 0 <= j < i + 1 && s[j] == n;
                assert(j < i);
                assert(prefix_set(s, i).contains(n));
            }
        }
    }
    assert(lhs =~= rhs);
}

/// Brings `boundary` up to date with the chunks that `grid` has allocated
/// since the last sync, takes the grid's new-chunk list, and says what becomes
/// of the boundary's collider.
pub fn sync_boundary_collider<T>(grid: &mut Grid<T>, boundary: &mut BoundaryCollider) -> (r:
    ColliderUpdate)
    requires
        old(grid).wf(),
        old(boundary).wf(),
    ensures
        final(grid).wf(),
        final(grid).chunk_map() == old(grid).chunk_map(),
        final(grid).new_chunk_list() == Seq::<IVec3>::empty(),
        final(boundary).wf(),
        old(boundary)@ == boundary_of(old(grid).settled()) ==> final(boundary)@ == boundary_of(
            final(grid).loaded(),
        ),
        old(grid).new_chunk_list().len() == 0 ==> r is Unchanged && final(boundary)@ == old(
            boundary,
        )@,
        old(grid).new_chunk_list().len() > 0 ==> {
            &&& final(boundary)@ == synced(
                old(boundary)@,
                old(grid).new_chunk_list().to_set(),
                old(grid).loaded(),
            )
            &&& match r {
                ColliderUpdate::Unchanged => false,
                ColliderUpdate::Remove => final(boundary)@ == Set::<IVec3>::empty(),
                ColliderUpdate::Insert(v) => {
                    &&& final(boundary)@ != Set::<IVec3>::empty()
                    &&& v@.no_duplicates()
                    &&& forall|c: IVec3| v@.contains(c) <==> final(boundary)@.contains(c)
                },
            }
        },
{
    proof {
        grid.lemma_wf();
    }
    let ghost settled = grid.settled();
    let new_chunks = grid.take_new_chunks();
    proof {
        assert(settled.union(new_chunks@.to_set()) =~= grid.loaded());
        lemma_sync_keeps_boundary_exact(settled, new_chunks@.to_set());
    }
    if new_chunks.len() == 0 {
        assert(new_chunks@.to_set() =~= Set::<IVec3>::empty());
        assert(settled =~= grid.loaded());
        return ColliderUpdate::Unchanged;
    }
    let dirs = faces();
    let ghost b0 = boundary@;
    let ghost loaded = grid.loaded();
    let n = new_chunks.len();
    let mut i: usize = 0;
    assert(prefix_set(new_chunks@, 0) =~= Set::<IVec3>::empty());
    assert(synced(b0, prefix_set(new_chunks@, 0), loaded) =~= b0);
    while i < n
        invariant
            grid.wf(),
            grid.loaded() == loaded,
            boundary.wf(),
            n == new_chunks@.len(),
            i <= n,
            forall|j: int| 0 <= j < n ==> #[trigger] loaded.contains(new_chunks@[j]),
            forall|c: IVec3| #[trigger] loaded.contains(c) ==> chunk_coord_ok(c),
            forall|f: int| 0 <= f < 6 ==> #[trigger] dirs@[f] == face(f),
            boundary@ == synced(b0, prefix_set(new_chunks@, i as int), loaded),
        decreases n - i,
    {
        let c = new_chunks[i];
        assert(loaded.contains(c));
        boundary.remove(c);
        let mut k: usize = 0;
        assert(face_neighbors(c, 0, loaded) =~= Set::<IVec3>::empty());
        while k < 6
            invariant
                grid.wf(),
                grid.loaded() == loaded,
                boundary.wf(),
                chunk_coord_ok(c),
                k <= 6,
                forall|f: int| 0 <= f < 6 ==> #[trigger] dirs@[f] == face(f),
                boundary@ == synced(b0, prefix_set(new_chunks@, i as int), loaded).remove(c).union(
                    face_neighbors(c, k as int, loaded),
                ),
            decreases 6 - k,
        {
            let d = dirs[k];
            assert(d == face(k as int));
            let nb = c.add(d);
            assert(nb == neighbor(c, k as int));
            if !grid.contains_chunk(nb) {
                boundary.insert(nb);
                assert(face_neighbors(c, k + 1, loaded) =~= face_neighbors(c, k as int, loaded).insert(
                    nb,
                ));
            } else {
                assert(face_neighbors(c, k + 1, loaded) =~= face_neighbors(c, k as int, loaded));
            }
            k = k + 1;
        }
        proof {
            lemma_sync_step(b0, new_chunks@, i as int, loaded);
        }
        i = i + 1;
    }
    assert(prefix_set(new_chunks@, n as int) =~= new_chunks@.to_set());
    if boundary.is_empty() {
        ColliderUpdate::Remove
    } else {
        ColliderUpdate::Insert(boundary.to_vec())
    }
}

} // verus!
