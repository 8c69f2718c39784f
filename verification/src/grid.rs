//! A sparse voxel grid: chunks of `N * N * N` cells, allocated on first write
//! and looked up by their chunk coordinate.

use std::collections::HashMap;

use vstd::prelude::*;
use vstd::std_specs::cmp::PartialEqSpec;

use crate::chunk::{
    cell_at, cell_index, cell_of_position, dims, in_chunk, is_default, lemma_cell_index_bijective,
    Chunk, CELLS,
};
use crate::ivec::IVec3;
use crate::key::{chunk_key, lemma_key_bijective, lemma_key_injective, pack};

verus! {

broadcast use vstd::std_specs::hash::group_hash_axioms;

/// `2^27`: chunk coordinates of `i32` voxel positions lie in `-2^27..2^27`.
pub open spec fn chunk_limit() -> int {
    0x800_0000
}

/// `c` is the chunk coordinate of some `i32` voxel position.
pub open spec fn chunk_coord_ok(c: IVec3) -> bool {
    &&& -chunk_limit() <= c.x < chunk_limit()
    &&& -chunk_limit() <= c.y < chunk_limit()
    &&& -chunk_limit() <= c.z < chunk_limit()
}

/// The chunk that holds voxel `p`: `p.div_euclid(DIMS)`.
pub open spec fn major(p: IVec3) -> IVec3 {
    IVec3 { x: (p.x as int / 16) as i32, y: (p.y as int / 16) as i32, z: (p.z as int / 16) as i32 }
}

/// The place of voxel `p` inside its chunk: `p.rem_euclid(DIMS)`.
pub open spec fn minor(p: IVec3) -> IVec3 {
    IVec3 { x: (p.x as int % 16) as i32, y: (p.y as int % 16) as i32, z: (p.z as int % 16) as i32 }
}

/// The voxel at place `m` of chunk `c`: `c * DIMS + m`.
pub open spec fn join(c: IVec3, m: IVec3) -> IVec3 {
    IVec3 {
        x: (c.x * 16 + m.x) as i32,
        y: (c.y * 16 + m.y) as i32,
        z: (c.z * 16 + m.z) as i32,
    }
}

proof fn lemma_split_axis(a: i32)
    ensures
        -chunk_limit() <= a as int / 16 < chunk_limit(),
        0 <= a as int % 16 < 16,
        (a as int / 16) * 16 + a as int % 16 == a,
{
    let q = a as int / 16;
    let r = a as int % 16;
    assert(a == q * 16 + r && 0 <= r < 16) by (nonlinear_arith)
        requires
            q == a as int / 16,
            r == a as int % 16,
    ;
}

proof fn lemma_join_axis(c: int, m: int)
    requires
        -chunk_limit() <= c < chunk_limit(),
        0 <= m < 16,
    ensures
        i32::MIN <= c * 16 + m <= i32::MAX,
        (c * 16 + m) / 16 == c,
        (c * 16 + m) % 16 == m,
{
    let v = c * 16 + m;
    assert(v / 16 == c && v % 16 == m) by (nonlinear_arith)
        requires
            v == c * 16 + m,
            0 <= m < 16,
    ;
}

/// Every voxel is the voxel at its place inside its chunk: `p` splits into a
/// chunk coordinate of an `i32` position and a place inside a chunk, and joins
/// back to `p`.
pub proof fn lemma_split(p: IVec3)
    ensures
        chunk_coord_ok(major(p)),
        in_chunk(minor(p)),
        join(major(p), minor(p)) == p,
{
    lemma_split_axis(p.x);
    lemma_split_axis(p.y);
    lemma_split_axis(p.z);
}

/// Joining a chunk coordinate and a place inside a chunk gives a voxel that
/// splits back into them.
pub proof fn lemma_join(c: IVec3, m: IVec3)
    requires
        chunk_coord_ok(c),
        in_chunk(m),
    ensures
        major(join(c, m)) == c,
        minor(join(c, m)) == m,
{
    lemma_join_axis(c.x as int, m.x as int);
    lemma_join_axis(c.y as int, m.y as int);
    lemma_join_axis(c.z as int, m.z as int);
}

/// The value of voxel `p` in the chunk map `m`, or `None` when its chunk is
/// absent.
pub open spec fn cell_of<T>(m: Map<IVec3, Seq<T>>, p: IVec3) -> Option<T> {
    if m.contains_key(major(p)) {
        Some(m[major(p)][cell_index(minor(p))])
    } else {
        None
    }
}

/// The chunk map `m` after writing `v` at voxel `p`; when the chunk of `p` is
/// absent it is added with every other cell `fresh`.
pub open spec fn write_cell<T>(m: Map<IVec3, Seq<T>>, p: IVec3, v: T, fresh: T) -> Map<IVec3, Seq<T>> {
    let base = if m.contains_key(major(p)) {
        m[major(p)]
    } else {
        Seq::new(4096, |i: int| fresh)
    };
    m.insert(major(p), base.update(cell_index(minor(p)), v))
}

/// Reading after a write: voxel `p` reads `v`; the other voxels of its chunk
/// keep their values (or read `fresh` if the chunk was added); voxels of other
/// chunks are unchanged.
pub proof fn lemma_write_cell<T>(m: Map<IVec3, Seq<T>>, p: IVec3, v: T, fresh: T, q: IVec3)
    requires
        forall|c: IVec3| #[trigger] m.contains_key(c) ==> m[c].len() == 4096,
    ensures
        cell_of(write_cell(m, p, v, fresh), q) == if q == p {
            Some(v)
        } else if major(q) == major(p) {
            if m.contains_key(major(p)) {
                cell_of(m, q)
            } else {
                Some(fresh)
            }
        } else {
            cell_of(m, q)
        },
{
    lemma_split(p);
    lemma_split(q);
    lemma_cell_index_bijective(minor(p), 0);
    lemma_cell_index_bijective(minor(q), 0);
    if q != p && major(q) == major(p) {
        assert(minor(q) != minor(p));
        lemma_cell_index_bijective(minor(q), cell_index(minor(p)));
        assert(cell_index(minor(q)) != cell_index(minor(p)));
    }
}

/// The voxels of the chunk map `m` whose value differs from `d`.
pub open spec fn cells_differing<T: PartialEq>(m: Map<IVec3, Seq<T>>, d: T) -> Set<IVec3> {
    Set::new(|p: IVec3| cell_of(m, p) is Some && !cell_of(m, p).unwrap().eq_spec(&d))
}

/// The voxels of the chunk map `m` whose value differs from the value `dflt`
/// gives for that voxel.
pub open spec fn cells_differing_each<T: PartialEq>(
    m: Map<IVec3, Seq<T>>,
    dflt: spec_fn(IVec3) -> T,
) -> Set<IVec3> {
    Set::new(|p: IVec3| cell_of(m, p) is Some && !cell_of(m, p).unwrap().eq_spec(&dflt(p)))
}

/// Every value `dflt` gives is one that `T::default()` returns.
pub open spec fn all_default<T: Default>(dflt: spec_fn(IVec3) -> T) -> bool {
    forall|p: IVec3| #[trigger] is_default(dflt(p))
}

/// `T::default()` always returns the same value.
pub open spec fn default_is_unique<T: Default>() -> bool {
    forall|a: T, b: T| #[trigger] is_default(a) && #[trigger] is_default(b) ==> a == b
}

/// Writing `v` at voxel `p` changes the set of voxels that differ from `d` at
/// `p` only (a freshly added chunk is filled with a value equal to `d`): `p`
/// joins it when `v` differs from `d`, and leaves it otherwise.
pub proof fn lemma_write_cells_differing<T: PartialEq>(
    m: Map<IVec3, Seq<T>>,
    p: IVec3,
    v: T,
    fresh: T,
    d: T,
)
    requires
        forall|c: IVec3| #[trigger] m.contains_key(c) ==> m[c].len() == 4096,
        fresh.eq_spec(&d),
    ensures
        cells_differing(write_cell(m, p, v, fresh), d) == if !v.eq_spec(&d) {
            cells_differing(m, d).insert(p)
        } else {
            cells_differing(m, d).remove(p)
        },
{
    let after = cells_differing(write_cell(m, p, v, fresh), d);
    let expected = if !v.eq_spec(&d) {
        cells_differing(m, d).insert(p)
    } else {
        cells_differing(m, d).remove(p)
    };
    assert forall|q: IVec3| after.contains(q) <==> expected.contains(q) by {
        lemma_write_cell(m, p, v, fresh, q);
    }
    assert(after =~= expected);
}

/// Writing `v` at voxel `p` changes the number of voxels that differ from `d`
/// by at most one: minus one if `p` differed before, plus one if `v` differs
/// (a freshly added chunk is filled with a value equal to `d`).
pub proof fn lemma_write_count<T: PartialEq>(
    m: Map<IVec3, Seq<T>>,
    p: IVec3,
    v: T,
    fresh: T,
    d: T,
)
    requires
        forall|c: IVec3| #[trigger] m.contains_key(c) ==> m[c].len() == 4096,
        fresh.eq_spec(&d),
        cells_differing(m, d).finite(),
    ensures
        cells_differing(write_cell(m, p, v, fresh), d).finite(),
        cells_differing(write_cell(m, p, v, fresh), d).len() == cells_differing(m, d).len() - (
        if cells_differing(m, d).contains(p) {
            1int
        } else {
            0int
        }) + (if !v.eq_spec(&d) {
            1int
        } else {
            0int
        }),
{
    lemma_write_cells_differing(m, p, v, fresh, d);
}

/// A voxel grid made of chunks.
///
/// `index` maps the key of each loaded chunk coordinate to a slot; slot `s`
/// holds the chunk `chunks[s]` at coordinate `coords[s]`. `new_chunks` lists
/// the coordinates of the chunks allocated since it was last taken.
pub struct Grid<T> {
    index: HashMap<u128, usize>,
    coords: Vec<IVec3>,
    chunks: Vec<Chunk<T>>,
    new_chunks: Vec<IVec3>,
}

impl<T> Grid<T> {
    spec fn has(&self, c: IVec3) -> bool {
        self.index@.contains_key(chunk_key(c) as u128)
    }

    spec fn slot(&self, c: IVec3) -> int {
        self.index@[chunk_key(c) as u128] as int
    }

    /// The loaded chunks: chunk coordinate to cells in storage order.
    pub closed spec fn chunk_map(&self) -> Map<IVec3, Seq<T>> {
        Map::new(|c: IVec3| self.has(c), |c: IVec3| self.chunks@[self.slot(c)]@)
    }

    /// The coordinates of the chunks allocated since the list was last taken,
    /// oldest first.
    pub closed spec fn new_chunk_list(&self) -> Seq<IVec3> {
        self.new_chunks@
    }

    /// Number of loaded chunks.
    pub closed spec fn num_chunks(&self) -> nat {
        self.chunks@.len()
    }

    /// The coordinates of the loaded chunks.
    pub open spec fn loaded(&self) -> Set<IVec3> {
        self.chunk_map().dom()
    }

    /// The loaded chunks that are not on the new-chunk list: those loaded
    /// before the list was last taken.
    pub open spec fn settled(&self) -> Set<IVec3> {
        self.loaded().difference(self.new_chunk_list().to_set())
    }

    /// The value of voxel `p`, or `None` when its chunk is not loaded.
    pub open spec fn cell(&self, p: IVec3) -> Option<T> {
        cell_of(self.chunk_map(), p)
    }

    /// The grid's internal index is in sync with its chunk storage.
    pub closed spec fn wf(&self) -> bool {
        &&& self.coords@.len() == self.chunks@.len()
        &&& forall|s: int| 0 <= s < self.chunks@.len() ==> (#[trigger] self.chunks@[s]).wf()
        &&& forall|s: int|
            0 <= s < self.coords@.len() ==> {
                &&& chunk_coord_ok(#[trigger] self.coords@[s])
                &&& self.has(self.coords@[s])
                &&& self.slot(self.coords@[s]) == s
            }
        &&& forall|k: u128| #[trigger]
            self.index@.contains_key(k) ==> {
                &&& (self.index@[k] as int) < self.coords@.len()
                &&& chunk_key(self.coords@[self.index@[k] as int]) == k
            }
        &&& forall|i: int|
            0 <= i < self.new_chunks@.len() ==> self.has(#[trigger] self.new_chunks@[i])
        &&& self.new_chunks@.no_duplicates()
    }

    /// What a well-formed grid guarantees: finitely many loaded chunks, each of
    /// `CELLS` cells at the coordinate of an `i32` voxel; the new chunks are
    /// loaded and distinct.
    pub proof fn lemma_wf(&self)
        requires
            self.wf(),
        ensures
            self.loaded().finite(),
            self.loaded().len() == self.num_chunks(),
            forall|c: IVec3| #[trigger]
                self.chunk_map().contains_key(c) ==> chunk_coord_ok(c)
                    && self.chunk_map()[c].len() == 4096,
            forall|i: int|
                0 <= i < self.new_chunk_list().len() ==> #[trigger] self.chunk_map().contains_key(
                    self.new_chunk_list()[i],
                ),
            self.new_chunk_list().no_duplicates(),
    {
        assert forall|c: IVec3| #[trigger] self.chunk_map().contains_key(c) implies chunk_coord_ok(c)
            && self.chunk_map()[c].len() == 4096 by {
            let k = chunk_key(c) as u128;
            lemma_key_bijective(c, 0);
            let s = self.index@[k] as int;
            assert(chunk_key(self.coords@[s]) == k);
            lemma_key_injective(self.coords@[s], c);
            assert(self.chunks@[s].wf());
        }
        assert(self.coords@.no_duplicates()) by {
            assert forall|i: int, j: int|
                0 <= i < self.coords@.len() && 0 <= j < self.coords@.len() && i != j implies
                self.coords@[i] != self.coords@[j] by {
                assert(self.slot(self.coords@[i]) == i);
                assert(self.slot(self.coords@[j]) == j);
            }
        }
        assert(self.loaded() =~= self.coords@.to_set()) by {
            assert forall|c: IVec3| self.loaded().contains(c) implies self.coords@.to_set().contains(c) by {
                let k = chunk_key(c) as u128;
                lemma_key_bijective(c, 0);
                let s = self.index@[k] as int;
                lemma_key_injective(self.coords@[s], c);
                assert(self.coords@[s] == c);
            }
            assert forall|c: IVec3| self.coords@.to_set().contains(c) implies self.loaded().contains(c) by {
                let s = choose|s: int| 0 <= s < self.coords@.len() && self.coords@[s] == c;
                assert(self.has(self.coords@[s]));
            }
        }
        self.coords@.unique_seq_to_set();
    }

    /// An empty grid.
    pub fn new() -> (g: Self)
        ensures
            g.wf(),
            g.chunk_map() == Map::<IVec3, Seq<T>>::empty(),
            g.new_chunk_list() == Seq::<IVec3>::empty(),
            forall|p: IVec3| #[trigger] g.cell(p) is None,
    {
        let g = Grid { index: HashMap::new(), coords: Vec::new(), chunks: Vec::new(), new_chunks: Vec::new() };
        assert(g.chunk_map() =~= Map::<IVec3, Seq<T>>::empty());
        g
    }
}

impl<T> Grid<T> {
    /// The slot of chunk `c`, if it is loaded.
    fn lookup(&self, c: IVec3) -> (r: Option<usize>)
        requires
            self.wf(),
        ensures
            r.is_some() == self.chunk_map().contains_key(c),
            r.is_some() ==> {
                &&& r.unwrap() < self.chunks@.len()
                &&& self.coords@[r.unwrap() as int] == c
                &&& self.chunk_map()[c] == self.chunks@[r.unwrap() as int]@
            },
    {
        let k = pack(c);
        match self.index.get(&k) {
            Some(s) => {
                proof {
                    lemma_key_injective(self.coords@[*s as int], c);
                }
                Some(*s)
            },
            None => None,
        }
    }

    /// Stores `chunk` as the chunk at `c`, which must not be loaded yet, and
    /// appends `c` to the new-chunk list.
    fn load_chunk(&mut self, c: IVec3, chunk: Chunk<T>)
        requires
            old(self).wf(),
            !old(self).chunk_map().contains_key(c),
            chunk_coord_ok(c),
            chunk.wf(),
        ensures
            final(self).wf(),
            final(self).chunk_map() == old(self).chunk_map().insert(c, chunk@),
            final(self).new_chunk_list() == old(self).new_chunk_list().push(c),
    {
        let ghost old_map = self.chunk_map();
        let ghost fresh = chunk@;
        let slot = self.chunks.len();
        let k = pack(c);
        proof {
            lemma_key_bijective(c, 0);
        }
        self.chunks.push(chunk);
        self.coords.push(c);
        self.index.insert(k, slot);
        self.new_chunks.push(c);
        assert forall|b: IVec3| b != c implies self.has(b) == old(self).has(b) && (self.has(b)
            ==> self.slot(b) == old(self).slot(b)) by {
            lemma_key_injective(b, c);
        }
        assert(self.has(c) && self.slot(c) == slot);
        assert(self.chunks@[slot as int]@ == fresh);
        assert forall|b: IVec3| #[trigger] old(self).has(b) implies self.chunks@[self.slot(b)]@
            == old(self).chunks@[old(self).slot(b)]@ by {
            lemma_key_injective(b, c);
        }
        assert(self.chunk_map() =~= old_map.insert(c, fresh));
    }

    /// Mutable access to place `m` of the chunk in slot `s`.
    fn slot_cell_mut(&mut self, s: usize, m: IVec3) -> (r: &mut T)
        requires
            old(self).wf(),
            s < old(self).chunks@.len(),
            in_chunk(m),
        ensures
            final(self).wf(),
            final(self).new_chunk_list() == old(self).new_chunk_list(),
            old(self).chunk_map().contains_key(old(self).coords@[s as int]),
            old(self).chunk_map()[old(self).coords@[s as int]] == old(self).chunks@[s as int]@,
            *r == old(self).chunks@[s as int]@[cell_index(m)],
            final(self).chunk_map() == old(self).chunk_map().insert(
                old(self).coords@[s as int],
                old(self).chunks@[s as int]@.update(cell_index(m), *final(r)),
            ),
    {
        self.chunks[s].index_mut(m)
    }

    /// Number of loaded chunks.
    pub fn len(&self) -> (r: usize)
        requires
            self.wf(),
        ensures
            r == self.num_chunks(),
    {
        self.chunks.len()
    }

    /// Whether the chunk at chunk coordinate `c` is loaded.
    pub fn contains_chunk(&self, c: IVec3) -> (r: bool)
        requires
            self.wf(),
        ensures
            r == self.chunk_map().contains_key(c),
    {
        self.lookup(c).is_some()
    }

    /// The value of voxel `idx`, or `None` when its chunk is not loaded.
    pub fn get(&self, idx: IVec3) -> (r: Option<&T>)
        requires
            self.wf(),
        ensures
            r.is_some() == self.cell(idx).is_some(),
            r.is_some() ==> *r.unwrap() == self.cell(idx).unwrap(),
    {
        let cpos = idx.div_euclid(dims());
        let local = idx.rem_euclid(dims());
        proof {
            lemma_split(idx);
        }
        match self.lookup(cpos) {
            Some(s) => Some(self.chunks[s].index(local)),
            None => None,
        }
    }

    /// The chunk at chunk coordinate `idx`, or `None` when it is not loaded.
    pub fn get_chunk(&self, idx: IVec3) -> (r: Option<&Chunk<T>>)
        requires
            self.wf(),
        ensures
            r.is_some() == self.chunk_map().contains_key(idx),
            r.is_some() ==> r.unwrap().wf() && r.unwrap()@ == self.chunk_map()[idx],
    {
        match self.lookup(idx) {
            Some(s) => Some(&self.chunks[s]),
            None => None,
        }
    }
}

impl<T> Grid<T> {
    /// Mutable access to voxel `idx`, or `None` when its chunk is not loaded.
    /// Writing through the reference changes that voxel only.
    pub fn get_mut(&mut self, idx: IVec3) -> (r: Option<&mut T>)
        requires
            old(self).wf(),
        ensures
            final(self).wf(),
            final(self).new_chunk_list() == old(self).new_chunk_list(),
            old(self).chunk_map().contains_key(major(idx)) ==> {
                &&& r.is_some()
                &&& *r.unwrap() == old(self).cell(idx).unwrap()
                &&& final(self).chunk_map() == old(self).chunk_map().insert(
                    major(idx),
                    old(self).chunk_map()[major(idx)].update(
                        cell_index(minor(idx)),
                        *final(r.unwrap()),
                    ),
                )
                &&& forall|q: IVec3| #[trigger]
                    final(self).cell(q) == if q == idx {
                        Some(*final(r.unwrap()))
                    } else {
                        old(self).cell(q)
                    }
            },
            !old(self).chunk_map().contains_key(major(idx)) ==> r.is_none() && final(self).chunk_map()
                == old(self).chunk_map(),
    {
        let cpos = idx.div_euclid(dims());
        let local = idx.rem_euclid(dims());
        proof {
            lemma_split(idx);
        }
        match self.lookup(cpos) {
            Some(s) => {
                proof {
                    self.lemma_wf();
                    let ghost old_map = self.chunk_map();
                    assert forall|v: T, q: IVec3| #[trigger]
                        cell_of(write_cell(old_map, idx, v, v), q) == if q == idx {
                            Some(v)
                        } else {
                            cell_of(old_map, q)
                        } by {
                        lemma_write_cell(old_map, idx, v, v, q);
                    }
                }
                Some(self.slot_cell_mut(s, local))
            },
            None => None,
        }
    }
}

impl<T> Grid<T> {
    /// Takes the list of the chunks allocated since it was last taken, oldest
    /// first, and leaves it empty.
    pub fn take_new_chunks(&mut self) -> (r: Vec<IVec3>)
        requires
            old(self).wf(),
        ensures
            final(self).wf(),
            r@ == old(self).new_chunk_list(),
            final(self).new_chunk_list() == Seq::<IVec3>::empty(),
            final(self).chunk_map() == old(self).chunk_map(),
    {
        let mut r: Vec<IVec3> = Vec::new();
        std::mem::swap(&mut r, &mut self.new_chunks);
        assert(self.chunk_map() =~= old(self).chunk_map());
        r
    }

    /// Every loaded chunk with its coordinate, each once.
    pub fn chunks(&self) -> (r: Vec<(IVec3, &Chunk<T>)>)
        requires
            self.wf(),
        ensures
            r@.len() == self.num_chunks(),
            forall|i: int|
                0 <= i < r@.len() ==> {
                    &&& self.chunk_map().contains_key(#[trigger] r@[i].0)
                    &&& r@[i].1.wf()
                    &&& r@[i].1@ == self.chunk_map()[r@[i].0]
                },
            forall|i: int, j: int| 0 <= i < j < r@.len() ==> r@[i].0 != r@[j].0,
            forall|c: IVec3|
                #[trigger] self.chunk_map().contains_key(c) ==> exists|i: int|
                    0 <= i < r@.len() && r@[i].0 == c,
    {
        let mut r: Vec<(IVec3, &Chunk<T>)> = Vec::new();
        let n = self.chunks.len();
        let mut s: usize = 0;
        while s < n
            invariant
                self.wf(),
                n == self.chunks@.len(),
                s <= n,
                r@.len() == s,
                forall|i: int| 0 <= i < s ==> (#[trigger] r@[i]).0 == self.coords@[i] && r@[i].1 == &self.chunks@[i],
            decreases n - s,
        {
            r.push((self.coords[s], &self.chunks[s]));
            s = s + 1;
        }
        assert forall|i: int| 0 <= i < r@.len() implies {
            &&& self.chunk_map().contains_key(#[trigger] r@[i].0)
            &&& r@[i].1.wf()
            &&& r@[i].1@ == self.chunk_map()[r@[i].0]
        } by {
            assert(self.coords@[i] == r@[i].0);
        }
        assert forall|i: int, j: int| 0 <= i < j < r@.len() implies r@[i].0 != r@[j].0 by {
            assert(self.slot(self.coords@[i]) == i);
            assert(self.slot(self.coords@[j]) == j);
        }
        assert forall|c: IVec3| #[trigger] self.chunk_map().contains_key(c) implies exists|i: int|
            0 <= i < r@.len() && r@[i].0 == c by {
            let k = chunk_key(c) as u128;
            lemma_key_bijective(c, 0);
            let i = self.index@[k] as int;
            lemma_key_injective(self.coords@[i], c);
            assert(r@[i].0 == c);
        }
        r
    }
}

impl<T: Copy + Default> Grid<T> {
    /// Sets voxel `idx` to `val`. When the voxel's chunk is not loaded, a new
    /// chunk is allocated with every other cell `T::default()`, and its
    /// coordinate is appended to the new-chunk list.
    pub fn set(&mut self, idx: IVec3, val: T)
        requires
            old(self).wf(),
        ensures
            final(self).wf(),
            old(self).chunk_map().contains_key(major(idx)) ==> {
                &&& final(self).chunk_map() == old(self).chunk_map().insert(
                    major(idx),
                    old(self).chunk_map()[major(idx)].update(cell_index(minor(idx)), val),
                )
                &&& forall|f: T|
                    final(self).chunk_map() == #[trigger] write_cell(old(self).chunk_map(), idx, val, f)
                &&& final(self).new_chunk_list() == old(self).new_chunk_list()
            },
            !old(self).chunk_map().contains_key(major(idx)) ==> exists|d: T| #[trigger]
                is_default(d) && {
                    &&& final(self).chunk_map() == old(self).chunk_map().insert(
                        major(idx),
                        Seq::new(4096, |i: int| d).update(cell_index(minor(idx)), val),
                    )
                    &&& final(self).chunk_map() == write_cell(old(self).chunk_map(), idx, val, d)
                    &&& final(self).new_chunk_list() == old(self).new_chunk_list().push(major(idx))
                    &&& forall|q: IVec3|
                        major(q) == major(idx) && q != idx ==> #[trigger] final(self).cell(q) == Some(d)
                },
            final(self).cell(idx) == Some(val),
            forall|q: IVec3|
                q != idx && old(self).cell(q) is Some ==> #[trigger] final(self).cell(q) == old(
                    self,
                ).cell(q),
            forall|q: IVec3|
                major(q) != major(idx) ==> #[trigger] final(self).cell(q) == old(self).cell(q),
            final(self).settled() == old(self).settled(),
    {
        let cpos = idx.div_euclid(dims());
        let local = idx.rem_euclid(dims());
        proof {
            lemma_split(idx);
        }
        let ghost old_map = self.chunk_map();
        match self.lookup(cpos) {
            Some(s) => {
                *self.slot_cell_mut(s, local) = val;
                proof {
                    old(self).lemma_wf();
                    assert forall|q: IVec3| true implies #[trigger] self.cell(q) == if q == idx {
                        Some(val)
                    } else {
                        old(self).cell(q)
                    } by {
                        lemma_write_cell(old_map, idx, val, val, q);
                        assert(self.chunk_map() == write_cell(old_map, idx, val, val));
                    }
                    assert forall|f: T| self.chunk_map() == #[trigger] write_cell(old_map, idx, val, f) by {
                        assert(self.chunk_map() =~= write_cell(old_map, idx, val, f));
                    }
                }
            },
            None => {
                let d = T::default();
                let mut chunk = Chunk::new(d);
                *chunk.index_mut(local) = val;
                assert(chunk@ =~= Seq::new(4096, |i: int| d).update(cell_index(local), val));
                self.load_chunk(cpos, chunk);
                proof {
                    old(self).lemma_wf();
                    assert forall|q: IVec3| true implies #[trigger] self.cell(q) == if q == idx {
                        Some(val)
                    } else if major(q) == cpos {
                        Some(d)
                    } else {
                        old(self).cell(q)
                    } by {
                        lemma_write_cell(old_map, idx, val, d, q);
                        assert(self.chunk_map() =~= write_cell(old_map, idx, val, d));
                    }
                }
                assert(is_default(d));
                proof {
                    let ghost l = old(self).new_chunk_list();
                    assert forall|a: IVec3| #[trigger]
                        l.push(cpos).contains(a) <==> l.to_set().insert(cpos).contains(a) by {
                        if l.push(cpos).contains(a) {
                            let j = choose|j: int| 0 <= j < l.len() + 1 && l.push(cpos)[j] == a;
                            if j < l.len() {
                                assert(l[j] == a);
                            }
                        }
                        if l.contains(a) {
                            let j = choose|j: int| 0 <= j < l.len() && l[j] == a;
                            assert(l.push(cpos)[j] == a);
                        }
                        if a == cpos {
                            assert(l.push(cpos)[l.len() as int] == a);
                        }
                    }
                    assert(l.push(cpos).to_set() =~= l.to_set().insert(cpos));
                }
                assert(self.settled() =~= old(self).settled());
            },
        }
    }
}

impl<T: PartialEq> Grid<T> {
    /// The voxels of loaded chunks whose value differs from `d`.
    pub open spec fn cells_differing_from(&self, d: T) -> Set<IVec3> {
        cells_differing(self.chunk_map(), d)
    }

    /// The voxels of loaded chunks whose value differs from the value `dflt`
    /// gives for that voxel.
    pub open spec fn cells_differing_each(&self, dflt: spec_fn(IVec3) -> T) -> Set<IVec3> {
        cells_differing_each(self.chunk_map(), dflt)
    }

    /// The voxels of `cells_differing_each(dflt)` that lie in a slot before
    /// `s`, or in slot `s` at a storage position before `j`.
    spec fn counted(&self, dflt: spec_fn(IVec3) -> T, s: int, j: int) -> Set<IVec3> {
        Set::new(
            |p: IVec3|
                self.cells_differing_each(dflt).contains(p) && (self.slot(major(p)) < s || (
                self.slot(major(p)) == s && cell_index(minor(p)) < j)),
        )
    }

    /// Visiting position `j` of slot `s` adds that voxel to the counted set
    /// exactly when it differs from the value `dflt` gives for it; the voxel is
    /// not in the set yet, so what `dflt` gives for it does not matter before.
    proof fn lemma_counted_step(&self, dflt: spec_fn(IVec3) -> T, s: int, j: int)
        requires
            self.wf(),
            0 <= s < self.chunks@.len(),
            0 <= j < 4096,
        ensures
            ({
                let p = join(self.coords@[s], cell_at(j));
                &&& !self.counted(dflt, s, j).contains(p)
                &&& self.cell(p) == Some(self.chunks@[s]@[j])
                &&& self.counted(dflt, s, j + 1) == if !self.chunks@[s]@[j].eq_spec(&dflt(p)) {
                    self.counted(dflt, s, j).insert(p)
                } else {
                    self.counted(dflt, s, j)
                }
                &&& forall|other: spec_fn(IVec3) -> T|
                    (forall|q: IVec3| q != p ==> #[trigger] other(q) == dflt(q)) ==> #[trigger]
                        self.counted(other, s, j) == self.counted(dflt, s, j)
            }),
    {
        let c = self.coords@[s];
        let m = cell_at(j);
        let p = join(c, m);
        lemma_cell_index_bijective(m, j);
        lemma_join(c, m);
        assert(self.has(c) && self.slot(c) == s);
        assert(self.chunks@[s].wf());
        assert(self.cell(p) == Some(self.chunks@[s]@[j]));
        assert forall|q: IVec3|
            #[trigger] self.counted(dflt, s, j + 1).contains(q) && !self.counted(dflt, s, j).contains(q)
            implies q == p by {
            lemma_split(q);
            let k = chunk_key(major(q)) as u128;
            lemma_key_bijective(major(q), 0);
            assert(chunk_key(self.coords@[s]) == k);
            lemma_key_injective(self.coords@[s], major(q));
            lemma_cell_index_bijective(minor(q), j);
        }
        if !self.chunks@[s]@[j].eq_spec(&dflt(p)) {
            assert(self.counted(dflt, s, j + 1) =~= self.counted(dflt, s, j).insert(p));
        } else {
            assert(self.counted(dflt, s, j + 1) =~= self.counted(dflt, s, j));
        }
        assert forall|other: spec_fn(IVec3) -> T|
            (forall|q: IVec3| q != p ==> #[trigger] other(q) == dflt(q)) implies #[trigger]
            self.counted(other, s, j) == self.counted(dflt, s, j) by {
            assert(self.counted(other, s, j) =~= self.counted(dflt, s, j));
        }
    }

    /// Slot `s` fully visited is slot `s + 1` not yet visited; all slots
    /// visited is the whole set.
    proof fn lemma_counted_bounds(&self, dflt: spec_fn(IVec3) -> T, s: int)
        requires
            self.wf(),
            0 <= s <= self.chunks@.len(),
        ensures
            self.counted(dflt, 0, 0) == Set::<IVec3>::empty(),
            s < self.chunks@.len() ==> self.counted(dflt, s, 4096) == self.counted(dflt, s + 1, 0),
            self.counted(dflt, self.chunks@.len() as int, 0) == self.cells_differing_each(dflt),
    {
        assert forall|q: IVec3| #[trigger] self.cells_differing_each(dflt).contains(q) implies 0
            <= self.slot(major(q)) < self.chunks@.len() && 0 <= cell_index(minor(q)) < 4096 by {
            lemma_split(q);
            lemma_cell_index_bijective(minor(q), 0);
        }
        assert(self.counted(dflt, 0, 0) =~= Set::<IVec3>::empty());
        assert(self.counted(dflt, s, 4096) =~= self.counted(dflt, s + 1, 0));
        assert(self.counted(dflt, self.chunks@.len() as int, 0) =~= self.cells_differing_each(dflt));
    }

    proof fn lemma_counted_finite(&self, dflt: spec_fn(IVec3) -> T, s: int, j: int)
        requires
            self.wf(),
            0 <= s <= self.chunks@.len(),
            0 <= j <= 4096,
            s == self.chunks@.len() ==> j == 0,
        ensures
            self.counted(dflt, s, j).finite(),
        decreases s, j,
    {
        if j > 0 {
            self.lemma_counted_finite(dflt, s, j - 1);
            self.lemma_counted_step(dflt, s, j - 1);
        } else if s > 0 {
            self.lemma_counted_finite(dflt, s - 1, 4096);
            self.lemma_counted_bounds(dflt, s - 1);
        } else {
            self.lemma_counted_bounds(dflt, 0);
        }
    }

    /// A well-formed grid has finitely many voxels that differ from the
    /// values `dflt` gives.
    pub proof fn lemma_cells_differing_each_finite(&self, dflt: spec_fn(IVec3) -> T)
        requires
            self.wf(),
        ensures
            self.cells_differing_each(dflt).finite(),
    {
        self.lemma_counted_finite(dflt, self.chunks@.len() as int, 0);
        self.lemma_counted_bounds(dflt, self.chunks@.len() as int);
    }

    /// A well-formed grid has finitely many voxels that differ from `d`.
    pub proof fn lemma_cells_differing_finite(&self, d: T)
        requires
            self.wf(),
        ensures
            self.cells_differing_from(d).finite(),
    {
        let dflt = |q: IVec3| d;
        self.lemma_cells_differing_each_finite(dflt);
        assert(self.cells_differing_each(dflt) =~= self.cells_differing_from(d));
    }

    /// Counting after a write: when `after` holds the chunks of `before` with
    /// `v` written at voxel `p` (a freshly added chunk filled with a value equal
    /// to `d`), the number of voxels differing from `d` drops by one if `p`
    /// differed before and grows by one if `v` differs.
    pub proof fn lemma_count_after_write(before: &Self, after: &Self, p: IVec3, v: T, fresh: T, d: T)
        requires
            before.wf(),
            after.chunk_map() == write_cell(before.chunk_map(), p, v, fresh),
            fresh.eq_spec(&d),
        ensures
            after.cells_differing_from(d).finite(),
            after.cells_differing_from(d).len() == before.cells_differing_from(d).len() - (
            if before.cell(p) is Some && !before.cell(p).unwrap().eq_spec(&d) {
                1int
            } else {
                0int
            }) + (if !v.eq_spec(&d) {
                1int
            } else {
                0int
            }),
    {
        before.lemma_wf();
        before.lemma_cells_differing_finite(d);
        lemma_write_count(before.chunk_map(), p, v, fresh, d);
    }
}

impl<T: Default + PartialEq> Grid<T> {
    /// Counts the voxels whose value is `!= T::default()`, calling
    /// `T::default()` afresh for each comparison.
    pub fn count(&self) -> (r: usize)
        requires
            self.wf(),
            self.num_chunks() * 4096 <= usize::MAX || (T::obeys_eq_spec() && forall|
                dflt: spec_fn(IVec3) -> T,
            |
                all_default(dflt) ==> #[trigger] self.cells_differing_each(dflt).len()
                    <= usize::MAX),
        ensures
            r <= self.num_chunks() * 4096,
            self.num_chunks() == 0 ==> r == 0,
            T::obeys_eq_spec() && self.num_chunks() > 0 ==> exists|dflt: spec_fn(IVec3) -> T|
                #[trigger] all_default(dflt) && self.cells_differing_each(dflt).finite() && r
                    == self.cells_differing_each(dflt).len(),
            T::obeys_eq_spec() && default_is_unique::<T>() && self.num_chunks() > 0 ==> exists|
                d: T,
            | #[trigger] is_default(d) && self.cells_differing_from(d).finite() && r
                == self.cells_differing_from(d).len(),
    {
        let n = self.chunks.len();
        let mut count: usize = 0;
        let mut s: usize = 0;
        let ghost mut dflt: spec_fn(IVec3) -> T = |q: IVec3| arbitrary();
        proof {
            self.lemma_counted_bounds(dflt, 0);
        }
        while s < n
            invariant
                self.wf(),
                n == self.chunks@.len(),
                self.num_chunks() * 4096 <= usize::MAX || (T::obeys_eq_spec() && forall|
                    dflt: spec_fn(IVec3) -> T,
                |
                    all_default(dflt) ==> #[trigger] self.cells_differing_each(dflt).len()
                        <= usize::MAX),
                s <= n,
                count <= s * 4096,
                s > 0 ==> all_default(dflt),
                T::obeys_eq_spec() ==> {
                    &&& self.counted(dflt, s as int, 0).finite()
                    &&& count == self.counted(dflt, s as int, 0).len()
                },
            decreases n - s,
        {
            let chunk = &self.chunks[s];
            let mut j: usize = 0;
            while j < CELLS
                invariant
                    self.wf(),
                    n == self.chunks@.len(),
                    self.num_chunks() * 4096 <= usize::MAX || (T::obeys_eq_spec() && forall|
                        dflt: spec_fn(IVec3) -> T,
                    |
                        all_default(dflt) ==> #[trigger] self.cells_differing_each(dflt).len()
                            <= usize::MAX),
                    s < n,
                    j <= CELLS,
                    *chunk == self.chunks@[s as int],
                    count <= s * 4096 + j,
                    s > 0 || j > 0 ==> all_default(dflt),
                    T::obeys_eq_spec() ==> {
                        &&& self.counted(dflt, s as int, j as int).finite()
                        &&& count == self.counted(dflt, s as int, j as int).len()
                    },
                decreases CELLS - j,
            {
                let m = cell_of_position(j);
                let d = T::default();
                let ghost p = join(self.coords@[s as int], cell_at(j as int));
                proof {
                    assert(is_default(d));
                    let ghost prev = dflt;
                    if s == 0 && j == 0 {
                        dflt = |q: IVec3| d;
                    } else {
                        dflt = |q: IVec3| if q == p { d } else { prev(q) };
                    }
                    self.lemma_counted_step(prev, s as int, j as int);
                    self.lemma_counted_step(dflt, s as int, j as int);
                    if s == 0 && j == 0 {
                        self.lemma_counted_bounds(dflt, 0);
                        self.lemma_counted_bounds(prev, 0);
                    } else {
                        assert(forall|q: IVec3| q != p ==> #[trigger] dflt(q) == prev(q));
                    }
                    assert(all_default(dflt));
                    assert(dflt(p) == d);
                    assert(self.chunks@[s as int].wf());
                }
                if *chunk.index(m) != d {
                    proof {
                        if !(self.num_chunks() * 4096 <= usize::MAX) {
                            self.lemma_cells_differing_each_finite(dflt);
                            self.lemma_counted_bounds(dflt, n as int);
                            assert(self.counted(dflt, s as int, j as int).insert(p).subset_of(
                                self.cells_differing_each(dflt),
                            ));
                            vstd::set_lib::lemma_len_subset(
                                self.counted(dflt, s as int, j as int).insert(p),
                                self.cells_differing_each(dflt),
                            );
                        }
                    }
                    count = count + 1;
                }
                j = j + 1;
            }
            proof {
                self.lemma_counted_bounds(dflt, s as int);
            }
            s = s + 1;
        }
        proof {
            self.lemma_counted_bounds(dflt, s as int);
            if T::obeys_eq_spec() && n > 0 {
                self.lemma_cells_differing_each_finite(dflt);
                assert(all_default(dflt));
                if default_is_unique::<T>() {
                    let d = dflt(IVec3 { x: 0, y: 0, z: 0 });
                    assert(is_default(d));
                    assert forall|q: IVec3| #[trigger] dflt(q) == d by {
                        assert(is_default(dflt(q)));
                    }
                    assert(self.cells_differing_each(dflt) =~= self.cells_differing_from(d));
                    self.lemma_cells_differing_finite(d);
                }
            }
        }
        count
    }
}

} // verus!
