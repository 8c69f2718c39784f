//! A cubic chunk of `N * N * N` cells.

use vstd::prelude::*;

use crate::ivec::IVec3;

verus! {

/// Edge length of a chunk, in cells.
pub const N: usize = 16;

/// Number of cells in a chunk (`N * N * N`).
pub const CELLS: usize = 4096;

/// The chunk dimensions as a vector: `N` on every axis.
pub fn dims() -> (r: IVec3)
    ensures
        r == (IVec3 { x: 16, y: 16, z: 16 }),
{
    IVec3 { x: 16, y: 16, z: 16 }
}

/// `idx` addresses a cell of a chunk: every component is in `0..N`.
pub open spec fn in_chunk(idx: IVec3) -> bool {
    &&& 0 <= idx.x < 16
    &&& 0 <= idx.y < 16
    &&& 0 <= idx.z < 16
}

/// Position of cell `idx` in the chunk's storage order: `y` is the slowest
/// axis, then `z`, then `x`.
pub open spec fn cell_index(idx: IVec3) -> int {
    idx.y * 256 + idx.z * 16 + idx.x
}

/// The cell stored at position `i` (the inverse of `cell_index`).
pub open spec fn cell_at(i: int) -> IVec3 {
    IVec3 { x: (i % 16) as i32, y: (i / 256) as i32, z: ((i / 16) % 16) as i32 }
}

/// `cell_index` and `cell_at` are inverse bijections between the cells of a
/// chunk and the positions `0..CELLS`.
pub proof fn lemma_cell_index_bijective(idx: IVec3, i: int)
    ensures
        in_chunk(idx) ==> 0 <= cell_index(idx) < 4096 && cell_at(cell_index(idx)) == idx,
        0 <= i < 4096 ==> in_chunk(cell_at(i)) && cell_index(cell_at(i)) == i,
{
    if in_chunk(idx) {
        let k = cell_index(idx);
        assert(k % 16 == idx.x && k / 16 == idx.y * 16 + idx.z && k / 256 == idx.y) by (nonlinear_arith)
            requires
                k == idx.y * 256 + idx.z * 16 + idx.x,
                0 <= idx.x < 16,
                0 <= idx.y < 16,
                0 <= idx.z < 16,
        ;
        assert((idx.y * 16 + idx.z) % 16 == idx.z) by (nonlinear_arith)
            requires
                0 <= idx.z < 16,
                0 <= idx.y < 16,
        ;
    }
    if 0 <= i < 4096 {
        let x = i % 16;
        let z = (i / 16) % 16;
        let y = i / 256;
        assert(0 <= x < 16 && 0 <= z < 16 && 0 <= y < 16 && y * 256 + z * 16 + x == i) by (nonlinear_arith)
            requires
                0 <= i < 4096,
                x == i % 16,
                z == (i / 16) % 16,
                y == i / 256,
        ;
    }
}

/// Storage position of a cell, computed.
fn cell_offset(idx: IVec3) -> (r: usize)
    requires
        in_chunk(idx),
    ensures
        r == cell_index(idx),
        r < CELLS,
{
    (idx.y as usize) * 256 + (idx.z as usize) * 16 + (idx.x as usize)
}

/// The cell stored at position `i`, computed.
pub(crate) fn cell_of_position(i: usize) -> (r: IVec3)
    requires
        i < CELLS,
    ensures
        r == cell_at(i as int),
        in_chunk(r),
        cell_index(r) == i,
{
    proof {
        lemma_cell_index_bijective(IVec3 { x: 0, y: 0, z: 0 }, i as int);
    }
    IVec3 { x: (i % 16) as i32, y: (i / 256) as i32, z: ((i / 16) % 16) as i32 }
}

/// `d` is a value that `T::default()` returns.
pub open spec fn is_default<T: Default>(d: T) -> bool {
    call_ensures(T::default, (), d)
}

/// A cube of `N * N * N` cells of type `T`.
pub struct Chunk<T> {
    cells: Vec<T>,
}

impl<T> View for Chunk<T> {
    type V = Seq<T>;

    /// The cells, in storage order (see `cell_index`).
    closed spec fn view(&self) -> Seq<T> {
        self.cells@
    }
}

impl<T> Chunk<T> {
    /// The chunk holds exactly `CELLS` cells.
    pub open spec fn wf(&self) -> bool {
        self@.len() == 4096
    }

    /// The value of cell `idx` (meaningful when `in_chunk(idx)`).
    pub open spec fn cell(&self, idx: IVec3) -> T {
        self@[cell_index(idx)]
    }

    /// The cell at `idx`, or `None` when `idx` lies outside the chunk (any
    /// component negative or `>= N`).
    pub fn get(&self, idx: IVec3) -> (r: Option<&T>)
        requires
            self.wf(),
        ensures
            r == (if in_chunk(idx) {
                Some(&self.cell(idx))
            } else {
                None
            }),
    {
        if 0 <= idx.x && idx.x < 16 && 0 <= idx.y && idx.y < 16 && 0 <= idx.z && idx.z < 16 {
            let i = cell_offset(idx);
            Some(&self.cells[i])
        } else {
            None
        }
    }

    /// Mutable access to the cell at `idx`, or `None` when `idx` lies outside
    /// the chunk. Writing through the reference changes that cell only.
    pub fn get_mut(&mut self, idx: IVec3) -> (r: Option<&mut T>)
        requires
            old(self).wf(),
        ensures
            in_chunk(idx) ==> {
                &&& r.is_some()
                &&& *r.unwrap() == old(self).cell(idx)
                &&& final(self)@ == old(self)@.update(cell_index(idx), *final(r.unwrap()))
            },
            !in_chunk(idx) ==> r.is_none() && final(self)@ == old(self)@,
    {
        if 0 <= idx.x && idx.x < 16 && 0 <= idx.y && idx.y < 16 && 0 <= idx.z && idx.z < 16 {
            let i = cell_offset(idx);
            Some(&mut self.cells[i])
        } else {
            None
        }
    }

    /// The cell at `idx`, which must lie inside the chunk.
    pub fn index(&self, idx: IVec3) -> (r: &T)
        requires
            self.wf(),
            in_chunk(idx),
        ensures
            *r == self.cell(idx),
    {
        let i = cell_offset(idx);
        &self.cells[i]
    }

    /// Mutable access to the cell at `idx`, which must lie inside the chunk.
    pub fn index_mut(&mut self, idx: IVec3) -> (r: &mut T)
        requires
            old(self).wf(),
            in_chunk(idx),
        ensures
            *r == old(self).cell(idx),
            final(self)@ == old(self)@.update(cell_index(idx), *final(r)),
    {
        let i = cell_offset(idx);
        &mut self.cells[i]
    }
}

impl<T: Copy> Chunk<T> {
    /// A chunk with every cell set to `fill`.
    pub fn new(fill: T) -> (r: Self)
        ensures
            r.wf(),
            forall|i: int| 0 <= i < 4096 ==> #[trigger] r@[i] == fill,
    {
        let mut cells: Vec<T> = Vec::new();
        let mut k: usize = 0;
        while k < CELLS
            invariant
                k <= CELLS,
                cells@.len() == k,
                forall|i: int| 0 <= i < k ==> #[trigger] cells@[i] == fill,
            decreases CELLS - k,
        {
            cells.push(fill);
            k = k + 1;
        }
        Chunk { cells }
    }
}

impl<T: Default> Default for Chunk<T> {
    /// A chunk with every cell set by its own call of `T::default()`.
    fn default() -> (r: Self)
        ensures
            r.wf(),
            forall|i: int| 0 <= i < 4096 ==> #[trigger] is_default(r@[i]),
    {
        let mut cells: Vec<T> = Vec::new();
        let mut k: usize = 0;
        while k < CELLS
            invariant
                k <= CELLS,
                cells@.len() == k,
                forall|i: int| 0 <= i < k ==> #[trigger] is_default(cells@[i]),
            decreases CELLS - k,
        {
            cells.push(T::default());
            k = k + 1;
        }
        Chunk { cells }
    }
}

} // verus!
