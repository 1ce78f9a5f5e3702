//! Fixed-extent dense tiles of cells.
//!
//! A [`Chunk`] owns exactly `extent * extent` cells in a flat, row-major
//! buffer; it has no notion of emptiness. A [`ChunkSparse`] owns the same
//! storage of optional cells, where a vacant slot holds no value.

use vstd::prelude::*;
use vstd::pervasive::VecAdditionalExecFns;
use vstd::arithmetic::div_mod::{
    lemma_fundamental_div_mod,
    lemma_fundamental_div_mod_converse_div,
    lemma_fundamental_div_mod_converse_mod,
};
use crate::{LocalPos, MAX_EXTENT};

verus! {

/// Row-major flat index of a local coordinate inside a chunk of extent `e`.
pub open spec fn flat_index(e: int, l: LocalPos) -> int {
    l.y as int * e + l.x as int
}

/// The local coordinate stored at flat index `i` inside a chunk of extent `e`.
pub open spec fn local_of_index(e: int, i: int) -> LocalPos {
    LocalPos { x: (i % e) as usize, y: (i / e) as usize }
}

/// A local coordinate addresses a cell of a chunk of extent `e` when both of
/// its axes lie in `[0, e)`.
pub open spec fn local_in_extent(e: int, l: LocalPos) -> bool {
    l.x < e && l.y < e
}

/// Row-major indexing is a bijection between local coordinates and `[0, e*e)`:
/// every in-extent local coordinate maps to an in-range flat index and back.
pub proof fn lemma_flat_index(e: int, l: LocalPos)
    requires
        1 <= e,
        local_in_extent(e, l),
    ensures
        0 <= flat_index(e, l) < e * e,
        local_of_index(e, flat_index(e, l)) == l,
{
    let i = flat_index(e, l);
    assert(0 <= i < e * e) by (nonlinear_arith)
        requires
            1 <= e,
            0 <= l.x < e,
            0 <= l.y < e,
            i == l.y * e + l.x,
    ;
    lemma_fundamental_div_mod_converse_div(i, e, l.y as int, l.x as int);
    lemma_fundamental_div_mod_converse_mod(i, e, l.y as int, l.x as int);
}

/// Inverse direction of the row-major bijection: every flat index in
/// `[0, e*e)` decodes to an in-extent local coordinate that encodes back to it.
pub proof fn lemma_local_of_index(e: int, i: int)
    requires
        1 <= e <= MAX_EXTENT,
        0 <= i < e * e,
    ensures
        local_in_extent(e, local_of_index(e, i)),
        flat_index(e, local_of_index(e, i)) == i,
{
    lemma_fundamental_div_mod(i, e);
    assert((i / e) * e == e * (i / e)) by (nonlinear_arith);
    assert(i / e < e) by (nonlinear_arith)
        requires
            1 <= e,
            0 <= i < e * e,
            i == e * (i / e) + (i % e),
            0 <= i % e < e,
    ;
}

/// A dense fixed-extent tile: `extent * extent` cells in row-major order.
#[derive(Debug, Clone)]
pub struct Chunk<T> {
    /// Cell count per axis; fixed at construction, at least 1.
    pub extent: usize,
    /// Row-major cell storage of length `extent * extent`.
    pub cells: Vec<T>,
}

impl<T> Chunk<T> {
    /// Structural invariant: the extent is in range and the flat buffer holds
    /// exactly one cell per position of the tile.
    pub open spec fn wf(self) -> bool {
        &&& 1 <= self.extent <= MAX_EXTENT
        &&& self.cells@.len() == self.extent * self.extent
    }

    /// Whether a local coordinate addresses a cell of this chunk.
    pub open spec fn valid_local(self, l: LocalPos) -> bool {
        local_in_extent(self.extent as int, l)
    }

    /// The value stored at a local coordinate.
    pub open spec fn cell(self, l: LocalPos) -> T {
        self.cells@[flat_index(self.extent as int, l)]
    }
}

impl<T: Copy> Chunk<T> {
    /// Builds a chunk with every cell holding `fill`.
    pub fn new(extent: usize, fill: T) -> (r: Self)
        requires
            1 <= extent <= MAX_EXTENT,
        ensures
            r.wf(),
            r.extent == extent,
            forall|i: int| 0 <= i < r.cells@.len() ==> r.cells@[i] == fill,
            forall|l: LocalPos| r.valid_local(l) ==> r.cell(l) == fill,
    {
        proof {
            assert(extent * extent <= MAX_EXTENT * MAX_EXTENT) by (nonlinear_arith)
                requires
                    1 <= extent <= MAX_EXTENT,
            ;
        }
        let n: usize = extent * extent;
        let mut cells: Vec<T> = Vec::new();
        let mut i: usize = 0;
        while i < n
            invariant
                i <= n,
                cells@.len() == i,
                forall|k: int| 0 <= k < i ==> cells@[k] == fill,
            decreases n - i,
        {
            cells.push(fill);
            i = i + 1;
        }
        let r = Chunk { extent, cells };
        proof {
            assert forall|l: LocalPos| r.valid_local(l) implies r.cell(l) == fill by {
                lemma_flat_index(extent as int, l);
            }
        }
        r
    }
}

/// Computes the row-major flat index of an in-extent local coordinate.
fn flat(extent: usize, pos: LocalPos) -> (r: usize)
    requires
        1 <= extent <= MAX_EXTENT,
        local_in_extent(extent as int, pos),
    ensures
        r == flat_index(extent as int, pos),
        r < extent * extent,
{
    proof {
        lemma_flat_index(extent as int, pos);
        assert(extent * extent <= MAX_EXTENT * MAX_EXTENT) by (nonlinear_arith)
            requires
                1 <= extent <= MAX_EXTENT,
        ;
    }
    pos.y * extent + pos.x
}

/// Decodes a flat index into the local coordinate it addresses.
fn local_of(extent: usize, i: usize) -> (r: LocalPos)
    requires
        1 <= extent <= MAX_EXTENT,
        i < extent * extent,
    ensures
        r == local_of_index(extent as int, i as int),
        local_in_extent(extent as int, r),
        flat_index(extent as int, r) == i,
{
    proof {
        lemma_local_of_index(extent as int, i as int);
    }
    LocalPos { x: i % extent, y: i / extent }
}

impl<T> Chunk<T> {
    /// Returns a reference to the cell at an in-extent local coordinate.
    pub fn get(&self, pos: LocalPos) -> (r: &T)
        requires
            self.wf(),
            self.valid_local(pos),
        ensures
            *r == self.cell(pos),
    {
        let i = flat(self.extent, pos);
        &self.cells[i]
    }

    /// Overwrites the cell at an in-extent local coordinate, leaving every
    /// other cell unchanged.
    pub fn set(&mut self, pos: LocalPos, value: T)
        requires
            old(self).wf(),
            old(self).valid_local(pos),
        ensures
            final(self).wf(),
            final(self).extent == old(self).extent,
            final(self).cells@ == old(self).cells@.update(
                flat_index(old(self).extent as int, pos),
                value,
            ),
            final(self).cell(pos) == value,
            forall|l: LocalPos|
                old(self).valid_local(l) && l != pos ==> final(self).cell(l) == old(self).cell(l),
    {
        let i = flat(self.extent, pos);
        self.cells.set(i, value);
        proof {
            let e = old(self).extent as int;
            assert forall|l: LocalPos| old(self).valid_local(l) && l != pos implies self.cell(l)
                == old(self).cell(l) by {
                lemma_flat_index(e, l);
                lemma_flat_index(e, pos);
            }
        }
    }

    /// Builds a chunk whose cell at each local coordinate is produced by the
    /// caller-supplied generator, enabling coordinate-dependent initialization.
    pub fn init<F: Fn(LocalPos) -> T>(extent: usize, f: F) -> (r: Self)
        requires
            1 <= extent <= MAX_EXTENT,
            forall|l: LocalPos| local_in_extent(extent as int, l) ==> call_requires(f, (l,)),
        ensures
            r.wf(),
            r.extent == extent,
            forall|l: LocalPos| r.valid_local(l) ==> call_ensures(f, (l,), #[trigger] r.cell(l)),
    {
        proof {
            assert(extent * extent <= MAX_EXTENT * MAX_EXTENT) by (nonlinear_arith)
                requires
                    1 <= extent <= MAX_EXTENT,
            ;
        }
        let n: usize = extent * extent;
        let mut cells: Vec<T> = Vec::new();
        let mut i: usize = 0;
        while i < n
            invariant
                1 <= extent <= MAX_EXTENT,
                n == extent * extent,
                i <= n,
                cells@.len() == i,
                forall|l: LocalPos| local_in_extent(extent as int, l) ==> call_requires(f, (l,)),
                forall|k: int|
                    0 <= k < i ==> call_ensures(
                        f,
                        (local_of_index(extent as int, k),),
                        #[trigger] cells@[k],
                    ),
            decreases n - i,
        {
            let l = local_of(extent, i);
            let v = f(l);
            cells.push(v);
            i = i + 1;
        }
        let r = Chunk { extent, cells };
        proof {
            assert forall|l: LocalPos| r.valid_local(l) implies call_ensures(
                f,
                (l,),
                #[trigger] r.cell(l),
            ) by {
                lemma_flat_index(extent as int, l);
            }
        }
        r
    }
}

impl<T> Chunk<T> {
    /// Returns the cell count per axis of this chunk.
    pub fn extent(&self) -> (r: usize)
        ensures
            r == self.extent,
    {
        self.extent
    }

    /// Returns the total number of cells this chunk owns.
    pub fn len(&self) -> (r: usize)
        requires
            self.wf(),
        ensures
            r == self.cells@.len(),
            r == self.extent * self.extent,
    {
        self.cells.len()
    }
}

impl<T> ChunkSparse<T> {
    /// Returns the slot count per axis of this chunk.
    pub fn extent(&self) -> (r: usize)
        ensures
            r == self.inner.extent,
    {
        self.inner.extent
    }
}

impl<T: Copy> Chunk<T> {
    /// Applies a function to every cell, producing a chunk of the results in
    /// the same positions.
    pub fn map<U, F: Fn(T) -> U>(&self, f: F) -> (r: Chunk<U>)
        requires
            self.wf(),
            forall|i: int| 0 <= i < self.cells@.len() ==> call_requires(f, (self.cells@[i],)),
        ensures
            r.wf(),
            r.extent == self.extent,
            forall|i: int|
                0 <= i < r.cells@.len() ==> call_ensures(
                    f,
                    (self.cells@[i],),
                    #[trigger] r.cells@[i],
                ),
            forall|l: LocalPos|
                self.valid_local(l) ==> call_ensures(f, (self.cell(l),), #[trigger] r.cell(l)),
    {
        let n: usize = self.cells.len();
        let mut cells: Vec<U> = Vec::new();
        let mut i: usize = 0;
        while i < n
            invariant
                self.wf(),
                n == self.cells@.len(),
                i <= n,
                cells@.len() == i,
                forall|k: int| 0 <= k < n ==> call_requires(f, (self.cells@[k],)),
                forall|k: int|
                    0 <= k < i ==> call_ensures(f, (self.cells@[k],), #[trigger] cells@[k]),
            decreases n - i,
        {
            let v = f(self.cells[i]);
            cells.push(v);
            i = i + 1;
        }
        let r = Chunk { extent: self.extent, cells };
        proof {
            assert forall|l: LocalPos| self.valid_local(l) implies call_ensures(
                f,
                (self.cell(l),),
                #[trigger] r.cell(l),
            ) by {
                lemma_flat_index(self.extent as int, l);
            }
        }
        r
    }

    /// Copies the cells out as a flat vector in row-major order.
    pub fn to_vec(&self) -> (r: Vec<T>)
        requires
            self.wf(),
        ensures
            r@ == self.cells@,
    {
        let n: usize = self.cells.len();
        let mut out: Vec<T> = Vec::new();
        let mut i: usize = 0;
        while i < n
            invariant
                n == self.cells@.len(),
                i <= n,
                out@ == self.cells@.take(i as int),
            decreases n - i,
        {
            out.push(self.cells[i]);
            proof {
                assert(out@ =~= self.cells@.take(i + 1 as int));
            }
            i = i + 1;
        }
        proof {
            assert(out@ =~= self.cells@);
        }
        out
    }

    /// Returns every cell value in row-major order.
    pub fn iter(&self) -> (r: Vec<T>)
        requires
            self.wf(),
        ensures
            r@ == self.cells@,
    {
        self.to_vec()
    }

    /// Returns every (local coordinate, cell value) pair in row-major order.
    pub fn cells(&self) -> (r: Vec<(LocalPos, T)>)
        requires
            self.wf(),
        ensures
            r@.len() == self.cells@.len(),
            forall|k: int|
                0 <= k < r@.len() ==> #[trigger] r@[k] == (
                    local_of_index(self.extent as int, k),
                    self.cells@[k],
                ),
    {
        let n: usize = self.cells.len();
        let mut out: Vec<(LocalPos, T)> = Vec::new();
        let mut i: usize = 0;
        while i < n
            invariant
                self.wf(),
                n == self.cells@.len(),
                i <= n,
                out@.len() == i,
                forall|k: int|
                    0 <= k < i ==> #[trigger] out@[k] == (
                        local_of_index(self.extent as int, k),
                        self.cells@[k],
                    ),
            decreases n - i,
        {
            let l = local_of(self.extent, i);
            out.push((l, self.cells[i]));
            i = i + 1;
        }
        out
    }

    /// Consumes the chunk, returning every (local coordinate, cell value)
    /// pair in row-major order.
    pub fn into_cells(self) -> (r: Vec<(LocalPos, T)>)
        requires
            self.wf(),
        ensures
            r@.len() == self.cells@.len(),
            forall|k: int|
                0 <= k < r@.len() ==> #[trigger] r@[k] == (
                    local_of_index(self.extent as int, k),
                    self.cells@[k],
                ),
    {
        self.cells()
    }

    /// Copies out the row of cells with the given `y` coordinate.
    pub fn horizontal_slice(&self, y: usize) -> (r: Vec<T>)
        requires
            self.wf(),
            y < self.extent,
        ensures
            r@.len() == self.extent,
            forall|x: int|
                0 <= x < self.extent ==> #[trigger] r@[x] == self.cell(
                    LocalPos { x: x as usize, y },
                ),
    {
        let e: usize = self.extent;
        let mut out: Vec<T> = Vec::new();
        let mut x: usize = 0;
        while x < e
            invariant
                self.wf(),
                e == self.extent,
                y < e,
                x <= e,
                out@.len() == x,
                forall|k: int|
                    0 <= k < x ==> #[trigger] out@[k] == self.cell(LocalPos { x: k as usize, y }),
            decreases e - x,
        {
            out.push(*self.get(LocalPos { x, y }));
            x = x + 1;
        }
        out
    }

    /// Copies out the column of cells with the given `x` coordinate.
    pub fn vertical_slice(&self, x: usize) -> (r: Vec<T>)
        requires
            self.wf(),
            x < self.extent,
        ensures
            r@.len() == self.extent,
            forall|y: int|
                0 <= y < self.extent ==> #[trigger] r@[y] == self.cell(
                    LocalPos { x, y: y as usize },
                ),
    {
        let e: usize = self.extent;
        let mut out: Vec<T> = Vec::new();
        let mut y: usize = 0;
        while y < e
            invariant
                self.wf(),
                e == self.extent,
                x < e,
                y <= e,
                out@.len() == y,
                forall|k: int|
                    0 <= k < y ==> #[trigger] out@[k] == self.cell(LocalPos { x, y: k as usize }),
            decreases e - y,
        {
            out.push(*self.get(LocalPos { x, y }));
            y = y + 1;
        }
        out
    }
}

/// The occupied values among `s[k..]`, in order of increasing flat index.
pub open spec fn occupied_seq<T>(s: Seq<Option<T>>, k: int) -> Seq<T>
    decreases s.len() - k when 0 <= k <= s.len()
{
    if k == s.len() {
        Seq::empty()
    } else {
        match s[k] {
            Some(v) => seq![v] + occupied_seq(s, k + 1),
            None => occupied_seq(s, k + 1),
        }
    }
}

/// The (local coordinate, value) pairs of the occupied slots among `s[k..]`,
/// in order of increasing flat index, for a chunk of extent `e`.
pub open spec fn occupied_cells_seq<T>(e: int, s: Seq<Option<T>>, k: int) -> Seq<(LocalPos, T)>
    decreases s.len() - k when 0 <= k <= s.len()
{
    if k == s.len() {
        Seq::empty()
    } else {
        match s[k] {
            Some(v) => seq![(local_of_index(e, k), v)] + occupied_cells_seq(e, s, k + 1),
            None => occupied_cells_seq(e, s, k + 1),
        }
    }
}

/// The occupied-cell enumeration of a chunk's slots is faithful: every
/// emitted pair reads back from the slots, the pairs come in strictly
/// increasing flat-index order (so their coordinates are pairwise distinct),
/// and every occupied slot from position `k` on is emitted.
#[verifier::rlimit(60)]
pub proof fn lemma_occupied_cells_props<T>(e: int, s: Seq<Option<T>>, k: int)
    requires
        1 <= e <= MAX_EXTENT,
        s.len() == e * e,
        0 <= k <= s.len(),
    ensures
        ({
            let r = occupied_cells_seq(e, s, k);
            &&& forall|j: int|
                0 <= j < r.len() ==> local_in_extent(e, (#[trigger] r[j]).0) && k <= flat_index(
                    e,
                    r[j].0,
                ) < s.len() && s[flat_index(e, r[j].0)] == Some(r[j].1)
            &&& forall|j1: int, j2: int|
                0 <= j1 < j2 < r.len() ==> flat_index(e, r[j1].0) < flat_index(e, r[j2].0)
            &&& forall|m: int|
                (k <= m < s.len() && s[m] is Some) ==> exists|j: int|
                    0 <= j < r.len() && (#[trigger] r[j]).0 == local_of_index(e, m)
        }),
    decreases s.len() - k,
{
    let r = occupied_cells_seq(e, s, k);
    if k == s.len() {
        // Empty enumeration: nothing to show.
    } else {
        lemma_occupied_cells_props(e, s, k + 1);
        let rest = occupied_cells_seq(e, s, k + 1);
        lemma_local_of_index(e, k);
        match s[k] {
            Some(v) => {
                let head = (local_of_index(e, k), v);
                assert(r == seq![head] + rest);
                assert(r[0] == head);
                assert(forall|j: int| 1 <= j < r.len() ==> r[j] == rest[j - 1]);
                assert forall|m: int| (k <= m < s.len() && s[m] is Some) implies exists|j: int|
                    0 <= j < r.len() && (#[trigger] r[j]).0 == local_of_index(e, m) by {
                    if m == k {
                        assert(r[0].0 == local_of_index(e, m));
                    } else {
                        let j = choose|j: int|
                            0 <= j < rest.len() && (#[trigger] rest[j]).0 == local_of_index(e, m);
                        assert(r[j + 1].0 == local_of_index(e, m));
                    }
                }
            },
            None => {
                assert(r == rest);
            },
        }
    }
}

/// A fixed-extent tile of optional cells: a vacant slot holds no value,
/// independently of whether the chunk itself exists in a grid.
#[derive(Debug, Clone)]
pub struct ChunkSparse<T> {
    /// The backing dense tile of optional cells.
    pub inner: Chunk<Option<T>>,
}

impl<T> ChunkSparse<T> {
    /// Structural invariant, inherited from the backing dense tile.
    pub open spec fn wf(self) -> bool {
        self.inner.wf()
    }

    /// Whether a local coordinate addresses a slot of this chunk.
    pub open spec fn valid_local(self, l: LocalPos) -> bool {
        self.inner.valid_local(l)
    }

    /// The optional value stored at a local coordinate.
    pub open spec fn cell(self, l: LocalPos) -> Option<T> {
        self.inner.cell(l)
    }

    /// Every slot of the chunk is vacant.
    pub open spec fn all_vacant(self) -> bool {
        forall|i: int| 0 <= i < self.inner.cells@.len() ==> self.inner.cells@[i] is None
    }

    /// Every slot of the chunk holds a value.
    pub open spec fn all_occupied(self) -> bool {
        forall|i: int| 0 <= i < self.inner.cells@.len() ==> self.inner.cells@[i] is Some
    }

    /// Returns a view of this chunk as a dense tile of optional cells.
    pub fn as_chunk(&self) -> (r: &Chunk<Option<T>>)
        ensures
            *r == self.inner,
    {
        &self.inner
    }

    /// Returns a reference to the optional value at an in-extent coordinate.
    pub fn get(&self, pos: LocalPos) -> (r: &Option<T>)
        requires
            self.wf(),
            self.valid_local(pos),
        ensures
            *r == self.cell(pos),
    {
        self.inner.get(pos)
    }

    /// Overwrites the slot at an in-extent coordinate, leaving every other
    /// slot unchanged.
    pub fn set(&mut self, pos: LocalPos, value: Option<T>)
        requires
            old(self).wf(),
            old(self).valid_local(pos),
        ensures
            final(self).wf(),
            final(self).inner.extent == old(self).inner.extent,
            final(self).inner.cells@ == old(self).inner.cells@.update(
                flat_index(old(self).inner.extent as int, pos),
                value,
            ),
            final(self).cell(pos) == value,
            forall|l: LocalPos|
                old(self).valid_local(l) && l != pos ==> final(self).cell(l) == old(self).cell(l),
    {
        self.inner.set(pos, value);
    }

    /// Returns true if every slot in this chunk is vacant.
    pub fn is_all_vacant(&self) -> (r: bool)
        requires
            self.wf(),
        ensures
            r == self.all_vacant(),
    {
        let n: usize = self.inner.cells.len();
        let mut i: usize = 0;
        while i < n
            invariant
                n == self.inner.cells@.len(),
                i <= n,
                forall|k: int| 0 <= k < i ==> self.inner.cells@[k] is None,
            decreases n - i,
        {
            if self.inner.cells[i].is_some() {
                return false;
            }
            i = i + 1;
        }
        true
    }

    /// Alias of [`ChunkSparse::is_all_vacant`], kept for callers of the older
    /// name.
    pub fn is_vacant(&self) -> (r: bool)
        requires
            self.wf(),
        ensures
            r == self.all_vacant(),
    {
        self.is_all_vacant()
    }

    /// Returns true if every slot in this chunk holds a value.
    pub fn is_all_occupied(&self) -> (r: bool)
        requires
            self.wf(),
        ensures
            r == self.all_occupied(),
    {
        let n: usize = self.inner.cells.len();
        let mut i: usize = 0;
        while i < n
            invariant
                n == self.inner.cells@.len(),
                i <= n,
                forall|k: int| 0 <= k < i ==> self.inner.cells@[k] is Some,
            decreases n - i,
        {
            if self.inner.cells[i].is_none() {
                return false;
            }
            i = i + 1;
        }
        true
    }
}

impl<T: Copy> ChunkSparse<T> {
    /// Builds a chunk with every slot vacant.
    pub fn new(extent: usize) -> (r: Self)
        requires
            1 <= extent <= MAX_EXTENT,
        ensures
            r.wf(),
            r.inner.extent == extent,
            r.all_vacant(),
    {
        ChunkSparse { inner: Chunk::new(extent, None) }
    }

    /// Builds a chunk whose slot at each local coordinate is produced by the
    /// caller-supplied generator.
    pub fn init<F: Fn(LocalPos) -> Option<T>>(extent: usize, f: F) -> (r: Self)
        requires
            1 <= extent <= MAX_EXTENT,
            forall|l: LocalPos| local_in_extent(extent as int, l) ==> call_requires(f, (l,)),
        ensures
            r.wf(),
            r.inner.extent == extent,
            forall|l: LocalPos| r.valid_local(l) ==> call_ensures(f, (l,), #[trigger] r.cell(l)),
    {
        ChunkSparse { inner: Chunk::init(extent, f) }
    }

    /// Applies a function to every slot (vacant or not), producing a dense
    /// chunk of the results.
    pub fn map_dense<U, F: Fn(Option<T>) -> U>(&self, f: F) -> (r: Chunk<U>)
        requires
            self.wf(),
            forall|i: int|
                0 <= i < self.inner.cells@.len() ==> call_requires(f, (self.inner.cells@[i],)),
        ensures
            r.wf(),
            r.extent == self.inner.extent,
            forall|l: LocalPos|
                self.valid_local(l) ==> call_ensures(f, (self.cell(l),), #[trigger] r.cell(l)),
    {
        self.inner.map(f)
    }

    /// Applies a function to every slot, producing a sparse chunk of the
    /// results.
    pub fn map<U, F: Fn(Option<T>) -> Option<U>>(&self, f: F) -> (r: ChunkSparse<U>)
        requires
            self.wf(),
            forall|i: int|
                0 <= i < self.inner.cells@.len() ==> call_requires(f, (self.inner.cells@[i],)),
        ensures
            r.wf(),
            r.inner.extent == self.inner.extent,
            forall|l: LocalPos|
                self.valid_local(l) ==> call_ensures(f, (self.cell(l),), #[trigger] r.cell(l)),
    {
        ChunkSparse { inner: self.inner.map(f) }
    }

    /// Applies a function to every occupied slot, leaving vacant slots vacant.
    pub fn map_sparse<U, F: Fn(T) -> U>(&self, f: F) -> (r: ChunkSparse<U>)
        requires
            self.wf(),
            forall|i: int|
                (0 <= i < self.inner.cells@.len() && self.inner.cells@[i] is Some)
                    ==> call_requires(f, (self.inner.cells@[i]->0,)),
        ensures
            r.wf(),
            r.inner.extent == self.inner.extent,
            forall|l: LocalPos| #![trigger r.cell(l)]
                self.valid_local(l) ==> match self.cell(l) {
                    Some(v) => r.cell(l) matches Some(u) && call_ensures(f, (v,), u),
                    None => r.cell(l) is None,
                },
    {
        let n: usize = self.inner.cells.len();
        let mut cells: Vec<Option<U>> = Vec::new();
        let mut i: usize = 0;
        while i < n
            invariant
                self.wf(),
                n == self.inner.cells@.len(),
                i <= n,
                cells@.len() == i,
                forall|k: int|
                    (0 <= k < n && self.inner.cells@[k] is Some) ==> call_requires(
                        f,
                        (self.inner.cells@[k]->0,),
                    ),
                forall|k: int| #![trigger cells@[k]]
                    0 <= k < i ==> match self.inner.cells@[k] {
                        Some(v) => cells@[k] matches Some(u) && call_ensures(f, (v,), u),
                        None => cells@[k] is None,
                    },
            decreases n - i,
        {
            let slot: Option<U> = match self.inner.cells[i] {
                Some(v) => Some(f(v)),
                None => None,
            };
            cells.push(slot);
            i = i + 1;
        }
        let r = ChunkSparse { inner: Chunk { extent: self.inner.extent, cells } };
        proof {
            assert forall|l: LocalPos| self.valid_local(l) implies match self.cell(l) {
                Some(v) => r.cell(l) matches Some(u) && call_ensures(f, (v,), u),
                None => r.cell(l) is None,
            } by {
                lemma_flat_index(self.inner.extent as int, l);
            }
        }
        r
    }

    /// Copies the slots out as a flat vector in row-major order.
    pub fn to_vec(&self) -> (r: Vec<Option<T>>)
        requires
            self.wf(),
        ensures
            r@ == self.inner.cells@,
    {
        self.inner.to_vec()
    }

    /// Copies out the row of slots with the given `y` coordinate.
    pub fn horizontal_slice(&self, y: usize) -> (r: Vec<Option<T>>)
        requires
            self.wf(),
            y < self.inner.extent,
        ensures
            r@.len() == self.inner.extent,
            forall|x: int|
                0 <= x < self.inner.extent ==> #[trigger] r@[x] == self.cell(
                    LocalPos { x: x as usize, y },
                ),
    {
        self.inner.horizontal_slice(y)
    }

    /// Copies out the column of slots with the given `x` coordinate.
    pub fn vertical_slice(&self, x: usize) -> (r: Vec<Option<T>>)
        requires
            self.wf(),
            x < self.inner.extent,
        ensures
            r@.len() == self.inner.extent,
            forall|y: int|
                0 <= y < self.inner.extent ==> #[trigger] r@[y] == self.cell(
                    LocalPos { x, y: y as usize },
                ),
    {
        self.inner.vertical_slice(x)
    }

    /// Returns the values of the occupied slots in row-major order.
    pub fn iter(&self) -> (r: Vec<T>)
        requires
            self.wf(),
        ensures
            r@ == occupied_seq(self.inner.cells@, 0),
    {
        let n: usize = self.inner.cells.len();
        let ghost s = self.inner.cells@;
        let mut out: Vec<T> = Vec::new();
        let mut i: usize = 0;
        while i < n
            invariant
                n == s.len(),
                s == self.inner.cells@,
                i <= n,
                occupied_seq(s, 0) == out@ + occupied_seq(s, i as int),
            decreases n - i,
        {
            match self.inner.cells[i] {
                Some(v) => {
                    out.push(v);
                    proof {
                        assert(occupied_seq(s, i as int) =~= seq![v] + occupied_seq(s, i + 1));
                        assert(occupied_seq(s, 0) =~= out@ + occupied_seq(s, i + 1));
                    }
                },
                None => {
                    proof {
                        assert(occupied_seq(s, i as int) =~= occupied_seq(s, i + 1));
                    }
                },
            }
            i = i + 1;
        }
        proof {
            assert(out@ =~= occupied_seq(s, 0));
        }
        out
    }

    /// Returns the (local coordinate, value) pairs of the occupied slots in
    /// row-major order.
    pub fn cells(&self) -> (r: Vec<(LocalPos, T)>)
        requires
            self.wf(),
        ensures
            r@ == occupied_cells_seq(self.inner.extent as int, self.inner.cells@, 0),
    {
        let n: usize = self.inner.cells.len();
        let e: usize = self.inner.extent;
        let ghost s = self.inner.cells@;
        let mut out: Vec<(LocalPos, T)> = Vec::new();
        let mut i: usize = 0;
        while i < n
            invariant
                self.wf(),
                n == s.len(),
                e == self.inner.extent,
                s == self.inner.cells@,
                i <= n,
                occupied_cells_seq(e as int, s, 0) == out@ + occupied_cells_seq(e as int, s, i as int),
            decreases n - i,
        {
            match self.inner.cells[i] {
                Some(v) => {
                    let l = local_of(e, i);
                    out.push((l, v));
                    proof {
                        assert(occupied_cells_seq(e as int, s, i as int) =~= seq![
                            (local_of_index(e as int, i as int), v),
                        ] + occupied_cells_seq(e as int, s, i + 1));
                        assert(occupied_cells_seq(e as int, s, 0) =~= out@ + occupied_cells_seq(
                            e as int,
                            s,
                            i + 1,
                        ));
                    }
                },
                None => {
                    proof {
                        assert(occupied_cells_seq(e as int, s, i as int) =~= occupied_cells_seq(
                            e as int,
                            s,
                            i + 1,
                        ));
                    }
                },
            }
            i = i + 1;
        }
        proof {
            assert(out@ =~= occupied_cells_seq(e as int, s, 0));
        }
        out
    }

    /// Consumes the chunk, returning the (local coordinate, value) pairs of
    /// the occupied slots in row-major order.
    pub fn into_cells(self) -> (r: Vec<(LocalPos, T)>)
        requires
            self.wf(),
        ensures
            r@ == occupied_cells_seq(self.inner.extent as int, self.inner.cells@, 0),
    {
        self.cells()
    }
}

} // verus!
