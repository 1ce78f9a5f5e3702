//! Global-coordinate-addressed, effectively infinite grids backed by a sparse
//! map of fixed-extent chunks.
//!
//! The coordinate mapping is defined once, by [`decompose`] and [`compose`]:
//! a global position splits into a chunk coordinate (Euclidean floor division
//! by the extent) and a local coordinate (Euclidean remainder), so negative
//! coordinates resolve to the same gapless tiling as positive ones. Every
//! other operation goes through these two functions.
//!
//! Chunks are created lazily on first write and never by reading: a chunk
//! coordinate absent from the map reads as "no value" ([`ExGridSparse`]) or
//! as a caller-chosen fill value ([`ExGrid`]) without allocating.

use vstd::prelude::*;
use vstd::arithmetic::div_mod::{
    lemma_fundamental_div_mod,
    lemma_fundamental_div_mod_converse_div,
    lemma_fundamental_div_mod_converse_mod,
};
use std::collections::HashMap;
use crate::chunk::{Chunk, ChunkSparse, flat_index, local_in_extent, local_of_index};
use crate::{ChunkPos, GlobalPos, LocalPos, MAX_EXTENT};

verus! {

broadcast use vstd::std_specs::hash::group_hash_axioms;

/// The chunk coordinate owning global axis value `g` under extent `s`:
/// Euclidean floor division (`/` on `int` rounds toward negative infinity for
/// a positive divisor).
pub open spec fn chunk_axis(s: int, g: int) -> int {
    g / s
}

/// The local offset of global axis value `g` inside its chunk under extent
/// `s`: the Euclidean remainder, in `[0, s)` for `s > 0`.
pub open spec fn local_axis(s: int, g: int) -> int {
    g % s
}

/// A global position whose chunk coordinate is representable in `i32` on both
/// axes under extent `s`.
pub open spec fn in_chunk_range(s: int, p: GlobalPos) -> bool {
    &&& i32::MIN <= chunk_axis(s, p.x as int) <= i32::MAX
    &&& i32::MIN <= chunk_axis(s, p.y as int) <= i32::MAX
}

/// The decomposition of a global position into chunk and local coordinates
/// under extent `s`.
pub open spec fn spec_decompose(s: int, p: GlobalPos) -> (ChunkPos, LocalPos) {
    (
        ChunkPos {
            x: chunk_axis(s, p.x as int) as i32,
            y: chunk_axis(s, p.y as int) as i32,
        },
        LocalPos {
            x: local_axis(s, p.x as int) as usize,
            y: local_axis(s, p.y as int) as usize,
        },
    )
}

/// The composition of a chunk coordinate and a local coordinate back into a
/// global position under extent `s`.
pub open spec fn spec_compose(s: int, c: ChunkPos, l: LocalPos) -> GlobalPos {
    GlobalPos { x: (c.x * s + l.x) as i64, y: (c.y * s + l.y) as i64 }
}

/// Composition never leaves the `i64` range: a chunk coordinate times an
/// in-range extent, plus an in-extent local offset, is far inside `i64`.
pub proof fn lemma_compose_in_i64(s: int, c: ChunkPos, l: LocalPos)
    requires
        1 <= s <= MAX_EXTENT,
        local_in_extent(s, l),
    ensures
        i64::MIN <= c.x * s <= i64::MAX,
        i64::MIN <= c.y * s <= i64::MAX,
        i64::MIN <= c.x * s + l.x <= i64::MAX,
        i64::MIN <= c.y * s + l.y <= i64::MAX,
{
    assert(-0x8000_0000 * 0x10000 <= c.x * s <= 0x8000_0000 * 0x10000) by (nonlinear_arith)
        requires
            1 <= s <= MAX_EXTENT,
            i32::MIN <= c.x <= i32::MAX,
    ;
    assert(-0x8000_0000 * 0x10000 <= c.y * s <= 0x8000_0000 * 0x10000) by (nonlinear_arith)
        requires
            1 <= s <= MAX_EXTENT,
            i32::MIN <= c.y <= i32::MAX,
    ;
}

/// Round-trip law: for every extent `s > 0` and every global position whose
/// chunk coordinate is representable, composing the decomposition yields the
/// position back.
pub proof fn lemma_compose_decompose(s: int, p: GlobalPos)
    requires
        1 <= s <= MAX_EXTENT,
        in_chunk_range(s, p),
    ensures
        local_in_extent(s, spec_decompose(s, p).1),
        spec_compose(s, spec_decompose(s, p).0, spec_decompose(s, p).1) == p,
{
    lemma_fundamental_div_mod(p.x as int, s);
    lemma_fundamental_div_mod(p.y as int, s);
    assert(s * (p.x as int / s) == (p.x as int / s) * s) by (nonlinear_arith);
    assert(s * (p.y as int / s) == (p.y as int / s) * s) by (nonlinear_arith);
}

/// Inverse round-trip law: decomposing a composed position yields the chunk
/// and local coordinates it was composed from. Together with
/// [`lemma_compose_decompose`] this makes decomposition a bijection.
pub proof fn lemma_decompose_compose(s: int, c: ChunkPos, l: LocalPos)
    requires
        1 <= s <= MAX_EXTENT,
        local_in_extent(s, l),
    ensures
        in_chunk_range(s, spec_compose(s, c, l)),
        spec_decompose(s, spec_compose(s, c, l)) == (c, l),
{
    lemma_compose_in_i64(s, c, l);
    let g = spec_compose(s, c, l);
    lemma_fundamental_div_mod_converse_div(g.x as int, s, c.x as int, l.x as int);
    lemma_fundamental_div_mod_converse_mod(g.x as int, s, c.x as int, l.x as int);
    lemma_fundamental_div_mod_converse_div(g.y as int, s, c.y as int, l.y as int);
    lemma_fundamental_div_mod_converse_mod(g.y as int, s, c.y as int, l.y as int);
}

/// Converts a global position to the coordinates of the chunk that owns it
/// and the cell coordinates inside that chunk.
pub fn decompose(extent: usize, pos: GlobalPos) -> (r: (ChunkPos, LocalPos))
    requires
        1 <= extent <= MAX_EXTENT,
        in_chunk_range(extent as int, pos),
    ensures
        r == spec_decompose(extent as int, pos),
        local_in_extent(extent as int, r.1),
        spec_compose(extent as int, r.0, r.1) == pos,
{
    proof {
        lemma_compose_decompose(extent as int, pos);
    }
    let s = extent as i64;
    let cx = pos.x.checked_div_euclid(s).unwrap();
    let cy = pos.y.checked_div_euclid(s).unwrap();
    let lx = pos.x.checked_rem_euclid(s).unwrap();
    let ly = pos.y.checked_rem_euclid(s).unwrap();
    (
        ChunkPos { x: cx as i32, y: cy as i32 },
        LocalPos { x: lx as usize, y: ly as usize },
    )
}

/// Converts a chunk coordinate and a cell coordinate inside that chunk back
/// to the global position of the cell; the inverse of [`decompose`].
pub fn compose(extent: usize, chunk: ChunkPos, local: LocalPos) -> (r: GlobalPos)
    requires
        1 <= extent <= MAX_EXTENT,
        local_in_extent(extent as int, local),
    ensures
        r == spec_compose(extent as int, chunk, local),
        in_chunk_range(extent as int, r),
        spec_decompose(extent as int, r) == (chunk, local),
{
    proof {
        lemma_compose_in_i64(extent as int, chunk, local);
        lemma_decompose_compose(extent as int, chunk, local);
    }
    GlobalPos {
        x: chunk.x as i64 * extent as i64 + local.x as i64,
        y: chunk.y as i64 * extent as i64 + local.y as i64,
    }
}

/// The hash-map key encoding a chunk coordinate: both axes shifted into
/// `[0, 2^32)` and packed into one `u64`. A bijection between chunk
/// coordinates and `u64` values.
pub open spec fn spec_chunk_key(c: ChunkPos) -> u64 {
    ((c.x - i32::MIN) * 0x1_0000_0000 + (c.y - i32::MIN)) as u64
}

/// The chunk coordinate encoded by a hash-map key; the inverse of
/// [`spec_chunk_key`].
pub open spec fn spec_key_chunk(k: u64) -> ChunkPos {
    ChunkPos {
        x: (k as int / 0x1_0000_0000 + i32::MIN) as i32,
        y: (k as int % 0x1_0000_0000 + i32::MIN) as i32,
    }
}

/// The key encoding is a bijection: decoding inverts encoding and vice versa.
/// In particular two distinct chunk coordinates never share a key.
pub proof fn lemma_chunk_key_bijective(c: ChunkPos, k: u64)
    ensures
        spec_key_chunk(spec_chunk_key(c)) == c,
        spec_chunk_key(spec_key_chunk(k)) == k,
{
    let ux = c.x - i32::MIN;
    let uy = c.y - i32::MIN;
    let enc = ux * 0x1_0000_0000 + uy;
    assert(0 <= ux * 0x1_0000_0000 <= 0xffff_ffff * 0x1_0000_0000) by (nonlinear_arith)
        requires
            0 <= ux <= 0xffff_ffff,
    ;
    lemma_fundamental_div_mod_converse_div(enc, 0x1_0000_0000, ux, uy);
    lemma_fundamental_div_mod_converse_mod(enc, 0x1_0000_0000, ux, uy);
    lemma_fundamental_div_mod(k as int, 0x1_0000_0000);
    assert(0x1_0000_0000 * (k as int / 0x1_0000_0000) == (k as int / 0x1_0000_0000)
        * 0x1_0000_0000) by (nonlinear_arith);
}

/// Computes the hash-map key of a chunk coordinate.
pub(crate) fn chunk_key(c: ChunkPos) -> (r: u64)
    ensures
        r == spec_chunk_key(c),
        spec_key_chunk(r) == c,
{
    proof {
        lemma_chunk_key_bijective(c, 0);
    }
    let ux = (c.x as i64 - i32::MIN as i64) as u64;
    let uy = (c.y as i64 - i32::MIN as i64) as u64;
    ux * 0x1_0000_0000u64 + uy
}

/// Decodes a hash-map key back to the chunk coordinate it encodes.
pub(crate) fn key_chunk(k: u64) -> (r: ChunkPos)
    ensures
        r == spec_key_chunk(k),
        spec_chunk_key(r) == k,
{
    proof {
        lemma_chunk_key_bijective(ChunkPos { x: 0, y: 0 }, k);
    }
    let ux = k / 0x1_0000_0000u64;
    let uy = k % 0x1_0000_0000u64;
    ChunkPos {
        x: (ux as i64 + i32::MIN as i64) as i32,
        y: (uy as i64 + i32::MIN as i64) as i32,
    }
}

/// The pair emitted at index `k` of a dense grid's cell enumeration: chunk
/// index `k / ee`, row-major cell index `k % ee`, where `ee` is the cell
/// count of one chunk.
spec fn cells_entry<T>(g: ExGrid<T>, es: int, ee: int, k: int) -> (GlobalPos, T) {
    let c = spec_key_chunk(g.keys@[k / ee]);
    let l = local_of_index(es, k % ee);
    (spec_compose(es, c, l), g.chunk_at(c).cells@[k % ee])
}

/// Splits a flat enumeration index `k` in `[0, n*ee)` into a block index
/// `k / ee` in `[0, n)` and an offset `k % ee` in `[0, ee)`.
proof fn lemma_flat_grid_index(ee: int, n: int, k: int)
    requires
        1 <= ee,
        0 <= k < n * ee,
    ensures
        0 <= k / ee < n,
        0 <= k % ee < ee,
        k == (k / ee) * ee + (k % ee),
{
    vstd::arithmetic::div_mod::lemma_mod_bound(k, ee);
    vstd::arithmetic::div_mod::lemma_div_pos_is_pos(k, ee);
    assert(ee * n == n * ee) by (nonlinear_arith);
    vstd::arithmetic::div_mod::lemma_multiply_divide_lt(k, ee, n);
    lemma_fundamental_div_mod(k, ee);
    assert(ee * (k / ee) == (k / ee) * ee) by (nonlinear_arith);
}

/// Inverse of [`lemma_flat_grid_index`]: a block index and an offset combine
/// to an in-range flat index that splits back into them.
proof fn lemma_grid_index_of(ee: int, j: int, m: int, n: int)
    requires
        1 <= ee,
        0 <= j < n,
        0 <= m < ee,
    ensures
        0 <= j * ee + m < n * ee,
        (j * ee + m) / ee == j,
        (j * ee + m) % ee == m,
{
    assert(0 <= j * ee + m < n * ee) by (nonlinear_arith)
        requires
            1 <= ee,
            0 <= j < n,
            0 <= m < ee,
    ;
    lemma_fundamental_div_mod_converse_div(j * ee + m, ee, j, m);
    lemma_fundamental_div_mod_converse_mod(j * ee + m, ee, j, m);
}

/// The positions `ps` witness that `vals` enumerates exactly the stored cell
/// values of the dense grid `g`: position `ps[k]` holds value `vals[k]`, the
/// positions are pairwise distinct, and every stored cell's position appears.
pub open spec fn values_cover<T>(g: ExGrid<T>, vals: Seq<T>, ps: Seq<GlobalPos>) -> bool {
    &&& ps.len() == vals.len()
    &&& forall|k: int|
        0 <= k < ps.len() ==> g.in_range(#[trigger] ps[k]) && g.spec_get(ps[k]) == Some(vals[k])
    &&& forall|k1: int, k2: int| 0 <= k1 < k2 < ps.len() ==> ps[k1] != ps[k2]
    &&& forall|p: GlobalPos| g.in_range(p) && #[trigger] g.spec_get(p) is Some ==> ps.contains(p)
}

/// A dense grid: a sparse map from chunk coordinates to dense chunks. A cell
/// whose chunk is absent reads as "no value"; the defaulting accessors let a
/// caller read it through as a fill value without allocating.
#[derive(Debug, Clone)]
pub struct ExGrid<T> {
    /// Cell count per axis of every chunk; fixed at construction.
    pub extent: usize,
    /// The chunk storage, keyed by encoded chunk coordinate.
    pub chunks: HashMap<u64, Chunk<T>>,
    /// The encoded coordinates of the chunks present in `chunks`, kept in
    /// insertion order so that iteration is verified and deterministic.
    pub keys: Vec<u64>,
}

impl<T> ExGrid<T> {
    /// Structural invariant: the extent is in range, the key list mirrors the
    /// map's domain exactly and without duplicates, and every stored chunk is
    /// well formed with this grid's extent.
    pub open spec fn wf(self) -> bool {
        &&& 1 <= self.extent <= MAX_EXTENT
        &&& self.keys@.no_duplicates()
        &&& forall|k: u64| #[trigger] self.chunks@.contains_key(k) <==> self.keys@.contains(k)
        &&& forall|k: u64|
            self.chunks@.contains_key(k) ==> (#[trigger] self.chunks@[k]).wf()
                && self.chunks@[k].extent == self.extent
    }

    /// Whether the chunk at a chunk coordinate is present.
    pub open spec fn has_chunk(self, c: ChunkPos) -> bool {
        self.chunks@.contains_key(spec_chunk_key(c))
    }

    /// The chunk stored at a chunk coordinate.
    pub open spec fn chunk_at(self, c: ChunkPos) -> Chunk<T> {
        self.chunks@[spec_chunk_key(c)]
    }

    /// Whether a global position is addressable by this grid (its chunk
    /// coordinate fits in `i32` on both axes).
    pub open spec fn in_range(self, p: GlobalPos) -> bool {
        in_chunk_range(self.extent as int, p)
    }

    /// The value stored at a global position: the owning chunk's cell when
    /// that chunk is present, and no value otherwise.
    pub open spec fn spec_get(self, p: GlobalPos) -> Option<T> {
        let d = spec_decompose(self.extent as int, p);
        if self.has_chunk(d.0) {
            Some(self.chunk_at(d.0).cell(d.1))
        } else {
            None
        }
    }

    /// The value read at a global position under read-through semantics: an
    /// absent chunk reads as the fill value `d` without being materialized.
    pub open spec fn cell_or(self, p: GlobalPos, d: T) -> T {
        match self.spec_get(p) {
            Some(v) => v,
            None => d,
        }
    }

    /// The number of chunks present.
    pub open spec fn chunk_count(self) -> nat {
        self.keys@.len()
    }

    /// Returns how many chunks are present.
    pub fn chunks_count(&self) -> (r: usize)
        requires
            self.wf(),
        ensures
            r == self.chunk_count(),
    {
        self.keys.len()
    }

    /// Returns the total cell capacity of the present chunks.
    pub fn cells_count(&self) -> (r: usize)
        requires
            self.wf(),
            self.chunk_count() * self.extent * self.extent <= usize::MAX,
        ensures
            r == self.chunk_count() * self.extent * self.extent,
    {
        proof {
            assert(self.keys@.len() * self.extent <= self.keys@.len() * self.extent
                * self.extent) by (nonlinear_arith)
                requires
                    self.extent >= 1,
            ;
        }
        self.keys.len() * self.extent * self.extent
    }

    /// Removes every chunk.
    pub fn clear(&mut self)
        requires
            old(self).wf(),
        ensures
            final(self).wf(),
            final(self).extent == old(self).extent,
            final(self).chunk_count() == 0,
            forall|c: ChunkPos| !final(self).has_chunk(c),
    {
        self.chunks.clear();
        self.keys.clear();
    }

    /// Returns the cell count per axis of every chunk of this grid.
    pub fn extent(&self) -> (r: usize)
        ensures
            r == self.extent,
    {
        self.extent
    }

    /// Returns whether the chunk at a chunk coordinate is present.
    pub fn contains_chunk(&self, pos: ChunkPos) -> (r: bool)
        requires
            self.wf(),
        ensures
            r == self.has_chunk(pos),
    {
        let key = chunk_key(pos);
        self.chunks.contains_key(&key)
    }

    /// Returns a reference to the chunk at a chunk coordinate, if present.
    pub fn get_chunk(&self, pos: ChunkPos) -> (r: Option<&Chunk<T>>)
        requires
            self.wf(),
        ensures
            match r {
                Some(chunk) => self.has_chunk(pos) && *chunk == self.chunk_at(pos),
                None => !self.has_chunk(pos),
            },
    {
        let key = chunk_key(pos);
        self.chunks.get(&key)
    }

    /// Inserts a chunk at a coordinate that does not yet hold one.
    pub(crate) fn put_chunk(&mut self, pos: ChunkPos, chunk: Chunk<T>)
        requires
            old(self).wf(),
            !old(self).has_chunk(pos),
            chunk.wf(),
            chunk.extent == old(self).extent,
        ensures
            final(self).wf(),
            final(self).extent == old(self).extent,
            final(self).chunk_count() == old(self).chunk_count() + 1,
            final(self).has_chunk(pos),
            final(self).chunk_at(pos) == chunk,
            forall|c: ChunkPos|
                #[trigger] final(self).has_chunk(c) <==> (old(self).has_chunk(c) || c == pos),
            forall|c: ChunkPos|
                c != pos ==> #[trigger] final(self).chunk_at(c) == old(self).chunk_at(c),
            final(self).keys@ == old(self).keys@.push(spec_chunk_key(pos)),
    {
        let key = chunk_key(pos);
        self.chunks.insert(key, chunk);
        self.keys.push(key);
        proof {
            assert forall|c: ChunkPos| self.has_chunk(c) implies (old(self).has_chunk(c) || c
                == pos) by {
                if spec_chunk_key(c) == key {
                    lemma_chunk_key_bijective(c, 0);
                    lemma_chunk_key_bijective(pos, 0);
                }
            }
            assert forall|c: ChunkPos| c != pos implies self.chunk_at(c) == old(self).chunk_at(
                c,
            ) by {
                lemma_chunk_key_bijective(c, 0);
                lemma_chunk_key_bijective(pos, 0);
            }
            assert(!old(self).keys@.contains(key));
            assert forall|i: int, j: int|
                0 <= i < self.keys@.len() && 0 <= j < self.keys@.len() && i != j implies self.keys@[i]
                != self.keys@[j] by {
                let n = old(self).keys@.len() as int;
                if i == n {
                    if self.keys@[j] == key {
                        assert(old(self).keys@[j] == key);
                        assert(old(self).keys@.contains(key));
                    }
                } else if j == n {
                    if self.keys@[i] == key {
                        assert(old(self).keys@[i] == key);
                        assert(old(self).keys@.contains(key));
                    }
                }
            }
            assert forall|k: u64| #[trigger] self.chunks@.contains_key(k) implies self.keys@.contains(
                k,
            ) by {
                if k != key {
                    assert(old(self).keys@.contains(k));
                    let i = choose|i: int| 0 <= i < old(self).keys@.len() && old(self).keys@[i] == k;
                    assert(self.keys@[i] == k);
                } else {
                    assert(self.keys@[old(self).keys@.len() as int] == key);
                }
            }
            assert forall|k: u64| self.keys@.contains(k) implies self.chunks@.contains_key(k) by {
                let i = choose|i: int| 0 <= i < self.keys@.len() && self.keys@[i] == k;
                if i < old(self).keys@.len() {
                    assert(old(self).keys@.contains(k));
                }
            }
        }
    }
}

impl<T: Copy> ExGrid<T> {
    /// Builds an empty grid with the given chunk extent.
    pub fn new(extent: usize) -> (r: Self)
        requires
            1 <= extent <= MAX_EXTENT,
        ensures
            r.wf(),
            r.extent == extent,
            r.chunk_count() == 0,
            forall|c: ChunkPos| !r.has_chunk(c),
            forall|p: GlobalPos| r.spec_get(p) is None,
    {
        ExGrid { extent, chunks: HashMap::new(), keys: Vec::new() }
    }

    /// Returns two chunk coordinates `(min, max)` bounding a box that
    /// contains every present chunk, taking the minimum and maximum per axis
    /// over all present chunk coordinates; no value when the grid is empty.
    /// Recomputed on each call, not cached.
    pub fn chunks_bounds(&self) -> (r: Option<(ChunkPos, ChunkPos)>)
        requires
            self.wf(),
        ensures
            match r {
                None => self.chunk_count() == 0,
                Some(b) => {
                    &&& self.chunk_count() > 0
                    &&& forall|c: ChunkPos|
                        #[trigger] self.has_chunk(c) ==> b.0.x <= c.x <= b.1.x && b.0.y <= c.y
                            <= b.1.y
                    &&& exists|c: ChunkPos| #[trigger] self.has_chunk(c) && c.x == b.0.x
                    &&& exists|c: ChunkPos| #[trigger] self.has_chunk(c) && c.y == b.0.y
                    &&& exists|c: ChunkPos| #[trigger] self.has_chunk(c) && c.x == b.1.x
                    &&& exists|c: ChunkPos| #[trigger] self.has_chunk(c) && c.y == b.1.y
                },
            },
    {
        let n: usize = self.keys.len();
        if n == 0 {
            return None;
        }
        let first = key_chunk(self.keys[0]);
        let mut mnx = first.x;
        let mut mny = first.y;
        let mut mxx = first.x;
        let mut mxy = first.y;
        let mut i: usize = 1;
        while i < n
            invariant
                self.wf(),
                n == self.keys@.len(),
                1 <= i <= n,
                forall|j: int|
                    0 <= j < i ==> {
                        let c = spec_key_chunk(#[trigger] self.keys@[j]);
                        mnx <= c.x <= mxx && mny <= c.y <= mxy
                    },
                exists|j: int| 0 <= j < i && spec_key_chunk(#[trigger] self.keys@[j]).x == mnx,
                exists|j: int| 0 <= j < i && spec_key_chunk(#[trigger] self.keys@[j]).y == mny,
                exists|j: int| 0 <= j < i && spec_key_chunk(#[trigger] self.keys@[j]).x == mxx,
                exists|j: int| 0 <= j < i && spec_key_chunk(#[trigger] self.keys@[j]).y == mxy,
            decreases n - i,
        {
            let c = key_chunk(self.keys[i]);
            if c.x < mnx {
                mnx = c.x;
            }
            if c.y < mny {
                mny = c.y;
            }
            if c.x > mxx {
                mxx = c.x;
            }
            if c.y > mxy {
                mxy = c.y;
            }
            i = i + 1;
        }
        let r = (ChunkPos { x: mnx, y: mny }, ChunkPos { x: mxx, y: mxy });
        proof {
            assert forall|c: ChunkPos| #[trigger] self.has_chunk(c) implies r.0.x <= c.x <= r.1.x
                && r.0.y <= c.y <= r.1.y by {
                assert(self.keys@.contains(spec_chunk_key(c)));
                let j = choose|j: int|
                    0 <= j < self.keys@.len() && self.keys@[j] == spec_chunk_key(c);
                lemma_chunk_key_bijective(c, 0);
                assert(spec_key_chunk(self.keys@[j]) == c);
            }
            let jx = choose|j: int|
                0 <= j < self.keys@.len() && spec_key_chunk(#[trigger] self.keys@[j]).x == mnx;
            lemma_chunk_key_bijective(ChunkPos { x: 0, y: 0 }, self.keys@[jx]);
            assert(self.has_chunk(spec_key_chunk(self.keys@[jx])));
            let jy = choose|j: int|
                0 <= j < self.keys@.len() && spec_key_chunk(#[trigger] self.keys@[j]).y == mny;
            lemma_chunk_key_bijective(ChunkPos { x: 0, y: 0 }, self.keys@[jy]);
            assert(self.has_chunk(spec_key_chunk(self.keys@[jy])));
            let kx = choose|j: int|
                0 <= j < self.keys@.len() && spec_key_chunk(#[trigger] self.keys@[j]).x == mxx;
            lemma_chunk_key_bijective(ChunkPos { x: 0, y: 0 }, self.keys@[kx]);
            assert(self.has_chunk(spec_key_chunk(self.keys@[kx])));
            let ky = choose|j: int|
                0 <= j < self.keys@.len() && spec_key_chunk(#[trigger] self.keys@[j]).y == mxy;
            lemma_chunk_key_bijective(ChunkPos { x: 0, y: 0 }, self.keys@[ky]);
            assert(self.has_chunk(spec_key_chunk(self.keys@[ky])));
        }
        Some(r)
    }

    /// Returns two global positions `(min, max)` bounding a box that contains
    /// every cell of every present chunk: the chunk bounding box expanded to
    /// cell granularity; no value when the grid is empty.
    pub fn bounds(&self) -> (r: Option<(GlobalPos, GlobalPos)>)
        requires
            self.wf(),
        ensures
            match r {
                None => self.chunk_count() == 0,
                Some(b) => {
                    let e = self.extent as int;
                    &&& self.chunk_count() > 0
                    &&& forall|c: ChunkPos, l: LocalPos|
                        #[trigger] self.has_chunk(c) && local_in_extent(e, l) ==> {
                            let p = #[trigger] spec_compose(e, c, l);
                            b.0.x <= p.x <= b.1.x && b.0.y <= p.y <= b.1.y
                        }
                    &&& exists|c: ChunkPos| #[trigger] self.has_chunk(c) && b.0.x == c.x * e
                    &&& exists|c: ChunkPos| #[trigger] self.has_chunk(c) && b.0.y == c.y * e
                    &&& exists|c: ChunkPos|
                        #[trigger] self.has_chunk(c) && b.1.x == c.x * e + (e - 1)
                    &&& exists|c: ChunkPos|
                        #[trigger] self.has_chunk(c) && b.1.y == c.y * e + (e - 1)
                },
            },
    {
        match self.chunks_bounds() {
            None => None,
            Some((mn, mx)) => {
                let last: usize = self.extent - 1;
                let lo = compose(self.extent, mn, LocalPos { x: 0, y: 0 });
                let hi = compose(self.extent, mx, LocalPos { x: last, y: last });
                proof {
                    let e = self.extent as int;
                    let zero = LocalPos { x: 0, y: 0 };
                    let corner = LocalPos { x: last, y: last };
                    lemma_compose_in_i64(e, mn, zero);
                    lemma_compose_in_i64(e, mx, corner);
                    assert(lo.x == mn.x * e && lo.y == mn.y * e);
                    assert(hi.x == mx.x * e + (e - 1) && hi.y == mx.y * e + (e - 1));
                    assert forall|c: ChunkPos, l: LocalPos|
                        #[trigger] self.has_chunk(c) && local_in_extent(e, l) implies {
                        let p = #[trigger] spec_compose(e, c, l);
                        lo.x <= p.x <= hi.x && lo.y <= p.y <= hi.y
                    } by {
                        lemma_compose_in_i64(e, c, l);
                        vstd::arithmetic::mul::lemma_mul_inequality(mn.x as int, c.x as int, e);
                        vstd::arithmetic::mul::lemma_mul_inequality(c.x as int, mx.x as int, e);
                        vstd::arithmetic::mul::lemma_mul_inequality(mn.y as int, c.y as int, e);
                        vstd::arithmetic::mul::lemma_mul_inequality(c.y as int, mx.y as int, e);
                    }
                    let cx = choose|c: ChunkPos| #[trigger] self.has_chunk(c) && c.x == mn.x;
                    assert(self.has_chunk(cx) && lo.x == cx.x * e);
                    let cy = choose|c: ChunkPos| #[trigger] self.has_chunk(c) && c.y == mn.y;
                    assert(self.has_chunk(cy) && lo.y == cy.y * e);
                    let dx = choose|c: ChunkPos| #[trigger] self.has_chunk(c) && c.x == mx.x;
                    assert(self.has_chunk(dx) && hi.x == dx.x * e + (e - 1));
                    let dy = choose|c: ChunkPos| #[trigger] self.has_chunk(c) && c.y == mx.y;
                    assert(self.has_chunk(dy) && hi.y == dy.y * e + (e - 1));
                }
                Some((lo, hi))
            },
        }
    }

    /// Returns the coordinates of every present chunk, in insertion order.
    pub fn chunks(&self) -> (r: Vec<ChunkPos>)
        requires
            self.wf(),
        ensures
            r@.len() == self.chunk_count(),
            forall|i: int| 0 <= i < r@.len() ==> self.has_chunk(#[trigger] r@[i]),
            forall|i: int, j: int| 0 <= i < j < r@.len() ==> r@[i] != r@[j],
            forall|c: ChunkPos| #[trigger] self.has_chunk(c) ==> r@.contains(c),
            forall|i: int|
                0 <= i < r@.len() ==> spec_chunk_key(#[trigger] r@[i]) == self.keys@[i],
    {
        let n: usize = self.keys.len();
        let mut out: Vec<ChunkPos> = Vec::new();
        let mut i: usize = 0;
        while i < n
            invariant
                self.wf(),
                n == self.keys@.len(),
                i <= n,
                out@.len() == i,
                forall|j: int|
                    0 <= j < i ==> spec_chunk_key(#[trigger] out@[j]) == self.keys@[j],
                forall|j: int| 0 <= j < i ==> out@[j] == spec_key_chunk(#[trigger] self.keys@[j]),
            decreases n - i,
        {
            let c = key_chunk(self.keys[i]);
            out.push(c);
            i = i + 1;
        }
        proof {
            assert forall|i: int| 0 <= i < out@.len() implies self.has_chunk(#[trigger] out@[i]) by {
                assert(self.keys@.contains(self.keys@[i]));
            }
            assert forall|c: ChunkPos| #[trigger] self.has_chunk(c) implies out@.contains(c) by {
                assert(self.keys@.contains(spec_chunk_key(c)));
                let j = choose|j: int|
                    0 <= j < self.keys@.len() && self.keys@[j] == spec_chunk_key(c);
                lemma_chunk_key_bijective(c, 0);
                assert(out@[j] == c);
            }
        }
        out
    }

    /// Returns a reference to the chunk at a chunk coordinate, materializing
    /// it (every cell set to `fill`) if absent.
    pub fn get_chunk_default(&mut self, pos: ChunkPos, fill: T) -> (r: &Chunk<T>)
        requires
            old(self).wf(),
        ensures
            final(self).wf(),
            final(self).extent == old(self).extent,
            final(self).has_chunk(pos),
            *r == final(self).chunk_at(pos),
            forall|c: ChunkPos|
                #[trigger] final(self).has_chunk(c) <==> (old(self).has_chunk(c) || c == pos),
            forall|c: ChunkPos|
                c != pos ==> #[trigger] final(self).chunk_at(c) == old(self).chunk_at(c),
            old(self).has_chunk(pos) ==> *final(self) == *old(self),
            !old(self).has_chunk(pos) ==> forall|l: LocalPos|
                local_in_extent(old(self).extent as int, l) ==> final(self).chunk_at(pos).cell(l)
                    == fill,
    {
        if !self.contains_chunk(pos) {
            let chunk = Chunk::new(self.extent, fill);
            self.put_chunk(pos, chunk);
        }
        let key = chunk_key(pos);
        match self.chunks.get(&key) {
            Some(chunk) => chunk,
            None => vstd::pervasive::unreached(),
        }
    }

    /// Reads the cell at a global position, if its owning chunk is present.
    /// Never materializes a chunk.
    pub fn get(&self, pos: GlobalPos) -> (r: Option<T>)
        requires
            self.wf(),
            self.in_range(pos),
        ensures
            r == self.spec_get(pos),
    {
        let (c, l) = decompose(self.extent, pos);
        let key = chunk_key(c);
        match self.chunks.get(&key) {
            Some(chunk) => Some(*chunk.get(l)),
            None => None,
        }
    }


    /// Writes the cell at a global position if its owning chunk is present,
    /// never materializing a chunk; returns whether the write happened.
    pub fn set(&mut self, pos: GlobalPos, value: T) -> (r: bool)
        requires
            old(self).wf(),
            old(self).in_range(pos),
        ensures
            final(self).wf(),
            final(self).extent == old(self).extent,
            r == old(self).has_chunk(spec_decompose(old(self).extent as int, pos).0),
            forall|c: ChunkPos| #[trigger] final(self).has_chunk(c) <==> old(self).has_chunk(c),
            r ==> final(self).spec_get(pos) == Some(value),
            !r ==> *final(self) == *old(self),
            forall|q: GlobalPos|
                old(self).in_range(q) && q != pos ==> final(self).spec_get(q) == old(
                    self,
                ).spec_get(q),
    {
        let ghost pre = *old(self);
        let (c, l) = decompose(self.extent, pos);
        let key = chunk_key(c);
        let chunk = match self.chunks.get(&key) {
            Some(chunk) => chunk,
            None => {
                return false;
            },
        };
        let mut chunk2 = Chunk { extent: chunk.extent, cells: chunk.to_vec() };
        chunk2.set(l, value);
        let ghost mid = *self;
        self.chunks.insert(key, chunk2);
        proof {
            assert(self.keys@ == mid.keys@);
            assert forall|k: u64| #[trigger] self.chunks@.contains_key(k) implies mid.chunks@.contains_key(k) by {}
            assert(self.wf());
            assert forall|cc: ChunkPos| cc != c implies #[trigger] self.chunk_at(cc)
                == mid.chunk_at(cc) by {
                lemma_chunk_key_bijective(cc, 0);
                lemma_chunk_key_bijective(c, 0);
            }
            assert forall|q: GlobalPos| pre.in_range(q) && q != pos implies self.spec_get(q)
                == pre.spec_get(q) by {
                let e = pre.extent as int;
                let dq = spec_decompose(e, q);
                if dq.0 == c {
                    lemma_compose_decompose(e, q);
                    lemma_compose_decompose(e, pos);
                    assert(dq.1 != l);
                } else {
                    assert(self.chunk_at(dq.0) == mid.chunk_at(dq.0));
                }
            }
        }
        true
    }

    /// Reads the cell at a global position under read-through semantics: an
    /// absent chunk reads as `fill`, without being materialized.
    pub fn get_or(&self, pos: GlobalPos, fill: T) -> (r: T)
        requires
            self.wf(),
            self.in_range(pos),
        ensures
            r == self.cell_or(pos, fill),
    {
        match self.get(pos) {
            Some(v) => v,
            None => fill,
        }
    }

    /// Reads the cell at a global position, materializing its owning chunk
    /// (every cell set to `fill`) if absent. Returns the value the cell holds
    /// afterwards: its previous value if the chunk existed, `fill` otherwise.
    pub fn get_mut_default(&mut self, pos: GlobalPos, fill: T) -> (r: T)
        requires
            old(self).wf(),
            old(self).in_range(pos),
        ensures
            final(self).wf(),
            final(self).extent == old(self).extent,
            r == old(self).cell_or(pos, fill),
            final(self).spec_get(pos) == Some(r),
            forall|c: ChunkPos|
                #[trigger] final(self).has_chunk(c) <==> (old(self).has_chunk(c) || c
                    == spec_decompose(old(self).extent as int, pos).0),
            old(self).has_chunk(spec_decompose(old(self).extent as int, pos).0) ==> *final(self)
                == *old(self),
            forall|c: ChunkPos|
                c != spec_decompose(old(self).extent as int, pos).0
                    ==> #[trigger] final(self).chunk_at(c) == old(self).chunk_at(c),
            forall|q: GlobalPos|
                old(self).in_range(q) ==> final(self).cell_or(q, fill) == old(self).cell_or(
                    q,
                    fill,
                ),
    {
        let (c, l) = decompose(self.extent, pos);
        let key = chunk_key(c);
        let present = self.chunks.contains_key(&key);
        if !present {
            let chunk = Chunk::new(self.extent, fill);
            self.put_chunk(c, chunk);
        }
        let r = match self.chunks.get(&key) {
            Some(chunk) => *chunk.get(l),
            None => vstd::pervasive::unreached(),
        };
        proof {
            assert forall|q: GlobalPos| old(self).in_range(q) implies self.cell_or(q, fill) == old(
                self,
            ).cell_or(q, fill) by {
                let dq = spec_decompose(old(self).extent as int, q);
                if dq.0 != c {
                    assert(self.chunk_at(dq.0) == old(self).chunk_at(dq.0));
                }
            }
        }
        r
    }

    /// Keeps exactly the chunks the predicate approves, passing each present
    /// chunk's coordinate and contents; kept chunks are untouched.
    pub fn retain<F: Fn(ChunkPos, &Chunk<T>) -> bool>(&mut self, f: F)
        requires
            old(self).wf(),
            forall|c: ChunkPos|
                old(self).has_chunk(c) ==> call_requires(f, (c, &old(self).chunk_at(c))),
        ensures
            final(self).wf(),
            final(self).extent == old(self).extent,
            forall|c: ChunkPos|
                #[trigger] final(self).has_chunk(c) ==> old(self).has_chunk(c)
                    && final(self).chunk_at(c) == old(self).chunk_at(c) && call_ensures(
                    f,
                    (c, &old(self).chunk_at(c)),
                    true,
                ),
            forall|c: ChunkPos|
                (old(self).has_chunk(c) && !final(self).has_chunk(c)) ==> call_ensures(
                    f,
                    (c, &old(self).chunk_at(c)),
                    false,
                ),
    {
        let n: usize = self.keys.len();
        let mut keep: Vec<u64> = Vec::new();
        let mut i: usize = 0;
        while i < n
            invariant
                old(self).wf(),
                self.extent == old(self).extent,
                self.keys@ == old(self).keys@,
                n == self.keys@.len(),
                i <= n,
                forall|c: ChunkPos|
                    old(self).has_chunk(c) ==> call_requires(f, (c, &old(self).chunk_at(c))),
                forall|k: u64|
                    #[trigger] self.chunks@.contains_key(k) ==> old(self).chunks@.contains_key(k)
                        && self.chunks@[k] == old(self).chunks@[k],
                forall|k: u64|
                    (old(self).chunks@.contains_key(k) && !old(self).keys@.take(i as int).contains(
                        k,
                    )) ==> #[trigger] self.chunks@.contains_key(k),
                forall|k: u64|
                    (old(self).keys@.take(i as int).contains(k)
                        && old(self).chunks@.contains_key(k)) ==> {
                        &&& (#[trigger] self.chunks@.contains_key(k) ==> call_ensures(
                            f,
                            (spec_key_chunk(k), &old(self).chunks@[k]),
                            true,
                        ))
                        &&& (!self.chunks@.contains_key(k) ==> call_ensures(
                            f,
                            (spec_key_chunk(k), &old(self).chunks@[k]),
                            false,
                        ))
                    },
                keep@.no_duplicates(),
                forall|k: u64|
                    #[trigger] keep@.contains(k) <==> (old(self).keys@.take(i as int).contains(k)
                        && self.chunks@.contains_key(k)),
            decreases n - i,
        {
            let k = self.keys[i];
            let ghost pre = old(self).keys@.take(i as int);
            proof {
                assert(old(self).keys@.contains(k));
                assert(!pre.contains(k)) by {
                    if pre.contains(k) {
                        let j = choose|j: int| 0 <= j < pre.len() && pre[j] == k;
                        assert(old(self).keys@[j] == k);
                        assert(old(self).keys@[i as int] == k);
                    }
                }
                assert(self.chunks@.contains_key(k));
                lemma_chunk_key_bijective(ChunkPos { x: 0, y: 0 }, k);
                assert(old(self).has_chunk(spec_key_chunk(k)));
            }
            let c = key_chunk(k);
            let keep_it = match self.chunks.get(&k) {
                Some(chunk) => f(c, chunk),
                None => vstd::pervasive::unreached(),
            };
            if keep_it {
                let ghost keep_pre = keep@;
                keep.push(k);
                proof {
                    assert(!keep_pre.contains(k));
                    assert forall|i2: int, j2: int|
                        0 <= i2 < keep@.len() && 0 <= j2 < keep@.len() && i2 != j2 implies keep@[i2]
                        != keep@[j2] by {
                        let q = keep_pre.len() as int;
                        if i2 == q {
                            if keep@[j2] == k {
                                assert(keep_pre[j2] == k);
                                assert(keep_pre.contains(k));
                            }
                        } else if j2 == q {
                            if keep@[i2] == k {
                                assert(keep_pre[i2] == k);
                                assert(keep_pre.contains(k));
                            }
                        }
                    }
                    assert forall|q: u64| #[trigger] keep@.contains(q) implies (keep_pre.contains(
                        q,
                    ) || q == k) by {
                        let j = choose|j: int| 0 <= j < keep@.len() && keep@[j] == q;
                        if j < keep_pre.len() {
                            assert(keep_pre[j] == q);
                        }
                    }
                    assert forall|q: u64| keep_pre.contains(q) implies #[trigger] keep@.contains(
                        q,
                    ) by {
                        let j = choose|j: int| 0 <= j < keep_pre.len() && keep_pre[j] == q;
                        assert(keep@[j] == q);
                    }
                    assert(keep@.contains(k)) by {
                        assert(keep@[keep_pre.len() as int] == k);
                    }
                }
            } else {
                self.chunks.remove(&k);
            }
            proof {
                let post = old(self).keys@.take(i + 1 as int);
                assert(post =~= pre.push(k));
                assert forall|q: u64| #[trigger] post.contains(q) implies (pre.contains(q) || q
                    == k) by {
                    let j = choose|j: int| 0 <= j < post.len() && post[j] == q;
                    if j < pre.len() {
                        assert(pre[j] == q);
                    }
                }
                assert forall|q: u64| pre.contains(q) implies #[trigger] post.contains(q) by {
                    let j = choose|j: int| 0 <= j < pre.len() && pre[j] == q;
                    assert(post[j] == q);
                }
                assert(post.contains(k)) by {
                    assert(post[i as int] == k);
                }
            }
            i = i + 1;
        }
        self.keys = keep;
        proof {
            assert(old(self).keys@.take(n as int) =~= old(self).keys@);
            assert forall|c: ChunkPos| #[trigger] self.has_chunk(c) implies old(self).has_chunk(c)
                && self.chunk_at(c) == old(self).chunk_at(c) && call_ensures(
                f,
                (c, &old(self).chunk_at(c)),
                true,
            ) by {
                lemma_chunk_key_bijective(c, 0);
            }
            assert forall|c: ChunkPos|
                (old(self).has_chunk(c) && !self.has_chunk(c)) implies call_ensures(
                f,
                (c, &old(self).chunk_at(c)),
                false,
            ) by {
                lemma_chunk_key_bijective(c, 0);
            }
        }
    }


    /// Returns every (global position, cell value) pair of every present
    /// chunk: chunks in insertion order, cells in row-major order inside each
    /// chunk. The pairs cover exactly the stored cells, each position once.
    pub fn cells(&self) -> (r: Vec<(GlobalPos, T)>)
        requires
            self.wf(),
        ensures
            r@.len() == self.chunk_count() * (self.extent * self.extent),
            forall|k: int|
                0 <= k < r@.len() ==> self.in_range((#[trigger] r@[k]).0) && self.spec_get(
                    r@[k].0,
                ) == Some(r@[k].1),
            forall|k1: int, k2: int| 0 <= k1 < k2 < r@.len() ==> r@[k1].0 != r@[k2].0,
            forall|p: GlobalPos|
                self.in_range(p) && #[trigger] self.spec_get(p) is Some ==> exists|k: int|
                    0 <= k < r@.len() && (#[trigger] r@[k]).0 == p,
    {
        let e: usize = self.extent;
        let ghost es = e as int;
        proof {
            assert(e * e <= MAX_EXTENT * MAX_EXTENT && 1 <= e * e) by (nonlinear_arith)
                requires
                    1 <= e <= MAX_EXTENT,
            ;
        }
        let ee: usize = e * e;
        let n: usize = self.keys.len();
        let mut out: Vec<(GlobalPos, T)> = Vec::new();
        let mut ci: usize = 0;
        while ci < n
            invariant
                self.wf(),
                e == self.extent,
                es == e as int,
                ee == e * e,
                1 <= ee,
                n == self.keys@.len(),
                ci <= n,
                out@.len() == ci * ee,
                forall|k: int|
                    0 <= k < out@.len() ==> #[trigger] out@[k] == cells_entry(
                        *self,
                        es,
                        ee as int,
                        k,
                    ),
            decreases n - ci,
        {
            let ghost pre_out = out@;
            let key = self.keys[ci];
            let c = key_chunk(key);
            proof {
                assert(self.keys@.contains(key));
            }
            let chunk = match self.chunks.get(&key) {
                Some(chunk) => chunk,
                None => vstd::pervasive::unreached(),
            };
            let pairs = chunk.cells();
            let base: usize = out.len();
            let mut j: usize = 0;
            while j < ee
                invariant
                    es == e as int,
                    ee == e * e,
                    1 <= e <= MAX_EXTENT,
                    j <= ee,
                    base == pre_out.len(),
                    out@.len() == base + j,
                    pairs@.len() == ee,
                    forall|m: int|
                        0 <= m < ee ==> #[trigger] pairs@[m] == (
                            crate::chunk::local_of_index(es, m),
                            chunk.cells@[m],
                        ),
                    out@.take(base as int) == pre_out,
                    forall|m: int|
                        0 <= m < j ==> #[trigger] out@[base + m] == (
                            spec_compose(es, c, crate::chunk::local_of_index(es, m)),
                            pairs@[m].1,
                        ),
                decreases ee - j,
            {
                proof {
                    crate::chunk::lemma_local_of_index(es, j as int);
                }
                let pr = pairs[j];
                let p = compose(e, c, pr.0);
                out.push((p, pr.1));
                proof {
                    assert(out@.take(base as int) =~= pre_out);
                }
                j = j + 1;
            }
            proof {
                let eei = ee as int;
                let cii = ci as int;
                let cikey = self.keys@[cii];
                assert(spec_key_chunk(cikey) == c);
                assert(spec_chunk_key(c) == cikey);
                assert(self.chunk_at(c) == *chunk);
                assert forall|k: int| 0 <= k < out@.len() implies #[trigger] out@[k]
                    == cells_entry(*self, es, eei, k) by {
                    if k < base {
                        assert(out@.take(base as int)[k] == out@[k]);
                        assert(pre_out[k] == cells_entry(*self, es, eei, k));
                    } else {
                        let m = k - base;
                        assert(out@[base + m] == (
                            spec_compose(es, c, crate::chunk::local_of_index(es, m)),
                            pairs@[m].1,
                        ));
                        lemma_grid_index_of(eei, cii, m, n as int);
                        assert(k / eei == cii && k % eei == m);
                    }
                }
                assert((cii + 1) * eei == cii * eei + eei) by (nonlinear_arith);
            }
            ci = ci + 1;
        }
        proof {
            let eei = ee as int;
            let ni = n as int;
            assert(out@.len() == self.chunk_count() * (es * es)) by {
                assert(ni * eei == self.chunk_count() * (es * es)) by (nonlinear_arith)
                    requires
                        eei == es * es,
                        ni == self.chunk_count(),
                ;
            }
            // Soundness: every emitted pair is a stored cell.
            assert forall|k: int| 0 <= k < out@.len() implies self.in_range(
                (#[trigger] out@[k]).0,
            ) && self.spec_get(out@[k].0) == Some(out@[k].1) by {
                lemma_flat_grid_index(eei, ni, k);
                let ji = k / eei;
                let m = k % eei;
                let ck = self.keys@[ji];
                let c = spec_key_chunk(ck);
                lemma_chunk_key_bijective(c, ck);
                assert(self.keys@.contains(ck));
                crate::chunk::lemma_local_of_index(es, m);
                lemma_decompose_compose(es, c, crate::chunk::local_of_index(es, m));
            }
            // Distinctness: different indices decode to different positions.
            assert forall|k1: int, k2: int| 0 <= k1 < k2 < out@.len() implies out@[k1].0
                != out@[k2].0 by {
                lemma_flat_grid_index(eei, ni, k1);
                lemma_flat_grid_index(eei, ni, k2);
                let j1 = k1 / eei;
                let m1 = k1 % eei;
                let j2 = k2 / eei;
                let m2 = k2 % eei;
                let c1 = spec_key_chunk(self.keys@[j1]);
                let c2 = spec_key_chunk(self.keys@[j2]);
                lemma_chunk_key_bijective(c1, self.keys@[j1]);
                lemma_chunk_key_bijective(c2, self.keys@[j2]);
                crate::chunk::lemma_local_of_index(es, m1);
                crate::chunk::lemma_local_of_index(es, m2);
                let l1 = crate::chunk::local_of_index(es, m1);
                let l2 = crate::chunk::local_of_index(es, m2);
                lemma_decompose_compose(es, c1, l1);
                lemma_decompose_compose(es, c2, l2);
                if j1 == j2 {
                    assert(m1 != m2);
                } else {
                    assert(self.keys@[j1] != self.keys@[j2]);
                }
            }
            // Completeness: every stored cell's position is emitted.
            assert forall|p: GlobalPos|
                self.in_range(p) && #[trigger] self.spec_get(p) is Some implies exists|k: int|
                0 <= k < out@.len() && (#[trigger] out@[k]).0 == p by {
                let d = spec_decompose(es, p);
                lemma_compose_decompose(es, p);
                assert(self.keys@.contains(spec_chunk_key(d.0)));
                let ji = choose|ji: int|
                    0 <= ji < self.keys@.len() && self.keys@[ji] == spec_chunk_key(d.0);
                lemma_chunk_key_bijective(d.0, 0);
                crate::chunk::lemma_flat_index(es, d.1);
                let m = crate::chunk::flat_index(es, d.1);
                lemma_grid_index_of(eei, ji, m, ni);
                let k = ji * eei + m;
                assert(out@[k] == cells_entry(*self, es, eei, k));
                assert(out@[k].0 == p);
            }
        }
        out
    }

    /// Consumes the grid, returning every (global position, cell value) pair
    /// as [`ExGrid::cells`] does.
    pub fn into_cells(self) -> (r: Vec<(GlobalPos, T)>)
        requires
            self.wf(),
        ensures
            r@.len() == self.chunk_count() * (self.extent * self.extent),
            forall|k: int|
                0 <= k < r@.len() ==> self.in_range((#[trigger] r@[k]).0) && self.spec_get(
                    r@[k].0,
                ) == Some(r@[k].1),
            forall|k1: int, k2: int| 0 <= k1 < k2 < r@.len() ==> r@[k1].0 != r@[k2].0,
            forall|p: GlobalPos|
                self.in_range(p) && #[trigger] self.spec_get(p) is Some ==> exists|k: int|
                    0 <= k < r@.len() && (#[trigger] r@[k]).0 == p,
    {
        self.cells()
    }

    /// Returns every stored cell value: the values of [`ExGrid::cells`],
    /// without their positions.
    pub fn iter(&self) -> (r: Vec<T>)
        requires
            self.wf(),
        ensures
            r@.len() == self.chunk_count() * (self.extent * self.extent),
            exists|ps: Seq<GlobalPos>| values_cover(*self, r@, ps),
    {
        let cs = self.cells();
        let n: usize = cs.len();
        let mut out: Vec<T> = Vec::new();
        let mut i: usize = 0;
        while i < n
            invariant
                n == cs@.len(),
                i <= n,
                out@.len() == i,
                forall|k: int| 0 <= k < i ==> #[trigger] out@[k] == cs@[k].1,
            decreases n - i,
        {
            out.push(cs[i].1);
            i = i + 1;
        }
        proof {
            let ps = Seq::new(cs@.len(), |k: int| cs@[k].0);
            assert forall|p: GlobalPos|
                self.in_range(p) && #[trigger] self.spec_get(p) is Some implies ps.contains(p) by {
                let k = choose|k: int| 0 <= k < cs@.len() && (#[trigger] cs@[k]).0 == p;
                assert(ps[k] == p);
            }
            assert(values_cover(*self, out@, ps));
        }
        out
    }

    /// Writes the cell at a global position, materializing its owning chunk
    /// (every other cell set to `fill`) if absent. Returns the value the cell
    /// held before under read-through semantics: its previous value if the
    /// chunk existed, `fill` otherwise.
    pub fn insert_default(&mut self, pos: GlobalPos, value: T, fill: T) -> (r: T)
        requires
            old(self).wf(),
            old(self).in_range(pos),
        ensures
            final(self).wf(),
            final(self).extent == old(self).extent,
            r == old(self).cell_or(pos, fill),
            final(self).spec_get(pos) == Some(value),
            forall|c: ChunkPos|
                #[trigger] final(self).has_chunk(c) <==> (old(self).has_chunk(c) || c
                    == spec_decompose(old(self).extent as int, pos).0),
            forall|q: GlobalPos|
                old(self).in_range(q) && q != pos ==> final(self).cell_or(q, fill) == old(
                    self,
                ).cell_or(q, fill),
            forall|q: GlobalPos|
                old(self).in_range(q) && q != pos && spec_decompose(old(self).extent as int, q).0
                    != spec_decompose(old(self).extent as int, pos).0 ==> final(self).spec_get(q)
                    == old(self).spec_get(q),
    {
        let ghost pre = *old(self);
        let r = self.get_mut_default(pos, fill);
        let (c, l) = decompose(self.extent, pos);
        let key = chunk_key(c);
        let chunk = match self.chunks.get(&key) {
            Some(chunk) => chunk,
            None => vstd::pervasive::unreached(),
        };
        let mut chunk2 = Chunk { extent: chunk.extent, cells: chunk.to_vec() };
        chunk2.set(l, value);
        let ghost mid = *self;
        self.chunks.insert(key, chunk2);
        proof {
            assert(self.keys@ == mid.keys@);
            assert forall|k: u64| #[trigger] self.chunks@.contains_key(k) implies mid.chunks@.contains_key(k) by {}
            assert(self.wf());
            assert forall|cc: ChunkPos| #[trigger] self.has_chunk(cc) <==> (pre.has_chunk(cc) || cc
                == c) by {
                assert(mid.has_chunk(cc) <==> (pre.has_chunk(cc) || cc == c));
                if spec_chunk_key(cc) == key {
                    lemma_chunk_key_bijective(cc, 0);
                    lemma_chunk_key_bijective(c, 0);
                    assert(cc == c);
                } else {
                    assert(self.has_chunk(cc) == mid.has_chunk(cc));
                }
            }
            assert forall|cc: ChunkPos| cc != c implies #[trigger] self.chunk_at(cc)
                == mid.chunk_at(cc) by {
                lemma_chunk_key_bijective(cc, 0);
                lemma_chunk_key_bijective(c, 0);
            }
            assert forall|q: GlobalPos| pre.in_range(q) && q != pos implies self.cell_or(q, fill)
                == pre.cell_or(q, fill) by {
                let e = pre.extent as int;
                let dq = spec_decompose(e, q);
                if dq.0 == c {
                    lemma_compose_decompose(e, q);
                    lemma_compose_decompose(e, pos);
                    assert(dq.1 != l);
                } else {
                    assert(self.chunk_at(dq.0) == mid.chunk_at(dq.0));
                }
            }
            assert forall|q: GlobalPos|
                pre.in_range(q) && q != pos && spec_decompose(pre.extent as int, q).0 != c implies self.spec_get(
                q,
            ) == pre.spec_get(q) by {
                let dq = spec_decompose(pre.extent as int, q);
                assert(self.chunk_at(dq.0) == mid.chunk_at(dq.0));
            }
        }
        r
    }
}

/// The positions `ps` witness that `vals` enumerates exactly the occupied
/// cells of the sparse grid `g`: position `ps[k]` holds value `vals[k]`, the
/// positions are pairwise distinct, and every occupied cell's position
/// appears.
pub open spec fn sparse_values_cover<T>(
    g: ExGridSparse<T>,
    vals: Seq<T>,
    ps: Seq<GlobalPos>,
) -> bool {
    &&& ps.len() == vals.len()
    &&& forall|k: int|
        0 <= k < ps.len() ==> g.in_range(#[trigger] ps[k]) && g.spec_get(ps[k]) == Some(vals[k])
    &&& forall|k1: int, k2: int| 0 <= k1 < k2 < ps.len() ==> ps[k1] != ps[k2]
    &&& forall|p: GlobalPos|
        (g.in_range(p) && #[trigger] g.spec_get(p) is Some) ==> ps.contains(p)
}

/// A sparse grid: a sparse map from chunk coordinates to sparse chunks. A
/// cell reads as "no value" both when its chunk is absent and when its slot
/// inside a present chunk is vacant.
#[derive(Debug, Clone)]
pub struct ExGridSparse<T> {
    /// Cell count per axis of every chunk; fixed at construction.
    pub extent: usize,
    /// The chunk storage, keyed by encoded chunk coordinate.
    pub chunks: HashMap<u64, ChunkSparse<T>>,
    /// The encoded coordinates of the chunks present in `chunks`, kept in
    /// insertion order so that iteration is verified and deterministic.
    pub keys: Vec<u64>,
}

impl<T> ExGridSparse<T> {
    /// Structural invariant: the extent is in range, the key list mirrors the
    /// map's domain exactly and without duplicates, and every stored chunk is
    /// well formed with this grid's extent.
    pub open spec fn wf(self) -> bool {
        &&& 1 <= self.extent <= MAX_EXTENT
        &&& self.keys@.no_duplicates()
        &&& forall|k: u64| #[trigger] self.chunks@.contains_key(k) <==> self.keys@.contains(k)
        &&& forall|k: u64|
            self.chunks@.contains_key(k) ==> (#[trigger] self.chunks@[k]).wf()
                && self.chunks@[k].inner.extent == self.extent
    }

    /// Whether the chunk at a chunk coordinate is present.
    pub open spec fn has_chunk(self, c: ChunkPos) -> bool {
        self.chunks@.contains_key(spec_chunk_key(c))
    }

    /// The chunk stored at a chunk coordinate.
    pub open spec fn chunk_at(self, c: ChunkPos) -> ChunkSparse<T> {
        self.chunks@[spec_chunk_key(c)]
    }

    /// Whether a global position is addressable by this grid.
    pub open spec fn in_range(self, p: GlobalPos) -> bool {
        in_chunk_range(self.extent as int, p)
    }

    /// The value stored at a global position: no value both when the owning
    /// chunk is absent and when its slot is vacant.
    pub open spec fn spec_get(self, p: GlobalPos) -> Option<T> {
        let d = spec_decompose(self.extent as int, p);
        if self.has_chunk(d.0) {
            self.chunk_at(d.0).cell(d.1)
        } else {
            None
        }
    }

    /// The number of chunks present.
    pub open spec fn chunk_count(self) -> nat {
        self.keys@.len()
    }

    /// Returns how many chunks are present.
    pub fn chunks_count(&self) -> (r: usize)
        requires
            self.wf(),
        ensures
            r == self.chunk_count(),
    {
        self.keys.len()
    }

    /// Returns the total slot capacity of the present chunks: an upper bound
    /// on the number of occupied cells.
    pub fn cells_count_max(&self) -> (r: usize)
        requires
            self.wf(),
            self.chunk_count() * self.extent * self.extent <= usize::MAX,
        ensures
            r == self.chunk_count() * self.extent * self.extent,
    {
        proof {
            assert(self.keys@.len() * self.extent <= self.keys@.len() * self.extent
                * self.extent) by (nonlinear_arith)
                requires
                    self.extent >= 1,
            ;
        }
        self.keys.len() * self.extent * self.extent
    }

    /// Removes every chunk.
    pub fn clear(&mut self)
        requires
            old(self).wf(),
        ensures
            final(self).wf(),
            final(self).extent == old(self).extent,
            final(self).chunk_count() == 0,
            forall|c: ChunkPos| !final(self).has_chunk(c),
    {
        self.chunks.clear();
        self.keys.clear();
    }

    /// Returns whether the chunk at a chunk coordinate is present.
    pub fn contains_chunk(&self, pos: ChunkPos) -> (r: bool)
        requires
            self.wf(),
        ensures
            r == self.has_chunk(pos),
    {
        let key = chunk_key(pos);
        self.chunks.contains_key(&key)
    }

    /// Returns the slot count per axis of every chunk of this grid.
    pub fn extent(&self) -> (r: usize)
        ensures
            r == self.extent,
    {
        self.extent
    }

    /// Returns a reference to the chunk at a chunk coordinate, if present.
    pub fn get_chunk(&self, pos: ChunkPos) -> (r: Option<&ChunkSparse<T>>)
        requires
            self.wf(),
        ensures
            match r {
                Some(chunk) => self.has_chunk(pos) && *chunk == self.chunk_at(pos),
                None => !self.has_chunk(pos),
            },
    {
        let key = chunk_key(pos);
        self.chunks.get(&key)
    }

    /// Inserts a chunk at a coordinate that does not yet hold one.
    pub(crate) fn put_chunk(&mut self, pos: ChunkPos, chunk: ChunkSparse<T>)
        requires
            old(self).wf(),
            !old(self).has_chunk(pos),
            chunk.wf(),
            chunk.inner.extent == old(self).extent,
        ensures
            final(self).wf(),
            final(self).extent == old(self).extent,
            final(self).chunk_count() == old(self).chunk_count() + 1,
            final(self).has_chunk(pos),
            final(self).chunk_at(pos) == chunk,
            forall|c: ChunkPos|
                #[trigger] final(self).has_chunk(c) <==> (old(self).has_chunk(c) || c == pos),
            forall|c: ChunkPos|
                c != pos ==> #[trigger] final(self).chunk_at(c) == old(self).chunk_at(c),
            final(self).keys@ == old(self).keys@.push(spec_chunk_key(pos)),
    {
        let key = chunk_key(pos);
        self.chunks.insert(key, chunk);
        self.keys.push(key);
        proof {
            assert forall|c: ChunkPos| self.has_chunk(c) implies (old(self).has_chunk(c) || c
                == pos) by {
                if spec_chunk_key(c) == key {
                    lemma_chunk_key_bijective(c, 0);
                    lemma_chunk_key_bijective(pos, 0);
                }
            }
            assert forall|c: ChunkPos| c != pos implies self.chunk_at(c) == old(self).chunk_at(
                c,
            ) by {
                lemma_chunk_key_bijective(c, 0);
                lemma_chunk_key_bijective(pos, 0);
            }
            assert(!old(self).keys@.contains(key));
            assert forall|i: int, j: int|
                0 <= i < self.keys@.len() && 0 <= j < self.keys@.len() && i != j implies self.keys@[i]
                != self.keys@[j] by {
                let n = old(self).keys@.len() as int;
                if i == n {
                    if self.keys@[j] == key {
                        assert(old(self).keys@[j] == key);
                        assert(old(self).keys@.contains(key));
                    }
                } else if j == n {
                    if self.keys@[i] == key {
                        assert(old(self).keys@[i] == key);
                        assert(old(self).keys@.contains(key));
                    }
                }
            }
            assert forall|k: u64| #[trigger] self.chunks@.contains_key(k) implies self.keys@.contains(
                k,
            ) by {
                if k != key {
                    assert(old(self).keys@.contains(k));
                    let i = choose|i: int| 0 <= i < old(self).keys@.len() && old(self).keys@[i] == k;
                    assert(self.keys@[i] == k);
                } else {
                    assert(self.keys@[old(self).keys@.len() as int] == key);
                }
            }
            assert forall|k: u64| self.keys@.contains(k) implies self.chunks@.contains_key(k) by {
                let i = choose|i: int| 0 <= i < self.keys@.len() && self.keys@[i] == k;
                if i < old(self).keys@.len() {
                    assert(old(self).keys@.contains(k));
                }
            }
        }
    }

    /// Returns two chunk coordinates `(min, max)` bounding a box that
    /// contains every present chunk, taking the minimum and maximum per axis;
    /// no value when the grid is empty. Recomputed on each call, not cached.
    pub fn chunks_bounds(&self) -> (r: Option<(ChunkPos, ChunkPos)>)
        requires
            self.wf(),
        ensures
            match r {
                None => self.chunk_count() == 0,
                Some(b) => {
                    &&& self.chunk_count() > 0
                    &&& forall|c: ChunkPos|
                        #[trigger] self.has_chunk(c) ==> b.0.x <= c.x <= b.1.x && b.0.y <= c.y
                            <= b.1.y
                    &&& exists|c: ChunkPos| #[trigger] self.has_chunk(c) && c.x == b.0.x
                    &&& exists|c: ChunkPos| #[trigger] self.has_chunk(c) && c.y == b.0.y
                    &&& exists|c: ChunkPos| #[trigger] self.has_chunk(c) && c.x == b.1.x
                    &&& exists|c: ChunkPos| #[trigger] self.has_chunk(c) && c.y == b.1.y
                },
            },
    {
        let n: usize = self.keys.len();
        if n == 0 {
            return None;
        }
        let first = key_chunk(self.keys[0]);
        let mut mnx = first.x;
        let mut mny = first.y;
        let mut mxx = first.x;
        let mut mxy = first.y;
        let mut i: usize = 1;
        while i < n
            invariant
                self.wf(),
                n == self.keys@.len(),
                1 <= i <= n,
                forall|j: int|
                    0 <= j < i ==> {
                        let c = spec_key_chunk(#[trigger] self.keys@[j]);
                        mnx <= c.x <= mxx && mny <= c.y <= mxy
                    },
                exists|j: int| 0 <= j < i && spec_key_chunk(#[trigger] self.keys@[j]).x == mnx,
                exists|j: int| 0 <= j < i && spec_key_chunk(#[trigger] self.keys@[j]).y == mny,
                exists|j: int| 0 <= j < i && spec_key_chunk(#[trigger] self.keys@[j]).x == mxx,
                exists|j: int| 0 <= j < i && spec_key_chunk(#[trigger] self.keys@[j]).y == mxy,
            decreases n - i,
        {
            let c = key_chunk(self.keys[i]);
            if c.x < mnx {
                mnx = c.x;
            }
            if c.y < mny {
                mny = c.y;
            }
            if c.x > mxx {
                mxx = c.x;
            }
            if c.y > mxy {
                mxy = c.y;
            }
            i = i + 1;
        }
        let r = (ChunkPos { x: mnx, y: mny }, ChunkPos { x: mxx, y: mxy });
        proof {
            assert forall|c: ChunkPos| #[trigger] self.has_chunk(c) implies r.0.x <= c.x <= r.1.x
                && r.0.y <= c.y <= r.1.y by {
                assert(self.keys@.contains(spec_chunk_key(c)));
                let j = choose|j: int|
                    0 <= j < self.keys@.len() && self.keys@[j] == spec_chunk_key(c);
                lemma_chunk_key_bijective(c, 0);
                assert(spec_key_chunk(self.keys@[j]) == c);
            }
            let jx = choose|j: int|
                0 <= j < self.keys@.len() && spec_key_chunk(#[trigger] self.keys@[j]).x == mnx;
            lemma_chunk_key_bijective(ChunkPos { x: 0, y: 0 }, self.keys@[jx]);
            assert(self.has_chunk(spec_key_chunk(self.keys@[jx])));
            let jy = choose|j: int|
                0 <= j < self.keys@.len() && spec_key_chunk(#[trigger] self.keys@[j]).y == mny;
            lemma_chunk_key_bijective(ChunkPos { x: 0, y: 0 }, self.keys@[jy]);
            assert(self.has_chunk(spec_key_chunk(self.keys@[jy])));
            let kx = choose|j: int|
                0 <= j < self.keys@.len() && spec_key_chunk(#[trigger] self.keys@[j]).x == mxx;
            lemma_chunk_key_bijective(ChunkPos { x: 0, y: 0 }, self.keys@[kx]);
            assert(self.has_chunk(spec_key_chunk(self.keys@[kx])));
            let ky = choose|j: int|
                0 <= j < self.keys@.len() && spec_key_chunk(#[trigger] self.keys@[j]).y == mxy;
            lemma_chunk_key_bijective(ChunkPos { x: 0, y: 0 }, self.keys@[ky]);
            assert(self.has_chunk(spec_key_chunk(self.keys@[ky])));
        }
        Some(r)
    }

    /// Returns two global positions `(min, max)` bounding a box that contains
    /// every slot of every present chunk; no value when the grid is empty.
    /// Deliberately conservative ("naive"): the box covers whole chunks, so
    /// it may include vacant boundary cells.
    pub fn naive_bounds(&self) -> (r: Option<(GlobalPos, GlobalPos)>)
        requires
            self.wf(),
        ensures
            match r {
                None => self.chunk_count() == 0,
                Some(b) => {
                    let e = self.extent as int;
                    &&& self.chunk_count() > 0
                    &&& forall|c: ChunkPos, l: LocalPos|
                        #[trigger] self.has_chunk(c) && local_in_extent(e, l) ==> {
                            let p = #[trigger] spec_compose(e, c, l);
                            b.0.x <= p.x <= b.1.x && b.0.y <= p.y <= b.1.y
                        }
                    &&& exists|c: ChunkPos| #[trigger] self.has_chunk(c) && b.0.x == c.x * e
                    &&& exists|c: ChunkPos| #[trigger] self.has_chunk(c) && b.0.y == c.y * e
                    &&& exists|c: ChunkPos|
                        #[trigger] self.has_chunk(c) && b.1.x == c.x * e + (e - 1)
                    &&& exists|c: ChunkPos|
                        #[trigger] self.has_chunk(c) && b.1.y == c.y * e + (e - 1)
                },
            },
    {
        match self.chunks_bounds() {
            None => None,
            Some((mn, mx)) => {
                let last: usize = self.extent - 1;
                let lo = compose(self.extent, mn, LocalPos { x: 0, y: 0 });
                let hi = compose(self.extent, mx, LocalPos { x: last, y: last });
                proof {
                    let e = self.extent as int;
                    let zero = LocalPos { x: 0, y: 0 };
                    let corner = LocalPos { x: last, y: last };
                    lemma_compose_in_i64(e, mn, zero);
                    lemma_compose_in_i64(e, mx, corner);
                    assert(lo.x == mn.x * e && lo.y == mn.y * e);
                    assert(hi.x == mx.x * e + (e - 1) && hi.y == mx.y * e + (e - 1));
                    assert forall|c: ChunkPos, l: LocalPos|
                        #[trigger] self.has_chunk(c) && local_in_extent(e, l) implies {
                        let p = #[trigger] spec_compose(e, c, l);
                        lo.x <= p.x <= hi.x && lo.y <= p.y <= hi.y
                    } by {
                        lemma_compose_in_i64(e, c, l);
                        vstd::arithmetic::mul::lemma_mul_inequality(mn.x as int, c.x as int, e);
                        vstd::arithmetic::mul::lemma_mul_inequality(c.x as int, mx.x as int, e);
                        vstd::arithmetic::mul::lemma_mul_inequality(mn.y as int, c.y as int, e);
                        vstd::arithmetic::mul::lemma_mul_inequality(c.y as int, mx.y as int, e);
                    }
                    let cx = choose|c: ChunkPos| #[trigger] self.has_chunk(c) && c.x == mn.x;
                    assert(self.has_chunk(cx) && lo.x == cx.x * e);
                    let cy = choose|c: ChunkPos| #[trigger] self.has_chunk(c) && c.y == mn.y;
                    assert(self.has_chunk(cy) && lo.y == cy.y * e);
                    let dx = choose|c: ChunkPos| #[trigger] self.has_chunk(c) && c.x == mx.x;
                    assert(self.has_chunk(dx) && hi.x == dx.x * e + (e - 1));
                    let dy = choose|c: ChunkPos| #[trigger] self.has_chunk(c) && c.y == mx.y;
                    assert(self.has_chunk(dy) && hi.y == dy.y * e + (e - 1));
                }
                Some((lo, hi))
            },
        }
    }

    /// Returns the coordinates of every present chunk, in insertion order.
    pub fn chunks(&self) -> (r: Vec<ChunkPos>)
        requires
            self.wf(),
        ensures
            r@.len() == self.chunk_count(),
            forall|i: int| 0 <= i < r@.len() ==> self.has_chunk(#[trigger] r@[i]),
            forall|i: int, j: int| 0 <= i < j < r@.len() ==> r@[i] != r@[j],
            forall|c: ChunkPos| #[trigger] self.has_chunk(c) ==> r@.contains(c),
            forall|i: int|
                0 <= i < r@.len() ==> spec_chunk_key(#[trigger] r@[i]) == self.keys@[i],
    {
        let n: usize = self.keys.len();
        let mut out: Vec<ChunkPos> = Vec::new();
        let mut i: usize = 0;
        while i < n
            invariant
                self.wf(),
                n == self.keys@.len(),
                i <= n,
                out@.len() == i,
                forall|j: int|
                    0 <= j < i ==> spec_chunk_key(#[trigger] out@[j]) == self.keys@[j],
                forall|j: int| 0 <= j < i ==> out@[j] == spec_key_chunk(#[trigger] self.keys@[j]),
            decreases n - i,
        {
            let c = key_chunk(self.keys[i]);
            out.push(c);
            i = i + 1;
        }
        proof {
            assert forall|i: int| 0 <= i < out@.len() implies self.has_chunk(#[trigger] out@[i]) by {
                assert(self.keys@.contains(self.keys@[i]));
            }
            assert forall|c: ChunkPos| #[trigger] self.has_chunk(c) implies out@.contains(c) by {
                assert(self.keys@.contains(spec_chunk_key(c)));
                let j = choose|j: int|
                    0 <= j < self.keys@.len() && self.keys@[j] == spec_chunk_key(c);
                lemma_chunk_key_bijective(c, 0);
                assert(out@[j] == c);
            }
        }
        out
    }

    /// Returns true if every slot of every present chunk is vacant; an empty
    /// grid counts as all vacant.
    pub fn is_all_vacant(&self) -> (r: bool)
        requires
            self.wf(),
        ensures
            r == (forall|c: ChunkPos|
                #[trigger] self.has_chunk(c) ==> self.chunk_at(c).all_vacant()),
    {
        let n: usize = self.keys.len();
        let mut i: usize = 0;
        while i < n
            invariant
                self.wf(),
                n == self.keys@.len(),
                i <= n,
                forall|j: int| 0 <= j < i ==> self.chunks@[#[trigger] self.keys@[j]].all_vacant(),
            decreases n - i,
        {
            let k = self.keys[i];
            proof {
                assert(self.keys@.contains(k));
            }
            let vacant = match self.chunks.get(&k) {
                Some(chunk) => chunk.is_all_vacant(),
                None => vstd::pervasive::unreached(),
            };
            if !vacant {
                proof {
                    lemma_chunk_key_bijective(ChunkPos { x: 0, y: 0 }, k);
                    let c = spec_key_chunk(k);
                    assert(self.has_chunk(c) && !self.chunk_at(c).all_vacant());
                }
                return false;
            }
            i = i + 1;
        }
        proof {
            assert forall|c: ChunkPos| #[trigger] self.has_chunk(c) implies self.chunk_at(
                c,
            ).all_vacant() by {
                assert(self.keys@.contains(spec_chunk_key(c)));
                let j = choose|j: int|
                    0 <= j < self.keys@.len() && self.keys@[j] == spec_chunk_key(c);
                assert(self.chunks@[self.keys@[j]].all_vacant());
            }
        }
        true
    }

    /// Alias of [`ExGridSparse::is_all_vacant`], kept for callers of the
    /// older name.
    pub fn is_vacant(&self) -> (r: bool)
        requires
            self.wf(),
        ensures
            r == (forall|c: ChunkPos|
                #[trigger] self.has_chunk(c) ==> self.chunk_at(c).all_vacant()),
    {
        self.is_all_vacant()
    }

    /// Returns true if the grid holds at least one chunk and every slot of
    /// every present chunk holds a value.
    pub fn is_all_occupied(&self) -> (r: bool)
        requires
            self.wf(),
        ensures
            r == (self.chunk_count() > 0 && forall|c: ChunkPos|
                #[trigger] self.has_chunk(c) ==> self.chunk_at(c).all_occupied()),
    {
        let n: usize = self.keys.len();
        if n == 0 {
            return false;
        }
        let mut i: usize = 0;
        while i < n
            invariant
                self.wf(),
                n == self.keys@.len(),
                i <= n,
                forall|j: int| 0 <= j < i ==> self.chunks@[#[trigger] self.keys@[j]].all_occupied(),
            decreases n - i,
        {
            let k = self.keys[i];
            proof {
                assert(self.keys@.contains(k));
            }
            let occupied = match self.chunks.get(&k) {
                Some(chunk) => chunk.is_all_occupied(),
                None => vstd::pervasive::unreached(),
            };
            if !occupied {
                proof {
                    lemma_chunk_key_bijective(ChunkPos { x: 0, y: 0 }, k);
                    let c = spec_key_chunk(k);
                    assert(self.has_chunk(c) && !self.chunk_at(c).all_occupied());
                }
                return false;
            }
            i = i + 1;
        }
        proof {
            assert forall|c: ChunkPos| #[trigger] self.has_chunk(c) implies self.chunk_at(
                c,
            ).all_occupied() by {
                assert(self.keys@.contains(spec_chunk_key(c)));
                let j = choose|j: int|
                    0 <= j < self.keys@.len() && self.keys@[j] == spec_chunk_key(c);
                assert(self.chunks@[self.keys@[j]].all_occupied());
            }
        }
        true
    }


    /// Keeps exactly the chunks the predicate approves, passing each present
    /// chunk's coordinate and contents; kept chunks are untouched.
    pub fn retain<F: Fn(ChunkPos, &ChunkSparse<T>) -> bool>(&mut self, f: F)
        requires
            old(self).wf(),
            forall|c: ChunkPos|
                old(self).has_chunk(c) ==> call_requires(f, (c, &old(self).chunk_at(c))),
        ensures
            final(self).wf(),
            final(self).extent == old(self).extent,
            forall|c: ChunkPos|
                #[trigger] final(self).has_chunk(c) ==> old(self).has_chunk(c)
                    && final(self).chunk_at(c) == old(self).chunk_at(c) && call_ensures(
                    f,
                    (c, &old(self).chunk_at(c)),
                    true,
                ),
            forall|c: ChunkPos|
                (old(self).has_chunk(c) && !final(self).has_chunk(c)) ==> call_ensures(
                    f,
                    (c, &old(self).chunk_at(c)),
                    false,
                ),
    {
        let n: usize = self.keys.len();
        let mut keep: Vec<u64> = Vec::new();
        let mut i: usize = 0;
        while i < n
            invariant
                old(self).wf(),
                self.extent == old(self).extent,
                self.keys@ == old(self).keys@,
                n == self.keys@.len(),
                i <= n,
                forall|c: ChunkPos|
                    old(self).has_chunk(c) ==> call_requires(f, (c, &old(self).chunk_at(c))),
                forall|k: u64|
                    #[trigger] self.chunks@.contains_key(k) ==> old(self).chunks@.contains_key(k)
                        && self.chunks@[k] == old(self).chunks@[k],
                forall|k: u64|
                    (old(self).chunks@.contains_key(k) && !old(self).keys@.take(i as int).contains(
                        k,
                    )) ==> #[trigger] self.chunks@.contains_key(k),
                forall|k: u64|
                    (old(self).keys@.take(i as int).contains(k)
                        && old(self).chunks@.contains_key(k)) ==> {
                        &&& (#[trigger] self.chunks@.contains_key(k) ==> call_ensures(
                            f,
                            (spec_key_chunk(k), &old(self).chunks@[k]),
                            true,
                        ))
                        &&& (!self.chunks@.contains_key(k) ==> call_ensures(
                            f,
                            (spec_key_chunk(k), &old(self).chunks@[k]),
                            false,
                        ))
                    },
                keep@.no_duplicates(),
                forall|k: u64|
                    #[trigger] keep@.contains(k) <==> (old(self).keys@.take(i as int).contains(k)
                        && self.chunks@.contains_key(k)),
            decreases n - i,
        {
            let k = self.keys[i];
            let ghost pre = old(self).keys@.take(i as int);
            proof {
                assert(old(self).keys@.contains(k));
                assert(!pre.contains(k)) by {
                    if pre.contains(k) {
                        let j = choose|j: int| 0 <= j < pre.len() && pre[j] == k;
                        assert(old(self).keys@[j] == k);
                        assert(old(self).keys@[i as int] == k);
                    }
                }
                assert(self.chunks@.contains_key(k));
                lemma_chunk_key_bijective(ChunkPos { x: 0, y: 0 }, k);
                assert(old(self).has_chunk(spec_key_chunk(k)));
            }
            let c = key_chunk(k);
            let keep_it = match self.chunks.get(&k) {
                Some(chunk) => f(c, chunk),
                None => vstd::pervasive::unreached(),
            };
            if keep_it {
                let ghost keep_pre = keep@;
                keep.push(k);
                proof {
                    assert(!keep_pre.contains(k));
                    assert forall|i2: int, j2: int|
                        0 <= i2 < keep@.len() && 0 <= j2 < keep@.len() && i2 != j2 implies keep@[i2]
                        != keep@[j2] by {
                        let q = keep_pre.len() as int;
                        if i2 == q {
                            if keep@[j2] == k {
                                assert(keep_pre[j2] == k);
                                assert(keep_pre.contains(k));
                            }
                        } else if j2 == q {
                            if keep@[i2] == k {
                                assert(keep_pre[i2] == k);
                                assert(keep_pre.contains(k));
                            }
                        }
                    }
                    assert forall|q: u64| #[trigger] keep@.contains(q) implies (keep_pre.contains(
                        q,
                    ) || q == k) by {
                        let j = choose|j: int| 0 <= j < keep@.len() && keep@[j] == q;
                        if j < keep_pre.len() {
                            assert(keep_pre[j] == q);
                        }
                    }
                    assert forall|q: u64| keep_pre.contains(q) implies #[trigger] keep@.contains(
                        q,
                    ) by {
                        let j = choose|j: int| 0 <= j < keep_pre.len() && keep_pre[j] == q;
                        assert(keep@[j] == q);
                    }
                    assert(keep@.contains(k)) by {
                        assert(keep@[keep_pre.len() as int] == k);
                    }
                }
            } else {
                self.chunks.remove(&k);
            }
            proof {
                let post = old(self).keys@.take(i + 1 as int);
                assert(post =~= pre.push(k));
                assert forall|q: u64| #[trigger] post.contains(q) implies (pre.contains(q) || q
                    == k) by {
                    let j = choose|j: int| 0 <= j < post.len() && post[j] == q;
                    if j < pre.len() {
                        assert(pre[j] == q);
                    }
                }
                assert forall|q: u64| pre.contains(q) implies #[trigger] post.contains(q) by {
                    let j = choose|j: int| 0 <= j < pre.len() && pre[j] == q;
                    assert(post[j] == q);
                }
                assert(post.contains(k)) by {
                    assert(post[i as int] == k);
                }
            }
            i = i + 1;
        }
        self.keys = keep;
        proof {
            assert(old(self).keys@.take(n as int) =~= old(self).keys@);
            assert forall|c: ChunkPos| #[trigger] self.has_chunk(c) implies old(self).has_chunk(c)
                && self.chunk_at(c) == old(self).chunk_at(c) && call_ensures(
                f,
                (c, &old(self).chunk_at(c)),
                true,
            ) by {
                lemma_chunk_key_bijective(c, 0);
            }
            assert forall|c: ChunkPos|
                (old(self).has_chunk(c) && !self.has_chunk(c)) implies call_ensures(
                f,
                (c, &old(self).chunk_at(c)),
                false,
            ) by {
                lemma_chunk_key_bijective(c, 0);
            }
        }
    }

    /// Removes every chunk all of whose slots are vacant, keeping the others
    /// untouched. An explicit, opt-in pass: stepping never invokes it.
    pub fn clean_up(&mut self)
        requires
            old(self).wf(),
        ensures
            final(self).wf(),
            final(self).extent == old(self).extent,
            forall|c: ChunkPos|
                #[trigger] final(self).has_chunk(c) <==> (old(self).has_chunk(c) && !old(
                    self,
                ).chunk_at(c).all_vacant()),
            forall|c: ChunkPos|
                #[trigger] final(self).has_chunk(c) ==> final(self).chunk_at(c) == old(
                    self,
                ).chunk_at(c),
    {
        let n: usize = self.keys.len();
        let mut keep: Vec<u64> = Vec::new();
        let mut i: usize = 0;
        while i < n
            invariant
                old(self).wf(),
                self.extent == old(self).extent,
                self.keys@ == old(self).keys@,
                n == self.keys@.len(),
                i <= n,
                forall|k: u64|
                    #[trigger] self.chunks@.contains_key(k) <==> (old(self).chunks@.contains_key(k)
                        && !(old(self).keys@.take(i as int).contains(k)
                        && old(self).chunks@[k].all_vacant())),
                forall|k: u64|
                    #[trigger] self.chunks@.contains_key(k) ==> self.chunks@[k] == old(
                        self,
                    ).chunks@[k],
                keep@.no_duplicates(),
                forall|k: u64|
                    #[trigger] keep@.contains(k) <==> (old(self).keys@.take(i as int).contains(k)
                        && old(self).chunks@.contains_key(k) && !old(
                        self,
                    ).chunks@[k].all_vacant()),
            decreases n - i,
        {
            let k = self.keys[i];
            let ghost pre = old(self).keys@.take(i as int);
            proof {
                assert(old(self).keys@.contains(k));
                assert(!pre.contains(k)) by {
                    if pre.contains(k) {
                        let j = choose|j: int| 0 <= j < pre.len() && pre[j] == k;
                        assert(old(self).keys@[j] == k);
                        assert(old(self).keys@[i as int] == k);
                    }
                }
                assert(self.chunks@.contains_key(k));
            }
            let vacant = match self.chunks.get(&k) {
                Some(chunk) => chunk.is_all_vacant(),
                None => vstd::pervasive::unreached(),
            };
            if vacant {
                self.chunks.remove(&k);
            } else {
                let ghost keep_pre = keep@;
                keep.push(k);
                proof {
                    assert(!keep_pre.contains(k));
                    assert forall|i2: int, j2: int|
                        0 <= i2 < keep@.len() && 0 <= j2 < keep@.len() && i2 != j2 implies keep@[i2]
                        != keep@[j2] by {
                        let m = keep_pre.len() as int;
                        if i2 == m {
                            if keep@[j2] == k {
                                assert(keep_pre[j2] == k);
                                assert(keep_pre.contains(k));
                            }
                        } else if j2 == m {
                            if keep@[i2] == k {
                                assert(keep_pre[i2] == k);
                                assert(keep_pre.contains(k));
                            }
                        }
                    }
                    assert forall|q: u64| #[trigger] keep@.contains(q) implies (keep_pre.contains(
                        q,
                    ) || q == k) by {
                        let j = choose|j: int| 0 <= j < keep@.len() && keep@[j] == q;
                        if j < keep_pre.len() {
                            assert(keep_pre[j] == q);
                        }
                    }
                    assert forall|q: u64| keep_pre.contains(q) implies #[trigger] keep@.contains(
                        q,
                    ) by {
                        let j = choose|j: int| 0 <= j < keep_pre.len() && keep_pre[j] == q;
                        assert(keep@[j] == q);
                    }
                    assert(keep@.contains(k)) by {
                        assert(keep@[keep_pre.len() as int] == k);
                    }
                }
            }
            proof {
                let post = old(self).keys@.take(i + 1 as int);
                assert(post =~= pre.push(k));
                assert forall|q: u64| #[trigger] post.contains(q) implies (pre.contains(q) || q
                    == k) by {
                    let j = choose|j: int| 0 <= j < post.len() && post[j] == q;
                    if j < pre.len() {
                        assert(pre[j] == q);
                    }
                }
                assert forall|q: u64| pre.contains(q) implies #[trigger] post.contains(q) by {
                    let j = choose|j: int| 0 <= j < pre.len() && pre[j] == q;
                    assert(post[j] == q);
                }
                assert(post.contains(k)) by {
                    assert(post[i as int] == k);
                }
            }
            i = i + 1;
        }
        self.keys = keep;
        proof {
            assert(old(self).keys@.take(n as int) =~= old(self).keys@);
            assert forall|c: ChunkPos| #[trigger] self.has_chunk(c) <==> (old(self).has_chunk(c)
                && !old(self).chunk_at(c).all_vacant()) by {}
        }
    }
}


impl<T: Copy> ExGridSparse<T> {
    /// Builds an empty grid with the given chunk extent.
    pub fn new(extent: usize) -> (r: Self)
        requires
            1 <= extent <= MAX_EXTENT,
        ensures
            r.wf(),
            r.extent == extent,
            r.chunk_count() == 0,
            forall|c: ChunkPos| !r.has_chunk(c),
            forall|p: GlobalPos| r.spec_get(p) is None,
    {
        ExGridSparse { extent, chunks: HashMap::new(), keys: Vec::new() }
    }

    /// Reads the value of a cell, if both its owning chunk exists and its
    /// slot is occupied. Never materializes a chunk.
    pub fn get(&self, pos: GlobalPos) -> (r: Option<T>)
        requires
            self.wf(),
            self.in_range(pos),
        ensures
            r == self.spec_get(pos),
    {
        let (c, l) = decompose(self.extent, pos);
        let key = chunk_key(c);
        match self.chunks.get(&key) {
            Some(chunk) => *chunk.get(l),
            None => None,
        }
    }


    /// Writes the cell at a global position if its owning chunk is present,
    /// never materializing a chunk; returns whether the write happened.
    pub fn set(&mut self, pos: GlobalPos, value: T) -> (r: bool)
        requires
            old(self).wf(),
            old(self).in_range(pos),
        ensures
            final(self).wf(),
            final(self).extent == old(self).extent,
            r == old(self).has_chunk(spec_decompose(old(self).extent as int, pos).0),
            forall|c: ChunkPos| #[trigger] final(self).has_chunk(c) <==> old(self).has_chunk(c),
            r ==> final(self).spec_get(pos) == Some(value),
            !r ==> *final(self) == *old(self),
            forall|q: GlobalPos|
                old(self).in_range(q) && q != pos ==> final(self).spec_get(q) == old(
                    self,
                ).spec_get(q),
    {
        let ghost pre = *old(self);
        let (c, l) = decompose(self.extent, pos);
        let key = chunk_key(c);
        let chunk = match self.chunks.get(&key) {
            Some(chunk) => chunk,
            None => {
                return false;
            },
        };
        let mut chunk2 = ChunkSparse { inner: Chunk { extent: chunk.inner.extent, cells: chunk.to_vec() } };
        chunk2.set(l, Some(value));
        let ghost mid = *self;
        self.chunks.insert(key, chunk2);
        proof {
            assert(self.keys@ == mid.keys@);
            assert forall|k: u64| #[trigger] self.chunks@.contains_key(k) implies mid.chunks@.contains_key(k) by {}
            assert(self.wf());
            assert forall|cc: ChunkPos| cc != c implies #[trigger] self.chunk_at(cc)
                == mid.chunk_at(cc) by {
                lemma_chunk_key_bijective(cc, 0);
                lemma_chunk_key_bijective(c, 0);
            }
            assert forall|q: GlobalPos| pre.in_range(q) && q != pos implies self.spec_get(q)
                == pre.spec_get(q) by {
                let e = pre.extent as int;
                let dq = spec_decompose(e, q);
                if dq.0 == c {
                    lemma_compose_decompose(e, q);
                    lemma_compose_decompose(e, pos);
                    assert(dq.1 != l);
                } else {
                    assert(self.chunk_at(dq.0) == mid.chunk_at(dq.0));
                }
            }
        }
        true
    }

    /// Reads the slot at a global position, materializing its owning chunk
    /// (all slots vacant) if absent. Returns the slot's value, which is what
    /// the position read as before the call: materializing a vacant chunk
    /// changes no cell value.
    pub fn get_mut_default(&mut self, pos: GlobalPos) -> (r: Option<T>)
        requires
            old(self).wf(),
            old(self).in_range(pos),
        ensures
            final(self).wf(),
            final(self).extent == old(self).extent,
            r == old(self).spec_get(pos),
            final(self).has_chunk(spec_decompose(old(self).extent as int, pos).0),
            forall|c: ChunkPos|
                #[trigger] final(self).has_chunk(c) <==> (old(self).has_chunk(c) || c
                    == spec_decompose(old(self).extent as int, pos).0),
            forall|c: ChunkPos|
                c != spec_decompose(old(self).extent as int, pos).0
                    ==> #[trigger] final(self).chunk_at(c) == old(self).chunk_at(c),
            old(self).has_chunk(spec_decompose(old(self).extent as int, pos).0) ==> *final(self)
                == *old(self),
            forall|q: GlobalPos|
                old(self).in_range(q) ==> final(self).spec_get(q) == old(self).spec_get(q),
    {
        let (c, l) = decompose(self.extent, pos);
        let key = chunk_key(c);
        let present = self.chunks.contains_key(&key);
        if !present {
            let chunk = ChunkSparse::new(self.extent);
            self.put_chunk(c, chunk);
        }
        let r = match self.chunks.get(&key) {
            Some(chunk) => *chunk.get(l),
            None => vstd::pervasive::unreached(),
        };
        proof {
            let e = old(self).extent as int;
            assert forall|q: GlobalPos| old(self).in_range(q) implies self.spec_get(q) == old(
                self,
            ).spec_get(q) by {
                let dq = spec_decompose(e, q);
                if dq.0 == c {
                    if !old(self).has_chunk(c) {
                        lemma_compose_decompose(e, q);
                        crate::chunk::lemma_flat_index(e, dq.1);
                        assert(self.chunk_at(c).cell(dq.1) is None);
                    }
                } else {
                    assert(self.chunk_at(dq.0) == old(self).chunk_at(dq.0));
                }
            }
        }
        r
    }

    /// Sets the value of a cell, materializing its owning chunk if necessary,
    /// and returns the value the cell held before, if any.
    pub fn insert(&mut self, pos: GlobalPos, value: T) -> (r: Option<T>)
        requires
            old(self).wf(),
            old(self).in_range(pos),
        ensures
            final(self).wf(),
            final(self).extent == old(self).extent,
            r == old(self).spec_get(pos),
            final(self).spec_get(pos) == Some(value),
            forall|c: ChunkPos|
                #[trigger] final(self).has_chunk(c) <==> (old(self).has_chunk(c) || c
                    == spec_decompose(old(self).extent as int, pos).0),
            forall|q: GlobalPos|
                old(self).in_range(q) && q != pos ==> final(self).spec_get(q) == old(
                    self,
                ).spec_get(q),
    {
        let ghost pre = *old(self);
        let r = self.get_mut_default(pos);
        let (c, l) = decompose(self.extent, pos);
        let key = chunk_key(c);
        let chunk = match self.chunks.get(&key) {
            Some(chunk) => chunk,
            None => vstd::pervasive::unreached(),
        };
        let mut chunk2 = ChunkSparse { inner: Chunk { extent: chunk.inner.extent, cells: chunk.to_vec() } };
        chunk2.set(l, Some(value));
        let ghost mid = *self;
        self.chunks.insert(key, chunk2);
        proof {
            assert(self.keys@ == mid.keys@);
            assert forall|k: u64| #[trigger] self.chunks@.contains_key(k) implies mid.chunks@.contains_key(k) by {}
            assert(self.wf());
            assert forall|cc: ChunkPos| #[trigger] self.has_chunk(cc) <==> (pre.has_chunk(cc) || cc
                == c) by {
                assert(mid.has_chunk(cc) <==> (pre.has_chunk(cc) || cc == c));
                if spec_chunk_key(cc) == key {
                    lemma_chunk_key_bijective(cc, 0);
                    lemma_chunk_key_bijective(c, 0);
                    assert(cc == c);
                } else {
                    assert(self.has_chunk(cc) == mid.has_chunk(cc));
                }
            }
            assert forall|cc: ChunkPos| cc != c implies #[trigger] self.chunk_at(cc)
                == mid.chunk_at(cc) by {
                lemma_chunk_key_bijective(cc, 0);
                lemma_chunk_key_bijective(c, 0);
            }
            assert forall|q: GlobalPos| pre.in_range(q) && q != pos implies self.spec_get(q)
                == pre.spec_get(q) by {
                let e = pre.extent as int;
                let dq = spec_decompose(e, q);
                if dq.0 == c {
                    lemma_compose_decompose(e, q);
                    lemma_compose_decompose(e, pos);
                    assert(dq.1 != l);
                } else {
                    assert(self.chunk_at(dq.0) == mid.chunk_at(dq.0));
                }
            }
        }
        r
    }

    /// Reads the value of a cell if occupied; otherwise stores `value` there
    /// (materializing the chunk if necessary) and returns it.
    pub fn get_or_insert_default(&mut self, pos: GlobalPos, value: T) -> (r: T)
        requires
            old(self).wf(),
            old(self).in_range(pos),
        ensures
            final(self).wf(),
            final(self).extent == old(self).extent,
            r == (match old(self).spec_get(pos) {
                Some(v) => v,
                None => value,
            }),
            final(self).spec_get(pos) == Some(r),
            forall|c: ChunkPos|
                #[trigger] final(self).has_chunk(c) <==> (old(self).has_chunk(c) || c
                    == spec_decompose(old(self).extent as int, pos).0),
            forall|q: GlobalPos|
                old(self).in_range(q) && q != pos ==> final(self).spec_get(q) == old(
                    self,
                ).spec_get(q),
    {
        match self.get(pos) {
            Some(v) => {
                proof {
                    assert(old(self).has_chunk(spec_decompose(old(self).extent as int, pos).0));
                }
                v
            },
            None => {
                self.insert(pos, value);
                value
            },
        }
    }

    /// Returns a reference to the chunk at a chunk coordinate, materializing
    /// it (all slots vacant) if absent.
    pub fn get_chunk_default(&mut self, pos: ChunkPos) -> (r: &ChunkSparse<T>)
        requires
            old(self).wf(),
        ensures
            final(self).wf(),
            final(self).extent == old(self).extent,
            final(self).has_chunk(pos),
            *r == final(self).chunk_at(pos),
            forall|c: ChunkPos|
                #[trigger] final(self).has_chunk(c) <==> (old(self).has_chunk(c) || c == pos),
            forall|c: ChunkPos|
                c != pos ==> #[trigger] final(self).chunk_at(c) == old(self).chunk_at(c),
            old(self).has_chunk(pos) ==> *final(self) == *old(self),
            !old(self).has_chunk(pos) ==> final(self).chunk_at(pos).all_vacant(),
    {
        if !self.contains_chunk(pos) {
            let chunk = ChunkSparse::new(self.extent);
            self.put_chunk(pos, chunk);
        }
        let key = chunk_key(pos);
        match self.chunks.get(&key) {
            Some(chunk) => chunk,
            None => vstd::pervasive::unreached(),
        }
    }

    /// Returns every (global position, value) pair of every occupied cell:
    /// chunks in insertion order, occupied slots in row-major order inside
    /// each chunk. The pairs cover exactly the occupied cells, each position
    /// once.
    pub fn cells(&self) -> (r: Vec<(GlobalPos, T)>)
        requires
            self.wf(),
        ensures
            forall|k: int|
                0 <= k < r@.len() ==> self.in_range((#[trigger] r@[k]).0) && self.spec_get(
                    r@[k].0,
                ) == Some(r@[k].1),
            forall|k1: int, k2: int| 0 <= k1 < k2 < r@.len() ==> r@[k1].0 != r@[k2].0,
            forall|p: GlobalPos|
                (self.in_range(p) && #[trigger] self.spec_get(p) is Some) ==> exists|k: int|
                    0 <= k < r@.len() && (#[trigger] r@[k]).0 == p,
    {
        let e: usize = self.extent;
        let ghost es = e as int;
        let n: usize = self.keys.len();
        let mut out: Vec<(GlobalPos, T)> = Vec::new();
        let ghost mut idx: Map<GlobalPos, int> = Map::empty();
        let mut ci: usize = 0;
        while ci < n
            invariant
                self.wf(),
                e == self.extent,
                es == e as int,
                n == self.keys@.len(),
                ci <= n,
                forall|k: int|
                    0 <= k < out@.len() ==> idx.dom().contains((#[trigger] out@[k]).0)
                        && idx[out@[k].0] == k,
                forall|q: GlobalPos|
                    #[trigger] idx.dom().contains(q) ==> 0 <= idx[q] < out@.len()
                        && out@[idx[q]].0 == q,
                forall|k: int|
                    0 <= k < out@.len() ==> self.in_range((#[trigger] out@[k]).0)
                        && self.spec_get(out@[k].0) == Some(out@[k].1),
                forall|k: int|
                    0 <= k < out@.len() ==> self.keys@.take(ci as int).contains(
                        spec_chunk_key(spec_decompose(es, (#[trigger] out@[k]).0).0),
                    ),
                forall|j: int, l: LocalPos|
                    #![trigger spec_compose(es, spec_key_chunk(self.keys@[j]), l)]
                    (0 <= j < ci && local_in_extent(es, l) && self.chunks@[self.keys@[j]].cell(
                        l,
                    ) is Some) ==> idx.dom().contains(
                        spec_compose(es, spec_key_chunk(self.keys@[j]), l),
                    ),
            decreases n - ci,
        {
            let ghost pre_out = out@;
            let ghost pre_idx = idx;
            let key = self.keys[ci];
            let c = key_chunk(key);
            proof {
                assert(self.keys@.contains(key));
            }
            let chunk = match self.chunks.get(&key) {
                Some(chunk) => chunk,
                None => vstd::pervasive::unreached(),
            };
            let pairs = chunk.cells();
            proof {
                crate::chunk::lemma_occupied_cells_props(es, chunk.inner.cells@, 0);
            }
            let base: usize = out.len();
            let m: usize = pairs.len();
            let mut t: usize = 0;
            while t < m
                invariant
                    self.wf(),
                    e == self.extent,
                    es == e as int,
                    ci < n,
                    n == self.keys@.len(),
                    m == pairs@.len(),
                    t <= m,
                    base == pre_out.len(),
                    out@.len() == base + t,
                    out@.take(base as int) == pre_out,
                    key == self.keys@[ci as int],
                    spec_chunk_key(c) == key,
                    c == spec_key_chunk(key),
                    self.has_chunk(c),
                    *chunk == self.chunk_at(c),
                    chunk.wf(),
                    chunk.inner.extent == e,
                    forall|j: int|
                        0 <= j < m ==> local_in_extent(es, (#[trigger] pairs@[j]).0)
                            && 0 <= flat_index(es, pairs@[j].0) < chunk.inner.cells@.len()
                            && chunk.inner.cells@[flat_index(es, pairs@[j].0)] == Some(
                            pairs@[j].1,
                        ),
                    forall|j1: int, j2: int|
                        0 <= j1 < j2 < m ==> flat_index(es, (#[trigger] pairs@[j1]).0)
                            < flat_index(es, (#[trigger] pairs@[j2]).0),
                    forall|k: int|
                        0 <= k < out@.len() ==> idx.dom().contains((#[trigger] out@[k]).0)
                            && idx[out@[k].0] == k,
                    forall|q: GlobalPos|
                        #[trigger] idx.dom().contains(q) ==> 0 <= idx[q] < out@.len()
                            && out@[idx[q]].0 == q,
                    forall|k: int|
                        0 <= k < out@.len() ==> self.in_range((#[trigger] out@[k]).0)
                            && self.spec_get(out@[k].0) == Some(out@[k].1),
                    forall|k: int|
                        0 <= k < base ==> self.keys@.take(ci as int).contains(
                            spec_chunk_key(spec_decompose(es, (#[trigger] out@[k]).0).0),
                        ),
                    forall|k: int|
                        base <= k < out@.len() ==> (#[trigger] out@[k]).0 == spec_compose(
                            es,
                            c,
                            pairs@[k - base].0,
                        ),
                    forall|j: int|
                        0 <= j < t ==> idx.dom().contains(
                            spec_compose(es, c, (#[trigger] pairs@[j]).0),
                        ),
                    forall|q: GlobalPos|
                        #[trigger] pre_idx.dom().contains(q) ==> idx.dom().contains(q),
                decreases m - t,
            {
                let pr = pairs[t];
                let p = compose(e, c, pr.0);
                proof {
                    lemma_decompose_compose(es, c, pairs@[t as int].0);
                    assert(!idx.dom().contains(p)) by {
                        if idx.dom().contains(p) {
                            let k = idx[p];
                            assert(out@[k].0 == p);
                            if k < base {
                                let ck = spec_chunk_key(spec_decompose(es, p).0);
                                assert(ck == key);
                                assert(self.keys@.take(ci as int).contains(ck));
                                let w = choose|w: int|
                                    0 <= w < ci && self.keys@.take(ci as int)[w] == ck;
                                assert(self.keys@[w] == key);
                                assert(self.keys@[ci as int] == key);
                            } else {
                                assert(out@[k].0 == spec_compose(es, c, pairs@[k - base].0));
                                lemma_decompose_compose(es, c, pairs@[k - base].0);
                                assert(pairs@[k - base].0 == pairs@[t as int].0);
                                assert(flat_index(es, pairs@[k - base].0) < flat_index(
                                    es,
                                    pairs@[t as int].0,
                                ));
                            }
                        }
                    }
                }
                let ghost tt = out@.len() as int;
                out.push((p, pr.1));
                proof {
                    idx = idx.insert(p, tt);
                    assert(out@.take(base as int) =~= pre_out);
                    assert(self.spec_get(p) == Some(pr.1)) by {
                        assert(spec_decompose(es, p) == (c, pairs@[t as int].0));
                        crate::chunk::lemma_flat_index(es, pairs@[t as int].0);
                    }
                }
                t = t + 1;
            }
            proof {
                // Chunk membership of every emitted position, in the longer
                // key prefix.
                assert forall|k: int| 0 <= k < out@.len() implies self.keys@.take(
                    ci + 1 as int,
                ).contains(spec_chunk_key(spec_decompose(es, (#[trigger] out@[k]).0).0)) by {
                    if k < base {
                        let ck = spec_chunk_key(spec_decompose(es, out@[k].0).0);
                        assert(self.keys@.take(ci as int).contains(ck));
                        let w = choose|w: int| 0 <= w < ci && self.keys@.take(ci as int)[w] == ck;
                        assert(self.keys@.take(ci + 1 as int)[w] == ck);
                    } else {
                        lemma_decompose_compose(es, c, pairs@[k - base].0);
                        assert(self.keys@.take(ci + 1 as int)[ci as int] == key);
                    }
                }
                // Completeness over the processed chunks, now including this
                // one: every occupied slot was recorded in the ghost index.
                assert forall|j: int, l: LocalPos|
                    #![trigger spec_compose(es, spec_key_chunk(self.keys@[j]), l)]
                    (0 <= j < ci + 1 && local_in_extent(es, l) && self.chunks@[self.keys@[j]].cell(
                        l,
                    ) is Some) implies idx.dom().contains(
                    spec_compose(es, spec_key_chunk(self.keys@[j]), l),
                ) by {
                    if j == ci as int {
                        crate::chunk::lemma_flat_index(es, l);
                        let fi = flat_index(es, l);
                        assert(chunk.inner.cells@[fi] is Some);
                        let w = choose|w: int|
                            0 <= w < pairs@.len() && (#[trigger] pairs@[w]).0
                                == crate::chunk::local_of_index(es, fi);
                        assert(pairs@[w].0 == l);
                        assert(idx.dom().contains(spec_compose(es, c, pairs@[w].0)));
                    }
                }
            }
            ci = ci + 1;
        }
        proof {
            assert forall|k1: int, k2: int| 0 <= k1 < k2 < out@.len() implies out@[k1].0
                != out@[k2].0 by {
                assert(idx[out@[k1].0] == k1);
                assert(idx[out@[k2].0] == k2);
            }
            assert forall|p: GlobalPos|
                (self.in_range(p) && #[trigger] self.spec_get(p) is Some) implies exists|k: int|
                0 <= k < out@.len() && (#[trigger] out@[k]).0 == p by {
                let d = spec_decompose(es, p);
                lemma_compose_decompose(es, p);
                assert(self.keys@.contains(spec_chunk_key(d.0)));
                let j = choose|j: int|
                    0 <= j < self.keys@.len() && self.keys@[j] == spec_chunk_key(d.0);
                lemma_chunk_key_bijective(d.0, 0);
                assert(spec_key_chunk(self.keys@[j]) == d.0);
                assert(self.chunks@[self.keys@[j]].cell(d.1) is Some);
                assert(idx.dom().contains(spec_compose(es, spec_key_chunk(self.keys@[j]), d.1)));
                assert(spec_compose(es, spec_key_chunk(self.keys@[j]), d.1) == p);
                let k = idx[p];
                assert(out@[k].0 == p);
            }
        }
        out
    }

    /// Consumes the grid, returning every (global position, value) pair of
    /// every occupied cell, as [`ExGridSparse::cells`] does.
    pub fn into_cells(self) -> (r: Vec<(GlobalPos, T)>)
        requires
            self.wf(),
        ensures
            forall|k: int|
                0 <= k < r@.len() ==> self.in_range((#[trigger] r@[k]).0) && self.spec_get(
                    r@[k].0,
                ) == Some(r@[k].1),
            forall|k1: int, k2: int| 0 <= k1 < k2 < r@.len() ==> r@[k1].0 != r@[k2].0,
            forall|p: GlobalPos|
                (self.in_range(p) && #[trigger] self.spec_get(p) is Some) ==> exists|k: int|
                    0 <= k < r@.len() && (#[trigger] r@[k]).0 == p,
    {
        self.cells()
    }

    /// Returns the value of every occupied cell: the values of
    /// [`ExGridSparse::cells`], without their positions.
    pub fn iter(&self) -> (r: Vec<T>)
        requires
            self.wf(),
        ensures
            exists|ps: Seq<GlobalPos>| sparse_values_cover(*self, r@, ps),
    {
        let cs = self.cells();
        let n: usize = cs.len();
        let mut out: Vec<T> = Vec::new();
        let mut i: usize = 0;
        while i < n
            invariant
                n == cs@.len(),
                i <= n,
                out@.len() == i,
                forall|k: int| 0 <= k < i ==> #[trigger] out@[k] == cs@[k].1,
            decreases n - i,
        {
            out.push(cs[i].1);
            i = i + 1;
        }
        proof {
            let ps = Seq::new(cs@.len(), |k: int| cs@[k].0);
            assert forall|p: GlobalPos|
                (self.in_range(p) && #[trigger] self.spec_get(p) is Some) implies ps.contains(
                p,
            ) by {
                let k = choose|k: int| 0 <= k < cs@.len() && (#[trigger] cs@[k]).0 == p;
                assert(ps[k] == p);
            }
            assert(sparse_values_cover(*self, out@, ps));
        }
        out
    }
}


/// Read-through law for the dense grid: a position in an untouched region —
/// one whose owning chunk is absent — holds no stored value, and reads
/// through as the fill value. Reading never materializes the chunk: `get` and
/// `get_or` borrow the grid immutably, so the chunk count cannot change.
pub proof fn lemma_read_through<T>(g: ExGrid<T>, p: GlobalPos, d: T)
    requires
        g.wf(),
        g.in_range(p),
        !g.has_chunk(spec_decompose(g.extent as int, p).0),
    ensures
        g.spec_get(p) is None,
        g.cell_or(p, d) == d,
{
}

/// Read-through law for the sparse grid: a position in an untouched region
/// reads as "no value", and reading never materializes the chunk.
pub proof fn lemma_read_through_sparse<T>(g: ExGridSparse<T>, p: GlobalPos)
    requires
        g.wf(),
        g.in_range(p),
        !g.has_chunk(spec_decompose(g.extent as int, p).0),
    ensures
        g.spec_get(p) is None,
{
}


/// Write/read consistency law: given any sequence of states of a sparse grid
/// in which each state arises from its predecessor by one write — the written
/// position then reads as the written value and every other position reads as
/// before, which is exactly what [`ExGridSparse::insert`] ensures — and the
/// written positions are pairwise distinct, the final state reads back, at
/// every written position, exactly the value written there.
pub proof fn lemma_write_read_sequence<T>(
    states: Seq<ExGridSparse<T>>,
    writes: Seq<(GlobalPos, T)>,
)
    requires
        states.len() == writes.len() + 1,
        forall|i: int|
            0 <= i <= writes.len() ==> (#[trigger] states[i]).wf() && states[i].extent
                == states[0].extent,
        forall|i: int| 0 <= i < writes.len() ==> states[0].in_range((#[trigger] writes[i]).0),
        forall|i: int|
            0 <= i < writes.len() ==> #[trigger] states[i + 1].spec_get(writes[i].0) == Some(
                writes[i].1,
            ),
        forall|i: int, q: GlobalPos|
            (0 <= i < writes.len() && states[0].in_range(q) && q != writes[i].0)
                ==> #[trigger] states[i + 1].spec_get(q) == states[i].spec_get(q),
        forall|i: int, j: int| 0 <= i < j < writes.len() ==> writes[i].0 != writes[j].0,
    ensures
        forall|i: int|
            0 <= i < writes.len() ==> #[trigger] states[writes.len() as int].spec_get(
                writes[i].0,
            ) == Some(writes[i].1),
    decreases writes.len(),
{
    if writes.len() == 0 {
    } else {
        let n = writes.len() as int;
        let pre_states = states.take(n);
        let pre_writes = writes.take(n - 1);
        assert forall|i: int|
            0 <= i < pre_writes.len() implies #[trigger] pre_states[i + 1].spec_get(
            pre_writes[i].0,
        ) == Some(pre_writes[i].1) by {
            assert(states[i + 1].spec_get(writes[i].0) == Some(writes[i].1));
        }
        assert forall|i: int, q: GlobalPos|
            (0 <= i < pre_writes.len() && pre_states[0].in_range(q) && q != pre_writes[i].0)
                implies #[trigger] pre_states[i + 1].spec_get(q) == pre_states[i].spec_get(q) by {
            assert(states[i + 1].spec_get(q) == states[i].spec_get(q));
        }
        lemma_write_read_sequence(pre_states, pre_writes);
        assert forall|i: int|
            0 <= i < n implies #[trigger] states[n].spec_get(writes[i].0) == Some(
            writes[i].1,
        ) by {
            if i < n - 1 {
                assert(pre_states[n - 1].spec_get(pre_writes[i].0) == Some(pre_writes[i].1));
                assert(states[n - 1].spec_get(writes[i].0) == Some(writes[i].1));
                assert(states[(n - 1) + 1].spec_get(writes[i].0) == states[n - 1].spec_get(
                    writes[i].0,
                ));
            } else {
                assert(states[(n - 1) + 1].spec_get(writes[n - 1].0) == Some(writes[n - 1].1));
            }
        }
    }
}


/// Write/read consistency law for the dense grid: given any sequence of
/// states in which each state arises from its predecessor by one defaulting
/// write — the written position then reads as the written value, every other
/// position keeps its read-through value, and the chunk domain grows by at
/// most the written chunk, which is exactly what [`ExGrid::insert_default`]
/// ensures — and the written positions are pairwise distinct, the final state
/// reads back, at every written position, exactly the value written there.
pub proof fn lemma_write_read_sequence_dense<T>(
    states: Seq<ExGrid<T>>,
    writes: Seq<(GlobalPos, T)>,
    fill: T,
)
    requires
        states.len() == writes.len() + 1,
        forall|i: int|
            0 <= i <= writes.len() ==> (#[trigger] states[i]).wf() && states[i].extent
                == states[0].extent,
        forall|i: int| 0 <= i < writes.len() ==> states[0].in_range((#[trigger] writes[i]).0),
        forall|i: int|
            0 <= i < writes.len() ==> #[trigger] states[i + 1].spec_get(writes[i].0) == Some(
                writes[i].1,
            ),
        forall|i: int, q: GlobalPos|
            (0 <= i < writes.len() && states[0].in_range(q) && q != writes[i].0)
                ==> #[trigger] states[i + 1].cell_or(q, fill) == states[i].cell_or(q, fill),
        forall|i: int, c: ChunkPos|
            (0 <= i < writes.len() && states[i].has_chunk(c)) ==> #[trigger] states[i
                + 1].has_chunk(c),
        forall|i: int, j: int| 0 <= i < j < writes.len() ==> writes[i].0 != writes[j].0,
    ensures
        forall|i: int|
            0 <= i < writes.len() ==> #[trigger] states[writes.len() as int].spec_get(
                writes[i].0,
            ) == Some(writes[i].1),
    decreases writes.len(),
{
    if writes.len() == 0 {
    } else {
        let n = writes.len() as int;
        let pre_states = states.take(n);
        let pre_writes = writes.take(n - 1);
        assert forall|i: int|
            0 <= i < pre_writes.len() implies #[trigger] pre_states[i + 1].spec_get(
            pre_writes[i].0,
        ) == Some(pre_writes[i].1) by {
            assert(states[i + 1].spec_get(writes[i].0) == Some(writes[i].1));
        }
        assert forall|i: int, q: GlobalPos|
            (0 <= i < pre_writes.len() && pre_states[0].in_range(q) && q != pre_writes[i].0)
                implies #[trigger] pre_states[i + 1].cell_or(q, fill) == pre_states[i].cell_or(
            q,
            fill,
        ) by {
            assert(states[i + 1].cell_or(q, fill) == states[i].cell_or(q, fill));
        }
        assert forall|i: int, c: ChunkPos|
            (0 <= i < pre_writes.len() && pre_states[i].has_chunk(c))
                implies #[trigger] pre_states[i + 1].has_chunk(c) by {
            assert(states[i + 1].has_chunk(c));
        }
        lemma_write_read_sequence_dense(pre_states, pre_writes, fill);
        assert forall|i: int|
            0 <= i < n implies #[trigger] states[n].spec_get(writes[i].0) == Some(
            writes[i].1,
        ) by {
            if i < n - 1 {
                assert(pre_states[n - 1].spec_get(pre_writes[i].0) == Some(pre_writes[i].1));
                assert(states[n - 1].spec_get(writes[i].0) == Some(writes[i].1));
                let q = writes[i].0;
                let e = states[0].extent as int;
                let dq = spec_decompose(e, q);
                assert(states[n - 1].has_chunk(dq.0));
                assert(states[(n - 1) + 1].has_chunk(dq.0));
                assert(states[(n - 1) + 1].cell_or(q, fill) == states[n - 1].cell_or(q, fill));
                assert(states[n].spec_get(q) is Some);
            } else {
                assert(states[(n - 1) + 1].spec_get(writes[n - 1].0) == Some(writes[n - 1].1));
            }
        }
    }
}

} // verus!
