//! A cellular-automaton stepping engine over the chunk-backed grids.
//!
//! A caller-defined rule decides, for every live chunk each generation, which
//! neighbor chunks must exist afterwards (the expansion protocol) and the new
//! value of every cell it will touch (the per-cell simulation). Stepping is
//! double-buffered: the next generation is built in a scratch grid from the
//! previous generation only, then swapped into place, so a simulation never
//! observes partially updated state.

use vstd::prelude::*;
use crate::chunk::{
    Chunk, ChunkSparse, lemma_flat_index, lemma_local_of_index, local_in_extent, local_of_index,
};
use crate::grid::{
    compose, lemma_chunk_key_bijective, lemma_compose_decompose, spec_chunk_key, spec_compose,
    spec_decompose, spec_key_chunk, ExGrid, ExGridSparse,
};
use crate::{ChunkPos, GlobalPos, LocalPos, MAX_EXTENT};

verus! {

/// A set of neighbor directions in which new chunks should be materialized
/// before a chunk's neighborhood is simulated.
pub trait Expansion: Sized + Copy {
    /// Whether this expansion set selects `target` as a neighbor of `origin`
    /// to materialize. A neighbor whose coordinate would leave the
    /// representable range is never selected.
    spec fn selects(self, origin: ChunkPos, target: ChunkPos) -> bool;

    /// The chunk coordinates this set selects around `origin`, without
    /// duplicates.
    fn targets(self, origin: ChunkPos) -> (r: Vec<ChunkPos>)
        ensures
            forall|t: ChunkPos| #[trigger] r@.contains(t) <==> self.selects(origin, t),
            forall|i: int, j: int| 0 <= i < j < r@.len() ==> r@[i] != r@[j],
    ;
}

/// The four cardinal neighbor directions.
#[derive(Debug, Clone, Copy, PartialEq, Eq, Structural)]
pub struct Expansion4 {
    /// North: offset `( 0, -1)`.
    pub n: bool,
    /// South: offset `( 0,  1)`.
    pub s: bool,
    /// East: offset `( 1,  0)`.
    pub e: bool,
    /// West: offset `(-1,  0)`.
    pub w: bool,
}

/// The four cardinal and four diagonal neighbor directions.
#[derive(Debug, Clone, Copy, PartialEq, Eq, Structural)]
pub struct Expansion8 {
    /// North: offset `( 0, -1)`.
    pub nn: bool,
    /// North-east: offset `( 1, -1)`.
    pub ne: bool,
    /// East: offset `( 1,  0)`.
    pub ee: bool,
    /// South-east: offset `( 1,  1)`.
    pub se: bool,
    /// South: offset `( 0,  1)`.
    pub ss: bool,
    /// South-west: offset `(-1,  1)`.
    pub sw: bool,
    /// West: offset `(-1,  0)`.
    pub ww: bool,
    /// North-west: offset `(-1, -1)`.
    pub nw: bool,
}

impl Expansion for Expansion4 {
    open spec fn selects(self, origin: ChunkPos, target: ChunkPos) -> bool {
        ||| (self.n && origin.y > i32::MIN && target == ChunkPos {
            x: origin.x,
            y: (origin.y - 1) as i32,
        })
        ||| (self.s && origin.y < i32::MAX && target == ChunkPos {
            x: origin.x,
            y: (origin.y + 1) as i32,
        })
        ||| (self.e && origin.x < i32::MAX && target == ChunkPos {
            x: (origin.x + 1) as i32,
            y: origin.y,
        })
        ||| (self.w && origin.x > i32::MIN && target == ChunkPos {
            x: (origin.x - 1) as i32,
            y: origin.y,
        })
    }

    fn targets(self, origin: ChunkPos) -> (r: Vec<ChunkPos>)
    {
        let mut out: Vec<ChunkPos> = Vec::new();
        let ghost mut done: Set<ChunkPos> = Set::empty();
        if self.n && origin.y > i32::MIN {
            let ghost pre = out@;
            out.push(ChunkPos { x: origin.x, y: origin.y - 1 });
            proof {
                done = record_target(done, pre, out@, ChunkPos { x: origin.x, y: (origin.y - 1) as i32 });
            }
        }
        if self.s && origin.y < i32::MAX {
            let ghost pre = out@;
            out.push(ChunkPos { x: origin.x, y: origin.y + 1 });
            proof {
                done = record_target(done, pre, out@, ChunkPos { x: origin.x, y: (origin.y + 1) as i32 });
            }
        }
        if self.e && origin.x < i32::MAX {
            let ghost pre = out@;
            out.push(ChunkPos { x: origin.x + 1, y: origin.y });
            proof {
                done = record_target(done, pre, out@, ChunkPos { x: (origin.x + 1) as i32, y: origin.y });
            }
        }
        if self.w && origin.x > i32::MIN {
            let ghost pre = out@;
            out.push(ChunkPos { x: origin.x - 1, y: origin.y });
            proof {
                done = record_target(done, pre, out@, ChunkPos { x: (origin.x - 1) as i32, y: origin.y });
            }
        }
        proof {
            assert forall|t: ChunkPos| #[trigger] out@.contains(t) implies self.selects(
                origin,
                t,
            ) by {
                let i = choose|i: int| 0 <= i < out@.len() && out@[i] == t;
            }
            assert forall|t: ChunkPos| self.selects(origin, t) implies #[trigger] out@.contains(
                t,
            ) by {
                assert(done.contains(t));
            }
        }
        out
    }
}

/// Records that a freshly pushed target is present in the output, carrying
/// forward the presence of every previously recorded one. Returns the
/// recorded set extended with the new target.
proof fn record_target(
    done: Set<ChunkPos>,
    pre: Seq<ChunkPos>,
    post: Seq<ChunkPos>,
    t: ChunkPos,
)
    -> (r: Set<ChunkPos>)
    requires
        post == pre.push(t),
        forall|q: ChunkPos| done.contains(q) ==> #[trigger] pre.contains(q),
    ensures
        r == done.insert(t),
        forall|q: ChunkPos| r.contains(q) ==> #[trigger] post.contains(q),
{
    assert forall|q: ChunkPos| done.insert(t).contains(q) implies #[trigger] post.contains(q) by {
        if q == t {
            assert(post[pre.len() as int] == t);
        } else {
            assert(done.contains(q));
            assert(pre.contains(q));
            let i = choose|i: int| 0 <= i < pre.len() && pre[i] == q;
            assert(post[i] == q);
        }
    }
    done.insert(t)
}

impl Expansion for Expansion8 {
    open spec fn selects(self, origin: ChunkPos, target: ChunkPos) -> bool {
        ||| (self.nn && origin.y > i32::MIN && target == ChunkPos {
            x: origin.x,
            y: (origin.y - 1) as i32,
        })
        ||| (self.ne && origin.y > i32::MIN && origin.x < i32::MAX && target == ChunkPos {
            x: (origin.x + 1) as i32,
            y: (origin.y - 1) as i32,
        })
        ||| (self.ee && origin.x < i32::MAX && target == ChunkPos {
            x: (origin.x + 1) as i32,
            y: origin.y,
        })
        ||| (self.se && origin.y < i32::MAX && origin.x < i32::MAX && target == ChunkPos {
            x: (origin.x + 1) as i32,
            y: (origin.y + 1) as i32,
        })
        ||| (self.ss && origin.y < i32::MAX && target == ChunkPos {
            x: origin.x,
            y: (origin.y + 1) as i32,
        })
        ||| (self.sw && origin.y < i32::MAX && origin.x > i32::MIN && target == ChunkPos {
            x: (origin.x - 1) as i32,
            y: (origin.y + 1) as i32,
        })
        ||| (self.ww && origin.x > i32::MIN && target == ChunkPos {
            x: (origin.x - 1) as i32,
            y: origin.y,
        })
        ||| (self.nw && origin.y > i32::MIN && origin.x > i32::MIN && target == ChunkPos {
            x: (origin.x - 1) as i32,
            y: (origin.y - 1) as i32,
        })
    }

    fn targets(self, origin: ChunkPos) -> (r: Vec<ChunkPos>)
    {
        let mut out: Vec<ChunkPos> = Vec::new();
        let ghost mut done: Set<ChunkPos> = Set::empty();
        if self.nn && origin.y > i32::MIN {
            let ghost pre = out@;
            out.push(ChunkPos { x: origin.x, y: origin.y - 1 });
            proof {
                done = record_target(done, pre, out@, ChunkPos { x: origin.x, y: (origin.y - 1) as i32 });
            }
        }
        if self.ne && origin.y > i32::MIN && origin.x < i32::MAX {
            let ghost pre = out@;
            out.push(ChunkPos { x: origin.x + 1, y: origin.y - 1 });
            proof {
                done = record_target(
                    done,
                    pre,
                    out@,
                    ChunkPos { x: (origin.x + 1) as i32, y: (origin.y - 1) as i32 },
                );
            }
        }
        if self.ee && origin.x < i32::MAX {
            let ghost pre = out@;
            out.push(ChunkPos { x: origin.x + 1, y: origin.y });
            proof {
                done = record_target(done, pre, out@, ChunkPos { x: (origin.x + 1) as i32, y: origin.y });
            }
        }
        if self.se && origin.y < i32::MAX && origin.x < i32::MAX {
            let ghost pre = out@;
            out.push(ChunkPos { x: origin.x + 1, y: origin.y + 1 });
            proof {
                done = record_target(
                    done,
                    pre,
                    out@,
                    ChunkPos { x: (origin.x + 1) as i32, y: (origin.y + 1) as i32 },
                );
            }
        }
        if self.ss && origin.y < i32::MAX {
            let ghost pre = out@;
            out.push(ChunkPos { x: origin.x, y: origin.y + 1 });
            proof {
                done = record_target(done, pre, out@, ChunkPos { x: origin.x, y: (origin.y + 1) as i32 });
            }
        }
        if self.sw && origin.y < i32::MAX && origin.x > i32::MIN {
            let ghost pre = out@;
            out.push(ChunkPos { x: origin.x - 1, y: origin.y + 1 });
            proof {
                done = record_target(
                    done,
                    pre,
                    out@,
                    ChunkPos { x: (origin.x - 1) as i32, y: (origin.y + 1) as i32 },
                );
            }
        }
        if self.ww && origin.x > i32::MIN {
            let ghost pre = out@;
            out.push(ChunkPos { x: origin.x - 1, y: origin.y });
            proof {
                done = record_target(done, pre, out@, ChunkPos { x: (origin.x - 1) as i32, y: origin.y });
            }
        }
        if self.nw && origin.y > i32::MIN && origin.x > i32::MIN {
            let ghost pre = out@;
            out.push(ChunkPos { x: origin.x - 1, y: origin.y - 1 });
            proof {
                done = record_target(
                    done,
                    pre,
                    out@,
                    ChunkPos { x: (origin.x - 1) as i32, y: (origin.y - 1) as i32 },
                );
            }
        }
        proof {
            assert forall|t: ChunkPos| #[trigger] out@.contains(t) implies self.selects(
                origin,
                t,
            ) by {
                let i = choose|i: int| 0 <= i < out@.len() && out@[i] == t;
            }
            assert forall|t: ChunkPos| self.selects(origin, t) implies #[trigger] out@.contains(
                t,
            ) by {
                assert(done.contains(t));
            }
            assert forall|i: int, j: int| 0 <= i < j < out@.len() implies out@[i] != out@[j] by {}
        }
        out
    }
}

impl Default for Expansion4 {
    /// The empty expansion set: no direction selected.
    fn default() -> (r: Self)
        ensures
            r == (Expansion4 { n: false, s: false, e: false, w: false }),
    {
        Expansion4 { n: false, s: false, e: false, w: false }
    }
}

impl Default for Expansion8 {
    /// The empty expansion set: no direction selected.
    fn default() -> (r: Self)
        ensures
            r == (Expansion8 {
                nn: false,
                ne: false,
                ee: false,
                se: false,
                ss: false,
                sw: false,
                ww: false,
                nw: false,
            }),
    {
        Expansion8 { nn: false, ne: false, ee: false, se: false, ss: false, sw: false, ww: false, nw: false }
    }
}

/// The canonical upgrade of a cardinal expansion set to the eight-direction
/// protocol: cardinal flags carry over and each diagonal is the conjunction
/// of its two adjacent cardinals.
pub open spec fn spec_expansion8_of(v: Expansion4) -> Expansion8 {
    Expansion8 {
        nn: v.n,
        ss: v.s,
        ee: v.e,
        ww: v.w,
        ne: v.n && v.e,
        se: v.s && v.e,
        sw: v.s && v.w,
        nw: v.n && v.w,
    }
}

impl From<Expansion4> for Expansion8 {
    fn from(v: Expansion4) -> (r: Expansion8) {
        Expansion8 {
            nn: v.n,
            ss: v.s,
            ee: v.e,
            ww: v.w,
            ne: v.n && v.e,
            se: v.s && v.e,
            sw: v.s && v.w,
            nw: v.n && v.w,
        }
    }
}

impl vstd::std_specs::convert::FromSpecImpl<Expansion4> for Expansion8 {
    open spec fn obeys_from_spec() -> bool {
        true
    }

    open spec fn from_spec(v: Expansion4) -> Expansion8 {
        spec_expansion8_of(v)
    }
}

/// Upgrade preservation law: every neighbor a cardinal expansion set selects
/// is still selected after the canonical upgrade to eight directions, so a
/// rule written against the smaller set loses nothing by upgrading.
pub proof fn lemma_expansion_upgrade_preserves(v: Expansion4, origin: ChunkPos, target: ChunkPos)
    requires
        v.selects(origin, target),
    ensures
        spec_expansion8_of(v).selects(origin, target),
{
}


/// The rules and accumulated state of a cellular automaton over a dense grid.
///
/// The two decision procedures are specified as mathematical functions of the
/// rule state (`expansion_spec`, `simulate_spec`), which is what gives the
/// engine's step a full functional contract. Rule state mutates only in the
/// `step_completed` hook, invoked once after each full step.
pub trait Automata<T>: Sized {
    /// The expansion protocol this rule uses (four or eight directions).
    type Expansion: Expansion;

    /// The expansion decision as a function of rule state and chunk contents.
    spec fn expansion_spec(&self, chunk: Chunk<T>) -> Self::Expansion;

    /// The per-cell simulation as a function of rule state, cell position and
    /// the previous generation's grid.
    spec fn simulate_spec(&self, pos: GlobalPos, grid: ExGrid<T>) -> T;

    /// Which cell values this rule counts as empty, for cleanup.
    spec fn is_empty_spec(&self, cell: T) -> bool;

    /// Decides which neighbor chunk slots must exist in the next generation,
    /// so that activity can grow across chunk boundaries.
    fn expansion(&self, chunk: &Chunk<T>) -> (r: Self::Expansion)
        requires
            chunk.wf(),
        ensures
            r == self.expansion_spec(*chunk),
    ;

    /// Produces the next-generation value of one cell from the previous
    /// generation's grid.
    fn simulate(&self, pos: GlobalPos, grid: &ExGrid<T>) -> (r: T)
        requires
            grid.wf(),
            grid.in_range(pos),
        ensures
            r == self.simulate_spec(pos, *grid),
    ;

    /// Tests whether a cell value counts as empty for cleanup purposes.
    fn empty_cell(&self, cell: &T) -> (r: bool)
        ensures
            r == self.is_empty_spec(*cell),
    ;

    /// Bookkeeping hook invoked once after a full step, with the new grid:
    /// the one place where the rule may mutate its state.
    fn step_completed(&mut self, grid: &ExGrid<T>);
}

/// Whether the chunk at `target` must exist after stepping `rule` over grid
/// `g`: it is a live chunk's own coordinate, or some live chunk's expansion
/// set selects it.
pub open spec fn step_covers<T, R: Automata<T>>(rule: R, g: ExGrid<T>, target: ChunkPos) -> bool {
    exists|c: ChunkPos|
        #[trigger] g.has_chunk(c) && (c == target || rule.expansion_spec(g.chunk_at(c)).selects(
            c,
            target,
        ))
}

/// Every cell value of `chunk` counts as empty under `rule`.
pub open spec fn all_cells_empty<T, R: Automata<T>>(rule: R, chunk: Chunk<T>) -> bool {
    forall|i: int| 0 <= i < chunk.cells@.len() ==> rule.is_empty_spec(#[trigger] chunk.cells@[i])
}

/// Materializes the chunk at `cpos` in the scratch grid if absent, filling
/// every cell by simulating it against the previous generation `prev`.
/// Idempotent: a chunk already present is left untouched, so a chunk is built
/// at most once per step however many expansion sets select it.
fn materialize_chunk<T: Copy, R: Automata<T>>(
    prev: &ExGrid<T>,
    scratch: &mut ExGrid<T>,
    rule: &R,
    cpos: ChunkPos,
)
    requires
        prev.wf(),
        old(scratch).wf(),
        old(scratch).extent == prev.extent,
    ensures
        final(scratch).wf(),
        final(scratch).extent == prev.extent,
        forall|c: ChunkPos|
            #[trigger] final(scratch).has_chunk(c) <==> (old(scratch).has_chunk(c) || c == cpos),
        forall|c: ChunkPos|
            c != cpos ==> #[trigger] final(scratch).chunk_at(c) == old(scratch).chunk_at(c),
        old(scratch).has_chunk(cpos) ==> *final(scratch) == *old(scratch),
        !old(scratch).has_chunk(cpos) ==> forall|l: LocalPos|
            local_in_extent(prev.extent as int, l) ==> final(scratch).chunk_at(cpos).cell(l)
                == rule.simulate_spec(spec_compose(prev.extent as int, cpos, l), *prev),
{
    if scratch.contains_chunk(cpos) {
        return ;
    }
    let e: usize = prev.extent;
    let ghost es = e as int;
    proof {
        assert(e * e <= MAX_EXTENT * MAX_EXTENT) by (nonlinear_arith)
            requires
                1 <= e <= MAX_EXTENT,
        ;
    }
    let ee: usize = e * e;
    let mut cells: Vec<T> = Vec::new();
    let mut i: usize = 0;
    while i < ee
        invariant
            prev.wf(),
            e == prev.extent,
            es == e as int,
            ee == e * e,
            i <= ee,
            cells@.len() == i,
            forall|k: int|
                0 <= k < i ==> #[trigger] cells@[k] == rule.simulate_spec(
                    spec_compose(es, cpos, local_of_index(es, k)),
                    *prev,
                ),
        decreases ee - i,
    {
        proof {
            lemma_local_of_index(es, i as int);
        }
        let l = LocalPos { x: i % e, y: i / e };
        let p = compose(e, cpos, l);
        let v = rule.simulate(p, prev);
        cells.push(v);
        i = i + 1;
    }
    let chunk = Chunk { extent: e, cells };
    scratch.put_chunk(cpos, chunk);
    proof {
        assert forall|l: LocalPos| local_in_extent(es, l) implies scratch.chunk_at(cpos).cell(l)
            == rule.simulate_spec(spec_compose(es, cpos, l), *prev) by {
            lemma_flat_index(es, l);
        }
    }
}

impl<T: Copy> ExGrid<T> {
    /// Advances the grid by exactly one generation, building the next
    /// generation in the caller-supplied scratch grid and swapping it into
    /// place. Afterwards the grid holds exactly the chunks that the previous
    /// generation's footprint and expansion sets cover, every cell simulated
    /// against the previous generation only, and the scratch grid holds the
    /// previous generation.
    pub fn step_scratch<R: Automata<T>>(&mut self, scratch: &mut ExGrid<T>, rule: &mut R)
        requires
            old(self).wf(),
            old(scratch).wf(),
            old(scratch).extent == old(self).extent,
        ensures
            final(self).wf(),
            final(self).extent == old(self).extent,
            *final(scratch) == *old(self),
            forall|t: ChunkPos|
                #[trigger] final(self).has_chunk(t) <==> step_covers(*old(rule), *old(self), t),
            forall|t: ChunkPos, l: LocalPos|
                #![trigger final(self).chunk_at(t).cell(l)]
                (final(self).has_chunk(t) && local_in_extent(old(self).extent as int, l))
                    ==> final(self).chunk_at(t).cell(l) == old(rule).simulate_spec(
                    spec_compose(old(self).extent as int, t, l),
                    *old(self),
                ),
    {
        scratch.clear();
        let n: usize = self.keys.len();
        let ghost mut src: Map<ChunkPos, int> = Map::empty();
        let mut ci: usize = 0;
        while ci < n
            invariant
                self.wf(),
                *self == *old(self),
                scratch.wf(),
                scratch.extent == self.extent,
                *rule == *old(rule),
                n == self.keys@.len(),
                ci <= n,
                forall|t: ChunkPos| #[trigger] scratch.has_chunk(t) ==> src.dom().contains(t),
                forall|t: ChunkPos|
                    #[trigger] src.dom().contains(t) ==> {
                        let j = src[t];
                        let cj = spec_key_chunk(self.keys@[j]);
                        &&& 0 <= j < ci
                        &&& scratch.has_chunk(t)
                        &&& (cj == t || rule.expansion_spec(self.chunk_at(cj)).selects(cj, t))
                    },
                forall|j: int|
                    0 <= j < ci ==> scratch.has_chunk(spec_key_chunk(#[trigger] self.keys@[j])),
                forall|j: int, t: ChunkPos|
                    #![trigger rule.expansion_spec(self.chunk_at(spec_key_chunk(self.keys@[j]))).selects(spec_key_chunk(self.keys@[j]), t)]
                    (0 <= j < ci && rule.expansion_spec(
                        self.chunk_at(spec_key_chunk(self.keys@[j])),
                    ).selects(spec_key_chunk(self.keys@[j]), t)) ==> scratch.has_chunk(t),
                forall|t: ChunkPos, l: LocalPos|
                    #![trigger scratch.chunk_at(t).cell(l)]
                    (scratch.has_chunk(t) && local_in_extent(self.extent as int, l))
                        ==> scratch.chunk_at(t).cell(l) == rule.simulate_spec(
                        spec_compose(self.extent as int, t, l),
                        *self,
                    ),
            decreases n - ci,
        {
            let key = self.keys[ci];
            let c = crate::grid::key_chunk(key);
            proof {
                assert(self.keys@.contains(key));
            }
            let chunk = match self.chunks.get(&key) {
                Some(chunk) => chunk,
                None => vstd::pervasive::unreached(),
            };
            let exp = rule.expansion(chunk);
            let ghost pre_sc = *scratch;
            materialize_chunk(self, scratch, rule, c);
            proof {
                if !pre_sc.has_chunk(c) {
                    src = src.insert(c, ci as int);
                }
            }
            let tgts = exp.targets(c);
            let m: usize = tgts.len();
            let mut ti: usize = 0;
            while ti < m
                invariant
                    self.wf(),
                    *self == *old(self),
                    scratch.wf(),
                    scratch.extent == self.extent,
                    *rule == *old(rule),
                    n == self.keys@.len(),
                    ci < n,
                    key == self.keys@[ci as int],
                    c == spec_key_chunk(key),
                    spec_chunk_key(c) == key,
                    self.has_chunk(c),
                    *chunk == self.chunk_at(c),
                    exp == rule.expansion_spec(self.chunk_at(c)),
                    m == tgts@.len(),
                    ti <= m,
                    forall|t: ChunkPos| #[trigger] tgts@.contains(t) <==> exp.selects(c, t),
                    forall|t: ChunkPos| #[trigger] scratch.has_chunk(t) ==> src.dom().contains(t),
                    forall|t: ChunkPos|
                        #[trigger] src.dom().contains(t) ==> {
                            let j = src[t];
                            let cj = spec_key_chunk(self.keys@[j]);
                            &&& 0 <= j <= ci
                            &&& scratch.has_chunk(t)
                            &&& (cj == t || rule.expansion_spec(self.chunk_at(cj)).selects(cj, t))
                        },
                    forall|j: int|
                        0 <= j < ci ==> scratch.has_chunk(spec_key_chunk(#[trigger] self.keys@[j])),
                    scratch.has_chunk(c),
                    forall|j: int, t: ChunkPos|
                        #![trigger rule.expansion_spec(self.chunk_at(spec_key_chunk(self.keys@[j]))).selects(spec_key_chunk(self.keys@[j]), t)]
                        (0 <= j < ci && rule.expansion_spec(
                            self.chunk_at(spec_key_chunk(self.keys@[j])),
                        ).selects(spec_key_chunk(self.keys@[j]), t)) ==> scratch.has_chunk(t),
                    forall|w: int| 0 <= w < ti ==> scratch.has_chunk(#[trigger] tgts@[w]),
                    forall|t: ChunkPos, l: LocalPos|
                        #![trigger scratch.chunk_at(t).cell(l)]
                        (scratch.has_chunk(t) && local_in_extent(self.extent as int, l))
                            ==> scratch.chunk_at(t).cell(l) == rule.simulate_spec(
                            spec_compose(self.extent as int, t, l),
                            *self,
                        ),
                decreases m - ti,
            {
                let t = tgts[ti];
                proof {
                    assert(tgts@[ti as int] == t);
                    assert(tgts@.contains(t));
                }
                let ghost pre2 = *scratch;
                materialize_chunk(self, scratch, rule, t);
                proof {
                    if !pre2.has_chunk(t) {
                        src = src.insert(t, ci as int);
                    }
                }
                ti = ti + 1;
            }
            proof {
                assert forall|j: int, t: ChunkPos|
                    #![trigger rule.expansion_spec(self.chunk_at(spec_key_chunk(self.keys@[j]))).selects(spec_key_chunk(self.keys@[j]), t)]
                    (0 <= j < ci + 1 && rule.expansion_spec(
                        self.chunk_at(spec_key_chunk(self.keys@[j])),
                    ).selects(spec_key_chunk(self.keys@[j]), t)) implies scratch.has_chunk(t) by {
                    if j == ci as int {
                        assert(tgts@.contains(t));
                        let w = choose|w: int| 0 <= w < tgts@.len() && tgts@[w] == t;
                        assert(scratch.has_chunk(tgts@[w]));
                    }
                }
            }
            ci = ci + 1;
        }
        let ghost built = *scratch;
        core::mem::swap(self, scratch);
        rule.step_completed(self);
        proof {
            assert forall|t: ChunkPos| #[trigger] self.has_chunk(t) implies step_covers(
                *old(rule),
                *old(self),
                t,
            ) by {
                assert(src.dom().contains(t));
                let j = src[t];
                let cj = spec_key_chunk(old(self).keys@[j]);
                assert(old(self).keys@.contains(old(self).keys@[j]));
                lemma_chunk_key_bijective(cj, old(self).keys@[j]);
                assert(old(self).has_chunk(cj));
            }
            assert forall|t: ChunkPos| step_covers(*old(rule), *old(self), t) implies #[trigger] self.has_chunk(
                t,
            ) by {
                let c0 = choose|c0: ChunkPos|
                    #[trigger] old(self).has_chunk(c0) && (c0 == t || old(rule).expansion_spec(
                        old(self).chunk_at(c0),
                    ).selects(c0, t));
                assert(old(self).keys@.contains(spec_chunk_key(c0)));
                let j = choose|j: int|
                    0 <= j < old(self).keys@.len() && old(self).keys@[j] == spec_chunk_key(c0);
                lemma_chunk_key_bijective(c0, 0);
                assert(spec_key_chunk(old(self).keys@[j]) == c0);
                if c0 == t {
                    assert(built.has_chunk(spec_key_chunk(old(self).keys@[j])));
                } else {
                    assert(old(rule).expansion_spec(
                        old(self).chunk_at(spec_key_chunk(old(self).keys@[j])),
                    ).selects(spec_key_chunk(old(self).keys@[j]), t));
                }
            }
        }
    }

    /// Advances the grid by exactly one generation using a fresh scratch
    /// grid; see [`ExGrid::step_scratch`].
    pub fn step<R: Automata<T>>(&mut self, rule: &mut R)
        requires
            old(self).wf(),
        ensures
            final(self).wf(),
            final(self).extent == old(self).extent,
            forall|t: ChunkPos|
                #[trigger] final(self).has_chunk(t) <==> step_covers(*old(rule), *old(self), t),
            forall|t: ChunkPos, l: LocalPos|
                #![trigger final(self).chunk_at(t).cell(l)]
                (final(self).has_chunk(t) && local_in_extent(old(self).extent as int, l))
                    ==> final(self).chunk_at(t).cell(l) == old(rule).simulate_spec(
                    spec_compose(old(self).extent as int, t, l),
                    *old(self),
                ),
    {
        let mut scratch = ExGrid::new(self.extent);
        self.step_scratch(&mut scratch, rule);
    }

    /// Removes every chunk all of whose cells the rule counts as empty,
    /// keeping the others untouched. An explicit, opt-in pass: stepping never
    /// invokes it.
    pub fn clean_up<R: Automata<T>>(&mut self, rule: &R)
        requires
            old(self).wf(),
        ensures
            final(self).wf(),
            final(self).extent == old(self).extent,
            forall|c: ChunkPos|
                #[trigger] final(self).has_chunk(c) <==> (old(self).has_chunk(c)
                    && !all_cells_empty(*rule, old(self).chunk_at(c))),
            forall|c: ChunkPos|
                #[trigger] final(self).has_chunk(c) ==> final(self).chunk_at(c) == old(
                    self,
                ).chunk_at(c),
    {
        let n: usize = self.keys.len();
        let mut keep: Vec<u64> = Vec::new();
        let mut i: usize = 0;
        while i < n
            invariant
                old(self).wf(),
                self.extent == old(self).extent,
                self.keys@ == old(self).keys@,
                n == self.keys@.len(),
                i <= n,
                forall|k: u64|
                    #[trigger] self.chunks@.contains_key(k) <==> (old(self).chunks@.contains_key(k)
                        && !(old(self).keys@.take(i as int).contains(k) && all_cells_empty(
                        *rule,
                        old(self).chunks@[k],
                    ))),
                forall|k: u64|
                    #[trigger] self.chunks@.contains_key(k) ==> self.chunks@[k] == old(
                        self,
                    ).chunks@[k],
                keep@.no_duplicates(),
                forall|k: u64|
                    #[trigger] keep@.contains(k) <==> (old(self).keys@.take(i as int).contains(k)
                        && old(self).chunks@.contains_key(k) && !all_cells_empty(
                        *rule,
                        old(self).chunks@[k],
                    )),
            decreases n - i,
        {
            let k = self.keys[i];
            let ghost pre = old(self).keys@.take(i as int);
            proof {
                assert(old(self).keys@.contains(k));
                assert(!pre.contains(k)) by {
                    if pre.contains(k) {
                        let j = choose|j: int| 0 <= j < pre.len() && pre[j] == k;
                        assert(old(self).keys@[j] == k);
                        assert(old(self).keys@[i as int] == k);
                    }
                }
                assert(self.chunks@.contains_key(k));
            }
            let empty = match self.chunks.get(&k) {
                Some(chunk) => chunk_all_empty(rule, chunk),
                None => vstd::pervasive::unreached(),
            };
            if empty {
                self.chunks.remove(&k);
            } else {
                let ghost keep_pre = keep@;
                keep.push(k);
                proof {
                    assert(!keep_pre.contains(k));
                    assert forall|i2: int, j2: int|
                        0 <= i2 < keep@.len() && 0 <= j2 < keep@.len() && i2 != j2 implies keep@[i2]
                        != keep@[j2] by {
                        let q = keep_pre.len() as int;
                        if i2 == q {
                            if keep@[j2] == k {
                                assert(keep_pre[j2] == k);
                                assert(keep_pre.contains(k));
                            }
                        } else if j2 == q {
                            if keep@[i2] == k {
                                assert(keep_pre[i2] == k);
                                assert(keep_pre.contains(k));
                            }
                        }
                    }
                    assert forall|q: u64| #[trigger] keep@.contains(q) implies (keep_pre.contains(
                        q,
                    ) || q == k) by {
                        let j = choose|j: int| 0 <= j < keep@.len() && keep@[j] == q;
                        if j < keep_pre.len() {
                            assert(keep_pre[j] == q);
                        }
                    }
                    assert forall|q: u64| keep_pre.contains(q) implies #[trigger] keep@.contains(
                        q,
                    ) by {
                        let j = choose|j: int| 0 <= j < keep_pre.len() && keep_pre[j] == q;
                        assert(keep@[j] == q);
                    }
                    assert(keep@.contains(k)) by {
                        assert(keep@[keep_pre.len() as int] == k);
                    }
                }
            }
            proof {
                let post = old(self).keys@.take(i + 1 as int);
                assert(post =~= pre.push(k));
                assert forall|q: u64| #[trigger] post.contains(q) implies (pre.contains(q) || q
                    == k) by {
                    let j = choose|j: int| 0 <= j < post.len() && post[j] == q;
                    if j < pre.len() {
                        assert(pre[j] == q);
                    }
                }
                assert forall|q: u64| pre.contains(q) implies #[trigger] post.contains(q) by {
                    let j = choose|j: int| 0 <= j < pre.len() && pre[j] == q;
                    assert(post[j] == q);
                }
                assert(post.contains(k)) by {
                    assert(post[i as int] == k);
                }
            }
            i = i + 1;
        }
        self.keys = keep;
        proof {
            assert(old(self).keys@.take(n as int) =~= old(self).keys@);
        }
    }
}

/// Tests whether every cell of a chunk counts as empty under a rule.
fn chunk_all_empty<T: Copy, R: Automata<T>>(rule: &R, chunk: &Chunk<T>) -> (r: bool)
    requires
        chunk.wf(),
    ensures
        r == all_cells_empty(*rule, *chunk),
{
    let n: usize = chunk.cells.len();
    let mut i: usize = 0;
    while i < n
        invariant
            n == chunk.cells@.len(),
            i <= n,
            forall|k: int| 0 <= k < i ==> rule.is_empty_spec(#[trigger] chunk.cells@[k]),
        decreases n - i,
    {
        if !rule.empty_cell(&chunk.cells[i]) {
            return false;
        }
        i = i + 1;
    }
    true
}


/// The rules and accumulated state of a cellular automaton over a sparse
/// grid; the cell type is optional, with vacancy meaning "no value".
pub trait AutomataSparse<T>: Sized {
    /// The expansion protocol this rule uses (four or eight directions).
    type Expansion: Expansion;

    /// The expansion decision as a function of rule state and chunk contents.
    spec fn expansion_spec(&self, chunk: ChunkSparse<T>) -> Self::Expansion;

    /// The per-cell simulation as a function of rule state, cell position and
    /// the previous generation's grid.
    spec fn simulate_spec(&self, pos: GlobalPos, grid: ExGridSparse<T>) -> Option<T>;

    /// Decides which neighbor chunk slots must exist in the next generation,
    /// so that activity can grow across chunk boundaries.
    fn expansion(&self, chunk: &ChunkSparse<T>) -> (r: Self::Expansion)
        requires
            chunk.wf(),
        ensures
            r == self.expansion_spec(*chunk),
    ;

    /// Produces the next-generation slot of one cell from the previous
    /// generation's grid.
    fn simulate(&self, pos: GlobalPos, grid: &ExGridSparse<T>) -> (r: Option<T>)
        requires
            grid.wf(),
            grid.in_range(pos),
        ensures
            r == self.simulate_spec(pos, *grid),
    ;

    /// Bookkeeping hook invoked once after a full step, with the new grid:
    /// the one place where the rule may mutate its state.
    fn step_completed(&mut self, grid: &ExGridSparse<T>);
}

/// Whether the chunk at `target` must exist after stepping `rule` over the
/// sparse grid `g`: it is a live chunk's own coordinate, or some live chunk's
/// expansion set selects it.
pub open spec fn sparse_step_covers<T, R: AutomataSparse<T>>(
    rule: R,
    g: ExGridSparse<T>,
    target: ChunkPos,
) -> bool {
    exists|c: ChunkPos|
        #[trigger] g.has_chunk(c) && (c == target || rule.expansion_spec(g.chunk_at(c)).selects(
            c,
            target,
        ))
}

/// Materializes the chunk at `cpos` in the sparse scratch grid if absent,
/// filling every slot by simulating it against the previous generation.
/// Idempotent, as in the dense engine.
fn materialize_chunk_sparse<T: Copy, R: AutomataSparse<T>>(
    prev: &ExGridSparse<T>,
    scratch: &mut ExGridSparse<T>,
    rule: &R,
    cpos: ChunkPos,
)
    requires
        prev.wf(),
        old(scratch).wf(),
        old(scratch).extent == prev.extent,
    ensures
        final(scratch).wf(),
        final(scratch).extent == prev.extent,
        forall|c: ChunkPos|
            #[trigger] final(scratch).has_chunk(c) <==> (old(scratch).has_chunk(c) || c == cpos),
        forall|c: ChunkPos|
            c != cpos ==> #[trigger] final(scratch).chunk_at(c) == old(scratch).chunk_at(c),
        old(scratch).has_chunk(cpos) ==> *final(scratch) == *old(scratch),
        !old(scratch).has_chunk(cpos) ==> forall|l: LocalPos|
            local_in_extent(prev.extent as int, l) ==> final(scratch).chunk_at(cpos).cell(l)
                == rule.simulate_spec(spec_compose(prev.extent as int, cpos, l), *prev),
{
    if scratch.contains_chunk(cpos) {
        return ;
    }
    let e: usize = prev.extent;
    let ghost es = e as int;
    proof {
        assert(e * e <= MAX_EXTENT * MAX_EXTENT) by (nonlinear_arith)
            requires
                1 <= e <= MAX_EXTENT,
        ;
    }
    let ee: usize = e * e;
    let mut cells: Vec<Option<T>> = Vec::new();
    let mut i: usize = 0;
    while i < ee
        invariant
            prev.wf(),
            e == prev.extent,
            es == e as int,
            ee == e * e,
            i <= ee,
            cells@.len() == i,
            forall|k: int|
                0 <= k < i ==> #[trigger] cells@[k] == rule.simulate_spec(
                    spec_compose(es, cpos, local_of_index(es, k)),
                    *prev,
                ),
        decreases ee - i,
    {
        proof {
            lemma_local_of_index(es, i as int);
        }
        let l = LocalPos { x: i % e, y: i / e };
        let p = compose(e, cpos, l);
        let v = rule.simulate(p, prev);
        cells.push(v);
        i = i + 1;
    }
    let chunk = ChunkSparse { inner: Chunk { extent: e, cells } };
    scratch.put_chunk(cpos, chunk);
    proof {
        assert forall|l: LocalPos| local_in_extent(es, l) implies scratch.chunk_at(cpos).cell(l)
            == rule.simulate_spec(spec_compose(es, cpos, l), *prev) by {
            lemma_flat_index(es, l);
        }
    }
}

impl<T: Copy> ExGridSparse<T> {
    /// Advances the grid by exactly one generation, building the next
    /// generation in the caller-supplied scratch grid and swapping it into
    /// place. Afterwards the grid holds exactly the chunks that the previous
    /// generation's footprint and expansion sets cover, every slot simulated
    /// against the previous generation only, and the scratch grid holds the
    /// previous generation.
    pub fn step_scratch<R: AutomataSparse<T>>(&mut self, scratch: &mut ExGridSparse<T>, rule: &mut R)
        requires
            old(self).wf(),
            old(scratch).wf(),
            old(scratch).extent == old(self).extent,
        ensures
            final(self).wf(),
            final(self).extent == old(self).extent,
            *final(scratch) == *old(self),
            forall|t: ChunkPos|
                #[trigger] final(self).has_chunk(t) <==> sparse_step_covers(
                    *old(rule),
                    *old(self),
                    t,
                ),
            forall|t: ChunkPos, l: LocalPos|
                #![trigger final(self).chunk_at(t).cell(l)]
                (final(self).has_chunk(t) && local_in_extent(old(self).extent as int, l))
                    ==> final(self).chunk_at(t).cell(l) == old(rule).simulate_spec(
                    spec_compose(old(self).extent as int, t, l),
                    *old(self),
                ),
    {
        scratch.clear();
        let n: usize = self.keys.len();
        let ghost mut src: Map<ChunkPos, int> = Map::empty();
        let mut ci: usize = 0;
        while ci < n
            invariant
                self.wf(),
                *self == *old(self),
                scratch.wf(),
                scratch.extent == self.extent,
                *rule == *old(rule),
                n == self.keys@.len(),
                ci <= n,
                forall|t: ChunkPos| #[trigger] scratch.has_chunk(t) ==> src.dom().contains(t),
                forall|t: ChunkPos|
                    #[trigger] src.dom().contains(t) ==> {
                        let j = src[t];
                        let cj = spec_key_chunk(self.keys@[j]);
                        &&& 0 <= j < ci
                        &&& scratch.has_chunk(t)
                        &&& (cj == t || rule.expansion_spec(self.chunk_at(cj)).selects(cj, t))
                    },
                forall|j: int|
                    0 <= j < ci ==> scratch.has_chunk(spec_key_chunk(#[trigger] self.keys@[j])),
                forall|j: int, t: ChunkPos|
                    #![trigger rule.expansion_spec(self.chunk_at(spec_key_chunk(self.keys@[j]))).selects(spec_key_chunk(self.keys@[j]), t)]
                    (0 <= j < ci && rule.expansion_spec(
                        self.chunk_at(spec_key_chunk(self.keys@[j])),
                    ).selects(spec_key_chunk(self.keys@[j]), t)) ==> scratch.has_chunk(t),
                forall|t: ChunkPos, l: LocalPos|
                    #![trigger scratch.chunk_at(t).cell(l)]
                    (scratch.has_chunk(t) && local_in_extent(self.extent as int, l))
                        ==> scratch.chunk_at(t).cell(l) == rule.simulate_spec(
                        spec_compose(self.extent as int, t, l),
                        *self,
                    ),
            decreases n - ci,
        {
            let key = self.keys[ci];
            let c = crate::grid::key_chunk(key);
            proof {
                assert(self.keys@.contains(key));
            }
            let chunk = match self.chunks.get(&key) {
                Some(chunk) => chunk,
                None => vstd::pervasive::unreached(),
            };
            let exp = rule.expansion(chunk);
            let ghost pre_sc = *scratch;
            materialize_chunk_sparse(self, scratch, rule, c);
            proof {
                if !pre_sc.has_chunk(c) {
                    src = src.insert(c, ci as int);
                }
            }
            let tgts = exp.targets(c);
            let m: usize = tgts.len();
            let mut ti: usize = 0;
            while ti < m
                invariant
                    self.wf(),
                    *self == *old(self),
                    scratch.wf(),
                    scratch.extent == self.extent,
                    *rule == *old(rule),
                    n == self.keys@.len(),
                    ci < n,
                    key == self.keys@[ci as int],
                    c == spec_key_chunk(key),
                    spec_chunk_key(c) == key,
                    self.has_chunk(c),
                    *chunk == self.chunk_at(c),
                    exp == rule.expansion_spec(self.chunk_at(c)),
                    m == tgts@.len(),
                    ti <= m,
                    forall|t: ChunkPos| #[trigger] tgts@.contains(t) <==> exp.selects(c, t),
                    forall|t: ChunkPos| #[trigger] scratch.has_chunk(t) ==> src.dom().contains(t),
                    forall|t: ChunkPos|
                        #[trigger] src.dom().contains(t) ==> {
                            let j = src[t];
                            let cj = spec_key_chunk(self.keys@[j]);
                            &&& 0 <= j <= ci
                            &&& scratch.has_chunk(t)
                            &&& (cj == t || rule.expansion_spec(self.chunk_at(cj)).selects(cj, t))
                        },
                    forall|j: int|
                        0 <= j < ci ==> scratch.has_chunk(spec_key_chunk(#[trigger] self.keys@[j])),
                    scratch.has_chunk(c),
                    forall|j: int, t: ChunkPos|
                        #![trigger rule.expansion_spec(self.chunk_at(spec_key_chunk(self.keys@[j]))).selects(spec_key_chunk(self.keys@[j]), t)]
                        (0 <= j < ci && rule.expansion_spec(
                            self.chunk_at(spec_key_chunk(self.keys@[j])),
                        ).selects(spec_key_chunk(self.keys@[j]), t)) ==> scratch.has_chunk(t),
                    forall|w: int| 0 <= w < ti ==> scratch.has_chunk(#[trigger] tgts@[w]),
                    forall|t: ChunkPos, l: LocalPos|
                        #![trigger scratch.chunk_at(t).cell(l)]
                        (scratch.has_chunk(t) && local_in_extent(self.extent as int, l))
                            ==> scratch.chunk_at(t).cell(l) == rule.simulate_spec(
                            spec_compose(self.extent as int, t, l),
                            *self,
                        ),
                decreases m - ti,
            {
                let t = tgts[ti];
                proof {
                    assert(tgts@[ti as int] == t);
                    assert(tgts@.contains(t));
                }
                let ghost pre2 = *scratch;
                materialize_chunk_sparse(self, scratch, rule, t);
                proof {
                    if !pre2.has_chunk(t) {
                        src = src.insert(t, ci as int);
                    }
                }
                ti = ti + 1;
            }
            proof {
                assert forall|j: int, t: ChunkPos|
                    #![trigger rule.expansion_spec(self.chunk_at(spec_key_chunk(self.keys@[j]))).selects(spec_key_chunk(self.keys@[j]), t)]
                    (0 <= j < ci + 1 && rule.expansion_spec(
                        self.chunk_at(spec_key_chunk(self.keys@[j])),
                    ).selects(spec_key_chunk(self.keys@[j]), t)) implies scratch.has_chunk(t) by {
                    if j == ci as int {
                        assert(tgts@.contains(t));
                        let w = choose|w: int| 0 <= w < tgts@.len() && tgts@[w] == t;
                        assert(scratch.has_chunk(tgts@[w]));
                    }
                }
            }
            ci = ci + 1;
        }
        let ghost built = *scratch;
        core::mem::swap(self, scratch);
        rule.step_completed(self);
        proof {
            assert forall|t: ChunkPos| #[trigger] self.has_chunk(t) implies sparse_step_covers(
                *old(rule),
                *old(self),
                t,
            ) by {
                assert(src.dom().contains(t));
                let j = src[t];
                let cj = spec_key_chunk(old(self).keys@[j]);
                assert(old(self).keys@.contains(old(self).keys@[j]));
                lemma_chunk_key_bijective(cj, old(self).keys@[j]);
                assert(old(self).has_chunk(cj));
            }
            assert forall|t: ChunkPos|
                sparse_step_covers(*old(rule), *old(self), t) implies #[trigger] self.has_chunk(
                t,
            ) by {
                let c0 = choose|c0: ChunkPos|
                    #[trigger] old(self).has_chunk(c0) && (c0 == t || old(rule).expansion_spec(
                        old(self).chunk_at(c0),
                    ).selects(c0, t));
                assert(old(self).keys@.contains(spec_chunk_key(c0)));
                let j = choose|j: int|
                    0 <= j < old(self).keys@.len() && old(self).keys@[j] == spec_chunk_key(c0);
                lemma_chunk_key_bijective(c0, 0);
                assert(spec_key_chunk(old(self).keys@[j]) == c0);
                if c0 == t {
                    assert(built.has_chunk(spec_key_chunk(old(self).keys@[j])));
                } else {
                    assert(old(rule).expansion_spec(
                        old(self).chunk_at(spec_key_chunk(old(self).keys@[j])),
                    ).selects(spec_key_chunk(old(self).keys@[j]), t));
                }
            }
        }
    }

    /// Advances the grid by exactly one generation using a fresh scratch
    /// grid; see [`ExGridSparse::step_scratch`].
    pub fn step<R: AutomataSparse<T>>(&mut self, rule: &mut R)
        requires
            old(self).wf(),
        ensures
            final(self).wf(),
            final(self).extent == old(self).extent,
            forall|t: ChunkPos|
                #[trigger] final(self).has_chunk(t) <==> sparse_step_covers(
                    *old(rule),
                    *old(self),
                    t,
                ),
            forall|t: ChunkPos, l: LocalPos|
                #![trigger final(self).chunk_at(t).cell(l)]
                (final(self).has_chunk(t) && local_in_extent(old(self).extent as int, l))
                    ==> final(self).chunk_at(t).cell(l) == old(rule).simulate_spec(
                    spec_compose(old(self).extent as int, t, l),
                    *old(self),
                ),
    {
        let mut scratch = ExGridSparse::new(self.extent);
        self.step_scratch(&mut scratch, rule);
    }
}

impl<T> ChunkSparse<T> {
    /// The border-derived expansion set: a cardinal direction is marked
    /// exactly when some cell on that edge of the chunk is occupied.
    pub open spec fn spec_edges_expansion(self) -> Expansion4 {
        let e = self.inner.extent as int;
        Expansion4 {
            n: exists|x: int|
                0 <= x < e && #[trigger] self.cell(LocalPos { x: x as usize, y: 0 }) is Some,
            s: exists|x: int|
                0 <= x < e && #[trigger] self.cell(
                    LocalPos { x: x as usize, y: (e - 1) as usize },
                ) is Some,
            e: exists|y: int|
                0 <= y < e && #[trigger] self.cell(
                    LocalPos { x: (e - 1) as usize, y: y as usize },
                ) is Some,
            w: exists|y: int|
                0 <= y < e && #[trigger] self.cell(LocalPos { x: 0, y: y as usize }) is Some,
        }
    }

    /// Checks the edges of the chunk: an edge holding at least one occupied
    /// cell is marked for expansion in that direction. The standard growth
    /// heuristic; rules remain free to use another expansion policy.
    pub fn edges_not_empty_expansion(&self) -> (r: Expansion4)
        requires
            self.wf(),
        ensures
            r == self.spec_edges_expansion(),
    {
        let e: usize = self.inner.extent;
        let last: usize = e - 1;
        Expansion4 {
            n: row_any_occupied(self, 0),
            s: row_any_occupied(self, last),
            e: col_any_occupied(self, last),
            w: col_any_occupied(self, 0),
        }
    }
}

/// Scans one row of a sparse chunk for an occupied slot.
fn row_any_occupied<T>(chunk: &ChunkSparse<T>, y: usize) -> (r: bool)
    requires
        chunk.wf(),
        y < chunk.inner.extent,
    ensures
        r == exists|x: int|
            0 <= x < chunk.inner.extent && #[trigger] chunk.cell(
                LocalPos { x: x as usize, y },
            ) is Some,
{
    let e: usize = chunk.inner.extent;
    let mut x: usize = 0;
    while x < e
        invariant
            chunk.wf(),
            e == chunk.inner.extent,
            y < e,
            x <= e,
            forall|k: int| 0 <= k < x ==> #[trigger] chunk.cell(LocalPos { x: k as usize, y }) is None,
        decreases e - x,
    {
        if chunk.get(LocalPos { x, y }).is_some() {
            proof {
                assert(chunk.cell(LocalPos { x: (x as int) as usize, y }) is Some);
            }
            return true;
        }
        x = x + 1;
    }
    false
}

/// Scans one column of a sparse chunk for an occupied slot.
fn col_any_occupied<T>(chunk: &ChunkSparse<T>, x: usize) -> (r: bool)
    requires
        chunk.wf(),
        x < chunk.inner.extent,
    ensures
        r == exists|y: int|
            0 <= y < chunk.inner.extent && #[trigger] chunk.cell(
                LocalPos { x, y: y as usize },
            ) is Some,
{
    let e: usize = chunk.inner.extent;
    let mut y: usize = 0;
    while y < e
        invariant
            chunk.wf(),
            e == chunk.inner.extent,
            x < e,
            y <= e,
            forall|k: int| 0 <= k < y ==> #[trigger] chunk.cell(LocalPos { x, y: k as usize }) is None,
        decreases e - y,
    {
        if chunk.get(LocalPos { x, y }).is_some() {
            proof {
                assert(chunk.cell(LocalPos { x, y: (y as int) as usize }) is Some);
            }
            return true;
        }
        y = y + 1;
    }
    false
}


/// Double-buffering law: under a copy rule — one whose simulation of every
/// cell is the read-through value of that cell in the previous grid — one
/// step leaves the grid identical cell for cell, for any populated region and
/// any expansion policy, because a step only ever reads the previous
/// generation. The two grids are related as [`ExGrid::step_scratch`] ensures.
pub proof fn lemma_copy_rule_step_identity<T, R: Automata<T>>(
    rule: R,
    pre: ExGrid<T>,
    post: ExGrid<T>,
    d: T,
)
    requires
        pre.wf(),
        post.wf(),
        post.extent == pre.extent,
        forall|t: ChunkPos| #[trigger] post.has_chunk(t) <==> step_covers(rule, pre, t),
        forall|t: ChunkPos, l: LocalPos|
            #![trigger post.chunk_at(t).cell(l)]
            (post.has_chunk(t) && local_in_extent(pre.extent as int, l)) ==> post.chunk_at(t).cell(
                l,
            ) == rule.simulate_spec(spec_compose(pre.extent as int, t, l), pre),
        forall|p: GlobalPos, g: ExGrid<T>| #[trigger] rule.simulate_spec(p, g) == g.cell_or(p, d),
    ensures
        forall|p: GlobalPos|
            pre.in_range(p) ==> #[trigger] post.cell_or(p, d) == pre.cell_or(p, d),
{
    assert forall|p: GlobalPos| pre.in_range(p) implies #[trigger] post.cell_or(p, d)
        == pre.cell_or(p, d) by {
        let e = pre.extent as int;
        let dp = spec_decompose(e, p);
        lemma_compose_decompose(e, p);
        if post.has_chunk(dp.0) {
            assert(post.chunk_at(dp.0).cell(dp.1) == rule.simulate_spec(
                spec_compose(e, dp.0, dp.1),
                pre,
            ));
        } else {
            assert(!pre.has_chunk(dp.0)) by {
                if pre.has_chunk(dp.0) {
                    assert(pre.has_chunk(dp.0) && (dp.0 == dp.0
                        || rule.expansion_spec(pre.chunk_at(dp.0)).selects(dp.0, dp.0)));
                    assert(step_covers(rule, pre, dp.0));
                }
            }
        }
    }
}

/// Expansion growth law: under a rule whose expansion is the border-derived
/// heuristic, a live chunk with an occupied cell on its north edge forces the
/// chunk at its north neighbor to exist after one step. The two grids are
/// related as [`ExGridSparse::step_scratch`] ensures. (A chunk on the very
/// edge of the representable coordinate range has no north neighbor to
/// create, so that row is excluded.)
pub proof fn lemma_expansion_growth<T, R: AutomataSparse<T, Expansion = Expansion4>>(
    rule: R,
    pre: ExGridSparse<T>,
    post: ExGridSparse<T>,
    c: ChunkPos,
    x: int,
)
    requires
        pre.wf(),
        forall|t: ChunkPos| #[trigger] post.has_chunk(t) <==> sparse_step_covers(rule, pre, t),
        forall|ch: ChunkSparse<T>|
            #[trigger] rule.expansion_spec(ch) == ch.spec_edges_expansion(),
        pre.has_chunk(c),
        0 <= x < pre.extent,
        pre.chunk_at(c).cell(LocalPos { x: x as usize, y: 0 }) is Some,
        c.y > i32::MIN,
    ensures
        post.has_chunk(ChunkPos { x: c.x, y: (c.y - 1) as i32 }),
{
    let ch = pre.chunk_at(c);
    assert(ch.inner.extent == pre.extent);
    assert(ch.spec_edges_expansion().n) by {
        assert(ch.cell(LocalPos { x: (x as int) as usize, y: 0 }) is Some);
    }
    let north = ChunkPos { x: c.x, y: (c.y - 1) as i32 };
    assert(rule.expansion_spec(ch).selects(c, north));
    assert(pre.has_chunk(c) && (c == north || rule.expansion_spec(pre.chunk_at(c)).selects(
        c,
        north,
    )));
    assert(sparse_step_covers(rule, pre, north));
}


/// The chunk coordinates to materialize for one live chunk: the chunk's own
/// coordinate first, then every neighbor its expansion set selects, without
/// duplicates.
pub fn targets_with_center<E: Expansion>(exp: E, pos: ChunkPos) -> (r: Vec<ChunkPos>)
    ensures
        r@.len() >= 1,
        r@[0] == pos,
        forall|t: ChunkPos| #[trigger] r@.contains(t) <==> (t == pos || exp.selects(pos, t)),
        forall|i: int, j: int| 0 <= i < j < r@.len() ==> r@[i] != r@[j],
{
    let mut out: Vec<ChunkPos> = Vec::new();
    out.push(pos);
    let tgts = exp.targets(pos);
    let n: usize = tgts.len();
    let mut i: usize = 0;
    while i < n
        invariant
            n == tgts@.len(),
            i <= n,
            out@.len() >= 1,
            out@[0] == pos,
            forall|t: ChunkPos| #[trigger] tgts@.contains(t) <==> exp.selects(pos, t),
            forall|i2: int, j2: int| 0 <= i2 < j2 < tgts@.len() ==> tgts@[i2] != tgts@[j2],
            forall|t: ChunkPos|
                #[trigger] out@.contains(t) <==> (t == pos || exists|w: int|
                    0 <= w < i && tgts@[w] == t && t != pos),
            forall|i2: int, j2: int| 0 <= i2 < j2 < out@.len() ==> out@[i2] != out@[j2],
        decreases n - i,
    {
        let t = tgts[i];
        if t != pos {
            let ghost pre = out@;
            out.push(t);
            proof {
                assert(!pre.contains(t)) by {
                    if pre.contains(t) {
                        let w = choose|w: int| 0 <= w < i && tgts@[w] == t && t != pos;
                        assert(tgts@[w] == tgts@[i as int]);
                    }
                }
                assert forall|q: ChunkPos| #[trigger] out@.contains(q) implies (q == pos || exists|
                    w: int,
                |
                    0 <= w < i + 1 && tgts@[w] == q && q != pos) by {
                    let j = choose|j: int| 0 <= j < out@.len() && out@[j] == q;
                    if j < pre.len() {
                        assert(pre[j] == q);
                        assert(pre.contains(q));
                    } else {
                        assert(q == t);
                        assert(tgts@[i as int] == q && q != pos);
                    }
                }
                assert forall|q: ChunkPos|
                    (q == pos || exists|w: int| 0 <= w < i + 1 && tgts@[w] == q && q != pos) implies #[trigger] out@.contains(
                    q,
                ) by {
                    if q == pos {
                        assert(out@[0] == pos);
                    } else {
                        let w = choose|w: int| 0 <= w < i + 1 && tgts@[w] == q && q != pos;
                        if w < i {
                            assert(pre.contains(q));
                            let j = choose|j: int| 0 <= j < pre.len() && pre[j] == q;
                            assert(out@[j] == q);
                        } else {
                            assert(out@[pre.len() as int] == t);
                        }
                    }
                }
                assert forall|i2: int, j2: int| 0 <= i2 < j2 < out@.len() implies out@[i2]
                    != out@[j2] by {
                    if j2 == pre.len() {
                        if out@[i2] == t {
                            assert(pre[i2] == t);
                            assert(pre.contains(t));
                        }
                    }
                }
            }
        } else {
            proof {
                assert forall|q: ChunkPos| #[trigger] out@.contains(q) implies (q == pos || exists|
                    w: int,
                |
                    0 <= w < i + 1 && tgts@[w] == q && q != pos) by {}
                assert forall|q: ChunkPos|
                    (q == pos || exists|w: int| 0 <= w < i + 1 && tgts@[w] == q && q != pos) implies #[trigger] out@.contains(
                    q,
                ) by {
                    if q != pos {
                        let w = choose|w: int| 0 <= w < i + 1 && tgts@[w] == q && q != pos;
                        assert(w < i);
                    }
                }
            }
        }
        i = i + 1;
    }
    proof {
        assert forall|t: ChunkPos| #[trigger] out@.contains(t) <==> (t == pos || exp.selects(
            pos,
            t,
        )) by {
            if t != pos {
                if out@.contains(t) {
                    let w = choose|w: int| 0 <= w < n && tgts@[w] == t && t != pos;
                    assert(tgts@.contains(t));
                } else {
                    if exp.selects(pos, t) {
                        assert(tgts@.contains(t));
                        let w = choose|w: int| 0 <= w < tgts@.len() && tgts@[w] == t;
                        assert(tgts@[w] == t && t != pos);
                    }
                }
            }
        }
    }
    out
}


/// The copy rule over cells of type `u32`: simulation is the identity read of
/// the previous grid under read-through semantics with fill value `fill`,
/// expansion selects every cardinal neighbor, and a cell counts as empty when
/// it holds the fill value. The executable witness of the double-buffering
/// law ([`lemma_copy_rule_step_identity`]).
pub struct CopyRule {
    /// The value an absent cell reads as, and the value that counts as empty.
    pub fill: u32,
}

impl Automata<u32> for CopyRule {
    type Expansion = Expansion4;

    open spec fn expansion_spec(&self, _chunk: Chunk<u32>) -> Expansion4 {
        Expansion4 { n: true, s: true, e: true, w: true }
    }

    open spec fn simulate_spec(&self, pos: GlobalPos, grid: ExGrid<u32>) -> u32 {
        grid.cell_or(pos, self.fill)
    }

    open spec fn is_empty_spec(&self, cell: u32) -> bool {
        cell == self.fill
    }

    fn expansion(&self, _chunk: &Chunk<u32>) -> (r: Expansion4) {
        Expansion4 { n: true, s: true, e: true, w: true }
    }

    fn simulate(&self, pos: GlobalPos, grid: &ExGrid<u32>) -> (r: u32) {
        grid.get_or(pos, self.fill)
    }

    fn empty_cell(&self, cell: &u32) -> (r: bool) {
        *cell == self.fill
    }

    fn step_completed(&mut self, _grid: &ExGrid<u32>) {
    }
}

/// The standard growth rule over sparse cells of type `u32`: simulation is
/// the identity read of the previous grid, and expansion is the
/// border-derived heuristic — any occupied cell on an edge marks that edge
/// for expansion. Counts completed steps in its rule state. The executable
/// witness of the expansion growth law ([`lemma_expansion_growth`]).
pub struct GrowthRule {
    /// How many full steps have completed with this rule.
    pub steps: usize,
}

impl AutomataSparse<u32> for GrowthRule {
    type Expansion = Expansion4;

    open spec fn expansion_spec(&self, chunk: ChunkSparse<u32>) -> Expansion4 {
        chunk.spec_edges_expansion()
    }

    open spec fn simulate_spec(&self, pos: GlobalPos, grid: ExGridSparse<u32>) -> Option<u32> {
        grid.spec_get(pos)
    }

    fn expansion(&self, chunk: &ChunkSparse<u32>) -> (r: Expansion4) {
        chunk.edges_not_empty_expansion()
    }

    fn simulate(&self, pos: GlobalPos, grid: &ExGridSparse<u32>) -> (r: Option<u32>) {
        grid.get(pos)
    }

    fn step_completed(&mut self, _grid: &ExGridSparse<u32>) {
        self.steps = self.steps.wrapping_add(1);
    }
}

} // verus!
