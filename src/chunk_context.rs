use vstd::prelude::*;
use crate::chunk::{Chunk, CordInChunk, local_ok};
use crate::elements::{Element, Liquid, MovableSolid};
use crate::field::{ChunkCord, global_cord_to_chunk_local, local_cord_to_global, chunk_of, local_of, ip, lemma_split_unique};
use crate::neighbours::{Neighbours, ring_of};
use crate::rect::Rect;

verus! {

/// The largest number of chunks along either side of a world.
pub const MAX_GRID_SIDE: usize = 65536;

/// A write that could not be made during a chunk's update.
#[derive(Clone, Copy)]
pub enum UnsolvedActions {
    /// The target chunk lies in the world but does not exist yet.
    MissingChunkInsertion {
        chunk_cord: ChunkCord,
        insertion_cord: CordInChunk,
        element_to_insert: Element,
    },
}

/// A position lies outside the chunk being updated and its eight neighbours,
/// or outside the world.
#[derive(Clone, Copy, PartialEq, Eq, Structural)]
pub struct OutOfRange;

/// What one chunk's update may touch: the chunk, its eight neighbours, and
/// the records of what changed.
///
/// The context holds the world's grid of chunks (rows of slots, `None` where
/// no chunk exists) while the update runs, and reaches only the slots next to
/// `current_chunk_cord`.
pub struct ChunkContext {
    pub chunks: Vec<Vec<Option<Chunk>>>,
    /// From `(0, 0)` to the number of chunks along each side.
    pub chunk_boundaries: Rect,
    pub current_chunk_cord: ChunkCord,
    pub unsolved_actions: Vec<UnsolvedActions>,
    pub updated_coordinates: Vec<(isize, isize)>,
    pub parity: bool,
}

/// A position far enough from the ends of `isize` for the element rules.
pub open spec fn safe(p: (int, int)) -> bool {
    -16777216 <= p.0 <= 16777216 && -16777216 <= p.1 <= 16777216
}

/// `p` is one of the eight cells around `q`.
pub open spec fn adjacent(p: (int, int), q: (int, int)) -> bool {
    -1 <= p.0 - q.0 <= 1 && -1 <= p.1 - q.1 <= 1 && p != q
}

pub open spec fn refresh_opt(c: Option<Element>) -> Option<Element> {
    match c {
        Some(e) => Some(e.spec_refresh()),
        None => None,
    }
}

/// A cell's content with the rest counter left out: what a neighbour's
/// refresh cannot change.
pub open spec fn identity(c: Option<Element>) -> Option<Element> {
    match c {
        Some(Element::MovableSolid(d, t)) => Some(Element::MovableSolid(MovableSolid { stable_time: 0, ..d }, t)),
        Some(Element::Liquid(d, t)) => Some(Element::Liquid(Liquid { stable_time: 0, ..d }, t)),
        other => other,
    }
}

pub open spec fn count_of(s: Option<Chunk>) -> int {
    match s {
        Some(c) => c.elements_count as int,
        None => 0,
    }
}

/// The elements held by a row of chunk slots.
pub open spec fn row_total(row: Seq<Option<Chunk>>) -> int
    decreases row.len(),
{
    if row.len() == 0 {
        0
    } else {
        row_total(row.drop_last()) + count_of(row.last())
    }
}

/// The elements held by a grid of chunk slots.
pub open spec fn grid_total(rows: Seq<Vec<Option<Chunk>>>) -> int
    decreases rows.len(),
{
    if rows.len() == 0 {
        0
    } else {
        grid_total(rows.drop_last()) + row_total(rows.last()@)
    }
}

pub proof fn lemma_row_total_update(row: Seq<Option<Chunk>>, i: int, v: Option<Chunk>)
    requires
        0 <= i < row.len(),
    ensures
        row_total(row.update(i, v)) == row_total(row) - count_of(row[i]) + count_of(v),
    decreases row.len(),
{
    let r2 = row.update(i, v);
    if i == row.len() - 1 {
        assert(r2.drop_last() =~= row.drop_last());
    } else {
        assert(r2.drop_last() =~= row.drop_last().update(i, v));
        lemma_row_total_update(row.drop_last(), i, v);
    }
}

pub proof fn lemma_grid_total_update(rows: Seq<Vec<Option<Chunk>>>, y: int, new_row: Vec<Option<Chunk>>)
    requires
        0 <= y < rows.len(),
    ensures
        grid_total(rows.update(y, new_row)) == grid_total(rows) - row_total(rows[y]@) + row_total(
            new_row@,
        ),
    decreases rows.len(),
{
    let r2 = rows.update(y, new_row);
    if y == rows.len() - 1 {
        assert(r2.drop_last() =~= rows.drop_last());
    } else {
        assert(r2.drop_last() =~= rows.drop_last().update(y, new_row));
        lemma_grid_total_update(rows.drop_last(), y, new_row);
    }
}

/// The position of `p` in the order in which `ring_of` lists the cells
/// around `q`.
pub open spec fn ring_index(p: (int, int), q: (int, int)) -> int {
    let k = (p.1 - q.1 + 1) * 3 + (p.0 - q.0 + 1);
    if k < 4 { k } else { k - 1 }
}

impl ChunkContext {
    pub open spec fn width(self) -> int {
        self.chunk_boundaries.bottom_right.0 as int
    }

    pub open spec fn height(self) -> int {
        self.chunk_boundaries.bottom_right.1 as int
    }

    pub open spec fn in_bounds(self, c: (int, int)) -> bool {
        0 <= c.0 < self.width() && 0 <= c.1 < self.height()
    }

    /// `c` is the current chunk or one of its eight neighbours.
    pub open spec fn in_range(self, c: (int, int)) -> bool {
        -1 <= c.0 - self.current_chunk_cord.0 <= 1 && -1 <= c.1 - self.current_chunk_cord.1 <= 1
    }

    pub open spec fn slot(self, c: (int, int)) -> Option<Chunk> {
        self.chunks@[c.1]@[c.0]
    }

    /// The chunk of `p` is in range (a neighbour or the current one).
    pub open spec fn near(self, p: (int, int)) -> bool {
        self.in_range(chunk_of(p))
    }

    /// A read of `p` succeeds.
    pub open spec fn reachable(self, p: (int, int)) -> bool {
        self.in_range(chunk_of(p)) && self.in_bounds(chunk_of(p))
    }

    /// The chunk of `p` exists.
    pub open spec fn loaded(self, p: (int, int)) -> bool {
        self.in_bounds(chunk_of(p)) && self.slot(chunk_of(p)).is_some()
    }

    /// Writes reach `p`.
    pub open spec fn touchable(self, p: (int, int)) -> bool {
        self.near(p) && self.loaded(p)
    }

    pub open spec fn cell(self, p: (int, int)) -> Option<Element> {
        if self.loaded(p) {
            self.slot(chunk_of(p)).unwrap().cell(local_of(p).0, local_of(p).1)
        } else {
            None
        }
    }

    pub open spec fn par(self, p: (int, int)) -> bool {
        self.slot(chunk_of(p)).unwrap().par(local_of(p).0, local_of(p).1)
    }

    /// `p` is in the next sweep area of its chunk.
    pub open spec fn marked(self, p: (int, int)) -> bool {
        self.slot(chunk_of(p)).unwrap().next_has(local_of(p).0, local_of(p).1)
    }

    pub open spec fn spec_get(self, p: (int, int)) -> Result<Option<Element>, OutOfRange> {
        if self.reachable(p) {
            Ok(self.cell(p))
        } else {
            Err(OutOfRange)
        }
    }

    /// The elements in the grid's chunks, plus those waiting for a chunk.
    pub open spec fn population(self) -> int {
        grid_total(self.chunks@) + self.unsolved_actions@.len()
    }

    pub open spec fn grid_ok(self) -> bool {
        &&& self.chunk_boundaries.top_left == (0isize, 0isize)
        &&& 1 <= self.width() <= MAX_GRID_SIDE
        &&& 1 <= self.height() <= MAX_GRID_SIDE
        &&& self.chunks@.len() == self.height()
        &&& forall|y: int| 0 <= y < self.height() ==> #[trigger] self.chunks@[y]@.len() == self.width()
        &&& forall|c: (int, int)|
            self.in_bounds(c) && #[trigger] self.slot(c).is_some() ==> self.slot(c).unwrap().wf()
    }

    pub open spec fn wf(self) -> bool {
        &&& self.grid_ok()
        &&& self.in_bounds(ip(self.current_chunk_cord))
        &&& self.slot(ip(self.current_chunk_cord)).is_some()
    }

    /// The grid keeps its shape and its chunks; chunks out of range stay as
    /// they are; sweep areas stay and next areas only grow.
    pub open spec fn keeps_layout(self, next: ChunkContext) -> bool {
        &&& next.wf()
        &&& next.chunk_boundaries == self.chunk_boundaries
        &&& next.current_chunk_cord == self.current_chunk_cord
        &&& next.parity == self.parity
        &&& forall|c: (int, int)|
            self.in_bounds(c) ==> (#[trigger] next.slot(c)).is_some() == self.slot(c).is_some()
        &&& forall|c: (int, int)|
            self.in_bounds(c) && !self.in_range(c) ==> #[trigger] next.slot(c) == self.slot(c)
        &&& forall|c: (int, int)|
            self.in_bounds(c) && self.slot(c).is_some() ==> (#[trigger] next.slot(
                c,
            )).unwrap().current_update_area == self.slot(c).unwrap().current_update_area
                && self.slot(c).unwrap().next_rect.covered_by(next.slot(c).unwrap().next_rect)
    }

    /// What holds between any state of an update and any later one: the
    /// layout is kept; a cell marked as processed stays so; a cell that gets
    /// filled, or changed in any way, is in its chunk's next area; a cell whose element changed, other
    /// than by a refresh of its rest counter, is marked as processed; the
    /// records only grow.
    pub open spec fn evolves(self, next: ChunkContext) -> bool {
        &&& self.keeps_layout(next)
        &&& forall|p: (int, int)|
            self.loaded(p) && self.par(p) != self.parity ==> #[trigger] next.par(p)
                != self.parity
        &&& forall|p: (int, int)|
            self.loaded(p) && self.cell(p).is_none() && #[trigger] next.cell(p).is_some()
                ==> next.marked(p)
        &&& forall|p: (int, int)| self.loaded(p) && #[trigger] next.cell(p) != self.cell(p) ==> next.marked(p)
        &&& forall|p: (int, int)|
            self.loaded(p) && (#[trigger] next.cell(p)).is_some() && identity(next.cell(p)) != identity(
                self.cell(p),
            ) ==> next.par(p) != self.parity
        &&& self.updated_coordinates@.is_prefix_of(next.updated_coordinates@)
        &&& self.unsolved_actions@.is_prefix_of(next.unsolved_actions@)
    }

    pub fn new(
        chunks: Vec<Vec<Option<Chunk>>>,
        chunk_boundaries: Rect,
        current_chunk_cord: ChunkCord,
        parity: bool,
    ) -> (r: ChunkContext)
        ensures
            r.chunks == chunks,
            r.chunk_boundaries == chunk_boundaries,
            r.current_chunk_cord == current_chunk_cord,
            r.parity == parity,
            r.unsolved_actions@.len() == 0,
            r.updated_coordinates@.len() == 0,
    {
        ChunkContext {
            chunks,
            chunk_boundaries,
            current_chunk_cord,
            unsolved_actions: Vec::new(),
            updated_coordinates: Vec::new(),
            parity,
        }
    }

    fn is_in_neighbour_range(&self, cord: ChunkCord) -> (r: bool)
        requires
            self.wf(),
            isize::MIN / 32 <= cord.0 <= isize::MAX / 32,
            isize::MIN / 32 <= cord.1 <= isize::MAX / 32,
        ensures
            r == self.in_range(ip(cord)),
    {
        let dx = cord.0 - self.current_chunk_cord.0;
        let dy = cord.1 - self.current_chunk_cord.1;
        -1 <= dx && dx <= 1 && -1 <= dy && dy <= 1
    }

    fn is_in_bounds(&self, cord: ChunkCord) -> (r: bool)
        requires
            self.wf(),
        ensures
            r == self.in_bounds(ip(cord)),
    {
        0 <= cord.0 && cord.0 < self.chunk_boundaries.bottom_right.0 && 0 <= cord.1 && cord.1
            < self.chunk_boundaries.bottom_right.1
    }

    pub fn current_chunk_cord(&self) -> (r: ChunkCord)
        ensures
            r == self.current_chunk_cord,
    {
        self.current_chunk_cord
    }

    pub fn parity(&self) -> (r: bool)
        ensures
            r == self.parity,
    {
        self.parity
    }

    /// Whether a chunk exists at an in-bounds coordinate.
    fn has_chunk(&self, cord: ChunkCord) -> (r: bool)
        requires
            self.wf(),
            self.in_bounds(ip(cord)),
        ensures
            r == self.slot(ip(cord)).is_some(),
    {
        self.chunks[cord.1 as usize][cord.0 as usize].is_some()
    }

    /// Reads a cell of the current chunk or of a neighbour; a missing
    /// neighbour reads as empty.
    pub fn get(&self, position: (isize, isize)) -> (r: Result<Option<Element>, OutOfRange>)
        requires
            self.wf(),
        ensures
            r == self.spec_get(ip(position)),
    {
        let (chunk_c, in_chunk_c) = global_cord_to_chunk_local(position);
        if !self.is_in_neighbour_range(chunk_c) || !self.is_in_bounds(chunk_c) {
            return Err(OutOfRange);
        }
        match &self.chunks[chunk_c.1 as usize][chunk_c.0 as usize] {
            Some(chunk) => Ok(chunk.get(in_chunk_c)),
            None => Ok(None),
        }
    }

    /// Takes the chunk out of its slot, leaving the slot empty.
    fn take_slot(&mut self, cord: ChunkCord) -> (r: Option<Chunk>)
        requires
            old(self).grid_ok(),
            old(self).in_bounds(ip(cord)),
        ensures
            r == old(self).slot(ip(cord)),
            final(self).chunks@.len() == old(self).chunks@.len(),
            forall|y: int| 0 <= y < old(self).height() ==> #[trigger] final(self).chunks@[y]@.len() == old(self).chunks@[y]@.len(),
            forall|c: (int, int)|
                old(self).in_bounds(c) ==> #[trigger] final(self).slot(c) == if c == ip(cord) {
                    None
                } else {
                    old(self).slot(c)
                },
            final(self).grid_total_is(old(self).population() - old(self).unsolved_actions@.len() - count_of(old(self).slot(ip(cord)))),
            final(self).chunk_boundaries == old(self).chunk_boundaries,
            final(self).current_chunk_cord == old(self).current_chunk_cord,
            final(self).parity == old(self).parity,
            final(self).unsolved_actions == old(self).unsolved_actions,
            final(self).updated_coordinates == old(self).updated_coordinates,
    {
        let y = cord.1 as usize;
        let x = cord.0 as usize;
        let mut row: Vec<Option<Chunk>> = Vec::new();
        std::mem::swap(&mut self.chunks[y], &mut row);
        let ghost old_row = row@;
        let mut slot: Option<Chunk> = None;
        std::mem::swap(&mut row[x], &mut slot);
        proof {
            lemma_row_total_update(old_row, x as int, None);
            assert(row@ =~= old_row.update(x as int, None));
            lemma_grid_total_update(old(self).chunks@, y as int, row);
        }
        self.chunks.set(y, row);
        proof {
            assert(self.chunks@ =~= old(self).chunks@.update(y as int, row));
            assert forall|c: (int, int)|
                old(self).in_bounds(c) implies #[trigger] self.slot(c) == if c == ip(cord) {
                    None
                } else {
                    old(self).slot(c)
                } by {
                if c.1 != y {
                    assert(self.chunks@[c.1] == old(self).chunks@[c.1]);
                }
            }
        }
        slot
    }

    pub open spec fn grid_total_is(self, n: int) -> bool {
        grid_total(self.chunks@) == n
    }

    /// Puts a chunk into an empty slot.
    fn put_slot(&mut self, cord: ChunkCord, chunk: Option<Chunk>)
        requires
            old(self).chunks@.len() == old(self).height(),
            forall|y: int| 0 <= y < old(self).height() ==> #[trigger] old(self).chunks@[y]@.len() == old(self).width(),
            old(self).in_bounds(ip(cord)),
            old(self).slot(ip(cord)).is_none(),
        ensures
            final(self).chunks@.len() == old(self).chunks@.len(),
            forall|y: int| 0 <= y < old(self).height() ==> #[trigger] final(self).chunks@[y]@.len() == old(self).chunks@[y]@.len(),
            forall|c: (int, int)|
                old(self).in_bounds(c) ==> #[trigger] final(self).slot(c) == if c == ip(cord) {
                    chunk
                } else {
                    old(self).slot(c)
                },
            grid_total(final(self).chunks@) == grid_total(old(self).chunks@) + count_of(chunk),
            final(self).chunk_boundaries == old(self).chunk_boundaries,
            final(self).current_chunk_cord == old(self).current_chunk_cord,
            final(self).parity == old(self).parity,
            final(self).unsolved_actions == old(self).unsolved_actions,
            final(self).updated_coordinates == old(self).updated_coordinates,
    {
        let y = cord.1 as usize;
        let x = cord.0 as usize;
        let mut row: Vec<Option<Chunk>> = Vec::new();
        std::mem::swap(&mut self.chunks[y], &mut row);
        let ghost old_row = row@;
        row.set(x, chunk);
        proof {
            lemma_row_total_update(old_row, x as int, chunk);
            lemma_grid_total_update(old(self).chunks@, y as int, row);
        }
        self.chunks.set(y, row);
        proof {
            assert(self.chunks@ =~= old(self).chunks@.update(y as int, row));
            assert forall|c: (int, int)|
                old(self).in_bounds(c) implies #[trigger] self.slot(c) == if c == ip(cord) {
                    chunk
                } else {
                    old(self).slot(c)
                } by {
                if c.1 != y {
                    assert(self.chunks@[c.1] == old(self).chunks@[c.1]);
                }
            }
        }
    }
}


impl ChunkContext {
    /// What a write to one chunk `cc` leaves as it was.
    pub open spec fn frame(self, next: ChunkContext, cc: (int, int)) -> bool {
        &&& next.grid_ok()
        &&& next.chunk_boundaries == self.chunk_boundaries
        &&& next.current_chunk_cord == self.current_chunk_cord
        &&& next.parity == self.parity
        &&& next.unsolved_actions == self.unsolved_actions
        &&& next.updated_coordinates == self.updated_coordinates
        &&& forall|c: (int, int)| self.in_bounds(c) && c != cc ==> #[trigger] next.slot(c) == self.slot(c)
        &&& next.slot(cc).is_some()
        &&& next.slot(cc).unwrap().current_update_area == self.slot(cc).unwrap().current_update_area
        &&& self.slot(cc).unwrap().next_rect.covered_by(next.slot(cc).unwrap().next_rect)
    }

    /// Writes `element` with `parity` into the existing chunk of `position`.
    fn chunk_set(&mut self, position: (isize, isize), element: Element, parity: bool)
        requires
            old(self).wf(),
            old(self).loaded(ip(position)),
        ensures
            final(self).wf(),
            old(self).frame(*final(self), chunk_of(ip(position))),
            forall|q: (int, int)| #[trigger] final(self).cell(q) == if q == ip(position) {
                Some(element)
            } else {
                old(self).cell(q)
            },
            forall|q: (int, int)| old(self).loaded(q) ==> #[trigger] final(self).par(q) == if q == ip(position) {
                parity
            } else {
                old(self).par(q)
            },
            final(self).marked(ip(position)),
            final(self).population() == old(self).population() + if old(self).cell(ip(position)).is_none() {
                1int
            } else {
                0int
            },
    {
        let (cc, lc) = global_cord_to_chunk_local(position);
        let ghost before = *self;
        let mut slot = self.take_slot(cc);
        let ghost mid = *self;
        match &mut slot {
            Some(chunk) => chunk.set(lc, element, parity),
            None => {},
        }
        self.put_slot(cc, slot);
        proof {
            let c2 = slot.unwrap();
            let c1 = before.slot(ip(cc)).unwrap();
            assert(before.in_bounds(ip(cc)));
            assert forall|c: (int, int)| self.in_bounds(c) && #[trigger] self.slot(c).is_some() implies self.slot(c).unwrap().wf() by {
                if c != ip(cc) {
                    assert(mid.slot(c) == before.slot(c));
                }
            }
            assert forall|q: (int, int)| #[trigger] self.cell(q) == if q == ip(position) {
                Some(element)
            } else {
                before.cell(q)
            } by {
                if chunk_of(q) == ip(cc) {
                    if local_of(q) == local_of(ip(position)) {
                        lemma_split_unique(q, ip(position));
                    }
                } else if before.in_bounds(chunk_of(q)) {
                    assert(self.slot(chunk_of(q)) == before.slot(chunk_of(q)));
                }
            }
            assert forall|q: (int, int)| before.loaded(q) implies #[trigger] self.par(q) == if q == ip(position) {
                parity
            } else {
                before.par(q)
            } by {
                if chunk_of(q) == ip(cc) {
                    if local_of(q) == local_of(ip(position)) {
                        lemma_split_unique(q, ip(position));
                    }
                } else {
                    assert(self.slot(chunk_of(q)) == before.slot(chunk_of(q)));
                }
            }
        }
    }

    /// Empties the cell `position` of its existing chunk.
    fn chunk_clear(&mut self, position: (isize, isize))
        requires
            old(self).wf(),
            old(self).loaded(ip(position)),
        ensures
            final(self).wf(),
            old(self).frame(*final(self), chunk_of(ip(position))),
            forall|q: (int, int)| #[trigger] final(self).cell(q) == if q == ip(position) {
                None
            } else {
                old(self).cell(q)
            },
            forall|q: (int, int)| old(self).loaded(q) ==> #[trigger] final(self).par(q) == old(self).par(q),
            final(self).marked(ip(position)),
            final(self).population() == old(self).population() - if old(self).cell(ip(position)).is_some() {
                1int
            } else {
                0int
            },
    {
        let (cc, lc) = global_cord_to_chunk_local(position);
        let ghost before = *self;
        let mut slot = self.take_slot(cc);
        let ghost mid = *self;
        match &mut slot {
            Some(chunk) => chunk.clear(lc),
            None => {},
        }
        self.put_slot(cc, slot);
        proof {
            assert(before.in_bounds(ip(cc)));
            assert forall|c: (int, int)| self.in_bounds(c) && #[trigger] self.slot(c).is_some() implies self.slot(c).unwrap().wf() by {
                if c != ip(cc) {
                    assert(mid.slot(c) == before.slot(c));
                }
            }
            assert forall|q: (int, int)| #[trigger] self.cell(q) == if q == ip(position) {
                None
            } else {
                before.cell(q)
            } by {
                if chunk_of(q) == ip(cc) {
                    if local_of(q) == local_of(ip(position)) {
                        lemma_split_unique(q, ip(position));
                    }
                } else if before.in_bounds(chunk_of(q)) {
                    assert(self.slot(chunk_of(q)) == before.slot(chunk_of(q)));
                }
            }
            assert forall|q: (int, int)| before.loaded(q) implies #[trigger] self.par(q) == before.par(q) by {
                if chunk_of(q) != ip(cc) {
                    assert(self.slot(chunk_of(q)) == before.slot(chunk_of(q)));
                }
            }
        }
    }

    /// Adds `position` to its existing chunk's next sweep area and, if it
    /// holds an element, refreshes that element in place.
    fn chunk_poke(&mut self, position: (isize, isize))
        requires
            old(self).wf(),
            old(self).loaded(ip(position)),
        ensures
            final(self).wf(),
            old(self).frame(*final(self), chunk_of(ip(position))),
            forall|q: (int, int)| #[trigger] final(self).cell(q) == if q == ip(position) {
                refresh_opt(old(self).cell(q))
            } else {
                old(self).cell(q)
            },
            forall|q: (int, int)| old(self).loaded(q) ==> #[trigger] final(self).par(q) == old(self).par(q),
            final(self).marked(ip(position)),
            final(self).population() == old(self).population(),
    {
        let (cc, lc) = global_cord_to_chunk_local(position);
        let ghost before = *self;
        let mut slot = self.take_slot(cc);
        let ghost mid = *self;
        match &mut slot {
            Some(chunk) => {
                chunk.add_point_in_update_cycle(lc);
                match chunk.get(lc) {
                    Some(element) => {
                        let parity = chunk.parity(lc);
                        chunk.set(lc, element.refresh(), parity);
                    },
                    None => {},
                }
            },
            None => {},
        }
        self.put_slot(cc, slot);
        proof {
            assert(before.in_bounds(ip(cc)));
            assert forall|c: (int, int)| self.in_bounds(c) && #[trigger] self.slot(c).is_some() implies self.slot(c).unwrap().wf() by {
                if c != ip(cc) {
                    assert(mid.slot(c) == before.slot(c));
                }
            }
            assert forall|q: (int, int)| #[trigger] self.cell(q) == if q == ip(position) {
                refresh_opt(before.cell(q))
            } else {
                before.cell(q)
            } by {
                if chunk_of(q) == ip(cc) {
                    if local_of(q) == local_of(ip(position)) {
                        lemma_split_unique(q, ip(position));
                    }
                } else if before.in_bounds(chunk_of(q)) {
                    assert(self.slot(chunk_of(q)) == before.slot(chunk_of(q)));
                }
            }
            assert forall|q: (int, int)| before.loaded(q) implies #[trigger] self.par(q) == before.par(q) by {
                if chunk_of(q) == ip(cc) {
                    if local_of(q) == local_of(ip(position)) {
                        lemma_split_unique(q, ip(position));
                    }
                } else {
                    assert(self.slot(chunk_of(q)) == before.slot(chunk_of(q)));
                }
            }
        }
    }

    /// Adds `position` to its existing chunk's next sweep area.
    fn chunk_mark(&mut self, position: (isize, isize))
        requires
            old(self).wf(),
            old(self).loaded(ip(position)),
        ensures
            final(self).wf(),
            old(self).frame(*final(self), chunk_of(ip(position))),
            forall|q: (int, int)| #[trigger] final(self).cell(q) == old(self).cell(q),
            forall|q: (int, int)| old(self).loaded(q) ==> #[trigger] final(self).par(q) == old(self).par(q),
            final(self).marked(ip(position)),
            final(self).population() == old(self).population(),
    {
        let (cc, lc) = global_cord_to_chunk_local(position);
        let ghost before = *self;
        let mut slot = self.take_slot(cc);
        let ghost mid = *self;
        match &mut slot {
            Some(chunk) => chunk.add_point_in_update_cycle(lc),
            None => {},
        }
        self.put_slot(cc, slot);
        proof {
            assert(before.in_bounds(ip(cc)));
            assert forall|c: (int, int)| self.in_bounds(c) && #[trigger] self.slot(c).is_some() implies self.slot(c).unwrap().wf() by {
                if c != ip(cc) {
                    assert(mid.slot(c) == before.slot(c));
                }
            }
            assert forall|q: (int, int)| #[trigger] self.cell(q) == before.cell(q) by {
                if chunk_of(q) != ip(cc) && before.in_bounds(chunk_of(q)) {
                    assert(self.slot(chunk_of(q)) == before.slot(chunk_of(q)));
                }
            }
            assert forall|q: (int, int)| before.loaded(q) implies #[trigger] self.par(q) == before.par(q) by {
                if chunk_of(q) == ip(cc) {
                    if local_of(q) == local_of(ip(position)) {
                        lemma_split_unique(q, ip(position));
                    }
                } else {
                    assert(self.slot(chunk_of(q)) == before.slot(chunk_of(q)));
                }
            }
        }
    }
}


/// `b` is what `move_from_to(from, to, e)` leaves of `a`, with `from` in an
/// existing chunk in range: `e` is at `to` (refreshed when `from` is next to
/// it), or deferred when `to`'s chunk is missing, and `from` holds what `to`
/// held.
pub open spec fn move_result(a: ChunkContext, b: ChunkContext, from: (int, int), to: (int, int), e: Element) -> bool {
    &&& to != from
    &&& a.reachable(to)
    &&& b.cell(from) == a.cell(to)
    &&& a.touchable(to) ==> b.cell(to) == Some(if adjacent(to, from) { e.spec_refresh() } else { e })
        && b.par(to) == !a.parity && b.unsolved_actions == a.unsolved_actions
    &&& !a.loaded(to) ==> b.unsolved_actions@.len() == a.unsolved_actions@.len() + 1
        && ChunkContext::insertion_for(to, e, b.unsolved_actions@.last())
}

/// `b` is `a` with `e` written back at `pos` at rest: marked as processed,
/// in the next sweep area, every other cell as it was.
pub open spec fn rest_result(a: ChunkContext, b: ChunkContext, pos: (int, int), e: Element) -> bool {
    &&& b.cell(pos) == Some(e)
    &&& b.par(pos) == !a.parity
    &&& b.marked(pos)
    &&& forall|q: (int, int)| q != pos ==> #[trigger] b.cell(q) == a.cell(q)
}

/// Later states of an update keep what earlier ones promised.
pub proof fn lemma_evolves_trans(a: ChunkContext, b: ChunkContext, c: ChunkContext)
    requires
        a.wf(),
        a.evolves(b),
        b.evolves(c),
    ensures
        a.evolves(c),
{
    assert forall|k: (int, int)|
        a.in_bounds(k) && a.slot(k).is_some() implies (#[trigger] c.slot(k)).unwrap().current_update_area
        == a.slot(k).unwrap().current_update_area && a.slot(k).unwrap().next_rect.covered_by(
        c.slot(k).unwrap().next_rect,
    ) by {
        assert(b.slot(k).is_some());
        assert forall|q: (int, int)| #[trigger] a.slot(k).unwrap().next_rect.contains(q) implies c.slot(k).unwrap().next_rect.contains(q) by {
            assert(b.slot(k).unwrap().next_rect.contains(q));
        }
    }
    assert forall|p: (int, int)|
        a.loaded(p) && a.cell(p).is_none() && #[trigger] c.cell(p).is_some() implies c.marked(p) by {
        assert(b.loaded(p));
        if b.cell(p).is_some() {
            assert(b.marked(p));
            assert(b.slot(chunk_of(p)).unwrap().next_rect.contains(local_of(p)));
        }
    }
    assert forall|p: (int, int)| a.loaded(p) && #[trigger] c.cell(p) != a.cell(p) implies c.marked(p) by {
        assert(b.loaded(p));
        if b.cell(p) != a.cell(p) {
            assert(b.marked(p));
            assert(b.slot(chunk_of(p)).unwrap().next_rect.contains(local_of(p)));
        }
    }
    assert forall|p: (int, int)| a.loaded(p) && a.par(p) != a.parity implies #[trigger] c.par(p) != a.parity by {
        assert(b.loaded(p));
        assert(b.par(p) != b.parity);
    }
    assert forall|p: (int, int)|
        a.loaded(p) && (#[trigger] c.cell(p)).is_some() && identity(c.cell(p)) != identity(a.cell(p)) implies c.par(p)
        != a.parity by {
        assert(b.loaded(p));
        if identity(b.cell(p)) != identity(a.cell(p)) && b.cell(p).is_some() {
            assert(b.par(p) != a.parity);
        } else if b.cell(p).is_none() {
            assert(identity(b.cell(p)) != identity(c.cell(p)));
        }
    }
    assert forall|k: (int, int)| a.in_bounds(k) && !a.in_range(k) implies #[trigger] c.slot(k) == a.slot(k) by {
        assert(b.slot(k) == a.slot(k));
    }
    assert forall|k: (int, int)| a.in_bounds(k) implies (#[trigger] c.slot(k)).is_some() == a.slot(k).is_some() by {
        assert(b.slot(k).is_some() == a.slot(k).is_some());
    }
}

pub proof fn lemma_evolves_refl(a: ChunkContext)
    requires
        a.wf(),
    ensures
        a.evolves(a),
{
    assert(a.updated_coordinates@.is_prefix_of(a.updated_coordinates@));
    assert(a.unsolved_actions@.is_prefix_of(a.unsolved_actions@));
}

/// Two contexts over the same grid agree on every cell.
pub proof fn lemma_same_grid(a: ChunkContext, b: ChunkContext)
    requires
        a.wf(),
        b.chunks == a.chunks,
        b.chunk_boundaries == a.chunk_boundaries,
        b.current_chunk_cord == a.current_chunk_cord,
    ensures
        b.wf(),
        forall|c: (int, int)| #[trigger] b.slot(c) == a.slot(c),
        forall|q: (int, int)| #[trigger] b.cell(q) == a.cell(q),
        forall|q: (int, int)| #[trigger] b.par(q) == a.par(q),
        forall|q: (int, int)| #[trigger] b.marked(q) == a.marked(q),
        grid_total(b.chunks@) == grid_total(a.chunks@),
{
    assert forall|c: (int, int)| b.in_bounds(c) && #[trigger] b.slot(c).is_some() implies b.slot(c).unwrap().wf() by {
        assert(a.slot(c) == b.slot(c));
    }
}

pub proof fn lemma_ring(p: (isize, isize))
    requires
        isize::MIN < p.0 < isize::MAX,
        isize::MIN < p.1 < isize::MAX,
    ensures
        forall|i: int|
            0 <= i < 8 ==> adjacent(ip(#[trigger] ring_of(p)[i]), ip(p))
                && ring_index(ip(ring_of(p)[i]), ip(p)) == i,
{
}

impl ChunkContext {
    /// Pokes the eight cells around `position`: each one that a write can
    /// reach joins its chunk's next sweep area, and its element, if any, is
    /// refreshed.
    fn keep_adjesent_cells_alive(&mut self, position: (isize, isize))
        requires
            old(self).wf(),
            safe(ip(position)),
        ensures
            old(self).keeps_layout(*final(self)),
            final(self).unsolved_actions == old(self).unsolved_actions,
            final(self).updated_coordinates == old(self).updated_coordinates,
            forall|q: (int, int)| #[trigger] final(self).cell(q) == if adjacent(q, ip(position)) && old(self).touchable(q) {
                refresh_opt(old(self).cell(q))
            } else {
                old(self).cell(q)
            },
            forall|q: (int, int)| old(self).loaded(q) ==> #[trigger] final(self).par(q) == old(self).par(q),
            forall|q: (int, int)| adjacent(q, ip(position)) && old(self).touchable(q) ==> #[trigger] final(self).marked(q),
            final(self).population() == old(self).population(),
    {
        let around = Neighbours::of(position);
        let ghost p = ip(position);
        proof {
            lemma_ring(position);
        }
        let mut i: usize = 0;
        while i < around.all_neighbours.len()
            invariant
                old(self).wf(),
                old(self).keeps_layout(*self),
                around.all_neighbours@ == ring_of(position),
                p == ip(position),
                safe(p),
                i <= 8,
                self.unsolved_actions == old(self).unsolved_actions,
                self.updated_coordinates == old(self).updated_coordinates,
                forall|q: (int, int)| #[trigger] self.cell(q) == if adjacent(q, p) && ring_index(q, p) < i && old(self).touchable(q) {
                    refresh_opt(old(self).cell(q))
                } else {
                    old(self).cell(q)
                },
                forall|q: (int, int)| old(self).loaded(q) ==> #[trigger] self.par(q) == old(self).par(q),
                forall|q: (int, int)| adjacent(q, p) && ring_index(q, p) < i && old(self).touchable(q) ==> #[trigger] self.marked(q),
                self.population() == old(self).population(),
            decreases 8 - i,
        {
            let neighbour = around.all_neighbours[i];
            let ghost n = ip(neighbour);
            let ghost before = *self;
            let (chunk_c, _in_chunk_c) = global_cord_to_chunk_local(neighbour);
            proof {
                lemma_ring(position);
                assert(ring_of(position)[i as int] == neighbour);
                assert(adjacent(ip(ring_of(position)[i as int]), ip(position)));
                assert(ring_index(ip(ring_of(position)[i as int]), ip(position)) == i);
                assert(adjacent(n, p) && ring_index(n, p) == i);
            }
            if self.is_in_neighbour_range(chunk_c) && self.is_in_bounds(chunk_c) && self.has_chunk(chunk_c) {
                self.chunk_poke(neighbour);
                proof {
                    assert(old(self).touchable(n));
                    assert forall|q: (int, int)| #[trigger] self.cell(q) == if adjacent(q, p) && ring_index(q, p) < i + 1 && old(self).touchable(q) {
                        refresh_opt(old(self).cell(q))
                    } else {
                        old(self).cell(q)
                    } by {
                        assert(before.cell(q) == if adjacent(q, p) && ring_index(q, p) < i && old(self).touchable(q) {
                            refresh_opt(old(self).cell(q))
                        } else {
                            old(self).cell(q)
                        });
                    }
                    assert forall|q: (int, int)| adjacent(q, p) && ring_index(q, p) < i + 1 && old(self).touchable(q) implies #[trigger] self.marked(q) by {
                        if q != n {
                            assert(before.marked(q));
                            if chunk_of(q) == chunk_of(n) {
                                assert(before.slot(chunk_of(q)).unwrap().next_rect.contains(local_of(q)));
                            } else {
                                assert(self.slot(chunk_of(q)) == before.slot(chunk_of(q)));
                            }
                        }
                    }
                    assert forall|q: (int, int)| old(self).loaded(q) implies #[trigger] self.par(q) == old(self).par(q) by {
                        assert(before.par(q) == old(self).par(q));
                    }
                    assert forall|c: (int, int)| old(self).in_bounds(c) && old(self).slot(c).is_some() implies
                        (#[trigger] self.slot(c)).unwrap().current_update_area == old(self).slot(c).unwrap().current_update_area
                        && old(self).slot(c).unwrap().next_rect.covered_by(self.slot(c).unwrap().next_rect) by {
                        assert forall|z: (int, int)| #[trigger] old(self).slot(c).unwrap().next_rect.contains(z) implies self.slot(c).unwrap().next_rect.contains(z) by {
                            assert(before.slot(c).unwrap().next_rect.contains(z));
                        }
                    }
                    assert forall|c: (int, int)| old(self).in_bounds(c) && !old(self).in_range(c) implies #[trigger] self.slot(c) == old(self).slot(c) by {
                        assert(before.slot(c) == old(self).slot(c));
                    }
                    assert forall|c: (int, int)| old(self).in_bounds(c) implies (#[trigger] self.slot(c)).is_some() == old(self).slot(c).is_some() by {
                        assert(before.slot(c).is_some() == old(self).slot(c).is_some());
                    }
                }
            } else {
                proof {
                    assert(!old(self).touchable(n));
                }
            }
            i += 1;
        }
    }
}


impl ChunkContext {
    /// The record of a write deferred to a chunk that does not exist yet.
    pub open spec fn insertion_for(p: (int, int), element: Element, a: UnsolvedActions) -> bool {
        match a {
            UnsolvedActions::MissingChunkInsertion { chunk_cord, insertion_cord, element_to_insert } => {
                ip(chunk_cord) == chunk_of(p) && (insertion_cord.0 as int, insertion_cord.1 as int)
                    == local_of(p) && element_to_insert == element
            },
        }
    }

    /// Writes `element` at `position`, marks it as processed in this tick
    /// (the opposite of the dispatch parity) and records the position; with
    /// `keep_adjesent_alive`, pokes the eight cells around it. Where the
    /// chunk does not exist yet the write is deferred; out of range it is
    /// dropped.
    fn set_internal(&mut self, position: (isize, isize), element: Element, keep_adjesent_alive: bool)
        requires
            old(self).wf(),
            safe(ip(position)),
        ensures
            old(self).evolves(*final(self)),
            !old(self).reachable(ip(position)) ==> *final(self) == *old(self),
            old(self).reachable(ip(position)) && !old(self).loaded(ip(position)) ==> {
                &&& final(self).chunks == old(self).chunks
                &&& final(self).updated_coordinates == old(self).updated_coordinates
                &&& final(self).unsolved_actions@.len() == old(self).unsolved_actions@.len() + 1
                &&& ChunkContext::insertion_for(ip(position), element, final(self).unsolved_actions@.last())
            },
            old(self).touchable(ip(position)) ==> {
                &&& final(self).cell(ip(position)) == Some(element)
                &&& final(self).par(ip(position)) == !old(self).parity
                &&& final(self).marked(ip(position))
                &&& forall|q: (int, int)| q != ip(position) ==> #[trigger] final(self).cell(q) == if keep_adjesent_alive
                    && adjacent(q, ip(position)) && old(self).touchable(q) {
                    refresh_opt(old(self).cell(q))
                } else {
                    old(self).cell(q)
                }
                &&& forall|q: (int, int)| old(self).loaded(q) && q != ip(position) ==> #[trigger] final(self).par(q) == old(self).par(q)
                &&& final(self).updated_coordinates@ == old(self).updated_coordinates@.push(position)
                &&& final(self).unsolved_actions == old(self).unsolved_actions
                &&& keep_adjesent_alive ==> forall|q: (int, int)| adjacent(q, ip(position)) && old(self).touchable(q) ==> #[trigger] final(self).marked(q)
            },
            final(self).population() == old(self).population() + if old(self).reachable(ip(position)) && old(self).cell(ip(position)).is_none() {
                1int
            } else {
                0int
            },
    {
        let ghost p = ip(position);
        let (chunk_c, in_chunk_c) = global_cord_to_chunk_local(position);
        proof {
            lemma_evolves_refl(*self);
        }
        if !self.is_in_neighbour_range(chunk_c) || !self.is_in_bounds(chunk_c) {
            return;
        }
        if !self.has_chunk(chunk_c) {
            self.unsolved_actions.push(UnsolvedActions::MissingChunkInsertion {
                chunk_cord: chunk_c,
                insertion_cord: in_chunk_c,
                element_to_insert: element,
            });
            proof {
                assert(old(self).unsolved_actions@.is_prefix_of(self.unsolved_actions@));
                lemma_same_grid(*old(self), *self);
                lemma_evolves_refl(*old(self));
            }
            return;
        }
        let ghost s0 = *self;
        self.chunk_set(position, element, !self.parity);
        let ghost s1 = *self;
        self.updated_coordinates.push(position);
        proof {
            assert(s0.updated_coordinates@.is_prefix_of(self.updated_coordinates@));
            assert forall|c: (int, int)| s0.in_bounds(c) && s0.slot(c).is_some() implies
                (#[trigger] self.slot(c)).unwrap().current_update_area == s0.slot(c).unwrap().current_update_area
                && s0.slot(c).unwrap().next_rect.covered_by(self.slot(c).unwrap().next_rect) by {
                assert(self.slot(c) == s1.slot(c));
                if c != chunk_of(p) {
                    assert(s0.frame(s1, chunk_of(p)));
                    assert(s1.slot(c) == s0.slot(c));
                }
            }
            assert forall|q: (int, int)| s0.loaded(q) && s0.cell(q).is_none() && #[trigger] self.cell(q).is_some() implies self.marked(q) by {
                assert(self.cell(q) == s1.cell(q));
                if q != p {
                    assert(s1.cell(q) == s0.cell(q));
                }
            }
            assert forall|c: (int, int)| s0.in_bounds(c) implies (#[trigger] self.slot(c)).is_some() == s0.slot(c).is_some() by {
                assert(self.slot(c) == s1.slot(c));
            }
            assert forall|c: (int, int)| s0.in_bounds(c) && !s0.in_range(c) implies #[trigger] self.slot(c) == s0.slot(c) by {
                assert(self.slot(c) == s1.slot(c));
            }
            assert forall|q: (int, int)| s0.loaded(q) && s0.par(q) != s0.parity implies #[trigger] self.par(q) != s0.parity by {
                assert(self.par(q) == s1.par(q));
            }
            lemma_same_grid(s1, *self);
            assert(s0.keeps_layout(*self));
            assert(s0.evolves(*self));
        }
        if keep_adjesent_alive {
            let ghost s2 = *self;
            self.keep_adjesent_cells_alive(position);
            proof {
                assert forall|q: (int, int)| s2.loaded(q) && s2.cell(q).is_none() && #[trigger] self.cell(q).is_some() implies self.marked(q) by {
                    assert(false);
                }
                assert forall|c: (int, int)| s2.in_bounds(c) && s2.slot(c).is_some() implies
                    (#[trigger] self.slot(c)).unwrap().current_update_area == s2.slot(c).unwrap().current_update_area
                    && s2.slot(c).unwrap().next_rect.covered_by(self.slot(c).unwrap().next_rect) by {
                }
                assert(s2.evolves(*self));
                lemma_evolves_trans(s0, s2, *self);
                assert forall|q: (int, int)| q != p implies #[trigger] self.cell(q) == if adjacent(q, p) && s0.touchable(q) {
                    refresh_opt(s0.cell(q))
                } else {
                    s0.cell(q)
                } by {
                    assert(s2.cell(q) == s0.cell(q));
                }
                assert forall|q: (int, int)| s0.loaded(q) && q != p implies #[trigger] self.par(q) == s0.par(q) by {
                    assert(s2.par(q) == s0.par(q));
                }
                assert forall|q: (int, int)| adjacent(q, p) && s0.touchable(q) implies #[trigger] self.marked(q) by {
                    assert(s2.touchable(q));
                }
            }
        }
    }

    /// Writes `element` at `position` and pokes the cells around it.
    pub fn set(&mut self, position: (isize, isize), element: Element)
        requires
            old(self).wf(),
            safe(ip(position)),
        ensures
            old(self).evolves(*final(self)),
            !old(self).reachable(ip(position)) ==> *final(self) == *old(self),
            old(self).reachable(ip(position)) && !old(self).loaded(ip(position)) ==> {
                &&& final(self).chunks == old(self).chunks
                &&& final(self).updated_coordinates == old(self).updated_coordinates
                &&& final(self).unsolved_actions@.len() == old(self).unsolved_actions@.len() + 1
                &&& ChunkContext::insertion_for(ip(position), element, final(self).unsolved_actions@.last())
            },
            old(self).touchable(ip(position)) ==> {
                &&& final(self).cell(ip(position)) == Some(element)
                &&& final(self).par(ip(position)) == !old(self).parity
                &&& final(self).marked(ip(position))
                &&& forall|q: (int, int)| q != ip(position) ==> #[trigger] final(self).cell(q) == if adjacent(q, ip(position)) && old(self).touchable(q) {
                    refresh_opt(old(self).cell(q))
                } else {
                    old(self).cell(q)
                }
                &&& forall|q: (int, int)| old(self).loaded(q) && q != ip(position) ==> #[trigger] final(self).par(q) == old(self).par(q)
                &&& final(self).updated_coordinates@ == old(self).updated_coordinates@.push(position)
                &&& final(self).unsolved_actions == old(self).unsolved_actions
                &&& forall|q: (int, int)| adjacent(q, ip(position)) && old(self).touchable(q) ==> #[trigger] final(self).marked(q)
            },
            final(self).population() == old(self).population() + if old(self).reachable(ip(position)) && old(self).cell(ip(position)).is_none() {
                1int
            } else {
                0int
            },
    {
        self.set_internal(position, element, true);
    }

    /// Writes `element` at `position` without poking the cells around it:
    /// for an element that has come to rest.
    pub fn set_static(&mut self, position: (isize, isize), element: Element)
        requires
            old(self).wf(),
            safe(ip(position)),
        ensures
            old(self).evolves(*final(self)),
            !old(self).reachable(ip(position)) ==> *final(self) == *old(self),
            old(self).reachable(ip(position)) && !old(self).loaded(ip(position)) ==> {
                &&& final(self).chunks == old(self).chunks
                &&& final(self).updated_coordinates == old(self).updated_coordinates
                &&& final(self).unsolved_actions@.len() == old(self).unsolved_actions@.len() + 1
                &&& ChunkContext::insertion_for(ip(position), element, final(self).unsolved_actions@.last())
            },
            old(self).touchable(ip(position)) ==> {
                &&& final(self).cell(ip(position)) == Some(element)
                &&& final(self).par(ip(position)) == !old(self).parity
                &&& final(self).marked(ip(position))
                &&& forall|q: (int, int)| q != ip(position) ==> #[trigger] final(self).cell(q) == old(self).cell(q)
                &&& forall|q: (int, int)| old(self).loaded(q) && q != ip(position) ==> #[trigger] final(self).par(q) == old(self).par(q)
                &&& final(self).updated_coordinates@ == old(self).updated_coordinates@.push(position)
                &&& final(self).unsolved_actions == old(self).unsolved_actions
            },
            final(self).population() == old(self).population() + if old(self).reachable(ip(position)) && old(self).cell(ip(position)).is_none() {
                1int
            } else {
                0int
            },
    {
        self.set_internal(position, element, false);
    }

    /// Empties `position`, records it and pokes the cells around it.
    pub fn clear(&mut self, position: (isize, isize))
        requires
            old(self).wf(),
            safe(ip(position)),
        ensures
            old(self).evolves(*final(self)),
            !old(self).near(ip(position)) ==> *final(self) == *old(self),
            old(self).near(ip(position)) ==> {
                &&& final(self).cell(ip(position)) == None::<Element>
                &&& (old(self).loaded(ip(position)) ==> final(self).marked(ip(position)))
                &&& forall|q: (int, int)| q != ip(position) ==> #[trigger] final(self).cell(q) == if adjacent(q, ip(position)) && old(self).touchable(q) {
                    refresh_opt(old(self).cell(q))
                } else {
                    old(self).cell(q)
                }
                &&& forall|q: (int, int)| old(self).loaded(q) ==> #[trigger] final(self).par(q) == old(self).par(q)
                &&& final(self).updated_coordinates@ == old(self).updated_coordinates@.push(position)
                &&& final(self).unsolved_actions == old(self).unsolved_actions
                &&& forall|q: (int, int)| adjacent(q, ip(position)) && old(self).touchable(q) ==> #[trigger] final(self).marked(q)
            },
            final(self).population() == old(self).population() - if old(self).near(ip(position)) && old(self).cell(ip(position)).is_some() {
                1int
            } else {
                0int
            },
    {
        let ghost p = ip(position);
        let (chunk_c, _in_chunk_c) = global_cord_to_chunk_local(position);
        if !self.is_in_neighbour_range(chunk_c) {
            return;
        }
        let ghost s0 = *self;
        if self.is_in_bounds(chunk_c) && self.has_chunk(chunk_c) {
            self.chunk_clear(position);
            proof {
                assert forall|c: (int, int)| s0.in_bounds(c) && s0.slot(c).is_some() implies
                    (#[trigger] self.slot(c)).unwrap().current_update_area == s0.slot(c).unwrap().current_update_area
                    && s0.slot(c).unwrap().next_rect.covered_by(self.slot(c).unwrap().next_rect) by {
                    if c != chunk_of(p) {
                        assert(self.slot(c) == s0.slot(c));
                    }
                }
                assert forall|q: (int, int)| s0.loaded(q) && s0.cell(q).is_none() && #[trigger] self.cell(q).is_some() implies self.marked(q) by {
                    assert(q != p);
                }
            }
        }
        let ghost s1 = *self;
        self.updated_coordinates.push(position);
        proof {
            lemma_same_grid(s1, *self);
            assert(s0.updated_coordinates@.is_prefix_of(self.updated_coordinates@));
            assert forall|c: (int, int)| s0.in_bounds(c) implies (#[trigger] self.slot(c)).is_some() == s0.slot(c).is_some() by {
                assert(s1.slot(c) == self.slot(c));
            }
            assert forall|c: (int, int)| s0.in_bounds(c) && !s0.in_range(c) implies #[trigger] self.slot(c) == s0.slot(c) by {
                assert(s1.slot(c) == self.slot(c));
            }
            assert forall|q: (int, int)| s0.loaded(q) && s0.par(q) != s0.parity implies #[trigger] self.par(q) != s0.parity by {
                assert(s1.par(q) == self.par(q));
            }
            assert forall|q: (int, int)| s0.loaded(q) && s0.cell(q).is_none() && #[trigger] self.cell(q).is_some() implies self.marked(q) by {
                assert(s1.cell(q) == self.cell(q));
                assert(s1.marked(q) == self.marked(q));
            }
            assert forall|c: (int, int)| s0.in_bounds(c) && s0.slot(c).is_some() implies
                (#[trigger] self.slot(c)).unwrap().current_update_area == s0.slot(c).unwrap().current_update_area
                && s0.slot(c).unwrap().next_rect.covered_by(self.slot(c).unwrap().next_rect) by {
                assert(s1.slot(c) == self.slot(c));
            }
            assert(s0.evolves(*self));
        }
        let ghost s2 = *self;
        self.keep_adjesent_cells_alive(position);
        proof {
            assert forall|q: (int, int)| s2.loaded(q) && s2.cell(q).is_none() && #[trigger] self.cell(q).is_some() implies self.marked(q) by {
                assert(false);
            }
            assert forall|c: (int, int)| s2.in_bounds(c) && s2.slot(c).is_some() implies
                (#[trigger] self.slot(c)).unwrap().current_update_area == s2.slot(c).unwrap().current_update_area
                && s2.slot(c).unwrap().next_rect.covered_by(self.slot(c).unwrap().next_rect) by {
            }
            assert(s2.evolves(*self));
            lemma_evolves_trans(s0, s2, *self);
            assert forall|q: (int, int)| q != p implies #[trigger] self.cell(q) == if adjacent(q, p) && s0.touchable(q) {
                refresh_opt(s0.cell(q))
            } else {
                s0.cell(q)
            } by {
                assert(s2.cell(q) == s0.cell(q));
            }
            assert forall|q: (int, int)| s0.loaded(q) implies #[trigger] self.par(q) == s0.par(q) by {
                assert(s2.par(q) == s0.par(q));
            }
            assert forall|q: (int, int)| adjacent(q, p) && s0.touchable(q) implies #[trigger] self.marked(q) by {
                assert(s2.touchable(q));
            }
            assert(self.cell(p) == s2.cell(p));
        }
    }
}


impl ChunkContext {
    /// Adds a cell of the current chunk to its next sweep area.
    pub fn keep_alive_local(&mut self, position: CordInChunk)
        requires
            old(self).wf(),
            local_ok((position.0 as int, position.1 as int)),
        ensures
            old(self).evolves(*final(self)),
            forall|q: (int, int)| #[trigger] final(self).cell(q) == old(self).cell(q),
            final(self).marked((old(self).current_chunk_cord.0 * 32 + position.0, old(self).current_chunk_cord.1 * 32 + position.1)),
            forall|q: (int, int)| old(self).loaded(q) ==> #[trigger] final(self).par(q) == old(self).par(q),
            final(self).population() == old(self).population(),
            final(self).updated_coordinates == old(self).updated_coordinates,
            final(self).unsolved_actions == old(self).unsolved_actions,
    {
        let global = local_cord_to_global(position, self.current_chunk_cord);
        self.keep_alive(global);
    }

    /// Adds `position` to its chunk's next sweep area, where a write can
    /// reach it; the cell itself is left as it is.
    pub fn keep_alive(&mut self, position: (isize, isize))
        requires
            old(self).wf(),
        ensures
            old(self).evolves(*final(self)),
            forall|q: (int, int)| #[trigger] final(self).cell(q) == old(self).cell(q),
            old(self).touchable(ip(position)) ==> final(self).marked(ip(position)),
            forall|q: (int, int)| old(self).loaded(q) ==> #[trigger] final(self).par(q) == old(self).par(q),
            final(self).population() == old(self).population(),
            final(self).updated_coordinates == old(self).updated_coordinates,
            final(self).unsolved_actions == old(self).unsolved_actions,
    {
        proof {
            lemma_evolves_refl(*self);
        }
        let (chunk_c, _in_chunk_c) = global_cord_to_chunk_local(position);
        if !self.is_in_neighbour_range(chunk_c) || !self.is_in_bounds(chunk_c) || !self.has_chunk(chunk_c) {
            return;
        }
        let ghost s0 = *self;
        self.chunk_mark(position);
        proof {
            let p = ip(position);
            assert forall|c: (int, int)| s0.in_bounds(c) && s0.slot(c).is_some() implies
                (#[trigger] self.slot(c)).unwrap().current_update_area == s0.slot(c).unwrap().current_update_area
                && s0.slot(c).unwrap().next_rect.covered_by(self.slot(c).unwrap().next_rect) by {
                if c != chunk_of(p) {
                    assert(self.slot(c) == s0.slot(c));
                }
            }
            assert forall|q: (int, int)| s0.loaded(q) && s0.cell(q).is_none() && #[trigger] self.cell(q).is_some() implies self.marked(q) by {
                assert(self.cell(q) == s0.cell(q));
            }
            assert(s0.updated_coordinates@.is_prefix_of(self.updated_coordinates@));
            assert(s0.unsolved_actions@.is_prefix_of(self.unsolved_actions@));
        }
    }

    /// Places `element` at `to`; the element that was at `to`, if any, goes
    /// to `from`, else `from` is emptied.
    ///
    /// When an element at `from` moves to another cell, the number of
    /// elements (in chunks, or waiting for a missing chunk) stays the same;
    /// when both cells lie in existing chunks, nothing is deferred and the
    /// chunks' own count stays the same. A target in a missing chunk becomes
    /// a deferred insertion.
    pub fn move_from_to(&mut self, from: (isize, isize), to: (isize, isize), element: Element)
        requires
            old(self).wf(),
            safe(ip(from)),
            safe(ip(to)),
            old(self).reachable(ip(to)),
        ensures
            old(self).evolves(*final(self)),
            old(self).touchable(ip(from)) && old(self).cell(ip(from)).is_some() && ip(from) != ip(to)
                ==> final(self).population() == old(self).population(),
            old(self).touchable(ip(to)) && ip(from) != ip(to) ==> final(self).par(ip(to)) == !old(self).parity && (
            final(self).cell(ip(to)) == Some(element) || (adjacent(ip(to), ip(from))
                && final(self).cell(ip(to)) == Some(element.spec_refresh()))),
            old(self).touchable(ip(from)) && ip(from) != ip(to) ==> final(self).cell(ip(from))
                == old(self).cell(ip(to)),
            old(self).touchable(ip(from)) && old(self).touchable(ip(to)) && ip(from) != ip(to) ==> {
                &&& final(self).cell(ip(to)) == Some(
                    if adjacent(ip(to), ip(from)) { element.spec_refresh() } else { element },
                )
                &&& final(self).unsolved_actions == old(self).unsolved_actions
                &&& (old(self).cell(ip(from)).is_some() ==> grid_total(final(self).chunks@) == grid_total(
                    old(self).chunks@,
                ))
                &&& (old(self).cell(ip(to)).is_some() ==> final(self).par(ip(from)) == !old(self).parity)
            },
            old(self).touchable(ip(from)) && ip(from) != ip(to) ==> move_result(*old(self), *final(self), ip(from), ip(to), element),
            old(self).touchable(ip(from)) && !old(self).loaded(ip(to)) ==> {
                &&& final(self).unsolved_actions@.len() == old(self).unsolved_actions@.len() + 1
                &&& ChunkContext::insertion_for(ip(to), element, final(self).unsolved_actions@.last())
                &&& final(self).cell(ip(from)).is_none()
            },
    {
        let other = match self.get(to) {
            Ok(v) => v,
            Err(_) => None,
        };
        let ghost s0 = *self;
        self.set(to, element);
        let ghost s1 = *self;
        proof {
            if s0.touchable(ip(from)) && ip(from) != ip(to) {
                assert(s1.cell(ip(from)).is_some() == s0.cell(ip(from)).is_some());
            }
        }
        match other {
            Some(previous) => self.set(from, previous),
            None => self.clear(from),
        }
        proof {
            lemma_evolves_trans(s0, s1, *self);
            if s0.touchable(ip(to)) && ip(from) != ip(to) {
                assert(s1.touchable(ip(from)) == s0.touchable(ip(from)));
                assert(s1.touchable(ip(to)));
                assert(s1.cell(ip(to)) == Some(element));
                assert(self.par(ip(to)) == s1.par(ip(to)));
            }
            if s0.touchable(ip(from)) && !s0.loaded(ip(to)) {
                assert(ip(from) != ip(to));
                assert(other.is_none());
                assert(s1.unsolved_actions@.last() == self.unsolved_actions@.last());
            }
        }
    }

    /// Whether `position` can be read and `fit_func` accepts what is there.
    pub fn reachable_and_fitting<F: Fn(Option<Element>) -> bool>(&self, position: (isize, isize), fit_func: F) -> (r: bool)
        requires
            self.wf(),
            forall|v: Option<Element>| #[trigger] fit_func.requires((v,)),
        ensures
            !self.reachable(ip(position)) ==> !r,
            self.reachable(ip(position)) ==> fit_func.ensures((self.cell(ip(position)),), r),
    {
        match self.get(position) {
            Err(_) => false,
            Ok(v) => fit_func(v),
        }
    }

    /// Whether `position` can be read and is empty, or holds an element
    /// that `fit_func` accepts.
    pub fn reachable_empty_or_fitting<F: Fn(Element) -> bool>(&self, position: (isize, isize), fit_func: F) -> (r: bool)
        requires
            self.wf(),
            forall|e: Element| #[trigger] fit_func.requires((e,)),
        ensures
            !self.reachable(ip(position)) ==> !r,
            self.reachable(ip(position)) && self.cell(ip(position)).is_none() ==> r,
            forall|e: Element| self.reachable(ip(position)) && self.cell(ip(position)) == Some(e) ==> #[trigger] fit_func.ensures((e,), r),
    {
        match self.get(position) {
            Ok(None) => true,
            Ok(Some(element)) => fit_func(element),
            Err(_) => false,
        }
    }

    /// Whether `position` can be read and is empty.
    pub fn empty_and_reachable(&self, position: (isize, isize)) -> (r: bool)
        requires
            self.wf(),
        ensures
            r == (self.reachable(ip(position)) && self.cell(ip(position)).is_none()),
    {
        match self.get(position) {
            Ok(None) => true,
            _ => false,
        }
    }
}


impl ChunkContext {
    /// The chunk being updated.
    pub fn current_chunk(&self) -> (r: &Chunk)
        requires
            self.wf(),
        ensures
            *r == self.slot(ip(self.current_chunk_cord)).unwrap(),
            r.wf(),
    {
        self.chunks[self.current_chunk_cord.1 as usize][self.current_chunk_cord.0 as usize].as_ref().unwrap()
    }
}

} // verus!
