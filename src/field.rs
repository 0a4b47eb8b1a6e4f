use vstd::prelude::*;
use crate::chunk::{Chunk, CordInChunk, local_ok, CHUNK_WIDTH, CHUNK_HEIGHT};
use crate::chunk_context::{ChunkContext, UnsolvedActions, MAX_GRID_SIDE};
use crate::elements::Element;
use crate::rect::Rect;
use crate::threads::{update_chunk, swept};

verus! {

/// The position of a chunk in the grid of chunks.
pub type ChunkCord = (isize, isize);

/// The chunk that holds a world position (Euclidean division).
pub open spec fn chunk_of(p: (int, int)) -> (int, int) {
    (p.0 / CHUNK_WIDTH as int, p.1 / CHUNK_HEIGHT as int)
}

/// The position inside its chunk of a world position.
pub open spec fn local_of(p: (int, int)) -> (int, int) {
    (p.0 % CHUNK_WIDTH as int, p.1 % CHUNK_HEIGHT as int)
}

pub open spec fn ip(p: (isize, isize)) -> (int, int) {
    (p.0 as int, p.1 as int)
}

/// A world position is given by its chunk and its place in the chunk.
pub proof fn lemma_split_unique(p: (int, int), q: (int, int))
    requires
        chunk_of(p) == chunk_of(q),
        local_of(p) == local_of(q),
    ensures
        p == q,
{
    assert(p.0 == 32 * (p.0 / 32) + p.0 % 32);
    assert(q.0 == 32 * (q.0 / 32) + q.0 % 32);
    assert(p.1 == 32 * (p.1 / 32) + p.1 % 32);
    assert(q.1 == 32 * (q.1 / 32) + q.1 % 32);
}

fn split_axis(v: isize, size: usize) -> (r: (isize, usize))
    requires
        size == 32,
    ensures
        r.0 == v / 32,
        r.1 == v % 32,
        r.1 < 32,
{
    if v >= 0 {
        let u = v as usize;
        ((u / size) as isize, u % size)
    } else {
        let m = (-(v + 1)) as usize;
        let q = m / size;
        let rest = m % size;
        proof {
            assert(m == 32 * q + rest);
            assert(v == 32 * (-(q as int) - 1) + (31 - rest));
        }
        (-(q as isize) - 1, size - 1 - rest)
    }
}

/// Splits a world position into its chunk and its place in that chunk.
pub fn global_cord_to_chunk_local(position: (isize, isize)) -> (r: (ChunkCord, CordInChunk))
    ensures
        ip(r.0) == chunk_of(ip(position)),
        (r.1.0 as int, r.1.1 as int) == local_of(ip(position)),
{
    let (cx, lx) = split_axis(position.0, CHUNK_WIDTH);
    let (cy, ly) = split_axis(position.1, CHUNK_HEIGHT);
    ((cx, cy), (lx, ly))
}

/// The world position of a place in a chunk.
pub fn local_cord_to_global(cord_in_chunk: CordInChunk, chunk_cord: ChunkCord) -> (r: (isize, isize))
    requires
        cord_in_chunk.0 < CHUNK_WIDTH,
        cord_in_chunk.1 < CHUNK_HEIGHT,
        isize::MIN / 32 <= chunk_cord.0 <= isize::MAX / 32,
        isize::MIN / 32 <= chunk_cord.1 <= isize::MAX / 32,
    ensures
        r.0 == chunk_cord.0 * CHUNK_WIDTH + cord_in_chunk.0,
        r.1 == chunk_cord.1 * CHUNK_HEIGHT + cord_in_chunk.1,
        chunk_of(ip(r)) == ip(chunk_cord),
        local_of(ip(r)) == (cord_in_chunk.0 as int, cord_in_chunk.1 as int),
{
    (
        chunk_cord.0 * CHUNK_WIDTH as isize + cord_in_chunk.0 as isize,
        chunk_cord.1 * CHUNK_HEIGHT as isize + cord_in_chunk.1 as isize,
    )
}


/// The world: a grid of chunks (rows of slots, `None` where no chunk
/// exists), the global parity, and the cells changed since the renderer last
/// asked.
pub struct Field {
    pub chunks: Vec<Vec<Option<Chunk>>>,
    /// From `(0, 0)` to the number of chunks along each side.
    pub chunk_boundaries: Rect,
    pub updated_cells: Vec<(isize, isize)>,
    pub parity: bool,
    /// How many workers the host may give to chunk updates.
    pub number_of_threads: usize,
}

impl Field {
    pub open spec fn width(self) -> int {
        self.chunk_boundaries.bottom_right.0 as int
    }

    pub open spec fn height(self) -> int {
        self.chunk_boundaries.bottom_right.1 as int
    }

    pub open spec fn in_bounds(self, c: (int, int)) -> bool {
        0 <= c.0 < self.width() && 0 <= c.1 < self.height()
    }

    pub open spec fn slot(self, c: (int, int)) -> Option<Chunk> {
        self.chunks@[c.1]@[c.0]
    }

    /// The world position lies in the world.
    pub open spec fn in_world(self, p: (int, int)) -> bool {
        self.in_bounds(chunk_of(p))
    }

    pub open spec fn cell(self, p: (int, int)) -> Option<Element> {
        if self.in_world(p) && self.slot(chunk_of(p)).is_some() {
            self.slot(chunk_of(p)).unwrap().cell(local_of(p).0, local_of(p).1)
        } else {
            None
        }
    }

    pub open spec fn wf(self) -> bool {
        &&& self.chunk_boundaries.top_left == (0isize, 0isize)
        &&& 0 <= self.width() <= MAX_GRID_SIDE
        &&& 0 <= self.height() <= MAX_GRID_SIDE
        &&& self.chunks@.len() == self.height()
        &&& forall|y: int| 0 <= y < self.height() ==> #[trigger] self.chunks@[y]@.len() == self.width()
        &&& forall|c: (int, int)|
            self.in_bounds(c) && #[trigger] self.slot(c).is_some() ==> self.slot(c).unwrap().wf()
    }

    /// An empty world of `max_field_chunk_count` chunks along each side.
    pub fn new(max_field_chunk_count: (usize, usize), number_of_threads: usize) -> (r: Field)
        requires
            max_field_chunk_count.0 <= MAX_GRID_SIDE,
            max_field_chunk_count.1 <= MAX_GRID_SIDE,
        ensures
            r.wf(),
            r.width() == max_field_chunk_count.0,
            r.height() == max_field_chunk_count.1,
            forall|c: (int, int)| r.in_bounds(c) ==> #[trigger] r.slot(c).is_none(),
            r.parity == false,
            r.updated_cells@.len() == 0,
            r.number_of_threads == number_of_threads,
    {
        let w = max_field_chunk_count.0;
        let h = max_field_chunk_count.1;
        let mut chunks: Vec<Vec<Option<Chunk>>> = Vec::new();
        let mut y: usize = 0;
        while y < h
            invariant
                y <= h,
                chunks@.len() == y,
                forall|j: int| 0 <= j < y ==> #[trigger] chunks@[j]@.len() == w,
                forall|j: int, i: int| 0 <= j < y && 0 <= i < w ==> chunks@[j]@[i].is_none(),
            decreases h - y,
        {
            let mut row: Vec<Option<Chunk>> = Vec::new();
            let mut x: usize = 0;
            while x < w
                invariant
                    x <= w,
                    row@.len() == x,
                    forall|i: int| 0 <= i < x ==> row@[i].is_none(),
                decreases w - x,
            {
                row.push(None);
                x += 1;
            }
            chunks.push(row);
            y += 1;
        }
        Field {
            chunks,
            chunk_boundaries: Rect::from((0, 0), (w as isize, h as isize)),
            updated_cells: Vec::new(),
            parity: false,
            number_of_threads,
        }
    }

    /// The element at a world position; `None` for an empty cell, a missing
    /// chunk, or a position outside the world.
    pub fn get(&self, position: (isize, isize)) -> (r: Option<Element>)
        requires
            self.wf(),
        ensures
            r == self.cell(ip(position)),
    {
        let (chunk_c, c_in_chunk) = global_cord_to_chunk_local(position);
        if chunk_c.0 < 0 || chunk_c.1 < 0 || chunk_c.0 >= self.chunk_boundaries.bottom_right.0
            || chunk_c.1 >= self.chunk_boundaries.bottom_right.1 {
            return None;
        }
        match &self.chunks[chunk_c.1 as usize][chunk_c.0 as usize] {
            Some(chunk) => chunk.get(c_in_chunk),
            None => None,
        }
    }
}


impl Field {
    /// The chunk at `cord` replaced by `chunk`; every other slot as it was.
    fn replace_slot(&mut self, cord: ChunkCord, chunk: Option<Chunk>) -> (r: Option<Chunk>)
        requires
            old(self).wf(),
            old(self).in_bounds(ip(cord)),
            chunk matches Some(c) ==> c.wf(),
        ensures
            final(self).wf(),
            r == old(self).slot(ip(cord)),
            forall|c: (int, int)|
                old(self).in_bounds(c) ==> #[trigger] final(self).slot(c) == if c == ip(cord) {
                    chunk
                } else {
                    old(self).slot(c)
                },
            final(self).chunk_boundaries == old(self).chunk_boundaries,
            final(self).updated_cells == old(self).updated_cells,
            final(self).parity == old(self).parity,
            final(self).number_of_threads == old(self).number_of_threads,
    {
        let y = cord.1 as usize;
        let x = cord.0 as usize;
        let mut row: Vec<Option<Chunk>> = Vec::new();
        std::mem::swap(&mut self.chunks[y], &mut row);
        let mut slot: Option<Chunk> = chunk;
        std::mem::swap(&mut row[x], &mut slot);
        self.chunks.set(y, row);
        proof {
            assert(self.chunks@ =~= old(self).chunks@.update(y as int, row));
            assert forall|c: (int, int)|
                old(self).in_bounds(c) implies #[trigger] self.slot(c) == if c == ip(cord) {
                    chunk
                } else {
                    old(self).slot(c)
                } by {
                if c.1 != y {
                    assert(self.chunks@[c.1] == old(self).chunks@[c.1]);
                }
            }
            assert forall|j: int| 0 <= j < self.height() implies #[trigger] self.chunks@[j]@.len() == self.width() by {
                if j != y {
                    assert(self.chunks@[j] == old(self).chunks@[j]);
                }
            }
            assert forall|c: (int, int)| self.in_bounds(c) && #[trigger] self.slot(c).is_some() implies self.slot(c).unwrap().wf() by {
                if c != ip(cord) {
                    assert(self.slot(c) == old(self).slot(c));
                }
            }
        }
        slot
    }

    /// Places `element` at a world position, or empties it for `None`; the
    /// chunk is created if it does not exist yet, and the cell and the cells
    /// that share a side with it join the next sweep. Positions outside the
    /// world are ignored.
    pub fn set(&mut self, position: (isize, isize), element: Option<Element>)
        requires
            old(self).wf(),
        ensures
            final(self).wf(),
            final(self).chunk_boundaries == old(self).chunk_boundaries,
            final(self).parity == old(self).parity,
            final(self).number_of_threads == old(self).number_of_threads,
            !old(self).in_world(ip(position)) ==> *final(self) == *old(self),
            old(self).in_world(ip(position)) ==> {
                &&& final(self).cell(ip(position)) == element
                &&& forall|q: (int, int)| q != ip(position) ==> #[trigger] final(self).cell(q) == old(self).cell(q)
                &&& final(self).updated_cells@ == old(self).updated_cells@.push(position)
                &&& final(self).slot(chunk_of(ip(position))).is_some()
                &&& final(self).slot(chunk_of(ip(position))).unwrap().next_has(local_of(ip(position)).0, local_of(ip(position)).1)
                &&& forall|q: (int, int)|
                    local_ok(q) && ((q.0 - local_of(ip(position)).0 == 1 || local_of(ip(position)).0 - q.0 == 1)
                        && q.1 == local_of(ip(position)).1 || (q.1 - local_of(ip(position)).1 == 1
                        || local_of(ip(position)).1 - q.1 == 1) && q.0 == local_of(ip(position)).0)
                        ==> #[trigger] final(self).slot(chunk_of(ip(position))).unwrap().next_rect.contains(q)
            },
            forall|c: (int, int)|
                old(self).in_bounds(c) && old(self).slot(c).is_some() ==> (#[trigger] final(self).slot(c)).is_some(),
            forall|c: (int, int)|
                old(self).in_bounds(c) && c != chunk_of(ip(position)) ==> #[trigger] final(self).slot(c) == old(self).slot(c),
    {
        let (chunk_c, c_in_chunk) = global_cord_to_chunk_local(position);
        if chunk_c.0 < 0 || chunk_c.1 < 0 || chunk_c.0 >= self.chunk_boundaries.bottom_right.0
            || chunk_c.1 >= self.chunk_boundaries.bottom_right.1 {
            return;
        }
        self.updated_cells.push(position);
        proof {
            assert(self.chunks == old(self).chunks);
            assert forall|c: (int, int)| self.in_bounds(c) && #[trigger] self.slot(c).is_some() implies self.slot(c).unwrap().wf() by {
                assert(self.slot(c) == old(self).slot(c));
            }
            assert forall|q: (int, int)| #[trigger] self.cell(q) == old(self).cell(q) by {
                assert(self.slot(chunk_of(q)) == old(self).slot(chunk_of(q)));
            }
        }
        let ghost before = *self;
        let taken = self.replace_slot(chunk_c, None);
        let mut chunk = match taken {
            Some(c) => c,
            None => Chunk::new(self.parity),
        };
        let ghost fresh = chunk;
        proof {
            if taken.is_some() {
                assert(before.slot(ip(chunk_c)).is_some());
            }
        }
        match element {
            Some(e) => chunk.set(c_in_chunk, e, self.parity),
            None => chunk.clear(c_in_chunk),
        }
        let ghost written = chunk;
        chunk.add_point_in_update_cycle_with_neighbourhood(c_in_chunk);
        self.replace_slot(chunk_c, Some(chunk));
        proof {
            let p = ip(position);
            assert(self.slot(ip(chunk_c)) == Some(chunk));
            assert(chunk.field == written.field);
            assert forall|q: (int, int)| q != p implies #[trigger] self.cell(q) == before.cell(q) by {
                if chunk_of(q) == ip(chunk_c) {
                    if local_of(q) == local_of(p) {
                        lemma_split_unique(q, p);
                    }
                    assert(self.cell(q) == written.cell(local_of(q).0, local_of(q).1));
                    if q != p {
                        assert(written.cell(local_of(q).0, local_of(q).1) == fresh.cell(local_of(q).0, local_of(q).1));
                    }
                    if taken.is_none() {
                        assert(fresh.cell(local_of(q).0, local_of(q).1).is_none());
                    }
                } else if before.in_bounds(chunk_of(q)) {
                    assert(self.slot(chunk_of(q)) == before.slot(chunk_of(q)));
                }
            }
            assert(self.cell(p) == written.cell(local_of(p).0, local_of(p).1));
            assert(self.cell(p) == element);
            assert(self.updated_cells@ == old(self).updated_cells@.push(position));
            assert forall|q: (int, int)| q != p implies #[trigger] self.cell(q) == old(self).cell(q) by {
                assert(self.cell(q) == before.cell(q));
                assert(before.cell(q) == old(self).cell(q));
            }
        }
    }
}


/// A position is in the world when its coordinates lie below the world's
/// size in cells.
proof fn lemma_in_world(f: Field, q: (int, int))
    ensures
        f.in_world(q) <==> (0 <= q.0 < f.width() * 32 && 0 <= q.1 < f.height() * 32),
{
}

/// A chunk after the start of a tick: its gathered area became its sweep
/// area, and the gathered area is empty; the cells are as they were.
pub open spec fn committed_chunk(before: Chunk, after: Chunk) -> bool {
    &&& after.field == before.field
    &&& after.field_parity == before.field_parity
    &&& after.elements_count == before.elements_count
    &&& after.current_update_area == before.next_rect
    &&& !after.next_rect.spec_has_value()
}

/// `q` lies in the rectangle of `size` centred on `position` (an odd size
/// puts the extra row or column after the centre).
pub open spec fn in_brush(position: (isize, isize), size: (usize, usize), q: (int, int)) -> bool {
    position.0 - size.0 / 2 <= q.0 < position.0 + size.0 / 2 + size.0 % 2 && position.1 - size.1 / 2 <= q.1
        < position.1 + size.1 / 2 + size.1 % 2
}

pub open spec fn spec_clip(v: int, hi: int) -> int {
    if v < 0 { 0 } else if v > hi { hi } else { v }
}

/// `v` clipped to `[0, hi]`.
fn clip(v: i128, hi: i128) -> (r: i128)
    requires
        0 <= hi,
    ensures
        r == spec_clip(v as int, hi as int),
{
    if v < 0 { 0 } else if v > hi { hi } else { v }
}

/// The content of cell `(x, y)` of a chunk slot; an empty slot reads empty.
pub open spec fn cell_in(slot: Option<Chunk>, x: int, y: int) -> Option<Element> {
    match slot {
        Some(c) => c.cell(x, y),
        None => None,
    }
}

/// Some deferred write among the first `k` of `acts` aims at cell `l` of
/// the chunk at `c`, inside the world `f`.
pub open spec fn targeted(f: Field, acts: Seq<UnsolvedActions>, k: int, c: (int, int), l: (int, int)) -> bool {
    exists|i: int|
        0 <= i < k && #[trigger] aims_at(f, acts[i], c, l)
}

pub open spec fn aims_at(f: Field, a: UnsolvedActions, c: (int, int), l: (int, int)) -> bool {
    match a {
        UnsolvedActions::MissingChunkInsertion { chunk_cord, insertion_cord, .. } => {
            f.in_bounds(ip(chunk_cord)) && insertion_cord.0 < CHUNK_WIDTH && insertion_cord.1 < CHUNK_HEIGHT
                && ip(chunk_cord) == c && (insertion_cord.0 as int, insertion_cord.1 as int) == l
        },
    }
}

/// Two deferred writes aim at the same cell.
pub open spec fn same_target(a: UnsolvedActions, b: UnsolvedActions) -> bool {
    match (a, b) {
        (
            UnsolvedActions::MissingChunkInsertion { chunk_cord: c1, insertion_cord: l1, .. },
            UnsolvedActions::MissingChunkInsertion { chunk_cord: c2, insertion_cord: l2, .. },
        ) => c1 == c2 && l1 == l2,
    }
}

/// A later one of the first `k` deferred writes aims at the cell of write `i`.
pub open spec fn overwritten(acts: Seq<UnsolvedActions>, i: int, k: int) -> bool {
    exists|j: int| i < j < k && same_target(acts[i], #[trigger] acts[j])
}

/// The deferred write `a` is in place in `f`: its chunk exists and the cell
/// holds the element with the field's parity (or it aims outside the world).
pub open spec fn insertion_done(f: Field, a: UnsolvedActions) -> bool {
    match a {
        UnsolvedActions::MissingChunkInsertion { chunk_cord, insertion_cord, element_to_insert } => {
            f.in_bounds(ip(chunk_cord)) && insertion_cord.0 < CHUNK_WIDTH && insertion_cord.1 < CHUNK_HEIGHT
                ==> f.slot(ip(chunk_cord)).is_some() && f.slot(ip(chunk_cord)).unwrap().cell(
                insertion_cord.0 as int,
                insertion_cord.1 as int,
            ) == Some(element_to_insert) && f.slot(ip(chunk_cord)).unwrap().par(
                insertion_cord.0 as int,
                insertion_cord.1 as int,
            ) == f.parity
        },
    }
}

/// Two fields over the same grid agree on every slot.
proof fn lemma_field_same_grid(a: Field, b: Field)
    requires
        a.wf(),
        b.chunks == a.chunks,
        b.chunk_boundaries == a.chunk_boundaries,
    ensures
        b.wf(),
        forall|c: (int, int)| #[trigger] b.slot(c) == a.slot(c),
        forall|q: (int, int)| #[trigger] b.cell(q) == a.cell(q),
{
    assert forall|c: (int, int)| b.in_bounds(c) && #[trigger] b.slot(c).is_some() implies b.slot(c).unwrap().wf() by {
        assert(a.slot(c) == b.slot(c));
    }
    assert forall|q: (int, int)| #[trigger] b.cell(q) == a.cell(q) by {
        assert(a.slot(chunk_of(q)) == b.slot(chunk_of(q)));
    }
}

/// A field's grid seen through a context for the chunk at `cord`.
proof fn lemma_context_of_field(f: Field, ctx: ChunkContext)
    requires
        f.wf(),
        ctx.chunks == f.chunks,
        ctx.chunk_boundaries == f.chunk_boundaries,
        f.in_bounds(ip(ctx.current_chunk_cord)),
        f.slot(ip(ctx.current_chunk_cord)).is_some(),
    ensures
        ctx.wf(),
{
    assert forall|c: (int, int)| ctx.in_bounds(c) && #[trigger] ctx.slot(c).is_some() implies ctx.slot(c).unwrap().wf() by {
        assert(f.slot(c) == ctx.slot(c));
    }
}

/// A context's grid taken back into a field.
proof fn lemma_field_of_context(ctx: ChunkContext, f: Field)
    requires
        ctx.wf(),
        f.chunks == ctx.chunks,
        f.chunk_boundaries == ctx.chunk_boundaries,
    ensures
        f.wf(),
        forall|c: (int, int)| #[trigger] f.slot(c) == ctx.slot(c),
{
    assert forall|c: (int, int)| f.in_bounds(c) && #[trigger] f.slot(c).is_some() implies f.slot(c).unwrap().wf() by {
        assert(f.slot(c) == ctx.slot(c));
    }
}

impl Field {
    /// Starts a tick in every chunk: its gathered area becomes its sweep area.
    fn update_rects(&mut self)
        requires
            old(self).wf(),
        ensures
            final(self).wf(),
            final(self).chunk_boundaries == old(self).chunk_boundaries,
            final(self).updated_cells == old(self).updated_cells,
            final(self).parity == old(self).parity,
            final(self).number_of_threads == old(self).number_of_threads,
            forall|c: (int, int)|
                old(self).in_bounds(c) ==> (#[trigger] final(self).slot(c)).is_some() == old(self).slot(c).is_some(),
            forall|c: (int, int)|
                old(self).in_bounds(c) && old(self).slot(c).is_some() ==> committed_chunk(
                    old(self).slot(c).unwrap(),
                    #[trigger] final(self).slot(c).unwrap(),
                ),
    {
        let h = self.chunk_boundaries.bottom_right.1 as usize;
        let w = self.chunk_boundaries.bottom_right.0 as usize;
        let mut y: usize = 0;
        while y < h
            invariant
                old(self).wf(),
                self.wf(),
                h == self.height(),
                w == self.width(),
                self.chunk_boundaries == old(self).chunk_boundaries,
                self.updated_cells == old(self).updated_cells,
                self.parity == old(self).parity,
                self.number_of_threads == old(self).number_of_threads,
                forall|c: (int, int)|
                    old(self).in_bounds(c) ==> (#[trigger] self.slot(c)).is_some() == old(self).slot(c).is_some(),
                y <= h,
                forall|c: (int, int)|
                    old(self).in_bounds(c) && old(self).slot(c).is_some() ==> if c.1 < y {
                        committed_chunk(old(self).slot(c).unwrap(), (#[trigger] self.slot(c)).unwrap())
                    } else {
                        self.slot(c) == old(self).slot(c)
                    },
            decreases h - y,
        {
            let mut x: usize = 0;
            while x < w
                invariant
                    old(self).wf(),
                    self.wf(),
                    y < h,
                    h == self.height(),
                    w == self.width(),
                    self.chunk_boundaries == old(self).chunk_boundaries,
                    self.updated_cells == old(self).updated_cells,
                    self.parity == old(self).parity,
                    self.number_of_threads == old(self).number_of_threads,
                    forall|c: (int, int)|
                        old(self).in_bounds(c) ==> (#[trigger] self.slot(c)).is_some() == old(self).slot(c).is_some(),
                    x <= w,
                    forall|c: (int, int)|
                        old(self).in_bounds(c) && old(self).slot(c).is_some() ==> if c.1 < y || c.1 == y && c.0 < x {
                            committed_chunk(old(self).slot(c).unwrap(), (#[trigger] self.slot(c)).unwrap())
                        } else {
                            self.slot(c) == old(self).slot(c)
                        },
                decreases w - x,
            {
                let cord = (x as isize, y as isize);
                let ghost before = *self;
                let taken = self.replace_slot(cord, None);
                match taken {
                    Some(mut chunk) => {
                        proof {
                            assert(before.slot(ip(cord)).is_some());
                        }
                        chunk.update_rect();
                        self.replace_slot(cord, Some(chunk));
                    },
                    None => {},
                }
                proof {
                    assert forall|c: (int, int)| old(self).in_bounds(c) implies (#[trigger] self.slot(c)).is_some() == old(self).slot(c).is_some() by {
                        assert(before.slot(c).is_some() == old(self).slot(c).is_some());
                    }
                    assert forall|c: (int, int)|
                        old(self).in_bounds(c) && old(self).slot(c).is_some() implies if c.1 < y || c.1 == y && c.0 < x + 1 {
                            committed_chunk(old(self).slot(c).unwrap(), (#[trigger] self.slot(c)).unwrap())
                        } else {
                            self.slot(c) == old(self).slot(c)
                        } by {
                        if c != ip(cord) {
                            assert(self.slot(c) == before.slot(c));
                        }
                    }
                }
                x += 1;
            }
            y += 1;
        }
    }

    /// Drops every chunk that holds no element.
    fn remove_empty_chunks(&mut self)
        requires
            old(self).wf(),
        ensures
            final(self).wf(),
            final(self).chunk_boundaries == old(self).chunk_boundaries,
            final(self).updated_cells == old(self).updated_cells,
            final(self).parity == old(self).parity,
            final(self).number_of_threads == old(self).number_of_threads,
            forall|c: (int, int)|
                final(self).in_bounds(c) && (#[trigger] final(self).slot(c)).is_some() ==> final(self).slot(c).unwrap().elements_count > 0,
            forall|c: (int, int)|
                old(self).in_bounds(c) && old(self).slot(c).is_some() && old(self).slot(c).unwrap().elements_count > 0
                    ==> #[trigger] final(self).slot(c) == old(self).slot(c),
            forall|c: (int, int)|
                old(self).in_bounds(c) && old(self).slot(c).is_none() ==> (#[trigger] final(self).slot(c)).is_none(),
            forall|c: (int, int)|
                old(self).in_bounds(c) && (#[trigger] final(self).slot(c)).is_some() ==> final(self).slot(c) == old(self).slot(c),
    {
        let h = self.chunk_boundaries.bottom_right.1 as usize;
        let w = self.chunk_boundaries.bottom_right.0 as usize;
        let mut y: usize = 0;
        while y < h
            invariant
                old(self).wf(),
                self.wf(),
                y <= h,
                h == self.height(),
                w == self.width(),
                self.chunk_boundaries == old(self).chunk_boundaries,
                self.updated_cells == old(self).updated_cells,
                self.parity == old(self).parity,
                self.number_of_threads == old(self).number_of_threads,
                forall|c: (int, int)|
                    self.in_bounds(c) && c.1 < y && (#[trigger] self.slot(c)).is_some() ==> self.slot(c).unwrap().elements_count > 0,
                forall|c: (int, int)|
                    old(self).in_bounds(c) && old(self).slot(c).is_some() && old(self).slot(c).unwrap().elements_count > 0
                        ==> #[trigger] self.slot(c) == old(self).slot(c),
                forall|c: (int, int)|
                    old(self).in_bounds(c) && old(self).slot(c).is_none() ==> (#[trigger] self.slot(c)).is_none(),
                forall|c: (int, int)|
                    old(self).in_bounds(c) && (#[trigger] self.slot(c)).is_some() ==> self.slot(c) == old(self).slot(c),
                forall|c: (int, int)|
                    old(self).in_bounds(c) && c.1 >= y ==> #[trigger] self.slot(c) == old(self).slot(c),
            decreases h - y,
        {
            let mut x: usize = 0;
            while x < w
                invariant
                    old(self).wf(),
                    self.wf(),
                    y < h,
                    x <= w,
                    h == self.height(),
                    w == self.width(),
                    self.chunk_boundaries == old(self).chunk_boundaries,
                    self.updated_cells == old(self).updated_cells,
                    self.parity == old(self).parity,
                    self.number_of_threads == old(self).number_of_threads,
                    forall|c: (int, int)|
                        self.in_bounds(c) && (c.1 < y || c.1 == y && c.0 < x) && (#[trigger] self.slot(c)).is_some() ==> self.slot(c).unwrap().elements_count > 0,
                    forall|c: (int, int)|
                        old(self).in_bounds(c) && old(self).slot(c).is_some() && old(self).slot(c).unwrap().elements_count > 0
                            ==> #[trigger] self.slot(c) == old(self).slot(c),
                    forall|c: (int, int)|
                        old(self).in_bounds(c) && old(self).slot(c).is_none() ==> (#[trigger] self.slot(c)).is_none(),
                    forall|c: (int, int)|
                        old(self).in_bounds(c) && (#[trigger] self.slot(c)).is_some() ==> self.slot(c) == old(self).slot(c),
                    forall|c: (int, int)|
                        old(self).in_bounds(c) && (c.1 > y || c.1 == y && c.0 >= x) ==> #[trigger] self.slot(c) == old(self).slot(c),
                decreases w - x,
            {
                let cord = (x as isize, y as isize);
                let empty = match &self.chunks[y][x] {
                    Some(chunk) => chunk.number_of_elements() == 0,
                    None => false,
                };
                if empty {
                    let ghost before = *self;
                    self.replace_slot(cord, None);
                    proof {
                        assert forall|c: (int, int)| old(self).in_bounds(c) && old(self).slot(c).is_some() && old(self).slot(c).unwrap().elements_count > 0
                            implies #[trigger] self.slot(c) == old(self).slot(c) by {
                            assert(before.slot(c) == old(self).slot(c));
                        }
                        assert forall|c: (int, int)| old(self).in_bounds(c) && (#[trigger] self.slot(c)).is_some() implies self.slot(c) == old(self).slot(c) by {
                            assert(before.slot(c) == self.slot(c));
                        }
                    }
                }
                x += 1;
            }
            y += 1;
        }
    }

    /// Carries out the writes that waited for a chunk: the chunk is created
    /// if it is still missing, and the element is written with the current
    /// parity, so that it takes part in the next tick.
    fn solve_unsolved_action(&mut self, unsolved_actions: Vec<UnsolvedActions>)
        requires
            old(self).wf(),
        ensures
            final(self).wf(),
            final(self).chunk_boundaries == old(self).chunk_boundaries,
            final(self).updated_cells == old(self).updated_cells,
            final(self).parity == old(self).parity,
            final(self).number_of_threads == old(self).number_of_threads,
            forall|c: (int, int)|
                old(self).in_bounds(c) && old(self).slot(c).is_some() ==> (#[trigger] final(self).slot(c)).is_some(),
            forall|i: int|
                0 <= i < unsolved_actions@.len() && !overwritten(unsolved_actions@, i, unsolved_actions@.len() as int)
                    ==> insertion_done(*final(self), #[trigger] unsolved_actions@[i]),
            forall|c: (int, int), x: int, y: int|
                old(self).in_bounds(c) && local_ok((x, y)) && !targeted(*old(self), unsolved_actions@, unsolved_actions@.len() as int, c, (x, y))
                    ==> #[trigger] cell_in(final(self).slot(c), x, y) == cell_in(old(self).slot(c), x, y),
            forall|c: (int, int)|
                old(self).in_bounds(c) && old(self).slot(c).is_some() ==> old(self).slot(c).unwrap().next_rect.covered_by(
                    (#[trigger] final(self).slot(c)).unwrap().next_rect,
                ),
    {
        let ghost acts = unsolved_actions@;
        let mut k: usize = 0;
        while k < unsolved_actions.len()
            invariant
                self.wf(),
                acts == unsolved_actions@,
                k <= acts.len(),
                self.chunk_boundaries == old(self).chunk_boundaries,
                self.updated_cells == old(self).updated_cells,
                self.parity == old(self).parity,
                self.number_of_threads == old(self).number_of_threads,
                forall|c: (int, int)|
                    old(self).in_bounds(c) && old(self).slot(c).is_some() ==> (#[trigger] self.slot(c)).is_some(),
                forall|i: int|
                    0 <= i < k && !overwritten(acts, i, k as int) ==> insertion_done(*self, #[trigger] acts[i]),
                forall|c: (int, int), x: int, y: int|
                    old(self).in_bounds(c) && local_ok((x, y)) && !targeted(*old(self), acts, k as int, c, (x, y))
                        ==> #[trigger] cell_in(self.slot(c), x, y) == cell_in(old(self).slot(c), x, y),
                forall|c: (int, int)|
                    old(self).in_bounds(c) && old(self).slot(c).is_some() ==> old(self).slot(c).unwrap().next_rect.covered_by(
                        (#[trigger] self.slot(c)).unwrap().next_rect,
                    ),
            decreases unsolved_actions@.len() - k,
        {
            let ghost before = *self;
            match unsolved_actions[k] {
                UnsolvedActions::MissingChunkInsertion { chunk_cord, insertion_cord, element_to_insert } => {
                    if 0 <= chunk_cord.0 && chunk_cord.0 < self.chunk_boundaries.bottom_right.0
                        && 0 <= chunk_cord.1 && chunk_cord.1 < self.chunk_boundaries.bottom_right.1
                        && insertion_cord.0 < CHUNK_WIDTH && insertion_cord.1 < CHUNK_HEIGHT {
                        let taken = self.replace_slot(chunk_cord, None);
                        let mut chunk = match taken {
                            Some(c) => c,
                            None => Chunk::new(self.parity),
                        };
                        proof {
                            if taken.is_some() {
                                assert(before.slot(ip(chunk_cord)).is_some());
                            }
                        }
                        let ghost fresh = chunk;
                        chunk.set(insertion_cord, element_to_insert, self.parity);
                        self.replace_slot(chunk_cord, Some(chunk));
                        proof {
                            assert(aims_at(*old(self), acts[k as int], ip(chunk_cord), (insertion_cord.0 as int, insertion_cord.1 as int)));
                            assert forall|c: (int, int), x: int, y: int|
                                old(self).in_bounds(c) && local_ok((x, y)) && !targeted(*old(self), acts, k + 1, c, (x, y))
                                    implies #[trigger] cell_in(self.slot(c), x, y) == cell_in(old(self).slot(c), x, y) by {
                                assert(!targeted(*old(self), acts, k as int, c, (x, y)));
                                assert(cell_in(before.slot(c), x, y) == cell_in(old(self).slot(c), x, y));
                                if c == ip(chunk_cord) {
                                    if (x, y) == (insertion_cord.0 as int, insertion_cord.1 as int) {
                                        assert(aims_at(*old(self), acts[k as int], c, (x, y)));
                                        assert(targeted(*old(self), acts, k + 1, c, (x, y)));
                                    }
                                    assert(self.slot(c) == Some(chunk));
                                    assert(chunk.cell(x, y) == fresh.cell(x, y));
                                    if taken.is_none() {
                                        assert(fresh.cell(x, y).is_none());
                                    } else {
                                        assert(fresh == before.slot(c).unwrap());
                                    }
                                } else {
                                    assert(self.slot(c) == before.slot(c));
                                }
                            }
                            assert forall|c: (int, int)|
                                old(self).in_bounds(c) && old(self).slot(c).is_some() implies old(self).slot(c).unwrap().next_rect.covered_by(
                                    (#[trigger] self.slot(c)).unwrap().next_rect,
                                ) by {
                                if c != ip(chunk_cord) {
                                    assert(self.slot(c) == before.slot(c));
                                } else {
                                    assert forall|z: (int, int)| #[trigger] old(self).slot(c).unwrap().next_rect.contains(z) implies self.slot(c).unwrap().next_rect.contains(z) by {
                                        assert(before.slot(c).unwrap().next_rect.contains(z));
                                    }
                                }
                            }
                            assert forall|i: int|
                                0 <= i < k + 1 && !overwritten(acts, i, k + 1) implies insertion_done(*self, #[trigger] acts[i]) by {
                                if i < k {
                                    if !same_target(acts[i], acts[k as int]) {
                                        assert(!overwritten(acts, i, k as int));
                                        assert(insertion_done(before, acts[i]));
                                        match acts[i] {
                                            UnsolvedActions::MissingChunkInsertion { chunk_cord: c2, insertion_cord: l2, .. } => {
                                                if before.in_bounds(ip(c2)) && ip(c2) != ip(chunk_cord) {
                                                    assert(self.slot(ip(c2)) == before.slot(ip(c2)));
                                                }
                                            },
                                        }
                                    } else {
                                        assert(overwritten(acts, i, k + 1));
                                    }
                                }
                            }
                        }
                    } else {
                        proof {
                            assert forall|i: int|
                                0 <= i < k + 1 && !overwritten(acts, i, k + 1) implies insertion_done(*self, #[trigger] acts[i]) by {
                                if i < k {
                                    assert(!overwritten(acts, i, k as int));
                                }
                            }
                            assert forall|c: (int, int), x: int, y: int|
                                old(self).in_bounds(c) && local_ok((x, y)) && !targeted(*old(self), acts, k + 1, c, (x, y))
                                    implies #[trigger] cell_in(self.slot(c), x, y) == cell_in(old(self).slot(c), x, y) by {
                                assert(!targeted(*old(self), acts, k as int, c, (x, y)));
                            }
                        }
                    }
                },
            }
            k += 1;
        }
    }

    /// Runs the update of the chunk at `cord` over a context holding the
    /// grid, then takes the grid back, appends the context's updated
    /// coordinates to `updated_cells` and its deferred writes to `unsolved`.
    fn run_chunk(&mut self, cord: ChunkCord, unsolved: &mut Vec<UnsolvedActions>)
        requires
            old(self).wf(),
            old(self).in_bounds(ip(cord)),
            old(self).slot(ip(cord)).is_some(),
        ensures
            final(self).wf(),
            final(self).chunk_boundaries == old(self).chunk_boundaries,
            final(self).parity == old(self).parity,
            final(self).number_of_threads == old(self).number_of_threads,
            exists|run: (ChunkContext, ChunkContext)|
                dispatch_ok(*old(self), cord, #[trigger] run.0, run.1) && final(self).chunks == run.1.chunks
                    && final(self).updated_cells@ == old(self).updated_cells@ + run.1.updated_coordinates@
                    && final(unsolved)@ == old(unsolved)@ + run.1.unsolved_actions@,
    {
        let mut grid: Vec<Vec<Option<Chunk>>> = Vec::new();
        std::mem::swap(&mut self.chunks, &mut grid);
        let context = ChunkContext::new(grid, self.chunk_boundaries, cord, self.parity);
        let ghost c0 = context;
        proof {
            let f = Field { chunks: context.chunks, ..*self };
            lemma_context_of_field(f, context);
        }
        let done = update_chunk(context);
        let ghost back = done;
        proof {
            reveal(swept);
        }
        let ChunkContext { chunks, unsolved_actions: waiting, updated_coordinates, .. } = done;
        let ghost before_unsolved = unsolved@;
        let mut k: usize = 0;
        while k < waiting.len()
            invariant
                k <= waiting@.len(),
                waiting@ == back.unsolved_actions@,
                unsolved@ == before_unsolved + waiting@.take(k as int),
            decreases waiting@.len() - k,
        {
            unsolved.push(waiting[k]);
            k += 1;
            proof {
                assert(waiting@.take(k as int) =~= waiting@.take(k - 1).push(waiting@[k - 1]));
            }
        }
        let ghost before_cells = self.updated_cells@;
        let mut k: usize = 0;
        while k < updated_coordinates.len()
            invariant
                k <= updated_coordinates@.len(),
                updated_coordinates@ == back.updated_coordinates@,
                self.updated_cells@ == before_cells + updated_coordinates@.take(k as int),
                self.chunk_boundaries == old(self).chunk_boundaries,
                self.parity == old(self).parity,
                self.number_of_threads == old(self).number_of_threads,
                back.chunk_boundaries == old(self).chunk_boundaries,
            decreases updated_coordinates@.len() - k,
        {
            self.updated_cells.push(updated_coordinates[k]);
            k += 1;
            proof {
                assert(updated_coordinates@.take(k as int) =~= updated_coordinates@.take(k - 1).push(updated_coordinates@[k - 1]));
            }
        }
        self.chunks = chunks;
        proof {
            lemma_field_of_context(back, *self);
            assert(waiting@.take(waiting@.len() as int) =~= waiting@);
            assert(updated_coordinates@.take(updated_coordinates@.len() as int) =~= updated_coordinates@);
            assert(dispatch_ok(*old(self), cord, c0, back));
            let run = (c0, back);
            assert(dispatch_ok(*old(self), cord, run.0, run.1) && self.chunks == run.1.chunks
                && self.updated_cells@ == old(self).updated_cells@ + run.1.updated_coordinates@
                && unsolved@ == old(unsolved)@ + run.1.unsolved_actions@);
        }
    }

    /// Advances the world by one tick: every chunk fixes its sweep area;
    /// each chunk with a non-empty sweep area runs its update (one after
    /// another, row by row); the parity flips; writes that waited for a
    /// missing chunk are made with the new parity; chunks left empty are
    /// dropped.
    #[verifier::rlimit(60)]
    pub fn update(&mut self)
        requires
            old(self).wf(),
        ensures
            final(self).wf(),
            final(self).parity == !old(self).parity,
            forall|c: (int, int)|
                final(self).in_bounds(c) && (#[trigger] final(self).slot(c)).is_some() ==> final(self).slot(c).unwrap().elements_count > 0,
            final(self).chunk_boundaries == old(self).chunk_boundaries,
            exists|committed: Field, d: Seq<(ChunkContext, ChunkContext)>|
                #[trigger] tick_ok(*old(self), committed, d, *final(self)),
    {
        self.update_rects();
        let mut unsolved_actions: Vec<UnsolvedActions> = Vec::new();
        let ghost committed = *self;
        let ghost mut d: Seq<(ChunkContext, ChunkContext)> = Seq::empty();
        let h = self.chunk_boundaries.bottom_right.1 as usize;
        let w = self.chunk_boundaries.bottom_right.0 as usize;
        let mut y: usize = 0;
        while y < h
            invariant
                self.wf(),
                committed.wf(),
                h == self.height(),
                w == self.width(),
                y <= h,
                self.chunk_boundaries == old(self).chunk_boundaries,
                committed.chunk_boundaries == old(self).chunk_boundaries,
                self.parity == old(self).parity,
                committed.parity == old(self).parity,
                self.number_of_threads == old(self).number_of_threads,
                dispatched(committed, d),
                self.chunks == last_grid(committed, d),
                self.updated_cells@ == old(self).updated_cells@ + all_updated(d),
                unsolved_actions@ == all_unsolved(d),
                same_layout(committed, *self),
                forall|c: (int, int)|
                    committed.in_bounds(c) && c.1 < y && committed.slot(c).is_some()
                        && (#[trigger] committed.slot(c)).unwrap().current_update_area.spec_has_value()
                        ==> exists|k: int| 0 <= k < d.len() && ip((#[trigger] d[k]).0.current_chunk_cord) == c,
            decreases h - y,
        {
            let mut x: usize = 0;
            while x < w
                invariant
                    self.wf(),
                    committed.wf(),
                    y < h,
                    x <= w,
                    h == self.height(),
                    w == self.width(),
                    self.chunk_boundaries == old(self).chunk_boundaries,
                    committed.chunk_boundaries == old(self).chunk_boundaries,
                    self.parity == old(self).parity,
                    committed.parity == old(self).parity,
                    self.number_of_threads == old(self).number_of_threads,
                    dispatched(committed, d),
                    self.chunks == last_grid(committed, d),
                    self.updated_cells@ == old(self).updated_cells@ + all_updated(d),
                    unsolved_actions@ == all_unsolved(d),
                    same_layout(committed, *self),
                    forall|c: (int, int)|
                        committed.in_bounds(c) && (c.1 < y || c.1 == y && c.0 < x) && committed.slot(c).is_some()
                            && (#[trigger] committed.slot(c)).unwrap().current_update_area.spec_has_value()
                            ==> exists|k: int| 0 <= k < d.len() && ip((#[trigger] d[k]).0.current_chunk_cord) == c,
                decreases w - x,
            {
                let needs = match &self.chunks[y][x] {
                    Some(chunk) => chunk.needs_updates(),
                    None => false,
                };
                let ghost c_here = (x as int, y as int);
                if needs {
                    let ghost before = *self;
                    let ghost before_unsolved = unsolved_actions@;
                    proof {
                        assert(self.slot(c_here).is_some());
                    }
                    self.run_chunk((x as isize, y as isize), &mut unsolved_actions);
                    proof {
                        let run = choose|run: (ChunkContext, ChunkContext)|
                            dispatch_ok(before, (x as isize, y as isize), #[trigger] run.0, run.1) && self.chunks == run.1.chunks
                                && self.updated_cells@ == before.updated_cells@ + run.1.updated_coordinates@
                                && unsolved_actions@ == before_unsolved + run.1.unsolved_actions@;
                        let old_d = d;
                        d = d.push(run);
                        lemma_extend_trace(committed, old_d, run, before, *self);
                        assert forall|c: (int, int)|
                            committed.in_bounds(c) && (c.1 < y || c.1 == y && c.0 < x + 1) && committed.slot(c).is_some()
                                && (#[trigger] committed.slot(c)).unwrap().current_update_area.spec_has_value()
                                implies exists|k: int| 0 <= k < d.len() && ip((#[trigger] d[k]).0.current_chunk_cord) == c by {
                            if c == c_here {
                                assert(ip(d[old_d.len() as int].0.current_chunk_cord) == c);
                            } else {
                                let k = choose|k: int| 0 <= k < old_d.len() && ip((#[trigger] old_d[k]).0.current_chunk_cord) == c;
                                assert(d[k] == old_d[k]);
                            }
                        }
                    }
                } else {
                    proof {
                        assert forall|c: (int, int)|
                            committed.in_bounds(c) && (c.1 < y || c.1 == y && c.0 < x + 1) && committed.slot(c).is_some()
                                && (#[trigger] committed.slot(c)).unwrap().current_update_area.spec_has_value()
                                implies exists|k: int| 0 <= k < d.len() && ip((#[trigger] d[k]).0.current_chunk_cord) == c by {
                            if c == c_here {
                                assert(self.slot(c).is_some());
                            }
                        }
                    }
                }
                x += 1;
            }
            y += 1;
        }
        let ghost before_flip = *self;
        self.parity = !self.parity;
        proof {
            lemma_field_same_grid(before_flip, *self);
        }
        let ghost before_solve = *self;
        self.solve_unsolved_action(unsolved_actions);
        let ghost solved = *self;
        self.remove_empty_chunks();
        proof {
            lemma_insertions_survive(solved, *self, all_unsolved(d));
            let acts = all_unsolved(d);
            let last = last_field(committed, d);
            assert forall|c: (int, int), x: int, y: int|
                committed.in_bounds(c) && local_ok((x, y)) && !targeted(committed, acts, acts.len() as int, c, (x, y))
                    implies #[trigger] cell_in(self.slot(c), x, y) == cell_in(last.slot(c), x, y) by {
                lemma_targeted_same(committed, before_solve, acts, acts.len() as int, c, (x, y));
                assert(before_solve.slot(c) == last.slot(c));
                assert(cell_in(solved.slot(c), x, y) == cell_in(before_solve.slot(c), x, y));
                if self.slot(c).is_none() && solved.slot(c).is_some() {
                    if solved.slot(c).unwrap().cell(x, y).is_some() {
                        crate::chunk::lemma_count_positive(solved.slot(c).unwrap(), x, y);
                    }
                }
            }
            assert forall|c: (int, int)|
                committed.in_bounds(c) && last.slot(c).is_some() && (#[trigger] self.slot(c)).is_some()
                    implies last.slot(c).unwrap().next_rect.covered_by(self.slot(c).unwrap().next_rect) by {
                assert(before_solve.slot(c) == last.slot(c));
                assert(self.slot(c) == solved.slot(c));
            }
            assert(tick_ok(*old(self), committed, d, *self));
        }
    }
}

/// The grid after the dispatched chunk updates `d`, starting from `committed`.
pub open spec fn last_grid(committed: Field, d: Seq<(ChunkContext, ChunkContext)>) -> Vec<Vec<Option<Chunk>>> {
    if d.len() == 0 {
        committed.chunks
    } else {
        d.last().1.chunks
    }
}

/// The positions recorded by the chunk updates `d`, in order.
pub open spec fn all_updated(d: Seq<(ChunkContext, ChunkContext)>) -> Seq<(isize, isize)>
    decreases d.len(),
{
    if d.len() == 0 {
        Seq::empty()
    } else {
        all_updated(d.drop_last()) + d.last().1.updated_coordinates@
    }
}

/// The deferred writes of the chunk updates `d`, in order.
pub open spec fn all_unsolved(d: Seq<(ChunkContext, ChunkContext)>) -> Seq<UnsolvedActions>
    decreases d.len(),
{
    if d.len() == 0 {
        Seq::empty()
    } else {
        all_unsolved(d.drop_last()) + d.last().1.unsolved_actions@
    }
}

/// `c0` is the context for the chunk at `cord` of `f` with fresh records,
/// and `r` is what its sweep left (`update_chunk`'s postcondition).
pub open spec fn dispatch_ok(f: Field, cord: ChunkCord, c0: ChunkContext, r: ChunkContext) -> bool {
    &&& c0.chunks == f.chunks
    &&& c0.chunk_boundaries == f.chunk_boundaries
    &&& c0.current_chunk_cord == cord
    &&& c0.parity == f.parity
    &&& c0.unsolved_actions@.len() == 0
    &&& c0.updated_coordinates@.len() == 0
    &&& c0.wf()
    &&& swept(c0, r)
}

/// Each chunk update of `d` started from the grid the one before left, was
/// for a chunk whose sweep area this tick is not empty, and ran its sweep.
pub open spec fn dispatched(committed: Field, d: Seq<(ChunkContext, ChunkContext)>) -> bool {
    forall|k: int|
        0 <= k < d.len() ==> {
            &&& (#[trigger] d[k]).0.chunks == last_grid(committed, d.take(k))
            &&& d[k].0.chunk_boundaries == committed.chunk_boundaries
            &&& d[k].0.parity == committed.parity
            &&& d[k].0.unsolved_actions@.len() == 0
            &&& d[k].0.updated_coordinates@.len() == 0
            &&& d[k].0.wf()
            &&& swept(d[k].0, d[k].1)
            &&& committed.slot(ip(d[k].0.current_chunk_cord)).unwrap().current_update_area.spec_has_value()
        }
}

/// `f` has the chunks of `committed`, with the same sweep areas.
pub open spec fn same_layout(committed: Field, f: Field) -> bool {
    forall|c: (int, int)|
        committed.in_bounds(c) ==> (#[trigger] f.slot(c)).is_some() == committed.slot(c).is_some() && (
        f.slot(c).is_some() ==> f.slot(c).unwrap().current_update_area == committed.slot(
            c,
        ).unwrap().current_update_area)
}

/// One tick from `before` to `after`: `committed` is `before` with every
/// chunk's gathered area made its sweep area; `d` are the chunk updates,
/// one for every chunk with a non-empty sweep area, in order; the updated
/// positions are those of `before` followed by those of each update; every
/// deferred write that no later one overrides is in place with the new
/// parity.
pub open spec fn tick_ok(before: Field, committed: Field, d: Seq<(ChunkContext, ChunkContext)>, after: Field) -> bool {
    &&& committed.chunk_boundaries == before.chunk_boundaries
    &&& committed.parity == before.parity
    &&& forall|c: (int, int)|
        before.in_bounds(c) ==> (#[trigger] committed.slot(c)).is_some() == before.slot(c).is_some() && (
        committed.slot(c).is_some() ==> committed_chunk(before.slot(c).unwrap(), committed.slot(c).unwrap()))
    &&& dispatched(committed, d)
    &&& forall|c: (int, int)|
        committed.in_bounds(c) && committed.slot(c).is_some()
            && (#[trigger] committed.slot(c)).unwrap().current_update_area.spec_has_value()
            ==> exists|k: int| 0 <= k < d.len() && ip((#[trigger] d[k]).0.current_chunk_cord) == c
    &&& after.updated_cells@ == before.updated_cells@ + all_updated(d)
    &&& forall|i: int|
        0 <= i < all_unsolved(d).len() && !overwritten(all_unsolved(d), i, all_unsolved(d).len() as int)
            ==> insertion_done(after, #[trigger] all_unsolved(d)[i])
    &&& forall|c: (int, int), x: int, y: int|
        committed.in_bounds(c) && local_ok((x, y)) && !targeted(committed, all_unsolved(d), all_unsolved(d).len() as int, c, (x, y))
            ==> #[trigger] cell_in(after.slot(c), x, y) == cell_in(last_field(committed, d).slot(c), x, y)
    &&& forall|c: (int, int)|
        committed.in_bounds(c) && last_field(committed, d).slot(c).is_some() && (#[trigger] after.slot(c)).is_some()
            ==> last_field(committed, d).slot(c).unwrap().next_rect.covered_by(after.slot(c).unwrap().next_rect)
}

/// The world as the last chunk update of `d` left it.
pub open spec fn last_field(committed: Field, d: Seq<(ChunkContext, ChunkContext)>) -> Field {
    Field { chunks: last_grid(committed, d), ..committed }
}

proof fn lemma_targeted_same(f1: Field, f2: Field, acts: Seq<UnsolvedActions>, k: int, c: (int, int), l: (int, int))
    requires
        f1.chunk_boundaries == f2.chunk_boundaries,
    ensures
        targeted(f1, acts, k, c, l) == targeted(f2, acts, k, c, l),
{
    if targeted(f1, acts, k, c, l) {
        let i = choose|i: int| 0 <= i < k && #[trigger] aims_at(f1, acts[i], c, l);
        assert(aims_at(f2, acts[i], c, l));
    }
    if targeted(f2, acts, k, c, l) {
        let i = choose|i: int| 0 <= i < k && #[trigger] aims_at(f2, acts[i], c, l);
        assert(aims_at(f1, acts[i], c, l));
    }
}

/// Adding one more chunk update to the trace keeps it in order.
proof fn lemma_extend_trace(
    committed: Field,
    d: Seq<(ChunkContext, ChunkContext)>,
    run: (ChunkContext, ChunkContext),
    before: Field,
    after: Field,
)
    requires
        committed.wf(),
        before.wf(),
        dispatched(committed, d),
        before.chunks == last_grid(committed, d),
        before.chunk_boundaries == committed.chunk_boundaries,
        before.parity == committed.parity,
        same_layout(committed, before),
        dispatch_ok(before, run.0.current_chunk_cord, run.0, run.1),
        before.in_bounds(ip(run.0.current_chunk_cord)),
        before.slot(ip(run.0.current_chunk_cord)).is_some(),
        before.slot(ip(run.0.current_chunk_cord)).unwrap().current_update_area.spec_has_value(),
        after.chunks == run.1.chunks,
        after.chunk_boundaries == before.chunk_boundaries,
    ensures
        dispatched(committed, d.push(run)),
        after.chunks == last_grid(committed, d.push(run)),
        all_updated(d.push(run)) == all_updated(d) + run.1.updated_coordinates@,
        all_unsolved(d.push(run)) == all_unsolved(d) + run.1.unsolved_actions@,
        same_layout(committed, after),
{
    let e = d.push(run);
    assert(e.drop_last() =~= d);
    assert(e.take(d.len() as int) =~= d);
    reveal(swept);
    assert forall|k: int| 0 <= k < d.len() implies #[trigger] e.take(k) == d.take(k) by {
        assert(e.take(k) =~= d.take(k));
    }
    assert forall|c: (int, int)| committed.in_bounds(c) implies (#[trigger] after.slot(c)).is_some() == committed.slot(c).is_some() && (
        after.slot(c).is_some() ==> after.slot(c).unwrap().current_update_area == committed.slot(c).unwrap().current_update_area) by {
        assert(run.0.slot(c) == before.slot(c));
        assert(run.1.slot(c) == after.slot(c));
    }
}

/// Dropping empty chunks keeps every deferred write that is in place.
proof fn lemma_insertions_survive(solved: Field, after: Field, acts: Seq<UnsolvedActions>)
    requires
        solved.wf(),
        after.chunk_boundaries == solved.chunk_boundaries,
        after.parity == solved.parity,
        forall|c: (int, int)|
            solved.in_bounds(c) && solved.slot(c).is_some() && solved.slot(c).unwrap().elements_count > 0
                ==> #[trigger] after.slot(c) == solved.slot(c),
    ensures
        forall|i: int| 0 <= i < acts.len() && insertion_done(solved, acts[i]) ==> insertion_done(after, #[trigger] acts[i]),
{
    assert forall|i: int| 0 <= i < acts.len() && insertion_done(solved, acts[i]) implies insertion_done(after, #[trigger] acts[i]) by {
        match acts[i] {
            UnsolvedActions::MissingChunkInsertion { chunk_cord, insertion_cord, .. } => {
                if solved.in_bounds(ip(chunk_cord)) && insertion_cord.0 < CHUNK_WIDTH && insertion_cord.1 < CHUNK_HEIGHT {
                    let c = solved.slot(ip(chunk_cord)).unwrap();
                    crate::chunk::lemma_count_positive(c, insertion_cord.0 as int, insertion_cord.1 as int);
                }
            },
        }
    }
}

/// The colour shown for a cell: its element's, or transparent black.
pub open spec fn pixel_color(c: Option<Element>) -> [u8; 4] {
    match c {
        Some(e) => e.spec_color(),
        None => [0x00u8, 0x00u8, 0x00u8, 0x00u8],
    }
}

/// The world rectangle covered by the chunk at `c`.
pub open spec fn chunk_rect(c: (int, int)) -> Rect {
    Rect {
        top_left: ((c.0 * 32) as isize, (c.1 * 32) as isize),
        bottom_right: (((c.0 + 1) * 32) as isize, ((c.1 + 1) * 32) as isize),
    }
}

/// The world rectangle of the sweep area of `chunk`, at `c`.
pub open spec fn sweep_rect(c: (int, int), chunk: Chunk) -> Rect {
    Rect {
        top_left: (
            (c.0 * 32 + chunk.current_update_area.top_left.0) as isize,
            (c.1 * 32 + chunk.current_update_area.top_left.1) as isize,
        ),
        bottom_right: (
            (c.0 * 32 + chunk.current_update_area.bottom_right.0) as isize,
            (c.1 * 32 + chunk.current_update_area.bottom_right.1) as isize,
        ),
    }
}

impl Field {
    /// Hands out every position changed since the last call, with the
    /// colour it has now, and forgets them.
    pub fn load_pixels(&mut self) -> (r: Vec<((isize, isize), [u8; 4])>)
        requires
            old(self).wf(),
        ensures
            final(self).wf(),
            final(self).chunks == old(self).chunks,
            final(self).chunk_boundaries == old(self).chunk_boundaries,
            final(self).parity == old(self).parity,
            final(self).number_of_threads == old(self).number_of_threads,
            final(self).updated_cells@.len() == 0,
            r@.len() == old(self).updated_cells@.len(),
            forall|i: int|
                0 <= i < r@.len() ==> #[trigger] r@[i] == (
                    old(self).updated_cells@[i],
                    pixel_color(old(self).cell(ip(old(self).updated_cells@[i]))),
                ),
    {
        let mut result: Vec<((isize, isize), [u8; 4])> = Vec::new();
        let mut i: usize = 0;
        while i < self.updated_cells.len()
            invariant
                self.wf(),
                i <= self.updated_cells@.len(),
                result@.len() == i,
                forall|j: int|
                    0 <= j < i ==> #[trigger] result@[j] == (
                        self.updated_cells@[j],
                        pixel_color(self.cell(ip(self.updated_cells@[j]))),
                    ),
            decreases self.updated_cells@.len() - i,
        {
            let updated_pix = self.updated_cells[i];
            let color = match self.get(updated_pix) {
                Some(element) => element.get_color(),
                None => [0x00, 0x00, 0x00, 0x00],
            };
            result.push((updated_pix, color));
            i += 1;
        }
        let ghost before = *self;
        self.updated_cells.clear();
        proof {
            lemma_field_same_grid(before, *self);
        }
        result
    }

    /// Places `element` (or empties, for `None`) in every cell of the
    /// rectangle of `size` centred on `position`, clipped to the world.
    pub fn set_in_area(&mut self, position: (isize, isize), size: (usize, usize), element: Option<Element>)
        requires
            old(self).wf(),
        ensures
            final(self).wf(),
            final(self).chunk_boundaries == old(self).chunk_boundaries,
            final(self).parity == old(self).parity,
            forall|q: (int, int)| #[trigger] final(self).cell(q) == if old(self).in_world(q) && in_brush(position, size, q) {
                element
            } else {
                old(self).cell(q)
            },
    {
        let world_bottom = self.chunk_boundaries.bottom_right.1 * CHUNK_HEIGHT as isize;
        let world_right = self.chunk_boundaries.bottom_right.0 * CHUNK_WIDTH as isize;
        let top = clip(position.1 as i128 - (size.1 / 2) as i128, world_bottom as i128) as isize;
        let left = clip(position.0 as i128 - (size.0 / 2) as i128, world_right as i128) as isize;
        let bottom = clip(position.1 as i128 + (size.1 / 2) as i128 + (size.1 % 2) as i128, world_bottom as i128) as isize;
        let right = clip(position.0 as i128 + (size.0 / 2) as i128 + (size.0 % 2) as i128, world_right as i128) as isize;
        let mut y = top;
        while y < bottom
            invariant
                self.wf(),
                self.chunk_boundaries == old(self).chunk_boundaries,
                self.parity == old(self).parity,
                world_bottom == self.height() * 32,
                world_right == self.width() * 32,
                0 <= top <= y,
                0 <= left,
                y <= bottom || top >= bottom,
                bottom <= world_bottom,
                right <= world_right,
                top as int == spec_clip(position.1 - size.1 / 2, world_bottom as int),
                left as int == spec_clip(position.0 - size.0 / 2, world_right as int),
                bottom as int == spec_clip(position.1 + size.1 / 2 + size.1 % 2, world_bottom as int),
                right as int == spec_clip(position.0 + size.0 / 2 + size.0 % 2, world_right as int),
                forall|q: (int, int)| #[trigger] self.cell(q) == if old(self).in_world(q) && in_brush(position, size, q) && q.1 < y {
                    element
                } else {
                    old(self).cell(q)
                },
            decreases bottom - y,
        {
            proof {
                assert forall|q: (int, int)| #[trigger] self.cell(q) == if old(self).in_world(q) && in_brush(position, size, q) && (q.1 < y || q.1 == y && q.0 < left) {
                    element
                } else {
                    old(self).cell(q)
                } by {
                    lemma_in_world(*old(self), q);
                }
            }
            let mut x = left;
            while x < right
                invariant
                    self.wf(),
                    self.chunk_boundaries == old(self).chunk_boundaries,
                    self.parity == old(self).parity,
                    world_bottom == self.height() * 32,
                    world_right == self.width() * 32,
                    0 <= top <= y < bottom,
                    0 <= left <= x,
                    left <= world_right,
                    x <= right || left >= right,
                    bottom <= world_bottom,
                    right <= world_right,
                    top as int == spec_clip(position.1 - size.1 / 2, world_bottom as int),
                    left as int == spec_clip(position.0 - size.0 / 2, world_right as int),
                    bottom as int == spec_clip(position.1 + size.1 / 2 + size.1 % 2, world_bottom as int),
                    right as int == spec_clip(position.0 + size.0 / 2 + size.0 % 2, world_right as int),
                    forall|q: (int, int)| #[trigger] self.cell(q) == if old(self).in_world(q) && in_brush(position, size, q) && (q.1 < y || q.1 == y && q.0 < x) {
                        element
                    } else {
                        old(self).cell(q)
                    },
                decreases right - x,
            {
                let ghost before = *self;
                self.set((x, y), element);
                proof {
                    lemma_in_world(*old(self), (x as int, y as int));
                    assert(old(self).in_world((x as int, y as int)));
                    assert(in_brush(position, size, (x as int, y as int)));
                    assert forall|q: (int, int)| #[trigger] self.cell(q) == if old(self).in_world(q) && in_brush(position, size, q) && (q.1 < y || q.1 == y && q.0 < x + 1) {
                        element
                    } else {
                        old(self).cell(q)
                    } by {
                        lemma_in_world(*old(self), q);
                        if q != (x as int, y as int) {
                            assert(self.cell(q) == before.cell(q));
                        }
                    }
                }
                x += 1;
            }
            proof {
                assert forall|q: (int, int)| #[trigger] self.cell(q) == if old(self).in_world(q) && in_brush(position, size, q) && q.1 < y + 1 {
                    element
                } else {
                    old(self).cell(q)
                } by {
                    lemma_in_world(*old(self), q);
                }
            }
            y += 1;
        }
        proof {
            assert forall|q: (int, int)| #[trigger] self.cell(q) == if old(self).in_world(q) && in_brush(position, size, q) {
                element
            } else {
                old(self).cell(q)
            } by {
                lemma_in_world(*old(self), q);
            }
        }
    }

    /// `r` is the world rectangle of an existing chunk.
    pub open spec fn is_chunk_rect(self, r: Rect) -> bool {
        exists|c: (int, int)| self.in_bounds(c) && self.slot(c).is_some() && r == #[trigger] chunk_rect(c)
    }

    /// `r` is the world rectangle of the sweep area of an existing chunk.
    pub open spec fn is_sweep_rect(self, r: Rect) -> bool {
        exists|c: (int, int)|
            self.in_bounds(c) && self.slot(c).is_some() && r == #[trigger] sweep_rect(c, self.slot(c).unwrap())
    }

    /// The world rectangle of every existing chunk, row by row.
    pub fn get_chunks(&self) -> (r: Vec<Rect>)
        requires
            self.wf(),
        ensures
            forall|i: int| 0 <= i < r@.len() ==> self.is_chunk_rect(#[trigger] r@[i]),
            forall|c: (int, int)|
                self.in_bounds(c) && #[trigger] self.slot(c).is_some() ==> r@.contains(chunk_rect(c)),
    {
        let mut rects: Vec<Rect> = Vec::new();
        let h = self.chunk_boundaries.bottom_right.1;
        let w = self.chunk_boundaries.bottom_right.0;
        let mut y: isize = 0;
        while y < h
            invariant
                self.wf(),
                h == self.height(),
                w == self.width(),
                0 <= y <= h,
                forall|i: int| 0 <= i < rects@.len() ==> self.is_chunk_rect(#[trigger] rects@[i]),
                forall|c: (int, int)|
                    self.in_bounds(c) && c.1 < y && #[trigger] self.slot(c).is_some() ==> rects@.contains(chunk_rect(c)),
            decreases h - y,
        {
            let mut x: isize = 0;
            while x < w
                invariant
                    self.wf(),
                    h == self.height(),
                    w == self.width(),
                    0 <= y < h,
                    0 <= x <= w,
                    forall|i: int| 0 <= i < rects@.len() ==> self.is_chunk_rect(#[trigger] rects@[i]),
                    forall|c: (int, int)|
                        self.in_bounds(c) && (c.1 < y || c.1 == y && c.0 < x) && #[trigger] self.slot(c).is_some()
                            ==> rects@.contains(chunk_rect(c)),
                decreases w - x,
            {
                if self.chunks[y as usize][x as usize].is_some() {
                    let ghost old_rects = rects@;
                    let ghost c0 = (x as int, y as int);
                    rects.push(Rect::from((x * 32, y * 32), ((x + 1) * 32, (y + 1) * 32)));
                    proof {
                        assert(self.slot(c0).is_some());
                        assert(rects@[old_rects.len() as int] == chunk_rect(c0));
                        assert(self.is_chunk_rect(chunk_rect(c0)));
                        assert forall|i: int| 0 <= i < rects@.len() implies self.is_chunk_rect(#[trigger] rects@[i]) by {
                            if i < old_rects.len() {
                                assert(rects@[i] == old_rects[i]);
                            }
                        }
                        assert forall|c: (int, int)|
                            self.in_bounds(c) && (c.1 < y || c.1 == y && c.0 < x + 1) && #[trigger] self.slot(c).is_some()
                                implies rects@.contains(chunk_rect(c)) by {
                            if c == c0 {
                                assert(rects@[old_rects.len() as int] == chunk_rect(c));
                            } else {
                                assert(old_rects.contains(chunk_rect(c)));
                                let i = choose|i: int| 0 <= i < old_rects.len() && old_rects[i] == chunk_rect(c);
                                assert(rects@[i] == old_rects[i]);
                            }
                        }
                    }
                }
                x += 1;
            }
            y += 1;
        }
        rects
    }

    /// The world rectangle of the sweep area of every existing chunk, row
    /// by row.
    pub fn get_chunks_update_rects(&self) -> (r: Vec<Rect>)
        requires
            self.wf(),
        ensures
            forall|i: int| 0 <= i < r@.len() ==> self.is_sweep_rect(#[trigger] r@[i]),
            forall|c: (int, int)|
                self.in_bounds(c) && #[trigger] self.slot(c).is_some() ==> r@.contains(
                    sweep_rect(c, self.slot(c).unwrap()),
                ),
    {
        let mut rects: Vec<Rect> = Vec::new();
        let h = self.chunk_boundaries.bottom_right.1;
        let w = self.chunk_boundaries.bottom_right.0;
        let mut y: isize = 0;
        while y < h
            invariant
                self.wf(),
                h == self.height(),
                w == self.width(),
                0 <= y <= h,
                forall|i: int| 0 <= i < rects@.len() ==> self.is_sweep_rect(#[trigger] rects@[i]),
                forall|c: (int, int)|
                    self.in_bounds(c) && c.1 < y && #[trigger] self.slot(c).is_some() ==> rects@.contains(
                        sweep_rect(c, self.slot(c).unwrap()),
                    ),
            decreases h - y,
        {
            let mut x: isize = 0;
            while x < w
                invariant
                    self.wf(),
                    h == self.height(),
                    w == self.width(),
                    0 <= y < h,
                    0 <= x <= w,
                    forall|i: int| 0 <= i < rects@.len() ==> self.is_sweep_rect(#[trigger] rects@[i]),
                    forall|c: (int, int)|
                        self.in_bounds(c) && (c.1 < y || c.1 == y && c.0 < x) && #[trigger] self.slot(c).is_some()
                            ==> rects@.contains(sweep_rect(c, self.slot(c).unwrap())),
                decreases w - x,
            {
                match &self.chunks[y as usize][x as usize] {
                    Some(chunk) => {
                        let ghost c0 = (x as int, y as int);
                        proof {
                            assert(self.slot(c0).is_some());
                        }
                        let area = chunk.get_update_rect();
                        let ghost old_rects = rects@;
                        rects.push(Rect::from(
                            (x * 32 + area.left(), y * 32 + area.top()),
                            (x * 32 + area.right(), y * 32 + area.bottom()),
                        ));
                        proof {
                            assert(rects@[old_rects.len() as int] == sweep_rect(c0, self.slot(c0).unwrap()));
                            assert(self.is_sweep_rect(sweep_rect(c0, self.slot(c0).unwrap())));
                            assert forall|i: int| 0 <= i < rects@.len() implies self.is_sweep_rect(#[trigger] rects@[i]) by {
                                if i < old_rects.len() {
                                    assert(rects@[i] == old_rects[i]);
                                }
                            }
                            assert forall|c: (int, int)|
                                self.in_bounds(c) && (c.1 < y || c.1 == y && c.0 < x + 1) && #[trigger] self.slot(c).is_some()
                                    implies rects@.contains(sweep_rect(c, self.slot(c).unwrap())) by {
                                if c == c0 {
                                    assert(rects@[old_rects.len() as int] == sweep_rect(c, self.slot(c).unwrap()));
                                } else {
                                    assert(old_rects.contains(sweep_rect(c, self.slot(c).unwrap())));
                                    let i = choose|i: int| 0 <= i < old_rects.len() && old_rects[i] == sweep_rect(c, self.slot(c).unwrap());
                                    assert(rects@[i] == old_rects[i]);
                                }
                            }
                        }
                    },
                    None => {},
                }
                x += 1;
            }
            y += 1;
        }
        rects
    }
}

} // verus!
