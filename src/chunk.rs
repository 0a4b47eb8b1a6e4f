use vstd::prelude::*;
use crate::elements::Element;
use crate::neighbours::Neighbours;
use crate::rect::{Rect, RectIterator, lemma_expand_within};

verus! {

pub const CHUNK_WIDTH: usize = 32;

pub const CHUNK_HEIGHT: usize = 32;

/// A position inside a chunk: column, then row.
pub type CordInChunk = (usize, usize);

/// A tile of `CHUNK_WIDTH` by `CHUNK_HEIGHT` cells, with a parity flag per
/// cell, the area to sweep in this tick and the area gathered for the next.
pub struct Chunk {
    /// Rows of cells.
    pub field: Vec<Vec<Option<Element>>>,
    /// Rows of parity flags.
    pub field_parity: Vec<Vec<bool>>,
    pub current_update_area: Rect,
    pub next_rect: Rect,
    pub elements_count: usize,
}

/// The number of occupied cells in a row.
pub open spec fn occupied_in(row: Seq<Option<Element>>) -> int
    decreases row.len(),
{
    if row.len() == 0 {
        0
    } else {
        occupied_in(row.drop_last()) + if row.last().is_some() { 1int } else { 0int }
    }
}

/// The number of occupied cells in a grid of rows.
pub open spec fn occupied_rows(rows: Seq<Vec<Option<Element>>>) -> int
    decreases rows.len(),
{
    if rows.len() == 0 {
        0
    } else {
        occupied_rows(rows.drop_last()) + occupied_in(rows.last()@)
    }
}

pub open spec fn indicator(c: Option<Element>) -> int {
    if c.is_some() { 1 } else { 0 }
}

pub proof fn lemma_occupied_in_bounds(row: Seq<Option<Element>>)
    ensures
        0 <= occupied_in(row) <= row.len(),
    decreases row.len(),
{
    if row.len() > 0 {
        lemma_occupied_in_bounds(row.drop_last());
    }
}

pub proof fn lemma_occupied_in_update(row: Seq<Option<Element>>, i: int, v: Option<Element>)
    requires
        0 <= i < row.len(),
    ensures
        occupied_in(row.update(i, v)) == occupied_in(row) - indicator(row[i]) + indicator(v),
    decreases row.len(),
{
    let r2 = row.update(i, v);
    if i == row.len() - 1 {
        assert(r2.drop_last() =~= row.drop_last());
    } else {
        assert(r2.drop_last() =~= row.drop_last().update(i, v));
        lemma_occupied_in_update(row.drop_last(), i, v);
    }
}

pub proof fn lemma_occupied_rows_update(
    rows: Seq<Vec<Option<Element>>>,
    y: int,
    new_row: Vec<Option<Element>>,
)
    requires
        0 <= y < rows.len(),
    ensures
        occupied_rows(rows.update(y, new_row)) == occupied_rows(rows) - occupied_in(rows[y]@)
            + occupied_in(new_row@),
    decreases rows.len(),
{
    let r2 = rows.update(y, new_row);
    if y == rows.len() - 1 {
        assert(r2.drop_last() =~= rows.drop_last());
    } else {
        assert(r2.drop_last() =~= rows.drop_last().update(y, new_row));
        lemma_occupied_rows_update(rows.drop_last(), y, new_row);
    }
}

pub proof fn lemma_occupied_rows_bounds(rows: Seq<Vec<Option<Element>>>)
    requires
        forall|y: int| 0 <= y < rows.len() ==> rows[y]@.len() == CHUNK_WIDTH,
    ensures
        0 <= occupied_rows(rows) <= rows.len() * CHUNK_WIDTH,
    decreases rows.len(),
{
    if rows.len() > 0 {
        lemma_occupied_rows_bounds(rows.drop_last());
        lemma_occupied_in_bounds(rows.last()@);
    }
}

pub proof fn lemma_occupied_rows_ge_row(rows: Seq<Vec<Option<Element>>>, y: int)
    requires
        0 <= y < rows.len(),
    ensures
        occupied_rows(rows) >= occupied_in(rows[y]@),
    decreases rows.len(),
{
    lemma_occupied_rows_nonneg(rows.drop_last());
    if y < rows.len() - 1 {
        lemma_occupied_rows_ge_row(rows.drop_last(), y);
        lemma_occupied_in_bounds(rows.last()@);
    }
}

pub proof fn lemma_occupied_rows_nonneg(rows: Seq<Vec<Option<Element>>>)
    ensures
        occupied_rows(rows) >= 0,
    decreases rows.len(),
{
    if rows.len() > 0 {
        lemma_occupied_rows_nonneg(rows.drop_last());
        lemma_occupied_in_bounds(rows.last()@);
    }
}

/// A chunk with an element in it is not empty.
pub proof fn lemma_count_positive(c: Chunk, x: int, y: int)
    requires
        c.wf(),
        local_ok((x, y)),
        c.cell(x, y).is_some(),
    ensures
        c.elements_count > 0,
{
    lemma_occupied_in_update(c.field@[y]@, x, None);
    lemma_occupied_in_bounds(c.field@[y]@.update(x, None));
    lemma_occupied_rows_ge_row(c.field@, y);
}

pub proof fn lemma_empty_row(row: Seq<Option<Element>>)
    requires
        forall|x: int| 0 <= x < row.len() ==> row[x].is_none(),
    ensures
        occupied_in(row) == 0,
    decreases row.len(),
{
    if row.len() > 0 {
        lemma_empty_row(row.drop_last());
    }
}

pub proof fn lemma_empty_rows(rows: Seq<Vec<Option<Element>>>)
    requires
        forall|y: int, x: int| 0 <= y < rows.len() && 0 <= x < rows[y]@.len() ==> rows[y]@[x].is_none(),
    ensures
        occupied_rows(rows) == 0,
    decreases rows.len(),
{
    if rows.len() > 0 {
        lemma_empty_rows(rows.drop_last());
        lemma_empty_row(rows.last()@);
    }
}

pub open spec fn local_ok(p: (int, int)) -> bool {
    0 <= p.0 < CHUNK_WIDTH && 0 <= p.1 < CHUNK_HEIGHT
}

impl Chunk {
    pub open spec fn cell(self, x: int, y: int) -> Option<Element> {
        self.field@[y]@[x]
    }

    pub open spec fn par(self, x: int, y: int) -> bool {
        self.field_parity@[y]@[x]
    }

    pub open spec fn occupied(self) -> int {
        occupied_rows(self.field@)
    }

    pub open spec fn next_has(self, x: int, y: int) -> bool {
        self.next_rect.contains((x, y))
    }

    pub open spec fn shape_ok(self) -> bool {
        &&& self.field@.len() == CHUNK_HEIGHT
        &&& self.field_parity@.len() == CHUNK_HEIGHT
        &&& forall|y: int| 0 <= y < CHUNK_HEIGHT ==> #[trigger] self.field@[y]@.len() == CHUNK_WIDTH
        &&& forall|y: int|
            0 <= y < CHUNK_HEIGHT ==> #[trigger] self.field_parity@[y]@.len() == CHUNK_WIDTH
    }

    pub open spec fn wf(self) -> bool {
        &&& self.field@.len() == CHUNK_HEIGHT
        &&& self.field_parity@.len() == CHUNK_HEIGHT
        &&& forall|y: int| 0 <= y < CHUNK_HEIGHT ==> #[trigger] self.field@[y]@.len() == CHUNK_WIDTH
        &&& forall|y: int|
            0 <= y < CHUNK_HEIGHT ==> #[trigger] self.field_parity@[y]@.len() == CHUNK_WIDTH
        &&& self.elements_count == self.occupied()
        &&& self.current_update_area.within(CHUNK_WIDTH as int, CHUNK_HEIGHT as int)
        &&& self.next_rect.within(CHUNK_WIDTH as int, CHUNK_HEIGHT as int)
    }

    /// An empty chunk whose cells all carry `parity`.
    pub fn new(parity: bool) -> (r: Chunk)
        ensures
            r.wf(),
            r.elements_count == 0,
            forall|x: int, y: int| local_ok((x, y)) ==> #[trigger] r.cell(x, y).is_none() && r.par(x, y) == parity,
            !r.current_update_area.spec_has_value(),
            !r.next_rect.spec_has_value(),
    {
        let mut field: Vec<Vec<Option<Element>>> = Vec::new();
        let mut field_parity: Vec<Vec<bool>> = Vec::new();
        let mut y: usize = 0;
        while y < CHUNK_HEIGHT
            invariant
                y <= CHUNK_HEIGHT,
                field@.len() == y,
                field_parity@.len() == y,
                forall|j: int| 0 <= j < y ==> #[trigger] field@[j]@.len() == CHUNK_WIDTH,
                forall|j: int| 0 <= j < y ==> #[trigger] field_parity@[j]@.len() == CHUNK_WIDTH,
                forall|j: int, x: int| 0 <= j < y && 0 <= x < CHUNK_WIDTH ==> field@[j]@[x].is_none(),
                forall|j: int, x: int|
                    0 <= j < y && 0 <= x < CHUNK_WIDTH ==> field_parity@[j]@[x] == parity,
            decreases CHUNK_HEIGHT - y,
        {
            let mut row: Vec<Option<Element>> = Vec::new();
            let mut row_parity: Vec<bool> = Vec::new();
            let mut x: usize = 0;
            while x < CHUNK_WIDTH
                invariant
                    x <= CHUNK_WIDTH,
                    row@.len() == x,
                    row_parity@.len() == x,
                    forall|i: int| 0 <= i < x ==> row@[i].is_none(),
                    forall|i: int| 0 <= i < x ==> row_parity@[i] == parity,
                decreases CHUNK_WIDTH - x,
            {
                row.push(None);
                row_parity.push(parity);
                x += 1;
            }
            field.push(row);
            field_parity.push(row_parity);
            y += 1;
        }
        proof {
            lemma_empty_rows(field@);
        }
        Chunk {
            field,
            field_parity,
            current_update_area: Rect::new(),
            next_rect: Rect::new(),
            elements_count: 0,
        }
    }

    fn set_value(&mut self, position: CordInChunk, element: Option<Element>)
        requires
            old(self).shape_ok(),
            local_ok((position.0 as int, position.1 as int)),
        ensures
            final(self).shape_ok(),
            final(self).field@[position.1 as int]@ == old(self).field@[position.1 as int]@.update(
                position.0 as int,
                element,
            ),
            forall|j: int|
                0 <= j < CHUNK_HEIGHT && j != position.1 ==> #[trigger] final(self).field@[j]
                    == old(self).field@[j],
            final(self).field@ == old(self).field@.update(
                position.1 as int,
                final(self).field@[position.1 as int],
            ),
            final(self).field_parity == old(self).field_parity,
            final(self).current_update_area == old(self).current_update_area,
            final(self).next_rect == old(self).next_rect,
            final(self).elements_count == old(self).elements_count,
    {
        let mut row: Vec<Option<Element>> = Vec::new();
        std::mem::swap(&mut self.field[position.1], &mut row);
        row.set(position.0, element);
        self.field.set(position.1, row);
        proof {
            assert(self.field@ =~= old(self).field@.update(
                position.1 as int,
                self.field@[position.1 as int],
            ));
        }
    }

    /// Whether the sweep area of this tick is not empty.
    pub fn needs_updates(&self) -> (r: bool)
        ensures
            r == self.current_update_area.spec_has_value(),
    {
        self.current_update_area.has_value()
    }

    pub fn get(&self, position: CordInChunk) -> (r: Option<Element>)
        requires
            self.wf(),
            local_ok((position.0 as int, position.1 as int)),
        ensures
            r == self.cell(position.0 as int, position.1 as int),
    {
        self.field[position.1][position.0]
    }

    pub fn parity(&self, position: CordInChunk) -> (r: bool)
        requires
            self.wf(),
            local_ok((position.0 as int, position.1 as int)),
        ensures
            r == self.par(position.0 as int, position.1 as int),
    {
        self.field_parity[position.1][position.0]
    }

    pub fn set_parity(&mut self, position: CordInChunk, parity: bool)
        requires
            old(self).shape_ok(),
            local_ok((position.0 as int, position.1 as int)),
        ensures
            final(self).shape_ok(),
            old(self).wf() ==> final(self).wf(),
            final(self).field == old(self).field,
            final(self).current_update_area == old(self).current_update_area,
            final(self).next_rect == old(self).next_rect,
            final(self).elements_count == old(self).elements_count,
            forall|x: int, y: int| local_ok((x, y)) ==> #[trigger]
                final(self).par(x, y) == if x == position.0 && y == position.1 {
                    parity
                } else {
                    old(self).par(x, y)
                },
    {
        let mut row: Vec<bool> = Vec::new();
        std::mem::swap(&mut self.field_parity[position.1], &mut row);
        row.set(position.0, parity);
        self.field_parity.set(position.1, row);
        proof {
            assert forall|x: int, y: int| local_ok((x, y)) implies #[trigger]
                self.par(x, y) == if x == position.0 && y == position.1 {
                    parity
                } else {
                    old(self).par(x, y)
                } by {
                if y != position.1 {
                    assert(self.field_parity@[y] == old(self).field_parity@[y]);
                }
            }
        }
    }

    /// Puts `element` in the cell and gives the cell `parity`; the cell joins
    /// the next sweep area.
    pub fn set(&mut self, position: CordInChunk, element: Element, parity: bool)
        requires
            old(self).wf(),
            local_ok((position.0 as int, position.1 as int)),
        ensures
            final(self).wf(),
            forall|x: int, y: int| local_ok((x, y)) ==> #[trigger]
                final(self).cell(x, y) == if x == position.0 && y == position.1 {
                    Some(element)
                } else {
                    old(self).cell(x, y)
                },
            forall|x: int, y: int| local_ok((x, y)) ==> #[trigger]
                final(self).par(x, y) == if x == position.0 && y == position.1 {
                    parity
                } else {
                    old(self).par(x, y)
                },
            final(self).elements_count == old(self).elements_count + if old(self).cell(
                position.0 as int,
                position.1 as int,
            ).is_none() {
                1int
            } else {
                0int
            },
            final(self).current_update_area == old(self).current_update_area,
            old(self).next_rect.covered_by(final(self).next_rect),
            final(self).next_rect == old(self).next_rect.spec_expand((position.0 as isize, position.1 as isize)),
            final(self).next_has(position.0 as int, position.1 as int),
    {
        if self.get(position).is_none() {
            proof {
                lemma_occupied_rows_bounds(self.field@);
            }
            self.elements_count += 1;
        }
        proof {
            lemma_expand_within(self.next_rect, (position.0 as isize, position.1 as isize), CHUNK_WIDTH as int, CHUNK_HEIGHT as int);
        }
        self.next_rect = self.next_rect.expand((position.0 as isize, position.1 as isize));
        self.set_parity(position, parity);
        let ghost before = *self;
        self.set_value(position, Some(element));
        proof {
            assert forall|x: int, y: int| local_ok((x, y)) implies #[trigger] self.par(x, y)
                == if x == position.0 && y == position.1 {
                parity
            } else {
                old(self).par(x, y)
            } by {
                assert(self.par(x, y) == before.par(x, y));
            }
            let y = position.1 as int;
            let x = position.0 as int;
            lemma_occupied_in_update(before.field@[y]@, x, Some(element));
            lemma_occupied_rows_update(before.field@, y, self.field@[y]);
            assert(self.field@[y]@ == before.field@[y]@.update(x, Some(element)));
            assert forall|x2: int, y2: int| local_ok((x2, y2)) implies #[trigger]
                self.cell(x2, y2) == if x2 == x && y2 == y {
                    Some(element)
                } else {
                    old(self).cell(x2, y2)
                } by {
                if y2 != y {
                    assert(self.field@[y2] == before.field@[y2]);
                }
            }
            assert forall|j: int| 0 <= j < CHUNK_HEIGHT implies #[trigger] self.field@[j]@.len()
                == CHUNK_WIDTH by {
                if j != y {
                    assert(self.field@[j] == before.field@[j]);
                }
            }
        }
    }

    /// Empties the cell; the cell joins the next sweep area.
    pub fn clear(&mut self, position: CordInChunk)
        requires
            old(self).wf(),
            local_ok((position.0 as int, position.1 as int)),
        ensures
            final(self).wf(),
            forall|x: int, y: int| local_ok((x, y)) ==> #[trigger]
                final(self).cell(x, y) == if x == position.0 && y == position.1 {
                    None
                } else {
                    old(self).cell(x, y)
                },
            final(self).field_parity == old(self).field_parity,
            final(self).elements_count == old(self).elements_count - if old(self).cell(
                position.0 as int,
                position.1 as int,
            ).is_some() {
                1int
            } else {
                0int
            },
            final(self).current_update_area == old(self).current_update_area,
            final(self).next_rect == old(self).next_rect.spec_expand((position.0 as isize, position.1 as isize)),
            old(self).next_rect.covered_by(final(self).next_rect),
            final(self).next_has(position.0 as int, position.1 as int),
    {
        proof {
            lemma_expand_within(self.next_rect, (position.0 as isize, position.1 as isize), CHUNK_WIDTH as int, CHUNK_HEIGHT as int);
        }
        self.next_rect = self.next_rect.expand((position.0 as isize, position.1 as isize));
        let ghost before = *self;
        proof {
            let y = position.1 as int;
            let x = position.0 as int;
            lemma_occupied_in_update(before.field@[y]@, x, None);
            lemma_occupied_rows_update(before.field@, y, before.field@[y]);
            assert(before.field@.update(y, before.field@[y]) =~= before.field@);
        }
        if self.get(position).is_some() {
            proof {
                let y = position.1 as int;
                let x = position.0 as int;
                lemma_occupied_in_bounds(before.field@[y]@.update(x, None));
                lemma_occupied_rows_ge_row(before.field@, y);
            }
            self.elements_count -= 1;
        }
        self.set_value(position, None);
        proof {
            let y = position.1 as int;
            let x = position.0 as int;
            lemma_occupied_rows_update(before.field@, y, self.field@[y]);
            assert(self.field@[y]@ == before.field@[y]@.update(x, None));
            assert forall|x2: int, y2: int| local_ok((x2, y2)) implies #[trigger]
                self.cell(x2, y2) == if x2 == x && y2 == y {
                    None
                } else {
                    old(self).cell(x2, y2)
                } by {
                if y2 != y {
                    assert(self.field@[y2] == before.field@[y2]);
                }
            }
            assert forall|j: int| 0 <= j < CHUNK_HEIGHT implies #[trigger] self.field@[j]@.len()
                == CHUNK_WIDTH by {
                if j != y {
                    assert(self.field@[j] == before.field@[j]);
                }
            }
        }
    }

    /// Adds the cell and the cells that share a side with it, inside the
    /// chunk, to the next sweep area.
    pub fn add_point_in_update_cycle_with_neighbourhood(&mut self, position: CordInChunk)
        requires
            old(self).wf(),
            local_ok((position.0 as int, position.1 as int)),
        ensures
            final(self).wf(),
            final(self).field == old(self).field,
            final(self).field_parity == old(self).field_parity,
            final(self).elements_count == old(self).elements_count,
            final(self).current_update_area == old(self).current_update_area,
            old(self).next_rect.covered_by(final(self).next_rect),
            final(self).next_has(position.0 as int, position.1 as int),
            forall|q: (int, int)|
                local_ok(q) && ((q.0 - position.0 == 1 || position.0 - q.0 == 1) && q.1
                    == position.1 || (q.1 - position.1 == 1 || position.1 - q.1 == 1) && q.0
                    == position.0) ==> #[trigger] final(self).next_rect.contains(q),
    {
        self.add_point_in_update_cycle(position);
        let ghost first = self.next_rect;
        let mut around = Neighbours::direct_of((position.0 as isize, position.1 as isize))
            .with_boundaries(Rect::from((0, 0), (CHUNK_WIDTH as isize, CHUNK_HEIGHT as isize)));
        let ghost all = around.remaining();
        proof {
            reveal_with_fuel(crate::neighbours::kept, 5);
            assert(around.all_neighbours@.skip(0) =~= around.all_neighbours@);
        }
        while around.current < around.all_neighbours.len()
            invariant
                self.wf(),
                self.field == old(self).field,
                self.field_parity == old(self).field_parity,
                self.elements_count == old(self).elements_count,
                self.current_update_area == old(self).current_update_area,
                self.next_rect.spec_has_value(),
                first.covered_by(self.next_rect),
                around.wf(),
                around.all_neighbours@ == crate::neighbours::cross_of((position.0 as isize, position.1 as isize)),
                around.boundaries == Some((Rect { top_left: (0isize, 0isize), bottom_right: (CHUNK_WIDTH as isize, CHUNK_HEIGHT as isize) })),
                forall|i: int| 0 <= i < around.current && crate::neighbours::admitted(around.boundaries, around.all_neighbours@[i])
                    ==> #[trigger] self.next_rect.contains((around.all_neighbours@[i].0 as int, around.all_neighbours@[i].1 as int)),
            decreases around.all_neighbours@.len() - around.current,
        {
            let n = around.all_neighbours[around.current];
            around.current += 1;
            if n.0 >= 0 && n.1 >= 0 && n.0 < CHUNK_WIDTH as isize && n.1 < CHUNK_HEIGHT as isize {
                let ghost prev = self.next_rect;
                proof {
                    lemma_expand_within(self.next_rect, n, CHUNK_WIDTH as int, CHUNK_HEIGHT as int);
                }
                self.next_rect = self.next_rect.expand(n);
                proof {
                    assert forall|i: int| 0 <= i < around.current && crate::neighbours::admitted(around.boundaries, around.all_neighbours@[i])
                        implies #[trigger] self.next_rect.contains((around.all_neighbours@[i].0 as int, around.all_neighbours@[i].1 as int)) by {
                        if i < around.current - 1 {
                            assert(prev.contains((around.all_neighbours@[i].0 as int, around.all_neighbours@[i].1 as int)));
                        }
                    }
                    assert forall|p: (int, int)| #[trigger] first.contains(p) implies self.next_rect.contains(p) by {
                        assert(prev.contains(p));
                    }
                }
            }
        }
        proof {
            assert(old(self).next_rect.spec_has_value() ==> old(self).next_rect.covered_by(first));
            assert forall|p: (int, int)| #[trigger] old(self).next_rect.contains(p) implies self.next_rect.contains(p) by {
                if old(self).next_rect.spec_has_value() {
                    assert(first.contains(p));
                }
            }
            assert forall|q: (int, int)|
                local_ok(q) && ((q.0 - position.0 == 1 || position.0 - q.0 == 1) && q.1
                    == position.1 || (q.1 - position.1 == 1 || position.1 - q.1 == 1) && q.0
                    == position.0) implies #[trigger] self.next_rect.contains(q) by {
                let s = around.all_neighbours@;
                if q.1 == position.1 - 1 {
                    assert(crate::neighbours::admitted(around.boundaries, s[0]));
                } else if q.1 == position.1 + 1 {
                    assert(crate::neighbours::admitted(around.boundaries, s[3]));
                } else if q.0 == position.0 - 1 {
                    assert(crate::neighbours::admitted(around.boundaries, s[1]));
                } else {
                    assert(crate::neighbours::admitted(around.boundaries, s[2]));
                }
            }
        }
    }

    /// Adds the cell to the next sweep area.
    pub fn add_point_in_update_cycle(&mut self, position: CordInChunk)
        requires
            old(self).wf(),
            local_ok((position.0 as int, position.1 as int)),
        ensures
            final(self).wf(),
            final(self).field == old(self).field,
            final(self).field_parity == old(self).field_parity,
            final(self).elements_count == old(self).elements_count,
            final(self).current_update_area == old(self).current_update_area,
            final(self).next_rect == old(self).next_rect.spec_expand(
                (position.0 as isize, position.1 as isize),
            ),
            old(self).next_rect.covered_by(final(self).next_rect),
            final(self).next_has(position.0 as int, position.1 as int),
    {
        proof {
            lemma_expand_within(self.next_rect, (position.0 as isize, position.1 as isize), CHUNK_WIDTH as int, CHUNK_HEIGHT as int);
        }
        self.next_rect = self.next_rect.expand((position.0 as isize, position.1 as isize));
    }

    /// Starts a tick: the gathered area becomes the sweep area, and the
    /// gathered area starts empty.
    pub fn update_rect(&mut self)
        requires
            old(self).wf(),
        ensures
            final(self).wf(),
            final(self).field == old(self).field,
            final(self).field_parity == old(self).field_parity,
            final(self).elements_count == old(self).elements_count,
            final(self).current_update_area == old(self).next_rect,
            !final(self).next_rect.spec_has_value(),
    {
        self.current_update_area = self.next_rect;
        self.next_rect = Rect::new();
    }

    pub fn into_iter(&self) -> (r: RectIterator)
        requires
            self.wf(),
        ensures
            r.original_rect == self.current_update_area,
            r.current_point == self.current_update_area.top_left,
            r.wf(),
    {
        self.current_update_area.into_iter()
    }

    pub fn get_update_rect(&self) -> (r: Rect)
        ensures
            r == self.current_update_area,
    {
        self.current_update_area
    }

    pub fn number_of_elements(&self) -> (r: usize)
        ensures
            r == self.elements_count,
    {
        self.elements_count
    }
}

} // verus!
