use vstd::prelude::*;
use crate::chunk_context::ChunkContext;
use crate::elements::{Element, ElementType, Solid};
use crate::field::ip;
use crate::movable_solids::inner;

verus! {

/// What one update of the static solid `me` of kind `kind` at `position`
/// does, from `a` to `b`.
pub open spec fn solid_outcome(me: Solid, kind: ElementType, position: (isize, isize), a: ChunkContext, b: ChunkContext) -> bool {
    &&& (
            a.evolves(b)
    )
    &&& (
            b.population() == a.population()
    )
    &&& (
            forall|q: (int, int)| #[trigger] b.cell(q) == a.cell(q)
    )
    &&& (
            b.par(ip(position)) == !a.parity
    )
    &&& (
            b.updated_coordinates@ == a.updated_coordinates@.push(position)
    )
}

impl Solid {
    /// A static solid never moves: it writes itself back in place, marked
    /// as processed, without disturbing its neighbours.
    pub fn update(self, kind: ElementType, position: (isize, isize), field_access: &mut ChunkContext)
        requires
            old(field_access).wf(),
            inner(ip(position)),
            old(field_access).touchable(ip(position)),
            old(field_access).cell(ip(position)) == Some(Element::Solid(self, kind)),
        ensures
            solid_outcome(self, kind, position, *old(field_access), *final(field_access)),
    {
        field_access.set_static(position, Element::Solid(self, kind));
    }
}

} // verus!
