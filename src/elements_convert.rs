use vstd::prelude::*;
use crate::chunk_context::{ChunkContext, safe};
use crate::elements::{Element, ElementType, MovableSolid, WET_SAND_DRY_TIME, spec_sand, spec_wet_sand};
use crate::field::ip;
use crate::neighbours::{Neighbours, cross_of};

verus! {

pub open spec fn is_water(c: Option<Element>) -> bool {
    c matches Some(Element::Liquid(_, ElementType::Water))
}

/// Some cell that shares a side with `p` can be read and holds water.
pub open spec fn water_near(ctx: ChunkContext, p: (isize, isize)) -> bool {
    exists|i: int|
        0 <= i < 4 && ctx.reachable(ip(cross_of(p)[i])) && is_water(
            ctx.cell(ip(#[trigger] cross_of(p)[i])),
        )
}

/// One own update of wet sand that has been dry for `dryness` updates:
/// water resets the count, else it grows, and at `WET_SAND_DRY_TIME` the
/// grain is sand again.
pub open spec fn wet_step(data: MovableSolid, dryness: int, wet: bool) -> Element {
    let next = if wet { 0 } else { dryness + 1 };
    if next >= WET_SAND_DRY_TIME {
        spec_sand()
    } else {
        Element::MovableSolid(data, ElementType::WetSand(next as isize))
    }
}

/// Wet sand after `n` dry own updates (it stops changing once it is sand).
pub open spec fn dried(data: MovableSolid, dryness: int, n: nat) -> Element
    decreases n,
{
    if n == 0 {
        Element::MovableSolid(data, ElementType::WetSand(dryness as isize))
    } else {
        match wet_step(data, dryness, false) {
            Element::MovableSolid(d, ElementType::WetSand(t)) => dried(d, t as int, (n - 1) as nat),
            other => other,
        }
    }
}

/// Wet sand that sees no water for `WET_SAND_DRY_TIME` of its own updates
/// is sand, and not before.
pub proof fn lemma_wet_sand_dries(data: MovableSolid)
    ensures
        dried(data, 0, WET_SAND_DRY_TIME as nat) == spec_sand(),
        forall|n: nat| n < WET_SAND_DRY_TIME ==> #[trigger] dried(data, 0, n) == Element::MovableSolid(
            data,
            ElementType::WetSand(n as isize),
        ),
{
    lemma_dries_from(data, 0);
    assert forall|n: nat| n < WET_SAND_DRY_TIME implies #[trigger] dried(data, 0, n) == Element::MovableSolid(
        data,
        ElementType::WetSand(n as isize),
    ) by {
        lemma_dry_run(data, 0, n);
    }
}

proof fn lemma_dries_from(data: MovableSolid, t: int)
    requires
        0 <= t < WET_SAND_DRY_TIME,
    ensures
        dried(data, t, (WET_SAND_DRY_TIME - t) as nat) == spec_sand(),
    decreases WET_SAND_DRY_TIME - t,
{
    if t < WET_SAND_DRY_TIME - 1 {
        lemma_dries_from(data, t + 1);
    }
}

/// `n` dry steps that stay below the limit only count up.
proof fn lemma_dry_run(data: MovableSolid, t: int, n: nat)
    requires
        0 <= t,
        t + n < WET_SAND_DRY_TIME,
    ensures
        dried(data, t, n) == Element::MovableSolid(data, ElementType::WetSand((t + n) as isize)),
    decreases n,
{
    if n > 0 {
        lemma_dry_run(data, t + 1, (n - 1) as nat);
    }
}

fn holds_water(e: Option<Element>) -> (b: bool)
    ensures
        b == is_water(e),
{
    match e {
        Some(Element::Liquid(_, ElementType::Water)) => true,
        _ => false,
    }
}

/// Whether water lies in a cell that shares a side with `position`.
pub fn water_around(position: (isize, isize), field: &ChunkContext) -> (r: bool)
    requires
        field.wf(),
        safe(ip(position)),
    ensures
        r == water_near(*field, position),
{
    let around = Neighbours::direct_of(position);
    let mut i: usize = 0;
    while i < around.all_neighbours.len()
        invariant
            field.wf(),
            around.all_neighbours@ == cross_of(position),
            i <= 4,
            forall|j: int|
                0 <= j < i ==> !(field.reachable(ip(cross_of(position)[j])) && is_water(
                    field.cell(ip(#[trigger] cross_of(position)[j])),
                )),
        decreases 4 - i,
    {
        let n = around.all_neighbours[i];
        let found = field.reachable_and_fitting(n, holds_water);
        if found {
            return true;
        }
        i += 1;
    }
    false
}

/// Sand next to water turns wet.
pub fn sand_convert(data: MovableSolid, position: (isize, isize), field: &ChunkContext) -> (r: Element)
    requires
        field.wf(),
        safe(ip(position)),
    ensures
        r == if water_near(*field, position) {
            spec_wet_sand()
        } else {
            Element::MovableSolid(data, ElementType::Sand)
        },
{
    if water_around(position, field) {
        return Element::wet_sand();
    }
    Element::MovableSolid(data, ElementType::Sand)
}

/// Wet sand counts its own updates away from water and dries into sand.
pub fn wet_sand_convert(data: MovableSolid, dryness: isize, position: (isize, isize), field: &ChunkContext) -> (r: Element)
    requires
        field.wf(),
        safe(ip(position)),
    ensures
        r == wet_step(data, dryness as int, water_near(*field, position)),
{
    let wet = water_around(position, field);
    if !wet && dryness >= WET_SAND_DRY_TIME - 1 {
        return Element::sand();
    }
    let next = if wet { 0 } else { dryness + 1 };
    Element::MovableSolid(data, ElementType::WetSand(next))
}

} // verus!
