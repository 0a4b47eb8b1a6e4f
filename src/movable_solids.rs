use vstd::prelude::*;
use crate::chunk_context::{ChunkContext, safe, lemma_evolves_trans, lemma_evolves_refl, move_result, rest_result};
use crate::elements::{Element, ElementType, MovableSolid, density_swap_prob, swap_ratio, get_avalible_point, spec_wet_sand};
use crate::elements_convert::{sand_convert, wet_sand_convert, water_near, wet_step, is_water};
use crate::neighbours::cross_of;
use crate::field::ip;
use crate::random::{between, chance, coin};

verus! {

/// A position well inside the world, where a rule may look a dispersion
/// distance away without leaving the range of `isize` arithmetic.
pub open spec fn inner(p: (int, int)) -> bool {
    -4194304 <= p.0 <= 4194304 && -4194304 <= p.1 <= 4194304
}

/// What a movable solid of kind `kind` becomes when written at `p`:
/// sand next to water turns wet, wet sand dries step by step.
pub open spec fn converted(kind: ElementType, data: MovableSolid, p: (isize, isize), ctx: ChunkContext) -> Element {
    match kind {
        ElementType::Sand => if water_near(ctx, p) {
            spec_wet_sand()
        } else {
            Element::MovableSolid(data, ElementType::Sand)
        },
        ElementType::WetSand(t) => wet_step(data, t as int, water_near(ctx, p)),
        _ => Element::MovableSolid(data, kind),
    }
}

/// Whether `me` pushes through `e` given the outcome `hit` of the density
/// swap draw: never through a static solid, nor through a movable solid
/// that behaves exactly like it.
pub fn movable_displaces(me: MovableSolid, e: Element, hit: bool) -> (r: bool)
    ensures
        r == (!e.is_solid() && !(e matches Element::MovableSolid(d, _) && d.same_physics(me)) && hit),
{
    if e.solid().is_some() {
        return false;
    }
    match e.movable_solid() {
        Some(data) => !(me == *data) && hit,
        None => hit,
    }
}

/// Whether `me` may push through `e`: the density swap chance is drawn
/// (see `density_swap_prob`) and `movable_displaces` decides.
pub fn movable_may_displace(me: MovableSolid, e: Element) -> (r: bool)
    ensures
        e.is_solid() ==> !r,
        (e matches Element::MovableSolid(d, _) && d.same_physics(me)) ==> !r,
        swap_ratio(e.spec_density(), me.density, me.slip_through_prob).0 == 0 ==> !r,
{
    if e.solid().is_some() {
        return false;
    }
    let (n, d) = density_swap_prob(e.density(), me.density, me.slip_through_prob);
    let hit = chance(n, d);
    movable_displaces(me, e, hit)
}

/// `q` cannot take the movable solid `me`: it cannot be read, or holds a
/// static solid, a movable solid that behaves exactly like `me`, or an
/// element that `me` has no chance to push through.
pub open spec fn blocks(ctx: ChunkContext, q: (int, int), me: MovableSolid) -> bool {
    !ctx.reachable(q) || (ctx.cell(q) matches Some(e) && (e.is_solid() || (e matches Element::MovableSolid(
        d,
        _,
    ) && d.same_physics(me)) || swap_ratio(e.spec_density(), me.density, me.slip_through_prob).0 == 0))
}

/// A cell the solid may slide to: one row lower, at most its dispersion
/// distance to either side.
pub open spec fn slide_landing(me: MovableSolid, position: (isize, isize), t: (isize, isize)) -> bool {
    t.1 == position.1 + 1 && position.0 - me.disperse_distance <= t.0 <= position.0 + me.disperse_distance
}

/// What a sliding solid may land on: something lighter, or something it
/// may push through (not a static solid, not its own kind).
pub open spec fn landing_fits(me: MovableSolid, e: Element) -> bool {
    e.spec_density() < me.density || (!e.is_solid() && !(e matches Element::MovableSolid(d, _) && d.same_physics(me)))
}

/// The movable solid after one update at rest: one more tick of rest.
pub open spec fn rested(me: MovableSolid) -> MovableSolid {
    MovableSolid {
        stable_time: if me.stable_time < u64::MAX { (me.stable_time + 1) as u64 } else { u64::MAX },
        ..me
    }
}

/// Whether `me` may move into `q`: it is readable and empty, or holds an
/// element that `me` may push through.
pub fn may_enter(me: MovableSolid, q: (isize, isize), field_access: &ChunkContext) -> (r: bool)
    requires
        field_access.wf(),
    ensures
        blocks(*field_access, ip(q), me) ==> !r,
        field_access.reachable(ip(q)) && field_access.cell(ip(q)).is_none() ==> r,
{
    match field_access.get(q) {
        Ok(None) => true,
        Ok(Some(e)) => movable_may_displace(me, e),
        Err(_) => false,
    }
}

/// Two contexts with the same cells and the same reach agree on where
/// water is.
pub proof fn lemma_water_near_same(a: ChunkContext, b: ChunkContext, p: (isize, isize))
    requires
        a.current_chunk_cord == b.current_chunk_cord,
        a.chunk_boundaries == b.chunk_boundaries,
        forall|q: (int, int)| #[trigger] b.cell(q) == a.cell(q),
    ensures
        water_near(a, p) == water_near(b, p),
{
    if water_near(a, p) {
        let i = choose|i: int|
            0 <= i < 4 && a.reachable(ip(cross_of(p)[i])) && is_water(a.cell(ip(#[trigger] cross_of(p)[i])));
        assert(b.cell(ip(cross_of(p)[i])) == a.cell(ip(cross_of(p)[i])));
    }
    if water_near(b, p) {
        let i = choose|i: int|
            0 <= i < 4 && b.reachable(ip(cross_of(p)[i])) && is_water(b.cell(ip(#[trigger] cross_of(p)[i])));
        assert(b.cell(ip(cross_of(p)[i])) == a.cell(ip(cross_of(p)[i])));
    }
}

/// The element that a movable solid of kind `kind` writes at `position`.
pub fn convert(data: MovableSolid, kind: ElementType, position: (isize, isize), field: &ChunkContext) -> (r: Element)
    requires
        field.wf(),
        safe(ip(position)),
    ensures
        r == converted(kind, data, position, *field),
{
    match kind {
        ElementType::Sand => sand_convert(data, position, field),
        ElementType::WetSand(t) => wet_sand_convert(data, t, position, field),
        _ => Element::MovableSolid(data, kind),
    }
}

/// What one update of the movable solid `me` of kind `kind` at `position`
/// does, from `a` to `b`, whatever the draws.
pub open spec fn movable_outcome(me: MovableSolid, kind: ElementType, position: (isize, isize), a: ChunkContext, b: ChunkContext) -> bool {
    &&& (
        a.reachable((position.0 as int, position.1 + 1)) && a.cell((position.0 as int, position.1 + 1)).is_none()
            ==> move_result(a, b, ip(position), (position.0 as int, position.1 + 1), converted(
            kind,
            MovableSolid { stable_time: 0, is_falling: false, ..me },
            (position.0, (position.1 + 1) as isize),
            a,
        ))
    )
    &&& (
        (!blocks(a, (position.0 as int, position.1 + 1), me) && move_result(a, b, ip(position), (position.0 as int, position.1 + 1), converted(
            kind,
            MovableSolid { stable_time: 0, is_falling: false, ..me },
            (position.0, (position.1 + 1) as isize),
            a,
        )))
        || (!(a.reachable((position.0 as int, position.1 + 1)) && a.cell((position.0 as int, position.1 + 1)).is_none())
            && exists|t: (isize, isize)|
            #[trigger] slide_landing(me, position, t) && (a.cell(ip(t)) matches Some(e) ==> landing_fits(me, e))
                && move_result(a, b, ip(position), ip(t), converted(kind, MovableSolid { stable_time: 0, ..me }, t, a)))
        || (!(a.reachable((position.0 as int, position.1 + 1)) && a.cell((position.0 as int, position.1 + 1)).is_none())
            && rest_result(a, b, ip(position), converted(kind, rested(me), position, a)))
    )
    &&& (
                a.evolves(b)
    )
    &&& (
                b.population() == a.population()
    )
    &&& (
                ({
                    let below = (position.0 as int, position.1 + 1);
                    a.touchable(below) && a.cell(below).is_none() ==> {
                        &&& b.cell(below) == Some(
                            converted(
                                kind,
                                MovableSolid { stable_time: 0, is_falling: false, ..me },
                                (position.0, (position.1 + 1) as isize),
                                a,
                            ),
                        )
                        &&& b.par(below) == !a.parity
                        &&& b.cell(ip(position)).is_none()
                    }
                })
    )
    &&& (
                blocks(a, (position.0 as int, position.1 + 1), me) && blocks(
                    a,
                    (position.0 - 1, position.1 as int),
                    me,
                ) && blocks(a, (position.0 + 1, position.1 as int), me) ==> {
                    &&& b.cell(ip(position)) == Some(
                        converted(kind, rested(me), position, a),
                    )
                    &&& b.par(ip(position)) == !a.parity
                }
    )
}

/// Moves the solid `me` at `position` to `to` as `element`, swapping back
/// what was there.
fn move_solid(me: MovableSolid, position: (isize, isize), to: (isize, isize), element: Element, field_access: &mut ChunkContext)
    requires
        old(field_access).wf(),
        inner(ip(position)),
        safe(ip(to)),
        ip(to) != ip(position),
        old(field_access).reachable(ip(to)),
        old(field_access).touchable(ip(position)),
        old(field_access).cell(ip(position)).is_some(),
    ensures
        old(field_access).evolves(*final(field_access)),
        final(field_access).population() == old(field_access).population(),
        move_result(*old(field_access), *final(field_access), ip(position), ip(to), element),
{
    field_access.move_from_to(position, to, element);
}

/// Writes the solid `me` of kind `kind` back at `position` at rest.
fn rest_solid(me: MovableSolid, kind: ElementType, position: (isize, isize), field_access: &mut ChunkContext)
    requires
        old(field_access).wf(),
        inner(ip(position)),
        old(field_access).touchable(ip(position)),
        old(field_access).cell(ip(position)).is_some(),
    ensures
        old(field_access).evolves(*final(field_access)),
        final(field_access).population() == old(field_access).population(),
        rest_result(*old(field_access), *final(field_access), ip(position), converted(kind, rested(me), position, *old(field_access))),
{
    let ghost start = *field_access;
    let threshold = match me.keep_alive_extra_time {
        Some(t) => t,
        None => me.move_time,
    };
    if me.stable_time < threshold as u64 {
        field_access.keep_alive(position);
    }
    let rest_time = if me.stable_time < u64::MAX { me.stable_time + 1 } else { u64::MAX };
    let ghost mid = *field_access;
    let element = convert(me.set_stable_time(rest_time), kind, position, field_access);
    proof {
        lemma_water_near_same(start, mid, position);
        lemma_evolves_refl(start);
    }
    field_access.set_static(position, element);
    proof {
        lemma_evolves_trans(start, mid, *field_access);
    }
}

impl MovableSolid {
    /// One update of the movable solid at `position`: fall into the cell
    /// below when it is free (or may be pushed through); else, now and
    /// then, slide sideways and down; else rest, counting the time at rest.
    #[verifier::rlimit(60)]
    pub fn update(self, kind: ElementType, position: (isize, isize), field_access: &mut ChunkContext)
        requires
            old(field_access).wf(),
            inner(ip(position)),
            old(field_access).touchable(ip(position)),
            old(field_access).cell(ip(position)) == Some(Element::MovableSolid(self, kind)),
        ensures
            movable_outcome(self, kind, position, *old(field_access), *final(field_access)),

    {
        let ghost start = *field_access;
        let below = (position.0, position.1 + 1);
        let me = self;
        if may_enter(me, below, field_access) {
            let fallen = self.set_stable_time(0).set_falling(false);
            let element = convert(fallen, kind, below, field_access);
            move_solid(me, position, below, element, field_access);
            return;
        }
        let flow = self.flow_coefficient as u64;
        let time = self.move_time as u64;
        proof {
            assert(flow * time <= 0xffff_ffffu64 * 0xffff_ffffu64) by (nonlinear_arith)
                requires
                    flow <= 0xffff_ffffu64,
                    time <= 0xffff_ffffu64,
            ;
        }
        let k = (flow * time / 10) as i64;
        let dice = between(0, k);
        if dice as u64 >= self.stable_time {
            let side: isize = if coin() { 1 } else { -1 };
            let distance = self.disperse_distance as isize;
            let reach: isize = if side > 0 { distance } else { -distance };
            let mut do_move = false;
            let mut destination = position.0 + reach;
            if may_enter(me, (position.0 + side, position.1), field_access) {
                do_move = true;
            } else if may_enter(me, (position.0 - side, position.1), field_access) {
                do_move = true;
                destination = position.0 - reach;
            }
            if do_move {
                let stop = get_avalible_point(
                    position,
                    (destination, position.1),
                    field_access,
                    |e: Option<Element>| match e {
                        None => true,
                        Some(x) => movable_may_displace(me, x),
                    },
                );
                let landing = (stop.0, stop.1 + 1);
                let landing_fit = |e: Element| -> (fits: bool) ensures fits ==> landing_fits(me, e) { e.density() < me.density || movable_may_displace(me, e) };
                let lands = field_access.reachable_empty_or_fitting(landing, landing_fit);
                proof {
                    if lands {
                        if let Some(e) = start.cell(ip(landing)) {
                            assert(landing_fit.ensures((e,), true));
                        }
                    }
                }
                if lands {
                    let element = convert(self.set_stable_time(0), kind, landing, field_access);
                    proof {
                        assert(slide_landing(me, position, landing));
                    }
                    move_solid(me, position, landing, element, field_access);
                    proof {
                        assert(start.cell(ip(landing)) matches Some(e) ==> landing_fits(me, e));
                        assert(move_result(start, *field_access, ip(position), ip(landing), converted(kind, MovableSolid { stable_time: 0, ..me }, landing, start)));
                        assert(!(start.reachable((position.0 as int, position.1 + 1)) && start.cell((position.0 as int, position.1 + 1)).is_none()));
                    }
                    return;
                }
            }
        }
        rest_solid(self, kind, position, field_access);
        proof {
            assert(rest_result(start, *field_access, ip(position), converted(kind, rested(self), position, start)));
            assert(!(start.reachable((position.0 as int, position.1 + 1)) && start.cell((position.0 as int, position.1 + 1)).is_none()));
        }
    }
}

} // verus!
