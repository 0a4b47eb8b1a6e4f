use vstd::prelude::*;
use crate::chunk_context::{ChunkContext, lemma_evolves_trans, move_result, rest_result};
use crate::elements::{Direction, Element, ElementType, Liquid, density_swap_prob, swap_ratio, get_avalible_point, along};
use crate::line::abs;
use crate::field::ip;
use crate::movable_solids::inner;
use crate::random::{between, chance};

verus! {

/// Whether the liquid `me` pushes through `e` given the outcome `hit` of
/// the density swap draw: never through a static solid, nor through a
/// liquid that behaves exactly like it.
pub fn liquid_displaces(me: Liquid, e: Element, hit: bool) -> (r: bool)
    ensures
        r == (!e.is_solid() && !(e matches Element::Liquid(d, _) && d.same_physics(me)) && hit),
{
    if e.solid().is_some() {
        return false;
    }
    match e.liquid() {
        Some(data) => !(me == *data) && hit,
        None => hit,
    }
}

/// Whether the liquid `me` may push through `e`: the density swap chance is
/// drawn (see `density_swap_prob`) and `liquid_displaces` decides.
pub fn liquid_may_displace(me: Liquid, e: Element) -> (r: bool)
    ensures
        e.is_solid() ==> !r,
        (e matches Element::Liquid(d, _) && d.same_physics(me)) ==> !r,
        swap_ratio(e.spec_density(), me.density, me.slip_through_prob).0 == 0 ==> !r,
{
    if e.solid().is_some() {
        return false;
    }
    let (n, d) = density_swap_prob(e.density(), me.density, me.slip_through_prob);
    let hit = chance(n, d);
    liquid_displaces(me, e, hit)
}

/// `q` cannot take the liquid `me` from above: it cannot be read, or holds
/// a static solid, a liquid that behaves exactly like `me`, or an element
/// that `me` has no chance to push through.
pub open spec fn blocks_liquid(ctx: ChunkContext, q: (int, int), me: Liquid) -> bool {
    !ctx.reachable(q) || (ctx.cell(q) matches Some(e) && (e.is_solid() || (e matches Element::Liquid(
        d,
        _,
    ) && d.same_physics(me)) || swap_ratio(e.spec_density(), me.density, me.slip_through_prob).0 == 0))
}

/// `q` cannot take the liquid `me` from the side: it cannot be read, or
/// holds an element at least as dense.
pub open spec fn walls_in(ctx: ChunkContext, q: (int, int), me: Liquid) -> bool {
    !ctx.reachable(q) || (ctx.cell(q) matches Some(e) && e.spec_density() >= me.density)
}

/// Whether the liquid `me` may sink into `q`.
pub fn may_sink(me: Liquid, q: (isize, isize), field_access: &ChunkContext) -> (r: bool)
    requires
        field_access.wf(),
    ensures
        blocks_liquid(*field_access, ip(q), me) ==> !r,
        field_access.reachable(ip(q)) && field_access.cell(ip(q)).is_none() ==> r,
{
    match field_access.get(q) {
        Ok(None) => true,
        Ok(Some(e)) => liquid_may_displace(me, e),
        Err(_) => false,
    }
}

/// Whether the liquid `me` may spread into `q`: it is readable and empty or
/// holds something lighter.
pub fn may_spread(me: Liquid, q: (isize, isize), field_access: &ChunkContext) -> (r: bool)
    requires
        field_access.wf(),
    ensures
        r == !walls_in(*field_access, ip(q), me),
{
    match field_access.get(q) {
        Ok(None) => true,
        Ok(Some(e)) => e.density() < me.density,
        Err(_) => false,
    }
}

/// The cells beside `position` in direction `sign`, out to `reach`, and the
/// cells below them can all be read and are empty.
pub open spec fn open_side(ctx: ChunkContext, position: (isize, isize), sign: int, reach: int) -> bool {
    forall|i: int|
        1 <= i <= reach ==> {
            &&& #[trigger] ctx.reachable((position.0 + sign * i, position.1 as int))
            &&& ctx.cell((position.0 + sign * i, position.1 as int)).is_none()
            &&& ctx.reachable((position.0 + sign * i, position.1 + 1))
            &&& ctx.cell((position.0 + sign * i, position.1 + 1)).is_none()
        }
}

/// A cell a liquid may spread to: on its row or one lower, at most its
/// dispersion distance to either side.
pub open spec fn spread_spot(me: Liquid, position: (isize, isize), t: (isize, isize)) -> bool {
    (t.1 == position.1 || t.1 == position.1 + 1) && position.0 - me.disperse_distance <= t.0 <= position.0
        + me.disperse_distance
}

/// The side a liquid prefers after looking at its side: it turns when that
/// cell is walled in.
pub open spec fn turned_side(a: ChunkContext, position: (isize, isize), me: Liquid) -> Direction {
    if walls_in(a, (position.0 + me.side.spec_sign(), position.1 as int), me) {
        me.side.spec_opposite()
    } else {
        me.side
    }
}

/// How far a liquid tries to spread this tick: between 1 and its
/// dispersion distance.
pub fn spread_distance(me: Liquid) -> (r: isize)
    ensures
        me.disperse_distance >= 1 ==> 1 <= r <= me.disperse_distance,
        me.disperse_distance == 0 ==> r == 0,
{
    if me.disperse_distance >= 1 {
        between(1, me.disperse_distance as i64) as isize
    } else {
        0
    }
}

/// Where a liquid that spreads from `position` ends: the last free cell on
/// its way sideways, one lower if that cell below is lighter or free.
pub fn spread_target(me: Liquid, position: (isize, isize), field_access: &ChunkContext) -> (r: Option<(isize, isize)>)
    requires
        field_access.wf(),
        inner(ip(position)),
    ensures
        r matches Some(t) ==> ip(t) != ip(position) && field_access.reachable(ip(t)) && -16777216
            <= t.0 <= 16777216 && -16777216 <= t.1 <= 16777216,
        walls_in(*field_access, (position.0 - 1, position.1 as int), me) && walls_in(
            *field_access,
            (position.0 + 1, position.1 as int),
            me,
        ) ==> r.is_none(),
        me.disperse_distance >= 1 && open_side(*field_access, position, me.side.spec_sign(), me.disperse_distance as int)
            ==> r.is_some(),
        r matches Some(t) ==> spread_spot(me, position, t),
{
    let mut side = me.side.sign();
    let move_distance = spread_distance(me);
    let mut do_move = false;
    let mut destination = if side > 0 { position.0 + move_distance } else { position.0 - move_distance };
    if may_spread(me, (position.0 + side, position.1), field_access) {
        do_move = true;
    } else {
        side = -side;
        if may_spread(me, (position.0 + side, position.1), field_access) {
            do_move = true;
            destination = if side > 0 { position.0 + move_distance } else { position.0 - move_distance };
        }
    }
    if !do_move {
        return None;
    }
    let fit = |e: Option<Element>| -> (fits: bool) ensures e.is_none() ==> fits { match e {
            None => true,
            Some(x) => liquid_may_displace(me, x),
        } };
    let stop = get_avalible_point(position, (destination, position.1), field_access, fit);
    let ghost open = me.disperse_distance >= 1 && open_side(*field_access, position, me.side.spec_sign(), me.disperse_distance as int);
    proof {
        if open {
            let n = move_distance as int;
            let sg = me.side.spec_sign();
            assert(1 <= n);
            assert(field_access.reachable((position.0 + sg * 1, position.1 as int)));
            if sg == 1 {
                assert(destination == position.0 + n);
            } else {
                assert(sg == -1);
                assert(destination == position.0 - n);
            }
            let j = choose|j: int|
                #![trigger along(position, (destination, position.1), j)]
                0 <= j <= abs(destination - position.0) && ip(stop) == along(position, (destination, position.1), j)
                    && (j < abs(destination - position.0) ==> !field_access.reachable(along(position, (destination, position.1), j + 1))
                    || fit.ensures((field_access.cell(along(position, (destination, position.1), j + 1)),), false));
            assert(abs(destination - position.0) == n);
            if j < n {
                let q = along(position, (destination, position.1), j + 1);
                let i = j + 1;
                assert(1 <= i <= me.disperse_distance);
                assert(field_access.reachable((position.0 + sg * i, position.1 as int)));
                if sg == 1 {
                    assert(sg * i == i);
                } else {
                    assert(sg * i == -i);
                }
                assert(q == (position.0 + sg * i, position.1 as int));
                assert(field_access.reachable(q) && field_access.cell(q).is_none());
                assert(fit.ensures((field_access.cell(q),), true));
            }
            assert(j == n);
            if sg == 1 {
                assert(ip(stop) == (position.0 + 1 * n, position.1 as int));
            } else {
                assert(ip(stop) == (position.0 + (-1) * n, position.1 as int));
            }
            assert(ip(stop) == (position.0 + sg * n, position.1 as int));
        }
    }
    let mut new_dest = (stop.0, stop.1 + 1);
    if !field_access.reachable_empty_or_fitting(new_dest, |e: Element| e.density() < me.density) {
        new_dest = stop;
    }
    if (new_dest.0 != position.0 || new_dest.1 != position.1) && field_access.reachable_empty_or_fitting(new_dest, |e: Element| liquid_may_displace(me, e)) {
        Some(new_dest)
    } else {
        None
    }
}

/// What one update of the liquid `me` of kind `kind` at `position` does,
/// from `a` to `b`, whatever the draws.
pub open spec fn liquid_outcome(me: Liquid, kind: ElementType, position: (isize, isize), a: ChunkContext, b: ChunkContext) -> bool {
    &&& (
        a.reachable((position.0 as int, position.1 + 1)) && a.cell((position.0 as int, position.1 + 1)).is_none()
            ==> move_result(a, b, ip(position), (position.0 as int, position.1 + 1), Element::Liquid(Liquid { stable_time: 0, ..me }, kind))
    )
    &&& (
        (!blocks_liquid(a, (position.0 as int, position.1 + 1), me) && move_result(a, b, ip(position), (position.0 as int, position.1 + 1), Element::Liquid(Liquid { stable_time: 0, ..me }, kind)))
        || (!(a.reachable((position.0 as int, position.1 + 1)) && a.cell((position.0 as int, position.1 + 1)).is_none())
            && me.stable_time < me.move_time && exists|t: (isize, isize)|
            #[trigger] spread_spot(me, position, t) && move_result(a, b, ip(position), ip(t), Element::Liquid(
                Liquid { stable_time: 0, side: turned_side(a, position, me), ..me },
                kind,
            )))
        || (!(a.reachable((position.0 as int, position.1 + 1)) && a.cell((position.0 as int, position.1 + 1)).is_none())
            && rest_result(a, b, ip(position), Element::Liquid(
            Liquid {
                stable_time: if me.stable_time < u64::MAX { (me.stable_time + 1) as u64 } else { u64::MAX },
                side: if me.stable_time < me.move_time { turned_side(a, position, me) } else { me.side },
                ..me
            },
            kind,
        )))
    )
    &&& (
                a.evolves(b)
    )
    &&& (
                b.population() == a.population()
    )
    &&& (
                ({
                    let below = (position.0 as int, position.1 + 1);
                    a.touchable(below) && a.cell(below).is_none() ==> {
                        &&& b.cell(below) == Some(
                            Element::Liquid(Liquid { stable_time: 0, ..me }, kind),
                        )
                        &&& b.par(below) == !a.parity
                        &&& b.cell(ip(position)).is_none()
                    }
                })
    )
    &&& (
                blocks_liquid(a, (position.0 as int, position.1 + 1), me) && (me.stable_time
                    >= me.move_time || walls_in(a, (position.0 - 1, position.1 as int), me)
                    && walls_in(a, (position.0 + 1, position.1 as int), me)) ==> {
                    &&& b.cell(ip(position)) == Some(
                        Element::Liquid(
                            Liquid {
                                stable_time: if me.stable_time < u64::MAX {
                                    (me.stable_time + 1) as u64
                                } else {
                                    u64::MAX
                                },
                                side: if me.stable_time < me.move_time {
                                    me.side.spec_opposite()
                                } else {
                                    me.side
                                },
                                ..me
                            },
                            kind,
                        ),
                    )
                    &&& b.par(ip(position)) == !a.parity
                }
    )
}

impl Liquid {
    /// The side a liquid ends up preferring after trying to spread: it turns
    /// when the cell on its side is blocked.
    pub fn next_side(self, position: (isize, isize), field_access: &ChunkContext) -> (r: Liquid)
        requires
            field_access.wf(),
            inner(ip(position)),
        ensures
            r == (Liquid {
                side: if walls_in(*field_access, (position.0 + self.side.spec_sign(), position.1 as int), self) {
                    self.side.spec_opposite()
                } else {
                    self.side
                },
                ..self
            }),
    {
        let side = self.side.sign();
        if may_spread(self, (position.0 + side, position.1), field_access) {
            self
        } else {
            let mut turned = self;
            turned.side = self.side.opposite();
            turned
        }
    }

    /// One update of the liquid of kind `kind` at `position`: sink into the
    /// cell below when it is free (or may be pushed through); else, while
    /// it has not rested `move_time` ticks, spread sideways; else rest.
    #[verifier::rlimit(60)]
    pub fn update(self, kind: ElementType, position: (isize, isize), field_access: &mut ChunkContext)
        requires
            old(field_access).wf(),
            inner(ip(position)),
            old(field_access).touchable(ip(position)),
            old(field_access).cell(ip(position)) == Some(Element::Liquid(self, kind)),
        ensures
            liquid_outcome(self, kind, position, *old(field_access), *final(field_access)),

    {
        let ghost start = *field_access;
        let below = (position.0, position.1 + 1);
        let me = self;
        if may_sink(me, below, field_access) {
            let mut sunk = self;
            sunk.stable_time = 0;
            field_access.move_from_to(position, below, Element::Liquid(sunk, kind));
            return;
        }
        let mut data = self;
        if (data.stable_time as u64) < data.move_time as u64 {
            let turned = data.next_side(position, field_access);
            match spread_target(me, position, field_access) {
                Some(target) => {
                    let mut moved = turned;
                    moved.stable_time = 0;
                    field_access.move_from_to(position, target, Element::Liquid(moved, kind));
                    proof {
                        assert(spread_spot(me, position, target));
                    }
                    return;
                },
                None => {},
            }
            data = turned;
        }
        let threshold = match data.keep_alive_extra_time {
            Some(t) => t,
            None => data.move_time,
        };
        if data.stable_time < threshold as u64 {
            field_access.keep_alive(position);
        }
        let ghost mid = *field_access;
        data.stable_time = if data.stable_time < u64::MAX { data.stable_time + 1 } else { u64::MAX };
        field_access.set_static(position, Element::Liquid(data, kind));
        proof {
            lemma_evolves_trans(start, mid, *field_access);
            assert(rest_result(start, *field_access, ip(position), Element::Liquid(data, kind)));
        }
    }
}

} // verus!
