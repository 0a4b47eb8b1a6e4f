use vstd::prelude::*;
use crate::acid::{acid_update, acid_outcome};
use crate::liquid::liquid_outcome;
use crate::movable_solids::movable_outcome;
use crate::solid::solid_outcome;
use crate::chunk_context::ChunkContext;
use crate::field::ip;
use crate::movable_solids::inner;
use crate::line::{line_points, small, min, max, abs, bresenham_points};
use crate::random::coin;

verus! {

/// Probabilities in the element parameters are counted in parts of this.
pub const PROBABILITY_SCALE: u32 = 10000;

/// Wet sand that has seen no water for this many of its own updates is
/// sand again.
pub const WET_SAND_DRY_TIME: isize = 600;

/// Which way a liquid prefers to spread.
#[derive(Clone, Copy, PartialEq, Eq, Structural)]
pub enum Direction {
    Left,
    Right,
}

impl Direction {
    pub open spec fn spec_sign(self) -> int {
        match self {
            Direction::Left => -1,
            Direction::Right => 1,
        }
    }

    pub open spec fn spec_opposite(self) -> Direction {
        match self {
            Direction::Left => Direction::Right,
            Direction::Right => Direction::Left,
        }
    }

    /// -1 to the left, +1 to the right.
    pub fn sign(&self) -> (r: isize)
        ensures
            r == self.spec_sign(),
    {
        match self {
            Direction::Left => -1,
            Direction::Right => 1,
        }
    }

    pub fn opposite(&self) -> (r: Direction)
        ensures
            r == self.spec_opposite(),
    {
        match self {
            Direction::Left => Direction::Right,
            Direction::Right => Direction::Left,
        }
    }
}

/// What an element is, beyond how it moves.
#[derive(Clone, Copy, PartialEq, Eq, Structural)]
pub enum ElementType {
    Sand,
    /// Wet sand, with the number of its own updates since it last touched water.
    WetSand(isize),
    Water,
    Oil,
    Block,
    /// Acid, with the number of cells it can still dissolve.
    Acid(isize),
}

/// A solid that falls and piles up.
/// `density` is in tenths; `flow_coefficient` is in tenths;
/// `slip_through_prob` is in parts of `PROBABILITY_SCALE`.
#[derive(Clone, Copy)]
pub struct MovableSolid {
    pub is_falling: bool,
    pub stable_time: u64,
    pub flow_coefficient: u32,
    pub move_time: u32,
    pub keep_alive_extra_time: Option<u32>,
    pub unstuck_speed: u32,
    pub disperse_distance: u16,
    pub density: u32,
    pub slip_through_prob: u32,
}

/// A liquid. `density` is in tenths; `slip_through_prob` is in parts of
/// `PROBABILITY_SCALE`.
#[derive(Clone, Copy)]
pub struct Liquid {
    pub side: Direction,
    pub disperse_distance: u16,
    pub move_time: u32,
    pub keep_alive_extra_time: Option<u32>,
    pub density: u32,
    pub stable_time: u64,
    pub slip_through_prob: u32,
}

/// A solid that never moves. `density` is in tenths.
#[derive(Clone, Copy)]
pub struct Solid {
    pub density: u32,
}

/// The content of an occupied cell.
#[derive(Clone, Copy)]
pub enum Element {
    MovableSolid(MovableSolid, ElementType),
    Liquid(Liquid, ElementType),
    Solid(Solid, ElementType),
}

impl MovableSolid {
    /// Two movable solids behave alike: everything but the state agrees.
    pub open spec fn same_physics(self, o: MovableSolid) -> bool {
        self.flow_coefficient == o.flow_coefficient && self.move_time == o.move_time
            && self.unstuck_speed == o.unstuck_speed && self.disperse_distance
            == o.disperse_distance && self.density == o.density && self.slip_through_prob
            == o.slip_through_prob
    }

    pub open spec fn spec_refresh(self) -> MovableSolid {
        MovableSolid {
            stable_time: if self.stable_time >= self.unstuck_speed {
                (self.stable_time - self.unstuck_speed) as u64
            } else {
                0
            },
            ..self
        }
    }

    pub fn set_falling(self, value: bool) -> (r: MovableSolid)
        ensures
            r == (MovableSolid { is_falling: value, ..self }),
    {
        let mut s = self;
        s.is_falling = value;
        s
    }

    pub fn set_stable_time(self, value: u64) -> (r: MovableSolid)
        ensures
            r == (MovableSolid { stable_time: value, ..self }),
    {
        let mut s = self;
        s.stable_time = value;
        s
    }

    /// Disturbed by a neighbour: `stable_time` falls by `unstuck_speed`,
    /// not below zero.
    pub fn refresh(self) -> (r: MovableSolid)
        ensures
            r == self.spec_refresh(),
    {
        let t = if self.stable_time >= self.unstuck_speed as u64 {
            self.stable_time - self.unstuck_speed as u64
        } else {
            0
        };
        self.set_stable_time(t)
    }

    pub fn density(&self) -> (r: u32)
        ensures
            r == self.density,
    {
        self.density
    }
}

impl PartialEq for MovableSolid {
    fn eq(&self, other: &Self) -> (r: bool) {
        self.flow_coefficient == other.flow_coefficient && self.move_time == other.move_time
            && self.unstuck_speed == other.unstuck_speed && self.disperse_distance
            == other.disperse_distance && self.density == other.density
            && self.slip_through_prob == other.slip_through_prob
    }
}

impl vstd::std_specs::cmp::PartialEqSpecImpl for MovableSolid {
    open spec fn obeys_eq_spec() -> bool {
        true
    }

    open spec fn eq_spec(&self, other: &MovableSolid) -> bool {
        self.same_physics(*other)
    }
}

impl Liquid {
    pub open spec fn same_physics(self, o: Liquid) -> bool {
        self.move_time == o.move_time && self.disperse_distance == o.disperse_distance
            && self.density == o.density && self.slip_through_prob == o.slip_through_prob
    }

    pub open spec fn spec_refresh(self) -> Liquid {
        Liquid { stable_time: 0, ..self }
    }

    /// Disturbed by a neighbour: ready to flow again.
    pub fn refresh(self) -> (r: Liquid)
        ensures
            r == self.spec_refresh(),
    {
        let mut s = self;
        s.stable_time = 0;
        s
    }

    pub fn density(&self) -> (r: u32)
        ensures
            r == self.density,
    {
        self.density
    }
}

impl PartialEq for Liquid {
    fn eq(&self, other: &Self) -> (r: bool) {
        self.move_time == other.move_time && self.disperse_distance == other.disperse_distance
            && self.density == other.density && self.slip_through_prob
            == other.slip_through_prob
    }
}

impl vstd::std_specs::cmp::PartialEqSpecImpl for Liquid {
    open spec fn obeys_eq_spec() -> bool {
        true
    }

    open spec fn eq_spec(&self, other: &Liquid) -> bool {
        self.same_physics(*other)
    }
}

impl Solid {
    pub fn refresh(self) -> (r: Solid)
        ensures
            r == self,
    {
        self
    }

    pub fn density(&self) -> (r: u32)
        ensures
            r == self.density,
    {
        self.density
    }
}

pub open spec fn spec_sand() -> Element {
    Element::MovableSolid(
        MovableSolid {
            is_falling: true,
            stable_time: 0,
            flow_coefficient: 20,
            move_time: 20,
            unstuck_speed: 20,
            disperse_distance: 3,
            density: 100,
            slip_through_prob: 0,
            keep_alive_extra_time: None,
        },
        ElementType::Sand,
    )
}

pub open spec fn spec_wet_sand() -> Element {
    Element::MovableSolid(
        MovableSolid {
            is_falling: true,
            stable_time: 0,
            flow_coefficient: 3,
            move_time: 10,
            unstuck_speed: 10,
            disperse_distance: 2,
            density: 101,
            slip_through_prob: 0,
            keep_alive_extra_time: Some(WET_SAND_DRY_TIME as u32),
        },
        ElementType::WetSand(0),
    )
}

impl Element {
    pub open spec fn spec_type(self) -> ElementType {
        match self {
            Element::MovableSolid(_, t) => t,
            Element::Liquid(_, t) => t,
            Element::Solid(_, t) => t,
        }
    }

    pub open spec fn spec_refresh(self) -> Element {
        match self {
            Element::MovableSolid(d, t) => Element::MovableSolid(d.spec_refresh(), t),
            Element::Liquid(d, t) => Element::Liquid(d.spec_refresh(), t),
            Element::Solid(d, t) => Element::Solid(d, t),
        }
    }

    pub open spec fn spec_density(self) -> u32 {
        match self {
            Element::MovableSolid(d, _) => d.density,
            Element::Liquid(d, _) => d.density,
            Element::Solid(d, _) => d.density,
        }
    }

    pub open spec fn is_solid(self) -> bool {
        self is Solid
    }

    pub open spec fn spec_color(self) -> [u8; 4] {
        match self.spec_type() {
            ElementType::Sand => [0xff, 0xff, 0x00, 0xff],
            ElementType::Water => [0x00, 0x50, 0xff, 0xff],
            ElementType::WetSand(_) => [0xb3, 0xb3, 0x00, 0xff],
            ElementType::Oil => [0x33, 0x33, 0x10, 0xff],
            ElementType::Block => [0xb3, 0xb3, 0xb3, 0xff],
            ElementType::Acid(_) => [0x39, 0xff, 0x14, 0xff],
        }
    }

    pub fn sand() -> (r: Element)
        ensures
            r == spec_sand(),
    {
        Element::MovableSolid(
            MovableSolid {
                is_falling: true,
                stable_time: 0,
                flow_coefficient: 20,
                move_time: 20,
                unstuck_speed: 20,
                disperse_distance: 3,
                density: 100,
                slip_through_prob: 0,
                keep_alive_extra_time: None,
            },
            ElementType::Sand,
        )
    }

    /// Water, spreading to a side picked at random.
    pub fn water() -> (r: Element)
        ensures
            r matches Element::Liquid(d, ElementType::Water) && d.stable_time == 0 && d.move_time
                == 100 && d.disperse_distance == 10 && d.density == 70 && d.slip_through_prob
                == 200 && d.keep_alive_extra_time.is_none(),
    {
        Element::Liquid(
            Liquid {
                stable_time: 0,
                move_time: 100,
                disperse_distance: 10,
                side: if coin() {
                    Direction::Left
                } else {
                    Direction::Right
                },
                density: 70,
                slip_through_prob: 200,
                keep_alive_extra_time: None,
            },
            ElementType::Water,
        )
    }

    pub fn wet_sand() -> (r: Element)
        ensures
            r == spec_wet_sand(),
    {
        Element::MovableSolid(
            MovableSolid {
                is_falling: true,
                stable_time: 0,
                flow_coefficient: 3,
                move_time: 10,
                unstuck_speed: 10,
                disperse_distance: 2,
                density: 101,
                slip_through_prob: 0,
                keep_alive_extra_time: Some(WET_SAND_DRY_TIME as u32),
            },
            ElementType::WetSand(0),
        )
    }

    /// Oil, spreading to a side picked at random.
    pub fn oil() -> (r: Element)
        ensures
            r matches Element::Liquid(d, ElementType::Oil) && d.stable_time == 0 && d.move_time
                == 60 && d.disperse_distance == 2 && d.density == 20 && d.slip_through_prob == 0
                && d.keep_alive_extra_time.is_none(),
    {
        Element::Liquid(
            Liquid {
                stable_time: 0,
                move_time: 60,
                disperse_distance: 2,
                side: if coin() {
                    Direction::Left
                } else {
                    Direction::Right
                },
                density: 20,
                slip_through_prob: 0,
                keep_alive_extra_time: None,
            },
            ElementType::Oil,
        )
    }

    /// Acid that can dissolve `strength` cells, spreading to a side picked
    /// at random.
    pub fn acid(strength: isize) -> (r: Element)
        ensures
            r matches Element::Liquid(d, ElementType::Acid(s)) && s == strength && d.stable_time
                == 0 && d.move_time == 80 && d.disperse_distance == 5 && d.density == 90
                && d.slip_through_prob == 0 && d.keep_alive_extra_time.is_none(),
    {
        Element::Liquid(
            Liquid {
                stable_time: 0,
                move_time: 80,
                disperse_distance: 5,
                side: if coin() {
                    Direction::Left
                } else {
                    Direction::Right
                },
                density: 90,
                slip_through_prob: 0,
                keep_alive_extra_time: None,
            },
            ElementType::Acid(strength),
        )
    }

    pub fn block() -> (r: Element)
        ensures
            r == Element::Solid(Solid { density: 500 }, ElementType::Block),
    {
        Element::Solid(Solid { density: 500 }, ElementType::Block)
    }

    pub fn get_type(&self) -> (r: ElementType)
        ensures
            r == self.spec_type(),
    {
        match self {
            Element::MovableSolid(_, t) => *t,
            Element::Liquid(_, t) => *t,
            Element::Solid(_, t) => *t,
        }
    }

    /// The colour of the element, as red, green, blue, alpha.
    pub fn get_color(&self) -> (r: [u8; 4])
        ensures
            r == self.spec_color(),
    {
        match self.get_type() {
            ElementType::Sand => [0xff, 0xff, 0x00, 0xff],
            ElementType::Water => [0x00, 0x50, 0xff, 0xff],
            ElementType::WetSand(_) => [0xb3, 0xb3, 0x00, 0xff],
            ElementType::Oil => [0x33, 0x33, 0x10, 0xff],
            ElementType::Block => [0xb3, 0xb3, 0xb3, 0xff],
            ElementType::Acid(_) => [0x39, 0xff, 0x14, 0xff],
        }
    }

    /// The element after a neighbour was disturbed.
    pub fn refresh(self) -> (r: Element)
        ensures
            r == self.spec_refresh(),
    {
        match self {
            Element::MovableSolid(d, t) => Element::MovableSolid(d.refresh(), t),
            Element::Liquid(d, t) => Element::Liquid(d.refresh(), t),
            Element::Solid(d, t) => Element::Solid(d.refresh(), t),
        }
    }

    /// Density in tenths.
    pub fn density(&self) -> (r: u32)
        ensures
            r == self.spec_density(),
    {
        match self {
            Element::MovableSolid(d, _) => d.density(),
            Element::Liquid(d, _) => d.density(),
            Element::Solid(d, _) => d.density(),
        }
    }

    pub fn solid(&self) -> (r: Option<&Solid>)
        ensures
            r.is_some() == self is Solid,
            self matches Element::Solid(d, _) ==> r == Some(d),
    {
        match self {
            Element::MovableSolid(_, _) => None,
            Element::Liquid(_, _) => None,
            Element::Solid(d, _) => Some(d),
        }
    }

    pub fn movable_solid(&self) -> (r: Option<&MovableSolid>)
        ensures
            r.is_some() == self is MovableSolid,
            self matches Element::MovableSolid(d, _) ==> r == Some(d),
    {
        match self {
            Element::MovableSolid(d, _) => Some(d),
            Element::Liquid(_, _) => None,
            Element::Solid(_, _) => None,
        }
    }

    pub fn liquid(&self) -> (r: Option<&Liquid>)
        ensures
            r.is_some() == self is Liquid,
            self matches Element::Liquid(d, _) ==> r == Some(d),
    {
        match self {
            Element::MovableSolid(_, _) => None,
            Element::Liquid(d, _) => Some(d),
            Element::Solid(_, _) => None,
        }
    }
}


/// The chance, as `(numerator, denominator)`, that an element of density
/// `me` pushes through one of density `other`: the larger of
/// `1 - other / me` and the slip-through chance (capped at certainty).
pub open spec fn swap_ratio(other: u32, me: u32, slip: u32) -> (u32, u32) {
    let s = if slip > PROBABILITY_SCALE { PROBABILITY_SCALE } else { slip };
    if me > other && (me - other) as int * PROBABILITY_SCALE >= s as int * me {
        ((me - other) as u32, me)
    } else {
        (s, PROBABILITY_SCALE)
    }
}

/// The chance that an element of density `my_density` displaces one of
/// density `other_density`, as a ratio (see `swap_ratio`).
pub fn density_swap_prob(other_density: u32, my_density: u32, slip_through_prob: u32) -> (r: (u32, u32))
    ensures
        r == swap_ratio(other_density, my_density, slip_through_prob),
        0 < r.1,
        r.0 <= r.1,
{
    let s = if slip_through_prob > PROBABILITY_SCALE { PROBABILITY_SCALE } else { slip_through_prob };
    if my_density <= other_density {
        return (s, PROBABILITY_SCALE);
    }
    let a: u64 = (my_density - other_density) as u64;
    let b: u64 = s as u64;
    let m: u64 = my_density as u64;
    proof {
        assert(a * 10000 <= 0xffff_ffffu64 * 10000) by (nonlinear_arith)
            requires
                a <= 0xffff_ffffu64,
        ;
        assert(b * m <= 10000 * 0xffff_ffffu64) by (nonlinear_arith)
            requires
                b <= 10000,
                m <= 0xffff_ffffu64,
        ;
    }
    if a * PROBABILITY_SCALE as u64 >= b * m {
        (my_density - other_density, my_density)
    } else {
        (s, PROBABILITY_SCALE)
    }
}

/// The `i`-th cell tried when sliding from `from` towards `to`: `from`
/// itself, then the points of the line after it, and `to` last.
pub open spec fn line_cell(from: (isize, isize), to: (isize, isize), i: int) -> (int, int) {
    if i == 0 {
        ip(from)
    } else if i < bresenham_points(from, to).len() {
        ip(bresenham_points(from, to)[i])
    } else {
        ip(to)
    }
}

/// The `i`-th cell of the horizontal line from `from` towards `to`.
pub open spec fn along(from: (isize, isize), to: (isize, isize), i: int) -> (int, int) {
    (from.0 + if to.0 >= from.0 { i } else { -i }, from.1 as int)
}

/// Slides from `from` towards `to` along a straight line and returns the
/// last cell before the first one that cannot be read or that `fit_function`
/// refuses (`from` itself when the first step fails). The cells tried are
/// those of the line after `from`, up to and including `to`.
pub fn get_avalible_point<F: Fn(Option<Element>) -> bool>(
    from: (isize, isize),
    to: (isize, isize),
    chunk_access: &ChunkContext,
    fit_function: F,
) -> (r: (isize, isize))
    requires
        chunk_access.wf(),
        small(from),
        small(to),
        forall|v: Option<Element>| #[trigger] fit_function.requires((v,)),
    ensures
        min(from.0 as int, to.0 as int) <= r.0 <= max(from.0 as int, to.0 as int),
        min(from.1 as int, to.1 as int) <= r.1 <= max(from.1 as int, to.1 as int),
        exists|j: int|
            #![trigger line_cell(from, to, j)]
            0 <= j <= bresenham_points(from, to).len() && ip(r) == line_cell(from, to, j) && (forall|i: int|
                1 <= i <= j ==> chunk_access.reachable(#[trigger] line_cell(from, to, i))
                    && fit_function.ensures((chunk_access.cell(line_cell(from, to, i)),), true)) && (j
                < bresenham_points(from, to).len() ==> !chunk_access.reachable(line_cell(from, to, j + 1))
                || fit_function.ensures((chunk_access.cell(line_cell(from, to, j + 1)),), false)),
        from.1 == to.1 ==> exists|j: int|
            #![trigger along(from, to, j)]
            0 <= j <= abs(to.0 - from.0) && ip(r) == along(from, to, j) && (forall|i: int|
                1 <= i <= j ==> chunk_access.reachable(#[trigger] along(from, to, i))
                    && fit_function.ensures((chunk_access.cell(along(from, to, i)),), true)) && (j
                < abs(to.0 - from.0) ==> !chunk_access.reachable(along(from, to, j + 1))
                || fit_function.ensures((chunk_access.cell(along(from, to, j + 1)),), false)),
{
    let line = line_points(from, to);
    let mut prev = from;
    let mut i: usize = 1;
    let ghost n = abs(to.0 - from.0);
    while i <= line.len()
        invariant
            chunk_access.wf(),
            forall|v: Option<Element>| #[trigger] fit_function.requires((v,)),
            1 <= i <= line@.len() + 1,
            line@.len() <= 67108864,
            n == abs(to.0 - from.0),
            from.1 == to.1 ==> line@.len() == n,
            from.1 == to.1 ==> forall|j: int|
                0 <= j < line@.len() ==> ip(#[trigger] line@[j]) == along(from, to, j),
            forall|j: int|
                0 <= j < line@.len() ==> min(from.0 as int, to.0 as int) <= (#[trigger] line@[j]).0 <= max(
                    from.0 as int,
                    to.0 as int,
                ) && min(from.1 as int, to.1 as int) <= line@[j].1 <= max(from.1 as int, to.1 as int),
            min(from.0 as int, to.0 as int) <= prev.0 <= max(from.0 as int, to.0 as int),
            min(from.1 as int, to.1 as int) <= prev.1 <= max(from.1 as int, to.1 as int),
            from.1 == to.1 ==> ip(prev) == along(from, to, i - 1),
            line@ == bresenham_points(from, to),
            ip(prev) == line_cell(from, to, i - 1),
            forall|k: int|
                1 <= k < i ==> chunk_access.reachable(#[trigger] line_cell(from, to, k))
                    && fit_function.ensures((chunk_access.cell(line_cell(from, to, k)),), true),
            from.1 == to.1 ==> forall|k: int|
                1 <= k < i ==> chunk_access.reachable(#[trigger] along(from, to, k))
                    && fit_function.ensures((chunk_access.cell(along(from, to, k)),), true),
        decreases line@.len() + 1 - i,
    {
        let point = if i < line.len() { line[i] } else { to };
        proof {
            assert(ip(point) == line_cell(from, to, i as int));
            if from.1 == to.1 {
                if i < line@.len() {
                    assert(ip(line@[i as int]) == along(from, to, i as int));
                } else {
                    assert(i == n);
                    assert(n == abs(to.0 - from.0));
                    assert(along(from, to, n).0 == to.0);
                    assert(along(from, to, n).1 == to.1);
                    assert(ip(to) == along(from, to, n));
                }
                assert(ip(point) == along(from, to, i as int));
            }
        }
        match chunk_access.get(point) {
            Ok(element) => {
                if !fit_function(element) {
                    proof {
                        if from.1 == to.1 {
                            assert(along(from, to, (i - 1) as int) == ip(prev));
                        }
                    }
                    return prev;
                }
            },
            Err(_) => {
                proof {
                    if from.1 == to.1 {
                        assert(along(from, to, (i - 1) as int) == ip(prev));
                    }
                }
                return prev;
            },
        }
        prev = point;
        i += 1;
    }
    proof {
        if from.1 == to.1 {
            assert(along(from, to, (i - 1) as int) == ip(prev));
        }
    }
    prev
}


impl Element {
    /// What the element's own rule does at `position`, from `a` to `b`.
    pub open spec fn rule_outcome(self, position: (isize, isize), a: ChunkContext, b: ChunkContext) -> bool {
        match self {
            Element::MovableSolid(d, t) => movable_outcome(d, t, position, a, b),
            Element::Liquid(d, ElementType::Acid(s)) => acid_outcome(d, s, position, a, b),
            Element::Liquid(d, t) => liquid_outcome(d, t, position, a, b),
            Element::Solid(d, t) => solid_outcome(d, t, position, a, b),
        }
    }

    /// Runs the rule of the element at `position`.
    pub fn update(self, position: (isize, isize), field_access: &mut ChunkContext)
        requires
            old(field_access).wf(),
            inner(ip(position)),
            old(field_access).touchable(ip(position)),
            old(field_access).cell(ip(position)) == Some(self),
        ensures
            old(field_access).evolves(*final(field_access)),
            final(field_access).population() <= old(field_access).population(),
            !(self.spec_type() is Acid) ==> final(field_access).population() == old(field_access).population(),
            self.rule_outcome(position, *old(field_access), *final(field_access)),
    {
        match self {
            Element::MovableSolid(d, t) => d.update(t, position, field_access),
            Element::Liquid(d, ElementType::Acid(s)) => acid_update(d, s, position, field_access),
            Element::Liquid(d, t) => d.update(t, position, field_access),
            Element::Solid(d, t) => d.update(t, position, field_access),
        }
    }
}

} // verus!
