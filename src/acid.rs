use vstd::prelude::*;
use crate::chunk_context::{ChunkContext, identity, lemma_evolves_trans, lemma_evolves_refl};
use crate::elements::{Element, ElementType, Liquid};
use crate::field::ip;
use crate::liquid::{may_sink, spread_target, blocks_liquid, spread_spot, turned_side};
use crate::movable_solids::inner;
use crate::neighbours::{Neighbours, cross_of};
use crate::random::chance;

verus! {

/// Acid dissolves a cell it touches with this chance, in percent.
pub const DESOLVE_CHANCE_PERCENT: u32 = 7;

/// The cells that acid at `of` works on, in order: the four that share a
/// side with it (above, left, right, below), then its own.
pub open spec fn targets(of: (isize, isize)) -> Seq<(isize, isize)> {
    cross_of(of).push(of)
}

/// A cell holds something acid can dissolve: any element but acid that
/// can still dissolve.
pub open spec fn dissolvable(c: Option<Element>) -> bool {
    c matches Some(e) && !(e.spec_type() matches ElementType::Acid(s) && s > 0)
}

/// Acid dissolves `q` when `q` can be read, holds something dissolvable,
/// the draw for it hit, and the acid has not yet used up its strength
/// (`done` cells so far against `max_cleared`; the first always counts).
pub open spec fn dissolves(ctx: ChunkContext, q: (int, int), hit: bool, done: int, max_cleared: int) -> bool {
    ctx.reachable(q) && dissolvable(ctx.cell(q)) && hit && (done == 0 || done < max_cleared)
}

/// How many of the first `i` targets of `of` are dissolved.
pub open spec fn dissolved_before(ctx: ChunkContext, of: (isize, isize), hits: Seq<bool>, max_cleared: int, i: nat) -> int
    decreases i,
{
    if i == 0 {
        0
    } else {
        let k = dissolved_before(ctx, of, hits, max_cleared, (i - 1) as nat);
        k + if dissolves(ctx, ip(targets(of)[i - 1]), hits[i - 1], k, max_cleared) {
            1int
        } else {
            0int
        }
    }
}

/// Target `i` of `of` is dissolved.
pub open spec fn dissolved_at(ctx: ChunkContext, of: (isize, isize), hits: Seq<bool>, max_cleared: int, i: int) -> bool {
    dissolves(ctx, ip(targets(of)[i]), hits[i], dissolved_before(ctx, of, hits, max_cleared, i as nat), max_cleared)
}

proof fn lemma_dissolved_bounds(ctx: ChunkContext, of: (isize, isize), hits: Seq<bool>, max_cleared: int, i: nat)
    ensures
        0 <= dissolved_before(ctx, of, hits, max_cleared, i) <= i,
        max_cleared >= 1 ==> dissolved_before(ctx, of, hits, max_cleared, i) <= max_cleared,
    decreases i,
{
    if i > 0 {
        lemma_dissolved_bounds(ctx, of, hits, max_cleared, (i - 1) as nat);
    }
}

/// Dissolves the targets of `of` whose draw in `hits` came up, in order,
/// until `max_cleared` cells are gone. Returns how many were dissolved.
pub fn dissolve_with(of: (isize, isize), field_access: &mut ChunkContext, max_cleared: isize, hits: &Vec<bool>) -> (removed: isize)
    requires
        old(field_access).wf(),
        inner(ip(of)),
        hits@.len() == 5,
    ensures
        old(field_access).evolves(*final(field_access)),
        removed == dissolved_before(*old(field_access), of, hits@, max_cleared as int, 5),
        0 <= removed <= 5,
        max_cleared >= 1 ==> removed <= max_cleared,
        final(field_access).population() == old(field_access).population() - removed,
        forall|i: int|
            0 <= i < 5 && dissolved_at(*old(field_access), of, hits@, max_cleared as int, i)
                ==> (#[trigger] final(field_access).cell(ip(targets(of)[i]))).is_none(),
        forall|q: (int, int)|
            (#[trigger] final(field_access).cell(q)).is_some() ==> identity(final(field_access).cell(q))
                == identity(old(field_access).cell(q)),
        forall|q: (int, int)|
            old(field_access).cell(q).is_some() && (#[trigger] final(field_access).cell(q)).is_none()
                ==> exists|i: int|
                0 <= i < 5 && ip(targets(of)[i]) == q && dissolved_at(*old(field_access), of, hits@, max_cleared as int, i),
{
    let mut around = Neighbours::direct_of(of).all_neighbours;
    around.push(of);
    let ghost start = *field_access;
    let ghost t = targets(of);
    proof {
        lemma_evolves_refl(start);
        assert(around@ =~= t);
    }
    let mut removed: isize = 0;
    let mut i: usize = 0;
    while i < around.len()
        invariant
            start.wf(),
            start.evolves(*field_access),
            around@ == t,
            t == targets(of),
            t.len() == 5,
            hits@.len() == 5,
            inner(ip(of)),
            i <= 5,
            removed == dissolved_before(start, of, hits@, max_cleared as int, i as nat),
            0 <= removed <= i,
            field_access.population() == start.population() - removed,
            forall|j: int|
                0 <= j < i && dissolved_at(start, of, hits@, max_cleared as int, j)
                    ==> (#[trigger] field_access.cell(ip(t[j]))).is_none(),
            forall|q: (int, int)|
                (#[trigger] field_access.cell(q)).is_some() ==> identity(field_access.cell(q)) == identity(start.cell(q)),
            forall|q: (int, int)|
                start.cell(q).is_some() && (#[trigger] field_access.cell(q)).is_none() ==> exists|j: int|
                    0 <= j < i && ip(t[j]) == q && dissolved_at(start, of, hits@, max_cleared as int, j),
        decreases 5 - i,
    {
        let n = around[i];
        let ghost before = *field_access;
        proof {
            lemma_dissolved_bounds(start, of, hits@, max_cleared as int, i as nat);
            assert forall|j: int| 0 <= j < i implies ip(#[trigger] t[j]) != ip(t[i as int]) by {}
            if start.cell(ip(n)).is_some() && field_access.cell(ip(n)).is_none() {
                let j = choose|j: int| 0 <= j < i && ip(t[j]) == ip(n) && dissolved_at(start, of, hits@, max_cleared as int, j);
                assert(ip(t[j]) != ip(t[i as int]));
            }
            if field_access.cell(ip(n)).is_some() {
                assert(identity(field_access.cell(ip(n))) == identity(start.cell(ip(n))));
            } else {
                assert(!(start.cell(ip(n)).is_some()));
            }
            assert(field_access.reachable(ip(n)) == start.reachable(ip(n)));
        }
        let eligible = match field_access.get(n) {
            Ok(Some(element)) => match element.get_type() {
                ElementType::Acid(s) => s <= 0,
                _ => true,
            },
            _ => false,
        };
        if eligible && hits[i] && (removed == 0 || removed < max_cleared) {
            proof {
                assert(dissolved_at(start, of, hits@, max_cleared as int, i as int));
            }
            field_access.clear(n);
            removed += 1;
            proof {
                lemma_evolves_trans(start, before, *field_access);
                assert forall|q: (int, int)|
                    start.cell(q).is_some() && (#[trigger] field_access.cell(q)).is_none() implies exists|j: int|
                        0 <= j < i + 1 && ip(t[j]) == q && dissolved_at(start, of, hits@, max_cleared as int, j) by {
                    if q != ip(n) {
                        assert(before.cell(q).is_none());
                    } else {
                        assert(ip(t[i as int]) == q);
                    }
                }
                assert forall|j: int|
                    0 <= j < i + 1 && dissolved_at(start, of, hits@, max_cleared as int, j)
                        implies (#[trigger] field_access.cell(ip(t[j]))).is_none() by {
                    if j < i {
                        assert(ip(t[j]) != ip(t[i as int]));
                        assert(before.cell(ip(t[j])).is_none());
                    }
                }
                assert forall|q: (int, int)|
                    (#[trigger] field_access.cell(q)).is_some() implies identity(field_access.cell(q)) == identity(start.cell(q)) by {
                    if q != ip(n) {
                        assert(before.cell(q).is_some());
                    }
                }
            }
        } else {
            proof {
                assert(!dissolved_at(start, of, hits@, max_cleared as int, i as int));
            }
        }
        i += 1;
    }
    proof {
        lemma_dissolved_bounds(start, of, hits@, max_cleared as int, 5);
    }
    removed
}

/// Dissolves, each with `DESOLVE_CHANCE_PERCENT`, the elements in `of` and
/// the four cells that share a side with it, stopping after `max_cleared`
/// of them. Returns how many were dissolved.
pub fn clear_neighbours(of: (isize, isize), field_access: &mut ChunkContext, max_cleared: isize) -> (removed: isize)
    requires
        old(field_access).wf(),
        inner(ip(of)),
    ensures
        exists|hits: Seq<bool>| #![auto]
            hits.len() == 5 && removed == dissolved_before(*old(field_access), of, hits, max_cleared as int, 5)
                && forall|i: int|
                0 <= i < 5 && dissolved_at(*old(field_access), of, hits, max_cleared as int, i)
                    ==> (#[trigger] final(field_access).cell(ip(targets(of)[i]))).is_none(),
        old(field_access).evolves(*final(field_access)),
        0 <= removed <= 5,
        max_cleared >= 1 ==> removed <= max_cleared,
        final(field_access).population() == old(field_access).population() - removed,
        forall|q: (int, int)|
            (#[trigger] final(field_access).cell(q)).is_some() ==> identity(final(field_access).cell(q))
                == identity(old(field_access).cell(q)),
        forall|q: (int, int)|
            old(field_access).cell(q).is_some() && (#[trigger] final(field_access).cell(q)).is_none()
                ==> removed > 0 && dissolvable(old(field_access).cell(q)) && exists|i: int| 0 <= i < 5 && ip(#[trigger] targets(of)[i]) == q,
{
    let mut hits: Vec<bool> = Vec::new();
    let mut k: usize = 0;
    while k < 5
        invariant
            hits@.len() == k,
            k <= 5,
        decreases 5 - k,
    {
        hits.push(chance(DESOLVE_CHANCE_PERCENT, 100));
        k += 1;
    }
    let ghost start = *field_access;
    let removed = dissolve_with(of, field_access, max_cleared, &hits);
    proof {
        let h = hits@;
        assert(h.len() == 5 && removed == dissolved_before(start, of, h, max_cleared as int, 5)
            && forall|i: int|
            0 <= i < 5 && dissolved_at(start, of, h, max_cleared as int, i)
                ==> (#[trigger] field_access.cell(ip(targets(of)[i]))).is_none());
        assert forall|q: (int, int)|
            start.cell(q).is_some() && (#[trigger] field_access.cell(q)).is_none() implies removed > 0
                && dissolvable(start.cell(q)) && exists|i: int| 0 <= i < 5 && ip(#[trigger] targets(of)[i]) == q by {
            let i = choose|i: int| 0 <= i < 5 && ip(targets(of)[i]) == q && dissolved_at(start, of, hits@, max_cleared as int, i);
            lemma_dissolved_positive(start, of, hits@, max_cleared as int, i as nat);
        }
    }
    removed
}

/// A dissolved target counts towards the total.
proof fn lemma_dissolved_positive(ctx: ChunkContext, of: (isize, isize), hits: Seq<bool>, max_cleared: int, i: nat)
    requires
        i < 5,
        dissolved_at(ctx, of, hits, max_cleared, i as int),
    ensures
        dissolved_before(ctx, of, hits, max_cleared, 5) > 0,
{
    lemma_dissolved_bounds(ctx, of, hits, max_cleared, i);
    assert(dissolved_before(ctx, of, hits, max_cleared, i + 1) == dissolved_before(ctx, of, hits, max_cleared, i) + 1);
    lemma_dissolved_mono(ctx, of, hits, max_cleared, i + 1, 5);
}

proof fn lemma_dissolved_mono(ctx: ChunkContext, of: (isize, isize), hits: Seq<bool>, max_cleared: int, i: nat, j: nat)
    requires
        i <= j,
    ensures
        dissolved_before(ctx, of, hits, max_cleared, i) <= dissolved_before(ctx, of, hits, max_cleared, j),
    decreases j - i,
{
    if i < j {
        lemma_dissolved_mono(ctx, of, hits, max_cleared, i, (j - 1) as nat);
    }
}

/// Writes the acid back at `position` with what is left of its strength;
/// acid that has dissolved as many cells as its strength is consumed and
/// leaves the cell empty.
pub fn settle_acid(
    field_access: &mut ChunkContext,
    position: (isize, isize),
    data: Liquid,
    strength: isize,
    removed: isize,
    at_rest: bool,
)
    requires
        old(field_access).wf(),
        inner(ip(position)),
        0 <= removed,
    ensures
        old(field_access).evolves(*final(field_access)),
        removed >= strength && old(field_access).near(ip(position)) ==> final(field_access).cell(
            ip(position),
        ) == None::<Element>,
        removed < strength && old(field_access).touchable(ip(position)) ==> final(field_access).cell(
            ip(position),
        ) == Some(Element::Liquid(data, ElementType::Acid((strength - removed) as isize))),
        final(field_access).population() <= old(field_access).population() + 1,
        removed >= strength ==> final(field_access).population() <= old(field_access).population(),
        removed < strength && old(field_access).cell(ip(position)).is_some()
            ==> final(field_access).population() == old(field_access).population(),
        forall|q: (int, int)|
            q != ip(position) ==> (#[trigger] final(field_access).cell(q)).is_some() == old(
                field_access,
            ).cell(q).is_some() && identity(final(field_access).cell(q)) == identity(old(field_access).cell(q)),
        removed >= strength && old(field_access).near(ip(position)) && old(field_access).cell(ip(position)).is_some()
            ==> final(field_access).population() == old(field_access).population() - 1,
{
    let ghost start = *field_access;
    if removed < strength {
        let left = strength - removed;
        if at_rest {
            field_access.set_static(position, Element::Liquid(data, ElementType::Acid(left)));
        } else {
            field_access.set(position, Element::Liquid(data, ElementType::Acid(left)));
        }
    } else {
        field_access.clear(position);
    }
    proof {
        if removed < strength && !start.touchable(ip(position)) {
            assert forall|q: (int, int)| q != ip(position) implies (#[trigger] field_access.cell(q)).is_some() == start.cell(q).is_some() by {
                lemma_same_cells(start, *field_access, q);
            }
        }
    }
}

/// A context whose grid was left alone reads the same cells.
proof fn lemma_same_cells(a: ChunkContext, b: ChunkContext, q: (int, int))
    requires
        a.wf(),
        a.evolves(b),
        b.chunks == a.chunks,
    ensures
        b.cell(q) == a.cell(q),
{
}

/// What acid `data` of strength `strength` leaves in its cell after
/// dissolving `r` cells: the rest of its strength, or nothing once used up.
pub open spec fn acid_after(data: Liquid, strength: isize, r: int) -> Option<Element> {
    if r < strength {
        Some(Element::Liquid(data, ElementType::Acid((strength - r) as isize)))
    } else {
        None
    }
}

/// Acid `data` of strength `strength` settled in `dest` after dissolving
/// `r` cells: `dest` holds what is left, and the element count fell by
/// `r`, and by one more when the acid is used up.
pub open spec fn acid_settled(a: ChunkContext, b: ChunkContext, dest: (int, int), data: Liquid, strength: isize, r: int) -> bool {
    &&& 0 <= r <= 5
    &&& r <= strength
    &&& b.cell(dest) == acid_after(data, strength, r)
    &&& b.population() == a.population() - r - if r >= strength { 1int } else { 0int }
}

/// Acid `data` of strength `strength` moved from `from` to `to`, swapping
/// back what was there, and dissolved around `to`.
pub open spec fn acid_moved(a: ChunkContext, b: ChunkContext, from: (int, int), to: (int, int), data: Liquid, strength: isize) -> bool {
    &&& a.touchable(to) ==> exists|r: int| #[trigger] acid_settled(a, b, to, data, strength, r)
        && (identity(b.cell(from)) == identity(a.cell(to)) || (b.cell(from).is_none() && dissolvable(a.cell(to))))
    &&& !a.loaded(to) ==> b.cell(from).is_none() && b.unsolved_actions@.len() == a.unsolved_actions@.len() + 1
        && ChunkContext::insertion_for(to, Element::Liquid(data, ElementType::Acid(strength)), b.unsolved_actions@.last())
}

/// The acid's data after an update at rest.
pub open spec fn acid_rest_data(a: ChunkContext, position: (isize, isize), data: Liquid) -> Liquid {
    Liquid {
        stable_time: if data.stable_time < u64::MAX { (data.stable_time + 1) as u64 } else { u64::MAX },
        side: if data.stable_time < data.move_time { turned_side(a, position, data) } else { data.side },
        ..data
    }
}

/// Moves acid from `from` to `to`, swapping back what was there, and
/// dissolves around `to` on arrival.
fn move_and_clear(from: (isize, isize), to: (isize, isize), data: Liquid, strength: isize, field_access: &mut ChunkContext)
    requires
        old(field_access).wf(),
        inner(ip(from)),
        inner(ip(to)),
        ip(from) != ip(to),
        strength > 0,
        old(field_access).reachable(ip(to)),
        old(field_access).touchable(ip(from)),
        old(field_access).cell(ip(from)).is_some(),
    ensures
        old(field_access).evolves(*final(field_access)),
        final(field_access).population() <= old(field_access).population(),
        acid_moved(*old(field_access), *final(field_access), ip(from), ip(to), data, strength),
{
    let ghost s0 = *field_access;
    field_access.move_from_to(from, to, Element::Liquid(data, ElementType::Acid(strength)));
    let ghost s1 = *field_access;
    match field_access.get(to) {
        Ok(Some(_)) => {
            proof {
                assert(s0.touchable(ip(to)));
            }
            let removed = clear_neighbours(to, field_access, strength);
            let ghost s2 = *field_access;
            proof {
                assert(s2.cell(ip(to)).is_some()) by {
                    if s2.cell(ip(to)).is_none() {
                        assert(dissolvable(s1.cell(ip(to))));
                    }
                }
                assert(identity(s2.cell(ip(to))) == identity(s1.cell(ip(to))));
            }
            settle_acid(field_access, to, data, strength, removed, false);
            proof {
                lemma_evolves_trans(s0, s1, s2);
                lemma_evolves_trans(s0, s2, *field_access);
                assert(acid_settled(s0, *field_access, ip(to), data, strength, removed as int));
                if s2.cell(ip(from)).is_some() {
                    assert(identity(s2.cell(ip(from))) == identity(s1.cell(ip(from))));
                } else if s1.cell(ip(from)).is_some() {
                    assert(dissolvable(s1.cell(ip(from))));
                }
            }
        },
        _ => {
            proof {
                assert(!s0.touchable(ip(to)));
            }
        },
    }
}

/// What one update of acid `data` of strength `strength` at `position`
/// does, from `a` to `b`, whatever the draws: it sinks or spreads as a
/// liquid does (swapping back what it displaces) or rests, and in each
/// case dissolves around where it ends, keeping what is left of its
/// strength (see `acid_settled`).
pub open spec fn acid_outcome(data: Liquid, strength: isize, position: (isize, isize), a: ChunkContext, b: ChunkContext) -> bool {
    let below = (position.0 as int, position.1 + 1);
    let sunk = Liquid { stable_time: 0, ..data };
    &&& a.evolves(b)
    &&& b.population() <= a.population()
    &&& strength > 0 ==> {
        &&& a.reachable(below) && a.cell(below).is_none() ==> acid_moved(a, b, ip(position), below, sunk, strength)
        &&& (!blocks_liquid(a, below, data) && acid_moved(a, b, ip(position), below, sunk, strength))
            || (!(a.reachable(below) && a.cell(below).is_none()) && data.stable_time < data.move_time
            && exists|t: (isize, isize)| #[trigger] spread_spot(data, position, t) && acid_moved(
            a,
            b,
            ip(position),
            ip(t),
            Liquid { stable_time: 0, side: turned_side(a, position, data), ..data },
            strength,
        )) || (!(a.reachable(below) && a.cell(below).is_none()) && exists|r: int|
            #[trigger] acid_settled(a, b, ip(position), acid_rest_data(a, position, data), strength, r))
    }
}

/// One update of acid at `position`: it moves as a liquid does, and
/// dissolves around the cell where it ends, moved or at rest; acid that
/// has used up its strength is gone.
#[verifier::rlimit(60)]
pub fn acid_update(data: Liquid, strength: isize, position: (isize, isize), field_access: &mut ChunkContext)
    requires
        old(field_access).wf(),
        inner(ip(position)),
        old(field_access).touchable(ip(position)),
        old(field_access).cell(ip(position)) == Some(Element::Liquid(data, ElementType::Acid(strength))),
    ensures
        acid_outcome(data, strength, position, *old(field_access), *final(field_access)),
{
    let ghost start = *field_access;
    let below = (position.0, position.1 + 1);
    let me = data;
    if strength <= 0 {
        let removed = clear_neighbours(position, field_access, strength);
        let ghost s2 = *field_access;
        settle_acid(field_access, position, data, strength, removed, true);
        proof {
            lemma_evolves_trans(start, s2, *field_access);
        }
        return;
    }
    if may_sink(me, below, field_access) {
        let mut sunk = data;
        sunk.stable_time = 0;
        move_and_clear(position, below, sunk, strength, field_access);
        return;
    }
    let mut rest = data;
    if (rest.stable_time as u64) < rest.move_time as u64 {
        let turned = rest.next_side(position, field_access);
        match spread_target(me, position, field_access) {
            Some(target) => {
                let mut moved = turned;
                moved.stable_time = 0;
                move_and_clear(position, target, moved, strength, field_access);
                proof {
                    assert(spread_spot(data, position, target));
                }
                return;
            },
            None => {},
        }
        rest = turned;
    }
    let threshold = match rest.keep_alive_extra_time {
        Some(t) => t,
        None => rest.move_time,
    };
    if rest.stable_time < threshold as u64 {
        field_access.keep_alive(position);
    }
    rest.stable_time = if rest.stable_time < u64::MAX { rest.stable_time + 1 } else { u64::MAX };
    let ghost s1 = *field_access;
    let removed = clear_neighbours(position, field_access, strength);
    let ghost s2 = *field_access;
    proof {
        assert(s1.cell(ip(position)) == start.cell(ip(position)));
        assert(s2.cell(ip(position)).is_some()) by {
            if s2.cell(ip(position)).is_none() {
                assert(dissolvable(s1.cell(ip(position))));
            }
        }
    }
    settle_acid(field_access, position, rest, strength, removed, true);
    proof {
        lemma_evolves_trans(start, s1, s2);
        lemma_evolves_trans(start, s2, *field_access);
        assert(rest == acid_rest_data(start, position, data));
        assert(acid_settled(start, *field_access, ip(position), rest, strength, removed as int));
    }
}

} // verus!
