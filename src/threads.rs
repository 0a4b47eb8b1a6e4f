use vstd::prelude::*;
use crate::chunk::{CHUNK_WIDTH, CHUNK_HEIGHT};
use crate::chunk_context::{ChunkContext, identity, lemma_evolves_trans, lemma_evolves_refl};
use crate::field::{local_cord_to_global, chunk_of, local_of, ip};

verus! {

/// The `k`-th offset of the sweep over `len` rows or columns with phase
/// `p` (0 or 1): first the offsets of parity `1 - p`, downwards, then those
/// of parity `p`, upwards.
pub open spec fn sweep_at(len: int, p: int, k: int) -> int {
    let first = len / 2 + if p == 1 { len % 2 } else { 0 };
    if k < first {
        1 - p + 2 * (first - 1 - k)
    } else {
        p + 2 * (k - first)
    }
}

/// The order in which a sweep visits `len` rows or columns: every offset
/// below `len` once, following `sweep_at`.
pub fn interleaved_order(len: usize, parity: bool) -> (r: Vec<usize>)
    requires
        len <= 64,
    ensures
        r@.len() == len,
        forall|k: int| 0 <= k < len ==> #[trigger] r@[k] == sweep_at(len as int, if parity { 1 } else { 0 }, k),
        forall|k: int| 0 <= k < len ==> #[trigger] r@[k] < len,
        forall|i: int, j: int| 0 <= i < j < len ==> r@[i] != r@[j],
{
    let p: usize = if parity { 1 } else { 0 };
    let first = len / 2 + if parity { len % 2 } else { 0 };
    let second = len / 2 + if parity { 0 } else { len % 2 };
    let mut r: Vec<usize> = Vec::new();
    let mut k: usize = 0;
    while k < first
        invariant
            first + second == len,
            len <= 64,
            first == len / 2 + if p == 1 { len % 2 } else { 0 },
            p <= 1,
            p == 1 <==> parity,
            k <= first,
            r@.len() == k,
            forall|i: int| 0 <= i < k ==> #[trigger] r@[i] == sweep_at(len as int, p as int, i),
        decreases first - k,
    {
        r.push(1 - p + 2 * (first - 1 - k));
        k += 1;
    }
    let mut j: usize = 0;
    while j < second
        invariant
            first + second == len,
            len <= 64,
            first == len / 2 + if p == 1 { len % 2 } else { 0 },
            p <= 1,
            p == 1 <==> parity,
            j <= second,
            r@.len() == first + j,
            forall|i: int| 0 <= i < first + j ==> #[trigger] r@[i] == sweep_at(len as int, p as int, i),
        decreases second - j,
    {
        r.push(p + 2 * j);
        j += 1;
    }
    proof {
        assert forall|k: int| 0 <= k < len implies #[trigger] r@[k] < len by {
            assert(len == 2 * (len / 2) + len % 2);
        }
        assert forall|a: int, b: int| 0 <= a < b < len implies r@[a] != r@[b] by {
            assert(r@[a] == sweep_at(len as int, p as int, a));
            assert(r@[b] == sweep_at(len as int, p as int, b));
        }
    }
    r
}

/// The offsets of row `yi` of a sweep of a `w` by `h` area with phase `p`,
/// its first `n` cells.
pub open spec fn sweep_row(w: int, h: int, p: int, yi: int, n: int) -> Seq<(int, int)> {
    Seq::new(n as nat, |xi: int| (sweep_at(w, p, xi), sweep_at(h, p, yi)))
}

/// The offsets visited by a sweep of a `w` by `h` area with phase `p` in
/// its first `rows` rows, in order.
pub open spec fn sweep_visits(w: int, h: int, p: int, rows: nat) -> Seq<(int, int)>
    decreases rows,
{
    if rows == 0 {
        Seq::empty()
    } else {
        sweep_visits(w, h, p, (rows - 1) as nat) + sweep_row(w, h, p, rows - 1, w)
    }
}

/// The world position of the cell of the current chunk at `local`.
pub open spec fn global_of(ctx: ChunkContext, local: (int, int)) -> (int, int) {
    (ctx.current_chunk_cord.0 * 32 + local.0, ctx.current_chunk_cord.1 * 32 + local.1)
}

/// One visit of the sweep, at `local` of the current chunk, from `a` to
/// `b`: an element with the dispatch parity runs its rule; one with the
/// other parity is only kept alive; an empty cell is left alone.
#[verifier::opaque]
pub open spec fn sweep_step(a: ChunkContext, b: ChunkContext, local: (int, int)) -> bool {
    let pos = global_of(a, local);
    match a.cell(pos) {
        Some(e) => if a.par(pos) == a.parity {
            a.evolves(b) && e.rule_outcome((pos.0 as isize, pos.1 as isize), a, b)
        } else {
            &&& a.evolves(b)
            &&& forall|q: (int, int)| #[trigger] b.cell(q) == a.cell(q)
            &&& b.marked(pos)
            &&& b.population() == a.population()
            &&& b.updated_coordinates == a.updated_coordinates
            &&& b.unsolved_actions == a.unsolved_actions
        },
        None => b == a,
    }
}

/// One visit of the sweep at `local_cord` of the current chunk.
fn visit_cell(ctx: &mut ChunkContext, local_cord: (usize, usize))
    requires
        old(ctx).wf(),
        local_cord.0 < CHUNK_WIDTH,
        local_cord.1 < CHUNK_HEIGHT,
    ensures
        old(ctx).evolves(*final(ctx)),
        final(ctx).population() <= old(ctx).population(),
        sweep_step(*old(ctx), *final(ctx), (local_cord.0 as int, local_cord.1 as int)),
{
    let cord = ctx.current_chunk_cord();
    let (element, should_update) = {
        let chunk = ctx.current_chunk();
        (chunk.get(local_cord), chunk.parity(local_cord) == ctx.parity())
    };
    let ghost before = *ctx;
    let ghost loc = (local_cord.0 as int, local_cord.1 as int);
    proof {
        lemma_evolves_refl(before);
        assert(chunk_of(global_of(before, loc)) == ip(cord));
        assert(local_of(global_of(before, loc)) == loc);
    }
    match element {
        Some(element) => {
            if should_update {
                let global = local_cord_to_global(local_cord, cord);
                proof {
                    assert(chunk_of(ip(global)) == ip(cord));
                    assert(ctx.cell(ip(global)) == Some(element));
                    assert(ip(global) == global_of(before, loc));
                }
                element.update(global, ctx);
            } else {
                ctx.keep_alive_local(local_cord);
            }
        },
        None => {},
    }
    proof {
        reveal(sweep_step);
    }
}

/// What a full sweep of the chunk of `c0` leaves, as `r`.
#[verifier::opaque]
pub open spec fn swept(c0: ChunkContext, r: ChunkContext) -> bool {
    &&& (
        forall|q: (int, int)| c0.loaded(q) && #[trigger] r.cell(q) != c0.cell(q) ==> r.marked(q)
    )
    &&& (
        c0.evolves(r)
    )
    &&& (
        r.population() <= c0.population()
    )
    &&& (
        ({
            let area = c0.slot(ip(c0.current_chunk_cord)).unwrap().current_update_area;
            let w = area.bottom_right.0 - area.top_left.0;
            let h = area.bottom_right.1 - area.top_left.1;
            let visits = sweep_visits(w, h, if c0.parity { 1 } else { 0 }, h as nat);
            exists|steps: Seq<ChunkContext>|
                steps.len() == visits.len() + 1 && steps[0] == c0 && steps.last() == r
                    && forall|k: int|
                    0 <= k < visits.len() ==> sweep_step(
                        #[trigger] steps[k],
                        steps[k + 1],
                        (area.top_left.0 + visits[k].0, area.top_left.1 + visits[k].1),
                    )
        })
    )
}

/// Runs the element rules over the sweep area of the context's chunk in
/// the parity-interleaved order: rows in `sweep_at` order, and in each row
/// the columns in `sweep_at` order. A cell whose parity already differs
/// from the dispatch parity was written in this tick: it is kept alive for
/// the next tick and its rule is not run again.
///
/// Afterwards, chunks beyond the eight neighbours are untouched; every cell
/// that was filled is in its chunk's next sweep area; and every cell whose
/// element changed (other than a refresh of its rest counter) carries the
/// opposite of the dispatch parity, so no rule runs on it again in this
/// tick.
pub fn update_chunk(chunk_context: ChunkContext) -> (r: ChunkContext)
    requires
        chunk_context.wf(),
    ensures
        swept(chunk_context, r),
{
    let mut ctx = chunk_context;
    let ghost start = ctx;
    proof {
        lemma_evolves_refl(start);
    }
    let update_rect = ctx.current_chunk().get_update_rect();
    let height = (update_rect.bottom() - update_rect.top()) as usize;
    let width = (update_rect.right() - update_rect.left()) as usize;
    let ys = interleaved_order(height, ctx.parity());
    let xs = interleaved_order(width, ctx.parity());
    let cord = ctx.current_chunk_cord();
    let ghost p: int = if start.parity { 1 } else { 0 };
    let ghost w = width as int;
    let ghost h = height as int;
    let ghost mut steps: Seq<ChunkContext> = seq![start];
    let ghost mut visited: Seq<(int, int)> = Seq::empty();
    let mut yi: usize = 0;
    while yi < ys.len()
        invariant
            start.wf(),
            start.evolves(ctx),
            ctx.current_chunk_cord == cord,
            cord == start.current_chunk_cord,
            update_rect == start.slot(ip(cord)).unwrap().current_update_area,
            w == update_rect.bottom_right.0 - update_rect.top_left.0,
            h == update_rect.bottom_right.1 - update_rect.top_left.1,
            p == if start.parity { 1int } else { 0int },
            ys@.len() == height,
            xs@.len() == width,
            w == width,
            h == height,
            yi <= height,
            forall|k: int| 0 <= k < height ==> #[trigger] ys@[k] < height && ys@[k] == sweep_at(h, p, k),
            forall|k: int| 0 <= k < width ==> #[trigger] xs@[k] < width && xs@[k] == sweep_at(w, p, k),
            0 <= update_rect.top_left.0 && update_rect.top_left.0 + width <= CHUNK_WIDTH,
            0 <= update_rect.top_left.1 && update_rect.top_left.1 + height <= CHUNK_HEIGHT,
            start.population() >= ctx.population(),
            visited == sweep_visits(w, h, p, yi as nat),
            steps.len() == visited.len() + 1,
            steps[0] == start,
            steps.last() == ctx,
            forall|k: int|
                0 <= k < visited.len() ==> sweep_step(
                    #[trigger] steps[k],
                    steps[k + 1],
                    (update_rect.top_left.0 + visited[k].0, update_rect.top_left.1 + visited[k].1),
                ),
        decreases ys@.len() - yi,
    {
        let y = ys[yi] + update_rect.top() as usize;
        let mut xi: usize = 0;
        while xi < xs.len()
            invariant
                start.wf(),
                start.evolves(ctx),
                ctx.current_chunk_cord == cord,
                cord == start.current_chunk_cord,
                update_rect == start.slot(ip(cord)).unwrap().current_update_area,
                p == if start.parity { 1int } else { 0int },
                xs@.len() == width,
                w == width,
                h == height,
                yi < height,
                xi <= width,
                y == ys@[yi as int] + update_rect.top_left.1,
                ys@[yi as int] == sweep_at(h, p, yi as int),
                forall|k: int| 0 <= k < width ==> #[trigger] xs@[k] < width && xs@[k] == sweep_at(w, p, k),
                0 <= update_rect.top_left.0 && update_rect.top_left.0 + width <= CHUNK_WIDTH,
                y < CHUNK_HEIGHT,
                start.population() >= ctx.population(),
                visited == sweep_visits(w, h, p, yi as nat) + sweep_row(w, h, p, yi as int, xi as int),
                steps.len() == visited.len() + 1,
                steps[0] == start,
                steps.last() == ctx,
                forall|k: int|
                    0 <= k < visited.len() ==> sweep_step(
                        #[trigger] steps[k],
                        steps[k + 1],
                        (update_rect.top_left.0 + visited[k].0, update_rect.top_left.1 + visited[k].1),
                    ),
            decreases xs@.len() - xi,
        {
            let x = xs[xi] + update_rect.left() as usize;
            let ghost before = ctx;
            let ghost loc = (update_rect.top_left.0 + sweep_at(w, p, xi as int), update_rect.top_left.1 + sweep_at(h, p, yi as int));
            visit_cell(&mut ctx, (x, y));
            proof {
                assert(loc == (x as int, y as int));
                lemma_evolves_trans(start, before, ctx);
            }
            proof {
                assert(sweep_step(before, ctx, loc));
                let old_visited = visited;
                let old_steps = steps;
                visited = visited.push((sweep_at(w, p, xi as int), sweep_at(h, p, yi as int)));
                steps = steps.push(ctx);
                assert(sweep_row(w, h, p, yi as int, xi as int + 1) =~= sweep_row(w, h, p, yi as int, xi as int).push((sweep_at(w, p, xi as int), sweep_at(h, p, yi as int))));
                assert(visited =~= sweep_visits(w, h, p, yi as nat) + sweep_row(w, h, p, yi as int, xi as int + 1));
                assert forall|k: int|
                    0 <= k < visited.len() implies sweep_step(
                        #[trigger] steps[k],
                        steps[k + 1],
                        (update_rect.top_left.0 + visited[k].0, update_rect.top_left.1 + visited[k].1),
                    ) by {
                    if k < old_visited.len() {
                        assert(steps[k] == old_steps[k]);
                        assert(steps[k + 1] == old_steps[k + 1]);
                        assert(visited[k] == old_visited[k]);
                    } else {
                        assert(steps[k] == before);
                    }
                }
            }
            xi += 1;
        }
        proof {
            assert(visited =~= sweep_visits(w, h, p, (yi + 1) as nat));
        }
        yi += 1;
    }
    proof {
        assert(steps.len() == sweep_visits(w, h, p, h as nat).len() + 1);
        reveal(swept);
    }
    ctx
}

} // verus!
