use falling_sand::chunk::Chunk;
use falling_sand::chunk_context::{ChunkContext, OutOfRange, UnsolvedActions};
use falling_sand::elements::{Element, ElementType};
use falling_sand::rect::Rect;

fn grid(width: usize, height: usize, present: &[(usize, usize)]) -> Vec<Vec<Option<Chunk>>> {
    let mut rows = Vec::new();
    for y in 0..height {
        let mut row = Vec::new();
        for x in 0..width {
            row.push(if present.contains(&(x, y)) { Some(Chunk::new(false)) } else { None });
        }
        rows.push(row);
    }
    rows
}

fn context(width: usize, height: usize, present: &[(usize, usize)], current: (isize, isize)) -> ChunkContext {
    ChunkContext::new(
        grid(width, height, present),
        Rect::from((0, 0), (width as isize, height as isize)),
        current,
        false,
    )
}

fn population(ctx: &ChunkContext) -> usize {
    let mut n = ctx.unsolved_actions.len();
    for row in ctx.chunks.iter() {
        for slot in row.iter() {
            if let Some(c) = slot {
                n += c.number_of_elements();
            }
        }
    }
    n
}

#[test]
fn chunk_set_counts_and_marks() {
    let mut c = Chunk::new(true);
    assert_eq!(c.number_of_elements(), 0);
    c.set((3, 4), Element::sand(), false);
    assert_eq!(c.number_of_elements(), 1);
    assert!(!c.parity((3, 4)));
    assert!(c.parity((0, 0)));
    assert!(c.next_rect.is_inside((3, 4)));
    c.set((3, 4), Element::block(), true);
    assert_eq!(c.number_of_elements(), 1);
    c.clear((3, 4));
    assert_eq!(c.number_of_elements(), 0);
    assert!(c.get((3, 4)).is_none());
    c.clear((3, 4));
    assert_eq!(c.number_of_elements(), 0);
}

#[test]
fn chunk_update_rect_moves_next_area_to_sweep_area() {
    let mut c = Chunk::new(false);
    c.add_point_in_update_cycle((5, 5));
    assert!(!c.needs_updates());
    c.update_rect();
    assert!(c.needs_updates());
    assert!(c.get_update_rect().is_inside((5, 5)));
    assert!(!c.next_rect.has_value());
}

#[test]
fn chunk_neighbourhood_mark_is_clamped() {
    let mut c = Chunk::new(false);
    c.add_point_in_update_cycle_with_neighbourhood((0, 0));
    let r = c.next_rect;
    assert_eq!((r.left(), r.top(), r.right(), r.bottom()), (0, 0, 2, 2));
}

#[test]
fn context_get_out_of_range_is_an_error() {
    let ctx = context(4, 4, &[(0, 0)], (0, 0));
    assert!(matches!(ctx.get((64, 0)), Err(OutOfRange)));
    assert!(matches!(ctx.get((-1, 0)), Err(OutOfRange)));
    assert!(matches!(ctx.get((40, 0)), Ok(None)));
    assert!(!ctx.reachable_empty_or_fitting((64, 0), |_| true));
    assert!(ctx.reachable_empty_or_fitting((40, 0), |_| false));
    assert!(!ctx.reachable_and_fitting((64, 0), |_| true));
    assert!(ctx.empty_and_reachable((5, 5)));
}

#[test]
fn context_set_marks_processed_and_records() {
    let mut ctx = context(2, 2, &[(0, 0)], (0, 0));
    ctx.set((5, 5), Element::sand());
    assert!(matches!(ctx.get((5, 5)), Ok(Some(Element::MovableSolid(_, ElementType::Sand)))));
    assert!(ctx.current_chunk().parity((5, 5)));
    assert_eq!(ctx.updated_coordinates, vec![(5, 5)]);
    assert!(ctx.current_chunk().next_rect.is_inside((4, 4)));
    assert!(ctx.current_chunk().next_rect.is_inside((6, 6)));
}

#[test]
fn context_write_to_missing_chunk_is_deferred() {
    let mut ctx = context(2, 1, &[(0, 0)], (0, 0));
    ctx.set((32, 10), Element::sand());
    assert_eq!(ctx.unsolved_actions.len(), 1);
    match ctx.unsolved_actions[0] {
        UnsolvedActions::MissingChunkInsertion { chunk_cord, insertion_cord, element_to_insert } => {
            assert_eq!(chunk_cord, (1, 0));
            assert_eq!(insertion_cord, (0, 10));
            assert!(matches!(element_to_insert.get_type(), ElementType::Sand));
        }
    }
    assert!(ctx.updated_coordinates.is_empty());
}

#[test]
fn context_write_outside_world_is_dropped() {
    let mut ctx = context(1, 1, &[(0, 0)], (0, 0));
    ctx.set((32, 10), Element::sand());
    ctx.set((-1, 10), Element::sand());
    assert!(ctx.unsolved_actions.is_empty());
    assert!(ctx.updated_coordinates.is_empty());
}

#[test]
fn move_from_to_swaps_and_keeps_count() {
    let mut ctx = context(2, 2, &[(0, 0)], (0, 0));
    ctx.set((3, 3), Element::sand());
    ctx.set((3, 4), Element::water());
    let before = population(&ctx);
    ctx.move_from_to((3, 3), (3, 4), Element::sand());
    assert_eq!(population(&ctx), before);
    assert!(matches!(ctx.get((3, 4)), Ok(Some(Element::MovableSolid(_, ElementType::Sand)))));
    assert!(matches!(ctx.get((3, 3)), Ok(Some(Element::Liquid(_, ElementType::Water)))));
}

#[test]
fn move_from_to_into_empty_cell_keeps_count() {
    let mut ctx = context(2, 2, &[(0, 0)], (0, 0));
    ctx.set((3, 3), Element::sand());
    let before = population(&ctx);
    ctx.move_from_to((3, 3), (3, 4), Element::sand());
    assert_eq!(population(&ctx), before);
    assert!(matches!(ctx.get((3, 3)), Ok(None)));
}

#[test]
fn move_from_to_into_missing_chunk_keeps_count() {
    let mut ctx = context(1, 2, &[(0, 0)], (0, 0));
    ctx.set((3, 31), Element::sand());
    let before = population(&ctx);
    ctx.move_from_to((3, 31), (3, 32), Element::sand());
    assert_eq!(population(&ctx), before);
    assert_eq!(ctx.unsolved_actions.len(), 1);
}

#[test]
fn clear_empties_and_refreshes_neighbours() {
    let mut ctx = context(1, 1, &[(0, 0)], (0, 0));
    let mut sand = Element::sand();
    if let Element::MovableSolid(d, _) = &mut sand {
        d.stable_time = 50;
    }
    ctx.set_static((3, 4), sand);
    ctx.set_static((3, 3), Element::block());
    ctx.clear((3, 3));
    assert!(matches!(ctx.get((3, 3)), Ok(None)));
    match ctx.get((3, 4)) {
        Ok(Some(Element::MovableSolid(d, _))) => assert_eq!(d.stable_time, 30),
        _ => panic!("the sand below should still be there"),
    }
}

#[test]
fn keep_alive_marks_without_writing() {
    let mut ctx = context(1, 1, &[(0, 0)], (0, 0));
    ctx.keep_alive((7, 9));
    assert!(ctx.current_chunk().next_rect.is_inside((7, 9)));
    assert!(ctx.updated_coordinates.is_empty());
    ctx.keep_alive_local((1, 2));
    assert!(ctx.current_chunk().next_rect.is_inside((1, 2)));
}
