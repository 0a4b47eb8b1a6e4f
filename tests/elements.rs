use falling_sand::acid::dissolve_with;
use falling_sand::liquid::liquid_displaces;
use falling_sand::movable_solids::movable_displaces;
use falling_sand::acid::settle_acid;
use falling_sand::chunk::Chunk;
use falling_sand::chunk_context::ChunkContext;
use falling_sand::elements::{density_swap_prob, Direction, Element, ElementType, PROBABILITY_SCALE};
use falling_sand::elements_convert::{sand_convert, water_around, wet_sand_convert};
use falling_sand::liquid::spread_distance;
use falling_sand::rect::Rect;

fn one_chunk() -> ChunkContext {
    ChunkContext::new(vec![vec![Some(Chunk::new(false))]], Rect::from((0, 0), (1, 1)), (0, 0), false)
}

fn sand_data() -> falling_sand::elements::MovableSolid {
    match Element::sand() {
        Element::MovableSolid(d, _) => d,
        _ => panic!("sand is a movable solid"),
    }
}

#[test]
fn colours_of_elements() {
    assert_eq!(Element::sand().get_color(), [0xff, 0xff, 0x00, 0xff]);
    assert_eq!(Element::water().get_color(), [0x00, 0x50, 0xff, 0xff]);
    assert_eq!(Element::wet_sand().get_color(), [0xb3, 0xb3, 0x00, 0xff]);
    assert_eq!(Element::oil().get_color(), [0x33, 0x33, 0x10, 0xff]);
    assert_eq!(Element::block().get_color(), [0xb3, 0xb3, 0xb3, 0xff]);
}

#[test]
fn densities_in_tenths() {
    assert_eq!(Element::sand().density(), 100);
    assert_eq!(Element::water().density(), 70);
    assert_eq!(Element::wet_sand().density(), 101);
    assert_eq!(Element::oil().density(), 20);
    assert_eq!(Element::block().density(), 500);
}

#[test]
fn kinds_and_shapes() {
    assert!(Element::block().solid().is_some());
    assert!(Element::sand().movable_solid().is_some());
    assert!(Element::oil().liquid().is_some());
    assert!(Element::water().movable_solid().is_none());
    assert!(matches!(Element::acid(5).get_type(), ElementType::Acid(5)));
    assert!(Element::wet_sand().get_type() == ElementType::WetSand(0));
}

#[test]
fn refresh_lowers_stable_time() {
    let mut d = sand_data();
    d.stable_time = 25;
    assert_eq!(d.refresh().stable_time, 5);
    d.stable_time = 7;
    assert_eq!(d.refresh().stable_time, 0);
    match Element::water() {
        Element::Liquid(mut l, _) => {
            l.stable_time = 40;
            assert_eq!(l.refresh().stable_time, 0);
        }
        _ => panic!("water is a liquid"),
    }
}

#[test]
fn direction_sign_and_opposite() {
    assert_eq!(Direction::Left.sign(), -1);
    assert_eq!(Direction::Right.sign(), 1);
    assert!(Direction::Left.opposite() == Direction::Right);
}

#[test]
fn swap_chance_of_sand_through_water() {
    assert_eq!(density_swap_prob(70, 100, 0), (30, 100));
}

#[test]
fn swap_chance_falls_back_on_slip_through() {
    assert_eq!(density_swap_prob(100, 70, 200), (200, PROBABILITY_SCALE));
    assert_eq!(density_swap_prob(99, 100, 200), (200, PROBABILITY_SCALE));
    assert_eq!(density_swap_prob(10, 20, 20000), (PROBABILITY_SCALE, PROBABILITY_SCALE));
}

#[test]
fn spread_distance_stays_in_range() {
    match Element::water() {
        Element::Liquid(l, _) => {
            for _ in 0..200 {
                let d = spread_distance(l);
                assert!((1..=10).contains(&d));
            }
        }
        _ => panic!("water is a liquid"),
    }
}

#[test]
fn sand_next_to_water_turns_wet() {
    let mut ctx = one_chunk();
    ctx.set_static((5, 5), Element::sand());
    ctx.set_static((6, 5), Element::water());
    assert!(water_around((5, 5), &ctx));
    assert!(matches!(sand_convert(sand_data(), (5, 5), &ctx).get_type(), ElementType::WetSand(0)));
    assert!(matches!(sand_convert(sand_data(), (9, 9), &ctx).get_type(), ElementType::Sand));
}

#[test]
fn wet_sand_dries_step_by_step() {
    let ctx = one_chunk();
    assert!(wet_sand_convert(sand_data(), 5, (9, 9), &ctx).get_type() == ElementType::WetSand(6));
    assert!(wet_sand_convert(sand_data(), 599, (9, 9), &ctx).get_type() == ElementType::Sand);
}

#[test]
fn wet_sand_next_to_water_resets_dryness() {
    let mut ctx = one_chunk();
    ctx.set_static((9, 10), Element::water());
    assert!(wet_sand_convert(sand_data(), 599, (9, 9), &ctx).get_type() == ElementType::WetSand(0));
}

#[test]
fn spent_acid_leaves_its_cell_empty() {
    let mut ctx = one_chunk();
    let acid = match Element::acid(3) {
        Element::Liquid(l, _) => l,
        _ => panic!("acid is a liquid"),
    };
    settle_acid(&mut ctx, (4, 4), acid, 3, 1, true);
    assert!(matches!(ctx.get((4, 4)), Ok(Some(Element::Liquid(_, ElementType::Acid(2))))));
    settle_acid(&mut ctx, (4, 4), acid, 3, 3, true);
    assert!(matches!(ctx.get((4, 4)), Ok(None)));
    assert_eq!(ctx.updated_coordinates, vec![(4, 4), (4, 4)]);
}

#[test]
fn movable_solid_falls_into_empty_cell() {
    let mut ctx = one_chunk();
    ctx.set_static((4, 4), Element::sand());
    let d = sand_data();
    d.update(ElementType::Sand, (4, 4), &mut ctx);
    assert!(matches!(ctx.get((4, 4)), Ok(None)));
    match ctx.get((4, 5)) {
        Ok(Some(Element::MovableSolid(m, ElementType::Sand))) => {
            assert_eq!(m.stable_time, 0);
            assert!(!m.is_falling);
        }
        _ => panic!("the grain should be one cell lower"),
    }
}

#[test]
fn enclosed_sand_rests_and_counts() {
    let mut ctx = one_chunk();
    ctx.set_static((4, 5), Element::block());
    ctx.set_static((3, 4), Element::block());
    ctx.set_static((5, 4), Element::block());
    ctx.set_static((4, 4), Element::sand());
    sand_data().update(ElementType::Sand, (4, 4), &mut ctx);
    match ctx.get((4, 4)) {
        Ok(Some(Element::MovableSolid(m, ElementType::Sand))) => assert_eq!(m.stable_time, 1),
        _ => panic!("the grain should rest in place"),
    }
    assert!(ctx.current_chunk().parity((4, 4)));
}

#[test]
fn walled_liquid_rests_and_turns() {
    let mut ctx = one_chunk();
    ctx.set_static((4, 5), Element::block());
    ctx.set_static((3, 4), Element::block());
    ctx.set_static((5, 4), Element::block());
    let water = match Element::water() {
        Element::Liquid(l, _) => l,
        _ => panic!("water is a liquid"),
    };
    ctx.set_static((4, 4), Element::Liquid(water, ElementType::Water));
    water.update(ElementType::Water, (4, 4), &mut ctx);
    match ctx.get((4, 4)) {
        Ok(Some(Element::Liquid(l, ElementType::Water))) => {
            assert_eq!(l.stable_time, 1);
            assert!(l.side == water.side.opposite());
        }
        _ => panic!("the water should rest in place"),
    }
}

#[test]
fn liquid_sinks_into_empty_cell() {
    let mut ctx = one_chunk();
    let oil = match Element::oil() {
        Element::Liquid(l, _) => l,
        _ => panic!("oil is a liquid"),
    };
    ctx.set_static((4, 4), Element::Liquid(oil, ElementType::Oil));
    oil.update(ElementType::Oil, (4, 4), &mut ctx);
    assert!(matches!(ctx.get((4, 4)), Ok(None)));
    assert!(matches!(ctx.get((4, 5)), Ok(Some(Element::Liquid(_, ElementType::Oil)))));
}

#[test]
fn static_solid_writes_itself_back() {
    let mut ctx = one_chunk();
    ctx.set_static((4, 4), Element::block());
    ctx.updated_coordinates.clear();
    Element::block().update((4, 4), &mut ctx);
    assert!(matches!(ctx.get((4, 4)), Ok(Some(Element::Solid(_, ElementType::Block)))));
    assert_eq!(ctx.updated_coordinates, vec![(4, 4)]);
}

#[test]
fn displacement_with_a_given_draw() {
    let sand = sand_data();
    assert!(movable_displaces(sand, Element::water(), true));
    assert!(!movable_displaces(sand, Element::water(), false));
    assert!(!movable_displaces(sand, Element::block(), true));
    assert!(!movable_displaces(sand, Element::sand(), true));
    let oil = match Element::oil() {
        Element::Liquid(l, _) => l,
        _ => panic!("oil is a liquid"),
    };
    assert!(liquid_displaces(oil, Element::water(), true));
    assert!(!liquid_displaces(oil, Element::oil(), true));
}

#[test]
fn dissolving_with_given_draws() {
    let mut ctx = one_chunk();
    ctx.set_static((5, 4), Element::sand());
    ctx.set_static((4, 5), Element::sand());
    ctx.set_static((6, 5), Element::block());
    ctx.set_static((5, 6), Element::acid(2));
    let removed = dissolve_with((5, 5), &mut ctx, 5, &vec![true, true, true, true, true]);
    assert_eq!(removed, 3);
    assert!(matches!(ctx.get((5, 4)), Ok(None)));
    assert!(matches!(ctx.get((4, 5)), Ok(None)));
    assert!(matches!(ctx.get((6, 5)), Ok(None)));
    assert!(matches!(ctx.get((5, 6)), Ok(Some(_))));
    let mut ctx = one_chunk();
    ctx.set_static((5, 4), Element::sand());
    ctx.set_static((4, 5), Element::sand());
    ctx.set_static((6, 5), Element::sand());
    let removed = dissolve_with((5, 5), &mut ctx, 1, &vec![false, true, true, true, true]);
    assert_eq!(removed, 1);
    assert!(matches!(ctx.get((5, 4)), Ok(Some(_))));
    assert!(matches!(ctx.get((4, 5)), Ok(None)));
    assert!(matches!(ctx.get((6, 5)), Ok(Some(_))));
}
