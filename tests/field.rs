use falling_sand::elements::{Element, ElementType};
use falling_sand::field::Field;

fn kind_at(f: &Field, p: (isize, isize)) -> Option<ElementType> {
    f.get(p).map(|e| e.get_type())
}

fn chunk_count(f: &Field) -> usize {
    f.chunks.iter().map(|row| row.iter().filter(|s| s.is_some()).count()).sum()
}

#[test]
fn new_field_is_empty() {
    let f = Field::new((8, 8), 4);
    assert_eq!(chunk_count(&f), 0);
    assert!(f.get((16, 0)).is_none());
    assert!(!f.parity);
}

#[test]
fn set_creates_chunk_and_get_reads_back() {
    let mut f = Field::new((2, 2), 1);
    f.set((40, 3), Some(Element::block()));
    assert_eq!(chunk_count(&f), 1);
    assert!(kind_at(&f, (40, 3)) == Some(ElementType::Block));
    f.set((40, 3), None);
    assert!(f.get((40, 3)).is_none());
}

#[test]
fn set_outside_world_is_ignored() {
    let mut f = Field::new((1, 1), 1);
    f.set((32, 0), Some(Element::sand()));
    f.set((-1, 0), Some(Element::sand()));
    assert_eq!(chunk_count(&f), 0);
    assert!(f.load_pixels().is_empty());
}

#[test]
fn sand_falls_one_row_per_tick() {
    let mut f = Field::new((8, 8), 4);
    f.set((16, 0), Some(Element::sand()));
    for _ in 0..15 {
        f.update();
    }
    assert!(kind_at(&f, (16, 15)) == Some(ElementType::Sand));
    assert!(f.get((16, 0)).is_none());
    f.update();
    assert!(kind_at(&f, (16, 16)) == Some(ElementType::Sand));
    assert!(f.get((16, 15)).is_none());
}

#[test]
fn parity_flips_once_per_tick() {
    let mut f = Field::new((2, 2), 1);
    f.set((3, 3), Some(Element::sand()));
    let p = f.parity;
    f.update();
    assert_eq!(f.parity, !p);
    f.update();
    assert_eq!(f.parity, p);
}

#[test]
fn empty_chunks_are_evicted() {
    let mut f = Field::new((2, 2), 1);
    f.set((3, 3), Some(Element::sand()));
    f.set((3, 3), None);
    assert_eq!(chunk_count(&f), 1);
    f.update();
    assert_eq!(chunk_count(&f), 0);
}

#[test]
fn block_stays_and_stops_reporting() {
    let mut f = Field::new((8, 8), 4);
    f.set((5, 5), Some(Element::block()));
    f.update();
    let first = f.load_pixels();
    assert!(first.iter().any(|(p, c)| *p == (5, 5) && *c == [0xb3, 0xb3, 0xb3, 0xff]));
    for _ in 0..99 {
        f.update();
        assert!(f.load_pixels().iter().all(|(p, c)| *p == (5, 5) && *c == [0xb3, 0xb3, 0xb3, 0xff]));
    }
    assert!(kind_at(&f, (5, 5)) == Some(ElementType::Block));
}

#[test]
fn load_pixels_reports_empty_cells_as_transparent() {
    let mut f = Field::new((1, 1), 1);
    f.set((2, 2), Some(Element::sand()));
    f.set((2, 2), None);
    let pixels = f.load_pixels();
    assert_eq!(pixels, vec![((2, 2), [0, 0, 0, 0]), ((2, 2), [0, 0, 0, 0])]);
    assert!(f.load_pixels().is_empty());
}

#[test]
fn water_row_on_a_floor_settles() {
    let mut f = Field::new((1, 1), 4);
    for x in 0..32 {
        f.set((x, 11), Some(Element::block()));
        f.set((x, 10), Some(Element::water()));
    }
    for _ in 0..200 {
        f.update();
    }
    for x in 0..32 {
        match f.get((x, 10)) {
            Some(Element::Liquid(l, ElementType::Water)) => assert!(l.stable_time >= l.move_time as u64),
            _ => panic!("water left its row"),
        }
    }
}

#[test]
fn sand_sinks_through_oil_in_a_closed_column() {
    let mut f = Field::new((2, 2), 2);
    for y in 0..9 {
        f.set((9, y), Some(Element::block()));
        f.set((11, y), Some(Element::block()));
    }
    f.set((10, 8), Some(Element::block()));
    f.set((10, 7), Some(Element::oil()));
    f.set((10, 3), Some(Element::sand()));
    for _ in 0..100 {
        f.update();
    }
    assert!(kind_at(&f, (10, 7)) == Some(ElementType::Sand));
    assert!(kind_at(&f, (10, 6)) == Some(ElementType::Oil));
}

#[test]
fn sand_falling_into_missing_chunk_creates_it() {
    let mut f = Field::new((2, 2), 2);
    f.set((5, 31), Some(Element::sand()));
    assert_eq!(chunk_count(&f), 1);
    f.update();
    assert!(f.chunks[1][0].is_some());
    assert!(kind_at(&f, (5, 32)) == Some(ElementType::Sand));
    assert!(f.get((5, 31)).is_none());
    assert!(f.chunks[0][0].is_none());
}

#[test]
fn enclosed_wet_sand_dries_after_six_hundred_updates() {
    let mut f = Field::new((1, 1), 1);
    f.set((4, 6), Some(Element::block()));
    f.set((3, 5), Some(Element::block()));
    f.set((5, 5), Some(Element::block()));
    f.set((4, 5), Some(Element::wet_sand()));
    for _ in 0..599 {
        f.update();
    }
    assert!(kind_at(&f, (4, 5)) == Some(ElementType::WetSand(599)));
    f.update();
    assert!(kind_at(&f, (4, 5)) == Some(ElementType::Sand));
}

#[test]
fn brush_fills_clipped_square() {
    let mut f = Field::new((1, 1), 1);
    f.set_in_area((0, 0), (3, 3), Some(Element::block()));
    assert!(kind_at(&f, (0, 0)) == Some(ElementType::Block));
    assert!(kind_at(&f, (1, 1)) == Some(ElementType::Block));
    assert!(f.get((2, 2)).is_none());
    assert_eq!(f.load_pixels().len(), 4);
    f.set_in_area((31, 31), (4, 4), Some(Element::sand()));
    assert!(kind_at(&f, (29, 29)) == Some(ElementType::Sand));
    assert!(kind_at(&f, (31, 31)) == Some(ElementType::Sand));
    assert_eq!(f.load_pixels().len(), 9);
}

#[test]
fn chunk_rectangles_for_debug_overlay() {
    let mut f = Field::new((2, 2), 1);
    f.set((40, 40), Some(Element::block()));
    let rects = f.get_chunks();
    assert_eq!(rects.len(), 1);
    assert_eq!((rects[0].left(), rects[0].top(), rects[0].right(), rects[0].bottom()), (32, 32, 64, 64));
    f.update();
    let sweeps = f.get_chunks_update_rects();
    assert_eq!(sweeps.len(), 1);
    assert!(sweeps[0].is_inside((40, 40)));
}

#[test]
fn water_sinks_below_oil_in_a_closed_column() {
    let mut f = Field::new((1, 1), 1);
    for y in 0..8 {
        f.set((9, y), Some(Element::block()));
        f.set((11, y), Some(Element::block()));
    }
    f.set((10, 7), Some(Element::block()));
    f.set((10, 6), Some(Element::oil()));
    f.set((10, 5), Some(Element::water()));
    for _ in 0..100 {
        f.update();
    }
    assert!(kind_at(&f, (10, 6)) == Some(ElementType::Water));
    assert!(kind_at(&f, (10, 5)) == Some(ElementType::Oil));
}
