use falling_sand::field::{global_cord_to_chunk_local, local_cord_to_global};
use falling_sand::line::Ubresenham;
use falling_sand::neighbours::Neighbours;
use falling_sand::rect::{Rect, RectIterator};
use falling_sand::threads::interleaved_order;

#[test]
fn rect_new_is_empty() {
    let r = Rect::new();
    assert!(!r.has_value());
    assert!(!r.is_inside((0, 0)));
}

#[test]
fn rect_expand_from_empty_gives_unit_rect() {
    let r = Rect::new().expand((5, 7));
    assert_eq!((r.left(), r.top(), r.right(), r.bottom()), (5, 7, 6, 8));
    assert!(r.is_inside((5, 7)));
    assert!(!r.is_inside((6, 7)));
}

#[test]
fn rect_expand_grows_to_bounding_box() {
    let r = Rect::from((2, 2), (4, 4)).expand((10, 0));
    assert_eq!((r.left(), r.top(), r.right(), r.bottom()), (2, 0, 11, 4));
    let same = r.expand((3, 3));
    assert_eq!((same.left(), same.top(), same.right(), same.bottom()), (2, 0, 11, 4));
}

#[test]
fn rect_inside_and_inclusive() {
    let r = Rect::from((0, 0), (3, 3));
    assert!(r.is_inside((2, 2)));
    assert!(!r.is_inside((3, 2)));
    assert!(r.is_inside_inclusive((3, 3)));
    assert!(!r.is_inside_inclusive((4, 3)));
}

#[test]
fn rect_from_center_odd_and_even() {
    let r = Rect::from_center((10, 10), (3, 4));
    assert_eq!((r.left(), r.top(), r.right(), r.bottom()), (9, 8, 12, 12));
}

#[test]
fn rect_iterator_walks_rows() {
    let r = Rect::from((1, 1), (3, 3));
    let mut it: RectIterator = r.into_iter();
    let mut seen = Vec::new();
    while let Some(p) = it.next() {
        seen.push(p);
    }
    assert_eq!(seen, vec![(1, 1), (2, 1), (1, 2), (2, 2)]);
}

#[test]
fn rect_iterator_of_empty_rect_is_empty() {
    let mut it = RectIterator::new(Rect::new());
    assert!(it.next().is_none());
}

#[test]
fn neighbours_of_lists_eight_in_order() {
    let mut n = Neighbours::of((5, 5));
    let mut seen = Vec::new();
    while let Some(p) = n.next() {
        seen.push(p);
    }
    assert_eq!(seen, vec![(4, 4), (5, 4), (6, 4), (4, 5), (6, 5), (4, 6), (5, 6), (6, 6)]);
}

#[test]
fn neighbours_direct_horizontal_vertical() {
    assert_eq!(Neighbours::direct_of((1, 1)).all_neighbours, vec![(1, 0), (0, 1), (2, 1), (1, 2)]);
    assert_eq!(Neighbours::horisontal_of((1, 1)).all_neighbours, vec![(0, 1), (2, 1)]);
    assert_eq!(Neighbours::vertical_of((1, 1)).all_neighbours, vec![(1, 0), (1, 2)]);
}

#[test]
fn neighbours_with_boundaries_skips_outside() {
    let mut n = Neighbours::of((0, 0)).with_boundaries(Rect::from((0, 0), (32, 32)));
    let mut seen = Vec::new();
    while let Some(p) = n.next() {
        seen.push(p);
    }
    assert_eq!(seen, vec![(1, 0), (0, 1), (1, 1)]);
}

#[test]
fn split_positive_position() {
    assert_eq!(global_cord_to_chunk_local((33, 70)), ((1, 2), (1, 6)));
    assert_eq!(global_cord_to_chunk_local((31, 0)), ((0, 0), (31, 0)));
}

#[test]
fn split_negative_position_is_euclidean() {
    assert_eq!(global_cord_to_chunk_local((-1, -32)), ((-1, -1), (31, 0)));
    assert_eq!(global_cord_to_chunk_local((-33, -64)), ((-2, -2), (31, 0)));
}

#[test]
fn local_to_global_round_trip() {
    assert_eq!(local_cord_to_global((0, 10), (1, 0)), (32, 10));
    let (c, l) = global_cord_to_chunk_local((77, 45));
    assert_eq!(local_cord_to_global(l, c), (77, 45));
}

#[test]
fn sweep_order_phase_zero() {
    assert_eq!(interleaved_order(5, false), vec![3, 1, 0, 2, 4]);
    assert_eq!(interleaved_order(4, false), vec![3, 1, 0, 2]);
}

#[test]
fn sweep_order_phase_one() {
    assert_eq!(interleaved_order(5, true), vec![4, 2, 0, 1, 3]);
    assert_eq!(interleaved_order(4, true), vec![2, 0, 1, 3]);
}

#[test]
fn sweep_order_visits_each_offset_once() {
    for len in 0..33usize {
        for parity in [false, true] {
            let mut order = interleaved_order(len, parity);
            order.sort();
            assert_eq!(order, (0..len).collect::<Vec<usize>>());
        }
    }
}

#[test]
fn ubresenham_horizontal_line() {
    let mut line = Ubresenham::new((2, 5), (6, 5));
    let mut seen = Vec::new();
    while let Some(p) = line.next() {
        seen.push(p);
    }
    assert_eq!(seen, vec![(2, 5), (3, 5), (4, 5), (5, 5)]);
}

#[test]
fn ubresenham_diagonal_line_steps_both_axes() {
    let line = Ubresenham::new((0, 0), (3, 3));
    assert_eq!(line.points, vec![(0, 0), (1, 1), (2, 2)]);
    let back = Ubresenham::new((4, 1), (1, 1));
    assert_eq!(back.points, vec![(4, 1), (3, 1), (2, 1)]);
}
