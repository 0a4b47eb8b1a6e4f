use vstd::prelude::*;

verus! {

pub open spec fn abs(v: int) -> int {
    if v < 0 { -v } else { v }
}

pub open spec fn min(a: int, b: int) -> int {
    if a < b { a } else { b }
}

pub open spec fn max(a: int, b: int) -> int {
    if a < b { b } else { a }
}

/// A line end small enough for the rasterizer's arithmetic.
pub open spec fn small(p: (isize, isize)) -> bool {
    -16777216 <= p.0 <= 16777216 && -16777216 <= p.1 <= 16777216
}

/// The points of the Bresenham line from `start` towards `end`, `end` left
/// out, as `bresenham::Bresenham` yields them.
pub uninterp spec fn bresenham_points(start: (isize, isize), end: (isize, isize)) -> Seq<(isize, isize)>;

/// Relies on `bresenham::Bresenham::new(start, end)` and its iterator: it
/// yields one point per step along the longer axis, from `start` (included)
/// towards `end` (left out), each inside the rectangle spanned by the two
/// ends; on a horizontal line the points are consecutive columns.
#[verifier::external_body]
pub(crate) fn line_points(start: (isize, isize), end: (isize, isize)) -> (r: Vec<(isize, isize)>)
    requires
        small(start),
        small(end),
    ensures
        r@ == bresenham_points(start, end),
        r@.len() == max(abs(end.0 - start.0), abs(end.1 - start.1)),
        r@.len() > 0 ==> r@[0] == start,
        forall|i: int|
            0 <= i < r@.len() ==> min(start.0 as int, end.0 as int) <= (#[trigger] r@[i]).0 <= max(
                start.0 as int,
                end.0 as int,
            ) && min(start.1 as int, end.1 as int) <= r@[i].1 <= max(start.1 as int, end.1 as int),
        start.1 == end.1 ==> forall|i: int|
            0 <= i < r@.len() ==> #[trigger] r@[i] == (
                (start.0 + if end.0 >= start.0 { i } else { -i }) as isize,
                start.1,
            ),
{
    bresenham::Bresenham::new(start, end).collect()
}

/// The points of a straight line between two pixels, the first included
/// and the last left out.
pub struct Ubresenham {
    pub points: Vec<(usize, usize)>,
    pub index: usize,
}

impl Ubresenham {
    pub fn new(first: (usize, usize), second: (usize, usize)) -> (r: Ubresenham)
        requires
            first.0 <= 16777216,
            first.1 <= 16777216,
            second.0 <= 16777216,
            second.1 <= 16777216,
        ensures
            r.index == 0,
            r.points@.len() == max(
                abs(second.0 - first.0),
                abs(second.1 - first.1),
            ),
            r.points@.len() > 0 ==> r.points@[0] == first,
            forall|i: int|
                0 <= i < r.points@.len() ==> #[trigger] r.points@[i] == (
                    bresenham_points((first.0 as isize, first.1 as isize), (second.0 as isize, second.1 as isize))[i].0 as usize,
                    bresenham_points((first.0 as isize, first.1 as isize), (second.0 as isize, second.1 as isize))[i].1 as usize,
                ),
            forall|i: int|
                0 <= i < r.points@.len() ==> min(first.0 as int, second.0 as int) <= (
                #[trigger] r.points@[i]).0 <= max(first.0 as int, second.0 as int) && min(
                    first.1 as int,
                    second.1 as int,
                ) <= r.points@[i].1 <= max(first.1 as int, second.1 as int),
    {
        let line = line_points(
            (first.0 as isize, first.1 as isize),
            (second.0 as isize, second.1 as isize),
        );
        let mut points: Vec<(usize, usize)> = Vec::new();
        let mut i: usize = 0;
        while i < line.len()
            invariant
                i <= line@.len(),
                points@.len() == i,
                line@ == bresenham_points((first.0 as isize, first.1 as isize), (second.0 as isize, second.1 as isize)),
                line@.len() == max(abs(second.0 - first.0), abs(second.1 - first.1)),
                line@.len() > 0 ==> line@[0] == (first.0 as isize, first.1 as isize),
                forall|j: int|
                    0 <= j < line@.len() ==> min(first.0 as int, second.0 as int) <= (
                    #[trigger] line@[j]).0 <= max(first.0 as int, second.0 as int) && min(
                        first.1 as int,
                        second.1 as int,
                    ) <= line@[j].1 <= max(first.1 as int, second.1 as int),
                forall|j: int|
                    0 <= j < i ==> #[trigger] points@[j] == (line@[j].0 as usize, line@[j].1 as usize),
            decreases line@.len() - i,
        {
            let p = line[i];
            points.push((p.0 as usize, p.1 as usize));
            i += 1;
        }
        Ubresenham { points, index: 0 }
    }

    /// The next point of the line, if any is left.
    pub fn next(&mut self) -> (r: Option<(usize, usize)>)
        ensures
            final(self).points == old(self).points,
            old(self).index < old(self).points@.len() ==> r == Some(old(self).points@[old(self).index as int])
                && final(self).index == old(self).index + 1,
            old(self).index >= old(self).points@.len() ==> r.is_none() && final(self).index == old(self).index,
    {
        if self.index < self.points.len() {
            let p = self.points[self.index];
            self.index += 1;
            Some(p)
        } else {
            None
        }
    }
}

} // verus!
