use vstd::prelude::*;

verus! {

/// An axis-aligned rectangle, half-open: it covers the points `p` with
/// `left <= p.0 < right` and `top <= p.1 < bottom`.
#[derive(Clone, Copy)]
pub struct Rect {
    pub top_left: (isize, isize),
    pub bottom_right: (isize, isize),
}

/// Walks the points of a rectangle row by row.
#[derive(Clone, Copy)]
pub struct RectIterator {
    pub original_rect: Rect,
    pub current_point: (isize, isize),
}

impl Rect {
    pub open spec fn spec_has_value(self) -> bool {
        self.bottom_right.0 != self.top_left.0 || self.bottom_right.1 != self.top_left.1
    }

    pub open spec fn contains(self, p: (int, int)) -> bool {
        self.top_left.0 <= p.0 < self.bottom_right.0 && self.top_left.1 <= p.1
            < self.bottom_right.1
    }

    pub open spec fn contains_inclusive(self, p: (int, int)) -> bool {
        self.top_left.0 <= p.0 <= self.bottom_right.0 && self.top_left.1 <= p.1
            <= self.bottom_right.1
    }

    /// Every point of `self` is a point of `other`.
    pub open spec fn covered_by(self, other: Rect) -> bool {
        forall|p: (int, int)| #[trigger] self.contains(p) ==> other.contains(p)
    }

    /// The rectangle lies inside `[0, w) x [0, h)`.
    pub open spec fn within(self, w: int, h: int) -> bool {
        0 <= self.top_left.0 <= self.bottom_right.0 <= w && 0 <= self.top_left.1
            <= self.bottom_right.1 <= h
    }

    /// The rectangle of one point.
    pub open spec fn unit(p: (isize, isize)) -> Rect
        recommends
            p.0 < isize::MAX,
            p.1 < isize::MAX,
    {
        Rect { top_left: p, bottom_right: ((p.0 + 1) as isize, (p.1 + 1) as isize) }
    }

    pub open spec fn spec_expand(self, p: (isize, isize)) -> Rect {
        if !self.spec_has_value() {
            Rect::unit(p)
        } else {
            Rect {
                top_left: (
                    if p.0 < self.top_left.0 { p.0 } else { self.top_left.0 },
                    if p.1 < self.top_left.1 { p.1 } else { self.top_left.1 },
                ),
                bottom_right: (
                    if p.0 + 1 > self.bottom_right.0 { (p.0 + 1) as isize } else { self.bottom_right.0 },
                    if p.1 + 1 > self.bottom_right.1 { (p.1 + 1) as isize } else { self.bottom_right.1 },
                ),
            }
        }
    }

    pub open spec fn from_center_spec(center: (isize, isize), size: (usize, usize)) -> Rect {
        Rect {
            top_left: ((center.0 - size.0 / 2) as isize, (center.1 - size.1 / 2) as isize),
            bottom_right: (
                (center.0 + size.0 / 2 + size.0 % 2) as isize,
                (center.1 + size.1 / 2 + size.1 % 2) as isize,
            ),
        }
    }

    /// The rectangle of `size` centred on `center`; an odd size puts the
    /// extra row or column after the centre.
    pub fn from_center(center: (isize, isize), size: (usize, usize)) -> (r: Rect)
        requires
            size.0 <= isize::MAX,
            size.1 <= isize::MAX,
            center.0 - size.0 / 2 >= isize::MIN,
            center.1 - size.1 / 2 >= isize::MIN,
            center.0 + size.0 / 2 + size.0 % 2 <= isize::MAX,
            center.1 + size.1 / 2 + size.1 % 2 <= isize::MAX,
        ensures
            r == Rect::from_center_spec(center, size),
    {
        let half_w = (size.0 / 2) as isize;
        let half_h = (size.1 / 2) as isize;
        let top = center.1 - half_h;
        let left = center.0 - half_w;
        let bottom = center.1 + half_h + (size.1 % 2) as isize;
        let right = center.0 + half_w + (size.0 % 2) as isize;
        Rect::from((left, top), (right, bottom))
    }

    /// The empty rectangle at the origin.
    pub fn new() -> (r: Rect)
        ensures
            r.top_left == (0isize, 0isize),
            r.bottom_right == (0isize, 0isize),
            !r.spec_has_value(),
    {
        Rect { top_left: (0, 0), bottom_right: (0, 0) }
    }

    pub fn from(top_left: (isize, isize), bottom_right: (isize, isize)) -> (r: Rect)
        ensures
            r.top_left == top_left,
            r.bottom_right == bottom_right,
    {
        Rect { top_left, bottom_right }
    }

    pub fn left(&self) -> (r: isize)
        ensures
            r == self.top_left.0,
    {
        self.top_left.0
    }

    pub fn right(&self) -> (r: isize)
        ensures
            r == self.bottom_right.0,
    {
        self.bottom_right.0
    }

    pub fn top(&self) -> (r: isize)
        ensures
            r == self.top_left.1,
    {
        self.top_left.1
    }

    pub fn bottom(&self) -> (r: isize)
        ensures
            r == self.bottom_right.1,
    {
        self.bottom_right.1
    }

    /// False only when both corners coincide.
    pub fn has_value(&self) -> (r: bool)
        ensures
            r == self.spec_has_value(),
    {
        self.bottom_right.0 != self.top_left.0 || self.bottom_right.1 != self.top_left.1
    }

    pub fn into_iter(&self) -> (r: RectIterator)
        requires
            self.top_left.0 < isize::MAX,
        ensures
            r.original_rect == *self,
            r.current_point == self.top_left,
            r.wf(),
    {
        RectIterator::new(*self)
    }

    pub fn is_inside(&self, point: (isize, isize)) -> (r: bool)
        ensures
            r == self.contains((point.0 as int, point.1 as int)),
    {
        point.0 >= self.top_left.0 && point.1 >= self.top_left.1 && point.1 < self.bottom_right.1
            && point.0 < self.bottom_right.0
    }

    pub fn is_inside_inclusive(&self, point: (isize, isize)) -> (r: bool)
        ensures
            r == self.contains_inclusive((point.0 as int, point.1 as int)),
    {
        point.0 >= self.top_left.0 && point.1 >= self.top_left.1 && point.1 <= self.bottom_right.1
            && point.0 <= self.bottom_right.0
    }

    /// The smallest rectangle that holds `self` and `point`; from an empty
    /// rectangle, the rectangle of `point` alone.
    pub fn expand(&self, point: (isize, isize)) -> (r: Rect)
        requires
            point.0 < isize::MAX,
            point.1 < isize::MAX,
        ensures
            r == self.spec_expand(point),
            r.contains((point.0 as int, point.1 as int)),
            self.covered_by(r),
            r.spec_has_value(),
    {
        if !self.has_value() {
            return Rect { top_left: point, bottom_right: (point.0 + 1, point.1 + 1) };
        }
        let left = if point.0 < self.left() { point.0 } else { self.left() };
        let right = if point.0 + 1 > self.right() { point.0 + 1 } else { self.right() };
        let top = if point.1 < self.top() { point.1 } else { self.top() };
        let bottom = if point.1 + 1 > self.bottom() { point.1 + 1 } else { self.bottom() };
        Rect { top_left: (left, top), bottom_right: (right, bottom) }
    }
}

/// Expanding a rectangle that lies in `[0, w) x [0, h)` by a point of that
/// area keeps it there.
pub proof fn lemma_expand_within(r: Rect, p: (isize, isize), w: int, h: int)
    requires
        r.within(w, h),
        0 <= p.0 < w,
        0 <= p.1 < h,
        p.0 < isize::MAX,
        p.1 < isize::MAX,
    ensures
        r.spec_expand(p).within(w, h),
{
}

impl RectIterator {
    pub open spec fn wf(self) -> bool {
        &&& self.original_rect.top_left.0 < isize::MAX
        &&& self.current_point.0 < isize::MAX
    }

    pub fn new(original_rect: Rect) -> (r: RectIterator)
        requires
            original_rect.top_left.0 < isize::MAX,
        ensures
            r.original_rect == original_rect,
            r.current_point == original_rect.top_left,
            r.wf(),
    {
        RectIterator { original_rect, current_point: original_rect.top_left }
    }

    /// The current point, then a step to the right, wrapping to the start
    /// of the next row at the right edge. `None` once the rows run out.
    pub fn next(&mut self) -> (r: Option<(isize, isize)>)
        requires
            old(self).wf(),
        ensures
            final(self).wf(),
            final(self).original_rect == old(self).original_rect,
            !old(self).original_rect.spec_has_value() || old(self).current_point.1
                >= old(self).original_rect.bottom_right.1 ==> r.is_none() && *final(self)
                == *old(self),
            old(self).original_rect.spec_has_value() && old(self).current_point.1
                < old(self).original_rect.bottom_right.1 ==> {
                &&& r == Some(old(self).current_point)
                &&& if old(self).current_point.0 + 1 >= old(self).original_rect.bottom_right.0 {
                    final(self).current_point == (
                        old(self).original_rect.top_left.0,
                        (old(self).current_point.1 + 1) as isize,
                    )
                } else {
                    final(self).current_point == (
                        (old(self).current_point.0 + 1) as isize,
                        old(self).current_point.1,
                    )
                }
            },
    {
        if !self.original_rect.has_value() {
            return None;
        }
        if self.current_point.1 >= self.original_rect.bottom_right.1 {
            return None;
        }
        let result = self.current_point;
        let mut x = self.current_point.0 + 1;
        let mut y = self.current_point.1;
        if x >= self.original_rect.bottom_right.0 {
            x = self.original_rect.top_left.0;
            y = y + 1;
        }
        self.current_point = (x, y);
        Some(result)
    }
}

} // verus!
