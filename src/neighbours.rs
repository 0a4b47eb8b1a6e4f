use vstd::prelude::*;
use crate::rect::Rect;

verus! {

/// The neighbours of a point, in a fixed order, optionally limited to those
/// inside a rectangle.
#[derive(Clone)]
pub struct Neighbours {
    pub current: usize,
    pub all_neighbours: Vec<(isize, isize)>,
    pub boundaries: Option<Rect>,
}

pub open spec fn admitted(b: Option<Rect>, p: (isize, isize)) -> bool {
    b.is_none() || b.unwrap().contains((p.0 as int, p.1 as int))
}

/// The points of `s` that `b` admits, in order.
pub open spec fn kept(s: Seq<(isize, isize)>, b: Option<Rect>) -> Seq<(isize, isize)>
    decreases s.len(),
{
    if s.len() == 0 {
        Seq::empty()
    } else if admitted(b, s[0]) {
        seq![s[0]] + kept(s.drop_first(), b)
    } else {
        kept(s.drop_first(), b)
    }
}

/// The eight neighbours of `p`, row by row from the top left.
pub open spec fn ring_of(p: (isize, isize)) -> Seq<(isize, isize)> {
    seq![
        ((p.0 - 1) as isize, (p.1 - 1) as isize),
        (p.0, (p.1 - 1) as isize),
        ((p.0 + 1) as isize, (p.1 - 1) as isize),
        ((p.0 - 1) as isize, p.1),
        ((p.0 + 1) as isize, p.1),
        ((p.0 - 1) as isize, (p.1 + 1) as isize),
        (p.0, (p.1 + 1) as isize),
        ((p.0 + 1) as isize, (p.1 + 1) as isize),
    ]
}

/// The four neighbours of `p` that share a side with it: above, left,
/// right, below.
pub open spec fn cross_of(p: (isize, isize)) -> Seq<(isize, isize)> {
    seq![
        (p.0, (p.1 - 1) as isize),
        ((p.0 - 1) as isize, p.1),
        ((p.0 + 1) as isize, p.1),
        (p.0, (p.1 + 1) as isize),
    ]
}

pub open spec fn interior(p: (isize, isize)) -> bool {
    isize::MIN < p.0 < isize::MAX && isize::MIN < p.1 < isize::MAX
}

impl Neighbours {
    /// The points that are still to come.
    pub open spec fn remaining(self) -> Seq<(isize, isize)> {
        kept(self.all_neighbours@.skip(self.current as int), self.boundaries)
    }

    pub open spec fn wf(self) -> bool {
        self.current <= self.all_neighbours@.len()
    }

    /// The eight surrounding points.
    pub fn of(position: (isize, isize)) -> (r: Neighbours)
        requires
            interior(position),
        ensures
            r.wf(),
            r.current == 0,
            r.boundaries.is_none(),
            r.all_neighbours@ == ring_of(position),
    {
        let r = Neighbours {
            current: 0,
            all_neighbours: vec![
                (position.0 - 1, position.1 - 1),
                (position.0, position.1 - 1),
                (position.0 + 1, position.1 - 1),
                (position.0 - 1, position.1),
                (position.0 + 1, position.1),
                (position.0 - 1, position.1 + 1),
                (position.0, position.1 + 1),
                (position.0 + 1, position.1 + 1),
            ],
            boundaries: None,
        };
        assert(r.all_neighbours@ =~= ring_of(position));
        r
    }

    /// The four points that share a side.
    pub fn direct_of(position: (isize, isize)) -> (r: Neighbours)
        requires
            interior(position),
        ensures
            r.wf(),
            r.current == 0,
            r.boundaries.is_none(),
            r.all_neighbours@ == cross_of(position),
    {
        let r = Neighbours {
            current: 0,
            all_neighbours: vec![
                (position.0, position.1 - 1),
                (position.0 - 1, position.1),
                (position.0 + 1, position.1),
                (position.0, position.1 + 1),
            ],
            boundaries: None,
        };
        assert(r.all_neighbours@ =~= cross_of(position));
        r
    }

    /// The left and the right neighbour.
    pub fn horisontal_of(position: (isize, isize)) -> (r: Neighbours)
        requires
            interior(position),
        ensures
            r.wf(),
            r.current == 0,
            r.boundaries.is_none(),
            r.all_neighbours@ == seq![((position.0 - 1) as isize, position.1), ((position.0 + 1) as isize, position.1)],
    {
        let r = Neighbours {
            current: 0,
            all_neighbours: vec![(position.0 - 1, position.1), (position.0 + 1, position.1)],
            boundaries: None,
        };
        assert(r.all_neighbours@ =~= seq![((position.0 - 1) as isize, position.1), ((position.0 + 1) as isize, position.1)]);
        r
    }

    /// The neighbour above and the one below.
    pub fn vertical_of(position: (isize, isize)) -> (r: Neighbours)
        requires
            interior(position),
        ensures
            r.wf(),
            r.current == 0,
            r.boundaries.is_none(),
            r.all_neighbours@ == seq![(position.0, (position.1 - 1) as isize), (position.0, (position.1 + 1) as isize)],
    {
        let r = Neighbours {
            current: 0,
            all_neighbours: vec![(position.0, position.1 - 1), (position.0, position.1 + 1)],
            boundaries: None,
        };
        assert(r.all_neighbours@ =~= seq![(position.0, (position.1 - 1) as isize), (position.0, (position.1 + 1) as isize)]);
        r
    }

    /// The same points, limited to those inside `boundaries`.
    pub fn with_boundaries(self, boundaries: Rect) -> (r: Neighbours)
        ensures
            r.current == self.current,
            r.all_neighbours == self.all_neighbours,
            r.boundaries == Some(boundaries),
            self.wf() ==> r.wf(),
    {
        let mut s = self;
        s.boundaries = Some(boundaries);
        s
    }

    /// The next point inside the boundaries, if any is left.
    pub fn next(&mut self) -> (r: Option<(isize, isize)>)
        requires
            old(self).wf(),
        ensures
            final(self).wf(),
            final(self).all_neighbours == old(self).all_neighbours,
            final(self).boundaries == old(self).boundaries,
            old(self).remaining().len() == 0 ==> r.is_none() && final(self).remaining().len() == 0,
            old(self).remaining().len() > 0 ==> r == Some(old(self).remaining()[0])
                && final(self).remaining() == old(self).remaining().drop_first(),
        decreases old(self).all_neighbours@.len() - old(self).current,
    {
        if self.current >= self.all_neighbours.len() {
            assert(self.all_neighbours@.skip(self.current as int) =~= Seq::empty());
            return None;
        }
        let result = self.all_neighbours[self.current];
        proof {
            let s = self.all_neighbours@.skip(self.current as int);
            assert(s.drop_first() =~= self.all_neighbours@.skip(self.current + 1));
        }
        self.current += 1;
        match self.boundaries {
            Some(boundary) => {
                if !boundary.is_inside(result) {
                    return self.next();
                }
            },
            None => {},
        }
        Some(result)
    }
}

} // verus!
