use vstd::prelude::*;

verus! {

/// A point given by one order key per axis.
///
/// A key is an integer whose order is the order of the real coordinate it
/// stands for. Everything the hierarchy does with coordinates (sorting by a
/// corner, taking minima and maxima) only compares them, so it is exact on
/// keys.
#[derive(Clone, Copy, Debug, PartialEq, Eq, Structural)]
pub struct Point {
    pub x: i64,
    pub y: i64,
    pub z: i64,
}

impl Point {
    /// The key on axis `a` (0, 1 or 2).
    pub open spec fn at(self, a: int) -> int {
        if a == 0 {
            self.x as int
        } else if a == 1 {
            self.y as int
        } else {
            self.z as int
        }
    }

    pub fn new(x: i64, y: i64, z: i64) -> (r: Point)
        ensures
            r == (Point { x, y, z }),
    {
        Point { x, y, z }
    }

    /// The key on axis `a`.
    pub fn axis(&self, a: usize) -> (r: i64)
        requires
            a < 3,
        ensures
            r == self.at(a as int),
    {
        if a == 0 {
            self.x
        } else if a == 1 {
            self.y
        } else {
            self.z
        }
    }
}

/// Axis-aligned bounding box, given by its lower and upper corners.
#[derive(Clone, Copy, Debug, PartialEq, Eq, Structural)]
pub struct Aabb {
    pub min: Point,
    pub max: Point,
}

pub open spec fn min_int(a: int, b: int) -> int {
    if a <= b {
        a
    } else {
        b
    }
}

pub open spec fn max_int(a: int, b: int) -> int {
    if a >= b {
        a
    } else {
        b
    }
}

/// The smallest box that holds both `b0` and `b1`.
pub open spec fn merge(b0: Aabb, b1: Aabb) -> Aabb {
    Aabb {
        min: Point {
            x: if b0.min.x <= b1.min.x { b0.min.x } else { b1.min.x },
            y: if b0.min.y <= b1.min.y { b0.min.y } else { b1.min.y },
            z: if b0.min.z <= b1.min.z { b0.min.z } else { b1.min.z },
        },
        max: Point {
            x: if b0.max.x >= b1.max.x { b0.max.x } else { b1.max.x },
            y: if b0.max.y >= b1.max.y { b0.max.y } else { b1.max.y },
            z: if b0.max.z >= b1.max.z { b0.max.z } else { b1.max.z },
        },
    }
}

impl Aabb {
    /// Lower corner is below the upper corner on every axis.
    pub open spec fn wf(self) -> bool {
        forall|a: int| 0 <= a < 3 ==> #[trigger] self.min.at(a) <= self.max.at(a)
    }

    /// `p` lies in the box (faces included).
    pub open spec fn contains_point(self, p: Point) -> bool {
        forall|a: int|
            0 <= a < 3 ==> self.min.at(a) <= #[trigger] p.at(a) && p.at(a) <= self.max.at(a)
    }

    /// `o` lies in the box.
    pub open spec fn contains_box(self, o: Aabb) -> bool {
        forall|a: int|
            0 <= a < 3 ==> self.min.at(a) <= #[trigger] o.min.at(a) && o.max.at(a)
                <= self.max.at(a)
    }

    pub fn new(min: Point, max: Point) -> (r: Aabb)
        ensures
            r == (Aabb { min, max }),
    {
        Aabb { min, max }
    }

    pub fn min(&self) -> (r: Point)
        ensures
            r == self.min,
    {
        self.min
    }

    pub fn max(&self) -> (r: Point)
        ensures
            r == self.max,
    {
        self.max
    }
}

fn fmin(a: i64, b: i64) -> (r: i64)
    ensures
        r == min_int(a as int, b as int),
{
    if a <= b {
        a
    } else {
        b
    }
}

fn fmax(a: i64, b: i64) -> (r: i64)
    ensures
        r == max_int(a as int, b as int),
{
    if a >= b {
        a
    } else {
        b
    }
}

/// The box that surrounds `box0` and `box1`: component-wise minimum of the
/// lower corners, maximum of the upper ones.
pub fn surrounding_box(box0: &Aabb, box1: &Aabb) -> (r: Aabb)
    ensures
        r == merge(*box0, *box1),
{
    let small = Point::new(
        fmin(box0.min.x, box1.min.x),
        fmin(box0.min.y, box1.min.y),
        fmin(box0.min.z, box1.min.z),
    );
    let big = Point::new(
        fmax(box0.max.x, box1.max.x),
        fmax(box0.max.y, box1.max.y),
        fmax(box0.max.z, box1.max.z),
    );
    Aabb::new(small, big)
}

/// The merge of all the boxes of `bs`, taken from the first onward.
pub open spec fn merge_all(bs: Seq<Aabb>) -> Aabb
    recommends
        bs.len() > 0,
    decreases bs.len(),
{
    if bs.len() <= 1 {
        bs[0]
    } else {
        merge(merge_all(bs.drop_last()), bs.last())
    }
}

/// The box of a composite: the merge of its children's boxes. An empty
/// composite has no box.
pub fn surrounding_all(boxes: &Vec<Aabb>) -> (r: Aabb)
    requires
        boxes@.len() > 0,
    ensures
        r == merge_all(boxes@),
{
    let mut acc = boxes[0];
    let mut i: usize = 1;
    proof {
        assert(boxes@.take(1).len() == 1);
    }
    while i < boxes.len()
        invariant
            1 <= i <= boxes@.len(),
            acc == merge_all(boxes@.take(i as int)),
        decreases boxes@.len() - i,
    {
        acc = surrounding_box(&acc, &boxes[i]);
        i = i + 1;
        proof {
            assert(boxes@.take(i as int).drop_last() =~= boxes@.take(i - 1));
        }
    }
    proof {
        assert(boxes@.take(i as int) =~= boxes@);
    }
    acc
}

/// Every box of `bs` lies in their merge.
pub proof fn lemma_merge_all_contains(bs: Seq<Aabb>)
    requires
        bs.len() > 0,
    ensures
        forall|k: int| 0 <= k < bs.len() ==> merge_all(bs).contains_box(#[trigger] bs[k]),
    decreases bs.len(),
{
    if bs.len() > 1 {
        let init = bs.drop_last();
        lemma_merge_all_contains(init);
        assert forall|k: int| 0 <= k < bs.len() implies merge_all(bs).contains_box(#[trigger] bs[k]) by {
            if k < init.len() {
                assert(init[k] == bs[k]);
                assert(merge_all(init).contains_box(init[k]));
            }
        }
    }
}

/// The box whose two corners are both `p`.
pub open spec fn point_box(p: Point) -> Aabb {
    Aabb { min: p, max: p }
}

/// The smallest box holding every point of `pts`: on each axis, from the
/// least to the greatest of their coordinates.
pub fn enclosing(pts: &Vec<Point>) -> (r: Aabb)
    requires
        pts@.len() > 0,
    ensures
        r == merge_all(pts@.map_values(|p: Point| point_box(p))),
        forall|k: int| 0 <= k < pts@.len() ==> r.contains_point(#[trigger] pts@[k]),
{
    let mut boxes: Vec<Aabb> = Vec::new();
    let mut i: usize = 0;
    while i < pts.len()
        invariant
            i <= pts@.len(),
            boxes@ == pts@.take(i as int).map_values(|p: Point| point_box(p)),
        decreases pts@.len() - i,
    {
        boxes.push(Aabb::new(pts[i], pts[i]));
        i = i + 1;
        proof {
            assert(boxes@ =~= pts@.take(i as int).map_values(|p: Point| point_box(p)));
        }
    }
    proof {
        assert(pts@.take(i as int) =~= pts@);
        lemma_merge_all_contains(boxes@);
        assert forall|k: int| 0 <= k < pts@.len() implies merge_all(boxes@).contains_point(
            #[trigger] pts@[k],
        ) by {
            let m = merge_all(boxes@);
            assert(boxes@[k] == point_box(pts@[k]));
            assert(m.contains_box(boxes@[k]));
            assert forall|a: int| 0 <= a < 3 implies m.min.at(a) <= #[trigger] pts@[k].at(a)
                && pts@[k].at(a) <= m.max.at(a) by {
                assert(boxes@[k].min.at(a) == pts@[k].at(a));
            }
        }
    }
    surrounding_all(&boxes)
}

} // verus!
