use crate::aabb::{merge, surrounding_box, Aabb};
use crate::closest::{answer, below, nearer, Hit, Side};
use crate::list::answers_by;
use crate::random::random_below;
use vstd::prelude::*;
use vstd::seq_lib::lemma_multiset_commutative;

verus! {

/// `p` sorts no later than `q` when primitives are ordered by the lower
/// corner of their boxes on `axis`, ties broken by primitive index.
pub open spec fn corner_le(boxes: Seq<Aabb>, axis: int, p: usize, q: usize) -> bool {
    let kp = boxes[p as int].min.at(axis);
    let kq = boxes[q as int].min.at(axis);
    kp < kq || (kp == kq && p <= q)
}

/// The sort key of primitive `i` on `axis`.
fn corner_key(boxes: &Vec<Aabb>, axis: usize, i: usize) -> (r: (i64, usize))
    requires
        axis < 3,
        i < boxes.len(),
    ensures
        r.0 == boxes@[i as int].min.at(axis as int),
        r.1 == i,
{
    (boxes[i].min.axis(axis), i)
}

/// Relies on `slice::sort_unstable_by_key`: afterwards the slice holds the
/// same elements in ascending order of the key, here the tuple
/// (lower corner on `axis`, index), compared lexicographically.
#[verifier::external_body]
fn sort_by_corner(ids: &mut Vec<usize>, boxes: &Vec<Aabb>, axis: usize)
    requires
        axis < 3,
        forall|k: int| 0 <= k < old(ids)@.len() ==> #[trigger] old(ids)@[k] < boxes@.len(),
    ensures
        final(ids)@.to_multiset() == old(ids)@.to_multiset(),
        forall|i: int, j: int|
            0 <= i < j < final(ids)@.len() ==> corner_le(
                boxes@,
                axis as int,
                #[trigger] final(ids)@[i],
                #[trigger] final(ids)@[j],
            ),
{
    ids.sort_unstable_by_key(|&i| corner_key(boxes, axis, i));
}

/// Why a hierarchy could not be built.
#[derive(Clone, Copy, Debug, PartialEq, Eq, Structural)]
pub enum BvhError {
    /// The primitive at `index` has no bounding box.
    MissingBox { index: usize },
}

/// A node of the bounding volume hierarchy. Primitives are named by their
/// index in the scene's primitive list.
#[derive(Debug)]
pub enum BvhNode {
    /// One or two primitives under one box.
    Leaf { bbox: Aabb, first: usize, second: Option<usize> },
    /// Two subtrees, split at the median of the primitives sorted on `axis`.
    Inner { bbox: Aabb, axis: usize, left: Box<BvhNode>, right: Box<BvhNode> },
}

impl BvhNode {
    pub open spec fn bbox(&self) -> Aabb {
        match self {
            BvhNode::Leaf { bbox, .. } => *bbox,
            BvhNode::Inner { bbox, .. } => *bbox,
        }
    }

    /// The primitives under this node, left to right.
    pub open spec fn prims(&self) -> Seq<usize>
        decreases self,
    {
        match self {
            BvhNode::Leaf { first, second, .. } => match second {
                None => seq![*first],
                Some(s) => seq![*first, *s],
            },
            BvhNode::Inner { left, right, .. } => left.prims() + right.prims(),
        }
    }

    /// Every node's box is the merge of its children's boxes (of its
    /// primitives' boxes, for a leaf); an inner node has three primitives or
    /// more and splits them at the median, every primitive of the left half sorting no later than
    /// every primitive of the right half on the node's axis.
    pub open spec fn wf(&self, boxes: Seq<Aabb>) -> bool
        decreases self,
    {
        match self {
            BvhNode::Leaf { bbox, first, second } => {
                &&& *first < boxes.len()
                &&& match second {
                    None => *bbox == boxes[*first as int],
                    Some(s) => *s < boxes.len() && *bbox == merge(
                        boxes[*first as int],
                        boxes[*s as int],
                    ),
                }
            },
            BvhNode::Inner { bbox, axis, left, right } => {
                &&& *axis < 3
                &&& left.wf(boxes)
                &&& right.wf(boxes)
                &&& *bbox == merge(left.bbox(), right.bbox())
                &&& left.prims().len() + right.prims().len() >= 3
                &&& left.prims().len() == (left.prims().len() + right.prims().len()) / 2
                &&& forall|p: usize, q: usize|
                    left.prims().contains(p) && right.prims().contains(q) ==> corner_le(
                        boxes,
                        *axis as int,
                        p,
                        q,
                    )
            },
        }
    }

    pub fn bounding_box(&self) -> (r: Aabb)
        ensures
            r == self.bbox(),
    {
        match self {
            BvhNode::Leaf { bbox, .. } => *bbox,
            BvhNode::Inner { bbox, .. } => *bbox,
        }
    }

    /// The nearest hit below `t_max` among the primitives under this node.
    /// `enters(b)` tests whether the ray meets box `b` within the query
    /// interval; a node whose box it rejects is skipped. `query(p, c)` asks
    /// primitive `p` for its nearest hit closer than `c`. Both children of a
    /// node are searched over the same interval and the nearer hit is kept.
    pub fn hit<E: Fn(Aabb) -> bool, Q: Fn(usize, i64) -> Option<i64>>(
        &self,
        enters: &E,
        query: &Q,
        t_max: i64,
    ) -> (r: Option<Hit>)
        requires
            forall|b: Aabb| #[trigger] enters.requires((b,)),
            forall|p: usize, c: i64| #[trigger] query.requires((p, c)),
        ensures
            forall|boxes: Seq<Aabb>, nears: Seq<Option<i64>>|
                #![trigger self.wf(boxes), answers_by(*query, nears)]
                self.wf(boxes) && nears.len() == boxes.len() && answers_by(*query, nears)
                    && sound_by(*enters, boxes, nears, t_max) ==> {
                    &&& hit_t(r) == nearest_among(self.prims(), bounded(nears, t_max))
                    &&& r matches Some(h) ==> self.prims().contains(h.child) && nears[h.child as int]
                        == Some(h.t) && h.t < t_max
                },
        decreases self,
    {
        let e = enters(self.bounding_box());
        if !e {
            proof {
                assert forall|boxes: Seq<Aabb>, nears: Seq<Option<i64>>|
                    #![trigger self.wf(boxes), answers_by(*query, nears)]
                    self.wf(boxes) && nears.len() == boxes.len() && answers_by(*query, nears)
                        && sound_by(*enters, boxes, nears, t_max) implies hit_t(None)
                    == nearest_among(self.prims(), bounded(nears, t_max)) by {
                    lemma_box_covers(*self, boxes);
                    lemma_prims_in_range(*self, boxes);
                    let ps = self.prims();
                    assert forall|k: int| 0 <= k < ps.len() implies bounded(nears, t_max)[#[trigger] ps[k] as int] is None by {
                        let p = ps[k] as int;
                        assert(self.bbox().contains_box(boxes[p]));
                        if below(nears[p], t_max) {
                            assert(enters.ensures((self.bbox(),), e));
                        }
                    }
                    lemma_nearest_none(ps, bounded(nears, t_max));
                }
            }
            return None;
        }
        match self {
            BvhNode::Leaf { first, second, .. } => {
                let a = query(*first, t_max);
                match second {
                    None => {
                        let res = match a {
                            Some(t) => Some(Hit { child: *first, t }),
                            None => None,
                        };
                        proof {
                            let ps = self.prims();
                            assert(ps.drop_last() =~= Seq::<usize>::empty());
                            assert(ps[0] == *first);
                            assert forall|boxes: Seq<Aabb>, nears: Seq<Option<i64>>|
                                #![trigger self.wf(boxes), answers_by(*query, nears)]
                                self.wf(boxes) && nears.len() == boxes.len() && answers_by(
                                    *query,
                                    nears,
                                ) && sound_by(*enters, boxes, nears, t_max) implies {
                                &&& hit_t(res) == nearest_among(self.prims(), bounded(nears, t_max))
                                &&& res matches Some(h) ==> self.prims().contains(h.child)
                                    && nears[h.child as int] == Some(h.t) && h.t < t_max
                            } by {
                                let bn = bounded(nears, t_max);
                                assert(query.ensures((*first, t_max), a));
                                assert(bn[*first as int] == a);
                                assert(nearest_among(ps.drop_last(), bn) is None);
                                assert(ps.contains(*first));
                            }
                        }
                        res
                    },
                    Some(s) => {
                        let b = query(*s, t_max);
                        let res = match nearer(a, b) {
                            Some(Side::Left) => Some(Hit { child: *first, t: a.unwrap() }),
                            Some(Side::Right) => Some(Hit { child: *s, t: b.unwrap() }),
                            None => None,
                        };
                        proof {
                            let ps = self.prims();
                            let one = ps.drop_last();
                            assert(one =~= seq![*first]);
                            assert(one.drop_last() =~= Seq::<usize>::empty());
                            assert(ps[0] == *first);
                            assert(ps[1] == *s);
                            assert forall|boxes: Seq<Aabb>, nears: Seq<Option<i64>>|
                                #![trigger self.wf(boxes), answers_by(*query, nears)]
                                self.wf(boxes) && nears.len() == boxes.len() && answers_by(
                                    *query,
                                    nears,
                                ) && sound_by(*enters, boxes, nears, t_max) implies {
                                &&& hit_t(res) == nearest_among(self.prims(), bounded(nears, t_max))
                                &&& res matches Some(h) ==> self.prims().contains(h.child)
                                    && nears[h.child as int] == Some(h.t) && h.t < t_max
                            } by {
                                let bn = bounded(nears, t_max);
                                assert(query.ensures((*first, t_max), a));
                                assert(query.ensures((*s, t_max), b));
                                assert(bn[*first as int] == a);
                                assert(bn[*s as int] == b);
                                assert(nearest_among(one.drop_last(), bn) is None);
                                assert(nearest_among(one, bn) == a);
                                assert(nearest_among(ps, bn) == min_hit(a, b));
                                assert(ps.contains(*first));
                                assert(ps.contains(*s));
                            }
                        }
                        res
                    },
                }
            },
            BvhNode::Inner { left, right, .. } => {
                let l = left.hit(enters, query, t_max);
                let r = right.hit(enters, query, t_max);
                let lt = match l {
                    Some(h) => Some(h.t),
                    None => None,
                };
                let rt = match r {
                    Some(h) => Some(h.t),
                    None => None,
                };
                let res = match nearer(lt, rt) {
                    Some(Side::Left) => l,
                    Some(Side::Right) => r,
                    None => None,
                };
                proof {
                    assert forall|c: usize| left.prims().contains(c) implies #[trigger] self.prims().contains(c) by {
                        let k = choose|k: int| 0 <= k < left.prims().len() && left.prims()[k] == c;
                        assert(self.prims()[k] == c);
                    }
                    assert forall|c: usize| right.prims().contains(c) implies #[trigger] self.prims().contains(c) by {
                        let k = choose|k: int| 0 <= k < right.prims().len() && right.prims()[k] == c;
                        assert(self.prims()[left.prims().len() + k] == c);
                    }
                    assert forall|boxes: Seq<Aabb>, nears: Seq<Option<i64>>|
                        #![trigger self.wf(boxes), answers_by(*query, nears)]
                        self.wf(boxes) && nears.len() == boxes.len() && answers_by(*query, nears)
                            && sound_by(*enters, boxes, nears, t_max) implies {
                        &&& hit_t(res) == nearest_among(self.prims(), bounded(nears, t_max))
                        &&& res matches Some(h) ==> self.prims().contains(h.child)
                            && nears[h.child as int] == Some(h.t) && h.t < t_max
                    } by {
                        assert(left.wf(boxes));
                        assert(right.wf(boxes));
                        lemma_nearest_concat(left.prims(), right.prims(), bounded(nears, t_max));
                    }
                }
                res
            },
        }
    }

    /// Builds the hierarchy over the primitives whose boxes are `boxes`,
    /// primitive `i` having box `boxes[i]`.
    pub fn new(boxes: &Vec<Option<Aabb>>) -> (r: Result<BvhNode, BvhError>)
        requires
            boxes.len() > 0,
        ensures
            r is Err <==> exists|i: int| 0 <= i < boxes.len() && #[trigger] boxes@[i] is None,
            r matches Err(BvhError::MissingBox { index }) ==> index < boxes.len() && boxes@[index as int] is None
                && forall|j: int| 0 <= j < index ==> #[trigger] boxes@[j] is Some,
            r matches Ok(t) ==> t.wf(present_boxes(boxes@)) && t.prims().to_multiset()
                == all_indices(boxes.len() as nat).to_multiset(),
    {
        let mut present: Vec<Aabb> = Vec::new();
        let mut ids: Vec<usize> = Vec::new();
        let mut i: usize = 0;
        while i < boxes.len()
            invariant
                i <= boxes.len(),
                present@.len() == i,
                ids@ == all_indices(i as nat),
                forall|j: int| 0 <= j < i ==> #[trigger] boxes@[j] is Some,
                forall|j: int| 0 <= j < i ==> present@[j] == #[trigger] boxes@[j].unwrap(),
            decreases boxes.len() - i,
        {
            match boxes[i] {
                None => {
                    return Err(BvhError::MissingBox { index: i });
                },
                Some(b) => {
                    present.push(b);
                    ids.push(i);
                    assert(ids@ =~= all_indices((i + 1) as nat));
                },
            }
            i = i + 1;
        }
        assert(present@ =~= present_boxes(boxes@));
        Ok(build(&present, ids))
    }
}

/// The boxes of a scene in which every primitive has one.
pub open spec fn present_boxes(boxes: Seq<Option<Aabb>>) -> Seq<Aabb> {
    boxes.map_values(|o: Option<Aabb>| o.unwrap())
}

/// The indices `0..n`.
pub open spec fn all_indices(n: nat) -> Seq<usize> {
    Seq::new(n, |i: int| i as usize)
}

proof fn lemma_contains_multiset(s: Seq<usize>, t: Seq<usize>, x: usize)
    requires
        s.to_multiset() == t.to_multiset(),
        s.contains(x),
    ensures
        t.contains(x),
{
    s.to_multiset_ensures();
    t.to_multiset_ensures();
    assert(s.to_multiset().count(x) > 0);
    assert(t.to_multiset().count(x) > 0);
}

/// Recursive median split of `ids`, each node on a randomly chosen axis.
fn build(boxes: &Vec<Aabb>, ids: Vec<usize>) -> (r: BvhNode)
    requires
        ids.len() > 0,
        forall|k: int| 0 <= k < ids@.len() ==> #[trigger] ids@[k] < boxes@.len(),
    ensures
        r.wf(boxes@),
        r.prims().to_multiset() == ids@.to_multiset(),
    decreases ids.len(),
{
    let axis = random_below(3);
    let mut ids = ids;
    let ghost given = ids@;
    sort_by_corner(&mut ids, boxes, axis);
    proof {
        ids@.to_multiset_ensures();
        given.to_multiset_ensures();
        assert forall|k: int| 0 <= k < ids@.len() implies #[trigger] ids@[k] < boxes@.len() by {
            lemma_contains_multiset(ids@, given, ids@[k]);
        }
    }
    let n = ids.len();
    if n == 1 {
        let first = ids[0];
        proof {
            assert(ids@ =~= seq![first]);
        }
        BvhNode::Leaf { bbox: boxes[first], first, second: None }
    } else if n == 2 {
        let first = ids[0];
        let second = ids[1];
        proof {
            assert(ids@ =~= seq![first, second]);
        }
        let bbox = surrounding_box(&boxes[first], &boxes[second]);
        BvhNode::Leaf { bbox, first, second: Some(second) }
    } else {
        let ghost sorted = ids@;
        let right_ids = ids.split_off(n / 2);
        let left_ids = ids;
        proof {
            assert(sorted =~= left_ids@ + right_ids@);
            lemma_multiset_commutative(left_ids@, right_ids@);
        }
        let left = build(boxes, left_ids);
        let right = build(boxes, right_ids);
        let bbox = surrounding_box(&left.bounding_box(), &right.bounding_box());
        proof {
            lemma_multiset_commutative(left.prims(), right.prims());
            left.prims().to_multiset_ensures();
            left_ids@.to_multiset_ensures();
            right.prims().to_multiset_ensures();
            right_ids@.to_multiset_ensures();
            assert forall|p: usize, q: usize|
                left.prims().contains(p) && right.prims().contains(q) implies corner_le(
                boxes@,
                axis as int,
                p,
                q,
            ) by {
                lemma_contains_multiset(left.prims(), left_ids@, p);
                lemma_contains_multiset(right.prims(), right_ids@, q);
                let i = choose|i: int| 0 <= i < left_ids@.len() && left_ids@[i] == p;
                let j = choose|j: int| 0 <= j < right_ids@.len() && right_ids@[j] == q;
                assert(sorted[i] == p);
                assert(sorted[n / 2 + j] == q);
            }
        }
        BvhNode::Inner { bbox, axis, left: Box::new(left), right: Box::new(right) }
    }
}

/// Every box under a node lies in the node's box.
pub proof fn lemma_box_covers(node: BvhNode, boxes: Seq<Aabb>)
    requires
        node.wf(boxes),
    ensures
        forall|k: int|
            0 <= k < node.prims().len() ==> node.bbox().contains_box(
                boxes[#[trigger] node.prims()[k] as int],
            ),
    decreases node,
{
    match node {
        BvhNode::Leaf { .. } => {},
        BvhNode::Inner { left, right, .. } => {
            lemma_box_covers(*left, boxes);
            lemma_box_covers(*right, boxes);
            let l = left.prims();
            let r = right.prims();
            assert forall|k: int| 0 <= k < node.prims().len() implies node.bbox().contains_box(
                boxes[#[trigger] node.prims()[k] as int],
            ) by {
                if k < l.len() {
                    assert(node.prims()[k] == l[k]);
                    assert(left.bbox().contains_box(boxes[l[k] as int]));
                } else {
                    assert(node.prims()[k] == r[k - l.len()]);
                    assert(right.bbox().contains_box(boxes[r[k - l.len()] as int]));
                }
            }
        },
    }
}

/// The distance of a hit.
pub open spec fn hit_t(h: Option<Hit>) -> Option<i64> {
    match h {
        Some(h) => Some(h.t),
        None => None,
    }
}

/// What each primitive answers when asked for its nearest hit below `t_max`.
pub open spec fn bounded(nears: Seq<Option<i64>>, t_max: i64) -> Seq<Option<i64>> {
    Seq::new(nears.len(), |p: int| answer(nears[p], t_max))
}

/// `enters` never rejects a box that holds the box of a primitive with a
/// hit below `t_max`.
pub open spec fn sound_by<E: Fn(Aabb) -> bool>(
    enters: E,
    boxes: Seq<Aabb>,
    nears: Seq<Option<i64>>,
    t_max: i64,
) -> bool {
    forall|p: int, b: Aabb, e: bool|
        #![trigger enters.ensures((b,), e), boxes[p]]
        0 <= p < boxes.len() && below(nears[p], t_max) && b.contains_box(boxes[p])
            && enters.ensures((b,), e) ==> e
}

/// The nearer of two hits, the second on a tie.
pub open spec fn min_hit(a: Option<i64>, b: Option<i64>) -> Option<i64> {
    match (a, b) {
        (Some(x), Some(y)) => if x < y {
            a
        } else {
            b
        },
        (Some(_), None) => a,
        (None, _) => b,
    }
}

/// Nearest hit among the primitives `prims`, primitive `p` having `nears[p]`
/// as its nearest hit: what a linear scan over them finds.
pub open spec fn nearest_among(prims: Seq<usize>, nears: Seq<Option<i64>>) -> Option<i64>
    decreases prims.len(),
{
    if prims.len() == 0 {
        None
    } else {
        min_hit(nearest_among(prims.drop_last(), nears), nears[prims.last() as int])
    }
}

proof fn lemma_nearest_none(prims: Seq<usize>, nears: Seq<Option<i64>>)
    requires
        forall|k: int| 0 <= k < prims.len() ==> nears[#[trigger] prims[k] as int] is None,
    ensures
        nearest_among(prims, nears) is None,
    decreases prims.len(),
{
    if prims.len() > 0 {
        lemma_nearest_none(prims.drop_last(), nears);
    }
}

proof fn lemma_nearest_concat(a: Seq<usize>, b: Seq<usize>, nears: Seq<Option<i64>>)
    ensures
        nearest_among(a + b, nears) == min_hit(nearest_among(a, nears), nearest_among(b, nears)),
    decreases b.len(),
{
    if b.len() == 0 {
        assert(a + b =~= a);
    } else {
        lemma_nearest_concat(a, b.drop_last(), nears);
        assert((a + b).drop_last() =~= a + b.drop_last());
    }
}

/// Every primitive under a well-formed node has a box.
proof fn lemma_prims_in_range(node: BvhNode, boxes: Seq<Aabb>)
    requires
        node.wf(boxes),
    ensures
        forall|k: int| 0 <= k < node.prims().len() ==> #[trigger] node.prims()[k] < boxes.len(),
    decreases node,
{
    match node {
        BvhNode::Leaf { .. } => {},
        BvhNode::Inner { left, right, .. } => {
            lemma_prims_in_range(*left, boxes);
            lemma_prims_in_range(*right, boxes);
            let l = left.prims();
            assert forall|k: int| 0 <= k < node.prims().len() implies #[trigger] node.prims()[k]
                < boxes.len() by {
                if k < l.len() {
                    assert(node.prims()[k] == l[k]);
                } else {
                    assert(node.prims()[k] == right.prims()[k - l.len()]);
                }
            }
        },
    }
}

} // verus!
