use vstd::prelude::*;

verus! {

/// Running state of a closest-hit query over the children of a composite.
///
/// Distances are order keys. Each child is asked for its nearest hit closer
/// than `bound`; a hit it reports becomes the best one so far and shrinks
/// the bound, so later children are only asked for closer hits.
#[derive(Clone, Copy, Debug, PartialEq, Eq, Structural)]
pub struct Closest {
    pub bound: i64,
    pub best: Option<Hit>,
}

/// A hit reported by child `child` at distance `t`.
#[derive(Clone, Copy, Debug, PartialEq, Eq, Structural)]
pub struct Hit {
    pub child: usize,
    pub t: i64,
}

impl Closest {
    /// The state after `child` reported a hit at `t`.
    pub open spec fn offered(self, child: usize, t: i64) -> Closest {
        if t < self.bound {
            Closest { bound: t, best: Some(Hit { child, t }) }
        } else {
            self
        }
    }

    /// A query over the interval that ends at `t_max`, nothing found yet.
    pub fn new(t_max: i64) -> (r: Closest)
        ensures
            r == (Closest { bound: t_max, best: None }),
    {
        Closest { bound: t_max, best: None }
    }

    /// Upper end of the interval in which the next child is asked for hits.
    pub fn bound(&self) -> (r: i64)
        ensures
            r == self.bound,
    {
        self.bound
    }

    /// The nearest hit so far: which child, and at what distance.
    pub fn best(&self) -> (r: Option<Hit>)
        ensures
            r == self.best,
    {
        self.best
    }

    /// Takes the hit that `child` reported at `t`; it is kept when it lies
    /// inside the current interval.
    pub fn offer(&mut self, child: usize, t: i64) -> (accepted: bool)
        ensures
            accepted == (t < old(self).bound),
            *final(self) == old(self).offered(child, t),
    {
        if t < self.bound {
            self.bound = t;
            self.best = Some(Hit { child, t });
            true
        } else {
            false
        }
    }
}

/// What a child answers when asked for its nearest hit closer than `bound`,
/// `near` being its nearest hit over the whole query interval.
pub open spec fn answer(near: Option<i64>, bound: i64) -> Option<i64> {
    match near {
        Some(t) => if t < bound {
            Some(t)
        } else {
            None
        },
        None => None,
    }
}

/// The state once the children `0..nears.len()` have been asked in turn,
/// child `i` having `nears[i]` as its nearest hit.
pub open spec fn scan(nears: Seq<Option<i64>>, t_max: i64) -> Closest
    decreases nears.len(),
{
    if nears.len() == 0 {
        Closest { bound: t_max, best: None }
    } else {
        let s = scan(nears.drop_last(), t_max);
        match answer(nears.last(), s.bound) {
            Some(t) => s.offered((nears.len() - 1) as usize, t),
            None => s,
        }
    }
}

/// `near` is a hit closer than `bound`.
pub open spec fn below(near: Option<i64>, bound: i64) -> bool {
    near is Some && near.unwrap() < bound
}

/// `r` is the nearest hit below `t_max` among `nears`, the first child
/// winning among equally near ones; `None` when no child has a hit below
/// `t_max`.
pub open spec fn is_nearest(nears: Seq<Option<i64>>, t_max: i64, r: Option<Hit>) -> bool {
    match r {
        None => forall|j: int| 0 <= j < nears.len() ==> !below(#[trigger] nears[j], t_max),
        Some(Hit { child: i, t }) => {
            &&& i < nears.len()
            &&& nears[i as int] == Some(t)
            &&& t < t_max
            &&& forall|j: int|
                0 <= j < nears.len() && below(#[trigger] nears[j], t_max) ==> t <= nears[j].unwrap()
            &&& forall|j: int| 0 <= j < i ==> #[trigger] nears[j] != Some(t)
        },
    }
}

/// Closest hit: asking the children in turn with a shrinking interval finds
/// the nearest of all their hits in the interval, and the interval ends at
/// it.
pub proof fn lemma_closest_hit(nears: Seq<Option<i64>>, t_max: i64)
    requires
        nears.len() <= usize::MAX,
    ensures
        is_nearest(nears, t_max, scan(nears, t_max).best),
        scan(nears, t_max).bound == match scan(nears, t_max).best {
            Some(h) => h.t,
            None => t_max,
        },
    decreases nears.len(),
{
    if nears.len() > 0 {
        let init = nears.drop_last();
        let n = init.len() as int;
        lemma_closest_hit(init, t_max);
        assert forall|j: int| 0 <= j < n implies #[trigger] init[j] == nears[j] by {}
        let s = scan(init, t_max);
        assert(s.bound <= t_max);
        match answer(nears.last(), s.bound) {
            Some(t) => {
                assert(nears[n] == Some(t));
                assert forall|j: int| 0 <= j < nears.len() && below(#[trigger] nears[j], t_max) implies t
                    <= nears[j].unwrap() by {
                    if j < n {
                        assert(below(init[j], t_max));
                    }
                }
                assert forall|j: int| 0 <= j < n implies #[trigger] nears[j] != Some(t) by {
                    if nears[j] == Some(t) {
                        assert(below(init[j], t_max));
                    }
                }
            },
            None => {
                assert forall|j: int| 0 <= j < nears.len() && below(#[trigger] nears[j], t_max) implies (
                match s.best {
                    Some(h) => h.t <= nears[j].unwrap(),
                    None => false,
                }) by {
                    if j < n {
                        assert(below(init[j], t_max));
                    }
                }
                if let Some(h) = s.best {
                    assert forall|j: int| 0 <= j < h.child implies #[trigger] nears[j] != Some(h.t) by {
                        assert(init[j] != Some(h.t));
                    }
                }
            },
        }
    }
}

/// Which of two subtrees holds the nearer hit.
#[derive(Clone, Copy, Debug, PartialEq, Eq, Structural)]
pub enum Side {
    Left,
    Right,
}

/// The nearer of the hits reported by the two children of a node, both
/// asked over the same interval; on a tie the right one.
pub fn nearer(left: Option<i64>, right: Option<i64>) -> (r: Option<Side>)
    ensures
        r == pick(left, right),
{
    match (left, right) {
        (Some(l), Some(rt)) => if l < rt {
            Some(Side::Left)
        } else {
            Some(Side::Right)
        },
        (Some(_), None) => Some(Side::Left),
        (None, Some(_)) => Some(Side::Right),
        (None, None) => None,
    }
}

pub open spec fn pick(left: Option<i64>, right: Option<i64>) -> Option<Side> {
    match (left, right) {
        (Some(l), Some(r)) => if l < r {
            Some(Side::Left)
        } else {
            Some(Side::Right)
        },
        (Some(_), None) => Some(Side::Left),
        (None, Some(_)) => Some(Side::Right),
        (None, None) => None,
    }
}

} // verus!
