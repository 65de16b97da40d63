use crate::closest::{answer, is_nearest, lemma_closest_hit, scan, Closest, Hit};
use vstd::prelude::*;

verus! {

/// `query` answers like children whose nearest hits over the whole query
/// interval are `nears`: asked for child `p`'s nearest hit closer than `c`,
/// it gives `answer(nears[p], c)`.
pub open spec fn answers_by<Q: Fn(usize, i64) -> Option<i64>>(query: Q, nears: Seq<Option<i64>>) -> bool {
    forall|p: usize, c: i64, r: Option<i64>|
        (p as int) < nears.len() && #[trigger] query.ensures((p, c), r) ==> r == answer(
            nears[p as int],
            c,
        )
}

/// A composite of intersectables, searched one child after the other.
pub struct HittableList<T> {
    pub list: Vec<T>,
}

impl<T> HittableList<T> {
    pub fn new(list: Vec<T>) -> (r: HittableList<T>)
        ensures
            r.list == list,
    {
        HittableList { list }
    }

    /// The children, in order.
    pub fn into_inner(self) -> (r: Vec<T>)
        ensures
            r == self.list,
    {
        self.list
    }

    pub fn len(&self) -> (r: usize)
        ensures
            r == self.list@.len(),
    {
        self.list.len()
    }

    /// Child `i`.
    pub fn get(&self, i: usize) -> (r: &T)
        requires
            i < self.list@.len(),
        ensures
            *r == self.list@[i as int],
    {
        &self.list[i]
    }

    /// The nearest hit below `t_max` among the children. `query(i, c)` asks
    /// child `i` for its nearest hit closer than `c`; each child is asked
    /// once, in order, with the distance of the nearest hit found so far.
    pub fn hit<Q: Fn(usize, i64) -> Option<i64>>(&self, query: &Q, t_max: i64) -> (r: Option<Hit>)
        requires
            forall|p: usize, c: i64| p < self.list@.len() ==> #[trigger] query.requires((p, c)),
        ensures
            forall|nears: Seq<Option<i64>>|
                nears.len() == self.list@.len() && #[trigger] answers_by(*query, nears) ==> r
                    == scan(nears, t_max).best && is_nearest(nears, t_max, r),
    {
        let n = self.list.len();
        let mut state = Closest::new(t_max);
        let mut i: usize = 0;
        while i < n
            invariant
                i <= n,
                n == self.list@.len(),
                forall|p: usize, c: i64| p < n ==> #[trigger] query.requires((p, c)),
                forall|nears: Seq<Option<i64>>|
                    nears.len() == n && #[trigger] answers_by(*query, nears) ==> state == scan(
                        nears.take(i as int),
                        t_max,
                    ),
            decreases n - i,
        {
            let ghost prev = state;
            let found = query(i, state.bound());
            match found {
                Some(t) => {
                    state.offer(i, t);
                },
                None => {},
            }
            proof {
                assert forall|nears: Seq<Option<i64>>|
                    nears.len() == n && #[trigger] answers_by(*query, nears) implies state == scan(
                    nears.take(i + 1),
                    t_max,
                ) by {
                    assert(nears.take(i + 1).drop_last() =~= nears.take(i as int));
                    assert(found == answer(nears[i as int], prev.bound));
                }
            }
            i = i + 1;
        }
        proof {
            assert forall|nears: Seq<Option<i64>>|
                nears.len() == n && #[trigger] answers_by(*query, nears) implies state.best == scan(
                nears,
                t_max,
            ).best && is_nearest(nears, t_max, state.best) by {
                assert(nears.take(n as int) =~= nears);
                lemma_closest_hit(nears, t_max);
            }
        }
        state.best()
    }
}

} // verus!
