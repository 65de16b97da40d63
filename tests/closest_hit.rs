use raytrace::closest::{nearer, Closest, Hit, Side};
use raytrace::list::HittableList;

#[test]
fn closest_starts_empty_with_full_interval() {
    let c = Closest::new(100);
    assert_eq!(c.bound(), 100);
    assert_eq!(c.best(), None);
}

#[test]
fn closest_keeps_only_nearer_hits() {
    let mut c = Closest::new(100);
    assert!(c.offer(0, 50));
    assert_eq!(c.bound(), 50);
    assert!(!c.offer(1, 70));
    assert!(!c.offer(2, 50));
    assert!(c.offer(3, 10));
    assert_eq!(c.best(), Some(Hit { child: 3, t: 10 }));
    assert_eq!(c.bound(), 10);
    assert!(!c.offer(4, 100));
}

#[test]
fn closest_rejects_hit_at_interval_end() {
    let mut c = Closest::new(5);
    assert!(!c.offer(0, 5));
    assert_eq!(c.best(), None);
}

#[test]
fn nearer_picks_smaller_distance() {
    assert_eq!(nearer(Some(1), Some(2)), Some(Side::Left));
    assert_eq!(nearer(Some(3), Some(2)), Some(Side::Right));
    assert_eq!(nearer(Some(2), Some(2)), Some(Side::Right));
    assert_eq!(nearer(Some(2), None), Some(Side::Left));
    assert_eq!(nearer(None, Some(-4)), Some(Side::Right));
    assert_eq!(nearer(None, None), None);
}

fn nears() -> Vec<Option<i64>> {
    vec![Some(40), None, Some(15), Some(15), Some(90), Some(3)]
}

#[test]
fn list_hit_finds_nearest_child() {
    let list = HittableList::new(nears());
    let query = |i: usize, c: i64| list.get(i).filter(|t| *t < c);
    assert_eq!(list.hit(&query, 1000), Some(Hit { child: 5, t: 3 }));
    assert_eq!(list.hit(&query, 3), None);
    assert_eq!(list.len(), 6);
}

#[test]
fn list_hit_prefers_first_of_equal_hits() {
    let list = HittableList::new(vec![Some(40), Some(15), Some(15), Some(90)]);
    let query = |i: usize, c: i64| list.get(i).filter(|t| *t < c);
    assert_eq!(list.hit(&query, 1000), Some(Hit { child: 1, t: 15 }));
}

#[test]
fn list_hit_asks_with_shrinking_bound() {
    let list = HittableList::new(nears());
    let asked = std::cell::RefCell::new(Vec::new());
    let query = |i: usize, c: i64| {
        asked.borrow_mut().push((i, c));
        list.get(i).filter(|t| *t < c)
    };
    list.hit(&query, 1000);
    assert_eq!(
        asked.into_inner(),
        vec![(0, 1000), (1, 40), (2, 40), (3, 15), (4, 15), (5, 15)]
    );
}

#[test]
fn empty_list_has_no_hit() {
    let list: HittableList<Option<i64>> = HittableList::new(Vec::new());
    let query = |i: usize, c: i64| list.get(i).filter(|t| *t < c);
    assert_eq!(list.hit(&query, 10), None);
    assert_eq!(list.into_inner(), Vec::new());
}
