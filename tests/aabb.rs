use rtc::aabb::{list_bounding_box, AABB};

fn encloses(outer: &AABB, inner: &AABB) -> bool {
    (0..3).all(|a| outer.minimum[a] <= inner.minimum[a] && inner.maximum[a] <= outer.maximum[a])
}

#[test]
fn surrounding_box_takes_componentwise_extremes() {
    let a = AABB::new([1, 5, 2], [4, 9, 3]);
    let b = AABB::new([2, 0, 7], [3, 12, 8]);
    let s = a.surrounding_box(&b);
    assert_eq!(s.minimum(), [1, 0, 2]);
    assert_eq!(s.maximum(), [4, 12, 8]);
}

#[test]
fn surrounding_box_holds_both_and_nothing_smaller_does() {
    let a = AABB::new([10, 10, 10], [20, 20, 20]);
    let b = AABB::new([15, 5, 30], [25, 6, 31]);
    let s = a.surrounding_box(&b);
    assert!(encloses(&s, &a));
    assert!(encloses(&s, &b));
    for a_ in 0..3 {
        let mut shrunk = s;
        shrunk.minimum[a_] += 1;
        assert!(!(encloses(&shrunk, &a) && encloses(&shrunk, &b)));
        let mut shrunk = s;
        shrunk.maximum[a_] -= 1;
        assert!(!(encloses(&shrunk, &a) && encloses(&shrunk, &b)));
    }
}

#[test]
fn surrounding_box_of_a_box_with_itself() {
    let a = AABB::new([3, 4, 5], [6, 7, 8]);
    let s = a.surrounding_box(&a);
    assert_eq!(s.minimum(), a.minimum());
    assert_eq!(s.maximum(), a.maximum());
}

#[test]
fn degenerate_boxes_merge() {
    let flat = AABB::new([0, 5, 0], [9, 5, 9]);
    let point = AABB::new([20, 1, 20], [20, 1, 20]);
    let s = flat.surrounding_box(&point);
    assert_eq!(s.minimum(), [0, 1, 0]);
    assert_eq!(s.maximum(), [20, 5, 20]);
}

#[test]
fn empty_list_has_no_box() {
    assert!(list_bounding_box(&vec![]).is_none());
}

#[test]
fn list_with_an_unbounded_member_has_no_box() {
    let a = AABB::new([1, 1, 1], [2, 2, 2]);
    assert!(list_bounding_box(&vec![Some(a), None]).is_none());
    assert!(list_bounding_box(&vec![None, Some(a)]).is_none());
}

#[test]
fn list_box_surrounds_every_member() {
    let boxes = vec![
        Some(AABB::new([5, 5, 5], [6, 6, 6])),
        Some(AABB::new([1, 9, 4], [2, 10, 4])),
        Some(AABB::new([3, 2, 8], [30, 3, 9])),
    ];
    let b = list_bounding_box(&boxes).unwrap();
    assert_eq!(b.minimum(), [1, 2, 4]);
    assert_eq!(b.maximum(), [30, 10, 9]);
    let single = list_bounding_box(&vec![Some(AABB::new([7, 8, 9], [10, 11, 12]))]).unwrap();
    assert_eq!(single.minimum(), [7, 8, 9]);
    assert_eq!(single.maximum(), [10, 11, 12]);
}
