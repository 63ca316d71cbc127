use giui::util::WithPriority;
use std::cmp::Ordering;

#[test]
fn cmp_range() {
    let v = vec![0..1, 1..2, 3..5, 5..8, 8..15];
    v.binary_search_by(|x| giui::util::cmp_range(0, x.clone())).unwrap();
    v.binary_search_by(|x| giui::util::cmp_range(1, x.clone())).unwrap();
    v.binary_search_by(|x| giui::util::cmp_range(2, x.clone())).unwrap_err();
    v.binary_search_by(|x| giui::util::cmp_range(5, x.clone())).unwrap();
    v.binary_search_by(|x| giui::util::cmp_range(7, x.clone())).unwrap();
    v.binary_search_by(|x| giui::util::cmp_range(8, x.clone())).unwrap();
    v.binary_search_by(|x| giui::util::cmp_range(15, x.clone())).unwrap_err();
}

#[test]
fn cmp_range_values() {
    assert_eq!(giui::util::cmp_range(2, 3..5), Ordering::Greater);
    assert_eq!(giui::util::cmp_range(3, 3..5), Ordering::Equal);
    assert_eq!(giui::util::cmp_range(4, 3..5), Ordering::Equal);
    assert_eq!(giui::util::cmp_range(5, 3..5), Ordering::Less);
    // an empty range holds nothing
    assert_eq!(giui::util::cmp_range(3, 3..3), Ordering::Less);
}

#[test]
fn with_priority_keeps_its_parts() {
    let w = WithPriority::new((7u64, 2u64), "item");
    assert_eq!(*w.priority(), (7, 2));
    assert_eq!(w.item, "item");
}
