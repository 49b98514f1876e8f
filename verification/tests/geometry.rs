use osmpoi::bbox::{extend, merge_sources, nullable_max, nullable_min, BoundingBox};
use osmpoi::coord::{DecimicroLatitude, DecimicroLongitude, LAT_LIMIT, LON_LIMIT};

fn bb(lat_lb: i32, lon_lb: i32, lat_rt: i32, lon_rt: i32) -> BoundingBox {
    BoundingBox { lat_lb, lon_lb, lat_rt, lon_rt }
}

#[test]
fn nullable_min_of_all_shapes() {
    assert_eq!(nullable_min(None, None, None), None);
    assert_eq!(nullable_min(Some(3), None, None), Some(3));
    assert_eq!(nullable_min(None, Some(3), None), Some(3));
    assert_eq!(nullable_min(None, None, Some(3)), Some(3));
    assert_eq!(nullable_min(Some(3), Some(-1), None), Some(-1));
    assert_eq!(nullable_min(None, Some(3), Some(7)), Some(3));
    assert_eq!(nullable_min(Some(9), None, Some(7)), Some(7));
    assert_eq!(nullable_min(Some(5), Some(2), Some(8)), Some(2));
    assert_eq!(nullable_min(Some(5), Some(9), Some(-8)), Some(-8));
    assert_eq!(nullable_min(Some(i32::MIN), Some(i32::MAX), Some(0)), Some(i32::MIN));
}

#[test]
fn nullable_max_of_all_shapes() {
    assert_eq!(nullable_max(None, None, None), None);
    assert_eq!(nullable_max(Some(3), None, None), Some(3));
    assert_eq!(nullable_max(None, Some(3), None), Some(3));
    assert_eq!(nullable_max(None, None, Some(3)), Some(3));
    assert_eq!(nullable_max(Some(3), Some(-1), None), Some(3));
    assert_eq!(nullable_max(None, Some(3), Some(7)), Some(7));
    assert_eq!(nullable_max(Some(9), None, Some(7)), Some(9));
    assert_eq!(nullable_max(Some(5), Some(2), Some(8)), Some(8));
    assert_eq!(nullable_max(Some(5), Some(9), Some(-8)), Some(9));
    assert_eq!(nullable_max(Some(i32::MIN), Some(i32::MAX), Some(0)), Some(i32::MAX));
}

#[test]
fn point_and_zero_boxes() {
    assert_eq!(BoundingBox::zero(), bb(0, 0, 0, 0));
    assert_eq!(BoundingBox::point(5, -7), bb(5, -7, 5, -7));
}

#[test]
fn extend_joins_edge_by_edge() {
    assert_eq!(extend(None, bb(1, 2, 3, 4)), Some(bb(1, 2, 3, 4)));
    assert_eq!(extend(Some(bb(1, 2, 3, 4)), bb(0, 5, 2, 9)), Some(bb(0, 2, 3, 9)));
    assert_eq!(extend(Some(bb(1, 2, 3, 4)), bb(2, 3, 2, 3)), Some(bb(1, 2, 3, 4)));
}

#[test]
fn merge_ignores_absent_sources() {
    let n = Some(bb(10, 10, 10, 10));
    let w = Some(bb(0, 20, 5, 30));
    let r = Some(bb(-5, 15, 12, 16));
    assert_eq!(merge_sources(None, None, None), None);
    assert_eq!(merge_sources(n, None, None), n);
    assert_eq!(merge_sources(None, w, None), w);
    assert_eq!(merge_sources(None, None, r), r);
    assert_eq!(merge_sources(n, w, None), Some(bb(0, 10, 10, 30)));
    assert_eq!(merge_sources(n, None, r), Some(bb(-5, 10, 12, 16)));
    assert_eq!(merge_sources(None, w, r), Some(bb(-5, 15, 12, 30)));
    assert_eq!(merge_sources(n, w, r), Some(bb(-5, 10, 12, 30)));
}

#[test]
fn coordinates_know_their_range() {
    assert_eq!(LAT_LIMIT, 900_000_000);
    assert_eq!(LON_LIMIT, 1_800_000_000);
    assert!(DecimicroLatitude::from(900_000_000).is_valid());
    assert!(DecimicroLatitude::from(-900_000_000).is_valid());
    assert!(!DecimicroLatitude::from(900_000_001).is_valid());
    assert!(!DecimicroLatitude::from(-900_000_001).is_valid());
    assert!(DecimicroLongitude::from(1_800_000_000).is_valid());
    assert!(DecimicroLongitude::from(-1_800_000_000).is_valid());
    assert!(!DecimicroLongitude::from(1_800_000_001).is_valid());
    assert!(!DecimicroLongitude::from(-1_800_000_001).is_valid());
}

#[test]
fn coordinates_from_integers() {
    assert_eq!(DecimicroLatitude::from(42), DecimicroLatitude(42));
    assert_eq!(DecimicroLongitude::from(-42), DecimicroLongitude(-42));
    let lat: DecimicroLatitude = 7.into();
    assert_eq!(lat.0, 7);
}
