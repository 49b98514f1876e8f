use osmpoi::coord::{DecimicroLatitude, DecimicroLongitude};
use osmpoi::poi::{Poi, PoiType};
use osmpoi::query::{box_selects, query, retain_within, search_box, Hit, QueryBox, QueryPoint};

const RADIUS_EARTH: f64 = 6_371.0;

fn deg_to_deci(deg: f64) -> i32 {
    (deg * 10_000_000.0) as i32
}

fn deci_to_deg(deci: i32) -> f64 {
    deci as f64 / 10_000_000.0
}

fn dis_to_deci(km: f64) -> i32 {
    deg_to_deci(km / RADIUS_EARTH / std::f64::consts::PI * 180.0)
}

fn haversine(lat1: f64, lon1: f64, lat2: f64, lon2: f64) -> f64 {
    let a = ((lat2 - lat1).to_radians() / 2.0).sin().powi(2)
        + lat1.to_radians().cos() * lat2.to_radians().cos() * ((lon2 - lon1).to_radians() / 2.0).sin().powi(2);
    2.0 * a.sqrt().asin() * RADIUS_EARTH
}

fn point(lat: f64, lon: f64) -> Poi {
    Poi {
        poi_type: PoiType::Point,
        lat: deg_to_deci(lat),
        lon: deg_to_deci(lon),
        d_lat: 0,
        d_lon: 0,
        tags: "{}".to_string(),
    }
}

fn area(lat: i32, lon: i32, d_lat: i32, d_lon: i32) -> Poi {
    Poi { poi_type: PoiType::Area, lat, lon, d_lat, d_lon, tags: "{}".to_string() }
}

fn at(id: i64, lat: f64, lon: f64) -> QueryPoint {
    QueryPoint {
        id,
        lat: DecimicroLatitude(deg_to_deci(lat)),
        lon: DecimicroLongitude(deg_to_deci(lon)),
    }
}

fn qbox(lat_bottom: i32, lat_top: i32, lon_left: i32, lon_right: i32) -> QueryBox {
    QueryBox {
        lat_bottom: DecimicroLatitude(lat_bottom),
        lat_top: DecimicroLatitude(lat_top),
        lon_left: DecimicroLongitude(lon_left),
        lon_right: DecimicroLongitude(lon_right),
    }
}

/// The whole query as a caller runs it: box search, distances, final filter.
fn run(pois: &Vec<Poi>, points: &Vec<QueryPoint>, km: f64, strict: bool) -> Vec<(Hit, f64)> {
    let d = dis_to_deci(km);
    let hits = query(pois, points, DecimicroLatitude(d), DecimicroLongitude(d), strict);
    let distance = |h: &Hit| {
        let q = &points[h.point];
        let p = &pois[h.poi];
        haversine(deci_to_deg(p.lat), deci_to_deg(p.lon), deci_to_deg(q.lat.0), deci_to_deg(q.lon.0))
    };
    let measured: Vec<(Hit, bool)> = hits.iter().map(|h| (*h, distance(h) > km)).collect();
    retain_within(&measured, strict).iter().map(|h| (*h, distance(h))).collect()
}

#[test]
fn strict_query_at_the_poi_itself() {
    let pois = vec![point(10.0, 20.0)];
    let rows = run(&pois, &vec![at(1, 10.0, 20.0)], 1.0, true);
    assert_eq!(rows.len(), 1);
    assert_eq!(rows[0].0, Hit { point: 0, refer_id: 1, poi: 0 });
    assert!(rows[0].1.abs() < 1e-6);
}

#[test]
fn strict_query_far_from_the_poi() {
    let pois = vec![point(10.0, 20.0)];
    // about 10 km north of the POI
    let q = vec![at(1, 10.0899, 20.0)];
    assert!((haversine(10.0, 20.0, 10.0899, 20.0) - 10.0).abs() < 0.01);
    assert_eq!(run(&pois, &q, 0.0001, true).len(), 0);
    assert_eq!(run(&pois, &q, 0.0001, false).len(), 0);
    assert_eq!(run(&pois, &q, 11.0, true).len(), 1);
}

#[test]
fn loose_query_keeps_what_strict_drops() {
    // inside the box at its corner, but farther than the radius
    let pois = vec![point(10.0089, 20.0089)];
    let q = vec![at(7, 10.0, 20.0)];
    assert!(haversine(10.0, 20.0, 10.0089, 20.0089) > 1.0);
    assert_eq!(run(&pois, &q, 1.0, true).len(), 0);
    let loose = run(&pois, &q, 1.0, false);
    assert_eq!(loose.len(), 1);
    assert_eq!(loose[0].0, Hit { point: 0, refer_id: 7, poi: 0 });
    assert!(loose[0].1 > 1.0);
}

#[test]
fn loose_query_matches_by_extent() {
    // centre outside the box, extent reaching into it
    let pois = vec![area(1000, 1000, 600, 600)];
    let q = qbox(0, 500, 0, 500);
    assert!(!box_selects(&pois[0], &q, true));
    assert!(box_selects(&pois[0], &q, false));
    assert!(!box_selects(&area(1000, 1000, 499, 600), &q, false));
    assert!(!box_selects(&area(1000, 1000, 600, 499), &q, false));
    assert!(box_selects(&area(1000, 1000, 500, 500), &q, false));
    assert!(box_selects(&area(-1000, -1000, 1000, 1000), &q, false));
    assert!(!box_selects(&area(-1000, -1000, 999, 1000), &q, false));
}

#[test]
fn strict_box_counts_its_edges() {
    let q = qbox(-10, 10, -20, 20);
    assert!(box_selects(&area(-10, -20, 0, 0), &q, true));
    assert!(box_selects(&area(10, 20, 0, 0), &q, true));
    assert!(!box_selects(&area(11, 20, 50, 50), &q, true));
    assert!(!box_selects(&area(10, 21, 50, 50), &q, true));
    assert!(!box_selects(&area(-11, 0, 50, 50), &q, true));
    assert!(!box_selects(&area(0, -21, 50, 50), &q, true));
}

#[test]
fn search_box_expands_the_point() {
    let q = search_box(
        DecimicroLatitude(100),
        DecimicroLongitude(-200),
        DecimicroLatitude(30),
        DecimicroLongitude(40),
    );
    assert_eq!(q, qbox(70, 130, -240, -160));
}

#[test]
fn search_box_saturates() {
    let q = search_box(
        DecimicroLatitude(i32::MAX),
        DecimicroLongitude(i32::MIN),
        DecimicroLatitude(10),
        DecimicroLongitude(10),
    );
    assert_eq!(q, qbox(i32::MAX - 10, i32::MAX, i32::MIN, i32::MIN + 10));
}

#[test]
fn hits_are_grouped_by_query_point_in_input_order() {
    let pois = vec![area(0, 0, 0, 0), area(100, 100, 0, 0), area(5, 5, 0, 0)];
    let points = vec![
        QueryPoint { id: 9, lat: DecimicroLatitude(100), lon: DecimicroLongitude(100) },
        QueryPoint { id: 3, lat: DecimicroLatitude(2), lon: DecimicroLongitude(2) },
        QueryPoint { id: 4, lat: DecimicroLatitude(-500), lon: DecimicroLongitude(0) },
        QueryPoint { id: 3, lat: DecimicroLatitude(4), lon: DecimicroLongitude(4) },
    ];
    let hits = query(&pois, &points, DecimicroLatitude(3), DecimicroLongitude(3), true);
    assert_eq!(
        hits,
        vec![
            Hit { point: 0, refer_id: 9, poi: 1 },
            Hit { point: 1, refer_id: 3, poi: 0 },
            Hit { point: 1, refer_id: 3, poi: 2 },
            Hit { point: 3, refer_id: 3, poi: 2 },
        ]
    );
}

#[test]
fn query_without_points_or_pois() {
    let d = DecimicroLatitude(1);
    let e = DecimicroLongitude(1);
    assert!(query(&Vec::new(), &vec![at(1, 0.0, 0.0)], d, e, true).is_empty());
    assert!(query(&vec![point(0.0, 0.0)], &Vec::new(), d, e, false).is_empty());
}

#[test]
fn retain_within_filters_in_strict_mode_only() {
    let a = Hit { point: 0, refer_id: 1, poi: 0 };
    let b = Hit { point: 0, refer_id: 1, poi: 1 };
    let c = Hit { point: 1, refer_id: 2, poi: 0 };
    let measured = vec![(a, false), (b, true), (c, false)];
    assert_eq!(retain_within(&measured, true), vec![a, c]);
    assert_eq!(retain_within(&measured, false), vec![a, b, c]);
    assert_eq!(retain_within(&Vec::new(), true), Vec::new());
}
