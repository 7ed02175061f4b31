use tartare_tools::collection::CollectionWithId;
use tartare_tools::error::Error;
use tartare_tools::objects::{Geometry, Line, OsmEntity, Point, Route, WithGeometry};
use tartare_tools::read_shapes::{from_osm, Collections, EmptyShapeWarning, OsmExtract};

fn pt(lat: i64, lon: i64) -> Point {
    Point { lat, lon }
}

fn line(id: &str, codes: &[(&str, &str)]) -> Line {
    Line {
        id: String::from(id),
        codes: codes
            .iter()
            .map(|(k, v)| (String::from(*k), String::from(*v)))
            .collect(),
        geometry_id: None,
    }
}

fn route(id: &str, codes: &[(&str, &str)]) -> Route {
    Route {
        id: String::from(id),
        codes: codes
            .iter()
            .map(|(k, v)| (String::from(*k), String::from(*v)))
            .collect(),
        geometry_id: None,
    }
}

fn osm(id: &str, shape: Vec<Vec<Point>>) -> OsmEntity {
    OsmEntity { id: String::from(id), shape }
}

fn store(lines: Vec<Line>, routes: Vec<Route>, geometries: Vec<Geometry>) -> Collections {
    Collections {
        lines: CollectionWithId::new(lines).unwrap(),
        routes: CollectionWithId::new(routes).unwrap(),
        geometries: CollectionWithId::new(geometries).unwrap(),
    }
}

fn extract(lines: Option<Vec<OsmEntity>>, routes: Option<Vec<OsmEntity>>) -> OsmExtract {
    OsmExtract { lines, routes }
}

fn sample_shape() -> Vec<Vec<Point>> {
    vec![vec![pt(43_000_000_000, 5_000_000_000), pt(43_100_000_000, 5_100_000_000)]]
}

#[test]
fn test_one_line_gets_shape() {
    let mut collections = store(vec![line("l1", &[("osm_line_id", "L1")])], vec![], vec![]);
    let mut warnings: Vec<EmptyShapeWarning> = Vec::new();
    let objects = extract(Some(vec![osm("L1", sample_shape())]), Some(vec![]));
    from_osm(objects, &mut collections, &mut warnings).unwrap();
    let geometries = collections.geometries.values();
    assert_eq!(geometries.len(), 1);
    assert_eq!(geometries[0].id, "geo:line:osm:1");
    assert_eq!(geometries[0].geometry, sample_shape());
    let lines = collections.lines.values();
    assert_eq!(lines[0].geometry_id, Some(String::from("geo:line:osm:1")));
    assert!(warnings.is_empty());
}

#[test]
fn test_second_line_without_code_untouched() {
    let mut collections = store(
        vec![line("l1", &[("osm_line_id", "L1")]), line("l2", &[])],
        vec![],
        vec![],
    );
    let mut warnings: Vec<EmptyShapeWarning> = Vec::new();
    let objects = extract(Some(vec![osm("L1", sample_shape())]), Some(vec![]));
    from_osm(objects, &mut collections, &mut warnings).unwrap();
    assert_eq!(collections.geometries.len(), 1);
    let lines = collections.lines.values();
    assert_eq!(lines[0].geometry_id, Some(String::from("geo:line:osm:1")));
    assert_eq!(lines[1].geometry_id, None);
}

#[test]
fn test_unrelated_code_untouched() {
    let mut collections = store(vec![line("l1", &[("gtfs_line_id", "L1")])], vec![], vec![]);
    let mut warnings: Vec<EmptyShapeWarning> = Vec::new();
    let objects = extract(Some(vec![osm("L1", sample_shape())]), Some(vec![]));
    from_osm(objects, &mut collections, &mut warnings).unwrap();
    assert_eq!(collections.geometries.len(), 0);
    assert_eq!(collections.lines.values()[0].geometry_id, None);
}

#[test]
fn test_unresolved_reference_fails() {
    let mut collections = store(vec![line("l1", &[("osm_line_id", "missing")])], vec![], vec![]);
    let mut warnings: Vec<EmptyShapeWarning> = Vec::new();
    let objects = extract(Some(vec![osm("L1", sample_shape())]), Some(vec![]));
    let err = from_osm(objects, &mut collections, &mut warnings).unwrap_err();
    assert_eq!(err, Error::UnresolvedReference { osm_id: String::from("missing") });
}

#[test]
fn test_empty_shape_warns_and_continues() {
    let mut collections = store(
        vec![line("l1", &[("osm_line_id", "L1")]), line("l2", &[("osm_line_id", "L2")])],
        vec![],
        vec![],
    );
    let mut warnings: Vec<EmptyShapeWarning> = Vec::new();
    let objects = extract(
        Some(vec![osm("L1", vec![]), osm("L2", sample_shape())]),
        Some(vec![]),
    );
    from_osm(objects, &mut collections, &mut warnings).unwrap();
    assert_eq!(warnings.len(), 1);
    assert_eq!(warnings[0].entity_id, "l1");
    assert_eq!(warnings[0].osm_id, "L1");
    let lines = collections.lines.values();
    assert_eq!(lines[0].geometry_id, None);
    // the counter still advanced for the skipped entity, leaving a gap
    assert_eq!(lines[1].geometry_id, Some(String::from("geo:line:osm:2")));
    assert_eq!(collections.geometries.len(), 1);
    assert_eq!(collections.geometries.values()[0].id, "geo:line:osm:2");
}

#[test]
fn test_set_geometry_id_twice_fails() {
    let mut l = line("l1", &[("osm_line_id", "L1")]);
    l.set_geometry_id(String::from("geo:line:osm:1")).unwrap();
    let err = l.set_geometry_id(String::from("geo:line:osm:2")).unwrap_err();
    assert_eq!(err, Error::DuplicateGeometryAssignment { entity_id: String::from("l1") });
    assert_eq!(l.geometry_id, Some(String::from("geo:line:osm:1")));
    assert_eq!(l.id, "l1");
}

#[test]
fn test_second_enrichment_fails() {
    let mut collections = store(vec![line("l1", &[("osm_line_id", "L1")])], vec![], vec![]);
    let mut warnings: Vec<EmptyShapeWarning> = Vec::new();
    let objects = extract(Some(vec![osm("L1", sample_shape())]), Some(vec![]));
    from_osm(objects, &mut collections, &mut warnings).unwrap();
    let again = extract(Some(vec![osm("L1", sample_shape())]), Some(vec![]));
    let err = from_osm(again, &mut collections, &mut warnings).unwrap_err();
    assert_eq!(err, Error::DuplicateGeometryAssignment { entity_id: String::from("l1") });
}

#[test]
fn test_missing_osm_line_collection() {
    let mut collections = store(vec![], vec![], vec![]);
    let mut warnings: Vec<EmptyShapeWarning> = Vec::new();
    let err = from_osm(extract(None, Some(vec![])), &mut collections, &mut warnings).unwrap_err();
    assert_eq!(err, Error::MissingOsmCollection { object_type: String::from("lines") });
}

#[test]
fn test_missing_osm_route_collection() {
    let mut collections = store(vec![], vec![], vec![]);
    let mut warnings: Vec<EmptyShapeWarning> = Vec::new();
    let err = from_osm(extract(Some(vec![]), None), &mut collections, &mut warnings).unwrap_err();
    assert_eq!(err, Error::MissingOsmCollection { object_type: String::from("routes") });
}

#[test]
fn test_invalid_path_error_exists() {
    // the path check happens before parsing; the variant compares by value
    assert_eq!(Error::InvalidPath, Error::InvalidPath);
}

#[test]
fn test_preexisting_geometry_id_collision() {
    let mut collections = store(
        vec![line("l1", &[("osm_line_id", "L1")])],
        vec![],
        vec![Geometry { id: String::from("geo:line:osm:1"), geometry: vec![] }],
    );
    let mut warnings: Vec<EmptyShapeWarning> = Vec::new();
    let objects = extract(Some(vec![osm("L1", sample_shape())]), Some(vec![]));
    let err = from_osm(objects, &mut collections, &mut warnings).unwrap_err();
    assert_eq!(err, Error::DuplicateIdentifier { id: String::from("geo:line:osm:1") });
}

#[test]
fn test_route_pass_uses_route_kind() {
    let mut collections = store(
        vec![],
        vec![route("r1", &[("osm_route_id", "R1")])],
        vec![],
    );
    let mut warnings: Vec<EmptyShapeWarning> = Vec::new();
    let objects = extract(Some(vec![]), Some(vec![osm("R1", sample_shape())]));
    from_osm(objects, &mut collections, &mut warnings).unwrap();
    assert_eq!(collections.geometries.values()[0].id, "geo:route:osm:1");
    assert_eq!(
        collections.routes.values()[0].geometry_id,
        Some(String::from("geo:route:osm:1"))
    );
}

#[test]
fn test_line_and_route_share_geometry_collection() {
    let mut collections = store(
        vec![line("l1", &[("osm_line_id", "L1")])],
        vec![route("r1", &[("osm_route_id", "R1")])],
        vec![],
    );
    let mut warnings: Vec<EmptyShapeWarning> = Vec::new();
    let objects = extract(
        Some(vec![osm("L1", sample_shape())]),
        Some(vec![osm("R1", sample_shape())]),
    );
    from_osm(objects, &mut collections, &mut warnings).unwrap();
    let geometries = collections.geometries.values();
    assert_eq!(geometries.len(), 2);
    assert_eq!(geometries[0].id, "geo:line:osm:1");
    assert_eq!(geometries[1].id, "geo:route:osm:1");
}

#[test]
fn test_index_last_entry_wins() {
    let later = vec![vec![pt(1, 2), pt(3, 4)]];
    let mut collections = store(vec![line("l1", &[("osm_line_id", "L1")])], vec![], vec![]);
    let mut warnings: Vec<EmptyShapeWarning> = Vec::new();
    let objects = extract(
        Some(vec![osm("L1", sample_shape()), osm("L1", later.clone())]),
        Some(vec![]),
    );
    from_osm(objects, &mut collections, &mut warnings).unwrap();
    assert_eq!(collections.geometries.values()[0].geometry, later);
}

#[test]
fn test_first_matching_code_wins() {
    let mut collections = store(
        vec![line("l1", &[("osm_line_id", "L1"), ("osm_line_id", "L2")])],
        vec![],
        vec![],
    );
    let mut warnings: Vec<EmptyShapeWarning> = Vec::new();
    let objects = extract(
        Some(vec![osm("L1", sample_shape()), osm("L2", vec![])]),
        Some(vec![]),
    );
    from_osm(objects, &mut collections, &mut warnings).unwrap();
    assert_eq!(collections.geometries.len(), 1);
    assert_eq!(collections.geometries.values()[0].geometry, sample_shape());
}
