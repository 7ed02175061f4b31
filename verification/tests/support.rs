use tartare_tools::collection::CollectionWithId;
use tartare_tools::error::Error;
use tartare_tools::objects::{Geometry, Line, OsmEntity, Point};
use tartare_tools::read_shapes::{osm_objects_by_id, populate_shapes_for_collection, EmptyShapeWarning};
use tartare_tools::text::{code_key, geometry_id, u64_to_string};

fn geometry(id: &str) -> Geometry {
    Geometry { id: String::from(id), geometry: vec![] }
}

fn bare_line(id: &str) -> Line {
    Line { id: String::from(id), codes: vec![], geometry_id: None }
}

#[test]
fn test_u64_to_string_exact() {
    assert_eq!(u64_to_string(0), "0");
    assert_eq!(u64_to_string(7), "7");
    assert_eq!(u64_to_string(10), "10");
    assert_eq!(u64_to_string(90210), "90210");
    assert_eq!(u64_to_string(u64::MAX), "18446744073709551615");
}

#[test]
fn test_key_and_id_formats() {
    assert_eq!(code_key("line"), "osm_line_id");
    assert_eq!(code_key("route"), "osm_route_id");
    assert_eq!(geometry_id("line", 1), "geo:line:osm:1");
    assert_eq!(geometry_id("route", 42), "geo:route:osm:42");
}

#[test]
fn test_collection_rejects_duplicate_ids() {
    let err = CollectionWithId::new(vec![
        geometry("a"),
        geometry("b"),
        geometry("a"),
        geometry("b"),
    ])
    .unwrap_err();
    // the first item whose id already appeared is reported
    assert_eq!(err, Error::DuplicateIdentifier { id: String::from("a") });
}

#[test]
fn test_collection_keeps_order_and_takes() {
    let mut c = CollectionWithId::new(vec![bare_line("x"), bare_line("y")]).unwrap();
    assert_eq!(c.len(), 2);
    assert_eq!(c.values()[0].id, "x");
    assert_eq!(c.values()[1].id, "y");
    assert!(c.get(&String::from("y")).is_some());
    assert!(c.get(&String::from("z")).is_none());
    let detached = c.take();
    assert_eq!(detached.len(), 2);
    assert_eq!(c.len(), 0);
}

#[test]
fn test_missing_collection_is_not_an_empty_one() {
    assert!(osm_objects_by_id(Some(vec![]), "lines").is_ok());
    let err = osm_objects_by_id(None, "lines").unwrap_err();
    assert_eq!(err, Error::MissingOsmCollection { object_type: String::from("lines") });
}

#[test]
fn test_index_lookup_prefers_last_entry() {
    let index = osm_objects_by_id(
        Some(vec![
            OsmEntity { id: String::from("L1"), shape: vec![] },
            OsmEntity { id: String::from("L1"), shape: vec![vec![Point { lat: 1, lon: 2 }]] },
        ]),
        "lines",
    )
    .unwrap();
    let found = index.lookup(&String::from("L1")).unwrap();
    assert_eq!(found.shape.len(), 1);
    assert!(index.lookup(&String::from("L2")).is_none());
}

#[test]
fn test_populate_appends_to_given_accumulator() {
    let mut geometries = vec![Geometry { id: String::from("geo:old"), geometry: vec![] }];
    let mut lines = CollectionWithId::new(vec![Line {
        id: String::from("l1"),
        codes: vec![(String::from("osm_line_id"), String::from("L1"))],
        geometry_id: None,
    }])
    .unwrap();
    let index = osm_objects_by_id(
        Some(vec![OsmEntity {
            id: String::from("L1"),
            shape: vec![vec![Point { lat: 1, lon: 2 }, Point { lat: 3, lon: 4 }]],
        }]),
        "lines",
    )
    .unwrap();
    let mut warnings: Vec<EmptyShapeWarning> = Vec::new();
    let rebuilt =
        populate_shapes_for_collection(&mut geometries, &mut lines, &index, "line", &mut warnings)
            .unwrap();
    // the source collection was detached, the rebuilt one returned
    assert_eq!(lines.len(), 0);
    assert_eq!(rebuilt.len(), 1);
    assert_eq!(rebuilt.values()[0].geometry_id, Some(String::from("geo:line:osm:1")));
    assert_eq!(geometries.len(), 2);
    assert_eq!(geometries[0].id, "geo:old");
    assert_eq!(geometries[1].id, "geo:line:osm:1");
    assert!(warnings.is_empty());
}
