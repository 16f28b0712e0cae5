use maps_thingy::kml::{into_groups, parse, parse_coords, read_events, Coord, Group, XmlEvent};
use maps_thingy::pictures::{img_src_span, span_text};

const DOC: &str = r#"<?xml version="1.0" encoding="UTF-8"?>
<kml xmlns="http://www.opengis.net/kml/2.2"><Document>
<name>License plate scan</name>
<Folder><name>clip one</name>
<Placemark><name>Route</name><LineString><coordinates>
-122.25,47.59,0 -122.26,47.60,0</coordinates></LineString></Placemark>
<Placemark><name>ABC123</name>
<TimeStamp><when>2026-08-01T20:13:03Z</when></TimeStamp>
<description><![CDATA[<img src="files/a.jpg"/><br/><b>ABC123</b>]]></description>
<Point><coordinates>-122.249349,47.590145,0</coordinates></Point>
</Placemark></Folder>
<Folder><name>clip two</name>
<Placemark><name>XYZ</name><Point><coordinates>-122.3,47.5</coordinates></Point></Placemark>
</Folder></Document></kml>"#;

/// A coordinate field read as numbers: a position when both parse and lie on
/// the map.
fn position(c: &Coord) -> Option<(f64, f64)> {
    let lon: f64 = c.lon.parse().ok()?;
    let lat: f64 = c.lat.parse().ok()?;
    ((-180.0..=180.0).contains(&lon) && (-85.05..=85.05).contains(&lat)).then_some((lat, lon))
}

struct Read {
    groups: Vec<Group>,
    name: String,
    positions: Vec<Option<(f64, f64)>>,
}

fn read_kml(text: &str, stem: &str) -> Result<Read, String> {
    let doc = parse(text, stem)?;
    let positions: Vec<Option<(f64, f64)>> = doc.coords.iter().map(position).collect();
    let valid: Vec<bool> = positions.iter().map(|p| p.is_some()).collect();
    let groups = into_groups(&doc, &valid);
    Ok(Read { groups, name: doc.name.clone(), positions })
}

fn coords(text: &str) -> Vec<(f64, f64)> {
    parse_coords(text).iter().filter_map(position).collect()
}

#[test]
fn folders_become_groups() {
    let r = read_kml(DOC, "stem").expect("parses");
    let (groups, name) = (&r.groups, &r.name);
    assert_eq!(name, "License plate scan");
    assert_eq!(groups.len(), 2);
    assert_eq!(groups[0].name, "clip one");
    assert_eq!(groups[0].marks.len(), 1, "the route placemark adds no marks");
    assert_eq!(groups[0].routes.len(), 1);
    assert_eq!(groups[0].routes[0].len(), 2);
    assert_eq!(groups[1].marks[0].name, "XYZ");
}

#[test]
fn placemark_keeps_its_time_and_balloon() {
    let r = read_kml(DOC, "stem").expect("parses");
    let m = &r.groups[0].marks[0];
    let (lat, lon) = r.positions[m.at].unwrap();
    assert_eq!(m.name, "ABC123");
    assert_eq!(m.when.as_deref(), Some("2026-08-01T20:13:03Z"));
    assert!(m.desc.contains("<b>ABC123</b>"));
    assert!((lat - 47.590145).abs() < 1e-9);
    assert!((lon + 122.249349).abs() < 1e-9);
}

#[test]
fn coordinates_survive_missing_altitude_and_junk() {
    assert_eq!(coords("-122.3,47.5"), vec![(47.5, -122.3)]);
    assert_eq!(coords("nonsense 1,2,3"), vec![(2.0, 1.0)]);
    assert!(coords("999,999,0").is_empty());
}

#[test]
fn finds_the_picture_reference() {
    let d = r#"<img src="files/a.jpg" style="x"/>rest"#;
    let span = img_src_span(d).expect("found");
    assert_eq!(span_text(d, &span), "files/a.jpg");
    assert_eq!(img_src_span("no picture here"), None);
    let single = "<IMG SRC='b.png'>";
    assert_eq!(span_text(single, &img_src_span(single).unwrap()), "b.png");
}

#[test]
fn placemarks_outside_a_folder_land_under_the_document() {
    let doc = r#"<kml><Document><name>Loose</name>
<Placemark><name>P</name><Point><coordinates>1,2</coordinates></Point></Placemark>
</Document></kml>"#;
    let r = read_kml(doc, "stem").expect("parses");
    assert_eq!(r.groups.len(), 1);
    assert_eq!(r.groups[0].name, "Loose");
}

#[test]
fn coordinate_fields_keep_the_first_two_parts_as_text() {
    let cs = parse_coords(" 1,2,3\n\t4,5 six 7,,8 \u{3000}9,10");
    let pairs: Vec<(String, String)> = cs.iter().map(|c| (c.lon.clone(), c.lat.clone())).collect();
    assert_eq!(
        pairs,
        vec![
            ("1".to_string(), "2".to_string()),
            ("4".to_string(), "5".to_string()),
            ("7".to_string(), "".to_string()),
            ("9".to_string(), "10".to_string()),
        ]
    );
}

#[test]
fn a_document_without_a_name_is_named_after_the_file() {
    let doc = r#"<kml><Placemark><name>P</name><Point><coordinates>1,2</coordinates></Point></Placemark></kml>"#;
    let r = read_kml(doc, "scan").expect("parses");
    assert_eq!(r.name, "scan");
    assert_eq!(r.groups[0].name, "scan");
}

#[test]
fn nested_folders_give_the_placemark_to_the_innermost_named_one() {
    let doc = r#"<kml><Document><name>D</name><Folder><name>outer</name><Folder>
<Placemark><Point><coordinates>1,2</coordinates></Point></Placemark></Folder>
<Folder><name>inner</name><Placemark><Point><coordinates>3,4</coordinates></Point></Placemark></Folder>
</Folder></Document></kml>"#;
    let r = read_kml(doc, "s").expect("parses");
    let names: Vec<&str> = r.groups.iter().map(|g| g.name.as_str()).collect();
    assert_eq!(names, vec!["outer", "inner"]);
}

#[test]
fn a_time_span_gives_its_start_and_the_first_time_wins() {
    let doc = r#"<kml><Placemark><TimeSpan><begin>2020-01-01</begin><end>2020-02-01</end></TimeSpan>
<TimeStamp><when>2021-01-01</when></TimeStamp><Point><coordinates>1,2</coordinates></Point></Placemark></kml>"#;
    let r = read_kml(doc, "s").expect("parses");
    assert_eq!(r.groups[0].marks[0].when.as_deref(), Some("2020-01-01"));
}

#[test]
fn groups_with_nothing_to_draw_are_dropped() {
    let doc = r#"<kml><Document><Folder><name>empty</name>
<Placemark><Point><coordinates>999,0</coordinates></Point></Placemark>
<Placemark><LineString><coordinates>1,2 999,0</coordinates></LineString></Placemark></Folder>
<Folder><name>full</name><Placemark><Point><coordinates>1,2</coordinates></Point></Placemark></Folder>
</Document></kml>"#;
    let r = read_kml(doc, "s").expect("parses");
    assert_eq!(r.groups.len(), 1);
    assert_eq!(r.groups[0].name, "full");
    assert!(!r.groups[0].is_empty());
}

#[test]
fn malformed_xml_is_refused() {
    let err = read_kml("<kml><!-- never closed", "s").err().expect("refused");
    assert!(err.starts_with("not parseable as KML: "), "{err}");
}

#[test]
fn group_points_list_marks_then_routes() {
    let doc = r#"<kml><Placemark><Point><coordinates>1,2</coordinates></Point></Placemark>
<Placemark><LineString><coordinates>3,4 5,6</coordinates></LineString></Placemark></kml>"#;
    let r = read_kml(doc, "s").expect("parses");
    assert_eq!(r.groups[0].points(), vec![0, 1, 2]);
}

fn s(x: &str) -> String {
    x.to_string()
}

#[test]
fn events_are_read_up_to_the_end_of_input() {
    let events = vec![
        XmlEvent::Start(s("Folder")),
        XmlEvent::Start(s("name")),
        XmlEvent::Text(s("clip")),
        XmlEvent::End(s("name")),
        XmlEvent::Start(s("Placemark")),
        XmlEvent::Start(s("name")),
        XmlEvent::CData(s("P1")),
        XmlEvent::End(s("name")),
        XmlEvent::Start(s("Point")),
        XmlEvent::Start(s("coordinates")),
        XmlEvent::Text(s("1,2 3,4")),
        XmlEvent::End(s("coordinates")),
        XmlEvent::End(s("Point")),
        XmlEvent::End(s("Placemark")),
        XmlEvent::End(s("Folder")),
        XmlEvent::Eof,
        XmlEvent::Failed(s("never read")),
    ];
    let doc = read_events(&events, "stem").expect("reads");
    assert_eq!(doc.name, "stem");
    assert_eq!(doc.coords.len(), 2);
    assert_eq!(doc.placemarks.len(), 1);
    assert_eq!(doc.placemarks[0].group, "clip");
    assert_eq!(doc.placemarks[0].name, "P1");
    assert_eq!(doc.placemarks[0].points, vec![0, 1]);
}

#[test]
fn a_reader_error_comes_back_with_its_message() {
    let events = vec![XmlEvent::Start(s("kml")), XmlEvent::Failed(s("bad tag"))];
    let err = read_events(&events, "stem").err().expect("fails");
    assert_eq!(err, "not parseable as KML: bad tag");
    let unfinished = read_events(&vec![XmlEvent::Other], "stem").err().expect("fails");
    assert!(unfinished.starts_with("not parseable as KML: "));
}

#[test]
fn coordinate_lists_joined_by_a_space_keep_both_lists_fields() {
    let (a, b) = ("-122.3,47.5 junk 1,2,3", "\t4,5 ,6 7,8,9");
    let joined = parse_coords(&format!("{a} {b}"));
    let mut both = parse_coords(a);
    both.extend(parse_coords(b));
    assert_eq!(joined.len(), both.len());
    for (x, y) in joined.iter().zip(both.iter()) {
        assert_eq!((&x.lon, &x.lat), (&y.lon, &y.lat));
    }
    assert_eq!(joined.len(), 5);
    assert_eq!((joined[4].lon.as_str(), joined[4].lat.as_str()), ("7", "8"));
}

#[test]
fn a_file_is_read_from_its_bytes_with_bad_utf8_replaced() {
    let mut bytes = DOC.as_bytes().to_vec();
    let at = DOC.find("License").unwrap();
    bytes[at] = 0xff;
    let doc = maps_thingy::kml::parse_bytes(&bytes, "stem").expect("parses");
    assert_eq!(doc.name, "\u{fffd}icense plate scan");
    let same = maps_thingy::kml::parse_bytes(DOC.as_bytes(), "stem").expect("parses");
    assert_eq!(same.name, "License plate scan");
}
