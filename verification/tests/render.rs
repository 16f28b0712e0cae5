use maps_thingy::kml::{Group, Mark};
use maps_thingy::render::{page, svg, Frame, ScaleBar, Tile, ATTRIBUTION};

fn group() -> Group {
    let mut g = Group {
        name: "clip one".into(),
        marks: Vec::new(),
        routes: vec![vec![1, 2]],
        color: "#2a78d6".into(),
    };
    g.marks.push(Mark {
        name: "ABC123".into(),
        at: 0,
        when: Some("2026-08-01T20:13:03Z".into()),
        desc: "<b>ABC123</b><script>alert(1)</script>".into(),
        image: Some("images/a.jpg".into()),
        uid: "s0000".into(),
    });
    g
}

/// Positions as the map writes them, indexed like the coordinate table.
fn positions() -> Vec<String> {
    TABLE.iter().map(|(lat, lon)| format!("{:.6}, {:.6}", lat, lon)).collect()
}

const TABLE: [(f64, f64); 3] = [(47.5901, -122.2493), (47.59, -122.25), (47.60, -122.26)];

/// The window onto the tile grid: left, top, width, height.
type View = (f64, f64, f64, f64);

fn view() -> View {
    (0.0, 0.0, 800.0, 600.0)
}

/// Web mercator pixels at `zoom`, from the top-left of the world.
fn project(lat: f64, lon: f64, zoom: u8) -> (f64, f64) {
    let n = 256.0 * f64::powi(2.0, zoom as i32);
    let s = lat.to_radians().sin().clamp(-0.9999, 0.9999);
    let y = (0.5 - ((1.0 + s) / (1.0 - s)).ln() / (4.0 * std::f64::consts::PI)) * n;
    ((lon + 180.0) / 360.0 * n, y)
}

/// The map's positions written out the way the map writes them.
fn frame(v: View, zoom: u8, tiles: &[Tile]) -> Frame {
    let (x0, y0, w, h) = v;
    Frame {
        width: format!("{:.0}", w),
        height: format!("{:.0}", h),
        points: TABLE
            .iter()
            .map(|&(lat, lon)| {
                let (px, py) = project(lat, lon, zoom);
                (format!("{:.1}", px - x0), format!("{:.1}", py - y0))
            })
            .collect(),
        tiles: tiles
            .iter()
            .map(|t| (format!("{:.0}", t.tx as f64 * 256.0 - x0), format!("{:.0}", t.ty as f64 * 256.0 - y0)))
            .collect(),
        scale: ScaleBar {
            top: format!("{:.0}", h - 22.0),
            base: format!("{:.0}", h - 16.0),
            end: "114".into(),
            middle: "64".into(),
            label_y: format!("{:.0}", h - 26.0),
            label: "100 m".into(),
        },
        credit: (format!("{:.0}", w - 12.0), format!("{:.0}", h - 12.0)),
    }
}

fn map(groups: &[Group], v: View, tiles: &[Tile], title: &str, subtitle: &str) -> String {
    svg(groups, &frame(v, 14, tiles), tiles, title, subtitle)
}

#[test]
fn the_map_carries_the_route_the_pin_and_the_attribution() {
    let out = map(&[group()], view(), &[], "Scan", "1 placemark");
    assert!(out.contains("<polyline"), "route drawn");
    assert!(out.contains("id=\"pin-s0000\""), "pin anchored");
    assert!(out.contains("href=\"images/a.jpg\""), "picture linked, not inlined");
    assert!(out.contains(ATTRIBUTION), "tile licence honoured");
    assert!(!out.contains("base64"), "no tiles supplied, so nothing inlined");
}

#[test]
fn tiles_are_inlined_at_their_grid_position() {
    let tiles = vec![Tile { tx: 2, ty: 3, bytes: vec![0x89, b'P', b'N', b'G'] }];
    let v = (512.0, 512.0, 512.0, 512.0);
    let out = map(&[group()], v, &tiles, "Scan", "");
    assert!(out.contains("data:image/png;base64,iVBORw=="), "{out}");
    assert!(out.contains("x=\"0\" y=\"256\""), "placed relative to the view");
}

#[test]
fn the_standalone_map_captions_itself_and_the_page_hides_that() {
    let g = group();
    let m = map(std::slice::from_ref(&g), view(), &[], "Scan", "1 placemark");
    assert!(m.contains("class=\"caption\""), "map.svg says what it is");
    let html = page(&[g], &m, "Scan", "1 placemark", &[], &positions());
    assert!(
        html.contains(".mapbox .caption{display:none}"),
        "the page prints its own heading instead"
    );
}

#[test]
fn the_page_inlines_the_map_and_scrubs_the_balloon() {
    let g = group();
    let m = map(std::slice::from_ref(&g), view(), &[], "Scan", "");
    let html = page(&[g], &m, "Scan", "1 placemark", &["scan.kmz".into()], &positions());
    assert!(html.contains("<svg"), "map inlined");
    assert!(html.contains("<b>ABC123</b>"));
    assert!(!html.contains("alert(1)"), "script dropped from the balloon");
    assert!(html.contains("47.590100, -122.249300"));
}

#[test]
fn a_legend_appears_only_once_there_is_something_to_tell_apart() {
    let one = group();
    let m = map(std::slice::from_ref(&one), view(), &[], "Scan", "");
    assert!(!page(&[one], &m, "Scan", "", &[], &positions()).contains("class=\"legend\""));

    let (a, mut b) = (group(), group());
    b.name = "clip two".into();
    b.color = "#eb6834".into();
    let two = vec![a, b];
    let m = map(&two, view(), &[], "Scan", "");
    let html = page(&two, &m, "Scan", "", &[], &positions());
    assert!(html.contains("class=\"legend\""));
    assert!(html.contains("clip two"));
}

#[test]
fn the_page_credits_the_tiles_and_names_its_sources() {
    let m = map(&[group()], view(), &[], "A & B", "sub");
    let html = page(&[group()], &m, "A & B", "sub", &["a.kmz".into(), "<b>.kml".into()], &positions());
    assert!(html.contains(ATTRIBUTION));
    assert!(html.contains("Built from a.kmz, &lt;b&gt;.kml by"));
    assert!(html.contains("<title>A &amp; B</title>"));
    assert!(html.contains("<h2>Placemarks <span class=\"count\">(1)</span></h2>"));
    assert!(html.contains("<li class=\"card\" id=\"s0000\" data-group=\"0\">"));
    assert!(html.ends_with("</script></body></html>"));
}

#[test]
fn a_card_without_a_position_entry_shows_none() {
    let m = map(&[group()], view(), &[], "Scan", "");
    let html = page(&[group()], &m, "Scan", "", &[], &[]);
    assert!(html.contains("<div></div></div></li>"));
}

#[test]
fn tiles_are_inlined_as_base64() {
    let t = Tile { tx: 2, ty: 3, bytes: vec![0x89, b'P', b'N', b'G'] };
    assert_eq!(t.href(), "data:image/png;base64,iVBORw==");
    let t = Tile { tx: 0, ty: 0, bytes: b"Man".to_vec() };
    assert_eq!(t.href(), "data:image/png;base64,TWFu");
    let t = Tile { tx: 0, ty: 0, bytes: b"Ma".to_vec() };
    assert_eq!(t.href(), "data:image/png;base64,TWE=");
    let t = Tile { tx: 0, ty: 0, bytes: Vec::new() };
    assert_eq!(t.href(), "data:image/png;base64,");
}

#[test]
fn pins_label_and_link_their_mark() {
    let g = group();
    let m = &g.marks[0];
    assert_eq!(m.label(), "ABC123 — 2026-08-01T20:13:03Z");
    assert_eq!(m.href(), "images/a.jpg");
    let bare = Mark { name: String::new(), when: None, image: None, ..Mark { ..g.marks.into_iter().next().unwrap() } };
    assert_eq!(bare.label(), "placemark");
    assert_eq!(bare.href(), "#s0000");
}

#[test]
fn the_map_draws_each_route_through_its_points_and_pins_each_mark() {
    let f = frame(view(), 14, &[]);
    let out = svg(&[group()], &f, &[], "Scan", "");
    let (a, b) = (&f.points[1], &f.points[2]);
    let pts = format!("{},{} {},{}", a.0, a.1, b.0, b.1);
    assert!(out.contains(&format!(
        "<polyline class=\"route\" points=\"{pts}\" stroke=\"#fff\" stroke-width=\"6\" opacity=\".7\"/><polyline class=\"route\" points=\"{pts}\" stroke=\"#2a78d6\" stroke-width=\"3\"/>"
    )));
    let p = &f.points[0];
    assert!(out.contains(&format!(
        "<a class=\"mark\" id=\"pin-s0000\" data-uid=\"s0000\" href=\"images/a.jpg\" target=\"_blank\"><title>ABC123 — 2026-08-01T20:13:03Z</title><circle cx=\"{}\" cy=\"{}\" r=\"5\" fill=\"#2a78d6\"/></a>",
        p.0, p.1
    )));
    assert!(out.starts_with("<svg xmlns=\"http://www.w3.org/2000/svg\" class=\"map\" viewBox=\"0 0 800 600\" width=\"800\" height=\"600\" role=\"img\" aria-label=\"Scan\"><title>Scan</title>"));
    assert!(out.contains("<g class=\"tiles\"></g><g class=\"group\" data-group=\"0\">"));
    assert!(!out.contains("y=\"46\""), "no subtitle, no second caption");
    assert!(out.ends_with("<text x=\"788\" y=\"588\" font-size=\"11\" text-anchor=\"end\" fill=\"#52514e\">© OpenStreetMap contributors</text></g></svg>"));
}

#[test]
fn the_scale_bar_is_drawn_where_the_frame_puts_it() {
    let out = map(&[group()], view(), &[], "A <b>", "two");
    assert!(out.contains("<path d=\"M14,578 L14,584 L114,584 L114,578\" fill=\"none\" stroke=\"#0b0b0b\" stroke-width=\"2\"/><text x=\"64\" y=\"574\" font-size=\"11\" text-anchor=\"middle\" fill=\"#0b0b0b\">100 m</text>"));
    assert!(out.contains(">A &lt;b&gt;</text><text class=\"caption\" x=\"14\" y=\"46\" font-size=\"12\" fill=\"#52514e\">two</text>"));
}

#[test]
fn each_mark_has_a_pin_on_the_map_and_a_card_on_the_page() {
    let (a, mut b) = (group(), group());
    b.marks[0].uid = "s0001".into();
    let two = vec![a, b];
    let m = map(&two, view(), &[], "Scan", "");
    let html = page(&two, &m, "Scan", "", &[], &positions());
    for uid in ["s0000", "s0001"] {
        assert!(m.contains(&format!("<a class=\"mark\" id=\"pin-{uid}\" data-uid=\"{uid}\"")));
        assert!(html.contains(&format!("<li class=\"card\" id=\"{uid}\"")));
        assert!(html.contains(&format!("href=\"#pin-{uid}\">on map</a>")));
    }
}
