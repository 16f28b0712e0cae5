use maps_thingy::kml::{Group, Mark};
use maps_thingy::site::{label_groups, mark_uid, series_color, subtitle};
use maps_thingy::tiles::{tile_key, tile_url};

fn mark(name: &str) -> Mark {
    Mark {
        name: name.into(),
        at: 0,
        when: None,
        desc: String::new(),
        image: None,
        uid: String::new(),
    }
}

#[test]
fn anchors_count_placemarks_across_groups() {
    assert_eq!(mark_uid(0), "s0000");
    assert_eq!(mark_uid(42), "s0042");
    assert_eq!(mark_uid(12345), "s12345");
    let mut groups = Vec::new();
    for (i, n) in [2usize, 0, 1].iter().enumerate() {
        groups.push(Group {
            name: format!("g{i}"),
            marks: (0..*n).map(|k| mark(&format!("m{k}"))).collect(),
            routes: vec![vec![0, 1]],
            color: String::new(),
        });
    }
    let labeled = label_groups(groups);
    let uids: Vec<&str> = labeled.iter().flat_map(|g| g.marks.iter().map(|m| m.uid.as_str())).collect();
    assert_eq!(uids, vec!["s0000", "s0001", "s0002"]);
    let colors: Vec<&str> = labeled.iter().map(|g| g.color.as_str()).collect();
    assert_eq!(colors, vec!["#2a78d6", "#eb6834", "#1baf7a"]);
}

#[test]
fn past_the_eighth_group_colours_are_shared() {
    assert_eq!(series_color(7), "#e34948");
    assert_eq!(series_color(8), "#6b6a63");
    assert_eq!(series_color(100), "#6b6a63");
}

#[test]
fn the_subtitle_counts_what_is_on_the_map() {
    assert_eq!(subtitle(52, 1, 0, 14), "52 placemark(s) in 1 group(s) · zoom 14");
    assert_eq!(subtitle(3, 2, 5, 9), "3 placemark(s) in 2 group(s), 5 route(s) · zoom 9");
}

#[test]
fn tiles_off_the_top_and_bottom_of_the_world_have_no_key() {
    assert_eq!(tile_key(2, 0, -1), None);
    assert_eq!(tile_key(2, 0, 4), None);
    assert_eq!(tile_key(2, 1, 3), Some((1, 3)));
    assert_eq!(tile_key(63, 0, 0), None);
}

#[test]
fn tile_columns_wrap_around_the_date_line() {
    assert_eq!(tile_key(3, 8, 1), Some((0, 1)));
    assert_eq!(tile_key(3, -1, 1), Some((7, 1)));
    assert_eq!(tile_key(0, 5, 0), Some((0, 0)));
}

#[test]
fn tiles_are_fetched_from_the_openstreetmap_server() {
    assert_eq!(tile_url(14, 2625, 5720), "https://tile.openstreetmap.org/14/2625/5720.png");
}
