use maps_thingy::kml::Mark;
use maps_thingy::pictures::{
    claim_picture_name, entry_with_leaf, hash, img_src_span, kml_entry, leaf, replace_span,
    safe_name, span_text, unescape_entities, Taken,
};

#[test]
fn unquoted_and_spaced_references_are_found() {
    let d = "<p><IMG  src = pic.jpg alt=x></p>";
    assert_eq!(span_text(d, &img_src_span(d).unwrap()), "pic.jpg");
    let empty_first = r#"<img src=""><img src="second.png">"#;
    assert_eq!(span_text(empty_first, &img_src_span(empty_first).unwrap()), "second.png");
    assert_eq!(img_src_span("<img alt='no source'>"), None);
}

#[test]
fn entities_in_a_reference_are_undone() {
    assert_eq!(unescape_entities("a&amp;b&quot;c&#39;d&lt;e&gt;"), "a&b\"c'd<e>");
    assert_eq!(unescape_entities("&amp;lt;"), "<");
}

#[test]
fn names_are_made_safe() {
    assert_eq!(safe_name("plate 1.jpg"), "plate_1.jpg");
    assert_eq!(safe_name("é-x_y"), "_-x_y");
    assert_eq!(safe_name(""), "image");
}

#[test]
fn the_hash_is_fnv1a() {
    assert_eq!(hash(b""), 0xcbf2_9ce4_8422_2325);
    assert_eq!(hash(b"a"), 0xaf63_dc4c_8601_ec8c);
    assert_eq!(hash(b"foobar"), 0x8594_4171_f739_67e8);
    assert_ne!(hash(b"one"), hash(b"two"));
}

#[test]
fn the_leaf_is_the_part_after_the_last_slash() {
    assert_eq!(leaf("files/sub/a.jpg"), "a.jpg");
    assert_eq!(leaf("a.jpg"), "a.jpg");
    assert_eq!(leaf("dir/"), "");
}

#[test]
fn a_second_picture_with_the_same_name_is_not_overwritten() {
    let mut taken = Taken::new();
    let first = claim_picture_name(&mut taken, "files/plate.jpg", b"one", "scan one");
    assert_eq!(first, "plate.jpg");
    let again = claim_picture_name(&mut taken, "other/plate.jpg", b"one", "scan two");
    assert_eq!(again, "plate.jpg", "same bytes, same file");
    let second = claim_picture_name(&mut taken, "plate.jpg", b"two", "scan two");
    assert_eq!(second, "scan_two-plate.jpg");
    assert_eq!(taken.get(&"plate.jpg".to_string()), Some(hash(b"one")));
    assert_eq!(taken.get(&second), Some(hash(b"two")));
}

#[test]
fn the_reference_is_rewritten_in_place() {
    let d = r#"<img src="files/a.jpg"/>x"#;
    let span = img_src_span(d).unwrap();
    assert_eq!(replace_span(d, &span, "images/a.jpg"), r#"<img src="images/a.jpg"/>x"#);
    let mut m = Mark {
        name: "n".into(),
        at: 0,
        when: None,
        desc: d.into(),
        image: None,
        uid: String::new(),
    };
    m.attach_picture(&span, Some("a.jpg"));
    assert_eq!(m.desc, r#"<img src="images/a.jpg"/>x"#);
    assert_eq!(m.image.as_deref(), Some("images/a.jpg"));
    let mut gone = Mark { desc: d.into(), image: None, ..m };
    gone.attach_picture(&span, None);
    assert_eq!(gone.desc, r#"<img src=""/>x"#);
    assert_eq!(gone.image, None);
}

#[test]
fn the_kml_entry_is_doc_kml_first() {
    let names = vec!["a.KML".to_string(), "images/x.jpg".to_string(), "doc.kml".to_string()];
    assert_eq!(kml_entry(&names), Some(2));
    let names = vec!["x.jpg".to_string(), "Trip.KML".to_string()];
    assert_eq!(kml_entry(&names), Some(1));
    assert_eq!(kml_entry(&vec!["x.jpg".to_string()]), None);
}

#[test]
fn a_reference_falls_back_to_an_entry_with_the_same_leaf() {
    let names = vec!["doc.kml".to_string(), "files/pics/a.jpg".to_string()];
    assert_eq!(entry_with_leaf(&names, "C:/Users/me/a.jpg"), Some(1));
    assert_eq!(entry_with_leaf(&names, "b.jpg"), None);
}

#[test]
fn a_src_inside_another_attribute_name_is_not_the_reference() {
    let d = r#"<img data-src="x" src="y">"#;
    assert_eq!(img_src_span(d), Some(23..24));
    assert_eq!(img_src_span(r#"<img data-src="x">"#), None);
    assert_eq!(img_src_span("<img\tsrc=a.png>"), Some(9..14));
}

#[test]
fn spans_count_characters() {
    let d = r#"<p>é</p><img src="ü.jpg">"#;
    let span = img_src_span(d).unwrap();
    assert_eq!(span, 18..23);
    assert_eq!(span_text(d, &span), "ü.jpg");
}

#[test]
fn no_recorded_picture_is_ever_overwritten() {
    let mut taken = Taken::new();
    assert_eq!(claim_picture_name(&mut taken, "a.jpg", b"1", "t"), "a.jpg");
    assert_eq!(claim_picture_name(&mut taken, "s-a.jpg", b"2", "t"), "s-a.jpg");
    let third = claim_picture_name(&mut taken, "a.jpg", b"3", "s");
    assert_eq!(third, "s-2-a.jpg");
    assert_eq!(taken.get(&"a.jpg".to_string()), Some(hash(b"1")));
    assert_eq!(taken.get(&"s-a.jpg".to_string()), Some(hash(b"2")));
    assert_eq!(taken.get(&third), Some(hash(b"3")));
    assert_eq!(claim_picture_name(&mut taken, "x/s-2-a.jpg", b"3", "q"), "s-2-a.jpg", "same bytes, same file");
    assert_eq!(claim_picture_name(&mut taken, "a.jpg", b"2", "s"), "s-a.jpg", "the stem's name already holds these bytes");
}
