use maps_thingy::sanitize::{esc, scrub, url_ok};

#[test]
fn keeps_a_platescan_balloon() {
    let balloon = r#"<img src="images/a.jpg" style="max-width:420px"/><br/><b>ABC123</b> — clip<br/><i>Model output</i>"#;
    let out = scrub(balloon);
    assert!(out.contains(r#"<img src="images/a.jpg"/>"#), "{out}");
    assert!(out.contains("<b>ABC123</b>"));
    assert!(!out.contains("style"), "unlisted attributes go: {out}");
}

#[test]
fn drops_script_and_its_contents() {
    let out = scrub("before<script>alert(1)</script>after");
    assert_eq!(out, "beforeafter");
}

#[test]
fn strips_handlers_and_javascript_urls() {
    let out = scrub(r#"<a href="javascript:alert(1)" onclick="alert(2)">x</a>"#);
    assert_eq!(out, "<a>x</a>");
    let ok = scrub(r#"<a href="https://example.org/p?a=1">x</a>"#);
    assert_eq!(ok, r#"<a href="https://example.org/p?a=1">x</a>"#);
}

#[test]
fn unlisted_tags_lose_the_tag_but_keep_the_text() {
    assert_eq!(scrub("<blink>still here</blink>"), "still here");
}

#[test]
fn a_stray_bracket_is_text() {
    assert_eq!(scrub("5 < 6"), "5 &lt; 6");
}

#[test]
fn relative_urls_pass_and_odd_schemes_do_not() {
    assert!(url_ok("images/a.jpg"));
    assert!(url_ok("./a.jpg?v=2"));
    assert!(url_ok("data:image/png;base64,AAA"));
    assert!(!url_ok("javascript:alert(1)"));
    assert!(!url_ok("data:text/html,<b>"));
}

#[test]
fn comments_are_dropped() {
    assert_eq!(scrub("a<!-- hidden -->b"), "ab");
    assert_eq!(scrub("a<!-- never closed"), "a");
}

#[test]
fn dropped_elements_close_in_any_case() {
    assert_eq!(scrub("x<STYLE>p{}</Style >y"), "xy");
    assert_eq!(scrub("x<script>never closed"), "x");
    assert_eq!(scrub("x</script>y"), "xy");
}

#[test]
fn void_elements_are_self_closed_and_never_closed() {
    assert_eq!(scrub("<BR>a</br><hr >"), "<br/>a<hr/>");
}

#[test]
fn tag_names_are_lowercased_and_cut_at_the_first_odd_character() {
    assert_eq!(scrub("<B>x</B>"), "<b>x</b>");
    assert_eq!(scrub("<//b>x"), "</b>x");
    assert_eq!(scrub("<>x</ >"), "x");
}

#[test]
fn attribute_values_are_unescaped_then_escaped() {
    assert_eq!(
        scrub(r#"<img src='a.jpg' alt=x&amp;y title="say &quot;hi&quot;">"#),
        r#"<img src="a.jpg" alt="x&amp;y" title="say &quot;hi&quot;"/>"#
    );
}

#[test]
fn cell_spans_only_on_cells() {
    assert_eq!(scrub(r#"<td colspan=2 href="x">c</td>"#), r#"<td colspan="2">c</td>"#);
    assert_eq!(scrub(r#"<p colspan=2>c</p>"#), "<p>c</p>");
}

#[test]
fn every_bracket_in_the_output_opens_an_allowlisted_tag() {
    let out = scrub(r#"<x><script>alert(1)</script><B onclick=1>y</B><iframe src=x></iframe><img src="javascript:z" alt="<b>">"#);
    assert_eq!(out, r#"<b>y</b><img alt="&lt;b"/>">"#);
    for (i, c) in out.char_indices() {
        if c == '<' {
            let rest = out[i + 1..].trim_start_matches('/');
            let name: String = rest.chars().take_while(|c| c.is_ascii_alphanumeric()).collect();
            assert!(["b", "img"].contains(&name.as_str()), "{out}");
        }
    }
}

#[test]
fn url_checks_trim_and_ignore_case() {
    assert!(url_ok("  HTTPS://example.org  "));
    assert!(url_ok("MAILTO:a@b"));
    assert!(!url_ok(" JavaScript:alert(1)"));
    assert!(url_ok("a/b:c"));
    assert!(url_ok("a?b:c"));
    assert!(!url_ok("ftp://x"));
}

#[test]
fn escaping_covers_the_five_characters() {
    assert_eq!(esc(r#"<a href="x">Tom & 'Jerry'</a>"#), "&lt;a href=&quot;x&quot;&gt;Tom &amp; &#39;Jerry&#39;&lt;/a&gt;");
    assert_eq!(esc("plain — text"), "plain — text");
    let e = esc("<>\"'&");
    assert!(!e.contains('<') && !e.contains('>') && !e.contains('"') && !e.contains('\''));
}

#[test]
fn scrubbing_twice_is_scrubbing_once() {
    for input in [
        r#"<IMG SRC="images/a.jpg" onerror=x TITLE='a "q" &amp; b'><b>ABC123</b> 5 < 6 <!-- c -->"#,
        r#"<a href="javascript:alert(1)" title=x>y</a><script>z</script><br></br>"#,
        "<td colspan=2 rowspan='3'>&lt;c&gt;</td><p>x < y > z</p><",
    ] {
        let once = scrub(input);
        assert_eq!(scrub(&once), once);
    }
}
