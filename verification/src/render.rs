//! Drawing the map's page, and the pieces of the map that are not geometry.
//!
//! Tiles are inlined as data URIs because a basemap is useless if it goes
//! missing, but the placemark pictures stay linked: a scan can carry hundreds
//! of them, and inlining would turn a 200 kB map into a 30 MB one. The cost of
//! linking is that `map.svg` has to be opened as a document, which is why
//! `index.html` is the artefact meant for publishing.

use vstd::prelude::*;
use base64::Engine;

use crate::kml::{group_is_empty, groups_view, Group, GroupV, Mark, MarkV};
use crate::sanitize::{esc, esc_seq, scrub, scrub_seq};
use crate::text::{decimal, decimal_string, push_all};

verus! {

/// The credit the tile licence requires wherever the basemap is shown.
pub const ATTRIBUTION: &'static str = "© OpenStreetMap contributors";

/// One basemap tile at its grid position, with its PNG bytes.
pub struct Tile {
    pub tx: i64,
    pub ty: i64,
    pub bytes: Vec<u8>,
}

// ----------------------------------------------------------------------------
// Base64

/// The character of the standard base64 alphabet for a six-bit value.
pub open spec fn b64_digit(v: int) -> char {
    if v < 26 {
        (65 + v) as char
    } else if v < 52 {
        (97 + v - 26) as char
    } else if v < 62 {
        (48 + v - 52) as char
    } else if v == 62 {
        '+'
    } else {
        '/'
    }
}

/// Standard base64 with `=` padding (RFC 4648): every three bytes become four
/// characters; a final one or two bytes become two or three, padded to four.
pub open spec fn base64_seq(b: Seq<u8>) -> Seq<char>
    decreases b.len(),
{
    if b.len() == 0 {
        Seq::empty()
    } else {
        let x = b[0] as int;
        let y = if b.len() > 1 {
            b[1] as int
        } else {
            0
        };
        let z = if b.len() > 2 {
            b[2] as int
        } else {
            0
        };
        let quad = seq![
            b64_digit(x / 4),
            b64_digit((x % 4) * 16 + y / 16),
            if b.len() > 1 {
                b64_digit((y % 16) * 4 + z / 64)
            } else {
                '='
            },
            if b.len() > 2 {
                b64_digit(z % 64)
            } else {
                '='
            },
        ];
        if b.len() > 3 {
            quad + base64_seq(b.skip(3))
        } else {
            quad
        }
    }
}

/// Every started group of three bytes becomes four characters.
pub proof fn lemma_base64_len(b: Seq<u8>)
    ensures
        base64_seq(b).len() == 4 * ((b.len() + 2) / 3),
    decreases b.len(),
{
    if b.len() > 3 {
        lemma_base64_len(b.skip(3));
    }
}

/// `base64::engine::general_purpose::STANDARD.encode`: standard base64 with
/// padding. It panics when the encoded length does not fit in a `usize`,
/// which `requires` rules out.
#[verifier::external_body]
fn base64_encode(bytes: &[u8]) -> (s: String)
    requires
        4 * ((bytes@.len() + 2) / 3) <= usize::MAX,
    ensures
        s@ == base64_seq(bytes@),
{
    base64::engine::general_purpose::STANDARD.encode(bytes)
}

/// The data URI a tile is inlined as.
pub open spec fn tile_href_seq(bytes: Seq<u8>) -> Seq<char> {
    "data:image/png;base64,"@ + base64_seq(bytes)
}

impl Tile {
    /// The tile's PNG as a data URI, for an SVG `<image href=…>`.
    pub fn href(&self) -> (r: String)
        requires
            4 * ((self.bytes@.len() + 2) / 3) <= usize::MAX,
        ensures
            r@ == tile_href_seq(self.bytes@),
    {
        let mut r = String::new();
        r.append("data:image/png;base64,");
        let b = base64_encode(self.bytes.as_slice());
        r.append(b.as_str());
        r
    }
}

// ----------------------------------------------------------------------------
// The pins' text

/// A pin's hover label: the mark's name (or `placemark`), then ` — ` and its
/// time when it has one.
pub open spec fn mark_label_seq(m: MarkV) -> Seq<char> {
    let name = if m.name.len() == 0 {
        "placemark"@
    } else {
        m.name
    };
    match m.when {
        Some(w) => name + " — "@ + w,
        None => name,
    }
}

/// Where a pin links: the mark's picture, or else its own anchor, which
/// keeps the link meaningful for a placemark that carries no picture.
pub open spec fn mark_href_seq(m: MarkV) -> Seq<char> {
    match m.image {
        Some(i) => i,
        None => "#"@ + m.uid,
    }
}

impl Mark {
    /// The pin's hover label.
    pub fn label(&self) -> (r: String)
        ensures
            r@ == mark_label_seq(self@),
    {
        let mut r = if self.name.as_str().is_empty() {
            let mut s = String::new();
            s.append("placemark");
            s
        } else {
            self.name.clone()
        };
        match &self.when {
            Some(w) => {
                r.append(" — ");
                r.append(w.as_str());
            },
            None => {},
        }
        r
    }

    /// Where the pin links.
    pub fn href(&self) -> (r: String)
        ensures
            r@ == mark_href_seq(self@),
    {
        match &self.image {
            Some(i) => i.clone(),
            None => {
                let mut s = String::new();
                s.append("#");
                s.append(self.uid.as_str());
                s
            },
        }
    }
}

// ----------------------------------------------------------------------------
// The map

/// The map's own style sheet.
pub const SVG_CSS: &'static str = ".route{fill:none;stroke-linecap:round;stroke-linejoin:round}.mark circle{stroke:#fff;stroke-width:1.5;opacity:.92}.mark:hover circle,.mark:focus circle{stroke-width:2.5;opacity:1}.chrome{font-family:ui-sans-serif,system-ui,-apple-system,'Helvetica Neue',Arial,sans-serif;paint-order:stroke;stroke:#fff;stroke-width:3;stroke-linejoin:round}.hidden{display:none}";

/// The scale bar as the map writes it, in whole pixels: the height its ticks
/// rise to, the height of the bar, where the bar ends, where its label
/// stands, and the label itself (`100 m`, `2 km`).
pub struct ScaleBar {
    pub top: String,
    pub base: String,
    pub end: String,
    pub middle: String,
    pub label_y: String,
    pub label: String,
}

/// Everything the map writes that is worked out by projecting positions,
/// already written out as text: the map's size, the position of each
/// coordinate (indexed like the coordinate table) and of each tile, the scale
/// bar, and where the tile credit stands.
pub struct Frame {
    pub width: String,
    pub height: String,
    pub points: Vec<(String, String)>,
    pub tiles: Vec<(String, String)>,
    pub scale: ScaleBar,
    pub credit: (String, String),
}

pub struct ScaleBarV {
    pub top: Seq<char>,
    pub base: Seq<char>,
    pub end: Seq<char>,
    pub middle: Seq<char>,
    pub label_y: Seq<char>,
    pub label: Seq<char>,
}

pub struct FrameV {
    pub width: Seq<char>,
    pub height: Seq<char>,
    pub points: Seq<(Seq<char>, Seq<char>)>,
    pub tiles: Seq<(Seq<char>, Seq<char>)>,
    pub scale: ScaleBarV,
    pub credit: (Seq<char>, Seq<char>),
}

pub open spec fn spots_view(v: Seq<(String, String)>) -> Seq<(Seq<char>, Seq<char>)> {
    v.map_values(|p: (String, String)| (p.0@, p.1@))
}

impl View for ScaleBar {
    type V = ScaleBarV;

    open spec fn view(&self) -> ScaleBarV {
        ScaleBarV {
            top: self.top@,
            base: self.base@,
            end: self.end@,
            middle: self.middle@,
            label_y: self.label_y@,
            label: self.label@,
        }
    }
}

impl View for Frame {
    type V = FrameV;

    open spec fn view(&self) -> FrameV {
        FrameV {
            width: self.width@,
            height: self.height@,
            points: spots_view(self.points@),
            tiles: spots_view(self.tiles@),
            scale: self.scale@,
            credit: (self.credit.0@, self.credit.1@),
        }
    }
}

/// The position written for entry `i`; nothing when there is no such entry.
pub open spec fn spot_at(spots: Seq<(Seq<char>, Seq<char>)>, i: int) -> (Seq<char>, Seq<char>) {
    if 0 <= i < spots.len() {
        spots[i]
    } else {
        (Seq::empty(), Seq::empty())
    }
}

pub open spec fn point_text(spots: Seq<(Seq<char>, Seq<char>)>, i: usize) -> Seq<char> {
    spot_at(spots, i as int).0 + ","@ + spot_at(spots, i as int).1
}

/// The first `n` points of a route, `x,y` each, separated by single spaces.
pub open spec fn route_points(spots: Seq<(Seq<char>, Seq<char>)>, route: Seq<usize>, n: int) -> Seq<
    char,
>
    decreases n,
{
    if n <= 0 {
        Seq::empty()
    } else if n == 1 {
        point_text(spots, route[0])
    } else {
        route_points(spots, route, n - 1) + " "@ + point_text(spots, route[n - 1])
    }
}

/// A route drawn twice: a white casing under the line keeps it readable over
/// dark tiles.
pub open spec fn route_line(color: Seq<char>, pts: Seq<char>) -> Seq<char> {
    "<polyline class=\"route\" points=\""@ + pts
        + "\" stroke=\"#fff\" stroke-width=\"6\" opacity=\".7\"/>"@
        + "<polyline class=\"route\" points=\""@ + pts + "\" stroke=\""@ + color
        + "\" stroke-width=\"3\"/>"@
}

pub open spec fn route_lines(g: GroupV, spots: Seq<(Seq<char>, Seq<char>)>, n: int) -> Seq<char>
    decreases n,
{
    if n <= 0 {
        Seq::empty()
    } else {
        route_lines(g, spots, n - 1) + route_line(
            g.color,
            route_points(spots, g.routes[n - 1], g.routes[n - 1].len() as int),
        )
    }
}

/// A placemark's pin: a dot at its position, named on hover, that links to
/// its picture or else to its own card.
pub open spec fn pin(g: GroupV, m: MarkV, spots: Seq<(Seq<char>, Seq<char>)>) -> Seq<char> {
    "<a class=\"mark\" id=\"pin-"@ + m.uid + "\" data-uid=\""@ + m.uid + "\" href=\""@ + esc_seq(
        mark_href_seq(m),
    ) + "\" target=\"_blank\"><title>"@ + esc_seq(mark_label_seq(m)) + "</title>"@
        + "<circle cx=\""@ + spot_at(spots, m.at as int).0 + "\" cy=\""@ + spot_at(
        spots,
        m.at as int,
    ).1 + "\" r=\"5\" fill=\""@ + g.color + "\"/></a>"@
}

pub open spec fn pins(g: GroupV, spots: Seq<(Seq<char>, Seq<char>)>, n: int) -> Seq<char>
    decreases n,
{
    if n <= 0 {
        Seq::empty()
    } else {
        pins(g, spots, n - 1) + pin(g, g.marks[n - 1], spots)
    }
}

/// A group's layer, which the page's legend shows and hides: its routes,
/// then its pins.
pub open spec fn layer(gi: int, g: GroupV, spots: Seq<(Seq<char>, Seq<char>)>) -> Seq<char> {
    "<g class=\"group\" data-group=\""@ + dec(gi) + "\">"@ + route_lines(
        g,
        spots,
        g.routes.len() as int,
    ) + pins(g, spots, g.marks.len() as int) + "</g>"@
}

pub open spec fn layers(gs: Seq<GroupV>, spots: Seq<(Seq<char>, Seq<char>)>, n: int) -> Seq<char>
    decreases n,
{
    if n <= 0 {
        Seq::empty()
    } else {
        layers(gs, spots, n - 1) + layer(n - 1, gs[n - 1], spots)
    }
}

/// A tile inlined at its place on the map.
pub open spec fn tile_image(at: (Seq<char>, Seq<char>), bytes: Seq<u8>) -> Seq<char> {
    "<image x=\""@ + at.0 + "\" y=\""@ + at.1 + "\" width=\"256\" height=\"256\" href=\""@
        + tile_href_seq(bytes) + "\"/>"@
}

pub open spec fn tile_images(spots: Seq<(Seq<char>, Seq<char>)>, tiles: Seq<Seq<u8>>, n: int) -> Seq<
    char,
>
    decreases n,
{
    if n <= 0 {
        Seq::empty()
    } else {
        tile_images(spots, tiles, n - 1) + tile_image(spot_at(spots, n - 1), tiles[n - 1])
    }
}

pub open spec fn scale_bar(s: ScaleBarV) -> Seq<char> {
    "<path d=\"M14,"@ + s.top + " L14,"@ + s.base + " L"@ + s.end + ","@ + s.base + " L"@ + s.end
        + ","@ + s.top + "\" fill=\"none\" stroke=\"#0b0b0b\" stroke-width=\"2\"/>"@
        + "<text x=\""@ + s.middle + "\" y=\""@ + s.label_y
        + "\" font-size=\"11\" text-anchor=\"middle\" fill=\"#0b0b0b\">"@ + s.label + "</text>"@
}

pub open spec fn captions(title: Seq<char>, subtitle: Seq<char>) -> Seq<char> {
    "<text class=\"caption\" x=\"14\" y=\"26\" font-size=\"16\" font-weight=\"600\" fill=\"#0b0b0b\">"@
        + esc_seq(title) + "</text>"@ + if subtitle.len() == 0 {
        Seq::empty()
    } else {
        "<text class=\"caption\" x=\"14\" y=\"46\" font-size=\"12\" fill=\"#52514e\">"@ + esc_seq(
            subtitle,
        ) + "</text>"@
    }
}

/// Title, scale bar and the credit the tile licence requires. The page
/// prints its own heading above the map and hides the captions; they are
/// here so the standalone map still says what it is.
pub open spec fn chrome(title: Seq<char>, subtitle: Seq<char>, f: FrameV) -> Seq<char> {
    "<g class=\"chrome\" pointer-events=\"none\">"@ + captions(title, subtitle) + scale_bar(f.scale)
        + "<text x=\""@ + f.credit.0 + "\" y=\""@ + f.credit.1
        + "\" font-size=\"11\" text-anchor=\"end\" fill=\"#52514e\">"@ + ATTRIBUTION@ + "</text>"@
        + "</g>"@
}

pub open spec fn map_head(title: Seq<char>, f: FrameV) -> Seq<char> {
    "<svg xmlns=\"http://www.w3.org/2000/svg\" class=\"map\" viewBox=\"0 0 "@ + f.width + " "@
        + f.height + "\" width=\""@ + f.width + "\" height=\""@ + f.height
        + "\" role=\"img\" aria-label=\""@ + esc_seq(title) + "\">"@ + "<title>"@ + esc_seq(title)
        + "</title>"@ + "<style>"@ + SVG_CSS@ + "</style>"@ + "<rect width=\""@ + f.width
        + "\" height=\""@ + f.height + "\" fill=\"#e8e4dd\"/>"@
}

/// The map: a flat fill (so a missing tile reads as missing basemap rather
/// than as a hole in the page), the tiles, a layer per group, and the chrome.
pub open spec fn svg_seq(
    gs: Seq<GroupV>,
    f: FrameV,
    tiles: Seq<Seq<u8>>,
    title: Seq<char>,
    subtitle: Seq<char>,
) -> Seq<char> {
    map_head(title, f) + "<g class=\"tiles\">"@ + tile_images(f.tiles, tiles, tiles.len() as int)
        + "</g>"@ + layers(gs, f.points, gs.len() as int) + chrome(title, subtitle, f) + "</svg>"@
}

pub open spec fn tile_bytes(v: Seq<Tile>) -> Seq<Seq<u8>> {
    v.map_values(|t: Tile| t.bytes@)
}

/// Every tile's data URI has a length that fits in a `usize`.
pub open spec fn tiles_fit(ts: Seq<Seq<u8>>) -> bool {
    forall|i: int| 0 <= i < ts.len() ==> 4 * ((#[trigger] ts[i].len() + 2) / 3) <= usize::MAX
}

fn push_point(out: &mut String, spots: &[(String, String)], i: usize)
    ensures
        final(out)@ == old(out)@ + point_text(spots_view(spots@), i),
{
    let ghost start = out@;
    if i < spots.len() {
        assert(spots_view(spots@)[i as int] == (spots@[i as int].0@, spots@[i as int].1@));
        out.append(spots[i].0.as_str());
        out.append(",");
        out.append(spots[i].1.as_str());
    } else {
        out.append(",");
    }
    assert(out@ =~= start + point_text(spots_view(spots@), i));
}

fn push_route(out: &mut String, color: &str, spots: &[(String, String)], route: &Vec<usize>)
    ensures
        final(out)@ == old(out)@ + route_line(
            color@,
            route_points(spots_view(spots@), route@, route@.len() as int),
        ),
{
    let ghost sv = spots_view(spots@);
    let mut pts = String::new();
    for k in 0..route.len()
        invariant
            sv == spots_view(spots@),
            pts@ == route_points(sv, route@, k as int),
    {
        if k > 0 {
            pts.append(" ");
        }
        push_point(&mut pts, spots, route[k]);
        assert(pts@ =~= route_points(sv, route@, k + 1));
    }
    let ghost start = out@;
    out.append("<polyline class=\"route\" points=\"");
    out.append(pts.as_str());
    out.append("\" stroke=\"#fff\" stroke-width=\"6\" opacity=\".7\"/>");
    out.append("<polyline class=\"route\" points=\"");
    out.append(pts.as_str());
    out.append("\" stroke=\"");
    out.append(color);
    out.append("\" stroke-width=\"3\"/>");
    assert(out@ =~= start + route_line(color@, pts@));
}

fn push_pin(out: &mut String, g: &Group, m: &Mark, spots: &[(String, String)])
    ensures
        final(out)@ == old(out)@ + pin(g@, m@, spots_view(spots@)),
{
    let ghost start = out@;
    let ghost sv = spots_view(spots@);
    out.append("<a class=\"mark\" id=\"pin-");
    out.append(m.uid.as_str());
    out.append("\" data-uid=\"");
    out.append(m.uid.as_str());
    out.append("\" href=\"");
    let href = m.href();
    push_esc(out, href.as_str());
    out.append("\" target=\"_blank\"><title>");
    let label = m.label();
    push_esc(out, label.as_str());
    out.append("</title>");
    out.append("<circle cx=\"");
    if m.at < spots.len() {
        assert(sv[m.at as int] == (spots@[m.at as int].0@, spots@[m.at as int].1@));
        out.append(spots[m.at].0.as_str());
        out.append("\" cy=\"");
        out.append(spots[m.at].1.as_str());
    } else {
        out.append("\" cy=\"");
    }
    out.append("\" r=\"5\" fill=\"");
    out.append(g.color.as_str());
    out.append("\"/></a>");
    assert(out@ =~= start + pin(g@, m@, sv));
}

fn push_layer(out: &mut String, gi: usize, g: &Group, spots: &[(String, String)])
    ensures
        final(out)@ == old(out)@ + layer(gi as int, g@, spots_view(spots@)),
{
    let ghost sv = spots_view(spots@);
    let ghost start = out@;
    out.append("<g class=\"group\" data-group=\"");
    push_dec(out, gi);
    out.append("\">");
    let ghost open = out@;
    for k in 0..g.routes.len()
        invariant
            sv == spots_view(spots@),
            out@ == open + route_lines(g@, sv, k as int),
    {
        assert(g@.routes[k as int] == g.routes@[k as int]@);
        push_route(out, g.color.as_str(), spots, &g.routes[k]);
    }
    let ghost mid = out@;
    for k in 0..g.marks.len()
        invariant
            sv == spots_view(spots@),
            out@ == mid + pins(g@, sv, k as int),
    {
        assert(g@.marks[k as int] == g.marks@[k as int]@);
        push_pin(out, g, &g.marks[k], spots);
    }
    out.append("</g>");
    assert(out@ =~= start + layer(gi as int, g@, sv));
}

fn push_tiles(out: &mut String, spots: &[(String, String)], tiles: &[Tile])
    requires
        tiles_fit(tile_bytes(tiles@)),
    ensures
        final(out)@ == old(out)@ + tile_images(
            spots_view(spots@),
            tile_bytes(tiles@),
            tiles@.len() as int,
        ),
{
    let ghost sv = spots_view(spots@);
    let ghost tb = tile_bytes(tiles@);
    let ghost start = out@;
    for i in 0..tiles.len()
        invariant
            sv == spots_view(spots@),
            tb == tile_bytes(tiles@),
            tiles_fit(tb),
            out@ == start + tile_images(sv, tb, i as int),
    {
        let ghost before = out@;
        assert(tb[i as int] == tiles@[i as int].bytes@);
        out.append("<image x=\"");
        if i < spots.len() {
            assert(sv[i as int] == (spots@[i as int].0@, spots@[i as int].1@));
            out.append(spots[i].0.as_str());
            out.append("\" y=\"");
            out.append(spots[i].1.as_str());
        } else {
            out.append("\" y=\"");
        }
        out.append("\" width=\"256\" height=\"256\" href=\"");
        let href = tiles[i].href();
        out.append(href.as_str());
        out.append("\"/>");
        assert(out@ =~= before + tile_image(spot_at(sv, i as int), tb[i as int]));
        assert(out@ =~= start + tile_images(sv, tb, i + 1));
    }
}

fn push_captions(out: &mut String, title: &str, subtitle: &str)
    ensures
        final(out)@ == old(out)@ + captions(title@, subtitle@),
{
    let ghost start = out@;
    out.append(
        "<text class=\"caption\" x=\"14\" y=\"26\" font-size=\"16\" font-weight=\"600\" fill=\"#0b0b0b\">",
    );
    push_esc(out, title);
    out.append("</text>");
    if !subtitle.is_empty() {
        out.append("<text class=\"caption\" x=\"14\" y=\"46\" font-size=\"12\" fill=\"#52514e\">");
        push_esc(out, subtitle);
        out.append("</text>");
    }
    assert(out@ =~= start + captions(title@, subtitle@));
}

fn push_scale_bar(out: &mut String, s: &ScaleBar)
    ensures
        final(out)@ == old(out)@ + scale_bar(s@),
{
    let ghost start = out@;
    out.append("<path d=\"M14,");
    out.append(s.top.as_str());
    out.append(" L14,");
    out.append(s.base.as_str());
    out.append(" L");
    out.append(s.end.as_str());
    out.append(",");
    out.append(s.base.as_str());
    out.append(" L");
    out.append(s.end.as_str());
    out.append(",");
    out.append(s.top.as_str());
    out.append("\" fill=\"none\" stroke=\"#0b0b0b\" stroke-width=\"2\"/>");
    out.append("<text x=\"");
    out.append(s.middle.as_str());
    out.append("\" y=\"");
    out.append(s.label_y.as_str());
    out.append("\" font-size=\"11\" text-anchor=\"middle\" fill=\"#0b0b0b\">");
    out.append(s.label.as_str());
    out.append("</text>");
    assert(out@ =~= start + scale_bar(s@));
}

fn push_chrome(out: &mut String, title: &str, subtitle: &str, frame: &Frame)
    ensures
        final(out)@ == old(out)@ + chrome(title@, subtitle@, frame@),
{
    let ghost start = out@;
    out.append("<g class=\"chrome\" pointer-events=\"none\">");
    push_captions(out, title, subtitle);
    push_scale_bar(out, &frame.scale);
    out.append("<text x=\"");
    out.append(frame.credit.0.as_str());
    out.append("\" y=\"");
    out.append(frame.credit.1.as_str());
    out.append("\" font-size=\"11\" text-anchor=\"end\" fill=\"#52514e\">");
    out.append(ATTRIBUTION);
    out.append("</text>");
    out.append("</g>");
    assert(out@ =~= start + chrome(title@, subtitle@, frame@));
}

fn push_map_head(out: &mut String, title: &str, frame: &Frame)
    ensures
        final(out)@ == old(out)@ + map_head(title@, frame@),
{
    let ghost start = out@;
    out.append("<svg xmlns=\"http://www.w3.org/2000/svg\" class=\"map\" viewBox=\"0 0 ");
    out.append(frame.width.as_str());
    out.append(" ");
    out.append(frame.height.as_str());
    out.append("\" width=\"");
    out.append(frame.width.as_str());
    out.append("\" height=\"");
    out.append(frame.height.as_str());
    out.append("\" role=\"img\" aria-label=\"");
    push_esc(out, title);
    out.append("\">");
    out.append("<title>");
    push_esc(out, title);
    out.append("</title>");
    out.append("<style>");
    out.append(SVG_CSS);
    out.append("</style>");
    out.append("<rect width=\"");
    out.append(frame.width.as_str());
    out.append("\" height=\"");
    out.append(frame.height.as_str());
    out.append("\" fill=\"#e8e4dd\"/>");
    assert(out@ =~= start + map_head(title@, frame@));
}

/// The map, standalone. Tiles are inlined; pictures stay linked.
pub fn svg(groups: &[Group], frame: &Frame, tiles: &[Tile], title: &str, subtitle: &str) -> (map:
    String)
    requires
        tiles_fit(tile_bytes(tiles@)),
    ensures
        map@ == svg_seq(groups_view(groups@), frame@, tile_bytes(tiles@), title@, subtitle@),
{
    let ghost gs = groups_view(groups@);
    let ghost f = frame@;
    let mut out = String::new();
    push_map_head(&mut out, title, frame);
    out.append("<g class=\"tiles\">");
    push_tiles(&mut out, frame.tiles.as_slice(), tiles);
    out.append("</g>");
    let ghost drawn = out@;
    for gi in 0..groups.len()
        invariant
            gs == groups_view(groups@),
            f == frame@,
            out@ == drawn + layers(gs, f.points, gi as int),
    {
        assert(gs[gi as int] == groups[gi as int]@);
        push_layer(&mut out, gi, &groups[gi], frame.points.as_slice());
        assert(out@ =~= drawn + layers(gs, f.points, gi + 1));
    }
    push_chrome(&mut out, title, subtitle, frame);
    out.append("</svg>");
    assert(out@ =~= svg_seq(gs, f, tile_bytes(tiles@), title@, subtitle@));
    out
}

// ----------------------------------------------------------------------------
// The page

pub const PAGE_CSS: &'static str = r#"
:root{color-scheme:light dark;--bg:#fcfcfb;--panel:#fff;--ink:#0b0b0b;--ink2:#52514e;--line:#e2e0da;--link:#2a78d6}
@media (prefers-color-scheme:dark){
  :root{--bg:#1a1a19;--panel:#232321;--ink:#fff;--ink2:#c3c2b7;--line:#3a3a37;--link:#3987e5}
}
*{box-sizing:border-box}
body{margin:0;background:var(--bg);color:var(--ink);
  font:15px/1.55 ui-sans-serif,system-ui,-apple-system,'Helvetica Neue',Arial,sans-serif}
a{color:var(--link)}
.wrap{max-width:1200px;margin:0 auto;padding:24px 20px 64px}
h1{font-size:24px;margin:0 0 4px}
.sub{color:var(--ink2);margin:0 0 20px;font-size:14px}
.mapbox{background:var(--panel);border:1px solid var(--line);border-radius:10px;overflow:auto}
.mapbox svg.map{display:block;width:100%;height:auto}
.mapbox .caption{display:none}
.legend{display:flex;flex-wrap:wrap;gap:8px;margin:14px 0 0;padding:0;list-style:none}
.legend button{display:flex;align-items:center;gap:7px;cursor:pointer;background:var(--panel);
  color:var(--ink);border:1px solid var(--line);border-radius:999px;padding:5px 12px;
  font:inherit;font-size:13px}
.legend button[aria-pressed=false]{opacity:.45}
.dot{width:10px;height:10px;border-radius:50%;flex:none;display:inline-block}
.count{color:var(--ink2);font-variant-numeric:tabular-nums}
h2{font-size:16px;margin:34px 0 12px;font-weight:600}
.grid{display:grid;gap:14px;grid-template-columns:repeat(auto-fill,minmax(240px,1fr));
  padding:0;margin:0;list-style:none}
.card{background:var(--panel);border:1px solid var(--line);border-radius:10px;overflow:hidden;
  scroll-margin-top:20px}
.card.flash{outline:2px solid var(--link);outline-offset:2px}
.card>img{display:block;width:100%;height:auto;background:#111}
.card .body{padding:10px 12px 12px;font-size:13px;color:var(--ink2);overflow-wrap:anywhere}
.card .body b{color:var(--ink)}
.card .body img{display:none}
.card h3{margin:0 0 4px;font-size:14px;color:var(--ink);display:flex;align-items:center;gap:7px}
.card .locate{margin-left:auto;font-size:12px}
#peek{position:fixed;pointer-events:none;z-index:9;display:none;background:var(--panel);
  border:1px solid var(--line);border-radius:8px;padding:6px;
  box-shadow:0 6px 24px rgba(0,0,0,.28);max-width:280px}
#peek img{display:block;width:100%;height:auto;border-radius:4px}
#peek span{display:block;font-size:12px;color:var(--ink2);padding:5px 2px 1px}
footer{margin-top:40px;color:var(--ink2);font-size:12px}
"#;

pub const PAGE_JS: &'static str = r#"
const peek = document.getElementById('peek');
const svg = document.querySelector('svg.map');
for (const pin of svg.querySelectorAll('.mark')) {
  const card = document.getElementById(pin.dataset.uid);
  pin.addEventListener('mouseenter', () => {
    peek.innerHTML = '';
    const img = card && card.querySelector('img');
    if (img) {
      const copy = document.createElement('img');
      copy.src = img.getAttribute('src');
      peek.appendChild(copy);
    }
    const cap = document.createElement('span');
    cap.textContent = pin.querySelector('title').textContent;
    peek.appendChild(cap);
    peek.style.display = 'block';
  });
  pin.addEventListener('mousemove', (e) => {
    const pad = 16;
    peek.style.left = Math.min(e.clientX + pad, innerWidth - peek.offsetWidth - 8) + 'px';
    peek.style.top = Math.max(8,
      Math.min(e.clientY + pad, innerHeight - peek.offsetHeight - 8)) + 'px';
  });
  pin.addEventListener('mouseleave', () => { peek.style.display = 'none'; });
  pin.addEventListener('click', (e) => {
    if (!card) return;
    e.preventDefault();
    card.scrollIntoView({behavior: 'smooth', block: 'center'});
    card.classList.add('flash');
    setTimeout(() => card.classList.remove('flash'), 1600);
  });
}
for (const btn of document.querySelectorAll('.legend button')) {
  btn.addEventListener('click', () => {
    const on = btn.getAttribute('aria-pressed') === 'true';
    btn.setAttribute('aria-pressed', String(!on));
    svg.querySelector('.group[data-group="' + btn.dataset.group + '"]')
       .classList.toggle('hidden', on);
    for (const c of document.querySelectorAll('.card[data-group="' + btn.dataset.group + '"]'))
      c.hidden = on;
  });
}
for (const link of document.querySelectorAll('.locate')) {
  link.addEventListener('click', (e) => {
    const pin = document.getElementById('pin-' + link.dataset.uid);
    if (!pin) return;
    e.preventDefault();
    pin.scrollIntoView({behavior: 'smooth', block: 'center', inline: 'center'});
    const dot = pin.querySelector('circle');
    dot.setAttribute('r', '11');
    setTimeout(() => dot.setAttribute('r', '5'), 1200);
  });
}
"#;

pub open spec fn dec(n: int) -> Seq<char> {
    decimal(n as nat)
}

pub open spec fn page_head(title: Seq<char>, subtitle: Seq<char>, map: Seq<char>) -> Seq<char> {
    "<!doctype html>\n<html lang=\"en\"><head><meta charset=\"utf-8\">"@
        + "<meta name=\"viewport\" content=\"width=device-width,initial-scale=1\">"@ + "<title>"@
        + esc_seq(title) + "</title>"@ + "<style>"@ + PAGE_CSS@
        + "</style></head><body><div class=\"wrap\">"@ + "<h1>"@ + esc_seq(title) + "</h1>"@
        + "<p class=\"sub\">"@ + esc_seq(subtitle) + "</p>"@ + "<div class=\"mapbox\">"@ + map
        + "</div>"@
}

/// A legend chip: it toggles its group, and names it with its mark count.
pub open spec fn legend_item(gi: int, g: GroupV) -> Seq<char> {
    "<li><button type=\"button\" aria-pressed=\"true\" data-group=\""@ + dec(gi)
        + "\"><span class=\"dot\" style=\"background:"@ + g.color + "\"></span>"@ + esc_seq(
        g.name,
    ) + " <span class=\"count\">"@ + dec(g.marks.len() as int) + "</span></button></li>"@
}

pub open spec fn legend_items(gs: Seq<GroupV>, n: int) -> Seq<char>
    decreases n,
{
    if n <= 0 {
        Seq::empty()
    } else {
        legend_items(gs, n - 1) + legend_item(n - 1, gs[n - 1])
    }
}

/// The legend, only once there is something to tell apart.
pub open spec fn legend(gs: Seq<GroupV>) -> Seq<char> {
    if gs.len() > 1 {
        "<ul class=\"legend\">"@ + legend_items(gs, gs.len() as int) + "</ul>"@
    } else {
        Seq::empty()
    }
}

pub open spec fn total_marks(gs: Seq<GroupV>) -> nat
    decreases gs.len(),
{
    if gs.len() == 0 {
        0
    } else {
        total_marks(gs.drop_last()) + gs.last().marks.len()
    }
}

/// The position text shown on a card; empty when the table has no entry.
pub open spec fn position_of(positions: Seq<Seq<char>>, at: usize) -> Seq<char> {
    if at < positions.len() {
        positions[at as int]
    } else {
        Seq::empty()
    }
}

pub open spec fn card_open(gi: int, m: MarkV) -> Seq<char> {
    "<li class=\"card\" id=\""@ + m.uid + "\" data-group=\""@ + dec(gi) + "\">"@
}

pub open spec fn card_picture(m: MarkV) -> Seq<char> {
    match m.image {
        Some(img) => "<img loading=\"lazy\" src=\""@ + esc_seq(img) + "\" alt=\""@ + esc_seq(m.name)
            + "\">"@,
        None => Seq::empty(),
    }
}

pub open spec fn card_heading(g: GroupV, m: MarkV) -> Seq<char> {
    let heading = if m.name.len() == 0 {
        "Placemark"@
    } else {
        m.name
    };
    "<div class=\"body\">"@ + "<h3><span class=\"dot\" style=\"background:"@ + g.color
        + "\"></span>"@ + esc_seq(heading) + "<a class=\"locate\" data-uid=\""@ + m.uid
        + "\" href=\"#pin-"@ + m.uid + "\">on map</a></h3>"@
}

pub open spec fn card_group(g: GroupV, several: bool) -> Seq<char> {
    if several {
        "<div>"@ + esc_seq(g.name) + "</div>"@
    } else {
        Seq::empty()
    }
}

/// A placemark's card: its picture, its name with a link to its pin, its
/// group when there are several, its scrubbed balloon, and its position.
pub open spec fn card(
    gi: int,
    g: GroupV,
    m: MarkV,
    several: bool,
    positions: Seq<Seq<char>>,
) -> Seq<char> {
    card_open(gi, m) + card_picture(m) + card_heading(g, m) + card_group(g, several) + scrub_seq(
        m.desc,
    ) + "<div>"@ + position_of(positions, m.at) + "</div>"@ + "</div></li>"@
}

pub open spec fn group_cards(
    gi: int,
    g: GroupV,
    k: int,
    several: bool,
    positions: Seq<Seq<char>>,
) -> Seq<char>
    decreases k,
{
    if k <= 0 {
        Seq::empty()
    } else {
        group_cards(gi, g, k - 1, several, positions) + card(
            gi,
            g,
            g.marks[k - 1],
            several,
            positions,
        )
    }
}

pub open spec fn cards(gs: Seq<GroupV>, n: int, positions: Seq<Seq<char>>) -> Seq<char>
    decreases n,
{
    if n <= 0 {
        Seq::empty()
    } else {
        cards(gs, n - 1, positions) + group_cards(
            n - 1,
            gs[n - 1],
            gs[n - 1].marks.len() as int,
            gs.len() > 1,
            positions,
        )
    }
}

/// The source file names, escaped and joined with `, `.
pub open spec fn sources_text(sources: Seq<Seq<char>>, n: int) -> Seq<char>
    decreases n,
{
    if n <= 0 {
        Seq::empty()
    } else if n == 1 {
        esc_seq(sources[0])
    } else {
        sources_text(sources, n - 1) + ", "@ + esc_seq(sources[n - 1])
    }
}

pub open spec fn page_foot(sources: Seq<Seq<char>>) -> Seq<char> {
    "</ul>"@ + "<footer>Map data "@ + ATTRIBUTION@ + ". Built from "@ + sources_text(
        sources,
        sources.len() as int,
    ) + " by <a href=\"https://github.com/ryjones/maps-thingy\">maps-thingy</a>.</footer>"@
        + "</div><div id=\"peek\"></div><script>"@ + PAGE_JS@ + "</script></body></html>"@
}

/// The page that hosts the map: heading, the map inlined, the legend, a card
/// per placemark, and the footer with the tile credit.
pub open spec fn page_seq(
    gs: Seq<GroupV>,
    map: Seq<char>,
    title: Seq<char>,
    subtitle: Seq<char>,
    sources: Seq<Seq<char>>,
    positions: Seq<Seq<char>>,
) -> Seq<char> {
    page_head(title, subtitle, map) + legend(gs) + "<h2>Placemarks <span class=\"count\">("@
        + dec(total_marks(gs) as int) + ")</span></h2>"@ + "<ul class=\"grid\">"@ + cards(
        gs,
        gs.len() as int,
        positions,
    ) + page_foot(sources)
}

pub open spec fn strs_view(v: Seq<String>) -> Seq<Seq<char>> {
    v.map_values(|s: String| s@)
}

fn push_dec(out: &mut String, n: usize)
    ensures
        final(out)@ == old(out)@ + dec(n as int),
{
    let d = decimal_string(n as u64);
    out.append(d.as_str());
}

fn push_esc(out: &mut String, s: &str)
    ensures
        final(out)@ == old(out)@ + esc_seq(s@),
{
    let e = esc(s);
    out.append(e.as_str());
}

#[verifier::spinoff_prover]
#[verifier::rlimit(30)]
fn push_legend(out: &mut String, groups: &[Group])
    ensures
        final(out)@ == old(out)@ + legend(groups_view(groups@)),
{
    let ghost gs = groups_view(groups@);
    if groups.len() > 1 {
        let ghost start = out@;
        out.append("<ul class=\"legend\">");
        let ghost mid = out@;
        for gi in 0..groups.len()
            invariant
                gs == groups_view(groups@),
                out@ == mid + legend_items(gs, gi as int),
        {
            let g = &groups[gi];
            assert(gs[gi as int] == g@);
            out.append("<li><button type=\"button\" aria-pressed=\"true\" data-group=\"");
            push_dec(out, gi);
            out.append("\"><span class=\"dot\" style=\"background:");
            out.append(g.color.as_str());
            out.append("\"></span>");
            push_esc(out, g.name.as_str());
            out.append(" <span class=\"count\">");
            push_dec(out, g.marks.len());
            out.append("</span></button></li>");
            assert(out@ =~= mid + legend_items(gs, gi + 1));
        }
        out.append("</ul>");
        assert(out@ =~= start + legend(gs));
    }
}

fn push_card_open(out: &mut String, gi: usize, m: &Mark)
    ensures
        final(out)@ == old(out)@ + card_open(gi as int, m@),
{
    let ghost start = out@;
    out.append("<li class=\"card\" id=\"");
    out.append(m.uid.as_str());
    out.append("\" data-group=\"");
    push_dec(out, gi);
    out.append("\">");
    assert(out@ =~= start + card_open(gi as int, m@));
}

fn push_card_picture(out: &mut String, m: &Mark)
    ensures
        final(out)@ == old(out)@ + card_picture(m@),
{
    let ghost start = out@;
    match &m.image {
        Some(img) => {
            out.append("<img loading=\"lazy\" src=\"");
            push_esc(out, img.as_str());
            out.append("\" alt=\"");
            push_esc(out, m.name.as_str());
            out.append("\">");
            assert(out@ =~= start + card_picture(m@));
        },
        None => {
            assert(out@ =~= start + card_picture(m@));
        },
    }
}

fn push_card_heading(out: &mut String, g: &Group, m: &Mark)
    ensures
        final(out)@ == old(out)@ + card_heading(g@, m@),
{
    let ghost start = out@;
    out.append("<div class=\"body\">");
    out.append("<h3><span class=\"dot\" style=\"background:");
    out.append(g.color.as_str());
    out.append("\"></span>");
    if m.name.as_str().is_empty() {
        push_esc(out, "Placemark");
    } else {
        push_esc(out, m.name.as_str());
    }
    out.append("<a class=\"locate\" data-uid=\"");
    out.append(m.uid.as_str());
    out.append("\" href=\"#pin-");
    out.append(m.uid.as_str());
    out.append("\">on map</a></h3>");
    assert(out@ =~= start + card_heading(g@, m@));
}

#[verifier::spinoff_prover]
#[verifier::rlimit(30)]
fn push_card(out: &mut String, gi: usize, g: &Group, m: &Mark, several: bool, positions: &[String])
    ensures
        final(out)@ == old(out)@ + card(gi as int, g@, m@, several, strs_view(positions@)),
{
    let ghost start = out@;
    push_card_open(out, gi, m);
    push_card_picture(out, m);
    push_card_heading(out, g, m);
    let ghost a = out@;
    if several {
        out.append("<div>");
        push_esc(out, g.name.as_str());
        out.append("</div>");
    }
    assert(out@ =~= a + card_group(g@, several));
    let balloon = scrub(m.desc.as_str());
    out.append(balloon.as_str());
    let ghost b = out@;
    out.append("<div>");
    if m.at < positions.len() {
        out.append(positions[m.at].as_str());
    }
    out.append("</div>");
    out.append("</div></li>");
    assert(out@ =~= b + "<div>"@ + position_of(strs_view(positions@), m.at) + "</div>"@
        + "</div></li>"@);
    assert(out@ =~= start + card(gi as int, g@, m@, several, strs_view(positions@)));
}

fn push_cards(out: &mut String, groups: &[Group], positions: &[String])
    ensures
        final(out)@ == old(out)@ + cards(
            groups_view(groups@),
            groups@.len() as int,
            strs_view(positions@),
        ),
{
    let ghost gs = groups_view(groups@);
    let ghost ps = strs_view(positions@);
    let ghost start = out@;
    let several = groups.len() > 1;
    for gi in 0..groups.len()
        invariant
            gs == groups_view(groups@),
            ps == strs_view(positions@),
            several == (groups@.len() > 1),
            out@ == start + cards(gs, gi as int, ps),
    {
        let g = &groups[gi];
        assert(gs[gi as int] == g@);
        let ghost mid = out@;
        for k in 0..g.marks.len()
            invariant
                gs == groups_view(groups@),
                ps == strs_view(positions@),
                gs[gi as int] == g@,
                out@ == mid + group_cards(gi as int, g@, k as int, several, ps),
        {
            assert(g@.marks[k as int] == g.marks@[k as int]@);
            push_card(out, gi, g, &g.marks[k], several, positions);
        }
        assert(out@ =~= start + cards(gs, gi + 1, ps));
    }
}

fn push_sources(out: &mut String, sources: &[String])
    ensures
        final(out)@ == old(out)@ + sources_text(strs_view(sources@), sources@.len() as int),
{
    let ghost sv = strs_view(sources@);
    let ghost start = out@;
    for i in 0..sources.len()
        invariant
            sv == strs_view(sources@),
            out@ == start + sources_text(sv, i as int),
    {
        if i > 0 {
            out.append(", ");
        }
        push_esc(out, sources[i].as_str());
        assert(out@ =~= start + sources_text(sv, i + 1));
    }
}

fn push_page_head(out: &mut String, title: &str, subtitle: &str, map: &str)
    ensures
        final(out)@ == old(out)@ + page_head(title@, subtitle@, map@),
{
    let ghost start = out@;
    out.append("<!doctype html>\n<html lang=\"en\"><head><meta charset=\"utf-8\">");
    out.append("<meta name=\"viewport\" content=\"width=device-width,initial-scale=1\">");
    out.append("<title>");
    push_esc(out, title);
    out.append("</title>");
    out.append("<style>");
    out.append(PAGE_CSS);
    out.append("</style></head><body><div class=\"wrap\">");
    out.append("<h1>");
    push_esc(out, title);
    out.append("</h1>");
    out.append("<p class=\"sub\">");
    push_esc(out, subtitle);
    out.append("</p>");
    out.append("<div class=\"mapbox\">");
    out.append(map);
    out.append("</div>");
    assert(out@ =~= start + page_head(title@, subtitle@, map@));
}

pub open spec fn marks_total_fits(gs: Seq<GroupV>) -> bool {
    total_marks(gs) <= usize::MAX
}

/// The marks of the first `n` groups are no more than all of them.
pub proof fn lemma_total_marks_prefix(gs: Seq<GroupV>, n: int)
    requires
        0 <= n <= gs.len(),
    ensures
        total_marks(gs.take(n)) <= total_marks(gs),
    decreases gs.len() - n,
{
    if n < gs.len() {
        lemma_total_marks_prefix(gs, n + 1);
        assert(gs.take(n + 1).drop_last() =~= gs.take(n));
    } else {
        assert(gs.take(n) =~= gs);
    }
}

/// The page that hosts the map. `positions[i]` is the text shown as the
/// position of a mark standing on coordinate `i`.
#[verifier::spinoff_prover]
#[verifier::rlimit(30)]
pub fn page(
    groups: &[Group],
    map: &str,
    title: &str,
    subtitle: &str,
    sources: &[String],
    positions: &[String],
) -> (html: String)
    requires
        marks_total_fits(groups_view(groups@)),
    ensures
        html@ == page_seq(
            groups_view(groups@),
            map@,
            title@,
            subtitle@,
            strs_view(sources@),
            strs_view(positions@),
        ),
{
    let ghost gs = groups_view(groups@);
    let mut total: usize = 0;
    for gi in 0..groups.len()
        invariant
            gs == groups_view(groups@),
            marks_total_fits(gs),
            total == total_marks(gs.take(gi as int)),
    {
        proof {
            lemma_total_marks_prefix(gs, gi + 1);
            assert(gs.take(gi + 1).drop_last() =~= gs.take(gi as int));
        }
        total = total + groups[gi].marks.len();
    }
    assert(gs.take(groups.len() as int) =~= gs);
    let mut out = String::new();
    push_page_head(&mut out, title, subtitle, map);
    push_legend(&mut out, groups);
    out.append("<h2>Placemarks <span class=\"count\">(");
    push_dec(&mut out, total);
    out.append(")</span></h2>");
    out.append("<ul class=\"grid\">");
    push_cards(&mut out, groups, positions);
    let ghost body = out@;
    out.append("</ul>");
    out.append("<footer>Map data ");
    out.append(ATTRIBUTION);
    out.append(". Built from ");
    push_sources(&mut out, sources);
    out.append(" by <a href=\"https://github.com/ryjones/maps-thingy\">maps-thingy</a>.</footer>");
    out.append("</div><div id=\"peek\"></div><script>");
    out.append(PAGE_JS);
    out.append("</script></body></html>");
    assert(out@ =~= body + page_foot(strs_view(sources@)));
    out
}

// ----------------------------------------------------------------------------
// Pins and cards

/// `piece` stands somewhere inside `whole`.
pub open spec fn within(piece: Seq<char>, whole: Seq<char>) -> bool {
    exists|a: Seq<char>, b: Seq<char>| #[trigger] (a + piece + b) == whole
}

proof fn lemma_within_trans(p: Seq<char>, q: Seq<char>, r: Seq<char>)
    requires
        within(p, q),
        within(q, r),
    ensures
        within(p, r),
{
    let (a, b) = choose|a: Seq<char>, b: Seq<char>| #[trigger] (a + p + b) == q;
    let (c, d) = choose|c: Seq<char>, d: Seq<char>| #[trigger] (c + q + d) == r;
    assert((c + a) + p + (b + d) == r) by {
        assert((c + a) + p + (b + d) =~= c + (a + p + b) + d);
    }
}

proof fn lemma_within_left(p: Seq<char>, q: Seq<char>, r: Seq<char>)
    requires
        within(p, q),
    ensures
        within(p, q + r),
{
    let (a, b) = choose|a: Seq<char>, b: Seq<char>| #[trigger] (a + p + b) == q;
    assert(a + p + (b + r) == q + r) by {
        assert(a + p + (b + r) =~= (a + p + b) + r);
    }
}

proof fn lemma_within_right(p: Seq<char>, q: Seq<char>, r: Seq<char>)
    requires
        within(p, r),
    ensures
        within(p, q + r),
{
    let (a, b) = choose|a: Seq<char>, b: Seq<char>| #[trigger] (a + p + b) == r;
    assert((q + a) + p + b == q + r) by {
        assert((q + a) + p + b =~= q + (a + p + b));
    }
}

proof fn lemma_within_self(p: Seq<char>)
    ensures
        within(p, p),
{
    assert(Seq::<char>::empty() + p + Seq::<char>::empty() == p) by {
        assert(Seq::<char>::empty() + p + Seq::<char>::empty() =~= p);
    }
}

proof fn lemma_pin_within_pins(g: GroupV, spots: Seq<(Seq<char>, Seq<char>)>, n: int, k: int)
    requires
        0 <= k < n,
    ensures
        within(pin(g, g.marks[k], spots), pins(g, spots, n)),
    decreases n,
{
    if k == n - 1 {
        lemma_within_self(pin(g, g.marks[k], spots));
        lemma_within_right(pin(g, g.marks[k], spots), pins(g, spots, n - 1), pin(g, g.marks[k], spots));
    } else {
        lemma_pin_within_pins(g, spots, n - 1, k);
        lemma_within_left(pin(g, g.marks[k], spots), pins(g, spots, n - 1), pin(g, g.marks[n - 1], spots));
    }
}

proof fn lemma_layer_within_layers(gs: Seq<GroupV>, spots: Seq<(Seq<char>, Seq<char>)>, n: int, gi: int)
    requires
        0 <= gi < n,
    ensures
        within(layer(gi, gs[gi], spots), layers(gs, spots, n)),
    decreases n,
{
    let l = layer(gi, gs[gi], spots);
    if gi == n - 1 {
        lemma_within_self(l);
        lemma_within_right(l, layers(gs, spots, n - 1), l);
    } else {
        lemma_layer_within_layers(gs, spots, n - 1, gi);
        lemma_within_left(l, layers(gs, spots, n - 1), layer(n - 1, gs[n - 1], spots));
    }
}

proof fn lemma_card_within_group(
    gi: int,
    g: GroupV,
    n: int,
    k: int,
    several: bool,
    positions: Seq<Seq<char>>,
)
    requires
        0 <= k < n,
    ensures
        within(card(gi, g, g.marks[k], several, positions), group_cards(gi, g, n, several, positions)),
    decreases n,
{
    let c = card(gi, g, g.marks[k], several, positions);
    if k == n - 1 {
        lemma_within_self(c);
        lemma_within_right(c, group_cards(gi, g, n - 1, several, positions), c);
    } else {
        lemma_card_within_group(gi, g, n - 1, k, several, positions);
        lemma_within_left(
            c,
            group_cards(gi, g, n - 1, several, positions),
            card(gi, g, g.marks[n - 1], several, positions),
        );
    }
}

proof fn lemma_group_within_cards(gs: Seq<GroupV>, n: int, gi: int, positions: Seq<Seq<char>>)
    requires
        0 <= gi < n,
    ensures
        within(
            group_cards(gi, gs[gi], gs[gi].marks.len() as int, gs.len() > 1, positions),
            cards(gs, n, positions),
        ),
    decreases n,
{
    let c = group_cards(gi, gs[gi], gs[gi].marks.len() as int, gs.len() > 1, positions);
    if gi == n - 1 {
        lemma_within_self(c);
        lemma_within_right(c, cards(gs, n - 1, positions), c);
    } else {
        lemma_group_within_cards(gs, n - 1, gi, positions);
        lemma_within_left(
            c,
            cards(gs, n - 1, positions),
            group_cards(n - 1, gs[n - 1], gs[n - 1].marks.len() as int, gs.len() > 1, positions),
        );
    }
}

/// Every placemark shows up twice, and the two are linked: the map carries
/// its pin (id `pin-` and its anchor), and the page carries its card (id its
/// anchor, with a link back to the pin).
pub proof fn lemma_every_mark_has_a_pin_and_a_card(
    gs: Seq<GroupV>,
    f: FrameV,
    tiles: Seq<Seq<u8>>,
    title: Seq<char>,
    subtitle: Seq<char>,
    map: Seq<char>,
    sources: Seq<Seq<char>>,
    positions: Seq<Seq<char>>,
    gi: int,
    k: int,
)
    requires
        0 <= gi < gs.len(),
        0 <= k < gs[gi].marks.len(),
    ensures
        within(pin(gs[gi], gs[gi].marks[k], f.points), svg_seq(gs, f, tiles, title, subtitle)),
        within(
            card(gi, gs[gi], gs[gi].marks[k], gs.len() > 1, positions),
            page_seq(gs, map, title, subtitle, sources, positions),
        ),
{
    let g = gs[gi];
    let m = g.marks[k];
    // The pin sits in its group's layer, which sits among the layers.
    let p = pin(g, m, f.points);
    lemma_pin_within_pins(g, f.points, g.marks.len() as int, k);
    let head = "<g class=\"group\" data-group=\""@ + dec(gi) + "\">"@ + route_lines(
        g,
        f.points,
        g.routes.len() as int,
    );
    lemma_within_right(p, head, pins(g, f.points, g.marks.len() as int));
    lemma_within_left(p, head + pins(g, f.points, g.marks.len() as int), "</g>"@);
    assert(layer(gi, g, f.points) == head + pins(g, f.points, g.marks.len() as int) + "</g>"@);
    lemma_layer_within_layers(gs, f.points, gs.len() as int, gi);
    lemma_within_trans(p, layer(gi, g, f.points), layers(gs, f.points, gs.len() as int));
    let before = map_head(title, f) + "<g class=\"tiles\">"@ + tile_images(
        f.tiles,
        tiles,
        tiles.len() as int,
    ) + "</g>"@;
    let after = chrome(title, subtitle, f) + "</svg>"@;
    lemma_within_right(p, before, layers(gs, f.points, gs.len() as int));
    lemma_within_left(p, before + layers(gs, f.points, gs.len() as int), after);
    assert(svg_seq(gs, f, tiles, title, subtitle) =~= before + layers(gs, f.points, gs.len() as int)
        + after);
    // The card sits in its group's cards, which sit among the page's cards.
    let c = card(gi, g, m, gs.len() > 1, positions);
    lemma_card_within_group(gi, g, g.marks.len() as int, k, gs.len() > 1, positions);
    lemma_group_within_cards(gs, gs.len() as int, gi, positions);
    lemma_within_trans(
        c,
        group_cards(gi, g, g.marks.len() as int, gs.len() > 1, positions),
        cards(gs, gs.len() as int, positions),
    );
    let top = page_head(title, subtitle, map) + legend(gs) + "<h2>Placemarks <span class=\"count\">("@
        + dec(total_marks(gs) as int) + ")</span></h2>"@ + "<ul class=\"grid\">"@;
    lemma_within_right(c, top, cards(gs, gs.len() as int, positions));
    lemma_within_left(c, top + cards(gs, gs.len() as int, positions), page_foot(sources));
    assert(page_seq(gs, map, title, subtitle, sources, positions) =~= top + cards(
        gs,
        gs.len() as int,
        positions,
    ) + page_foot(sources));
}

proof fn lemma_tile_within(spots: Seq<(Seq<char>, Seq<char>)>, tiles: Seq<Seq<u8>>, n: int, i: int)
    requires
        0 <= i < n,
    ensures
        within(tile_image(spot_at(spots, i), tiles[i]), tile_images(spots, tiles, n)),
    decreases n,
{
    let t = tile_image(spot_at(spots, i), tiles[i]);
    if i == n - 1 {
        lemma_within_self(t);
        lemma_within_right(t, tile_images(spots, tiles, n - 1), t);
    } else {
        lemma_tile_within(spots, tiles, n - 1, i);
        lemma_within_left(
            t,
            tile_images(spots, tiles, n - 1),
            tile_image(spot_at(spots, n - 1), tiles[n - 1]),
        );
    }
}

/// Every tile is inlined at its own place: the map holds an `<image>` at
/// the position the frame gives tile `i`, carrying tile `i`'s PNG.
pub proof fn lemma_each_tile_at_its_place(
    gs: Seq<GroupV>,
    f: FrameV,
    tiles: Seq<Seq<u8>>,
    title: Seq<char>,
    subtitle: Seq<char>,
    i: int,
)
    requires
        0 <= i < tiles.len(),
        i < f.tiles.len(),
    ensures
        within(
            "<image x=\""@ + f.tiles[i].0 + "\" y=\""@ + f.tiles[i].1
                + "\" width=\"256\" height=\"256\" href=\"data:image/png;base64,"@ + base64_seq(
                tiles[i],
            ) + "\"/>"@,
            svg_seq(gs, f, tiles, title, subtitle),
        ),
{
    let t = tile_image(spot_at(f.tiles, i), tiles[i]);
    assert(t =~= "<image x=\""@ + f.tiles[i].0 + "\" y=\""@ + f.tiles[i].1
        + "\" width=\"256\" height=\"256\" href=\"data:image/png;base64,"@ + base64_seq(tiles[i])
        + "\"/>"@) by {
        reveal_strlit("\" width=\"256\" height=\"256\" href=\"");
        reveal_strlit("data:image/png;base64,");
        reveal_strlit("\" width=\"256\" height=\"256\" href=\"data:image/png;base64,");
    }
    lemma_tile_within(f.tiles, tiles, tiles.len() as int, i);
    let before = map_head(title, f) + "<g class=\"tiles\">"@;
    let ti = tile_images(f.tiles, tiles, tiles.len() as int);
    let after = "</g>"@ + layers(gs, f.points, gs.len() as int) + chrome(title, subtitle, f)
        + "</svg>"@;
    lemma_within_right(t, before, ti);
    lemma_within_left(t, before + ti, after);
    assert(svg_seq(gs, f, tiles, title, subtitle) =~= before + ti + after);
}

/// The page's heading counts every placemark of every group: the number of
/// cards that follow it.
pub proof fn lemma_heading_counts_every_mark(
    gs: Seq<GroupV>,
    map: Seq<char>,
    title: Seq<char>,
    subtitle: Seq<char>,
    sources: Seq<Seq<char>>,
    positions: Seq<Seq<char>>,
)
    ensures
        within(
            "<h2>Placemarks <span class=\"count\">("@ + decimal(total_marks(gs))
                + ")</span></h2>"@,
            page_seq(gs, map, title, subtitle, sources, positions),
        ),
{
    let h = "<h2>Placemarks <span class=\"count\">("@ + decimal(total_marks(gs)) + ")</span></h2>"@;
    let before = page_head(title, subtitle, map) + legend(gs);
    let after = "<ul class=\"grid\">"@ + cards(gs, gs.len() as int, positions) + page_foot(sources);
    assert(dec(total_marks(gs) as int) == decimal(total_marks(gs)));
    assert(page_seq(gs, map, title, subtitle, sources, positions) =~= before + h + after);
    lemma_within_self(h);
    lemma_within_right(h, before, h);
    lemma_within_left(h, before + h, after);
}

/// The number of cards on the page is the heading's count: one per mark of
/// every group.
pub proof fn lemma_total_marks_counts_cards(gs: Seq<GroupV>)
    ensures
        total_marks(gs) == gs.fold_left(0nat, |n: nat, g: GroupV| n + g.marks.len()),
    decreases gs.len(),
{
    if gs.len() > 0 {
        lemma_total_marks_counts_cards(gs.drop_last());
    }
}

} // verus!
