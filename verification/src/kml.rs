//! Reading a KML document into placemarks, and placemarks into groups.
//!
//! Deliberately tolerant: the namespace is ignored, unknown elements are walked
//! through, and a placemark contributes whatever geometry it happens to carry.
//! A KMZ written by platescan, by Google Earth, or by hand all land in the same
//! shape: a list of folders, each with points and route lines.
//!
//! Reading happens in two steps. `parse` walks the XML events and records,
//! for every placemark, the coordinate fields it carries, unfiltered, in one
//! table shared by the document. Which fields are usable positions (a number
//! within range for both longitude and latitude) is a question about floating
//! point that is answered outside this crate; `into_groups` then takes the
//! answer for every field of the table and builds the groups.

use vstd::prelude::*;

use crate::text::{
    chars_of, eq_lit, in_run, find_char, find_char_from, find_char_or_end, lemma_find_char,
    lemma_skip_run, skip_run, skip_run_exec, slice_chars, string_of, Run,
};
use crate::xml::{from_utf8_lossy, kml_raw_events, read_raw_events, raws_view, utf8_lossy, RawEvent, RawEventV};

verus! {

// ----------------------------------------------------------------------------
// Events

/// An XML event as the KML reader sees it: tag names are local names, text
/// and CDATA are decoded.
pub enum XmlEvent {
    Start(String),
    End(String),
    Text(String),
    CData(String),
    Eof,
    Other,
    Failed(String),
}

pub enum EventV {
    Start(Seq<char>),
    End(Seq<char>),
    Text(Seq<char>),
    CData(Seq<char>),
    Eof,
    Other,
    Failed(Seq<char>),
}

impl View for XmlEvent {
    type V = EventV;

    open spec fn view(&self) -> EventV {
        match self {
            XmlEvent::Start(s) => EventV::Start(s@),
            XmlEvent::End(s) => EventV::End(s@),
            XmlEvent::Text(s) => EventV::Text(s@),
            XmlEvent::CData(s) => EventV::CData(s@),
            XmlEvent::Eof => EventV::Eof,
            XmlEvent::Other => EventV::Other,
            XmlEvent::Failed(s) => EventV::Failed(s@),
        }
    }
}

// ----------------------------------------------------------------------------
// Coordinates

/// One `lon,lat[,alt]` field of a KML coordinate list, as text.
pub struct Coord {
    pub lon: String,
    pub lat: String,
}

pub struct CoordV {
    pub lon: Seq<char>,
    pub lat: Seq<char>,
}

impl View for Coord {
    type V = CoordV;

    open spec fn view(&self) -> CoordV {
        CoordV { lon: self.lon@, lat: self.lat@ }
    }
}

/// `str::split_whitespace` from position `i`: the maximal runs of characters
/// other than Unicode whitespace.
pub open spec fn words_from(s: Seq<char>, i: int) -> Seq<Seq<char>>
    decreases s.len() - i,
{
    if i < 0 || i > s.len() {
        Seq::empty()
    } else {
        let j = skip_run(s, i, Run::Blank);
        proof {
            lemma_skip_run(s, i, Run::Blank);
        }
        if j >= s.len() {
            Seq::empty()
        } else {
            let k = skip_run(s, j, Run::NonBlank);
            proof {
                lemma_skip_run(s, j + 1, Run::NonBlank);
            }
            seq![s.subrange(j, k)] + words_from(s, k)
        }
    }
}

/// The first two comma-separated parts of a word, when it has at least two.
pub open spec fn coord_of_word(w: Seq<char>) -> Option<CoordV> {
    match find_char(w, 0, ',') {
        None => None,
        Some(p) => Some(CoordV { lon: w.take(p), lat: w.subrange(p + 1, find_char_or_end(w, p + 1, ',')) }),
    }
}

pub open spec fn coords_of_words(ws: Seq<Seq<char>>) -> Seq<CoordV>
    decreases ws.len(),
{
    if ws.len() == 0 {
        Seq::empty()
    } else {
        let rest = coords_of_words(ws.drop_last());
        match coord_of_word(ws.last()) {
            Some(c) => rest.push(c),
            None => rest,
        }
    }
}

/// KML coordinate lists are whitespace-separated `lon,lat[,alt]` triples; the
/// fields of every word with at least two comma-separated parts.
pub open spec fn coord_fields(text: Seq<char>) -> Seq<CoordV> {
    coords_of_words(words_from(text, 0))
}

pub open spec fn coords_view(v: Seq<Coord>) -> Seq<CoordV> {
    v.map_values(|c: Coord| c@)
}

fn coord_of_chars(w: &Vec<char>) -> (r: Option<Coord>)
    ensures
        match r {
            Some(c) => coord_of_word(w@) == Some(c@),
            None => coord_of_word(w@) is None,
        },
{
    proof {
        lemma_find_char(w@, 0, ',');
    }
    match find_char_from(w, 0, ',') {
        None => None,
        Some(p) => {
            assert(find_char(w@, 0, ',') == Some(p as int));
            assert(p < w.len());
            proof {
                lemma_find_char(w@, p + 1, ',');
            }
            let q = match find_char_from(w, p + 1, ',') {
                Some(q) => q,
                None => w.len(),
            };
            let lon = slice_chars(w, 0, p);
            let lat = slice_chars(w, p + 1, q);
            assert(lon@ =~= w@.take(p as int));
            Some(Coord { lon: string_of(&lon), lat: string_of(&lat) })
        },
    }
}

/// The coordinate fields of a KML coordinate list.
pub fn coord_fields_of(text: &Vec<char>) -> (out: Vec<Coord>)
    ensures
        coords_view(out@) == coord_fields(text@),
{
    let n = text.len();
    let mut out: Vec<Coord> = Vec::new();
    let mut i: usize = 0;
    let ghost mut done: Seq<Seq<char>> = Seq::empty();
    assert(done + words_from(text@, 0) =~= words_from(text@, 0));
    assert(coords_view(out@) =~= Seq::empty());
    while i < n
        invariant
            n == text.len(),
            i <= n,
            words_from(text@, 0) == done + words_from(text@, i as int),
            coords_view(out@) == coords_of_words(done),
        decreases n - i,
    {
        let j = skip_run_exec(text, i, Run::Blank);
        if j >= n {
            assert(words_from(text@, i as int) =~= Seq::empty());
            assert(words_from(text@, n as int) =~= Seq::empty());
            i = n;
        } else {
            proof {
                lemma_skip_run(text@, j + 1, Run::NonBlank);
            }
            let k = skip_run_exec(text, j, Run::NonBlank);
            let w = slice_chars(text, j, k);
            let ghost old_out = coords_view(out@);
            match coord_of_chars(&w) {
                Some(c) => {
                    out.push(c);
                    assert(coords_view(out@) =~= old_out.push(c@));
                },
                None => {},
            }
            proof {
                assert(done.push(w@).drop_last() =~= done);
                assert(words_from(text@, i as int) == seq![w@] + words_from(text@, k as int));
                assert(done + words_from(text@, i as int) =~= done.push(w@) + words_from(
                    text@,
                    k as int,
                ));
                done = done.push(w@);
            }
            i = k;
        }
    }
    assert(done + Seq::<Seq<char>>::empty() =~= done);
    out
}

/// KML coordinate lists are whitespace-separated `lon,lat[,alt]` triples; the
/// first two fields of each, as text. Whether they are usable positions is
/// decided by whoever reads them as numbers.
pub fn parse_coords(text: &str) -> (out: Vec<Coord>)
    ensures
        coords_view(out@) == coord_fields(text@),
{
    let v = chars_of(text);
    coord_fields_of(&v)
}

// ----------------------------------------------------------------------------
// Splitting coordinate lists

proof fn lemma_skip_shift(p: Seq<char>, q: Seq<char>, k: int, r: Run)
    requires
        0 <= k <= q.len(),
    ensures
        skip_run(p + q, p.len() + k, r) == p.len() + skip_run(q, k, r),
    decreases q.len() - k,
{
    let s = p + q;
    if k < q.len() {
        assert(s[p.len() + k] == q[k]);
        if in_run(r, q[k]) {
            lemma_skip_shift(p, q, k + 1, r);
        }
    }
}

proof fn lemma_words_shift(p: Seq<char>, q: Seq<char>, k: int)
    requires
        0 <= k <= q.len(),
    ensures
        words_from(p + q, p.len() + k) == words_from(q, k),
    decreases q.len() - k,
{
    let s = p + q;
    let o = p.len() as int;
    lemma_skip_shift(p, q, k, Run::Blank);
    lemma_skip_run(q, k, Run::Blank);
    let j = skip_run(q, k, Run::Blank);
    if j < q.len() {
        lemma_skip_shift(p, q, j, Run::NonBlank);
        lemma_skip_run(q, j, Run::NonBlank);
        lemma_skip_run(q, j + 1, Run::NonBlank);
        let e = skip_run(q, j, Run::NonBlank);
        assert(s.subrange(o + j, o + e) =~= q.subrange(j, e));
        lemma_words_shift(p, q, e);
    }
}

/// Skipping a run from `a` reads no further in `s` than in `a` when `a` is a
/// prefix of `s` and the character after it ends the run.
proof fn lemma_skip_prefix(a: Seq<char>, s: Seq<char>, i: int, r: Run)
    requires
        a.len() < s.len(),
        s.take(a.len() as int) == a,
        !in_run(r, s[a.len() as int]),
        0 <= i <= a.len(),
    ensures
        skip_run(s, i, r) == skip_run(a, i, r),
    decreases a.len() - i,
{
    if i < a.len() {
        assert(s[i] == s.take(a.len() as int)[i]);
        if in_run(r, a[i]) {
            lemma_skip_prefix(a, s, i + 1, r);
        }
    }
}

/// Skipping a run from `i` that covers everything up to `m` gets as far as
/// skipping from `m`.
proof fn lemma_skip_through(s: Seq<char>, i: int, m: int, r: Run)
    requires
        0 <= i <= m <= s.len(),
        forall|t: int| i <= t < m ==> in_run(r, #[trigger] s[t]),
    ensures
        skip_run(s, i, r) == skip_run(s, m, r),
    decreases m - i,
{
    if i < m {
        lemma_skip_through(s, i + 1, m, r);
    }
}

/// Skipping a run from `i` in `a` stops at the same place in `s` when it
/// stops inside `a` and `a` is a prefix of `s`.
proof fn lemma_skip_prefix_inner(a: Seq<char>, s: Seq<char>, i: int, r: Run)
    requires
        a.len() <= s.len(),
        s.take(a.len() as int) == a,
        0 <= i <= a.len(),
        skip_run(a, i, r) < a.len(),
    ensures
        skip_run(s, i, r) == skip_run(a, i, r),
    decreases a.len() - i,
{
    assert(s[i] == s.take(a.len() as int)[i]);
    if in_run(r, a[i]) {
        lemma_skip_prefix_inner(a, s, i + 1, r);
    }
}

proof fn lemma_words_join(a: Seq<char>, b: Seq<char>, i: int)
    requires
        0 <= i <= a.len(),
    ensures
        words_from(a + " "@ + b, i) == words_from(a, i) + words_from(b, 0),
    decreases a.len() - i,
{
    reveal_strlit(" ");
    let s = a + " "@ + b;
    let l = a.len() as int;
    assert(s.len() == l + 1 + b.len());
    assert(s[l] == ' ');
    assert(s.take(l) =~= a);
    lemma_skip_run(a, i, Run::Blank);
    let j = skip_run(a, i, Run::Blank);
    if j < l {
        lemma_skip_prefix_inner(a, s, i, Run::Blank);
        lemma_skip_prefix(a, s, j, Run::NonBlank);
        lemma_skip_run(a, j, Run::NonBlank);
        lemma_skip_run(a, j + 1, Run::NonBlank);
        let e = skip_run(a, j, Run::NonBlank);
        assert(s.subrange(j, e) =~= a.subrange(j, e));
        lemma_words_join(a, b, e);
        assert(words_from(s, i) =~= seq![a.subrange(j, e)] + words_from(s, e));
        assert(words_from(a, i) =~= seq![a.subrange(j, e)] + words_from(a, e));
        assert(seq![a.subrange(j, e)] + (words_from(a, e) + words_from(b, 0)) =~= (seq![
            a.subrange(j, e),
        ] + words_from(a, e)) + words_from(b, 0));
    } else {
        // Only blanks are left of `a`; the space joins them to `b`'s.
        assert forall|t: int| i <= t < l + 1 implies in_run(Run::Blank, #[trigger] s[t]) by {
            if t < l {
                assert(s[t] == a[t]);
            }
        }
        lemma_skip_through(s, i, l + 1, Run::Blank);
        assert(s =~= (a + " "@) + b);
        assert((a + " "@).len() == l + 1);
        lemma_skip_shift(a + " "@, b, 0, Run::Blank);
        lemma_words_shift(a + " "@, b, 0);
        lemma_skip_run(b, 0, Run::Blank);
        let jb = skip_run(b, 0, Run::Blank);
        assert(skip_run(s, i, Run::Blank) == l + 1 + jb);
        if l + 1 + jb < s.len() {
            assert(words_from(s, i) == words_from(s, l + 1));
        }
        assert(words_from(a, i) =~= Seq::<Seq<char>>::empty());
        assert(words_from(s, i) =~= words_from(b, 0));
    }
}

proof fn lemma_coords_of_words_join(x: Seq<Seq<char>>, y: Seq<Seq<char>>)
    ensures
        coords_of_words(x + y) == coords_of_words(x) + coords_of_words(y),
    decreases y.len(),
{
    if y.len() == 0 {
        assert(x + y =~= x);
        assert(coords_of_words(x) + Seq::<CoordV>::empty() =~= coords_of_words(x));
    } else {
        assert((x + y).drop_last() =~= x + y.drop_last());
        assert((x + y).last() == y.last());
        lemma_coords_of_words_join(x, y.drop_last());
        match coord_of_word(y.last()) {
            Some(c) => {
                assert((coords_of_words(x) + coords_of_words(y.drop_last())).push(c) =~= coords_of_words(x)
                    + coords_of_words(y.drop_last()).push(c));
            },
            None => {},
        }
    }
}

/// Coordinate lists split at whitespace: two lists joined by a space hold
/// the fields of the first, then those of the second.
pub proof fn lemma_coord_fields_join(a: Seq<char>, b: Seq<char>)
    ensures
        coord_fields(a + " "@ + b) == coord_fields(a) + coord_fields(b),
{
    lemma_words_join(a, b, 0);
    lemma_coords_of_words_join(words_from(a, 0), words_from(b, 0));
}

// ----------------------------------------------------------------------------
// What the reader collects

/// A placemark as read: the key of the group it belongs to, its fields, and
/// its geometry as indices into the document's coordinate table. `points` are
/// the fields of `<coordinates>` directly under a `<Point>`; each of `lines`
/// holds the fields of one other `<coordinates>` element.
pub struct Placemark {
    pub group: String,
    pub name: String,
    pub when: Option<String>,
    pub desc: String,
    pub points: Vec<usize>,
    pub lines: Vec<Vec<usize>>,
}

/// A KML document as read: its name, the coordinate fields of every
/// `<coordinates>` element inside a placemark, and the placemarks.
pub struct Document {
    pub name: String,
    pub coords: Vec<Coord>,
    pub placemarks: Vec<Placemark>,
}

/// Placemark fields collected while its subtree is being read.
pub struct Pending {
    pub name: String,
    pub desc: String,
    pub when: Option<String>,
    pub points: Vec<usize>,
    pub lines: Vec<Vec<usize>>,
}

/// The reader's state between events.
pub struct Reading {
    /// Folders nest; the innermost named one owns the placemarks below it.
    pub folders: Vec<Option<String>>,
    pub path: Vec<String>,
    pub pending: Option<Pending>,
    pub text: String,
    pub doc_name: Option<String>,
    pub coords: Vec<Coord>,
    pub placemarks: Vec<Placemark>,
}

pub struct PlacemarkV {
    pub group: Seq<char>,
    pub name: Seq<char>,
    pub when: Option<Seq<char>>,
    pub desc: Seq<char>,
    pub points: Seq<usize>,
    pub lines: Seq<Seq<usize>>,
}

pub struct DocumentV {
    pub name: Seq<char>,
    pub coords: Seq<CoordV>,
    pub placemarks: Seq<PlacemarkV>,
}

pub struct PendingV {
    pub name: Seq<char>,
    pub desc: Seq<char>,
    pub when: Option<Seq<char>>,
    pub points: Seq<usize>,
    pub lines: Seq<Seq<usize>>,
}

pub struct ReadingV {
    pub folders: Seq<Option<Seq<char>>>,
    pub path: Seq<Seq<char>>,
    pub pending: Option<PendingV>,
    pub text: Seq<char>,
    pub doc_name: Option<Seq<char>>,
    pub coords: Seq<CoordV>,
    pub placemarks: Seq<PlacemarkV>,
}

pub open spec fn opt_view(o: Option<String>) -> Option<Seq<char>> {
    match o {
        Some(s) => Some(s@),
        None => None,
    }
}

pub open spec fn opts_view(v: Seq<Option<String>>) -> Seq<Option<Seq<char>>> {
    v.map_values(|o: Option<String>| opt_view(o))
}

pub open spec fn strings_view(v: Seq<String>) -> Seq<Seq<char>> {
    v.map_values(|s: String| s@)
}

pub open spec fn lines_view(v: Seq<Vec<usize>>) -> Seq<Seq<usize>> {
    v.map_values(|l: Vec<usize>| l@)
}

pub open spec fn placemarks_view(v: Seq<Placemark>) -> Seq<PlacemarkV> {
    v.map_values(|p: Placemark| p@)
}

impl View for Placemark {
    type V = PlacemarkV;

    open spec fn view(&self) -> PlacemarkV {
        PlacemarkV {
            group: self.group@,
            name: self.name@,
            when: opt_view(self.when),
            desc: self.desc@,
            points: self.points@,
            lines: lines_view(self.lines@),
        }
    }
}

impl View for Document {
    type V = DocumentV;

    open spec fn view(&self) -> DocumentV {
        DocumentV {
            name: self.name@,
            coords: coords_view(self.coords@),
            placemarks: placemarks_view(self.placemarks@),
        }
    }
}

impl View for Pending {
    type V = PendingV;

    open spec fn view(&self) -> PendingV {
        PendingV {
            name: self.name@,
            desc: self.desc@,
            when: opt_view(self.when),
            points: self.points@,
            lines: lines_view(self.lines@),
        }
    }
}

pub open spec fn pending_view(p: Option<Pending>) -> Option<PendingV> {
    match p {
        Some(pm) => Some(pm@),
        None => None,
    }
}

impl View for Reading {
    type V = ReadingV;

    open spec fn view(&self) -> ReadingV {
        ReadingV {
            folders: opts_view(self.folders@),
            path: strings_view(self.path@),
            pending: pending_view(self.pending),
            text: self.text@,
            doc_name: opt_view(self.doc_name),
            coords: coords_view(self.coords@),
            placemarks: placemarks_view(self.placemarks@),
        }
    }
}

// ----------------------------------------------------------------------------
// The reader, event by event

pub open spec fn empty_pending() -> PendingV {
    PendingV {
        name: Seq::empty(),
        desc: Seq::empty(),
        when: None,
        points: Seq::empty(),
        lines: Seq::empty(),
    }
}

pub open spec fn initial() -> ReadingV {
    ReadingV {
        folders: Seq::empty(),
        path: Seq::empty(),
        pending: None,
        text: Seq::empty(),
        doc_name: None,
        coords: Seq::empty(),
        placemarks: Seq::empty(),
    }
}

/// The indices `base, base + 1, ..., base + n - 1`.
pub open spec fn fresh_indices(base: nat, n: nat) -> Seq<usize> {
    Seq::new(n, |k: int| (base + k) as usize)
}

/// The element that encloses the one being closed: the last but one on the
/// path, or nothing.
pub open spec fn parent_of(path: Seq<Seq<char>>) -> Seq<char> {
    if path.len() >= 2 {
        path[path.len() - 2]
    } else {
        Seq::empty()
    }
}

/// The name of the innermost folder that has one.
pub open spec fn innermost(folders: Seq<Option<Seq<char>>>) -> Option<Seq<char>>
    decreases folders.len(),
{
    if folders.len() == 0 {
        None
    } else {
        match folders.last() {
            Some(n) => Some(n),
            None => innermost(folders.drop_last()),
        }
    }
}

/// The group a placemark lands in: the innermost named folder, else the
/// document's name, else the file's stem.
pub open spec fn group_key(
    folders: Seq<Option<Seq<char>>>,
    doc_name: Option<Seq<char>>,
    stem: Seq<char>,
) -> Seq<char> {
    match innermost(folders) {
        Some(n) => n,
        None => match doc_name {
            Some(n) => n,
            None => stem,
        },
    }
}

pub open spec fn start_step(st: ReadingV, name: Seq<char>) -> ReadingV {
    let st1 = if name == "Placemark"@ {
        ReadingV { pending: Some(empty_pending()), ..st }
    } else if name == "Folder"@ || name == "Document"@ {
        ReadingV { folders: st.folders.push(None), ..st }
    } else {
        st
    };
    ReadingV { path: st1.path.push(name), text: Seq::empty(), ..st1 }
}

/// What the end of an element inside a placemark does to the placemark and
/// to the coordinate table.
pub open spec fn pending_end(
    pm: PendingV,
    coords: Seq<CoordV>,
    name: Seq<char>,
    parent: Seq<char>,
    value: Seq<char>,
) -> (PendingV, Seq<CoordV>) {
    if name == "name"@ && parent == "Placemark"@ {
        (PendingV { name: value, ..pm }, coords)
    } else if name == "description"@ && parent == "Placemark"@ {
        (PendingV { desc: value, ..pm }, coords)
    } else if (name == "when"@ || name == "begin"@) && pm.when is None && value.len() > 0 {
        (PendingV { when: Some(value), ..pm }, coords)
    } else if name == "coordinates"@ {
        let cs = coord_fields(value);
        let idx = fresh_indices(coords.len(), cs.len());
        if parent == "Point"@ {
            (PendingV { points: pm.points + idx, ..pm }, coords + cs)
        } else {
            (PendingV { lines: pm.lines.push(idx), ..pm }, coords + cs)
        }
    } else {
        (pm, coords)
    }
}

pub open spec fn placemark_of(pm: PendingV, group: Seq<char>) -> PlacemarkV {
    PlacemarkV {
        group,
        name: pm.name,
        when: pm.when,
        desc: pm.desc,
        points: pm.points,
        lines: pm.lines,
    }
}

pub open spec fn end_step(st: ReadingV, name: Seq<char>, stem: Seq<char>) -> ReadingV {
    let parent = parent_of(st.path);
    let value = st.text;
    let st1 = ReadingV { text: Seq::empty(), ..st };
    let st2 = match st1.pending {
        Some(pm) => {
            let r = pending_end(pm, st1.coords, name, parent, value);
            ReadingV { pending: Some(r.0), coords: r.1, ..st1 }
        },
        None => if name == "name"@ && (parent == "Folder"@ || parent == "Document"@) {
            ReadingV {
                doc_name: if parent == "Document"@ && st1.doc_name is None {
                    Some(value)
                } else {
                    st1.doc_name
                },
                folders: if st1.folders.len() > 0 {
                    st1.folders.update(st1.folders.len() - 1, Some(value))
                } else {
                    st1.folders
                },
                ..st1
            }
        } else {
            st1
        },
    };
    let st3 = if name == "Placemark"@ {
        match st2.pending {
            Some(pm) => ReadingV {
                pending: None,
                placemarks: st2.placemarks.push(
                    placemark_of(pm, group_key(st2.folders, st2.doc_name, stem)),
                ),
                ..st2
            },
            None => st2,
        }
    } else if name == "Folder"@ || name == "Document"@ {
        ReadingV {
            folders: if st2.folders.len() > 0 {
                st2.folders.drop_last()
            } else {
                st2.folders
            },
            ..st2
        }
    } else {
        st2
    };
    ReadingV {
        path: if st3.path.len() > 0 {
            st3.path.drop_last()
        } else {
            st3.path
        },
        ..st3
    }
}

/// What one event does to the reader.
pub open spec fn step(st: ReadingV, ev: EventV, stem: Seq<char>) -> ReadingV {
    match ev {
        EventV::Start(n) => start_step(st, n),
        EventV::End(n) => end_step(st, n, stem),
        EventV::Text(t) => ReadingV { text: st.text + t, ..st },
        EventV::CData(t) => ReadingV { text: st.text + t, ..st },
        _ => st,
    }
}

/// The reader after a run of events.
pub open spec fn run(evs: Seq<EventV>, stem: Seq<char>) -> ReadingV
    decreases evs.len(),
{
    if evs.len() == 0 {
        initial()
    } else {
        step(run(evs.drop_last(), stem), evs.last(), stem)
    }
}

pub open spec fn is_terminal(ev: EventV) -> bool {
    ev is Eof || ev is Failed
}

/// The position of the first end of input or error from `i` on.
pub open spec fn first_terminal(evs: Seq<EventV>, i: int) -> Option<int>
    decreases evs.len() - i,
{
    if i < 0 || i >= evs.len() {
        None
    } else if is_terminal(evs[i]) {
        Some(i)
    } else {
        first_terminal(evs, i + 1)
    }
}

/// The document a finished reader holds; it is named after the file when the
/// KML names no document.
pub open spec fn finish(st: ReadingV, stem: Seq<char>) -> DocumentV {
    DocumentV {
        name: match st.doc_name {
            Some(n) => n,
            None => stem,
        },
        coords: st.coords,
        placemarks: st.placemarks,
    }
}

/// The prefix of the message of a reader error.
pub open spec fn failure_prefix() -> Seq<char> {
    "not parseable as KML: "@
}

/// The message when the events run out before the input is known to end.
pub open spec fn unfinished_message() -> Seq<char> {
    "not parseable as KML: the reader did not reach the end of the input"@
}

/// What a run of events reads as: the document collected before the first
/// end of input, or the error that came first.
pub open spec fn outcome(evs: Seq<EventV>, stem: Seq<char>) -> Result<DocumentV, Seq<char>> {
    match first_terminal(evs, 0) {
        None => Err(unfinished_message()),
        Some(t) => match evs[t] {
            EventV::Failed(m) => Err(failure_prefix() + m),
            _ => Ok(finish(run(evs.take(t), stem), stem)),
        },
    }
}

pub open spec fn result_view(r: Result<Document, String>) -> Result<DocumentV, Seq<char>> {
    match r {
        Ok(d) => Ok(d@),
        Err(e) => Err(e@),
    }
}

// ----------------------------------------------------------------------------
// The reader, executed

fn str_is(s: &String, lit: &str) -> (r: bool)
    ensures
        r == (s@ == lit@),
{
    let v = chars_of(s.as_str());
    eq_lit(&v, lit)
}

/// Appends the coordinate fields of `text` to the table and returns their
/// indices.
fn push_coord_fields(text: &Vec<char>, coords: &mut Vec<Coord>) -> (idx: Vec<usize>)
    ensures
        coords_view(final(coords)@) == coords_view(old(coords)@) + coord_fields(text@),
        idx@ == fresh_indices(old(coords)@.len(), coord_fields(text@).len()),
{
    let base = coords.len();
    let mut cs = coord_fields_of(text);
    let ghost cv = coords_view(cs@);
    let ghost before = coords_view(coords@);
    coords.append(&mut cs);
    assert(coords_view(coords@) =~= before + cv);
    let mut idx: Vec<usize> = Vec::new();
    let mut k = base;
    while k < coords.len()
        invariant
            base <= k <= coords.len(),
            idx@ == fresh_indices(base as nat, (k - base) as nat),
        decreases coords.len() - k,
    {
        idx.push(k);
        assert(idx@ =~= fresh_indices(base as nat, (k + 1 - base) as nat));
        k += 1;
    }
    idx
}

fn pending_end_exec(
    pm: Pending,
    coords: &mut Vec<Coord>,
    name: &String,
    parent: &String,
    value: String,
) -> (r: Pending)
    ensures
        (r@, coords_view(final(coords)@)) == pending_end(
            pm@,
            coords_view(old(coords)@),
            name@,
            parent@,
            value@,
        ),
{
    let Pending { name: pname, desc, when, mut points, mut lines } = pm;
    if str_is(name, "name") && str_is(parent, "Placemark") {
        Pending { name: value, desc, when, points, lines }
    } else if str_is(name, "description") && str_is(parent, "Placemark") {
        Pending { name: pname, desc: value, when, points, lines }
    } else if (str_is(name, "when") || str_is(name, "begin")) && when.is_none()
        && !value.as_str().is_empty() {
        Pending { name: pname, desc, when: Some(value), points, lines }
    } else if str_is(name, "coordinates") {
        let text = chars_of(value.as_str());
        let idx = push_coord_fields(&text, coords);
        if str_is(parent, "Point") {
            let mut idx = idx;
            points.append(&mut idx);
            Pending { name: pname, desc, when, points, lines }
        } else {
            let ghost before = lines_view(lines@);
            let ghost iv = idx@;
            lines.push(idx);
            assert(lines_view(lines@) =~= before.push(iv));
            Pending { name: pname, desc, when, points, lines }
        }
    } else {
        Pending { name: pname, desc, when, points, lines }
    }
}

fn group_key_exec(folders: &Vec<Option<String>>, doc_name: &Option<String>, stem: &str) -> (r:
    String)
    ensures
        r@ == group_key(opts_view(folders@), opt_view(*doc_name), stem@),
{
    let mut i = folders.len();
    assert(opts_view(folders@).take(i as int) =~= opts_view(folders@));
    while i > 0
        invariant
            i <= folders.len(),
            innermost(opts_view(folders@)) == innermost(opts_view(folders@).take(i as int)),
        decreases i,
    {
        let ghost pre = opts_view(folders@).take(i as int);
        assert(pre.last() == opt_view(folders@[i - 1]));
        assert(pre.drop_last() =~= opts_view(folders@).take(i - 1));
        match &folders[i - 1] {
            Some(n) => {
                return n.clone();
            },
            None => {},
        }
        i -= 1;
    }
    match doc_name {
        Some(n) => n.clone(),
        None => stem.to_owned(),
    }
}

fn start_exec(st: Reading, name: String) -> (r: Reading)
    ensures
        r@ == start_step(st@, name@),
{
    let Reading { mut folders, mut path, mut pending, text, doc_name, coords, placemarks } = st;
    let ghost fv = opts_view(folders@);
    let ghost pv = strings_view(path@);
    if str_is(&name, "Placemark") {
        pending = Some(
            Pending {
                name: String::new(),
                desc: String::new(),
                when: None,
                points: Vec::new(),
                lines: Vec::new(),
            },
        );
        assert(lines_view(Seq::<Vec<usize>>::empty()) =~= Seq::empty());
    } else if str_is(&name, "Folder") || str_is(&name, "Document") {
        folders.push(None);
        assert(opts_view(folders@) =~= fv.push(None));
    }
    let ghost nv = name@;
    path.push(name);
    assert(strings_view(path@) =~= pv.push(nv));
    Reading { folders, path, pending, text: String::new(), doc_name, coords, placemarks }
}

fn end_exec(st: Reading, name: String, stem: &str) -> (r: Reading)
    ensures
        r@ == end_step(st@, name@, stem@),
{
    let ghost s0 = st@;
    let Reading { mut folders, mut path, pending, text, mut doc_name, mut coords, mut placemarks } =
        st;
    let parent = if path.len() >= 2 {
        path[path.len() - 2].clone()
    } else {
        String::new()
    };
    assert(parent@ == parent_of(s0.path));
    let value = text;
    let mut pending = pending;
    match pending {
        Some(pm) => {
            let pm2 = pending_end_exec(pm, &mut coords, &name, &parent, value);
            pending = Some(pm2);
        },
        None => {
            if str_is(&name, "name") && (str_is(&parent, "Folder") || str_is(&parent, "Document")) {
                if str_is(&parent, "Document") && doc_name.is_none() {
                    doc_name = Some(value.clone());
                }
                if folders.len() > 0 {
                    let last = folders.len() - 1;
                    let ghost fv = opts_view(folders@);
                    let ghost vv = value@;
                    folders.set(last, Some(value));
                    assert(opts_view(folders@) =~= fv.update(last as int, Some(vv)));
                }
            }
            pending = None;
        },
    }
    let ghost s2 = ReadingV {
        folders: opts_view(folders@),
        path: strings_view(path@),
        pending: pending_view(pending),
        text: Seq::empty(),
        doc_name: opt_view(doc_name),
        coords: coords_view(coords@),
        placemarks: placemarks_view(placemarks@),
    };
    if str_is(&name, "Placemark") {
        let taken = pending.take();
        match taken {
            Some(pm) => {
                let group = group_key_exec(&folders, &doc_name, stem);
                let Pending { name: pname, desc, when, points, lines } = pm;
                let ghost before = placemarks_view(placemarks@);
                let p = Placemark { group, name: pname, when, desc, points, lines };
                let ghost p_view = p@;
                placemarks.push(p);
                assert(placemarks_view(placemarks@) =~= before.push(p_view));
            },
            None => {},
        }
    } else if str_is(&name, "Folder") || str_is(&name, "Document") {
        if folders.len() > 0 {
            let ghost fv = opts_view(folders@);
            folders.pop();
            assert(opts_view(folders@) =~= fv.drop_last());
        }
    }
    if path.len() > 0 {
        let ghost pv = strings_view(path@);
        path.pop();
        assert(strings_view(path@) =~= pv.drop_last());
    }
    Reading { folders, path, pending, text: String::new(), doc_name, coords, placemarks }
}

/// One event applied to the reader.
fn step_exec(st: Reading, ev: XmlEvent, stem: &str) -> (r: Reading)
    ensures
        r@ == step(st@, ev@, stem@),
{
    match ev {
        XmlEvent::Start(n) => start_exec(st, n),
        XmlEvent::End(n) => end_exec(st, n, stem),
        XmlEvent::Text(t) => {
            let mut st = st;
            st.text.append(t.as_str());
            st
        },
        XmlEvent::CData(t) => {
            let mut st = st;
            st.text.append(t.as_str());
            st
        },
        _ => st,
    }
}

impl Reading {
    /// The reader after one more event.
    pub fn step(self, ev: XmlEvent, stem: &str) -> (r: Reading)
        ensures
            r@ == step(self@, ev@, stem@),
    {
        step_exec(self, ev, stem)
    }

    /// A reader that has seen nothing yet.
    pub fn new() -> (r: Reading)
        ensures
            r@ == initial(),
    {
        let r = Reading {
            folders: Vec::new(),
            path: Vec::new(),
            pending: None,
            text: String::new(),
            doc_name: None,
            coords: Vec::new(),
            placemarks: Vec::new(),
        };
        assert(opts_view(r.folders@) =~= Seq::empty());
        assert(strings_view(r.path@) =~= Seq::empty());
        assert(coords_view(r.coords@) =~= Seq::empty());
        assert(placemarks_view(r.placemarks@) =~= Seq::empty());
        r
    }

    /// The document the reader holds once the input has ended.
    pub fn finish(self, stem: &str) -> (d: Document)
        ensures
            d@ == finish(self@, stem@),
    {
        let name = match self.doc_name {
            Some(n) => n,
            None => stem.to_owned(),
        };
        Document { name, coords: self.coords, placemarks: self.placemarks }
    }
}

proof fn lemma_first_terminal_push(s: Seq<EventV>, e: EventV, i: int)
    requires
        0 <= i <= s.len(),
        first_terminal(s, i) is None,
    ensures
        first_terminal(s.push(e), i) == if is_terminal(e) {
            Some(s.len() as int)
        } else {
            None::<int>
        },
    decreases s.len() - i,
{
    assert(s.push(e)[s.len() as int] == e);
    if i < s.len() {
        assert(s.push(e)[i] == s[i]);
        lemma_first_terminal_push(s, e, i + 1);
    }
}

proof fn lemma_run_push(s: Seq<EventV>, e: EventV, stem: Seq<char>)
    ensures
        run(s.push(e), stem) == step(run(s, stem), e, stem),
{
    assert(s.push(e).drop_last() =~= s);
}

fn event_clone(e: &XmlEvent) -> (r: XmlEvent)
    ensures
        r@ == e@,
{
    match e {
        XmlEvent::Start(s) => XmlEvent::Start(s.clone()),
        XmlEvent::End(s) => XmlEvent::End(s.clone()),
        XmlEvent::Text(s) => XmlEvent::Text(s.clone()),
        XmlEvent::CData(s) => XmlEvent::CData(s.clone()),
        XmlEvent::Eof => XmlEvent::Eof,
        XmlEvent::Other => XmlEvent::Other,
        XmlEvent::Failed(s) => XmlEvent::Failed(s.clone()),
    }
}

fn failure(m: &String) -> (e: String)
    ensures
        e@ == failure_prefix() + m@,
{
    let mut e = String::new();
    e.append("not parseable as KML: ");
    e.append(m.as_str());
    e
}

fn unfinished() -> (e: String)
    ensures
        e@ == unfinished_message(),
{
    let mut e = String::new();
    e.append("not parseable as KML: the reader did not reach the end of the input");
    e
}

/// Reads a run of events: the document collected before the first end of
/// input, or the first error.
pub fn read_events(events: &Vec<XmlEvent>, stem: &str) -> (r: Result<Document, String>)
    ensures
        result_view(r) == outcome(events@.map_values(|e: XmlEvent| e@), stem@),
        r matches Ok(d) ==> document_indices_ok(d@),
{
    let ghost evs = events@.map_values(|e: XmlEvent| e@);
    let mut st = Reading::new();
    let mut i: usize = 0;
    assert(evs.take(0) =~= Seq::empty());
    while i < events.len()
        invariant
            evs == events@.map_values(|e: XmlEvent| e@),
            i <= events.len(),
            st@ == run(evs.take(i as int), stem@),
            first_terminal(evs.take(i as int), 0) is None,
        decreases events.len() - i,
    {
        let ghost pre = evs.take(i as int);
        assert(evs.take(i + 1) =~= pre.push(evs[i as int]));
        proof {
            lemma_first_terminal_push(pre, evs[i as int], 0);
            lemma_first_terminal_prefix(evs, i as int);
        }
        match &events[i] {
            XmlEvent::Eof => {
                assert(first_terminal(evs, 0) == Some(i as int));
                let d = st.finish(stem);
                assert(outcome(evs, stem@) == Ok::<DocumentV, Seq<char>>(d@));
                proof {
                    lemma_outcome_indices(evs, stem@);
                }
                return Ok(d);
            },
            XmlEvent::Failed(m) => {
                assert(first_terminal(evs, 0) == Some(i as int));
                return Err(failure(m));
            },
            _ => {},
        }
        let ev = event_clone(&events[i]);
        proof {
            lemma_run_push(pre, evs[i as int], stem@);
        }
        st = st.step(ev, stem);
        i += 1;
    }
    assert(evs.take(i as int) =~= evs);
    Err(unfinished())
}

/// A prefix without an end of input or error decides where the first one is.
proof fn lemma_first_terminal_prefix(evs: Seq<EventV>, i: int)
    requires
        0 <= i < evs.len(),
        first_terminal(evs.take(i), 0) is None,
    ensures
        is_terminal(evs[i]) ==> first_terminal(evs, 0) == Some(i),
{
    lemma_first_terminal_take(evs, i, 0);
}

proof fn lemma_first_terminal_take(evs: Seq<EventV>, i: int, j: int)
    requires
        0 <= j <= i < evs.len(),
        first_terminal(evs.take(i), j) is None,
    ensures
        is_terminal(evs[i]) ==> first_terminal(evs, j) == Some(i),
    decreases i - j,
{
    if j < i {
        assert(evs.take(i)[j] == evs[j]);
        lemma_first_terminal_take(evs, i, j + 1);
    }
}

/// The event a raw quick-xml event stands for: names and CDATA are decoded
/// leniently, text is empty where its entities could not be resolved.
pub open spec fn decode_event(r: RawEventV) -> EventV {
    match r {
        RawEventV::Start(b) => EventV::Start(utf8_lossy(b)),
        RawEventV::End(b) => EventV::End(utf8_lossy(b)),
        RawEventV::Text(Some(t)) => EventV::Text(t),
        RawEventV::Text(None) => EventV::Text(Seq::empty()),
        RawEventV::CData(b) => EventV::CData(utf8_lossy(b)),
        RawEventV::Other => EventV::Other,
    }
}

/// How a run of quick-xml events ends: at the end of input, or with an error.
pub open spec fn end_event(err: Option<Seq<char>>) -> EventV {
    match err {
        Some(m) => EventV::Failed(m),
        None => EventV::Eof,
    }
}

/// The events the KML reader sees in a text, up to and including the end of
/// input or the first error.
pub open spec fn kml_events(text: Seq<char>) -> Seq<EventV> {
    kml_raw_events(text).0.map_values(|r: RawEventV| decode_event(r)).push(
        end_event(kml_raw_events(text).1),
    )
}

fn event_of(raw: &RawEvent) -> (r: XmlEvent)
    ensures
        r@ == decode_event(raw@),
{
    match raw {
        RawEvent::Start(b) => XmlEvent::Start(from_utf8_lossy(b.as_slice())),
        RawEvent::End(b) => XmlEvent::End(from_utf8_lossy(b.as_slice())),
        RawEvent::Text(Some(t)) => XmlEvent::Text(t.clone()),
        RawEvent::Text(None) => XmlEvent::Text(String::new()),
        RawEvent::CData(b) => XmlEvent::CData(from_utf8_lossy(b.as_slice())),
        RawEvent::Other => XmlEvent::Other,
    }
}

/// Reads a KML document: what `read_events` makes of the events quick-xml
/// reads from the text (text trimmed, end tags not matched against start
/// tags).
pub fn parse(text: &str, stem: &str) -> (r: Result<Document, String>)
    ensures
        result_view(r) == outcome(kml_events(text@), stem@),
        r matches Ok(d) ==> document_indices_ok(d@),
{
    let (raws, err) = read_raw_events(text);
    let ghost rv = raws_view(raws@);
    let mut events: Vec<XmlEvent> = Vec::new();
    for i in 0..raws.len()
        invariant
            rv == raws_view(raws@),
            events@.map_values(|e: XmlEvent| e@) == rv.take(i as int).map_values(
                |r: RawEventV| decode_event(r),
            ),
    {
        let ev = event_of(&raws[i]);
        let ghost before = events@.map_values(|e: XmlEvent| e@);
        events.push(ev);
        assert(events@.map_values(|e: XmlEvent| e@) =~= before.push(ev@));
        assert(rv.take(i + 1).map_values(|r: RawEventV| decode_event(r)) =~= rv.take(
            i as int,
        ).map_values(|r: RawEventV| decode_event(r)).push(decode_event(rv[i as int])));
    }
    assert(rv.take(raws.len() as int) =~= rv);
    let ghost before = events@.map_values(|e: XmlEvent| e@);
    match err {
        Some(m) => events.push(XmlEvent::Failed(m)),
        None => events.push(XmlEvent::Eof),
    }
    assert(events@.map_values(|e: XmlEvent| e@) =~= before.push(events@.last()@));
    assert(events@.map_values(|e: XmlEvent| e@) =~= kml_events(text@));
    read_events(&events, stem)
}

/// Reads a KML document from the file's bytes: decoded as UTF-8, with any
/// invalid sequence replaced, then read as `parse` reads text.
pub fn parse_bytes(bytes: &[u8], stem: &str) -> (r: Result<Document, String>)
    ensures
        result_view(r) == outcome(kml_events(utf8_lossy(bytes@)), stem@),
        r matches Ok(d) ==> document_indices_ok(d@),
{
    let text = from_utf8_lossy(bytes);
    parse(text.as_str(), stem)
}

// ----------------------------------------------------------------------------
// Groups

/// One placemark on the map: a position (an index into the document's
/// coordinate table), and whatever the KML hung off it.
pub struct Mark {
    pub name: String,
    /// The coordinate field the position was read from.
    pub at: usize,
    /// Instant from `<TimeStamp>` or the start of a `<TimeSpan>`.
    pub when: Option<String>,
    /// Balloon HTML, with any picture reference rewritten to the site's copy.
    pub desc: String,
    /// Site-relative path to the extracted picture, e.g. `images/plate.jpg`.
    pub image: Option<String>,
    /// Anchor id, assigned once every source has been read.
    pub uid: String,
}

/// A KML folder. For a platescan export, one clip.
pub struct Group {
    pub name: String,
    pub marks: Vec<Mark>,
    /// Each route is an ordered run of coordinate indices.
    pub routes: Vec<Vec<usize>>,
    /// Assigned once every source has been read.
    pub color: String,
}

pub struct MarkV {
    pub name: Seq<char>,
    pub at: usize,
    pub when: Option<Seq<char>>,
    pub desc: Seq<char>,
    pub image: Option<Seq<char>>,
    pub uid: Seq<char>,
}

pub struct GroupV {
    pub name: Seq<char>,
    pub marks: Seq<MarkV>,
    pub routes: Seq<Seq<usize>>,
    pub color: Seq<char>,
}

impl View for Mark {
    type V = MarkV;

    open spec fn view(&self) -> MarkV {
        MarkV {
            name: self.name@,
            at: self.at,
            when: opt_view(self.when),
            desc: self.desc@,
            image: opt_view(self.image),
            uid: self.uid@,
        }
    }
}

pub open spec fn marks_view(v: Seq<Mark>) -> Seq<MarkV> {
    v.map_values(|m: Mark| m@)
}

impl View for Group {
    type V = GroupV;

    open spec fn view(&self) -> GroupV {
        GroupV {
            name: self.name@,
            marks: marks_view(self.marks@),
            routes: lines_view(self.routes@),
            color: self.color@,
        }
    }
}

pub open spec fn groups_view(v: Seq<Group>) -> Seq<GroupV> {
    v.map_values(|g: Group| g@)
}

pub open spec fn usable(valid: Seq<bool>, p: usize) -> bool {
    p < valid.len() && valid[p as int]
}

/// A mark for every usable point of the placemark, in order.
pub open spec fn point_marks(pm: PlacemarkV, pts: Seq<usize>, valid: Seq<bool>) -> Seq<MarkV>
    decreases pts.len(),
{
    if pts.len() == 0 {
        Seq::empty()
    } else {
        let rest = point_marks(pm, pts.drop_last(), valid);
        if usable(valid, pts.last()) {
            rest.push(
                MarkV {
                    name: pm.name,
                    at: pts.last(),
                    when: pm.when,
                    desc: pm.desc,
                    image: None,
                    uid: Seq::empty(),
                },
            )
        } else {
            rest
        }
    }
}

/// The usable fields of a line, in order.
pub open spec fn usable_only(line: Seq<usize>, valid: Seq<bool>) -> Seq<usize>
    decreases line.len(),
{
    if line.len() == 0 {
        line
    } else {
        let rest = usable_only(line.drop_last(), valid);
        if usable(valid, line.last()) {
            rest.push(line.last())
        } else {
            rest
        }
    }
}

/// The routes of a placemark: each line with more than one usable field.
pub open spec fn routes_of(lines: Seq<Seq<usize>>, valid: Seq<bool>) -> Seq<Seq<usize>>
    decreases lines.len(),
{
    if lines.len() == 0 {
        Seq::empty()
    } else {
        let rest = routes_of(lines.drop_last(), valid);
        let line = usable_only(lines.last(), valid);
        if line.len() > 1 {
            rest.push(line)
        } else {
            rest
        }
    }
}

/// The position of the group named `key` from `i` on, or the length.
pub open spec fn group_index(gs: Seq<GroupV>, key: Seq<char>, i: int) -> int
    decreases gs.len() - i,
{
    if i < 0 || i >= gs.len() {
        gs.len() as int
    } else if gs[i].name == key {
        i
    } else {
        group_index(gs, key, i + 1)
    }
}

/// A placemark added to the groups: its marks and routes go to the group of
/// its key, which is created (at the end) when it is new.
pub open spec fn add_placemark(gs: Seq<GroupV>, pm: PlacemarkV, valid: Seq<bool>) -> Seq<GroupV> {
    let i = group_index(gs, pm.group, 0);
    let base = if i < gs.len() {
        gs[i]
    } else {
        GroupV { name: pm.group, marks: Seq::empty(), routes: Seq::empty(), color: Seq::empty() }
    };
    let g = GroupV {
        marks: base.marks + point_marks(pm, pm.points, valid),
        routes: base.routes + routes_of(pm.lines, valid),
        ..base
    };
    if i < gs.len() {
        gs.update(i, g)
    } else {
        gs.push(g)
    }
}

pub open spec fn collect(pms: Seq<PlacemarkV>, valid: Seq<bool>) -> Seq<GroupV>
    decreases pms.len(),
{
    if pms.len() == 0 {
        Seq::empty()
    } else {
        add_placemark(collect(pms.drop_last(), valid), pms.last(), valid)
    }
}

pub open spec fn group_is_empty(g: GroupV) -> bool {
    g.marks.len() == 0 && g.routes.len() == 0
}

pub open spec fn non_empty(gs: Seq<GroupV>) -> Seq<GroupV>
    decreases gs.len(),
{
    if gs.len() == 0 {
        gs
    } else {
        let rest = non_empty(gs.drop_last());
        if group_is_empty(gs.last()) {
            rest
        } else {
            rest.push(gs.last())
        }
    }
}

/// The groups of a document, given which coordinate fields are usable
/// positions: one per folder (or document) that ends up with a mark or a
/// route, in the order their first placemark appears.
pub open spec fn groups_of(doc: DocumentV, valid: Seq<bool>) -> Seq<GroupV> {
    non_empty(collect(doc.placemarks, valid))
}

fn is_usable(valid: &Vec<bool>, p: usize) -> (r: bool)
    ensures
        r == usable(valid@, p),
{
    p < valid.len() && valid[p]
}

fn opt_clone(o: &Option<String>) -> (r: Option<String>)
    ensures
        opt_view(r) == opt_view(*o),
{
    match o {
        Some(s) => Some(s.clone()),
        None => None,
    }
}

fn placemark_marks(pm: &Placemark, valid: &Vec<bool>) -> (r: Vec<Mark>)
    ensures
        marks_view(r@) == point_marks(pm@, pm.points@, valid@),
{
    let mut r: Vec<Mark> = Vec::new();
    let ghost pts = pm.points@;
    assert(marks_view(r@) =~= point_marks(pm@, pts.take(0), valid@));
    for i in 0..pm.points.len()
        invariant
            pts == pm.points@,
            marks_view(r@) == point_marks(pm@, pts.take(i as int), valid@),
    {
        assert(pts.take(i + 1).drop_last() =~= pts.take(i as int));
        assert(pts.take(i + 1).last() == pts[i as int]);
        let p = pm.points[i];
        if is_usable(valid, p) {
            let ghost before = marks_view(r@);
            let m = Mark {
                name: pm.name.clone(),
                at: p,
                when: opt_clone(&pm.when),
                desc: pm.desc.clone(),
                image: None,
                uid: String::new(),
            };
            let ghost mv = m@;
            r.push(m);
            assert(marks_view(r@) =~= before.push(mv));
        }
    }
    assert(pts.take(pts.len() as int) =~= pts);
    r
}

fn usable_line(line: &Vec<usize>, valid: &Vec<bool>) -> (r: Vec<usize>)
    ensures
        r@ == usable_only(line@, valid@),
{
    let mut r: Vec<usize> = Vec::new();
    assert(r@ =~= usable_only(line@.take(0), valid@));
    for i in 0..line.len()
        invariant
            r@ == usable_only(line@.take(i as int), valid@),
    {
        assert(line@.take(i + 1).drop_last() =~= line@.take(i as int));
        assert(line@.take(i + 1).last() == line@[i as int]);
        if is_usable(valid, line[i]) {
            r.push(line[i]);
        }
    }
    assert(line@.take(line.len() as int) =~= line@);
    r
}

fn placemark_routes(pm: &Placemark, valid: &Vec<bool>) -> (r: Vec<Vec<usize>>)
    ensures
        lines_view(r@) == routes_of(lines_view(pm.lines@), valid@),
{
    let mut r: Vec<Vec<usize>> = Vec::new();
    let ghost ls = lines_view(pm.lines@);
    assert(lines_view(r@) =~= routes_of(ls.take(0), valid@));
    for i in 0..pm.lines.len()
        invariant
            ls == lines_view(pm.lines@),
            lines_view(r@) == routes_of(ls.take(i as int), valid@),
    {
        assert(ls.take(i + 1).drop_last() =~= ls.take(i as int));
        assert(ls.take(i + 1).last() == pm.lines@[i as int]@);
        let line = usable_line(&pm.lines[i], valid);
        if line.len() > 1 {
            let ghost before = lines_view(r@);
            let ghost lv = line@;
            r.push(line);
            assert(lines_view(r@) =~= before.push(lv));
        }
    }
    assert(ls.take(ls.len() as int) =~= ls);
    r
}

fn add_placemark_exec(groups: &mut Vec<Group>, pm: &Placemark, valid: &Vec<bool>)
    ensures
        groups_view(final(groups)@) == add_placemark(groups_view(old(groups)@), pm@, valid@),
{
    let ghost gv = groups_view(groups@);
    let mut i: usize = 0;
    while i < groups.len() && groups[i].name != pm.group
        invariant
            gv == groups_view(groups@),
            i <= groups.len(),
            group_index(gv, pm.group@, 0) == group_index(gv, pm.group@, i as int),
        decreases groups.len() - i,
    {
        i += 1;
    }
    let mut marks = placemark_marks(pm, valid);
    let mut routes = placemark_routes(pm, valid);
    let ghost mv = marks_view(marks@);
    let ghost rv = lines_view(routes@);
    if i < groups.len() {
        let mut g = groups.remove(i);
        let ghost mv0 = marks_view(g.marks@);
        let ghost rv0 = lines_view(g.routes@);
        g.marks.append(&mut marks);
        g.routes.append(&mut routes);
        assert(marks_view(g.marks@) =~= mv0 + mv);
        assert(lines_view(g.routes@) =~= rv0 + rv);
        let ghost gnew = g@;
        groups.insert(i, g);
        assert(groups_view(groups@) =~= gv.update(i as int, gnew));
    } else {
        let g = Group { name: pm.group.clone(), marks, routes, color: String::new() };
        let ghost gnew = g@;
        groups.push(g);
        assert(groups_view(groups@) =~= gv.push(gnew));
    }
}

/// Builds the groups of a document. `valid[i]` says whether coordinate field
/// `i` of the document is a usable position; fields past its end are not.
pub fn into_groups(doc: &Document, valid: &Vec<bool>) -> (gs: Vec<Group>)
    ensures
        groups_view(gs@) == groups_of(doc@, valid@),
        groups_ok(groups_view(gs@), valid@),
{
    proof {
        lemma_groups_ok(doc@, valid@);
    }
    let mut all: Vec<Group> = Vec::new();
    let ghost pms = placemarks_view(doc.placemarks@);
    assert(groups_view(all@) =~= collect(pms.take(0), valid@));
    for i in 0..doc.placemarks.len()
        invariant
            pms == placemarks_view(doc.placemarks@),
            groups_view(all@) == collect(pms.take(i as int), valid@),
    {
        assert(pms.take(i + 1).drop_last() =~= pms.take(i as int));
        assert(pms.take(i + 1).last() == doc.placemarks@[i as int]@);
        add_placemark_exec(&mut all, &doc.placemarks[i], valid);
    }
    assert(pms.take(pms.len() as int) =~= pms);
    let ghost gv = groups_view(all@);
    let mut out: Vec<Group> = Vec::new();
    let mut k: usize = 0;
    let n = all.len();
    assert(groups_view(out@) =~= non_empty(gv.take(0)));
    assert(gv.skip(0) =~= gv);
    while k < n
        invariant
            n == gv.len(),
            k <= n,
            all.len() == n - k,
            groups_view(all@) == gv.skip(k as int),
            groups_view(out@) == non_empty(gv.take(k as int)),
        decreases n - k,
    {
        let ghost old_all = all@;
        assert(gv.take(k + 1).drop_last() =~= gv.take(k as int));
        assert(gv.take(k + 1).last() == gv[k as int]);
        assert(groups_view(all@)[0] == gv[k as int]);
        let g = all.remove(0);
        assert(all@ =~= old_all.subrange(1, old_all.len() as int));
        assert forall|j: int| 0 <= j < all.len() implies groups_view(all@)[j] == gv.skip(k + 1)[j] by {
            assert(groups_view(old_all)[j + 1] == gv.skip(k as int)[j + 1]);
        }
        assert(groups_view(all@) =~= gv.skip(k + 1));
        if g.marks.len() > 0 || g.routes.len() > 0 {
            let ghost before = groups_view(out@);
            let ghost gg = g@;
            out.push(g);
            assert(groups_view(out@) =~= before.push(gg));
        }
        k += 1;
    }
    assert(gv.take(n as int) =~= gv);
    out
}

/// The routes' positions, one after another.
pub open spec fn flatten(rs: Seq<Seq<usize>>) -> Seq<usize>
    decreases rs.len(),
{
    if rs.len() == 0 {
        Seq::empty()
    } else {
        flatten(rs.drop_last()) + rs.last()
    }
}

/// Every position the group puts on the map: its marks' first, then the
/// routes'.
pub open spec fn group_points(g: GroupV) -> Seq<usize> {
    g.marks.map_values(|m: MarkV| m.at) + flatten(g.routes)
}

impl Group {
    /// A group with nothing to draw.
    pub fn is_empty(&self) -> (r: bool)
        ensures
            r == group_is_empty(self@),
    {
        self.marks.len() == 0 && self.routes.len() == 0
    }

    /// Every position the group puts on the map, for bounds and centring, as
    /// indices into the coordinate table.
    pub fn points(&self) -> (r: Vec<usize>)
        ensures
            r@ == group_points(self@),
    {
        let mut r: Vec<usize> = Vec::new();
        let ghost ms = marks_view(self.marks@);
        for i in 0..self.marks.len()
            invariant
                ms == marks_view(self.marks@),
                r@ == ms.take(i as int).map_values(|m: MarkV| m.at),
        {
            r.push(self.marks[i].at);
            assert(r@ =~= ms.take(i + 1).map_values(|m: MarkV| m.at));
        }
        assert(ms.take(ms.len() as int) =~= ms);
        let ghost rs = lines_view(self.routes@);
        let ghost head = r@;
        assert(flatten(rs.take(0)) =~= Seq::empty());
        for k in 0..self.routes.len()
            invariant
                rs == lines_view(self.routes@),
                r@ == head + flatten(rs.take(k as int)),
        {
            assert(rs.take(k + 1).drop_last() =~= rs.take(k as int));
            assert(rs.take(k + 1).last() == self.routes@[k as int]@);
            let route = &self.routes[k];
            let ghost before = r@;
            for j in 0..route.len()
                invariant
                    r@ == before + route@.take(j as int),
            {
                r.push(route[j]);
                assert(route@.take(j + 1) =~= route@.take(j as int).push(route@[j as int]));
            }
            assert(route@.take(route.len() as int) =~= route@);
            assert(r@ =~= head + flatten(rs.take(k + 1)));
        }
        assert(rs.take(rs.len() as int) =~= rs);
        r
    }
}

// ----------------------------------------------------------------------------
// Laws of the reader and of the grouping

pub open spec fn indices_below(v: Seq<usize>, n: nat) -> bool {
    forall|k: int| 0 <= k < v.len() ==> (#[trigger] v[k]) < n
}

pub open spec fn lines_below(ls: Seq<Seq<usize>>, n: nat) -> bool {
    forall|k: int| 0 <= k < ls.len() ==> indices_below(#[trigger] ls[k], n)
}

pub open spec fn placemark_below(pm: PlacemarkV, n: nat) -> bool {
    indices_below(pm.points, n) && lines_below(pm.lines, n)
}

/// Every index a document holds is a position in its coordinate table.
pub open spec fn document_indices_ok(d: DocumentV) -> bool {
    forall|k: int|
        0 <= k < d.placemarks.len() ==> placemark_below(#[trigger] d.placemarks[k], d.coords.len())
}

pub open spec fn reading_indices_ok(st: ReadingV) -> bool {
    &&& forall|k: int|
        0 <= k < st.placemarks.len() ==> placemark_below(
            #[trigger] st.placemarks[k],
            st.coords.len(),
        )
    &&& match st.pending {
        Some(pm) => indices_below(pm.points, st.coords.len()) && lines_below(
            pm.lines,
            st.coords.len(),
        ),
        None => true,
    }
}

proof fn lemma_pending_end_indices(
    pm: PendingV,
    coords: Seq<CoordV>,
    name: Seq<char>,
    parent: Seq<char>,
    value: Seq<char>,
)
    requires
        indices_below(pm.points, coords.len()),
        lines_below(pm.lines, coords.len()),
    ensures
        ({
            let r = pending_end(pm, coords, name, parent, value);
            &&& coords.len() <= r.1.len()
            &&& indices_below(r.0.points, r.1.len())
            &&& lines_below(r.0.lines, r.1.len())
        }),
{
    let r = pending_end(pm, coords, name, parent, value);
    if !(name == "name"@ && parent == "Placemark"@) && !(name == "description"@ && parent
        == "Placemark"@) && !((name == "when"@ || name == "begin"@) && pm.when is None
        && value.len() > 0) && name == "coordinates"@ {
        let cs = coord_fields(value);
        let idx = fresh_indices(coords.len(), cs.len());
        assert(indices_below(idx, r.1.len()));
        if parent == "Point"@ {
            assert forall|k: int| 0 <= k < r.0.points.len() implies (#[trigger] r.0.points[k])
                < r.1.len() by {
                if k < pm.points.len() {
                    assert(r.0.points[k] == pm.points[k]);
                } else {
                    assert(r.0.points[k] == idx[k - pm.points.len()]);
                }
            }
        } else {
            assert forall|k: int| 0 <= k < r.0.lines.len() implies indices_below(
                #[trigger] r.0.lines[k],
                r.1.len(),
            ) by {
                if k < pm.lines.len() {
                    assert(r.0.lines[k] == pm.lines[k]);
                    assert(indices_below(pm.lines[k], coords.len()));
                }
            }
        }
    }
}

proof fn lemma_step_indices(st: ReadingV, ev: EventV, stem: Seq<char>)
    requires
        reading_indices_ok(st),
    ensures
        reading_indices_ok(step(st, ev, stem)),
{
    match ev {
        EventV::End(name) => {
            let parent = parent_of(st.path);
            let value = st.text;
            if let Some(pm) = st.pending {
                lemma_pending_end_indices(pm, st.coords, name, parent, value);
                let r = pending_end(pm, st.coords, name, parent, value);
                assert forall|k: int| 0 <= k < st.placemarks.len() implies placemark_below(
                    #[trigger] st.placemarks[k],
                    r.1.len(),
                ) by {
                    assert(placemark_below(st.placemarks[k], st.coords.len()));
                }
                let s2 = ReadingV { pending: Some(r.0), coords: r.1, text: Seq::empty(), ..st };
                if name == "Placemark"@ {
                    let key = group_key(s2.folders, s2.doc_name, stem);
                    let ps = s2.placemarks.push(placemark_of(r.0, key));
                    assert forall|k: int| 0 <= k < ps.len() implies placemark_below(
                        #[trigger] ps[k],
                        r.1.len(),
                    ) by {
                        if k < st.placemarks.len() {
                            assert(ps[k] == st.placemarks[k]);
                        }
                    }
                }
            }
        },
        _ => {},
    }
}

proof fn lemma_run_indices(evs: Seq<EventV>, stem: Seq<char>)
    ensures
        reading_indices_ok(run(evs, stem)),
    decreases evs.len(),
{
    if evs.len() > 0 {
        lemma_run_indices(evs.drop_last(), stem);
        lemma_step_indices(run(evs.drop_last(), stem), evs.last(), stem);
    }
}

/// Whatever the events, a document read from them only points into its own
/// coordinate table.
pub proof fn lemma_outcome_indices(evs: Seq<EventV>, stem: Seq<char>)
    ensures
        outcome(evs, stem) matches Ok(d) ==> document_indices_ok(d),
{
    if let Some(t) = first_terminal(evs, 0) {
        lemma_run_indices(evs.take(t), stem);
    }
}

pub open spec fn route_ok(r: Seq<usize>, valid: Seq<bool>) -> bool {
    r.len() > 1 && forall|k: int| 0 <= k < r.len() ==> usable(valid, #[trigger] r[k])
}

pub open spec fn group_ok(g: GroupV, valid: Seq<bool>) -> bool {
    &&& forall|k: int| 0 <= k < g.marks.len() ==> usable(valid, (#[trigger] g.marks[k]).at)
    &&& forall|k: int| 0 <= k < g.routes.len() ==> route_ok(#[trigger] g.routes[k], valid)
}

pub open spec fn names_distinct(gs: Seq<GroupV>) -> bool {
    forall|i: int, j: int| 0 <= i < j < gs.len() ==> (#[trigger] gs[i]).name != (#[trigger] gs[j]).name
}

/// What the groups of any document satisfy: each has a mark or a route, no
/// two share a name, every mark stands on a usable position, and every route
/// runs through at least two usable positions and nothing else.
pub open spec fn groups_ok(gs: Seq<GroupV>, valid: Seq<bool>) -> bool {
    &&& forall|k: int| 0 <= k < gs.len() ==> !group_is_empty(#[trigger] gs[k])
    &&& forall|k: int| 0 <= k < gs.len() ==> group_ok(#[trigger] gs[k], valid)
    &&& names_distinct(gs)
}

proof fn lemma_point_marks_ok(pm: PlacemarkV, pts: Seq<usize>, valid: Seq<bool>)
    ensures
        forall|k: int|
            0 <= k < point_marks(pm, pts, valid).len() ==> usable(
                valid,
                (#[trigger] point_marks(pm, pts, valid)[k]).at,
            ),
    decreases pts.len(),
{
    if pts.len() > 0 {
        lemma_point_marks_ok(pm, pts.drop_last(), valid);
        let rest = point_marks(pm, pts.drop_last(), valid);
        assert forall|k: int| 0 <= k < point_marks(pm, pts, valid).len() implies usable(
            valid,
            (#[trigger] point_marks(pm, pts, valid)[k]).at,
        ) by {
            if k < rest.len() {
                assert(point_marks(pm, pts, valid)[k] == rest[k]);
            }
        }
    }
}

proof fn lemma_usable_only(line: Seq<usize>, valid: Seq<bool>)
    ensures
        forall|k: int|
            0 <= k < usable_only(line, valid).len() ==> usable(
                valid,
                #[trigger] usable_only(line, valid)[k],
            ),
    decreases line.len(),
{
    if line.len() > 0 {
        lemma_usable_only(line.drop_last(), valid);
        let rest = usable_only(line.drop_last(), valid);
        assert forall|k: int| 0 <= k < usable_only(line, valid).len() implies usable(
            valid,
            #[trigger] usable_only(line, valid)[k],
        ) by {
            if k < rest.len() {
                assert(usable_only(line, valid)[k] == rest[k]);
            }
        }
    }
}

proof fn lemma_routes_ok(lines: Seq<Seq<usize>>, valid: Seq<bool>)
    ensures
        forall|k: int|
            0 <= k < routes_of(lines, valid).len() ==> route_ok(
                #[trigger] routes_of(lines, valid)[k],
                valid,
            ),
    decreases lines.len(),
{
    if lines.len() > 0 {
        lemma_routes_ok(lines.drop_last(), valid);
        lemma_usable_only(lines.last(), valid);
        let rest = routes_of(lines.drop_last(), valid);
        assert forall|k: int| 0 <= k < routes_of(lines, valid).len() implies route_ok(
            #[trigger] routes_of(lines, valid)[k],
            valid,
        ) by {
            if k < rest.len() {
                assert(routes_of(lines, valid)[k] == rest[k]);
            }
        }
    }
}

proof fn lemma_group_index(gs: Seq<GroupV>, key: Seq<char>, i: int)
    requires
        0 <= i <= gs.len(),
    ensures
        i <= group_index(gs, key, i) <= gs.len(),
        group_index(gs, key, i) < gs.len() ==> gs[group_index(gs, key, i)].name == key,
        group_index(gs, key, i) == gs.len() ==> forall|j: int|
            i <= j < gs.len() ==> (#[trigger] gs[j]).name != key,
    decreases gs.len() - i,
{
    if i < gs.len() && gs[i].name != key {
        lemma_group_index(gs, key, i + 1);
    }
}

pub open spec fn collected_ok(gs: Seq<GroupV>, valid: Seq<bool>) -> bool {
    &&& forall|k: int| 0 <= k < gs.len() ==> group_ok(#[trigger] gs[k], valid)
    &&& names_distinct(gs)
}

proof fn lemma_add_placemark_ok(gs: Seq<GroupV>, pm: PlacemarkV, valid: Seq<bool>)
    requires
        collected_ok(gs, valid),
    ensures
        collected_ok(add_placemark(gs, pm, valid), valid),
{
    lemma_group_index(gs, pm.group, 0);
    lemma_point_marks_ok(pm, pm.points, valid);
    lemma_routes_ok(pm.lines, valid);
    let i = group_index(gs, pm.group, 0);
    let base = if i < gs.len() {
        gs[i]
    } else {
        GroupV { name: pm.group, marks: Seq::empty(), routes: Seq::empty(), color: Seq::empty() }
    };
    let ms = point_marks(pm, pm.points, valid);
    let rs = routes_of(pm.lines, valid);
    let g = GroupV { marks: base.marks + ms, routes: base.routes + rs, ..base };
    assert(group_ok(g, valid)) by {
        assert forall|k: int| 0 <= k < g.marks.len() implies usable(
            valid,
            (#[trigger] g.marks[k]).at,
        ) by {
            if k < base.marks.len() {
                assert(g.marks[k] == base.marks[k]);
            } else {
                assert(g.marks[k] == ms[k - base.marks.len()]);
            }
        }
        assert forall|k: int| 0 <= k < g.routes.len() implies route_ok(
            #[trigger] g.routes[k],
            valid,
        ) by {
            if k < base.routes.len() {
                assert(g.routes[k] == base.routes[k]);
            } else {
                assert(g.routes[k] == rs[k - base.routes.len()]);
            }
        }
    }
    let r = add_placemark(gs, pm, valid);
    assert forall|k: int| 0 <= k < r.len() implies group_ok(#[trigger] r[k], valid) by {
        if k != i {
            assert(r[k] == gs[k]);
        }
    }
    assert forall|a: int, b: int| 0 <= a < b < r.len() implies (#[trigger] r[a]).name != (
    #[trigger] r[b]).name by {
        if a != i && b != i {
            assert(r[a] == gs[a] && r[b] == gs[b]);
        } else if a == i {
            assert(r[b] == gs[b]);
        } else {
            assert(r[a] == gs[a]);
        }
    }
}

proof fn lemma_collect_ok(pms: Seq<PlacemarkV>, valid: Seq<bool>)
    ensures
        collected_ok(collect(pms, valid), valid),
    decreases pms.len(),
{
    if pms.len() > 0 {
        lemma_collect_ok(pms.drop_last(), valid);
        lemma_add_placemark_ok(collect(pms.drop_last(), valid), pms.last(), valid);
    }
}

proof fn lemma_non_empty_ok(gs: Seq<GroupV>, valid: Seq<bool>)
    requires
        collected_ok(gs, valid),
    ensures
        groups_ok(non_empty(gs), valid),
        forall|j: int|
            0 <= j < non_empty(gs).len() ==> exists|k: int|
                0 <= k < gs.len() && #[trigger] non_empty(gs)[j] == gs[k],
    decreases gs.len(),
{
    if gs.len() > 0 {
        let init = gs.drop_last();
        assert(collected_ok(init, valid)) by {
            assert forall|k: int| 0 <= k < init.len() implies group_ok(#[trigger] init[k], valid) by {
                assert(init[k] == gs[k]);
            }
            assert forall|a: int, b: int| 0 <= a < b < init.len() implies (#[trigger] init[a]).name
                != (#[trigger] init[b]).name by {
                assert(init[a] == gs[a] && init[b] == gs[b]);
            }
        }
        lemma_non_empty_ok(init, valid);
        let rest = non_empty(init);
        let r = non_empty(gs);
        assert forall|j: int| 0 <= j < r.len() implies exists|k: int|
            0 <= k < gs.len() && #[trigger] r[j] == gs[k] by {
            if j < rest.len() {
                assert(r[j] == rest[j]);
                let k = choose|k: int| 0 <= k < init.len() && rest[j] == init[k];
                assert(init[k] == gs[k]);
            } else {
                assert(r[j] == gs[gs.len() - 1]);
            }
        }
        if !group_is_empty(gs.last()) {
            assert forall|a: int, b: int| 0 <= a < b < r.len() implies (#[trigger] r[a]).name != (
            #[trigger] r[b]).name by {
                if b < rest.len() {
                    assert(r[a] == rest[a] && r[b] == rest[b]);
                } else {
                    assert(r[a] == rest[a]);
                    let k = choose|k: int| 0 <= k < init.len() && rest[a] == init[k];
                    assert(init[k] == gs[k]);
                    assert(gs[k].name != gs[gs.len() - 1].name);
                }
            }
            assert forall|k: int| 0 <= k < r.len() implies !group_is_empty(#[trigger] r[k])
                && group_ok(r[k], valid) by {
                if k < rest.len() {
                    assert(r[k] == rest[k]);
                }
            }
        }
    }
}

/// The grouping law: whatever the document and whichever fields are usable,
/// every group has something to draw, group names are distinct (each folder
/// is one group), marks stand on usable positions, and routes run through
/// two or more usable positions.
pub proof fn lemma_groups_ok(doc: DocumentV, valid: Seq<bool>)
    ensures
        groups_ok(groups_of(doc, valid), valid),
{
    lemma_collect_ok(doc.placemarks, valid);
    lemma_non_empty_ok(collect(doc.placemarks, valid), valid);
}

/// The group at `j` still carries what it carried, under the same name,
/// after a placemark is added.
proof fn lemma_add_placemark_keeps(gs: Seq<GroupV>, pm: PlacemarkV, valid: Seq<bool>, j: int)
    requires
        0 <= j < gs.len(),
    ensures
        j < add_placemark(gs, pm, valid).len(),
        add_placemark(gs, pm, valid)[j].name == gs[j].name,
        forall|r: Seq<usize>|
            gs[j].routes.contains(r) ==> #[trigger] add_placemark(gs, pm, valid)[j].routes.contains(
                r,
            ),
        forall|m: MarkV|
            gs[j].marks.contains(m) ==> #[trigger] add_placemark(gs, pm, valid)[j].marks.contains(m),
{
    lemma_group_index(gs, pm.group, 0);
    let i = group_index(gs, pm.group, 0);
    let out = add_placemark(gs, pm, valid);
    if i == j {
        assert forall|r: Seq<usize>| gs[j].routes.contains(r) implies #[trigger] out[j].routes.contains(
            r,
        ) by {
            let t = choose|t: int| 0 <= t < gs[j].routes.len() && gs[j].routes[t] == r;
            assert(out[j].routes[t] == r);
        }
        assert forall|m: MarkV| gs[j].marks.contains(m) implies #[trigger] out[j].marks.contains(m) by {
            let t = choose|t: int| 0 <= t < gs[j].marks.len() && gs[j].marks[t] == m;
            assert(out[j].marks[t] == m);
        }
    }
}

/// The group a placemark is added to is named by its key and carries its
/// marks and routes.
proof fn lemma_add_placemark_gets(gs: Seq<GroupV>, pm: PlacemarkV, valid: Seq<bool>)
    ensures
        exists|j: int|
            0 <= j < add_placemark(gs, pm, valid).len() && #[trigger] add_placemark(
                gs,
                pm,
                valid,
            )[j].name == pm.group && add_placemark(gs, pm, valid)[j].routes.take(
                add_placemark(gs, pm, valid)[j].routes.len() - routes_of(pm.lines, valid).len(),
            ) + routes_of(pm.lines, valid) == add_placemark(gs, pm, valid)[j].routes
                && add_placemark(gs, pm, valid)[j].marks.take(
                add_placemark(gs, pm, valid)[j].marks.len() - point_marks(
                    pm,
                    pm.points,
                    valid,
                ).len(),
            ) + point_marks(pm, pm.points, valid) == add_placemark(gs, pm, valid)[j].marks,
{
    lemma_group_index(gs, pm.group, 0);
    let i = group_index(gs, pm.group, 0);
    let out = add_placemark(gs, pm, valid);
    let rs = routes_of(pm.lines, valid);
    let ms = point_marks(pm, pm.points, valid);
    if i < gs.len() {
        assert(out[i].routes.take(out[i].routes.len() - rs.len()) =~= gs[i].routes);
        assert(out[i].marks.take(out[i].marks.len() - ms.len()) =~= gs[i].marks);
        assert(out[i].name == pm.group);
    } else {
        let n = gs.len() as int;
        assert(out[n].routes.take(out[n].routes.len() - rs.len()) =~= Seq::<Seq<usize>>::empty());
        assert(out[n].marks.take(out[n].marks.len() - ms.len()) =~= Seq::<MarkV>::empty());
        assert(Seq::<Seq<usize>>::empty() + rs =~= rs);
        assert(Seq::<MarkV>::empty() + ms =~= ms);
        assert(out[n].name == pm.group);
    }
}

proof fn lemma_collect_has(pms: Seq<PlacemarkV>, valid: Seq<bool>, k: int)
    requires
        0 <= k < pms.len(),
    ensures
        forall|r: Seq<usize>|
            routes_of(pms[k].lines, valid).contains(r) ==> exists|j: int|
                0 <= j < collect(pms, valid).len() && (#[trigger] collect(pms, valid)[j]).name
                    == pms[k].group && collect(pms, valid)[j].routes.contains(r),
        forall|m: MarkV|
            point_marks(pms[k], pms[k].points, valid).contains(m) ==> exists|j: int|
                0 <= j < collect(pms, valid).len() && (#[trigger] collect(pms, valid)[j]).name
                    == pms[k].group && collect(pms, valid)[j].marks.contains(m),
    decreases pms.len(),
{
    let init = pms.drop_last();
    let gs0 = collect(init, valid);
    let pm = pms.last();
    let gs = collect(pms, valid);
    assert(gs == add_placemark(gs0, pm, valid));
    if k < pms.len() - 1 {
        assert(init[k] == pms[k]);
        lemma_collect_has(init, valid, k);
        assert forall|r: Seq<usize>| routes_of(pms[k].lines, valid).contains(r) implies exists|
            j: int,
        | 0 <= j < gs.len() && (#[trigger] gs[j]).name == pms[k].group && gs[j].routes.contains(
            r,
        ) by {
            let j = choose|j: int|
                0 <= j < gs0.len() && (#[trigger] gs0[j]).name == init[k].group
                    && gs0[j].routes.contains(r);
            lemma_add_placemark_keeps(gs0, pm, valid, j);
            assert(gs[j].routes.contains(r));
        }
        assert forall|m: MarkV| point_marks(pms[k], pms[k].points, valid).contains(m) implies exists|
            j: int,
        | 0 <= j < gs.len() && (#[trigger] gs[j]).name == pms[k].group && gs[j].marks.contains(m) by {
            let j = choose|j: int|
                0 <= j < gs0.len() && (#[trigger] gs0[j]).name == init[k].group
                    && gs0[j].marks.contains(m);
            lemma_add_placemark_keeps(gs0, pm, valid, j);
            assert(gs[j].marks.contains(m));
        }
    } else {
        lemma_add_placemark_gets(gs0, pm, valid);
        let rs = routes_of(pm.lines, valid);
        let ms = point_marks(pm, pm.points, valid);
        let j = choose|j: int|
            0 <= j < gs.len() && #[trigger] gs[j].name == pm.group && gs[j].routes.take(
                gs[j].routes.len() - rs.len(),
            ) + rs == gs[j].routes && gs[j].marks.take(gs[j].marks.len() - ms.len()) + ms
                == gs[j].marks;
        assert forall|r: Seq<usize>| rs.contains(r) implies exists|j2: int|
            0 <= j2 < gs.len() && (#[trigger] gs[j2]).name == pms[k].group
                && gs[j2].routes.contains(r) by {
            let t = choose|t: int| 0 <= t < rs.len() && rs[t] == r;
            let a = gs[j].routes.take(gs[j].routes.len() - rs.len());
            assert((a + rs)[a.len() + t] == r);
            assert(gs[j].routes.contains(r));
        }
        assert forall|m: MarkV| ms.contains(m) implies exists|j2: int|
            0 <= j2 < gs.len() && (#[trigger] gs[j2]).name == pms[k].group
                && gs[j2].marks.contains(m) by {
            let t = choose|t: int| 0 <= t < ms.len() && ms[t] == m;
            let a = gs[j].marks.take(gs[j].marks.len() - ms.len());
            assert((a + ms)[a.len() + t] == m);
            assert(gs[j].marks.contains(m));
        }
    }
}

/// A group with something to draw is kept.
proof fn lemma_non_empty_keeps(gs: Seq<GroupV>, j: int)
    requires
        0 <= j < gs.len(),
        !group_is_empty(gs[j]),
    ensures
        non_empty(gs).contains(gs[j]),
    decreases gs.len(),
{
    let rest = non_empty(gs.drop_last());
    if j == gs.len() - 1 {
        assert(non_empty(gs) == rest.push(gs.last()));
        assert(non_empty(gs)[rest.len() as int] == gs[j]);
    } else {
        assert(gs.drop_last()[j] == gs[j]);
        lemma_non_empty_keeps(gs.drop_last(), j);
        let t = choose|t: int| 0 <= t < rest.len() && rest[t] == gs[j];
        if !group_is_empty(gs.last()) {
            assert(non_empty(gs)[t] == rest[t]);
        }
    }
}

/// Nothing usable is lost in grouping: every route a placemark has through
/// two or more usable positions is drawn in a kept group named by the
/// placemark's key, a folder holding only routes included.
pub proof fn lemma_every_route_is_drawn(doc: DocumentV, valid: Seq<bool>, k: int, r: Seq<usize>)
    requires
        0 <= k < doc.placemarks.len(),
        routes_of(doc.placemarks[k].lines, valid).contains(r),
    ensures
        exists|g: GroupV|
            #[trigger] groups_of(doc, valid).contains(g) && g.name == doc.placemarks[k].group
                && g.routes.contains(r),
{
    let pms = doc.placemarks;
    lemma_collect_has(pms, valid, k);
    let gs = collect(pms, valid);
    let j = choose|j: int|
        0 <= j < gs.len() && (#[trigger] gs[j]).name == pms[k].group && gs[j].routes.contains(r);
    assert(gs[j].routes.len() > 0);
    lemma_non_empty_keeps(gs, j);
    assert(groups_of(doc, valid) == non_empty(gs));
    assert(groups_of(doc, valid).contains(gs[j]));
}

/// Nothing usable is lost in grouping: every mark a placemark has on a
/// usable position is drawn in a kept group named by the placemark's key.
pub proof fn lemma_every_mark_is_drawn(doc: DocumentV, valid: Seq<bool>, k: int, m: MarkV)
    requires
        0 <= k < doc.placemarks.len(),
        point_marks(doc.placemarks[k], doc.placemarks[k].points, valid).contains(m),
    ensures
        exists|g: GroupV|
            #[trigger] groups_of(doc, valid).contains(g) && g.name == doc.placemarks[k].group
                && g.marks.contains(m),
{
    let pms = doc.placemarks;
    lemma_collect_has(pms, valid, k);
    let gs = collect(pms, valid);
    let j = choose|j: int|
        0 <= j < gs.len() && (#[trigger] gs[j]).name == pms[k].group && gs[j].marks.contains(m);
    assert(gs[j].marks.len() > 0);
    lemma_non_empty_keeps(gs, j);
    assert(groups_of(doc, valid) == non_empty(gs));
    assert(groups_of(doc, valid).contains(gs[j]));
}

// ----------------------------------------------------------------------------
// Folders nest

/// Elements that open a level of folders.
pub open spec fn folder_tag(n: Seq<char>) -> bool {
    n == "Folder"@ || n == "Document"@
}

/// How an event changes the folder nesting depth.
pub open spec fn depth_change(ev: EventV) -> int {
    match ev {
        EventV::Start(n) => if folder_tag(n) {
            1
        } else {
            0
        },
        EventV::End(n) => if folder_tag(n) {
            -1
        } else {
            0
        },
        _ => 0,
    }
}

/// The folder nesting depth after a run of events.
pub open spec fn depth(evs: Seq<EventV>) -> int
    decreases evs.len(),
{
    if evs.len() == 0 {
        0
    } else {
        depth(evs.drop_last()) + depth_change(evs.last())
    }
}

/// Every folder a run of events opens it also closes, and it closes none it
/// did not open.
pub open spec fn balanced(evs: Seq<EventV>) -> bool {
    &&& depth(evs) == 0
    &&& forall|k: int| 0 <= k <= evs.len() ==> depth(#[trigger] evs.take(k)) >= 0
}

proof fn lemma_folder_not_placemark(n: Seq<char>)
    requires
        folder_tag(n),
    ensures
        n != "Placemark"@,
{
    reveal_strlit("Placemark");
    reveal_strlit("Folder");
    reveal_strlit("Document");
    assert("Placemark"@.len() == 9);
    assert("Folder"@.len() == 6);
    assert("Document"@.len() == 8);
}

/// What one event does to the folder stack: a folder's start pushes a level,
/// its end pops one, and anything else changes the innermost level at most.
proof fn lemma_step_folders(st: ReadingV, ev: EventV, stem: Seq<char>)
    requires
        st.folders.len() > 0,
    ensures
        step(st, ev, stem).folders.len() == st.folders.len() + depth_change(ev),
        step(st, ev, stem).folders.take(st.folders.len() - 1) == st.folders.take(
            st.folders.len() - 1,
        ) || depth_change(ev) == -1,
        depth_change(ev) == -1 ==> step(st, ev, stem).folders == st.folders.drop_last(),
        depth_change(ev) == 1 ==> step(st, ev, stem).folders == st.folders.push(None),
{
    reveal_strlit("Folder");
    reveal_strlit("Document");
    reveal_strlit("Placemark");
    let f = st.folders;
    let l = f.len() - 1;
    match ev {
        EventV::Start(n) => {
            if folder_tag(n) {
                lemma_folder_not_placemark(n);
            }
            assert(step(st, ev, stem).folders.take(l) =~= f.take(l));
        },
        EventV::End(n) => {
            let st2f = if st.pending is None && n == "name"@ && (parent_of(st.path) == "Folder"@
                || parent_of(st.path) == "Document"@) {
                f.update(l, Some(st.text))
            } else {
                f
            };
            assert(st2f.len() == f.len());
            assert(st2f.take(l) =~= f.take(l));
            if folder_tag(n) {
                lemma_folder_not_placemark(n);
                assert(st2f.drop_last() =~= f.drop_last());
            } else {
                assert(step(st, ev, stem).folders == st2f);
            }
        },
        _ => {},
    }
}

proof fn lemma_folders_inside(
    pre: Seq<EventV>,
    n: Seq<char>,
    inner: Seq<EventV>,
    stem: Seq<char>,
    k: int,
)
    requires
        folder_tag(n),
        balanced(inner),
        0 <= k <= inner.len(),
    ensures
        ({
            let base = run(pre, stem).folders;
            let f = run(pre + seq![EventV::Start(n)] + inner.take(k), stem).folders;
            &&& f.len() == base.len() + 1 + depth(inner.take(k))
            &&& f.take(base.len() as int) == base
        }),
    decreases k,
{
    let base = run(pre, stem).folders;
    let l = base.len() as int;
    let x = pre + seq![EventV::Start(n)] + inner.take(k);
    if k == 0 {
        assert(inner.take(0) =~= Seq::<EventV>::empty());
        assert(x =~= pre.push(EventV::Start(n)));
        assert(x.drop_last() =~= pre);
        reveal_strlit("Placemark");
        reveal_strlit("Folder");
        reveal_strlit("Document");
        lemma_folder_not_placemark(n);
        assert(run(x, stem).folders == base.push(None));
        assert(base.push(None).take(l) =~= base);
    } else {
        lemma_folders_inside(pre, n, inner, stem, k - 1);
        let y = pre + seq![EventV::Start(n)] + inner.take(k - 1);
        assert(x.drop_last() =~= y);
        assert(x.last() == inner[k - 1]);
        assert(inner.take(k).drop_last() =~= inner.take(k - 1));
        assert(inner.take(k).last() == inner[k - 1]);
        assert(depth(inner.take(k)) == depth(inner.take(k - 1)) + depth_change(inner[k - 1]));
        assert(depth(inner.take(k)) >= 0);
        assert(depth(inner.take(k - 1)) >= 0);
        let st = run(y, stem);
        lemma_step_folders(st, inner[k - 1], stem);
        let f0 = st.folders;
        let f1 = run(x, stem).folders;
        assert(f1 == step(st, inner[k - 1], stem).folders);
        if depth_change(inner[k - 1]) == -1 {
            assert(f0.len() >= l + 2);
            assert(f1.take(l) =~= f0.take(l));
        } else {
            assert(f1.take(f0.len() - 1).take(l) =~= f1.take(l));
            assert(f0.take(f0.len() - 1).take(l) =~= f0.take(l));
        }
    }
}

/// Folders nest: after a folder's (or the document's) start, any run of
/// events that closes what it opens, and that folder's end, the reader is
/// back to the folders it had before. So a placemark after a folder's end is
/// no longer filed under that folder.
pub proof fn lemma_folder_closes(
    pre: Seq<EventV>,
    n: Seq<char>,
    inner: Seq<EventV>,
    stem: Seq<char>,
)
    requires
        folder_tag(n),
        balanced(inner),
    ensures
        run(pre + seq![EventV::Start(n)] + inner + seq![EventV::End(n)], stem).folders == run(
            pre,
            stem,
        ).folders,
{
    lemma_folders_inside(pre, n, inner, stem, inner.len() as int);
    assert(inner.take(inner.len() as int) =~= inner);
    let y = pre + seq![EventV::Start(n)] + inner;
    let x = y + seq![EventV::End(n)];
    assert(x.drop_last() =~= y);
    assert(x.last() == EventV::End(n));
    let st = run(y, stem);
    let base = run(pre, stem).folders;
    assert(st.folders.len() == base.len() + 1);
    lemma_step_folders(st, EventV::End(n), stem);
    assert(st.folders.drop_last() =~= st.folders.take(base.len() as int));
}

// ----------------------------------------------------------------------------
// Merging documents

/// The group with every position index moved up by `by`, as when its
/// document's coordinate table is appended after `by` others.
pub open spec fn shifted(g: GroupV, by: int) -> GroupV {
    GroupV {
        marks: g.marks.map_values(|m: MarkV| MarkV { at: (m.at + by) as usize, ..m }),
        routes: g.routes.map_values(|r: Seq<usize>| r.map_values(|p: usize| (p + by) as usize)),
        ..g
    }
}

pub open spec fn indices_fit(g: GroupV, by: int) -> bool {
    &&& forall|k: int| 0 <= k < g.marks.len() ==> (#[trigger] g.marks[k]).at + by <= usize::MAX
    &&& forall|k: int, j: int|
        0 <= k < g.routes.len() && 0 <= j < g.routes[k].len() ==> (#[trigger] g.routes[k][j]) + by
            <= usize::MAX
}

fn shift_route(r: &Vec<usize>, by: usize) -> (out: Vec<usize>)
    requires
        forall|j: int| 0 <= j < r.len() ==> (#[trigger] r@[j]) + by <= usize::MAX,
    ensures
        out@ == r@.map_values(|p: usize| (p + by) as usize),
{
    let mut out: Vec<usize> = Vec::new();
    for j in 0..r.len()
        invariant
            forall|i: int| 0 <= i < r.len() ==> (#[trigger] r@[i]) + by <= usize::MAX,
            out@ == r@.take(j as int).map_values(|p: usize| (p + by) as usize),
    {
        out.push(r[j] + by);
        assert(out@ =~= r@.take(j + 1).map_values(|p: usize| (p + by) as usize));
    }
    assert(r@.take(r.len() as int) =~= r@);
    out
}

impl Group {
    /// The group with its position indices moved up by `by`.
    pub fn shift(self, by: usize) -> (g: Group)
        requires
            indices_fit(self@, by as int),
        ensures
            g@ == shifted(self@, by as int),
    {
        let ghost gv = self@;
        let Group { name, marks, routes, color } = self;
        let ghost mv = marks_view(marks@);
        let n = marks.len();
        let mut rest = marks;
        let mut out: Vec<Mark> = Vec::new();
        let mut k: usize = 0;
        assert(marks_view(rest@) =~= mv.skip(0));
        while k < n
            invariant
                n == mv.len(),
                mv == gv.marks,
                indices_fit(gv, by as int),
                k <= n,
                rest.len() == n - k,
                marks_view(rest@) == mv.skip(k as int),
                marks_view(out@) == mv.take(k as int).map_values(
                    |m: MarkV| MarkV { at: (m.at + by) as usize, ..m },
                ),
            decreases n - k,
        {
            let ghost old_rest = rest@;
            assert(marks_view(rest@)[0] == mv[k as int]);
            let m = rest.remove(0);
            assert forall|j: int| 0 <= j < rest.len() implies marks_view(rest@)[j] == mv.skip(
                k + 1,
            )[j] by {
                assert(rest@[j] == old_rest[j + 1]);
                assert(marks_view(old_rest)[j + 1] == mv.skip(k as int)[j + 1]);
            }
            assert(marks_view(rest@) =~= mv.skip(k + 1));
            assert(m@ == mv[k as int]);
            assert(mv[k as int].at + by <= usize::MAX);
            let Mark { name: mn, at, when, desc, image, uid } = m;
            let moved = Mark { name: mn, at: at + by, when, desc, image, uid };
            let ghost before = marks_view(out@);
            let ghost vv = moved@;
            out.push(moved);
            assert(marks_view(out@) =~= before.push(vv));
            assert(marks_view(out@) =~= mv.take(k + 1).map_values(
                |m: MarkV| MarkV { at: (m.at + by) as usize, ..m },
            ));
            k += 1;
        }
        assert(mv.take(n as int) =~= mv);
        let ghost rv = lines_view(routes@);
        let mut moved_routes: Vec<Vec<usize>> = Vec::new();
        for i in 0..routes.len()
            invariant
                rv == lines_view(routes@),
                rv == gv.routes,
                indices_fit(gv, by as int),
                lines_view(moved_routes@) == rv.take(i as int).map_values(
                    |r: Seq<usize>| r.map_values(|p: usize| (p + by) as usize),
                ),
        {
            assert(rv[i as int] == routes@[i as int]@);
            assert forall|j: int| 0 <= j < routes@[i as int].len() implies (
            #[trigger] routes@[i as int]@[j]) + by <= usize::MAX by {
                assert(gv.routes[i as int][j] == routes@[i as int]@[j]);
            }
            let r = shift_route(&routes[i], by);
            let ghost before = lines_view(moved_routes@);
            let ghost r_view = r@;
            moved_routes.push(r);
            assert(lines_view(moved_routes@) =~= before.push(r_view));
            assert(lines_view(moved_routes@) =~= rv.take(i + 1).map_values(
                |r: Seq<usize>| r.map_values(|p: usize| (p + by) as usize),
            ));
        }
        assert(rv.take(routes.len() as int) =~= rv);
        Group { name, marks: out, routes: moved_routes, color }
    }
}

} // verus!
