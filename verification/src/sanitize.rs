//! Balloon HTML goes straight into a page that gets published, and it came out
//! of a file this tool did not write. Rather than trusting it, the markup is
//! re-emitted from an allowlist: known tags keep known attributes, anything
//! else loses its tag (text is kept), and script-like elements lose their
//! contents too.
//!
//! The output is described as a run of pieces (text, an opening tag with its
//! surviving attributes, a closing tag) that is then rendered; the allowlist
//! laws are stated over those pieces and over the rendered characters.

use vstd::prelude::*;
use crate::text::{
    ascii_alnum, ascii_ws, chars_of, eq_lit, find_char, find_char_from, is_ascii_alnum,
    is_ascii_ws, is_unicode_ws, lemma_find_char, lower_seq, lower_vec, matches_at,
    matches_at_exec, replace_all, replace_vec, slice_chars, unicode_ws, find_char_or_end,
    lemma_find_seq, find_seq, find_seq_from, push_all, ascii_lower, Run, in_run, skip_run,
    lemma_skip_run, skip_run_exec,
};

verus! {

// ----------------------------------------------------------------------------
// The allowlists

/// Tags that survive, with their allowlisted attributes.
pub open spec fn kept_tag(n: Seq<char>) -> bool {
    n == "a"@ || n == "b"@ || n == "br"@ || n == "code"@ || n == "div"@ || n == "em"@
        || n == "h1"@ || n == "h2"@ || n == "h3"@ || n == "h4"@ || n == "hr"@ || n == "i"@
        || n == "img"@ || n == "li"@ || n == "ol"@ || n == "p"@ || n == "pre"@ || n == "small"@
        || n == "span"@ || n == "strong"@ || n == "sub"@ || n == "sup"@ || n == "table"@
        || n == "tbody"@ || n == "td"@ || n == "th"@ || n == "thead"@ || n == "tr"@
        || n == "u"@ || n == "ul"@
}

/// Dropped along with everything they contain.
pub open spec fn dropped_tag(n: Seq<char>) -> bool {
    n == "script"@ || n == "style"@ || n == "iframe"@ || n == "object"@ || n == "embed"@
        || n == "svg"@ || n == "math"@
}

/// Elements written self-closed and never closed.
pub open spec fn void_tag(n: Seq<char>) -> bool {
    n == "br"@ || n == "hr"@ || n == "img"@
}

/// Which attributes a kept tag may carry.
pub open spec fn attr_allowed(tag: Seq<char>, attr: Seq<char>) -> bool {
    if attr == "title"@ || attr == "alt"@ {
        true
    } else if attr == "href"@ {
        tag == "a"@
    } else if attr == "src"@ || attr == "width"@ || attr == "height"@ {
        tag == "img"@
    } else if attr == "colspan"@ || attr == "rowspan"@ {
        tag == "td"@ || tag == "th"@
    } else {
        false
    }
}

/// Attributes whose value is a URL and has to pass `url_allowed`.
pub open spec fn url_attr(attr: Seq<char>) -> bool {
    attr == "href"@ || attr == "src"@
}

fn is_kept(n: &Vec<char>) -> (r: bool)
    ensures
        r == kept_tag(n@),
{
    eq_lit(n, "a") || eq_lit(n, "b") || eq_lit(n, "br") || eq_lit(n, "code") || eq_lit(n, "div")
        || eq_lit(n, "em") || eq_lit(n, "h1") || eq_lit(n, "h2") || eq_lit(n, "h3") || eq_lit(
        n,
        "h4",
    ) || eq_lit(n, "hr") || eq_lit(n, "i") || eq_lit(n, "img") || eq_lit(n, "li") || eq_lit(
        n,
        "ol",
    ) || eq_lit(n, "p") || eq_lit(n, "pre") || eq_lit(n, "small") || eq_lit(n, "span")
        || eq_lit(n, "strong") || eq_lit(n, "sub") || eq_lit(n, "sup") || eq_lit(n, "table")
        || eq_lit(n, "tbody") || eq_lit(n, "td") || eq_lit(n, "th") || eq_lit(n, "thead")
        || eq_lit(n, "tr") || eq_lit(n, "u") || eq_lit(n, "ul")
}

fn is_dropped(n: &Vec<char>) -> (r: bool)
    ensures
        r == dropped_tag(n@),
{
    eq_lit(n, "script") || eq_lit(n, "style") || eq_lit(n, "iframe") || eq_lit(n, "object")
        || eq_lit(n, "embed") || eq_lit(n, "svg") || eq_lit(n, "math")
}

fn is_void(n: &Vec<char>) -> (r: bool)
    ensures
        r == void_tag(n@),
{
    eq_lit(n, "br") || eq_lit(n, "hr") || eq_lit(n, "img")
}

fn attr_ok(tag: &Vec<char>, attr: &Vec<char>) -> (r: bool)
    ensures
        r == attr_allowed(tag@, attr@),
{
    if eq_lit(attr, "title") || eq_lit(attr, "alt") {
        true
    } else if eq_lit(attr, "href") {
        eq_lit(tag, "a")
    } else if eq_lit(attr, "src") || eq_lit(attr, "width") || eq_lit(attr, "height") {
        eq_lit(tag, "img")
    } else if eq_lit(attr, "colspan") || eq_lit(attr, "rowspan") {
        eq_lit(tag, "td") || eq_lit(tag, "th")
    } else {
        false
    }
}

// ----------------------------------------------------------------------------
// Scanning runs of characters

/// The end of a run of Unicode whitespace that finishes at `hi`, not going
/// below `lo`.
pub open spec fn skip_back_blank(s: Seq<char>, hi: int, lo: int) -> int
    decreases hi - lo,
{
    if lo < hi && 0 < hi <= s.len() && is_unicode_ws(s[hi - 1]) {
        skip_back_blank(s, hi - 1, lo)
    } else {
        hi
    }
}

/// `str::trim`: Unicode whitespace removed from both ends.
pub open spec fn trim_seq(s: Seq<char>) -> Seq<char> {
    let lo = skip_run(s, 0, Run::Blank);
    s.subrange(lo, skip_back_blank(s, s.len() as int, lo))
}

pub proof fn lemma_skip_back_blank(s: Seq<char>, hi: int, lo: int)
    requires
        0 <= lo <= hi <= s.len(),
    ensures
        lo <= skip_back_blank(s, hi, lo) <= hi,
    decreases hi - lo,
{
    if lo < hi && 0 < hi && is_unicode_ws(s[hi - 1]) {
        lemma_skip_back_blank(s, hi - 1, lo);
    }
}

fn trim_chars(s: &Vec<char>) -> (r: Vec<char>)
    ensures
        r@ == trim_seq(s@),
{
    let lo = skip_run_exec(s, 0, Run::Blank);
    let mut hi = s.len();
    while lo < hi && unicode_ws(s[hi - 1])
        invariant
            lo <= hi <= s.len(),
            skip_back_blank(s@, s.len() as int, lo as int) == skip_back_blank(
                s@,
                hi as int,
                lo as int,
            ),
        decreases hi - lo,
    {
        hi -= 1;
    }
    slice_chars(s, lo, hi)
}

// ----------------------------------------------------------------------------
// URLs

/// Relative paths and plain web URLs only: no `javascript:`, no smuggled data.
/// After trimming and lowercasing, a value without a `:` passes; so does one
/// whose text before the first `:` holds a `/` or `?` (a path, not a
/// scheme); otherwise the scheme must be `http`, `https` or `mailto`, or the
/// value must start `data:image/`.
pub open spec fn url_allowed(value: Seq<char>) -> bool {
    let v = lower_seq(trim_seq(value));
    match find_char(v, 0, ':') {
        None => true,
        Some(p) => {
            let scheme = v.take(p);
            ||| scheme.contains('/') || scheme.contains('?')
            ||| scheme == "http"@ || scheme == "https"@ || scheme == "mailto"@
            ||| matches_at(v, 0, "data:image/"@)
        },
    }
}

fn contains_char(v: &Vec<char>, c: char) -> (r: bool)
    ensures
        r == v@.contains(c),
{
    proof {
        lemma_find_char(v@, 0, c);
    }
    match find_char_from(v, 0, c) {
        Some(p) => {
            assert(v@[p as int] == c);
            true
        },
        None => false,
    }
}

fn url_ok_chars(value: &Vec<char>) -> (r: bool)
    ensures
        r == url_allowed(value@),
{
    let trimmed = trim_chars(value);
    let v = lower_vec(&trimmed);
    proof {
        lemma_find_char(v@, 0, ':');
    }
    match find_char_from(&v, 0, ':') {
        None => true,
        Some(p) => {
            let scheme = slice_chars(&v, 0, p);
            assert(scheme@ =~= v@.take(p as int));
            if contains_char(&scheme, '/') || contains_char(&scheme, '?') {
                true
            } else {
                let data = chars_of("data:image/");
                eq_lit(&scheme, "http") || eq_lit(&scheme, "https") || eq_lit(&scheme, "mailto")
                    || matches_at_exec(&v, 0, &data)
            }
        },
    }
}

/// Whether a link or picture reference may be kept.
pub fn url_ok(value: &str) -> (r: bool)
    ensures
        r == url_allowed(value@),
{
    let v = chars_of(value);
    url_ok_chars(&v)
}

// ----------------------------------------------------------------------------
// Entities

/// Undoing the escapes that balloon markup uses in attribute values, in the
/// order the replacements are made.
pub open spec fn unescape_seq(s: Seq<char>) -> Seq<char> {
    replace_all(
        replace_all(
            replace_all(
                replace_all(replace_all(s, "&quot;"@, "\""@), "&#39;"@, "'"@),
                "&lt;"@,
                "<"@,
            ),
            "&gt;"@,
            ">"@,
        ),
        "&amp;"@,
        "&"@,
    )
}

fn replace_lit(s: &Vec<char>, pat: &str, rep: &str) -> (r: Vec<char>)
    requires
        pat@.len() > 0,
    ensures
        r@ == replace_all(s@, pat@, rep@),
{
    let p = chars_of(pat);
    let q = chars_of(rep);
    replace_vec(s, &p, &q)
}

fn unescape_chars(s: &Vec<char>) -> (r: Vec<char>)
    ensures
        r@ == unescape_seq(s@),
{
    proof {
        reveal_strlit("&quot;");
        reveal_strlit("&#39;");
        reveal_strlit("&lt;");
        reveal_strlit("&gt;");
        reveal_strlit("&amp;");
    }
    let a = replace_lit(s, "&quot;", "\"");
    let b = replace_lit(&a, "&#39;", "'");
    let c = replace_lit(&b, "&lt;", "<");
    let d = replace_lit(&c, "&gt;", ">");
    replace_lit(&d, "&amp;", "&")
}

/// The entity a character becomes in text and in quoted attribute values.
pub open spec fn esc_char(c: char) -> Seq<char> {
    if c == '&' {
        "&amp;"@
    } else if c == '<' {
        "&lt;"@
    } else if c == '>' {
        "&gt;"@
    } else if c == '"' {
        "&quot;"@
    } else if c == '\'' {
        "&#39;"@
    } else {
        seq![c]
    }
}

/// Escaping for both text nodes and quoted attribute values.
pub open spec fn esc_seq(s: Seq<char>) -> Seq<char>
    decreases s.len(),
{
    if s.len() == 0 {
        Seq::empty()
    } else {
        esc_seq(s.drop_last()) + esc_char(s.last())
    }
}

/// The characters that must never appear unescaped in text or in a quoted value.
pub open spec fn markup_char(c: char) -> bool {
    c == '<' || c == '>' || c == '"' || c == '\''
}

pub proof fn lemma_esc_char_safe(c: char)
    ensures
        forall|j: int| 0 <= j < esc_char(c).len() ==> !markup_char(#[trigger] esc_char(c)[j]),
{
    reveal_strlit("&amp;");
    reveal_strlit("&lt;");
    reveal_strlit("&gt;");
    reveal_strlit("&quot;");
    reveal_strlit("&#39;");
}

/// Escaped text holds none of `<`, `>`, `"`, `'`.
pub proof fn lemma_esc_safe(s: Seq<char>)
    ensures
        forall|j: int| 0 <= j < esc_seq(s).len() ==> !markup_char(#[trigger] esc_seq(s)[j]),
    decreases s.len(),
{
    if s.len() > 0 {
        lemma_esc_safe(s.drop_last());
        lemma_esc_char_safe(s.last());
        let a = esc_seq(s.drop_last());
        let b = esc_char(s.last());
        assert forall|j: int| 0 <= j < esc_seq(s).len() implies !markup_char(
            #[trigger] esc_seq(s)[j],
        ) by {
            if j < a.len() {
                assert(esc_seq(s)[j] == a[j]);
            } else {
                assert(esc_seq(s)[j] == b[j - a.len()]);
            }
        }
    }
}

fn esc_push(out: &mut String, v: &Vec<char>)
    ensures
        final(out)@ == old(out)@ + esc_seq(v@),
{
    let ghost start = out@;
    for i in 0..v.len()
        invariant
            out@ == start + esc_seq(v@.take(i as int)),
    {
        let c = v[i];
        if c == '&' {
            out.append("&amp;");
        } else if c == '<' {
            out.append("&lt;");
        } else if c == '>' {
            out.append("&gt;");
        } else if c == '"' {
            out.append("&quot;");
        } else if c == '\'' {
            out.append("&#39;");
        } else {
            out.push(c);
        }
        assert(v@.take(i + 1).drop_last() =~= v@.take(i as int));
        assert(out@ =~= start + esc_seq(v@.take(i + 1)));
    }
    assert(v@.take(v.len() as int) =~= v@);
}

/// Escape for both text nodes and quoted attribute values.
pub fn esc(s: &str) -> (r: String)
    ensures
        r@ == esc_seq(s@),
        forall|j: int| 0 <= j < r@.len() ==> !markup_char(#[trigger] r@[j]),
        unescape_seq(r@) == s@,
{
    let v = chars_of(s);
    let mut out = String::new();
    esc_push(&mut out, &v);
    proof {
        lemma_esc_safe(s@);
        lemma_unescape_undoes_esc(s@);
    }
    out
}

// ----------------------------------------------------------------------------
// Attributes of a start tag

/// A start tag's attributes as (name, value) pairs, read from position `i` of
/// the tag's text. Names are lowercased; values may be double-quoted,
/// single-quoted or bare, and have their entities undone. An attribute with no
/// `=` gets an empty value.
pub open spec fn attrs_from(inner: Seq<char>, i: int) -> Seq<(Seq<char>, Seq<char>)>
    decreases inner.len() - i,
{
    if i < 0 || i >= inner.len() {
        Seq::empty()
    } else {
        let j = skip_run(inner, i, Run::SpaceOrSlash);
        let k = skip_run(inner, j, Run::Name);
        proof {
            lemma_skip_run(inner, i, Run::SpaceOrSlash);
            lemma_skip_run(inner, j, Run::Name);
        }
        if j == k {
            Seq::empty()
        } else {
            let attr = lower_seq(inner.subrange(j, k));
            let m = skip_run(inner, k, Run::Space);
            proof {
                lemma_skip_run(inner, k, Run::Space);
            }
            if m >= inner.len() || inner[m] != '=' {
                seq![(attr, Seq::<char>::empty())] + attrs_from(inner, m)
            } else {
                let m1 = skip_run(inner, m + 1, Run::Space);
                proof {
                    lemma_skip_run(inner, m + 1, Run::Space);
                }
                if m1 < inner.len() && (inner[m1] == '"' || inner[m1] == '\'') {
                    let close = find_char_or_end(inner, m1 + 1, inner[m1]);
                    proof {
                        lemma_find_char(inner, m1 + 1, inner[m1]);
                    }
                    let next = if close + 1 < inner.len() {
                        close + 1
                    } else {
                        inner.len() as int
                    };
                    seq![(attr, unescape_seq(inner.subrange(m1 + 1, close)))] + attrs_from(
                        inner,
                        next,
                    )
                } else {
                    let e = skip_run(inner, m1, Run::Word);
                    proof {
                        lemma_skip_run(inner, m1, Run::Word);
                    }
                    seq![(attr, unescape_seq(inner.subrange(m1, e)))] + attrs_from(inner, e)
                }
            }
        }
    }
}

/// The attributes of a start tag, read after the first ASCII whitespace of
/// its text.
pub open spec fn attrs_of(inner: Seq<char>) -> Seq<(Seq<char>, Seq<char>)> {
    attrs_from(inner, skip_run(inner, 0, Run::Word))
}

pub open spec fn pairs_view(v: Seq<(Vec<char>, Vec<char>)>) -> Seq<(Seq<char>, Seq<char>)> {
    v.map_values(|p: (Vec<char>, Vec<char>)| (p.0@, p.1@))
}

/// Attribute pairs of a start tag. Bare attributes are reported with an empty
/// value; neither form survives the allowlist unless it is named there.
fn attrs(inner: &Vec<char>) -> (out: Vec<(Vec<char>, Vec<char>)>)
    ensures
        pairs_view(out@) == attrs_of(inner@),
{
    let n = inner.len();
    let mut i = skip_run_exec(inner, 0, Run::Word);
    let mut out: Vec<(Vec<char>, Vec<char>)> = Vec::new();
    assert(pairs_view(out@) =~= Seq::empty());
    while i < n
        invariant
            n == inner.len(),
            i <= n,
            attrs_of(inner@) == pairs_view(out@) + attrs_from(inner@, i as int),
        decreases n - i,
    {
        let ghost old_out = pairs_view(out@);
        let j = skip_run_exec(inner, i, Run::SpaceOrSlash);
        let k = skip_run_exec(inner, j, Run::Name);
        if j == k {
            assert(attrs_from(inner@, n as int) =~= Seq::empty());
            i = n;
        } else {
            let name = slice_chars(inner, j, k);
            let attr = lower_vec(&name);
            let m = skip_run_exec(inner, k, Run::Space);
            if m >= n || inner[m] != '=' {
                out.push((attr, Vec::new()));
                assert(pairs_view(out@) =~= old_out.push((attr@, Seq::<char>::empty())));
                assert(pairs_view(out@) + attrs_from(inner@, m as int) =~= old_out + (seq![
                    (attr@, Seq::<char>::empty()),
                ] + attrs_from(inner@, m as int)));
                i = m;
            } else {
                let m1 = skip_run_exec(inner, m + 1, Run::Space);
                if m1 < n && (inner[m1] == '"' || inner[m1] == '\'') {
                    let q = inner[m1];
                    let close = match find_char_from(inner, m1 + 1, q) {
                        Some(p) => p,
                        None => n,
                    };
                    proof {
                        lemma_find_char(inner@, m1 + 1, q);
                    }
                    let next = if close < n {
                        close + 1
                    } else {
                        n
                    };
                    let raw = slice_chars(inner, m1 + 1, close);
                    let value = unescape_chars(&raw);
                    out.push((attr, value));
                    assert(pairs_view(out@) =~= old_out.push((attr@, value@)));
                    assert(pairs_view(out@) + attrs_from(inner@, next as int) =~= old_out + (seq![
                        (attr@, value@),
                    ] + attrs_from(inner@, next as int)));
                    i = next;
                } else {
                    let e = skip_run_exec(inner, m1, Run::Word);
                    let raw = slice_chars(inner, m1, e);
                    let value = unescape_chars(&raw);
                    out.push((attr, value));
                    assert(pairs_view(out@) =~= old_out.push((attr@, value@)));
                    assert(pairs_view(out@) + attrs_from(inner@, e as int) =~= old_out + (seq![
                        (attr@, value@),
                    ] + attrs_from(inner@, e as int)));
                    i = e;
                }
            }
        }
    }
    assert(attrs_from(inner@, i as int) =~= Seq::empty());
    assert(pairs_view(out@) + Seq::empty() =~= pairs_view(out@));
    out
}

// ----------------------------------------------------------------------------
// What the sanitiser writes

/// One unit of sanitised output.
pub enum Piece {
    /// Text copied from the input, or `&lt;` for a `<` that opens no tag.
    Text(Seq<char>),
    /// A kept start tag with the attributes that survived.
    Open(Seq<char>, Seq<(Seq<char>, Seq<char>)>),
    /// The end tag of a kept, non-void element.
    Close(Seq<char>),
}

/// Whether an attribute survives on `tag`: it is allowlisted there, and a URL
/// attribute's value passes `url_allowed`.
pub open spec fn keep_attr(tag: Seq<char>, attr: Seq<char>, value: Seq<char>) -> bool {
    attr_allowed(tag, attr) && !(url_attr(attr) && !url_allowed(value))
}

/// The attributes that survive on `tag`, in order.
pub open spec fn kept_attrs(tag: Seq<char>, ps: Seq<(Seq<char>, Seq<char>)>) -> Seq<
    (Seq<char>, Seq<char>),
>
    decreases ps.len(),
{
    if ps.len() == 0 {
        ps
    } else {
        let rest = kept_attrs(tag, ps.drop_last());
        if keep_attr(tag, ps.last().0, ps.last().1) {
            rest.push(ps.last())
        } else {
            rest
        }
    }
}

pub open spec fn render_attr(p: (Seq<char>, Seq<char>)) -> Seq<char> {
    " "@ + p.0 + "=\""@ + esc_seq(p.1) + "\""@
}

pub open spec fn render_attrs(ps: Seq<(Seq<char>, Seq<char>)>) -> Seq<char>
    decreases ps.len(),
{
    if ps.len() == 0 {
        Seq::empty()
    } else {
        render_attrs(ps.drop_last()) + render_attr(ps.last())
    }
}

pub open spec fn render_piece(p: Piece) -> Seq<char> {
    match p {
        Piece::Text(t) => t,
        Piece::Open(n, ps) => "<"@ + n + render_attrs(ps) + if void_tag(n) {
            "/>"@
        } else {
            ">"@
        },
        Piece::Close(n) => "</"@ + n + ">"@,
    }
}

pub open spec fn render(ps: Seq<Piece>) -> Seq<char>
    decreases ps.len(),
{
    if ps.len() == 0 {
        Seq::empty()
    } else {
        render_piece(ps[0]) + render(ps.drop_first())
    }
}

pub proof fn lemma_render_cons(p: Piece, rest: Seq<Piece>)
    ensures
        render(seq![p] + rest) == render_piece(p) + render(rest),
{
    assert((seq![p] + rest).drop_first() =~= rest);
    assert((seq![p] + rest)[0] == p);
}

/// The lowercased name of a tag from its text: leading slashes skipped, then
/// the run of ASCII letters and digits.
pub open spec fn tag_name(inner: Seq<char>) -> Seq<char> {
    let a = skip_run(inner, 0, Run::Slash);
    lower_seq(inner.subrange(a, skip_run(inner, a, Run::Alnum)))
}

pub open spec fn closing_tag(inner: Seq<char>) -> bool {
    inner.len() > 0 && inner[0] == '/'
}

/// Where reading resumes after a dropped element that opened just before
/// `from`: past the `>` of the first `</name` (in any case) at or after
/// `from`, or the end of the input.
pub open spec fn drop_end(s: Seq<char>, from: int, name: Seq<char>) -> int {
    match find_seq(lower_seq(s), from, "</"@ + name) {
        Some(p) => match find_char(s, p, '>') {
            Some(e) => e + 1,
            None => s.len() as int,
        },
        None => s.len() as int,
    }
}

/// The pieces written for the input from position `i` on.
pub open spec fn pieces_from(s: Seq<char>, i: int) -> Seq<Piece>
    decreases s.len() - i,
{
    if i < 0 || i >= s.len() {
        Seq::empty()
    } else if s[i] != '<' {
        let next = find_char_or_end(s, i, '<');
        proof {
            lemma_find_char(s, i, '<');
        }
        seq![Piece::Text(s.subrange(i, next))] + pieces_from(s, next)
    } else if matches_at(s, i, "<!--"@) {
        let after = match find_seq(s, i, "-->"@) {
            Some(p) => p + 3,
            None => s.len() as int,
        };
        proof {
            reveal_strlit("-->");
            lemma_find_seq(s, i, "-->"@);
        }
        pieces_from(s, after)
    } else {
        proof {
            lemma_find_char(s, i, '>');
        }
        match find_char(s, i, '>') {
            None => seq![Piece::Text("&lt;"@)] + pieces_from(s, i + 1),
            Some(end) => {
                let inner = s.subrange(i + 1, end);
                let name = tag_name(inner);
                let next = end + 1;
                if name.len() == 0 {
                    pieces_from(s, next)
                } else if dropped_tag(name) {
                    if closing_tag(inner) {
                        pieces_from(s, next)
                    } else {
                        proof {
                            lemma_find_seq(lower_seq(s), next, "</"@ + name);
                            if let Some(p) = find_seq(lower_seq(s), next, "</"@ + name) {
                                lemma_find_char(s, p, '>');
                            }
                        }
                        pieces_from(s, drop_end(s, next, name))
                    }
                } else if !kept_tag(name) {
                    pieces_from(s, next)
                } else if closing_tag(inner) {
                    if void_tag(name) {
                        pieces_from(s, next)
                    } else {
                        seq![Piece::Close(name)] + pieces_from(s, next)
                    }
                } else {
                    seq![Piece::Open(name, kept_attrs(name, attrs_of(inner)))] + pieces_from(
                        s,
                        next,
                    )
                }
            },
        }
    }
}

/// The sanitised form of balloon markup.
pub open spec fn scrub_seq(s: Seq<char>) -> Seq<char> {
    render(pieces_from(s, 0))
}

fn tag_name_exec(inner: &Vec<char>) -> (r: Vec<char>)
    ensures
        r@ == tag_name(inner@),
{
    let a = skip_run_exec(inner, 0, Run::Slash);
    let b = skip_run_exec(inner, a, Run::Alnum);
    let raw = slice_chars(inner, a, b);
    lower_vec(&raw)
}

fn keep_attr_exec(tag: &Vec<char>, attr: &Vec<char>, value: &Vec<char>) -> (r: bool)
    ensures
        r == keep_attr(tag@, attr@, value@),
{
    if !attr_ok(tag, attr) {
        false
    } else if (eq_lit(attr, "href") || eq_lit(attr, "src")) && !url_ok_chars(value) {
        false
    } else {
        true
    }
}

/// Writes ` name="value"` for every attribute that survives on `tag`.
fn push_attrs(out: &mut String, tag: &Vec<char>, attrs: &Vec<(Vec<char>, Vec<char>)>)
    ensures
        final(out)@ == old(out)@ + render_attrs(kept_attrs(tag@, pairs_view(attrs@))),
{
    let ghost start = out@;
    let ghost pv = pairs_view(attrs@);
    assert(kept_attrs(tag@, pv.take(0)) =~= Seq::empty());
    for i in 0..attrs.len()
        invariant
            pv == pairs_view(attrs@),
            out@ == start + render_attrs(kept_attrs(tag@, pv.take(i as int))),
    {
        let ghost rest = kept_attrs(tag@, pv.take(i as int));
        assert(pv.take(i + 1).drop_last() =~= pv.take(i as int));
        assert(pv.take(i + 1).last() == pv[i as int]);
        let attr = &attrs[i].0;
        let value = &attrs[i].1;
        if keep_attr_exec(tag, attr, value) {
            out.append(" ");
            push_all(out, attr);
            out.append("=\"");
            esc_push(out, value);
            out.append("\"");
            assert(rest.push(pv[i as int]).drop_last() =~= rest);
            assert(out@ =~= start + render_attrs(rest.push(pv[i as int])));
        }
    }
    assert(pv.take(attrs.len() as int) =~= pv);
}

/// Re-emits balloon markup from the allowlist.
#[verifier::rlimit(40)]
pub fn scrub(input: &str) -> (out: String)
    ensures
        out@ == scrub_seq(input@),
{
    let s = chars_of(input);
    let low = lower_vec(&s);
    let n = s.len();
    let mut out = String::new();
    let mut i: usize = 0;
    let open_comment = chars_of("<!--");
    let close_comment = chars_of("-->");
    proof {
        reveal_strlit("-->");
    }
    while i < n
        invariant
            n == s.len(),
            i <= n,
            low@ == lower_seq(s@),
            open_comment@ == "<!--"@,
            close_comment@ == "-->"@,
            close_comment@.len() == 3,
            scrub_seq(s@) == out@ + render(pieces_from(s@, i as int)),
        decreases n - i,
    {
        let ghost before = out@;
        if s[i] != '<' {
            let next = match find_char_from(&s, i, '<') {
                Some(p) => p,
                None => n,
            };
            proof {
                lemma_find_char(s@, i as int, '<');
                lemma_render_cons(
                    Piece::Text(s@.subrange(i as int, next as int)),
                    pieces_from(s@, next as int),
                );
            }
            let text = slice_chars(&s, i, next);
            push_all(&mut out, &text);
            i = next;
        } else if matches_at_exec(&s, i, &open_comment) {
            proof {
                lemma_find_seq(s@, i as int, "-->"@);
            }
            let after = match find_seq_from(&s, i, &close_comment) {
                Some(p) => p + 3,
                None => n,
            };
            i = after;
        } else {
            proof {
                lemma_find_char(s@, i as int, '>');
            }
            match find_char_from(&s, i, '>') {
                None => {
                    proof {
                        lemma_render_cons(Piece::Text("&lt;"@), pieces_from(s@, i + 1));
                    }
                    out.append("&lt;");
                    i = i + 1;
                },
                Some(end) => {
                    let inner = slice_chars(&s, i + 1, end);
                    let name = tag_name_exec(&inner);
                    let closing = inner.len() > 0 && inner[0] == '/';
                    let next = end + 1;
                    if name.len() == 0 {
                        i = next;
                    } else if is_dropped(&name) {
                        if closing {
                            i = next;
                        } else {
                            let mut close = chars_of("</");
                            let mut k: usize = 0;
                            let ghost c0 = close@;
                            while k < name.len()
                                invariant
                                    k <= name.len(),
                                    close@ == c0 + name@.take(k as int),
                                decreases name.len() - k,
                            {
                                close.push(name[k]);
                                assert(name@.take(k + 1) =~= name@.take(k as int).push(
                                    name@[k as int],
                                ));
                                k += 1;
                            }
                            assert(name@.take(name.len() as int) =~= name@);
                            proof {
                                lemma_find_seq(low@, next as int, close@);
                            }
                            i = match find_seq_from(&low, next, &close) {
                                Some(p) => {
                                    proof {
                                        lemma_find_char(s@, p as int, '>');
                                    }
                                    match find_char_from(&s, p, '>') {
                                        Some(e) => e + 1,
                                        None => n,
                                    }
                                },
                                None => n,
                            };
                        }
                    } else if !is_kept(&name) {
                        i = next;
                    } else if closing {
                        if !is_void(&name) {
                            proof {
                                lemma_render_cons(Piece::Close(name@), pieces_from(s@, next as int));
                            }
                            out.append("</");
                            push_all(&mut out, &name);
                            out.append(">");
                        }
                        i = next;
                    } else {
                        let a = attrs(&inner);
                        proof {
                            lemma_render_cons(
                                Piece::Open(name@, kept_attrs(name@, attrs_of(inner@))),
                                pieces_from(s@, next as int),
                            );
                        }
                        out.append("<");
                        push_all(&mut out, &name);
                        push_attrs(&mut out, &name, &a);
                        if is_void(&name) {
                            out.append("/>");
                        } else {
                            out.append(">");
                        }
                        i = next;
                    }
                },
            }
        }
    }
    out
}

// ----------------------------------------------------------------------------
// The allowlist, as laws

/// What the allowlist guarantees of one piece: text holds no `<`; a tag is a
/// kept one, named by a non-empty run of ASCII letters and digits; an end tag
/// is never written for a void element; and every attribute left on a start
/// tag is allowlisted for it, with a URL value that passes `url_allowed`.
pub open spec fn piece_ok(p: Piece) -> bool {
    match p {
        Piece::Text(t) => !t.contains('<'),
        Piece::Open(n, ps) => {
            &&& kept_tag(n)
            &&& n.len() > 0
            &&& forall|j: int| 0 <= j < n.len() ==> is_ascii_alnum(#[trigger] n[j])
            &&& forall|k: int|
                0 <= k < ps.len() ==> keep_attr(n, (#[trigger] ps[k]).0, ps[k].1)
        },
        Piece::Close(n) => {
            &&& kept_tag(n)
            &&& !void_tag(n)
            &&& n.len() > 0
            &&& forall|j: int| 0 <= j < n.len() ==> is_ascii_alnum(#[trigger] n[j])
        },
    }
}

pub proof fn lemma_lower_alnum(c: char)
    requires
        is_ascii_alnum(c),
    ensures
        is_ascii_alnum(ascii_lower(c)),
{
    if 'A' <= c && c <= 'Z' {
        assert(((c as u32) + 32) as char as u32 == (c as u32) + 32);
    }
}

pub proof fn lemma_tag_name_alnum(inner: Seq<char>)
    ensures
        forall|j: int|
            0 <= j < tag_name(inner).len() ==> is_ascii_alnum(#[trigger] tag_name(inner)[j]),
{
    let a = skip_run(inner, 0, Run::Slash);
    lemma_skip_run(inner, 0, Run::Slash);
    lemma_skip_run(inner, a, Run::Alnum);
    let b = skip_run(inner, a, Run::Alnum);
    assert forall|j: int| 0 <= j < tag_name(inner).len() implies is_ascii_alnum(
        #[trigger] tag_name(inner)[j],
    ) by {
        assert(in_run(Run::Alnum, inner[a + j]));
        lemma_lower_alnum(inner[a + j]);
    }
}

pub proof fn lemma_kept_attrs_ok(tag: Seq<char>, ps: Seq<(Seq<char>, Seq<char>)>)
    ensures
        forall|k: int|
            0 <= k < kept_attrs(tag, ps).len() ==> keep_attr(
                tag,
                (#[trigger] kept_attrs(tag, ps)[k]).0,
                kept_attrs(tag, ps)[k].1,
            ),
    decreases ps.len(),
{
    if ps.len() > 0 {
        lemma_kept_attrs_ok(tag, ps.drop_last());
        let rest = kept_attrs(tag, ps.drop_last());
        if keep_attr(tag, ps.last().0, ps.last().1) {
            assert forall|k: int| 0 <= k < kept_attrs(tag, ps).len() implies keep_attr(
                tag,
                (#[trigger] kept_attrs(tag, ps)[k]).0,
                kept_attrs(tag, ps)[k].1,
            ) by {
                if k < rest.len() {
                    assert(kept_attrs(tag, ps)[k] == rest[k]);
                }
            }
        }
    }
}

pub open spec fn all_ok(ps: Seq<Piece>) -> bool {
    forall|k: int| 0 <= k < ps.len() ==> piece_ok(#[trigger] ps[k])
}

proof fn lemma_all_ok_cons(p: Piece, rest: Seq<Piece>)
    requires
        piece_ok(p),
        all_ok(rest),
    ensures
        all_ok(seq![p] + rest),
{
    assert forall|k: int| 0 <= k < (seq![p] + rest).len() implies piece_ok(
        #[trigger] (seq![p] + rest)[k],
    ) by {
        if k > 0 {
            assert((seq![p] + rest)[k] == rest[k - 1]);
        }
    }
}

/// Every piece the sanitiser writes obeys the allowlist.
pub proof fn lemma_pieces_ok(s: Seq<char>, i: int)
    ensures
        all_ok(pieces_from(s, i)),
    decreases s.len() - i,
{
    if i < 0 || i >= s.len() {
    } else if s[i] != '<' {
        let next = find_char_or_end(s, i, '<');
        lemma_find_char(s, i, '<');
        lemma_pieces_ok(s, next);
        let t = s.subrange(i, next);
        assert(!t.contains('<')) by {
            if t.contains('<') {
                let j = choose|j: int| 0 <= j < t.len() && t[j] == '<';
                assert(s[i + j] == '<');
            }
        }
        assert(pieces_from(s, i) == seq![Piece::Text(t)] + pieces_from(s, next));
        lemma_all_ok_cons(Piece::Text(t), pieces_from(s, next));
    } else if matches_at(s, i, "<!--"@) {
        reveal_strlit("-->");
        lemma_find_seq(s, i, "-->"@);
        let after = match find_seq(s, i, "-->"@) {
            Some(p) => p + 3,
            None => s.len() as int,
        };
        lemma_pieces_ok(s, after);
        assert(pieces_from(s, i) == pieces_from(s, after));
    } else {
        lemma_find_char(s, i, '>');
        match find_char(s, i, '>') {
            None => {
                reveal_strlit("&lt;");
                lemma_pieces_ok(s, i + 1);
                assert(pieces_from(s, i) == seq![Piece::Text("&lt;"@)] + pieces_from(s, i + 1));
                assert(!"&lt;"@.contains('<')) by {
                    if "&lt;"@.contains('<') {
                        let j = choose|j: int| 0 <= j < "&lt;"@.len() && "&lt;"@[j] == '<';
                    }
                }
                lemma_all_ok_cons(Piece::Text("&lt;"@), pieces_from(s, i + 1));
            },
            Some(end) => {
                let inner = s.subrange(i + 1, end);
                let name = tag_name(inner);
                let next = end + 1;
                lemma_tag_name_alnum(inner);
                lemma_pieces_ok(s, next);
                let rest = pieces_from(s, next);
                if name.len() == 0 {
                    assert(pieces_from(s, i) == rest);
                } else if dropped_tag(name) {
                    if !closing_tag(inner) {
                        lemma_find_seq(lower_seq(s), next, "</"@ + name);
                        if let Some(p) = find_seq(lower_seq(s), next, "</"@ + name) {
                            lemma_find_char(s, p, '>');
                        }
                        lemma_pieces_ok(s, drop_end(s, next, name));
                        assert(pieces_from(s, i) == pieces_from(s, drop_end(s, next, name)));
                    } else {
                        assert(pieces_from(s, i) == rest);
                    }
                } else if !kept_tag(name) {
                    assert(pieces_from(s, i) == rest);
                } else if closing_tag(inner) {
                    if void_tag(name) {
                        assert(pieces_from(s, i) == rest);
                    } else {
                        assert(pieces_from(s, i) == seq![Piece::Close(name)] + rest);
                        lemma_all_ok_cons(Piece::Close(name), rest);
                    }
                } else {
                    let p = Piece::Open(name, kept_attrs(name, attrs_of(inner)));
                    lemma_kept_attrs_ok(name, attrs_of(inner));
                    assert(pieces_from(s, i) == seq![p] + rest);
                    lemma_all_ok_cons(p, rest);
                }
            },
        }
    }
}

// ----------------------------------------------------------------------------
// The allowlist, on the written characters

/// Where the name of the tag opened by the `<` at `j` starts: after one `/`
/// for an end tag.
pub open spec fn name_start(x: Seq<char>, j: int) -> int {
    if j + 1 < x.len() && x[j + 1] == '/' {
        j + 2
    } else {
        j + 1
    }
}

/// The `<` at `j` starts a tag of a kept element: the letters and digits after
/// it (after one `/` for an end tag) spell a kept tag name, and something other
/// than a letter or digit follows them.
pub open spec fn opens_kept(x: Seq<char>, j: int) -> bool {
    let a = name_start(x, j);
    let b = skip_run(x, a, Run::Alnum);
    b < x.len() && kept_tag(x.subrange(a, b))
}

/// Every `<` in the text starts a tag of a kept element.
pub open spec fn markup_kept(x: Seq<char>) -> bool {
    forall|j: int| 0 <= j < x.len() && x[j] == '<' ==> opens_kept(x, j)
}

pub open spec fn no_lt(x: Seq<char>) -> bool {
    forall|j: int| 0 <= j < x.len() ==> #[trigger] x[j] != '<'
}

proof fn lemma_skip_run_prefix(x: Seq<char>, y: Seq<char>, a: int, k: Run)
    requires
        0 <= a <= x.len(),
        skip_run(x, a, k) < x.len(),
    ensures
        skip_run(x + y, a, k) == skip_run(x, a, k),
    decreases x.len() - a,
{
    assert((x + y)[a] == x[a]);
    if in_run(k, x[a]) {
        lemma_skip_run_prefix(x, y, a + 1, k);
    }
}

proof fn lemma_skip_run_shift(x: Seq<char>, y: Seq<char>, a: int, k: Run)
    requires
        0 <= a <= y.len(),
    ensures
        skip_run(x + y, x.len() + a, k) == x.len() + skip_run(y, a, k),
    decreases y.len() - a,
{
    if a < y.len() {
        assert((x + y)[x.len() + a] == y[a]);
        if in_run(k, y[a]) {
            lemma_skip_run_shift(x, y, a + 1, k);
        }
    }
}

proof fn lemma_skip_run_exact(x: Seq<char>, a: int, e: int, k: Run)
    requires
        0 <= a <= e < x.len(),
        forall|j: int| a <= j < e ==> in_run(k, #[trigger] x[j]),
        !in_run(k, x[e]),
    ensures
        skip_run(x, a, k) == e,
    decreases e - a,
{
    if a < e {
        lemma_skip_run_exact(x, a + 1, e, k);
    }
}

proof fn lemma_markup_kept_concat(x: Seq<char>, y: Seq<char>)
    requires
        markup_kept(x),
        markup_kept(y),
    ensures
        markup_kept(x + y),
{
    let z = x + y;
    assert forall|j: int| 0 <= j < z.len() && z[j] == '<' implies opens_kept(z, j) by {
        if j < x.len() {
            assert(x[j] == '<');
            assert(opens_kept(x, j));
            let a = name_start(x, j);
            lemma_skip_run(x, a, Run::Alnum);
            assert(j + 1 < x.len());
            assert(z[j + 1] == x[j + 1]);
            assert(name_start(z, j) == a);
            lemma_skip_run_prefix(x, y, a, Run::Alnum);
            let b = skip_run(x, a, Run::Alnum);
            assert(z.subrange(a, b) =~= x.subrange(a, b));
        } else {
            let jj = j - x.len();
            assert(y[jj] == '<');
            assert(opens_kept(y, jj));
            let a = name_start(y, jj);
            if jj + 1 < y.len() {
                assert(z[j + 1] == y[jj + 1]);
            }
            assert(name_start(z, j) == x.len() + a);
            assert(a <= y.len());
            lemma_skip_run(y, a, Run::Alnum);
            lemma_skip_run_shift(x, y, a, Run::Alnum);
            let b = skip_run(y, a, Run::Alnum);
            assert(z.subrange(x.len() + a, x.len() + b) =~= y.subrange(a, b));
        }
    }
}

proof fn lemma_no_lt_concat(x: Seq<char>, y: Seq<char>)
    requires
        no_lt(x),
        no_lt(y),
    ensures
        no_lt(x + y),
{
    assert forall|j: int| 0 <= j < (x + y).len() implies #[trigger] (x + y)[j] != '<' by {
        if j < x.len() {
            assert((x + y)[j] == x[j]);
        } else {
            assert((x + y)[j] == y[j - x.len()]);
        }
    }
}

proof fn lemma_allowed_attr_no_lt(tag: Seq<char>, attr: Seq<char>)
    requires
        attr_allowed(tag, attr),
    ensures
        no_lt(attr),
{
    reveal_strlit("title");
    reveal_strlit("alt");
    reveal_strlit("href");
    reveal_strlit("src");
    reveal_strlit("width");
    reveal_strlit("height");
    reveal_strlit("colspan");
    reveal_strlit("rowspan");
}

proof fn lemma_render_attrs_no_lt(tag: Seq<char>, ps: Seq<(Seq<char>, Seq<char>)>)
    requires
        forall|k: int| 0 <= k < ps.len() ==> keep_attr(tag, (#[trigger] ps[k]).0, ps[k].1),
    ensures
        no_lt(render_attrs(ps)),
    decreases ps.len(),
{
    if ps.len() > 0 {
        lemma_render_attrs_no_lt(tag, ps.drop_last());
        let p = ps.last();
        assert(keep_attr(tag, ps[ps.len() - 1].0, ps[ps.len() - 1].1));
        lemma_allowed_attr_no_lt(tag, p.0);
        lemma_esc_safe(p.1);
        reveal_strlit(" ");
        reveal_strlit("=\"");
        reveal_strlit("\"");
        assert(no_lt(esc_seq(p.1)));
        assert(no_lt(" "@));
        assert(no_lt("=\""@));
        assert(no_lt("\""@));
        lemma_no_lt_concat(" "@, p.0);
        lemma_no_lt_concat(" "@ + p.0, "=\""@);
        lemma_no_lt_concat(" "@ + p.0 + "=\""@, esc_seq(p.1));
        lemma_no_lt_concat(" "@ + p.0 + "=\""@ + esc_seq(p.1), "\""@);
        lemma_no_lt_concat(render_attrs(ps.drop_last()), render_attr(p));
    }
}

proof fn lemma_render_attrs_starts(ps: Seq<(Seq<char>, Seq<char>)>)
    requires
        ps.len() > 0,
    ensures
        render_attrs(ps).len() > 0,
        render_attrs(ps)[0] == ' ',
    decreases ps.len(),
{
    reveal_strlit(" ");
    let r = render_attrs(ps.drop_last());
    let q = render_attr(ps.last());
    assert(q[0] == ' ');
    if ps.len() > 1 {
        lemma_render_attrs_starts(ps.drop_last());
        assert(render_attrs(ps)[0] == r[0]);
    } else {
        assert(r.len() == 0);
        assert(render_attrs(ps) =~= q);
    }
}

proof fn lemma_piece_markup_kept(p: Piece)
    requires
        piece_ok(p),
    ensures
        markup_kept(render_piece(p)),
{
    reveal_strlit("<");
    reveal_strlit("</");
    reveal_strlit(">");
    reveal_strlit("/>");
    match p {
        Piece::Text(t) => {
            assert(no_lt(t)) by {
                assert forall|j: int| 0 <= j < t.len() implies #[trigger] t[j] != '<' by {
                    if t[j] == '<' {
                        assert(t.contains('<'));
                    }
                }
            }
        },
        Piece::Open(n, ps) => {
            let x = render_piece(p);
            let close = if void_tag(n) {
                "/>"@
            } else {
                ">"@
            };
            let ra = render_attrs(ps);
            lemma_render_attrs_no_lt(n, ps);
            assert(x == "<"@ + n + ra + close);
            assert(no_lt(n));
            assert(no_lt(close));
            lemma_no_lt_concat(n, ra);
            lemma_no_lt_concat(n + ra, close);
            let tail = n + ra + close;
            assert(x =~= seq!['<'] + tail);
            let e: int = 1 + n.len() as int;
            assert(e < x.len()) by {
                assert(close.len() > 0);
            }
            if ps.len() > 0 {
                lemma_render_attrs_starts(ps);
                assert(x[e] == ra[0]);
            } else {
                assert(ra.len() == 0);
                assert(x[e] == close[0]);
            }
            assert(!is_ascii_alnum(x[e]));
            assert(x[1] == n[0]);
            assert(name_start(x, 0) == 1);
            assert forall|j: int| 1 <= j < e implies in_run(Run::Alnum, #[trigger] x[j]) by {
                assert(x[j] == n[j - 1]);
            }
            lemma_skip_run_exact(x, 1, e, Run::Alnum);
            assert(x.subrange(1, e) =~= n);
            assert forall|j: int| 0 <= j < x.len() && x[j] == '<' implies opens_kept(x, j) by {
                if j > 0 {
                    assert(x[j] == tail[j - 1]);
                }
            }
        },
        Piece::Close(n) => {
            let x = render_piece(p);
            assert(x =~= seq!['<', '/'] + n + seq!['>']);
            let e: int = 2 + n.len() as int;
            assert(x[e] == '>');
            assert(name_start(x, 0) == 2);
            assert forall|j: int| 2 <= j < e implies in_run(Run::Alnum, #[trigger] x[j]) by {
                assert(x[j] == n[j - 2]);
            }
            lemma_skip_run_exact(x, 2, e, Run::Alnum);
            assert(x.subrange(2, e) =~= n);
            assert forall|j: int| 0 <= j < x.len() && x[j] == '<' implies opens_kept(x, j) by {
                if j > 0 {
                    if j == 1 {
                    } else if j < e {
                        assert(x[j] == n[j - 2]);
                    }
                }
            }
        },
    }
}

proof fn lemma_render_markup_kept(ps: Seq<Piece>)
    requires
        all_ok(ps),
    ensures
        markup_kept(render(ps)),
    decreases ps.len(),
{
    if ps.len() > 0 {
        assert(piece_ok(ps[0]));
        assert(all_ok(ps.drop_first())) by {
            assert forall|k: int| 0 <= k < ps.drop_first().len() implies piece_ok(
                #[trigger] ps.drop_first()[k],
            ) by {
                assert(ps.drop_first()[k] == ps[k + 1]);
            }
        }
        lemma_render_markup_kept(ps.drop_first());
        lemma_piece_markup_kept(ps[0]);
        lemma_markup_kept_concat(render_piece(ps[0]), render(ps.drop_first()));
    }
}

/// Whatever the input, every `<` in the sanitised output starts a tag of an
/// allowlisted element: no other element, and no comment, survives.
pub proof fn lemma_scrub_keeps_only_allowlisted_tags(s: Seq<char>)
    ensures
        markup_kept(scrub_seq(s)),
{
    lemma_pieces_ok(s, 0);
    lemma_render_markup_kept(pieces_from(s, 0));
}

// ----------------------------------------------------------------------------
// Text and URLs, as laws

/// Text holding no `<` is written out unchanged.
pub proof fn lemma_plain_text_unchanged(s: Seq<char>)
    requires
        !s.contains('<'),
    ensures
        scrub_seq(s) == s,
{
    if s.len() > 0 {
        assert forall|j: int| 0 <= j < s.len() implies s[j] != '<' by {
            if s[j] == '<' {
                assert(s.contains('<'));
            }
        }
        lemma_find_char(s, 0, '<');
        assert(find_char_or_end(s, 0, '<') == s.len());
        assert(s.subrange(0, s.len() as int) =~= s);
        assert(pieces_from(s, s.len() as int) =~= Seq::empty());
        assert(pieces_from(s, 0) =~= seq![Piece::Text(s)]);
        lemma_render_cons(Piece::Text(s), Seq::empty());
        assert(render(Seq::<Piece>::empty()) =~= Seq::empty());
        assert(scrub_seq(s) =~= s);
    } else {
        assert(scrub_seq(s) =~= s);
    }
}

/// No `javascript:` URL passes, whatever its case or surrounding whitespace.
pub proof fn lemma_no_javascript_urls(value: Seq<char>)
    requires
        matches_at(lower_seq(trim_seq(value)), 0, "javascript:"@),
    ensures
        !url_allowed(value),
{
    reveal_strlit("javascript:");
    reveal_strlit("http");
    reveal_strlit("https");
    reveal_strlit("mailto");
    reveal_strlit("data:image/");
    let v = lower_seq(trim_seq(value));
    assert(v.subrange(0, 11) =~= "javascript:"@);
    assert forall|j: int| 0 <= j < 10 implies v[j] != ':' by {
        assert(v[j] == v.subrange(0, 11)[j]);
    }
    assert(v[10] == ':') by {
        assert(v[10] == v.subrange(0, 11)[10]);
    }
    lemma_find_char_first(v, 0, ':', 10);
    let scheme = v.take(10);
    assert(scheme =~= "javascript"@) by {
        reveal_strlit("javascript");
        assert forall|j: int| 0 <= j < 10 implies scheme[j] == "javascript"@[j] by {
            assert(scheme[j] == v.subrange(0, 11)[j]);
        }
    }
    reveal_strlit("javascript");
    assert(!scheme.contains('/')) by {
        if scheme.contains('/') {
            let j = choose|j: int| 0 <= j < scheme.len() && scheme[j] == '/';
            assert("javascript"@[j] == '/');
        }
    }
    assert(!scheme.contains('?')) by {
        if scheme.contains('?') {
            let j = choose|j: int| 0 <= j < scheme.len() && scheme[j] == '?';
            assert("javascript"@[j] == '?');
        }
    }
    assert(scheme != "http"@);
    assert(scheme != "https"@);
    assert(scheme != "mailto"@) by {
        assert(scheme[0] != "mailto"@[0]);
    }
    assert(!matches_at(v, 0, "data:image/"@)) by {
        if matches_at(v, 0, "data:image/"@) {
            assert(v.subrange(0, 11)[0] == v[0]);
            assert(v.subrange(0, 11)[0] == 'j');
            assert(v.subrange(0, 11) == "data:image/"@);
        }
    }
}

/// Plain web links pass: a value whose trimmed, lowercased text starts with
/// `http:`, `https:` or `mailto:` is kept, whatever follows.
pub proof fn lemma_web_urls_pass(value: Seq<char>, scheme: Seq<char>)
    requires
        scheme == "http"@ || scheme == "https"@ || scheme == "mailto"@,
        matches_at(lower_seq(trim_seq(value)), 0, scheme + ":"@),
    ensures
        url_allowed(value),
{
    reveal_strlit("http");
    reveal_strlit("https");
    reveal_strlit("mailto");
    reveal_strlit(":");
    let v = lower_seq(trim_seq(value));
    let l = scheme.len() as int;
    let pat = scheme + ":"@;
    assert(v.subrange(0, l + 1) =~= pat);
    assert forall|j: int| 0 <= j < l implies v[j] != ':' by {
        assert(v[j] == v.subrange(0, l + 1)[j]);
        assert(pat[j] == scheme[j]);
    }
    assert(v[l] == ':') by {
        assert(v[l] == v.subrange(0, l + 1)[l]);
    }
    lemma_find_char_first(v, 0, ':', l);
    assert(v.take(l) =~= scheme) by {
        assert forall|j: int| 0 <= j < l implies v.take(l)[j] == scheme[j] by {
            assert(v[j] == v.subrange(0, l + 1)[j]);
        }
    }
}

/// A `data:` URL passes only when it is a `data:image/` one.
pub proof fn lemma_data_urls_are_images(value: Seq<char>)
    requires
        matches_at(lower_seq(trim_seq(value)), 0, "data:"@),
        url_allowed(value),
    ensures
        matches_at(lower_seq(trim_seq(value)), 0, "data:image/"@),
{
    reveal_strlit("data:");
    reveal_strlit("data");
    reveal_strlit("http");
    reveal_strlit("https");
    reveal_strlit("mailto");
    let v = lower_seq(trim_seq(value));
    assert forall|j: int| 0 <= j < 4 implies v[j] != ':' by {
        assert(v[j] == v.subrange(0, 5)[j]);
    }
    assert(v[4] == ':') by {
        assert(v[4] == v.subrange(0, 5)[4]);
    }
    lemma_find_char_first(v, 0, ':', 4);
    let scheme = v.take(4);
    assert(scheme =~= "data"@) by {
        assert forall|j: int| 0 <= j < 4 implies scheme[j] == "data"@[j] by {
            assert(scheme[j] == v.subrange(0, 5)[j]);
        }
    }
    assert(!scheme.contains('/')) by {
        if scheme.contains('/') {
            let j = choose|j: int| 0 <= j < scheme.len() && scheme[j] == '/';
            assert("data"@[j] == '/');
        }
    }
    assert(!scheme.contains('?')) by {
        if scheme.contains('?') {
            let j = choose|j: int| 0 <= j < scheme.len() && scheme[j] == '?';
            assert("data"@[j] == '?');
        }
    }
    assert(scheme != "http"@) by {
        assert(scheme[0] != "http"@[0]);
    }
    assert(scheme != "https"@);
    assert(scheme != "mailto"@);
}

proof fn lemma_find_char_first(s: Seq<char>, from: int, c: char, p: int)
    requires
        0 <= from <= p < s.len(),
        s[p] == c,
        forall|j: int| from <= j < p ==> s[j] != c,
    ensures
        find_char(s, from, c) == Some(p),
    decreases p - from,
{
    if from < p {
        lemma_find_char_first(s, from + 1, c, p);
    }
}

// ----------------------------------------------------------------------------
// Escaping, undone

/// The characters that escaping turns into entities, in the order in which
/// attribute unescaping undoes them.
pub open spec fn special(k: int) -> char {
    if k == 0 {
        '"'
    } else if k == 1 {
        '\''
    } else if k == 2 {
        '<'
    } else if k == 3 {
        '>'
    } else {
        '&'
    }
}

/// What a character has become once escaping and then the first `k`
/// unescaping replacements have been applied.
pub open spec fn stage(k: int, c: char) -> Seq<char> {
    if (exists|j: int| 0 <= j < k && j < 5 && special(j) == c) {
        seq![c]
    } else {
        esc_char(c)
    }
}

pub open spec fn chunks(k: int, s: Seq<char>) -> Seq<char>
    decreases s.len(),
{
    if s.len() == 0 {
        Seq::empty()
    } else {
        stage(k, s[0]) + chunks(k, s.drop_first())
    }
}

pub open spec fn entity_of(k: int) -> Seq<char> {
    if k == 0 {
        "&quot;"@
    } else if k == 1 {
        "&#39;"@
    } else if k == 2 {
        "&lt;"@
    } else if k == 3 {
        "&gt;"@
    } else {
        "&amp;"@
    }
}

pub open spec fn no_amp(u: Seq<char>) -> bool {
    forall|j: int| 0 <= j < u.len() ==> #[trigger] u[j] != '&'
}

proof fn lemma_no_amp_passes(u: Seq<char>, x: Seq<char>, pat: Seq<char>, rep: Seq<char>)
    requires
        no_amp(u),
        pat.len() > 0,
        pat[0] == '&',
    ensures
        replace_all(u + x, pat, rep) == u + replace_all(x, pat, rep),
    decreases u.len(),
{
    if u.len() > 0 {
        let ux = u + x;
        assert(ux[0] == u[0]);
        assert(!matches_at(ux, 0, pat)) by {
            if matches_at(ux, 0, pat) {
                assert(ux.subrange(0, pat.len() as int)[0] == ux[0]);
            }
        }
        assert(ux.skip(1) =~= u.drop_first() + x);
        lemma_no_amp_passes(u.drop_first(), x, pat, rep);
        assert(ux.skip(1).len() < ux.len());
        assert(replace_all(ux, pat, rep) == seq![ux[0]] + replace_all(ux.skip(1), pat, rep));
        assert(u =~= seq![u[0]] + u.drop_first());
    }
}

proof fn lemma_entities(k: int)
    requires
        0 <= k < 5,
    ensures
        entity_of(k).len() >= 4,
        entity_of(k)[0] == '&',
        no_amp(entity_of(k).drop_first()),
        forall|m: int| 0 <= m < 5 && m != k ==> entity_of(m)[1] != entity_of(k)[1],
        esc_char(special(k)) == entity_of(k),
{
    reveal_strlit("&quot;");
    reveal_strlit("&#39;");
    reveal_strlit("&lt;");
    reveal_strlit("&gt;");
    reveal_strlit("&amp;");
    let e = entity_of(k);
    assert forall|j: int| 0 <= j < e.drop_first().len() implies #[trigger] e.drop_first()[j]
        != '&' by {
        assert(e.drop_first()[j] == e[j + 1]);
    }
}

proof fn lemma_chunk_step(k: int, c: char, x: Seq<char>)
    requires
        0 <= k < 5,
    ensures
        replace_all(stage(k, c) + x, entity_of(k), seq![special(k)]) == stage(k + 1, c)
            + replace_all(x, entity_of(k), seq![special(k)]),
{
    reveal_strlit("&quot;");
    reveal_strlit("&#39;");
    reveal_strlit("&lt;");
    reveal_strlit("&gt;");
    reveal_strlit("&amp;");
    lemma_entities(k);
    let pat = entity_of(k);
    let rep = seq![special(k)];
    let w = stage(k, c);
    let undone = exists|j: int| 0 <= j < k && j < 5 && special(j) == c;
    let sp = exists|j: int| 0 <= j < 5 && special(j) == c;
    if c == special(k) {
        assert(!undone) by {
            if undone {
                let j = choose|j: int| 0 <= j < k && j < 5 && special(j) == c;
                assert(special(j) != special(k));
            }
        }
        assert(w == pat);
        assert((w + x).subrange(0, pat.len() as int) =~= pat);
        assert((w + x).skip(pat.len() as int) =~= x);
        assert(stage(k + 1, c) == rep);
    } else {
        assert(stage(k + 1, c) == w) by {
            if exists|j: int| 0 <= j < k + 1 && j < 5 && special(j) == c {
                let j = choose|j: int| 0 <= j < k + 1 && j < 5 && special(j) == c;
                assert(j != k);
            }
        }
        if undone || !sp {
            if !undone {
                assert(special(0) != c && special(1) != c && special(2) != c && special(3) != c
                    && special(4) != c);
            }
            assert(w.len() == 1 && w[0] == c);
            assert(c != '&') by {
                if c == '&' {
                    if undone {
                        let j = choose|j: int| 0 <= j < k && j < 5 && special(j) == c;
                        assert(false);
                    } else {
                        assert(special(4) == c);
                    }
                }
            }
            assert(no_amp(w));
            lemma_no_amp_passes(w, x, pat, rep);
        } else {
            let m = choose|j: int| 0 <= j < 5 && special(j) == c;
            assert(m != k);
            lemma_entities(m);
            assert(w == entity_of(m));
            let wx = w + x;
            assert(!matches_at(wx, 0, pat)) by {
                if matches_at(wx, 0, pat) {
                    assert(wx.subrange(0, pat.len() as int)[1] == wx[1]);
                    assert(wx[1] == w[1]);
                }
            }
            assert(wx.skip(1) =~= w.drop_first() + x);
            lemma_no_amp_passes(w.drop_first(), x, pat, rep);
            assert(w =~= seq![w[0]] + w.drop_first());
        }
    }
}

proof fn lemma_chunks_step(k: int, s: Seq<char>)
    requires
        0 <= k < 5,
    ensures
        replace_all(chunks(k, s), entity_of(k), seq![special(k)]) == chunks(k + 1, s),
    decreases s.len(),
{
    if s.len() == 0 {
    } else {
        lemma_chunks_step(k, s.drop_first());
        lemma_chunk_step(k, s[0], chunks(k, s.drop_first()));
    }
}

proof fn lemma_esc_front(s: Seq<char>)
    requires
        s.len() > 0,
    ensures
        esc_seq(s) == esc_char(s[0]) + esc_seq(s.drop_first()),
    decreases s.len(),
{
    if s.len() == 1 {
        assert(s.drop_first() =~= Seq::<char>::empty());
        assert(s.drop_last() =~= Seq::<char>::empty());
        assert(esc_seq(s.drop_last()) =~= Seq::<char>::empty());
        assert(esc_seq(s.drop_first()) =~= Seq::<char>::empty());
        assert(s.last() == s[0]);
        assert(esc_seq(s) =~= esc_char(s[0]));
    } else {
        lemma_esc_front(s.drop_last());
        assert(s.drop_last().drop_first() =~= s.drop_first().drop_last());
        assert(s.drop_last()[0] == s[0]);
        assert(s.drop_first().last() == s.last());
        assert(esc_seq(s) =~= esc_char(s[0]) + esc_seq(s.drop_first()));
    }
}

proof fn lemma_esc_chunks(s: Seq<char>)
    ensures
        esc_seq(s) == chunks(0, s),
    decreases s.len(),
{
    if s.len() > 0 {
        lemma_esc_front(s);
        lemma_esc_chunks(s.drop_first());
    }
}

proof fn lemma_chunks_done(s: Seq<char>)
    ensures
        chunks(5, s) == s,
    decreases s.len(),
{
    if s.len() > 0 {
        lemma_chunks_done(s.drop_first());
        let c = s[0];
        assert(stage(5, c) == seq![c]) by {
            if c == '"' {
                assert(special(0) == c);
            } else if c == '\'' {
                assert(special(1) == c);
            } else if c == '<' {
                assert(special(2) == c);
            } else if c == '>' {
                assert(special(3) == c);
            } else if c == '&' {
                assert(special(4) == c);
            }
        }
        assert(s =~= seq![c] + s.drop_first());
    }
}

/// Unescaping an attribute value gives back exactly what was escaped: the
/// escaping the sanitiser writes values with loses nothing.
pub proof fn lemma_unescape_undoes_esc(s: Seq<char>)
    ensures
        unescape_seq(esc_seq(s)) == s,
{
    lemma_esc_chunks(s);
    lemma_chunks_step(0, s);
    lemma_chunks_step(1, s);
    lemma_chunks_step(2, s);
    lemma_chunks_step(3, s);
    lemma_chunks_step(4, s);
    lemma_chunks_done(s);
    reveal_strlit("\"");
    reveal_strlit("'");
    reveal_strlit("<");
    reveal_strlit(">");
    reveal_strlit("&");
    assert("\""@ =~= seq![special(0)]);
    assert("'"@ =~= seq![special(1)]);
    assert("<"@ =~= seq![special(2)]);
    assert(">"@ =~= seq![special(3)]);
    assert("&"@ =~= seq![special(4)]);
}

// ----------------------------------------------------------------------------
// Scrubbing twice

/// A kept tag's name is already lowercase, and no kept tag is dropped.
proof fn lemma_kept_name(n: Seq<char>)
    requires
        kept_tag(n),
    ensures
        lower_seq(n) == n,
        !dropped_tag(n),
{
    reveal_strlit("a");
    reveal_strlit("b");
    reveal_strlit("br");
    reveal_strlit("code");
    reveal_strlit("div");
    reveal_strlit("em");
    reveal_strlit("h1");
    reveal_strlit("h2");
    reveal_strlit("h3");
    reveal_strlit("h4");
    reveal_strlit("hr");
    reveal_strlit("i");
    reveal_strlit("img");
    reveal_strlit("li");
    reveal_strlit("ol");
    reveal_strlit("p");
    reveal_strlit("pre");
    reveal_strlit("small");
    reveal_strlit("span");
    reveal_strlit("strong");
    reveal_strlit("sub");
    reveal_strlit("sup");
    reveal_strlit("table");
    reveal_strlit("tbody");
    reveal_strlit("td");
    reveal_strlit("th");
    reveal_strlit("thead");
    reveal_strlit("tr");
    reveal_strlit("u");
    reveal_strlit("ul");
    reveal_strlit("script");
    reveal_strlit("style");
    reveal_strlit("iframe");
    reveal_strlit("object");
    reveal_strlit("embed");
    reveal_strlit("svg");
    reveal_strlit("math");
    assert(lower_seq(n) =~= n);
    if dropped_tag(n) {
        if n == "script"@ {
            assert(n[0] == 's' && n[1] == 'c' && n[2] == 'r' && n[3] == 'i' && n[4] == 'p' && n[5] == 't');
        }
        if n == "style"@ {
            assert(n[0] == 's' && n[1] == 't' && n[2] == 'y' && n[3] == 'l' && n[4] == 'e');
        }
        if n == "iframe"@ {
            assert(n[0] == 'i' && n[1] == 'f' && n[2] == 'r' && n[3] == 'a' && n[4] == 'm' && n[5] == 'e');
        }
        if n == "object"@ {
            assert(n[0] == 'o' && n[1] == 'b' && n[2] == 'j' && n[3] == 'e' && n[4] == 'c' && n[5] == 't');
        }
        if n == "embed"@ {
            assert(n[0] == 'e' && n[1] == 'm' && n[2] == 'b' && n[3] == 'e' && n[4] == 'd');
        }
        if n == "svg"@ {
            assert(n[0] == 's' && n[1] == 'v' && n[2] == 'g');
        }
        if n == "math"@ {
            assert(n[0] == 'm' && n[1] == 'a' && n[2] == 't' && n[3] == 'h');
        }
    }
}

/// An allowlisted attribute name is a non-empty run of lowercase letters.
proof fn lemma_allowed_attr_name(tag: Seq<char>, attr: Seq<char>)
    requires
        attr_allowed(tag, attr),
    ensures
        attr.len() > 0,
        forall|j: int| 0 <= j < attr.len() ==> 'a' <= #[trigger] attr[j] && attr[j] <= 'z',
        lower_seq(attr) == attr,
{
    reveal_strlit("title");
    reveal_strlit("alt");
    reveal_strlit("href");
    reveal_strlit("src");
    reveal_strlit("width");
    reveal_strlit("height");
    reveal_strlit("colspan");
    reveal_strlit("rowspan");
    assert(lower_seq(attr) =~= attr);
}

proof fn lemma_skip_to(x: Seq<char>, a: int, e: int, k: Run)
    requires
        0 <= a <= e <= x.len(),
        forall|j: int| a <= j < e ==> in_run(k, #[trigger] x[j]),
        e < x.len() ==> !in_run(k, x[e]),
    ensures
        skip_run(x, a, k) == e,
    decreases e - a,
{
    if a < e {
        lemma_skip_to(x, a + 1, e, k);
    }
}

proof fn lemma_render_attrs_front(a: (Seq<char>, Seq<char>), rest: Seq<(Seq<char>, Seq<char>)>)
    ensures
        render_attrs(seq![a] + rest) == render_attr(a) + render_attrs(rest),
    decreases rest.len(),
{
    if rest.len() == 0 {
        assert(seq![a] + rest =~= seq![a]);
        assert(seq![a].drop_last() =~= Seq::<(Seq<char>, Seq<char>)>::empty());
        assert(seq![a].last() == a);
        assert(render_attrs(seq![a]) == render_attrs(Seq::<(Seq<char>, Seq<char>)>::empty())
            + render_attr(a));
        assert(render_attrs(seq![a]) =~= render_attr(a));
        assert(render_attrs(rest) =~= Seq::<char>::empty());
        assert(render_attr(a) + render_attrs(rest) =~= render_attr(a));
    } else {
        lemma_render_attrs_front(a, rest.drop_last());
        assert((seq![a] + rest).drop_last() =~= seq![a] + rest.drop_last());
        assert((seq![a] + rest).last() == rest.last());
        assert(render_attr(a) + render_attrs(rest.drop_last()) + render_attr(rest.last()) =~= render_attr(
            a,
        ) + (render_attrs(rest.drop_last()) + render_attr(rest.last())));
    }
}

proof fn lemma_kept_attrs_all(tag: Seq<char>, ps: Seq<(Seq<char>, Seq<char>)>)
    requires
        forall|k: int| 0 <= k < ps.len() ==> keep_attr(tag, (#[trigger] ps[k]).0, ps[k].1),
    ensures
        kept_attrs(tag, ps) == ps,
    decreases ps.len(),
{
    if ps.len() > 0 {
        assert(keep_attr(tag, ps[ps.len() - 1].0, ps[ps.len() - 1].1));
        assert forall|k: int| 0 <= k < ps.drop_last().len() implies keep_attr(
            tag,
            (#[trigger] ps.drop_last()[k]).0,
            ps.drop_last()[k].1,
        ) by {
            assert(ps.drop_last()[k] == ps[k]);
        }
        lemma_kept_attrs_all(tag, ps.drop_last());
        assert(ps.drop_last().push(ps.last()) =~= ps);
    }
}

spec fn no_gt(x: Seq<char>) -> bool {
    forall|j: int| 0 <= j < x.len() ==> #[trigger] x[j] != '>' && x[j] != '<'
}

proof fn lemma_no_gt_concat(x: Seq<char>, y: Seq<char>)
    requires
        no_gt(x),
        no_gt(y),
    ensures
        no_gt(x + y),
{
    assert forall|j: int| 0 <= j < (x + y).len() implies #[trigger] (x + y)[j] != '>' && (x
        + y)[j] != '<' by {
        if j >= x.len() {
            assert((x + y)[j] == y[j - x.len()]);
        } else {
            assert((x + y)[j] == x[j]);
        }
    }
}

proof fn lemma_render_attrs_no_gt(tag: Seq<char>, ps: Seq<(Seq<char>, Seq<char>)>)
    requires
        forall|k: int| 0 <= k < ps.len() ==> keep_attr(tag, (#[trigger] ps[k]).0, ps[k].1),
    ensures
        no_gt(render_attrs(ps)),
    decreases ps.len(),
{
    if ps.len() > 0 {
        assert forall|k: int| 0 <= k < ps.drop_last().len() implies keep_attr(
            tag,
            (#[trigger] ps.drop_last()[k]).0,
            ps.drop_last()[k].1,
        ) by {
            assert(ps.drop_last()[k] == ps[k]);
        }
        lemma_render_attrs_no_gt(tag, ps.drop_last());
        let p = ps.last();
        assert(keep_attr(tag, ps[ps.len() - 1].0, ps[ps.len() - 1].1));
        lemma_allowed_attr_name(tag, p.0);
        lemma_esc_safe(p.1);
        reveal_strlit(" ");
        reveal_strlit("=\"");
        reveal_strlit("\"");
        assert(no_gt(esc_seq(p.1)));
        assert(no_gt(p.0));
        assert(no_gt(" "@));
        assert(no_gt("=\""@));
        assert(no_gt("\""@));
        lemma_no_gt_concat(" "@, p.0);
        lemma_no_gt_concat(" "@ + p.0, "=\""@);
        lemma_no_gt_concat(" "@ + p.0 + "=\""@, esc_seq(p.1));
        lemma_no_gt_concat(" "@ + p.0 + "=\""@ + esc_seq(p.1), "\""@);
        lemma_no_gt_concat(render_attrs(ps.drop_last()), render_attr(p));
    }
}

/// Reading back rendered attributes gives the same attributes.
proof fn lemma_attrs_parse(
    x: Seq<char>,
    i: int,
    tag: Seq<char>,
    ps: Seq<(Seq<char>, Seq<char>)>,
    tail: Seq<char>,
)
    requires
        0 <= i <= x.len(),
        x.skip(i) == render_attrs(ps) + tail,
        tail == Seq::<char>::empty() || tail == "/"@,
        forall|k: int| 0 <= k < ps.len() ==> keep_attr(tag, (#[trigger] ps[k]).0, ps[k].1),
    ensures
        attrs_from(x, i) == ps,
    decreases ps.len(),
{
    reveal_strlit("/");
    if ps.len() == 0 {
        assert(render_attrs(ps) =~= Seq::<char>::empty());
        assert(x.skip(i) =~= tail);
        if tail.len() != 0 {
            assert(x.len() == i + 1);
            assert(x[i] == x.skip(i)[0]);
            lemma_skip_to(x, i, i + 1, Run::SpaceOrSlash);
            lemma_skip_to(x, i + 1, i + 1, Run::Name);
        }
    } else {
        let a = ps[0];
        let rest = ps.drop_first();
        assert(seq![a] + rest =~= ps);
        lemma_render_attrs_front(a, rest);
        assert(keep_attr(tag, ps[0].0, ps[0].1));
        lemma_allowed_attr_name(tag, a.0);
        lemma_esc_safe(a.1);
        lemma_unescape_undoes_esc(a.1);
        reveal_strlit(" ");
        reveal_strlit("=\"");
        reveal_strlit("\"");
        let name = a.0;
        let e = esc_seq(a.1);
        let h = render_attr(a);
        let r = h + (render_attrs(rest) + tail);
        assert(x.skip(i) =~= r);
        assert(h.len() == name.len() + e.len() + 4);
        let nl = name.len() as int;
        let el = e.len() as int;
        let j = i + 1;
        let k = j + name.len();
        let q = k + 1;
        let cl = q + 1 + e.len();
        assert forall|t: int| 0 <= t < r.len() implies x[i + t] == #[trigger] r[t] by {
            assert(x.skip(i)[t] == x[i + t]);
        }
        assert(r[0] == ' ');
        assert(x[i] == ' ');
        assert forall|t: int| 0 <= t < name.len() implies x[j + t] == #[trigger] name[t] by {
            assert(r[1 + t] == h[1 + t]);
            assert(x[i + (1 + t)] == r[1 + t]);
        }
        assert(r[1 + nl] == '=');
        assert(x[k] == '=');
        assert(r[2 + nl] == '"');
        assert(x[q] == '"');
        assert forall|t: int| 0 <= t < e.len() implies x[q + 1 + t] == #[trigger] e[t] by {
            assert(r[3 + nl + t] == h[3 + nl + t]);
            assert(x[i + (3 + nl + t)] == r[3 + nl + t]);
        }
        assert(r[3 + nl + el] == '"');
        assert(x[cl] == '"');
        // The name.
        assert(x[j] == name[0]);
        lemma_skip_to(x, i, j, Run::SpaceOrSlash);
        assert forall|t: int| j <= t < k implies in_run(Run::Name, #[trigger] x[t]) by {
            assert(x[j + (t - j)] == name[t - j]);
        }
        lemma_skip_to(x, j, k, Run::Name);
        assert(x.subrange(j, k) =~= name) by {
            assert forall|t: int| 0 <= t < name.len() implies #[trigger] x.subrange(j, k)[t]
                == name[t] by {
                assert(x[j + t] == name[t]);
            }
        }
        // The `=` and the opening quote.
        lemma_skip_to(x, k, k, Run::Space);
        lemma_skip_to(x, q, q, Run::Space);
        // The value, up to the closing quote.
        assert forall|t: int| q + 1 <= t < cl implies #[trigger] x[t] != '"' by {
            assert(x[q + 1 + (t - q - 1)] == e[t - q - 1]);
            assert(!markup_char(e[t - q - 1]));
        }
        lemma_find_char_first(x, q + 1, '"', cl);
        assert(x.subrange(q + 1, cl) =~= e) by {
            assert forall|t: int| 0 <= t < e.len() implies #[trigger] x.subrange(q + 1, cl)[t]
                == e[t] by {
                assert(x[q + 1 + t] == e[t]);
            }
        }
        // The rest.
        assert(x.skip(cl + 1) =~= render_attrs(rest) + tail) by {
            assert(cl + 1 - i == h.len());
            assert(r.skip(h.len() as int) =~= render_attrs(rest) + tail);
        }
        assert forall|m: int| 0 <= m < rest.len() implies keep_attr(
            tag,
            (#[trigger] rest[m]).0,
            rest[m].1,
        ) by {
            assert(rest[m] == ps[m + 1]);
        }
        lemma_attrs_parse(x, cl + 1, tag, rest, tail);
        assert(attrs_from(x, i) == seq![(name, a.1)] + attrs_from(x, cl + 1));
    }
}

/// A rendered tag, read back, is the same tag.
proof fn lemma_tag_piece(s: Seq<char>, i: int, p: Piece)
    requires
        0 <= i,
        i + render_piece(p).len() <= s.len(),
        s.subrange(i, i + render_piece(p).len()) == render_piece(p),
        piece_ok(p),
        !(p is Text),
    ensures
        pieces_from(s, i) == seq![p] + pieces_from(s, i + render_piece(p).len()),
{
    let w = render_piece(p);
    let wl = w.len() as int;
    assert forall|t: int| 0 <= t < wl implies s[i + t] == #[trigger] w[t] by {
        assert(s.subrange(i, i + wl)[t] == s[i + t]);
    }
    reveal_strlit("<");
    reveal_strlit(">");
    reveal_strlit("/>");
    reveal_strlit("</");
    reveal_strlit("/");
    reveal_strlit("<!--");
    let end = i + wl - 1;
    match p {
        Piece::Open(n, ps) => {
            lemma_kept_name(n);
            lemma_render_attrs_no_gt(n, ps);
            let tail = if void_tag(n) {
                "/"@
            } else {
                Seq::<char>::empty()
            };
            let ra = render_attrs(ps);
            let body = n + ra + tail;
            assert(w =~= "<"@ + body + ">"@);
            assert(wl == body.len() + 2);
            let nl = n.len() as int;
            assert(w[0] == '<');
            assert(s[i + 0] == w[0]);
            assert(s[i] == '<');
            assert(w[1] == n[0]);
            assert(s[i + 1] == n[0]);
            assert(!matches_at(s, i, "<!--"@)) by {
                if matches_at(s, i, "<!--"@) {
                    assert(s.subrange(i, i + 4)[1] == s[i + 1]);
                }
            }
            assert forall|t: int| i <= t < end implies #[trigger] s[t] != '>' by {
                assert(s[i + (t - i)] == w[t - i]);
                if t > i {
                    let b = t - i - 1;
                    assert(w[t - i] == body[b]);
                    if b < nl {
                        assert(body[b] == n[b]);
                        assert(is_ascii_alnum(n[b]));
                    } else if b < nl + ra.len() {
                        assert(body[b] == ra[b - nl]);
                    }
                }
            }
            assert(w[wl - 1] == '>');
            assert(s[end] == '>');
            lemma_find_char_first(s, i, '>', end);
            let inner = s.subrange(i + 1, end);
            assert(inner =~= body) by {
                assert forall|t: int| 0 <= t < body.len() implies #[trigger] inner[t] == body[t] by {
                    assert(inner[t] == s[i + 1 + t]);
                    assert(w[1 + t] == body[t]);
                }
            }
            // The name.
            assert(inner[0] == n[0]);
            lemma_skip_to(inner, 0, 0, Run::Slash);
            if ps.len() > 0 {
                lemma_render_attrs_starts(ps);
            }
            assert(nl < inner.len() ==> inner[nl] == ' ' || inner[nl] == '/') by {
                if nl < inner.len() {
                    if ps.len() > 0 {
                        assert(inner[nl] == ra[0]);
                    } else {
                        assert(inner[nl] == tail[0]);
                    }
                }
            }
            assert forall|t: int| 0 <= t < nl implies in_run(Run::Alnum, #[trigger] inner[t]) by {
                assert(inner[t] == n[t]);
            }
            lemma_skip_to(inner, 0, nl, Run::Alnum);
            assert(inner.subrange(0, nl) =~= n);
            assert(tag_name(inner) == n);
            assert(!closing_tag(inner));
            // The attributes.
            assert forall|t: int| 0 <= t < nl implies in_run(Run::Word, #[trigger] inner[t]) by {
                assert(inner[t] == n[t]);
            }
            if ps.len() > 0 {
                lemma_skip_to(inner, 0, nl, Run::Word);
                assert(inner.skip(nl) =~= ra + tail);
                lemma_attrs_parse(inner, nl, n, ps, tail);
            } else {
                assert forall|t: int| 0 <= t < inner.len() implies in_run(
                    Run::Word,
                    #[trigger] inner[t],
                ) by {
                    if t >= nl {
                        assert(inner[t] == tail[t - nl]);
                    }
                }
                lemma_skip_to(inner, 0, inner.len() as int, Run::Word);
                assert(attrs_from(inner, inner.len() as int) == ps);
            }
            assert(attrs_of(inner) == ps);
            lemma_kept_attrs_all(n, ps);
        },
        Piece::Close(n) => {
            lemma_kept_name(n);
            let nl = n.len() as int;
            assert(w =~= "</"@ + n + ">"@);
            assert(wl == nl + 3);
            assert(w[0] == '<' && w[1] == '/');
            assert(s[i + 0] == w[0]);
            assert(s[i + 1] == w[1]);
            assert(s[i] == '<');
            assert(!matches_at(s, i, "<!--"@)) by {
                if matches_at(s, i, "<!--"@) {
                    assert(s.subrange(i, i + 4)[1] == s[i + 1]);
                }
            }
            assert forall|t: int| i <= t < end implies #[trigger] s[t] != '>' by {
                assert(s[i + (t - i)] == w[t - i]);
                if t > i + 1 {
                    assert(w[t - i] == n[t - i - 2]);
                    assert(is_ascii_alnum(n[t - i - 2]));
                }
            }
            assert(w[wl - 1] == '>');
            assert(s[i + (wl - 1)] == w[wl - 1]);
            assert(s[end] == '>');
            lemma_find_char_first(s, i, '>', end);
            let inner = s.subrange(i + 1, end);
            assert(inner =~= "/"@ + n) by {
                assert forall|t: int| 0 <= t < nl + 1 implies #[trigger] inner[t] == ("/"@ + n)[t] by {
                    assert(inner[t] == s[i + 1 + t]);
                    assert(w[1 + t] == ("/"@ + n)[t]);
                }
            }
            assert(inner[1] == n[0]);
            lemma_skip_to(inner, 0, 1, Run::Slash);
            assert forall|t: int| 1 <= t < nl + 1 implies in_run(Run::Alnum, #[trigger] inner[t]) by {
                assert(inner[t] == n[t - 1]);
            }
            lemma_skip_to(inner, 1, nl + 1, Run::Alnum);
            assert(inner.subrange(1, nl + 1) =~= n);
            assert(tag_name(inner) == n);
            assert(closing_tag(inner));
        },
        Piece::Text(_) => {},
    }
}

/// How many text pieces the pieces begin with.
spec fn lead_count(ps: Seq<Piece>) -> nat
    decreases ps.len(),
{
    if ps.len() > 0 && ps[0] is Text {
        1 + lead_count(ps.drop_first())
    } else {
        0
    }
}

/// The text the pieces begin with.
spec fn lead_text(ps: Seq<Piece>) -> Seq<char>
    decreases ps.len(),
{
    if ps.len() > 0 {
        match ps[0] {
            Piece::Text(t) => t + lead_text(ps.drop_first()),
            _ => Seq::empty(),
        }
    } else {
        Seq::empty()
    }
}

proof fn lemma_all_ok_rest(ps: Seq<Piece>)
    requires
        all_ok(ps),
        ps.len() > 0,
    ensures
        all_ok(ps.drop_first()),
        piece_ok(ps[0]),
{
    assert forall|k: int| 0 <= k < ps.drop_first().len() implies piece_ok(
        #[trigger] ps.drop_first()[k],
    ) by {
        assert(ps.drop_first()[k] == ps[k + 1]);
    }
}

proof fn lemma_no_lt_join(x: Seq<char>, y: Seq<char>)
    requires
        !x.contains('<'),
        !y.contains('<'),
    ensures
        !(x + y).contains('<'),
{
    if (x + y).contains('<') {
        let j = choose|j: int| 0 <= j < (x + y).len() && (x + y)[j] == '<';
        if j < x.len() {
            assert(x[j] == '<');
        } else {
            assert(y[j - x.len()] == '<');
        }
    }
}

proof fn lemma_lead(ps: Seq<Piece>)
    requires
        all_ok(ps),
    ensures
        lead_count(ps) <= ps.len(),
        render(ps) == lead_text(ps) + render(ps.skip(lead_count(ps) as int)),
        !lead_text(ps).contains('<'),
        all_ok(ps.skip(lead_count(ps) as int)),
        lead_count(ps) < ps.len() ==> !(ps[lead_count(ps) as int] is Text),
    decreases ps.len(),
{
    if ps.len() > 0 && ps[0] is Text {
        let rest = ps.drop_first();
        lemma_all_ok_rest(ps);
        lemma_lead(rest);
        let t = ps[0]->Text_0;
        let lc = lead_count(rest) as int;
        assert(ps.skip(1 + lc) =~= rest.skip(lc));
        assert(render(ps) == t + render(rest));
        assert(t + (lead_text(rest) + render(rest.skip(lc))) =~= (t + lead_text(rest)) + render(
            rest.skip(lc),
        ));
        lemma_no_lt_join(t, lead_text(rest));
        if lc < rest.len() {
            assert(ps[1 + lc] == rest[lc]);
        }
    } else {
        assert(ps.skip(0) =~= ps);
        assert(Seq::<char>::empty() + render(ps) =~= render(ps));
        assert(!Seq::<char>::empty().contains('<'));
    }
}

/// A rendering of well-formed pieces that is not empty and does not start
/// with text starts with a `<`.
proof fn lemma_render_starts_tag(ps: Seq<Piece>)
    requires
        all_ok(ps),
        ps.len() > 0,
        !(ps[0] is Text),
    ensures
        render(ps).len() > 0,
        render(ps)[0] == '<',
{
    reveal_strlit("<");
    reveal_strlit("</");
    assert(render(ps) == render_piece(ps[0]) + render(ps.drop_first()));
    assert(render_piece(ps[0])[0] == '<');
}

/// Reading back the rendering of well-formed pieces, after text without a
/// `<`, renders the same characters again.
proof fn lemma_rescrub(s: Seq<char>, i: int, u: Seq<char>, ps: Seq<Piece>)
    requires
        0 <= i <= s.len(),
        all_ok(ps),
        !u.contains('<'),
        s.skip(i) == u + render(ps),
    ensures
        render(pieces_from(s, i)) == u + render(ps),
    decreases s.len() - i,
{
    lemma_lead(ps);
    let lc = lead_count(ps) as int;
    let qs = ps.skip(lc);
    let v = u + lead_text(ps);
    lemma_no_lt_join(u, lead_text(ps));
    assert(s.skip(i) =~= v + render(qs));
    let vl = v.len() as int;
    if vl > 0 {
        assert(s[i] == s.skip(i)[0]);
        assert(s[i] == v[0]);
        assert(v[0] != '<') by {
            if v[0] == '<' {
                assert(v.contains('<'));
            }
        }
        let next = i + vl;
        assert forall|t: int| i <= t < next implies #[trigger] s[t] != '<' by {
            assert(s[t] == s.skip(i)[t - i]);
            assert(s.skip(i)[t - i] == v[t - i]);
            if v[t - i] == '<' {
                assert(v.contains('<'));
            }
        }
        if next < s.len() {
            lemma_render_starts_tag(qs);
            assert(s[next] == s.skip(i)[vl]);
            lemma_find_char_first(s, i, '<', next);
        } else {
            lemma_find_char(s, i, '<');
        }
        assert(find_char_or_end(s, i, '<') == next);
        assert(s.subrange(i, next) =~= v);
        assert(s.skip(next) =~= render(qs)) by {
            assert forall|t: int| 0 <= t < s.skip(next).len() implies #[trigger] s.skip(next)[t]
                == render(qs)[t] by {
                assert(s.skip(next)[t] == s[next + t]);
                assert(s.skip(i)[vl + t] == s[i + (vl + t)]);
                assert((v + render(qs))[vl + t] == render(qs)[t]);
            }
        }
        assert(s.skip(next) =~= Seq::<char>::empty() + render(qs));
        assert(!Seq::<char>::empty().contains('<'));
        lemma_rescrub(s, next, Seq::empty(), qs);
        assert(pieces_from(s, i) == seq![Piece::Text(v)] + pieces_from(s, next));
        lemma_render_cons(Piece::Text(v), pieces_from(s, next));
        assert(v + (Seq::<char>::empty() + render(qs)) =~= u + (lead_text(ps) + render(qs)));
    } else {
        assert(u =~= Seq::<char>::empty());
        if qs.len() == 0 {
            assert(render(qs) =~= Seq::<char>::empty());
            assert(s.skip(i).len() == 0);
            assert(pieces_from(s, i) =~= Seq::<Piece>::empty());
            assert(render(ps) =~= Seq::<char>::empty()) by {
                assert(lead_text(ps) + render(qs) =~= Seq::<char>::empty());
            }
        } else {
            let p = qs[0];
            let rest = qs.drop_first();
            lemma_all_ok_rest(qs);
            assert(qs =~= seq![p] + rest);
            lemma_render_cons(p, rest);
            let w = render_piece(p);
            let next = i + w.len();
            assert(s.skip(i) =~= w + render(rest));
            assert(s.subrange(i, next) =~= w);
            lemma_tag_piece(s, i, p);
            let wl = w.len() as int;
            assert(s.skip(next) =~= render(rest)) by {
                assert forall|t: int| 0 <= t < s.skip(next).len() implies #[trigger] s.skip(
                    next,
                )[t] == render(rest)[t] by {
                    assert(s.skip(next)[t] == s[next + t]);
                    assert(s.skip(i)[wl + t] == s[i + (wl + t)]);
                    assert((w + render(rest))[wl + t] == render(rest)[t]);
                }
            }
            assert(s.skip(next) =~= Seq::<char>::empty() + render(rest));
            assert(!Seq::<char>::empty().contains('<'));
            assert(w.len() > 0) by {
                reveal_strlit("<");
                reveal_strlit("</");
            }
            lemma_rescrub(s, next, Seq::empty(), rest);
            lemma_render_cons(p, pieces_from(s, next));
            assert(Seq::<char>::empty() + render(ps) =~= w + render(rest)) by {
                assert(lead_text(ps) =~= Seq::<char>::empty());
            }
            assert(Seq::<char>::empty() + render(rest) =~= render(rest));
        }
    }
}

/// Scrubbing is done in one pass: scrubbing what it wrote changes nothing.
pub proof fn lemma_scrub_idempotent(s: Seq<char>)
    ensures
        scrub_seq(scrub_seq(s)) == scrub_seq(s),
{
    let ps = pieces_from(s, 0);
    lemma_pieces_ok(s, 0);
    let x = render(ps);
    assert(x.skip(0) =~= Seq::<char>::empty() + x);
    assert(!Seq::<char>::empty().contains('<'));
    lemma_rescrub(x, 0, Seq::empty(), ps);
    assert(Seq::<char>::empty() + x =~= x);
}

} // verus!
