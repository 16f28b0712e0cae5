//! The pictures a balloon refers to: finding the reference, naming the copy
//! the site keeps, and pointing the balloon at it; and which archive entries
//! hold the KML and a picture.

use vstd::prelude::*;
use std::ops::Range;

use crate::kml::{opt_view, Mark, MarkV};
use crate::text::{
    chars_of, eq_lit, find_char, find_char_from, find_char_or_end, find_seq, find_seq_from,
    is_ascii_alnum, is_ascii_ws, ascii_ws, lemma_find_char, lemma_find_seq, lemma_skip_run, lower_seq, lower_vec,
    matches_at, matches_at_exec, push_all, replace_all, replace_vec, skip_run, skip_run_exec,
    slice_chars, string_of, ascii_alnum, Run, decimal, decimal_string, lemma_decimal_len,
    lemma_decimal_injective,
};

verus! {

// ----------------------------------------------------------------------------
// The picture reference

/// In a tag (`tag` runs up to its `>`), the position of the `=` of the
/// first `src` attribute at or after `k`: a `src` preceded by ASCII
/// whitespace and followed, after optional whitespace, by `=`. A `src` inside
/// another name (`data-src`) does not count.
pub open spec fn src_attr(tag: Seq<char>, k: int) -> Option<int>
    decreases tag.len() + 1 - k,
{
    if k < 0 {
        None
    } else {
        match find_seq(tag, k, "src"@) {
            None => None,
            Some(at) => {
                proof {
                    reveal_strlit("src");
                    lemma_find_seq(tag, k, "src"@);
                }
                let i = skip_run(tag, at + 3, Run::Space);
                if at > 0 && is_ascii_ws(tag[at - 1]) && i < tag.len() && tag[i] == '=' {
                    Some(i)
                } else {
                    src_attr(tag, at + 1)
                }
            },
        }
    }
}

proof fn lemma_src_attr(tag: Seq<char>, k: int)
    requires
        0 <= k,
    ensures
        src_attr(tag, k) matches Some(i) ==> k + 3 <= i < tag.len() && tag[i] == '=',
    decreases tag.len() + 1 - k,
{
    reveal_strlit("src");
    lemma_find_seq(tag, k, "src"@);
    if let Some(at) = find_seq(tag, k, "src"@) {
        lemma_skip_run(tag, at + 3, Run::Space);
        lemma_src_attr(tag, at + 1);
    }
}

/// The span of the first `<img src=…>` value in lowercased balloon HTML,
/// searching for `<img` from position `from`. Within an `<img` tag (up to its
/// `>`), the first `src` attribute (see `src_attr`) gives the value: after
/// optional whitespace, a double- or single-quoted
/// string, or else a run up to the next space; an empty value does not count
/// and the search goes on after the tag.
pub open spec fn img_src_from(low: Seq<char>, from: int) -> Option<(int, int)>
    decreases low.len() - from,
{
    if from < 0 {
        None
    } else {
        match find_seq(low, from, "<img"@) {
            None => None,
            Some(start) => {
                proof {
                    reveal_strlit("<img");
                    lemma_find_seq(low, from, "<img"@);
                    lemma_find_char(low, start, '>');
                }
                let end = find_char_or_end(low, start, '>');
                let next = if end > start + 4 {
                    end
                } else {
                    start + 4
                };
                let tag = low.take(end);
                match src_attr(tag, start) {
                    None => img_src_from(low, next),
                    Some(i) => {
                        {
                            let j = skip_run(tag, i + 1, Run::Space);
                            let quote = j < low.len() && (low[j] == '"' || low[j] == '\'');
                            let open = if quote {
                                j + 1
                            } else {
                                j
                            };
                            let term = if quote {
                                low[j]
                            } else {
                                ' '
                            };
                            let close = match find_char(tag, open, term) {
                                Some(c) => c,
                                None => end,
                            };
                            if close > open {
                                Some((open, close))
                            } else {
                                img_src_from(low, next)
                            }
                        }
                    },
                }
            },
        }
    }
}

/// Span of the first `<img src=…>` value in balloon HTML. ASCII lowercasing
/// keeps every position where it was, so the span is also one of `desc`.
pub open spec fn img_src_span_of(desc: Seq<char>) -> Option<(int, int)> {
    img_src_from(lower_seq(desc), 0)
}

proof fn lemma_img_src_bounds(low: Seq<char>, from: int)
    ensures
        img_src_from(low, from) matches Some((o, c)) ==> 0 <= o < c <= low.len(),
    decreases low.len() - from,
{
    if from >= 0 {
        if let Some(start) = find_seq(low, from, "<img"@) {
            reveal_strlit("<img");
            lemma_find_seq(low, from, "<img"@);
            lemma_find_char(low, start, '>');
            let end = find_char_or_end(low, start, '>');
            let next = if end > start + 4 {
                end
            } else {
                start + 4
            };
            lemma_img_src_bounds(low, next);
            let tag = low.take(end);
            lemma_src_attr(tag, start);
            if let Some(i) = src_attr(tag, start) {
                {
                    lemma_skip_run(tag, i + 1, Run::Space);
                    let j = skip_run(tag, i + 1, Run::Space);
                    let quote = j < low.len() && (low[j] == '"' || low[j] == '\'');
                    let open = if quote {
                        j + 1
                    } else {
                        j
                    };
                    let term = if quote {
                        low[j]
                    } else {
                        ' '
                    };
                    if open <= tag.len() {
                        lemma_find_char(tag, open, term);
                    }
                }
            }
        }
    }
}

fn src_attr_exec(tag: &Vec<char>, from: usize, src: &Vec<char>) -> (r: Option<usize>)
    requires
        src@ == "src"@,
    ensures
        match r {
            Some(i) => src_attr(tag@, from as int) == Some(i as int),
            None => src_attr(tag@, from as int) is None,
        },
{
    proof {
        reveal_strlit("src");
    }
    let mut k = from;
    loop
        invariant
            src@ == "src"@,
            src@.len() == 3,
            src_attr(tag@, from as int) == src_attr(tag@, k as int),
        decreases tag.len() + 1 - k,
    {
        proof {
            lemma_find_seq(tag@, k as int, src@);
        }
        match find_seq_from(tag, k, src) {
            None => {
                return None;
            },
            Some(at) => {
                proof {
                    lemma_skip_run(tag@, at + 3, Run::Space);
                }
                let i = skip_run_exec(tag, at + 3, Run::Space);
                if at > 0 && ascii_ws(tag[at - 1]) && i < tag.len() && tag[i] == '=' {
                    return Some(i);
                }
                k = at + 1;
            },
        }
    }
}

/// Position range of the first `<img src=…>` value in balloon HTML (counted
/// in characters), so the reference can be read and then rewritten in place.
pub fn img_src_span(desc: &str) -> (r: Option<Range<usize>>)
    ensures
        match r {
            Some(span) => img_src_span_of(desc@) == Some((span.start as int, span.end as int)),
            None => img_src_span_of(desc@) is None,
        },
        r matches Some(span) ==> span.start < span.end <= desc@.len(),
{
    proof {
        lemma_img_src_bounds(lower_seq(desc@), 0);
    }
    let d = chars_of(desc);
    let low = lower_vec(&d);
    let n = low.len();
    let img = chars_of("<img");
    let src = chars_of("src");
    proof {
        reveal_strlit("<img");
        reveal_strlit("src");
    }
    let mut from: usize = 0;
    while from <= n
        invariant
            n == low.len(),
            low@ == lower_seq(d@),
            d@ == desc@,
            img@ == "<img"@,
            src@ == "src"@,
            img@.len() == 4,
            src@.len() == 3,
            img_src_span_of(desc@) == img_src_from(low@, from as int),
        decreases n + 1 - from,
    {
        proof {
            lemma_find_seq(low@, from as int, img@);
        }
        let start = match find_seq_from(&low, from, &img) {
            None => {
                return None;
            },
            Some(st) => st,
        };
        proof {
            lemma_find_char(low@, start as int, '>');
        }
        let end = match find_char_from(&low, start, '>') {
            Some(e) => e,
            None => n,
        };
        let next = if end > start + 4 {
            end
        } else {
            start + 4
        };
        let tag = slice_chars(&low, 0, end);
        assert(tag@ =~= low@.take(end as int));
        proof {
            lemma_src_attr(tag@, start as int);
        }
        match src_attr_exec(&tag, start, &src) {
            None => {
                from = next;
            },
            Some(i) => {
                {
                    proof {
                        lemma_skip_run(tag@, i + 1, Run::Space);
                    }
                    let j = skip_run_exec(&tag, i + 1, Run::Space);
                    let quote = j < n && (low[j] == '"' || low[j] == '\'');
                    let open = if quote {
                        j + 1
                    } else {
                        j
                    };
                    let term = if quote {
                        low[j]
                    } else {
                        ' '
                    };
                    proof {
                        lemma_find_char(tag@, open as int, term);
                    }
                    let close = match find_char_from(&tag, open, term) {
                        Some(c) => c,
                        None => end,
                    };
                    if close > open {
                        return Some(Range { start: open, end: close });
                    }
                    from = next;
                }
            },
        }
    }
    None
}

// ----------------------------------------------------------------------------
// Names

/// Undoing the entities a balloon may use in a picture reference, in the
/// order the replacements are made.
pub open spec fn unescape_entities_seq(s: Seq<char>) -> Seq<char> {
    replace_all(
        replace_all(
            replace_all(
                replace_all(replace_all(s, "&amp;"@, "&"@), "&quot;"@, "\""@),
                "&#39;"@,
                "'"@,
            ),
            "&lt;"@,
            "<"@,
        ),
        "&gt;"@,
        ">"@,
    )
}

fn replace_lit(s: &Vec<char>, pat: &str, rep: &str) -> (r: Vec<char>)
    requires
        pat@.len() > 0,
    ensures
        r@ == replace_all(s@, pat@, rep@),
{
    let p = chars_of(pat);
    let q = chars_of(rep);
    replace_vec(s, &p, &q)
}

/// The picture reference with its entities undone.
pub fn unescape_entities(s: &str) -> (r: String)
    ensures
        r@ == unescape_entities_seq(s@),
{
    proof {
        reveal_strlit("&quot;");
        reveal_strlit("&#39;");
        reveal_strlit("&lt;");
        reveal_strlit("&gt;");
        reveal_strlit("&amp;");
    }
    let v = chars_of(s);
    let a = replace_lit(&v, "&amp;", "&");
    let b = replace_lit(&a, "&quot;", "\"");
    let c = replace_lit(&b, "&#39;", "'");
    let d = replace_lit(&c, "&lt;", "<");
    let e = replace_lit(&d, "&gt;", ">");
    string_of(&e)
}

pub open spec fn safe_char(c: char) -> char {
    if is_ascii_alnum(c) || c == '.' || c == '_' || c == '-' {
        c
    } else {
        '_'
    }
}

/// A file name safe to write: ASCII letters, digits, `.`, `_` and `-` kept,
/// every other character `_`; `image` when nothing is left.
pub open spec fn safe_name_seq(name: Seq<char>) -> Seq<char> {
    if name.len() == 0 {
        "image"@
    } else {
        name.map_values(|c: char| safe_char(c))
    }
}

/// A file name safe to write in the site's picture directory.
pub fn safe_name(name: &str) -> (r: String)
    ensures
        r@ == safe_name_seq(name@),
        forall|j: int|
            0 <= j < r@.len() ==> is_ascii_alnum(#[trigger] r@[j]) || r@[j] == '.' || r@[j]
                == '_' || r@[j] == '-',
{
    let v = chars_of(name);
    if v.len() == 0 {
        proof {
            reveal_strlit("image");
        }
        let mut s = String::new();
        s.append("image");
        return s;
    }
    let mut out: Vec<char> = Vec::new();
    for i in 0..v.len()
        invariant
            out@ == v@.take(i as int).map_values(|c: char| safe_char(c)),
    {
        let c = v[i];
        if ascii_alnum(c) || c == '.' || c == '_' || c == '-' {
            out.push(c);
        } else {
            out.push('_');
        }
        assert(out@ =~= v@.take(i + 1).map_values(|c: char| safe_char(c)));
    }
    assert(v@.take(v.len() as int) =~= v@);
    string_of(&out)
}

/// FNV-1a over the bytes, only ever compared against itself to spot a name
/// collision.
pub open spec fn fnv1a(bytes: Seq<u8>) -> u64
    decreases bytes.len(),
{
    if bytes.len() == 0 {
        0xcbf2_9ce4_8422_2325u64
    } else {
        (fnv1a(bytes.drop_last()) ^ (bytes.last() as u64)).wrapping_mul(0x100_0000_01b3u64)
    }
}

/// FNV-1a, only ever compared against itself to spot a name collision.
pub fn hash(bytes: &[u8]) -> (h: u64)
    ensures
        h == fnv1a(bytes@),
{
    let mut h: u64 = 0xcbf2_9ce4_8422_2325;
    for i in 0..bytes.len()
        invariant
            h == fnv1a(bytes@.take(i as int)),
    {
        assert(bytes@.take(i + 1).drop_last() =~= bytes@.take(i as int));
        h ^= bytes[i] as u64;
        h = h.wrapping_mul(0x100_0000_01b3);
    }
    assert(bytes@.take(bytes.len() as int) =~= bytes@);
    h
}

/// The position just after the last `/`, or 0.
pub open spec fn after_last_slash(s: Seq<char>, hi: int) -> int
    decreases hi,
{
    if hi <= 0 || hi > s.len() {
        0
    } else if s[hi - 1] == '/' {
        hi
    } else {
        after_last_slash(s, hi - 1)
    }
}

/// The last `/`-separated part of a path (`rsplit('/').next()`).
pub open spec fn leaf_of(s: Seq<char>) -> Seq<char> {
    s.skip(after_last_slash(s, s.len() as int))
}

proof fn lemma_after_last_slash(s: Seq<char>, hi: int)
    requires
        0 <= hi <= s.len(),
    ensures
        0 <= after_last_slash(s, hi) <= hi,
    decreases hi,
{
    if hi > 0 && s[hi - 1] != '/' {
        lemma_after_last_slash(s, hi - 1);
    }
}

fn leaf_chars(s: &Vec<char>) -> (r: Vec<char>)
    ensures
        r@ == leaf_of(s@),
{
    let mut hi = s.len();
    while hi > 0 && s[hi - 1] != '/'
        invariant
            hi <= s.len(),
            after_last_slash(s@, s.len() as int) == after_last_slash(s@, hi as int),
        decreases hi,
    {
        hi -= 1;
    }
    let r = slice_chars(s, hi, s.len());
    assert(r@ =~= s@.skip(hi as int));
    r
}

/// The last `/`-separated part of a path.
pub fn leaf(path: &str) -> (r: String)
    ensures
        r@ == leaf_of(path@),
{
    let v = chars_of(path);
    let l = leaf_chars(&v);
    string_of(&l)
}

// ----------------------------------------------------------------------------
// Names already written

/// The picture names already written, each with the hash of its bytes, so two
/// sources that both hold `plate.jpg` do not overwrite each other.
pub struct Taken {
    entries: Vec<(String, u64)>,
}

pub open spec fn keys_distinct(es: Seq<(String, u64)>) -> bool {
    forall|i: int, j: int| 0 <= i < j < es.len() ==> (#[trigger] es[i]).0@ != (#[trigger] es[j]).0@
}

pub open spec fn entries_map(es: Seq<(String, u64)>) -> Map<Seq<char>, u64>
    decreases es.len(),
{
    if es.len() == 0 {
        Map::empty()
    } else {
        entries_map(es.drop_last()).insert(es.last().0@, es.last().1)
    }
}

impl View for Taken {
    type V = Map<Seq<char>, u64>;

    closed spec fn view(&self) -> Map<Seq<char>, u64> {
        entries_map(self.entries@)
    }
}

proof fn lemma_entries_map(es: Seq<(String, u64)>, k: Seq<char>)
    requires
        keys_distinct(es),
    ensures
        entries_map(es).dom().contains(k) <==> exists|i: int| 0 <= i < es.len() && es[i].0@ == k,
        forall|i: int| 0 <= i < es.len() && es[i].0@ == k ==> entries_map(es)[k] == es[i].1,
    decreases es.len(),
{
    if es.len() > 0 {
        let init = es.drop_last();
        assert(keys_distinct(init)) by {
            assert forall|i: int, j: int| 0 <= i < j < init.len() implies (#[trigger] init[i]).0@
                != (#[trigger] init[j]).0@ by {
                assert(init[i] == es[i] && init[j] == es[j]);
            }
        }
        lemma_entries_map(init, k);
        if exists|i: int| 0 <= i < init.len() && init[i].0@ == k {
            let i = choose|i: int| 0 <= i < init.len() && init[i].0@ == k;
            assert(es[i] == init[i]);
        }
        assert forall|i: int| 0 <= i < es.len() && es[i].0@ == k implies entries_map(es)[k]
            == es[i].1 by {
            if i < es.len() - 1 {
                assert(es[i] == init[i]);
                assert(es[i].0@ != es[es.len() - 1].0@);
            }
        }
        if exists|i: int| 0 <= i < es.len() && es[i].0@ == k {
            let i = choose|i: int| 0 <= i < es.len() && es[i].0@ == k;
            if i < es.len() - 1 {
                assert(es[i] == init[i]);
            }
        }
    }
}

impl Taken {
    #[verifier::type_invariant]
    spec fn distinct(&self) -> bool {
        keys_distinct(self.entries@)
    }

    /// No names taken yet.
    pub fn new() -> (t: Taken)
        ensures
            t@ == Map::<Seq<char>, u64>::empty(),
    {
        Taken { entries: Vec::new() }
    }

    fn find(&self, name: &String) -> (r: Option<usize>)
        ensures
            match r {
                Some(i) => i < self.entries@.len() && self.entries@[i as int].0@ == name@,
                None => forall|i: int|
                    0 <= i < self.entries@.len() ==> (#[trigger] self.entries@[i]).0@ != name@,
            },
    {
        for i in 0..self.entries.len()
            invariant
                forall|j: int| 0 <= j < i ==> (#[trigger] self.entries@[j]).0@ != name@,
        {
            if self.entries[i].0 == *name {
                return Some(i);
            }
        }
        None
    }

    /// The hash recorded for a name.
    pub fn get(&self, name: &String) -> (r: Option<u64>)
        ensures
            r == if self@.dom().contains(name@) {
                Some(self@[name@])
            } else {
                None::<u64>
            },
    {
        proof {
            use_type_invariant(self);
            lemma_entries_map(self.entries@, name@);
        }
        match self.find(name) {
            Some(i) => Some(self.entries[i].1),
            None => None,
        }
    }

    /// Records the hash for a name, replacing any earlier one.
    pub fn insert(&mut self, name: String, digest: u64)
        ensures
            final(self)@ == old(self)@.insert(name@, digest),
    {
        proof {
            use_type_invariant(&*self);
        }
        let ghost old_map = self@;
        let ghost key = name@;
        match self.find(&name) {
            Some(i) => {
                let ghost es = self.entries@;
                let mut entries: Vec<(String, u64)> = Vec::new();
                std::mem::swap(&mut entries, &mut self.entries);
                let ghost es0 = entries@;
                entries.set(i, (name, digest));
                let ghost es1 = entries@;
                proof {
                    assert(keys_distinct(es1)) by {
                        assert forall|a: int, b: int| 0 <= a < b < es1.len() implies (
                        #[trigger] es1[a]).0@ != (#[trigger] es1[b]).0@ by {
                            if a != i && b != i {
                                assert(es1[a] == es0[a] && es1[b] == es0[b]);
                            } else if a == i {
                                assert(es1[b] == es0[b]);
                            } else {
                                assert(es1[a] == es0[a]);
                            }
                        }
                    }
                    assert forall|k: Seq<char>| #[trigger] entries_map(es1).dom().contains(k)
                        == old_map.insert(key, digest).dom().contains(k) && (entries_map(
                        es1,
                    ).dom().contains(k) ==> entries_map(es1)[k] == old_map.insert(key, digest)[k]) by {
                        lemma_entries_map(es0, k);
                        lemma_entries_map(es1, k);
                        if exists|j: int| 0 <= j < es1.len() && es1[j].0@ == k {
                            let j = choose|j: int| 0 <= j < es1.len() && es1[j].0@ == k;
                            if j != i {
                                assert(es1[j] == es0[j]);
                            }
                        }
                        if exists|j: int| 0 <= j < es0.len() && es0[j].0@ == k {
                            let j = choose|j: int| 0 <= j < es0.len() && es0[j].0@ == k;
                            if j != i {
                                assert(es1[j] == es0[j]);
                            } else {
                                assert(es1[i as int].0@ == key);
                            }
                        }
                        assert(es1[i as int].0@ == key);
                    }
                    assert(entries_map(es1) =~= old_map.insert(key, digest));
                }
                self.entries = entries;
            },
            None => {
                let ghost es0 = self.entries@;
                let mut entries: Vec<(String, u64)> = Vec::new();
                std::mem::swap(&mut entries, &mut self.entries);
                entries.push((name, digest));
                let ghost es1 = entries@;
                proof {
                    assert(es1.drop_last() =~= es0);
                    assert(keys_distinct(es1)) by {
                        assert forall|a: int, b: int| 0 <= a < b < es1.len() implies (
                        #[trigger] es1[a]).0@ != (#[trigger] es1[b]).0@ by {
                            assert(es1[a] == es0[a]);
                            if b < es0.len() {
                                assert(es1[b] == es0[b]);
                            }
                        }
                    }
                }
                self.entries = entries;
            },
        }
    }
}

/// Whether `name` can hold a picture whose bytes hash to `h`: it is free, or
/// it already holds these bytes.
pub open spec fn name_fits(taken: Map<Seq<char>, u64>, name: Seq<char>, h: u64) -> bool {
    !taken.dom().contains(name) || taken[name] == h
}

/// The `n`th name tried for a picture: its safe leaf, then the source's safe
/// stem, `-` and the leaf, then the stem, `-`, a counter from 2, `-` and the
/// leaf.
pub open spec fn candidate(local: Seq<char>, prefix: Seq<char>, n: nat) -> Seq<char> {
    if n == 0 {
        local
    } else if n == 1 {
        prefix + "-"@ + local
    } else {
        prefix + "-"@ + decimal(n) + "-"@ + local
    }
}

/// The first name from the `n`th on that fits, trying at most `fuel` more.
pub open spec fn name_from(
    taken: Map<Seq<char>, u64>,
    local: Seq<char>,
    prefix: Seq<char>,
    h: u64,
    n: nat,
    fuel: nat,
) -> Seq<char>
    decreases fuel,
{
    if fuel == 0 || name_fits(taken, candidate(local, prefix, n), h) {
        candidate(local, prefix, n)
    } else {
        name_from(taken, local, prefix, h, n + 1, (fuel - 1) as nat)
    }
}

/// The name a picture is written under: the first of its candidates that is
/// free or already holds these bytes. There are more candidates than names
/// taken, so one always fits.
pub open spec fn picture_name_of(
    taken: Map<Seq<char>, u64>,
    member: Seq<char>,
    bytes: Seq<u8>,
    stem: Seq<char>,
) -> Seq<char> {
    name_from(
        taken,
        safe_name_seq(leaf_of(member)),
        safe_name_seq(stem),
        fnv1a(bytes),
        0,
        taken.dom().len(),
    )
}

proof fn lemma_candidate_injective(local: Seq<char>, prefix: Seq<char>, i: nat, j: nat)
    requires
        candidate(local, prefix, i) == candidate(local, prefix, j),
    ensures
        i == j,
{
    reveal_strlit("-");
    assert("-"@.len() == 1);
    lemma_decimal_len(i);
    lemma_decimal_len(j);
    let len1 = prefix.len() + 1 + local.len();
    assert(candidate(local, prefix, 0).len() == local.len());
    assert(candidate(local, prefix, 1).len() == len1);
    assert(i >= 2 ==> candidate(local, prefix, i).len() == len1 + decimal(i).len() + 1);
    assert(j >= 2 ==> candidate(local, prefix, j).len() == len1 + decimal(j).len() + 1);
    if i >= 2 && j >= 2 {
        let ci = candidate(local, prefix, i);
        let lo: int = prefix.len() as int + 1;
        assert(decimal(i).len() == decimal(j).len());
        assert(ci.subrange(lo, lo + decimal(i).len()) =~= decimal(i));
        assert(candidate(local, prefix, j).subrange(lo, lo + decimal(j).len()) =~= decimal(
            j,
        ));
        lemma_decimal_injective(i, j);
    }
}

/// The first `k` candidates, as a set.
pub open spec fn candidates(local: Seq<char>, prefix: Seq<char>, k: nat) -> Set<Seq<char>>
    decreases k,
{
    if k == 0 {
        Set::empty()
    } else {
        candidates(local, prefix, (k - 1) as nat).insert(candidate(local, prefix, (k - 1) as nat))
    }
}

proof fn lemma_candidates(local: Seq<char>, prefix: Seq<char>, k: nat)
    ensures
        candidates(local, prefix, k).finite(),
        candidates(local, prefix, k).len() == k,
        forall|s: Seq<char>|
            #[trigger] candidates(local, prefix, k).contains(s) ==> exists|i: nat|
                i < k && s == candidate(local, prefix, i),
    decreases k,
{
    if k > 0 {
        let k1 = (k - 1) as nat;
        lemma_candidates(local, prefix, k1);
        let c = candidate(local, prefix, k1);
        if candidates(local, prefix, k1).contains(c) {
            let i = choose|i: nat| i < k1 && c == candidate(local, prefix, i);
            lemma_candidate_injective(local, prefix, i, k1);
        }
        assert forall|s: Seq<char>| #[trigger] candidates(local, prefix, k).contains(s) implies exists|
            i: nat,
        | i < k && s == candidate(local, prefix, i) by {
            if s != c {
                assert(candidates(local, prefix, k1).contains(s));
            }
        }
    }
}

/// When the first `n + 1` candidates are all taken, there are more than `n`
/// names taken.
proof fn lemma_candidates_taken(
    taken: Map<Seq<char>, u64>,
    local: Seq<char>,
    prefix: Seq<char>,
    n: nat,
)
    requires
        taken.dom().finite(),
        forall|i: nat| i <= n ==> taken.dom().contains(#[trigger] candidate(local, prefix, i)),
    ensures
        n < taken.dom().len(),
{
    lemma_candidates(local, prefix, n + 1);
    assert(candidates(local, prefix, n + 1).subset_of(taken.dom())) by {
        assert forall|s: Seq<char>| #[trigger] candidates(local, prefix, n + 1).contains(
            s,
        ) implies taken.dom().contains(s) by {
            let i = choose|i: nat| i < n + 1 && s == candidate(local, prefix, i);
            assert(taken.dom().contains(candidate(local, prefix, i)));
        }
    }
    vstd::set_lib::lemma_len_subset(candidates(local, prefix, n + 1), taken.dom());
}

proof fn lemma_entries_len(es: Seq<(String, u64)>)
    requires
        keys_distinct(es),
    ensures
        entries_map(es).dom().finite(),
        entries_map(es).dom().len() == es.len(),
    decreases es.len(),
{
    if es.len() > 0 {
        let init = es.drop_last();
        assert(keys_distinct(init)) by {
            assert forall|i: int, j: int| 0 <= i < j < init.len() implies (#[trigger] init[i]).0@
                != (#[trigger] init[j]).0@ by {
                assert(init[i] == es[i] && init[j] == es[j]);
            }
        }
        lemma_entries_len(init);
        lemma_entries_map(init, es.last().0@);
        if entries_map(init).dom().contains(es.last().0@) {
            let i = choose|i: int| 0 <= i < init.len() && init[i].0@ == es.last().0@;
            assert(es[i] == init[i]);
        }
    }
}

fn candidate_exec(local: &String, prefix: &String, n: usize) -> (r: String)
    ensures
        r@ == candidate(local@, prefix@, n as nat),
{
    proof {
        reveal_strlit("-");
    }
    if n == 0 {
        return local.clone();
    }
    let mut r = prefix.clone();
    r.append("-");
    if n >= 2 {
        let d = decimal_string(n as u64);
        r.append(d.as_str());
        r.append("-");
    }
    r.append(local.as_str());
    r
}

/// Chooses the name a picture is written under and records it with the hash
/// of its bytes. The name is free, or already holds these very bytes, so no
/// picture recorded in `taken` is ever overwritten by other bytes.
pub fn claim_picture_name(taken: &mut Taken, member: &str, bytes: &[u8], stem: &str) -> (name:
    String)
    ensures
        name@ == picture_name_of(old(taken)@, member@, bytes@, stem@),
        final(taken)@ == old(taken)@.insert(name@, fnv1a(bytes@)),
        name_fits(old(taken)@, name@, fnv1a(bytes@)),
{
    proof {
        use_type_invariant(&*taken);
        lemma_entries_len(taken.entries@);
    }
    let l = leaf(member);
    let local = safe_name(l.as_str());
    let prefix = safe_name(stem);
    let digest = hash(bytes);
    let ghost t0 = taken@;
    let ghost f = t0.dom().len();
    let count = taken.entries.len();
    let mut n: usize = 0;
    loop
        invariant
            t0 == taken@,
            t0 == old(taken)@,
            f == t0.dom().len(),
            count == f,
            t0.dom().finite(),
            n <= f,
            local@ == safe_name_seq(leaf_of(member@)),
            prefix@ == safe_name_seq(stem@),
            digest == fnv1a(bytes@),
            picture_name_of(t0, member@, bytes@, stem@) == name_from(
                t0,
                local@,
                prefix@,
                digest,
                n as nat,
                (f - n) as nat,
            ),
            forall|i: nat| i < n ==> t0.dom().contains(#[trigger] candidate(local@, prefix@, i)),
        decreases f - n,
    {
        let c = candidate_exec(&local, &prefix, n);
        let fits = match taken.get(&c) {
            None => true,
            Some(h) => h == digest,
        };
        if fits {
            let name = c.clone();
            taken.insert(c, digest);
            return name;
        }
        proof {
            lemma_candidates_taken(t0, local@, prefix@, n as nat);
        }
        n = n + 1;
    }
}

// ----------------------------------------------------------------------------
// Rewriting the balloon

/// The text of a span of characters (`&desc[span]`).
pub fn span_text(desc: &str, span: &Range<usize>) -> (r: String)
    requires
        span.start <= span.end <= desc@.len(),
    ensures
        r@ == desc@.subrange(span.start as int, span.end as int),
{
    let v = chars_of(desc);
    let part = slice_chars(&v, span.start, span.end);
    string_of(&part)
}

/// `desc` with the span `start..end` replaced.
pub open spec fn replace_span_seq(desc: Seq<char>, start: int, end: int, rep: Seq<char>) -> Seq<
    char,
> {
    desc.take(start) + rep + desc.skip(end)
}

/// `String::replace_range` on a span of characters.
pub fn replace_span(desc: &str, span: &Range<usize>, rep: &str) -> (r: String)
    requires
        span.start <= span.end <= desc@.len(),
    ensures
        r@ == replace_span_seq(desc@, span.start as int, span.end as int, rep@),
{
    let v = chars_of(desc);
    let head = slice_chars(&v, 0, span.start);
    let tail = slice_chars(&v, span.end, v.len());
    let mut out = string_of(&head);
    out.append(rep);
    push_all(&mut out, &tail);
    assert(head@ =~= desc@.take(span.start as int));
    assert(tail@ =~= desc@.skip(span.end as int));
    out
}

/// What a mark becomes once its picture reference has been dealt with: with
/// the picture's site-relative path `images/<local>` in place of the
/// reference and as its image when a copy was written, or with the
/// reference removed when the picture could not be read.
pub open spec fn with_picture(m: MarkV, start: int, end: int, local: Option<Seq<char>>) -> MarkV {
    match local {
        Some(l) => MarkV {
            desc: replace_span_seq(m.desc, start, end, "images/"@ + l),
            image: Some("images/"@ + l),
            ..m
        },
        None => MarkV { desc: replace_span_seq(m.desc, start, end, Seq::empty()), ..m },
    }
}

impl Mark {
    /// Points the mark at the site's copy of its picture, or drops the
    /// reference when there is none.
    pub fn attach_picture(&mut self, span: &Range<usize>, local: Option<&str>)
        requires
            span.start <= span.end <= old(self).desc@.len(),
        ensures
            final(self)@ == with_picture(
                old(self)@,
                span.start as int,
                span.end as int,
                match local {
                    Some(l) => Some(l@),
                    None => None,
                },
            ),
    {
        match local {
            Some(l) => {
                let mut rel = String::new();
                rel.append("images/");
                rel.append(l);
                let d = replace_span(self.desc.as_str(), span, rel.as_str());
                self.desc = d;
                self.image = Some(rel);
            },
            None => {
                let d = replace_span(self.desc.as_str(), span, "");
                proof {
                    reveal_strlit("");
                }
                self.desc = d;
            },
        }
    }
}

// ----------------------------------------------------------------------------
// Archive entries

/// The entry holding the KML: the first named `doc.kml`, else the first whose
/// name ends in `.kml` in any case.
pub open spec fn kml_entry_of(names: Seq<Seq<char>>) -> Option<int> {
    match first_named(names, "doc.kml"@, 0) {
        Some(i) => Some(i),
        None => first_kml(names, 0),
    }
}

pub open spec fn first_named(names: Seq<Seq<char>>, n: Seq<char>, i: int) -> Option<int>
    decreases names.len() - i,
{
    if i < 0 || i >= names.len() {
        None
    } else if names[i] == n {
        Some(i)
    } else {
        first_named(names, n, i + 1)
    }
}

pub open spec fn ends_with_kml(name: Seq<char>) -> bool {
    let low = lower_seq(name);
    low.len() >= 4 && low.subrange(low.len() - 4, low.len() as int) == ".kml"@
}

pub open spec fn first_kml(names: Seq<Seq<char>>, i: int) -> Option<int>
    decreases names.len() - i,
{
    if i < 0 || i >= names.len() {
        None
    } else if ends_with_kml(names[i]) {
        Some(i)
    } else {
        first_kml(names, i + 1)
    }
}

pub open spec fn names_view(v: Seq<String>) -> Seq<Seq<char>> {
    v.map_values(|s: String| s@)
}

fn is_kml_name(name: &String) -> (r: bool)
    ensures
        r == ends_with_kml(name@),
{
    let v = chars_of(name.as_str());
    let low = lower_vec(&v);
    let ext = chars_of(".kml");
    proof {
        reveal_strlit(".kml");
    }
    if low.len() < 4 {
        return false;
    }
    matches_at_exec(&low, low.len() - 4, &ext)
}

/// Which archive entry holds the KML.
pub fn kml_entry(names: &Vec<String>) -> (r: Option<usize>)
    ensures
        match r {
            Some(i) => kml_entry_of(names_view(names@)) == Some(i as int),
            None => kml_entry_of(names_view(names@)) is None,
        },
{
    let ghost nv = names_view(names@);
    let mut i: usize = 0;
    while i < names.len()
        invariant
            nv == names_view(names@),
            i <= names.len(),
            first_named(nv, "doc.kml"@, 0) == first_named(nv, "doc.kml"@, i as int),
        decreases names.len() - i,
    {
        let v = chars_of(names[i].as_str());
        if eq_lit(&v, "doc.kml") {
            return Some(i);
        }
        i += 1;
    }
    let mut k: usize = 0;
    while k < names.len()
        invariant
            nv == names_view(names@),
            k <= names.len(),
            first_kml(nv, 0) == first_kml(nv, k as int),
            first_named(nv, "doc.kml"@, 0) is None,
        decreases names.len() - k,
    {
        if is_kml_name(&names[k]) {
            return Some(k);
        }
        k += 1;
    }
    None
}

/// The first entry whose last path part equals that of `member`: the entry a
/// balloon means when its reference does not name one exactly.
pub open spec fn entry_with_leaf_of(names: Seq<Seq<char>>, member: Seq<char>, i: int) -> Option<
    int,
>
    decreases names.len() - i,
{
    if i < 0 || i >= names.len() {
        None
    } else if leaf_of(names[i]) == leaf_of(member) {
        Some(i)
    } else {
        entry_with_leaf_of(names, member, i + 1)
    }
}

/// The entry a picture reference most likely means when no entry has exactly
/// its name.
pub fn entry_with_leaf(names: &Vec<String>, member: &str) -> (r: Option<usize>)
    ensures
        match r {
            Some(i) => entry_with_leaf_of(names_view(names@), member@, 0) == Some(i as int),
            None => entry_with_leaf_of(names_view(names@), member@, 0) is None,
        },
{
    let ghost nv = names_view(names@);
    let m = chars_of(member);
    let want = leaf_chars(&m);
    let mut i: usize = 0;
    while i < names.len()
        invariant
            nv == names_view(names@),
            i <= names.len(),
            want@ == leaf_of(member@),
            entry_with_leaf_of(nv, member@, 0) == entry_with_leaf_of(nv, member@, i as int),
        decreases names.len() - i,
    {
        let v = chars_of(names[i].as_str());
        let l = leaf_chars(&v);
        if crate::text::eq_chars(&l, &want) {
            return Some(i);
        }
        i += 1;
    }
    None
}

} // verus!
