//! The decisions that turn groups read from several sources into one map: the
//! colour of each group, the anchor of each placemark, and the subtitle.

use vstd::prelude::*;

use crate::kml::{groups_view, marks_view, Group, GroupV, Mark, MarkV};
use crate::render::{lemma_total_marks_prefix, total_marks};
use crate::text::{decimal, decimal_string, digit_char};

verus! {

/// Categorical slots in fixed order. The marks sit on photographic tiles
/// rather than on the page surface, so they keep light-mode steps in either
/// page theme and earn their contrast from a white casing instead. Any two
/// groups can end up adjacent on a map, and past the third slot such a
/// pairing stops being reliably separable under colour-vision deficiency, so
/// hue never carries identity alone: the legend, the hover label and each
/// card name the group. Past the eighth, groups share one neutral rather than
/// cycling.
pub open spec fn series_color_seq(gi: int) -> Seq<char> {
    if gi == 0 {
        "#2a78d6"@
    } else if gi == 1 {
        "#eb6834"@
    } else if gi == 2 {
        "#1baf7a"@
    } else if gi == 3 {
        "#eda100"@
    } else if gi == 4 {
        "#e87ba4"@
    } else if gi == 5 {
        "#008300"@
    } else if gi == 6 {
        "#4a3aa7"@
    } else if gi == 7 {
        "#e34948"@
    } else {
        "#6b6a63"@
    }
}

/// The colour of the group at position `gi`.
pub fn series_color(gi: usize) -> (c: &'static str)
    ensures
        c@ == series_color_seq(gi as int),
{
    if gi == 0 {
        "#2a78d6"
    } else if gi == 1 {
        "#eb6834"
    } else if gi == 2 {
        "#1baf7a"
    } else if gi == 3 {
        "#eda100"
    } else if gi == 4 {
        "#e87ba4"
    } else if gi == 5 {
        "#008300"
    } else if gi == 6 {
        "#4a3aa7"
    } else if gi == 7 {
        "#e34948"
    } else {
        "#6b6a63"
    }
}

/// The anchor of the `i`-th placemark over all groups: `s` and the number,
/// zero-padded to four digits.
pub open spec fn uid_seq(i: int) -> Seq<char> {
    let d = decimal(i as nat);
    if d.len() < 4 {
        "s"@ + Seq::new((4 - d.len()) as nat, |k: int| '0') + d
    } else {
        "s"@ + d
    }
}

/// The anchor id of the `i`-th placemark.
pub fn mark_uid(i: usize) -> (r: String)
    ensures
        r@ == uid_seq(i as int),
{
    let d = decimal_string(i as u64);
    let mut r = String::new();
    r.append("s");
    let ghost s = r@;
    let dl = d.as_str().unicode_len();
    if dl < 4 {
        let mut k: usize = 0;
        while k < 4 - dl
            invariant
                dl < 4,
                k <= 4 - dl,
                r@ == s + Seq::new(k as nat, |j: int| '0'),
            decreases 4 - dl - k,
        {
            r.push('0');
            assert(r@ =~= s + Seq::new((k + 1) as nat, |j: int| '0'));
            k += 1;
        }
    }
    r.append(d.as_str());
    r
}

/// A group with its colour and its marks' anchors assigned: the group at
/// position `gi` takes colour slot `gi`, and its marks are numbered on from
/// `base`, the number of marks in the groups before it.
pub open spec fn relabel(g: GroupV, gi: int, base: int) -> GroupV {
    GroupV {
        color: series_color_seq(gi),
        marks: Seq::new(g.marks.len(), |k: int| MarkV { uid: uid_seq(base + k), ..g.marks[k] }),
        ..g
    }
}

/// Every group coloured by its position, every mark given its anchor.
pub open spec fn labeled(gs: Seq<GroupV>) -> Seq<GroupV> {
    Seq::new(gs.len(), |gi: int| relabel(gs[gi], gi, total_marks(gs.take(gi)) as int))
}

fn relabel_marks(marks: Vec<Mark>, base: usize) -> (r: Vec<Mark>)
    requires
        base + marks.len() <= usize::MAX,
    ensures
        marks_view(r@) == Seq::new(
            marks@.len(),
            |k: int| MarkV { uid: uid_seq(base + k), ..marks_view(marks@)[k] },
        ),
{
    let ghost mv = marks_view(marks@);
    let n = marks.len();
    let mut rest = marks;
    let mut out: Vec<Mark> = Vec::new();
    let mut k: usize = 0;
    assert(marks_view(rest@) =~= mv.skip(0));
    while k < n
        invariant
            n == mv.len(),
            base + n <= usize::MAX,
            k <= n,
            rest.len() == n - k,
            marks_view(rest@) == mv.skip(k as int),
            marks_view(out@) == Seq::new(
                k as nat,
                |j: int| MarkV { uid: uid_seq(base + j), ..mv[j] },
            ),
        decreases n - k,
    {
        let ghost old_rest = rest@;
        assert(marks_view(rest@)[0] == mv[k as int]);
        let m = rest.remove(0);
        assert forall|j: int| 0 <= j < rest.len() implies marks_view(rest@)[j] == mv.skip(k + 1)[j] by {
            assert(rest@[j] == old_rest[j + 1]);
            assert(marks_view(old_rest)[j + 1] == mv.skip(k as int)[j + 1]);
        }
        assert(marks_view(rest@) =~= mv.skip(k + 1));
        assert(m@ == mv[k as int]);
        let Mark { name, at, when, desc, image, uid: _ } = m;
        let ghost before = marks_view(out@);
        let nm = Mark { name, at, when, desc, image, uid: mark_uid(base + k) };
        let ghost nv = nm@;
        assert(nv == MarkV { uid: uid_seq(base + k), ..mv[k as int] });
        out.push(nm);
        assert(marks_view(out@) =~= before.push(nv));
        assert forall|j: int| 0 <= j < k implies before[j] == MarkV {
            uid: uid_seq(base + j),
            ..mv[j]
        } by {}
        assert(marks_view(out@) =~= Seq::new(
            (k + 1) as nat,
            |j: int| MarkV { uid: uid_seq(base + j), ..mv[j] },
        ));
        k += 1;
    }
    out
}

/// Colours every group by its position and gives every placemark its anchor,
/// numbering placemarks across all groups in order.
pub fn label_groups(groups: Vec<Group>) -> (r: Vec<Group>)
    requires
        total_marks(groups_view(groups@)) <= usize::MAX,
    ensures
        groups_view(r@) == labeled(groups_view(groups@)),
{
    let ghost gv = groups_view(groups@);
    let n = groups.len();
    let mut rest = groups;
    let mut out: Vec<Group> = Vec::new();
    let mut gi: usize = 0;
    let mut base: usize = 0;
    assert(groups_view(rest@) =~= gv.skip(0));
    assert(gv.take(0) =~= Seq::<GroupV>::empty());
    while gi < n
        invariant
            n == gv.len(),
            total_marks(gv) <= usize::MAX,
            gi <= n,
            rest.len() == n - gi,
            groups_view(rest@) == gv.skip(gi as int),
            base == total_marks(gv.take(gi as int)),
            groups_view(out@) == labeled(gv).take(gi as int),
        decreases n - gi,
    {
        let ghost old_rest = rest@;
        assert(groups_view(rest@)[0] == gv[gi as int]);
        let g = rest.remove(0);
        assert forall|j: int| 0 <= j < rest.len() implies groups_view(rest@)[j] == gv.skip(gi + 1)[j] by {
            assert(rest@[j] == old_rest[j + 1]);
            assert(groups_view(old_rest)[j + 1] == gv.skip(gi as int)[j + 1]);
        }
        assert(groups_view(rest@) =~= gv.skip(gi + 1));
        proof {
            lemma_total_marks_prefix(gv, gi + 1);
            assert(gv.take(gi + 1).drop_last() =~= gv.take(gi as int));
        }
        assert(g@ == gv[gi as int]);
        let Group { name, marks, routes, color: _ } = g;
        let count = marks.len();
        let relabeled = relabel_marks(marks, base);
        let mut color = String::new();
        color.append(series_color(gi));
        let ng = Group { name, marks: relabeled, routes, color };
        let ghost before = groups_view(out@);
        let ghost ngv = ng@;
        assert(ngv.marks =~= relabel(gv[gi as int], gi as int, base as int).marks);
        assert(ngv == relabel(gv[gi as int], gi as int, base as int));
        assert(labeled(gv)[gi as int] == ngv);
        out.push(ng);
        assert(groups_view(out@) =~= before.push(ngv));
        assert(labeled(gv).take(gi + 1) =~= labeled(gv).take(gi as int).push(ngv));
        base = base + count;
        gi += 1;
    }
    assert(labeled(gv).take(n as int) =~= labeled(gv));
    out
}

/// `"{marks} placemark(s) in {groups} group(s)[, {routes} route(s)] · zoom {zoom}"`.
pub open spec fn subtitle_seq(marks: nat, groups: nat, routes: nat, zoom: nat) -> Seq<char> {
    decimal(marks) + " placemark(s) in "@ + decimal(groups) + " group(s)"@ + if routes > 0 {
        ", "@ + decimal(routes) + " route(s)"@
    } else {
        Seq::empty()
    } + " · zoom "@ + decimal(zoom)
}

/// The line under the title: how many placemarks, groups and routes, at which
/// zoom.
pub fn subtitle(marks: usize, groups: usize, routes: usize, zoom: u8) -> (r: String)
    ensures
        r@ == subtitle_seq(marks as nat, groups as nat, routes as nat, zoom as nat),
{
    let mut r = decimal_string(marks as u64);
    r.append(" placemark(s) in ");
    let g = decimal_string(groups as u64);
    r.append(g.as_str());
    r.append(" group(s)");
    if routes > 0 {
        r.append(", ");
        let n = decimal_string(routes as u64);
        r.append(n.as_str());
        r.append(" route(s)");
    }
    r.append(" · zoom ");
    let z = decimal_string(zoom as u64);
    r.append(z.as_str());
    r
}

// ----------------------------------------------------------------------------
// Anchors are distinct

pub open spec fn digit_value(c: char) -> int {
    c as int - 48
}

/// The number a run of decimal digits spells.
pub open spec fn digits_value(s: Seq<char>) -> int
    decreases s.len(),
{
    if s.len() == 0 {
        0
    } else {
        digits_value(s.drop_last()) * 10 + digit_value(s.last())
    }
}

proof fn lemma_digit_value(d: nat)
    requires
        d < 10,
    ensures
        digit_value(digit_char(d)) == d,
{
}

proof fn lemma_decimal_value(n: nat)
    ensures
        digits_value(decimal(n)) == n,
    decreases n,
{
    if n < 10 {
        lemma_digit_value(n);
        assert(decimal(n).drop_last() =~= Seq::<char>::empty());
        assert(digits_value(Seq::<char>::empty()) == 0);
        assert(decimal(n).last() == digit_char(n));
    } else {
        lemma_decimal_value(n / 10);
        lemma_digit_value(n % 10);
        assert(decimal(n).drop_last() =~= decimal(n / 10));
        assert(decimal(n).last() == digit_char(n % 10));
        assert((n / 10) * 10 + n % 10 == n) by (nonlinear_arith);
    }
}

proof fn lemma_zeros_value(k: nat, d: Seq<char>)
    ensures
        digits_value(Seq::new(k, |j: int| '0') + d) == digits_value(d),
    decreases k + d.len(),
{
    let z = Seq::new(k, |j: int| '0');
    if d.len() > 0 {
        lemma_zeros_value(k, d.drop_last());
        assert((z + d).drop_last() =~= z + d.drop_last());
    } else if k > 0 {
        lemma_zeros_value((k - 1) as nat, d);
        assert((z + d).drop_last() =~= Seq::new((k - 1) as nat, |j: int| '0') + d);
    } else {
        assert(z + d =~= d);
    }
}

/// No two placemarks get the same anchor.
pub proof fn lemma_uid_distinct(i: nat, j: nat)
    requires
        i != j,
    ensures
        uid_seq(i as int) != uid_seq(j as int),
{
    reveal_strlit("s");
    let di = decimal(i);
    let dj = decimal(j);
    let pi = if di.len() < 4 {
        Seq::new((4 - di.len()) as nat, |k: int| '0') + di
    } else {
        di
    };
    let pj = if dj.len() < 4 {
        Seq::new((4 - dj.len()) as nat, |k: int| '0') + dj
    } else {
        dj
    };
    assert(uid_seq(i as int) =~= "s"@ + pi);
    assert(uid_seq(j as int) =~= "s"@ + pj);
    lemma_decimal_value(i);
    lemma_decimal_value(j);
    if di.len() < 4 {
        lemma_zeros_value((4 - di.len()) as nat, di);
    }
    if dj.len() < 4 {
        lemma_zeros_value((4 - dj.len()) as nat, dj);
    }
    if uid_seq(i as int) == uid_seq(j as int) {
        assert(("s"@ + pi).skip(1) =~= pi);
        assert(("s"@ + pj).skip(1) =~= pj);
    }
}

proof fn lemma_prefix_totals(gs: Seq<GroupV>, a: int, b: int)
    requires
        0 <= a <= b <= gs.len(),
    ensures
        total_marks(gs.take(a)) <= total_marks(gs.take(b)),
        a < b ==> total_marks(gs.take(a)) + gs[a].marks.len() <= total_marks(gs.take(b)),
    decreases b - a,
{
    if a < b {
        lemma_prefix_totals(gs, a, b - 1);
        assert(gs.take(b).drop_last() =~= gs.take(b - 1));
        if a == b - 1 {
            assert(gs.take(b).last() == gs[a]);
        }
    }
}

/// Every placemark of the labelled groups has its own anchor, so a pin and
/// the card it jumps to pair up one to one.
pub proof fn lemma_anchors_distinct(gs: Seq<GroupV>, gi: int, k: int, gj: int, l: int)
    requires
        0 <= gi < gs.len(),
        0 <= gj < gs.len(),
        0 <= k < gs[gi].marks.len(),
        0 <= l < gs[gj].marks.len(),
        gi != gj || k != l,
    ensures
        labeled(gs)[gi].marks[k].uid != labeled(gs)[gj].marks[l].uid,
{
    let bi = total_marks(gs.take(gi)) as int;
    let bj = total_marks(gs.take(gj)) as int;
    if gi < gj {
        lemma_prefix_totals(gs, gi, gj);
    } else if gj < gi {
        lemma_prefix_totals(gs, gj, gi);
    }
    assert(bi + k != bj + l);
    lemma_uid_distinct((bi + k) as nat, (bj + l) as nat);
}

} // verus!
