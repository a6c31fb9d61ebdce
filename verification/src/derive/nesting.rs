//! Held time over spans that nest: summed over a trace, it is the time the trace's spans cover.
use super::reach::{arrange_reaches, crossings, crossings_from, crossings_upto, struck_at, windows};
use super::{
    arrange, closed, covered_from, covered_spec, held_over, held_upto, later, lemma_arrange, lemma_arrange_closed,
    lemma_place, ordered, place, trace_held, HeldView, Interval,
};
use vstd::prelude::*;

verus! {

/// Two spans nest or are apart: one ends before the other starts, or one lies within the other.
pub open spec fn apart_or_nested(a: Interval, b: Interval) -> bool {
    ||| a.until <= b.at
    ||| b.until <= a.at
    ||| (a.at <= b.at && b.until <= a.until)
    ||| (b.at <= a.at && a.until <= b.until)
}

/// No two spans of `s` cross.
pub open spec fn nesting(s: Seq<Interval>) -> bool {
    forall|i: int, j: int|
        0 <= i < s.len() && 0 <= j < s.len() && i != j ==> apart_or_nested(
            #[trigger] s[i],
            #[trigger] s[j],
        )
}

/// In order, a later span starts at or after the end of an earlier one, or ends within it.
pub open spec fn laminar(s: Seq<Interval>) -> bool {
    forall|i: int, j: int|
        0 <= i < j < s.len() ==> #[trigger] s[j].at >= #[trigger] s[i].until || s[j].until <= s[i].until
}

/// `s[k]` starts at or after the end of every earlier span.
pub open spec fn outermost(s: Seq<Interval>, k: int) -> bool {
    forall|j: int| 0 <= j < k ==> #[trigger] s[j].until <= s[k].at
}

/// The total length of the outermost spans of `s`.
pub open spec fn outer_total(s: Seq<Interval>) -> int
    decreases s.len(),
{
    if s.len() == 0 {
        0
    } else {
        outer_total(s.drop_last()) + if outermost(s, s.len() - 1) {
            s.last().until - s.last().at
        } else {
            0
        }
    }
}

/// The held time of a sequence of held measures, summed.
pub open spec fn held_total(h: Seq<HeldView>) -> int
    decreases h.len(),
{
    if h.len() == 0 {
        0
    } else {
        held_total(h.drop_last()) + h.last().held
    }
}

/// The held time of the first `n` spans of `s`, every one counted.
pub open spec fn held_sum(s: Seq<Interval>, n: int) -> int
    decreases n,
{
    if n <= 0 {
        0
    } else {
        held_sum(s, n - 1) + (s[n - 1].until - s[n - 1].at) - covered_spec(s, n - 1)
    }
}

/// The end of the last span the scan of `covered_from` counted.
pub open spec fn edge_end(s: Seq<Interval>, k: int, j: int, edge: int) -> int
    decreases s.len() - j,
{
    if j < 0 || j >= s.len() || k < 0 || k >= s.len() || s[j].at >= s[k].until {
        edge
    } else if s[j].at < edge {
        edge_end(s, k, j + 1, edge)
    } else {
        edge_end(s, k, j + 1, s[j].until as int)
    }
}

/// `edge` is where `s[k]` starts, or the end of a span after it, before `j`, that starts inside it.
pub open spec fn edge_before(s: Seq<Interval>, k: int, j: int, edge: int) -> bool {
    ||| edge == s[k].at
    ||| exists|c: int| k < c < j && s[c].at < s[k].until && edge == #[trigger] s[c].until
}

proof fn lemma_edge_grows(s: Seq<Interval>, k: int, j: int, edge: int)
    requires
        closed(s),
    ensures
        edge_end(s, k, j, edge) >= edge,
    decreases s.len() - j,
{
    if !(j < 0 || j >= s.len() || k < 0 || k >= s.len() || s[j].at >= s[k].until) {
        if s[j].at < edge {
            lemma_edge_grows(s, k, j + 1, edge);
        } else {
            lemma_edge_grows(s, k, j + 1, s[j].until as int);
        }
    }
}

proof fn lemma_edge_form(s: Seq<Interval>, k: int, j: int, edge: int)
    requires
        0 <= k < j <= s.len(),
        edge_before(s, k, j, edge),
    ensures
        edge_before(s, k, s.len() as int, edge_end(s, k, j, edge)),
    decreases s.len() - j,
{
    if j >= s.len() || s[j].at >= s[k].until {
        if edge != s[k].at {
            let c = choose|c: int| k < c < j && s[c].at < s[k].until && edge == #[trigger] s[c].until;
            assert(k < c < s.len() && s[c].at < s[k].until && edge == s[c].until);
        }
    } else if s[j].at < edge {
        if edge != s[k].at {
            let c = choose|c: int| k < c < j && s[c].at < s[k].until && edge == #[trigger] s[c].until;
            assert(k < c < j + 1 && s[c].at < s[k].until && edge == s[c].until);
        }
        lemma_edge_form(s, k, j + 1, edge);
    } else {
        assert(k < j < j + 1 && s[j].at < s[k].until && s[j].until as int == s[j].until);
        lemma_edge_form(s, k, j + 1, s[j].until as int);
    }
}

/// The scan for `s[k]` ends past the end of every span after it that starts inside it.
proof fn lemma_edge_past(s: Seq<Interval>, k: int, j: int, edge: int, d: int)
    requires
        ordered(s),
        closed(s),
        laminar(s),
        0 <= k < j <= d < s.len(),
        s[d].at < s[k].until,
        edge_before(s, k, j, edge),
    ensures
        edge_end(s, k, j, edge) >= s[d].until,
    decreases s.len() - j,
{
    assert(!later(s[j], s[d]) || j == d);
    assert(!later(s[k], s[j]));
    if j < d {
        if s[j].at < edge {
            if edge != s[k].at {
                let c = choose|c: int| k < c < j && s[c].at < s[k].until && edge == #[trigger] s[c].until;
                assert(k < c < j + 1 && s[c].at < s[k].until && edge == s[c].until);
            }
            lemma_edge_past(s, k, j + 1, edge, d);
        } else {
            assert(k < j < j + 1 && s[j].at < s[k].until && s[j].until as int == s[j].until);
            lemma_edge_past(s, k, j + 1, s[j].until as int, d);
        }
    } else {
        if s[d].at < edge {
            assert(!later(s[k], s[d]));
            if edge != s[k].at {
                let c = choose|c: int| k < c < j && s[c].at < s[k].until && edge == #[trigger] s[c].until;
                assert(!later(s[c], s[d]));
                assert(s[d].at >= s[c].until || s[d].until <= s[c].until);
            }
            lemma_edge_grows(s, k, j + 1, edge);
        } else {
            lemma_edge_grows(s, k, j + 1, s[d].until as int);
        }
    }
}

/// Adding a last span to an ordered trace adds its length to the scan of `s[k]` exactly when it
/// starts inside `s[k]` at or after the end of the last span the scan counted.
proof fn lemma_covered_last(s: Seq<Interval>, k: int, j: int, edge: int)
    requires
        ordered(s),
        s.len() >= 1,
        0 <= k < s.len() - 1,
        k < j <= s.len() - 1,
    ensures
        covered_from(s, k, j, edge) == covered_from(s.drop_last(), k, j, edge) + if s.last().at
            < s[k].until && s.last().at >= edge_end(s.drop_last(), k, j, edge) {
            s.last().until - s.last().at
        } else {
            0
        },
    decreases s.len() - j,
{
    let t = s.drop_last();
    let n = s.len() - 1;
    if j == n {
        assert(covered_from(s, k, j + 1, edge) == 0);
        assert(covered_from(s, k, j + 1, s[j].until as int) == 0);
    } else {
        assert(s[j] == t[j] && s[k] == t[k]);
        assert(!later(s[j], s[n]));
        if s[j].at < s[k].until {
            if s[j].at < edge {
                lemma_covered_last(s, k, j + 1, edge);
            } else {
                lemma_covered_last(s, k, j + 1, s[j].until as int);
            }
        }
    }
}

/// `s[k]`, before the last span, holds the start of the last span.
pub open spec fn encloses_last(s: Seq<Interval>, k: int) -> bool {
    0 <= k < s.len() - 1 && s.last().at < s[k].until
}

/// `s[k]` is the last span before the last one to hold the start of the last span.
pub open spec fn deepest(s: Seq<Interval>, k: int) -> bool {
    &&& encloses_last(s, k)
    &&& forall|d: int| k < d < s.len() - 1 ==> !#[trigger] encloses_last(s, d)
}

proof fn lemma_drop_last(s: Seq<Interval>)
    requires
        ordered(s),
        closed(s),
        laminar(s),
        s.len() >= 1,
    ensures
        ordered(s.drop_last()),
        closed(s.drop_last()),
        laminar(s.drop_last()),
{
    let t = s.drop_last();
    assert forall|i: int, j: int| 0 <= i < j < t.len() implies !later(#[trigger] t[i], #[trigger] t[j]) by {
        assert(t[i] == s[i] && t[j] == s[j]);
    }
    assert forall|i: int| 0 <= i < t.len() implies #[trigger] t[i].at <= t[i].until by {
        assert(t[i] == s[i]);
    }
    assert forall|i: int, j: int| 0 <= i < j < t.len() implies #[trigger] t[j].at >= #[trigger] t[i].until
        || t[j].until <= t[i].until by {
        assert(t[i] == s[i] && t[j] == s[j]);
    }
}

proof fn lemma_covered_split(s: Seq<Interval>, k: int)
    requires
        ordered(s),
        closed(s),
        laminar(s),
        s.len() >= 1,
        0 <= k < s.len() - 1,
    ensures
        covered_spec(s, k) == covered_spec(s.drop_last(), k) + if deepest(s, k) {
            s.last().until - s.last().at
        } else {
            0
        },
{
    let t = s.drop_last();
    let n = s.len() - 1;
    lemma_drop_last(s);
    assert(t[k] == s[k]);
    lemma_covered_last(s, k, k + 1, s[k].at as int);
    let e = edge_end(t, k, k + 1, s[k].at as int);
    assert(!later(s[k], s[n]));
    assert(s.last() == s[n]);
    if deepest(s, k) {
        assert(edge_before(t, k, k + 1, s[k].at as int));
        lemma_edge_form(t, k, k + 1, s[k].at as int);
        if e != t[k].at {
            let c = choose|c: int| k < c < t.len() && t[c].at < t[k].until && e == #[trigger] t[c].until;
            assert(!encloses_last(s, c));
            assert(t[c] == s[c]);
        }
    } else if encloses_last(s, k) {
        let d = choose|d: int| k < d < s.len() - 1 && #[trigger] encloses_last(s, d);
        assert(t[d] == s[d]);
        assert(!later(s[d], s[n]));
        assert(edge_before(t, k, k + 1, s[k].at as int));
        lemma_edge_past(t, k, k + 1, s[k].at as int, d);
    }
}

proof fn lemma_deepest_unique(s: Seq<Interval>, a: int, b: int)
    requires
        deepest(s, a),
        deepest(s, b),
    ensures
        a == b,
{
    if a < b {
        assert(encloses_last(s, b));
    } else if b < a {
        assert(encloses_last(s, a));
    }
}

proof fn lemma_deepest_exists(s: Seq<Interval>, k: int)
    requires
        encloses_last(s, k),
    ensures
        exists|d: int| #[trigger] deepest(s, d),
    decreases s.len() - k,
{
    if deepest(s, k) {
    } else {
        let d = choose|d: int| k < d < s.len() - 1 && #[trigger] encloses_last(s, d);
        lemma_deepest_exists(s, d);
    }
}

proof fn lemma_held_split(s: Seq<Interval>, m: int)
    requires
        ordered(s),
        closed(s),
        laminar(s),
        s.len() >= 1,
        0 <= m <= s.len() - 1,
    ensures
        held_sum(s, m) == held_sum(s.drop_last(), m) - if exists|k: int| 0 <= k < m && #[trigger] deepest(s, k) {
            s.last().until - s.last().at
        } else {
            0
        },
    decreases m,
{
    let t = s.drop_last();
    if m > 0 {
        lemma_held_split(s, m - 1);
        lemma_covered_split(s, m - 1);
        assert(t[m - 1] == s[m - 1]);
        if exists|k: int| 0 <= k < m - 1 && #[trigger] deepest(s, k) {
            let k = choose|k: int| 0 <= k < m - 1 && #[trigger] deepest(s, k);
            if deepest(s, m - 1) {
                lemma_deepest_unique(s, k, m - 1);
            }
            assert(0 <= k < m && deepest(s, k));
        } else if deepest(s, m - 1) {
            assert(0 <= m - 1 < m && deepest(s, m - 1));
        } else {
            assert forall|k: int| 0 <= k < m implies !#[trigger] deepest(s, k) by {
                if k < m - 1 {
                }
            }
        }
    }
}

/// Over an ordered trace whose spans nest, the held time of every span adds up to the total
/// length of the outermost spans.
proof fn lemma_held_outer(s: Seq<Interval>)
    requires
        ordered(s),
        closed(s),
        laminar(s),
    ensures
        held_sum(s, s.len() as int) == outer_total(s),
    decreases s.len(),
{
    if s.len() > 0 {
        let t = s.drop_last();
        let n = s.len() - 1;
        lemma_drop_last(s);
        lemma_held_outer(t);
        lemma_held_split(s, n);
        assert(covered_spec(s, n) == 0);
        assert(s.last() == s[n]);
        if outermost(s, n) {
            assert forall|k: int| 0 <= k < n implies !#[trigger] deepest(s, k) by {
                assert(s[k].until <= s[n].at);
            }
        } else {
            let j = choose|j: int| 0 <= j < n && !(#[trigger] s[j].until <= s[n].at);
            assert(encloses_last(s, j));
            lemma_deepest_exists(s, j);
            let d = choose|d: int| #[trigger] deepest(s, d);
            assert(0 <= d < n && deepest(s, d));
        }
    }
}

proof fn lemma_no_crossing_from(s: Seq<Interval>, i: int, j: int)
    requires
        ordered(s),
        laminar(s),
        0 <= i < j,
    ensures
        crossings_from(s, i, j).len() == 0,
    decreases s.len() - j,
{
    if !(j >= s.len() || i >= s.len() || s[j].at >= s[i].until) {
        lemma_no_crossing_from(s, i, j + 1);
    }
}

proof fn lemma_no_crossings(s: Seq<Interval>, n: int)
    requires
        ordered(s),
        laminar(s),
        n <= s.len(),
    ensures
        crossings_upto(s, n).len() == 0,
    decreases n,
{
    if n > 0 {
        lemma_no_crossings(s, n - 1);
        lemma_no_crossing_from(s, n - 1, n);
    }
}

/// An ordered trace whose spans nest raises no crossing window.
proof fn lemma_no_windows(s: Seq<Interval>)
    requires
        ordered(s),
        laminar(s),
    ensures
        windows(s).len() == 0,
{
    lemma_no_crossings(s, s.len() as int);
    assert(crossings(s) =~= Seq::<super::reach::Reach>::empty());
    assert(arrange_reaches(crossings(s)) =~= Seq::<super::reach::Reach>::empty());
}

proof fn lemma_all_held(s: Seq<Interval>, n: int)
    requires
        windows(s).len() == 0,
        0 <= n <= s.len(),
    ensures
        held_upto(s, windows(s), n).len() == n,
        held_total(held_upto(s, windows(s), n)) == held_sum(s, n),
    decreases n,
{
    if n > 0 {
        lemma_all_held(s, n - 1);
        let h = held_upto(s, windows(s), n);
        assert(struck_at(windows(s), s[n - 1]) is None);
        assert(h.drop_last() =~= held_upto(s, windows(s), n - 1));
    }
}

proof fn lemma_arrange_from(s: Seq<Interval>, i: int)
    requires
        0 <= i < arrange(s).len(),
    ensures
        exists|q: int| 0 <= q < s.len() && arrange(s)[i] == #[trigger] s[q],
    decreases s.len(),
{
    lemma_arrange(s);
    let t = s.drop_last();
    let a = arrange(t);
    let x = s.last();
    lemma_arrange(t);
    lemma_place(a, x);
    let p = place(a, x);
    let r = a.insert(p, x);
    assert(arrange(s) == r);
    if i == p {
        assert(r[i] == s[s.len() - 1]);
    } else {
        let i2 = if i < p { i } else { i - 1 };
        assert(r[i] == a[i2]);
        lemma_arrange_from(t, i2);
        let q = choose|q: int| 0 <= q < t.len() && a[i2] == #[trigger] t[q];
        assert(t[q] == s[q]);
    }
}

proof fn lemma_arrange_nesting(s: Seq<Interval>)
    requires
        nesting(s),
    ensures
        nesting(arrange(s)),
    decreases s.len(),
{
    if s.len() > 0 {
        let t = s.drop_last();
        let a = arrange(t);
        let x = s.last();
        let n = s.len() - 1;
        assert forall|i: int, j: int| 0 <= i < t.len() && 0 <= j < t.len() && i != j implies apart_or_nested(
            #[trigger] t[i],
            #[trigger] t[j],
        ) by {
            assert(t[i] == s[i] && t[j] == s[j]);
        }
        lemma_arrange_nesting(t);
        lemma_arrange(t);
        lemma_place(a, x);
        let p = place(a, x);
        let r = a.insert(p, x);
        assert(arrange(s) == r);
        assert forall|i: int, j: int| 0 <= i < r.len() && 0 <= j < r.len() && i != j implies apart_or_nested(
            #[trigger] r[i],
            #[trigger] r[j],
        ) by {
            if i != p && j != p {
                let i2 = if i < p { i } else { i - 1 };
                let j2 = if j < p { j } else { j - 1 };
                assert(r[i] == a[i2] && r[j] == a[j2]);
            } else if i == p {
                let j2 = if j < p { j } else { j - 1 };
                assert(r[j] == a[j2]);
                lemma_arrange_from(t, j2);
                let q = choose|q: int| 0 <= q < t.len() && a[j2] == #[trigger] t[q];
                assert(t[q] == s[q] && x == s[n] && q != n);
            } else {
                let i2 = if i < p { i } else { i - 1 };
                assert(r[i] == a[i2]);
                lemma_arrange_from(t, i2);
                let q = choose|q: int| 0 <= q < t.len() && a[i2] == #[trigger] t[q];
                assert(t[q] == s[q] && x == s[n] && q != n);
            }
        }
    }
}

proof fn lemma_ordered_laminar(s: Seq<Interval>)
    requires
        ordered(s),
        nesting(s),
    ensures
        laminar(s),
{
    assert forall|i: int, j: int| 0 <= i < j < s.len() implies #[trigger] s[j].at >= #[trigger] s[i].until
        || s[j].until <= s[i].until by {
        assert(!later(s[i], s[j]));
        assert(apart_or_nested(s[i], s[j]));
    }
}

/// `s[o]` is an outermost span that holds `s[k]`.
pub open spec fn within_outer(s: Seq<Interval>, o: int, k: int) -> bool {
    0 <= o < s.len() && outermost(s, o) && s[o].at <= s[k].at && s[k].until <= s[o].until
}

/// Some outermost span holds `s[k]`.
pub open spec fn held_by_outer(s: Seq<Interval>, k: int) -> bool {
    exists|o: int| #[trigger] within_outer(s, o, k)
}

/// In an ordered trace whose spans nest, every span lies within an outermost span at or before it.
pub proof fn lemma_within_outermost(s: Seq<Interval>, k: int)
    requires
        ordered(s),
        closed(s),
        laminar(s),
        0 <= k < s.len(),
    ensures
        exists|o: int| o <= k && #[trigger] within_outer(s, o, k),
    decreases k,
{
    if outermost(s, k) {
        assert(within_outer(s, k, k));
    } else {
        let j = choose|j: int| 0 <= j < k && !(#[trigger] s[j].until <= s[k].at);
        assert(!later(s[j], s[k]));
        lemma_within_outermost(s, j);
        let o = choose|o: int| o <= j && #[trigger] within_outer(s, o, j);
        assert(within_outer(s, o, k));
    }
}

/// Held time adds up to the time a trace's spans cover: where no two spans of a trace cross, no
/// span is dropped, and the held time of all of them sums to the total length of the outermost
/// spans of the arranged trace. Those spans follow one another without overlap, and every span
/// lies within one of them, so their total is the length of the union of the trace's spans.
pub proof fn law_held_covers(v: Seq<Interval>)
    requires
        closed(v),
        nesting(v),
    ensures
        trace_held(v).len() == v.len(),
        held_total(trace_held(v)) == outer_total(arrange(v)),
        arrange(v).len() == v.len(),
        forall|k: int| 0 <= k < v.len() ==> #[trigger] held_by_outer(arrange(v), k),
{
    let s = arrange(v);
    lemma_arrange(v);
    lemma_arrange_closed(v);
    lemma_arrange_nesting(v);
    lemma_ordered_laminar(s);
    lemma_nested_held(s);
    lemma_nested_cover(s);
    assert(trace_held(v) == held_upto(s, windows(s), s.len() as int));
}

proof fn lemma_nested_held(s: Seq<Interval>)
    requires
        ordered(s),
        closed(s),
        laminar(s),
    ensures
        held_upto(s, windows(s), s.len() as int).len() == s.len(),
        held_total(held_upto(s, windows(s), s.len() as int)) == outer_total(s),
{
    lemma_no_windows(s);
    lemma_all_held(s, s.len() as int);
    lemma_held_outer(s);
}

proof fn lemma_nested_cover(s: Seq<Interval>)
    requires
        ordered(s),
        closed(s),
        laminar(s),
    ensures
        forall|k: int| 0 <= k < s.len() ==> #[trigger] held_by_outer(s, k),
{
    assert forall|k: int| 0 <= k < s.len() implies #[trigger] held_by_outer(s, k) by {
        lemma_within_outermost(s, k);
        let o = choose|o: int| o <= k && #[trigger] within_outer(s, o, k);
        assert(within_outer(s, o, k));
    }
}
proof fn lemma_held_total_concat(a: Seq<HeldView>, b: Seq<HeldView>)
    ensures
        held_total(a + b) == held_total(a) + held_total(b),
    decreases b.len(),
{
    if b.len() > 0 {
        lemma_held_total_concat(a, b.drop_last());
        assert((a + b).drop_last() =~= a + b.drop_last());
    }
}

/// The time the spans of each trace cover, summed over the traces.
pub open spec fn covered_over(traces: Seq<(Seq<char>, Seq<Interval>)>) -> int
    decreases traces.len(),
{
    if traces.len() == 0 {
        0
    } else {
        covered_over(traces.drop_last()) + outer_total(arrange(traces.last().1))
    }
}

/// Over every trace whose spans nest, the held time of all spans sums to the time the spans of
/// each trace cover, added over the traces.
pub proof fn law_held_covers_all(traces: Seq<(Seq<char>, Seq<Interval>)>)
    requires
        forall|i: int| 0 <= i < traces.len() ==> closed(#[trigger] traces[i].1) && nesting(traces[i].1),
    ensures
        held_total(held_over(traces)) == covered_over(traces),
    decreases traces.len(),
{
    if traces.len() > 0 {
        let rest = traces.drop_last();
        assert forall|i: int| 0 <= i < rest.len() implies closed(#[trigger] rest[i].1) && nesting(rest[i].1) by {
            assert(rest[i] == traces[i]);
        }
        law_held_covers_all(rest);
        assert(traces.last() == traces[traces.len() - 1]);
        law_held_covers(traces.last().1);
        lemma_held_total_concat(held_over(rest), trace_held(traces.last().1));
    }
}

} // verus!
