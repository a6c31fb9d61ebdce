//! Crossing windows: where spans of one trace overlap without nesting.
use super::{later, ordered, Interval};
use vstd::prelude::*;

verus! {

/// A window of time that a crossing reaches.
#[derive(Clone, Copy, Debug, PartialEq, Eq, Structural)]
pub struct Reach {
    pub at: u64,
    pub until: u64,
}

/// The windows that the crossings of `s[i]` raise, scanning from `s[j]` until a span starts at or
/// after `s[i]` ends: one window from the start of `s[i]` to the end of each span that starts
/// inside `s[i]` and ends after it.
pub open spec fn crossings_from(s: Seq<Interval>, i: int, j: int) -> Seq<Reach>
    decreases s.len() - j,
{
    if j < 0 || j >= s.len() || i < 0 || i >= s.len() || s[j].at >= s[i].until {
        Seq::empty()
    } else {
        let rest = crossings_from(s, i, j + 1);
        if s[j].until > s[i].until {
            seq![Reach { at: s[i].at, until: s[j].until }] + rest
        } else {
            rest
        }
    }
}

/// The windows that the crossings of the first `n` spans raise, in order.
pub open spec fn crossings_upto(s: Seq<Interval>, n: int) -> Seq<Reach>
    decreases n,
{
    if n <= 0 {
        Seq::empty()
    } else {
        crossings_upto(s, n - 1) + crossings_from(s, n - 1, n)
    }
}

/// Every window that a crossing in `s` raises.
pub open spec fn crossings(s: Seq<Interval>) -> Seq<Reach> {
    crossings_upto(s, s.len() as int)
}

/// `a` sorts strictly after `b` by start, then end.
pub open spec fn reach_later(a: Reach, b: Reach) -> bool {
    a.at > b.at || (a.at == b.at && a.until > b.until)
}

/// The first position of `s` holding a window that sorts after `x`.
pub open spec fn reach_place(s: Seq<Reach>, x: Reach) -> int
    decreases s.len(),
{
    if s.len() == 0 {
        0
    } else if reach_later(s[0], x) {
        0
    } else {
        1 + reach_place(s.drop_first(), x)
    }
}

/// The windows of `s` sorted by start, then end.
pub open spec fn arrange_reaches(s: Seq<Reach>) -> Seq<Reach>
    decreases s.len(),
{
    if s.len() == 0 {
        s
    } else {
        let a = arrange_reaches(s.drop_last());
        a.insert(reach_place(a, s.last()), s.last())
    }
}

/// Joins windows in turn: a window that starts at or before the end of the last joined window
/// extends it; any other window stands on its own.
pub open spec fn sweep(s: Seq<Reach>) -> Seq<Reach>
    decreases s.len(),
{
    if s.len() == 0 {
        s
    } else {
        let m = sweep(s.drop_last());
        let r = s.last();
        if m.len() > 0 && r.at <= m.last().until {
            let until = if m.last().until >= r.until { m.last().until } else { r.until };
            m.update(m.len() - 1, Reach { at: m.last().at, until })
        } else {
            m.push(r)
        }
    }
}

/// The windows of `s`, sorted and joined.
pub open spec fn merged(s: Seq<Reach>) -> Seq<Reach> {
    sweep(arrange_reaches(s))
}

/// The crossing windows of an arranged trace.
pub open spec fn windows(s: Seq<Interval>) -> Seq<Reach> {
    merged(crossings(s))
}

/// A window meets a span when they share some instant strictly inside both.
pub open spec fn meets(r: Reach, iv: Interval) -> bool {
    iv.at < r.until && r.at < iv.until
}

/// The first window that meets `iv`, if any.
pub open spec fn struck_at(reaches: Seq<Reach>, iv: Interval) -> Option<int>
    decreases reaches.len(),
{
    if reaches.len() == 0 {
        None
    } else if meets(reaches[0], iv) {
        Some(0)
    } else {
        match struck_at(reaches.drop_first(), iv) {
            Some(k) => Some(k + 1),
            None => None,
        }
    }
}

/// Windows in order, each strictly after the end of the one before.
pub open spec fn separated(m: Seq<Reach>) -> bool {
    forall|i: int, j: int| 0 <= i < j < m.len() ==> #[trigger] m[i].until < #[trigger] m[j].at
}

/// Windows that do not run backwards.
pub open spec fn forward(m: Seq<Reach>) -> bool {
    forall|i: int| 0 <= i < m.len() ==> #[trigger] m[i].at <= m[i].until
}

/// `w` holds `r`.
pub open spec fn holds(w: Reach, r: Reach) -> bool {
    w.at <= r.at && r.until <= w.until
}

/// Windows sorted by start.
pub open spec fn by_start(s: Seq<Reach>) -> bool {
    forall|i: int, j: int| 0 <= i < j < s.len() ==> #[trigger] s[i].at <= #[trigger] s[j].at
}

pub proof fn lemma_reach_place(s: Seq<Reach>, x: Reach)
    ensures
        0 <= reach_place(s, x) <= s.len(),
        forall|q: int| 0 <= q < reach_place(s, x) ==> !reach_later(#[trigger] s[q], x),
        reach_place(s, x) < s.len() ==> reach_later(s[reach_place(s, x)], x),
    decreases s.len(),
{
    if s.len() > 0 && !reach_later(s[0], x) {
        lemma_reach_place(s.drop_first(), x);
        assert forall|q: int| 0 <= q < reach_place(s, x) implies !reach_later(#[trigger] s[q], x) by {
            if q > 0 {
                assert(s[q] == s.drop_first()[q - 1]);
            }
        }
    }
}

pub proof fn lemma_arrange_reaches(s: Seq<Reach>)
    ensures
        arrange_reaches(s).len() == s.len(),
        by_start(arrange_reaches(s)),
    decreases s.len(),
{
    if s.len() > 0 {
        let t = s.drop_last();
        let a = arrange_reaches(t);
        let x = s.last();
        lemma_arrange_reaches(t);
        lemma_reach_place(a, x);
        let p = reach_place(a, x);
        let r = a.insert(p, x);
        assert forall|i: int, j: int| 0 <= i < j < r.len() implies #[trigger] r[i].at
            <= #[trigger] r[j].at by {
            if j < p {
                assert(r[i] == a[i] && r[j] == a[j]);
            } else if j == p {
                assert(r[i] == a[i]);
                assert(!reach_later(a[i], x));
            } else if i == p {
                assert(r[j] == a[j - 1]);
                assert(reach_later(a[p], x));
                assert(a[p].at <= a[j - 1].at);
            } else if i < p {
                assert(r[i] == a[i] && r[j] == a[j - 1]);
            } else {
                assert(r[i] == a[i - 1] && r[j] == a[j - 1]);
            }
        }
    }
}

/// Every window of `s` stands in its arrangement.
pub proof fn lemma_arrange_reaches_keeps(s: Seq<Reach>, i: int)
    requires
        0 <= i < s.len(),
    ensures
        arrange_reaches(s).contains(s[i]),
    decreases s.len(),
{
    let t = s.drop_last();
    let a = arrange_reaches(t);
    let x = s.last();
    lemma_reach_place(a, x);
    let p = reach_place(a, x);
    let r = a.insert(p, x);
    if i == s.len() - 1 {
        assert(r[p] == s[i]);
    } else {
        lemma_arrange_reaches_keeps(t, i);
        assert(s[i] == t[i]);
        let k = choose|k: int| 0 <= k < a.len() && a[k] == t[i];
        if k < p {
            assert(r[k] == s[i]);
        } else {
            assert(r[k + 1] == s[i]);
        }
    }
}

/// The arrangement of forward windows runs forward.
pub proof fn lemma_arrange_reaches_forward(s: Seq<Reach>)
    requires
        forward(s),
    ensures
        forward(arrange_reaches(s)),
    decreases s.len(),
{
    if s.len() > 0 {
        let t = s.drop_last();
        let a = arrange_reaches(t);
        let x = s.last();
        lemma_arrange_reaches_forward(t);
        lemma_reach_place(a, x);
        let p = reach_place(a, x);
        let r = a.insert(p, x);
        assert forall|k: int| 0 <= k < r.len() implies #[trigger] r[k].at <= r[k].until by {
            if k < p {
                assert(r[k] == a[k]);
            } else if k > p {
                assert(r[k] == a[k - 1]);
            }
        }
    }
}

/// Sweeping windows sorted by start holds every window, keeps the joined windows separated and
/// forward, and ends with a window that starts no later than the last window swept.
pub proof fn lemma_sweep(s: Seq<Reach>)
    requires
        by_start(s),
        forward(s),
    ensures
        forall|i: int|
            #![trigger s[i]]
            0 <= i < s.len() ==> exists|k: int|
                0 <= k < sweep(s).len() && holds(#[trigger] sweep(s)[k], s[i]),
        separated(sweep(s)),
        forward(sweep(s)),
        s.len() > 0 ==> sweep(s).len() > 0 && sweep(s).last().at <= s.last().at,
        s.len() == 0 ==> sweep(s).len() == 0,
        sweep(s).len() <= s.len(),
    decreases s.len(),
{
    if s.len() > 0 {
        let t = s.drop_last();
        assert(by_start(t));
        assert(forward(t));
        lemma_sweep(t);
        let m = sweep(t);
        let r = s.last();
        let out = sweep(s);
        if m.len() > 0 && r.at <= m.last().until {
            let until = if m.last().until >= r.until { m.last().until } else { r.until };
            let w = Reach { at: m.last().at, until };
            assert(out == m.update(m.len() - 1, w));
            assert(m.last().at <= t.last().at);
            assert(t.last().at <= r.at);
            assert forall|i: int| #![trigger s[i]] 0 <= i < s.len() implies exists|k: int|
                0 <= k < out.len() && holds(#[trigger] out[k], s[i]) by {
                if i == s.len() - 1 {
                    assert(holds(out[m.len() - 1], s[i]));
                } else {
                    assert(s[i] == t[i]);
                    let k = choose|k: int| 0 <= k < m.len() && holds(#[trigger] m[k], t[i]);
                    if k == m.len() - 1 {
                        assert(holds(out[k], s[i]));
                    } else {
                        assert(out[k] == m[k]);
                    }
                }
            }
            assert forall|i: int, j: int| 0 <= i < j < out.len() implies #[trigger] out[i].until
                < #[trigger] out[j].at by {
                if j == out.len() - 1 {
                    assert(out[i] == m[i]);
                    assert(m[i].until < m[j].at);
                } else {
                    assert(out[i] == m[i] && out[j] == m[j]);
                }
            }
        } else {
            assert(out == m.push(r));
            assert forall|i: int| #![trigger s[i]] 0 <= i < s.len() implies exists|k: int|
                0 <= k < out.len() && holds(#[trigger] out[k], s[i]) by {
                if i == s.len() - 1 {
                    assert(holds(out[m.len() as int], s[i]));
                } else {
                    assert(s[i] == t[i]);
                    let k = choose|k: int| 0 <= k < m.len() && holds(#[trigger] m[k], t[i]);
                    assert(out[k] == m[k]);
                }
            }
            assert forall|i: int, j: int| 0 <= i < j < out.len() implies #[trigger] out[i].until
                < #[trigger] out[j].at by {
                if j == out.len() - 1 {
                    assert(out[i] == m[i]);
                    if i < m.len() - 1 {
                        assert(m[i].until < m[m.len() - 1].at);
                        assert(m[m.len() - 1].at <= m[m.len() - 1].until);
                    }
                } else {
                    assert(out[i] == m[i] && out[j] == m[j]);
                }
            }
        }
    }
}

/// The joined windows hold every window, are separated and run forward.
pub proof fn lemma_merged(s: Seq<Reach>)
    requires
        forward(s),
    ensures
        forall|i: int|
            #![trigger s[i]]
            0 <= i < s.len() ==> exists|k: int|
                0 <= k < merged(s).len() && holds(#[trigger] merged(s)[k], s[i]),
        separated(merged(s)),
        forward(merged(s)),
        merged(s).len() <= s.len(),
{
    lemma_arrange_reaches(s);
    lemma_arrange_reaches_forward(s);
    let a = arrange_reaches(s);
    lemma_sweep(a);
    assert forall|i: int| #![trigger s[i]] 0 <= i < s.len() implies exists|k: int|
        0 <= k < merged(s).len() && holds(#[trigger] merged(s)[k], s[i]) by {
        lemma_arrange_reaches_keeps(s, i);
        let j = choose|j: int| 0 <= j < a.len() && a[j] == s[i];
        assert(a[j] == s[i]);
        let k = choose|k: int| 0 <= k < sweep(a).len() && holds(#[trigger] sweep(a)[k], a[j]);
        assert(merged(s) == sweep(a));
        assert(holds(merged(s)[k], s[i]));
    }
}

pub proof fn lemma_struck_at(reaches: Seq<Reach>, iv: Interval)
    ensures
        struck_at(reaches, iv) is None <==> forall|k: int|
            0 <= k < reaches.len() ==> !meets(#[trigger] reaches[k], iv),
        struck_at(reaches, iv) matches Some(k) ==> 0 <= k < reaches.len() && meets(reaches[k], iv)
            && forall|q: int| 0 <= q < k ==> !meets(#[trigger] reaches[q], iv),
    decreases reaches.len(),
{
    if reaches.len() > 0 {
        lemma_struck_at(reaches.drop_first(), iv);
        if !meets(reaches[0], iv) {
            assert forall|q: int| 0 < q < reaches.len() implies reaches[q] == reaches.drop_first()[q
                - 1] by {}
            if struck_at(reaches.drop_first(), iv) is None {
                assert forall|k: int| 0 <= k < reaches.len() implies !meets(#[trigger] reaches[k], iv) by {
                    if k > 0 {
                        assert(reaches[k] == reaches.drop_first()[k - 1]);
                    }
                }
            } else {
                let k = struck_at(reaches.drop_first(), iv)->0;
                assert(meets(reaches[k + 1], iv));
                assert forall|q: int| 0 <= q < k + 1 implies !meets(#[trigger] reaches[q], iv) by {
                    if q > 0 {
                        assert(reaches[q] == reaches.drop_first()[q - 1]);
                    }
                }
            }
        }
    }
}

/// Every window raised by a crossing runs forward.
pub proof fn lemma_crossings_forward(s: Seq<Interval>)
    requires
        forall|i: int| 0 <= i < s.len() ==> #[trigger] s[i].at <= s[i].until,
    ensures
        forward(crossings(s)),
{
    lemma_crossings_upto_forward(s, s.len() as int);
}

proof fn lemma_crossings_from_forward(s: Seq<Interval>, i: int, j: int)
    requires
        forall|q: int| 0 <= q < s.len() ==> #[trigger] s[q].at <= s[q].until,
    ensures
        forward(crossings_from(s, i, j)),
    decreases s.len() - j,
{
    if !(j < 0 || j >= s.len() || i < 0 || i >= s.len() || s[j].at >= s[i].until) {
        lemma_crossings_from_forward(s, i, j + 1);
        let rest = crossings_from(s, i, j + 1);
        if s[j].until > s[i].until {
            let out = seq![Reach { at: s[i].at, until: s[j].until }] + rest;
            assert forall|k: int| 0 <= k < out.len() implies #[trigger] out[k].at <= out[k].until by {
                if k > 0 {
                    assert(out[k] == rest[k - 1]);
                }
            }
        }
    }
}

proof fn lemma_crossings_upto_forward(s: Seq<Interval>, n: int)
    requires
        forall|q: int| 0 <= q < s.len() ==> #[trigger] s[q].at <= s[q].until,
    ensures
        forward(crossings_upto(s, n)),
    decreases n,
{
    if n > 0 {
        lemma_crossings_upto_forward(s, n - 1);
        lemma_crossings_from_forward(s, n - 1, n);
        let a = crossings_upto(s, n - 1);
        let b = crossings_from(s, n - 1, n);
        assert forall|k: int| 0 <= k < (a + b).len() implies #[trigger] (a + b)[k].at <= (a
            + b)[k].until by {
            if k >= a.len() {
                assert((a + b)[k] == b[k - a.len()]);
            }
        }
    }
}

/// In an ordered trace, a span that starts inside `s[i]` and ends after it raises the window from
/// the start of `s[i]` to its end.
pub proof fn lemma_crossing_raised(s: Seq<Interval>, i: int, j: int)
    requires
        ordered(s),
        0 <= i < j < s.len(),
        s[j].at < s[i].until,
        s[j].until > s[i].until,
    ensures
        crossings(s).contains(Reach { at: s[i].at, until: s[j].until }),
{
    lemma_crossing_from(s, i, i + 1, j);
    lemma_crossings_upto_contains(s, s.len() as int, i);
}

proof fn lemma_crossing_from(s: Seq<Interval>, i: int, from: int, j: int)
    requires
        ordered(s),
        0 <= i < from <= j < s.len(),
        s[j].at < s[i].until,
        s[j].until > s[i].until,
    ensures
        crossings_from(s, i, from).contains(Reach { at: s[i].at, until: s[j].until }),
    decreases j - from,
{
    let x = Reach { at: s[i].at, until: s[j].until };
    assert(!later(s[from], s[j]));
    assert(s[from].at < s[i].until);
    if from == j {
        assert((seq![x] + crossings_from(s, i, from + 1))[0] == x);
    } else {
        lemma_crossing_from(s, i, from + 1, j);
        let rest = crossings_from(s, i, from + 1);
        let k = choose|k: int| 0 <= k < rest.len() && rest[k] == x;
        if s[from].until > s[i].until {
            let out = seq![Reach { at: s[i].at, until: s[from].until }] + rest;
            assert(out[k + 1] == x);
        }
    }
}

proof fn lemma_crossings_upto_contains(s: Seq<Interval>, m: int, i: int)
    requires
        0 <= i < m,
    ensures
        forall|x: Reach| crossings_from(s, i, i + 1).contains(x) ==> #[trigger] crossings_upto(
            s,
            m,
        ).contains(x),
    decreases m,
{
    if m > i + 1 {
        lemma_crossings_upto_contains(s, m - 1, i);
        assert forall|x: Reach| crossings_from(s, i, i + 1).contains(x) implies #[trigger] crossings_upto(
            s,
            m,
        ).contains(x) by {
            let a = crossings_upto(s, m - 1);
            assert(a.contains(x));
            let k = choose|k: int| 0 <= k < a.len() && a[k] == x;
            assert((a + crossings_from(s, m - 1, m))[k] == x);
        }
    } else {
        assert forall|x: Reach| crossings_from(s, i, i + 1).contains(x) implies #[trigger] crossings_upto(
            s,
            m,
        ).contains(x) by {
            let b = crossings_from(s, i, i + 1);
            let a = crossings_upto(s, i);
            let k = choose|k: int| 0 <= k < b.len() && b[k] == x;
            assert((a + b)[a.len() + k] == x);
        }
    }
}

/// The windows that crossings in `intervals` reach, joined where they touch or overlap.
pub fn tangled(intervals: &Vec<Interval>) -> (r: Vec<Reach>)
    ensures
        r@ == windows(intervals@),
{
    let mut reaches: Vec<Reach> = Vec::new();
    let mut index: usize = 0;
    while index < intervals.len()
        invariant
            index <= intervals@.len(),
            reaches@ == crossings_upto(intervals@, index as int),
        decreases intervals@.len() - index,
    {
        let ghost s = intervals@;
        let ghost start = reaches@;
        let mut inner: usize = index + 1;
        while inner < intervals.len() && intervals[inner].at < intervals[index].until
            invariant
                index < intervals@.len(),
                s == intervals@,
                index + 1 <= inner <= intervals@.len(),
                reaches@ + crossings_from(s, index as int, inner as int) == start + crossings_from(
                    s,
                    index as int,
                    index + 1,
                ),
            decreases intervals@.len() - inner,
        {
            if intervals[inner].until > intervals[index].until {
                let ghost before = reaches@;
                reaches.push(Reach { at: intervals[index].at, until: intervals[inner].until });
                proof {
                    let x = Reach { at: s[index as int].at, until: s[inner as int].until };
                    assert(crossings_from(s, index as int, inner as int) == seq![x] + crossings_from(
                        s,
                        index as int,
                        inner + 1,
                    ));
                    assert(reaches@ + crossings_from(s, index as int, inner + 1) =~= before
                        + crossings_from(s, index as int, inner as int));
                }
            }
            inner = inner + 1;
        }
        proof {
            if inner < s.len() {
                assert(crossings_from(s, index as int, inner as int) == Seq::<Reach>::empty());
            }
            assert(reaches@ =~= reaches@ + crossings_from(s, index as int, inner as int));
        }
        index = index + 1;
    }
    merge(reaches)
}

/// The first of `reaches` that meets `interval`.
pub fn struck(reaches: &Vec<Reach>, interval: &Interval) -> (r: Option<usize>)
    ensures
        r matches Some(k) ==> struck_at(reaches@, *interval) == Some(k as int),
        r is None ==> struck_at(reaches@, *interval) is None,
{
    proof {
        lemma_struck_at(reaches@, *interval);
    }
    let mut k: usize = 0;
    while k < reaches.len()
        invariant
            k <= reaches@.len(),
            forall|q: int| 0 <= q < k ==> !meets(#[trigger] reaches@[q], *interval),
        decreases reaches@.len() - k,
    {
        if interval.at < reaches[k].until && reaches[k].at < interval.until {
            proof {
                lemma_struck_first(reaches@, *interval, k as int);
            }
            return Some(k);
        }
        k = k + 1;
    }
    None
}

proof fn lemma_struck_first(reaches: Seq<Reach>, iv: Interval, k: int)
    requires
        0 <= k < reaches.len(),
        meets(reaches[k], iv),
        forall|q: int| 0 <= q < k ==> !meets(#[trigger] reaches[q], iv),
    ensures
        struck_at(reaches, iv) == Some(k),
    decreases k,
{
    if k > 0 {
        assert(!meets(reaches[0], iv));
        assert forall|q: int| 0 <= q < k - 1 implies !meets(#[trigger] reaches.drop_first()[q], iv) by {
            assert(reaches.drop_first()[q] == reaches[q + 1]);
        }
        lemma_struck_first(reaches.drop_first(), iv, k - 1);
    }
}

/// Sorts windows by start, then end.
fn arrange_windows(reaches: Vec<Reach>) -> (r: Vec<Reach>)
    ensures
        r@ == arrange_reaches(reaches@),
{
    let mut out: Vec<Reach> = Vec::new();
    let mut i: usize = 0;
    while i < reaches.len()
        invariant
            i <= reaches@.len(),
            out@ == arrange_reaches(reaches@.subrange(0, i as int)),
        decreases reaches@.len() - i,
    {
        let x = reaches[i];
        let mut p: usize = 0;
        proof {
            assert(out@.skip(0) =~= out@);
        }
        while p < out.len() && !(out[p].at > x.at || (out[p].at == x.at && out[p].until > x.until))
            invariant
                p <= out@.len(),
                reach_place(out@, x) == p + reach_place(out@.skip(p as int), x),
            decreases out@.len() - p,
        {
            proof {
                assert(out@.skip(p as int).drop_first() =~= out@.skip(p + 1));
            }
            p = p + 1;
        }
        proof {
            if p < out@.len() {
                assert(out@.skip(p as int)[0] == out@[p as int]);
            } else {
                assert(out@.skip(p as int).len() == 0);
            }
            assert(reach_place(out@, x) == p);
            let t = reaches@.subrange(0, i + 1);
            assert(t.drop_last() =~= reaches@.subrange(0, i as int));
            assert(t.last() == x);
        }
        out.insert(p, x);
        i = i + 1;
    }
    proof {
        assert(reaches@.subrange(0, reaches@.len() as int) =~= reaches@);
    }
    out
}

/// Sorts windows by start and joins those that touch or overlap.
pub fn merge(reaches: Vec<Reach>) -> (r: Vec<Reach>)
    ensures
        r@ == merged(reaches@),
{
    let sorted = arrange_windows(reaches);
    let mut out: Vec<Reach> = Vec::new();
    let mut i: usize = 0;
    while i < sorted.len()
        invariant
            i <= sorted@.len(),
            out@ == sweep(sorted@.subrange(0, i as int)),
        decreases sorted@.len() - i,
    {
        let reach = sorted[i];
        proof {
            let t = sorted@.subrange(0, i + 1);
            assert(t.drop_last() =~= sorted@.subrange(0, i as int));
            assert(t.last() == reach);
        }
        let n = out.len();
        if n > 0 && reach.at <= out[n - 1].until {
            let last = out[n - 1];
            let until = if last.until >= reach.until { last.until } else { reach.until };
            out.set(n - 1, Reach { at: last.at, until });
        } else {
            out.push(reach);
        }
        i = i + 1;
    }
    proof {
        assert(sorted@.subrange(0, sorted@.len() as int) =~= sorted@);
    }
    out
}

/// Some window of `s` holds the instant `t`: it starts at or before `t` and ends after it.
pub open spec fn covers_point(s: Seq<Reach>, t: int) -> bool {
    exists|q: int| 0 <= q < s.len() && (#[trigger] s[q]).at <= t < s[q].until
}

/// Every joined window is made of the windows swept: each instant it holds is held by a window
/// swept, and it starts where a window swept starts, ending no earlier than that window.
pub proof fn lemma_sweep_made_of(s: Seq<Reach>)
    ensures
        forall|w: int, t: int|
            0 <= w < sweep(s).len() && #[trigger] sweep(s)[w].at <= t < sweep(s)[w].until ==> #[trigger] covers_point(
                s,
                t,
            ),
        forall|w: int|
            0 <= w < sweep(s).len() ==> exists|q: int|
                0 <= q < s.len() && (#[trigger] s[q]).at == (#[trigger] sweep(s)[w]).at && s[q].until
                    <= sweep(s)[w].until,
    decreases s.len(),
{
    if s.len() > 0 {
        let t0 = s.drop_last();
        let m = sweep(t0);
        let r = s.last();
        let n = s.len() - 1;
        lemma_sweep_made_of(t0);
        assert(r == s[n]);
        assert forall|t: int| #[trigger] covers_point(t0, t) implies covers_point(s, t) by {
            let q = choose|q: int| 0 <= q < t0.len() && (#[trigger] t0[q]).at <= t < t0[q].until;
            assert(s[q] == t0[q]);
        }
        let out = sweep(s);
        if m.len() > 0 && r.at <= m.last().until {
            let until = if m.last().until >= r.until { m.last().until } else { r.until };
            assert(out == m.update(m.len() - 1, Reach { at: m.last().at, until }));
            assert forall|w: int, t: int|
                0 <= w < out.len() && #[trigger] out[w].at <= t < out[w].until implies #[trigger] covers_point(
                    s,
                    t,
                ) by {
                if w < m.len() - 1 {
                    assert(out[w] == m[w]);
                    assert(covers_point(t0, t));
                } else if t < m.last().until {
                    assert(m[m.len() - 1] == m.last());
                    assert(covers_point(t0, t));
                } else {
                    assert(s[n].at <= t < s[n].until);
                }
            }
            assert forall|w: int| 0 <= w < out.len() implies exists|q: int|
                0 <= q < s.len() && (#[trigger] s[q]).at == (#[trigger] out[w]).at && s[q].until
                    <= out[w].until by {
                let mw = if w < m.len() - 1 { w } else { m.len() - 1 };
                assert(m[mw].at == out[w].at && m[mw].until <= out[w].until);
                let q = choose|q: int|
                    0 <= q < t0.len() && (#[trigger] t0[q]).at == (#[trigger] m[mw]).at && t0[q].until
                        <= m[mw].until;
                assert(s[q] == t0[q]);
            }
        } else {
            assert(out == m.push(r));
            assert forall|w: int, t: int|
                0 <= w < out.len() && #[trigger] out[w].at <= t < out[w].until implies #[trigger] covers_point(
                    s,
                    t,
                ) by {
                if w < m.len() {
                    assert(out[w] == m[w]);
                    assert(covers_point(t0, t));
                } else {
                    assert(s[n].at <= t < s[n].until);
                }
            }
            assert forall|w: int| 0 <= w < out.len() implies exists|q: int|
                0 <= q < s.len() && (#[trigger] s[q]).at == (#[trigger] out[w]).at && s[q].until
                    <= out[w].until by {
                if w < m.len() {
                    assert(out[w] == m[w]);
                    let q = choose|q: int|
                        0 <= q < t0.len() && (#[trigger] t0[q]).at == (#[trigger] m[w]).at && t0[q].until
                            <= m[w].until;
                    assert(s[q] == t0[q]);
                } else {
                    assert(s[n].at == out[w].at);
                }
            }
        }
    }
}

/// Every window of an arrangement is one of the windows arranged.
pub proof fn lemma_arrange_reaches_from(s: Seq<Reach>, i: int)
    requires
        0 <= i < arrange_reaches(s).len(),
    ensures
        exists|q: int| 0 <= q < s.len() && arrange_reaches(s)[i] == #[trigger] s[q],
    decreases s.len(),
{
    lemma_arrange_reaches(s);
    let t = s.drop_last();
    let a = arrange_reaches(t);
    let x = s.last();
    lemma_arrange_reaches(t);
    lemma_reach_place(a, x);
    let p = reach_place(a, x);
    let r = a.insert(p, x);
    if i == p {
        assert(r[i] == s[s.len() - 1]);
    } else {
        let i2 = if i < p { i } else { i - 1 };
        assert(r[i] == a[i2]);
        lemma_arrange_reaches_from(t, i2);
        let q = choose|q: int| 0 <= q < t.len() && a[i2] == #[trigger] t[q];
        assert(t[q] == s[q]);
    }
}

/// `s[i]` starts inside `s[o]`, an earlier span, and ends after it: the two spans cross.
pub open spec fn crossing_pair(s: Seq<Interval>, o: int, i: int) -> bool {
    0 <= o < i < s.len() && s[i].at < s[o].until && s[o].until < s[i].until
}

/// The reach of two spans: from where `s[o]` starts to where `s[i]` ends.
pub open spec fn pair_reach(s: Seq<Interval>, o: int, i: int) -> Reach {
    Reach { at: s[o].at, until: s[i].until }
}

/// `r` is the reach of two crossing spans of `s`, the earlier being `s[o]`.
pub open spec fn reach_of_pair_from(s: Seq<Interval>, o: int, r: Reach) -> bool {
    exists|k: int| #[trigger] crossing_pair(s, o, k) && r == pair_reach(s, o, k)
}

/// `r` is the reach of two crossing spans of `s`.
pub open spec fn reach_of_pair(s: Seq<Interval>, r: Reach) -> bool {
    exists|o: int| #[trigger] reach_of_pair_from(s, o, r)
}

proof fn lemma_crossings_from_pairs(s: Seq<Interval>, i: int, j: int)
    requires
        0 <= i < j,
    ensures
        forall|q: int|
            0 <= q < crossings_from(s, i, j).len() ==> reach_of_pair_from(s, i, #[trigger] crossings_from(s, i, j)[q]),
    decreases s.len() - j,
{
    if !(j < 0 || j >= s.len() || i < 0 || i >= s.len() || s[j].at >= s[i].until) {
        lemma_crossings_from_pairs(s, i, j + 1);
        let rest = crossings_from(s, i, j + 1);
        let c = crossings_from(s, i, j);
        assert forall|q: int| 0 <= q < c.len() implies reach_of_pair_from(s, i, #[trigger] c[q]) by {
            if s[j].until > s[i].until {
                if q == 0 {
                    assert(crossing_pair(s, i, j) && c[q] == pair_reach(s, i, j));
                } else {
                    assert(c[q] == rest[q - 1]);
                }
            } else {
                assert(c[q] == rest[q]);
            }
        }
    }
}

proof fn lemma_crossings_upto_pairs(s: Seq<Interval>, n: int)
    ensures
        forall|q: int| 0 <= q < crossings_upto(s, n).len() ==> reach_of_pair(s, #[trigger] crossings_upto(s, n)[q]),
    decreases n,
{
    if n > 0 {
        lemma_crossings_upto_pairs(s, n - 1);
        lemma_crossings_from_pairs(s, n - 1, n);
        let a = crossings_upto(s, n - 1);
        let b = crossings_from(s, n - 1, n);
        let c = crossings_upto(s, n);
        assert(c == a + b);
        assert forall|q: int| 0 <= q < c.len() implies reach_of_pair(s, #[trigger] c[q]) by {
            if q < a.len() {
                assert(c[q] == a[q]);
            } else {
                assert(c[q] == b[q - a.len()]);
                assert(reach_of_pair_from(s, n - 1, c[q]));
            }
        }
    }
}

/// Some two crossing spans of `s` reach over the instant `t`.
pub open spec fn pair_covers(s: Seq<Interval>, t: int) -> bool {
    exists|o: int, k: int| #[trigger] crossing_pair(s, o, k) && s[o].at <= t < s[k].until
}

/// Every instant a crossing window of a trace holds lies within the reach of a crossing pair of
/// its spans, and every window starts where such a reach starts and ends no earlier than it.
pub proof fn lemma_windows_made_of(s: Seq<Interval>)
    ensures
        forall|w: int, t: int|
            0 <= w < windows(s).len() && #[trigger] windows(s)[w].at <= t < windows(s)[w].until ==> #[trigger] pair_covers(
                s,
                t,
            ),
        forall|w: int|
            0 <= w < windows(s).len() ==> exists|o: int, k: int|
                #[trigger] crossing_pair(s, o, k) && s[o].at == (#[trigger] windows(s)[w]).at && s[k].until
                    <= windows(s)[w].until,
{
    let c = crossings(s);
    let a = arrange_reaches(c);
    let m = windows(s);
    lemma_sweep_made_of(a);
    lemma_crossings_upto_pairs(s, s.len() as int);
    assert forall|w: int, t: int|
        0 <= w < m.len() && #[trigger] m[w].at <= t < m[w].until implies #[trigger] pair_covers(s, t) by {
        assert(covers_point(a, t));
        let q = choose|q: int| 0 <= q < a.len() && (#[trigger] a[q]).at <= t < a[q].until;
        lemma_arrange_reaches_from(c, q);
        let q2 = choose|q2: int| 0 <= q2 < c.len() && a[q] == #[trigger] c[q2];
        assert(reach_of_pair(s, c[q2]));
        let o = choose|o: int| #[trigger] reach_of_pair_from(s, o, c[q2]);
        let k = choose|k: int| #[trigger] crossing_pair(s, o, k) && c[q2] == pair_reach(s, o, k);
        assert(crossing_pair(s, o, k) && s[o].at <= t < s[k].until);
    }
    assert forall|w: int| 0 <= w < m.len() implies exists|o: int, k: int|
        #[trigger] crossing_pair(s, o, k) && s[o].at == (#[trigger] m[w]).at && s[k].until <= m[w].until by {
        let q = choose|q: int|
            0 <= q < a.len() && (#[trigger] a[q]).at == (#[trigger] m[w]).at && a[q].until <= m[w].until;
        lemma_arrange_reaches_from(c, q);
        let q2 = choose|q2: int| 0 <= q2 < c.len() && a[q] == #[trigger] c[q2];
        assert(reach_of_pair(s, c[q2]));
        let o = choose|o: int| #[trigger] reach_of_pair_from(s, o, c[q2]);
        let k = choose|k: int| #[trigger] crossing_pair(s, o, k) && c[q2] == pair_reach(s, o, k);
        assert(crossing_pair(s, o, k) && s[o].at == m[w].at && s[k].until <= m[w].until);
    }
}

} // verus!
