//! The span derivation: pairs entering and returning source records into held and inclusive
//! time per span, and scopes the refusal of crossing spans to the windows they reach.
pub mod nesting;
pub mod reach;

use crate::atom::{Atom, Edge, Source};
use crate::context::Role;
use crate::table::{Table, lemma_map_at};
use crate::text::bytes_of;
use reach::{
    crossings,
    Reach, lemma_crossing_raised, lemma_crossings_forward, lemma_merged, lemma_struck_at, meets,
    struck, struck_at, tangled, windows,
};
use vstd::prelude::*;
use vstd::string::*;

verus! {

/// A closed span of one trace: the declaration it ran, its group key, and when it entered and
/// returned.
#[derive(Debug)]
pub struct Interval {
    pub declaration: String,
    pub group: Option<String>,
    pub at: u64,
    pub until: u64,
}

impl Interval {
    /// A copy of the interval.
    pub fn duplicate(&self) -> (r: Self)
        ensures
            r == *self,
    {
        let group = match &self.group {
            Some(g) => Some(g.clone()),
            None => None,
        };
        Interval { declaration: self.declaration.clone(), group, at: self.at, until: self.until }
    }
}

/// `a` sorts strictly after `b`: later start, or the same start and an earlier end.
pub open spec fn later(a: Interval, b: Interval) -> bool {
    a.at > b.at || (a.at == b.at && a.until < b.until)
}

/// Spans in order of start, the longer first where starts agree.
pub open spec fn ordered(s: Seq<Interval>) -> bool {
    forall|i: int, j: int| 0 <= i < j < s.len() ==> !later(#[trigger] s[i], #[trigger] s[j])
}

/// Spans that do not run backwards.
pub open spec fn closed(s: Seq<Interval>) -> bool {
    forall|i: int| 0 <= i < s.len() ==> #[trigger] s[i].at <= s[i].until
}

/// The first position of `s` holding a span that sorts after `x`.
pub open spec fn place(s: Seq<Interval>, x: Interval) -> int
    decreases s.len(),
{
    if s.len() == 0 {
        0
    } else if later(s[0], x) {
        0
    } else {
        1 + place(s.drop_first(), x)
    }
}

/// The spans of `s` in a stable sort by start, the longer first where starts agree.
pub open spec fn arrange(s: Seq<Interval>) -> Seq<Interval>
    decreases s.len(),
{
    if s.len() == 0 {
        s
    } else {
        let a = arrange(s.drop_last());
        a.insert(place(a, s.last()), s.last())
    }
}

pub proof fn lemma_place(s: Seq<Interval>, x: Interval)
    ensures
        0 <= place(s, x) <= s.len(),
        forall|q: int| 0 <= q < place(s, x) ==> !later(#[trigger] s[q], x),
        place(s, x) < s.len() ==> later(s[place(s, x)], x),
    decreases s.len(),
{
    if s.len() > 0 && !later(s[0], x) {
        lemma_place(s.drop_first(), x);
        assert forall|q: int| 0 <= q < place(s, x) implies !later(#[trigger] s[q], x) by {
            if q > 0 {
                assert(s[q] == s.drop_first()[q - 1]);
            }
        }
    }
}

/// Arranging keeps the number of spans and orders them.
pub proof fn lemma_arrange(s: Seq<Interval>)
    ensures
        arrange(s).len() == s.len(),
        ordered(arrange(s)),
    decreases s.len(),
{
    if s.len() > 0 {
        let t = s.drop_last();
        let a = arrange(t);
        let x = s.last();
        lemma_arrange(t);
        lemma_place(a, x);
        let p = place(a, x);
        let r = a.insert(p, x);
        assert forall|i: int, j: int| 0 <= i < j < r.len() implies !later(
            #[trigger] r[i],
            #[trigger] r[j],
        ) by {
            if j < p {
                assert(r[i] == a[i] && r[j] == a[j]);
            } else if j == p {
                assert(r[i] == a[i]);
            } else if i == p {
                assert(r[j] == a[j - 1]);
                assert(later(a[p], x));
                if p < j - 1 {
                    assert(!later(a[p], a[j - 1]));
                }
            } else if i < p {
                assert(r[i] == a[i] && r[j] == a[j - 1]);
            } else {
                assert(r[i] == a[i - 1] && r[j] == a[j - 1]);
            }
        }
    }
}

/// Arranging spans that do not run backwards gives spans that do not run backwards.
pub proof fn lemma_arrange_closed(s: Seq<Interval>)
    requires
        closed(s),
    ensures
        closed(arrange(s)),
    decreases s.len(),
{
    if s.len() > 0 {
        let t = s.drop_last();
        let a = arrange(t);
        let x = s.last();
        lemma_arrange_closed(t);
        lemma_place(a, x);
        let p = place(a, x);
        let r = a.insert(p, x);
        assert forall|k: int| 0 <= k < r.len() implies #[trigger] r[k].at <= r[k].until by {
            if k < p {
                assert(r[k] == a[k]);
            } else if k > p {
                assert(r[k] == a[k - 1]);
            }
        }
    }
}

/// Sorts spans by start, the longer first where starts agree, keeping the order of equal spans.
pub fn arrange_intervals(intervals: &Vec<Interval>) -> (r: Vec<Interval>)
    ensures
        r@ == arrange(intervals@),
{
    let mut out: Vec<Interval> = Vec::new();
    let mut i: usize = 0;
    while i < intervals.len()
        invariant
            i <= intervals@.len(),
            out@ == arrange(intervals@.subrange(0, i as int)),
        decreases intervals@.len() - i,
    {
        let x = intervals[i].duplicate();
        let mut p: usize = 0;
        proof {
            assert(out@.skip(0) =~= out@);
        }
        while p < out.len() && !(out[p].at > x.at || (out[p].at == x.at && out[p].until < x.until))
            invariant
                p <= out@.len(),
                place(out@, x) == p + place(out@.skip(p as int), x),
            decreases out@.len() - p,
        {
            proof {
                assert(out@.skip(p as int).drop_first() =~= out@.skip(p + 1));
            }
            p = p + 1;
        }
        proof {
            if p < out@.len() {
                assert(out@.skip(p as int)[0] == out@[p as int]);
            } else {
                assert(out@.skip(p as int).len() == 0);
            }
            assert(place(out@, x) == p);
            let t = intervals@.subrange(0, i + 1);
            assert(t.drop_last() =~= intervals@.subrange(0, i as int));
            assert(t.last() == x);
        }
        out.insert(p, x);
        i = i + 1;
    }
    proof {
        assert(intervals@.subrange(0, intervals@.len() as int) =~= intervals@);
    }
    out
}

/// The time that the spans after `s[k]` cover inside it, scanning from `s[j]` with `edge` the end of
/// the last span counted: a span counts when it starts at or after that end.
pub open spec fn covered_from(s: Seq<Interval>, k: int, j: int, edge: int) -> int
    decreases s.len() - j,
{
    if j < 0 || j >= s.len() || k < 0 || k >= s.len() || s[j].at >= s[k].until {
        0
    } else if s[j].at < edge {
        covered_from(s, k, j + 1, edge)
    } else {
        (s[j].until - s[j].at) + covered_from(s, k, j + 1, s[j].until as int)
    }
}

/// The time that the outermost spans nested in `s[k]` cover.
pub open spec fn covered_spec(s: Seq<Interval>, k: int) -> int {
    covered_from(s, k, k + 1, s[k].at as int)
}

/// `s[k]` meets no crossing window of its trace.
pub open spec fn survives(s: Seq<Interval>, k: int) -> bool {
    struck_at(windows(s), s[k]) is None
}

/// In an ordered trace, every span that starts inside a surviving span also ends inside it.
pub proof fn lemma_survivor_nests(s: Seq<Interval>, k: int, j: int)
    requires
        ordered(s),
        closed(s),
        0 <= k < j < s.len(),
        survives(s, k),
        s[j].at < s[k].until,
    ensures
        s[j].until <= s[k].until,
{
    if s[j].until > s[k].until {
        lemma_crossing_raised(s, k, j);
        let c = crossings(s);
        let x = Reach { at: s[k].at, until: s[j].until };
        let q = choose|q: int| 0 <= q < c.len() && c[q] == x;
        lemma_crossings_forward(s);
        lemma_merged(c);
        let m = windows(s);
        let w = choose|w: int| 0 <= w < m.len() && reach::holds(#[trigger] m[w], c[q]);
        assert(!later(s[k], s[j]));
        assert(meets(m[w], s[k]));
        lemma_struck_at(m, s[k]);
    }
}

/// Containment closes a refusal: in an arranged trace, a span that starts inside a surviving span
/// ends inside it and survives too, so a surviving span never subtracts a child that was
/// refused.
pub proof fn law_containment_closed(s: Seq<Interval>, k: int, j: int)
    requires
        ordered(s),
        closed(s),
        0 <= k < j < s.len(),
        survives(s, k),
        s[j].at < s[k].until,
    ensures
        s[j].until <= s[k].until,
        survives(s, j),
{
    lemma_survivor_nests(s, k, j);
    let m = windows(s);
    lemma_struck_at(m, s[k]);
    lemma_struck_at(m, s[j]);
    assert(!later(s[k], s[j]));
    if !survives(s, j) {
        let w = struck_at(m, s[j])->0;
        assert(meets(m[w], s[j]));
        assert(meets(m[w], s[k]));
    }
}

/// A span is dropped exactly when a crossing window of its trace meets it. The windows are the
/// crossings merged: every crossing of an arranged trace, from where the earlier span starts to
/// where the later one ends, lies within a window, and the windows lie apart from one another.
pub proof fn law_dropped_by_window(s: Seq<Interval>, k: int)
    requires
        ordered(s),
        closed(s),
        0 <= k < s.len(),
    ensures
        !survives(s, k) <==> exists|w: int| 0 <= w < windows(s).len() && meets(#[trigger] windows(s)[w], s[k]),
        forall|o: int, i: int|
            0 <= o < i < s.len() && s[i].at < s[o].until && s[o].until < s[i].until ==> exists|w: int|
                0 <= w < windows(s).len() && reach::holds(
                    #[trigger] windows(s)[w],
                    Reach { at: #[trigger] s[o].at, until: #[trigger] s[i].until },
                ),
        reach::separated(windows(s)),
{
    let m = windows(s);
    lemma_struck_at(m, s[k]);
    lemma_crossings_forward(s);
    lemma_merged(crossings(s));
    assert forall|o: int, i: int|
        0 <= o < i < s.len() && s[i].at < s[o].until && s[o].until < s[i].until implies exists|w: int|
            0 <= w < m.len() && reach::holds(
                #[trigger] m[w],
                Reach { at: #[trigger] s[o].at, until: #[trigger] s[i].until },
            ) by {
        lemma_crossing_raised(s, o, i);
        let c = crossings(s);
        let q = choose|q: int| 0 <= q < c.len() && c[q] == Reach { at: s[o].at, until: s[i].until };
        assert(exists|w: int| 0 <= w < m.len() && reach::holds(#[trigger] m[w], c[q]));
    }
}

proof fn lemma_struck_by_crossing(s: Seq<Interval>, k: int)
    requires
        closed(s),
        0 <= k < s.len(),
        s[k].at < s[k].until,
        !survives(s, k),
    ensures
        exists|o: int, i: int|
            #[trigger] reach::crossing_pair(s, o, i) && meets(reach::pair_reach(s, o, i), s[k]),
{
    let m = windows(s);
    lemma_struck_at(m, s[k]);
    let w = struck_at(m, s[k])->0;
    assert(meets(m[w], s[k]));
    reach::lemma_windows_made_of(s);
    let (o, i) = choose|o: int, i: int|
        #[trigger] reach::crossing_pair(s, o, i) && s[o].at == (#[trigger] m[w]).at && s[i].until
            <= m[w].until;
    assert(s[o].at <= s[o].until);
    let t: int = if s[k].at >= m[w].at { s[k].at as int } else { m[w].at as int };
    assert(m[w].at <= t < m[w].until);
    assert(reach::pair_covers(s, t));
    let (o2, i2) = choose|o2: int, i2: int|
        #[trigger] reach::crossing_pair(s, o2, i2) && s[o2].at <= t < s[i2].until;
    assert(meets(reach::pair_reach(s, o2, i2), s[k]));
}

proof fn lemma_crossing_strikes(s: Seq<Interval>, k: int, o: int, i: int)
    requires
        ordered(s),
        closed(s),
        0 <= k < s.len(),
        reach::crossing_pair(s, o, i),
        meets(reach::pair_reach(s, o, i), s[k]),
    ensures
        !survives(s, k),
{
    let m = windows(s);
    law_dropped_by_window(s, k);
    let w = choose|w: int|
        0 <= w < m.len() && reach::holds(
            #[trigger] m[w],
            Reach { at: #[trigger] s[o].at, until: #[trigger] s[i].until },
        );
    assert(meets(m[w], s[k]));
}

/// A span that runs for some time is dropped exactly when the reach of two crossing spans of its
/// trace meets it: from where the earlier of the two starts to where the later one ends. A span
/// clear of every such reach survives, however near the crossing windows around it lie; and
/// every window starts where the reach of a crossing starts.
pub proof fn law_dropped_by_crossing(s: Seq<Interval>, k: int)
    requires
        ordered(s),
        closed(s),
        0 <= k < s.len(),
        s[k].at < s[k].until,
    ensures
        !survives(s, k) <==> exists|o: int, i: int|
            #[trigger] reach::crossing_pair(s, o, i) && meets(reach::pair_reach(s, o, i), s[k]),
        forall|w: int|
            0 <= w < windows(s).len() ==> exists|o: int, i: int|
                #[trigger] reach::crossing_pair(s, o, i) && s[o].at == (#[trigger] windows(s)[w]).at,
{
    if !survives(s, k) {
        lemma_struck_by_crossing(s, k);
    }
    if exists|o: int, i: int|
        #[trigger] reach::crossing_pair(s, o, i) && meets(reach::pair_reach(s, o, i), s[k]) {
        let (o, i) = choose|o: int, i: int|
            #[trigger] reach::crossing_pair(s, o, i) && meets(reach::pair_reach(s, o, i), s[k]);
        lemma_crossing_strikes(s, k, o, i);
    }
    assert forall|w: int| 0 <= w < windows(s).len() implies exists|o: int, i: int|
        #[trigger] reach::crossing_pair(s, o, i) && s[o].at == (#[trigger] windows(s)[w]).at by {
        reach::lemma_windows_made_of(s);
        let (o, i) = choose|o: int, i: int|
            #[trigger] reach::crossing_pair(s, o, i) && s[o].at == (#[trigger] windows(s)[w]).at
                && s[i].until <= windows(s)[w].until;
    }
}

proof fn lemma_covered_bound(s: Seq<Interval>, k: int, j: int, edge: int)
    requires
        ordered(s),
        closed(s),
        0 <= k < s.len(),
        k < j,
        survives(s, k),
        s[k].at <= edge <= s[k].until,
    ensures
        0 <= covered_from(s, k, j, edge) <= s[k].until - edge,
    decreases s.len() - j,
{
    if !(j >= s.len() || s[j].at >= s[k].until) {
        lemma_survivor_nests(s, k, j);
        if s[j].at < edge {
            lemma_covered_bound(s, k, j + 1, edge);
        } else {
            lemma_covered_bound(s, k, j + 1, s[j].until as int);
        }
    }
}

/// A surviving span covers no more time with its nested spans than it holds itself.
pub proof fn law_covered_within(s: Seq<Interval>, k: int)
    requires
        ordered(s),
        closed(s),
        0 <= k < s.len(),
        survives(s, k),
    ensures
        0 <= covered_spec(s, k) <= s[k].until - s[k].at,
{
    lemma_covered_bound(s, k, k + 1, s[k].at as int);
}

/// The time the outermost spans nested in the surviving span `intervals[index]` cover.
pub fn covered(intervals: &Vec<Interval>, index: usize) -> (r: u128)
    requires
        ordered(intervals@),
        closed(intervals@),
        index < intervals@.len(),
        survives(intervals@, index as int),
    ensures
        r == covered_spec(intervals@, index as int),
        r <= intervals@[index as int].until - intervals@[index as int].at,
{
    let ghost s = intervals@;
    let count = intervals.len();
    let outer_at = intervals[index].at;
    let outer_until = intervals[index].until;
    let mut total: u128 = 0;
    let mut edge: u64 = outer_at;
    let mut j: usize = index + 1;
    proof {
        law_covered_within(s, index as int);
    }
    while j < count && intervals[j].at < outer_until
        invariant
            s == intervals@,
            count == s.len(),
            ordered(s),
            closed(s),
            index < j <= s.len(),
            outer_at == s[index as int].at,
            outer_until == s[index as int].until,
            survives(s, index as int),
            outer_at <= edge <= outer_until,
            total + covered_from(s, index as int, j as int, edge as int) == covered_spec(s, index as int),
            covered_spec(s, index as int) <= outer_until - outer_at,
        decreases s.len() - j,
    {
        proof {
            lemma_covered_bound(s, index as int, j as int, edge as int);
        }
        if intervals[j].at >= edge {
            proof {
                lemma_survivor_nests(s, index as int, j as int);
                lemma_covered_bound(s, index as int, j + 1, s[j as int].until as int);
            }
            total = total + ((intervals[j].until - intervals[j].at) as u128);
            edge = intervals[j].until;
        }
        j = j + 1;
    }
    total
}

/// Time held inside one surviving span: what it spans, and what it spans less the time of the
/// outermost spans nested in it.
#[derive(Debug)]
pub struct Held {
    pub declaration: String,
    pub group: Option<String>,
    pub inclusive: u128,
    pub held: u128,
}

/// A span that entered and never returned.
#[derive(Debug)]
pub struct Unclosed {
    pub declaration: String,
    pub file: String,
    pub trace: String,
    pub span: String,
    pub at: u64,
}

/// A crossing window of one trace and the spans dropped inside it.
#[derive(Debug)]
pub struct Tangle {
    pub trace: String,
    pub at: u64,
    pub until: u64,
    pub spans: u64,
    pub declarations: Table<()>,
}

impl Tangle {
    /// A window of `trace` that has dropped no span yet.
    pub fn open(trace: &str, reach: &Reach) -> (r: Self)
        ensures
            r.trace@ == trace@,
            r.at == reach.at,
            r.until == reach.until,
            r.spans == 0,
            r.declarations.wf(),
            r.declarations@ == Map::<Seq<char>, ()>::empty(),
    {
        Tangle {
            trace: trace.to_owned(),
            at: reach.at,
            until: reach.until,
            spans: 0,
            declarations: Table::new(),
        }
    }

    /// Counts one more dropped span of `declaration`.
    pub fn mark(&mut self, declaration: &str)
        requires
            old(self).declarations.wf(),
            old(self).spans < u64::MAX,
        ensures
            final(self).trace == old(self).trace,
            final(self).at == old(self).at,
            final(self).until == old(self).until,
            final(self).spans == old(self).spans + 1,
            final(self).declarations.wf(),
            final(self).declarations@ == old(self).declarations@.insert(declaration@, ()),
    {
        self.spans = self.spans + 1;
        self.declarations.put(declaration.to_owned(), ());
    }
}

impl Unclosed {
    /// The unclosed span an open frame names.
    pub fn name(frame: &Frame) -> (r: Self)
        ensures
            r@ == unclosed_of(frame@),
    {
        Unclosed {
            declaration: frame.declaration.clone(),
            file: frame.file.clone(),
            trace: frame.trace.clone(),
            span: frame.span.clone(),
            at: frame.at,
        }
    }
}

/// What the derivation yields: held time per surviving span, unclosed spans, crossing windows,
/// and how many records took part.
#[derive(Debug)]
pub struct Derived {
    pub held: Vec<Held>,
    pub unclosed: Vec<Unclosed>,
    pub tangles: Vec<Tangle>,
    pub matched: u64,
}


/// A text held in an optional `String`.
pub open spec fn opt_view(o: Option<String>) -> Option<Seq<char>> {
    match o {
        Some(t) => Some(t@),
        None => None,
    }
}

/// What a closed span holds.
pub struct IntervalView {
    pub declaration: Seq<char>,
    pub group: Option<Seq<char>>,
    pub at: u64,
    pub until: u64,
}

impl View for Interval {
    type V = IntervalView;

    open spec fn view(&self) -> IntervalView {
        IntervalView {
            declaration: self.declaration@,
            group: opt_view(self.group),
            at: self.at,
            until: self.until,
        }
    }
}

/// What the derivation reads from a source record.
pub struct FrameView {
    pub span: Seq<char>,
    pub declaration: Seq<char>,
    pub file: Seq<char>,
    pub trace: Seq<char>,
    pub group: Option<Seq<char>>,
    pub edge: Edge,
    pub at: u64,
}

/// A source record read for the derivation.
#[derive(Debug)]
pub struct Frame {
    pub span: String,
    pub declaration: String,
    pub file: String,
    pub trace: String,
    pub group: Option<String>,
    pub edge: Edge,
    pub at: u64,
}

impl View for Frame {
    type V = FrameView;

    open spec fn view(&self) -> FrameView {
        FrameView {
            span: self.span@,
            declaration: self.declaration@,
            file: self.file@,
            trace: self.trace@,
            group: opt_view(self.group),
            edge: self.edge,
            at: self.at,
        }
    }
}

/// The name of a declaration: its module, `::`, and its function.
pub open spec fn declaration_of(module: Seq<char>, function: Seq<char>) -> Seq<char> {
    module + "::"@ + function
}

/// The frame that a record yields: a record takes part when its source names a function and an
/// edge and its context binds `locus.span`. The trace is the bound `locus.trace`, or empty; the
/// group is the key the record itself binds to the group role.
pub open spec fn frame_view(group: Option<Seq<char>>, atom: Atom) -> Option<FrameView> {
    match atom.spec_source() {
        Some(source) => match (source.function, source.edge) {
            (Some(function), Some(edge)) => {
                let context = atom.spec_context();
                if context.contains_key("locus.span"@) {
                    Some(
                        FrameView {
                            span: context["locus.span"@],
                            declaration: declaration_of(source.module@, function@),
                            file: source.file@,
                            trace: if context.contains_key("locus.trace"@) {
                                context["locus.trace"@]
                            } else {
                                Seq::empty()
                            },
                            group: match group {
                                Some(role) => if context.contains_key(role) {
                                    Some(context[role])
                                } else {
                                    None
                                },
                                None => None,
                            },
                            edge,
                            at: atom.spec_at(),
                        },
                    )
                } else {
                    None
                }
            },
            _ => None,
        },
        None => None,
    }
}

/// Reads the text bound to `role` in a snapshot.
fn bound(context: &Table<String>, role: &str) -> (r: Option<String>)
    requires
        context.wf(),
    ensures
        r is Some <==> context@.contains_key(role@),
        r matches Some(t) ==> t@ == context@[role@]@,
{
    match context.get(role) {
        Some(t) => Some(t.clone()),
        None => None,
    }
}

/// The entries of a map of spans to frames, as frame views.
pub open spec fn frames_view(m: Map<Seq<char>, Frame>) -> Map<Seq<char>, FrameView> {
    Map::new(|k: Seq<char>| m.contains_key(k), |k: Seq<char>| m[k]@)
}

/// The entries of a map of traces to intervals, as sequences.
pub open spec fn traces_view(m: Map<Seq<char>, Vec<Interval>>) -> Map<Seq<char>, Seq<Interval>> {
    Map::new(|k: Seq<char>| m.contains_key(k), |k: Seq<char>| m[k]@)
}

/// The spans of a trace so far, or none.
pub open spec fn trace_or_empty(m: Map<Seq<char>, Seq<Interval>>, t: Seq<char>) -> Seq<Interval> {
    if m.contains_key(t) {
        m[t]
    } else {
        Seq::empty()
    }
}

/// The message refusing a span that enters twice.
pub open spec fn reentry_message(span: Seq<char>) -> Seq<char> {
    "span "@ + span + " enters again before returning"@
}

/// The message refusing a span that returns without entering.
pub open spec fn stray_message(span: Seq<char>) -> Seq<char> {
    "span "@ + span + " returns without entering"@
}

/// The message refusing a span that returns from another declaration.
pub open spec fn mismatch_message(span: Seq<char>) -> Seq<char> {
    "span "@ + span + " returns from another declaration"@
}

/// The message refusing a span that returns before it enters.
pub open spec fn early_message(span: Seq<char>) -> Seq<char> {
    "span "@ + span + " returns before it enters"@
}

/// The message refusing a count of matched records past `u64::MAX`.
pub open spec fn overflow_message() -> Seq<char> {
    "matched Atom count overflowed"@
}

fn span_message(span: &str, tail: &str) -> (r: String)
    ensures
        r@ == "span "@ + span@ + tail@,
{
    let mut m = "span ".to_owned();
    m.append(span);
    m.append(tail);
    m
}

/// The state of the span derivation while records stream in.
pub struct Ledger {
    group: Option<Role>,
    open: Table<Frame>,
    traces: Table<Vec<Interval>>,
    matched: u64,
}

impl Ledger {
    #[verifier::type_invariant]
    spec fn valid(&self) -> bool {
        &&& self.open.wf()
        &&& self.traces.wf()
        &&& forall|t: Seq<char>| #[trigger] self.traces@.contains_key(t) ==> closed(self.traces@[t]@)
    }

    /// The role whose key groups held time.
    pub closed spec fn spec_group(&self) -> Option<Seq<char>> {
        match self.group {
            Some(r) => Some(r@),
            None => None,
        }
    }

    /// The spans entered and not yet returned, by span key.
    pub closed spec fn spec_open(&self) -> Map<Seq<char>, FrameView> {
        frames_view(self.open@)
    }

    /// The closed spans of each trace, in the order they returned.
    pub closed spec fn spec_traces(&self) -> Map<Seq<char>, Seq<Interval>> {
        traces_view(self.traces@)
    }

    /// How many records took part.
    pub closed spec fn spec_matched(&self) -> u64 {
        self.matched
    }

    /// An empty derivation that groups held time by the key bound to `group`, if given.
    pub fn grouped(group: Option<Role>) -> (r: Self)
        ensures
            r.spec_group() == match group {
                Some(g) => Some(g@),
                None => None::<Seq<char>>,
            },
            r.spec_open() == Map::<Seq<char>, FrameView>::empty(),
            r.spec_traces() == Map::<Seq<char>, Seq<Interval>>::empty(),
            r.spec_matched() == 0,
    {
        let r = Ledger { group, open: Table::new(), traces: Table::new(), matched: 0 };
        proof {
            assert(r.spec_open() =~= Map::<Seq<char>, FrameView>::empty());
            assert(r.spec_traces() =~= Map::<Seq<char>, Seq<Interval>>::empty());
        }
        r
    }

    /// The frame a record yields for this derivation.
    pub fn frame(&self, atom: &Atom) -> (r: Option<Frame>)
        ensures
            r is Some <==> frame_view(self.spec_group(), *atom) is Some,
            r matches Some(f) ==> f@ == frame_view(self.spec_group(), *atom)->0,
    {
        let source = match atom.source() {
            Some(s) => s,
            None => return None,
        };
        let function = match source.function() {
            Some(f) => f,
            None => return None,
        };
        let edge = match source.edge() {
            Some(e) => *e,
            None => return None,
        };
        let context = atom.context();
        let span = match bound(context, "locus.span") {
            Some(s) => s,
            None => return None,
        };
        let trace = match bound(context, "locus.trace") {
            Some(t) => t,
            None => String::new(),
        };
        let group = match &self.group {
            Some(role) => bound(context, role.text()),
            None => None,
        };
        let mut declaration = source.module().to_owned();
        declaration.append("::");
        declaration.append(function);
        let f = Frame {
            span,
            declaration,
            file: source.file().to_owned(),
            trace,
            group,
            edge,
            at: atom.at(),
        };
        proof {
            assert(f@ =~= frame_view(self.spec_group(), *atom)->0);
        }
        Some(f)
    }
}

/// Opens the span of an entering frame; refused when the span is already open.
pub fn entered(open: &mut Table<Frame>, frame: Frame) -> (r: Result<(), String>)
    requires
        old(open).wf(),
    ensures
        final(open).wf(),
        old(open)@.contains_key(frame.span@) ==> (r matches Err(m) && m@ == reentry_message(
            frame.span@,
        )) && final(open)@ == old(open)@,
        !old(open)@.contains_key(frame.span@) ==> r is Ok && final(open)@ == old(open)@.insert(
            frame.span@,
            frame,
        ),
{
    if open.find(frame.span.as_str()).is_some() {
        return Err(span_message(frame.span.as_str(), " enters again before returning"));
    }
    let key = frame.span.clone();
    open.put(key, frame);
    Ok(())
}

/// Closes the span of a returning frame into the spans of its trace; refused when the span is
/// not open, was entered by another declaration, or returns before it entered.
pub fn returned(open: &mut Table<Frame>, traces: &mut Table<Vec<Interval>>, frame: Frame) -> (r:
    Result<(), String>)
    requires
        old(open).wf(),
        old(traces).wf(),
    ensures
        final(open).wf(),
        final(traces).wf(),
        !old(open)@.contains_key(frame.span@) ==> (r matches Err(m) && m@ == stray_message(
            frame.span@,
        )),
        old(open)@.contains_key(frame.span@) && old(open)@[frame.span@].declaration@
            != frame.declaration@ ==> (r matches Err(m) && m@ == mismatch_message(frame.span@)),
        old(open)@.contains_key(frame.span@) && old(open)@[frame.span@].declaration@
            == frame.declaration@ && frame.at < old(open)@[frame.span@].at ==> (r matches Err(m)
            && m@ == early_message(frame.span@)),
        r is Ok <==> old(open)@.contains_key(frame.span@) && old(open)@[frame.span@].declaration@
            == frame.declaration@ && frame.at >= old(open)@[frame.span@].at,
        r is Err ==> final(traces)@ == old(traces)@,
        r is Ok ==> {
            let e = old(open)@[frame.span@];
            &&& final(open)@ == old(open)@.remove(frame.span@)
            &&& final(traces)@.dom() == old(traces)@.dom().insert(e.trace@)
            &&& forall|t: Seq<char>|
                #[trigger] final(traces)@.contains_key(t) && t != e.trace@ ==> final(traces)@[t]
                    == old(traces)@[t]
            &&& final(traces)@[e.trace@]@ == trace_or_empty(traces_view(old(traces)@), e.trace@).push(
                Interval { declaration: e.declaration, group: e.group, at: e.at, until: frame.at },
            )
        },
{
    let entered = match open.take(frame.span.as_str()) {
        Some(e) => e,
        None => return Err(span_message(frame.span.as_str(), " returns without entering")),
    };
    if !crate::text::same(entered.declaration.as_str(), frame.declaration.as_str()) {
        return Err(span_message(frame.span.as_str(), " returns from another declaration"));
    }
    if frame.at < entered.at {
        return Err(span_message(frame.span.as_str(), " returns before it enters"));
    }
    let ghost before_traces = traces@;
    let Frame { span: _, declaration, file: _, trace, group, edge: _, at } = entered;
    let mut intervals = match traces.take(trace.as_str()) {
        Some(v) => v,
        None => Vec::new(),
    };
    let ghost prior = intervals@;
    intervals.push(Interval { declaration, group, at, until: frame.at });
    let ghost t = trace@;
    traces.put(trace, intervals);
    proof {
        assert(prior == trace_or_empty(traces_view(before_traces), t));
        assert(traces@.dom() =~= before_traces.dom().insert(t));
    }
    Ok(())
}

/// What taking `atom` does to a derivation: `before` becomes `after` and the answer is `r`. A
/// record without a frame is passed over; the count of records that took part refuses to pass
/// `u64::MAX`; an entering frame opens its span and a returning frame closes it into the spans
/// of its trace; a span entered twice, or returning unopened, from another declaration or before
/// it entered, refuses.
pub open spec fn observes(before: Ledger, atom: Atom, r: Result<(), String>, after: Ledger) -> bool {
    &&& (after.spec_group() == before.spec_group())
    &&& (frame_view(before.spec_group(), atom) is None ==> r is Ok && after.spec_open()
        == before.spec_open() && after.spec_traces() == before.spec_traces()
        && after.spec_matched() == before.spec_matched())
    &&& (frame_view(before.spec_group(), atom) matches Some(f) ==> {
        let open = before.spec_open();
        let traces = before.spec_traces();
        if before.spec_matched() == u64::MAX {
            r matches Err(m) && m@ == overflow_message()
        } else if f.edge == Edge::Enter {
            if open.contains_key(f.span) {
                r matches Err(m) && m@ == reentry_message(f.span)
            } else {
                &&& r is Ok
                &&& after.spec_open() == open.insert(f.span, f)
                &&& after.spec_traces() == traces
                &&& after.spec_matched() == before.spec_matched() + 1
            }
        } else if !open.contains_key(f.span) {
            r matches Err(m) && m@ == stray_message(f.span)
        } else if open[f.span].declaration != f.declaration {
            r matches Err(m) && m@ == mismatch_message(f.span)
        } else if f.at < open[f.span].at {
            r matches Err(m) && m@ == early_message(f.span)
        } else {
            let e = open[f.span];
            &&& r is Ok
            &&& after.spec_open() == open.remove(f.span)
            &&& after.spec_traces().dom() == traces.dom().insert(e.trace)
            &&& forall|t: Seq<char>|
                #[trigger] after.spec_traces().contains_key(t) && t != e.trace
                    ==> after.spec_traces()[t] == traces[t]
            &&& after.spec_traces()[e.trace].drop_last() == trace_or_empty(
                traces,
                e.trace,
            )
            &&& after.spec_traces()[e.trace].last()@ == IntervalView {
                declaration: e.declaration,
                group: e.group,
                at: e.at,
                until: f.at,
            }
            &&& after.spec_matched() == before.spec_matched() + 1
        }
    })
}

/// The key a record binds to the group role, if a role groups and the record binds it.
pub open spec fn group_key(group: Option<Seq<char>>, atom: Atom) -> Option<Seq<char>> {
    match group {
        Some(role) => if atom.spec_context().contains_key(role) {
            Some(atom.spec_context()[role])
        } else {
            None
        },
        None => None,
    }
}

/// A span's group comes from the record that entered it: an entering record opens its span with
/// the key it binds itself to the group role, none where it binds none or no role groups; the
/// returning record closes the span with that same group, whatever it binds itself, and no
/// enclosing span lends its own.
pub proof fn law_group_from_enter(before: Ledger, atom: Atom, after: Ledger)
    requires
        observes(before, atom, Ok(()), after),
        frame_view(before.spec_group(), atom) is Some,
    ensures
        frame_view(before.spec_group(), atom)->0.edge == Edge::Enter ==> after.spec_open()[frame_view(
            before.spec_group(),
            atom,
        )->0.span].group == group_key(before.spec_group(), atom),
        frame_view(before.spec_group(), atom)->0.edge == Edge::Return ==> {
            let e = before.spec_open()[frame_view(before.spec_group(), atom)->0.span];
            after.spec_traces()[e.trace].last()@.group == e.group
        },
{
}

/// Every held measure of a trace is one of its closed spans: it carries that span's declaration
/// and group, and its inclusive time is the time from the span's entry to its return.
pub proof fn law_held_group(s: Seq<Interval>, m: Seq<Reach>, n: int)
    requires
        0 <= n <= s.len(),
    ensures
        forall|i: int|
            0 <= i < held_upto(s, m, n).len() ==> exists|j: int|
                0 <= j < n && (#[trigger] held_upto(s, m, n)[i]).group == s[j]@.group
                    && held_upto(s, m, n)[i].declaration == s[j]@.declaration
                    && held_upto(s, m, n)[i].inclusive == s[j].until - s[j].at,
    decreases n,
{
    if n > 0 {
        law_held_group(s, m, n - 1);
        let prev = held_upto(s, m, n - 1);
        let h = held_upto(s, m, n);
        assert forall|i: int| 0 <= i < h.len() implies exists|j: int|
            0 <= j < n && (#[trigger] h[i]).group == s[j]@.group && h[i].declaration
                == s[j]@.declaration && h[i].inclusive == s[j].until - s[j].at by {
            if i < prev.len() {
                assert(h[i] == prev[i]);
                let j = choose|j: int|
                    0 <= j < n - 1 && (#[trigger] prev[i]).group == s[j]@.group && prev[i].declaration
                        == s[j]@.declaration && prev[i].inclusive == s[j].until - s[j].at;
                assert(0 <= j < n);
            } else {
                assert(h[i].group == s[n - 1]@.group);
            }
        }
    }
}

impl Ledger {
    /// Takes one record into the derivation. A record without a frame is passed over; the count
    /// of records that took part refuses to pass `u64::MAX`; an entering frame opens its span and
    /// a returning frame closes it into the spans of its trace.
    pub fn observe(&mut self, atom: &Atom) -> (r: Result<(), String>)
        ensures
            observes(*old(self), *atom, r, *final(self)),
    {
        proof {
            use_type_invariant(&*self);
        }
        let frame = match self.frame(atom) {
            Some(f) => f,
            None => return Ok(()),
        };
        if self.matched == u64::MAX {
            return Err("matched Atom count overflowed".to_owned());
        }
        let ghost old_open = self.open@;
        let ghost old_traces = self.traces@;
        let mut open = Table::new();
        let mut traces = Table::new();
        std::mem::swap(&mut open, &mut self.open);
        std::mem::swap(&mut traces, &mut self.traces);
        let ghost f = frame@;
        let result = match frame.edge {
            Edge::Enter => entered(&mut open, frame),
            Edge::Return => returned(&mut open, &mut traces, frame),
        };
        proof {
            let old_frames = frames_view(old_open);
            let old_spans = traces_view(old_traces);
            if result is Ok {
                if f.edge == Edge::Enter {
                    assert(frames_view(open@) =~= old_frames.insert(f.span, f));
                    assert(traces_view(traces@) =~= old_spans);
                } else {
                    let e = old_open[f.span];
                    assert(old_frames[f.span] == e@);
                    assert(frames_view(open@) =~= old_frames.remove(f.span));
                    assert(traces_view(traces@).dom() =~= old_spans.dom().insert(e.trace@));
                    let v = traces@[e.trace@]@;
                    assert(v.drop_last() =~= trace_or_empty(old_spans, e.trace@));
                    assert forall|t: Seq<char>| #[trigger] traces@.contains_key(t) implies closed(
                        traces@[t]@,
                    ) by {
                        if t == e.trace@ {
                            assert forall|i: int| 0 <= i < v.len() implies #[trigger] v[i].at
                                <= v[i].until by {
                                if i < v.len() - 1 {
                                    assert(v[i] == v.drop_last()[i]);
                                }
                            }
                        } else {
                            assert(traces@[t] == old_traces[t]);
                        }
                    }
                }
            } else {
                assert(traces@ == old_traces);
            }
        }
        self.open = open;
        self.traces = traces;
        self.matched = self.matched + 1;
        result
    }
}

/// What a surviving span holds.
pub struct HeldView {
    pub declaration: Seq<char>,
    pub group: Option<Seq<char>>,
    pub inclusive: int,
    pub held: int,
}

impl View for Held {
    type V = HeldView;

    open spec fn view(&self) -> HeldView {
        HeldView {
            declaration: self.declaration@,
            group: opt_view(self.group),
            inclusive: self.inclusive as int,
            held: self.held as int,
        }
    }
}

/// What a crossing window holds.
pub struct TangleView {
    pub trace: Seq<char>,
    pub at: u64,
    pub until: u64,
    pub spans: int,
    pub declarations: Set<Seq<char>>,
}

impl View for Tangle {
    type V = TangleView;

    open spec fn view(&self) -> TangleView {
        TangleView {
            trace: self.trace@,
            at: self.at,
            until: self.until,
            spans: self.spans as int,
            declarations: self.declarations@.dom(),
        }
    }
}

/// What an unclosed span holds.
pub struct UnclosedView {
    pub declaration: Seq<char>,
    pub file: Seq<char>,
    pub trace: Seq<char>,
    pub span: Seq<char>,
    pub at: u64,
}

impl View for Unclosed {
    type V = UnclosedView;

    open spec fn view(&self) -> UnclosedView {
        UnclosedView {
            declaration: self.declaration@,
            file: self.file@,
            trace: self.trace@,
            span: self.span@,
            at: self.at,
        }
    }
}

/// The held time of the surviving spans among the first `n` of an arranged trace, in order.
pub open spec fn held_upto(s: Seq<Interval>, m: Seq<Reach>, n: int) -> Seq<HeldView>
    decreases n,
{
    if n <= 0 {
        Seq::empty()
    } else {
        let iv = s[n - 1];
        let inclusive = iv.until - iv.at;
        held_upto(s, m, n - 1) + if struck_at(m, iv) is None {
            seq![
                HeldView {
                    declaration: iv.declaration@,
                    group: opt_view(iv.group),
                    inclusive,
                    held: inclusive - covered_spec(s, n - 1),
                },
            ]
        } else {
            Seq::empty()
        }
    }
}

/// How many of the first `n` spans the window `a` drops.
pub open spec fn refused_count(s: Seq<Interval>, m: Seq<Reach>, a: int, n: int) -> int
    decreases n,
{
    if n <= 0 {
        0
    } else {
        refused_count(s, m, a, n - 1) + if struck_at(m, s[n - 1]) == Some(a) {
            1int
        } else {
            0int
        }
    }
}

/// The declarations of the first `n` spans that the window `a` drops.
pub open spec fn refused_names(s: Seq<Interval>, m: Seq<Reach>, a: int, n: int) -> Set<Seq<char>>
    decreases n,
{
    if n <= 0 {
        Set::empty()
    } else if struck_at(m, s[n - 1]) == Some(a) {
        refused_names(s, m, a, n - 1).insert(s[n - 1].declaration@)
    } else {
        refused_names(s, m, a, n - 1)
    }
}

/// Window `a` of a trace with the spans it drops among the first `n`.
pub open spec fn window_view(trace: Seq<char>, s: Seq<Interval>, m: Seq<Reach>, a: int, n: int) -> TangleView {
    TangleView {
        trace,
        at: m[a].at,
        until: m[a].until,
        spans: refused_count(s, m, a, n),
        declarations: refused_names(s, m, a, n),
    }
}

/// The first `a` windows of a trace that drop at least one span, in order.
pub open spec fn tangles_upto(trace: Seq<char>, s: Seq<Interval>, m: Seq<Reach>, a: int) -> Seq<
    TangleView,
>
    decreases a,
{
    if a <= 0 {
        Seq::empty()
    } else {
        let count = refused_count(s, m, a - 1, s.len() as int);
        tangles_upto(trace, s, m, a - 1) + if count > 0 {
            seq![
                TangleView {
                    trace,
                    at: m[a - 1].at,
                    until: m[a - 1].until,
                    spans: count,
                    declarations: refused_names(s, m, a - 1, s.len() as int),
                },
            ]
        } else {
            Seq::empty()
        }
    }
}

/// The held time that one trace derives.
pub open spec fn trace_held(v: Seq<Interval>) -> Seq<HeldView> {
    let s = arrange(v);
    held_upto(s, windows(s), s.len() as int)
}

/// The crossing windows that one trace derives.
pub open spec fn trace_tangles(trace: Seq<char>, v: Seq<Interval>) -> Seq<TangleView> {
    let s = arrange(v);
    tangles_upto(trace, s, windows(s), windows(s).len() as int)
}

/// The held time of every trace, traces in key order.
pub open spec fn held_over(traces: Seq<(Seq<char>, Seq<Interval>)>) -> Seq<HeldView>
    decreases traces.len(),
{
    if traces.len() == 0 {
        Seq::empty()
    } else {
        held_over(traces.drop_last()) + trace_held(traces.last().1)
    }
}

/// The crossing windows of every trace, traces in key order.
pub open spec fn tangles_over(traces: Seq<(Seq<char>, Seq<Interval>)>) -> Seq<TangleView>
    decreases traces.len(),
{
    if traces.len() == 0 {
        Seq::empty()
    } else {
        tangles_over(traces.drop_last()) + trace_tangles(traces.last().0, traces.last().1)
    }
}

/// The unclosed span that an open frame names.
pub open spec fn unclosed_of(f: FrameView) -> UnclosedView {
    UnclosedView {
        declaration: f.declaration,
        file: f.file,
        trace: f.trace,
        span: f.span,
        at: f.at,
    }
}

/// Derives one trace: held time for each surviving span, and each crossing window that drops a
/// span, appended to what came before.
fn derive_trace(
    trace: &String,
    intervals: &Vec<Interval>,
    held: &mut Vec<Held>,
    tangles: &mut Vec<Tangle>,
)
    requires
        closed(intervals@),
        forall|i: int|
            0 <= i < old(held)@.len() ==> #[trigger] old(held)@[i].held <= old(held)@[i].inclusive
                <= u64::MAX,
        forall|i: int| 0 <= i < old(tangles)@.len() ==> (#[trigger] old(tangles)@[i]).declarations.wf(),
    ensures
        forall|i: int|
            0 <= i < final(held)@.len() ==> #[trigger] final(held)@[i].held <= final(held)@[i].inclusive
                <= u64::MAX,
        forall|i: int| 0 <= i < final(tangles)@.len() ==> (#[trigger] final(tangles)@[i]).declarations.wf(),
        final(held)@.map_values(|h: Held| h@) == old(held)@.map_values(|h: Held| h@) + trace_held(
            intervals@,
        ),
        final(tangles)@.map_values(|t: Tangle| t@) == old(tangles)@.map_values(|t: Tangle| t@)
            + trace_tangles(trace@, intervals@),
{
    let ghost start_held = held@.map_values(|h: Held| h@);
    let ghost start_tangles = tangles@.map_values(|t: Tangle| t@);
    proof {
        lemma_arrange(intervals@);
        lemma_arrange_closed(intervals@);
    }
    let sorted = arrange_intervals(intervals);
    let reaches = tangled(&sorted);
    let ghost s = sorted@;
    let ghost m = reaches@;
    let mut pending: Vec<Tangle> = Vec::new();
    let mut a: usize = 0;
    while a < reaches.len()
        invariant
            m == reaches@,
            a <= m.len(),
            pending@.len() == a,
            forall|b: int|
                0 <= b < a ==> {
                    &&& (#[trigger] pending@[b]).declarations.wf()
                    &&& pending@[b]@ == window_view(trace@, s, m, b, 0)
                },
        decreases m.len() - a,
    {
        let t = Tangle::open(trace.as_str(), &reaches[a]);
        proof {
            assert(t.declarations@.dom() =~= Set::<Seq<char>>::empty());
        }
        pending.push(t);
        a = a + 1;
    }
    let mut k: usize = 0;
    while k < sorted.len()
        invariant
            s == sorted@,
            m == reaches@,
            m == windows(s),
            ordered(s),
            closed(s),
            k <= s.len(),
            pending@.len() == m.len(),
            forall|i: int|
                0 <= i < held@.len() ==> #[trigger] held@[i].held <= held@[i].inclusive <= u64::MAX,
            held@.map_values(|h: Held| h@) == start_held + held_upto(s, m, k as int),
            forall|b: int|
                0 <= b < m.len() ==> {
                    &&& (#[trigger] pending@[b]).declarations.wf()
                    &&& pending@[b].spans <= k
                    &&& pending@[b]@ == window_view(trace@, s, m, b, k as int)
                },
        decreases s.len() - k,
    {
        let ghost before_held = held@;
        let ghost before_pending = pending@;
        match struck(&reaches, &sorted[k]) {
            Some(b) => {
                proof {
                    lemma_struck_at(m, s[k as int]);
                }
                let mut slot = Tangle::open(trace.as_str(), &reaches[b]);
                pending.set_and_swap(b, &mut slot);
                slot.mark(sorted[k].declaration.as_str());
                pending.set_and_swap(b, &mut slot);
                proof {
                    assert forall|c: int| 0 <= c < m.len() implies {
                        &&& (#[trigger] pending@[c]).declarations.wf()
                        &&& pending@[c].spans <= k + 1
                        &&& pending@[c]@ == window_view(trace@, s, m, c, k + 1)
                    } by {
                        if c != b {
                            assert(pending@[c] == before_pending[c]);
                        } else {
                            assert(pending@[c].declarations@.dom() =~= before_pending[c].declarations@.dom().insert(
                                s[k as int].declaration@,
                            ));
                        }
                    }
                    assert(held_upto(s, m, k + 1) =~= held_upto(s, m, k as int));
                }
            },
            None => {
                let inclusive = (sorted[k].until - sorted[k].at) as u128;
                let cover = covered(&sorted, k);
                let group = match &sorted[k].group {
                    Some(g) => Some(g.clone()),
                    None => None,
                };
                let h = Held {
                    declaration: sorted[k].declaration.clone(),
                    group,
                    inclusive,
                    held: inclusive - cover,
                };
                held.push(h);
                proof {
                    assert(held@.map_values(|h: Held| h@) =~= before_held.map_values(|h: Held| h@).push(
                        h@,
                    ));
                    assert forall|c: int| 0 <= c < m.len() implies {
                        &&& (#[trigger] pending@[c]).declarations.wf()
                        &&& pending@[c].spans <= k + 1
                        &&& pending@[c]@ == window_view(trace@, s, m, c, k + 1)
                    } by {}
                }
            },
        }
        k = k + 1;
    }
    let mut a: usize = 0;
    while a < reaches.len()
        invariant
            s == sorted@,
            m == reaches@,
            k == s.len(),
            a <= m.len(),
            pending@.len() == m.len(),
            forall|i: int| 0 <= i < tangles@.len() ==> (#[trigger] tangles@[i]).declarations.wf(),
            forall|b: int| a <= b < m.len() ==> (#[trigger] pending@[b]).declarations.wf(),
            tangles@.map_values(|t: Tangle| t@) == start_tangles + tangles_upto(trace@, s, m, a as int),
            forall|b: int|
                a <= b < m.len() ==> pending@[b]@ == window_view(trace@, s, m, b, k as int),
        decreases m.len() - a,
    {
        let ghost before = tangles@;
        let ghost before_pending = pending@;
        if pending[a].spans > 0 {
            let mut slot = Tangle::open(trace.as_str(), &reaches[a]);
            pending.set_and_swap(a, &mut slot);
            tangles.push(slot);
            proof {
                assert(tangles@.map_values(|t: Tangle| t@) =~= before.map_values(|t: Tangle| t@).push(
                    slot@,
                ));
                assert(slot@ == window_view(trace@, s, m, a as int, k as int));
                assert(tangles_upto(trace@, s, m, a + 1) =~= tangles_upto(trace@, s, m, a as int).push(
                    window_view(trace@, s, m, a as int, k as int),
                ));
                assert forall|b: int| a + 1 <= b < m.len() implies pending@[b]@ == window_view(trace@, s, m, b, k as int) by {
                    assert(pending@[b] == before_pending[b]);
                }
            }
        } else {
            proof {
                assert(before_pending[a as int]@ == window_view(trace@, s, m, a as int, k as int));
                assert(tangles_upto(trace@, s, m, a + 1) =~= tangles_upto(trace@, s, m, a as int));
            }
        }
        a = a + 1;
    }
    proof {
        assert(held@.map_values(|h: Held| h@) == start_held + trace_held(intervals@));
    }
}

impl Ledger {
    /// The closed spans of each trace, traces in key order.
    pub closed spec fn spec_trace_order(&self) -> Seq<(Seq<char>, Seq<Interval>)> {
        self.traces.entries().map_values(|e: (String, Vec<Interval>)| (e.0@, e.1@))
    }

    /// The open frames, in span-key order.
    pub closed spec fn spec_open_order(&self) -> Seq<FrameView> {
        self.open.entries().map_values(|e: (String, Frame)| e.1@)
    }

    /// The span keys of the open frames, in order.
    pub closed spec fn spec_open_keys(&self) -> Seq<Seq<char>> {
        crate::table::keys_of(self.open.entries())
    }

    /// Ends the derivation: held time for every surviving span and the crossing windows of each
    /// trace, traces in key order; the spans still open, in span-key order; and the count of
    /// records that took part.
    pub fn finish(self) -> (r: Derived)
        ensures
            crate::table::in_key_order(
                self.spec_trace_order().map_values(|e: (Seq<char>, Seq<Interval>)| e.0),
                self.spec_traces().dom(),
            ),
            forall|i: int|
                0 <= i < self.spec_trace_order().len() ==> self.spec_traces().contains_key(
                    (#[trigger] self.spec_trace_order()[i]).0,
                ) && self.spec_traces()[self.spec_trace_order()[i].0] == self.spec_trace_order()[i].1,
            crate::table::in_key_order(self.spec_open_keys(), self.spec_open().dom()),
            self.spec_open_keys().len() == self.spec_open_order().len(),
            forall|i: int|
                0 <= i < self.spec_open_keys().len() ==> self.spec_open().contains_key(
                    #[trigger] self.spec_open_keys()[i],
                ) && self.spec_open()[self.spec_open_keys()[i]] == self.spec_open_order()[i],
            forall|i: int|
                0 <= i < self.spec_trace_order().len() ==> closed(#[trigger] self.spec_trace_order()[i].1),
            r.held@.map_values(|h: Held| h@) == held_over(self.spec_trace_order()),
            r.tangles@.map_values(|t: Tangle| t@) == tangles_over(self.spec_trace_order()),
            r.unclosed@.map_values(|u: Unclosed| u@) == self.spec_open_order().map_values(
                |f: FrameView| unclosed_of(f),
            ),
            r.matched == self.spec_matched(),
            forall|i: int|
                0 <= i < r.held@.len() ==> #[trigger] r.held@[i].held <= r.held@[i].inclusive
                    <= u64::MAX,
            forall|i: int| 0 <= i < r.tangles@.len() ==> (#[trigger] r.tangles@[i]).declarations.wf(),
    {
        proof {
            use_type_invariant(&self);
            let te = self.traces.entries();
            crate::table::lemma_ordered(te);
            assert(self.spec_trace_order().map_values(|e: (Seq<char>, Seq<Interval>)| e.0)
                =~= crate::table::keys_of(te));
            assert(self.spec_traces().dom() =~= self.traces@.dom());
            assert forall|i: int| 0 <= i < self.spec_trace_order().len() implies self.spec_traces().contains_key(
                (#[trigger] self.spec_trace_order()[i]).0,
            ) && self.spec_traces()[self.spec_trace_order()[i].0] == self.spec_trace_order()[i].1 by {
                assert(self.spec_trace_order()[i] == (te[i].0@, te[i].1@));
            }
            assert forall|i: int| 0 <= i < self.spec_trace_order().len() implies closed(
                #[trigger] self.spec_trace_order()[i].1,
            ) by {
                assert(self.spec_trace_order()[i] == (te[i].0@, te[i].1@));
                assert(self.traces@.contains_key(te[i].0@));
            }
            let oe = self.open.entries();
            crate::table::lemma_ordered(oe);
            assert(self.spec_open().dom() =~= self.open@.dom());
            assert forall|i: int| 0 <= i < self.spec_open_keys().len() implies self.spec_open().contains_key(
                #[trigger] self.spec_open_keys()[i],
            ) && self.spec_open()[self.spec_open_keys()[i]] == self.spec_open_order()[i] by {
                assert(self.spec_open_keys()[i] == oe[i].0@);
                assert(self.spec_open_order()[i] == oe[i].1@);
            }
        }
        let ghost order = self.spec_trace_order();
        let ghost opened = self.spec_open_order();
        let Ledger { group: _, open, traces, matched } = self;
        let mut held: Vec<Held> = Vec::new();
        let mut tangles: Vec<Tangle> = Vec::new();
        let mut t: usize = 0;
        while t < traces.len()
            invariant
                traces.wf(),
                forall|q: Seq<char>| #[trigger] traces@.contains_key(q) ==> closed(traces@[q]@),
                order == traces.entries().map_values(|e: (String, Vec<Interval>)| (e.0@, e.1@)),
                t <= traces.entries().len(),
                forall|i: int|
                    0 <= i < held@.len() ==> #[trigger] held@[i].held <= held@[i].inclusive
                        <= u64::MAX,
                forall|i: int| 0 <= i < tangles@.len() ==> (#[trigger] tangles@[i]).declarations.wf(),
                held@.map_values(|h: Held| h@) == held_over(order.subrange(0, t as int)),
                tangles@.map_values(|x: Tangle| x@) == tangles_over(order.subrange(0, t as int)),
            decreases traces.entries().len() - t,
        {
            proof {
                lemma_map_at(traces.entries(), t as int);
                assert(traces@.contains_key(traces.entries()[t as int].0@));
                assert(closed(traces.entries()[t as int].1@));
                assert(order.subrange(0, t + 1).drop_last() =~= order.subrange(0, t as int));
            }
            derive_trace(traces.key_at(t), traces.value_at(t), &mut held, &mut tangles);
            t = t + 1;
        }
        proof {
            assert(order.subrange(0, t as int) =~= order);
        }
        let mut unclosed: Vec<Unclosed> = Vec::new();
        let mut i: usize = 0;
        while i < open.len()
            invariant
                open.wf(),
                opened == open.entries().map_values(|e: (String, Frame)| e.1@),
                i <= open.entries().len(),
                unclosed@.map_values(|u: Unclosed| u@) == opened.subrange(0, i as int).map_values(
                    |f: FrameView| unclosed_of(f),
                ),
            decreases open.entries().len() - i,
        {
            let f = open.value_at(i);
            let u = Unclosed::name(f);
            let ghost before = unclosed@;
            unclosed.push(u);
            proof {
                assert(unclosed@ == before.push(u));
                assert(opened[i as int] == f@);
                assert(u@ == unclosed_of(f@));
                assert(opened.subrange(0, i + 1) =~= opened.subrange(0, i as int).push(opened[i as int]));
                assert(unclosed@.map_values(|u: Unclosed| u@) =~= before.map_values(|u: Unclosed| u@).push(
                    u@,
                ));
                assert(opened.subrange(0, i + 1).map_values(|f: FrameView| unclosed_of(f))
                    =~= opened.subrange(0, i as int).map_values(|f: FrameView| unclosed_of(f)).push(
                    unclosed_of(f@),
                ));
            }
            i = i + 1;
        }
        proof {
            assert(opened.subrange(0, i as int) =~= opened);
        }
        Derived { held, unclosed, tangles, matched }
    }
}

} // verus!
