//! The span report: held and inclusive time per declaration, the spans that never returned, the
//! crossing windows, and a summary of coverage.
use crate::derive::reach::{lemma_struck_at, struck_at, windows, Reach};
use crate::derive::{
    arrange, held_over, held_upto, lemma_arrange, refused_count, tangles_over, tangles_upto,
    trace_held, trace_tangles, unclosed_of, Derived, FrameView, Held, HeldView, Interval, Ledger, Tangle,
    TangleView, Unclosed, UnclosedView,
};
use crate::derive::nesting::{covered_over, held_total, law_held_covers_all, nesting};
use crate::derive::closed;
use crate::table::{Table, lemma_map_at};
use vstd::prelude::*;

verus! {

/// Time summed over the surviving spans of one declaration.
#[derive(Debug)]
pub struct Measure {
    pub spans: u64,
    pub inclusive: u128,
    pub held: u128,
}

/// Sums of a declaration's spans.
pub struct MeasureView {
    pub spans: int,
    pub inclusive: int,
    pub held: int,
}

impl View for Measure {
    type V = MeasureView;

    open spec fn view(&self) -> MeasureView {
        MeasureView { spans: self.spans as int, inclusive: self.inclusive as int, held: self.held as int }
    }
}

/// The measure that counts one more span.
pub open spec fn add_span(prev: MeasureView, h: HeldView) -> MeasureView {
    MeasureView {
        spans: prev.spans + 1,
        inclusive: prev.inclusive + h.inclusive,
        held: prev.held + h.held,
    }
}

/// Held time summed per declaration.
pub open spec fn tally(held: Seq<HeldView>) -> Map<Seq<char>, MeasureView>
    decreases held.len(),
{
    if held.len() == 0 {
        Map::empty()
    } else {
        let m = tally(held.drop_last());
        let h = held.last();
        let prev = if m.contains_key(h.declaration) {
            m[h.declaration]
        } else {
            MeasureView { spans: 0, inclusive: 0, held: 0 }
        };
        m.insert(h.declaration, add_span(prev, h))
    }
}

/// The held time of the declarations listed, summed.
pub open spec fn declared_held(order: Seq<(Seq<char>, MeasureView)>) -> int
    decreases order.len(),
{
    if order.len() == 0 {
        0
    } else {
        declared_held(order.drop_last()) + order.last().1.held
    }
}

/// The declarations a table lists, with their measures.
pub open spec fn measures_of(entries: Seq<(String, Measure)>) -> Seq<(Seq<char>, MeasureView)> {
    entries.map_values(|e: (String, Measure)| (e.0@, e.1@))
}

proof fn lemma_declared_update(s: Seq<(Seq<char>, MeasureView)>, i: int, e: (Seq<char>, MeasureView))
    requires
        0 <= i < s.len(),
    ensures
        declared_held(s.update(i, e)) == declared_held(s) - s[i].1.held + e.1.held,
    decreases s.len(),
{
    if i == s.len() - 1 {
        assert(s.update(i, e).drop_last() =~= s.drop_last());
    } else {
        lemma_declared_update(s.drop_last(), i, e);
        assert(s.update(i, e).drop_last() =~= s.drop_last().update(i, e));
    }
}

proof fn lemma_declared_insert(s: Seq<(Seq<char>, MeasureView)>, i: int, e: (Seq<char>, MeasureView))
    requires
        0 <= i <= s.len(),
    ensures
        declared_held(s.insert(i, e)) == declared_held(s) + e.1.held,
    decreases s.len(),
{
    if i == s.len() {
        assert(s.insert(i, e).drop_last() =~= s);
    } else {
        lemma_declared_insert(s.drop_last(), i, e);
        assert(s.insert(i, e).drop_last() =~= s.drop_last().insert(i, e));
    }
}

/// How many of the measures are of declaration `d`.
pub open spec fn spans_of(held: Seq<HeldView>, d: Seq<char>) -> int
    decreases held.len(),
{
    if held.len() == 0 {
        0
    } else {
        spans_of(held.drop_last(), d) + if held.last().declaration == d {
            1int
        } else {
            0int
        }
    }
}

/// The inclusive time of the measures of declaration `d`, summed.
pub open spec fn inclusive_of(held: Seq<HeldView>, d: Seq<char>) -> int
    decreases held.len(),
{
    if held.len() == 0 {
        0
    } else {
        inclusive_of(held.drop_last(), d) + if held.last().declaration == d {
            held.last().inclusive
        } else {
            0
        }
    }
}

/// The held time of the measures of declaration `d`, summed.
pub open spec fn held_of(held: Seq<HeldView>, d: Seq<char>) -> int
    decreases held.len(),
{
    if held.len() == 0 {
        0
    } else {
        held_of(held.drop_last(), d) + if held.last().declaration == d {
            held.last().held
        } else {
            0
        }
    }
}

/// The time per declaration is summed over its spans: a declaration is reported exactly when
/// some span ran it, with the number of its spans, the sum of their inclusive times and the sum
/// of their held times.
pub proof fn law_tally(held: Seq<HeldView>, d: Seq<char>)
    ensures
        tally(held).contains_key(d) <==> spans_of(held, d) > 0,
        tally(held).contains_key(d) ==> tally(held)[d] == (MeasureView {
            spans: spans_of(held, d),
            inclusive: inclusive_of(held, d),
            held: held_of(held, d),
        }),
    decreases held.len(),
{
    if held.len() > 0 {
        let rest = held.drop_last();
        law_tally(rest, d);
        lemma_spans_nonnegative(rest, d);
    }
}

proof fn lemma_spans_nonnegative(held: Seq<HeldView>, d: Seq<char>)
    ensures
        spans_of(held, d) >= 0,
        spans_of(held, d) == 0 ==> inclusive_of(held, d) == 0 && held_of(held, d) == 0,
    decreases held.len(),
{
    if held.len() > 0 {
        lemma_spans_nonnegative(held.drop_last(), d);
    }
}

/// The spans dropped by crossing windows, in total.
pub open spec fn refused_total(tangles: Seq<TangleView>) -> int
    decreases tangles.len(),
{
    if tangles.len() == 0 {
        0
    } else {
        refused_total(tangles.drop_last()) + tangles.last().spans
    }
}

pub proof fn lemma_refused_concat(a: Seq<TangleView>, b: Seq<TangleView>)
    ensures
        refused_total(a + b) == refused_total(a) + refused_total(b),
    decreases b.len(),
{
    if b.len() == 0 {
        assert(a + b =~= a);
    } else {
        assert((a + b).drop_last() =~= a + b.drop_last());
        lemma_refused_concat(a, b.drop_last());
    }
}

/// How many of the first `n` spans some window strikes.
pub open spec fn struck_upto(s: Seq<Interval>, m: Seq<Reach>, n: int) -> int
    decreases n,
{
    if n <= 0 {
        0
    } else {
        struck_upto(s, m, n - 1) + if struck_at(m, s[n - 1]) is Some {
            1int
        } else {
            0int
        }
    }
}

/// How many of the first `n` spans one of the first `a` windows strikes.
pub open spec fn struck_below(s: Seq<Interval>, m: Seq<Reach>, a: int, n: int) -> int
    decreases n,
{
    if n <= 0 {
        0
    } else {
        struck_below(s, m, a, n - 1) + if struck_at(m, s[n - 1]) matches Some(w) && w < a {
            1int
        } else {
            0int
        }
    }
}

/// The spans the first `a` windows drop among the first `n`.
pub open spec fn window_sum(s: Seq<Interval>, m: Seq<Reach>, a: int, n: int) -> int
    decreases a,
{
    if a <= 0 {
        0
    } else {
        window_sum(s, m, a - 1, n) + refused_count(s, m, a - 1, n)
    }
}

proof fn lemma_held_struck(s: Seq<Interval>, m: Seq<Reach>, n: int)
    requires
        0 <= n <= s.len(),
    ensures
        held_upto(s, m, n).len() + struck_upto(s, m, n) == n,
    decreases n,
{
    if n > 0 {
        lemma_held_struck(s, m, n - 1);
    }
}

proof fn lemma_below_step(s: Seq<Interval>, m: Seq<Reach>, a: int, n: int)
    requires
        0 < a,
    ensures
        struck_below(s, m, a, n) == struck_below(s, m, a - 1, n) + refused_count(s, m, a - 1, n),
    decreases n,
{
    if n > 0 {
        lemma_below_step(s, m, a, n - 1);
    }
}

proof fn lemma_window_below(s: Seq<Interval>, m: Seq<Reach>, a: int, n: int)
    requires
        0 <= a,
    ensures
        window_sum(s, m, a, n) == struck_below(s, m, a, n),
    decreases a,
{
    if a > 0 {
        lemma_window_below(s, m, a - 1, n);
        lemma_below_step(s, m, a, n);
    } else {
        lemma_below_none(s, m, n);
    }
}

proof fn lemma_below_none(s: Seq<Interval>, m: Seq<Reach>, n: int)
    ensures
        struck_below(s, m, 0, n) == 0,
    decreases n,
{
    if n > 0 {
        lemma_below_none(s, m, n - 1);
        if struck_at(m, s[n - 1]) matches Some(w) {
            lemma_struck_at(m, s[n - 1]);
        }
    }
}

proof fn lemma_below_all(s: Seq<Interval>, m: Seq<Reach>, n: int)
    ensures
        struck_below(s, m, m.len() as int, n) == struck_upto(s, m, n),
    decreases n,
{
    if n > 0 {
        lemma_below_all(s, m, n - 1);
        lemma_struck_at(m, s[n - 1]);
    }
}

proof fn lemma_tangles_sum(t: Seq<char>, s: Seq<Interval>, m: Seq<Reach>, a: int)
    requires
        0 <= a,
    ensures
        refused_total(tangles_upto(t, s, m, a)) == window_sum(s, m, a, s.len() as int),
    decreases a,
{
    if a > 0 {
        lemma_tangles_sum(t, s, m, a - 1);
        let count = refused_count(s, m, a - 1, s.len() as int);
        let prev = tangles_upto(t, s, m, a - 1);
        if count > 0 {
            let tail = seq![
                TangleView {
                    trace: t,
                    at: m[a - 1].at,
                    until: m[a - 1].until,
                    spans: count,
                    declarations: crate::derive::refused_names(s, m, a - 1, s.len() as int),
                },
            ];
            assert(tangles_upto(t, s, m, a) == prev + tail);
            lemma_refused_concat(prev, tail);
            assert(tail.drop_last() =~= Seq::<TangleView>::empty());
            reveal_with_fuel(refused_total, 2);
            assert(refused_total(tail) == count);
        } else {
            assert(prev + Seq::<TangleView>::empty() =~= prev);
            assert(tangles_upto(t, s, m, a) == prev);
            lemma_refused_nonnegative_count(s, m, a - 1, s.len() as int);
        }
    }
}

proof fn lemma_refused_nonnegative_count(s: Seq<Interval>, m: Seq<Reach>, a: int, n: int)
    ensures
        refused_count(s, m, a, n) >= 0,
    decreases n,
{
    if n > 0 {
        lemma_refused_nonnegative_count(s, m, a, n - 1);
    }
}

/// Every closed span of one trace is counted once: either it survives and holds time, or a
/// crossing window drops it and counts it.
pub proof fn law_trace_accounted(t: Seq<char>, v: Seq<Interval>)
    ensures
        trace_held(v).len() + refused_total(trace_tangles(t, v)) == v.len(),
{
    let s = arrange(v);
    let m = windows(s);
    lemma_arrange(v);
    lemma_held_struck(s, m, s.len() as int);
    lemma_tangles_sum(t, s, m, m.len() as int);
    lemma_window_below(s, m, m.len() as int, s.len() as int);
    lemma_below_all(s, m, s.len() as int);
}

/// The closed spans of a sequence of traces.
pub open spec fn spans_over(traces: Seq<(Seq<char>, Seq<Interval>)>) -> int
    decreases traces.len(),
{
    if traces.len() == 0 {
        0
    } else {
        spans_over(traces.drop_last()) + traces.last().1.len()
    }
}

/// Every closed span of every trace is counted once: the surviving spans that hold time and the
/// spans the crossing windows drop add up to the closed spans, so a total is never read short.
pub proof fn law_accounted(traces: Seq<(Seq<char>, Seq<Interval>)>)
    ensures
        held_over(traces).len() + refused_total(tangles_over(traces)) == spans_over(traces),
    decreases traces.len(),
{
    if traces.len() > 0 {
        let rest = traces.drop_last();
        law_accounted(rest);
        law_trace_accounted(traces.last().0, traces.last().1);
        lemma_refused_concat(tangles_over(rest), trace_tangles(traces.last().0, traces.last().1));
    }
}

/// The spans dropped by a sequence of crossing windows, in total.
pub fn total_refused(tangles: &Vec<Tangle>) -> (r: u128)
    ensures
        r == refused_total(tangles@.map_values(|t: Tangle| t@)),
{
    let ghost tviews = tangles@.map_values(|t: Tangle| t@);
    let mut refused: u128 = 0;
    let mut j: usize = 0;
    while j < tangles.len()
        invariant
            j <= tangles@.len(),
            tviews == tangles@.map_values(|t: Tangle| t@),
            refused == refused_total(tviews.subrange(0, j as int)),
            refused <= j * 0xffff_ffff_ffff_ffffu128,
        decreases tangles@.len() - j,
    {
        proof {
            assert(refused + tangles@[j as int].spans <= (j + 1) * 0xffff_ffff_ffff_ffffu128) by (nonlinear_arith)
                requires
                    refused <= j * 0xffff_ffff_ffff_ffffu128,
                    tangles@[j as int].spans <= 0xffff_ffff_ffff_ffffu128,
            ;
            assert((j + 1) * 0xffff_ffff_ffff_ffffu128 <= 0xffff_ffff_ffff_ffffu128
                * 0xffff_ffff_ffff_ffffu128) by (nonlinear_arith)
                requires
                    j + 1 <= 0xffff_ffff_ffff_ffffu128,
            ;
            let t = tviews.subrange(0, j + 1);
            assert(t.drop_last() =~= tviews.subrange(0, j as int));
        }
        refused = refused + tangles[j].spans as u128;
        j = j + 1;
    }
    proof {
        assert(tviews.subrange(0, tangles@.len() as int) =~= tviews);
    }
    refused
}

/// The summary of a span report.
#[derive(Debug)]
pub struct Summary {
    pub records: u64,
    pub matched: u64,
    pub declarations: usize,
    pub unclosed: usize,
    pub tangled: usize,
    pub refused: u128,
}

/// Time per declaration.
#[derive(Debug)]
pub struct Declaration {
    pub declaration: String,
    pub spans: u64,
    pub inclusive: u128,
    pub held: u128,
}

/// One record of the span report.
#[derive(Debug)]
pub enum Record {
    Declaration(Declaration),
    Unclosed(Unclosed),
    Tangled(Tangle),
    Summary(Summary),
}

/// The items of `v` in reverse order.
pub fn reversed<T>(v: Vec<T>) -> (r: Vec<T>)
    ensures
        r@ == v@.reverse(),
{
    let mut v = v;
    let ghost whole = v@;
    let mut out: Vec<T> = Vec::new();
    while v.len() > 0
        invariant
            v@.len() <= whole.len(),
            v@ == whole.subrange(0, v@.len() as int),
            out@ == whole.subrange(v@.len() as int, whole.len() as int).reverse(),
        decreases v@.len(),
    {
        let x = v.pop().unwrap();
        out.push(x);
        proof {
            assert(x == whole[v@.len() as int]);
            assert(out@ =~= whole.subrange(v@.len() as int, whole.len() as int).reverse());
        }
    }
    proof {
        assert(whole.subrange(0, whole.len() as int) =~= whole);
    }
    out
}

/// `r` reports `name` with measure `m`.
pub open spec fn declares(r: Record, name: Seq<char>, m: MeasureView) -> bool {
    r matches Record::Declaration(d) && d.declaration@ == name && d.spans == m.spans && d.inclusive
        == m.inclusive && d.held == m.held
}

/// `r` reports the unclosed span `v`.
pub open spec fn reports_unclosed(r: Record, v: UnclosedView) -> bool {
    r matches Record::Unclosed(u) && u@ == v
}

/// `r` reports the crossing window `v`.
pub open spec fn reports_tangle(r: Record, v: TangleView) -> bool {
    r matches Record::Tangled(t) && t@ == v
}

/// The span report of a record stream.
pub struct Report {
    declarations: Table<Measure>,
    unclosed: Vec<Unclosed>,
    tangles: Vec<Tangle>,
    records: u64,
    matched: u64,
    refused: u128,
}

impl Report {
    #[verifier::type_invariant]
    spec fn valid(&self) -> bool {
        self.declarations.wf()
    }

    /// Time per declaration.
    pub closed spec fn spec_declarations(&self) -> Map<Seq<char>, MeasureView> {
        Map::new(
            |k: Seq<char>| self.declarations@.contains_key(k),
            |k: Seq<char>| self.declarations@[k]@,
        )
    }

    /// The declarations in key order, with their time.
    pub closed spec fn spec_order(&self) -> Seq<(Seq<char>, MeasureView)> {
        measures_of(self.declarations.entries())
    }

    /// The spans that never returned.
    pub closed spec fn spec_unclosed(&self) -> Seq<UnclosedView> {
        self.unclosed@.map_values(|u: Unclosed| u@)
    }

    /// The crossing windows.
    pub closed spec fn spec_tangles(&self) -> Seq<TangleView> {
        self.tangles@.map_values(|t: Tangle| t@)
    }

    /// How many records the stream held.
    pub closed spec fn spec_records(&self) -> u64 {
        self.records
    }

    /// How many records took part.
    pub closed spec fn spec_matched(&self) -> u64 {
        self.matched
    }

    /// How many spans the crossing windows dropped.
    pub closed spec fn spec_refused(&self) -> int {
        self.refused as int
    }

    /// The report of a derivation over a stream of `records` records: held time summed per
    /// declaration, the unclosed spans, the crossing windows and the count of spans they drop.
    pub fn new(derived: Derived, records: u64) -> (r: Self)
        requires
            forall|i: int|
                0 <= i < derived.held@.len() ==> #[trigger] derived.held@[i].held
                    <= derived.held@[i].inclusive <= u64::MAX,
        ensures
            r.spec_declarations() == tally(derived.held@.map_values(|h: Held| h@)),
            declared_held(r.spec_order()) == held_total(derived.held@.map_values(|h: Held| h@)),
            forall|k: Seq<char>|
                #[trigger] r.spec_declarations().contains_key(k) ==> 0 <= r.spec_declarations()[k].held
                    <= r.spec_declarations()[k].inclusive,
            r.spec_unclosed() == derived.unclosed@.map_values(|u: Unclosed| u@),
            r.spec_tangles() == derived.tangles@.map_values(|t: Tangle| t@),
            r.spec_records() == records,
            r.spec_matched() == derived.matched,
            r.spec_refused() == refused_total(derived.tangles@.map_values(|t: Tangle| t@)),
    {
        let Derived { held, unclosed, tangles, matched } = derived;
        let ghost views = held@.map_values(|h: Held| h@);
        let mut declarations: Table<Measure> = Table::new();
        let mut i: usize = 0;
        while i < held.len()
            invariant
                declarations.wf(),
                i <= held@.len(),
                views == held@.map_values(|h: Held| h@),
                forall|j: int|
                    0 <= j < held@.len() ==> #[trigger] held@[j].held <= held@[j].inclusive
                        <= u64::MAX,
                forall|k: Seq<char>|
                    #![trigger declarations@.contains_key(k)]
                    declarations@.contains_key(k) ==> declarations@[k].spans <= i
                        && declarations@[k].held <= declarations@[k].inclusive
                        && declarations@[k].inclusive <= declarations@[k].spans * 0xffff_ffff_ffff_ffffu128,
                Map::new(
                    |k: Seq<char>| declarations@.contains_key(k),
                    |k: Seq<char>| declarations@[k]@,
                ) == tally(views.subrange(0, i as int)),
                declared_held(measures_of(declarations.entries())) == held_total(views.subrange(0, i as int)),
            decreases held@.len() - i,
        {
            let h = &held[i];
            proof {
                assert(held@[i as int].held <= held@[i as int].inclusive <= u64::MAX);
            }
            let ghost before = declarations@;
            let (spans, inclusive, total) = match declarations.get(h.declaration.as_str()) {
                Some(m) => (m.spans, m.inclusive, m.held),
                None => (0, 0, 0),
            };
            proof {
                assert(spans * 0xffff_ffff_ffff_ffffu128 + h.inclusive <= (spans + 1)
                    * 0xffff_ffff_ffff_ffffu128) by (nonlinear_arith)
                    requires
                        h.inclusive <= 0xffff_ffff_ffff_ffffu128,
                ;
                assert((spans + 1) * 0xffff_ffff_ffff_ffffu128 <= 0xffff_ffff_ffff_ffffu128
                    * 0xffff_ffff_ffff_ffffu128) by (nonlinear_arith)
                    requires
                        spans + 1 <= 0xffff_ffff_ffff_ffffu128,
                ;
            }
            let measure = Measure {
                spans: spans + 1,
                inclusive: inclusive + h.inclusive,
                held: total + h.held,
            };
            let ghost entries_before = declarations.entries();
            let key = h.declaration.clone();
            let ghost entry = (key, measure);
            declarations.put(key, measure);
            proof {
                let after = declarations.entries();
                let at = choose|at: int| crate::table::placed(entries_before, after, entry, at);
                if 0 <= at < entries_before.len() && entries_before[at].0@ == entry.0@ && after
                    == entries_before.update(at, entry) {
                    lemma_map_at(entries_before, at);
                    assert(measures_of(after) =~= measures_of(entries_before).update(
                        at,
                        (entry.0@, entry.1@),
                    ));
                    lemma_declared_update(measures_of(entries_before), at, (entry.0@, entry.1@));
                } else {
                    assert(measures_of(after) =~= measures_of(entries_before).insert(
                        at,
                        (entry.0@, entry.1@),
                    ));
                    lemma_declared_insert(measures_of(entries_before), at, (entry.0@, entry.1@));
                }
                let t = views.subrange(0, i + 1);
                assert(t.drop_last() =~= views.subrange(0, i as int));
                assert(t.last() == held@[i as int]@);
                assert(Map::new(
                    |k: Seq<char>| declarations@.contains_key(k),
                    |k: Seq<char>| declarations@[k]@,
                ) =~= tally(t));
            }
            i = i + 1;
        }
        proof {
            assert(views.subrange(0, held@.len() as int) =~= views);
        }
        let refused = total_refused(&tangles);
        let r = Report { declarations, unclosed, tangles, records, matched, refused };
        proof {
            assert(r.spec_declarations() =~= tally(views));
            assert(r.spec_order() == measures_of(r.declarations.entries()));
        }
        r
    }

    /// The records of the report: one per declaration in key order, one per unclosed span, one
    /// per crossing window, and the summary last.
    pub fn records(self) -> (r: Vec<Record>)
        ensures
            crate::table::in_key_order(
                self.spec_order().map_values(|e: (Seq<char>, MeasureView)| e.0),
                self.spec_declarations().dom(),
            ),
            forall|i: int|
                0 <= i < self.spec_order().len() ==> self.spec_declarations().contains_key(
                    (#[trigger] self.spec_order()[i]).0,
                ) && self.spec_declarations()[self.spec_order()[i].0] == self.spec_order()[i].1,
            r@.len() == self.spec_order().len() + self.spec_unclosed().len() + self.spec_tangles().len()
                + 1,
            forall|i: int|
                0 <= i < self.spec_order().len() ==> declares(#[trigger] r@[i], self.spec_order()[i].0, self.spec_order()[i].1),
            forall|i: int|
                0 <= i < self.spec_unclosed().len() ==> reports_unclosed(#[trigger] r@[self.spec_order().len()
                    + i], self.spec_unclosed()[i]),
            forall|i: int|
                0 <= i < self.spec_tangles().len() ==> reports_tangle(#[trigger] r@[self.spec_order().len()
                    + self.spec_unclosed().len() + i], self.spec_tangles()[i]),
            r@.last() matches Record::Summary(s) && s.records == self.spec_records() && s.matched
                == self.spec_matched() && s.declarations == self.spec_order().len() && s.unclosed
                == self.spec_unclosed().len() && s.tangled == self.spec_tangles().len() && s.refused
                == self.spec_refused(),
    {
        proof {
            use_type_invariant(&self);
            let e = self.declarations.entries();
            crate::table::lemma_ordered(e);
            assert(self.spec_order().map_values(|c: (Seq<char>, MeasureView)| c.0) =~= crate::table::keys_of(e));
            assert(self.spec_declarations().dom() =~= self.declarations@.dom());
            assert forall|i: int| 0 <= i < self.spec_order().len() implies self.spec_declarations().contains_key(
                (#[trigger] self.spec_order()[i]).0,
            ) && self.spec_declarations()[self.spec_order()[i].0] == self.spec_order()[i].1 by {
                assert(self.spec_order()[i] == (e[i].0@, e[i].1@));
            }
        }
        let ghost order = self.spec_order();
        let ghost unclosed_views = self.spec_unclosed();
        let ghost tangle_views = self.spec_tangles();
        let Report { declarations, unclosed, tangles, records, matched, refused } = self;
        let mut out: Vec<Record> = Vec::new();
        let mut i: usize = 0;
        while i < declarations.len()
            invariant
                order == declarations.entries().map_values(|e: (String, Measure)| (e.0@, e.1@)),
                i <= order.len(),
                out@.len() == i,
                forall|q: int|
                    0 <= q < i ==> declares(#[trigger] out@[q], order[q].0, order[q].1),
            decreases order.len() - i,
        {
            let m = declarations.value_at(i);
            out.push(
                Record::Declaration(
                    Declaration {
                        declaration: declarations.key_at(i).clone(),
                        spans: m.spans,
                        inclusive: m.inclusive,
                        held: m.held,
                    },
                ),
            );
            i = i + 1;
        }
        let unclosed_count = unclosed.len();
        let tangled = tangles.len();
        let mut spare = reversed(unclosed);
        let base = out.len();
        while spare.len() > 0
            invariant
                order.len() == base,
                out@.len() == base + (unclosed_views.len() - spare@.len()),
                spare@.len() <= unclosed_views.len(),
                forall|q: int| 0 <= q < spare@.len() ==> #[trigger] spare@[q]@ == unclosed_views[unclosed_views.len() - 1 - q],
                forall|q: int|
                    0 <= q < base ==> declares(#[trigger] out@[q], order[q].0, order[q].1),
                forall|q: int|
                    0 <= q < unclosed_views.len() - spare@.len() ==> reports_unclosed(#[trigger] out@[base + q], unclosed_views[q]),
            decreases spare@.len(),
        {
            let u = spare.pop().unwrap();
            out.push(Record::Unclosed(u));
        }
        let mut spare = reversed(tangles);
        let middle = out.len();
        while spare.len() > 0
            invariant
                order.len() == base,
                middle == base + unclosed_views.len(),
                out@.len() == middle + (tangle_views.len() - spare@.len()),
                spare@.len() <= tangle_views.len(),
                forall|q: int| 0 <= q < spare@.len() ==> #[trigger] spare@[q]@ == tangle_views[tangle_views.len() - 1 - q],
                forall|q: int|
                    0 <= q < base ==> declares(#[trigger] out@[q], order[q].0, order[q].1),
                forall|q: int|
                    0 <= q < unclosed_views.len() ==> reports_unclosed(#[trigger] out@[base + q], unclosed_views[q]),
                forall|q: int|
                    0 <= q < tangle_views.len() - spare@.len() ==> reports_tangle(#[trigger] out@[middle + q], tangle_views[q]),
            decreases spare@.len(),
        {
            let t = spare.pop().unwrap();
            out.push(Record::Tangled(t));
        }
        out.push(
            Record::Summary(
                Summary {
                    records,
                    matched,
                    declarations: declarations.len(),
                    unclosed: unclosed_count,
                    tangled,
                    refused,
                },
            ),
        );
        out
    }
}

/// The span report of a finished derivation over a stream of `records` records. Every declaration
/// holds no more time than it spans; and where no two spans of a trace cross, the held time of
/// all declarations adds up to the time the spans of each trace cover, summed over the traces.
pub fn report(ledger: Ledger, records: u64) -> (r: Report)
    ensures
        r.spec_declarations() == tally(held_over(ledger.spec_trace_order())),
        forall|k: Seq<char>|
            #[trigger] r.spec_declarations().contains_key(k) ==> 0 <= r.spec_declarations()[k].held
                <= r.spec_declarations()[k].inclusive,
        (forall|t: Seq<char>|
            #[trigger] ledger.spec_traces().contains_key(t) ==> nesting(ledger.spec_traces()[t]))
            ==> declared_held(r.spec_order()) == covered_over(ledger.spec_trace_order()),
        r.spec_unclosed() == ledger.spec_open_order().map_values(|f: FrameView| unclosed_of(f)),
        r.spec_tangles() == tangles_over(ledger.spec_trace_order()),
        r.spec_records() == records,
        r.spec_matched() == ledger.spec_matched(),
        r.spec_refused() == refused_total(tangles_over(ledger.spec_trace_order())),
{
    let ghost order = ledger.spec_trace_order();
    let ghost traces = ledger.spec_traces();
    let derived = ledger.finish();
    let r = Report::new(derived, records);
    proof {
        if forall|t: Seq<char>| #[trigger] traces.contains_key(t) ==> nesting(traces[t]) {
            assert forall|i: int| 0 <= i < order.len() implies closed(#[trigger] order[i].1) && nesting(
                order[i].1,
            ) by {
                assert(traces.contains_key(order[i].0));
            }
            law_held_covers_all(order);
        }
    }
    r
}

} // verus!
