//! Inspection: analyzers declared by a product, each a mapping of the record stream into
//! measures per group and a threshold above which a measure is a finding.
pub mod model;
pub mod mapping;
pub mod config;

use crate::atom::Atom;
use crate::inspect::config::{ids_of, Analyzer, Config};
use crate::inspect::mapping::{
    dropped, fits, fresh, keys_of_observations, listed, steps, Observation, State,
    StateView, dominant,
};
use crate::table::in_key_order;
use crate::inspect::model::{exceeds, Finding, Measurement, Record, Summary};
use crate::text::{before, bytes_of, lemma_precedes_asymmetric, lemma_precedes_irreflexive, lemma_precedes_transitive, same, text_precedes};
use vstd::prelude::*;

verus! {

/// The groups whose measure lies above `above`.
pub open spec fn flagged(v: StateView, above: u64) -> Set<Seq<char>> {
    listed(v).filter(|k: Seq<char>| exists|m: Measurement| #[trigger] fits(v, k, m) && exceeds(above, m))
}

/// A group's counts have one dominant prefix.
pub proof fn lemma_dominant_unique(m: Map<Seq<u8>, u64>, c1: u64, l1: int, c2: u64, l2: int)
    requires
        dominant(m, c1, l1),
        dominant(m, c2, l2),
    ensures
        c1 == c2 && l1 == l2,
{
    let p1 = choose|p: Seq<u8>| #[trigger] m.contains_key(p) && m[p] == c1 && p.len() == l1;
    let p2 = choose|p: Seq<u8>| #[trigger] m.contains_key(p) && m[p] == c2 && p.len() == l2;
    assert(m.contains_key(p1) && m.contains_key(p2));
}

/// A mapping reports at most one measure per group.
pub proof fn lemma_fits_unique(v: StateView, k: Seq<char>, a: Measurement, b: Measurement)
    requires
        fits(v, k, a),
        fits(v, k, b),
    ensures
        a == b,
{
    match v {
        StateView::Prefix(map) => {
            let pv = map[k];
            match (a, b) {
                (
                    Measurement::Prefix { value: va, atoms: aa, repeated: ra, bytes: ba },
                    Measurement::Prefix { value: vb, atoms: ab, repeated: rb, bytes: bb },
                ) => {
                    lemma_dominant_unique(pv.counts, ra, ba as int, rb, bb as int);
                },
                _ => {},
            }
        },
        _ => {},
    }
}

/// One analyzer while the records stream in.
pub struct Runtime {
    analyzer: Analyzer,
    state: State,
}

impl Runtime {
    /// The analyzer.
    pub closed spec fn spec_analyzer(&self) -> Analyzer {
        self.analyzer
    }

    /// What its mapping has gathered.
    pub closed spec fn spec_state(&self) -> StateView {
        self.state.spec_view()
    }

    /// The role that groups its measures.
    pub closed spec fn spec_role(&self) -> Seq<char> {
        self.state.spec_role()
    }

    /// An analyzer that has seen no record.
    pub fn new(analyzer: Analyzer) -> (r: Self)
        ensures
            r.spec_analyzer() == analyzer,
            r.spec_role() == analyzer.mapping.group()@,
            fresh(analyzer.mapping, r.spec_state()),
    {
        let state = State::new(&analyzer.mapping);
        Runtime { analyzer, state }
    }

    /// Takes one record of `encoded` bytes into the analyzer's mapping.
    pub fn observe(&mut self, atom: &Atom, encoded: u64) -> (r: Result<(), String>)
        ensures
            final(self).spec_analyzer() == old(self).spec_analyzer(),
            final(self).spec_role() == old(self).spec_role(),
            steps(old(self).spec_state(), old(self).spec_role(), *atom, encoded, r, final(self).spec_state()),
    {
        self.state.observe(atom, encoded)
    }

    /// The findings of the analyzer, groups in key order, and the spans its mapping dropped.
    pub fn findings(self) -> (r: (Vec<Finding>, u128))
        ensures
            forall|i: int|
                0 <= i < r.0@.len() ==> {
                    let f = #[trigger] r.0@[i];
                    &&& f.analyzer@ == self.spec_analyzer().id@
                    &&& f.threshold == self.spec_analyzer().threshold
                    &&& f.group.role@ == self.spec_role()
                    &&& fits(self.spec_state(), f.group.key@, f.measurement)
                    &&& exceeds(self.spec_analyzer().threshold.above, f.measurement)
                },
            in_key_order(
                r.0@.map_values(|f: Finding| f.group.key@),
                flagged(self.spec_state(), self.spec_analyzer().threshold.above),
            ),
            r.1 == dropped(self.spec_state()),
    {
        let ghost view = self.spec_state();
        let ghost role = self.spec_role();
        let ghost above = self.analyzer.threshold.above;
        let Runtime { analyzer, state } = self;
        let reading = state.finish();
        let refused = reading.refused;
        let mut observations = reading.observations;
        let ghost obs = observations@;
        let ghost keys = keys_of_observations(obs);
        let mut spare = crate::span::reversed(observations);
        let ghost mut picked: Seq<int> = Seq::empty();
        let mut out: Vec<Finding> = Vec::new();
        while spare.len() > 0
            invariant
                analyzer.threshold.above == above,
                spare@.len() <= obs.len(),
                forall|q: int| 0 <= q < spare@.len() ==> #[trigger] spare@[q] == obs[obs.len() - 1 - q],
                forall|i: int|
                    0 <= i < obs.len() ==> (#[trigger] obs[i]).group.role@ == role && fits(
                        view,
                        obs[i].group.key@,
                        obs[i].measurement,
                    ),
                in_key_order(keys, listed(view)),
                keys == keys_of_observations(obs),
                out@.len() == picked.len(),
                forall|j: int| 0 <= j < picked.len() ==> 0 <= #[trigger] picked[j] < obs.len() - spare@.len(),
                forall|a: int, b: int| 0 <= a < b < picked.len() ==> #[trigger] picked[a] < #[trigger] picked[b],
                forall|j: int|
                    0 <= j < out@.len() ==> {
                        let f = #[trigger] out@[j];
                        &&& f.analyzer@ == analyzer.id@
                        &&& f.threshold == analyzer.threshold
                        &&& f.group == obs[picked[j]].group
                        &&& f.measurement == obs[picked[j]].measurement
                        &&& exceeds(above, f.measurement)
                    },
                forall|t: int|
                    0 <= t < obs.len() - spare@.len() && exceeds(above, #[trigger] obs[t].measurement)
                        ==> exists|j: int| 0 <= j < picked.len() && picked[j] == t,
            decreases spare@.len(),
        {
            let ghost t = obs.len() - spare@.len();
            let observation = spare.pop().unwrap();
            let ghost earlier = picked;
            assert(observation == obs[t]);
            if analyzer.threshold.exceeded(&observation.measurement) {
                out.push(Finding::new(&analyzer, observation));
                proof {
                    picked = picked.push(t);
                    assert(picked[picked.len() - 1] == t);
                }
            }
            proof {
                assert forall|u: int| 0 <= u < t + 1 && exceeds(above, #[trigger] obs[u].measurement) implies exists|j: int|
                    0 <= j < picked.len() && picked[j] == u by {
                    if u == t {
                        assert(picked[picked.len() - 1] == u);
                    } else {
                        let j = choose|j: int| 0 <= j < earlier.len() && earlier[j] == u;
                        assert(picked[j] == u);
                    }
                }
            }
        }
        proof {
            let fk = out@.map_values(|f: Finding| f.group.key@);
            let target = flagged(view, above);
            assert forall|a: int, b: int| 0 <= a < b < fk.len() implies crate::text::text_precedes(
                #[trigger] fk[a],
                #[trigger] fk[b],
            ) by {
                assert(picked[a] < picked[b]);
                assert(keys[picked[a]] == fk[a] && keys[picked[b]] == fk[b]);
            }
            assert forall|j: int| 0 <= j < fk.len() implies target.contains(#[trigger] fk[j]) by {
                let i = picked[j];
                assert(keys[i] == fk[j]);
                assert(listed(view).contains(keys[i]));
                assert(fits(view, fk[j], out@[j].measurement));
            }
            assert forall|k: Seq<char>| #[trigger] target.contains(k) implies exists|j: int|
                0 <= j < fk.len() && fk[j] == k by {
                let m = choose|m: Measurement| #[trigger] fits(view, k, m) && exceeds(above, m);
                let i = choose|i: int| 0 <= i < keys.len() && keys[i] == k;
                lemma_fits_unique(view, k, m, obs[i].measurement);
                let j = choose|j: int| 0 <= j < picked.len() && picked[j] == i;
                assert(fk[j] == k);
            }
        }
        (out, refused)
    }
}

/// Findings sort by analyzer, then role, then key, each by its UTF-8 bytes.
pub open spec fn identity_precedes(a: Finding, b: Finding) -> bool {
    ||| text_precedes(a.analyzer@, b.analyzer@)
    ||| (a.analyzer@ == b.analyzer@ && text_precedes(a.group.role@, b.group.role@))
    ||| (a.analyzer@ == b.analyzer@ && a.group.role@ == b.group.role@ && text_precedes(
        a.group.key@,
        b.group.key@,
    ))
}

/// No finding sorts before one that stands ahead of it.
pub open spec fn identity_sorted(s: Seq<Finding>) -> bool {
    forall|i: int, j: int| 0 <= i < j < s.len() ==> !identity_precedes(#[trigger] s[j], #[trigger] s[i])
}

pub proof fn lemma_identity_asymmetric(a: Finding, b: Finding)
    ensures
        identity_precedes(a, b) ==> !identity_precedes(b, a),
{
    lemma_precedes_asymmetric(bytes_of(a.analyzer@), bytes_of(b.analyzer@));
    lemma_precedes_asymmetric(bytes_of(a.group.role@), bytes_of(b.group.role@));
    lemma_precedes_asymmetric(bytes_of(a.group.key@), bytes_of(b.group.key@));
    lemma_precedes_irreflexive(bytes_of(a.analyzer@));
    lemma_precedes_irreflexive(bytes_of(a.group.role@));
    lemma_precedes_irreflexive(bytes_of(b.analyzer@));
    lemma_precedes_irreflexive(bytes_of(b.group.role@));
}

pub proof fn lemma_identity_transitive(a: Finding, b: Finding, c: Finding)
    requires
        identity_precedes(a, b),
        identity_precedes(b, c),
    ensures
        identity_precedes(a, c),
{
    let (x, y, z) = (bytes_of(a.analyzer@), bytes_of(b.analyzer@), bytes_of(c.analyzer@));
    if text_precedes(a.analyzer@, b.analyzer@) && text_precedes(b.analyzer@, c.analyzer@) {
        lemma_precedes_transitive(x, y, z);
    }
    if a.analyzer@ == b.analyzer@ && b.analyzer@ == c.analyzer@ {
        let (p, q, r) = (bytes_of(a.group.role@), bytes_of(b.group.role@), bytes_of(c.group.role@));
        if text_precedes(a.group.role@, b.group.role@) && text_precedes(b.group.role@, c.group.role@) {
            lemma_precedes_transitive(p, q, r);
        }
        if a.group.role@ == b.group.role@ && b.group.role@ == c.group.role@ && text_precedes(
            a.group.key@,
            b.group.key@,
        ) && text_precedes(b.group.key@, c.group.key@) {
            lemma_precedes_transitive(
                bytes_of(a.group.key@),
                bytes_of(b.group.key@),
                bytes_of(c.group.key@),
            );
        }
    }
}

/// Whether finding `a` sorts before `b`.
fn identity_before(a: &Finding, b: &Finding) -> (r: bool)
    ensures
        r == identity_precedes(*a, *b),
{
    let (aa, ar, ak) = a.identity();
    let (ba, br, bk) = b.identity();
    if before(aa, ba) {
        return true;
    }
    if !same(aa, ba) {
        return false;
    }
    if before(ar, br) {
        return true;
    }
    if !same(ar, br) {
        return false;
    }
    before(ak, bk)
}

/// The findings sorted by identity, each finding kept.
pub fn sort_findings(findings: Vec<Finding>) -> (r: Vec<Finding>)
    ensures
        r@.len() == findings@.len(),
        identity_sorted(r@),
        forall|i: int| 0 <= i < findings@.len() ==> r@.contains(#[trigger] findings@[i]),
        forall|i: int| 0 <= i < r@.len() ==> findings@.contains(#[trigger] r@[i]),
{
    let ghost input = findings@;
    let mut spare = crate::span::reversed(findings);
    let mut out: Vec<Finding> = Vec::new();
    while spare.len() > 0
        invariant
            spare@.len() <= input.len(),
            forall|q: int| 0 <= q < spare@.len() ==> #[trigger] spare@[q] == input[input.len() - 1 - q],
            out@.len() == input.len() - spare@.len(),
            identity_sorted(out@),
            forall|i: int| 0 <= i < input.len() - spare@.len() ==> out@.contains(#[trigger] input[i]),
            forall|i: int| 0 <= i < out@.len() ==> input.contains(#[trigger] out@[i]),
        decreases spare@.len(),
    {
        let ghost t = input.len() - spare@.len();
        let x = spare.pop().unwrap();
        assert(x == input[t]);
        let mut p: usize = 0;
        let mut found = false;
        while p < out.len() && !found
            invariant
                p <= out@.len(),
                found ==> p < out@.len() && identity_precedes(x, out@[p as int]),
                forall|q: int| 0 <= q < p ==> !identity_precedes(x, #[trigger] out@[q]),
            decreases out@.len() - p, if found { 0int } else { 1int },
        {
            if identity_before(&x, &out[p]) {
                found = true;
            } else {
                p = p + 1;
            }
        }
        let ghost old_out = out@;
        out.insert(p, x);
        proof {
            let o = out@;
            assert(o == old_out.insert(p as int, x));
            assert forall|i: int, j: int| 0 <= i < j < o.len() implies !identity_precedes(
                #[trigger] o[j],
                #[trigger] o[i],
            ) by {
                if j < p {
                    assert(o[i] == old_out[i] && o[j] == old_out[j]);
                } else if j == p {
                    assert(o[i] == old_out[i]);
                } else if i == p {
                    assert(o[j] == old_out[j - 1]);
                    if identity_precedes(o[j], x) {
                        let y = old_out[p as int];
                        assert(found);
                        if j - 1 == p {
                            lemma_identity_asymmetric(x, y);
                        } else {
                            assert(!identity_precedes(old_out[j - 1], old_out[p as int]));
                            lemma_identity_transitive(old_out[j - 1], x, y);
                        }
                    }
                } else if i < p {
                    assert(o[i] == old_out[i] && o[j] == old_out[j - 1]);
                } else {
                    assert(o[i] == old_out[i - 1] && o[j] == old_out[j - 1]);
                }
            }
            assert forall|i: int| 0 <= i < t + 1 implies o.contains(#[trigger] input[i]) by {
                if i == t {
                    assert(o[p as int] == input[i]);
                } else {
                    let k = choose|k: int| 0 <= k < old_out.len() && old_out[k] == input[i];
                    if k < p {
                        assert(o[k] == input[i]);
                    } else {
                        assert(o[k + 1] == input[i]);
                    }
                }
            }
            assert forall|i: int| 0 <= i < o.len() implies input.contains(#[trigger] o[i]) by {
                if i < p {
                    assert(o[i] == old_out[i]);
                } else if i == p {
                    assert(input[t] == o[i]);
                } else {
                    assert(o[i] == old_out[i - 1]);
                }
            }
        }
    }
    out
}

/// Whether `f` is a finding of runtime `rt`: its analyzer, threshold and role, a measure its
/// mapping reports for the group, above the threshold.
pub open spec fn found_by(rt: Runtime, f: Finding) -> bool {
    &&& f.analyzer@ == rt.spec_analyzer().id@
    &&& f.threshold == rt.spec_analyzer().threshold
    &&& f.group.role@ == rt.spec_role()
    &&& fits(rt.spec_state(), f.group.key@, f.measurement)
    &&& exceeds(rt.spec_analyzer().threshold.above, f.measurement)
}

/// The spans the mappings of the runtimes dropped, in total.
pub open spec fn refused_sum(rs: Seq<Runtime>) -> int
    decreases rs.len(),
{
    if rs.len() == 0 {
        0
    } else {
        refused_sum(rs.drop_last()) + dropped(rs.last().spec_state())
    }
}

/// The analyzers of the runtimes, in order.
pub open spec fn analyzers_of(rs: Seq<Runtime>) -> Seq<Analyzer> {
    rs.map_values(|rt: Runtime| rt.spec_analyzer())
}

/// An inspection while the records stream in: one runtime per declared analyzer.
pub struct Inspection {
    runtimes: Vec<Runtime>,
}

impl Inspection {
    /// The runtimes, in declaration order.
    pub closed spec fn spec_runtimes(&self) -> Seq<Runtime> {
        self.runtimes@
    }

    /// An inspection of the declared analyzers that has seen no record.
    pub fn new(config: Config) -> (r: Self)
        ensures
            analyzers_of(r.spec_runtimes()) == config.spec_analyzers(),
            forall|i: int|
                0 <= i < r.spec_runtimes().len() ==> {
                    let rt = #[trigger] r.spec_runtimes()[i];
                    &&& rt.spec_role() == rt.spec_analyzer().mapping.group()@
                    &&& fresh(rt.spec_analyzer().mapping, rt.spec_state())
                },
    {
        let ghost declared = config.spec_analyzers();
        let analyzers = config.into_analyzers();
        let mut spare = crate::span::reversed(analyzers);
        let mut runtimes: Vec<Runtime> = Vec::new();
        while spare.len() > 0
            invariant
                spare@.len() <= declared.len(),
                forall|q: int| 0 <= q < spare@.len() ==> #[trigger] spare@[q] == declared[declared.len() - 1 - q],
                analyzers_of(runtimes@) == declared.subrange(0, declared.len() - spare@.len()),
                forall|i: int|
                    0 <= i < runtimes@.len() ==> {
                        let rt = #[trigger] runtimes@[i];
                        &&& rt.spec_role() == rt.spec_analyzer().mapping.group()@
                        &&& fresh(rt.spec_analyzer().mapping, rt.spec_state())
                    },
            decreases spare@.len(),
        {
            let ghost t = declared.len() - spare@.len();
            let analyzer = spare.pop().unwrap();
            assert(analyzer == declared[t]);
            let ghost before = runtimes@;
            let rt = Runtime::new(analyzer);
            runtimes.push(rt);
            assert(runtimes@ == before.push(rt));
            assert(analyzers_of(runtimes@) =~= analyzers_of(before).push(declared[t]));
            assert(analyzers_of(runtimes@) =~= declared.subrange(0, t + 1));
        }
        assert(declared.subrange(0, declared.len() as int) =~= declared);
        Inspection { runtimes }
    }

    /// Takes one record of `encoded` bytes into every analyzer, in declaration order; the first
    /// analyzer that refuses it refuses the record, and the analyzers after it do not see it.
    pub fn observe(&mut self, atom: &Atom, encoded: u64) -> (r: Result<(), String>)
        ensures
            final(self).spec_runtimes().len() == old(self).spec_runtimes().len(),
            forall|i: int|
                0 <= i < old(self).spec_runtimes().len() ==> (#[trigger] final(self).spec_runtimes()[i]).spec_analyzer()
                    == old(self).spec_runtimes()[i].spec_analyzer()
                    && final(self).spec_runtimes()[i].spec_role() == old(self).spec_runtimes()[i].spec_role(),
            r is Ok ==> forall|i: int|
                0 <= i < old(self).spec_runtimes().len() ==> steps(
                    (#[trigger] old(self).spec_runtimes()[i]).spec_state(),
                    old(self).spec_runtimes()[i].spec_role(),
                    *atom,
                    encoded,
                    Ok(()),
                    final(self).spec_runtimes()[i].spec_state(),
                ),
            r matches Err(e) ==> exists|j: int|
                0 <= j < old(self).spec_runtimes().len() && (forall|i: int|
                    0 <= i < j ==> steps(
                        (#[trigger] old(self).spec_runtimes()[i]).spec_state(),
                        old(self).spec_runtimes()[i].spec_role(),
                        *atom,
                        encoded,
                        Ok(()),
                        final(self).spec_runtimes()[i].spec_state(),
                    )) && steps(
                    old(self).spec_runtimes()[j].spec_state(),
                    old(self).spec_runtimes()[j].spec_role(),
                    *atom,
                    encoded,
                    Err(e),
                    final(self).spec_runtimes()[j].spec_state(),
                ),
    {
        let ghost start = self.runtimes@;
        let mut taken: Vec<Runtime> = Vec::new();
        std::mem::swap(&mut taken, &mut self.runtimes);
        let mut spare = crate::span::reversed(taken);
        let mut done: Vec<Runtime> = Vec::new();
        let mut result: Result<(), String> = Ok(());
        let ghost mut failed: int = 0;
        while spare.len() > 0
            invariant
                spare@.len() <= start.len(),
                forall|q: int| 0 <= q < spare@.len() ==> #[trigger] spare@[q] == start[start.len() - 1 - q],
                done@.len() == start.len() - spare@.len(),
                forall|i: int|
                    0 <= i < done@.len() ==> (#[trigger] done@[i]).spec_analyzer() == start[i].spec_analyzer()
                        && done@[i].spec_role() == start[i].spec_role(),
                result is Ok ==> forall|i: int|
                    0 <= i < done@.len() ==> steps(
                        (#[trigger] start[i]).spec_state(),
                        start[i].spec_role(),
                        *atom,
                        encoded,
                        Ok(()),
                        done@[i].spec_state(),
                    ),
                result matches Err(e) ==> 0 <= failed < done@.len() && (forall|i: int|
                    0 <= i < failed ==> steps(
                        (#[trigger] start[i]).spec_state(),
                        start[i].spec_role(),
                        *atom,
                        encoded,
                        Ok(()),
                        done@[i].spec_state(),
                    )) && steps(
                    start[failed].spec_state(),
                    start[failed].spec_role(),
                    *atom,
                    encoded,
                    Err(e),
                    done@[failed].spec_state(),
                ),
            decreases spare@.len(),
        {
            let ghost t = start.len() - spare@.len();
            let mut rt = spare.pop().unwrap();
            assert(rt == start[t]);
            if result.is_ok() {
                let outcome = rt.observe(atom, encoded);
                proof {
                    if outcome is Err {
                        failed = t;
                    }
                }
                result = outcome;
            }
            done.push(rt);
        }
        self.runtimes = done;
        result
    }

    /// Ends the inspection over a stream of `records` records: the findings of every analyzer
    /// sorted by identity, and the summary.
    pub fn finish(self, records: u64) -> (r: Report)
        ensures
            identity_sorted(r.spec_findings()),
            forall|i: int|
                0 <= i < r.spec_findings().len() ==> exists|j: int|
                    0 <= j < self.spec_runtimes().len() && found_by(
                        self.spec_runtimes()[j],
                        #[trigger] r.spec_findings()[i],
                    ),
            forall|j: int, k: Seq<char>|
                0 <= j < self.spec_runtimes().len() && #[trigger] flagged(
                    self.spec_runtimes()[j].spec_state(),
                    self.spec_runtimes()[j].spec_analyzer().threshold.above,
                ).contains(k) ==> exists|i: int|
                    0 <= i < r.spec_findings().len() && r.spec_findings()[i].group.key@ == k && found_by(
                        self.spec_runtimes()[j],
                        r.spec_findings()[i],
                    ),
            r.spec_summary().coverage@.map_values(|s: String| s@) == ids_of(
                analyzers_of(self.spec_runtimes()),
            ),
            r.spec_summary().records == records,
            r.spec_summary().findings == r.spec_findings().len(),
            r.spec_summary().refused == if refused_sum(self.spec_runtimes()) > u128::MAX {
                u128::MAX as int
            } else {
                refused_sum(self.spec_runtimes())
            },
    {
        let ghost rs = self.runtimes@;
        let Inspection { runtimes } = self;
        let mut spare = crate::span::reversed(runtimes);
        let mut coverage: Vec<String> = Vec::new();
        let mut all: Vec<Finding> = Vec::new();
        let mut refused: u128 = 0;
        while spare.len() > 0
            invariant
                spare@.len() <= rs.len(),
                forall|q: int| 0 <= q < spare@.len() ==> #[trigger] spare@[q] == rs[rs.len() - 1 - q],
                coverage@.map_values(|s: String| s@) == ids_of(
                    analyzers_of(rs.subrange(0, rs.len() - spare@.len())),
                ),
                refused == if refused_sum(rs.subrange(0, rs.len() - spare@.len())) > u128::MAX {
                    u128::MAX as int
                } else {
                    refused_sum(rs.subrange(0, rs.len() - spare@.len()))
                },
                forall|i: int|
                    0 <= i < all@.len() ==> exists|j: int|
                        0 <= j < rs.len() - spare@.len() && found_by(rs[j], #[trigger] all@[i]),
                forall|j: int, k: Seq<char>|
                    0 <= j < rs.len() - spare@.len() && #[trigger] flagged(
                        rs[j].spec_state(),
                        rs[j].spec_analyzer().threshold.above,
                    ).contains(k) ==> exists|i: int|
                        0 <= i < all@.len() && all@[i].group.key@ == k && found_by(rs[j], all@[i]),
            decreases spare@.len(),
        {
            let ghost t = rs.len() - spare@.len();
            let rt = spare.pop().unwrap();
            assert(rt == rs[t]);
            let ghost before_cov = coverage@;
            let id = rt.analyzer.id.clone();
            coverage.push(id);
            let ghost before_all = all@;
            let (found, dropped_spans) = rt.findings();
            proof {
                let sub = rs.subrange(0, t + 1);
                assert(sub.drop_last() =~= rs.subrange(0, t));
                assert(analyzers_of(sub) =~= analyzers_of(rs.subrange(0, t)).push(rs[t].spec_analyzer()));
                assert(coverage@.map_values(|s: String| s@) =~= before_cov.map_values(|s: String| s@).push(
                    rs[t].spec_analyzer().id@,
                ));
                assert(ids_of(analyzers_of(sub)) =~= ids_of(analyzers_of(rs.subrange(0, t))).push(
                    rs[t].spec_analyzer().id@,
                ));
            }
            refused = refused.saturating_add(dropped_spans);
            let ghost fseq = found@;
            let mut rest = crate::span::reversed(found);
            while rest.len() > 0
                invariant
                    rest@.len() <= fseq.len(),
                    forall|q: int| 0 <= q < rest@.len() ==> #[trigger] rest@[q] == fseq[fseq.len() - 1 - q],
                    all@.len() == before_all.len() + (fseq.len() - rest@.len()),
                    forall|i: int| 0 <= i < before_all.len() ==> all@[i] == before_all[i],
                    forall|i: int| 0 <= i < fseq.len() - rest@.len() ==> all@[before_all.len() + i] == fseq[i],
                decreases rest@.len(),
            {
                let ghost u = fseq.len() - rest@.len();
                let f = rest.pop().unwrap();
                assert(f == fseq[u]);
                all.push(f);
            }
            proof {
                assert forall|i: int| 0 <= i < all@.len() implies exists|j: int|
                    0 <= j < t + 1 && found_by(rs[j], #[trigger] all@[i]) by {
                    if i >= before_all.len() {
                        assert(all@[i] == fseq[i - before_all.len()]);
                        assert(found_by(rs[t], all@[i]));
                    } else {
                        assert(all@[i] == before_all[i]);
                    }
                }
                assert forall|j: int, key: Seq<char>|
                    0 <= j < t + 1 && #[trigger] flagged(
                        rs[j].spec_state(),
                        rs[j].spec_analyzer().threshold.above,
                    ).contains(key) implies exists|i: int|
                        0 <= i < all@.len() && all@[i].group.key@ == key && found_by(rs[j], all@[i]) by {
                    if j == t {
                        let fk = fseq.map_values(|f: Finding| f.group.key@);
                        let q = choose|q: int| 0 <= q < fk.len() && fk[q] == key;
                        assert(all@[before_all.len() + q] == fseq[q]);
                    } else {
                        let i = choose|i: int|
                            0 <= i < before_all.len() && before_all[i].group.key@ == key && found_by(rs[j], before_all[i]);
                        assert(all@[i] == before_all[i]);
                    }
                }
            }
        }
        assert(rs.subrange(0, rs.len() as int) =~= rs);
        let ghost collected = all@;
        let findings = sort_findings(all);
        let n = findings.len();
        let summary = Summary::new(coverage, records, n, refused);
        let r = Report { findings, summary };
        proof {
            assert forall|i: int| 0 <= i < r.spec_findings().len() implies exists|j: int|
                0 <= j < rs.len() && found_by(rs[j], #[trigger] r.spec_findings()[i]) by {
                let q = choose|q: int| 0 <= q < collected.len() && collected[q] == r.spec_findings()[i];
            }
            assert forall|j: int, k: Seq<char>|
                0 <= j < rs.len() && #[trigger] flagged(
                    rs[j].spec_state(),
                    rs[j].spec_analyzer().threshold.above,
                ).contains(k) implies exists|i: int|
                    0 <= i < r.spec_findings().len() && r.spec_findings()[i].group.key@ == k && found_by(
                        rs[j],
                        r.spec_findings()[i],
                    ) by {
                let q = choose|q: int| 0 <= q < collected.len() && collected[q].group.key@ == k && found_by(rs[j], collected[q]);
                assert(r.spec_findings().contains(collected[q]));
                let i = choose|i: int| 0 <= i < r.spec_findings().len() && r.spec_findings()[i] == collected[q];
            }
        }
        r
    }
}

/// A finished inspection: the findings sorted by identity, and the summary.
pub struct Report {
    findings: Vec<Finding>,
    summary: Summary,
}

impl Report {
    #[verifier::type_invariant]
    spec fn valid(&self) -> bool {
        self.summary.findings == self.findings@.len()
    }

    /// The findings, sorted by identity.
    pub closed spec fn spec_findings(&self) -> Seq<Finding> {
        self.findings@
    }

    /// The summary.
    pub closed spec fn spec_summary(&self) -> Summary {
        self.summary
    }

    /// Whether no analyzer found anything: no finding is reported and the summary counts none.
    pub fn clean(&self) -> (r: bool)
        ensures
            r == (self.spec_findings().len() == 0),
            r == (self.spec_summary().findings == 0),
    {
        proof {
            use_type_invariant(self);
        }
        self.findings.len() == 0
    }

    /// The output records: each finding in order, then the summary.
    pub fn records(self) -> (r: Vec<Record>)
        ensures
            r@.len() == self.spec_findings().len() + 1,
            forall|i: int|
                0 <= i < self.spec_findings().len() ==> #[trigger] r@[i] == Record::Finding(
                    self.spec_findings()[i],
                ),
            r@.last() == Record::Summary(self.spec_summary()),
            self.spec_summary().findings == self.spec_findings().len(),
    {
        proof {
            use_type_invariant(&self);
        }
        let ghost fs = self.findings@;
        let Report { findings, summary } = self;
        let mut spare = crate::span::reversed(findings);
        let mut out: Vec<Record> = Vec::new();
        while spare.len() > 0
            invariant
                spare@.len() <= fs.len(),
                forall|q: int| 0 <= q < spare@.len() ==> #[trigger] spare@[q] == fs[fs.len() - 1 - q],
                out@.len() == fs.len() - spare@.len(),
                forall|i: int| 0 <= i < out@.len() ==> #[trigger] out@[i] == Record::Finding(fs[i]),
            decreases spare@.len(),
        {
            let ghost t = fs.len() - spare@.len();
            let f = spare.pop().unwrap();
            assert(f == fs[t]);
            out.push(Record::Finding(f));
        }
        out.push(Record::Summary(summary));
        out
    }
}

} // verus!
