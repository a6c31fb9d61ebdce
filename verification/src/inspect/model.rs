//! What an inspection reports: thresholds, groups, measurements, findings and the summary.
use crate::context::Role;
use crate::inspect::config::Analyzer;
use crate::inspect::mapping::Observation;
use vstd::prelude::*;

verus! {

/// The limit above which a measure becomes a finding.
#[derive(Clone, Copy, Debug)]
pub struct Threshold {
    pub above: u64,
}

/// A measure of one group.
#[derive(Debug)]
pub enum Measurement {
    /// Encoded record bytes summed over the group.
    Bytes { value: u64 },
    /// The dominant content prefix: the percentage of the group's records that repeat it, the
    /// records of the group, how many repeat it, and its length in bytes.
    Prefix { value: u64, atoms: u64, repeated: u64, bytes: usize },
    /// Held time summed over the group's surviving spans, their inclusive time, and how many
    /// spans took part.
    Held { value: u128, inclusive: u128, spans: u64 },
}

/// Whether a measure lies above `above`: bytes or held time above it, or a prefix repeated in
/// more than `above` percent of the group's records.
pub open spec fn exceeds(above: u64, m: Measurement) -> bool {
    match m {
        Measurement::Bytes { value } => value > above,
        Measurement::Prefix { atoms, repeated, .. } => repeated * 100 > atoms * above,
        Measurement::Held { value, .. } => value > above,
    }
}

/// A threshold is a bound on the measure itself: held time lies above `above` exactly when the
/// held nanoseconds are greater than `above`, whatever the inclusive time or the span count; a
/// byte measure, exactly when its bytes are; a prefix, exactly when more than `above` percent of
/// the group's records repeat it.
pub proof fn law_threshold(above: u64, m: Measurement)
    ensures
        m matches Measurement::Held { value, .. } ==> (exceeds(above, m) <==> value > above),
        m matches Measurement::Held { value, .. } ==> forall|inclusive: u128, spans: u64|
            #[trigger] exceeds(above, Measurement::Held { value, inclusive, spans }) == exceeds(above, m),
        m matches Measurement::Bytes { value } ==> (exceeds(above, m) <==> value > above),
        m matches Measurement::Prefix { atoms, repeated, .. } ==> (exceeds(above, m) <==> repeated * 100
            > atoms * above),
{
}

impl Threshold {
    /// Whether `measurement` lies above this threshold.
    pub fn exceeded(&self, measurement: &Measurement) -> (r: bool)
        ensures
            r == exceeds(self.above, *measurement),
    {
        match measurement {
            Measurement::Bytes { value } => *value > self.above,
            Measurement::Prefix { atoms, repeated, .. } => {
                let a = *atoms as u128;
                let b = self.above as u128;
                proof {
                    assert(a * b <= 0xffff_ffff_ffff_ffffu128 * 0xffff_ffff_ffff_ffffu128) by (nonlinear_arith)
                        requires
                            a <= 0xffff_ffff_ffff_ffffu128,
                            b <= 0xffff_ffff_ffff_ffffu128,
                    ;
                }
                (*repeated as u128) * 100 > a * b
            },
            Measurement::Held { value, .. } => *value > self.above as u128,
        }
    }
}

/// The group a measure belongs to: a role and the key bound to it.
#[derive(Debug)]
pub struct Group {
    pub role: String,
    pub key: String,
}

impl Group {
    /// The group of `key` under `role`.
    pub fn new(role: &Role, key: String) -> (r: Self)
        ensures
            r.role@ == role@,
            r.key == key,
    {
        Group { role: role.text().to_owned(), key }
    }
}

/// A measure of one analyzer above its threshold.
#[derive(Debug)]
pub struct Finding {
    pub analyzer: String,
    pub group: Group,
    pub measurement: Measurement,
    pub threshold: Threshold,
}

impl Finding {
    /// The finding of `analyzer` on one observation.
    pub fn new(analyzer: &Analyzer, observation: Observation) -> (r: Self)
        ensures
            r.analyzer@ == analyzer.id@,
            r.group == observation.group,
            r.measurement == observation.measurement,
            r.threshold == analyzer.threshold,
    {
        Finding {
            analyzer: analyzer.id.clone(),
            group: observation.group,
            measurement: observation.measurement,
            threshold: analyzer.threshold,
        }
    }

    /// The analyzer, role and key that identify a finding, in the order findings sort by.
    pub fn identity(&self) -> (r: (&str, &str, &str))
        ensures
            r.0@ == self.analyzer@,
            r.1@ == self.group.role@,
            r.2@ == self.group.key@,
    {
        (self.analyzer.as_str(), self.group.role.as_str(), self.group.key.as_str())
    }
}

/// The summary of an inspection: the analyzers that ran, the records read, the findings, and
/// the spans a held-time mapping dropped.
#[derive(Debug)]
pub struct Summary {
    pub coverage: Vec<String>,
    pub records: u64,
    pub findings: usize,
    pub refused: u128,
}

impl Summary {
    /// A summary of the given counts.
    pub fn new(coverage: Vec<String>, records: u64, findings: usize, refused: u128) -> (r: Self)
        ensures
            r.coverage == coverage,
            r.records == records,
            r.findings == findings,
            r.refused == refused,
    {
        Summary { coverage, records, findings, refused }
    }
}

/// One record of the inspection output.
#[derive(Debug)]
pub enum Record {
    Finding(Finding),
    Summary(Summary),
}

} // verus!
