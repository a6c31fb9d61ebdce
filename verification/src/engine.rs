//! The engine's decisions: the policy a product configures, what bootstrap validates, how each
//! requested role resolves, and what becomes of a record's delivery.
use crate::atom::{Accepted, Atom, Candidate, Choice, Collection, Origin, Payload};
use crate::collector::{self, bindings_fault, builds, Builtin, Sample};
use crate::context::{key_refusal, valid_key, Context, Key, Role};
use crate::error::{Error, Kind};
use crate::generator::{self, generates, generator_fault, roles_fault, Generator};
use crate::hook::{Diagnostic, Outcome, Status};
use crate::reporter::{self, reporter_fault, Reporter};
use crate::table::{in_key_order, lemma_map_at, Table};
use crate::text::same;
use vstd::prelude::*;
use vstd::string::*;

verus! {

/// What a product configures: whether and where records are reported, the generator of each
/// role and the fallback for the others, and the collector chains by binding.
#[derive(Debug)]
pub struct Policy {
    enabled: bool,
    reporter: Option<reporter::Spec>,
    fallback: generator::Spec,
    generators: Table<generator::Spec>,
    collectors: Table<Vec<collector::Spec>>,
}

impl Policy {
    #[verifier::type_invariant]
    spec fn valid(&self) -> bool {
        self.generators.wf() && self.collectors.wf()
    }

    /// Whether reporting is enabled.
    pub closed spec fn spec_enabled(&self) -> bool {
        self.enabled
    }

    /// The configured reporter.
    pub closed spec fn spec_reporter(&self) -> Option<reporter::Spec> {
        self.reporter
    }

    /// The generator of roles without one of their own.
    pub closed spec fn spec_fallback(&self) -> generator::Spec {
        self.fallback
    }

    /// The generator of each role.
    pub closed spec fn spec_generators(&self) -> Map<Seq<char>, generator::Spec> {
        self.generators@
    }

    /// The generators in role order.
    pub closed spec fn spec_generator_order(&self) -> Seq<(Seq<char>, generator::Spec)> {
        self.generators.entries().map_values(|e: (String, generator::Spec)| (e.0@, e.1))
    }

    /// The collector chain of each binding.
    pub closed spec fn spec_collectors(&self) -> Map<Seq<char>, Seq<collector::Spec>> {
        Map::new(|k: Seq<char>| self.collectors@.contains_key(k), |k: Seq<char>| self.collectors@[k]@)
    }

    /// The chains in binding order.
    pub closed spec fn spec_collector_order(&self) -> Seq<(Seq<char>, Seq<collector::Spec>)> {
        self.collectors.entries().map_values(|e: (String, Vec<collector::Spec>)| (e.0@, e.1@))
    }

    /// Enables reporting to `spec`.
    pub fn reporter(self, spec: reporter::Spec) -> (r: Self)
        ensures
            r.spec_enabled(),
            r.spec_reporter() == Some(spec),
            r.spec_fallback() == self.spec_fallback(),
            r.spec_generators() == self.spec_generators(),
            r.spec_generator_order() == self.spec_generator_order(),
            r.spec_collectors() == self.spec_collectors(),
            r.spec_collector_order() == self.spec_collector_order(),
    {
        proof {
            use_type_invariant(&self);
        }
        let Policy { enabled: _, reporter: _, fallback, generators, collectors } = self;
        Policy { enabled: true, reporter: Some(spec), fallback, generators, collectors }
    }

    /// Generates roles without a generator of their own with `spec`.
    pub fn fallback(self, spec: generator::Spec) -> (r: Self)
        ensures
            r.spec_enabled() == self.spec_enabled(),
            r.spec_reporter() == self.spec_reporter(),
            r.spec_fallback() == spec,
            r.spec_generators() == self.spec_generators(),
            r.spec_generator_order() == self.spec_generator_order(),
            r.spec_collectors() == self.spec_collectors(),
            r.spec_collector_order() == self.spec_collector_order(),
    {
        proof {
            use_type_invariant(&self);
        }
        let Policy { enabled, reporter, fallback: _, generators, collectors } = self;
        Policy { enabled, reporter, fallback: spec, generators, collectors }
    }

    /// Generates `role` with `spec`, replacing an earlier generator of it.
    pub fn generator(self, role: Role, spec: generator::Spec) -> (r: Self)
        ensures
            r.spec_enabled() == self.spec_enabled(),
            r.spec_reporter() == self.spec_reporter(),
            r.spec_fallback() == self.spec_fallback(),
            r.spec_generators() == self.spec_generators().insert(role@, spec),
            r.spec_collectors() == self.spec_collectors(),
            r.spec_collector_order() == self.spec_collector_order(),
    {
        proof {
            use_type_invariant(&self);
        }
        let Policy { enabled, reporter, fallback, mut generators, collectors } = self;
        generators.put(role.text().to_owned(), spec);
        Policy { enabled, reporter, fallback, generators, collectors }
    }

    /// Appends `spec` to the collector chain named `binding`.
    pub fn collector(self, binding: &str, spec: collector::Spec) -> (r: Self)
        ensures
            r.spec_enabled() == self.spec_enabled(),
            r.spec_reporter() == self.spec_reporter(),
            r.spec_fallback() == self.spec_fallback(),
            r.spec_generators() == self.spec_generators(),
            r.spec_generator_order() == self.spec_generator_order(),
            r.spec_collectors() == self.spec_collectors().insert(
                binding@,
                if self.spec_collectors().contains_key(binding@) {
                    self.spec_collectors()[binding@]
                } else {
                    Seq::empty()
                }.push(spec),
            ),
    {
        proof {
            use_type_invariant(&self);
        }
        let ghost before = self.spec_collectors();
        let Policy { enabled, reporter, fallback, generators, mut collectors } = self;
        let mut chain = match collectors.take(binding) {
            Some(c) => c,
            None => Vec::new(),
        };
        chain.push(spec);
        let ghost pushed = chain@;
        collectors.put(binding.to_owned(), chain);
        let r = Policy { enabled, reporter, fallback, generators, collectors };
        proof {
            assert(r.spec_collectors() =~= before.insert(binding@, pushed));
        }
        r
    }

    /// Disables reporting; every record is then gated.
    pub fn disable(self) -> (r: Self)
        ensures
            !r.spec_enabled(),
            r.spec_reporter() == self.spec_reporter(),
            r.spec_fallback() == self.spec_fallback(),
            r.spec_generators() == self.spec_generators(),
            r.spec_generator_order() == self.spec_generator_order(),
            r.spec_collectors() == self.spec_collectors(),
            r.spec_collector_order() == self.spec_collector_order(),
    {
        proof {
            use_type_invariant(&self);
        }
        let Policy { enabled: _, reporter, fallback, generators, collectors } = self;
        Policy { enabled: false, reporter, fallback, generators, collectors }
    }
}

impl Default for Policy {
    /// Reporting disabled and unconfigured, random keys for every role, no collector.
    fn default() -> (r: Self)
        ensures
            !r.spec_enabled(),
            r.spec_reporter() is None,
            r.spec_fallback().spec_name() == "random"@,
            r.spec_fallback().spec_options() matches Payload::Object(m) && m@.len() == 0,
            r.spec_generators() == Map::<Seq<char>, generator::Spec>::empty(),
            r.spec_generator_order().len() == 0,
            r.spec_collectors() == Map::<Seq<char>, Seq<collector::Spec>>::empty(),
            r.spec_collector_order().len() == 0,
    {
        let r = Policy {
            enabled: false,
            reporter: None,
            fallback: generator::Spec::random(),
            generators: Table::new(),
            collectors: Table::new(),
        };
        proof {
            assert(r.spec_collectors() =~= Map::<Seq<char>, Seq<collector::Spec>>::empty());
        }
        r
    }
}

/// Whether `r` is the reporter a reporter spec without fault builds.
pub open spec fn reports(options: Payload, r: Reporter) -> bool {
    r matches Reporter::File { path } && options matches Payload::Object(m)
        && crate::options::text_value(crate::options::member(m@, "path"@)) == Some(path@)
}

/// The first refusal of a policy at bootstrap: the fallback generator, the generators in role
/// order, the collector chains in binding order, then the reporter reporting requires.
pub open spec fn bootstrap_fault(p: Policy) -> Option<Seq<char>> {
    let fallback = generator_fault(p.spec_fallback().spec_name(), p.spec_fallback().spec_options());
    if fallback is Some {
        fallback
    } else if roles_fault(p.spec_generator_order()) is Some {
        roles_fault(p.spec_generator_order())
    } else if bindings_fault(p.spec_collector_order()) is Some {
        bindings_fault(p.spec_collector_order())
    } else if p.spec_enabled() {
        match p.spec_reporter() {
            None => Some("enabled reporting requires a reporter"@),
            Some(s) => reporter_fault(s.spec_name(), s.spec_options()),
        }
    } else {
        None
    }
}

/// A bootstrapped policy: every spec validated, nothing sampled or generated yet.
#[derive(Debug)]
pub struct Plan {
    enabled: bool,
    reporter: Option<(String, Reporter)>,
    fallback: Generator,
    generators: Table<Generator>,
    collectors: Table<Vec<Builtin>>,
}

impl Plan {
    #[verifier::type_invariant]
    spec fn valid(&self) -> bool {
        self.generators.wf() && self.collectors.wf()
    }

    /// Whether reporting is enabled.
    pub closed spec fn spec_enabled(&self) -> bool {
        self.enabled
    }

    /// The reporter's name and the reporter, when one is configured.
    pub closed spec fn spec_reporter(&self) -> Option<(Seq<char>, Reporter)> {
        match self.reporter {
            Some((n, r)) => Some((n@, r)),
            None => None,
        }
    }

    /// The generator of roles without one of their own.
    pub closed spec fn spec_fallback(&self) -> Generator {
        self.fallback
    }

    /// The generator of each role.
    pub closed spec fn spec_generators(&self) -> Map<Seq<char>, Generator> {
        self.generators@
    }

    /// The collector chain of each binding.
    pub closed spec fn spec_chains(&self) -> Map<Seq<char>, Seq<Builtin>> {
        Map::new(|k: Seq<char>| self.collectors@.contains_key(k), |k: Seq<char>| self.collectors@[k]@)
    }

    /// Validates every spec of `policy`; refused at the first fault.
    pub fn bootstrap(policy: &Policy) -> (r: Result<Self, Error>)
        ensures
            match bootstrap_fault(*policy) {
                Some(f) => r matches Err(e) && e@ == (Kind::Config, f),
                None => r matches Ok(plan) && {
                    &&& plan.spec_enabled() == policy.spec_enabled()
                    &&& generates(
                        policy.spec_fallback().spec_name(),
                        policy.spec_fallback().spec_options(),
                        plan.spec_fallback(),
                    )
                    &&& plan.spec_generators().dom() == policy.spec_generators().dom()
                    &&& forall|k: Seq<char>|
                        #[trigger] plan.spec_generators().contains_key(k) ==> generates(
                            policy.spec_generators()[k].spec_name(),
                            policy.spec_generators()[k].spec_options(),
                            plan.spec_generators()[k],
                        )
                    &&& plan.spec_chains().dom() == policy.spec_collectors().dom()
                    &&& forall|k: Seq<char>|
                        #[trigger] plan.spec_chains().contains_key(k) ==> plan.spec_chains()[k].len()
                            == policy.spec_collectors()[k].len() && forall|i: int|
                            0 <= i < policy.spec_collectors()[k].len() ==> builds(
                                (#[trigger] policy.spec_collectors()[k][i]).spec_name(),
                                policy.spec_collectors()[k][i].spec_options(),
                                plan.spec_chains()[k][i],
                            )
                    &&& policy.spec_enabled() ==> (plan.spec_reporter() matches Some((n, rep))
                        && policy.spec_reporter() matches Some(s) && n == s.spec_name() && reports(
                        s.spec_options(),
                        rep,
                    ))
                    &&& !policy.spec_enabled() ==> plan.spec_reporter() is None
                },
            },
    {
        proof {
            use_type_invariant(policy);
        }
        let fallback = generator::build(&policy.fallback)?;
        let generators = generator::roles(&policy.generators)?;
        let collectors = collector::bindings(&policy.collectors)?;
        let reporter = if policy.enabled {
            let spec = match &policy.reporter {
                Some(s) => s,
                None => {
                    return Err(Error::config("enabled reporting requires a reporter".to_owned()));
                },
            };
            let built = reporter::build(spec)?;
            Some((spec.name().to_owned(), built))
        } else {
            None
        };
        let plan = Plan { enabled: policy.enabled, reporter, fallback, generators, collectors };
        proof {
            assert(plan.spec_chains().dom() =~= policy.spec_collectors().dom());
        }
        Ok(plan)
    }

    /// Where an accepted record goes: the reporter, when reporting is enabled and one is
    /// configured.
    pub fn target(&self) -> (r: Option<(&str, &Reporter)>)
        ensures
            match r {
                Some((n, rep)) => self.spec_enabled() && self.spec_reporter() == Some((n@, *rep)),
                None => !self.spec_enabled() || self.spec_reporter() is None,
            },
    {
        if !self.enabled {
            return None;
        }
        match &self.reporter {
            Some((n, rep)) => Some((n.as_str(), rep)),
            None => None,
        }
    }

    /// The generator of `role`: its own, or the fallback.
    pub fn generator_for(&self, role: &Role) -> (r: &Generator)
        ensures
            *r == if self.spec_generators().contains_key(role@) {
                self.spec_generators()[role@]
            } else {
                self.spec_fallback()
            },
    {
        proof {
            use_type_invariant(self);
        }
        match self.generators.get(role.text()) {
            Some(g) => g,
            None => &self.fallback,
        }
    }

    /// The chain to sample for a collection request of `role` under `binding`: none when a key
    /// is already given for the role, since a literal explicit key wins without running a
    /// collector; otherwise the chain, refused when the binding names none.
    pub fn collection(&self, candidate: &Candidate, role: &Role, binding: &str) -> (r: Result<
        Option<&Vec<Builtin>>,
        Error,
    >)
        ensures
            candidate.spec_needs().contains_key(role@) && candidate.spec_needs()[role@] is Some
                ==> r matches Ok(None),
            !(candidate.spec_needs().contains_key(role@) && candidate.spec_needs()[role@] is Some)
                ==> match r {
                Ok(Some(c)) => self.spec_chains().contains_key(binding@) && c@ == self.spec_chains()[binding@],
                Ok(None) => false,
                Err(e) => !self.spec_chains().contains_key(binding@) && e@ == (
                    Kind::Collector,
                    "collector binding "@ + binding@ + " is not configured"@,
                ),
            },
    {
        if candidate.given(role) {
            return Ok(None);
        }
        match self.chain(binding) {
            Ok(c) => Ok(Some(c)),
            Err(e) => Err(e),
        }
    }

    /// The collector chain named `binding`; a binding that names none refuses.
    pub fn chain(&self, binding: &str) -> (r: Result<&Vec<Builtin>, Error>)
        ensures
            match r {
                Ok(c) => self.spec_chains().contains_key(binding@) && c@ == self.spec_chains()[binding@],
                Err(e) => !self.spec_chains().contains_key(binding@) && e@ == (
                    Kind::Collector,
                    "collector binding "@ + binding@ + " is not configured"@,
                ),
            },
    {
        proof {
            use_type_invariant(self);
        }
        match self.collectors.get(binding) {
            Some(c) => Ok(c),
            None => {
                let mut m = "collector binding ".to_owned();
                m.append(binding);
                m.append(" is not configured");
                Err(Error::collector(m))
            },
        }
    }
}

/// Refuses a candidate that carries no fact: no payload and no requested role. A collection
/// request alone is no fact.
pub fn check(candidate: &Candidate) -> (r: Result<(), Error>)
    ensures
        r is Err <==> candidate.spec_payload() is None && candidate.spec_needs().dom() == Set::<
            Seq<char>,
        >::empty(),
        r matches Err(e) ==> e@ == (Kind::Record, "candidate contains no fact"@),
{
    proof {
        use_type_invariant(candidate);
        candidate.lemma_fields();
        candidate.needs.lemma_empty();
        assert(candidate.spec_needs().dom() =~= candidate.needs@.dom());
    }
    if candidate.payload.is_none() && candidate.needs.len() == 0 {
        return Err(Error::record("candidate contains no fact".to_owned()));
    }
    Ok(())
}

/// Takes what a collector chain gave for `role`: a sample becomes the role's explicit key with
/// its provenance recorded, refused when it is not a valid key; no sample leaves the role
/// requested.
pub fn collect_into(candidate: Candidate, role: Role, binding: &str, sample: Option<Sample>) -> (r:
    Result<Candidate, Error>)
    ensures
        match sample {
            None => r matches Ok(c) && c.spec_needs() == (if candidate.spec_needs().contains_key(role@) {
                candidate.spec_needs()
            } else {
                candidate.spec_needs().insert(role@, None)
            }) && c.spec_provenance() == candidate.spec_provenance() && c.spec_requests()
                == candidate.spec_requests() && c.spec_source() == candidate.spec_source()
                && c.spec_payload() == candidate.spec_payload(),
            Some(s) => if valid_key(s.value@) {
                r matches Ok(c) && c.spec_needs() == candidate.spec_needs().insert(role@, Some(s.value@))
                    && c.spec_provenance().len() == candidate.spec_provenance().len() + 1
                    && c.spec_provenance().drop_last() == candidate.spec_provenance() && {
                    let p = c.spec_provenance().last();
                    &&& p.role@ == role@
                    &&& p.binding@ == binding@
                    &&& p.collector@ == s.collector@
                    &&& p.selector@ == s.selector@
                } && c.spec_requests() == candidate.spec_requests() && c.spec_source()
                    == candidate.spec_source() && c.spec_payload() == candidate.spec_payload()
            } else {
                r matches Err(e) && e@ == (Kind::Collector, key_refusal(s.value@))
            },
        },
{
    match sample {
        None => Ok(candidate.ensure(role)),
        Some(s) => {
            let key = match Key::new(s.value.as_str()) {
                Ok(k) => k,
                Err(e) => return Err(Error::collector(e.message().to_owned())),
            };
            let record = Collection::new(&role, binding, s.collector.as_str(), s.selector);
            let c = candidate.collected(role, key, record);
            proof {
                assert(c.spec_provenance().drop_last() =~= candidate.spec_provenance());
            }
            Ok(c)
        },
    }
}

/// How one requested role gets its key.
#[derive(Debug)]
pub enum Pick {
    /// The key given for it.
    Explicit(Key),
    /// The key the context already binds to it.
    Inherited(Key),
    /// A key its generator draws.
    Generate,
}

/// Whether `p` is how `role` resolves: a given key wins, then the context's key; only when
/// both are absent does a generator draw one.
pub open spec fn picked(
    needs: Map<Seq<char>, Option<Seq<char>>>,
    context: Map<Seq<char>, Seq<char>>,
    role: Seq<char>,
    p: Pick,
) -> bool {
    match needs[role] {
        Some(k) => p matches Pick::Explicit(key) && key@ == k,
        None => if context.contains_key(role) {
            p matches Pick::Inherited(key) && key@ == context[role]
        } else {
            p is Generate
        },
    }
}

/// Decides how each requested role resolves, roles in order.
pub fn resolve(context: &Context, candidate: &Candidate) -> (r: Vec<(Role, Pick)>)
    ensures
        in_key_order(r@.map_values(|x: (Role, Pick)| x.0@), candidate.spec_needs().dom()),
        forall|i: int|
            0 <= i < r@.len() ==> picked(
                candidate.spec_needs(),
                context@,
                (#[trigger] r@[i]).0@,
                r@[i].1,
            ),
{
    proof {
        use_type_invariant(candidate);
        candidate.lemma_fields();
    }
    let needs = &candidate.needs;
    let ghost e = needs.entries();
    let ghost view = candidate.spec_needs();
    let mut out: Vec<(Role, Pick)> = Vec::new();
    let mut i: usize = 0;
    while i < needs.len()
        invariant
            crate::atom::needs_valid(*needs),
            e == needs.entries(),
            view == crate::atom::needs_view(*needs),
            i <= e.len(),
            out@.len() == i,
            forall|j: int|
                0 <= j < i ==> (#[trigger] out@[j]).0@ == e[j].0@ && picked(view, context@, out@[j].0@, out@[j].1),
        decreases e.len() - i,
    {
        proof {
            lemma_map_at(e, i as int);
        }
        let text = needs.key_at(i);
        let role = Role::trusted(text.clone());
        let pick = match needs.value_at(i) {
            Some(k) => Pick::Explicit(k.clone()),
            None => match context.read(&role) {
                Some(k) => Pick::Inherited(k),
                None => Pick::Generate,
            },
        };
        out.push((role, pick));
        i = i + 1;
    }
    proof {
        let keys = out@.map_values(|x: (Role, Pick)| x.0@);
        assert forall|a: int, b: int| 0 <= a < b < keys.len() implies crate::text::text_precedes(
            #[trigger] keys[a],
            #[trigger] keys[b],
        ) by {
            assert(keys[a] == e[a].0@ && keys[b] == e[b].0@);
        }
        assert forall|j: int| 0 <= j < keys.len() implies view.dom().contains(#[trigger] keys[j]) by {
            lemma_map_at(e, j);
        }
        assert forall|k: Seq<char>| #[trigger] view.dom().contains(k) implies exists|j: int|
            0 <= j < keys.len() && keys[j] == k by {
            let j = crate::table::pick(e, k);
            assert(keys[j] == k);
        }
    }
    out
}

/// How many of the first `n` picks draw a generated key.
pub open spec fn generated_before(picks: Seq<(Role, Pick)>, n: int) -> nat
    decreases n,
{
    if n <= 0 {
        0
    } else {
        generated_before(picks, n - 1) + if picks[n - 1].1 is Generate {
            1nat
        } else {
            0nat
        }
    }
}

/// The key pick `i` resolves to: the given or inherited key, or the next generated one.
pub open spec fn chosen(picks: Seq<(Role, Pick)>, generated: Seq<Key>, i: int) -> Seq<char> {
    match picks[i].1 {
        Pick::Explicit(k) => k@,
        Pick::Inherited(k) => k@,
        Pick::Generate => generated[generated_before(picks, i) as int]@,
    }
}

/// Where the key of a pick came from.
pub open spec fn origin_for(p: Pick) -> Origin {
    match p {
        Pick::Explicit(_) => Origin::Explicit,
        Pick::Inherited(_) => Origin::Inherited,
        Pick::Generate => Origin::Generated,
    }
}

/// The context with the first `n` picks bound, in order.
pub open spec fn bound_upto(
    context: Map<Seq<char>, Seq<char>>,
    picks: Seq<(Role, Pick)>,
    generated: Seq<Key>,
    n: int,
) -> Map<Seq<char>, Seq<char>>
    decreases n,
{
    if n <= 0 {
        context
    } else {
        bound_upto(context, picks, generated, n - 1).insert(picks[n - 1].0@, chosen(picks, generated, n - 1))
    }
}

/// Accepts a candidate under `context` once every role is resolved: each pick binds its key in
/// a new view, in order, generated keys taken in turn; the record holds that view, one choice
/// per pick, and the candidate's provenance, source and payload.
pub fn settle(context: &Context, candidate: Candidate, picks: Vec<(Role, Pick)>, generated: Vec<Key>, at: u64) -> (r: (Atom, Accepted))
    requires
        generated@.len() == generated_before(picks@, picks@.len() as int),
    ensures
        r.1.spec_context() == bound_upto(context@, picks@, generated@, picks@.len() as int),
        r.0.spec_context() == r.1.spec_context(),
        r.0.spec_at() == at,
        r.0.spec_choices().len() == picks@.len(),
        forall|i: int|
            0 <= i < picks@.len() ==> {
                let c = #[trigger] r.0.spec_choices()[i];
                &&& c.role@ == picks@[i].0@
                &&& c.key@ == chosen(picks@, generated@, i)
                &&& c.origin == origin_for(picks@[i].1)
            },
        r.0.spec_collections() == candidate.spec_provenance(),
        r.0.spec_source() == candidate.spec_source(),
        r.0.spec_payload() == candidate.spec_payload(),
{
    let ghost ps = picks@;
    let ghost gs = generated@;
    let mut spare = crate::span::reversed(picks);
    let mut keys = crate::span::reversed(generated);
    let mut view = context.duplicate();
    let mut choices: Vec<Choice> = Vec::new();
    while spare.len() > 0
        invariant
            spare@.len() <= ps.len(),
            forall|q: int| 0 <= q < spare@.len() ==> #[trigger] spare@[q] == ps[ps.len() - 1 - q],
            gs.len() == generated_before(ps, ps.len() as int),
            keys@.len() == gs.len() - generated_before(ps, ps.len() - spare@.len()),
            forall|q: int| 0 <= q < keys@.len() ==> #[trigger] keys@[q] == gs[gs.len() - 1 - q],
            generated_before(ps, ps.len() - spare@.len()) <= gs.len(),
            view@ == bound_upto(context@, ps, gs, ps.len() - spare@.len()),
            choices@.len() == ps.len() - spare@.len(),
            forall|i: int|
                0 <= i < choices@.len() ==> {
                    let c = #[trigger] choices@[i];
                    &&& c.role@ == ps[i].0@
                    &&& c.key@ == chosen(ps, gs, i)
                    &&& c.origin == origin_for(ps[i].1)
                },
        decreases spare@.len(),
    {
        let ghost t = ps.len() - spare@.len();
        let (role, pick) = spare.pop().unwrap();
        assert((role, pick) == ps[t]);
        proof {
            lemma_generated_bound(ps, t + 1);
        }
        let (key, origin) = match pick {
            Pick::Explicit(k) => (k, Origin::Explicit),
            Pick::Inherited(k) => (k, Origin::Inherited),
            Pick::Generate => {
                let k = keys.pop().unwrap();
                assert(k == gs[generated_before(ps, t) as int]);
                (k, Origin::Generated)
            },
        };
        choices.push(Choice::new(&role, &key, origin));
        view = view.bind(role, key);
    }
    let atom = Atom::new(at, &view, choices, candidate);
    (atom, Accepted::new(view))
}

pub proof fn lemma_generated_bound(picks: Seq<(Role, Pick)>, n: int)
    requires
        0 <= n <= picks.len(),
    ensures
        generated_before(picks, n) <= generated_before(picks, picks.len() as int),
    decreases picks.len() - n,
{
    if n < picks.len() {
        lemma_generated_bound(picks, n + 1);
    }
}

/// Binding later picks of other roles leaves a role's key as the earlier picks left it.
pub proof fn lemma_bound_other(
    context: Map<Seq<char>, Seq<char>>,
    picks: Seq<(Role, Pick)>,
    generated: Seq<Key>,
    m: int,
    n: int,
    role: Seq<char>,
)
    requires
        0 <= m <= n <= picks.len(),
        forall|i: int| m <= i < n ==> (#[trigger] picks[i]).0@ != role,
    ensures
        bound_upto(context, picks, generated, n).contains_key(role) == bound_upto(
            context,
            picks,
            generated,
            m,
        ).contains_key(role),
        bound_upto(context, picks, generated, m).contains_key(role) ==> bound_upto(
            context,
            picks,
            generated,
            n,
        )[role] == bound_upto(context, picks, generated, m)[role],
    decreases n - m,
{
    if m < n {
        lemma_bound_other(context, picks, generated, m, n - 1, role);
    }
}

/// The context with every pick bound.
pub open spec fn resolved(
    context: Map<Seq<char>, Seq<char>>,
    picks: Seq<(Role, Pick)>,
    generated: Seq<Key>,
) -> Map<Seq<char>, Seq<char>> {
    bound_upto(context, picks, generated, picks.len() as int)
}

/// Identity resolution: every requested role resolves on its own. A key given for it wins; only
/// when none is given does the context's key stand; only when the context has none either does
/// a generated key stand. Roles not requested keep the key the context binds, and no other
/// role is bound.
pub proof fn law_resolution(
    context: Map<Seq<char>, Seq<char>>,
    needs: Map<Seq<char>, Option<Seq<char>>>,
    picks: Seq<(Role, Pick)>,
    generated: Seq<Key>,
)
    requires
        in_key_order(picks.map_values(|x: (Role, Pick)| x.0@), needs.dom()),
        forall|i: int| 0 <= i < picks.len() ==> picked(needs, context, (#[trigger] picks[i]).0@, picks[i].1),
        generated.len() == generated_before(picks, picks.len() as int),
    ensures
        forall|role: Seq<char>|
            #![trigger needs.contains_key(role)]
            needs.contains_key(role) ==> {
                &&& resolved(context, picks, generated).contains_key(role)
                &&& needs[role] matches Some(k) ==> resolved(context, picks, generated)[role] == k
                &&& needs[role] is None && context.contains_key(role) ==> resolved(
                    context,
                    picks,
                    generated,
                )[role] == context[role]
                &&& needs[role] is None && !context.contains_key(role) ==> exists|j: int|
                    0 <= j < generated.len() && resolved(context, picks, generated)[role]
                        == generated[j]@
            },
        forall|role: Seq<char>|
            #![trigger resolved(context, picks, generated).contains_key(role)]
            !needs.contains_key(role) ==> {
                &&& resolved(context, picks, generated).contains_key(role) == context.contains_key(role)
                &&& context.contains_key(role) ==> resolved(context, picks, generated)[role]
                    == context[role]
            },
{
    let roles = picks.map_values(|x: (Role, Pick)| x.0@);
    let n = picks.len() as int;
    assert forall|role: Seq<char>| #[trigger] needs.contains_key(role) implies {
        &&& resolved(context, picks, generated).contains_key(role)
        &&& needs[role] matches Some(k) ==> resolved(context, picks, generated)[role] == k
        &&& needs[role] is None && context.contains_key(role) ==> resolved(context, picks, generated)[role]
            == context[role]
        &&& needs[role] is None && !context.contains_key(role) ==> exists|j: int|
            0 <= j < generated.len() && resolved(context, picks, generated)[role] == generated[j]@
    } by {
        let i = choose|i: int| 0 <= i < roles.len() && roles[i] == role;
        assert(roles[i] == picks[i].0@);
        assert forall|q: int| i + 1 <= q < n implies (#[trigger] picks[q]).0@ != role by {
            assert(roles[q] == picks[q].0@);
            assert(crate::text::text_precedes(roles[i], roles[q]));
            crate::text::lemma_precedes_irreflexive(crate::text::bytes_of(role));
        }
        lemma_bound_other(context, picks, generated, i + 1, n, role);
        assert(picked(needs, context, picks[i].0@, picks[i].1));
        if picks[i].1 is Generate {
            lemma_generated_bound(picks, i + 1);
            assert(generated_before(picks, i + 1) == generated_before(picks, i) + 1);
        }
    }
    assert forall|role: Seq<char>| !needs.contains_key(role) implies {
        &&& #[trigger] resolved(context, picks, generated).contains_key(role) == context.contains_key(role)
        &&& context.contains_key(role) ==> resolved(context, picks, generated)[role] == context[role]
    } by {
        assert forall|q: int| 0 <= q < n implies (#[trigger] picks[q]).0@ != role by {
            assert(roles[q] == picks[q].0@);
            assert(needs.dom().contains(roles[q]));
        }
        lemma_bound_other(context, picks, generated, 0, n, role);
    }
}

/// The refusal of a role whose generator failed with `error`.
pub fn unresolved(role: &Role, error: &Error) -> (r: Error)
    ensures
        r@ == (Kind::Generator, "cannot resolve role "@ + role@ + ": "@ + error@.1),
{
    let mut m = "cannot resolve role ".to_owned();
    m.append(role.text());
    m.append(": ");
    m.append(error.message());
    Error::generator(m)
}

impl Plan {
    /// What became of delivering `atom`: gated when reporting is disabled; delivered or failed
    /// by what the reporter answered, `delivery`, when one is configured; failed when reporting
    /// is enabled without a reporter.
    pub fn outcome(&self, atom: Atom, delivery: Option<Result<(), String>>) -> (r: Outcome)
        requires
            delivery is Some <==> self.spec_enabled() && self.spec_reporter() is Some,
        ensures
            r.spec_atom() == atom,
            !self.spec_enabled() ==> r.spec_status() == Status::Gated && r.spec_reporter() is None
                && r.spec_error() is None,
            self.spec_enabled() && self.spec_reporter() is None ==> r.spec_status() == Status::Failed
                && r.spec_reporter() is None && r.spec_error() == Some(
                "enabled reporting has no reporter"@,
            ),
            self.spec_enabled() ==> (self.spec_reporter() matches Some((n, _)) ==> r.spec_reporter()
                == Some(n) && match delivery {
                Some(Ok(())) => r.spec_status() == Status::Delivered && r.spec_error() is None,
                Some(Err(e)) => r.spec_status() == Status::Failed && r.spec_error() == Some(e@),
                None => false,
            }),
    {
        if !self.enabled {
            return Outcome::new(atom, None, Status::Gated, None);
        }
        match &self.reporter {
            Some((name, _)) => match delivery {
                Some(Ok(())) => Outcome::new(atom, Some(name.clone()), Status::Delivered, None),
                Some(Err(e)) => Outcome::new(atom, Some(name.clone()), Status::Failed, Some(e)),
                None => Outcome::new(atom, Some(name.clone()), Status::Failed, None),
            },
            None => Outcome::new(
                atom,
                None,
                Status::Failed,
                Some("enabled reporting has no reporter".to_owned()),
            ),
        }
    }
}

#[verifier::external_type_specification]
#[verifier::external_body]
pub struct ExSystemTime(std::time::SystemTime);

#[verifier::external_type_specification]
#[verifier::external_body]
pub struct ExSystemTimeError(std::time::SystemTimeError);

/// The system clock's reading now: `SystemTime::now`. Nothing is stated of it: it is the time.
#[verifier::external_body]
fn clock() -> (r: std::time::SystemTime) {
    std::time::SystemTime::now()
}

/// How long after the Unix epoch `at` lies: `SystemTime::duration_since(UNIX_EPOCH)`, an error
/// where `at` precedes the epoch. Nothing is stated of the result: it depends on the clock.
#[verifier::external_body]
fn since_epoch(at: std::time::SystemTime) -> (r: Result<std::time::Duration, std::time::SystemTimeError>) {
    at.duration_since(std::time::UNIX_EPOCH)
}

/// The whole nanoseconds of a duration: `Duration::as_nanos`. A duration is opaque here, so
/// nothing is stated of the count.
#[verifier::external_body]
fn nanos(elapsed: &std::time::Duration) -> (r: u128) {
    elapsed.as_nanos()
}

/// The `Display` text of a clock error. Nothing is stated of the text.
#[verifier::external_body]
fn clock_error_text(error: &std::time::SystemTimeError) -> (r: String) {
    format!("{error}")
}

/// The Atom clock for a clock reading: the nanoseconds when they fit `u64`; otherwise a record
/// refusal.
pub fn stamp(reading: Result<u128, String>) -> (r: Result<u64, Error>)
    ensures
        match reading {
            Ok(n) => if n <= u64::MAX {
                r matches Ok(at) && at == n
            } else {
                r matches Err(e) && e@ == (Kind::Record, "system time cannot fit the Atom clock"@)
            },
            Err(m) => r matches Err(e) && e@ == (
                Kind::Record,
                "system clock precedes Unix epoch: "@ + m@,
            ),
        },
{
    match reading {
        Ok(n) => if n <= u64::MAX as u128 {
            Ok(n as u64)
        } else {
            Err(Error::record("system time cannot fit the Atom clock".to_owned()))
        },
        Err(m) => {
            let mut text = "system clock precedes Unix epoch: ".to_owned();
            text.append(m.as_str());
            Err(Error::record(text))
        },
    }
}

/// The Atom clock now; a clock it cannot express refuses the record: a reading past `u64`
/// nanoseconds, or a clock set before the Unix epoch, with the clock's own words.
pub fn now() -> (r: Result<u64, Error>)
    ensures
        r matches Err(e) ==> e@ == (Kind::Record, "system time cannot fit the Atom clock"@) || exists|m: Seq<char>|
            e@ == (Kind::Record, #[trigger] ("system clock precedes Unix epoch: "@ + m)),
{
    let reading = match since_epoch(clock()) {
        Ok(elapsed) => Ok(nanos(&elapsed)),
        Err(error) => Err(clock_error_text(&error)),
    };
    stamp(reading)
}

/// Where the engine failed: bootstrapping, collecting a role's key, or generating one.
#[derive(Clone, Copy, Debug, PartialEq, Eq, Structural)]
pub enum Stage {
    Bootstrap,
    Collection,
    Generation,
}

/// The diagnostic code of a failure at `stage`.
pub open spec fn stage_code(stage: Stage) -> Seq<char> {
    match stage {
        Stage::Bootstrap => "bootstrap.failed"@,
        Stage::Collection => "collector.failed"@,
        Stage::Generation => "generator.failed"@,
    }
}

/// The diagnostic the hook receives for `error` at `stage`: the stage's code and the refusal's
/// message.
pub fn diagnose(stage: Stage, error: &Error) -> (r: Diagnostic)
    ensures
        r@ == (stage_code(stage), error@.1),
{
    match stage {
        Stage::Bootstrap => Diagnostic::failure("bootstrap.failed", error),
        Stage::Collection => Diagnostic::failure("collector.failed", error),
        Stage::Generation => Diagnostic::failure("generator.failed", error),
    }
}

} // verus!
