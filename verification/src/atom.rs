//! Candidates before acceptance, and the immutable Atoms they become.
use crate::context::{valid_key, valid_role, Context, Key, Role};
use crate::table::Table;
use vstd::prelude::*;

verus! {

/// A function boundary: entry, or normal return.
#[derive(Clone, Copy, Debug, PartialEq, Eq, Structural)]
pub enum Edge {
    Enter,
    Return,
}

/// Where a selected key came from.
#[derive(Clone, Copy, Debug, PartialEq, Eq, Structural)]
pub enum Origin {
    Explicit,
    Generated,
    Inherited,
}

/// The key selected for one role, and where it came from.
#[derive(Debug)]
pub struct Choice {
    pub role: String,
    pub key: String,
    pub origin: Origin,
}

impl Choice {
    /// The role of the choice.
    pub fn role(&self) -> (r: &str)
        ensures
            r@ == self.role@,
    {
        self.role.as_str()
    }

    /// The key selected.
    pub fn key(&self) -> (r: &str)
        ensures
            r@ == self.key@,
    {
        self.key.as_str()
    }

    /// Where the key came from.
    pub fn origin(&self) -> (r: &Origin)
        ensures
            *r == self.origin,
    {
        &self.origin
    }

    /// The choice of `key` for `role`.
    pub fn new(role: &Role, key: &Key, origin: Origin) -> (r: Self)
        ensures
            r.role@ == role@,
            r.key@ == key@,
            r.origin == origin,
    {
        Choice { role: role.text().to_owned(), key: key.text().to_owned(), origin }
    }
}

/// Provenance of one collected value: the role it filled, the binding that named the chain,
/// and the collector and selector that produced it.
#[derive(Debug)]
pub struct Collection {
    pub role: String,
    pub binding: String,
    pub collector: String,
    pub selector: String,
}

impl Collection {
    /// The role the value filled.
    pub fn role(&self) -> (r: &str)
        ensures
            r@ == self.role@,
    {
        self.role.as_str()
    }

    /// The binding that named the chain.
    pub fn binding(&self) -> (r: &str)
        ensures
            r@ == self.binding@,
    {
        self.binding.as_str()
    }

    /// The collector that produced the value.
    pub fn collector(&self) -> (r: &str)
        ensures
            r@ == self.collector@,
    {
        self.collector.as_str()
    }

    /// The selector of that collector.
    pub fn selector(&self) -> (r: &str)
        ensures
            r@ == self.selector@,
    {
        self.selector.as_str()
    }

    /// Provenance for a value collected into `role`.
    pub fn new(role: &Role, binding: &str, collector: &str, selector: String) -> (r: Self)
        ensures
            r.role@ == role@,
            r.binding@ == binding@,
            r.collector@ == collector@,
            r.selector@ == selector@,
    {
        Collection {
            role: role.text().to_owned(),
            binding: binding.to_owned(),
            collector: collector.to_owned(),
            selector,
        }
    }
}

/// A code location, with the function boundary it marks when it marks one.
#[derive(Debug)]
pub struct Source {
    pub file: String,
    pub line: u32,
    pub column: u32,
    pub module: String,
    pub function: Option<String>,
    pub edge: Option<Edge>,
}

impl Source {
    /// A plain code location.
    pub fn code(file: &str, line: u32, column: u32, module: &str) -> (r: Self)
        ensures
            r.file@ == file@,
            r.line == line,
            r.column == column,
            r.module@ == module@,
            r.function is None,
            r.edge is None,
    {
        Source {
            file: file.to_owned(),
            line,
            column,
            module: module.to_owned(),
            function: None,
            edge: None,
        }
    }

    /// The location as the entry of `function`.
    pub fn enter(self, function: &str) -> (r: Self)
        ensures
            r.file == self.file,
            r.line == self.line,
            r.column == self.column,
            r.module == self.module,
            r.function matches Some(f) && f@ == function@,
            r.edge == Some(Edge::Enter),
    {
        Source { function: Some(function.to_owned()), edge: Some(Edge::Enter), ..self }
    }

    /// The location as the normal return of `function`.
    pub fn returned(self, function: &str) -> (r: Self)
        ensures
            r.file == self.file,
            r.line == self.line,
            r.column == self.column,
            r.module == self.module,
            r.function matches Some(f) && f@ == function@,
            r.edge == Some(Edge::Return),
    {
        Source { function: Some(function.to_owned()), edge: Some(Edge::Return), ..self }
    }

    /// The file of the location.
    pub fn file(&self) -> (r: &str)
        ensures
            r@ == self.file@,
    {
        self.file.as_str()
    }

    /// The line of the location.
    pub fn line(&self) -> (r: u32)
        ensures
            r == self.line,
    {
        self.line
    }

    /// The column of the location.
    pub fn column(&self) -> (r: u32)
        ensures
            r == self.column,
    {
        self.column
    }

    /// The module of the location.
    pub fn module(&self) -> (r: &str)
        ensures
            r@ == self.module@,
    {
        self.module.as_str()
    }

    /// The function whose boundary the location marks.
    pub fn function(&self) -> (r: Option<&str>)
        ensures
            r is Some <==> self.function is Some,
            r matches Some(f) ==> f@ == self.function->0@,
    {
        match &self.function {
            Some(f) => Some(f.as_str()),
            None => None,
        }
    }

    /// The boundary the location marks.
    pub fn edge(&self) -> (r: Option<&Edge>)
        ensures
            r is Some <==> self.edge is Some,
            r matches Some(e) ==> *e == self.edge->0,
    {
        match &self.edge {
            Some(e) => Some(e),
            None => None,
        }
    }

    /// A copy of the location.
    pub fn duplicate(&self) -> (r: Self)
        ensures
            r == *self,
    {
        let function = match &self.function {
            Some(f) => Some(f.clone()),
            None => None,
        };
        Source {
            file: self.file.clone(),
            line: self.line,
            column: self.column,
            module: self.module.clone(),
            function,
            edge: self.edge,
        }
    }
}

/// An opaque JSON payload, held as the values the substrate can read in it: scalars as text
/// in their JSON rendering, arrays, and objects with their members in key order.
#[derive(Debug)]
pub enum Payload {
    Null,
    Bool(bool),
    Number(String),
    Text(String),
    List(Vec<Payload>),
    Object(Vec<(String, Payload)>),
}

/// One accepted immutable record.
#[derive(Debug)]
pub struct Atom {
    at: u64,
    context: Table<String>,
    choices: Vec<Choice>,
    collections: Vec<Collection>,
    source: Option<Source>,
    payload: Option<Payload>,
}

impl Atom {
    #[verifier::type_invariant]
    spec fn valid(&self) -> bool {
        self.context.wf()
    }

    /// When the record was accepted, in nanoseconds since the Unix epoch.
    pub closed spec fn spec_at(&self) -> u64 {
        self.at
    }

    /// The context snapshot of the record, role text to key text.
    pub closed spec fn spec_context(&self) -> Map<Seq<char>, Seq<char>> {
        Map::new(|k: Seq<char>| self.context@.contains_key(k), |k: Seq<char>| self.context@[k]@)
    }

    /// The snapshot entries in role order.
    pub closed spec fn spec_snapshot(&self) -> Table<String> {
        self.context
    }

    /// The choices, one per resolved role.
    pub closed spec fn spec_choices(&self) -> Seq<Choice> {
        self.choices@
    }

    /// The collection provenance.
    pub closed spec fn spec_collections(&self) -> Seq<Collection> {
        self.collections@
    }

    /// The source location, if any.
    pub closed spec fn spec_source(&self) -> Option<Source> {
        self.source
    }

    /// The payload, if any.
    pub closed spec fn spec_payload(&self) -> Option<Payload> {
        self.payload
    }

    /// A record as it was accepted.
    pub fn recorded(
        at: u64,
        context: Table<String>,
        choices: Vec<Choice>,
        collections: Vec<Collection>,
        source: Option<Source>,
        payload: Option<Payload>,
    ) -> (r: Self)
        requires
            context.wf(),
        ensures
            r.spec_at() == at,
            r.spec_snapshot() == context,
            r.spec_choices() == choices@,
            r.spec_collections() == collections@,
            r.spec_source() == source,
            r.spec_payload() == payload,
    {
        Atom { at, context, choices, collections, source, payload }
    }

    /// The record that accepting `candidate` under `context` with `choices` makes at `at`.
    pub fn new(at: u64, context: &Context, choices: Vec<Choice>, candidate: Candidate) -> (r: Self)
        ensures
            r.spec_at() == at,
            r.spec_context() == context@,
            r.spec_choices() == choices@,
            r.spec_collections() == candidate.spec_provenance(),
            r.spec_source() == candidate.spec_source(),
            r.spec_payload() == candidate.spec_payload(),
    {
        proof {
            use_type_invariant(&candidate);
        }
        let snapshot = context.snapshot();
        let r = Atom {
            at,
            context: snapshot,
            choices,
            collections: candidate.provenance,
            source: candidate.source,
            payload: candidate.payload,
        };
        proof {
            assert(r.spec_context() =~= context@);
        }
        r
    }

    /// When the record was accepted.
    pub fn at(&self) -> (r: u64)
        ensures
            r == self.spec_at(),
    {
        self.at
    }

    /// The context snapshot.
    pub fn context(&self) -> (r: &Table<String>)
        ensures
            r.wf(),
            *r == self.spec_snapshot(),
            r@.dom() == self.spec_context().dom(),
            forall|k: Seq<char>| #[trigger] r@.contains_key(k) ==> r@[k]@ == self.spec_context()[k],
    {
        proof {
            use_type_invariant(self);
        }
        &self.context
    }

    /// The choices.
    pub fn choices(&self) -> (r: &Vec<Choice>)
        ensures
            r@ == self.spec_choices(),
    {
        &self.choices
    }

    /// The collection provenance.
    pub fn collections(&self) -> (r: &Vec<Collection>)
        ensures
            r@ == self.spec_collections(),
    {
        &self.collections
    }

    /// The source location.
    pub fn source(&self) -> (r: Option<&Source>)
        ensures
            r is Some <==> self.spec_source() is Some,
            r matches Some(s) ==> *s == self.spec_source()->0,
    {
        match &self.source {
            Some(s) => Some(s),
            None => None,
        }
    }

    /// The payload.
    pub fn payload(&self) -> (r: Option<&Payload>)
        ensures
            r is Some <==> self.spec_payload() is Some,
            r matches Some(p) ==> *p == self.spec_payload()->0,
    {
        match &self.payload {
            Some(p) => Some(p),
            None => None,
        }
    }
}

/// One proposed record before resolution and acceptance.
pub struct Candidate {
    pub(crate) needs: Table<Option<Key>>,
    pub(crate) provenance: Vec<Collection>,
    pub(crate) requests: Vec<(Role, String)>,
    pub(crate) source: Option<Source>,
    pub(crate) payload: Option<Payload>,
}

/// The requested roles of a table of needs: each a valid role, with a valid key where one is
/// given.
pub open spec fn needs_valid(needs: Table<Option<Key>>) -> bool {
    &&& needs.wf()
    &&& forall|k: Seq<char>| #[trigger] needs@.contains_key(k) ==> valid_role(k)
}

/// The needs as role text to explicit key text.
pub open spec fn needs_view(needs: Table<Option<Key>>) -> Map<Seq<char>, Option<Seq<char>>> {
    Map::new(
        |k: Seq<char>| needs@.contains_key(k),
        |k: Seq<char>|
            match needs@[k] {
                Some(key) => Some(key@),
                None => None,
            },
    )
}

impl Candidate {
    /// The requested roles are valid roles, with valid keys where given.
    #[verifier::type_invariant]
    pub(crate) open spec fn valid(&self) -> bool {
        needs_valid(self.needs)
    }

    /// The requested roles, each with its explicit key where one is given.
    pub closed spec fn spec_needs(&self) -> Map<Seq<char>, Option<Seq<char>>> {
        needs_view(self.needs)
    }

    /// The requests as the fields hold them.
    pub(crate) proof fn lemma_fields(&self)
        ensures
            self.spec_needs() == needs_view(self.needs),
            self.spec_requests() == self.requests@.map_values(|r: (Role, String)| (r.0@, r.1@)),
            self.spec_payload() == self.payload,
    {
    }

    /// The collection requests: role and binding, in order.
    pub closed spec fn spec_requests(&self) -> Seq<(Seq<char>, Seq<char>)> {
        self.requests@.map_values(|r: (Role, String)| (r.0@, r.1@))
    }

    /// The collection provenance gathered so far.
    pub closed spec fn spec_provenance(&self) -> Seq<Collection> {
        self.provenance@
    }

    /// The source location.
    pub closed spec fn spec_source(&self) -> Option<Source> {
        self.source
    }

    /// The payload.
    pub closed spec fn spec_payload(&self) -> Option<Payload> {
        self.payload
    }

    /// A candidate that carries no payload and requests nothing yet.
    pub fn context() -> (r: Self)
        ensures
            r.spec_needs() == Map::<Seq<char>, Option<Seq<char>>>::empty(),
            r.spec_requests() == Seq::<(Seq<char>, Seq<char>)>::empty(),
            r.spec_provenance() == Seq::<Collection>::empty(),
            r.spec_source() is None,
            r.spec_payload() is None,
    {
        let r = Candidate {
            needs: Table::new(),
            provenance: Vec::new(),
            requests: Vec::new(),
            source: None,
            payload: None,
        };
        proof {
            assert(r.spec_needs() =~= Map::<Seq<char>, Option<Seq<char>>>::empty());
            assert(r.spec_requests() =~= Seq::<(Seq<char>, Seq<char>)>::empty());
        }
        r
    }

    /// A candidate event carrying `payload`.
    pub fn event(payload: Payload) -> (r: Self)
        ensures
            r.spec_needs() == Map::<Seq<char>, Option<Seq<char>>>::empty(),
            r.spec_requests() == Seq::<(Seq<char>, Seq<char>)>::empty(),
            r.spec_provenance() == Seq::<Collection>::empty(),
            r.spec_source() is None,
            r.spec_payload() == Some(payload),
    {
        let r = Candidate {
            needs: Table::new(),
            provenance: Vec::new(),
            requests: Vec::new(),
            source: None,
            payload: Some(payload),
        };
        proof {
            assert(r.spec_needs() =~= Map::<Seq<char>, Option<Seq<char>>>::empty());
            assert(r.spec_requests() =~= Seq::<(Seq<char>, Seq<char>)>::empty());
        }
        r
    }

    /// Requests `role`, leaving an explicit key already given in place.
    pub fn ensure(self, role: Role) -> (r: Self)
        ensures
            r.spec_needs() == (if self.spec_needs().contains_key(role@) {
                self.spec_needs()
            } else {
                self.spec_needs().insert(role@, None)
            }),
            r.spec_requests() == self.spec_requests(),
            r.spec_provenance() == self.spec_provenance(),
            r.spec_source() == self.spec_source(),
            r.spec_payload() == self.spec_payload(),
    {
        proof {
            use_type_invariant(&self);
        }
        let Candidate { mut needs, provenance, requests, source, payload } = self;
        let text = role.text();
        if needs.find(text).is_none() {
            let ghost before = needs;
            needs.put(text.to_owned(), None);
            proof {
                assert(needs_view(needs) =~= needs_view(before).insert(role@, None));
            }
        }
        Candidate { needs, provenance, requests, source, payload }
    }

    /// Requests `role` with the explicit `key`, replacing any earlier request for it.
    pub fn explicit(self, role: Role, key: Key) -> (r: Self)
        ensures
            r.spec_needs() == self.spec_needs().insert(role@, Some(key@)),
            r.spec_requests() == self.spec_requests(),
            r.spec_provenance() == self.spec_provenance(),
            r.spec_source() == self.spec_source(),
            r.spec_payload() == self.spec_payload(),
    {
        proof {
            use_type_invariant(&self);
        }
        let Candidate { mut needs, provenance, requests, source, payload } = self;
        let ghost before = needs;
        let ghost k = key@;
        needs.put(role.text().to_owned(), Some(key));
        proof {
            assert(needs_view(needs) =~= needs_view(before).insert(role@, Some(k)));
        }
        Candidate { needs, provenance, requests, source, payload }
    }

    /// Binds the collector chain named `binding` to `role` for this candidate.
    pub fn collect(self, role: Role, binding: &str) -> (r: Self)
        ensures
            r.spec_needs() == self.spec_needs(),
            r.spec_requests() == self.spec_requests().push((role@, binding@)),
            r.spec_provenance() == self.spec_provenance(),
            r.spec_source() == self.spec_source(),
            r.spec_payload() == self.spec_payload(),
    {
        proof {
            use_type_invariant(&self);
        }
        let Candidate { needs, provenance, mut requests, source, payload } = self;
        let ghost before = requests@;
        let ghost pair = (role@, binding@);
        requests.push((role, binding.to_owned()));
        proof {
            assert(requests@.map_values(|q: (Role, String)| (q.0@, q.1@)) =~= before.map_values(
                |q: (Role, String)| (q.0@, q.1@),
            ).push(pair));
        }
        Candidate { needs, provenance, requests, source, payload }
    }

    /// The collection requests, role and binding, in order.
    pub fn requests(&self) -> (r: &Vec<(Role, String)>)
        ensures
            r@.map_values(|q: (Role, String)| (q.0@, q.1@)) == self.spec_requests(),
    {
        &self.requests
    }

    /// Whether an explicit key is given for `role`.
    pub fn given(&self, role: &Role) -> (r: bool)
        ensures
            r == (self.spec_needs().contains_key(role@) && self.spec_needs()[role@] is Some),
    {
        proof {
            use_type_invariant(self);
        }
        match self.needs.get(role.text()) {
            Some(Some(_)) => true,
            _ => false,
        }
    }

    /// Requests `role` with the collected `key`, recording where it came from.
    pub fn collected(self, role: Role, key: Key, record: Collection) -> (r: Self)
        ensures
            r.spec_needs() == self.spec_needs().insert(role@, Some(key@)),
            r.spec_requests() == self.spec_requests(),
            r.spec_provenance() == self.spec_provenance().push(record),
            r.spec_source() == self.spec_source(),
            r.spec_payload() == self.spec_payload(),
    {
        let explicit = self.explicit(role, key);
        proof {
            use_type_invariant(&explicit);
        }
        let Candidate { needs, mut provenance, requests, source, payload } = explicit;
        provenance.push(record);
        Candidate { needs, provenance, requests, source, payload }
    }

    /// Attaches a source location.
    pub fn source(self, source: Source) -> (r: Self)
        ensures
            r.spec_needs() == self.spec_needs(),
            r.spec_requests() == self.spec_requests(),
            r.spec_provenance() == self.spec_provenance(),
            r.spec_source() == Some(source),
            r.spec_payload() == self.spec_payload(),
    {
        proof {
            use_type_invariant(&self);
        }
        let Candidate { needs, provenance, requests, source: _, payload } = self;
        Candidate { needs, provenance, requests, source: Some(source), payload }
    }
}

/// The outcome of an accepted append: the derived context view.
pub struct Accepted {
    context: Context,
}

impl Accepted {
    /// The acceptance of a record that derived `context`.
    pub fn new(context: Context) -> (r: Self)
        ensures
            r.spec_context() == context@,
    {
        Accepted { context }
    }

    /// The derived context view.
    pub closed spec fn spec_context(&self) -> Map<Seq<char>, Seq<char>> {
        self.context@
    }

    /// The derived context view.
    pub fn context(&self) -> (r: Context)
        ensures
            r@ == self.spec_context(),
    {
        self.context.duplicate()
    }
}

} // verus!
