//! Exact role query over a record stream: enumerate the keys bound to one role, or replay the
//! records that bind one exact key, in input order.
use crate::atom::Atom;
use crate::context::{valid_key, valid_role, Key, Role};
use crate::table::{Table, lemma_map_at};
use vstd::prelude::*;

verus! {

/// The role, and optionally the key, that a query selects.
pub struct Selector {
    role: Role,
    key: Option<Key>,
}

impl Selector {
    /// The selected role.
    pub closed spec fn spec_role(&self) -> Seq<char> {
        self.role@
    }

    /// The selected key, if any.
    pub closed spec fn spec_key(&self) -> Option<Seq<char>> {
        match self.key {
            Some(k) => Some(k@),
            None => None,
        }
    }

    /// A selector of `role` and, optionally, `key`; refused with the message of the role's or the
    /// key's refusal.
    pub fn new(role: &str, key: Option<&str>) -> (r: Result<Self, String>)
        ensures
            r is Ok <==> valid_role(role@) && match key {
                Some(k) => valid_key(k@),
                None => true,
            },
            r matches Ok(s) ==> s.spec_role() == role@ && s.spec_key() == match key {
                Some(k) => Some(k@),
                None => None::<Seq<char>>,
            },
            r matches Err(m) ==> if !valid_role(role@) {
                m@ == crate::context::role_refusal(role@)
            } else {
                m@ == crate::context::key_refusal(key->0@)
            },
    {
        let role = match Role::new(role) {
            Ok(r) => r,
            Err(e) => return Err(e.message().to_owned()),
        };
        let key = match key {
            Some(k) => match Key::new(k) {
                Ok(k) => Some(k),
                Err(e) => return Err(e.message().to_owned()),
            },
            None => None,
        };
        Ok(Selector { role, key })
    }

    /// The selected role.
    pub fn role(&self) -> (r: &Role)
        ensures
            r@ == self.spec_role(),
    {
        &self.role
    }

    /// The selected key.
    pub fn key(&self) -> (r: Option<&Key>)
        ensures
            r is Some <==> self.spec_key() is Some,
            r matches Some(k) ==> k@ == self.spec_key()->0,
    {
        match &self.key {
            Some(k) => Some(k),
            None => None,
        }
    }
}

/// The message refusing a count of one identity's records past `u64::MAX`.
pub open spec fn identity_overflow() -> Seq<char> {
    "identity record count overflowed"@
}

/// The message refusing a count of matched records past `u64::MAX`.
pub open spec fn matched_overflow() -> Seq<char> {
    "matched Atom count overflowed"@
}

/// What taking `atom` does to a query: `before` becomes `after` and the answer is `r`. A record
/// that does not bind the role is passed over; without a key, the record counts for the key it
/// binds; with a key, a record binding that key is kept. Counts refuse to pass `u64::MAX`.
pub open spec fn query_observes(before: Query, atom: Atom, r: Result<(), String>, after: Query) -> bool {
    &&& (after.spec_role() == before.spec_role())
    &&& (after.spec_key() == before.spec_key())
    &&& (!atom.spec_context().contains_key(before.spec_role()) ==> {
        &&& r is Ok
        &&& after.spec_identities() == before.spec_identities()
        &&& after.spec_atoms() == before.spec_atoms()
        &&& after.spec_matched() == before.spec_matched()
    })
    &&& (atom.spec_context().contains_key(before.spec_role()) ==> {
        let key = atom.spec_context()[before.spec_role()];
        let ids = before.spec_identities();
        let count = if ids.contains_key(key) {
            ids[key]
        } else {
            0
        };
        match before.spec_key() {
            None => if count == u64::MAX {
                r matches Err(m) && m@ == identity_overflow()
            } else if before.spec_matched() == u64::MAX {
                r matches Err(m) && m@ == matched_overflow()
            } else {
                &&& r is Ok
                &&& after.spec_identities() == ids.insert(key, (count + 1) as u64)
                &&& after.spec_matched() == before.spec_matched() + 1
                &&& after.spec_atoms() == before.spec_atoms()
            },
            Some(selected) => if selected != key {
                &&& r is Ok
                &&& after.spec_identities() == ids
                &&& after.spec_atoms() == before.spec_atoms()
                &&& after.spec_matched() == before.spec_matched()
            } else if before.spec_matched() == u64::MAX {
                r matches Err(m) && m@ == matched_overflow()
            } else {
                &&& r is Ok
                &&& after.spec_identities() == ids
                &&& after.spec_atoms() == before.spec_atoms().push(atom)
                &&& after.spec_matched() == before.spec_matched() + 1
            },
        }
    })
}

/// The sum of the counts.
pub open spec fn total(counts: Seq<(Seq<char>, u64)>) -> int
    decreases counts.len(),
{
    if counts.len() == 0 {
        0
    } else {
        total(counts.drop_last()) + counts.last().1
    }
}

/// The keys and counts a table holds, in its order.
pub open spec fn counts_of(entries: Seq<(String, u64)>) -> Seq<(Seq<char>, u64)> {
    entries.map_values(|e: (String, u64)| (e.0@, e.1))
}

proof fn lemma_total_update(s: Seq<(Seq<char>, u64)>, i: int, e: (Seq<char>, u64))
    requires
        0 <= i < s.len(),
    ensures
        total(s.update(i, e)) == total(s) - s[i].1 + e.1,
    decreases s.len(),
{
    if i == s.len() - 1 {
        assert(s.update(i, e).drop_last() =~= s.drop_last());
    } else {
        lemma_total_update(s.drop_last(), i, e);
        assert(s.update(i, e).drop_last() =~= s.drop_last().update(i, e));
    }
}

proof fn lemma_total_insert(s: Seq<(Seq<char>, u64)>, i: int, e: (Seq<char>, u64))
    requires
        0 <= i <= s.len(),
    ensures
        total(s.insert(i, e)) == total(s) + e.1,
    decreases s.len(),
{
    if i == s.len() {
        assert(s.insert(i, e).drop_last() =~= s);
    } else {
        lemma_total_insert(s.drop_last(), i, e);
        assert(s.insert(i, e).drop_last() =~= s.drop_last().insert(i, e));
    }
}

/// A query while the records stream in.
pub struct Query {
    selector: Selector,
    identities: Table<u64>,
    atoms: Vec<Atom>,
    matched: u64,
}

impl Query {
    #[verifier::type_invariant]
    spec fn valid(&self) -> bool {
        &&& self.identities.wf()
        &&& self.selector.key is Some ==> self.identities@ == Map::<Seq<char>, u64>::empty()
        &&& self.selector.key is None ==> self.atoms@.len() == 0
        &&& self.selector.key is None ==> self.matched == total(counts_of(self.identities.entries()))
    }

    /// The selected role.
    pub closed spec fn spec_role(&self) -> Seq<char> {
        self.selector.spec_role()
    }

    /// The selected key, if any.
    pub closed spec fn spec_key(&self) -> Option<Seq<char>> {
        self.selector.spec_key()
    }

    /// How many records bind each key of the role; kept when no key is selected.
    pub closed spec fn spec_identities(&self) -> Map<Seq<char>, u64> {
        self.identities@
    }

    /// The records that bind the selected key, in input order.
    pub closed spec fn spec_atoms(&self) -> Seq<Atom> {
        self.atoms@
    }

    /// How many records matched.
    pub closed spec fn spec_matched(&self) -> u64 {
        self.matched
    }

    /// A query that has seen no record.
    pub fn new(selector: Selector) -> (r: Self)
        ensures
            r.spec_role() == selector.spec_role(),
            r.spec_key() == selector.spec_key(),
            r.spec_identities() == Map::<Seq<char>, u64>::empty(),
            r.spec_atoms() == Seq::<Atom>::empty(),
            r.spec_matched() == 0,
    {
        Query { selector, identities: Table::new(), atoms: Vec::new(), matched: 0 }
    }

    /// Takes one record into the query. A record that does not bind the role is passed over.
    /// Without a key, the record counts for the key it binds; with a key, a record binding that
    /// key is kept. Counts refuse to pass `u64::MAX`.
    pub fn observe(&mut self, atom: Atom) -> (r: Result<(), String>)
        ensures
            query_observes(*old(self), atom, r, *final(self)),
    {
        proof {
            use_type_invariant(&*self);
        }
        let context = atom.context();
        let key = match context.get(self.selector.role.text()) {
            Some(k) => k.clone(),
            None => return Ok(()),
        };
        match &self.selector.key {
            None => {
                let count = match self.identities.get(key.as_str()) {
                    Some(c) => *c,
                    None => 0,
                };
                if count == u64::MAX {
                    return Err("identity record count overflowed".to_owned());
                }
                if self.matched == u64::MAX {
                    return Err("matched Atom count overflowed".to_owned());
                }
                let mut taken = Query {
                    selector: Selector { role: self.selector.role.clone(), key: None },
                    identities: Table::new(),
                    atoms: Vec::new(),
                    matched: 0,
                };
                std::mem::swap(self, &mut taken);
                proof {
                    use_type_invariant(&taken);
                }
                let Query { selector, mut identities, atoms, matched } = taken;
                let ghost before = identities.entries();
                let ghost entry = (key, (count + 1) as u64);
                identities.put(key, count + 1);
                proof {
                    let after = identities.entries();
                    let at = choose|at: int| crate::table::placed(before, after, entry, at);
                    if 0 <= at < before.len() && before[at].0@ == entry.0@ && after == before.update(
                        at,
                        entry,
                    ) {
                        lemma_map_at(before, at);
                        assert(counts_of(after) =~= counts_of(before).update(
                            at,
                            (entry.0@, entry.1),
                        ));
                        lemma_total_update(counts_of(before), at, (entry.0@, entry.1));
                    } else {
                        assert(counts_of(after) =~= counts_of(before).insert(
                            at,
                            (entry.0@, entry.1),
                        ));
                        lemma_total_insert(counts_of(before), at, (entry.0@, entry.1));
                    }
                }
                *self = Query { selector, identities, atoms, matched: matched + 1 };
                Ok(())
            },
            Some(selected) => {
                if !crate::text::same(selected.text(), key.as_str()) {
                    return Ok(());
                }
                if self.matched == u64::MAX {
                    return Err("matched Atom count overflowed".to_owned());
                }
                let mut atoms = Vec::new();
                std::mem::swap(&mut atoms, &mut self.atoms);
                atoms.push(atom);
                self.atoms = atoms;
                self.matched = self.matched + 1;
                Ok(())
            },
        }
    }

    /// Ends the query over a stream of `records` records.
    pub fn finish(self, records: u64) -> (r: Report)
        ensures
            r.spec_role() == self.spec_role(),
            r.spec_key() == self.spec_key(),
            r.spec_identities() == self.spec_identities(),
            r.spec_atoms() == self.spec_atoms(),
            r.spec_matched() == self.spec_matched(),
            r.spec_records() == records,
    {
        proof {
            use_type_invariant(&self);
        }
        let Query { selector, identities, atoms, matched } = self;
        Report { selector, identities, atoms, records, matched }
    }
}

/// How many of `atoms` bind `role`.
pub open spec fn binding(atoms: Seq<Atom>, role: Seq<char>) -> int
    decreases atoms.len(),
{
    if atoms.len() == 0 {
        0
    } else {
        binding(atoms.drop_last(), role) + if atoms.last().spec_context().contains_key(role) {
            1int
        } else {
            0int
        }
    }
}

/// How many of `atoms` bind `key` to `role`.
pub open spec fn binding_key(atoms: Seq<Atom>, role: Seq<char>, key: Seq<char>) -> int
    decreases atoms.len(),
{
    if atoms.len() == 0 {
        0
    } else {
        binding_key(atoms.drop_last(), role, key) + if atoms.last().spec_context().contains_key(role)
            && atoms.last().spec_context()[role] == key {
            1int
        } else {
            0int
        }
    }
}

/// The records among `atoms` that bind `key` to `role`, in input order.
pub open spec fn replayed(atoms: Seq<Atom>, role: Seq<char>, key: Seq<char>) -> Seq<Atom>
    decreases atoms.len(),
{
    if atoms.len() == 0 {
        Seq::empty()
    } else {
        let rest = replayed(atoms.drop_last(), role, key);
        if atoms.last().spec_context().contains_key(role) && atoms.last().spec_context()[role] == key {
            rest.push(atoms.last())
        } else {
            rest
        }
    }
}

/// The count a map holds for `key`, zero where it holds none.
pub open spec fn count_of(m: Map<Seq<char>, u64>, key: Seq<char>) -> int {
    if m.contains_key(key) {
        m[key] as int
    } else {
        0
    }
}

/// A query is a readonly projection of the whole stream: after every record was taken without
/// refusal, `matched` counts the records that bind the role and, without a key, each key's
/// count is the number of records binding it; with a key, the kept records are exactly those
/// binding it, in input order, and `matched` counts them.
pub proof fn law_query(qs: Seq<Query>, atoms: Seq<Atom>)
    requires
        qs.len() == atoms.len() + 1,
        qs[0].spec_identities() == Map::<Seq<char>, u64>::empty(),
        qs[0].spec_atoms() == Seq::<Atom>::empty(),
        qs[0].spec_matched() == 0,
        forall|i: int| 0 <= i < atoms.len() ==> query_observes(#[trigger] qs[i], atoms[i], Ok(()), qs[i + 1]),
    ensures
        qs[0].spec_key() is None ==> {
            &&& qs[atoms.len() as int].spec_matched() == binding(atoms, qs[0].spec_role())
            &&& forall|k: Seq<char>|
                #[trigger] count_of(qs[atoms.len() as int].spec_identities(), k) == binding_key(
                    atoms,
                    qs[0].spec_role(),
                    k,
                )
        },
        qs[0].spec_key() matches Some(key) ==> {
            &&& qs[atoms.len() as int].spec_matched() == binding_key(atoms, qs[0].spec_role(), key)
            &&& qs[atoms.len() as int].spec_atoms() == replayed(atoms, qs[0].spec_role(), key)
        },
    decreases atoms.len(),
{
    if atoms.len() > 0 {
        let n = atoms.len() - 1;
        let front = qs.subrange(0, n + 1);
        let head = atoms.drop_last();
        assert forall|i: int| 0 <= i < head.len() implies query_observes(#[trigger] front[i], head[i], Ok(()), front[i + 1]) by {
            assert(front[i] == qs[i] && front[i + 1] == qs[i + 1] && head[i] == atoms[i]);
        }
        law_query(front, head);
        assert(front[0] == qs[0] && front[n] == qs[n]);
        lemma_same_selection(qs, atoms, n);
        assert(query_observes(qs[n], atoms[n], Ok(()), qs[n + 1]));
        assert(atoms.last() == atoms[n]);
        let role = qs[0].spec_role();
        if qs[0].spec_key() is None {
            assert forall|k: Seq<char>| #[trigger] count_of(qs[n + 1].spec_identities(), k) == binding_key(
                atoms,
                role,
                k,
            ) by {
                assert(count_of(qs[n].spec_identities(), k) == binding_key(head, role, k));
            }
        }
    }
}

proof fn lemma_same_selection(qs: Seq<Query>, atoms: Seq<Atom>, n: int)
    requires
        qs.len() == atoms.len() + 1,
        0 <= n <= atoms.len(),
        forall|i: int| 0 <= i < atoms.len() ==> query_observes(#[trigger] qs[i], atoms[i], Ok(()), qs[i + 1]),
    ensures
        qs[n].spec_role() == qs[0].spec_role(),
        qs[n].spec_key() == qs[0].spec_key(),
    decreases n,
{
    if n > 0 {
        lemma_same_selection(qs, atoms, n - 1);
        assert(query_observes(qs[n - 1], atoms[n - 1], Ok(()), qs[n]));
    }
}

/// One key of the role and how many records bind it.
#[derive(Debug)]
pub struct Identity {
    pub role: String,
    pub key: String,
    pub records: u64,
}

/// One replayed record.
#[derive(Debug)]
pub struct Match {
    pub role: String,
    pub key: String,
    pub atom: Atom,
}

/// The summary of a query.
#[derive(Debug)]
pub struct Summary {
    pub role: String,
    pub key: Option<String>,
    pub records: u64,
    pub matched: u64,
    pub identities: usize,
}

/// One record of the query output.
#[derive(Debug)]
pub enum Record {
    Identity(Identity),
    Atom(Match),
    Summary(Summary),
}

/// `r` reports that `count` records bind `key` to `role`.
pub open spec fn reports_identity(r: Record, role: Seq<char>, key: Seq<char>, count: u64) -> bool {
    r matches Record::Identity(i) && i.role@ == role && i.key@ == key && i.records == count
}

/// `r` replays `atom` for `key` of `role`.
pub open spec fn replays(r: Record, role: Seq<char>, key: Seq<char>, atom: Atom) -> bool {
    r matches Record::Atom(m) && m.role@ == role && m.key@ == key && m.atom == atom
}

/// The complete query.
pub struct Report {
    selector: Selector,
    identities: Table<u64>,
    atoms: Vec<Atom>,
    records: u64,
    matched: u64,
}

impl Report {
    #[verifier::type_invariant]
    spec fn valid(&self) -> bool {
        &&& self.identities.wf()
        &&& self.selector.key is Some ==> self.identities@ == Map::<Seq<char>, u64>::empty()
        &&& self.selector.key is None ==> self.atoms@.len() == 0
        &&& self.selector.key is None ==> self.matched == total(counts_of(self.identities.entries()))
    }

    /// The selected role.
    pub closed spec fn spec_role(&self) -> Seq<char> {
        self.selector.spec_role()
    }

    /// The selected key.
    pub closed spec fn spec_key(&self) -> Option<Seq<char>> {
        self.selector.spec_key()
    }

    /// The count per key.
    pub closed spec fn spec_identities(&self) -> Map<Seq<char>, u64> {
        self.identities@
    }

    /// The keys in byte order, with their counts.
    pub closed spec fn spec_order(&self) -> Seq<(Seq<char>, u64)> {
        counts_of(self.identities.entries())
    }

    /// The replayed records.
    pub closed spec fn spec_atoms(&self) -> Seq<Atom> {
        self.atoms@
    }

    /// How many records matched.
    pub closed spec fn spec_matched(&self) -> u64 {
        self.matched
    }

    /// How many records the stream held.
    pub closed spec fn spec_records(&self) -> u64 {
        self.records
    }

    /// The identity coverage: the number of keys enumerated, or, for a replay, one when any record
    /// matched.
    pub open spec fn spec_coverage(&self) -> int {
        match self.spec_key() {
            None => self.spec_order().len() as int,
            Some(_) => if self.spec_atoms().len() > 0 {
                1
            } else {
                0
            },
        }
    }

    /// The output records: each key with its count in byte order, or each replayed record in
    /// input order, and the summary last. Without a key, the matched count of the summary is the
    /// sum of the counts of the keys.
    pub fn records(self) -> (r: Vec<Record>)
        ensures
            self.spec_key() is None ==> self.spec_matched() == total(self.spec_order()),
            crate::table::in_key_order(
                self.spec_order().map_values(|e: (Seq<char>, u64)| e.0),
                self.spec_identities().dom(),
            ),
            forall|i: int|
                0 <= i < self.spec_order().len() ==> self.spec_identities().contains_key(
                    (#[trigger] self.spec_order()[i]).0,
                ) && self.spec_identities()[self.spec_order()[i].0] == self.spec_order()[i].1,
            self.spec_key() is Some ==> self.spec_order().len() == 0,
            r@.len() == self.spec_order().len() + self.spec_atoms().len() + 1,
            forall|i: int|
                0 <= i < self.spec_order().len() ==> reports_identity(
                    #[trigger] r@[i],
                    self.spec_role(),
                    self.spec_order()[i].0,
                    self.spec_order()[i].1,
                ),
            self.spec_key() matches Some(k) ==> forall|i: int|
                0 <= i < self.spec_atoms().len() ==> replays(
                    #[trigger] r@[self.spec_order().len() + i],
                    self.spec_role(),
                    k,
                    self.spec_atoms()[i],
                ),
            r@.last() matches Record::Summary(s) && s.role@ == self.spec_role() && match s.key {
                Some(k) => self.spec_key() == Some(k@),
                None => self.spec_key() is None,
            } && s.records == self.spec_records() && s.matched == self.spec_matched()
                && s.identities == self.spec_coverage(),
    {
        proof {
            use_type_invariant(&self);
            let e = self.identities.entries();
            crate::table::lemma_ordered(e);
            assert(self.spec_order().map_values(|c: (Seq<char>, u64)| c.0) =~= crate::table::keys_of(e));
            assert forall|i: int| 0 <= i < self.spec_order().len() implies self.spec_identities().contains_key(
                (#[trigger] self.spec_order()[i]).0,
            ) && self.spec_identities()[self.spec_order()[i].0] == self.spec_order()[i].1 by {
                assert(self.spec_order()[i] == (e[i].0@, e[i].1));
            }
            self.identities.lemma_empty();
        }
        let ghost order = self.spec_order();
        let ghost atom_views = self.spec_atoms();
        let ghost role_view = self.spec_role();
        let ghost key_view = self.spec_key();
        let Report { selector, identities, atoms, records, matched } = self;
        let mut out: Vec<Record> = Vec::new();
        let mut i: usize = 0;
        while i < identities.len()
            invariant
                order == counts_of(identities.entries()),
                role_view == selector.role@,
                i <= order.len(),
                out@.len() == i,
                forall|q: int|
                    0 <= q < i ==> reports_identity(
                        #[trigger] out@[q],
                        role_view,
                        order[q].0,
                        order[q].1,
                    ),
            decreases order.len() - i,
        {
            out.push(
                Record::Identity(
                    Identity {
                        role: selector.role.text().to_owned(),
                        key: identities.key_at(i).clone(),
                        records: *identities.value_at(i),
                    },
                ),
            );
            i = i + 1;
        }
        let coverage = match &selector.key {
            None => identities.len(),
            Some(_) => if atoms.len() > 0 {
                1
            } else {
                0
            },
        };
        let key_text: Option<String> = match &selector.key {
            Some(k) => Some(k.text().to_owned()),
            None => None,
        };
        let mut spare = crate::span::reversed(atoms);
        let base = out.len();
        while spare.len() > 0
            invariant
                order.len() == base,
                role_view == selector.role@,
                key_view == match selector.key {
                    Some(k) => Some(k@),
                    None => None::<Seq<char>>,
                },
                selector.key is None ==> atom_views.len() == 0,
                out@.len() == base + (atom_views.len() - spare@.len()),
                spare@.len() <= atom_views.len(),
                forall|q: int|
                    0 <= q < spare@.len() ==> #[trigger] spare@[q] == atom_views[atom_views.len() - 1
                        - q],
                forall|q: int|
                    0 <= q < base ==> reports_identity(
                        #[trigger] out@[q],
                        role_view,
                        order[q].0,
                        order[q].1,
                    ),
                key_view matches Some(k) ==> forall|q: int|
                    0 <= q < atom_views.len() - spare@.len() ==> replays(
                        #[trigger] out@[base + q],
                        role_view,
                        k,
                        atom_views[q],
                    ),
            decreases spare@.len(),
        {
            let atom = spare.pop().unwrap();
            let key = match &selector.key {
                Some(k) => k.text().to_owned(),
                None => String::new(),
            };
            out.push(Record::Atom(Match { role: selector.role.text().to_owned(), key, atom }));
        }
        out.push(
            Record::Summary(
                Summary {
                    role: selector.role.text().to_owned(),
                    key: key_text,
                    records,
                    matched,
                    identities: coverage,
                },
            ),
        );
        out
    }
}

} // verus!
