//! The analyzers a product declares: identity, mapping and threshold, validated as a whole.
use crate::inspect::mapping::Mapping;
use crate::inspect::model::Threshold;
use crate::table::Table;
use crate::text::{bytes_of, control_free, decimal, decimal_text, free_of_control, free_of_space, space_free};
use vstd::prelude::*;
use vstd::string::*;

verus! {

/// One declared analyzer.
#[derive(Debug)]
pub struct Analyzer {
    pub id: String,
    pub mapping: Mapping,
    pub threshold: Threshold,
}

/// A valid analyzer identity: 1..=128 bytes, with no control or white-space character.
pub open spec fn valid_identity(id: Seq<char>) -> bool {
    &&& 1 <= bytes_of(id).len() <= 128
    &&& control_free(id)
    &&& space_free(id)
}

/// The message refusing an invalid analyzer identity.
pub open spec fn identity_refusal() -> Seq<char> {
    "analyzer identity must contain 1..=128 non-whitespace bytes"@
}

/// The message refusing an identity declared twice.
pub open spec fn duplicate_refusal(id: Seq<char>) -> Seq<char> {
    "duplicate analyzer identity: "@ + id
}

/// The message refusing a declaration of another version than 1.
pub open spec fn version_refusal(source: Seq<char>, version: u16) -> Seq<char> {
    "invalid "@ + source + ": unsupported version "@ + decimal_text(version as nat)
}

/// The first fault among declared identities, in order: an invalid identity, or one that an
/// earlier analyzer already declared.
pub open spec fn identity_fault(ids: Seq<Seq<char>>) -> Option<Seq<char>>
    decreases ids.len(),
{
    if ids.len() == 0 {
        None
    } else {
        match identity_fault(ids.drop_last()) {
            Some(m) => Some(m),
            None => {
                let id = ids.last();
                if !valid_identity(id) {
                    Some(identity_refusal())
                } else if ids.drop_last().contains(id) {
                    Some(duplicate_refusal(id))
                } else {
                    None
                }
            },
        }
    }
}

/// Checks one analyzer identity.
pub fn validate(identity: &str) -> (r: Result<(), String>)
    ensures
        r is Ok <==> valid_identity(identity@),
        r matches Err(m) ==> m@ == identity_refusal(),
{
    let n = identity.as_bytes().len();
    if n == 0 || n > 128 || !free_of_control(identity) || !free_of_space(identity) {
        return Err("analyzer identity must contain 1..=128 non-whitespace bytes".to_owned());
    }
    Ok(())
}

/// The identities of a sequence of analyzers.
pub open spec fn ids_of(analyzers: Seq<Analyzer>) -> Seq<Seq<char>> {
    analyzers.map_values(|a: Analyzer| a.id@)
}

/// A validated declaration: the analyzers in declaration order, identities valid and distinct.
#[derive(Debug)]
pub struct Config {
    analyzers: Vec<Analyzer>,
}

impl Config {
    #[verifier::type_invariant]
    spec fn valid(&self) -> bool {
        identity_fault(ids_of(self.analyzers@)) is None
    }

    /// The analyzers, in declaration order.
    pub closed spec fn spec_analyzers(&self) -> Seq<Analyzer> {
        self.analyzers@
    }

    /// A declaration of `version` read from `source` with the given analyzers; refused for a
    /// version other than 1, then at the first invalid or repeated identity.
    pub fn load(source: &str, version: u16, analyzers: Vec<Analyzer>) -> (r: Result<Self, String>)
        ensures
            r is Ok <==> version == 1 && identity_fault(ids_of(analyzers@)) is None,
            r matches Ok(c) ==> c.spec_analyzers() == analyzers@,
            version != 1 ==> (r matches Err(m) && m@ == version_refusal(source@, version)),
            version == 1 ==> (identity_fault(ids_of(analyzers@)) matches Some(f) ==> (r matches Err(
                m,
            ) && m@ == f)),
    {
        if version != 1 {
            let mut m = "invalid ".to_owned();
            m.append(source);
            m.append(": unsupported version ");
            let v = decimal(version as u64);
            m.append(v.as_str());
            return Err(m);
        }
        let ghost ids = ids_of(analyzers@);
        let mut seen: Table<()> = Table::new();
        let mut i: usize = 0;
        while i < analyzers.len()
            invariant
                seen.wf(),
                version == 1,
                ids == ids_of(analyzers@),
                i <= analyzers@.len(),
                identity_fault(ids.subrange(0, i as int)) is None,
                forall|k: Seq<char>| #[trigger] seen@.contains_key(k) <==> ids.subrange(0, i as int).contains(k),
            decreases analyzers@.len() - i,
        {
            let id = analyzers[i].id.as_str();
            let ghost t = ids.subrange(0, i + 1);
            proof {
                assert(t.drop_last() =~= ids.subrange(0, i as int));
                assert(t.last() == id@);
            }
            match validate(id) {
                Ok(()) => {},
                Err(m) => {
                    proof {
                        lemma_fault_extends(ids, i as int + 1);
                    }
                    return Err(m);
                },
            }
            if seen.find(id).is_some() {
                let mut m = "duplicate analyzer identity: ".to_owned();
                m.append(id);
                proof {
                    lemma_fault_extends(ids, i as int + 1);
                }
                return Err(m);
            }
            seen.put(id.to_owned(), ());
            proof {
                assert forall|k: Seq<char>| #[trigger] seen@.contains_key(k) <==> t.contains(k) by {
                    if t.contains(k) && k != id@ {
                        let j = choose|j: int| 0 <= j < t.len() && t[j] == k;
                        assert(ids.subrange(0, i as int)[j] == k);
                    }
                    if ids.subrange(0, i as int).contains(k) {
                        let j = choose|j: int| 0 <= j < i && ids.subrange(0, i as int)[j] == k;
                        assert(t[j] == k);
                    }
                    if k == id@ {
                        assert(t[i as int] == k);
                    }
                }
            }
            i = i + 1;
        }
        proof {
            assert(ids.subrange(0, analyzers@.len() as int) =~= ids);
        }
        Ok(Config { analyzers })
    }

    /// The analyzers, in declaration order.
    pub fn analyzers(&self) -> (r: &Vec<Analyzer>)
        ensures
            r@ == self.spec_analyzers(),
    {
        &self.analyzers
    }

    /// Gives up the analyzers, in declaration order.
    pub fn into_analyzers(self) -> (r: Vec<Analyzer>)
        ensures
            r@ == self.spec_analyzers(),
            identity_fault(ids_of(r@)) is None,
    {
        proof {
            use_type_invariant(&self);
        }
        let Config { analyzers } = self;
        analyzers
    }

    /// The identities of the analyzers, in declaration order.
    pub fn coverage(&self) -> (r: Vec<String>)
        ensures
            r@.map_values(|s: String| s@) == ids_of(self.spec_analyzers()),
    {
        let mut out: Vec<String> = Vec::new();
        let mut i: usize = 0;
        while i < self.analyzers.len()
            invariant
                i <= self.analyzers@.len(),
                out@.map_values(|s: String| s@) == ids_of(self.analyzers@).subrange(0, i as int),
            decreases self.analyzers@.len() - i,
        {
            let ghost before = out@;
            let id = self.analyzers[i].id.clone();
            assert(id@ == ids_of(self.analyzers@)[i as int]);
            out.push(id);
            assert(out@ == before.push(id));
            assert(out@.map_values(|s: String| s@) =~= before.map_values(|s: String| s@).push(id@));
            i = i + 1;
            assert(out@.map_values(|s: String| s@) =~= ids_of(self.analyzers@).subrange(0, i as int));
        }
        assert(ids_of(self.analyzers@).subrange(0, i as int) =~= ids_of(self.analyzers@));
        out
    }
}

/// A fault among the first identities is the fault of any longer run.
pub proof fn lemma_fault_extends(ids: Seq<Seq<char>>, n: int)
    requires
        0 <= n <= ids.len(),
        identity_fault(ids.subrange(0, n)) is Some,
    ensures
        identity_fault(ids) == identity_fault(ids.subrange(0, n)),
    decreases ids.len() - n,
{
    if n < ids.len() {
        let t = ids.subrange(0, n + 1);
        assert(t.drop_last() =~= ids.subrange(0, n));
        lemma_fault_extends(ids, n + 1);
    } else {
        assert(ids.subrange(0, n) =~= ids);
    }
}

} // verus!
