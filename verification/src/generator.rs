//! Generators: how a role that is neither given nor inherited gets a key. A random generator
//! draws sixteen bytes; a shared-file generator publishes one stored key that every engine
//! reading the same path then uses.
use crate::atom::Payload;
use crate::context::{key_refusal, valid_key, Key};
use crate::error::{Error, Kind};
use crate::options::{find_member, fits_fields, fits_schema, member, member_keys, text_of, text_value};
use crate::table::Table;
use crate::text::{ascii_string, bytes_of, control_free, decimal, decimal_text, lemma_ascii_chars, same};
use vstd::prelude::*;
use vstd::string::*;

verus! {

/// A generator named with its options.
#[derive(Debug)]
pub struct Spec {
    name: String,
    options: Payload,
}

impl Spec {
    /// The generator name.
    pub closed spec fn spec_name(&self) -> Seq<char> {
        self.name@
    }

    /// The generator options.
    pub closed spec fn spec_options(&self) -> Payload {
        self.options
    }

    /// A spec naming generator `name` with `options`.
    pub fn new(name: &str, options: Payload) -> (r: Self)
        ensures
            r.spec_name() == name@,
            r.spec_options() == options,
    {
        Spec { name: name.to_owned(), options }
    }

    /// The random generator.
    pub fn random() -> (r: Self)
        ensures
            r.spec_name() == "random"@,
            r.spec_options() matches Payload::Object(m) && m@.len() == 0,
    {
        Spec::new("random", Payload::Object(Vec::new()))
    }

    /// The shared-file generator storing its key at `path`.
    pub fn shared(path: &str) -> (r: Self)
        ensures
            r.spec_name() == "shared-file"@,
            r.spec_options() matches Payload::Object(m) && member_keys(m@) == seq!["path"@] && (member(
                m@,
                "path"@,
            ) matches Some(Payload::Text(t)) && t@ == path@),
    {
        let members = vec![("path".to_owned(), Payload::Text(path.to_owned()))];
        proof {
            reveal_with_fuel(member, 2);
            assert(member_keys(members@) =~= seq!["path"@]);
        }
        Spec::new("shared-file", Payload::Object(members))
    }

    /// The generator name.
    pub fn name(&self) -> (r: &str)
        ensures
            r@ == self.spec_name(),
    {
        self.name.as_str()
    }

    /// The generator options.
    pub fn options(&self) -> (r: &Payload)
        ensures
            *r == self.spec_options(),
    {
        &self.options
    }
}

/// A validated generator.
#[derive(Debug)]
pub enum Generator {
    Random,
    Shared { path: String },
}

/// The refusal of generator options that are not exactly `fields`.
pub open spec fn exact_fault(options: Payload, fields: Seq<Seq<char>>) -> Option<Seq<char>> {
    match options {
        Payload::Object(m) => if fits_schema(member_keys(m@), fields) {
            None
        } else {
            Some("generator options do not match its schema"@)
        },
        _ => Some("generator options must be an object"@),
    }
}

/// The first refusal of a generator spec.
pub open spec fn generator_fault(name: Seq<char>, options: Payload) -> Option<Seq<char>> {
    if name == "random"@ {
        exact_fault(options, Seq::empty())
    } else if name == "shared-file"@ {
        if exact_fault(options, seq!["path"@]) is Some {
            exact_fault(options, seq!["path"@])
        } else {
            match options {
                Payload::Object(m) => if text_value(member(m@, "path"@)) is None {
                    Some("shared-file generator requires path"@)
                } else {
                    None
                },
                _ => None,
            }
        }
    } else {
        Some("unknown generator: "@ + name)
    }
}

/// Whether `g` is the generator a spec without fault builds.
pub open spec fn generates(name: Seq<char>, options: Payload, g: Generator) -> bool {
    if name == "random"@ {
        g is Random
    } else {
        options matches Payload::Object(m) && g matches Generator::Shared { path } && text_value(
            member(m@, "path"@),
        ) == Some(path@)
    }
}

fn exact(options: &Payload, fields: Vec<&str>) -> (r: Result<(), Error>)
    ensures
        match exact_fault(*options, fields@.map_values(|f: &str| f@)) {
            Some(f) => r matches Err(e) && e@ == (Kind::Config, f),
            None => r is Ok,
        },
{
    match options {
        Payload::Object(members) => if fits_fields(members, &fields) {
            Ok(())
        } else {
            Err(Error::config("generator options do not match its schema".to_owned()))
        },
        _ => Err(Error::config("generator options must be an object".to_owned())),
    }
}

/// Validates a generator spec.
pub fn build(spec: &Spec) -> (r: Result<Generator, Error>)
    ensures
        match generator_fault(spec.spec_name(), spec.spec_options()) {
            Some(f) => r matches Err(e) && e@ == (Kind::Config, f),
            None => r matches Ok(g) && generates(spec.spec_name(), spec.spec_options(), g),
        },
{
    proof {
        reveal_strlit("random");
        reveal_strlit("shared-file");
    }
    let name = spec.name();
    if same(name, "random") {
        let fields: Vec<&str> = Vec::new();
        proof {
            assert(fields@.map_values(|f: &str| f@) =~= Seq::<Seq<char>>::empty());
        }
        exact(spec.options(), fields)?;
        Ok(Generator::Random)
    } else if same(name, "shared-file") {
        let fields: Vec<&str> = vec!["path"];
        proof {
            assert(fields@.map_values(|f: &str| f@) =~= seq!["path"@]);
        }
        exact(spec.options(), fields)?;
        let members = match spec.options() {
            Payload::Object(m) => m,
            _ => {
                return Err(Error::config("generator options must be an object".to_owned()));
            },
        };
        match text_of(find_member(members, "path")) {
            Some(path) => Ok(Generator::Shared { path }),
            None => Err(Error::config("shared-file generator requires path".to_owned())),
        }
    } else {
        let mut m = "unknown generator: ".to_owned();
        m.append(name);
        Err(Error::config(m))
    }
}

/// The first refusal among generators, roles in key order.
pub open spec fn roles_fault(entries: Seq<(Seq<char>, Spec)>) -> Option<Seq<char>>
    decreases entries.len(),
{
    if entries.len() == 0 {
        None
    } else if roles_fault(entries.drop_last()) is Some {
        roles_fault(entries.drop_last())
    } else {
        generator_fault(entries.last().1.spec_name(), entries.last().1.spec_options())
    }
}

pub proof fn lemma_roles_fault_extends(entries: Seq<(Seq<char>, Spec)>, n: int)
    requires
        0 <= n <= entries.len(),
        roles_fault(entries.subrange(0, n)) is Some,
    ensures
        roles_fault(entries) == roles_fault(entries.subrange(0, n)),
    decreases entries.len() - n,
{
    if n < entries.len() {
        let t = entries.subrange(0, n + 1);
        assert(t.drop_last() =~= entries.subrange(0, n));
        lemma_roles_fault_extends(entries, n + 1);
    } else {
        assert(entries.subrange(0, n) =~= entries);
    }
}

/// Validates the generator of each role, roles in key order.
pub fn roles(specs: &Table<Spec>) -> (r: Result<Table<Generator>, Error>)
    requires
        specs.wf(),
    ensures
        match roles_fault(specs.entries().map_values(|e: (String, Spec)| (e.0@, e.1))) {
            Some(f) => r matches Err(e) && e@ == (Kind::Config, f),
            None => r matches Ok(t) && t.wf() && t@.dom() == specs@.dom() && forall|k: Seq<char>|
                #[trigger] t@.contains_key(k) ==> generates(
                    specs@[k].spec_name(),
                    specs@[k].spec_options(),
                    t@[k],
                ),
        },
{
    let ghost entries = specs.entries().map_values(|e: (String, Spec)| (e.0@, e.1));
    let mut out: Table<Generator> = Table::new();
    let mut i: usize = 0;
    while i < specs.len()
        invariant
            specs.wf(),
            out.wf(),
            entries == specs.entries().map_values(|e: (String, Spec)| (e.0@, e.1)),
            i <= entries.len(),
            roles_fault(entries.subrange(0, i as int)) is None,
            forall|k: Seq<char>| #[trigger] out@.contains_key(k) <==> exists|j: int| 0 <= j < i && entries[j].0 == k,
            forall|k: Seq<char>|
                #[trigger] out@.contains_key(k) ==> specs@.contains_key(k) && generates(
                    specs@[k].spec_name(),
                    specs@[k].spec_options(),
                    out@[k],
                ),
        decreases entries.len() - i,
    {
        proof {
            let t = entries.subrange(0, i + 1);
            assert(t.drop_last() =~= entries.subrange(0, i as int));
            crate::table::lemma_map_at(specs.entries(), i as int);
        }
        let role = specs.key_at(i);
        match build(specs.value_at(i)) {
            Ok(g) => {
                let ghost before = out@;
                out.put(role.clone(), g);
                proof {
                    assert forall|k: Seq<char>| #[trigger] out@.contains_key(k) <==> exists|j: int|
                        0 <= j < i + 1 && entries[j].0 == k by {
                        if k == role@ {
                            assert(entries[i as int].0 == k);
                        }
                        if exists|j: int| 0 <= j < i + 1 && entries[j].0 == k {
                            let j = choose|j: int| 0 <= j < i + 1 && entries[j].0 == k;
                            if j < i {
                                assert(before.contains_key(k));
                            }
                        }
                    }
                }
            },
            Err(e) => {
                proof {
                    lemma_roles_fault_extends(entries, i as int + 1);
                }
                return Err(e);
            },
        }
        i = i + 1;
    }
    proof {
        assert(entries.subrange(0, entries.len() as int) =~= entries);
        assert forall|k: Seq<char>| specs@.dom().contains(k) implies #[trigger] out@.dom().contains(k) by {
            let j = crate::table::pick(specs.entries(), k);
            assert(entries[j].0 == k);
        }
        assert(out@.dom() =~= specs@.dom());
    }
    Ok(out)
}

/// The lowercase hexadecimal digit of a value below sixteen.
pub open spec fn hex_digit(d: u8) -> u8 {
    if d < 10 {
        (48 + d) as u8
    } else {
        (87 + d) as u8
    }
}

/// Each byte as two lowercase hexadecimal digits, high half first.
pub open spec fn hex_bytes(b: Seq<u8>) -> Seq<u8>
    decreases b.len(),
{
    if b.len() == 0 {
        Seq::empty()
    } else {
        hex_bytes(b.drop_last()) + seq![hex_digit(b.last() / 16), hex_digit(b.last() % 16)]
    }
}

pub proof fn lemma_hex_bytes(b: Seq<u8>)
    ensures
        hex_bytes(b).len() == 2 * b.len(),
        forall|i: int|
            0 <= i < hex_bytes(b).len() ==> (48 <= #[trigger] hex_bytes(b)[i] <= 57 || 97
                <= hex_bytes(b)[i] <= 102),
    decreases b.len(),
{
    if b.len() > 0 {
        lemma_hex_bytes(b.drop_last());
    }
}

/// The key that renders sixteen bytes in lowercase hexadecimal.
pub fn hex(bytes: &[u8; 16]) -> (r: Key)
    ensures
        bytes_of(r@) == hex_bytes(bytes@),
        r@.len() == 32,
{
    let mut out: Vec<u8> = Vec::new();
    let mut i: usize = 0;
    while i < 16
        invariant
            bytes@.len() == 16,
            i <= 16,
            out@ == hex_bytes(bytes@.take(i as int)),
        decreases 16 - i,
    {
        let b = bytes[i];
        let high = b / 16;
        let low = b % 16;
        out.push(if high < 10 { 48 + high } else { 87 + high });
        out.push(if low < 10 { 48 + low } else { 87 + low });
        proof {
            let t = bytes@.take(i + 1);
            assert(t.drop_last() =~= bytes@.take(i as int));
            assert(out@ =~= hex_bytes(t));
        }
        i = i + 1;
    }
    assert(bytes@.take(16) =~= bytes@);
    proof {
        lemma_hex_bytes(bytes@);
    }
    let text = ascii_string(out);
    proof {
        lemma_ascii_chars(text@, hex_bytes(bytes@));
        assert(control_free(text@));
    }
    Key::trusted(text)
}

/// A fresh random key: sixteen random bytes in lowercase hexadecimal, or a generator refusal
/// when the random source fails.
pub fn random() -> (r: Result<Key, Error>)
    ensures
        r matches Ok(k) ==> exists|b: Seq<u8>| b.len() == 16 && bytes_of(k@) == hex_bytes(b),
        r matches Err(e) ==> e@.0 == Kind::Generator && exists|d: Seq<char>|
            e@.1 == "random generator failed: "@ + d,
{
    let mut bytes = [0u8; 16];
    match crate::entropy::fill(&mut bytes) {
        Ok(()) => Ok(hex(&bytes)),
        Err(detail) => {
            let mut m = "random generator failed: ".to_owned();
            m.append(detail.as_str());
            Err(Error::generator(m))
        },
    }
}

/// What reading a shared key file gave.
#[derive(Debug)]
pub enum Stored {
    /// No file is there.
    Missing,
    /// The file could not be read, for the reason given.
    Unreadable(String),
    /// The file does not hold a key record, for the reason given.
    Malformed(String),
    /// The record the file holds.
    Record { version: u8, key: String },
}

/// Why a shared key could not be read.
#[derive(Debug)]
pub enum Fault {
    /// The stored key is unusable, with the message that says why.
    Broken(String),
    /// No key is stored.
    Missing,
}

/// What a read of `path` yields: the stored key, or the fault.
pub open spec fn stored_outcome(path: Seq<char>, stored: Stored) -> Result<Seq<char>, Option<Seq<char>>> {
    match stored {
        Stored::Missing => Err(None),
        Stored::Unreadable(e) => Err(Some("cannot read shared key "@ + path + ": "@ + e@)),
        Stored::Malformed(e) => Err(Some("invalid shared key "@ + path + ": "@ + e@)),
        Stored::Record { version, key } => if version != 1 {
            Err(
                Some(
                    "unsupported shared key version "@ + decimal_text(version as nat) + " in "@
                        + path,
                ),
            )
        } else if !valid_key(key@) {
            Err(Some("invalid shared key "@ + path + ": "@ + key_refusal(key@)))
        } else {
            Ok(key@)
        },
    }
}

/// Reads what a shared key file gave: the stored key when its record is version 1 and holds a
/// valid key; otherwise the fault.
pub fn read(path: &str, stored: Stored) -> (r: Result<Key, Fault>)
    ensures
        match stored_outcome(path@, stored) {
            Ok(k) => r matches Ok(key) && key@ == k,
            Err(None) => r matches Err(Fault::Missing),
            Err(Some(m)) => r matches Err(Fault::Broken(b)) && b@ == m,
        },
{
    match stored {
        Stored::Missing => Err(Fault::Missing),
        Stored::Unreadable(e) => {
            let mut m = "cannot read shared key ".to_owned();
            m.append(path);
            m.append(": ");
            m.append(e.as_str());
            Err(Fault::Broken(m))
        },
        Stored::Malformed(e) => {
            let mut m = "invalid shared key ".to_owned();
            m.append(path);
            m.append(": ");
            m.append(e.as_str());
            Err(Fault::Broken(m))
        },
        Stored::Record { version, key } => {
            if version != 1 {
                let mut m = "unsupported shared key version ".to_owned();
                let v = decimal(version as u64);
                m.append(v.as_str());
                m.append(" in ");
                m.append(path);
                return Err(Fault::Broken(m));
            }
            match Key::new(key.as_str()) {
                Ok(k) => Ok(k),
                Err(e) => {
                    let mut m = "invalid shared key ".to_owned();
                    m.append(path);
                    m.append(": ");
                    m.append(e.message());
                    Err(Fault::Broken(m))
                },
            }
        },
    }
}

impl Fault {
    /// The message of the fault for `path`.
    pub fn message(self, path: &str) -> (r: String)
        ensures
            match self {
                Fault::Broken(m) => r@ == m@,
                Fault::Missing => r@ == "shared key disappeared: "@ + path@,
            },
    {
        match self {
            Fault::Broken(m) => m,
            Fault::Missing => {
                let mut m = "shared key disappeared: ".to_owned();
                m.append(path);
                m
            },
        }
    }
}

/// What creating a shared key file gave.
#[derive(Debug)]
pub enum Created {
    /// The key was published.
    Done,
    /// Another generator published first.
    Exists,
    /// Creation failed, for the reason given.
    Failed(String),
}

/// The first read of a shared key: the stored key; nothing when none is stored, so that one is
/// drawn and published; or a generator refusal for a broken one.
pub fn first_read(stored: Result<Key, Fault>) -> (r: Result<Option<Key>, Error>)
    ensures
        match stored {
            Ok(k) => r matches Ok(Some(key)) && key@ == k@,
            Err(Fault::Missing) => r matches Ok(None),
            Err(Fault::Broken(m)) => r matches Err(e) && e@ == (Kind::Generator, m@),
        },
{
    match stored {
        Ok(k) => Ok(Some(k)),
        Err(Fault::Missing) => Ok(None),
        Err(Fault::Broken(m)) => Err(Error::generator(m)),
    }
}

/// After publishing `key` at `path`: the key once published; nothing when another generator
/// published first, so that its key is read again; or a generator refusal.
pub fn published(path: &str, key: Key, created: Created) -> (r: Result<Option<Key>, Error>)
    ensures
        match created {
            Created::Done => r matches Ok(Some(k)) && k@ == key@,
            Created::Exists => r matches Ok(None),
            Created::Failed(e) => r matches Err(x) && x@ == (
                Kind::Generator,
                "cannot create shared key "@ + path@ + ": "@ + e@,
            ),
        },
{
    match created {
        Created::Done => Ok(Some(key)),
        Created::Exists => Ok(None),
        Created::Failed(e) => {
            let mut m = "cannot create shared key ".to_owned();
            m.append(path);
            m.append(": ");
            m.append(e.as_str());
            Err(Error::generator(m))
        },
    }
}

/// The second read of a shared key, after another generator published it: the stored key, or
/// a generator refusal with the fault's message.
pub fn reread(path: &str, stored: Result<Key, Fault>) -> (r: Result<Key, Error>)
    ensures
        match stored {
            Ok(k) => r matches Ok(key) && key@ == k@,
            Err(Fault::Missing) => r matches Err(e) && e@ == (
                Kind::Generator,
                "shared key disappeared: "@ + path@,
            ),
            Err(Fault::Broken(m)) => r matches Err(e) && e@ == (Kind::Generator, m@),
        },
{
    match stored {
        Ok(k) => Ok(k),
        Err(fault) => Err(Error::generator(fault.message(path))),
    }
}

} // verus!
