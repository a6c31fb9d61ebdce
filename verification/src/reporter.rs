//! Reporters: the Locus-owned sinks an engine hands accepted records to.
use crate::atom::Payload;
use crate::error::{Error, Kind};
use crate::options::{find_member, fits_fields, fits_schema, member, member_keys, text_of, text_value};
use crate::text::same;
use vstd::prelude::*;
use vstd::string::*;

verus! {

/// A reporter named with its options.
#[derive(Debug)]
pub struct Spec {
    name: String,
    options: Payload,
}

impl Spec {
    /// The reporter name.
    pub closed spec fn spec_name(&self) -> Seq<char> {
        self.name@
    }

    /// The reporter options.
    pub closed spec fn spec_options(&self) -> Payload {
        self.options
    }

    /// A spec naming reporter `name` with `options`.
    pub fn new(name: &str, options: Payload) -> (r: Self)
        ensures
            r.spec_name() == name@,
            r.spec_options() == options,
    {
        Spec { name: name.to_owned(), options }
    }

    /// The file reporter appending to `path`.
    pub fn file(path: &str) -> (r: Self)
        ensures
            r.spec_name() == "file"@,
            r.spec_options() matches Payload::Object(m) && member_keys(m@) == seq!["path"@] && (member(
                m@,
                "path"@,
            ) matches Some(Payload::Text(t)) && t@ == path@),
    {
        let members = vec![("path".to_owned(), Payload::Text(path.to_owned()))];
        proof {
            reveal_with_fuel(member, 2);
            assert(member_keys(members@) =~= seq!["path"@]);
        }
        Spec::new("file", Payload::Object(members))
    }

    /// The reporter name.
    pub fn name(&self) -> (r: &str)
        ensures
            r@ == self.spec_name(),
    {
        self.name.as_str()
    }

    /// The reporter options.
    pub fn options(&self) -> (r: &Payload)
        ensures
            *r == self.spec_options(),
    {
        &self.options
    }
}

/// A validated reporter.
#[derive(Debug)]
pub enum Reporter {
    /// Appends each record as one line to the file at `path`.
    File { path: String },
}

/// The first refusal of a reporter spec.
pub open spec fn reporter_fault(name: Seq<char>, options: Payload) -> Option<Seq<char>> {
    if name != "file"@ {
        Some("unknown reporter: "@ + name)
    } else {
        match options {
            Payload::Object(m) => if !fits_schema(member_keys(m@), seq!["path"@]) {
                Some("file reporter options do not match its schema"@)
            } else if text_value(member(m@, "path"@)) is None {
                Some("file reporter requires path"@)
            } else {
                None
            },
            _ => Some("file reporter options must be an object"@),
        }
    }
}

/// Validates a reporter spec.
pub fn build(spec: &Spec) -> (r: Result<Reporter, Error>)
    ensures
        match reporter_fault(spec.spec_name(), spec.spec_options()) {
            Some(f) => r matches Err(e) && e@ == (Kind::Config, f),
            None => r matches Ok(Reporter::File { path }) && spec.spec_options() matches Payload::Object(
                m,
            ) && text_value(member(m@, "path"@)) == Some(path@),
        },
{
    proof {
        reveal_strlit("file");
    }
    let name = spec.name();
    if !same(name, "file") {
        let mut m = "unknown reporter: ".to_owned();
        m.append(name);
        return Err(Error::config(m));
    }
    let members = match spec.options() {
        Payload::Object(m) => m,
        _ => return Err(Error::config("file reporter options must be an object".to_owned())),
    };
    let fields: Vec<&str> = vec!["path"];
    proof {
        assert(fields@.map_values(|f: &str| f@) =~= seq!["path"@]);
    }
    if !fits_fields(members, &fields) {
        return Err(Error::config("file reporter options do not match its schema".to_owned()));
    }
    match text_of(find_member(members, "path")) {
        Some(path) => Ok(Reporter::File { path }),
        None => Err(Error::config("file reporter requires path".to_owned())),
    }
}

} // verus!
