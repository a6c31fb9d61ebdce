//! What a hook observes: reporter outcomes of accepted records, and engine diagnostics.
use crate::atom::Atom;
use crate::error::Error;
use vstd::prelude::*;
use vstd::string::*;

verus! {

/// What became of one accepted record's delivery.
#[derive(Clone, Copy, Debug, PartialEq, Eq, Structural)]
pub enum Status {
    Delivered,
    Failed,
    Gated,
}

/// The immutable outcome of reporting one accepted record.
#[derive(Debug)]
pub struct Outcome {
    atom: Atom,
    reporter: Option<String>,
    status: Status,
    error: Option<String>,
}

impl Outcome {
    /// The record.
    pub closed spec fn spec_atom(&self) -> Atom {
        self.atom
    }

    /// The reporter it went to, if any.
    pub closed spec fn spec_reporter(&self) -> Option<Seq<char>> {
        match self.reporter {
            Some(r) => Some(r@),
            None => None,
        }
    }

    /// What became of it.
    pub closed spec fn spec_status(&self) -> Status {
        self.status
    }

    /// Why delivery failed, if it did.
    pub closed spec fn spec_error(&self) -> Option<Seq<char>> {
        match self.error {
            Some(e) => Some(e@),
            None => None,
        }
    }

    /// An outcome of the given parts.
    pub fn new(atom: Atom, reporter: Option<String>, status: Status, error: Option<String>) -> (r: Self)
        ensures
            r.spec_atom() == atom,
            r.spec_reporter() == match reporter {
                Some(s) => Some(s@),
                None => None::<Seq<char>>,
            },
            r.spec_status() == status,
            r.spec_error() == match error {
                Some(s) => Some(s@),
                None => None::<Seq<char>>,
            },
    {
        Outcome { atom, reporter, status, error }
    }

    /// The record.
    pub fn atom(&self) -> (r: &Atom)
        ensures
            *r == self.spec_atom(),
    {
        &self.atom
    }

    /// The reporter it went to.
    pub fn reporter(&self) -> (r: Option<&str>)
        ensures
            match r {
                Some(s) => self.spec_reporter() == Some(s@),
                None => self.spec_reporter() is None,
            },
    {
        match &self.reporter {
            Some(s) => Some(s.as_str()),
            None => None,
        }
    }

    /// What became of it.
    pub fn status(&self) -> (r: &Status)
        ensures
            *r == self.spec_status(),
    {
        &self.status
    }

    /// Why delivery failed.
    pub fn error(&self) -> (r: Option<&str>)
        ensures
            match r {
                Some(s) => self.spec_error() == Some(s@),
                None => self.spec_error() is None,
            },
    {
        match &self.error {
            Some(s) => Some(s.as_str()),
            None => None,
        }
    }
}

/// An engine abnormality, handed to the hook outside reporting.
#[derive(Clone, Debug)]
pub struct Diagnostic {
    code: String,
    message: String,
}

impl View for Diagnostic {
    type V = (Seq<char>, Seq<char>);

    closed spec fn view(&self) -> (Seq<char>, Seq<char>) {
        (self.code@, self.message@)
    }
}

impl Diagnostic {
    /// A diagnostic with `code` and `message`.
    pub fn new(code: &str, message: &str) -> (r: Self)
        ensures
            r@ == (code@, message@),
    {
        Diagnostic { code: code.to_owned(), message: message.to_owned() }
    }

    /// The diagnostic that reports `error` under `code`: its message is the refusal's message.
    pub fn failure(code: &str, error: &Error) -> (r: Self)
        ensures
            r@ == (code@, error@.1),
    {
        Diagnostic { code: code.to_owned(), message: error.message().to_owned() }
    }

    /// The code.
    pub fn code(&self) -> (r: &str)
        ensures
            r@ == self@.0,
    {
        self.code.as_str()
    }

    /// The message.
    pub fn message(&self) -> (r: &str)
        ensures
            r@ == self@.1,
    {
        self.message.as_str()
    }
}

/// What a hook observes.
#[derive(Debug)]
pub enum Observation {
    Diagnostic(Diagnostic),
    Report(Outcome),
}

/// The default terminal handoff: diagnostics go to standard error, outcomes go nowhere.
#[derive(Clone, Copy, Debug, Default)]
pub struct Adaptor;

/// The line the default handoff writes for a diagnostic.
pub open spec fn diagnostic_line(d: (Seq<char>, Seq<char>)) -> Seq<char> {
    "locus engine diagnostic ["@ + d.0 + "]: "@ + d.1
}

impl Adaptor {
    /// The line written for an observation: one for a diagnostic, none for an outcome.
    pub fn line(&self, observation: &Observation) -> (r: Option<String>)
        ensures
            match *observation {
                Observation::Diagnostic(d) => r matches Some(s) && s@ == diagnostic_line(d@),
                Observation::Report(_) => r is None,
            },
    {
        match observation {
            Observation::Diagnostic(d) => {
                let mut s = "locus engine diagnostic [".to_owned();
                s.append(d.code());
                s.append("]: ");
                s.append(d.message());
                Some(s)
            },
            Observation::Report(_) => None,
        }
    }
}

} // verus!
