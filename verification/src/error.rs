//! Refusals of the substrate, by kind.
use vstd::prelude::*;

verus! {

/// What a refusal concerns.
#[derive(Clone, Copy, Debug, PartialEq, Eq, Structural)]
pub enum Kind {
    Config,
    Context,
    Collector,
    Generator,
    Record,
    Reporter,
}

/// A refusal: its kind and a message for the operator.
#[derive(Clone, Debug)]
pub struct Error {
    kind: Kind,
    message: String,
}

impl View for Error {
    type V = (Kind, Seq<char>);

    closed spec fn view(&self) -> (Kind, Seq<char>) {
        (self.kind, self.message@)
    }
}

impl Error {
    /// The kind of the refusal.
    pub fn kind(&self) -> (r: &Kind)
        ensures
            *r == self@.0,
    {
        &self.kind
    }

    /// The message of the refusal.
    pub fn message(&self) -> (r: &str)
        ensures
            r@ == self@.1,
    {
        self.message.as_str()
    }

    /// A refusal of the given kind.
    pub fn new(kind: Kind, message: String) -> (r: Self)
        ensures
            r@ == (kind, message@),
    {
        Error { kind, message }
    }

    /// A refusal of a declaration.
    pub fn config(message: String) -> (r: Self)
        ensures
            r@ == (Kind::Config, message@),
    {
        Self::new(Kind::Config, message)
    }

    /// A refusal of a role, a key or a context.
    pub fn context(message: String) -> (r: Self)
        ensures
            r@ == (Kind::Context, message@),
    {
        Self::new(Kind::Context, message)
    }

    /// A refusal of a collected value.
    pub fn collector(message: String) -> (r: Self)
        ensures
            r@ == (Kind::Collector, message@),
    {
        Self::new(Kind::Collector, message)
    }

    /// A refusal of a generated key.
    pub fn generator(message: String) -> (r: Self)
        ensures
            r@ == (Kind::Generator, message@),
    {
        Self::new(Kind::Generator, message)
    }

    /// A refusal of a candidate record.
    pub fn record(message: String) -> (r: Self)
        ensures
            r@ == (Kind::Record, message@),
    {
        Self::new(Kind::Record, message)
    }

    /// A refusal of a reporter.
    pub fn reporter(message: String) -> (r: Self)
        ensures
            r@ == (Kind::Reporter, message@),
    {
        Self::new(Kind::Reporter, message)
    }
}

} // verus!
