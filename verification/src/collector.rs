//! Collectors: Locus-owned readonly observation algorithms, configured as ordered chains bound
//! to names, validated at bootstrap and sampled once per requested chain at append.
use crate::atom::Payload;
use crate::error::{Error, Kind};
use crate::options::{
    lemma_decimal_digits, fits_fields, find_member, fits_schema, member, member_keys, number_of, number_value, text_of,
    text_value,
};
use crate::table::Table;
use crate::text::{
    bytes_of, control_free, decimal, decimal_text, free_of_control, is_name, name_bytes, same,
    utf8_string,
};
use vstd::prelude::*;
use vstd::string::*;
use vstd::utf8::*;

verus! {

/// The most bytes a collector may be asked to read.
pub const LIMIT: usize = 4096;

/// The last argument position a collector may select.
pub const ARGUMENTS: usize = 255;

/// A collector named with its options.
#[derive(Debug)]
pub struct Spec {
    name: String,
    options: Payload,
}

impl Spec {
    /// The collector name.
    pub closed spec fn spec_name(&self) -> Seq<char> {
        self.name@
    }

    /// The collector options.
    pub closed spec fn spec_options(&self) -> Payload {
        self.options
    }

    /// A spec naming collector `name` with `options`.
    pub fn new(name: &str, options: Payload) -> (r: Self)
        ensures
            r.spec_name() == name@,
            r.spec_options() == options,
    {
        Spec { name: name.to_owned(), options }
    }

    /// The environment variable `name`, bounded to `limit` bytes.
    pub fn environment(name: &str, limit: usize) -> (r: Self)
        ensures
            r.spec_name() == "environment"@,
            r.spec_options() matches Payload::Object(m) && member_keys(m@) == seq!["limit"@, "name"@]
                && number_value(member(m@, "limit"@)) == Some(limit as u64) && (member(
                m@,
                "name"@,
            ) matches Some(Payload::Text(t)) && t@ == name@),
    {
        let l = decimal(limit as u64);
        let members = vec![
            ("limit".to_owned(), Payload::Number(l)),
            ("name".to_owned(), Payload::Text(name.to_owned())),
        ];
        proof {
            reveal_strlit("limit");
            reveal_strlit("name");
            reveal_with_fuel(member, 3);
            lemma_decimal_digits(limit as nat);
            assert(members@[0].0@ == "limit"@);
            assert(members@[1].0@ == "name"@);
            assert(member_keys(members@) =~= seq!["limit"@, "name"@]);
            assert(members@.drop_first()[0] == members@[1]);
            assert(member(members@, "limit"@) == Some(Payload::Number(l)));
        }
        Spec::new("environment", Payload::Object(members))
    }

    /// The argument at `index` after the executable, bounded to `limit` bytes.
    pub fn argument(index: usize, limit: usize) -> (r: Self)
        ensures
            r.spec_name() == "argv"@,
            r.spec_options() matches Payload::Object(m) && member_keys(m@) == seq!["index"@, "limit"@]
                && number_value(member(m@, "index"@)) == Some(index as u64) && number_value(
                member(m@, "limit"@),
            ) == Some(limit as u64),
    {
        let i = decimal(index as u64);
        let l = decimal(limit as u64);
        let members = vec![
            ("index".to_owned(), Payload::Number(i)),
            ("limit".to_owned(), Payload::Number(l)),
        ];
        proof {
            reveal_strlit("limit");
            reveal_strlit("index");
            reveal_with_fuel(member, 3);
            lemma_decimal_digits(limit as nat);
            lemma_decimal_digits(index as nat);
            assert(members@[0].0@ == "index"@);
            assert(members@[1].0@ == "limit"@);
            assert(member_keys(members@) =~= seq!["index"@, "limit"@]);
            assert(members@.drop_first()[0] == members@[1]);
            assert(member(members@, "index"@) == Some(Payload::Number(i)));
            assert("index"@[0] != "limit"@[0]);
            assert(member(members@, "limit"@) == member(members@.drop_first(), "limit"@));
            assert(members@.drop_first()[0].0@ == "limit"@);
            assert(member(members@, "limit"@) == Some(Payload::Number(l)));
        }
        Spec::new("argv", Payload::Object(members))
    }

    /// The process field `selector`, bounded to `limit` bytes.
    pub fn process(selector: &str, limit: usize) -> (r: Self)
        ensures
            r.spec_name() == "process"@,
            r.spec_options() matches Payload::Object(m) && member_keys(m@) == seq![
                "limit"@,
                "selector"@,
            ] && number_value(member(m@, "limit"@)) == Some(limit as u64) && (member(
                m@,
                "selector"@,
            ) matches Some(Payload::Text(t)) && t@ == selector@),
    {
        let l = decimal(limit as u64);
        let members = vec![
            ("limit".to_owned(), Payload::Number(l)),
            ("selector".to_owned(), Payload::Text(selector.to_owned())),
        ];
        proof {
            reveal_strlit("limit");
            reveal_strlit("selector");
            reveal_with_fuel(member, 3);
            lemma_decimal_digits(limit as nat);
            assert(members@[0].0@ == "limit"@);
            assert(members@[1].0@ == "selector"@);
            assert(member_keys(members@) =~= seq!["limit"@, "selector"@]);
            assert(members@.drop_first()[0] == members@[1]);
            assert(member(members@, "limit"@) == Some(Payload::Number(l)));
        }
        Spec::new("process", Payload::Object(members))
    }

    /// The collector name.
    pub fn name(&self) -> (r: &str)
        ensures
            r@ == self.spec_name(),
    {
        self.name.as_str()
    }

    /// The collector options.
    pub fn options(&self) -> (r: &Payload)
        ensures
            *r == self.spec_options(),
    {
        &self.options
    }
}

/// A process field a collector may select.
#[derive(Clone, Copy, Debug, PartialEq, Eq, Structural)]
pub enum Selector {
    Directory,
    Executable,
    Id,
}

/// What a built collector reads.
#[derive(Debug)]
pub enum Method {
    /// One environment variable.
    Environment { name: String },
    /// One argument position after the executable.
    Argument { index: usize },
    /// One process field.
    Process { selector: Selector },
}

/// A validated collector: its name, the selector recorded in provenance, what it reads, and
/// the most bytes it accepts.
#[derive(Debug)]
pub struct Builtin {
    pub name: String,
    pub selector: String,
    pub method: Method,
    pub limit: usize,
}

/// The option names each collector takes, in sorted order.
pub open spec fn schema_of(name: Seq<char>) -> Option<Seq<Seq<char>>> {
    if name == "environment"@ {
        Some(seq!["limit"@, "name"@])
    } else if name == "argv"@ {
        Some(seq!["index"@, "limit"@])
    } else if name == "process"@ {
        Some(seq!["limit"@, "selector"@])
    } else {
        None
    }
}

/// The message refusing a collector whose option `field` is missing or ill-typed.
pub open spec fn requires_message(name: Seq<char>, field: Seq<char>) -> Seq<char> {
    name + " collector requires "@ + field
}

/// The refusal of a limit option, if it refuses.
pub open spec fn limit_fault(name: Seq<char>, limit: Option<u64>) -> Option<Seq<char>> {
    match limit {
        None => Some(requires_message(name, "limit"@)),
        Some(v) => if v > usize::MAX {
            Some("invalid collector limit"@)
        } else if !(1 <= v <= 4096) {
            Some("collector limit must be 1..=4096"@)
        } else {
            None
        },
    }
}

/// The process field a selector names, if any.
pub open spec fn selector_of(text: Seq<char>) -> Option<Selector> {
    if text == "directory"@ {
        Some(Selector::Directory)
    } else if text == "executable"@ {
        Some(Selector::Executable)
    } else if text == "id"@ {
        Some(Selector::Id)
    } else {
        None
    }
}

/// The first refusal of a collector spec, in the order bootstrap checks: the name, the options
/// object and its schema, then each option in turn.
pub open spec fn build_fault(name: Seq<char>, options: Payload) -> Option<Seq<char>> {
    match schema_of(name) {
        None => Some("unknown collector: "@ + name),
        Some(fields) => match options {
            Payload::Object(members) => {
                let m = members@;
                if !fits_schema(member_keys(m), fields) {
                    Some("collector options do not match its schema"@)
                } else if name == "environment"@ {
                    if text_value(member(m, "name"@)) is None {
                        Some(requires_message(name, "name"@))
                    } else {
                        limit_fault(name, number_value(member(m, "limit"@)))
                    }
                } else if name == "argv"@ {
                    match number_value(member(m, "index"@)) {
                        None => Some(requires_message(name, "index"@)),
                        Some(v) => if v > usize::MAX {
                            Some("invalid argv index"@)
                        } else if v > 255 {
                            Some("argv collector index exceeds 255"@)
                        } else {
                            limit_fault(name, number_value(member(m, "limit"@)))
                        },
                    }
                } else {
                    match text_value(member(m, "selector"@)) {
                        None => Some(requires_message(name, "selector"@)),
                        Some(t) => if selector_of(t) is None {
                            Some("unknown process collector selector: "@ + t)
                        } else {
                            limit_fault(name, number_value(member(m, "limit"@)))
                        },
                    }
                }
            },
            _ => Some("collector options must be an object"@),
        },
    }
}

/// Whether `b` is the collector that a spec without fault builds.
pub open spec fn builds(name: Seq<char>, options: Payload, b: Builtin) -> bool {
    options matches Payload::Object(members) && {
        let m = members@;
        &&& b.name@ == name
        &&& number_value(member(m, "limit"@)) == Some(b.limit as u64)
        &&& if name == "environment"@ {
            &&& text_value(member(m, "name"@)) == Some(b.selector@)
            &&& b.method matches Method::Environment { name: n } && n@ == b.selector@
        } else if name == "argv"@ {
            &&& number_value(member(m, "index"@)) matches Some(v) && b.method == (Method::Argument {
                index: v as usize,
            }) && b.selector@ == decimal_text(v as nat)
        } else {
            &&& text_value(member(m, "selector"@)) == Some(b.selector@)
            &&& selector_of(b.selector@) matches Some(sel) && b.method == (Method::Process {
                selector: sel,
            })
        }
    }
}

fn config_error(message: &str) -> (r: Error)
    ensures
        r@ == (Kind::Config, message@),
{
    Error::config(message.to_owned())
}

fn requires_error(name: &str, field: &str) -> (r: Error)
    ensures
        r@ == (Kind::Config, requires_message(name@, field@)),
{
    let mut m = name.to_owned();
    m.append(" collector requires ");
    m.append(field);
    Error::config(m)
}

/// The limit a collector option allows.
fn limit(name: &str, value: Option<u64>) -> (r: Result<usize, Error>)
    ensures
        match limit_fault(name@, value) {
            Some(f) => r matches Err(e) && e@ == (Kind::Config, f),
            None => r matches Ok(l) && value == Some(l as u64),
        },
{
    let v = match value {
        Some(v) => v,
        None => return Err(requires_error(name, "limit")),
    };
    if v > usize::MAX as u64 {
        return Err(config_error("invalid collector limit"));
    }
    let l = v as usize;
    if l < 1 || l > LIMIT {
        return Err(config_error("collector limit must be 1..=4096"));
    }
    Ok(l)
}

/// The argument position an index option allows: one that fits `usize`, at most 255.
fn index(value: u64) -> (r: Result<usize, Error>)
    ensures
        value > usize::MAX ==> (r matches Err(e) && e@ == (Kind::Config, "invalid argv index"@)),
        value <= usize::MAX && value > 255 ==> (r matches Err(e) && e@ == (
            Kind::Config,
            "argv collector index exceeds 255"@,
        )),
        value <= 255 ==> (r matches Ok(i) && i == value),
{
    if value > usize::MAX as u64 {
        return Err(config_error("invalid argv index"));
    }
    let index = value as usize;
    if index > ARGUMENTS {
        return Err(config_error("argv collector index exceeds 255"));
    }
    Ok(index)
}

/// The process field a selector names.
fn selector(text: &str) -> (r: Option<Selector>)
    ensures
        r == selector_of(text@),
{
    proof {
        reveal_strlit("directory");
        reveal_strlit("executable");
        reveal_strlit("id");
    }
    if same(text, "directory") {
        Some(Selector::Directory)
    } else if same(text, "executable") {
        Some(Selector::Executable)
    } else if same(text, "id") {
        Some(Selector::Id)
    } else {
        None
    }
}

/// Validates a collector spec into the collector it names.
pub fn build(spec: &Spec) -> (r: Result<Builtin, Error>)
    ensures
        match build_fault(spec.spec_name(), spec.spec_options()) {
            Some(f) => r matches Err(e) && e@ == (Kind::Config, f),
            None => r matches Ok(b) && builds(spec.spec_name(), spec.spec_options(), b),
        },
{
    let name = spec.name();
    proof {
        reveal_strlit("environment");
        reveal_strlit("argv");
        reveal_strlit("process");
    }
    let fields: Vec<&str> = if same(name, "environment") {
        vec!["limit", "name"]
    } else if same(name, "argv") {
        vec!["index", "limit"]
    } else if same(name, "process") {
        vec!["limit", "selector"]
    } else {
        let mut m = "unknown collector: ".to_owned();
        m.append(name);
        return Err(Error::config(m));
    };
    proof {
        assert(fields@.map_values(|f: &str| f@) =~= schema_of(name@)->0);
    }
    let members = match spec.options() {
        Payload::Object(members) => members,
        _ => return Err(config_error("collector options must be an object")),
    };
    if !fits_fields(members, &fields) {
        return Err(config_error("collector options do not match its schema"));
    }
    if same(name, "environment") {
        let selector = match text_of(find_member(members, "name")) {
            Some(t) => t,
            None => return Err(requires_error(name, "name")),
        };
        let limit = limit(name, number_of(find_member(members, "limit")))?;
        let method = Method::Environment { name: selector.clone() };
        Ok(Builtin { name: "environment".to_owned(), selector, method, limit })
    } else if same(name, "argv") {
        let v = match number_of(find_member(members, "index")) {
            Some(v) => v,
            None => return Err(requires_error(name, "index")),
        };
        let index = index(v)?;
        let limit = limit(name, number_of(find_member(members, "limit")))?;
        Ok(Builtin {
            name: "argv".to_owned(),
            selector: decimal(v),
            method: Method::Argument { index },
            limit,
        })
    } else {
        let text = match text_of(find_member(members, "selector")) {
            Some(t) => t,
            None => return Err(requires_error(name, "selector")),
        };
        let sel = match selector(text.as_str()) {
            Some(sel) => sel,
            None => {
                let mut m = "unknown process collector selector: ".to_owned();
                m.append(text.as_str());
                return Err(Error::config(m));
            },
        };
        let limit = limit(name, number_of(find_member(members, "limit")))?;
        Ok(Builtin {
            name: "process".to_owned(),
            selector: text,
            method: Method::Process { selector: sel },
            limit,
        })
    }
}

/// The message refusing collector output that is not UTF-8.
pub open spec fn utf8_refusal(source: Seq<char>) -> Seq<char> {
    source + " collector produced non-UTF-8 text"@
}

/// The message refusing collector output that is empty or too long.
pub open spec fn size_refusal(source: Seq<char>, limit: usize) -> Seq<char> {
    source + " collector output must contain 1..="@ + decimal_text(limit as nat) + " bytes"@
}

/// The message refusing collector output that holds a control character.
pub open spec fn control_refusal(source: Seq<char>) -> Seq<char> {
    source + " collector output contains control characters"@
}

/// Checks raw collector output: UTF-8 text of 1..=`limit` bytes without control characters.
pub fn bounded(source: &str, value: Vec<u8>, limit: usize) -> (r: Result<String, Error>)
    ensures
        !valid_utf8(value@) ==> (r matches Err(e) && e@ == (Kind::Collector, utf8_refusal(source@))),
        valid_utf8(value@) && !(1 <= value@.len() <= limit) ==> (r matches Err(e) && e@ == (
            Kind::Collector,
            size_refusal(source@, limit),
        )),
        valid_utf8(value@) && 1 <= value@.len() <= limit && !control_free(decode_utf8(value@)) ==> (
        r matches Err(e) && e@ == (Kind::Collector, control_refusal(source@))),
        r is Ok <==> valid_utf8(value@) && 1 <= value@.len() <= limit && control_free(
            decode_utf8(value@),
        ),
        r matches Ok(t) ==> t@ == decode_utf8(value@),
{
    let n = value.len();
    let text = match utf8_string(value) {
        Ok(t) => t,
        Err(_) => {
            let mut m = source.to_owned();
            m.append(" collector produced non-UTF-8 text");
            return Err(Error::collector(m));
        },
    };
    if n == 0 || n > limit {
        let mut m = source.to_owned();
        m.append(" collector output must contain 1..=");
        let l = decimal(limit as u64);
        m.append(l.as_str());
        m.append(" bytes");
        return Err(Error::collector(m));
    }
    if !free_of_control(text.as_str()) {
        let mut m = source.to_owned();
        m.append(" collector output contains control characters");
        return Err(Error::collector(m));
    }
    Ok(text)
}

/// What reading a collector's source gave.
#[derive(Debug)]
pub enum Reading {
    /// Nothing is there: the chain moves on.
    Absent,
    /// Raw output.
    Present(Vec<u8>),
    /// The read failed, for the reason given.
    Failed(String),
}

/// One collected value with its provenance.
#[derive(Debug)]
pub struct Sample {
    pub collector: String,
    pub selector: String,
    pub value: String,
}

/// The message refusing a collector whose read failed.
pub open spec fn failure_message(method: Method, name: Seq<char>, detail: Seq<char>) -> Seq<char> {
    match method {
        Method::Process { selector: Selector::Directory } => "process directory failed: "@ + detail,
        Method::Process { selector: Selector::Executable } => "process executable failed: "@
            + detail,
        _ => name + " collector failed: "@ + detail,
    }
}

/// How collector `b` refuses reading `g`, if it refuses: output that is not UTF-8, empty or longer
/// than the bound, or holds a control character; or a failed read.
pub open spec fn refusal(b: Builtin, g: Reading) -> Option<Seq<char>> {
    match g {
        Reading::Absent => None,
        Reading::Present(bytes) => if !valid_utf8(bytes@) {
            Some(utf8_refusal(b.name@))
        } else if !(1 <= bytes@.len() <= b.limit) {
            Some(size_refusal(b.name@, b.limit))
        } else if !control_free(decode_utf8(bytes@)) {
            Some(control_refusal(b.name@))
        } else {
            None
        },
        Reading::Failed(detail) => Some(failure_message(b.method, b.name@, detail@)),
    }
}

/// `s` is the sample collector `b` takes from reading `g`: output it accepts, decoded, with the
/// collector's name and selector.
pub open spec fn samples(b: Builtin, g: Reading, s: Sample) -> bool {
    &&& g matches Reading::Present(bytes) && s.value@ == decode_utf8(bytes@)
    &&& refusal(b, g) is None
    &&& s.collector@ == b.name@
    &&& s.selector@ == b.selector@
}

impl Builtin {
    /// Decides on one reading: absence moves the chain on; output that passes the bounds is the
    /// sample; invalid output or a failed read refuses.
    pub fn accept(&self, reading: Reading) -> (r: Result<Option<Sample>, Error>)
        ensures
            match reading {
                Reading::Absent => r matches Ok(None),
                Reading::Present(bytes) => {
                    &&& !valid_utf8(bytes@) ==> (r matches Err(e) && e@ == (
                        Kind::Collector,
                        utf8_refusal(self.name@),
                    ))
                    &&& valid_utf8(bytes@) && !(1 <= bytes@.len() <= self.limit) ==> (r matches Err(
                        e,
                    ) && e@ == (Kind::Collector, size_refusal(self.name@, self.limit)))
                    &&& valid_utf8(bytes@) && 1 <= bytes@.len() <= self.limit && !control_free(
                        decode_utf8(bytes@),
                    ) ==> (r matches Err(e) && e@ == (Kind::Collector, control_refusal(self.name@)))
                    &&& r is Ok <==> valid_utf8(bytes@) && 1 <= bytes@.len() <= self.limit
                        && control_free(decode_utf8(bytes@))
                    &&& r matches Ok(o) ==> (o matches Some(s) && s.collector@ == self.name@
                        && s.selector@ == self.selector@ && s.value@ == decode_utf8(bytes@))
                },
                Reading::Failed(detail) => r matches Err(e) && e@ == (
                    Kind::Collector,
                    failure_message(self.method, self.name@, detail@),
                ),
            },
            refusal(*self, reading) matches Some(m) ==> r matches Err(e) && e@ == (Kind::Collector, m),
            refusal(*self, reading) is None && reading is Absent ==> r matches Ok(None),
            refusal(*self, reading) is None && !(reading is Absent) ==> (r matches Ok(Some(s)) && samples(
                *self,
                reading,
                s,
            )),
    {
        match reading {
            Reading::Absent => Ok(None),
            Reading::Present(bytes) => {
                let value = bounded(self.name.as_str(), bytes, self.limit)?;
                Ok(Some(Sample { collector: self.name.clone(), selector: self.selector.clone(), value }))
            },
            Reading::Failed(detail) => {
                let mut m = match &self.method {
                    Method::Process { selector: Selector::Directory } => "process directory failed: ".to_owned(),
                    Method::Process { selector: Selector::Executable } => "process executable failed: ".to_owned(),
                    _ => {
                        let mut m = self.name.clone();
                        m.append(" collector failed: ");
                        m
                    },
                };
                m.append(detail.as_str());
                Err(Error::collector(m))
            },
        }
    }
}

/// The message refusing a binding name of the wrong size.
pub open spec fn binding_size_refusal() -> Seq<char> {
    "collector binding must contain 1..=128 bytes"@
}

/// The refusal of a binding name, if it refuses: 1..=128 bytes, each a letter, digit or one of
/// `._-:/`.
pub open spec fn binding_fault(binding: Seq<char>) -> Option<Seq<char>> {
    if !(1 <= bytes_of(binding).len() <= 128) {
        Some(binding_size_refusal())
    } else if !is_name(bytes_of(binding)) {
        Some("invalid collector binding: "@ + binding)
    } else {
        None
    }
}

/// Checks a binding name.
pub fn validate(binding: &str) -> (r: Result<(), Error>)
    ensures
        match binding_fault(binding@) {
            Some(f) => r matches Err(e) && e@ == (Kind::Config, f),
            None => r is Ok,
        },
{
    let bytes = binding.as_bytes();
    if bytes.len() == 0 || bytes.len() > 128 {
        return Err(config_error("collector binding must contain 1..=128 bytes"));
    }
    if !name_bytes(bytes) {
        let mut m = "invalid collector binding: ".to_owned();
        m.append(binding);
        return Err(Error::config(m));
    }
    Ok(())
}

/// The first refusal of a chain: its binding name, an empty chain, then each spec in order.
pub open spec fn chain_fault(binding: Seq<char>, chain: Seq<Spec>) -> Option<Seq<char>> {
    if binding_fault(binding) is Some {
        binding_fault(binding)
    } else if chain.len() == 0 {
        Some("collector binding "@ + binding + " contains no algorithm"@)
    } else {
        specs_fault(chain)
    }
}

/// The first refusal among specs, in order.
pub open spec fn specs_fault(chain: Seq<Spec>) -> Option<Seq<char>>
    decreases chain.len(),
{
    if chain.len() == 0 {
        None
    } else if specs_fault(chain.drop_last()) is Some {
        specs_fault(chain.drop_last())
    } else {
        build_fault(chain.last().spec_name(), chain.last().spec_options())
    }
}

/// The first refusal among bindings, in key order.
pub open spec fn bindings_fault(entries: Seq<(Seq<char>, Seq<Spec>)>) -> Option<Seq<char>>
    decreases entries.len(),
{
    if entries.len() == 0 {
        None
    } else if bindings_fault(entries.drop_last()) is Some {
        bindings_fault(entries.drop_last())
    } else {
        chain_fault(entries.last().0, entries.last().1)
    }
}

/// Validates one chain.
fn build_chain(binding: &str, chain: &Vec<Spec>) -> (r: Result<Vec<Builtin>, Error>)
    ensures
        match chain_fault(binding@, chain@) {
            Some(f) => r matches Err(e) && e@ == (Kind::Config, f),
            None => r matches Ok(v) && v@.len() == chain@.len() && forall|i: int|
                0 <= i < chain@.len() ==> builds(
                    (#[trigger] chain@[i]).spec_name(),
                    chain@[i].spec_options(),
                    v@[i],
                ),
        },
{
    validate(binding)?;
    if chain.len() == 0 {
        let mut m = "collector binding ".to_owned();
        m.append(binding);
        m.append(" contains no algorithm");
        return Err(Error::config(m));
    }
    let mut out: Vec<Builtin> = Vec::new();
    let mut i: usize = 0;
    while i < chain.len()
        invariant
            i <= chain@.len(),
            chain@.len() > 0,
            binding_fault(binding@) is None,
            specs_fault(chain@.subrange(0, i as int)) is None,
            out@.len() == i,
            forall|j: int|
                0 <= j < i ==> builds((#[trigger] chain@[j]).spec_name(), chain@[j].spec_options(), out@[j]),
        decreases chain@.len() - i,
    {
        proof {
            let t = chain@.subrange(0, i + 1);
            assert(t.drop_last() =~= chain@.subrange(0, i as int));
        }
        match build(&chain[i]) {
            Ok(b) => out.push(b),
            Err(e) => {
                proof {
                    lemma_specs_fault_extends(chain@, i as int + 1);
                }
                return Err(e);
            },
        }
        i = i + 1;
    }
    proof {
        assert(chain@.subrange(0, chain@.len() as int) =~= chain@);
    }
    Ok(out)
}

pub proof fn lemma_specs_fault_extends(chain: Seq<Spec>, n: int)
    requires
        0 <= n <= chain.len(),
        specs_fault(chain.subrange(0, n)) is Some,
    ensures
        specs_fault(chain) == specs_fault(chain.subrange(0, n)),
    decreases chain.len() - n,
{
    if n < chain.len() {
        let t = chain.subrange(0, n + 1);
        assert(t.drop_last() =~= chain.subrange(0, n));
        lemma_specs_fault_extends(chain, n + 1);
    } else {
        assert(chain.subrange(0, n) =~= chain);
    }
}

pub proof fn lemma_bindings_fault_extends(entries: Seq<(Seq<char>, Seq<Spec>)>, n: int)
    requires
        0 <= n <= entries.len(),
        bindings_fault(entries.subrange(0, n)) is Some,
    ensures
        bindings_fault(entries) == bindings_fault(entries.subrange(0, n)),
    decreases entries.len() - n,
{
    if n < entries.len() {
        let t = entries.subrange(0, n + 1);
        assert(t.drop_last() =~= entries.subrange(0, n));
        lemma_bindings_fault_extends(entries, n + 1);
    } else {
        assert(entries.subrange(0, n) =~= entries);
    }
}

/// Validates every configured chain, bindings in key order; sampling waits for append.
pub fn bindings(specs: &Table<Vec<Spec>>) -> (r: Result<Table<Vec<Builtin>>, Error>)
    requires
        specs.wf(),
    ensures
        match bindings_fault(specs.entries().map_values(|e: (String, Vec<Spec>)| (e.0@, e.1@))) {
            Some(f) => r matches Err(e) && e@ == (Kind::Config, f),
            None => r matches Ok(t) && t.wf() && t@.dom() == specs@.dom() && forall|k: Seq<char>|
                #[trigger] t@.contains_key(k) ==> t@[k]@.len() == specs@[k]@.len() && forall|i: int|
                    0 <= i < specs@[k]@.len() ==> builds(
                        (#[trigger] specs@[k]@[i]).spec_name(),
                        specs@[k]@[i].spec_options(),
                        t@[k]@[i],
                    ),
        },
{
    let ghost entries = specs.entries().map_values(|e: (String, Vec<Spec>)| (e.0@, e.1@));
    let mut out: Table<Vec<Builtin>> = Table::new();
    let mut i: usize = 0;
    while i < specs.len()
        invariant
            specs.wf(),
            out.wf(),
            entries == specs.entries().map_values(|e: (String, Vec<Spec>)| (e.0@, e.1@)),
            i <= entries.len(),
            bindings_fault(entries.subrange(0, i as int)) is None,
            forall|k: Seq<char>| #[trigger] out@.contains_key(k) <==> exists|j: int| 0 <= j < i && entries[j].0 == k,
            forall|k: Seq<char>|
                #[trigger] out@.contains_key(k) ==> specs@.contains_key(k) && out@[k]@.len() == specs@[k]@.len()
                    && forall|q: int|
                    0 <= q < specs@[k]@.len() ==> builds(
                        (#[trigger] specs@[k]@[q]).spec_name(),
                        specs@[k]@[q].spec_options(),
                        out@[k]@[q],
                    ),
        decreases entries.len() - i,
    {
        proof {
            let t = entries.subrange(0, i + 1);
            assert(t.drop_last() =~= entries.subrange(0, i as int));
            crate::table::lemma_map_at(specs.entries(), i as int);
        }
        let binding = specs.key_at(i);
        let chain = specs.value_at(i);
        match build_chain(binding.as_str(), chain) {
            Ok(built) => {
                let ghost before = out@;
                out.put(binding.clone(), built);
                proof {
                    assert forall|k: Seq<char>| #[trigger] out@.contains_key(k) <==> exists|j: int|
                        0 <= j < i + 1 && entries[j].0 == k by {
                        if k == binding@ {
                            assert(entries[i as int].0 == k);
                        }
                        if exists|j: int| 0 <= j < i + 1 && entries[j].0 == k {
                            let j = choose|j: int| 0 <= j < i + 1 && entries[j].0 == k;
                            if j < i {
                                assert(before.contains_key(k));
                            }
                        }
                    }
                }
            },
            Err(e) => {
                proof {
                    lemma_bindings_fault_extends(entries, i as int + 1);
                }
                return Err(e);
            },
        }
        i = i + 1;
    }
    proof {
        assert(entries.subrange(0, entries.len() as int) =~= entries);
        assert forall|k: Seq<char>| specs@.dom().contains(k) implies #[trigger] out@.dom().contains(k) by {
            let j = crate::table::pick(specs.entries(), k);
            assert(entries[j].0 == k);
        }
        assert(out@.dom() =~= specs@.dom());
    }
    Ok(out)
}

/// Samples a chain: reads each collector in turn with `read` and decides on it; the first
/// sample wins, absence moves on, a refusal stops the chain. An empty chain samples nothing.
pub fn first<F: Fn(&Method) -> Reading>(chain: &Vec<Builtin>, read: F) -> (r: Result<Option<Sample>, Error>)
    requires
        forall|m: &Method| #[trigger] read.requires((m,)),
    ensures
        chain@.len() == 0 ==> r matches Ok(None),
        r matches Ok(Some(s)) ==> exists|i: int, g: Reading|
            #![trigger read.ensures((&chain@[i].method,), g)]
            0 <= i < chain@.len() && read.ensures((&chain@[i].method,), g) && samples(
                chain@[i],
                g,
                s,
            ) && forall|j: int|
                #![trigger chain@[j]]
                0 <= j < i ==> exists|h: Reading|
                    #[trigger] read.ensures((&chain@[j].method,), h) && h is Absent,
        r matches Ok(None) ==> forall|i: int|
            #![trigger chain@[i]]
            0 <= i < chain@.len() ==> exists|g: Reading|
                #[trigger] read.ensures((&chain@[i].method,), g) && g is Absent,
        r matches Err(e) ==> exists|i: int, g: Reading|
            #![trigger read.ensures((&chain@[i].method,), g)]
            0 <= i < chain@.len() && read.ensures((&chain@[i].method,), g) && (refusal(
                chain@[i],
                g,
            ) matches Some(m) && e@ == (Kind::Collector, m)) && forall|j: int|
                #![trigger chain@[j]]
                0 <= j < i ==> exists|h: Reading|
                    #[trigger] read.ensures((&chain@[j].method,), h) && h is Absent,
{
    let mut i: usize = 0;
    while i < chain.len()
        invariant
            i <= chain@.len(),
            forall|m: &Method| #[trigger] read.requires((m,)),
            forall|j: int|
                #![trigger chain@[j]]
                0 <= j < i ==> exists|g: Reading|
                    #[trigger] read.ensures((&chain@[j].method,), g) && g is Absent,
        decreases chain@.len() - i,
    {
        let builtin = &chain[i];
        let reading = read(&builtin.method);
        let ghost g = reading;
        match builtin.accept(reading) {
            Ok(Some(s)) => {
                assert(read.ensures((&chain@[i as int].method,), g));
                return Ok(Some(s));
            },
            Ok(None) => {
                assert(read.ensures((&chain@[i as int].method,), g));
            },
            Err(e) => {
                assert(read.ensures((&chain@[i as int].method,), g));
                return Err(e);
            },
        }
        i = i + 1;
    }
    Ok(None)
}

} // verus!
