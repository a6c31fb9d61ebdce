use locus::atom::{Accepted, Atom, Candidate, Origin, Payload};
use locus::collector::{self, first, Method, Reading, Selector};
use locus::context::{Context, Key, Role};
use locus::engine::{check, collect_into, diagnose, now, resolve, settle, stamp, unresolved, Pick, Plan, Policy, Stage};
use locus::error::{Error, Kind};
use locus::generator::{self, first_read, hex, published, read, reread, Created, Generator, Stored};
use locus::hook::{Adaptor, Diagnostic, Observation, Status};
use locus::reporter::{self, Reporter};

fn event(name: &str) -> Payload {
    Payload::Object(vec![("event".to_owned(), Payload::Text(name.to_owned()))])
}

fn nothing(_: &Method) -> Reading {
    Reading::Absent
}

fn append(
    plan: &Plan,
    context: &Context,
    candidate: Candidate,
    reader: impl Fn(&Method) -> Reading,
) -> Result<(Atom, Accepted), Error> {
    check(&candidate)?;
    let mut candidate = candidate;
    let requests: Vec<(Role, String)> =
        candidate.requests().iter().map(|(r, b)| (r.clone(), b.clone())).collect();
    for (role, binding) in requests {
        let chain = match plan.collection(&candidate, &role, &binding)? {
            Some(chain) => chain,
            None => continue,
        };
        let sample = first(chain, &reader)?;
        candidate = collect_into(candidate, role, &binding, sample)?;
    }
    let picks = resolve(context, &candidate);
    let mut generated = Vec::new();
    for (role, pick) in &picks {
        if let Pick::Generate = pick {
            let key = match plan.generator_for(role) {
                Generator::Random => generator::random(),
                Generator::Shared { .. } => Err(Error::generator("no shared file here".to_owned())),
            };
            generated.push(key.map_err(|error| unresolved(role, &error))?);
        }
    }
    Ok(settle(context, candidate, picks, generated, 1))
}

fn bound(atom: &Atom, role: &Role) -> Option<String> {
    atom.context().get(role.text()).cloned()
}

#[test]
fn cascade() {
    let plan = Plan::bootstrap(&Policy::default()).expect("bootstrap");
    let trace = Role::trace();
    let first_key = Key::new("trace-a").expect("key");
    let second_key = Key::new("trace-b").expect("key");
    let root = Context::empty();

    let (one, accepted) = append(
        &plan,
        &root,
        Candidate::context().explicit(trace.clone(), first_key.clone()),
        nothing,
    )
    .expect("explicit");
    let context = accepted.context();
    assert!(root.read(&trace).is_none());
    assert_eq!(context.read(&trace).map(|k| k.text().to_owned()), Some("trace-a".to_owned()));

    let (two, _) = append(
        &plan,
        &context,
        Candidate::event(event("inherit")).ensure(trace.clone()),
        nothing,
    )
    .expect("inherit");
    let (three, changed) = append(
        &plan,
        &context,
        Candidate::event(event("override")).explicit(trace.clone(), second_key.clone()),
        nothing,
    )
    .expect("override");
    let changed = changed.context();

    assert_eq!(context.read(&trace).map(|k| k.text().to_owned()), Some("trace-a".to_owned()));
    assert_eq!(changed.read(&trace).map(|k| k.text().to_owned()), Some("trace-b".to_owned()));
    let origins: Vec<Origin> = [one, two, three]
        .iter()
        .flat_map(|atom| atom.choices().iter().map(|choice| choice.origin))
        .collect();
    assert_eq!(origins, vec![Origin::Explicit, Origin::Inherited, Origin::Explicit]);
}

#[test]
fn random() {
    let plan = Plan::bootstrap(&Policy::default()).expect("bootstrap");
    let trace = Role::trace();
    let (atom, accepted) =
        append(&plan, &Context::empty(), Candidate::context().ensure(trace.clone()), nothing)
            .expect("append");
    let key = accepted.context().read(&trace).expect("generated");
    assert_eq!(key.text().len(), 32);
    assert!(key.text().bytes().all(|b| b.is_ascii_digit() || (b'a'..=b'f').contains(&b)));
    assert_eq!(atom.choices()[0].origin, Origin::Generated);
}

#[test]
fn closure_malformed() {
    let stored = read(
        "/tmp/trace.json",
        Stored::Malformed("expected value at line 1 column 1".to_owned()),
    );
    let error = first_read(stored).err().expect("refuse");
    assert_eq!(error.kind(), &Kind::Generator);
    assert_eq!(error.message(), "invalid shared key /tmp/trace.json: expected value at line 1 column 1");
    let refused = unresolved(&Role::trace(), &error);
    assert_eq!(refused.kind(), &Kind::Generator);
    let diagnostic = diagnose(Stage::Generation, &refused);
    assert_eq!(diagnostic.code(), "generator.failed");
    assert_eq!(diagnostic.message(), refused.message());
}

#[test]
fn bootstrap() {
    let policy = Policy::default().fallback(generator::Spec::new("unknown", Payload::Object(Vec::new())));
    let error = Plan::bootstrap(&policy).err().expect("refuse");
    assert_eq!(error.kind(), &Kind::Config);
    assert!(error.message().contains("unknown generator"));
    let diagnostic = diagnose(Stage::Bootstrap, &error);
    assert_eq!(diagnostic.code(), "bootstrap.failed");
    assert!(diagnostic.message().contains("unknown generator"));
}

#[test]
fn closure_empty() {
    let error = check(&Candidate::context()).err().expect("refuse");
    assert_eq!(error.kind(), &Kind::Record);
    assert_eq!(error.message(), "candidate contains no fact");
}

#[test]
fn serde() {
    assert!(Role::new("").is_err());
    assert!(Key::new("\u{0}").is_err());
}

#[test]
fn environment() {
    let target = Role::new("plumb.target").expect("role");
    let name = "LOCUS_COLLECTOR_TARGET";
    let policy = Policy::default()
        .collector("target", collector::Spec::environment(name, 64))
        .reporter(reporter::Spec::file("/tmp/atoms.jsonl"));
    let plan = Plan::bootstrap(&policy).expect("bootstrap");
    let reader = |method: &Method| match method {
        Method::Environment { name: n } if n == name => Reading::Present(b"repository-a".to_vec()),
        _ => Reading::Absent,
    };
    let (atom, _) = append(
        &plan,
        &Context::empty(),
        Candidate::event(event("start")).collect(target.clone(), "target"),
        reader,
    )
    .expect("append");
    assert_eq!(bound(&atom, &target).as_deref(), Some("repository-a"));
    assert_eq!(atom.choices()[0].origin, Origin::Explicit);
    assert_eq!(atom.collections()[0].role(), target.text());
    assert_eq!(atom.collections()[0].binding(), "target");
    assert_eq!(atom.collections()[0].collector(), "environment");
    assert_eq!(atom.collections()[0].selector(), name);
}

#[test]
fn fallback() {
    let target = Role::new("plumb.target").expect("role");
    let policy = Policy::default()
        .collector("target", collector::Spec::environment("LOCUS_COLLECTOR_MISSING", 64))
        .collector("target", collector::Spec::argument(255, 64))
        .collector("target", collector::Spec::process("id", 64));
    let plan = Plan::bootstrap(&policy).expect("bootstrap");
    let reader = |method: &Method| match method {
        Method::Process { selector: Selector::Id } => Reading::Present(b"4242".to_vec()),
        _ => Reading::Absent,
    };
    let (atom, _) = append(
        &plan,
        &Context::empty(),
        Candidate::event(event("start")).collect(target.clone(), "target"),
        reader,
    )
    .expect("append");
    assert_eq!(bound(&atom, &target).as_deref(), Some("4242"));
    assert_eq!(atom.collections()[0].collector(), "process");
    assert_eq!(atom.collections()[0].selector(), "id");
}

#[test]
fn explicit() {
    let target = Role::new("plumb.target").expect("role");
    let policy = Policy::default().collector("target", collector::Spec::environment("EXPLICIT", 64));
    let plan = Plan::bootstrap(&policy).expect("bootstrap");
    let reader = |_: &Method| Reading::Present(Vec::new());
    let (atom, _) = append(
        &plan,
        &Context::empty(),
        Candidate::event(event("start"))
            .collect(target.clone(), "target")
            .explicit(target.clone(), Key::new("manual").expect("key")),
        reader,
    )
    .expect("append");
    assert_eq!(bound(&atom, &target).as_deref(), Some("manual"));
    assert!(atom.collections().is_empty());
}

#[test]
fn collector_invalid() {
    let target = Role::new("plumb.target").expect("role");
    let policy = Policy::default()
        .collector("target", collector::Spec::environment("INVALID", 64))
        .collector("target", collector::Spec::process("id", 64));
    let plan = Plan::bootstrap(&policy).expect("bootstrap engine");
    let reader = |method: &Method| match method {
        Method::Environment { .. } => Reading::Present(Vec::new()),
        _ => Reading::Present(b"1".to_vec()),
    };
    let error = append(
        &plan,
        &Context::empty(),
        Candidate::event(event("start")).collect(target, "target"),
        reader,
    )
    .err()
    .expect("invalid collection must refuse");
    assert_eq!(error.kind(), &Kind::Collector);
    assert_eq!(error.message(), "environment collector output must contain 1..=64 bytes");
    assert_eq!(diagnose(Stage::Collection, &error).code(), "collector.failed");
}

#[test]
fn schema() {
    let policy = Policy::default().collector("target", collector::Spec::process("parent", 64));
    let error = Plan::bootstrap(&policy).err().expect("unknown selector must refuse");
    assert_eq!(error.kind(), &Kind::Config);
    assert_eq!(error.message(), "unknown process collector selector: parent");
}

#[test]
fn engine_resolution_precedence() {
    let trace = Role::trace();
    let span = Role::span();
    let other = Role::new("other.role").expect("role");
    let context = Context::empty()
        .bind(trace.clone(), Key::new("inherited").expect("key"))
        .bind(other.clone(), Key::new("kept").expect("key"));
    let candidate = Candidate::event(event("e"))
        .ensure(trace.clone())
        .ensure(span.clone());
    let picks = resolve(&context, &candidate);
    assert_eq!(picks.len(), 2);
    assert!(matches!(&picks[0].1, Pick::Generate));
    assert_eq!(picks[0].0.text(), "locus.span");
    assert!(matches!(&picks[1].1, Pick::Inherited(k) if k.text() == "inherited"));
    let (atom, accepted) = settle(&context, candidate, picks, vec![Key::new("fresh").expect("key")], 9);
    let view = accepted.context();
    assert_eq!(view.read(&span).map(|k| k.text().to_owned()).as_deref(), Some("fresh"));
    assert_eq!(view.read(&trace).map(|k| k.text().to_owned()).as_deref(), Some("inherited"));
    assert_eq!(view.read(&other).map(|k| k.text().to_owned()).as_deref(), Some("kept"));
    assert_eq!(atom.at(), 9);
    assert_eq!(atom.choices()[0].origin, Origin::Generated);
    assert_eq!(atom.choices()[1].origin, Origin::Inherited);
    assert!(context.read(&span).is_none());
}

#[test]
fn engine_bootstrap_refusals() {
    let enabled = Policy::default().reporter(reporter::Spec::new("file", Payload::Null)).disable();
    assert!(Plan::bootstrap(&enabled).is_ok());
    let cases: Vec<(Policy, &str)> = vec![
        (
            Policy::default().reporter(reporter::Spec::new("socket", Payload::Null)),
            "unknown reporter: socket",
        ),
        (
            Policy::default().reporter(reporter::Spec::new("file", Payload::Null)),
            "file reporter options must be an object",
        ),
        (
            Policy::default().reporter(reporter::Spec::new("file", Payload::Object(Vec::new()))),
            "file reporter options do not match its schema",
        ),
        (
            Policy::default().reporter(reporter::Spec::new(
                "file",
                Payload::Object(vec![("path".to_owned(), Payload::Text(String::new()))]),
            )),
            "file reporter requires path",
        ),
        (
            Policy::default().generator(Role::trace(), generator::Spec::new("shared-file", Payload::Object(Vec::new()))),
            "generator options do not match its schema",
        ),
        (
            Policy::default().fallback(generator::Spec::new("random", Payload::Null)),
            "generator options must be an object",
        ),
        (
            Policy::default().collector("bad binding", collector::Spec::process("id", 64)),
            "invalid collector binding: bad binding",
        ),
        (
            Policy::default().collector("target", collector::Spec::process("id", 0)),
            "collector limit must be 1..=4096",
        ),
        (
            Policy::default().collector("target", collector::Spec::argument(256, 64)),
            "argv collector index exceeds 255",
        ),
        (
            Policy::default().collector("target", collector::Spec::new("nfs", Payload::Null)),
            "unknown collector: nfs",
        ),
        (
            Policy::default().collector("target", collector::Spec::new("process", Payload::Null)),
            "collector options must be an object",
        ),
        (
            Policy::default().collector(
                "target",
                collector::Spec::new(
                    "environment",
                    Payload::Object(vec![
                        ("limit".to_owned(), Payload::Number("64".to_owned())),
                        ("name".to_owned(), Payload::Text(String::new())),
                    ]),
                ),
            ),
            "environment collector requires name",
        ),
        (
            Policy::default().collector(
                "target",
                collector::Spec::new(
                    "environment",
                    Payload::Object(vec![
                        ("limit".to_owned(), Payload::Number("6.5".to_owned())),
                        ("name".to_owned(), Payload::Text("HOME".to_owned())),
                    ]),
                ),
            ),
            "environment collector requires limit",
        ),
        (
            Policy::default().collector(
                "target",
                collector::Spec::new(
                    "argv",
                    Payload::Object(vec![("index".to_owned(), Payload::Number("1".to_owned()))]),
                ),
            ),
            "collector options do not match its schema",
        ),
        (Policy::default().reporter(reporter::Spec::file("/tmp/a")).disable().reporter(reporter::Spec::new("x", Payload::Null)), "unknown reporter: x"),
    ];
    for (policy, message) in cases {
        let error = Plan::bootstrap(&policy).err().expect("refuse");
        assert_eq!(error.kind(), &Kind::Config);
        assert_eq!(error.message(), message);
    }
    let unreported = Policy::default().reporter(reporter::Spec::file("/tmp/a"));
    let plan = Plan::bootstrap(&unreported).expect("bootstrap");
    match plan.target() {
        Some((name, Reporter::File { path })) => {
            assert_eq!(name, "file");
            assert_eq!(path, "/tmp/a");
        }
        None => panic!("expected a reporter"),
    }
}

#[test]
fn engine_outcomes() {
    let atom = || Atom::recorded(1, locus::table::Table::new(), Vec::new(), Vec::new(), None, None);
    let gated = Plan::bootstrap(&Policy::default()).expect("bootstrap");
    let outcome = gated.outcome(atom(), None);
    assert_eq!(outcome.status(), &Status::Gated);
    assert!(outcome.reporter().is_none());
    let plan = Plan::bootstrap(&Policy::default().reporter(reporter::Spec::file("/tmp/a"))).expect("bootstrap");
    let delivered = plan.outcome(atom(), Some(Ok(())));
    assert_eq!(delivered.status(), &Status::Delivered);
    assert_eq!(delivered.reporter(), Some("file"));
    let failed = plan.outcome(atom(), Some(Err("disk full".to_owned())));
    assert_eq!(failed.status(), &Status::Failed);
    assert_eq!(failed.error(), Some("disk full"));
    let line = Adaptor.line(&Observation::Diagnostic(Diagnostic::new("hook.panic", "configured hook panicked")));
    assert_eq!(line.as_deref(), Some("locus engine diagnostic [hook.panic]: configured hook panicked"));
    assert!(Adaptor.line(&Observation::Report(failed)).is_none());
}

#[test]
fn engine_clock() {
    assert_eq!(stamp(Ok(42)).ok(), Some(42));
    let late = stamp(Ok(u128::from(u64::MAX) + 1)).err().expect("refuse");
    assert_eq!(late.kind(), &Kind::Record);
    assert_eq!(late.message(), "system time cannot fit the Atom clock");
    let early = stamp(Err("second time provided was later than self".to_owned())).err().expect("refuse");
    assert_eq!(early.message(), "system clock precedes Unix epoch: second time provided was later than self");
    assert!(now().expect("clock") > 0);
}

#[test]
fn generator_rendering() {
    let mut bytes = [0u8; 16];
    bytes[0] = 0xab;
    bytes[15] = 0x09;
    assert_eq!(hex(&bytes).text(), "ab000000000000000000000000000009");
    let one = generator::random().expect("random");
    let two = generator::random().expect("random");
    assert_eq!(one.text().len(), 32);
    assert_ne!(one.text(), two.text());
}

#[test]
fn generator_shared_decisions() {
    let path = "/tmp/trace.json";
    let ok = read(path, Stored::Record { version: 1, key: "stored".to_owned() });
    assert_eq!(first_read(ok).expect("read").expect("stored").text(), "stored");
    assert!(first_read(read(path, Stored::Missing)).expect("missing").is_none());
    let version = read(path, Stored::Record { version: 2, key: "k".to_owned() });
    assert_eq!(
        first_read(version).err().expect("refuse").message(),
        "unsupported shared key version 2 in /tmp/trace.json"
    );
    let control = read(path, Stored::Record { version: 1, key: "a\u{7}".to_owned() });
    assert_eq!(
        first_read(control).err().expect("refuse").message(),
        "invalid shared key /tmp/trace.json: key cannot contain control characters"
    );
    let unreadable = read(path, Stored::Unreadable("denied".to_owned()));
    assert_eq!(
        first_read(unreadable).err().expect("refuse").message(),
        "cannot read shared key /tmp/trace.json: denied"
    );
    let key = Key::new("fresh").expect("key");
    assert_eq!(published(path, key.clone(), Created::Done).expect("done").expect("key").text(), "fresh");
    assert!(published(path, key.clone(), Created::Exists).expect("exists").is_none());
    assert_eq!(
        published(path, key, Created::Failed("full".to_owned())).err().expect("refuse").message(),
        "cannot create shared key /tmp/trace.json: full"
    );
    assert_eq!(
        reread(path, read(path, Stored::Missing)).err().expect("refuse").message(),
        "shared key disappeared: /tmp/trace.json"
    );
}

#[test]
fn collector_readings() {
    let plan = Plan::bootstrap(&Policy::default().collector("dir", collector::Spec::process("directory", 8)))
        .expect("bootstrap");
    let chain = plan.chain("dir").expect("chain");
    let failed = first(chain, |_: &Method| Reading::Failed("gone".to_owned())).err().expect("refuse");
    assert_eq!(failed.kind(), &Kind::Collector);
    assert_eq!(failed.message(), "process directory failed: gone");
    let long = first(chain, |_: &Method| Reading::Present(b"/too/long/path".to_vec())).err().expect("refuse");
    assert_eq!(long.message(), "process collector output must contain 1..=8 bytes");
    let utf8 = first(chain, |_: &Method| Reading::Present(vec![0xff])).err().expect("refuse");
    assert_eq!(utf8.message(), "process collector produced non-UTF-8 text");
    let control = first(chain, |_: &Method| Reading::Present(b"a\tb".to_vec())).err().expect("refuse");
    assert_eq!(control.message(), "process collector output contains control characters");
    let sample = first(chain, |_: &Method| Reading::Present(b"/srv".to_vec())).expect("sample").expect("some");
    assert_eq!((sample.collector.as_str(), sample.selector.as_str(), sample.value.as_str()), ("process", "directory", "/srv"));
    assert!(plan.chain("missing").is_err());
    let none = first(&Vec::new(), |_: &Method| Reading::Failed("unread".to_owned())).expect("none");
    assert!(none.is_none());
}

#[test]
fn engine_collection_alone_is_no_fact() {
    let target = Role::new("plumb.target").unwrap();
    let error = check(&Candidate::context().collect(target, "target")).err().expect("refuse");
    assert_eq!(error.kind(), &Kind::Record);
    assert_eq!(error.message(), "candidate contains no fact");
}
