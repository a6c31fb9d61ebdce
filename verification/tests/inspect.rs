use locus::atom::{Atom, Payload, Source};
use locus::context::Role;
use locus::inspect::config::{validate, Analyzer, Config};
use locus::inspect::mapping::{content, Mapping};
use locus::inspect::model::{Finding, Measurement, Record, Summary, Threshold};
use locus::inspect::{Inspection, Report};
use locus::input::{invalid, Framing};
use locus::table::Table;
use serde_json::Value;

fn payload(value: &Value) -> Payload {
    match value {
        Value::Null => Payload::Null,
        Value::Bool(b) => Payload::Bool(*b),
        Value::Number(n) => Payload::Number(n.to_string()),
        Value::String(s) => Payload::Text(s.clone()),
        Value::Array(items) => Payload::List(items.iter().map(payload).collect()),
        Value::Object(members) => {
            Payload::Object(members.iter().map(|(k, v)| (k.clone(), payload(v))).collect())
        }
    }
}

fn atom_of(value: &Value) -> Atom {
    let mut context = Table::new();
    if let Some(Value::Object(members)) = value.get("context") {
        for (role, key) in members {
            context.put(role.clone(), key.as_str().unwrap().to_owned());
        }
    }
    let source = value.get("source").map(|s| {
        let code = Source::code(
            s["file"].as_str().unwrap(),
            s["line"].as_u64().unwrap() as u32,
            s["column"].as_u64().unwrap() as u32,
            s["module"].as_str().unwrap(),
        );
        match (s.get("function").and_then(Value::as_str), s.get("edge").and_then(Value::as_str)) {
            (Some(f), Some("enter")) => code.enter(f),
            (Some(f), Some("return")) => code.returned(f),
            _ => code,
        }
    });
    Atom::recorded(
        value["at"].as_u64().unwrap(),
        context,
        Vec::new(),
        Vec::new(),
        source,
        value.get("payload").map(payload),
    )
}

fn atom(trace: Option<&str>, payload: Value) -> String {
    let mut context = serde_json::Map::new();
    if let Some(trace) = trace {
        context.insert("locus.trace".into(), Value::String(trace.into()));
    }
    let mut record = serde_json::Map::new();
    record.insert("at".into(), Value::from(1));
    record.insert("context".into(), Value::Object(context));
    record.insert("choices".into(), Value::Array(Vec::new()));
    record.insert("payload".into(), payload);
    Value::Object(record).to_string()
}

fn framed(at: u64, span: &str, edge: &str) -> String {
    let mut context = serde_json::Map::new();
    context.insert("locus.trace".into(), Value::from("trace"));
    context.insert("locus.span".into(), Value::from(span));
    let mut source = serde_json::Map::new();
    source.insert("file".into(), Value::from("a.rs"));
    source.insert("line".into(), Value::from(1));
    source.insert("column".into(), Value::from(1));
    source.insert("module".into(), Value::from("m"));
    source.insert("function".into(), Value::from(span));
    source.insert("edge".into(), Value::from(edge));
    let mut record = serde_json::Map::new();
    record.insert("at".into(), Value::from(at));
    record.insert("context".into(), Value::Object(context));
    record.insert("choices".into(), Value::Array(Vec::new()));
    record.insert("source".into(), Value::Object(source));
    Value::Object(record).to_string()
}

fn analyzer(id: &str, kind: &str, role: &str, above: u64) -> Analyzer {
    let group = Role::new(role).unwrap();
    let mapping = match kind {
        "representation-bytes" => Mapping::Bytes { group },
        "dominant-content-prefix-percent" => Mapping::Prefix { group },
        _ => Mapping::Held { group },
    };
    Analyzer { id: id.to_owned(), mapping, threshold: Threshold { above } }
}

fn config(trace: &str, size: u64) -> Config {
    Config::load(
        "locus.toml",
        1,
        vec![
            analyzer("trace.size", "representation-bytes", trace, size),
            analyzer("trace.prefix", "dominant-content-prefix-percent", trace, 80),
        ],
    )
    .unwrap()
}

fn timed() -> Config {
    Config::load(
        "locus.toml",
        1,
        vec![analyzer("trace.held", "held-time-nanoseconds", "locus.trace", 5)],
    )
    .unwrap()
}

fn run(config: Config, input: &str) -> Result<Report, String> {
    let mut inspection = Inspection::new(config);
    let mut framing = Framing::new();
    for raw in input.split_inclusive('\n') {
        let line = match framing.next(raw.as_bytes())? {
            Some(line) => line,
            None => break,
        };
        let value: Value = serde_json::from_slice(&raw.as_bytes()[..line.body])
            .map_err(|error| invalid(line.offset, &error.to_string()))?;
        inspection.observe(&atom_of(&value), line.encoded)?;
    }
    Ok(inspection.finish(framing.records()))
}

fn split(report: Report) -> (Vec<Finding>, Summary) {
    let mut findings = Vec::new();
    let mut summary = None;
    for record in report.records() {
        match record {
            Record::Finding(f) => findings.push(f),
            Record::Summary(s) => summary = Some(s),
        }
    }
    (findings, summary.unwrap())
}

#[test]
fn clean() {
    let input = ["alpha", "bravo", "charlie", "delta"]
        .map(|value| atom(Some("trace"), Value::from(value)))
        .join("\n");
    let report = run(config("locus.trace", 8192), &input).unwrap();
    assert!(report.clean());
    let (findings, summary) = split(report);
    assert!(findings.is_empty());
    assert_eq!(summary.coverage, vec!["trace.size".to_owned(), "trace.prefix".to_owned()]);
    assert_eq!(summary.records, 4);
    assert_eq!(summary.findings, 0);
}

#[test]
fn size() {
    let input = atom(Some("trace"), Value::from("x".repeat(9_000)));
    let report = run(config("locus.trace", 8192), &input).unwrap();
    assert!(!report.clean());
    let (findings, summary) = split(report);
    assert_eq!(findings[0].analyzer, "trace.size");
    assert_eq!(findings[0].group.role, "locus.trace");
    assert_eq!(findings[0].group.key, "trace");
    match findings[0].measurement {
        Measurement::Bytes { value } => assert_eq!(value, input.len() as u64),
        _ => panic!("expected a byte measure"),
    }
    assert_eq!(findings[0].threshold.above, 8 * 1024);
    assert_eq!(summary.findings, 1);
}

#[test]
fn prefix() {
    let mut lines = (0..5)
        .map(|index| atom(Some("trace"), Value::from(format!("repeated-prefix-{index}"))))
        .collect::<Vec<_>>();
    lines.push(atom(Some("trace"), Value::from("different")));
    let report = run(config("locus.trace", 8192), &lines.join("\n")).unwrap();
    assert!(!report.clean());
    let (findings, _) = split(report);
    assert_eq!(findings[0].analyzer, "trace.prefix");
    match findings[0].measurement {
        Measurement::Prefix { value, atoms, repeated, bytes } => {
            assert_eq!(atoms, 6);
            assert_eq!(repeated, 5);
            assert_eq!(value, 83);
            assert_eq!(bytes, 16);
        }
        _ => panic!("expected a prefix measure"),
    }
    assert_eq!(findings[0].threshold.above, 80);
}

#[test]
fn density() {
    let mut lines = (0..4)
        .map(|index| atom(Some("trace"), Value::from(format!("repeated-prefix-{index}"))))
        .collect::<Vec<_>>();
    lines.push(atom(Some("trace"), Value::from("different")));
    let report = run(config("locus.trace", 8192), &lines.join("\n")).unwrap();
    assert!(report.clean());
    assert_eq!(split(report).1.findings, 0);
}

#[test]
fn envelope() {
    let input = ["alpha", "bravo", "charlie", "delta", "echo", "foxtrot"]
        .map(|value| atom(Some("same-trace"), Value::from(value)))
        .join("\n");
    let report = run(config("locus.trace", 8192), &input).unwrap();
    assert!(report.clean());
    assert_eq!(split(report).1.findings, 0);
}

#[test]
fn untraced() {
    let input = atom(None, Value::from("x".repeat(9_000)));
    let report = run(config("locus.trace", 8192), &input).unwrap();
    assert!(report.clean());
    assert_eq!(split(report).1.findings, 0);
}

#[test]
fn coverage() {
    let empty = Config::load("locus.toml", 1, Vec::new()).unwrap();
    let report = run(empty, &atom(Some("trace"), Value::from("value"))).unwrap();
    let (_, summary) = split(report);
    assert!(summary.coverage.is_empty());
    assert_eq!(summary.records, 1);
}

#[test]
fn threshold() {
    let input = atom(Some("trace"), Value::from("x".repeat(9_000)));
    let report = run(config("locus.trace", 10000), &input).unwrap();
    assert!(report.clean());
    assert_eq!(split(report).1.findings, 0);
}

#[test]
fn cli_role() {
    let mut value: Value =
        serde_json::from_str(&atom(None, Value::from("x".repeat(9_000)))).unwrap();
    value["context"]["agent.cycle"] = Value::from("cycle");
    let report = run(config("agent.cycle", 8192), &value.to_string()).unwrap();
    assert!(!report.clean());
    let (findings, _) = split(report);
    assert_eq!(findings[0].group.role, "agent.cycle");
    assert_eq!(findings[0].group.key, "cycle");
}

#[test]
fn blank() {
    let input = format!("{}\n\n", atom(Some("trace"), Value::from("value")));
    let error = run(config("locus.trace", 8192), &input).err().unwrap();
    assert_eq!(error, "invalid Atom on line 2: empty record");
}

#[test]
fn cli_malformed() {
    let error = run(config("locus.trace", 8192), "{").err().unwrap();
    assert!(error.starts_with("invalid Atom on line 1:"), "{error}");
}

#[test]
fn held_held() {
    let input = [
        framed(0, "outer", "enter"),
        framed(10, "inner", "enter"),
        framed(20, "inner", "return"),
        framed(30, "outer", "return"),
    ]
    .join("\n");
    let report = run(timed(), &input).unwrap();
    assert!(!report.clean());
    let (findings, summary) = split(report);
    assert_eq!(findings[0].analyzer, "trace.held");
    assert_eq!(findings[0].group.role, "locus.trace");
    assert_eq!(findings[0].group.key, "trace");
    match findings[0].measurement {
        Measurement::Held { value, inclusive, spans } => {
            assert_eq!(value, 30);
            assert_eq!(inclusive, 40);
            assert_eq!(spans, 2);
        }
        _ => panic!("expected a held measure"),
    }
    assert_eq!(summary.findings, 1);
    assert_eq!(summary.refused, 0);
}

#[test]
fn under() {
    let input = [framed(0, "brief", "enter"), framed(4, "brief", "return")].join("\n");
    let report = run(timed(), &input).unwrap();
    assert!(report.clean());
    assert_eq!(split(report).1.findings, 0);
}

#[test]
fn refused() {
    let input = [
        framed(0, "outer", "enter"),
        framed(10, "inner", "enter"),
        framed(20, "outer", "return"),
        framed(30, "inner", "return"),
        framed(100, "clean", "enter"),
        framed(130, "clean", "return"),
    ]
    .join("\n");
    let report = run(timed(), &input).unwrap();
    assert!(!report.clean());
    let (findings, summary) = split(report);
    match findings[0].measurement {
        Measurement::Held { value, spans, .. } => {
            assert_eq!(value, 30);
            assert_eq!(spans, 1);
        }
        _ => panic!("expected a held measure"),
    }
    assert_eq!(summary.refused, 2);
}

#[test]
fn inspect_findings_sorted() {
    let config = Config::load(
        "locus.toml",
        1,
        vec![
            analyzer("z.size", "representation-bytes", "locus.trace", 0),
            analyzer("a.size", "representation-bytes", "locus.trace", 0),
        ],
    )
    .unwrap();
    let input = [atom(Some("beta"), Value::from("b")), atom(Some("alpha"), Value::from("a"))]
        .join("\n");
    let (findings, summary) = split(run(config, &input).unwrap());
    let order: Vec<(String, String)> =
        findings.iter().map(|f| (f.analyzer.clone(), f.group.key.clone())).collect();
    assert_eq!(
        order,
        vec![
            ("a.size".to_owned(), "alpha".to_owned()),
            ("a.size".to_owned(), "beta".to_owned()),
            ("z.size".to_owned(), "alpha".to_owned()),
            ("z.size".to_owned(), "beta".to_owned()),
        ]
    );
    assert_eq!(summary.coverage, vec!["z.size".to_owned(), "a.size".to_owned()]);
    assert_eq!(summary.findings, 4);
}

#[test]
fn inspect_config_refusals() {
    assert_eq!(
        Config::load("root/locus.toml", 2, Vec::new()).err().unwrap(),
        "invalid root/locus.toml: unsupported version 2"
    );
    let twice = Config::load(
        "locus.toml",
        1,
        vec![
            analyzer("same", "representation-bytes", "locus.trace", 1),
            analyzer("same", "representation-bytes", "locus.trace", 1),
        ],
    );
    assert_eq!(twice.err().unwrap(), "duplicate analyzer identity: same");
    let spaced = Config::load(
        "locus.toml",
        1,
        vec![analyzer("has space", "representation-bytes", "locus.trace", 1)],
    );
    assert_eq!(
        spaced.err().unwrap(),
        "analyzer identity must contain 1..=128 non-whitespace bytes"
    );
    assert!(validate("").is_err());
    assert!(validate(&"a".repeat(129)).is_err());
    assert!(validate("tab\there").is_err());
    assert!(validate("ideographic\u{3000}space").is_err());
    assert!(validate("trace.size").is_ok());
}

#[test]
fn inspect_threshold_formula() {
    let threshold = Threshold { above: 80 };
    let prefix = |atoms, repeated| Measurement::Prefix { value: 0, atoms, repeated, bytes: 8 };
    assert!(threshold.exceeded(&prefix(6, 5)));
    assert!(!threshold.exceeded(&prefix(5, 4)));
    assert!(threshold.exceeded(&prefix(u64::MAX, u64::MAX)));
    assert!(!Threshold { above: 10 }.exceeded(&Measurement::Bytes { value: 10 }));
    assert!(Threshold { above: 10 }.exceeded(&Measurement::Held { value: 11, inclusive: 11, spans: 1 }));
}

#[test]
fn inspect_content_flattening() {
    let mut members = Vec::new();
    members.push(("b".to_owned(), Payload::Bool(true)));
    members.push(("n".to_owned(), Payload::Null));
    members.push(("x".to_owned(), Payload::List(vec![Payload::Number("7".to_owned())])));
    let record = Atom::recorded(
        1,
        Table::new(),
        Vec::new(),
        Vec::new(),
        Some(Source::code("f.rs", 12, 3, "m").enter("run")),
        Some(Payload::Object(members)),
    );
    let bytes = content(&record).unwrap();
    assert_eq!(bytes, b"f.rs\x1fm\x1frun\x1fenter\x1f12\x1f3\x1ftrue\x1fnull\x1f7".to_vec());
    let long = Atom::recorded(1, Table::new(), Vec::new(), Vec::new(), None, Some(Payload::Text("y".repeat(100))));
    assert_eq!(content(&long).unwrap().len(), 64);
    let none = Atom::recorded(1, Table::new(), Vec::new(), Vec::new(), None, None);
    assert!(content(&none).is_none());
}
