use locus::atom::{Atom, Payload, Source};
use locus::derive::Ledger;
use locus::input::{invalid, Framing};
use locus::query::{Query, Record as QueryRecord, Selector};
use locus::span::{report, Record as SpanRecord};
use locus::table::Table;
use serde_json::Value;

fn payload(value: &Value) -> Payload {
    match value {
        Value::Null => Payload::Null,
        Value::Bool(b) => Payload::Bool(*b),
        Value::Number(n) => Payload::Number(n.to_string()),
        Value::String(s) => Payload::Text(s.clone()),
        Value::Array(items) => Payload::List(items.iter().map(payload).collect()),
        Value::Object(members) => {
            Payload::Object(members.iter().map(|(k, v)| (k.clone(), payload(v))).collect())
        }
    }
}

fn atom_of(value: &Value) -> Atom {
    let mut context = Table::new();
    if let Some(Value::Object(members)) = value.get("context") {
        for (role, key) in members {
            context.put(role.clone(), key.as_str().unwrap().to_owned());
        }
    }
    let source = value.get("source").map(|s| {
        let code = Source::code(
            s["file"].as_str().unwrap(),
            s["line"].as_u64().unwrap() as u32,
            s["column"].as_u64().unwrap() as u32,
            s["module"].as_str().unwrap(),
        );
        match (s.get("function").and_then(Value::as_str), s.get("edge").and_then(Value::as_str)) {
            (Some(f), Some("enter")) => code.enter(f),
            (Some(f), Some("return")) => code.returned(f),
            _ => code,
        }
    });
    Atom::recorded(
        value["at"].as_u64().unwrap(),
        context,
        Vec::new(),
        Vec::new(),
        source,
        value.get("payload").map(payload),
    )
}

fn scan(input: &str, mut observe: impl FnMut(Atom) -> Result<(), String>) -> Result<u64, String> {
    let mut framing = Framing::new();
    for raw in input.split_inclusive('\n') {
        let line = match framing.next(raw.as_bytes())? {
            Some(line) => line,
            None => break,
        };
        let value: Value = serde_json::from_slice(&raw.as_bytes()[..line.body])
            .map_err(|error| invalid(line.offset, &error.to_string()))?;
        observe(atom_of(&value))?;
    }
    Ok(framing.records())
}

fn query_atom(trace: Option<&str>, span: Option<&str>, text: &str) -> String {
    let mut context = serde_json::Map::new();
    if let Some(trace) = trace {
        context.insert("locus.trace".into(), Value::String(trace.into()));
    }
    if let Some(span) = span {
        context.insert("locus.span".into(), Value::String(span.into()));
    }
    let mut record = serde_json::Map::new();
    record.insert("at".into(), Value::from(1));
    record.insert("context".into(), Value::Object(context));
    record.insert("choices".into(), Value::Array(Vec::new()));
    record.insert("payload".into(), Value::from(text));
    Value::Object(record).to_string()
}

fn query(role: &str, key: Option<&str>, input: &str) -> Result<Vec<QueryRecord>, String> {
    let selector = Selector::new(role, key)?;
    let mut query = Query::new(selector);
    let records = scan(input, |atom| query.observe(atom))?;
    Ok(query.finish(records).records())
}

fn span_atom(at: u64, span: &str, edge: &str, function: &str) -> String {
    let mut context = serde_json::Map::new();
    context.insert("locus.trace".into(), Value::from("t"));
    context.insert("locus.span".into(), Value::from(span));
    let mut source = serde_json::Map::new();
    source.insert("file".into(), Value::from("a.rs"));
    source.insert("line".into(), Value::from(1));
    source.insert("column".into(), Value::from(1));
    source.insert("module".into(), Value::from("m"));
    source.insert("function".into(), Value::from(function));
    source.insert("edge".into(), Value::from(edge));
    let mut record = serde_json::Map::new();
    record.insert("at".into(), Value::from(at));
    record.insert("context".into(), Value::Object(context));
    record.insert("choices".into(), Value::Array(Vec::new()));
    record.insert("source".into(), Value::Object(source));
    Value::Object(record).to_string()
}

fn span(input: &str) -> Result<Vec<SpanRecord>, String> {
    let mut ledger = Ledger::grouped(None);
    let records = scan(input, |atom| ledger.observe(&atom))?;
    Ok(report(ledger, records).records())
}

#[test]
fn identities() {
    let input = [
        query_atom(Some("bravo"), None, "b"),
        query_atom(None, None, "unbound"),
        query_atom(Some("alpha"), Some("one"), "a1"),
        query_atom(Some("alpha"), Some("two"), "a2"),
    ]
    .join("\n");
    let records = query("locus.trace", None, &input).unwrap();
    assert_eq!(records.len(), 3);
    match &records[0] {
        QueryRecord::Identity(i) => {
            assert_eq!(i.key, "alpha");
            assert_eq!(i.records, 2);
        }
        _ => panic!("expected an identity"),
    }
    match &records[1] {
        QueryRecord::Identity(i) => assert_eq!(i.key, "bravo"),
        _ => panic!("expected an identity"),
    }
    match &records[2] {
        QueryRecord::Summary(s) => {
            assert_eq!(s.records, 4);
            assert_eq!(s.matched, 3);
            assert_eq!(s.identities, 2);
        }
        _ => panic!("expected the summary"),
    }
}

#[test]
fn replay() {
    let input = [
        query_atom(Some("alpha"), Some("one"), "first"),
        query_atom(Some("bravo"), Some("two"), "other"),
        query_atom(Some("alpha"), Some("three"), "second"),
    ]
    .join("\n");
    let records = query("locus.trace", Some("alpha"), &input).unwrap();
    assert_eq!(records.len(), 3);
    let texts: Vec<String> = records[..2]
        .iter()
        .map(|record| match record {
            QueryRecord::Atom(m) => match m.atom.payload() {
                Some(Payload::Text(t)) => t.clone(),
                _ => panic!("expected a text payload"),
            },
            _ => panic!("expected a replayed record"),
        })
        .collect();
    assert_eq!(texts, vec!["first".to_owned(), "second".to_owned()]);
    match &records[2] {
        QueryRecord::Summary(s) => {
            assert_eq!(s.records, 3);
            assert_eq!(s.matched, 2);
            assert_eq!(s.identities, 1);
        }
        _ => panic!("expected the summary"),
    }
}

#[test]
fn query_empty() {
    let records = query("locus.span", Some("missing"), "").unwrap();
    assert_eq!(records.len(), 1);
    match &records[0] {
        QueryRecord::Summary(s) => {
            assert_eq!(s.key.as_deref(), Some("missing"));
            assert_eq!(s.records, 0);
            assert_eq!(s.matched, 0);
            assert_eq!(s.identities, 0);
        }
        _ => panic!("expected the summary"),
    }
}

#[test]
fn query_malformed() {
    let input = format!("{}\nnot-json\n", query_atom(Some("alpha"), None, "first"));
    let error = query("locus.trace", None, &input).err().unwrap();
    assert!(error.contains("invalid Atom on line 2"));
}

#[test]
fn query_role() {
    let error = query("bad role", None, "").err().unwrap();
    assert!(error.contains("invalid role"));
}

#[test]
fn span_held() {
    let input = [
        span_atom(0, "a", "enter", "outer"),
        span_atom(10, "b", "enter", "inner"),
        span_atom(20, "b", "return", "inner"),
        span_atom(30, "a", "return", "outer"),
    ]
    .join("\n");
    let records = span(&input).unwrap();
    let declared = |name: &str| {
        records
            .iter()
            .find_map(|record| match record {
                SpanRecord::Declaration(d) if d.declaration == name => Some((d.inclusive, d.held)),
                _ => None,
            })
            .unwrap()
    };
    assert_eq!(declared("m::outer"), (30, 20));
    assert_eq!(declared("m::inner"), (10, 10));
    match records.last().unwrap() {
        SpanRecord::Summary(s) => {
            assert_eq!(s.unclosed, 0);
            assert_eq!(s.matched, 4);
        }
        _ => panic!("expected the summary"),
    }
}

#[test]
fn unclosed() {
    let records = span(&span_atom(0, "a", "enter", "died")).unwrap();
    match records.first().unwrap() {
        SpanRecord::Unclosed(u) => {
            assert_eq!(u.declaration, "m::died");
            assert_eq!(u.span, "a");
            assert_eq!(u.trace, "t");
        }
        _ => panic!("expected an unclosed span"),
    }
    match records.last().unwrap() {
        SpanRecord::Summary(s) => {
            assert_eq!(s.unclosed, 1);
            assert_eq!(s.declarations, 0);
        }
        _ => panic!("expected the summary"),
    }
}

#[test]
fn stray() {
    let error = span(&span_atom(0, "a", "return", "ghost")).err().unwrap();
    assert!(error.contains("returns without entering"));
}

#[test]
fn span_crossing_is_scoped() {
    let input = [
        span_atom(0, "a", "enter", "outer"),
        span_atom(10, "b", "enter", "inner"),
        span_atom(20, "a", "return", "outer"),
        span_atom(30, "b", "return", "inner"),
        span_atom(100, "c", "enter", "clean"),
        span_atom(130, "c", "return", "clean"),
    ]
    .join("\n");
    let records = span(&input).unwrap();
    let tangled: Vec<(u64, u64, u64, Vec<String>)> = records
        .iter()
        .filter_map(|record| match record {
            SpanRecord::Tangled(t) => Some((
                t.at,
                t.until,
                t.spans,
                (0..t.declarations.len()).map(|i| t.declarations.key_at(i).clone()).collect(),
            )),
            _ => None,
        })
        .collect();
    assert_eq!(tangled, vec![(0, 30, 2, vec!["m::inner".to_owned(), "m::outer".to_owned()])]);
    let clean = records
        .iter()
        .find_map(|record| match record {
            SpanRecord::Declaration(d) if d.declaration == "m::clean" => Some((d.spans, d.inclusive, d.held)),
            _ => None,
        })
        .unwrap();
    assert_eq!(clean, (1, 30, 30));
    match records.last().unwrap() {
        SpanRecord::Summary(s) => {
            assert_eq!(s.tangled, 1);
            assert_eq!(s.refused, 2);
            assert_eq!(s.declarations, 1);
        }
        _ => panic!("expected the summary"),
    }
}

#[test]
fn span_refusals() {
    let twice = [span_atom(0, "a", "enter", "f"), span_atom(1, "a", "enter", "f")].join("\n");
    assert_eq!(span(&twice).err().unwrap(), "span a enters again before returning");
    let other = [span_atom(0, "a", "enter", "f"), span_atom(1, "a", "return", "g")].join("\n");
    assert_eq!(span(&other).err().unwrap(), "span a returns from another declaration");
    let early = [span_atom(5, "a", "enter", "f"), span_atom(1, "a", "return", "f")].join("\n");
    assert_eq!(span(&early).err().unwrap(), "span a returns before it enters");
}

#[test]
fn stream_framing() {
    let mut framing = Framing::new();
    let line = framing.next(b"{}\r\n").unwrap().unwrap();
    assert_eq!((line.offset, line.body, line.encoded), (1, 2, 4));
    assert!(framing.next(b"").unwrap().is_none());
    assert_eq!(framing.records(), 1);
    assert_eq!(framing.next(b"\r\n").err().unwrap(), "invalid Atom on line 2: empty record");
    assert_eq!(invalid(7, "bad"), "invalid Atom on line 7: bad");
}

#[test]
fn query_counts_every_binding() {
    let input = [
        query_atom(Some("alpha"), None, "1"),
        query_atom(Some("beta"), None, "2"),
        query_atom(Some("alpha"), None, "3"),
    ]
    .join("\n");
    let records = query("locus.trace", None, &input).unwrap();
    let total: u64 = records
        .iter()
        .filter_map(|record| match record {
            QueryRecord::Identity(i) => Some(i.records),
            _ => None,
        })
        .sum();
    match records.last().unwrap() {
        QueryRecord::Summary(s) => assert_eq!(s.matched, total),
        _ => panic!("expected the summary"),
    }
}

#[test]
fn span_held_covers_the_union() {
    let input = [
        span_atom(0, "a", "enter", "outer"),
        span_atom(5, "b", "enter", "first"),
        span_atom(10, "c", "enter", "deep"),
        span_atom(12, "c", "return", "deep"),
        span_atom(15, "b", "return", "first"),
        span_atom(15, "d", "enter", "second"),
        span_atom(20, "d", "return", "second"),
        span_atom(30, "a", "return", "outer"),
        span_atom(40, "e", "enter", "later"),
        span_atom(50, "e", "return", "later"),
    ]
    .join("\n");
    let records = span(&input).unwrap();
    let held: u128 = records
        .iter()
        .filter_map(|record| match record {
            SpanRecord::Declaration(d) => Some(d.held),
            _ => None,
        })
        .sum();
    assert_eq!(held, 40);
}
