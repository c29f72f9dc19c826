use telos_cli::graph::{bindings_for, constraints_for, graph_lines};
use telos_cli::model::{
    Alternative, Author, CodeBinding, Constraint, ConstraintSeverity, ConstraintStatus, DecisionRecord, Intent,
    ObjectId,
};
use telos_cli::time::Timestamp;

const T0: i64 = 1_431_648_000;

fn id(c: char) -> ObjectId {
    ObjectId::from_hex(&c.to_string().repeat(64)).unwrap()
}

fn constraint(statement: &str, intent: char, status: ConstraintStatus) -> Constraint {
    Constraint {
        statement: statement.to_string(),
        severity: ConstraintSeverity::Prefer,
        status,
        author: Author { name: "Cy".to_string(), email: "cy@example.com".to_string() },
        timestamp: Timestamp::from_unix(T0, 0).unwrap(),
        impacts: vec![],
        source_intent: id(intent),
        superseded_by: None,
        deprecation_reason: None,
    }
}

fn intent(statement: &str, impacts: &[&str]) -> Intent {
    Intent {
        statement: statement.to_string(),
        author: Author { name: "Cy".to_string(), email: "cy@example.com".to_string() },
        timestamp: Timestamp::from_unix(T0, 0).unwrap(),
        impacts: impacts.iter().map(|s| s.to_string()).collect(),
    }
}

fn binding(bound: char, path: &str, symbol: Option<&str>) -> CodeBinding {
    CodeBinding { bound_object: id(bound), path: path.to_string(), symbol: symbol.map(String::from) }
}

fn prefer() -> &'static str {
    "[\u{1b}[2mPrefer\u{1b}[0m]"
}

#[test]
fn constraints_and_bindings_are_grouped() {
    let all = vec![
        (id('a'), constraint("A", '1', ConstraintStatus::Active)),
        (id('b'), constraint("B", '2', ConstraintStatus::Active)),
        (id('c'), constraint("C", '1', ConstraintStatus::Active)),
    ];
    let found = constraints_for(&all, &id('1'));
    let of1: Vec<&str> = found.iter().map(|(_, c)| c.statement.as_str()).collect();
    assert_eq!(of1, vec!["A", "C"]);
    let bs = vec![binding('a', "x.rs", None), binding('b', "y.rs", None), binding('a', "z.rs", None)];
    let found = bindings_for(&bs, &id('a'));
    let paths: Vec<&str> = found.iter().map(|b| b.path.as_str()).collect();
    assert_eq!(paths, vec!["x.rs", "z.rs"]);
}

fn sample() -> (Vec<(ObjectId, Intent)>, Vec<(ObjectId, Constraint)>, Vec<CodeBinding>, Vec<Vec<(ObjectId, DecisionRecord)>>) {
    let mut sup = constraint("Old way", '1', ConstraintStatus::Superseded);
    sup.superseded_by = Some(id('c'));
    let constraints = vec![
        (id('a'), constraint("Use TLS", '1', ConstraintStatus::Active)),
        (id('b'), sup),
        (id('e'), constraint("Other", '2', ConstraintStatus::Deprecated)),
    ];
    let bindings = vec![binding('a', "src/net.rs", Some("connect")), binding('a', "src/tls.rs", None)];
    let intents = vec![(id('1'), intent("Secure transport", &["net", "security"])), (id('2'), intent("Misc", &[]))];
    let decisions = vec![
        vec![(
            id('d'),
            DecisionRecord {
                intent_id: id('1'),
                question: "Which TLS?".to_string(),
                decision: "rustls".to_string(),
                alternatives: vec![
                    Alternative { description: "openssl".to_string() },
                    Alternative { description: "none".to_string() },
                ],
            },
        )],
        vec![],
    ];
    (intents, constraints, bindings, decisions)
}

#[test]
fn graph_at_full_depth() {
    let (intents, constraints, bindings, decisions) = sample();
    let p = prefer();
    assert_eq!(
        graph_lines(&intents, &constraints, &bindings, &decisions, None),
        vec![
            "Intent 1111111 \"Secure transport\"".to_string(),
            "│ cy@example.com · 2015-05-15 · impacts: net, security".to_string(),
            "│".to_string(),
            format!("├─ {} ● constraint aaaaaaa", p),
            "│  \"Use TLS\"".to_string(),
            "│  ├─ src/net.rs :: connect".to_string(),
            "│  └─ src/tls.rs".to_string(),
            "│".to_string(),
            format!("├─ {} ○ constraint bbbbbbb  (superseded)", p),
            "│  \"Old way\"".to_string(),
            "│  └─ superseded by ccccccc".to_string(),
            "│".to_string(),
            "└─ decision ddddddd".to_string(),
            "   Q: Which TLS?".to_string(),
            "   A: rustls".to_string(),
            "   Rejected: openssl, none".to_string(),
            "".to_string(),
            "Intent 2222222 \"Misc\"".to_string(),
            "│ cy@example.com · 2015-05-15 · impacts: none".to_string(),
            "│".to_string(),
            format!("└─ {} ○ constraint eeeeeee  (deprecated)", p),
            "   \"Other\"".to_string(),
            "".to_string(),
        ]
    );
}

#[test]
fn graph_at_depth_one_hides_bindings() {
    let (intents, constraints, bindings, decisions) = sample();
    let lines = graph_lines(&intents, &constraints, &bindings, &decisions, Some(1));
    assert!(!lines.iter().any(|l| l.contains("src/net.rs") || l.contains("superseded by")));
    assert!(lines.iter().any(|l| l.contains("constraint aaaaaaa")));
}

#[test]
fn graph_at_depth_zero_shows_intents_only() {
    let (intents, constraints, bindings, decisions) = sample();
    assert_eq!(
        graph_lines(&intents, &constraints, &bindings, &decisions, Some(0)),
        vec![
            "Intent 1111111 \"Secure transport\"",
            "│ cy@example.com · 2015-05-15 · impacts: net, security",
            "│",
            "",
            "Intent 2222222 \"Misc\"",
            "│ cy@example.com · 2015-05-15 · impacts: none",
            "│",
            "",
        ]
    );
}

#[test]
fn graph_of_no_intents() {
    assert_eq!(graph_lines(&vec![], &vec![], &vec![], &vec![], None), vec!["No intents found."]);
}
