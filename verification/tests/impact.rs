use telos_cli::impact::{
    collect_file_hits, commit_label, directory_label, impact_lines, intent_ids, listed_files, merge_hits,
    no_changeset_line, select_commit,
    ChangesetObjects, ConstraintHit, IndexHit,
};
use telos_cli::model::{
    Alternative, Author, CodeBinding, Constraint, ConstraintSeverity, ConstraintStatus, DecisionRecord, Intent,
    ObjectId,
};
use telos_cli::paths::normalize_path;
use telos_cli::time::Timestamp;

const T0: i64 = 1_431_648_000;

fn id(c: char) -> ObjectId {
    ObjectId::from_hex(&c.to_string().repeat(64)).unwrap()
}

fn constraint(statement: &str, intent: char) -> Constraint {
    Constraint {
        statement: statement.to_string(),
        severity: ConstraintSeverity::Should,
        status: ConstraintStatus::Active,
        author: Author { name: "Bo".to_string(), email: "bo@example.com".to_string() },
        timestamp: Timestamp::from_unix(T0, 0).unwrap(),
        impacts: vec![],
        source_intent: id(intent),
        superseded_by: None,
        deprecation_reason: None,
    }
}

fn binding(bound: char, path: &str, symbol: Option<&str>) -> CodeBinding {
    CodeBinding { bound_object: id(bound), path: path.to_string(), symbol: symbol.map(String::from) }
}

fn intent(statement: &str) -> Intent {
    Intent {
        statement: statement.to_string(),
        author: Author { name: "Bo".to_string(), email: "bo@example.com".to_string() },
        timestamp: Timestamp::from_unix(T0, 0).unwrap(),
        impacts: vec![],
    }
}

fn decision(intent: char, question: &str, answer: &str) -> DecisionRecord {
    DecisionRecord {
        intent_id: id(intent),
        question: question.to_string(),
        decision: answer.to_string(),
        alternatives: vec![Alternative { description: "other".to_string() }],
    }
}

#[test]
fn paths_are_made_relative_to_the_root() {
    assert_eq!(normalize_path("/repo/sub", "/repo", "x.rs"), "sub/x.rs");
    assert_eq!(normalize_path("/repo", "/repo", "src/lib.rs"), "src/lib.rs");
    assert_eq!(normalize_path("/tmp", "/repo", "/repo/a/b.rs"), "a/b.rs");
    assert_eq!(normalize_path("/elsewhere", "/repo", "y.rs"), "y.rs");
    assert_eq!(normalize_path("/repo", "/repo", "/other/z.rs"), "/other/z.rs");
}

#[test]
fn file_hits_skip_repeats_and_non_constraints() {
    let entries = vec![
        IndexHit {
            binding_type: Some("function".to_string()),
            binding: Some(binding('a', "src/x.rs", Some("run"))),
            constraint: Some(constraint("first", '1')),
        },
        IndexHit { binding_type: None, binding: None, constraint: None },
        IndexHit {
            binding_type: None,
            binding: Some(binding('a', "src/x.rs", None)),
            constraint: Some(constraint("first", '1')),
        },
        IndexHit { binding_type: None, binding: Some(binding('b', "src/x.rs", None)), constraint: None },
        IndexHit {
            binding_type: None,
            binding: Some(binding('c', "src/x.rs", None)),
            constraint: Some(constraint("second", '2')),
        },
    ];
    let hits = collect_file_hits(&entries);
    assert_eq!(hits.len(), 2);
    assert_eq!(hits[0].id.hex(), "a".repeat(64));
    assert_eq!(hits[0].symbol.as_deref(), Some("run"));
    assert_eq!(hits[0].binding_type, "function");
    assert_eq!(hits[1].constraint.statement, "second");
    assert_eq!(hits[1].symbol, None);
    assert_eq!(hits[1].binding_type, "file");
}

fn hit(c: char, statement: &str, intent: char) -> ConstraintHit {
    ConstraintHit { id: id(c), constraint: constraint(statement, intent), symbol: None, binding_type: "file".to_string() }
}

#[test]
fn directory_hits_are_merged_once() {
    let groups = vec![vec![hit('a', "A", '1'), hit('b', "B", '1')], vec![], vec![hit('b', "B", '1'), hit('c', "C", '2')]];
    let merged = merge_hits(&groups);
    let names: Vec<&str> = merged.iter().map(|h| h.constraint.statement.as_str()).collect();
    assert_eq!(names, vec!["A", "B", "C"]);
}

#[test]
fn intents_are_read_once() {
    let hits = vec![hit('a', "A", '1'), hit('b', "B", '2'), hit('c', "C", '1')];
    let ids: Vec<String> = intent_ids(&hits).iter().map(|i| i.hex().to_string()).collect();
    assert_eq!(ids, vec!["1".repeat(64), "2".repeat(64)]);
}

#[test]
fn labels() {
    assert_eq!(directory_label("src/", 3), "src/ (3 files)");
    assert_eq!(directory_label("src//", 1), "src/ (1 files)");
    assert_eq!(directory_label("src", 0), "src/ (0 files)");
    assert_eq!(commit_label("abc123"), "commit abc123");
}

#[test]
fn commit_objects_are_taken_once() {
    let changesets = vec![
        ChangesetObjects {
            constraints: vec![(id('a'), Some(constraint("A", '1'))), (id('e'), None)],
            intents: vec![(id('1'), Some(intent("goal")))],
            decisions: vec![(id('d'), Some(decision('1', "Q?", "yes")))],
        },
        ChangesetObjects {
            constraints: vec![(id('a'), Some(constraint("A", '1'))), (id('b'), Some(constraint("B", '1')))],
            intents: vec![(id('1'), Some(intent("goal"))), (id('b'), Some(intent("never")))],
            decisions: vec![],
        },
    ];
    let sel = select_commit(&changesets);
    let names: Vec<&str> = sel.hits.iter().map(|h| h.constraint.statement.as_str()).collect();
    assert_eq!(names, vec!["A", "B"]);
    assert_eq!(sel.hits[0].binding_type, "changeset");
    assert_eq!(sel.intents.len(), 1);
    assert_eq!(sel.intents[0].1.statement, "goal");
    assert_eq!(sel.decisions.len(), 1);
}

#[test]
fn impact_text() {
    let mut h1 = hit('a', "Keep it fast", '1');
    h1.symbol = Some("handle".to_string());
    h1.binding_type = "function".to_string();
    let mut h2 = hit('b', "No secrets", '1');
    h2.constraint.status = ConstraintStatus::Deprecated;
    h2.symbol = Some("Config".to_string());
    h2.binding_type = "struct".to_string();
    let h3 = hit('c', "Log it", '2');
    let intents = vec![(id('1'), intent("Be quick")), (id('2'), intent("Be safe"))];
    let decisions = vec![(id('d'), decision('1', "Cache?", "Yes")), (id('e'), decision('1', "TTL?", "60s"))];
    let should = "[\u{1b}[33mShould\u{1b}[39m]";
    assert_eq!(
        impact_lines("src/x.rs", &vec![h1, h2, h3], &intents, &decisions),
        vec![
            "Impact: src/x.rs".to_string(),
            "─".repeat(16),
            "".to_string(),
            "Constraints (3):".to_string(),
            format!("  {} ● \"Keep it fast\"", should),
            "             constraint aaaaaaa · bound to handle()".to_string(),
            format!("  {} ○ \"No secrets\"", should),
            "             constraint bbbbbbb · bound to Config".to_string(),
            format!("  {} ● \"Log it\"", should),
            "             constraint ccccccc · bound to file".to_string(),
            "".to_string(),
            "Intents (2):".to_string(),
            "  intent 1111111 \"Be quick\"".to_string(),
            "  └─ 2 decisions recorded".to_string(),
            "  intent 2222222 \"Be safe\"".to_string(),
            "".to_string(),
            "Decisions (2):".to_string(),
            "  decision ddddddd \"Yes\"".to_string(),
            "  decision eeeeeee \"60s\"".to_string(),
        ]
    );
}

#[test]
fn impact_of_nothing() {
    assert_eq!(
        impact_lines("commit 1234", &vec![], &vec![], &vec![]),
        vec!["Impact: commit 1234".to_string(), "─".repeat(19), "".to_string(), "  No constraints or bindings found.".to_string()]
    );
}

#[test]
fn impact_rule_counts_bytes() {
    let lines = impact_lines("é", &vec![], &vec![], &vec![]);
    assert_eq!(lines[1], "─".repeat(10));
}

#[test]
fn listing_keeps_nonempty_lines_in_order() {
    let files = listed_files("src/a.rs\r\n\nsrc/b.rs\n\nlib/c.rs");
    assert_eq!(files, vec!["src/a.rs".to_string(), "src/b.rs".to_string(), "lib/c.rs".to_string()]);
}

#[test]
fn listing_of_nothing_is_empty() {
    assert!(listed_files("").is_empty());
    assert!(listed_files("\n\n").is_empty());
    assert_eq!(listed_files("one\n"), vec!["one".to_string()]);
}

#[test]
fn missing_changeset_message() {
    assert_eq!(no_changeset_line("abc1234"), "No changeset found for commit abc1234");
}
