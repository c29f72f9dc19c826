use telos_cli::model::{Author, Constraint, ConstraintSeverity, ConstraintStatus, ObjectId};
use telos_cli::time::Timestamp;
use telos_cli::timeline::{select_timeline, status_counts, timeline_lines, timeline_lines_at, timeline_report};

const DAY: i64 = 86_400;
const T0: i64 = 1_431_648_000; // 2015-05-15

fn id(c: char) -> ObjectId {
    ObjectId::from_hex(&c.to_string().repeat(64)).unwrap()
}

fn constraint(statement: &str, status: ConstraintStatus, secs: i64, impacts: &[&str]) -> Constraint {
    Constraint {
        statement: statement.to_string(),
        severity: ConstraintSeverity::Must,
        status,
        author: Author { name: "Ann".to_string(), email: "ann@example.com".to_string() },
        timestamp: Timestamp::from_unix(secs, 0).unwrap(),
        impacts: impacts.iter().map(|s| s.to_string()).collect(),
        source_intent: id('f'),
        superseded_by: None,
        deprecation_reason: None,
    }
}

fn must() -> &'static str {
    "[\u{1b}[31mMust\u{1b}[39m]  "
}

#[test]
fn selection_filters_and_sorts_oldest_first() {
    let items = vec![
        (id('a'), constraint("late", ConstraintStatus::Active, T0 + 2 * DAY, &["api"])),
        (id('b'), constraint("early", ConstraintStatus::Active, T0, &["db"])),
        (id('c'), constraint("middle", ConstraintStatus::Active, T0 + DAY, &["api", "db"])),
        (id('d'), constraint("early too", ConstraintStatus::Active, T0, &["api"])),
    ];
    let all = select_timeline(&items, &None);
    let names: Vec<&str> = all.iter().map(|(_, c)| c.statement.as_str()).collect();
    assert_eq!(names, vec!["early", "early too", "middle", "late"]);
    let api = select_timeline(&items, &Some("api".to_string()));
    let names: Vec<&str> = api.iter().map(|(_, c)| c.statement.as_str()).collect();
    assert_eq!(names, vec!["early too", "middle", "late"]);
    assert!(select_timeline(&items, &Some("ui".to_string())).is_empty());
}

#[test]
fn counts_by_status() {
    let items = vec![
        (id('a'), constraint("x", ConstraintStatus::Active, T0, &[])),
        (id('b'), constraint("y", ConstraintStatus::Deprecated, T0, &[])),
        (id('c'), constraint("z", ConstraintStatus::Active, T0, &[])),
    ];
    assert_eq!(status_counts(&items), (2, 0, 1));
}

#[test]
fn timeline_text() {
    let mut sup = constraint("old rule", ConstraintStatus::Superseded, T0, &[]);
    sup.superseded_by = Some(id('b'));
    let new = constraint("new rule", ConstraintStatus::Active, T0 + DAY, &[]);
    let mut dep = constraint("gone", ConstraintStatus::Deprecated, T0 + 2 * DAY, &[]);
    dep.deprecation_reason = Some("obsolete".to_string());
    let mut orphan = constraint("lost", ConstraintStatus::Superseded, T0 + 3 * DAY, &[]);
    orphan.superseded_by = Some(id('9'));
    let items = vec![(id('a'), sup), (id('b'), new), (id('c'), dep), (id('d'), orphan)];
    let now = Timestamp::from_unix(T0 + 4 * DAY + 30, 0).unwrap();
    let m = must();
    assert_eq!(
        timeline_lines_at(&items, &now),
        vec![
            "Constraint Timeline".to_string(),
            "───────────────────".to_string(),
            "".to_string(),
            format!("aaaaaaa {} \"old rule\"", m),
            "  ● Created     2015-05-15  ann@example.com".to_string(),
            "  ▲ Superseded  2015-05-16  ann@example.com".to_string(),
            "    └─ by bbbbbbb".to_string(),
            "".to_string(),
            format!("bbbbbbb {} \"new rule\"", m),
            "  ● Created     2015-05-16  ann@example.com".to_string(),
            "    (active 3d)".to_string(),
            "".to_string(),
            format!("ccccccc {} \"gone\"", m),
            "  ✕ Deprecated  2015-05-17  ann@example.com".to_string(),
            "    └─ reason: \"obsolete\"".to_string(),
            "".to_string(),
            format!("ddddddd {} \"lost\"", m),
            "  ● Created     2015-05-18  ann@example.com".to_string(),
            "  ▲ Superseded".to_string(),
            "    └─ by 9999999".to_string(),
            "".to_string(),
            "Active: 1  Superseded: 2  Deprecated: 1".to_string(),
        ]
    );
}

#[test]
fn fresh_constraint_is_active_just_now() {
    let items = vec![(id('a'), constraint("r", ConstraintStatus::Active, T0, &[]))];
    let now = Timestamp::from_unix(T0 + 10, 0).unwrap();
    let lines = timeline_lines_at(&items, &now);
    assert_eq!(lines[5], "    (active just now)");
}

#[test]
fn timeline_uses_the_clock() {
    let items = vec![(id('a'), constraint("r", ConstraintStatus::Active, T0, &[]))];
    let lines = timeline_lines(&items);
    assert!(lines[5].starts_with("    (active ") && lines[5].ends_with("mo)"));
}

#[test]
fn empty_timeline() {
    assert_eq!(timeline_lines_at(&vec![], &Timestamp::from_unix(T0, 0).unwrap()), vec!["No constraints found."]);
    assert_eq!(timeline_report(&vec![], &None), vec!["No constraints found."]);
}

#[test]
fn report_selects_then_renders() {
    let items = vec![
        (id('a'), constraint("b-rule", ConstraintStatus::Deprecated, T0 + DAY, &["api"])),
        (id('b'), constraint("a-rule", ConstraintStatus::Deprecated, T0, &["api"])),
    ];
    let lines = timeline_report(&items, &Some("api".to_string()));
    assert!(lines[3].ends_with("\"a-rule\""));
    assert!(lines[6].ends_with("\"b-rule\""));
    assert_eq!(lines[9], "Active: 0  Superseded: 0  Deprecated: 2");
}
