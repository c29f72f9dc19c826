use telos_cli::model::{ConstraintSeverity, ConstraintStatus, ObjectId};
use telos_cli::render::{
    age_label, bar, colored_severity, colored_status, format_age, format_age_at, short_id, status_bullet, truncate,
    tree_continuation, tree_prefix,
};
use telos_cli::time::Timestamp;

#[test]
fn severity_tags_are_coloured_and_padded() {
    assert_eq!(colored_severity(&ConstraintSeverity::Must), "[\u{1b}[31mMust\u{1b}[39m]  ");
    assert_eq!(colored_severity(&ConstraintSeverity::Should), "[\u{1b}[33mShould\u{1b}[39m]");
    assert_eq!(colored_severity(&ConstraintSeverity::Prefer), "[\u{1b}[2mPrefer\u{1b}[0m]");
}

#[test]
fn severity_tags_show_eight_characters_without_colour() {
    for sev in [ConstraintSeverity::Must, ConstraintSeverity::Should, ConstraintSeverity::Prefer] {
        let tag = colored_severity(&sev);
        let plain = tag
            .replace("\u{1b}[31m", "")
            .replace("\u{1b}[33m", "")
            .replace("\u{1b}[39m", "")
            .replace("\u{1b}[2m", "")
            .replace("\u{1b}[0m", "");
        assert_eq!(plain.chars().count(), 8);
    }
}

#[test]
fn statuses_are_coloured() {
    assert_eq!(colored_status(&ConstraintStatus::Active), "\u{1b}[32mActive\u{1b}[39m");
    assert_eq!(colored_status(&ConstraintStatus::Superseded), "\u{1b}[33mSuperseded\u{1b}[39m");
    assert_eq!(colored_status(&ConstraintStatus::Deprecated), "\u{1b}[31mDeprecated\u{1b}[39m");
}

#[test]
fn bullets() {
    assert_eq!(status_bullet(&ConstraintStatus::Active), "●");
    assert_eq!(status_bullet(&ConstraintStatus::Superseded), "○");
    assert_eq!(status_bullet(&ConstraintStatus::Deprecated), "○");
}

#[test]
fn short_id_is_seven_digits() {
    let id = ObjectId::from_hex("0123456789abcdef0123456789abcdef0123456789abcdef0123456789abcdef").unwrap();
    assert_eq!(short_id(&id), "0123456");
    assert_eq!(id.hex().len(), 64);
}

#[test]
fn object_ids_are_checked() {
    assert!(ObjectId::from_hex("abc").is_none());
    assert!(ObjectId::from_hex("ABCDEF0123").is_none());
    assert!(ObjectId::from_hex("abcdefg123").is_none());
    assert!(ObjectId::from_hex("abcdef0").is_some());
}

#[test]
fn tree_prefixes() {
    assert_eq!(tree_prefix(&[]), "");
    assert_eq!(tree_prefix(&[true]), "└─ ");
    assert_eq!(tree_prefix(&[false]), "├─ ");
    assert_eq!(tree_prefix(&[false, true]), "│  └─ ");
    assert_eq!(tree_prefix(&[true, false, false]), "   │  ├─ ");
}

#[test]
fn tree_continuations() {
    assert_eq!(tree_continuation(&[]), "");
    assert_eq!(tree_continuation(&[true]), "   ");
    assert_eq!(tree_continuation(&[false]), "│  ");
    assert_eq!(tree_continuation(&[true, false]), "   │  ");
}

#[test]
fn prefix_and_continuation_align() {
    let levels = [false, true, false];
    let p = tree_prefix(&levels);
    let c = tree_continuation(&levels);
    assert_eq!(p.chars().count(), 9);
    assert_eq!(c.chars().count(), 9);
    let parent = tree_continuation(&levels[..2]);
    assert!(p.starts_with(&parent));
    assert!(c.starts_with(&parent));
}

#[test]
fn bars_are_proportional() {
    assert_eq!(bar(3, 6, 8), "████░░░░");
    assert_eq!(bar(1, 100, 8), "█░░░░░░░");
    assert_eq!(bar(10, 5, 8), "████████");
    assert_eq!(bar(0, 5, 8), "░░░░░░░░");
    assert_eq!(bar(5, 5, 8), "████████");
}

#[test]
fn bar_with_no_maximum_is_empty() {
    assert_eq!(bar(3, 0, 4), "░░░░");
    assert_eq!(bar(0, 0, 0), "");
}

#[test]
fn bars_have_their_width() {
    for count in 0..12usize {
        for max in 0..12usize {
            assert_eq!(bar(count, max, 8).chars().count(), 8);
        }
    }
}

#[test]
fn truncation() {
    assert_eq!(truncate("hello", 10), "hello");
    assert_eq!(truncate("hello", 5), "hello");
    assert_eq!(truncate("hello world", 8), "hello...");
    assert_eq!(truncate("hello", 2), "he");
    assert_eq!(truncate("hello", 3), "hel");
    assert_eq!(truncate("hello", 4), "h...");
}

#[test]
fn truncation_counts_bytes() {
    assert_eq!(truncate("héllo wörld", 7), "hél...");
    assert!(truncate("héllo wörld", 7).len() <= 7);
}

#[test]
fn ages() {
    assert_eq!(age_label(-500), "just now");
    assert_eq!(age_label(0), "just now");
    assert_eq!(age_label(59), "just now");
    assert_eq!(age_label(60), "1m ago");
    assert_eq!(age_label(3599), "59m ago");
    assert_eq!(age_label(3600), "1h ago");
    assert_eq!(age_label(86399), "23h ago");
    assert_eq!(age_label(3 * 86400), "3d ago");
    assert_eq!(age_label(14 * 86400), "2w ago");
    assert_eq!(age_label(29 * 86400), "4w ago");
    assert_eq!(age_label(60 * 86400), "2mo ago");
}

#[test]
fn age_between_instants() {
    let t = Timestamp::from_unix(1_431_648_000, 0).unwrap();
    let later = Timestamp::from_unix(1_431_648_000 + 2 * 3600 + 5, 0).unwrap();
    assert_eq!(format_age_at(&t, &later), "2h ago");
    let earlier = Timestamp::from_unix(1_431_648_000 - 3600, 0).unwrap();
    assert_eq!(format_age_at(&t, &earlier), "just now");
    let half = Timestamp::from_unix(1_431_648_000 + 119, 999_999_999).unwrap();
    assert_eq!(format_age_at(&t, &half), "1m ago");
}

#[test]
fn age_of_an_old_instant_uses_the_clock() {
    let t = Timestamp::from_unix(1_431_648_000, 0).unwrap();
    assert!(format_age(&t).ends_with("mo ago"));
}

#[test]
fn calendar_dates() {
    let t = Timestamp::from_unix(1_431_648_000, 0).unwrap();
    assert_eq!(t.date(), "2015-05-15");
    assert_eq!(Timestamp::from_unix(0, 0).unwrap().date(), "1970-01-01");
    assert!(Timestamp::from_unix(i64::MAX, 0).is_none());
    assert!(Timestamp::from_unix(0, 2_000_000_000).is_none());
}

#[test]
fn instants_order() {
    let a = Timestamp::from_unix(10, 5).unwrap();
    let b = Timestamp::from_unix(10, 6).unwrap();
    let c = Timestamp::from_unix(11, 0).unwrap();
    assert!(a.le(&b) && b.le(&c) && a.le(&a));
    assert!(!c.le(&a));
}
