use conduit_sync::ids::is_valid_user_id;
use conduit_sync::push::{check_scope, new_rule, PushRule, RuleKind, Ruleset};
use conduit_sync::Error;

fn s(x: &str) -> String {
    x.to_string()
}

fn rule(id: &str) -> PushRule {
    new_rule(s(id), br#"["notify"]"#.to_vec(), b"[]".to_vec(), None)
}

fn empty() -> Ruleset {
    Ruleset { override_: vec![], underride: vec![], sender: vec![], room: vec![], content: vec![] }
}

#[test]
fn upsert_replaces_in_place() {
    let mut rs = empty();
    rs.upsert(RuleKind::Room, rule("a"));
    rs.upsert(RuleKind::Room, rule("b"));
    let mut changed = rule("a");
    changed.actions = br#"["dont_notify"]"#.to_vec();
    rs.upsert(RuleKind::Room, changed);
    let ids: Vec<&str> = rs.room.iter().map(|r| r.rule_id.as_str()).collect();
    assert_eq!(ids, vec!["a", "b"]);
    assert_eq!(rs.actions(RuleKind::Room, &s("a")), Some(&br#"["dont_notify"]"#.to_vec()));
    assert!(rs.override_.is_empty());
    assert!(rs.get(RuleKind::Override, &s("a")).is_none());
}

#[test]
fn enable_disable_and_delete() {
    let mut rs = empty();
    rs.upsert(RuleKind::Content, rule("c"));
    assert!(rs.enabled(RuleKind::Content, &s("c")));
    assert!(rs.set_enabled(RuleKind::Content, &s("c"), false));
    assert!(!rs.enabled(RuleKind::Content, &s("c")));
    assert!(!rs.set_enabled(RuleKind::Content, &s("missing"), true));
    assert!(!rs.enabled(RuleKind::Content, &s("missing")));
    assert!(rs.set_actions(RuleKind::Content, &s("c"), b"[]".to_vec()));
    assert_eq!(rs.actions(RuleKind::Content, &s("c")), Some(&b"[]".to_vec()));
    assert!(rs.remove(RuleKind::Content, &s("c")));
    assert!(!rs.remove(RuleKind::Content, &s("c")));
    assert!(rs.content.is_empty());
}

#[test]
fn only_the_global_scope_is_kept() {
    assert_eq!(check_scope(&s("global")), Ok(()));
    assert_eq!(check_scope(&s("device")), Err(Error::InvalidParam));
}

#[test]
fn user_ids_are_checked() {
    assert!(is_valid_user_id(&s("@alice:example.org")));
    assert!(!is_valid_user_id(&s("alice:example.org")));
    assert!(!is_valid_user_id(&s("@alice")));
}

#[test]
fn deleting_an_unknown_rule_is_not_found() {
    let mut rs = empty();
    rs.upsert(RuleKind::Sender, rule("s"));
    assert_eq!(rs.delete(RuleKind::Sender, &s("other")), Err(Error::NotFound));
    assert_eq!(rs.delete(RuleKind::Sender, &s("s")), Ok(()));
    assert!(rs.sender.is_empty());
    assert!(rs.has_unique_ids());
    rs.sender = vec![rule("d"), rule("d")];
    assert!(!rs.has_unique_ids());
}
