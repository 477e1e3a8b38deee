use conduit_sync::account_data::AccountData;
use conduit_sync::counter::Globals;
use conduit_sync::json::is_valid_account_payload;
use conduit_sync::Error;

fn s(x: &str) -> String {
    x.to_string()
}

#[test]
fn next_count_increases() {
    let mut g = Globals::new();
    assert_eq!(g.current_count(), 0);
    assert_eq!(g.next_count(), Ok(1));
    assert_eq!(g.next_count(), Ok(2));
    assert_eq!(g.current_count(), 2);
    let mut full = Globals::starting_at(u64::MAX);
    assert_eq!(full.next_count(), Err(Error::CounterExhausted));
}

#[test]
fn payload_needs_type_and_content() {
    assert!(is_valid_account_payload(br#"{"type":"m.tag","content":{}}"#));
    assert!(!is_valid_account_payload(br#"{"type":"m.tag"}"#));
    assert!(!is_valid_account_payload(br#"{"content":{}}"#));
    assert!(!is_valid_account_payload(b"[1,2]"));
    assert!(!is_valid_account_payload(b"not json"));
}

#[test]
fn update_then_get_returns_latest() {
    let mut g = Globals::new();
    let mut ad = AccountData::new();
    let user = s("@a:x");
    let kind = s("m.tag");
    let first = br#"{"type":"m.tag","content":{"n":1}}"#.to_vec();
    let second = br#"{"type":"m.tag","content":{"n":2}}"#.to_vec();
    assert_eq!(ad.update(&None, &user, &kind, &first, &mut g), Ok(()));
    assert_eq!(ad.get(&None, &user, &kind), Some(first.clone()));
    assert_eq!(ad.update(&None, &user, &kind, &second, &mut g), Ok(()));
    assert_eq!(ad.get(&None, &user, &kind), Some(second.clone()));
    assert_eq!(ad.get(&Some(s("!r:x")), &user, &kind), None);
}

#[test]
fn one_record_after_many_updates() {
    let mut g = Globals::new();
    let mut ad = AccountData::new();
    let user = s("@a:x");
    let kind = s("m.tag");
    for n in 0..5 {
        let payload = format!(r#"{{"type":"m.tag","content":{{"n":{}}}}}"#, n).into_bytes();
        assert_eq!(ad.update(&None, &user, &kind, &payload, &mut g), Ok(()));
    }
    let changes = ad.changes_since(&None, &user, 0);
    assert_eq!(changes.len(), 1);
    assert_eq!(changes[0].0, kind);
    assert_eq!(changes[0].1, br#"{"type":"m.tag","content":{"n":4}}"#.to_vec());
}

#[test]
fn invalid_payload_is_rejected() {
    let mut g = Globals::new();
    let mut ad = AccountData::new();
    let r = ad.update(&None, &s("@a:x"), &s("m.tag"), &br#"{"type":"m.tag"}"#.to_vec(), &mut g);
    assert_eq!(r, Err(Error::InvalidParam));
    assert_eq!(ad.get(&None, &s("@a:x"), &s("m.tag")), None);
}

#[test]
fn changes_since_skips_older_and_other_scopes() {
    let mut g = Globals::new();
    let mut ad = AccountData::new();
    let user = s("@a:x");
    let room = Some(s("!r:x"));
    let p = |t: &str| format!(r#"{{"type":"{}","content":{{}}}}"#, t).into_bytes();
    ad.update(&None, &user, &s("a"), &p("a"), &mut g).unwrap();
    ad.update(&None, &user, &s("b"), &p("b"), &mut g).unwrap();
    ad.update(&room, &user, &s("c"), &p("c"), &mut g).unwrap();
    ad.update(&None, &s("@b:x"), &s("d"), &p("d"), &mut g).unwrap();
    let since_one = ad.changes_since(&None, &user, 1);
    assert_eq!(since_one, vec![(s("b"), p("b"))]);
    let all = ad.changes_since(&None, &user, 0);
    assert_eq!(all, vec![(s("a"), p("a")), (s("b"), p("b"))]);
    assert_eq!(ad.changes_since(&room, &user, 0), vec![(s("c"), p("c"))]);
    assert!(ad.changes_since(&None, &user, 4).is_empty());
}
