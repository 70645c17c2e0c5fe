use harmony::data::{
    generate_id, generate_id_unlike, id_from_draws, id_from_draws_unlike, AccessToken, AppData,
};
use harmony::errors::{ErrorKind, SyncError};
use std::time::{Duration, SystemTime, UNIX_EPOCH};

fn is_id(s: &str) -> bool {
    s.len() == 32 && s.chars().all(|c| c.is_ascii_alphanumeric())
}

#[test]
fn identifiers_are_32_letters_and_digits() {
    for _ in 0..200 {
        assert!(is_id(&generate_id()));
    }
}

#[test]
fn identifiers_differ() {
    let a = generate_id();
    let b = generate_id();
    let c = generate_id();
    assert!(a != b && b != c && a != c);
    // each of the 62 characters is drawn sooner or later
    let mut seen = std::collections::HashSet::new();
    for _ in 0..400 {
        for ch in generate_id().chars() {
            seen.insert(ch);
        }
    }
    assert_eq!(seen.len(), 62);
}

#[test]
fn a_new_token_is_for_its_device() {
    let before = SystemTime::now();
    let token = AccessToken::new("laptop".to_string());
    let after = SystemTime::now();
    assert_eq!(token.device_name(), "laptop");
    assert!(is_id(token.token()));
    assert_eq!(token.created_at(), token.last_use());
    assert!(before <= token.created_at() && token.created_at() <= after);
}

#[test]
fn a_restored_token_is_as_stored() {
    let created = UNIX_EPOCH + Duration::from_secs(100);
    let used = UNIX_EPOCH + Duration::from_secs(200);
    let token = AccessToken::restore("phone".to_string(), "t".repeat(32), created, used);
    assert_eq!(token.device_name(), "phone");
    assert_eq!(token.token(), "t".repeat(32));
    assert_eq!(token.created_at(), created);
    assert_eq!(token.last_use(), used);
}

#[test]
fn tokens_are_created_behind_the_others() {
    let mut data = AppData::empty();
    assert!(data.access_tokens().is_empty());
    let first = data.create_access_token("one".to_string()).token().to_string();
    let second = data.create_access_token("two".to_string()).token().to_string();
    assert!(first != second);
    let tokens = data.access_tokens();
    assert_eq!(tokens.len(), 2);
    assert_eq!(tokens[0].device_name(), "one");
    assert_eq!(tokens[0].token(), first);
    assert_eq!(tokens[1].device_name(), "two");
    assert_eq!(tokens[1].token(), second);
}

#[test]
fn a_token_is_found_by_its_value_and_marked_as_used() {
    let long_ago = UNIX_EPOCH + Duration::from_secs(1);
    let mut data = AppData::from_tokens(vec![
        AccessToken::restore("a".to_string(), "A".repeat(32), long_ago, long_ago),
        AccessToken::restore("b".to_string(), "B".repeat(32), long_ago, long_ago),
        AccessToken::restore("b2".to_string(), "B".repeat(32), long_ago, long_ago),
    ]);
    let before = SystemTime::now();
    let found = data.get_access_token(&"B".repeat(32)).expect("the token is there");
    assert_eq!(found.device_name(), "b");
    assert_eq!(found.created_at(), long_ago);
    assert!(found.last_use() >= before);
    let tokens = data.access_tokens();
    assert_eq!(tokens.len(), 3);
    assert_eq!(tokens[0].last_use(), long_ago);
    assert!(tokens[1].last_use() >= before);
    assert_eq!(tokens[1].token(), "B".repeat(32));
    assert_eq!(tokens[2].last_use(), long_ago);
    assert_eq!(tokens[2].device_name(), "b2");
}

#[test]
fn an_unknown_token_is_not_found() {
    let long_ago = UNIX_EPOCH + Duration::from_secs(1);
    let mut data = AppData::from_tokens(vec![AccessToken::restore(
        "a".to_string(),
        "A".repeat(32),
        long_ago,
        long_ago,
    )]);
    assert!(data.get_access_token(&"C".repeat(32)).is_none());
    assert!(data.get_access_token("").is_none());
    assert!(data.get_access_token(&"A".repeat(31)).is_none());
    assert_eq!(data.access_tokens()[0].last_use(), long_ago);
    assert!(AppData::empty().get_access_token("x").is_none());
}

#[test]
fn requests_are_let_through_by_their_token() {
    let mut data = AppData::empty();
    let token = data.create_access_token("laptop".to_string()).token().to_string();
    assert!(data.authenticate(&token).is_ok());
    let refused = data.authenticate("not a token").unwrap_err();
    assert!(matches!(refused, SyncError::InvalidAccessToken));
    assert_eq!(refused.kind(), ErrorKind::Forbidden);
    assert_eq!(refused.http_code(), 403);
}

#[test]
fn a_token_is_handed_out_for_the_right_secret() {
    let mut data = AppData::empty();
    let token = data.request_access_token("s3cret", "s3cret", "laptop".to_string()).unwrap();
    assert!(is_id(&token));
    assert_eq!(data.access_tokens().len(), 1);
    assert_eq!(data.access_tokens()[0].token(), token);
    assert_eq!(data.access_tokens()[0].device_name(), "laptop");
    assert!(data.authenticate(&token).is_ok());
}

#[test]
fn no_token_is_handed_out_for_a_wrong_secret() {
    let mut data = AppData::empty();
    for wrong in ["", "s3cre", "s3cret ", "S3cret", "s3cret\0"] {
        let refused = data.request_access_token(wrong, "s3cret", "laptop".to_string()).unwrap_err();
        assert!(matches!(refused, SyncError::InvalidSecret));
        assert_eq!(refused.kind(), ErrorKind::BadRequest);
        assert_eq!(refused.http_code(), 400);
    }
    assert!(data.access_tokens().is_empty());
}

#[test]
fn a_use_is_noted_at_the_time_given() {
    let created = UNIX_EPOCH + Duration::from_secs(100);
    let used = UNIX_EPOCH + Duration::from_secs(200);
    let later = UNIX_EPOCH + Duration::new(300, 5);
    let mut token = AccessToken::restore("phone".to_string(), "t".repeat(32), created, used);
    token.mark_used(later);
    assert_eq!(token.last_use(), later);
    assert_eq!(token.created_at(), created);
    assert_eq!(token.device_name(), "phone");
    assert_eq!(token.token(), "t".repeat(32));
    // an earlier time is taken as it is given
    token.mark_used(created);
    assert_eq!(token.last_use(), created);
}

const CHARSET: &str = "abcdefghijklmnopqrstuvwxyzABCDEFGHIJKLMNOPQRSTUVWXYZ0123456789";

#[test]
fn draws_spell_an_identifier() {
    let draws: Vec<usize> = (0..32).collect();
    assert_eq!(id_from_draws(&draws).unwrap(), "abcdefghijklmnopqrstuvwxyzABCDEF");
    let draws: Vec<usize> = (30..62).collect();
    assert_eq!(id_from_draws(&draws).unwrap(), "EFGHIJKLMNOPQRSTUVWXYZ0123456789");
    assert_eq!(id_from_draws(&vec![0; 32]).unwrap(), "a".repeat(32));
    assert_eq!(id_from_draws(&vec![61; 32]).unwrap(), "9".repeat(32));
    let mut draws = vec![25; 32];
    draws[0] = 26;
    draws[31] = 52;
    assert_eq!(id_from_draws(&draws).unwrap(), format!("A{}0", "z".repeat(30)));
    for (at, expected) in CHARSET.chars().enumerate() {
        let id = id_from_draws(&vec![at; 32]).unwrap();
        assert!(id.chars().all(|c| c == expected), "{at}");
    }
}

#[test]
fn numbers_that_are_no_draws_spell_nothing() {
    assert_eq!(id_from_draws(&vec![]), None);
    assert_eq!(id_from_draws(&vec![0; 31]), None);
    assert_eq!(id_from_draws(&vec![0; 33]), None);
    let mut draws = vec![0; 32];
    draws[31] = 62;
    assert_eq!(id_from_draws(&draws), None);
    draws[31] = usize::MAX;
    assert_eq!(id_from_draws(&draws), None);
    assert_eq!(id_from_draws_unlike("x", &draws), None);
    assert_eq!(id_from_draws_unlike("x", &vec![1; 3]), None);
}

#[test]
fn draws_spell_an_identifier_unlike_another() {
    let draws: Vec<usize> = (0..32).collect();
    // what the draws spell is taken where it is unlike the other
    assert_eq!(
        id_from_draws_unlike("something else", &draws).unwrap(),
        "abcdefghijklmnopqrstuvwxyzABCDEF"
    );
    assert_eq!(
        id_from_draws_unlike(&"a".repeat(32), &draws).unwrap(),
        "abcdefghijklmnopqrstuvwxyzABCDEF"
    );
    // where it is the other, the first draw is moved on
    assert_eq!(
        id_from_draws_unlike("abcdefghijklmnopqrstuvwxyzABCDEF", &draws).unwrap(),
        "bbcdefghijklmnopqrstuvwxyzABCDEF"
    );
    assert_eq!(
        id_from_draws_unlike(&"9".repeat(32), &vec![61; 32]).unwrap(),
        format!("a{}", "9".repeat(31))
    );
    assert_eq!(
        id_from_draws_unlike(&"z".repeat(32), &vec![25; 32]).unwrap(),
        format!("A{}", "z".repeat(31))
    );
}

#[test]
fn an_identifier_is_drawn_unlike_another() {
    let old = generate_id();
    for _ in 0..100 {
        let new = generate_id_unlike(&old);
        assert!(is_id(&new));
        assert!(new != old);
    }
}
