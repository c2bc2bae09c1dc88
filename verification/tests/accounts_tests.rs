use irc_chat::accounts::{load_users, login_user, record_registration, register_user, save_users, UserDb};
use irc_chat::error::ServerError;
use irc_chat::name_map::NameMap;

const PASSWORD_HASH: &str = "$2a$04$UuTkLRZZ6QofpDOlMz32MuuxEHA43WOemOYHPz6.SjsVsyO1tDU96";

fn db_with(name: &str, hash: &str) -> UserDb {
    NameMap::from_pairs(&vec![(name.to_string(), hash.to_string())])
}

#[test]
fn register_then_login_succeeds() {
    let mut users: UserDb = NameMap::new();
    let reply = register_user("REGISTER alice s3cret word", &mut users).unwrap();
    assert_eq!(reply, "Registration succesful.\r\n");
    assert!(users.contains_key("alice"));
    let stored = users.get("alice").unwrap();
    assert_ne!(stored, "s3cret word");
    assert_eq!(stored.len(), 60);
    assert!(stored.starts_with("$2b$12$"));
    assert!(stored.is_ascii());
    let mut nick = String::new();
    let reply = login_user("LOGIN alice s3cret word", &users, &mut nick).unwrap();
    assert_eq!(reply, "Login successful.\r\n");
    assert_eq!(nick, "alice");
}

#[test]
fn register_usage_when_parts_are_missing() {
    let mut users: UserDb = NameMap::new();
    assert_eq!(register_user("REGISTER alice", &mut users).unwrap(), "Usage: REGISTER <username> <password>\r\n");
    assert_eq!(register_user("REGISTER", &mut users).unwrap(), "Usage: REGISTER <username> <password>\r\n");
    assert_eq!(users.len(), 0);
}

#[test]
fn record_registration_keeps_taken_names() {
    let mut users = db_with("alice", PASSWORD_HASH);
    let reply = record_registration("alice", Some("other".to_string()), &mut users).unwrap();
    assert_eq!(reply, "Username already exists.\r\n");
    assert_eq!(users.get("alice").unwrap(), PASSWORD_HASH);
    let reply = record_registration("bob", Some("h".to_string()), &mut users).unwrap();
    assert_eq!(reply, "Registration succesful.\r\n");
    assert_eq!(users.get("bob").unwrap(), "h");
    assert_eq!(users.len(), 2);
    assert_eq!(record_registration("carol", None, &mut users), Err(ServerError::HashFailed));
    assert!(!users.contains_key("carol"));
}

#[test]
fn login_outcomes() {
    let users = db_with("alice", PASSWORD_HASH);
    let mut nick = String::from("old");
    assert_eq!(login_user("LOGIN alice wrong", &users, &mut nick).unwrap(), "Invalid password.\r\n");
    assert_eq!(nick, "old");
    assert_eq!(login_user("LOGIN bob password", &users, &mut nick).unwrap(), "User not found.\r\n");
    assert_eq!(login_user("LOGIN alice", &users, &mut nick).unwrap(), "Usage: LOGIN <username> <password>\r\n");
    assert_eq!(nick, "old");
    assert_eq!(login_user("LOGIN alice password", &users, &mut nick).unwrap(), "Login successful.\r\n");
    assert_eq!(nick, "alice");
}

#[test]
fn login_against_a_malformed_hash_fails() {
    let users = db_with("alice", "not a bcrypt hash");
    let mut nick = String::new();
    assert_eq!(login_user("LOGIN alice password", &users, &mut nick), Err(ServerError::VerifyFailed));
    assert_eq!(nick, "");
}

#[test]
fn saved_users_load_back() {
    let users = NameMap::from_pairs(&vec![
        ("alice".to_string(), PASSWORD_HASH.to_string()),
        ("bob \"quoted\"".to_string(), "h\\2\n".to_string()),
    ]);
    let text = save_users(&users).unwrap();
    let parsed: std::collections::HashMap<String, String> = serde_json::from_str(&text).unwrap();
    assert_eq!(parsed.len(), 2);
    let loaded = load_users(Some(&text));
    assert_eq!(loaded.len(), 2);
    assert_eq!(loaded.get("alice").unwrap(), PASSWORD_HASH);
    assert_eq!(loaded.get("bob \"quoted\"").unwrap(), "h\\2\n");
}

#[test]
fn load_users_defaults_to_empty() {
    assert_eq!(load_users(None).len(), 0);
    assert_eq!(load_users(Some("not json")).len(), 0);
    assert_eq!(load_users(Some("[1, 2]")).len(), 0);
    let users = load_users(Some("{\"a\":\"1\",\"b\":\"2\",\"a\":\"3\"}"));
    assert_eq!(users.len(), 2);
    assert_eq!(users.get("a").unwrap(), "3");
    assert_eq!(save_users(&load_users(None)).unwrap(), "{}");
}

#[test]
fn error_messages() {
    assert_eq!(ServerError::HashFailed.message(), "Failed to hash password");
    assert_eq!(ServerError::VerifyFailed.message(), "Failed to verify password");
    assert_eq!(ServerError::InvalidJoin.message(), "Invalid JOIN command format.");
    assert_eq!(ServerError::SerializeFailed.message(), "Failed to serialize user database");
}
