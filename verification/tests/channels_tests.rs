use irc_chat::channels::{drop_from_all, has_member, join_channel, leave_channel, without_member, ChannelTable};
use irc_chat::error::ServerError;
use irc_chat::name_map::NameMap;

fn members(channels: &ChannelTable, name: &str) -> Option<Vec<String>> {
    channels.get(name).cloned()
}

#[test]
fn join_adds_once() {
    let mut channels: ChannelTable = NameMap::new();
    assert_eq!(join_channel("alice", "JOIN #rust", &mut channels).unwrap(), Some("Joined channel #rust\r\n".to_string()));
    assert_eq!(join_channel("bob", "JOIN #rust", &mut channels).unwrap(), Some("Joined channel #rust\r\n".to_string()));
    assert_eq!(join_channel("alice", "JOIN #rust", &mut channels).unwrap(), None);
    assert_eq!(members(&channels, "#rust").unwrap(), vec!["alice", "bob"]);
    assert_eq!(join_channel("alice", "JOIN", &mut channels), Err(ServerError::InvalidJoin));
    assert_eq!(channels.len(), 1);
}

#[test]
fn part_removes_and_drops_empty_channels() {
    let mut channels: ChannelTable = NameMap::new();
    join_channel("alice", "JOIN #a", &mut channels).unwrap();
    join_channel("bob", "JOIN #a", &mut channels).unwrap();
    assert_eq!(leave_channel("alice", "PART #a", &mut channels), "Left channel #a\r\n");
    assert_eq!(members(&channels, "#a").unwrap(), vec!["bob"]);
    assert_eq!(leave_channel("alice", "PART #a", &mut channels), "Left channel #a\r\n");
    assert_eq!(leave_channel("bob", "PART #a", &mut channels), "Left channel #a\r\n");
    assert!(!channels.contains_key("#a"));
    assert_eq!(leave_channel("bob", "PART #a", &mut channels), "Channel not found.\r\n");
    assert_eq!(leave_channel("bob", "PART", &mut channels), "Invalid PART command.\r\n");
}

#[test]
fn part_undoes_join() {
    let mut channels: ChannelTable = NameMap::new();
    join_channel("alice", "JOIN #a", &mut channels).unwrap();
    join_channel("bob", "JOIN #a", &mut channels).unwrap();
    join_channel("carol", "JOIN #a", &mut channels).unwrap();
    leave_channel("carol", "PART #a", &mut channels);
    assert_eq!(members(&channels, "#a").unwrap(), vec!["alice", "bob"]);
    join_channel("dave", "JOIN #new", &mut channels).unwrap();
    leave_channel("dave", "PART #new", &mut channels);
    assert!(!channels.contains_key("#new"));
    assert_eq!(channels.len(), 1);
}

#[test]
fn dropping_everywhere_keeps_empty_channels() {
    let mut channels: ChannelTable = NameMap::new();
    join_channel("alice", "JOIN #a", &mut channels).unwrap();
    join_channel("alice", "JOIN #b", &mut channels).unwrap();
    join_channel("bob", "JOIN #b", &mut channels).unwrap();
    drop_from_all("alice", &mut channels);
    assert_eq!(members(&channels, "#a").unwrap(), Vec::<String>::new());
    assert_eq!(members(&channels, "#b").unwrap(), vec!["bob"]);
}

#[test]
fn member_helpers() {
    let ms = vec!["a".to_string(), "b".to_string(), "a".to_string()];
    assert!(has_member(&ms, "b"));
    assert!(!has_member(&ms, "c"));
    assert_eq!(without_member(&ms, "a"), vec!["b"]);
}
