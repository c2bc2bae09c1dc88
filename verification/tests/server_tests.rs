use irc_chat::accounts::UserDb;
use irc_chat::channels::{join_channel, ChannelTable};
use irc_chat::error::ServerError;
use irc_chat::name_map::NameMap;
use irc_chat::server::{decode_message, handle_message, remove_client, send_message, set_nickname, welcome, ClientTable, Delivery, Outcome};

const PASSWORD_HASH: &str = "$2a$04$UuTkLRZZ6QofpDOlMz32MuuxEHA43WOemOYHPz6.SjsVsyO1tDU96";

struct World {
    users: UserDb,
    clients: ClientTable,
    channels: ChannelTable,
}

fn world() -> World {
    World {
        users: NameMap::from_pairs(&vec![("alice".to_string(), PASSWORD_HASH.to_string())]),
        clients: NameMap::new(),
        channels: NameMap::new(),
    }
}

fn reply(o: Outcome) -> String {
    match o {
        Outcome::Reply(t) => t,
        _ => panic!("expected a reply"),
    }
}

fn handle(w: &mut World, nick: &mut String, conn: u64, msg: &str) -> Outcome {
    handle_message(msg, nick, conn, &mut w.users, &mut w.clients, &mut w.channels)
}

#[test]
fn welcome_text() {
    assert_eq!(welcome(), "Welcome to the IRC server! Use REGISTER or LOGIN.\r\n");
}

#[test]
fn decode_trims_and_replaces_invalid_bytes() {
    assert_eq!(decode_message(b"  NICK bob\r\n"), "NICK bob");
    assert_eq!(decode_message(b"JOIN #a\xff"), "JOIN #a\u{FFFD}");
    assert_eq!(decode_message("h\u{e9}llo".as_bytes()), "h\u{e9}llo");
    assert_eq!(decode_message(b""), "");
}

#[test]
fn commands_need_a_login() {
    let mut w = world();
    let mut nick = String::new();
    for msg in ["NICK bob", "JOIN #a", "PART #a", "PRIVMSG bob hi", "HELLO"] {
        assert_eq!(reply(handle(&mut w, &mut nick, 1, msg)), "Please log in first.\r\n");
    }
    assert_eq!(w.channels.len(), 0);
    assert_eq!(w.clients.len(), 0);
    assert_eq!(nick, "");
}

#[test]
fn session_after_login() {
    let mut w = world();
    let mut nick = String::new();
    assert_eq!(reply(handle(&mut w, &mut nick, 1, "LOGIN alice password")), "Login successful.\r\n");
    assert_eq!(nick, "alice");
    assert_eq!(reply(handle(&mut w, &mut nick, 1, "HELLO")), "Unknown command.\r\n");
    assert_eq!(reply(handle(&mut w, &mut nick, 1, "NICK ali")), "Nickname set to ali\r\n");
    assert_eq!(nick, "ali");
    assert_eq!(w.clients.get("ali"), Some(&1));
    assert_eq!(reply(handle(&mut w, &mut nick, 1, "JOIN #a")), "Joined channel #a\r\n");
    assert!(matches!(handle(&mut w, &mut nick, 1, "JOIN #a"), Outcome::Silent));
    assert!(matches!(handle(&mut w, &mut nick, 1, "JOIN"), Outcome::Failed(ServerError::InvalidJoin)));
    assert_eq!(reply(handle(&mut w, &mut nick, 1, "PART #a")), "Left channel #a\r\n");
    assert_eq!(reply(handle(&mut w, &mut nick, 1, "PRIVMSG")), "Invalid PRIVMSG command.\r\n");
    assert!(matches!(handle(&mut w, &mut nick, 1, "LOGIN alice nope"), Outcome::Reply(t) if t == "Invalid password.\r\n"));
    assert_eq!(nick, "ali");
    assert!(matches!(handle(&mut w, &mut nick, 1, "REGISTER x"), Outcome::Reply(t) if t == "Usage: REGISTER <username> <password>\r\n"));
}

#[test]
fn nick_binds_the_connection() {
    let mut clients: ClientTable = NameMap::new();
    let mut nick = String::from("alice");
    assert_eq!(set_nickname(&mut nick, "NICK", &mut clients, 7), "Invalid NICK command.\r\n");
    assert_eq!(nick, "alice");
    assert_eq!(set_nickname(&mut nick, "NICK bob", &mut clients, 7), "Nickname set to bob\r\n");
    let mut other = String::from("carol");
    set_nickname(&mut other, "NICK bob", &mut clients, 9);
    assert_eq!(clients.get("bob"), Some(&9));
    assert_eq!(clients.len(), 1);
}

fn deliveries(o: Outcome) -> Vec<(u64, String)> {
    match o {
        Outcome::Channel(v) => v.into_iter().map(|d: Delivery| (d.conn, d.text)).collect(),
        _ => panic!("expected a channel message"),
    }
}

#[test]
fn channel_messages_reach_bound_members_in_order() {
    let mut clients: ClientTable = NameMap::new();
    let mut channels: ChannelTable = NameMap::new();
    clients.insert("bob".to_string(), 2);
    clients.insert("alice".to_string(), 1);
    join_channel("bob", "JOIN #a", &mut channels).unwrap();
    join_channel("ghost", "JOIN #a", &mut channels).unwrap();
    join_channel("alice", "JOIN #a", &mut channels).unwrap();
    let out = deliveries(send_message("alice", "PRIVMSG #a hello there", &clients, &channels));
    assert_eq!(out, vec![(2, "[#a] alice: hello there\r\n".to_string()), (1, "[#a] alice: hello there\r\n".to_string())]);
    assert_eq!(reply(send_message("alice", "PRIVMSG #b hi", &clients, &channels)), "Channel not found.\r\n");
}

#[test]
fn private_messages() {
    let mut clients: ClientTable = NameMap::new();
    let channels: ChannelTable = NameMap::new();
    clients.insert("bob".to_string(), 2);
    match send_message("alice", "PRIVMSG bob how are you", &clients, &channels) {
        Outcome::Direct(d) => {
            assert_eq!(d.conn, 2);
            assert_eq!(d.text, "alice: how are you\r\n");
        },
        _ => panic!("expected a private message"),
    }
    assert_eq!(reply(send_message("alice", "PRIVMSG carol hi", &clients, &channels)), "User not found.\r\n");
    assert_eq!(reply(send_message("alice", "PRIVMSG bob", &clients, &channels)), "Invalid PRIVMSG command.\r\n");
}

#[test]
fn removed_client_is_gone_everywhere() {
    let mut clients: ClientTable = NameMap::new();
    let mut channels: ChannelTable = NameMap::new();
    clients.insert("bob".to_string(), 2);
    clients.insert("alice".to_string(), 1);
    join_channel("bob", "JOIN #a", &mut channels).unwrap();
    join_channel("bob", "JOIN #b", &mut channels).unwrap();
    join_channel("alice", "JOIN #b", &mut channels).unwrap();
    remove_client("bob", &mut clients, &mut channels);
    assert!(!clients.contains_key("bob"));
    assert_eq!(clients.get("alice"), Some(&1));
    assert_eq!(channels.get("#a").unwrap().len(), 0);
    assert_eq!(channels.get("#b").unwrap(), &vec!["alice".to_string()]);
}
