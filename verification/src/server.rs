//! One client's session on the server: decoding what it sends, dispatching
//! its commands, routing its messages, and cleaning up after it leaves.
//! Sockets stay with the caller: clients are known here by a connection id.

use vstd::prelude::*;
use crate::accounts::{UserDb, login_result, login_user, register_effect, register_user};
use crate::channels::{ChannelTable, drop_from_all, dropped_everywhere, join_channel, join_effect, leave_channel, leave_effect, members_distinct};
use crate::error::ServerError;
use crate::name_map::NameMap;
use crate::text::{has_prefix, split_n, split_spaces, starts_with, trim, trim_text};

verus! {

/// Nicknames with the connection that took each.
pub type ClientTable = NameMap<u64>;

/// A text to write to a connection.
pub struct Delivery {
    pub conn: u64,
    pub text: String,
}

/// What the server does in answer to one message.
pub enum Outcome {
    /// Write this text back to the sender.
    Reply(String),
    /// Nothing to send.
    Silent,
    /// The command failed; the server logs the error.
    Failed(ServerError),
    /// A channel message: write each text in order; a failed write ends the
    /// fan-out and is logged.
    Channel(Vec<Delivery>),
    /// A private message: write the text; a failed write is ignored.
    Direct(Delivery),
}

/// The greeting written to every new connection.
pub open spec fn welcome_text() -> Seq<char> {
    "Welcome to the IRC server! Use REGISTER or LOGIN.\r\n"@
}

/// The greeting written to every new connection.
pub fn welcome() -> (r: String)
    ensures
        r@ == welcome_text(),
{
    "Welcome to the IRC server! Use REGISTER or LOGIN.\r\n".to_owned()
}

/// The characters of `bytes` as `String::from_utf8_lossy` decodes them,
/// each invalid sequence replaced by U+FFFD.
pub uninterp spec fn lossy_text(bytes: Seq<u8>) -> Seq<char>;

/// Calls `String::from_utf8_lossy`, a function of the bytes. Its
/// documentation says that valid UTF-8 is decoded unchanged, which is stated;
/// how invalid sequences are replaced is left to the name.
#[verifier::external_body]
fn decode_lossy(bytes: &[u8]) -> (r: String)
    ensures
        r@ == lossy_text(bytes@),
        vstd::utf8::valid_utf8(bytes@) ==> r@ == vstd::utf8::decode_utf8(bytes@),
{
    String::from_utf8_lossy(bytes).into_owned()
}

/// The command text in the bytes read from a client: decoded, invalid UTF-8
/// replaced, and trimmed of white space at both ends.
pub fn decode_message(bytes: &[u8]) -> (r: String)
    ensures
        r@ == trim(lossy_text(bytes@)),
        vstd::utf8::valid_utf8(bytes@) ==> r@ == trim(vstd::utf8::decode_utf8(bytes@)),
{
    let text = decode_lossy(bytes);
    trim_text(text.as_str())
}

/// What a `NICK` message does: the reply, the session's nickname and the
/// clients before and after.
pub open spec fn nick_effect(
    message: Seq<char>,
    conn: u64,
    nick_before: Seq<char>,
    nick_after: Seq<char>,
    before: Map<Seq<char>, u64>,
    after: Map<Seq<char>, u64>,
    reply: Seq<char>,
) -> bool {
    let parts = split_n(message, 2, ' ');
    if parts.len() == 2 {
        &&& nick_after == parts[1]
        &&& after == before.insert(parts[1], conn)
        &&& reply == "Nickname set to "@ + parts[1] + "\r\n"@
    } else {
        nick_after == nick_before && after == before && reply == "Invalid NICK command.\r\n"@
    }
}

/// `NICK <name>`: the session takes the nickname, and the name is bound to
/// this connection (replacing any connection it was bound to).
pub fn set_nickname(nickname: &mut String, message: &str, clients: &mut ClientTable, conn: u64) -> (r: String)
    requires
        old(clients).wf(),
    ensures
        final(clients).wf(),
        nick_effect(message@, conn, old(nickname)@, final(nickname)@, old(clients)@, final(clients)@, r@),
{
    let parts = split_spaces(message, 2);
    if parts.len() == 2 {
        assert(parts.deep_view()[1] == parts@[1]@);
        *nickname = parts[1].clone();
        clients.insert(nickname.clone(), conn);
        let mut reply = "Nickname set to ".to_owned();
        reply.append(nickname.as_str());
        reply.append("\r\n");
        reply
    } else {
        "Invalid NICK command.\r\n".to_owned()
    }
}

/// The deliveries of a channel line: one to each member bound to a
/// connection, in the members' order.
pub open spec fn channel_deliveries(
    members: Seq<Seq<char>>,
    clients: Map<Seq<char>, u64>,
    text: Seq<char>,
) -> Seq<(u64, Seq<char>)>
    decreases members.len(),
{
    if members.len() == 0 {
        Seq::empty()
    } else {
        let rest = channel_deliveries(members.drop_last(), clients, text);
        if clients.dom().contains(members.last()) {
            rest.push((clients[members.last()], text))
        } else {
            rest
        }
    }
}

/// Deliveries as plain values.
pub open spec fn delivery_views(v: Seq<Delivery>) -> Seq<(u64, Seq<char>)> {
    Seq::new(v.len(), |i: int| (v[i].conn, v[i].text@))
}

/// The line that a channel's members receive.
pub open spec fn channel_line(channel: Seq<char>, sender: Seq<char>, text: Seq<char>) -> Seq<char> {
    "["@ + channel + "] "@ + sender + ": "@ + text + "\r\n"@
}

/// The line that the target of a private message receives.
pub open spec fn private_line(sender: Seq<char>, text: Seq<char>) -> Seq<char> {
    sender + ": "@ + text + "\r\n"@
}

/// `o` is the reply `text`.
pub open spec fn is_reply(o: Outcome, text: Seq<char>) -> bool {
    o matches Outcome::Reply(t) && t@ == text
}

/// What a `PRIVMSG <target> <text>` message from `sender` produces: a target
/// that starts with `#` names a channel.
pub open spec fn privmsg_outcome(
    o: Outcome,
    message: Seq<char>,
    sender: Seq<char>,
    clients: Map<Seq<char>, u64>,
    channels: Map<Seq<char>, Seq<Seq<char>>>,
) -> bool {
    let parts = split_n(message, 3, ' ');
    if parts.len() != 3 {
        is_reply(o, "Invalid PRIVMSG command.\r\n"@)
    } else if has_prefix(parts[1], "#"@) {
        if channels.dom().contains(parts[1]) {
            o matches Outcome::Channel(v) && delivery_views(v@) == channel_deliveries(
                channels[parts[1]],
                clients,
                channel_line(parts[1], sender, parts[2]),
            )
        } else {
            is_reply(o, "Channel not found.\r\n"@)
        }
    } else if clients.dom().contains(parts[1]) {
        o matches Outcome::Direct(d) && d.conn == clients[parts[1]] && d.text@ == private_line(
            sender,
            parts[2],
        )
    } else {
        is_reply(o, "User not found.\r\n"@)
    }
}

/// `PRIVMSG <target> <text>`: a message to a channel's members or to one user.
pub fn send_message(nickname: &str, message: &str, clients: &ClientTable, channels: &ChannelTable) -> (r: Outcome)
    requires
        clients.wf(),
        channels.wf(),
    ensures
        privmsg_outcome(r, message@, nickname@, clients@, channels@),
{
    let parts = split_spaces(message, 3);
    if parts.len() != 3 {
        return Outcome::Reply("Invalid PRIVMSG command.\r\n".to_owned());
    }
    let target = &parts[1];
    let body = &parts[2];
    assert(parts.deep_view()[1] == target@);
    assert(parts.deep_view()[2] == body@);
    if starts_with(target.as_str(), "#") {
        match channels.get(target.as_str()) {
            Some(members) => {
                let mut line = "[".to_owned();
                line.append(target.as_str());
                line.append("] ");
                line.append(nickname);
                line.append(": ");
                line.append(body.as_str());
                line.append("\r\n");
                let ghost text = line@;
                assert(text == channel_line(target@, nickname@, body@));
                let mut out: Vec<Delivery> = Vec::new();
                let n = members.len();
                for i in 0..n
                    invariant
                        n == members@.len(),
                        clients.wf(),
                        line@ == text,
                        delivery_views(out@) == channel_deliveries(members.deep_view().take(i as int), clients@, text),
                {
                    let ghost before = delivery_views(out@);
                    assert(members.deep_view().take(i + 1).drop_last() =~= members.deep_view().take(i as int));
                    assert(members.deep_view().take(i + 1).last() == members@[i as int]@);
                    match clients.get(members[i].as_str()) {
                        Some(conn) => {
                            out.push(Delivery { conn: *conn, text: line.clone() });
                            assert(delivery_views(out@) =~= before.push((*conn, text)));
                        },
                        None => {},
                    }
                }
                assert(members.deep_view().take(n as int) =~= members.deep_view());
                Outcome::Channel(out)
            },
            None => Outcome::Reply("Channel not found.\r\n".to_owned()),
        }
    } else {
        match clients.get(target.as_str()) {
            Some(conn) => {
                let mut line = nickname.to_owned();
                line.append(": ");
                line.append(body.as_str());
                line.append("\r\n");
                Outcome::Direct(Delivery { conn: *conn, text: line })
            },
            None => Outcome::Reply("User not found.\r\n".to_owned()),
        }
    }
}

/// Forgets a client that left: its nickname is unbound and dropped from every
/// channel; channels left empty stay.
pub fn remove_client(nickname: &str, clients: &mut ClientTable, channels: &mut ChannelTable)
    requires
        old(clients).wf(),
        old(channels).wf(),
    ensures
        final(clients).wf(),
        final(channels).wf(),
        final(clients)@ == old(clients)@.remove(nickname@),
        final(channels)@ == dropped_everywhere(old(channels)@, nickname@),
        members_distinct(old(channels)@) ==> members_distinct(final(channels)@),
{
    let _ = clients.remove(nickname);
    drop_from_all(nickname, channels);
}

/// A `nick` that left is in no channel afterwards.
pub proof fn lemma_left_everywhere(channels: Map<Seq<char>, Seq<Seq<char>>>, nick: Seq<char>)
    ensures
        forall|k: Seq<char>| #[trigger] dropped_everywhere(channels, nick).dom().contains(k)
            ==> !dropped_everywhere(channels, nick)[k].contains(nick),
{
    assert forall|k: Seq<char>| #[trigger] dropped_everywhere(channels, nick).dom().contains(k)
        implies !dropped_everywhere(channels, nick)[k].contains(nick) by {
        crate::channels::lemma_drop_member(channels[k], nick);
    }
}

/// An outcome that answers with a reply or an error, as a plain result.
pub open spec fn outcome_result(o: Outcome) -> Option<Result<Seq<char>, ServerError>> {
    match o {
        Outcome::Reply(t) => Some(Ok(t@)),
        Outcome::Failed(e) => Some(Err(e)),
        _ => None,
    }
}

/// An outcome as the result of a join: a reply, nothing, or an error.
pub open spec fn join_outcome(o: Outcome) -> Option<Result<Option<Seq<char>>, ServerError>> {
    match o {
        Outcome::Reply(t) => Some(Ok(Some(t@))),
        Outcome::Silent => Some(Ok(None)),
        Outcome::Failed(e) => Some(Err(e)),
        _ => None,
    }
}

/// Answers one message from a client whose session has `nickname` (empty
/// until a login) and connection `conn`. `REGISTER` and `LOGIN` are served to
/// anyone; `NICK`, `JOIN`, `PART` and `PRIVMSG` only after a login. Commands
/// are recognized by their first letters, as the message begins.
pub fn handle_message(
    message: &str,
    nickname: &mut String,
    conn: u64,
    users: &mut UserDb,
    clients: &mut ClientTable,
    channels: &mut ChannelTable,
) -> (r: Outcome)
    requires
        old(users).wf(),
        old(clients).wf(),
        old(channels).wf(),
    ensures
        final(users).wf(),
        final(clients).wf(),
        final(channels).wf(),
        members_distinct(old(channels)@) ==> members_distinct(final(channels)@),
        ({
            let m = message@;
            if has_prefix(m, "REGISTER"@) {
                &&& outcome_result(r) matches Some(res)
                &&& register_effect(m, old(users)@, final(users)@, res)
                &&& final(nickname)@ == old(nickname)@
                &&& final(clients)@ == old(clients)@
                &&& final(channels)@ == old(channels)@
            } else if has_prefix(m, "LOGIN"@) {
                let (res, nick) = login_result(m, old(users)@, old(nickname)@);
                &&& outcome_result(r) == Some(res)
                &&& final(nickname)@ == nick
                &&& final(users)@ == old(users)@
                &&& final(clients)@ == old(clients)@
                &&& final(channels)@ == old(channels)@
            } else if old(nickname)@.len() == 0 {
                &&& is_reply(r, "Please log in first.\r\n"@)
                &&& final(nickname)@ == old(nickname)@
                &&& final(users)@ == old(users)@
                &&& final(clients)@ == old(clients)@
                &&& final(channels)@ == old(channels)@
            } else {
                &&& final(users)@ == old(users)@
                &&& if has_prefix(m, "NICK"@) {
                    &&& r matches Outcome::Reply(t)
                    &&& nick_effect(m, conn, old(nickname)@, final(nickname)@, old(clients)@, final(clients)@, t@)
                    &&& final(channels)@ == old(channels)@
                } else if has_prefix(m, "JOIN"@) {
                    &&& join_outcome(r) matches Some(res)
                    &&& join_effect(old(nickname)@, m, old(channels)@, final(channels)@, res)
                    &&& final(nickname)@ == old(nickname)@
                    &&& final(clients)@ == old(clients)@
                } else if has_prefix(m, "PART"@) {
                    &&& r matches Outcome::Reply(t)
                    &&& leave_effect(old(nickname)@, m, old(channels)@, final(channels)@, t@)
                    &&& final(nickname)@ == old(nickname)@
                    &&& final(clients)@ == old(clients)@
                } else {
                    &&& final(nickname)@ == old(nickname)@
                    &&& final(clients)@ == old(clients)@
                    &&& final(channels)@ == old(channels)@
                    &&& if has_prefix(m, "PRIVMSG"@) {
                        privmsg_outcome(r, m, old(nickname)@, old(clients)@, old(channels)@)
                    } else {
                        is_reply(r, "Unknown command.\r\n"@)
                    }
                }
            }
        }),
{
    if starts_with(message, "REGISTER") {
        match register_user(message, users) {
            Ok(t) => Outcome::Reply(t),
            Err(e) => Outcome::Failed(e),
        }
    } else if starts_with(message, "LOGIN") {
        match login_user(message, users, nickname) {
            Ok(t) => Outcome::Reply(t),
            Err(e) => Outcome::Failed(e),
        }
    } else if !nickname.as_str().is_empty() {
        if starts_with(message, "NICK") {
            Outcome::Reply(set_nickname(nickname, message, clients, conn))
        } else if starts_with(message, "JOIN") {
            match join_channel(nickname.as_str(), message, channels) {
                Ok(Some(t)) => Outcome::Reply(t),
                Ok(None) => Outcome::Silent,
                Err(e) => Outcome::Failed(e),
            }
        } else if starts_with(message, "PART") {
            Outcome::Reply(leave_channel(nickname.as_str(), message, channels))
        } else if starts_with(message, "PRIVMSG") {
            send_message(nickname.as_str(), message, clients, channels)
        } else {
            Outcome::Reply("Unknown command.\r\n".to_owned())
        }
    } else {
        Outcome::Reply("Please log in first.\r\n".to_owned())
    }
}

/// The test "is bound to a connection", for filtering member lists.
pub open spec fn bound_in(clients: Map<Seq<char>, u64>) -> spec_fn(Seq<char>) -> bool {
    |m: Seq<char>| clients.dom().contains(m)
}

/// The deliveries of a channel line are, in the members' order, one for each
/// member bound to a connection: to that connection, with the line.
pub proof fn lemma_channel_deliveries(
    members: Seq<Seq<char>>,
    clients: Map<Seq<char>, u64>,
    text: Seq<char>,
)
    ensures
        channel_deliveries(members, clients, text) == members.filter(bound_in(clients)).map_values(
            |m: Seq<char>| (clients[m], text),
        ),
    decreases members.len(),
{
    reveal(Seq::filter);
    if members.len() > 0 {
        lemma_channel_deliveries(members.drop_last(), clients, text);
        let f = |m: Seq<char>| (clients[m], text);
        let sub = members.drop_last().filter(bound_in(clients));
        assert(sub.push(members.last()).map_values(f) =~= sub.map_values(f).push(f(members.last())));
    }
}

/// A `PRIVMSG <target> <text>` from `sender`:
/// - a target starting with `#` that names a channel gets a fan-out, whoever
///   the sender is, to every member bound to a connection, in the members'
///   order, each receiving "[<target>] <sender>: <text>"; "Channel not
///   found." is replied only when no channel has that name;
/// - any other target bound to a connection gets "<sender>: <text>" on that
///   connection; "User not found." is replied only when it is unbound;
/// - a message without a target and a text gets "Invalid PRIVMSG command.".
pub proof fn lemma_privmsg(
    o: Outcome,
    message: Seq<char>,
    sender: Seq<char>,
    clients: Map<Seq<char>, u64>,
    channels: Map<Seq<char>, Seq<Seq<char>>>,
)
    requires
        privmsg_outcome(o, message, sender, clients, channels),
    ensures
        split_n(message, 3, ' ').len() != 3 ==> is_reply(o, "Invalid PRIVMSG command.\r\n"@),
        split_n(message, 3, ' ').len() == 3 ==> ({
            let target = split_n(message, 3, ' ')[1];
            let text = split_n(message, 3, ' ')[2];
            &&& has_prefix(target, "#"@) && channels.dom().contains(target) ==> (o matches Outcome::Channel(v)
                && delivery_views(v@) == channels[target].filter(bound_in(clients)).map_values(
                |m: Seq<char>| (clients[m], "["@ + target + "] "@ + sender + ": "@ + text + "\r\n"@),
            ))
            &&& has_prefix(target, "#"@) && !channels.dom().contains(target) ==> is_reply(o, "Channel not found.\r\n"@)
            &&& !has_prefix(target, "#"@) && clients.dom().contains(target) ==> (o matches Outcome::Direct(d)
                && d.conn == clients[target] && d.text@ == sender + ": "@ + text + "\r\n"@)
            &&& !has_prefix(target, "#"@) && !clients.dom().contains(target) ==> is_reply(o, "User not found.\r\n"@)
        }),
{
    let parts = split_n(message, 3, ' ');
    if parts.len() == 3 && has_prefix(parts[1], "#"@) && channels.dom().contains(parts[1]) {
        lemma_channel_deliveries(channels[parts[1]], clients, channel_line(parts[1], sender, parts[2]));
    }
}

/// A `NICK <name>`: the session takes the name, the name is bound to this
/// connection, every other name keeps its binding, and the reply is
/// "Nickname set to <name>". Without a name nothing changes.
pub proof fn lemma_nick(
    message: Seq<char>,
    conn: u64,
    nick_before: Seq<char>,
    nick_after: Seq<char>,
    before: Map<Seq<char>, u64>,
    after: Map<Seq<char>, u64>,
    reply: Seq<char>,
)
    requires
        nick_effect(message, conn, nick_before, nick_after, before, after, reply),
    ensures
        split_n(message, 2, ' ').len() != 2 ==> nick_after == nick_before && after == before
            && reply == "Invalid NICK command.\r\n"@,
        split_n(message, 2, ' ').len() == 2 ==> ({
            let name = split_n(message, 2, ' ')[1];
            &&& nick_after == name
            &&& after.dom().contains(name) && after[name] == conn
            &&& after.dom() == before.dom().insert(name)
            &&& forall|k: Seq<char>| k != name && #[trigger] before.dom().contains(k) ==> after[k] == before[k]
            &&& reply == "Nickname set to "@ + name + "\r\n"@
        }),
{
    if split_n(message, 2, ' ').len() == 2 {
        assert(after.dom() =~= before.dom().insert(split_n(message, 2, ' ')[1]));
    }
}

} // verus!
