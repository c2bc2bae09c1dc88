//! Channels and their members: joining, leaving, and dropping a nickname
//! from every channel.

use vstd::prelude::*;
use crate::error::ServerError;
use crate::name_map::NameMap;
use crate::text::{split_n, split_spaces, text_eq};

verus! {

/// Channel names with their members' nicknames, in the order they joined.
pub type ChannelTable = NameMap<Vec<String>>;

/// `members` without any entry equal to `nick`, the rest in order.
pub open spec fn drop_member(members: Seq<Seq<char>>, nick: Seq<char>) -> Seq<Seq<char>>
    decreases members.len(),
{
    if members.len() == 0 {
        members
    } else {
        let rest = drop_member(members.drop_last(), nick);
        if members.last() == nick {
            rest
        } else {
            rest.push(members.last())
        }
    }
}

/// No channel lists a member twice.
pub open spec fn members_distinct(channels: Map<Seq<char>, Seq<Seq<char>>>) -> bool {
    forall|k: Seq<char>| #[trigger] channels.dom().contains(k) ==> channels[k].no_duplicates()
}

/// The channels after `nick` joins `name`: the channel is created if it is
/// missing, and `nick` is added at the end unless already a member.
pub open spec fn joined(
    channels: Map<Seq<char>, Seq<Seq<char>>>,
    name: Seq<char>,
    nick: Seq<char>,
) -> Map<Seq<char>, Seq<Seq<char>>> {
    let members = if channels.dom().contains(name) {
        channels[name]
    } else {
        Seq::empty()
    };
    if members.contains(nick) {
        channels
    } else {
        channels.insert(name, members.push(nick))
    }
}

/// The channels after `nick` leaves `name`: a channel left empty is removed.
pub open spec fn parted(
    channels: Map<Seq<char>, Seq<Seq<char>>>,
    name: Seq<char>,
    nick: Seq<char>,
) -> Map<Seq<char>, Seq<Seq<char>>> {
    if !channels.dom().contains(name) {
        channels
    } else {
        let rest = drop_member(channels[name], nick);
        if rest.len() == 0 {
            channels.remove(name)
        } else {
            channels.insert(name, rest)
        }
    }
}

/// The channels with `nick` dropped from each; channels left empty stay.
pub open spec fn dropped_everywhere(
    channels: Map<Seq<char>, Seq<Seq<char>>>,
    nick: Seq<char>,
) -> Map<Seq<char>, Seq<Seq<char>>> {
    channels.map_values(|members: Seq<Seq<char>>| drop_member(members, nick))
}

/// What `drop_member` keeps: exactly the entries other than `nick`.
pub proof fn lemma_drop_member(members: Seq<Seq<char>>, nick: Seq<char>)
    ensures
        !drop_member(members, nick).contains(nick),
        forall|m: Seq<char>| #[trigger] drop_member(members, nick).contains(m) <==> (members.contains(m) && m != nick),
        members.no_duplicates() ==> drop_member(members, nick).no_duplicates(),
        !members.contains(nick) ==> drop_member(members, nick) == members,
    decreases members.len(),
{
    if members.len() > 0 {
        let init = members.drop_last();
        lemma_drop_member(init, nick);
        let rest = drop_member(init, nick);
        assert forall|m: Seq<char>| #[trigger] drop_member(members, nick).contains(m) <==> (members.contains(m) && m != nick) by {
            let out = drop_member(members, nick);
            assert(rest.contains(m) <==> (init.contains(m) && m != nick));
            if members.contains(m) && m != nick {
                let i = choose|i: int| 0 <= i < members.len() && members[i] == m;
                if i < members.len() - 1 {
                    assert(init[i] == m);
                    assert(rest.contains(m));
                    let j = choose|j: int| 0 <= j < rest.len() && rest[j] == m;
                    if members.last() != nick {
                        assert(out[j] == m);
                    }
                    assert(out.contains(m));
                } else {
                    assert(out.last() == m);
                    assert(out[out.len() - 1] == m);
                }
            }
            if out.contains(m) {
                let j = choose|j: int| 0 <= j < out.len() && out[j] == m;
                if members.last() == nick || j < rest.len() {
                    assert(rest[j] == m);
                    assert(rest.contains(m));
                    let i = choose|i: int| 0 <= i < init.len() && init[i] == m;
                    assert(members[i] == m);
                } else {
                    assert(m == members.last());
                    assert(members[members.len() - 1] == m);
                }
            }
        }
        if members.no_duplicates() {
            assert(init.no_duplicates()) by {
                assert forall|i: int, j: int| 0 <= i < init.len() && 0 <= j < init.len() && i != j implies init[i] != init[j] by {
                    assert(init[i] == members[i] && init[j] == members[j]);
                }
            }
            if members.last() != nick {
                assert(!init.contains(members.last())) by {
                    if init.contains(members.last()) {
                        let i = choose|i: int| 0 <= i < init.len() && init[i] == members.last();
                        assert(members[i] == members[members.len() - 1]);
                    }
                }
                assert(!rest.contains(members.last()));
                let out = rest.push(members.last());
                assert forall|i: int, j: int| 0 <= i < out.len() && 0 <= j < out.len() && i != j implies out[i] != out[j] by {
                    if i < rest.len() && j < rest.len() {
                    } else if i < rest.len() {
                        assert(rest.contains(out[i]));
                    } else {
                        assert(rest.contains(out[j]));
                    }
                }
            }
        }
        if !members.contains(nick) {
            assert(!init.contains(nick)) by {
                if init.contains(nick) {
                    let i = choose|i: int| 0 <= i < init.len() && init[i] == nick;
                    assert(members[i] == nick);
                }
            }
            assert(members.last() != nick) by {
                assert(members[members.len() - 1] == members.last());
            }
            assert(init.push(members.last()) =~= members);
        }
    }
}

/// Whether `nick` is among `members`.
pub fn has_member(members: &Vec<String>, nick: &str) -> (r: bool)
    ensures
        r == members.deep_view().contains(nick@),
{
    let n = members.len();
    for i in 0..n
        invariant
            n == members@.len(),
            forall|j: int| 0 <= j < i ==> #[trigger] members.deep_view()[j] != nick@,
    {
        if text_eq(members[i].as_str(), nick) {
            assert(members.deep_view()[i as int] == nick@);
            return true;
        }
    }
    false
}

/// `members` without `nick`.
pub fn without_member(members: &Vec<String>, nick: &str) -> (r: Vec<String>)
    ensures
        r.deep_view() == drop_member(members.deep_view(), nick@),
{
    let mut r: Vec<String> = Vec::new();
    let n = members.len();
    for i in 0..n
        invariant
            n == members@.len(),
            r.deep_view() == drop_member(members.deep_view().take(i as int), nick@),
    {
        let ghost before = r.deep_view();
        assert(members.deep_view().take(i + 1).drop_last() =~= members.deep_view().take(i as int));
        if !text_eq(members[i].as_str(), nick) {
            r.push(members[i].clone());
            assert(r.deep_view() =~= before.push(members[i as int]@));
        }
    }
    assert(members.deep_view().take(n as int) =~= members.deep_view());
    r
}

/// The reply to a join that added the nickname.
pub open spec fn joined_reply(name: Seq<char>) -> Seq<char> {
    "Joined channel "@ + name + "\r\n"@
}

/// What a `JOIN` message does: the result `r` and the channels before and
/// after.
pub open spec fn join_effect(
    nick: Seq<char>,
    message: Seq<char>,
    before: Map<Seq<char>, Seq<Seq<char>>>,
    after: Map<Seq<char>, Seq<Seq<char>>>,
    r: Result<Option<Seq<char>>, ServerError>,
) -> bool {
    let parts = split_n(message, 2, ' ');
    if parts.len() != 2 {
        r == Err::<Option<Seq<char>>, ServerError>(ServerError::InvalidJoin) && after == before
    } else {
        let name = parts[1];
        &&& after == joined(before, name, nick)
        &&& after.dom().contains(name)
        &&& after[name].contains(nick)
        &&& r == if before.dom().contains(name) && before[name].contains(nick) {
            Ok::<Option<Seq<char>>, ServerError>(None)
        } else {
            Ok::<Option<Seq<char>>, ServerError>(Some(joined_reply(name)))
        }
    }
}

/// A join's result as plain values.
pub open spec fn join_view(r: Result<Option<String>, ServerError>) -> Result<Option<Seq<char>>, ServerError> {
    match r {
        Ok(Some(t)) => Ok(Some(t@)),
        Ok(None) => Ok(None),
        Err(e) => Err(e),
    }
}

/// `JOIN <channel>`: adds the session's nickname to the channel, creating it
/// if needed. A message without a channel name is an error with no reply.
pub fn join_channel(nickname: &str, message: &str, channels: &mut ChannelTable) -> (r: Result<Option<String>, ServerError>)
    requires
        old(channels).wf(),
    ensures
        final(channels).wf(),
        join_effect(nickname@, message@, old(channels)@, final(channels)@, join_view(r)),
        members_distinct(old(channels)@) ==> members_distinct(final(channels)@),
{
    let parts = split_spaces(message, 2);
    if parts.len() != 2 {
        return Err(ServerError::InvalidJoin);
    }
    let name = &parts[1];
    assert(parts.deep_view()[1] == name@);
    let found = channels.remove(name.as_str());
    let members = match found {
        Some(m) => m,
        None => Vec::new(),
    };
    proof {
        if old(channels)@.dom().contains(name@) {
            assert(members.deep_view() == old(channels)@[name@]);
        } else {
            assert(members.deep_view() =~= Seq::<Seq<char>>::empty());
        }
    }
    if has_member(&members, nickname) {
        channels.insert(name.clone(), members);
        assert(final(channels)@ =~= old(channels)@);
        Ok(None)
    } else {
        let mut members = members;
        let ghost before = members.deep_view();
        members.push(nickname.to_owned());
        assert(members.deep_view() =~= before.push(nickname@));
        channels.insert(name.clone(), members);
        assert(!before.contains(nickname@));
        assert(final(channels)@ =~= joined(old(channels)@, name@, nickname@));
        proof {
            assert(final(channels)@[name@][before.len() as int] == nickname@);
            if members_distinct(old(channels)@) {
                let ms = before.push(nickname@);
                assert(before.no_duplicates()) by {
                    if !old(channels)@.dom().contains(name@) {
                        assert(before =~= Seq::<Seq<char>>::empty());
                    }
                }
                assert forall|i: int, j: int| 0 <= i < ms.len() && 0 <= j < ms.len() && i != j implies ms[i] != ms[j] by {
                    if i < before.len() && j < before.len() {
                    } else if i < before.len() {
                        assert(before.contains(ms[i]));
                    } else {
                        assert(before.contains(ms[j]));
                    }
                }
                assert forall|k: Seq<char>| #[trigger] final(channels)@.dom().contains(k) implies final(channels)@[k].no_duplicates() by {
                    if k != name@ {
                        assert(old(channels)@.dom().contains(k));
                    }
                }
            }
        }
        let mut reply = "Joined channel ".to_owned();
        reply.append(name.as_str());
        reply.append("\r\n");
        Ok(Some(reply))
    }
}

/// The reply to a `PART` of a channel that exists.
pub open spec fn left_reply(name: Seq<char>) -> Seq<char> {
    "Left channel "@ + name + "\r\n"@
}

/// What a `PART` message does: the reply and the channels before and after.
pub open spec fn leave_effect(
    nick: Seq<char>,
    message: Seq<char>,
    before: Map<Seq<char>, Seq<Seq<char>>>,
    after: Map<Seq<char>, Seq<Seq<char>>>,
    reply: Seq<char>,
) -> bool {
    let parts = split_n(message, 2, ' ');
    if parts.len() != 2 {
        reply == "Invalid PART command.\r\n"@ && after == before
    } else if !before.dom().contains(parts[1]) {
        reply == "Channel not found.\r\n"@ && after == before
    } else {
        &&& reply == left_reply(parts[1])
        &&& after == parted(before, parts[1], nick)
        &&& !(after.dom().contains(parts[1]) && after[parts[1]].contains(nick))
    }
}

/// `PART <channel>`: removes the session's nickname from the channel, and the
/// channel once it is empty.
pub fn leave_channel(nickname: &str, message: &str, channels: &mut ChannelTable) -> (r: String)
    requires
        old(channels).wf(),
    ensures
        final(channels).wf(),
        leave_effect(nickname@, message@, old(channels)@, final(channels)@, r@),
        members_distinct(old(channels)@) ==> members_distinct(final(channels)@),
{
    let parts = split_spaces(message, 2);
    if parts.len() != 2 {
        return "Invalid PART command.\r\n".to_owned();
    }
    let name = &parts[1];
    assert(parts.deep_view()[1] == name@);
    match channels.remove(name.as_str()) {
        None => {
            assert(final(channels)@ =~= old(channels)@);
            "Channel not found.\r\n".to_owned()
        },
        Some(members) => {
            let rest = without_member(&members, nickname);
            proof {
                lemma_drop_member(members.deep_view(), nickname@);
            }
            if rest.len() > 0 {
                channels.insert(name.clone(), rest);
            }
            assert(final(channels)@ =~= parted(old(channels)@, name@, nickname@));
            proof {
                if members_distinct(old(channels)@) {
                    assert(old(channels)@.dom().contains(name@));
                    assert forall|k: Seq<char>| #[trigger] final(channels)@.dom().contains(k) implies final(channels)@[k].no_duplicates() by {
                        if k != name@ {
                            assert(old(channels)@.dom().contains(k));
                        }
                    }
                }
            }
            let mut reply = "Left channel ".to_owned();
            reply.append(name.as_str());
            reply.append("\r\n");
            reply
        },
    }
}

/// Drops `nick` from every channel's members.
pub fn drop_from_all(nick: &str, channels: &mut ChannelTable)
    requires
        old(channels).wf(),
    ensures
        final(channels).wf(),
        final(channels)@ == dropped_everywhere(old(channels)@, nick@),
        members_distinct(old(channels)@) ==> members_distinct(final(channels)@),
{
    let names = channels.keys();
    let n = names.len();
    let ghost start = channels@;
    for i in 0..n
        invariant
            n == names@.len(),
            channels.wf(),
            forall|a: int, b: int| 0 <= a < n && 0 <= b < n && a != b ==> #[trigger] names@[a]@ != #[trigger] names@[b]@,
            forall|k: Seq<char>| start.dom().contains(k) <==> exists|j: int| 0 <= j < n && #[trigger] names@[j]@ == k,
            channels@.dom() == start.dom(),
            forall|j: int| 0 <= j < i ==> #[trigger] channels@[names@[j]@] == drop_member(start[names@[j]@], nick@),
            forall|j: int| i <= j < n ==> #[trigger] channels@[names@[j]@] == start[names@[j]@],
    {
        let key = &names[i];
        assert(start.dom().contains(key@));
        let ghost mid = channels@;
        match channels.remove(key.as_str()) {
            Some(members) => {
                let rest = without_member(&members, nick);
                channels.insert(key.clone(), rest);
                assert(channels@ == mid.insert(key@, drop_member(start[key@], nick@)));
                assert(channels@.dom() =~= start.dom());
                assert forall|j: int| 0 <= j < i + 1 implies #[trigger] channels@[names@[j]@] == drop_member(start[names@[j]@], nick@) by {
                    if j < i {
                        assert(names@[j]@ != names@[i as int]@);
                    }
                }
                assert forall|j: int| i + 1 <= j < n implies #[trigger] channels@[names@[j]@] == start[names@[j]@] by {
                    assert(names@[j]@ != names@[i as int]@);
                }
            },
            None => {
                assert(false);
            },
        }
    }
    proof {
        let target = dropped_everywhere(start, nick@);
        assert forall|k: Seq<char>| #[trigger] channels@.dom().contains(k) implies channels@[k] == target[k] by {
            let j = choose|j: int| 0 <= j < n && #[trigger] names@[j]@ == k;
            assert(channels@[names@[j]@] == drop_member(start[names@[j]@], nick@));
        }
        assert(channels@ =~= target);
        if members_distinct(start) {
            assert forall|k: Seq<char>| #[trigger] channels@.dom().contains(k) implies channels@[k].no_duplicates() by {
                lemma_drop_member(start[k], nick@);
            }
        }
    }
}

/// Leaving a channel undoes joining it, for a nickname that was not a member
/// of it and a channel that was missing or had members.
pub proof fn lemma_part_undoes_join(
    channels: Map<Seq<char>, Seq<Seq<char>>>,
    name: Seq<char>,
    nick: Seq<char>,
)
    requires
        channels.dom().contains(name) ==> channels[name].len() > 0 && !channels[name].contains(nick),
    ensures
        parted(joined(channels, name, nick), name, nick) == channels,
{
    let members = if channels.dom().contains(name) {
        channels[name]
    } else {
        Seq::empty()
    };
    assert(!members.contains(nick));
    let grown = members.push(nick);
    lemma_drop_member(members, nick);
    assert(grown.drop_last() =~= members);
    assert(drop_member(grown, nick) == members);
    if channels.dom().contains(name) {
        assert(parted(joined(channels, name, nick), name, nick) =~= channels);
    } else {
        assert(parted(joined(channels, name, nick), name, nick) =~= channels);
    }
}

/// The test "is not `nick`", for filtering member lists.
pub open spec fn other_than(nick: Seq<char>) -> spec_fn(Seq<char>) -> bool {
    |m: Seq<char>| m != nick
}

/// Dropping a nickname from a member list keeps every other member, in
/// order: it is vstd's `filter` with the test "is not `nick`".
pub proof fn lemma_drop_member_is_filter(members: Seq<Seq<char>>, nick: Seq<char>)
    ensures
        drop_member(members, nick) == members.filter(other_than(nick)),
    decreases members.len(),
{
    reveal(Seq::filter);
    if members.len() > 0 {
        lemma_drop_member_is_filter(members.drop_last(), nick);
    }
}

/// When a client leaves, no channel appears or disappears, every channel
/// keeps exactly its other members in their order, and a channel that the
/// client was not in is unchanged.
pub proof fn lemma_leaving_keeps_others(channels: Map<Seq<char>, Seq<Seq<char>>>, nick: Seq<char>)
    ensures
        dropped_everywhere(channels, nick).dom() == channels.dom(),
        forall|k: Seq<char>| #[trigger] channels.dom().contains(k) ==> dropped_everywhere(channels, nick)[k]
            == channels[k].filter(other_than(nick)),
        forall|k: Seq<char>| #[trigger] channels.dom().contains(k) && !channels[k].contains(nick)
            ==> dropped_everywhere(channels, nick)[k] == channels[k],
        forall|k: Seq<char>, m: Seq<char>| #[trigger] channels.dom().contains(k) ==> (
            #[trigger] dropped_everywhere(channels, nick)[k].contains(m) <==> (channels[k].contains(m) && m != nick)),
{
    let after = dropped_everywhere(channels, nick);
    assert(after.dom() =~= channels.dom());
    assert forall|k: Seq<char>| #[trigger] channels.dom().contains(k) implies after[k] == channels[k].filter(other_than(nick)) && (!channels[k].contains(nick) ==> after[k] == channels[k]) by {
        lemma_drop_member_is_filter(channels[k], nick);
        lemma_drop_member(channels[k], nick);
    }
    assert forall|k: Seq<char>, m: Seq<char>| #[trigger] channels.dom().contains(k) implies (
        #[trigger] after[k].contains(m) <==> (channels[k].contains(m) && m != nick)) by {
        lemma_drop_member(channels[k], nick);
    }
}

/// A `JOIN <name>`: the reply is silent exactly when the nickname was already
/// a member, and then nothing changes; otherwise the nickname is added at the
/// end of the channel's members (of a new, empty channel for a new name) and
/// the reply is "Joined channel <name>". Other channels are untouched. A
/// message without a name is the `InvalidJoin` error and changes nothing.
pub proof fn lemma_join_outcome(
    nick: Seq<char>,
    message: Seq<char>,
    before: Map<Seq<char>, Seq<Seq<char>>>,
    after: Map<Seq<char>, Seq<Seq<char>>>,
    r: Result<Option<Seq<char>>, ServerError>,
)
    requires
        join_effect(nick, message, before, after, r),
    ensures
        split_n(message, 2, ' ').len() != 2 ==> r == Err::<Option<Seq<char>>, ServerError>(ServerError::InvalidJoin)
            && after == before,
        split_n(message, 2, ' ').len() == 2 ==> ({
            let name = split_n(message, 2, ' ')[1];
            let was_member = before.dom().contains(name) && before[name].contains(nick);
            &&& (r == Ok::<Option<Seq<char>>, ServerError>(None)) <==> was_member
            &&& was_member ==> after == before
            &&& !was_member ==> r == Ok::<Option<Seq<char>>, ServerError>(Some("Joined channel "@ + name + "\r\n"@))
            &&& !was_member && before.dom().contains(name) ==> after[name] == before[name].push(nick)
            &&& !was_member && !before.dom().contains(name) ==> after[name] == seq![nick]
            &&& after.dom() == before.dom().insert(name)
            &&& forall|k: Seq<char>| k != name && #[trigger] before.dom().contains(k) ==> after[k] == before[k]
        }),
{
    if split_n(message, 2, ' ').len() == 2 {
        let name = split_n(message, 2, ' ')[1];
        if before.dom().contains(name) && before[name].contains(nick) {
            assert(after.dom() =~= before.dom().insert(name));
        } else {
            assert(after.dom() =~= before.dom().insert(name));
            if !before.dom().contains(name) {
                assert(Seq::<Seq<char>>::empty().push(nick) =~= seq![nick]);
            }
        }
    }
}

/// A `PART <name>` of a channel that exists: the reply is "Left channel
/// <name>"; the channel keeps exactly its other members in order, and is
/// removed once none remain. Other channels are untouched. `PART` of a
/// missing channel, or without a name, changes nothing.
pub proof fn lemma_part_outcome(
    nick: Seq<char>,
    message: Seq<char>,
    before: Map<Seq<char>, Seq<Seq<char>>>,
    after: Map<Seq<char>, Seq<Seq<char>>>,
    reply: Seq<char>,
)
    requires
        leave_effect(nick, message, before, after, reply),
    ensures
        split_n(message, 2, ' ').len() != 2 ==> after == before && reply == "Invalid PART command.\r\n"@,
        split_n(message, 2, ' ').len() == 2 && !before.dom().contains(split_n(message, 2, ' ')[1])
            ==> after == before && reply == "Channel not found.\r\n"@,
        split_n(message, 2, ' ').len() == 2 && before.dom().contains(split_n(message, 2, ' ')[1]) ==> ({
            let name = split_n(message, 2, ' ')[1];
            let rest = before[name].filter(other_than(nick));
            &&& reply == "Left channel "@ + name + "\r\n"@
            &&& rest.len() == 0 ==> after == before.remove(name)
            &&& rest.len() > 0 ==> after == before.insert(name, rest)
        }),
{
    if split_n(message, 2, ' ').len() == 2 {
        let name = split_n(message, 2, ' ')[1];
        if before.dom().contains(name) {
            lemma_drop_member_is_filter(before[name], nick);
        }
    }
}

} // verus!
