//! The clients' side: what the console client sends for a typed line, what
//! the GUI sends and which tab it opens for a command, and which tab shows a
//! line received from the server.

use vstd::prelude::*;
use crate::channels::has_member;
use crate::text::{find, find_char, has_prefix, split_n, split_spaces, starts_with, text_eq, trim, trim_start_char, trim_start_matches, trim_text};

verus! {

/// What the console client sends for a typed line, and whether it then stops:
/// `QUIT` sends `Quit` and stops; any other line is sent as it is.
pub fn console_line(line: &str) -> (r: (String, bool))
    ensures
        if line@ == "QUIT"@ {
            r.0@ == "Quit\r\n"@ && r.1
        } else {
            r.0@ == line@ + "\r\n"@ && !r.1
        },
{
    if text_eq(line, "QUIT") {
        ("Quit\r\n".to_owned(), true)
    } else {
        let mut out = line.to_owned();
        out.append("\r\n");
        (out, false)
    }
}

/// What the GUI does with the command typed in its entry.
pub struct SendPlan {
    /// A channel tab to open before sending, if any.
    pub new_tab: Option<String>,
    /// The line to write to the server.
    pub line: String,
}

/// The channel that a `/join ` command names, trimmed.
pub open spec fn joined_tab(text: Seq<char>) -> Option<Seq<char>> {
    if has_prefix(text, "/join "@) {
        Some(trim(text.subrange("/join "@.len() as int, text.len() as int)))
    } else {
        None
    }
}

/// The GUI's handling of a typed command: nothing for an empty entry;
/// otherwise the text is sent on a line of its own, and a `/join ` command
/// for a channel without a tab opens one first.
pub fn plan_send_command(text: &str, tabs: &Vec<String>) -> (r: Option<SendPlan>)
    ensures
        text@.len() == 0 ==> r is None,
        text@.len() > 0 ==> (r matches Some(plan) && plan.line@ == text@ + "\n"@ && match joined_tab(text@) {
            Some(name) => if tabs.deep_view().contains(name) {
                plan.new_tab is None
            } else {
                plan.new_tab matches Some(t) && t@ == name
            },
            None => plan.new_tab is None,
        }),
{
    if text.is_empty() {
        return None;
    }
    let mut new_tab: Option<String> = None;
    if starts_with(text, "/join ") {
        let prefix_len = "/join ".unicode_len();
        let rest = text.substring_char(prefix_len, text.unicode_len());
        let name = trim_text(rest);
        if !has_member(tabs, name.as_str()) {
            new_tab = Some(name);
        }
    }
    let mut line = text.to_owned();
    line.append("\n");
    Some(SendPlan { new_tab, line })
}

/// Whether a received line is one that the GUI cannot slice: it begins with
/// `[#`, and its first `]` is not followed by a one-byte character.
pub open spec fn unsliceable(raw: Seq<char>) -> bool {
    has_prefix(raw, "[#"@) && match find_char(raw, ']') {
        Some(e) => !(e + 1 < raw.len() && (raw[e + 1] as u32) < 0x80),
        None => false,
    }
}

/// Where the GUI shows a received line, and what text it adds there: a
/// channel line `[#chan] ...` goes to that channel's tab, a `PRIVMSG` line to
/// its target's tab, and anything else to `General`; a line for a channel or
/// target without a tab goes to `General` with a note.
pub open spec fn route(raw: Seq<char>, tabs: Seq<Seq<char>>) -> Option<(Seq<char>, Seq<char>)> {
    if has_prefix(raw, "[#"@) {
        match find_char(raw, ']') {
            None => None,
            Some(e) => {
                let channel = raw.subrange(1, e);
                let after = raw.subrange(e + 2, raw.len() as int);
                if tabs.contains(channel) {
                    Some((channel, after + "\n"@))
                } else if tabs.contains("General"@) {
                    Some(("General"@, "(No tab for "@ + channel + "): "@ + after + "\n"@))
                } else {
                    None
                }
            },
        }
    } else {
        let parts = split_n(trim_start_char(raw, ':'), 4, ' ');
        if parts.len() >= 4 && parts[1] == "PRIVMSG"@ {
            let target = parts[2];
            let text = trim_start_char(parts[3], ':');
            if tabs.contains(target) {
                Some((target, target + ": "@ + text + "\n"@))
            } else if tabs.contains("General"@) {
                Some(("General"@, "(No tab for "@ + target + "): "@ + text + "\n"@))
            } else {
                None
            }
        } else if tabs.contains("General"@) {
            Some(("General"@, raw))
        } else {
            None
        }
    }
}

/// Whether the GUI cannot slice this received line (see `unsliceable`).
pub fn is_unsliceable(raw: &str) -> (r: bool)
    ensures
        r == unsliceable(raw@),
{
    if !starts_with(raw, "[#") {
        return false;
    }
    match find(raw, ']') {
        Some(e) => {
            proof {
                crate::text::lemma_find_char(raw@, ']');
            }
            let n = raw.unicode_len();
            if e + 1 < n {
                let c = raw.get_char(e + 1);
                !((c as u32) < 0x80)
            } else {
                true
            }
        },
        None => false,
    }
}

/// The tab that shows a received line, with the text to add to it.
pub fn route_incoming(raw: &str, tabs: &Vec<String>) -> (r: Option<(String, String)>)
    requires
        !unsliceable(raw@),
    ensures
        match r {
            Some((tab, text)) => route(raw@, tabs.deep_view()) == Some((tab@, text@)),
            None => route(raw@, tabs.deep_view()) is None,
        },
{
    let has_general = has_member(tabs, "General");
    if starts_with(raw, "[#") {
        match find(raw, ']') {
            None => None,
            Some(e) => {
                let n = raw.unicode_len();
                proof {
                    crate::text::lemma_find_char(raw@, ']');
                    reveal_strlit("[#");
                    assert(raw@.subrange(0, 2) == "[#"@);
                    assert(raw@.subrange(0, 2)[0] == raw@[0]);
                    assert(raw@.subrange(0, 2)[1] == raw@[1]);
                    assert(raw@[0] == '[' && raw@[1] == '#');
                }
                let channel = raw.substring_char(1, e).to_owned();
                let after = raw.substring_char(e + 2, n);
                if has_member(tabs, channel.as_str()) {
                    let mut text = after.to_owned();
                    text.append("\n");
                    Some((channel, text))
                } else if has_general {
                    let mut text = "(No tab for ".to_owned();
                    text.append(channel.as_str());
                    text.append("): ");
                    text.append(after);
                    text.append("\n");
                    Some(("General".to_owned(), text))
                } else {
                    None
                }
            },
        }
    } else {
        let line = trim_start_matches(raw, ':');
        let parts = split_spaces(line.as_str(), 4);
        if parts.len() >= 4 && text_eq(parts[1].as_str(), "PRIVMSG") {
            assert(parts.deep_view()[1] == parts@[1]@);
            assert(parts.deep_view()[2] == parts@[2]@);
            assert(parts.deep_view()[3] == parts@[3]@);
            let target = &parts[2];
            let text = trim_start_matches(parts[3].as_str(), ':');
            if has_member(tabs, target.as_str()) {
                let mut shown = target.clone();
                shown.append(": ");
                shown.append(text.as_str());
                shown.append("\n");
                Some((target.clone(), shown))
            } else if has_general {
                let mut shown = "(No tab for ".to_owned();
                shown.append(target.as_str());
                shown.append("): ");
                shown.append(text.as_str());
                shown.append("\n");
                Some(("General".to_owned(), shown))
            } else {
                None
            }
        } else {
            if parts.len() >= 4 {
                assert(parts.deep_view()[1] == parts@[1]@);
            }
            if has_general {
                Some(("General".to_owned(), raw.to_owned()))
            } else {
                None
            }
        }
    }
}

/// Where a received line goes: always to a tab that is open; a channel line
/// `[<channel>] <rest>` for an open channel tab goes to that tab as the text
/// after `]` and its following character, with a newline added; a channel
/// line for a channel without a tab goes to `General` with a note naming the
/// channel; and while `General` is open, every line that is not a channel
/// line is shown somewhere.
pub proof fn lemma_route(raw: Seq<char>, tabs: Seq<Seq<char>>)
    ensures
        route(raw, tabs) matches Some(p) ==> tabs.contains(p.0),
        !has_prefix(raw, "[#"@) && tabs.contains("General"@) ==> route(raw, tabs) is Some,
        has_prefix(raw, "[#"@) ==> (route(raw, tabs) is Some <==> (find_char(raw, ']') is Some && (
            tabs.contains(raw.subrange(1, find_char(raw, ']')->0)) || tabs.contains("General"@)))),
        has_prefix(raw, "[#"@) && find_char(raw, ']') is Some ==> ({
            let e = find_char(raw, ']')->0;
            let channel = raw.subrange(1, e);
            let after = raw.subrange(e + 2, raw.len() as int);
            &&& tabs.contains(channel) ==> route(raw, tabs) == Some((channel, after + "\n"@))
            &&& !tabs.contains(channel) && tabs.contains("General"@) ==> route(raw, tabs) == Some(
                ("General"@, "(No tab for "@ + channel + "): "@ + after + "\n"@),
            )
        }),
{
}

} // verus!
