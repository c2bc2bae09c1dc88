use irc_chat::client::{console_line, is_unsliceable, plan_send_command, route_incoming};

fn tabs(names: &[&str]) -> Vec<String> {
    names.iter().map(|s| s.to_string()).collect()
}

#[test]
fn console_lines() {
    assert_eq!(console_line("QUIT"), ("Quit\r\n".to_string(), true));
    assert_eq!(console_line("NICK bob"), ("NICK bob\r\n".to_string(), false));
    assert_eq!(console_line("quit"), ("quit\r\n".to_string(), false));
}

#[test]
fn send_plans() {
    let open = tabs(&["General", "#rust"]);
    assert!(plan_send_command("", &open).is_none());
    let plan = plan_send_command("/join  #new ", &open).unwrap();
    assert_eq!(plan.new_tab, Some("#new".to_string()));
    assert_eq!(plan.line, "/join  #new \n");
    let plan = plan_send_command("/join #rust", &open).unwrap();
    assert_eq!(plan.new_tab, None);
    let plan = plan_send_command("PRIVMSG #rust hi", &open).unwrap();
    assert_eq!(plan.new_tab, None);
    assert_eq!(plan.line, "PRIVMSG #rust hi\n");
}

#[test]
fn routes_channel_lines() {
    let open = tabs(&["General", "#rust"]);
    assert_eq!(route_incoming("[#rust] bob: hi\r\n", &open), Some(("#rust".to_string(), "bob: hi\r\n\n".to_string())));
    assert_eq!(route_incoming("[#go] bob: hi\r\n", &open), Some(("General".to_string(), "(No tab for #go): bob: hi\r\n\n".to_string())));
    assert_eq!(route_incoming("[#go no bracket", &open), None);
    assert_eq!(route_incoming("[#go] x", &tabs(&["#rust"])), None);
}

#[test]
fn routes_privmsg_and_other_lines() {
    let open = tabs(&["General", "#rust"]);
    assert_eq!(route_incoming(":bob PRIVMSG #rust :hello world", &open), Some(("#rust".to_string(), "#rust: hello world".to_string() + "\n")));
    assert_eq!(route_incoming("bob PRIVMSG carol :hey", &open), Some(("General".to_string(), "(No tab for carol): hey\n".to_string())));
    assert_eq!(route_incoming("Joined channel #rust\r\n", &open), Some(("General".to_string(), "Joined channel #rust\r\n".to_string())));
    assert_eq!(route_incoming("Joined channel #rust\r\n", &tabs(&[])), None);
}

#[test]
fn unsliceable_lines() {
    assert!(is_unsliceable("[#a]"));
    assert!(is_unsliceable("[#a]\u{e9}x"));
    assert!(!is_unsliceable("[#a] x"));
    assert!(!is_unsliceable("[#a]x"));
    assert!(!is_unsliceable("[#a no bracket"));
    assert!(!is_unsliceable("plain ]"));
}
