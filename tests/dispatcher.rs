use std::sync::mpsc::{channel, Receiver};

use chat_relay::{
    clean_input, handle_commands, join_strings, joined_notice, pick_color, send, server_message,
    Client, ClientCommand, Command, Delivery, Message, Room, Server, HISTORY_CAPACITY,
};
use chat_relay::{parse_admin, AdminError};
use chat_relay::{handshake_step, session_delivery, session_input, Step};
use colored::Color;

fn new_client(id: u16, nick: &str) -> (Client, Receiver<ClientCommand>) {
    let (tx, rx) = channel();
    let mut c = Client::new("main".to_string(), id, tx);
    c.nickname = nick.to_string();
    (c, rx)
}

fn lines(rx: &Receiver<ClientCommand>) -> Vec<String> {
    let mut out = Vec::new();
    while let Ok(cmd) = rx.try_recv() {
        match cmd {
            ClientCommand::Msg(s) => out.push(s),
            ClientCommand::Kick => out.push("<kick>".to_string()),
        }
    }
    out
}

fn ids(sent: &[Delivery]) -> Vec<u16> {
    sent.iter().map(|d| d.to).collect()
}

fn room<'a>(s: &'a Server, name: &str) -> &'a Room {
    s.rooms.iter().find(|r| r.name == name).expect("room exists")
}

fn members(s: &Server, name: &str) -> Vec<u16> {
    room(s, name).clients.iter().map(|c| c.id).collect()
}

fn rooms_holding(s: &Server, id: u16) -> usize {
    s.rooms.iter().filter(|r| r.clients.iter().any(|c| c.id == id)).count()
}

#[test]
fn hello_reaches_others_but_not_sender() {
    let mut s = Server::new();
    let (b, rx_b) = new_client(2, "bob");
    let (a, rx_a) = new_client(1, "alice");
    s.dispatch(Command::NewClient(b));
    s.dispatch(Command::NewClient(a));
    let _ = lines(&rx_a);
    let _ = lines(&rx_b);
    let sent = s.dispatch(Command::Msg(1, "hello".to_string()));
    assert_eq!(ids(&sent), vec![2]);
    assert!(sent[0].delivered);
    match &sent[0].cmd {
        ClientCommand::Msg(line) => assert_eq!(line, &room(&s, "main").history[0]),
        ClientCommand::Kick => panic!("a chat line was expected"),
    }
    let main = room(&s, "main");
    assert_eq!(main.history.len(), 1);
    assert!(main.history[0].contains("hello"));
    assert!(main.history[0].contains("alice"));
    let got_b = lines(&rx_b);
    assert_eq!(got_b.len(), 1);
    assert_eq!(got_b[0], main.history[0]);
    assert!(lines(&rx_a).is_empty());
}

#[test]
fn sixteen_messages_keep_last_fifteen() {
    let mut s = Server::new();
    let (a, _rx_a) = new_client(1, "alice");
    s.dispatch(Command::NewClient(a));
    for i in 0..16 {
        s.dispatch(Command::Msg(1, format!("message {}", i)));
    }
    let main = room(&s, "main");
    assert_eq!(main.history.len(), HISTORY_CAPACITY);
    for (k, line) in main.history.iter().enumerate() {
        assert!(line.contains(&format!("message {}\n", k + 1)));
    }
}

#[test]
fn kick_ends_session_and_membership() {
    let mut s = Server::new();
    let (c3, rx3) = new_client(3, "carol");
    let (c4, rx4) = new_client(4, "dave");
    s.dispatch(Command::NewClient(c3));
    s.dispatch(Command::NewClient(c4));
    let _ = lines(&rx3);
    let sent = s.dispatch(Command::Kick(3));
    assert_eq!(ids(&sent), vec![3]);
    assert_eq!(lines(&rx3), vec!["<kick>".to_string()]);
    assert_eq!(rooms_holding(&s, 3), 0);
    assert!(!s.id_to_room.contains_key(&3));
    let _ = lines(&rx4);
    let sent = s.dispatch(Command::Msg(4, "still here".to_string()));
    assert!(sent.is_empty());
    assert!(lines(&rx3).is_empty());
}

#[test]
fn kick_of_unknown_id_does_nothing() {
    let mut s = Server::new();
    let (a, _rx) = new_client(1, "alice");
    s.dispatch(Command::NewClient(a));
    let sent = s.dispatch(Command::Kick(9));
    assert!(sent.is_empty());
    assert_eq!(members(&s, "main"), vec![1]);
}

#[test]
fn room_switch_replays_history_and_leaves_old_room() {
    let mut s = Server::new();
    let (a, rx_a) = new_client(1, "alice");
    s.dispatch(Command::NewClient(a));
    let _ = lines(&rx_a);
    let sent = s.dispatch(Command::Msg(1, "/room lobby".to_string()));
    assert_eq!(ids(&sent), vec![1, 1]);
    assert_eq!(lines(&rx_a), vec!["\x1B[2J\x1B[H".to_string(), String::new()]);
    assert!(members(&s, "main").is_empty());
    assert_eq!(members(&s, "lobby"), vec![1]);
    assert_eq!(s.id_to_room[&1], "lobby");
    assert_eq!(rooms_holding(&s, 1), 1);
    assert_eq!(room(&s, "lobby").clients[0].room, "lobby");
}

#[test]
fn room_switch_shows_existing_history() {
    let mut s = Server::new();
    let (a, _rx_a) = new_client(1, "alice");
    let (b, rx_b) = new_client(2, "bob");
    s.dispatch(Command::NewClient(a));
    s.dispatch(Command::NewClient(b));
    s.dispatch(Command::Msg(1, "/room lobby".to_string()));
    s.dispatch(Command::Msg(1, "first".to_string()));
    s.dispatch(Command::Msg(1, "second".to_string()));
    let _ = lines(&rx_b);
    s.dispatch(Command::Msg(2, "/room lobby".to_string()));
    let got = lines(&rx_b);
    assert_eq!(got.len(), 2);
    let lobby = room(&s, "lobby");
    assert_eq!(got[1], format!("{}{}", lobby.history[0], lobby.history[1]));
    assert_eq!(rooms_holding(&s, 2), 1);
}

#[test]
fn nick_command_renames() {
    let mut s = Server::new();
    let (a, rx_a) = new_client(1, "alice");
    s.dispatch(Command::NewClient(a));
    let _ = lines(&rx_a);
    s.dispatch(Command::Msg(1, "/nick zed".to_string()));
    assert_eq!(room(&s, "main").clients[0].nickname, "zed");
    let got = lines(&rx_a);
    assert_eq!(got.len(), 1);
    assert!(got[0].contains("Set nickname to: zed"));
    s.dispatch(Command::Msg(1, "/nick".to_string()));
    assert!(lines(&rx_a)[0].contains("Usage: /nick <nickname>"));
    assert_eq!(room(&s, "main").clients[0].nickname, "zed");
}

#[test]
fn color_command_keeps_colour_on_bad_name() {
    let mut s = Server::new();
    let (a, rx_a) = new_client(1, "alice");
    s.dispatch(Command::NewClient(a));
    let _ = lines(&rx_a);
    s.dispatch(Command::Msg(1, "/color blue".to_string()));
    assert_eq!(room(&s, "main").clients[0].color, Color::Blue);
    assert!(lines(&rx_a)[0].contains("Set color to blue"));
    s.dispatch(Command::Msg(1, "/color nocolour".to_string()));
    assert_eq!(room(&s, "main").clients[0].color, Color::Blue);
    assert!(lines(&rx_a)[0].contains("Set color to nocolour"));
    s.dispatch(Command::Msg(1, "/color".to_string()));
    assert!(lines(&rx_a)[0].contains("Usage: /color <color>"));
}

#[test]
fn unknown_and_malformed_commands_reply_only_to_sender() {
    let mut s = Server::new();
    let (a, rx_a) = new_client(1, "alice");
    let (b, rx_b) = new_client(2, "bob");
    s.dispatch(Command::NewClient(a));
    s.dispatch(Command::NewClient(b));
    let _ = lines(&rx_a);
    let _ = lines(&rx_b);
    s.dispatch(Command::Msg(1, "/dance".to_string()));
    assert!(lines(&rx_a)[0].contains("Invalid command"));
    s.dispatch(Command::Msg(1, "/room a b".to_string()));
    assert!(lines(&rx_a)[0].contains("Usage: /room <room>"));
    assert!(lines(&rx_b).is_empty());
    assert_eq!(members(&s, "main"), vec![1, 2]);
    assert!(room(&s, "main").history.is_empty());
}

#[test]
fn text_from_unknown_id_is_ignored() {
    let mut s = Server::new();
    let (a, rx_a) = new_client(1, "alice");
    s.dispatch(Command::NewClient(a));
    let _ = lines(&rx_a);
    let sent = s.dispatch(Command::Msg(7, "hi".to_string()));
    assert!(sent.is_empty());
    assert!(room(&s, "main").history.is_empty());
    let mut direct = Server::new();
    assert!(handle_commands(&"/nick x".to_string(), &mut direct, 5).is_empty());
}

#[test]
fn failed_delivery_removes_member_after_event() {
    let mut s = Server::new();
    let (a, _rx_a) = new_client(1, "alice");
    let (b, rx_b) = new_client(2, "bob");
    s.dispatch(Command::NewClient(a));
    s.dispatch(Command::NewClient(b));
    drop(rx_b);
    let sent = s.dispatch(Command::Msg(1, "anyone?".to_string()));
    assert_eq!(ids(&sent), vec![2]);
    assert!(!sent[0].delivered);
    assert_eq!(members(&s, "main"), vec![1]);
    assert!(!s.id_to_room.contains_key(&2));
    assert!(s.to_remove.is_empty());
    assert_eq!(room(&s, "main").history.len(), 1);
}

#[test]
fn raw_message_skips_its_sender_and_missing_rooms() {
    let mut s = Server::new();
    let (a, rx_a) = new_client(1, "alice");
    let (b, rx_b) = new_client(2, "bob");
    s.dispatch(Command::NewClient(a));
    s.dispatch(Command::NewClient(b));
    let _ = lines(&rx_a);
    let _ = lines(&rx_b);
    let m = Message::new("main".to_string(), 2, "[ Server ]".to_string(), Color::Red, "bob joined".to_string());
    let sent = s.dispatch(Command::RawMsg(m));
    assert_eq!(ids(&sent), vec![1]);
    assert!(lines(&rx_a)[0].contains("bob joined"));
    assert!(lines(&rx_b).is_empty());
    let m = Message::new("nowhere".to_string(), 0, "x".to_string(), Color::Red, "y".to_string());
    assert!(s.dispatch(Command::RawMsg(m)).is_empty());
    assert!(room(&s, "main").history.is_empty());
}

#[test]
fn join_replays_history_and_rejoin_moves_back_to_main() {
    let mut s = Server::new();
    let (a, _rx_a) = new_client(1, "alice");
    s.dispatch(Command::NewClient(a));
    s.dispatch(Command::Msg(1, "one".to_string()));
    s.dispatch(Command::Msg(1, "/room side".to_string()));
    let (b, rx_b) = new_client(2, "bob");
    s.dispatch(Command::NewClient(b));
    assert_eq!(lines(&rx_b), vec![room(&s, "main").history[0].clone()]);
    let (a2, _rx_a2) = new_client(1, "alice");
    s.dispatch(Command::NewClient(a2));
    assert_eq!(rooms_holding(&s, 1), 1);
    assert_eq!(members(&s, "main"), vec![2, 1]);
    assert_eq!(s.id_to_room[&1], "main");
}

#[test]
fn history_capacity_holds_under_many_messages() {
    let mut r = Room::new("r".to_string());
    for i in 0..40 {
        r.record(format!("{}", i));
        assert!(r.history.len() <= HISTORY_CAPACITY);
    }
    assert_eq!(r.history.front().unwrap(), "25");
    assert_eq!(r.history.back().unwrap(), "39");
}

#[test]
fn rendered_line_has_label_nickname_and_text() {
    let m = Message::new("main".to_string(), 7, "bob".to_string(), Color::Green, "hi there".to_string());
    let line = m.to_string();
    assert!(line.contains("[7]"));
    assert!(line.contains("bob:"));
    assert!(line.ends_with(" hi there\n"));
    let notice = server_message("Invalid command");
    assert!(notice.contains("[0]"));
    assert!(notice.contains("[ Server ]:"));
    assert!(notice.ends_with(" Invalid command\n"));
}

#[test]
fn join_strings_concatenates_in_order() {
    let mut h = std::collections::VecDeque::new();
    assert_eq!(join_strings(&h), "");
    h.push_back("a\n".to_string());
    h.push_back("b\n".to_string());
    assert_eq!(join_strings(&h), "a\nb\n");
}

#[test]
fn pick_color_prefers_parsed() {
    assert_eq!(pick_color(Color::Green, Some(Color::Cyan)), Color::Cyan);
    assert_eq!(pick_color(Color::Green, None), Color::Green);
}

#[test]
fn clean_input_strips_escapes_and_whitespace() {
    let raw = b"  \x1b[31mhi\x1b[0m there\r\n".to_vec();
    assert_eq!(clean_input(&raw), Some("hi there".to_string()));
    let mut padded = b"bob\n".to_vec();
    padded.resize(32, 0);
    assert_eq!(clean_input(&padded).map(|s| s.trim_matches('\0').to_string()), Some("bob".to_string()));
    assert_eq!(clean_input(&vec![0xff, 0xfe, b'a']), Some("\u{FFFD}\u{FFFD}a".to_string()));
}

#[test]
fn send_appends_bytes() {
    let mut out = b"x".to_vec();
    send(&mut out, "héllo");
    assert_eq!(out, "xhéllo".as_bytes().to_vec());
}

#[test]
fn joined_notice_announces_nickname() {
    let m = joined_notice("main".to_string(), &"alice".to_string());
    assert_eq!(m.room, "main");
    assert_eq!(m.id, 0);
    assert_eq!(m.nickname, "[ Server ]");
    assert_eq!(m.color, Color::Red);
    assert_eq!(m.text, "alice joined");
}

#[test]
fn new_client_starts_green() {
    let (c, _rx) = new_client(5, "eve");
    assert_eq!(c.color, Color::Green);
    assert_eq!(Client::new("main".to_string(), 6, channel().0).nickname, "");
}

#[test]
fn worker_steps_follow_the_session_rules() {
    assert!(matches!(handshake_step(None), Step::Wait));
    assert!(matches!(handshake_step(Some(String::new())), Step::Wait));
    assert!(matches!(handshake_step(Some("bob".to_string())), Step::Nickname(n) if n == "bob"));
    assert!(matches!(session_input(Some(String::new())), Step::Wait));
    assert!(matches!(session_input(Some("hi".to_string())), Step::Forward(t) if t == "hi"));
    assert!(matches!(session_delivery(ClientCommand::Msg("x".to_string())), Step::Write(t) if t == "x"));
    assert!(matches!(session_delivery(ClientCommand::Kick), Step::Kicked(n) if n == "\x1B[2J\x1B[HKicked by an admin."));
}

#[test]
fn admin_lines_parse_to_kicks() {
    assert!(matches!(parse_admin("kick 3"), Ok(3)));
    assert!(matches!(parse_admin("  kick   42 "), Ok(42)));
    assert!(matches!(parse_admin(""), Err(AdminError::Blank)));
    assert!(matches!(parse_admin("kick"), Err(AdminError::Usage)));
    assert!(matches!(parse_admin("kick 1 2"), Err(AdminError::Usage)));
    assert!(matches!(parse_admin("kick x"), Err(AdminError::NotANumber)));
    assert!(matches!(parse_admin("kick 70000"), Err(AdminError::NotANumber)));
    assert!(matches!(parse_admin("ban 3"), Err(AdminError::Invalid)));
}
