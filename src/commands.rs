use colored::Color;
use vstd::prelude::*;
use vstd::string::StringExecFns;

use crate::client::{carries, ClientCommand, Delivery};
use crate::dispatch::{is_server_line, join_strings, joined, server_message};
use crate::client::Client;
use crate::server::{kept_except, lemma_kept_trans, Server};

verus! {

/// What splitting on whitespace gives for `s`.
pub uninterp spec fn words_of(s: Seq<char>) -> Seq<Seq<char>>;

/// What colored reads `s` as, if it names a colour.
pub uninterp spec fn color_named(s: Seq<char>) -> Option<Color>;

/// Relies on std's `str::split_whitespace`: the words of `s`, in order.
#[verifier::external_body]
fn split_words(s: &str) -> (r: Vec<String>)
    ensures
        r@.map_values(|w: String| w@) == words_of(s@),
{
    s.split_whitespace().map(|w| w.to_string()).collect()
}

/// What std reads `s` as when it names a `u16`.
pub uninterp spec fn u16_named(s: Seq<char>) -> Option<u16>;

/// Relies on std's `FromStr` for `u16`: the number that `s` writes in decimal, if it fits.
#[verifier::external_body]
fn parse_u16(s: &str) -> (r: Option<u16>)
    ensures
        r == u16_named(s@),
{
    s.parse::<u16>().ok()
}

/// Why a line of the administrative console was not a command.
pub enum AdminError {
    /// The line holds nothing.
    Blank,
    /// `kick` without exactly one argument.
    Usage,
    /// The argument of `kick` is not a client id.
    NotANumber,
    /// The line names no known command.
    Invalid,
}

/// Reads a line of the administrative console: `kick <id>` gives the id to kick.
pub fn parse_admin(line: &str) -> (r: Result<u16, AdminError>)
    ensures
        ({
            let w = words_of(line@);
            &&& w.len() == 0 ==> r is Err && r->Err_0 is Blank
            &&& w.len() > 0 && w[0] != "kick"@ ==> r is Err && r->Err_0 is Invalid
            &&& w.len() > 0 && w[0] == "kick"@ && w.len() != 2 ==> r is Err && r->Err_0 is Usage
            &&& w.len() == 2 && w[0] == "kick"@ ==> match u16_named(w[1]) {
                Some(n) => r == Ok::<u16, AdminError>(n),
                None => r is Err && r->Err_0 is NotANumber,
            }
        }),
{
    let args = split_words(line);
    let ghost w = words_of(line@);
    proof {
        assert(args@.len() == w.len());
        assert forall|k: int| 0 <= k < w.len() implies args@[k]@ == #[trigger] w[k] by {
            assert(args@.map_values(|s: String| s@)[k] == w[k]);
        }
    }
    if args.len() == 0 {
        return Err(AdminError::Blank);
    }
    if !is_word(&args[0], "kick") {
        return Err(AdminError::Invalid);
    }
    if args.len() != 2 {
        return Err(AdminError::Usage);
    }
    match parse_u16(args[1].as_str()) {
        Some(n) => Ok(n),
        None => Err(AdminError::NotANumber),
    }
}

/// Relies on colored's `FromStr` for `Color`: a colour name, read without regard to case.
#[verifier::external_body]
fn parse_color(s: &str) -> (r: Option<Color>)
    ensures
        r == color_named(s@),
{
    s.parse::<Color>().ok()
}

/// The colour after `/color`: the parsed one, else the current one kept.
pub fn pick_color(current: Color, parsed: Option<Color>) -> (r: Color)
    ensures
        r == match parsed {
            Some(c) => c,
            None => current,
        },
{
    match parsed {
        Some(c) => c,
        None => current,
    }
}

/// The words are `cmd` and exactly one argument.
pub open spec fn is_cmd(w: Seq<Seq<char>>, cmd: Seq<char>) -> bool {
    w.len() == 2 && w[0] == cmd
}

proof fn lemma_commands_distinct()
    ensures
        "/nick"@ != "/room"@,
        "/nick"@ != "/color"@,
        "/room"@ != "/color"@,
{
    reveal_strlit("/nick");
    reveal_strlit("/room");
    reveal_strlit("/color");
    assert("/nick"@[1] != "/room"@[1]);
    assert("/nick"@[1] != "/color"@[1]);
    assert("/room"@[1] != "/color"@[1]);
}

fn is_word(w: &String, lit: &str) -> (r: bool)
    ensures
        r == (w@ == lit@),
{
    *w == String::from_str(lit)
}

/// The delivery carries a notice from the server with this text.
pub open spec fn replies(d: Delivery, text: Seq<char>) -> bool {
    match d.cmd {
        ClientCommand::Msg(s) => is_server_line(text, s@),
        ClientCommand::Kick => false,
    }
}

/// The words do not start with a known command.
pub open spec fn unknown_command(w: Seq<Seq<char>>) -> bool {
    w.len() == 0 || (w[0] != "/nick"@ && w[0] != "/color"@ && w[0] != "/room"@)
}

/// The words start with `cmd` but do not have exactly one argument.
pub open spec fn misused(w: Seq<Seq<char>>, cmd: Seq<char>) -> bool {
    w.len() > 0 && w[0] == cmd && w.len() != 2
}

/// The issuer's record keeps its nickname (`nick`) and colour (`color`) from before.
pub open spec fn record_kept(s0: Server, s1: Server, id: u16, nick: bool, color: bool) -> bool {
    forall|r: int, i: int, r0: int, i0: int|
        #[trigger] s1.member_at(id, r, i) && #[trigger] s0.member_at(id, r0, i0) ==> {
            &&& nick ==> s1.rooms@[r].clients@[i].nickname == s0.rooms@[r0].clients@[i0].nickname
            &&& color ==> s1.rooms@[r].clients@[i].color == s0.rooms@[r0].clients@[i0].color
        }
}

/// ESC[2J clears the screen, ESC[H moves the cursor to the top left.
pub const CLEAR_SCREEN: &'static str = "\x1B[2J\x1B[H";

/// What a slash command of participant `id` does, taking `s0` to `s1` with the
/// deliveries `sent`, all of them to `id`.
pub open spec fn command_effect(s0: Server, s1: Server, id: u16, text: Seq<char>, sent: Seq<Delivery>) -> bool {
    &&& kept_except(s0, s1, id)
    &&& forall|j: int| 0 <= j < sent.len() ==> (#[trigger] sent[j]).to == id
    &&& !is_cmd(words_of(text), "/room"@) ==> s1.placement() == s0.placement()
        && s1.rooms@.len() == s0.rooms@.len()
    &&& s0.placement().contains_key(id) ==> {
        let w = words_of(text);
        &&& unknown_command(w) ==> sent.len() == 1 && replies(sent[0], "Invalid command"@)
        &&& misused(w, "/nick"@) ==> sent.len() == 1 && replies(sent[0], "Usage: /nick <nickname>"@)
        &&& misused(w, "/color"@) ==> sent.len() == 1 && replies(sent[0], "Usage: /color <color>"@)
        &&& misused(w, "/room"@) ==> sent.len() == 1 && replies(sent[0], "Usage: /room <room>"@)
        &&& is_cmd(w, "/nick"@) ==> sent.len() == 1 && replies(sent[0], "Set nickname to: "@ + w[1])
        &&& is_cmd(w, "/color"@) ==> sent.len() == 1 && replies(sent[0], "Set color to "@ + w[1])
        &&& record_kept(s0, s1, id, !is_cmd(w, "/nick"@), !is_cmd(w, "/color"@))
        &&& is_cmd(w, "/room"@) ==> {
            &&& s1.placement() == s0.placement().insert(id, w[1])
            &&& s1.in_room(id, w[1])
            &&& sent.len() == 2
            &&& carries(sent[0], CLEAR_SCREEN@)
            &&& forall|k: int| 0 <= k < s0.rooms@.len() && #[trigger] s0.rooms@[k].name@ == w[1]
                ==> carries(sent[1], joined(s0.rooms@[k].history@))
            &&& s0.has_room(w[1]) ==> s1.rooms@.len() == s0.rooms@.len()
            &&& !s0.has_room(w[1]) ==> {
                &&& carries(sent[1], Seq::<char>::empty())
                &&& s1.rooms@.len() == s0.rooms@.len() + 1
                &&& s1.rooms@.last().name@ == w[1]
                &&& s1.rooms@.last().history@ == Seq::<String>::empty()
            }
        }
    }
    &&& is_cmd(words_of(text), "/nick"@) ==> forall|r: int, i: int|
        #[trigger] s1.member_at(id, r, i) ==> s1.rooms@[r].clients@[i].nickname@
            == words_of(text)[1]
    &&& is_cmd(words_of(text), "/color"@) ==> forall|r: int, i: int, r0: int, i0: int|
        #[trigger] s1.member_at(id, r, i) && #[trigger] s0.member_at(id, r0, i0)
            ==> s1.rooms@[r].clients@[i].color == match color_named(words_of(text)[1]) {
            Some(c) => c,
            None => s0.rooms@[r0].clients@[i0].color,
        }
}

proof fn lemma_same_rooms_kept(s0: Server, s1: Server, id: u16)
    requires
        s0.wf(),
        s1.rooms == s0.rooms,
    ensures
        record_kept(s0, s1, id, true, true),
{
    assert forall|r: int, i: int, r0: int, i0: int|
        #[trigger] s1.member_at(id, r, i) && #[trigger] s0.member_at(id, r0, i0) implies r == r0 && i == i0 by {
        s0.lemma_member_unique(id, r, i, r0, i0);
    }
}

/// Carries out a slash command of participant `id`; every reply goes to that participant alone.
pub fn handle_commands(text: &String, serv: &mut Server, id: u16) -> (sent: Vec<Delivery>)
    requires
        old(serv).wf(),
    ensures
        final(serv).wf(),
        final(serv).to_remove == old(serv).to_remove,
        final(serv).sent_log@ == old(serv).sent_log@ + sent@,
        command_effect(*old(serv), *final(serv), id, text@, sent@),
        kept_except(*old(serv), *final(serv), id),
        !old(serv).placement().contains_key(id) ==> *final(serv) == *old(serv) && sent@ == Seq::<Delivery>::empty(),
        forall|j: int| 0 <= j < sent@.len() ==> (#[trigger] sent@[j]).to == id,
        final(serv).rooms@.len() >= old(serv).rooms@.len(),
        forall|k: int| 0 <= k < old(serv).rooms@.len() ==> {
            &&& (#[trigger] final(serv).rooms@[k]).name == old(serv).rooms@[k].name
            &&& final(serv).rooms@[k].history == old(serv).rooms@[k].history
        },
        !is_cmd(words_of(text@), "/room"@) ==> final(serv).placement() == old(serv).placement()
            && final(serv).rooms@.len() == old(serv).rooms@.len(),
        old(serv).placement().contains_key(id) ==> {
            let w = words_of(text@);
            &&& unknown_command(w) ==> sent@.len() == 1 && replies(sent@[0], "Invalid command"@)
            &&& misused(w, "/nick"@) ==> sent@.len() == 1 && replies(sent@[0], "Usage: /nick <nickname>"@)
            &&& misused(w, "/color"@) ==> sent@.len() == 1 && replies(sent@[0], "Usage: /color <color>"@)
            &&& misused(w, "/room"@) ==> sent@.len() == 1 && replies(sent@[0], "Usage: /room <room>"@)
            &&& is_cmd(w, "/nick"@) ==> sent@.len() == 1 && replies(sent@[0], "Set nickname to: "@ + w[1])
            &&& is_cmd(w, "/color"@) ==> sent@.len() == 1 && replies(sent@[0], "Set color to "@ + w[1])
            &&& record_kept(*old(serv), *final(serv), id, !is_cmd(w, "/nick"@), !is_cmd(w, "/color"@))
            &&& is_cmd(w, "/room"@) ==> {
                &&& final(serv).placement() == old(serv).placement().insert(id, w[1])
                &&& final(serv).in_room(id, w[1])
                &&& sent@.len() == 2
                &&& carries(sent@[0], CLEAR_SCREEN@)
                &&& forall|k: int| 0 <= k < old(serv).rooms@.len() && #[trigger] old(serv).rooms@[k].name@ == w[1]
                    ==> carries(sent@[1], joined(old(serv).rooms@[k].history@))
                &&& old(serv).has_room(w[1]) ==> final(serv).rooms@.len() == old(serv).rooms@.len()
                &&& !old(serv).has_room(w[1]) ==> {
                    &&& carries(sent@[1], Seq::<char>::empty())
                    &&& final(serv).rooms@.len() == old(serv).rooms@.len() + 1
                    &&& final(serv).rooms@.last().name@ == w[1]
                    &&& final(serv).rooms@.last().history@ == Seq::<String>::empty()
                }
            }
        },
        is_cmd(words_of(text@), "/nick"@) ==> forall|r: int, i: int|
            #[trigger] final(serv).member_at(id, r, i) ==> final(serv).rooms@[r].clients@[i].nickname@
                == words_of(text@)[1],
        is_cmd(words_of(text@), "/color"@) ==> forall|r: int, i: int, r0: int, i0: int|
            #[trigger] final(serv).member_at(id, r, i) && #[trigger] old(serv).member_at(id, r0, i0)
                ==> final(serv).rooms@[r].clients@[i].color == match color_named(words_of(text@)[1]) {
                Some(c) => c,
                None => old(serv).rooms@[r0].clients@[i0].color,
            },
{
    if !serv.id_to_room.contains_key(&id) {
        return Vec::new();
    }
    let args = split_words(text.as_str());
    let ghost w = words_of(text@);
    proof {
        assert(args@.len() == w.len());
        assert forall|k: int| 0 <= k < w.len() implies args@[k]@ == #[trigger] w[k] by {
            assert(args@.map_values(|s: String| s@)[k] == w[k]);
        }
        lemma_commands_distinct();
        reveal_strlit("Invalid command");
        assert forall|r: int, i: int, r0: int, i0: int|
            #[trigger] serv.member_at(id, r, i) && #[trigger] serv.member_at(id, r0, i0) implies r == r0 && i == i0 by {
            serv.lemma_member_unique(id, r, i, r0, i0);
        }
    }
    let mut sent: Vec<Delivery> = Vec::new();
    let ghost before = *serv;
    proof {
        assert(kept_except(before, *serv, id));
    }
    if args.len() == 0 {
        sent.push(serv.send_to(id, server_message("Invalid command")));
        proof {
            assert(serv.sent_log@ =~= old(serv).sent_log@ + sent@);
            lemma_same_rooms_kept(*old(serv), *serv, id);
        }
        return sent;
    }
    if is_word(&args[0], "/nick") {
        if args.len() != 2 {
            sent.push(serv.send_to(id, server_message("Usage: /nick <nickname>")));
            proof {
                assert(serv.sent_log@ =~= old(serv).sent_log@ + sent@);
                lemma_same_rooms_kept(*old(serv), *serv, id);
            }
            return sent;
        }
        let c = take_member(serv, id);
        let mut c = c.unwrap();
        c.nickname = args[1].clone();
        let ghost cc = c;
        let ghost taken = *serv;
        serv.put_back(c);
        proof {
            lemma_kept_trans(before, taken, *serv, id);
            assert(serv.placement() =~= before.placement());
            assert forall|r: int, i: int, r0: int, i0: int|
                #[trigger] serv.member_at(id, r, i) && #[trigger] before.member_at(id, r0, i0) implies
                serv.rooms@[r].clients@[i].color == before.rooms@[r0].clients@[i0].color by {
                assert(serv.rooms@[r].clients@[i] == cc);
            }
        }
        let mut reply = String::from_str("Set nickname to: ");
        reply.append(args[1].as_str());
        proof {
            reveal_strlit("Set nickname to: ");
        }
        let ghost pb = *serv;
        sent.push(serv.send_to(id, server_message(reply.as_str())));
        proof {
            assert(serv.sent_log@ =~= old(serv).sent_log@ + sent@);
            assert(serv.rooms == pb.rooms);
            assert(forall|r: int, i: int| #[trigger] serv.member_at(id, r, i) == pb.member_at(id, r, i));
            assert(forall|r: int| 0 <= r < serv.rooms@.len() ==> #[trigger] serv.rooms@[r] == pb.rooms@[r]);
        }
        return sent;
    }
    if is_word(&args[0], "/color") {
        if args.len() != 2 {
            sent.push(serv.send_to(id, server_message("Usage: /color <color>")));
            proof {
                assert(serv.sent_log@ =~= old(serv).sent_log@ + sent@);
                lemma_same_rooms_kept(*old(serv), *serv, id);
            }
            return sent;
        }
        let c = take_member(serv, id);
        let mut c = c.unwrap();
        c.color = pick_color(c.color, parse_color(args[1].as_str()));
        let ghost cc = c;
        let ghost taken = *serv;
        serv.put_back(c);
        proof {
            lemma_kept_trans(before, taken, *serv, id);
            assert(serv.placement() =~= before.placement());
            assert forall|r: int, i: int, r0: int, i0: int|
                #[trigger] serv.member_at(id, r, i) && #[trigger] before.member_at(id, r0, i0) implies
                serv.rooms@[r].clients@[i].nickname == before.rooms@[r0].clients@[i0].nickname by {
                assert(serv.rooms@[r].clients@[i] == cc);
            }
        }
        let mut reply = String::from_str("Set color to ");
        reply.append(args[1].as_str());
        let ghost pb = *serv;
        sent.push(serv.send_to(id, server_message(reply.as_str())));
        proof {
            assert(serv.sent_log@ =~= old(serv).sent_log@ + sent@);
            assert(serv.rooms == pb.rooms);
            assert(forall|r: int, i: int| #[trigger] serv.member_at(id, r, i) == pb.member_at(id, r, i));
            assert(forall|r: int| 0 <= r < serv.rooms@.len() ==> #[trigger] serv.rooms@[r] == pb.rooms@[r]);
        }
        return sent;
    }
    if is_word(&args[0], "/room") {
        if args.len() != 2 {
            sent.push(serv.send_to(id, server_message("Usage: /room <room>")));
            proof {
                assert(serv.sent_log@ =~= old(serv).sent_log@ + sent@);
                lemma_same_rooms_kept(*old(serv), *serv, id);
            }
            return sent;
        }
        let c = take_member(serv, id);
        let mut c = c.unwrap();
        let room_name = args[1].clone();
        let ghost mid = *serv;
        let ri = serv.ensure_room(room_name.clone());
        proof {
            assert forall|k: int| 0 <= k < mid.rooms@.len() implies serv.rooms@[k] == #[trigger] mid.rooms@[k] by {
                assert(serv.rooms@.subrange(0, mid.rooms@.len() as int)[k] == serv.rooms@[k]);
            }
            assert forall|k: int| 0 <= k < before.rooms@.len() && #[trigger] before.rooms@[k].name@ == w[1]
                implies k == ri by {
                assert(serv.rooms@[k] == mid.rooms@[k]);
                if k < ri {
                    assert(serv.rooms@[k].name@ != serv.rooms@[ri as int].name@);
                } else if k > ri {
                    assert(serv.rooms@[ri as int].name@ != serv.rooms@[k].name@);
                }
            }
            if before.has_room(w[1]) {
                let k = choose|k: int| 0 <= k < before.rooms@.len() && #[trigger] before.rooms@[k].name@ == w[1];
                assert(mid.rooms@[k].name == before.rooms@[k].name);
                assert(mid.has_room(w[1]));
            } else {
                if mid.has_room(w[1]) {
                    let k = choose|k: int| 0 <= k < mid.rooms@.len() && #[trigger] mid.rooms@[k].name@ == w[1];
                    assert(before.rooms@[k].name == mid.rooms@[k].name);
                }
                assert(joined(serv.rooms@[ri as int].history@) =~= Seq::<char>::empty());
            }
        }
        c.room = room_name;
        let clear = String::from_str(CLEAR_SCREEN);
        let ok = c.send(clear.clone(), &mut serv.sent_log).is_ok();
        sent.push(Delivery { to: id, cmd: ClientCommand::Msg(clear), delivered: ok });
        let history = join_strings(&serv.rooms[ri].history);
        let ok = c.send(history.clone(), &mut serv.sent_log).is_ok();
        sent.push(Delivery { to: id, cmd: ClientCommand::Msg(history), delivered: ok });
        assert(serv.sent_log@ =~= old(serv).sent_log@ + sent@);
        let ghost cc = c;
        let ghost n = serv.rooms@[ri as int].clients@.len();
        let ghost mid2 = *serv;
        serv.attach(ri, c);
        proof {
            lemma_kept_trans(before, mid, mid2, id);
            lemma_kept_trans(before, mid2, *serv, id);
            assert(serv.member_at(id, ri as int, n as int));
            assert(serv.rooms@[ri as int].has(id));
            assert forall|k: int| 0 <= k < before.rooms@.len() implies {
                &&& (#[trigger] serv.rooms@[k]).name == before.rooms@[k].name
                &&& serv.rooms@[k].history == before.rooms@[k].history
            } by {
                assert(mid.rooms@[k].name == before.rooms@[k].name);
                assert(mid2.rooms@[k] == mid.rooms@[k]);
                assert(serv.rooms@[k].name == mid2.rooms@[k].name);
            }
            assert forall|r: int, i: int, r0: int, i0: int|
                #[trigger] serv.member_at(id, r, i) && #[trigger] before.member_at(id, r0, i0) implies
                serv.rooms@[r].clients@[i].nickname == before.rooms@[r0].clients@[i0].nickname
                && serv.rooms@[r].clients@[i].color == before.rooms@[r0].clients@[i0].color by {
                serv.lemma_member_unique(id, r, i, ri as int, n as int);
            }
            if !before.has_room(w[1]) {
                assert(ri == before.rooms@.len());
            }
            assert(serv.placement() =~= old(serv).placement().insert(id, w[1]));
        }
        return sent;
    }
    sent.push(serv.send_to(id, server_message("Invalid command")));
    proof {
        assert(serv.sent_log@ =~= old(serv).sent_log@ + sent@);
        lemma_same_rooms_kept(*old(serv), *serv, id);
    }
    sent
}

/// Takes the participant out of the index and its room, keeping its room in place.
fn take_member(serv: &mut Server, id: u16) -> (c: Option<Client>)
    requires
        old(serv).wf(),
        old(serv).placement().contains_key(id),
    ensures
        final(serv).wf(),
        final(serv).placement() == old(serv).placement().remove(id),
        final(serv).rooms@.len() == old(serv).rooms@.len(),
        forall|k: int| 0 <= k < old(serv).rooms@.len() ==> {
            &&& (#[trigger] final(serv).rooms@[k]).name == old(serv).rooms@[k].name
            &&& final(serv).rooms@[k].history == old(serv).rooms@[k].history
        },
        final(serv).to_remove == old(serv).to_remove,
        c is Some,
        c.unwrap().id == id,
        final(serv).has_room(c.unwrap().room@),
        c.unwrap().room@ == old(serv).placement()[id],
        kept_except(*old(serv), *final(serv), id),
        final(serv).sent_log == old(serv).sent_log,
        forall|r: int, i: int| #[trigger] old(serv).member_at(id, r, i) ==> old(serv).rooms@[r].clients@[i] == c.unwrap(),
{
    proof {
        assert(old(serv).in_room(id, old(serv).placement()[id]));
    }
    let ghost name = old(serv).placement()[id];
    let c = serv.detach(id);
    proof {
        let w0 = choose|w0: int| 0 <= w0 < old(serv).rooms@.len() && #[trigger] old(serv).rooms@[w0].name@ == name
            && old(serv).rooms@[w0].has(id);
        assert(serv.rooms@[w0].name@ == name);
    }
    c
}

} // verus!
