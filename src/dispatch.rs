use std::collections::VecDeque;
use vstd::prelude::*;
use vstd::string::StringExecFns;

use crate::client::{carries, server_color, targets, Client, ClientCommand, Delivery};
use crate::message::{renders, Message};
use crate::room::Room;
use crate::server::Server;

verus! {

/// All lines of a history, one after the other.
pub open spec fn joined(h: Seq<String>) -> Seq<char>
    decreases h.len(),
{
    if h.len() == 0 {
        Seq::empty()
    } else {
        joined(h.drop_last()) + h.last()@
    }
}

/// The ids of the members other than `sender`, in member order.
pub open spec fn others(cs: Seq<Client>, sender: u16) -> Seq<u16>
    decreases cs.len(),
{
    if cs.len() == 0 {
        Seq::empty()
    } else {
        let rest = others(cs.drop_last(), sender);
        if cs.last().id != sender {
            rest.push(cs.last().id)
        } else {
            rest
        }
    }
}

/// Some queued removal names this participant in the room called `name`.
pub open spec fn queued_in(q: Seq<(String, u16)>, id: u16, name: Seq<char>) -> bool {
    exists|k: int| 0 <= k < q.len() && #[trigger] q[k].1 == id && q[k].0@ == name
}

/// Some queued removal names this participant.
pub open spec fn queued(q: Seq<(String, u16)>, id: u16) -> bool {
    exists|k: int| 0 <= k < q.len() && #[trigger] q[k].1 == id
}

/// `m` is the message that participant `c` writes as `text`: its room, id, nickname and colour.
pub open spec fn message_of(c: Client, text: Seq<char>, m: Message) -> bool {
    &&& m.room@ == c.room@
    &&& m.id == c.id
    &&& m.nickname == c.nickname
    &&& m.color == c.color
    &&& m.text@ == text
}

/// `l` renders the message that participant `id`, as recorded in `s`, writes as `text`.
pub open spec fn chat_line(s: Server, id: u16, text: Seq<char>, l: Seq<char>) -> bool {
    forall|r: int, i: int| #[trigger] s.member_at(id, r, i) ==> exists|m: Message|
        message_of(s.rooms@[r].clients@[i], text, m) && #[trigger] renders(m, l)
}

/// The line begins with a slash, which marks a command.
pub open spec fn is_command(text: Seq<char>) -> bool {
    text.len() > 0 && text[0] == '/'
}

/// An event the dispatcher takes from its queue.
pub enum Command {
    NewClient(Client),
    Msg(u16, String),
    RawMsg(Message),
    Kick(u16),
}

/// Where each participant is indexed once `cmd` has been processed, before
/// failed deliveries are cleaned up.
pub open spec fn placement_after(s: Server, cmd: Command) -> Map<u16, Seq<char>> {
    match cmd {
        Command::NewClient(c) => s.placement().insert(c.id, "main"@),
        Command::Msg(id, text) => if is_command(text@) && s.placement().contains_key(id)
            && crate::commands::is_cmd(crate::commands::words_of(text@), "/room"@) {
            s.placement().insert(id, crate::commands::words_of(text@)[1])
        } else {
            s.placement()
        },
        Command::RawMsg(_) => s.placement(),
        Command::Kick(id) => s.placement().remove(id),
    }
}

/// `h` is what the history of room `k` of `s` becomes once `cmd` is processed:
/// one more chat line in the sender's room for a chat line, unchanged otherwise.
pub open spec fn history_after(s: Server, cmd: Command, k: int, h: Seq<String>) -> bool {
    match cmd {
        Command::Msg(id, text) => if !is_command(text@) && s.placement().contains_key(id)
            && s.rooms@[k].name@ == s.placement()[id] {
            exists|l: String| #[trigger] chat_line(s, id, text@, l@)
                && h == crate::room::pushed_history(s.rooms@[k].history@, l)
        } else {
            h == s.rooms@[k].history@
        },
        _ => h == s.rooms@[k].history@,
    }
}

/// The event hands one line to the members of a room.
pub open spec fn broadcasts(cmd: Command) -> bool {
    match cmd {
        Command::Msg(_, text) => !is_command(text@),
        Command::RawMsg(_) => true,
        _ => false,
    }
}

/// What a chat line of participant `id` does: in the sender's room, one more line in
/// history, and that same line handed to every other member.
pub open spec fn chat_effect(s0: Server, s1: Server, id: u16, text: Seq<char>, sent: Seq<Delivery>) -> bool {
    forall|k: int|
        0 <= k < s0.rooms@.len() && #[trigger] s0.rooms@[k].name@ == s0.placement()[id] ==> {
            &&& targets(sent) == others(s0.rooms@[k].clients@, id)
            &&& exists|l: String| #[trigger] chat_line(s0, id, text, l@)
                && s1.rooms@[k].history@ == crate::room::pushed_history(s0.rooms@[k].history@, l)
                && forall|j: int| 0 <= j < sent.len() ==> carries(#[trigger] sent[j], l@)
        }
}

/// What a prepared message does: one rendering of it handed to every member of its
/// room but its sender.
pub open spec fn raw_effect(s0: Server, m: Message, sent: Seq<Delivery>) -> bool {
    &&& forall|k: int| 0 <= k < s0.rooms@.len() && #[trigger] s0.rooms@[k].name@ == m.room@
        ==> targets(sent) == others(s0.rooms@[k].clients@, m.id)
    &&& !s0.has_room(m.room@) ==> sent.len() == 0
    &&& exists|l: String| #[trigger] renders(m, l@) && forall|j: int| 0 <= j < sent.len() ==> carries(#[trigger] sent[j], l@)
}

/// What a join does: the joining participant alone is handed the history of the default room.
pub open spec fn join_effect(s0: Server, id: u16, sent: Seq<Delivery>) -> bool {
    &&& targets(sent) == seq![id]
    &&& forall|k: int| 0 <= k < s0.rooms@.len() && #[trigger] s0.rooms@[k].name@ == "main"@
        ==> carries(sent[0], joined(s0.rooms@[k].history@))
    &&& !s0.has_room("main"@) ==> carries(sent[0], Seq::<char>::empty())
}

/// What a kick does: the participant alone, if indexed, is told to end its session.
pub open spec fn kick_effect(s0: Server, id: u16, sent: Seq<Delivery>) -> bool {
    &&& targets(sent) == if s0.placement().contains_key(id) {
        seq![id]
    } else {
        Seq::<u16>::empty()
    }
    &&& forall|j: int| 0 <= j < sent.len() ==> (#[trigger] sent[j]).cmd == ClientCommand::Kick
}

/// What processing `cmd` hands out, and, for commands and chat lines, how the state changes;
/// for a command this holds when no removal was pending.
pub open spec fn event_effect(s0: Server, s1: Server, cmd: Command, sent: Seq<Delivery>) -> bool {
    match cmd {
        Command::NewClient(c) => join_effect(s0, c.id, sent),
        Command::Msg(id, text) => {
            &&& is_command(text@) && s0.to_remove@.len() == 0 ==> crate::commands::command_effect(s0, s1, id, text@, sent)
            &&& !is_command(text@) && s0.placement().contains_key(id) ==> chat_effect(s0, s1, id, text@, sent)
            &&& !s0.placement().contains_key(id) ==> sent.len() == 0
        },
        Command::RawMsg(m) => raw_effect(s0, m, sent),
        Command::Kick(id) => kick_effect(s0, id, sent),
    }
}

/// A line from the server itself: sender id 0, red "[ Server ]" nickname.
pub open spec fn is_server_line(text: Seq<char>, r: Seq<char>) -> bool {
    exists|m: Message|
        m.id == 0 && m.nickname@ == "[ Server ]"@ && m.text@ == text && #[trigger] renders(m, r)
}

/// The recipients of a broadcast are exactly the members other than the sender.
pub proof fn lemma_others_members(cs: Seq<Client>, sender: u16, x: u16)
    ensures
        others(cs, sender).contains(x) <==> (x != sender && exists|i: int|
            0 <= i < cs.len() && #[trigger] cs[i].id == x),
    decreases cs.len(),
{
    if cs.len() > 0 {
        let init = cs.drop_last();
        lemma_others_members(init, sender, x);
        let rest = others(init, sender);
        if others(cs, sender).contains(x) {
            if cs.last().id != sender && x == cs.last().id {
                assert(cs[cs.len() - 1].id == x);
            } else {
                if cs.last().id != sender {
                    let j = choose|j: int| 0 <= j < rest.push(cs.last().id).len() && rest.push(cs.last().id)[j] == x;
                    assert(j < rest.len());
                    assert(rest[j] == x);
                }
                assert(rest.contains(x));
                let i = choose|i: int| 0 <= i < init.len() && #[trigger] init[i].id == x;
                assert(cs[i].id == x);
            }
        }
        if x != sender && exists|i: int| 0 <= i < cs.len() && #[trigger] cs[i].id == x {
            let i = choose|i: int| 0 <= i < cs.len() && #[trigger] cs[i].id == x;
            if i == cs.len() - 1 {
                assert(others(cs, sender) == rest.push(x));
                assert(others(cs, sender)[rest.len() as int] == x);
            } else {
                assert(init[i].id == x);
                assert(rest.contains(x));
                let j = choose|j: int| 0 <= j < rest.len() && rest[j] == x;
                if cs.last().id != sender {
                    assert(rest.push(cs.last().id)[j] == x);
                }
            }
        }
    }
}

/// A broadcast never hands a line back to its own sender.
pub proof fn lemma_sender_left_out(cs: Seq<Client>, sender: u16)
    ensures
        !others(cs, sender).contains(sender),
{
    lemma_others_members(cs, sender, sender);
}

/// A broadcast recipient in room `k` is indexed in that room.
pub proof fn lemma_recipient_indexed(s: &Server, k: int, sender: u16, x: u16)
    requires
        s.wf(),
        0 <= k < s.rooms@.len(),
        others(s.rooms@[k].clients@, sender).contains(x),
    ensures
        s.placement().contains_key(x),
        s.placement()[x] == s.rooms@[k].name@,
{
    lemma_others_members(s.rooms@[k].clients@, sender, x);
    let i = choose|i: int| 0 <= i < s.rooms@[k].clients@.len() && #[trigger] s.rooms@[k].clients@[i].id == x;
    assert(s.id_to_room@.contains_key(s.rooms@[k].clients@[i].id));
}

/// A participant that is not indexed, as after a kick, is a member of no room, and no
/// broadcast in any room reaches it.
pub proof fn lemma_unplaced_unreached(s: &Server, id: u16, k: int, sender: u16)
    requires
        s.wf(),
        !s.placement().contains_key(id),
        0 <= k < s.rooms@.len(),
    ensures
        !s.rooms@[k].has(id),
        !others(s.rooms@[k].clients@, sender).contains(id),
{
    if s.rooms@[k].has(id) {
        let i = choose|i: int| 0 <= i < s.rooms@[k].clients@.len() && #[trigger] s.rooms@[k].clients@[i].id == id;
        assert(s.id_to_room@.contains_key(s.rooms@[k].clients@[i].id));
    }
    lemma_others_members(s.rooms@[k].clients@, sender, id);
}

/// The announcement that a participant who finished its handshake has joined `room`.
pub fn joined_notice(room: String, nickname: &String) -> (m: Message)
    ensures
        m.room == room,
        m.id == 0,
        m.nickname@ == "[ Server ]"@,
        m.color == colored::Color::Red,
        m.text@ == nickname@ + " joined"@,
{
    let mut text = nickname.clone();
    text.append(" joined");
    Message::new(room, 0, String::from_str("[ Server ]"), server_color(), text)
}

/// Concatenates a room's history into one block, as replayed to a joining participant.
pub fn join_strings(hist: &VecDeque<String>) -> (r: String)
    ensures
        r@ == joined(hist@),
{
    let mut output = String::new();
    let mut i: usize = 0;
    while i < hist.len()
        invariant
            i <= hist@.len(),
            output@ == joined(hist@.subrange(0, i as int)),
        decreases hist@.len() - i,
    {
        output.append(hist[i].as_str());
        proof {
            assert(hist@.subrange(0, i + 1).drop_last() =~= hist@.subrange(0, i as int));
        }
        i = i + 1;
    }
    assert(hist@.subrange(0, i as int) =~= hist@);
    output
}

/// Renders a notice from the server.
pub fn server_message(text: &str) -> (r: String)
    ensures
        is_server_line(text@, r@),
{
    let m = Message::new(String::new(), 0, String::from_str("[ Server ]"), server_color(), String::from_str(text));
    let r = m.to_string();
    assert(renders(m, r@));
    r
}

impl Server {
    /// Hands `line` to every member of the room at `ri` but `sender`; each failed
    /// delivery is queued for removal after the current event.
    pub fn broadcast(&mut self, ri: usize, sender: u16, line: &String) -> (sent: Vec<Delivery>)
        requires
            old(self).wf(),
            ri < old(self).rooms@.len(),
        ensures
            final(self).wf(),
            final(self).rooms == old(self).rooms,
            final(self).id_to_room == old(self).id_to_room,
            targets(sent@) == others(old(self).rooms@[ri as int].clients@, sender),
            final(self).to_remove@.len() >= old(self).to_remove@.len(),
            final(self).to_remove@.subrange(0, old(self).to_remove@.len() as int) == old(self).to_remove@,
            forall|k: int|
                old(self).to_remove@.len() <= k < final(self).to_remove@.len() ==> {
                    &&& (#[trigger] final(self).to_remove@[k]).0@ == old(self).rooms@[ri as int].name@
                    &&& targets(sent@).contains(final(self).to_remove@[k].1)
                },
            final(self).sent_log@ == old(self).sent_log@ + sent@,
            forall|j: int| 0 <= j < sent@.len() ==> carries(#[trigger] sent@[j], line@),
            forall|j: int| 0 <= j < sent@.len() && !(#[trigger] sent@[j]).delivered ==> queued_in(
                final(self).to_remove@,
                sent@[j].to,
                old(self).rooms@[ri as int].name@,
            ),
    {
        let ghost cs = self.rooms@[ri as int].clients@;
        let ghost base = self.to_remove@;
        let mut sent: Vec<Delivery> = Vec::new();
        let mut i: usize = 0;
        while i < self.rooms[ri].clients.len()
            invariant
                self.wf(),
                ri < self.rooms@.len(),
                self.rooms == old(self).rooms,
                self.id_to_room == old(self).id_to_room,
                cs == self.rooms@[ri as int].clients@,
                i <= cs.len(),
                targets(sent@) == others(cs.subrange(0, i as int), sender),
                self.to_remove@.len() >= base.len(),
                self.to_remove@.subrange(0, base.len() as int) == base,
                forall|k: int|
                    base.len() <= k < self.to_remove@.len() ==> {
                        &&& (#[trigger] self.to_remove@[k]).0@ == self.rooms@[ri as int].name@
                        &&& targets(sent@).contains(self.to_remove@[k].1)
                    },
                self.sent_log@ == old(self).sent_log@ + sent@,
                forall|j: int| 0 <= j < sent@.len() ==> carries(#[trigger] sent@[j], line@),
                forall|j: int| 0 <= j < sent@.len() && !(#[trigger] sent@[j]).delivered ==> queued_in(
                    self.to_remove@,
                    sent@[j].to,
                    self.rooms@[ri as int].name@,
                ),
            decreases cs.len() - i,
        {
            proof {
                assert(cs.subrange(0, i + 1).drop_last() =~= cs.subrange(0, i as int));
            }
            let id = self.rooms[ri].clients[i].id;
            let ghost sent0 = targets(sent@);
            let ghost ds0 = sent@;
            let ghost tr0 = self.to_remove@;
            if id != sender {
                let delivered = self.rooms[ri].clients[i].send(line.clone(), &mut self.sent_log);
                let ok = delivered.is_ok();
                sent.push(Delivery { to: id, cmd: ClientCommand::Msg(line.clone()), delivered: ok });
                if !ok {
                    let name = self.rooms[ri].name.clone();
                    self.to_remove.push((name, id));
                }
                proof {
                    assert(self.sent_log@ =~= old(self).sent_log@ + sent@);
                    assert(targets(sent@) =~= sent0.push(id));
                    assert forall|j: int| 0 <= j < sent@.len() && !(#[trigger] sent@[j]).delivered implies queued_in(
                        self.to_remove@, sent@[j].to, self.rooms@[ri as int].name@) by {
                        if j < ds0.len() {
                            assert(sent@[j] == ds0[j]);
                            let k = choose|k: int| 0 <= k < tr0.len() && #[trigger] tr0[k].1 == ds0[j].to && tr0[k].0@ == self.rooms@[ri as int].name@;
                            assert(self.to_remove@[k] == tr0[k]);
                        } else {
                            let k = self.to_remove@.len() - 1;
                            assert(self.to_remove@[k].1 == id);
                        }
                    }
                    assert forall|k: int| base.len() <= k < self.to_remove@.len() implies
                        targets(sent@).contains(#[trigger] self.to_remove@[k].1) by {
                        if k < tr0.len() {
                            assert(self.to_remove@[k] == tr0[k]);
                            assert(sent0.contains(tr0[k].1));
                            let j = choose|j: int| 0 <= j < sent0.len() && sent0[j] == tr0[k].1;
                            assert(targets(sent@)[j] == tr0[k].1);
                        } else {
                            assert(targets(sent@)[targets(sent@).len() - 1] == id);
                        }
                    }
                    assert(self.to_remove@.subrange(0, base.len() as int) =~= base);
                }
            }
            i = i + 1;
        }
        proof {
            assert(cs.subrange(0, i as int) =~= cs);
        }
        sent
    }
    /// Appends a rendered line to the history of the room at `ri`.
    pub fn record_in(&mut self, ri: usize, line: String)
        requires
            old(self).wf(),
            ri < old(self).rooms@.len(),
        ensures
            final(self).wf(),
            final(self).sent_log == old(self).sent_log,
            final(self).id_to_room == old(self).id_to_room,
            final(self).to_remove == old(self).to_remove,
            final(self).rooms@.len() == old(self).rooms@.len(),
            final(self).rooms@[ri as int].history@ == crate::room::pushed_history(
                old(self).rooms@[ri as int].history@,
                line,
            ),
            final(self).rooms@[ri as int].name == old(self).rooms@[ri as int].name,
            final(self).rooms@[ri as int].clients == old(self).rooms@[ri as int].clients,
            forall|k: int|
                0 <= k < old(self).rooms@.len() && k != ri ==> #[trigger] final(self).rooms@[k] == old(
                    self,
                ).rooms@[k],
    {
        let ghost old_rooms = self.rooms@;
        self.rooms[ri].record(line);
        proof {
            let rooms = self.rooms@;
            assert forall|r: int| 0 <= r < rooms.len() implies #[trigger] rooms[r].wf() by {
                if r != ri {
                    assert(rooms[r] == old_rooms[r]);
                }
            }
            assert forall|a: int, b: int| 0 <= a < b < rooms.len() implies #[trigger] rooms[a].name@
                != #[trigger] rooms[b].name@ by {
                assert(old_rooms[a].name@ != old_rooms[b].name@);
            }
            assert forall|r: int, i: int| 0 <= r < rooms.len() && 0 <= i < rooms[r].clients@.len() implies {
                let x = #[trigger] rooms[r].clients@[i].id;
                self.id_to_room@.contains_key(x) && self.id_to_room@[x]@ == rooms[r].name@
            } by {
                assert(rooms[r].clients@[i] == old_rooms[r].clients@[i]);
                assert(rooms[r].name == old_rooms[r].name);
            }
            assert forall|x: u16| #[trigger] self.id_to_room@.contains_key(x) implies self.in_room(x, self.id_to_room@[x]@) by {
                let w = choose|w: int| 0 <= w < old_rooms.len() && #[trigger] old_rooms[w].name@ == old(self).id_to_room@[x]@
                    && old_rooms[w].has(x);
                assert(rooms[w].name == old_rooms[w].name);
                assert(rooms[w].clients == old_rooms[w].clients);
                assert(rooms[w].has(x));
            }
        }
    }

    /// Removes every queued (room, id) pair whose participant is still indexed in that room.
    pub fn drain_removals(&mut self)
        requires
            old(self).wf(),
        ensures
            final(self).wf(),
            final(self).sent_log == old(self).sent_log,
            old(self).to_remove@.len() == 0 ==> *final(self) == *old(self),
            final(self).to_remove@.len() == 0,
            final(self).rooms@.len() == old(self).rooms@.len(),
            forall|k: int| 0 <= k < old(self).rooms@.len() ==> {
                &&& (#[trigger] final(self).rooms@[k]).name == old(self).rooms@[k].name
                &&& final(self).rooms@[k].history == old(self).rooms@[k].history
            },
            forall|x: u16| #[trigger] final(self).placement().contains_key(x) ==> {
                &&& old(self).placement().contains_key(x)
                &&& final(self).placement()[x] == old(self).placement()[x]
            },
            forall|x: u16|
                old(self).placement().contains_key(x) && !final(self).placement().contains_key(x)
                    ==> queued(old(self).to_remove@, x),
            forall|x: u16| #[trigger] old(self).placement().contains_key(x) ==> (final(self).placement().contains_key(x)
                <==> !queued_in(old(self).to_remove@, x, old(self).placement()[x])),
    {
        let ghost q = self.to_remove@;
        while self.to_remove.len() > 0
            invariant
                self.wf(),
                self.sent_log == old(self).sent_log,
                q.len() == 0 ==> *self == *old(self),
                self.to_remove@ == q.subrange(0, self.to_remove@.len() as int),
                self.to_remove@.len() <= q.len(),
                self.rooms@.len() == old(self).rooms@.len(),
                forall|k: int| 0 <= k < old(self).rooms@.len() ==> {
                    &&& (#[trigger] self.rooms@[k]).name == old(self).rooms@[k].name
                    &&& self.rooms@[k].history == old(self).rooms@[k].history
                },
                forall|x: u16| #[trigger] self.placement().contains_key(x) ==> {
                    &&& old(self).placement().contains_key(x)
                    &&& self.placement()[x] == old(self).placement()[x]
                },
                forall|x: u16|
                    old(self).placement().contains_key(x) && !self.placement().contains_key(x)
                        ==> queued_in(q, x, old(self).placement()[x]),
                forall|k: int|
                    self.to_remove@.len() <= k < q.len() && old(self).placement().contains_key((#[trigger] q[k]).1)
                        && q[k].0@ == old(self).placement()[q[k].1] ==> !self.placement().contains_key(q[k].1),
            decreases self.to_remove@.len(),
        {
            let ghost n = self.to_remove@.len();
            let ghost before = *self;
            let pair = self.to_remove.pop();
            assert(self.rooms == before.rooms && self.id_to_room == before.id_to_room);
            assert(self.wf());
            assert(self.placement() == before.placement());
            match pair {
                Some(entry) => {
                    let id = entry.1;
                    proof {
                        assert(entry == q[n - 1]);
                        assert(queued(q, id));
                        assert(self.to_remove@ =~= q.subrange(0, self.to_remove@.len() as int));
                    }
                    let here = match self.id_to_room.get(&id) {
                        Some(name) => *name == entry.0,
                        None => false,
                    };
                    if here {
                        let _ = self.detach(id);
                    }
                    proof {
                        assert forall|k: int|
                            self.to_remove@.len() <= k < q.len() && old(self).placement().contains_key((#[trigger] q[k]).1)
                                && q[k].0@ == old(self).placement()[q[k].1] implies !self.placement().contains_key(q[k].1) by {
                            let x = q[k].1;
                            if k == n - 1 && before.placement().contains_key(x) {
                                assert(before.placement()[x] == old(self).placement()[x]);
                                assert(before.id_to_room@[x]@ == entry.0@);
                            }
                        }
                    }
                },
                None => {},
            }
        }
        proof {
            assert forall|x: u16| #[trigger] old(self).placement().contains_key(x) implies (self.placement().contains_key(x)
                <==> !queued_in(q, x, old(self).placement()[x])) by {
                if queued_in(q, x, old(self).placement()[x]) {
                    let k = choose|k: int| 0 <= k < q.len() && #[trigger] q[k].1 == x && q[k].0@ == old(self).placement()[x];
                    assert(q[k].1 == x);
                }
            }
            assert forall|x: u16|
                old(self).placement().contains_key(x) && !self.placement().contains_key(x) implies queued(q, x) by {
                let k = choose|k: int| 0 <= k < q.len() && #[trigger] q[k].1 == x && q[k].0@ == old(self).placement()[x];
            }
        }
    }
    /// A participant that finished its handshake enters the default room and is shown its history.
    pub fn join(&mut self, c: Client) -> (sent: Vec<Delivery>)
        requires
            old(self).wf(),
        ensures
            final(self).wf(),
            final(self).sent_log@ == old(self).sent_log@ + sent@,
            join_effect(*old(self), c.id, sent@),
            final(self).placement() == old(self).placement().insert(c.id, "main"@),
            final(self).in_room(c.id, "main"@),
            targets(sent@) == seq![c.id],
            forall|k: int| 0 <= k < old(self).rooms@.len() && #[trigger] old(self).rooms@[k].name@ == "main"@
                ==> carries(sent@[0], joined(old(self).rooms@[k].history@)),
            !old(self).has_room("main"@) ==> carries(sent@[0], Seq::<char>::empty()),
            final(self).to_remove == old(self).to_remove,
            final(self).rooms@.len() >= old(self).rooms@.len(),
            forall|k: int| 0 <= k < old(self).rooms@.len() ==> {
                &&& (#[trigger] final(self).rooms@[k]).name == old(self).rooms@[k].name
                &&& final(self).rooms@[k].history == old(self).rooms@[k].history
            },
    {
        let mut c = c;
        let id = c.id;
        let _ = self.detach(id);
        let ghost mid = *self;
        let ri = self.ensure_room(String::from_str("main"));
        proof {
            assert forall|k: int| 0 <= k < mid.rooms@.len() implies self.rooms@[k] == #[trigger] mid.rooms@[k] by {
                assert(self.rooms@.subrange(0, mid.rooms@.len() as int)[k] == self.rooms@[k]);
            }
        }
        proof {
            reveal_strlit("main");
            assert forall|k: int| 0 <= k < old(self).rooms@.len() && #[trigger] old(self).rooms@[k].name@ == "main"@
                implies k == ri by {
                assert(self.rooms@[k] == mid.rooms@[k]);
                if k < ri {
                    assert(self.rooms@[k].name@ != self.rooms@[ri as int].name@);
                } else if k > ri {
                    assert(self.rooms@[ri as int].name@ != self.rooms@[k].name@);
                }
            }
            if !old(self).has_room("main"@) {
                if mid.has_room("main"@) {
                    let w = choose|w: int| 0 <= w < mid.rooms@.len() && #[trigger] mid.rooms@[w].name@ == "main"@;
                    assert(old(self).rooms@[w].name == mid.rooms@[w].name);
                }
                assert(self.rooms@[ri as int].history@ == Seq::<String>::empty());
                assert(joined(self.rooms@[ri as int].history@) =~= Seq::<char>::empty());
            }
        }
        let history = join_strings(&self.rooms[ri].history);
        let ok = c.send(history.clone(), &mut self.sent_log).is_ok();
        c.room = String::from_str("main");
        let ghost n = self.rooms@[ri as int].clients@.len();
        let ghost mid2 = *self;
        self.attach(ri, c);
        proof {
            assert(self.member_at(id, ri as int, n as int));
            assert(self.rooms@[ri as int].has(id));
            assert forall|k: int| 0 <= k < old(self).rooms@.len() implies {
                &&& (#[trigger] self.rooms@[k]).name == old(self).rooms@[k].name
                &&& self.rooms@[k].history == old(self).rooms@[k].history
            } by {
                assert(mid2.rooms@[k] == mid.rooms@[k]);
                assert(self.rooms@[k].name == mid2.rooms@[k].name);
            }
        }
        let mut sent: Vec<Delivery> = Vec::new();
        sent.push(Delivery { to: id, cmd: ClientCommand::Msg(history), delivered: ok });
        assert(targets(sent@) =~= seq![id]);
        assert(self.sent_log@ =~= old(self).sent_log@ + sent@);
        sent
    }

    /// Removes a participant from its room and the index, and tells its worker to end the session.
    pub fn kick(&mut self, id: u16) -> (sent: Vec<Delivery>)
        requires
            old(self).wf(),
        ensures
            final(self).wf(),
            final(self).sent_log@ == old(self).sent_log@ + sent@,
            kick_effect(*old(self), id, sent@),
            final(self).placement() == old(self).placement().remove(id),
            final(self).to_remove == old(self).to_remove,
            final(self).rooms@.len() == old(self).rooms@.len(),
            forall|k: int| 0 <= k < old(self).rooms@.len() ==> {
                &&& (#[trigger] final(self).rooms@[k]).name == old(self).rooms@[k].name
                &&& final(self).rooms@[k].history == old(self).rooms@[k].history
            },
            !old(self).placement().contains_key(id) ==> *final(self) == *old(self),
            targets(sent@) == if old(self).placement().contains_key(id) {
                seq![id]
            } else {
                Seq::<u16>::empty()
            },
            forall|j: int| 0 <= j < sent@.len() ==> (#[trigger] sent@[j]).cmd == ClientCommand::Kick,
    {
        let mut sent: Vec<Delivery> = Vec::new();
        if let Some(c) = self.detach(id) {
            let ok = c.kick(&mut self.sent_log).is_ok();
            sent.push(Delivery { to: id, cmd: ClientCommand::Kick, delivered: ok });
        }
        assert(self.sent_log@ =~= old(self).sent_log@ + sent@);
        assert(targets(sent@) =~= if old(self).placement().contains_key(id) {
            seq![id]
        } else {
            Seq::<u16>::empty()
        });
        sent
    }

    /// Hands a prepared message to every member of its room but its sender.
    pub fn raw(&mut self, m: Message) -> (sent: Vec<Delivery>)
        requires
            old(self).wf(),
        ensures
            final(self).wf(),
            final(self).sent_log@ == old(self).sent_log@ + sent@,
            raw_effect(*old(self), m, sent@),
            final(self).rooms == old(self).rooms,
            final(self).id_to_room == old(self).id_to_room,
            final(self).to_remove@.len() >= old(self).to_remove@.len(),
            !targets(sent@).contains(m.id),
            forall|x: u16| !old(self).placement().contains_key(x) ==> !targets(sent@).contains(x),
            !old(self).has_room(m.room@) ==> targets(sent@) == Seq::<u16>::empty() && final(self).to_remove == old(self).to_remove,
            forall|k: int| 0 <= k < old(self).rooms@.len() && #[trigger] old(self).rooms@[k].name@ == m.room@
                ==> targets(sent@) == others(old(self).rooms@[k].clients@, m.id),
            exists|l: String| #[trigger] renders(m, l@) && forall|j: int| 0 <= j < sent@.len() ==> carries(#[trigger] sent@[j], l@),
            forall|j: int| 0 <= j < sent@.len() && !(#[trigger] sent@[j]).delivered ==> queued_in(
                final(self).to_remove@,
                sent@[j].to,
                m.room@,
            ),
            final(self).to_remove@.subrange(0, old(self).to_remove@.len() as int) == old(self).to_remove@,
            forall|k: int|
                old(self).to_remove@.len() <= k < final(self).to_remove@.len() ==> {
                    &&& (#[trigger] final(self).to_remove@[k]).0@ == m.room@
                    &&& targets(sent@).contains(final(self).to_remove@[k].1)
                },
    {
        match self.find_room(&m.room) {
            None => {
                assert(self.to_remove@.subrange(0, self.to_remove@.len() as int) =~= self.to_remove@);
                let l = m.to_string();
                assert(renders(m, l@));
                Vec::new()
            },
            Some(ri) => {
                proof {
                    assert forall|k: int| 0 <= k < self.rooms@.len() && #[trigger] self.rooms@[k].name@ == m.room@
                        implies k == ri by {
                        if k < ri {
                            assert(self.rooms@[k].name@ != self.rooms@[ri as int].name@);
                        } else if k > ri {
                            assert(self.rooms@[ri as int].name@ != self.rooms@[k].name@);
                        }
                    }
                }
                let line = m.to_string();
                assert(renders(m, line@));
                let ghost at = *self;
                let sent = self.broadcast(ri, m.id, &line);
                proof {
                    lemma_sender_left_out(at.rooms@[ri as int].clients@, m.id);
                    assert forall|x: u16| !old(self).placement().contains_key(x) implies !targets(sent@).contains(x) by {
                        lemma_unplaced_unreached(&at, x, ri as int, m.id);
                    }
                }
                sent
            },
        }
    }
    /// A line from participant `id`: a command when it begins with a slash, else a chat
    /// line that goes into the room's history and out to the other members.
    pub fn text(&mut self, id: u16, line: String) -> (sent: Vec<Delivery>)
        requires
            old(self).wf(),
        ensures
            final(self).wf(),
            final(self).sent_log@ == old(self).sent_log@ + sent@,
            is_command(line@) ==> crate::commands::command_effect(*old(self), *final(self), id, line@, sent@),
            !is_command(line@) && old(self).placement().contains_key(id) ==> chat_effect(*old(self), *final(self), id, line@, sent@),
            final(self).to_remove@.len() >= old(self).to_remove@.len(),
            final(self).rooms@.len() >= old(self).rooms@.len(),
            !is_command(line@) ==> !targets(sent@).contains(id),
            !is_command(line@) ==> forall|x: u16| !old(self).placement().contains_key(x) ==> !targets(sent@).contains(x),
            is_command(line@) ==> final(self).to_remove == old(self).to_remove,
            is_command(line@) ==> forall|k: int| 0 <= k < old(self).rooms@.len() ==> {
                &&& (#[trigger] final(self).rooms@[k]).name == old(self).rooms@[k].name
                &&& final(self).rooms@[k].history == old(self).rooms@[k].history
            },
            is_command(line@) && old(self).placement().contains_key(id) && crate::commands::is_cmd(
                crate::commands::words_of(line@),
                "/room"@,
            ) ==> final(self).placement() == old(self).placement().insert(
                id,
                crate::commands::words_of(line@)[1],
            ),
            is_command(line@) && !crate::commands::is_cmd(crate::commands::words_of(line@), "/room"@)
                ==> final(self).placement() == old(self).placement(),
            !old(self).placement().contains_key(id) ==> *final(self) == *old(self) && targets(sent@) == Seq::<u16>::empty(),
            !is_command(line@) ==> {
                &&& final(self).id_to_room == old(self).id_to_room
                &&& final(self).rooms@.len() == old(self).rooms@.len()
                &&& forall|k: int| 0 <= k < old(self).rooms@.len() ==> {
                    &&& (#[trigger] final(self).rooms@[k]).name == old(self).rooms@[k].name
                    &&& final(self).rooms@[k].clients == old(self).rooms@[k].clients
                }
            },
            !is_command(line@) && old(self).placement().contains_key(id) ==> {
                &&& forall|k: int|
                    0 <= k < old(self).rooms@.len() && #[trigger] old(self).rooms@[k].name@ == old(
                        self,
                    ).placement()[id] ==> {
                        &&& targets(sent@) == others(old(self).rooms@[k].clients@, id)
                        &&& exists|l: String| #[trigger] chat_line(*old(self), id, line@, l@)
                            && final(self).rooms@[k].history@ == crate::room::pushed_history(
                            old(self).rooms@[k].history@,
                            l,
                        ) && forall|j: int| 0 <= j < sent@.len() ==> carries(#[trigger] sent@[j], l@)
                        &&& forall|j: int| 0 <= j < sent@.len() && !(#[trigger] sent@[j]).delivered ==> queued_in(
                            final(self).to_remove@,
                            sent@[j].to,
                            old(self).placement()[id],
                        )
                    }
                &&& forall|k: int| 0 <= k < old(self).rooms@.len() && #[trigger] old(self).rooms@[k].name@
                    != old(self).placement()[id] ==> final(self).rooms@[k].history == old(self).rooms@[k].history
                &&& final(self).to_remove@.subrange(0, old(self).to_remove@.len() as int) == old(self).to_remove@
                &&& forall|k: int|
                    old(self).to_remove@.len() <= k < final(self).to_remove@.len() ==> targets(sent@).contains(
                        (#[trigger] final(self).to_remove@[k]).1,
                    )
            },
    {
        let starts_slash = line.as_str().unicode_len() > 0 && line.as_str().get_char(0) == '/';
        if starts_slash {
            return crate::commands::handle_commands(&line, self, id);
        }
        let name = match self.id_to_room.get(&id) {
            None => {
                assert(self.to_remove@.subrange(0, self.to_remove@.len() as int) =~= self.to_remove@);
                return Vec::new();
            },
            Some(n) => n.clone(),
        };
        proof {
            assert(self.in_room(id, name@));
        }
        let ri = match self.find_room(&name) {
            None => {
                return Vec::new();
            },
            Some(ri) => ri,
        };
        proof {
            assert forall|k: int| 0 <= k < self.rooms@.len() && #[trigger] self.rooms@[k].name@ == name@
                implies k == ri by {
                if k < ri {
                    assert(self.rooms@[k].name@ != self.rooms@[ri as int].name@);
                } else if k > ri {
                    assert(self.rooms@[ri as int].name@ != self.rooms@[k].name@);
                }
            }
            let w = choose|w: int| 0 <= w < self.rooms@.len() && #[trigger] self.rooms@[w].name@ == name@
                && self.rooms@[w].has(id);
            assert(w == ri);
        }
        let ci = match self.rooms[ri].position(id) {
            None => {
                return Vec::new();
            },
            Some(ci) => ci,
        };
        let msg = Message::new(
            name,
            id,
            self.rooms[ri].clients[ci].nickname.clone(),
            self.rooms[ri].clients[ci].color,
            line,
        );
        let rendered = msg.to_string();
        proof {
            assert forall|r: int, i: int| #[trigger] old(self).member_at(id, r, i) implies exists|m: Message|
                message_of(old(self).rooms@[r].clients@[i], msg.text@, m) && #[trigger] renders(m, rendered@) by {
                assert(old(self).member_at(id, ri as int, ci as int));
                old(self).lemma_member_unique(id, r, i, ri as int, ci as int);
                assert(old(self).rooms@[ri as int].wf());
                assert(message_of(old(self).rooms@[r].clients@[i], msg.text@, msg));
            }
            assert(chat_line(*old(self), id, msg.text@, rendered@));
        }
        self.record_in(ri, rendered.clone());
        let ghost at = *self;
        let sent = self.broadcast(ri, id, &rendered);
        proof {
            lemma_sender_left_out(at.rooms@[ri as int].clients@, id);
            assert forall|x: u16| !old(self).placement().contains_key(x) implies !targets(sent@).contains(x) by {
                assert(at.placement() == old(self).placement());
                lemma_unplaced_unreached(&at, x, ri as int, id);
            }
        }
        sent
    }

    /// Processes one event, then removes the participants whose delivery failed during it.
    pub fn dispatch(&mut self, cmd: Command) -> (sent: Vec<Delivery>)
        requires
            old(self).wf(),
        ensures
            final(self).wf(),
            final(self).sent_log@ == old(self).sent_log@ + sent@,
            event_effect(*old(self), *final(self), cmd, sent@),
            final(self).to_remove@.len() == 0,
            final(self).rooms@.len() >= old(self).rooms@.len(),
            forall|k: int| 0 <= k < old(self).rooms@.len() ==> {
                &&& (#[trigger] final(self).rooms@[k]).name == old(self).rooms@[k].name
                &&& history_after(*old(self), cmd, k, final(self).rooms@[k].history@)
            },
            forall|x: u16| #[trigger] final(self).placement().contains_key(x) ==> {
                &&& placement_after(*old(self), cmd).contains_key(x)
                &&& final(self).placement()[x] == placement_after(*old(self), cmd)[x]
            },
            forall|x: u16|
                placement_after(*old(self), cmd).contains_key(x) && !final(self).placement().contains_key(x)
                    ==> targets(sent@).contains(x) || queued(old(self).to_remove@, x),
            broadcasts(cmd) ==> forall|j: int| 0 <= j < sent@.len() && !(#[trigger] sent@[j]).delivered
                ==> !final(self).placement().contains_key(sent@[j].to),
    {
        let ghost pa = placement_after(*old(self), cmd);
        let ghost n0 = old(self).to_remove@.len() as int;
        let sent = match cmd {
            Command::NewClient(c) => {
                let sent = self.join(c);
                assert(self.to_remove@.subrange(0, n0) =~= old(self).to_remove@);
                assert(forall|k: int| 0 <= k < old(self).rooms@.len() ==> history_after(*old(self), cmd, k, #[trigger] self.rooms@[k].history@));
                assert(self.placement() == pa);
                assert(self.sent_log@ == old(self).sent_log@ + sent@);
                sent
            },
            Command::Msg(id, text) => {
                let ghost t = text@;
                let sent = self.text(id, text);
                proof {
                    if is_command(t) || !old(self).placement().contains_key(id) {
                        assert(self.to_remove@.subrange(0, n0) =~= old(self).to_remove@);
                    }
                    if !is_command(t) {
                        assert(self.placement() =~= old(self).placement());
                    }
                    assert(self.placement() == pa);
                    assert(self.to_remove@.subrange(0, n0) == old(self).to_remove@);
                    assert forall|k: int| 0 <= k < old(self).rooms@.len() implies
                        history_after(*old(self), cmd, k, #[trigger] self.rooms@[k].history@) by {
                        if !is_command(t) && old(self).placement().contains_key(id) {
                            assert(old(self).rooms@[k].name@ == old(self).placement()[id]
                                || old(self).rooms@[k].name@ != old(self).placement()[id]);
                        }
                    }
                    assert(targets(sent@).len() == sent@.len());
                    if !is_command(t) && old(self).placement().contains_key(id) {
                        let name = old(self).placement()[id];
                        assert(old(self).in_room(id, name));
                        let k = choose|k: int| 0 <= k < old(self).rooms@.len() && #[trigger] old(self).rooms@[k].name@ == name
                            && old(self).rooms@[k].has(id);
                        assert forall|j: int| 0 <= j < sent@.len() && !(#[trigger] sent@[j]).delivered implies
                            self.placement().contains_key(sent@[j].to)
                            && queued_in(self.to_remove@, sent@[j].to, self.placement()[sent@[j].to]) by {
                            assert(targets(sent@)[j] == sent@[j].to);
                            assert(others(old(self).rooms@[k].clients@, id).contains(sent@[j].to));
                            lemma_recipient_indexed(&*old(self), k, id, sent@[j].to);
                        }
                    }
                }
                assert(self.sent_log@ == old(self).sent_log@ + sent@);
                sent
            },
            Command::RawMsg(m) => {
                let ghost mm = m;
                let sent = self.raw(m);
                assert(self.placement() =~= old(self).placement());
                proof {
                    assert(targets(sent@).len() == sent@.len());
                    if old(self).has_room(mm.room@) {
                        let k = choose|k: int| 0 <= k < old(self).rooms@.len() && #[trigger] old(self).rooms@[k].name@ == mm.room@;
                        assert forall|j: int| 0 <= j < sent@.len() && !(#[trigger] sent@[j]).delivered implies
                            self.placement().contains_key(sent@[j].to)
                            && queued_in(self.to_remove@, sent@[j].to, self.placement()[sent@[j].to]) by {
                            assert(targets(sent@)[j] == sent@[j].to);
                            assert(others(old(self).rooms@[k].clients@, mm.id).contains(sent@[j].to));
                            lemma_recipient_indexed(&*old(self), k, mm.id, sent@[j].to);
                        }
                    }
                }
                assert(forall|k: int| 0 <= k < old(self).rooms@.len() ==> history_after(*old(self), cmd, k, #[trigger] self.rooms@[k].history@));
                assert(self.placement() == pa);
                assert(self.sent_log@ == old(self).sent_log@ + sent@);
                sent
            },
            Command::Kick(id) => {
                let sent = self.kick(id);
                assert(self.to_remove@.subrange(0, n0) =~= old(self).to_remove@);
                assert(forall|k: int| 0 <= k < old(self).rooms@.len() ==> history_after(*old(self), cmd, k, #[trigger] self.rooms@[k].history@));
                assert(self.placement() == pa);
                assert(self.sent_log@ == old(self).sent_log@ + sent@);
                sent
            },
        };
        assert(self.placement() == pa);
        assert(self.to_remove@.len() >= n0);
        assert(self.to_remove@.subrange(0, n0) == old(self).to_remove@);
        assert(forall|k: int| n0 <= k < self.to_remove@.len() ==> targets(sent@).contains(#[trigger] self.to_remove@[k].1));
        let ghost mid = *self;
        proof {
            assert forall|x: u16| queued(mid.to_remove@, x) implies targets(sent@).contains(x) || queued(old(self).to_remove@, x) by {
                let k = choose|k: int| 0 <= k < mid.to_remove@.len() && #[trigger] mid.to_remove@[k].1 == x;
                if k < old(self).to_remove@.len() {
                    assert(mid.to_remove@.subrange(0, old(self).to_remove@.len() as int)[k] == mid.to_remove@[k]);
                    assert(old(self).to_remove@[k].1 == x);
                }
            }
        }
        assert(self.rooms@.len() >= old(self).rooms@.len());
        assert(forall|k: int| 0 <= k < old(self).rooms@.len() ==> (#[trigger] self.rooms@[k]).name == old(self).rooms@[k].name);
        assert(forall|k: int| 0 <= k < old(self).rooms@.len() ==> history_after(*old(self), cmd, k, #[trigger] self.rooms@[k].history@));
        assert(broadcasts(cmd) ==> forall|j: int| 0 <= j < sent@.len() && !(#[trigger] sent@[j]).delivered ==>
            self.placement().contains_key(sent@[j].to)
            && queued_in(self.to_remove@, sent@[j].to, self.placement()[sent@[j].to]));
        let ghost pre_drain = self.sent_log@;
        assert(pre_drain == old(self).sent_log@ + sent@);
        self.drain_removals();
        proof {
            assert forall|k: int| 0 <= k < old(self).rooms@.len() implies {
                &&& (#[trigger] self.rooms@[k]).name == old(self).rooms@[k].name
                &&& history_after(*old(self), cmd, k, self.rooms@[k].history@)
            } by {
                assert(self.rooms@[k].name == mid.rooms@[k].name);
                assert(self.rooms@[k].history == mid.rooms@[k].history);
            }
        }
        sent
    }
}

} // verus!
