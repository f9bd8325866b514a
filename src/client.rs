use std::sync::mpsc::Sender;
use colored::Color;
use vstd::prelude::*;

verus! {

#[verifier::external_type_specification]
#[verifier::external_body]
#[verifier::reject_recursive_types(T)]
pub struct ExSender<T>(Sender<T>);

#[verifier::external_type_specification]
pub struct ExColor(Color);

/// What the dispatcher hands to a connection worker through its delivery channel.
pub enum ClientCommand {
    Msg(String),
    Kick,
}

/// One item the dispatcher handed to a participant's delivery channel, and whether
/// the channel took it.
pub struct Delivery {
    pub to: u16,
    pub cmd: ClientCommand,
    pub delivered: bool,
}

/// The participants that a list of deliveries went to, in order.
pub open spec fn targets(ds: Seq<Delivery>) -> Seq<u16> {
    ds.map_values(|d: Delivery| d.to)
}

/// The delivery carries the line `l`.
pub open spec fn carries(d: Delivery, l: Seq<char>) -> bool {
    match d.cmd {
        ClientCommand::Msg(s) => s@ == l,
        ClientCommand::Kick => false,
    }
}

/// A participant as the dispatcher tracks it.
pub struct Client {
    pub room: String,
    pub id: u16,
    pub tx: Sender<ClientCommand>,
    pub nickname: String,
    pub color: Color,
    pub to_remove: bool,
}

/// Relies on std's `Sender::send`: it queues the item or fails when the
/// receiving end is gone; which of the two happens is up to the receiver.
#[verifier::external_body]
fn channel_send(tx: &Sender<ClientCommand>, cmd: ClientCommand) -> (r: bool)
{
    tx.send(cmd).is_ok()
}

/// The colour a new participant starts with.
pub fn default_color() -> (r: Color)
    ensures
        r == Color::Green,
{
    Color::Green
}

/// The colour of the server's own notices.
pub fn server_color() -> (r: Color)
    ensures
        r == Color::Red,
{
    Color::Red
}

impl Client {
    pub fn new(room: String, id: u16, tx: Sender<ClientCommand>) -> (c: Client)
        ensures
            c.room == room,
            c.id == id,
            c.tx == tx,
            c.nickname@ == Seq::<char>::empty(),
            c.color == Color::Green,
            !c.to_remove,
    {
        Client { room, id, tx, nickname: String::new(), color: default_color(), to_remove: false }
    }

    /// Queues a line for this participant's worker; fails when the worker is gone.
    /// Every attempt is added to `log`: the line, this participant, and whether it was queued.
    pub fn send(&self, data: String, log: &mut Ghost<Seq<Delivery>>) -> (r: Result<(), ()>)
        ensures
            final(log)@ == old(log)@.push(
                Delivery { to: self.id, cmd: ClientCommand::Msg(data), delivered: r is Ok },
            ),
    {
        let ghost line = data;
        let ok = channel_send(&self.tx, ClientCommand::Msg(data));
        *log = Ghost(log@.push(Delivery { to: self.id, cmd: ClientCommand::Msg(line), delivered: ok }));
        if ok {
            Ok(())
        } else {
            Err(())
        }
    }

    /// Tells this participant's worker to end the session; fails when the worker is gone.
    /// The attempt is added to `log`.
    pub fn kick(&self, log: &mut Ghost<Seq<Delivery>>) -> (r: Result<(), ()>)
        ensures
            final(log)@ == old(log)@.push(Delivery { to: self.id, cmd: ClientCommand::Kick, delivered: r is Ok }),
    {
        let ok = channel_send(&self.tx, ClientCommand::Kick);
        *log = Ghost(log@.push(Delivery { to: self.id, cmd: ClientCommand::Kick, delivered: ok }));
        if ok {
            Ok(())
        } else {
            Err(())
        }
    }
}

} // verus!
