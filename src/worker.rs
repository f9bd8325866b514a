use vstd::prelude::*;
use vstd::string::StringExecFns;

use crate::client::ClientCommand;

verus! {

/// What a connection worker does next.
pub enum Step {
    /// Nothing to act on: wait briefly and poll again.
    Wait,
    /// The handshake is done and this is the nickname.
    Nickname(String),
    /// Forward this line to the dispatcher.
    Forward(String),
    /// Write this text to the connection.
    Write(String),
    /// Write this notice to the connection, then end the session.
    Kicked(String),
}

/// The notice written to a kicked participant: clear screen, cursor home, then the message.
pub open spec fn kick_notice() -> Seq<char> {
    "\x1B[2J\x1B[H"@ + "Kicked by an admin."@
}

/// During the handshake: the first non-empty line read is the nickname.
pub fn handshake_step(input: Option<String>) -> (r: Step)
    ensures
        match input {
            Some(t) if t@.len() > 0 => r == Step::Nickname(t),
            _ => r is Wait,
        },
{
    match input {
        Some(t) => {
            if t.as_str().unicode_len() > 0 {
                Step::Nickname(t)
            } else {
                Step::Wait
            }
        },
        None => Step::Wait,
    }
}

/// During the session: a non-empty line read goes to the dispatcher.
pub fn session_input(input: Option<String>) -> (r: Step)
    ensures
        match input {
            Some(t) if t@.len() > 0 => r == Step::Forward(t),
            _ => r is Wait,
        },
{
    match input {
        Some(t) => {
            if t.as_str().unicode_len() > 0 {
                Step::Forward(t)
            } else {
                Step::Wait
            }
        },
        None => Step::Wait,
    }
}

/// During the session: what to do with an item taken from the delivery channel.
pub fn session_delivery(cmd: ClientCommand) -> (r: Step)
    ensures
        match cmd {
            ClientCommand::Msg(d) => r == Step::Write(d),
            ClientCommand::Kick => match r {
                Step::Kicked(n) => n@ == kick_notice(),
                _ => false,
            },
        },
{
    match cmd {
        ClientCommand::Msg(d) => Step::Write(d),
        ClientCommand::Kick => {
            let mut notice = String::from_str("\x1B[2J\x1B[H");
            notice.append("Kicked by an admin.");
            Step::Kicked(notice)
        },
    }
}

} // verus!
