pub mod client;
pub mod commands;
pub mod dispatch;
pub mod message;
pub mod room;
pub mod server;
pub mod wire;

pub use client::{Client, ClientCommand, Delivery};
pub use commands::{handle_commands, parse_admin, pick_color, AdminError, CLEAR_SCREEN};
pub use dispatch::{join_strings, joined_notice, server_message, Command};
pub use message::Message;
pub use room::{Room, HISTORY_CAPACITY};
pub use server::Server;
pub use wire::{clean_input, send};
pub mod worker;
pub use worker::{handshake_step, session_delivery, session_input, Step};
