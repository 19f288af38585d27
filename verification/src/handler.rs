//! The room-message handler: which messages are passed over, which are
//! turned away, and which lead to a lookup.

use crate::order::{lex_order, LexOrder};
use crate::resolve::{ex_help, has_trigger, query_of, strip_trigger};
use vstd::prelude::*;
use vstd::string::*;

verus! {

/// The name of the one room in which the bot answers.
pub const DESIGNATED_ROOM: &'static str = "nvim-bot-test";

/// The notice sent to a room other than the designated one.
pub const REJECTION_NOTICE: &'static str =
    "Not here dumbass, do it in the test room: https://matrix.to/#/#nvim-bot-test:matrix.org";

/// A room message as the handler sees it.
#[derive(Clone, Debug, PartialEq, Eq)]
pub struct IncomingMessage {
    /// Whether the bot is still a member of the room.
    pub joined: bool,
    /// The name of the room, if it has one.
    pub room_name: Option<String>,
    /// The body of a text message; `None` for a message of another kind.
    pub body: Option<String>,
}

/// What the caller is to do about a message.
#[derive(Clone, Debug, PartialEq, Eq)]
pub enum Action {
    /// Nothing: the message is not for the bot.
    Ignore,
    /// Send this text to the room the message came from.
    Send(String),
    /// Load the tag table, answer this query tag from it and send the
    /// answer to the room the message came from.
    Lookup(String),
}

impl IncomingMessage {
    /// The message is a text message that begins with the trigger, in a room
    /// that the bot is a member of.
    pub open spec fn triggers(&self) -> bool {
        &&& self.joined
        &&& self.body matches Some(body)
        &&& has_trigger(body@)
    }

    /// The message comes from the designated room.
    pub open spec fn in_designated_room(&self) -> bool {
        &&& self.room_name matches Some(name)
        &&& name@ == DESIGNATED_ROOM@
    }
}

/// Decides what to do about `message`. A message that does not trigger is
/// passed over. A triggering message from a room other than the designated
/// one is turned away with the rejection notice and leads to no lookup. A
/// triggering message from the designated room leads to the lookup of the
/// tag it asks for.
pub fn on_room_message(message: &IncomingMessage) -> (action: Action)
    ensures
        !message.triggers() ==> action == Action::Ignore,
        message.triggers() && !message.in_designated_room() ==> (action matches Action::Send(
            notice,
        ) && notice@ == REJECTION_NOTICE@),
        message.triggers() && message.in_designated_room() ==> (action matches Action::Lookup(
            query,
        ) && query@ == query_of(message.body->0@)),
{
    if !message.joined {
        return Action::Ignore;
    }
    let body: &str = match &message.body {
        Some(body) => body.as_str(),
        None => {
            return Action::Ignore;
        },
    };
    let rest: &str = match strip_trigger(body) {
        Some(rest) => rest,
        None => {
            return Action::Ignore;
        },
    };
    let here: bool = match &message.room_name {
        Some(name) => lex_order(name.as_str(), DESIGNATED_ROOM) == LexOrder::Equal,
        None => false,
    };
    if !here {
        return Action::Send(String::from_str(REJECTION_NOTICE));
    }
    Action::Lookup(String::from_str(ex_help(rest)))
}

} // verus!
