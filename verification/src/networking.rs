//! How a client connection of the game server reacts to what the client
//! sends: the subscription it keeps and the reply it makes. Sockets, frames
//! and message decoding are the server's.

use vstd::prelude::*;

use crate::resources::NetworkCommand;

verus! {

/// A message a client sends, once decoded.
#[derive(Clone, Debug)]
pub enum ClientMessage {
    Subscribe,
    Unsubscribe,
    Command(NetworkCommand),
    Ping,
}

/// What arrives on a client connection.
#[derive(Clone, Debug)]
pub enum Incoming {
    /// A text frame holding a decoded message.
    Message(ClientMessage),
    /// A text frame that does not decode to a message.
    Undecodable,
    /// A binary frame.
    Binary,
    /// The client closed the connection.
    Close,
    /// The connection failed.
    Failed,
    /// The stream of frames ended.
    Ended,
    /// Any other frame.
    Other,
}

/// What the connection does in reply.
#[derive(Clone, Debug)]
pub enum Reaction {
    /// Nothing.
    Ignore,
    /// Record the client as a subscriber.
    Subscribed,
    /// Remove the client from the subscribers.
    Unsubscribed,
    /// Hand the command to the game.
    Forward(NetworkCommand),
    /// Report a message that does not decode.
    ReportInvalid,
    /// Answer that binary frames are not supported.
    RejectBinary,
    /// Remove the client from the subscribers and stop serving it.
    Disconnect,
}

/// Reacts to what arrives on a connection whose client is `subscribed` to
/// events: returns whether it is subscribed afterwards, and the reply.
/// Subscribing and unsubscribing set the flag; closing, failing or ending
/// clears it and ends the connection; a command is handed on; a ping, an
/// unknown frame and everything else leave the flag as it is.
pub fn on_incoming(subscribed: bool, incoming: Incoming) -> (r: (bool, Reaction))
    ensures
        match incoming {
            Incoming::Message(ClientMessage::Subscribe) => r.0 && r.1 is Subscribed,
            Incoming::Message(ClientMessage::Unsubscribe) => !r.0 && r.1 is Unsubscribed,
            Incoming::Message(ClientMessage::Command(c)) => r.0 == subscribed && r.1 == Reaction::Forward(
                c,
            ),
            Incoming::Message(ClientMessage::Ping) => r.0 == subscribed && r.1 is Ignore,
            Incoming::Undecodable => r.0 == subscribed && r.1 is ReportInvalid,
            Incoming::Binary => r.0 == subscribed && r.1 is RejectBinary,
            Incoming::Close => !r.0 && r.1 is Disconnect,
            Incoming::Failed => !r.0 && r.1 is Disconnect,
            Incoming::Ended => !r.0 && r.1 is Disconnect,
            Incoming::Other => r.0 == subscribed && r.1 is Ignore,
        },
{
    match incoming {
        Incoming::Message(message) => match message {
            ClientMessage::Subscribe => (true, Reaction::Subscribed),
            ClientMessage::Unsubscribe => (false, Reaction::Unsubscribed),
            ClientMessage::Command(command) => (subscribed, Reaction::Forward(command)),
            ClientMessage::Ping => (subscribed, Reaction::Ignore),
        },
        Incoming::Undecodable => (subscribed, Reaction::ReportInvalid),
        Incoming::Binary => (subscribed, Reaction::RejectBinary),
        Incoming::Close => (false, Reaction::Disconnect),
        Incoming::Failed => (false, Reaction::Disconnect),
        Incoming::Ended => (false, Reaction::Disconnect),
        Incoming::Other => (subscribed, Reaction::Ignore),
    }
}

} // verus!
