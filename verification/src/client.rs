//! What the command-line client computes: the request message one of its
//! two commands sends to a node, and the line it prints for the single
//! reply frame it reads back.

use crate::wire::{MessageModel, WireMessage};
use vstd::prelude::*;
use vstd::string::StringExecFns;

verus! {

/// One request the client tool can issue against a chosen node.
pub enum ClientCommand {
    /// Bind `key` to `value` on the node.
    SetValue { key: String, value: String },
    /// Read the value bound to `key` on the node.
    GetValue { key: String },
}

/// The message a client command sends.
pub fn request_message(cmd: ClientCommand) -> (m: WireMessage)
    ensures
        cmd matches ClientCommand::SetValue { key, value } ==> m@ == (MessageModel::SetValue {
            key: key@,
            value: value@,
        }),
        cmd matches ClientCommand::GetValue { key } ==> m@ == (MessageModel::GetValue { key: key@ }),
{
    match cmd {
        ClientCommand::SetValue { key, value } => WireMessage::SetValue { key, value },
        ClientCommand::GetValue { key } => WireMessage::GetValue { key },
    }
}

/// The line printed for the reply to a `Set`: the value carried by a
/// response, or the fixed complaint about any other reply.
pub open spec fn spec_set_reply_line(m: MessageModel) -> Seq<char> {
    match m {
        MessageModel::ValueResponse { value: Some(v) } => v,
        _ => "Unexpected response from node."@,
    }
}

/// The line printed for the reply to a `Get`: the value when one is
/// bound, the not-found line when none is, the fixed complaint otherwise.
pub open spec fn spec_get_reply_line(m: MessageModel) -> Seq<char> {
    match m {
        MessageModel::ValueResponse { value: Some(v) } => v,
        MessageModel::ValueResponse { value: None } => "Key not found."@,
        _ => "Unexpected response from node."@,
    }
}

/// Renders the reply to a `Set` command for the user.
pub fn render_set_reply(m: &WireMessage) -> (out: String)
    ensures
        out@ == spec_set_reply_line(m@),
{
    match m {
        WireMessage::ValueResponse { value: Option::Some(v) } => v.clone(),
        _ => String::from_str("Unexpected response from node."),
    }
}

/// Renders the reply to a `Get` command for the user.
pub fn render_get_reply(m: &WireMessage) -> (out: String)
    ensures
        out@ == spec_get_reply_line(m@),
{
    match m {
        WireMessage::ValueResponse { value: Option::Some(v) } => v.clone(),
        WireMessage::ValueResponse { value: Option::None } => String::from_str("Key not found."),
        _ => String::from_str("Unexpected response from node."),
    }
}

} // verus!
