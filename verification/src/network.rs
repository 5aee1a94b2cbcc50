//! How two nodes get to know each other: the first frame on a connection says
//! who is calling, since the connection itself carries no identity.
use vstd::prelude::*;

use crate::messages::{Message, RpcMessage};
use crate::state::NodeId;

verus! {

/// The first frame of an outgoing connection.
pub fn greeting(self_id: NodeId) -> (r: RpcMessage)
    ensures
        r@ == Message::Hello(self_id),
{
    RpcMessage::Hello(self_id)
}

/// Whom a message introduces.
pub open spec fn introduces(first: Message) -> Option<NodeId> {
    match first {
        Message::Hello(id) => Some(id),
        _ => None,
    }
}

/// Who is calling, by the first frame of an incoming connection; `None` if it
/// is no greeting, and the connection has to be dropped.
pub fn caller(first: &RpcMessage) -> (r: Option<NodeId>)
    ensures
        r == introduces(first@),
        r == (match first@ {
            Message::Hello(id) => Some(id),
            _ => None,
        }),
{
    match first {
        RpcMessage::Hello(id) => Some(*id),
        _ => None,
    }
}

/// Whoever greets is known by the id it gave, and nobody is known by anything
/// else.
pub proof fn greetings_introduce_the_caller(id: NodeId, other: Message)
    ensures
        introduces(Message::Hello(id)) == Some(id),
        !(other is Hello) ==> introduces(other) is None,
{
}

} // verus!
