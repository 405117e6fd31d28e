use vstd::prelude::*;
use crate::anycable::CommandMessage;
use crate::anycable::ConnectionRequest;
use crate::anycable::DisconnectRequest;
use crate::session::ClientMessageType;
use crate::str_map::StrMap;

verus! {

/// The probe connection request: no headers and an empty path.
pub fn connect_request() -> (r: ConnectionRequest)
    ensures
        r.path@ == Seq::<char>::empty(),
        r.headers.wf(),
        r.headers@ == Map::<Seq<char>, String>::empty(),
{
    ConnectionRequest { path: String::new(), headers: StrMap::new() }
}

/// The probe disconnection request: every field empty.
pub fn disconnect_request() -> (r: DisconnectRequest)
    ensures
        r.identifiers@ == Seq::<char>::empty(),
        r.subscriptions@ == Seq::<String>::empty(),
        r.path@ == Seq::<char>::empty(),
        r.headers.wf(),
        r.headers@ == Map::<Seq<char>, String>::empty(),
{
    DisconnectRequest {
        identifiers: String::new(),
        subscriptions: Vec::new(),
        path: String::new(),
        headers: StrMap::new(),
    }
}

/// The probe command of a kind: the command's name and every other field empty.
pub fn command_request(kind: ClientMessageType) -> (r: CommandMessage)
    ensures
        r.command@ == kind.name(),
        r.identifier@ == Seq::<char>::empty(),
        r.connection_identifiers@ == Seq::<char>::empty(),
        r.data@ == Seq::<char>::empty(),
{
    CommandMessage {
        command: kind.to_string(),
        identifier: String::new(),
        connection_identifiers: String::new(),
        data: String::new(),
    }
}

} // verus!
