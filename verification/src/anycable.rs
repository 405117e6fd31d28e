use vstd::prelude::*;
use crate::str_map::StrMap;

verus! {

/// The outcome an RPC reply carries.
#[derive(Clone, Copy, Debug, PartialEq, Eq, Hash)]
pub enum Status {
    Error,
    Success,
    Failure,
}

impl Status {
    /// Decodes the wire number of a status.
    pub fn from_i32(value: i32) -> (res: Option<Status>)
        ensures
            res == Status::from_i32_spec(value),
    {
        if value == 0 {
            Some(Status::Error)
        } else if value == 1 {
            Some(Status::Success)
        } else if value == 2 {
            Some(Status::Failure)
        } else {
            None
        }
    }

    /// The wire number of a status.
    pub fn to_i32(&self) -> (value: i32)
        ensures
            Status::from_i32_spec(value) == Some(*self),
    {
        match self {
            Status::Error => 0,
            Status::Success => 1,
            Status::Failure => 2,
        }
    }

    /// The status that a wire number stands for.
    pub open spec fn from_i32_spec(value: i32) -> Option<Status> {
        if value == 0 {
            Some(Status::Error)
        } else if value == 1 {
            Some(Status::Success)
        } else if value == 2 {
            Some(Status::Failure)
        } else {
            None
        }
    }
}

/// The status a reply's wire number stands for, `Error` where the number is unknown.
pub open spec fn status_or_error(value: i32) -> Status {
    match Status::from_i32_spec(value) {
        Some(s) => s,
        None => Status::Error,
    }
}

fn decode_status(value: i32) -> (s: Status)
    ensures
        s == status_or_error(value),
{
    match Status::from_i32(value) {
        Some(s) => s,
        None => Status::Error,
    }
}

/// Asks the RPC server to authenticate a new WebSocket connection.
pub struct ConnectionRequest {
    pub path: String,
    pub headers: StrMap<String>,
}

/// The RPC server's answer to a connection request.
pub struct ConnectionResponse {
    pub status: i32,
    pub identifiers: String,
    pub transmissions: Vec<String>,
    pub error_msg: String,
}

impl ConnectionResponse {
    /// The decoded status of the reply.
    pub fn status(&self) -> (s: Status)
        ensures
            s == status_or_error(self.status),
    {
        decode_status(self.status)
    }
}

/// A client command forwarded to the RPC server.
pub struct CommandMessage {
    pub command: String,
    pub identifier: String,
    pub connection_identifiers: String,
    pub data: String,
}

/// The RPC server's answer to a command.
pub struct CommandResponse {
    pub status: i32,
    pub disconnect: bool,
    pub stop_streams: bool,
    pub streams: Vec<String>,
    pub transmissions: Vec<String>,
    pub error_msg: String,
}

impl CommandResponse {
    /// The decoded status of the reply.
    pub fn status(&self) -> (s: Status)
        ensures
            s == status_or_error(self.status),
    {
        decode_status(self.status)
    }
}

/// Tells the RPC server that a connection went away.
pub struct DisconnectRequest {
    pub identifiers: String,
    pub subscriptions: Vec<String>,
    pub path: String,
    pub headers: StrMap<String>,
}

/// The RPC server's answer to a disconnection.
pub struct DisconnectResponse {
    pub status: i32,
    pub error_msg: String,
}

impl DisconnectResponse {
    /// The decoded status of the reply.
    pub fn status(&self) -> (s: Status)
        ensures
            s == status_or_error(self.status),
    {
        decode_status(self.status)
    }
}

} // verus!
