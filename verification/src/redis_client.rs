use vstd::prelude::*;
use crate::hub::HubAction;

verus! {

/// A message published for broadcasting: the stream it goes to and the JSON text of
/// the data to broadcast.
pub struct RedisMessage {
    pub stream: String,
    pub data: String,
}

impl RedisMessage {
    /// The hub request that broadcasts this message.
    pub fn into_action<S>(self) -> (action: HubAction<S>)
        ensures
            action matches HubAction::Broadcast { stream, data } && stream@ == self.stream@ && data@
                == self.data@,
    {
        HubAction::Broadcast { stream: self.stream, data: self.data }
    }
}

} // verus!
