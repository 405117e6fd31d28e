use vstd::prelude::*;
use vstd::string::*;
use crate::anycable::CommandMessage;
use crate::anycable::CommandResponse;
use crate::hub::HubAction;
use crate::json::broadcast_frame;
use crate::json::broadcast_text;
use crate::json::json_quoted;
use crate::json::json_reserialized;
use crate::json::ping_frame;
use crate::json::ping_text;
use crate::str_map::StrMap;

verus! {

/// The kinds of command a client sends over its WebSocket.
#[derive(Clone, Copy, Debug, PartialEq, Eq)]
pub enum ClientMessageType {
    Subscribe,
    Unsubscribe,
    Message,
}

impl ClientMessageType {
    /// The name of the command on the wire and towards the RPC server.
    pub open spec fn name(self) -> Seq<char> {
        match self {
            ClientMessageType::Subscribe => "subscribe"@,
            ClientMessageType::Unsubscribe => "unsubscribe"@,
            ClientMessageType::Message => "message"@,
        }
    }

    /// The name of the command.
    pub fn to_string(&self) -> (s: String)
        ensures
            s@ == self.name(),
    {
        match self {
            ClientMessageType::Subscribe => String::from_str("subscribe"),
            ClientMessageType::Unsubscribe => String::from_str("unsubscribe"),
            ClientMessageType::Message => String::from_str("message"),
        }
    }
}

/// A command received from a client: the command, the channel identifier it is
/// about and optional data.
pub struct ClientMessage {
    pub command: ClientMessageType,
    pub identifier: String,
    pub data: Option<String>,
}

/// The characters of optional data, empty where there is none.
pub open spec fn data_text(data: Option<String>) -> Seq<char> {
    match data {
        Some(d) => d@,
        None => Seq::empty(),
    }
}

/// The abstract state of a session: its uid, its connection identifiers and the
/// channel identifiers it is subscribed to.
#[verifier::ext_equal]
pub struct SessionView {
    pub uid: Seq<char>,
    pub identifiers: Seq<char>,
    pub subscriptions: Set<Seq<char>>,
}

impl SessionView {
    /// Whether a client command about channel `ident` is dropped without asking the
    /// RPC server: a subscription to a channel already subscribed to, or an
    /// unsubscription or a message for a channel not subscribed to.
    pub open spec fn skips(self, command: ClientMessageType, ident: Seq<char>) -> bool {
        match command {
            ClientMessageType::Subscribe => self.subscriptions.contains(ident),
            _ => !self.subscriptions.contains(ident),
        }
    }

    /// The session after the RPC server answered a command about channel `ident`.
    pub open spec fn after(self, command: ClientMessageType, ident: Seq<char>) -> Self {
        match command {
            ClientMessageType::Subscribe => SessionView {
                subscriptions: self.subscriptions.insert(ident),
                ..self
            },
            ClientMessageType::Unsubscribe => SessionView {
                subscriptions: self.subscriptions.remove(ident),
                ..self
            },
            ClientMessageType::Message => self,
        }
    }

    /// The session after a client command about channel `ident` is processed: dropped
    /// where it is skipped, else forwarded and answered.
    pub open spec fn process(self, command: ClientMessageType, ident: Seq<char>) -> Self {
        if self.skips(command, ident) {
            self
        } else {
            self.after(command, ident)
        }
    }

    /// The session after processing client commands in order.
    pub open spec fn run(self, commands: Seq<(ClientMessageType, Seq<char>)>) -> Self
        decreases commands.len(),
    {
        if commands.len() == 0 {
            self
        } else {
            self.process(commands[0].0, commands[0].1).run(commands.drop_first())
        }
    }

    /// The command forwarded to the RPC server for a client message.
    pub open spec fn command_for(self, message: ClientMessage) -> (Seq<char>, Seq<char>, Seq<char>, Seq<char>) {
        (message.command.name(), message.identifier@, self.identifiers, data_text(message.data))
    }
}

/// The view of a forwarded command: command, identifier, connection identifiers, data.
pub open spec fn command_view(c: CommandMessage) -> (Seq<char>, Seq<char>, Seq<char>, Seq<char>) {
    (c.command@, c.identifier@, c.connection_identifiers@, c.data@)
}

/// The subscription state of one client connection.
pub struct SessionState {
    pub uid: String,
    pub identifiers: String,
    subscriptions: StrMap<bool>,
}

impl SessionState {
    /// The abstract state of the session.
    pub closed spec fn view(&self) -> SessionView {
        SessionView {
            uid: self.uid@,
            identifiers: self.identifiers@,
            subscriptions: self.subscriptions@.dom(),
        }
    }

    /// The internal invariant: no channel is recorded twice and every recorded
    /// channel is subscribed.
    pub closed spec fn wf(&self) -> bool {
        &&& self.subscriptions.wf()
        &&& forall|k: Seq<char>| #[trigger] self.subscriptions@.contains_key(k) ==> self.subscriptions@[k]
    }

    /// A session with no subscriptions.
    pub fn new(uid: String, identifiers: String) -> (s: Self)
        ensures
            s.wf(),
            s.view() == (SessionView {
                uid: uid@,
                identifiers: identifiers@,
                subscriptions: Set::empty(),
            }),
    {
        let s = SessionState { uid, identifiers, subscriptions: StrMap::new() };
        assert(s.view() =~= (SessionView {
            uid: s.uid@,
            identifiers: s.identifiers@,
            subscriptions: Set::empty(),
        }));
        s
    }

    /// Whether the session is subscribed to channel `identifier`.
    pub fn is_subscribed(&self, identifier: &String) -> (b: bool)
        requires
            self.wf(),
        ensures
            b == self.view().subscriptions.contains(identifier@),
    {
        match self.subscriptions.get(identifier) {
            Some(b) => *b,
            None => false,
        }
    }

    /// The command to forward to the RPC server for a client message, or `None`
    /// where the message is dropped.
    pub fn command_for(&self, message: &ClientMessage) -> (r: Option<CommandMessage>)
        requires
            self.wf(),
        ensures
            r is None <==> self.view().skips(message.command, message.identifier@),
            r matches Some(c) ==> command_view(c) == self.view().command_for(*message),
            r matches Some(c) ==> {
                &&& c.command@ == message.command.name()
                &&& c.identifier@ == message.identifier@
                &&& c.connection_identifiers@ == self.view().identifiers
                &&& c.data@ == data_text(message.data)
            },
    {
        let subscribed = self.is_subscribed(&message.identifier);
        let skip = match message.command {
            ClientMessageType::Subscribe => subscribed,
            _ => !subscribed,
        };
        if skip {
            None
        } else {
            let data = match &message.data {
                Some(d) => d.clone(),
                None => String::new(),
            };
            Some(
                CommandMessage {
                    command: message.command.to_string(),
                    identifier: message.identifier.clone(),
                    connection_identifiers: self.identifiers.clone(),
                    data,
                },
            )
        }
    }

    /// Records the RPC server's answer to a forwarded client message and returns the
    /// requests for the hub: for a subscription, one per stream of the answer, in order.
    pub fn apply_response<S>(&mut self, message: &ClientMessage, response: &CommandResponse) -> (requests: Vec<HubAction<S>>)
        requires
            old(self).wf(),
        ensures
            final(self).wf(),
            final(self).view() == old(self).view().after(message.command, message.identifier@),
            requests@.len() == (if message.command == ClientMessageType::Subscribe {
                response.streams@.len()
            } else {
                0
            }),
            forall|i: int|
                0 <= i < requests@.len() ==> (#[trigger] requests@[i] matches HubAction::Subscribe {
                    session_id,
                    stream,
                    identifier,
                } && session_id@ == old(self).view().uid && stream@ == response.streams@[i]@ && identifier@
                    == message.identifier@),
    {
        let ghost pre = self.view();
        let mut requests: Vec<HubAction<S>> = Vec::new();
        match message.command {
            ClientMessageType::Subscribe => {
                self.subscriptions.insert(message.identifier.clone(), true);
                proof {
                    assert(self.view() =~= pre.after(message.command, message.identifier@));
                }
                let mut i: usize = 0;
                while i < response.streams.len()
                    invariant
                        i <= response.streams@.len(),
                        requests@.len() == i,
                        self.uid@ == pre.uid,
                        forall|j: int|
                            0 <= j < i ==> (#[trigger] requests@[j] matches HubAction::Subscribe {
                                session_id,
                                stream,
                                identifier,
                            } && session_id@ == pre.uid && stream@ == response.streams@[j]@ && identifier@
                                == message.identifier@),
                    decreases response.streams@.len() - i,
                {
                    requests.push(
                        HubAction::Subscribe {
                            session_id: self.uid.clone(),
                            stream: response.streams[i].clone(),
                            identifier: message.identifier.clone(),
                        },
                    );
                    i = i + 1;
                }
            },
            ClientMessageType::Unsubscribe => {
                self.subscriptions.remove(&message.identifier);
                proof {
                    assert(self.view() =~= pre.after(message.command, message.identifier@));
                }
            },
            ClientMessageType::Message => {},
        }
        requests
    }
}

/// What to do with a broadcast for a session.
pub enum Outgoing {
    /// The connection is closed; send nothing.
    Skip,
    /// Send this frame.
    Send(String),
    /// The broadcast data is not JSON.
    Malformed,
}

/// What a session does with broadcast `data` (JSON text) that reaches it under channel
/// `identifier`: nothing once its connection is closed, else the broadcast frame.
pub fn broadcast_outcome(closed: bool, identifier: &str, data: &str) -> (r: Outgoing)
    ensures
        closed ==> r is Skip,
        !closed && json_reserialized(data@) is None ==> r is Malformed,
        !closed && json_reserialized(data@) is Some ==> (r matches Outgoing::Send(frame) && frame@
            == broadcast_text(identifier@, json_reserialized(data@)->0)),
        r matches Outgoing::Send(frame) ==> frame@ == "{\"identifier\":"@ + json_quoted(identifier@)
            + ",\"message\":"@ + json_reserialized(data@)->0 + "}"@,
{
    if closed {
        Outgoing::Skip
    } else {
        match broadcast_frame(identifier, data) {
            Some(frame) => Outgoing::Send(frame),
            None => Outgoing::Malformed,
        }
    }
}

/// Reads the whole seconds since the Unix epoch from the system clock with
/// `std::time::SystemTime::now().duration_since(UNIX_EPOCH)` and `Duration::as_secs`;
/// `None` where the clock reads before the epoch.
///
/// Trusted, and nothing is claimed of the result: it is the clock's reading.
#[verifier::external_body]
fn seconds_since_epoch() -> Option<u64> {
    match std::time::SystemTime::now().duration_since(std::time::UNIX_EPOCH) {
        Ok(elapsed) => Some(elapsed.as_secs()),
        Err(_) => None,
    }
}

/// The ping frame text for a clock reading in whole seconds since the Unix epoch:
/// none where there is no reading or it is beyond what an `i64` holds.
pub open spec fn ping_for_reading_text(reading: Option<u64>) -> Option<Seq<char>> {
    match reading {
        Some(seconds) => if seconds <= i64::MAX {
            Some(ping_text(seconds as int))
        } else {
            None
        },
        None => None,
    }
}

/// The ping frame for a clock reading in whole seconds since the Unix epoch (`None`
/// where the clock read before the epoch).
pub fn ping_for_reading(reading: Option<u64>) -> (r: Option<String>)
    ensures
        r is Some <==> ping_for_reading_text(reading) is Some,
        r matches Some(frame) ==> frame@ == ping_for_reading_text(reading)->0,
{
    match reading {
        None => None,
        Some(seconds) => {
            if seconds <= 9223372036854775807 {
                Some(ping_frame(seconds as i64))
            } else {
                None
            }
        },
    }
}

/// The ping frame for the current time: the frame for whatever the clock reads.
pub fn ping_message() -> (r: Option<String>)
    ensures
        exists|reading: Option<u64>|
            (r is Some <==> ping_for_reading_text(reading) is Some) && (r matches Some(frame) ==> frame@
                == ping_for_reading_text(reading)->0),
{
    let reading = seconds_since_epoch();
    ping_for_reading(reading)
}

/// A lower-case hexadecimal digit character.
pub open spec fn is_lower_hex(c: char) -> bool {
    (48 <= (c as u32) && (c as u32) <= 57) || (97 <= (c as u32) && (c as u32) <= 102)
}

/// The character at position `i` of a hyphenated uuid: a hyphen at 8, 13, 18 and 23,
/// a lower-case hexadecimal digit elsewhere.
pub open spec fn uuid_char_ok(i: int, c: char) -> bool {
    if i == 8 || i == 13 || i == 18 || i == 23 {
        c == '-'
    } else {
        is_lower_hex(c)
    }
}

/// The text of a random (version 4, RFC 4122 variant) uuid in hyphenated lower-case form.
pub open spec fn is_v4_uuid_text(s: Seq<char>) -> bool {
    &&& s.len() == 36
    &&& forall|i: int| 0 <= i < 36 ==> uuid_char_ok(i, #[trigger] s[i])
    &&& s[14] == '4'
    &&& (s[19] == '8' || s[19] == '9' || s[19] == 'a' || s[19] == 'b')
}

/// Makes a fresh random request id with `uuid::Uuid::new_v4().to_string()`.
///
/// Trusted: the contract claims that the text is a version 4 uuid in the hyphenated
/// lower-case form (36 characters; `new_v4` fixes the version nibble to 4 and the
/// variant bits to `10`, and `Display` writes lower-case hex with hyphens); the other
/// digits are random.
#[verifier::external_body]
fn new_request_id() -> (r: String)
    ensures
        is_v4_uuid_text(r@),
{
    uuid::Uuid::new_v4().to_string()
}

/// The name of the header that carries a request id.
pub open spec fn request_id_header() -> Seq<char> {
    "X-Request-ID"@
}

/// A character's code with ASCII upper-case letters folded to lower case.
pub open spec fn fold_case(c: char) -> u32 {
    if 65 <= (c as u32) && (c as u32) <= 90 {
        ((c as u32) + 32) as u32
    } else {
        c as u32
    }
}

/// Whether two header names are the same ignoring ASCII case.
pub open spec fn same_name(a: Seq<char>, b: Seq<char>) -> bool {
    a.len() == b.len() && forall|i: int| 0 <= i < a.len() ==> #[trigger] fold_case(a[i]) == fold_case(b[i])
}

/// Whether two header names are the same ignoring ASCII case.
pub fn names_match(a: &str, b: &str) -> (r: bool)
    ensures
        r == same_name(a@, b@),
{
    let la = a.unicode_len();
    let lb = b.unicode_len();
    if la != lb {
        return false;
    }
    let mut i: usize = 0;
    while i < la
        invariant
            la == a@.len(),
            lb == b@.len(),
            la == lb,
            i <= la,
            forall|j: int| 0 <= j < i ==> #[trigger] fold_case(a@[j]) == fold_case(b@[j]),
        decreases la - i,
    {
        let x = a.get_char(i) as u32;
        let y = b.get_char(i) as u32;
        let fx = if 65 <= x && x <= 90 { x + 32 } else { x };
        let fy = if 65 <= y && y <= 90 { y + 32 } else { y };
        if fx != fy {
            assert(fold_case(a@[i as int]) != fold_case(b@[i as int]));
            return false;
        }
        i = i + 1;
    }
    true
}

/// Whether a header table holds a request-id header, whatever the case of its name.
pub open spec fn has_request_id(headers: Map<Seq<char>, Seq<char>>) -> bool {
    exists|k: Seq<char>| #[trigger] headers.contains_key(k) && same_name(k, request_id_header())
}

/// The uid for a connection with request headers `headers`: the value of the
/// `X-Request-ID` header (its name compared ignoring ASCII case), else `fallback`.
pub fn uid_from_headers(headers: &StrMap<String>, fallback: String) -> (uid: String)
    requires
        headers.wf(),
    ensures
        has_request_id(headers.deep_view()) ==> exists|k: Seq<char>|
            #[trigger] headers.deep_view().contains_key(k) && same_name(k, request_id_header()) && uid@
                == headers.deep_view()[k],
        !has_request_id(headers.deep_view()) ==> uid@ == fallback@,
{
    let name = "X-Request-ID";
    proof {
        headers.lemma_keys();
    }
    let ghost dv = headers.deep_view();
    let n = headers.len();
    let mut i: usize = 0;
    while i < n
        invariant
            n == headers.keys().len(),
            i <= n,
            headers.wf(),
            dv == headers.deep_view(),
            name@ == request_id_header(),
            forall|j: int| 0 <= j < i ==> !same_name(#[trigger] headers.keys()[j], request_id_header()),
        decreases n - i,
    {
        let key = headers.key_at(i);
        if names_match(key.as_str(), name) {
            let value = headers.value_at(i);
            proof {
                assert(dv.contains_key(key@));
                assert(dv[key@] == value@);
            }
            return value.clone();
        }
        i = i + 1;
    }
    proof {
        assert forall|k: Seq<char>| #[trigger] dv.contains_key(k) implies !same_name(k, request_id_header()) by {
            assert(headers.keys().to_set().contains(k));
            let j = choose|j: int| 0 <= j < headers.keys().len() && headers.keys()[j] == k;
            assert(!same_name(headers.keys()[j], request_id_header()));
        }
    }
    fallback
}

/// The uid for a connection with request headers `headers`: the value of the
/// `X-Request-ID` header (its name compared ignoring ASCII case), else a fresh random
/// version 4 uuid.
pub fn fetch_or_create_uid(headers: &StrMap<String>) -> (uid: String)
    requires
        headers.wf(),
    ensures
        has_request_id(headers.deep_view()) ==> exists|k: Seq<char>|
            #[trigger] headers.deep_view().contains_key(k) && same_name(k, request_id_header()) && uid@
                == headers.deep_view()[k],
        !has_request_id(headers.deep_view()) ==> is_v4_uuid_text(uid@),
{
    let fresh = new_request_id();
    uid_from_headers(headers, fresh)
}

/// What a session does with a frame read from its client.
pub enum FrameAction {
    /// A text frame: parse it as a client command and process it.
    Process,
    /// A close frame: mark the connection closed and echo the frame back.
    CloseAndEcho,
    /// Any other frame is passed over.
    Ignore,
}

/// What a session does with a frame that is text (`is_text`) or a close (`is_close`).
pub fn frame_action(is_text: bool, is_close: bool) -> (a: FrameAction)
    ensures
        is_text ==> a is Process,
        !is_text && is_close ==> a is CloseAndEcho,
        !is_text && !is_close ==> a is Ignore,
{
    if is_text {
        FrameAction::Process
    } else if is_close {
        FrameAction::CloseAndEcho
    } else {
        FrameAction::Ignore
    }
}

/// Whether a session keeps pinging its client: as long as the connection is not closed.
pub fn keep_pinging(closed: bool) -> (b: bool)
    ensures
        b == !closed,
{
    !closed
}

/// The lifecycle of a channel subscription: a channel that was subscribed is not
/// subscribed again and takes messages and unsubscriptions; a channel that was
/// unsubscribed drops messages and unsubscriptions; subscribing then unsubscribing a
/// channel that was not subscribed restores the session; messages change nothing; and
/// no answer about one channel changes what happens to another.
pub proof fn lemma_subscription_lifecycle(
    s: SessionView,
    ident: Seq<char>,
    command: ClientMessageType,
    other: Seq<char>,
    other_command: ClientMessageType,
)
    ensures
        s.after(ClientMessageType::Subscribe, ident).skips(ClientMessageType::Subscribe, ident),
        !s.after(ClientMessageType::Subscribe, ident).skips(ClientMessageType::Message, ident),
        !s.after(ClientMessageType::Subscribe, ident).skips(ClientMessageType::Unsubscribe, ident),
        s.after(ClientMessageType::Unsubscribe, ident).skips(ClientMessageType::Message, ident),
        s.after(ClientMessageType::Unsubscribe, ident).skips(ClientMessageType::Unsubscribe, ident),
        !s.after(ClientMessageType::Unsubscribe, ident).skips(ClientMessageType::Subscribe, ident),
        !s.subscriptions.contains(ident) ==> s.after(ClientMessageType::Subscribe, ident).after(
            ClientMessageType::Unsubscribe,
            ident,
        ) == s,
        s.after(ClientMessageType::Message, ident) == s,
        other != ident ==> s.after(command, ident).skips(other_command, other) == s.skips(other_command, other),
{
    if !s.subscriptions.contains(ident) {
        assert(s.after(ClientMessageType::Subscribe, ident).after(ClientMessageType::Unsubscribe, ident) =~= s);
    }
}

/// A channel stays subscribed, and a new subscription to it stays skipped, through any
/// commands that do not unsubscribe it, whatever they do to other channels.
pub proof fn lemma_subscribed_until_unsubscribed(
    s: SessionView,
    ident: Seq<char>,
    commands: Seq<(ClientMessageType, Seq<char>)>,
)
    requires
        s.subscriptions.contains(ident),
        forall|i: int|
            0 <= i < commands.len() ==> !((#[trigger] commands[i]).0 == ClientMessageType::Unsubscribe
                && commands[i].1 == ident),
    ensures
        s.run(commands).subscriptions.contains(ident),
        s.run(commands).skips(ClientMessageType::Subscribe, ident),
    decreases commands.len(),
{
    if commands.len() > 0 {
        let next = s.process(commands[0].0, commands[0].1);
        assert(next.subscriptions.contains(ident));
        let rest = commands.drop_first();
        assert forall|i: int| 0 <= i < rest.len() implies !((#[trigger] rest[i]).0
            == ClientMessageType::Unsubscribe && rest[i].1 == ident) by {
            assert(rest[i] == commands[i + 1]);
        }
        lemma_subscribed_until_unsubscribed(next, ident, rest);
    }
}

} // verus!
