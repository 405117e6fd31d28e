use vstd::prelude::*;
use crate::str_map::StrMap;
use crate::str_map::lemma_deep_insert;
use crate::str_map::lemma_deep_empty;

verus! {

/// The WebSocket subprotocol the server answers a handshake with.
pub const ACTIONCABLE_PROTOCOL: &'static str = "actioncable-v1-json";

/// The kinds of failure that can end a WebSocket connection.
#[derive(Clone, Copy, Debug, PartialEq, Eq)]
pub enum ConnectionErrorKind {
    /// The connection was closed.
    ConnectionClosed,
    /// The peer broke the WebSocket protocol.
    Protocol,
    /// A text frame was not UTF-8.
    Utf8,
    /// Any other failure.
    Other,
}

/// Whether a failure that ended a connection is worth reporting: closings, protocol
/// violations and bad UTF-8 are the client's doing and are passed over.
pub fn should_report(kind: ConnectionErrorKind) -> (b: bool)
    ensures
        b == (kind == ConnectionErrorKind::Other),
{
    match kind {
        ConnectionErrorKind::ConnectionClosed | ConnectionErrorKind::Protocol | ConnectionErrorKind::Utf8 => false,
        ConnectionErrorKind::Other => true,
    }
}

/// The header table built from request headers in the order they came: a later
/// header replaces an earlier one with the same name.
pub open spec fn headers_of(pairs: Seq<(Seq<char>, Seq<char>)>) -> Map<Seq<char>, Seq<char>>
    decreases pairs.len(),
{
    if pairs.len() == 0 {
        Map::empty()
    } else {
        headers_of(pairs.drop_last()).insert(pairs.last().0, pairs.last().1)
    }
}

/// Collects the (name, value) pairs of a handshake request into a header table.
pub fn collect_headers(pairs: &Vec<(String, String)>) -> (headers: StrMap<String>)
    ensures
        headers.wf(),
        headers.deep_view() == headers_of(pairs.deep_view()),
{
    let ghost pv = pairs.deep_view();
    let mut headers: StrMap<String> = StrMap::new();
    proof {
        lemma_deep_empty(headers);
        assert(pv.take(0) =~= Seq::<(Seq<char>, Seq<char>)>::empty());
    }
    let mut i: usize = 0;
    while i < pairs.len()
        invariant
            i <= pairs@.len(),
            pv == pairs.deep_view(),
            headers.wf(),
            headers.deep_view() == headers_of(pv.take(i as int)),
        decreases pairs@.len() - i,
    {
        let ghost before = headers;
        let name = pairs[i].0.clone();
        let value = pairs[i].1.clone();
        let ghost vv = value;
        headers.insert(name, value);
        proof {
            lemma_deep_insert(before, headers, pairs@[i as int].0@, vv);
            assert(pv.take(i + 1).drop_last() =~= pv.take(i as int));
            assert(pv.take(i + 1).last() == pv[i as int]);
        }
        i = i + 1;
    }
    proof {
        assert(pv.take(pairs@.len() as int) =~= pv);
    }
    headers
}

} // verus!
