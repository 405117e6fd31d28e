use vstd::prelude::*;
use crate::json::json_as_string;
use crate::json::json_string_contents;
use crate::str_map::StrMap;
use crate::str_map::nested_wf;
use crate::str_map::take_inner;
use crate::str_map::put_inner;
use crate::str_map::lemma_deep_insert;
use crate::str_map::lemma_deep_remove;

verus! {

/// One broadcast to hand to one session: the session's uid and the channel
/// identifier under which that session subscribed to the stream.
pub struct Delivery {
    pub session_id: String,
    pub identifier: String,
}

impl DeepView for Delivery {
    type V = (Seq<char>, Seq<char>);

    open spec fn deep_view(&self) -> (Seq<char>, Seq<char>) {
        (self.session_id@, self.identifier@)
    }
}

/// A request to the hub. `S` is the handle through which a session is reached.
pub enum HubAction<S> {
    /// Register a session under its uid; `identifiers` are its connection identifiers.
    Add { uid: String, identifiers: String, session: S },
    /// Forget a session and everything it subscribed to.
    Remove { uid: String, identifiers: String },
    /// Subscribe a session to a stream on behalf of a channel identifier.
    Subscribe { session_id: String, stream: String, identifier: String },
    /// Stop the streams that a session follows for one channel identifier.
    Unsubscribe { session_id: String, identifier: String },
    /// Send data to every registered session subscribed to a stream. `data` is the JSON
    /// text of the value that was published, which must be a JSON string.
    Broadcast { stream: String, data: String },
    /// Stop the hub.
    Shutdown,
}

/// What the hub asks of its driver after handling an action.
pub enum HubOutcome {
    /// Nothing to do; wait for the next action.
    Continue,
    /// Hand `data` to each of the deliveries.
    Deliver { data: String, deliveries: Vec<Delivery> },
    /// Stop the hub.
    Stop,
    /// The action cannot be carried out on the current state (the hub is left as it was).
    Fault,
}

/// The abstract state of a hub.
#[verifier::ext_equal]
pub struct HubView<S> {
    /// Registered sessions by uid.
    pub sessions: Map<Seq<char>, S>,
    /// For each connection-identifiers string, the uids registered with it.
    pub identifiers: Map<Seq<char>, Map<Seq<char>, bool>>,
    /// For each stream, the subscribed sessions and the channel identifier of each.
    pub streams: Map<Seq<char>, Map<Seq<char>, Seq<char>>>,
    /// For each session, the streams it subscribed to under each channel identifier.
    pub session_streams: Map<Seq<char>, Map<Seq<char>, Seq<Seq<char>>>>,
}

/// The inner map under `k`, or an empty one.
pub open spec fn inner_of<V>(m: Map<Seq<char>, Map<Seq<char>, V>>, k: Seq<char>) -> Map<Seq<char>, V> {
    if m.contains_key(k) {
        m[k]
    } else {
        Map::empty()
    }
}

/// The stream list under `k`, or an empty one.
pub open spec fn list_of(m: Map<Seq<char>, Seq<Seq<char>>>, k: Seq<char>) -> Seq<Seq<char>> {
    if m.contains_key(k) {
        m[k]
    } else {
        Seq::empty()
    }
}

/// `streams` with session `sid` dropped from every stream that `affected` names.
pub open spec fn without_session(
    streams: Map<Seq<char>, Map<Seq<char>, Seq<char>>>,
    sid: Seq<char>,
    affected: spec_fn(Seq<char>) -> bool,
) -> Map<Seq<char>, Map<Seq<char>, Seq<char>>> {
    Map::new(
        |k: Seq<char>| streams.contains_key(k),
        |k: Seq<char>|
            if affected(k) {
                streams[k].remove(sid)
            } else {
                streams[k]
            },
    )
}

impl<S> HubView<S> {
    /// Every stream that a session lists is a known stream.
    pub open spec fn lists_known(self) -> bool {
        forall|sid: Seq<char>, ident: Seq<char>, i: int|
            self.session_streams.contains_key(sid) && self.session_streams[sid].contains_key(ident)
                && 0 <= i < self.session_streams[sid][ident].len() ==> self.streams.contains_key(
                #[trigger] self.session_streams[sid][ident][i],
            )
    }

    /// Every subscription of a session to a stream is listed, in the session's record,
    /// under the channel identifier it was made for.
    pub open spec fn entries_listed(self) -> bool {
        forall|st: Seq<char>, u: Seq<char>|
            self.streams.contains_key(st) && #[trigger] self.streams[st].contains_key(u) ==> {
                &&& self.session_streams.contains_key(u)
                &&& self.session_streams[u].contains_key(self.streams[st][u])
                &&& self.session_streams[u][self.streams[st][u]].contains(st)
            }
    }

    /// The subscription records of the streams and of the sessions agree.
    pub open spec fn consistent(self) -> bool {
        self.entries_listed() && self.lists_known()
    }

    /// The empty hub.
    pub open spec fn empty() -> Self {
        HubView {
            sessions: Map::empty(),
            identifiers: Map::empty(),
            streams: Map::empty(),
            session_streams: Map::empty(),
        }
    }

    /// The hub after registering a session.
    pub open spec fn add_session(self, uid: Seq<char>, identifiers: Seq<char>, session: S) -> Self {
        HubView {
            sessions: self.sessions.insert(uid, session),
            identifiers: self.identifiers.insert(
                identifiers,
                inner_of(self.identifiers, identifiers).insert(uid, true),
            ),
            ..self
        }
    }

    /// The hub after subscribing session `sid` to `stream` for channel `ident`.
    pub open spec fn subscribe(self, sid: Seq<char>, stream: Seq<char>, ident: Seq<char>) -> Self {
        let per = inner_of(self.session_streams, sid);
        HubView {
            streams: self.streams.insert(stream, inner_of(self.streams, stream).insert(sid, ident)),
            session_streams: self.session_streams.insert(
                sid,
                per.insert(ident, list_of(per, ident).push(stream)),
            ),
            ..self
        }
    }

    /// Whether channel `ident` of session `sid` can be unsubscribed: a session with
    /// subscriptions must have subscribed under that identifier.
    pub open spec fn can_unsubscribe(self, sid: Seq<char>, ident: Seq<char>) -> bool {
        self.session_streams.contains_key(sid) ==> self.session_streams[sid].contains_key(ident)
    }

    /// The hub after session `sid` stops the streams it follows for channel `ident`.
    pub open spec fn unsubscribe(self, sid: Seq<char>, ident: Seq<char>) -> Self {
        if !self.session_streams.contains_key(sid) {
            self
        } else {
            let names = self.session_streams[sid][ident];
            HubView {
                streams: without_session(self.streams, sid, |k: Seq<char>| names.contains(k)),
                ..self
            }
        }
    }

    /// Whether session `sid` lists stream `k` under any channel identifier.
    pub open spec fn listed_for(self, sid: Seq<char>, k: Seq<char>) -> bool {
        exists|ident: Seq<char>|
            self.session_streams[sid].contains_key(ident) && #[trigger] self.session_streams[sid][ident].contains(k)
    }

    /// The hub after session `sid` leaves every stream it follows.
    pub open spec fn unsubscribe_all(self, sid: Seq<char>) -> Self {
        HubView {
            streams: without_session(self.streams, sid, |k: Seq<char>| self.listed_for(sid, k)),
            session_streams: self.session_streams.remove(sid),
            ..self
        }
    }

    /// Whether session `uid` can be removed with connection identifiers `identifiers`:
    /// a registered session must have subscribed to something and its identifiers must
    /// be known.
    pub open spec fn can_remove(self, uid: Seq<char>, identifiers: Seq<char>) -> bool {
        self.sessions.contains_key(uid) ==> self.session_streams.contains_key(uid)
            && self.identifiers.contains_key(identifiers)
    }

    /// The hub after removing session `uid`.
    pub open spec fn remove_session(self, uid: Seq<char>, identifiers: Seq<char>) -> Self {
        if !self.sessions.contains_key(uid) {
            self
        } else {
            let h = self.unsubscribe_all(uid);
            HubView {
                sessions: h.sessions.remove(uid),
                identifiers: h.identifiers.insert(identifiers, h.identifiers[identifiers].remove(uid)),
                ..h
            }
        }
    }

    /// The hub after one action, as `Hub::handle` carries it out; an action that the
    /// state cannot serve, a broadcast and a shutdown leave it as it was.
    pub open spec fn step(self, action: HubAction<S>) -> Self {
        match action {
            HubAction::Add { uid, identifiers, session } => self.add_session(uid@, identifiers@, session),
            HubAction::Remove { uid, identifiers } => if self.can_remove(uid@, identifiers@) {
                self.remove_session(uid@, identifiers@)
            } else {
                self
            },
            HubAction::Subscribe { session_id, stream, identifier } => self.subscribe(
                session_id@,
                stream@,
                identifier@,
            ),
            HubAction::Unsubscribe { session_id, identifier } => if self.can_unsubscribe(
                session_id@,
                identifier@,
            ) {
                self.unsubscribe(session_id@, identifier@)
            } else {
                self
            },
            HubAction::Broadcast { .. } => self,
            HubAction::Shutdown => self,
        }
    }

    /// Whether `outcome` is the hub's answer to `action` in this state: `Fault` for a
    /// removal or an unsubscription that the state cannot serve and for broadcast data
    /// that is not a JSON string, the deliveries of the stream (each session once) for
    /// any other broadcast, `Stop` for a shutdown and `Continue` otherwise.
    pub open spec fn answers(self, action: HubAction<S>, outcome: HubOutcome) -> bool {
        match action {
            HubAction::Remove { uid, identifiers } => if self.can_remove(uid@, identifiers@) {
                outcome is Continue
            } else {
                outcome is Fault
            },
            HubAction::Unsubscribe { session_id, identifier } => if self.can_unsubscribe(
                session_id@,
                identifier@,
            ) {
                outcome is Continue
            } else {
                outcome is Fault
            },
            HubAction::Broadcast { stream, data } => match json_string_contents(data@) {
                None => outcome is Fault,
                Some(text) => {
                    &&& outcome matches HubOutcome::Deliver { data: out_data, deliveries }
                    &&& out_data@ == text
                    &&& deliveries.deep_view().to_set() == self.deliveries(stream@)
                    &&& forall|a: int, b: int|
                        0 <= a < deliveries@.len() && 0 <= b < deliveries@.len() && a != b
                            ==> (#[trigger] deliveries@[a]).session_id@ != (#[trigger] deliveries@[b]).session_id@
                },
            },
            HubAction::Shutdown => outcome is Stop,
            _ => outcome is Continue,
        }
    }

    /// The hub after handling `actions` in order, up to the first shutdown.
    pub open spec fn run(self, actions: Seq<HubAction<S>>) -> Self
        decreases actions.len(),
    {
        if actions.len() == 0 {
            self
        } else if actions[0] is Shutdown {
            self
        } else {
            self.step(actions[0]).run(actions.drop_first())
        }
    }

    /// The (session, channel identifier) pairs to which a broadcast on `stream` goes:
    /// every registered session subscribed to the stream.
    pub open spec fn deliveries(self, stream: Seq<char>) -> Set<(Seq<char>, Seq<char>)> {
        Set::new(
            |p: (Seq<char>, Seq<char>)|
                self.streams.contains_key(stream) && self.streams[stream].contains_key(p.0)
                    && self.streams[stream][p.0] == p.1 && self.sessions.contains_key(p.0),
        )
    }
}

/// Drops session `sid` from every stream named in `names`.
fn drop_session_from(streams: &mut StrMap<StrMap<String>>, sid: &String, names: &Vec<String>)
    requires
        old(streams).wf(),
        nested_wf(old(streams)@),
        forall|i: int| 0 <= i < names@.len() ==> old(streams).deep_view().contains_key(#[trigger] names@[i]@),
    ensures
        final(streams).wf(),
        nested_wf(final(streams)@),
        final(streams).deep_view() == without_session(
            old(streams).deep_view(),
            sid@,
            |k: Seq<char>| names.deep_view().contains(k),
        ),
{
    let ghost orig = streams.deep_view();
    let ghost nv = names.deep_view();
    let mut i: usize = 0;
    proof {
        assert(streams.deep_view() =~= without_session(orig, sid@, |k: Seq<char>| nv.take(0).contains(k)));
    }
    while i < names.len()
        invariant
            i <= names@.len(),
            nv == names.deep_view(),
            streams.wf(),
            nested_wf(streams@),
            forall|j: int| 0 <= j < names@.len() ==> orig.contains_key(#[trigger] names@[j]@),
            streams.deep_view() == without_session(orig, sid@, |k: Seq<char>| nv.take(i as int).contains(k)),
        decreases names@.len() - i,
    {
        let ghost cur = streams.deep_view();
        let name = &names[i];
        assert(nv[i as int] == name@);
        let mut subscribers = take_inner(streams, name);
        let ghost s0 = subscribers;
        subscribers.remove(sid);
        proof {
            lemma_deep_remove(s0, subscribers, sid@);
        }
        put_inner(streams, name.clone(), subscribers);
        proof {
            let next = without_session(orig, sid@, |k: Seq<char>| nv.take(i + 1).contains(k));
            let before = nv.take(i as int);
            let after = nv.take(i + 1);
            assert(after =~= before.push(name@));
            assert forall|k: Seq<char>| #[trigger] after.contains(k) == (before.contains(k) || k == name@) by {
                if after.contains(k) {
                    let j = choose|j: int| 0 <= j < after.len() && after[j] == k;
                    if j < before.len() {
                        assert(before[j] == k);
                    }
                }
                if before.contains(k) {
                    let j = choose|j: int| 0 <= j < before.len() && before[j] == k;
                    assert(after[j] == k);
                }
                if k == name@ {
                    assert(after[before.len() as int] == k);
                }
            }
            assert(orig[name@].remove(sid@).remove(sid@) =~= orig[name@].remove(sid@));
            assert(streams.deep_view() =~= next);
        }
        i = i + 1;
    }
    proof {
        assert(nv.take(names@.len() as int) =~= nv);
    }
}

/// The registry of sessions and of their subscriptions to streams.
pub struct Hub<S> {
    sessions: StrMap<S>,
    identifiers: StrMap<StrMap<bool>>,
    streams: StrMap<StrMap<String>>,
    session_streams: StrMap<StrMap<Vec<String>>>,
}

impl<S> Hub<S> {
    /// The abstract state of the hub.
    pub closed spec fn view(&self) -> HubView<S> {
        HubView {
            sessions: self.sessions@,
            identifiers: self.identifiers.deep_view(),
            streams: self.streams.deep_view(),
            session_streams: self.session_streams.deep_view(),
        }
    }

    /// The internal invariant: no map holds a key twice and the abstract state is consistent.
    pub closed spec fn wf(&self) -> bool {
        &&& self.sessions.wf()
        &&& self.identifiers.wf()
        &&& self.streams.wf()
        &&& self.session_streams.wf()
        &&& nested_wf(self.identifiers@)
        &&& nested_wf(self.streams@)
        &&& nested_wf(self.session_streams@)
        &&& self.view().consistent()
    }

    /// A well-formed hub is consistent.
    pub proof fn lemma_consistent(&self)
        requires
            self.wf(),
        ensures
            self.view().consistent(),
    {
    }

    /// An empty hub.
    pub fn new() -> (h: Self)
        ensures
            h.wf(),
            h.view() == HubView::<S>::empty(),
    {
        let h = Hub {
            sessions: StrMap::new(),
            identifiers: StrMap::new(),
            streams: StrMap::new(),
            session_streams: StrMap::new(),
        };
        proof {
            crate::str_map::lemma_deep_empty(h.identifiers);
            crate::str_map::lemma_deep_empty(h.streams);
            crate::str_map::lemma_deep_empty(h.session_streams);
            assert(h.view() =~= HubView::<S>::empty());
        }
        h
    }

    /// Registers a session under its uid and records it under its connection identifiers.
    pub fn add_session(&mut self, uid: String, identifiers: String, session: S)
        requires
            old(self).wf(),
        ensures
            final(self).wf(),
            final(self).view() == old(self).view().add_session(uid@, identifiers@, session),
    {
        let ghost pre = self.view();
        let ghost uv = uid@;
        let ghost iv = identifiers@;
        self.sessions.insert(uid.clone(), session);
        let mut inner = take_inner(&mut self.identifiers, &identifiers);
        let ghost before = inner;
        inner.insert(uid, true);
        proof {
            lemma_deep_insert(before, inner, uv, true);
        }
        put_inner(&mut self.identifiers, identifiers, inner);
        proof {
            assert(self.view().identifiers =~= pre.add_session(uv, iv, session).identifiers);
            assert(self.view() =~= pre.add_session(uv, iv, session));
        }
    }

    /// Subscribes session `session_id` to `stream` for channel `identifier`.
    pub fn subscribe_session(&mut self, session_id: String, stream: String, identifier: String)
        requires
            old(self).wf(),
        ensures
            final(self).wf(),
            final(self).view() == old(self).view().subscribe(session_id@, stream@, identifier@),
    {
        let ghost pre = self.view();
        let ghost sv = session_id@;
        let ghost stv = stream@;
        let ghost iv = identifier@;
        let mut subscribers = take_inner(&mut self.streams, &stream);
        let ghost s0 = subscribers;
        subscribers.insert(session_id.clone(), identifier.clone());
        proof {
            lemma_deep_insert(s0, subscribers, sv, identifier);
        }
        put_inner(&mut self.streams, stream.clone(), subscribers);
        let mut per = take_inner(&mut self.session_streams, &session_id);
        let ghost p0 = per;
        let taken = per.remove(&identifier);
        let ghost p1 = per;
        proof {
            lemma_deep_remove(p0, p1, iv);
        }
        let mut list = match taken {
            Some(l) => l,
            None => Vec::new(),
        };
        let ghost l0 = list;
        list.push(stream);
        proof {
            assert(list.deep_view() =~= l0.deep_view().push(stv));
            assert(l0.deep_view() =~= list_of(inner_of(pre.session_streams, sv), iv));
        }
        let ghost lv = list;
        per.insert(identifier, list);
        proof {
            lemma_deep_insert(p1, per, iv, lv);
        }
        put_inner(&mut self.session_streams, session_id, per);
        proof {
            let post = pre.subscribe(sv, stv, iv);
            assert(self.view().streams =~= post.streams);
            assert(inner_of(pre.session_streams, sv).insert(iv, lv.deep_view()) =~= per.deep_view());
            assert(self.view().session_streams =~= post.session_streams);
            assert(self.view() =~= post);
            lemma_operations_keep_consistency(pre, sv, stv, iv, sv, self.view().sessions[sv]);
        }
    }

    /// Session `session_id` stops the streams it follows for channel `identifier`;
    /// nothing happens for a session that never subscribed.
    pub fn unsubscribe_from_channel(&mut self, session_id: &String, identifier: &String)
        requires
            old(self).wf(),
            old(self).view().can_unsubscribe(session_id@, identifier@),
        ensures
            final(self).wf(),
            final(self).view() == old(self).view().unsubscribe(session_id@, identifier@),
    {
        let ghost pre = self.view();
        match self.session_streams.get(session_id) {
            None => {},
            Some(per) => {
                match per.get(identifier) {
                    None => {},
                    Some(names) => {
                        proof {
                            assert(names.deep_view() == pre.session_streams[session_id@][identifier@]);
                            assert forall|i: int| 0 <= i < names@.len() implies pre.streams.contains_key(
                                #[trigger] names@[i]@,
                            ) by {
                                assert(names.deep_view()[i] == names@[i]@);
                            }
                        }
                        drop_session_from(&mut self.streams, session_id, names);
                    },
                }
            },
        }
        proof {
            assert(self.view() =~= pre.unsubscribe(session_id@, identifier@));
        }
    }

    /// Session `session_id` leaves every stream it follows and its subscription record
    /// is dropped.
    pub fn unsubscribe_from_channels(&mut self, session_id: &String)
        requires
            old(self).wf(),
            old(self).view().session_streams.contains_key(session_id@),
        ensures
            final(self).wf(),
            final(self).view() == old(self).view().unsubscribe_all(session_id@),
    {
        let ghost pre = self.view();
        let ghost pre_hub = *self;
        let ghost sv = session_id@;
        match self.session_streams.get(session_id) {
            None => {},
            Some(per) => {
                let ghost pv = per.deep_view();
                proof {
                    per.lemma_keys();
                }
                let mut j: usize = 0;
                proof {
                    assert(self.streams.deep_view() =~= without_session(
                        pre.streams,
                        sv,
                        |k: Seq<char>| exists|t: int| 0 <= t < 0 && #[trigger] pv[per.keys()[t]].contains(k),
                    ));
                }
                while j < per.len()
                    invariant
                        j <= per.keys().len(),
                        per.wf(),
                        sv == session_id@,
                        pv == per.deep_view(),
                        pv == pre.session_streams[sv],
                        per.keys().to_set() == per@.dom(),
                        forall|i: int| 0 <= i < per.keys().len() ==> per@.contains_key(#[trigger] per.keys()[i]),
                        pre.consistent(),
                        pre.session_streams.contains_key(sv),
                        self.sessions == pre_hub.sessions,
                        self.identifiers == pre_hub.identifiers,
                        self.session_streams == pre_hub.session_streams,
                        self.view().session_streams == pre.session_streams,
                        self.streams.wf(),
                        nested_wf(self.streams@),
                        self.streams.deep_view() == without_session(
                            pre.streams,
                            sv,
                            |k: Seq<char>| exists|t: int| 0 <= t < j && #[trigger] pv[per.keys()[t]].contains(k),
                        ),
                    decreases per.keys().len() - j,
                {
                    let ghost cur = self.streams.deep_view();
                    let ghost ident = per.keys()[j as int];
                    let names = per.value_at(j);
                    proof {
                        assert(names.deep_view() == pv[ident]);
                        assert forall|i: int| 0 <= i < names@.len() implies cur.contains_key(
                            #[trigger] names@[i]@,
                        ) by {
                            assert(names.deep_view()[i] == names@[i]@);
                            assert(pre.session_streams[sv][ident][i] == names@[i]@);
                        }
                    }
                    drop_session_from(&mut self.streams, session_id, names);
                    proof {
                        let next = without_session(
                            pre.streams,
                            sv,
                            |k: Seq<char>| exists|t: int| 0 <= t < j + 1 && #[trigger] pv[per.keys()[t]].contains(k),
                        );
                        assert forall|k: Seq<char>| #[trigger] next.contains_key(k) implies self.streams.deep_view()[k]
                            == next[k] by {
                            let was = exists|t: int| 0 <= t < j && #[trigger] pv[per.keys()[t]].contains(k);
                            let now = exists|t: int| 0 <= t < j + 1 && #[trigger] pv[per.keys()[t]].contains(k);
                            assert(cur.contains_key(k));
                            if names.deep_view().contains(k) {
                                assert(pv[per.keys()[j as int]].contains(k));
                                if was {
                                    assert(cur[k].remove(sv) =~= pre.streams[k].remove(sv));
                                }
                            } else {
                                if now {
                                    let t = choose|t: int| 0 <= t < j + 1 && #[trigger] pv[per.keys()[t]].contains(k);
                                    assert(t != j);
                                }
                            }
                        }
                        assert(self.streams.deep_view().dom() =~= next.dom());
                        assert(self.streams.deep_view() =~= next);
                    }
                    j = j + 1;
                }
                proof {
                    assert forall|k: Seq<char>| #[trigger] pre.listed_for(sv, k) == (exists|t: int|
                        0 <= t < per.keys().len() && #[trigger] pv[per.keys()[t]].contains(k)) by {
                        if pre.listed_for(sv, k) {
                            let ident = choose|ident: Seq<char>|
                                pre.session_streams[sv].contains_key(ident)
                                    && #[trigger] pre.session_streams[sv][ident].contains(k);
                            assert(per.keys().to_set().contains(ident));
                            let t = choose|t: int| 0 <= t < per.keys().len() && per.keys()[t] == ident;
                            assert(pv[per.keys()[t]].contains(k));
                        }
                        if exists|t: int| 0 <= t < per.keys().len() && #[trigger] pv[per.keys()[t]].contains(k) {
                            let t = choose|t: int| 0 <= t < per.keys().len() && #[trigger] pv[per.keys()[t]].contains(k);
                            assert(pre.session_streams[sv].contains_key(per.keys()[t]));
                            assert(pre.session_streams[sv][per.keys()[t]].contains(k));
                        }
                    }
                    assert(self.streams.deep_view() =~= pre.unsubscribe_all(sv).streams);
                }
            },
        }
        let ghost mid = self.session_streams;
        self.session_streams.remove(session_id);
        proof {
            lemma_deep_remove(mid, self.session_streams, sv);
            assert(self.view() =~= pre.unsubscribe_all(sv));
        }
    }

    /// Removes a registered session: it leaves every stream it follows, and its uid is
    /// dropped from the sessions and from the uids recorded under `identifiers`.
    /// Nothing happens for a uid that is not registered.
    pub fn remove_session(&mut self, uid: &String, identifiers: &String)
        requires
            old(self).wf(),
            old(self).view().can_remove(uid@, identifiers@),
        ensures
            final(self).wf(),
            final(self).view() == old(self).view().remove_session(uid@, identifiers@),
    {
        let ghost pre = self.view();
        if !self.sessions.contains_key(uid) {
            return;
        }
        self.unsubscribe_from_channels(uid);
        let ghost mid = self.view();
        self.sessions.remove(uid);
        let mut inner = take_inner(&mut self.identifiers, identifiers);
        let ghost before = inner;
        inner.remove(uid);
        proof {
            lemma_deep_remove(before, inner, uid@);
        }
        put_inner(&mut self.identifiers, identifiers.clone(), inner);
        proof {
            assert(self.view().identifiers =~= pre.remove_session(uid@, identifiers@).identifiers);
            assert(self.view() =~= pre.remove_session(uid@, identifiers@));
        }
    }
    /// The sessions to which a broadcast on `stream` goes: every registered session
    /// subscribed to the stream, each once, with the channel identifier it subscribed under.
    pub fn broadcast(&self, stream: &String) -> (out: Vec<Delivery>)
        requires
            self.wf(),
        ensures
            out.deep_view().to_set() == self.view().deliveries(stream@),
            forall|a: int, b: int|
                0 <= a < out@.len() && 0 <= b < out@.len() && a != b ==> (#[trigger] out@[a]).session_id@
                    != (#[trigger] out@[b]).session_id@,
    {
        let ghost hv = self.view();
        let mut out: Vec<Delivery> = Vec::new();
        match self.streams.get(stream) {
            None => {
                proof {
                    assert(out.deep_view().to_set() =~= hv.deliveries(stream@));
                }
            },
            Some(subscribers) => {
                let ghost sv = subscribers.deep_view();
                proof {
                    subscribers.lemma_keys();
                }
                let mut i: usize = 0;
                while i < subscribers.len()
                    invariant
                        i <= subscribers.keys().len(),
                        subscribers.wf(),
                        self.sessions.wf(),
                        sv == subscribers.deep_view(),
                        hv == self.view(),
                        hv.streams.contains_key(stream@),
                        sv == hv.streams[stream@],
                        subscribers.keys().no_duplicates(),
                        subscribers.keys().to_set() == subscribers@.dom(),
                        forall|p: (Seq<char>, Seq<char>)| out.deep_view().contains(p) <==> (exists|t: int|
                            0 <= t < i && #[trigger] subscribers.keys()[t] == p.0 && sv[p.0] == p.1
                                && hv.sessions.contains_key(p.0)),
                        forall|a: int| 0 <= a < out@.len() ==> exists|t: int|
                            0 <= t < i && #[trigger] subscribers.keys()[t] == (#[trigger] out@[a]).session_id@,
                        forall|a: int, b: int|
                            0 <= a < out@.len() && 0 <= b < out@.len() && a != b ==> (#[trigger] out@[a]).session_id@
                                != (#[trigger] out@[b]).session_id@,
                    decreases subscribers.keys().len() - i,
                {
                    let sid = subscribers.key_at(i);
                    let ghost old_out = out.deep_view();
                    let ghost old_vec = out@;
                    if self.sessions.contains_key(sid) {
                        let identifier = subscribers.value_at(i);
                        let d = Delivery { session_id: sid.clone(), identifier: identifier.clone() };
                        out.push(d);
                        proof {
                            assert(out.deep_view() =~= old_out.push((sid@, identifier@)));
                            assert(identifier@ == sv[sid@]);
                            assert forall|a: int| 0 <= a < out@.len() implies exists|t: int|
                                0 <= t < i + 1 && #[trigger] subscribers.keys()[t] == (#[trigger] out@[a]).session_id@ by {
                                if a < old_vec.len() {
                                    assert(out@[a] == old_vec[a]);
                                    let t = choose|t: int| 0 <= t < i && #[trigger] subscribers.keys()[t] == old_vec[a].session_id@;
                                    assert(subscribers.keys()[t] == out@[a].session_id@);
                                } else {
                                    assert(subscribers.keys()[i as int] == out@[a].session_id@);
                                }
                            }
                            assert forall|a: int, b: int|
                                0 <= a < out@.len() && 0 <= b < out@.len() && a != b implies (#[trigger] out@[a]).session_id@
                                    != (#[trigger] out@[b]).session_id@ by {
                                if a < old_vec.len() && b < old_vec.len() {
                                    assert(out@[a] == old_vec[a]);
                                    assert(out@[b] == old_vec[b]);
                                } else if a < old_vec.len() {
                                    assert(out@[a] == old_vec[a]);
                                    let t = choose|t: int| 0 <= t < i && #[trigger] subscribers.keys()[t] == old_vec[a].session_id@;
                                    assert(subscribers.keys()[t] != subscribers.keys()[i as int]);
                                } else if b < old_vec.len() {
                                    assert(out@[b] == old_vec[b]);
                                    let t = choose|t: int| 0 <= t < i && #[trigger] subscribers.keys()[t] == old_vec[b].session_id@;
                                    assert(subscribers.keys()[t] != subscribers.keys()[i as int]);
                                }
                            }
                            assert forall|p: (Seq<char>, Seq<char>)| out.deep_view().contains(p) <==> (exists|t: int|
                                0 <= t < i + 1 && #[trigger] subscribers.keys()[t] == p.0 && sv[p.0] == p.1
                                    && hv.sessions.contains_key(p.0)) by {
                                if out.deep_view().contains(p) {
                                    let a = choose|a: int| 0 <= a < out.deep_view().len() && out.deep_view()[a] == p;
                                    if a < old_out.len() {
                                        assert(old_out[a] == p);
                                        assert(old_out.contains(p));
                                    } else {
                                        assert(subscribers.keys()[i as int] == p.0);
                                    }
                                }
                                if exists|t: int| 0 <= t < i + 1 && #[trigger] subscribers.keys()[t] == p.0 && sv[p.0] == p.1
                                    && hv.sessions.contains_key(p.0) {
                                    let t = choose|t: int| 0 <= t < i + 1 && #[trigger] subscribers.keys()[t] == p.0 && sv[p.0] == p.1
                                        && hv.sessions.contains_key(p.0);
                                    if t < i {
                                        assert(old_out.contains(p));
                                        let a = choose|a: int| 0 <= a < old_out.len() && old_out[a] == p;
                                        assert(out.deep_view()[a] == p);
                                    } else {
                                        assert(out.deep_view()[old_out.len() as int] == p);
                                    }
                                }
                            }
                        }
                    } else {
                        proof {
                            assert forall|p: (Seq<char>, Seq<char>)| out.deep_view().contains(p) <==> (exists|t: int|
                                0 <= t < i + 1 && #[trigger] subscribers.keys()[t] == p.0 && sv[p.0] == p.1
                                    && hv.sessions.contains_key(p.0)) by {
                                if exists|t: int| 0 <= t < i + 1 && #[trigger] subscribers.keys()[t] == p.0 && sv[p.0] == p.1
                                    && hv.sessions.contains_key(p.0) {
                                    let t = choose|t: int| 0 <= t < i + 1 && #[trigger] subscribers.keys()[t] == p.0 && sv[p.0] == p.1
                                        && hv.sessions.contains_key(p.0);
                                    assert(t != i);
                                }
                            }
                        }
                    }
                    i = i + 1;
                }
                proof {
                    assert forall|p: (Seq<char>, Seq<char>)| out.deep_view().to_set().contains(p) == hv.deliveries(stream@).contains(p) by {
                        if hv.deliveries(stream@).contains(p) {
                            assert(subscribers.keys().to_set().contains(p.0));
                            let t = choose|t: int| 0 <= t < subscribers.keys().len() && subscribers.keys()[t] == p.0;
                            assert(subscribers.keys()[t] == p.0);
                        }
                    }
                    assert(out.deep_view().to_set() =~= hv.deliveries(stream@));
                }
            },
        }
        out
    }
    /// The handle of the session registered under `uid`, if any.
    pub fn session(&self, uid: &String) -> (r: Option<&S>)
        requires
            self.wf(),
        ensures
            match r {
                Some(s) => self.view().sessions.contains_key(uid@) && *s == self.view().sessions[uid@],
                None => !self.view().sessions.contains_key(uid@),
            },
    {
        self.sessions.get(uid)
    }

    /// Carries out one action and says what its driver has to do next.
    ///
    /// A removal or an unsubscription that the state cannot carry out, and a broadcast
    /// whose data is not a JSON string, leave the hub unchanged and answer `Fault`.
    pub fn handle(&mut self, action: HubAction<S>) -> (outcome: HubOutcome)
        requires
            old(self).wf(),
        ensures
            final(self).wf(),
            final(self).view() == old(self).view().step(action),
            old(self).view().answers(action, outcome),
    {
        match action {
            HubAction::Add { uid, identifiers, session } => {
                self.add_session(uid, identifiers, session);
                HubOutcome::Continue
            },
            HubAction::Remove { uid, identifiers } => {
                if self.sessions.contains_key(&uid) && (!self.session_streams.contains_key(&uid)
                    || !self.identifiers.contains_key(&identifiers)) {
                    HubOutcome::Fault
                } else {
                    self.remove_session(&uid, &identifiers);
                    HubOutcome::Continue
                }
            },
            HubAction::Subscribe { session_id, stream, identifier } => {
                self.subscribe_session(session_id, stream, identifier);
                HubOutcome::Continue
            },
            HubAction::Unsubscribe { session_id, identifier } => {
                let allowed = match self.session_streams.get(&session_id) {
                    None => true,
                    Some(per) => per.contains_key(&identifier),
                };
                if allowed {
                    self.unsubscribe_from_channel(&session_id, &identifier);
                    HubOutcome::Continue
                } else {
                    HubOutcome::Fault
                }
            },
            HubAction::Broadcast { stream, data } => {
                match json_as_string(data.as_str()) {
                    None => HubOutcome::Fault,
                    Some(text) => {
                        let deliveries = self.broadcast(&stream);
                        HubOutcome::Deliver { data: text, deliveries }
                    },
                }
            },
            HubAction::Shutdown => HubOutcome::Stop,
        }
    }

    /// Handles `actions` in order, as the hub's event loop does, up to and including
    /// the first shutdown, and returns the answer to each action handled: each action
    /// is answered in the state that the actions before it left.
    pub fn handle_all(&mut self, actions: Vec<HubAction<S>>) -> (outcomes: Vec<HubOutcome>)
        requires
            old(self).wf(),
        ensures
            final(self).wf(),
            final(self).view() == old(self).view().run(actions@),
            outcomes@.len() <= actions@.len(),
            forall|j: int| 0 <= j < outcomes@.len() - 1 ==> !(#[trigger] actions@[j] is Shutdown),
            outcomes@.len() == actions@.len() || (outcomes@.len() > 0 && actions@[outcomes@.len() - 1] is Shutdown),
            forall|j: int|
                0 <= j < outcomes@.len() ==> old(self).view().run(actions@.take(j)).answers(
                    actions@[j],
                    #[trigger] outcomes@[j],
                ),
    {
        let ghost acts = actions@;
        let ghost h0 = self.view();
        let n = actions.len();
        let mut rest = actions;
        let mut outcomes: Vec<HubOutcome> = Vec::new();
        let mut i: usize = 0;
        proof {
            assert(acts.take(0) =~= Seq::<HubAction<S>>::empty());
            assert(acts.skip(0) =~= acts);
        }
        while rest.len() > 0
            invariant
                self.wf(),
                h0 == old(self).view(),
                acts == actions@,
                n == acts.len(),
                i <= acts.len(),
                rest@ == acts.skip(i as int),
                outcomes@.len() == i,
                forall|j: int| 0 <= j < i ==> !(#[trigger] acts[j] is Shutdown),
                self.view() == h0.run(acts.take(i as int)),
                forall|j: int|
                    0 <= j < i ==> h0.run(acts.take(j)).answers(acts[j], #[trigger] outcomes@[j]),
            decreases rest@.len(),
        {
            let action = rest.remove(0);
            let ghost ga = action;
            proof {
                assert(i < acts.len());
                assert(ga == acts[i as int]);
                assert(rest@ =~= acts.skip(i + 1));
            }
            let stop = match &action {
                HubAction::Shutdown => true,
                _ => false,
            };
            let ghost before = self.view();
            let outcome = self.handle(action);
            outcomes.push(outcome);
            if stop {
                proof {
                    lemma_run_split(h0, acts, i as int);
                    assert(acts.skip(i as int).len() > 0);
                    assert(acts.skip(i as int)[0] == ga);
                    assert(h0.run(acts.take(i as int)).run(acts.skip(i as int)) == h0.run(acts.take(i as int)));
                    assert(self.view() == before);
                    assert(outcomes@[i as int] == outcome);
                }
                return outcomes;
            }
            proof {
                assert(acts.take(i + 1) =~= acts.take(i as int).push(ga));
                lemma_run_then_step(h0, acts.take(i as int), ga);
                assert forall|j: int| 0 <= j < i + 1 implies !(#[trigger] acts[j] is Shutdown) by {
                    if j < i {
                    } else {
                        assert(acts[j] == ga);
                    }
                }
            }
            i = i + 1;
        }
        proof {
            assert(acts.take(i as int) =~= acts);
        }
        outcomes
    }
}

/// Every operation of the hub keeps it consistent: a stream that a session lists stays
/// a known stream, and every subscription stays listed under its channel identifier.
pub proof fn lemma_operations_keep_consistency<S>(
    h: HubView<S>,
    sid: Seq<char>,
    stream: Seq<char>,
    ident: Seq<char>,
    identifiers: Seq<char>,
    session: S,
)
    requires
        h.consistent(),
    ensures
        h.add_session(sid, identifiers, session).consistent(),
        h.subscribe(sid, stream, ident).consistent(),
        h.can_unsubscribe(sid, ident) ==> h.unsubscribe(sid, ident).consistent(),
        h.session_streams.contains_key(sid) ==> h.unsubscribe_all(sid).consistent(),
        h.can_remove(sid, identifiers) ==> h.remove_session(sid, identifiers).consistent(),
{
    let a = h.add_session(sid, identifiers, session);
    assert(a.streams == h.streams && a.session_streams == h.session_streams);
    let s = h.subscribe(sid, stream, ident);
    let old_list = list_of(inner_of(h.session_streams, sid), ident);
    assert(s.session_streams[sid][ident] == old_list.push(stream));
    assert forall|x: Seq<char>, y: Seq<char>, i: int|
        s.session_streams.contains_key(x) && s.session_streams[x].contains_key(y) && 0 <= i
            < s.session_streams[x][y].len() implies s.streams.contains_key(#[trigger] s.session_streams[x][y][i]) by {
        if x == sid && y == ident {
            if i < old_list.len() {
                assert(h.session_streams[x][y][i] == s.session_streams[x][y][i]);
            }
        } else {
            assert(h.session_streams[x][y][i] == s.session_streams[x][y][i]);
        }
    }
    assert forall|st: Seq<char>, u: Seq<char>|
        s.streams.contains_key(st) && #[trigger] s.streams[st].contains_key(u) implies {
            &&& s.session_streams.contains_key(u)
            &&& s.session_streams[u].contains_key(s.streams[st][u])
            &&& s.session_streams[u][s.streams[st][u]].contains(st)
        } by {
        if st == stream && u == sid {
            assert(s.session_streams[sid][ident][old_list.len() as int] == stream);
        } else {
            assert(h.streams.contains_key(st) && h.streams[st].contains_key(u));
            assert(s.streams[st][u] == h.streams[st][u]);
            let i = h.streams[st][u];
            let l = h.session_streams[u][i];
            let j = choose|j: int| 0 <= j < l.len() && l[j] == st;
            if u == sid && i == ident {
                assert(old_list == l);
                assert(s.session_streams[u][i][j] == st);
            } else {
                assert(s.session_streams[u][i] == l);
            }
        }
    }
    if h.can_unsubscribe(sid, ident) && h.session_streams.contains_key(sid) {
        let n = h.unsubscribe(sid, ident);
        assert(n.session_streams == h.session_streams);
        assert forall|st: Seq<char>, u: Seq<char>|
            n.streams.contains_key(st) && #[trigger] n.streams[st].contains_key(u) implies {
                &&& n.session_streams.contains_key(u)
                &&& n.session_streams[u].contains_key(n.streams[st][u])
                &&& n.session_streams[u][n.streams[st][u]].contains(st)
            } by {
            assert(h.streams[st].contains_key(u));
            assert(n.streams[st][u] == h.streams[st][u]);
        }
    }
    if h.session_streams.contains_key(sid) {
        let n = h.unsubscribe_all(sid);
        assert forall|x: Seq<char>, y: Seq<char>, i: int|
            n.session_streams.contains_key(x) && n.session_streams[x].contains_key(y) && 0 <= i
                < n.session_streams[x][y].len() implies n.streams.contains_key(#[trigger] n.session_streams[x][y][i]) by {
            assert(h.session_streams[x][y][i] == n.session_streams[x][y][i]);
        }
        assert forall|st: Seq<char>, u: Seq<char>|
            n.streams.contains_key(st) && #[trigger] n.streams[st].contains_key(u) implies {
                &&& n.session_streams.contains_key(u)
                &&& n.session_streams[u].contains_key(n.streams[st][u])
                &&& n.session_streams[u][n.streams[st][u]].contains(st)
            } by {
            assert(h.streams[st].contains_key(u));
            if u == sid {
                let i = h.streams[st][sid];
                assert(h.session_streams[sid][i].contains(st));
                assert(h.listed_for(sid, st));
                assert(!n.streams[st].contains_key(u));
            } else {
                assert(n.streams[st][u] == h.streams[st][u]);
            }
        }
    }
    if h.can_remove(sid, identifiers) && h.sessions.contains_key(sid) {
        let u = h.unsubscribe_all(sid);
        let r = h.remove_session(sid, identifiers);
        assert(r.streams == u.streams && r.session_streams == u.session_streams);
    }
}

/// After a registered session subscribes to a stream, a broadcast on that stream
/// reaches it under the channel identifier it subscribed with.
pub proof fn lemma_subscribe_then_broadcast<S>(h: HubView<S>, sid: Seq<char>, stream: Seq<char>, ident: Seq<char>)
    requires
        h.sessions.contains_key(sid),
    ensures
        h.subscribe(sid, stream, ident).deliveries(stream).contains((sid, ident)),
{
}

/// Subscribing to one stream leaves the broadcasts on every other stream as they were.
pub proof fn lemma_subscribe_leaves_other_streams<S>(
    h: HubView<S>,
    sid: Seq<char>,
    stream: Seq<char>,
    ident: Seq<char>,
    other: Seq<char>,
)
    requires
        other != stream,
    ensures
        h.subscribe(sid, stream, ident).deliveries(other) == h.deliveries(other),
{
    assert(h.subscribe(sid, stream, ident).deliveries(other) =~= h.deliveries(other));
}

/// After a session unsubscribes a channel identifier, no broadcast on a stream it had
/// subscribed to for that identifier reaches it, and every other session is reached as
/// before.
pub proof fn lemma_unsubscribe_then_broadcast<S>(
    h: HubView<S>,
    sid: Seq<char>,
    ident: Seq<char>,
    stream: Seq<char>,
    p: (Seq<char>, Seq<char>),
)
    requires
        h.session_streams.contains_key(sid),
        h.session_streams[sid].contains_key(ident),
        h.session_streams[sid][ident].contains(stream),
    ensures
        h.unsubscribe(sid, ident).deliveries(stream).contains(p) ==> p.0 != sid,
        p.0 != sid ==> (h.unsubscribe(sid, ident).deliveries(stream).contains(p) == h.deliveries(stream).contains(p)),
{
}

/// After a session is removed, no broadcast on any stream reaches it, and it is no
/// longer registered nor subscribed to anything.
pub proof fn lemma_remove_then_broadcast<S>(
    h: HubView<S>,
    uid: Seq<char>,
    identifiers: Seq<char>,
    stream: Seq<char>,
    p: (Seq<char>, Seq<char>),
)
    requires
        h.can_remove(uid, identifiers),
    ensures
        !h.remove_session(uid, identifiers).sessions.contains_key(uid),
        h.sessions.contains_key(uid) ==> !h.remove_session(uid, identifiers).session_streams.contains_key(uid),
        h.remove_session(uid, identifiers).deliveries(stream).contains(p) ==> p.0 != uid,
{
}

/// A broadcast on a stream that nobody subscribed to reaches nobody.
pub proof fn lemma_broadcast_unknown_stream<S>(h: HubView<S>, stream: Seq<char>)
    requires
        !h.streams.contains_key(stream),
    ensures
        h.deliveries(stream) == Set::<(Seq<char>, Seq<char>)>::empty(),
{
    assert(h.deliveries(stream) =~= Set::<(Seq<char>, Seq<char>)>::empty());
}

/// A broadcast reaches only registered sessions.
pub proof fn lemma_broadcast_reaches_registered<S>(h: HubView<S>, stream: Seq<char>, p: (Seq<char>, Seq<char>))
    requires
        h.deliveries(stream).contains(p),
    ensures
        h.sessions.contains_key(p.0),
{
}

/// Unsubscribing a channel right after subscribing a session to a stream under it puts
/// the broadcasts on that stream back as they were, where the session did not follow
/// the stream before.
pub proof fn lemma_subscribe_then_unsubscribe<S>(h: HubView<S>, sid: Seq<char>, stream: Seq<char>, ident: Seq<char>)
    requires
        !(h.streams.contains_key(stream) && h.streams[stream].contains_key(sid)),
    ensures
        h.subscribe(sid, stream, ident).unsubscribe(sid, ident).deliveries(stream) == h.deliveries(stream),
{
    let s = h.subscribe(sid, stream, ident);
    let u = s.unsubscribe(sid, ident);
    assert(s.session_streams[sid][ident].contains(stream)) by {
        let l = list_of(inner_of(h.session_streams, sid), ident);
        assert(s.session_streams[sid][ident] == l.push(stream));
        assert(l.push(stream)[l.len() as int] == stream);
    }
    assert(u.streams[stream] =~= inner_of(h.streams, stream));
    assert(u.deliveries(stream) =~= h.deliveries(stream));
}

/// Handling one more action after a run without shutdown is handling that action in
/// the state the run reached.
pub proof fn lemma_run_then_step<S>(h: HubView<S>, actions: Seq<HubAction<S>>, a: HubAction<S>)
    requires
        forall|i: int| 0 <= i < actions.len() ==> !(#[trigger] actions[i] is Shutdown),
    ensures
        h.run(actions.push(a)) == h.run(actions).step(a),
    decreases actions.len(),
{
    if actions.len() == 0 {
        assert(actions.push(a).drop_first() =~= Seq::<HubAction<S>>::empty());
        assert(h.step(a).run(Seq::<HubAction<S>>::empty()) == h.step(a));
    } else {
        let rest = actions.drop_first();
        assert(actions.push(a).drop_first() =~= rest.push(a));
        assert(actions.push(a)[0] == actions[0]);
        assert forall|i: int| 0 <= i < rest.len() implies !(#[trigger] rest[i] is Shutdown) by {
            assert(rest[i] == actions[i + 1]);
        }
        lemma_run_then_step(h.step(actions[0]), rest, a);
    }
}

/// Every run of actions keeps the hub consistent.
pub proof fn lemma_run_keeps_consistency<S>(h: HubView<S>, actions: Seq<HubAction<S>>)
    requires
        h.consistent(),
    ensures
        h.run(actions).consistent(),
    decreases actions.len(),
{
    if actions.len() > 0 && !(actions[0] is Shutdown) {
        let a = actions[0];
        match a {
            HubAction::Add { uid, identifiers, session } => {
                lemma_operations_keep_consistency(h, uid@, uid@, uid@, identifiers@, session);
            },
            HubAction::Remove { uid, identifiers } => {
                lemma_operations_keep_consistency(h, uid@, uid@, uid@, identifiers@, arbitrary());
            },
            HubAction::Subscribe { session_id, stream, identifier } => {
                lemma_operations_keep_consistency(h, session_id@, stream@, identifier@, stream@, arbitrary());
            },
            HubAction::Unsubscribe { session_id, identifier } => {
                lemma_operations_keep_consistency(h, session_id@, identifier@, identifier@, identifier@, arbitrary());
            },
            _ => {},
        }
        lemma_run_keeps_consistency(h.step(a), actions.drop_first());
    }
}

/// On a fresh hub, a session that registers and subscribes to a stream is the one and
/// only receiver of a broadcast on it, under the channel identifier it subscribed with.
pub proof fn lemma_fresh_hub_single_subscriber<S>(
    uid: Seq<char>,
    identifiers: Seq<char>,
    session: S,
    stream: Seq<char>,
    ident: Seq<char>,
)
    ensures
        HubView::<S>::empty().add_session(uid, identifiers, session).subscribe(uid, stream, ident).deliveries(
            stream,
        ) == set![(uid, ident)],
{
    let h = HubView::<S>::empty().add_session(uid, identifiers, session).subscribe(uid, stream, ident);
    assert(h.streams[stream] =~= Map::<Seq<char>, Seq<char>>::empty().insert(uid, ident));
    assert(h.deliveries(stream) =~= set![(uid, ident)]);
}

/// On a fresh hub, a session that registers, subscribes to a stream and unsubscribes
/// that channel receives nothing on the stream, and neither does anyone else.
pub proof fn lemma_fresh_hub_unsubscribed<S>(
    uid: Seq<char>,
    identifiers: Seq<char>,
    session: S,
    stream: Seq<char>,
    ident: Seq<char>,
)
    ensures
        HubView::<S>::empty().add_session(uid, identifiers, session).subscribe(uid, stream, ident).unsubscribe(
            uid,
            ident,
        ).deliveries(stream) == Set::<(Seq<char>, Seq<char>)>::empty(),
{
    let h = HubView::<S>::empty().add_session(uid, identifiers, session);
    lemma_subscribe_then_unsubscribe(h, uid, stream, ident);
    lemma_broadcast_unknown_stream(h, stream);
}

/// A run splits at any point before the first shutdown: handling `actions` is handling
/// their first `i` and then the rest.
pub proof fn lemma_run_split<S>(h: HubView<S>, actions: Seq<HubAction<S>>, i: int)
    requires
        0 <= i <= actions.len(),
        forall|j: int| 0 <= j < i ==> !(#[trigger] actions[j] is Shutdown),
    ensures
        h.run(actions) == h.run(actions.take(i)).run(actions.skip(i)),
    decreases i,
{
    if i == 0 {
        assert(actions.take(0) =~= Seq::<HubAction<S>>::empty());
        assert(actions.skip(0) =~= actions);
    } else {
        let rest = actions.drop_first();
        assert forall|j: int| 0 <= j < i - 1 implies !(#[trigger] rest[j] is Shutdown) by {
            assert(rest[j] == actions[j + 1]);
        }
        assert(!(actions[0] is Shutdown));
        lemma_run_split(h.step(actions[0]), rest, i - 1);
        assert(actions.take(i).drop_first() =~= rest.take(i - 1));
        assert(actions.take(i)[0] == actions[0]);
        assert(actions.skip(i) =~= rest.skip(i - 1));
    }
}

/// Removing a session keeps every identifiers record: only the removed uid leaves the
/// record it was removed with, every other record is as it was, and no record goes away.
pub proof fn lemma_remove_keeps_identifier_records<S>(
    h: HubView<S>,
    uid: Seq<char>,
    identifiers: Seq<char>,
    other: Seq<char>,
)
    requires
        h.can_remove(uid, identifiers),
        h.sessions.contains_key(uid),
    ensures
        h.remove_session(uid, identifiers).identifiers.contains_key(other) == h.identifiers.contains_key(other),
        h.remove_session(uid, identifiers).identifiers[identifiers] == h.identifiers[identifiers].remove(uid),
        other != identifiers && h.identifiers.contains_key(other) ==> h.remove_session(uid, identifiers).identifiers[other]
            == h.identifiers[other],
{
}

/// Removing one session leaves every other session as it was: still registered, still
/// removable with the identifiers it could be removed with, and reached by the same
/// broadcasts.
pub proof fn lemma_remove_leaves_others<S>(
    h: HubView<S>,
    uid: Seq<char>,
    identifiers: Seq<char>,
    other: Seq<char>,
    other_identifiers: Seq<char>,
    stream: Seq<char>,
    p: (Seq<char>, Seq<char>),
)
    requires
        h.consistent(),
        h.can_remove(uid, identifiers),
        other != uid,
    ensures
        h.remove_session(uid, identifiers).sessions.contains_key(other) == h.sessions.contains_key(other),
        h.can_remove(other, other_identifiers) ==> h.remove_session(uid, identifiers).can_remove(
            other,
            other_identifiers,
        ),
        p.0 != uid ==> (h.remove_session(uid, identifiers).deliveries(stream).contains(p) == h.deliveries(
            stream,
        ).contains(p)),
{
    if h.sessions.contains_key(uid) {
        let r = h.remove_session(uid, identifiers);
        if p.0 != uid {
            if h.streams.contains_key(stream) && h.streams[stream].contains_key(p.0) {
                assert(r.streams[stream].contains_key(p.0));
                assert(r.streams[stream][p.0] == h.streams[stream][p.0]);
            }
        }
    }
}

} // verus!
