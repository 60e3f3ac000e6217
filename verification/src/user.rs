//! The websocket server's connected users and their requests.

use vstd::prelude::*;
use vstd::string::StringExecFns;

use crate::random_id::random_id;
use crate::subscription_manager::copy_names;
use crate::subscription_manager::find_entry;
use crate::subscription_manager::without_name;
use crate::subscription_manager::SubscriptionManager;

verus! {

/// Work for the server on the message bus: subscribe to a channel, or
/// leave one.
#[derive(Debug)]
pub enum BusAction {
    Subscribe(String),
    Unsubscribe(String),
}

/// An action as `(subscribes, channel)`.
pub open spec fn action_view(a: BusAction) -> (bool, Seq<char>) {
    match a {
        BusAction::Subscribe(c) => (true, c@),
        BusAction::Unsubscribe(c) => (false, c@),
    }
}

/// Actions as `(subscribes, channel)` pairs.
pub open spec fn actions_view(v: Seq<BusAction>) -> Seq<(bool, Seq<char>)> {
    v.map_values(|a: BusAction| action_view(a))
}

/// A client's request, as read from its JSON text: the `method` when it is
/// a string, and the `params` when they are an array, each kept when it is
/// a string.
#[derive(Debug)]
pub struct ClientRequest {
    pub method: Option<String>,
    pub params: Option<Vec<Option<String>>>,
}

/// Subscribing (or unsubscribing) user `u` to each channel of `params` in
/// turn, skipping the entries that are not channels: the registry afterwards
/// and the bus actions, in order.
pub open spec fn request_model(
    subs: Map<Seq<char>, Seq<Seq<char>>>,
    rev: Map<Seq<char>, Seq<Seq<char>>>,
    u: Seq<char>,
    subscribing: bool,
    params: Seq<Option<String>>,
) -> (Map<Seq<char>, Seq<Seq<char>>>, Map<Seq<char>, Seq<Seq<char>>>, Seq<(bool, Seq<char>)>)
    decreases params.len(),
{
    if params.len() == 0 {
        (subs, rev, Seq::empty())
    } else {
        match params[0] {
            None => request_model(subs, rev, u, subscribing, params.drop_first()),
            Some(c) => {
                let s = if subscribing {
                    crate::subscription_manager::subscribe_model(subs, rev, u, c@)
                } else {
                    crate::subscription_manager::unsubscribe_model(subs, rev, u, c@)
                };
                let r = request_model(s.0, s.1, u, subscribing, params.drop_first());
                (
                    r.0,
                    r.1,
                    match s.2 {
                        Some(x) => seq![(subscribing, x)] + r.2,
                        None => r.2,
                    },
                )
            },
        }
    }
}

/// Whether a request's params name channel `c`.
pub open spec fn names_channel(params: Seq<Option<String>>, c: Seq<char>) -> bool {
    exists|i: int| 0 <= i < params.len() && #[trigger] names_at(params, i, c)
}

/// Whether the param at `i` names channel `c`.
pub open spec fn names_at(params: Seq<Option<String>>, i: int, c: Seq<char>) -> bool {
    params[i] matches Some(x) && x@ == c
}

proof fn lemma_names_channel_step(params: Seq<Option<String>>, c: Seq<char>)
    requires
        params.len() > 0,
    ensures
        names_channel(params, c) <==> names_at(params, 0, c) || names_channel(params.drop_first(), c),
{
    let rest = params.drop_first();
    if names_channel(params, c) {
        let i = choose|i: int| 0 <= i < params.len() && #[trigger] names_at(params, i, c);
        if i > 0 {
            assert(rest[i - 1] == params[i]);
            assert(names_at(rest, i - 1, c));
        }
    }
    if names_channel(rest, c) {
        let i = choose|i: int| 0 <= i < rest.len() && #[trigger] names_at(rest, i, c);
        assert(rest[i] == params[i + 1]);
        assert(names_at(params, i + 1, c));
    }
}

/// After an UNSUBSCRIBE request, the user follows exactly the channels it
/// followed before that the request does not name.
pub proof fn lemma_unsubscribe_request_leaves_named_channels(
    subs: Map<Seq<char>, Seq<Seq<char>>>,
    rev: Map<Seq<char>, Seq<Seq<char>>>,
    u: Seq<char>,
    params: Seq<Option<String>>,
)
    ensures
        forall|c: Seq<char>| #[trigger]
            crate::subscription_manager::list_of(request_model(subs, rev, u, false, params).0, u).contains(c)
                <==> crate::subscription_manager::list_of(subs, u).contains(c) && !names_channel(params, c),
    decreases params.len(),
{
    if params.len() > 0 {
        let rest = params.drop_first();
        match params[0] {
            None => {
                lemma_unsubscribe_request_leaves_named_channels(subs, rev, u, rest);
                assert forall|c: Seq<char>| #[trigger]
                    crate::subscription_manager::list_of(request_model(subs, rev, u, false, params).0, u).contains(c)
                        <==> crate::subscription_manager::list_of(subs, u).contains(c) && !names_channel(params, c) by {
                    lemma_names_channel_step(params, c);
                    assert(request_model(subs, rev, u, false, params).0 == request_model(subs, rev, u, false, rest).0);
                    assert(!names_at(params, 0, c));
                    assert(crate::subscription_manager::list_of(request_model(subs, rev, u, false, rest).0, u).contains(c)
                        == crate::subscription_manager::list_of(request_model(subs, rev, u, false, params).0, u).contains(c));
                }
            },
            Some(x) => {
                let st = crate::subscription_manager::unsubscribe_model(subs, rev, u, x@);
                lemma_unsubscribe_request_leaves_named_channels(st.0, st.1, u, rest);
                assert forall|c: Seq<char>| #[trigger]
                    crate::subscription_manager::list_of(request_model(subs, rev, u, false, params).0, u).contains(c)
                        <==> crate::subscription_manager::list_of(subs, u).contains(c) && !names_channel(params, c) by {
                    lemma_names_channel_step(params, c);
                    assert(request_model(subs, rev, u, false, params).0 == request_model(st.0, st.1, u, false, rest).0);
                    assert(names_at(params, 0, c) <==> x@ == c);
                    assert(crate::subscription_manager::list_of(request_model(st.0, st.1, u, false, rest).0, u).contains(c)
                        == crate::subscription_manager::list_of(request_model(subs, rev, u, false, params).0, u).contains(c));
                    crate::subscription_manager::lemma_without_contains(
                        crate::subscription_manager::list_of(subs, u),
                        x@,
                        c,
                    );
                    if subs.contains_key(u) {
                        assert(crate::subscription_manager::list_of(st.0, u) == crate::subscription_manager::without(
                            subs[u],
                            x@,
                        ));
                    } else {
                        assert(crate::subscription_manager::list_of(st.0, u) == Seq::<Seq<char>>::empty());
                    }
                }
            },
        }
    }
}

/// After a SUBSCRIBE request, the user follows exactly the channels it
/// followed before and those the request names.
pub proof fn lemma_subscribe_request_follows_named_channels(
    subs: Map<Seq<char>, Seq<Seq<char>>>,
    rev: Map<Seq<char>, Seq<Seq<char>>>,
    u: Seq<char>,
    params: Seq<Option<String>>,
)
    ensures
        forall|c: Seq<char>| #[trigger]
            crate::subscription_manager::list_of(request_model(subs, rev, u, true, params).0, u).contains(c)
                <==> crate::subscription_manager::list_of(subs, u).contains(c) || names_channel(params, c),
    decreases params.len(),
{
    if params.len() > 0 {
        let rest = params.drop_first();
        match params[0] {
            None => {
                lemma_subscribe_request_follows_named_channels(subs, rev, u, rest);
                assert forall|c: Seq<char>| #[trigger]
                    crate::subscription_manager::list_of(request_model(subs, rev, u, true, params).0, u).contains(c)
                        <==> crate::subscription_manager::list_of(subs, u).contains(c) || names_channel(params, c) by {
                    lemma_names_channel_step(params, c);
                    assert(request_model(subs, rev, u, true, params).0 == request_model(subs, rev, u, true, rest).0);
                    assert(!names_at(params, 0, c));
                    assert(crate::subscription_manager::list_of(request_model(subs, rev, u, true, rest).0, u).contains(c)
                        == crate::subscription_manager::list_of(request_model(subs, rev, u, true, params).0, u).contains(c));
                }
            },
            Some(x) => {
                let st = crate::subscription_manager::subscribe_model(subs, rev, u, x@);
                lemma_subscribe_request_follows_named_channels(st.0, st.1, u, rest);
                let before = crate::subscription_manager::list_of(subs, u);
                let after = crate::subscription_manager::list_of(st.0, u);
                assert forall|c: Seq<char>| #[trigger] after.contains(c) <==> before.contains(c) || c == x@ by {
                    if !(subs.contains_key(u) && subs[u].contains(x@)) {
                        assert(after == before.push(x@));
                        if before.push(x@).contains(c) {
                            let j = choose|j: int| 0 <= j < before.push(x@).len() && before.push(x@)[j] == c;
                            if j < before.len() {
                                assert(before[j] == c);
                            }
                        }
                        if before.contains(c) {
                            let j = choose|j: int| 0 <= j < before.len() && before[j] == c;
                            assert(before.push(x@)[j] == c);
                        }
                        assert(before.push(x@)[before.len() as int] == x@);
                    }
                }
                assert forall|c: Seq<char>| #[trigger]
                    crate::subscription_manager::list_of(request_model(subs, rev, u, true, params).0, u).contains(c)
                        <==> crate::subscription_manager::list_of(subs, u).contains(c) || names_channel(params, c) by {
                    lemma_names_channel_step(params, c);
                    assert(after.contains(c) <==> before.contains(c) || c == x@);
                    assert(request_model(subs, rev, u, true, params).0 == request_model(st.0, st.1, u, true, rest).0);
                    assert(names_at(params, 0, c) <==> x@ == c);
                    assert(crate::subscription_manager::list_of(request_model(st.0, st.1, u, true, rest).0, u).contains(c)
                        == crate::subscription_manager::list_of(request_model(subs, rev, u, true, params).0, u).contains(c));
                }
            },
        }
    }
}

/// A connected user.
pub struct User {
    pub id: String,
    subscriptions: Vec<String>,
}

impl User {
    /// The user's id.
    pub closed spec fn name(&self) -> String {
        self.id
    }

    /// The channels the user recorded, in order.
    pub closed spec fn channels(&self) -> Seq<Seq<char>> {
        crate::subscription_manager::names(self.subscriptions)
    }

    /// A user with no channels.
    pub fn new(id: String) -> (u: Self)
        ensures
            u.name() == id,
            u.channels() == Seq::<Seq<char>>::empty(),
    {
        let u = User { id, subscriptions: Vec::new() };
        assert(u.channels() =~= Seq::<Seq<char>>::empty());
        u
    }

    /// Records a channel.
    pub fn subscribe(&mut self, subscription: String)
        ensures
            final(self).name() == old(self).name(),
            final(self).channels() == old(self).channels().push(subscription@),
    {
        self.subscriptions.push(subscription);
        assert(self.channels() =~= old(self).channels().push(subscription@));
    }

    /// Forgets a channel.
    pub fn unsubscribe(&mut self, subscription: &str)
        ensures
            final(self).name() == old(self).name(),
            final(self).channels() == crate::subscription_manager::without(old(self).channels(), subscription@),
    {
        let key = <String as StringExecFns>::from_str(subscription);
        self.subscriptions = without_name(&self.subscriptions, &key);
    }

    /// The channels the user recorded, in order.
    pub fn get_subscriptions(&self) -> (channels: Vec<String>)
        ensures
            crate::subscription_manager::names(channels) == self.channels(),
    {
        copy_names(&self.subscriptions)
    }

    /// Carries out a client request: "SUBSCRIBE" subscribes the user to each
    /// channel of the params, "UNSUBSCRIBE" unsubscribes it; returns the work
    /// on the message bus, in order. Another method is `None` and changes
    /// nothing.
    pub fn handle_message(&self, manager: &mut SubscriptionManager, request: &ClientRequest) -> (actions:
        Option<Vec<BusAction>>)
        requires
            old(manager).wf(),
        ensures
            final(manager).wf(),
            ({
                let is_sub = request.method matches Some(m) && m@ == "SUBSCRIBE"@;
                let is_unsub = request.method matches Some(m) && m@ == "UNSUBSCRIBE"@;
                if !is_sub && !is_unsub {
                    &&& actions is None
                    &&& final(manager).user_channels() == old(manager).user_channels()
                    &&& final(manager).channel_users() == old(manager).channel_users()
                } else {
                    let ps = match request.params {
                        Some(p) => p@,
                        None => Seq::empty(),
                    };
                    let r = request_model(
                        old(manager).user_channels(),
                        old(manager).channel_users(),
                        self.name()@,
                        is_sub,
                        ps,
                    );
                    &&& actions matches Some(a) && actions_view(a@) == r.2
                    &&& final(manager).user_channels() == r.0
                    &&& final(manager).channel_users() == r.1
                }
            }),
    {
        let subscribing = match &request.method {
            Some(m) => {
                if *m == <String as StringExecFns>::from_str("SUBSCRIBE") {
                    true
                } else if *m == <String as StringExecFns>::from_str("UNSUBSCRIBE") {
                    false
                } else {
                    return None;
                }
            },
            None => {
                return None;
            },
        };
        let mut actions: Vec<BusAction> = Vec::new();
        let empty: Vec<Option<String>> = Vec::new();
        let params = match &request.params {
            Some(p) => p,
            None => &empty,
        };
        let ghost full = request_model(
            manager.user_channels(),
            manager.channel_users(),
            self.id@,
            subscribing,
            params@,
        );
        let mut i: usize = 0;
        proof {
            assert(params@.skip(0) =~= params@);
            assert(actions_view(actions@) =~= Seq::<(bool, Seq<char>)>::empty());
        }
        while i < params.len()
            invariant
                0 <= i <= params@.len(),
                manager.wf(),
                ({
                    let r = request_model(
                        manager.user_channels(),
                        manager.channel_users(),
                        self.id@,
                        subscribing,
                        params@.skip(i as int),
                    );
                    &&& full.0 == r.0
                    &&& full.1 == r.1
                    &&& full.2 == actions_view(actions@) + r.2
                }),
            decreases params@.len() - i,
        {
            proof {
                let s = params@.skip(i as int);
                assert(s[0] == params@[i as int]);
                assert(s.drop_first() =~= params@.skip(i as int + 1));
            }
            let ghost before = actions_view(actions@);
            match &params[i] {
                Some(c) => {
                    if subscribing {
                        match manager.subscribe(self.id.as_str(), c.clone()) {
                            Some(f) => {
                                let ghost fv = f@;
                                actions.push(BusAction::Subscribe(f));
                                proof {
                                    assert(actions_view(actions@) =~= before.push((true, fv)));
                                    assert(before.push((true, fv)) + request_model(
                                        manager.user_channels(),
                                        manager.channel_users(),
                                        self.id@,
                                        subscribing,
                                        params@.skip(i as int + 1),
                                    ).2 =~= before + (seq![(true, fv)] + request_model(
                                        manager.user_channels(),
                                        manager.channel_users(),
                                        self.id@,
                                        subscribing,
                                        params@.skip(i as int + 1),
                                    ).2));
                                }
                            },
                            None => {},
                        }
                    } else {
                        match manager.unsubscribe(self.id.as_str(), c.as_str()) {
                            Some(f) => {
                                let ghost fv = f@;
                                actions.push(BusAction::Unsubscribe(f));
                                proof {
                                    assert(actions_view(actions@) =~= before.push((false, fv)));
                                    assert(before.push((false, fv)) + request_model(
                                        manager.user_channels(),
                                        manager.channel_users(),
                                        self.id@,
                                        subscribing,
                                        params@.skip(i as int + 1),
                                    ).2 =~= before + (seq![(false, fv)] + request_model(
                                        manager.user_channels(),
                                        manager.channel_users(),
                                        self.id@,
                                        subscribing,
                                        params@.skip(i as int + 1),
                                    ).2));
                                }
                            },
                            None => {},
                        }
                    }
                },
                None => {},
            }
            i = i + 1;
        }
        proof {
            assert(params@.skip(i as int) =~= Seq::<Option<String>>::empty());
            assert(actions_view(actions@) + Seq::<(bool, Seq<char>)>::empty() =~= actions_view(actions@));
        }
        Some(actions)
    }
}

/// The users as a table of id and channels.
pub closed spec fn user_entries(users: Seq<User>) -> Seq<(String, Vec<String>)> {
    users.map_values(|u: User| (u.id, u.subscriptions))
}

/// The index of the user with id `id`, if any.
fn find_user(users: &Vec<User>, id: &String) -> (r: Option<usize>)
    ensures
        r matches Some(i) ==> i < users@.len() && users@[i as int].id@ == id@,
        r is None ==> !crate::subscription_manager::has_key(user_entries(users@), id@),
{
    let mut i: usize = 0;
    while i < users.len()
        invariant
            0 <= i <= users@.len(),
            forall|j: int| 0 <= j < i ==> (#[trigger] users@[j]).id@ != id@,
        decreases users@.len() - i,
    {
        if users[i].id == *id {
            return Some(i);
        }
        i = i + 1;
    }
    proof {
        let e = user_entries(users@);
        if crate::subscription_manager::has_key(e, id@) {
            let j = choose|j: int| 0 <= j < e.len() && (#[trigger] e[j]).0@ == id@;
            assert(e[j].0 == users@[j].id);
        }
    }
    None
}

/// Removing a user undoes adding it: the users connected afterwards are
/// those connected before, but for one that was connected under the same id.
pub proof fn lemma_remove_undoes_add(connected: Map<Seq<char>, Seq<Seq<char>>>, id: Seq<char>)
    ensures
        connected.insert(id, Seq::<Seq<char>>::empty()).remove(id) == connected.remove(id),
{
    assert(connected.insert(id, Seq::<Seq<char>>::empty()).remove(id) =~= connected.remove(id));
}

/// The connected users.
pub struct UserManager {
    users: Vec<User>,
}

impl UserManager {
    /// Each connected user's recorded channels, by id.
    pub closed spec fn connected(&self) -> Map<Seq<char>, Seq<Seq<char>>> {
        crate::subscription_manager::table(user_entries(self.users@))
    }

    /// Each user has one entry.
    pub closed spec fn wf(&self) -> bool {
        crate::subscription_manager::keys_unique(user_entries(self.users@))
    }

    /// No users.
    pub fn new() -> (m: Self)
        ensures
            m.wf(),
            m.connected() == Map::<Seq<char>, Seq<Seq<char>>>::empty(),
    {
        let m = UserManager { users: Vec::new() };
        assert(user_entries(m.users@) =~= Seq::<(String, Vec<String>)>::empty());
        assert(m.connected() =~= Map::<Seq<char>, Seq<Seq<char>>>::empty());
        m
    }

    /// A fresh random id of 30 letters and digits.
    fn get_random_id(&self) -> (id: String)
        ensures
            id@.len() == 30,
            forall|i: int| 0 <= i < 30 ==> crate::random_id::is_alphanumeric(#[trigger] id@[i]),
    {
        random_id(30)
    }

    /// Connects a new user under a fresh random id of 30 letters and digits,
    /// with no channels (a user already under that id is replaced), and
    /// returns the id.
    pub fn add_user(&mut self) -> (id: String)
        requires
            old(self).wf(),
        ensures
            final(self).wf(),
            id@.len() == 30,
            forall|i: int| 0 <= i < 30 ==> crate::random_id::is_alphanumeric(#[trigger] id@[i]),
            final(self).connected() == old(self).connected().insert(id@, Seq::<Seq<char>>::empty()),
    {
        let id = self.get_random_id();
        match find_user(&self.users, &id) {
            Some(i) => {
                proof {
                    let e = user_entries(self.users@);
                    assert(e[i as int].0@ == id@);
                    crate::subscription_manager::lemma_table_remove(e, i as int);
                    assert(user_entries(self.users@.remove(i as int)) =~= e.remove(i as int));
                }
                self.users.remove(i);
            },
            None => {
                proof {
                    assert(self.connected() =~= old(self).connected().remove(id@));
                }
            },
        }
        let user = User::new(id.clone());
        proof {
            let e = user_entries(self.users@);
            assert(!crate::subscription_manager::has_key(e, id@)) by {
                if crate::subscription_manager::has_key(e, id@) {
                    let j = choose|j: int| 0 <= j < e.len() && (#[trigger] e[j]).0@ == id@;
                    crate::subscription_manager::lemma_table_at(e, j);
                }
            }
            crate::subscription_manager::lemma_table_push(e, user.id, user.subscriptions);
            assert(user_entries(self.users@.push(user)) =~= e.push((user.id, user.subscriptions)));
            assert(crate::subscription_manager::names(user.subscriptions) =~= Seq::<Seq<char>>::empty());
        }
        self.users.push(user);
        proof {
            assert(self.connected() =~= old(self).connected().insert(id@, Seq::<Seq<char>>::empty()));
        }
        id
    }

    /// The user with id `id`, if connected.
    pub fn get_user(&self, id: &str) -> (u: Option<&User>)
        requires
            self.wf(),
        ensures
            match u {
                Some(x) => self.connected().contains_key(id@) && x.name()@ == id@ && x.channels()
                    == self.connected()[id@],
                None => !self.connected().contains_key(id@),
            },
    {
        let key = <String as StringExecFns>::from_str(id);
        match find_user(&self.users, &key) {
            Some(i) => {
                proof {
                    let e = user_entries(self.users@);
                    assert(e[i as int] == (self.users@[i as int].id, self.users@[i as int].subscriptions));
                    crate::subscription_manager::lemma_table_at(e, i as int);
                }
                Some(&self.users[i])
            },
            None => None,
        }
    }

    /// Disconnects the user `id`, if connected: unsubscribes it from each
    /// channel it recorded, then has it leave the registry; returns the
    /// channels the server has to leave on the message bus, in order.
    pub fn remove_user(&mut self, id: &str, manager: &mut SubscriptionManager) -> (closed: Vec<String>)
        requires
            old(self).wf(),
            old(manager).wf(),
        ensures
            final(self).wf(),
            final(manager).wf(),
            final(self).connected() == old(self).connected().remove(id@),
            ({
                let users0 = old(self).connected();
                if users0.contains_key(id@) {
                    let a = crate::subscription_manager::leave_model(
                        old(manager).user_channels(),
                        old(manager).channel_users(),
                        id@,
                        users0[id@],
                    );
                    let b = crate::subscription_manager::leave_model(
                        a.0,
                        a.1,
                        id@,
                        crate::subscription_manager::list_of(a.0, id@),
                    );
                    &&& final(manager).user_channels() == b.0.remove(id@)
                    &&& final(manager).channel_users() == b.1
                    &&& crate::subscription_manager::names(closed) == a.2 + b.2
                } else {
                    &&& final(manager).user_channels() == old(manager).user_channels()
                    &&& final(manager).channel_users() == old(manager).channel_users()
                    &&& closed@.len() == 0
                }
            }),
    {
        let key = <String as StringExecFns>::from_str(id);
        match find_user(&self.users, &key) {
            None => {
                proof {
                    assert(self.connected() =~= old(self).connected().remove(id@));
                }
                Vec::new()
            },
            Some(i) => {
                proof {
                    let e = user_entries(self.users@);
                    assert(e[i as int] == (self.users@[i as int].id, self.users@[i as int].subscriptions));
                    crate::subscription_manager::lemma_table_at(e, i as int);
                    crate::subscription_manager::lemma_table_remove(e, i as int);
                    assert(user_entries(self.users@.remove(i as int)) =~= e.remove(i as int));
                }
                let user = self.users.remove(i);
                let channels = user.get_subscriptions();
                let ghost list = crate::subscription_manager::names(channels);
                let ghost full = crate::subscription_manager::leave_model(
                    manager.user_channels(),
                    manager.channel_users(),
                    id@,
                    list,
                );
                let mut closed: Vec<String> = Vec::new();
                let mut k: usize = 0;
                proof {
                    assert(list.skip(0) =~= list);
                    assert(crate::subscription_manager::names(closed) =~= Seq::<Seq<char>>::empty());
                }
                while k < channels.len()
                    invariant
                        0 <= k <= channels@.len(),
                        list == crate::subscription_manager::names(channels),
                        manager.wf(),
                        ({
                            let r = crate::subscription_manager::leave_model(
                                manager.user_channels(),
                                manager.channel_users(),
                                id@,
                                list.skip(k as int),
                            );
                            &&& full.0 == r.0
                            &&& full.1 == r.1
                            &&& full.2 == crate::subscription_manager::names(closed) + r.2
                        }),
                    decreases channels@.len() - k,
                {
                    proof {
                        let s = list.skip(k as int);
                        assert(s[0] == channels@[k as int]@);
                        assert(s.drop_first() =~= list.skip(k as int + 1));
                    }
                    let ghost before = crate::subscription_manager::names(closed);
                    match manager.unsubscribe(id, channels[k].as_str()) {
                        Some(c) => {
                            closed.push(c);
                            proof {
                                let rest = crate::subscription_manager::leave_model(
                                    manager.user_channels(),
                                    manager.channel_users(),
                                    id@,
                                    list.skip(k as int + 1),
                                ).2;
                                assert(crate::subscription_manager::names(closed) =~= before.push(channels@[k as int]@));
                                assert(before.push(channels@[k as int]@) + rest =~= before + (seq![channels@[k as int]@] + rest));
                            }
                        },
                        None => {},
                    }
                    k = k + 1;
                }
                proof {
                    assert(list.skip(k as int) =~= Seq::<Seq<char>>::empty());
                    assert(crate::subscription_manager::names(closed) + Seq::<Seq<char>>::empty()
                        =~= crate::subscription_manager::names(closed));
                }
                let ghost mid = crate::subscription_manager::names(closed);
                let more = manager.user_left(id);
                let mut j: usize = 0;
                while j < more.len()
                    invariant
                        0 <= j <= more@.len(),
                        crate::subscription_manager::names(closed) == mid + crate::subscription_manager::names(more).take(j as int),
                    decreases more@.len() - j,
                {
                    let ghost before = crate::subscription_manager::names(closed);
                    closed.push(more[j].clone());
                    proof {
                        assert(crate::subscription_manager::names(closed) =~= before.push(more@[j as int]@));
                        assert(crate::subscription_manager::names(more).take(j as int + 1) =~= crate::subscription_manager::names(more).take(j as int).push(more@[j as int]@));
                    }
                    j = j + 1;
                }
                proof {
                    assert(crate::subscription_manager::names(more).take(more@.len() as int) =~= crate::subscription_manager::names(more));
                }
                closed
            },
        }
    }
}

} // verus!
