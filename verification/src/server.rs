//! The session server: the authoritative event reducer, the admission
//! pipeline for fresh connections, and the broadcast policy.
//!
//! The server core is a pure decision machine: the surrounding process
//! drains sockets and hands events in; the core reduces them into the
//! canonical state and says what to send back. Canonical state has a
//! single writer: this structure.

use crate::communication::Event;
use crate::communication::EventData;
use crate::communication::EventDataV;
use crate::communication::EventV;
use crate::communication::evs_view;
use crate::communication::NameMap;
use crate::communication::State;
use crate::communication::StateV;
use crate::communication::Layer;
use crate::communication::TokenV;
use crate::communication::has_name;
use crate::communication::key_at;
use crate::communication::lemma_key_at;
use crate::communication::name_val;
use crate::communication::unique_names;
use crate::utils::lemma_lex_total;
use crate::utils::lemma_lex_trans;
use crate::utils::lex_lt;
use crate::utils::str_le;
use vstd::prelude::*;

verus! {

/// First position of string `x` in a sequence of strings, or -1.
pub open spec fn str_at(s: Seq<Seq<char>>, x: Seq<char>) -> int
    decreases s.len(),
{
    if s.len() == 0 {
        -1
    } else if s[0] == x {
        0
    } else {
        let r = str_at(s.drop_first(), x);
        if r < 0 {
            -1
        } else {
            r + 1
        }
    }
}

/// Whether string `x` occurs in the sequence.
pub open spec fn has_str(s: Seq<Seq<char>>, x: Seq<char>) -> bool {
    str_at(s, x) >= 0
}

/// No string occurs twice.
pub open spec fn unique_strs(s: Seq<Seq<char>>) -> bool {
    forall|i: int, j: int| 0 <= i < j < s.len() ==> s[i] != s[j]
}

/// `str_at` finds the first occurrence, and -1 exactly when absent.
pub proof fn lemma_str_at(s: Seq<Seq<char>>, x: Seq<char>)
    ensures
        str_at(s, x) == -1 <==> (forall|i: int| 0 <= i < s.len() ==> s[i] != x),
        str_at(s, x) != -1 ==> 0 <= str_at(s, x) < s.len() && s[str_at(s, x)] == x,
        str_at(s, x) != -1 ==> (forall|i: int| 0 <= i < str_at(s, x) ==> s[i] != x),
    decreases s.len(),
{
    if s.len() != 0 {
        let t = s.drop_first();
        lemma_str_at(t, x);
        assert(forall|i: int| 0 <= i < t.len() ==> t[i] == s[i + 1]);
        if s[0] != x {
            if str_at(t, x) == -1 {
                assert forall|i: int| 0 <= i < s.len() implies s[i] != x by {
                    if i > 0 {
                        assert(t[i - 1] == s[i]);
                    }
                }
            } else {
                assert(s[str_at(s, x)] == t[str_at(t, x)]);
                assert forall|i: int| 0 <= i < str_at(s, x) implies s[i] != x by {
                    if i > 0 {
                        assert(t[i - 1] == s[i]);
                    }
                }
            }
        }
    }
}

/// Removes the first occurrence of `x` when present.
pub open spec fn remove_str(s: Seq<Seq<char>>, x: Seq<char>) -> Seq<Seq<char>> {
    if has_str(s, x) {
        s.remove(str_at(s, x))
    } else {
        s
    }
}

/// Overwrites the binding of `k` in place, or appends a new one — the
/// model of [`NameMap::set_name`].
pub open spec fn set_assoc<T>(s: Seq<(Seq<char>, T)>, k: Seq<char>, v: T) -> Seq<(Seq<char>, T)> {
    if has_name(s, k) {
        s.update(key_at(s, k), (k, v))
    } else {
        s.push((k, v))
    }
}

/// Ghost model of a [`Server`].
#[verifier::ext_equal]
pub ghost struct ServerV {
    pub clients: Seq<Seq<char>>,
    pub owner: Seq<char>,
    pub state: StateV,
    pub assets: Seq<(Seq<char>, Seq<u8>)>,
    pub shutdown: bool,
}

impl ServerV {
    /// Well-formedness: one connection per username, well-formed
    /// canonical state, unique asset names.
    pub open spec fn wf(self) -> bool {
        unique_strs(self.clients) && self.state.wf() && unique_names(self.assets)
    }
}

/// The authoritative server core: admitted usernames, the session
/// owner (empty until the first admission), the canonical state, the
/// uploaded-image store, and the shutdown flag.
pub struct Server {
    pub clients: Vec<String>,
    pub owner: String,
    pub state: State,
    pub assets: NameMap<Vec<u8>>,
    pub shutdown: bool,
}

impl View for Server {
    type V = ServerV;

    open spec fn view(&self) -> ServerV {
        ServerV {
            clients: self.clients.deep_view(),
            owner: self.owner@,
            state: self.state@,
            assets: self.assets@,
            shutdown: self.shutdown,
        }
    }
}

/// Whether one event, applied to this server, changes it: this is
/// what decides whether the tick broadcasts. No-ops — connects of
/// admitted peers, heartbeats, unauthorized kills, moves and destroys
/// of absent names, duplicate creates — do not count.
pub open spec fn ev_mutates(sv: ServerV, e: EventV) -> bool {
    !sv.shutdown && match e.data {
        EventDataV::Message { .. } => true,
        EventDataV::Connection { .. } => false,
        EventDataV::Disconnection { username } => has_str(sv.clients, username),
        EventDataV::Kill { .. } => e.source == sv.owner,
        EventDataV::HeartBeat => false,
        EventDataV::ImageUpload { .. } => true,
        EventDataV::TokenMoved { name, .. } => sv.state.has_token(name),
        EventDataV::TokenCreated { name, .. } => !sv.state.has_token(name),
        EventDataV::TokenDestroyed { name, .. } => sv.state.has_token(name),
        EventDataV::SendState { .. } => true,
        EventDataV::PersonalUpdate { .. } => false,
    }
}

/// One reduction step. Once the shutdown flag is set, the remaining
/// events of the tick are ignored. A Kill mutates only when its
/// source is the owner, and that is the one path that requests
/// shutdown. A SendState replaces the whole canonical state,
/// unconditionally: any peer may issue it, which is this design's
/// documented trust assumption for a single-host table.
pub open spec fn ev_step(sv: ServerV, e: EventV) -> ServerV {
    if sv.shutdown {
        sv
    } else {
        match e.data {
            EventDataV::Message { from, contents, .. } => ServerV {
                state: sv.state.with_message(from, contents),
                ..sv
            },
            EventDataV::Connection { .. } => sv,
            EventDataV::Disconnection { username } => ServerV {
                clients: remove_str(sv.clients, username),
                ..sv
            },
            EventDataV::Kill { .. } => if e.source == sv.owner {
                ServerV { shutdown: true, ..sv }
            } else {
                sv
            },
            EventDataV::HeartBeat => sv,
            EventDataV::ImageUpload { name, image } => ServerV {
                assets: set_assoc(sv.assets, name, image),
                ..sv
            },
            EventDataV::TokenMoved { name, to, .. } => ServerV {
                state: sv.state.with_moved(name, to),
                ..sv
            },
            EventDataV::TokenCreated { name, token, layer } => ServerV {
                state: sv.state.with_created(name, token, layer),
                ..sv
            },
            EventDataV::TokenDestroyed { name, .. } => ServerV {
                state: sv.state.with_destroyed(name),
                ..sv
            },
            EventDataV::SendState { state } => ServerV { state, ..sv },
            EventDataV::PersonalUpdate { .. } => sv,
        }
    }
}

/// Reduces a list of events in order.
pub open spec fn reduce(sv: ServerV, evs: Seq<EventV>) -> ServerV
    decreases evs.len(),
{
    if evs.len() == 0 {
        sv
    } else {
        reduce(ev_step(sv, evs[0]), evs.drop_first())
    }
}

/// Whether any event of the list mutates the server it meets.
pub open spec fn any_mutates(sv: ServerV, evs: Seq<EventV>) -> bool
    decreases evs.len(),
{
    if evs.len() == 0 {
        false
    } else {
        ev_mutates(sv, evs[0]) || any_mutates(ev_step(sv, evs[0]), evs.drop_first())
    }
}

/// The names uploaded by the list, in order, for this tick's fan-out.
pub open spec fn uploads_of(sv: ServerV, evs: Seq<EventV>) -> Seq<Seq<char>>
    decreases evs.len(),
{
    if evs.len() == 0 {
        Seq::empty()
    } else if sv.shutdown {
        Seq::empty()
    } else {
        (match evs[0].data {
            EventDataV::ImageUpload { name, .. } => seq![name],
            _ => Seq::empty(),
        }) + uploads_of(ev_step(sv, evs[0]), evs.drop_first())
    }
}

/// The values an event carries into the state are themselves
/// well-formed: a SendState's snapshot, or a created or moved token.
pub open spec fn ev_payload_wf(e: EventV) -> bool {
    match e.data {
        EventDataV::SendState { state } => state.wf(),
        EventDataV::TokenCreated { token, .. } => token.wf(),
        EventDataV::TokenMoved { to, .. } => to.wf(),
        _ => true,
    }
}

pub open spec fn all_payloads_wf(evs: Seq<EventV>) -> bool {
    forall|i: int| 0 <= i < evs.len() ==> ev_payload_wf(#[trigger] evs[i])
}

/// Whether a roster vector holds this username.
fn roster_contains(v: &Vec<String>, name: &String) -> (r: bool)
    ensures
        r == has_str(v.deep_view(), name@),
{
    proof {
        lemma_str_at(v.deep_view(), name@);
    }
    let n = v.len();
    for i in 0..n
        invariant
            n == v@.len(),
            forall|j: int| 0 <= j < i ==> v.deep_view()[j] != name@,
    {
        if v[i] == *name {
            proof {
                lemma_str_at(v.deep_view(), name@);
                assert(v.deep_view()[i as int] == name@);
            }
            return true;
        }
    }
    false
}

/// Removes this username from the roster, if present.
fn roster_remove(v: &mut Vec<String>, name: &String) -> (r: bool)
    ensures
        r == has_str(old(v).deep_view(), name@),
        final(v).deep_view() == remove_str(old(v).deep_view(), name@),
        unique_strs(old(v).deep_view()) ==> unique_strs(final(v).deep_view()),
{
    proof {
        lemma_str_at(old(v).deep_view(), name@);
    }
    let n = v.len();
    let mut i: usize = 0;
    while i < n
        invariant
            n == v@.len(),
            i <= n,
            v == old(v),
            forall|j: int| 0 <= j < i ==> v.deep_view()[j] != name@,
        decreases n - i,
    {
        if v[i] == *name {
            proof {
                lemma_str_at(v.deep_view(), name@);
                assert(v.deep_view()[i as int] == name@);
                assert(str_at(v.deep_view(), name@) == i as int);
            }
            let ghost prior = v.deep_view();
            v.remove(i);
            proof {
                assert(v.deep_view() =~= prior.remove(i as int));
                if unique_strs(prior) {
                    assert forall|a: int, b: int|
                        0 <= a < b < v.deep_view().len() implies v.deep_view()[a]
                        != v.deep_view()[b] by {
                        let sa = if a < i as int {
                            a
                        } else {
                            a + 1
                        };
                        let sb = if b < i as int {
                            b
                        } else {
                            b + 1
                        };
                        assert(v.deep_view()[a] == prior[sa] && v.deep_view()[b] == prior[sb]);
                    }
                }
            }
            return true;
        }
        i = i + 1;
    }
    proof {
        assert(v.deep_view() =~= remove_str(old(v).deep_view(), name@));
    }
    false
}

impl Server {
    /// A fresh server: nobody admitted, no owner, empty state, no
    /// assets, not shutting down.
    pub fn new() -> (r: Server)
        ensures
            r@.clients == Seq::<Seq<char>>::empty(),
            r@.owner == Seq::<char>::empty(),
            r@.state.messages == Seq::<(Seq<char>, Seq<char>)>::empty(),
            r@.state.tokens == Seq::<(Seq<char>, crate::communication::TokenV)>::empty(),
            r@.state.map == Seq::<(Seq<char>, crate::communication::TokenV)>::empty(),
            r@.state.gm == Seq::<(Seq<char>, crate::communication::TokenV)>::empty(),
            r@.state.name == Seq::<char>::empty(),
            r@.assets == Seq::<(Seq<char>, Seq<u8>)>::empty(),
            !r@.shutdown,
            r@.wf(),
    {
        let r = Server {
            clients: Vec::new(),
            owner: String::new(),
            state: State::new(),
            assets: NameMap::new(),
            shutdown: false,
        };
        proof {
            assert(r@.clients =~= Seq::<Seq<char>>::empty());
        }
        r
    }

    /// Applies one inbound event to the canonical state, exactly as
    /// `ev_step` describes; returns whether it mutated the server.
    /// Kill events from any source other than the owner leave the
    /// server unchanged — in particular they never request shutdown.
    pub fn apply_event(&mut self, e: Event) -> (r: bool)
        ensures
            final(self)@ == ev_step(old(self)@, e@),
            r == ev_mutates(old(self)@, e@),
            old(self)@.wf() && ev_payload_wf(e@) ==> final(self)@.wf(),
    {
        let ghost prior = self@;
        let ghost ev = e@;
        if self.shutdown {
            return false;
        }
        let Event { source, data } = e;
        match data {
            EventData::Message { from, contents, time_stamp: _ } => {
                self.state.push_message(from, contents);
                proof {
                    assert(self@ =~= ev_step(prior, ev));
                }
                true
            },
            EventData::Connection { username: _ } => {
                proof {
                    assert(self@ =~= ev_step(prior, ev));
                }
                false
            },
            EventData::Disconnection { username } => {
                let r = roster_remove(&mut self.clients, &username);
                proof {
                    assert(self@ =~= ev_step(prior, ev));
                }
                r
            },
            EventData::Kill { password: _ } => {
                if source == self.owner {
                    self.shutdown = true;
                    proof {
                        assert(self@ =~= ev_step(prior, ev));
                    }
                    true
                } else {
                    proof {
                        assert(self@ =~= ev_step(prior, ev));
                    }
                    false
                }
            },
            EventData::HeartBeat => {
                proof {
                    assert(self@ =~= ev_step(prior, ev));
                }
                false
            },
            EventData::ImageUpload { name, image } => {
                self.assets.set_name(&name, image);
                proof {
                    assert(self@.assets =~= set_assoc(prior.assets, name@, image@));
                    assert(self@ =~= ev_step(prior, ev));
                }
                true
            },
            EventData::TokenMoved { name, to, layer: _ } => {
                let r = self.state.move_token(&name, &to);
                proof {
                    assert(self@ =~= ev_step(prior, ev));
                }
                r
            },
            EventData::TokenCreated { name, token, layer } => {
                let r = self.state.create_token(&name, token, layer);
                proof {
                    assert(self@ =~= ev_step(prior, ev));
                }
                r
            },
            EventData::TokenDestroyed { name, layer: _ } => {
                let r = self.state.destroy_token(&name);
                proof {
                    assert(self@ =~= ev_step(prior, ev));
                }
                r
            },
            EventData::SendState { state } => {
                self.state = state;
                proof {
                    assert(self@ =~= ev_step(prior, ev));
                }
                true
            },
            EventData::PersonalUpdate { people: _ } => {
                proof {
                    assert(self@ =~= ev_step(prior, ev));
                }
                false
            },
        }
    }

    /// Reduces a whole tick's inbound events in list order, exactly as
    /// `reduce` describes. Returns whether any event mutated the
    /// server, and the names uploaded this tick, in order.
    pub fn apply_events(&mut self, events: Vec<Event>) -> (r: (bool, Vec<String>))
        ensures
            final(self)@ == reduce(old(self)@, evs_view(events@)),
            r.0 == any_mutates(old(self)@, evs_view(events@)),
            r.1.deep_view() == uploads_of(old(self)@, evs_view(events@)),
            old(self)@.wf() && all_payloads_wf(evs_view(events@)) ==> final(self)@.wf(),
    {
        let ghost all = evs_view(events@);
        let ghost orig = self@;
        let mut rest = events;
        let mut mutated = false;
        let mut uploads: Vec<String> = Vec::new();
        while rest.len() > 0
            invariant
                reduce(orig, all) == reduce(self@, evs_view(rest@)),
                any_mutates(orig, all) == (mutated || any_mutates(self@, evs_view(rest@))),
                uploads_of(orig, all) =~= uploads.deep_view() + uploads_of(
                    self@,
                    evs_view(rest@),
                ),
                orig.wf() && all_payloads_wf(all) ==> self@.wf() && all_payloads_wf(
                    evs_view(rest@),
                ),
            decreases rest.len(),
        {
            let ghost pre = self@;
            let ghost rv = evs_view(rest@);
            let e = rest.remove(0);
            proof {
                assert(evs_view(rest@) =~= rv.drop_first());
                assert(rv[0] == e@);
                if orig.wf() && all_payloads_wf(all) {
                    assert(ev_payload_wf(rv[0]));
                    assert forall|i: int|
                        0 <= i < rv.drop_first().len() implies ev_payload_wf(
                        #[trigger] rv.drop_first()[i],
                    ) by {
                        assert(rv.drop_first()[i] == rv[i + 1]);
                    }
                }
            }
            let up: Option<String> = if !self.shutdown {
                match &e.data {
                    EventData::ImageUpload { name, image: _ } => Some(name.clone()),
                    _ => None,
                }
            } else {
                None
            };
            let m = self.apply_event(e);
            mutated = mutated || m;
            match up {
                Some(n) => {
                    let ghost upre = uploads.deep_view();
                    uploads.push(n);
                    proof {
                        assert(uploads.deep_view() =~= upre + seq![n@]);
                        assert(uploads_of(pre, rv) =~= seq![n@] + uploads_of(
                            self@,
                            rv.drop_first(),
                        ));
                        assert((upre + seq![n@]) + uploads_of(self@, rv.drop_first()) =~= upre + (
                        seq![n@] + uploads_of(self@, rv.drop_first())));
                    }
                },
                None => {
                    proof {
                        assert(uploads_of(pre, rv) =~= uploads_of(self@, rv.drop_first()));
                    }
                },
            }
        }
        proof {
            assert(evs_view(rest@) =~= Seq::<EventV>::empty());
            assert(uploads.deep_view() + Seq::<Seq<char>>::empty() =~= uploads.deep_view());
        }
        (mutated, uploads)
    }
}

/// Strictly ascending, hence duplicate-free, in the lexicographic
/// order.
pub open spec fn sorted_unique(s: Seq<Seq<char>>) -> bool {
    forall|i: int, j: int| 0 <= i < j < s.len() ==> lex_lt(#[trigger] s[i], #[trigger] s[j])
}

/// Strict order is transitive.
pub proof fn lemma_lex_lt_trans(a: Seq<char>, b: Seq<char>, c: Seq<char>)
    requires
        lex_lt(a, b),
        lex_lt(b, c),
    ensures
        lex_lt(a, c),
{
    lemma_lex_trans(a, b, c);
    if a == c {
        lemma_lex_total(b, c);
    }
}

/// Copies one byte vector.
fn clone_bytes(v: &Vec<u8>) -> (r: Vec<u8>)
    ensures
        r@ == v@,
{
    let mut r: Vec<u8> = Vec::new();
    let n = v.len();
    for i in 0..n
        invariant
            n == v@.len(),
            r@ =~= v@.take(i as int),
    {
        r.push(v[i]);
        proof {
            assert(r@ =~= v@.take(i + 1));
        }
    }
    proof {
        assert(v@.take(n as int) =~= v@);
    }
    r
}

/// Inserts a fresh username into a sorted roster, keeping it sorted.
fn insert_sorted(v: &mut Vec<String>, name: String)
    requires
        sorted_unique(old(v).deep_view()),
        !has_str(old(v).deep_view(), name@),
    ensures
        sorted_unique(final(v).deep_view()),
        forall|x: Seq<char>|
            #[trigger] has_str(final(v).deep_view(), x) <==> has_str(old(v).deep_view(), x) || x
                == name@,
        final(v).deep_view().len() == old(v).deep_view().len() + 1,
{
    proof {
        lemma_str_at(old(v).deep_view(), name@);
    }
    let n = v.len();
    let mut idx: usize = 0;
    while idx < n && str_le(&v[idx], &name)
        invariant
            idx <= n,
            n == v@.len(),
            v == old(v),
            sorted_unique(v.deep_view()),
            forall|i: int| 0 <= i < v.deep_view().len() ==> #[trigger] v.deep_view()[i] != name@,
            forall|j: int| 0 <= j < idx ==> lex_lt(#[trigger] v.deep_view()[j], name@),
        decreases n - idx,
    {
        idx = idx + 1;
    }
    let ghost prior = v.deep_view();
    let ghost nv = name@;
    proof {
        if idx < n {
            lemma_lex_total(prior[idx as int], nv);
            assert(lex_lt(nv, prior[idx as int]));
        }
    }
    v.insert(idx, name);
    proof {
        let post = v.deep_view();
        assert(post =~= prior.insert(idx as int, nv));
        assert forall|i: int, j: int| 0 <= i < j < post.len() implies lex_lt(
            #[trigger] post[i],
            #[trigger] post[j],
        ) by {
            let d = idx as int;
            if i < d && j == d {
                assert(post[i] == prior[i]);
            } else if i == d && j > d {
                assert(post[j] == prior[j - 1]);
                if j - 1 > d {
                    assert(lex_lt(nv, prior[d]));
                    assert(lex_lt(prior[d], prior[j - 1]));
                    lemma_lex_lt_trans(nv, prior[d], prior[j - 1]);
                }
            } else if i < d && j > d {
                assert(post[i] == prior[i] && post[j] == prior[j - 1]);
            } else if i < d && j < d {
                assert(post[i] == prior[i] && post[j] == prior[j]);
            } else {
                assert(post[i] == prior[i - 1] && post[j] == prior[j - 1]);
            }
        }
        assert forall|x: Seq<char>| #[trigger]
            has_str(post, x) <==> has_str(prior, x) || x == nv by {
            lemma_str_at(post, x);
            lemma_str_at(prior, x);
            if has_str(post, x) {
                let i = str_at(post, x);
                if i < idx as int {
                    assert(prior[i] == x);
                } else if i > idx as int {
                    assert(prior[i - 1] == x);
                }
            }
            if has_str(prior, x) {
                let i = str_at(prior, x);
                if i < idx as int {
                    assert(post[i] == x);
                } else {
                    assert(post[i + 1] == x);
                }
            }
            if x == nv {
                assert(post[idx as int] == x);
            }
        }
    }
}

/// A sorted copy of a duplicate-free roster: same names, ascending.
fn sorted_copy(v: &Vec<String>) -> (r: Vec<String>)
    requires
        unique_strs(v.deep_view()),
    ensures
        sorted_unique(r.deep_view()),
        forall|x: Seq<char>| #[trigger] has_str(r.deep_view(), x) <==> has_str(v.deep_view(), x),
{
    let mut r: Vec<String> = Vec::new();
    let n = v.len();
    for i in 0..n
        invariant
            n == v@.len(),
            unique_strs(v.deep_view()),
            sorted_unique(r.deep_view()),
            forall|x: Seq<char>| #[trigger]
                has_str(r.deep_view(), x) <==> has_str(v.deep_view().take(i as int), x),
    {
        let ghost pre = r.deep_view();
        let ghost dv = v.deep_view();
        proof {
            lemma_str_at(pre, dv[i as int]);
            if has_str(pre, dv[i as int]) {
                lemma_str_at(dv.take(i as int), dv[i as int]);
                let t = str_at(dv.take(i as int), dv[i as int]);
                assert(dv[t] == dv[i as int]);
            }
            assert(!has_str(pre, dv[i as int]));
        }
        insert_sorted(&mut r, v[i].clone());
        proof {
            assert forall|x: Seq<char>| #[trigger]
                has_str(r.deep_view(), x) <==> has_str(dv.take(i + 1), x) by {
                lemma_str_at(dv.take(i + 1), x);
                lemma_str_at(dv.take(i as int), x);
                if has_str(dv.take(i + 1), x) {
                    let t = str_at(dv.take(i + 1), x);
                    if t < i as int {
                        assert(dv.take(i as int)[t] == x);
                    }
                }
                if has_str(dv.take(i as int), x) {
                    let t = str_at(dv.take(i as int), x);
                    assert(dv.take(i + 1)[t] == x);
                }
                if x == dv[i as int] {
                    assert(dv.take(i + 1)[i as int] == x);
                }
            }
        }
    }
    proof {
        assert(v.deep_view().take(n as int) =~= v.deep_view());
    }
    r
}

/// What to do with one pending connection after its first frame: keep
/// waiting, drop it, or admit it with the asset backlog to send first.
#[derive(Debug, Clone, PartialEq, Eq)]
pub enum AdmitDecision {
    Requeue,
    Discard,
    Admit { username: String, catch_up: Vec<Event> },
}

/// Ghost model of an [`AdmitDecision`].
#[verifier::ext_equal]
pub ghost enum DecisionV {
    Requeue,
    Discard,
    Admit { username: Seq<char>, catch_up: Seq<EventV> },
}

impl View for AdmitDecision {
    type V = DecisionV;

    open spec fn view(&self) -> DecisionV {
        match self {
            AdmitDecision::Requeue => DecisionV::Requeue,
            AdmitDecision::Discard => DecisionV::Discard,
            AdmitDecision::Admit { username, catch_up } => DecisionV::Admit {
                username: username@,
                catch_up: evs_view(catch_up@),
            },
        }
    }
}

/// The catch-up backlog for a newly admitted peer: one ImageUpload
/// per stored asset, in store order, before any other traffic.
pub open spec fn catchup_of(assets: Seq<(Seq<char>, Seq<u8>)>) -> Seq<EventV> {
    Seq::new(
        assets.len(),
        |t: int|
            EventV {
                source: "_server"@,
                data: EventDataV::ImageUpload { name: assets[t].0, image: assets[t].1 },
            },
    )
}

/// The model of an optional first frame.
pub open spec fn oe_view(o: Option<Event>) -> Option<EventV> {
    match o {
        Some(e) => Some(e@),
        None => None,
    }
}

/// How one admission attempt changes the server: only a Connect whose
/// username has no live connection registers it; the first admitted
/// username becomes the owner.
pub open spec fn admit_sv(sv: ServerV, oe: Option<EventV>) -> ServerV {
    match oe {
        Some(e) => match e.data {
            EventDataV::Connection { username } => if has_str(sv.clients, username) {
                sv
            } else {
                ServerV {
                    clients: sv.clients.push(username),
                    owner: if sv.owner == Seq::<char>::empty() {
                        username
                    } else {
                        sv.owner
                    },
                    ..sv
                }
            },
            _ => sv,
        },
        None => sv,
    }
}

/// The decision for one admission attempt: no frame yet means keep
/// waiting; a first frame that is not a Connect, or a Connect for a
/// username with a live connection, discards the socket; a fresh
/// Connect admits it with the asset backlog.
pub open spec fn admit_dec(sv: ServerV, oe: Option<EventV>) -> DecisionV {
    match oe {
        Some(e) => match e.data {
            EventDataV::Connection { username } => if has_str(sv.clients, username) {
                DecisionV::Discard
            } else {
                DecisionV::Admit { username, catch_up: catchup_of(sv.assets) }
            },
            _ => DecisionV::Discard,
        },
        None => DecisionV::Requeue,
    }
}

impl Server {
    /// The asset backlog as events, for catch-up of a fresh peer.
    fn catch_up_events(&self) -> (r: Vec<Event>)
        ensures
            evs_view(r@) == catchup_of(self@.assets),
    {
        let mut r: Vec<Event> = Vec::new();
        let n = self.assets.entries.len();
        for i in 0..n
            invariant
                n == self@.assets.len(),
                r@.len() == i,
                evs_view(r@) =~= catchup_of(self@.assets).take(i as int),
        {
            let name = self.assets.entries[i].0.clone();
            let image = clone_bytes(&self.assets.entries[i].1);
            let ghost pre = evs_view(r@);
            r.push(Event { source: "_server".to_owned(), data: EventData::ImageUpload { name, image } });
            proof {
                let cv = catchup_of(self@.assets);
                assert(r@.len() == i + 1);
                assert(self@.assets[i as int] == (
                    self.assets.entries@[i as int].0@,
                    self.assets.entries@[i as int].1@,
                ));
                assert(r@[i as int]@ =~= cv[i as int]);
                assert forall|j: int| 0 <= j <= i implies evs_view(r@)[j] == cv[j] by {
                    if j < i {
                        assert(evs_view(r@)[j] == r@[j]@);
                        assert(pre[j] == cv.take(i as int)[j]);
                    }
                }
                assert(evs_view(r@) =~= cv.take(i + 1));
            }
        }
        proof {
            assert(catchup_of(self@.assets).take(n as int) =~= catchup_of(self@.assets));
            assert(evs_view(r@) == catchup_of(self@.assets));
        }
        r
    }

    /// Processes one queued connection's first frame, exactly as
    /// `admit_sv` and `admit_dec` describe. A Connect for a username
    /// that already has a live connection is a no-op: the original
    /// connection is kept and the new socket is discarded.
    pub fn admit_pending(&mut self, first: Option<Event>) -> (r: AdmitDecision)
        ensures
            final(self)@ == admit_sv(old(self)@, oe_view(first)),
            r@ == admit_dec(old(self)@, oe_view(first)),
            old(self)@.wf() ==> final(self)@.wf(),
    {
        let ghost prior = self@;
        let ghost ov = oe_view(first);
        match first {
            None => {
                proof {
                    assert(self@ =~= admit_sv(prior, ov));
                }
                AdmitDecision::Requeue
            },
            Some(e) => {
                let Event { source: _, data } = e;
                match data {
                    EventData::Connection { username } => {
                        if roster_contains(&self.clients, &username) {
                            proof {
                                assert(self@ =~= admit_sv(prior, ov));
                            }
                            AdmitDecision::Discard
                        } else {
                            if self.owner.as_str().is_empty() {
                                proof {
                                    assert(prior.owner =~= Seq::<char>::empty());
                                }
                                self.owner = username.clone();
                            } else {
                                proof {
                                    assert(prior.owner != Seq::<char>::empty());
                                }
                            }
                            let catch_up = self.catch_up_events();
                            self.clients.push(username.clone());
                            proof {
                                assert(self@.clients =~= prior.clients.push(username@));
                                assert(self@ =~= admit_sv(prior, ov));
                                if prior.wf() {
                                    lemma_str_at(prior.clients, username@);
                                    assert forall|a: int, b: int|
                                        0 <= a < b < self@.clients.len() implies self@.clients[a]
                                        != self@.clients[b] by {
                                        if b < prior.clients.len() {
                                            assert(prior.clients[a] != prior.clients[b]);
                                        } else {
                                            assert(self@.clients[b] == username@);
                                            assert(self@.clients[a] == prior.clients[a]);
                                        }
                                    }
                                }
                            }
                            AdmitDecision::Admit { username, catch_up }
                        }
                    },
                    _ => {
                        proof {
                            assert(self@ =~= admit_sv(prior, ov));
                        }
                        AdmitDecision::Discard
                    },
                }
            },
        }
    }
}

/// Membership after an overwrite-or-append, and uniqueness.
pub proof fn lemma_set_assoc_has<T>(s: Seq<(Seq<char>, T)>, k: Seq<char>, v: T, x: Seq<char>)
    ensures
        has_name(set_assoc(s, k, v), x) <==> has_name(s, x) || x == k,
        unique_names(s) ==> unique_names(set_assoc(s, k, v)),
{
    lemma_key_at(s, k);
    let t = set_assoc(s, k, v);
    lemma_key_at(s, x);
    lemma_key_at(t, x);
    if has_name(s, k) {
        assert(s[key_at(s, k)].0 == k);
        if has_name(t, x) {
            let i = key_at(t, x);
            assert(t[i].0 == s[i].0 || t[i].0 == k);
            if t[i].0 == s[i].0 {
            } else {
                assert(s[key_at(s, k)].0 == x);
            }
        }
        if has_name(s, x) {
            let i = key_at(s, x);
            if i == key_at(s, k) {
                assert(s[i].0 == k);
            } else {
                assert(t[i].0 == s[i].0);
            }
        }
        if x == k {
            assert(t[key_at(s, k)].0 == k);
        }
        if unique_names(s) {
            assert forall|a: int, b: int| 0 <= a < b < t.len() implies t[a].0 != t[b].0 by {
                assert(t[a].0 == s[a].0 && t[b].0 == s[b].0);
            }
        }
    } else {
        if has_name(t, x) {
            let i = key_at(t, x);
            if i < s.len() {
                assert(t[i] == s[i]);
            }
        }
        if has_name(s, x) {
            let i = key_at(s, x);
            assert(t[i] == s[i]);
        }
        if x == k {
            assert(t[s.len() as int].0 == k);
        }
        if unique_names(s) {
            assert forall|a: int, b: int| 0 <= a < b < t.len() implies t[a].0 != t[b].0 by {
                if b < s.len() {
                    assert(s[a].0 != s[b].0);
                } else {
                    assert(t[b].0 == k);
                    assert(t[a].0 == s[a].0);
                }
            }
        }
    }
}

/// Removing one string keeps a duplicate-free roster duplicate-free.
pub proof fn lemma_remove_str_unique(s: Seq<Seq<char>>, x: Seq<char>)
    requires
        unique_strs(s),
    ensures
        unique_strs(remove_str(s, x)),
{
    lemma_str_at(s, x);
    if has_str(s, x) {
        let d = str_at(s, x);
        let t = s.remove(d);
        assert forall|a: int, b: int| 0 <= a < b < t.len() implies t[a] != t[b] by {
            let sa = if a < d {
                a
            } else {
                a + 1
            };
            let sb = if b < d {
                b
            } else {
                b + 1
            };
            assert(t[a] == s[sa] && t[b] == s[sb]);
        }
    }
}

/// Reduction keeps the owner, and keeps the roster duplicate-free.
pub proof fn lemma_reduce_clients(sv: ServerV, evs: Seq<EventV>)
    ensures
        reduce(sv, evs).owner == sv.owner,
        unique_strs(sv.clients) ==> unique_strs(reduce(sv, evs).clients),
    decreases evs.len(),
{
    if evs.len() > 0 {
        let nxt = ev_step(sv, evs[0]);
        if !sv.shutdown {
            match evs[0].data {
                EventDataV::Disconnection { username } => {
                    if unique_strs(sv.clients) {
                        lemma_remove_str_unique(sv.clients, username);
                    }
                },
                _ => {},
            }
        }
        lemma_reduce_clients(nxt, evs.drop_first());
    }
}

/// One admission attempt keeps the roster duplicate-free.
pub proof fn lemma_admit_sv_unique(sv: ServerV, oe: Option<EventV>)
    requires
        unique_strs(sv.clients),
    ensures
        unique_strs(admit_sv(sv, oe).clients),
{
    match oe {
        Some(e) => match e.data {
            EventDataV::Connection { username } => {
                if !has_str(sv.clients, username) {
                    lemma_str_at(sv.clients, username);
                    let t = sv.clients.push(username);
                    assert forall|a: int, b: int| 0 <= a < b < t.len() implies t[a] != t[b] by {
                        if b < sv.clients.len() {
                            assert(sv.clients[a] != sv.clients[b]);
                        } else {
                            assert(t[b] == username);
                            assert(t[a] == sv.clients[a]);
                        }
                    }
                }
            },
            _ => {},
        },
        None => {},
    }
}

/// Reduction never removes an asset: a stored name stays stored.
pub proof fn lemma_reduce_keeps_asset(sv: ServerV, evs: Seq<EventV>, k: Seq<char>)
    requires
        has_name(sv.assets, k),
    ensures
        has_name(reduce(sv, evs).assets, k),
    decreases evs.len(),
{
    if evs.len() > 0 {
        let nxt = ev_step(sv, evs[0]);
        if !sv.shutdown {
            match evs[0].data {
                EventDataV::ImageUpload { name, image } => {
                    lemma_set_assoc_has(sv.assets, name, image, k);
                },
                _ => {},
            }
        }
        lemma_reduce_keeps_asset(nxt, evs.drop_first(), k);
    }
}

/// Every name this tick uploads is stored by the time the reduction
/// ends — so the fan-out after the tick can read its bytes.
pub proof fn lemma_uploads_in_assets(sv: ServerV, evs: Seq<EventV>)
    ensures
        forall|t: int|
            0 <= t < uploads_of(sv, evs).len() ==> has_name(
                reduce(sv, evs).assets,
                #[trigger] uploads_of(sv, evs)[t],
            ),
    decreases evs.len(),
{
    if evs.len() > 0 && !sv.shutdown {
        let nxt = ev_step(sv, evs[0]);
        let rest = evs.drop_first();
        lemma_uploads_in_assets(nxt, rest);
        assert forall|t: int|
            0 <= t < uploads_of(sv, evs).len() implies has_name(
            reduce(sv, evs).assets,
            #[trigger] uploads_of(sv, evs)[t],
        ) by {
            match evs[0].data {
                EventDataV::ImageUpload { name, image } => {
                    if t == 0 {
                        lemma_set_assoc_has(sv.assets, name, image, name);
                        lemma_reduce_keeps_asset(nxt, rest, name);
                    } else {
                        assert(uploads_of(sv, evs)[t] == uploads_of(nxt, rest)[t - 1]);
                    }
                },
                _ => {
                    assert(uploads_of(sv, evs)[t] == uploads_of(nxt, rest)[t]);
                },
            }
        }
    }
}

/// The shape of one tick's broadcast: a full snapshot, the sorted
/// roster, then one ImageUpload per name uploaded this tick, all from
/// the reserved server source.
pub open spec fn broadcast_ok(bs: Seq<EventV>, sv: ServerV, ups: Seq<Seq<char>>) -> bool {
    &&& bs.len() == 2 + ups.len()
    &&& bs[0].source == "_server"@
    &&& bs[0].data == (EventDataV::SendState { state: sv.state })
    &&& bs[1].source == "_server"@
    &&& bs[1].data matches EventDataV::PersonalUpdate { people } && sorted_unique(people) && (
    forall|x: Seq<char>| #[trigger] has_str(people, x) <==> has_str(sv.clients, x))
    &&& forall|t: int|
        0 <= t < ups.len() ==> (#[trigger] bs[2 + t]).source == "_server"@ && bs[2 + t].data == (
        EventDataV::ImageUpload { name: ups[t], image: name_val(sv.assets, ups[t]) })
}

impl Server {
    /// Builds the broadcast for a tick that mutated state: a SendState
    /// with the full snapshot, a PersonalUpdate with the sorted list
    /// of connected usernames, and an ImageUpload for each name
    /// uploaded during the tick (to every peer, the uploader too).
    pub fn plan_broadcast(&self, uploads: &Vec<String>) -> (r: Vec<Event>)
        requires
            unique_strs(self@.clients),
            forall|t: int|
                0 <= t < uploads.deep_view().len() ==> has_name(
                    self@.assets,
                    #[trigger] uploads.deep_view()[t],
                ),
        ensures
            broadcast_ok(evs_view(r@), self@, uploads.deep_view()),
    {
        let mut r: Vec<Event> = Vec::new();
        r.push(
            Event {
                source: "_server".to_owned(),
                data: EventData::SendState { state: self.state.duplicate() },
            },
        );
        let people = sorted_copy(&self.clients);
        r.push(Event { source: "_server".to_owned(), data: EventData::PersonalUpdate { people } });
        proof {
            assert(r@[0]@.data =~= (EventDataV::SendState { state: self@.state }));
        }
        let n = uploads.len();
        let mut t: usize = 0;
        while t < n
            invariant
                n == uploads@.len(),
                t <= n,
                r@.len() == 2 + t,
                forall|u: int|
                    0 <= u < uploads.deep_view().len() ==> has_name(
                        self@.assets,
                        #[trigger] uploads.deep_view()[u],
                    ),
                evs_view(r@)[0].source == "_server"@,
                evs_view(r@)[0].data == (EventDataV::SendState { state: self@.state }),
                evs_view(r@)[1].source == "_server"@,
                evs_view(r@)[1].data matches EventDataV::PersonalUpdate { people }
                    && sorted_unique(people) && (forall|x: Seq<char>| #[trigger]
                    has_str(people, x) <==> has_str(self@.clients, x)),
                forall|u: int|
                    0 <= u < t ==> (#[trigger] evs_view(r@)[2 + u]).source == "_server"@ && evs_view(
                        r@,
                    )[2 + u].data == (EventDataV::ImageUpload {
                        name: uploads.deep_view()[u],
                        image: name_val(self@.assets, uploads.deep_view()[u]),
                    }),
            decreases n - t,
        {
            let name = &uploads[t];
            proof {
                assert(uploads.deep_view()[t as int] == uploads@[t as int]@);
                assert(has_name(self@.assets, name@));
            }
            let ghost pre_r = r@;
            match self.assets.get_name(name) {
                Some(b) => {
                    let img = clone_bytes(b);
                    r.push(
                        Event {
                            source: "_server".to_owned(),
                            data: EventData::ImageUpload { name: name.clone(), image: img },
                        },
                    );
                    proof {
                        assert(evs_view(r@)[2 + t as int].source == "_server"@);
                        assert(evs_view(r@)[2 + t as int].data =~= (EventDataV::ImageUpload {
                            name: uploads.deep_view()[t as int],
                            image: name_val(self@.assets, uploads.deep_view()[t as int]),
                        }));
                        assert forall|u: int| 0 <= u < 2 + t implies (#[trigger] evs_view(r@)[u])
                            == evs_view(pre_r)[u] by {
                            assert(r@[u] == pre_r[u]);
                        }
                    }
                },
                None => {
                    proof {
                        assert(false);
                    }
                },
            }
            t = t + 1;
        }
        proof {
            assert(evs_view(r@).len() == 2 + uploads.deep_view().len());
            assert(broadcast_ok(evs_view(r@), self@, uploads.deep_view()));
        }
        r
    }
}

/// The models of a tick's admission inputs.
pub open spec fn oes_view(v: Seq<Option<Event>>) -> Seq<Option<EventV>> {
    Seq::new(v.len(), |i: int| oe_view_g(v[i]))
}

/// The model of one optional event (ghost form).
pub open spec fn oe_view_g(o: Option<Event>) -> Option<EventV> {
    match o {
        Some(e) => Some(e@),
        None => None,
    }
}

/// Folds a tick's admission attempts, in queue order.
pub open spec fn admit_seq(sv: ServerV, os: Seq<Option<EventV>>) -> ServerV
    decreases os.len(),
{
    if os.len() == 0 {
        sv
    } else {
        admit_seq(admit_sv(sv, os[0]), os.drop_first())
    }
}

/// The decisions the fold takes, one per queued connection.
pub open spec fn admit_decs(sv: ServerV, os: Seq<Option<EventV>>) -> Seq<DecisionV>
    decreases os.len(),
{
    if os.len() == 0 {
        Seq::empty()
    } else {
        seq![admit_dec(sv, os[0])] + admit_decs(admit_sv(sv, os[0]), os.drop_first())
    }
}

/// Whether any attempt of the tick admitted a connection.
pub open spec fn any_admitted(sv: ServerV, os: Seq<Option<EventV>>) -> bool
    decreases os.len(),
{
    if os.len() == 0 {
        false
    } else {
        (admit_dec(sv, os[0]) is Admit) || any_admitted(admit_sv(sv, os[0]), os.drop_first())
    }
}

/// The models of a list of decisions.
pub open spec fn decs_view(v: Seq<AdmitDecision>) -> Seq<DecisionV> {
    Seq::new(v.len(), |i: int| v[i]@)
}

/// What one whole tick produced: the decision for each queued
/// connection in order, the broadcast (empty when nothing mutated),
/// and whether the server now shuts down.
pub struct TickResult {
    pub decisions: Vec<AdmitDecision>,
    pub broadcast: Vec<Event>,
    pub shutdown: bool,
}

impl Server {
    /// One authoritative tick: reduce the inbound events in order;
    /// stop at once if shutdown was requested; otherwise process the
    /// admission queue and, if anything mutated the server, build the
    /// broadcast. A tick that mutated nothing broadcasts nothing.
    pub fn tick(&mut self, inbound: Vec<Event>, admission: Vec<Option<Event>>) -> (r: TickResult)
        requires
            unique_strs(old(self)@.clients),
        ensures
            unique_strs(final(self)@.clients),
            ({
                let mid = reduce(old(self)@, evs_view(inbound@));
                let ups = uploads_of(old(self)@, evs_view(inbound@));
                let muts = any_mutates(old(self)@, evs_view(inbound@));
                &&& r.shutdown == final(self)@.shutdown
                &&& mid.shutdown ==> final(self)@ == mid && r.broadcast@.len() == 0
                    && r.decisions@.len() == 0
                &&& !mid.shutdown ==> {
                    &&& final(self)@ == admit_seq(mid, oes_view(admission@))
                    &&& decs_view(r.decisions@) == admit_decs(mid, oes_view(admission@))
                    &&& (r.broadcast@.len() == 0 <==> !(muts || any_admitted(
                        mid,
                        oes_view(admission@),
                    )))
                    &&& r.broadcast@.len() != 0 ==> broadcast_ok(
                        evs_view(r.broadcast@),
                        final(self)@,
                        ups,
                    )
                }
            }),
    {
        let ghost orig = self@;
        let ghost iv = evs_view(inbound@);
        let (mutated, uploads) = self.apply_events(inbound);
        let ghost mid = self@;
        proof {
            lemma_reduce_clients(orig, iv);
        }
        if self.shutdown {
            return TickResult { decisions: Vec::new(), broadcast: Vec::new(), shutdown: true };
        }
        let ghost ov = oes_view(admission@);
        let mut rest = admission;
        let mut decisions: Vec<AdmitDecision> = Vec::new();
        let mut admitted = false;
        while rest.len() > 0
            invariant
                unique_strs(self@.clients),
                admit_seq(mid, ov) == admit_seq(self@, oes_view(rest@)),
                admit_decs(mid, ov) =~= decs_view(decisions@) + admit_decs(
                    self@,
                    oes_view(rest@),
                ),
                any_admitted(mid, ov) == (admitted || any_admitted(self@, oes_view(rest@))),
                self@.state == mid.state,
                self@.assets == mid.assets,
                self@.shutdown == mid.shutdown,
                !mid.shutdown,
            decreases rest.len(),
        {
            let ghost pre = self@;
            let ghost rv = oes_view(rest@);
            let first = rest.remove(0);
            proof {
                assert(oes_view(rest@) =~= rv.drop_first());
                assert(rv[0] == oe_view_g(first));
            }
            proof {
                lemma_admit_sv_unique(pre, rv[0]);
            }
            let d = self.admit_pending(first);
            let is_admit = match &d {
                AdmitDecision::Admit { .. } => true,
                _ => false,
            };
            admitted = admitted || is_admit;
            let ghost dpre = decs_view(decisions@);
            decisions.push(d);
            proof {
                assert(decs_view(decisions@) =~= dpre + seq![admit_dec(pre, rv[0])]);
                assert(admit_decs(pre, rv) =~= seq![admit_dec(pre, rv[0])] + admit_decs(
                    self@,
                    rv.drop_first(),
                ));
                assert((dpre + seq![admit_dec(pre, rv[0])]) + admit_decs(self@, rv.drop_first())
                    =~= dpre + (seq![admit_dec(pre, rv[0])] + admit_decs(self@, rv.drop_first())));
            }
        }
        proof {
            assert(oes_view(rest@) =~= Seq::<Option<EventV>>::empty());
            assert(decs_view(decisions@) + Seq::<DecisionV>::empty() =~= decs_view(decisions@));
        }
        let changed = mutated || admitted;
        let broadcast: Vec<Event> = if changed {
            proof {
                lemma_uploads_in_assets(orig, iv);
            }
            self.plan_broadcast(&uploads)
        } else {
            Vec::new()
        };
        proof {
            if changed {
                assert(evs_view(broadcast@).len() == 2 + uploads.deep_view().len());
            }
        }
        TickResult { decisions, broadcast, shutdown: self.shutdown }
    }
}

/// Kill events whose source differs from the owner never request
/// shutdown: a reduction that holds no owner-issued Kill leaves the
/// shutdown flag unset, and leaves the owner unchanged.
pub proof fn lemma_no_unauthorized_shutdown(sv: ServerV, evs: Seq<EventV>)
    requires
        !sv.shutdown,
        forall|t: int|
            0 <= t < evs.len() ==> ((#[trigger] evs[t]).data is Kill ==> evs[t].source
                != sv.owner),
    ensures
        !reduce(sv, evs).shutdown,
        reduce(sv, evs).owner == sv.owner,
    decreases evs.len(),
{
    if evs.len() > 0 {
        let nxt = ev_step(sv, evs[0]);
        assert(evs[0].data is Kill ==> evs[0].source != sv.owner);
        assert(!nxt.shutdown && nxt.owner == sv.owner);
        assert forall|t: int|
            0 <= t < evs.drop_first().len() implies ((#[trigger] evs.drop_first()[t]).data
            is Kill ==> evs.drop_first()[t].source != nxt.owner) by {
            assert(evs.drop_first()[t] == evs[t + 1]);
        }
        lemma_no_unauthorized_shutdown(nxt, evs.drop_first());
    }
}

/// A single unauthorized Kill is ignored outright.
pub proof fn lemma_unauthorized_kill_ignored(sv: ServerV, e: EventV)
    requires
        e.data is Kill,
        e.source != sv.owner,
    ensures
        ev_step(sv, e) == sv,
        !ev_mutates(sv, e),
{
}

/// A Connect for a username that already has a live connection is a
/// no-op: the server keeps the original connection and the new socket
/// is discarded.
pub proof fn lemma_duplicate_connect_noop(sv: ServerV, e: EventV)
    requires
        e.data matches EventDataV::Connection { username } && has_str(sv.clients, username),
    ensures
        admit_sv(sv, Some(e)) == sv,
        admit_dec(sv, Some(e)) == DecisionV::Discard,
{
}

/// Applies a run of create attempts for one name, in order.
pub open spec fn apply_creates(st: StateV, name: Seq<char>, cs: Seq<(TokenV, Layer)>) -> StateV
    decreases cs.len(),
{
    if cs.len() == 0 {
        st
    } else {
        apply_creates(st.with_created(name, cs[0].0, cs[0].1), name, cs.drop_first())
    }
}

/// In how many layers the name is held.
pub open spec fn layer_count(st: StateV, name: Seq<char>) -> int {
    (if has_name(st.tokens, name) {
        1int
    } else {
        0int
    }) + (if has_name(st.map, name) {
        1int
    } else {
        0int
    }) + (if has_name(st.gm, name) {
        1int
    } else {
        0int
    })
}

/// Appending a fresh name binds it, to the given value.
pub proof fn lemma_push_val<T>(s: Seq<(Seq<char>, T)>, k: Seq<char>, v: T)
    requires
        !has_name(s, k),
    ensures
        has_name(s.push((k, v)), k),
        name_val(s.push((k, v)), k) == v,
{
    lemma_key_at(s, k);
    let t = s.push((k, v));
    lemma_key_at(t, k);
    assert(t[s.len() as int].0 == k);
    let i = key_at(t, k);
    if i < s.len() {
        assert(s[i] == t[i]);
    }
}

/// Once the name is held somewhere, further create attempts change
/// nothing.
proof fn lemma_creates_noop(st: StateV, name: Seq<char>, cs: Seq<(TokenV, Layer)>)
    requires
        st.has_token(name),
    ensures
        apply_creates(st, name, cs) == st,
    decreases cs.len(),
{
    if cs.len() > 0 {
        lemma_creates_noop(st, name, cs.drop_first());
    }
}

/// However token creations for one name interleave across layers, the
/// first applied one wins: afterwards exactly one layer holds the
/// name, it is the layer the first creation asked for, it holds the
/// first creation's token, and every later creation was dropped.
pub proof fn lemma_first_create_wins(st: StateV, name: Seq<char>, cs: Seq<(TokenV, Layer)>)
    requires
        !st.has_token(name),
        cs.len() > 0,
    ensures
        ({
            let r = apply_creates(st, name, cs);
            &&& layer_count(r, name) == 1
            &&& match cs[0].1 {
                Layer::Base => has_name(r.tokens, name) && name_val(r.tokens, name) == cs[0].0,
                Layer::Board => has_name(r.map, name) && name_val(r.map, name) == cs[0].0,
                Layer::Gm => has_name(r.gm, name) && name_val(r.gm, name) == cs[0].0,
            }
        }),
{
    let st1 = st.with_created(name, cs[0].0, cs[0].1);
    lemma_key_at(st.tokens, name);
    lemma_key_at(st.map, name);
    lemma_key_at(st.gm, name);
    match cs[0].1 {
        Layer::Base => {
            lemma_push_val(st.tokens, name, cs[0].0);
        },
        Layer::Board => {
            lemma_push_val(st.map, name, cs[0].0);
        },
        Layer::Gm => {
            lemma_push_val(st.gm, name, cs[0].0);
        },
    }
    assert(st1.has_token(name));
    lemma_creates_noop(st1, name, cs.drop_first());
    assert(apply_creates(st, name, cs) == st1);
}

} // verus!
