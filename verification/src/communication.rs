//! Data model of the session: tokens, layers, canonical state and events.
//!
//! Every exec type has a ghost model reached through `View`, and the
//! contracts of the whole crate are stated over those models. Token maps
//! are association vectors with unique names, so that insertion order is
//! part of the model and the codec can serialize them deterministically.

use vstd::prelude::*;

verus! {

/// A point on the integer grid of the board.
#[derive(Clone, Copy, Debug, PartialEq, Eq, Structural)]
pub struct Pos {
    pub x: i32,
    pub y: i32,
}

/// One placed token: grid location, integer scale and image reference.
#[derive(Debug, Clone, PartialEq, Eq)]
pub struct Token {
    pub location: Pos,
    pub scale: i32,
    pub image: String,
    pub display_name: String,
}

/// Ghost model of a [`Token`].
#[verifier::ext_equal]
pub ghost struct TokenV {
    pub x: int,
    pub y: int,
    pub scale: int,
    pub image: Seq<char>,
    pub display_name: Seq<char>,
}

impl TokenV {
    /// The data model's constraint on a token: its scale is a
    /// positive integer.
    pub open spec fn wf(self) -> bool {
        self.scale >= 1
    }
}

impl View for Token {
    type V = TokenV;

    open spec fn view(&self) -> TokenV {
        TokenV {
            x: self.location.x as int,
            y: self.location.y as int,
            scale: self.scale as int,
            image: self.image@,
            display_name: self.display_name@,
        }
    }
}

impl Token {
    /// Copies the token; the copy has the same model.
    pub fn duplicate(&self) -> (r: Token)
        ensures
            r@ == self@,
    {
        Token {
            location: self.location,
            scale: self.scale,
            image: self.image.clone(),
            display_name: self.display_name.clone(),
        }
    }
}

/// The three parallel token namespaces composing the board surface.
#[derive(Clone, Copy, Debug, PartialEq, Eq, Structural)]
pub enum Layer {
    Base,
    Board,
    Gm,
}

/// First position holding name `k` in an association sequence, or -1.
pub open spec fn key_at<T>(s: Seq<(Seq<char>, T)>, k: Seq<char>) -> int
    decreases s.len(),
{
    if s.len() == 0 {
        -1
    } else if s[0].0 == k {
        0
    } else {
        let r = key_at(s.drop_first(), k);
        if r < 0 {
            -1
        } else {
            r + 1
        }
    }
}

/// Whether name `k` occurs in the association sequence.
pub open spec fn has_name<T>(s: Seq<(Seq<char>, T)>, k: Seq<char>) -> bool {
    key_at(s, k) >= 0
}

/// The value bound to name `k` (meaningful only when `has_name`).
pub open spec fn name_val<T>(s: Seq<(Seq<char>, T)>, k: Seq<char>) -> T {
    s[key_at(s, k)].1
}

/// No name occurs twice.
pub open spec fn unique_names<T>(s: Seq<(Seq<char>, T)>) -> bool {
    forall|i: int, j: int| 0 <= i < j < s.len() ==> s[i].0 != s[j].0
}

/// Every token of a layer map meets the data model.
pub open spec fn tokens_wf(s: Seq<(Seq<char>, TokenV)>) -> bool {
    forall|i: int| 0 <= i < s.len() ==> (#[trigger] s[i]).1.wf()
}

/// `key_at` finds the first occurrence of a name, and -1 exactly when
/// the name is absent.
pub proof fn lemma_key_at<T>(s: Seq<(Seq<char>, T)>, k: Seq<char>)
    ensures
        key_at(s, k) == -1 <==> (forall|i: int| 0 <= i < s.len() ==> s[i].0 != k),
        key_at(s, k) != -1 ==> 0 <= key_at(s, k) < s.len() && s[key_at(s, k)].0 == k,
        key_at(s, k) != -1 ==> (forall|i: int| 0 <= i < key_at(s, k) ==> s[i].0 != k),
    decreases s.len(),
{
    if s.len() != 0 {
        let t = s.drop_first();
        lemma_key_at(t, k);
        assert(forall|i: int| 0 <= i < t.len() ==> t[i] == s[i + 1]);
        if s[0].0 != k {
            if key_at(t, k) == -1 {
                assert forall|i: int| 0 <= i < s.len() implies s[i].0 != k by {
                    if i > 0 {
                        assert(t[i - 1] == s[i]);
                    }
                }
            } else {
                assert(s[key_at(s, k)] == t[key_at(t, k)]);
                assert forall|i: int| 0 <= i < key_at(s, k) implies s[i].0 != k by {
                    if i > 0 {
                        assert(t[i - 1] == s[i]);
                    }
                }
            }
        }
    }
}

/// With unique names, any position whose name is `k` is `key_at`.
pub proof fn lemma_key_at_unique<T>(s: Seq<(Seq<char>, T)>, k: Seq<char>, i: int)
    requires
        unique_names(s),
        0 <= i < s.len(),
        s[i].0 == k,
    ensures
        key_at(s, k) == i,
{
    lemma_key_at(s, k);
}

/// An association map from names to values, keeping insertion order.
#[derive(Debug, Clone, PartialEq, Eq)]
pub struct NameMap<V> {
    pub entries: Vec<(String, V)>,
}

impl<V: View> View for NameMap<V> {
    type V = Seq<(Seq<char>, <V as View>::V)>;

    open spec fn view(&self) -> Self::V {
        Seq::new(self.entries@.len(), |i: int| (self.entries@[i].0@, self.entries@[i].1.view()))
    }
}

impl<V: View> NameMap<V> {
    /// The well-formedness of a map: names are unique.
    pub open spec fn wf(&self) -> bool {
        unique_names(self@)
    }

    /// An empty map.
    pub fn new() -> (r: Self)
        ensures
            r@ =~= Seq::<(Seq<char>, <V as View>::V)>::empty(),
            r.wf(),
    {
        NameMap { entries: Vec::new() }
    }

    /// Number of entries.
    pub fn len(&self) -> (r: usize)
        ensures
            r == self@.len(),
    {
        self.entries.len()
    }

    /// Position of the first entry named `k`, if any.
    pub fn index_of(&self, k: &String) -> (r: Option<usize>)
        ensures
            r is Some <==> has_name(self@, k@),
            r matches Some(i) ==> i as int == key_at(self@, k@),
    {
        proof {
            lemma_key_at(self@, k@);
        }
        let n = self.entries.len();
        for i in 0..n
            invariant
                n == self@.len(),
                forall|j: int| 0 <= j < i ==> self@[j].0 != k@,
        {
            if self.entries[i].0 == *k {
                proof {
                    lemma_key_at(self@, k@);
                    assert(self@[i as int].0 == k@);
                }
                return Some(i);
            }
        }
        None
    }

    /// Whether the map holds an entry named `k`.
    pub fn contains_name(&self, k: &String) -> (r: bool)
        ensures
            r == has_name(self@, k@),
    {
        self.index_of(k).is_some()
    }

    /// The value bound to `k`, if any.
    pub fn get_name(&self, k: &String) -> (r: Option<&V>)
        ensures
            r is Some <==> has_name(self@, k@),
            r matches Some(v) ==> v.view() == name_val(self@, k@),
    {
        proof {
            lemma_key_at(self@, k@);
        }
        match self.index_of(k) {
            Some(i) => Some(&self.entries[i].1),
            None => None,
        }
    }

    /// Binds `k` to `v`: overwrites the existing entry in place, or
    /// appends a new one.
    pub fn set_name(&mut self, k: &String, v: V)
        ensures
            has_name(old(self)@, k@) ==> final(self)@ =~= old(self)@.update(
                key_at(old(self)@, k@),
                (k@, v.view()),
            ),
            !has_name(old(self)@, k@) ==> final(self)@ =~= old(self)@.push((k@, v.view())),
            old(self).wf() ==> final(self).wf(),
    {
        proof {
            lemma_key_at(old(self)@, k@);
        }
        match self.index_of(k) {
            Some(i) => {
                let pair = self.entries.remove(i);
                self.entries.insert(i, (pair.0, v));
                proof {
                    assert(self@ =~= old(self)@.update(i as int, (k@, v.view())));
                }
            },
            None => {
                self.entries.push((k.clone(), v));
            },
        }
    }

    /// Overwrites the entry named `k` when present; otherwise leaves the
    /// map unchanged. Returns whether an entry was overwritten.
    pub fn set_existing(&mut self, k: &String, v: V) -> (r: bool)
        ensures
            r == has_name(old(self)@, k@),
            r ==> final(self)@ =~= old(self)@.update(key_at(old(self)@, k@), (k@, v.view())),
            !r ==> final(self)@ =~= old(self)@,
            old(self).wf() ==> final(self).wf(),
    {
        proof {
            lemma_key_at(old(self)@, k@);
        }
        match self.index_of(k) {
            Some(i) => {
                let pair = self.entries.remove(i);
                self.entries.insert(i, (pair.0, v));
                proof {
                    assert(self@ =~= old(self)@.update(i as int, (k@, v.view())));
                }
                true
            },
            None => false,
        }
    }

    /// Removes the entry named `k` when present (idempotent). Returns
    /// whether an entry was removed.
    pub fn remove_name(&mut self, k: &String) -> (r: bool)
        ensures
            r == has_name(old(self)@, k@),
            r ==> final(self)@ =~= old(self)@.remove(key_at(old(self)@, k@)),
            !r ==> final(self)@ =~= old(self)@,
            old(self).wf() ==> final(self).wf(),
    {
        proof {
            lemma_key_at(old(self)@, k@);
        }
        match self.index_of(k) {
            Some(i) => {
                self.entries.remove(i);
                proof {
                    assert(self@ =~= old(self)@.remove(i as int));
                    if unique_names(old(self)@) {
                        assert forall|a: int, b: int|
                            0 <= a < b < self@.len() implies self@[a].0 != self@[b].0 by {
                            if b < i as int {
                                assert(old(self)@[a].0 != old(self)@[b].0);
                            } else if a < i as int {
                                assert(old(self)@[a].0 != old(self)@[b + 1].0);
                            } else {
                                assert(old(self)@[a + 1].0 != old(self)@[b + 1].0);
                            }
                        }
                    }
                }
                true
            },
            None => false,
        }
    }
}

/// Updates the value of name `k` when present, otherwise no change.
pub open spec fn upd_if<T>(s: Seq<(Seq<char>, T)>, k: Seq<char>, v: T) -> Seq<(Seq<char>, T)> {
    if has_name(s, k) {
        s.update(key_at(s, k), (k, v))
    } else {
        s
    }
}

/// Removes the entry of name `k` when present, otherwise no change.
pub open spec fn rem_if<T>(s: Seq<(Seq<char>, T)>, k: Seq<char>) -> Seq<(Seq<char>, T)> {
    if has_name(s, k) {
        s.remove(key_at(s, k))
    } else {
        s
    }
}

/// The canonical session state: chat log, one token map per layer, and
/// the session name.
#[derive(Debug, Clone, PartialEq, Eq)]
pub struct State {
    pub messages: Vec<(String, String)>,
    pub tokens: NameMap<Token>,
    pub map: NameMap<Token>,
    pub gm: NameMap<Token>,
    pub name: String,
}

/// Ghost model of a [`State`].
#[verifier::ext_equal]
pub ghost struct StateV {
    pub messages: Seq<(Seq<char>, Seq<char>)>,
    pub tokens: Seq<(Seq<char>, TokenV)>,
    pub map: Seq<(Seq<char>, TokenV)>,
    pub gm: Seq<(Seq<char>, TokenV)>,
    pub name: Seq<char>,
}

impl View for State {
    type V = StateV;

    open spec fn view(&self) -> StateV {
        StateV {
            messages: self.messages.deep_view(),
            tokens: self.tokens@,
            map: self.map@,
            gm: self.gm@,
            name: self.name@,
        }
    }
}

impl StateV {
    /// Whether any layer holds a token of this name.
    pub open spec fn has_token(self, name: Seq<char>) -> bool {
        has_name(self.tokens, name) || has_name(self.map, name) || has_name(self.gm, name)
    }

    /// Well-formedness: unique names within each layer, no name held
    /// by two layers at once, and every token meeting the data model.
    pub open spec fn wf(self) -> bool {
        &&& unique_names(self.tokens)
        &&& unique_names(self.map)
        &&& unique_names(self.gm)
        &&& tokens_wf(self.tokens)
        &&& tokens_wf(self.map)
        &&& tokens_wf(self.gm)
        &&& forall|k: Seq<char>|
            #[trigger] has_name(self.tokens, k) ==> !has_name(self.map, k) && !has_name(
                self.gm,
                k,
            )
        &&& forall|k: Seq<char>| #[trigger] has_name(self.map, k) ==> !has_name(self.gm, k)
    }

    /// Appends one chat line.
    pub open spec fn with_message(self, from: Seq<char>, contents: Seq<char>) -> StateV {
        StateV { messages: self.messages.push((from, contents)), ..self }
    }

    /// Inserts a token into the requested layer, unless the name is held
    /// by any layer already (first writer wins).
    pub open spec fn with_created(self, name: Seq<char>, tok: TokenV, layer: Layer) -> StateV {
        if self.has_token(name) {
            self
        } else {
            match layer {
                Layer::Base => StateV { tokens: self.tokens.push((name, tok)), ..self },
                Layer::Board => StateV { map: self.map.push((name, tok)), ..self },
                Layer::Gm => StateV { gm: self.gm.push((name, tok)), ..self },
            }
        }
    }

    /// Overwrites the token of this name wherever it is held; absent
    /// names change nothing.
    pub open spec fn with_moved(self, name: Seq<char>, tok: TokenV) -> StateV {
        StateV {
            tokens: upd_if(self.tokens, name, tok),
            map: upd_if(self.map, name, tok),
            gm: upd_if(self.gm, name, tok),
            ..self
        }
    }

    /// Removes the name from every layer (idempotent).
    pub open spec fn with_destroyed(self, name: Seq<char>) -> StateV {
        StateV {
            tokens: rem_if(self.tokens, name),
            map: rem_if(self.map, name),
            gm: rem_if(self.gm, name),
            ..self
        }
    }
}

impl Default for State {
    /// The default state is the empty state of [`State::new`].
    fn default() -> (r: State)
        ensures
            r@.messages == Seq::<(Seq<char>, Seq<char>)>::empty(),
            r@.tokens == Seq::<(Seq<char>, TokenV)>::empty(),
            r@.map == Seq::<(Seq<char>, TokenV)>::empty(),
            r@.gm == Seq::<(Seq<char>, TokenV)>::empty(),
            r@.name == Seq::<char>::empty(),
            r@.wf(),
    {
        State::new()
    }
}

impl State {
    /// An empty session state.
    pub fn new() -> (r: Self)
        ensures
            r@.messages == Seq::<(Seq<char>, Seq<char>)>::empty(),
            r@.tokens == Seq::<(Seq<char>, TokenV)>::empty(),
            r@.map == Seq::<(Seq<char>, TokenV)>::empty(),
            r@.gm == Seq::<(Seq<char>, TokenV)>::empty(),
            r@.name == Seq::<char>::empty(),
            r@.wf(),
    {
        let r = State {
            name: String::new(),
            messages: Vec::new(),
            tokens: NameMap::new(),
            map: NameMap::new(),
            gm: NameMap::new(),
        };
        proof {
            assert(r@.messages =~= Seq::<(Seq<char>, Seq<char>)>::empty());
        }
        r
    }

    /// Appends one chat line to the log.
    pub fn push_message(&mut self, from: String, contents: String)
        ensures
            final(self)@ == old(self)@.with_message(from@, contents@),
    {
        let ghost prior = self@;
        self.messages.push((from, contents));
        proof {
            assert(self@.messages =~= prior.messages.push((from@, contents@)));
            assert(self@ =~= prior.with_message(from@, contents@));
        }
    }

    /// Creates a token in the requested layer if the name is free in all
    /// layers; returns whether it was inserted.
    pub fn create_token(&mut self, name: &String, token: Token, layer: Layer) -> (r: bool)
        ensures
            final(self)@ == old(self)@.with_created(name@, token@, layer),
            r == !old(self)@.has_token(name@),
            old(self)@.wf() && token@.wf() ==> final(self)@.wf(),
    {
        let ghost prior = self@;
        if self.tokens.contains_name(name) || self.map.contains_name(name)
            || self.gm.contains_name(name) {
            proof {
                assert(self@ =~= prior.with_created(name@, token@, layer));
            }
            return false;
        }
        match layer {
            Layer::Base => {
                self.tokens.set_name(name, token);
            },
            Layer::Board => {
                self.map.set_name(name, token);
            },
            Layer::Gm => {
                self.gm.set_name(name, token);
            },
        }
        proof {
            assert(self@ =~= prior.with_created(name@, token@, layer));
            if prior.wf() && token@.wf() {
                lemma_push_keeps_wf(prior, self@, name@, token@, layer);
            }
        }
        true
    }

    /// Overwrites the token bound to this name wherever it is held;
    /// returns whether any layer held it.
    pub fn move_token(&mut self, name: &String, to: &Token) -> (r: bool)
        ensures
            final(self)@ == old(self)@.with_moved(name@, to@),
            r == old(self)@.has_token(name@),
            old(self)@.wf() && to@.wf() ==> final(self)@.wf(),
    {
        let ghost prior = self@;
        let r1 = self.tokens.set_existing(name, to.duplicate());
        let r2 = self.map.set_existing(name, to.duplicate());
        let r3 = self.gm.set_existing(name, to.duplicate());
        proof {
            assert(self@ =~= prior.with_moved(name@, to@));
            if prior.wf() && to@.wf() {
                lemma_upd_keeps_wf(prior, self@, name@, to@);
            }
        }
        r1 || r2 || r3
    }

    /// Removes the name from every layer; returns whether any layer held
    /// it.
    pub fn destroy_token(&mut self, name: &String) -> (r: bool)
        ensures
            final(self)@ == old(self)@.with_destroyed(name@),
            r == old(self)@.has_token(name@),
            old(self)@.wf() ==> final(self)@.wf(),
    {
        let ghost prior = self@;
        let r1 = self.tokens.remove_name(name);
        let r2 = self.map.remove_name(name);
        let r3 = self.gm.remove_name(name);
        proof {
            assert(self@ =~= prior.with_destroyed(name@));
            if prior.wf() {
                lemma_rem_keeps_wf(prior, self@, name@);
            }
        }
        r1 || r2 || r3
    }

    /// Copies the state; the copy has the same model.
    pub fn duplicate(&self) -> (r: State)
        ensures
            r@ == self@,
    {
        let mut messages: Vec<(String, String)> = Vec::new();
        let n = self.messages.len();
        for i in 0..n
            invariant
                n == self.messages@.len(),
                messages@.len() == i,
                forall|j: int|
                    0 <= j < i ==> (#[trigger] messages@[j]).0@ == self.messages@[j].0@
                        && messages@[j].1@ == self.messages@[j].1@,
        {
            let pair = (self.messages[i].0.clone(), self.messages[i].1.clone());
            messages.push(pair);
            proof {
                assert(messages@[i as int].0@ == self.messages@[i as int].0@);
                assert(messages@[i as int].1@ == self.messages@[i as int].1@);
            }
        }
        proof {
            assert forall|j: int| 0 <= j < n implies messages.deep_view()[j]
                == self.messages.deep_view()[j] by {
                assert(messages@[j].0@ == self.messages@[j].0@);
                assert(messages@[j].1@ == self.messages@[j].1@);
            }
            assert(messages.deep_view() =~= self.messages.deep_view());
        }
        let r = State {
            messages,
            tokens: self.tokens.duplicate(),
            map: self.map.duplicate(),
            gm: self.gm.duplicate(),
            name: self.name.clone(),
        };
        proof {
            assert(r@ =~= self@);
        }
        r
    }
}

impl NameMap<Token> {
    /// Copies the map; the copy has the same model.
    pub fn duplicate(&self) -> (r: Self)
        ensures
            r@ =~= self@,
    {
        let mut entries: Vec<(String, Token)> = Vec::new();
        let n = self.entries.len();
        for i in 0..n
            invariant
                n == self.entries@.len(),
                entries@.len() == i,
                forall|j: int|
                    0 <= j < i ==> (#[trigger] entries@[j]).0@ == self.entries@[j].0@
                        && entries@[j].1@ == self.entries@[j].1@,
        {
            entries.push((self.entries[i].0.clone(), self.entries[i].1.duplicate()));
            proof {
                assert(entries@[i as int].0@ == self.entries@[i as int].0@);
                assert(entries@[i as int].1@ == self.entries@[i as int].1@);
            }
        }
        let r = NameMap { entries };
        proof {
            assert(r@ =~= self@);
        }
        r
    }
}

/// Creating a fresh, well-formed token in one layer preserves state
/// well-formedness.
proof fn lemma_push_keeps_wf(prior: StateV, post: StateV, name: Seq<char>, tok: TokenV, layer: Layer)
    requires
        prior.wf(),
        tok.wf(),
        !prior.has_token(name),
        post == prior.with_created(name, tok, layer),
    ensures
        post.wf(),
{
    lemma_key_at(prior.tokens, name);
    lemma_key_at(prior.map, name);
    lemma_key_at(prior.gm, name);
    lemma_push_tokens_wf(prior.tokens, name, tok);
    lemma_push_tokens_wf(prior.map, name, tok);
    lemma_push_tokens_wf(prior.gm, name, tok);
    match layer {
        Layer::Base => {
            lemma_push_unique(prior.tokens, name, tok);
            assert forall|k: Seq<char>| #[trigger]
                has_name(post.tokens, k) implies !has_name(post.map, k) && !has_name(
                post.gm,
                k,
            ) by {
                lemma_push_has(prior.tokens, name, tok, k);
            }
        },
        Layer::Board => {
            lemma_push_unique(prior.map, name, tok);
            assert forall|k: Seq<char>| #[trigger] has_name(post.map, k) implies !has_name(
                post.gm,
                k,
            ) by {
                lemma_push_has(prior.map, name, tok, k);
            }
            assert forall|k: Seq<char>| #[trigger]
                has_name(post.tokens, k) implies !has_name(post.map, k) && !has_name(
                post.gm,
                k,
            ) by {
                lemma_push_has(prior.map, name, tok, k);
            }
        },
        Layer::Gm => {
            lemma_push_unique(prior.gm, name, tok);
            assert forall|k: Seq<char>| #[trigger] has_name(post.map, k) implies !has_name(
                post.gm,
                k,
            ) by {
                lemma_push_has(prior.gm, name, tok, k);
            }
            assert forall|k: Seq<char>| #[trigger]
                has_name(post.tokens, k) implies !has_name(post.map, k) && !has_name(
                post.gm,
                k,
            ) by {
                lemma_push_has(prior.gm, name, tok, k);
            }
        },
    }
}

/// Pushing a well-formed token keeps a layer map's tokens well-formed.
proof fn lemma_push_tokens_wf(s: Seq<(Seq<char>, TokenV)>, name: Seq<char>, tok: TokenV)
    requires
        tokens_wf(s),
        tok.wf(),
    ensures
        tokens_wf(s.push((name, tok))),
{
    let t = s.push((name, tok));
    assert forall|i: int| 0 <= i < t.len() implies (#[trigger] t[i]).1.wf() by {
        if i < s.len() {
            assert(t[i] == s[i]);
        } else {
            assert(t[i].1 == tok);
        }
    }
}

/// Pushing a fresh name keeps names unique.
pub proof fn lemma_push_unique<T>(s: Seq<(Seq<char>, T)>, name: Seq<char>, v: T)
    requires
        unique_names(s),
        !has_name(s, name),
    ensures
        unique_names(s.push((name, v))),
{
    lemma_key_at(s, name);
    let t = s.push((name, v));
    assert forall|i: int, j: int| 0 <= i < j < t.len() implies t[i].0 != t[j].0 by {
        if j < s.len() {
            assert(s[i].0 != s[j].0);
        } else {
            assert(t[j].0 == name);
            assert(t[i].0 == s[i].0);
        }
    }
}

/// Membership after pushing one entry.
pub proof fn lemma_push_has<T>(s: Seq<(Seq<char>, T)>, name: Seq<char>, v: T, k: Seq<char>)
    ensures
        has_name(s.push((name, v)), k) <==> has_name(s, k) || k == name,
{
    lemma_key_at(s, k);
    lemma_key_at(s.push((name, v)), k);
    let t = s.push((name, v));
    if has_name(t, k) {
        let i = key_at(t, k);
        if i < s.len() {
            assert(s[i] == t[i]);
        }
    }
    if has_name(s, k) {
        let i = key_at(s, k);
        assert(t[i] == s[i]);
    }
    if k == name {
        assert(t[s.len() as int].0 == k);
    }
}

/// Overwriting one value with a well-formed token keeps a layer
/// map's tokens well-formed.
proof fn lemma_upd_tokens_wf(s: Seq<(Seq<char>, TokenV)>, name: Seq<char>, tok: TokenV)
    requires
        tokens_wf(s),
        tok.wf(),
    ensures
        tokens_wf(upd_if(s, name, tok)),
{
    lemma_key_at(s, name);
    if has_name(s, name) {
        let t = s.update(key_at(s, name), (name, tok));
        assert forall|i: int| 0 <= i < t.len() implies (#[trigger] t[i]).1.wf() by {
            if i != key_at(s, name) {
                assert(t[i] == s[i]);
            } else {
                assert(t[i].1 == tok);
            }
        }
    }
}

/// Membership after an `upd_if`, and uniqueness preservation.
proof fn lemma_upd_has<T>(s: Seq<(Seq<char>, T)>, name: Seq<char>, v: T, k: Seq<char>)
    requires
        unique_names(s),
    ensures
        has_name(upd_if(s, name, v), k) <==> has_name(s, k),
        unique_names(upd_if(s, name, v)),
{
    lemma_key_at(s, name);
    if has_name(s, name) {
        let t = s.update(key_at(s, name), (name, v));
        assert(s[key_at(s, name)].0 == name);
        assert forall|i: int, j: int| 0 <= i < j < t.len() implies t[i].0 != t[j].0 by {
            assert(t[i].0 == s[i].0 && t[j].0 == s[j].0);
        }
        lemma_key_at(s, k);
        lemma_key_at(t, k);
        if has_name(t, k) {
            let i = key_at(t, k);
            assert(s[i].0 == t[i].0);
        }
        if has_name(s, k) {
            let i = key_at(s, k);
            assert(t[i].0 == s[i].0);
        }
    }
}

/// Overwriting a token in place with a well-formed one preserves
/// state well-formedness.
proof fn lemma_upd_keeps_wf(prior: StateV, post: StateV, name: Seq<char>, tok: TokenV)
    requires
        prior.wf(),
        tok.wf(),
        post == prior.with_moved(name, tok),
    ensures
        post.wf(),
{
    lemma_upd_tokens_wf(prior.tokens, name, tok);
    lemma_upd_tokens_wf(prior.map, name, tok);
    lemma_upd_tokens_wf(prior.gm, name, tok);
    assert forall|k: Seq<char>| #[trigger]
        has_name(post.tokens, k) implies !has_name(post.map, k) && !has_name(post.gm, k) by {
        lemma_upd_has(prior.tokens, name, tok, k);
        lemma_upd_has(prior.map, name, tok, k);
        lemma_upd_has(prior.gm, name, tok, k);
    }
    assert forall|k: Seq<char>| #[trigger] has_name(post.map, k) implies !has_name(
        post.gm,
        k,
    ) by {
        lemma_upd_has(prior.map, name, tok, k);
        lemma_upd_has(prior.gm, name, tok, k);
    }
    lemma_upd_has(prior.tokens, name, tok, name);
    lemma_upd_has(prior.map, name, tok, name);
    lemma_upd_has(prior.gm, name, tok, name);
}

/// Removing an entry keeps a layer map's tokens well-formed.
proof fn lemma_rem_tokens_wf(s: Seq<(Seq<char>, TokenV)>, name: Seq<char>)
    requires
        tokens_wf(s),
    ensures
        tokens_wf(rem_if(s, name)),
{
    lemma_key_at(s, name);
    if has_name(s, name) {
        let d = key_at(s, name);
        let t = s.remove(d);
        assert forall|i: int| 0 <= i < t.len() implies (#[trigger] t[i]).1.wf() by {
            let si = if i < d {
                i
            } else {
                i + 1
            };
            assert(t[i] == s[si]);
        }
    }
}

/// Membership after a `rem_if`, and uniqueness preservation.
proof fn lemma_rem_has<T>(s: Seq<(Seq<char>, T)>, name: Seq<char>, k: Seq<char>)
    requires
        unique_names(s),
    ensures
        has_name(rem_if(s, name), k) ==> has_name(s, k),
        unique_names(rem_if(s, name)),
        !has_name(rem_if(s, name), name),
{
    lemma_key_at(s, name);
    if has_name(s, name) {
        let d = key_at(s, name);
        let t = s.remove(d);
        assert forall|i: int, j: int| 0 <= i < j < t.len() implies t[i].0 != t[j].0 by {
            let si = if i < d {
                i
            } else {
                i + 1
            };
            let sj = if j < d {
                j
            } else {
                j + 1
            };
            assert(t[i].0 == s[si].0 && t[j].0 == s[sj].0);
        }
        lemma_key_at(t, k);
        lemma_key_at(s, k);
        if has_name(t, k) {
            let i = key_at(t, k);
            let si = if i < d {
                i
            } else {
                i + 1
            };
            assert(t[i].0 == s[si].0);
        }
        lemma_key_at(t, name);
        if has_name(t, name) {
            let i = key_at(t, name);
            let si = if i < d {
                i
            } else {
                i + 1
            };
            assert(t[i].0 == s[si].0);
            lemma_key_at_unique(s, name, si);
        }
    }
}

/// Destroying a name everywhere preserves state well-formedness.
proof fn lemma_rem_keeps_wf(prior: StateV, post: StateV, name: Seq<char>)
    requires
        prior.wf(),
        post == prior.with_destroyed(name),
    ensures
        post.wf(),
        !post.has_token(name),
{
    lemma_rem_tokens_wf(prior.tokens, name);
    lemma_rem_tokens_wf(prior.map, name);
    lemma_rem_tokens_wf(prior.gm, name);
    assert forall|k: Seq<char>| #[trigger]
        has_name(post.tokens, k) implies !has_name(post.map, k) && !has_name(post.gm, k) by {
        lemma_rem_has(prior.tokens, name, k);
        if has_name(post.map, k) {
            lemma_rem_has(prior.map, name, k);
        }
        if has_name(post.gm, k) {
            lemma_rem_has(prior.gm, name, k);
        }
    }
    assert forall|k: Seq<char>| #[trigger] has_name(post.map, k) implies !has_name(
        post.gm,
        k,
    ) by {
        lemma_rem_has(prior.map, name, k);
        if has_name(post.gm, k) {
            lemma_rem_has(prior.gm, name, k);
        }
    }
    lemma_rem_has(prior.tokens, name, name);
    lemma_rem_has(prior.map, name, name);
    lemma_rem_has(prior.gm, name, name);
}

/// Payload of one protocol event: exactly the eleven kinds of the wire
/// protocol. Immutable once constructed; one event per frame.
#[derive(Debug, Clone, PartialEq, Eq)]
pub enum EventData {
    Message { from: String, contents: String, time_stamp: u128 },
    Connection { username: String },
    Disconnection { username: String },
    Kill { password: String },
    TokenMoved { name: String, to: Token, layer: Layer },
    TokenCreated { name: String, token: Token, layer: Layer },
    TokenDestroyed { name: String, layer: Layer },
    ImageUpload { name: String, image: Vec<u8> },
    SendState { state: State },
    PersonalUpdate { people: Vec<String> },
    HeartBeat,
}

/// Ghost model of an [`EventData`].
#[verifier::ext_equal]
pub ghost enum EventDataV {
    Message { from: Seq<char>, contents: Seq<char>, time_stamp: u128 },
    Connection { username: Seq<char> },
    Disconnection { username: Seq<char> },
    Kill { password: Seq<char> },
    TokenMoved { name: Seq<char>, to: TokenV, layer: Layer },
    TokenCreated { name: Seq<char>, token: TokenV, layer: Layer },
    TokenDestroyed { name: Seq<char>, layer: Layer },
    ImageUpload { name: Seq<char>, image: Seq<u8> },
    SendState { state: StateV },
    PersonalUpdate { people: Seq<Seq<char>> },
    HeartBeat,
}

impl View for EventData {
    type V = EventDataV;

    open spec fn view(&self) -> EventDataV {
        match self {
            EventData::Message { from, contents, time_stamp } => EventDataV::Message {
                from: from@,
                contents: contents@,
                time_stamp: *time_stamp,
            },
            EventData::Connection { username } => EventDataV::Connection { username: username@ },
            EventData::Disconnection { username } => EventDataV::Disconnection {
                username: username@,
            },
            EventData::Kill { password } => EventDataV::Kill { password: password@ },
            EventData::TokenMoved { name, to, layer } => EventDataV::TokenMoved {
                name: name@,
                to: to@,
                layer: *layer,
            },
            EventData::TokenCreated { name, token, layer } => EventDataV::TokenCreated {
                name: name@,
                token: token@,
                layer: *layer,
            },
            EventData::TokenDestroyed { name, layer } => EventDataV::TokenDestroyed {
                name: name@,
                layer: *layer,
            },
            EventData::ImageUpload { name, image } => EventDataV::ImageUpload {
                name: name@,
                image: image@,
            },
            EventData::SendState { state } => EventDataV::SendState { state: state@ },
            EventData::PersonalUpdate { people } => EventDataV::PersonalUpdate {
                people: people.deep_view(),
            },
            EventData::HeartBeat => EventDataV::HeartBeat,
        }
    }
}

/// One protocol event: its source (a username, or the reserved server
/// name) and its payload.
#[derive(Debug, Clone, PartialEq, Eq)]
pub struct Event {
    pub source: String,
    pub data: EventData,
}

/// Ghost model of an [`Event`].
#[verifier::ext_equal]
pub ghost struct EventV {
    pub source: Seq<char>,
    pub data: EventDataV,
}

impl View for Event {
    type V = EventV;

    open spec fn view(&self) -> EventV {
        EventV { source: self.source@, data: self.data@ }
    }
}

/// The models of a list of events.
pub open spec fn evs_view(v: Seq<Event>) -> Seq<EventV> {
    Seq::new(v.len(), |i: int| v[i]@)
}

} // verus!
