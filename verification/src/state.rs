//! The reconciling mirror: an opt-in, timestamp-based alternative to
//! the purely passive client mirror.
//!
//! Each locally held token remembers when it was last written locally.
//! When a remote snapshot arrives, a token whose last write is within
//! the protection window (one time unit) keeps its local value, so an
//! in-flight optimistic edit is not clobbered by a stale broadcast;
//! older tokens take the remote value, or disappear when the remote
//! side no longer has them. Tokens the remote side holds and the
//! local board does not are adopted outright: a name absent locally
//! has no local write to protect.

use crate::communication::NameMap;
use crate::communication::Pos;
use crate::communication::has_name;
use crate::communication::key_at;
use crate::communication::lemma_key_at;
use crate::communication::lemma_key_at_unique;
use crate::communication::lemma_push_has;
use crate::communication::lemma_push_unique;
use crate::communication::name_val;
use crate::communication::unique_names;
use crate::server::lemma_push_val;
use vstd::prelude::*;

verus! {

/// The time of day, in whole seconds since the epoch.
///
/// Relies on `std::time::SystemTime::now` and
/// `duration_since(UNIX_EPOCH)`: the clock's reading decides the
/// result, so nothing more is promised of it. The current time is
/// after the epoch on any realistically configured machine; if the
/// clock reads earlier, the epoch itself (zero) is reported.
#[verifier::external_body]
pub fn now() -> u64 {
    match std::time::SystemTime::now().duration_since(std::time::UNIX_EPOCH) {
        Ok(d) => d.as_secs(),
        Err(_) => 0,
    }
}

/// One uploaded image, by name, as handed to the process around the
/// library for storage.
#[derive(Debug, Clone, PartialEq, Eq)]
pub struct ImageUpload {
    pub name: String,
    pub image: Vec<u8>,
}

/// Ghost model of an [`ImageUpload`].
#[verifier::ext_equal]
pub ghost struct ImageUploadV {
    pub name: Seq<char>,
    pub image: Seq<u8>,
}

impl View for ImageUpload {
    type V = ImageUploadV;

    open spec fn view(&self) -> ImageUploadV {
        ImageUploadV { name: self.name@, image: self.image@ }
    }
}

/// A mirrored token: its image, its grid position, and the local time
/// of its last locally issued write.
#[derive(Debug, Clone, PartialEq, Eq)]
pub struct Token {
    pub image: String,
    pub pos: Pos,
    pub time_stamp: u64,
}

/// Ghost model of a mirrored [`Token`].
#[verifier::ext_equal]
pub ghost struct MTokenV {
    pub image: Seq<char>,
    pub x: int,
    pub y: int,
    pub time_stamp: u64,
}

impl View for Token {
    type V = MTokenV;

    open spec fn view(&self) -> MTokenV {
        MTokenV {
            image: self.image@,
            x: self.pos.x as int,
            y: self.pos.y as int,
            time_stamp: self.time_stamp,
        }
    }
}

impl Token {
    /// Copies the token; the copy has the same model.
    pub fn duplicate(&self) -> (r: Token)
        ensures
            r@ == self@,
    {
        Token { image: self.image.clone(), pos: self.pos, time_stamp: self.time_stamp }
    }
}

/// The reconciling mirror's board: its tokens and a background image
/// name.
#[derive(Debug, Clone, PartialEq, Eq)]
pub struct BoardState {
    pub tokens: NameMap<Token>,
    pub background_image: String,
}

/// Ghost model of a [`BoardState`].
#[verifier::ext_equal]
pub ghost struct BoardStateV {
    pub tokens: Seq<(Seq<char>, MTokenV)>,
    pub background_image: Seq<char>,
}

impl View for BoardState {
    type V = BoardStateV;

    open spec fn view(&self) -> BoardStateV {
        BoardStateV { tokens: self.tokens@, background_image: self.background_image@ }
    }
}

impl BoardStateV {
    /// Token names are unique.
    pub open spec fn wf(self) -> bool {
        unique_names(self.tokens)
    }
}

/// What reconciliation owes for one name: a local token still inside
/// the protection window is kept; an older local token takes the
/// remote value, or disappears when the remote side lacks it; a token
/// only the remote side has is adopted.
pub open spec fn reconciled_name(
    loc: Seq<(Seq<char>, MTokenV)>,
    rem: Seq<(Seq<char>, MTokenV)>,
    time: u64,
    fin: Seq<(Seq<char>, MTokenV)>,
    k: Seq<char>,
) -> bool {
    if has_name(loc, k) {
        if name_val(loc, k).time_stamp + 1 > time {
            has_name(fin, k) && name_val(fin, k) == name_val(loc, k)
        } else if has_name(rem, k) {
            has_name(fin, k) && name_val(fin, k) == name_val(rem, k)
        } else {
            !has_name(fin, k)
        }
    } else {
        if has_name(rem, k) {
            has_name(fin, k) && name_val(fin, k) == name_val(rem, k)
        } else {
            !has_name(fin, k)
        }
    }
}

/// Reconciliation holds for every name.
pub open spec fn reconciled(
    loc: Seq<(Seq<char>, MTokenV)>,
    rem: Seq<(Seq<char>, MTokenV)>,
    time: u64,
    fin: Seq<(Seq<char>, MTokenV)>,
) -> bool {
    forall|k: Seq<char>| #[trigger] reconciled_name(loc, rem, time, fin, k)
}

/// With unique names, a prefix extended by its next entry holds
/// exactly the prefix's names plus that entry's.
proof fn lemma_take_snoc<T>(s: Seq<(Seq<char>, T)>, i: int, k: Seq<char>)
    requires
        unique_names(s),
        0 <= i < s.len(),
    ensures
        has_name(s.take(i + 1), k) <==> has_name(s.take(i), k) || k == s[i].0,
        k != s[i].0 && has_name(s.take(i), k) ==> name_val(s.take(i + 1), k) == name_val(
            s.take(i),
            k,
        ),
        k == s[i].0 ==> !has_name(s.take(i), k) && has_name(s.take(i + 1), k) && name_val(
            s.take(i + 1),
            k,
        ) == s[i].1,
{
    assert(s.take(i + 1) =~= s.take(i).push((s[i].0, s[i].1)));
    assert(s.take(i + 1) =~= s.take(i).push(s[i]));
    lemma_push_has(s.take(i), s[i].0, s[i].1, k);
    lemma_key_at(s.take(i), k);
    lemma_key_at(s.take(i + 1), k);
    if k == s[i].0 {
        if has_name(s.take(i), k) {
            let t = key_at(s.take(i), k);
            assert(s[t] == s.take(i)[t]);
            assert(s[t].0 == s[i].0);
        }
        lemma_push_val(s.take(i), s[i].0, s[i].1);
    } else {
        if has_name(s.take(i), k) {
            let t = key_at(s.take(i), k);
            assert(s.take(i + 1)[t] == s.take(i)[t]);
            lemma_key_at_unique(s.take(i + 1), k, t);
        }
    }
}

/// Membership in a full sequence versus one of its prefixes.
proof fn lemma_take_full<T>(s: Seq<(Seq<char>, T)>, k: Seq<char>)
    ensures
        has_name(s.take(s.len() as int), k) == has_name(s, k),
        has_name(s, k) ==> name_val(s.take(s.len() as int), k) == name_val(s, k),
{
    assert(s.take(s.len() as int) =~= s);
}

impl BoardState {
    /// An empty board.
    pub fn new() -> (r: Self)
        ensures
            r@.tokens == Seq::<(Seq<char>, MTokenV)>::empty(),
            r@.background_image == Seq::<char>::empty(),
            r@.wf(),
    {
        let r = BoardState { tokens: NameMap::new(), background_image: String::new() };
        proof {
            assert(r@.tokens =~= Seq::<(Seq<char>, MTokenV)>::empty());
        }
        r
    }

    /// Folds a remote snapshot into the local board, exactly as
    /// `reconciled` describes name by name: a token whose last local
    /// write is within one time unit of `time` keeps its local value,
    /// every other locally held token follows the remote side, and a
    /// token only the remote side holds is adopted.
    pub fn update_state(&mut self, other: BoardState, time: u64)
        requires
            old(self)@.wf(),
            other@.wf(),
        ensures
            reconciled(old(self)@.tokens, other@.tokens, time, final(self)@.tokens),
            final(self)@.wf(),
            final(self)@.background_image == old(self)@.background_image,
    {
        let ghost loc = self@.tokens;
        let ghost rem = other@.tokens;
        let mut out: NameMap<Token> = NameMap::new();
        let n = self.tokens.entries.len();
        let mut i: usize = 0;
        while i < n
            invariant
                n == loc.len(),
                i <= n,
                self@.tokens == loc,
                other@.tokens == rem,
                unique_names(loc),
                unique_names(rem),
                unique_names(out@),
                forall|k: Seq<char>| #[trigger]
                    has_name(out@, k) ==> has_name(loc.take(i as int), k),
                forall|k: Seq<char>|
                    has_name(loc.take(i as int), k) ==> #[trigger] phase_keep(
                        loc,
                        rem,
                        time,
                        out@,
                        k,
                    ),
            decreases n - i,
        {
            let ghost pre = out@;
            let name = &self.tokens.entries[i].0;
            let tok = &self.tokens.entries[i].1;
            proof {
                assert(loc[i as int] == (name@, tok@));
                lemma_key_at_unique(loc, name@, i as int);
                lemma_key_at(pre, name@);
                if has_name(pre, name@) {
                    assert(has_name(loc.take(i as int), name@));
                    lemma_key_at(loc.take(i as int), name@);
                    let t = key_at(loc.take(i as int), name@);
                    assert(loc[t] == loc.take(i as int)[t]);
                }
                assert(!has_name(pre, name@));
            }
            if tok.time_stamp >= time {
                out.set_name(name, tok.duplicate());
                proof {
                    lemma_push_val(pre, name@, tok@);
                    lemma_push_unique(pre, name@, tok@);
                }
            } else {
                match other.tokens.get_name(name) {
                    Some(rv) => {
                        out.set_name(name, rv.duplicate());
                        proof {
                            lemma_push_val(pre, name@, rv@);
                            lemma_push_unique(pre, name@, rv@);
                        }
                    },
                    None => {},
                }
            }
            proof {
                let post = out@;
                assert forall|k: Seq<char>| #[trigger]
                    has_name(post, k) implies has_name(loc.take(i + 1), k) by {
                    lemma_take_snoc(loc, i as int, k);
                    lemma_key_at(post, k);
                    lemma_key_at(pre, k);
                    if post == pre {
                        assert(has_name(pre, k));
                    } else {
                        let t = key_at(post, k);
                        assert(post[t].0 == k);
                        if t < pre.len() {
                            assert(pre[t] == post[t]);
                            assert(has_name(pre, k));
                        } else {
                            assert(post[t].0 == name@);
                            assert(k == name@);
                        }
                    }
                }
                assert forall|k: Seq<char>|
                    has_name(loc.take(i + 1), k) implies #[trigger] phase_keep(
                    loc,
                    rem,
                    time,
                    post,
                    k,
                ) by {
                    lemma_take_snoc(loc, i as int, k);
                    if k == name@ {
                        lemma_key_at(rem, k);
                    } else {
                        if has_name(loc.take(i as int), k) {
                            assert(phase_keep(loc, rem, time, pre, k));
                            if has_name(pre, k) {
                                lemma_key_at(pre, k);
                                let t = key_at(pre, k);
                                if post != pre {
                                    assert(post[t] == pre[t]);
                                    lemma_key_at_unique(post, k, t);
                                }
                            } else {
                                lemma_key_at(pre, k);
                                lemma_key_at(post, k);
                                if has_name(post, k) {
                                    let t = key_at(post, k);
                                    if t < pre.len() {
                                        assert(pre[t] == post[t]);
                                    } else {
                                        assert(post[t].0 == name@);
                                    }
                                }
                            }
                        }
                    }
                }
            }
            i = i + 1;
        }
        proof {
            assert forall|k: Seq<char>| has_name(loc, k) implies #[trigger] phase_keep(
                loc,
                rem,
                time,
                out@,
                k,
            ) by {
                lemma_take_full(loc, k);
            }
            assert forall|k: Seq<char>| #[trigger] has_name(out@, k) implies has_name(loc, k) by {
                lemma_take_full(loc, k);
            }
        }
        let ghost afterA = out@;
        let m = other.tokens.entries.len();
        let mut j: usize = 0;
        while j < m
            invariant
                m == rem.len(),
                j <= m,
                self@.tokens == loc,
                other@.tokens == rem,
                unique_names(loc),
                unique_names(rem),
                unique_names(out@),
                forall|k: Seq<char>|
                    has_name(loc, k) ==> #[trigger] phase_keep(loc, rem, time, out@, k),
                forall|k: Seq<char>| #[trigger]
                    has_name(out@, k) ==> has_name(loc, k) || has_name(rem.take(j as int), k),
                forall|k: Seq<char>|
                    !has_name(loc, k) ==> #[trigger] phase_new(loc, rem.take(j as int), out@, k),
            decreases m - j,
        {
            let ghost pre = out@;
            let name = &other.tokens.entries[j].0;
            let tok = &other.tokens.entries[j].1;
            proof {
                assert(rem[j as int] == (name@, tok@));
                lemma_key_at_unique(rem, name@, j as int);
            }
            let fresh = !self.tokens.contains_name(name);
            if fresh {
                proof {
                    lemma_key_at(pre, name@);
                    if has_name(pre, name@) {
                        assert(has_name(loc, name@) || has_name(rem.take(j as int), name@));
                        if has_name(rem.take(j as int), name@) {
                            lemma_key_at(rem.take(j as int), name@);
                            let t = key_at(rem.take(j as int), name@);
                            assert(rem[t] == rem.take(j as int)[t]);
                        }
                    }
                    assert(!has_name(pre, name@));
                }
                out.set_name(name, tok.duplicate());
                proof {
                    lemma_push_val(pre, name@, tok@);
                    lemma_push_unique(pre, name@, tok@);
                }
            }
            proof {
                let post = out@;
                assert forall|k: Seq<char>|
                    has_name(loc, k) implies #[trigger] phase_keep(loc, rem, time, post, k) by {
                    assert(phase_keep(loc, rem, time, pre, k));
                    if post != pre {
                        lemma_membership_after_push(pre, name@, tok@, k);
                    }
                }
                assert forall|k: Seq<char>| #[trigger]
                    has_name(post, k) implies has_name(loc, k) || has_name(
                    rem.take(j + 1),
                    k,
                ) by {
                    lemma_take_snoc(rem, j as int, k);
                    if post != pre {
                        lemma_membership_after_push(pre, name@, tok@, k);
                    }
                }
                assert forall|k: Seq<char>| !has_name(loc, k) implies #[trigger] phase_new(
                    loc,
                    rem.take(j + 1),
                    post,
                    k,
                ) by {
                    lemma_take_snoc(rem, j as int, k);
                    assert(phase_new(loc, rem.take(j as int), pre, k));
                    if post != pre {
                        lemma_membership_after_push(pre, name@, tok@, k);
                    }
                }
            }
            j = j + 1;
        }
        self.tokens = out;
        proof {
            assert forall|k: Seq<char>| #[trigger] reconciled_name(
                loc,
                rem,
                time,
                self@.tokens,
                k,
            ) by {
                lemma_take_full(rem, k);
                if has_name(loc, k) {
                    assert(phase_keep(loc, rem, time, self@.tokens, k));
                } else {
                    assert(phase_new(loc, rem.take(rem.len() as int), self@.tokens, k));
                }
            }
        }
    }
}

/// The obligation of the first pass, for one locally held name.
pub open spec fn phase_keep(
    loc: Seq<(Seq<char>, MTokenV)>,
    rem: Seq<(Seq<char>, MTokenV)>,
    time: u64,
    fin: Seq<(Seq<char>, MTokenV)>,
    k: Seq<char>,
) -> bool {
    if name_val(loc, k).time_stamp + 1 > time {
        has_name(fin, k) && name_val(fin, k) == name_val(loc, k)
    } else if has_name(rem, k) {
        has_name(fin, k) && name_val(fin, k) == name_val(rem, k)
    } else {
        !has_name(fin, k)
    }
}

/// The obligation of the second pass, for one name the local board
/// does not hold: it is adopted exactly when the remote side holds it.
pub open spec fn phase_new(
    loc: Seq<(Seq<char>, MTokenV)>,
    rem_part: Seq<(Seq<char>, MTokenV)>,
    fin: Seq<(Seq<char>, MTokenV)>,
    k: Seq<char>,
) -> bool {
    if has_name(rem_part, k) {
        has_name(fin, k) && name_val(fin, k) == name_val(rem_part, k)
    } else {
        !has_name(fin, k)
    }
}

/// How membership and values read after pushing one fresh entry.
proof fn lemma_membership_after_push<T>(s: Seq<(Seq<char>, T)>, nk: Seq<char>, nv: T, k: Seq<char>)
    requires
        !has_name(s, nk),
    ensures
        has_name(s.push((nk, nv)), k) <==> has_name(s, k) || k == nk,
        k != nk && has_name(s, k) ==> name_val(s.push((nk, nv)), k) == name_val(s, k),
        k == nk ==> name_val(s.push((nk, nv)), k) == nv,
{
    lemma_push_has(s, nk, nv, k);
    lemma_key_at(s, k);
    let t = s.push((nk, nv));
    lemma_key_at(t, k);
    if k == nk {
        lemma_push_val(s, nk, nv);
    } else {
        if has_name(s, k) {
            let i = key_at(s, k);
            assert(t[i] == s[i]);
            if key_at(t, k) != i {
                let w = key_at(t, k);
                if w < i {
                    assert(s[w] == t[w]);
                }
            }
        }
    }
}

} // verus!