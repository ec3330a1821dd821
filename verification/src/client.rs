//! The client sync agent: a passive mirror of the canonical state.
//!
//! The process around the library reads frames off the socket and
//! hands each decoded event here; the mirror applies snapshots,
//! records uploaded image names (returning the bytes for storage),
//! and replaces the displayed roster. Events that do not concern a
//! peer are ignored. Outbound chat input is classified first, so that
//! an unknown backslash command never leaves the machine.

use crate::communication::Layer;
use crate::communication::State;
use crate::communication::StateV;
use crate::state::ImageUpload;
use vstd::prelude::*;
use vstd::string::StrSliceExecFns;

verus! {

/// The interaction tool the user holds.
#[derive(Debug, Clone, Copy, PartialEq, Eq, Structural)]
pub enum Mode {
    MoveAndPlace,
    Measure,
    Draw,
}

/// The mirror a peer keeps of the session, plus its own UI state:
/// what it typed, where it connects, who it is, which images it has
/// stored, who is connected, and which layer and tool are active.
pub struct Client {
    pub state: State,
    pub typed_message: String,
    pub ip_address: String,
    pub username: String,
    pub loaded_images: Vec<String>,
    pub people: Vec<String>,
    pub owns_server: bool,
    pub working_layer: Layer,
    pub mode: Mode,
}

/// Ghost model of a [`Client`].
#[verifier::ext_equal]
pub ghost struct ClientV {
    pub state: StateV,
    pub typed_message: Seq<char>,
    pub ip_address: Seq<char>,
    pub username: Seq<char>,
    pub loaded_images: Seq<Seq<char>>,
    pub people: Seq<Seq<char>>,
    pub owns_server: bool,
    pub working_layer: Layer,
    pub mode: Mode,
}

impl View for Client {
    type V = ClientV;

    open spec fn view(&self) -> ClientV {
        ClientV {
            state: self.state@,
            typed_message: self.typed_message@,
            ip_address: self.ip_address@,
            username: self.username@,
            loaded_images: self.loaded_images.deep_view(),
            people: self.people.deep_view(),
            owns_server: self.owns_server,
            working_layer: self.working_layer,
            mode: self.mode,
        }
    }
}

impl Client {
    /// A fresh, unconnected client mirroring an empty session, under
    /// the default username.
    pub fn new(ip_address: String) -> (r: Client)
        ensures
            r@.state.messages == Seq::<(Seq<char>, Seq<char>)>::empty(),
            r@.state.tokens == Seq::<(Seq<char>, crate::communication::TokenV)>::empty(),
            r@.state.map == Seq::<(Seq<char>, crate::communication::TokenV)>::empty(),
            r@.state.gm == Seq::<(Seq<char>, crate::communication::TokenV)>::empty(),
            r@.typed_message == Seq::<char>::empty(),
            r@.ip_address == ip_address@,
            r@.username == "root"@,
            r@.loaded_images == Seq::<Seq<char>>::empty(),
            r@.people == Seq::<Seq<char>>::empty(),
            !r@.owns_server,
            r@.working_layer == Layer::Base,
            r@.mode == Mode::MoveAndPlace,
    {
        let r = Client {
            state: State::new(),
            typed_message: String::new(),
            ip_address,
            username: "root".to_owned(),
            loaded_images: Vec::new(),
            people: Vec::new(),
            owns_server: false,
            working_layer: Layer::Base,
            mode: Mode::MoveAndPlace,
        };
        proof {
            assert(r@.loaded_images =~= Seq::<Seq<char>>::empty());
            assert(r@.people =~= Seq::<Seq<char>>::empty());
        }
        r
    }

    /// Applies one inbound server event to the mirror: a SendState
    /// replaces the mirrored state wholesale, an ImageUpload records
    /// the name and hands the bytes back for storage, a
    /// PersonalUpdate replaces the displayed roster, and anything
    /// else is ignored.
    pub fn apply_server_event(&mut self, ev: crate::communication::Event) -> (r: Option<
        ImageUpload,
    >)
        ensures
            ({
                let prior = old(self)@;
                match ev@.data {
                    crate::communication::EventDataV::SendState { state } => final(self)@ == (
                    ClientV { state, ..prior }) && r is None,
                    crate::communication::EventDataV::ImageUpload { name, image } => final(self)@
                        == (ClientV { loaded_images: prior.loaded_images.push(name), ..prior })
                        && (r matches Some(up) && up@.name == name && up@.image == image),
                    crate::communication::EventDataV::PersonalUpdate { people } => final(self)@ == (
                    ClientV { people, ..prior }) && r is None,
                    _ => final(self)@ == prior && r is None,
                }
            }),
    {
        let ghost prior = self@;
        match ev.data {
            crate::communication::EventData::SendState { state } => {
                self.state = state;
                proof {
                    assert(self@ =~= (ClientV { state: self.state@, ..prior }));
                }
                None
            },
            crate::communication::EventData::ImageUpload { name, image } => {
                let record = ImageUpload { name: name.clone(), image };
                self.loaded_images.push(name);
                proof {
                    assert(self@.loaded_images =~= prior.loaded_images.push(record@.name));
                    assert(self@ =~= (ClientV {
                        loaded_images: prior.loaded_images.push(record@.name),
                        ..prior
                    }));
                }
                Some(record)
            },
            crate::communication::EventData::PersonalUpdate { people } => {
                self.people = people;
                proof {
                    assert(self@ =~= (ClientV { people: self.people.deep_view(), ..prior }));
                }
                None
            },
            _ => {
                proof {
                    assert(self@ =~= prior);
                }
                None
            },
        }
    }
}

/// What a line of chat input asks for.
#[derive(Debug, Clone, Copy, PartialEq, Eq, Structural)]
pub enum Command {
    Plain,
    Exit,
    Kill,
    Roll,
    Kick,
    RollCheat,
    Invalid,
}

/// Whether `p` occurs in `m` starting at `off`.
pub open spec fn matches_at(m: Seq<char>, off: int, p: Seq<char>) -> bool {
    0 <= off && off + p.len() <= m.len() && m.subrange(off, off + p.len()) == p
}

/// The classification of one chat line: lines not led by a backslash
/// are plain chat; led ones must be one of the known commands, else
/// they are invalid and must not be sent.
pub open spec fn spec_classify(m: Seq<char>) -> Command {
    if !matches_at(m, 0, "\\"@) {
        Command::Plain
    } else if m == "\\exit"@ {
        Command::Exit
    } else if m == "\\kill"@ {
        Command::Kill
    } else if matches_at(m, 1, "roll "@) {
        Command::Roll
    } else if matches_at(m, 1, "kick "@) {
        Command::Kick
    } else if matches_at(m, 1, "roll_cheat "@) {
        Command::RollCheat
    } else {
        Command::Invalid
    }
}

/// Whether the pattern stands in the message at the offset.
fn check_at(m: &String, off: usize, p: &str) -> (r: bool)
    ensures
        r == matches_at(m@, off as int, p@),
{
    let lm = m.as_str().unicode_len();
    let lp = p.unicode_len();
    if off > lm || lp > lm - off {
        return false;
    }
    let mut j: usize = 0;
    while j < lp
        invariant
            j <= lp,
            lm == m@.len(),
            lp == p@.len(),
            off + lp <= lm,
            forall|t: int| 0 <= t < j ==> m@[off + t] == p@[t],
        decreases lp - j,
    {
        if m.as_str().get_char(off + j) != p.get_char(j) {
            proof {
                assert(m@.subrange(off as int, off + p@.len())[j as int] != p@[j as int]);
            }
            return false;
        }
        j = j + 1;
    }
    proof {
        assert(m@.subrange(off as int, off + p@.len()) =~= p@);
    }
    true
}

/// Whether the message is exactly the pattern.
fn eq_str(m: &String, p: &str) -> (r: bool)
    ensures
        r == (m@ == p@),
{
    let lm = m.as_str().unicode_len();
    let lp = p.unicode_len();
    if lm != lp {
        return false;
    }
    let r = check_at(m, 0, p);
    proof {
        if matches_at(m@, 0, p@) {
            assert(m@.subrange(0, p@.len() as int) =~= m@);
        }
        if m@ == p@ {
            assert(m@.subrange(0, p@.len() as int) =~= p@);
        }
    }
    r
}

/// Classifies one chat line, exactly as `spec_classify` describes.
pub fn classify_message(m: &String) -> (r: Command)
    ensures
        r == spec_classify(m@),
{
    if !check_at(m, 0, "\\") {
        Command::Plain
    } else if eq_str(m, "\\exit") {
        Command::Exit
    } else if eq_str(m, "\\kill") {
        Command::Kill
    } else if check_at(m, 1, "roll ") {
        Command::Roll
    } else if check_at(m, 1, "kick ") {
        Command::Kick
    } else if check_at(m, 1, "roll_cheat ") {
        Command::RollCheat
    } else {
        Command::Invalid
    }
}

} // verus!