//! Session server, client mirror and reconciling mirror behaviour.

use boredgames::client::{classify_message, Client, Command, Mode};
use boredgames::communication::{Event, EventData, Layer, NameMap, Pos, State, Token};
use boredgames::server::{AdmitDecision, Server};
use boredgames::state::{now, BoardState, ImageUpload};
use boredgames::state::Token as MirrorToken;
use boredgames::utils::{throws, Exception};

fn token(x: i32, y: i32, scale: i32, image: &str) -> Token {
    Token { location: Pos { x, y }, scale, image: image.to_string(), display_name: String::new() }
}

fn connect(name: &str) -> Event {
    Event {
        source: name.to_string(),
        data: EventData::Connection { username: name.to_string() },
    }
}

fn admit_user(srv: &mut Server, name: &str) {
    let r = srv.tick(Vec::new(), vec![Some(connect(name))]);
    match &r.decisions[0] {
        AdmitDecision::Admit { username, .. } => assert_eq!(username, name),
        _ => panic!("fresh username must be admitted"),
    }
}

#[test]
pub fn test0() {
    let r = throws(10);
    match r {
        Err(e) => println!("{:#?}", e),
        Ok(_) => panic!("throws must fail"),
    }
}

#[test]
fn exception_carries_its_value() {
    let e = Exception::new(7i32);
    assert_eq!(e.internal, 7);
}

#[test]
fn first_create_wins_within_one_tick() {
    let mut srv = Server::new();
    admit_user(&mut srv, "alice");
    let first = Event {
        source: "alice".to_string(),
        data: EventData::TokenCreated {
            name: "hero".to_string(),
            token: token(20, 20, 1, "hero.png"),
            layer: Layer::Board,
        },
    };
    let second = Event {
        source: "alice".to_string(),
        data: EventData::TokenCreated {
            name: "hero".to_string(),
            token: token(40, 40, 1, "other.png"),
            layer: Layer::Gm,
        },
    };
    srv.tick(vec![first, second], Vec::new());
    let key = "hero".to_string();
    assert!(srv.state.map.contains_name(&key));
    assert!(!srv.state.gm.contains_name(&key));
    assert!(!srv.state.tokens.contains_name(&key));
    assert_eq!(srv.state.map.get_name(&key).unwrap().image, "hero.png");
}

#[test]
fn unauthorized_kill_is_ignored() {
    let mut srv = Server::new();
    admit_user(&mut srv, "alice");
    let kill = Event {
        source: "mallory".to_string(),
        data: EventData::Kill { password: "whatever".to_string() },
    };
    let r = srv.tick(vec![kill], Vec::new());
    assert!(!r.shutdown);
    assert!(!srv.shutdown);
    let kill2 = Event {
        source: "alice".to_string(),
        data: EventData::Kill { password: "whatever".to_string() },
    };
    let r2 = srv.tick(vec![kill2], Vec::new());
    assert!(r2.shutdown);
    assert_eq!(r2.broadcast.len(), 0);
}

#[test]
fn duplicate_connect_is_discarded() {
    let mut srv = Server::new();
    admit_user(&mut srv, "alice");
    let r = srv.tick(Vec::new(), vec![Some(connect("alice"))]);
    match r.decisions[0] {
        AdmitDecision::Discard => {},
        _ => panic!("a live username must not be admitted twice"),
    }
    assert_eq!(srv.clients.len(), 1);
    assert_eq!(srv.owner, "alice");
}

#[test]
fn non_connect_first_frame_is_discarded() {
    let mut srv = Server::new();
    let r = srv.tick(
        Vec::new(),
        vec![
            Some(Event { source: "x".to_string(), data: EventData::HeartBeat }),
            None,
        ],
    );
    match r.decisions[0] {
        AdmitDecision::Discard => {},
        _ => panic!("first frame must be a Connect"),
    }
    match r.decisions[1] {
        AdmitDecision::Requeue => {},
        _ => panic!("no frame yet means requeue"),
    }
}

#[test]
fn no_mutation_tick_broadcasts_nothing() {
    let mut srv = Server::new();
    admit_user(&mut srv, "alice");
    let beat = Event { source: "alice".to_string(), data: EventData::HeartBeat };
    let r = srv.tick(vec![beat], Vec::new());
    assert_eq!(r.broadcast.len(), 0);
}

#[test]
fn moved_event_for_absent_name_changes_nothing() {
    let mut srv = Server::new();
    admit_user(&mut srv, "alice");
    let before = srv.state.clone();
    let moved = Event {
        source: "alice".to_string(),
        data: EventData::TokenMoved {
            name: "ghost".to_string(),
            to: token(1, 1, 1, "g.png"),
            layer: Layer::Base,
        },
    };
    let r = srv.tick(vec![moved], Vec::new());
    assert_eq!(srv.state, before);
    assert_eq!(r.broadcast.len(), 0);
}

#[test]
fn catch_up_delivers_assets_to_late_joiner() {
    let mut srv = Server::new();
    admit_user(&mut srv, "alice");
    let upload = Event {
        source: "alice".to_string(),
        data: EventData::ImageUpload {
            name: "board.png".to_string(),
            image: b"PNGDATA".to_vec(),
        },
    };
    let r = srv.tick(vec![upload], Vec::new());
    assert!(r.broadcast.len() >= 3);
    let r2 = srv.tick(Vec::new(), vec![Some(connect("bob"))]);
    match &r2.decisions[0] {
        AdmitDecision::Admit { username, catch_up } => {
            assert_eq!(username, "bob");
            assert_eq!(catch_up.len(), 1);
            match &catch_up[0].data {
                EventData::ImageUpload { name, image } => {
                    assert_eq!(name, "board.png");
                    assert_eq!(image, &b"PNGDATA".to_vec());
                },
                _ => panic!("catch-up holds only image uploads"),
            }
        },
        _ => panic!("bob must be admitted"),
    }
}

#[test]
fn broadcast_holds_snapshot_then_sorted_roster_then_uploads() {
    let mut srv = Server::new();
    admit_user(&mut srv, "bob");
    admit_user(&mut srv, "alice");
    let upload = Event {
        source: "alice".to_string(),
        data: EventData::ImageUpload { name: "a.png".to_string(), image: vec![1, 2, 3] },
    };
    let r = srv.tick(vec![upload], Vec::new());
    assert_eq!(r.broadcast.len(), 3);
    match &r.broadcast[0].data {
        EventData::SendState { state } => assert_eq!(state, &srv.state),
        _ => panic!("first broadcast element is the snapshot"),
    }
    match &r.broadcast[1].data {
        EventData::PersonalUpdate { people } => {
            assert_eq!(people, &vec!["alice".to_string(), "bob".to_string()]);
        },
        _ => panic!("second broadcast element is the roster"),
    }
    match &r.broadcast[2].data {
        EventData::ImageUpload { name, image } => {
            assert_eq!(name, "a.png");
            assert_eq!(image, &vec![1, 2, 3]);
        },
        _ => panic!("third broadcast element is the upload fan-out"),
    }
}

#[test]
fn disconnect_removes_the_connection() {
    let mut srv = Server::new();
    admit_user(&mut srv, "alice");
    admit_user(&mut srv, "bob");
    let bye = Event {
        source: "bob".to_string(),
        data: EventData::Disconnection { username: "bob".to_string() },
    };
    let r = srv.tick(vec![bye], Vec::new());
    assert_eq!(srv.clients, vec!["alice".to_string()]);
    assert!(r.broadcast.len() >= 2);
}

#[test]
fn send_state_replaces_everything() {
    let mut srv = Server::new();
    admit_user(&mut srv, "alice");
    let mut snapshot = State::new();
    snapshot.name = "loaded".to_string();
    snapshot.create_token(&"w".to_string(), token(5, 5, 1, "w.png"), Layer::Base);
    let ev = Event {
        source: "alice".to_string(),
        data: EventData::SendState { state: snapshot.clone() },
    };
    srv.tick(vec![ev], Vec::new());
    assert_eq!(srv.state, snapshot);
}

#[test]
fn state_default_equals_new() {
    assert_eq!(State::default(), State::new());
}

#[test]
fn state_ops_move_and_destroy() {
    let mut st = State::new();
    let key = "hero".to_string();
    assert!(st.create_token(&key, token(0, 0, 1, "hero.png"), Layer::Base));
    assert!(!st.create_token(&key, token(9, 9, 1, "dup.png"), Layer::Gm));
    assert!(st.move_token(&key, &token(20, 40, 1, "hero.png")));
    assert_eq!(st.tokens.get_name(&key).unwrap().location, Pos { x: 20, y: 40 });
    assert!(!st.move_token(&"nobody".to_string(), &token(1, 1, 1, "n.png")));
    assert!(st.destroy_token(&key));
    assert!(!st.destroy_token(&key));
    assert!(!st.tokens.contains_name(&key));
}

#[test]
fn client_mirror_applies_server_events() {
    let mut cl = Client::new("127.0.0.1:8080".to_string());
    assert_eq!(cl.username, "root");
    assert_eq!(cl.working_layer, Layer::Base);
    assert_eq!(cl.mode, Mode::MoveAndPlace);
    let mut snapshot = State::new();
    snapshot.name = "mirrored".to_string();
    let r1 = cl.apply_server_event(Event {
        source: "_server".to_string(),
        data: EventData::SendState { state: snapshot.clone() },
    });
    assert!(r1.is_none());
    assert_eq!(cl.state, snapshot);
    let r2 = cl.apply_server_event(Event {
        source: "_server".to_string(),
        data: EventData::ImageUpload { name: "a.png".to_string(), image: vec![9, 8] },
    });
    assert_eq!(
        r2,
        Some(ImageUpload { name: "a.png".to_string(), image: vec![9, 8] }),
    );
    assert_eq!(cl.loaded_images, vec!["a.png".to_string()]);
    let r3 = cl.apply_server_event(Event {
        source: "_server".to_string(),
        data: EventData::PersonalUpdate { people: vec!["root".to_string()] },
    });
    assert!(r3.is_none());
    assert_eq!(cl.people, vec!["root".to_string()]);
    let r4 = cl.apply_server_event(Event {
        source: "x".to_string(),
        data: EventData::HeartBeat,
    });
    assert!(r4.is_none());
    assert_eq!(cl.people, vec!["root".to_string()]);
}

#[test]
fn chat_commands_classify() {
    assert_eq!(classify_message(&"hello".to_string()), Command::Plain);
    assert_eq!(classify_message(&String::new()), Command::Plain);
    assert_eq!(classify_message(&"\\exit".to_string()), Command::Exit);
    assert_eq!(classify_message(&"\\kill".to_string()), Command::Kill);
    assert_eq!(classify_message(&"\\roll 2d6".to_string()), Command::Roll);
    assert_eq!(classify_message(&"\\kick bob".to_string()), Command::Kick);
    assert_eq!(classify_message(&"\\roll_cheat 20".to_string()), Command::RollCheat);
    assert_eq!(classify_message(&"\\frobnicate".to_string()), Command::Invalid);
    assert_eq!(classify_message(&"\\roll".to_string()), Command::Invalid);
}

fn mirror_token(image: &str, x: i32, y: i32, ts: u64) -> MirrorToken {
    MirrorToken { image: image.to_string(), pos: Pos { x, y }, time_stamp: ts }
}

fn board_of(entries: Vec<(String, MirrorToken)>) -> BoardState {
    BoardState { tokens: NameMap { entries }, background_image: String::new() }
}

#[test]
fn reconciling_mirror_protects_recent_local_writes() {
    let time = 100u64;
    let mut local = board_of(vec![
        ("fresh".to_string(), mirror_token("f.png", 1, 1, 100)),
        ("stale".to_string(), mirror_token("s.png", 2, 2, 10)),
        ("gone".to_string(), mirror_token("g.png", 3, 3, 10)),
    ]);
    let remote = board_of(vec![
        ("fresh".to_string(), mirror_token("f2.png", 9, 9, 50)),
        ("stale".to_string(), mirror_token("s2.png", 8, 8, 50)),
        ("new".to_string(), mirror_token("n.png", 7, 7, 50)),
        ("recent".to_string(), mirror_token("t.png", 6, 6, 100)),
    ]);
    local.update_state(remote, time);
    let fresh = local.tokens.get_name(&"fresh".to_string()).unwrap();
    assert_eq!(fresh.image, "f.png");
    let stale = local.tokens.get_name(&"stale".to_string()).unwrap();
    assert_eq!(stale.image, "s2.png");
    assert!(!local.tokens.contains_name(&"gone".to_string()));
    let adopted = local.tokens.get_name(&"new".to_string()).unwrap();
    assert_eq!(adopted.image, "n.png");
    // A name absent locally has no local write to protect: adopted
    // whatever its own stamp reads.
    let adopted_recent = local.tokens.get_name(&"recent".to_string()).unwrap();
    assert_eq!(adopted_recent.image, "t.png");
}

#[test]
fn clock_reads_are_monotonic_enough_to_use() {
    let a = now();
    let b = now();
    assert!(b >= a || a - b < 2);
}
