//! Wire codec and framing behaviour, exercised end to end.

use boredgames::codec::{decode_event, encode_event, encode_frame, FrameReader, FrameStep};
use boredgames::communication::{Event, EventData, Layer, NameMap, Pos, State, Token};

fn token(x: i32, y: i32, scale: i32, image: &str, display: &str) -> Token {
    Token {
        location: Pos { x, y },
        scale,
        image: image.to_string(),
        display_name: display.to_string(),
    }
}

fn round_trips(ev: Event) {
    let payload = encode_event(&ev);
    let back = decode_event(&payload).expect("payload must decode");
    assert_eq!(back, ev);
}

#[test]
fn round_trip_message() {
    round_trips(Event {
        source: "alice".to_string(),
        data: EventData::Message {
            from: "alice".to_string(),
            contents: "hello there".to_string(),
            time_stamp: 170141183460469231731687303715884105727u128,
        },
    });
}

#[test]
fn round_trip_message_empty_strings() {
    round_trips(Event {
        source: String::new(),
        data: EventData::Message { from: String::new(), contents: String::new(), time_stamp: 0 },
    });
}

#[test]
fn round_trip_connection_events() {
    round_trips(Event {
        source: "bob".to_string(),
        data: EventData::Connection { username: "bob".to_string() },
    });
    round_trips(Event {
        source: "bob".to_string(),
        data: EventData::Disconnection { username: "bob".to_string() },
    });
    round_trips(Event {
        source: "bob".to_string(),
        data: EventData::Kill { password: "tablekey".to_string() },
    });
    round_trips(Event { source: "bob".to_string(), data: EventData::HeartBeat });
}

#[test]
fn round_trip_token_events() {
    round_trips(Event {
        source: "gm".to_string(),
        data: EventData::TokenMoved {
            name: "hero".to_string(),
            to: token(-40, 2147483647, 3, "hero.png", "Hero"),
            layer: Layer::Board,
        },
    });
    round_trips(Event {
        source: "gm".to_string(),
        data: EventData::TokenCreated {
            name: "drache".to_string(),
            token: token(-2147483648, 0, 1, "drache.png", ""),
            layer: Layer::Gm,
        },
    });
    round_trips(Event {
        source: "gm".to_string(),
        data: EventData::TokenDestroyed { name: "drache".to_string(), layer: Layer::Base },
    });
}

#[test]
fn round_trip_image_upload() {
    round_trips(Event {
        source: "alice".to_string(),
        data: EventData::ImageUpload {
            name: "board.png".to_string(),
            image: vec![0u8, 255, 137, 80, 78, 71],
        },
    });
}

#[test]
fn round_trip_image_upload_empty_bytes() {
    round_trips(Event {
        source: "alice".to_string(),
        data: EventData::ImageUpload { name: "empty.bin".to_string(), image: Vec::new() },
    });
}

#[test]
fn round_trip_send_state_empty_maps() {
    round_trips(Event {
        source: "alice".to_string(),
        data: EventData::SendState { state: State::new() },
    });
}

#[test]
fn round_trip_send_state_populated() {
    let mut st = State::new();
    st.name = "table one".to_string();
    st.push_message("alice".to_string(), "hi".to_string());
    st.push_message("bob".to_string(), "ho".to_string());
    st.create_token(&"hero".to_string(), token(20, 40, 2, "hero.png", "Hero"), Layer::Base);
    st.create_token(&"wall".to_string(), token(60, 80, 1, "wall.png", ""), Layer::Board);
    st.create_token(&"geist".to_string(), token(100, 120, 1, "geist.png", "?"), Layer::Gm);
    round_trips(Event { source: "alice".to_string(), data: EventData::SendState { state: st } });
}

#[test]
fn round_trip_personal_update() {
    round_trips(Event {
        source: "_server".to_string(),
        data: EventData::PersonalUpdate {
            people: vec!["alice".to_string(), "bob".to_string(), String::new()],
        },
    });
    round_trips(Event {
        source: "_server".to_string(),
        data: EventData::PersonalUpdate { people: Vec::new() },
    });
}

#[test]
fn round_trip_unicode_strings() {
    round_trips(Event {
        source: "ren\u{e9}e".to_string(),
        data: EventData::Message {
            from: "\u{1f409}".to_string(),
            contents: "gr\u{fc}\u{df}e \u{2603}".to_string(),
            time_stamp: 7,
        },
    });
}

#[test]
fn decode_rejects_empty_payload() {
    assert!(decode_event(&Vec::new()).is_err());
}

#[test]
fn decode_rejects_unknown_tag() {
    let ev = Event { source: String::new(), data: EventData::HeartBeat };
    let mut payload = encode_event(&ev);
    let last = payload.len() - 1;
    payload[last] = b'Z';
    assert!(decode_event(&payload).is_err());
}

#[test]
fn decode_rejects_trailing_bytes() {
    let ev = Event { source: "x".to_string(), data: EventData::HeartBeat };
    let mut payload = encode_event(&ev);
    payload.push(b'H');
    assert!(decode_event(&payload).is_err());
}

#[test]
fn encoded_payload_is_utf8_text() {
    let ev = Event {
        source: "alice".to_string(),
        data: EventData::ImageUpload { name: "a.png".to_string(), image: vec![0, 1, 254, 255] },
    };
    let payload = encode_event(&ev);
    assert!(String::from_utf8(payload).is_ok());
}

#[test]
fn try_read_frame_never_decodes_partial_data() {
    let ev = Event {
        source: "alice".to_string(),
        data: EventData::Message {
            from: "alice".to_string(),
            contents: "polled in pieces".to_string(),
            time_stamp: 42,
        },
    };
    let frame = encode_frame(&ev);
    let mut reader = FrameReader::new();
    let mut polls_without_event = 0usize;
    let mut got: Option<Event> = None;
    for byte in frame.iter() {
        match reader.try_next() {
            FrameStep::NoEventYet => polls_without_event += 1,
            _ => panic!("no event may appear before the frame is whole"),
        }
        reader.feed(vec![*byte]);
    }
    match reader.try_next() {
        FrameStep::Got(e) => got = Some(e),
        _ => panic!("a whole frame must decode"),
    }
    assert_eq!(got.unwrap(), ev);
    assert_eq!(polls_without_event, frame.len());
    match reader.try_next() {
        FrameStep::NoEventYet => {},
        _ => panic!("exactly one event per frame"),
    }
}

#[test]
fn try_read_frame_two_frames_one_buffer() {
    let e1 = Event { source: "a".to_string(), data: EventData::HeartBeat };
    let e2 = Event {
        source: "b".to_string(),
        data: EventData::Connection { username: "b".to_string() },
    };
    let mut bytes = encode_frame(&e1);
    bytes.extend_from_slice(&encode_frame(&e2));
    let mut reader = FrameReader::new();
    reader.feed(bytes);
    match reader.try_next() {
        FrameStep::Got(e) => assert_eq!(e, e1),
        _ => panic!("first frame must decode"),
    }
    match reader.try_next() {
        FrameStep::Got(e) => assert_eq!(e, e2),
        _ => panic!("second frame must decode"),
    }
}

#[test]
fn frame_header_alone_is_no_event() {
    let ev = Event { source: "alice".to_string(), data: EventData::HeartBeat };
    let frame = encode_frame(&ev);
    let mut reader = FrameReader::new();
    reader.feed(frame[..8].to_vec());
    match reader.try_next() {
        FrameStep::NoEventYet => {},
        _ => panic!("a length prefix alone is not a frame"),
    }
    reader.feed(frame[8..].to_vec());
    match reader.try_next() {
        FrameStep::Got(e) => assert_eq!(e, ev),
        _ => panic!("the completed frame must decode"),
    }
}

#[test]
fn drain_collects_whole_frames_and_keeps_the_tail() {
    let e1 = Event { source: "a".to_string(), data: EventData::HeartBeat };
    let e2 = Event {
        source: "b".to_string(),
        data: EventData::Connection { username: "b".to_string() },
    };
    let mut bytes = encode_frame(&e1);
    bytes.extend_from_slice(&encode_frame(&e2));
    let tail = encode_frame(&Event { source: "c".to_string(), data: EventData::HeartBeat });
    bytes.extend_from_slice(&tail[..tail.len() - 1]);
    let mut reader = FrameReader::new();
    reader.feed(bytes);
    let (events, malformed) = reader.drain_events();
    assert_eq!(events, vec![e1, e2]);
    assert!(!malformed);
    reader.feed(vec![tail[tail.len() - 1]]);
    let (rest, malformed2) = reader.drain_events();
    assert_eq!(rest.len(), 1);
    assert!(!malformed2);
}

#[test]
fn drain_reports_a_malformed_frame_after_good_ones() {
    let good = Event { source: "a".to_string(), data: EventData::HeartBeat };
    let mut bytes = encode_frame(&good);
    bytes.extend_from_slice(&(1u64).to_le_bytes());
    bytes.push(b'?');
    let mut reader = FrameReader::new();
    reader.feed(bytes);
    let (events, malformed) = reader.drain_events();
    assert_eq!(events, vec![good]);
    assert!(malformed);
}

#[test]
fn try_read_frame_reports_malformed_payload() {
    let mut bytes = (2u64).to_le_bytes().to_vec();
    bytes.push(b'z');
    bytes.push(b'z');
    let mut reader = FrameReader::new();
    reader.feed(bytes);
    match reader.try_next() {
        FrameStep::Malformed => {},
        _ => panic!("garbage payload must be reported malformed"),
    }
}

#[test]
fn name_map_basics() {
    let mut m: NameMap<Token> = NameMap::new();
    assert_eq!(m.len(), 0);
    m.set_name(&"a".to_string(), token(1, 2, 1, "a.png", ""));
    m.set_name(&"b".to_string(), token(3, 4, 1, "b.png", ""));
    assert!(m.contains_name(&"a".to_string()));
    assert!(!m.contains_name(&"c".to_string()));
    m.set_name(&"a".to_string(), token(9, 9, 2, "a2.png", ""));
    assert_eq!(m.len(), 2);
    assert_eq!(m.get_name(&"a".to_string()).unwrap().scale, 2);
    assert!(m.remove_name(&"a".to_string()));
    assert!(!m.remove_name(&"a".to_string()));
    assert_eq!(m.len(), 1);
}
