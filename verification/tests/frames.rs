use tellus::addr::SocketAddr;
use tellus::cluster::codec::{check_leftover, decoded_value, CodecError, Postcard};
use tellus::cluster::discovery::{LookupResult, WireKey};
use tellus::cluster::frame::{
    Frame, Handshake, HandshakeError, HandshakeIntent, RefusalReason, StreamKey, PROTOCOL_MAGIC,
    PROTOCOL_VERSION,
};
use tellus::cluster::membership::{MemberState, WireMember};
use tellus::cluster::reachability::WireReachability;
use tellus::cluster::receptionist::WireRegistration;
use tellus::cluster::reply::ReplyTag;
use tellus::cluster::sink::{check_frame_size, RemoteSendError};
use tellus::ids::{ActorId, NodeId, Nonce};
use tellus::wire::DecodeError;

fn node() -> NodeId {
    NodeId::new(SocketAddr::v4(127, 0, 0, 1, 1234))
}

fn key() -> WireKey {
    WireKey::new("worker-pool", "u64")
}

#[test]
fn frames_key_on_the_actor_they_are_delivered_to() {
    let target = ActorId::new();
    let watcher = ActorId::new();

    let message = Frame::Message {
        target,
        reply_tags: Vec::new(),
        payload: vec![],
    };
    assert_eq!(message.stream_key(), Some(StreamKey::Actor(target)));
    assert_eq!(
        Frame::Terminated { target, watcher }.stream_key(),
        Some(StreamKey::Actor(watcher))
    );
    assert_eq!(
        Frame::Reply {
            nonce: Nonce::first(),
            recipient: Some(watcher),
            payload: vec![],
        }
        .stream_key(),
        Some(StreamKey::Actor(watcher))
    );
    assert_eq!(
        Frame::ReplyDropped {
            nonce: Nonce::first(),
            recipient: Some(watcher),
        }
        .stream_key(),
        Some(StreamKey::Actor(watcher))
    );
    assert_eq!(Frame::Watch { target, watcher }.stream_key(), None);
    assert_eq!(
        Frame::Gossip {
            members: Vec::new(),
            more: false,
        }
        .stream_key(),
        None
    );
    assert_eq!(
        Frame::Refused {
            reason: RefusalReason::UnknownMember
        }
        .stream_key(),
        None
    );
}

#[test]
fn a_reply_without_a_recipient_keys_on_its_nonce() {
    let nonce = Nonce::first();

    assert_eq!(
        Frame::Reply {
            nonce,
            recipient: None,
            payload: vec![],
        }
        .stream_key(),
        Some(StreamKey::Nonce(nonce))
    );
    assert_eq!(
        Frame::ReplyDropped {
            nonce,
            recipient: None,
        }
        .stream_key(),
        Some(StreamKey::Nonce(nonce))
    );
}

#[test]
fn gossip_matches_its_pinned_wire_bytes() {
    let bytes = [9, 0, 0];

    let frame = Frame::from_bytes(&bytes).expect("frame decodes");
    assert!(matches!(frame, Frame::Gossip { members, more } if members.is_empty() && !more));

    assert_eq!(
        Frame::Gossip {
            members: Vec::new(),
            more: false,
        }
        .encode_into(Vec::new()),
        bytes
    );

    assert_eq!(
        Frame::Gossip {
            members: Vec::new(),
            more: true,
        }
        .encode_into(Vec::new()),
        [9, 0, 1]
    );

    let bytes = [10, 1];

    let frame = Frame::from_bytes(&bytes).expect("frame decodes");
    assert!(matches!(
        frame,
        Frame::Refused {
            reason: RefusalReason::Down
        }
    ));

    assert_eq!(
        Frame::Refused {
            reason: RefusalReason::Down
        }
        .encode_into(Vec::new()),
        bytes
    );
}

const TARGET: u128 = 0x0001_0203_0405_0607_0809_0a0b_0c0d_0e0f;
const RECIPIENT: u128 = 0x1011_1213_1415_1617_1819_1a1b_1c1d_1e1f;

#[test]
fn delivered_frames_match_their_pinned_wire_bytes() {
    let bytes = [
        1, // Frame::Message
        16, 0, 1, 2, 3, 4, 5, 6, 7, 8, 9, 10, 11, 12, 13, 14, 15, // target
        0,  // no reply tags
        3, 1, 2, 3, // payload
    ];

    let frame = Frame::from_bytes(&bytes).expect("frame decodes");
    let Frame::Message {
        target,
        reply_tags,
        payload,
    } = &frame
    else {
        panic!("not a message frame");
    };
    assert_eq!(*target, ActorId(TARGET));
    assert!(reply_tags.is_empty());
    assert_eq!(payload, &[1, 2, 3]);
    assert_eq!(frame.encode_into(Vec::new()), bytes);

    let bytes = [
        4, // Frame::Terminated
        16, 0, 1, 2, 3, 4, 5, 6, 7, 8, 9, 10, 11, 12, 13, 14, 15, // target
        16, 16, 17, 18, 19, 20, 21, 22, 23, 24, 25, 26, 27, 28, 29, 30, 31, // watcher
    ];

    let frame = Frame::from_bytes(&bytes).expect("frame decodes");
    let Frame::Terminated { target, watcher } = &frame else {
        panic!("not a terminated frame");
    };
    assert_eq!(*target, ActorId(TARGET));
    assert_eq!(*watcher, ActorId(RECIPIENT));
    assert_eq!(frame.encode_into(Vec::new()), bytes);

    let bytes = [
        7, // Frame::Reply
        0, // nonce
        1, // recipient: Some
        16, 16, 17, 18, 19, 20, 21, 22, 23, 24, 25, 26, 27, 28, 29, 30, 31, // recipient
        2, 4, 5, // payload
    ];

    let frame = Frame::from_bytes(&bytes).expect("frame decodes");
    let Frame::Reply {
        nonce,
        recipient,
        payload,
    } = &frame
    else {
        panic!("not a reply frame");
    };
    assert_eq!(*nonce, Nonce::first());
    assert_eq!(
        recipient.expect("the reply names a recipient"),
        ActorId(RECIPIENT)
    );
    assert_eq!(payload, &[4, 5]);
    assert_eq!(frame.encode_into(Vec::new()), bytes);

    let bytes = [
        7, // Frame::Reply
        0, // nonce
        0, // recipient: None
        2, 4, 5, // payload
    ];

    let frame = Frame::from_bytes(&bytes).expect("frame decodes");
    let Frame::Reply { recipient, .. } = &frame else {
        panic!("not a reply frame");
    };
    assert_eq!(*recipient, None);
    assert_eq!(frame.encode_into(Vec::new()), bytes);
}

#[test]
fn refusals_match_their_pinned_wire_bytes() {
    let reasons = [
        (RefusalReason::UnknownMember, 0),
        (RefusalReason::Down, 1),
        (RefusalReason::NoCluster, 2),
    ];

    for (reason, discriminant) in reasons {
        let bytes = [
            10, // Frame::Refused
            discriminant,
        ];

        let frame = Frame::from_bytes(&bytes).expect("frame decodes");
        let Frame::Refused { reason: decoded } = &frame else {
            panic!("not a refused frame");
        };
        assert_eq!(*decoded, reason);
        assert_eq!(frame.encode_into(Vec::new()), bytes);
    }
}

fn sample_frames() -> Vec<Frame> {
    let node = node();
    let other = NodeId::new(SocketAddr::v4(127, 0, 0, 1, 5678));
    let target = ActorId::new();
    let watcher = ActorId::new();

    vec![
        Frame::Handshake(Handshake::new(node, HandshakeIntent::Join)),
        Frame::Message {
            target,
            reply_tags: vec![ReplyTag {
                nonce: Nonce::first(),
                recipient: Some(watcher),
            }],
            payload: vec![1, 2, 3],
        },
        Frame::Watch { target, watcher },
        Frame::Unwatch { target, watcher },
        Frame::Terminated { target, watcher },
        Frame::Lookup {
            nonce: Nonce::first(),
            key: key(),
        },
        Frame::LookupReply {
            nonce: Nonce::first(),
            result: LookupResult::Found { id: target },
        },
        Frame::Reply {
            nonce: Nonce::first(),
            recipient: Some(watcher),
            payload: vec![4, 5, 6],
        },
        Frame::ReplyDropped {
            nonce: Nonce::first(),
            recipient: Some(watcher),
        },
        Frame::Gossip {
            members: vec![
                WireMember {
                    node,
                    state: MemberState::Up,
                },
                WireMember {
                    node: other,
                    state: MemberState::Down,
                },
            ],
            more: true,
        },
        Frame::Refused {
            reason: RefusalReason::UnknownMember,
        },
        Frame::Reachability {
            observations: vec![WireReachability {
                observer: node,
                subject: other,
                version: 1,
                reachable: false,
            }],
        },
        Frame::Registrations {
            version: 300,
            chunk: 1,
            chunks: 2,
            entries: vec![WireRegistration {
                key: key(),
                id: target,
            }],
        },
    ]
}

#[test]
fn frames_round_trip() {
    for frame in sample_frames() {
        let bytes = frame.encode_into(Vec::new());
        assert_eq!(bytes.len(), frame.encoded_len());
        let decoded = Frame::from_bytes(&bytes).expect("frame decodes");
        assert_eq!(decoded, frame);
    }
}

#[test]
fn a_truncated_frame_does_not_decode() {
    for frame in sample_frames() {
        let bytes = frame.encode_into(Vec::new());
        assert!(Frame::from_bytes(&bytes[..bytes.len() - 1]).is_err());
    }
    assert_eq!(Frame::from_bytes(&[]), Err(DecodeError::UnexpectedEnd));
    assert_eq!(Frame::from_bytes(&[99]), Err(DecodeError::UnknownVariant));
    assert_eq!(Frame::from_bytes(&[9, 0, 2]), Err(DecodeError::BadBool));
    assert_eq!(Frame::from_bytes(&[8, 0, 2]), Err(DecodeError::BadOption));
    assert_eq!(
        Frame::from_bytes(&[5, 0, 1, 0xFF, 0]),
        Err(DecodeError::BadUtf8)
    );
    assert_eq!(
        Frame::from_bytes(&[2, 15, 0, 0, 0, 0, 0, 0, 0, 0, 0, 0, 0, 0, 0, 0, 0]),
        Err(DecodeError::BadIdentity)
    );
    assert_eq!(
        Frame::from_bytes(&[
            6, 0xFF, 0xFF, 0xFF, 0xFF, 0xFF, 0xFF, 0xFF, 0xFF, 0xFF, 0xFF, 0
        ]),
        Err(DecodeError::BadVarint)
    );
}

#[test]
fn the_frame_format_is_postcard() {
    let id: [u8; 16] = TARGET.to_be_bytes();
    let other: [u8; 16] = RECIPIENT.to_be_bytes();

    let message = Frame::Message {
        target: ActorId(TARGET),
        reply_tags: vec![ReplyTag {
            nonce: Nonce(300),
            recipient: Some(ActorId(RECIPIENT)),
        }],
        payload: vec![7; 200],
    };
    let expected = postcard::to_allocvec(&(
        1u32,
        id.as_slice(),
        vec![(300u64, Some(other.as_slice()))],
        vec![7u8; 200],
    ))
    .expect("the tuple encodes");
    assert_eq!(message.encode_into(Vec::new()), expected);

    let lookup = Frame::Lookup {
        nonce: Nonce(u64::MAX),
        key: WireKey::new("wörker", "u64"),
    };
    let expected =
        postcard::to_allocvec(&(5u32, u64::MAX, "wörker", "u64")).expect("the tuple encodes");
    assert_eq!(lookup.encode_into(Vec::new()), expected);

    let registrations = Frame::Registrations {
        version: 1 << 40,
        chunk: 3,
        chunks: 1_000,
        entries: vec![WireRegistration {
            key: WireKey::new("a", "b"),
            id: ActorId(TARGET),
        }],
    };
    let expected = postcard::to_allocvec(&(
        12u32,
        1u64 << 40,
        3u32,
        1_000u32,
        vec![(("a", "b"), id.as_slice())],
    ))
    .expect("the tuple encodes");
    assert_eq!(registrations.encode_into(Vec::new()), expected);

    let handshake = Frame::Handshake(Handshake::new(
        NodeId {
            addr: SocketAddr::v4(127, 0, 0, 1, 4242),
            incarnation: tellus::ids::Incarnation(TARGET),
        },
        HandshakeIntent::Join,
    ));
    let expected = postcard::to_allocvec(&(
        0u32,
        PROTOCOL_MAGIC,
        PROTOCOL_VERSION,
        ((0u32, [127u8, 0, 0, 1], 4242u16), id.as_slice()),
        1u32,
    ))
    .expect("the tuple encodes");
    assert_eq!(handshake.encode_into(Vec::new()), expected);
}

#[test]
fn only_message_and_reply_frames_are_counted() {
    let target = ActorId::new();
    let watcher = ActorId::new();

    assert!(Frame::Message {
        target,
        reply_tags: Vec::new(),
        payload: vec![]
    }
    .is_counted());
    assert!(Frame::Reply {
        nonce: Nonce::first(),
        recipient: Some(watcher),
        payload: vec![],
    }
    .is_counted());
    assert!(!Frame::ReplyDropped {
        nonce: Nonce::first(),
        recipient: Some(watcher),
    }
    .is_counted());
    assert!(!Frame::Watch { target, watcher }.is_counted());
    assert!(!Frame::Unwatch { target, watcher }.is_counted());
    assert!(!Frame::Terminated { target, watcher }.is_counted());
    assert!(!Frame::Lookup {
        nonce: Nonce::first(),
        key: key(),
    }
    .is_counted());
    assert!(!Frame::LookupReply {
        nonce: Nonce::first(),
        result: LookupResult::NotFound,
    }
    .is_counted());
    assert!(!Frame::Gossip {
        members: Vec::new(),
        more: false,
    }
    .is_counted());
    assert!(!Frame::Refused {
        reason: RefusalReason::Down
    }
    .is_counted());
}

#[test]
fn handshake_accepts_this_protocol() {
    let node = node();

    let (peer, intent) = Handshake::new(node, HandshakeIntent::Join)
        .validate()
        .expect("handshake is valid");
    assert_eq!(peer, node);
    assert_eq!(intent, HandshakeIntent::Join);
}

#[test]
fn handshake_rejects_alien_magic() {
    let handshake = Handshake {
        magic: !PROTOCOL_MAGIC,
        protocol_version: PROTOCOL_VERSION,
        node: node(),
        intent: HandshakeIntent::Member,
    };

    assert!(matches!(
        handshake.validate(),
        Err(HandshakeError::Magic(_))
    ));
}

#[test]
fn handshake_rejects_other_protocol_versions() {
    let handshake = Handshake {
        magic: PROTOCOL_MAGIC,
        protocol_version: PROTOCOL_VERSION + 1,
        node: node(),
        intent: HandshakeIntent::Member,
    };

    assert!(matches!(
        handshake.validate(),
        Err(HandshakeError::ProtocolVersion(_))
    ));
}

#[test]
fn admission_uses_the_exact_encoded_frame_size() {
    let target = ActorId::new();
    let frame = || Frame::Message {
        target,
        reply_tags: Vec::new(),
        payload: vec![0; 31],
    };
    let len = frame().encoded_len();

    assert!(check_frame_size(frame(), len).is_ok());

    assert!(matches!(
        check_frame_size(frame(), len - 1),
        Err(RemoteSendError::FrameTooLarge { len: actual, max })
            if actual == len && max == len - 1
    ));
    assert!(31 < len);
    assert!(matches!(
        check_frame_size(frame(), 32),
        Err(RemoteSendError::FrameTooLarge { len: actual, max: 32 }) if actual == len
    ));
}

#[test]
fn a_message_survives_the_erased_round_trip() {
    let payload = Postcard.encode(&"hello".to_string());

    let decoded = Postcard
        .decode_to::<String>(&payload)
        .expect("the payload decodes");

    assert_eq!(decoded, "hello");
    assert_eq!(
        payload,
        postcard::to_allocvec("hello").expect("the message encodes")
    );
}

#[test]
fn decode_to_yields_the_value_and_propagates_a_rejection() {
    let payload = Postcard.encode(&"hello".to_string());

    assert_eq!(
        Postcard.decode_to::<String>(&payload).expect("decodes"),
        "hello"
    );
    assert!(matches!(
        Postcard.decode_to::<u64>(&payload),
        Err(CodecError::Decode(_))
    ));
    assert_eq!(decoded_value(Some(7)), Ok(7));
    assert!(matches!(
        decoded_value::<u8>(None),
        Err(CodecError::Decode(_))
    ));
}

#[test]
fn undecodable_payloads_name_the_direction() {
    let payload = Postcard.encode(&u64::MAX);

    assert!(matches!(
        Postcard.decode_to::<bool>(&payload),
        Err(CodecError::Decode(text)) if text == "Found a bool that wasn't 0 or 1"
    ));
    assert!(matches!(
        Postcard.decode_to::<u64>(&[]),
        Err(CodecError::Decode(text)) if text == postcard::Error::DeserializeUnexpectedEnd.to_string()
    ));
    assert!(matches!(
        Postcard.decode_to::<u64>(&[0xFF; 11]),
        Err(CodecError::Decode(text)) if text == postcard::Error::DeserializeBadVarint.to_string()
    ));
}

#[test]
fn trailing_payload_bytes_are_rejected() {
    let mut payload = Postcard.encode(&u64::MAX);
    payload.push(0);

    assert!(matches!(
        Postcard.decode_to::<u64>(&payload),
        Err(CodecError::Decode(_))
    ));
    assert!(check_leftover(0).is_ok());
    assert!(check_leftover(1).is_err());
}
