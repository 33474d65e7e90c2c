use zenoh_router::io::rwbuf::RWBuf;
use zenoh_router::io::wire::DecodeError;
use zenoh_router::proto::decl::{Declaration, SubMode};
use zenoh_router::proto::msg::{
    Body, Message, MessageKind, QueryConsolidation, QueryTarget, ReplyContext, ReplySource, Target,
};
use zenoh_router::types::{PeerId, Property, ResKey, TimeStamp};

fn plain(body: Body) -> Message {
    Message { kind: MessageKind::FullMessage, cid: None, reply_context: None, properties: None, body }
}

fn roundtrip(m: &Message) -> Message {
    let mut buf = RWBuf::new(64);
    buf.write_message(m);
    let written = buf.write_pos();
    let r = buf.read_message().unwrap();
    assert_eq!(buf.get_read_pos(), written);
    r
}

#[test]
fn codec_round_trip_data() {
    let m = plain(Body::Data {
        reliable: true,
        sn: 42,
        key: ResKey::RIdWithSuffix(11, "/y".to_string()),
        info: None,
        payload: vec![0xAA, 0xBB],
    });
    let mut buf = RWBuf::new(64);
    buf.write_message(&m);
    // header: DATA with the R flag; sn; key id; suffix; payload
    assert_eq!(buf.readable_slice(), &[0x27, 42, 11, 2, b'/', b'y', 2, 0xAA, 0xBB][..]);
    let back = buf.read_message().unwrap();
    assert_eq!(back, m);
    assert_eq!(buf.readable_len(), 0);
}

#[test]
fn zint_bytes() {
    let cases: [(u64, &[u8]); 7] = [
        (0, &[0x00]),
        (1, &[0x01]),
        (127, &[0x7f]),
        (128, &[0x80, 0x01]),
        (300, &[0xac, 0x02]),
        (16384, &[0x80, 0x80, 0x01]),
        (u64::MAX, &[0xff, 0xff, 0xff, 0xff, 0xff, 0xff, 0xff, 0xff, 0xff, 0x01]),
    ];
    for (v, bytes) in cases.iter() {
        let mut buf = RWBuf::new(16);
        buf.write_zint(*v);
        assert_eq!(buf.readable_slice(), *bytes);
        assert_eq!(buf.read_zint(), Ok(*v));
        assert_eq!(buf.readable_len(), 0);
    }
}

#[test]
fn zint_errors() {
    // The bytes end while a continuation is announced.
    let mut buf = RWBuf::from_vec(vec![0x80, 0x80]);
    assert_eq!(buf.read_zint(), Err(DecodeError::OutOfBounds));
    assert_eq!(buf.get_read_pos(), 0);
    // Nothing to read at all.
    let mut buf = RWBuf::from_vec(vec![]);
    assert_eq!(buf.read_zint(), Err(DecodeError::OutOfBounds));
    // More than ten continuation bytes.
    let mut buf = RWBuf::from_vec(vec![0x80; 12]);
    assert_eq!(buf.read_zint(), Err(DecodeError::ZIntOverflow));
    // Ten bytes whose value needs more than 64 bits.
    let mut buf =
        RWBuf::from_vec(vec![0xff, 0xff, 0xff, 0xff, 0xff, 0xff, 0xff, 0xff, 0xff, 0x02]);
    assert_eq!(buf.read_zint(), Err(DecodeError::ZIntOverflow));
    // Ten continuation bytes are accepted where the value fits.
    let mut buf = RWBuf::from_vec(vec![
        0x81, 0x80, 0x80, 0x80, 0x80, 0x80, 0x80, 0x80, 0x80, 0x80, 0x00,
    ]);
    assert_eq!(buf.read_zint(), Ok(1));
}

#[test]
fn string_and_bytes() {
    let mut buf = RWBuf::new(16);
    buf.write_string("/demo");
    buf.write_bytes_array(&[1, 2, 3]);
    assert_eq!(buf.readable_slice(), &[5, b'/', b'd', b'e', b'm', b'o', 3, 1, 2, 3][..]);
    assert_eq!(buf.read_string(), Ok("/demo".to_string()));
    assert_eq!(buf.read_bytes_array(), Ok(vec![1, 2, 3]));
    assert_eq!(buf.read(), Err(DecodeError::OutOfBounds));
}

#[test]
fn invalid_utf8_is_rejected() {
    let mut buf = RWBuf::from_vec(vec![2, 0xc3, 0x28]);
    assert_eq!(buf.read_string(), Err(DecodeError::InvalidUtf8));
    let mut buf = RWBuf::from_vec(vec![4, b'a']);
    assert_eq!(buf.read_string(), Err(DecodeError::OutOfBounds));
}

#[test]
fn reskey_forms() {
    let keys = [
        ResKey::RName("/a/b".to_string()),
        ResKey::RId(7),
        ResKey::RIdWithSuffix(7, "/x".to_string()),
    ];
    for k in keys.iter() {
        let mut buf = RWBuf::new(16);
        buf.write_reskey(k);
        assert_eq!(buf.read_reskey(k.is_numeric()).as_ref(), Ok(k));
    }
    let mut buf = RWBuf::new(16);
    buf.write_reskey(&ResKey::RName("/a".to_string()));
    assert_eq!(buf.readable_slice(), &[0, 2, b'/', b'a'][..]);
}

#[test]
fn unknown_ids_are_errors() {
    let mut buf = RWBuf::from_vec(vec![0x00]);
    assert_eq!(buf.read_message(), Err(DecodeError::UnknownMessageId(0)));
    let mut buf = RWBuf::from_vec(vec![0x1e]);
    assert_eq!(buf.read_message(), Err(DecodeError::UnknownMessageId(0x1e)));
    let mut buf = RWBuf::from_vec(vec![0x1d, 0]);
    assert_eq!(buf.read_declaration(), Err(DecodeError::UnknownDeclarationId(0x1d)));
    let mut buf = RWBuf::from_vec(vec![9]);
    assert_eq!(buf.read_submode(), Err(DecodeError::UnknownSubMode(9)));
    let mut buf = RWBuf::from_vec(vec![4]);
    assert_eq!(buf.read_target(), Err(DecodeError::UnknownTarget(4)));
    let mut buf = RWBuf::from_vec(vec![3]);
    assert_eq!(buf.read_consolidation(), Err(DecodeError::UnknownConsolidation(3)));
    let mut buf = RWBuf::from_vec(vec![]);
    assert_eq!(buf.read_message(), Err(DecodeError::OutOfBounds));
}

#[test]
fn submodes_and_targets() {
    let modes = [
        SubMode::Push,
        SubMode::Pull,
        SubMode::PeriodicPush { origin: 1, period: 200, duration: 3 },
        SubMode::PeriodicPull { origin: 4, period: 5, duration: 600 },
    ];
    for m in modes.iter() {
        let mut buf = RWBuf::new(16);
        buf.write_submode(m);
        assert_eq!(buf.read_submode(), Ok(*m));
    }
    let targets = [Target::BestMatching, Target::Complete { n: 3 }, Target::All, Target::NoTarget];
    for t in targets.iter() {
        let mut buf = RWBuf::new(16);
        buf.write_target(t);
        assert_eq!(buf.read_target(), Ok(*t));
    }
    let mut buf = RWBuf::new(16);
    let qt = QueryTarget { storage: Target::Complete { n: 2 }, eval: Target::NoTarget };
    buf.write_query_target(&qt);
    assert_eq!(buf.readable_slice(), &[1, 2, 3][..]);
    assert_eq!(buf.read_query_target(), Ok(qt));
}

#[test]
fn timestamp_round_trip() {
    let id: [u8; 16] = [1, 2, 3, 4, 5, 6, 7, 8, 9, 10, 11, 12, 13, 14, 15, 16];
    let t = TimeStamp::new(77, id);
    assert_eq!(t.id_bytes(), id);
    assert_eq!(t.id, uuid::Uuid::from_bytes(id));
    let mut buf = RWBuf::new(32);
    buf.write_timestamp(&t);
    assert_eq!(buf.readable_len(), 17);
    assert_eq!(&buf.readable_slice()[1..], &id[..]);
    assert_eq!(buf.read_timestamp(), Ok(t));
    let mut short = RWBuf::from_vec(vec![77, 1, 2, 3]);
    assert_eq!(short.read_timestamp(), Err(DecodeError::OutOfBounds));
}

#[test]
fn every_message_round_trips() {
    let pid = PeerId { id: vec![1, 2, 3, 4] };
    let bodies = vec![
        Body::Scout { what: None },
        Body::Scout { what: Some(3) },
        Body::Hello { whatami: Some(1), locators: Some(vec!["tcp/127.0.0.1:7447".to_string()]) },
        Body::Hello { whatami: None, locators: None },
        Body::Open {
            version: 1,
            whatami: Some(2),
            pid: pid.clone(),
            lease: 1000,
            locators: Some(vec!["udp/10.0.0.1:1".to_string(), "tcp/h:2".to_string()]),
        },
        Body::Accept { opid: pid.clone(), apid: PeerId { id: vec![9] }, lease: 7 },
        Body::Close { pid: Some(pid.clone()), reason: 3 },
        Body::Close { pid: None, reason: 0 },
        Body::KeepAlive { pid: Some(pid.clone()) },
        Body::KeepAlive { pid: None },
        Body::Declare {
            sn: 5,
            declarations: vec![
                Declaration::Resource { rid: 7, key: ResKey::RName("/demo".to_string()) },
                Declaration::ForgetResource { rid: 7 },
                Declaration::Publisher { key: ResKey::RId(7) },
                Declaration::ForgetPublisher { key: ResKey::RId(7) },
                Declaration::Subscriber { key: ResKey::RId(7), mode: SubMode::Push },
                Declaration::Subscriber {
                    key: ResKey::RIdWithSuffix(7, "/**".to_string()),
                    mode: SubMode::PeriodicPull { origin: 1, period: 2, duration: 3 },
                },
                Declaration::ForgetSubscriber { key: ResKey::RName("/a".to_string()) },
                Declaration::Storage { key: ResKey::RName("/s".to_string()) },
                Declaration::ForgetStorage { key: ResKey::RName("/s".to_string()) },
                Declaration::Eval { key: ResKey::RName("/e".to_string()) },
                Declaration::ForgetEval { key: ResKey::RName("/e".to_string()) },
            ],
        },
        Body::Data {
            reliable: false,
            sn: 1,
            key: ResKey::RName("/demo/x".to_string()),
            info: Some(vec![9, 9]),
            payload: vec![],
        },
        Body::Pull {
            is_final: true,
            sn: 2,
            key: ResKey::RId(4),
            pull_id: 8,
            max_samples: Some(100),
        },
        Body::Query {
            sn: 3,
            key: ResKey::RName("/q/**".to_string()),
            predicate: "a>1".to_string(),
            qid: 12,
            target: Some(QueryTarget { storage: Target::All, eval: Target::Complete { n: 2 } }),
            consolidation: QueryConsolidation::Incremental,
        },
        Body::Query {
            sn: 3,
            key: ResKey::RId(1),
            predicate: String::new(),
            qid: 0,
            target: None,
            consolidation: QueryConsolidation::NoConsolidation,
        },
        Body::Ping { hash: 99 },
        Body::Pong { hash: 99 },
        Body::Sync { reliable: true, sn: 4, count: Some(2) },
        Body::Sync { reliable: false, sn: 4, count: None },
        Body::AckNack { sn: 6, mask: Some(0xff) },
        Body::AckNack { sn: 6, mask: None },
    ];
    for b in bodies {
        let m = plain(b);
        assert_eq!(roundtrip(&m), m);
    }
}

#[test]
fn decorators_round_trip() {
    let kinds = [
        MessageKind::FullMessage,
        MessageKind::FirstFragment { n: None },
        MessageKind::FirstFragment { n: Some(4) },
        MessageKind::InbetweenFragment,
        MessageKind::LastFragment,
    ];
    let cids = [None, Some(0), Some(1), Some(2), Some(3), Some(4), Some(1000)];
    let replies = [
        None,
        Some(ReplyContext { is_final: true, qid: 5, source: ReplySource::Storage, replier_id: None }),
        Some(ReplyContext {
            is_final: false,
            qid: 6,
            source: ReplySource::Eval,
            replier_id: Some(PeerId { id: vec![7, 7] }),
        }),
    ];
    let props = [
        None,
        Some(vec![]),
        Some(vec![Property { key: 1, value: vec![1, 2] }, Property { key: 300, value: vec![] }]),
    ];
    for kind in kinds.iter() {
        for cid in cids.iter() {
            for reply in replies.iter() {
                for p in props.iter() {
                    let m = Message {
                        kind: *kind,
                        cid: *cid,
                        reply_context: reply.clone(),
                        properties: p.clone(),
                        body: Body::KeepAlive { pid: None },
                    };
                    assert_eq!(roundtrip(&m), m);
                }
            }
        }
    }
}

#[test]
fn conduit_id_in_the_header() {
    let mut m = plain(Body::Ping { hash: 1 });
    m.cid = Some(2);
    let mut buf = RWBuf::new(8);
    buf.write_message(&m);
    // CONDUIT with the Z flag and the id 2 in the two bits under it; then PING.
    assert_eq!(buf.readable_slice(), &[0x10 | 0x80 | 0x40, 0x0a | 0x20, 1][..]);
    m.cid = Some(4);
    let mut buf = RWBuf::new(8);
    buf.write_message(&m);
    assert_eq!(buf.readable_slice(), &[0x10, 4, 0x0a | 0x20, 1][..]);
}

#[test]
fn truncated_message_is_out_of_bounds() {
    let m = plain(Body::Data {
        reliable: true,
        sn: 42,
        key: ResKey::RIdWithSuffix(11, "/y".to_string()),
        info: None,
        payload: vec![0xAA, 0xBB],
    });
    let mut buf = RWBuf::new(64);
    buf.write_message(&m);
    let all = buf.readable_slice().to_vec();
    for n in 0..all.len() {
        let mut short = RWBuf::from_vec(all[..n].to_vec());
        assert_eq!(short.read_message(), Err(DecodeError::OutOfBounds));
    }
}

#[test]
fn two_messages_in_a_row() {
    let a = plain(Body::Ping { hash: 1 });
    let b = plain(Body::Scout { what: Some(2) });
    let mut buf = RWBuf::new(8);
    buf.write_message(&a);
    buf.write_message(&b);
    assert_eq!(buf.read_message(), Ok(a));
    assert_eq!(buf.read_message(), Ok(b));
    assert_eq!(buf.read_message(), Err(DecodeError::OutOfBounds));
    buf.clear();
    assert_eq!(buf.readable_len(), 0);
    assert_eq!(buf.set_read_pos(1), Err(DecodeError::OutOfBounds));
}

#[test]
fn peer_id_has_sixteen_bytes_at_most() {
    let mut buf = RWBuf::new(32);
    buf.write_bytes_array(&[7u8; 16]);
    assert_eq!(buf.read_peerid(), Ok(PeerId { id: vec![7u8; 16] }));
    assert_eq!(buf.readable_len(), 0);
    let mut buf = RWBuf::new(32);
    buf.write_bytes_array(&[7u8; 17]);
    assert_eq!(buf.read_peerid(), Err(DecodeError::PeerIdTooLong));
    let mut buf = RWBuf::new(32);
    buf.write_bytes_array(&[]);
    assert_eq!(buf.read_peerid(), Ok(PeerId { id: vec![] }));
    // An id that ends before its length says so is out of bounds, whatever its length.
    let mut buf = RWBuf::from_vec(vec![17, 1, 2]);
    assert_eq!(buf.read_peerid(), Err(DecodeError::OutOfBounds));
    let mut buf = RWBuf::new(32);
    buf.write_bytes_array(&[7u8; 17]);
    assert_eq!(buf.read_opt_peerid(true), Err(DecodeError::PeerIdTooLong));
    assert_eq!(RWBuf::new(1).read_opt_peerid(false), Ok(None));
}

#[test]
fn message_with_a_long_peer_id_is_refused() {
    let long = PeerId { id: vec![1u8; 17] };
    let short = PeerId { id: vec![1u8; 16] };
    let bodies = |pid: &PeerId| {
        vec![
            Body::Open { version: 1, whatami: None, pid: pid.clone(), lease: 5, locators: None },
            Body::Accept { opid: pid.clone(), apid: PeerId { id: vec![2] }, lease: 5 },
            Body::Accept { opid: PeerId { id: vec![2] }, apid: pid.clone(), lease: 5 },
            Body::Close { pid: Some(pid.clone()), reason: 0 },
            Body::KeepAlive { pid: Some(pid.clone()) },
        ]
    };
    for b in bodies(&long) {
        let mut buf = RWBuf::new(64);
        buf.write_message(&plain(b));
        assert_eq!(buf.read_message(), Err(DecodeError::PeerIdTooLong));
    }
    for b in bodies(&short) {
        let m = plain(b);
        let mut buf = RWBuf::new(64);
        buf.write_message(&m);
        assert_eq!(buf.read_message(), Ok(m));
    }
    let mut reply = plain(Body::KeepAlive { pid: None });
    reply.reply_context = Some(ReplyContext {
        is_final: false,
        qid: 3,
        source: ReplySource::Storage,
        replier_id: Some(long),
    });
    let mut buf = RWBuf::new(64);
    buf.write_message(&reply);
    assert_eq!(buf.read_message(), Err(DecodeError::PeerIdTooLong));
}
