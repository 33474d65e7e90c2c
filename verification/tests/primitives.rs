use zenoh_router::io::rwbuf::RWBuf;
use zenoh_router::proto::decl::{Declaration, Period, Reliability, SubInfo, SubMode};
use zenoh_router::proto::demux::{demux, DeMux};
use zenoh_router::proto::msg::{
    Body, Message, MessageKind, QueryConsolidation, QueryTarget, ReplySource, Target,
};
use zenoh_router::proto::mux::{message_of, Mux};
use zenoh_router::proto::primitives::{dispatch, Call, Primitives, Reply};
use zenoh_router::routing::outbound::{Outbound, RoutingError};
use zenoh_router::routing::tables::Tables;
use zenoh_router::types::{PeerId, ResKey, WhatAmI};

fn push_sub() -> SubInfo {
    SubInfo { reliability: Reliability::Reliable, mode: SubMode::Push, period: None }
}

fn sample_calls() -> Vec<Call> {
    let key = ResKey::RIdWithSuffix(3, "/x".to_string());
    let pid = PeerId { id: vec![1, 2] };
    vec![
        Call::Resource { rid: 3, reskey: ResKey::RName("/a".to_string()) },
        Call::ForgetResource { rid: 3 },
        Call::Publisher { reskey: key.clone() },
        Call::ForgetPublisher { reskey: key.clone() },
        Call::Subscriber { reskey: key.clone(), sub_info: push_sub() },
        Call::Subscriber {
            reskey: ResKey::RId(3),
            sub_info: SubInfo {
                reliability: Reliability::Reliable,
                mode: SubMode::PeriodicPull { origin: 1, period: 2, duration: 3 },
                period: None,
            },
        },
        Call::ForgetSubscriber { reskey: key.clone() },
        Call::Storage { reskey: key.clone() },
        Call::ForgetStorage { reskey: key.clone() },
        Call::Eval { reskey: key.clone() },
        Call::ForgetEval { reskey: key.clone() },
        Call::Data { reskey: key.clone(), reliable: true, info: Some(vec![7]), payload: vec![8, 9] },
        Call::Data { reskey: key.clone(), reliable: false, info: None, payload: vec![] },
        Call::Query {
            reskey: key.clone(),
            predicate: "p".to_string(),
            qid: 4,
            target: Some(QueryTarget { storage: Target::All, eval: Target::NoTarget }),
            consolidation: QueryConsolidation::LastBroker,
        },
        Call::Reply {
            qid: 4,
            reply: Reply::ReplyData {
                source: ReplySource::Eval,
                replier_id: pid.clone(),
                reskey: key.clone(),
                info: None,
                payload: vec![5],
            },
        },
        Call::Reply {
            qid: 4,
            reply: Reply::SourceFinal { source: ReplySource::Storage, replier_id: pid.clone() },
        },
        Call::Reply { qid: 4, reply: Reply::ReplyFinal },
        Call::Pull { is_final: true, reskey: key.clone(), pull_id: 6, max_samples: Some(10) },
        Call::Close,
    ]
}

#[test]
fn demux_of_mux_is_the_call() {
    for (sn, call) in sample_calls().into_iter().enumerate() {
        let m = message_of(call.clone(), sn as u64);
        assert_eq!(demux(&m), vec![call]);
    }
}

#[test]
fn calls_survive_the_wire() {
    for (sn, call) in sample_calls().into_iter().enumerate() {
        let m = message_of(call.clone(), sn as u64);
        let mut buf = RWBuf::new(64);
        buf.write_message(&m);
        let back = buf.read_message().unwrap();
        assert_eq!(back, m);
        assert_eq!(demux(&back), vec![call]);
    }
}

#[test]
fn the_wire_carries_the_mode_of_a_subscription_alone() {
    let info = SubInfo {
        reliability: Reliability::BestEffort,
        mode: SubMode::Pull,
        period: Some(Period { origin: 1, period: 2, duration: 3 }),
    };
    let call = Call::Subscriber { reskey: ResKey::RId(1), sub_info: info };
    let m = message_of(call, 0);
    assert_eq!(
        demux(&m),
        vec![Call::Subscriber {
            reskey: ResKey::RId(1),
            sub_info: SubInfo::with_mode(SubMode::Pull)
        }]
    );
}

#[test]
fn mux_numbers_its_messages() {
    let mut mux = Mux::new();
    mux.resource(1, ResKey::RName("/a".to_string()));
    mux.data(ResKey::RId(1), true, None, vec![1]);
    mux.close();
    let out = mux.take();
    assert_eq!(out.len(), 3);
    assert_eq!(
        out[0].body,
        Body::Declare {
            sn: 0,
            declarations: vec![Declaration::Resource {
                rid: 1,
                key: ResKey::RName("/a".to_string())
            }]
        }
    );
    assert_eq!(
        out[1].body,
        Body::Data { reliable: true, sn: 1, key: ResKey::RId(1), info: None, payload: vec![1] }
    );
    assert_eq!(out[2].body, Body::Close { pid: None, reason: 0 });
    assert!(mux.take().is_empty());
    mux.forget_resource(1);
    assert_eq!(mux.take()[0].body, Body::Declare {
        sn: 3,
        declarations: vec![Declaration::ForgetResource { rid: 1 }]
    });
}

#[test]
fn a_declare_message_is_several_calls() {
    let m = Message {
        kind: MessageKind::FullMessage,
        cid: None,
        reply_context: None,
        properties: None,
        body: Body::Declare {
            sn: 9,
            declarations: vec![
                Declaration::Resource { rid: 1, key: ResKey::RName("/a".to_string()) },
                Declaration::Subscriber { key: ResKey::RId(1), mode: SubMode::Push },
                Declaration::Storage { key: ResKey::RId(1) },
            ],
        },
    };
    let calls = demux(&m);
    assert_eq!(
        calls,
        vec![
            Call::Resource { rid: 1, reskey: ResKey::RName("/a".to_string()) },
            Call::Subscriber { reskey: ResKey::RId(1), sub_info: push_sub() },
            Call::Storage { reskey: ResKey::RId(1) },
        ]
    );
    // The demultiplexer makes the calls in their order.
    let mut d = DeMux::new(Mux::new());
    d.handle_message(&m);
    let again = d.primitives.take();
    assert_eq!(again.len(), 3);
    assert_eq!(demux(&again[0]), vec![calls[0].clone()]);
    assert_eq!(demux(&again[1]), vec![calls[1].clone()]);
    assert_eq!(demux(&again[2]), vec![calls[2].clone()]);
}

#[test]
fn session_messages_are_no_calls() {
    for body in vec![
        Body::Scout { what: None },
        Body::Hello { whatami: None, locators: None },
        Body::Accept { opid: PeerId { id: vec![] }, apid: PeerId { id: vec![] }, lease: 0 },
        Body::KeepAlive { pid: None },
        Body::Ping { hash: 1 },
        Body::Pong { hash: 1 },
        Body::Sync { reliable: true, sn: 1, count: None },
        Body::AckNack { sn: 1, mask: None },
    ] {
        let m = Message {
            kind: MessageKind::FullMessage,
            cid: None,
            reply_context: None,
            properties: None,
            body,
        };
        assert!(demux(&m).is_empty());
    }
}

#[test]
fn dispatch_makes_the_call() {
    let mut mux = Mux::new();
    for call in sample_calls() {
        dispatch(&mut mux, call);
    }
    let out = mux.take();
    let calls: Vec<Call> = out.iter().flat_map(|m| demux(m)).collect();
    assert_eq!(calls, sample_calls());
}

#[test]
fn tables_handle_calls() {
    let mut tables = Tables::new();
    let (f1, _) = tables.declare_session(WhatAmI::Client);
    let (f2, _) = tables.declare_session(WhatAmI::Client);
    let sub = Call::Subscriber { reskey: ResKey::RName("/demo/**".to_string()), sub_info: push_sub() };
    let out = tables.handle_call(f2, sub).unwrap();
    assert_eq!(out.len(), 2);
    assert!(out.iter().all(|o| o.face == f1));
    assert_eq!(
        tables.handle_call(f1, Call::Resource { rid: 7, reskey: ResKey::RName("/demo".to_string()) }),
        Ok(vec![])
    );
    let data = Call::Data {
        reskey: ResKey::RIdWithSuffix(7, "/x".to_string()),
        reliable: true,
        info: None,
        payload: vec![1],
    };
    let out = tables.handle_call(f1, data).unwrap();
    assert_eq!(
        out,
        vec![Outbound {
            face: f2,
            call: Call::Data {
                reskey: ResKey::RName("/demo/x".to_string()),
                reliable: true,
                info: None,
                payload: vec![1]
            }
        }]
    );
    // Publishers, queries and pulls leave the tables as they are.
    assert_eq!(
        tables.handle_call(f1, Call::Publisher { reskey: ResKey::RId(7) }),
        Ok(vec![])
    );
    assert_eq!(
        tables.handle_call(f1, Call::ForgetSubscriber { reskey: ResKey::RId(7) }),
        Ok(vec![])
    );
    assert_eq!(tables.handle_call(f1, Call::ForgetResource { rid: 7 }), Ok(vec![]));
    assert_eq!(
        tables.handle_call(f1, Call::ForgetResource { rid: 7 }),
        Err(RoutingError::UnknownRid)
    );
    assert_eq!(tables.handle_call(f2, Call::Close), Ok(vec![]));
    assert!(!tables.is_attached(f2));
    assert_eq!(tables.handle_call(f2, Call::Close), Err(RoutingError::ClosedSession));
    assert_eq!(
        tables.handle_call(f2, Call::Publisher { reskey: ResKey::RId(7) }),
        Err(RoutingError::ClosedSession)
    );
    // The id that the broker gave the other face still holds its resource.
    let root = tables._get_root();
    let demo = tables.get_resource(root, "/demo").unwrap();
    assert_eq!(tables.resolve(f1, 1), Some(demo));
    assert_eq!((0..tables.len()).filter(|n| tables.live(*n)).count(), 2);
    assert_eq!(tables.handle_call(f1, Call::Close), Ok(vec![]));
    // Nothing is left but the root.
    assert_eq!((0..tables.len()).filter(|n| tables.live(*n)).count(), 1);
}

#[test]
fn matches_under_a_resource() {
    let mut tables = Tables::new();
    let root = tables._get_root();
    let (f, _) = tables.declare_session(WhatAmI::Client);
    for (i, name) in ["/a/b", "/a/c", "/x/b", "/a/b/d"].iter().enumerate() {
        tables.declare_resource(f, (i + 1) as u64, 0, name).unwrap();
    }
    let a = tables.get_resource(root, "/a").unwrap();
    let names = |v: Vec<usize>| -> Vec<String> {
        v.into_iter().map(|n| tables.get_name(n).clone()).collect()
    };
    assert_eq!(names(tables.get_matches_from("/*/b", root)), vec!["/a/b", "/x/b"]);
    assert_eq!(names(tables.get_matches_from("/*/b", a)), vec!["/a/b"]);
    assert_eq!(names(tables.get_matches_from("/a/**", a)), vec!["/a", "/a/b", "/a/c", "/a/b/d"]);
    assert_eq!(names(tables.get_matches("/a/**")), vec!["/a", "/a/b", "/a/c", "/a/b/d"]);
    assert!(tables.get_matches_from("/x/**", a).is_empty());
}
