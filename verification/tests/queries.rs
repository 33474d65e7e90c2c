use zenoh_router::io::rwbuf::RWBuf;
use zenoh_router::proto::decl::{Reliability, SubInfo, SubMode};
use zenoh_router::proto::msg::{Body, QueryConsolidation, QueryTarget, ReplySource, Target};
use zenoh_router::proto::mux::close_message;
use zenoh_router::proto::primitives::{Call, Reply};
use zenoh_router::routing::outbound::{
    Outbound, RoutingError, REASON_DUPLICATE_RID, REASON_UNKNOWN_RID,
};
use zenoh_router::routing::queries::Question;
use zenoh_router::routing::router::Router;
use zenoh_router::routing::tables::Tables;
use zenoh_router::types::{PeerId, ResKey, WhatAmI};

fn push_sub() -> SubInfo {
    SubInfo { reliability: Reliability::Reliable, mode: SubMode::Push, period: None }
}

fn name(s: &str) -> ResKey {
    ResKey::RName(s.to_string())
}

fn query(key: ResKey, qid: u64) -> Call {
    Call::Query {
        reskey: key,
        predicate: "a>1".to_string(),
        qid,
        target: Some(QueryTarget { storage: Target::All, eval: Target::Complete { n: 2 } }),
        consolidation: QueryConsolidation::Incremental,
    }
}

fn over(face: usize, qid: u64) -> Outbound {
    Outbound { face, call: Call::Reply { qid, reply: Reply::ReplyFinal } }
}

fn data(key: ResKey) -> Reply {
    Reply::ReplyData {
        source: ReplySource::Storage,
        replier_id: PeerId { id: vec![9] },
        reskey: key,
        info: Some(vec![1]),
        payload: vec![2, 3],
    }
}

#[test]
fn query_goes_to_the_queryables() {
    let mut router = Router::new();
    let (asker, _) = router.declare_session(WhatAmI::Client);
    let (store, _) = router.declare_session(WhatAmI::Client);
    let (other, _) = router.declare_session(WhatAmI::Client);
    router.handle_call(store, Call::Storage { reskey: name("/demo/**") }).unwrap();
    router.handle_call(other, Call::Eval { reskey: name("/else/*") }).unwrap();
    let out = router.handle_call(asker, query(name("/demo/x"), 7)).unwrap();
    assert_eq!(out, vec![Outbound { face: store, call: query(name("/demo/x"), 7) }]);
    assert_eq!(router.pending_len(), 1);
}

#[test]
fn query_uses_the_id_of_the_receiver() {
    let mut router = Router::new();
    let (asker, _) = router.declare_session(WhatAmI::Client);
    let (store, _) = router.declare_session(WhatAmI::Client);
    router.handle_call(store, Call::Resource { rid: 4, reskey: name("/demo") }).unwrap();
    router
        .handle_call(store, Call::Storage { reskey: ResKey::RIdWithSuffix(4, "/**".to_string()) })
        .unwrap();
    let out = router.handle_call(asker, query(name("/demo/x"), 1)).unwrap();
    assert_eq!(
        out,
        vec![Outbound { face: store, call: query(ResKey::RIdWithSuffix(4, "/x".to_string()), 1) }]
    );
}

#[test]
fn query_that_nobody_answers_is_over_at_once() {
    let mut router = Router::new();
    let (asker, _) = router.declare_session(WhatAmI::Client);
    let (sub, _) = router.declare_session(WhatAmI::Client);
    // The asker's own queryable does not count, nor does a subscription.
    router.handle_call(asker, Call::Storage { reskey: name("/demo/**") }).unwrap();
    router
        .handle_call(sub, Call::Subscriber { reskey: name("/demo/**"), sub_info: push_sub() })
        .unwrap();
    let out = router.handle_call(asker, query(name("/demo/x"), 3)).unwrap();
    assert_eq!(out, vec![over(asker, 3)]);
    assert_eq!(router.pending_len(), 0);
}

#[test]
fn answers_go_back_to_the_asker() {
    let mut router = Router::new();
    let (asker, _) = router.declare_session(WhatAmI::Client);
    let (store, _) = router.declare_session(WhatAmI::Client);
    router.handle_call(asker, Call::Resource { rid: 5, reskey: name("/demo") }).unwrap();
    router.handle_call(store, Call::Storage { reskey: name("/demo/**") }).unwrap();
    router.handle_call(asker, query(name("/demo/*"), 7)).unwrap();
    // Data comes back under the key that the asker has for its name.
    let out = router
        .handle_call(store, Call::Reply { qid: 7, reply: data(name("/demo/x")) })
        .unwrap();
    assert_eq!(
        out,
        vec![Outbound {
            face: asker,
            call: Call::Reply { qid: 7, reply: data(ResKey::RIdWithSuffix(5, "/x".to_string())) }
        }]
    );
    let done = Reply::SourceFinal { source: ReplySource::Storage, replier_id: PeerId { id: vec![9] } };
    let out = router.handle_call(store, Call::Reply { qid: 7, reply: done.clone() }).unwrap();
    assert_eq!(out, vec![Outbound { face: asker, call: Call::Reply { qid: 7, reply: done } }]);
    assert_eq!(router.pending_len(), 1);
    let out = router.handle_call(store, Call::Reply { qid: 7, reply: Reply::ReplyFinal }).unwrap();
    assert_eq!(out, vec![over(asker, 7)]);
    assert_eq!(router.pending_len(), 0);
    // The query is over: what comes now is for nobody.
    let out = router.handle_call(store, Call::Reply { qid: 7, reply: data(name("/demo/x")) });
    assert_eq!(out, Ok(vec![]));
}

#[test]
fn query_is_over_when_all_have_answered() {
    let mut router = Router::new();
    let (asker, _) = router.declare_session(WhatAmI::Client);
    let (a, _) = router.declare_session(WhatAmI::Client);
    let (b, _) = router.declare_session(WhatAmI::Client);
    router.handle_call(a, Call::Storage { reskey: name("/demo/**") }).unwrap();
    router.handle_call(b, Call::Eval { reskey: name("/demo/x") }).unwrap();
    let out = router.handle_call(asker, query(name("/demo/x"), 2)).unwrap();
    let mut faces: Vec<usize> = out.iter().map(|o| o.face).collect();
    faces.sort();
    assert_eq!(faces, vec![a, b]);
    assert_eq!(router.handle_call(b, Call::Reply { qid: 2, reply: Reply::ReplyFinal }), Ok(vec![]));
    assert_eq!(router.pending_len(), 1);
    // A face is heard once: the query still waits for the other.
    assert_eq!(router.handle_call(b, Call::Reply { qid: 2, reply: Reply::ReplyFinal }), Ok(vec![]));
    assert_eq!(router.pending_len(), 1);
    assert_eq!(
        router.handle_call(a, Call::Reply { qid: 2, reply: Reply::ReplyFinal }),
        Ok(vec![over(asker, 2)])
    );
    assert_eq!(router.pending_len(), 0);
}

#[test]
fn answers_are_told_apart_by_who_was_asked() {
    let mut router = Router::new();
    let (first, _) = router.declare_session(WhatAmI::Client);
    let (second, _) = router.declare_session(WhatAmI::Client);
    let (a, _) = router.declare_session(WhatAmI::Client);
    let (b, _) = router.declare_session(WhatAmI::Client);
    router.handle_call(a, Call::Storage { reskey: name("/a") }).unwrap();
    router.handle_call(b, Call::Storage { reskey: name("/b") }).unwrap();
    // Two queries with one id, each for another queryable.
    router.handle_call(first, query(name("/a"), 1)).unwrap();
    router.handle_call(second, query(name("/b"), 1)).unwrap();
    assert_eq!(router.pending_len(), 2);
    assert_eq!(
        router.handle_call(b, Call::Reply { qid: 1, reply: Reply::ReplyFinal }),
        Ok(vec![over(second, 1)])
    );
    assert_eq!(
        router.handle_call(a, Call::Reply { qid: 1, reply: Reply::ReplyFinal }),
        Ok(vec![over(first, 1)])
    );
    // A face that was not asked is not heard.
    router.handle_call(first, query(name("/a"), 8)).unwrap();
    assert_eq!(router.handle_call(b, Call::Reply { qid: 8, reply: Reply::ReplyFinal }), Ok(vec![]));
    assert_eq!(router.pending_len(), 1);
}

#[test]
fn closing_settles_the_queries() {
    let mut router = Router::new();
    let (asker, _) = router.declare_session(WhatAmI::Client);
    let (a, _) = router.declare_session(WhatAmI::Client);
    let (b, _) = router.declare_session(WhatAmI::Client);
    router.handle_call(a, Call::Storage { reskey: name("/demo/**") }).unwrap();
    router.handle_call(b, Call::Storage { reskey: name("/demo/x") }).unwrap();
    router.handle_call(asker, query(name("/demo/x"), 1)).unwrap();
    router.handle_call(asker, query(name("/demo/y"), 2)).unwrap();
    router.handle_call(b, query(name("/demo/y"), 3)).unwrap();
    assert_eq!(router.pending_len(), 3);
    // The second query waited for the face alone; the third was its own.
    assert_eq!(router.handle_call(a, Call::Close), Ok(vec![over(asker, 2), over(b, 3)]));
    assert_eq!(router.pending_len(), 1);
    assert!(!router.get_tables().is_attached(a));
    // The query of a face that goes is forgotten.
    assert_eq!(router.handle_call(asker, Call::Close), Ok(vec![]));
    assert_eq!(router.pending_len(), 0);
    assert_eq!(router.handle_call(b, Call::Reply { qid: 1, reply: Reply::ReplyFinal }), Ok(vec![]));
    assert_eq!(router.handle_call(asker, Call::Close), Err(RoutingError::ClosedSession));
}

#[test]
fn queries_are_refused_like_data() {
    let mut router = Router::new();
    let (asker, _) = router.declare_session(WhatAmI::Client);
    let (store, _) = router.declare_session(WhatAmI::Client);
    router.handle_call(store, Call::Storage { reskey: name("/demo/**") }).unwrap();
    assert_eq!(
        router.handle_call(asker, query(ResKey::RId(9), 1)),
        Err(RoutingError::UnknownRid)
    );
    assert_eq!(router.handle_call(7, query(name("/demo/x"), 1)), Err(RoutingError::ClosedSession));
    assert_eq!(router.pending_len(), 0);
    router.handle_call(asker, query(name("/demo/x"), 1)).unwrap();
    assert_eq!(
        router.handle_call(store, Call::Reply { qid: 1, reply: data(ResKey::RId(9)) }),
        Err(RoutingError::UnknownRid)
    );
    assert_eq!(
        router.handle_call(7, Call::Reply { qid: 1, reply: Reply::ReplyFinal }),
        Err(RoutingError::ClosedSession)
    );
    assert_eq!(router.pending_len(), 1);
}

#[test]
fn peers_do_not_query_peers() {
    let mut router = Router::new();
    let (peer, _) = router.declare_session(WhatAmI::Peer);
    let (other_peer, _) = router.declare_session(WhatAmI::Peer);
    let (client, _) = router.declare_session(WhatAmI::Client);
    router.handle_call(other_peer, Call::Storage { reskey: name("/demo/**") }).unwrap();
    router.handle_call(client, Call::Storage { reskey: name("/demo/**") }).unwrap();
    let out = router.handle_call(peer, query(name("/demo/x"), 1)).unwrap();
    assert_eq!(out.len(), 1);
    assert_eq!(out[0].face, client);
}

#[test]
fn router_hands_other_calls_to_the_tables() {
    let mut router = Router::new();
    let (a, _) = router.declare_session(WhatAmI::Client);
    let (b, told) = router.declare_session(WhatAmI::Client);
    assert_eq!(told, vec![]);
    router
        .handle_call(b, Call::Subscriber { reskey: name("/demo/**"), sub_info: push_sub() })
        .unwrap();
    let sent = Call::Data { reskey: name("/demo/x"), reliable: true, info: None, payload: vec![1] };
    let out = router.handle_call(a, sent.clone()).unwrap();
    assert_eq!(out, vec![Outbound { face: b, call: sent }]);
    let root = router.get_tables()._get_root();
    assert!(router.get_tables().get_resource(root, "/demo/**").is_some());
}

#[test]
fn tables_route_queries() {
    let mut tables = Tables::new();
    let (asker, _) = tables.declare_session(WhatAmI::Client);
    let (store, _) = tables.declare_session(WhatAmI::Client);
    tables.declare_queryable(store, 0, "/demo/**").unwrap();
    let asked = Question {
        predicate: "p",
        qid: 5,
        target: None,
        consolidation: QueryConsolidation::NoConsolidation,
    };
    let out = tables.route_query(asker, 0, "/demo/x", asked).unwrap();
    assert_eq!(
        out,
        vec![Outbound {
            face: store,
            call: Call::Query {
                reskey: name("/demo/x"),
                predicate: "p".to_string(),
                qid: 5,
                target: None,
                consolidation: QueryConsolidation::NoConsolidation,
            }
        }]
    );
    assert_eq!(tables.route_query(asker, 0, "/other", asked), Ok(vec![]));
    assert_eq!(tables.route_query(store, 0, "/demo/x", asked), Ok(vec![]));
}

#[test]
fn a_call_refused_for_an_id_ends_the_session() {
    let mut router = Router::new();
    let (asker, _) = router.declare_session(WhatAmI::Client);
    let (store, _) = router.declare_session(WhatAmI::Client);
    router.handle_call(store, Call::Storage { reskey: name("/demo/**") }).unwrap();
    router.handle_call(asker, query(name("/demo/x"), 1)).unwrap();
    // The face that was asked uses an id that it never gave.
    let served = router.serve(store, Call::Storage { reskey: ResKey::RId(9) });
    assert_eq!(served.refused, Some(RoutingError::UnknownRid));
    assert_eq!(RoutingError::UnknownRid.reason(), REASON_UNKNOWN_RID);
    // Its session has ended, and the query that waited for it is over.
    assert_eq!(served.out, vec![over(asker, 1)]);
    assert!(!router.get_tables().is_attached(store));
    assert_eq!(router.pending_len(), 0);
    // A call of a face that is not attached is refused, and that is all.
    let served = router.serve(store, Call::Storage { reskey: name("/demo/**") });
    assert_eq!(served.refused, Some(RoutingError::ClosedSession));
    assert!(!RoutingError::ClosedSession.ends_session());
    assert_eq!(served.out, vec![]);
    // An id for a second name ends the session too.
    router.handle_call(asker, Call::Resource { rid: 3, reskey: name("/a") }).unwrap();
    let served = router.serve(asker, Call::Resource { rid: 3, reskey: name("/b") });
    assert_eq!(served.refused, Some(RoutingError::DuplicateRid));
    assert_eq!(RoutingError::DuplicateRid.reason(), REASON_DUPLICATE_RID);
    assert!(!router.get_tables().is_attached(asker));
    // A call that is not refused is handled.
    let (f, _) = router.declare_session(WhatAmI::Client);
    let served = router.serve(f, Call::Resource { rid: 3, reskey: name("/a") });
    assert_eq!(served.refused, None);
    assert_eq!(served.out, vec![]);
    assert!(router.get_tables().is_attached(f));
}

#[test]
fn close_message_gives_the_reason() {
    let m = close_message(2);
    assert_eq!(m.body, Body::Close { pid: None, reason: 2 });
    let mut buf = RWBuf::new(16);
    buf.write_message(&m);
    assert_eq!(buf.read_message(), Ok(m));
}
