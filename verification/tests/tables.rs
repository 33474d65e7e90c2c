use std::collections::HashMap;

use zenoh_router::proto::decl::{Reliability, SubInfo, SubMode};
use zenoh_router::proto::primitives::Call;
use zenoh_router::rname::intersect;
use zenoh_router::routing::outbound::{Outbound, RoutingError};
use zenoh_router::routing::resource::RouteEntry;
use zenoh_router::routing::tables::Tables;
use zenoh_router::types::{ResKey, WhatAmI, ZInt};

fn push_sub() -> SubInfo {
    SubInfo { reliability: Reliability::Reliable, mode: SubMode::Push, period: None }
}

/// What a participant remembers of the ids that it was told or that it gave.
struct ClientPrimitives {
    mapping: HashMap<ZInt, String>,
}

impl ClientPrimitives {
    fn new() -> ClientPrimitives {
        ClientPrimitives { mapping: HashMap::new() }
    }

    fn get_name(&self, reskey: &ResKey) -> String {
        match reskey {
            ResKey::RName(name) => name.clone(),
            ResKey::RId(id) => self.mapping.get(id).unwrap().clone(),
            ResKey::RIdWithSuffix(id, suffix) => {
                [&self.mapping.get(id).unwrap()[..], &suffix[..]].concat()
            }
        }
    }

    fn resource(&mut self, rid: ZInt, reskey: &ResKey) {
        let name = self.get_name(reskey);
        self.mapping.insert(rid, name);
    }
}

/// Hands the calls that the tables ask for to the participants.
fn deliver(clients: &mut Vec<ClientPrimitives>, out: &[Outbound]) {
    for o in out {
        if let Call::Resource { rid, reskey } = &o.call {
            clients[o.face].resource(*rid, reskey);
        }
    }
}

fn entry(route: &[RouteEntry], face: usize) -> Option<&RouteEntry> {
    route.iter().find(|e| e.face == face)
}

fn key_of(e: &RouteEntry) -> ResKey {
    ResKey::from_parts(e.rid, e.suffix.clone())
}

#[test]
fn base_test() {
    let mut tables = Tables::new();
    let (sex, told) = tables.declare_session(WhatAmI::Client);
    assert!(told.is_empty());
    tables.declare_resource(sex, 1, 0, "/one/two/three").unwrap();
    tables.declare_resource(sex, 2, 0, "/one/deux/trois").unwrap();

    let sub_info = push_sub();
    tables.declare_subscription(sex, 1, "/four/five", &sub_info).unwrap();

    let root = tables._get_root();
    let n = tables.get_resource(root, "/one/two/three/four/five").unwrap();
    assert_eq!(tables.get_name(n), "/one/two/three/four/five");
    assert_eq!(tables.context_of(n, sex).subs, Some(sub_info));
    assert!(tables.get_resource(root, "/one/deux/trois").is_some());
    assert!(tables.get_resource(root, "/one/deux/three").is_none());
}

#[test]
fn match_test() {
    let rnames = [
        "/", "/a", "/a/", "/a/b", "/*", "/abc", "/abc/", "/*/", "xxx", "/ab*", "/abcd", "/ab*d",
        "/ab", "/ab/*", "/a/*/c/*/e", "/a/b/c/d/e", "/a/*b/c/*d/e", "/a/xb/c/xd/e", "/a/c/e",
        "/a/b/c/d/x/e", "/ab*cd", "/abxxcxxd", "/abxxcxxcd", "/abxxcxxcdx", "/**", "/a/b/c",
        "/a/b/c/", "/**/", "/ab/**", "/**/xyz", "/a/b/xyz/d/e/f/xyz", "/**/xyz*xyz",
        "/a/b/xyz/d/e/f/xyz", "/a/**/c/**/e", "/a/b/b/b/c/d/d/d/e", "/a/**/c/*/e/*",
        "/a/b/b/b/c/d/d/c/d/e/f", "/a/**/c/*/e/*", "/x/abc", "/x/*", "/x/abc*", "/x/*abc", "/x/a*",
        "/x/a*de", "/x/abc*de", "/x/a*d*e", "/x/a*e", "/x/a*c*e", "/x/ade", "/x/c*", "/x/*d",
        "/x/*e",
    ];

    let mut tables = Tables::new();
    let (sex, _) = tables.declare_session(WhatAmI::Client);
    for (i, rname) in rnames.iter().enumerate() {
        tables.declare_resource(sex, i.try_into().unwrap(), 0, rname).unwrap();
    }

    for rname1 in rnames.iter() {
        let res_matches = tables.get_matches(rname1);
        let matches: Vec<String> =
            res_matches.iter().map(|m| tables.get_name(*m).clone()).collect();
        for rname2 in rnames.iter() {
            if matches.contains(&String::from(*rname2)) {
                assert!(intersect(rname1, rname2));
            } else {
                assert!(!intersect(rname1, rname2));
            }
        }
    }
}

#[test]
fn match_lists_are_symmetric() {
    let rnames = ["/a", "/a/", "/*", "/**", "/a/b", "/a/*", "/x/**", "/x/y", "/**/y", "/*/y"];
    let mut tables = Tables::new();
    let (sex, _) = tables.declare_session(WhatAmI::Client);
    for (i, rname) in rnames.iter().enumerate() {
        tables.declare_resource(sex, (i + 1) as ZInt, 0, rname).unwrap();
    }
    tables.undeclare_resource(sex, 2).unwrap();
    tables.undeclare_resource(sex, 7).unwrap();
    for r in 0..tables.len() {
        for s in 0..tables.len() {
            if !tables.live(r) {
                assert!(tables.matches_list(r).is_empty());
                continue;
            }
            let r_has_s = tables.matches_list(r).contains(&s);
            if tables.live(s) {
                let s_has_r = tables.matches_list(s).contains(&r);
                assert_eq!(r_has_s, s_has_r);
                assert_eq!(r_has_s, intersect(tables.get_name(r), tables.get_name(s)));
            } else {
                assert!(!r_has_s);
            }
        }
    }
}

#[test]
fn clean_test() {
    let mut tables = Tables::new();
    let root = tables._get_root();

    let (sex0, _) = tables.declare_session(WhatAmI::Client);
    assert!(tables.is_attached(sex0));

    // --------------
    tables.declare_resource(sex0, 1, 0, "/todrop1").unwrap();
    let optres1 = tables.get_resource(root, "/todrop1");
    assert!(optres1.is_some());
    let res1 = optres1.unwrap();
    assert!(tables.live(res1));

    tables.declare_resource(sex0, 2, 0, "/todrop1/todrop11").unwrap();
    let optres2 = tables.get_resource(root, "/todrop1/todrop11");
    assert!(optres2.is_some());
    let res2 = optres2.unwrap();
    assert!(tables.live(res2));

    tables.declare_resource(sex0, 3, 0, "/**").unwrap();
    let optres3 = tables.get_resource(root, "/**");
    assert!(optres3.is_some());
    let res3 = optres3.unwrap();
    assert!(tables.live(res3));

    tables.undeclare_resource(sex0, 1).unwrap();
    assert!(tables.live(res1));
    assert!(tables.live(res2));
    assert!(tables.live(res3));

    tables.undeclare_resource(sex0, 2).unwrap();
    assert!(!tables.live(res1));
    assert!(!tables.live(res2));
    assert!(tables.live(res3));

    tables.undeclare_resource(sex0, 3).unwrap();
    assert!(!tables.live(res1));
    assert!(!tables.live(res2));
    assert!(!tables.live(res3));

    // --------------
    tables.declare_resource(sex0, 1, 0, "/todrop1").unwrap();
    let optres1 = tables.get_resource(root, "/todrop1");
    assert!(optres1.is_some());
    let res1 = optres1.unwrap();
    assert!(tables.live(res1));

    let sub_info = push_sub();

    tables.declare_subscription(sex0, 0, "/todrop1/todrop11", &sub_info).unwrap();
    let optres2 = tables.get_resource(root, "/todrop1/todrop11");
    assert!(optres2.is_some());
    let res2 = optres2.unwrap();
    assert!(tables.live(res2));

    tables.declare_subscription(sex0, 1, "/todrop12", &sub_info).unwrap();
    let optres3 = tables.get_resource(root, "/todrop1/todrop12");
    assert!(optres3.is_some());
    let res3 = optres3.unwrap();
    assert!(tables.live(res3));

    tables.undeclare_subscription(sex0, 1, "/todrop12").unwrap();
    assert!(tables.live(res1));
    assert!(tables.live(res2));
    assert!(!tables.live(res3));

    tables.undeclare_subscription(sex0, 0, "/todrop1/todrop11").unwrap();
    assert!(tables.live(res1));
    assert!(!tables.live(res2));
    assert!(!tables.live(res3));

    tables.undeclare_resource(sex0, 1).unwrap();
    assert!(!tables.live(res1));
    assert!(!tables.live(res2));
    assert!(!tables.live(res3));

    // --------------
    tables.declare_resource(sex0, 2, 0, "/todrop3").unwrap();
    tables.declare_subscription(sex0, 0, "/todrop3", &sub_info).unwrap();
    let optres1 = tables.get_resource(root, "/todrop3");
    assert!(optres1.is_some());
    let res1 = optres1.unwrap();
    assert!(tables.live(res1));

    tables.undeclare_subscription(sex0, 0, "/todrop3").unwrap();
    assert!(tables.live(res1));

    tables.undeclare_resource(sex0, 2).unwrap();
    assert!(!tables.live(res1));

    // --------------
    tables.declare_resource(sex0, 3, 0, "/todrop4").unwrap();
    tables.declare_resource(sex0, 4, 0, "/todrop5").unwrap();
    tables.declare_subscription(sex0, 0, "/todrop5", &sub_info).unwrap();
    tables.declare_subscription(sex0, 0, "/todrop6", &sub_info).unwrap();

    let optres1 = tables.get_resource(root, "/todrop4");
    assert!(optres1.is_some());
    let res1 = optres1.unwrap();
    let optres2 = tables.get_resource(root, "/todrop5");
    assert!(optres2.is_some());
    let res2 = optres2.unwrap();
    let optres3 = tables.get_resource(root, "/todrop6");
    assert!(optres3.is_some());
    let res3 = optres3.unwrap();

    assert!(tables.live(res1));
    assert!(tables.live(res2));
    assert!(tables.live(res3));

    tables.undeclare_session(sex0).unwrap();
    assert!(!tables.is_attached(sex0));
    assert!(!tables.live(res1));
    assert!(!tables.live(res2));
    assert!(!tables.live(res3));
}

#[test]
fn client_test() {
    let mut tables = Tables::new();
    let sub_info = push_sub();
    let mut clients: Vec<ClientPrimitives> = Vec::new();

    let (sex0, told) = tables.declare_session(WhatAmI::Client);
    clients.push(ClientPrimitives::new());
    deliver(&mut clients, &told);
    tables.declare_resource(sex0, 11, 0, "/test/client").unwrap();
    clients[0].resource(11, &ResKey::RName("/test/client".to_string()));
    let out = tables.declare_subscription(sex0, 11, "/**", &sub_info).unwrap();
    deliver(&mut clients, &out);
    tables.declare_resource(sex0, 12, 11, "/z1_pub1").unwrap();
    clients[0].resource(12, &ResKey::RIdWithSuffix(11, "/z1_pub1".to_string()));

    let (sex1, told) = tables.declare_session(WhatAmI::Client);
    clients.push(ClientPrimitives::new());
    deliver(&mut clients, &told);
    tables.declare_resource(sex1, 21, 0, "/test/client").unwrap();
    clients[1].resource(21, &ResKey::RName("/test/client".to_string()));
    let out = tables.declare_subscription(sex1, 21, "/**", &sub_info).unwrap();
    deliver(&mut clients, &out);
    tables.declare_resource(sex1, 22, 21, "/z2_pub1").unwrap();
    clients[1].resource(22, &ResKey::RIdWithSuffix(21, "/z2_pub1".to_string()));

    let (sex2, told) = tables.declare_session(WhatAmI::Client);
    clients.push(ClientPrimitives::new());
    deliver(&mut clients, &told);
    tables.declare_resource(sex2, 31, 0, "/test/client").unwrap();
    clients[2].resource(31, &ResKey::RName("/test/client".to_string()));
    let out = tables.declare_subscription(sex2, 31, "/**", &sub_info).unwrap();
    deliver(&mut clients, &out);

    let result_opt = tables.route_data_to_map(sex0, 0, "/test/client/z1_wr1");
    assert!(result_opt.is_some());
    let result = result_opt.unwrap();

    let opt_sex = entry(&result, 0);
    assert!(opt_sex.is_some());
    let e = opt_sex.unwrap();
    // functionnal check
    assert_eq!(clients[0].get_name(&key_of(e)), "/test/client/z1_wr1");
    // mapping strategy check
    assert_eq!(e.rid, 11);
    assert_eq!(e.suffix, "/z1_wr1");

    let opt_sex = entry(&result, 1);
    assert!(opt_sex.is_some());
    let e = opt_sex.unwrap();
    assert_eq!(clients[1].get_name(&key_of(e)), "/test/client/z1_wr1");
    assert_eq!(e.suffix, "/z1_wr1");

    let opt_sex = entry(&result, 2);
    assert!(opt_sex.is_some());
    let e = opt_sex.unwrap();
    assert_eq!(clients[2].get_name(&key_of(e)), "/test/client/z1_wr1");
    assert_eq!(e.suffix, "/z1_wr1");

    let result_opt = tables.route_data_to_map(sex0, 11, "/z1_wr2");
    assert!(result_opt.is_some());
    let result = result_opt.unwrap();

    let opt_sex = entry(&result, 0);
    assert!(opt_sex.is_some());
    let e = opt_sex.unwrap();
    assert_eq!(clients[0].get_name(&key_of(e)), "/test/client/z1_wr2");
    assert_eq!(e.rid, 11);
    assert_eq!(e.suffix, "/z1_wr2");

    let opt_sex = entry(&result, 1);
    assert!(opt_sex.is_some());
    let e = opt_sex.unwrap();
    assert_eq!(clients[1].get_name(&key_of(e)), "/test/client/z1_wr2");
    assert_eq!(e.suffix, "/z1_wr2");

    let opt_sex = entry(&result, 2);
    assert!(opt_sex.is_some());
    let e = opt_sex.unwrap();
    assert_eq!(clients[2].get_name(&key_of(e)), "/test/client/z1_wr2");
    assert_eq!(e.suffix, "/z1_wr2");

    let result_opt = tables.route_data_to_map(sex1, 0, "/test/client/**");
    assert!(result_opt.is_some());
    let result = result_opt.unwrap();

    let opt_sex = entry(&result, 0);
    assert!(opt_sex.is_some());
    let e = opt_sex.unwrap();
    assert_eq!(clients[0].get_name(&key_of(e)), "/test/client/**");
    assert_eq!(e.rid, 11);
    assert_eq!(e.suffix, "/**");

    let opt_sex = entry(&result, 1);
    assert!(opt_sex.is_some());
    let e = opt_sex.unwrap();
    assert_eq!(clients[1].get_name(&key_of(e)), "/test/client/**");
    assert_eq!(e.suffix, "/**");

    let opt_sex = entry(&result, 2);
    assert!(opt_sex.is_some());
    let e = opt_sex.unwrap();
    assert_eq!(clients[2].get_name(&key_of(e)), "/test/client/**");
    assert_eq!(e.suffix, "/**");

    let result_opt = tables.route_data_to_map(sex0, 12, "");
    assert!(result_opt.is_some());
    let result = result_opt.unwrap();

    let opt_sex = entry(&result, 0);
    assert!(opt_sex.is_some());
    let e = opt_sex.unwrap();
    assert_eq!(clients[0].get_name(&key_of(e)), "/test/client/z1_pub1");
    assert_eq!(e.rid, 12);
    assert_eq!(e.suffix, "");

    let opt_sex = entry(&result, 1);
    assert!(opt_sex.is_some());
    let e = opt_sex.unwrap();
    assert_eq!(clients[1].get_name(&key_of(e)), "/test/client/z1_pub1");
    assert_eq!(e.suffix, "/z1_pub1");

    let opt_sex = entry(&result, 2);
    assert!(opt_sex.is_some());
    let e = opt_sex.unwrap();
    assert_eq!(clients[2].get_name(&key_of(e)), "/test/client/z1_pub1");
    assert_eq!(e.suffix, "/z1_pub1");

    let result_opt = tables.route_data_to_map(sex1, 22, "");
    assert!(result_opt.is_some());
    let result = result_opt.unwrap();

    let opt_sex = entry(&result, 0);
    assert!(opt_sex.is_some());
    let e = opt_sex.unwrap();
    assert_eq!(clients[0].get_name(&key_of(e)), "/test/client/z2_pub1");
    assert_eq!(e.rid, 11);
    assert_eq!(e.suffix, "/z2_pub1");

    let opt_sex = entry(&result, 1);
    assert!(opt_sex.is_some());
    let e = opt_sex.unwrap();
    assert_eq!(clients[1].get_name(&key_of(e)), "/test/client/z2_pub1");
    assert_eq!(e.rid, 22);
    assert_eq!(e.suffix, "");

    let opt_sex = entry(&result, 2);
    assert!(opt_sex.is_some());
    let e = opt_sex.unwrap();
    assert_eq!(clients[2].get_name(&key_of(e)), "/test/client/z2_pub1");
    assert_eq!(e.suffix, "/z2_pub1");
}

fn data_calls(out: &[Outbound]) -> Vec<(usize, ResKey, bool, Option<Vec<u8>>, Vec<u8>)> {
    out.iter()
        .map(|o| match &o.call {
            Call::Data { reskey, reliable, info, payload } => {
                (o.face, reskey.clone(), *reliable, info.clone(), payload.clone())
            }
            other => panic!("not a DATA call: {:?}", other),
        })
        .collect()
}

#[test]
fn basic_fan_out() {
    let mut tables = Tables::new();
    let mut clients = vec![ClientPrimitives::new(), ClientPrimitives::new()];
    let (f1, _) = tables.declare_session(WhatAmI::Client);
    let (f2, _) = tables.declare_session(WhatAmI::Client);
    let out = tables.declare_subscription(f2, 0, "/demo/**", &push_sub()).unwrap();
    deliver(&mut clients, &out);
    // The other face is told of the subscription, with an id for the part without wildcards.
    assert_eq!(out.len(), 2);
    assert_eq!(
        out[0],
        Outbound {
            face: f1,
            call: Call::Resource { rid: 1, reskey: ResKey::RName("/demo".to_string()) }
        }
    );
    assert_eq!(
        out[1],
        Outbound {
            face: f1,
            call: Call::Subscriber {
                reskey: ResKey::RIdWithSuffix(1, "/**".to_string()),
                sub_info: push_sub()
            }
        }
    );

    let payload = vec![1u8, 2, 3];
    let out = tables.route_data(f1, 0, "/demo/x", true, &None, &payload).unwrap();
    let calls = data_calls(&out);
    assert_eq!(calls.len(), 1);
    let (face, key, reliable, info, got) = &calls[0];
    assert_eq!(*face, f2);
    assert_eq!(clients[f2].get_name(key), "/demo/x");
    assert!(*reliable);
    assert_eq!(*info, None);
    assert_eq!(*got, payload);

    // Nothing for a name that nobody has subscribed to.
    let out = tables.route_data(f1, 0, "/other", false, &Some(vec![9]), &payload).unwrap();
    assert!(out.is_empty());
    // The subscriber itself gets nothing of what it sends.
    let out = tables.route_data(f2, 0, "/demo/x", true, &None, &payload).unwrap();
    assert!(out.is_empty());
}

#[test]
fn id_compaction() {
    let mut tables = Tables::new();
    let mut clients = vec![ClientPrimitives::new(), ClientPrimitives::new()];
    let (f1, _) = tables.declare_session(WhatAmI::Client);
    let (f2, _) = tables.declare_session(WhatAmI::Client);
    let out = tables.declare_subscription(f2, 0, "/demo/**", &push_sub()).unwrap();
    deliver(&mut clients, &out);
    tables.declare_resource(f1, 7, 0, "/demo").unwrap();
    clients[f1].resource(7, &ResKey::RName("/demo".to_string()));
    tables.declare_resource(f2, 5, 0, "/demo").unwrap();
    clients[f2].resource(5, &ResKey::RName("/demo".to_string()));

    let out = tables.route_data(f1, 7, "/x", false, &None, &vec![0xAA]).unwrap();
    let calls = data_calls(&out);
    assert_eq!(calls.len(), 1);
    assert_eq!(calls[0].0, f2);
    assert_eq!(calls[0].1, ResKey::RIdWithSuffix(5, "/x".to_string()));
    assert_eq!(clients[f2].get_name(&calls[0].1), "/demo/x");
}

#[test]
fn peer_suppression() {
    let mut tables = Tables::new();
    let (f1, _) = tables.declare_session(WhatAmI::Peer);
    let (f2, _) = tables.declare_session(WhatAmI::Peer);
    let (f3, _) = tables.declare_session(WhatAmI::Client);
    let out = tables.declare_subscription(f2, 0, "/a", &push_sub()).unwrap();
    // A peer is not told of what another peer declares; a client is.
    assert!(out.iter().all(|o| o.face == f3));
    assert!(!out.is_empty());

    let out = tables.route_data(f1, 0, "/a", true, &None, &vec![1]).unwrap();
    assert!(out.is_empty());
    let out = tables.route_data(f3, 0, "/a", true, &None, &vec![1]).unwrap();
    assert_eq!(out.len(), 1);
    assert_eq!(out[0].face, f2);
}

#[test]
fn clean_cascade() {
    let mut tables = Tables::new();
    let root = tables._get_root();
    let (f1, _) = tables.declare_session(WhatAmI::Client);
    tables.declare_resource(f1, 1, 0, "/drop").unwrap();
    tables.declare_resource(f1, 2, 0, "/drop/leaf").unwrap();
    let parent = tables.get_resource(root, "/drop").unwrap();
    let leaf = tables.get_resource(root, "/drop/leaf").unwrap();

    tables.undeclare_resource(f1, 1).unwrap();
    assert!(tables.live(parent));
    assert!(tables.live(leaf));

    tables.undeclare_resource(f1, 2).unwrap();
    assert!(!tables.live(parent));
    assert!(!tables.live(leaf));
    assert!(tables.get_resource(root, "/drop").is_none());
    assert!(tables.live(root));
}

#[test]
fn clean_twice_is_clean_once() {
    let mut tables = Tables::new();
    let root = tables._get_root();
    let (f1, _) = tables.declare_session(WhatAmI::Client);
    tables.declare_resource(f1, 1, 0, "/a/b/c").unwrap();
    let c = tables.get_resource(root, "/a/b/c").unwrap();
    let live_before: Vec<bool> = (0..tables.len()).map(|n| tables.live(n)).collect();
    tables.clean(c);
    tables.clean(c);
    tables.clean(root);
    tables.clean(12345);
    let live_after: Vec<bool> = (0..tables.len()).map(|n| tables.live(n)).collect();
    assert_eq!(live_before, live_after);
}

#[test]
fn face_teardown() {
    let mut tables = Tables::new();
    let root = tables._get_root();
    let (f1, _) = tables.declare_session(WhatAmI::Client);
    let (f2, _) = tables.declare_session(WhatAmI::Client);
    tables.declare_subscription(f1, 0, "/x", &push_sub()).unwrap();
    tables.declare_subscription(f2, 0, "/x", &push_sub()).unwrap();
    let x = tables.get_resource(root, "/x").unwrap();

    tables.undeclare_session(f1).unwrap();
    assert!(tables.live(x));
    assert!(!tables.is_attached(f1));
    assert!(tables.is_attached(f2));
    assert_eq!(tables.context_of(x, f1).subs, None);
    assert_eq!(tables.context_of(x, f2).subs, Some(push_sub()));
    assert_eq!(tables.route_of(x).len(), 1);
    assert_eq!(tables.route_of(x)[0].face, f2);

    // A detached face is refused.
    assert_eq!(tables.undeclare_session(f1), Err(RoutingError::ClosedSession));
    assert_eq!(tables.declare_resource(f1, 1, 0, "/y"), Err(RoutingError::ClosedSession));
    assert_eq!(
        tables.route_data(f1, 0, "/x", true, &None, &vec![]),
        Err(RoutingError::ClosedSession)
    );

    tables.undeclare_session(f2).unwrap();
    assert!(!tables.live(x));
}

#[test]
fn errors_of_declarations() {
    let mut tables = Tables::new();
    let (f, _) = tables.declare_session(WhatAmI::Client);
    assert_eq!(tables.declare_resource(f, 2, 9, "/a"), Err(RoutingError::UnknownRid));
    assert_eq!(tables.declare_resource(f, 1, 0, "/a"), Ok(()));
    // The same id for the same name: nothing happens.
    assert_eq!(tables.declare_resource(f, 1, 0, "/a"), Ok(()));
    // The same id for another name is refused.
    assert_eq!(tables.declare_resource(f, 1, 0, "/b"), Err(RoutingError::DuplicateRid));
    assert_eq!(tables.undeclare_resource(f, 0), Err(RoutingError::UnknownRid));
    assert_eq!(tables.undeclare_resource(f, 5), Err(RoutingError::UnknownRid));
    assert_eq!(
        tables.declare_subscription(f, 5, "/x", &push_sub()),
        Err(RoutingError::UnknownRid)
    );
    assert_eq!(tables.undeclare_subscription(f, 5, "/x"), Err(RoutingError::UnknownRid));
    assert_eq!(
        tables.route_data(f, 5, "/x", true, &None, &vec![]),
        Err(RoutingError::UnknownRid)
    );
    assert_eq!(tables.route_data_to_map(f, 5, "/x"), None);
    // To end a subscription that is not there changes nothing.
    assert_eq!(tables.undeclare_subscription(f, 1, "/nothing"), Ok(vec![]));
    assert_eq!(tables.undeclare_subscription(f, 0, "/a"), Ok(vec![]));
    let a = tables.resolve(f, 1).unwrap();
    assert!(tables.live(a));
}

#[test]
fn two_ids_for_one_resource() {
    let mut tables = Tables::new();
    let (f, _) = tables.declare_session(WhatAmI::Client);
    tables.declare_resource(f, 1, 0, "/a").unwrap();
    tables.declare_resource(f, 2, 0, "/a").unwrap();
    let a = tables.resolve(f, 1).unwrap();
    assert_eq!(tables.resolve(f, 2), Some(a));
    assert_eq!(tables.context_of(a, f).remote_rid, Some(1));
    tables.undeclare_resource(f, 1).unwrap();
    assert!(tables.live(a));
    assert_eq!(tables.resolve(f, 1), None);
    assert_eq!(tables.context_of(a, f).remote_rid, Some(2));
    tables.undeclare_resource(f, 2).unwrap();
    assert!(!tables.live(a));
}

#[test]
fn new_face_is_told_of_subscriptions() {
    let mut tables = Tables::new();
    let (f1, _) = tables.declare_session(WhatAmI::Client);
    tables.declare_subscription(f1, 0, "/a/**", &push_sub()).unwrap();
    tables.declare_queryable(f1, 0, "/q").unwrap();
    let (f2, told) = tables.declare_session(WhatAmI::Client);
    assert_eq!(told.len(), 2);
    assert!(told.contains(&Outbound {
        face: f2,
        call: Call::Subscriber { reskey: ResKey::RName("/a/**".to_string()), sub_info: push_sub() }
    }));
    assert!(told
        .contains(&Outbound { face: f2, call: Call::Storage { reskey: ResKey::RName("/q".to_string()) } }));
    // The end of a subscription is told with the id that the face has for the prefix.
    let out = tables.undeclare_subscription(f1, 0, "/a/**").unwrap();
    assert_eq!(out.len(), 2);
    assert_eq!(
        out[1],
        Outbound {
            face: f2,
            call: Call::ForgetSubscriber { reskey: ResKey::RIdWithSuffix(1, "/**".to_string()) }
        }
    );
    let out = tables.undeclare_queryable(f1, 0, "/q").unwrap();
    assert_eq!(out.last().unwrap().face, f2);
    assert!(matches!(out.last().unwrap().call, Call::ForgetStorage { .. }));
}

#[test]
fn wildcard_at_the_root_is_told_by_name() {
    let mut tables = Tables::new();
    let (f1, _) = tables.declare_session(WhatAmI::Client);
    let (f2, _) = tables.declare_session(WhatAmI::Client);
    let out = tables.declare_subscription(f1, 0, "/**", &push_sub()).unwrap();
    assert_eq!(
        out,
        vec![Outbound {
            face: f2,
            call: Call::Subscriber { reskey: ResKey::RName("/**".to_string()), sub_info: push_sub() }
        }]
    );
    // A subscription without wildcards is told by an id alone.
    let out = tables.declare_subscription(f1, 0, "/a/b", &push_sub()).unwrap();
    assert_eq!(out.len(), 2);
    assert_eq!(
        out[1],
        Outbound { face: f2, call: Call::Subscriber { reskey: ResKey::RId(1), sub_info: push_sub() } }
    );
}

#[test]
fn the_id_zero_is_given_like_any_id() {
    let mut tables = Tables::new();
    let (f, _) = tables.declare_session(WhatAmI::Client);
    assert_eq!(tables.declare_resource(f, 0, 0, "/demo"), Ok(()));
    let root = tables._get_root();
    let demo = tables.get_resource(root, "/demo").unwrap();
    // The id holds the resource, but in a key it stands for the root.
    assert_eq!(tables.declared_resource(f, 0), Some(demo));
    assert_eq!(tables.resolve(f, 0), Some(root));
    assert_eq!(tables.declare_resource(f, 0, 0, "/demo"), Ok(()));
    assert_eq!(tables.declare_resource(f, 0, 0, "/other"), Err(RoutingError::DuplicateRid));
    assert_eq!(tables.declare_resource(f, 3, 0, "/x"), Ok(()));
    assert_eq!(tables.undeclare_resource(f, 0), Ok(()));
    assert_eq!(tables.declared_resource(f, 0), None);
    assert_eq!(tables.declared_resource(f, 3), tables.get_resource(root, "/x"));
    assert!(!tables.live(demo));
    assert_eq!(tables.undeclare_resource(f, 0), Err(RoutingError::UnknownRid));
}

#[test]
fn the_id_zero_is_never_used_in_a_key() {
    let mut tables = Tables::new();
    let (f, _) = tables.declare_session(WhatAmI::Client);
    let (g, _) = tables.declare_session(WhatAmI::Client);
    tables.declare_resource(f, 0, 0, "/demo").unwrap();
    // A key with the id 0 is a name from the root.
    tables.declare_subscription(f, 0, "/demo/x", &push_sub()).unwrap();
    let root = tables._get_root();
    assert!(tables.get_resource(root, "/demo/demo/x").is_none());
    let route = tables.route_data_to_map(g, 0, "/demo/x").unwrap();
    assert_eq!(route.len(), 1);
    assert_eq!((route[0].face, route[0].rid, route[0].suffix.as_str()), (f, 0, "/demo/x"));
    // With another id for the resource the key is made with that id.
    tables.declare_resource(f, 4, 0, "/demo").unwrap();
    let route = tables.route_data_to_map(g, 0, "/demo/x").unwrap();
    assert_eq!(route.len(), 1);
    assert_eq!(route[0].face, f);
    assert_ne!(route[0].rid, 0);
    assert_eq!(tables.resolve(f, route[0].rid), tables.get_resource(root, "/demo"));
    assert_eq!(route[0].suffix.as_str(), "/x");
}

#[test]
fn faces_are_numbered_from_zero() {
    let mut tables = Tables::new();
    let (a, _) = tables.declare_session(WhatAmI::Client);
    let (b, _) = tables.declare_session(WhatAmI::Peer);
    let (c, _) = tables.declare_session(WhatAmI::Broker);
    assert_eq!((a, b, c), (0, 1, 2));
    assert_eq!(tables.role(a), WhatAmI::Client);
    assert_eq!(tables.role(b), WhatAmI::Peer);
    assert_eq!(tables.role(c), WhatAmI::Broker);
    // A face that has gone leaves its number behind.
    tables.undeclare_session(b).unwrap();
    let (d, _) = tables.declare_session(WhatAmI::Client);
    assert_eq!(d, 3);
}

#[test]
fn a_face_is_told_with_the_id_that_it_has() {
    let sub = |key: ResKey| Call::Subscriber { reskey: key, sub_info: push_sub() };
    let mut tables = Tables::new();
    let (f, _) = tables.declare_session(WhatAmI::Client);
    let (own, _) = tables.declare_session(WhatAmI::Client);
    let (none, _) = tables.declare_session(WhatAmI::Client);
    // One face has given ids of its own; the id 1 is taken on it.
    tables.declare_resource(own, 1, 0, "/else").unwrap();
    tables.declare_resource(own, 9, 0, "/demo").unwrap();
    let out = tables.declare_subscription(f, 0, "/demo/**", &push_sub()).unwrap();
    let root = tables._get_root();
    let demo = tables.get_resource(root, "/demo").unwrap();
    assert_eq!(
        out,
        vec![
            // The id that the face gave is used again, and no id is given.
            Outbound { face: own, call: sub(ResKey::RIdWithSuffix(9, "/**".to_string())) },
            // A face without an id gets the first free one, and is told of it first.
            Outbound {
                face: none,
                call: Call::Resource { rid: 1, reskey: ResKey::RName("/demo".to_string()) }
            },
            Outbound { face: none, call: sub(ResKey::RIdWithSuffix(1, "/**".to_string())) },
        ]
    );
    assert_eq!(tables.declared_resource(none, 1), Some(demo));
    assert_eq!(tables.context_of(demo, none).local_rid, Some(1));
    assert_eq!(tables.declared_resource(own, 2), None);
    assert_eq!(tables.context_of(demo, own).local_rid, None);
    // The id that the broker gave is used again, before one that the face gives later.
    tables.declare_resource(none, 7, 0, "/demo").unwrap();
    let out = tables.declare_subscription(f, 0, "/demo/*", &push_sub()).unwrap();
    assert_eq!(
        out,
        vec![
            Outbound { face: own, call: sub(ResKey::RIdWithSuffix(9, "/*".to_string())) },
            Outbound { face: none, call: sub(ResKey::RIdWithSuffix(1, "/*".to_string())) },
        ]
    );
    // The broker passes over the ids that are taken.
    tables.declare_subscription(f, 0, "/else/*", &push_sub()).unwrap();
    let out = tables.declare_subscription(own, 0, "/third", &push_sub()).unwrap();
    assert_eq!(
        out[..2],
        [
            Outbound {
                face: f,
                call: Call::Resource { rid: 1, reskey: ResKey::RName("/third".to_string()) }
            },
            Outbound { face: f, call: sub(ResKey::RId(1)) },
        ]
    );
    assert_eq!(
        out[2..],
        [
            Outbound {
                face: none,
                call: Call::Resource { rid: 3, reskey: ResKey::RName("/third".to_string()) }
            },
            Outbound { face: none, call: sub(ResKey::RId(3)) },
        ]
    );
}

#[test]
fn what_stays_keeps_its_place_in_the_trie() {
    let mut tables = Tables::new();
    let (f1, _) = tables.declare_session(WhatAmI::Client);
    let (f2, _) = tables.declare_session(WhatAmI::Client);
    tables.declare_resource(f1, 1, 0, "/drop").unwrap();
    tables.declare_resource(f1, 2, 0, "/drop/leaf").unwrap();
    tables.declare_subscription(f2, 0, "/x", &push_sub()).unwrap();
    let root = tables._get_root();
    let drop = tables.get_resource(root, "/drop").unwrap();
    let leaf = tables.get_resource(root, "/drop/leaf").unwrap();
    let x = tables.get_resource(root, "/x").unwrap();
    tables.undeclare_resource(f1, 1).unwrap();
    assert_eq!(tables.get_resource(root, "/drop"), Some(drop));
    assert_eq!(tables.get_resource(root, "/drop/leaf"), Some(leaf));
    assert_eq!(tables.get_resource(drop, "/leaf"), Some(leaf));
    tables.undeclare_session(f1).unwrap();
    assert_eq!(tables.get_resource(root, "/x"), Some(x));
    assert_eq!(tables.get_resource(root, "/drop"), None);
}

#[test]
fn remove_value_keeps_the_order_of_the_rest() {
    let mut v = vec![3usize, 1, 3, 2, 1, 3];
    zenoh_router::routing::clean::remove_value(&mut v, 3);
    assert_eq!(v, vec![1, 2, 1]);
    zenoh_router::routing::clean::remove_value(&mut v, 7);
    assert_eq!(v, vec![1, 2, 1]);
    zenoh_router::routing::clean::remove_value(&mut v, 1);
    assert_eq!(v, vec![2]);
    zenoh_router::routing::clean::remove_value(&mut v, 2);
    assert_eq!(v, Vec::<usize>::new());
}
