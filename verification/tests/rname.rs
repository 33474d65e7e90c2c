use zenoh_router::rname::intersect;

#[test]
fn rname_test() {
    assert!(intersect("/", "/"));
    assert!(intersect("/a", "/a"));
    assert!(intersect("/a/", "/a"));
    assert!(intersect("/a", "/a/"));
    assert!(intersect("/a/b", "/a/b"));
    assert!(intersect("/*", "/abc"));
    assert!(intersect("/*", "/abc/"));
    assert!(intersect("/*/", "/abc"));
    assert!(!intersect("/*", "/"));
    assert!(!intersect("/*", "xxx"));
    assert!(intersect("/ab*", "/abcd"));
    assert!(intersect("/ab*d", "/abcd"));
    assert!(intersect("/ab*", "/ab"));
    assert!(!intersect("/ab/*", "/ab"));
    assert!(intersect("/a/*/c/*/e", "/a/b/c/d/e"));
    assert!(intersect("/a/*b/c/*d/e", "/a/xb/c/xd/e"));
    assert!(!intersect("/a/*/c/*/e", "/a/c/e"));
    assert!(!intersect("/a/*/c/*/e", "/a/b/c/d/x/e"));
    assert!(!intersect("/ab*cd", "/abxxcxxd"));
    assert!(intersect("/ab*cd", "/abxxcxxcd"));
    assert!(!intersect("/ab*cd", "/abxxcxxcdx"));
    assert!(intersect("/**", "/abc"));
    assert!(intersect("/**", "/a/b/c"));
    assert!(intersect("/**", "/a/b/c/"));
    assert!(intersect("/**/", "/a/b/c"));
    assert!(intersect("/**/", "/"));
    assert!(intersect("/ab/**", "/ab"));
    assert!(intersect("/**/xyz", "/a/b/xyz/d/e/f/xyz"));
    assert!(!intersect("/**/xyz*xyz", "/a/b/xyz/d/e/f/xyz"));
    assert!(intersect("/a/**/c/**/e", "/a/b/b/b/c/d/d/d/e"));
    assert!(intersect("/a/**/c/**/e", "/a/c/e"));
    assert!(intersect("/a/**/c/*/e/*", "/a/b/b/b/c/d/d/c/d/e/f"));
    assert!(!intersect("/a/**/c/*/e/*", "/a/b/b/b/c/d/d/c/d/d/e/f"));
    assert!(!intersect("/ab*cd", "/abxxcxxcdx"));
    assert!(intersect("/x/abc", "/x/abc"));
    assert!(!intersect("/x/abc", "/abc"));
    assert!(intersect("/x/*", "/x/abc"));
    assert!(!intersect("/x/*", "/abc"));
    assert!(!intersect("/*", "/x/abc"));
    assert!(intersect("/x/*", "/x/abc*"));
    assert!(intersect("/x/*abc", "/x/abc*"));
    assert!(intersect("/x/a*", "/x/abc*"));
    assert!(intersect("/x/a*de", "/x/abc*de"));
    assert!(intersect("/x/a*d*e", "/x/a*e"));
    assert!(intersect("/x/a*d*e", "/x/a*c*e"));
    assert!(intersect("/x/a*d*e", "/x/ade"));
    assert!(!intersect("/x/c*", "/x/abc*"));
    assert!(!intersect("/x/*d", "/x/*e"));
}

const NAMES: [&str; 20] = [
    "", "/", "/a", "/a/", "/a/b", "/*", "/abc", "xxx", "/ab*", "/ab*d", "/a/*/c/*/e",
    "/a/b/c/d/e", "/**", "/**/", "/ab/**", "/**/xyz", "/a/**/c/**/e", "/x/a*d*e", "/x/*abc",
    "**",
];

#[test]
fn intersect_is_symmetric_on_samples() {
    for a in NAMES.iter() {
        for b in NAMES.iter() {
            assert_eq!(intersect(a, b), intersect(b, a), "{:?} {:?}", a, b);
        }
    }
}

#[test]
fn intersect_is_reflexive_on_samples() {
    for a in NAMES.iter() {
        assert!(intersect(a, a), "{:?}", a);
    }
}

#[test]
fn intersect_table_of_scenarios() {
    assert!(intersect("/", "/"));
    assert!(intersect("/a/b", "/a/b"));
    assert!(intersect("/*", "/abc"));
    assert!(!intersect("/*", "/"));
    assert!(intersect("/ab*", "/abcd"));
    assert!(intersect("/a/*/c/*/e", "/a/b/c/d/e"));
    assert!(!intersect("/a/*/c/*/e", "/a/c/e"));
    assert!(intersect("/**", "/a/b/c"));
    assert!(intersect("/a/**/c/**/e", "/a/c/e"));
    assert!(!intersect("/ab*cd", "/abxxcxxcdx"));
    assert!(intersect("/x/a*d*e", "/x/a*c*e"));
}

#[test]
fn intersect_edge_cases() {
    // The empty key and a lone slash both stand for nothing left.
    assert!(intersect("", ""));
    assert!(intersect("", "/"));
    assert!(intersect("", "**"));
    assert!(intersect("/**", ""));
    assert!(!intersect("", "/a"));
    // A key without a leading slash differs from the one with it.
    assert!(!intersect("a", "/a"));
    assert!(intersect("a/b", "a/*"));
    // Several wild chunks in a row stand for any run of chunks.
    assert!(intersect("/**/**", "/a"));
    assert!(intersect("/a/**/**", "/a"));
}
