use zenoh_router::locator::{split_locator, InvalidLocator};

#[test]
fn locator_is_cut_at_the_first_slash() {
    assert_eq!(split_locator("udp/127.0.0.1:7447"), Ok(("udp", "127.0.0.1:7447")));
    assert_eq!(split_locator("tcp/host/path"), Ok(("tcp", "host/path")));
    assert_eq!(split_locator("u/a"), Ok(("u", "a")));
    assert_eq!(split_locator("üdp/é:1"), Ok(("üdp", "é:1")));
}

#[test]
fn locator_without_its_parts_is_refused() {
    assert_eq!(split_locator(""), Err(InvalidLocator::NoSeparator));
    assert_eq!(split_locator("udp"), Err(InvalidLocator::NoSeparator));
    assert_eq!(split_locator("/127.0.0.1:7447"), Err(InvalidLocator::NoProtocol));
    assert_eq!(split_locator("/"), Err(InvalidLocator::NoProtocol));
    assert_eq!(split_locator("udp/"), Err(InvalidLocator::NoAddress));
}
