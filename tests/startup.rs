use ring::addr::{host_port, is_quit_line, normalize_addr, resolve_listen_addr, ring_links};

fn s(x: &str) -> String {
    x.to_string()
}

#[test]
fn bare_port_gets_default_host() {
    assert_eq!(normalize_addr(s("7001")), "127.0.0.1:7001");
    assert_eq!(normalize_addr(s("10.0.0.2:7001")), "10.0.0.2:7001");
}

#[test]
fn listen_address_preference() {
    assert_eq!(resolve_listen_addr(Some(s("7005")), Some(8000), Some(s("9100"))), "127.0.0.1:7005");
    assert_eq!(resolve_listen_addr(None, Some(8000), Some(s("9100"))), "127.0.0.1:8000");
    assert_eq!(resolve_listen_addr(None, None, Some(s("0.0.0.0:9100"))), "0.0.0.0:9100");
    assert_eq!(resolve_listen_addr(None, None, None), "127.0.0.1:9000");
}

#[test]
fn host_and_port_join() {
    assert_eq!(host_port("127.0.0.1", 7000), "127.0.0.1:7000");
    assert_eq!(host_port("h", 0), "h:0");
    assert_eq!(host_port("h", 65535), "h:65535");
}

#[test]
fn ring_links_close_the_loop() {
    assert_eq!(ring_links(3, 7000), vec![(7000, 7001), (7001, 7002), (7002, 7000)]);
    assert_eq!(ring_links(1, 7000), vec![(7000, 7000)]);
    assert_eq!(ring_links(0, 7000), vec![]);
    assert_eq!(ring_links(2, 65534), vec![(65534, 65535), (65535, 65534)]);
}

#[test]
fn quit_lines() {
    assert!(is_quit_line("quit"));
    assert!(is_quit_line("  QuIt \n"));
    assert!(!is_quit_line("quit now"));
    assert!(!is_quit_line("qui"));
}
