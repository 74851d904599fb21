use ring::node::{append_edge, error_reply, walk_reply, Effect, Node, WalkOutcome};
use ring::protocol::parse_line;

fn s(x: &str) -> String {
    x.to_string()
}

fn reply_of(e: Effect<u32>) -> String {
    match e {
        Effect::Respond { reply, .. } => reply,
        Effect::Deliver { reply, .. } => reply,
        Effect::BeginWalk => panic!("unexpected walk start"),
    }
}

fn forward_of(e: &Effect<u32>) -> Option<(String, String)> {
    match e {
        Effect::Respond { forward: Some(o), .. } => Some((o.dest.clone(), o.line.clone())),
        _ => None,
    }
}

/// Nodes A, B, C linked as given; each pair is (address, successor).
fn cluster(links: &[(&str, Option<&str>)]) -> Vec<Node<u32>> {
    let mut nodes = Vec::new();
    for (addr, next) in links {
        let mut n = Node::new(s(addr));
        if let Some(m) = next {
            let line = format!("SET_NEXT {}\n", m);
            let _ = n.handle_line(&line);
        }
        nodes.push(n);
    }
    nodes
}

fn node_at<'a>(nodes: &'a mut [Node<u32>], addr: &str) -> &'a mut Node<u32> {
    nodes.iter_mut().find(|n| n.port() == addr).expect("no such node")
}

#[test]
fn set_next_then_get_reports_successor() {
    let mut n: Node<u32> = Node::new(s("127.0.0.1:9000"));
    assert_eq!(reply_of(n.handle_line("SET_NEXT 127.0.0.1:9001\n")), "OK next=127.0.0.1:9001\n");
    assert_eq!(
        reply_of(n.handle_line("GET\n")),
        "PORT 127.0.0.1:9000\nNEXT 127.0.0.1:9001\nOK\n"
    );
}

#[test]
fn get_without_successor_says_unset() {
    let mut n: Node<u32> = Node::new(s("127.0.0.1:9000"));
    assert_eq!(reply_of(n.handle_line("GET")), "PORT 127.0.0.1:9000\nNEXT <unset>\nOK\n");
}

#[test]
fn repeated_get_and_set_next_change_nothing_more() {
    let mut n: Node<u32> = Node::new(s("a"));
    let first = reply_of(n.handle_line("GET"));
    assert_eq!(reply_of(n.handle_line("GET")), first);
    assert_eq!(reply_of(n.handle_line("SET_NEXT b")), "OK next=b\n");
    assert_eq!(reply_of(n.handle_line("SET_NEXT b")), "OK next=b\n");
    assert_eq!(reply_of(n.handle_line("GET")), "PORT a\nNEXT b\nOK\n");
    assert_eq!(n.get_next(), Some(s("b")));
}

#[test]
fn ring_travels_as_far_as_its_budget() {
    let mut nodes = cluster(&[("A", Some("B")), ("B", Some("C")), ("C", Some("A"))]);
    let mut dest = s("A");
    let mut line = s("RING 2 hello\n");
    let mut hops = 0;
    loop {
        let e = node_at(&mut nodes, &dest).handle_line(&line);
        match forward_of(&e) {
            Some((d, l)) => {
                hops += 1;
                dest = d;
                line = l;
            }
            None => break,
        }
        assert_eq!(reply_of(e), "OK\n");
    }
    assert_eq!(hops, 2);
    assert_eq!(dest, "C");
    assert_eq!(line, "RING 0 hello\n");
}

#[test]
fn ring_stops_where_no_successor_is_set() {
    let mut nodes = cluster(&[("A", Some("B")), ("B", None)]);
    let e = node_at(&mut nodes, "A").handle_line("RING 5 x");
    assert_eq!(forward_of(&e), Some((s("B"), s("RING 4 x\n"))));
    let e = node_at(&mut nodes, "B").handle_line("RING 4 x");
    assert_eq!(forward_of(&e), None);
    assert_eq!(reply_of(e), "OK\n");
}

#[test]
fn ring_with_zero_budget_is_not_forwarded() {
    let mut n: Node<u32> = Node::new(s("A"));
    let _ = n.handle_line("SET_NEXT B");
    let e = n.handle_line("RING 0 x\n");
    assert_eq!(forward_of(&e), None);
    assert_eq!(reply_of(e), "OK\n");
}

/// Runs a walk from `start` until no node sends anything on; returns the
/// slot and history that reached the start node, if any.
fn run_walk(nodes: &mut [Node<u32>], start: &str, slot: u32) -> Option<(u32, String)> {
    let launch = match node_at(nodes, start).handle_line("WALK\n") {
        Effect::BeginWalk => node_at(nodes, start).start_walk(slot).expect("walk refused"),
        _ => panic!("WALK must begin a walk"),
    };
    let mut dest = launch.hop.dest;
    let mut line = launch.hop.line;
    for _ in 0..10 {
        match node_at(nodes, &dest).handle_line(&line) {
            Effect::Respond { forward: Some(o), reply } => {
                assert_eq!(reply, "OK\n");
                dest = o.dest;
                line = o.line;
            }
            Effect::Respond { forward: None, .. } => return None,
            Effect::Deliver { slot, history, reply } => {
                assert_eq!(reply, "OK\n");
                return slot.map(|x| (x, history));
            }
            Effect::BeginWalk => panic!("unexpected walk start"),
        }
    }
    None
}

#[test]
fn walk_closes_over_three_nodes() {
    let mut nodes = cluster(&[("A", Some("B")), ("B", Some("C")), ("C", Some("A"))]);
    let (slot, history) = run_walk(&mut nodes, "A", 7).expect("walk did not close");
    assert_eq!(slot, 7);
    assert_eq!(history, "A->B;B->C;C->A");
    assert_eq!(walk_reply(WalkOutcome::Completed(history)), "A->B\nB->C\nC->A\nOK\n");
}

#[test]
fn walk_over_one_node_closes_after_one_hop() {
    let mut nodes = cluster(&[("A", Some("A"))]);
    let launch = node_at(&mut nodes, "A").start_walk(1).unwrap();
    assert_eq!(launch.hop.dest, "A");
    assert_eq!(launch.hop.line, format!("WALK HOP {} A A->A\n", launch.token));
    let e = node_at(&mut nodes, "A").handle_line(&launch.hop.line);
    assert_eq!(forward_of(&e), Some((s("A"), format!("WALK DONE {} A->A;A->A\n", launch.token))));
}

#[test]
fn walk_through_node_without_successor_never_closes() {
    let mut nodes = cluster(&[("A", Some("B")), ("B", Some("C")), ("C", None)]);
    assert_eq!(run_walk(&mut nodes, "A", 1), None);
    assert_eq!(walk_reply(WalkOutcome::TimedOut), "ERR walk timeout\n");
}

#[test]
fn timed_out_walk_ignores_late_completion() {
    let mut n: Node<u32> = Node::new(s("A"));
    let _ = n.handle_line("SET_NEXT B");
    let launch = n.start_walk(4).unwrap();
    assert_eq!(n.finish_walk(&launch.token), Some(4));
    let late = format!("WALK DONE {} A->B;B->A", launch.token);
    match n.handle_line(&late) {
        Effect::Deliver { slot, reply, .. } => {
            assert_eq!(slot, None);
            assert_eq!(reply, "OK\n");
        }
        _ => panic!("WALK DONE must deliver"),
    }
}

#[test]
fn walk_without_successor_is_refused() {
    let mut n: Node<u32> = Node::new(s("A"));
    match n.start_walk(1) {
        Err(e) => assert_eq!(e, "ERR next not set\n"),
        Ok(_) => panic!("walk without successor"),
    }
}

#[test]
fn concurrent_walks_complete_their_own_slots() {
    let mut n: Node<u32> = Node::new(s("A"));
    let _ = n.handle_line("SET_NEXT B");
    let first = n.start_walk(100).unwrap();
    let second = n.start_walk(200).unwrap();
    assert_ne!(first.token, second.token);
    let done_second = format!("WALK DONE {} two", second.token);
    let done_first = format!("WALK DONE {} one", first.token);
    match n.handle_line(&done_second) {
        Effect::Deliver { slot, history, .. } => {
            assert_eq!(slot, Some(200));
            assert_eq!(history, "two");
        }
        _ => panic!("WALK DONE must deliver"),
    }
    match n.handle_line(&done_first) {
        Effect::Deliver { slot, history, .. } => {
            assert_eq!(slot, Some(100));
            assert_eq!(history, "one");
        }
        _ => panic!("WALK DONE must deliver"),
    }
}

#[test]
fn unknown_token_is_ignored() {
    let mut n: Node<u32> = Node::new(s("A"));
    assert_eq!(n.finish_walk("nope"), None);
}

#[test]
fn parse_failures_become_error_lines() {
    let mut n: Node<u32> = Node::new(s("A"));
    assert_eq!(reply_of(n.handle_line("BOGUS\n")), "ERR unknown command\n");
    assert_eq!(reply_of(n.handle_line("RING x y\n")), "ERR invalid ttl\n");
    assert_eq!(error_reply("walk forward failed: refused"), "ERR walk forward failed: refused\n");
}

#[test]
fn walk_replies_render_each_edge_on_a_line() {
    assert_eq!(walk_reply(WalkOutcome::Completed(s("a->b"))), "a->b\nOK\n");
    assert_eq!(walk_reply(WalkOutcome::Completed(s(""))), "\nOK\n");
    assert_eq!(walk_reply(WalkOutcome::Completed(s("a->b;"))), "a->b\nOK\n");
    assert_eq!(walk_reply(WalkOutcome::Canceled), "ERR walk canceled\n");
}

#[test]
fn edges_join_with_semicolons() {
    let h = append_edge(s(""), "a", "b");
    assert_eq!(h, "a->b");
    assert_eq!(append_edge(h, "b", "c"), "a->b;b->c");
}

#[test]
fn hop_parsed_from_wire_is_routed() {
    let mut n: Node<u32> = Node::new(s("B"));
    let _ = n.handle_line("SET_NEXT C");
    let e = n.handle_line("WALK HOP 5 A A->B\n");
    assert_eq!(forward_of(&e), Some((s("C"), s("WALK HOP 5 A A->B;B->C\n"))));
    assert!(parse_line("WALK HOP 5 A A->B;B->C\n").is_ok());
}

#[test]
fn loop_closure_compares_addresses_as_exact_text() {
    // The successor names the start node by bare port, the walk by host and port.
    let mut n: Node<u32> = Node::new(s("127.0.0.1:7003"));
    let _ = n.handle_line("SET_NEXT 7001");
    let e = n.handle_line("WALK HOP 1 127.0.0.1:7001 x->y");
    assert_eq!(
        forward_of(&e),
        Some((s("7001"), s("WALK HOP 1 127.0.0.1:7001 x->y;127.0.0.1:7003->7001\n")))
    );
    let _ = n.handle_line("SET_NEXT 127.0.0.1:7001");
    let e = n.handle_line("WALK HOP 1 127.0.0.1:7001 x->y");
    assert_eq!(
        forward_of(&e),
        Some((s("127.0.0.1:7001"), s("WALK DONE 1 x->y;127.0.0.1:7003->127.0.0.1:7001\n")))
    );
}
