use ring::protocol::{parse_line, Command};

fn s(x: &str) -> String {
    x.to_string()
}

#[test]
fn parses_set_next() {
    assert_eq!(parse_line("SET_NEXT 127.0.0.1:9001\n"), Ok(Command::SetNext(s("127.0.0.1:9001"))));
    assert_eq!(parse_line("SET_NEXT   7002  \r\n"), Ok(Command::SetNext(s("7002"))));
}

#[test]
fn set_next_without_address_is_refused() {
    assert_eq!(parse_line("SET_NEXT    \n"), Err(s("missing address")));
    assert_eq!(parse_line("SET_NEXT "), Err(s("missing address")));
}

#[test]
fn parses_get_exactly() {
    assert_eq!(parse_line("GET"), Ok(Command::Get));
    assert_eq!(parse_line("GET\r\n"), Ok(Command::Get));
    assert_eq!(parse_line("GET now"), Err(s("unknown command")));
    assert_eq!(parse_line("get"), Err(s("unknown command")));
}

#[test]
fn parses_ring() {
    assert_eq!(parse_line("RING 2 hello\n"), Ok(Command::Ring { ttl: 2, msg: s("hello") }));
    assert_eq!(
        parse_line("RING 3   hello  world  \n"),
        Ok(Command::Ring { ttl: 3, msg: s("hello  world") })
    );
    assert_eq!(parse_line("RING 5"), Ok(Command::Ring { ttl: 5, msg: s("") }));
    assert_eq!(parse_line("RING +7 x"), Ok(Command::Ring { ttl: 7, msg: s("x") }));
    assert_eq!(
        parse_line("RING 4294967295 x"),
        Ok(Command::Ring { ttl: 4294967295, msg: s("x") })
    );
}

#[test]
fn ring_with_bad_ttl_is_refused() {
    assert_eq!(parse_line("RING abc hi"), Err(s("invalid ttl")));
    assert_eq!(parse_line("RING -1 hi"), Err(s("invalid ttl")));
    assert_eq!(parse_line("RING 4294967296 hi"), Err(s("invalid ttl")));
    assert_eq!(parse_line("RING "), Err(s("invalid ttl")));
    assert_eq!(parse_line("RING  5 hi"), Err(s("invalid ttl")));
    assert_eq!(parse_line("RING + hi"), Err(s("invalid ttl")));
}

#[test]
fn ring_without_space_is_unknown() {
    assert_eq!(parse_line("RING"), Err(s("unknown command")));
}

#[test]
fn parses_walk_start() {
    assert_eq!(parse_line("WALK\n"), Ok(Command::WalkStart));
    assert_eq!(parse_line("WALK "), Err(s("unknown command")));
}

#[test]
fn parses_walk_hop() {
    assert_eq!(
        parse_line("WALK HOP 17 127.0.0.1:7001 127.0.0.1:7001->127.0.0.1:7002\n"),
        Ok(Command::WalkHop {
            token: s("17"),
            start_addr: s("127.0.0.1:7001"),
            history: s("127.0.0.1:7001->127.0.0.1:7002"),
        })
    );
    assert_eq!(
        parse_line("WALK HOP t s a b  c"),
        Ok(Command::WalkHop { token: s("t"), start_addr: s("s"), history: s("a b  c") })
    );
    assert_eq!(
        parse_line("WALK HOP t s"),
        Ok(Command::WalkHop { token: s("t"), start_addr: s("s"), history: s("") })
    );
}

#[test]
fn malformed_walk_hop_is_refused() {
    assert_eq!(parse_line("WALK HOP t"), Err(s("malformed WALK HOP")));
    assert_eq!(parse_line("WALK HOP  s h"), Err(s("malformed WALK HOP")));
    assert_eq!(parse_line("WALK HOP "), Err(s("malformed WALK HOP")));
}

#[test]
fn parses_walk_done() {
    assert_eq!(
        parse_line("WALK DONE 3 a->b;b->a\n"),
        Ok(Command::WalkDone { token: s("3"), history: s("a->b;b->a") })
    );
    assert_eq!(parse_line("WALK DONE 3"), Ok(Command::WalkDone { token: s("3"), history: s("") }));
}

#[test]
fn malformed_walk_done_is_refused() {
    assert_eq!(parse_line("WALK DONE "), Err(s("malformed WALK DONE")));
    assert_eq!(parse_line("WALK DONE  h"), Err(s("malformed WALK DONE")));
}

#[test]
fn unknown_lines_are_refused() {
    assert_eq!(parse_line(""), Err(s("unknown command")));
    assert_eq!(parse_line("\n"), Err(s("unknown command")));
    assert_eq!(parse_line("HELLO"), Err(s("unknown command")));
    assert_eq!(parse_line("WALK AROUND x"), Err(s("unknown command")));
}

#[test]
fn commands_render_as_lines() {
    assert_eq!(Command::SetNext(s("127.0.0.1:7002")).to_line(), "SET_NEXT 127.0.0.1:7002\n");
    assert_eq!(Command::Get.to_line(), "GET\n");
    assert_eq!(Command::Ring { ttl: 120, msg: s("hi there") }.to_line(), "RING 120 hi there\n");
    assert_eq!(Command::Ring { ttl: 0, msg: s("x") }.to_line(), "RING 0 x\n");
    assert_eq!(Command::WalkStart.to_line(), "WALK\n");
    assert_eq!(
        Command::WalkHop { token: s("9"), start_addr: s("a"), history: s("a->b") }.to_line(),
        "WALK HOP 9 a a->b\n"
    );
    assert_eq!(
        Command::WalkDone { token: s("9"), history: s("a->b;b->a") }.to_line(),
        "WALK DONE 9 a->b;b->a\n"
    );
}

#[test]
fn rendered_lines_parse_back() {
    let cmds = vec![
        Command::SetNext(s("127.0.0.1:7002")),
        Command::Get,
        Command::Ring { ttl: 4294967295, msg: s("hello world") },
        Command::Ring { ttl: 0, msg: s("") },
        Command::WalkStart,
        Command::WalkHop { token: s("12"), start_addr: s("127.0.0.1:7001"), history: s("x->y") },
        Command::WalkDone { token: s("12"), history: s("x->y;y->x") },
    ];
    for c in cmds {
        assert_eq!(parse_line(&c.to_line()), Ok(c));
    }
}
