//! Properties that relate several commands or several calls.
use vstd::prelude::*;

use crate::node::{
    edge, append_edge_spec, hop_forward_spec, finish_spec, has_token, model_wf, ring_forward_spec, start_spec, step, token_of,
    EffectModel, NodeModel,
};
use crate::protocol::{is_wire_field, is_wire_tail, line_spec, parse_spec, wire_ok, CommandModel};
use crate::text::{
    all_digits, decimal, has_prefix, is_digit, lemma_decimal_digits, lemma_decimal_injective, lemma_parse_decimal, lemma_split_joined,
    lemma_strip_added_newline, lemma_trim_fixed,
};

verus! {

/// `GET` changes nothing, however often it comes.
pub proof fn law_get_leaves_state<S>(n: NodeModel<S>)
    ensures
        step(n, CommandModel::Get).0 == n,
        step(step(n, CommandModel::Get).0, CommandModel::Get) == step(n, CommandModel::Get),
{
}

/// A `SET_NEXT` repeated with the same address changes nothing more and is
/// answered alike.
pub proof fn law_set_next_idempotent<S>(n: NodeModel<S>, a: Seq<char>)
    ensures
        step(step(n, CommandModel::SetNext(a)).0, CommandModel::SetNext(a)) == step(
            n,
            CommandModel::SetNext(a),
        ),
{
}

/// After `SET_NEXT a`, `GET` reports `a` as the successor.
pub proof fn law_set_next_then_get<S>(n: NodeModel<S>, a: Seq<char>)
    ensures
        step(step(n, CommandModel::SetNext(a)).0, CommandModel::Get).1 == (EffectModel::<
            S,
        >::Respond { forward: None, reply: "PORT "@ + n.address + "\nNEXT "@ + a + "\nOK\n"@ }),
{
}

/// A `RING` is always answered `OK`; it goes on, one less, to the successor
/// exactly when its budget is above zero and a successor is set, and the node
/// is left as it was.
pub proof fn law_ring_budget<S>(n: NodeModel<S>, ttl: u32, msg: Seq<char>)
    ensures
        step(n, (CommandModel::Ring { ttl, msg })) == (
            n,
            (EffectModel::<S>::Respond { forward: ring_forward_spec(n, ttl, msg), reply: "OK\n"@ }),
        ),
        (ring_forward_spec(n, ttl, msg) is Some) <==> (ttl > 0 && (n.successor is Some)),
        (ttl > 0 && (n.successor is Some)) ==> ring_forward_spec(n, ttl, msg) == Some(
            (n.successor->0, line_spec((CommandModel::Ring { ttl: (ttl - 1) as u32, msg }))),
        ),
{
}

/// Two walks started one after the other on a node get distinct tokens, and
/// each `WALK DONE` reaches the slot of its own walk, in whichever order the
/// two arrive.
pub proof fn law_token_isolation<S>(n: NodeModel<S>, a: S, b: S)
    requires
        model_wf(n),
    ensures
        ({
            let n2 = start_spec(start_spec(n, a), b);
            let ta = token_of(n.issued);
            let tb = token_of(n.issued + 1);
            &&& ta != tb
            &&& finish_spec(n2, ta).1 == Some(a)
            &&& finish_spec(finish_spec(n2, ta).0, tb).1 == Some(b)
            &&& finish_spec(n2, tb).1 == Some(b)
            &&& finish_spec(finish_spec(n2, tb).0, ta).1 == Some(a)
        }),
{
    let n1 = start_spec(n, a);
    let n2 = start_spec(n1, b);
    let ta = token_of(n.issued);
    let tb = token_of(n.issued + 1);
    let len = n.pending.len() as int;
    if ta == tb {
        lemma_decimal_injective(n.issued, n.issued + 1);
    }
    // No earlier walk holds either token.
    assert forall|i: int| 0 <= i < len implies #[trigger] n.pending[i].0 != ta && n.pending[i].0
        != tb by {
        let k = choose|k: nat| k < n.issued && n.pending[i].0 == #[trigger] token_of(k);
        if n.pending[i].0 == ta {
            lemma_decimal_injective(k, n.issued);
        }
        if n.pending[i].0 == tb {
            lemma_decimal_injective(k, n.issued + 1);
        }
    }
    assert(n2.pending[len].0 == ta);
    assert(n2.pending[len + 1].0 == tb);
    assert(has_token(n2.pending, ta));
    assert(has_token(n2.pending, tb));
    let ia = choose|i: int| 0 <= i < n2.pending.len() && #[trigger] n2.pending[i].0 == ta;
    let ib = choose|i: int| 0 <= i < n2.pending.len() && #[trigger] n2.pending[i].0 == tb;
    assert(ia == len);
    assert(ib == len + 1);
    let ma = finish_spec(n2, ta).0;
    assert(ma.pending[len].0 == tb);
    assert(has_token(ma.pending, tb));
    let ja = choose|i: int| 0 <= i < ma.pending.len() && #[trigger] ma.pending[i].0 == tb;
    assert(ja == len);
    let mb = finish_spec(n2, tb).0;
    assert(mb.pending[len].0 == ta);
    assert(has_token(mb.pending, ta));
    let jb = choose|i: int| 0 <= i < mb.pending.len() && #[trigger] mb.pending[i].0 == ta;
    assert(jb == len);
}

/// Every command whose text suits the wire is read back, from the line that
/// renders it, as that same command.
pub proof fn law_line_round_trip(c: CommandModel)
    requires
        wire_ok(c),
    ensures
        parse_spec(line_spec(c)) == Ok::<CommandModel, Seq<char>>(c),
{
    reveal_strlit("SET_NEXT ");
    reveal_strlit("GET");
    reveal_strlit("RING ");
    reveal_strlit("WALK");
    reveal_strlit("WALK HOP ");
    reveal_strlit("WALK DONE ");
    reveal_strlit("GET\n");
    reveal_strlit("WALK\n");
    reveal_strlit("\n");
    reveal_strlit(" ");
    let nl = seq!['\n'];
    let sp = seq![' '];
    match c {
        CommandModel::SetNext(a) => {
            let body = "SET_NEXT "@ + a;
            assert(line_spec(c) =~= body + nl);
            assert(body.last() == a.last());
            lemma_strip_added_newline(body);
            assert(body.subrange(0, 9) =~= "SET_NEXT "@);
            assert(body.skip(9) =~= a);
            lemma_trim_fixed(a);
        },
        CommandModel::Get => {
            let body = "GET"@;
            assert(line_spec(c) =~= body + nl);
            lemma_strip_added_newline(body);
        },
        CommandModel::Ring { ttl, msg } => {
            let d = decimal(ttl as nat);
            lemma_parse_decimal(ttl);
            let body = "RING "@ + d + sp + msg;
            assert(line_spec(c) =~= body + nl);
            if msg.len() > 0 {
                assert(body.last() == msg.last());
            } else {
                assert(body.last() == ' ');
            }
            lemma_strip_added_newline(body);
            assert(body[0] == 'R');
            if has_prefix(body, "SET_NEXT "@) {
                assert(body.subrange(0, 9)[0] == body[0]);
            }
            assert(body.subrange(0, 5) =~= "RING "@);
            assert(body.skip(5) =~= d + sp + msg);
            lemma_split_joined(d, msg);
            lemma_trim_fixed(msg);
        },
        CommandModel::WalkStart => {
            let body = "WALK"@;
            assert(line_spec(c) =~= body + nl);
            lemma_strip_added_newline(body);
        },
        CommandModel::WalkHop { token, start_addr, history } => {
            let tail = start_addr + sp + history;
            let body = "WALK HOP "@ + token + sp + tail;
            assert(line_spec(c) =~= body + nl);
            if history.len() > 0 {
                assert(body.last() == history.last());
            } else {
                assert(body.last() == ' ');
            }
            lemma_strip_added_newline(body);
            assert(body[0] == 'W');
            if has_prefix(body, "SET_NEXT "@) {
                assert(body.subrange(0, 9)[0] == body[0]);
            }
            if has_prefix(body, "RING "@) {
                assert(body.subrange(0, 5)[0] == body[0]);
            }
            assert(body.subrange(0, 9) =~= "WALK HOP "@);
            assert(body.skip(9) =~= token + sp + tail);
            lemma_split_joined(token, tail);
            lemma_split_joined(start_addr, history);
            lemma_trim_fixed(token);
            lemma_trim_fixed(start_addr);
        },
        CommandModel::WalkDone { token, history } => {
            let body = "WALK DONE "@ + token + sp + history;
            assert(line_spec(c) =~= body + nl);
            if history.len() > 0 {
                assert(body.last() == history.last());
            } else {
                assert(body.last() == ' ');
            }
            lemma_strip_added_newline(body);
            assert(body[0] == 'W');
            if has_prefix(body, "SET_NEXT "@) {
                assert(body.subrange(0, 9)[0] == body[0]);
            }
            if has_prefix(body, "RING "@) {
                assert(body.subrange(0, 5)[0] == body[0]);
            }
            if has_prefix(body, "WALK HOP "@) {
                assert(body.subrange(0, 9)[5] == 'D');
            }
            assert(body.subrange(0, 10) =~= "WALK DONE "@);
            assert(body.skip(10) =~= token + sp + history);
            lemma_split_joined(token, history);
            lemma_trim_fixed(token);
        },
    }
}

proof fn lemma_no_newline_joined(a: Seq<char>, b: Seq<char>)
    requires
        !a.contains('\n'),
        !b.contains('\n'),
    ensures
        !(a + b).contains('\n'),
{
    if (a + b).contains('\n') {
        let i = choose|i: int| 0 <= i < (a + b).len() && (a + b)[i] == '\n';
        if i < a.len() {
            assert(a[i] == '\n');
        } else {
            assert(b[i - a.len()] == '\n');
        }
    }
}

/// A walk hop passes on intact: at a node whose address and successor suit
/// the wire, a hop whose token, start and history suit the wire is sent on
/// as a line that the next node reads as the same walk, its history grown by
/// this node's edge, and still fit to travel.
pub proof fn law_hop_reads_back<S>(
    n: NodeModel<S>,
    token: Seq<char>,
    start_addr: Seq<char>,
    history: Seq<char>,
)
    requires
        n.successor is Some,
        is_wire_field(n.address),
        is_wire_field(n.successor->0),
        is_wire_field(token),
        is_wire_field(start_addr),
        is_wire_tail(history),
    ensures
        ({
            let s = n.successor->0;
            let h = append_edge_spec(history, n.address, s);
            let sent = hop_forward_spec(n, token, start_addr, history);
            let line = match sent {
                Some(out) => out.1,
                None => Seq::empty(),
            };
            &&& is_wire_tail(h)
            &&& sent is Some
            &&& parse_spec(line) == if s
                == start_addr {
                Ok::<CommandModel, Seq<char>>(CommandModel::WalkDone { token, history: h })
            } else {
                Ok::<CommandModel, Seq<char>>(CommandModel::WalkHop { token, start_addr, history: h })
            }
        }),
{
    reveal_strlit("->");
    reveal_strlit(";");
    let s = n.successor->0;
    let a = n.address;
    let arrow = "->"@;
    let semi = ";"@;
    lemma_no_newline_joined(a, arrow);
    lemma_no_newline_joined(a + arrow, s);
    let e = a + arrow + s;
    let h = append_edge_spec(history, a, s);
    if history.len() > 0 {
        lemma_no_newline_joined(history, semi);
        lemma_no_newline_joined(history + semi, e);
        assert(h.last() == s.last());
    } else {
        assert(h.last() == s.last());
    }
    if s == start_addr {
        law_line_round_trip(CommandModel::WalkDone { token, history: h });
    } else {
        law_line_round_trip(CommandModel::WalkHop { token, start_addr, history: h });
    }
}

/// The first hop of a walk reads back at the successor as that walk: its
/// token, its start, and the one edge from the start to the successor.
pub proof fn law_walk_launch_reads_back(k: nat, start_addr: Seq<char>, next: Seq<char>)
    requires
        is_wire_field(start_addr),
        is_wire_field(next),
    ensures
        parse_spec(
            line_spec(
                (CommandModel::WalkHop {
                    token: token_of(k),
                    start_addr,
                    history: edge(start_addr, next),
                }),
            ),
        ) == Ok::<CommandModel, Seq<char>>(
            CommandModel::WalkHop { token: token_of(k), start_addr, history: edge(start_addr, next) },
        ),
{
    reveal_strlit("->");
    let t = token_of(k);
    lemma_decimal_digits(k);
    assert(all_digits(t));
    assert(is_digit(t[0]) && is_digit(t.last()));
    if t.contains(' ') || t.contains('\n') {
        let i = choose|i: int| 0 <= i < t.len() && (t[i] == ' ' || t[i] == '\n');
        assert(is_digit(t[i]));
    }
    let h = edge(start_addr, next);
    lemma_no_newline_joined(start_addr, "->"@);
    lemma_no_newline_joined(start_addr + "->"@, next);
    assert(h.last() == next.last());
    law_line_round_trip(CommandModel::WalkHop { token: t, start_addr, history: h });
}

} // verus!
