//! The state of one ring node and what each command does to it.
//!
//! A node knows its own address, its successor (set by `SET_NEXT`), and the
//! walks that started here and wait for their `WALK DONE`. Each waiting walk
//! holds a completion slot of type `S`, which the caller supplies (a one-shot
//! sender, say) and gets back when the walk completes or is given up.
use vstd::prelude::*;
use vstd::string::*;

use crate::protocol::{line_spec, parse_line, parse_spec, Command, CommandModel};
use crate::text::{decimal, lemma_decimal_injective, push_decimal, text_eq};

verus! {

/// One line to send to another node.
pub struct Outbound {
    pub dest: String,
    pub line: String,
}

impl View for Outbound {
    type V = (Seq<char>, Seq<char>);

    open spec fn view(&self) -> (Seq<char>, Seq<char>) {
        (self.dest@, self.line@)
    }
}

/// What the connection that received a command does next.
pub enum Effect<S> {
    /// Send `forward`, if any, then write `reply` to the peer.
    Respond { forward: Option<Outbound>, reply: String },
    /// Start a walk: make a completion slot and hand it to `Node::start_walk`.
    BeginWalk,
    /// Hand `history` to `slot`, if any, then write `reply` to the peer.
    Deliver { slot: Option<S>, history: String, reply: String },
}

pub enum EffectModel<S> {
    Respond { forward: Option<(Seq<char>, Seq<char>)>, reply: Seq<char> },
    BeginWalk,
    Deliver { slot: Option<S>, history: Seq<char>, reply: Seq<char> },
}

pub open spec fn outbound_view(o: Option<Outbound>) -> Option<(Seq<char>, Seq<char>)> {
    match o {
        Some(b) => Some(b@),
        None => None,
    }
}

impl<S> View for Effect<S> {
    type V = EffectModel<S>;

    open spec fn view(&self) -> EffectModel<S> {
        match self {
            Effect::Respond { forward, reply } => EffectModel::Respond {
                forward: outbound_view(*forward),
                reply: reply@,
            },
            Effect::BeginWalk => EffectModel::BeginWalk,
            Effect::Deliver { slot, history, reply } => EffectModel::Deliver {
                slot: *slot,
                history: history@,
                reply: reply@,
            },
        }
    }
}

/// How a walk's wait at its start node ended.
pub enum WalkOutcome {
    /// The final history arrived.
    Completed(String),
    /// The completion slot went away without a value.
    Canceled,
    /// The deadline passed first.
    TimedOut,
}

/// The walk that `Node::start_walk` registered, and its first hop.
pub struct WalkLaunch {
    pub token: String,
    pub hop: Outbound,
}

/// The abstract state of a node.
pub struct NodeModel<S> {
    pub address: Seq<char>,
    pub successor: Option<Seq<char>>,
    /// The waiting walks, each a token and its completion slot.
    pub pending: Seq<(Seq<char>, S)>,
    /// How many walk tokens have been handed out.
    pub issued: nat,
}

pub struct Node<S> {
    address: String,
    next: Option<String>,
    pending: Vec<(String, S)>,
    issued: u64,
}

pub open spec fn opt_view(o: Option<String>) -> Option<Seq<char>> {
    match o {
        Some(s) => Some(s@),
        None => None,
    }
}

impl<S> View for Node<S> {
    type V = NodeModel<S>;

    closed spec fn view(&self) -> NodeModel<S> {
        NodeModel {
            address: self.address@,
            successor: opt_view(self.next),
            pending: self.pending@.map_values(|e: (String, S)| (e.0@, e.1)),
            issued: self.issued as nat,
        }
    }
}

/// Whether a walk with token `t` waits in `p`.
pub open spec fn has_token<S>(p: Seq<(Seq<char>, S)>, t: Seq<char>) -> bool {
    exists|i: int| 0 <= i < p.len() && #[trigger] p[i].0 == t
}

/// Where the walk with token `t` stands in `p`.
pub open spec fn token_pos<S>(p: Seq<(Seq<char>, S)>, t: Seq<char>) -> int {
    choose|i: int| 0 <= i < p.len() && #[trigger] p[i].0 == t
}

/// The token that the walk numbered `k` gets.
pub open spec fn token_of(k: nat) -> Seq<char> {
    decimal(k)
}

/// Whether `t` is one of the first `issued` tokens.
pub open spec fn issued_before(t: Seq<char>, issued: nat) -> bool {
    exists|k: nat| k < issued && t == #[trigger] token_of(k)
}

/// Tokens of waiting walks are distinct, each one handed out earlier.
pub open spec fn model_wf<S>(n: NodeModel<S>) -> bool {
    &&& forall|i: int|
        0 <= i < n.pending.len() ==> issued_before(#[trigger] n.pending[i].0, n.issued)
    &&& forall|i: int, j: int|
        0 <= i < n.pending.len() && 0 <= j < n.pending.len() && i != j ==> #[trigger] n.pending[i].0
            != #[trigger] n.pending[j].0
}

/// One edge of a walk history.
pub open spec fn edge(from: Seq<char>, to: Seq<char>) -> Seq<char> {
    from + "->"@ + to
}

/// `history` with the edge `from->to` added at its end, `;` between edges.
pub open spec fn append_edge_spec(history: Seq<char>, from: Seq<char>, to: Seq<char>) -> Seq<
    char,
> {
    if history.len() == 0 {
        edge(from, to)
    } else {
        history + ";"@ + edge(from, to)
    }
}

pub open spec fn error_reply_spec(msg: Seq<char>) -> Seq<char> {
    "ERR "@ + msg + "\n"@
}

/// The reply to `GET`.
pub open spec fn get_reply_spec<S>(n: NodeModel<S>) -> Seq<char> {
    "PORT "@ + n.address + "\nNEXT "@ + match n.successor {
        Some(a) => a,
        None => "<unset>"@,
    } + "\nOK\n"@
}

/// What a `RING` with `ttl` and `msg` sends on: one less to the successor,
/// while the budget lasts and a successor is set.
pub open spec fn ring_forward_spec<S>(n: NodeModel<S>, ttl: u32, msg: Seq<char>) -> Option<
    (Seq<char>, Seq<char>),
> {
    match n.successor {
        Some(s) => if ttl > 0 {
            Some((s, line_spec(CommandModel::Ring { ttl: (ttl - 1) as u32, msg })))
        } else {
            None
        },
        None => None,
    }
}

/// What a `WALK HOP` sends on: the history grows by this node's edge, and the
/// walk goes back to its start as `WALK DONE` once the successor is the start.
/// Successor and start are compared as exact text: `7001` and
/// `127.0.0.1:7001` are different nodes here.
pub open spec fn hop_forward_spec<S>(
    n: NodeModel<S>,
    token: Seq<char>,
    start_addr: Seq<char>,
    history: Seq<char>,
) -> Option<(Seq<char>, Seq<char>)> {
    match n.successor {
        Some(s) => {
            let h = append_edge_spec(history, n.address, s);
            if s == start_addr {
                Some((start_addr, line_spec(CommandModel::WalkDone { token, history: h })))
            } else {
                Some((s, line_spec(CommandModel::WalkHop { token, start_addr, history: h })))
            }
        },
        None => None,
    }
}

/// The node's state and effect after it handles the command `c`.
pub open spec fn step<S>(n: NodeModel<S>, c: CommandModel) -> (NodeModel<S>, EffectModel<S>) {
    match c {
        CommandModel::SetNext(a) => (
            NodeModel { address: n.address, successor: Some(a), pending: n.pending, issued: n.issued },
            EffectModel::Respond { forward: None, reply: "OK next="@ + a + "\n"@ },
        ),
        CommandModel::Get => (n, EffectModel::Respond { forward: None, reply: get_reply_spec(n) }),
        CommandModel::Ring { ttl, msg } => (
            n,
            EffectModel::Respond { forward: ring_forward_spec(n, ttl, msg), reply: "OK\n"@ },
        ),
        CommandModel::WalkStart => (n, EffectModel::BeginWalk),
        CommandModel::WalkHop { token, start_addr, history } => (
            n,
            EffectModel::Respond {
                forward: hop_forward_spec(n, token, start_addr, history),
                reply: "OK\n"@,
            },
        ),
        CommandModel::WalkDone { token, history } => {
            let (m, slot) = finish_spec(n, token);
            (m, EffectModel::Deliver { slot, history, reply: "OK\n"@ })
        },
    }
}

/// Removes the walk with token `t`, giving back its slot; unchanged when no
/// such walk waits.
pub open spec fn finish_spec<S>(n: NodeModel<S>, t: Seq<char>) -> (NodeModel<S>, Option<S>) {
    if has_token(n.pending, t) {
        let i = token_pos(n.pending, t);
        (
            NodeModel {
                address: n.address,
                successor: n.successor,
                pending: n.pending.remove(i),
                issued: n.issued,
            },
            Some(n.pending[i].1),
        )
    } else {
        (n, None)
    }
}

/// Registers a walk with a fresh token and slot `slot`, when a successor is set.
pub open spec fn start_spec<S>(n: NodeModel<S>, slot: S) -> NodeModel<S> {
    NodeModel {
        address: n.address,
        successor: n.successor,
        pending: n.pending.push((token_of(n.issued), slot)),
        issued: n.issued + 1,
    }
}

/// `h` with each `;` turned into a line break.
pub open spec fn history_lines(h: Seq<char>) -> Seq<char> {
    h.map_values(|c: char| if c == ';' { '\n' } else { c })
}

/// The reply that ends a walk at its start node.
pub open spec fn walk_reply_spec(h: Seq<char>) -> Seq<char> {
    let p = history_lines(h);
    if p.len() > 0 && p.last() == '\n' {
        p + "OK\n"@
    } else {
        p + "\n"@ + "OK\n"@
    }
}

proof fn lemma_wf_frame<S>(a: NodeModel<S>, b: NodeModel<S>)
    requires
        model_wf(a),
        a.pending == b.pending,
        a.issued == b.issued,
    ensures
        model_wf(b),
{
}

fn ok_line() -> (r: String)
    ensures
        r@ == "OK\n"@,
{
    "OK\n".to_owned()
}

fn append_string(out: &mut String, s: &String)
    ensures
        final(out)@ == old(out)@ + s@,
{
    out.append(s.as_str());
}

/// The error line `ERR <msg>`.
pub fn error_reply(msg: &str) -> (r: String)
    ensures
        r@ == error_reply_spec(msg@),
{
    let mut out = String::new();
    out.append("ERR ");
    out.append(msg);
    out.append("\n");
    proof {
        assert(out@ =~= error_reply_spec(msg@));
    }
    out
}

/// `history` with the edge `from->to` added at its end.
pub fn append_edge(history: String, from: &str, to: &str) -> (r: String)
    ensures
        r@ == append_edge_spec(history@, from@, to@),
{
    let mut out = history;
    if out.unicode_len() > 0 {
        out.append(";");
    }
    out.append(from);
    out.append("->");
    out.append(to);
    proof {
        assert(out@ =~= append_edge_spec(history@, from@, to@));
    }
    out
}

/// The reply that the start node writes to the client that asked for the walk.
pub fn walk_reply(outcome: WalkOutcome) -> (r: String)
    ensures
        r@ == match outcome {
            WalkOutcome::Completed(h) => walk_reply_spec(h@),
            WalkOutcome::Canceled => error_reply_spec("walk canceled"@),
            WalkOutcome::TimedOut => error_reply_spec("walk timeout"@),
        },
{
    match outcome {
        WalkOutcome::Completed(h) => {
            let mut out = String::new();
            let n = h.unicode_len();
            let mut i: usize = 0;
            let mut last_break = false;
            let hs = h.as_str();
            while i < n
                invariant
                    n == h@.len(),
                    hs@ == h@,
                    i <= n,
                    out@ == history_lines(h@.take(i as int)),
                    last_break == (i > 0 && out@.last() == '\n'),
                decreases n - i,
            {
                let c = hs.get_char(i);
                proof {
                    reveal_strlit("\n");
                }
                assert(history_lines(h@.take(i + 1)) =~= history_lines(h@.take(i as int)).push(
                    if c == ';' { '\n' } else { c },
                ));
                if c == ';' || c == '\n' {
                    out.append("\n");
                    last_break = true;
                } else {
                    let piece = hs.substring_char(i, i + 1);
                    assert(piece@ =~= seq![c]);
                    out.append(piece);
                    last_break = false;
                }
                i = i + 1;
            }
            assert(h@.take(n as int) =~= h@);
            if !last_break {
                out.append("\n");
            }
            out.append("OK\n");
            out
        },
        WalkOutcome::Canceled => error_reply("walk canceled"),
        WalkOutcome::TimedOut => error_reply("walk timeout"),
    }
}

impl<S> Node<S> {
    pub closed spec fn wf(&self) -> bool {
        model_wf(self@)
    }

    /// A node listening on `address`, with no successor and no walk waiting.
    pub fn new(address: String) -> (r: Node<S>)
        ensures
            r.wf(),
            r@.address == address@,
            r@.successor is None,
            r@.pending.len() == 0,
            r@.issued == 0,
    {
        let r = Node { address, next: None, pending: Vec::new(), issued: 0 };
        assert(r@.pending =~= Seq::<(Seq<char>, S)>::empty());
        r
    }

    /// The address this node listens on, which names it in walk histories.
    pub fn port(&self) -> (r: &str)
        ensures
            r@ == self@.address,
    {
        self.address.as_str()
    }

    /// Makes `addr` the successor.
    pub fn set_next(&mut self, addr: String)
        requires
            old(self).wf(),
        ensures
            final(self).wf(),
            final(self)@ == step(old(self)@, CommandModel::SetNext(addr@)).0,
    {
        self.next = Some(addr);
        proof {
            lemma_wf_frame(old(self)@, self@);
        }
    }

    /// The successor, if one is set.
    pub fn get_next(&self) -> (r: Option<String>)
        ensures
            opt_view(r) == self@.successor,
    {
        match &self.next {
            Some(a) => Some(a.clone()),
            None => None,
        }
    }

    /// The reply to `GET`: this node's address and its successor.
    pub fn get_reply(&self) -> (r: String)
        ensures
            r@ == get_reply_spec(self@),
    {
        let mut out = String::new();
        out.append("PORT ");
        append_string(&mut out, &self.address);
        out.append("\nNEXT ");
        match &self.next {
            Some(a) => append_string(&mut out, a),
            None => out.append("<unset>"),
        }
        out.append("\nOK\n");
        proof {
            assert(out@ =~= get_reply_spec(self@));
        }
        out
    }

    /// The line that a `RING` with `ttl` and `msg` sends on, and where.
    pub fn ring_forward(&self, ttl: u32, msg: &String) -> (r: Option<Outbound>)
        ensures
            outbound_view(r) == ring_forward_spec(self@, ttl, msg@),
    {
        match &self.next {
            Some(s) => if ttl > 0 {
                let line = Command::Ring { ttl: ttl - 1, msg: msg.clone() }.to_line();
                Some(Outbound { dest: s.clone(), line })
            } else {
                None
            },
            None => None,
        }
    }

    /// The line that a `WALK HOP` sends on, and where.
    pub fn walk_hop(&self, token: &String, start_addr: &String, history: String) -> (r: Option<
        Outbound,
    >)
        ensures
            outbound_view(r) == hop_forward_spec(self@, token@, start_addr@, history@),
    {
        match &self.next {
            Some(s) => {
                let h = append_edge(history, self.address.as_str(), s.as_str());
                if text_eq(s.as_str(), start_addr.as_str()) {
                    let line = Command::WalkDone { token: token.clone(), history: h }.to_line();
                    Some(Outbound { dest: start_addr.clone(), line })
                } else {
                    let line = Command::WalkHop {
                        token: token.clone(),
                        start_addr: start_addr.clone(),
                        history: h,
                    }.to_line();
                    Some(Outbound { dest: s.clone(), line })
                }
            },
            None => None,
        }
    }

    /// Registers a walk that starts here, with the completion slot `slot`.
    /// Without a successor there is no ring to walk, and nothing is
    /// registered; nor once every token that the counter can number has been
    /// handed out. The reply line of a refusal comes back as the error.
    pub fn start_walk(&mut self, slot: S) -> (r: Result<WalkLaunch, String>)
        requires
            old(self).wf(),
        ensures
            final(self).wf(),
            match old(self)@.successor {
                None => r is Err && r->Err_0@ == error_reply_spec("next not set"@) && final(self)@
                    == old(self)@,
                Some(s) => if old(self)@.issued < u64::MAX {
                    &&& r is Ok
                    &&& r->Ok_0.token@ == token_of(old(self)@.issued)
                    &&& !has_token(old(self)@.pending, r->Ok_0.token@)
                    &&& r->Ok_0.hop@ == (
                        s,
                        line_spec(
                            CommandModel::WalkHop {
                                token: r->Ok_0.token@,
                                start_addr: old(self)@.address,
                                history: edge(old(self)@.address, s),
                            },
                        ),
                    )
                    &&& final(self)@ == start_spec(old(self)@, slot)
                } else {
                    r is Err && r->Err_0@ == error_reply_spec("walk tokens exhausted"@)
                        && final(self)@ == old(self)@
                },
            },
    {
        let s = match &self.next {
            Some(s) => s.clone(),
            None => {
                return Err(error_reply("next not set"));
            },
        };
        if self.issued == u64::MAX {
            return Err(error_reply("walk tokens exhausted"));
        }
        let mut token = String::new();
        push_decimal(&mut token, self.issued);
        let history = append_edge(String::new(), self.address.as_str(), s.as_str());
        let line = Command::WalkHop {
            token: token.clone(),
            start_addr: self.address.clone(),
            history,
        }.to_line();
        let ghost old_model = self@;
        proof {
            assert(token@ =~= token_of(old_model.issued));
            assert forall|i: int| 0 <= i < old_model.pending.len() implies #[trigger] old_model.pending[i].0
                != token@ by {
                let k = choose|k: nat| k < old_model.issued && old_model.pending[i].0 == #[trigger] token_of(k);
                if old_model.pending[i].0 == token@ {
                    lemma_decimal_injective(k, old_model.issued);
                }
            }
        }
        self.pending.push((token.clone(), slot));
        self.issued = self.issued + 1;
        proof {
            let n = self@;
            assert(n.pending =~= old_model.pending.push((token@, slot)));
            assert forall|i: int| 0 <= i < n.pending.len() implies issued_before(
                #[trigger] n.pending[i].0,
                n.issued,
            ) by {
                if i < old_model.pending.len() {
                    assert(issued_before(old_model.pending[i].0, old_model.issued));
                    let k = choose|k: nat| k < old_model.issued && old_model.pending[i].0 == #[trigger] token_of(k);
                    assert(n.pending[i].0 == token_of(k));
                } else {
                    assert(n.pending[i].0 == token_of(old_model.issued));
                }
            }
        }
        Ok(WalkLaunch { token, hop: Outbound { dest: s, line } })
    }

    /// Removes the walk with `token`, giving back its slot; `None`, with
    /// nothing changed, when no such walk waits.
    pub fn finish_walk(&mut self, token: &str) -> (r: Option<S>)
        requires
            old(self).wf(),
        ensures
            final(self).wf(),
            (final(self)@, r) == finish_spec(old(self)@, token@),
    {
        let n = self.pending.len();
        let mut i: usize = 0;
        while i < n
            invariant
                n == self.pending@.len(),
                i <= n,
                self@ == old(self)@,
                model_wf(self@),
                forall|j: int| 0 <= j < i ==> (#[trigger] self.pending@[j]).0@ != token@,
            decreases n - i,
        {
            if text_eq(self.pending[i].0.as_str(), token) {
                let ghost old_model = self@;
                assert(old_model.pending[i as int].0 == token@);
                let entry = self.pending.remove(i);
                proof {
                    let p = old_model.pending;
                    let j = token_pos(p, token@);
                    assert(p[j].0 == token@);
                    assert(j == i);
                    assert(self@.pending =~= p.remove(i as int));
                    assert forall|a: int| 0 <= a < self@.pending.len() implies issued_before(
                        #[trigger] self@.pending[a].0,
                        self@.issued,
                    ) by {
                        if a < i {
                            assert(self@.pending[a] == p[a]);
                        } else {
                            assert(self@.pending[a] == p[a + 1]);
                        }
                    }
                    assert forall|a: int, b: int|
                        0 <= a < self@.pending.len() && 0 <= b < self@.pending.len() && a != b
                        implies #[trigger] self@.pending[a].0 != #[trigger] self@.pending[b].0 by {
                        let a2 = if a < i { a } else { a + 1 };
                        let b2 = if b < i { b } else { b + 1 };
                        assert(self@.pending[a] == p[a2]);
                        assert(self@.pending[b] == p[b2]);
                    }
                }
                return Some(entry.1);
            }
            i = i + 1;
        }
        proof {
            assert(!has_token(self@.pending, token@)) by {
                if has_token(self@.pending, token@) {
                    let j = choose|j: int| 0 <= j < self@.pending.len() && #[trigger] self@.pending[j].0 == token@;
                    assert(self@.pending[j].0 == self.pending@[j].0@);
                }
            }
        }
        None
    }

    /// Handles one parsed command: what it changes here and what the
    /// connection that brought it does next.
    pub fn handle(&mut self, cmd: Command) -> (r: Effect<S>)
        requires
            old(self).wf(),
        ensures
            final(self).wf(),
            (final(self)@, r@) == step(old(self)@, cmd@),
    {
        match cmd {
            Command::SetNext(addr) => {
                let mut reply = String::new();
                reply.append("OK next=");
                append_string(&mut reply, &addr);
                reply.append("\n");
                self.set_next(addr);
                Effect::Respond { forward: None, reply }
            },
            Command::Get => Effect::Respond { forward: None, reply: self.get_reply() },
            Command::Ring { ttl, msg } => {
                let forward = self.ring_forward(ttl, &msg);
                Effect::Respond { forward, reply: ok_line() }
            },
            Command::WalkStart => Effect::BeginWalk,
            Command::WalkHop { token, start_addr, history } => {
                let forward = self.walk_hop(&token, &start_addr, history);
                Effect::Respond { forward, reply: ok_line() }
            },
            Command::WalkDone { token, history } => {
                let slot = self.finish_walk(token.as_str());
                Effect::Deliver { slot, history, reply: ok_line() }
            },
        }
    }

    /// Handles one line received on a connection: a line that does not
    /// parse is answered with an error line and changes nothing.
    pub fn handle_line(&mut self, line: &str) -> (r: Effect<S>)
        requires
            old(self).wf(),
        ensures
            final(self).wf(),
            match parse_spec(line@) {
                Ok(c) => (final(self)@, r@) == step(old(self)@, c),
                Err(m) => final(self)@ == old(self)@ && r@ == EffectModel::<S>::Respond {
                    forward: None,
                    reply: error_reply_spec(m),
                },
            },
    {
        match parse_line(line) {
            Ok(cmd) => self.handle(cmd),
            Err(e) => Effect::Respond { forward: None, reply: error_reply(e.as_str()) },
        }
    }
}

} // verus!
