//! Line-based text protocol spoken by clients and by ring nodes.
//!
//! One command per line:
//!   - `SET_NEXT <addr>`
//!   - `GET`
//!   - `RING <ttl> <message...>`
//!   - `WALK`                              (client to start node)
//!   - `WALK HOP <token> <start> <hist>`   (node to node)
//!   - `WALK DONE <token> <hist>`          (last node to start node)
//!
//! A walk history travels on one line, its edges joined by `;`; only the
//! start node's reply to its client puts each edge on a line of its own.
use vstd::prelude::*;
use vstd::string::*;

use crate::text::{
    is_ws, after_field, decimal, first_field, has_prefix, parse_u32, parse_u32_spec, push_decimal,
    rest_of, split_field, starts_with, strip_eol, strip_line_end, text_eq, trim, trim_text,
};

verus! {

/// A parsed command line.
#[derive(Debug, Clone, PartialEq, Eq)]
pub enum Command {
    SetNext(String),
    Get,
    Ring { ttl: u32, msg: String },
    WalkStart,
    WalkHop { token: String, start_addr: String, history: String },
    WalkDone { token: String, history: String },
}

/// A command with its text as character sequences.
pub enum CommandModel {
    SetNext(Seq<char>),
    Get,
    Ring { ttl: u32, msg: Seq<char> },
    WalkStart,
    WalkHop { token: Seq<char>, start_addr: Seq<char>, history: Seq<char> },
    WalkDone { token: Seq<char>, history: Seq<char> },
}

impl View for Command {
    type V = CommandModel;

    open spec fn view(&self) -> CommandModel {
        match self {
            Command::SetNext(a) => CommandModel::SetNext(a@),
            Command::Get => CommandModel::Get,
            Command::Ring { ttl, msg } => CommandModel::Ring { ttl: *ttl, msg: msg@ },
            Command::WalkStart => CommandModel::WalkStart,
            Command::WalkHop { token, start_addr, history } => CommandModel::WalkHop {
                token: token@,
                start_addr: start_addr@,
                history: history@,
            },
            Command::WalkDone { token, history } => CommandModel::WalkDone {
                token: token@,
                history: history@,
            },
        }
    }
}

/// The grammar of one line, its rules tried in order, the first match winning.
pub open spec fn parse_spec(line: Seq<char>) -> Result<CommandModel, Seq<char>> {
    let t = strip_eol(line);
    if has_prefix(t, "SET_NEXT "@) {
        let addr = trim(t.skip("SET_NEXT "@.len() as int));
        if addr.len() == 0 {
            Err("missing address"@)
        } else {
            Ok(CommandModel::SetNext(addr))
        }
    } else if t == "GET"@ {
        Ok(CommandModel::Get)
    } else if has_prefix(t, "RING "@) {
        let rest = t.skip("RING "@.len() as int);
        match parse_u32_spec(first_field(rest)) {
            Some(ttl) => Ok(CommandModel::Ring { ttl, msg: trim(after_field(rest)) }),
            None => Err("invalid ttl"@),
        }
    } else if t == "WALK"@ {
        Ok(CommandModel::WalkStart)
    } else if has_prefix(t, "WALK HOP "@) {
        let rest = t.skip("WALK HOP "@.len() as int);
        let token = trim(first_field(rest));
        let start_addr = trim(first_field(after_field(rest)));
        let history = after_field(after_field(rest));
        if token.len() == 0 || start_addr.len() == 0 {
            Err("malformed WALK HOP"@)
        } else {
            Ok(CommandModel::WalkHop { token, start_addr, history })
        }
    } else if has_prefix(t, "WALK DONE "@) {
        let rest = t.skip("WALK DONE "@.len() as int);
        let token = trim(first_field(rest));
        let history = after_field(rest);
        if token.len() == 0 {
            Err("malformed WALK DONE"@)
        } else {
            Ok(CommandModel::WalkDone { token, history })
        }
    } else {
        Err("unknown command"@)
    }
}

/// The line, newline included, that writes the command `c` on the wire.
pub open spec fn line_spec(c: CommandModel) -> Seq<char> {
    match c {
        CommandModel::SetNext(a) => "SET_NEXT "@ + a + "\n"@,
        CommandModel::Get => "GET\n"@,
        CommandModel::Ring { ttl, msg } => "RING "@ + decimal(ttl as nat) + " "@ + msg + "\n"@,
        CommandModel::WalkStart => "WALK\n"@,
        CommandModel::WalkHop { token, start_addr, history } => "WALK HOP "@ + token + " "@
            + start_addr + " "@ + history + "\n"@,
        CommandModel::WalkDone { token, history } => "WALK DONE "@ + token + " "@ + history
            + "\n"@,
    }
}

/// Text that fits between single spaces on a line: not empty, no space or
/// line break in it, and no white space at its ends.
pub open spec fn is_wire_field(t: Seq<char>) -> bool {
    &&& t.len() > 0
    &&& !t.contains(' ')
    &&& !t.contains('\n')
    &&& !is_ws(t[0])
    &&& !is_ws(t.last())
}

/// Text that may close a line: no line break in it, no carriage return at its end.
pub open spec fn is_wire_tail(t: Seq<char>) -> bool {
    !t.contains('\n') && (t.len() == 0 || t.last() != '\r')
}

/// Text with no line break in it and no white space at its ends.
pub open spec fn is_wire_text(t: Seq<char>) -> bool {
    !t.contains('\n') && (t.len() == 0 || (!is_ws(t[0]) && !is_ws(t.last())))
}

/// The commands whose line reads back as the same command: their text holds
/// no line break, and where the grammar trims or splits on spaces, there is
/// nothing for it to take away.
pub open spec fn wire_ok(c: CommandModel) -> bool {
    match c {
        CommandModel::SetNext(a) => a.len() > 0 && is_wire_text(a),
        CommandModel::Get => true,
        CommandModel::Ring { ttl, msg } => is_wire_text(msg),
        CommandModel::WalkStart => true,
        CommandModel::WalkHop { token, start_addr, history } => is_wire_field(token)
            && is_wire_field(start_addr) && is_wire_tail(history),
        CommandModel::WalkDone { token, history } => is_wire_field(token) && is_wire_tail(history),
    }
}

fn owned(s: &str) -> (r: String)
    ensures
        r@ == s@,
{
    s.to_owned()
}

/// Parses one line received from the wire, its line ending included or not.
pub fn parse_line(line: &str) -> (r: Result<Command, String>)
    ensures
        match (r, parse_spec(line@)) {
            (Ok(c), Ok(m)) => c@ == m,
            (Err(e), Err(m)) => e@ == m,
            _ => false,
        },
{
    let t = strip_line_end(line);
    if starts_with(t, "SET_NEXT ") {
        let addr = trim_text(rest_of(t, "SET_NEXT ".unicode_len()));
        if addr.unicode_len() == 0 {
            return Err(owned("missing address"));
        }
        return Ok(Command::SetNext(owned(addr)));
    }
    if text_eq(t, "GET") {
        return Ok(Command::Get);
    }
    if starts_with(t, "RING ") {
        let rest = rest_of(t, "RING ".unicode_len());
        let (ttl_text, msg) = split_field(rest);
        return match parse_u32(ttl_text) {
            Some(ttl) => Ok(Command::Ring { ttl, msg: owned(trim_text(msg)) }),
            None => Err(owned("invalid ttl")),
        };
    }
    if text_eq(t, "WALK") {
        return Ok(Command::WalkStart);
    }
    if starts_with(t, "WALK HOP ") {
        let rest = rest_of(t, "WALK HOP ".unicode_len());
        let (token, after) = split_field(rest);
        let (start_addr, history) = split_field(after);
        let token = trim_text(token);
        let start_addr = trim_text(start_addr);
        if token.unicode_len() == 0 || start_addr.unicode_len() == 0 {
            return Err(owned("malformed WALK HOP"));
        }
        return Ok(
            Command::WalkHop {
                token: owned(token),
                start_addr: owned(start_addr),
                history: owned(history),
            },
        );
    }
    if starts_with(t, "WALK DONE ") {
        let rest = rest_of(t, "WALK DONE ".unicode_len());
        let (token, history) = split_field(rest);
        let token = trim_text(token);
        if token.unicode_len() == 0 {
            return Err(owned("malformed WALK DONE"));
        }
        return Ok(Command::WalkDone { token: owned(token), history: owned(history) });
    }
    Err(owned("unknown command"))
}

impl Command {
    /// The line, newline included, that sends this command to a node.
    pub fn to_line(&self) -> (r: String)
        ensures
            r@ == line_spec(self@),
    {
        let mut out = String::new();
        match self {
            Command::SetNext(a) => {
                out.append("SET_NEXT ");
                out.append(a.as_str());
                out.append("\n");
            },
            Command::Get => {
                out.append("GET\n");
            },
            Command::Ring { ttl, msg } => {
                out.append("RING ");
                push_decimal(&mut out, *ttl as u64);
                out.append(" ");
                out.append(msg.as_str());
                out.append("\n");
            },
            Command::WalkStart => {
                out.append("WALK\n");
            },
            Command::WalkHop { token, start_addr, history } => {
                out.append("WALK HOP ");
                out.append(token.as_str());
                out.append(" ");
                out.append(start_addr.as_str());
                out.append(" ");
                out.append(history.as_str());
                out.append("\n");
            },
            Command::WalkDone { token, history } => {
                out.append("WALK DONE ");
                out.append(token.as_str());
                out.append(" ");
                out.append(history.as_str());
                out.append("\n");
            },
        }
        proof {
            assert(out@ =~= line_spec(self@));
        }
        out
    }
}

} // verus!
