//! The line-oriented command surface: whitespace-separated tokens, with the
//! data operations (`select`, `insert`, `delete`) matched case-insensitively
//! and the dot commands matched exactly. Tokens past the ones a command
//! consumes are ignored.

use vstd::prelude::*;

verus! {

/// A parsed command.
pub enum Command {
    Select { key: Vec<u8> },
    Insert { key: Vec<u8>, val: Vec<u8> },
    Delete { key: Vec<u8> },
    Dump,
    Compact,
    Exit,
}

/// The mathematical form of a [`Command`].
pub enum CommandModel {
    Select { key: Seq<u8> },
    Insert { key: Seq<u8>, val: Seq<u8> },
    Delete { key: Seq<u8> },
    Dump,
    Compact,
    Exit,
}

impl View for Command {
    type V = CommandModel;

    open spec fn view(&self) -> CommandModel {
        match self {
            Command::Select { key } => CommandModel::Select { key: key@ },
            Command::Insert { key, val } => CommandModel::Insert { key: key@, val: val@ },
            Command::Delete { key } => CommandModel::Delete { key: key@ },
            Command::Dump => CommandModel::Dump,
            Command::Compact => CommandModel::Compact,
            Command::Exit => CommandModel::Exit,
        }
    }
}

/// ASCII whitespace, as the splitter sees it.
pub open spec fn is_ws(b: u8) -> bool {
    b == 32 || b == 9 || b == 10 || b == 13
}

/// ASCII lower-casing of one byte.
pub open spec fn lower(b: u8) -> u8 {
    if 65 <= b && b <= 90 {
        (b + 32) as u8
    } else {
        b
    }
}

/// The whitespace-separated tokens of a line, in order.
pub open spec fn tokenize(s: Seq<u8>) -> Seq<Seq<u8>>
    decreases s.len(),
{
    if s.len() == 0 {
        Seq::empty()
    } else {
        let rest = tokenize(s.skip(1));
        if is_ws(s[0]) {
            rest
        } else if s.len() > 1 && !is_ws(s[1]) {
            seq![seq![s[0]] + rest[0]] + rest.skip(1)
        } else {
            seq![seq![s[0]]] + rest
        }
    }
}

/// The token spells `select`, case-insensitively.
pub open spec fn spells_select(t: Seq<u8>) -> bool {
    t.len() == 6 && lower(t[0]) == 115 && lower(t[1]) == 101 && lower(t[2]) == 108 && lower(
        t[3],
    ) == 101 && lower(t[4]) == 99 && lower(t[5]) == 116
}

/// The token spells `insert`, case-insensitively.
pub open spec fn spells_insert(t: Seq<u8>) -> bool {
    t.len() == 6 && lower(t[0]) == 105 && lower(t[1]) == 110 && lower(t[2]) == 115 && lower(
        t[3],
    ) == 101 && lower(t[4]) == 114 && lower(t[5]) == 116
}

/// The token spells `delete`, case-insensitively.
pub open spec fn spells_delete(t: Seq<u8>) -> bool {
    t.len() == 6 && lower(t[0]) == 100 && lower(t[1]) == 101 && lower(t[2]) == 108 && lower(
        t[3],
    ) == 101 && lower(t[4]) == 116 && lower(t[5]) == 101
}

/// The token is exactly `.dump`.
pub open spec fn spells_dump(t: Seq<u8>) -> bool {
    t.len() == 5 && t[0] == 46 && t[1] == 100 && t[2] == 117 && t[3] == 109 && t[4] == 112
}

/// The token is exactly `.exit`.
pub open spec fn spells_exit(t: Seq<u8>) -> bool {
    t.len() == 5 && t[0] == 46 && t[1] == 101 && t[2] == 120 && t[3] == 105 && t[4] == 116
}

/// The token is exactly `.compact`.
pub open spec fn spells_compact(t: Seq<u8>) -> bool {
    t.len() == 8 && t[0] == 46 && t[1] == 99 && t[2] == 111 && t[3] == 109 && t[4] == 112 && t[5]
        == 97 && t[6] == 99 && t[7] == 116
}

/// The command a token sequence denotes, if any.
pub open spec fn parse_spec(ts: Seq<Seq<u8>>) -> Option<CommandModel> {
    if ts.len() == 0 {
        None
    } else if spells_dump(ts[0]) {
        Some(CommandModel::Dump)
    } else if spells_exit(ts[0]) {
        Some(CommandModel::Exit)
    } else if spells_compact(ts[0]) {
        Some(CommandModel::Compact)
    } else if ts.len() >= 2 && spells_select(ts[0]) {
        Some(CommandModel::Select { key: ts[1] })
    } else if ts.len() >= 3 && spells_insert(ts[0]) {
        Some(CommandModel::Insert { key: ts[1], val: ts[2] })
    } else if ts.len() >= 2 && spells_delete(ts[0]) {
        Some(CommandModel::Delete { key: ts[1] })
    } else {
        None
    }
}

/// Split a line into its whitespace-separated tokens.
fn split_tokens(line: &Vec<u8>) -> (r: Vec<Vec<u8>>)
    ensures
        r@.map_values(|t: Vec<u8>| t@) == tokenize(line@),
{
    let n = line.len();
    let mut toks: Vec<Vec<u8>> = Vec::new();
    let mut i: usize = n;
    proof {
        assert(line@.skip(n as int).len() == 0);
        assert(toks@.map_values(|t: Vec<u8>| t@) =~= tokenize(line@.skip(n as int)));
    }
    while i > 0
        invariant
            i <= n,
            n == line@.len(),
            toks@.map_values(|t: Vec<u8>| t@) == tokenize(line@.skip(i as int)),
            toks@.len() > 0 ==> toks@[0]@.len() > 0,
        decreases i,
    {
        i = i - 1;
        let b = line[i];
        let ghost s = line@.skip(i as int);
        proof {
            assert(s[0] == line@[i as int]);
            assert(s.skip(1) =~= line@.skip(i + 1));
        }
        if b == 32 || b == 9 || b == 10 || b == 13 {
            // whitespace: tokens unchanged
        } else if toks.len() > 0 && i + 1 < n && {
            let c = line[i + 1];
            !(c == 32 || c == 9 || c == 10 || c == 13)
        } {
            // extend the token that starts right after this byte
            let mut first = toks.remove(0);
            first.insert(0, b);
            toks.insert(0, first);
            proof {
                let rest = tokenize(line@.skip(i + 1));
                assert(toks@[0]@ =~= seq![s[0]] + rest[0]);
                assert(toks@.map_values(|t: Vec<u8>| t@) =~= seq![seq![s[0]] + rest[0]]
                    + rest.skip(1));
            }
        } else {
            // this byte is a whole token, or ends at the line's edge
            let mut single: Vec<u8> = Vec::new();
            single.push(b);
            toks.insert(0, single);
            proof {
                let rest = tokenize(line@.skip(i + 1));
                if i + 1 < n {
                    assert(s.len() > 1 && s[1] == line@[i + 1]);
                }
                assert(toks@[0]@ =~= seq![s[0]]);
                assert(toks@.map_values(|t: Vec<u8>| t@) =~= seq![seq![s[0]]] + rest);
            }
        }
    }
    proof {
        assert(line@.skip(0) =~= line@);
    }
    toks
}

/// Whether the head token spells the given keyword, by its spec.
fn head_is_select(t: &Vec<u8>) -> (r: bool)
    ensures
        r == spells_select(t@),
{
    t.len() == 6 && lower_byte(t[0]) == 115 && lower_byte(t[1]) == 101 && lower_byte(t[2]) == 108
        && lower_byte(t[3]) == 101 && lower_byte(t[4]) == 99 && lower_byte(t[5]) == 116
}

fn head_is_insert(t: &Vec<u8>) -> (r: bool)
    ensures
        r == spells_insert(t@),
{
    t.len() == 6 && lower_byte(t[0]) == 105 && lower_byte(t[1]) == 110 && lower_byte(t[2]) == 115
        && lower_byte(t[3]) == 101 && lower_byte(t[4]) == 114 && lower_byte(t[5]) == 116
}

fn head_is_delete(t: &Vec<u8>) -> (r: bool)
    ensures
        r == spells_delete(t@),
{
    t.len() == 6 && lower_byte(t[0]) == 100 && lower_byte(t[1]) == 101 && lower_byte(t[2]) == 108
        && lower_byte(t[3]) == 101 && lower_byte(t[4]) == 116 && lower_byte(t[5]) == 101
}

fn head_is_dump(t: &Vec<u8>) -> (r: bool)
    ensures
        r == spells_dump(t@),
{
    t.len() == 5 && t[0] == 46 && t[1] == 100 && t[2] == 117 && t[3] == 109 && t[4] == 112
}

fn head_is_exit(t: &Vec<u8>) -> (r: bool)
    ensures
        r == spells_exit(t@),
{
    t.len() == 5 && t[0] == 46 && t[1] == 101 && t[2] == 120 && t[3] == 105 && t[4] == 116
}

fn head_is_compact(t: &Vec<u8>) -> (r: bool)
    ensures
        r == spells_compact(t@),
{
    t.len() == 8 && t[0] == 46 && t[1] == 99 && t[2] == 111 && t[3] == 109 && t[4] == 112 && t[5]
        == 97 && t[6] == 99 && t[7] == 116
}

fn lower_byte(b: u8) -> (r: u8)
    ensures
        r == lower(b),
{
    if 65 <= b && b <= 90 {
        b + 32
    } else {
        b
    }
}

impl Command {
    /// Parse one input line. `None` on anything outside the grammar.
    pub fn parse(line: &Vec<u8>) -> (r: Option<Command>)
        ensures
            match r {
                Some(c) => parse_spec(tokenize(line@)) == Some(c@),
                None => parse_spec(tokenize(line@)) is None,
            },
    {
        let mut toks = split_tokens(line);
        proof {
            if toks@.len() > 0 {
                assert(toks@[0]@ == tokenize(line@)[0]);
            }
            if toks@.len() > 1 {
                assert(toks@[1]@ == tokenize(line@)[1]);
            }
            if toks@.len() > 2 {
                assert(toks@[2]@ == tokenize(line@)[2]);
            }
        }
        if toks.len() == 0 {
            return None;
        }
        if head_is_dump(&toks[0]) {
            Some(Command::Dump)
        } else if head_is_exit(&toks[0]) {
            Some(Command::Exit)
        } else if head_is_compact(&toks[0]) {
            Some(Command::Compact)
        } else if toks.len() >= 2 && head_is_select(&toks[0]) {
            let key = toks.remove(1);
            Some(Command::Select { key })
        } else if toks.len() >= 3 && head_is_insert(&toks[0]) {
            let val = toks.remove(2);
            let key = toks.remove(1);
            Some(Command::Insert { key, val })
        } else if toks.len() >= 2 && head_is_delete(&toks[0]) {
            let key = toks.remove(1);
            Some(Command::Delete { key })
        } else {
            None
        }
    }

    /// The key a data command addresses, if it has one.
    pub fn key(&self) -> (r: Option<&Vec<u8>>)
        ensures
            match r {
                Some(k) => match self@ {
                    CommandModel::Select { key } => k@ == key,
                    CommandModel::Insert { key, val } => k@ == key,
                    CommandModel::Delete { key } => k@ == key,
                    _ => false,
                },
                None => self@ is Dump || self@ is Compact || self@ is Exit,
            },
    {
        match self {
            Command::Select { key } => Some(key),
            Command::Insert { key, val: _ } => Some(key),
            Command::Delete { key } => Some(key),
            _ => None,
        }
    }
}

} // verus!
