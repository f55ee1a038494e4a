//! The command layer: turns a decoded protocol array into a validated
//! store command.
//!
//! Dispatch goes by the first array element, matched case-insensitively
//! against the implemented verbs `SET`, `GET` and `DEL`. A request whose
//! elements are not all bulk strings, or whose argument count is wrong for
//! its verb, is a `CommandError`; a well-formed verb that is not
//! implemented is `NotSupported`, carrying the verb bytes.

use vstd::prelude::*;

verus! {

/// Why a protocol array is not a valid command.
#[derive(Clone, Copy, PartialEq, Eq, Debug)]
pub enum CommandError {
    /// The array holds no elements at all.
    EmptyRequest,
    /// Some element of the array is not a bulk string.
    NotBulkStrings,
    /// The verb is known but the number of arguments is wrong for it.
    WrongArity,
}

/// A validated command, or the reason the request is no command.
pub enum Command {
    SetKv(Vec<u8>, Vec<u8>),
    Get(Vec<u8>),
    Del(Vec<u8>),
    NotSupported(Vec<u8>),
    Error(CommandError),
}

/// The mathematical shape of a command.
pub enum CommandModel {
    SetKv(Seq<u8>, Seq<u8>),
    Get(Seq<u8>),
    Del(Seq<u8>),
    NotSupported(Seq<u8>),
    Error(CommandError),
}

impl View for Command {
    type V = CommandModel;

    open spec fn view(&self) -> CommandModel {
        match self {
            Command::SetKv(k, v) => CommandModel::SetKv(k@, v@),
            Command::Get(k) => CommandModel::Get(k@),
            Command::Del(k) => CommandModel::Del(k@),
            Command::NotSupported(verb) => CommandModel::NotSupported(verb@),
            Command::Error(e) => CommandModel::Error(*e),
        }
    }
}

/// ASCII upper case of one byte; other bytes are left alone.
pub open spec fn upper(b: u8) -> u8 {
    if 97 <= b <= 122 {
        (b - 32) as u8
    } else {
        b
    }
}

pub open spec fn upper_seq(s: Seq<u8>) -> Seq<u8> {
    s.map_values(|b: u8| upper(b))
}

pub open spec fn set_verb() -> Seq<u8> {
    seq![83u8, 69u8, 84u8]
}

pub open spec fn get_verb() -> Seq<u8> {
    seq![71u8, 69u8, 84u8]
}

pub open spec fn del_verb() -> Seq<u8> {
    seq![68u8, 69u8, 76u8]
}

pub open spec fn is_bulk(v: crate::resp::ScalarModel) -> bool {
    v is BulkString
}

pub open spec fn bulk_bytes(v: crate::resp::ScalarModel) -> Seq<u8> {
    match v {
        crate::resp::ScalarModel::BulkString(b) => b,
        _ => Seq::empty(),
    }
}

pub open spec fn all_bulk(items: Seq<crate::resp::ScalarModel>) -> bool {
    forall|i: int| 0 <= i < items.len() ==> is_bulk(#[trigger] items[i])
}

/// What the command layer makes of a decoded array.
pub open spec fn spec_command(items: Seq<crate::resp::ScalarModel>) -> CommandModel {
    if items.len() == 0 {
        CommandModel::Error(CommandError::EmptyRequest)
    } else if !all_bulk(items) {
        CommandModel::Error(CommandError::NotBulkStrings)
    } else {
        let verb = bulk_bytes(items[0]);
        let u = upper_seq(verb);
        if u == set_verb() {
            if items.len() == 3 {
                CommandModel::SetKv(bulk_bytes(items[1]), bulk_bytes(items[2]))
            } else {
                CommandModel::Error(CommandError::WrongArity)
            }
        } else if u == get_verb() {
            if items.len() == 2 {
                CommandModel::Get(bulk_bytes(items[1]))
            } else {
                CommandModel::Error(CommandError::WrongArity)
            }
        } else if u == del_verb() {
            if items.len() == 2 {
                CommandModel::Del(bulk_bytes(items[1]))
            } else {
                CommandModel::Error(CommandError::WrongArity)
            }
        } else {
            CommandModel::NotSupported(verb)
        }
    }
}

fn upper_byte(b: u8) -> (r: u8)
    ensures
        r == upper(b),
{
    if 97 <= b && b <= 122 {
        b - 32
    } else {
        b
    }
}

fn upper_vec(s: &[u8]) -> (r: Vec<u8>)
    ensures
        r@ == upper_seq(s@),
{
    let n = s.len();
    let mut out: Vec<u8> = Vec::new();
    let mut i: usize = 0;
    while i < n
        invariant
            i <= n,
            n == s@.len(),
            out@.len() == i,
            forall|j: int| 0 <= j < i ==> out@[j] == upper(s@[j]),
        decreases n - i,
    {
        out.push(upper_byte(s[i]));
        i = i + 1;
    }
    proof {
        assert(out@ =~= upper_seq(s@));
    }
    out
}

fn is_verb3(u: &[u8], a: u8, b: u8, c: u8) -> (r: bool)
    ensures
        r == (u@ == seq![a, b, c]),
{
    if u.len() == 3 && u[0] == a && u[1] == b && u[2] == c {
        proof {
            assert(u@ =~= seq![a, b, c]);
        }
        true
    } else {
        proof {
            if u@ == seq![a, b, c] {
                assert(u@.len() == 3);
                assert(u@[0] == a && u@[1] == b && u@[2] == c);
            }
        }
        false
    }
}

fn take_bulk(items: &mut Vec<crate::resp::RespScalar>) -> (r: Vec<u8>)
    requires
        old(items)@.len() > 0,
        is_bulk(old(items)@.map_values(|e: crate::resp::RespScalar| e@)[0]),
    ensures
        final(items)@.map_values(|e: crate::resp::RespScalar| e@) == old(items)@.map_values(
            |e: crate::resp::RespScalar| e@,
        ).drop_first(),
        r@ == bulk_bytes(old(items)@.map_values(|e: crate::resp::RespScalar| e@)[0]),
{
    let first = items.remove(0);
    proof {
        assert(items@.map_values(|e: crate::resp::RespScalar| e@) =~= old(items)@.map_values(
            |e: crate::resp::RespScalar| e@,
        ).drop_first());
    }
    match first {
        crate::resp::RespScalar::BulkString(b) => b,
        _ => Vec::new(),
    }
}

impl Command {
    /// Validate a decoded array of protocol values as a command.
    pub fn parse(items: Vec<crate::resp::RespScalar>) -> (r: Command)
        ensures
            r@ == spec_command(items@.map_values(|e: crate::resp::RespScalar| e@)),
    {
        let ghost models = items@.map_values(|e: crate::resp::RespScalar| e@);
        let n = items.len();
        if n == 0 {
            return Command::Error(CommandError::EmptyRequest);
        }
        let mut i: usize = 0;
        while i < n
            invariant
                i <= n,
                n == items@.len(),
                models == items@.map_values(|e: crate::resp::RespScalar| e@),
                forall|j: int| 0 <= j < i ==> is_bulk(#[trigger] models[j]),
            decreases n - i,
        {
            let bulk = match &items[i] {
                crate::resp::RespScalar::BulkString(_) => true,
                _ => false,
            };
            if !bulk {
                proof {
                    assert(!is_bulk(models[i as int]));
                }
                return Command::Error(CommandError::NotBulkStrings);
            }
            i = i + 1;
        }
        let mut items = items;
        let verb = take_bulk(&mut items);
        let ghost rest1 = models.drop_first();
        proof {
            assert forall|j: int| 0 <= j < rest1.len() implies is_bulk(#[trigger] rest1[j]) by {
                assert(rest1[j] == models[j + 1]);
            }
        }
        let u = upper_vec(verb.as_slice());
        let two = items.len() == 1;
        let three = items.len() == 2;
        if is_verb3(u.as_slice(), 83, 69, 84) {
            if three {
                let k = take_bulk(&mut items);
                let ghost rest2 = rest1.drop_first();
                proof {
                    assert(items@.map_values(|e: crate::resp::RespScalar| e@) == rest2);
                    assert(items@.len() == rest2.len());
                    assert(rest2[0] == rest1[1]);
                    assert(rest1[0] == models[1]);
                    assert(rest1[1] == models[2]);
                }
                let v = take_bulk(&mut items);
                Command::SetKv(k, v)
            } else {
                Command::Error(CommandError::WrongArity)
            }
        } else if is_verb3(u.as_slice(), 71, 69, 84) {
            if two {
                proof {
                    assert(rest1[0] == models[1]);
                }
                let k = take_bulk(&mut items);
                Command::Get(k)
            } else {
                Command::Error(CommandError::WrongArity)
            }
        } else if is_verb3(u.as_slice(), 68, 69, 76) {
            if two {
                proof {
                    assert(rest1[0] == models[1]);
                }
                let k = take_bulk(&mut items);
                Command::Del(k)
            } else {
                Command::Error(CommandError::WrongArity)
            }
        } else {
            Command::NotSupported(verb)
        }
    }
}

} // verus!
