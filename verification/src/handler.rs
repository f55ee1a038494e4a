//! The connection handler's computing core: one decoded request buffer in,
//! one store action and one encoded reply out.
//!
//! The surrounding I/O — reading the socket, writing the reply — stays with
//! the embedding program; this module owns everything in between: decode,
//! dispatch, store access, encode. Replies carrying stored value bytes use
//! the length-prefixed bulk form, so arbitrary binary values survive the
//! trip; malformed input earns an error reply, never a fault.

use vstd::prelude::*;
use vstd::slice::slice_to_vec;
use crate::resp::{RespValue, RespScalar, RespModel, ScalarModel, RedisProtocolParser, encode, wire, wire_scalar, spec_parse, lemma_parse_wire, value_ok};
use crate::command::{Command, CommandModel, CommandError, spec_command, upper_seq, set_verb, get_verb, del_verb, all_bulk, bulk_bytes};
use crate::store::{RedisLess, EntryModel, spec_set, spec_get, spec_del, spec_del_count};

verus! {

/// The bytes of `"OK"`.
pub open spec fn msg_ok() -> Seq<u8> {
    seq![79u8, 75u8]
}

fn msg_ok_vec() -> (r: Vec<u8>)
    ensures
        r@ == msg_ok(),
{
    let out: Vec<u8> = vec![79u8, 75u8];
    proof {
        assert(out@ =~= msg_ok());
    }
    out
}

/// The bytes of `"ERR key does not exist"`.
pub open spec fn msg_missing() -> Seq<u8> {
    seq![69u8, 82u8, 82u8, 32u8, 107u8, 101u8, 121u8, 32u8, 100u8, 111u8, 101u8, 115u8, 32u8, 110u8, 111u8, 116u8, 32u8, 101u8, 120u8, 105u8, 115u8, 116u8]
}

fn msg_missing_vec() -> (r: Vec<u8>)
    ensures
        r@ == msg_missing(),
{
    let out: Vec<u8> = vec![69u8, 82u8, 82u8, 32u8, 107u8, 101u8, 121u8, 32u8, 100u8, 111u8, 101u8, 115u8, 32u8, 110u8, 111u8, 116u8, 32u8, 101u8, 120u8, 105u8, 115u8, 116u8];
    proof {
        assert(out@ =~= msg_missing());
    }
    out
}

/// The bytes of `"ERR unsupported command "`.
pub open spec fn msg_unsupported_prefix() -> Seq<u8> {
    seq![69u8, 82u8, 82u8, 32u8, 117u8, 110u8, 115u8, 117u8, 112u8, 112u8, 111u8, 114u8, 116u8, 101u8, 100u8, 32u8, 99u8, 111u8, 109u8, 109u8, 97u8, 110u8, 100u8, 32u8]
}

fn msg_unsupported_prefix_vec() -> (r: Vec<u8>)
    ensures
        r@ == msg_unsupported_prefix(),
{
    let out: Vec<u8> = vec![69u8, 82u8, 82u8, 32u8, 117u8, 110u8, 115u8, 117u8, 112u8, 112u8, 111u8, 114u8, 116u8, 101u8, 100u8, 32u8, 99u8, 111u8, 109u8, 109u8, 97u8, 110u8, 100u8, 32u8];
    proof {
        assert(out@ =~= msg_unsupported_prefix());
    }
    out
}

/// The bytes of `"ERR malformed request"`.
pub open spec fn msg_malformed() -> Seq<u8> {
    seq![69u8, 82u8, 82u8, 32u8, 109u8, 97u8, 108u8, 102u8, 111u8, 114u8, 109u8, 101u8, 100u8, 32u8, 114u8, 101u8, 113u8, 117u8, 101u8, 115u8, 116u8]
}

fn msg_malformed_vec() -> (r: Vec<u8>)
    ensures
        r@ == msg_malformed(),
{
    let out: Vec<u8> = vec![69u8, 82u8, 82u8, 32u8, 109u8, 97u8, 108u8, 102u8, 111u8, 114u8, 109u8, 101u8, 100u8, 32u8, 114u8, 101u8, 113u8, 117u8, 101u8, 115u8, 116u8];
    proof {
        assert(out@ =~= msg_malformed());
    }
    out
}

/// The bytes of `"ERR expected an array"`.
pub open spec fn msg_not_array() -> Seq<u8> {
    seq![69u8, 82u8, 82u8, 32u8, 101u8, 120u8, 112u8, 101u8, 99u8, 116u8, 101u8, 100u8, 32u8, 97u8, 110u8, 32u8, 97u8, 114u8, 114u8, 97u8, 121u8]
}

fn msg_not_array_vec() -> (r: Vec<u8>)
    ensures
        r@ == msg_not_array(),
{
    let out: Vec<u8> = vec![69u8, 82u8, 82u8, 32u8, 101u8, 120u8, 112u8, 101u8, 99u8, 116u8, 101u8, 100u8, 32u8, 97u8, 110u8, 32u8, 97u8, 114u8, 114u8, 97u8, 121u8];
    proof {
        assert(out@ =~= msg_not_array());
    }
    out
}

/// The bytes of `"ERR empty request"`.
pub open spec fn msg_empty_request() -> Seq<u8> {
    seq![69u8, 82u8, 82u8, 32u8, 101u8, 109u8, 112u8, 116u8, 121u8, 32u8, 114u8, 101u8, 113u8, 117u8, 101u8, 115u8, 116u8]
}

fn msg_empty_request_vec() -> (r: Vec<u8>)
    ensures
        r@ == msg_empty_request(),
{
    let out: Vec<u8> = vec![69u8, 82u8, 82u8, 32u8, 101u8, 109u8, 112u8, 116u8, 121u8, 32u8, 114u8, 101u8, 113u8, 117u8, 101u8, 115u8, 116u8];
    proof {
        assert(out@ =~= msg_empty_request());
    }
    out
}

/// The bytes of `"ERR expected an array of bulk strings"`.
pub open spec fn msg_not_bulk() -> Seq<u8> {
    seq![69u8, 82u8, 82u8, 32u8, 101u8, 120u8, 112u8, 101u8, 99u8, 116u8, 101u8, 100u8, 32u8, 97u8, 110u8, 32u8, 97u8, 114u8, 114u8, 97u8, 121u8, 32u8, 111u8, 102u8, 32u8, 98u8, 117u8, 108u8, 107u8, 32u8, 115u8, 116u8, 114u8, 105u8, 110u8, 103u8, 115u8]
}

fn msg_not_bulk_vec() -> (r: Vec<u8>)
    ensures
        r@ == msg_not_bulk(),
{
    let out: Vec<u8> = vec![69u8, 82u8, 82u8, 32u8, 101u8, 120u8, 112u8, 101u8, 99u8, 116u8, 101u8, 100u8, 32u8, 97u8, 110u8, 32u8, 97u8, 114u8, 114u8, 97u8, 121u8, 32u8, 111u8, 102u8, 32u8, 98u8, 117u8, 108u8, 107u8, 32u8, 115u8, 116u8, 114u8, 105u8, 110u8, 103u8, 115u8];
    proof {
        assert(out@ =~= msg_not_bulk());
    }
    out
}

/// The bytes of `"ERR wrong number of arguments"`.
pub open spec fn msg_wrong_arity() -> Seq<u8> {
    seq![69u8, 82u8, 82u8, 32u8, 119u8, 114u8, 111u8, 110u8, 103u8, 32u8, 110u8, 117u8, 109u8, 98u8, 101u8, 114u8, 32u8, 111u8, 102u8, 32u8, 97u8, 114u8, 103u8, 117u8, 109u8, 101u8, 110u8, 116u8, 115u8]
}

fn msg_wrong_arity_vec() -> (r: Vec<u8>)
    ensures
        r@ == msg_wrong_arity(),
{
    let out: Vec<u8> = vec![69u8, 82u8, 82u8, 32u8, 119u8, 114u8, 111u8, 110u8, 103u8, 32u8, 110u8, 117u8, 109u8, 98u8, 101u8, 114u8, 32u8, 111u8, 102u8, 32u8, 97u8, 114u8, 103u8, 117u8, 109u8, 101u8, 110u8, 116u8, 115u8];
    proof {
        assert(out@ =~= msg_wrong_arity());
    }
    out
}

/// Which message a malformed command earns.
pub open spec fn msg_command_error(e: CommandError) -> Seq<u8> {
    match e {
        CommandError::EmptyRequest => msg_empty_request(),
        CommandError::NotBulkStrings => msg_not_bulk(),
        CommandError::WrongArity => msg_wrong_arity(),
    }
}

/// What one validated command does to the store, and the reply it earns:
/// `SET` stores and answers `OK`; `GET` answers the value as a bulk string
/// or an error when the key is absent; `DEL` removes and answers the count.
pub open spec fn spec_reply_for_command(m: Map<Seq<u8>, EntryModel>, c: CommandModel) -> (
    Map<Seq<u8>, EntryModel>,
    Seq<u8>,
) {
    match c {
        CommandModel::SetKv(k, v) => (
            spec_set(m, k, v),
            wire_scalar(ScalarModel::SimpleString(msg_ok())),
        ),
        CommandModel::Get(k) => (
            m,
            match spec_get(m, k) {
                Some(v) => wire_scalar(ScalarModel::BulkString(v)),
                None => wire_scalar(ScalarModel::Error(msg_missing())),
            },
        ),
        CommandModel::Del(k) => (
            spec_del(m, k),
            wire_scalar(ScalarModel::Integer(spec_del_count(m, k))),
        ),
        CommandModel::NotSupported(verb) => (
            m,
            wire_scalar(ScalarModel::Error(msg_unsupported_prefix() + verb)),
        ),
        CommandModel::Error(e) => (m, wire_scalar(ScalarModel::Error(msg_command_error(e)))),
    }
}

/// What one request buffer does to the store and which reply it earns:
/// a decoded array goes through the command layer; any other decoded value
/// or a decode failure earns an error reply and leaves the store alone.
pub open spec fn spec_respond(m: Map<Seq<u8>, EntryModel>, input: Seq<u8>) -> (
    Map<Seq<u8>, EntryModel>,
    Seq<u8>,
) {
    match spec_parse(input) {
        Result::Ok(p) => match p.0 {
            RespModel::Array(items) => spec_reply_for_command(m, spec_command(items)),
            RespModel::Scalar(_) => (m, wire_scalar(ScalarModel::Error(msg_not_array()))),
        },
        Result::Err(_) => (m, wire_scalar(ScalarModel::Error(msg_malformed()))),
    }
}

fn error_reply(msg: Vec<u8>) -> (r: Vec<u8>)
    ensures
        r@ == wire_scalar(ScalarModel::Error(msg@)),
{
    encode(&RespValue::Scalar(RespScalar::Error(msg)))
}

/// Serve one request: decode `buf`, apply the command to the store, and
/// return exactly one encoded reply. The store changes and the reply are
/// precisely what `spec_respond` says for the request bytes.
pub fn respond(store: &mut RedisLess, buf: &[u8]) -> (r: Vec<u8>)
    requires
        old(store).wf(),
    ensures
        final(store).wf(),
        final(store)@ == spec_respond(old(store)@, buf@).0,
        r@ == spec_respond(old(store)@, buf@).1,
{
    match RedisProtocolParser::parse(buf) {
        Result::Ok((value, _used)) => match value {
            RespValue::Array(items) => match Command::parse(items) {
                Command::SetKv(k, v) => {
                    store.set(k.as_slice(), v.as_slice());
                    encode(&RespValue::Scalar(RespScalar::SimpleString(msg_ok_vec())))
                },
                Command::Get(k) => match store.get(k.as_slice()) {
                    Some(v) => {
                        let owned = slice_to_vec(v);
                        encode(&RespValue::Scalar(RespScalar::BulkString(owned)))
                    },
                    None => error_reply(msg_missing_vec()),
                },
                Command::Del(k) => {
                    let count = store.del(k.as_slice());
                    encode(&RespValue::Scalar(RespScalar::Integer(count as i64)))
                },
                Command::NotSupported(verb) => {
                    let mut msg = msg_unsupported_prefix_vec();
                    msg.extend_from_slice(verb.as_slice());
                    error_reply(msg)
                },
                Command::Error(e) => match e {
                    CommandError::EmptyRequest => error_reply(msg_empty_request_vec()),
                    CommandError::NotBulkStrings => error_reply(msg_not_bulk_vec()),
                    CommandError::WrongArity => error_reply(msg_wrong_arity_vec()),
                },
            },
            RespValue::Scalar(_) => error_reply(msg_not_array_vec()),
        },
        Result::Err(_) => error_reply(msg_malformed_vec()),
    }
}

/// After a `SET`, the reply to `GET` of the same key is the stored bytes in
/// the length-prefixed bulk form, and decoding that reply gives the bytes
/// back exactly — whatever the bytes, text or not.
pub proof fn lemma_get_echo_round_trip(m: Map<Seq<u8>, EntryModel>, k: Seq<u8>, v: Seq<u8>)
    ensures
        spec_reply_for_command(spec_set(m, k, v), CommandModel::Get(k)).1 == wire_scalar(
            ScalarModel::BulkString(v),
        ),
        crate::resp::spec_parse_scalar(
            spec_reply_for_command(spec_set(m, k, v), CommandModel::Get(k)).1,
        ) == Result::Ok::<(ScalarModel, int), crate::resp::ParseError>(
            (ScalarModel::BulkString(v), wire_scalar(ScalarModel::BulkString(v)).len() as int),
        ),
{
    crate::resp::lemma_parse_wire_scalar(ScalarModel::BulkString(v), Seq::empty());
    assert(wire_scalar(ScalarModel::BulkString(v)) + Seq::<u8>::empty() =~= wire_scalar(
        ScalarModel::BulkString(v),
    ));
}


proof fn lemma_request_decodes(items: Seq<ScalarModel>)
    requires
        forall|i: int| 0 <= i < items.len() ==> items[i] is BulkString,
    ensures
        spec_parse(wire(RespModel::Array(items))) == Result::Ok::<(RespModel, int), crate::resp::ParseError>(
            (RespModel::Array(items), wire(RespModel::Array(items)).len() as int),
        ),
        all_bulk(items),
{
    assert(value_ok(RespModel::Array(items)));
    lemma_parse_wire(RespModel::Array(items), Seq::empty());
    assert(wire(RespModel::Array(items)) + Seq::<u8>::empty() =~= wire(RespModel::Array(items)));
}

proof fn lemma_verbs_fixed_by_upper()
    ensures
        upper_seq(set_verb()) == set_verb(),
        upper_seq(get_verb()) == get_verb(),
        upper_seq(del_verb()) == del_verb(),
        get_verb() != set_verb(),
        del_verb() != set_verb(),
        del_verb() != get_verb(),
{
    assert(upper_seq(set_verb()) =~= set_verb());
    assert(upper_seq(get_verb()) =~= get_verb());
    assert(upper_seq(del_verb()) =~= del_verb());
    assert(get_verb()[0] != set_verb()[0]);
    assert(del_verb()[0] != set_verb()[0]);
    assert(del_verb()[0] != get_verb()[0]);
}

/// A `SET key value` request over the wire stores the value under the key
/// and earns exactly the `+OK` reply.
pub proof fn lemma_wire_set_request(m: Map<Seq<u8>, EntryModel>, k: Seq<u8>, v: Seq<u8>)
    ensures
        spec_respond(
            m,
            wire(
                RespModel::Array(
                    seq![
                        ScalarModel::BulkString(set_verb()),
                        ScalarModel::BulkString(k),
                        ScalarModel::BulkString(v),
                    ],
                ),
            ),
        ) == (spec_set(m, k, v), wire_scalar(ScalarModel::SimpleString(msg_ok()))),
{
    let items = seq![
        ScalarModel::BulkString(set_verb()),
        ScalarModel::BulkString(k),
        ScalarModel::BulkString(v),
    ];
    lemma_request_decodes(items);
    lemma_verbs_fixed_by_upper();
    assert(bulk_bytes(items[0]) == set_verb());
    assert(spec_command(items) == CommandModel::SetKv(k, v));
}

/// A `GET key` request over the wire leaves the store alone and earns the
/// stored bytes as a bulk string, or the missing-key error when the key
/// holds nothing.
pub proof fn lemma_wire_get_request(m: Map<Seq<u8>, EntryModel>, k: Seq<u8>)
    ensures
        spec_respond(
            m,
            wire(
                RespModel::Array(
                    seq![ScalarModel::BulkString(get_verb()), ScalarModel::BulkString(k)],
                ),
            ),
        ) == (
            m,
            match spec_get(m, k) {
                Some(val) => wire_scalar(ScalarModel::BulkString(val)),
                None => wire_scalar(ScalarModel::Error(msg_missing())),
            },
        ),
{
    let items = seq![ScalarModel::BulkString(get_verb()), ScalarModel::BulkString(k)];
    lemma_request_decodes(items);
    lemma_verbs_fixed_by_upper();
    assert(bulk_bytes(items[0]) == get_verb());
    assert(spec_command(items) == CommandModel::Get(k));
}

/// A `DEL key` request over the wire removes the key when it is present
/// and earns the count of removed entries as an integer reply — `:1` the
/// first time, `:0` once the key is gone.
pub proof fn lemma_wire_del_request(m: Map<Seq<u8>, EntryModel>, k: Seq<u8>)
    ensures
        spec_respond(
            m,
            wire(
                RespModel::Array(
                    seq![ScalarModel::BulkString(del_verb()), ScalarModel::BulkString(k)],
                ),
            ),
        ) == (spec_del(m, k), wire_scalar(ScalarModel::Integer(spec_del_count(m, k)))),
{
    let items = seq![ScalarModel::BulkString(del_verb()), ScalarModel::BulkString(k)];
    lemma_request_decodes(items);
    lemma_verbs_fixed_by_upper();
    assert(bulk_bytes(items[0]) == del_verb());
    assert(spec_command(items) == CommandModel::Del(k));
}

} // verus!
