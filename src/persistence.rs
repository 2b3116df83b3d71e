use crate::data_types::{Command, CommandV, Value, ValueV};
use crate::resp::{digits_of, encode, frames_of, lemma_frames_push, serialize_resp, Frame, RespValue};
use vstd::prelude::*;
use vstd::slice::slice_to_vec;
use vstd::utf8::encode_utf8;

verus! {

pub open spec fn bulk_of(s: Seq<char>) -> Frame {
    Frame::Bulk(encode_utf8(s))
}

/// The request that replays a command, as the append-only log records it. A `SetKey`
/// of a value other than a string leaves the value out; a lifetime is written in
/// milliseconds after `PX`.
pub open spec fn command_frame(c: CommandV) -> Frame {
    match c {
        CommandV::SetKey(k, v, exp) => {
            let head = seq![Frame::Bulk(seq![83u8, 69u8, 84u8]), bulk_of(k)];
            let with_value = match v {
                ValueV::Str(s) => head.push(bulk_of(s)),
                _ => head,
            };
            Frame::Array(
                match exp {
                    Some(ms) => with_value.push(Frame::Bulk(seq![80u8, 88u8])).push(
                        Frame::Bulk(digits_of(ms as nat)),
                    ),
                    None => with_value,
                },
            )
        },
        CommandV::HSet(k, f, v) => Frame::Array(
            seq![Frame::Bulk(seq![72u8, 83u8, 69u8, 84u8]), bulk_of(k), bulk_of(f), bulk_of(v)],
        ),
        CommandV::Delete(k) => Frame::Array(
            seq![Frame::Bulk(seq![68u8, 69u8, 76u8]), bulk_of(k)],
        ),
    }
}

fn bulk_string(s: String) -> (r: RespValue)
    ensures
        r@ == bulk_of(s@),
{
    RespValue::BulkString(slice_to_vec(s.as_str().as_bytes()))
}

fn push_item(items: &mut Vec<RespValue>, v: RespValue)
    ensures
        final(items)@.len() == old(items)@.len() + 1,
        frames_of(final(items)@) == frames_of(old(items)@).push(v@),
{
    proof {
        lemma_frames_push(items@, v);
    }
    items.push(v);
}

/// The request that replays `cmd`.
pub fn command_to_resp(cmd: Command) -> (r: RespValue)
    ensures
        r@ == command_frame(cmd@),
{
    let ghost c = cmd@;
    let mut args: Vec<RespValue> = Vec::new();
    assert(frames_of(args@) =~= Seq::<Frame>::empty());
    match cmd {
        Command::SetKey { key, value, expiry } => {
            push_item(&mut args, RespValue::BulkString(vec![83u8, 69u8, 84u8]));
            push_item(&mut args, bulk_string(key));
            match value {
                Value::String(s) => push_item(&mut args, bulk_string(s)),
                _ => {},
            }
            match expiry {
                Some(ms) => {
                    push_item(&mut args, RespValue::BulkString(vec![80u8, 88u8]));
                    push_item(&mut args, RespValue::BulkString(crate::resp::decimal_bytes(ms)));
                },
                None => {},
            }
            assert(frames_of(args@) =~= command_frame(c)->Array_0);
        },
        Command::HSet { key, field, value } => {
            push_item(&mut args, RespValue::BulkString(vec![72u8, 83u8, 69u8, 84u8]));
            push_item(&mut args, bulk_string(key));
            push_item(&mut args, bulk_string(field));
            push_item(&mut args, bulk_string(value));
            assert(frames_of(args@) =~= command_frame(c)->Array_0);
        },
        Command::Delete { key } => {
            push_item(&mut args, RespValue::BulkString(vec![68u8, 69u8, 76u8]));
            push_item(&mut args, bulk_string(key));
            assert(frames_of(args@) =~= command_frame(c)->Array_0);
        },
    }
    let r = RespValue::Array(args);
    assert(r@ =~= command_frame(c));
    r
}

/// The bytes that the append-only log holds for `cmd`.
pub fn log_record(cmd: Command) -> (r: Vec<u8>)
    ensures
        r@ == encode(command_frame(cmd@)),
{
    serialize_resp(command_to_resp(cmd))
}

} // verus!
