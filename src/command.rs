use crate::data_types::{events_of, Command, CommandV, Value, ValueV};
use crate::resp::{
    all_digits, digits_in, digits_value, frames_of, lemma_frames_len, lemma_frames_push, Frame,
    RespValue,
};
use crate::store::Store;
use crate::table::same_text;
use vstd::prelude::*;
use vstd::slice::slice_to_vec;
use vstd::utf8::{decode_utf8, encode_utf8, valid_utf8};

verus! {

// ---------------------------------------------------------------------------
// Arguments
// ---------------------------------------------------------------------------

/// The text an argument frame carries: a simple string, or a bulk string of valid UTF-8.
pub open spec fn text_arg(f: Frame) -> Option<Seq<char>> {
    match f {
        Frame::Simple(s) => Some(s),
        Frame::Bulk(b) => if valid_utf8(b) {
            Some(decode_utf8(b))
        } else {
            None
        },
        _ => None,
    }
}

pub uninterp spec fn upper_of(s: Seq<char>) -> Seq<char>;

/// The unsigned integer a text holds: an optional '+', then digits, at most 2^64 - 1.
pub open spec fn uint_of(b: Seq<u8>) -> Option<u64> {
    let digits = if b.len() > 0 && b[0] == 43 {
        b.drop_first()
    } else {
        b
    };
    if digits.len() > 0 && all_digits(digits) && digits_value(digits) <= u64::MAX {
        Some(digits_value(digits) as u64)
    } else {
        None
    }
}

/// Relies on String::from_utf8: it succeeds exactly on valid UTF-8, which it decodes.
#[verifier::external_body]
fn string_from_utf8(b: &[u8]) -> (r: Option<String>)
    ensures
        r is Some <==> valid_utf8(b@),
        r matches Some(s) ==> s@ == decode_utf8(b@),
{
    String::from_utf8(b.to_vec()).ok()
}

/// Relies on str::to_uppercase: the upper-case text depends on the characters alone.
#[verifier::external_body]
fn to_upper(s: &str) -> (r: String)
    ensures
        r@ == upper_of(s@),
{
    s.to_uppercase()
}

/// The text of an argument frame.
pub fn arg_text(v: &RespValue) -> (r: Option<String>)
    ensures
        match r {
            Some(s) => text_arg(v@) == Some(s@),
            None => text_arg(v@) is None,
        },
{
    match v {
        RespValue::SimpleString(s) => Some(s.clone()),
        RespValue::BulkString(b) => string_from_utf8(b.as_slice()),
        _ => None,
    }
}

impl RespValue {
    /// The text this frame carries, where it is a simple string or a bulk string of valid
    /// UTF-8.
    pub fn to_string(self) -> (r: Option<String>)
        ensures
            match r {
                Some(s) => text_arg(self@) == Some(s@),
                None => text_arg(self@) is None,
            },
    {
        arg_text(&self)
    }
}

/// The unsigned integer written in `s`.
pub fn parse_u64(s: &str) -> (r: Option<u64>)
    ensures
        r == uint_of(encode_utf8(s@)),
{
    let b = s.as_bytes();
    let start: usize = if b.len() > 0 && b[0] == 43 {
        1
    } else {
        0
    };
    proof {
        if start == 1 {
            assert(b@.drop_first() =~= b@.subrange(1, b@.len() as int));
        } else {
            assert(b@ =~= b@.subrange(0, b@.len() as int));
        }
    }
    if start == b.len() {
        return None;
    }
    digits_in(b, start, b.len(), u64::MAX)
}

// ---------------------------------------------------------------------------
// Replies
// ---------------------------------------------------------------------------

/// What a command gives: the reply, whether the session is then authenticated, and the
/// commands to publish.
pub struct Outcome {
    pub reply: Frame,
    pub authed: bool,
    pub events: Seq<CommandV>,
}

pub open spec fn error(msg: &str) -> Frame {
    Frame::Error(msg@)
}

pub open spec fn no_events() -> Seq<CommandV> {
    Seq::empty()
}

pub open spec fn bulk_text(s: Seq<char>) -> Frame {
    Frame::Bulk(encode_utf8(s))
}

pub open spec fn auth_outcome(rest: Seq<Frame>, password: Option<Seq<char>>, authed: bool) -> Outcome {
    match password {
        Some(p) => if rest.len() == 1 && text_arg(rest[0]) == Some(p) {
            Outcome { reply: Frame::Simple("OK"@), authed: true, events: no_events() }
        } else {
            Outcome { reply: error("ERR invalid password"), authed, events: no_events() }
        },
        None => Outcome { reply: error("ERR AUTH is not needed"), authed, events: no_events() },
    }
}

pub open spec fn ping_reply(rest: Seq<Frame>) -> Frame {
    if rest.len() == 0 {
        Frame::Simple("PONG"@)
    } else {
        match text_arg(rest[0]) {
            Some(t) => bulk_text(t),
            None => Frame::Simple("PONG"@),
        }
    }
}

pub open spec fn get_reply(rest: Seq<Frame>, data: Map<Seq<char>, ValueV>) -> Frame {
    if rest.len() != 1 {
        error("ERR wrong number of arguments for 'GET'")
    } else {
        match text_arg(rest[0]) {
            None => error("ERR invalid key"),
            Some(k) => if !data.contains_key(k) {
                Frame::Null
            } else {
                match data[k] {
                    ValueV::Str(s) => bulk_text(s),
                    _ => error("WRONGTYPE Operation against a key holding the wrong kind of value"),
                }
            },
        }
    }
}

/// The lifetime in milliseconds that an upper-case modifier and its amount give: `PX`
/// counts milliseconds, `EX` seconds (held at the largest lifetime).
pub open spec fn expiry_rule(option: Seq<char>, amount: Seq<char>) -> Option<u64> {
    if option == "PX"@ {
        uint_of(encode_utf8(amount))
    } else if option == "EX"@ {
        match uint_of(encode_utf8(amount)) {
            Some(n) => Some(
                if n * 1000 > u64::MAX {
                    u64::MAX
                } else {
                    (n * 1000) as u64
                },
            ),
            None => None,
        }
    } else {
        None
    }
}

/// The lifetime, in milliseconds, that the tokens after key and value of a SET give.
pub open spec fn expiry_of(opts: Seq<Frame>) -> Option<u64> {
    if opts.len() < 2 {
        None
    } else {
        match (text_arg(opts[0]), text_arg(opts[1])) {
            (Some(o), Some(x)) => expiry_rule(upper_of(o), x),
            _ => None,
        }
    }
}

pub open spec fn set_outcome(rest: Seq<Frame>, authed: bool) -> Outcome {
    if rest.len() < 2 {
        Outcome {
            reply: error("ERR wrong number of arguments for 'SET'"),
            authed,
            events: no_events(),
        }
    } else {
        match (text_arg(rest[0]), text_arg(rest[1])) {
            (None, _) => Outcome { reply: error("ERR invalid key"), authed, events: no_events() },
            (Some(_), None) => Outcome {
                reply: error("ERR invalid value"),
                authed,
                events: no_events(),
            },
            (Some(k), Some(v)) => Outcome {
                reply: Frame::Simple("OK"@),
                authed,
                events: seq![CommandV::SetKey(k, ValueV::Str(v), expiry_of(rest.skip(2)))],
            },
        }
    }
}

pub open spec fn keys_reply(rest: Seq<Frame>, keys: Seq<Seq<char>>) -> Frame {
    if rest.len() != 1 || text_arg(rest[0]) != Some("*"@) {
        error("ERR syntax error, only 'KEYS *' is supported")
    } else {
        Frame::Array(Seq::new(keys.len(), |i: int| bulk_text(keys[i])))
    }
}

pub open spec fn hset_outcome(rest: Seq<Frame>, data: Map<Seq<char>, ValueV>, authed: bool) -> Outcome {
    if rest.len() != 3 {
        Outcome {
            reply: error("ERR wrong number of arguments for 'HSET'"),
            authed,
            events: no_events(),
        }
    } else {
        match (text_arg(rest[0]), text_arg(rest[1]), text_arg(rest[2])) {
            (None, _, _) => Outcome { reply: error("ERR invalid key"), authed, events: no_events() },
            (Some(_), None, _) => Outcome {
                reply: error("ERR invalid field"),
                authed,
                events: no_events(),
            },
            (Some(_), Some(_), None) => Outcome {
                reply: error("ERR invalid value"),
                authed,
                events: no_events(),
            },
            (Some(k), Some(f), Some(v)) => {
                if data.contains_key(k) && !(data[k] is Hash) {
                    Outcome {
                        reply: error(
                            "WRONGTYPE Operation against a key holding the wrong kind of value",
                        ),
                        authed,
                        events: no_events(),
                    }
                } else {
                    Outcome {
                        reply: Frame::Integer(
                            if data.contains_key(k) && data[k]->Hash_0.contains_key(f) {
                                0
                            } else {
                                1
                            },
                        ),
                        authed,
                        events: seq![CommandV::HSet(k, f, v)],
                    }
                }
            },
        }
    }
}

/// The deletions that DEL publishes: one for each argument naming a present key, in order.
pub open spec fn del_events(args: Seq<Frame>, data: Map<Seq<char>, ValueV>) -> Seq<CommandV>
    decreases args.len(),
{
    if args.len() == 0 {
        Seq::empty()
    } else {
        let before = del_events(args.drop_last(), data);
        match text_arg(args.last()) {
            Some(k) => if data.contains_key(k) {
                before.push(CommandV::Delete(k))
            } else {
                before
            },
            None => before,
        }
    }
}

pub open spec fn del_outcome(rest: Seq<Frame>, data: Map<Seq<char>, ValueV>, authed: bool) -> Outcome {
    if rest.len() == 0 {
        Outcome {
            reply: error("ERR wrong number of arguments for 'DEL'"),
            authed,
            events: no_events(),
        }
    } else {
        Outcome {
            reply: Frame::Integer(
                if del_events(rest, data).len() <= i64::MAX {
                    del_events(rest, data).len() as int
                } else {
                    i64::MAX as int
                },
            ),
            authed,
            events: del_events(rest, data),
        }
    }
}

/// What the command `name` (already in upper case) with arguments `rest` gives.
pub open spec fn dispatch_outcome(
    name: Seq<char>,
    rest: Seq<Frame>,
    data: Map<Seq<char>, ValueV>,
    keys: Seq<Seq<char>>,
    authed: bool,
    password: Option<Seq<char>>,
) -> Outcome {
    if !authed && name != "AUTH"@ {
        Outcome {
            reply: error("NOAUTH Authentication required."),
            authed,
            events: no_events(),
        }
    } else if name == "AUTH"@ {
        auth_outcome(rest, password, authed)
    } else if name == "PING"@ {
        Outcome { reply: ping_reply(rest), authed, events: no_events() }
    } else if name == "GET"@ {
        Outcome { reply: get_reply(rest, data), authed, events: no_events() }
    } else if name == "SET"@ {
        set_outcome(rest, authed)
    } else if name == "KEYS"@ {
        Outcome { reply: keys_reply(rest, keys), authed, events: no_events() }
    } else if name == "HSET"@ {
        hset_outcome(rest, data, authed)
    } else if name == "DEL"@ {
        del_outcome(rest, data, authed)
    } else {
        Outcome {
            reply: Frame::Error("ERR unknown command '"@ + name + "'"@),
            authed,
            events: no_events(),
        }
    }
}

/// What a request frame gives.
pub open spec fn command_outcome(
    cmd: Frame,
    data: Map<Seq<char>, ValueV>,
    keys: Seq<Seq<char>>,
    authed: bool,
    password: Option<Seq<char>>,
) -> Outcome {
    match cmd {
        Frame::Array(args) => if args.len() == 0 {
            Outcome { reply: error("ERR empty command"), authed, events: no_events() }
        } else {
            match text_arg(args[0]) {
                None => Outcome {
                    reply: error("ERR invalid command name"),
                    authed,
                    events: no_events(),
                },
                Some(n) => dispatch_outcome(
                    upper_of(n),
                    args.drop_first(),
                    data,
                    keys,
                    authed,
                    password,
                ),
            }
        },
        _ => Outcome { reply: error("ERR command must be an array"), authed, events: no_events() },
    }
}

pub open spec fn pass_view(p: Option<String>) -> Option<Seq<char>> {
    match p {
        Some(s) => Some(s@),
        None => None,
    }
}

/// The arguments after the command name.
pub open spec fn rest_of(args: Seq<RespValue>) -> Seq<Frame> {
    frames_of(args).drop_first()
}

// ---------------------------------------------------------------------------
// Executing commands
// ---------------------------------------------------------------------------

fn error_reply(msg: &str) -> (r: RespValue)
    ensures
        r@ == Frame::Error(msg@),
{
    RespValue::Error(String::from_str(msg))
}

fn simple_reply(msg: &str) -> (r: RespValue)
    ensures
        r@ == Frame::Simple(msg@),
{
    RespValue::SimpleString(String::from_str(msg))
}

fn bulk_reply(s: &String) -> (r: RespValue)
    ensures
        r@ == bulk_text(s@),
{
    RespValue::BulkString(slice_to_vec(s.as_str().as_bytes()))
}

/// The text of argument `i`.
fn text_at(args: &Vec<RespValue>, i: usize) -> (r: Option<String>)
    requires
        i < args@.len(),
    ensures
        match r {
            Some(s) => text_arg(frames_of(args@)[i as int]) == Some(s@),
            None => text_arg(frames_of(args@)[i as int]) is None,
        },
{
    proof {
        lemma_frames_len(args@);
    }
    arg_text(&args[i])
}

fn auth_cmd(args: &Vec<RespValue>, password: &Option<String>, authenticated: &mut bool) -> (r:
    RespValue)
    requires
        args@.len() >= 1,
    ensures
        r@ == auth_outcome(rest_of(args@), pass_view(*password), *old(authenticated)).reply,
        *final(authenticated) == auth_outcome(
            rest_of(args@),
            pass_view(*password),
            *old(authenticated),
        ).authed,
{
    proof {
        lemma_frames_len(args@);
    }
    match password {
        Some(pass) => {
            if args.len() == 2 {
                match text_at(args, 1) {
                    Some(given) => {
                        if same_text(given.as_str(), pass.as_str()) {
                            *authenticated = true;
                            return simple_reply("OK");
                        }
                    },
                    None => {},
                }
            }
            error_reply("ERR invalid password")
        },
        None => error_reply("ERR AUTH is not needed"),
    }
}

fn ping_cmd(args: &Vec<RespValue>) -> (r: RespValue)
    requires
        args@.len() >= 1,
    ensures
        r@ == ping_reply(rest_of(args@)),
{
    proof {
        lemma_frames_len(args@);
    }
    if args.len() == 1 {
        return simple_reply("PONG");
    }
    match text_at(args, 1) {
        Some(msg) => bulk_reply(&msg),
        None => simple_reply("PONG"),
    }
}

fn get_cmd(args: &Vec<RespValue>, store: &Store) -> (r: RespValue)
    requires
        args@.len() >= 1,
        store.wf(),
    ensures
        r@ == get_reply(rest_of(args@), store.data@),
{
    proof {
        lemma_frames_len(args@);
    }
    if args.len() != 2 {
        return error_reply("ERR wrong number of arguments for 'GET'");
    }
    let key = match text_at(args, 1) {
        Some(k) => k,
        None => return error_reply("ERR invalid key"),
    };
    match store.get(key.as_str()) {
        Some(Value::String(s)) => bulk_reply(s),
        Some(_) => error_reply("WRONGTYPE Operation against a key holding the wrong kind of value"),
        None => RespValue::Null,
    }
}

fn expiry_from(args: &Vec<RespValue>) -> (r: Option<u64>)
    requires
        args@.len() >= 3,
    ensures
        r == expiry_of(rest_of(args@).skip(2)),
{
    proof {
        lemma_frames_len(args@);
    }
    let ghost opts = rest_of(args@).skip(2);
    if args.len() < 5 {
        return None;
    }
    assert(opts[0] == frames_of(args@)[3]);
    assert(opts[1] == frames_of(args@)[4]);
    let opt = match text_at(args, 3) {
        Some(o) => o,
        None => return None,
    };
    let amount = match text_at(args, 4) {
        Some(x) => x,
        None => return None,
    };
    let upper = to_upper(opt.as_str());
    expiry_for(upper.as_str(), amount.as_str())
}

/// The lifetime in milliseconds that the modifier `option` (already in upper case) and
/// its `amount` give.
pub fn expiry_for(option: &str, amount: &str) -> (r: Option<u64>)
    ensures
        r == expiry_rule(option@, amount@),
{
    if same_text(option, "PX") {
        parse_u64(amount)
    } else if same_text(option, "EX") {
        match parse_u64(amount) {
            Some(n) => {
                if n > u64::MAX / 1000 {
                    Some(u64::MAX)
                } else {
                    Some(n * 1000)
                }
            },
            None => None,
        }
    } else {
        None
    }
}

fn set_cmd(args: &Vec<RespValue>) -> (r: (RespValue, Vec<Command>))
    requires
        args@.len() >= 1,
    ensures
        r.0@ == set_outcome(rest_of(args@), true).reply,
        events_of(r.1@) == set_outcome(rest_of(args@), true).events,
        forall|i: int| 0 <= i < r.1@.len() ==> (#[trigger] r.1@[i]).wf(),
{
    proof {
        lemma_frames_len(args@);
    }
    let mut events: Vec<Command> = Vec::new();
    if args.len() < 3 {
        assert(events_of(events@) =~= no_events());
        return (error_reply("ERR wrong number of arguments for 'SET'"), events);
    }
    let key = match text_at(args, 1) {
        Some(k) => k,
        None => {
            assert(events_of(events@) =~= no_events());
            return (error_reply("ERR invalid key"), events);
        },
    };
    let value = match text_at(args, 2) {
        Some(v) => v,
        None => {
            assert(events_of(events@) =~= no_events());
            return (error_reply("ERR invalid value"), events);
        },
    };
    let expiry = expiry_from(args);
    events.push(Command::SetKey { key, value: Value::String(value), expiry });
    assert(events_of(events@) =~= set_outcome(rest_of(args@), true).events);
    (simple_reply("OK"), events)
}

fn keys_cmd(args: &Vec<RespValue>, store: &Store) -> (r: RespValue)
    requires
        args@.len() >= 1,
        store.wf(),
    ensures
        r@ == keys_reply(rest_of(args@), store.data.key_list()),
{
    proof {
        lemma_frames_len(args@);
    }
    let star = if args.len() == 2 {
        match text_at(args, 1) {
            Some(p) => same_text(p.as_str(), "*"),
            None => false,
        }
    } else {
        false
    };
    if !star {
        return error_reply("ERR syntax error, only 'KEYS *' is supported");
    }
    let keys = store.keys();
    let ghost want = Seq::new(
        store.data.key_list().len(),
        |i: int| bulk_text(store.data.key_list()[i]),
    );
    let mut items: Vec<RespValue> = Vec::new();
    let mut i: usize = 0;
    assert(frames_of(items@) =~= want.take(0));
    while i < keys.len()
        invariant
            i <= keys@.len(),
            keys@.len() == store.data.key_list().len(),
            forall|j: int| 0 <= j < keys@.len() ==> #[trigger] keys@[j]@ == store.data.key_list()[j],
            want == Seq::new(
                store.data.key_list().len(),
                |i: int| bulk_text(store.data.key_list()[i]),
            ),
            frames_of(items@) == want.take(i as int),
        decreases keys@.len() - i,
    {
        let b = bulk_reply(&keys[i]);
        proof {
            lemma_frames_push(items@, b);
            assert(want.take(i + 1) =~= want.take(i as int).push(b@));
        }
        items.push(b);
        i = i + 1;
    }
    assert(want.take(i as int) =~= want);
    RespValue::Array(items)
}

fn hset_cmd(args: &Vec<RespValue>, store: &Store) -> (r: (RespValue, Vec<Command>))
    requires
        args@.len() >= 1,
        store.wf(),
    ensures
        r.0@ == hset_outcome(rest_of(args@), store.data@, true).reply,
        events_of(r.1@) == hset_outcome(rest_of(args@), store.data@, true).events,
        forall|i: int| 0 <= i < r.1@.len() ==> (#[trigger] r.1@[i]).wf(),
{
    proof {
        lemma_frames_len(args@);
    }
    let mut events: Vec<Command> = Vec::new();
    assert(events_of(events@) =~= no_events());
    if args.len() != 4 {
        return (error_reply("ERR wrong number of arguments for 'HSET'"), events);
    }
    let key = match text_at(args, 1) {
        Some(k) => k,
        None => return (error_reply("ERR invalid key"), events),
    };
    let field = match text_at(args, 2) {
        Some(f) => f,
        None => return (error_reply("ERR invalid field"), events),
    };
    let value = match text_at(args, 3) {
        Some(v) => v,
        None => return (error_reply("ERR invalid value"), events),
    };
    match store.hset(key, field, value) {
        Ok((n, c)) => {
            events.push(c);
            assert(events_of(events@) =~= hset_outcome(rest_of(args@), store.data@, true).events);
            (RespValue::Integer(n), events)
        },
        Err(e) => (error_reply(e), events),
    }
}

fn del_cmd(args: &Vec<RespValue>, store: &Store) -> (r: (RespValue, Vec<Command>))
    requires
        args@.len() >= 1,
        store.wf(),
    ensures
        r.0@ == del_outcome(rest_of(args@), store.data@, true).reply,
        events_of(r.1@) == del_outcome(rest_of(args@), store.data@, true).events,
        forall|i: int| 0 <= i < r.1@.len() ==> (#[trigger] r.1@[i]).wf(),
{
    proof {
        lemma_frames_len(args@);
    }
    let mut events: Vec<Command> = Vec::new();
    if args.len() == 1 {
        assert(events_of(events@) =~= no_events());
        return (error_reply("ERR wrong number of arguments for 'DEL'"), events);
    }
    let ghost rest = rest_of(args@);
    let mut i: usize = 1;
    assert(rest.take(0) =~= Seq::<Frame>::empty());
    assert(events_of(events@) =~= del_events(rest.take(0), store.data@));
    while i < args.len()
        invariant
            1 <= i <= args@.len(),
            rest == rest_of(args@),
            rest.len() == args@.len() - 1,
            forall|j: int| 0 <= j < rest.len() ==> #[trigger] rest[j] == args@[j + 1]@,
            events_of(events@) == del_events(rest.take(i - 1), store.data@),
            events@.len() <= i - 1,
            forall|j: int| 0 <= j < events@.len() ==> (#[trigger] events@[j]).wf(),
            store.wf(),
        decreases args@.len() - i,
    {
        let ghost t = rest.take(i as int);
        assert(t.drop_last() =~= rest.take(i - 1));
        assert(t.last() == rest[i - 1]);
        match text_at(args, i) {
            Some(key) => {
                match store.delete(key.as_str()) {
                    Some(c) => {
                        events.push(c);
                        assert(events_of(events@) =~= del_events(t, store.data@));
                    },
                    None => {},
                }
            },
            None => {},
        }
        i = i + 1;
    }
    assert(rest.take(i - 1) =~= rest);
    let count: i64 = if events.len() as u64 > i64::MAX as u64 {
        i64::MAX
    } else {
        events.len() as i64
    };
    (RespValue::Integer(count), events)
}

/// Runs the command `name` (already in upper case) on the arguments that follow `args[0]`.
pub fn dispatch(
    name: &String,
    args: &Vec<RespValue>,
    store: &Store,
    authenticated: &mut bool,
    password: &Option<String>,
) -> (r: (RespValue, Vec<Command>))
    requires
        args@.len() >= 1,
        store.wf(),
    ensures
        ({
            let o = dispatch_outcome(
                name@,
                rest_of(args@),
                store.data@,
                store.data.key_list(),
                *old(authenticated),
                pass_view(*password),
            );
            &&& r.0@ == o.reply
            &&& *final(authenticated) == o.authed
            &&& events_of(r.1@) == o.events
            &&& forall|i: int| 0 <= i < r.1@.len() ==> (#[trigger] r.1@[i]).wf()
        }),
{
    let mut none: Vec<Command> = Vec::new();
    assert(events_of(none@) =~= no_events());
    let is_auth = same_text(name.as_str(), "AUTH");
    if !*authenticated && !is_auth {
        return (error_reply("NOAUTH Authentication required."), none);
    }
    if is_auth {
        let reply = auth_cmd(args, password, authenticated);
        return (reply, none);
    }
    if same_text(name.as_str(), "PING") {
        return (ping_cmd(args), none);
    }
    if same_text(name.as_str(), "GET") {
        return (get_cmd(args, store), none);
    }
    if same_text(name.as_str(), "SET") {
        return set_cmd(args);
    }
    if same_text(name.as_str(), "KEYS") {
        return (keys_cmd(args, store), none);
    }
    if same_text(name.as_str(), "HSET") {
        return hset_cmd(args, store);
    }
    if same_text(name.as_str(), "DEL") {
        return del_cmd(args, store);
    }
    let mut msg = String::from_str("ERR unknown command '");
    msg.append(name.as_str());
    msg.append("'");
    (RespValue::Error(msg), none)
}

/// Interprets one request frame against the current state. Returns the reply and the
/// commands to publish; `authenticated` carries the session's state across requests.
pub fn process_command(
    cmd: RespValue,
    store: &Store,
    authenticated: &mut bool,
    password: &Option<String>,
) -> (r: (RespValue, Vec<Command>))
    requires
        store.wf(),
    ensures
        ({
            let o = command_outcome(
                cmd@,
                store.data@,
                store.data.key_list(),
                *old(authenticated),
                pass_view(*password),
            );
            &&& r.0@ == o.reply
            &&& *final(authenticated) == o.authed
            &&& events_of(r.1@) == o.events
            &&& forall|i: int| 0 <= i < r.1@.len() ==> (#[trigger] r.1@[i]).wf()
        }),
{
    let none: Vec<Command> = Vec::new();
    assert(events_of(none@) =~= no_events());
    match cmd {
        RespValue::Array(args) => {
            proof {
                lemma_frames_len(args@);
            }
            if args.len() == 0 {
                return (error_reply("ERR empty command"), none);
            }
            let name = match text_at(&args, 0) {
                Some(n) => to_upper(n.as_str()),
                None => return (error_reply("ERR invalid command name"), none),
            };
            dispatch(&name, &args, store, authenticated, password)
        },
        _ => (error_reply("ERR command must be an array"), none),
    }
}

/// Writes a field of the hash at `key` straight into the store: 1 if the field is new,
/// 0 if it overwrote one, an error if `key` holds another kind of value.
pub fn handle_hset(store: &mut Store, key: String, field: String, value: String) -> (r: Result<
    i64,
    String,
>)
    requires
        old(store).wf(),
    ensures
        final(store).wf(),
        final(store).metadata@ == old(store).metadata@,
        match r {
            Ok(n) => {
                &&& !old(store).data@.contains_key(key@) || old(store).data@[key@] is Hash
                &&& final(store).data@ == crate::store::apply_data(
                    old(store).data@,
                    CommandV::HSet(key@, field@, value@),
                )
                &&& n == if old(store).data@.contains_key(key@) && old(
                    store,
                ).data@[key@]->Hash_0.contains_key(field@) {
                    0i64
                } else {
                    1i64
                }
            },
            Err(e) => {
                &&& old(store).data@.contains_key(key@) && !(old(store).data@[key@] is Hash)
                &&& final(store).data@ == old(store).data@
                &&& e@ == "ERR Operation against wrong type"@
            },
        },
{
    match store.hset(key, field, value) {
        Ok((n, c)) => {
            store.apply(c, 0);
            Ok(n)
        },
        Err(_) => Err(String::from_str("ERR Operation against wrong type")),
    }
}

} // verus!
