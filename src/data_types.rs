use crate::table::{Duplicate, Table};
use vstd::prelude::*;

verus! {

/// A value stored under a key: a string, a list, a set of members, or a hash of fields.
#[derive(Clone, Debug)]
pub enum Value {
    String(String),
    List(Vec<String>),
    Members(Vec<String>),
    Hash(Table<String>),
}

/// The mathematical value of a [`Value`].
pub enum ValueV {
    Str(Seq<char>),
    List(Seq<Seq<char>>),
    Members(Seq<Seq<char>>),
    Hash(Map<Seq<char>, Seq<char>>),
}

pub open spec fn texts(s: Seq<String>) -> Seq<Seq<char>> {
    s.map_values(|x: String| x@)
}

impl View for Value {
    type V = ValueV;

    open spec fn view(&self) -> ValueV {
        match self {
            Value::String(s) => ValueV::Str(s@),
            Value::List(l) => ValueV::List(texts(l@)),
            Value::Members(l) => ValueV::Members(texts(l@)),
            Value::Hash(t) => ValueV::Hash(t@),
        }
    }
}

impl Value {
    pub open spec fn wf(&self) -> bool {
        match self {
            Value::Hash(t) => t.wf(),
            _ => true,
        }
    }
}

/// A change of state, the unit that the engine applies and the log records.
#[allow(inconsistent_fields)]
#[derive(Clone, Debug)]
pub enum Command {
    SetKey { key: String, value: Value, expiry: Option<u64> },
    HSet { key: String, field: String, value: String },
    Delete { key: String },
}

/// The mathematical value of a [`Command`]; a `SetKey` carries its lifetime in milliseconds.
pub enum CommandV {
    SetKey(Seq<char>, ValueV, Option<u64>),
    HSet(Seq<char>, Seq<char>, Seq<char>),
    Delete(Seq<char>),
}

impl View for Command {
    type V = CommandV;

    open spec fn view(&self) -> CommandV {
        match self {
            Command::SetKey { key, value, expiry } => CommandV::SetKey(key@, value@, *expiry),
            Command::HSet { key, field, value } => CommandV::HSet(key@, field@, value@),
            Command::Delete { key } => CommandV::Delete(key@),
        }
    }
}

pub open spec fn events_of(cs: Seq<Command>) -> Seq<CommandV> {
    cs.map_values(|c: Command| c@)
}

impl Command {
    pub open spec fn wf(&self) -> bool {
        match self {
            Command::SetKey { value, .. } => value.wf(),
            _ => true,
        }
    }
}

/// What is kept about a key besides its value: the instant, in milliseconds since the
/// epoch, at which it expires.
#[derive(Clone, Debug)]
pub struct KeyMetadata {
    pub expiry: Option<u64>,
}

impl View for KeyMetadata {
    type V = Option<u64>;

    open spec fn view(&self) -> Option<u64> {
        self.expiry
    }
}

fn duplicate_texts(v: &Vec<String>) -> (r: Vec<String>)
    ensures
        texts(r@) == texts(v@),
{
    let mut r: Vec<String> = Vec::new();
    let mut i: usize = 0;
    while i < v.len()
        invariant
            i <= v@.len(),
            r@.len() == i,
            forall|j: int| 0 <= j < i ==> (#[trigger] r@[j])@ == v@[j]@,
        decreases v@.len() - i,
    {
        r.push(v[i].clone());
        i = i + 1;
    }
    assert(texts(r@) =~= texts(v@));
    r
}

impl Duplicate for Value {
    open spec fn sound(&self) -> bool {
        match self {
            Value::Hash(t) => t.wf() && t.all_sound(),
            _ => true,
        }
    }

    fn duplicate(&self) -> (r: Value) {
        match self {
            Value::String(s) => Value::String(s.clone()),
            Value::List(l) => Value::List(duplicate_texts(l)),
            Value::Members(m) => Value::Members(duplicate_texts(m)),
            Value::Hash(t) => Value::Hash(t.duplicate()),
        }
    }
}

impl Duplicate for KeyMetadata {
    open spec fn sound(&self) -> bool {
        true
    }

    fn duplicate(&self) -> (r: KeyMetadata) {
        KeyMetadata { expiry: self.expiry }
    }
}

} // verus!
