use crate::data_types::{events_of, Command, CommandV, KeyMetadata, Value, ValueV};
use crate::table::{Duplicate, Table};
use vstd::prelude::*;

verus! {

/// The instant `ms` milliseconds after `now`, held at the largest instant.
pub open spec fn deadline(now: u64, ms: u64) -> u64 {
    if now + ms > u64::MAX {
        u64::MAX
    } else {
        (now + ms) as u64
    }
}

/// The key-to-value mapping after one command.
pub open spec fn apply_data(d: Map<Seq<char>, ValueV>, c: CommandV) -> Map<Seq<char>, ValueV> {
    match c {
        CommandV::SetKey(k, v, _) => d.insert(k, v),
        CommandV::HSet(k, f, v) => {
            if !d.contains_key(k) {
                d.insert(k, ValueV::Hash(Map::empty().insert(f, v)))
            } else if d[k] is Hash {
                d.insert(k, ValueV::Hash(d[k]->Hash_0.insert(f, v)))
            } else {
                d
            }
        },
        CommandV::Delete(k) => d.remove(k),
    }
}

/// The key-to-expiry mapping after one command applied at `now`.
pub open spec fn apply_meta(m: Map<Seq<char>, Option<u64>>, c: CommandV, now: u64) -> Map<
    Seq<char>,
    Option<u64>,
> {
    match c {
        CommandV::SetKey(k, _, Some(ms)) => m.insert(k, Some(deadline(now, ms))),
        CommandV::SetKey(k, _, None) => m.remove(k),
        CommandV::HSet(..) => m,
        CommandV::Delete(k) => m.remove(k),
    }
}

/// Whether `k` has an expiry at or before `now`.
pub open spec fn is_expired(m: Map<Seq<char>, Option<u64>>, k: Seq<char>, now: u64) -> bool {
    m.contains_key(k) && (m[k] matches Some(t) && t <= now)
}

pub open spec fn expired_set(m: Map<Seq<char>, Option<u64>>, now: u64) -> Set<Seq<char>> {
    Set::new(|k: Seq<char>| is_expired(m, k, now))
}

/// The key-to-value mapping after applying `cs` in order.
pub open spec fn apply_all_data(d: Map<Seq<char>, ValueV>, cs: Seq<CommandV>) -> Map<
    Seq<char>,
    ValueV,
>
    decreases cs.len(),
{
    if cs.len() == 0 {
        d
    } else {
        apply_all_data(apply_data(d, cs[0]), cs.drop_first())
    }
}

pub open spec fn apply_all_meta(m: Map<Seq<char>, Option<u64>>, cs: Seq<CommandV>, now: u64) -> Map<
    Seq<char>,
    Option<u64>,
>
    decreases cs.len(),
{
    if cs.len() == 0 {
        m
    } else {
        apply_all_meta(apply_meta(m, cs[0], now), cs.drop_first(), now)
    }
}

pub open spec fn key_of(c: CommandV) -> Seq<char> {
    match c {
        CommandV::SetKey(k, _, _) => k,
        CommandV::HSet(k, _, _) => k,
        CommandV::Delete(k) => k,
    }
}

/// The canonical state: values by key, and expiry instants by key.
pub struct Store {
    pub data: Table<Value>,
    pub metadata: Table<KeyMetadata>,
}

impl Store {
    pub open spec fn wf(&self) -> bool {
        &&& self.data.wf()
        &&& self.metadata.wf()
        &&& forall|i: int|
            0 <= i < self.data.entries@.len() ==> (#[trigger] self.data.entries@[i]).1.wf()
    }

    /// An empty store.
    pub fn new() -> (r: Store)
        ensures
            r.wf(),
            r.data@ == Map::<Seq<char>, ValueV>::empty(),
            r.metadata@ == Map::<Seq<char>, Option<u64>>::empty(),
    {
        Store { data: Table::new(), metadata: Table::new() }
    }

    fn put_value(&mut self, k: String, v: Value)
        requires
            old(self).wf(),
            v.wf(),
        ensures
            final(self).wf(),
            final(self).data@ == old(self).data@.insert(k@, v@),
            final(self).metadata == old(self).metadata,
    {
        let ghost before = self.data;
        self.data.insert(k, v);
        assert forall|i: int| 0 <= i < self.data.entries@.len() implies (
        #[trigger] self.data.entries@[i]).1.wf() by {
            if self.data.entries@[i] != (k, v) {
                let j = choose|j: int|
                    0 <= j < before.entries@.len() && before.entries@[j] == self.data.entries@[i];
                assert(before.entries@[j].1.wf());
            }
        }
    }

    fn drop_value(&mut self, k: &str)
        requires
            old(self).wf(),
        ensures
            final(self).wf(),
            final(self).data@ == old(self).data@.remove(k@),
            final(self).metadata == old(self).metadata,
    {
        let ghost before = self.data;
        self.data.remove(k);
        assert forall|i: int| 0 <= i < self.data.entries@.len() implies (
        #[trigger] self.data.entries@[i]).1.wf() by {
            let j = choose|j: int|
                0 <= j < before.entries@.len() && before.entries@[j] == self.data.entries@[i];
            assert(before.entries@[j].1.wf());
        }
    }

    /// Applies one command: the only way the mappings change. `now` is the current instant
    /// in milliseconds since the epoch.
    pub fn apply(&mut self, cmd: Command, now: u64)
        requires
            old(self).wf(),
            cmd.wf(),
        ensures
            final(self).wf(),
            final(self).data@ == apply_data(old(self).data@, cmd@),
            final(self).metadata@ == apply_meta(old(self).metadata@, cmd@, now),
    {
        match cmd {
            Command::SetKey { key, value, expiry } => {
                let k2 = key.clone();
                self.put_value(key, value);
                match expiry {
                    Some(ms) => {
                        let at = now.saturating_add(ms);
                        self.metadata.insert(k2, KeyMetadata { expiry: Some(at) });
                    },
                    None => {
                        self.metadata.remove(k2.as_str());
                    },
                }
            },
            Command::HSet { key, field, value } => {
                let ghost before = self.data;
                let taken = self.data.take(key.as_str());
                proof {
                    if taken is Some {
                        let j = choose|j: int|
                            0 <= j < before.entries@.len() && before.entries@[j].1
                                == taken->Some_0;
                        assert(before.entries@[j].1.wf());
                    }
                    assert forall|i: int| 0 <= i < self.data.entries@.len() implies (
                    #[trigger] self.data.entries@[i]).1.wf() by {
                        let j = choose|j: int|
                            0 <= j < before.entries@.len() && before.entries@[j]
                                == self.data.entries@[i];
                        assert(before.entries@[j].1.wf());
                    }
                }
                match taken {
                    None => {
                        let mut t: Table<String> = Table::new();
                        t.insert(field, value);
                        self.put_value(key, Value::Hash(t));
                    },
                    Some(Value::Hash(t)) => {
                        let mut t = t;
                        t.insert(field, value);
                        self.put_value(key, Value::Hash(t));
                    },
                    Some(other) => {
                        self.put_value(key, other);
                        assert(self.data@ =~= before@);
                    },
                }
            },
            Command::Delete { key } => {
                self.drop_value(key.as_str());
                self.metadata.remove(key.as_str());
            },
        }
    }

    /// Applies `cmds` one after another, in the order given, at the instant `now`.
    pub fn process_commands(&mut self, cmds: Vec<Command>, now: u64)
        requires
            old(self).wf(),
            forall|i: int| 0 <= i < cmds@.len() ==> (#[trigger] cmds@[i]).wf(),
        ensures
            final(self).wf(),
            final(self).data@ == apply_all_data(old(self).data@, events_of(cmds@)),
            final(self).metadata@ == apply_all_meta(old(self).metadata@, events_of(cmds@), now),
    {
        let ghost all = events_of(cmds@);
        let mut cmds = cmds;
        while cmds.len() > 0
            invariant
                self.wf(),
                forall|i: int| 0 <= i < cmds@.len() ==> (#[trigger] cmds@[i]).wf(),
                apply_all_data(old(self).data@, all) == apply_all_data(self.data@, events_of(cmds@)),
                apply_all_meta(old(self).metadata@, all, now) == apply_all_meta(
                    self.metadata@,
                    events_of(cmds@),
                    now,
                ),
            decreases cmds@.len(),
        {
            let ghost before = cmds@;
            let c = cmds.remove(0);
            proof {
                assert(events_of(cmds@) =~= events_of(before).drop_first());
                assert(events_of(before)[0] == c@);
                assert(before[0].wf());
                assert forall|i: int| 0 <= i < cmds@.len() implies (#[trigger] cmds@[i]).wf() by {
                    assert(cmds@[i] == before[i + 1]);
                }
            }
            self.apply(c, now);
        }
        assert(events_of(cmds@) =~= Seq::<CommandV>::empty());
    }

    /// A consistent copy of both mappings, as a snapshot holds them.
    pub fn snapshot(&self) -> (r: Store)
        requires
            self.wf(),
        ensures
            r.wf(),
            r.data@ == self.data@,
            r.metadata@ == self.metadata@,
            r.data.key_list() == self.data.key_list(),
    {
        proof {
            assert forall|i: int| 0 <= i < self.data.entries@.len() implies (
            #[trigger] self.data.entries@[i]).1.sound() by {
                assert(self.data.entries@[i].1.wf());
                if let Value::Hash(t) = self.data.entries@[i].1 {
                    assert forall|j: int| 0 <= j < t.entries@.len() implies (
                    #[trigger] t.entries@[j]).1.sound() by {}
                }
            }
        }
        let data = self.data.duplicate();
        let metadata = self.metadata.duplicate();
        Store { data, metadata }
    }

    /// The value of `key`. Reads do not look at expiry.
    pub fn get(&self, key: &str) -> (r: Option<&Value>)
        requires
            self.wf(),
        ensures
            match r {
                Some(v) => self.data@.contains_key(key@) && self.data@[key@] == v@ && v.wf(),
                None => !self.data@.contains_key(key@),
            },
    {
        let r = self.data.get(key);
        proof {
            if r is Some {
                let i = self.data.index_of(key@);
                assert(self.data.has(key@));
                self.data.lemma_view_at(i);
            }
        }
        r
    }

    /// The command that stores `value` under `key`, with a lifetime in milliseconds.
    pub fn set(&self, key: String, value: Value, expiry: Option<u64>) -> (r: Command)
        ensures
            r@ == CommandV::SetKey(key@, value@, expiry),
    {
        Command::SetKey { key, value, expiry }
    }

    /// Checks a field write against the current state: the command to publish and 1 if the
    /// field is new, 0 if it overwrites one; an error if `key` holds another kind of value.
    pub fn hset(&self, key: String, field: String, value: String) -> (r: Result<
        (i64, Command),
        &'static str,
    >)
        requires
            self.wf(),
        ensures
            match r {
                Ok((n, c)) => {
                    &&& c@ == CommandV::HSet(key@, field@, value@)
                    &&& !self.data@.contains_key(key@) ==> n == 1
                    &&& self.data@.contains_key(key@) ==> self.data@[key@] is Hash && n == if self.data@[key@]->Hash_0.contains_key(field@) {
                        0i64
                    } else {
                        1i64
                    }
                },
                Err(e) => self.data@.contains_key(key@) && !(self.data@[key@] is Hash) && e@
                    == "WRONGTYPE Operation against a key holding the wrong kind of value"@,
            },
    {
        let mut created = true;
        match self.get(key.as_str()) {
            Some(Value::Hash(h)) => {
                if h.contains_key(field.as_str()) {
                    created = false;
                }
            },
            Some(_) => {
                return Err("WRONGTYPE Operation against a key holding the wrong kind of value");
            },
            None => {},
        }
        let c = Command::HSet { key, field, value };
        Ok((if created { 1 } else { 0 }, c))
    }

    /// The command that removes `key`, where `key` is present.
    pub fn delete(&self, key: &str) -> (r: Option<Command>)
        requires
            self.wf(),
        ensures
            match r {
                Some(c) => self.data@.contains_key(key@) && c@ == CommandV::Delete(key@),
                None => !self.data@.contains_key(key@),
            },
    {
        if self.data.contains_key(key) {
            Some(Command::Delete { key: key.to_string() })
        } else {
            None
        }
    }

    /// The keys present, each once.
    pub fn keys(&self) -> (r: Vec<String>)
        requires
            self.wf(),
        ensures
            r@.len() == self.data.key_list().len(),
            forall|i: int| 0 <= i < r@.len() ==> #[trigger] r@[i]@ == self.data.key_list()[i],
            forall|k: Seq<char>| self.data@.contains_key(k) <==> self.data.key_list().contains(k),
            self.data.key_list().no_duplicates(),
    {
        proof {
            self.data.lemma_key_list();
        }
        self.data.keys()
    }

    /// Removes every key whose expiry is at or before `now`, from both mappings.
    pub fn clean_expired(&mut self, now: u64)
        requires
            old(self).wf(),
        ensures
            final(self).wf(),
            final(self).data@ == old(self).data@.remove_keys(
                expired_set(old(self).metadata@, now),
            ),
            final(self).metadata@ == old(self).metadata@.remove_keys(
                expired_set(old(self).metadata@, now),
            ),
    {
        let ghost m0 = self.metadata@;
        let ghost d0 = self.data@;
        let mut expired: Vec<String> = Vec::new();
        let mut i: usize = 0;
        while i < self.metadata.entries.len()
            invariant
                self.wf(),
                self.metadata@ == m0,
                i <= self.metadata.entries@.len(),
                forall|j: int|
                    0 <= j < expired@.len() ==> is_expired(m0, #[trigger] expired@[j]@, now),
                forall|j: int|
                    0 <= j < i && is_expired(m0, #[trigger] self.metadata.entries@[j].0@, now)
                        ==> exists|q: int|
                        0 <= q < expired@.len() && expired@[q]@ == self.metadata.entries@[j].0@,
            decreases self.metadata.entries@.len() - i,
        {
            proof {
                self.metadata.lemma_view_at(i as int);
            }
            let ghost prev = expired@;
            match self.metadata.entries[i].1.expiry {
                Some(t) => {
                    if now >= t {
                        let k = self.metadata.entries[i].0.clone();
                        expired.push(k);
                        assert(expired@[expired@.len() - 1]@ == self.metadata.entries@[i as int].0@);
                    }
                },
                None => {},
            }
            proof {
                assert forall|j: int|
                    0 <= j < i + 1 && is_expired(
                        m0,
                        #[trigger] self.metadata.entries@[j].0@,
                        now,
                    ) implies exists|q: int|
                    0 <= q < expired@.len() && expired@[q]@ == self.metadata.entries@[j].0@ by {
                    if j < i {
                        let q = choose|q: int|
                            0 <= q < prev.len() && prev[q]@ == self.metadata.entries@[j].0@;
                        assert(expired@[q] == prev[q]);
                    } else {
                        assert(expired@[expired@.len() - 1]@ == self.metadata.entries@[i as int].0@);
                    }
                }
                assert forall|j: int| 0 <= j < expired@.len() implies is_expired(
                    m0,
                    #[trigger] expired@[j]@,
                    now,
                ) by {
                    if j < prev.len() {
                        assert(expired@[j] == prev[j]);
                    }
                }
            }
            i = i + 1;
        }
        let ghost all = expired_set(m0, now);
        assert forall|k: Seq<char>| all.contains(k) implies exists|q: int|
            0 <= q < expired@.len() && expired@[q]@ == k by {
            let j = self.metadata.index_of(k);
            assert(self.metadata.has(k));
            self.metadata.lemma_view_at(j);
        }
        let mut n: usize = 0;
        while n < expired.len()
            invariant
                self.wf(),
                n <= expired@.len(),
                forall|j: int|
                    0 <= j < expired@.len() ==> is_expired(m0, #[trigger] expired@[j]@, now),
                forall|k: Seq<char>|
                    all.contains(k) ==> exists|q: int| 0 <= q < expired@.len() && expired@[q]@ == k,
                all == expired_set(m0, now),
                self.data@ == d0.remove_keys(
                    Set::new(|k: Seq<char>| exists|q: int| 0 <= q < n && expired@[q]@ == k),
                ),
                self.metadata@ == m0.remove_keys(
                    Set::new(|k: Seq<char>| exists|q: int| 0 <= q < n && expired@[q]@ == k),
                ),
            decreases expired@.len() - n,
        {
            let ghost before = Set::new(|k: Seq<char>| exists|q: int| 0 <= q < n && expired@[q]@ == k);
            let ghost after = Set::new(
                |k: Seq<char>| exists|q: int| 0 <= q < n + 1 && expired@[q]@ == k,
            );
            self.drop_value(expired[n].as_str());
            self.metadata.remove(expired[n].as_str());
            proof {
                assert(after =~= before.insert(expired@[n as int]@));
                assert(d0.remove_keys(before).remove(expired@[n as int]@) =~= d0.remove_keys(after));
                assert(m0.remove_keys(before).remove(expired@[n as int]@) =~= m0.remove_keys(after));
            }
            n = n + 1;
        }
        proof {
            let listed = Set::new(|k: Seq<char>| exists|q: int| 0 <= q < n && expired@[q]@ == k);
            assert(listed =~= all);
        }
    }
}

/// A command on another key leaves a key's entry as it was.
proof fn lemma_untouched(d: Map<Seq<char>, ValueV>, cs: Seq<CommandV>, k: Seq<char>)
    requires
        forall|j: int| 0 <= j < cs.len() ==> key_of(#[trigger] cs[j]) != k,
    ensures
        apply_all_data(d, cs).contains_key(k) == d.contains_key(k),
        d.contains_key(k) ==> apply_all_data(d, cs)[k] == d[k],
    decreases cs.len(),
{
    if cs.len() > 0 {
        assert(key_of(cs[0]) != k);
        assert forall|j: int| 0 <= j < cs.drop_first().len() implies key_of(
            #[trigger] cs.drop_first()[j],
        ) != k by {
            assert(cs.drop_first()[j] == cs[j + 1]);
        }
        lemma_untouched(apply_data(d, cs[0]), cs.drop_first(), k);
    }
}

/// Commands take effect in the order in which they were published: after a run of
/// commands, a key holds what the last `SetKey` of it wrote, when no later command in the
/// run touches that key.
pub proof fn lemma_last_write_wins(d: Map<Seq<char>, ValueV>, cs: Seq<CommandV>, i: int)
    requires
        0 <= i < cs.len(),
        cs[i] is SetKey,
        forall|j: int| i < j < cs.len() ==> key_of(#[trigger] cs[j]) != key_of(cs[i]),
    ensures
        apply_all_data(d, cs).contains_key(key_of(cs[i])),
        apply_all_data(d, cs)[key_of(cs[i])] == cs[i]->SetKey_1,
    decreases cs.len(),
{
    let k = key_of(cs[i]);
    if i == 0 {
        assert forall|j: int| 0 <= j < cs.drop_first().len() implies key_of(
            #[trigger] cs.drop_first()[j],
        ) != k by {
            assert(cs.drop_first()[j] == cs[j + 1]);
        }
        lemma_untouched(apply_data(d, cs[0]), cs.drop_first(), k);
    } else {
        let rest = cs.drop_first();
        assert(rest[i - 1] == cs[i]);
        assert forall|j: int| i - 1 < j < rest.len() implies key_of(#[trigger] rest[j]) != key_of(
            rest[i - 1],
        ) by {
            assert(rest[j] == cs[j + 1]);
        }
        lemma_last_write_wins(apply_data(d, cs[0]), rest, i - 1);
    }
}

/// Expiry is lazy: a key written with a lifetime of `ms` at `now` is readable at once, and
/// a sweep at `t` removes it exactly when `t` is at or after its deadline.
pub proof fn lemma_expiry(
    d: Map<Seq<char>, ValueV>,
    m: Map<Seq<char>, Option<u64>>,
    k: Seq<char>,
    v: ValueV,
    ms: u64,
    now: u64,
    t: u64,
)
    ensures
        apply_data(d, CommandV::SetKey(k, v, Some(ms))).contains_key(k),
        apply_data(d, CommandV::SetKey(k, v, Some(ms))).remove_keys(
            expired_set(apply_meta(m, CommandV::SetKey(k, v, Some(ms)), now), t),
        ).contains_key(k) <==> t < deadline(now, ms),
{
    let m1 = apply_meta(m, CommandV::SetKey(k, v, Some(ms)), now);
    assert(m1[k] == Some(deadline(now, ms)));
    assert(expired_set(m1, t).contains(k) <==> deadline(now, ms) <= t);
}

/// The commands of `cs` on key `k`, in their order.
pub open spec fn only_key(cs: Seq<CommandV>, k: Seq<char>) -> Seq<CommandV>
    decreases cs.len(),
{
    if cs.len() == 0 {
        Seq::empty()
    } else if key_of(cs[0]) == k {
        seq![cs[0]] + only_key(cs.drop_first(), k)
    } else {
        only_key(cs.drop_first(), k)
    }
}

/// Two mappings give `k` the same entry.
pub open spec fn same_entry(d1: Map<Seq<char>, ValueV>, d2: Map<Seq<char>, ValueV>, k: Seq<char>) -> bool {
    &&& d1.contains_key(k) == d2.contains_key(k)
    &&& d1.contains_key(k) ==> d1[k] == d2[k]
}

proof fn lemma_same_entry_run(
    d1: Map<Seq<char>, ValueV>,
    d2: Map<Seq<char>, ValueV>,
    cs: Seq<CommandV>,
    k: Seq<char>,
)
    requires
        same_entry(d1, d2, k),
    ensures
        same_entry(apply_all_data(d1, cs), apply_all_data(d2, only_key(cs, k)), k),
    decreases cs.len(),
{
    if cs.len() > 0 {
        let c = cs[0];
        let rest = cs.drop_first();
        if key_of(c) == k {
            let run = seq![c] + only_key(rest, k);
            assert(run[0] == c);
            assert(run.drop_first() =~= only_key(rest, k));
            lemma_same_entry_run(apply_data(d1, c), apply_data(d2, c), rest, k);
        } else {
            lemma_same_entry_run(apply_data(d1, c), d2, rest, k);
        }
    }
}

/// Commands take effect in publish order, key by key: after a run of commands, a key
/// has the entry that the commands on that key alone, in the same order, give it.
pub proof fn lemma_per_key_order(d: Map<Seq<char>, ValueV>, cs: Seq<CommandV>, k: Seq<char>)
    ensures
        same_entry(apply_all_data(d, cs), apply_all_data(d, only_key(cs, k)), k),
{
    lemma_same_entry_run(d, d, cs, k);
}

} // verus!
