use vstd::prelude::*;
use vstd::utf8::encode_utf8;

verus! {

/// Whether two texts are the same, compared byte by byte.
pub fn same_text(a: &str, b: &str) -> (r: bool)
    ensures
        r == (a@ == b@),
{
    let x = a.as_bytes();
    let y = b.as_bytes();
    proof {
        vstd::utf8::encode_utf8_decode_utf8(a@);
        vstd::utf8::encode_utf8_decode_utf8(b@);
        assert(x@ == encode_utf8(a@));
        assert(y@ == encode_utf8(b@));
    }
    if x.len() != y.len() {
        return false;
    }
    let mut i: usize = 0;
    while i < x.len()
        invariant
            i <= x@.len(),
            x@.len() == y@.len(),
            x@ == encode_utf8(a@),
            y@ == encode_utf8(b@),
            forall|j: int| 0 <= j < i ==> x@[j] == y@[j],
        decreases x@.len() - i,
    {
        if x[i] != y[i] {
            assert(x@[i as int] != y@[i as int]);
            return false;
        }
        i = i + 1;
    }
    assert(x@ =~= y@);
    true
}

/// A value that can be copied into an equal one.
pub trait Duplicate: View + Sized {
    /// The condition under which a copy is possible.
    spec fn sound(&self) -> bool;

    fn duplicate(&self) -> (r: Self)
        requires
            self.sound(),
        ensures
            r@ == self@,
            r.sound(),
    ;
}

impl Duplicate for String {
    open spec fn sound(&self) -> bool {
        true
    }

    fn duplicate(&self) -> (r: String) {
        self.clone()
    }
}

/// A map from text keys to values, kept as a list of entries with distinct keys.
#[derive(Clone, Debug)]
pub struct Table<V> {
    pub entries: Vec<(String, V)>,
}

impl<V: View> Table<V> {
    /// No key appears twice.
    pub open spec fn wf(&self) -> bool {
        forall|i: int, j: int|
            0 <= i < j < self.entries@.len() ==> self.entries@[i].0@ != self.entries@[j].0@
    }

    pub open spec fn has(&self, k: Seq<char>) -> bool {
        exists|i: int| 0 <= i < self.entries@.len() && self.entries@[i].0@ == k
    }

    pub open spec fn index_of(&self, k: Seq<char>) -> int {
        choose|i: int| 0 <= i < self.entries@.len() && self.entries@[i].0@ == k
    }

    /// The keys in the order of the entries.
    pub open spec fn key_list(&self) -> Seq<Seq<char>> {
        Seq::new(self.entries@.len(), |i: int| self.entries@[i].0@)
    }

    /// Each entry is what the map holds for its key.
    pub proof fn lemma_view_at(&self, i: int)
        requires
            self.wf(),
            0 <= i < self.entries@.len(),
        ensures
            self@.contains_key(self.entries@[i].0@),
            self@[self.entries@[i].0@] == self.entries@[i].1@,
            self.index_of(self.entries@[i].0@) == i,
    {
        let k = self.entries@[i].0@;
        assert(self.has(k));
        let j = self.index_of(k);
        assert(j == i);
    }

    /// The key list names every key of the map, each once.
    pub proof fn lemma_key_list(&self)
        requires
            self.wf(),
        ensures
            forall|k: Seq<char>| self@.contains_key(k) <==> self.key_list().contains(k),
            self.key_list().no_duplicates(),
    {
        assert forall|k: Seq<char>| self@.contains_key(k) <==> self.key_list().contains(k) by {
            if self@.contains_key(k) {
                let i = self.index_of(k);
                assert(self.key_list()[i] == k);
            }
            if self.key_list().contains(k) {
                let i = choose|i: int| 0 <= i < self.key_list().len() && self.key_list()[i] == k;
                assert(self.has(k));
            }
        }
    }

    pub fn new() -> (r: Self)
        ensures
            r.wf(),
            r@ == Map::<Seq<char>, V::V>::empty(),
            r.entries@.len() == 0,
    {
        let r = Table { entries: Vec::new() };
        assert(r@ =~= Map::<Seq<char>, V::V>::empty());
        r
    }

    fn find(&self, k: &str) -> (r: Option<usize>)
        requires
            self.wf(),
        ensures
            match r {
                Some(i) => i < self.entries@.len() && self.entries@[i as int].0@ == k@,
                None => !self@.contains_key(k@),
            },
    {
        let mut i: usize = 0;
        while i < self.entries.len()
            invariant
                i <= self.entries@.len(),
                forall|j: int| 0 <= j < i ==> self.entries@[j].0@ != k@,
            decreases self.entries@.len() - i,
        {
            if same_text(self.entries[i].0.as_str(), k) {
                return Some(i);
            }
            i = i + 1;
        }
        None
    }

    pub fn contains_key(&self, k: &str) -> (r: bool)
        requires
            self.wf(),
        ensures
            r == self@.contains_key(k@),
    {
        match self.find(k) {
            Some(i) => {
                proof {
                    self.lemma_view_at(i as int);
                }
                true
            },
            None => false,
        }
    }

    pub fn get(&self, k: &str) -> (r: Option<&V>)
        requires
            self.wf(),
        ensures
            match r {
                Some(v) => self@.contains_key(k@) && self@[k@] == v@ && *v == self.entries@[self.index_of(
                    k@,
                )].1,
                None => !self@.contains_key(k@),
            },
    {
        match self.find(k) {
            Some(i) => {
                proof {
                    self.lemma_view_at(i as int);
                }
                Some(&self.entries[i].1)
            },
            None => None,
        }
    }

    /// Removes the entry of `k`, handing its value back.
    pub fn take(&mut self, k: &str) -> (r: Option<V>)
        requires
            old(self).wf(),
        ensures
            final(self).wf(),
            final(self)@ == old(self)@.remove(k@),
            match r {
                Some(v) => old(self)@.contains_key(k@) && old(self)@[k@] == v@ && exists|i: int|
                    0 <= i < old(self).entries@.len() && old(self).entries@[i].1 == v,
                None => !old(self)@.contains_key(k@),
            },
            forall|j: int|
                0 <= j < final(self).entries@.len() ==> old(self).entries@.contains(
                    #[trigger] final(self).entries@[j],
                ),
    {
        match self.find(k) {
            Some(i) => {
                let ghost before = *self;
                proof {
                    before.lemma_view_at(i as int);
                }
                let (_, v) = self.entries.remove(i);
                proof {
                    assert(self.entries@ == before.entries@.remove(i as int));
                    assert forall|a: int, b: int|
                        0 <= a < b < self.entries@.len() implies self.entries@[a].0@
                        != self.entries@[b].0@ by {
                        let a2 = if a < i {
                            a
                        } else {
                            a + 1
                        };
                        let b2 = if b < i {
                            b
                        } else {
                            b + 1
                        };
                        assert(self.entries@[a] == before.entries@[a2]);
                        assert(self.entries@[b] == before.entries@[b2]);
                    }
                    assert forall|q: Seq<char>| #[trigger]
                        self@.contains_key(q) == before@.remove(k@).contains_key(q) && (
                        self@.contains_key(q) ==> self@[q] == before@.remove(k@)[q]) by {
                        if self.has(q) {
                            let j = self.index_of(q);
                            let j2 = if j < i {
                                j
                            } else {
                                j + 1
                            };
                            assert(self.entries@[j] == before.entries@[j2]);
                            before.lemma_view_at(j2);
                            self.lemma_view_at(j);
                        }
                        if before.has(q) && q != k@ {
                            let j = before.index_of(q);
                            assert(j != i);
                            let j2 = if j < i {
                                j
                            } else {
                                j - 1
                            };
                            assert(self.entries@[j2] == before.entries@[j]);
                        }
                    }
                    assert(self@ =~= before@.remove(k@));
                    assert forall|j: int| 0 <= j < self.entries@.len() implies before.entries@.contains(
                        #[trigger] self.entries@[j],
                    ) by {
                        let j2 = if j < i {
                            j
                        } else {
                            j + 1
                        };
                        assert(self.entries@[j] == before.entries@[j2]);
                    }
                }
                Some(v)
            },
            None => {
                assert(self@ =~= old(self)@.remove(k@));
                assert forall|j: int| 0 <= j < self.entries@.len() implies old(self).entries@.contains(
                    #[trigger] self.entries@[j],
                ) by {
                    assert(self.entries@[j] == old(self).entries@[j]);
                }
                None
            },
        }
    }

    pub fn remove(&mut self, k: &str) -> (r: bool)
        requires
            old(self).wf(),
        ensures
            final(self).wf(),
            final(self)@ == old(self)@.remove(k@),
            r == old(self)@.contains_key(k@),
            forall|j: int|
                0 <= j < final(self).entries@.len() ==> old(self).entries@.contains(
                    #[trigger] final(self).entries@[j],
                ),
    {
        match self.take(k) {
            Some(_) => true,
            None => false,
        }
    }

    /// Sets the value of `k`, telling whether `k` had one.
    pub fn insert(&mut self, k: String, v: V) -> (r: bool)
        requires
            old(self).wf(),
        ensures
            final(self).wf(),
            final(self)@ == old(self)@.insert(k@, v@),
            r == old(self)@.contains_key(k@),
            forall|j: int|
                0 <= j < final(self).entries@.len() ==> #[trigger] final(self).entries@[j] == (k, v)
                    || old(self).entries@.contains(final(self).entries@[j]),
    {
        let had = self.remove(k.as_str());
        let ghost mid = *self;
        self.entries.push((k, v));
        proof {
            let n = mid.entries@.len() as int;
            assert forall|a: int, b: int|
                0 <= a < b < self.entries@.len() implies self.entries@[a].0@
                != self.entries@[b].0@ by {
                if b == n {
                    assert(self.entries@[a] == mid.entries@[a]);
                    if mid.entries@[a].0@ == k@ {
                        mid.lemma_view_at(a);
                    }
                } else {
                    assert(self.entries@[a] == mid.entries@[a]);
                    assert(self.entries@[b] == mid.entries@[b]);
                }
            }
            assert forall|q: Seq<char>| #[trigger]
                self@.contains_key(q) == mid@.insert(k@, v@).contains_key(q) && (
                self@.contains_key(q) ==> self@[q] == mid@.insert(k@, v@)[q]) by {
                if q == k@ {
                    self.lemma_view_at(n);
                } else {
                    if self.has(q) {
                        let j = self.index_of(q);
                        assert(j != n);
                        assert(self.entries@[j] == mid.entries@[j]);
                        mid.lemma_view_at(j);
                        self.lemma_view_at(j);
                    }
                    if mid.has(q) {
                        let j = mid.index_of(q);
                        assert(self.entries@[j] == mid.entries@[j]);
                    }
                }
            }
            assert(self@ =~= mid@.insert(k@, v@));
            assert(old(self)@.remove(k@).insert(k@, v@) =~= old(self)@.insert(k@, v@));
            assert forall|j: int| 0 <= j < self.entries@.len() implies #[trigger] self.entries@[j]
                == (k, v) || old(self).entries@.contains(self.entries@[j]) by {
                if j < n {
                    assert(self.entries@[j] == mid.entries@[j]);
                    assert(old(self).entries@.contains(mid.entries@[j]));
                }
            }
        }
        had
    }

    /// The keys, in the order of the entries.
    pub fn keys(&self) -> (r: Vec<String>)
        requires
            self.wf(),
        ensures
            r@.len() == self.entries@.len(),
            forall|i: int| 0 <= i < r@.len() ==> #[trigger] r@[i]@ == self.key_list()[i],
    {
        let mut r: Vec<String> = Vec::new();
        let mut i: usize = 0;
        while i < self.entries.len()
            invariant
                i <= self.entries@.len(),
                r@.len() == i,
                forall|j: int| 0 <= j < i ==> #[trigger] r@[j]@ == self.key_list()[j],
            decreases self.entries@.len() - i,
        {
            r.push(self.entries[i].0.clone());
            i = i + 1;
        }
        r
    }
}

impl<V: Duplicate> Table<V> {
    pub open spec fn all_sound(&self) -> bool {
        forall|i: int| 0 <= i < self.entries@.len() ==> (#[trigger] self.entries@[i]).1.sound()
    }

    /// A copy with the same entries.
    pub fn duplicate(&self) -> (r: Self)
        requires
            self.wf(),
            self.all_sound(),
        ensures
            r.wf(),
            r.all_sound(),
            r@ == self@,
            r.key_list() == self.key_list(),
    {
        let mut entries: Vec<(String, V)> = Vec::new();
        let mut i: usize = 0;
        while i < self.entries.len()
            invariant
                self.wf(),
                self.all_sound(),
                i <= self.entries@.len(),
                entries@.len() == i,
                forall|j: int|
                    0 <= j < i ==> (#[trigger] entries@[j]).0@ == self.entries@[j].0@
                        && entries@[j].1@ == self.entries@[j].1@ && entries@[j].1.sound(),
            decreases self.entries@.len() - i,
        {
            let k = self.entries[i].0.clone();
            let v = self.entries[i].1.duplicate();
            entries.push((k, v));
            i = i + 1;
        }
        let r = Table { entries };
        proof {
            assert forall|q: Seq<char>| #[trigger]
                r@.contains_key(q) == self@.contains_key(q) && (r@.contains_key(q) ==> r@[q]
                    == self@[q]) by {
                if self.has(q) {
                    let j = self.index_of(q);
                    self.lemma_view_at(j);
                    assert(r.entries@[j].0@ == q);
                    r.lemma_view_at(j);
                }
                if r.has(q) {
                    let j = r.index_of(q);
                    assert(self.entries@[j].0@ == q);
                }
            }
            assert(r@ =~= self@);
            assert(r.key_list() =~= self.key_list());
        }
        r
    }
}

impl<V: View> View for Table<V> {
    type V = Map<Seq<char>, V::V>;

    open spec fn view(&self) -> Map<Seq<char>, V::V> {
        Map::new(|k: Seq<char>| self.has(k), |k: Seq<char>| self.entries@[self.index_of(k)].1@)
    }
}

} // verus!
