//! Maps and sets keyed by strings, compared by their characters.

use vstd::prelude::*;
use crate::text::chars_of;

verus! {

/// Whether two strings hold the same characters.
pub fn str_eq(a: &str, b: &str) -> (res: bool)
    ensures
        res == (a@ == b@),
{
    let ca = chars_of(a);
    let cb = chars_of(b);
    if ca.len() != cb.len() {
        return false;
    }
    let mut i: usize = 0;
    while i < ca.len()
        invariant
            ca@ == a@,
            cb@ == b@,
            ca.len() == cb.len(),
            0 <= i <= ca.len(),
            forall|j: int| 0 <= j < i ==> ca@[j] == cb@[j],
        decreases ca.len() - i,
    {
        if ca[i] != cb[i] {
            return false;
        }
        i = i + 1;
    }
    assert(ca@ =~= cb@);
    true
}

/// An insertion-ordered map from strings to values; two keys are the same
/// key when they hold the same characters.
#[derive(Debug, Clone)]
pub struct StringMap<V> {
    entries: Vec<(String, V)>,
}

impl<V> StringMap<V> {
    /// The keys, in insertion order.
    pub closed spec fn key_seq(&self) -> Seq<Seq<char>> {
        self.entries@.map_values(|e: (String, V)| e.0@)
    }

    /// No key occurs twice.
    pub closed spec fn wf(&self) -> bool {
        self.key_seq().no_duplicates()
    }

    /// Position of a key among the entries.
    closed spec fn pos(&self, k: Seq<char>) -> int {
        choose|i: int| 0 <= i < self.entries@.len() && self.entries@[i].0@ == k
    }

    /// The map that the entries denote.
    pub closed spec fn view(&self) -> Map<Seq<char>, V> {
        Map::new(
            |k: Seq<char>| self.key_seq().contains(k),
            |k: Seq<char>| self.entries@[self.pos(k)].1,
        )
    }

    proof fn lemma_lookup(&self, i: int)
        requires
            self.wf(),
            0 <= i < self.entries@.len(),
        ensures
            self.view().contains_key(self.entries@[i].0@),
            self.view()[self.entries@[i].0@] == self.entries@[i].1,
            self.pos(self.entries@[i].0@) == i,
    {
        let k = self.entries@[i].0@;
        assert(self.key_seq()[i] == k);
        assert(self.key_seq().contains(k));
        let p = self.pos(k);
        assert(self.key_seq()[p] == k);
    }

    proof fn lemma_member(&self, k: Seq<char>) -> (i: int)
        requires
            self.view().contains_key(k),
        ensures
            0 <= i < self.entries@.len(),
            self.entries@[i].0@ == k,
    {
        let i = choose|i: int| 0 <= i < self.key_seq().len() && self.key_seq()[i] == k;
        assert(self.key_seq()[i] == self.entries@[i].0@);
        i
    }

    proof fn lemma_absent(&self, k: Seq<char>)
        requires
            forall|i: int| 0 <= i < self.entries@.len() ==> self.entries@[i].0@ != k,
        ensures
            !self.view().contains_key(k),
    {
        if self.key_seq().contains(k) {
            let i = choose|i: int| 0 <= i < self.key_seq().len() && self.key_seq()[i] == k;
            assert(self.entries@[i].0@ == k);
        }
    }

    /// An empty map.
    pub fn new() -> (m: Self)
        ensures
            m.wf(),
            m.view() == Map::<Seq<char>, V>::empty(),
            m.key_seq() == Seq::<Seq<char>>::empty(),
    {
        let m = StringMap { entries: Vec::new() };
        assert(m.key_seq() =~= Seq::<Seq<char>>::empty());
        assert(m.view() =~= Map::<Seq<char>, V>::empty());
        m
    }

    /// Number of keys.
    pub fn len(&self) -> (n: usize)
        requires
            self.wf(),
        ensures
            n == self.view().len(),
            n == self.key_seq().len(),
    {
        proof {
            assert(self.view().dom() =~= self.key_seq().to_set());
            self.key_seq().unique_seq_to_set();
        }
        self.entries.len()
    }

    /// Whether the map has no key.
    pub fn is_empty(&self) -> (b: bool)
        requires
            self.wf(),
        ensures
            b == (self.view().len() == 0),
    {
        self.len() == 0
    }

    /// Index of the entry whose key is `k`, if any.
    fn find(&self, k: &str) -> (r: Option<usize>)
        requires
            self.wf(),
        ensures
            match r {
                Some(i) => i < self.entries@.len() && self.entries@[i as int].0@ == k@,
                None => forall|i: int| 0 <= i < self.entries@.len() ==> self.entries@[i].0@ != k@,
            },
    {
        let mut i: usize = 0;
        while i < self.entries.len()
            invariant
                0 <= i <= self.entries@.len(),
                forall|j: int| 0 <= j < i ==> self.entries@[j].0@ != k@,
            decreases self.entries.len() - i,
        {
            if str_eq(self.entries[i].0.as_str(), k) {
                return Some(i);
            }
            i = i + 1;
        }
        None
    }

    /// Whether `k` is a key.
    pub fn contains_key(&self, k: &str) -> (b: bool)
        requires
            self.wf(),
        ensures
            b == self.view().contains_key(k@),
    {
        match self.find(k) {
            Some(i) => {
                proof { self.lemma_lookup(i as int); }
                true
            },
            None => {
                proof { self.lemma_absent(k@); }
                false
            },
        }
    }

    /// The value stored under `k`, if any.
    pub fn get(&self, k: &str) -> (r: Option<&V>)
        requires
            self.wf(),
        ensures
            match r {
                Some(v) => self.view().contains_key(k@) && *v == self.view()[k@],
                None => !self.view().contains_key(k@),
            },
    {
        match self.find(k) {
            Some(i) => {
                proof { self.lemma_lookup(i as int); }
                Some(&self.entries[i].1)
            },
            None => {
                proof { self.lemma_absent(k@); }
                None
            },
        }
    }

    /// Stores `v` under `k`, replacing and returning a value stored there before.
    /// A new key goes after the keys already present.
    pub fn insert(&mut self, k: String, v: V) -> (old_v: Option<V>)
        requires
            old(self).wf(),
        ensures
            final(self).wf(),
            final(self).view() == old(self).view().insert(k@, v),
            match old_v {
                Some(o) => old(self).view().contains_key(k@) && o == old(self).view()[k@],
                None => !old(self).view().contains_key(k@),
            },
            old(self).view().contains_key(k@) ==> final(self).key_seq() == old(self).key_seq(),
            !old(self).view().contains_key(k@) ==> final(self).key_seq() == old(self).key_seq().push(k@),
    {
        let ghost old_self = *self;
        match self.find(k.as_str()) {
            Some(i) => {
                proof { old_self.lemma_lookup(i as int); }
                let ghost kv = k@;
                let (ok, ov) = self.entries.remove(i);
                self.entries.insert(i, (k, v));
                proof {
                    assert(self.entries@ =~= old_self.entries@.update(i as int, (self.entries@[i as int].0, v)));
                    assert(self.key_seq() =~= old_self.key_seq());
                    assert(self.wf());
                    assert forall|key: Seq<char>| #![auto] self.view().contains_key(key) <==>
                        old_self.view().insert(kv, v).contains_key(key) by {
                        assert(self.key_seq().contains(key) == old_self.key_seq().contains(key));
                    }
                    assert forall|key: Seq<char>| #![auto] self.view().contains_key(key) implies
                        self.view()[key] == old_self.view().insert(kv, v)[key] by {
                        let j = self.lemma_member(key);
                        self.lemma_lookup(j);
                        if j != i as int {
                            old_self.lemma_lookup(j);
                        }
                    }
                    assert(self.view() =~= old_self.view().insert(kv, v));
                }
                Some(ov)
            },
            None => {
                proof { old_self.lemma_absent(k@); }
                let ghost kv = k@;
                self.entries.push((k, v));
                proof {
                    let n = old_self.entries@.len() as int;
                    assert(self.key_seq() =~= old_self.key_seq().push(kv));
                    assert(!old_self.key_seq().contains(kv));
                    assert forall|a: int, b: int| 0 <= a < b < self.key_seq().len() implies
                        self.key_seq()[a] != self.key_seq()[b] by {
                        if b == n {
                            assert(old_self.key_seq()[a] == self.key_seq()[a]);
                        }
                    }
                    assert(self.wf());
                    assert forall|key: Seq<char>| #![auto] self.view().contains_key(key) <==>
                        old_self.view().insert(kv, v).contains_key(key) by {
                        if old_self.key_seq().contains(key) {
                            let q = choose|q: int| 0 <= q < old_self.key_seq().len() && old_self.key_seq()[q] == key;
                            assert(self.key_seq()[q] == key);
                        }
                        if key == kv {
                            assert(self.key_seq()[n] == kv);
                        }
                        if self.key_seq().contains(key) {
                            let q = choose|q: int| 0 <= q < self.key_seq().len() && self.key_seq()[q] == key;
                            if q < n {
                                assert(old_self.key_seq()[q] == key);
                            }
                        }
                    }
                    assert forall|key: Seq<char>| #![auto] self.view().contains_key(key) implies
                        self.view()[key] == old_self.view().insert(kv, v)[key] by {
                        let j = self.lemma_member(key);
                        self.lemma_lookup(j);
                        if j != n {
                            old_self.lemma_lookup(j);
                        }
                    }
                    assert(self.view() =~= old_self.view().insert(kv, v));
                }
                None
            },
        }
    }

    /// Removes `k`, returning the value stored under it, if any.
    pub fn remove(&mut self, k: &str) -> (old_v: Option<V>)
        requires
            old(self).wf(),
        ensures
            final(self).wf(),
            final(self).view() == old(self).view().remove(k@),
            match old_v {
                Some(o) => old(self).view().contains_key(k@) && o == old(self).view()[k@],
                None => !old(self).view().contains_key(k@),
            },
    {
        let ghost old_self = *self;
        match self.find(k) {
            Some(i) => {
                proof { old_self.lemma_lookup(i as int); }
                let (_ok, ov) = self.entries.remove(i);
                proof {
                    assert(self.entries@ =~= old_self.entries@.remove(i as int));
                    assert(self.key_seq() =~= old_self.key_seq().remove(i as int));
                    assert forall|a: int, b: int| 0 <= a < b < self.key_seq().len() implies
                        self.key_seq()[a] != self.key_seq()[b] by {
                        let a2 = if a < i { a } else { a + 1 };
                        let b2 = if b < i { b } else { b + 1 };
                        assert(self.key_seq()[a] == old_self.key_seq()[a2]);
                        assert(self.key_seq()[b] == old_self.key_seq()[b2]);
                    }
                    assert(self.wf());
                    assert forall|key: Seq<char>| #![auto] self.view().contains_key(key) <==>
                        old_self.view().remove(k@).contains_key(key) by {
                        if self.view().contains_key(key) {
                            let p = self.lemma_member(key);
                            let p2 = if p < i { p } else { p + 1 };
                            assert(old_self.entries@[p2].0@ == key);
                            old_self.lemma_lookup(p2);
                            assert(p2 != i);
                        }
                        if old_self.view().contains_key(key) && key != k@ {
                            let q = old_self.lemma_member(key);
                            assert(q != i);
                            let q2 = if q < i { q } else { q - 1 };
                            assert(self.entries@[q2].0@ == key);
                            self.lemma_lookup(q2);
                        }
                    }
                    assert forall|key: Seq<char>| #![auto] self.view().contains_key(key) implies
                        self.view()[key] == old_self.view()[key] by {
                        let p = self.lemma_member(key);
                        let p2 = if p < i { p } else { p + 1 };
                        assert(old_self.entries@[p2] == self.entries@[p]);
                        self.lemma_lookup(p);
                        old_self.lemma_lookup(p2);
                    }
                    assert(self.view() =~= old_self.view().remove(k@));
                }
                Some(ov)
            },
            None => {
                proof {
                    old_self.lemma_absent(k@);
                    assert(self.view() =~= old_self.view().remove(k@));
                }
                None
            },
        }
    }

    /// The value at the `i`-th key in insertion order.
    pub fn entry_at(&self, i: usize) -> (r: (&String, &V))
        requires
            self.wf(),
            i < self.key_seq().len(),
        ensures
            r.0@ == self.key_seq()[i as int],
            self.view().contains_key(r.0@),
            *r.1 == self.view()[r.0@],
    {
        proof { self.lemma_lookup(i as int); }
        (&self.entries[i].0, &self.entries[i].1)
    }

    /// No key is listed twice.
    pub proof fn lemma_keys_distinct(&self)
        requires
            self.wf(),
        ensures
            self.key_seq().no_duplicates(),
    {
    }

    /// The map has finitely many keys.
    pub proof fn lemma_finite(&self)
        ensures
            self.view().dom().finite(),
    {
        broadcast use vstd::seq_lib::seq_to_set_is_finite;
        assert(self.view().dom() =~= self.key_seq().to_set());
    }

    /// The keys of the map are the keys listed in insertion order.
    pub proof fn lemma_key_seq_contains(&self, k: Seq<char>)
        ensures
            self.view().contains_key(k) <==> self.key_seq().contains(k),
    {
    }
}

/// An insertion-ordered set of strings, compared by their characters.
#[derive(Debug, Clone)]
pub struct StringSet {
    items: StringMap<()>,
}

impl StringSet {
    pub closed spec fn wf(&self) -> bool {
        self.items.wf()
    }

    /// The set of character sequences held.
    pub closed spec fn view(&self) -> Set<Seq<char>> {
        self.items.view().dom()
    }

    /// The members, in insertion order.
    pub closed spec fn member_seq(&self) -> Seq<Seq<char>> {
        self.items.key_seq()
    }

    /// An empty set.
    pub fn new() -> (s: Self)
        ensures
            s.wf(),
            s.view() == Set::<Seq<char>>::empty(),
            s.member_seq() == Seq::<Seq<char>>::empty(),
    {
        let s = StringSet { items: StringMap::new() };
        assert(s.view() =~= Set::<Seq<char>>::empty());
        s
    }

    /// Adds `v`; returns whether it was absent before.
    pub fn insert(&mut self, v: String) -> (added: bool)
        requires
            old(self).wf(),
        ensures
            final(self).wf(),
            final(self).view() == old(self).view().insert(v@),
            added == !old(self).view().contains(v@),
            added ==> final(self).member_seq() == old(self).member_seq().push(v@),
            !added ==> final(self).member_seq() == old(self).member_seq(),
    {
        let r = self.items.insert(v, ());
        assert(self.view() =~= old(self).view().insert(v@));
        r.is_none()
    }

    /// Whether `v` is a member.
    pub fn contains(&self, v: &str) -> (b: bool)
        requires
            self.wf(),
        ensures
            b == self.view().contains(v@),
    {
        self.items.contains_key(v)
    }

    /// Number of members.
    pub fn len(&self) -> (n: usize)
        requires
            self.wf(),
        ensures
            n == self.view().len(),
            n == self.member_seq().len(),
    {
        self.items.len()
    }

    /// Whether the set has no member.
    pub fn is_empty(&self) -> (b: bool)
        requires
            self.wf(),
        ensures
            b == (self.view().len() == 0),
    {
        self.items.is_empty()
    }
}

} // verus!
