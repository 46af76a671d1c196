//! The shared key/value store: a mapping from key to value with an
//! optional absolute expiry per key.
//!
//! Time never enters this module on its own: every operation that
//! depends on it takes the current monotonic timestamp in milliseconds,
//! so expiration is a pure function of elapsed time since an entry was
//! created, immune to wall-clock adjustments.

use vstd::prelude::*;

use crate::text::str_eq;

verus! {

/// An absolute deadline: the moment of creation plus a time-to-live,
/// both in milliseconds of the same monotonic timeline.
#[derive(Clone, Copy, Debug, PartialEq, Eq, Structural)]
pub struct Expiry {
    pub created_at: u64,
    pub duration: u64,
}

impl Expiry {
    /// The deadline has passed once more than `duration` milliseconds
    /// of the timeline have elapsed since `created_at`.
    pub open spec fn expired_at(self, now: u64) -> bool {
        now - self.created_at > self.duration
    }

    pub fn new(now: u64, duration: u64) -> (e: Expiry)
        ensures
            e == (Expiry { created_at: now, duration }),
    {
        Expiry { created_at: now, duration }
    }

    /// Whether the deadline has passed at time `now`.
    pub fn is_expired(&self, now: u64) -> (r: bool)
        ensures
            r == self.expired_at(now),
    {
        now > self.created_at && now - self.created_at > self.duration
    }
}

/// A stored entry: the value text and, optionally, when it expires.
#[derive(Clone, Debug)]
pub struct Value {
    pub expiry: Option<Expiry>,
    pub value: String,
}

/// The abstract value of an entry.
pub struct ValueV {
    pub expiry: Option<Expiry>,
    pub value: Seq<char>,
}

impl View for Value {
    type V = ValueV;

    open spec fn view(&self) -> ValueV {
        ValueV { expiry: self.expiry, value: self.value@ }
    }
}

impl ValueV {
    /// An entry without an expiry never expires.
    pub open spec fn expired_at(self, now: u64) -> bool {
        match self.expiry {
            Some(e) => e.expired_at(now),
            None => false,
        }
    }
}

impl Value {
    /// Whether this entry's deadline, if any, has passed at time `now`.
    pub fn is_expired(&self, now: u64) -> (r: bool)
        ensures
            r == self@.expired_at(now),
    {
        match &self.expiry {
            Some(e) => e.is_expired(now),
            None => false,
        }
    }
}

/// The mapping denoted by a sequence of key/entry pairs; a later pair
/// with the same key would win, but the store keeps keys unique.
pub open spec fn entries_map(s: Seq<(String, Value)>) -> Map<Seq<char>, ValueV>
    decreases s.len(),
{
    if s.len() == 0 {
        Map::empty()
    } else {
        entries_map(s.drop_last()).insert(s.last().0@, s.last().1@)
    }
}

/// No two pairs bind the same key.
pub open spec fn distinct_keys(s: Seq<(String, Value)>) -> bool {
    forall|i: int, j: int| 0 <= i < j < s.len() ==> s[i].0@ != s[j].0@
}

/// The store: a mapping from key to entry, keys unique, insertion
/// order irrelevant.
#[derive(Debug)]
pub struct Store {
    entries: Vec<(String, Value)>,
}

impl View for Store {
    type V = Map<Seq<char>, ValueV>;

    closed spec fn view(&self) -> Map<Seq<char>, ValueV> {
        entries_map(self.entries@)
    }
}

proof fn lemma_entries_map_index(s: Seq<(String, Value)>, i: int)
    requires
        distinct_keys(s),
        0 <= i < s.len(),
    ensures
        entries_map(s).contains_key(s[i].0@),
        entries_map(s)[s[i].0@] == s[i].1@,
    decreases s.len(),
{
    if i < s.len() - 1 {
        assert(distinct_keys(s.drop_last()));
        lemma_entries_map_index(s.drop_last(), i);
        assert(s[i].0@ != s.last().0@);
    }
}

proof fn lemma_entries_map_absent(s: Seq<(String, Value)>, k: Seq<char>)
    requires
        forall|i: int| 0 <= i < s.len() ==> (#[trigger] s[i]).0@ != k,
    ensures
        !entries_map(s).contains_key(k),
    decreases s.len(),
{
    if s.len() > 0 {
        lemma_entries_map_absent(s.drop_last(), k);
    }
}

proof fn lemma_entries_map_dom(s: Seq<(String, Value)>, k: Seq<char>)
    requires
        entries_map(s).contains_key(k),
    ensures
        exists|i: int| 0 <= i < s.len() && (#[trigger] s[i]).0@ == k,
    decreases s.len(),
{
    if s.len() > 0 {
        if s.last().0@ == k {
            assert(s[s.len() - 1].0@ == k);
        } else {
            lemma_entries_map_dom(s.drop_last(), k);
            let i = choose|i: int| 0 <= i < s.drop_last().len() && (#[trigger] s.drop_last()[i]).0@
                == k;
            assert(s[i].0@ == k);
        }
    }
}

proof fn lemma_distinct_remove(s: Seq<(String, Value)>, i: int)
    requires
        distinct_keys(s),
        0 <= i < s.len(),
    ensures
        distinct_keys(s.remove(i)),
{
    assert forall|a: int, b: int| 0 <= a < b < s.remove(i).len() implies s.remove(i)[a].0@ != s.remove(
        i,
    )[b].0@ by {
        if a < i {
            assert(s.remove(i)[a] == s[a]);
        } else {
            assert(s.remove(i)[a] == s[a + 1]);
        }
        if b < i {
            assert(s.remove(i)[b] == s[b]);
        } else {
            assert(s.remove(i)[b] == s[b + 1]);
        }
    }
}

proof fn lemma_entries_map_remove(s: Seq<(String, Value)>, i: int)
    requires
        distinct_keys(s),
        0 <= i < s.len(),
    ensures
        entries_map(s.remove(i)) == entries_map(s).remove(s[i].0@),
    decreases s.len(),
{
    if i == s.len() - 1 {
        assert(s.remove(i) =~= s.drop_last());
        assert(forall|j: int| 0 <= j < s.drop_last().len() ==> (#[trigger] s.drop_last()[j]).0@
            != s[i].0@);
        lemma_entries_map_absent(s.drop_last(), s[i].0@);
        assert(entries_map(s.drop_last()) =~= entries_map(s.drop_last()).insert(
            s.last().0@,
            s.last().1@,
        ).remove(s[i].0@));
    } else {
        assert(distinct_keys(s.drop_last()));
        lemma_entries_map_remove(s.drop_last(), i);
        assert(s.remove(i).drop_last() =~= s.drop_last().remove(i));
        assert(s.remove(i).last() == s.last());
        assert(s[i].0@ != s.last().0@);
        assert(entries_map(s.remove(i)) == entries_map(s.drop_last().remove(i)).insert(
            s.last().0@,
            s.last().1@,
        ));
        assert(entries_map(s.drop_last()).remove(s[i].0@).insert(s.last().0@, s.last().1@)
            =~= entries_map(s.drop_last()).insert(s.last().0@, s.last().1@).remove(s[i].0@));
    }
}

/// The mapping after one sweep at time `now`: every entry whose
/// deadline has passed is gone, everything else is untouched.
pub open spec fn sweep_map(m: Map<Seq<char>, ValueV>, now: u64) -> Map<Seq<char>, ValueV> {
    Map::new(|k: Seq<char>| m.contains_key(k) && !m[k].expired_at(now), |k: Seq<char>| m[k])
}

impl Store {
    /// Keys are bound at most once; every operation preserves this.
    pub closed spec fn wf(&self) -> bool {
        distinct_keys(self.entries@)
    }

    pub fn new() -> (s: Store)
        ensures
            s.wf(),
            s@ == Map::<Seq<char>, ValueV>::empty(),
    {
        Store { entries: Vec::new() }
    }

    /// One sweep: removes every entry whose deadline has elapsed at
    /// time `now`, and nothing else.
    pub fn clean_up(&mut self, now: u64)
        requires
            old(self).wf(),
        ensures
            final(self).wf(),
            final(self)@ == sweep_map(old(self)@, now),
    {
        let mut i: usize = 0;
        while i < self.entries.len()
            invariant
                distinct_keys(self.entries@),
                i <= self.entries@.len(),
                forall|j: int| 0 <= j < i ==> !(#[trigger] self.entries@[j]).1@.expired_at(now),
                sweep_map(entries_map(self.entries@), now) == sweep_map(old(self)@, now),
            decreases self.entries@.len() - i,
        {
            if self.entries[i].1.is_expired(now) {
                let ghost pre = self.entries@;
                proof {
                    lemma_entries_map_index(pre, i as int);
                    lemma_entries_map_remove(pre, i as int);
                    lemma_distinct_remove(pre, i as int);
                }
                self.entries.remove(i);
                proof {
                    let k = pre[i as int].0@;
                    assert(entries_map(pre)[k].expired_at(now));
                    assert(sweep_map(entries_map(pre).remove(k), now) =~= sweep_map(
                        entries_map(pre),
                        now,
                    ));
                    assert forall|j: int| 0 <= j < i implies !(#[trigger] self.entries@[j]).1@
                        .expired_at(now) by {
                        assert(self.entries@[j] == pre[j]);
                    }
                }
            } else {
                i += 1;
            }
        }
        proof {
            let s = self.entries@;
            assert forall|k: Seq<char>| #[trigger] entries_map(s).contains_key(k) implies
                !entries_map(s)[k].expired_at(now) by {
                lemma_entries_map_dom(s, k);
                let j = choose|j: int| 0 <= j < s.len() && (#[trigger] s[j]).0@ == k;
                lemma_entries_map_index(s, j);
            }
            assert(sweep_map(entries_map(s), now) =~= entries_map(s));
        }
    }

    /// Read-only lookup; reports the entry even if its deadline has
    /// passed (eviction belongs to the sweep, and the dispatch layer
    /// treats an expired entry as absent).
    pub fn get(&self, key: &str) -> (r: Option<&Value>)
        requires
            self.wf(),
        ensures
            (match r {
                Some(v) => self@.contains_key(key@) && v@ == self@[key@],
                None => !self@.contains_key(key@),
            }),
    {
        let n = self.entries.len();
        let mut i: usize = 0;
        while i < n
            invariant
                self.wf(),
                i <= n == self.entries@.len(),
                forall|j: int| 0 <= j < i ==> (#[trigger] self.entries@[j]).0@ != key@,
            decreases n - i,
        {
            if str_eq(self.entries[i].0.as_str(), key) {
                proof {
                    lemma_entries_map_index(self.entries@, i as int);
                }
                return Some(&self.entries[i].1);
            }
            i += 1;
        }
        proof {
            lemma_entries_map_absent(self.entries@, key@);
        }
        None
    }

    /// Inserts or overwrites unconditionally.
    pub fn set(&mut self, key: String, value: Value)
        requires
            old(self).wf(),
        ensures
            final(self).wf(),
            final(self)@ == old(self)@.insert(key@, value@),
    {
        let ghost s0 = self.entries@;
        let n = self.entries.len();
        let mut i: usize = 0;
        while i < n
            invariant
                self.entries@ == s0,
                s0 == old(self).entries@,
                distinct_keys(s0),
                i <= n == s0.len(),
                forall|j: int| 0 <= j < i ==> (#[trigger] s0[j]).0@ != key@,
            decreases n - i,
        {
            if str_eq(self.entries[i].0.as_str(), key.as_str()) {
                proof {
                    assert(s0[i as int].0@ == key@);
                    lemma_entries_map_remove(s0, i as int);
                }
                let ghost kv = key@;
                let ghost vv = value@;
                self.entries.remove(i);
                self.entries.push((key, value));
                proof {
                    let s2 = self.entries@;
                    assert(s2.drop_last() =~= s0.remove(i as int));
                    assert(s2.last().0@ == kv && s2.last().1@ == vv);
                    assert forall|a: int, b: int| 0 <= a < b < s2.len() implies s2[a].0@
                        != s2[b].0@ by {
                        if b < s2.len() - 1 {
                            assert(s2[a] == s0.remove(i as int)[a] && s2[b] == s0.remove(
                                i as int,
                            )[b]);
                            if a < i {
                                assert(s0.remove(i as int)[a] == s0[a]);
                            } else {
                                assert(s0.remove(i as int)[a] == s0[a + 1]);
                            }
                            if b < i {
                                assert(s0.remove(i as int)[b] == s0[b]);
                            } else {
                                assert(s0.remove(i as int)[b] == s0[b + 1]);
                            }
                        } else {
                            assert(s2[a] == s0.remove(i as int)[a]);
                            if a < i {
                                assert(s0.remove(i as int)[a] == s0[a]);
                                assert(s0[a].0@ != s0[i as int].0@);
                            } else {
                                assert(s0.remove(i as int)[a] == s0[a + 1]);
                                assert(s0[i as int].0@ != s0[a + 1].0@);
                            }
                        }
                    }
                    assert(entries_map(s2) == entries_map(s2.drop_last()).insert(kv, vv));
                    assert(entries_map(s2.drop_last()) == entries_map(s0).remove(kv));
                    assert(entries_map(s0).remove(kv).insert(kv, vv) =~= entries_map(s0).insert(
                        kv,
                        vv,
                    ));
                    assert(entries_map(s2) == entries_map(s0).insert(kv, vv));
                }
                return ;
            }
            i += 1;
        }
        self.entries.push((key, value));
        proof {
            assert(self.entries@.drop_last() =~= s0);
            assert(distinct_keys(self.entries@));
        }
    }
}

} // verus!
