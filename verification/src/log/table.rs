//! A small map from `(agent id, session id)` to a value, kept as a vector
//! of entries in which no key occurs twice.

use vstd::prelude::*;

use crate::text::str_eq;

verus! {

/// The key of a session: agent id and session id.
pub type SessionKey = (Seq<char>, Seq<char>);

/// One entry of a [`SessionTable`].
#[derive(Debug)]
struct Entry<V> {
    agent_id: String,
    session_id: String,
    value: V,
}

/// The key of an entry.
spec fn entry_key<V>(e: Entry<V>) -> SessionKey {
    (e.agent_id@, e.session_id@)
}

/// Whether key `k` occurs in `s`.
spec fn has_entry<V>(s: Seq<Entry<V>>, k: SessionKey) -> bool {
    exists|i: int| 0 <= i < s.len() && entry_key(#[trigger] s[i]) == k
}

/// No key occurs twice in `s`.
spec fn keys_unique<V>(s: Seq<Entry<V>>) -> bool {
    forall|i: int, j: int|
        0 <= i < s.len() && 0 <= j < s.len() && i != j ==> entry_key(#[trigger] s[i]) != entry_key(
            #[trigger] s[j],
        )
}

/// The map that the entries `s` describe.
spec fn entries_map<V>(s: Seq<Entry<V>>) -> Map<SessionKey, V> {
    Map::new(
        |k: SessionKey| has_entry(s, k),
        |k: SessionKey| s[choose|i: int| 0 <= i < s.len() && entry_key(#[trigger] s[i]) == k].value,
    )
}

/// Map from session keys to values.
#[derive(Debug)]
pub struct SessionTable<V> {
    entries: Vec<Entry<V>>,
}

impl<V> View for SessionTable<V> {
    type V = Map<SessionKey, V>;

    closed spec fn view(&self) -> Map<SessionKey, V> {
        entries_map(self.entries@)
    }
}

proof fn lemma_map_at<V>(s: Seq<Entry<V>>, i: int)
    requires
        keys_unique(s),
        0 <= i < s.len(),
    ensures
        entries_map(s).contains_key(entry_key(s[i])),
        entries_map(s)[entry_key(s[i])] == s[i].value,
{
    let k = entry_key(s[i]);
    assert(has_entry(s, k));
    let j = choose|j: int| 0 <= j < s.len() && entry_key(#[trigger] s[j]) == k;
    assert(j == i);
}

proof fn lemma_map_push<V>(s: Seq<Entry<V>>, e: Entry<V>)
    requires
        keys_unique(s),
        !has_entry(s, entry_key(e)),
    ensures
        keys_unique(s.push(e)),
        entries_map(s.push(e)) == entries_map(s).insert(entry_key(e), e.value),
{
    let t = s.push(e);
    assert forall|i: int, j: int|
        0 <= i < t.len() && 0 <= j < t.len() && i != j implies entry_key(#[trigger] t[i]) != entry_key(
        #[trigger] t[j],
    ) by {
        if i < s.len() && j < s.len() {
            assert(t[i] == s[i] && t[j] == s[j]);
        } else if i < s.len() {
            assert(t[i] == s[i]);
        } else {
            assert(t[j] == s[j]);
        }
    }
    let m1 = entries_map(t);
    let m2 = entries_map(s).insert(entry_key(e), e.value);
    assert forall|k: SessionKey| #[trigger] m1.contains_key(k) == m2.contains_key(k) by {
        if has_entry(t, k) {
            let i = choose|i: int| 0 <= i < t.len() && entry_key(#[trigger] t[i]) == k;
            if i < s.len() {
                assert(t[i] == s[i]);
            }
        }
        if has_entry(s, k) {
            let i = choose|i: int| 0 <= i < s.len() && entry_key(#[trigger] s[i]) == k;
            assert(t[i] == s[i]);
        }
        assert(t[s.len() as int] == e);
    }
    assert forall|k: SessionKey| #[trigger] m1.contains_key(k) implies m1[k] == m2[k] by {
        let i = choose|i: int| 0 <= i < t.len() && entry_key(#[trigger] t[i]) == k;
        lemma_map_at(t, i);
        if i < s.len() {
            assert(t[i] == s[i]);
            lemma_map_at(s, i);
        } else {
            assert(t[i] == e);
        }
    }
    assert(m1 =~= m2);
}

proof fn lemma_map_remove<V>(s: Seq<Entry<V>>, i: int)
    requires
        keys_unique(s),
        0 <= i < s.len(),
    ensures
        keys_unique(s.remove(i)),
        entries_map(s.remove(i)) == entries_map(s).remove(entry_key(s[i])),
        !has_entry(s.remove(i), entry_key(s[i])),
{
    let t = s.remove(i);
    let gone = entry_key(s[i]);
    assert forall|j: int| 0 <= j < t.len() implies #[trigger] t[j] == if j < i {
        s[j]
    } else {
        s[j + 1]
    } by {}
    assert forall|a: int, b: int|
        0 <= a < t.len() && 0 <= b < t.len() && a != b implies entry_key(#[trigger] t[a]) != entry_key(
        #[trigger] t[b],
    ) by {
        let a2 = if a < i {
            a
        } else {
            a + 1
        };
        let b2 = if b < i {
            b
        } else {
            b + 1
        };
        assert(t[a] == s[a2] && t[b] == s[b2]);
    }
    assert forall|j: int| 0 <= j < t.len() implies entry_key(#[trigger] t[j]) != gone by {
        let j2 = if j < i {
            j
        } else {
            j + 1
        };
        assert(t[j] == s[j2]);
    }
    let m1 = entries_map(t);
    let m2 = entries_map(s).remove(gone);
    assert forall|k: SessionKey| #[trigger] m1.contains_key(k) == m2.contains_key(k) by {
        if has_entry(t, k) {
            let j = choose|j: int| 0 <= j < t.len() && entry_key(#[trigger] t[j]) == k;
            let j2 = if j < i {
                j
            } else {
                j + 1
            };
            assert(t[j] == s[j2]);
        }
        if has_entry(s, k) && k != gone {
            let j = choose|j: int| 0 <= j < s.len() && entry_key(#[trigger] s[j]) == k;
            assert(j != i);
            let j2 = if j < i {
                j
            } else {
                j - 1
            };
            assert(t[j2] == s[j]);
        }
    }
    assert forall|k: SessionKey| #[trigger] m1.contains_key(k) implies m1[k] == m2[k] by {
        let j = choose|j: int| 0 <= j < t.len() && entry_key(#[trigger] t[j]) == k;
        lemma_map_at(t, j);
        let j2 = if j < i {
            j
        } else {
            j + 1
        };
        assert(t[j] == s[j2]);
        lemma_map_at(s, j2);
    }
    assert(m1 =~= m2);
}

impl<V> SessionTable<V> {
    /// No key occurs twice.
    pub closed spec fn wf(&self) -> bool {
        keys_unique(self.entries@)
    }

    /// An empty table.
    pub fn new() -> (r: Self)
        ensures
            r.wf(),
            r@ == Map::<SessionKey, V>::empty(),
    {
        let r = SessionTable { entries: Vec::new() };
        assert(r@ =~= Map::<SessionKey, V>::empty());
        r
    }

    fn find(&self, agent_id: &str, session_id: &str) -> (r: Option<usize>)
        ensures
            match r {
                Some(i) => i < self.entries@.len() && entry_key(self.entries@[i as int]) == (
                    agent_id@,
                    session_id@,
                ),
                None => !has_entry(self.entries@, (agent_id@, session_id@)),
            },
    {
        let mut i: usize = 0;
        while i < self.entries.len()
            invariant
                i <= self.entries@.len(),
                forall|j: int|
                    0 <= j < i ==> entry_key(#[trigger] self.entries@[j]) != (agent_id@, session_id@),
            decreases self.entries@.len() - i,
        {
            let e = &self.entries[i];
            if str_eq(e.agent_id.as_str(), agent_id) && str_eq(e.session_id.as_str(), session_id) {
                return Some(i);
            }
            i = i + 1;
        }
        None
    }

    /// The value stored under the key, if any.
    pub fn get(&self, agent_id: &str, session_id: &str) -> (r: Option<&V>)
        requires
            self.wf(),
        ensures
            match r {
                Some(v) => self@.contains_key((agent_id@, session_id@)) && self@[(
                    agent_id@,
                    session_id@,
                )] == *v,
                None => !self@.contains_key((agent_id@, session_id@)),
            },
    {
        match self.find(agent_id, session_id) {
            Some(i) => {
                proof {
                    lemma_map_at(self.entries@, i as int);
                }
                Some(&self.entries[i].value)
            },
            None => None,
        }
    }

    /// Removes the key and returns its value, if any.
    pub fn remove(&mut self, agent_id: &str, session_id: &str) -> (r: Option<V>)
        requires
            old(self).wf(),
        ensures
            final(self).wf(),
            final(self)@ == old(self)@.remove((agent_id@, session_id@)),
            match r {
                Some(v) => old(self)@.contains_key((agent_id@, session_id@)) && old(self)@[(
                    agent_id@,
                    session_id@,
                )] == v,
                None => !old(self)@.contains_key((agent_id@, session_id@)),
            },
    {
        match self.find(agent_id, session_id) {
            Some(i) => {
                proof {
                    lemma_map_at(self.entries@, i as int);
                    lemma_map_remove(self.entries@, i as int);
                }
                let e = self.entries.remove(i);
                Some(e.value)
            },
            None => {
                assert(self@.remove((agent_id@, session_id@)) =~= self@);
                None
            },
        }
    }

    /// Stores `value` under the key, replacing any previous value.
    pub fn insert(&mut self, agent_id: String, session_id: String, value: V)
        requires
            old(self).wf(),
        ensures
            final(self).wf(),
            final(self)@ == old(self)@.insert((agent_id@, session_id@), value),
    {
        let _ = self.remove(agent_id.as_str(), session_id.as_str());
        let ghost mid = self.entries@;
        let e = Entry { agent_id, session_id, value };
        proof {
            if has_entry(mid, entry_key(e)) {
                let i = choose|i: int| 0 <= i < mid.len() && entry_key(#[trigger] mid[i]) == entry_key(e);
                lemma_map_at(mid, i);
            }
            lemma_map_push(mid, e);
        }
        self.entries.push(e);
        proof {
            assert(self@ =~= old(self)@.insert((agent_id@, session_id@), value));
        }
    }
}

} // verus!
