//! Chronological order of log records.
//!
//! Record ids are ULIDs, whose text order is their creation order, so a
//! batch read back from an unordered store is put in order by sorting it
//! on the id. The sort is stable: records with equal ids keep their order.

use vstd::prelude::*;

use crate::log::types::{LogMessage, StoredLogMessage};
use crate::text::{lemma_text_lt_total, lemma_text_lt_transitive, str_lt, text_lt};

verus! {

broadcast use vstd::seq_lib::group_to_multiset_ensures;

/// A record with a text key.
pub trait Keyed {
    /// The key of the record.
    spec fn key_view(&self) -> Seq<char>;

    /// The key of the record.
    fn key(&self) -> (r: &str)
        ensures
            r@ == self.key_view(),
    ;
}

impl Keyed for LogMessage {
    open spec fn key_view(&self) -> Seq<char> {
        self.id@
    }

    fn key(&self) -> (r: &str) {
        self.id.as_str()
    }
}

impl Keyed for StoredLogMessage {
    open spec fn key_view(&self) -> Seq<char> {
        self.id@
    }

    fn key(&self) -> (r: &str) {
        self.id.as_str()
    }
}

/// `s` with `x` placed after every element whose key does not come after
/// the key of `x`, counted from the end.
pub open spec fn insert_by_key<T: Keyed>(s: Seq<T>, x: T) -> Seq<T>
    decreases s.len(),
{
    if s.len() == 0 {
        seq![x]
    } else if text_lt(x.key_view(), s.last().key_view()) {
        insert_by_key(s.drop_last(), x).push(s.last())
    } else {
        s.push(x)
    }
}

/// The stable sort of `s` by key.
pub open spec fn sort_by_key<T: Keyed>(s: Seq<T>) -> Seq<T>
    decreases s.len(),
{
    if s.len() == 0 {
        s
    } else {
        insert_by_key(sort_by_key(s.drop_last()), s.last())
    }
}

/// No element of `s` has a key that comes before the key of an element
/// ahead of it.
pub open spec fn sorted_by_key<T: Keyed>(s: Seq<T>) -> bool {
    forall|i: int, j: int|
        0 <= i < j < s.len() ==> !text_lt((#[trigger] s[j]).key_view(), (#[trigger] s[i]).key_view())
}

proof fn lemma_insert_by_key_at<T: Keyed>(s: Seq<T>, x: T, j: int)
    requires
        0 <= j <= s.len(),
        forall|k: int| j <= k < s.len() ==> text_lt(x.key_view(), (#[trigger] s[k]).key_view()),
        j == 0 || !text_lt(x.key_view(), s[j - 1].key_view()),
    ensures
        insert_by_key(s, x) == s.insert(j, x),
    decreases s.len(),
{
    if s.len() == 0 {
        assert(s.insert(j, x) =~= seq![x]);
    } else if j == s.len() {
        assert(s.insert(j, x) =~= s.push(x));
    } else {
        let init = s.drop_last();
        assert forall|k: int| j <= k < init.len() implies text_lt(x.key_view(), (#[trigger] init[k]).key_view()) by {
            assert(init[k] == s[k]);
        }
        assert(text_lt(x.key_view(), s[s.len() - 1].key_view()));
        lemma_insert_by_key_at(init, x, j);
        assert(init.insert(j, x).push(s.last()) =~= s.insert(j, x));
    }
}

/// Inserting adds exactly one element: the multiset of `insert_by_key(s, x)`
/// is that of `s` with `x` added.
pub proof fn lemma_insert_by_key_multiset<T: Keyed>(s: Seq<T>, x: T)
    ensures
        insert_by_key(s, x).to_multiset() == s.to_multiset().insert(x),
    decreases s.len(),
{
    if s.len() == 0 {
        assert(seq![x] =~= Seq::<T>::empty().push(x));
    } else if text_lt(x.key_view(), s.last().key_view()) {
        lemma_insert_by_key_multiset(s.drop_last(), x);
        assert(s =~= s.drop_last().push(s.last()));
        assert(insert_by_key(s, x).to_multiset() =~= s.to_multiset().insert(x));
    }
}

/// Sorting keeps every element: the sort of `s` is a permutation of `s`.
pub proof fn lemma_sort_by_key_permutes<T: Keyed>(s: Seq<T>)
    ensures
        sort_by_key(s).to_multiset() == s.to_multiset(),
    decreases s.len(),
{
    if s.len() > 0 {
        lemma_sort_by_key_permutes(s.drop_last());
        lemma_insert_by_key_multiset(sort_by_key(s.drop_last()), s.last());
        assert(s =~= s.drop_last().push(s.last()));
    }
}

proof fn lemma_insert_by_key_members<T: Keyed>(s: Seq<T>, x: T)
    ensures
        forall|i: int|
            0 <= i < insert_by_key(s, x).len() ==> #[trigger] insert_by_key(s, x)[i] == x || s.contains(
                insert_by_key(s, x)[i],
            ),
    decreases s.len(),
{
    lemma_insert_by_key_multiset(s, x);
    assert forall|i: int| 0 <= i < insert_by_key(s, x).len() implies #[trigger] insert_by_key(s, x)[i] == x
        || s.contains(insert_by_key(s, x)[i]) by {
        let y = insert_by_key(s, x)[i];
        assert(insert_by_key(s, x).contains(y));
        assert(insert_by_key(s, x).to_multiset().count(y) > 0);
        if y != x {
            assert(s.to_multiset().count(y) > 0);
        }
    }
}

/// Inserting into a sorted sequence keeps it sorted.
pub proof fn lemma_insert_by_key_sorted<T: Keyed>(s: Seq<T>, x: T)
    requires
        sorted_by_key(s),
    ensures
        sorted_by_key(insert_by_key(s, x)),
    decreases s.len(),
{
    if s.len() == 0 {
    } else if text_lt(x.key_view(), s.last().key_view()) {
        let init = s.drop_last();
        let last = s.last();
        assert(sorted_by_key(init)) by {
            assert forall|i: int, j: int| 0 <= i < j < init.len() implies !text_lt(
                (#[trigger] init[j]).key_view(),
                (#[trigger] init[i]).key_view(),
            ) by {
                assert(init[i] == s[i] && init[j] == s[j]);
            }
        }
        lemma_insert_by_key_sorted(init, x);
        lemma_insert_by_key_members(init, x);
        let ins = insert_by_key(init, x);
        let r = ins.push(last);
        assert forall|i: int, j: int| 0 <= i < j < r.len() implies !text_lt(
            (#[trigger] r[j]).key_view(),
            (#[trigger] r[i]).key_view(),
        ) by {
            if j == r.len() - 1 {
                let y = ins[i];
                assert(r[i] == y);
                if y == x {
                    lemma_text_lt_total(x.key_view(), last.key_view());
                } else {
                    assert(init.contains(y));
                    let k = choose|k: int| 0 <= k < init.len() && init[k] == y;
                    assert(s[k] == y);
                    assert(!text_lt(s[s.len() - 1].key_view(), s[k].key_view()));
                }
            } else {
                assert(r[i] == ins[i] && r[j] == ins[j]);
            }
        }
    } else {
        let r = s.push(x);
        assert forall|i: int, j: int| 0 <= i < j < r.len() implies !text_lt(
            (#[trigger] r[j]).key_view(),
            (#[trigger] r[i]).key_view(),
        ) by {
            if j == r.len() - 1 {
                assert(r[i] == s[i]);
                if i < s.len() - 1 {
                    assert(!text_lt(s[s.len() - 1].key_view(), s[i].key_view()));
                    if text_lt(x.key_view(), s[i].key_view()) {
                        lemma_text_lt_total(s[s.len() - 1].key_view(), s[i].key_view());
                        if s[s.len() - 1].key_view() != s[i].key_view() {
                            lemma_text_lt_transitive(x.key_view(), s[i].key_view(), s[s.len() - 1].key_view());
                        }
                    }
                }
            } else {
                assert(r[i] == s[i] && r[j] == s[j]);
            }
        }
    }
}

/// The sort of a sequence is sorted.
pub proof fn lemma_sort_by_key_sorted<T: Keyed>(s: Seq<T>)
    ensures
        sorted_by_key(sort_by_key(s)),
    decreases s.len(),
{
    if s.len() > 0 {
        lemma_sort_by_key_sorted(s.drop_last());
        lemma_insert_by_key_sorted(sort_by_key(s.drop_last()), s.last());
    }
}

/// Sorts records by key, keeping records with equal keys in their order.
pub fn sort_by_id<T: Keyed>(v: Vec<T>) -> (r: Vec<T>)
    ensures
        r@ == sort_by_key(v@),
        sorted_by_key(r@),
        r@.to_multiset() == v@.to_multiset(),
{
    let ghost all = v@;
    let mut out: Vec<T> = Vec::new();
    for x in it: v
        invariant
            it.seq() == all,
            out@ == sort_by_key(all.take(it.index() as int)),
    {
        proof {
            assert(all.take(it.index() + 1).drop_last() =~= all.take(it.index() as int));
            assert(all.take(it.index() + 1).last() == x);
        }
        let mut j: usize = out.len();
        while j > 0 && str_lt(x.key(), out[j - 1].key())
            invariant
                j <= out@.len(),
                forall|k: int| j <= k < out@.len() ==> text_lt(x.key_view(), (#[trigger] out@[k]).key_view()),
            decreases j,
        {
            j = j - 1;
        }
        proof {
            lemma_insert_by_key_at(out@, x, j as int);
        }
        out.insert(j, x);
    }
    proof {
        assert(all.take(all.len() as int) =~= all);
        lemma_sort_by_key_sorted(all);
        lemma_sort_by_key_permutes(all);
    }
    out
}

} // verus!
