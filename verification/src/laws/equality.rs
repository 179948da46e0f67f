//! What holds of telling whether two values are the same.

use vstd::prelude::*;
use crate::equal::same;
use crate::value::{
    Entries, JsonValue, distinct_keys, has_key, lemma_position_found, lemma_position_of_key,
    lookup, position_of_key,
};

verus! {

/// Every key of `a` is a key of `b`.
pub open spec fn keys_within(a: Entries, b: Entries) -> bool {
    forall|i: int| 0 <= i < a.len() ==> has_key(b, (#[trigger] a[i]).0)
}

/// A key that an entry has is a key of the entries.
pub proof fn lemma_key_found(entries: Entries, key: Seq<char>, at: int)
    requires
        0 <= at < entries.len(),
        entries[at].0 == key,
    ensures
        has_key(entries, key),
{
    lemma_position_of_key(entries, key);
}

/// Where the keys are distinct, the entry with a key is the first with it.
pub proof fn lemma_key_at(entries: Entries, at: int)
    requires
        distinct_keys(entries),
        0 <= at < entries.len(),
    ensures
        position_of_key(entries, entries[at].0) == at,
        lookup(entries, entries[at].0) == Some(entries[at].1),
{
    lemma_position_found(entries, entries[at].0, at);
}

/// As many distinct keys as `b` has, all of them keys of `b`, are all the
/// keys of `b`.
pub proof fn lemma_keys_both_ways(a: Entries, b: Entries)
    requires
        distinct_keys(a),
        distinct_keys(b),
        a.len() == b.len(),
        keys_within(a, b),
    ensures
        keys_within(b, a),
    decreases a.len(),
{
    if a.len() > 0 {
        let n = a.len() as int;
        let last = a[n - 1];
        assert(has_key(b, last.0));
        lemma_position_of_key(b, last.0);
        let p = position_of_key(b, last.0);
        let fewer = a.drop_last();
        let others = b.remove(p);
        assert forall|i: int, j: int| 0 <= i < j < fewer.len() implies (#[trigger] fewer[i]).0 != (
        #[trigger] fewer[j]).0 by {
            assert(fewer[i] == a[i]);
            assert(fewer[j] == a[j]);
        }
        assert forall|i: int, j: int| 0 <= i < j < others.len() implies (
        #[trigger] others[i]).0 != (#[trigger] others[j]).0 by {
            let x = if i < p {
                i
            } else {
                i + 1
            };
            let y = if j < p {
                j
            } else {
                j + 1
            };
            assert(others[i] == b[x]);
            assert(others[j] == b[y]);
        }
        assert forall|i: int| 0 <= i < fewer.len() implies has_key(
            others,
            (#[trigger] fewer[i]).0,
        ) by {
            assert(fewer[i] == a[i]);
            assert(has_key(b, a[i].0));
            lemma_position_of_key(b, a[i].0);
            let q = position_of_key(b, a[i].0);
            assert(a[i].0 != a[n - 1].0);
            let at = if q < p {
                q
            } else {
                q - 1
            };
            assert(others[at] == b[q]);
            lemma_key_found(others, a[i].0, at);
        }
        lemma_keys_both_ways(fewer, others);
        assert forall|j: int| 0 <= j < b.len() implies has_key(a, (#[trigger] b[j]).0) by {
            if j == p {
                lemma_key_found(a, b[j].0, n - 1);
            } else {
                let at = if j < p {
                    j
                } else {
                    j - 1
                };
                assert(others[at] == b[j]);
                assert(has_key(fewer, others[at].0));
                lemma_position_of_key(fewer, b[j].0);
                let r = position_of_key(fewer, b[j].0);
                assert(fewer[r] == a[r]);
                lemma_key_found(a, b[j].0, r);
            }
        }
    }
}

/// Telling whether two values are the same does not depend on which of them
/// comes first, where no object in them holds a key twice.
pub proof fn law_same_either_way(a: JsonValue, b: JsonValue)
    requires
        a.wf(),
        b.wf(),
        same(a, b),
    ensures
        same(b, a),
    decreases a,
{
    match a {
        JsonValue::Array(items) => {
            let others = b->Array_0;
            assert forall|i: int| 0 <= i < others.len() implies same(
                #[trigger] others[i],
                items[i],
            ) by {
                assert(same(items[i], others[i]));
                law_same_either_way(items[i], others[i]);
            }
        },
        JsonValue::Object(entries) => {
            let others = b->Object_0;
            assert forall|i: int| 0 <= i < entries.len() implies has_key(
                others,
                (#[trigger] entries[i]).0,
            ) by {}
            lemma_keys_both_ways(entries, others);
            assert forall|j: int| 0 <= j < others.len() implies (lookup(
                entries,
                (#[trigger] others[j]).0,
            ) matches Some(found) && same(others[j].1, found)) by {
                let key = others[j].0;
                assert(has_key(entries, key));
                lemma_position_of_key(entries, key);
                let r = position_of_key(entries, key);
                lemma_key_at(others, j);
                assert(lookup(others, entries[r].0) == Some(others[j].1));
                assert(same(entries[r].1, others[j].1));
                law_same_either_way(entries[r].1, others[j].1);
            }
        },
        _ => {},
    }
}

} // verus!
