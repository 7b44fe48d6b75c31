//! An ordered multimap used as a priority queue: every key owns a queue of
//! values, the keys are kept in order, and values under one key leave in the
//! order in which they arrived.
use crate::key_order::compare_keys;
use crate::key_order::key_lt;
use crate::key_order::lawful_key;
use crate::key_order::lemma_transitive;
use crate::key_order::lemma_trichotomy;
use crate::key_order::KeyOrder;
use std::collections::VecDeque;
use vstd::laws_eq::obeys_concrete_eq;
use vstd::prelude::*;

verus! {

/// A key together with the values queued under it, front first.
pub type Bucket<K, V> = (K, Seq<V>);

/// Some bucket of `s` has the key `k`.
pub open spec fn has_key<K, V>(s: Seq<Bucket<K, V>>, k: K) -> bool {
    exists|i: int| 0 <= i < s.len() && (#[trigger] s[i]).0 == k
}

/// The position of a bucket with the key `k`.
pub open spec fn index_of_key<K, V>(s: Seq<Bucket<K, V>>, k: K) -> int {
    choose|i: int| 0 <= i < s.len() && (#[trigger] s[i]).0 == k
}

/// The buckets as a map from key to queue.
pub open spec fn bucket_map<K, V>(s: Seq<Bucket<K, V>>) -> Map<K, Seq<V>> {
    Map::new(|k: K| has_key(s, k), |k: K| s[index_of_key(s, k)].1)
}

/// No key heads two buckets.
pub open spec fn distinct_keys<K, V>(s: Seq<Bucket<K, V>>) -> bool {
    forall|i: int, j: int| 0 <= i < j < s.len() ==> (#[trigger] s[i]).0 != (#[trigger] s[j]).0
}

/// Every bucket comes strictly before the next one.
pub open spec fn ascending<K: Ord, V>(s: Seq<Bucket<K, V>>) -> bool {
    forall|i: int, j: int|
        0 <= i < j < s.len() ==> key_lt((#[trigger] s[i]).0, (#[trigger] s[j]).0)
}

/// No bucket is empty.
pub open spec fn all_nonempty<K, V>(s: Seq<Bucket<K, V>>) -> bool {
    forall|i: int| 0 <= i < s.len() ==> (#[trigger] s[i]).1.len() > 0
}

/// The number of values in all buckets together.
pub open spec fn total_len<K, V>(s: Seq<Bucket<K, V>>) -> nat
    decreases s.len(),
{
    if s.len() == 0 {
        0
    } else {
        total_len(s.drop_last()) + s.last().1.len()
    }
}

/// The values of all buckets, bucket after bucket.
pub open spec fn flattened<K, V>(s: Seq<Bucket<K, V>>) -> Seq<V>
    decreases s.len(),
{
    if s.len() == 0 {
        Seq::empty()
    } else {
        flattened(s.drop_last()) + s.last().1
    }
}

/// The queue under `k`, empty where the map has no such key.
pub open spec fn bucket_of<K, V>(m: Map<K, Seq<V>>, k: K) -> Seq<V> {
    if m.contains_key(k) {
        m[k]
    } else {
        Seq::empty()
    }
}

/// `k` is a key of `m` and no key of `m` is smaller.
pub open spec fn is_first_key<K: Ord, V>(m: Map<K, Seq<V>>, k: K) -> bool {
    m.contains_key(k) && forall|other: K| #[trigger]
        m.contains_key(other) ==> other == k || key_lt(k, other)
}

/// `k` is a key of `m` and no key of `m` is greater.
pub open spec fn is_last_key<K: Ord, V>(m: Map<K, Seq<V>>, k: K) -> bool {
    m.contains_key(k) && forall|other: K| #[trigger]
        m.contains_key(other) ==> other == k || key_lt(other, k)
}

/// The smallest key of `m`.
pub open spec fn first_key<K: Ord, V>(m: Map<K, Seq<V>>) -> K {
    choose|k: K| is_first_key(m, k)
}

/// The greatest key of `m`.
pub open spec fn last_key<K: Ord, V>(m: Map<K, Seq<V>>) -> K {
    choose|k: K| is_last_key(m, k)
}

/// `m` after the queue under `k` lost the value at `index`; a key whose queue
/// becomes empty leaves the map.
pub open spec fn without_value<K, V>(m: Map<K, Seq<V>>, k: K, index: int) -> Map<K, Seq<V>> {
    if m[k].len() == 1 {
        m.remove(k)
    } else {
        m.insert(k, m[k].remove(index))
    }
}

/// The first position in `q` whose value equals `value`, or the length of `q`.
pub open spec fn position_of<V>(q: Seq<V>, value: V) -> int
    decreases q.len(),
{
    if q.len() == 0 {
        0
    } else if q[0] == value {
        0
    } else {
        1 + position_of(q.drop_first(), value)
    }
}

/// The number of buckets of `s` whose key is smaller than `k`.
pub open spec fn rank<K: Ord, V>(s: Seq<Bucket<K, V>>, k: K) -> int
    decreases s.len(),
{
    if s.len() == 0 {
        0
    } else {
        rank(s.drop_last(), k) + (if key_lt(s.last().0, k) {
            1int
        } else {
            0int
        })
    }
}

/// The ordered buckets after `v` joined the back of the queue of `k`.
pub open spec fn pushed_back<K: Ord, V>(s: Seq<Bucket<K, V>>, k: K, v: V) -> Seq<Bucket<K, V>> {
    let i = rank(s, k);
    if i < s.len() && s[i].0 == k {
        s.update(i, (k, s[i].1.push(v)))
    } else {
        s.insert(i, (k, seq![v]))
    }
}

/// The value that leaves next: the oldest value of the first bucket.
pub open spec fn front<K, V>(s: Seq<Bucket<K, V>>) -> Option<V> {
    if s.len() > 0 && s[0].1.len() > 0 {
        Some(s[0].1[0])
    } else {
        None
    }
}

/// The ordered buckets after the front value left.
pub open spec fn popped<K, V>(s: Seq<Bucket<K, V>>) -> Seq<Bucket<K, V>> {
    if s.len() == 0 {
        s
    } else if s[0].1.len() <= 1 {
        s.drop_first()
    } else {
        s.update(0, (s[0].0, s[0].1.drop_first()))
    }
}

/// The ordered buckets with every value replaced by its image under `f`.
pub open spec fn lifted<K, V, W>(s: Seq<Bucket<K, V>>, f: spec_fn(V) -> W) -> Seq<Bucket<K, W>> {
    Seq::new(s.len(), |i: int| (s[i].0, s[i].1.map_values(f)))
}

/// In ascending buckets the rank of a key is the place where it is or belongs.
pub proof fn lemma_rank<K: Ord, V>(s: Seq<Bucket<K, V>>, k: K, i: int)
    requires
        0 <= i <= s.len(),
        forall|j: int| 0 <= j < i ==> key_lt((#[trigger] s[j]).0, k),
        forall|j: int| i <= j < s.len() ==> !key_lt((#[trigger] s[j]).0, k),
    ensures
        rank(s, k) == i,
    decreases s.len(),
{
    if s.len() > 0 {
        let r = s.drop_last();
        assert(s.last() == s[s.len() - 1]);
        if i == s.len() {
            assert forall|j: int| 0 <= j < i - 1 implies key_lt((#[trigger] r[j]).0, k) by {
                assert(r[j] == s[j]);
            }
            lemma_rank(r, k, i - 1);
        } else {
            assert forall|j: int| 0 <= j < i implies key_lt((#[trigger] r[j]).0, k) by {
                assert(r[j] == s[j]);
            }
            assert forall|j: int| i <= j < r.len() implies !key_lt((#[trigger] r[j]).0, k) by {
                assert(r[j] == s[j]);
            }
            lemma_rank(r, k, i);
        }
    }
}

/// Replacing the values does not move a key.
pub proof fn lemma_lifted_rank<K: Ord, V, W>(s: Seq<Bucket<K, V>>, f: spec_fn(V) -> W, k: K)
    ensures
        rank(lifted(s, f), k) == rank(s, k),
    decreases s.len(),
{
    if s.len() > 0 {
        assert(lifted(s, f).drop_last() =~= lifted(s.drop_last(), f));
        lemma_lifted_rank(s.drop_last(), f, k);
    }
}

/// Pushing and then replacing the values is replacing the values and then
/// pushing the image.
pub proof fn lemma_lifted_pushed<K: Ord, V, W>(
    s: Seq<Bucket<K, V>>,
    f: spec_fn(V) -> W,
    k: K,
    v: V,
)
    ensures
        lifted(pushed_back(s, k, v), f) == pushed_back(lifted(s, f), k, f(v)),
{
    lemma_lifted_rank(s, f, k);
    let i = rank(s, k);
    lemma_rank_bounds(s, k);
    if i < s.len() && s[i].0 == k {
        assert(s[i].1.push(v).map_values(f) =~= s[i].1.map_values(f).push(f(v)));
        assert(lifted(pushed_back(s, k, v), f) =~= pushed_back(lifted(s, f), k, f(v)));
    } else {
        assert(seq![v].map_values(f) =~= seq![f(v)]);
        assert(lifted(pushed_back(s, k, v), f) =~= pushed_back(lifted(s, f), k, f(v)));
    }
}

/// A rank is a position of the sequence or its length.
pub proof fn lemma_rank_bounds<K: Ord, V>(s: Seq<Bucket<K, V>>, k: K)
    ensures
        0 <= rank(s, k) <= s.len(),
    decreases s.len(),
{
    if s.len() > 0 {
        lemma_rank_bounds(s.drop_last(), k);
    }
}

/// Popping and then replacing the values is replacing the values and then
/// popping, and the value that leaves is the image of the one that left.
pub proof fn lemma_lifted_popped<K, V, W>(s: Seq<Bucket<K, V>>, f: spec_fn(V) -> W)
    ensures
        lifted(popped(s), f) == popped(lifted(s, f)),
        front(lifted(s, f)) == (match front(s) {
            Some(v) => Some(f(v)),
            None => None,
        }),
        lifted(s, f).len() == s.len(),
{
    if s.len() > 0 {
        if s[0].1.len() > 1 {
            assert(s[0].1.drop_first().map_values(f) =~= s[0].1.map_values(f).drop_first());
        }
    }
    assert(lifted(popped(s), f) =~= popped(lifted(s, f)));
}

/// A pop that hands out a value removes one value.
pub proof fn lemma_popped_total_len<K, V>(s: Seq<Bucket<K, V>>)
    requires
        front(s) is Some,
    ensures
        total_len(popped(s)) == total_len(s) - 1,
{
    if s[0].1.len() <= 1 {
        assert(s.drop_first() =~= s.remove(0));
        lemma_total_len_remove(s, 0);
    } else {
        lemma_total_len_update(s, 0, (s[0].0, s[0].1.drop_first()));
    }
}

/// Every value of every bucket satisfies `pred`.
pub open spec fn all_values<K, V>(s: Seq<Bucket<K, V>>, pred: spec_fn(V) -> bool) -> bool {
    forall|i: int, j: int|
        0 <= i < s.len() && 0 <= j < s[i].1.len() ==> pred(#[trigger] s[i].1[j])
}

/// A push of a value that satisfies `pred` keeps `all_values`.
pub proof fn lemma_all_pushed<K: Ord, V>(s: Seq<Bucket<K, V>>, k: K, v: V, pred: spec_fn(V) -> bool)
    requires
        all_values(s, pred),
        pred(v),
    ensures
        all_values(pushed_back(s, k, v), pred),
{
    lemma_rank_bounds(s, k);
    let at = rank(s, k);
    let t = pushed_back(s, k, v);
    assert forall|i: int, j: int| 0 <= i < t.len() && 0 <= j < t[i].1.len() implies pred(
        #[trigger] t[i].1[j],
    ) by {
        if at < s.len() && s[at].0 == k {
            if i == at {
                if j < s[at].1.len() {
                    assert(t[i].1[j] == s[at].1[j]);
                }
            } else {
                assert(t[i].1[j] == s[i].1[j]);
            }
        } else {
            if i < at {
                assert(t[i].1[j] == s[i].1[j]);
            } else if i > at {
                assert(t[i].1[j] == s[i - 1].1[j]);
            }
        }
    }
}

/// A pop keeps `all_values`, and the value that leaves satisfies `pred`.
pub proof fn lemma_all_popped<K, V>(s: Seq<Bucket<K, V>>, pred: spec_fn(V) -> bool)
    requires
        all_values(s, pred),
    ensures
        all_values(popped(s), pred),
        front(s) matches Some(v) ==> pred(v),
{
    let t = popped(s);
    if s.len() > 0 {
        if s[0].1.len() > 0 {
            assert(pred(s[0].1[0]));
        }
        assert forall|i: int, j: int| 0 <= i < t.len() && 0 <= j < t[i].1.len() implies pred(
            #[trigger] t[i].1[j],
        ) by {
            if s[0].1.len() <= 1 {
                assert(t[i].1[j] == s[i + 1].1[j]);
            } else if i == 0 {
                assert(t[i].1[j] == s[0].1[j + 1]);
            } else {
                assert(t[i].1[j] == s[i].1[j]);
            }
        }
    }
}

/// With distinct keys, the map holds the queue of every bucket under its key.
pub proof fn lemma_lookup<K, V>(s: Seq<Bucket<K, V>>, i: int)
    requires
        distinct_keys(s),
        0 <= i < s.len(),
    ensures
        bucket_map(s).contains_key(s[i].0),
        bucket_map(s)[s[i].0] == s[i].1,
{
    let k = s[i].0;
    assert(has_key(s, k));
    let j = index_of_key(s, k);
    assert(0 <= j < s.len() && s[j].0 == k);
    if j < i {
        assert(s[j].0 != s[i].0);
    } else if i < j {
        assert(s[i].0 != s[j].0);
    }
}

/// Replacing the queue of a bucket replaces the queue under its key.
pub proof fn lemma_update<K, V>(s: Seq<Bucket<K, V>>, i: int, q: Seq<V>)
    requires
        distinct_keys(s),
        0 <= i < s.len(),
    ensures
        distinct_keys(s.update(i, (s[i].0, q))),
        bucket_map(s.update(i, (s[i].0, q))) == bucket_map(s).insert(s[i].0, q),
{
    let t = s.update(i, (s[i].0, q));
    assert forall|a: int, b: int| 0 <= a < b < t.len() implies (#[trigger] t[a]).0 != (
    #[trigger] t[b]).0 by {
        assert(t[a].0 == s[a].0 && t[b].0 == s[b].0);
    }
    let m1 = bucket_map(t);
    let m2 = bucket_map(s).insert(s[i].0, q);
    assert forall|k: K| m1.contains_key(k) <==> m2.contains_key(k) by {
        if has_key(t, k) {
            let j = index_of_key(t, k);
            assert(s[j].0 == k);
        }
        if has_key(s, k) {
            let j = index_of_key(s, k);
            assert(t[j].0 == k);
        }
        if k == s[i].0 {
            assert(t[i].0 == k);
        }
    }
    assert forall|k: K| m1.contains_key(k) implies m1[k] == m2[k] by {
        let j = index_of_key(t, k);
        lemma_lookup(t, j);
        if j != i {
            assert(t[j] == s[j]);
            lemma_lookup(s, j);
            if j < i {
                assert(s[j].0 != s[i].0);
            } else {
                assert(s[i].0 != s[j].0);
            }
        }
    }
    assert(m1 =~= m2);
}

/// Inserting a bucket with a new key adds its queue under that key.
pub proof fn lemma_insert<K, V>(s: Seq<Bucket<K, V>>, i: int, k: K, q: Seq<V>)
    requires
        distinct_keys(s),
        !has_key(s, k),
        0 <= i <= s.len(),
    ensures
        distinct_keys(s.insert(i, (k, q))),
        bucket_map(s.insert(i, (k, q))) == bucket_map(s).insert(k, q),
{
    let t = s.insert(i, (k, q));
    assert forall|a: int, b: int| 0 <= a < b < t.len() implies (#[trigger] t[a]).0 != (
    #[trigger] t[b]).0 by {
        let sa = if a < i {
            a
        } else {
            a - 1
        };
        let sb = if b < i {
            b
        } else {
            b - 1
        };
        if a == i {
            assert(t[b] == s[sb]);
        } else if b == i {
            assert(t[a] == s[sa]);
        } else {
            assert(t[a] == s[sa] && t[b] == s[sb]);
            assert(s[sa].0 != s[sb].0);
        }
    }
    let m1 = bucket_map(t);
    let m2 = bucket_map(s).insert(k, q);
    assert forall|x: K| m1.contains_key(x) <==> m2.contains_key(x) by {
        if has_key(t, x) {
            let j = index_of_key(t, x);
            if j < i {
                assert(t[j] == s[j]);
            } else if j > i {
                assert(t[j] == s[j - 1]);
            }
        }
        if has_key(s, x) {
            let j = index_of_key(s, x);
            if j < i {
                assert(t[j] == s[j]);
            } else {
                assert(t[j + 1] == s[j]);
            }
        }
        if x == k {
            assert(t[i].0 == k);
        }
    }
    assert forall|x: K| m1.contains_key(x) implies m1[x] == m2[x] by {
        let j = index_of_key(t, x);
        lemma_lookup(t, j);
        if j < i {
            assert(t[j] == s[j]);
            lemma_lookup(s, j);
        } else if j > i {
            assert(t[j] == s[j - 1]);
            lemma_lookup(s, j - 1);
        }
    }
    assert(m1 =~= m2);
}

/// Removing a bucket removes its key.
pub proof fn lemma_remove<K, V>(s: Seq<Bucket<K, V>>, i: int)
    requires
        distinct_keys(s),
        0 <= i < s.len(),
    ensures
        distinct_keys(s.remove(i)),
        bucket_map(s.remove(i)) == bucket_map(s).remove(s[i].0),
{
    let t = s.remove(i);
    assert forall|a: int, b: int| 0 <= a < b < t.len() implies (#[trigger] t[a]).0 != (
    #[trigger] t[b]).0 by {
        let sa = if a < i {
            a
        } else {
            a + 1
        };
        let sb = if b < i {
            b
        } else {
            b + 1
        };
        assert(t[a] == s[sa] && t[b] == s[sb]);
        assert(s[sa].0 != s[sb].0);
    }
    let m1 = bucket_map(t);
    let m2 = bucket_map(s).remove(s[i].0);
    assert forall|x: K| m1.contains_key(x) <==> m2.contains_key(x) by {
        if has_key(t, x) {
            let j = index_of_key(t, x);
            let sj = if j < i {
                j
            } else {
                j + 1
            };
            assert(t[j] == s[sj]);
            if sj < i {
                assert(s[sj].0 != s[i].0);
            } else {
                assert(s[i].0 != s[sj].0);
            }
        }
        if has_key(s, x) && x != s[i].0 {
            let j = index_of_key(s, x);
            if j < i {
                assert(t[j] == s[j]);
            } else {
                assert(t[j - 1] == s[j]);
            }
        }
    }
    assert forall|x: K| m1.contains_key(x) implies m1[x] == m2[x] by {
        let j = index_of_key(t, x);
        lemma_lookup(t, j);
        let sj = if j < i {
            j
        } else {
            j + 1
        };
        assert(t[j] == s[sj]);
        lemma_lookup(s, sj);
    }
    assert(m1 =~= m2);
}

/// Keys in strictly ascending order are distinct.
pub proof fn lemma_ascending_distinct<K: Ord, V>(s: Seq<Bucket<K, V>>)
    requires
        lawful_key::<K>(),
        ascending(s),
    ensures
        distinct_keys(s),
{
    assert forall|i: int, j: int| 0 <= i < j < s.len() implies (#[trigger] s[i]).0 != (
    #[trigger] s[j]).0 by {
        lemma_trichotomy(s[i].0, s[j].0);
    }
}

/// Replacing a bucket changes the number of values by the difference in length.
pub proof fn lemma_total_len_update<K, V>(s: Seq<Bucket<K, V>>, i: int, b: Bucket<K, V>)
    requires
        0 <= i < s.len(),
    ensures
        total_len(s.update(i, b)) == total_len(s) - s[i].1.len() + b.1.len(),
    decreases s.len(),
{
    let t = s.update(i, b);
    if i == s.len() - 1 {
        assert(t.drop_last() =~= s.drop_last());
    } else {
        assert(t.drop_last() =~= s.drop_last().update(i, b));
        lemma_total_len_update(s.drop_last(), i, b);
    }
}

/// Inserting a bucket adds the number of its values.
pub proof fn lemma_total_len_insert<K, V>(s: Seq<Bucket<K, V>>, i: int, b: Bucket<K, V>)
    requires
        0 <= i <= s.len(),
    ensures
        total_len(s.insert(i, b)) == total_len(s) + b.1.len(),
    decreases s.len(),
{
    let t = s.insert(i, b);
    if i == s.len() {
        assert(t.drop_last() =~= s);
    } else {
        assert(t.drop_last() =~= s.drop_last().insert(i, b));
        assert(t.last() == s.last());
        lemma_total_len_insert(s.drop_last(), i, b);
    }
}

/// Removing a bucket takes away the number of its values.
pub proof fn lemma_total_len_remove<K, V>(s: Seq<Bucket<K, V>>, i: int)
    requires
        0 <= i < s.len(),
    ensures
        total_len(s.remove(i)) == total_len(s) - s[i].1.len(),
    decreases s.len(),
{
    let t = s.remove(i);
    if i == s.len() - 1 {
        assert(t =~= s.drop_last());
    } else {
        assert(t.drop_last() =~= s.drop_last().remove(i));
        assert(t.last() == s.last());
        lemma_total_len_remove(s.drop_last(), i);
    }
}

/// Buckets without an empty queue hold no value only if there is no bucket.
pub proof fn lemma_total_len_zero<K, V>(s: Seq<Bucket<K, V>>)
    requires
        all_nonempty(s),
    ensures
        total_len(s) == 0 <==> s.len() == 0,
    decreases s.len(),
{
    if s.len() > 0 {
        assert(s.last() == s[s.len() - 1]);
    }
}

/// With distinct keys, the map has as many keys as there are buckets.
pub proof fn lemma_domain<K, V>(s: Seq<Bucket<K, V>>)
    requires
        distinct_keys(s),
    ensures
        bucket_map(s).dom().finite(),
        bucket_map(s).dom().len() == s.len(),
    decreases s.len(),
{
    if s.len() == 0 {
        assert(bucket_map(s).dom() =~= Set::<K>::empty());
    } else {
        let r = s.drop_last();
        assert forall|i: int, j: int| 0 <= i < j < r.len() implies (#[trigger] r[i]).0 != (
        #[trigger] r[j]).0 by {
            assert(r[i] == s[i] && r[j] == s[j]);
        }
        lemma_domain(r);
        if has_key(r, s.last().0) {
            let j = index_of_key(r, s.last().0);
            assert(r[j] == s[j]);
            assert(s[j].0 != s[s.len() - 1].0);
        }
        lemma_insert(r, r.len() as int, s.last().0, s.last().1);
        assert(r.insert(r.len() as int, s.last()) =~= s);
        assert(bucket_map(s).dom() =~= bucket_map(r).dom().insert(s.last().0));
    }
}

/// A map has at most one smallest key.
pub proof fn lemma_first_key_unique<K: Ord, V>(m: Map<K, Seq<V>>, a: K, b: K)
    requires
        lawful_key::<K>(),
        is_first_key(m, a),
        is_first_key(m, b),
    ensures
        a == b,
{
    lemma_trichotomy(a, b);
}

/// A map has at most one greatest key.
pub proof fn lemma_last_key_unique<K: Ord, V>(m: Map<K, Seq<V>>, a: K, b: K)
    requires
        lawful_key::<K>(),
        is_last_key(m, a),
        is_last_key(m, b),
    ensures
        a == b,
{
    lemma_trichotomy(a, b);
}

/// The stored buckets read from the back, each queue by its contents.
pub closed spec fn ascending_entries<K, V>(b: Seq<(K, VecDeque<V>)>) -> Seq<Bucket<K, V>> {
    Seq::new(b.len(), |i: int| (b[b.len() - 1 - i].0, b[b.len() - 1 - i].1@))
}

/// Keys in order, each with a queue of values.
///
/// `pop_first_back` takes the oldest value of the smallest key, so with a
/// score as the key the structure is a priority queue that breaks ties first
/// in, first out.
#[derive(Debug, Clone)]
pub struct BTreeKeyValues<K, V> where K: Ord {
    /// The buckets by descending key: the smallest key is the last element.
    buckets: Vec<(K, VecDeque<V>)>,
}

impl<K: Ord, V> View for BTreeKeyValues<K, V> {
    type V = Map<K, Seq<V>>;

    /// The queue of every key that is present.
    closed spec fn view(&self) -> Map<K, Seq<V>> {
        bucket_map(self.entries())
    }
}

impl<K: Ord, V> BTreeKeyValues<K, V> {
    /// The buckets by ascending key: the order of iteration.
    pub closed spec fn entries(&self) -> Seq<Bucket<K, V>> {
        ascending_entries(self.buckets@)
    }

    /// The invariant: keys strictly ascending and no queue empty.
    pub open spec fn wf(&self) -> bool {
        &&& ascending(self.entries())
        &&& distinct_keys(self.entries())
        &&& all_nonempty(self.entries())
        &&& self@ == bucket_map(self.entries())
    }

    /// The number of values held, over all keys.
    pub open spec fn count(&self) -> nat {
        total_len(self.entries())
    }

    /// An empty queue.
    pub fn new() -> (q: Self)
        ensures
            q.wf(),
            q@ == Map::<K, Seq<V>>::empty(),
            q.entries() == Seq::<Bucket<K, V>>::empty(),
            q.count() == 0,
    {
        let q = BTreeKeyValues { buckets: Vec::new() };
        proof {
            assert(q.entries() =~= Seq::<Bucket<K, V>>::empty());
            assert(q@ =~= Map::<K, Seq<V>>::empty());
        }
        q
    }

    /// The index into `buckets` of the entry at `i`.
    spec fn slot(&self, i: int) -> int {
        self.buckets@.len() - 1 - i
    }

    /// Finds where `key` is or belongs among the stored buckets.
    ///
    /// Returns the position in `buckets` and whether the key is there.
    fn find(&self, key: &K) -> (r: (usize, bool))
        requires
            lawful_key::<K>(),
            self.wf(),
        ensures
            r.0 <= self.buckets@.len(),
            forall|j: int| 0 <= j < r.0 ==> key_lt(*key, (#[trigger] self.buckets@[j]).0),
            forall|j: int|
                r.0 + (if r.1 {
                    1int
                } else {
                    0int
                }) <= j < self.buckets@.len() ==> key_lt((#[trigger] self.buckets@[j]).0, *key),
            r.1 ==> r.0 < self.buckets@.len() && self.buckets@[r.0 as int].0 == *key,
            r.1 <==> has_key(self.entries(), *key),
    {
        let mut lo: usize = 0;
        let mut hi: usize = self.buckets.len();
        while lo < hi
            invariant
                lawful_key::<K>(),
                self.wf(),
                lo <= hi <= self.buckets@.len(),
                forall|j: int| 0 <= j < lo ==> key_lt(*key, (#[trigger] self.buckets@[j]).0),
                forall|j: int|
                    hi <= j < self.buckets@.len() ==> key_lt(
                        (#[trigger] self.buckets@[j]).0,
                        *key,
                    ),
            decreases hi - lo,
        {
            let mid: usize = lo + (hi - lo) / 2;
            let order = compare_keys(key, &self.buckets[mid].0);
            proof {
                self.lemma_descending();
            }
            match order {
                KeyOrder::Equal => {
                    proof {
                        assert forall|j: int| 0 <= j < mid implies key_lt(
                            *key,
                            (#[trigger] self.buckets@[j]).0,
                        ) by {}
                        assert forall|j: int| mid + 1 <= j < self.buckets@.len() implies key_lt(
                            (#[trigger] self.buckets@[j]).0,
                            *key,
                        ) by {}
                        assert(self.entries()[self.slot(mid as int)].0 == *key);
                    }
                    return (mid, true);
                },
                KeyOrder::Less => {
                    proof {
                        assert forall|j: int| 0 <= j < mid + 1 implies key_lt(
                            *key,
                            (#[trigger] self.buckets@[j]).0,
                        ) by {
                            if j < mid {
                                lemma_transitive(*key, self.buckets@[mid as int].0, self.buckets@[j].0);
                            }
                        }
                    }
                    lo = mid + 1;
                },
                KeyOrder::Greater => {
                    proof {
                        assert forall|j: int| mid <= j < self.buckets@.len() implies key_lt(
                            (#[trigger] self.buckets@[j]).0,
                            *key,
                        ) by {
                            if j > mid {
                                lemma_transitive(self.buckets@[j].0, self.buckets@[mid as int].0, *key);
                            }
                        }
                    }
                    hi = mid;
                },
            }
        }
        proof {
            if has_key(self.entries(), *key) {
                let i = index_of_key(self.entries(), *key);
                let j = self.slot(i);
                assert(self.buckets@[j].0 == *key);
                lemma_trichotomy(*key, *key);
            }
        }
        (lo, false)
    }

    /// The stored buckets descend: a later one has the smaller key.
    proof fn lemma_descending(&self)
        requires
            self.wf(),
        ensures
            forall|i: int, j: int|
                0 <= i < j < self.buckets@.len() ==> key_lt(
                    (#[trigger] self.buckets@[j]).0,
                    (#[trigger] self.buckets@[i]).0,
                ),
            forall|i: int|
                0 <= i < self.buckets@.len() ==> (#[trigger] self.buckets@[i]).1@.len() > 0,
    {
        let e = self.entries();
        let n = self.buckets@.len() as int;
        assert forall|i: int, j: int| 0 <= i < j < n implies key_lt(
            (#[trigger] self.buckets@[j]).0,
            (#[trigger] self.buckets@[i]).0,
        ) by {
            assert(e[n - 1 - j].0 == self.buckets@[j].0);
            assert(e[n - 1 - i].0 == self.buckets@[i].0);
        }
        assert forall|i: int| 0 <= i < n implies (#[trigger] self.buckets@[i]).1@.len() > 0 by {
            assert(e[n - 1 - i].1 == self.buckets@[i].1@);
        }
    }

    /// Appends `value` to the queue of `key`, creating the queue if the key is new.
    pub fn push_back(&mut self, key: K, value: V)
        requires
            lawful_key::<K>(),
            old(self).wf(),
        ensures
            final(self).wf(),
            final(self)@ == old(self)@.insert(key, bucket_of(old(self)@, key).push(value)),
            final(self).entries() == pushed_back(old(self).entries(), key, value),
            final(self).count() == old(self).count() + 1,
    {
        let (idx, found) = self.find(&key);
        let ghost old_e = self.entries();
        let ghost n = self.buckets@.len() as int;
        proof {
            lemma_ascending_distinct(old_e);
            let i = if found {
                n - 1 - idx
            } else {
                n - idx
            };
            assert forall|j: int| 0 <= j < i implies key_lt((#[trigger] old_e[j]).0, key) by {
                assert(old_e[j].0 == self.buckets@[n - 1 - j].0);
            }
            assert forall|j: int| i <= j < old_e.len() implies !key_lt(
                (#[trigger] old_e[j]).0,
                key,
            ) by {
                assert(old_e[j].0 == self.buckets@[n - 1 - j].0);
                lemma_trichotomy(old_e[j].0, key);
            }
            lemma_rank(old_e, key, i);
            if found {
                assert(old_e[i].0 == self.buckets@[idx as int].0);
            } else if i < old_e.len() {
                assert(old_e[i].0 == self.buckets@[n - 1 - i].0);
                lemma_trichotomy(old_e[i].0, key);
            }
        }
        if found {
            self.buckets[idx].1.push_back(value);
            proof {
                let i = n - 1 - idx;
                let q = old_e[i].1.push(value);
                assert(self.entries() =~= old_e.update(i, (old_e[i].0, q)));
                lemma_update(old_e, i, q);
                lemma_lookup(old_e, i);
                lemma_total_len_update(old_e, i, (old_e[i].0, q));
                assert forall|a: int, b: int| 0 <= a < b < self.entries().len() implies key_lt(
                    (#[trigger] self.entries()[a]).0,
                    (#[trigger] self.entries()[b]).0,
                ) by {
                    assert(self.entries()[a].0 == old_e[a].0);
                    assert(self.entries()[b].0 == old_e[b].0);
                }
                assert forall|a: int| 0 <= a < self.entries().len() implies (
                #[trigger] self.entries()[a]).1.len() > 0 by {
                    if a != i {
                        assert(self.entries()[a] == old_e[a]);
                    }
                }
            }
        } else {
            let mut q = VecDeque::new();
            q.push_back(value);
            self.buckets.insert(idx, (key, q));
            proof {
                let i = n - idx;
                let b = (key, seq![value]);
                assert(seq![value] =~= Seq::<V>::empty().push(value));
                assert(self.entries() =~= old_e.insert(i, b));
                lemma_insert(old_e, i, key, seq![value]);
                lemma_total_len_insert(old_e, i, b);
                let t = self.entries();
                assert forall|a: int, c: int| 0 <= a < c < t.len() implies key_lt(
                    (#[trigger] t[a]).0,
                    (#[trigger] t[c]).0,
                ) by {
                    if a == i {
                        assert(t[c] == old_e[c - 1]);
                        assert(old_e[c - 1].0 == old(self).buckets@[n - 1 - (c - 1)].0);
                    } else if c == i {
                        assert(t[a] == old_e[a]);
                        assert(old_e[a].0 == old(self).buckets@[n - 1 - a].0);
                    } else {
                        let sa = if a < i {
                            a
                        } else {
                            a - 1
                        };
                        let sc = if c < i {
                            c
                        } else {
                            c - 1
                        };
                        assert(t[a] == old_e[sa] && t[c] == old_e[sc]);
                    }
                }
                assert forall|a: int| 0 <= a < t.len() implies (#[trigger] t[a]).1.len() > 0 by {
                    if a < i {
                        assert(t[a] == old_e[a]);
                    } else if a > i {
                        assert(t[a] == old_e[a - 1]);
                    }
                }
            }
        }
    }

    /// Puts `value` at the front of the queue of `key`, creating the queue if
    /// the key is new.
    pub fn push_front(&mut self, key: K, value: V)
        requires
            lawful_key::<K>(),
            old(self).wf(),
        ensures
            final(self).wf(),
            final(self)@ == old(self)@.insert(key, seq![value] + bucket_of(old(self)@, key)),
            final(self).count() == old(self).count() + 1,
    {
        let (idx, found) = self.find(&key);
        let ghost old_e = self.entries();
        let ghost n = self.buckets@.len() as int;
        proof {
            lemma_ascending_distinct(old_e);
        }
        if found {
            self.buckets[idx].1.push_front(value);
            proof {
                let i = n - 1 - idx;
                let q = seq![value] + old_e[i].1;
                assert(self.entries() =~= old_e.update(i, (old_e[i].0, q)));
                lemma_update(old_e, i, q);
                lemma_lookup(old_e, i);
                lemma_total_len_update(old_e, i, (old_e[i].0, q));
                assert forall|a: int, b: int| 0 <= a < b < self.entries().len() implies key_lt(
                    (#[trigger] self.entries()[a]).0,
                    (#[trigger] self.entries()[b]).0,
                ) by {
                    assert(self.entries()[a].0 == old_e[a].0);
                    assert(self.entries()[b].0 == old_e[b].0);
                }
                assert forall|a: int| 0 <= a < self.entries().len() implies (
                #[trigger] self.entries()[a]).1.len() > 0 by {
                    if a != i {
                        assert(self.entries()[a] == old_e[a]);
                    }
                }
            }
        } else {
            let mut q = VecDeque::new();
            q.push_front(value);
            self.buckets.insert(idx, (key, q));
            proof {
                let i = n - idx;
                let b = (key, seq![value]);
                assert(seq![value] =~= seq![value] + Seq::<V>::empty());
                assert(self.entries() =~= old_e.insert(i, b));
                lemma_insert(old_e, i, key, seq![value]);
                lemma_total_len_insert(old_e, i, b);
                let t = self.entries();
                assert forall|a: int, c: int| 0 <= a < c < t.len() implies key_lt(
                    (#[trigger] t[a]).0,
                    (#[trigger] t[c]).0,
                ) by {
                    if a == i {
                        assert(t[c] == old_e[c - 1]);
                        assert(old_e[c - 1].0 == old(self).buckets@[n - 1 - (c - 1)].0);
                    } else if c == i {
                        assert(t[a] == old_e[a]);
                        assert(old_e[a].0 == old(self).buckets@[n - 1 - a].0);
                    } else {
                        let sa = if a < i {
                            a
                        } else {
                            a - 1
                        };
                        let sc = if c < i {
                            c
                        } else {
                            c - 1
                        };
                        assert(t[a] == old_e[sa] && t[c] == old_e[sc]);
                    }
                }
                assert forall|a: int| 0 <= a < t.len() implies (#[trigger] t[a]).1.len() > 0 by {
                    if a < i {
                        assert(t[a] == old_e[a]);
                    } else if a > i {
                        assert(t[a] == old_e[a - 1]);
                    }
                }
            }
        }
    }

    /// The first entry's key is the smallest key of the view.
    proof fn lemma_first_entry(&self)
        requires
            lawful_key::<K>(),
            self.wf(),
            self.entries().len() > 0,
        ensures
            is_first_key(self@, self.entries()[0].0),
            first_key(self@) == self.entries()[0].0,
            self@[self.entries()[0].0] == self.entries()[0].1,
    {
        let e = self.entries();
        lemma_lookup(e, 0);
        assert forall|other: K| #[trigger] self@.contains_key(other) implies other == e[0].0
            || key_lt(e[0].0, other) by {
            let j = index_of_key(e, other);
            if j != 0 {
                assert(key_lt(e[0].0, e[j].0));
            }
        }
        assert(is_first_key(self@, e[0].0));
        lemma_first_key_unique(self@, first_key(self@), e[0].0);
    }

    /// The last entry's key is the greatest key of the view.
    proof fn lemma_last_entry(&self)
        requires
            lawful_key::<K>(),
            self.wf(),
            self.entries().len() > 0,
        ensures
            is_last_key(self@, self.entries().last().0),
            last_key(self@) == self.entries().last().0,
            self@[self.entries().last().0] == self.entries().last().1,
    {
        let e = self.entries();
        let n = e.len() as int;
        lemma_lookup(e, n - 1);
        assert forall|other: K| #[trigger] self@.contains_key(other) implies other == e[n - 1].0
            || key_lt(other, e[n - 1].0) by {
            let j = index_of_key(e, other);
            if j != n - 1 {
                assert(key_lt(e[j].0, e[n - 1].0));
            }
        }
        assert(is_last_key(self@, e[n - 1].0));
        lemma_last_key_unique(self@, last_key(self@), e[n - 1].0);
    }

    /// What holds after the value at `pos` left the queue of the entry at `i`.
    proof fn lemma_value_removed(old_e: Seq<Bucket<K, V>>, new_e: Seq<Bucket<K, V>>, i: int, pos: int)
        requires
            ascending(old_e),
            distinct_keys(old_e),
            all_nonempty(old_e),
            0 <= i < old_e.len(),
            0 <= pos < old_e[i].1.len(),
            old_e[i].1.len() == 1 ==> new_e == old_e.remove(i),
            old_e[i].1.len() != 1 ==> new_e == old_e.update(
                i,
                (old_e[i].0, old_e[i].1.remove(pos)),
            ),
        ensures
            ascending(new_e),
            distinct_keys(new_e),
            all_nonempty(new_e),
            bucket_map(new_e) == without_value(bucket_map(old_e), old_e[i].0, pos),
            total_len(new_e) == total_len(old_e) - 1,
    {
        lemma_lookup(old_e, i);
        if old_e[i].1.len() == 1 {
            lemma_remove(old_e, i);
            lemma_total_len_remove(old_e, i);
            assert forall|a: int, b: int| 0 <= a < b < new_e.len() implies key_lt(
                (#[trigger] new_e[a]).0,
                (#[trigger] new_e[b]).0,
            ) by {
                let sa = if a < i {
                    a
                } else {
                    a + 1
                };
                let sb = if b < i {
                    b
                } else {
                    b + 1
                };
                assert(new_e[a] == old_e[sa] && new_e[b] == old_e[sb]);
            }
            assert forall|a: int| 0 <= a < new_e.len() implies (#[trigger] new_e[a]).1.len()
                > 0 by {
                let sa = if a < i {
                    a
                } else {
                    a + 1
                };
                assert(new_e[a] == old_e[sa]);
            }
        } else {
            let q = old_e[i].1.remove(pos);
            lemma_update(old_e, i, q);
            lemma_total_len_update(old_e, i, (old_e[i].0, q));
            assert forall|a: int, b: int| 0 <= a < b < new_e.len() implies key_lt(
                (#[trigger] new_e[a]).0,
                (#[trigger] new_e[b]).0,
            ) by {
                assert(new_e[a].0 == old_e[a].0);
                assert(new_e[b].0 == old_e[b].0);
            }
            assert forall|a: int| 0 <= a < new_e.len() implies (#[trigger] new_e[a]).1.len()
                > 0 by {
                if a != i {
                    assert(new_e[a] == old_e[a]);
                }
            }
        }
    }

    /// Removes and returns the oldest value of the smallest key.
    ///
    /// Returns `None` exactly when nothing is queued. A key whose queue
    /// becomes empty leaves the map.
    pub fn pop_first_back(&mut self) -> (r: Option<V>)
        requires
            lawful_key::<K>(),
            old(self).wf(),
        ensures
            final(self).wf(),
            r == front(old(self).entries()),
            final(self).entries() == popped(old(self).entries()),
            r is None <==> old(self)@ == Map::<K, Seq<V>>::empty(),
            r is None ==> final(self)@ == old(self)@ && final(self).count() == old(self).count(),
            r matches Some(v) ==> {
                let k = first_key(old(self)@);
                &&& is_first_key(old(self)@, k)
                &&& old(self)@[k].len() > 0
                &&& v == old(self)@[k][0]
                &&& final(self)@ == without_value(old(self)@, k, 0)
                &&& final(self).count() == old(self).count() - 1
            },
    {
        let n = self.buckets.len();
        let ghost old_e = self.entries();
        if n == 0 {
            proof {
                assert(self@ =~= Map::<K, Seq<V>>::empty());
            }
            return None;
        }
        proof {
            self.lemma_first_entry();
            self.lemma_descending();
            assert(old_e[0].1 == self.buckets@[n - 1].1@);
        }
        if self.buckets[n - 1].1.len() == 1 {
            let last = self.buckets.pop();
            proof {
                assert(self.entries() =~= old_e.remove(0));
                assert(old_e.remove(0) =~= old_e.drop_first());
                Self::lemma_value_removed(old_e, self.entries(), 0, 0);
            }
            match last {
                Some((_, mut q)) => q.pop_front(),
                None => None,
            }
        } else {
            let r = self.buckets[n - 1].1.pop_front();
            proof {
                assert(old_e[0].1.subrange(1, old_e[0].1.len() as int) =~= old_e[0].1.remove(0));
                assert(old_e[0].1.remove(0) =~= old_e[0].1.drop_first());
                assert(self.entries() =~= old_e.update(0, (old_e[0].0, old_e[0].1.remove(0))));
                Self::lemma_value_removed(old_e, self.entries(), 0, 0);
            }
            r
        }
    }

    /// Removes and returns the oldest value of the greatest key.
    ///
    /// Returns `None` exactly when nothing is queued. A key whose queue
    /// becomes empty leaves the map.
    pub fn pop_last_back(&mut self) -> (r: Option<V>)
        requires
            lawful_key::<K>(),
            old(self).wf(),
        ensures
            final(self).wf(),
            r is None <==> old(self)@ == Map::<K, Seq<V>>::empty(),
            r is None ==> final(self)@ == old(self)@ && final(self).count() == old(self).count(),
            r matches Some(v) ==> {
                let k = last_key(old(self)@);
                &&& is_last_key(old(self)@, k)
                &&& old(self)@[k].len() > 0
                &&& v == old(self)@[k][0]
                &&& final(self)@ == without_value(old(self)@, k, 0)
                &&& final(self).count() == old(self).count() - 1
            },
    {
        let n = self.buckets.len();
        let ghost old_e = self.entries();
        if n == 0 {
            proof {
                assert(self@ =~= Map::<K, Seq<V>>::empty());
            }
            return None;
        }
        proof {
            self.lemma_last_entry();
            self.lemma_descending();
            assert(old_e.last().1 == self.buckets@[0].1@);
        }
        if self.buckets[0].1.len() == 1 {
            let (_, mut q) = self.buckets.remove(0);
            proof {
                assert(self.entries() =~= old_e.remove(n - 1));
                Self::lemma_value_removed(old_e, self.entries(), n - 1, 0);
            }
            q.pop_front()
        } else {
            let r = self.buckets[0].1.pop_front();
            proof {
                let q = old_e[n - 1].1;
                assert(q.subrange(1, q.len() as int) =~= q.remove(0));
                assert(self.entries() =~= old_e.update(n - 1, (old_e[n - 1].0, q.remove(0))));
                Self::lemma_value_removed(old_e, self.entries(), n - 1, 0);
            }
            r
        }
    }

    /// Removes the first value equal to `value` from the queue of `key`.
    ///
    /// Returns the removed value, or `None` where the key is absent or its
    /// queue holds no such value. A key whose queue becomes empty leaves the
    /// map.
    pub fn remove(&mut self, key: &K, value: &V) -> (r: Option<V>) where V: PartialEq
        requires
            lawful_key::<K>(),
            obeys_concrete_eq::<V>(),
            old(self).wf(),
        ensures
            final(self).wf(),
            r is Some <==> old(self)@.contains_key(*key) && position_of(old(self)@[*key], *value)
                < old(self)@[*key].len(),
            r is None ==> final(self)@ == old(self)@ && final(self).count() == old(self).count(),
            r matches Some(v) ==> {
                let i = position_of(old(self)@[*key], *value);
                &&& v == old(self)@[*key][i]
                &&& v == *value
                &&& final(self)@ == without_value(old(self)@, *key, i)
                &&& final(self).count() == old(self).count() - 1
            },
    {
        let (idx, found) = self.find(key);
        if !found {
            return None;
        }
        let ghost old_e = self.entries();
        let ghost n = self.buckets@.len() as int;
        let ghost i = n - 1 - idx;
        let ghost q = old_e[i].1;
        proof {
            lemma_lookup(old_e, i);
            self.lemma_descending();
            assert(q == self.buckets@[idx as int].1@);
        }
        let len = self.buckets[idx].1.len();
        let mut pos: usize = 0;
        let mut hit = false;
        while pos < len && !hit
            invariant
                obeys_concrete_eq::<V>(),
                idx < self.buckets@.len(),
                q == self.buckets@[idx as int].1@,
                len == q.len(),
                pos <= len,
                hit ==> pos < len && q[pos as int] == *value,
                forall|j: int| 0 <= j < pos ==> q[j] != *value,
            decreases len - pos + (if hit { 0int } else { 1int }),
        {
            proof {
                reveal(obeys_concrete_eq);
            }
            if self.buckets[idx].1[pos] == *value {
                hit = true;
            } else {
                pos = pos + 1;
            }
        }
        proof {
            lemma_position_of(q, *value, pos as int);
        }
        if !hit {
            return None;
        }
        if len == 1 {
            let (_, mut bucket) = self.buckets.remove(idx);
            proof {
                assert(self.entries() =~= old_e.remove(i));
                Self::lemma_value_removed(old_e, self.entries(), i, pos as int);
            }
            bucket.remove(pos)
        } else {
            let r = self.buckets[idx].1.remove(pos);
            proof {
                assert(self.entries() =~= old_e.update(i, (old_e[i].0, q.remove(pos as int))));
                Self::lemma_value_removed(old_e, self.entries(), i, pos as int);
            }
            r
        }
    }

    /// The smallest key and the oldest value queued under it.
    pub fn first_key_value(&self) -> (r: Option<(&K, &V)>)
        requires
            lawful_key::<K>(),
            self.wf(),
        ensures
            r is None <==> self@ == Map::<K, Seq<V>>::empty(),
            r matches Some(kv) ==> {
                &&& is_first_key(self@, *kv.0)
                &&& *kv.0 == first_key(self@)
                &&& self@[*kv.0].len() > 0
                &&& *kv.1 == self@[*kv.0][0]
            },
    {
        let n = self.buckets.len();
        if n == 0 {
            proof {
                assert(self@ =~= Map::<K, Seq<V>>::empty());
            }
            return None;
        }
        proof {
            self.lemma_first_entry();
            self.lemma_descending();
            assert(self.entries()[0].1 == self.buckets@[n - 1].1@);
        }
        Some((&self.buckets[n - 1].0, &self.buckets[n - 1].1[0]))
    }

    /// The number of keys.
    pub fn len(&self) -> (r: usize)
        requires
            self.wf(),
        ensures
            r == self@.dom().len(),
            r == self.entries().len(),
    {
        proof {
            lemma_domain(self.entries());
        }
        self.buckets.len()
    }

    /// Whether nothing is queued.
    pub fn is_empty(&self) -> (r: bool)
        requires
            self.wf(),
        ensures
            r <==> self@ == Map::<K, Seq<V>>::empty(),
            r <==> self.count() == 0,
    {
        proof {
            lemma_total_len_zero(self.entries());
            if self.buckets@.len() == 0 {
                assert(self@ =~= Map::<K, Seq<V>>::empty());
            } else {
                lemma_lookup(self.entries(), 0);
            }
        }
        self.buckets.len() == 0
    }

    /// Every key with its queue, by ascending key.
    pub fn iter(&self) -> (r: Vec<(&K, &VecDeque<V>)>)
        ensures
            r@.len() == self.entries().len(),
            forall|i: int|
                0 <= i < r@.len() ==> *(#[trigger] r@[i]).0 == self.entries()[i].0 && r@[i].1@
                    == self.entries()[i].1,
    {
        let n = self.buckets.len();
        let mut out: Vec<(&K, &VecDeque<V>)> = Vec::new();
        let mut i: usize = 0;
        while i < n
            invariant
                n == self.buckets@.len(),
                i <= n,
                out@.len() == i,
                forall|j: int|
                    0 <= j < i ==> *(#[trigger] out@[j]).0 == self.entries()[j].0 && out@[j].1@
                        == self.entries()[j].1,
            decreases n - i,
        {
            out.push((&self.buckets[n - 1 - i].0, &self.buckets[n - 1 - i].1));
            i = i + 1;
        }
        out
    }

    /// Every key with its queue, by ascending key, each queue open to change.
    ///
    /// The keys stay as they are; what the caller leaves in a queue is what
    /// the key holds afterwards. The invariant holds again if no queue is
    /// left empty.
    pub fn iter_mut(&mut self) -> (r: Vec<(&K, &mut VecDeque<V>)>)
        ensures
            r@.len() == old(self).entries().len(),
            forall|i: int|
                0 <= i < r@.len() ==> *(#[trigger] r@[i]).0 == old(self).entries()[i].0 && r@[i].1@
                    == old(self).entries()[i].1,
            final(self).entries().len() == old(self).entries().len(),
            forall|i: int|
                0 <= i < r@.len() ==> (#[trigger] final(self).entries()[i]).0 == old(
                    self,
                ).entries()[i].0 && final(self).entries()[i].1 == final(r@[i].1)@,
            old(self).wf() && (forall|i: int|
                0 <= i < r@.len() ==> final((#[trigger] r@[i]).1)@.len() > 0) ==> final(self).wf(),
    {
        let ghost orig = self.buckets@;
        let ghost n = self.buckets@.len() as int;
        let mut out: Vec<(&K, &mut VecDeque<V>)> = Vec::new();
        let mut rest: &mut [(K, VecDeque<V>)] = self.buckets.as_mut_slice();
        let ghost fin = final(rest)@;
        proof {
            assert(fin =~= final(rest)@ + Seq::<(K, VecDeque<V>)>::empty());
        }
        while rest.len() > 0
            invariant
                n == orig.len(),
                out@.len() + rest@.len() == n,
                rest@ == orig.subrange(0, rest@.len() as int),
                forall|i: int|
                    0 <= i < out@.len() ==> *(#[trigger] out@[i]).0 == orig[n - 1 - i].0
                        && *out@[i].1 == orig[n - 1 - i].1,
                after_borrow(self.buckets)@ == fin,
                fin == final(rest)@ + Seq::new(
                    out@.len(),
                    |k: int| (orig[rest@.len() + k].0, *final(out@[out@.len() - 1 - k].1)),
                ),
            decreases rest@.len(),
        {
            let m = rest.len();
            let ghost tail = Seq::new(
                out@.len(),
                |k: int| (orig[rest@.len() + k].0, *final(out@[out@.len() - 1 - k].1)),
            );
            let (front, last) = rest.split_at_mut(m - 1);
            let ghost last_fin = final(last)@;
            match last.first_mut() {
                Some(item) => {
                    out.push((&item.0, &mut item.1));
                },
                None => {},
            }
            rest = front;
            proof {
                let longer = Seq::new(
                    out@.len(),
                    |k: int| (orig[rest@.len() + k].0, *final(out@[out@.len() - 1 - k].1)),
                );
                assert(last_fin.len() == 1);
                assert(last_fin + tail =~= longer);
                assert(fin =~= final(rest)@ + longer);
            }
        }
        let _ = rest.first_mut();
        proof {
            let after = ascending_entries(fin);
            let before = ascending_entries(orig);
            assert(fin.len() == n);
            assert forall|i: int| 0 <= i < n implies (#[trigger] after[i]).0 == before[i].0
                && after[i].1 == final(out@[i].1)@ by {
                assert(fin[n - 1 - i] == (orig[n - 1 - i].0, *final(out@[i].1)));
            }
            assert forall|i: int, j: int| old(self).wf() && 0 <= i < j < after.len() implies key_lt(
                (#[trigger] after[i]).0,
                (#[trigger] after[j]).0,
            ) by {
                assert(key_lt(before[i].0, before[j].0));
            }
            assert forall|i: int, j: int| old(self).wf() && 0 <= i < j < after.len() implies (
            #[trigger] after[i]).0 != (#[trigger] after[j]).0 by {
                assert(before[i].0 != before[j].0);
            }
        }
        out
    }

    /// The keys from `from` up to, not including, `to`, each with its queue,
    /// by ascending key.
    pub fn range(&self, from: &K, to: &K) -> (r: Vec<(&K, &VecDeque<V>)>)
        requires
            lawful_key::<K>(),
            self.wf(),
        ensures
            r@.len() == in_range(self.entries(), *from, *to).len(),
            forall|i: int|
                0 <= i < r@.len() ==> *(#[trigger] r@[i]).0 == in_range(
                    self.entries(),
                    *from,
                    *to,
                )[i].0 && r@[i].1@ == in_range(self.entries(), *from, *to)[i].1,
    {
        let n = self.buckets.len();
        let mut out: Vec<(&K, &VecDeque<V>)> = Vec::new();
        let mut i: usize = 0;
        let ghost e = self.entries();
        while i < n
            invariant
                lawful_key::<K>(),
                n == self.buckets@.len(),
                e == self.entries(),
                i <= n,
                out@.len() == in_range(e.subrange(0, i as int), *from, *to).len(),
                forall|j: int|
                    0 <= j < out@.len() ==> *(#[trigger] out@[j]).0 == in_range(
                        e.subrange(0, i as int),
                        *from,
                        *to,
                    )[j].0 && out@[j].1@ == in_range(e.subrange(0, i as int), *from, *to)[j].1,
            decreases n - i,
        {
            let key = &self.buckets[n - 1 - i].0;
            proof {
                assert(e.subrange(0, i + 1).drop_last() =~= e.subrange(0, i as int));
                assert(e.subrange(0, i + 1).last() == e[i as int]);
                assert(e[i as int].0 == *key);
                lemma_trichotomy(*key, *from);
                lemma_trichotomy(*key, *to);
            }
            let low = compare_keys(key, from);
            let high = compare_keys(key, to);
            if low != KeyOrder::Less && high == KeyOrder::Less {
                out.push((key, &self.buckets[n - 1 - i].1));
            }
            i = i + 1;
        }
        proof {
            assert(e.subrange(0, n as int) =~= e);
        }
        out
    }

    /// The keys from `from` up to, not including, `to`, by ascending key,
    /// each with its queue open to change.
    ///
    /// The keys stay as they are, and so do the queues of the keys outside
    /// the range; what the caller leaves in a queue of the range is what its
    /// key holds afterwards. The invariant holds again if no queue is left
    /// empty.
    pub fn range_mut(&mut self, from: &K, to: &K) -> (r: Vec<(&K, &mut VecDeque<V>)>)
        requires
            lawful_key::<K>(),
        ensures
            r@.len() == in_range(old(self).entries(), *from, *to).len(),
            forall|i: int|
                0 <= i < r@.len() ==> *(#[trigger] r@[i]).0 == in_range(
                    old(self).entries(),
                    *from,
                    *to,
                )[i].0 && r@[i].1@ == in_range(old(self).entries(), *from, *to)[i].1,
            final(self).entries().len() == old(self).entries().len(),
            forall|i: int|
                0 <= i < old(self).entries().len() ==> (#[trigger] final(self).entries()[i]).0
                    == old(self).entries()[i].0,
            forall|i: int|
                0 <= i < old(self).entries().len() && !is_within(
                    old(self).entries()[i].0,
                    *from,
                    *to,
                ) ==> (#[trigger] final(self).entries()[i]).1 == old(self).entries()[i].1,
            forall|i: int|
                0 <= i < old(self).entries().len() && is_within(
                    old(self).entries()[i].0,
                    *from,
                    *to,
                ) ==> (#[trigger] final(self).entries()[i]).1
                    == final(r@[count_within(old(self).entries(), *from, *to, i)].1)@,
            old(self).wf() && (forall|i: int|
                0 <= i < r@.len() ==> final((#[trigger] r@[i]).1)@.len() > 0) ==> final(self).wf(),
    {
        let ghost orig = self.buckets@;
        let ghost n = self.buckets@.len() as int;
        let ghost e = self.entries();
        let mut out: Vec<(&K, &mut VecDeque<V>)> = Vec::new();
        let mut rest: &mut [(K, VecDeque<V>)] = self.buckets.as_mut_slice();
        let ghost fin = final(rest)@;
        proof {
            assert(fin =~= final(rest)@ + Seq::<(K, VecDeque<V>)>::empty());
            assert(e.take(0) =~= Seq::<Bucket<K, V>>::empty());
        }
        while rest.len() > 0
            invariant
                lawful_key::<K>(),
                n == orig.len(),
                e == ascending_entries(orig),
                rest@.len() <= n,
                rest@ == orig.subrange(0, rest@.len() as int),
                out@.len() == count_within(e, *from, *to, n - rest@.len()),
                forall|i: int|
                    0 <= i < out@.len() ==> *(#[trigger] out@[i]).0 == in_range(
                        e.take(n - rest@.len()),
                        *from,
                        *to,
                    )[i].0 && out@[i].1@ == in_range(e.take(n - rest@.len()), *from, *to)[i].1,
                after_borrow(self.buckets)@ == fin,
                fin == final(rest)@ + Seq::new(
                    (n - rest@.len()) as nat,
                    |k: int|
                        if is_within(orig[rest@.len() + k].0, *from, *to) {
                            (
                                orig[rest@.len() + k].0,
                                *final(out@[count_within(e, *from, *to, n - 1 - (rest@.len() + k))].1),
                            )
                        } else {
                            orig[rest@.len() + k]
                        },
                ),
            decreases rest@.len(),
        {
            let m = rest.len();
            let ghost p = n - m;
            let ghost tail = Seq::new(
                (n - rest@.len()) as nat,
                |k: int|
                    if is_within(orig[rest@.len() + k].0, *from, *to) {
                        (
                            orig[rest@.len() + k].0,
                            *final(out@[count_within(e, *from, *to, n - 1 - (rest@.len() + k))].1),
                        )
                    } else {
                        orig[rest@.len() + k]
                    },
            );
            let ghost held = out@;
            let (front, last) = rest.split_at_mut(m - 1);
            let ghost last_fin = final(last)@;
            proof {
                assert(e.take(p + 1).drop_last() =~= e.take(p));
                assert(e.take(p + 1).last() == e[p]);
                assert(e[p].0 == orig[m - 1].0);
                lemma_trichotomy(orig[m - 1].0, *from);
                lemma_trichotomy(orig[m - 1].0, *to);
            }
            match last.first_mut() {
                Some(item) => {
                    let low = compare_keys(&item.0, from);
                    let high = compare_keys(&item.0, to);
                    if low != KeyOrder::Less && high == KeyOrder::Less {
                        out.push((&item.0, &mut item.1));
                    }
                },
                None => {},
            }
            rest = front;
            proof {
                let longer = Seq::new(
                    (n - rest@.len()) as nat,
                    |k: int|
                        if is_within(orig[rest@.len() + k].0, *from, *to) {
                            (
                                orig[rest@.len() + k].0,
                                *final(out@[count_within(e, *from, *to, n - 1 - (rest@.len() + k))].1),
                            )
                        } else {
                            orig[rest@.len() + k]
                        },
                );
                assert(last_fin.len() == 1);
                assert forall|k: int| 0 <= k < tail.len() implies longer[k + 1] == tail[k] by {
                    let at = n - 1 - (m + k);
                    if is_within(orig[m + k].0, *from, *to) {
                        assert(e[at].0 == orig[m + k].0);
                        lemma_count_within_step(e, *from, *to, at);
                        lemma_count_within_grows(e, *from, *to, at + 1, p);
                        assert(count_within(e, *from, *to, at) < held.len());
                        assert(out@[count_within(e, *from, *to, at)] == held[count_within(
                            e,
                            *from,
                            *to,
                            at,
                        )]);
                    }
                }
                assert(longer[0] == last_fin[0]);
                assert(last_fin + tail =~= longer);
                assert(fin =~= final(rest)@ + longer);
            }
        }
        let _ = rest.first_mut();
        proof {
            let after = ascending_entries(fin);
            assert(fin.len() == n);
            assert(e.take(n) =~= e);
            assert forall|i: int| 0 <= i < n implies (#[trigger] after[i]).0 == e[i].0 && (
            !is_within(e[i].0, *from, *to) ==> after[i].1 == e[i].1) && (is_within(
                e[i].0,
                *from,
                *to,
            ) ==> after[i].1 == final(out@[count_within(e, *from, *to, i)].1)@) by {
                assert(e[i].0 == orig[n - 1 - i].0);
            }
            assert forall|i: int, j: int| old(self).wf() && 0 <= i < j < after.len() implies key_lt(
                (#[trigger] after[i]).0,
                (#[trigger] after[j]).0,
            ) by {
                assert(key_lt(e[i].0, e[j].0));
            }
            assert forall|i: int, j: int| old(self).wf() && 0 <= i < j < after.len() implies (
            #[trigger] after[i]).0 != (#[trigger] after[j]).0 by {
                assert(e[i].0 != e[j].0);
            }
            assert forall|i: int|
                old(self).wf() && 0 <= i < after.len() && (forall|k: int|
                    0 <= k < out@.len() ==> final((#[trigger] out@[k]).1)@.len() > 0) implies (
            #[trigger] after[i]).1.len() > 0 by {
                if is_within(e[i].0, *from, *to) {
                    lemma_count_within_step(e, *from, *to, i);
                    lemma_count_within_grows(e, *from, *to, i + 1, n);
                    assert(final(out@[count_within(e, *from, *to, i)].1)@.len() > 0);
                } else {
                    assert(e[i].1.len() > 0);
                }
            }
        }
        out
    }

    /// Removes every key.
    pub fn clear(&mut self)
        ensures
            final(self).wf(),
            final(self)@ == Map::<K, Seq<V>>::empty(),
            final(self).count() == 0,
    {
        self.buckets.clear();
        proof {
            assert(self.entries() =~= Seq::<Bucket<K, V>>::empty());
            assert(self@ =~= Map::<K, Seq<V>>::empty());
        }
    }

    /// All values in the order in which `pop_first_back` would hand them out.
    #[verifier::loop_isolation(false)]
    pub fn into_vec(self) -> (r: Vec<V>)
        ensures
            r@ == flattened(self.entries()),
    {
        let ghost e = self.entries();
        let mut buckets = self.buckets;
        let mut out: Vec<V> = Vec::new();
        let ghost mut done: int = 0;
        loop
            invariant
                0 <= done <= e.len(),
                buckets@.len() == e.len() - done,
                forall|j: int|
                    0 <= j < buckets@.len() ==> e[e.len() - 1 - j].0 == (#[trigger] buckets@[j]).0
                        && e[e.len() - 1 - j].1 == buckets@[j].1@,
                out@ == flattened(e.subrange(0, done)),
            decreases e.len() - done,
        {
            let last = buckets.pop();
            match last {
                None => {
                    proof {
                        assert(e.subrange(0, done) =~= e);
                    }
                    return out;
                },
                Some((_, mut q)) => {
                    let ghost before = out@;
                    let ghost whole = q@;
                    assert(whole == e[done].1);
                    loop
                        invariant
                            out@ + q@ == before + whole,
                        decreases q@.len(),
                    {
                        match q.pop_front() {
                            None => {
                                break ;
                            },
                            Some(v) => {
                                let ghost rest = q@;
                                let ghost prev = out@;
                                out.push(v);
                                assert(out@ + rest =~= prev + (seq![v] + rest));
                            },
                        }
                    }
                    proof {
                        assert(q@.len() == 0);
                        assert(out@ =~= before + whole);
                        assert(e.subrange(0, done + 1).drop_last() =~= e.subrange(0, done));
                        assert(e.subrange(0, done + 1).last() == e[done]);
                        done = done + 1;
                    }
                },
            }
        }
    }
}

impl<K: Ord, V> Default for BTreeKeyValues<K, V> {
    /// An empty queue.
    fn default() -> (q: Self)
        ensures
            q.wf(),
            q@ == Map::<K, Seq<V>>::empty(),
            q.count() == 0,
    {
        BTreeKeyValues::new()
    }
}

impl<K: Ord, V> From<BTreeKeyValues<K, V>> for Vec<V> {
    /// The same as `into_vec`.
    fn from(map: BTreeKeyValues<K, V>) -> (r: Vec<V>)
        ensures
            r@ == flattened(map.entries()),
    {
        map.into_vec()
    }
}

impl<K: Ord, V> vstd::std_specs::convert::FromSpecImpl<BTreeKeyValues<K, V>> for Vec<V> {
    /// Two vectors with the same contents need not be the same value, so the
    /// result is described by the `ensures` of `from`, not by `from_spec`.
    open spec fn obeys_from_spec() -> bool {
        false
    }

    /// Not used: see `obeys_from_spec`.
    open spec fn from_spec(map: BTreeKeyValues<K, V>) -> Vec<V> {
        arbitrary()
    }
}

/// The key is at least `from` and below `to`.
pub open spec fn is_within<K: Ord>(k: K, from: K, to: K) -> bool {
    !key_lt(k, from) && key_lt(k, to)
}

/// How many of the first `i` buckets of `s` have a key that is at least
/// `from` and below `to`.
pub open spec fn count_within<K: Ord, V>(s: Seq<Bucket<K, V>>, from: K, to: K, i: int) -> int {
    in_range(s.take(i), from, to).len() as int
}

/// One bucket more counts one more if its key is within, else the same.
pub proof fn lemma_count_within_step<K: Ord, V>(s: Seq<Bucket<K, V>>, from: K, to: K, i: int)
    requires
        0 <= i < s.len(),
    ensures
        count_within(s, from, to, i + 1) == count_within(s, from, to, i) + (if is_within(
            s[i].0,
            from,
            to,
        ) {
            1int
        } else {
            0int
        }),
{
    assert(s.take(i + 1).drop_last() =~= s.take(i));
    assert(s.take(i + 1).last() == s[i]);
}

/// More buckets never count fewer.
pub proof fn lemma_count_within_grows<K: Ord, V>(
    s: Seq<Bucket<K, V>>,
    from: K,
    to: K,
    i: int,
    j: int,
)
    requires
        0 <= i <= j <= s.len(),
    ensures
        count_within(s, from, to, i) <= count_within(s, from, to, j),
    decreases j - i,
{
    if i < j {
        lemma_count_within_step(s, from, to, j - 1);
        lemma_count_within_grows(s, from, to, i, j - 1);
    }
}

/// The buckets of `s` whose key is at least `from` and below `to`, in the
/// order of `s`.
pub open spec fn in_range<K: Ord, V>(s: Seq<Bucket<K, V>>, from: K, to: K) -> Seq<Bucket<K, V>>
    decreases s.len(),
{
    if s.len() == 0 {
        Seq::empty()
    } else if !key_lt(s.last().0, from) && key_lt(s.last().0, to) {
        in_range(s.drop_last(), from, to).push(s.last())
    } else {
        in_range(s.drop_last(), from, to)
    }
}

/// `position_of` is the first position that holds the value.
pub proof fn lemma_position_of<V>(q: Seq<V>, value: V, pos: int)
    requires
        0 <= pos <= q.len(),
        forall|j: int| 0 <= j < pos ==> q[j] != value,
        pos < q.len() ==> q[pos] == value,
    ensures
        position_of(q, value) == pos,
    decreases q.len(),
{
    if q.len() > 0 && pos > 0 {
        let rest = q.drop_first();
        assert(q[0] != value);
        assert forall|j: int| 0 <= j < pos - 1 implies rest[j] != value by {
            assert(rest[j] == q[j + 1]);
        }
        lemma_position_of(rest, value, pos - 1);
    }
}

/// A value pushed at the back never overtakes what is already queued: the
/// next value to leave is the one that would have left before the push,
/// unless the new key is smaller than every key present.
pub proof fn lemma_push_never_overtakes<K: Ord, V>(m: Map<K, Seq<V>>, key: K, value: V)
    requires
        lawful_key::<K>(),
        exists|k: K| is_first_key(m, k),
        m[first_key(m)].len() > 0,
    ensures
        ({
            let after = m.insert(key, bucket_of(m, key).push(value));
            let before_first = first_key(m);
            &&& is_first_key(after, first_key(after))
            &&& key_lt(key, before_first) ==> first_key(after) == key && after[key][0] == value
            &&& !key_lt(key, before_first) ==> first_key(after) == before_first
                && after[before_first][0] == m[before_first][0]
        }),
{
    let after = m.insert(key, bucket_of(m, key).push(value));
    let f = first_key(m);
    assert(is_first_key(m, f));
    lemma_trichotomy(key, f);
    if key_lt(key, f) {
        assert(!m.contains_key(key)) by {
            if m.contains_key(key) {
                lemma_trichotomy(f, key);
            }
        }
        assert forall|other: K| #[trigger] after.contains_key(other) implies other == key
            || key_lt(key, other) by {
            if other != key {
                if other != f {
                    lemma_transitive(key, f, other);
                }
            }
        }
        assert(is_first_key(after, key));
        lemma_first_key_unique(after, first_key(after), key);
    } else {
        assert forall|other: K| #[trigger] after.contains_key(other) implies other == f
            || key_lt(f, other) by {
            if other == key {
            } else {
                assert(m.contains_key(other));
            }
        }
        assert(is_first_key(after, f));
        lemma_first_key_unique(after, first_key(after), f);
    }
}

/// When the last value under a key leaves, the key leaves with it; otherwise
/// the key stays and the next value moves to the front.
pub proof fn lemma_popped_key_leaves<K, V>(m: Map<K, Seq<V>>, k: K)
    requires
        m.contains_key(k),
        m[k].len() > 0,
    ensures
        m[k].len() == 1 ==> !without_value(m, k, 0).contains_key(k),
        m[k].len() > 1 ==> without_value(m, k, 0).contains_key(k) && without_value(m, k, 0)[k]
            == m[k].drop_first(),
        forall|other: K|
            other != k ==> (without_value(m, k, 0).contains_key(other) <==> m.contains_key(other)),
        forall|other: K|
            other != k && m.contains_key(other) ==> without_value(m, k, 0)[other] == m[other],
{
    if m[k].len() > 1 {
        assert(m[k].remove(0) =~= m[k].drop_first());
    }
}

} // verus!
