//! First-match lookup in association lists, the spec-level shape of the
//! loader's caches.

use vstd::prelude::*;

verus! {

/// The value bound to `key` by the first matching entry, if any.
pub open spec fn alist_find<K, V>(s: Seq<(K, V)>, key: K) -> Option<V>
    decreases s.len(),
{
    if s.len() == 0 {
        None
    } else if s[0].0 == key {
        Some(s[0].1)
    } else {
        alist_find(s.drop_first(), key)
    }
}

/// A found value comes from some entry; a miss means no entry has the key.
pub proof fn lemma_find_witness<K, V>(s: Seq<(K, V)>, key: K)
    ensures
        match alist_find(s, key) {
            Some(v) => exists|i: int| 0 <= i < s.len() && s[i] == (key, v),
            None => forall|i: int| 0 <= i < s.len() ==> (#[trigger] s[i]).0 != key,
        },
    decreases s.len(),
{
    if s.len() > 0 {
        if s[0].0 == key {
            assert(s[0] == (key, s[0].1));
        } else {
            lemma_find_witness(s.drop_first(), key);
            match alist_find(s.drop_first(), key) {
                Some(v) => {
                    let i = choose|i: int|
                        0 <= i < s.drop_first().len() && s.drop_first()[i] == (key, v);
                    assert(s[i + 1] == (key, v));
                }
                None => {
                    assert forall|i: int| 0 <= i < s.len() implies (#[trigger] s[i]).0 != key by {
                        if i > 0 {
                            assert(s.drop_first()[i - 1] == s[i]);
                        }
                    }
                }
            }
        }
    }
}

/// Appending an entry never disturbs a key that is already bound, and binds a
/// fresh key to the appended value.
pub proof fn lemma_find_push<K, V>(s: Seq<(K, V)>, key: K, k2: K, v: V)
    ensures
        alist_find(s.push((k2, v)), key) == (if alist_find(s, key) is Some {
            alist_find(s, key)
        } else if k2 == key {
            Some(v)
        } else {
            None
        }),
    decreases s.len(),
{
    if s.len() == 0 {
        assert(s.push((k2, v)).drop_first() =~= Seq::<(K, V)>::empty());
    } else {
        assert(s.push((k2, v)).drop_first() =~= s.drop_first().push((k2, v)));
        lemma_find_push(s.drop_first(), key, k2, v);
    }
}

/// Scanning may start after any prefix free of the key.
pub proof fn lemma_find_skip<K, V>(s: Seq<(K, V)>, key: K, i: int)
    requires
        0 <= i <= s.len(),
        forall|j: int| 0 <= j < i ==> (#[trigger] s[j]).0 != key,
    ensures
        alist_find(s, key) == alist_find(s.skip(i), key),
    decreases i,
{
    if i == 0 {
        assert(s.skip(0) =~= s);
    } else {
        assert(alist_find(s, key) == alist_find(s.drop_first(), key));
        assert(s.drop_first() =~= s.skip(1));
        assert(forall|j: int|
            0 <= j < i - 1 ==> (#[trigger] s.skip(1)[j]).0 != key && s.skip(1)[j] == s[j + 1]);
        lemma_find_skip(s.skip(1), key, i - 1);
        assert(s.skip(1).skip(i - 1) =~= s.skip(i));
    }
}

} // verus!
