//! Vectors of entries under string keys, no key twice, seen as maps from the
//! key's characters to the value's view.

use vstd::prelude::*;

verus! {

/// A value under a string key.
#[derive(Debug)]
pub struct Keyed<V> {
    pub(crate) key: String,
    pub(crate) value: V,
}

/// No two entries share a key.
pub(crate) open spec fn keys_unique<V>(s: Seq<Keyed<V>>) -> bool {
    forall|i: int, j: int| 0 <= i < j < s.len() ==> (#[trigger] s[i]).key@ != (#[trigger] s[j]).key@
}

/// Some entry has key `k`.
pub(crate) open spec fn has_key<V>(s: Seq<Keyed<V>>, k: Seq<char>) -> bool {
    exists|i: int| 0 <= i < s.len() && (#[trigger] s[i]).key@ == k
}

/// The entries as a map.
pub(crate) open spec fn map_of<V: View>(s: Seq<Keyed<V>>) -> Map<Seq<char>, V::V> {
    Map::new(
        |k: Seq<char>| has_key(s, k),
        |k: Seq<char>| s[choose|i: int| 0 <= i < s.len() && (#[trigger] s[i]).key@ == k].value@,
    )
}

pub(crate) proof fn lemma_map_at<V: View>(s: Seq<Keyed<V>>, i: int)
    requires
        keys_unique(s),
        0 <= i < s.len(),
    ensures
        map_of(s).contains_key(s[i].key@),
        map_of(s)[s[i].key@] == s[i].value@,
{
    let k = s[i].key@;
    assert(has_key(s, k));
    let c = choose|c: int| 0 <= c < s.len() && (#[trigger] s[c]).key@ == k;
    if c != i {
        assert(s[c].key@ == s[i].key@);
    }
}

/// Replacing an entry by one under the same key updates that key.
pub(crate) proof fn lemma_map_update<V: View>(s: Seq<Keyed<V>>, i: int, x: Keyed<V>)
    requires
        keys_unique(s),
        0 <= i < s.len(),
        x.key@ == s[i].key@,
    ensures
        keys_unique(s.update(i, x)),
        map_of(s.update(i, x)) == map_of(s).insert(x.key@, x.value@),
{
    let n = s.update(i, x);
    assert forall|a: int, b: int| 0 <= a < b < n.len() implies (#[trigger] n[a]).key@ != (#[trigger] n[b]).key@ by {
        assert(n[a].key@ == s[a].key@);
        assert(n[b].key@ == s[b].key@);
    }
    assert forall|k: Seq<char>| has_key(n, k) <==> has_key(s, k) by {
        if has_key(n, k) {
            let c = choose|c: int| 0 <= c < n.len() && (#[trigger] n[c]).key@ == k;
            assert(s[c].key@ == k);
        }
        if has_key(s, k) {
            let c = choose|c: int| 0 <= c < s.len() && (#[trigger] s[c]).key@ == k;
            assert(n[c].key@ == k);
        }
    }
    assert forall|k: Seq<char>| #[trigger] map_of(n).contains_key(k) && k != x.key@ implies map_of(n)[k] == map_of(s)[k] by {
        let c = choose|c: int| 0 <= c < n.len() && (#[trigger] n[c]).key@ == k;
        assert(c != i);
        lemma_map_at(n, c);
        lemma_map_at(s, c);
    }
    lemma_map_at(n, i);
    assert(map_of(n) =~= map_of(s).insert(x.key@, x.value@));
}

/// Inserting an entry under a new key, anywhere, adds that key.
pub(crate) proof fn lemma_map_insert<V: View>(s: Seq<Keyed<V>>, p: int, x: Keyed<V>)
    requires
        keys_unique(s),
        !has_key(s, x.key@),
        0 <= p <= s.len(),
    ensures
        keys_unique(s.insert(p, x)),
        map_of(s.insert(p, x)) == map_of(s).insert(x.key@, x.value@),
{
    let n = s.insert(p, x);
    assert forall|a: int, b: int| 0 <= a < b < n.len() implies (#[trigger] n[a]).key@ != (#[trigger] n[b]).key@ by {
        let sa = if a < p { a } else { a - 1 };
        let sb = if b < p { b } else { b - 1 };
        if a != p && b != p {
            assert(n[a] == s[sa]);
            assert(n[b] == s[sb]);
        } else if a == p {
            assert(n[b] == s[sb]);
        } else {
            assert(n[a] == s[sa]);
        }
    }
    assert forall|k: Seq<char>| has_key(n, k) <==> (has_key(s, k) || k == x.key@) by {
        if has_key(n, k) {
            let c = choose|c: int| 0 <= c < n.len() && (#[trigger] n[c]).key@ == k;
            if c < p {
                assert(s[c] == n[c]);
            } else if c > p {
                assert(s[c - 1] == n[c]);
            }
        }
        if has_key(s, k) {
            let c = choose|c: int| 0 <= c < s.len() && (#[trigger] s[c]).key@ == k;
            if c < p {
                assert(n[c] == s[c]);
            } else {
                assert(n[c + 1] == s[c]);
            }
        }
        if k == x.key@ {
            assert(n[p] == x);
        }
    }
    assert forall|k: Seq<char>| #[trigger] map_of(n).contains_key(k) && k != x.key@ implies map_of(n)[k] == map_of(s)[k] by {
        let c = choose|c: int| 0 <= c < s.len() && (#[trigger] s[c]).key@ == k;
        let j = if c < p { c } else { c + 1 };
        assert(n[j] == s[c]);
        lemma_map_at(n, j);
        lemma_map_at(s, c);
    }
    lemma_map_at(n, p);
    assert(map_of(n) =~= map_of(s).insert(x.key@, x.value@));
}

/// Position of the entry under `key`, by a linear scan.
pub(crate) fn position<V>(s: &Vec<Keyed<V>>, key: &str) -> (r: Option<usize>)
    ensures
        match r {
            Some(i) => i < s@.len() && s@[i as int].key@ == key@,
            None => !has_key(s@, key@),
        },
{
    let wanted = key.to_owned();
    let mut i: usize = 0;
    while i < s.len()
        invariant
            wanted@ == key@,
            i <= s@.len(),
            forall|k: int| 0 <= k < i ==> (#[trigger] s@[k]).key@ != key@,
        decreases s@.len() - i,
    {
        if s[i].key == wanted {
            return Some(i);
        }
        i = i + 1;
    }
    None
}

} // verus!
