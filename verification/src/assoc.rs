//! Association lists keyed by strings.
//!
//! Both parameter maps and the rate limiter's store hold their entries as a
//! vector of `(String, value)` pairs with pairwise distinct keys, viewed in
//! specifications as a `Map` from character sequences to the values' views.

use vstd::prelude::*;

use crate::text::str_eq;

verus! {

/// No two entries of the list share a key.
pub open spec fn keys_distinct<T>(s: Seq<(String, T)>) -> bool {
    forall|i: int, j: int| 0 <= i < j < s.len() ==> (#[trigger] s[i]).0@ != (#[trigger] s[j]).0@
}

/// The mapping that an association list holds; a later entry for a key
/// overrides an earlier one.
pub open spec fn assoc_map<T: View>(s: Seq<(String, T)>) -> Map<Seq<char>, T::V>
    decreases s.len(),
{
    if s.len() == 0 {
        Map::empty()
    } else {
        assoc_map(s.drop_last()).insert(s.last().0@, s.last().1@)
    }
}

/// A key is in the mapping exactly when some entry carries it.
pub proof fn lemma_assoc_map_dom<T: View>(s: Seq<(String, T)>, k: Seq<char>)
    ensures
        assoc_map(s).contains_key(k) <==> exists|i: int|
            0 <= i < s.len() && (#[trigger] s[i]).0@ == k,
    decreases s.len(),
{
    if s.len() > 0 {
        let d = s.drop_last();
        lemma_assoc_map_dom(d, k);
        if s.last().0@ == k {
            assert((s[s.len() - 1]).0@ == k);
        } else {
            if exists|i: int| 0 <= i < s.len() && (#[trigger] s[i]).0@ == k {
                let i = choose|i: int| 0 <= i < s.len() && (#[trigger] s[i]).0@ == k;
                assert(i < s.len() - 1);
                assert((d[i]).0@ == k);
            }
            if exists|i: int| 0 <= i < d.len() && (#[trigger] d[i]).0@ == k {
                let i = choose|i: int| 0 <= i < d.len() && (#[trigger] d[i]).0@ == k;
                assert((s[i]).0@ == k);
            }
        }
    }
}

/// With distinct keys, the mapping takes each entry to its own value.
pub proof fn lemma_assoc_map_index<T: View>(s: Seq<(String, T)>, i: int)
    requires
        keys_distinct(s),
        0 <= i < s.len(),
    ensures
        assoc_map(s).contains_key(s[i].0@),
        assoc_map(s)[s[i].0@] == s[i].1@,
    decreases s.len(),
{
    let last = s.len() - 1;
    if i < last {
        let d = s.drop_last();
        assert(keys_distinct(d)) by {
            assert forall|x: int, y: int| 0 <= x < y < d.len() implies (#[trigger] d[x]).0@ != (
            #[trigger] d[y]).0@ by {
                assert(d[x] == s[x] && d[y] == s[y]);
            }
        }
        assert(d[i] == s[i]);
        lemma_assoc_map_index(d, i);
        assert((s[i]).0@ != (s[last]).0@);
    }
}

/// Replacing an entry's value replaces it in the mapping.
pub proof fn lemma_assoc_map_update<T: View>(s: Seq<(String, T)>, j: int, p: (String, T))
    requires
        keys_distinct(s),
        0 <= j < s.len(),
        s[j].0@ == p.0@,
    ensures
        assoc_map(s.update(j, p)) == assoc_map(s).insert(p.0@, p.1@),
        keys_distinct(s.update(j, p)),
    decreases s.len(),
{
    let u = s.update(j, p);
    assert(keys_distinct(u)) by {
        assert forall|x: int, y: int| 0 <= x < y < u.len() implies (#[trigger] u[x]).0@ != (
        #[trigger] u[y]).0@ by {
            assert((u[x]).0@ == (s[x]).0@ && (u[y]).0@ == (s[y]).0@);
        }
    }
    let last = s.len() - 1;
    let d = s.drop_last();
    if j == last {
        assert(u.drop_last() =~= d);
        assert(u.last() == p);
        assert(assoc_map(u) == assoc_map(d).insert(p.0@, p.1@));
        assert(assoc_map(d).insert(s[j].0@, s[j].1@).insert(p.0@, p.1@) =~= assoc_map(d).insert(
            p.0@,
            p.1@,
        ));
    } else {
        assert(keys_distinct(d)) by {
            assert forall|x: int, y: int| 0 <= x < y < d.len() implies (#[trigger] d[x]).0@ != (
            #[trigger] d[y]).0@ by {
                assert(d[x] == s[x] && d[y] == s[y]);
            }
        }
        assert(d[j] == s[j]);
        lemma_assoc_map_update(d, j, p);
        assert(u.drop_last() =~= d.update(j, p));
        assert(u.last() == s.last());
        assert(assoc_map(u) == assoc_map(d).insert(p.0@, p.1@).insert(s[last].0@, s[last].1@));
        assert((s[j]).0@ != (s[last]).0@);
        assert(assoc_map(d).insert(p.0@, p.1@).insert(s[last].0@, s[last].1@) =~= assoc_map(
            d,
        ).insert(s[last].0@, s[last].1@).insert(p.0@, p.1@));
    }
}

/// Appending an entry with a fresh key inserts it into the mapping.
pub proof fn lemma_assoc_map_push<T: View>(s: Seq<(String, T)>, p: (String, T))
    requires
        keys_distinct(s),
        forall|i: int| 0 <= i < s.len() ==> (#[trigger] s[i]).0@ != p.0@,
    ensures
        assoc_map(s.push(p)) == assoc_map(s).insert(p.0@, p.1@),
        keys_distinct(s.push(p)),
{
    let u = s.push(p);
    assert(u.drop_last() =~= s);
    assert(u.last() == p);
    assert(keys_distinct(u)) by {
        assert forall|x: int, y: int| 0 <= x < y < u.len() implies (#[trigger] u[x]).0@ != (
        #[trigger] u[y]).0@ by {
            if y < u.len() - 1 {
                assert(u[x] == s[x] && u[y] == s[y]);
            } else {
                assert(u[x] == s[x] && u[y] == p);
            }
        }
    }
}

/// Find the entry that carries `key`, if any.
pub fn find_key<T>(v: &Vec<(String, T)>, key: &str) -> (r: Option<usize>)
    ensures
        match r {
            Some(j) => j < v@.len() && v@[j as int].0@ == key@,
            None => forall|i: int| 0 <= i < v@.len() ==> (#[trigger] v@[i]).0@ != key@,
        },
{
    let mut i: usize = 0;
    while i < v.len()
        invariant
            i <= v@.len(),
            forall|j: int| 0 <= j < i ==> (#[trigger] v@[j]).0@ != key@,
        decreases v@.len() - i,
    {
        if str_eq(v[i].0.as_str(), key) {
            return Some(i);
        }
        i = i + 1;
    }
    None
}

} // verus!
