//! Typed accessors for URL path and query parameters.
//!
//! Both types hold string keys and string values and offer the same
//! interface: raw access to a value and parsed access as an integer or a
//! boolean. A constructor takes the key-value pairs in order, a later pair
//! for a key overriding an earlier one, as repeated insertion into a map
//! would.

use vstd::prelude::*;

use crate::assoc::assoc_map;
use crate::assoc::find_key;
use crate::assoc::keys_distinct;
use crate::assoc::lemma_assoc_map_dom;
use crate::assoc::lemma_assoc_map_index;
use crate::assoc::lemma_assoc_map_push;
use crate::assoc::lemma_assoc_map_update;
use crate::parse::parse_bool;
use crate::parse::parse_bool_spec;
use crate::parse::parse_i32;
use crate::parse::parse_i32_spec;
use crate::parse::parse_i64;
use crate::parse::parse_i64_spec;
use crate::parse::parse_u32;
use crate::parse::parse_u32_spec;
use crate::parse::parse_u64;
use crate::parse::parse_u64_spec;

verus! {

/// Path parameters extracted from the URL.
///
/// For a route `/users/:id/:name` accessed as `/users/42/alice`, `get("id")`
/// returns the string `42` and `get_u64("id")` the number 42.
#[derive(Debug)]
pub struct PathParams {
    pairs: Vec<(String, String)>,
}

impl PathParams {
    /// The key-value mapping held.
    pub closed spec fn entries(self) -> Map<Seq<char>, Seq<char>> {
        assoc_map(self.pairs@)
    }

    #[verifier::type_invariant]
    spec fn wf(self) -> bool {
        keys_distinct(self.pairs@)
    }

    /// Build from key-value pairs; a later pair for a key overrides an
    /// earlier one.
    pub fn new(pairs: Vec<(String, String)>) -> (r: Self)
        ensures
            r.entries() == assoc_map(pairs@),
    {
        let ghost orig = pairs@;
        let mut rest = pairs;
        let mut out: Vec<(String, String)> = Vec::new();
        while rest.len() > 0
            invariant
                rest@.len() <= orig.len(),
                rest@ == orig.subrange(orig.len() - rest@.len(), orig.len() as int),
                keys_distinct(out@),
                assoc_map(out@) == assoc_map(orig.take(orig.len() - rest@.len())),
            decreases rest@.len(),
        {
            let ghost k: int = orig.len() - rest@.len();
            let p = rest.remove(0);
            proof {
                assert(p == orig[k]);
                assert(rest@ =~= orig.subrange(orig.len() - rest@.len(), orig.len() as int));
            }
            let ghost out0 = out@;
            match find_key(&out, p.0.as_str()) {
                Some(j) => {
                    let prior = out.remove(j);
                    let entry = (prior.0, p.1);
                    out.insert(j, entry);
                    proof {
                        assert(out@ =~= out0.update(j as int, entry));
                        lemma_assoc_map_update(out0, j as int, entry);
                    }
                },
                None => {
                    out.push(p);
                    proof {
                        lemma_assoc_map_push(out0, p);
                    }
                },
            }
            proof {
                assert(orig.take(k + 1).drop_last() =~= orig.take(k));
                assert(orig.take(k + 1).last() == orig[k]);
            }
        }
        proof {
            assert(orig.take(orig.len() as int) =~= orig);
        }
        PathParams { pairs: out }
    }

    /// An empty parameter set.
    pub fn empty() -> (r: Self)
        ensures
            r.entries() == Map::<Seq<char>, Seq<char>>::empty(),
    {
        PathParams { pairs: Vec::new() }
    }

    /// The value stored under `key`, as a string slice.
    pub fn get(&self, key: &str) -> (r: Option<&str>)
        ensures
            match r {
                Some(v) => self.entries().contains_key(key@) && v@ == self.entries()[key@],
                None => !self.entries().contains_key(key@),
            },
    {
        proof {
            use_type_invariant(&*self);
        }
        match find_key(&self.pairs, key) {
            Some(j) => {
                proof {
                    lemma_assoc_map_index(self.pairs@, j as int);
                }
                Some(self.pairs[j].1.as_str())
            },
            None => {
                proof {
                    lemma_assoc_map_dom(self.pairs@, key@);
                }
                None
            },
        }
    }

    /// The value stored under `key`, as an owned string.
    pub fn get_string(&self, key: &str) -> (r: Option<String>)
        ensures
            match r {
                Some(v) => self.entries().contains_key(key@) && v@ == self.entries()[key@],
                None => !self.entries().contains_key(key@),
            },
    {
        proof {
            use_type_invariant(&*self);
        }
        match find_key(&self.pairs, key) {
            Some(j) => {
                proof {
                    lemma_assoc_map_index(self.pairs@, j as int);
                }
                Some(self.pairs[j].1.clone())
            },
            None => {
                proof {
                    lemma_assoc_map_dom(self.pairs@, key@);
                }
                None
            },
        }
    }

    /// The value stored under `key`, parsed as a `u64`.
    pub fn get_u64(&self, key: &str) -> (r: Option<u64>)
        ensures
            r == (if self.entries().contains_key(key@) {
                parse_u64_spec(self.entries()[key@])
            } else {
                None::<u64>
            }),
    {
        match self.get(key) {
            Some(v) => parse_u64(v),
            None => None,
        }
    }

    /// The value stored under `key`, parsed as an `i64`.
    pub fn get_i64(&self, key: &str) -> (r: Option<i64>)
        ensures
            r == (if self.entries().contains_key(key@) {
                parse_i64_spec(self.entries()[key@])
            } else {
                None::<i64>
            }),
    {
        match self.get(key) {
            Some(v) => parse_i64(v),
            None => None,
        }
    }

    /// The value stored under `key`, parsed as a `u32`.
    pub fn get_u32(&self, key: &str) -> (r: Option<u32>)
        ensures
            r == (if self.entries().contains_key(key@) {
                parse_u32_spec(self.entries()[key@])
            } else {
                None::<u32>
            }),
    {
        match self.get(key) {
            Some(v) => parse_u32(v),
            None => None,
        }
    }

    /// The value stored under `key`, parsed as an `i32`.
    pub fn get_i32(&self, key: &str) -> (r: Option<i32>)
        ensures
            r == (if self.entries().contains_key(key@) {
                parse_i32_spec(self.entries()[key@])
            } else {
                None::<i32>
            }),
    {
        match self.get(key) {
            Some(v) => parse_i32(v),
            None => None,
        }
    }

    /// The value stored under `key`, parsed as a boolean.
    pub fn get_bool(&self, key: &str) -> (r: Option<bool>)
        ensures
            r == (if self.entries().contains_key(key@) {
                parse_bool_spec(self.entries()[key@])
            } else {
                None::<bool>
            }),
    {
        match self.get(key) {
            Some(v) => parse_bool(v),
            None => None,
        }
    }

    /// Whether a value is stored under `key`.
    pub fn contains(&self, key: &str) -> (r: bool)
        ensures
            r == self.entries().contains_key(key@),
    {
        proof {
            use_type_invariant(&*self);
        }
        match find_key(&self.pairs, key) {
            Some(j) => {
                proof {
                    lemma_assoc_map_index(self.pairs@, j as int);
                }
                true
            },
            None => {
                proof {
                    lemma_assoc_map_dom(self.pairs@, key@);
                }
                false
            },
        }
    }

    /// All stored keys, each exactly once, in unspecified order.
    pub fn keys(&self) -> (r: Vec<&str>)
        ensures
            forall|i: int, j: int| 0 <= i < j < r@.len() ==> (#[trigger] r@[i])@ != (
            #[trigger] r@[j])@,
            forall|k: Seq<char>| #[trigger]
                self.entries().contains_key(k) <==> exists|i: int|
                    0 <= i < r@.len() && (#[trigger] r@[i])@ == k,
    {
        proof {
            use_type_invariant(&*self);
        }
        let mut r: Vec<&str> = Vec::new();
        let mut i: usize = 0;
        while i < self.pairs.len()
            invariant
                i <= self.pairs@.len(),
                r@.len() == i,
                forall|j: int| 0 <= j < i ==> (#[trigger] r@[j])@ == self.pairs@[j].0@,
            decreases self.pairs@.len() - i,
        {
            r.push(self.pairs[i].0.as_str());
            i = i + 1;
        }
        proof {
            assert forall|k: Seq<char>| #[trigger]
                self.entries().contains_key(k) <==> exists|i: int|
                    0 <= i < r@.len() && (#[trigger] r@[i])@ == k by {
                lemma_assoc_map_dom(self.pairs@, k);
                if self.entries().contains_key(k) {
                    let w = choose|w: int|
                        0 <= w < self.pairs@.len() && (#[trigger] self.pairs@[w]).0@ == k;
                    assert((r@[w])@ == k);
                }
                if exists|i: int| 0 <= i < r@.len() && (#[trigger] r@[i])@ == k {
                    let w = choose|w: int| 0 <= w < r@.len() && (#[trigger] r@[w])@ == k;
                    assert((self.pairs@[w]).0@ == k);
                }
            }
        }
        r
    }
}

impl Clone for PathParams {
    /// A copy that holds the same mapping.
    fn clone(&self) -> (r: Self)
        ensures
            r.entries() == self.entries(),
    {
        proof {
            use_type_invariant(&*self);
        }
        let mut pairs: Vec<(String, String)> = Vec::new();
        let mut i: usize = 0;
        while i < self.pairs.len()
            invariant
                i <= self.pairs@.len(),
                pairs@ == self.pairs@.take(i as int),
            decreases self.pairs@.len() - i,
        {
            let key = self.pairs[i].0.clone();
            let value = self.pairs[i].1.clone();
            pairs.push((key, value));
            proof {
                assert((key, value) =~= self.pairs@[i as int]);
                assert(pairs@ =~= self.pairs@.take(i + 1));
            }
            i = i + 1;
        }
        proof {
            assert(pairs@ =~= self.pairs@);
        }
        PathParams { pairs }
    }
}

impl Default for PathParams {
    /// The empty parameter set.
    fn default() -> (r: Self)
        ensures
            r.entries() == Map::<Seq<char>, Seq<char>>::empty(),
    {
        PathParams::empty()
    }
}

/// Query parameters extracted from the URL query string.
///
/// For a URL `/users?page=2&limit=10`, `get("page")` returns the string `2`
/// and `get_u32("limit")` the number 10.
#[derive(Debug)]
pub struct QueryParams {
    pairs: Vec<(String, String)>,
}

impl QueryParams {
    /// The key-value mapping held.
    pub closed spec fn entries(self) -> Map<Seq<char>, Seq<char>> {
        assoc_map(self.pairs@)
    }

    #[verifier::type_invariant]
    spec fn wf(self) -> bool {
        keys_distinct(self.pairs@)
    }

    /// Build from key-value pairs; a later pair for a key overrides an
    /// earlier one.
    pub fn new(pairs: Vec<(String, String)>) -> (r: Self)
        ensures
            r.entries() == assoc_map(pairs@),
    {
        let ghost orig = pairs@;
        let mut rest = pairs;
        let mut out: Vec<(String, String)> = Vec::new();
        while rest.len() > 0
            invariant
                rest@.len() <= orig.len(),
                rest@ == orig.subrange(orig.len() - rest@.len(), orig.len() as int),
                keys_distinct(out@),
                assoc_map(out@) == assoc_map(orig.take(orig.len() - rest@.len())),
            decreases rest@.len(),
        {
            let ghost k: int = orig.len() - rest@.len();
            let p = rest.remove(0);
            proof {
                assert(p == orig[k]);
                assert(rest@ =~= orig.subrange(orig.len() - rest@.len(), orig.len() as int));
            }
            let ghost out0 = out@;
            match find_key(&out, p.0.as_str()) {
                Some(j) => {
                    let prior = out.remove(j);
                    let entry = (prior.0, p.1);
                    out.insert(j, entry);
                    proof {
                        assert(out@ =~= out0.update(j as int, entry));
                        lemma_assoc_map_update(out0, j as int, entry);
                    }
                },
                None => {
                    out.push(p);
                    proof {
                        lemma_assoc_map_push(out0, p);
                    }
                },
            }
            proof {
                assert(orig.take(k + 1).drop_last() =~= orig.take(k));
                assert(orig.take(k + 1).last() == orig[k]);
            }
        }
        proof {
            assert(orig.take(orig.len() as int) =~= orig);
        }
        QueryParams { pairs: out }
    }

    /// An empty parameter set.
    pub fn empty() -> (r: Self)
        ensures
            r.entries() == Map::<Seq<char>, Seq<char>>::empty(),
    {
        QueryParams { pairs: Vec::new() }
    }

    /// The value stored under `key`, as a string slice.
    pub fn get(&self, key: &str) -> (r: Option<&str>)
        ensures
            match r {
                Some(v) => self.entries().contains_key(key@) && v@ == self.entries()[key@],
                None => !self.entries().contains_key(key@),
            },
    {
        proof {
            use_type_invariant(&*self);
        }
        match find_key(&self.pairs, key) {
            Some(j) => {
                proof {
                    lemma_assoc_map_index(self.pairs@, j as int);
                }
                Some(self.pairs[j].1.as_str())
            },
            None => {
                proof {
                    lemma_assoc_map_dom(self.pairs@, key@);
                }
                None
            },
        }
    }

    /// The value stored under `key`, as an owned string.
    pub fn get_string(&self, key: &str) -> (r: Option<String>)
        ensures
            match r {
                Some(v) => self.entries().contains_key(key@) && v@ == self.entries()[key@],
                None => !self.entries().contains_key(key@),
            },
    {
        proof {
            use_type_invariant(&*self);
        }
        match find_key(&self.pairs, key) {
            Some(j) => {
                proof {
                    lemma_assoc_map_index(self.pairs@, j as int);
                }
                Some(self.pairs[j].1.clone())
            },
            None => {
                proof {
                    lemma_assoc_map_dom(self.pairs@, key@);
                }
                None
            },
        }
    }

    /// The value stored under `key`, parsed as a `u64`.
    pub fn get_u64(&self, key: &str) -> (r: Option<u64>)
        ensures
            r == (if self.entries().contains_key(key@) {
                parse_u64_spec(self.entries()[key@])
            } else {
                None::<u64>
            }),
    {
        match self.get(key) {
            Some(v) => parse_u64(v),
            None => None,
        }
    }

    /// The value stored under `key`, parsed as an `i64`.
    pub fn get_i64(&self, key: &str) -> (r: Option<i64>)
        ensures
            r == (if self.entries().contains_key(key@) {
                parse_i64_spec(self.entries()[key@])
            } else {
                None::<i64>
            }),
    {
        match self.get(key) {
            Some(v) => parse_i64(v),
            None => None,
        }
    }

    /// The value stored under `key`, parsed as a `u32`.
    pub fn get_u32(&self, key: &str) -> (r: Option<u32>)
        ensures
            r == (if self.entries().contains_key(key@) {
                parse_u32_spec(self.entries()[key@])
            } else {
                None::<u32>
            }),
    {
        match self.get(key) {
            Some(v) => parse_u32(v),
            None => None,
        }
    }

    /// The value stored under `key`, parsed as an `i32`.
    pub fn get_i32(&self, key: &str) -> (r: Option<i32>)
        ensures
            r == (if self.entries().contains_key(key@) {
                parse_i32_spec(self.entries()[key@])
            } else {
                None::<i32>
            }),
    {
        match self.get(key) {
            Some(v) => parse_i32(v),
            None => None,
        }
    }

    /// The value stored under `key`, parsed as a boolean.
    pub fn get_bool(&self, key: &str) -> (r: Option<bool>)
        ensures
            r == (if self.entries().contains_key(key@) {
                parse_bool_spec(self.entries()[key@])
            } else {
                None::<bool>
            }),
    {
        match self.get(key) {
            Some(v) => parse_bool(v),
            None => None,
        }
    }

    /// Whether a value is stored under `key`.
    pub fn contains(&self, key: &str) -> (r: bool)
        ensures
            r == self.entries().contains_key(key@),
    {
        proof {
            use_type_invariant(&*self);
        }
        match find_key(&self.pairs, key) {
            Some(j) => {
                proof {
                    lemma_assoc_map_index(self.pairs@, j as int);
                }
                true
            },
            None => {
                proof {
                    lemma_assoc_map_dom(self.pairs@, key@);
                }
                false
            },
        }
    }

    /// All stored keys, each exactly once, in unspecified order.
    pub fn keys(&self) -> (r: Vec<&str>)
        ensures
            forall|i: int, j: int| 0 <= i < j < r@.len() ==> (#[trigger] r@[i])@ != (
            #[trigger] r@[j])@,
            forall|k: Seq<char>| #[trigger]
                self.entries().contains_key(k) <==> exists|i: int|
                    0 <= i < r@.len() && (#[trigger] r@[i])@ == k,
    {
        proof {
            use_type_invariant(&*self);
        }
        let mut r: Vec<&str> = Vec::new();
        let mut i: usize = 0;
        while i < self.pairs.len()
            invariant
                i <= self.pairs@.len(),
                r@.len() == i,
                forall|j: int| 0 <= j < i ==> (#[trigger] r@[j])@ == self.pairs@[j].0@,
            decreases self.pairs@.len() - i,
        {
            r.push(self.pairs[i].0.as_str());
            i = i + 1;
        }
        proof {
            assert forall|k: Seq<char>| #[trigger]
                self.entries().contains_key(k) <==> exists|i: int|
                    0 <= i < r@.len() && (#[trigger] r@[i])@ == k by {
                lemma_assoc_map_dom(self.pairs@, k);
                if self.entries().contains_key(k) {
                    let w = choose|w: int|
                        0 <= w < self.pairs@.len() && (#[trigger] self.pairs@[w]).0@ == k;
                    assert((r@[w])@ == k);
                }
                if exists|i: int| 0 <= i < r@.len() && (#[trigger] r@[i])@ == k {
                    let w = choose|w: int| 0 <= w < r@.len() && (#[trigger] r@[w])@ == k;
                    assert((self.pairs@[w]).0@ == k);
                }
            }
        }
        r
    }
}

impl Clone for QueryParams {
    /// A copy that holds the same mapping.
    fn clone(&self) -> (r: Self)
        ensures
            r.entries() == self.entries(),
    {
        proof {
            use_type_invariant(&*self);
        }
        let mut pairs: Vec<(String, String)> = Vec::new();
        let mut i: usize = 0;
        while i < self.pairs.len()
            invariant
                i <= self.pairs@.len(),
                pairs@ == self.pairs@.take(i as int),
            decreases self.pairs@.len() - i,
        {
            let key = self.pairs[i].0.clone();
            let value = self.pairs[i].1.clone();
            pairs.push((key, value));
            proof {
                assert((key, value) =~= self.pairs@[i as int]);
                assert(pairs@ =~= self.pairs@.take(i + 1));
            }
            i = i + 1;
        }
        proof {
            assert(pairs@ =~= self.pairs@);
        }
        QueryParams { pairs }
    }
}

impl Default for QueryParams {
    /// The empty parameter set.
    fn default() -> (r: Self)
        ensures
            r.entries() == Map::<Seq<char>, Seq<char>>::empty(),
    {
        QueryParams::empty()
    }
}

} // verus!
