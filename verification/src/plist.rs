//! An owned model of Apple property-list data.
//!
//! UFO packages carry arbitrary user data in `lib` sections, stored on disk
//! as property lists. This module models that data with plain values so that
//! the library's logic over it can be verified; reading and writing the
//! on-disk encodings is left to the caller. Real numbers and dates are
//! carried as their textual forms, which keeps them round-trippable without
//! interpreting them.

use vstd::prelude::*;
use crate::util::str_eq;

verus! {

/// A single property-list value.
#[derive(Debug, PartialEq)]
pub enum Value {
    /// A dictionary of keyed values.
    Dictionary(Plist),
    /// An ordered list of values.
    Array(Vec<Value>),
    /// A string of text.
    Text(String),
    /// A signed integer.
    Integer(i64),
    /// A real number, carried as its decimal text.
    Real(String),
    /// A boolean.
    Boolean(bool),
    /// A blob of binary data.
    Data(Vec<u8>),
    /// A date, carried as its RFC 3339 text.
    Date(String),
}

/// A property-list dictionary: keyed values whose insertion order is kept
/// for serialization stability.
#[derive(Debug, PartialEq)]
pub struct Plist {
    entries: Vec<(String, Value)>,
}

impl View for Plist {
    type V = Seq<(String, Value)>;

    closed spec fn view(&self) -> Seq<(String, Value)> {
        self.entries@
    }
}

/// The index of the first entry with the given key, or the sequence's length
/// when no entry has it.
pub open spec fn first_match(s: Seq<(String, Value)>, k: Seq<char>) -> int
    decreases s.len(),
{
    if s.len() == 0 {
        0
    } else if s[0].0@ == k {
        0
    } else {
        1 + first_match(s.subrange(1, s.len() as int), k)
    }
}

/// Whether some entry has the given key.
pub open spec fn has_key(s: Seq<(String, Value)>, k: Seq<char>) -> bool {
    exists|i: int| 0 <= i < s.len() && s[i].0@ == k
}

/// The value of the first entry with the given key, if any.
pub open spec fn spec_get(s: Seq<(String, Value)>, k: Seq<char>) -> Option<Value> {
    if has_key(s, k) {
        Some(s[first_match(s, k)].1)
    } else {
        None
    }
}

/// Whether all keys are distinct.
pub open spec fn keys_unique(s: Seq<(String, Value)>) -> bool {
    forall|i: int, j: int| 0 <= i < j < s.len() ==> s[i].0@ != s[j].0@
}

/// `first_match` points at the first entry with the key, and past the end
/// exactly when the key is absent.
pub proof fn lemma_first_match(s: Seq<(String, Value)>, k: Seq<char>)
    ensures
        0 <= first_match(s, k) <= s.len(),
        first_match(s, k) < s.len() ==> s[first_match(s, k)].0@ == k,
        forall|j: int| 0 <= j < first_match(s, k) ==> s[j].0@ != k,
        has_key(s, k) <==> first_match(s, k) < s.len(),
    decreases s.len(),
{
    if s.len() == 0 {
        assert(!has_key(s, k));
    } else if s[0].0@ == k {
        assert(has_key(s, k));
    } else {
        let t = s.subrange(1, s.len() as int);
        lemma_first_match(t, k);
        let fm = first_match(s, k);
        assert(fm == 1 + first_match(t, k));
        assert forall|j: int| 0 <= j < fm implies s[j].0@ != k by {
            if j > 0 {
                assert(t[j - 1] == s[j]);
            }
        }
        if has_key(s, k) {
            let i = choose|i: int| 0 <= i < s.len() && s[i].0@ == k;
            assert(t[i - 1] == s[i]);
            assert(has_key(t, k));
        }
        if has_key(t, k) {
            let i = choose|i: int| 0 <= i < t.len() && t[i].0@ == k;
            assert(s[i + 1] == t[i]);
            assert(has_key(s, k));
        }
    }
}

impl Plist {
    /// Returns a new, empty dictionary.
    pub fn new() -> (r: Self)
        ensures
            r@ == Seq::<(String, Value)>::empty(),
    {
        Plist { entries: Vec::new() }
    }

    /// The number of entries.
    pub fn len(&self) -> (n: usize)
        ensures
            n == self@.len(),
    {
        self.entries.len()
    }

    /// Whether the dictionary has no entries.
    pub fn is_empty(&self) -> (r: bool)
        ensures
            r == (self@.len() == 0),
    {
        self.entries.len() == 0
    }

    /// The entries, in order.
    pub fn entries(&self) -> (r: &Vec<(String, Value)>)
        ensures
            r@ == self@,
    {
        &self.entries
    }

    /// The index of the first entry with the given key, or the number of
    /// entries when the key is absent.
    fn index_of(&self, key: &str) -> (r: usize)
        ensures
            r == first_match(self@, key@),
            r <= self@.len(),
            has_key(self@, key@) <==> r < self@.len(),
            r < self@.len() ==> self@[r as int].0@ == key@,
    {
        let n = self.entries.len();
        let mut i: usize = 0;
        while i < n
            invariant
                i <= n,
                n == self@.len(),
                forall|j: int| 0 <= j < i ==> self@[j].0@ != key@,
            decreases n - i,
        {
            if str_eq(self.entries[i].0.as_str(), key) {
                proof {
                    lemma_first_match(self@, key@);
                }
                return i;
            }
            i += 1;
        }
        proof {
            lemma_first_match(self@, key@);
        }
        n
    }

    /// Looks up the first entry with the given key.
    pub fn get(&self, key: &str) -> (r: Option<&Value>)
        ensures
            match r {
                Some(v) => spec_get(self@, key@) == Some(*v),
                None => spec_get(self@, key@) is None,
            },
    {
        let i = self.index_of(key);
        if i < self.entries.len() {
            Some(&self.entries[i].1)
        } else {
            None
        }
    }

    /// Whether an entry with the given key exists.
    pub fn contains_key(&self, key: &str) -> (r: bool)
        ensures
            r == has_key(self@, key@),
    {
        self.index_of(key) < self.entries.len()
    }

    /// Inserts a value under the given key. An existing entry with that key
    /// is replaced in place; otherwise the entry is appended. Returns the
    /// replaced value, if any.
    pub fn insert(&mut self, key: String, value: Value) -> (old_value: Option<Value>)
        ensures
            has_key(old(self)@, key@) ==> {
                &&& final(self)@ == old(self)@.update(
                    first_match(old(self)@, key@),
                    (key, value),
                )
                &&& old_value == Some(old(self)@[first_match(old(self)@, key@)].1)
            },
            !has_key(old(self)@, key@) ==> {
                &&& final(self)@ == old(self)@.push((key, value))
                &&& old_value is None
            },
            keys_unique(old(self)@) ==> keys_unique(final(self)@),
    {
        let ghost s0 = self@;
        let ghost gkey = key;
        let ghost gvalue = value;
        let i = self.index_of(key.as_str());
        if i < self.entries.len() {
            let mut pair = (key, value);
            std::mem::swap(&mut self.entries[i], &mut pair);
            proof {
                assert(self@ == s0.update(i as int, (gkey, gvalue)));
                if keys_unique(s0) {
                    assert forall|a: int, b: int| 0 <= a < b < self@.len() implies self@[a].0@
                        != self@[b].0@ by {
                        if a != i {
                            assert(self@[a] == s0[a]);
                        } else {
                            assert(self@[a].0@ == s0[i as int].0@);
                        }
                        if b != i {
                            assert(self@[b] == s0[b]);
                        } else {
                            assert(self@[b].0@ == s0[i as int].0@);
                        }
                    }
                }
            }
            Some(pair.1)
        } else {
            proof {
                lemma_first_match(s0, key@);
            }
            self.entries.push((key, value));
            proof {
                if keys_unique(s0) {
                    assert forall|a: int, b: int| 0 <= a < b < self@.len() implies self@[a].0@
                        != self@[b].0@ by {
                        assert(self@[a] == s0[a]);
                        if b < self@.len() - 1 {
                            assert(self@[b] == s0[b]);
                        } else {
                            assert(self@[b].0@ == key@);
                        }
                    }
                }
            }
            None
        }
    }

    /// Removes the first entry with the given key, returning its value.
    pub fn remove(&mut self, key: &str) -> (r: Option<Value>)
        ensures
            has_key(old(self)@, key@) ==> {
                &&& final(self)@ == old(self)@.remove(first_match(old(self)@, key@))
                &&& r == Some(old(self)@[first_match(old(self)@, key@)].1)
            },
            !has_key(old(self)@, key@) ==> {
                &&& final(self)@ == old(self)@
                &&& r is None
            },
            keys_unique(old(self)@) ==> keys_unique(final(self)@),
    {
        let ghost s0 = self@;
        let i = self.index_of(key);
        if i < self.entries.len() {
            let pair = self.entries.remove(i);
            proof {
                if keys_unique(s0) {
                    assert forall|a: int, b: int| 0 <= a < b < self@.len() implies self@[a].0@
                        != self@[b].0@ by {
                        let a0 = if a < i { a } else { a + 1 };
                        let b0 = if b < i { b } else { b + 1 };
                        assert(self@[a] == s0[a0]);
                        assert(self@[b] == s0[b0]);
                    }
                }
            }
            Some(pair.1)
        } else {
            None
        }
    }
}


/// Whether every entry's value is a dictionary.
pub open spec fn all_dict_values(s: Seq<(String, Value)>) -> bool {
    forall|i: int| 0 <= i < s.len() ==> s[i].1 is Dictionary
}

/// An entry found at `i` with no earlier entry of the same key pins down
/// `first_match`.
pub proof fn lemma_first_match_is(s: Seq<(String, Value)>, k: Seq<char>, i: int)
    requires
        0 <= i < s.len(),
        s[i].0@ == k,
        forall|j: int| 0 <= j < i ==> s[j].0@ != k,
    ensures
        first_match(s, k) == i,
        has_key(s, k),
{
    lemma_first_match(s, k);
    assert(has_key(s, k));
}

/// Removing one key's first entry leaves lookups of other keys unchanged.
pub proof fn lemma_remove_other_key(s: Seq<(String, Value)>, k1: Seq<char>, k2: Seq<char>)
    requires
        has_key(s, k1),
        k1 != k2,
    ensures
        spec_get(s.remove(first_match(s, k1)), k2) == spec_get(s, k2),
{
    lemma_first_match(s, k1);
    let i = first_match(s, k1);
    let t = s.remove(i);
    assert(t.len() == s.len() - 1);
    assert forall|j: int| 0 <= j < t.len() implies t[j] == (if j < i {
        s[j]
    } else {
        s[j + 1]
    }) by {}
    if has_key(s, k2) {
        lemma_first_match(s, k2);
        let m = first_match(s, k2);
        assert(s[m].0@ == k2);
        assert(m != i);
        let m2 = if m < i {
            m
        } else {
            m - 1
        };
        assert(t[m2] == s[m]);
        assert forall|j: int| 0 <= j < m2 implies t[j].0@ != k2 by {
            if j < i {
                assert(t[j] == s[j]);
            } else {
                assert(t[j] == s[j + 1]);
            }
        }
        lemma_first_match_is(t, k2, m2);
        assert(spec_get(t, k2) == Some(t[m2].1));
        assert(spec_get(s, k2) == Some(s[m].1));
    } else {
        if has_key(t, k2) {
            let w = choose|w: int| 0 <= w < t.len() && t[w].0@ == k2;
            if w < i {
                assert(s[w].0@ == k2);
            } else {
                assert(s[w + 1].0@ == k2);
            }
            assert(false);
        }
    }
}

/// Removing an entry keeps every remaining value a dictionary.
pub proof fn lemma_remove_all_dict(s: Seq<(String, Value)>, i: int)
    requires
        all_dict_values(s),
        0 <= i < s.len(),
    ensures
        all_dict_values(s.remove(i)),
{
    let t = s.remove(i);
    assert forall|j: int| 0 <= j < t.len() implies t[j].1 is Dictionary by {
        if j < i {
            assert(t[j] == s[j]);
        } else {
            assert(t[j] == s[j + 1]);
        }
    }
}

/// With unique keys, removing the first entry of a key removes the key.
pub proof fn lemma_remove_unique_gone(s: Seq<(String, Value)>, k: Seq<char>)
    requires
        keys_unique(s),
        has_key(s, k),
    ensures
        !has_key(s.remove(first_match(s, k)), k),
{
    lemma_first_match(s, k);
    let i = first_match(s, k);
    let t = s.remove(i);
    if has_key(t, k) {
        let w = choose|w: int| 0 <= w < t.len() && t[w].0@ == k;
        if w < i {
            assert(t[w] == s[w]);
        } else {
            assert(t[w] == s[w + 1]);
        }
        assert(false);
    }
}


/// Appending an entry changes only lookups of its key, and those only when
/// the key was absent.
pub proof fn lemma_push_entry(s: Seq<(String, Value)>, p: (String, Value), k: Seq<char>)
    ensures
        k != p.0@ ==> spec_get(s.push(p), k) == spec_get(s, k),
        (k == p.0@ && !has_key(s, k)) ==> spec_get(s.push(p), k) == Some(p.1),
{
    let t = s.push(p);
    if k != p.0@ {
        if has_key(s, k) {
            lemma_first_match(s, k);
            let m = first_match(s, k);
            assert(t[m] == s[m]);
            assert forall|j: int| 0 <= j < m implies t[j].0@ != k by {
                assert(t[j] == s[j]);
            }
            lemma_first_match_is(t, k, m);
        } else {
            if has_key(t, k) {
                let w = choose|w: int| 0 <= w < t.len() && t[w].0@ == k;
                if w < s.len() {
                    assert(s[w].0@ == k);
                }
                assert(false);
            }
        }
    } else if !has_key(s, k) {
        assert(t[s.len() as int] == p);
        assert forall|j: int| 0 <= j < s.len() implies t[j].0@ != k by {
            assert(t[j] == s[j]);
        }
        lemma_first_match_is(t, k, s.len() as int);
    }
}

} // verus!


verus! {

/// Structural equivalence of two values: the same shape with the same
/// contents. Spec equality of values cannot follow a copy through the
/// vectors inside, so contracts about copies speak in this relation.
pub closed spec fn value_like(a: Value, b: Value) -> bool
    decreases a,
{
    match (a, b) {
        (Value::Dictionary(x), Value::Dictionary(y)) => plist_like(x, y),
        (Value::Array(x), Value::Array(y)) => x@.len() == y@.len() && (forall|i: int|
            0 <= i < x@.len() ==> value_like(#[trigger] x@[i], y@[i])),
        (Value::Text(x), Value::Text(y)) => x@ == y@,
        (Value::Integer(x), Value::Integer(y)) => x == y,
        (Value::Real(x), Value::Real(y)) => x@ == y@,
        (Value::Boolean(x), Value::Boolean(y)) => x == y,
        (Value::Data(x), Value::Data(y)) => x@ == y@,
        (Value::Date(x), Value::Date(y)) => x@ == y@,
        _ => false,
    }
}

/// Structural equivalence of two dictionaries: equal keys in order, and
/// structurally equivalent values.
pub open spec fn plist_like(a: Plist, b: Plist) -> bool
    decreases a,
{
    &&& a@.len() == b@.len()
    &&& forall|i: int|
        0 <= i < a@.len() ==> (#[trigger] a@[i]).0@ == b@[i].0@ && value_like(a@[i].1, b@[i].1)
}

/// Two dictionary values are structurally equivalent exactly when the
/// dictionaries are.
pub proof fn lemma_value_like_dictionary(x: Plist, y: Plist)
    ensures
        value_like(Value::Dictionary(x), Value::Dictionary(y)) == plist_like(x, y),
{
    reveal_with_fuel(value_like, 2);
    reveal_with_fuel(plist_like, 2);
}

impl Value {
    /// Returns a structurally equivalent copy of the value.
    #[verifier::loop_isolation(false)]
    pub fn duplicate(&self) -> (r: Value)
        ensures
            value_like(*self, r),
        decreases *self,
    {
        match self {
            Value::Dictionary(x) => {
                proof {
                    assert(decreases_to!(*self => self->Dictionary_0));
                }
                let d = x.duplicate();
                proof {
                    lemma_value_like_dictionary(*x, d);
                }
                Value::Dictionary(d)
            },
            Value::Array(x) => {
                let n = x.len();
                let mut out: Vec<Value> = Vec::new();
                let mut i: usize = 0;
                while i < n
                    invariant
                        i <= n,
                        n == x@.len(),
                        out@.len() == i,
                        forall|j: int| 0 <= j < i ==> value_like(#[trigger] x@[j], out@[j]),
                    decreases n - i,
                {
                    proof {
                        assert(decreases_to!(*self => self->Array_0));
                        assert(decreases_to!(self->Array_0 => x@));
                        assert(decreases_to!(x@ => x@[i as int]));
                    }
                    let d = x[i].duplicate();
                    out.push(d);
                    i += 1;
                }
                Value::Array(out)
            },
            Value::Text(x) => Value::Text(x.clone()),
            Value::Integer(x) => Value::Integer(*x),
            Value::Real(x) => Value::Real(x.clone()),
            Value::Boolean(x) => Value::Boolean(*x),
            Value::Data(x) => {
                let n = x.len();
                let mut out: Vec<u8> = Vec::new();
                let mut i: usize = 0;
                while i < n
                    invariant
                        i <= n,
                        n == x@.len(),
                        out@ == x@.take(i as int),
                    decreases n - i,
                {
                    out.push(x[i]);
                    proof {
                        assert(x@.take(i + 1 as int) =~= x@.take(i as int).push(x@[i as int]));
                    }
                    i += 1;
                }
                proof {
                    assert(out@ =~= x@);
                }
                Value::Data(out)
            },
            Value::Date(x) => Value::Date(x.clone()),
        }
    }
}

impl Plist {
    /// Returns a structurally equivalent copy of the dictionary.
    #[verifier::loop_isolation(false)]
    pub fn duplicate(&self) -> (r: Plist)
        ensures
            plist_like(*self, r),
            r@.len() == self@.len(),
            forall|i: int|
                0 <= i < self@.len() ==> r@[i].0@ == self@[i].0@ && value_like(
                    #[trigger] self@[i].1,
                    r@[i].1,
                ),
            keys_unique(self@) ==> keys_unique(r@),
        decreases *self,
    {
        let n = self.entries.len();
        let mut out: Vec<(String, Value)> = Vec::new();
        let mut i: usize = 0;
        while i < n
            invariant
                i <= n,
                n == self@.len(),
                out@.len() == i,
                forall|j: int|
                    0 <= j < i ==> (#[trigger] out@[j]).0@ == self@[j].0@ && value_like(
                        self@[j].1,
                        out@[j].1,
                    ),
            decreases n - i,
        {
            proof {
                assert(decreases_to!(*self => self.entries));
                assert(decreases_to!(self.entries => self.entries@));
                assert(decreases_to!(self.entries@ => self.entries@[i as int]));
                assert(decreases_to!(self.entries@[i as int] => self.entries@[i as int].1));
            }
            let key = self.entries[i].0.clone();
            let val = self.entries[i].1.duplicate();
            out.push((key, val));
            i += 1;
        }
        let r = Plist { entries: out };
        proof {
            assert(r@ == out@);
            assert forall|j: int|
                0 <= j < self@.len() implies r@[j].0@ == self@[j].0@ && value_like(
                #[trigger] self@[j].1,
                r@[j].1,
            ) by {
                assert(value_like(self@[j].1, out@[j].1));
            }
            if keys_unique(self@) {
                assert forall|a: int, b: int| 0 <= a < b < r@.len() implies r@[a].0@
                    != r@[b].0@ by {
                    assert(value_like(self@[a].1, r@[a].1));
                    assert(value_like(self@[b].1, r@[b].1));
                }
            }
            reveal_with_fuel(plist_like, 2);
            assert forall|i: int|
                0 <= i < self@.len() implies (#[trigger] self@[i]).0@ == r@[i].0@ && value_like(
                self@[i].1,
                r@[i].1,
            ) by {
                assert(value_like(self@[i].1, r@[i].1));
                assert(r@[i].0@ == self@[i].0@);
            }
            assert(plist_like(*self, r));
        }
        r
    }
}

} // verus!

