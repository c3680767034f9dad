//! Validated byte stores for a font's `data/` and `images/` directories.
//!
//! Keys are relative, forward-slash separated paths. The data store allows
//! nested directories but never a file under a file; the image store is a
//! flat directory whose entries must begin with the PNG signature.

use vstd::prelude::*;
use vstd::string::StrSliceExecFns;
use crate::error::StoreError;
use crate::util::str_eq;

verus! {

/// The eight bytes every PNG file starts with.
pub open spec fn png_signature() -> Seq<u8> {
    seq![0x89u8, 0x50u8, 0x4eu8, 0x47u8, 0x0du8, 0x0au8, 0x1au8, 0x0au8]
}

/// Whether the data begins with the PNG signature.
pub open spec fn is_png(data: Seq<u8>) -> bool {
    data.len() >= 8 && data.subrange(0, 8) == png_signature()
}

/// Whether a key is usable in the data store: non-empty and relative.
pub open spec fn valid_data_path(p: Seq<char>) -> bool {
    p.len() > 0 && p[0] != '/'
}

/// Whether a key is usable in the image store: non-empty, relative, and
/// naming no subdirectory.
pub open spec fn valid_image_path(p: Seq<char>) -> bool {
    p.len() > 0 && forall|i: int| 0 <= i < p.len() ==> p[i] != '/'
}

/// Whether `a` names a directory above `b`.
pub open spec fn path_nests(a: Seq<char>, b: Seq<char>) -> bool {
    a.len() < b.len() && b.subrange(0, a.len() as int) == a && b[a.len() as int] == '/'
}

/// Whether some entry has the given key.
pub open spec fn store_has(s: Seq<(String, Vec<u8>)>, k: Seq<char>) -> bool {
    exists|i: int| 0 <= i < s.len() && s[i].0@ == k
}

/// The data of the entry with the given key, if any. Meaningful when keys
/// are unique.
pub open spec fn store_get(s: Seq<(String, Vec<u8>)>, k: Seq<char>) -> Option<Seq<u8>> {
    if store_has(s, k) {
        Some(s[choose|i: int| 0 <= i < s.len() && s[i].0@ == k].1@)
    } else {
        None
    }
}

/// The data store's invariant: unique, valid keys, no file nested under a
/// file.
pub open spec fn data_store_wf(s: Seq<(String, Vec<u8>)>) -> bool {
    &&& forall|i: int, j: int| 0 <= i < j < s.len() ==> s[i].0@ != s[j].0@
    &&& forall|i: int| 0 <= i < s.len() ==> valid_data_path(#[trigger] s[i].0@)
    &&& forall|i: int, j: int|
        0 <= i < s.len() && 0 <= j < s.len() ==> !path_nests(
            #[trigger] s[i].0@,
            #[trigger] s[j].0@,
        )
}

/// The image store's invariant: unique flat keys, PNG data.
pub open spec fn image_store_wf(s: Seq<(String, Vec<u8>)>) -> bool {
    &&& forall|i: int, j: int| 0 <= i < j < s.len() ==> s[i].0@ != s[j].0@
    &&& forall|i: int| 0 <= i < s.len() ==> valid_image_path(#[trigger] s[i].0@)
    &&& forall|i: int| 0 <= i < s.len() ==> is_png(#[trigger] s[i].1@)
}

/// Whether `a` names a directory above `b`, decided on strings.
fn nests(a: &str, b: &str) -> (r: bool)
    ensures
        r == path_nests(a@, b@),
{
    let alen = a.unicode_len();
    let blen = b.unicode_len();
    if alen >= blen {
        return false;
    }
    if b.get_char(alen) != '/' {
        return false;
    }
    let mut i: usize = 0;
    while i < alen
        invariant
            i <= alen,
            alen == a@.len(),
            alen < blen,
            blen == b@.len(),
            forall|j: int| 0 <= j < i ==> a@[j] == b@[j],
        decreases alen - i,
    {
        if a.get_char(i) != b.get_char(i) {
            proof {
                assert(b@.subrange(0, a@.len() as int)[i as int] == b@[i as int]);
            }
            return false;
        }
        i += 1;
    }
    proof {
        assert(b@.subrange(0, a@.len() as int) =~= a@);
    }
    true
}

/// A validated store of byte blobs under relative paths, allowing nested
/// directories but no file under a file.
#[derive(Debug, PartialEq)]
pub struct DataStore {
    entries: Vec<(String, Vec<u8>)>,
}

impl View for DataStore {
    type V = Seq<(String, Vec<u8>)>;

    closed spec fn view(&self) -> Seq<(String, Vec<u8>)> {
        self.entries@
    }
}

impl DataStore {
    /// Returns a new, empty store.
    pub fn new() -> (r: Self)
        ensures
            r@ == Seq::<(String, Vec<u8>)>::empty(),
            data_store_wf(r@),
    {
        DataStore { entries: Vec::new() }
    }

    /// The number of entries.
    pub fn len(&self) -> (n: usize)
        ensures
            n == self@.len(),
    {
        self.entries.len()
    }

    /// The entries, in insertion order.
    pub fn entries(&self) -> (r: &Vec<(String, Vec<u8>)>)
        ensures
            r@ == self@,
    {
        &self.entries
    }

    /// Looks up the entry with the given key.
    pub fn get(&self, path: &str) -> (r: Option<&Vec<u8>>)
        ensures
            match r {
                Some(d) => store_has(self@, path@) && exists|i: int|
                    0 <= i < self@.len() && self@[i].0@ == path@ && self@[i].1 == *d,
                None => !store_has(self@, path@),
            },
    {
        let n = self.entries.len();
        let mut i: usize = 0;
        while i < n
            invariant
                i <= n,
                n == self@.len(),
                forall|j: int| 0 <= j < i ==> self@[j].0@ != path@,
            decreases n - i,
        {
            if str_eq(self.entries[i].0.as_str(), path) {
                return Some(&self.entries[i].1);
            }
            i += 1;
        }
        None
    }

    /// Removes the first entry with the given key, returning its data.
    #[verifier::loop_isolation(false)]
    pub fn remove(&mut self, path: &str) -> (r: Option<Vec<u8>>)
        ensures
            data_store_wf(old(self)@) ==> data_store_wf(final(self)@),
            match r {
                Some(d) => exists|i: int|
                    0 <= i < old(self)@.len() && (#[trigger] old(self)@[i]).0@ == path@ && (forall|
                    j: int|
                        0 <= j < i ==> old(self)@[j].0@ != path@) && d == old(self)@[i].1 && final(self)@ == old(self)@.remove(i),
                None => !store_has(old(self)@, path@) && final(self)@ == old(self)@,
            },
    {
        let n = self.entries.len();
        let mut i: usize = 0;
        while i < n
            invariant
                i <= n,
                n == self@.len(),
                self@ == old(self)@,
                forall|j: int| 0 <= j < i ==> self@[j].0@ != path@,
            decreases n - i,
        {
            if str_eq(self.entries[i].0.as_str(), path) {
                let pair = self.entries.remove(i);
                proof {
                    let s0 = old(self)@;
                    if data_store_wf(s0) {
                        assert forall|a: int, b: int|
                            0 <= a < self@.len() && 0 <= b < self@.len() implies (a < b
                            ==> self@[a].0@ != self@[b].0@) && !path_nests(
                            #[trigger] self@[a].0@,
                            #[trigger] self@[b].0@,
                        ) by {
                            let a0 = if a < i { a } else { a + 1 };
                            let b0 = if b < i { b } else { b + 1 };
                            assert(self@[a] == s0[a0]);
                            assert(self@[b] == s0[b0]);
                        }
                        assert forall|a: int| 0 <= a < self@.len() implies valid_data_path(
                            #[trigger] self@[a].0@,
                        ) by {
                            let a0 = if a < i { a } else { a + 1 };
                            assert(self@[a] == s0[a0]);
                        }
                    }
                }
                proof {
                    assert((old(self)@[i as int]).0@ == path@);
                }
                return Some(pair.1);
            }
            i += 1;
        }
        None
    }

    /// Inserts data under the given path. The path must be non-empty and
    /// relative, and must not put a file under an existing file nor a
    /// directory where a file already is. An existing entry under the same
    /// path is replaced.
    #[verifier::loop_isolation(false)]
    pub fn insert(&mut self, path: String, data: Vec<u8>) -> (r: Result<(), StoreError>)
        requires
            data_store_wf(old(self)@),
        ensures
            data_store_wf(final(self)@),
            match r {
                Ok(()) => {
                    &&& valid_data_path(path@)
                    &&& forall|i: int|
                        0 <= i < old(self)@.len() ==> !path_nests(#[trigger] old(self)@[i].0@, path@)
                            && !path_nests(path@, #[trigger] old(self)@[i].0@)
                    &&& store_has(final(self)@, path@)
                    &&& store_get(final(self)@, path@) == Some(data@)
                    &&& forall|k: Seq<char>|
                        k != path@ ==> (store_has(final(self)@, k) == store_has(old(self)@, k)
                            && store_get(final(self)@, k) == store_get(old(self)@, k))
                },
                Err(e) => {
                    &&& final(self)@ == old(self)@
                    &&& (e == StoreError::EmptyPath <==> path@.len() == 0)
                    &&& (e == StoreError::PathIsAbsolute <==> path@.len() > 0 && path@[0] == '/')
                    &&& (e == StoreError::DirUnderFile <==> valid_data_path(path@) && exists|i: int|
                        0 <= i < old(self)@.len() && (path_nests(#[trigger] old(self)@[i].0@, path@)
                            || path_nests(path@, old(self)@[i].0@)))
                },
            },
    {
        let plen = path.as_str().unicode_len();
        if plen == 0 {
            return Err(StoreError::EmptyPath);
        }
        if path.as_str().get_char(0) == '/' {
            return Err(StoreError::PathIsAbsolute);
        }
        let n = self.entries.len();
        let mut i: usize = 0;
        let mut found: usize = n;
        while i < n
            invariant
                i <= n,
                found <= n,
                n == self@.len(),
                self@ == old(self)@,
                valid_data_path(path@),
                forall|j: int|
                    0 <= j < i ==> !path_nests(#[trigger] self@[j].0@, path@) && !path_nests(
                        path@,
                        #[trigger] self@[j].0@,
                    ),
                found < n ==> self@[found as int].0@ == path@,
                found == n ==> forall|j: int| 0 <= j < i ==> self@[j].0@ != path@,
            decreases n - i,
        {
            if nests(self.entries[i].0.as_str(), path.as_str()) || nests(
                path.as_str(),
                self.entries[i].0.as_str(),
            ) {
                return Err(StoreError::DirUnderFile);
            }
            if str_eq(self.entries[i].0.as_str(), path.as_str()) {
                found = i;
            }
            i += 1;
        }
        let ghost s0 = self@;
        if found < n {
            let mut pair = (path, data);
            std::mem::swap(&mut self.entries[found], &mut pair);
        } else {
            self.entries.push((path, data));
        }
        proof {
            let sf = self@;
            let fi = if found < n {
                found as int
            } else {
                n as int
            };
            assert(sf.len() == if found < n {
                s0.len()
            } else {
                s0.len() + 1
            });
            assert forall|a: int, b: int|
                0 <= a < sf.len() && 0 <= b < sf.len() implies (a < b ==> sf[a].0@ != sf[b].0@)
                && !path_nests(#[trigger] sf[a].0@, #[trigger] sf[b].0@) by {
                if a != fi {
                    assert(sf[a] == s0[a]);
                }
                if b != fi {
                    assert(sf[b] == s0[b]);
                }
                if a == fi && b != fi {
                    assert(!path_nests(path@, s0[b].0@));
                    if found < n && b > a {
                        assert(s0[a].0@ != s0[b].0@);
                    }
                } else if b == fi && a != fi {
                    assert(!path_nests(s0[a].0@, path@));
                    if found < n && a < b {
                        assert(s0[a].0@ != s0[b].0@);
                    }
                }
            }
            assert forall|a: int| 0 <= a < sf.len() implies valid_data_path(
                #[trigger] sf[a].0@,
            ) by {
                if a != fi {
                    assert(sf[a] == s0[a]);
                }
            }
            assert(sf[fi].0@ == path@);
            assert(store_has(sf, path@));
            assert forall|k: Seq<char>| k != path@ implies (store_has(sf, k) == store_has(s0, k)
                && store_get(sf, k) == store_get(s0, k)) by {
                if store_has(s0, k) {
                    let w = choose|w: int| 0 <= w < s0.len() && s0[w].0@ == k;
                    assert(sf[w] == s0[w]);
                    assert(store_has(sf, k));
                }
                if store_has(sf, k) {
                    let w = choose|w: int| 0 <= w < sf.len() && sf[w].0@ == k;
                    assert(sf[w] == s0[w]);
                    assert(store_has(s0, k));
                }
                if store_has(s0, k) {
                    let w1 = choose|w: int| 0 <= w < s0.len() && s0[w].0@ == k;
                    let w2 = choose|w: int| 0 <= w < sf.len() && sf[w].0@ == k;
                    assert(sf[w2] == s0[w2]);
                    if w1 != w2 {
                        assert(s0[w1].0@ == s0[w2].0@);
                    }
                    assert(store_get(s0, k) == Some(s0[w1].1@));
                    assert(store_get(sf, k) == Some(sf[w2].1@));
                }
            }
            let w2 = choose|w: int| 0 <= w < sf.len() && sf[w].0@ == path@;
            if w2 != fi {
                assert(sf[w2] == s0[w2]);
                assert(s0[w2].0@ == path@);
                if found < n {
                    assert(s0[found as int].0@ == s0[w2].0@);
                } else {
                    assert(store_has(s0, path@) == false);
                }
            }
            assert(store_get(sf, path@) == Some(data@));
        }
        Ok(())
    }
}

/// A validated flat store of PNG images under simple file names.
#[derive(Debug, PartialEq)]
pub struct ImageStore {
    entries: Vec<(String, Vec<u8>)>,
}

impl View for ImageStore {
    type V = Seq<(String, Vec<u8>)>;

    closed spec fn view(&self) -> Seq<(String, Vec<u8>)> {
        self.entries@
    }
}

impl ImageStore {
    /// Returns a new, empty store.
    pub fn new() -> (r: Self)
        ensures
            r@ == Seq::<(String, Vec<u8>)>::empty(),
            image_store_wf(r@),
    {
        ImageStore { entries: Vec::new() }
    }

    /// The number of entries.
    pub fn len(&self) -> (n: usize)
        ensures
            n == self@.len(),
    {
        self.entries.len()
    }

    /// The entries, in insertion order.
    pub fn entries(&self) -> (r: &Vec<(String, Vec<u8>)>)
        ensures
            r@ == self@,
    {
        &self.entries
    }

    /// Looks up the entry with the given key.
    pub fn get(&self, path: &str) -> (r: Option<&Vec<u8>>)
        ensures
            match r {
                Some(d) => store_has(self@, path@) && exists|i: int|
                    0 <= i < self@.len() && self@[i].0@ == path@ && self@[i].1 == *d,
                None => !store_has(self@, path@),
            },
    {
        let n = self.entries.len();
        let mut i: usize = 0;
        while i < n
            invariant
                i <= n,
                n == self@.len(),
                forall|j: int| 0 <= j < i ==> self@[j].0@ != path@,
            decreases n - i,
        {
            if str_eq(self.entries[i].0.as_str(), path) {
                return Some(&self.entries[i].1);
            }
            i += 1;
        }
        None
    }

    /// Removes the first entry with the given key, returning its data.
    #[verifier::loop_isolation(false)]
    pub fn remove(&mut self, path: &str) -> (r: Option<Vec<u8>>)
        ensures
            image_store_wf(old(self)@) ==> image_store_wf(final(self)@),
            match r {
                Some(d) => exists|i: int|
                    0 <= i < old(self)@.len() && (#[trigger] old(self)@[i]).0@ == path@ && (forall|
                    j: int|
                        0 <= j < i ==> old(self)@[j].0@ != path@) && d == old(self)@[i].1 && final(self)@ == old(self)@.remove(i),
                None => !store_has(old(self)@, path@) && final(self)@ == old(self)@,
            },
    {
        let n = self.entries.len();
        let mut i: usize = 0;
        while i < n
            invariant
                i <= n,
                n == self@.len(),
                self@ == old(self)@,
                forall|j: int| 0 <= j < i ==> self@[j].0@ != path@,
            decreases n - i,
        {
            if str_eq(self.entries[i].0.as_str(), path) {
                let pair = self.entries.remove(i);
                proof {
                    let s0 = old(self)@;
                    if image_store_wf(s0) {
                        assert forall|a: int, b: int| 0 <= a < b < self@.len() implies self@[a].0@
                            != self@[b].0@ by {
                            let a0 = if a < i { a } else { a + 1 };
                            let b0 = if b < i { b } else { b + 1 };
                            assert(self@[a] == s0[a0]);
                            assert(self@[b] == s0[b0]);
                        }
                        assert forall|a: int| 0 <= a < self@.len() implies valid_image_path(
                            #[trigger] self@[a].0@,
                        ) && is_png(#[trigger] self@[a].1@) by {
                            let a0 = if a < i { a } else { a + 1 };
                            assert(self@[a] == s0[a0]);
                        }
                    }
                    assert((old(self)@[i as int]).0@ == path@);
                }
                return Some(pair.1);
            }
            i += 1;
        }
        None
    }

    /// Inserts an image under the given name. The name must be non-empty
    /// and name no subdirectory, and the data must begin with the PNG
    /// signature. An existing entry under the same name is replaced.
    #[verifier::loop_isolation(false)]
    pub fn insert(&mut self, path: String, data: Vec<u8>) -> (r: Result<(), StoreError>)
        requires
            image_store_wf(old(self)@),
        ensures
            image_store_wf(final(self)@),
            match r {
                Ok(()) => {
                    &&& valid_image_path(path@)
                    &&& is_png(data@)
                    &&& store_has(final(self)@, path@)
                    &&& store_get(final(self)@, path@) == Some(data@)
                    &&& forall|k: Seq<char>|
                        k != path@ ==> (store_has(final(self)@, k) == store_has(old(self)@, k)
                            && store_get(final(self)@, k) == store_get(old(self)@, k))
                },
                Err(e) => {
                    &&& final(self)@ == old(self)@
                    &&& (e == StoreError::EmptyPath <==> path@.len() == 0)
                    &&& (e == StoreError::PathIsAbsolute <==> path@.len() > 0 && path@[0] == '/')
                    &&& (e == StoreError::Subdir <==> path@.len() > 0 && path@[0] != '/' && (
                    exists|i: int| 0 < i < path@.len() && path@[i] == '/'))
                    &&& (e == StoreError::InvalidImage <==> valid_image_path(path@) && !is_png(
                        data@,
                    ))
                },
            },
    {
        let plen = path.as_str().unicode_len();
        if plen == 0 {
            return Err(StoreError::EmptyPath);
        }
        if path.as_str().get_char(0) == '/' {
            return Err(StoreError::PathIsAbsolute);
        }
        let mut i: usize = 1;
        while i < plen
            invariant
                1 <= i <= plen,
                plen == path@.len(),
                forall|j: int| 0 < j < i ==> path@[j] != '/',
            decreases plen - i,
        {
            if path.as_str().get_char(i) == '/' {
                return Err(StoreError::Subdir);
            }
            i += 1;
        }
        if data.len() < 8 {
            return Err(StoreError::InvalidImage);
        }
        let sig: [u8; 8] = [0x89, 0x50, 0x4e, 0x47, 0x0d, 0x0a, 0x1a, 0x0a];
        let mut b: usize = 0;
        while b < 8
            invariant
                b <= 8,
                data@.len() >= 8,
                sig@ == png_signature(),
                forall|j: int| 0 <= j < b ==> data@[j] == png_signature()[j],
            decreases 8 - b,
        {
            if data[b] != sig[b] {
                proof {
                    assert(data@.subrange(0, 8)[b as int] == data@[b as int]);
                }
                return Err(StoreError::InvalidImage);
            }
            b += 1;
        }
        proof {
            assert(data@.subrange(0, 8) =~= png_signature());
        }
        let n = self.entries.len();
        let mut j: usize = 0;
        let mut found: usize = n;
        while j < n
            invariant
                j <= n,
                found <= n,
                n == self@.len(),
                self@ == old(self)@,
                found < n ==> self@[found as int].0@ == path@,
                found == n ==> forall|m: int| 0 <= m < j ==> self@[m].0@ != path@,
            decreases n - j,
        {
            if str_eq(self.entries[j].0.as_str(), path.as_str()) {
                found = j;
            }
            j += 1;
        }
        let ghost s0 = self@;
        if found < n {
            let mut pair = (path, data);
            std::mem::swap(&mut self.entries[found], &mut pair);
        } else {
            self.entries.push((path, data));
        }
        proof {
            let sf = self@;
            let fi = if found < n {
                found as int
            } else {
                n as int
            };
            assert forall|a: int, b2: int| 0 <= a < b2 < sf.len() implies sf[a].0@
                != sf[b2].0@ by {
                if a != fi {
                    assert(sf[a] == s0[a]);
                }
                if b2 != fi {
                    assert(sf[b2] == s0[b2]);
                }
            }
            assert forall|a: int| 0 <= a < sf.len() implies valid_image_path(#[trigger] sf[a].0@)
                && is_png(#[trigger] sf[a].1@) by {
                if a != fi {
                    assert(sf[a] == s0[a]);
                }
            }
            assert(sf[fi].0@ == path@);
            assert(store_has(sf, path@));
            assert forall|k: Seq<char>| k != path@ implies (store_has(sf, k) == store_has(s0, k)
                && store_get(sf, k) == store_get(s0, k)) by {
                if store_has(s0, k) {
                    let w = choose|w: int| 0 <= w < s0.len() && s0[w].0@ == k;
                    assert(sf[w] == s0[w]);
                    assert(store_has(sf, k));
                }
                if store_has(sf, k) {
                    let w = choose|w: int| 0 <= w < sf.len() && sf[w].0@ == k;
                    assert(sf[w] == s0[w]);
                    assert(store_has(s0, k));
                }
                if store_has(s0, k) {
                    let w1 = choose|w: int| 0 <= w < s0.len() && s0[w].0@ == k;
                    let w2 = choose|w: int| 0 <= w < sf.len() && sf[w].0@ == k;
                    assert(sf[w2] == s0[w2]);
                    if w1 != w2 {
                        assert(s0[w1].0@ == s0[w2].0@);
                    }
                    assert(store_get(s0, k) == Some(s0[w1].1@));
                    assert(store_get(sf, k) == Some(sf[w2].1@));
                }
            }
            let w2 = choose|w: int| 0 <= w < sf.len() && sf[w].0@ == path@;
            if w2 != fi {
                assert(sf[w2] == s0[w2]);
                if found < n {
                    assert(s0[found as int].0@ == s0[w2].0@);
                } else {
                    assert(store_has(s0, path@) == false);
                }
            }
            assert(store_get(sf, path@) == Some(data@));
        }
        Ok(())
    }
}

} // verus!
