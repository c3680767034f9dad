//! Layers, and the font-level set of layers.
//!
//! A layer is a named set of glyphs; glyph names are unique within it. A
//! font owns an ordered list of layers with unique names, the first of which
//! is the default layer and maps to the `glyphs` directory on disk.

use vstd::prelude::*;
use vstd::string::StrSliceExecFns;
use crate::error::Error;
use crate::glyph::Glyph;
use crate::plist::Plist;
use crate::shared::Color;
use crate::util::str_eq;

verus! {

/// Whether the glyphs' names are pairwise distinct.
pub open spec fn glyph_names_unique(gs: Seq<Glyph>) -> bool {
    forall|i: int, j: int| 0 <= i < j < gs.len() ==> gs[i].name@ != gs[j].name@
}

/// Whether some glyph has the given name.
pub open spec fn has_glyph_named(gs: Seq<Glyph>, name: Seq<char>) -> bool {
    exists|i: int| 0 <= i < gs.len() && gs[i].name@ == name
}

/// A named set of glyphs within a font, mapping to one directory on disk.
/// Insertion order is preserved for serialization stability.
#[derive(Debug, PartialEq)]
pub struct Layer {
    name: String,
    path: String,
    /// The layer's display color.
    color: Option<Color>,
    /// The layer's lib for arbitrary data.
    lib: Plist,
    glyphs: Vec<Glyph>,
}

impl View for Layer {
    type V = Seq<Glyph>;

    closed spec fn view(&self) -> Seq<Glyph> {
        self.glyphs@
    }
}

impl Layer {
    /// The layer's name.
    pub closed spec fn spec_name(&self) -> Seq<char> {
        self.name@
    }

    /// The layer's on-disk directory name.
    pub closed spec fn spec_path(&self) -> Seq<char> {
        self.path@
    }

    /// The layer's display color.
    pub closed spec fn spec_color(&self) -> Option<Color> {
        self.color
    }

    /// The layer's lib.
    pub closed spec fn spec_lib(&self) -> Plist {
        self.lib
    }

    /// The layer's display color.
    pub fn color(&self) -> (r: &Option<Color>)
        ensures
            *r == self.spec_color(),
    {
        &self.color
    }

    /// Sets the layer's display color.
    pub fn set_color(&mut self, color: Option<Color>)
        ensures
            final(self).spec_color() == color,
            final(self).spec_name() == old(self).spec_name(),
            final(self).spec_path() == old(self).spec_path(),
            final(self).spec_lib() == old(self).spec_lib(),
            final(self)@ == old(self)@,
    {
        self.color = color;
    }

    /// The layer's lib.
    pub fn lib(&self) -> (r: &Plist)
        ensures
            *r == self.spec_lib(),
    {
        &self.lib
    }

    /// Replaces the layer's lib, returning the old one.
    pub fn replace_lib(&mut self, lib: Plist) -> (r: Plist)
        ensures
            final(self).spec_lib() == lib,
            r == old(self).spec_lib(),
            final(self).spec_name() == old(self).spec_name(),
            final(self).spec_path() == old(self).spec_path(),
            final(self).spec_color() == old(self).spec_color(),
            final(self)@ == old(self)@,
    {
        let mut lib = lib;
        std::mem::swap(&mut self.lib, &mut lib);
        lib
    }

    /// Returns a new, empty layer with the given name and directory name.
    pub fn new(name: String, path: String) -> (r: Self)
        ensures
            r.spec_name() == name@,
            r.spec_path() == path@,
            r.spec_color() is None,
            r.spec_lib()@ == Seq::<(String, crate::plist::Value)>::empty(),
            r@ == Seq::<Glyph>::empty(),
    {
        Layer { name, path, color: None, lib: Plist::new(), glyphs: Vec::new() }
    }

    /// The layer's name.
    pub fn name(&self) -> (r: &str)
        ensures
            r@ == self.spec_name(),
    {
        self.name.as_str()
    }

    /// The layer's on-disk directory name.
    pub fn path(&self) -> (r: &str)
        ensures
            r@ == self.spec_path(),
    {
        self.path.as_str()
    }

    /// The number of glyphs.
    pub fn len(&self) -> (n: usize)
        ensures
            n == self@.len(),
    {
        self.glyphs.len()
    }

    /// Whether the layer holds no glyphs.
    pub fn is_empty(&self) -> (r: bool)
        ensures
            r == (self@.len() == 0),
    {
        self.glyphs.len() == 0
    }

    /// The glyphs, in insertion order.
    pub fn glyphs(&self) -> (r: &Vec<Glyph>)
        ensures
            r@ == self@,
    {
        &self.glyphs
    }

    /// Looks up the glyph with the given name.
    pub fn get_glyph(&self, name: &str) -> (r: Option<&Glyph>)
        ensures
            match r {
                Some(g) => has_glyph_named(self@, name@) && g.name@ == name@ && exists|i: int|
                    0 <= i < self@.len() && self@[i] == *g,
                None => !has_glyph_named(self@, name@),
            },
    {
        let n = self.glyphs.len();
        let mut i: usize = 0;
        while i < n
            invariant
                i <= n,
                n == self@.len(),
                forall|j: int| 0 <= j < i ==> self@[j].name@ != name@,
            decreases n - i,
        {
            if str_eq(self.glyphs[i].name.as_str(), name) {
                return Some(&self.glyphs[i]);
            }
            i += 1;
        }
        None
    }

    /// Whether the layer holds a glyph with the given name.
    pub fn contains_glyph(&self, name: &str) -> (r: bool)
        ensures
            r == has_glyph_named(self@, name@),
    {
        self.get_glyph(name).is_some()
    }

    /// Adds a glyph, replacing any glyph already under the same name.
    #[verifier::loop_isolation(false)]
    pub fn insert_glyph(&mut self, glyph: Glyph) -> (r: Option<Glyph>)
        requires
            glyph_names_unique(old(self)@),
        ensures
            glyph_names_unique(final(self)@),
            final(self).spec_name() == old(self).spec_name(),
            final(self).spec_path() == old(self).spec_path(),
            final(self).spec_color() == old(self).spec_color(),
            final(self).spec_lib() == old(self).spec_lib(),
            has_glyph_named(old(self)@, glyph.name@) ==> exists|i: int|
                0 <= i < old(self)@.len() && (#[trigger] old(self)@[i]).name@ == glyph.name@ && r
                    == Some(old(self)@[i]) && final(self)@ == old(self)@.update(i, glyph),
            !has_glyph_named(old(self)@, glyph.name@) ==> final(self)@ == old(self)@.push(glyph)
                && r is None,
    {
        let ghost s0 = self@;
        let n = self.glyphs.len();
        let mut i: usize = 0;
        let mut found: usize = n;
        while i < n
            invariant
                i <= n,
                found <= n,
                self@ == s0,
                n == s0.len(),
                found < n ==> s0[found as int].name@ == glyph.name@,
                found == n ==> forall|j: int| 0 <= j < i ==> s0[j].name@ != glyph.name@,
            decreases n - i,
        {
            if str_eq(self.glyphs[i].name.as_str(), glyph.name.as_str()) {
                found = i;
            }
            i += 1;
        }
        let ghost gname = glyph.name@;
        let r: Option<Glyph>;
        if found < n {
            let mut slot = glyph;
            std::mem::swap(&mut self.glyphs[found], &mut slot);
            r = Some(slot);
        } else {
            self.glyphs.push(glyph);
            r = None;
        }
        proof {
            let sf = self@;
            let fi = if found < n {
                found as int
            } else {
                n as int
            };
            assert(sf[fi].name@ == gname);
            assert forall|a: int, b: int| 0 <= a < b < sf.len() implies sf[a].name@
                != sf[b].name@ by {
                if a != fi {
                    assert(sf[a] == s0[a]);
                }
                if b != fi {
                    assert(sf[b] == s0[b]);
                }
            }
            assert forall|k: Seq<char>| k != gname implies has_glyph_named(sf, k)
                == has_glyph_named(s0, k) by {
                if has_glyph_named(s0, k) {
                    let w = choose|w: int| 0 <= w < s0.len() && s0[w].name@ == k;
                    assert(sf[w] == s0[w]);
                }
                if has_glyph_named(sf, k) {
                    let w = choose|w: int| 0 <= w < sf.len() && sf[w].name@ == k;
                    assert(sf[w] == s0[w]);
                }
            }
        }
        r
    }

    /// Removes the glyph with the given name, returning it.
    #[verifier::loop_isolation(false)]
    #[verifier::rlimit(80)]
    #[verifier::spinoff_prover]
    pub fn remove_glyph(&mut self, name: &str) -> (r: Option<Glyph>)
        ensures
            glyph_names_unique(old(self)@) ==> glyph_names_unique(final(self)@),
            final(self).spec_name() == old(self).spec_name(),
            final(self).spec_path() == old(self).spec_path(),
            match r {
                Some(g) => exists|i: int|
                    0 <= i < old(self)@.len() && (#[trigger] old(self)@[i]).name@ == name@ && (
                    forall|j: int| 0 <= j < i ==> old(self)@[j].name@ != name@) && g == old(
                        self,
                    )@[i] && final(self)@ == old(self)@.remove(i),
                None => !has_glyph_named(old(self)@, name@) && final(self)@ == old(self)@,
            },
    {
        let n = self.glyphs.len();
        let mut i: usize = 0;
        while i < n
            invariant
                i <= n,
                n == self@.len(),
                self@ == old(self)@,
                self.spec_name() == old(self).spec_name(),
                self.spec_path() == old(self).spec_path(),
                self.spec_color() == old(self).spec_color(),
                self.spec_lib() == old(self).spec_lib(),
                forall|j: int| 0 <= j < i ==> self@[j].name@ != name@,
            decreases n - i,
        {
            if str_eq(self.glyphs[i].name.as_str(), name) {
                let g = self.glyphs.remove(i);
                proof {
                    let s0 = old(self)@;
                    if glyph_names_unique(s0) {
                        assert forall|a: int, b: int| 0 <= a < b < self@.len() implies self@[
                        a].name@ != self@[b].name@ by {
                            let a0 = if a < i { a } else { a + 1 };
                            let b0 = if b < i { b } else { b + 1 };
                            assert(self@[a] == s0[a0]);
                            assert(self@[b] == s0[b0]);
                        }
                    }
                }
                return Some(g);
            }
            i += 1;
        }
        None
    }
}

/// Whether the layers' names are pairwise distinct.
pub open spec fn layer_names_unique(ls: Seq<Layer>) -> bool {
    forall|i: int, j: int| 0 <= i < j < ls.len() ==> ls[i].spec_name() != ls[j].spec_name()
}

/// Whether some layer has the given name.
pub open spec fn has_layer_named(ls: Seq<Layer>, name: Seq<char>) -> bool {
    exists|i: int| 0 <= i < ls.len() && ls[i].spec_name() == name
}

/// Whether one list of layers is the other with exactly one layer renamed
/// in place: that layer keeps its path, color, lib and glyphs, and every
/// other layer is untouched.
pub open spec fn renamed_in_place(
    before: Seq<Layer>,
    after: Seq<Layer>,
    old_name: Seq<char>,
    new_name: Seq<char>,
) -> bool {
    exists|i: int|
        0 <= i < before.len() && (#[trigger] before[i]).spec_name() == old_name
            && after[i].spec_name() == new_name && after[i].spec_path() == before[i].spec_path()
            && after[i].spec_color() == before[i].spec_color() && after[i].spec_lib()
            == before[i].spec_lib() && after[i]@ == before[i]@ && (forall|j: int|
            0 <= j < before.len() && j != i ==> after[j] == before[j])
}

/// The set of layers of a font: a non-empty list with unique names whose
/// first entry is the default layer, stored on disk under `glyphs`.
#[derive(Debug, PartialEq)]
pub struct LayerSet {
    layers: Vec<Layer>,
}

impl View for LayerSet {
    type V = Seq<Layer>;

    closed spec fn view(&self) -> Seq<Layer> {
        self.layers@
    }
}

/// The well-formedness of a font's layer list: at least the default layer,
/// and unique names.
pub open spec fn layer_set_wf(ls: Seq<Layer>) -> bool {
    &&& ls.len() > 0
    &&& layer_names_unique(ls)
}

impl LayerSet {
    /// Returns a layer set holding one empty default layer.
    pub fn new() -> (r: Self)
        ensures
            r@.len() == 1,
            layer_set_wf(r@),
            r@[0].spec_name() == "public.default"@,
            r@[0].spec_path() == "glyphs"@,
            r@[0]@ == Seq::<Glyph>::empty(),
    {
        let default_layer = Layer::new(
            String::from_str("public.default"),
            String::from_str("glyphs"),
        );
        let mut layers = Vec::new();
        layers.push(default_layer);
        LayerSet { layers }
    }

    /// The number of layers.
    pub fn len(&self) -> (n: usize)
        ensures
            n == self@.len(),
    {
        self.layers.len()
    }

    /// The layers, in order; the first is the default layer.
    pub fn layers(&self) -> (r: &Vec<Layer>)
        ensures
            r@ == self@,
    {
        &self.layers
    }

    /// The default layer.
    pub fn default_layer(&self) -> (r: &Layer)
        requires
            self@.len() > 0,
        ensures
            *r == self@[0],
    {
        &self.layers[0]
    }

    /// Looks up the layer with the given name.
    pub fn get(&self, name: &str) -> (r: Option<&Layer>)
        ensures
            match r {
                Some(l) => has_layer_named(self@, name@) && l.spec_name() == name@ && exists|i: int|
                    0 <= i < self@.len() && self@[i] == *l,
                None => !has_layer_named(self@, name@),
            },
    {
        let n = self.layers.len();
        let mut i: usize = 0;
        while i < n
            invariant
                i <= n,
                n == self@.len(),
                forall|j: int| 0 <= j < i ==> self@[j].spec_name() != name@,
            decreases n - i,
        {
            if str_eq(self.layers[i].name(), name) {
                return Some(&self.layers[i]);
            }
            i += 1;
        }
        None
    }

    /// Adds a new, empty layer. A layer under that name already existing is
    /// an error.
    #[verifier::loop_isolation(false)]
    pub fn new_layer(&mut self, name: String, path: String) -> (r: Result<(), Error>)
        requires
            layer_set_wf(old(self)@),
        ensures
            layer_set_wf(final(self)@),
            match r {
                Ok(()) => {
                    &&& !has_layer_named(old(self)@, name@)
                    &&& final(self)@.len() == old(self)@.len() + 1
                    &&& forall|j: int| 0 <= j < old(self)@.len() ==> final(self)@[j] == old(self)@[j]
                    &&& final(self)@.last().spec_name() == name@
                    &&& final(self)@.last().spec_path() == path@
                    &&& final(self)@.last()@ == Seq::<Glyph>::empty()
                },
                Err(e) => {
                    &&& final(self)@ == old(self)@
                    &&& has_layer_named(old(self)@, name@)
                    &&& e == Error::DuplicateLayer(name)
                },
            },
    {
        let n = self.layers.len();
        let mut i: usize = 0;
        while i < n
            invariant
                i <= n,
                forall|j: int| 0 <= j < i ==> self@[j].spec_name() != name@,
            decreases n - i,
        {
            if str_eq(self.layers[i].name(), name.as_str()) {
                return Err(Error::DuplicateLayer(name));
            }
            i += 1;
        }
        let ghost gname = name@;
        let layer = Layer::new(name, path);
        self.layers.push(layer);
        proof {
            let s0 = old(self)@;
            let sf = self@;
            assert forall|a: int, b: int| 0 <= a < b < sf.len() implies sf[a].spec_name()
                != sf[b].spec_name() by {
                assert(sf[a] == s0[a]);
                if b < sf.len() - 1 {
                    assert(sf[b] == s0[b]);
                }
            }
        }
        Ok(())
    }

    /// Renames a layer. A missing source name or an already taken target
    /// name is an error.
    #[verifier::loop_isolation(false)]
    #[verifier::rlimit(80)]
    #[verifier::spinoff_prover]
    pub fn rename_layer(&mut self, old_name: &str, new_name: String) -> (r: Result<(), Error>)
        requires
            layer_set_wf(old(self)@),
        ensures
            layer_set_wf(final(self)@),
            match r {
                Ok(()) => {
                    &&& has_layer_named(old(self)@, old_name@)
                    &&& old_name@ == new_name@ || !has_layer_named(old(self)@, new_name@)
                    &&& final(self)@.len() == old(self)@.len()
                    &&& renamed_in_place(old(self)@, final(self)@, old_name@, new_name@)
                },
                Err(e) => {
                    &&& final(self)@ == old(self)@
                    &&& match e {
                        Error::MissingLayer(n) => n@ == old_name@ && !has_layer_named(
                            old(self)@,
                            old_name@,
                        ),
                        Error::DuplicateLayer(n) => n@ == new_name@ && has_layer_named(
                            old(self)@,
                            old_name@,
                        ) && has_layer_named(old(self)@, new_name@) && old_name@ != new_name@,
                        _ => false,
                    }
                },
            },
    {
        if str_eq(old_name, new_name.as_str()) {
            // renaming a layer to its own name changes nothing
            let n = self.layers.len();
            let mut i: usize = 0;
            while i < n
                invariant
                    i <= n,
                    forall|j: int| 0 <= j < i ==> self@[j].spec_name() != old_name@,
                decreases n - i,
            {
                if str_eq(self.layers[i].name(), old_name) {
                    return Ok(());
                }
                i += 1;
            }
            return Err(Error::MissingLayer(old_name.to_owned()));
        }
        let n = self.layers.len();
        let mut i: usize = 0;
        let mut found: usize = n;
        while i < n
            invariant
                i <= n,
                found <= n,
                found < n ==> self@[found as int].spec_name() == old_name@,
                found == n ==> forall|j: int| 0 <= j < i ==> self@[j].spec_name() != old_name@,
            decreases n - i,
        {
            if str_eq(self.layers[i].name(), old_name) {
                found = i;
            }
            i += 1;
        }
        if found == n {
            return Err(Error::MissingLayer(old_name.to_owned()));
        }
        let mut j: usize = 0;
        while j < n
            invariant
                j <= n,
                forall|m: int| 0 <= m < j ==> self@[m].spec_name() != new_name@,
            decreases n - j,
        {
            if str_eq(self.layers[j].name(), new_name.as_str()) {
                return Err(Error::DuplicateLayer(new_name));
            }
            j += 1;
        }
        let ghost s0 = self@;
        let ghost gnew = new_name@;
        let layer = &mut self.layers[found];
        layer.set_name(new_name);
        proof {
            let sf = self@;
            assert forall|a: int, b: int| 0 <= a < b < sf.len() implies sf[a].spec_name()
                != sf[b].spec_name() by {
                if a != found {
                    assert(sf[a] == s0[a]);
                }
                if b != found {
                    assert(sf[b] == s0[b]);
                }
            }
            assert(sf[found as int].spec_name() == gnew);
        }
        Ok(())
    }
}

impl Layer {
    /// Renames the layer in place; the layer set guards uniqueness.
    fn set_name(&mut self, name: String)
        ensures
            final(self).spec_name() == name@,
            final(self).spec_path() == old(self).spec_path(),
            final(self).spec_color() == old(self).spec_color(),
            final(self).spec_lib() == old(self).spec_lib(),
            final(self)@ == old(self)@,
    {
        self.name = name;
    }
}

} // verus!
