//! Data related to individual glyphs.

use vstd::prelude::*;
use crate::plist::{Plist, Value, all_dict_values, first_match, has_key, keys_unique, plist_like, spec_get};
use crate::plist::{lemma_first_match, lemma_push_entry, lemma_remove_all_dict, lemma_remove_other_key, lemma_remove_unique_gone};
use crate::error::ErrorKind;
use crate::shared::{Color, Guideline, Identifier, PUBLIC_OBJECT_LIBS_KEY, uuid_v4_text, valid_identifier};

verus! {

/// The name of a glyph.
pub type GlyphName = String;

/// A glyph, as loaded from a `.glif` file.
#[derive(Debug, PartialEq)]
#[verifier::ext_equal]
pub struct Glyph {
    /// The glyph's name.
    pub name: GlyphName,
    /// The glif format version the glyph was read from.
    pub format: GlifVersion,
    /// Horizontal and vertical metrics.
    pub advance: Option<Advance>,
    /// Unicode codepoints mapped to this glyph.
    pub codepoints: Option<Vec<char>>,
    /// A free-form note.
    pub note: Option<String>,
    /// Guidelines local to the glyph.
    pub guidelines: Option<Vec<Guideline>>,
    /// Anchors local to the glyph.
    pub anchors: Option<Vec<Anchor>>,
    /// The glyph's drawing.
    pub outline: Option<Outline>,
    /// A background image.
    pub image: Option<Image>,
    /// The glyph's lib for arbitrary data.
    pub lib: Option<Plist>,
}

/// The version of a `.glif` file.
#[derive(Debug, Clone, Copy, PartialEq, Eq, Structural)]
pub enum GlifVersion {
    /// Format version one.
    V1,
    /// Format version two.
    V2,
}

/// Horizontal and vertical metrics.
#[derive(Debug, Default, Clone, Copy, PartialEq, Eq, Structural)]
pub struct Advance {
    /// The advance height.
    pub height: i64,
    /// The advance width.
    pub width: i64,
}

/// A position marker within a glyph.
#[derive(Debug, PartialEq)]
#[verifier::ext_equal]
pub struct Anchor {
    /// The x coordinate.
    pub x: i64,
    /// The y coordinate.
    pub y: i64,
    /// An arbitrary name for the anchor.
    pub name: Option<String>,
    /// The anchor's display color.
    pub color: Option<Color>,
    /// Unique identifier for the anchor within the glyph. This attribute is
    /// only required when a lib is present and should otherwise only be
    /// added as needed.
    pub identifier: Option<Identifier>,
    /// The anchor's lib for arbitrary data.
    pub lib: Option<Plist>,
}

/// A glyph's drawing: contours and references to other glyphs.
#[derive(Debug, Default, PartialEq)]
#[verifier::ext_equal]
pub struct Outline {
    /// References to other glyphs.
    pub components: Vec<Component>,
    /// The drawn paths.
    pub contours: Vec<Contour>,
}

/// Another glyph inserted as part of the outline.
#[derive(Debug, PartialEq)]
#[verifier::ext_equal]
pub struct Component {
    /// The name of the base glyph.
    pub base: GlyphName,
    /// The transform applied to the base glyph.
    pub transform: AffineTransform,
    /// Unique identifier for the component within the glyph. This attribute
    /// is only required when a lib is present and should otherwise only be
    /// added as needed.
    pub identifier: Option<Identifier>,
    /// The component's lib for arbitrary data.
    pub lib: Option<Plist>,
}

/// An ordered sequence of points describing a path. The contour is open if
/// and only if it begins with a move point; otherwise it is cyclic.
#[derive(Debug, Default, PartialEq)]
#[verifier::ext_equal]
pub struct Contour {
    /// The contour's points.
    pub points: Vec<ContourPoint>,
    /// Unique identifier for the contour within the glyph. This attribute is
    /// only required when a lib is present and should otherwise only be
    /// added as needed.
    pub identifier: Option<Identifier>,
    /// The contour's lib for arbitrary data.
    pub lib: Option<Plist>,
}

impl Contour {
    /// A contour is closed unless its first point is a move.
    pub fn is_closed(&self) -> (r: bool)
        ensures
            r == spec_is_closed(self.points@),
    {
        if self.points.len() == 0 {
            true
        } else {
            match self.points[0].typ {
                PointType::Move => false,
                _ => true,
            }
        }
    }
}

/// A contour is closed unless its first point is a move.
pub open spec fn spec_is_closed(points: Seq<ContourPoint>) -> bool {
    points.len() == 0 || points[0].typ != PointType::Move
}

/// One point of a contour.
#[derive(Debug, PartialEq)]
#[verifier::ext_equal]
pub struct ContourPoint {
    /// The x coordinate.
    pub x: i64,
    /// The y coordinate.
    pub y: i64,
    /// The point's type.
    pub typ: PointType,
    /// Whether the point marks a smooth joint between two curve segments.
    pub smooth: bool,
    /// An arbitrary name for the point.
    pub name: Option<String>,
    /// Unique identifier for the point within the glyph. This attribute is
    /// only required when a lib is present and should otherwise only be
    /// added as needed.
    pub identifier: Option<Identifier>,
    /// The point's lib for arbitrary data.
    pub lib: Option<Plist>,
}

/// The type of a contour point.
#[derive(Debug, Clone, Copy, PartialEq, Eq, Structural)]
pub enum PointType {
    /// A point of this type must be the first in a contour, and marks the
    /// beginning of an open contour.
    Move,
    /// Draw a straight line from the previous on-curve point to this point.
    Line,
    /// This point is part of a curve segment that goes up to the next point
    /// that is either a curve or a qcurve.
    OffCurve,
    /// Draw a cubic bezier curve from the last non-offcurve point to this
    /// point, using up to two preceding off-curves as control points.
    Curve,
    /// Similar to curve, but uses quadratic curves with implied on-curve
    /// points between consecutive off-curves.
    QCurve,
}

/// Taken together in order, these fields represent an affine transformation
/// matrix.
#[derive(Debug, Clone, Copy, PartialEq, Eq, Structural)]
pub struct AffineTransform {
    /// The x scale.
    pub x_scale: i64,
    /// The xy shear.
    pub xy_scale: i64,
    /// The yx shear.
    pub yx_scale: i64,
    /// The y scale.
    pub y_scale: i64,
    /// The x offset.
    pub x_offset: i64,
    /// The y offset.
    pub y_offset: i64,
}

impl AffineTransform {
    /// `[1 0 0 1 0 0]`: the identity transformation.
    pub fn identity() -> (r: Self)
        ensures
            r == (AffineTransform {
                x_scale: 1i64,
                xy_scale: 0i64,
                yx_scale: 0i64,
                y_scale: 1i64,
                x_offset: 0i64,
                y_offset: 0i64,
            }),
    {
        AffineTransform {
            x_scale: 1,
            xy_scale: 0,
            yx_scale: 0,
            y_scale: 1,
            x_offset: 0,
            y_offset: 0,
        }
    }
}

impl Default for AffineTransform {
    fn default() -> (r: Self)
        ensures
            r == (AffineTransform {
                x_scale: 1i64,
                xy_scale: 0i64,
                yx_scale: 0i64,
                y_scale: 1i64,
                x_offset: 0i64,
                y_offset: 0i64,
            }),
    {
        Self::identity()
    }
}

/// A background image of a glyph.
#[derive(Debug, PartialEq)]
#[verifier::ext_equal]
pub struct Image {
    /// The name of the image file within the font's image store.
    pub file_name: String,
    /// The color the image is drawn in.
    pub color: Option<Color>,
    /// The transform applied to the image.
    pub transform: AffineTransform,
}

impl Anchor {
    /// Returns a new anchor.
    pub fn new(
        x: i64,
        y: i64,
        name: Option<String>,
        color: Option<Color>,
        identifier: Option<Identifier>,
        lib: Option<Plist>,
    ) -> (r: Self)
        ensures
            r == (Anchor { x, y, name, color, identifier, lib }),
    {
        Self { x, y, name, color, identifier, lib }
    }

    /// Returns a reference to the anchor's lib.
    pub fn lib(&self) -> (r: Option<&Plist>)
        ensures
            match r {
                Some(l) => self.lib == Some(*l),
                None => self.lib is None,
            },
    {
        self.lib.as_ref()
    }

    /// Replaces the lib by the one given, returning the old lib if present.
    /// Sets a new UUID v4 identifier if none is set already.
    pub fn replace_lib(&mut self, lib: Plist) -> (r: Option<Plist>)
        ensures
            final(self).lib == Some(lib),
            r == old(self).lib,
            old(self).identifier is Some ==> final(self).identifier == old(self).identifier,
            old(self).identifier is None ==> (final(self).identifier matches Some(id)
                && uuid_v4_text(id@)),
            final(self).identifier matches Some(id) && valid_identifier(id@),
            final(self).x == old(self).x,
            final(self).y == old(self).y,
            final(self).name == old(self).name,
            final(self).color == old(self).color,
    {
        if self.identifier.is_none() {
            self.identifier = Some(Identifier::from_uuidv4());
        }
        match &self.identifier {
            Some(id) => proof {
                use_type_invariant(id);
            },
            None => (),
        }
        let r = self.lib.take();
        self.lib = Some(lib);
        r
    }

    /// Takes the lib out of the anchor, leaving nothing in its place.
    pub fn take_lib(&mut self) -> (r: Option<Plist>)
        ensures
            r == old(self).lib,
            *final(self) == (Anchor { lib: None, ..*old(self) }),
    {
        self.lib.take()
    }

    /// Returns a reference to the anchor's identifier.
    pub fn identifier(&self) -> (r: Option<&Identifier>)
        ensures
            match r {
                Some(id) => self.identifier == Some(*id),
                None => self.identifier is None,
            },
    {
        self.identifier.as_ref()
    }

    /// Replaces the identifier by the one given, returning the old
    /// identifier if present.
    pub fn replace_identifier(&mut self, id: Identifier) -> (r: Option<Identifier>)
        ensures
            r == old(self).identifier,
            *final(self) == (Anchor { identifier: Some(id), ..*old(self) }),
    {
        let r = self.identifier.take();
        self.identifier = Some(id);
        r
    }
}

impl Contour {
    /// Returns a new contour.
    pub fn new(points: Vec<ContourPoint>, identifier: Option<Identifier>, lib: Option<Plist>) -> (r:
        Self)
        ensures
            r == (Contour { points, identifier, lib }),
    {
        Self { points, identifier, lib }
    }

    /// Returns a reference to the contour's lib.
    pub fn lib(&self) -> (r: Option<&Plist>)
        ensures
            match r {
                Some(l) => self.lib == Some(*l),
                None => self.lib is None,
            },
    {
        self.lib.as_ref()
    }

    /// Replaces the lib by the one given, returning the old lib if present.
    /// Sets a new UUID v4 identifier if none is set already.
    pub fn replace_lib(&mut self, lib: Plist) -> (r: Option<Plist>)
        ensures
            final(self).lib == Some(lib),
            r == old(self).lib,
            old(self).identifier is Some ==> final(self).identifier == old(self).identifier,
            old(self).identifier is None ==> (final(self).identifier matches Some(id)
                && uuid_v4_text(id@)),
            final(self).identifier matches Some(id) && valid_identifier(id@),
            final(self).points == old(self).points,
    {
        if self.identifier.is_none() {
            self.identifier = Some(Identifier::from_uuidv4());
        }
        match &self.identifier {
            Some(id) => proof {
                use_type_invariant(id);
            },
            None => (),
        }
        let r = self.lib.take();
        self.lib = Some(lib);
        r
    }

    /// Takes the lib out of the contour, leaving nothing in its place.
    pub fn take_lib(&mut self) -> (r: Option<Plist>)
        ensures
            r == old(self).lib,
            *final(self) == (Contour { lib: None, ..*old(self) }),
    {
        self.lib.take()
    }

    /// Returns a reference to the contour's identifier.
    pub fn identifier(&self) -> (r: Option<&Identifier>)
        ensures
            match r {
                Some(id) => self.identifier == Some(*id),
                None => self.identifier is None,
            },
    {
        self.identifier.as_ref()
    }

    /// Replaces the identifier by the one given, returning the old
    /// identifier if present.
    pub fn replace_identifier(&mut self, id: Identifier) -> (r: Option<Identifier>)
        ensures
            r == old(self).identifier,
            *final(self) == (Contour { identifier: Some(id), ..*old(self) }),
    {
        let r = self.identifier.take();
        self.identifier = Some(id);
        r
    }
}

impl ContourPoint {
    /// Returns a new contour point.
    pub fn new(
        x: i64,
        y: i64,
        typ: PointType,
        smooth: bool,
        name: Option<String>,
        identifier: Option<Identifier>,
        lib: Option<Plist>,
    ) -> (r: Self)
        ensures
            r == (ContourPoint { x, y, typ, smooth, name, identifier, lib }),
    {
        Self { x, y, typ, smooth, name, identifier, lib }
    }

    /// Returns a reference to the point's lib.
    pub fn lib(&self) -> (r: Option<&Plist>)
        ensures
            match r {
                Some(l) => self.lib == Some(*l),
                None => self.lib is None,
            },
    {
        self.lib.as_ref()
    }

    /// Replaces the lib by the one given, returning the old lib if present.
    /// Sets a new UUID v4 identifier if none is set already.
    pub fn replace_lib(&mut self, lib: Plist) -> (r: Option<Plist>)
        ensures
            final(self).lib == Some(lib),
            r == old(self).lib,
            old(self).identifier is Some ==> final(self).identifier == old(self).identifier,
            old(self).identifier is None ==> (final(self).identifier matches Some(id)
                && uuid_v4_text(id@)),
            final(self).identifier matches Some(id) && valid_identifier(id@),
            final(self).x == old(self).x,
            final(self).y == old(self).y,
            final(self).typ == old(self).typ,
            final(self).smooth == old(self).smooth,
            final(self).name == old(self).name,
    {
        if self.identifier.is_none() {
            self.identifier = Some(Identifier::from_uuidv4());
        }
        match &self.identifier {
            Some(id) => proof {
                use_type_invariant(id);
            },
            None => (),
        }
        let r = self.lib.take();
        self.lib = Some(lib);
        r
    }

    /// Takes the lib out of the point, leaving nothing in its place.
    pub fn take_lib(&mut self) -> (r: Option<Plist>)
        ensures
            r == old(self).lib,
            *final(self) == (ContourPoint { lib: None, ..*old(self) }),
    {
        self.lib.take()
    }

    /// Returns a reference to the point's identifier.
    pub fn identifier(&self) -> (r: Option<&Identifier>)
        ensures
            match r {
                Some(id) => self.identifier == Some(*id),
                None => self.identifier is None,
            },
    {
        self.identifier.as_ref()
    }

    /// Replaces the identifier by the one given, returning the old
    /// identifier if present.
    pub fn replace_identifier(&mut self, id: Identifier) -> (r: Option<Identifier>)
        ensures
            r == old(self).identifier,
            *final(self) == (ContourPoint { identifier: Some(id), ..*old(self) }),
    {
        let r = self.identifier.take();
        self.identifier = Some(id);
        r
    }
}

impl Component {
    /// Returns a new component.
    pub fn new(
        base: GlyphName,
        transform: AffineTransform,
        identifier: Option<Identifier>,
        lib: Option<Plist>,
    ) -> (r: Self)
        ensures
            r == (Component { base, transform, identifier, lib }),
    {
        Self { base, transform, identifier, lib }
    }

    /// Returns a reference to the component's lib.
    pub fn lib(&self) -> (r: Option<&Plist>)
        ensures
            match r {
                Some(l) => self.lib == Some(*l),
                None => self.lib is None,
            },
    {
        self.lib.as_ref()
    }

    /// Replaces the lib by the one given, returning the old lib if present.
    /// Sets a new UUID v4 identifier if none is set already.
    pub fn replace_lib(&mut self, lib: Plist) -> (r: Option<Plist>)
        ensures
            final(self).lib == Some(lib),
            r == old(self).lib,
            old(self).identifier is Some ==> final(self).identifier == old(self).identifier,
            old(self).identifier is None ==> (final(self).identifier matches Some(id)
                && uuid_v4_text(id@)),
            final(self).identifier matches Some(id) && valid_identifier(id@),
            final(self).base == old(self).base,
            final(self).transform == old(self).transform,
    {
        if self.identifier.is_none() {
            self.identifier = Some(Identifier::from_uuidv4());
        }
        match &self.identifier {
            Some(id) => proof {
                use_type_invariant(id);
            },
            None => (),
        }
        let r = self.lib.take();
        self.lib = Some(lib);
        r
    }

    /// Takes the lib out of the component, leaving nothing in its place.
    pub fn take_lib(&mut self) -> (r: Option<Plist>)
        ensures
            r == old(self).lib,
            *final(self) == (Component { lib: None, ..*old(self) }),
    {
        self.lib.take()
    }

    /// Returns a reference to the component's identifier.
    pub fn identifier(&self) -> (r: Option<&Identifier>)
        ensures
            match r {
                Some(id) => self.identifier == Some(*id),
                None => self.identifier is None,
            },
    {
        self.identifier.as_ref()
    }

    /// Replaces the identifier by the one given, returning the old
    /// identifier if present.
    pub fn replace_identifier(&mut self, id: Identifier) -> (r: Option<Identifier>)
        ensures
            r == old(self).identifier,
            *final(self) == (Component { identifier: Some(id), ..*old(self) }),
    {
        let r = self.identifier.take();
        self.identifier = Some(id);
        r
    }
}

impl Glyph {
    /// Create a new glyph with the given name.
    pub fn new_named(name: String) -> (r: Self)
        ensures
            r == Glyph::spec_new(name, GlifVersion::V2),
    {
        Glyph::new(name, GlifVersion::V2)
    }

    /// A glyph with the given name and format and nothing else.
    pub open spec fn spec_new(name: String, format: GlifVersion) -> Glyph {
        Glyph {
            name,
            format,
            advance: None,
            codepoints: None,
            note: None,
            guidelines: None,
            anchors: None,
            outline: None,
            image: None,
            lib: None,
        }
    }

    /// Create a new glyph with the given name and format.
    pub fn new(name: GlyphName, format: GlifVersion) -> (r: Self)
        ensures
            r == Glyph::spec_new(name, format),
    {
        Glyph {
            name,
            format,
            advance: None,
            codepoints: None,
            note: None,
            guidelines: None,
            anchors: None,
            outline: None,
            image: None,
            lib: None,
        }
    }

    /// If this glyph has an advance, return the width value.
    pub fn advance_width(&self) -> (r: Option<i64>)
        ensures
            r == match self.advance {
                Some(a) => Some(a.width),
                None => None,
            },
    {
        match &self.advance {
            Some(a) => Some(a.width),
            None => None,
        }
    }
}

} // verus!

verus! {

// ---------------------------------------------------------------------------
// Redistribution of `public.objectLibs` between the glyph lib and the
// identified sub-objects it describes.
// ---------------------------------------------------------------------------

/// The view of an optional identifier.
pub open spec fn opt_id_view(id: Option<Identifier>) -> Option<Seq<char>> {
    match id {
        Some(i) => Some(i@),
        None => None,
    }
}

/// The lib an object with the given identifier receives from an object-libs
/// dictionary: the dictionary's entry for the identifier, or the object's
/// old lib when the dictionary has nothing for it.
pub open spec fn filled_lib(
    ol: Seq<(String, Value)>,
    id: Option<Identifier>,
    l: Option<Plist>,
) -> Option<Plist> {
    match id {
        Some(i) => match spec_get(ol, i@) {
            Some(Value::Dictionary(d)) => Some(d),
            _ => l,
        },
        None => l,
    }
}

/// An anchor after receiving its lib from an object-libs dictionary.
pub open spec fn anchor_filled(a: Anchor, ol: Seq<(String, Value)>) -> Anchor {
    Anchor { lib: filled_lib(ol, a.identifier, a.lib), ..a }
}

/// A guideline after receiving its lib from an object-libs dictionary.
pub open spec fn guideline_filled(g: Guideline, ol: Seq<(String, Value)>) -> Guideline {
    Guideline { lib: filled_lib(ol, g.identifier, g.lib), ..g }
}

/// A contour point after receiving its lib from an object-libs dictionary.
pub open spec fn point_filled(p: ContourPoint, ol: Seq<(String, Value)>) -> ContourPoint {
    ContourPoint { lib: filled_lib(ol, p.identifier, p.lib), ..p }
}

/// A component after receiving its lib from an object-libs dictionary.
pub open spec fn component_filled(c: Component, ol: Seq<(String, Value)>) -> Component {
    Component { lib: filled_lib(ol, c.identifier, c.lib), ..c }
}

/// Whether some anchor carries the given identifier.
pub open spec fn anchors_have_id(s: Seq<Anchor>, k: Seq<char>) -> bool {
    exists|j: int| 0 <= j < s.len() && opt_id_view(s[j].identifier) == Some(k)
}

/// Whether the anchors' identifiers are pairwise distinct.
pub open spec fn anchors_ids_distinct(s: Seq<Anchor>) -> bool {
    forall|i: int, j: int|
        0 <= i < j < s.len() ==> opt_id_view(s[i].identifier) is Some ==> opt_id_view(
            s[i].identifier,
        ) != opt_id_view(s[j].identifier)
}

/// Whether some guideline carries the given identifier.
pub open spec fn guidelines_have_id(s: Seq<Guideline>, k: Seq<char>) -> bool {
    exists|j: int| 0 <= j < s.len() && opt_id_view(s[j].identifier) == Some(k)
}

/// Whether the guidelines' identifiers are pairwise distinct.
pub open spec fn guidelines_ids_distinct(s: Seq<Guideline>) -> bool {
    forall|i: int, j: int|
        0 <= i < j < s.len() ==> opt_id_view(s[i].identifier) is Some ==> opt_id_view(
            s[i].identifier,
        ) != opt_id_view(s[j].identifier)
}

/// Whether some point carries the given identifier.
pub open spec fn points_have_id(s: Seq<ContourPoint>, k: Seq<char>) -> bool {
    exists|j: int| 0 <= j < s.len() && opt_id_view(s[j].identifier) == Some(k)
}

/// Whether the points' identifiers are pairwise distinct.
pub open spec fn points_ids_distinct(s: Seq<ContourPoint>) -> bool {
    forall|i: int, j: int|
        0 <= i < j < s.len() ==> opt_id_view(s[i].identifier) is Some ==> opt_id_view(
            s[i].identifier,
        ) != opt_id_view(s[j].identifier)
}

/// Whether some contour carries the given identifier of its own.
pub open spec fn contours_have_id(s: Seq<Contour>, k: Seq<char>) -> bool {
    exists|j: int| 0 <= j < s.len() && opt_id_view(s[j].identifier) == Some(k)
}

/// Whether the contours' own identifiers are pairwise distinct.
pub open spec fn contours_ids_distinct(s: Seq<Contour>) -> bool {
    forall|i: int, j: int|
        0 <= i < j < s.len() ==> opt_id_view(s[i].identifier) is Some ==> opt_id_view(
            s[i].identifier,
        ) != opt_id_view(s[j].identifier)
}

/// Whether some component carries the given identifier.
pub open spec fn components_have_id(s: Seq<Component>, k: Seq<char>) -> bool {
    exists|j: int| 0 <= j < s.len() && opt_id_view(s[j].identifier) == Some(k)
}

/// Whether the components' identifiers are pairwise distinct.
pub open spec fn components_ids_distinct(s: Seq<Component>) -> bool {
    forall|i: int, j: int|
        0 <= i < j < s.len() ==> opt_id_view(s[i].identifier) is Some ==> opt_id_view(
            s[i].identifier,
        ) != opt_id_view(s[j].identifier)
}

/// Whether a contour or one of its points carries the given identifier.
pub open spec fn outline_part_has_id(cs: Seq<Contour>, k: Seq<char>) -> bool {
    contours_have_id(cs, k) || exists|ci: int|
        0 <= ci < cs.len() && #[trigger] points_have_id(cs[ci].points@, k)
}

/// The anchors of a glyph, or nothing.
pub open spec fn opt_anchors(a: Option<Vec<Anchor>>) -> Seq<Anchor> {
    match a {
        Some(v) => v@,
        None => Seq::empty(),
    }
}

/// The guidelines of a glyph, or nothing.
pub open spec fn opt_guidelines(g: Option<Vec<Guideline>>) -> Seq<Guideline> {
    match g {
        Some(v) => v@,
        None => Seq::empty(),
    }
}

/// The contours of a glyph's outline, or nothing.
pub open spec fn outline_contours(o: Option<Outline>) -> Seq<Contour> {
    match o {
        Some(ot) => ot.contours@,
        None => Seq::empty(),
    }
}

/// The components of a glyph's outline, or nothing.
pub open spec fn outline_components(o: Option<Outline>) -> Seq<Component> {
    match o {
        Some(ot) => ot.components@,
        None => Seq::empty(),
    }
}

/// Identifiers are unique within a glyph, across anchors, guidelines,
/// contours, contour points and components.
pub open spec fn glyph_ids_unique(g: Glyph) -> bool {
    let a = opt_anchors(g.anchors);
    let gl = opt_guidelines(g.guidelines);
    let cs = outline_contours(g.outline);
    let cm = outline_components(g.outline);
    &&& anchors_ids_distinct(a)
    &&& guidelines_ids_distinct(gl)
    &&& contours_ids_distinct(cs)
    &&& components_ids_distinct(cm)
    &&& (forall|ci: int| 0 <= ci < cs.len() ==> points_ids_distinct(#[trigger] cs[ci].points@))
    &&& (forall|k: Seq<char>| anchors_have_id(a, k) ==> !guidelines_have_id(gl, k))
    &&& (forall|k: Seq<char>| anchors_have_id(a, k) ==> !contours_have_id(cs, k))
    &&& (forall|k: Seq<char>| anchors_have_id(a, k) ==> !components_have_id(cm, k))
    &&& (forall|k: Seq<char>| anchors_have_id(a, k) ==> !outline_part_has_id(cs, k))
    &&& (forall|k: Seq<char>| guidelines_have_id(gl, k) ==> !contours_have_id(cs, k))
    &&& (forall|k: Seq<char>| guidelines_have_id(gl, k) ==> !components_have_id(cm, k))
    &&& (forall|k: Seq<char>| guidelines_have_id(gl, k) ==> !outline_part_has_id(cs, k))
    &&& (forall|k: Seq<char>| contours_have_id(cs, k) ==> !components_have_id(cm, k))
    &&& (forall|k: Seq<char>| components_have_id(cm, k) ==> !outline_part_has_id(cs, k))
    &&& (forall|ci: int, k: Seq<char>|
        0 <= ci < cs.len() && #[trigger] points_have_id(cs[ci].points@, k)
            ==> !contours_have_id(cs, k))
    &&& (forall|ci: int, cj: int, k: Seq<char>|
        0 <= ci < cj < cs.len() && #[trigger] points_have_id(cs[ci].points@, k)
            ==> !points_have_id(#[trigger] cs[cj].points@, k))
}

/// Whether a lookup of the given optional identifier agrees between two
/// states of an object-libs dictionary.
pub open spec fn preserved_for(
    cur: Seq<(String, Value)>,
    base: Seq<(String, Value)>,
    oid: Option<Seq<char>>,
) -> bool {
    match oid {
        Some(k) => spec_get(cur, k) == spec_get(base, k),
        None => true,
    }
}

/// Removes and returns the object-libs entry for the given identifier.
/// Lookups of every other key are unaffected.
fn take_lib_for(ol: &mut Plist, id: &Identifier) -> (r: Option<Plist>)
    requires
        all_dict_values(old(ol)@),
    ensures
        all_dict_values(final(ol)@),
        forall|k: Seq<char>| k != id@ ==> spec_get(final(ol)@, k) == spec_get(old(ol)@, k),
        match r {
            Some(d) => spec_get(old(ol)@, id@) == Some(Value::Dictionary(d)),
            None => spec_get(old(ol)@, id@) is None,
        },
{
    let ghost ol0 = ol@;
    match ol.remove(id.as_str()) {
        Some(v) => {
            proof {
                lemma_first_match(ol0, id@);
                lemma_remove_all_dict(ol0, first_match(ol0, id@));
                assert forall|k: Seq<char>| k != id@ implies spec_get(ol@, k) == spec_get(
                    ol0,
                    k,
                ) by {
                    lemma_remove_other_key(ol0, id@, k);
                }
                assert(v is Dictionary);
            }
            match v {
                Value::Dictionary(d) => Some(d),
                _ => {
                    proof {
                        assert(false);
                    }
                    None
                },
            }
        },
        None => None,
    }
}

/// Moves anchors' libs in from an object-libs dictionary, consuming the
/// entries that matched. Entries under other keys are unaffected.
fn fill_anchors(anchors: Vec<Anchor>, ol: &mut Plist) -> (dst: Vec<Anchor>)
    requires
        all_dict_values(old(ol)@),
        anchors_ids_distinct(anchors@),
    ensures
        all_dict_values(final(ol)@),
        dst@.len() == anchors@.len(),
        forall|j: int| 0 <= j < anchors@.len() ==> dst@[j] == anchor_filled(anchors@[j], old(ol)@),
        forall|k: Seq<char>|
            !anchors_have_id(anchors@, k) ==> spec_get(final(ol)@, k) == spec_get(old(ol)@, k),
{
    let ghost src0 = anchors@;
    let ghost ol0 = ol@;
    let mut src = anchors;
    let mut dst: Vec<Anchor> = Vec::new();
    while src.len() > 0
        invariant
            all_dict_values(ol@),
            dst@.len() + src@.len() == src0.len(),
            src@ == src0.skip(dst@.len() as int),
            anchors_ids_distinct(src0),
            forall|j: int| 0 <= j < dst@.len() ==> dst@[j] == anchor_filled(src0[j], ol0),
            forall|k: Seq<char>|
                !anchors_have_id(src0, k) ==> spec_get(ol@, k) == spec_get(ol0, k),
            forall|j: int|
                dst@.len() <= j < src0.len() ==> preserved_for(
                    ol@,
                    ol0,
                    opt_id_view(#[trigger] src0[j].identifier),
                ),
        decreases src@.len(),
    {
        let ghost j = dst@.len() as int;
        proof {
            assert(src@[0] == src0[j]);
        }
        let mut a = src.remove(0);
        proof {
            assert(src@ =~= src0.skip(j + 1));
        }
        if a.identifier.is_some() {
            let ghost idv = a.identifier.unwrap()@;
            let r = take_lib_for(ol, a.identifier.as_ref().unwrap());
            proof {
                assert(opt_id_view(src0[j].identifier) == Some(idv));
                assert(anchors_have_id(src0, idv));
                assert forall|k: Seq<char>|
                    !anchors_have_id(src0, k) implies spec_get(ol@, k) == spec_get(ol0, k) by {
                    assert(k != idv);
                }
                assert forall|j2: int|
                    j + 1 <= j2 < src0.len() implies preserved_for(
                    ol@,
                    ol0,
                    opt_id_view(#[trigger] src0[j2].identifier),
                ) by {
                    if src0[j2].identifier is Some {
                        assert(opt_id_view(src0[j].identifier) != opt_id_view(
                            src0[j2].identifier,
                        ));
                    }
                }
            }
            match r {
                Some(d) => {
                    a.lib = Some(d);
                },
                None => {},
            }
            proof {
                assert(a =~= anchor_filled(src0[j], ol0));
            }
        } else {
            proof {
                assert(a =~= anchor_filled(src0[j], ol0));
            }
        }
        dst.push(a);
    }
    dst
}

} // verus!

verus! {

/// Moves guidelines' libs in from an object-libs dictionary, consuming the
/// entries that matched. Entries under other keys are unaffected.
fn fill_guidelines(guidelines: Vec<Guideline>, ol: &mut Plist) -> (dst: Vec<Guideline>)
    requires
        all_dict_values(old(ol)@),
        guidelines_ids_distinct(guidelines@),
    ensures
        all_dict_values(final(ol)@),
        dst@.len() == guidelines@.len(),
        forall|j: int| 0 <= j < guidelines@.len() ==> dst@[j] == guideline_filled(guidelines@[j], old(ol)@),
        forall|k: Seq<char>|
            !guidelines_have_id(guidelines@, k) ==> spec_get(final(ol)@, k) == spec_get(old(ol)@, k),
{
    let ghost src0 = guidelines@;
    let ghost ol0 = ol@;
    let mut src = guidelines;
    let mut dst: Vec<Guideline> = Vec::new();
    while src.len() > 0
        invariant
            all_dict_values(ol@),
            dst@.len() + src@.len() == src0.len(),
            src@ == src0.skip(dst@.len() as int),
            guidelines_ids_distinct(src0),
            forall|j: int| 0 <= j < dst@.len() ==> dst@[j] == guideline_filled(src0[j], ol0),
            forall|k: Seq<char>|
                !guidelines_have_id(src0, k) ==> spec_get(ol@, k) == spec_get(ol0, k),
            forall|j: int|
                dst@.len() <= j < src0.len() ==> preserved_for(
                    ol@,
                    ol0,
                    opt_id_view(#[trigger] src0[j].identifier),
                ),
        decreases src@.len(),
    {
        let ghost j = dst@.len() as int;
        proof {
            assert(src@[0] == src0[j]);
        }
        let mut a = src.remove(0);
        proof {
            assert(src@ =~= src0.skip(j + 1));
        }
        if a.identifier.is_some() {
            let ghost idv = a.identifier.unwrap()@;
            let r = take_lib_for(ol, a.identifier.as_ref().unwrap());
            proof {
                assert(opt_id_view(src0[j].identifier) == Some(idv));
                assert(guidelines_have_id(src0, idv));
                assert forall|k: Seq<char>|
                    !guidelines_have_id(src0, k) implies spec_get(ol@, k) == spec_get(ol0, k) by {
                    assert(k != idv);
                }
                assert forall|j2: int|
                    j + 1 <= j2 < src0.len() implies preserved_for(
                    ol@,
                    ol0,
                    opt_id_view(#[trigger] src0[j2].identifier),
                ) by {
                    if src0[j2].identifier is Some {
                        assert(opt_id_view(src0[j].identifier) != opt_id_view(
                            src0[j2].identifier,
                        ));
                    }
                }
            }
            match r {
                Some(d) => {
                    a.lib = Some(d);
                },
                None => {},
            }
            proof {
                assert(a =~= guideline_filled(src0[j], ol0));
            }
        } else {
            proof {
                assert(a =~= guideline_filled(src0[j], ol0));
            }
        }
        dst.push(a);
    }
    dst
}

/// Moves points' libs in from an object-libs dictionary, consuming the
/// entries that matched. Entries under other keys are unaffected.
fn fill_points(points: Vec<ContourPoint>, ol: &mut Plist) -> (dst: Vec<ContourPoint>)
    requires
        all_dict_values(old(ol)@),
        points_ids_distinct(points@),
    ensures
        all_dict_values(final(ol)@),
        dst@.len() == points@.len(),
        forall|j: int| 0 <= j < points@.len() ==> dst@[j] == point_filled(points@[j], old(ol)@),
        forall|k: Seq<char>|
            !points_have_id(points@, k) ==> spec_get(final(ol)@, k) == spec_get(old(ol)@, k),
{
    let ghost src0 = points@;
    let ghost ol0 = ol@;
    let mut src = points;
    let mut dst: Vec<ContourPoint> = Vec::new();
    while src.len() > 0
        invariant
            all_dict_values(ol@),
            dst@.len() + src@.len() == src0.len(),
            src@ == src0.skip(dst@.len() as int),
            points_ids_distinct(src0),
            forall|j: int| 0 <= j < dst@.len() ==> dst@[j] == point_filled(src0[j], ol0),
            forall|k: Seq<char>|
                !points_have_id(src0, k) ==> spec_get(ol@, k) == spec_get(ol0, k),
            forall|j: int|
                dst@.len() <= j < src0.len() ==> preserved_for(
                    ol@,
                    ol0,
                    opt_id_view(#[trigger] src0[j].identifier),
                ),
        decreases src@.len(),
    {
        let ghost j = dst@.len() as int;
        proof {
            assert(src@[0] == src0[j]);
        }
        let mut a = src.remove(0);
        proof {
            assert(src@ =~= src0.skip(j + 1));
        }
        if a.identifier.is_some() {
            let ghost idv = a.identifier.unwrap()@;
            let r = take_lib_for(ol, a.identifier.as_ref().unwrap());
            proof {
                assert(opt_id_view(src0[j].identifier) == Some(idv));
                assert(points_have_id(src0, idv));
                assert forall|k: Seq<char>|
                    !points_have_id(src0, k) implies spec_get(ol@, k) == spec_get(ol0, k) by {
                    assert(k != idv);
                }
                assert forall|j2: int|
                    j + 1 <= j2 < src0.len() implies preserved_for(
                    ol@,
                    ol0,
                    opt_id_view(#[trigger] src0[j2].identifier),
                ) by {
                    if src0[j2].identifier is Some {
                        assert(opt_id_view(src0[j].identifier) != opt_id_view(
                            src0[j2].identifier,
                        ));
                    }
                }
            }
            match r {
                Some(d) => {
                    a.lib = Some(d);
                },
                None => {},
            }
            proof {
                assert(a =~= point_filled(src0[j], ol0));
            }
        } else {
            proof {
                assert(a =~= point_filled(src0[j], ol0));
            }
        }
        dst.push(a);
    }
    dst
}

/// Moves components' libs in from an object-libs dictionary, consuming the
/// entries that matched. Entries under other keys are unaffected.
fn fill_components(components: Vec<Component>, ol: &mut Plist) -> (dst: Vec<Component>)
    requires
        all_dict_values(old(ol)@),
        components_ids_distinct(components@),
    ensures
        all_dict_values(final(ol)@),
        dst@.len() == components@.len(),
        forall|j: int| 0 <= j < components@.len() ==> dst@[j] == component_filled(components@[j], old(ol)@),
        forall|k: Seq<char>|
            !components_have_id(components@, k) ==> spec_get(final(ol)@, k) == spec_get(old(ol)@, k),
{
    let ghost src0 = components@;
    let ghost ol0 = ol@;
    let mut src = components;
    let mut dst: Vec<Component> = Vec::new();
    while src.len() > 0
        invariant
            all_dict_values(ol@),
            dst@.len() + src@.len() == src0.len(),
            src@ == src0.skip(dst@.len() as int),
            components_ids_distinct(src0),
            forall|j: int| 0 <= j < dst@.len() ==> dst@[j] == component_filled(src0[j], ol0),
            forall|k: Seq<char>|
                !components_have_id(src0, k) ==> spec_get(ol@, k) == spec_get(ol0, k),
            forall|j: int|
                dst@.len() <= j < src0.len() ==> preserved_for(
                    ol@,
                    ol0,
                    opt_id_view(#[trigger] src0[j].identifier),
                ),
        decreases src@.len(),
    {
        let ghost j = dst@.len() as int;
        proof {
            assert(src@[0] == src0[j]);
        }
        let mut a = src.remove(0);
        proof {
            assert(src@ =~= src0.skip(j + 1));
        }
        if a.identifier.is_some() {
            let ghost idv = a.identifier.unwrap()@;
            let r = take_lib_for(ol, a.identifier.as_ref().unwrap());
            proof {
                assert(opt_id_view(src0[j].identifier) == Some(idv));
                assert(components_have_id(src0, idv));
                assert forall|k: Seq<char>|
                    !components_have_id(src0, k) implies spec_get(ol@, k) == spec_get(ol0, k) by {
                    assert(k != idv);
                }
                assert forall|j2: int|
                    j + 1 <= j2 < src0.len() implies preserved_for(
                    ol@,
                    ol0,
                    opt_id_view(#[trigger] src0[j2].identifier),
                ) by {
                    if src0[j2].identifier is Some {
                        assert(opt_id_view(src0[j].identifier) != opt_id_view(
                            src0[j2].identifier,
                        ));
                    }
                }
            }
            match r {
                Some(d) => {
                    a.lib = Some(d);
                },
                None => {},
            }
            proof {
                assert(a =~= component_filled(src0[j], ol0));
            }
        } else {
            proof {
                assert(a =~= component_filled(src0[j], ol0));
            }
        }
        dst.push(a);
    }
    dst
}

} // verus!

verus! {

/// How one contour relates to its original after its lib and its points'
/// libs were moved in from an object-libs dictionary.
pub open spec fn contour_filled_ok(c1: Contour, c0: Contour, ol: Seq<(String, Value)>) -> bool {
    &&& c1.identifier == c0.identifier
    &&& c1.lib == filled_lib(ol, c0.identifier, c0.lib)
    &&& c1.points@.len() == c0.points@.len()
    &&& forall|pj: int|
        0 <= pj < c0.points@.len() ==> c1.points@[pj] == point_filled(
            #[trigger] c0.points@[pj],
            ol,
        )
}

/// Moves contours' and their points' libs in from an object-libs
/// dictionary, consuming the entries that matched. Entries under other keys
/// are unaffected.
fn fill_contours(contours: Vec<Contour>, ol: &mut Plist) -> (dst: Vec<Contour>)
    requires
        all_dict_values(old(ol)@),
        contours_ids_distinct(contours@),
        forall|ci: int|
            0 <= ci < contours@.len() ==> points_ids_distinct(#[trigger] contours@[ci].points@),
        forall|ci: int, k: Seq<char>|
            0 <= ci < contours@.len() && #[trigger] points_have_id(contours@[ci].points@, k)
                ==> !contours_have_id(contours@, k),
        forall|ci: int, cj: int, k: Seq<char>|
            0 <= ci < cj < contours@.len() && #[trigger] points_have_id(contours@[ci].points@, k)
                ==> !points_have_id(#[trigger] contours@[cj].points@, k),
    ensures
        all_dict_values(final(ol)@),
        dst@.len() == contours@.len(),
        forall|ci: int|
            0 <= ci < contours@.len() ==> contour_filled_ok(
                #[trigger] dst@[ci],
                contours@[ci],
                old(ol)@,
            ),
        forall|k: Seq<char>|
            !outline_part_has_id(contours@, k) ==> spec_get(final(ol)@, k) == spec_get(
                old(ol)@,
                k,
            ),
{
    let ghost src0 = contours@;
    let ghost ol0 = ol@;
    let mut src = contours;
    let mut dst: Vec<Contour> = Vec::new();
    while src.len() > 0
        invariant
            all_dict_values(ol@),
            dst@.len() + src@.len() == src0.len(),
            src@ == src0.skip(dst@.len() as int),
            contours_ids_distinct(src0),
            forall|ci: int|
                0 <= ci < src0.len() ==> points_ids_distinct(#[trigger] src0[ci].points@),
            forall|ci: int, k: Seq<char>|
                0 <= ci < src0.len() && #[trigger] points_have_id(src0[ci].points@, k)
                    ==> !contours_have_id(src0, k),
            forall|ci: int, cj: int, k: Seq<char>|
                0 <= ci < cj < src0.len() && #[trigger] points_have_id(src0[ci].points@, k)
                    ==> !points_have_id(#[trigger] src0[cj].points@, k),
            forall|ci: int|
                0 <= ci < dst@.len() ==> contour_filled_ok(#[trigger] dst@[ci], src0[ci], ol0),
            forall|k: Seq<char>|
                !outline_part_has_id(src0, k) ==> spec_get(ol@, k) == spec_get(ol0, k),
            forall|ci: int|
                dst@.len() <= ci < src0.len() ==> preserved_for(
                    ol@,
                    ol0,
                    opt_id_view(#[trigger] src0[ci].identifier),
                ),
            forall|ci: int, pj: int|
                dst@.len() <= ci < src0.len() && 0 <= pj < src0[ci].points@.len()
                    ==> preserved_for(
                    ol@,
                    ol0,
                    opt_id_view(#[trigger] src0[ci].points@[pj].identifier),
                ),
        decreases src@.len(),
    {
        let ghost ci = dst@.len() as int;
        proof {
            assert(src@[0] == src0[ci]);
        }
        let mut c = src.remove(0);
        proof {
            assert(src@ =~= src0.skip(ci + 1));
        }
        if c.identifier.is_some() {
            let ghost idv = c.identifier.unwrap()@;
            let r = take_lib_for(ol, c.identifier.as_ref().unwrap());
            proof {
                assert(opt_id_view(src0[ci].identifier) == Some(idv));
                assert(contours_have_id(src0, idv));
                assert forall|k: Seq<char>| !outline_part_has_id(src0, k) implies spec_get(
                    ol@,
                    k,
                ) == spec_get(ol0, k) by {
                    assert(k != idv);
                }
                assert forall|ci2: int| ci + 1 <= ci2 < src0.len() implies preserved_for(
                    ol@,
                    ol0,
                    opt_id_view(#[trigger] src0[ci2].identifier),
                ) by {
                    if src0[ci2].identifier is Some {
                        assert(opt_id_view(src0[ci].identifier) != opt_id_view(
                            src0[ci2].identifier,
                        ));
                    }
                }
                assert forall|ci2: int, pj: int|
                    ci <= ci2 < src0.len() && 0 <= pj < src0[ci2].points@.len() implies
                    preserved_for(
                    ol@,
                    ol0,
                    opt_id_view(#[trigger] src0[ci2].points@[pj].identifier),
                ) by {
                    if src0[ci2].points@[pj].identifier is Some {
                        let k = src0[ci2].points@[pj].identifier.unwrap()@;
                        assert(points_have_id(src0[ci2].points@, k));
                        assert(!contours_have_id(src0, k));
                        assert(k != idv);
                    }
                }
            }
            match r {
                Some(d) => {
                    c.lib = Some(d);
                },
                None => {},
            }
        }
        proof {
            assert(c.identifier == src0[ci].identifier);
            assert(c.lib == filled_lib(ol0, src0[ci].identifier, src0[ci].lib));
            assert(c.points == src0[ci].points);
        }
        let mut pts: Vec<ContourPoint> = Vec::new();
        std::mem::swap(&mut c.points, &mut pts);
        let ghost ol_mid = ol@;
        let newpts = fill_points(pts, ol);
        c.points = newpts;
        proof {
            assert forall|pj: int| 0 <= pj < src0[ci].points@.len() implies c.points@[pj]
                == point_filled(#[trigger] src0[ci].points@[pj], ol0) by {
                let p = src0[ci].points@[pj];
                assert(c.points@[pj] == point_filled(p, ol_mid));
                assert(preserved_for(ol_mid, ol0, opt_id_view(p.identifier)));
                assert(point_filled(p, ol_mid) =~= point_filled(p, ol0));
            }
            assert(contour_filled_ok(c, src0[ci], ol0));
            // entries under keys of other objects are untouched by this contour
            assert forall|k: Seq<char>| !outline_part_has_id(src0, k) implies spec_get(
                ol@,
                k,
            ) == spec_get(ol0, k) by {
                assert(!points_have_id(src0[ci].points@, k));
                assert(spec_get(ol@, k) == spec_get(ol_mid, k));
            }
            assert forall|ci2: int| ci + 1 <= ci2 < src0.len() implies preserved_for(
                ol@,
                ol0,
                opt_id_view(#[trigger] src0[ci2].identifier),
            ) by {
                if src0[ci2].identifier is Some {
                    let k = src0[ci2].identifier.unwrap()@;
                    assert(contours_have_id(src0, k));
                    if points_have_id(src0[ci].points@, k) {
                        assert(!contours_have_id(src0, k));
                    }
                    assert(spec_get(ol@, k) == spec_get(ol_mid, k));
                }
            }
            assert forall|ci2: int, pj: int|
                ci + 1 <= ci2 < src0.len() && 0 <= pj < src0[ci2].points@.len() implies
                preserved_for(
                ol@,
                ol0,
                opt_id_view(#[trigger] src0[ci2].points@[pj].identifier),
            ) by {
                if src0[ci2].points@[pj].identifier is Some {
                    let k = src0[ci2].points@[pj].identifier.unwrap()@;
                    assert(points_have_id(src0[ci2].points@, k));
                    if points_have_id(src0[ci].points@, k) {
                        assert(!points_have_id(src0[ci2].points@, k));
                    }
                    assert(spec_get(ol@, k) == spec_get(ol_mid, k));
                }
            }
        }
        dst.push(c);
    }
    dst
}

} // verus!

verus! {

/// The object-libs dictionary held in a glyph lib, or nothing.
pub open spec fn spec_object_libs(lib: Option<Plist>) -> Seq<(String, Value)> {
    match lib {
        Some(l) => match spec_get(l@, PUBLIC_OBJECT_LIBS_KEY@) {
            Some(Value::Dictionary(d)) => d@,
            _ => Seq::empty(),
        },
        None => Seq::empty(),
    }
}

/// Whether a glyph lib's object-libs entry is malformed: present but not a
/// dictionary, or a dictionary holding a value that is not a dictionary.
pub open spec fn object_libs_malformed(lib: Option<Plist>) -> bool {
    match lib {
        Some(l) => match spec_get(l@, PUBLIC_OBJECT_LIBS_KEY@) {
            Some(Value::Dictionary(d)) => !all_dict_values(d@),
            Some(_) => true,
            None => false,
        },
        None => false,
    }
}

/// An empty object-libs dictionary changes nothing.
proof fn lemma_filled_empty_anchor(a: Anchor)
    ensures
        anchor_filled(a, Seq::empty()) == a,
{
    assert(anchor_filled(a, Seq::empty()) =~= a);
}

/// An empty object-libs dictionary changes nothing.
proof fn lemma_filled_empty_guideline(g: Guideline)
    ensures
        guideline_filled(g, Seq::empty()) == g,
{
    assert(guideline_filled(g, Seq::empty()) =~= g);
}

/// An empty object-libs dictionary changes nothing.
proof fn lemma_filled_empty_point(p: ContourPoint)
    ensures
        point_filled(p, Seq::empty()) == p,
{
    assert(point_filled(p, Seq::empty()) =~= p);
}

/// An empty object-libs dictionary changes nothing.
proof fn lemma_filled_empty_component(c: Component)
    ensures
        component_filled(c, Seq::empty()) == c,
{
    assert(component_filled(c, Seq::empty()) =~= c);
}

/// How a glyph relates to its original after its object libs were moved
/// into the identified sub-objects.
pub open spec fn glyph_libs_filled(g1: Glyph, g0: Glyph, ol: Seq<(String, Value)>) -> bool {
    &&& match (g0.anchors, g1.anchors) {
        (Some(a0), Some(a1)) => a1@.len() == a0@.len() && (forall|j: int|
            0 <= j < a0@.len() ==> a1@[j] == anchor_filled(#[trigger] a0@[j], ol)),
        (None, None) => true,
        _ => false,
    }
    &&& match (g0.guidelines, g1.guidelines) {
        (Some(gl0), Some(gl1)) => gl1@.len() == gl0@.len() && (forall|j: int|
            0 <= j < gl0@.len() ==> gl1@[j] == guideline_filled(#[trigger] gl0@[j], ol)),
        (None, None) => true,
        _ => false,
    }
    &&& match (g0.outline, g1.outline) {
        (Some(o0), Some(o1)) => {
            &&& o1.contours@.len() == o0.contours@.len()
            &&& (forall|ci: int|
                0 <= ci < o0.contours@.len() ==> contour_filled_ok(
                    #[trigger] o1.contours@[ci],
                    o0.contours@[ci],
                    ol,
                ))
            &&& o1.components@.len() == o0.components@.len()
            &&& (forall|j: int|
                0 <= j < o0.components@.len() ==> o1.components@[j] == component_filled(
                    #[trigger] o0.components@[j],
                    ol,
                ))
        },
        (None, None) => true,
        _ => false,
    }
}

impl Glyph {
    /// Moves libs from the lib's `public.objectLibs` entry into the
    /// identified sub-objects, searching anchors, then guidelines, then
    /// contours with their points, then components. The entry is removed
    /// from the glyph lib; entries that match no sub-object are discarded.
    #[verifier::loop_isolation(false)]
    pub fn fill_in_libs(&mut self) -> (r: Result<(), ErrorKind>)
        requires
            glyph_ids_unique(*old(self)),
        ensures
            final(self).name == old(self).name,
            final(self).format == old(self).format,
            final(self).advance == old(self).advance,
            final(self).codepoints == old(self).codepoints,
            final(self).note == old(self).note,
            final(self).image == old(self).image,
            match old(self).lib {
                None => final(self).lib is None,
                Some(l) => match final(self).lib {
                    Some(l1) => if has_key(l@, PUBLIC_OBJECT_LIBS_KEY@) {
                        l1@ == l@.remove(first_match(l@, PUBLIC_OBJECT_LIBS_KEY@))
                    } else {
                        l1@ == l@
                    },
                    None => false,
                },
            },
            (match old(self).lib {
                Some(l) => keys_unique(l@),
                None => true,
            }) ==> (match final(self).lib {
                Some(l1) => !has_key(l1@, PUBLIC_OBJECT_LIBS_KEY@),
                None => true,
            }),
            r is Ok <==> !object_libs_malformed(old(self).lib),
            r is Err ==> r == Err::<(), ErrorKind>(ErrorKind::BadLib),
            r is Err ==> final(self).anchors == old(self).anchors && final(self).guidelines == old(
                self,
            ).guidelines && final(self).outline == old(self).outline,
            r is Ok ==> glyph_libs_filled(*final(self), *old(self), spec_object_libs(old(self).lib)),
    {
        proof {
            if old(self).lib is None || spec_get(
                spec_lib_view(old(self).lib),
                PUBLIC_OBJECT_LIBS_KEY@,
            ) is None {
                lemma_unchanged_is_filled_empty(*old(self));
            }
        }
        let lib_opt = self.lib.take();
        let mut lib = match lib_opt {
            Some(l) => l,
            None => {
                return Ok(());
            },
        };
        let ghost l0 = lib@;
        let removed = lib.remove(PUBLIC_OBJECT_LIBS_KEY);
        self.lib = Some(lib);
        proof {
            if keys_unique(l0) && has_key(l0, PUBLIC_OBJECT_LIBS_KEY@) {
                lemma_remove_unique_gone(l0, PUBLIC_OBJECT_LIBS_KEY@);
            }
        }
        let mut ol = match removed {
            Some(v) => match v {
                Value::Dictionary(d) => d,
                _ => {
                    return Err(ErrorKind::BadLib);
                },
            },
            None => {
                return Ok(());
            },
        };
        let ghost ol0 = ol@;
        proof {
            assert(ol0 == spec_object_libs(old(self).lib));
        }
        // Every entry's value must itself be a dictionary.
        let n = ol.len();
        let mut i: usize = 0;
        while i < n
            invariant
                i <= n,
                n == ol@.len(),
                ol@ == ol0,
                forall|j: int| 0 <= j < i ==> ol0[j].1 is Dictionary,
            decreases n - i,
        {
            match &ol.entries()[i].1 {
                Value::Dictionary(_) => {},
                _ => {
                    return Err(ErrorKind::BadLib);
                },
            }
            i += 1;
        }
        proof {
            assert(all_dict_values(ol0));
        }
        // Anchors.
        match self.anchors.take() {
            Some(v) => {
                let newv = fill_anchors(v, &mut ol);
                self.anchors = Some(newv);
            },
            None => {},
        }
        let ghost ol_a = ol@;
        // Guidelines.
        match self.guidelines.take() {
            Some(v) => {
                proof {
                    assert forall|j: int|
                        0 <= j < v@.len() implies preserved_for(
                        ol_a,
                        ol0,
                        opt_id_view(#[trigger] v@[j].identifier),
                    ) by {
                        if v@[j].identifier is Some {
                            let k = v@[j].identifier.unwrap()@;
                            assert(guidelines_have_id(opt_guidelines(old(self).guidelines), k));
                            assert(!anchors_have_id(opt_anchors(old(self).anchors), k));
                        }
                    }
                }
                let ghost olx = ol@;
                let newv = fill_guidelines(v, &mut ol);
                proof {
                    assert forall|j: int| 0 <= j < v@.len() implies newv@[j] == guideline_filled(
                        #[trigger] v@[j],
                        ol0,
                    ) by {
                        assert(newv@[j] == guideline_filled(v@[j], olx));
                        assert(guideline_filled(v@[j], olx) =~= guideline_filled(v@[j], ol0));
                    }
                }
                self.guidelines = Some(newv);
            },
            None => {},
        }
        let ghost ol_g = ol@;
        proof {
            assert forall|k: Seq<char>|
                !anchors_have_id(opt_anchors(old(self).anchors), k) && !guidelines_have_id(
                    opt_guidelines(old(self).guidelines),
                    k,
                ) implies spec_get(ol_g, k) == spec_get(ol0, k) by {
                assert(spec_get(ol_a, k) == spec_get(ol0, k));
            }
        }
        // The outline: contours with their points, then components.
        match self.outline.take() {
            Some(o) => {
                let mut o = o;
                let mut cs: Vec<Contour> = Vec::new();
                std::mem::swap(&mut o.contours, &mut cs);
                proof {
                    assert forall|ci: int, pj: int|
                        0 <= ci < cs@.len() && 0 <= pj < cs@[ci].points@.len() implies
                        preserved_for(
                        ol_g,
                        ol0,
                        opt_id_view(#[trigger] cs@[ci].points@[pj].identifier),
                    ) by {
                        if cs@[ci].points@[pj].identifier is Some {
                            let k = cs@[ci].points@[pj].identifier.unwrap()@;
                            assert(points_have_id(cs@[ci].points@, k));
                            assert(outline_part_has_id(cs@, k));
                            assert(!anchors_have_id(opt_anchors(old(self).anchors), k));
                            assert(!guidelines_have_id(opt_guidelines(old(self).guidelines), k));
                        }
                    }
                    assert forall|ci: int|
                        0 <= ci < cs@.len() implies preserved_for(
                        ol_g,
                        ol0,
                        opt_id_view(#[trigger] cs@[ci].identifier),
                    ) by {
                        if cs@[ci].identifier is Some {
                            let k = cs@[ci].identifier.unwrap()@;
                            assert(contours_have_id(cs@, k));
                            assert(outline_part_has_id(cs@, k));
                            assert(!anchors_have_id(opt_anchors(old(self).anchors), k));
                            assert(!guidelines_have_id(opt_guidelines(old(self).guidelines), k));
                        }
                    }
                }
                let newcs = fill_contours(cs, &mut ol);
                let ghost ol_c = ol@;
                proof {
                    assert forall|ci: int|
                        0 <= ci < cs@.len() implies contour_filled_ok(
                        #[trigger] newcs@[ci],
                        cs@[ci],
                        ol0,
                    ) by {
                        assert(contour_filled_ok(newcs@[ci], cs@[ci], ol_g));
                        assert(filled_lib(ol_g, cs@[ci].identifier, cs@[ci].lib) == filled_lib(
                            ol0,
                            cs@[ci].identifier,
                            cs@[ci].lib,
                        ));
                        assert forall|pj: int|
                            0 <= pj < cs@[ci].points@.len() implies newcs@[ci].points@[pj]
                            == point_filled(#[trigger] cs@[ci].points@[pj], ol0) by {
                            assert(newcs@[ci].points@[pj] == point_filled(
                                cs@[ci].points@[pj],
                                ol_g,
                            ));
                            assert(point_filled(cs@[ci].points@[pj], ol_g) =~= point_filled(
                                cs@[ci].points@[pj],
                                ol0,
                            ));
                        }
                    }
                }
                o.contours = newcs;
                let mut cms: Vec<Component> = Vec::new();
                std::mem::swap(&mut o.components, &mut cms);
                proof {
                    assert forall|j: int|
                        0 <= j < cms@.len() implies preserved_for(
                        ol_c,
                        ol0,
                        opt_id_view(#[trigger] cms@[j].identifier),
                    ) by {
                        if cms@[j].identifier is Some {
                            let k = cms@[j].identifier.unwrap()@;
                            assert(components_have_id(outline_components(old(self).outline), k));
                            assert(!anchors_have_id(opt_anchors(old(self).anchors), k));
                            assert(!guidelines_have_id(opt_guidelines(old(self).guidelines), k));
                            assert(!outline_part_has_id(cs@, k));
                            assert(spec_get(ol_g, k) == spec_get(ol0, k));
                        }
                    }
                }
                let newcms = fill_components(cms, &mut ol);
                proof {
                    assert forall|j: int| 0 <= j < cms@.len() implies newcms@[j]
                        == component_filled(#[trigger] cms@[j], ol0) by {
                        assert(newcms@[j] == component_filled(cms@[j], ol_c));
                        assert(component_filled(cms@[j], ol_c) =~= component_filled(
                            cms@[j],
                            ol0,
                        ));
                    }
                }
                o.components = newcms;
                self.outline = Some(o);
            },
            None => {},
        }
        Ok(())
    }
}

/// The view of an optional lib.
pub open spec fn spec_lib_view(lib: Option<Plist>) -> Seq<(String, Value)> {
    match lib {
        Some(l) => l@,
        None => Seq::empty(),
    }
}

/// A glyph whose lib carries no object-libs entry is already "filled" with
/// respect to the empty dictionary.
proof fn lemma_unchanged_is_filled_empty(g: Glyph)
    ensures
        glyph_libs_filled(g, g, Seq::empty()),
{
    match g.anchors {
        Some(a) => {
            assert forall|j: int| 0 <= j < a@.len() implies a@[j] == anchor_filled(
                #[trigger] a@[j],
                Seq::empty(),
            ) by {
                lemma_filled_empty_anchor(a@[j]);
            }
        },
        None => {},
    }
    match g.guidelines {
        Some(gl) => {
            assert forall|j: int| 0 <= j < gl@.len() implies gl@[j] == guideline_filled(
                #[trigger] gl@[j],
                Seq::empty(),
            ) by {
                lemma_filled_empty_guideline(gl@[j]);
            }
        },
        None => {},
    }
    match g.outline {
        Some(o) => {
            assert forall|ci: int| 0 <= ci < o.contours@.len() implies contour_filled_ok(
                #[trigger] o.contours@[ci],
                o.contours@[ci],
                Seq::empty(),
            ) by {
                let c = o.contours@[ci];
                assert(filled_lib(Seq::empty(), c.identifier, c.lib) == c.lib);
                assert forall|pj: int| 0 <= pj < c.points@.len() implies c.points@[pj]
                    == point_filled(#[trigger] c.points@[pj], Seq::empty()) by {
                    lemma_filled_empty_point(c.points@[pj]);
                }
            }
            assert forall|j: int| 0 <= j < o.components@.len() implies o.components@[j]
                == component_filled(#[trigger] o.components@[j], Seq::empty()) by {
                lemma_filled_empty_component(o.components@[j]);
            }
        },
        None => {},
    }
}

} // verus!





verus! {

// ---------------------------------------------------------------------------
// Contour grammar validation.
// ---------------------------------------------------------------------------

/// One step of the contour walk: what an off-curve run count becomes, or
/// which error a point raises given the run before it. The walk never sees
/// a legitimate leading move point.
pub open spec fn scan_points(pts: Seq<ContourPoint>, run: int) -> Result<int, ErrorKind>
    decreases pts.len(),
{
    if pts.len() == 0 {
        Ok(run)
    } else {
        let p = pts[0];
        let rest = pts.subrange(1, pts.len() as int);
        if p.typ == PointType::Move {
            Err(ErrorKind::UnexpectedMove)
        } else if p.typ == PointType::OffCurve && p.smooth {
            Err(ErrorKind::UnexpectedSmooth)
        } else if p.typ == PointType::OffCurve {
            scan_points(rest, run + 1)
        } else if p.typ == PointType::Curve {
            if run > 2 {
                Err(ErrorKind::TooManyOffCurves)
            } else {
                scan_points(rest, 0)
            }
        } else {
            // Line or QCurve; a qcurve accepts a run of any length.
            if p.typ == PointType::Line && run > 0 {
                Err(ErrorKind::UnexpectedPointAfterOffCurve)
            } else {
                scan_points(rest, 0)
            }
        }
    }
}

/// The number of consecutive off-curve points at the end of a contour.
pub open spec fn trailing_offcurves(pts: Seq<ContourPoint>) -> int
    decreases pts.len(),
{
    if pts.len() == 0 {
        0int
    } else if pts.last().typ == PointType::OffCurve {
        1 + trailing_offcurves(pts.drop_last())
    } else {
        0int
    }
}

/// Whether some point in the given range is a smooth off-curve.
pub open spec fn has_smooth_offcurve(pts: Seq<ContourPoint>, from: int) -> bool {
    exists|j: int|
        from <= j < pts.len() && pts[j].typ == PointType::OffCurve && (#[trigger] pts[j]).smooth
}

/// The first grammar error of a contour, if any. An open contour (leading
/// move point) is walked linearly and must not end mid-run; a closed contour
/// is cyclic, so its trailing off-curves count towards the run before its
/// first on-curve point.
pub open spec fn contour_error(pts: Seq<ContourPoint>) -> Option<ErrorKind> {
    if pts.len() == 0 {
        None
    } else if pts[0].typ == PointType::Move {
        match scan_points(pts.subrange(1, pts.len() as int), 0) {
            Err(e) => Some(e),
            Ok(run) => if run > 0 {
                Some(ErrorKind::TrailingOffCurves)
            } else {
                None
            },
        }
    } else {
        let t = trailing_offcurves(pts);
        if t == pts.len() {
            // A closed contour of nothing but off-curves is a valid
            // quadratic contour with implied on-curve points.
            if has_smooth_offcurve(pts, 0) {
                Some(ErrorKind::UnexpectedSmooth)
            } else {
                None
            }
        } else {
            match scan_points(pts.subrange(0, pts.len() - t), t) {
                Err(e) => Some(e),
                Ok(_) => if has_smooth_offcurve(pts, pts.len() - t) {
                    Some(ErrorKind::UnexpectedSmooth)
                } else {
                    None
                },
            }
        }
    }
}

impl Contour {
    /// Checks the contour against the glyph outline grammar: a move point
    /// only at the start, smoothness never on an off-curve, at most two
    /// off-curves before a curve, and no open contour ending mid-run.
    #[verifier::loop_isolation(false)]
    #[verifier::rlimit(60)]
    pub fn validate(&self) -> (r: Result<(), ErrorKind>)
        ensures
            match r {
                Ok(()) => contour_error(self.points@) is None,
                Err(e) => contour_error(self.points@) == Some(e),
            },
    {
        let pts = &self.points;
        let n = pts.len();
        if n == 0 {
            return Ok(());
        }
        let open = match pts[0].typ {
            PointType::Move => true,
            _ => false,
        };
        // For a closed contour, count its trailing off-curves: they precede
        // the first point cyclically.
        let mut t: usize = 0;
        if !open {
            let mut stop_scan = false;
            while t < n && !stop_scan
                invariant
                    t <= n,
                    forall|j: int| n - t <= j < n ==> pts@[j].typ == PointType::OffCurve,
                    stop_scan ==> t < n && pts@[n - t - 1].typ != PointType::OffCurve,
                decreases n - t + (if stop_scan { 0int } else { 1int }),
            {
                let idx = n - 1 - t;
                let is_off = match pts[idx].typ {
                    PointType::OffCurve => true,
                    _ => false,
                };
                if is_off {
                    t += 1;
                } else {
                    stop_scan = true;
                }
            }
            proof {
                lemma_trailing_offcurves(self.points@, t as int);
            }
            if t == n {
                // all points are off-curves
                let mut j: usize = 0;
                while j < n
                    invariant
                        j <= n,
                        forall|m: int| 0 <= m < j ==> !(pts@[m].typ == PointType::OffCurve
                            && (#[trigger] pts@[m]).smooth),
                    decreases n - j,
                {
                    if pts[j].smooth {
                        return Err(ErrorKind::UnexpectedSmooth);
                    }
                    j += 1;
                }
                return Ok(());
            }
        }
        // Walk the linear region with the wrapped-in run.
        let start: usize = if open {
            1
        } else {
            0
        };
        let stop: usize = n - t;
        let ghost region = self.points@.subrange(start as int, stop as int);
        proof {
            assert(region.subrange(0, region.len() as int) =~= region);
        }
        let mut run: u128 = t as u128;
        let mut i: usize = start;
        while i < stop
            invariant
                start <= i <= stop,
                run <= t + (i - start),
                scan_points(region, t as int) == scan_points(
                    region.subrange(i - start, region.len() as int),
                    run as int,
                ),
            decreases stop - i,
        {
            let ghost rem = region.subrange(i - start, region.len() as int);
            proof {
                assert(rem[0] == self.points@[i as int]);
                assert(rem.subrange(1, rem.len() as int) =~= region.subrange(
                    i + 1 - start,
                    region.len() as int,
                ));
            }
            match pts[i].typ {
                PointType::Move => {
                    return Err(ErrorKind::UnexpectedMove);
                },
                PointType::OffCurve => {
                    if pts[i].smooth {
                        return Err(ErrorKind::UnexpectedSmooth);
                    }
                    run = run + 1;
                },
                PointType::Curve => {
                    if run > 2 {
                        return Err(ErrorKind::TooManyOffCurves);
                    }
                    run = 0;
                },
                PointType::QCurve => {
                    run = 0;
                },
                PointType::Line => {
                    if run > 0 {
                        return Err(ErrorKind::UnexpectedPointAfterOffCurve);
                    }
                    run = 0;
                },
            }
            i += 1;
        }
        proof {
            assert(region.subrange(stop - start, region.len() as int) =~= Seq::empty());
            assert(scan_points(region, t as int) == Ok::<int, ErrorKind>(run as int));
        }
        if open {
            if run > 0 {
                return Err(ErrorKind::TrailingOffCurves);
            }
            return Ok(());
        }
        // The trailing off-curves themselves must not be smooth.
        let mut j: usize = stop;
        while j < n
            invariant
                stop <= j <= n,
                forall|m: int| stop <= m < j ==> !(pts@[m].typ == PointType::OffCurve
                    && (#[trigger] pts@[m]).smooth),
            decreases n - j,
        {
            if pts[j].smooth {
                return Err(ErrorKind::UnexpectedSmooth);
            }
            j += 1;
        }
        Ok(())
    }
}

/// A loop that counted trailing off-curves computed `trailing_offcurves`.
proof fn lemma_trailing_offcurves(pts: Seq<ContourPoint>, t: int)
    requires
        0 <= t <= pts.len(),
        forall|j: int| pts.len() - t <= j < pts.len() ==> pts[j].typ == PointType::OffCurve,
        t < pts.len() ==> pts[pts.len() - t - 1].typ != PointType::OffCurve,
    ensures
        trailing_offcurves(pts) == t,
    decreases t,
{
    if t == 0 {
        if pts.len() > 0 {
            assert(pts.last().typ != PointType::OffCurve);
        }
    } else {
        assert(pts.last().typ == PointType::OffCurve);
        let d = pts.drop_last();
        assert forall|j: int| d.len() - (t - 1) <= j < d.len() implies d[j].typ
            == PointType::OffCurve by {
            assert(d[j] == pts[j]);
        }
        if t - 1 < d.len() {
            assert(d[d.len() - (t - 1) - 1] == pts[pts.len() - t - 1]);
        }
        lemma_trailing_offcurves(d, t - 1);
    }
}

} // verus!

verus! {

/// The length of the off-curve run immediately before position `i`,
/// counting the initial run where it reaches the start.
pub open spec fn run_before(pts: Seq<ContourPoint>, i: int, run0: int) -> int
    decreases i,
{
    if i <= 0 {
        run0
    } else if pts[i - 1].typ == PointType::OffCurve {
        1 + run_before(pts, i - 1, run0)
    } else {
        0int
    }
}

/// Runs never count below zero.
proof fn lemma_run_before_nonneg(pts: Seq<ContourPoint>, i: int, run0: int)
    requires
        run0 >= 0,
    ensures
        run_before(pts, i, run0) >= 0,
    decreases (if i >= 0 { i } else { 0 }),
{
    if i > 0 && pts[i - 1].typ == PointType::OffCurve {
        lemma_run_before_nonneg(pts, i - 1, run0);
    }
}

/// A run in the walk's remainder equals the same run shifted by the head.
proof fn lemma_run_before_tail(pts: Seq<ContourPoint>, i: int, run0: int)
    requires
        pts.len() > 0,
        1 <= i <= pts.len(),
    ensures
        run_before(pts, i, run0) == run_before(
            pts.subrange(1, pts.len() as int),
            i - 1,
            if pts[0].typ == PointType::OffCurve {
                run0 + 1
            } else {
                0int
            },
        ),
    decreases i,
{
    let tail = pts.subrange(1, pts.len() as int);
    let r1: int = if pts[0].typ == PointType::OffCurve {
        run0 + 1
    } else {
        0int
    };
    if i == 1 {
        assert(run_before(tail, 0, r1) == r1);
        if pts[0].typ == PointType::OffCurve {
            assert(run_before(pts, 1, run0) == 1 + run_before(pts, 0, run0));
        } else {
            assert(run_before(pts, 1, run0) == 0);
        }
    } else {
        assert(tail[i - 2] == pts[i - 1]);
        if pts[i - 1].typ == PointType::OffCurve {
            lemma_run_before_tail(pts, i - 1, run0);
            assert(run_before(pts, i, run0) == 1 + run_before(pts, i - 1, run0));
            assert(run_before(tail, i - 1, r1) == 1 + run_before(tail, i - 2, r1));
        } else {
            assert(run_before(pts, i, run0) == 0);
            assert(run_before(tail, i - 1, r1) == 0);
        }
    }
}

/// What an accepting walk guarantees pointwise: no move, no smooth
/// off-curve, a bounded run before every cubic curve, and a final run that
/// matches the trailing off-curves.
proof fn lemma_scan_shape(pts: Seq<ContourPoint>, run0: int)
    requires
        run0 >= 0,
        scan_points(pts, run0) is Ok,
    ensures
        forall|i: int| 0 <= i < pts.len() ==> (#[trigger] pts[i]).typ != PointType::Move,
        forall|i: int|
            0 <= i < pts.len() && (#[trigger] pts[i]).typ == PointType::OffCurve ==> !pts[i].smooth,
        forall|i: int|
            0 <= i < pts.len() && (#[trigger] pts[i]).typ == PointType::Curve ==> run_before(
                pts,
                i,
                run0,
            ) <= 2,
        scan_points(pts, run0) == Ok::<int, ErrorKind>(run_before(pts, pts.len() as int, run0)),
    decreases pts.len(),
{
    if pts.len() == 0 {
    } else {
        let tail = pts.subrange(1, pts.len() as int);
        let r1: int = if pts[0].typ == PointType::OffCurve {
            run0 + 1
        } else {
            0int
        };
        lemma_scan_shape(tail, r1);
        assert forall|i: int|
            0 <= i < pts.len() && (#[trigger] pts[i]).typ == PointType::Curve implies run_before(
            pts,
            i,
            run0,
        ) <= 2 by {
            if i == 0 {
                assert(run_before(pts, 0, run0) == run0);
            } else {
                assert(tail[i - 1] == pts[i]);
                lemma_run_before_tail(pts, i, run0);
            }
        }
        assert forall|i: int| 0 <= i < pts.len() implies (#[trigger] pts[i]).typ != PointType::Move
            && (pts[i].typ == PointType::OffCurve ==> !pts[i].smooth) by {
            if i > 0 {
                assert(tail[i - 1] == pts[i]);
            }
        }
        lemma_run_before_tail(pts, pts.len() as int, run0);
    }
}

/// In a contour the grammar accepts, a move point stands only first.
#[verifier::spinoff_prover]
pub proof fn lemma_valid_no_interior_moves(pts: Seq<ContourPoint>)
    requires
        contour_error(pts) is None,
    ensures
        forall|i: int| 0 < i < pts.len() ==> (#[trigger] pts[i]).typ != PointType::Move,
{
    if pts.len() == 0 {
    } else if pts[0].typ == PointType::Move {
        let tail = pts.subrange(1, pts.len() as int);
        lemma_scan_shape(tail, 0);
        assert forall|i: int| 0 < i < pts.len() implies (#[trigger] pts[i]).typ
            != PointType::Move by {
            assert(tail[i - 1] == pts[i]);
        }
    } else {
        let t = trailing_offcurves(pts);
        lemma_trailing_offcurves_shape(pts);
        if t < pts.len() {
            let region = pts.subrange(0, pts.len() - t);
            lemma_scan_shape(region, t);
            assert forall|i: int| 0 < i < pts.len() implies (#[trigger] pts[i]).typ
                != PointType::Move by {
                if i < pts.len() - t {
                    assert(region[i] == pts[i]);
                }
            }
        }
    }
}

/// In a contour the grammar accepts, no off-curve point is smooth.
#[verifier::spinoff_prover]
pub proof fn lemma_valid_no_smooth_offcurves(pts: Seq<ContourPoint>)
    requires
        contour_error(pts) is None,
    ensures
        forall|i: int|
            0 <= i < pts.len() && (#[trigger] pts[i]).typ == PointType::OffCurve ==> !pts[i].smooth,
{
    if pts.len() == 0 {
    } else if pts[0].typ == PointType::Move {
        let tail = pts.subrange(1, pts.len() as int);
        lemma_scan_shape(tail, 0);
        assert forall|i: int|
            0 <= i < pts.len() && (#[trigger] pts[i]).typ == PointType::OffCurve implies !pts[
        i].smooth by {
            if i > 0 {
                assert(tail[i - 1] == pts[i]);
            }
        }
    } else {
        let t = trailing_offcurves(pts);
        lemma_trailing_offcurves_shape(pts);
        if t == pts.len() {
            assert forall|i: int|
                0 <= i < pts.len() && (#[trigger] pts[i]).typ == PointType::OffCurve implies !pts[
            i].smooth by {
                if pts[i].smooth {
                    assert(has_smooth_offcurve(pts, 0));
                }
            }
        } else {
            let region = pts.subrange(0, pts.len() - t);
            lemma_scan_shape(region, t);
            assert forall|i: int|
                0 <= i < pts.len() && (#[trigger] pts[i]).typ == PointType::OffCurve implies !pts[
            i].smooth by {
                if i < pts.len() - t {
                    assert(region[i] == pts[i]);
                } else {
                    if pts[i].smooth {
                        assert(has_smooth_offcurve(pts, pts.len() - t));
                    }
                }
            }
        }
    }
}

/// A valid open contour does not end in an off-curve point.
#[verifier::spinoff_prover]
pub proof fn lemma_valid_open_end(pts: Seq<ContourPoint>)
    requires
        contour_error(pts) is None,
        !spec_is_closed(pts),
    ensures
        pts[pts.len() - 1].typ != PointType::OffCurve,
{
    let tail = pts.subrange(1, pts.len() as int);
    lemma_scan_shape(tail, 0);
    let rf = run_before(tail, tail.len() as int, 0);
    lemma_run_before_nonneg(tail, tail.len() as int, 0);
    assert(rf == 0);
    if pts[pts.len() - 1].typ == PointType::OffCurve {
        if tail.len() == 0 {
            assert(pts[0].typ == PointType::Move);
        } else {
            assert(tail[tail.len() - 1] == pts[pts.len() - 1]);
            lemma_run_before_nonneg(tail, tail.len() - 1, 0);
            assert(rf >= 1);
        }
        assert(false);
    }
}

/// In a contour the grammar accepts, at most two off-curves precede a
/// (cubic) curve point. Any number may precede a quadratic curve: they
/// describe implied on-curve points.
#[verifier::spinoff_prover]
#[verifier::rlimit(60)]
pub proof fn lemma_valid_run_bound(pts: Seq<ContourPoint>)
    requires
        contour_error(pts) is None,
    ensures
        forall|i: int|
            3 <= i < pts.len() && (#[trigger] pts[i]).typ == PointType::Curve && pts[i - 1].typ
                == PointType::OffCurve && pts[i - 2].typ == PointType::OffCurve ==> pts[i - 3].typ
                != PointType::OffCurve,
{
    if pts.len() == 0 {
    } else if pts[0].typ == PointType::Move {
        let tail = pts.subrange(1, pts.len() as int);
        lemma_scan_shape(tail, 0);
        assert forall|i: int|
            3 <= i < pts.len() && (#[trigger] pts[i]).typ == PointType::Curve && pts[i - 1].typ
                == PointType::OffCurve && pts[i - 2].typ == PointType::OffCurve implies pts[i
            - 3].typ != PointType::OffCurve by {
            if pts[i - 3].typ == PointType::OffCurve {
                assert(tail[i - 1] == pts[i]);
                assert(tail[i - 2] == pts[i - 1]);
                assert(tail[i - 3] == pts[i - 2]);
                assert(tail[i - 4] == pts[i - 3]);
                assert(run_before(tail, i - 1, 0) == 1 + run_before(tail, i - 2, 0));
                assert(run_before(tail, i - 2, 0) == 1 + run_before(tail, i - 3, 0));
                assert(run_before(tail, i - 3, 0) == 1 + run_before(tail, i - 4, 0));
                lemma_run_before_nonneg(tail, i - 4, 0);
                assert(false);
            }
        }
    } else {
        let t = trailing_offcurves(pts);
        lemma_trailing_offcurves_shape(pts);
        if t < pts.len() {
            let region = pts.subrange(0, pts.len() - t);
            lemma_scan_shape(region, t);
            assert forall|i: int|
                3 <= i < pts.len() && (#[trigger] pts[i]).typ == PointType::Curve && pts[i - 1].typ
                    == PointType::OffCurve && pts[i - 2].typ == PointType::OffCurve implies pts[i
                - 3].typ != PointType::OffCurve by {
                if pts[i - 3].typ == PointType::OffCurve {
                    assert(i < pts.len() - t);
                    assert(region[i] == pts[i]);
                    assert(region[i - 1] == pts[i - 1]);
                    assert(region[i - 2] == pts[i - 2]);
                    assert(region[i - 3] == pts[i - 3]);
                    assert(run_before(region, i, t) == 1 + run_before(region, i - 1, t));
                    assert(run_before(region, i - 1, t) == 1 + run_before(region, i - 2, t));
                    assert(run_before(region, i - 2, t) == 1 + run_before(region, i - 3, t));
                    lemma_run_before_nonneg(region, i - 3, t);
                    assert(false);
                }
            }
        }
    }
}

/// The counted trailing off-curves are off-curves, and the point before
/// them, if any, is not.
proof fn lemma_trailing_offcurves_shape(pts: Seq<ContourPoint>)
    ensures
        0 <= trailing_offcurves(pts) <= pts.len(),
        forall|j: int|
            pts.len() - trailing_offcurves(pts) <= j < pts.len() ==> (#[trigger] pts[j]).typ
                == PointType::OffCurve,
        trailing_offcurves(pts) < pts.len() ==> pts[pts.len() - trailing_offcurves(pts) - 1].typ
            != PointType::OffCurve,
    decreases pts.len(),
{
    if pts.len() > 0 && pts.last().typ == PointType::OffCurve {
        let d = pts.drop_last();
        lemma_trailing_offcurves_shape(d);
        assert forall|j: int|
            pts.len() - trailing_offcurves(pts) <= j < pts.len() implies (#[trigger] pts[j]).typ
            == PointType::OffCurve by {
            if j < pts.len() - 1 {
                assert(d[j] == pts[j]);
            }
        }
        if trailing_offcurves(pts) < pts.len() {
            assert(d[d.len() - trailing_offcurves(d) - 1] == pts[pts.len() - trailing_offcurves(
                pts,
            ) - 1]);
        }
    }
}

} // verus!

verus! {

/// How an identifier may change when identifiers are synthesized: an
/// existing one is kept, a missing one is created exactly when the object
/// carries a lib.
pub open spec fn id_synthesized(
    oldid: Option<Identifier>,
    newid: Option<Identifier>,
    has_lib: bool,
) -> bool {
    match oldid {
        Some(_) => newid == oldid,
        None => if has_lib {
            newid matches Some(id) && valid_identifier(id@) && uuid_v4_text(id@)
        } else {
            newid is None
        },
    }
}

impl Glyph {
    /// Gives every sub-object that carries a lib but no identifier a fresh
    /// UUID v4 identifier, and changes nothing else. Identifiers are never
    /// synthesized otherwise, to avoid churn between writes.
    #[verifier::loop_isolation(false)]
    pub fn synthesize_missing_identifiers(&mut self)
        ensures
            final(self).name == old(self).name,
            final(self).format == old(self).format,
            final(self).advance == old(self).advance,
            final(self).codepoints == old(self).codepoints,
            final(self).note == old(self).note,
            final(self).image == old(self).image,
            final(self).lib == old(self).lib,
            glyph_libs_have_ids(*final(self)),
            match (old(self).anchors, final(self).anchors) {
                (Some(a0), Some(a1)) => a1@.len() == a0@.len() && (forall|j: int|
                    0 <= j < a0@.len() ==> a1@[j] == (Anchor {
                        identifier: a1@[j].identifier,
                        ..(#[trigger] a0@[j])
                    }) && id_synthesized(
                        a0@[j].identifier,
                        a1@[j].identifier,
                        a0@[j].lib is Some,
                    )),
                (None, None) => true,
                _ => false,
            },
            match (old(self).guidelines, final(self).guidelines) {
                (Some(g0), Some(g1)) => g1@.len() == g0@.len() && (forall|j: int|
                    0 <= j < g0@.len() ==> g1@[j] == (Guideline {
                        identifier: g1@[j].identifier,
                        ..(#[trigger] g0@[j])
                    }) && id_synthesized(
                        g0@[j].identifier,
                        g1@[j].identifier,
                        g0@[j].lib is Some,
                    )),
                (None, None) => true,
                _ => false,
            },
            match (old(self).outline, final(self).outline) {
                (Some(o0), Some(o1)) => {
                    &&& o1.contours@.len() == o0.contours@.len()
                    &&& (forall|ci: int|
                        0 <= ci < o0.contours@.len() ==> {
                            let c0 = #[trigger] o0.contours@[ci];
                            let c1 = o1.contours@[ci];
                            &&& c1.lib == c0.lib
                            &&& id_synthesized(c0.identifier, c1.identifier, c0.lib is Some)
                            &&& c1.points@.len() == c0.points@.len()
                            &&& (forall|pj: int|
                                0 <= pj < c0.points@.len() ==> c1.points@[pj] == (ContourPoint {
                                    identifier: c1.points@[pj].identifier,
                                    ..(#[trigger] c0.points@[pj])
                                }) && id_synthesized(
                                    c0.points@[pj].identifier,
                                    c1.points@[pj].identifier,
                                    c0.points@[pj].lib is Some,
                                ))
                        })
                    &&& o1.components@.len() == o0.components@.len()
                    &&& (forall|j: int|
                        0 <= j < o0.components@.len() ==> o1.components@[j] == (Component {
                            identifier: o1.components@[j].identifier,
                            ..(#[trigger] o0.components@[j])
                        }) && id_synthesized(
                            o0.components@[j].identifier,
                            o1.components@[j].identifier,
                            o0.components@[j].lib is Some,
                        ))
                },
                (None, None) => true,
                _ => false,
            },
    {
        match self.anchors.take() {
            Some(v) => {
                let ghost src0 = v@;
                let mut src = v;
                let mut dst: Vec<Anchor> = Vec::new();
                while src.len() > 0
                    invariant
                        dst@.len() + src@.len() == src0.len(),
                        src@ == src0.skip(dst@.len() as int),
                        forall|j: int|
                            0 <= j < dst@.len() ==> dst@[j] == (Anchor {
                                identifier: dst@[j].identifier,
                                ..(#[trigger] src0[j])
                            }) && id_synthesized(
                                src0[j].identifier,
                                dst@[j].identifier,
                                src0[j].lib is Some,
                            ),
                    decreases src@.len(),
                {
                    let ghost j = dst@.len() as int;
                    proof {
                        assert(src@[0] == src0[j]);
                    }
                    let mut a = src.remove(0);
                    proof {
                        assert(src@ =~= src0.skip(j + 1));
                    }
                    if a.lib.is_some() && a.identifier.is_none() {
                        a.identifier = Some(Identifier::from_uuidv4());
                    }
                    dst.push(a);
                }
                proof {
                    assert forall|j: int|
                        0 <= j < dst@.len() && (#[trigger] dst@[j].lib) is Some implies dst@[j].identifier is Some by {
                        assert(dst@[j].lib == src0[j].lib);
                    }
                    assert(anchors_libs_have_ids(dst@));
                }
                self.anchors = Some(dst);
            },
            None => {},
        }
        match self.guidelines.take() {
            Some(v) => {
                let ghost src0 = v@;
                let mut src = v;
                let mut dst: Vec<Guideline> = Vec::new();
                while src.len() > 0
                    invariant
                        dst@.len() + src@.len() == src0.len(),
                        src@ == src0.skip(dst@.len() as int),
                        forall|j: int|
                            0 <= j < dst@.len() ==> dst@[j] == (Guideline {
                                identifier: dst@[j].identifier,
                                ..(#[trigger] src0[j])
                            }) && id_synthesized(
                                src0[j].identifier,
                                dst@[j].identifier,
                                src0[j].lib is Some,
                            ),
                    decreases src@.len(),
                {
                    let ghost j = dst@.len() as int;
                    proof {
                        assert(src@[0] == src0[j]);
                    }
                    let mut g = src.remove(0);
                    proof {
                        assert(src@ =~= src0.skip(j + 1));
                    }
                    if g.lib.is_some() && g.identifier.is_none() {
                        g.identifier = Some(Identifier::from_uuidv4());
                    }
                    dst.push(g);
                }
                proof {
                    assert forall|j: int|
                        0 <= j < dst@.len() && (#[trigger] dst@[j].lib) is Some implies dst@[j].identifier is Some by {
                        assert(dst@[j].lib == src0[j].lib);
                    }
                    assert(guidelines_libs_have_ids(dst@));
                }
                self.guidelines = Some(dst);
            },
            None => {},
        }
        match self.outline.take() {
            Some(o) => {
                let mut o = o;
                let mut cs: Vec<Contour> = Vec::new();
                std::mem::swap(&mut o.contours, &mut cs);
                let ghost cs0 = cs@;
                let mut csrc = cs;
                let mut cdst: Vec<Contour> = Vec::new();
                while csrc.len() > 0
                    invariant
                        cdst@.len() + csrc@.len() == cs0.len(),
                        csrc@ == cs0.skip(cdst@.len() as int),
                        forall|ci: int|
                            0 <= ci < cdst@.len() ==> {
                                let c0 = #[trigger] cs0[ci];
                                let c1 = cdst@[ci];
                                &&& c1.lib == c0.lib
                                &&& id_synthesized(c0.identifier, c1.identifier, c0.lib is Some)
                                &&& c1.points@.len() == c0.points@.len()
                                &&& (forall|pj: int|
                                    0 <= pj < c0.points@.len() ==> c1.points@[pj] == (ContourPoint {
                                        identifier: c1.points@[pj].identifier,
                                        ..(#[trigger] c0.points@[pj])
                                    }) && id_synthesized(
                                        c0.points@[pj].identifier,
                                        c1.points@[pj].identifier,
                                        c0.points@[pj].lib is Some,
                                    ))
                            },
                    decreases csrc@.len(),
                {
                    let ghost ci = cdst@.len() as int;
                    proof {
                        assert(csrc@[0] == cs0[ci]);
                    }
                    let mut c = csrc.remove(0);
                    proof {
                        assert(csrc@ =~= cs0.skip(ci + 1));
                    }
                    if c.lib.is_some() && c.identifier.is_none() {
                        c.identifier = Some(Identifier::from_uuidv4());
                    }
                    let mut pts: Vec<ContourPoint> = Vec::new();
                    std::mem::swap(&mut c.points, &mut pts);
                    let ghost p0 = pts@;
                    let mut psrc = pts;
                    let mut pdst: Vec<ContourPoint> = Vec::new();
                    while psrc.len() > 0
                        invariant
                            pdst@.len() + psrc@.len() == p0.len(),
                            psrc@ == p0.skip(pdst@.len() as int),
                            forall|pj: int|
                                0 <= pj < pdst@.len() ==> pdst@[pj] == (ContourPoint {
                                    identifier: pdst@[pj].identifier,
                                    ..(#[trigger] p0[pj])
                                }) && id_synthesized(
                                    p0[pj].identifier,
                                    pdst@[pj].identifier,
                                    p0[pj].lib is Some,
                                ),
                        decreases psrc@.len(),
                    {
                        let ghost pj = pdst@.len() as int;
                        proof {
                            assert(psrc@[0] == p0[pj]);
                        }
                        let mut p = psrc.remove(0);
                        proof {
                            assert(psrc@ =~= p0.skip(pj + 1));
                        }
                        if p.lib.is_some() && p.identifier.is_none() {
                            p.identifier = Some(Identifier::from_uuidv4());
                        }
                        pdst.push(p);
                    }
                    c.points = pdst;
                    cdst.push(c);
                }
                proof {
                    assert forall|ci: int|
                        0 <= ci < cdst@.len() && (#[trigger] cdst@[ci].lib) is Some implies cdst@[ci].identifier is Some by {
                        assert(cdst@[ci].lib == cs0[ci].lib);
                    }
                    assert(contours_libs_have_ids(cdst@));
                    assert forall|ci: int| 0 <= ci < cdst@.len() implies points_libs_have_ids(
                        #[trigger] cdst@[ci].points@,
                    ) by {
                        assert forall|pj: int|
                            0 <= pj < cdst@[ci].points@.len() && (#[trigger] cdst@[ci].points@[pj].lib) is Some implies cdst@[ci].points@[pj].identifier is Some by {
                            assert(cdst@[ci].points@[pj].lib == cs0[ci].points@[pj].lib);
                        }
                    }
                }
                o.contours = cdst;
                let mut cms: Vec<Component> = Vec::new();
                std::mem::swap(&mut o.components, &mut cms);
                let ghost cm0 = cms@;
                let mut msrc = cms;
                let mut mdst: Vec<Component> = Vec::new();
                while msrc.len() > 0
                    invariant
                        mdst@.len() + msrc@.len() == cm0.len(),
                        msrc@ == cm0.skip(mdst@.len() as int),
                        forall|j: int|
                            0 <= j < mdst@.len() ==> mdst@[j] == (Component {
                                identifier: mdst@[j].identifier,
                                ..(#[trigger] cm0[j])
                            }) && id_synthesized(
                                cm0[j].identifier,
                                mdst@[j].identifier,
                                cm0[j].lib is Some,
                            ),
                    decreases msrc@.len(),
                {
                    let ghost j = mdst@.len() as int;
                    proof {
                        assert(msrc@[0] == cm0[j]);
                    }
                    let mut m = msrc.remove(0);
                    proof {
                        assert(msrc@ =~= cm0.skip(j + 1));
                    }
                    if m.lib.is_some() && m.identifier.is_none() {
                        m.identifier = Some(Identifier::from_uuidv4());
                    }
                    mdst.push(m);
                }
                proof {
                    assert forall|j: int|
                        0 <= j < mdst@.len() && (#[trigger] mdst@[j].lib) is Some implies mdst@[j].identifier is Some by {
                        assert(mdst@[j].lib == cm0[j].lib);
                    }
                    assert(components_libs_have_ids(mdst@));
                }
                o.components = mdst;
                self.outline = Some(o);
            },
            None => {},
        }
    }
}

} // verus!


verus! {

/// Moving object libs into sub-objects never touches identifiers, so the
/// uniqueness of identifiers within a glyph is preserved by redistribution.
#[verifier::spinoff_prover]
#[verifier::rlimit(100)]
pub proof fn lemma_filled_preserves_unique_ids(g1: Glyph, g0: Glyph, ol: Seq<(String, Value)>)
    requires
        glyph_ids_unique(g0),
        glyph_libs_filled(g1, g0, ol),
    ensures
        glyph_ids_unique(g1),
{
    let a0 = opt_anchors(g0.anchors);
    let a1 = opt_anchors(g1.anchors);
    let gl0 = opt_guidelines(g0.guidelines);
    let gl1 = opt_guidelines(g1.guidelines);
    let cs0 = outline_contours(g0.outline);
    let cs1 = outline_contours(g1.outline);
    let cm0 = outline_components(g0.outline);
    let cm1 = outline_components(g1.outline);
    assert(a1.len() == a0.len());
    assert(gl1.len() == gl0.len());
    assert(cs1.len() == cs0.len());
    assert(cm1.len() == cm0.len());
    assert forall|j: int| 0 <= j < a0.len() implies opt_id_view(#[trigger] a1[j].identifier)
        == opt_id_view(a0[j].identifier) by {
        assert(a1[j] == anchor_filled(a0[j], ol));
    }
    assert forall|j: int| 0 <= j < gl0.len() implies opt_id_view(#[trigger] gl1[j].identifier)
        == opt_id_view(gl0[j].identifier) by {
        assert(gl1[j] == guideline_filled(gl0[j], ol));
    }
    assert forall|j: int| 0 <= j < cm0.len() implies opt_id_view(#[trigger] cm1[j].identifier)
        == opt_id_view(cm0[j].identifier) by {
        assert(cm1[j] == component_filled(cm0[j], ol));
    }
    assert forall|ci: int| 0 <= ci < cs0.len() implies opt_id_view(#[trigger] cs1[ci].identifier)
        == opt_id_view(cs0[ci].identifier) && cs1[ci].points@.len() == cs0[ci].points@.len() && (
    forall|pj: int|
        0 <= pj < cs0[ci].points@.len() ==> opt_id_view(#[trigger] cs1[ci].points@[pj].identifier)
            == opt_id_view(cs0[ci].points@[pj].identifier)) by {
        assert(contour_filled_ok(cs1[ci], cs0[ci], ol));
        assert forall|pj: int|
            0 <= pj < cs0[ci].points@.len() implies opt_id_view(
            #[trigger] cs1[ci].points@[pj].identifier,
        ) == opt_id_view(cs0[ci].points@[pj].identifier) by {
            assert(cs1[ci].points@[pj] == point_filled(cs0[ci].points@[pj], ol));
        }
    }
    assert forall|k: Seq<char>| true implies (anchors_have_id(a1, k) == anchors_have_id(a0, k))
        && (guidelines_have_id(gl1, k) == guidelines_have_id(gl0, k)) && (components_have_id(
        cm1,
        k,
    ) == components_have_id(cm0, k)) && (contours_have_id(cs1, k) == contours_have_id(
        cs0,
        k,
    )) by {
        if anchors_have_id(a0, k) {
            let w = choose|w: int| 0 <= w < a0.len() && opt_id_view(a0[w].identifier) == Some(k);
            assert(opt_id_view(a1[w].identifier) == Some(k));
        }
        if anchors_have_id(a1, k) {
            let w = choose|w: int| 0 <= w < a1.len() && opt_id_view(a1[w].identifier) == Some(k);
            assert(opt_id_view(a0[w].identifier) == Some(k));
        }
        if guidelines_have_id(gl0, k) {
            let w = choose|w: int| 0 <= w < gl0.len() && opt_id_view(gl0[w].identifier) == Some(k);
            assert(opt_id_view(gl1[w].identifier) == Some(k));
        }
        if guidelines_have_id(gl1, k) {
            let w = choose|w: int| 0 <= w < gl1.len() && opt_id_view(gl1[w].identifier) == Some(k);
            assert(opt_id_view(gl0[w].identifier) == Some(k));
        }
        if components_have_id(cm0, k) {
            let w = choose|w: int| 0 <= w < cm0.len() && opt_id_view(cm0[w].identifier) == Some(k);
            assert(opt_id_view(cm1[w].identifier) == Some(k));
        }
        if components_have_id(cm1, k) {
            let w = choose|w: int| 0 <= w < cm1.len() && opt_id_view(cm1[w].identifier) == Some(k);
            assert(opt_id_view(cm0[w].identifier) == Some(k));
        }
        if contours_have_id(cs0, k) {
            let w = choose|w: int| 0 <= w < cs0.len() && opt_id_view(cs0[w].identifier) == Some(k);
            assert(opt_id_view(cs1[w].identifier) == Some(k));
        }
        if contours_have_id(cs1, k) {
            let w = choose|w: int| 0 <= w < cs1.len() && opt_id_view(cs1[w].identifier) == Some(k);
            assert(opt_id_view(cs0[w].identifier) == Some(k));
        }
    }
    assert forall|ci: int, k: Seq<char>|
        0 <= ci < cs0.len() implies (#[trigger] points_have_id(cs1[ci].points@, k))
        == points_have_id(cs0[ci].points@, k) by {
        if points_have_id(cs0[ci].points@, k) {
            let w = choose|w: int|
                0 <= w < cs0[ci].points@.len() && opt_id_view(cs0[ci].points@[w].identifier)
                    == Some(k);
            assert(opt_id_view(cs1[ci].points@[w].identifier) == Some(k));
        }
        if points_have_id(cs1[ci].points@, k) {
            let w = choose|w: int|
                0 <= w < cs1[ci].points@.len() && opt_id_view(cs1[ci].points@[w].identifier)
                    == Some(k);
            assert(opt_id_view(cs0[ci].points@[w].identifier) == Some(k));
        }
    }
    assert forall|k: Seq<char>| true implies (outline_part_has_id(cs1, k) == outline_part_has_id(
        cs0,
        k,
    )) by {
        if outline_part_has_id(cs0, k) && !contours_have_id(cs0, k) {
            let ci = choose|ci: int| 0 <= ci < cs0.len() && points_have_id(cs0[ci].points@, k);
            assert(points_have_id(cs1[ci].points@, k));
        }
        if outline_part_has_id(cs1, k) && !contours_have_id(cs1, k) {
            let ci = choose|ci: int| 0 <= ci < cs1.len() && points_have_id(cs1[ci].points@, k);
            assert(points_have_id(cs0[ci].points@, k));
        }
    }
    assert forall|ci: int| 0 <= ci < cs1.len() implies points_ids_distinct(
        #[trigger] cs1[ci].points@,
    ) by {
        assert(points_ids_distinct(cs0[ci].points@));
    }
    assert forall|ci: int, cj: int, k: Seq<char>|
        0 <= ci < cj < cs1.len() && #[trigger] points_have_id(cs1[ci].points@, k) implies
        !points_have_id(#[trigger] cs1[cj].points@, k) by {
        assert(points_have_id(cs0[ci].points@, k));
        assert(!points_have_id(cs0[cj].points@, k));
    }
    assert forall|ci: int, k: Seq<char>|
        0 <= ci < cs1.len() && #[trigger] points_have_id(cs1[ci].points@, k) implies
        !contours_have_id(cs1, k) by {
        assert(points_have_id(cs0[ci].points@, k));
    }
}

} // verus!

verus! {

/// Whether some anchor carries the given identifier with a non-empty lib.
pub open spec fn anchors_have_lib_id(s: Seq<Anchor>, k: Seq<char>) -> bool {
    exists|j: int|
        0 <= j < s.len() && opt_id_view(s[j].identifier) == Some(k) && (s[j].lib matches Some(l)
            && l@.len() > 0)
}

/// Whether some guideline carries the given identifier with a non-empty lib.
pub open spec fn guidelines_have_lib_id(s: Seq<Guideline>, k: Seq<char>) -> bool {
    exists|j: int|
        0 <= j < s.len() && opt_id_view(s[j].identifier) == Some(k) && (s[j].lib matches Some(l)
            && l@.len() > 0)
}

/// Whether some point carries the given identifier with a non-empty lib.
pub open spec fn points_have_lib_id(s: Seq<ContourPoint>, k: Seq<char>) -> bool {
    exists|j: int|
        0 <= j < s.len() && opt_id_view(s[j].identifier) == Some(k) && (s[j].lib matches Some(l)
            && l@.len() > 0)
}

/// Whether some contour carries the given identifier with a non-empty lib.
pub open spec fn contours_have_lib_id(s: Seq<Contour>, k: Seq<char>) -> bool {
    exists|j: int|
        0 <= j < s.len() && opt_id_view(s[j].identifier) == Some(k) && (s[j].lib matches Some(l)
            && l@.len() > 0)
}

/// Whether some component carries the given identifier with a non-empty lib.
pub open spec fn components_have_lib_id(s: Seq<Component>, k: Seq<char>) -> bool {
    exists|j: int|
        0 <= j < s.len() && opt_id_view(s[j].identifier) == Some(k) && (s[j].lib matches Some(l)
            && l@.len() > 0)
}

/// Whether a contour or one of its points carries the given identifier with
/// a non-empty lib.
pub open spec fn outline_part_has_lib_id(cs: Seq<Contour>, k: Seq<char>) -> bool {
    contours_have_lib_id(cs, k) || exists|ci: int|
        0 <= ci < cs.len() && #[trigger] points_have_lib_id(cs[ci].points@, k)
}

/// Whether some sub-object of the glyph carries the given identifier with a
/// non-empty lib.
pub open spec fn glyph_has_lib_id(g: Glyph, k: Seq<char>) -> bool {
    ||| anchors_have_lib_id(opt_anchors(g.anchors), k)
    ||| guidelines_have_lib_id(opt_guidelines(g.guidelines), k)
    ||| outline_part_has_lib_id(outline_contours(g.outline), k)
    ||| components_have_lib_id(outline_components(g.outline), k)
}

/// Whether every anchor carrying a non-empty lib also carries an identifier.
pub open spec fn anchors_libs_have_ids(s: Seq<Anchor>) -> bool {
    forall|j: int|
        0 <= j < s.len() && ((#[trigger] s[j].lib) matches Some(l) && l@.len() > 0)
            ==> s[j].identifier is Some
}

/// Whether every guideline carrying a non-empty lib also carries an
/// identifier.
pub open spec fn guidelines_libs_have_ids(s: Seq<Guideline>) -> bool {
    forall|j: int|
        0 <= j < s.len() && ((#[trigger] s[j].lib) matches Some(l) && l@.len() > 0)
            ==> s[j].identifier is Some
}

/// Whether every point carrying a non-empty lib also carries an identifier.
pub open spec fn points_libs_have_ids(s: Seq<ContourPoint>) -> bool {
    forall|j: int|
        0 <= j < s.len() && ((#[trigger] s[j].lib) matches Some(l) && l@.len() > 0)
            ==> s[j].identifier is Some
}

/// Whether every contour carrying a non-empty lib also carries an
/// identifier.
pub open spec fn contours_libs_have_ids(s: Seq<Contour>) -> bool {
    forall|j: int|
        0 <= j < s.len() && ((#[trigger] s[j].lib) matches Some(l) && l@.len() > 0)
            ==> s[j].identifier is Some
}

/// Whether every component carrying a non-empty lib also carries an
/// identifier.
pub open spec fn components_libs_have_ids(s: Seq<Component>) -> bool {
    forall|j: int|
        0 <= j < s.len() && ((#[trigger] s[j].lib) matches Some(l) && l@.len() > 0)
            ==> s[j].identifier is Some
}

/// Whether every sub-object of the glyph carrying a non-empty lib also
/// carries an identifier.
pub open spec fn glyph_libs_have_ids(g: Glyph) -> bool {
    &&& anchors_libs_have_ids(opt_anchors(g.anchors))
    &&& guidelines_libs_have_ids(opt_guidelines(g.guidelines))
    &&& contours_libs_have_ids(outline_contours(g.outline))
    &&& (forall|ci: int|
        0 <= ci < outline_contours(g.outline).len() ==> points_libs_have_ids(
            #[trigger] outline_contours(g.outline)[ci].points@,
        ))
    &&& components_libs_have_ids(outline_components(g.outline))
}

/// What an object-libs dictionary owes one sub-object: where the object has
/// an identifier and a non-empty lib, the dictionary holds, under that
/// identifier, a dictionary structurally equivalent to the lib.
pub open spec fn lib_entry_emitted(
    out: Seq<(String, Value)>,
    id: Option<Identifier>,
    lib: Option<Plist>,
) -> bool {
    match (id, lib) {
        (Some(i), Some(l)) => l@.len() > 0 ==> match spec_get(out, i@) {
            Some(Value::Dictionary(d)) => plist_like(l, d),
            _ => false,
        },
        _ => true,
    }
}

} // verus!

verus! {

/// Copies anchors' non-empty libs into an object-libs dictionary, keyed by
/// each anchor's identifier. The anchors are untouched; entries under other
/// keys are unaffected.
fn collect_anchor_libs(anchors: &Vec<Anchor>, out: &mut Plist)
    requires
        anchors_ids_distinct(anchors@),
        anchors_libs_have_ids(anchors@),
        keys_unique(old(out)@),
        forall|k: Seq<char>| has_key(old(out)@, k) ==> !anchors_have_id(anchors@, k),
    ensures
        keys_unique(final(out)@),
        forall|j: int|
            0 <= j < anchors@.len() ==> lib_entry_emitted(
                final(out)@,
                (#[trigger] anchors@[j]).identifier,
                anchors@[j].lib,
            ),
        forall|k: Seq<char>|
            !anchors_have_id(anchors@, k) ==> spec_get(final(out)@, k) == spec_get(old(out)@, k),
        forall|k: Seq<char>|
            has_key(final(out)@, k) ==> has_key(old(out)@, k) || anchors_have_lib_id(anchors@, k),
        entry_keys(final(out)@) == entry_keys(old(out)@) + emitted_keys_anchors(anchors@),
{
    let ghost out0 = out@;
    proof {
        assert(anchors@.take(0) =~= Seq::<Anchor>::empty());
        assert(entry_keys(out0) + emitted_keys_anchors(anchors@.take(0)) =~= entry_keys(out0));
    }
    let n = anchors.len();
    let mut i: usize = 0;
    while i < n
        invariant
            i <= n,
            n == anchors@.len(),
            anchors_ids_distinct(anchors@),
            anchors_libs_have_ids(anchors@),
            forall|k: Seq<char>| has_key(out0, k) ==> !anchors_have_id(anchors@, k),
            keys_unique(out@),
            forall|j: int|
                0 <= j < i ==> lib_entry_emitted(
                    out@,
                    (#[trigger] anchors@[j]).identifier,
                    anchors@[j].lib,
                ),
            forall|k: Seq<char>|
                !anchors_have_id(anchors@, k) ==> spec_get(out@, k) == spec_get(out0, k),
            forall|k: Seq<char>|
                has_key(out@, k) ==> has_key(out0, k) || (exists|j2: int|
                    0 <= j2 < i && opt_id_view(#[trigger] anchors@[j2].identifier) == Some(k)
                        && (anchors@[j2].lib matches Some(l) && l@.len() > 0)),
            entry_keys(out@) == entry_keys(out0) + emitted_keys_anchors(anchors@.take(i as int)),
        decreases n - i,
    {
        let emit = match &anchors[i].lib {
            Some(l) => l.len() > 0,
            None => false,
        };
        if emit {
            let ghost out_pre = out@;
            let l = anchors[i].lib.as_ref().unwrap();
            let key = anchors[i].identifier.as_ref().unwrap().as_str().to_owned();
            let ghost idv = anchors@[i as int].identifier.unwrap()@;
            proof {
                assert(opt_id_view(anchors@[i as int].identifier) == Some(idv));
                assert(anchors_have_id(anchors@, idv));
                if has_key(out_pre, idv) {
                    if !has_key(out0, idv) {
                        let j2 = choose|j2: int|
                            0 <= j2 < i && opt_id_view(#[trigger] anchors@[j2].identifier) == Some(
                                idv,
                            ) && (anchors@[j2].lib matches Some(l2) && l2@.len() > 0);
                        assert(opt_id_view(anchors@[j2].identifier) != opt_id_view(
                            anchors@[i as int].identifier,
                        ));
                    }
                    assert(false);
                }
            }
            let d = l.duplicate();
            let ghost gd = d;
            let ghost gkey = key;
            let old_val = out.insert(key, Value::Dictionary(d));
            proof {
                let p = (gkey, Value::Dictionary(gd));
                assert(out@ == out_pre.push(p));
                lemma_push_entry(out_pre, p, idv);
                assert(spec_get(out@, idv) == Some(Value::Dictionary(gd)));
                assert(entry_keys(out@) =~= entry_keys(out_pre).push(idv));
                assert forall|j: int|
                    0 <= j < i + 1 implies lib_entry_emitted(
                    out@,
                    (#[trigger] anchors@[j]).identifier,
                    anchors@[j].lib,
                ) by {
                    if j < i {
                        match (anchors@[j].identifier, anchors@[j].lib) {
                            (Some(id2), Some(l2)) => {
                                if l2@.len() > 0 {
                                    assert(opt_id_view(anchors@[j].identifier) != opt_id_view(
                                        anchors@[i as int].identifier,
                                    ));
                                    lemma_push_entry(out_pre, p, id2@);
                                }
                            },
                            _ => {},
                        }
                    }
                }
                assert forall|k: Seq<char>| !anchors_have_id(anchors@, k) implies spec_get(
                    out@,
                    k,
                ) == spec_get(out0, k) by {
                    assert(k != idv);
                    lemma_push_entry(out_pre, p, k);
                }
                assert forall|k: Seq<char>|
                    has_key(out@, k) implies has_key(out0, k) || (exists|j2: int|
                    0 <= j2 < i + 1 && opt_id_view(#[trigger] anchors@[j2].identifier) == Some(k)
                        && (anchors@[j2].lib matches Some(l2) && l2@.len() > 0)) by {
                    if k != idv {
                        let w = choose|w: int| 0 <= w < out@.len() && out@[w].0@ == k;
                        assert(out@[w] == out_pre[w]);
                        assert(has_key(out_pre, k));
                    } else {
                        assert(opt_id_view(anchors@[i as int].identifier) == Some(k));
                    }
                }
            }
        }
        proof {
            lemma_emitted_keys_anchors_snoc(anchors@, i as int);
            assert(entry_keys(out@) =~= entry_keys(out0) + emitted_keys_anchors(
                anchors@.take(i + 1),
            ));
        }
        i += 1;
    }
    proof {
        assert(anchors@.take(n as int) =~= anchors@);
    }
}

} // verus!

verus! {

/// Copies guidelines' non-empty libs into an object-libs dictionary, keyed by
/// each guideline's identifier. The guidelines are untouched; entries under other
/// keys are unaffected.
fn collect_guideline_libs(guidelines: &Vec<Guideline>, out: &mut Plist)
    requires
        guidelines_ids_distinct(guidelines@),
        guidelines_libs_have_ids(guidelines@),
        keys_unique(old(out)@),
        forall|k: Seq<char>| has_key(old(out)@, k) ==> !guidelines_have_id(guidelines@, k),
    ensures
        keys_unique(final(out)@),
        forall|j: int|
            0 <= j < guidelines@.len() ==> lib_entry_emitted(
                final(out)@,
                (#[trigger] guidelines@[j]).identifier,
                guidelines@[j].lib,
            ),
        forall|k: Seq<char>|
            !guidelines_have_id(guidelines@, k) ==> spec_get(final(out)@, k) == spec_get(old(out)@, k),
        forall|k: Seq<char>|
            has_key(final(out)@, k) ==> has_key(old(out)@, k) || guidelines_have_lib_id(guidelines@, k),
        entry_keys(final(out)@) == entry_keys(old(out)@) + emitted_keys_guidelines(guidelines@),
{
    let ghost out0 = out@;
    proof {
        assert(guidelines@.take(0) =~= Seq::<Guideline>::empty());
        assert(entry_keys(out0) + emitted_keys_guidelines(guidelines@.take(0)) =~= entry_keys(out0));
    }
    let n = guidelines.len();
    let mut i: usize = 0;
    while i < n
        invariant
            i <= n,
            n == guidelines@.len(),
            guidelines_ids_distinct(guidelines@),
            guidelines_libs_have_ids(guidelines@),
            forall|k: Seq<char>| has_key(out0, k) ==> !guidelines_have_id(guidelines@, k),
            keys_unique(out@),
            forall|j: int|
                0 <= j < i ==> lib_entry_emitted(
                    out@,
                    (#[trigger] guidelines@[j]).identifier,
                    guidelines@[j].lib,
                ),
            forall|k: Seq<char>|
                !guidelines_have_id(guidelines@, k) ==> spec_get(out@, k) == spec_get(out0, k),
            forall|k: Seq<char>|
                has_key(out@, k) ==> has_key(out0, k) || (exists|j2: int|
                    0 <= j2 < i && opt_id_view(#[trigger] guidelines@[j2].identifier) == Some(k)
                        && (guidelines@[j2].lib matches Some(l) && l@.len() > 0)),
            entry_keys(out@) == entry_keys(out0) + emitted_keys_guidelines(guidelines@.take(i as int)),
        decreases n - i,
    {
        let emit = match &guidelines[i].lib {
            Some(l) => l.len() > 0,
            None => false,
        };
        if emit {
            let ghost out_pre = out@;
            let l = guidelines[i].lib.as_ref().unwrap();
            let key = guidelines[i].identifier.as_ref().unwrap().as_str().to_owned();
            let ghost idv = guidelines@[i as int].identifier.unwrap()@;
            proof {
                assert(opt_id_view(guidelines@[i as int].identifier) == Some(idv));
                assert(guidelines_have_id(guidelines@, idv));
                if has_key(out_pre, idv) {
                    if !has_key(out0, idv) {
                        let j2 = choose|j2: int|
                            0 <= j2 < i && opt_id_view(#[trigger] guidelines@[j2].identifier) == Some(
                                idv,
                            ) && (guidelines@[j2].lib matches Some(l2) && l2@.len() > 0);
                        assert(opt_id_view(guidelines@[j2].identifier) != opt_id_view(
                            guidelines@[i as int].identifier,
                        ));
                    }
                    assert(false);
                }
            }
            let d = l.duplicate();
            let ghost gd = d;
            let ghost gkey = key;
            let old_val = out.insert(key, Value::Dictionary(d));
            proof {
                let p = (gkey, Value::Dictionary(gd));
                assert(out@ == out_pre.push(p));
                lemma_push_entry(out_pre, p, idv);
                assert(spec_get(out@, idv) == Some(Value::Dictionary(gd)));
                assert(entry_keys(out@) =~= entry_keys(out_pre).push(idv));
                assert forall|j: int|
                    0 <= j < i + 1 implies lib_entry_emitted(
                    out@,
                    (#[trigger] guidelines@[j]).identifier,
                    guidelines@[j].lib,
                ) by {
                    if j < i {
                        match (guidelines@[j].identifier, guidelines@[j].lib) {
                            (Some(id2), Some(l2)) => {
                                if l2@.len() > 0 {
                                    assert(opt_id_view(guidelines@[j].identifier) != opt_id_view(
                                        guidelines@[i as int].identifier,
                                    ));
                                    lemma_push_entry(out_pre, p, id2@);
                                }
                            },
                            _ => {},
                        }
                    }
                }
                assert forall|k: Seq<char>| !guidelines_have_id(guidelines@, k) implies spec_get(
                    out@,
                    k,
                ) == spec_get(out0, k) by {
                    assert(k != idv);
                    lemma_push_entry(out_pre, p, k);
                }
                assert forall|k: Seq<char>|
                    has_key(out@, k) implies has_key(out0, k) || (exists|j2: int|
                    0 <= j2 < i + 1 && opt_id_view(#[trigger] guidelines@[j2].identifier) == Some(k)
                        && (guidelines@[j2].lib matches Some(l2) && l2@.len() > 0)) by {
                    if k != idv {
                        let w = choose|w: int| 0 <= w < out@.len() && out@[w].0@ == k;
                        assert(out@[w] == out_pre[w]);
                        assert(has_key(out_pre, k));
                    } else {
                        assert(opt_id_view(guidelines@[i as int].identifier) == Some(k));
                    }
                }
            }
        }
        proof {
            lemma_emitted_keys_guidelines_snoc(guidelines@, i as int);
            assert(entry_keys(out@) =~= entry_keys(out0) + emitted_keys_guidelines(
                guidelines@.take(i + 1),
            ));
        }
        i += 1;
    }
    proof {
        assert(guidelines@.take(n as int) =~= guidelines@);
    }
}

/// Copies points' non-empty libs into an object-libs dictionary, keyed by
/// each point's identifier. The points are untouched; entries under other
/// keys are unaffected.
fn collect_point_libs(points: &Vec<ContourPoint>, out: &mut Plist)
    requires
        points_ids_distinct(points@),
        points_libs_have_ids(points@),
        keys_unique(old(out)@),
        forall|k: Seq<char>| has_key(old(out)@, k) ==> !points_have_id(points@, k),
    ensures
        keys_unique(final(out)@),
        forall|j: int|
            0 <= j < points@.len() ==> lib_entry_emitted(
                final(out)@,
                (#[trigger] points@[j]).identifier,
                points@[j].lib,
            ),
        forall|k: Seq<char>|
            !points_have_id(points@, k) ==> spec_get(final(out)@, k) == spec_get(old(out)@, k),
        forall|k: Seq<char>|
            has_key(final(out)@, k) ==> has_key(old(out)@, k) || points_have_lib_id(points@, k),
        entry_keys(final(out)@) == entry_keys(old(out)@) + emitted_keys_points(points@),
{
    let ghost out0 = out@;
    proof {
        assert(points@.take(0) =~= Seq::<ContourPoint>::empty());
        assert(entry_keys(out0) + emitted_keys_points(points@.take(0)) =~= entry_keys(out0));
    }
    let n = points.len();
    let mut i: usize = 0;
    while i < n
        invariant
            i <= n,
            n == points@.len(),
            points_ids_distinct(points@),
            points_libs_have_ids(points@),
            forall|k: Seq<char>| has_key(out0, k) ==> !points_have_id(points@, k),
            keys_unique(out@),
            forall|j: int|
                0 <= j < i ==> lib_entry_emitted(
                    out@,
                    (#[trigger] points@[j]).identifier,
                    points@[j].lib,
                ),
            forall|k: Seq<char>|
                !points_have_id(points@, k) ==> spec_get(out@, k) == spec_get(out0, k),
            forall|k: Seq<char>|
                has_key(out@, k) ==> has_key(out0, k) || (exists|j2: int|
                    0 <= j2 < i && opt_id_view(#[trigger] points@[j2].identifier) == Some(k)
                        && (points@[j2].lib matches Some(l) && l@.len() > 0)),
            entry_keys(out@) == entry_keys(out0) + emitted_keys_points(points@.take(i as int)),
        decreases n - i,
    {
        let emit = match &points[i].lib {
            Some(l) => l.len() > 0,
            None => false,
        };
        if emit {
            let ghost out_pre = out@;
            let l = points[i].lib.as_ref().unwrap();
            let key = points[i].identifier.as_ref().unwrap().as_str().to_owned();
            let ghost idv = points@[i as int].identifier.unwrap()@;
            proof {
                assert(opt_id_view(points@[i as int].identifier) == Some(idv));
                assert(points_have_id(points@, idv));
                if has_key(out_pre, idv) {
                    if !has_key(out0, idv) {
                        let j2 = choose|j2: int|
                            0 <= j2 < i && opt_id_view(#[trigger] points@[j2].identifier) == Some(
                                idv,
                            ) && (points@[j2].lib matches Some(l2) && l2@.len() > 0);
                        assert(opt_id_view(points@[j2].identifier) != opt_id_view(
                            points@[i as int].identifier,
                        ));
                    }
                    assert(false);
                }
            }
            let d = l.duplicate();
            let ghost gd = d;
            let ghost gkey = key;
            let old_val = out.insert(key, Value::Dictionary(d));
            proof {
                let p = (gkey, Value::Dictionary(gd));
                assert(out@ == out_pre.push(p));
                lemma_push_entry(out_pre, p, idv);
                assert(spec_get(out@, idv) == Some(Value::Dictionary(gd)));
                assert(entry_keys(out@) =~= entry_keys(out_pre).push(idv));
                assert forall|j: int|
                    0 <= j < i + 1 implies lib_entry_emitted(
                    out@,
                    (#[trigger] points@[j]).identifier,
                    points@[j].lib,
                ) by {
                    if j < i {
                        match (points@[j].identifier, points@[j].lib) {
                            (Some(id2), Some(l2)) => {
                                if l2@.len() > 0 {
                                    assert(opt_id_view(points@[j].identifier) != opt_id_view(
                                        points@[i as int].identifier,
                                    ));
                                    lemma_push_entry(out_pre, p, id2@);
                                }
                            },
                            _ => {},
                        }
                    }
                }
                assert forall|k: Seq<char>| !points_have_id(points@, k) implies spec_get(
                    out@,
                    k,
                ) == spec_get(out0, k) by {
                    assert(k != idv);
                    lemma_push_entry(out_pre, p, k);
                }
                assert forall|k: Seq<char>|
                    has_key(out@, k) implies has_key(out0, k) || (exists|j2: int|
                    0 <= j2 < i + 1 && opt_id_view(#[trigger] points@[j2].identifier) == Some(k)
                        && (points@[j2].lib matches Some(l2) && l2@.len() > 0)) by {
                    if k != idv {
                        let w = choose|w: int| 0 <= w < out@.len() && out@[w].0@ == k;
                        assert(out@[w] == out_pre[w]);
                        assert(has_key(out_pre, k));
                    } else {
                        assert(opt_id_view(points@[i as int].identifier) == Some(k));
                    }
                }
            }
        }
        proof {
            lemma_emitted_keys_points_snoc(points@, i as int);
            assert(entry_keys(out@) =~= entry_keys(out0) + emitted_keys_points(
                points@.take(i + 1),
            ));
        }
        i += 1;
    }
    proof {
        assert(points@.take(n as int) =~= points@);
    }
}

/// Copies components' non-empty libs into an object-libs dictionary, keyed by
/// each component's identifier. The components are untouched; entries under other
/// keys are unaffected.
fn collect_component_libs(components: &Vec<Component>, out: &mut Plist)
    requires
        components_ids_distinct(components@),
        components_libs_have_ids(components@),
        keys_unique(old(out)@),
        forall|k: Seq<char>| has_key(old(out)@, k) ==> !components_have_id(components@, k),
    ensures
        keys_unique(final(out)@),
        forall|j: int|
            0 <= j < components@.len() ==> lib_entry_emitted(
                final(out)@,
                (#[trigger] components@[j]).identifier,
                components@[j].lib,
            ),
        forall|k: Seq<char>|
            !components_have_id(components@, k) ==> spec_get(final(out)@, k) == spec_get(old(out)@, k),
        forall|k: Seq<char>|
            has_key(final(out)@, k) ==> has_key(old(out)@, k) || components_have_lib_id(components@, k),
        entry_keys(final(out)@) == entry_keys(old(out)@) + emitted_keys_components(components@),
{
    let ghost out0 = out@;
    proof {
        assert(components@.take(0) =~= Seq::<Component>::empty());
        assert(entry_keys(out0) + emitted_keys_components(components@.take(0)) =~= entry_keys(out0));
    }
    let n = components.len();
    let mut i: usize = 0;
    while i < n
        invariant
            i <= n,
            n == components@.len(),
            components_ids_distinct(components@),
            components_libs_have_ids(components@),
            forall|k: Seq<char>| has_key(out0, k) ==> !components_have_id(components@, k),
            keys_unique(out@),
            forall|j: int|
                0 <= j < i ==> lib_entry_emitted(
                    out@,
                    (#[trigger] components@[j]).identifier,
                    components@[j].lib,
                ),
            forall|k: Seq<char>|
                !components_have_id(components@, k) ==> spec_get(out@, k) == spec_get(out0, k),
            forall|k: Seq<char>|
                has_key(out@, k) ==> has_key(out0, k) || (exists|j2: int|
                    0 <= j2 < i && opt_id_view(#[trigger] components@[j2].identifier) == Some(k)
                        && (components@[j2].lib matches Some(l) && l@.len() > 0)),
            entry_keys(out@) == entry_keys(out0) + emitted_keys_components(components@.take(i as int)),
        decreases n - i,
    {
        let emit = match &components[i].lib {
            Some(l) => l.len() > 0,
            None => false,
        };
        if emit {
            let ghost out_pre = out@;
            let l = components[i].lib.as_ref().unwrap();
            let key = components[i].identifier.as_ref().unwrap().as_str().to_owned();
            let ghost idv = components@[i as int].identifier.unwrap()@;
            proof {
                assert(opt_id_view(components@[i as int].identifier) == Some(idv));
                assert(components_have_id(components@, idv));
                if has_key(out_pre, idv) {
                    if !has_key(out0, idv) {
                        let j2 = choose|j2: int|
                            0 <= j2 < i && opt_id_view(#[trigger] components@[j2].identifier) == Some(
                                idv,
                            ) && (components@[j2].lib matches Some(l2) && l2@.len() > 0);
                        assert(opt_id_view(components@[j2].identifier) != opt_id_view(
                            components@[i as int].identifier,
                        ));
                    }
                    assert(false);
                }
            }
            let d = l.duplicate();
            let ghost gd = d;
            let ghost gkey = key;
            let old_val = out.insert(key, Value::Dictionary(d));
            proof {
                let p = (gkey, Value::Dictionary(gd));
                assert(out@ == out_pre.push(p));
                lemma_push_entry(out_pre, p, idv);
                assert(spec_get(out@, idv) == Some(Value::Dictionary(gd)));
                assert(entry_keys(out@) =~= entry_keys(out_pre).push(idv));
                assert forall|j: int|
                    0 <= j < i + 1 implies lib_entry_emitted(
                    out@,
                    (#[trigger] components@[j]).identifier,
                    components@[j].lib,
                ) by {
                    if j < i {
                        match (components@[j].identifier, components@[j].lib) {
                            (Some(id2), Some(l2)) => {
                                if l2@.len() > 0 {
                                    assert(opt_id_view(components@[j].identifier) != opt_id_view(
                                        components@[i as int].identifier,
                                    ));
                                    lemma_push_entry(out_pre, p, id2@);
                                }
                            },
                            _ => {},
                        }
                    }
                }
                assert forall|k: Seq<char>| !components_have_id(components@, k) implies spec_get(
                    out@,
                    k,
                ) == spec_get(out0, k) by {
                    assert(k != idv);
                    lemma_push_entry(out_pre, p, k);
                }
                assert forall|k: Seq<char>|
                    has_key(out@, k) implies has_key(out0, k) || (exists|j2: int|
                    0 <= j2 < i + 1 && opt_id_view(#[trigger] components@[j2].identifier) == Some(k)
                        && (components@[j2].lib matches Some(l2) && l2@.len() > 0)) by {
                    if k != idv {
                        let w = choose|w: int| 0 <= w < out@.len() && out@[w].0@ == k;
                        assert(out@[w] == out_pre[w]);
                        assert(has_key(out_pre, k));
                    } else {
                        assert(opt_id_view(components@[i as int].identifier) == Some(k));
                    }
                }
            }
        }
        proof {
            lemma_emitted_keys_components_snoc(components@, i as int);
            assert(entry_keys(out@) =~= entry_keys(out0) + emitted_keys_components(
                components@.take(i + 1),
            ));
        }
        i += 1;
    }
    proof {
        assert(components@.take(n as int) =~= components@);
    }
}

} // verus!

verus! {

/// Copies contours' and their points' non-empty libs into an object-libs
/// dictionary, keyed by each object's identifier. The contours are
/// untouched; entries under other keys are unaffected.
fn collect_contour_libs(contours: &Vec<Contour>, out: &mut Plist)
    requires
        contours_ids_distinct(contours@),
        contours_libs_have_ids(contours@),
        forall|ci: int|
            0 <= ci < contours@.len() ==> points_ids_distinct(#[trigger] contours@[ci].points@),
        forall|ci: int|
            0 <= ci < contours@.len() ==> points_libs_have_ids(#[trigger] contours@[ci].points@),
        forall|ci: int, k: Seq<char>|
            0 <= ci < contours@.len() && #[trigger] points_have_id(contours@[ci].points@, k)
                ==> !contours_have_id(contours@, k),
        forall|ci: int, cj: int, k: Seq<char>|
            0 <= ci < cj < contours@.len() && #[trigger] points_have_id(contours@[ci].points@, k)
                ==> !points_have_id(#[trigger] contours@[cj].points@, k),
        keys_unique(old(out)@),
        forall|k: Seq<char>| has_key(old(out)@, k) ==> !outline_part_has_id(contours@, k),
    ensures
        keys_unique(final(out)@),
        forall|ci: int|
            0 <= ci < contours@.len() ==> lib_entry_emitted(
                final(out)@,
                (#[trigger] contours@[ci]).identifier,
                contours@[ci].lib,
            ),
        forall|ci: int, pj: int|
            0 <= ci < contours@.len() && 0 <= pj < contours@[ci].points@.len()
                ==> lib_entry_emitted(
                final(out)@,
                (#[trigger] contours@[ci].points@[pj]).identifier,
                contours@[ci].points@[pj].lib,
            ),
        forall|k: Seq<char>|
            !outline_part_has_id(contours@, k) ==> spec_get(final(out)@, k) == spec_get(
                old(out)@,
                k,
            ),
        forall|k: Seq<char>|
            has_key(final(out)@, k) ==> has_key(old(out)@, k) || outline_part_has_lib_id(
                contours@,
                k,
            ),
        entry_keys(final(out)@) == entry_keys(old(out)@) + emitted_keys_contours(contours@),
{
    let ghost out0 = out@;
    proof {
        assert(contours@.take(0) =~= Seq::<Contour>::empty());
        assert(entry_keys(out0) + emitted_keys_contours(contours@.take(0)) =~= entry_keys(out0));
    }
    let n = contours.len();
    let mut i: usize = 0;
    while i < n
        invariant
            i <= n,
            n == contours@.len(),
            contours_ids_distinct(contours@),
            contours_libs_have_ids(contours@),
            forall|ci: int|
                0 <= ci < contours@.len() ==> points_ids_distinct(
                    #[trigger] contours@[ci].points@,
                ),
            forall|ci: int|
                0 <= ci < contours@.len() ==> points_libs_have_ids(
                    #[trigger] contours@[ci].points@,
                ),
            forall|ci: int, k: Seq<char>|
                0 <= ci < contours@.len() && #[trigger] points_have_id(contours@[ci].points@, k)
                    ==> !contours_have_id(contours@, k),
            forall|ci: int, cj: int, k: Seq<char>|
                0 <= ci < cj < contours@.len() && #[trigger] points_have_id(
                    contours@[ci].points@,
                    k,
                ) ==> !points_have_id(#[trigger] contours@[cj].points@, k),
            forall|k: Seq<char>| has_key(out0, k) ==> !outline_part_has_id(contours@, k),
            keys_unique(out@),
            forall|ci: int|
                0 <= ci < i ==> lib_entry_emitted(
                    out@,
                    (#[trigger] contours@[ci]).identifier,
                    contours@[ci].lib,
                ),
            forall|ci: int, pj: int|
                0 <= ci < i && 0 <= pj < contours@[ci].points@.len() ==> lib_entry_emitted(
                    out@,
                    (#[trigger] contours@[ci].points@[pj]).identifier,
                    contours@[ci].points@[pj].lib,
                ),
            forall|k: Seq<char>|
                !outline_part_has_id(contours@, k) ==> spec_get(out@, k) == spec_get(out0, k),
            forall|k: Seq<char>|
                has_key(out@, k) ==> has_key(out0, k) || (exists|j2: int|
                    0 <= j2 < i && opt_id_view(#[trigger] contours@[j2].identifier) == Some(k) && (
                    contours@[j2].lib matches Some(l) && l@.len() > 0)) || (exists|j2: int|
                    0 <= j2 < i && #[trigger] points_have_lib_id(contours@[j2].points@, k)),
            entry_keys(out@) == entry_keys(out0) + emitted_keys_contours(
                contours@.take(i as int),
            ),
        decreases n - i,
    {
        let emit = match &contours[i].lib {
            Some(l) => l.len() > 0,
            None => false,
        };
        if emit {
            let ghost out_pre = out@;
            let l = contours[i].lib.as_ref().unwrap();
            let key = contours[i].identifier.as_ref().unwrap().as_str().to_owned();
            let ghost idv = contours@[i as int].identifier.unwrap()@;
            proof {
                assert(opt_id_view(contours@[i as int].identifier) == Some(idv));
                assert(contours_have_id(contours@, idv));
                assert(outline_part_has_id(contours@, idv));
                if has_key(out_pre, idv) {
                    if !has_key(out0, idv) {
                        if exists|j2: int|
                            0 <= j2 < i && opt_id_view(#[trigger] contours@[j2].identifier)
                                == Some(idv) && (contours@[j2].lib matches Some(l2) && l2@.len()
                                > 0) {
                            let j2 = choose|j2: int|
                                0 <= j2 < i && opt_id_view(#[trigger] contours@[j2].identifier)
                                    == Some(idv) && (contours@[j2].lib matches Some(l2)
                                    && l2@.len() > 0);
                            assert(opt_id_view(contours@[j2].identifier) != opt_id_view(
                                contours@[i as int].identifier,
                            ));
                        } else {
                            let j2 = choose|j2: int|
                                0 <= j2 < i && #[trigger] points_have_lib_id(
                                    contours@[j2].points@,
                                    idv,
                                );
                            assert(points_have_id(contours@[j2].points@, idv));
                            assert(!contours_have_id(contours@, idv));
                        }
                    }
                    assert(false);
                }
            }
            let d = l.duplicate();
            let ghost gd = d;
            let ghost gkey = key;
            let old_val = out.insert(key, Value::Dictionary(d));
            proof {
                let p = (gkey, Value::Dictionary(gd));
                assert(out@ == out_pre.push(p));
                lemma_push_entry(out_pre, p, idv);
                assert(entry_keys(out@) =~= entry_keys(out_pre).push(idv));
                assert forall|ci: int|
                    0 <= ci < i + 1 implies lib_entry_emitted(
                    out@,
                    (#[trigger] contours@[ci]).identifier,
                    contours@[ci].lib,
                ) by {
                    if ci < i {
                        match (contours@[ci].identifier, contours@[ci].lib) {
                            (Some(id2), Some(l2)) => {
                                if l2@.len() > 0 {
                                    assert(opt_id_view(contours@[ci].identifier) != opt_id_view(
                                        contours@[i as int].identifier,
                                    ));
                                    lemma_push_entry(out_pre, p, id2@);
                                }
                            },
                            _ => {},
                        }
                    }
                }
                assert forall|ci: int, pj: int|
                    0 <= ci < i && 0 <= pj < contours@[ci].points@.len() implies lib_entry_emitted(
                    out@,
                    (#[trigger] contours@[ci].points@[pj]).identifier,
                    contours@[ci].points@[pj].lib,
                ) by {
                    match (contours@[ci].points@[pj].identifier, contours@[ci].points@[pj].lib) {
                        (Some(id2), Some(l2)) => {
                            if l2@.len() > 0 {
                                assert(points_have_id(contours@[ci].points@, id2@));
                                assert(!contours_have_id(contours@, id2@));
                                assert(id2@ != idv);
                                lemma_push_entry(out_pre, p, id2@);
                            }
                        },
                        _ => {},
                    }
                }
                assert forall|k: Seq<char>| !outline_part_has_id(contours@, k) implies spec_get(
                    out@,
                    k,
                ) == spec_get(out0, k) by {
                    assert(k != idv);
                    lemma_push_entry(out_pre, p, k);
                }
                assert forall|k: Seq<char>|
                    has_key(out@, k) implies has_key(out0, k) || (exists|j2: int|
                    0 <= j2 < i + 1 && opt_id_view(#[trigger] contours@[j2].identifier) == Some(k)
                        && (contours@[j2].lib matches Some(l2) && l2@.len() > 0)) || (exists|
                j2: int|
                    0 <= j2 < i && #[trigger] points_have_lib_id(
                        contours@[j2].points@,
                        k,
                    )) by {
                    if k != idv {
                        let w = choose|w: int| 0 <= w < out@.len() && out@[w].0@ == k;
                        assert(out@[w] == out_pre[w]);
                        assert(has_key(out_pre, k));
                    } else {
                        assert(opt_id_view(contours@[i as int].identifier) == Some(k));
                    }
                }
            }
        }
        let ghost out_mid = out@;
        proof {
            assert forall|k: Seq<char>| has_key(out_mid, k) implies !points_have_id(
                contours@[i as int].points@,
                k,
            ) by {
                if points_have_id(contours@[i as int].points@, k) {
                    assert(outline_part_has_id(contours@, k));
                    assert(!contours_have_id(contours@, k));
                    if !has_key(out0, k) {
                        if exists|j2: int|
                            0 <= j2 < i + 1 && opt_id_view(#[trigger] contours@[j2].identifier)
                                == Some(k) && (contours@[j2].lib matches Some(l2) && l2@.len()
                                > 0) {
                            let j2 = choose|j2: int|
                                0 <= j2 < i + 1 && opt_id_view(#[trigger] contours@[j2].identifier)
                                    == Some(k) && (contours@[j2].lib matches Some(l2) && l2@.len()
                                    > 0);
                            assert(contours_have_id(contours@, k));
                        } else {
                            let j2 = choose|j2: int|
                                0 <= j2 < i && #[trigger] points_have_lib_id(
                                    contours@[j2].points@,
                                    k,
                                );
                            assert(points_have_id(contours@[j2].points@, k));
                        }
                    }
                    assert(false);
                }
            }
        }
        collect_point_libs(&contours[i].points, out);
        proof {
            assert forall|ci: int|
                0 <= ci < i + 1 implies lib_entry_emitted(
                out@,
                (#[trigger] contours@[ci]).identifier,
                contours@[ci].lib,
            ) by {
                match (contours@[ci].identifier, contours@[ci].lib) {
                    (Some(id2), Some(l2)) => {
                        if l2@.len() > 0 {
                            assert(contours_have_id(contours@, id2@));
                            if points_have_id(contours@[i as int].points@, id2@) {
                                assert(!contours_have_id(contours@, id2@));
                            }
                            assert(spec_get(out@, id2@) == spec_get(out_mid, id2@));
                        }
                    },
                    _ => {},
                }
            }
            assert forall|ci: int, pj: int|
                0 <= ci < i + 1 && 0 <= pj < contours@[ci].points@.len() implies lib_entry_emitted(
                out@,
                (#[trigger] contours@[ci].points@[pj]).identifier,
                contours@[ci].points@[pj].lib,
            ) by {
                match (contours@[ci].points@[pj].identifier, contours@[ci].points@[pj].lib) {
                    (Some(id2), Some(l2)) => {
                        if l2@.len() > 0 {
                            assert(points_have_id(contours@[ci].points@, id2@));
                            if ci < i {
                                if points_have_id(contours@[i as int].points@, id2@) {
                                    assert(!points_have_id(contours@[ci].points@, id2@));
                                }
                                assert(spec_get(out@, id2@) == spec_get(out_mid, id2@));
                            }
                        }
                    },
                    _ => {},
                }
            }
            assert forall|k: Seq<char>| !outline_part_has_id(contours@, k) implies spec_get(
                out@,
                k,
            ) == spec_get(out0, k) by {
                assert(!points_have_id(contours@[i as int].points@, k));
                assert(spec_get(out@, k) == spec_get(out_mid, k));
            }
            assert forall|k: Seq<char>|
                has_key(out@, k) implies has_key(out0, k) || (exists|j2: int|
                0 <= j2 < i + 1 && opt_id_view(#[trigger] contours@[j2].identifier) == Some(k) && (
                contours@[j2].lib matches Some(l2) && l2@.len() > 0)) || (exists|j2: int|
                0 <= j2 < i + 1 && #[trigger] points_have_lib_id(contours@[j2].points@, k)) by {
                if has_key(out_mid, k) {
                } else {
                    assert(points_have_lib_id(contours@[i as int].points@, k));
                }
            }
            lemma_emitted_keys_contours_snoc(contours@, i as int);
            assert(entry_keys(out@) =~= entry_keys(out0) + emitted_keys_contours(
                contours@.take(i + 1),
            ));
        }
        i += 1;
    }
    proof {
        assert(contours@.take(n as int) =~= contours@);
    }
}

} // verus!

verus! {

/// The entries an object-libs dictionary owes to a glyph's sub-objects:
/// one per identified sub-object with a non-empty lib, holding a
/// structurally equivalent copy of that lib, traversing anchors,
/// guidelines, contours with their points, and components.
pub open spec fn object_libs_complete(r: Seq<(String, Value)>, g: Glyph) -> bool {
    &&& (forall|j: int|
        0 <= j < opt_anchors(g.anchors).len() ==> lib_entry_emitted(
            r,
            (#[trigger] opt_anchors(g.anchors)[j]).identifier,
            opt_anchors(g.anchors)[j].lib,
        ))
    &&& (forall|j: int|
        0 <= j < opt_guidelines(g.guidelines).len() ==> lib_entry_emitted(
            r,
            (#[trigger] opt_guidelines(g.guidelines)[j]).identifier,
            opt_guidelines(g.guidelines)[j].lib,
        ))
    &&& (forall|ci: int|
        0 <= ci < outline_contours(g.outline).len() ==> lib_entry_emitted(
            r,
            (#[trigger] outline_contours(g.outline)[ci]).identifier,
            outline_contours(g.outline)[ci].lib,
        ))
    &&& (forall|ci: int, pj: int|
        0 <= ci < outline_contours(g.outline).len() && 0 <= pj < outline_contours(
            g.outline,
        )[ci].points@.len() ==> lib_entry_emitted(
            r,
            (#[trigger] outline_contours(g.outline)[ci].points@[pj]).identifier,
            outline_contours(g.outline)[ci].points@[pj].lib,
        ))
    &&& (forall|j: int|
        0 <= j < outline_components(g.outline).len() ==> lib_entry_emitted(
            r,
            (#[trigger] outline_components(g.outline)[j]).identifier,
            outline_components(g.outline)[j].lib,
        ))
}

impl Glyph {
    /// Collects every identified sub-object's non-empty lib into a fresh
    /// object-libs dictionary, keyed by the sub-object's identifier, as a
    /// structurally equivalent copy. The glyph itself is untouched.
    /// Sub-objects carrying a lib without an identifier must be given one
    /// first; see [`Glyph::synthesize_missing_identifiers`].
    pub fn libs_to_object_libs(&self) -> (r: Plist)
        requires
            glyph_ids_unique(*self),
            glyph_libs_have_ids(*self),
        ensures
            keys_unique(r@),
            object_libs_complete(r@, *self),
            forall|k: Seq<char>| has_key(r@, k) ==> glyph_has_lib_id(*self, k),
            entry_keys(r@) == expected_object_libs_keys(*self),
    {
        let mut out = Plist::new();
        proof {
            assert(entry_keys(out@) =~= Seq::<Seq<char>>::empty());
        }
        // Anchors.
        match &self.anchors {
            Some(v) => {
                collect_anchor_libs(v, &mut out);
            },
            None => {},
        }
        let ghost out_a = out@;
        proof {
            assert(entry_keys(out_a) =~= emitted_keys_anchors(opt_anchors(self.anchors)));
        }
        // Guidelines.
        match &self.guidelines {
            Some(v) => {
                proof {
                    assert forall|k: Seq<char>| has_key(out_a, k) implies !guidelines_have_id(
                        v@,
                        k,
                    ) by {
                        if guidelines_have_id(v@, k) {
                            assert(anchors_have_lib_id(opt_anchors(self.anchors), k));
                            assert(anchors_have_id(opt_anchors(self.anchors), k));
                        }
                    }
                }
                collect_guideline_libs(v, &mut out);
            },
            None => {},
        }
        let ghost out_g = out@;
        proof {
            assert(entry_keys(out_g) =~= emitted_keys_anchors(opt_anchors(self.anchors))
                + emitted_keys_guidelines(opt_guidelines(self.guidelines)));
            // anchor entries survive the guideline phase
            assert forall|j: int|
                0 <= j < opt_anchors(self.anchors).len() implies lib_entry_emitted(
                out_g,
                (#[trigger] opt_anchors(self.anchors)[j]).identifier,
                opt_anchors(self.anchors)[j].lib,
            ) by {
                match (opt_anchors(self.anchors)[j].identifier, opt_anchors(
                    self.anchors,
                )[j].lib) {
                    (Some(id2), Some(l2)) => {
                        if l2@.len() > 0 {
                            assert(anchors_have_id(opt_anchors(self.anchors), id2@));
                            if guidelines_have_id(opt_guidelines(self.guidelines), id2@) {
                                assert(!anchors_have_id(opt_anchors(self.anchors), id2@));
                            }
                            assert(spec_get(out_g, id2@) == spec_get(out_a, id2@));
                        }
                    },
                    _ => {},
                }
            }
        }
        // The outline: contours with their points, then components.
        match &self.outline {
            Some(o) => {
                proof {
                    assert forall|k: Seq<char>| has_key(out_g, k) implies !outline_part_has_id(
                        o.contours@,
                        k,
                    ) by {
                        if outline_part_has_id(o.contours@, k) {
                            if has_key(out_a, k) {
                                assert(anchors_have_lib_id(opt_anchors(self.anchors), k));
                                assert(anchors_have_id(opt_anchors(self.anchors), k));
                            } else {
                                assert(guidelines_have_lib_id(
                                    opt_guidelines(self.guidelines),
                                    k,
                                ));
                                assert(guidelines_have_id(opt_guidelines(self.guidelines), k));
                            }
                            assert(false);
                        }
                    }
                }
                collect_contour_libs(&o.contours, &mut out);
                let ghost out_c = out@;
                proof {
                    assert forall|k: Seq<char>| has_key(out_c, k) implies !components_have_id(
                        o.components@,
                        k,
                    ) by {
                        if components_have_id(o.components@, k) {
                            if has_key(out_g, k) {
                                if has_key(out_a, k) {
                                    assert(anchors_have_lib_id(opt_anchors(self.anchors), k));
                                } else {
                                    assert(guidelines_have_lib_id(
                                        opt_guidelines(self.guidelines),
                                        k,
                                    ));
                                    assert(guidelines_have_id(
                                        opt_guidelines(self.guidelines),
                                        k,
                                    ));
                                }
                            } else {
                                assert(outline_part_has_lib_id(o.contours@, k));
                                assert(outline_part_has_id(o.contours@, k));
                            }
                            assert(false);
                        }
                    }
                }
                collect_component_libs(&o.components, &mut out);
                proof {
                    assert(entry_keys(out@) =~= emitted_keys_anchors(opt_anchors(self.anchors))
                        + emitted_keys_guidelines(opt_guidelines(self.guidelines))
                        + emitted_keys_contours(outline_contours(self.outline))
                        + emitted_keys_components(outline_components(self.outline)));
                    // earlier entries survive the later phases
                    assert forall|k: Seq<char>|
                        has_key(out_g, k) implies spec_get(out@, k) == spec_get(out_g, k) by {
                        assert(!outline_part_has_id(o.contours@, k));
                        if components_have_id(o.components@, k) {
                            assert(has_key(out_c, k));
                        }
                        assert(spec_get(out_c, k) == spec_get(out_g, k));
                        assert(spec_get(out@, k) == spec_get(out_c, k));
                    }
                    assert forall|k: Seq<char>|
                        has_key(out_c, k) implies spec_get(out@, k) == spec_get(out_c, k) by {
                        if components_have_id(o.components@, k) {
                            assert(has_key(out_c, k) ==> has_key(out_g, k)
                                || outline_part_has_lib_id(o.contours@, k));
                            if has_key(out_g, k) {
                                if has_key(out_a, k) {
                                    assert(anchors_have_lib_id(opt_anchors(self.anchors), k));
                                } else {
                                    assert(guidelines_have_lib_id(
                                        opt_guidelines(self.guidelines),
                                        k,
                                    ));
                                    assert(guidelines_have_id(
                                        opt_guidelines(self.guidelines),
                                        k,
                                    ));
                                }
                            } else {
                                assert(outline_part_has_lib_id(o.contours@, k));
                                assert(outline_part_has_id(o.contours@, k));
                            }
                            assert(false);
                        }
                    }
                }
            },
            None => {
                proof {
                    assert(entry_keys(out@) =~= expected_object_libs_keys(*self));
                }
            },
        }
        proof {
            assert(entry_keys(out@) =~= expected_object_libs_keys(*self));
        }
        out
    }
}

} // verus!

verus! {

/// An error when attempting to write a glyph. The writer's input checks
/// live here; failures of the encoder or the file system stay with the
/// caller that runs them.
#[derive(Debug, Clone, Copy, PartialEq, Eq, Structural)]
pub enum GlifWriteError {
    /// Downgrading below glyph format version two is unsupported.
    Downgrade,
    /// The `public.objectLibs` lib key is managed by the library and must
    /// not be set manually.
    PreexistingPublicObjectLibsKey,
}

impl Glyph {
    /// Checks what writing a glyph requires of it: only format version two
    /// is written, and the glyph lib must not already hold the reserved
    /// object-libs key, which the writer builds itself.
    pub fn check_writable(&self) -> (r: Result<(), GlifWriteError>)
        ensures
            match r {
                Ok(()) => self.format == GlifVersion::V2 && match self.lib {
                    Some(l) => !has_key(l@, PUBLIC_OBJECT_LIBS_KEY@),
                    None => true,
                },
                Err(e) => match e {
                    GlifWriteError::Downgrade => self.format != GlifVersion::V2,
                    GlifWriteError::PreexistingPublicObjectLibsKey => self.format
                        == GlifVersion::V2 && match self.lib {
                        Some(l) => has_key(l@, PUBLIC_OBJECT_LIBS_KEY@),
                        None => false,
                    },
                },
            },
    {
        match self.format {
            GlifVersion::V2 => {},
            _ => {
                return Err(GlifWriteError::Downgrade);
            },
        }
        match &self.lib {
            Some(l) => {
                if l.contains_key(PUBLIC_OBJECT_LIBS_KEY) {
                    return Err(GlifWriteError::PreexistingPublicObjectLibsKey);
                }
            },
            None => {},
        }
        Ok(())
    }
}

} // verus!

verus! {

/// How one anchor relates to its original after the round trip through an
/// object-libs dictionary: every field survives, and a non-empty lib comes
/// back as a structurally equivalent copy.
pub open spec fn anchor_round_ok(b: Anchor, a: Anchor) -> bool {
    &&& b == (Anchor { lib: b.lib, ..a })
    &&& match (a.lib, b.lib) {
        (Some(l0), Some(l1)) => if l0@.len() > 0 {
            plist_like(l0, l1)
        } else {
            l1 == l0
        },
        (None, None) => true,
        _ => false,
    }
}

/// Filling anchors back in from the dictionary their libs were collected
/// into restores them up to structural equivalence of the copied libs: on
/// anchors with pairwise distinct identifiers whose non-empty-lib members
/// are identified, nothing else changes.
pub proof fn lemma_anchor_libs_round_trip(
    a0: Seq<Anchor>,
    ol: Seq<(String, Value)>,
    refilled: Seq<Anchor>,
)
    requires
        anchors_ids_distinct(a0),
        anchors_libs_have_ids(a0),
        forall|j: int|
            0 <= j < a0.len() ==> lib_entry_emitted(ol, (#[trigger] a0[j]).identifier, a0[j].lib),
        forall|k: Seq<char>| has_key(ol, k) ==> anchors_have_lib_id(a0, k),
        refilled.len() == a0.len(),
        forall|j: int| 0 <= j < a0.len() ==> refilled[j] == anchor_filled(#[trigger] a0[j], ol),
    ensures
        forall|j: int| 0 <= j < a0.len() ==> anchor_round_ok(#[trigger] refilled[j], a0[j]),
{
    assert forall|j: int| 0 <= j < a0.len() implies anchor_round_ok(
        #[trigger] refilled[j],
        a0[j],
    ) by {
        let a = a0[j];
        match a.identifier {
            Some(id) => {
                let emits = a.lib matches Some(l) && l@.len() > 0;
                if emits {
                    assert(match spec_get(ol, id@) {
                        Some(Value::Dictionary(d)) => plist_like(a.lib.unwrap(), d),
                        _ => false,
                    });
                    assert(anchor_round_ok(refilled[j], a));
                } else {
                    if has_key(ol, id@) {
                        assert(anchors_have_lib_id(a0, id@));
                        let j2 = choose|j2: int|
                            0 <= j2 < a0.len() && opt_id_view(a0[j2].identifier) == Some(id@) && (
                            a0[j2].lib matches Some(l) && l@.len() > 0);
                        assert(j2 != j);
                        if j < j2 {
                            assert(opt_id_view(a0[j].identifier) != opt_id_view(
                                a0[j2].identifier,
                            ));
                        } else {
                            assert(opt_id_view(a0[j2].identifier) != opt_id_view(
                                a0[j].identifier,
                            ));
                        }
                        assert(false);
                    }
                    assert(spec_get(ol, id@) is None);
                    assert(refilled[j] =~= a);
                    assert(anchor_round_ok(refilled[j], a));
                }
            },
            None => {
                assert(refilled[j] =~= a);
                assert(anchor_round_ok(refilled[j], a));
            },
        }
    }
}

} // verus!

verus! {

/// The view of every entry key, in order.
pub open spec fn entry_keys(s: Seq<(String, Value)>) -> Seq<Seq<char>> {
    s.map_values(|e: (String, Value)| e.0@)
}

/// The key one sub-object contributes to an object-libs dictionary:
/// its identifier where it has one and a non-empty lib, nothing otherwise.
pub open spec fn emitted_key(id: Option<Identifier>, lib: Option<Plist>) -> Seq<Seq<char>> {
    match (id, lib) {
        (Some(i), Some(l)) => if l@.len() > 0 {
            seq![i@]
        } else {
            Seq::empty()
        },
        _ => Seq::empty(),
    }
}

/// The keys a run of anchors contributes, in order.
pub open spec fn emitted_keys_anchors(s: Seq<Anchor>) -> Seq<Seq<char>>
    decreases s.len(),
{
    if s.len() == 0 {
        Seq::empty()
    } else {
        emitted_key(s[0].identifier, s[0].lib) + emitted_keys_anchors(s.subrange(1, s.len() as int))
    }
}

/// The keys a run of guidelines contributes, in order.
pub open spec fn emitted_keys_guidelines(s: Seq<Guideline>) -> Seq<Seq<char>>
    decreases s.len(),
{
    if s.len() == 0 {
        Seq::empty()
    } else {
        emitted_key(s[0].identifier, s[0].lib) + emitted_keys_guidelines(
            s.subrange(1, s.len() as int),
        )
    }
}

/// The keys a run of points contributes, in order.
pub open spec fn emitted_keys_points(s: Seq<ContourPoint>) -> Seq<Seq<char>>
    decreases s.len(),
{
    if s.len() == 0 {
        Seq::empty()
    } else {
        emitted_key(s[0].identifier, s[0].lib) + emitted_keys_points(s.subrange(1, s.len() as int))
    }
}

/// The keys a run of components contributes, in order.
pub open spec fn emitted_keys_components(s: Seq<Component>) -> Seq<Seq<char>>
    decreases s.len(),
{
    if s.len() == 0 {
        Seq::empty()
    } else {
        emitted_key(s[0].identifier, s[0].lib) + emitted_keys_components(
            s.subrange(1, s.len() as int),
        )
    }
}

/// The keys a run of contours contributes: each contour's own key, then its
/// points' keys.
pub open spec fn emitted_keys_contours(s: Seq<Contour>) -> Seq<Seq<char>>
    decreases s.len(),
{
    if s.len() == 0 {
        Seq::empty()
    } else {
        emitted_key(s[0].identifier, s[0].lib) + emitted_keys_points(s[0].points@)
            + emitted_keys_contours(s.subrange(1, s.len() as int))
    }
}

/// The keys a whole glyph's object-libs dictionary holds, in traversal
/// order: anchors, guidelines, contours with their points, components.
pub open spec fn expected_object_libs_keys(g: Glyph) -> Seq<Seq<char>> {
    emitted_keys_anchors(opt_anchors(g.anchors)) + emitted_keys_guidelines(
        opt_guidelines(g.guidelines),
    ) + emitted_keys_contours(outline_contours(g.outline)) + emitted_keys_components(
        outline_components(g.outline),
    )
}

/// One more anchor contributes its key at the end.
proof fn lemma_emitted_keys_anchors_snoc(s: Seq<Anchor>, i: int)
    requires
        0 <= i < s.len(),
    ensures
        emitted_keys_anchors(s.take(i + 1)) == emitted_keys_anchors(s.take(i)) + emitted_key(
            s[i].identifier,
            s[i].lib,
        ),
    decreases i,
{
    reveal_with_fuel(emitted_keys_anchors, 3);
    let a = s.take(i + 1);
    let b = s.take(i);
    assert(a[0] == s[0]);
    if i == 0 {
        assert(a.len() == 1);
        assert(a.subrange(1, a.len() as int) =~= Seq::empty());
        assert(emitted_keys_anchors(a) =~= emitted_key(s[0].identifier, s[0].lib));
        assert(emitted_keys_anchors(b) + emitted_key(s[0].identifier, s[0].lib) =~= emitted_key(
            s[0].identifier,
            s[0].lib,
        ));
    } else {
        let t = s.subrange(1, s.len() as int);
        assert(a.subrange(1, a.len() as int) =~= t.take(i));
        assert(b.subrange(1, b.len() as int) =~= t.take(i - 1));
        lemma_emitted_keys_anchors_snoc(t, i - 1);
        assert(a[0] == s[0]);
        assert(b[0] == s[0]);
        assert(t[i - 1] == s[i]);
        assert(emitted_keys_anchors(a) =~= emitted_keys_anchors(b) + emitted_key(
            s[i].identifier,
            s[i].lib,
        ));
    }
}

/// One more guideline contributes its key at the end.
proof fn lemma_emitted_keys_guidelines_snoc(s: Seq<Guideline>, i: int)
    requires
        0 <= i < s.len(),
    ensures
        emitted_keys_guidelines(s.take(i + 1)) == emitted_keys_guidelines(s.take(i))
            + emitted_key(s[i].identifier, s[i].lib),
    decreases i,
{
    reveal_with_fuel(emitted_keys_guidelines, 3);
    let a = s.take(i + 1);
    let b = s.take(i);
    assert(a[0] == s[0]);
    if i == 0 {
        assert(a.len() == 1);
        assert(a.subrange(1, a.len() as int) =~= Seq::empty());
        assert(emitted_keys_guidelines(a) =~= emitted_key(s[0].identifier, s[0].lib));
        assert(emitted_keys_guidelines(b) + emitted_key(s[0].identifier, s[0].lib) =~= emitted_key(
            s[0].identifier,
            s[0].lib,
        ));
    } else {
        let t = s.subrange(1, s.len() as int);
        assert(a.subrange(1, a.len() as int) =~= t.take(i));
        assert(b.subrange(1, b.len() as int) =~= t.take(i - 1));
        lemma_emitted_keys_guidelines_snoc(t, i - 1);
        assert(t[i - 1] == s[i]);
        assert(emitted_keys_guidelines(a) =~= emitted_keys_guidelines(b) + emitted_key(
            s[i].identifier,
            s[i].lib,
        ));
    }
}

/// One more point contributes its key at the end.
proof fn lemma_emitted_keys_points_snoc(s: Seq<ContourPoint>, i: int)
    requires
        0 <= i < s.len(),
    ensures
        emitted_keys_points(s.take(i + 1)) == emitted_keys_points(s.take(i)) + emitted_key(
            s[i].identifier,
            s[i].lib,
        ),
    decreases i,
{
    reveal_with_fuel(emitted_keys_points, 3);
    let a = s.take(i + 1);
    let b = s.take(i);
    assert(a[0] == s[0]);
    if i == 0 {
        assert(a.len() == 1);
        assert(a.subrange(1, a.len() as int) =~= Seq::empty());
        assert(emitted_keys_points(a) =~= emitted_key(s[0].identifier, s[0].lib));
        assert(emitted_keys_points(b) + emitted_key(s[0].identifier, s[0].lib) =~= emitted_key(
            s[0].identifier,
            s[0].lib,
        ));
    } else {
        let t = s.subrange(1, s.len() as int);
        assert(a.subrange(1, a.len() as int) =~= t.take(i));
        assert(b.subrange(1, b.len() as int) =~= t.take(i - 1));
        lemma_emitted_keys_points_snoc(t, i - 1);
        assert(t[i - 1] == s[i]);
        assert(emitted_keys_points(a) =~= emitted_keys_points(b) + emitted_key(
            s[i].identifier,
            s[i].lib,
        ));
    }
}

/// One more component contributes its key at the end.
proof fn lemma_emitted_keys_components_snoc(s: Seq<Component>, i: int)
    requires
        0 <= i < s.len(),
    ensures
        emitted_keys_components(s.take(i + 1)) == emitted_keys_components(s.take(i))
            + emitted_key(s[i].identifier, s[i].lib),
    decreases i,
{
    reveal_with_fuel(emitted_keys_components, 3);
    let a = s.take(i + 1);
    let b = s.take(i);
    assert(a[0] == s[0]);
    if i == 0 {
        assert(a.len() == 1);
        assert(a.subrange(1, a.len() as int) =~= Seq::empty());
        assert(emitted_keys_components(a) =~= emitted_key(s[0].identifier, s[0].lib));
        assert(emitted_keys_components(b) + emitted_key(s[0].identifier, s[0].lib) =~= emitted_key(
            s[0].identifier,
            s[0].lib,
        ));
    } else {
        let t = s.subrange(1, s.len() as int);
        assert(a.subrange(1, a.len() as int) =~= t.take(i));
        assert(b.subrange(1, b.len() as int) =~= t.take(i - 1));
        lemma_emitted_keys_components_snoc(t, i - 1);
        assert(t[i - 1] == s[i]);
        assert(emitted_keys_components(a) =~= emitted_keys_components(b) + emitted_key(
            s[i].identifier,
            s[i].lib,
        ));
    }
}

/// One more contour contributes its own key and its points' keys at the end.
proof fn lemma_emitted_keys_contours_snoc(s: Seq<Contour>, i: int)
    requires
        0 <= i < s.len(),
    ensures
        emitted_keys_contours(s.take(i + 1)) == emitted_keys_contours(s.take(i)) + emitted_key(
            s[i].identifier,
            s[i].lib,
        ) + emitted_keys_points(s[i].points@),
    decreases i,
{
    reveal_with_fuel(emitted_keys_contours, 3);
    let a = s.take(i + 1);
    let b = s.take(i);
    assert(a[0] == s[0]);
    if i == 0 {
        assert(a.len() == 1);
        assert(a.subrange(1, a.len() as int) =~= Seq::empty());
        assert(emitted_keys_contours(a) =~= emitted_key(s[0].identifier, s[0].lib)
            + emitted_keys_points(s[0].points@));
        assert(emitted_keys_contours(b) + emitted_key(s[0].identifier, s[0].lib)
            + emitted_keys_points(s[0].points@) =~= emitted_key(s[0].identifier, s[0].lib)
            + emitted_keys_points(s[0].points@));
    } else {
        let t = s.subrange(1, s.len() as int);
        assert(a.subrange(1, a.len() as int) =~= t.take(i));
        assert(b.subrange(1, b.len() as int) =~= t.take(i - 1));
        lemma_emitted_keys_contours_snoc(t, i - 1);
        assert(t[i - 1] == s[i]);
        assert(emitted_keys_contours(a) =~= emitted_keys_contours(b) + emitted_key(
            s[i].identifier,
            s[i].lib,
        ) + emitted_keys_points(s[i].points@));
    }
}

} // verus!

verus! {

/// The view of an optional string.
pub open spec fn opt_str_view(s: Option<String>) -> Option<Seq<char>> {
    match s {
        Some(x) => Some(x@),
        None => None,
    }
}

/// The anchors' identifier texts, in order.
fn anchor_id_list(v: &Vec<Anchor>) -> (r: Vec<Option<String>>)
    ensures
        r@.len() == v@.len(),
        forall|j: int|
            0 <= j < v@.len() ==> opt_str_view(#[trigger] r@[j]) == opt_id_view(v@[j].identifier),
{
    let n = v.len();
    let mut out: Vec<Option<String>> = Vec::new();
    let mut i: usize = 0;
    while i < n
        invariant
            i <= n,
            n == v@.len(),
            out@.len() == i,
            forall|j: int|
                0 <= j < i ==> opt_str_view(#[trigger] out@[j]) == opt_id_view(v@[j].identifier),
        decreases n - i,
    {
        match &v[i].identifier {
            Some(id) => {
                out.push(Some(id.as_str().to_owned()));
            },
            None => {
                out.push(None);
            },
        }
        i += 1;
    }
    out
}

/// The guidelines' identifier texts, in order.
fn guideline_id_list(v: &Vec<Guideline>) -> (r: Vec<Option<String>>)
    ensures
        r@.len() == v@.len(),
        forall|j: int|
            0 <= j < v@.len() ==> opt_str_view(#[trigger] r@[j]) == opt_id_view(v@[j].identifier),
{
    let n = v.len();
    let mut out: Vec<Option<String>> = Vec::new();
    let mut i: usize = 0;
    while i < n
        invariant
            i <= n,
            n == v@.len(),
            out@.len() == i,
            forall|j: int|
                0 <= j < i ==> opt_str_view(#[trigger] out@[j]) == opt_id_view(v@[j].identifier),
        decreases n - i,
    {
        match &v[i].identifier {
            Some(id) => {
                out.push(Some(id.as_str().to_owned()));
            },
            None => {
                out.push(None);
            },
        }
        i += 1;
    }
    out
}

/// The contours' own identifier texts, in order.
fn contour_id_list(v: &Vec<Contour>) -> (r: Vec<Option<String>>)
    ensures
        r@.len() == v@.len(),
        forall|j: int|
            0 <= j < v@.len() ==> opt_str_view(#[trigger] r@[j]) == opt_id_view(v@[j].identifier),
{
    let n = v.len();
    let mut out: Vec<Option<String>> = Vec::new();
    let mut i: usize = 0;
    while i < n
        invariant
            i <= n,
            n == v@.len(),
            out@.len() == i,
            forall|j: int|
                0 <= j < i ==> opt_str_view(#[trigger] out@[j]) == opt_id_view(v@[j].identifier),
        decreases n - i,
    {
        match &v[i].identifier {
            Some(id) => {
                out.push(Some(id.as_str().to_owned()));
            },
            None => {
                out.push(None);
            },
        }
        i += 1;
    }
    out
}

/// The points' identifier texts, in order.
fn point_id_list(v: &Vec<ContourPoint>) -> (r: Vec<Option<String>>)
    ensures
        r@.len() == v@.len(),
        forall|j: int|
            0 <= j < v@.len() ==> opt_str_view(#[trigger] r@[j]) == opt_id_view(v@[j].identifier),
{
    let n = v.len();
    let mut out: Vec<Option<String>> = Vec::new();
    let mut i: usize = 0;
    while i < n
        invariant
            i <= n,
            n == v@.len(),
            out@.len() == i,
            forall|j: int|
                0 <= j < i ==> opt_str_view(#[trigger] out@[j]) == opt_id_view(v@[j].identifier),
        decreases n - i,
    {
        match &v[i].identifier {
            Some(id) => {
                out.push(Some(id.as_str().to_owned()));
            },
            None => {
                out.push(None);
            },
        }
        i += 1;
    }
    out
}

/// The components' identifier texts, in order.
fn component_id_list(v: &Vec<Component>) -> (r: Vec<Option<String>>)
    ensures
        r@.len() == v@.len(),
        forall|j: int|
            0 <= j < v@.len() ==> opt_str_view(#[trigger] r@[j]) == opt_id_view(v@[j].identifier),
{
    let n = v.len();
    let mut out: Vec<Option<String>> = Vec::new();
    let mut i: usize = 0;
    while i < n
        invariant
            i <= n,
            n == v@.len(),
            out@.len() == i,
            forall|j: int|
                0 <= j < i ==> opt_str_view(#[trigger] out@[j]) == opt_id_view(v@[j].identifier),
        decreases n - i,
    {
        match &v[i].identifier {
            Some(id) => {
                out.push(Some(id.as_str().to_owned()));
            },
            None => {
                out.push(None);
            },
        }
        i += 1;
    }
    out
}

/// Whether the identifier texts that are present are pairwise distinct.
#[verifier::loop_isolation(false)]
fn ids_pairwise_distinct(v: &Vec<Option<String>>) -> (r: bool)
    ensures
        r == forall|i: int, j: int|
            0 <= i < j < v@.len() ==> opt_str_view(#[trigger] v@[i]) is Some ==> opt_str_view(
                v@[i],
            ) != opt_str_view(#[trigger] v@[j]),
{
    let n = v.len();
    let mut i: usize = 0;
    while i < n
        invariant
            i <= n,
            forall|a: int, b: int|
                0 <= a < b < n && a < i ==> opt_str_view(#[trigger] v@[a]) is Some ==> opt_str_view(
                    v@[a],
                ) != opt_str_view(#[trigger] v@[b]),
        decreases n - i,
    {
        match &v[i] {
            Some(s) => {
                let mut j: usize = i + 1;
                while j < n
                    invariant
                        i < j <= n,
                        i < n,
                        opt_str_view(v@[i as int]) == Some(s@),
                        forall|b: int|
                            i < b < j ==> opt_str_view(v@[i as int]) != opt_str_view(
                                #[trigger] v@[b],
                            ),
                    decreases n - j,
                {
                    match &v[j] {
                        Some(t) => {
                            if crate::util::str_eq(s.as_str(), t.as_str()) {
                                return false;
                            }
                        },
                        None => {},
                    }
                    j += 1;
                }
            },
            None => {},
        }
        i += 1;
    }
    true
}

/// Whether no identifier text present in one list also appears in the other.
#[verifier::loop_isolation(false)]
fn ids_disjoint(a: &Vec<Option<String>>, b: &Vec<Option<String>>) -> (r: bool)
    ensures
        r == forall|i: int, j: int|
            0 <= i < a@.len() && 0 <= j < b@.len() ==> opt_str_view(#[trigger] a@[i]) is Some
                ==> opt_str_view(a@[i]) != opt_str_view(#[trigger] b@[j]),
{
    let n = a.len();
    let m = b.len();
    let mut i: usize = 0;
    while i < n
        invariant
            i <= n,
            forall|x: int, y: int|
                0 <= x < i && 0 <= y < m ==> opt_str_view(#[trigger] a@[x]) is Some ==> opt_str_view(
                    a@[x],
                ) != opt_str_view(#[trigger] b@[y]),
        decreases n - i,
    {
        match &a[i] {
            Some(s) => {
                let mut j: usize = 0;
                while j < m
                    invariant
                        j <= m,
                        i < n,
                        opt_str_view(a@[i as int]) == Some(s@),
                        forall|y: int|
                            0 <= y < j ==> opt_str_view(a@[i as int]) != opt_str_view(
                                #[trigger] b@[y],
                            ),
                    decreases m - j,
                {
                    match &b[j] {
                        Some(t) => {
                            if crate::util::str_eq(s.as_str(), t.as_str()) {
                                return false;
                            }
                        },
                        None => {},
                    }
                    j += 1;
                }
            },
            None => {},
        }
        i += 1;
    }
    true
}

} // verus!

verus! {

/// The point-level half of identifier uniqueness: each contour's points
/// are pairwise distinct, disjoint from the flat collections and the
/// contours' own identifiers, and disjoint between contours.
pub open spec fn points_ids_consistent(
    cs: Seq<Contour>,
    ga: Seq<Anchor>,
    gg: Seq<Guideline>,
    cm: Seq<Component>,
) -> bool {
    &&& (forall|x: int| 0 <= x < cs.len() ==> points_ids_distinct((#[trigger] cs[x]).points@))
    &&& (forall|x: int, k: Seq<char>|
        0 <= x < cs.len() && #[trigger] points_have_id(cs[x].points@, k) ==> !anchors_have_id(
            ga,
            k,
        ) && !guidelines_have_id(gg, k) && !contours_have_id(cs, k) && !components_have_id(cm, k))
    &&& (forall|x: int, y: int, k: Seq<char>|
        0 <= x < y < cs.len() && #[trigger] points_have_id(cs[x].points@, k) ==> !points_have_id(
            #[trigger] cs[y].points@,
            k,
        ))
}

/// Decides `points_ids_consistent` from the extracted identifier lists.
#[verifier::loop_isolation(false)]
#[verifier::rlimit(100)]
#[verifier::spinoff_prover]
fn check_point_ids(
    point_lists: &Vec<Vec<Option<String>>>,
    a_ids: &Vec<Option<String>>,
    g_ids: &Vec<Option<String>>,
    c_ids: &Vec<Option<String>>,
    m_ids: &Vec<Option<String>>,
    Ghost(ga): Ghost<Seq<Anchor>>,
    Ghost(gg): Ghost<Seq<Guideline>>,
    Ghost(cs): Ghost<Seq<Contour>>,
    Ghost(cm): Ghost<Seq<Component>>,
) -> (r: bool)
    requires
        point_lists@.len() == cs.len(),
        forall|x: int|
            0 <= x < cs.len() ==> (#[trigger] point_lists@[x])@.len() == cs[x].points@.len() && (
            forall|y: int|
                0 <= y < cs[x].points@.len() ==> opt_str_view(#[trigger] point_lists@[x]@[y])
                    == opt_id_view(cs[x].points@[y].identifier)),
        a_ids@.len() == ga.len(),
        forall|j: int|
            0 <= j < ga.len() ==> opt_str_view(#[trigger] a_ids@[j]) == opt_id_view(
                ga[j].identifier,
            ),
        g_ids@.len() == gg.len(),
        forall|j: int|
            0 <= j < gg.len() ==> opt_str_view(#[trigger] g_ids@[j]) == opt_id_view(
                gg[j].identifier,
            ),
        c_ids@.len() == cs.len(),
        forall|j: int|
            0 <= j < cs.len() ==> opt_str_view(#[trigger] c_ids@[j]) == opt_id_view(
                cs[j].identifier,
            ),
        m_ids@.len() == cm.len(),
        forall|j: int|
            0 <= j < cm.len() ==> opt_str_view(#[trigger] m_ids@[j]) == opt_id_view(
                cm[j].identifier,
            ),
    ensures
        r == points_ids_consistent(cs, ga, gg, cm),
{
        let n = point_lists.len();
        let mut ci: usize = 0;
        while ci < n
            invariant
                ci <= n,
                n == cs.len(),
                forall|x: int| 0 <= x < ci ==> points_ids_distinct((#[trigger] cs[x]).points@),
                forall|x: int, k: Seq<char>|
                    0 <= x < ci && #[trigger] points_have_id(cs[x].points@, k)
                        ==> !anchors_have_id(ga, k) && !guidelines_have_id(gg, k)
                        && !contours_have_id(cs, k) && !components_have_id(cm, k),
                forall|x: int, y: int, k: Seq<char>|
                    0 <= x < ci && x < y < n && #[trigger] points_have_id(cs[x].points@, k)
                        ==> !points_have_id(#[trigger] cs[y].points@, k),
            decreases n - ci,
        {
            let pl = &point_lists[ci];
            if !ids_pairwise_distinct(pl) {
                proof {
                    let (i, j) = choose|i: int, j: int|
                        0 <= i < pl@.len() && i < j < pl@.len() && opt_str_view(
                            #[trigger] pl@[i],
                        ) is Some && opt_str_view(pl@[i]) == opt_str_view(#[trigger] pl@[j]);
                    assert(opt_id_view(cs[ci as int].points@[i].identifier) == opt_id_view(
                        cs[ci as int].points@[j].identifier,
                    ));
                    assert(!points_ids_distinct(cs[ci as int].points@));
                }
                return false;
            }
            proof {
                assert forall|i: int, j: int|
                    0 <= i < j < cs[ci as int].points@.len() implies opt_id_view(
                    (#[trigger] cs[ci as int].points@[i]).identifier,
                ) is Some ==> opt_id_view(cs[ci as int].points@[i].identifier) != opt_id_view(
                    (#[trigger] cs[ci as int].points@[j]).identifier,
                ) by {
                    assert(opt_str_view(point_lists@[ci as int]@[i]) == opt_id_view(
                        cs[ci as int].points@[i].identifier,
                    ));
                    assert(opt_str_view(point_lists@[ci as int]@[j]) == opt_id_view(
                        cs[ci as int].points@[j].identifier,
                    ));
                }
                assert(points_ids_distinct(cs[ci as int].points@));
            }
            if !ids_disjoint(pl, &a_ids) {
                proof {
                    let (i, j) = choose|i: int, j: int|
                        0 <= i < pl@.len() && 0 <= j < a_ids@.len() && opt_str_view(
                            #[trigger] pl@[i],
                        ) is Some && opt_str_view(pl@[i]) == opt_str_view(#[trigger] a_ids@[j]);
                    let k = opt_id_view(cs[ci as int].points@[i].identifier).unwrap();
                    assert(points_have_id(cs[ci as int].points@, k));
                    assert(anchors_have_id(ga, k));
                    assert(outline_part_has_id(cs, k));
                }
                return false;
            }
            if !ids_disjoint(pl, &g_ids) {
                proof {
                    let (i, j) = choose|i: int, j: int|
                        0 <= i < pl@.len() && 0 <= j < g_ids@.len() && opt_str_view(
                            #[trigger] pl@[i],
                        ) is Some && opt_str_view(pl@[i]) == opt_str_view(#[trigger] g_ids@[j]);
                    let k = opt_id_view(cs[ci as int].points@[i].identifier).unwrap();
                    assert(points_have_id(cs[ci as int].points@, k));
                    assert(guidelines_have_id(gg, k));
                    assert(outline_part_has_id(cs, k));
                }
                return false;
            }
            if !ids_disjoint(pl, &c_ids) {
                proof {
                    let (i, j) = choose|i: int, j: int|
                        0 <= i < pl@.len() && 0 <= j < c_ids@.len() && opt_str_view(
                            #[trigger] pl@[i],
                        ) is Some && opt_str_view(pl@[i]) == opt_str_view(#[trigger] c_ids@[j]);
                    let k = opt_id_view(cs[ci as int].points@[i].identifier).unwrap();
                    assert(points_have_id(cs[ci as int].points@, k));
                    assert(contours_have_id(cs, k));
                }
                return false;
            }
            if !ids_disjoint(pl, &m_ids) {
                proof {
                    let (i, j) = choose|i: int, j: int|
                        0 <= i < pl@.len() && 0 <= j < m_ids@.len() && opt_str_view(
                            #[trigger] pl@[i],
                        ) is Some && opt_str_view(pl@[i]) == opt_str_view(#[trigger] m_ids@[j]);
                    let k = opt_id_view(cs[ci as int].points@[i].identifier).unwrap();
                    assert(points_have_id(cs[ci as int].points@, k));
                    assert(components_have_id(cm, k));
                    assert(outline_part_has_id(cs, k));
                }
                return false;
            }
            let mut cj: usize = ci + 1;
            while cj < n
                invariant
                    ci < cj <= n,
                    ci < n,
                    n == cs.len(),
                    forall|y: int, k: Seq<char>|
                        ci < y < cj && #[trigger] points_have_id(cs[ci as int].points@, k)
                            ==> !points_have_id(#[trigger] cs[y].points@, k),
                decreases n - cj,
            {
                if !ids_disjoint(pl, &point_lists[cj]) {
                    proof {
                        let ql = point_lists@[cj as int];
                        let (i, j) = choose|i: int, j: int|
                            0 <= i < pl@.len() && 0 <= j < ql@.len() && opt_str_view(
                                #[trigger] pl@[i],
                            ) is Some && opt_str_view(pl@[i]) == opt_str_view(#[trigger] ql@[j]);
                        let k = opt_id_view(cs[ci as int].points@[i].identifier).unwrap();
                        assert(points_have_id(cs[ci as int].points@, k));
                        assert(points_have_id(cs[cj as int].points@, k));
                    }
                    return false;
                }
                proof {
                    let ql = point_lists@[cj as int];
                    assert forall|k: Seq<char>|
                        #[trigger] points_have_id(cs[ci as int].points@, k) implies
                        !points_have_id(cs[cj as int].points@, k) by {
                        if points_have_id(cs[cj as int].points@, k) {
                            let i = choose|i: int|
                                0 <= i < cs[ci as int].points@.len() && opt_id_view(
                                    (#[trigger] cs[ci as int].points@[i]).identifier,
                                ) == Some(k);
                            assert(opt_str_view(pl@[i]) == Some(k));
                            let j = choose|j: int|
                                0 <= j < cs[cj as int].points@.len() && opt_id_view(
                                    (#[trigger] cs[cj as int].points@[j]).identifier,
                                ) == Some(k);
                            assert(opt_str_view(ql@[j]) == Some(k));
                            assert(false);
                        }
                    }
                }
                cj += 1;
            }
            proof {
                assert forall|k: Seq<char>|
                    #[trigger] points_have_id(cs[ci as int].points@, k) implies !anchors_have_id(
                    ga,
                    k,
                ) && !guidelines_have_id(gg, k) && !contours_have_id(cs, k) && !components_have_id(
                    cm,
                    k,
                ) by {
                    let i = choose|i: int|
                        0 <= i < cs[ci as int].points@.len() && opt_id_view(
                            cs[ci as int].points@[i].identifier,
                        ) == Some(k);
                    assert(opt_str_view(point_lists@[ci as int]@[i]) == Some(k));
                    if anchors_have_id(ga, k) {
                        let j = choose|j: int|
                            0 <= j < ga.len() && opt_id_view(ga[j].identifier) == Some(k);
                        assert(opt_str_view(a_ids@[j]) == Some(k));
                        assert(false);
                    }
                    if guidelines_have_id(gg, k) {
                        let j = choose|j: int|
                            0 <= j < gg.len() && opt_id_view(gg[j].identifier) == Some(k);
                        assert(opt_str_view(g_ids@[j]) == Some(k));
                        assert(false);
                    }
                    if contours_have_id(cs, k) {
                        let j = choose|j: int|
                            0 <= j < cs.len() && opt_id_view(cs[j].identifier) == Some(k);
                        assert(opt_str_view(c_ids@[j]) == Some(k));
                        assert(false);
                    }
                    if components_have_id(cm, k) {
                        let j = choose|j: int|
                            0 <= j < cm.len() && opt_id_view(cm[j].identifier) == Some(k);
                        assert(opt_str_view(m_ids@[j]) == Some(k));
                        assert(false);
                    }
                }
                assert forall|y: int, k: Seq<char>|
                    ci < y < n && #[trigger] points_have_id(cs[ci as int].points@, k) implies
                    !points_have_id(#[trigger] cs[y].points@, k) by {}
            }
            ci += 1;
        }
        true
    }

impl Glyph {
    /// Checks that identifiers are unique within the glyph, across anchors,
    /// guidelines, contours, contour points and components — the per-glyph
    /// rule of the format. A repeated identifier is a
    /// [`ErrorKind::DuplicateIdentifier`]. Passing this check establishes
    /// what the redistribution and collection functions require.
    #[verifier::loop_isolation(false)]
    #[verifier::rlimit(100)]
    #[verifier::spinoff_prover]
    pub fn validate_identifiers(&self) -> (r: Result<(), ErrorKind>)
        ensures
            r is Ok <==> glyph_ids_unique(*self),
            r is Err ==> r == Err::<(), ErrorKind>(ErrorKind::DuplicateIdentifier),
    {
        let ghost ga = opt_anchors(self.anchors);
        let ghost gg = opt_guidelines(self.guidelines);
        let ghost cs = outline_contours(self.outline);
        let ghost cm = outline_components(self.outline);
        let a_ids = match &self.anchors {
            Some(v) => anchor_id_list(v),
            None => Vec::new(),
        };
        let g_ids = match &self.guidelines {
            Some(v) => guideline_id_list(v),
            None => Vec::new(),
        };
        let mut c_ids: Vec<Option<String>> = Vec::new();
        let mut point_lists: Vec<Vec<Option<String>>> = Vec::new();
        let mut m_ids: Vec<Option<String>> = Vec::new();
        match &self.outline {
            Some(o) => {
                c_ids = contour_id_list(&o.contours);
                m_ids = component_id_list(&o.components);
                let n = o.contours.len();
                let mut ci: usize = 0;
                while ci < n
                    invariant
                        ci <= n,
                        point_lists@.len() == ci,
                        forall|x: int|
                            0 <= x < ci ==> (#[trigger] point_lists@[x])@.len()
                                == cs[x].points@.len() && (forall|y: int|
                                0 <= y < cs[x].points@.len() ==> opt_str_view(
                                    #[trigger] point_lists@[x]@[y],
                                ) == opt_id_view(cs[x].points@[y].identifier)),
                    decreases n - ci,
                {
                    let pl = point_id_list(&o.contours[ci].points);
                    point_lists.push(pl);
                    ci += 1;
                }
            },
            None => {},
        }
        proof {
            assert(a_ids@.len() == ga.len());
            assert(forall|j: int|
                0 <= j < ga.len() ==> opt_str_view(#[trigger] a_ids@[j]) == opt_id_view(
                    ga[j].identifier,
                ));
            assert(g_ids@.len() == gg.len());
            assert(forall|j: int|
                0 <= j < gg.len() ==> opt_str_view(#[trigger] g_ids@[j]) == opt_id_view(
                    gg[j].identifier,
                ));
            assert(c_ids@.len() == cs.len());
            assert(forall|j: int|
                0 <= j < cs.len() ==> opt_str_view(#[trigger] c_ids@[j]) == opt_id_view(
                    cs[j].identifier,
                ));
            assert(m_ids@.len() == cm.len());
            assert(forall|j: int|
                0 <= j < cm.len() ==> opt_str_view(#[trigger] m_ids@[j]) == opt_id_view(
                    cm[j].identifier,
                ));
            assert(point_lists@.len() == cs.len());
        }
        // Distinctness within each collection.
        if !ids_pairwise_distinct(&a_ids) {
            proof {
                let (i, j) = choose|i: int, j: int|
                    0 <= i < j < a_ids@.len() && opt_str_view(#[trigger] a_ids@[i]) is Some
                        && opt_str_view(a_ids@[i]) == opt_str_view(#[trigger] a_ids@[j]);
                assert(opt_id_view(ga[i].identifier) == opt_id_view(ga[j].identifier));
                assert(!anchors_ids_distinct(ga));
            }
            return Err(ErrorKind::DuplicateIdentifier);
        }
        proof {
            assert forall|i: int, j: int|
                0 <= i < j < ga.len() implies opt_id_view((#[trigger] ga[i]).identifier)
                is Some ==> opt_id_view(ga[i].identifier) != opt_id_view(
                (#[trigger] ga[j]).identifier,
            ) by {
                assert(opt_str_view(a_ids@[i]) == opt_id_view(ga[i].identifier));
                assert(opt_str_view(a_ids@[j]) == opt_id_view(ga[j].identifier));
            }
            assert(anchors_ids_distinct(ga));
        }
        if !ids_pairwise_distinct(&g_ids) {
            proof {
                let (i, j) = choose|i: int, j: int|
                    0 <= i < j < g_ids@.len() && opt_str_view(#[trigger] g_ids@[i]) is Some
                        && opt_str_view(g_ids@[i]) == opt_str_view(#[trigger] g_ids@[j]);
                assert(opt_id_view(gg[i].identifier) == opt_id_view(gg[j].identifier));
                assert(!guidelines_ids_distinct(gg));
            }
            return Err(ErrorKind::DuplicateIdentifier);
        }
        proof {
            assert forall|i: int, j: int|
                0 <= i < j < gg.len() implies opt_id_view((#[trigger] gg[i]).identifier)
                is Some ==> opt_id_view(gg[i].identifier) != opt_id_view(
                (#[trigger] gg[j]).identifier,
            ) by {
                assert(opt_str_view(g_ids@[i]) == opt_id_view(gg[i].identifier));
                assert(opt_str_view(g_ids@[j]) == opt_id_view(gg[j].identifier));
            }
            assert(guidelines_ids_distinct(gg));
        }
        if !ids_pairwise_distinct(&c_ids) {
            proof {
                let (i, j) = choose|i: int, j: int|
                    0 <= i < j < c_ids@.len() && opt_str_view(#[trigger] c_ids@[i]) is Some
                        && opt_str_view(c_ids@[i]) == opt_str_view(#[trigger] c_ids@[j]);
                assert(opt_id_view(cs[i].identifier) == opt_id_view(cs[j].identifier));
                assert(!contours_ids_distinct(cs));
            }
            return Err(ErrorKind::DuplicateIdentifier);
        }
        proof {
            assert forall|i: int, j: int|
                0 <= i < j < cs.len() implies opt_id_view((#[trigger] cs[i]).identifier)
                is Some ==> opt_id_view(cs[i].identifier) != opt_id_view(
                (#[trigger] cs[j]).identifier,
            ) by {
                assert(opt_str_view(c_ids@[i]) == opt_id_view(cs[i].identifier));
                assert(opt_str_view(c_ids@[j]) == opt_id_view(cs[j].identifier));
            }
            assert(contours_ids_distinct(cs));
        }
        if !ids_pairwise_distinct(&m_ids) {
            proof {
                let (i, j) = choose|i: int, j: int|
                    0 <= i < j < m_ids@.len() && opt_str_view(#[trigger] m_ids@[i]) is Some
                        && opt_str_view(m_ids@[i]) == opt_str_view(#[trigger] m_ids@[j]);
                assert(opt_id_view(cm[i].identifier) == opt_id_view(cm[j].identifier));
                assert(!components_ids_distinct(cm));
            }
            return Err(ErrorKind::DuplicateIdentifier);
        }
        proof {
            assert forall|i: int, j: int|
                0 <= i < j < cm.len() implies opt_id_view((#[trigger] cm[i]).identifier)
                is Some ==> opt_id_view(cm[i].identifier) != opt_id_view(
                (#[trigger] cm[j]).identifier,
            ) by {
                assert(opt_str_view(m_ids@[i]) == opt_id_view(cm[i].identifier));
                assert(opt_str_view(m_ids@[j]) == opt_id_view(cm[j].identifier));
            }
            assert(components_ids_distinct(cm));
        }
        // Cross-collection disjointness among the flat collections.
        if !ids_disjoint(&a_ids, &g_ids) {
            proof {
                let (i, j) = choose|i: int, j: int|
                    0 <= i < a_ids@.len() && 0 <= j < g_ids@.len() && opt_str_view(
                        #[trigger] a_ids@[i],
                    ) is Some && opt_str_view(a_ids@[i]) == opt_str_view(#[trigger] g_ids@[j]);
                let k = opt_id_view(ga[i].identifier).unwrap();
                assert(anchors_have_id(ga, k));
                assert(guidelines_have_id(gg, k));
            }
            return Err(ErrorKind::DuplicateIdentifier);
        }
        proof {
            assert forall|k: Seq<char>| anchors_have_id(ga, k) implies !guidelines_have_id(gg, k) by {
                if guidelines_have_id(gg, k) {
                    let i = choose|i: int|
                        0 <= i < ga.len() && opt_id_view((#[trigger] ga[i]).identifier) == Some(k);
                    assert(opt_str_view(a_ids@[i]) == Some(k));
                    let j = choose|j: int|
                        0 <= j < gg.len() && opt_id_view((#[trigger] gg[j]).identifier) == Some(k);
                    assert(opt_str_view(g_ids@[j]) == Some(k));
                    assert(false);
                }
            }
        }
        if !ids_disjoint(&a_ids, &c_ids) {
            proof {
                let (i, j) = choose|i: int, j: int|
                    0 <= i < a_ids@.len() && 0 <= j < c_ids@.len() && opt_str_view(
                        #[trigger] a_ids@[i],
                    ) is Some && opt_str_view(a_ids@[i]) == opt_str_view(#[trigger] c_ids@[j]);
                let k = opt_id_view(ga[i].identifier).unwrap();
                assert(anchors_have_id(ga, k));
                assert(contours_have_id(cs, k));
            }
            return Err(ErrorKind::DuplicateIdentifier);
        }
        proof {
            assert forall|k: Seq<char>| anchors_have_id(ga, k) implies !contours_have_id(cs, k) by {
                if contours_have_id(cs, k) {
                    let i = choose|i: int|
                        0 <= i < ga.len() && opt_id_view((#[trigger] ga[i]).identifier) == Some(k);
                    assert(opt_str_view(a_ids@[i]) == Some(k));
                    let j = choose|j: int|
                        0 <= j < cs.len() && opt_id_view((#[trigger] cs[j]).identifier) == Some(k);
                    assert(opt_str_view(c_ids@[j]) == Some(k));
                    assert(false);
                }
            }
        }
        if !ids_disjoint(&a_ids, &m_ids) {
            proof {
                let (i, j) = choose|i: int, j: int|
                    0 <= i < a_ids@.len() && 0 <= j < m_ids@.len() && opt_str_view(
                        #[trigger] a_ids@[i],
                    ) is Some && opt_str_view(a_ids@[i]) == opt_str_view(#[trigger] m_ids@[j]);
                let k = opt_id_view(ga[i].identifier).unwrap();
                assert(anchors_have_id(ga, k));
                assert(components_have_id(cm, k));
            }
            return Err(ErrorKind::DuplicateIdentifier);
        }
        proof {
            assert forall|k: Seq<char>| anchors_have_id(ga, k) implies !components_have_id(cm, k) by {
                if components_have_id(cm, k) {
                    let i = choose|i: int|
                        0 <= i < ga.len() && opt_id_view((#[trigger] ga[i]).identifier) == Some(k);
                    assert(opt_str_view(a_ids@[i]) == Some(k));
                    let j = choose|j: int|
                        0 <= j < cm.len() && opt_id_view((#[trigger] cm[j]).identifier) == Some(k);
                    assert(opt_str_view(m_ids@[j]) == Some(k));
                    assert(false);
                }
            }
        }
        if !ids_disjoint(&g_ids, &c_ids) {
            proof {
                let (i, j) = choose|i: int, j: int|
                    0 <= i < g_ids@.len() && 0 <= j < c_ids@.len() && opt_str_view(
                        #[trigger] g_ids@[i],
                    ) is Some && opt_str_view(g_ids@[i]) == opt_str_view(#[trigger] c_ids@[j]);
                let k = opt_id_view(gg[i].identifier).unwrap();
                assert(guidelines_have_id(gg, k));
                assert(contours_have_id(cs, k));
            }
            return Err(ErrorKind::DuplicateIdentifier);
        }
        proof {
            assert forall|k: Seq<char>| guidelines_have_id(gg, k) implies !contours_have_id(cs, k) by {
                if contours_have_id(cs, k) {
                    let i = choose|i: int|
                        0 <= i < gg.len() && opt_id_view((#[trigger] gg[i]).identifier) == Some(k);
                    assert(opt_str_view(g_ids@[i]) == Some(k));
                    let j = choose|j: int|
                        0 <= j < cs.len() && opt_id_view((#[trigger] cs[j]).identifier) == Some(k);
                    assert(opt_str_view(c_ids@[j]) == Some(k));
                    assert(false);
                }
            }
        }
        if !ids_disjoint(&g_ids, &m_ids) {
            proof {
                let (i, j) = choose|i: int, j: int|
                    0 <= i < g_ids@.len() && 0 <= j < m_ids@.len() && opt_str_view(
                        #[trigger] g_ids@[i],
                    ) is Some && opt_str_view(g_ids@[i]) == opt_str_view(#[trigger] m_ids@[j]);
                let k = opt_id_view(gg[i].identifier).unwrap();
                assert(guidelines_have_id(gg, k));
                assert(components_have_id(cm, k));
            }
            return Err(ErrorKind::DuplicateIdentifier);
        }
        proof {
            assert forall|k: Seq<char>| guidelines_have_id(gg, k) implies !components_have_id(cm, k) by {
                if components_have_id(cm, k) {
                    let i = choose|i: int|
                        0 <= i < gg.len() && opt_id_view((#[trigger] gg[i]).identifier) == Some(k);
                    assert(opt_str_view(g_ids@[i]) == Some(k));
                    let j = choose|j: int|
                        0 <= j < cm.len() && opt_id_view((#[trigger] cm[j]).identifier) == Some(k);
                    assert(opt_str_view(m_ids@[j]) == Some(k));
                    assert(false);
                }
            }
        }
        if !ids_disjoint(&c_ids, &m_ids) {
            proof {
                let (i, j) = choose|i: int, j: int|
                    0 <= i < c_ids@.len() && 0 <= j < m_ids@.len() && opt_str_view(
                        #[trigger] c_ids@[i],
                    ) is Some && opt_str_view(c_ids@[i]) == opt_str_view(#[trigger] m_ids@[j]);
                let k = opt_id_view(cs[i].identifier).unwrap();
                assert(contours_have_id(cs, k));
                assert(components_have_id(cm, k));
            }
            return Err(ErrorKind::DuplicateIdentifier);
        }
        proof {
            assert forall|k: Seq<char>| contours_have_id(cs, k) implies !components_have_id(cm, k) by {
                if components_have_id(cm, k) {
                    let i = choose|i: int|
                        0 <= i < cs.len() && opt_id_view((#[trigger] cs[i]).identifier) == Some(k);
                    assert(opt_str_view(c_ids@[i]) == Some(k));
                    let j = choose|j: int|
                        0 <= j < cm.len() && opt_id_view((#[trigger] cm[j]).identifier) == Some(k);
                    assert(opt_str_view(m_ids@[j]) == Some(k));
                    assert(false);
                }
            }
        }
        // Each contour's points: distinct, and disjoint from everything.
        if !check_point_ids(
            &point_lists,
            &a_ids,
            &g_ids,
            &c_ids,
            &m_ids,
            Ghost(ga),
            Ghost(gg),
            Ghost(cs),
            Ghost(cm),
        ) {
            return Err(ErrorKind::DuplicateIdentifier);
        }
        proof {
            assert forall|k: Seq<char>| anchors_have_id(ga, k) implies !outline_part_has_id(
                cs,
                k,
            ) by {
                if outline_part_has_id(cs, k) {
                    if contours_have_id(cs, k) {
                    } else {
                        let x = choose|x: int|
                            0 <= x < cs.len() && #[trigger] points_have_id(cs[x].points@, k);
                        assert(!anchors_have_id(ga, k));
                    }
                }
            }
            assert forall|k: Seq<char>| guidelines_have_id(gg, k) implies !outline_part_has_id(
                cs,
                k,
            ) by {
                if outline_part_has_id(cs, k) {
                    if contours_have_id(cs, k) {
                    } else {
                        let x = choose|x: int|
                            0 <= x < cs.len() && #[trigger] points_have_id(cs[x].points@, k);
                        assert(!guidelines_have_id(gg, k));
                    }
                }
            }
            assert forall|k: Seq<char>| components_have_id(cm, k) implies !outline_part_has_id(
                cs,
                k,
            ) by {
                if outline_part_has_id(cs, k) {
                    if contours_have_id(cs, k) {
                    } else {
                        let x = choose|x: int|
                            0 <= x < cs.len() && #[trigger] points_have_id(cs[x].points@, k);
                        assert(!components_have_id(cm, k));
                    }
                }
            }
            assert forall|x: int, k: Seq<char>|
                0 <= x < cs.len() && #[trigger] points_have_id(cs[x].points@, k) implies
                !contours_have_id(cs, k) by {}
            assert(glyph_ids_unique(*self));
        }
        Ok(())
    }
}

} // verus!
