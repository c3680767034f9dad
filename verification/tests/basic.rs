use norad::datastore::{DataStore, ImageStore};
use norad::error::{
    ConvertContourError, ErrorKind, GroupsValidationError, InvalidColorString, StoreEntryError,
    StoreError,
};
use norad::filenames::{default_file_name_for_glyph_name, unique_file_name_for_glyph_name};
use norad::glyph::{
    AffineTransform, Anchor, Contour, ContourPoint, GlifVersion, GlifWriteError, Glyph, Outline,
    PointType,
};
use norad::groups::validate_groups;
use norad::plist::{Plist, Value};
use norad::shared::{Color, Identifier};

fn pt(typ: PointType, smooth: bool) -> ContourPoint {
    ContourPoint::new(0, 0, typ, smooth, None, None, None)
}

#[test]
fn empty_glyph_has_nothing() {
    let g = Glyph::new_named("a".to_string());
    assert_eq!(g.name, "a");
    assert_eq!(g.format, GlifVersion::V2);
    assert!(g.outline.is_none());
    assert!(g.lib.is_none());
    assert!(g.advance_width().is_none());
}

#[test]
fn too_many_off_curves_before_cubic() {
    let c = Contour::new(
        vec![
            pt(PointType::Line, false),
            pt(PointType::OffCurve, false),
            pt(PointType::OffCurve, false),
            pt(PointType::OffCurve, false),
            pt(PointType::Curve, false),
        ],
        None,
        None,
    );
    assert!(matches!(c.validate(), Err(ErrorKind::TooManyOffCurves)));
}

#[test]
fn open_contour_must_not_end_in_off_curve() {
    let c = Contour::new(
        vec![pt(PointType::Move, false), pt(PointType::OffCurve, false)],
        None,
        None,
    );
    assert!(matches!(c.validate(), Err(ErrorKind::TrailingOffCurves)));
}

#[test]
fn moves_allowed_only_at_the_start() {
    let c = Contour::new(
        vec![pt(PointType::Move, false), pt(PointType::Line, false), pt(PointType::Move, false)],
        None,
        None,
    );
    assert!(matches!(c.validate(), Err(ErrorKind::UnexpectedMove)));
}

#[test]
fn smooth_is_invalid_on_off_curves() {
    let c = Contour::new(
        vec![pt(PointType::Line, false), pt(PointType::OffCurve, true), pt(
            PointType::Curve,
            false,
        )],
        None,
        None,
    );
    assert!(matches!(c.validate(), Err(ErrorKind::UnexpectedSmooth)));
}

#[test]
fn line_after_off_curve_is_invalid() {
    let c = Contour::new(
        vec![pt(PointType::Line, false), pt(PointType::OffCurve, false), pt(
            PointType::Line,
            false,
        )],
        None,
        None,
    );
    assert!(matches!(c.validate(), Err(ErrorKind::UnexpectedPointAfterOffCurve)));
}

#[test]
fn quadratic_blobs_and_wrapped_runs_are_valid() {
    // all off-curve: a TrueType quadratic contour
    let c = Contour::new(
        vec![pt(PointType::OffCurve, false), pt(PointType::OffCurve, false), pt(
            PointType::OffCurve,
            false,
        )],
        None,
        None,
    );
    assert!(c.validate().is_ok());
    assert!(c.is_closed());
    // a closed contour whose trailing off-curves wrap to the leading curve
    let c2 = Contour::new(
        vec![pt(PointType::Curve, false), pt(PointType::OffCurve, false), pt(
            PointType::OffCurve,
            false,
        )],
        None,
        None,
    );
    assert!(c2.validate().is_ok());
    // three wrapped off-curves before a cubic curve are too many
    let c3 = Contour::new(
        vec![
            pt(PointType::OffCurve, false),
            pt(PointType::Curve, false),
            pt(PointType::OffCurve, false),
            pt(PointType::OffCurve, false),
        ],
        None,
        None,
    );
    assert!(matches!(c3.validate(), Err(ErrorKind::TooManyOffCurves)));
    // an open contour starts with a move
    let c4 = Contour::new(
        vec![pt(PointType::Move, false), pt(PointType::Line, false)],
        None,
        None,
    );
    assert!(c4.validate().is_ok());
    assert!(!c4.is_closed());
}

#[test]
fn object_libs_are_distributed_to_identified_objects() {
    let mut inner = Plist::new();
    inner.insert("note".to_string(), Value::Text("hi".to_string()));
    let mut ol = Plist::new();
    ol.insert("id-1".to_string(), Value::Dictionary(inner));
    let mut lib = Plist::new();
    lib.insert("public.objectLibs".to_string(), Value::Dictionary(ol));
    let contour = Contour::new(
        vec![],
        Some(Identifier::new("id-1".to_string()).unwrap()),
        None,
    );
    let outline = Outline { components: vec![], contours: vec![contour] };
    let mut g = Glyph::new_named("a".to_string());
    g.outline = Some(outline);
    g.lib = Some(lib);
    assert!(g.fill_in_libs().is_ok());
    assert!(!g.lib.as_ref().unwrap().contains_key("public.objectLibs"));
    let c = &g.outline.as_ref().unwrap().contours[0];
    let clib = c.lib().expect("the contour should have received its lib");
    match clib.get("note") {
        Some(Value::Text(s)) => assert_eq!(s, "hi"),
        other => panic!("unexpected lib entry: {:?}", other),
    }
}

#[test]
fn orphan_object_libs_are_discarded() {
    let mut inner = Plist::new();
    inner.insert("note".to_string(), Value::Text("hi".to_string()));
    let mut ol = Plist::new();
    ol.insert("id-unknown".to_string(), Value::Dictionary(inner));
    let mut lib = Plist::new();
    lib.insert("public.objectLibs".to_string(), Value::Dictionary(ol));
    let mut g = Glyph::new_named("a".to_string());
    g.lib = Some(lib);
    assert!(g.fill_in_libs().is_ok());
    assert!(!g.lib.as_ref().unwrap().contains_key("public.objectLibs"));
}

#[test]
fn non_dictionary_object_libs_fail() {
    let mut lib = Plist::new();
    lib.insert("public.objectLibs".to_string(), Value::Integer(3));
    let mut g = Glyph::new_named("a".to_string());
    g.lib = Some(lib);
    assert!(matches!(g.fill_in_libs(), Err(ErrorKind::BadLib)));
}

#[test]
fn taking_object_libs_collects_by_identifier() {
    let mut anchor_lib = Plist::new();
    anchor_lib.insert("kind".to_string(), Value::Text("top".to_string()));
    let anchor = Anchor::new(
        1,
        2,
        Some("top".to_string()),
        None,
        Some(Identifier::new("id-a".to_string()).unwrap()),
        Some(anchor_lib),
    );
    let mut g = Glyph::new_named("a".to_string());
    g.anchors = Some(vec![anchor]);
    let out = g.libs_to_object_libs();
    assert_eq!(out.len(), 1);
    match out.get("id-a") {
        Some(Value::Dictionary(d)) => match d.get("kind") {
            Some(Value::Text(s)) => assert_eq!(s, "top"),
            other => panic!("unexpected entry: {:?}", other),
        },
        other => panic!("expected a dictionary: {:?}", other),
    }
    // the glyph keeps its libs: collection copies, never moves
    assert!(g.anchors.as_ref().unwrap()[0].lib().is_some());
    assert!(g.anchors.as_ref().unwrap()[0].identifier().is_some());
}

#[test]
fn empty_libs_are_not_collected() {
    let with_empty = Anchor::new(
        0,
        0,
        None,
        None,
        Some(Identifier::new("id-empty".to_string()).unwrap()),
        Some(Plist::new()),
    );
    let mut g = Glyph::new_named("a".to_string());
    g.anchors = Some(vec![with_empty]);
    let out = g.libs_to_object_libs();
    assert_eq!(out.len(), 0);
    assert!(g.anchors.as_ref().unwrap()[0].lib().is_some());
}

#[test]
fn replace_lib_synthesizes_an_identifier() {
    let mut anchor = Anchor::new(0, 0, None, None, None, None);
    assert!(anchor.identifier().is_none());
    let old = anchor.replace_lib(Plist::new());
    assert!(old.is_none());
    let id = anchor.identifier().expect("an identifier should be synthesized");
    let text = id.as_str();
    assert_eq!(text.len(), 36);
    assert_eq!(text.as_bytes()[8], b'-');
    assert_eq!(text.as_bytes()[13], b'-');
    assert_eq!(text.as_bytes()[14], b'4');
    assert_eq!(text.as_bytes()[18], b'-');
    assert_eq!(text.as_bytes()[23], b'-');
}

#[test]
fn file_names_escape_reserved_characters() {
    assert_eq!(default_file_name_for_glyph_name("A"), "A_.glif");
    assert_eq!(default_file_name_for_glyph_name(".notdef"), "_notdef.glif");
    assert_eq!(default_file_name_for_glyph_name("a*b"), "a_b.glif");
    assert_eq!(default_file_name_for_glyph_name("a"), "a.glif");
    assert_eq!(default_file_name_for_glyph_name("T_H"), "T__H_.glif");
}

#[test]
fn file_names_fit_in_255_bytes() {
    let long = "a".repeat(300);
    let name = default_file_name_for_glyph_name(&long);
    assert_eq!(name.len(), 255);
    assert!(name.ends_with(".glif"));
    let mut expected = "a".repeat(250);
    expected.push_str(".glif");
    assert_eq!(name, expected);
}

#[test]
fn overlapping_kerning_groups_are_reported() {
    let groups = vec![
        ("public.kern1.Alpha".to_string(), vec!["X".to_string()]),
        ("public.kern1.Beta".to_string(), vec!["X".to_string()]),
    ];
    match validate_groups(&groups) {
        Err(GroupsValidationError::OverlappingKerningGroups { glyph_name, group_name }) => {
            assert_eq!(glyph_name, "X");
            assert_eq!(group_name, "public.kern1.Beta");
        },
        other => panic!("expected an overlap: {:?}", other),
    }
}

#[test]
fn kerning_sides_do_not_overlap_each_other() {
    let groups = vec![
        ("public.kern1.Alpha".to_string(), vec!["X".to_string()]),
        ("public.kern2.Alpha".to_string(), vec!["X".to_string()]),
        ("other".to_string(), vec!["X".to_string()]),
    ];
    assert!(validate_groups(&groups).is_ok());
}

#[test]
fn bare_kerning_prefixes_are_invalid_names() {
    let groups = vec![("public.kern1.".to_string(), vec![])];
    assert!(matches!(validate_groups(&groups), Err(GroupsValidationError::InvalidName)));
    let groups2 = vec![("public.kern2.".to_string(), vec![])];
    assert!(matches!(validate_groups(&groups2), Err(GroupsValidationError::InvalidName)));
}

#[test]
fn image_store_rejects_bad_signatures() {
    let mut store = ImageStore::new();
    let r = store.insert("foo.png".to_string(), vec![1, 2, 3, 4, 5, 6, 7, 8]);
    assert!(matches!(r, Err(StoreError::InvalidImage)));
    assert_eq!(store.len(), 0);
}

#[test]
fn image_store_accepts_png_and_stays_flat() {
    let png = vec![0x89, 0x50, 0x4e, 0x47, 0x0d, 0x0a, 0x1a, 0x0a, 1, 2];
    let mut store = ImageStore::new();
    assert!(store.insert("foo.png".to_string(), png.clone()).is_ok());
    assert_eq!(store.get("foo.png"), Some(&png));
    assert!(matches!(
        store.insert("sub/dir.png".to_string(), png.clone()),
        Err(StoreError::Subdir)
    ));
    assert!(matches!(store.insert("".to_string(), png.clone()), Err(StoreError::EmptyPath)));
    assert!(matches!(
        store.insert("/abs.png".to_string(), png),
        Err(StoreError::PathIsAbsolute)
    ));
}

#[test]
fn data_store_refuses_files_under_files() {
    let mut store = DataStore::new();
    assert!(store.insert("com.example/data.bin".to_string(), vec![1]).is_ok());
    assert!(matches!(
        store.insert("com.example/data.bin/nested".to_string(), vec![2]),
        Err(StoreError::DirUnderFile)
    ));
    assert!(matches!(
        store.insert("com.example".to_string(), vec![3]),
        Err(StoreError::DirUnderFile)
    ));
    assert!(matches!(store.insert("".to_string(), vec![4]), Err(StoreError::EmptyPath)));
    assert!(matches!(
        store.insert("/etc/passwd".to_string(), vec![5]),
        Err(StoreError::PathIsAbsolute)
    ));
    assert!(store.insert("com.example/other.bin".to_string(), vec![6]).is_ok());
    assert_eq!(store.get("com.example/data.bin"), Some(&vec![1]));
    assert_eq!(store.remove("com.example/data.bin"), Some(vec![1]));
    assert!(store.get("com.example/data.bin").is_none());
}

#[test]
fn colors_parse_and_print_as_hex() {
    let c = Color::parse("ff00a080").unwrap();
    assert_eq!(c, Color { red: 255, green: 0, blue: 160, alpha: 128 });
    assert_eq!(c.to_hex(), "ff00a080");
    let c2 = Color::parse("FF00A080").unwrap();
    assert_eq!(c, c2);
    let err = Color::parse("red").unwrap_err();
    assert_eq!(err.string, "red");
    assert!(Color::parse("ff00a08").is_err());
    assert!(Color::parse("ff00a08g").is_err());
}

#[test]
fn identifiers_must_be_short_printable_ascii() {
    assert!(Identifier::new("id-1".to_string()).is_ok());
    assert!(matches!(Identifier::new("".to_string()), Err(ErrorKind::BadIdentifier)));
    assert!(matches!(Identifier::new("a\u{1F600}".to_string()), Err(ErrorKind::BadIdentifier)));
    let long = "x".repeat(101);
    assert!(matches!(Identifier::new(long), Err(ErrorKind::BadIdentifier)));
    let max = "x".repeat(100);
    assert!(Identifier::new(max).is_ok());
}

#[test]
fn plist_dictionaries_keep_insertion_order() {
    let mut p = Plist::new();
    assert!(p.is_empty());
    assert!(p.insert("b".to_string(), Value::Integer(2)).is_none());
    assert!(p.insert("a".to_string(), Value::Integer(1)).is_none());
    assert_eq!(p.len(), 2);
    assert_eq!(p.entries()[0].0, "b");
    assert_eq!(p.entries()[1].0, "a");
    let old = p.insert("b".to_string(), Value::Boolean(true));
    assert_eq!(old, Some(Value::Integer(2)));
    assert_eq!(p.len(), 2);
    assert_eq!(p.entries()[0].0, "b");
    assert!(p.contains_key("a"));
    assert!(!p.contains_key("c"));
    assert_eq!(p.remove("b"), Some(Value::Boolean(true)));
    assert!(p.remove("b").is_none());
    assert_eq!(p.len(), 1);
}

#[test]
fn error_constructors_carry_their_data() {
    let e = StoreEntryError::new("images/foo.png".to_string(), StoreError::InvalidImage);
    assert_eq!(e.path, "images/foo.png");
    assert_eq!(e.source, StoreError::InvalidImage);
    let c = InvalidColorString::new("zzz".to_string());
    assert_eq!(c.string, "zzz");
    let k = ConvertContourError::new(ErrorKind::TrailingOffCurves);
    assert_eq!(k.kind, ErrorKind::TrailingOffCurves);
}

#[test]
fn affine_transform_defaults_to_identity() {
    let t = AffineTransform::default();
    assert_eq!(t, AffineTransform::identity());
    assert_eq!(t.x_scale, 1);
    assert_eq!(t.y_scale, 1);
    assert_eq!(t.xy_scale, 0);
    assert_eq!(t.x_offset, 0);
}

#[test]
fn colliding_file_names_get_numeric_suffixes() {
    let empty: Vec<String> = vec![];
    assert_eq!(unique_file_name_for_glyph_name("a", &empty), "a.glif");
    let taken = vec!["a.glif".to_string()];
    assert_eq!(unique_file_name_for_glyph_name("a", &taken), "a#1.glif");
    let taken2 = vec!["a.glif".to_string(), "a#1.glif".to_string(), "a#2.glif".to_string()];
    assert_eq!(unique_file_name_for_glyph_name("a", &taken2), "a#3.glif");
    // names that escape to the same base resolve apart
    let taken3 = vec!["A_.glif".to_string()];
    assert_eq!(unique_file_name_for_glyph_name("A", &taken3), "A_#1.glif");
}

#[test]
fn object_libs_survive_a_take_and_fill_round_trip() {
    let mut anchor_lib = Plist::new();
    anchor_lib.insert("a".to_string(), Value::Integer(1));
    let anchor = Anchor::new(
        0,
        0,
        None,
        None,
        Some(Identifier::new("id-anchor".to_string()).unwrap()),
        Some(anchor_lib),
    );
    let mut point_lib = Plist::new();
    point_lib.insert("p".to_string(), Value::Boolean(true)); 
    let mut point = pt(PointType::Line, false);
    point.identifier = Some(Identifier::new("id-point".to_string()).unwrap());
    point.lib = Some(point_lib);
    let mut contour_lib = Plist::new();
    contour_lib.insert("c".to_string(), Value::Text("x".to_string()));
    let contour = Contour::new(
        vec![point],
        Some(Identifier::new("id-contour".to_string()).unwrap()),
        Some(contour_lib),
    );
    let mut component_lib = Plist::new();
    component_lib.insert("m".to_string(), Value::Data(vec![9]));
    let component = norad::glyph::Component::new(
        "base".to_string(),
        norad::glyph::AffineTransform::identity(),
        Some(Identifier::new("id-component".to_string()).unwrap()),
        Some(component_lib),
    );
    let mut g = Glyph::new_named("a".to_string());
    g.anchors = Some(vec![anchor]);
    g.outline = Some(Outline { components: vec![component], contours: vec![contour] });

    let collected = g.libs_to_object_libs();
    assert_eq!(collected.len(), 4);
    // collection copies: the glyph keeps every lib
    assert!(g.anchors.as_ref().unwrap()[0].lib().is_some());

    let mut lib = Plist::new();
    lib.insert("public.objectLibs".to_string(), Value::Dictionary(collected));
    g.lib = Some(lib);
    assert!(g.fill_in_libs().is_ok());

    let anchors = g.anchors.as_ref().unwrap();
    match anchors[0].lib().unwrap().get("a") {
        Some(Value::Integer(v)) => assert_eq!(*v, 1),
        other => panic!("anchor lib missing: {:?}", other),
    }
    let outline = g.outline.as_ref().unwrap();
    match outline.contours[0].lib().unwrap().get("c") {
        Some(Value::Text(s)) => assert_eq!(s, "x"),
        other => panic!("contour lib missing: {:?}", other),
    }
    match outline.contours[0].points[0].lib().unwrap().get("p") {
        Some(Value::Boolean(b)) => assert!(*b),
        other => panic!("point lib missing: {:?}", other),
    }
    match outline.components[0].lib().unwrap().get("m") {
        Some(Value::Data(d)) => assert_eq!(d, &vec![9]),
        other => panic!("component lib missing: {:?}", other),
    }
    assert!(!g.lib.as_ref().unwrap().contains_key("public.objectLibs"));
}

#[test]
fn writing_checks_format_and_reserved_key() {
    let mut g = Glyph::new_named("a".to_string());
    assert!(g.check_writable().is_ok());
    g.format = GlifVersion::V1;
    assert_eq!(g.check_writable(), Err(GlifWriteError::Downgrade));
    g.format = GlifVersion::V2;
    let mut lib = Plist::new();
    lib.insert("public.objectLibs".to_string(), Value::Dictionary(Plist::new()));
    g.lib = Some(lib);
    assert_eq!(
        g.check_writable(),
        Err(GlifWriteError::PreexistingPublicObjectLibsKey)
    );
}

#[test]
fn duplicate_identifiers_are_detected_across_collections() {
    let mut g = Glyph::new_named("a".to_string());
    assert!(g.validate_identifiers().is_ok());
    let anchor = Anchor::new(
        0,
        0,
        None,
        None,
        Some(Identifier::new("id-1".to_string()).unwrap()),
        None,
    );
    let contour = Contour::new(
        vec![pt(PointType::Line, false)],
        Some(Identifier::new("id-1".to_string()).unwrap()),
        None,
    );
    g.anchors = Some(vec![anchor]);
    g.outline = Some(Outline { components: vec![], contours: vec![contour] });
    assert_eq!(g.validate_identifiers(), Err(ErrorKind::DuplicateIdentifier));

    let mut ok = Glyph::new_named("b".to_string());
    let anchor2 = Anchor::new(
        0,
        0,
        None,
        None,
        Some(Identifier::new("id-a".to_string()).unwrap()),
        None,
    );
    let mut point = pt(PointType::Line, false);
    point.identifier = Some(Identifier::new("id-p".to_string()).unwrap());
    let contour2 = Contour::new(
        vec![point],
        Some(Identifier::new("id-c".to_string()).unwrap()),
        None,
    );
    ok.anchors = Some(vec![anchor2]);
    ok.outline = Some(Outline { components: vec![], contours: vec![contour2] });
    assert!(ok.validate_identifiers().is_ok());

    // two points of the same contour sharing an identifier
    let mut p1 = pt(PointType::Line, false);
    p1.identifier = Some(Identifier::new("id-p".to_string()).unwrap());
    let mut p2 = pt(PointType::Line, false);
    p2.identifier = Some(Identifier::new("id-p".to_string()).unwrap());
    let mut bad = Glyph::new_named("c".to_string());
    bad.outline = Some(Outline {
        components: vec![],
        contours: vec![Contour::new(vec![p1, p2], None, None)],
    });
    assert_eq!(bad.validate_identifiers(), Err(ErrorKind::DuplicateIdentifier));
}

#[test]
fn synthesized_identifiers_have_uuid_form() {
    let mut contour = Contour::new(vec![], None, None);
    contour.replace_lib(Plist::new());
    let text = contour.identifier().unwrap().as_str();
    assert_eq!(text.len(), 36);
    assert_eq!(text.as_bytes()[8], b'-');
    assert_eq!(text.as_bytes()[13], b'-');
    assert_eq!(text.as_bytes()[14], b'4');
    assert_eq!(text.as_bytes()[18], b'-');
    assert_eq!(text.as_bytes()[23], b'-');
    assert!(matches!(text.as_bytes()[19], b'8' | b'9' | b'a' | b'b'));
}
