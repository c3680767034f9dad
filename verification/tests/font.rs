use norad::error::{Error, FontInfoErrorKind};
use norad::fontinfo::{
    GaspRangeRecord, StyleMapStyle, upconvert_font_style, validate_gasp_records,
    validate_guideline_identifiers, validate_head_created, validate_os2_family_class,
    validate_os2_selection, validate_postscript_list_length,
};
use norad::glyph::Glyph;
use norad::layer::{Layer, LayerSet};
use norad::plist::Plist;
use norad::shared::{Guideline, Identifier, Line};

#[test]
fn layer_names_are_unique_within_a_font() {
    let mut layers = LayerSet::new();
    assert_eq!(layers.len(), 1);
    assert_eq!(layers.default_layer().name(), "public.default");
    assert_eq!(layers.default_layer().path(), "glyphs");
    assert!(layers.new_layer("background".to_string(), "glyphs.background".to_string()).is_ok());
    assert_eq!(layers.len(), 2);
    match layers.new_layer("background".to_string(), "glyphs.other".to_string()) {
        Err(Error::DuplicateLayer(name)) => assert_eq!(name, "background"),
        other => panic!("expected a duplicate layer error: {:?}", other),
    }
    match layers.rename_layer("missing", "anything".to_string()) {
        Err(Error::MissingLayer(name)) => assert_eq!(name, "missing"),
        other => panic!("expected a missing layer error: {:?}", other),
    }
    match layers.rename_layer("background", "public.default".to_string()) {
        Err(Error::DuplicateLayer(name)) => assert_eq!(name, "public.default"),
        other => panic!("expected a duplicate layer error: {:?}", other),
    }
    assert!(layers.rename_layer("background", "sketches".to_string()).is_ok());
    assert!(layers.get("sketches").is_some());
    assert!(layers.get("background").is_none());
}

#[test]
fn glyph_names_are_unique_within_a_layer() {
    let mut layer = Layer::new("public.default".to_string(), "glyphs".to_string());
    assert!(layer.is_empty());
    assert!(layer.insert_glyph(Glyph::new_named("a".to_string())).is_none());
    assert!(layer.insert_glyph(Glyph::new_named("b".to_string())).is_none());
    assert_eq!(layer.len(), 2);
    // inserting under an existing name replaces, never duplicates
    let old = layer.insert_glyph(Glyph::new_named("a".to_string()));
    assert!(old.is_some());
    assert_eq!(layer.len(), 2);
    assert!(layer.contains_glyph("a"));
    assert_eq!(layer.get_glyph("a").unwrap().name, "a");
    let removed = layer.remove_glyph("a").unwrap();
    assert_eq!(removed.name, "a");
    assert!(!layer.contains_glyph("a"));
    assert!(layer.remove_glyph("a").is_none());
}

#[test]
fn identifiers_are_synthesized_only_for_libs_without_one() {
    let mut g = Glyph::new_named("a".to_string());
    let mut with_lib = norad::glyph::Anchor::new(0, 0, None, None, None, Some(Plist::new()));
    let plain = norad::glyph::Anchor::new(1, 1, None, None, None, None);
    let keep = norad::glyph::Anchor::new(
        2,
        2,
        None,
        None,
        Some(Identifier::new("kept".to_string()).unwrap()),
        Some(Plist::new()),
    );
    with_lib.take_lib();
    with_lib.replace_lib(Plist::new());
    g.anchors = Some(vec![with_lib, plain, keep]);
    g.synthesize_missing_identifiers();
    let anchors = g.anchors.as_ref().unwrap();
    assert!(anchors[0].identifier().is_some());
    assert!(anchors[1].identifier().is_none());
    assert_eq!(anchors[2].identifier().unwrap().as_str(), "kept");
}

#[test]
fn reserved_selection_bits_are_rejected() {
    assert!(validate_os2_selection(&vec![1, 2, 7]).is_ok());
    assert!(matches!(
        validate_os2_selection(&vec![1, 5]),
        Err(FontInfoErrorKind::DisallowedSelectionBits)
    ));
    assert!(matches!(
        validate_os2_selection(&vec![0]),
        Err(FontInfoErrorKind::DisallowedSelectionBits)
    ));
    assert!(matches!(
        validate_os2_selection(&vec![6]),
        Err(FontInfoErrorKind::DisallowedSelectionBits)
    ));
}

#[test]
fn family_class_ranges_are_checked() {
    assert!(validate_os2_family_class(0, 0).is_ok());
    assert!(validate_os2_family_class(14, 15).is_ok());
    assert!(matches!(
        validate_os2_family_class(15, 0),
        Err(FontInfoErrorKind::InvalidOs2FamilyClass)
    ));
    assert!(matches!(
        validate_os2_family_class(2, 16),
        Err(FontInfoErrorKind::InvalidOs2FamilyClass)
    ));
    assert!(matches!(
        validate_os2_family_class(-1, 0),
        Err(FontInfoErrorKind::InvalidOs2FamilyClass)
    ));
}

#[test]
fn postscript_list_lengths_are_bounded() {
    assert!(validate_postscript_list_length("postscriptBlueValues", 14, 14).is_ok());
    match validate_postscript_list_length("postscriptBlueValues", 14, 15) {
        Err(FontInfoErrorKind::InvalidPostscriptListLength { name, max_len, len }) => {
            assert_eq!(name, "postscriptBlueValues");
            assert_eq!(max_len, 14);
            assert_eq!(len, 15);
        },
        other => panic!("expected a length error: {:?}", other),
    }
}

#[test]
fn gasp_records_must_be_sorted() {
    let sorted = vec![
        GaspRangeRecord { range_max_ppem: 7, range_gasp_behavior: vec![1] },
        GaspRangeRecord { range_max_ppem: 65535, range_gasp_behavior: vec![3] },
    ];
    assert!(validate_gasp_records(&sorted).is_ok());
    let unsorted = vec![
        GaspRangeRecord { range_max_ppem: 65535, range_gasp_behavior: vec![3] },
        GaspRangeRecord { range_max_ppem: 7, range_gasp_behavior: vec![1] },
    ];
    assert!(matches!(
        validate_gasp_records(&unsorted),
        Err(FontInfoErrorKind::UnsortedGaspEntries)
    ));
}

#[test]
fn head_created_dates_must_match_the_format() {
    assert!(validate_head_created("2024/01/31 12:34:56").is_ok());
    assert!(matches!(
        validate_head_created("2024-01-31 12:34:56"),
        Err(FontInfoErrorKind::InvalidOpenTypeHeadCreatedDate)
    ));
    assert!(matches!(
        validate_head_created("2024/01/31 12:34:5"),
        Err(FontInfoErrorKind::InvalidOpenTypeHeadCreatedDate)
    ));
    assert!(matches!(
        validate_head_created("yyyy/mm/dd hh:mm:ss"),
        Err(FontInfoErrorKind::InvalidOpenTypeHeadCreatedDate)
    ));
}

#[test]
fn guideline_identifiers_must_be_unique() {
    let a = Guideline::new(
        Line::Vertical(10),
        None,
        None,
        Some(Identifier::new("g1".to_string()).unwrap()),
        None,
    );
    let b = Guideline::new(
        Line::Horizontal(20),
        None,
        None,
        Some(Identifier::new("g1".to_string()).unwrap()),
        None,
    );
    let c = Guideline::new(Line::Angle { x: 1, y: 2, degrees: 45 }, None, None, None, None);
    assert!(matches!(
        validate_guideline_identifiers(&vec![a, b]),
        Err(FontInfoErrorKind::DuplicateGuidelineIdentifiers)
    ));
    let a2 = Guideline::new(
        Line::Vertical(10),
        None,
        None,
        Some(Identifier::new("g1".to_string()).unwrap()),
        None,
    );
    let b2 = Guideline::new(
        Line::Horizontal(20),
        None,
        None,
        Some(Identifier::new("g2".to_string()).unwrap()),
        None,
    );
    assert!(validate_guideline_identifiers(&vec![a2, b2, c]).is_ok());
}

#[test]
fn legacy_font_styles_map_to_style_names() {
    assert_eq!(upconvert_font_style(64), Ok(StyleMapStyle::Regular));
    assert_eq!(upconvert_font_style(1), Ok(StyleMapStyle::Italic));
    assert_eq!(upconvert_font_style(32), Ok(StyleMapStyle::Bold));
    assert_eq!(upconvert_font_style(33), Ok(StyleMapStyle::BoldItalic));
    assert_eq!(upconvert_font_style(2), Err(FontInfoErrorKind::UnknownFontStyle(2)));
}

#[test]
fn font_info_errors_describe_themselves() {
    assert_eq!(
        FontInfoErrorKind::DisallowedSelectionBits.message(),
        "openTypeOS2Selection must not contain bits 0, 5 or 6"
    );
    assert_eq!(
        FontInfoErrorKind::InvalidPostscriptListLength {
            name: "postscriptBlueValues",
            max_len: 14,
            len: 15
        }
        .message(),
        "the Postscript field 'postscriptBlueValues' must contain at most 14 items but found 15"
    );
    assert_eq!(
        FontInfoErrorKind::UnknownFontStyle(-7).message(),
        "unrecognized fontStyle '-7'"
    );
    assert_eq!(
        FontInfoErrorKind::UnknownWidthClass("wide".to_string()).message(),
        "unrecognized OS/2 width class 'wide'"
    );
}
