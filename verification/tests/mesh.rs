use std::collections::BTreeMap;

use gltf_json::mesh::{
    bound_report, check_bound, primitive_validate_hook, AccessorBounds, PositionField, Primitive, PrimitiveField,
    PrimitiveReport, Report,
};
use gltf_json::morph::{MorphAttribute, MorphTarget};
use gltf_json::mode::Mode;
use gltf_json::semantic::Semantic;
use gltf_json::validation::{Checked, Error, Index};

fn primitive_with_position(index: Option<u32>) -> Primitive {
    let mut primitive = Primitive {
        attributes: BTreeMap::new(),
        indices: None,
        material: None,
        mode: Checked::Valid(Mode::Triangles),
        targets: None,
    };
    primitive.insert_attribute(&Checked::Valid(Semantic::Normals), Index::new(7));
    if let Some(i) = index {
        primitive.insert_attribute(&Checked::Valid(Semantic::Positions), Index::new(i));
    }
    primitive
}

fn bounds(min: Option<&str>, max: Option<&str>) -> AccessorBounds {
    AccessorBounds { min: min.map(|s| s.to_string()), max: max.map(|s| s.to_string()) }
}

fn report(field: PositionField, error: Error) -> Report {
    Report { field, error }
}

#[test]
fn primitive_attributes_by_semantic() {
    let primitive = primitive_with_position(Some(3));
    assert_eq!(primitive.get_attribute(&Checked::Valid(Semantic::Positions)), Some(Index::new(3)));
    assert_eq!(primitive.get_attribute(&Checked::Valid(Semantic::Normals)), Some(Index::new(7)));
    assert_eq!(primitive.get_attribute(&Checked::Valid(Semantic::Tangents)), None);
    assert_eq!(primitive.get_attribute(&Checked::Invalid), None);
}

#[test]
fn missing_position_attribute_is_reported() {
    let primitive = primitive_with_position(None);
    let accessors = vec![bounds(Some("[0,0,0]"), Some("[1,1,1]"))];
    assert_eq!(
        primitive_validate_hook(&primitive, &accessors),
        vec![report(PositionField::Attribute, Error::Missing)]
    );
}

#[test]
fn out_of_range_position_accessor_reports_nothing_here() {
    let primitive = primitive_with_position(Some(1));
    let accessors = vec![bounds(None, None)];
    assert_eq!(primitive_validate_hook(&primitive, &accessors), vec![]);
    assert_eq!(primitive_validate_hook(&primitive, &vec![]), vec![]);
}

#[test]
fn valid_position_bounds_report_nothing() {
    let primitive = primitive_with_position(Some(1));
    let accessors = vec![
        bounds(None, None),
        bounds(Some("[-0.03, -0.04, -0.05]"), Some("[1.0, 1.01, 2e1]")),
    ];
    assert_eq!(primitive_validate_hook(&primitive, &accessors), vec![]);
}

#[test]
fn missing_and_invalid_bounds_are_reported_in_order() {
    let primitive = primitive_with_position(Some(0));
    let accessors = vec![bounds(None, Some("[1, 2]"))];
    assert_eq!(
        primitive_validate_hook(&primitive, &accessors),
        vec![report(PositionField::Min, Error::Missing), report(PositionField::Max, Error::Invalid)]
    );
    let accessors = vec![bounds(Some("[1, 2, 3, 4]"), None)];
    assert_eq!(
        primitive_validate_hook(&primitive, &accessors),
        vec![report(PositionField::Min, Error::Invalid), report(PositionField::Max, Error::Missing)]
    );
}

#[test]
fn bound_text_must_read_as_three_numbers() {
    assert_eq!(check_bound(PositionField::Min, &Some("[1,2,3]".to_string())), None);
    assert_eq!(check_bound(PositionField::Min, &Some(" [ 1 , 2.5 , -3 ] ".to_string())), None);
    assert_eq!(
        check_bound(PositionField::Min, &Some("[1,\"2\",3]".to_string())),
        Some(report(PositionField::Min, Error::Invalid))
    );
    assert_eq!(
        check_bound(PositionField::Max, &Some("{\"x\":1}".to_string())),
        Some(report(PositionField::Max, Error::Invalid))
    );
    assert_eq!(
        check_bound(PositionField::Max, &Some("3".to_string())),
        Some(report(PositionField::Max, Error::Invalid))
    );
    assert_eq!(
        check_bound(PositionField::Max, &Some("[null,1,2]".to_string())),
        Some(report(PositionField::Max, Error::Invalid))
    );
    assert_eq!(check_bound(PositionField::Max, &None), Some(report(PositionField::Max, Error::Missing)));
}

#[test]
fn bound_report_decisions() {
    assert_eq!(bound_report(PositionField::Min, None), Some(report(PositionField::Min, Error::Missing)));
    assert_eq!(bound_report(PositionField::Min, Some(true)), None);
    assert_eq!(bound_report(PositionField::Max, Some(false)), Some(report(PositionField::Max, Error::Invalid)));
}

#[test]
fn primitive_with_oob_position_accessor_is_rejected() {
    // The primitive's `POSITION` references accessor index 1, but the
    // document has no accessors: validation must report errors, not panic.
    let mut primitive = Primitive {
        attributes: BTreeMap::new(),
        indices: None,
        material: None,
        mode: Checked::default(),
        targets: None,
    };
    primitive.insert_attribute(&Checked::Valid(Semantic::Positions), Index::new(1));
    let errors = primitive.validate(&vec![], 0);
    assert!(
        errors.iter().any(|r| r.error == Error::IndexOutOfBounds),
        "expected IndexOutOfBounds, got {:?}",
        errors
    );
}

fn primitive_report(field: PrimitiveField, error: Error) -> PrimitiveReport {
    PrimitiveReport { field, error }
}

#[test]
fn primitive_validation_reports_in_order() {
    let mut target = MorphTarget::new();
    target.set_attribute(MorphAttribute::Colors(3), Index::new(9));
    target.set_attribute(MorphAttribute::TexCoords(1), Index::new(0));
    target.set_attribute(MorphAttribute::Normals, Index::new(5));
    target.set_attribute(MorphAttribute::TexCoords(0), Index::new(8));
    let mut primitive = Primitive {
        attributes: BTreeMap::new(),
        indices: Some(Index::new(2)),
        material: Some(Index::new(1)),
        mode: Checked::Invalid,
        targets: Some(vec![MorphTarget::new(), target]),
    };
    primitive.insert_attribute(&Checked::Invalid, Index::new(0));
    primitive.insert_attribute(&Checked::Valid(Semantic::TexCoords(0)), Index::new(4));
    primitive.insert_attribute(&Checked::Valid(Semantic::Positions), Index::new(0));
    let accessors = vec![bounds(Some("[0,0,0]"), Some("[1,1]"))];
    let reports = primitive.validate(&accessors, 1);
    assert_eq!(
        reports,
        vec![
            primitive_report(PrimitiveField::Attribute(4, 0), Error::IndexOutOfBounds),
            primitive_report(PrimitiveField::Attribute(7, 0), Error::Invalid),
            primitive_report(PrimitiveField::Indices, Error::IndexOutOfBounds),
            primitive_report(PrimitiveField::Material, Error::IndexOutOfBounds),
            primitive_report(PrimitiveField::Mode, Error::Invalid),
            primitive_report(PrimitiveField::Target(1, MorphAttribute::Normals), Error::IndexOutOfBounds),
            primitive_report(PrimitiveField::Target(1, MorphAttribute::TexCoords(0)), Error::IndexOutOfBounds),
            primitive_report(PrimitiveField::Target(1, MorphAttribute::Colors(3)), Error::IndexOutOfBounds),
            primitive_report(PrimitiveField::Position(PositionField::Max), Error::Invalid),
        ]
    );
}

#[test]
fn valid_primitive_reports_nothing() {
    let mut primitive = primitive_with_position(Some(0));
    primitive.material = Some(Index::new(0));
    let accessors = vec![bounds(Some("[0,0,0]"), Some("[1,1,1]")), bounds(None, None), bounds(None, None),
        bounds(None, None), bounds(None, None), bounds(None, None), bounds(None, None), bounds(None, None)];
    assert_eq!(primitive.validate(&accessors, 1), vec![]);
}

#[test]
fn check_bound_agrees_with_reading_three_f32() {
    let texts = [
        "[1,2,3]",
        "[1.5,-2.25,3e2]",
        "[0,18446744073709551615,-9223372036854775808]",
        "[1e300,-1e300,1e-300]",
        "[1,2]",
        "[1,2,3,4]",
        "[1,\"2\",3]",
        "[true,2,3]",
        "[[1],2,3]",
        "{\"a\":1}",
        "null",
        "\"[1,2,3]\"",
    ];
    for text in texts {
        let value: serde_json::Value = serde_json::from_str(text).unwrap();
        let reads = serde_json::from_value::<[f32; 3]>(value.clone()).is_ok();
        let expected = if reads { None } else { Some(report(PositionField::Min, Error::Invalid)) };
        assert_eq!(check_bound(PositionField::Min, &Some(value.to_string())), expected, "{}", text);
    }
}
