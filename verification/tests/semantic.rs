use gltf_json::decimal::{append_decimal, parse_u32_at};
use gltf_json::semantic::Semantic;
use gltf_json::validation::Checked;

#[test]
fn semantic_fixed_names() {
    assert_eq!(Semantic::checked("POSITION"), Checked::Valid(Semantic::Positions));
    assert_eq!(Semantic::checked("NORMAL"), Checked::Valid(Semantic::Normals));
    assert_eq!(Semantic::checked("TANGENT"), Checked::Valid(Semantic::Tangents));
}

#[test]
fn semantic_numbered_names() {
    assert_eq!(Semantic::checked("COLOR_0"), Checked::Valid(Semantic::Colors(0)));
    assert_eq!(Semantic::checked("TEXCOORD_12"), Checked::Valid(Semantic::TexCoords(12)));
    assert_eq!(Semantic::checked("JOINTS_3"), Checked::Valid(Semantic::Joints(3)));
    assert_eq!(Semantic::checked("WEIGHTS_4294967295"), Checked::Valid(Semantic::Weights(u32::MAX)));
}

#[test]
fn semantic_set_index_reads_like_u32_parse() {
    assert_eq!(Semantic::checked("JOINTS_+3"), Checked::Valid(Semantic::Joints(3)));
    assert_eq!(Semantic::checked("COLOR_007"), Checked::Valid(Semantic::Colors(7)));
    assert_eq!(Semantic::checked("WEIGHTS_4294967296"), Checked::Invalid);
    assert_eq!(Semantic::checked("COLOR_"), Checked::Invalid);
    assert_eq!(Semantic::checked("COLOR_+"), Checked::Invalid);
    assert_eq!(Semantic::checked("COLOR_-1"), Checked::Invalid);
    assert_eq!(Semantic::checked("COLOR_1a"), Checked::Invalid);
    assert_eq!(Semantic::checked("COLOR_ 1"), Checked::Invalid);
}

#[test]
fn semantic_unknown_names_are_invalid() {
    assert_eq!(Semantic::checked(""), Checked::Invalid);
    assert_eq!(Semantic::checked("position"), Checked::Invalid);
    assert_eq!(Semantic::checked("POSITIONS"), Checked::Invalid);
    assert_eq!(Semantic::checked("COLOR0"), Checked::Invalid);
    assert_eq!(Semantic::checked("_TEMPERATURE"), Checked::Invalid);
    assert_eq!(Semantic::checked("<invalid semantic name>"), Checked::Invalid);
}

#[test]
fn semantic_to_string() {
    assert_eq!(Semantic::Positions.to_string(), "POSITION");
    assert_eq!(Semantic::Normals.to_string(), "NORMAL");
    assert_eq!(Semantic::Tangents.to_string(), "TANGENT");
    assert_eq!(Semantic::Colors(7).to_string(), "COLOR_7");
    assert_eq!(Semantic::TexCoords(10).to_string(), "TEXCOORD_10");
    assert_eq!(Semantic::Joints(0).to_string(), "JOINTS_0");
    assert_eq!(Semantic::Weights(u32::MAX).to_string(), "WEIGHTS_4294967295");
    assert_eq!(Checked::Valid(Semantic::Colors(2)).to_string(), "COLOR_2");
    assert_eq!(Checked::<Semantic>::Invalid.to_string(), "<invalid semantic name>");
}

#[test]
fn semantic_text_roundtrip() {
    let all = [
        Checked::Valid(Semantic::Positions),
        Checked::Valid(Semantic::Normals),
        Checked::Valid(Semantic::Tangents),
        Checked::Valid(Semantic::Colors(3)),
        Checked::Valid(Semantic::TexCoords(0)),
        Checked::Valid(Semantic::Joints(123456)),
        Checked::Valid(Semantic::Weights(u32::MAX)),
        Checked::Invalid,
    ];
    for c in all {
        assert_eq!(Semantic::checked(&c.to_string()), c);
    }
}

#[test]
fn attribute_keys() {
    assert_eq!(Checked::Valid(Semantic::Positions).attribute_key(), (0, 0));
    assert_eq!(Checked::Valid(Semantic::TexCoords(2)).attribute_key(), (4, 2));
    assert_eq!(Checked::<Semantic>::Invalid.attribute_key(), (7, 0));
    assert_eq!(Checked::from_attribute_key((3, 9)), Checked::Valid(Semantic::Colors(9)));
    assert_eq!(Checked::from_attribute_key((8, 0)), Checked::Invalid);
    let all = [
        Checked::Valid(Semantic::Positions),
        Checked::Valid(Semantic::Normals),
        Checked::Valid(Semantic::Tangents),
        Checked::Valid(Semantic::Colors(3)),
        Checked::Valid(Semantic::TexCoords(0)),
        Checked::Valid(Semantic::Joints(5)),
        Checked::Valid(Semantic::Weights(1)),
        Checked::Invalid,
    ];
    for c in all {
        assert_eq!(Checked::from_attribute_key(c.attribute_key()), c);
    }
    // The keys sort as the semantics do.
    for a in all {
        for b in all {
            assert_eq!(a.attribute_key() < b.attribute_key(), checked_lt(&a, &b));
        }
    }
}

fn checked_lt(a: &Checked<Semantic>, b: &Checked<Semantic>) -> bool {
    match (a, b) {
        (Checked::Valid(x), Checked::Valid(y)) => x < y,
        (Checked::Valid(_), Checked::Invalid) => true,
        _ => false,
    }
}

#[test]
fn decimal_parse_and_write() {
    assert_eq!(parse_u32_at("abc42", 3), Some(42));
    assert_eq!(parse_u32_at("+0", 0), Some(0));
    assert_eq!(parse_u32_at("4294967295", 0), Some(u32::MAX));
    assert_eq!(parse_u32_at("4294967296", 0), None);
    assert_eq!(parse_u32_at("99999999999", 0), None);
    assert_eq!(parse_u32_at("", 0), None);
    assert_eq!(parse_u32_at("x", 1), None);
    assert_eq!(parse_u32_at("++1", 0), None);
    let mut s = String::from("n=");
    append_decimal(&mut s, 0);
    append_decimal(&mut s, 1050);
    assert_eq!(s, "n=01050");
}
