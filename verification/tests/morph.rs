use std::collections::BTreeMap;

use gltf_json::morph::{MorphAttribute, MorphKey, MorphTarget, MorphTargetError, VALID_MORPH_TARGETS};
use gltf_json::validation::Index;

fn entry(key: &str, index: u32) -> (String, Index) {
    (key.to_string(), Index::new(index))
}

#[test]
fn morph_key_classification() {
    assert_eq!(MorphTarget::classify_key("POSITION"), MorphKey::Attribute(MorphAttribute::Positions));
    assert_eq!(MorphTarget::classify_key("NORMAL"), MorphKey::Attribute(MorphAttribute::Normals));
    assert_eq!(MorphTarget::classify_key("TANGENT"), MorphKey::Attribute(MorphAttribute::Tangents));
    assert_eq!(MorphTarget::classify_key("TEXCOORD_0"), MorphKey::Attribute(MorphAttribute::TexCoords(0)));
    assert_eq!(MorphTarget::classify_key("COLOR_12"), MorphKey::Attribute(MorphAttribute::Colors(12)));
    assert_eq!(MorphTarget::classify_key("TEXCOORD_x"), MorphKey::InvalidTexCoordSet);
    assert_eq!(MorphTarget::classify_key("TEXCOORD_"), MorphKey::InvalidTexCoordSet);
    assert_eq!(MorphTarget::classify_key("COLOR_4294967296"), MorphKey::InvalidColorSet);
    assert_eq!(MorphTarget::classify_key("JOINTS_0"), MorphKey::Unknown);
    assert_eq!(MorphTarget::classify_key("TEXCOORD"), MorphKey::Unknown);
    assert_eq!(MorphTarget::classify_key("_CUSTOM"), MorphKey::Unknown);
    assert_eq!(VALID_MORPH_TARGETS, ["POSITION", "NORMAL", "TANGENT", "TEXCOORD", "COLOR"]);
}

#[test]
fn morph_target_from_entries() {
    let entries = vec![
        entry("POSITION", 1),
        entry("TEXCOORD_0", 2),
        entry("COLOR_0", 3),
        entry("FUTURE_ATTRIBUTE", 9),
    ];
    let target = MorphTarget::from_entries(&entries).unwrap();
    assert_eq!(target.positions, Some(Index::new(1)));
    assert_eq!(target.normals, None);
    assert_eq!(target.tangents, None);
    assert_eq!(target.tex_coords.get(&0), Some(&Index::new(2)));
    assert_eq!(target.tex_coords.get(&1), None);
    assert_eq!(target.colors.get(&0), Some(&Index::new(3)));
    assert_eq!(target.colors.get(&1), None);
    assert_eq!(target.tex_coords.keys().copied().collect::<Vec<u32>>(), [0]);
    assert_eq!(target.colors.keys().copied().collect::<Vec<u32>>(), [0]);
}

#[test]
fn morph_target_later_entry_replaces_earlier() {
    let entries = vec![entry("NORMAL", 1), entry("NORMAL", 5), entry("COLOR_2", 3), entry("COLOR_+2", 4)];
    let target = MorphTarget::from_entries(&entries).unwrap();
    assert_eq!(target.normals, Some(Index::new(5)));
    assert_eq!(target.colors.len(), 1);
    assert_eq!(target.colors.get(&2), Some(&Index::new(4)));
}

#[test]
fn morph_target_invalid_set_index_is_refused() {
    let entries = vec![entry("POSITION", 1), entry("TEXCOORD_a", 2), entry("COLOR_b", 3)];
    match MorphTarget::from_entries(&entries) {
        Err(MorphTargetError::InvalidTexCoordSet(key)) => assert_eq!(key, "TEXCOORD_a"),
        _ => panic!("expected an invalid TEXCOORD set"),
    }
    let entries = vec![entry("COLOR_-1", 3)];
    match MorphTarget::from_entries(&entries) {
        Err(MorphTargetError::InvalidColorSet(key)) => assert_eq!(key, "COLOR_-1"),
        _ => panic!("expected an invalid COLOR set"),
    }
}

#[test]
fn morph_target_entries_are_ordered() {
    let mut target = MorphTarget::new();
    target.set_attribute(MorphAttribute::Colors(10), Index::new(7));
    target.set_attribute(MorphAttribute::TexCoords(3), Index::new(6));
    target.set_attribute(MorphAttribute::Tangents, Index::new(2));
    target.set_attribute(MorphAttribute::TexCoords(1), Index::new(5));
    target.set_attribute(MorphAttribute::Positions, Index::new(0));
    target.set_attribute(MorphAttribute::Colors(2), Index::new(8));
    let entries = target.entries();
    assert_eq!(
        entries,
        vec![
            entry("POSITION", 0),
            entry("TANGENT", 2),
            entry("TEXCOORD_1", 5),
            entry("TEXCOORD_3", 6),
            entry("COLOR_2", 8),
            entry("COLOR_10", 7),
        ]
    );
}

#[test]
fn morph_target_entries_roundtrip() {
    let mut tex_coords = BTreeMap::new();
    tex_coords.insert(0u32, Index::new(11));
    tex_coords.insert(4294967295u32, Index::new(12));
    let mut colors = BTreeMap::new();
    colors.insert(5u32, Index::new(13));
    let target = MorphTarget {
        positions: Some(Index::new(1)),
        normals: Some(Index::new(2)),
        tangents: None,
        tex_coords,
        colors,
    };
    let back = MorphTarget::from_entries(&target.entries()).unwrap();
    assert_eq!(back.positions, target.positions);
    assert_eq!(back.normals, target.normals);
    assert_eq!(back.tangents, target.tangents);
    assert_eq!(back.tex_coords, target.tex_coords);
    assert_eq!(back.colors, target.colors);
    assert!(MorphTarget::new().entries().is_empty());
}

#[test]
fn test_morph_target_tex_coords_and_colors() {
    // A morph target that defines `POSITION`, `TEXCOORD_0` and `COLOR_0`
    // displacements.
    let entries = vec![entry("POSITION", 3), entry("TEXCOORD_0", 4), entry("COLOR_0", 5)];
    let morph_target = MorphTarget::from_entries(&entries).unwrap();

    // POSITION displacement is present.
    assert!(morph_target.positions.is_some());
    assert!(morph_target.normals.is_none());
    assert!(morph_target.tangents.is_none());
    // TEXCOORD_0 displacement is present and accessible by its set.
    assert!(morph_target.tex_coords.get(&0).is_some());
    assert!(morph_target.tex_coords.get(&1).is_none());
    // COLOR_0 displacement is present and accessible by its set.
    assert!(morph_target.colors.get(&0).is_some());
    assert!(morph_target.colors.get(&1).is_none());

    // The sets are the expected ones.
    let tex_coords_sets: Vec<u32> = morph_target.tex_coords.keys().copied().collect();
    assert_eq!(tex_coords_sets, [0]);
    let colors_sets: Vec<u32> = morph_target.colors.keys().copied().collect();
    assert_eq!(colors_sets, [0]);
}
