use gltf_json::mode::{
    is_primitive_mode_default, Mode, LINES, LINE_LOOP, LINE_STRIP, POINTS, TRIANGLES, TRIANGLE_FAN,
    TRIANGLE_STRIP, VALID_MODES,
};
use gltf_json::validation::Checked;

const ALL_MODES: [Mode; 7] = [
    Mode::Points,
    Mode::Lines,
    Mode::LineLoop,
    Mode::LineStrip,
    Mode::Triangles,
    Mode::TriangleStrip,
    Mode::TriangleFan,
];

#[test]
fn mode_gl_enum_values() {
    assert_eq!(Mode::Points.as_gl_enum(), POINTS);
    assert_eq!(Mode::Lines.as_gl_enum(), LINES);
    assert_eq!(Mode::LineLoop.as_gl_enum(), LINE_LOOP);
    assert_eq!(Mode::LineStrip.as_gl_enum(), LINE_STRIP);
    assert_eq!(Mode::Triangles.as_gl_enum(), TRIANGLES);
    assert_eq!(Mode::TriangleStrip.as_gl_enum(), TRIANGLE_STRIP);
    assert_eq!(Mode::TriangleFan.as_gl_enum(), TRIANGLE_FAN);
    assert_eq!(Mode::Triangles.as_gl_enum(), 4);
    assert_eq!(Mode::TriangleFan.as_gl_enum(), 6);
}

#[test]
fn mode_read_back_from_gl_enum() {
    for mode in ALL_MODES {
        assert_eq!(Mode::checked_from_u64(mode.as_gl_enum() as u64), Checked::Valid(mode));
        assert!(VALID_MODES.contains(&mode.as_gl_enum()));
    }
}

#[test]
fn mode_from_unknown_value_is_invalid() {
    assert_eq!(Mode::checked_from_u64(7), Checked::Invalid);
    assert_eq!(Mode::checked_from_u64(100), Checked::Invalid);
    assert_eq!(Mode::checked_from_u64(u64::MAX), Checked::Invalid);
}

#[test]
fn mode_values_above_u32_are_invalid() {
    assert_eq!(Mode::checked_from_u64((1u64 << 32) + 4), Checked::Invalid);
    assert_eq!(Mode::checked_from_u64(1u64 << 32), Checked::Invalid);
    assert_eq!(Mode::checked_from_u64(u32::MAX as u64), Checked::Invalid);
}

#[test]
fn mode_default_is_triangles() {
    assert_eq!(Mode::default(), Mode::Triangles);
    assert_eq!(Checked::<Mode>::default(), Checked::Valid(Mode::Triangles));
}

#[test]
fn primitive_mode_default_detection() {
    assert!(is_primitive_mode_default(&Checked::Valid(Mode::Triangles)));
    assert!(is_primitive_mode_default(&Checked::default()));
    assert!(!is_primitive_mode_default(&Checked::Valid(Mode::Points)));
    assert!(!is_primitive_mode_default(&Checked::Valid(Mode::TriangleStrip)));
    assert!(!is_primitive_mode_default(&Checked::Invalid));
}
