//! Primitive rendering modes and their `GLenum` values.

use vstd::prelude::*;

use crate::validation::Checked;

verus! {

/// Corresponds to `GL_POINTS`.
pub const POINTS: u32 = 0;

/// Corresponds to `GL_LINES`.
pub const LINES: u32 = 1;

/// Corresponds to `GL_LINE_LOOP`.
pub const LINE_LOOP: u32 = 2;

/// Corresponds to `GL_LINE_STRIP`.
pub const LINE_STRIP: u32 = 3;

/// Corresponds to `GL_TRIANGLES`.
pub const TRIANGLES: u32 = 4;

/// Corresponds to `GL_TRIANGLE_STRIP`.
pub const TRIANGLE_STRIP: u32 = 5;

/// Corresponds to `GL_TRIANGLE_FAN`.
pub const TRIANGLE_FAN: u32 = 6;

/// All valid primitive rendering modes.
pub const VALID_MODES: [u32; 7] = [
    POINTS,
    LINES,
    LINE_LOOP,
    LINE_STRIP,
    TRIANGLES,
    TRIANGLE_STRIP,
    TRIANGLE_FAN,
];

/// The type of primitives to render. Its number in a document is its
/// `GLenum` value (see `as_gl_enum`).
#[derive(Clone, Copy, Debug, PartialEq, Eq, Hash, Structural)]
pub enum Mode {
    /// Corresponds to `GL_POINTS`.
    Points,
    /// Corresponds to `GL_LINES`.
    Lines,
    /// Corresponds to `GL_LINE_LOOP`.
    LineLoop,
    /// Corresponds to `GL_LINE_STRIP`.
    LineStrip,
    /// Corresponds to `GL_TRIANGLES`.
    Triangles,
    /// Corresponds to `GL_TRIANGLE_STRIP`.
    TriangleStrip,
    /// Corresponds to `GL_TRIANGLE_FAN`.
    TriangleFan,
}

/// Whether `value` is one of the `GLenum` values of a rendering mode.
pub open spec fn is_valid_mode_value(value: u32) -> bool {
    POINTS <= value && value <= TRIANGLE_FAN
}

impl Mode {
    /// The `GLenum` value of the mode.
    pub open spec fn spec_gl_enum(self) -> u32 {
        match self {
            Mode::Points => POINTS,
            Mode::Lines => LINES,
            Mode::LineLoop => LINE_LOOP,
            Mode::LineStrip => LINE_STRIP,
            Mode::Triangles => TRIANGLES,
            Mode::TriangleStrip => TRIANGLE_STRIP,
            Mode::TriangleFan => TRIANGLE_FAN,
        }
    }

    /// The mode whose `GLenum` value is `value`, or `Invalid` for any other value.
    pub open spec fn spec_checked_from_gl_enum(value: u32) -> Checked<Mode> {
        if value == POINTS {
            Checked::Valid(Mode::Points)
        } else if value == LINES {
            Checked::Valid(Mode::Lines)
        } else if value == LINE_LOOP {
            Checked::Valid(Mode::LineLoop)
        } else if value == LINE_STRIP {
            Checked::Valid(Mode::LineStrip)
        } else if value == TRIANGLES {
            Checked::Valid(Mode::Triangles)
        } else if value == TRIANGLE_STRIP {
            Checked::Valid(Mode::TriangleStrip)
        } else if value == TRIANGLE_FAN {
            Checked::Valid(Mode::TriangleFan)
        } else {
            Checked::Invalid
        }
    }

    /// Returns the equivalent `GLenum`.
    pub fn as_gl_enum(self) -> (r: u32)
        ensures
            r == self.spec_gl_enum(),
            is_valid_mode_value(r),
    {
        match self {
            Mode::Points => POINTS,
            Mode::Lines => LINES,
            Mode::LineLoop => LINE_LOOP,
            Mode::LineStrip => LINE_STRIP,
            Mode::Triangles => TRIANGLES,
            Mode::TriangleStrip => TRIANGLE_STRIP,
            Mode::TriangleFan => TRIANGLE_FAN,
        }
    }

    /// Reads a mode from the unsigned integer of a document: one of the
    /// values in `VALID_MODES` gives its mode, and every other value gives
    /// `Invalid`.
    pub fn checked_from_u64(value: u64) -> (r: Checked<Mode>)
        ensures
            value <= TRIANGLE_FAN ==> r == Mode::spec_checked_from_gl_enum(value as u32),
            value > TRIANGLE_FAN ==> r == Checked::<Mode>::Invalid,
            r is Valid <==> value <= TRIANGLE_FAN,
    {
        if value == POINTS as u64 {
            Checked::Valid(Mode::Points)
        } else if value == LINES as u64 {
            Checked::Valid(Mode::Lines)
        } else if value == LINE_LOOP as u64 {
            Checked::Valid(Mode::LineLoop)
        } else if value == LINE_STRIP as u64 {
            Checked::Valid(Mode::LineStrip)
        } else if value == TRIANGLES as u64 {
            Checked::Valid(Mode::Triangles)
        } else if value == TRIANGLE_STRIP as u64 {
            Checked::Valid(Mode::TriangleStrip)
        } else if value == TRIANGLE_FAN as u64 {
            Checked::Valid(Mode::TriangleFan)
        } else {
            Checked::Invalid
        }
    }
}

impl Default for Mode {
    /// The default rendering mode is `Triangles`.
    fn default() -> (r: Mode)
        ensures
            r == Mode::Triangles,
    {
        Mode::Triangles
    }
}

/// The mode that a primitive has when its document names none.
pub open spec fn spec_default_primitive_mode() -> Checked<Mode> {
    Checked::Valid(Mode::Triangles)
}

impl Default for Checked<Mode> {
    /// A primitive whose document names no mode renders triangles.
    fn default() -> (r: Checked<Mode>)
        ensures
            r == spec_default_primitive_mode(),
    {
        Checked::Valid(Mode::default())
    }
}

/// Whether the mode is the one that a primitive has when its document names
/// none, so that it need not be written.
pub fn is_primitive_mode_default(mode: &Checked<Mode>) -> (r: bool)
    ensures
        r == (*mode == spec_default_primitive_mode()),
{
    match mode {
        Checked::Valid(Mode::Triangles) => true,
        _ => false,
    }
}

/// Reading back the `GLenum` value of a mode gives the mode: a mode survives
/// being written as its number and read again.
pub proof fn lemma_gl_enum_roundtrip(mode: Mode)
    ensures
        Mode::spec_checked_from_gl_enum(mode.spec_gl_enum()) == Checked::Valid(mode),
{
}

/// The `GLenum` values of the modes are exactly the values listed in
/// `VALID_MODES`.
pub proof fn lemma_valid_modes(mode: Mode, value: u32)
    ensures
        VALID_MODES@.contains(mode.spec_gl_enum()),
        VALID_MODES@.contains(value) <==> is_valid_mode_value(value),
        VALID_MODES@.contains(value) <==> Mode::spec_checked_from_gl_enum(value) is Valid,
{
    assert(VALID_MODES@[mode.spec_gl_enum() as int] == mode.spec_gl_enum());
    if is_valid_mode_value(value) {
        assert(VALID_MODES@[value as int] == value);
    }
}

/// Distinct modes have distinct `GLenum` values.
pub proof fn lemma_gl_enum_injective(a: Mode, b: Mode)
    ensures
        a.spec_gl_enum() == b.spec_gl_enum() ==> a == b,
{
}

} // verus!
