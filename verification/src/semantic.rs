//! Vertex attribute semantic names: reading them from text, writing them as
//! text, and the keys by which a primitive orders its attributes.

use vstd::prelude::*;

use crate::decimal::{append_decimal, has_prefix, parse_u32_at, spec_decimal, spec_parse_u32, starts_with_at, lemma_parse_decimal};
use crate::validation::Checked;

verus! {

/// Vertex attribute semantic name.
///
/// Application-specific attribute names (those that begin with `_`) have no
/// semantic here: they read as `Invalid`.
#[derive(Clone, Copy, Debug, PartialEq, Eq, Hash, PartialOrd, Ord, Structural)]
pub enum Semantic {
    /// XYZ vertex positions.
    Positions,
    /// XYZ vertex normals.
    Normals,
    /// XYZW vertex tangents where the `w` component is a sign value indicating the
    /// handedness of the tangent basis.
    Tangents,
    /// RGB or RGBA vertex color.
    Colors(u32),
    /// UV texture co-ordinates.
    TexCoords(u32),
    /// Joint indices.
    Joints(u32),
    /// Joint weights.
    Weights(u32),
}

/// The text that an invalid semantic name is written as.
pub open spec fn invalid_semantic_text() -> Seq<char> {
    "<invalid semantic name>"@
}

/// The name under which a document stores the attribute `s`.
pub open spec fn semantic_name(s: Semantic) -> Seq<char> {
    match s {
        Semantic::Positions => "POSITION"@,
        Semantic::Normals => "NORMAL"@,
        Semantic::Tangents => "TANGENT"@,
        Semantic::Colors(set) => "COLOR_"@ + spec_decimal(set as nat),
        Semantic::TexCoords(set) => "TEXCOORD_"@ + spec_decimal(set as nat),
        Semantic::Joints(set) => "JOINTS_"@ + spec_decimal(set as nat),
        Semantic::Weights(set) => "WEIGHTS_"@ + spec_decimal(set as nat),
    }
}

/// The text of a checked semantic: its name, or a marker for an invalid one.
pub open spec fn checked_semantic_name(c: Checked<Semantic>) -> Seq<char> {
    match c {
        Checked::Valid(s) => semantic_name(s),
        Checked::Invalid => invalid_semantic_text(),
    }
}

/// The semantic that a set-numbered name denotes, given the text after its prefix.
pub open spec fn numbered_semantic(rest: Seq<char>, make: spec_fn(u32) -> Semantic) -> Checked<Semantic> {
    match spec_parse_u32(rest) {
        Some(set) => Checked::Valid(make(set)),
        None => Checked::Invalid,
    }
}

/// The semantic that the attribute name `s` denotes: one of the fixed names,
/// or a numbered name whose set index reads as a `u32`; `Invalid` otherwise.
pub open spec fn spec_checked_semantic(s: Seq<char>) -> Checked<Semantic> {
    if s == "NORMAL"@ {
        Checked::Valid(Semantic::Normals)
    } else if s == "POSITION"@ {
        Checked::Valid(Semantic::Positions)
    } else if s == "TANGENT"@ {
        Checked::Valid(Semantic::Tangents)
    } else if has_prefix(s, "COLOR_"@) {
        numbered_semantic(s.skip(6), |n: u32| Semantic::Colors(n))
    } else if has_prefix(s, "TEXCOORD_"@) {
        numbered_semantic(s.skip(9), |n: u32| Semantic::TexCoords(n))
    } else if has_prefix(s, "JOINTS_"@) {
        numbered_semantic(s.skip(7), |n: u32| Semantic::Joints(n))
    } else if has_prefix(s, "WEIGHTS_"@) {
        numbered_semantic(s.skip(8), |n: u32| Semantic::Weights(n))
    } else {
        Checked::Invalid
    }
}

/// Tells whether `s` is exactly `p`.
pub fn str_equals(s: &str, p: &str) -> (r: bool)
    ensures
        r == (s@ == p@),
{
    if s.unicode_len() != p.unicode_len() {
        return false;
    }
    let r = starts_with_at(s, 0, p);
    assert(s@.skip(0) =~= s@);
    assert(r ==> s@.subrange(0, p@.len() as int) =~= s@);
    r
}

impl Semantic {
    /// Reads an attribute semantic name.
    pub fn checked(s: &str) -> (r: Checked<Semantic>)
        ensures
            r == spec_checked_semantic(s@),
    {
        proof {
            reveal_strlit("NORMAL");
            reveal_strlit("POSITION");
            reveal_strlit("TANGENT");
            reveal_strlit("COLOR_");
            reveal_strlit("TEXCOORD_");
            reveal_strlit("JOINTS_");
            reveal_strlit("WEIGHTS_");
        }
        if str_equals(s, "NORMAL") {
            Checked::Valid(Semantic::Normals)
        } else if str_equals(s, "POSITION") {
            Checked::Valid(Semantic::Positions)
        } else if str_equals(s, "TANGENT") {
            Checked::Valid(Semantic::Tangents)
        } else if starts_with_at(s, 0, "COLOR_") {
            assert(s@.skip(0) =~= s@);
            match parse_u32_at(s, 6) {
                Some(set) => Checked::Valid(Semantic::Colors(set)),
                None => Checked::Invalid,
            }
        } else if starts_with_at(s, 0, "TEXCOORD_") {
            assert(s@.skip(0) =~= s@);
            match parse_u32_at(s, 9) {
                Some(set) => Checked::Valid(Semantic::TexCoords(set)),
                None => Checked::Invalid,
            }
        } else if starts_with_at(s, 0, "JOINTS_") {
            assert(s@.skip(0) =~= s@);
            match parse_u32_at(s, 7) {
                Some(set) => Checked::Valid(Semantic::Joints(set)),
                None => Checked::Invalid,
            }
        } else if starts_with_at(s, 0, "WEIGHTS_") {
            assert(s@.skip(0) =~= s@);
            match parse_u32_at(s, 8) {
                Some(set) => Checked::Valid(Semantic::Weights(set)),
                None => Checked::Invalid,
            }
        } else {
            assert(s@.skip(0) =~= s@);
            Checked::Invalid
        }
    }

    /// Returns the name under which a document stores the attribute.
    pub fn to_string(&self) -> (r: String)
        ensures
            r@ == semantic_name(*self),
    {
        let mut out = String::new();
        match *self {
            Semantic::Positions => out.append("POSITION"),
            Semantic::Normals => out.append("NORMAL"),
            Semantic::Tangents => out.append("TANGENT"),
            Semantic::Colors(set) => {
                out.append("COLOR_");
                append_decimal(&mut out, set);
            },
            Semantic::TexCoords(set) => {
                out.append("TEXCOORD_");
                append_decimal(&mut out, set);
            },
            Semantic::Joints(set) => {
                out.append("JOINTS_");
                append_decimal(&mut out, set);
            },
            Semantic::Weights(set) => {
                out.append("WEIGHTS_");
                append_decimal(&mut out, set);
            },
        }
        assert(out@ =~= semantic_name(*self));
        out
    }
}

impl Checked<Semantic> {
    /// Returns the name of a valid semantic, or a marker text for an invalid one.
    pub fn to_string(&self) -> (r: String)
        ensures
            r@ == checked_semantic_name(*self),
    {
        match self {
            Checked::Valid(semantic) => semantic.to_string(),
            Checked::Invalid => {
                let mut out = String::new();
                out.append("<invalid semantic name>");
                assert(out@ =~= invalid_semantic_text());
                out
            },
        }
    }
}

/// Reading a numbered name gives its semantic back.
proof fn lemma_numbered_name(prefix: Seq<char>, set: u32)
    ensures
        has_prefix(prefix + spec_decimal(set as nat), prefix),
        (prefix + spec_decimal(set as nat)).skip(prefix.len() as int) == spec_decimal(set as nat),
        spec_parse_u32((prefix + spec_decimal(set as nat)).skip(prefix.len() as int)) == Some(set),
{
    let s = prefix + spec_decimal(set as nat);
    assert(s.subrange(0, prefix.len() as int) =~= prefix);
    assert(s.skip(prefix.len() as int) =~= spec_decimal(set as nat));
    lemma_parse_decimal(set);
}

/// Writing a checked semantic as text and reading the text back gives the
/// same checked semantic; in particular the marker text of an invalid
/// semantic reads as invalid.
pub proof fn lemma_semantic_text_roundtrip(c: Checked<Semantic>)
    ensures
        spec_checked_semantic(checked_semantic_name(c)) == c,
{
    reveal_strlit("NORMAL");
    reveal_strlit("POSITION");
    reveal_strlit("TANGENT");
    reveal_strlit("COLOR_");
    reveal_strlit("TEXCOORD_");
    reveal_strlit("JOINTS_");
    reveal_strlit("WEIGHTS_");
    reveal_strlit("<invalid semantic name>");
    let s = checked_semantic_name(c);
    match c {
        Checked::Valid(Semantic::Colors(set)) => {
            lemma_numbered_name("COLOR_"@, set);
            assert(s[0] == 'C');
        },
        Checked::Valid(Semantic::TexCoords(set)) => {
            lemma_numbered_name("TEXCOORD_"@, set);
            assert(s[0] == 'T' && s[1] == 'E');
            assert(!has_prefix(s, "COLOR_"@)) by {
                assert(s.subrange(0, 6)[0] == 'T');
            }
        },
        Checked::Valid(Semantic::Joints(set)) => {
            lemma_numbered_name("JOINTS_"@, set);
            assert(s[0] == 'J');
            assert(!has_prefix(s, "COLOR_"@)) by {
                assert(s.subrange(0, 6)[0] == 'J');
            }
            assert(!has_prefix(s, "TEXCOORD_"@)) by {
                if s.len() >= 9 {
                    assert(s.subrange(0, 9)[0] == 'J');
                }
            }
        },
        Checked::Valid(Semantic::Weights(set)) => {
            lemma_numbered_name("WEIGHTS_"@, set);
            assert(s[0] == 'W');
            assert(!has_prefix(s, "COLOR_"@)) by {
                assert(s.subrange(0, 6)[0] == 'W');
            }
            assert(!has_prefix(s, "TEXCOORD_"@)) by {
                if s.len() >= 9 {
                    assert(s.subrange(0, 9)[0] == 'W');
                }
            }
            assert(!has_prefix(s, "JOINTS_"@)) by {
                assert(s.subrange(0, 7)[0] == 'W');
            }
        },
        Checked::Invalid => {
            assert(s[0] == '<');
            assert(!has_prefix(s, "COLOR_"@)) by {
                assert(s.subrange(0, 6)[0] == '<');
            }
            assert(!has_prefix(s, "TEXCOORD_"@)) by {
                assert(s.subrange(0, 9)[0] == '<');
            }
            assert(!has_prefix(s, "JOINTS_"@)) by {
                assert(s.subrange(0, 7)[0] == '<');
            }
            assert(!has_prefix(s, "WEIGHTS_"@)) by {
                assert(s.subrange(0, 8)[0] == '<');
            }
        },
        _ => {},
    }
}

/// The key under which a primitive stores the attribute `c`: the position of
/// the variant in declaration order (valid semantics first, in the order of
/// `Semantic`'s variants, then `Invalid`) and the set index of a numbered
/// semantic (0 for the others).
pub open spec fn spec_attribute_key(c: Checked<Semantic>) -> (u32, u32) {
    match c {
        Checked::Valid(Semantic::Positions) => (0, 0),
        Checked::Valid(Semantic::Normals) => (1, 0),
        Checked::Valid(Semantic::Tangents) => (2, 0),
        Checked::Valid(Semantic::Colors(set)) => (3, set),
        Checked::Valid(Semantic::TexCoords(set)) => (4, set),
        Checked::Valid(Semantic::Joints(set)) => (5, set),
        Checked::Valid(Semantic::Weights(set)) => (6, set),
        Checked::Invalid => (7, 0),
    }
}

/// The checked semantic that an attribute key stands for; a key that no
/// semantic has stands for `Invalid`.
pub open spec fn spec_semantic_of_key(key: (u32, u32)) -> Checked<Semantic> {
    if key.0 == 0 {
        Checked::Valid(Semantic::Positions)
    } else if key.0 == 1 {
        Checked::Valid(Semantic::Normals)
    } else if key.0 == 2 {
        Checked::Valid(Semantic::Tangents)
    } else if key.0 == 3 {
        Checked::Valid(Semantic::Colors(key.1))
    } else if key.0 == 4 {
        Checked::Valid(Semantic::TexCoords(key.1))
    } else if key.0 == 5 {
        Checked::Valid(Semantic::Joints(key.1))
    } else if key.0 == 6 {
        Checked::Valid(Semantic::Weights(key.1))
    } else {
        Checked::Invalid
    }
}

impl Checked<Semantic> {
    /// Returns the key under which a primitive stores this attribute.
    pub fn attribute_key(&self) -> (r: (u32, u32))
        ensures
            r == spec_attribute_key(*self),
    {
        match self {
            Checked::Valid(Semantic::Positions) => (0, 0),
            Checked::Valid(Semantic::Normals) => (1, 0),
            Checked::Valid(Semantic::Tangents) => (2, 0),
            Checked::Valid(Semantic::Colors(set)) => (3, *set),
            Checked::Valid(Semantic::TexCoords(set)) => (4, *set),
            Checked::Valid(Semantic::Joints(set)) => (5, *set),
            Checked::Valid(Semantic::Weights(set)) => (6, *set),
            Checked::Invalid => (7, 0),
        }
    }

    /// Returns the checked semantic that a primitive's attribute key stands for.
    pub fn from_attribute_key(key: (u32, u32)) -> (r: Checked<Semantic>)
        ensures
            r == spec_semantic_of_key(key),
    {
        if key.0 == 0 {
            Checked::Valid(Semantic::Positions)
        } else if key.0 == 1 {
            Checked::Valid(Semantic::Normals)
        } else if key.0 == 2 {
            Checked::Valid(Semantic::Tangents)
        } else if key.0 == 3 {
            Checked::Valid(Semantic::Colors(key.1))
        } else if key.0 == 4 {
            Checked::Valid(Semantic::TexCoords(key.1))
        } else if key.0 == 5 {
            Checked::Valid(Semantic::Joints(key.1))
        } else if key.0 == 6 {
            Checked::Valid(Semantic::Weights(key.1))
        } else {
            Checked::Invalid
        }
    }
}

/// Every checked semantic is recovered from its attribute key, so distinct
/// semantics never share a key.
pub proof fn lemma_attribute_key_roundtrip(c: Checked<Semantic>)
    ensures
        spec_semantic_of_key(spec_attribute_key(c)) == c,
{
}

} // verus!
