//! Morph targets: the attribute dictionary of a morph target, read from and
//! written as a list of (attribute name, accessor) entries.

use vstd::prelude::*;
use vstd::std_specs::iter::IteratorSpec;

use std::collections::BTreeMap;

use crate::listing::{insert_all, is_listing, is_sorted_listing, lemma_btree_iter_sorted_listing, lemma_insert_listing};
use crate::decimal::{append_decimal, lemma_parse_decimal, has_prefix, parse_u32_at, spec_decimal, spec_parse_u32, starts_with_at};
use crate::semantic::str_equals;
use crate::validation::Index;

verus! {

broadcast use vstd::std_specs::btree::group_btree_axioms;

/// All valid base semantic names for Morph targets.
///
/// Per the glTF 2.0 specification, a morph target dictionary may contain
/// `POSITION`, `NORMAL`, `TANGENT`, plus numbered `TEXCOORD_<n>` and
/// `COLOR_<n>` attribute deviations.
pub const VALID_MORPH_TARGETS: [&'static str; 5] = ["POSITION", "NORMAL", "TANGENT", "TEXCOORD", "COLOR"];

/// A dictionary mapping attributes to their deviations in the Morph Target.
///
/// The fixed attributes `POSITION`, `NORMAL` and `TANGENT` each have a field;
/// the numbered attributes `TEXCOORD_<n>` and `COLOR_<n>` are stored in maps
/// keyed by the set index `n`.
#[derive(Clone, Debug)]
pub struct MorphTarget {
    /// XYZ vertex position displacements of type `[f32; 3]`.
    pub positions: Option<Index>,
    /// XYZ vertex normal displacements of type `[f32; 3]`.
    pub normals: Option<Index>,
    /// XYZ vertex tangent displacements of type `[f32; 3]`.
    pub tangents: Option<Index>,
    /// UV texture co-ordinate displacements of type `[f32; 2]`, keyed by
    /// `TEXCOORD_<n>` set index.
    pub tex_coords: BTreeMap<u32, Index>,
    /// Vertex color displacements of type `[f32; 3]` or `[f32; 4]` (RGB or
    /// RGBA), keyed by `COLOR_<n>` set index.
    pub colors: BTreeMap<u32, Index>,
}

/// The abstract contents of a morph target.
pub struct MorphTargetView {
    pub positions: Option<Index>,
    pub normals: Option<Index>,
    pub tangents: Option<Index>,
    pub tex_coords: Map<u32, Index>,
    pub colors: Map<u32, Index>,
}

impl View for MorphTarget {
    type V = MorphTargetView;

    open spec fn view(&self) -> MorphTargetView {
        MorphTargetView {
            positions: self.positions,
            normals: self.normals,
            tangents: self.tangents,
            tex_coords: self.tex_coords@,
            colors: self.colors@,
        }
    }
}

/// An attribute that a morph target can hold.
#[derive(Clone, Copy, Debug, PartialEq, Eq, Structural)]
pub enum MorphAttribute {
    /// `POSITION`.
    Positions,
    /// `NORMAL`.
    Normals,
    /// `TANGENT`.
    Tangents,
    /// `TEXCOORD_<n>`.
    TexCoords(u32),
    /// `COLOR_<n>`.
    Colors(u32),
}

/// What a key of a morph target dictionary stands for.
#[derive(Clone, Copy, Debug, PartialEq, Eq, Structural)]
pub enum MorphKey {
    /// An attribute of the morph target.
    Attribute(MorphAttribute),
    /// A `TEXCOORD_` key whose set index does not read as a `u32`.
    InvalidTexCoordSet,
    /// A `COLOR_` key whose set index does not read as a `u32`.
    InvalidColorSet,
    /// Any other key: its value is skipped.
    Unknown,
}

/// Why a morph target dictionary was refused; each variant holds the key.
#[derive(Clone, Debug)]
pub enum MorphTargetError {
    /// A `TEXCOORD_` key whose set index does not read as a `u32`.
    InvalidTexCoordSet(String),
    /// A `COLOR_` key whose set index does not read as a `u32`.
    InvalidColorSet(String),
}

/// The abstract contents of a `MorphTargetError`.
pub enum MorphTargetErrorView {
    InvalidTexCoordSet(Seq<char>),
    InvalidColorSet(Seq<char>),
}

impl View for MorphTargetError {
    type V = MorphTargetErrorView;

    open spec fn view(&self) -> MorphTargetErrorView {
        match self {
            MorphTargetError::InvalidTexCoordSet(key) => MorphTargetErrorView::InvalidTexCoordSet(key@),
            MorphTargetError::InvalidColorSet(key) => MorphTargetErrorView::InvalidColorSet(key@),
        }
    }
}

/// What the key `s` stands for: one of the fixed names; `TEXCOORD_<n>` or
/// `COLOR_<n>` with a set index `n` that reads as a `u32`; such a key whose
/// set index does not; or anything else.
pub open spec fn spec_classify_morph_key(s: Seq<char>) -> MorphKey {
    if s == "POSITION"@ {
        MorphKey::Attribute(MorphAttribute::Positions)
    } else if s == "NORMAL"@ {
        MorphKey::Attribute(MorphAttribute::Normals)
    } else if s == "TANGENT"@ {
        MorphKey::Attribute(MorphAttribute::Tangents)
    } else if has_prefix(s, "TEXCOORD_"@) {
        match spec_parse_u32(s.skip(9)) {
            Some(set) => MorphKey::Attribute(MorphAttribute::TexCoords(set)),
            None => MorphKey::InvalidTexCoordSet,
        }
    } else if has_prefix(s, "COLOR_"@) {
        match spec_parse_u32(s.skip(6)) {
            Some(set) => MorphKey::Attribute(MorphAttribute::Colors(set)),
            None => MorphKey::InvalidColorSet,
        }
    } else {
        MorphKey::Unknown
    }
}

/// The name of an attribute in a morph target dictionary.
pub open spec fn morph_attribute_name(a: MorphAttribute) -> Seq<char> {
    match a {
        MorphAttribute::Positions => "POSITION"@,
        MorphAttribute::Normals => "NORMAL"@,
        MorphAttribute::Tangents => "TANGENT"@,
        MorphAttribute::TexCoords(set) => "TEXCOORD_"@ + spec_decimal(set as nat),
        MorphAttribute::Colors(set) => "COLOR_"@ + spec_decimal(set as nat),
    }
}

/// The morph target with no attributes.
pub open spec fn empty_morph_target() -> MorphTargetView {
    MorphTargetView {
        positions: None,
        normals: None,
        tangents: None,
        tex_coords: Map::empty(),
        colors: Map::empty(),
    }
}

/// `t` with the attribute `a` set to `index`, replacing any earlier value.
pub open spec fn spec_set_attribute(t: MorphTargetView, a: MorphAttribute, index: Index) -> MorphTargetView {
    match a {
        MorphAttribute::Positions => MorphTargetView { positions: Some(index), ..t },
        MorphAttribute::Normals => MorphTargetView { normals: Some(index), ..t },
        MorphAttribute::Tangents => MorphTargetView { tangents: Some(index), ..t },
        MorphAttribute::TexCoords(set) => MorphTargetView { tex_coords: t.tex_coords.insert(set, index), ..t },
        MorphAttribute::Colors(set) => MorphTargetView { colors: t.colors.insert(set, index), ..t },
    }
}

/// Reads the entries in order into `start`: an attribute key sets that
/// attribute (a later entry replaces an earlier one), an unknown key is
/// skipped, and the first key with an unreadable set index is refused.
pub open spec fn spec_apply_entries(
    start: MorphTargetView,
    entries: Seq<(Seq<char>, Index)>,
) -> Result<MorphTargetView, MorphTargetErrorView>
    decreases entries.len(),
{
    if entries.len() == 0 {
        Ok(start)
    } else {
        match spec_apply_entries(start, entries.drop_last()) {
            Err(e) => Err(e),
            Ok(t) => {
                let (key, index) = entries.last();
                match spec_classify_morph_key(key) {
                    MorphKey::Attribute(a) => Ok(spec_set_attribute(t, a, index)),
                    MorphKey::InvalidTexCoordSet => Err(MorphTargetErrorView::InvalidTexCoordSet(key)),
                    MorphKey::InvalidColorSet => Err(MorphTargetErrorView::InvalidColorSet(key)),
                    MorphKey::Unknown => Ok(t),
                }
            },
        }
    }
}

/// The morph target that a dictionary with the entries `entries` describes.
pub open spec fn spec_from_entries(entries: Seq<(Seq<char>, Index)>) -> Result<MorphTargetView, MorphTargetErrorView> {
    spec_apply_entries(empty_morph_target(), entries)
}

/// The entries as abstract values.
pub open spec fn entries_view(entries: Seq<(String, Index)>) -> Seq<(Seq<char>, Index)> {
    entries.map_values(|e: (String, Index)| (e.0@, e.1))
}

impl MorphTarget {
    /// Creates a morph target with no attributes.
    pub fn new() -> (r: MorphTarget)
        ensures
            r@ == empty_morph_target(),
    {
        MorphTarget {
            positions: None,
            normals: None,
            tangents: None,
            tex_coords: BTreeMap::new(),
            colors: BTreeMap::new(),
        }
    }

    /// Tells what a key of a morph target dictionary stands for.
    pub fn classify_key(key: &str) -> (r: MorphKey)
        ensures
            r == spec_classify_morph_key(key@),
    {
        proof {
            reveal_strlit("POSITION");
            reveal_strlit("NORMAL");
            reveal_strlit("TANGENT");
            reveal_strlit("TEXCOORD_");
            reveal_strlit("COLOR_");
        }
        assert(key@.skip(0) =~= key@);
        if str_equals(key, "POSITION") {
            MorphKey::Attribute(MorphAttribute::Positions)
        } else if str_equals(key, "NORMAL") {
            MorphKey::Attribute(MorphAttribute::Normals)
        } else if str_equals(key, "TANGENT") {
            MorphKey::Attribute(MorphAttribute::Tangents)
        } else if starts_with_at(key, 0, "TEXCOORD_") {
            match parse_u32_at(key, 9) {
                Some(set) => MorphKey::Attribute(MorphAttribute::TexCoords(set)),
                None => MorphKey::InvalidTexCoordSet,
            }
        } else if starts_with_at(key, 0, "COLOR_") {
            match parse_u32_at(key, 6) {
                Some(set) => MorphKey::Attribute(MorphAttribute::Colors(set)),
                None => MorphKey::InvalidColorSet,
            }
        } else {
            MorphKey::Unknown
        }
    }

    /// Sets the attribute `attribute` to `index`, replacing any earlier value.
    pub fn set_attribute(&mut self, attribute: MorphAttribute, index: Index)
        ensures
            final(self)@ == spec_set_attribute(old(self)@, attribute, index),
    {
        match attribute {
            MorphAttribute::Positions => self.positions = Some(index),
            MorphAttribute::Normals => self.normals = Some(index),
            MorphAttribute::Tangents => self.tangents = Some(index),
            MorphAttribute::TexCoords(set) => {
                self.tex_coords.insert(set, index);
            },
            MorphAttribute::Colors(set) => {
                self.colors.insert(set, index);
            },
        }
    }

    /// Builds a morph target from the entries of its dictionary, in order:
    /// an attribute key sets that attribute (a later entry replaces an
    /// earlier one), an unknown key is skipped, and a `TEXCOORD_` or
    /// `COLOR_` key whose set index does not read as a `u32` is refused.
    pub fn from_entries(entries: &Vec<(String, Index)>) -> (r: Result<MorphTarget, MorphTargetError>)
        ensures
            match r {
                Ok(t) => spec_from_entries(entries_view(entries@)) == Ok::<MorphTargetView, MorphTargetErrorView>(t@),
                Err(e) => spec_from_entries(entries_view(entries@)) == Err::<MorphTargetView, MorphTargetErrorView>(e@),
            },
    {
        let mut target = MorphTarget::new();
        let n = entries.len();
        let ghost ev = entries_view(entries@);
        let mut i: usize = 0;
        while i < n
            invariant
                n == entries@.len(),
                ev == entries_view(entries@),
                i <= n,
                spec_apply_entries(empty_morph_target(), ev.take(i as int)) == Ok::<MorphTargetView, MorphTargetErrorView>(target@),
            decreases n - i,
        {
            let key = &entries[i].0;
            let index = entries[i].1;
            assert(ev.take(i + 1).drop_last() =~= ev.take(i as int));
            assert(ev.take(i + 1).last() == (key@, index));
            match MorphTarget::classify_key(key.as_str()) {
                MorphKey::Attribute(attribute) => target.set_attribute(attribute, index),
                MorphKey::InvalidTexCoordSet => {
                    proof {
                        lemma_apply_entries_error_persists(empty_morph_target(), ev, i as int + 1);
                    }
                    return Err(MorphTargetError::InvalidTexCoordSet(key.clone()));
                },
                MorphKey::InvalidColorSet => {
                    proof {
                        lemma_apply_entries_error_persists(empty_morph_target(), ev, i as int + 1);
                    }
                    return Err(MorphTargetError::InvalidColorSet(key.clone()));
                },
                MorphKey::Unknown => {},
            }
            i = i + 1;
        }
        assert(ev.take(n as int) =~= ev);
        Ok(target)
    }
}

/// The entry of a fixed attribute, if the morph target has it.
pub open spec fn optional_entry(name: Seq<char>, index: Option<Index>) -> Seq<(Seq<char>, Index)> {
    match index {
        Some(i) => seq![(name, i)],
        None => Seq::empty(),
    }
}

/// The entries of the fixed attributes, in the order `POSITION`, `NORMAL`, `TANGENT`.
pub open spec fn fixed_entries(t: MorphTargetView) -> Seq<(Seq<char>, Index)> {
    optional_entry("POSITION"@, t.positions) + optional_entry("NORMAL"@, t.normals)
        + optional_entry("TANGENT"@, t.tangents)
}

/// The entries of numbered attributes with the name prefix `prefix`, one per
/// listed (set index, accessor) pair, in the order of the listing.
pub open spec fn numbered_entries(prefix: Seq<char>, s: Seq<(u32, Index)>) -> Seq<(Seq<char>, Index)> {
    s.map_values(|p: (u32, Index)| (prefix + spec_decimal(p.0 as nat), p.1))
}

/// The entries that a morph target is written as, given listings of its
/// texture co-ordinate sets and its color sets: the fixed attributes, then
/// `TEXCOORD_<n>` for each listed set, then `COLOR_<n>` for each listed set.
pub open spec fn entries_layout(t: MorphTargetView, tex_coords: Seq<(u32, Index)>, colors: Seq<(u32, Index)>) -> Seq<(Seq<char>, Index)> {
    fixed_entries(t) + numbered_entries("TEXCOORD_"@, tex_coords) + numbered_entries("COLOR_"@, colors)
}

/// The name `prefix` followed by the decimal text of `set`.
fn numbered_name(prefix: &str, set: u32) -> (r: String)
    ensures
        r@ == prefix@ + spec_decimal(set as nat),
{
    let mut out = String::new();
    out.append(prefix);
    append_decimal(&mut out, set);
    assert(out@ =~= prefix@ + spec_decimal(set as nat));
    out
}

/// Appends the numbered entries of `map`, in increasing order of set index.
fn append_numbered(out: &mut Vec<(String, Index)>, prefix: &str, map: &BTreeMap<u32, Index>) -> (listing: Ghost<Seq<(u32, Index)>>)
    ensures
        is_sorted_listing(listing@, map@),
        entries_view(final(out)@) == entries_view(old(out)@) + numbered_entries(prefix@, listing@),
{
    let ghost start = entries_view(out@);
    let ghost mut listing: Seq<(u32, Index)> = Seq::empty();
    let iter = map.iter();
    let ghost all = iter.remaining().map_values(|p: (&u32, &Index)| (*p.0, *p.1));
    proof {
        assert(vstd::std_specs::btree::increasing_seq(iter.remaining().map_values(|kv: (&u32, &Index)| *kv.0)));
        lemma_btree_iter_sorted_listing(map, iter);
    }
    for item in it: iter
        invariant
            entries_view(out@) == start + numbered_entries(prefix@, listing),
            it.seq() == iter.remaining(),
            all == it.seq().map_values(|p: (&u32, &Index)| (*p.0, *p.1)),
            listing == all.take(it.index() as int),
    {
        let (set, index) = item;
        let name = numbered_name(prefix, *set);
        let ghost before = out@;
        out.push((name, *index));
        proof {
            assert(all[it.index() as int] == (*set, *index));
            assert(all.take(it.index() + 1) =~= listing.push((*set, *index)));
            listing = listing.push((*set, *index));
            assert(entries_view(out@) =~= entries_view(before).push((name@, *index)));
            assert(numbered_entries(prefix@, listing) =~= numbered_entries(prefix@, listing.drop_last()).push((prefix@ + spec_decimal(*set as nat), *index)));
        }
    }
    assert(listing =~= all);
    Ghost(listing)
}

/// The text `name` as a `String`.
fn owned_name(name: &str) -> (r: String)
    ensures
        r@ == name@,
{
    let mut out = String::new();
    out.append(name);
    assert(out@ =~= name@);
    out
}

impl MorphTarget {
    /// Returns the entries of the morph target's dictionary, in the order in
    /// which they are written: `POSITION`, `NORMAL` and `TANGENT` where
    /// present, then `TEXCOORD_<n>` for each texture co-ordinate set and
    /// `COLOR_<n>` for each color set, each by increasing set index.
    pub fn entries(&self) -> (r: Vec<(String, Index)>)
        ensures
            exists|tex_coords: Seq<(u32, Index)>, colors: Seq<(u32, Index)>|
                is_sorted_listing(tex_coords, self@.tex_coords) && is_sorted_listing(colors, self@.colors)
                    && entries_view(r@) == entries_layout(self@, tex_coords, colors),
    {
        proof {
            reveal_strlit("POSITION");
            reveal_strlit("NORMAL");
            reveal_strlit("TANGENT");
            reveal_strlit("TEXCOORD_");
            reveal_strlit("COLOR_");
        }
        let mut out: Vec<(String, Index)> = Vec::new();
        if let Some(p) = self.positions {
            out.push((owned_name("POSITION"), p));
        }
        let ghost after_positions = entries_view(out@);
        assert(after_positions =~= optional_entry("POSITION"@, self.positions));
        if let Some(n) = self.normals {
            out.push((owned_name("NORMAL"), n));
        }
        let ghost after_normals = entries_view(out@);
        assert(after_normals =~= after_positions + optional_entry("NORMAL"@, self.normals));
        if let Some(t) = self.tangents {
            out.push((owned_name("TANGENT"), t));
        }
        assert(entries_view(out@) =~= fixed_entries(self@));
        let tex_coords = append_numbered(&mut out, "TEXCOORD_", &self.tex_coords);
        let colors = append_numbered(&mut out, "COLOR_", &self.colors);
        assert(entries_view(out@) =~= entries_layout(self@, tex_coords@, colors@));
        out
    }
}

/// Once reading the entries has failed, reading more entries fails the same way.
proof fn lemma_apply_entries_error_persists(start: MorphTargetView, entries: Seq<(Seq<char>, Index)>, k: int)
    requires
        0 <= k <= entries.len(),
        spec_apply_entries(start, entries.take(k)) is Err,
    ensures
        spec_apply_entries(start, entries) == spec_apply_entries(start, entries.take(k)),
    decreases entries.len() - k,
{
    if k < entries.len() {
        assert(entries.take(k + 1).drop_last() =~= entries.take(k));
        lemma_apply_entries_error_persists(start, entries, k + 1);
    } else {
        assert(entries.take(k) =~= entries);
    }
}

/// Reading `a` and then `b` is reading `a + b`.
proof fn lemma_apply_concat(start: MorphTargetView, a: Seq<(Seq<char>, Index)>, b: Seq<(Seq<char>, Index)>)
    ensures
        spec_apply_entries(start, a + b) == match spec_apply_entries(start, a) {
            Ok(t) => spec_apply_entries(t, b),
            Err(e) => Err(e),
        },
    decreases b.len(),
{
    if b.len() == 0 {
        assert(a + b =~= a);
    } else {
        lemma_apply_concat(start, a, b.drop_last());
        assert((a + b).drop_last() =~= a + b.drop_last());
        assert((a + b).last() == b.last());
    }
}

/// The name of a numbered attribute reads as that attribute.
proof fn lemma_classify_numbered(set: u32)
    ensures
        spec_classify_morph_key("TEXCOORD_"@ + spec_decimal(set as nat)) == MorphKey::Attribute(MorphAttribute::TexCoords(set)),
        spec_classify_morph_key("COLOR_"@ + spec_decimal(set as nat)) == MorphKey::Attribute(MorphAttribute::Colors(set)),
{
    reveal_strlit("POSITION");
    reveal_strlit("NORMAL");
    reveal_strlit("TANGENT");
    reveal_strlit("TEXCOORD_");
    reveal_strlit("COLOR_");
    lemma_parse_decimal(set);
    let t = "TEXCOORD_"@ + spec_decimal(set as nat);
    let c = "COLOR_"@ + spec_decimal(set as nat);
    assert(t.subrange(0, 9) =~= "TEXCOORD_"@);
    assert(t.skip(9) =~= spec_decimal(set as nat));
    assert(c.subrange(0, 6) =~= "COLOR_"@);
    assert(c.skip(6) =~= spec_decimal(set as nat));
    assert(t[0] == 'T' && t[1] == 'E');
    assert(c[0] == 'C');
    assert(!has_prefix(c, "TEXCOORD_"@)) by {
        if c.len() >= 9 {
            assert(c.subrange(0, 9)[0] == 'C');
        }
    }
}

/// Reading the numbered entries of a listing inserts its pairs into the
/// matching map and changes nothing else.
proof fn lemma_apply_numbered(start: MorphTargetView, colors: bool, s: Seq<(u32, Index)>)
    ensures
        spec_apply_entries(start, numbered_entries(if colors { "COLOR_"@ } else { "TEXCOORD_"@ }, s)) == Ok::<MorphTargetView, MorphTargetErrorView>(
            if colors {
                MorphTargetView { colors: insert_all(start.colors, s), ..start }
            } else {
                MorphTargetView { tex_coords: insert_all(start.tex_coords, s), ..start }
            },
        ),
    decreases s.len(),
{
    let prefix = if colors { "COLOR_"@ } else { "TEXCOORD_"@ };
    let e = numbered_entries(prefix, s);
    if s.len() == 0 {
        assert(e =~= Seq::<(Seq<char>, Index)>::empty());
        assert(insert_all(start.colors, s) == start.colors);
        assert(insert_all(start.tex_coords, s) == start.tex_coords);
    } else {
        lemma_apply_numbered(start, colors, s.drop_last());
        assert(e.drop_last() =~= numbered_entries(prefix, s.drop_last()));
        assert(e.last() == (prefix + spec_decimal(s.last().0 as nat), s.last().1));
        lemma_classify_numbered(s.last().0);
    }
}

/// Reading the entries of the fixed attributes sets exactly those attributes.
proof fn lemma_apply_fixed(t: MorphTargetView)
    ensures
        spec_apply_entries(empty_morph_target(), fixed_entries(t)) == Ok::<MorphTargetView, MorphTargetErrorView>(
            MorphTargetView { tex_coords: Map::empty(), colors: Map::empty(), ..t },
        ),
{
    reveal_strlit("POSITION");
    reveal_strlit("NORMAL");
    reveal_strlit("TANGENT");
    reveal_strlit("TEXCOORD_");
    reveal_strlit("COLOR_");
    let p = optional_entry("POSITION"@, t.positions);
    let n = optional_entry("NORMAL"@, t.normals);
    let g = optional_entry("TANGENT"@, t.tangents);
    assert("NORMAL"@.len() == 6 && "POSITION"@.len() == 8 && "TANGENT"@.len() == 7);
    assert("NORMAL"@ != "POSITION"@ && "TANGENT"@ != "POSITION"@ && "TANGENT"@ != "NORMAL"@);
    assert(spec_classify_morph_key("POSITION"@) == MorphKey::Attribute(MorphAttribute::Positions));
    assert(spec_classify_morph_key("NORMAL"@) == MorphKey::Attribute(MorphAttribute::Normals));
    assert(spec_classify_morph_key("TANGENT"@) == MorphKey::Attribute(MorphAttribute::Tangents));
    let s0 = empty_morph_target();
    let s1 = MorphTargetView { positions: t.positions, ..s0 };
    let s2 = MorphTargetView { normals: t.normals, ..s1 };
    let s3 = MorphTargetView { tangents: t.tangents, ..s2 };
    assert(spec_apply_entries(s0, p) == Ok::<MorphTargetView, MorphTargetErrorView>(s1)) by {
        if p.len() == 1 {
            assert(p.drop_last() =~= Seq::<(Seq<char>, Index)>::empty());
            assert(spec_apply_entries(s0, p.drop_last()) == Ok::<MorphTargetView, MorphTargetErrorView>(s0));
        } else {
            assert(p =~= Seq::<(Seq<char>, Index)>::empty());
        }
    }
    assert(spec_apply_entries(s1, n) == Ok::<MorphTargetView, MorphTargetErrorView>(s2)) by {
        if n.len() == 1 {
            assert(n.drop_last() =~= Seq::<(Seq<char>, Index)>::empty());
            assert(spec_apply_entries(s1, n.drop_last()) == Ok::<MorphTargetView, MorphTargetErrorView>(s1));
        } else {
            assert(n =~= Seq::<(Seq<char>, Index)>::empty());
        }
    }
    assert(spec_apply_entries(s2, g) == Ok::<MorphTargetView, MorphTargetErrorView>(s3)) by {
        if g.len() == 1 {
            assert(g.drop_last() =~= Seq::<(Seq<char>, Index)>::empty());
            assert(spec_apply_entries(s2, g.drop_last()) == Ok::<MorphTargetView, MorphTargetErrorView>(s2));
        } else {
            assert(g =~= Seq::<(Seq<char>, Index)>::empty());
        }
    }
    lemma_apply_concat(s0, p, n);
    lemma_apply_concat(s0, p + n, g);
}

/// Reading back the entries that a morph target is written as gives the
/// morph target: for any listings of its texture co-ordinate sets and of
/// its color sets, the dictionary of its fixed attributes followed by the
/// listed numbered attributes describes exactly that morph target.
pub proof fn lemma_entries_roundtrip(t: MorphTargetView, tex_coords: Seq<(u32, Index)>, colors: Seq<(u32, Index)>)
    requires
        is_listing(tex_coords, t.tex_coords),
        is_listing(colors, t.colors),
    ensures
        spec_from_entries(entries_layout(t, tex_coords, colors)) == Ok::<MorphTargetView, MorphTargetErrorView>(t),
{
    let f = fixed_entries(t);
    let te = numbered_entries("TEXCOORD_"@, tex_coords);
    let ce = numbered_entries("COLOR_"@, colors);
    let s1 = MorphTargetView { tex_coords: Map::empty(), colors: Map::empty(), ..t };
    lemma_apply_fixed(t);
    lemma_apply_numbered(s1, false, tex_coords);
    let s2 = MorphTargetView { tex_coords: insert_all(Map::empty(), tex_coords), ..s1 };
    lemma_apply_numbered(s2, true, colors);
    lemma_insert_listing(tex_coords, t.tex_coords);
    lemma_insert_listing(colors, t.colors);
    lemma_apply_concat(empty_morph_target(), f, te);
    lemma_apply_concat(empty_morph_target(), f + te, ce);
}

/// Whether `name` begins with one of the base names in `VALID_MORPH_TARGETS`.
pub open spec fn has_listed_base(name: Seq<char>) -> bool {
    exists|j: int| 0 <= j < VALID_MORPH_TARGETS@.len() && has_prefix(name, #[trigger] VALID_MORPH_TARGETS@[j]@)
}

/// The base names as character sequences.
proof fn lemma_base_names()
    ensures
        VALID_MORPH_TARGETS@.len() == 5,
        VALID_MORPH_TARGETS@[0]@ == "POSITION"@,
        VALID_MORPH_TARGETS@[1]@ == "NORMAL"@,
        VALID_MORPH_TARGETS@[2]@ == "TANGENT"@,
        VALID_MORPH_TARGETS@[3]@ == "TEXCOORD"@,
        VALID_MORPH_TARGETS@[4]@ == "COLOR"@,
{
}

/// Every key that a morph target accepts as an attribute begins with one of
/// the base names in `VALID_MORPH_TARGETS`.
pub proof fn lemma_accepted_keys_have_listed_base(key: Seq<char>)
    ensures
        spec_classify_morph_key(key) is Attribute ==> has_listed_base(key),
{
    reveal_strlit("POSITION");
    reveal_strlit("NORMAL");
    reveal_strlit("TANGENT");
    reveal_strlit("TEXCOORD");
    reveal_strlit("COLOR");
    reveal_strlit("TEXCOORD_");
    reveal_strlit("COLOR_");
    lemma_base_names();
    if spec_classify_morph_key(key) is Attribute {
        if key == "POSITION"@ {
            assert(key.subrange(0, 8) =~= key);
            assert(has_prefix(key, VALID_MORPH_TARGETS@[0]@));
        } else if key == "NORMAL"@ {
            assert(key.subrange(0, 6) =~= key);
            assert(has_prefix(key, VALID_MORPH_TARGETS@[1]@));
        } else if key == "TANGENT"@ {
            assert(key.subrange(0, 7) =~= key);
            assert(has_prefix(key, VALID_MORPH_TARGETS@[2]@));
        } else if has_prefix(key, "TEXCOORD_"@) {
            assert(key.subrange(0, 8) =~= key.subrange(0, 9).subrange(0, 8));
            assert(key.subrange(0, 8) =~= "TEXCOORD"@);
            assert(has_prefix(key, VALID_MORPH_TARGETS@[3]@));
        } else {
            assert(has_prefix(key, "COLOR_"@));
            assert(key.subrange(0, 5) =~= key.subrange(0, 6).subrange(0, 5));
            assert(key.subrange(0, 5) =~= "COLOR"@);
            assert(has_prefix(key, VALID_MORPH_TARGETS@[4]@));
        }
    }
}

/// Every name that a morph target is written with begins with one of the base
/// names in `VALID_MORPH_TARGETS`.
pub proof fn lemma_written_names_have_listed_base(
    t: MorphTargetView,
    tex_coords: Seq<(u32, Index)>,
    colors: Seq<(u32, Index)>,
    i: int,
)
    requires
        0 <= i < entries_layout(t, tex_coords, colors).len(),
    ensures
        has_listed_base(entries_layout(t, tex_coords, colors)[i].0),
{
    reveal_strlit("POSITION");
    reveal_strlit("NORMAL");
    reveal_strlit("TANGENT");
    reveal_strlit("TEXCOORD_");
    reveal_strlit("COLOR_");
    let f = fixed_entries(t);
    let te = numbered_entries("TEXCOORD_"@, tex_coords);
    let ce = numbered_entries("COLOR_"@, colors);
    let e = entries_layout(t, tex_coords, colors);
    let name = e[i].0;
    if i < f.len() {
        assert(e[i] == f[i]);
        let p = optional_entry("POSITION"@, t.positions);
        let n = optional_entry("NORMAL"@, t.normals);
        let g = optional_entry("TANGENT"@, t.tangents);
        assert(f == p + n + g);
        assert(name == "POSITION"@ || name == "NORMAL"@ || name == "TANGENT"@) by {
            if i < p.len() {
                assert(f[i] == p[i]);
            } else if i < p.len() + n.len() {
                assert(f[i] == n[i - p.len()]);
            } else {
                assert(f[i] == g[i - p.len() - n.len()]);
            }
        }
    } else if i < f.len() + te.len() {
        let k = i - f.len();
        assert(e[i] == te[k]);
        lemma_classify_numbered(tex_coords[k].0);
    } else {
        let k = i - f.len() - te.len();
        assert(e[i] == ce[k]);
        lemma_classify_numbered(colors[k].0);
    }
    assert(spec_classify_morph_key("POSITION"@) is Attribute);
    assert("NORMAL"@.len() == 6 && "POSITION"@.len() == 8 && "TANGENT"@.len() == 7);
    assert(spec_classify_morph_key("NORMAL"@) is Attribute);
    assert(spec_classify_morph_key("TANGENT"@) is Attribute);
    lemma_accepted_keys_have_listed_base(name);
}

/// An entry whose key is not a morph target attribute is skipped: adding it
/// to a dictionary does not change what the dictionary describes.
pub proof fn lemma_unknown_entry_skipped(entries: Seq<(Seq<char>, Index)>, key: Seq<char>, index: Index)
    requires
        spec_classify_morph_key(key) is Unknown,
    ensures
        spec_from_entries(entries.push((key, index))) == spec_from_entries(entries),
{
    assert(entries.push((key, index)).drop_last() =~= entries);
}

/// The accessor that the morph target `t` holds for the attribute `a`, if any.
pub open spec fn attribute_value(t: MorphTargetView, a: MorphAttribute) -> Option<Index> {
    match a {
        MorphAttribute::Positions => t.positions,
        MorphAttribute::Normals => t.normals,
        MorphAttribute::Tangents => t.tangents,
        MorphAttribute::TexCoords(set) => if t.tex_coords.contains_key(set) {
            Some(t.tex_coords[set])
        } else {
            None
        },
        MorphAttribute::Colors(set) => if t.colors.contains_key(set) {
            Some(t.colors[set])
        } else {
            None
        },
    }
}

/// A morph target is determined by the accessors it holds for its attributes.
pub proof fn lemma_attribute_values_determine(t: MorphTargetView, u: MorphTargetView)
    requires
        forall|a: MorphAttribute| attribute_value(t, a) == attribute_value(u, a),
    ensures
        t == u,
{
    assert(t.positions == u.positions) by {
        assert(attribute_value(t, MorphAttribute::Positions) == attribute_value(u, MorphAttribute::Positions));
    }
    assert(t.normals == u.normals) by {
        assert(attribute_value(t, MorphAttribute::Normals) == attribute_value(u, MorphAttribute::Normals));
    }
    assert(t.tangents == u.tangents) by {
        assert(attribute_value(t, MorphAttribute::Tangents) == attribute_value(u, MorphAttribute::Tangents));
    }
    assert(t.tex_coords =~= u.tex_coords) by {
        assert forall|k: u32| #[trigger] t.tex_coords.contains_key(k) == u.tex_coords.contains_key(k)
            && (t.tex_coords.contains_key(k) ==> t.tex_coords[k] == u.tex_coords[k]) by {
            assert(attribute_value(t, MorphAttribute::TexCoords(k)) == attribute_value(u, MorphAttribute::TexCoords(k)));
        }
    }
    assert(t.colors =~= u.colors) by {
        assert forall|k: u32| #[trigger] t.colors.contains_key(k) == u.colors.contains_key(k)
            && (t.colors.contains_key(k) ==> t.colors[k] == u.colors[k]) by {
            assert(attribute_value(t, MorphAttribute::Colors(k)) == attribute_value(u, MorphAttribute::Colors(k)));
        }
    }
}

/// Setting an attribute gives it the new accessor and leaves every other
/// attribute (fixed or numbered) as it was.
pub proof fn lemma_set_attribute_frame(t: MorphTargetView, a: MorphAttribute, index: Index, b: MorphAttribute)
    ensures
        attribute_value(spec_set_attribute(t, a, index), b) == if b == a {
            Some(index)
        } else {
            attribute_value(t, b)
        },
{
}

/// Whether the entry at position `j` is the last entry that names attribute `a`.
pub open spec fn is_last_entry_for(entries: Seq<(Seq<char>, Index)>, a: MorphAttribute, j: int) -> bool {
    &&& 0 <= j < entries.len()
    &&& spec_classify_morph_key(entries[j].0) == MorphKey::Attribute(a)
    &&& forall|j2: int| j < j2 < entries.len() ==> spec_classify_morph_key(#[trigger] entries[j2].0) != MorphKey::Attribute(a)
}

/// Whether the key `key` has a set index that does not read as a `u32`.
pub open spec fn is_invalid_set_key(key: Seq<char>) -> bool {
    spec_classify_morph_key(key) == MorphKey::InvalidTexCoordSet || spec_classify_morph_key(key) == MorphKey::InvalidColorSet
}

/// The error that the invalid set key `key` is refused with.
pub open spec fn invalid_key_error(key: Seq<char>) -> MorphTargetErrorView {
    if spec_classify_morph_key(key) == MorphKey::InvalidTexCoordSet {
        MorphTargetErrorView::InvalidTexCoordSet(key)
    } else {
        MorphTargetErrorView::InvalidColorSet(key)
    }
}

/// Reading a morph target dictionary, in terms of its entries: it is refused
/// exactly when some key has an unreadable set index, and then with the first
/// such key; otherwise every attribute holds the accessor of the last entry
/// that names it, and an attribute that no entry names holds none. So the
/// result does not depend on the order of entries with distinct attributes.
pub proof fn lemma_from_entries_meaning(entries: Seq<(Seq<char>, Index)>)
    ensures
        spec_from_entries(entries) is Ok <==> forall|j: int| 0 <= j < entries.len() ==> !is_invalid_set_key(#[trigger] entries[j].0),
        forall|j: int| #![trigger entries[j]]
            0 <= j < entries.len() && is_invalid_set_key(entries[j].0)
                && (forall|j2: int| 0 <= j2 < j ==> !is_invalid_set_key(#[trigger] entries[j2].0))
                ==> spec_from_entries(entries) == Err::<MorphTargetView, MorphTargetErrorView>(invalid_key_error(entries[j].0)),
        spec_from_entries(entries) is Ok ==> forall|a: MorphAttribute, j: int|
            is_last_entry_for(entries, a, j) ==> attribute_value(#[trigger] spec_from_entries(entries)->Ok_0, a) == Some(entries[j].1),
        spec_from_entries(entries) is Ok ==> forall|a: MorphAttribute|
            (forall|j: int| 0 <= j < entries.len() ==> spec_classify_morph_key(#[trigger] entries[j].0) != MorphKey::Attribute(a))
                ==> attribute_value(#[trigger] spec_from_entries(entries)->Ok_0, a) is None,
    decreases entries.len(),
{
    if entries.len() == 0 {
    } else {
        let rest = entries.drop_last();
        let (key, index) = entries.last();
        let n = entries.len() - 1;
        lemma_from_entries_meaning(rest);
        assert forall|j: int| 0 <= j < rest.len() implies rest[j] == entries[j] by {}
        match spec_from_entries(rest) {
            Err(e) => {
                let j0 = choose|j: int| 0 <= j < rest.len() && is_invalid_set_key(#[trigger] rest[j].0);
                assert(entries[j0] == rest[j0]);
                assert forall|j: int| #![trigger entries[j]]
                    0 <= j < entries.len() && is_invalid_set_key(entries[j].0)
                        && (forall|j2: int| 0 <= j2 < j ==> !is_invalid_set_key(#[trigger] entries[j2].0))
                    implies spec_from_entries(entries) == Err::<MorphTargetView, MorphTargetErrorView>(invalid_key_error(entries[j].0)) by {
                    if j == n {
                        assert(!is_invalid_set_key(entries[j0].0));
                    } else {
                        assert(rest[j] == entries[j]);
                        assert forall|j2: int| 0 <= j2 < j implies !is_invalid_set_key(#[trigger] rest[j2].0) by {
                            assert(rest[j2] == entries[j2]);
                        }
                    }
                }
            },
            Ok(t) => {
                assert forall|j: int| 0 <= j < rest.len() implies !is_invalid_set_key(#[trigger] entries[j].0) by {
                    assert(rest[j] == entries[j]);
                }
                match spec_classify_morph_key(key) {
                    MorphKey::InvalidTexCoordSet => {
                        assert(is_invalid_set_key(entries[n].0));
                    },
                    MorphKey::InvalidColorSet => {
                        assert(is_invalid_set_key(entries[n].0));
                    },
                    _ => {
                        let r = spec_from_entries(entries)->Ok_0;
                        assert forall|j: int| 0 <= j < entries.len() implies !is_invalid_set_key(#[trigger] entries[j].0) by {
                            if j < n {
                                assert(rest[j] == entries[j]);
                            }
                        }
                        assert forall|a: MorphAttribute, j: int| is_last_entry_for(entries, a, j) implies attribute_value(#[trigger] spec_from_entries(entries)->Ok_0, a) == Some(entries[j].1) by {
                            if let MorphKey::Attribute(b) = spec_classify_morph_key(key) {
                                lemma_set_attribute_frame(t, b, index, a);
                            }
                            if j < n {
                                assert(spec_classify_morph_key(entries[n].0) != MorphKey::Attribute(a));
                                assert(is_last_entry_for(rest, a, j)) by {
                                    assert(rest[j] == entries[j]);
                                    assert forall|j2: int| j < j2 < rest.len() implies spec_classify_morph_key(#[trigger] rest[j2].0) != MorphKey::Attribute(a) by {
                                        assert(rest[j2] == entries[j2]);
                                    }
                                }
                            }
                        }
                        assert forall|a: MorphAttribute|
                            (forall|j: int| 0 <= j < entries.len() ==> spec_classify_morph_key(#[trigger] entries[j].0) != MorphKey::Attribute(a))
                            implies attribute_value(#[trigger] spec_from_entries(entries)->Ok_0, a) is None by {
                            assert(spec_classify_morph_key(entries[n].0) != MorphKey::Attribute(a));
                            if let MorphKey::Attribute(b) = spec_classify_morph_key(key) {
                                lemma_set_attribute_frame(t, b, index, a);
                            }
                            assert forall|j: int| 0 <= j < rest.len() implies spec_classify_morph_key(#[trigger] rest[j].0) != MorphKey::Attribute(a) by {
                                assert(rest[j] == entries[j]);
                            }
                        }
                    },
                }
            },
        }
    }
}

} // verus!
