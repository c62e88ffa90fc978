//! Mesh primitives and their validation.

use vstd::prelude::*;

use std::collections::BTreeMap;

use crate::json::{json_reads_as_vec3, reads_as_vec3};
use crate::listing::{is_sorted_listing, is_sorted_pair_listing, pair_key_lt, lemma_btree_iter_sorted_listing, lemma_btree_pair_iter_sorted_listing};
use crate::mode::Mode;
use crate::morph::{attribute_value, MorphAttribute, MorphTarget, MorphTargetView};
use crate::semantic::{spec_attribute_key, spec_semantic_of_key, Semantic};
use vstd::std_specs::iter::IteratorSpec;
use crate::validation::{Checked, Error, Index};

verus! {

broadcast use vstd::std_specs::btree::group_btree_axioms;

/// Geometry to be rendered with the given material.
#[derive(Clone, Debug)]
pub struct Primitive {
    /// Maps attribute semantic names, by their attribute keys (see
    /// `Checked::<Semantic>::attribute_key`), to the `Accessor`s containing
    /// the corresponding attribute data.
    pub attributes: BTreeMap<(u32, u32), Index>,
    /// The index of the accessor that contains the indices.
    pub indices: Option<Index>,
    /// The index of the material to apply to this primitive when rendering.
    pub material: Option<Index>,
    /// The type of primitives to render.
    pub mode: Checked<Mode>,
    /// An array of Morph Targets.
    pub targets: Option<Vec<MorphTarget>>,
}

/// The value that `map` holds under `key`, if any.
pub open spec fn map_lookup(map: Map<(u32, u32), Index>, key: (u32, u32)) -> Option<Index> {
    if map.contains_key(key) {
        Some(map[key])
    } else {
        None
    }
}

impl Primitive {
    /// Returns the accessor of the attribute `semantic`, if the primitive has one.
    pub fn get_attribute(&self, semantic: &Checked<Semantic>) -> (r: Option<Index>)
        ensures
            r == map_lookup(self.attributes@, spec_attribute_key(*semantic)),
    {
        let key = semantic.attribute_key();
        match self.attributes.get(&key) {
            Some(index) => Some(*index),
            None => None,
        }
    }

    /// Sets the accessor of the attribute `semantic`, replacing any earlier one.
    pub fn insert_attribute(&mut self, semantic: &Checked<Semantic>, index: Index)
        ensures
            final(self).attributes@ == old(self).attributes@.insert(spec_attribute_key(*semantic), index),
            final(self).indices == old(self).indices,
            final(self).material == old(self).material,
            final(self).mode == old(self).mode,
            final(self).targets == old(self).targets,
    {
        let key = semantic.attribute_key();
        self.attributes.insert(key, index);
    }
}

/// The `min` and `max` properties of an accessor, as the JSON text of each.
pub struct AccessorBounds {
    /// The JSON text of the accessor's `min` property, if it has one.
    pub min: Option<String>,
    /// The JSON text of the accessor's `max` property, if it has one.
    pub max: Option<String>,
}

/// The abstract contents of `AccessorBounds`.
pub struct AccessorBoundsView {
    pub min: Option<Seq<char>>,
    pub max: Option<Seq<char>>,
}

impl View for AccessorBounds {
    type V = AccessorBoundsView;

    open spec fn view(&self) -> AccessorBoundsView {
        AccessorBoundsView { min: self.min.deep_view(), max: self.max.deep_view() }
    }
}

/// Where, below a primitive, validation found a problem.
#[derive(Clone, Copy, Debug, PartialEq, Eq, Structural)]
pub enum PositionField {
    /// `attributes.POSITION` of the primitive.
    Attribute,
    /// `attributes.POSITION.min`: the `min` of the position accessor.
    Min,
    /// `attributes.POSITION.max`: the `max` of the position accessor.
    Max,
}

/// A problem that validation reports, with where it was found.
#[derive(Clone, Copy, Debug, PartialEq, Eq, Structural)]
pub struct Report {
    /// Where the problem was found.
    pub field: PositionField,
    /// What the problem is.
    pub error: Error,
}

/// What is reported of one bound of the position accessor, given whether it
/// is present and, if so, whether it reads as a three-component vector.
pub open spec fn spec_bound_report(field: PositionField, reads: Option<bool>) -> Option<Report> {
    match reads {
        None => Some(Report { field, error: Error::Missing }),
        Some(true) => None,
        Some(false) => Some(Report { field, error: Error::Invalid }),
    }
}

/// Whether a bound is present and, if so, whether its text reads as a vector.
pub open spec fn bound_reads(bound: Option<Seq<char>>) -> Option<bool> {
    match bound {
        None => None,
        Some(text) => Some(json_reads_as_vec3(text)),
    }
}

/// The reports as a sequence.
pub open spec fn report_seq(r: Option<Report>) -> Seq<Report> {
    match r {
        None => Seq::empty(),
        Some(report) => seq![report],
    }
}

/// The reports of validating the positions of a primitive with the attribute
/// map `attributes`, against the bounds of the document's accessors: a
/// missing `POSITION` attribute is reported; if it refers to no accessor,
/// nothing is reported here (the accessor index itself is checked
/// elsewhere); otherwise the accessor's `min` and then its `max` must each
/// be present and read as a three-component vector.
pub open spec fn spec_validate_positions(
    attributes: Map<(u32, u32), Index>,
    accessors: Seq<AccessorBoundsView>,
) -> Seq<Report> {
    let key = spec_attribute_key(Checked::Valid(Semantic::Positions));
    if !attributes.contains_key(key) {
        seq![Report { field: PositionField::Attribute, error: Error::Missing }]
    } else {
        let i = attributes[key].index;
        if i >= accessors.len() {
            Seq::empty()
        } else {
            report_seq(spec_bound_report(PositionField::Min, bound_reads(accessors[i as int].min)))
                + report_seq(spec_bound_report(PositionField::Max, bound_reads(accessors[i as int].max)))
        }
    }
}

/// Decides what to report of one bound of the position accessor: `None`
/// when the bound is absent, `Some(reads)` when it is present and `reads`
/// tells whether it reads as a three-component vector.
pub fn bound_report(field: PositionField, reads: Option<bool>) -> (r: Option<Report>)
    ensures
        r == spec_bound_report(field, reads),
{
    match reads {
        None => Some(Report { field, error: Error::Missing }),
        Some(true) => None,
        Some(false) => Some(Report { field, error: Error::Invalid }),
    }
}

/// Checks one bound of the position accessor and says what to report of it.
pub fn check_bound(field: PositionField, bound: &Option<String>) -> (r: Option<Report>)
    ensures
        r == spec_bound_report(field, bound_reads(bound.deep_view())),
{
    match bound {
        None => bound_report(field, None),
        Some(text) => {
            let reads = reads_as_vec3(text.as_str());
            bound_report(field, Some(reads))
        },
    }
}

/// Validates the positions of a mesh primitive: the `POSITION` attribute
/// must be present, and the accessor it refers to must have `min` and `max`
/// properties that read as three-component vectors. Returns what it
/// reports, in order. An attribute that refers past the end of `accessors`
/// is left to the validation of accessor indices, and nothing is reported
/// here.
pub fn primitive_validate_hook(primitive: &Primitive, accessors: &Vec<AccessorBounds>) -> (reports: Vec<Report>)
    ensures
        reports@ == spec_validate_positions(primitive.attributes@, accessors@.map_values(|a: AccessorBounds| a@)),
{
    let mut reports: Vec<Report> = Vec::new();
    match primitive.get_attribute(&Checked::Valid(Semantic::Positions)) {
        None => {
            reports.push(Report { field: PositionField::Attribute, error: Error::Missing });
            assert(reports@ =~= seq![Report { field: PositionField::Attribute, error: Error::Missing }]);
        },
        Some(index) => {
            let i = index.value();
            if i < accessors.len() {
                let accessor = &accessors[i];
                if let Some(report) = check_bound(PositionField::Min, &accessor.min) {
                    reports.push(report);
                }
                if let Some(report) = check_bound(PositionField::Max, &accessor.max) {
                    reports.push(report);
                }
                assert(accessors@.map_values(|a: AccessorBounds| a@)[i as int] == accessors@[i as int]@);
            }
        },
    }
    reports
}

/// Where, in a primitive, validation found a problem.
#[derive(Clone, Copy, Debug, PartialEq, Eq, Structural)]
pub enum PrimitiveField {
    /// `attributes[<name>]`: the attribute stored under the attribute key
    /// made of these two numbers.
    Attribute(u32, u32),
    /// `indices`.
    Indices,
    /// `material`.
    Material,
    /// `mode`.
    Mode,
    /// `targets[<i>]`, the given attribute of the morph target at position `i`.
    Target(usize, MorphAttribute),
    /// What the validation of the primitive's positions found.
    Position(PositionField),
}

/// A problem found in a primitive, with where it was found.
#[derive(Clone, Copy, Debug, PartialEq, Eq, Structural)]
pub struct PrimitiveReport {
    /// Where the problem was found.
    pub field: PrimitiveField,
    /// What the problem is.
    pub error: Error,
}

/// An index refers to nothing when it is not below the number of items.
pub open spec fn index_reports(field: PrimitiveField, index: Index, count: nat) -> Seq<PrimitiveReport> {
    if (index.index as nat) < count {
        Seq::empty()
    } else {
        seq![PrimitiveReport { field, error: Error::IndexOutOfBounds }]
    }
}

/// The reports of an optional index.
pub open spec fn optional_index_reports(field: PrimitiveField, index: Option<Index>, count: nat) -> Seq<PrimitiveReport> {
    match index {
        Some(i) => index_reports(field, i, count),
        None => Seq::empty(),
    }
}

/// The reports of the attributes, listed by increasing key: for each, an
/// invalid semantic name, then an accessor index past the accessors.
pub open spec fn attribute_reports(listing: Seq<((u32, u32), Index)>, count: nat) -> Seq<PrimitiveReport>
    decreases listing.len(),
{
    if listing.len() == 0 {
        Seq::empty()
    } else {
        let (key, index) = listing.last();
        let name_reports = if spec_semantic_of_key(key) is Invalid {
            seq![PrimitiveReport { field: PrimitiveField::Attribute(key.0, key.1), error: Error::Invalid }]
        } else {
            Seq::empty()
        };
        attribute_reports(listing.drop_last(), count) + name_reports + index_reports(PrimitiveField::Attribute(key.0, key.1), index, count)
    }
}

/// The report of an invalid rendering mode.
pub open spec fn mode_reports(mode: Checked<Mode>) -> Seq<PrimitiveReport> {
    match mode {
        Checked::Valid(_) => Seq::empty(),
        Checked::Invalid => seq![PrimitiveReport { field: PrimitiveField::Mode, error: Error::Invalid }],
    }
}

/// The attribute of a numbered morph target set.
pub open spec fn numbered_attribute(colors: bool, set: u32) -> MorphAttribute {
    if colors {
        MorphAttribute::Colors(set)
    } else {
        MorphAttribute::TexCoords(set)
    }
}

/// The reports of the listed numbered sets of the morph target at `target`.
pub open spec fn numbered_reports(target: usize, colors: bool, listing: Seq<(u32, Index)>, count: nat) -> Seq<PrimitiveReport>
    decreases listing.len(),
{
    if listing.len() == 0 {
        Seq::empty()
    } else {
        numbered_reports(target, colors, listing.drop_last(), count) + index_reports(
            PrimitiveField::Target(target, numbered_attribute(colors, listing.last().0)),
            listing.last().1,
            count,
        )
    }
}

/// The reports of the morph target `t` at position `target`, given listings of
/// its texture co-ordinate and color sets: its accessor indices in the order
/// positions, normals, tangents, texture co-ordinates, colors.
pub open spec fn target_reports(
    target: usize,
    t: MorphTargetView,
    listings: (Seq<(u32, Index)>, Seq<(u32, Index)>),
    count: nat,
) -> Seq<PrimitiveReport> {
    optional_index_reports(PrimitiveField::Target(target, MorphAttribute::Positions), t.positions, count)
        + optional_index_reports(PrimitiveField::Target(target, MorphAttribute::Normals), t.normals, count)
        + optional_index_reports(PrimitiveField::Target(target, MorphAttribute::Tangents), t.tangents, count)
        + numbered_reports(target, false, listings.0, count)
        + numbered_reports(target, true, listings.1, count)
}

/// The reports of all morph targets, in order.
pub open spec fn targets_reports(
    targets: Seq<MorphTargetView>,
    listings: Seq<(Seq<(u32, Index)>, Seq<(u32, Index)>)>,
    count: nat,
) -> Seq<PrimitiveReport>
    decreases targets.len(),
{
    if targets.len() == 0 {
        Seq::empty()
    } else {
        let last = (targets.len() - 1) as int;
        targets_reports(targets.drop_last(), listings, count) + target_reports(
            last as usize,
            targets[last],
            listings[last],
            count,
        )
    }
}

/// Whether `listings` lists, for each morph target, its texture co-ordinate
/// sets and its color sets by increasing set index (and may go on further).
pub open spec fn covers_target_listings(
    targets: Seq<MorphTargetView>,
    listings: Seq<(Seq<(u32, Index)>, Seq<(u32, Index)>)>,
) -> bool {
    &&& targets.len() <= listings.len()
    &&& forall|i: int| 0 <= i < targets.len() ==> {
        &&& is_sorted_listing(#[trigger] listings[i].0, targets[i].tex_coords)
        &&& is_sorted_listing(listings[i].1, targets[i].colors)
    }
}

/// Whether `listings` lists, for each morph target, its texture co-ordinate
/// sets and its color sets by increasing set index.
pub open spec fn are_target_listings(
    targets: Seq<MorphTargetView>,
    listings: Seq<(Seq<(u32, Index)>, Seq<(u32, Index)>)>,
) -> bool {
    &&& listings.len() == targets.len()
    &&& covers_target_listings(targets, listings)
}

/// Listings that cover some targets cover all but the last of them.
proof fn lemma_covers_drop_last(targets: Seq<MorphTargetView>, listings: Seq<(Seq<(u32, Index)>, Seq<(u32, Index)>)>)
    requires
        covers_target_listings(targets, listings),
        targets.len() > 0,
    ensures
        covers_target_listings(targets.drop_last(), listings),
        is_sorted_listing(listings[targets.len() - 1].0, targets[targets.len() - 1].tex_coords),
        is_sorted_listing(listings[targets.len() - 1].1, targets[targets.len() - 1].colors),
{
    let rest = targets.drop_last();
    assert forall|i: int| 0 <= i < rest.len() implies {
        &&& is_sorted_listing(#[trigger] listings[i].0, rest[i].tex_coords)
        &&& is_sorted_listing(listings[i].1, rest[i].colors)
    } by {
        assert(rest[i] == targets[i]);
        assert(rest[i].tex_coords == targets[i].tex_coords);
        assert(rest[i].colors == targets[i].colors);
        assert(is_sorted_listing(listings[i].0, targets[i].tex_coords));
        assert(is_sorted_listing(listings[i].1, targets[i].colors));
    }
    assert(is_sorted_listing(listings[targets.len() - 1].0, targets[targets.len() - 1].tex_coords));
}

/// The morph targets of a primitive, as abstract values.
pub open spec fn targets_view(targets: Option<Vec<MorphTarget>>) -> Seq<MorphTargetView> {
    match targets {
        Some(ts) => ts@.map_values(|t: MorphTarget| t@),
        None => Seq::empty(),
    }
}

/// The reports of the position validation, as reports on the primitive.
pub open spec fn position_reports(reports: Seq<Report>) -> Seq<PrimitiveReport> {
    reports.map_values(|r: Report| PrimitiveReport { field: PrimitiveField::Position(r.field), error: r.error })
}

/// The reports of validating a primitive with the attribute map
/// `attributes` (listed by increasing key in `attribute_listing`), the given
/// `indices`, `material` and `mode`, and the morph targets `targets` (their
/// numbered sets listed in `target_listings`), in a document with the
/// accessors `accessors` and `material_count` materials: the attributes, the
/// indices, the material, the mode, the morph targets, and last the
/// positions.
pub open spec fn spec_primitive_reports(
    attributes: Map<(u32, u32), Index>,
    attribute_listing: Seq<((u32, u32), Index)>,
    indices: Option<Index>,
    material: Option<Index>,
    mode: Checked<Mode>,
    targets: Seq<MorphTargetView>,
    target_listings: Seq<(Seq<(u32, Index)>, Seq<(u32, Index)>)>,
    accessors: Seq<AccessorBoundsView>,
    material_count: nat,
) -> Seq<PrimitiveReport> {
    attribute_reports(attribute_listing, accessors.len())
        + optional_index_reports(PrimitiveField::Indices, indices, accessors.len())
        + optional_index_reports(PrimitiveField::Material, material, material_count)
        + mode_reports(mode)
        + targets_reports(targets, target_listings, accessors.len())
        + position_reports(spec_validate_positions(attributes, accessors))
}

/// Appends the reports of one optional index.
fn append_index_report(out: &mut Vec<PrimitiveReport>, field: PrimitiveField, index: Option<Index>, count: usize)
    ensures
        final(out)@ == old(out)@ + optional_index_reports(field, index, count as nat),
{
    if let Some(i) = index {
        if i.value() >= count {
            out.push(PrimitiveReport { field, error: Error::IndexOutOfBounds });
        }
    }
    assert(out@ =~= old(out)@ + optional_index_reports(field, index, count as nat));
}

/// Appends the reports of the attributes, by increasing key.
fn append_attribute_reports(out: &mut Vec<PrimitiveReport>, attributes: &BTreeMap<(u32, u32), Index>, count: usize) -> (listing: Ghost<Seq<((u32, u32), Index)>>)
    ensures
        is_sorted_pair_listing(listing@, attributes@),
        final(out)@ == old(out)@ + attribute_reports(listing@, count as nat),
{
    let ghost start = out@;
    let ghost mut listing: Seq<((u32, u32), Index)> = Seq::empty();
    let iter = attributes.iter();
    let ghost all = iter.remaining().map_values(|p: (&(u32, u32), &Index)| (*p.0, *p.1));
    proof {
        assert(vstd::std_specs::btree::increasing_seq(iter.remaining().map_values(|kv: (&(u32, u32), &Index)| *kv.0)));
        lemma_btree_pair_iter_sorted_listing(attributes, iter);
    }
    for item in it: iter
        invariant
            out@ == start + attribute_reports(listing, count as nat),
            it.seq() == iter.remaining(),
            all == it.seq().map_values(|p: (&(u32, u32), &Index)| (*p.0, *p.1)),
            listing == all.take(it.index() as int),
    {
        let (key, index) = item;
        let ghost before = out@;
        if let Checked::Invalid = Checked::<Semantic>::from_attribute_key(*key) {
            out.push(PrimitiveReport { field: PrimitiveField::Attribute(key.0, key.1), error: Error::Invalid });
        }
        let ghost middle = out@;
        if index.value() >= count {
            out.push(PrimitiveReport { field: PrimitiveField::Attribute(key.0, key.1), error: Error::IndexOutOfBounds });
        }
        proof {
            assert(all[it.index() as int] == (*key, *index));
            assert(all.take(it.index() + 1) =~= listing.push((*key, *index)));
            let next = listing.push((*key, *index));
            assert(next.drop_last() =~= listing);
            listing = next;
            assert(out@ =~= start + attribute_reports(listing, count as nat));
        }
    }
    assert(listing =~= all);
    Ghost(listing)
}

/// Appends the reports of the numbered sets `map` of the morph target at `target`.
fn append_numbered_reports(
    out: &mut Vec<PrimitiveReport>,
    target: usize,
    colors: bool,
    map: &BTreeMap<u32, Index>,
    count: usize,
) -> (listing: Ghost<Seq<(u32, Index)>>)
    ensures
        is_sorted_listing(listing@, map@),
        final(out)@ == old(out)@ + numbered_reports(target, colors, listing@, count as nat),
{
    let ghost start = out@;
    let ghost mut listing: Seq<(u32, Index)> = Seq::empty();
    let iter = map.iter();
    let ghost all = iter.remaining().map_values(|p: (&u32, &Index)| (*p.0, *p.1));
    proof {
        assert(vstd::std_specs::btree::increasing_seq(iter.remaining().map_values(|kv: (&u32, &Index)| *kv.0)));
        lemma_btree_iter_sorted_listing(map, iter);
    }
    for item in it: iter
        invariant
            out@ == start + numbered_reports(target, colors, listing, count as nat),
            it.seq() == iter.remaining(),
            all == it.seq().map_values(|p: (&u32, &Index)| (*p.0, *p.1)),
            listing == all.take(it.index() as int),
    {
        let (set, index) = item;
        if index.value() >= count {
            let attribute = if colors { MorphAttribute::Colors(*set) } else { MorphAttribute::TexCoords(*set) };
            out.push(PrimitiveReport { field: PrimitiveField::Target(target, attribute), error: Error::IndexOutOfBounds });
        }
        proof {
            assert(all[it.index() as int] == (*set, *index));
            assert(all.take(it.index() + 1) =~= listing.push((*set, *index)));
            let next = listing.push((*set, *index));
            assert(next.drop_last() =~= listing);
            listing = next;
            assert(out@ =~= start + numbered_reports(target, colors, listing, count as nat));
        }
    }
    assert(listing =~= all);
    Ghost(listing)
}

/// Appends the reports of the morph target `t` at position `target`.
fn append_target_reports(out: &mut Vec<PrimitiveReport>, target: usize, t: &MorphTarget, count: usize) -> (listings: Ghost<(Seq<(u32, Index)>, Seq<(u32, Index)>)>)
    ensures
        is_sorted_listing(listings@.0, t@.tex_coords),
        is_sorted_listing(listings@.1, t@.colors),
        final(out)@ == old(out)@ + target_reports(target, t@, listings@, count as nat),
{
    let ghost start = out@;
    append_index_report(out, PrimitiveField::Target(target, MorphAttribute::Positions), t.positions, count);
    append_index_report(out, PrimitiveField::Target(target, MorphAttribute::Normals), t.normals, count);
    append_index_report(out, PrimitiveField::Target(target, MorphAttribute::Tangents), t.tangents, count);
    let tex_coords = append_numbered_reports(out, target, false, &t.tex_coords, count);
    let colors = append_numbered_reports(out, target, true, &t.colors, count);
    assert(out@ =~= start + target_reports(target, t@, (tex_coords@, colors@), count as nat));
    Ghost((tex_coords@, colors@))
}

impl Primitive {
    /// Validates the primitive against a document with the accessors
    /// `accessors` and `material_count` materials, and returns what it
    /// reports, in order: for each attribute by increasing key, an invalid
    /// semantic name and then an accessor index past the accessors; the
    /// `indices` accessor; the material; an invalid rendering mode; the
    /// accessors of each morph target in turn; and last what the validation
    /// of the positions reports (see `primitive_validate_hook`).
    pub fn validate(&self, accessors: &Vec<AccessorBounds>, material_count: usize) -> (reports: Vec<PrimitiveReport>)
        ensures
            exists|attributes: Seq<((u32, u32), Index)>, targets: Seq<(Seq<(u32, Index)>, Seq<(u32, Index)>)>| {
                &&& is_sorted_pair_listing(attributes, self.attributes@)
                &&& are_target_listings(targets_view(self.targets), targets)
                &&& reports@ == spec_primitive_reports(
                    self.attributes@,
                    attributes,
                    self.indices,
                    self.material,
                    self.mode,
                    targets_view(self.targets),
                    targets,
                    accessors@.map_values(|a: AccessorBounds| a@),
                    material_count as nat,
                )
            },
    {
        let count = accessors.len();
        let mut out: Vec<PrimitiveReport> = Vec::new();
        let attributes = append_attribute_reports(&mut out, &self.attributes, count);
        append_index_report(&mut out, PrimitiveField::Indices, self.indices, count);
        append_index_report(&mut out, PrimitiveField::Material, self.material, material_count);
        if let Checked::Invalid = self.mode {
            out.push(PrimitiveReport { field: PrimitiveField::Mode, error: Error::Invalid });
        }
        let ghost before_targets = out@;
        assert(before_targets =~= attribute_reports(attributes@, count as nat)
            + optional_index_reports(PrimitiveField::Indices, self.indices, count as nat)
            + optional_index_reports(PrimitiveField::Material, self.material, material_count as nat)
            + mode_reports(self.mode));
        let ghost mut listings: Seq<(Seq<(u32, Index)>, Seq<(u32, Index)>)> = Seq::empty();
        match &self.targets {
            Some(targets) => {
                let n = targets.len();
                let mut i: usize = 0;
                while i < n
                    invariant
                        n == targets@.len(),
                        i <= n,
                        targets_view(self.targets) == targets@.map_values(|t: MorphTarget| t@),
                        are_target_listings(targets_view(self.targets).take(i as int), listings),
                        out@ == before_targets + targets_reports(targets_view(self.targets).take(i as int), listings, count as nat),
                    decreases n - i,
                {
                    let ghost old_out = out@;
                    let l = append_target_reports(&mut out, i, &targets[i], count);
                    proof {
                        let tv = targets_view(self.targets);
                        let prev = listings;
                        let next = listings.push(l@);
                        assert(tv.take(i + 1).drop_last() =~= tv.take(i as int));
                        assert(tv.take(i + 1)[i as int] == targets@[i as int]@);
                        assert(targets_reports(tv.take(i as int), next, count as nat) == targets_reports(tv.take(i as int), listings, count as nat)) by {
                            lemma_targets_reports_prefix(tv.take(i as int), listings, next, count as nat);
                        }
                        listings = next;
                        assert(out@ =~= before_targets + targets_reports(tv.take(i + 1), listings, count as nat));
                        assert(are_target_listings(tv.take(i + 1), listings)) by {
                            assert forall|j: int| 0 <= j < i + 1 implies {
                                &&& is_sorted_listing(#[trigger] listings[j].0, tv.take(i + 1)[j].tex_coords)
                                &&& is_sorted_listing(listings[j].1, tv.take(i + 1)[j].colors)
                            } by {
                                if j < i {
                                    assert(tv.take(i + 1)[j] == tv.take(i as int)[j]);
                                    assert(listings[j] == prev[j]);
                                    assert(is_sorted_listing(prev[j].0, tv.take(i as int)[j].tex_coords));
                                } else {
                                    assert(listings[j] == l@);
                                }
                            }
                        }
                    }
                    i = i + 1;
                }
                assert(targets_view(self.targets).take(n as int) =~= targets_view(self.targets));
            },
            None => {
                assert(targets_view(self.targets) =~= Seq::<MorphTargetView>::empty());
            },
        }
        let ghost before_positions = out@;
        let positions = primitive_validate_hook(self, accessors);
        let m = positions.len();
        let mut k: usize = 0;
        while k < m
            invariant
                m == positions@.len(),
                k <= m,
                out@ == before_positions + position_reports(positions@.take(k as int)),
            decreases m - k,
        {
            let r = positions[k];
            out.push(PrimitiveReport { field: PrimitiveField::Position(r.field), error: r.error });
            assert(positions@.take(k + 1) =~= positions@.take(k as int).push(r));
            assert(out@ =~= before_positions + position_reports(positions@.take(k + 1)));
            k = k + 1;
        }
        assert(positions@.take(m as int) =~= positions@);
        assert(out@ =~= attribute_reports(attributes@, count as nat)
            + optional_index_reports(PrimitiveField::Indices, self.indices, count as nat)
            + optional_index_reports(PrimitiveField::Material, self.material, material_count as nat)
            + mode_reports(self.mode)
            + targets_reports(targets_view(self.targets), listings, count as nat)
            + position_reports(spec_validate_positions(self.attributes@, accessors@.map_values(|a: AccessorBounds| a@))));
        assert(accessors@.map_values(|a: AccessorBounds| a@).len() == count);
        assert(is_sorted_pair_listing(attributes@, self.attributes@));
        assert(are_target_listings(targets_view(self.targets), listings));
        assert(out@ == spec_primitive_reports(
            self.attributes@,
            attributes@,
            self.indices,
            self.material,
            self.mode,
            targets_view(self.targets),
            listings,
            accessors@.map_values(|a: AccessorBounds| a@),
            material_count as nat,
        ));
        out
    }
}

/// The reports of the first targets do not depend on listings of later ones.
proof fn lemma_targets_reports_prefix(
    targets: Seq<MorphTargetView>,
    a: Seq<(Seq<(u32, Index)>, Seq<(u32, Index)>)>,
    b: Seq<(Seq<(u32, Index)>, Seq<(u32, Index)>)>,
    count: nat,
)
    requires
        targets.len() <= a.len(),
        targets.len() <= b.len(),
        forall|j: int| 0 <= j < targets.len() ==> a[j] == b[j],
    ensures
        targets_reports(targets, a, count) == targets_reports(targets, b, count),
    decreases targets.len(),
{
    if targets.len() > 0 {
        lemma_targets_reports_prefix(targets.drop_last(), a, b, count);
    }
}

/// What one bound of the position accessor owes: presence, and reading as
/// a three-component vector.
pub open spec fn bound_report_owed(bound: Option<Seq<char>>, field: PositionField, r: Report) -> bool {
    ||| (bound is None && r == Report { field, error: Error::Missing })
    ||| (bound matches Some(text) && !json_reads_as_vec3(text) && r == Report { field, error: Error::Invalid })
}

/// The position validation, in terms of its inputs. A primitive without a
/// `POSITION` attribute gets exactly the report that it is missing. One whose
/// `POSITION` refers to no accessor gets none here. Otherwise each bound of
/// the accessor is checked on its own: a missing `min` (or `max`) is always
/// reported as missing, and a present one that does not read as three
/// numbers as invalid, whatever the other bound is; nothing else is
/// reported, and a `min` report comes before a `max` report.
pub proof fn lemma_validate_positions_meaning(attributes: Map<(u32, u32), Index>, accessors: Seq<AccessorBoundsView>)
    ensures
        ({
            let reports = spec_validate_positions(attributes, accessors);
            let key = spec_attribute_key(Checked::Valid(Semantic::Positions));
            &&& !attributes.contains_key(key) ==> reports == seq![Report { field: PositionField::Attribute, error: Error::Missing }]
            &&& attributes.contains_key(key) && attributes[key].index >= accessors.len() ==> reports.len() == 0
            &&& attributes.contains_key(key) && attributes[key].index < accessors.len() ==> {
                let a = accessors[attributes[key].index as int];
                &&& forall|r: Report| reports.contains(r) <==> (bound_report_owed(a.min, PositionField::Min, r) || bound_report_owed(a.max, PositionField::Max, r))
                &&& reports.len() <= 2
                &&& reports.len() == 2 ==> reports[0].field == PositionField::Min && reports[1].field == PositionField::Max
                &&& (reports.len() == 0 <==> (a.min matches Some(t) && json_reads_as_vec3(t)) && (a.max matches Some(t) && json_reads_as_vec3(t)))
            }
        }),
{
    let reports = spec_validate_positions(attributes, accessors);
    let key = spec_attribute_key(Checked::Valid(Semantic::Positions));
    if attributes.contains_key(key) && attributes[key].index < accessors.len() {
        let a = accessors[attributes[key].index as int];
        let mins = report_seq(spec_bound_report(PositionField::Min, bound_reads(a.min)));
        let maxs = report_seq(spec_bound_report(PositionField::Max, bound_reads(a.max)));
        assert(reports == mins + maxs);
        assert forall|r: Report| reports.contains(r) <==> (bound_report_owed(a.min, PositionField::Min, r) || bound_report_owed(a.max, PositionField::Max, r)) by {
            if reports.contains(r) {
                let j = choose|j: int| 0 <= j < reports.len() && reports[j] == r;
                if j < mins.len() {
                    assert(mins[j] == r);
                } else {
                    assert(maxs[j - mins.len()] == r);
                }
            }
            if bound_report_owed(a.min, PositionField::Min, r) {
                assert(reports[0] == r);
            } else if bound_report_owed(a.max, PositionField::Max, r) {
                assert(reports[mins.len() as int] == r);
            }
        }
    }
}

/// What `x` is in two joined sequences.
proof fn lemma_contains_add(a: Seq<PrimitiveReport>, b: Seq<PrimitiveReport>, x: PrimitiveReport)
    ensures
        (a + b).contains(x) <==> a.contains(x) || b.contains(x),
{
    if (a + b).contains(x) {
        let j = choose|j: int| 0 <= j < (a + b).len() && (a + b)[j] == x;
        if j < a.len() {
            assert(a[j] == x);
        } else {
            assert(b[j - a.len()] == x);
        }
    }
    if a.contains(x) {
        let j = choose|j: int| 0 <= j < a.len() && a[j] == x;
        assert((a + b)[j] == x);
    }
    if b.contains(x) {
        let j = choose|j: int| 0 <= j < b.len() && b[j] == x;
        assert((a + b)[a.len() + j] == x);
    }
}

/// What the report of an optional index holds.
proof fn lemma_optional_index_reports(field: PrimitiveField, index: Option<Index>, count: nat, x: PrimitiveReport)
    ensures
        optional_index_reports(field, index, count).contains(x) <==> (index matches Some(i) && i.index >= count
            && x == (PrimitiveReport { field, error: Error::IndexOutOfBounds })),
{
    if index matches Some(i) && i.index >= count {
        assert(optional_index_reports(field, index, count)[0] == PrimitiveReport { field, error: Error::IndexOutOfBounds });
    }
}

/// What one listed attribute owes.
pub open spec fn attribute_report_owed(key: (u32, u32), index: Index, count: nat, x: PrimitiveReport) -> bool {
    ||| (x == PrimitiveReport { field: PrimitiveField::Attribute(key.0, key.1), error: Error::Invalid }
        && spec_semantic_of_key(key) is Invalid)
    ||| (x == PrimitiveReport { field: PrimitiveField::Attribute(key.0, key.1), error: Error::IndexOutOfBounds }
        && index.index >= count)
}

/// The attribute reports are what the listed attributes owe.
proof fn lemma_attribute_reports(listing: Seq<((u32, u32), Index)>, count: nat, x: PrimitiveReport)
    ensures
        attribute_reports(listing, count).contains(x) <==> exists|j: int|
            0 <= j < listing.len() && attribute_report_owed(#[trigger] listing[j].0, listing[j].1, count, x),
    decreases listing.len(),
{
    if listing.len() > 0 {
        let rest = listing.drop_last();
        let (key, index) = listing.last();
        let n = listing.len() - 1;
        lemma_attribute_reports(rest, count, x);
        let name_reports = if spec_semantic_of_key(key) is Invalid {
            seq![PrimitiveReport { field: PrimitiveField::Attribute(key.0, key.1), error: Error::Invalid }]
        } else {
            Seq::<PrimitiveReport>::empty()
        };
        lemma_contains_add(attribute_reports(rest, count) + name_reports, index_reports(PrimitiveField::Attribute(key.0, key.1), index, count), x);
        lemma_contains_add(attribute_reports(rest, count), name_reports, x);
        lemma_optional_index_reports(PrimitiveField::Attribute(key.0, key.1), Some(index), count, x);
        if name_reports.contains(x) {
            assert(name_reports[0] == x);
        }
        if spec_semantic_of_key(key) is Invalid && x == (PrimitiveReport { field: PrimitiveField::Attribute(key.0, key.1), error: Error::Invalid }) {
            assert(name_reports[0] == x);
        }
        if exists|j: int| 0 <= j < listing.len() && attribute_report_owed(#[trigger] listing[j].0, listing[j].1, count, x) {
            let j = choose|j: int| 0 <= j < listing.len() && attribute_report_owed(#[trigger] listing[j].0, listing[j].1, count, x);
            if j < n {
                assert(rest[j] == listing[j]);
            }
        }
        if exists|j: int| 0 <= j < rest.len() && attribute_report_owed(#[trigger] rest[j].0, rest[j].1, count, x) {
            let j = choose|j: int| 0 <= j < rest.len() && attribute_report_owed(#[trigger] rest[j].0, rest[j].1, count, x);
            assert(rest[j] == listing[j]);
        }
        if attribute_report_owed(listing[n].0, listing[n].1, count, x) {
        }
    }
}

/// Whether `x` is owed for the listed set at position `j`: its accessor is
/// past the accessors.
pub open spec fn numbered_owed(target: usize, colors: bool, listing: Seq<(u32, Index)>, j: int, count: nat, x: PrimitiveReport) -> bool {
    &&& x == (PrimitiveReport {
        field: PrimitiveField::Target(target, numbered_attribute(colors, listing[j].0)),
        error: Error::IndexOutOfBounds,
    })
    &&& listing[j].1.index >= count
}

/// The numbered reports are those of the listed sets whose accessor is past
/// the accessors.
proof fn lemma_numbered_reports(target: usize, colors: bool, listing: Seq<(u32, Index)>, count: nat, x: PrimitiveReport)
    ensures
        numbered_reports(target, colors, listing, count).contains(x) <==> (exists|j: int|
            0 <= j < listing.len() && #[trigger] numbered_owed(target, colors, listing, j, count, x)),
    decreases listing.len(),
{
    if listing.len() > 0 {
        let rest = listing.drop_last();
        let n = listing.len() - 1;
        let last_field = PrimitiveField::Target(target, numbered_attribute(colors, listing.last().0));
        lemma_numbered_reports(target, colors, rest, count, x);
        lemma_contains_add(numbered_reports(target, colors, rest, count), index_reports(last_field, listing.last().1, count), x);
        lemma_optional_index_reports(last_field, Some(listing.last().1), count, x);
        if exists|j: int| 0 <= j < listing.len() && #[trigger] numbered_owed(target, colors, listing, j, count, x) {
            let j = choose|j: int| 0 <= j < listing.len() && #[trigger] numbered_owed(target, colors, listing, j, count, x);
            if j < n {
                assert(rest[j] == listing[j]);
                assert(numbered_owed(target, colors, rest, j, count, x));
            } else {
                assert(index_reports(last_field, listing.last().1, count).contains(x));
            }
        }
        if exists|j: int| 0 <= j < rest.len() && #[trigger] numbered_owed(target, colors, rest, j, count, x) {
            let j = choose|j: int| 0 <= j < rest.len() && #[trigger] numbered_owed(target, colors, rest, j, count, x);
            assert(rest[j] == listing[j]);
            assert(numbered_owed(target, colors, listing, j, count, x));
        }
        if index_reports(last_field, listing.last().1, count).contains(x) {
            assert(numbered_owed(target, colors, listing, n, count, x));
        }
    }
}

/// Whether `x` is owed for an attribute of one of the morph targets: its
/// accessor is past the accessors.
pub open spec fn target_report_owed(targets: Seq<MorphTargetView>, count: nat, x: PrimitiveReport) -> bool {
    &&& x.error == Error::IndexOutOfBounds
    &&& x.field matches PrimitiveField::Target(k, a)
    &&& k < targets.len()
    &&& attribute_value(targets[k as int], a) matches Some(i)
    &&& i.index >= count
}

/// Whether `x` is owed for an attribute of the morph target `t` at position
/// `target`: its accessor is past the accessors.
pub open spec fn owed_for_target(target: usize, t: MorphTargetView, count: nat, x: PrimitiveReport) -> bool {
    &&& x.error == Error::IndexOutOfBounds
    &&& x.field matches PrimitiveField::Target(k, a)
    &&& k == target
    &&& attribute_value(t, a) matches Some(i)
    &&& i.index >= count
}

/// The reports of one morph target are those of its attributes whose accessor
/// is past the accessors.
proof fn lemma_target_reports(
    target: usize,
    t: MorphTargetView,
    listings: (Seq<(u32, Index)>, Seq<(u32, Index)>),
    count: nat,
    x: PrimitiveReport,
)
    requires
        is_sorted_listing(listings.0, t.tex_coords),
        is_sorted_listing(listings.1, t.colors),
    ensures
        target_reports(target, t, listings, count).contains(x) <==> owed_for_target(target, t, count, x),
{
    let p = optional_index_reports(PrimitiveField::Target(target, MorphAttribute::Positions), t.positions, count);
    let n = optional_index_reports(PrimitiveField::Target(target, MorphAttribute::Normals), t.normals, count);
    let g = optional_index_reports(PrimitiveField::Target(target, MorphAttribute::Tangents), t.tangents, count);
    let tc = numbered_reports(target, false, listings.0, count);
    let co = numbered_reports(target, true, listings.1, count);
    lemma_contains_add(p + n + g + tc, co, x);
    lemma_contains_add(p + n + g, tc, x);
    lemma_contains_add(p + n, g, x);
    lemma_contains_add(p, n, x);
    lemma_optional_index_reports(PrimitiveField::Target(target, MorphAttribute::Positions), t.positions, count, x);
    lemma_optional_index_reports(PrimitiveField::Target(target, MorphAttribute::Normals), t.normals, count, x);
    lemma_optional_index_reports(PrimitiveField::Target(target, MorphAttribute::Tangents), t.tangents, count, x);
    lemma_numbered_reports(target, false, listings.0, count, x);
    lemma_numbered_reports(target, true, listings.1, count, x);
    if owed_for_target(target, t, count, x) {
        let a = x.field->Target_1;
        match a {
            MorphAttribute::Positions => {
                assert(p.contains(x));
            },
            MorphAttribute::Normals => {
                assert(n.contains(x));
            },
            MorphAttribute::Tangents => {
                assert(g.contains(x));
            },
            MorphAttribute::TexCoords(set) => {
                assert(t.tex_coords.contains_key(set));
                let j = choose|j: int| 0 <= j < listings.0.len() && #[trigger] listings.0[j].0 == set;
                assert(t.tex_coords.contains_key(listings.0[j].0));
                assert(numbered_owed(target, false, listings.0, j, count, x));
            },
            MorphAttribute::Colors(set) => {
                assert(t.colors.contains_key(set));
                let j = choose|j: int| 0 <= j < listings.1.len() && #[trigger] listings.1[j].0 == set;
                assert(t.colors.contains_key(listings.1[j].0));
                assert(numbered_owed(target, true, listings.1, j, count, x));
            },
        }
    }
    if tc.contains(x) {
        let j = choose|j: int| 0 <= j < listings.0.len() && #[trigger] numbered_owed(target, false, listings.0, j, count, x);
        assert(t.tex_coords.contains_key(listings.0[j].0));
        assert(attribute_value(t, MorphAttribute::TexCoords(listings.0[j].0)) == Some(listings.0[j].1));
    }
    if co.contains(x) {
        let j = choose|j: int| 0 <= j < listings.1.len() && #[trigger] numbered_owed(target, true, listings.1, j, count, x);
        assert(t.colors.contains_key(listings.1[j].0));
        assert(attribute_value(t, MorphAttribute::Colors(listings.1[j].0)) == Some(listings.1[j].1));
    }
}

/// The reports of the morph targets are those of every target's attributes
/// whose accessor is past the accessors, the first target included.
proof fn lemma_targets_reports(
    targets: Seq<MorphTargetView>,
    listings: Seq<(Seq<(u32, Index)>, Seq<(u32, Index)>)>,
    count: nat,
    x: PrimitiveReport,
)
    requires
        covers_target_listings(targets, listings),
        targets.len() <= usize::MAX + 1,
    ensures
        targets_reports(targets, listings, count).contains(x) <==> target_report_owed(targets, count, x),
    decreases targets.len(),
{
    if targets.len() > 0 {
        let rest = targets.drop_last();
        let last = (targets.len() - 1) as int;
        lemma_covers_drop_last(targets, listings);
        lemma_targets_reports(rest, listings, count, x);
        lemma_target_reports(last as usize, targets[last], listings[last], count, x);
        lemma_contains_add(targets_reports(rest, listings, count), target_reports(last as usize, targets[last], listings[last], count), x);
        if let PrimitiveField::Target(k, a) = x.field {
            if k < rest.len() {
                assert(rest[k as int] == targets[k as int]);
            }
        }
    }
}

/// What a primitive's validation owes the report `x`, in terms of the
/// primitive and the document.
pub open spec fn primitive_report_owed(
    attributes: Map<(u32, u32), Index>,
    indices: Option<Index>,
    material: Option<Index>,
    mode: Checked<Mode>,
    targets: Seq<MorphTargetView>,
    accessors: Seq<AccessorBoundsView>,
    material_count: nat,
    x: PrimitiveReport,
) -> bool {
    match x.field {
        PrimitiveField::Attribute(code, set) => attributes.contains_key((code, set)) && (
            (x.error == Error::Invalid && spec_semantic_of_key((code, set)) is Invalid)
            || (x.error == Error::IndexOutOfBounds && attributes[(code, set)].index >= accessors.len())),
        PrimitiveField::Indices => (indices matches Some(i) && i.index >= accessors.len() && x.error == Error::IndexOutOfBounds),
        PrimitiveField::Material => (material matches Some(i) && i.index >= material_count && x.error == Error::IndexOutOfBounds),
        PrimitiveField::Mode => x.error == Error::Invalid && mode is Invalid,
        PrimitiveField::Target(_, _) => target_report_owed(targets, accessors.len(), x),
        PrimitiveField::Position(f) => spec_validate_positions(attributes, accessors).contains(Report { field: f, error: x.error }),
    }
}

/// The validation of a primitive reports exactly what is owed: an invalid
/// attribute name; each accessor index of an attribute, of `indices` and of
/// every attribute of every morph target (the first one included) that is
/// not below the number of accessors; a material index not below the number
/// of materials; an invalid mode; and what the position validation reports.
pub proof fn lemma_primitive_reports_meaning(
    attributes: Map<(u32, u32), Index>,
    attribute_listing: Seq<((u32, u32), Index)>,
    indices: Option<Index>,
    material: Option<Index>,
    mode: Checked<Mode>,
    targets: Seq<MorphTargetView>,
    target_listings: Seq<(Seq<(u32, Index)>, Seq<(u32, Index)>)>,
    accessors: Seq<AccessorBoundsView>,
    material_count: nat,
)
    requires
        is_sorted_pair_listing(attribute_listing, attributes),
        are_target_listings(targets, target_listings),
        targets.len() <= usize::MAX + 1,
    ensures
        forall|x: PrimitiveReport| #[trigger] spec_primitive_reports(attributes, attribute_listing, indices, material, mode, targets, target_listings, accessors, material_count).contains(x)
            <==> primitive_report_owed(attributes, indices, material, mode, targets, accessors, material_count, x),
{
    assert forall|x: PrimitiveReport| #[trigger] spec_primitive_reports(attributes, attribute_listing, indices, material, mode, targets, target_listings, accessors, material_count).contains(x)
        <==> primitive_report_owed(attributes, indices, material, mode, targets, accessors, material_count, x) by {
        let count = accessors.len();
        let a = attribute_reports(attribute_listing, count);
        let ix = optional_index_reports(PrimitiveField::Indices, indices, count);
        let m = optional_index_reports(PrimitiveField::Material, material, material_count);
        let md = mode_reports(mode);
        let t = targets_reports(targets, target_listings, count);
        let hook = spec_validate_positions(attributes, accessors);
        let p = position_reports(hook);
        lemma_contains_add(a + ix + m + md + t, p, x);
        lemma_contains_add(a + ix + m + md, t, x);
        lemma_contains_add(a + ix + m, md, x);
        lemma_contains_add(a + ix, m, x);
        lemma_contains_add(a, ix, x);
        lemma_attribute_reports(attribute_listing, count, x);
        lemma_optional_index_reports(PrimitiveField::Indices, indices, count, x);
        lemma_optional_index_reports(PrimitiveField::Material, material, material_count, x);
        lemma_targets_reports(targets, target_listings, count, x);
        if md.contains(x) {
            assert(md[0] == x);
        }
        if x.field == PrimitiveField::Mode && x.error == Error::Invalid && mode is Invalid {
            assert(md[0] == x);
        }
        if p.contains(x) {
            let j = choose|j: int| 0 <= j < p.len() && p[j] == x;
            assert(hook[j] == Report { field: hook[j].field, error: x.error });
        }
        if let PrimitiveField::Position(f) = x.field {
            if hook.contains(Report { field: f, error: x.error }) {
                let j = choose|j: int| 0 <= j < hook.len() && hook[j] == (Report { field: f, error: x.error });
                assert(p[j] == x);
            }
        }
        if let PrimitiveField::Attribute(code, set) = x.field {
            let key = (code, set);
            if exists|j: int| 0 <= j < attribute_listing.len() && attribute_report_owed(#[trigger] attribute_listing[j].0, attribute_listing[j].1, count, x) {
                let j = choose|j: int| 0 <= j < attribute_listing.len() && attribute_report_owed(#[trigger] attribute_listing[j].0, attribute_listing[j].1, count, x);
                assert(attributes.contains_key(attribute_listing[j].0));
            }
            if attributes.contains_key(key) {
                let j = choose|j: int| 0 <= j < attribute_listing.len() && #[trigger] attribute_listing[j].0 == key;
                assert(attributes.contains_key(attribute_listing[j].0));
                if primitive_report_owed(attributes, indices, material, mode, targets, accessors, material_count, x) {
                    assert(attribute_report_owed(attribute_listing[j].0, attribute_listing[j].1, count, x));
                }
            }
        }
    }
}

/// The rank of a morph target attribute in the order in which its reports come.
pub open spec fn morph_attribute_rank(a: MorphAttribute) -> (int, int) {
    match a {
        MorphAttribute::Positions => (0, 0),
        MorphAttribute::Normals => (1, 0),
        MorphAttribute::Tangents => (2, 0),
        MorphAttribute::TexCoords(set) => (3, set as int),
        MorphAttribute::Colors(set) => (4, set as int),
    }
}

/// Where a report stands in the order of a primitive's reports: attributes
/// by key (an invalid name before an index past the accessors), then
/// `indices`, `material`, `mode`, the morph targets by position (each by
/// positions, normals, tangents, texture co-ordinate sets and color sets by
/// set index), and last the position reports (`min` before `max`).
pub open spec fn report_order(r: PrimitiveReport) -> (int, int, int, int) {
    match r.field {
        PrimitiveField::Attribute(code, set) => (0, code as int, set as int, if r.error == Error::Invalid { 0 } else { 1 }),
        PrimitiveField::Indices => (1, 0, 0, 0),
        PrimitiveField::Material => (2, 0, 0, 0),
        PrimitiveField::Mode => (3, 0, 0, 0),
        PrimitiveField::Target(k, a) => (4, k as int, morph_attribute_rank(a).0, morph_attribute_rank(a).1),
        PrimitiveField::Position(f) => (5, match f {
            PositionField::Attribute => 0,
            PositionField::Min => 1,
            PositionField::Max => 2,
        }, 0, 0),
    }
}

/// Lexicographic order on order keys.
pub open spec fn order_lt(a: (int, int, int, int), b: (int, int, int, int)) -> bool {
    ||| a.0 < b.0
    ||| (a.0 == b.0 && a.1 < b.1)
    ||| (a.0 == b.0 && a.1 == b.1 && a.2 < b.2)
    ||| (a.0 == b.0 && a.1 == b.1 && a.2 == b.2 && a.3 < b.3)
}

/// Whether the reports come in strictly increasing order.
pub open spec fn reports_in_order(s: Seq<PrimitiveReport>) -> bool {
    forall|i: int, j: int| 0 <= i < j < s.len() ==> order_lt(report_order(#[trigger] s[i]), report_order(#[trigger] s[j]))
}

/// Joining two ordered sequences, the first wholly before the second, keeps the order.
proof fn lemma_in_order_add(a: Seq<PrimitiveReport>, b: Seq<PrimitiveReport>)
    requires
        reports_in_order(a),
        reports_in_order(b),
        forall|i: int, j: int| 0 <= i < a.len() && 0 <= j < b.len() ==> order_lt(report_order(#[trigger] a[i]), report_order(#[trigger] b[j])),
    ensures
        reports_in_order(a + b),
{
    assert forall|i: int, j: int| 0 <= i < j < (a + b).len() implies order_lt(report_order(#[trigger] (a + b)[i]), report_order(#[trigger] (a + b)[j])) by {
        if j < a.len() {
            assert((a + b)[i] == a[i] && (a + b)[j] == a[j]);
        } else if i < a.len() {
            assert((a + b)[i] == a[i] && (a + b)[j] == b[j - a.len()]);
        } else {
            assert((a + b)[i] == b[i - a.len()] && (a + b)[j] == b[j - a.len()]);
        }
    }
}

/// A sequence of at most one report is in order.
proof fn lemma_in_order_short(s: Seq<PrimitiveReport>)
    requires
        s.len() <= 1,
    ensures
        reports_in_order(s),
{
}

/// The attribute reports come by increasing key, each key's name report first.
proof fn lemma_attribute_reports_in_order(listing: Seq<((u32, u32), Index)>, count: nat)
    requires
        forall|i: int, j: int| 0 <= i < j < listing.len() ==> pair_key_lt(listing[i].0, listing[j].0),
    ensures
        reports_in_order(attribute_reports(listing, count)),
        forall|i: int| 0 <= i < attribute_reports(listing, count).len() ==> (#[trigger] report_order(attribute_reports(listing, count)[i])).0 == 0,
    decreases listing.len(),
{
    if listing.len() > 0 {
        let rest = listing.drop_last();
        let (key, index) = listing.last();
        let n = listing.len() - 1;
        lemma_attribute_reports_in_order(rest, count);
        let a = attribute_reports(rest, count);
        let name_reports = if spec_semantic_of_key(key) is Invalid {
            seq![PrimitiveReport { field: PrimitiveField::Attribute(key.0, key.1), error: Error::Invalid }]
        } else {
            Seq::<PrimitiveReport>::empty()
        };
        let ix = index_reports(PrimitiveField::Attribute(key.0, key.1), index, count);
        assert forall|i: int| 0 <= i < a.len() implies order_lt(report_order(#[trigger] a[i]), (0, key.0 as int, key.1 as int, 0)) by {
            lemma_attribute_reports(rest, count, a[i]);
            let j = choose|j: int| 0 <= j < rest.len() && attribute_report_owed(#[trigger] rest[j].0, rest[j].1, count, a[i]);
            assert(rest[j] == listing[j]);
            assert(pair_key_lt(listing[j].0, listing[n].0));
        }
        lemma_in_order_short(name_reports);
        lemma_in_order_short(ix);
        lemma_in_order_add(a, name_reports);
        lemma_in_order_add(a + name_reports, ix);
        let whole = a + name_reports + ix;
        assert(attribute_reports(listing, count) == whole);
        assert forall|i: int| 0 <= i < whole.len() implies (#[trigger] report_order(whole[i])).0 == 0 by {
            if i < a.len() {
                assert(whole[i] == a[i]);
            } else if i < a.len() + name_reports.len() {
                assert(whole[i] == name_reports[i - a.len()]);
            } else {
                assert(whole[i] == ix[i - a.len() - name_reports.len()]);
            }
        }
    }
}

/// The reports of a numbered set come by increasing set index.
proof fn lemma_numbered_reports_in_order(target: usize, colors: bool, listing: Seq<(u32, Index)>, count: nat)
    requires
        forall|i: int, j: int| 0 <= i < j < listing.len() ==> listing[i].0 < listing[j].0,
    ensures
        reports_in_order(numbered_reports(target, colors, listing, count)),
        forall|i: int| 0 <= i < numbered_reports(target, colors, listing, count).len() ==>
            report_order(#[trigger] numbered_reports(target, colors, listing, count)[i]).0 == 4
            && report_order(numbered_reports(target, colors, listing, count)[i]).1 == target
            && report_order(numbered_reports(target, colors, listing, count)[i]).2 == if colors { 4int } else { 3int },
    decreases listing.len(),
{
    if listing.len() > 0 {
        let rest = listing.drop_last();
        let n = listing.len() - 1;
        lemma_numbered_reports_in_order(target, colors, rest, count);
        let a = numbered_reports(target, colors, rest, count);
        let last_field = PrimitiveField::Target(target, numbered_attribute(colors, listing.last().0));
        let ix = index_reports(last_field, listing.last().1, count);
        assert forall|i: int| 0 <= i < a.len() implies order_lt(report_order(#[trigger] a[i]), report_order(PrimitiveReport { field: last_field, error: Error::IndexOutOfBounds })) by {
            lemma_numbered_reports(target, colors, rest, count, a[i]);
            let j = choose|j: int| 0 <= j < rest.len() && #[trigger] numbered_owed(target, colors, rest, j, count, a[i]);
            assert(rest[j] == listing[j]);
            assert(listing[j].0 < listing[n].0);
        }
        lemma_in_order_short(ix);
        lemma_in_order_add(a, ix);
        assert forall|i: int| 0 <= i < (a + ix).len() implies report_order(#[trigger] (a + ix)[i]).0 == 4
            && report_order((a + ix)[i]).1 == target
            && report_order((a + ix)[i]).2 == if colors { 4int } else { 3int } by {
            if i < a.len() {
                assert((a + ix)[i] == a[i]);
            } else {
                assert((a + ix)[i] == ix[i - a.len()]);
            }
        }
    }
}

/// The reports of one morph target come in attribute order, all at its position.
proof fn lemma_target_reports_in_order(target: usize, t: MorphTargetView, listings: (Seq<(u32, Index)>, Seq<(u32, Index)>), count: nat)
    requires
        is_sorted_listing(listings.0, t.tex_coords),
        is_sorted_listing(listings.1, t.colors),
    ensures
        reports_in_order(target_reports(target, t, listings, count)),
        forall|i: int| 0 <= i < target_reports(target, t, listings, count).len() ==>
            report_order(#[trigger] target_reports(target, t, listings, count)[i]).0 == 4
            && report_order(target_reports(target, t, listings, count)[i]).1 == target,
{
    let p = optional_index_reports(PrimitiveField::Target(target, MorphAttribute::Positions), t.positions, count);
    let n = optional_index_reports(PrimitiveField::Target(target, MorphAttribute::Normals), t.normals, count);
    let g = optional_index_reports(PrimitiveField::Target(target, MorphAttribute::Tangents), t.tangents, count);
    let tc = numbered_reports(target, false, listings.0, count);
    let co = numbered_reports(target, true, listings.1, count);
    lemma_numbered_reports_in_order(target, false, listings.0, count);
    lemma_numbered_reports_in_order(target, true, listings.1, count);
    lemma_in_order_short(p);
    lemma_in_order_short(n);
    lemma_in_order_short(g);
    lemma_in_order_add(p, n);
    let pn = p + n;
    assert forall|i: int| 0 <= i < pn.len() implies report_order(#[trigger] pn[i]).2 <= 1 && report_order(pn[i]).0 == 4 && report_order(pn[i]).1 == target by {
        if i < p.len() { assert(pn[i] == p[i]); } else { assert(pn[i] == n[i - p.len()]); }
    }
    lemma_in_order_add(pn, g);
    let png = pn + g;
    assert forall|i: int| 0 <= i < png.len() implies report_order(#[trigger] png[i]).2 <= 2 && report_order(png[i]).0 == 4 && report_order(png[i]).1 == target by {
        if i < pn.len() { assert(png[i] == pn[i]); } else { assert(png[i] == g[i - pn.len()]); }
    }
    lemma_in_order_add(png, tc);
    let pngt = png + tc;
    assert forall|i: int| 0 <= i < pngt.len() implies report_order(#[trigger] pngt[i]).2 <= 3 && report_order(pngt[i]).0 == 4 && report_order(pngt[i]).1 == target by {
        if i < png.len() { assert(pngt[i] == png[i]); } else { assert(pngt[i] == tc[i - png.len()]); }
    }
    lemma_in_order_add(pngt, co);
    let whole = pngt + co;
    assert forall|i: int| 0 <= i < whole.len() implies report_order(#[trigger] whole[i]).0 == 4 && report_order(whole[i]).1 == target by {
        if i < pngt.len() { assert(whole[i] == pngt[i]); } else { assert(whole[i] == co[i - pngt.len()]); }
    }
}

/// The reports of the morph targets come target by target, in order.
proof fn lemma_targets_reports_in_order(
    targets: Seq<MorphTargetView>,
    listings: Seq<(Seq<(u32, Index)>, Seq<(u32, Index)>)>,
    count: nat,
)
    requires
        covers_target_listings(targets, listings),
        targets.len() <= usize::MAX + 1,
    ensures
        reports_in_order(targets_reports(targets, listings, count)),
        forall|i: int| 0 <= i < targets_reports(targets, listings, count).len() ==>
            report_order(#[trigger] targets_reports(targets, listings, count)[i]).0 == 4
            && report_order(targets_reports(targets, listings, count)[i]).1 < targets.len(),
    decreases targets.len(),
{
    if targets.len() > 0 {
        let rest = targets.drop_last();
        let last = (targets.len() - 1) as int;
        lemma_covers_drop_last(targets, listings);
        lemma_targets_reports_in_order(rest, listings, count);
        lemma_target_reports_in_order(last as usize, targets[last], listings[last], count);
        let a = targets_reports(rest, listings, count);
        let b = target_reports(last as usize, targets[last], listings[last], count);
        lemma_in_order_add(a, b);
        assert forall|i: int| 0 <= i < (a + b).len() implies report_order(#[trigger] (a + b)[i]).0 == 4
            && report_order((a + b)[i]).1 < targets.len() by {
            if i < a.len() { assert((a + b)[i] == a[i]); } else { assert((a + b)[i] == b[i - a.len()]); }
        }
    }
}

/// The validation of a primitive reports in a fixed order, each report once:
/// attributes by key (an invalid name before an index past the accessors),
/// then `indices`, `material`, `mode`, the morph targets by position (each by
/// positions, normals, tangents, then texture co-ordinate and color sets by
/// set index), and last the positions, `min` before `max`. With
/// `lemma_primitive_reports_meaning`, this fixes the reports completely.
pub proof fn lemma_primitive_reports_in_order(
    attributes: Map<(u32, u32), Index>,
    attribute_listing: Seq<((u32, u32), Index)>,
    indices: Option<Index>,
    material: Option<Index>,
    mode: Checked<Mode>,
    targets: Seq<MorphTargetView>,
    target_listings: Seq<(Seq<(u32, Index)>, Seq<(u32, Index)>)>,
    accessors: Seq<AccessorBoundsView>,
    material_count: nat,
)
    requires
        is_sorted_pair_listing(attribute_listing, attributes),
        are_target_listings(targets, target_listings),
        targets.len() <= usize::MAX + 1,
    ensures
        reports_in_order(spec_primitive_reports(attributes, attribute_listing, indices, material, mode, targets, target_listings, accessors, material_count)),
{
    let count = accessors.len();
    let a = attribute_reports(attribute_listing, count);
    let ix = optional_index_reports(PrimitiveField::Indices, indices, count);
    let m = optional_index_reports(PrimitiveField::Material, material, material_count);
    let md = mode_reports(mode);
    let t = targets_reports(targets, target_listings, count);
    let hook = spec_validate_positions(attributes, accessors);
    let p = position_reports(hook);
    lemma_attribute_reports_in_order(attribute_listing, count);
    lemma_targets_reports_in_order(targets, target_listings, count);
    lemma_validate_positions_meaning(attributes, accessors);
    lemma_in_order_short(ix);
    lemma_in_order_short(m);
    lemma_in_order_short(md);
    assert(reports_in_order(p)) by {
        assert forall|i: int, j: int| 0 <= i < j < p.len() implies order_lt(report_order(#[trigger] p[i]), report_order(#[trigger] p[j])) by {
            let key = spec_attribute_key(Checked::Valid(Semantic::Positions));
            assert(hook.len() == 2);
            assert(p[i] == (PrimitiveReport { field: PrimitiveField::Position(hook[i].field), error: hook[i].error }));
            assert(p[j] == (PrimitiveReport { field: PrimitiveField::Position(hook[j].field), error: hook[j].error }));
        }
    }
    lemma_in_order_add(a, ix);
    lemma_in_order_add(a + ix, m);
    assert forall|i: int, j: int| 0 <= i < (a + ix + m).len() && 0 <= j < md.len() implies order_lt(report_order(#[trigger] (a + ix + m)[i]), report_order(#[trigger] md[j])) by {
        if i < a.len() { assert((a + ix + m)[i] == a[i]); } else if i < a.len() + ix.len() { assert((a + ix + m)[i] == ix[i - a.len()]); } else { assert((a + ix + m)[i] == m[i - a.len() - ix.len()]); }
    }
    lemma_in_order_add(a + ix + m, md);
    let head = a + ix + m + md;
    assert forall|i: int| 0 <= i < head.len() implies report_order(#[trigger] head[i]).0 <= 3 by {
        if i < (a + ix + m).len() {
            assert(head[i] == (a + ix + m)[i]);
            if i < a.len() { assert((a + ix + m)[i] == a[i]); } else if i < a.len() + ix.len() { assert((a + ix + m)[i] == ix[i - a.len()]); } else { assert((a + ix + m)[i] == m[i - a.len() - ix.len()]); }
        } else {
            assert(head[i] == md[i - (a + ix + m).len()]);
        }
    }
    lemma_in_order_add(head, t);
    let body = head + t;
    assert forall|i: int| 0 <= i < body.len() implies report_order(#[trigger] body[i]).0 <= 4 by {
        if i < head.len() { assert(body[i] == head[i]); } else { assert(body[i] == t[i - head.len()]); }
    }
    assert forall|i: int, j: int| 0 <= i < body.len() && 0 <= j < p.len() implies order_lt(report_order(#[trigger] body[i]), report_order(#[trigger] p[j])) by {
        assert(p[j] == (PrimitiveReport { field: PrimitiveField::Position(hook[j].field), error: hook[j].error }));
    }
    lemma_in_order_add(body, p);
}

} // verus!
