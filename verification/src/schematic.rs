//! The semantic schematic-map manifest.
//!
//! Schematic coordinates follow SVG's rightward x-axis and downward y-axis.
//! Coordinates and lengths are binary64 numbers held by their bit patterns
//! (see [`crate::float_bits`]).

use vstd::prelude::*;

use crate::float_bits::{finite_bits, is_finite_bits, is_positive_finite_bits, positive_finite_bits};
use crate::names::LocalizedNames;

verus! {

/// An undirected octilinear axis in SVG coordinates.
#[derive(Clone, Copy, Debug, PartialEq, Eq, Hash, Structural)]
pub enum OctilinearAxis {
    Horizontal,
    FallingDiagonal,
    Vertical,
    RisingDiagonal,
}

/// A route's geometric relationship to an interchange capsule's major axis.
#[derive(Clone, Copy, Debug, PartialEq, Eq, Hash, Structural)]
pub enum SchematicInterchangePort {
    MajorAxis {},
    RisingOblique {},
    FallingOblique {},
    SinglePerpendicular {},
    PerpendicularAnchor { index: u8 },
}

/// A route's connection to a common or interchange station.
#[derive(Clone, Copy, Debug, PartialEq, Eq, Hash, Structural)]
pub enum SchematicStationPort {
    SingleLine,
    Interchange(SchematicInterchangePort),
}

/// A scalar invariant violation while constructing schematic values; the
/// offending numbers are given by their bit patterns.
#[derive(Clone, Copy, Debug, PartialEq, Eq, Structural)]
pub enum SchematicValueError {
    NonFinitePoint { x: u64, y: u64 },
    InvalidLength(u64),
}

/// A finite point in the schematic coordinate system.
#[derive(Clone, Copy, Debug, PartialEq, Eq)]
pub struct SchematicPoint {
    x: u64,
    y: u64,
}

impl SchematicPoint {
    #[verifier::type_invariant]
    closed spec fn finite(self) -> bool {
        is_finite_bits(self.x) && is_finite_bits(self.y)
    }

    pub closed spec fn x_bits(self) -> u64 {
        self.x
    }

    pub closed spec fn y_bits(self) -> u64 {
        self.y
    }

    /// Construct a point whose coordinates are both finite.
    pub fn new(x: u64, y: u64) -> (res: Result<Self, SchematicValueError>)
        ensures
            match res {
                Ok(p) => is_finite_bits(x) && is_finite_bits(y) && p.x_bits() == x && p.y_bits() == y,
                Err(e) => !(is_finite_bits(x) && is_finite_bits(y)) && e == SchematicValueError::NonFinitePoint { x, y },
            },
    {
        if !finite_bits(x) || !finite_bits(y) {
            return Err(SchematicValueError::NonFinitePoint { x, y });
        }
        Ok(SchematicPoint { x, y })
    }

    pub fn x(self) -> (res: u64)
        ensures
            res == self.x_bits(),
            is_finite_bits(res),
    {
        proof {
            use_type_invariant(&self);
        }
        self.x
    }

    pub fn y(self) -> (res: u64)
        ensures
            res == self.y_bits(),
            is_finite_bits(res),
    {
        proof {
            use_type_invariant(&self);
        }
        self.y
    }
}

/// A finite, strictly positive schematic length.
#[derive(Clone, Copy, Debug, PartialEq, Eq)]
pub struct SchematicLength(u64);

impl SchematicLength {
    #[verifier::type_invariant]
    closed spec fn positive(self) -> bool {
        is_positive_finite_bits(self.0)
    }

    pub closed spec fn bits(self) -> u64 {
        self.0
    }

    /// Construct a finite, strictly positive length.
    pub fn new(value: u64) -> (res: Result<Self, SchematicValueError>)
        ensures
            match res {
                Ok(l) => is_positive_finite_bits(value) && l.bits() == value,
                Err(e) => !is_positive_finite_bits(value) && e == SchematicValueError::InvalidLength(value),
            },
    {
        if !positive_finite_bits(value) {
            return Err(SchematicValueError::InvalidLength(value));
        }
        Ok(SchematicLength(value))
    }

    pub fn get(self) -> (res: u64)
        ensures
            res == self.bits(),
            is_positive_finite_bits(res),
    {
        proof {
            use_type_invariant(&self);
        }
        self.0
    }
}

/// The station symbol requested by the semantic schematic manifest.
#[derive(Clone, Copy, Debug, PartialEq, Eq)]
pub enum SchematicStationSymbol {
    Circle {},
    Capsule { axis: OctilinearAxis, anchor_count: u8, anchor_interval: SchematicLength },
}

/// An opaque colour or a transparent map background.
#[derive(Clone, Debug, PartialEq, Eq)]
pub enum SchematicBackgroundOptions {
    Color { color: String },
    Transparent,
}

/// Why the fields of a background block name no background.
#[derive(Clone, Copy, Debug, PartialEq, Eq, Structural)]
pub enum BackgroundFieldsError {
    /// `transparent: false` without a colour.
    TransparentMustBeTrue,
    /// A colour together with `transparent: true`.
    ColorConflictsWithTransparent,
    /// Neither a colour nor `transparent: true`.
    Missing,
}

impl BackgroundFieldsError {
    /// The message the manifest parser reports.
    pub fn message(self) -> (res: &'static str)
        ensures
            res@ == (match self {
                BackgroundFieldsError::TransparentMustBeTrue => "transparent must be true"@,
                BackgroundFieldsError::ColorConflictsWithTransparent => "background color conflicts with transparent: true"@,
                BackgroundFieldsError::Missing => "background must contain color or transparent: true"@,
            }),
    {
        match self {
            BackgroundFieldsError::TransparentMustBeTrue => "transparent must be true",
            BackgroundFieldsError::ColorConflictsWithTransparent => "background color conflicts with transparent: true",
            BackgroundFieldsError::Missing => "background must contain color or transparent: true",
        }
    }
}

impl SchematicBackgroundOptions {
    /// The background that a block with the optional fields `color` (also
    /// spelled `colour`) and `transparent` describes: a colour unless
    /// `transparent` is `true`, transparency when it is `true` and no colour
    /// is given.
    pub fn from_fields(color: Option<String>, transparent: Option<bool>) -> (res: Result<Self, BackgroundFieldsError>)
        ensures
            match (color, transparent) {
                (Some(c), None) | (Some(c), Some(false)) => res == Ok::<Self, BackgroundFieldsError>(SchematicBackgroundOptions::Color { color: c }),
                (None, Some(true)) => res == Ok::<Self, BackgroundFieldsError>(SchematicBackgroundOptions::Transparent),
                (None, Some(false)) => res == Err::<Self, BackgroundFieldsError>(BackgroundFieldsError::TransparentMustBeTrue),
                (Some(_), Some(true)) => res == Err::<Self, BackgroundFieldsError>(BackgroundFieldsError::ColorConflictsWithTransparent),
                (None, None) => res == Err::<Self, BackgroundFieldsError>(BackgroundFieldsError::Missing),
            },
    {
        match (color, transparent) {
            (Some(color), None) => Ok(SchematicBackgroundOptions::Color { color }),
            (Some(color), Some(false)) => Ok(SchematicBackgroundOptions::Color { color }),
            (None, Some(true)) => Ok(SchematicBackgroundOptions::Transparent),
            (None, Some(false)) => Err(BackgroundFieldsError::TransparentMustBeTrue),
            (Some(_), Some(true)) => Err(BackgroundFieldsError::ColorConflictsWithTransparent),
            (None, None) => Err(BackgroundFieldsError::Missing),
        }
    }
}

/// How a common-station colour is selected.
#[derive(Clone, Debug, PartialEq, Eq)]
pub enum SchematicStationColor {
    Unified { value: String },
    FollowLine {},
}

/// Placement of a station stroke relative to its fill boundary.
#[derive(Clone, Copy, Debug, PartialEq, Eq, Hash, Structural)]
pub enum SchematicStrokeAlignment {
    Inside,
    Center,
    Outside,
}

/// Global styling shared by all metro lines.
#[derive(Clone, Copy, Debug, PartialEq, Eq)]
pub struct SchematicLineOptions {
    pub width: SchematicLength,
}

/// Fill styling for circle-shaped common stations.
#[derive(Clone, Debug, PartialEq, Eq)]
pub struct SchematicCommonStationFill {
    pub diameter: SchematicLength,
    pub color: SchematicStationColor,
}

/// Stroke styling for circle-shaped common stations.
#[derive(Clone, Debug, PartialEq, Eq)]
pub struct SchematicCommonStationStroke {
    pub width: SchematicLength,
    pub alignment: SchematicStrokeAlignment,
    pub color: SchematicStationColor,
}

/// Styling shared by circle-shaped common stations.
#[derive(Clone, Debug, PartialEq, Eq)]
pub struct SchematicCommonStationOptions {
    pub fill: SchematicCommonStationFill,
    pub stroke: SchematicCommonStationStroke,
}

/// Fill styling for capsule-shaped interchange stations.
#[derive(Clone, Debug, PartialEq, Eq)]
pub struct SchematicInterchangeStationFill {
    pub width: SchematicLength,
    pub color: String,
}

/// Stroke styling for capsule-shaped interchange stations.
#[derive(Clone, Debug, PartialEq, Eq)]
pub struct SchematicInterchangeStationStroke {
    pub width: SchematicLength,
    pub alignment: SchematicStrokeAlignment,
    pub color: String,
}

/// Styling shared by capsule-shaped interchange stations.
#[derive(Clone, Debug, PartialEq, Eq)]
pub struct SchematicInterchangeStationOptions {
    pub fill: SchematicInterchangeStationFill,
    pub stroke: SchematicInterchangeStationStroke,
}

/// Global styling for common and interchange stations.
#[derive(Clone, Debug, PartialEq, Eq)]
pub struct SchematicStationOptions {
    pub common: SchematicCommonStationOptions,
    pub interchange: SchematicInterchangeStationOptions,
}

/// Global visual options used by a schematic map.
#[derive(Clone, Debug, PartialEq, Eq)]
pub struct SchematicOptions {
    pub background: SchematicBackgroundOptions,
    pub lines: SchematicLineOptions,
    pub stations: SchematicStationOptions,
}

/// A station and its requested schematic symbol.
pub struct SchematicStation {
    pub id: String,
    pub position: SchematicPoint,
    pub names: LocalizedNames,
    pub symbol: SchematicStationSymbol,
}

/// A layout corner shared by its semantic reference and geometric result.
#[derive(Clone, Debug, PartialEq, Eq)]
pub struct SchematicCorner {
    pub id: String,
    pub position: SchematicPoint,
    pub radius: SchematicLength,
}

/// A station or corner visited by a semantic schematic path.
#[derive(Clone, Debug, PartialEq, Eq)]
pub enum SchematicRouteVisit {
    Station { station_id: String, port: SchematicStationPort },
    Corner { corner_id: String },
}

/// An ordered semantic traversal of stations and layout corners.
#[derive(Clone, Debug, PartialEq, Eq)]
pub struct SchematicPath {
    pub visits: Vec<SchematicRouteVisit>,
    pub closed: bool,
}

/// A semantic metro line and its schematic paths.
pub struct SchematicLine {
    pub id: String,
    pub names: LocalizedNames,
    pub color: String,
    pub paths: Vec<SchematicPath>,
}

/// A complete, human-editable schematic-map manifest.
pub struct SchematicManifest {
    pub options: SchematicOptions,
    pub stations: Vec<SchematicStation>,
    pub corners: Vec<SchematicCorner>,
    pub lines: Vec<SchematicLine>,
}

/// The axis reached by turning `axis` an eighth of a turn counter-clockwise
/// on screen.
pub open spec fn rotate_counter_clockwise_spec(axis: OctilinearAxis) -> OctilinearAxis {
    match axis {
        OctilinearAxis::Horizontal => OctilinearAxis::RisingDiagonal,
        OctilinearAxis::FallingDiagonal => OctilinearAxis::Horizontal,
        OctilinearAxis::Vertical => OctilinearAxis::FallingDiagonal,
        OctilinearAxis::RisingDiagonal => OctilinearAxis::Vertical,
    }
}

/// The axis reached by turning `axis` an eighth of a turn clockwise on screen.
pub open spec fn rotate_clockwise_spec(axis: OctilinearAxis) -> OctilinearAxis {
    match axis {
        OctilinearAxis::Horizontal => OctilinearAxis::FallingDiagonal,
        OctilinearAxis::FallingDiagonal => OctilinearAxis::Vertical,
        OctilinearAxis::Vertical => OctilinearAxis::RisingDiagonal,
        OctilinearAxis::RisingDiagonal => OctilinearAxis::Horizontal,
    }
}

/// The axis at a right angle to `axis`.
pub open spec fn perpendicular_spec(axis: OctilinearAxis) -> OctilinearAxis {
    match axis {
        OctilinearAxis::Horizontal => OctilinearAxis::Vertical,
        OctilinearAxis::FallingDiagonal => OctilinearAxis::RisingDiagonal,
        OctilinearAxis::Vertical => OctilinearAxis::Horizontal,
        OctilinearAxis::RisingDiagonal => OctilinearAxis::FallingDiagonal,
    }
}

pub fn rotate_counter_clockwise(axis: OctilinearAxis) -> (res: OctilinearAxis)
    ensures
        res == rotate_counter_clockwise_spec(axis),
{
    match axis {
        OctilinearAxis::Horizontal => OctilinearAxis::RisingDiagonal,
        OctilinearAxis::FallingDiagonal => OctilinearAxis::Horizontal,
        OctilinearAxis::Vertical => OctilinearAxis::FallingDiagonal,
        OctilinearAxis::RisingDiagonal => OctilinearAxis::Vertical,
    }
}

pub fn rotate_clockwise(axis: OctilinearAxis) -> (res: OctilinearAxis)
    ensures
        res == rotate_clockwise_spec(axis),
{
    match axis {
        OctilinearAxis::Horizontal => OctilinearAxis::FallingDiagonal,
        OctilinearAxis::FallingDiagonal => OctilinearAxis::Vertical,
        OctilinearAxis::Vertical => OctilinearAxis::RisingDiagonal,
        OctilinearAxis::RisingDiagonal => OctilinearAxis::Horizontal,
    }
}

pub fn perpendicular(axis: OctilinearAxis) -> (res: OctilinearAxis)
    ensures
        res == perpendicular_spec(axis),
{
    match axis {
        OctilinearAxis::Horizontal => OctilinearAxis::Vertical,
        OctilinearAxis::FallingDiagonal => OctilinearAxis::RisingDiagonal,
        OctilinearAxis::Vertical => OctilinearAxis::Horizontal,
        OctilinearAxis::RisingDiagonal => OctilinearAxis::FallingDiagonal,
    }
}

/// The direction of `axis` on screen, where x grows to the right and y
/// downwards, up to length: a falling diagonal goes down as it goes right.
pub open spec fn axis_direction(axis: OctilinearAxis) -> (int, int) {
    match axis {
        OctilinearAxis::Horizontal => (1, 0),
        OctilinearAxis::FallingDiagonal => (1, 1),
        OctilinearAxis::Vertical => (0, 1),
        OctilinearAxis::RisingDiagonal => (1, -1),
    }
}

/// `v` turned an eighth of a turn clockwise on screen (x right, y down), up
/// to length.
pub open spec fn turn_eighth(v: (int, int)) -> (int, int) {
    (v.0 - v.1, v.0 + v.1)
}

/// Two nonzero vectors that lie on one line through the origin.
pub open spec fn parallel(a: (int, int), b: (int, int)) -> bool {
    &&& a.0 * b.1 == a.1 * b.0
    &&& (a.0 != 0 || a.1 != 0)
    &&& (b.0 != 0 || b.1 != 0)
}

/// Rotating an axis clockwise by an eighth turn turns its direction by an
/// eighth turn clockwise on screen.
pub proof fn lemma_rotate_clockwise_turns_direction(axis: OctilinearAxis)
    ensures
        parallel(turn_eighth(axis_direction(axis)), axis_direction(rotate_clockwise_spec(axis))),
{
    match axis {
        OctilinearAxis::Horizontal => {
            assert(turn_eighth(axis_direction(axis)) == (1int, 1int));
            assert(axis_direction(rotate_clockwise_spec(axis)) == (1int, 1int));
        },
        OctilinearAxis::FallingDiagonal => {
            assert(turn_eighth(axis_direction(axis)) == (0int, 2int));
            assert(axis_direction(rotate_clockwise_spec(axis)) == (0int, 1int));
        },
        OctilinearAxis::Vertical => {
            assert(turn_eighth(axis_direction(axis)) == (-1int, 1int));
            assert(axis_direction(rotate_clockwise_spec(axis)) == (1int, -1int));
        },
        OctilinearAxis::RisingDiagonal => {
            assert(turn_eighth(axis_direction(axis)) == (2int, 0int));
            assert(axis_direction(rotate_clockwise_spec(axis)) == (1int, 0int));
        },
    }
}

/// Rotating an axis counter-clockwise by an eighth turn gives the axis that
/// an eighth turn clockwise brings back onto it.
pub proof fn lemma_rotate_counter_clockwise_turns_direction(axis: OctilinearAxis)
    ensures
        parallel(turn_eighth(axis_direction(rotate_counter_clockwise_spec(axis))), axis_direction(axis)),
{
    let a = turn_eighth(axis_direction(rotate_counter_clockwise_spec(axis)));
    let b = axis_direction(axis);
    match axis {
        OctilinearAxis::Horizontal => {
            assert(a.0 == 2 && a.1 == 0 && b.0 == 1 && b.1 == 0);
        },
        OctilinearAxis::FallingDiagonal => {
            assert(a.0 == 1 && a.1 == 1 && b.0 == 1 && b.1 == 1);
        },
        OctilinearAxis::Vertical => {
            assert(a.0 == 0 && a.1 == 2 && b.0 == 0 && b.1 == 1);
        },
        OctilinearAxis::RisingDiagonal => {
            assert(a.0 == -1 && a.1 == 1 && b.0 == 1 && b.1 == -1);
        },
    }
}

/// The perpendicular of an axis is the axis turned a quarter turn on screen.
pub proof fn lemma_perpendicular_turns_direction(axis: OctilinearAxis)
    ensures
        parallel(turn_eighth(turn_eighth(axis_direction(axis))), axis_direction(perpendicular_spec(axis))),
{
    let a = turn_eighth(turn_eighth(axis_direction(axis)));
    let b = axis_direction(perpendicular_spec(axis));
    match axis {
        OctilinearAxis::Horizontal => {
            assert(a.0 == 0 && a.1 == 2 && b.0 == 0 && b.1 == 1);
        },
        OctilinearAxis::FallingDiagonal => {
            assert(a.0 == -2 && a.1 == 2 && b.0 == 1 && b.1 == -1);
        },
        OctilinearAxis::Vertical => {
            assert(a.0 == -2 && a.1 == 0 && b.0 == 1 && b.1 == 0);
        },
        OctilinearAxis::RisingDiagonal => {
            assert(a.0 == 2 && a.1 == 2 && b.0 == 1 && b.1 == 1);
        },
    }
}

/// Turning an eighth of a turn one way and then the other comes back.
pub proof fn lemma_rotations_cancel(axis: OctilinearAxis)
    ensures
        rotate_clockwise_spec(rotate_counter_clockwise_spec(axis)) == axis,
        rotate_counter_clockwise_spec(rotate_clockwise_spec(axis)) == axis,
{
}

/// A right angle is two eighth turns either way, and taking it twice comes
/// back to the axis.
pub proof fn lemma_perpendicular_is_quarter_turn(axis: OctilinearAxis)
    ensures
        perpendicular_spec(axis) == rotate_counter_clockwise_spec(rotate_counter_clockwise_spec(axis)),
        perpendicular_spec(axis) == rotate_clockwise_spec(rotate_clockwise_spec(axis)),
        perpendicular_spec(perpendicular_spec(axis)) == axis,
        perpendicular_spec(axis) != axis,
{
}

} // verus!
