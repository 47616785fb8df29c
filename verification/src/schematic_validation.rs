//! The semantic invariants a schematic manifest must meet before it can be
//! rendered, and the order in which violations are reported.
//!
//! Resolving ports to points and checking the geometry of the resulting
//! legs is binary64 arithmetic, done by the program around the library; it
//! hands its findings over as a [`SchematicGeometry`], which is consulted at
//! the point where the renderer would make each geometric check.

use vstd::prelude::*;

use crate::fold::{fold_state, lemma_fold_err_prefix, lemma_fold_full, lemma_fold_ok_at, lemma_fold_step};
use crate::names::{LocaleEntry, LocalizedNames};
use crate::schematic::{
    axis_direction, lemma_perpendicular_turns_direction, lemma_rotate_clockwise_turns_direction,
    lemma_rotate_counter_clockwise_turns_direction, parallel, perpendicular, perpendicular_spec, turn_eighth, rotate_clockwise, rotate_clockwise_spec, rotate_counter_clockwise,
    rotate_counter_clockwise_spec, OctilinearAxis, SchematicCorner, SchematicInterchangePort, SchematicLength, SchematicLine, SchematicManifest, SchematicPath,
    SchematicRouteVisit, SchematicStation, SchematicStationPort, SchematicStationSymbol,
};
use crate::text::{
    compare_text, contains_text, copy_text, find_text, first_index, is_blank, is_blank_spec,
    push_char, texts, TextOrder,
};

verus! {

/// An invariant violation that prevents a schematic manifest from rendering.
#[derive(Debug, PartialEq)]
pub enum SchematicRenderError {
    EmptyStationId,
    DuplicateStation { station: String },
    EmptyCornerId,
    DuplicateCorner { corner: String },
    EmptyLineId,
    DuplicateLine { line: String },
    EmptyLocale { kind: &'static str, id: String },
    EmptyCanonicalName { kind: &'static str, id: String, locale: String },
    UnknownStation { line: String, station: String },
    UnknownCorner { line: String, corner: String },
    UnreferencedCorner { corner: String },
    PathTooShort { line: String, path: usize, minimum: usize },
    OpenPathEndpoint { line: String, path: usize },
    DuplicateStationInPath { line: String, path: usize, station: String },
    DuplicateCornerInPath { line: String, path: usize, corner: String },
    IncompatiblePort { station: String },
    IncompatiblePerpendicularPort { station: String, anchor_count: u8 },
    PerpendicularAnchorOutOfRange { station: String, index: u8, anchor_count: u8 },
    ObliquePortWithMultipleAnchors { station: String, anchor_count: u8 },
    PortSharedByLines { port: String, first_line: String, second_line: String },
    CornerSharedByLines { corner: String, first_line: String, second_line: String },
    IncompletePerpendicularPorts { station: String, anchor_count: u8 },
    AnchorIntervalTooSmall { station: String },
    CoincidentPoints { line: String, path: usize },
    NonOctilinearLeg { line: String, path: usize },
    InvalidPortAxis { station: String },
    BendAtStation { line: String, path: usize, station: String },
    CollinearCorner { corner: String },
    ReversingCorner { corner: String },
    CornerRadiusTooLarge { corner: String },
    CornerRadiiOverlap { line: String, path: usize },
    OverlappingLegs,
    CoordinateRange,
}

/// A [`SchematicRenderError`] with its texts as plain sequences.
pub enum SchematicFault {
    EmptyStationId,
    DuplicateStation { station: Seq<char> },
    EmptyCornerId,
    DuplicateCorner { corner: Seq<char> },
    EmptyLineId,
    DuplicateLine { line: Seq<char> },
    EmptyLocale { kind: Seq<char>, id: Seq<char> },
    EmptyCanonicalName { kind: Seq<char>, id: Seq<char>, locale: Seq<char> },
    UnknownStation { line: Seq<char>, station: Seq<char> },
    UnknownCorner { line: Seq<char>, corner: Seq<char> },
    UnreferencedCorner { corner: Seq<char> },
    PathTooShort { line: Seq<char>, path: int, minimum: int },
    OpenPathEndpoint { line: Seq<char>, path: int },
    DuplicateStationInPath { line: Seq<char>, path: int, station: Seq<char> },
    DuplicateCornerInPath { line: Seq<char>, path: int, corner: Seq<char> },
    IncompatiblePort { station: Seq<char> },
    IncompatiblePerpendicularPort { station: Seq<char>, anchor_count: u8 },
    PerpendicularAnchorOutOfRange { station: Seq<char>, index: u8, anchor_count: u8 },
    ObliquePortWithMultipleAnchors { station: Seq<char>, anchor_count: u8 },
    PortSharedByLines { port: Seq<char>, first_line: Seq<char>, second_line: Seq<char> },
    CornerSharedByLines { corner: Seq<char>, first_line: Seq<char>, second_line: Seq<char> },
    IncompletePerpendicularPorts { station: Seq<char>, anchor_count: u8 },
    AnchorIntervalTooSmall { station: Seq<char> },
    CoincidentPoints { line: Seq<char>, path: int },
    NonOctilinearLeg { line: Seq<char>, path: int },
    InvalidPortAxis { station: Seq<char> },
    BendAtStation { line: Seq<char>, path: int, station: Seq<char> },
    CollinearCorner { corner: Seq<char> },
    ReversingCorner { corner: Seq<char> },
    CornerRadiusTooLarge { corner: Seq<char> },
    CornerRadiiOverlap { line: Seq<char>, path: int },
    OverlappingLegs,
    CoordinateRange,
}

impl View for SchematicRenderError {
    type V = SchematicFault;

    open spec fn view(&self) -> SchematicFault {
        match self {
            SchematicRenderError::EmptyStationId => SchematicFault::EmptyStationId,
            SchematicRenderError::DuplicateStation { station } => SchematicFault::DuplicateStation { station: station@ },
            SchematicRenderError::EmptyCornerId => SchematicFault::EmptyCornerId,
            SchematicRenderError::DuplicateCorner { corner } => SchematicFault::DuplicateCorner { corner: corner@ },
            SchematicRenderError::EmptyLineId => SchematicFault::EmptyLineId,
            SchematicRenderError::DuplicateLine { line } => SchematicFault::DuplicateLine { line: line@ },
            SchematicRenderError::EmptyLocale { kind, id } => SchematicFault::EmptyLocale { kind: kind@, id: id@ },
            SchematicRenderError::EmptyCanonicalName { kind, id, locale } => SchematicFault::EmptyCanonicalName {
                kind: kind@,
                id: id@,
                locale: locale@,
            },
            SchematicRenderError::UnknownStation { line, station } => SchematicFault::UnknownStation { line: line@, station: station@ },
            SchematicRenderError::UnknownCorner { line, corner } => SchematicFault::UnknownCorner { line: line@, corner: corner@ },
            SchematicRenderError::UnreferencedCorner { corner } => SchematicFault::UnreferencedCorner { corner: corner@ },
            SchematicRenderError::PathTooShort { line, path, minimum } => SchematicFault::PathTooShort {
                line: line@,
                path: *path as int,
                minimum: *minimum as int,
            },
            SchematicRenderError::OpenPathEndpoint { line, path } => SchematicFault::OpenPathEndpoint { line: line@, path: *path as int },
            SchematicRenderError::DuplicateStationInPath { line, path, station } => SchematicFault::DuplicateStationInPath {
                line: line@,
                path: *path as int,
                station: station@,
            },
            SchematicRenderError::DuplicateCornerInPath { line, path, corner } => SchematicFault::DuplicateCornerInPath {
                line: line@,
                path: *path as int,
                corner: corner@,
            },
            SchematicRenderError::IncompatiblePort { station } => SchematicFault::IncompatiblePort { station: station@ },
            SchematicRenderError::IncompatiblePerpendicularPort { station, anchor_count } => SchematicFault::IncompatiblePerpendicularPort {
                station: station@,
                anchor_count: *anchor_count,
            },
            SchematicRenderError::PerpendicularAnchorOutOfRange { station, index, anchor_count } => SchematicFault::PerpendicularAnchorOutOfRange {
                station: station@,
                index: *index,
                anchor_count: *anchor_count,
            },
            SchematicRenderError::ObliquePortWithMultipleAnchors { station, anchor_count } => SchematicFault::ObliquePortWithMultipleAnchors {
                station: station@,
                anchor_count: *anchor_count,
            },
            SchematicRenderError::PortSharedByLines { port, first_line, second_line } => SchematicFault::PortSharedByLines {
                port: port@,
                first_line: first_line@,
                second_line: second_line@,
            },
            SchematicRenderError::CornerSharedByLines { corner, first_line, second_line } => SchematicFault::CornerSharedByLines {
                corner: corner@,
                first_line: first_line@,
                second_line: second_line@,
            },
            SchematicRenderError::IncompletePerpendicularPorts { station, anchor_count } => SchematicFault::IncompletePerpendicularPorts {
                station: station@,
                anchor_count: *anchor_count,
            },
            SchematicRenderError::AnchorIntervalTooSmall { station } => SchematicFault::AnchorIntervalTooSmall { station: station@ },
            SchematicRenderError::CoincidentPoints { line, path } => SchematicFault::CoincidentPoints { line: line@, path: *path as int },
            SchematicRenderError::NonOctilinearLeg { line, path } => SchematicFault::NonOctilinearLeg { line: line@, path: *path as int },
            SchematicRenderError::InvalidPortAxis { station } => SchematicFault::InvalidPortAxis { station: station@ },
            SchematicRenderError::BendAtStation { line, path, station } => SchematicFault::BendAtStation {
                line: line@,
                path: *path as int,
                station: station@,
            },
            SchematicRenderError::CollinearCorner { corner } => SchematicFault::CollinearCorner { corner: corner@ },
            SchematicRenderError::ReversingCorner { corner } => SchematicFault::ReversingCorner { corner: corner@ },
            SchematicRenderError::CornerRadiusTooLarge { corner } => SchematicFault::CornerRadiusTooLarge { corner: corner@ },
            SchematicRenderError::CornerRadiiOverlap { line, path } => SchematicFault::CornerRadiiOverlap { line: line@, path: *path as int },
            SchematicRenderError::OverlappingLegs => SchematicFault::OverlappingLegs,
            SchematicRenderError::CoordinateRange => SchematicFault::CoordinateRange,
        }
    }
}

} // verus!

verus! {

/// One locale of a name table: its key must not be blank and its canonical
/// name must exist and not be blank.
pub open spec fn names_step(kind: Seq<char>, id: Seq<char>) -> spec_fn((), LocaleEntry) -> Result<(), SchematicFault> {
    |u: (), e: LocaleEntry|
        if is_blank_spec(e.0) {
            Err(SchematicFault::EmptyLocale { kind, id })
        } else if e.1.len() == 0 || is_blank_spec(e.1[0]) {
            Err(SchematicFault::EmptyCanonicalName { kind, id, locale: e.0 })
        } else {
            Ok(())
        }
}

/// The first defect of the names of the `kind` called `id`, locales in order.
pub open spec fn names_verdict(kind: Seq<char>, id: Seq<char>, names: Seq<LocaleEntry>) -> Result<(), SchematicFault> {
    fold_state(names, (), names_step(kind, id))
}

/// Every locale key is non-blank and has a non-blank canonical name.
pub fn validate_names(kind: &'static str, id: &str, names: &LocalizedNames) -> (res: Result<(), SchematicRenderError>)
    ensures
        match res {
            Ok(_) => names_verdict(kind@, id@, names@) == Ok::<(), SchematicFault>(()),
            Err(e) => names_verdict(kind@, id@, names@) == Err::<(), SchematicFault>(e@),
        },
{
    let ghost f = names_step(kind@, id@);
    let mut i: usize = 0;
    while i < names.len()
        invariant
            i <= names@.len(),
            f == names_step(kind@, id@),
            fold_state(names@.take(i as int), (), f) == Ok::<(), SchematicFault>(()),
        decreases names@.len() - i,
    {
        let (locale, values) = names.entry(i);
        proof {
            lemma_fold_step(names@, (), f, i as int);
        }
        let err: Option<SchematicRenderError> = if is_blank(locale.as_str()) {
            Some(SchematicRenderError::EmptyLocale { kind, id: id.to_owned() })
        } else if values.len() == 0 || is_blank(values[0].as_str()) {
            Some(SchematicRenderError::EmptyCanonicalName { kind, id: id.to_owned(), locale: copy_text(locale) })
        } else {
            None
        };
        proof {
            if values.len() > 0 {
                assert(values@.map_values(|n: String| n@)[0] == values@[0]@);
            }
        }
        match err {
            Some(e) => {
                proof {
                    lemma_fold_err_prefix(names@, (), f, i + 1);
                }
                return Err(e);
            },
            None => {},
        }
        i = i + 1;
    }
    proof {
        lemma_fold_full(names@, (), f);
    }
    Ok(())
}

/// The decimal digit `d`.
pub open spec fn digit(d: int) -> char {
    (48 + d) as char
}

/// The decimal numeral of `n`.
pub open spec fn decimal(n: nat) -> Seq<char>
    decreases n,
{
    if n < 10 {
        seq![digit(n as int)]
    } else {
        decimal(n / 10) + seq![digit((n % 10) as int)]
    }
}

/// The number that decimal digits `s` denote, most significant first.
pub open spec fn digits_value(s: Seq<char>) -> int
    decreases s.len(),
{
    if s.len() == 0 {
        0
    } else {
        digits_value(s.drop_last()) * 10 + ((s.last() as int) - 48)
    }
}

/// The numeral of `n` is made of decimal digits, reads back as `n`, most
/// significant digit first, and has no leading zero.
pub proof fn lemma_decimal_reads_back(n: nat)
    ensures
        decimal(n).len() > 0,
        forall|i: int| 0 <= i < decimal(n).len() ==> '0' <= #[trigger] decimal(n)[i] <= '9',
        digits_value(decimal(n)) == n,
        decimal(n)[0] == '0' ==> n == 0,
    decreases n,
{
    if n >= 10 {
        let q = n / 10;
        let r = n % 10;
        lemma_decimal_reads_back(q);
        let t = decimal(q) + seq![digit(r as int)];
        assert(t.drop_last() =~= decimal(q));
        assert(t.last() == digit(r as int));
        assert(t[0] == decimal(q)[0]);
        assert forall|i: int| 0 <= i < t.len() implies '0' <= #[trigger] t[i] <= '9' by {
            if i < decimal(q).len() {
                assert(t[i] == decimal(q)[i]);
            }
        }
        assert((digit(r as int) as int) == 48 + r);
        assert(digits_value(t) == digits_value(decimal(q)) * 10 + r);
        assert(q * 10 + r == n);
    } else {
        let t = seq![digit(n as int)];
        assert(t.drop_last() =~= Seq::<char>::empty());
        assert((digit(n as int) as int) == 48 + n);
        assert(t.last() == digit(n as int));
        assert(digits_value(Seq::<char>::empty()) == 0);
        assert(digits_value(t) == n);
    }
}

fn push_digit(s: &mut String, d: u8)
    requires
        d < 10,
    ensures
        final(s)@ == old(s)@.push(digit(d as int)),
{
    let c: char = (48u8 + d) as char;
    push_char(s, c);
}

/// Append the decimal numeral of `n`.
pub fn push_decimal(s: &mut String, n: u8)
    ensures
        final(s)@ == old(s)@ + decimal(n as nat),
{
    let ghost before = s@;
    if n >= 100 {
        push_digit(s, n / 100);
        push_digit(s, (n / 10) % 10);
        push_digit(s, n % 10);
        proof {
            reveal_with_fuel(decimal, 3);
            assert(((n / 10) as nat) / 10 == (n / 100) as nat);
            assert(s@ =~= before + decimal(n as nat));
        }
    } else if n >= 10 {
        push_digit(s, n / 10);
        push_digit(s, n % 10);
        proof {
            reveal_with_fuel(decimal, 2);
            assert(s@ =~= before + decimal(n as nat));
        }
    } else {
        push_digit(s, n);
        proof {
            assert(s@ =~= before + decimal(n as nat));
        }
    }
}

/// The `Debug` text of an interchange port.
pub open spec fn interchange_debug(p: SchematicInterchangePort) -> Seq<char> {
    match p {
        SchematicInterchangePort::MajorAxis {} => "MajorAxis"@,
        SchematicInterchangePort::RisingOblique {} => "RisingOblique"@,
        SchematicInterchangePort::FallingOblique {} => "FallingOblique"@,
        SchematicInterchangePort::SinglePerpendicular {} => "SinglePerpendicular"@,
        SchematicInterchangePort::PerpendicularAnchor { index } => "PerpendicularAnchor { index: "@ + decimal(index as nat) + " }"@,
    }
}

/// The `Debug` text of a station port.
pub open spec fn port_debug(p: SchematicStationPort) -> Seq<char> {
    match p {
        SchematicStationPort::SingleLine => "SingleLine"@,
        SchematicStationPort::Interchange(i) => "Interchange("@ + interchange_debug(i) + ")"@,
    }
}

/// How a station port is named in messages: `station:Port`.
pub open spec fn port_display(station: Seq<char>, port: SchematicStationPort) -> Seq<char> {
    station + ":"@ + port_debug(port)
}

/// A port of a particular station.
#[derive(Clone, Debug, PartialEq, Eq)]
pub struct PortKey {
    pub station: String,
    pub port: SchematicStationPort,
}

impl PortKey {
    pub fn new(station: &str, port: SchematicStationPort) -> (res: Self)
        ensures
            res.station@ == station@,
            res.port == port,
    {
        PortKey { station: station.to_owned(), port }
    }

    /// `station:Port`, the port given as by `Debug`.
    pub fn display(&self) -> (res: String)
        ensures
            res@ == port_display(self.station@, self.port),
    {
        let mut s = copy_text(&self.station);
        s.append(":");
        let ghost before = s@;
        match self.port {
            SchematicStationPort::SingleLine => {
                s.append("SingleLine");
            },
            SchematicStationPort::Interchange(i) => {
                s.append("Interchange(");
                match i {
                    SchematicInterchangePort::MajorAxis {} => s.append("MajorAxis"),
                    SchematicInterchangePort::RisingOblique {} => s.append("RisingOblique"),
                    SchematicInterchangePort::FallingOblique {} => s.append("FallingOblique"),
                    SchematicInterchangePort::SinglePerpendicular {} => s.append("SinglePerpendicular"),
                    SchematicInterchangePort::PerpendicularAnchor { index } => {
                        s.append("PerpendicularAnchor { index: ");
                        push_decimal(&mut s, index);
                        s.append(" }");
                    },
                }
                s.append(")");
            },
        }
        proof {
            assert(s@ =~= before + port_debug(self.port));
        }
        s
    }
}

} // verus!

verus! {

/// What the numeric checks found for one leg of a path: its ends coincide,
/// it runs off the octilinear axes, or it runs along an axis.
#[derive(Clone, Copy, Debug, PartialEq, Eq, Structural)]
pub enum LegFinding {
    Coincident,
    NonOctilinear,
    Along(OctilinearAxis),
}

/// What the numeric checks found for a corner between two legs: its radius
/// fits, or the legs do not turn, or they turn back, or the rounding does
/// not fit the legs.
#[derive(Clone, Copy, Debug, PartialEq, Eq, Structural)]
pub enum CornerFinding {
    Fits,
    Collinear,
    Reversing,
    RadiusTooLarge,
}

/// What the numeric checks found for one path: whether the point each visit
/// resolves to is finite (corners always are); each leg, from each point to
/// the next (and, on a closed path, from the last back to the first); for
/// each point, whether the path turns back on itself there and how its
/// corner fits; and for each leg whether the roundings of its two ends
/// overlap.
pub struct PathGeometry {
    pub anchors_in_range: Vec<bool>,
    pub legs: Vec<LegFinding>,
    pub reverses: Vec<bool>,
    pub corners: Vec<CornerFinding>,
    pub radii_overlap: Vec<bool>,
}

/// What the geometric checks found for a whole manifest: each path of each
/// line, whether each station's capsule length is finite, whether any two
/// legs overlap, and whether the rendered extent is finite.
pub struct SchematicGeometry {
    pub paths: Vec<Vec<PathGeometry>>,
    pub capsule_lengths_in_range: Vec<bool>,
    pub legs_overlap: bool,
    pub bounds_in_range: bool,
}

/// The number of legs of a path of `n` points.
pub open spec fn segment_count(n: int, closed: bool) -> int {
    if closed {
        n
    } else if n > 0 {
        n - 1
    } else {
        0
    }
}

/// `g` has an entry for every visit and every leg of `p`.
pub open spec fn path_geometry_fits(p: SchematicPath, g: PathGeometry) -> bool {
    let n = p.visits@.len() as int;
    &&& g.anchors_in_range@.len() == n
    &&& g.reverses@.len() == n
    &&& g.corners@.len() == n
    &&& g.legs@.len() == segment_count(n, p.closed)
    &&& g.radii_overlap@.len() == segment_count(n, p.closed)
}

/// `g` has an entry for every line, path, visit and station of `m`.
pub open spec fn geometry_fits(m: SchematicManifest, g: SchematicGeometry) -> bool {
    &&& g.paths@.len() == m.lines@.len()
    &&& forall|l: int| 0 <= l < m.lines@.len() ==> (#[trigger] g.paths@[l])@.len() == m.lines@[l].paths@.len()
    &&& forall|l: int, p: int|
        0 <= l < m.lines@.len() && 0 <= p < m.lines@[l].paths@.len()
            ==> path_geometry_fits(m.lines@[l].paths@[p], #[trigger] g.paths@[l]@[p])
    &&& g.capsule_lengths_in_range@.len() == m.stations@.len()
}

/// A visit of `line` to a port of `station`.
pub struct PortRecord {
    pub station: Seq<char>,
    pub port: SchematicStationPort,
    pub line: Seq<char>,
}

/// A visit of `line` to `corner`.
pub struct CornerRecord {
    pub corner: Seq<char>,
    pub line: Seq<char>,
}

/// What the line pass has seen so far: the line ids, and every port and
/// corner visit in order.
pub struct Ledger {
    pub lines: Seq<Seq<char>>,
    pub ports: Seq<PortRecord>,
    pub corners: Seq<CornerRecord>,
}

/// The state while walking the visits of one path: the ledger, the stations
/// and corners the path has visited, and the number of visits so far.
pub struct VisitState {
    pub ledger: Ledger,
    pub stations: Seq<Seq<char>>,
    pub corners: Seq<Seq<char>>,
    pub index: int,
}

pub open spec fn schematic_station_ids(s: Seq<SchematicStation>) -> Seq<Seq<char>> {
    s.map_values(|st: SchematicStation| st.id@)
}

pub open spec fn schematic_corner_ids(s: Seq<SchematicCorner>) -> Seq<Seq<char>> {
    s.map_values(|c: SchematicCorner| c.id@)
}

/// The line that first visited this port of `station`, if any did.
pub open spec fn port_owner(ports: Seq<PortRecord>, station: Seq<char>, port: SchematicStationPort) -> Option<Seq<char>>
    decreases ports.len(),
{
    if ports.len() == 0 {
        None
    } else if ports[0].station == station && ports[0].port == port {
        Some(ports[0].line)
    } else {
        port_owner(ports.drop_first(), station, port)
    }
}

/// The line that first visited `corner`, if any did.
pub open spec fn corner_owner(corners: Seq<CornerRecord>, corner: Seq<char>) -> Option<Seq<char>>
    decreases corners.len(),
{
    if corners.len() == 0 {
        None
    } else if corners[0].corner == corner {
        Some(corners[0].line)
    } else {
        corner_owner(corners.drop_first(), corner)
    }
}

/// How often this port of `station` is visited.
pub open spec fn port_count(ports: Seq<PortRecord>, station: Seq<char>, port: SchematicStationPort) -> nat
    decreases ports.len(),
{
    if ports.len() == 0 {
        0
    } else {
        port_count(ports.drop_last(), station, port) + if ports.last().station == station && ports.last().port == port { 1nat } else { 0nat }
    }
}

/// The station pass: ids non-blank and unique, names well formed.
pub open spec fn station_index_step() -> spec_fn(Seq<Seq<char>>, SchematicStation) -> Result<Seq<Seq<char>>, SchematicFault> {
    |seen: Seq<Seq<char>>, st: SchematicStation|
        if is_blank_spec(st.id@) {
            Err(SchematicFault::EmptyStationId)
        } else if seen.contains(st.id@) {
            Err(SchematicFault::DuplicateStation { station: st.id@ })
        } else {
            match names_verdict("station"@, st.id@, st.names@) {
                Err(e) => Err(e),
                Ok(_) => Ok(seen.push(st.id@)),
            }
        }
}

/// The corner pass: ids non-blank and unique.
pub open spec fn corner_index_step() -> spec_fn(Seq<Seq<char>>, SchematicCorner) -> Result<Seq<Seq<char>>, SchematicFault> {
    |seen: Seq<Seq<char>>, c: SchematicCorner|
        if is_blank_spec(c.id@) {
            Err(SchematicFault::EmptyCornerId)
        } else if seen.contains(c.id@) {
            Err(SchematicFault::DuplicateCorner { corner: c.id@ })
        } else {
            Ok(seen.push(c.id@))
        }
}

/// Whether `port` suits the symbol of `st`: a circle takes a single line, a
/// capsule takes interchange ports within its anchors.
pub open spec fn resolve_fault(st: SchematicStation, port: SchematicStationPort) -> Option<SchematicFault> {
    match st.symbol {
        SchematicStationSymbol::Circle {} => match port {
            SchematicStationPort::SingleLine => None,
            SchematicStationPort::Interchange(_) => Some(SchematicFault::IncompatiblePort { station: st.id@ }),
        },
        SchematicStationSymbol::Capsule { axis, anchor_count, anchor_interval } => match port {
            SchematicStationPort::SingleLine => Some(SchematicFault::IncompatiblePort { station: st.id@ }),
            SchematicStationPort::Interchange(i) => match i {
                SchematicInterchangePort::MajorAxis {} => None,
                SchematicInterchangePort::RisingOblique {} | SchematicInterchangePort::FallingOblique {} =>
                    if anchor_count > 1 {
                        Some(SchematicFault::ObliquePortWithMultipleAnchors { station: st.id@, anchor_count })
                    } else {
                        None
                    },
                SchematicInterchangePort::SinglePerpendicular {} =>
                    if anchor_count != 1 {
                        Some(SchematicFault::IncompatiblePerpendicularPort { station: st.id@, anchor_count })
                    } else {
                        None
                    },
                SchematicInterchangePort::PerpendicularAnchor { index } =>
                    if anchor_count <= 1 {
                        Some(SchematicFault::IncompatiblePerpendicularPort { station: st.id@, anchor_count })
                    } else if index >= anchor_count {
                        Some(SchematicFault::PerpendicularAnchorOutOfRange { station: st.id@, index, anchor_count })
                    } else {
                        None
                    },
            },
        },
    }
}

/// One visit of path `path` of line `line`.
pub open spec fn visit_step(
    stations: Seq<SchematicStation>,
    corners: Seq<Seq<char>>,
    line: Seq<char>,
    path: int,
    in_range: Seq<bool>,
) -> spec_fn(VisitState, SchematicRouteVisit) -> Result<VisitState, SchematicFault> {
    |vs: VisitState, v: SchematicRouteVisit|
        match v {
            SchematicRouteVisit::Station { station_id, port } => {
                let id = station_id@;
                let at = first_index(schematic_station_ids(stations), id);
                if vs.stations.contains(id) {
                    Err(SchematicFault::DuplicateStationInPath { line, path, station: id })
                } else if at < 0 {
                    Err(SchematicFault::UnknownStation { line, station: id })
                } else if port_owner(vs.ledger.ports, id, port) is Some && port_owner(vs.ledger.ports, id, port)->0 != line {
                    Err(SchematicFault::PortSharedByLines {
                        port: port_display(id, port),
                        first_line: port_owner(vs.ledger.ports, id, port)->0,
                        second_line: line,
                    })
                } else if resolve_fault(stations[at], port) is Some {
                    Err(resolve_fault(stations[at], port)->0)
                } else if !in_range[vs.index] {
                    Err(SchematicFault::CoordinateRange)
                } else {
                    Ok(VisitState {
                        ledger: Ledger {
                            ports: vs.ledger.ports.push(PortRecord { station: id, port, line }),
                            ..vs.ledger
                        },
                        stations: vs.stations.push(id),
                        index: vs.index + 1,
                        ..vs
                    })
                }
            },
            SchematicRouteVisit::Corner { corner_id } => {
                let id = corner_id@;
                if vs.corners.contains(id) {
                    Err(SchematicFault::DuplicateCornerInPath { line, path, corner: id })
                } else if !corners.contains(id) {
                    Err(SchematicFault::UnknownCorner { line, corner: id })
                } else if corner_owner(vs.ledger.corners, id) is Some && corner_owner(vs.ledger.corners, id)->0 != line {
                    Err(SchematicFault::CornerSharedByLines {
                        corner: id,
                        first_line: corner_owner(vs.ledger.corners, id)->0,
                        second_line: line,
                    })
                } else {
                    Ok(VisitState {
                        ledger: Ledger {
                            corners: vs.ledger.corners.push(CornerRecord { corner: id, line }),
                            ..vs.ledger
                        },
                        corners: vs.corners.push(id),
                        index: vs.index + 1,
                        ..vs
                    })
                }
            },
        }
}

/// The axis a leg runs along, when it runs along one.
pub open spec fn leg_axis(f: LegFinding) -> OctilinearAxis {
    match f {
        LegFinding::Along(a) => a,
        _ => OctilinearAxis::Horizontal,
    }
}

/// The first leg defect of path `path` of `line`.
pub open spec fn leg_step(line: Seq<char>, path: int) -> spec_fn((), LegFinding) -> Result<(), SchematicFault> {
    |u: (), f: LegFinding|
        match f {
            LegFinding::Coincident => Err(SchematicFault::CoincidentPoints { line, path }),
            LegFinding::NonOctilinear => Err(SchematicFault::NonOctilinearLeg { line, path }),
            LegFinding::Along(_) => Ok(()),
        }
}

/// The axis of the leg that arrives at point `i`: the leg before it, or on a
/// closed path the last leg for the first point.
pub open spec fn incoming_axis(legs: Seq<LegFinding>, closed: bool, i: int) -> Option<OctilinearAxis> {
    if i > 0 {
        Some(leg_axis(legs[i - 1]))
    } else if closed && legs.len() > 0 {
        Some(leg_axis(legs.last()))
    } else {
        None
    }
}

/// The axis of the leg that leaves point `i`, if one does.
pub open spec fn outgoing_axis(legs: Seq<LegFinding>, i: int) -> Option<OctilinearAxis> {
    if i < legs.len() {
        Some(leg_axis(legs[i]))
    } else {
        None
    }
}

/// The axis the legs at a station port must take: none for a circle; the
/// capsule's axis, or an eighth turn either way for the oblique ports, or a
/// right angle for the perpendicular ones.
pub open spec fn permitted_axis(symbol: SchematicStationSymbol, port: SchematicStationPort) -> Option<OctilinearAxis> {
    match symbol {
        SchematicStationSymbol::Circle {} => None,
        SchematicStationSymbol::Capsule { axis, .. } => match port {
            SchematicStationPort::SingleLine => None,
            SchematicStationPort::Interchange(i) => Some(
                match i {
                    SchematicInterchangePort::MajorAxis {} => axis,
                    SchematicInterchangePort::RisingOblique {} => rotate_counter_clockwise_spec(axis),
                    SchematicInterchangePort::FallingOblique {} => rotate_clockwise_spec(axis),
                    SchematicInterchangePort::SinglePerpendicular {} => perpendicular_spec(axis),
                    SchematicInterchangePort::PerpendicularAnchor { .. } => perpendicular_spec(axis),
                },
            ),
        },
    }
}

/// The legs at an interchange port keep to the axis its documentation gives,
/// relative to the capsule's major axis, as directions on screen: the major
/// axis itself, an eighth turn counter-clockwise for a rising oblique port,
/// an eighth turn clockwise for a falling one, and a quarter turn for the
/// perpendicular ones.
pub proof fn lemma_port_axes_turn_from_major_axis(axis: OctilinearAxis, anchor_count: u8, anchor_interval: SchematicLength, index: u8)
    ensures
        ({
            let cap = SchematicStationSymbol::Capsule { axis, anchor_count, anchor_interval };
            let at = |i: SchematicInterchangePort| axis_direction(permitted_axis(cap, SchematicStationPort::Interchange(i))->0);
            &&& parallel(at(SchematicInterchangePort::MajorAxis {}), axis_direction(axis))
            &&& parallel(turn_eighth(at(SchematicInterchangePort::RisingOblique {})), axis_direction(axis))
            &&& parallel(at(SchematicInterchangePort::FallingOblique {}), turn_eighth(axis_direction(axis)))
            &&& parallel(at(SchematicInterchangePort::SinglePerpendicular {}), turn_eighth(turn_eighth(axis_direction(axis))))
            &&& parallel(at(SchematicInterchangePort::PerpendicularAnchor { index }), turn_eighth(turn_eighth(axis_direction(axis))))
        }),
        permitted_axis(SchematicStationSymbol::Circle {}, SchematicStationPort::SingleLine) is None,
{
    lemma_rotate_clockwise_turns_direction(axis);
    lemma_rotate_counter_clockwise_turns_direction(axis);
    lemma_perpendicular_turns_direction(axis);
    let d = axis_direction(axis);
    let c = axis_direction(rotate_clockwise_spec(axis));
    let t = turn_eighth(d);
    let q = axis_direction(perpendicular_spec(axis));
    let tt = turn_eighth(turn_eighth(d));
    assert(d.0 * d.1 == d.1 * d.0) by (nonlinear_arith);
    assert(c.0 * t.1 == c.1 * t.0) by (nonlinear_arith)
        requires t.0 * c.1 == t.1 * c.0;
    assert(q.0 * tt.1 == q.1 * tt.0) by (nonlinear_arith)
        requires tt.0 * q.1 == tt.1 * q.0;
}

/// Whether axis `a`, where there is a leg, differs from `b`.
pub open spec fn departs(a: Option<OctilinearAxis>, b: OctilinearAxis) -> bool {
    a is Some && a->0 != b
}

/// One point of path `path` of `line`; the state counts the points so far.
/// A station port keeps its legs on its permitted axis and the path goes
/// straight through it; a corner lies between two legs and its rounding
/// fits.
pub open spec fn point_step(
    stations: Seq<SchematicStation>,
    line: Seq<char>,
    path: int,
    closed: bool,
    g: PathGeometry,
) -> spec_fn(int, SchematicRouteVisit) -> Result<int, SchematicFault> {
    |i: int, v: SchematicRouteVisit| {
        let incoming = incoming_axis(g.legs@, closed, i);
        let outgoing = outgoing_axis(g.legs@, i);
        match v {
            SchematicRouteVisit::Station { station_id, port } => {
                let at = first_index(schematic_station_ids(stations), station_id@);
                let permitted = if at >= 0 { permitted_axis(stations[at].symbol, port) } else { None };
                if permitted is Some && (departs(incoming, permitted->0) || departs(outgoing, permitted->0)) {
                    Err(SchematicFault::InvalidPortAxis { station: station_id@ })
                } else if incoming is Some && outgoing is Some && (incoming != outgoing || g.reverses@[i]) {
                    Err(SchematicFault::BendAtStation { line, path, station: station_id@ })
                } else {
                    Ok(i + 1)
                }
            },
            SchematicRouteVisit::Corner { corner_id } => {
                if incoming is None || outgoing is None {
                    Err(SchematicFault::CollinearCorner { corner: corner_id@ })
                } else {
                    match g.corners@[i] {
                        CornerFinding::Fits => Ok(i + 1),
                        CornerFinding::Collinear => Err(SchematicFault::CollinearCorner { corner: corner_id@ }),
                        CornerFinding::Reversing => Err(SchematicFault::ReversingCorner { corner: corner_id@ }),
                        CornerFinding::RadiusTooLarge => Err(SchematicFault::CornerRadiusTooLarge { corner: corner_id@ }),
                    }
                }
            },
        }
    }
}

/// The roundings at the two ends of a leg must not meet.
pub open spec fn radii_step(line: Seq<char>, path: int) -> spec_fn((), bool) -> Result<(), SchematicFault> {
    |u: (), overlap: bool| if overlap { Err(SchematicFault::CornerRadiiOverlap { line, path }) } else { Ok(()) }
}

/// The first geometric defect of path `path` of `line`, which visits
/// `visits`: its legs in order, then its points, then its corner roundings.
pub open spec fn path_verdict(
    stations: Seq<SchematicStation>,
    line: Seq<char>,
    path: int,
    visits: Seq<SchematicRouteVisit>,
    closed: bool,
    g: PathGeometry,
) -> Result<(), SchematicFault> {
    match fold_state(g.legs@, (), leg_step(line, path)) {
        Err(e) => Err(e),
        Ok(_) => match fold_state(visits, 0int, point_step(stations, line, path, closed, g)) {
            Err(e) => Err(e),
            Ok(_) => fold_state(g.radii_overlap@, (), radii_step(line, path)),
        },
    }
}

/// How many station visits `visits` holds.
pub open spec fn station_visit_count(visits: Seq<SchematicRouteVisit>) -> nat
    decreases visits.len(),
{
    if visits.len() == 0 {
        0
    } else {
        station_visit_count(visits.drop_last()) + if visits.last() is Station { 1nat } else { 0nat }
    }
}

/// The fewest station visits a path may hold.
pub open spec fn minimum_station_visits(closed: bool) -> int {
    if closed { 3 } else { 2 }
}

/// An open path must begin and end at stations.
pub open spec fn open_endpoints_ok(p: SchematicPath) -> bool {
    p.closed || (p.visits@.len() > 0 && p.visits@[0] is Station && p.visits@.last() is Station)
}

/// One path of line `line`; the state holds the ledger and counts the paths
/// so far.
pub open spec fn path_step(
    stations: Seq<SchematicStation>,
    corners: Seq<Seq<char>>,
    line: Seq<char>,
    geometry: Seq<PathGeometry>,
) -> spec_fn((Ledger, int), SchematicPath) -> Result<(Ledger, int), SchematicFault> {
    |st: (Ledger, int), p: SchematicPath| {
        let number = st.1 + 1;
        if station_visit_count(p.visits@) < minimum_station_visits(p.closed) {
            Err(SchematicFault::PathTooShort { line, path: number, minimum: minimum_station_visits(p.closed) })
        } else if !open_endpoints_ok(p) {
            Err(SchematicFault::OpenPathEndpoint { line, path: number })
        } else {
            let start = VisitState { ledger: st.0, stations: Seq::empty(), corners: Seq::empty(), index: 0 };
            match fold_state(p.visits@, start, visit_step(stations, corners, line, number, geometry[st.1].anchors_in_range@)) {
                Err(e) => Err(e),
                Ok(vs) => match path_verdict(stations, line, number, p.visits@, p.closed, geometry[st.1]) {
                    Err(e) => Err(e),
                    Ok(_) => Ok((vs.ledger, number)),
                },
            }
        }
    }
}

/// One line: its id non-blank and new, its names well formed, its paths in
/// order. The number of lines seen so far picks its geometry.
pub open spec fn line_step(
    stations: Seq<SchematicStation>,
    corners: Seq<Seq<char>>,
    geometry: Seq<Vec<PathGeometry>>,
) -> spec_fn(Ledger, SchematicLine) -> Result<Ledger, SchematicFault> {
    |led: Ledger, l: SchematicLine|
        if is_blank_spec(l.id@) {
            Err(SchematicFault::EmptyLineId)
        } else if led.lines.contains(l.id@) {
            Err(SchematicFault::DuplicateLine { line: l.id@ })
        } else {
            match names_verdict("line"@, l.id@, l.names@) {
                Err(e) => Err(e),
                Ok(_) => match fold_state(l.paths@, (led, 0int), path_step(stations, corners, l.id@, geometry[led.lines.len() as int]@)) {
                    Err(e) => Err(e),
                    Ok(r) => Ok(Ledger { lines: r.0.lines.push(l.id@), ..r.0 }),
                },
            }
        }
}

/// Every corner must be visited by some path.
pub open spec fn corner_reference_step(visits: Seq<CornerRecord>) -> spec_fn((), SchematicCorner) -> Result<(), SchematicFault> {
    |u: (), c: SchematicCorner|
        if corner_owner(visits, c.id@) is None {
            Err(SchematicFault::UnreferencedCorner { corner: c.id@ })
        } else {
            Ok(())
        }
}

/// A capsule with `n` anchors is reached at each of its perpendicular ports
/// exactly once: the single perpendicular port when `n` is 1, each anchor
/// `0..n` when it is more.
pub open spec fn perpendicular_complete(ports: Seq<PortRecord>, station: Seq<char>, n: u8) -> bool {
    if n == 0 {
        true
    } else if n == 1 {
        port_count(ports, station, SchematicStationPort::Interchange(SchematicInterchangePort::SinglePerpendicular {})) == 1
    } else {
        forall|i: u8| i < n ==> port_count(ports, station, SchematicStationPort::Interchange(SchematicInterchangePort::PerpendicularAnchor { index: i })) == 1
    }
}

pub open spec fn perpendicular_step(ports: Seq<PortRecord>) -> spec_fn((), SchematicStation) -> Result<(), SchematicFault> {
    |u: (), st: SchematicStation|
        match st.symbol {
            SchematicStationSymbol::Circle {} => Ok(()),
            SchematicStationSymbol::Capsule { axis, anchor_count, anchor_interval } =>
                if perpendicular_complete(ports, st.id@, anchor_count) {
                    Ok(())
                } else {
                    Err(SchematicFault::IncompletePerpendicularPorts { station: st.id@, anchor_count })
                },
        }
}

/// The symbol pass: a capsule with several anchors spaces them at least a
/// line width apart, and its length must be finite. The state counts the
/// stations so far.
pub open spec fn symbol_step(line_width: u64, lengths_in_range: Seq<bool>) -> spec_fn(int, SchematicStation) -> Result<int, SchematicFault> {
    |i: int, st: SchematicStation|
        match st.symbol {
            SchematicStationSymbol::Circle {} => Ok(i + 1),
            SchematicStationSymbol::Capsule { axis, anchor_count, anchor_interval } =>
                if anchor_count > 1 && crate::float_bits::positive_lt_bits(anchor_interval.bits(), line_width) {
                    Err(SchematicFault::AnchorIntervalTooSmall { station: st.id@ })
                } else if !lengths_in_range[i] {
                    Err(SchematicFault::CoordinateRange)
                } else {
                    Ok(i + 1)
                },
        }
}

pub open spec fn empty_ledger() -> Ledger {
    Ledger { lines: Seq::empty(), ports: Seq::empty(), corners: Seq::empty() }
}

/// The ledger of the line pass over `m`.
pub open spec fn line_pass(m: SchematicManifest, g: SchematicGeometry) -> Result<Ledger, SchematicFault> {
    fold_state(
        m.lines@,
        empty_ledger(),
        line_step(m.stations@, schematic_corner_ids(m.corners@), g.paths@),
    )
}

/// The first invariant that `m` breaks, given what the geometric checks
/// found: stations, corners, lines with their paths and visits in order,
/// unreferenced corners, perpendicular ports, symbols, overlapping legs and
/// finally the rendered extent.
pub open spec fn schematic_verdict(m: SchematicManifest, g: SchematicGeometry) -> Result<(), SchematicFault> {
    match fold_state(m.stations@, Seq::<Seq<char>>::empty(), station_index_step()) {
        Err(e) => Err(e),
        Ok(_) => match fold_state(m.corners@, Seq::<Seq<char>>::empty(), corner_index_step()) {
            Err(e) => Err(e),
            Ok(_) => match line_pass(m, g) {
                Err(e) => Err(e),
                Ok(led) => match fold_state(m.corners@, (), corner_reference_step(led.corners)) {
                    Err(e) => Err(e),
                    Ok(_) => match fold_state(m.stations@, (), perpendicular_step(led.ports)) {
                        Err(e) => Err(e),
                        Ok(_) => match fold_state(m.stations@, 0int, symbol_step(m.options.lines.width.bits(), g.capsule_lengths_in_range@)) {
                            Err(e) => Err(e),
                            Ok(_) => if g.legs_overlap {
                                Err(SchematicFault::OverlappingLegs)
                            } else if !g.bounds_in_range {
                                Err(SchematicFault::CoordinateRange)
                            } else {
                                Ok(())
                            },
                        },
                    },
                },
            },
        },
    }
}

} // verus!

verus! {

fn check_station_index(stations: &Vec<SchematicStation>) -> (res: Result<Vec<String>, SchematicRenderError>)
    ensures
        match res {
            Ok(ids) => fold_state(stations@, Seq::<Seq<char>>::empty(), station_index_step()) is Ok
                && texts(ids@) == schematic_station_ids(stations@),
            Err(e) => fold_state(stations@, Seq::<Seq<char>>::empty(), station_index_step()) == Err::<Seq<Seq<char>>, SchematicFault>(e@),
        },
{
    let mut ids: Vec<String> = Vec::new();
    let mut i: usize = 0;
    proof {
        assert(texts(ids@) =~= Seq::<Seq<char>>::empty());
        assert(schematic_station_ids(stations@.take(0)) =~= Seq::<Seq<char>>::empty());
    }
    while i < stations.len()
        invariant
            i <= stations.len(),
            fold_state(stations@.take(i as int), Seq::<Seq<char>>::empty(), station_index_step()) == Ok::<Seq<Seq<char>>, SchematicFault>(texts(ids@)),
            texts(ids@) == schematic_station_ids(stations@.take(i as int)),
        decreases stations.len() - i,
    {
        let st = &stations[i];
        proof {
            lemma_fold_step(stations@, Seq::<Seq<char>>::empty(), station_index_step(), i as int);
        }
        let err: Option<SchematicRenderError> = if is_blank(st.id.as_str()) {
            Some(SchematicRenderError::EmptyStationId)
        } else if contains_text(&ids, st.id.as_str()) {
            Some(SchematicRenderError::DuplicateStation { station: copy_text(&st.id) })
        } else {
            match validate_names("station", st.id.as_str(), &st.names) {
                Err(e) => Some(e),
                Ok(_) => None,
            }
        };
        match err {
            Some(e) => {
                proof {
                    lemma_fold_err_prefix(stations@, Seq::<Seq<char>>::empty(), station_index_step(), i + 1);
                }
                return Err(e);
            },
            None => {},
        }
        let ghost before = ids@;
        ids.push(copy_text(&st.id));
        proof {
            assert(texts(ids@) =~= texts(before).push(st.id@));
            assert(schematic_station_ids(stations@.take(i + 1)) =~= schematic_station_ids(stations@.take(i as int)).push(st.id@));
        }
        i = i + 1;
    }
    proof {
        lemma_fold_full(stations@, Seq::<Seq<char>>::empty(), station_index_step());
        assert(stations@.take(stations@.len() as int) =~= stations@);
    }
    Ok(ids)
}

fn check_corner_index(corners: &Vec<SchematicCorner>) -> (res: Result<Vec<String>, SchematicRenderError>)
    ensures
        match res {
            Ok(ids) => fold_state(corners@, Seq::<Seq<char>>::empty(), corner_index_step()) is Ok
                && texts(ids@) == schematic_corner_ids(corners@),
            Err(e) => fold_state(corners@, Seq::<Seq<char>>::empty(), corner_index_step()) == Err::<Seq<Seq<char>>, SchematicFault>(e@),
        },
{
    let mut ids: Vec<String> = Vec::new();
    let mut i: usize = 0;
    proof {
        assert(texts(ids@) =~= Seq::<Seq<char>>::empty());
        assert(schematic_corner_ids(corners@.take(0)) =~= Seq::<Seq<char>>::empty());
    }
    while i < corners.len()
        invariant
            i <= corners.len(),
            fold_state(corners@.take(i as int), Seq::<Seq<char>>::empty(), corner_index_step()) == Ok::<Seq<Seq<char>>, SchematicFault>(texts(ids@)),
            texts(ids@) == schematic_corner_ids(corners@.take(i as int)),
        decreases corners.len() - i,
    {
        let c = &corners[i];
        proof {
            lemma_fold_step(corners@, Seq::<Seq<char>>::empty(), corner_index_step(), i as int);
        }
        let err: Option<SchematicRenderError> = if is_blank(c.id.as_str()) {
            Some(SchematicRenderError::EmptyCornerId)
        } else if contains_text(&ids, c.id.as_str()) {
            Some(SchematicRenderError::DuplicateCorner { corner: copy_text(&c.id) })
        } else {
            None
        };
        match err {
            Some(e) => {
                proof {
                    lemma_fold_err_prefix(corners@, Seq::<Seq<char>>::empty(), corner_index_step(), i + 1);
                }
                return Err(e);
            },
            None => {},
        }
        let ghost before = ids@;
        ids.push(copy_text(&c.id));
        proof {
            assert(texts(ids@) =~= texts(before).push(c.id@));
            assert(schematic_corner_ids(corners@.take(i + 1)) =~= schematic_corner_ids(corners@.take(i as int)).push(c.id@));
        }
        i = i + 1;
    }
    proof {
        lemma_fold_full(corners@, Seq::<Seq<char>>::empty(), corner_index_step());
        assert(corners@.take(corners@.len() as int) =~= corners@);
    }
    Ok(ids)
}

pub open spec fn port_record_view(r: (String, SchematicStationPort, String)) -> PortRecord {
    PortRecord { station: r.0@, port: r.1, line: r.2@ }
}

pub open spec fn corner_record_view(r: (String, String)) -> CornerRecord {
    CornerRecord { corner: r.0@, line: r.1@ }
}

pub open spec fn port_records(v: Seq<(String, SchematicStationPort, String)>) -> Seq<PortRecord> {
    v.map_values(|r: (String, SchematicStationPort, String)| port_record_view(r))
}

pub open spec fn corner_records(v: Seq<(String, String)>) -> Seq<CornerRecord> {
    v.map_values(|r: (String, String)| corner_record_view(r))
}

/// The line pass's record of what it has seen.
struct LedgerState {
    lines: Vec<String>,
    ports: Vec<(String, SchematicStationPort, String)>,
    corners: Vec<(String, String)>,
}

impl View for LedgerState {
    type V = Ledger;

    closed spec fn view(&self) -> Ledger {
        Ledger { lines: texts(self.lines@), ports: port_records(self.ports@), corners: corner_records(self.corners@) }
    }
}

/// Which record first visited this port of `station`.
fn find_port_owner(ports: &Vec<(String, SchematicStationPort, String)>, station: &str, port: SchematicStationPort) -> (res: Option<usize>)
    ensures
        match res {
            Some(i) => i < ports@.len() && port_owner(port_records(ports@), station@, port) == Some(port_records(ports@)[i as int].line),
            None => port_owner(port_records(ports@), station@, port) is None,
        },
{
    let ghost pv = port_records(ports@);
    let mut i: usize = 0;
    proof {
        assert(pv.skip(0) =~= pv);
    }
    while i < ports.len()
        invariant
            i <= ports.len(),
            pv == port_records(ports@),
            port_owner(pv, station@, port) == port_owner(pv.skip(i as int), station@, port),
        decreases ports.len() - i,
    {
        proof {
            assert(pv.skip(i as int)[0] == pv[i as int]);
            assert(pv.skip(i as int).drop_first() =~= pv.skip(i + 1));
        }
        if ports[i].1 == port && compare_text(ports[i].0.as_str(), station) == TextOrder::Equal {
            return Some(i);
        }
        i = i + 1;
    }
    None
}

/// Which record first visited `corner`.
fn find_corner_owner(corners: &Vec<(String, String)>, corner: &str) -> (res: Option<usize>)
    ensures
        match res {
            Some(i) => i < corners@.len() && corner_owner(corner_records(corners@), corner@) == Some(corner_records(corners@)[i as int].line),
            None => corner_owner(corner_records(corners@), corner@) is None,
        },
{
    let ghost cv = corner_records(corners@);
    let mut i: usize = 0;
    proof {
        assert(cv.skip(0) =~= cv);
    }
    while i < corners.len()
        invariant
            i <= corners.len(),
            cv == corner_records(corners@),
            corner_owner(cv, corner@) == corner_owner(cv.skip(i as int), corner@),
        decreases corners.len() - i,
    {
        proof {
            assert(cv.skip(i as int)[0] == cv[i as int]);
            assert(cv.skip(i as int).drop_first() =~= cv.skip(i + 1));
        }
        if compare_text(corners[i].0.as_str(), corner) == TextOrder::Equal {
            return Some(i);
        }
        i = i + 1;
    }
    None
}

/// How often this port of `station` was visited.
fn count_port(ports: &Vec<(String, SchematicStationPort, String)>, station: &str, port: SchematicStationPort) -> (res: usize)
    ensures
        res == port_count(port_records(ports@), station@, port),
{
    let ghost pv = port_records(ports@);
    let mut count: usize = 0;
    let mut i: usize = 0;
    while i < ports.len()
        invariant
            i <= ports.len(),
            count <= i,
            pv == port_records(ports@),
            count == port_count(pv.take(i as int), station@, port),
        decreases ports.len() - i,
    {
        proof {
            assert(pv.take(i + 1).drop_last() =~= pv.take(i as int));
            assert(pv.take(i + 1).last() == pv[i as int]);
        }
        if ports[i].1 == port && compare_text(ports[i].0.as_str(), station) == TextOrder::Equal {
            count = count + 1;
        }
        i = i + 1;
    }
    proof {
        assert(pv.take(ports@.len() as int) =~= pv);
    }
    count
}

/// Whether `port` suits the symbol of `st`.
fn resolve_check(st: &SchematicStation, port: SchematicStationPort) -> (res: Option<SchematicRenderError>)
    ensures
        match res {
            Some(e) => resolve_fault(*st, port) == Some(e@),
            None => resolve_fault(*st, port) is None,
        },
{
    match st.symbol {
        SchematicStationSymbol::Circle {} => match port {
            SchematicStationPort::SingleLine => None,
            SchematicStationPort::Interchange(_) => Some(SchematicRenderError::IncompatiblePort { station: copy_text(&st.id) }),
        },
        SchematicStationSymbol::Capsule { axis, anchor_count, anchor_interval } => match port {
            SchematicStationPort::SingleLine => Some(SchematicRenderError::IncompatiblePort { station: copy_text(&st.id) }),
            SchematicStationPort::Interchange(i) => match i {
                SchematicInterchangePort::MajorAxis {} => None,
                SchematicInterchangePort::RisingOblique {} | SchematicInterchangePort::FallingOblique {} => {
                    if anchor_count > 1 {
                        Some(SchematicRenderError::ObliquePortWithMultipleAnchors { station: copy_text(&st.id), anchor_count })
                    } else {
                        None
                    }
                },
                SchematicInterchangePort::SinglePerpendicular {} => {
                    if anchor_count != 1 {
                        Some(SchematicRenderError::IncompatiblePerpendicularPort { station: copy_text(&st.id), anchor_count })
                    } else {
                        None
                    }
                },
                SchematicInterchangePort::PerpendicularAnchor { index } => {
                    if anchor_count <= 1 {
                        Some(SchematicRenderError::IncompatiblePerpendicularPort { station: copy_text(&st.id), anchor_count })
                    } else if index >= anchor_count {
                        Some(SchematicRenderError::PerpendicularAnchorOutOfRange { station: copy_text(&st.id), index, anchor_count })
                    } else {
                        None
                    }
                },
            },
        },
    }
}

} // verus!

verus! {

pub open spec fn visit_state(ledger: Ledger, stations: Seq<Seq<char>>, corners: Seq<Seq<char>>, index: int) -> VisitState {
    VisitState { ledger, stations, corners, index }
}

fn check_visit(
    stations: &Vec<SchematicStation>,
    station_ids: &Vec<String>,
    corner_ids: &Vec<String>,
    line: &String,
    number: usize,
    in_range: &Vec<bool>,
    ledger: &mut LedgerState,
    path_stations: &mut Vec<String>,
    path_corners: &mut Vec<String>,
    index: usize,
    visit: &SchematicRouteVisit,
) -> (res: Result<(), SchematicRenderError>)
    requires
        texts(station_ids@) == schematic_station_ids(stations@),
        index < in_range@.len(),
    ensures
        match res {
            Ok(_) => visit_step(stations@, texts(corner_ids@), line@, number as int, in_range@)(
                visit_state(old(ledger)@, texts(old(path_stations)@), texts(old(path_corners)@), index as int),
                *visit,
            ) == Ok::<VisitState, SchematicFault>(
                visit_state(final(ledger)@, texts(final(path_stations)@), texts(final(path_corners)@), index + 1),
            ),
            Err(e) => visit_step(stations@, texts(corner_ids@), line@, number as int, in_range@)(
                visit_state(old(ledger)@, texts(old(path_stations)@), texts(old(path_corners)@), index as int),
                *visit,
            ) == Err::<VisitState, SchematicFault>(e@),
        },
        final(ledger).lines@ == old(ledger).lines@,
{
    match visit {
        SchematicRouteVisit::Station { station_id, port } => {
            if contains_text(path_stations, station_id.as_str()) {
                return Err(SchematicRenderError::DuplicateStationInPath {
                    line: copy_text(line),
                    path: number,
                    station: copy_text(station_id),
                });
            }
            let at = match find_text(station_ids, station_id.as_str()) {
                Some(at) => at,
                None => {
                    return Err(SchematicRenderError::UnknownStation { line: copy_text(line), station: copy_text(station_id) });
                },
            };
            proof {
                assert(schematic_station_ids(stations@).len() == stations@.len());
                assert(texts(station_ids@).len() == station_ids@.len());
            }
            match find_port_owner(&ledger.ports, station_id.as_str(), *port) {
                Some(o) => {
                    if compare_text(ledger.ports[o].2.as_str(), line.as_str()) != TextOrder::Equal {
                        let key = PortKey::new(station_id.as_str(), *port);
                        return Err(SchematicRenderError::PortSharedByLines {
                            port: key.display(),
                            first_line: copy_text(&ledger.ports[o].2),
                            second_line: copy_text(line),
                        });
                    }
                },
                None => {},
            }
            match resolve_check(&stations[at], *port) {
                Some(e) => return Err(e),
                None => {},
            }
            if !in_range[index] {
                return Err(SchematicRenderError::CoordinateRange);
            }
            let ghost old_ports = ledger.ports@;
            let ghost old_stations = path_stations@;
            ledger.ports.push((copy_text(station_id), *port, copy_text(line)));
            path_stations.push(copy_text(station_id));
            proof {
                assert(port_records(ledger.ports@) =~= port_records(old_ports).push(PortRecord { station: station_id@, port: *port, line: line@ }));
                assert(texts(path_stations@) =~= texts(old_stations).push(station_id@));
            }
            Ok(())
        },
        SchematicRouteVisit::Corner { corner_id } => {
            if contains_text(path_corners, corner_id.as_str()) {
                return Err(SchematicRenderError::DuplicateCornerInPath {
                    line: copy_text(line),
                    path: number,
                    corner: copy_text(corner_id),
                });
            }
            if !contains_text(corner_ids, corner_id.as_str()) {
                return Err(SchematicRenderError::UnknownCorner { line: copy_text(line), corner: copy_text(corner_id) });
            }
            match find_corner_owner(&ledger.corners, corner_id.as_str()) {
                Some(o) => {
                    if compare_text(ledger.corners[o].1.as_str(), line.as_str()) != TextOrder::Equal {
                        return Err(SchematicRenderError::CornerSharedByLines {
                            corner: copy_text(corner_id),
                            first_line: copy_text(&ledger.corners[o].1),
                            second_line: copy_text(line),
                        });
                    }
                },
                None => {},
            }
            let ghost old_corners = ledger.corners@;
            let ghost old_path_corners = path_corners@;
            ledger.corners.push((copy_text(corner_id), copy_text(line)));
            path_corners.push(copy_text(corner_id));
            proof {
                assert(corner_records(ledger.corners@) =~= corner_records(old_corners).push(CornerRecord { corner: corner_id@, line: line@ }));
                assert(texts(path_corners@) =~= texts(old_path_corners).push(corner_id@));
            }
            Ok(())
        },
    }
}

} // verus!

verus! {

/// How many station visits `visits` holds.
fn count_station_visits(visits: &Vec<SchematicRouteVisit>) -> (res: usize)
    ensures
        res == station_visit_count(visits@),
{
    let mut count: usize = 0;
    let mut i: usize = 0;
    while i < visits.len()
        invariant
            i <= visits.len(),
            count <= i,
            count == station_visit_count(visits@.take(i as int)),
        decreases visits.len() - i,
    {
        proof {
            assert(visits@.take(i + 1).drop_last() =~= visits@.take(i as int));
            assert(visits@.take(i + 1).last() == visits@[i as int]);
        }
        match &visits[i] {
            SchematicRouteVisit::Station { .. } => {
                count = count + 1;
            },
            SchematicRouteVisit::Corner { .. } => {},
        }
        i = i + 1;
    }
    proof {
        assert(visits@.take(visits@.len() as int) =~= visits@);
    }
    count
}

fn is_station_visit(v: &SchematicRouteVisit) -> (res: bool)
    ensures
        res == (*v is Station),
{
    match v {
        SchematicRouteVisit::Station { .. } => true,
        SchematicRouteVisit::Corner { .. } => false,
    }
}

/// The axis of a leg that runs along one.
fn leg_axis_of(f: LegFinding) -> (res: OctilinearAxis)
    ensures
        res == leg_axis(f),
{
    match f {
        LegFinding::Along(a) => a,
        _ => OctilinearAxis::Horizontal,
    }
}

fn departs_from(a: Option<OctilinearAxis>, b: OctilinearAxis) -> (res: bool)
    ensures
        res == departs(a, b),
{
    match a {
        Some(x) => x != b,
        None => false,
    }
}

fn same_axis(a: Option<OctilinearAxis>, b: Option<OctilinearAxis>) -> (res: bool)
    ensures
        res == (a == b),
{
    match (a, b) {
        (Some(x), Some(y)) => x == y,
        (None, None) => true,
        _ => false,
    }
}

fn permitted_axis_of(symbol: SchematicStationSymbol, port: SchematicStationPort) -> (res: Option<OctilinearAxis>)
    ensures
        res == permitted_axis(symbol, port),
{
    match symbol {
        SchematicStationSymbol::Circle {} => None,
        SchematicStationSymbol::Capsule { axis, .. } => match port {
            SchematicStationPort::SingleLine => None,
            SchematicStationPort::Interchange(i) => Some(
                match i {
                    SchematicInterchangePort::MajorAxis {} => axis,
                    SchematicInterchangePort::RisingOblique {} => rotate_counter_clockwise(axis),
                    SchematicInterchangePort::FallingOblique {} => rotate_clockwise(axis),
                    SchematicInterchangePort::SinglePerpendicular {} => perpendicular(axis),
                    SchematicInterchangePort::PerpendicularAnchor { .. } => perpendicular(axis),
                },
            ),
        },
    }
}

/// One point of a path: the check of `point_step`.
fn check_point(
    stations: &Vec<SchematicStation>,
    station_ids: &Vec<String>,
    line: &String,
    number: usize,
    closed: bool,
    g: &PathGeometry,
    i: usize,
    visit: &SchematicRouteVisit,
) -> (res: Result<(), SchematicRenderError>)
    requires
        texts(station_ids@) == schematic_station_ids(stations@),
        i < g.reverses@.len(),
        i < g.corners@.len(),
        i == 0 || i <= g.legs@.len(),
    ensures
        match res {
            Ok(_) => point_step(stations@, line@, number as int, closed, *g)(i as int, *visit) == Ok::<int, SchematicFault>(i + 1),
            Err(e) => point_step(stations@, line@, number as int, closed, *g)(i as int, *visit) == Err::<int, SchematicFault>(e@),
        },
{
    let n = g.legs.len();
    let incoming: Option<OctilinearAxis> = if i > 0 {
        Some(leg_axis_of(g.legs[i - 1]))
    } else if closed && n > 0 {
        Some(leg_axis_of(g.legs[n - 1]))
    } else {
        None
    };
    let outgoing: Option<OctilinearAxis> = if i < n { Some(leg_axis_of(g.legs[i])) } else { None };
    proof {
        assert(incoming == incoming_axis(g.legs@, closed, i as int));
        assert(outgoing == outgoing_axis(g.legs@, i as int));
    }
    match visit {
        SchematicRouteVisit::Station { station_id, port } => {
            let permitted = match find_text(station_ids, station_id.as_str()) {
                Some(at) => {
                    proof {
                        assert(schematic_station_ids(stations@).len() == stations@.len());
                    }
                    permitted_axis_of(stations[at].symbol, *port)
                },
                None => None,
            };
            let off_axis = match permitted {
                Some(required) => departs_from(incoming, required) || departs_from(outgoing, required),
                None => false,
            };
            if off_axis {
                return Err(SchematicRenderError::InvalidPortAxis { station: copy_text(station_id) });
            }
            if incoming.is_some() && outgoing.is_some() && (!same_axis(incoming, outgoing) || g.reverses[i]) {
                return Err(SchematicRenderError::BendAtStation { line: copy_text(line), path: number, station: copy_text(station_id) });
            }
            Ok(())
        },
        SchematicRouteVisit::Corner { corner_id } => {
            if incoming.is_none() || outgoing.is_none() {
                return Err(SchematicRenderError::CollinearCorner { corner: copy_text(corner_id) });
            }
            match g.corners[i] {
                CornerFinding::Fits => Ok(()),
                CornerFinding::Collinear => Err(SchematicRenderError::CollinearCorner { corner: copy_text(corner_id) }),
                CornerFinding::Reversing => Err(SchematicRenderError::ReversingCorner { corner: copy_text(corner_id) }),
                CornerFinding::RadiusTooLarge => Err(SchematicRenderError::CornerRadiusTooLarge { corner: copy_text(corner_id) }),
            }
        },
    }
}

/// The geometric checks of path `number` of `line`: its legs in order, then
/// its points, then its corner roundings.
fn check_path_geometry(
    stations: &Vec<SchematicStation>,
    station_ids: &Vec<String>,
    line: &String,
    number: usize,
    path: &SchematicPath,
    g: &PathGeometry,
) -> (res: Result<(), SchematicRenderError>)
    requires
        texts(station_ids@) == schematic_station_ids(stations@),
        path_geometry_fits(*path, *g),
    ensures
        match res {
            Ok(_) => path_verdict(stations@, line@, number as int, path.visits@, path.closed, *g) == Ok::<(), SchematicFault>(()),
            Err(e) => path_verdict(stations@, line@, number as int, path.visits@, path.closed, *g) == Err::<(), SchematicFault>(e@),
        },
{
    let ghost fl = leg_step(line@, number as int);
    let mut k: usize = 0;
    while k < g.legs.len()
        invariant
            k <= g.legs@.len(),
            fl == leg_step(line@, number as int),
            fold_state(g.legs@.take(k as int), (), fl) == Ok::<(), SchematicFault>(()),
        decreases g.legs@.len() - k,
    {
        proof {
            lemma_fold_step(g.legs@, (), fl, k as int);
        }
        let err: Option<SchematicRenderError> = match g.legs[k] {
            LegFinding::Coincident => Some(SchematicRenderError::CoincidentPoints { line: copy_text(line), path: number }),
            LegFinding::NonOctilinear => Some(SchematicRenderError::NonOctilinearLeg { line: copy_text(line), path: number }),
            LegFinding::Along(_) => None,
        };
        match err {
            Some(e) => {
                proof {
                    lemma_fold_err_prefix(g.legs@, (), fl, k + 1);
                }
                return Err(e);
            },
            None => {},
        }
        k = k + 1;
    }
    proof {
        lemma_fold_full(g.legs@, (), fl);
    }
    let ghost fp = point_step(stations@, line@, number as int, path.closed, *g);
    let mut i: usize = 0;
    while i < path.visits.len()
        invariant
            i <= path.visits@.len(),
            texts(station_ids@) == schematic_station_ids(stations@),
            path_geometry_fits(*path, *g),
            fl == leg_step(line@, number as int),
            fold_state(g.legs@, (), fl) is Ok,
            fp == point_step(stations@, line@, number as int, path.closed, *g),
            fold_state(path.visits@.take(i as int), 0int, fp) == Ok::<int, SchematicFault>(i as int),
        decreases path.visits@.len() - i,
    {
        proof {
            lemma_fold_step(path.visits@, 0int, fp, i as int);
        }
        match check_point(stations, station_ids, line, number, path.closed, g, i, &path.visits[i]) {
            Err(e) => {
                proof {
                    lemma_fold_err_prefix(path.visits@, 0int, fp, i + 1);
                }
                return Err(e);
            },
            Ok(_) => {},
        }
        i = i + 1;
    }
    proof {
        lemma_fold_full(path.visits@, 0int, fp);
    }
    let ghost fr = radii_step(line@, number as int);
    let mut j: usize = 0;
    while j < g.radii_overlap.len()
        invariant
            j <= g.radii_overlap@.len(),
            fl == leg_step(line@, number as int),
            fold_state(g.legs@, (), fl) is Ok,
            fp == point_step(stations@, line@, number as int, path.closed, *g),
            fold_state(path.visits@, 0int, fp) is Ok,
            fr == radii_step(line@, number as int),
            fold_state(g.radii_overlap@.take(j as int), (), fr) == Ok::<(), SchematicFault>(()),
        decreases g.radii_overlap@.len() - j,
    {
        proof {
            lemma_fold_step(g.radii_overlap@, (), fr, j as int);
        }
        if g.radii_overlap[j] {
            proof {
                lemma_fold_err_prefix(g.radii_overlap@, (), fr, j + 1);
            }
            return Err(SchematicRenderError::CornerRadiiOverlap { line: copy_text(line), path: number });
        }
        j = j + 1;
    }
    proof {
        lemma_fold_full(g.radii_overlap@, (), fr);
    }
    Ok(())
}

fn check_path(
    stations: &Vec<SchematicStation>,
    station_ids: &Vec<String>,
    corner_ids: &Vec<String>,
    line: &String,
    geometry: &Vec<PathGeometry>,
    p: usize,
    ledger: &mut LedgerState,
    path: &SchematicPath,
) -> (res: Result<(), SchematicRenderError>)
    requires
        texts(station_ids@) == schematic_station_ids(stations@),
        p < geometry@.len(),
        path_geometry_fits(*path, geometry@[p as int]),
    ensures
        match res {
            Ok(_) => path_step(stations@, texts(corner_ids@), line@, geometry@)((old(ledger)@, p as int), *path)
                == Ok::<(Ledger, int), SchematicFault>((final(ledger)@, p + 1)),
            Err(e) => path_step(stations@, texts(corner_ids@), line@, geometry@)((old(ledger)@, p as int), *path)
                == Err::<(Ledger, int), SchematicFault>(e@),
        },
        final(ledger).lines@ == old(ledger).lines@,
{
    let count = geometry.len();
    let number = p + 1;
    let minimum: usize = if path.closed { 3 } else { 2 };
    if count_station_visits(&path.visits) < minimum {
        return Err(SchematicRenderError::PathTooShort { line: copy_text(line), path: number, minimum });
    }
    if !path.closed && (path.visits.len() == 0 || !is_station_visit(&path.visits[0]) || !is_station_visit(&path.visits[path.visits.len() - 1])) {
        return Err(SchematicRenderError::OpenPathEndpoint { line: copy_text(line), path: number });
    }
    let geo = &geometry[p];
    let ghost f = visit_step(stations@, texts(corner_ids@), line@, number as int, geo.anchors_in_range@);
    let ghost start = visit_state(ledger@, Seq::empty(), Seq::empty(), 0);
    let mut path_stations: Vec<String> = Vec::new();
    let mut path_corners: Vec<String> = Vec::new();
    proof {
        assert(texts(path_stations@) =~= Seq::<Seq<char>>::empty());
        assert(texts(path_corners@) =~= Seq::<Seq<char>>::empty());
    }
    let mut k: usize = 0;
    while k < path.visits.len()
        invariant
            k <= path.visits.len(),
            texts(station_ids@) == schematic_station_ids(stations@),
            path_geometry_fits(*path, *geo),
            geometry@[p as int] == *geo,
            number == p + 1,
            station_visit_count(path.visits@) >= minimum_station_visits(path.closed),
            open_endpoints_ok(*path),
            start == visit_state(old(ledger)@, Seq::empty(), Seq::empty(), 0),
            ledger.lines@ == old(ledger).lines@,
            f == visit_step(stations@, texts(corner_ids@), line@, number as int, geo.anchors_in_range@),
            fold_state(path.visits@.take(k as int), start, f)
                == Ok::<VisitState, SchematicFault>(visit_state(ledger@, texts(path_stations@), texts(path_corners@), k as int)),
        decreases path.visits.len() - k,
    {
        proof {
            lemma_fold_step(path.visits@, start, f, k as int);
        }
        match check_visit(
            stations,
            station_ids,
            corner_ids,
            line,
            number,
            &geo.anchors_in_range,
            ledger,
            &mut path_stations,
            &mut path_corners,
            k,
            &path.visits[k],
        ) {
            Err(e) => {
                proof {
                    lemma_fold_err_prefix(path.visits@, start, f, k + 1);
                }
                return Err(e);
            },
            Ok(_) => {},
        }
        k = k + 1;
    }
    proof {
        lemma_fold_full(path.visits@, start, f);
    }
    check_path_geometry(stations, station_ids, line, number, path, geo)
}

} // verus!

verus! {

fn check_line(
    stations: &Vec<SchematicStation>,
    station_ids: &Vec<String>,
    corner_ids: &Vec<String>,
    geometry: &Vec<Vec<PathGeometry>>,
    ledger: &mut LedgerState,
    line: &SchematicLine,
) -> (res: Result<(), SchematicRenderError>)
    requires
        texts(station_ids@) == schematic_station_ids(stations@),
        old(ledger)@.lines.len() < geometry@.len(),
        geometry@[old(ledger)@.lines.len() as int]@.len() == line.paths@.len(),
        forall|p: int|
            0 <= p < line.paths@.len() ==> path_geometry_fits(line.paths@[p], #[trigger] geometry@[old(ledger)@.lines.len() as int]@[p]),
    ensures
        match res {
            Ok(_) => line_step(stations@, texts(corner_ids@), geometry@)(old(ledger)@, *line) == Ok::<Ledger, SchematicFault>(final(ledger)@)
                && final(ledger).lines@.len() == old(ledger).lines@.len() + 1,
            Err(e) => line_step(stations@, texts(corner_ids@), geometry@)(old(ledger)@, *line) == Err::<Ledger, SchematicFault>(e@),
        },
{
    if is_blank(line.id.as_str()) {
        return Err(SchematicRenderError::EmptyLineId);
    }
    if contains_text(&ledger.lines, line.id.as_str()) {
        return Err(SchematicRenderError::DuplicateLine { line: copy_text(&line.id) });
    }
    match validate_names("line", line.id.as_str(), &line.names) {
        Err(e) => return Err(e),
        Ok(_) => {},
    }
    let gl = &geometry[ledger.lines.len()];
    let ghost g = path_step(stations@, texts(corner_ids@), line.id@, gl@);
    let ghost start = (old(ledger)@, 0int);
    let mut p: usize = 0;
    while p < line.paths.len()
        invariant
            p <= line.paths.len(),
            texts(station_ids@) == schematic_station_ids(stations@),
            gl@.len() == line.paths@.len(),
            forall|q: int| 0 <= q < line.paths@.len() ==> path_geometry_fits(line.paths@[q], #[trigger] gl@[q]),
            g == path_step(stations@, texts(corner_ids@), line.id@, gl@),
            start == (old(ledger)@, 0int),
            !is_blank_spec(line.id@),
            !old(ledger)@.lines.contains(line.id@),
            names_verdict("line"@, line.id@, line.names@) is Ok,
            *gl == geometry@[old(ledger)@.lines.len() as int],
            ledger.lines@ == old(ledger).lines@,
            fold_state(line.paths@.take(p as int), start, g) == Ok::<(Ledger, int), SchematicFault>((ledger@, p as int)),
        decreases line.paths.len() - p,
    {
        proof {
            lemma_fold_step(line.paths@, start, g, p as int);
        }
        match check_path(stations, station_ids, corner_ids, &line.id, gl, p, ledger, &line.paths[p]) {
            Err(e) => {
                proof {
                    lemma_fold_err_prefix(line.paths@, start, g, p + 1);
                }
                return Err(e);
            },
            Ok(_) => {},
        }
        p = p + 1;
    }
    proof {
        lemma_fold_full(line.paths@, start, g);
    }
    let ghost before = ledger@;
    let ghost old_lines = ledger.lines@;
    ledger.lines.push(copy_text(&line.id));
    proof {
        assert(texts(ledger.lines@) =~= texts(old_lines).push(line.id@));
        assert(ledger@ == Ledger { lines: before.lines.push(line.id@), ..before });
    }
    Ok(())
}

fn check_lines(
    schematic: &SchematicManifest,
    station_ids: &Vec<String>,
    corner_ids: &Vec<String>,
    geometry: &SchematicGeometry,
) -> (res: Result<LedgerState, SchematicRenderError>)
    requires
        texts(station_ids@) == schematic_station_ids(schematic.stations@),
        texts(corner_ids@) == schematic_corner_ids(schematic.corners@),
        geometry_fits(*schematic, *geometry),
    ensures
        match res {
            Ok(led) => line_pass(*schematic, *geometry) == Ok::<Ledger, SchematicFault>(led@),
            Err(e) => line_pass(*schematic, *geometry) == Err::<Ledger, SchematicFault>(e@),
        },
{
    let ghost f = line_step(schematic.stations@, schematic_corner_ids(schematic.corners@), geometry.paths@);
    let mut ledger = LedgerState { lines: Vec::new(), ports: Vec::new(), corners: Vec::new() };
    proof {
        assert(texts(ledger.lines@) =~= Seq::<Seq<char>>::empty());
        assert(port_records(ledger.ports@) =~= Seq::<PortRecord>::empty());
        assert(corner_records(ledger.corners@) =~= Seq::<CornerRecord>::empty());
    }
    let mut l: usize = 0;
    while l < schematic.lines.len()
        invariant
            l <= schematic.lines.len(),
            texts(station_ids@) == schematic_station_ids(schematic.stations@),
            texts(corner_ids@) == schematic_corner_ids(schematic.corners@),
            geometry_fits(*schematic, *geometry),
            ledger.lines@.len() == l,
            f == line_step(schematic.stations@, schematic_corner_ids(schematic.corners@), geometry.paths@),
            fold_state(schematic.lines@.take(l as int), empty_ledger(), f) == Ok::<Ledger, SchematicFault>(ledger@),
        decreases schematic.lines.len() - l,
    {
        proof {
            lemma_fold_step(schematic.lines@, empty_ledger(), f, l as int);
            assert(geometry.paths@[l as int]@.len() == schematic.lines@[l as int].paths@.len());
            assert forall|p: int| 0 <= p < schematic.lines@[l as int].paths@.len() implies path_geometry_fits(schematic.lines@[l as int].paths@[p], #[trigger] geometry.paths@[l as int]@[p]) by {
                assert(geometry.paths@[l as int]@[p] == geometry.paths@[l as int]@[p]);
            }
        }
        match check_line(&schematic.stations, station_ids, corner_ids, &geometry.paths, &mut ledger, &schematic.lines[l]) {
            Err(e) => {
                proof {
                    lemma_fold_err_prefix(schematic.lines@, empty_ledger(), f, l + 1);
                }
                return Err(e);
            },
            Ok(_) => {},
        }
        l = l + 1;
    }
    proof {
        lemma_fold_full(schematic.lines@, empty_ledger(), f);
    }
    Ok(ledger)
}

fn check_corner_references(corners: &Vec<SchematicCorner>, ledger: &LedgerState) -> (res: Result<(), SchematicRenderError>)
    ensures
        match res {
            Ok(_) => fold_state(corners@, (), corner_reference_step(ledger@.corners)) == Ok::<(), SchematicFault>(()),
            Err(e) => fold_state(corners@, (), corner_reference_step(ledger@.corners)) == Err::<(), SchematicFault>(e@),
        },
{
    let ghost f = corner_reference_step(ledger@.corners);
    let mut i: usize = 0;
    while i < corners.len()
        invariant
            i <= corners.len(),
            f == corner_reference_step(ledger@.corners),
            fold_state(corners@.take(i as int), (), f) == Ok::<(), SchematicFault>(()),
        decreases corners.len() - i,
    {
        proof {
            lemma_fold_step(corners@, (), f, i as int);
        }
        match find_corner_owner(&ledger.corners, corners[i].id.as_str()) {
            None => {
                proof {
                    lemma_fold_err_prefix(corners@, (), f, i + 1);
                }
                return Err(SchematicRenderError::UnreferencedCorner { corner: copy_text(&corners[i].id) });
            },
            Some(_) => {},
        }
        i = i + 1;
    }
    proof {
        lemma_fold_full(corners@, (), f);
    }
    Ok(())
}

fn perpendicular_ports_complete(ports: &Vec<(String, SchematicStationPort, String)>, station: &str, n: u8) -> (res: bool)
    ensures
        res == perpendicular_complete(port_records(ports@), station@, n),
{
    if n == 0 {
        true
    } else if n == 1 {
        count_port(ports, station, SchematicStationPort::Interchange(SchematicInterchangePort::SinglePerpendicular {})) == 1
    } else {
        let mut i: u8 = 0;
        while i < n
            invariant
                i <= n,
                n > 1,
                forall|j: u8| j < i ==> port_count(
                    port_records(ports@),
                    station@,
                    SchematicStationPort::Interchange(SchematicInterchangePort::PerpendicularAnchor { index: j }),
                ) == 1,
            decreases n - i,
        {
            if count_port(ports, station, SchematicStationPort::Interchange(SchematicInterchangePort::PerpendicularAnchor { index: i })) != 1 {
                return false;
            }
            i = i + 1;
        }
        true
    }
}

fn check_perpendicular_references(stations: &Vec<SchematicStation>, ledger: &LedgerState) -> (res: Result<(), SchematicRenderError>)
    ensures
        match res {
            Ok(_) => fold_state(stations@, (), perpendicular_step(ledger@.ports)) == Ok::<(), SchematicFault>(()),
            Err(e) => fold_state(stations@, (), perpendicular_step(ledger@.ports)) == Err::<(), SchematicFault>(e@),
        },
{
    let ghost f = perpendicular_step(ledger@.ports);
    let mut i: usize = 0;
    while i < stations.len()
        invariant
            i <= stations.len(),
            f == perpendicular_step(ledger@.ports),
            fold_state(stations@.take(i as int), (), f) == Ok::<(), SchematicFault>(()),
        decreases stations.len() - i,
    {
        let st = &stations[i];
        proof {
            lemma_fold_step(stations@, (), f, i as int);
        }
        match st.symbol {
            SchematicStationSymbol::Circle {} => {},
            SchematicStationSymbol::Capsule { axis, anchor_count, anchor_interval } => {
                if !perpendicular_ports_complete(&ledger.ports, st.id.as_str(), anchor_count) {
                    proof {
                        lemma_fold_err_prefix(stations@, (), f, i + 1);
                    }
                    return Err(SchematicRenderError::IncompletePerpendicularPorts { station: copy_text(&st.id), anchor_count });
                }
            },
        }
        i = i + 1;
    }
    proof {
        lemma_fold_full(stations@, (), f);
    }
    Ok(())
}

fn check_symbols(stations: &Vec<SchematicStation>, line_width: SchematicLength, lengths_in_range: &Vec<bool>) -> (res: Result<(), SchematicRenderError>)
    requires
        lengths_in_range@.len() == stations@.len(),
    ensures
        match res {
            Ok(_) => fold_state(stations@, 0int, symbol_step(line_width.bits(), lengths_in_range@)) is Ok,
            Err(e) => fold_state(stations@, 0int, symbol_step(line_width.bits(), lengths_in_range@)) == Err::<int, SchematicFault>(e@),
        },
{
    let width = line_width.get();
    let ghost f = symbol_step(line_width.bits(), lengths_in_range@);
    let mut i: usize = 0;
    while i < stations.len()
        invariant
            i <= stations.len(),
            lengths_in_range@.len() == stations@.len(),
            width == line_width.bits(),
            f == symbol_step(line_width.bits(), lengths_in_range@),
            fold_state(stations@.take(i as int), 0int, f) == Ok::<int, SchematicFault>(i as int),
        decreases stations.len() - i,
    {
        let st = &stations[i];
        proof {
            lemma_fold_step(stations@, 0int, f, i as int);
        }
        match st.symbol {
            SchematicStationSymbol::Circle {} => {},
            SchematicStationSymbol::Capsule { axis, anchor_count, anchor_interval } => {
                if anchor_count > 1 && anchor_interval.get() < width {
                    proof {
                        lemma_fold_err_prefix(stations@, 0int, f, i + 1);
                    }
                    return Err(SchematicRenderError::AnchorIntervalTooSmall { station: copy_text(&st.id) });
                }
                if !lengths_in_range[i] {
                    proof {
                        lemma_fold_err_prefix(stations@, 0int, f, i + 1);
                    }
                    return Err(SchematicRenderError::CoordinateRange);
                }
            },
        }
        i = i + 1;
    }
    proof {
        lemma_fold_full(stations@, 0int, f);
    }
    Ok(())
}

/// Validate all semantic and geometric invariants required by the schematic
/// renderer, reporting the first violation.
///
/// `geometry` holds what the numeric checks found for this manifest; each of
/// its findings is reported only once every check that precedes it holds.
pub fn validate_schematic(schematic: &SchematicManifest, geometry: &SchematicGeometry) -> (res: Result<(), SchematicRenderError>)
    requires
        geometry_fits(*schematic, *geometry),
    ensures
        match res {
            Ok(_) => schematic_verdict(*schematic, *geometry) == Ok::<(), SchematicFault>(()),
            Err(e) => schematic_verdict(*schematic, *geometry) == Err::<(), SchematicFault>(e@),
        },
{
    let station_ids = match check_station_index(&schematic.stations) {
        Ok(ids) => ids,
        Err(e) => return Err(e),
    };
    let corner_ids = match check_corner_index(&schematic.corners) {
        Ok(ids) => ids,
        Err(e) => return Err(e),
    };
    let ledger = match check_lines(schematic, &station_ids, &corner_ids, geometry) {
        Ok(l) => l,
        Err(e) => return Err(e),
    };
    match check_corner_references(&schematic.corners, &ledger) {
        Err(e) => return Err(e),
        Ok(_) => {},
    }
    match check_perpendicular_references(&schematic.stations, &ledger) {
        Err(e) => return Err(e),
        Ok(_) => {},
    }
    match check_symbols(&schematic.stations, schematic.options.lines.width, &geometry.capsule_lengths_in_range) {
        Err(e) => return Err(e),
        Ok(_) => {},
    }
    if geometry.legs_overlap {
        return Err(SchematicRenderError::OverlappingLegs);
    }
    if !geometry.bounds_in_range {
        return Err(SchematicRenderError::CoordinateRange);
    }
    Ok(())
}

} // verus!

verus! {

/// Every locale key is non-blank and has a non-blank canonical name.
pub open spec fn names_well_formed(names: Seq<LocaleEntry>) -> bool {
    forall|i: int|
        0 <= i < names.len() ==> !is_blank_spec((#[trigger] names[i]).0) && names[i].1.len() > 0 && !is_blank_spec(names[i].1[0])
}

/// Every id is non-blank and no two are equal.
pub open spec fn ids_well_formed(ids: Seq<Seq<char>>) -> bool {
    &&& forall|i: int| 0 <= i < ids.len() ==> !is_blank_spec(#[trigger] ids[i])
    &&& forall|i: int, j: int| 0 <= i < j < ids.len() ==> (#[trigger] ids[i]) != (#[trigger] ids[j])
}

/// A visit names a station or corner of `m`, through a port its symbol
/// takes.
pub open spec fn visit_resolves(m: SchematicManifest, v: SchematicRouteVisit) -> bool {
    match v {
        SchematicRouteVisit::Station { station_id, port } => {
            let at = first_index(schematic_station_ids(m.stations@), station_id@);
            at >= 0 && resolve_fault(m.stations@[at], port) is None
        },
        SchematicRouteVisit::Corner { corner_id } => schematic_corner_ids(m.corners@).contains(corner_id@),
    }
}

/// The stations that `vs` stops at, in order.
pub open spec fn visit_station_ids(vs: Seq<SchematicRouteVisit>) -> Seq<Seq<char>>
    decreases vs.len(),
{
    if vs.len() == 0 {
        Seq::empty()
    } else {
        match vs.last() {
            SchematicRouteVisit::Station { station_id, .. } => visit_station_ids(vs.drop_last()).push(station_id@),
            SchematicRouteVisit::Corner { .. } => visit_station_ids(vs.drop_last()),
        }
    }
}

/// The corners that `vs` passes, in order.
pub open spec fn visit_corner_ids(vs: Seq<SchematicRouteVisit>) -> Seq<Seq<char>>
    decreases vs.len(),
{
    if vs.len() == 0 {
        Seq::empty()
    } else {
        match vs.last() {
            SchematicRouteVisit::Corner { corner_id } => visit_corner_ids(vs.drop_last()).push(corner_id@),
            SchematicRouteVisit::Station { .. } => visit_corner_ids(vs.drop_last()),
        }
    }
}

/// Two visits of one path do not stop at the same station or pass the same
/// corner.
pub open spec fn visits_differ(a: SchematicRouteVisit, b: SchematicRouteVisit) -> bool {
    match (a, b) {
        (SchematicRouteVisit::Station { station_id: x, .. }, SchematicRouteVisit::Station { station_id: y, .. }) => x@ != y@,
        (SchematicRouteVisit::Corner { corner_id: x }, SchematicRouteVisit::Corner { corner_id: y }) => x@ != y@,
        _ => true,
    }
}

/// A path visits enough stations, an open one begins and ends at stations,
/// every visit resolves, and no station or corner is visited twice.
pub open spec fn path_well_formed(m: SchematicManifest, p: SchematicPath) -> bool {
    &&& station_visit_count(p.visits@) >= minimum_station_visits(p.closed)
    &&& open_endpoints_ok(p)
    &&& forall|k: int| 0 <= k < p.visits@.len() ==> visit_resolves(m, #[trigger] p.visits@[k])
    &&& forall|i: int, j: int| 0 <= i < j < p.visits@.len() ==> visits_differ(#[trigger] p.visits@[i], #[trigger] p.visits@[j])
}

/// Every leg of a path runs along an octilinear axis and no two corner
/// roundings meet.
pub open spec fn legs_well_formed(g: PathGeometry) -> bool {
    &&& forall|k: int| 0 <= k < g.legs@.len() ==> (#[trigger] g.legs@[k]) is Along
    &&& forall|k: int| 0 <= k < g.radii_overlap@.len() ==> !(#[trigger] g.radii_overlap@[k])
}

/// Point `k` of a path, visit `v`, sits well on its legs: a station keeps
/// its legs on the axis its port permits and the path runs straight through
/// it; a corner lies between two legs and its rounding fits.
pub open spec fn point_well_formed(m: SchematicManifest, closed: bool, g: PathGeometry, k: int, v: SchematicRouteVisit) -> bool {
    let incoming = incoming_axis(g.legs@, closed, k);
    let outgoing = outgoing_axis(g.legs@, k);
    match v {
        SchematicRouteVisit::Station { station_id, port } => {
            let at = first_index(schematic_station_ids(m.stations@), station_id@);
            let permitted = if at >= 0 { permitted_axis(m.stations@[at].symbol, port) } else { None };
            &&& permitted is Some ==> !departs(incoming, permitted->0) && !departs(outgoing, permitted->0)
            &&& incoming is Some && outgoing is Some ==> incoming == outgoing && !g.reverses@[k]
        },
        SchematicRouteVisit::Corner { .. } => incoming is Some && outgoing is Some && g.corners@[k] is Fits,
    }
}

/// Every station visit of `p` resolves to a finite point.
pub open spec fn anchors_finite(p: SchematicPath, g: PathGeometry) -> bool {
    forall|k: int| 0 <= k < p.visits@.len() && (#[trigger] p.visits@[k]) is Station ==> g.anchors_in_range@[k]
}

/// Every point of path `p` sits well on its legs.
pub open spec fn points_well_formed(m: SchematicManifest, p: SchematicPath, g: PathGeometry) -> bool {
    forall|k: int| 0 <= k < p.visits@.len() ==> point_well_formed(m, p.closed, g, k, #[trigger] p.visits@[k])
}

proof fn lemma_point_states(
    stations: Seq<SchematicStation>,
    line: Seq<char>,
    path: int,
    closed: bool,
    g: PathGeometry,
    vs: Seq<SchematicRouteVisit>,
    k: int,
)
    requires
        0 <= k <= vs.len(),
        fold_state(vs.take(k), 0int, point_step(stations, line, path, closed, g)) is Ok,
    ensures
        fold_state(vs.take(k), 0int, point_step(stations, line, path, closed, g)) == Ok::<int, SchematicFault>(k),
    decreases k,
{
    if k > 0 {
        lemma_fold_step(vs, 0int, point_step(stations, line, path, closed, g), k - 1);
        lemma_point_states(stations, line, path, closed, g, vs, k - 1);
    }
}

pub open spec fn schematic_line_ids(s: Seq<SchematicLine>) -> Seq<Seq<char>> {
    s.map_values(|l: SchematicLine| l.id@)
}

proof fn lemma_station_states(s: Seq<SchematicStation>, i: int)
    requires
        0 <= i <= s.len(),
        fold_state(s.take(i), Seq::<Seq<char>>::empty(), station_index_step()) is Ok,
    ensures
        fold_state(s.take(i), Seq::<Seq<char>>::empty(), station_index_step()) == Ok::<Seq<Seq<char>>, SchematicFault>(schematic_station_ids(s.take(i))),
    decreases i,
{
    if i == 0 {
        assert(schematic_station_ids(s.take(0)) =~= Seq::<Seq<char>>::empty());
    } else {
        lemma_fold_step(s, Seq::<Seq<char>>::empty(), station_index_step(), i - 1);
        lemma_station_states(s, i - 1);
        assert(schematic_station_ids(s.take(i)) =~= schematic_station_ids(s.take(i - 1)).push(s[i - 1].id@));
    }
}

proof fn lemma_corner_states(s: Seq<SchematicCorner>, i: int)
    requires
        0 <= i <= s.len(),
        fold_state(s.take(i), Seq::<Seq<char>>::empty(), corner_index_step()) is Ok,
    ensures
        fold_state(s.take(i), Seq::<Seq<char>>::empty(), corner_index_step()) == Ok::<Seq<Seq<char>>, SchematicFault>(schematic_corner_ids(s.take(i))),
    decreases i,
{
    if i == 0 {
        assert(schematic_corner_ids(s.take(0)) =~= Seq::<Seq<char>>::empty());
    } else {
        lemma_fold_step(s, Seq::<Seq<char>>::empty(), corner_index_step(), i - 1);
        lemma_corner_states(s, i - 1);
        assert(schematic_corner_ids(s.take(i)) =~= schematic_corner_ids(s.take(i - 1)).push(s[i - 1].id@));
    }
}

proof fn lemma_names_pass(kind: Seq<char>, id: Seq<char>, names: Seq<LocaleEntry>)
    requires
        names_verdict(kind, id, names) is Ok,
    ensures
        names_well_formed(names),
{
    assert forall|i: int| 0 <= i < names.len() implies !is_blank_spec((#[trigger] names[i]).0) && names[i].1.len() > 0
        && !is_blank_spec(names[i].1[0]) by {
        lemma_fold_ok_at(names, (), names_step(kind, id), i);
    }
}

/// A name table is accepted exactly when every locale key is non-blank and
/// has a non-blank canonical (first) name; the aliases after it, however
/// many, are not examined.
pub proof fn lemma_names_verdict_exact(kind: Seq<char>, id: Seq<char>, names: Seq<LocaleEntry>)
    ensures
        names_verdict(kind, id, names) is Ok <==> names_well_formed(names),
    decreases names.len(),
{
    if names_verdict(kind, id, names) is Ok {
        lemma_names_pass(kind, id, names);
    }
    if names_well_formed(names) && names.len() > 0 {
        let init = names.drop_last();
        assert forall|i: int| 0 <= i < init.len() implies !is_blank_spec((#[trigger] init[i]).0) && init[i].1.len() > 0
            && !is_blank_spec(init[i].1[0]) by {
            assert(init[i] == names[i]);
        }
        lemma_names_verdict_exact(kind, id, init);
        assert(names[names.len() - 1] == names.last());
    }
}

/// Station ids are non-blank and unique and station names well formed.
proof fn lemma_station_pass(s: Seq<SchematicStation>)
    requires
        fold_state(s, Seq::<Seq<char>>::empty(), station_index_step()) is Ok,
    ensures
        ids_well_formed(schematic_station_ids(s)),
        forall|i: int| 0 <= i < s.len() ==> names_well_formed((#[trigger] s[i]).names@),
{
    let f = station_index_step();
    let ids = schematic_station_ids(s);
    assert forall|i: int| 0 <= i < s.len() implies !is_blank_spec(#[trigger] ids[i]) && names_well_formed(s[i].names@) by {
        lemma_fold_ok_at(s, Seq::<Seq<char>>::empty(), f, i);
        lemma_names_pass("station"@, s[i].id@, s[i].names@);
    }
    assert forall|i: int, j: int| 0 <= i < j < ids.len() implies (#[trigger] ids[i]) != (#[trigger] ids[j]) by {
        lemma_fold_ok_at(s, Seq::<Seq<char>>::empty(), f, j);
        lemma_station_states(s, j);
        assert(schematic_station_ids(s.take(j))[i] == ids[i]);
    }
    assert forall|i: int| 0 <= i < s.len() implies names_well_formed((#[trigger] s[i]).names@) by {
        lemma_fold_ok_at(s, Seq::<Seq<char>>::empty(), f, i);
        lemma_names_pass("station"@, s[i].id@, s[i].names@);
    }
}

/// Corner ids are non-blank and unique.
proof fn lemma_corner_pass(s: Seq<SchematicCorner>)
    requires
        fold_state(s, Seq::<Seq<char>>::empty(), corner_index_step()) is Ok,
    ensures
        ids_well_formed(schematic_corner_ids(s)),
{
    let f = corner_index_step();
    let ids = schematic_corner_ids(s);
    assert forall|i: int| 0 <= i < s.len() implies !is_blank_spec(#[trigger] ids[i]) by {
        lemma_fold_ok_at(s, Seq::<Seq<char>>::empty(), f, i);
    }
    assert forall|i: int, j: int| 0 <= i < j < ids.len() implies (#[trigger] ids[i]) != (#[trigger] ids[j]) by {
        lemma_fold_ok_at(s, Seq::<Seq<char>>::empty(), f, j);
        lemma_corner_states(s, j);
        assert(schematic_corner_ids(s.take(j))[i] == ids[i]);
    }
}

/// Well-formed stations pass every prefix of the station pass, which
/// collects their ids.
proof fn lemma_station_prefix_accepted(s: Seq<SchematicStation>, i: int)
    requires
        0 <= i <= s.len(),
        ids_well_formed(schematic_station_ids(s)),
        forall|k: int| 0 <= k < s.len() ==> names_well_formed((#[trigger] s[k]).names@),
    ensures
        fold_state(s.take(i), Seq::<Seq<char>>::empty(), station_index_step()) == Ok::<Seq<Seq<char>>, SchematicFault>(schematic_station_ids(s.take(i))),
    decreases i,
{
    if i == 0 {
        assert(schematic_station_ids(s.take(0)) =~= Seq::<Seq<char>>::empty());
    } else {
        let ids = schematic_station_ids(s);
        let seen = schematic_station_ids(s.take(i - 1));
        lemma_station_prefix_accepted(s, i - 1);
        lemma_fold_step(s, Seq::<Seq<char>>::empty(), station_index_step(), i - 1);
        assert(ids[i - 1] == s[i - 1].id@);
        assert(!is_blank_spec(ids[i - 1]));
        assert(!seen.contains(s[i - 1].id@)) by {
            if seen.contains(s[i - 1].id@) {
                let j = choose|j: int| 0 <= j < seen.len() && seen[j] == s[i - 1].id@;
                assert(seen[j] == ids[j]);
            }
        }
        lemma_names_verdict_exact("station"@, s[i - 1].id@, s[i - 1].names@);
        assert(schematic_station_ids(s.take(i)) =~= seen.push(s[i - 1].id@));
    }
}

/// The station pass accepts exactly the stations whose ids are non-blank
/// and distinct and whose names are well formed.
pub proof fn lemma_station_pass_exact(s: Seq<SchematicStation>)
    ensures
        fold_state(s, Seq::<Seq<char>>::empty(), station_index_step()) is Ok <==> (ids_well_formed(schematic_station_ids(s))
            && forall|k: int| 0 <= k < s.len() ==> names_well_formed((#[trigger] s[k]).names@)),
{
    if fold_state(s, Seq::<Seq<char>>::empty(), station_index_step()) is Ok {
        lemma_station_pass(s);
    }
    if ids_well_formed(schematic_station_ids(s)) && forall|k: int| 0 <= k < s.len() ==> names_well_formed((#[trigger] s[k]).names@) {
        lemma_station_prefix_accepted(s, s.len() as int);
        lemma_fold_full(s, Seq::<Seq<char>>::empty(), station_index_step());
    }
}

/// Corners with non-blank, distinct ids pass every prefix of the corner
/// pass, which collects their ids.
proof fn lemma_corner_prefix_accepted(s: Seq<SchematicCorner>, i: int)
    requires
        0 <= i <= s.len(),
        ids_well_formed(schematic_corner_ids(s)),
    ensures
        fold_state(s.take(i), Seq::<Seq<char>>::empty(), corner_index_step()) == Ok::<Seq<Seq<char>>, SchematicFault>(schematic_corner_ids(s.take(i))),
    decreases i,
{
    if i == 0 {
        assert(schematic_corner_ids(s.take(0)) =~= Seq::<Seq<char>>::empty());
    } else {
        let ids = schematic_corner_ids(s);
        let seen = schematic_corner_ids(s.take(i - 1));
        lemma_corner_prefix_accepted(s, i - 1);
        lemma_fold_step(s, Seq::<Seq<char>>::empty(), corner_index_step(), i - 1);
        assert(ids[i - 1] == s[i - 1].id@);
        assert(!is_blank_spec(ids[i - 1]));
        assert(!seen.contains(s[i - 1].id@)) by {
            if seen.contains(s[i - 1].id@) {
                let j = choose|j: int| 0 <= j < seen.len() && seen[j] == s[i - 1].id@;
                assert(seen[j] == ids[j]);
            }
        }
        assert(schematic_corner_ids(s.take(i)) =~= seen.push(s[i - 1].id@));
    }
}

/// The corner pass accepts exactly the corners whose ids are non-blank and
/// distinct.
pub proof fn lemma_corner_pass_exact(s: Seq<SchematicCorner>)
    ensures
        fold_state(s, Seq::<Seq<char>>::empty(), corner_index_step()) is Ok <==> ids_well_formed(schematic_corner_ids(s)),
{
    if fold_state(s, Seq::<Seq<char>>::empty(), corner_index_step()) is Ok {
        lemma_corner_pass(s);
    }
    if ids_well_formed(schematic_corner_ids(s)) {
        lemma_corner_prefix_accepted(s, s.len() as int);
        lemma_fold_full(s, Seq::<Seq<char>>::empty(), corner_index_step());
    }
}

/// The port visits of `vs`, made by line `line`, in order.
pub open spec fn visit_port_records(vs: Seq<SchematicRouteVisit>, line: Seq<char>) -> Seq<PortRecord>
    decreases vs.len(),
{
    if vs.len() == 0 {
        Seq::empty()
    } else {
        match vs.last() {
            SchematicRouteVisit::Station { station_id, port } =>
                visit_port_records(vs.drop_last(), line).push(PortRecord { station: station_id@, port, line }),
            SchematicRouteVisit::Corner { .. } => visit_port_records(vs.drop_last(), line),
        }
    }
}

/// The corner visits of `vs`, made by line `line`, in order.
pub open spec fn visit_corner_records(vs: Seq<SchematicRouteVisit>, line: Seq<char>) -> Seq<CornerRecord>
    decreases vs.len(),
{
    if vs.len() == 0 {
        Seq::empty()
    } else {
        match vs.last() {
            SchematicRouteVisit::Corner { corner_id } => visit_corner_records(vs.drop_last(), line).push(CornerRecord { corner: corner_id@, line }),
            SchematicRouteVisit::Station { .. } => visit_corner_records(vs.drop_last(), line),
        }
    }
}

/// The port visits of the paths `ps` of line `line`, in order.
pub open spec fn paths_port_records(ps: Seq<SchematicPath>, line: Seq<char>) -> Seq<PortRecord>
    decreases ps.len(),
{
    if ps.len() == 0 {
        Seq::empty()
    } else {
        paths_port_records(ps.drop_last(), line) + visit_port_records(ps.last().visits@, line)
    }
}

/// The corner visits of the paths `ps` of line `line`, in order.
pub open spec fn paths_corner_records(ps: Seq<SchematicPath>, line: Seq<char>) -> Seq<CornerRecord>
    decreases ps.len(),
{
    if ps.len() == 0 {
        Seq::empty()
    } else {
        paths_corner_records(ps.drop_last(), line) + visit_corner_records(ps.last().visits@, line)
    }
}

/// Every port visit of every line, in order.
pub open spec fn lines_port_records(ls: Seq<SchematicLine>) -> Seq<PortRecord>
    decreases ls.len(),
{
    if ls.len() == 0 {
        Seq::empty()
    } else {
        lines_port_records(ls.drop_last()) + paths_port_records(ls.last().paths@, ls.last().id@)
    }
}

/// Every corner visit of every line, in order.
pub open spec fn lines_corner_records(ls: Seq<SchematicLine>) -> Seq<CornerRecord>
    decreases ls.len(),
{
    if ls.len() == 0 {
        Seq::empty()
    } else {
        lines_corner_records(ls.drop_last()) + paths_corner_records(ls.last().paths@, ls.last().id@)
    }
}

/// No two visits to the same station port come from different lines.
pub open spec fn ports_unshared(ports: Seq<PortRecord>) -> bool {
    forall|x: int, y: int|
        0 <= x < ports.len() && 0 <= y < ports.len() && (#[trigger] ports[x]).station == (#[trigger] ports[y]).station
            && ports[x].port == ports[y].port ==> ports[x].line == ports[y].line
}

/// No two visits to the same corner come from different lines.
pub open spec fn corners_unshared(corners: Seq<CornerRecord>) -> bool {
    forall|x: int, y: int|
        0 <= x < corners.len() && 0 <= y < corners.len() && (#[trigger] corners[x]).corner == (#[trigger] corners[y]).corner
            ==> corners[x].line == corners[y].line
}

proof fn lemma_port_owner(ports: Seq<PortRecord>, station: Seq<char>, port: SchematicStationPort)
    ensures
        port_owner(ports, station, port) is None ==> forall|x: int|
            0 <= x < ports.len() ==> !((#[trigger] ports[x]).station == station && ports[x].port == port),
        port_owner(ports, station, port) is Some ==> exists|y: int|
            0 <= y < ports.len() && (#[trigger] ports[y]).station == station && ports[y].port == port
                && port_owner(ports, station, port) == Some(ports[y].line),
    decreases ports.len(),
{
    if ports.len() > 0 {
        let rest = ports.drop_first();
        lemma_port_owner(rest, station, port);
        if !(ports[0].station == station && ports[0].port == port) {
            assert forall|x: int| 0 <= x < ports.len() && port_owner(ports, station, port) is None
                implies !((#[trigger] ports[x]).station == station && ports[x].port == port) by {
                if x > 0 {
                    assert(ports[x] == rest[x - 1]);
                }
            }
            if port_owner(ports, station, port) is Some {
                let y = choose|y: int| 0 <= y < rest.len() && (#[trigger] rest[y]).station == station && rest[y].port == port
                    && port_owner(rest, station, port) == Some(rest[y].line);
                assert(ports[y + 1] == rest[y]);
            }
        }
    }
}

proof fn lemma_corner_owner(corners: Seq<CornerRecord>, corner: Seq<char>)
    ensures
        corner_owner(corners, corner) is None ==> forall|x: int| 0 <= x < corners.len() ==> (#[trigger] corners[x]).corner != corner,
        corner_owner(corners, corner) is Some ==> exists|y: int|
            0 <= y < corners.len() && (#[trigger] corners[y]).corner == corner && corner_owner(corners, corner) == Some(corners[y].line),
    decreases corners.len(),
{
    if corners.len() > 0 {
        let rest = corners.drop_first();
        lemma_corner_owner(rest, corner);
        if corners[0].corner != corner {
            assert forall|x: int| 0 <= x < corners.len() && corner_owner(corners, corner) is None
                implies (#[trigger] corners[x]).corner != corner by {
                if x > 0 {
                    assert(corners[x] == rest[x - 1]);
                }
            }
            if corner_owner(corners, corner) is Some {
                let y = choose|y: int| 0 <= y < rest.len() && (#[trigger] rest[y]).corner == corner
                    && corner_owner(rest, corner) == Some(rest[y].line);
                assert(corners[y + 1] == rest[y]);
            }
        }
    }
}

proof fn lemma_visits_keep_lines(
    stations: Seq<SchematicStation>,
    corners: Seq<Seq<char>>,
    line: Seq<char>,
    path: int,
    in_range: Seq<bool>,
    vs: Seq<SchematicRouteVisit>,
    start: VisitState,
)
    requires
        fold_state(vs, start, visit_step(stations, corners, line, path, in_range)) is Ok,
    ensures
        fold_state(vs, start, visit_step(stations, corners, line, path, in_range))->Ok_0.ledger.lines == start.ledger.lines,
        fold_state(vs, start, visit_step(stations, corners, line, path, in_range))->Ok_0.ledger.ports
            == start.ledger.ports + visit_port_records(vs, line),
        fold_state(vs, start, visit_step(stations, corners, line, path, in_range))->Ok_0.ledger.corners
            == start.ledger.corners + visit_corner_records(vs, line),
        ports_unshared(start.ledger.ports) ==> ports_unshared(
            fold_state(vs, start, visit_step(stations, corners, line, path, in_range))->Ok_0.ledger.ports,
        ),
        corners_unshared(start.ledger.corners) ==> corners_unshared(
            fold_state(vs, start, visit_step(stations, corners, line, path, in_range))->Ok_0.ledger.corners,
        ),
    decreases vs.len(),
{
    if vs.len() > 0 {
        lemma_visits_keep_lines(stations, corners, line, path, in_range, vs.drop_last(), start);
        let st = fold_state(vs.drop_last(), start, visit_step(stations, corners, line, path, in_range))->Ok_0;
        match vs.last() {
            SchematicRouteVisit::Station { station_id, port } => {
                lemma_port_owner(st.ledger.ports, station_id@, port);
            },
            SchematicRouteVisit::Corner { corner_id } => {
                lemma_corner_owner(st.ledger.corners, corner_id@);
            },
        }
        let a = start.ledger.ports;
        let b = visit_port_records(vs.drop_last(), line);
        let c = start.ledger.corners;
        let d = visit_corner_records(vs.drop_last(), line);
        match vs.last() {
            SchematicRouteVisit::Station { station_id, port } => {
                assert((a + b).push(PortRecord { station: station_id@, port, line }) =~= a + b.push(PortRecord { station: station_id@, port, line }));
            },
            SchematicRouteVisit::Corner { corner_id } => {
                assert((c + d).push(CornerRecord { corner: corner_id@, line }) =~= c + d.push(CornerRecord { corner: corner_id@, line }));
            },
        }
    } else {
        assert(start.ledger.ports + Seq::<PortRecord>::empty() =~= start.ledger.ports);
        assert(start.ledger.corners + Seq::<CornerRecord>::empty() =~= start.ledger.corners);
    }
}

proof fn lemma_paths_keep_lines(
    stations: Seq<SchematicStation>,
    corners: Seq<Seq<char>>,
    line: Seq<char>,
    geometry: Seq<PathGeometry>,
    ps: Seq<SchematicPath>,
    led: Ledger,
    n: int,
)
    requires
        fold_state(ps, (led, n), path_step(stations, corners, line, geometry)) is Ok,
    ensures
        fold_state(ps, (led, n), path_step(stations, corners, line, geometry))->Ok_0.0.lines == led.lines,
        fold_state(ps, (led, n), path_step(stations, corners, line, geometry))->Ok_0.0.ports == led.ports + paths_port_records(ps, line),
        fold_state(ps, (led, n), path_step(stations, corners, line, geometry))->Ok_0.0.corners
            == led.corners + paths_corner_records(ps, line),
        fold_state(ps, (led, n), path_step(stations, corners, line, geometry))->Ok_0.1 == n + ps.len(),
        ports_unshared(led.ports) ==> ports_unshared(fold_state(ps, (led, n), path_step(stations, corners, line, geometry))->Ok_0.0.ports),
        corners_unshared(led.corners) ==> corners_unshared(
            fold_state(ps, (led, n), path_step(stations, corners, line, geometry))->Ok_0.0.corners,
        ),
    decreases ps.len(),
{
    if ps.len() == 0 {
        assert(led.ports + Seq::<PortRecord>::empty() =~= led.ports);
        assert(led.corners + Seq::<CornerRecord>::empty() =~= led.corners);
    }
    if ps.len() > 0 {
        let d = ps.drop_last();
        lemma_paths_keep_lines(stations, corners, line, geometry, d, led, n);
        let st = fold_state(d, (led, n), path_step(stations, corners, line, geometry))->Ok_0;
        let p = ps.last();
        let start = VisitState { ledger: st.0, stations: Seq::empty(), corners: Seq::empty(), index: 0 };
        let f = visit_step(stations, corners, line, st.1 + 1, geometry[st.1].anchors_in_range@);
        if fold_state(p.visits@, start, f) is Ok {
            lemma_visits_keep_lines(stations, corners, line, st.1 + 1, geometry[st.1].anchors_in_range@, p.visits@, start);
            assert(led.ports + paths_port_records(d, line) + visit_port_records(p.visits@, line)
                =~= led.ports + paths_port_records(ps, line));
            assert(led.corners + paths_corner_records(d, line) + visit_corner_records(p.visits@, line)
                =~= led.corners + paths_corner_records(ps, line));
        }
    }
}

proof fn lemma_line_states(m: SchematicManifest, g: SchematicGeometry, l: int)
    requires
        0 <= l <= m.lines@.len(),
        fold_state(m.lines@.take(l), empty_ledger(), line_step(m.stations@, schematic_corner_ids(m.corners@), g.paths@)) is Ok,
    ensures
        fold_state(m.lines@.take(l), empty_ledger(), line_step(m.stations@, schematic_corner_ids(m.corners@), g.paths@))->Ok_0.lines
            == schematic_line_ids(m.lines@.take(l)),
        fold_state(m.lines@.take(l), empty_ledger(), line_step(m.stations@, schematic_corner_ids(m.corners@), g.paths@))->Ok_0.ports
            == lines_port_records(m.lines@.take(l)),
        fold_state(m.lines@.take(l), empty_ledger(), line_step(m.stations@, schematic_corner_ids(m.corners@), g.paths@))->Ok_0.corners
            == lines_corner_records(m.lines@.take(l)),
        ports_unshared(lines_port_records(m.lines@.take(l))),
        corners_unshared(lines_corner_records(m.lines@.take(l))),
    decreases l,
{
    let f = line_step(m.stations@, schematic_corner_ids(m.corners@), g.paths@);
    if l == 0 {
        assert(schematic_line_ids(m.lines@.take(0)) =~= Seq::<Seq<char>>::empty());
        assert(m.lines@.take(0) =~= Seq::<SchematicLine>::empty());
    } else {
        lemma_fold_step(m.lines@, empty_ledger(), f, l - 1);
        lemma_line_states(m, g, l - 1);
        let led = fold_state(m.lines@.take(l - 1), empty_ledger(), f)->Ok_0;
        let line = m.lines@[l - 1];
        lemma_paths_keep_lines(
            m.stations@,
            schematic_corner_ids(m.corners@),
            line.id@,
            g.paths@[led.lines.len() as int]@,
            line.paths@,
            led,
            0,
        );
        assert(schematic_line_ids(m.lines@.take(l)) =~= schematic_line_ids(m.lines@.take(l - 1)).push(line.id@));
        assert(m.lines@.take(l).drop_last() =~= m.lines@.take(l - 1));
        assert(m.lines@.take(l).last() == line);
    }
}

proof fn lemma_visit_states(
    stations: Seq<SchematicStation>,
    corners: Seq<Seq<char>>,
    line: Seq<char>,
    path: int,
    in_range: Seq<bool>,
    vs: Seq<SchematicRouteVisit>,
    start: VisitState,
    k: int,
)
    requires
        0 <= k <= vs.len(),
        start.stations == Seq::<Seq<char>>::empty(),
        start.corners == Seq::<Seq<char>>::empty(),
        fold_state(vs.take(k), start, visit_step(stations, corners, line, path, in_range)) is Ok,
    ensures
        fold_state(vs.take(k), start, visit_step(stations, corners, line, path, in_range))->Ok_0.stations == visit_station_ids(vs.take(k)),
        fold_state(vs.take(k), start, visit_step(stations, corners, line, path, in_range))->Ok_0.index == start.index + k,
        fold_state(vs.take(k), start, visit_step(stations, corners, line, path, in_range))->Ok_0.corners == visit_corner_ids(vs.take(k)),
    decreases k,
{
    let f = visit_step(stations, corners, line, path, in_range);
    if k > 0 {
        lemma_fold_step(vs, start, f, k - 1);
        lemma_visit_states(stations, corners, line, path, in_range, vs, start, k - 1);
        assert(vs.take(k).drop_last() =~= vs.take(k - 1));
        assert(vs.take(k).last() == vs[k - 1]);
    } else {
        assert(vs.take(0) =~= Seq::<SchematicRouteVisit>::empty());
    }
}

proof fn lemma_visit_ids_hold(vs: Seq<SchematicRouteVisit>, i: int, j: int)
    requires
        0 <= i < j <= vs.len(),
    ensures
        vs[i] matches SchematicRouteVisit::Station { station_id, .. } ==> visit_station_ids(vs.take(j)).contains(station_id@),
        vs[i] matches SchematicRouteVisit::Corner { corner_id } ==> visit_corner_ids(vs.take(j)).contains(corner_id@),
    decreases j,
{
    assert(vs.take(j).drop_last() =~= vs.take(j - 1));
    assert(vs.take(j).last() == vs[j - 1]);
    if i == j - 1 {
        match vs[i] {
            SchematicRouteVisit::Station { station_id, .. } => {
                assert(visit_station_ids(vs.take(j)).last() == station_id@);
            },
            SchematicRouteVisit::Corner { corner_id } => {
                assert(visit_corner_ids(vs.take(j)).last() == corner_id@);
            },
        }
    } else {
        lemma_visit_ids_hold(vs, i, j - 1);
        let a = visit_station_ids(vs.take(j - 1));
        let b = visit_corner_ids(vs.take(j - 1));
        match vs[i] {
            SchematicRouteVisit::Station { station_id, .. } => {
                let x = choose|x: int| 0 <= x < a.len() && a[x] == station_id@;
                assert(visit_station_ids(vs.take(j))[x] == station_id@);
            },
            SchematicRouteVisit::Corner { corner_id } => {
                let x = choose|x: int| 0 <= x < b.len() && b[x] == corner_id@;
                assert(visit_corner_ids(vs.take(j))[x] == corner_id@);
            },
        }
    }
}

/// The paths of a line that the line pass accepted, with the geometry the
/// pass gave them, are well formed.
proof fn lemma_accepted_paths(
    m: SchematicManifest,
    line: SchematicLine,
    geometry: Seq<PathGeometry>,
    led: Ledger,
)
    requires
        fold_state(line.paths@, (led, 0int), path_step(m.stations@, schematic_corner_ids(m.corners@), line.id@, geometry)) is Ok,
    ensures
        forall|p: int| 0 <= p < line.paths@.len() ==> path_well_formed(m, #[trigger] line.paths@[p]),
        forall|p: int| 0 <= p < line.paths@.len() ==> legs_well_formed(#[trigger] geometry[p]),
        forall|p: int| 0 <= p < line.paths@.len() ==> points_well_formed(m, #[trigger] line.paths@[p], geometry[p]),
        forall|p: int| 0 <= p < line.paths@.len() ==> anchors_finite(#[trigger] line.paths@[p], geometry[p]),
{
    let corners = schematic_corner_ids(m.corners@);
    let f = path_step(m.stations@, corners, line.id@, geometry);
    assert forall|p: int| 0 <= p < line.paths@.len() implies path_well_formed(m, #[trigger] line.paths@[p])
        && legs_well_formed(geometry[p]) && points_well_formed(m, line.paths@[p], geometry[p])
        && anchors_finite(line.paths@[p], geometry[p]) by {
        lemma_fold_ok_at(line.paths@, (led, 0int), f, p);
        lemma_paths_keep_lines(m.stations@, corners, line.id@, geometry, line.paths@.take(p), led, 0);
        let st = fold_state(line.paths@.take(p), (led, 0int), f)->Ok_0;
        assert(st.1 == p);
        let path = line.paths@[p];
        let g = geometry[p];
        let start = VisitState { ledger: st.0, stations: Seq::empty(), corners: Seq::empty(), index: 0 };
        let fv = visit_step(m.stations@, corners, line.id@, p + 1, g.anchors_in_range@);
        assert(fold_state(path.visits@, start, fv) is Ok);
        assert forall|k: int| 0 <= k < path.visits@.len() implies visit_resolves(m, #[trigger] path.visits@[k]) by {
            lemma_fold_ok_at(path.visits@, start, fv, k);
        }
        assert forall|k: int| 0 <= k < path.visits@.len() && (#[trigger] path.visits@[k]) is Station implies g.anchors_in_range@[k] by {
            lemma_fold_ok_at(path.visits@, start, fv, k);
            lemma_visit_states(m.stations@, corners, line.id@, p + 1, g.anchors_in_range@, path.visits@, start, k);
        }
        assert forall|i: int, j: int| 0 <= i < j < path.visits@.len() implies visits_differ(#[trigger] path.visits@[i], #[trigger] path.visits@[j]) by {
            lemma_fold_ok_at(path.visits@, start, fv, j);
            lemma_visit_states(m.stations@, corners, line.id@, p + 1, g.anchors_in_range@, path.visits@, start, j);
            lemma_visit_ids_hold(path.visits@, i, j);
        }
        assert(path_verdict(m.stations@, line.id@, p + 1, path.visits@, path.closed, g) is Ok);
        assert forall|k: int| 0 <= k < g.legs@.len() implies (#[trigger] g.legs@[k]) is Along by {
            lemma_fold_ok_at(g.legs@, (), leg_step(line.id@, p + 1), k);
        }
        assert forall|k: int| 0 <= k < g.radii_overlap@.len() implies !(#[trigger] g.radii_overlap@[k]) by {
            lemma_fold_ok_at(g.radii_overlap@, (), radii_step(line.id@, p + 1), k);
        }
        let fp = point_step(m.stations@, line.id@, p + 1, path.closed, g);
        assert forall|k: int| 0 <= k < path.visits@.len() implies point_well_formed(m, path.closed, g, k, #[trigger] path.visits@[k]) by {
            lemma_fold_ok_at(path.visits@, 0int, fp, k);
            lemma_point_states(m.stations@, line.id@, p + 1, path.closed, g, path.visits@, k);
        }
    }
    assert forall|p: int| 0 <= p < line.paths@.len() implies legs_well_formed(#[trigger] geometry[p]) by {
        assert(path_well_formed(m, line.paths@[p]));
    }
    assert forall|p: int| 0 <= p < line.paths@.len() implies points_well_formed(m, #[trigger] line.paths@[p], geometry[p]) by {
        assert(path_well_formed(m, line.paths@[p]));
    }
}

proof fn lemma_symbol_states(line_width: u64, lengths: Seq<bool>, s: Seq<SchematicStation>, k: int)
    requires
        0 <= k <= s.len(),
        fold_state(s.take(k), 0int, symbol_step(line_width, lengths)) is Ok,
    ensures
        fold_state(s.take(k), 0int, symbol_step(line_width, lengths)) == Ok::<int, SchematicFault>(k),
    decreases k,
{
    if k > 0 {
        lemma_fold_step(s, 0int, symbol_step(line_width, lengths), k - 1);
        lemma_symbol_states(line_width, lengths, s, k - 1);
    }
}

/// A capsule station is reached at each of its perpendicular ports exactly
/// once, as the port visits `ports` count them.
pub open spec fn perpendiculars_complete(ports: Seq<PortRecord>, st: SchematicStation) -> bool {
    match st.symbol {
        SchematicStationSymbol::Capsule { anchor_count, .. } => perpendicular_complete(ports, st.id@, anchor_count),
        SchematicStationSymbol::Circle {} => true,
    }
}

/// A capsule with several anchors spaces them at least a line width apart.
pub open spec fn anchors_spaced(st: SchematicStation, line_width: u64) -> bool {
    match st.symbol {
        SchematicStationSymbol::Capsule { anchor_count, anchor_interval, .. } =>
            anchor_count > 1 ==> !crate::float_bits::positive_lt_bits(anchor_interval.bits(), line_width),
        SchematicStationSymbol::Circle {} => true,
    }
}

/// A schematic that passes validation is well formed, as its validation
/// contract lists: station, corner and line ids are non-blank and unique;
/// every list of localized names has non-blank locales and canonical
/// names; every path visits enough stations, an open one begins and ends at
/// stations, every visit names a known station through a port its symbol
/// takes or a known corner, and no station or corner is visited twice;
/// every leg runs along an octilinear axis, every station keeps its legs
/// on the axis its port permits and the path runs straight through it,
/// every corner lies between two legs and its rounding fits, and no two
/// corner roundings meet; a capsule with several anchors spaces them at
/// least a line width apart; every corner is visited by some line; no
/// station port and no corner is visited by two lines; every capsule is
/// reached at each of its perpendicular ports exactly once; every station
/// visit resolves to a finite point and every capsule has a finite length;
/// no two legs overlap; and the drawing's extent is finite.
pub proof fn lemma_valid_schematic_is_well_formed(m: SchematicManifest, g: SchematicGeometry)
    requires
        schematic_verdict(m, g) is Ok,
    ensures
        ids_well_formed(schematic_station_ids(m.stations@)),
        forall|i: int| 0 <= i < m.stations@.len() ==> names_well_formed((#[trigger] m.stations@[i]).names@),
        ids_well_formed(schematic_corner_ids(m.corners@)),
        ids_well_formed(schematic_line_ids(m.lines@)),
        forall|l: int| 0 <= l < m.lines@.len() ==> names_well_formed((#[trigger] m.lines@[l]).names@),
        forall|l: int, p: int| 0 <= l < m.lines@.len() && 0 <= p < m.lines@[l].paths@.len()
            ==> path_well_formed(m, #[trigger] m.lines@[l].paths@[p]),
        forall|l: int, p: int| 0 <= l < m.lines@.len() && 0 <= p < m.lines@[l].paths@.len()
            ==> legs_well_formed(#[trigger] g.paths@[l]@[p]),
        forall|l: int, p: int| 0 <= l < m.lines@.len() && 0 <= p < m.lines@[l].paths@.len()
            ==> points_well_formed(m, #[trigger] m.lines@[l].paths@[p], g.paths@[l]@[p]),
        forall|i: int| 0 <= i < m.stations@.len() ==> anchors_spaced(#[trigger] m.stations@[i], m.options.lines.width.bits()),
        forall|l: int, p: int| 0 <= l < m.lines@.len() && 0 <= p < m.lines@[l].paths@.len()
            ==> anchors_finite(#[trigger] m.lines@[l].paths@[p], g.paths@[l]@[p]),
        forall|i: int| 0 <= i < m.stations@.len() && (#[trigger] m.stations@[i]).symbol is Capsule ==> g.capsule_lengths_in_range@[i],
        forall|c: int| 0 <= c < m.corners@.len() ==> corner_owner(lines_corner_records(m.lines@), (#[trigger] m.corners@[c]).id@) is Some,
        forall|i: int| 0 <= i < m.stations@.len() ==> perpendiculars_complete(lines_port_records(m.lines@), #[trigger] m.stations@[i]),
        ports_unshared(lines_port_records(m.lines@)),
        corners_unshared(lines_corner_records(m.lines@)),
        !g.legs_overlap,
        g.bounds_in_range,
{
    lemma_station_pass(m.stations@);
    lemma_corner_pass(m.corners@);
    let f = line_step(m.stations@, schematic_corner_ids(m.corners@), g.paths@);
    let lines = m.lines@;
    let ids = schematic_line_ids(lines);
    assert forall|l: int| 0 <= l < lines.len() implies !is_blank_spec(#[trigger] ids[l])
        && names_well_formed(lines[l].names@)
        && (forall|p: int| 0 <= p < lines[l].paths@.len() ==> path_well_formed(m, #[trigger] lines[l].paths@[p]))
        && (forall|p: int| 0 <= p < lines[l].paths@.len() ==> legs_well_formed(#[trigger] g.paths@[l]@[p]))
        && (forall|p: int| 0 <= p < lines[l].paths@.len() ==> points_well_formed(m, #[trigger] lines[l].paths@[p], g.paths@[l]@[p]))
        && (forall|p: int| 0 <= p < lines[l].paths@.len() ==> anchors_finite(#[trigger] lines[l].paths@[p], g.paths@[l]@[p])) by {
        lemma_fold_ok_at(lines, empty_ledger(), f, l);
        lemma_line_states(m, g, l);
        let led = fold_state(lines.take(l), empty_ledger(), f)->Ok_0;
        assert(led.lines.len() == l);
        lemma_names_pass("line"@, lines[l].id@, lines[l].names@);
        lemma_accepted_paths(m, lines[l], g.paths@[l]@, led);
    }
    assert forall|i: int, j: int| 0 <= i < j < ids.len() implies (#[trigger] ids[i]) != (#[trigger] ids[j]) by {
        lemma_fold_ok_at(lines, empty_ledger(), f, j);
        lemma_line_states(m, g, j);
        assert(schematic_line_ids(lines.take(j))[i] == ids[i]);
    }
    assert forall|l: int| 0 <= l < lines.len() implies names_well_formed((#[trigger] lines[l]).names@) by {
        assert(!is_blank_spec(ids[l]));
    }
    assert forall|l: int, p: int| 0 <= l < lines.len() && 0 <= p < lines[l].paths@.len()
        implies path_well_formed(m, #[trigger] lines[l].paths@[p]) by {
        assert(!is_blank_spec(ids[l]));
    }
    assert forall|l: int, p: int| 0 <= l < lines.len() && 0 <= p < lines[l].paths@.len()
        implies legs_well_formed(#[trigger] g.paths@[l]@[p]) by {
        assert(!is_blank_spec(ids[l]));
    }
    assert forall|l: int, p: int| 0 <= l < lines.len() && 0 <= p < lines[l].paths@.len()
        implies points_well_formed(m, #[trigger] lines[l].paths@[p], g.paths@[l]@[p]) by {
        assert(!is_blank_spec(ids[l]));
    }
    assert forall|l: int, p: int| 0 <= l < lines.len() && 0 <= p < lines[l].paths@.len()
        implies anchors_finite(#[trigger] lines[l].paths@[p], g.paths@[l]@[p]) by {
        assert(!is_blank_spec(ids[l]));
    }
    let led = line_pass(m, g)->Ok_0;
    assert(lines.take(lines.len() as int) =~= lines);
    lemma_line_states(m, g, lines.len() as int);
    assert forall|c: int| 0 <= c < m.corners@.len() implies corner_owner(lines_corner_records(lines), (#[trigger] m.corners@[c]).id@) is Some by {
        lemma_fold_ok_at(m.corners@, (), corner_reference_step(led.corners), c);
    }
    assert forall|i: int| 0 <= i < m.stations@.len() implies perpendiculars_complete(lines_port_records(lines), #[trigger] m.stations@[i]) by {
        lemma_fold_ok_at(m.stations@, (), perpendicular_step(led.ports), i);
    }
    let fs = symbol_step(m.options.lines.width.bits(), g.capsule_lengths_in_range@);
    assert forall|i: int| 0 <= i < m.stations@.len() implies anchors_spaced(#[trigger] m.stations@[i], m.options.lines.width.bits()) by {
        lemma_fold_ok_at(m.stations@, 0int, fs, i);
    }
    assert forall|i: int| 0 <= i < m.stations@.len() && (#[trigger] m.stations@[i]).symbol is Capsule implies g.capsule_lengths_in_range@[i] by {
        lemma_fold_ok_at(m.stations@, 0int, fs, i);
        lemma_symbol_states(m.options.lines.width.bits(), g.capsule_lengths_in_range@, m.stations@, i);
    }
}

} // verus!

verus! {

/// `x` is a prefix of `y`.
spec fn prefix_of<T>(x: Seq<T>, y: Seq<T>) -> bool {
    x.len() <= y.len() && y.take(x.len() as int) == x
}

proof fn lemma_prefix_trans<T>(x: Seq<T>, y: Seq<T>, z: Seq<T>)
    requires
        prefix_of(x, y),
        prefix_of(y, z),
    ensures
        prefix_of(x, z),
{
    assert(z.take(x.len() as int) =~= z.take(y.len() as int).take(x.len() as int));
}

proof fn lemma_prefix_after<T>(a: Seq<T>, x: Seq<T>, y: Seq<T>)
    requires
        prefix_of(x, y),
    ensures
        prefix_of(a + x, a + y),
{
    assert((a + y).take((a + x).len() as int) =~= a + y.take(x.len() as int));
}

proof fn lemma_prefix_extend<T>(x: Seq<T>, y: Seq<T>)
    ensures
        prefix_of(x, x + y),
{
    assert((x + y).take(x.len() as int) =~= x);
}

/// The records one more visit adds.
pub open spec fn visit_port_record(v: SchematicRouteVisit, line: Seq<char>) -> Seq<PortRecord> {
    match v {
        SchematicRouteVisit::Station { station_id, port } => seq![PortRecord { station: station_id@, port, line }],
        SchematicRouteVisit::Corner { .. } => Seq::empty(),
    }
}

pub open spec fn visit_corner_record(v: SchematicRouteVisit, line: Seq<char>) -> Seq<CornerRecord> {
    match v {
        SchematicRouteVisit::Corner { corner_id } => seq![CornerRecord { corner: corner_id@, line }],
        SchematicRouteVisit::Station { .. } => Seq::empty(),
    }
}

proof fn lemma_visit_records_step(vs: Seq<SchematicRouteVisit>, line: Seq<char>, k: int)
    requires
        0 <= k < vs.len(),
    ensures
        visit_port_records(vs.take(k + 1), line) == visit_port_records(vs.take(k), line) + visit_port_record(vs[k], line),
        visit_corner_records(vs.take(k + 1), line) == visit_corner_records(vs.take(k), line) + visit_corner_record(vs[k], line),
{
    assert(vs.take(k + 1).drop_last() =~= vs.take(k));
    assert(vs.take(k + 1).last() == vs[k]);
    match vs[k] {
        SchematicRouteVisit::Station { station_id, port } => {
            assert(visit_corner_records(vs.take(k), line) + Seq::<CornerRecord>::empty() =~= visit_corner_records(vs.take(k), line));
        },
        SchematicRouteVisit::Corner { corner_id } => {
            assert(visit_port_records(vs.take(k), line) + Seq::<PortRecord>::empty() =~= visit_port_records(vs.take(k), line));
        },
    }
}

proof fn lemma_visit_records_prefix(vs: Seq<SchematicRouteVisit>, line: Seq<char>, k: int)
    requires
        0 <= k <= vs.len(),
    ensures
        prefix_of(visit_port_records(vs.take(k), line), visit_port_records(vs, line)),
        prefix_of(visit_corner_records(vs.take(k), line), visit_corner_records(vs, line)),
    decreases vs.len(),
{
    if k == vs.len() {
        assert(vs.take(k) =~= vs);
        lemma_prefix_extend(visit_port_records(vs, line), Seq::<PortRecord>::empty());
        assert(visit_port_records(vs, line) + Seq::<PortRecord>::empty() =~= visit_port_records(vs, line));
        lemma_prefix_extend(visit_corner_records(vs, line), Seq::<CornerRecord>::empty());
        assert(visit_corner_records(vs, line) + Seq::<CornerRecord>::empty() =~= visit_corner_records(vs, line));
    } else {
        let d = vs.drop_last();
        assert(d.take(k) =~= vs.take(k));
        lemma_visit_records_prefix(d, line, k);
        lemma_visit_records_step(vs, line, vs.len() - 1);
        assert(vs.take(vs.len() - 1) =~= d);
        assert(vs.take(vs.len() as int) =~= vs);
        lemma_prefix_extend(visit_port_records(d, line), visit_port_record(vs.last(), line));
        lemma_prefix_trans(visit_port_records(vs.take(k), line), visit_port_records(d, line), visit_port_records(vs, line));
        lemma_prefix_extend(visit_corner_records(d, line), visit_corner_record(vs.last(), line));
        lemma_prefix_trans(visit_corner_records(vs.take(k), line), visit_corner_records(d, line), visit_corner_records(vs, line));
    }
}

proof fn lemma_paths_records_step(ps: Seq<SchematicPath>, line: Seq<char>, p: int)
    requires
        0 <= p < ps.len(),
    ensures
        paths_port_records(ps.take(p + 1), line) == paths_port_records(ps.take(p), line) + visit_port_records(ps[p].visits@, line),
        paths_corner_records(ps.take(p + 1), line) == paths_corner_records(ps.take(p), line) + visit_corner_records(ps[p].visits@, line),
{
    assert(ps.take(p + 1).drop_last() =~= ps.take(p));
    assert(ps.take(p + 1).last() == ps[p]);
}

proof fn lemma_paths_records_prefix(ps: Seq<SchematicPath>, line: Seq<char>, p: int)
    requires
        0 <= p <= ps.len(),
    ensures
        prefix_of(paths_port_records(ps.take(p), line), paths_port_records(ps, line)),
        prefix_of(paths_corner_records(ps.take(p), line), paths_corner_records(ps, line)),
    decreases ps.len(),
{
    if p == ps.len() {
        assert(ps.take(p) =~= ps);
        lemma_prefix_extend(paths_port_records(ps, line), Seq::<PortRecord>::empty());
        assert(paths_port_records(ps, line) + Seq::<PortRecord>::empty() =~= paths_port_records(ps, line));
        lemma_prefix_extend(paths_corner_records(ps, line), Seq::<CornerRecord>::empty());
        assert(paths_corner_records(ps, line) + Seq::<CornerRecord>::empty() =~= paths_corner_records(ps, line));
    } else {
        let d = ps.drop_last();
        assert(d.take(p) =~= ps.take(p));
        lemma_paths_records_prefix(d, line, p);
        lemma_prefix_extend(paths_port_records(d, line), visit_port_records(ps.last().visits@, line));
        lemma_prefix_trans(paths_port_records(ps.take(p), line), paths_port_records(d, line), paths_port_records(ps, line));
        lemma_prefix_extend(paths_corner_records(d, line), visit_corner_records(ps.last().visits@, line));
        lemma_prefix_trans(paths_corner_records(ps.take(p), line), paths_corner_records(d, line), paths_corner_records(ps, line));
    }
}

proof fn lemma_lines_records_step(ls: Seq<SchematicLine>, l: int)
    requires
        0 <= l < ls.len(),
    ensures
        lines_port_records(ls.take(l + 1)) == lines_port_records(ls.take(l)) + paths_port_records(ls[l].paths@, ls[l].id@),
        lines_corner_records(ls.take(l + 1)) == lines_corner_records(ls.take(l)) + paths_corner_records(ls[l].paths@, ls[l].id@),
{
    assert(ls.take(l + 1).drop_last() =~= ls.take(l));
    assert(ls.take(l + 1).last() == ls[l]);
}

proof fn lemma_lines_records_prefix(ls: Seq<SchematicLine>, l: int)
    requires
        0 <= l <= ls.len(),
    ensures
        prefix_of(lines_port_records(ls.take(l)), lines_port_records(ls)),
        prefix_of(lines_corner_records(ls.take(l)), lines_corner_records(ls)),
    decreases ls.len(),
{
    if l == ls.len() {
        assert(ls.take(l) =~= ls);
        lemma_prefix_extend(lines_port_records(ls), Seq::<PortRecord>::empty());
        assert(lines_port_records(ls) + Seq::<PortRecord>::empty() =~= lines_port_records(ls));
        lemma_prefix_extend(lines_corner_records(ls), Seq::<CornerRecord>::empty());
        assert(lines_corner_records(ls) + Seq::<CornerRecord>::empty() =~= lines_corner_records(ls));
    } else {
        let d = ls.drop_last();
        assert(d.take(l) =~= ls.take(l));
        lemma_lines_records_prefix(d, l);
        lemma_prefix_extend(lines_port_records(d), paths_port_records(ls.last().paths@, ls.last().id@));
        lemma_prefix_trans(lines_port_records(ls.take(l)), lines_port_records(d), lines_port_records(ls));
        lemma_prefix_extend(lines_corner_records(d), paths_corner_records(ls.last().paths@, ls.last().id@));
        lemma_prefix_trans(lines_corner_records(ls.take(l)), lines_corner_records(d), lines_corner_records(ls));
    }
}


/// What the line pass has recorded on reaching visit `k` of path `p` of line
/// `l`, followed by that visit's own record, opens the records of all lines.
proof fn lemma_visit_records_open_all(ls: Seq<SchematicLine>, l: int, p: int, k: int)
    requires
        0 <= l < ls.len(),
        0 <= p < ls[l].paths@.len(),
        0 <= k < ls[l].paths@[p].visits@.len(),
    ensures
        prefix_of(
            lines_port_records(ls.take(l)) + paths_port_records(ls[l].paths@.take(p), ls[l].id@)
                + visit_port_records(ls[l].paths@[p].visits@.take(k), ls[l].id@) + visit_port_record(ls[l].paths@[p].visits@[k], ls[l].id@),
            lines_port_records(ls),
        ),
        prefix_of(
            lines_corner_records(ls.take(l)) + paths_corner_records(ls[l].paths@.take(p), ls[l].id@)
                + visit_corner_records(ls[l].paths@[p].visits@.take(k), ls[l].id@) + visit_corner_record(ls[l].paths@[p].visits@[k], ls[l].id@),
            lines_corner_records(ls),
        ),
{
    let id = ls[l].id@;
    let ps = ls[l].paths@;
    let vs = ps[p].visits@;
    lemma_visit_records_step(vs, id, k);
    lemma_visit_records_prefix(vs, id, k + 1);
    lemma_paths_records_step(ps, id, p);
    lemma_paths_records_prefix(ps, id, p + 1);
    lemma_lines_records_step(ls, l);
    lemma_lines_records_prefix(ls, l + 1);

    let lp = lines_port_records(ls.take(l));
    let pp = paths_port_records(ps.take(p), id);
    let vp = visit_port_records(vs.take(k), id) + visit_port_record(vs[k], id);
    lemma_prefix_after(pp, vp, visit_port_records(vs, id));
    lemma_prefix_trans(pp + vp, paths_port_records(ps.take(p + 1), id), paths_port_records(ps, id));
    lemma_prefix_after(lp, pp + vp, paths_port_records(ps, id));
    lemma_prefix_trans(lp + (pp + vp), lines_port_records(ls.take(l + 1)), lines_port_records(ls));
    assert(lp + pp + visit_port_records(vs.take(k), id) + visit_port_record(vs[k], id) =~= lp + (pp + vp));

    let lc = lines_corner_records(ls.take(l));
    let pc = paths_corner_records(ps.take(p), id);
    let vc = visit_corner_records(vs.take(k), id) + visit_corner_record(vs[k], id);
    lemma_prefix_after(pc, vc, visit_corner_records(vs, id));
    lemma_prefix_trans(pc + vc, paths_corner_records(ps.take(p + 1), id), paths_corner_records(ps, id));
    lemma_prefix_after(lc, pc + vc, paths_corner_records(ps, id));
    lemma_prefix_trans(lc + (pc + vc), lines_corner_records(ls.take(l + 1)), lines_corner_records(ls));
    assert(lc + pc + visit_corner_records(vs.take(k), id) + visit_corner_record(vs[k], id) =~= lc + (pc + vc));
}

/// A port whose visits, in order, open records where no port is shared
/// belongs to no other line than the one visiting it next.
proof fn lemma_port_unowned_elsewhere(ports: Seq<PortRecord>, rec: PortRecord, all: Seq<PortRecord>)
    requires
        prefix_of(ports.push(rec), all),
        ports_unshared(all),
    ensures
        port_owner(ports, rec.station, rec.port) is Some ==> port_owner(ports, rec.station, rec.port)->0 == rec.line,
{
    lemma_port_owner(ports, rec.station, rec.port);
    if port_owner(ports, rec.station, rec.port) is Some {
        let y = choose|y: int| 0 <= y < ports.len() && (#[trigger] ports[y]).station == rec.station && ports[y].port == rec.port
            && port_owner(ports, rec.station, rec.port) == Some(ports[y].line);
        let n = ports.len() as int;
        assert(all[y] == ports.push(rec)[y]);
        assert(all[n] == ports.push(rec)[n]);
        assert(all[y].station == all[n].station && all[y].port == all[n].port);
    }
}

/// Likewise for a corner.
proof fn lemma_corner_unowned_elsewhere(corners: Seq<CornerRecord>, rec: CornerRecord, all: Seq<CornerRecord>)
    requires
        prefix_of(corners.push(rec), all),
        corners_unshared(all),
    ensures
        corner_owner(corners, rec.corner) is Some ==> corner_owner(corners, rec.corner)->0 == rec.line,
{
    lemma_corner_owner(corners, rec.corner);
    if corner_owner(corners, rec.corner) is Some {
        let y = choose|y: int| 0 <= y < corners.len() && (#[trigger] corners[y]).corner == rec.corner
            && corner_owner(corners, rec.corner) == Some(corners[y].line);
        let n = corners.len() as int;
        assert(all[y] == corners.push(rec)[y]);
        assert(all[n] == corners.push(rec)[n]);
        assert(all[y].corner == all[n].corner);
    }
}


/// Visit `v` stops at station `id`.
spec fn stops_at_station(v: SchematicRouteVisit, id: Seq<char>) -> bool {
    match v {
        SchematicRouteVisit::Station { station_id, .. } => station_id@ == id,
        SchematicRouteVisit::Corner { .. } => false,
    }
}

/// Visit `v` passes corner `id`.
spec fn passes_corner(v: SchematicRouteVisit, id: Seq<char>) -> bool {
    match v {
        SchematicRouteVisit::Corner { corner_id } => corner_id@ == id,
        SchematicRouteVisit::Station { .. } => false,
    }
}

proof fn lemma_visit_ids_come_from(vs: Seq<SchematicRouteVisit>, k: int, id: Seq<char>)
    requires
        0 <= k <= vs.len(),
    ensures
        visit_station_ids(vs.take(k)).contains(id) ==> exists|i: int|
            0 <= i < k && stops_at_station(#[trigger] vs[i], id),
        visit_corner_ids(vs.take(k)).contains(id) ==> exists|i: int|
            0 <= i < k && passes_corner(#[trigger] vs[i], id),
    decreases k,
{
    if k == 0 {
        assert(vs.take(0) =~= Seq::<SchematicRouteVisit>::empty());
    } else {
        lemma_visit_ids_come_from(vs, k - 1, id);
        assert(vs.take(k).drop_last() =~= vs.take(k - 1));
        assert(vs.take(k).last() == vs[k - 1]);
        let a = visit_station_ids(vs.take(k - 1));
        let b = visit_corner_ids(vs.take(k - 1));
        match vs[k - 1] {
            SchematicRouteVisit::Station { station_id, .. } => {
                if visit_station_ids(vs.take(k)).contains(id) && station_id@ != id {
                    let x = choose|x: int| 0 <= x < a.push(station_id@).len() && a.push(station_id@)[x] == id;
                    assert(a[x] == id);
                }
            },
            SchematicRouteVisit::Corner { corner_id } => {
                if visit_corner_ids(vs.take(k)).contains(id) && corner_id@ != id {
                    let x = choose|x: int| 0 <= x < b.push(corner_id@).len() && b.push(corner_id@)[x] == id;
                    assert(b[x] == id);
                }
            },
        }
    }
}

/// The visits of a well-formed path of a well-formed schematic pass the
/// line pass, from the ledger it holds when it reaches the path.
proof fn lemma_visits_accepted(m: SchematicManifest, g: SchematicGeometry, l: int, p: int, lines: Seq<Seq<char>>, k: int)
    requires
        0 <= l < m.lines@.len(),
        0 <= p < m.lines@[l].paths@.len(),
        0 <= k <= m.lines@[l].paths@[p].visits@.len(),
        path_well_formed(m, m.lines@[l].paths@[p]),
        anchors_finite(m.lines@[l].paths@[p], g.paths@[l]@[p]),
        ports_unshared(lines_port_records(m.lines@)),
        corners_unshared(lines_corner_records(m.lines@)),
    ensures
        ({
            let line = m.lines@[l];
            let start = VisitState {
                ledger: Ledger {
                    lines,
                    ports: lines_port_records(m.lines@.take(l)) + paths_port_records(line.paths@.take(p), line.id@),
                    corners: lines_corner_records(m.lines@.take(l)) + paths_corner_records(line.paths@.take(p), line.id@),
                },
                stations: Seq::empty(),
                corners: Seq::empty(),
                index: 0,
            };
            fold_state(
                line.paths@[p].visits@.take(k),
                start,
                visit_step(m.stations@, schematic_corner_ids(m.corners@), line.id@, p + 1, g.paths@[l]@[p].anchors_in_range@),
            ) is Ok
        }),
    decreases k,
{
    let line = m.lines@[l];
    let id = line.id@;
    let path = line.paths@[p];
    let vs = path.visits@;
    let corners = schematic_corner_ids(m.corners@);
    let in_range = g.paths@[l]@[p].anchors_in_range@;
    let start = VisitState {
        ledger: Ledger {
            lines,
            ports: lines_port_records(m.lines@.take(l)) + paths_port_records(line.paths@.take(p), id),
            corners: lines_corner_records(m.lines@.take(l)) + paths_corner_records(line.paths@.take(p), id),
        },
        stations: Seq::empty(),
        corners: Seq::empty(),
        index: 0,
    };
    let f = visit_step(m.stations@, corners, id, p + 1, in_range);
    if k == 0 {
        assert(vs.take(0) =~= Seq::<SchematicRouteVisit>::empty());
    } else {
        let j = k - 1;
        lemma_visits_accepted(m, g, l, p, lines, j);
        lemma_fold_step(vs, start, f, j);
        lemma_visit_states(m.stations@, corners, id, p + 1, in_range, vs, start, j);
        lemma_visits_keep_lines(m.stations@, corners, id, p + 1, in_range, vs.take(j), start);
        let st = fold_state(vs.take(j), start, f)->Ok_0;
        lemma_visit_records_open_all(m.lines@, l, p, j);
        assert(visit_resolves(m, vs[j]));
        match vs[j] {
            SchematicRouteVisit::Station { station_id, port } => {
                let rec = PortRecord { station: station_id@, port, line: id };
                assert(st.ledger.ports.push(rec) =~= start.ledger.ports + visit_port_records(vs.take(j), id) + visit_port_record(vs[j], id));
                lemma_port_unowned_elsewhere(st.ledger.ports, rec, lines_port_records(m.lines@));
                lemma_visit_ids_come_from(vs, j, station_id@);
                if st.stations.contains(station_id@) {
                    let i = choose|i: int|
                        0 <= i < j && stops_at_station(#[trigger] vs[i], station_id@);
                    assert(visits_differ(vs[i], vs[j]));
                }
                assert(in_range[j]);
            },
            SchematicRouteVisit::Corner { corner_id } => {
                let rec = CornerRecord { corner: corner_id@, line: id };
                assert(st.ledger.corners.push(rec) =~= start.ledger.corners + visit_corner_records(vs.take(j), id) + visit_corner_record(vs[j], id));
                lemma_corner_unowned_elsewhere(st.ledger.corners, rec, lines_corner_records(m.lines@));
                lemma_visit_ids_come_from(vs, j, corner_id@);
                if st.corners.contains(corner_id@) {
                    let i = choose|i: int|
                        0 <= i < j && passes_corner(#[trigger] vs[i], corner_id@);
                    assert(visits_differ(vs[i], vs[j]));
                }
            },
        }
    }
}


proof fn lemma_legs_accepted(legs: Seq<LegFinding>, line: Seq<char>, path: int)
    requires
        forall|k: int| 0 <= k < legs.len() ==> (#[trigger] legs[k]) is Along,
    ensures
        fold_state(legs, (), leg_step(line, path)) is Ok,
    decreases legs.len(),
{
    if legs.len() > 0 {
        let d = legs.drop_last();
        assert forall|k: int| 0 <= k < d.len() implies (#[trigger] d[k]) is Along by {
            assert(d[k] == legs[k]);
        }
        lemma_legs_accepted(d, line, path);
        assert(legs[legs.len() - 1] is Along);
    }
}

proof fn lemma_radii_accepted(overlaps: Seq<bool>, line: Seq<char>, path: int)
    requires
        forall|k: int| 0 <= k < overlaps.len() ==> !(#[trigger] overlaps[k]),
    ensures
        fold_state(overlaps, (), radii_step(line, path)) is Ok,
    decreases overlaps.len(),
{
    if overlaps.len() > 0 {
        let d = overlaps.drop_last();
        assert forall|k: int| 0 <= k < d.len() implies !(#[trigger] d[k]) by {
            assert(d[k] == overlaps[k]);
        }
        lemma_radii_accepted(d, line, path);
        assert(!overlaps[overlaps.len() - 1]);
    }
}

proof fn lemma_points_accepted(
    m: SchematicManifest,
    line: Seq<char>,
    path: int,
    closed: bool,
    g: PathGeometry,
    vs: Seq<SchematicRouteVisit>,
)
    requires
        forall|k: int| 0 <= k < vs.len() ==> point_well_formed(m, closed, g, k, #[trigger] vs[k]),
    ensures
        fold_state(vs, 0int, point_step(m.stations@, line, path, closed, g)) == Ok::<int, SchematicFault>(vs.len() as int),
    decreases vs.len(),
{
    if vs.len() > 0 {
        let d = vs.drop_last();
        assert forall|k: int| 0 <= k < d.len() implies point_well_formed(m, closed, g, k, #[trigger] d[k]) by {
            assert(d[k] == vs[k]);
        }
        lemma_points_accepted(m, line, path, closed, g, d);
        let k = d.len() as int;
        assert(vs[k] == vs.last());
        assert(point_well_formed(m, closed, g, k, vs[k]));
    }
}

/// The geometry of a path whose legs and points are well formed passes the
/// path's checks.
proof fn lemma_path_verdict_accepted(m: SchematicManifest, line: Seq<char>, number: int, p: SchematicPath, g: PathGeometry)
    requires
        legs_well_formed(g),
        points_well_formed(m, p, g),
    ensures
        path_verdict(m.stations@, line, number, p.visits@, p.closed, g) is Ok,
{
    lemma_legs_accepted(g.legs@, line, number);
    lemma_radii_accepted(g.radii_overlap@, line, number);
    lemma_points_accepted(m, line, number, p.closed, g, p.visits@);
}


/// What the line pass needs of a schematic to accept all its lines.
pub open spec fn lines_well_formed(m: SchematicManifest, g: SchematicGeometry) -> bool {
    &&& ids_well_formed(schematic_line_ids(m.lines@))
    &&& forall|l: int| 0 <= l < m.lines@.len() ==> names_well_formed((#[trigger] m.lines@[l]).names@)
    &&& forall|l: int, p: int| 0 <= l < m.lines@.len() && 0 <= p < m.lines@[l].paths@.len()
        ==> path_well_formed(m, #[trigger] m.lines@[l].paths@[p])
    &&& forall|l: int, p: int| 0 <= l < m.lines@.len() && 0 <= p < m.lines@[l].paths@.len()
        ==> legs_well_formed(#[trigger] g.paths@[l]@[p])
    &&& forall|l: int, p: int| 0 <= l < m.lines@.len() && 0 <= p < m.lines@[l].paths@.len()
        ==> points_well_formed(m, #[trigger] m.lines@[l].paths@[p], g.paths@[l]@[p])
    &&& forall|l: int, p: int| 0 <= l < m.lines@.len() && 0 <= p < m.lines@[l].paths@.len()
        ==> anchors_finite(#[trigger] m.lines@[l].paths@[p], g.paths@[l]@[p])
    &&& ports_unshared(lines_port_records(m.lines@))
    &&& corners_unshared(lines_corner_records(m.lines@))
}

proof fn lemma_paths_accepted(m: SchematicManifest, g: SchematicGeometry, l: int, lines: Seq<Seq<char>>, p: int)
    requires
        lines_well_formed(m, g),
        0 <= l < m.lines@.len(),
        0 <= p <= m.lines@[l].paths@.len(),
    ensures
        fold_state(
            m.lines@[l].paths@.take(p),
            (Ledger { lines, ports: lines_port_records(m.lines@.take(l)), corners: lines_corner_records(m.lines@.take(l)) }, 0int),
            path_step(m.stations@, schematic_corner_ids(m.corners@), m.lines@[l].id@, g.paths@[l]@),
        ) is Ok,
    decreases p,
{
    let line = m.lines@[l];
    let id = line.id@;
    let ps = line.paths@;
    let corners = schematic_corner_ids(m.corners@);
    let geometry = g.paths@[l]@;
    let led = Ledger { lines, ports: lines_port_records(m.lines@.take(l)), corners: lines_corner_records(m.lines@.take(l)) };
    let f = path_step(m.stations@, corners, id, geometry);
    if p == 0 {
        assert(ps.take(0) =~= Seq::<SchematicPath>::empty());
    } else {
        let q = p - 1;
        lemma_paths_accepted(m, g, l, lines, q);
        lemma_fold_step(ps, (led, 0int), f, q);
        lemma_paths_keep_lines(m.stations@, corners, id, geometry, ps.take(q), led, 0);
        let st = fold_state(ps.take(q), (led, 0int), f)->Ok_0;
        assert(st.1 == q);
        let path = ps[q];
        assert(path_well_formed(m, ps[q]));
        assert(legs_well_formed(g.paths@[l]@[q]));
        assert(points_well_formed(m, ps[q], g.paths@[l]@[q]));
        assert(anchors_finite(ps[q], g.paths@[l]@[q]));
        lemma_visits_accepted(m, g, l, q, lines, path.visits@.len() as int);
        assert(path.visits@.take(path.visits@.len() as int) =~= path.visits@);
        let start = VisitState {
            ledger: Ledger {
                lines,
                ports: lines_port_records(m.lines@.take(l)) + paths_port_records(ps.take(q), id),
                corners: lines_corner_records(m.lines@.take(l)) + paths_corner_records(ps.take(q), id),
            },
            stations: Seq::empty(),
            corners: Seq::empty(),
            index: 0,
        };
        assert(st.0 == start.ledger);
        lemma_path_verdict_accepted(m, id, q + 1, path, geometry[q]);
    }
}

proof fn lemma_lines_accepted(m: SchematicManifest, g: SchematicGeometry, l: int)
    requires
        lines_well_formed(m, g),
        0 <= l <= m.lines@.len(),
    ensures
        fold_state(m.lines@.take(l), empty_ledger(), line_step(m.stations@, schematic_corner_ids(m.corners@), g.paths@)) is Ok,
    decreases l,
{
    let f = line_step(m.stations@, schematic_corner_ids(m.corners@), g.paths@);
    if l == 0 {
        assert(m.lines@.take(0) =~= Seq::<SchematicLine>::empty());
    } else {
        let k = l - 1;
        lemma_lines_accepted(m, g, k);
        lemma_fold_step(m.lines@, empty_ledger(), f, k);
        lemma_line_states(m, g, k);
        let led = fold_state(m.lines@.take(k), empty_ledger(), f)->Ok_0;
        let line = m.lines@[k];
        let ids = schematic_line_ids(m.lines@);
        let seen = schematic_line_ids(m.lines@.take(k));
        assert(ids[k] == line.id@);
        assert(!is_blank_spec(ids[k]));
        assert(!seen.contains(line.id@)) by {
            if seen.contains(line.id@) {
                let j = choose|j: int| 0 <= j < seen.len() && seen[j] == line.id@;
                assert(seen[j] == ids[j]);
            }
        }
        assert(names_well_formed(m.lines@[k].names@));
        lemma_names_verdict_exact("line"@, line.id@, line.names@);
        assert(led.lines.len() == k);
        lemma_paths_accepted(m, g, k, led.lines, line.paths@.len() as int);
        assert(line.paths@.take(line.paths@.len() as int) =~= line.paths@);
        assert(led == Ledger { lines: led.lines, ports: lines_port_records(m.lines@.take(k)), corners: lines_corner_records(m.lines@.take(k)) });
    }
}


proof fn lemma_corner_references_accepted(cs: Seq<SchematicCorner>, visits: Seq<CornerRecord>)
    requires
        forall|c: int| 0 <= c < cs.len() ==> corner_owner(visits, (#[trigger] cs[c]).id@) is Some,
    ensures
        fold_state(cs, (), corner_reference_step(visits)) is Ok,
    decreases cs.len(),
{
    if cs.len() > 0 {
        let d = cs.drop_last();
        assert forall|c: int| 0 <= c < d.len() implies corner_owner(visits, (#[trigger] d[c]).id@) is Some by {
            assert(d[c] == cs[c]);
        }
        lemma_corner_references_accepted(d, visits);
        assert(cs[cs.len() - 1] == cs.last());
    }
}

proof fn lemma_perpendiculars_accepted(s: Seq<SchematicStation>, ports: Seq<PortRecord>)
    requires
        forall|i: int| 0 <= i < s.len() ==> perpendiculars_complete(ports, #[trigger] s[i]),
    ensures
        fold_state(s, (), perpendicular_step(ports)) is Ok,
    decreases s.len(),
{
    if s.len() > 0 {
        let d = s.drop_last();
        assert forall|i: int| 0 <= i < d.len() implies perpendiculars_complete(ports, #[trigger] d[i]) by {
            assert(d[i] == s[i]);
        }
        lemma_perpendiculars_accepted(d, ports);
        assert(s[s.len() - 1] == s.last());
        assert(perpendiculars_complete(ports, s.last()));
    }
}

proof fn lemma_symbols_accepted(line_width: u64, lengths: Seq<bool>, s: Seq<SchematicStation>)
    requires
        forall|i: int| 0 <= i < s.len() ==> anchors_spaced(#[trigger] s[i], line_width),
        forall|i: int| 0 <= i < s.len() && (#[trigger] s[i]).symbol is Capsule ==> lengths[i],
    ensures
        fold_state(s, 0int, symbol_step(line_width, lengths)) == Ok::<int, SchematicFault>(s.len() as int),
    decreases s.len(),
{
    if s.len() > 0 {
        let d = s.drop_last();
        assert forall|i: int| 0 <= i < d.len() implies anchors_spaced(#[trigger] d[i], line_width) by {
            assert(d[i] == s[i]);
        }
        assert forall|i: int| 0 <= i < d.len() && (#[trigger] d[i]).symbol is Capsule implies lengths[i] by {
            assert(d[i] == s[i]);
        }
        lemma_symbols_accepted(line_width, lengths, d);
        let k = d.len() as int;
        assert(s[k] == s.last());
        assert(anchors_spaced(s[k], line_width));
    }
}

/// A schematic is well formed, as its validation documents: station, corner
/// and line ids non-blank and unique; every list of localized names with
/// non-blank locales and canonical names; every path long enough, an open
/// one beginning and ending at stations, its visits resolving and none
/// repeated; every leg octilinear, every station port kept to its axis with
/// the path running straight through it, every corner rounding fitting and
/// no two meeting; anchors spaced at least a line width apart; every corner
/// visited and no port or corner shared by two lines; every capsule reached
/// once at each perpendicular port; every point and capsule length finite;
/// no two legs overlapping; and the drawing's extent finite.
pub open spec fn schematic_well_formed(m: SchematicManifest, g: SchematicGeometry) -> bool {
    &&& ids_well_formed(schematic_station_ids(m.stations@))
    &&& forall|i: int| 0 <= i < m.stations@.len() ==> names_well_formed((#[trigger] m.stations@[i]).names@)
    &&& ids_well_formed(schematic_corner_ids(m.corners@))
    &&& lines_well_formed(m, g)
    &&& forall|i: int| 0 <= i < m.stations@.len() ==> anchors_spaced(#[trigger] m.stations@[i], m.options.lines.width.bits())
    &&& forall|i: int| 0 <= i < m.stations@.len() && (#[trigger] m.stations@[i]).symbol is Capsule ==> g.capsule_lengths_in_range@[i]
    &&& forall|c: int| 0 <= c < m.corners@.len() ==> corner_owner(lines_corner_records(m.lines@), (#[trigger] m.corners@[c]).id@) is Some
    &&& forall|i: int| 0 <= i < m.stations@.len() ==> perpendiculars_complete(lines_port_records(m.lines@), #[trigger] m.stations@[i])
    &&& !g.legs_overlap
    &&& g.bounds_in_range
}

/// Validation accepts a schematic exactly when it is well formed: every
/// well-formed schematic passes, whatever its names hold beyond their
/// canonical entries, and every schematic that passes is well formed.
pub proof fn lemma_schematic_verdict_exact(m: SchematicManifest, g: SchematicGeometry)
    ensures
        schematic_verdict(m, g) is Ok <==> schematic_well_formed(m, g),
{
    if schematic_verdict(m, g) is Ok {
        lemma_valid_schematic_is_well_formed(m, g);
    }
    if schematic_well_formed(m, g) {
        lemma_station_pass_exact(m.stations@);
        lemma_corner_pass_exact(m.corners@);
        let n = m.lines@.len() as int;
        lemma_lines_accepted(m, g, n);
        lemma_line_states(m, g, n);
        assert(m.lines@.take(n) =~= m.lines@);
        let led = line_pass(m, g)->Ok_0;
        lemma_corner_references_accepted(m.corners@, led.corners);
        lemma_perpendiculars_accepted(m.stations@, led.ports);
        lemma_symbols_accepted(m.options.lines.width.bits(), g.capsule_lengths_in_range@, m.stations@);
    }
}

} // verus!
