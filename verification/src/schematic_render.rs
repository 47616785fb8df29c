//! SVG rendering of a schematic map.
//!
//! Coordinates use SVG orientation directly: x increases to the right and y
//! increases downwards. Resolving ports, rounding corners, sizing symbols
//! and printing the resulting numbers is binary64 arithmetic, done by the
//! program around the library; it hands the printed numbers over as a
//! [`SchematicLayout`]. Validation, the colours each symbol takes, the
//! rotation of each capsule, escaping and the markup are decided here.

use vstd::prelude::*;

use crate::schematic::{
    axis_direction, parallel, turn_eighth, OctilinearAxis, SchematicLine, SchematicManifest, SchematicPath, SchematicRouteVisit, SchematicStation,
    SchematicStationColor, SchematicStationSymbol,
};
use crate::schematic_validation::{
    decimal, geometry_fits, lemma_valid_schematic_is_well_formed, minimum_station_visits, open_endpoints_ok, path_well_formed,
    schematic_verdict, station_visit_count, validate_schematic, SchematicFault, SchematicGeometry, SchematicRenderError,
};
use crate::text::{compare_text, xml_escape, xml_escape_spec, TextOrder};

verus! {

/// The printed numbers of a circle symbol: its centre, the radius of its
/// fill, the radius of its outline and the outline's width.
pub struct CircleLayout {
    pub cx: String,
    pub cy: String,
    pub r: String,
    pub outline_r: String,
    pub stroke_width: String,
}

/// The printed numbers of one rounded rectangle of a capsule, in the
/// capsule's own frame.
pub struct CapsuleRect {
    pub x: String,
    pub y: String,
    pub width: String,
    pub height: String,
    pub rx: String,
}

/// The printed numbers of a capsule symbol: its centre, its fill, its
/// outline and the outline's width.
pub struct CapsuleLayout {
    pub cx: String,
    pub cy: String,
    pub fill: CapsuleRect,
    pub outline: CapsuleRect,
    pub stroke_width: String,
}

/// The printed numbers of one station symbol.
pub enum SymbolLayout {
    Circle(CircleLayout),
    Capsule(CapsuleLayout),
}

/// The printed numbers of a schematic drawing: the view box (left, top,
/// width, height), the line width, the printed points of every path of
/// every line (one for each visit), and every station's symbol.
pub struct SchematicLayout {
    pub view_box: (String, String, String, String),
    pub line_width: String,
    pub paths: Vec<Vec<Vec<PathPointText>>>,
    pub symbols: Vec<SymbolLayout>,
}

/// `layout` has a printed point for every visit of every path of every line
/// of `m`, with a fillet only where the visit passes a corner, and a symbol
/// of the requested shape for every station.
pub open spec fn layout_fits(m: SchematicManifest, layout: SchematicLayout) -> bool {
    &&& layout.paths@.len() == m.lines@.len()
    &&& forall|l: int| 0 <= l < m.lines@.len() ==> (#[trigger] layout.paths@[l])@.len() == m.lines@[l].paths@.len()
    &&& forall|l: int, p: int| 0 <= l < m.lines@.len() && 0 <= p < m.lines@[l].paths@.len()
        ==> points_fit(m.lines@[l].paths@[p], (#[trigger] layout.paths@[l]@[p])@)
    &&& layout.symbols@.len() == m.stations@.len()
    &&& forall|i: int| 0 <= i < m.stations@.len()
        ==> ((#[trigger] layout.symbols@[i]) is Circle <==> m.stations@[i].symbol is Circle)
}

/// `pts` has one printed point for each visit of `path`, with a fillet only
/// where the visit passes a corner.
pub open spec fn points_fit(path: SchematicPath, pts: Seq<PathPointText>) -> bool {
    &&& pts.len() == path.visits@.len()
    &&& forall|k: int| 0 <= k < pts.len() && (#[trigger] pts[k]).corner is Some ==> path.visits@[k] is Corner
}

/// The station a visit stops at, if it stops at one.
pub open spec fn visited_station(v: SchematicRouteVisit) -> Option<Seq<char>> {
    match v {
        SchematicRouteVisit::Station { station_id, .. } => Some(station_id@),
        SchematicRouteVisit::Corner { .. } => None,
    }
}

/// Whether some path of `line` stops at station `id`.
pub open spec fn line_visits(line: SchematicLine, id: Seq<char>) -> bool {
    exists|p: int, v: int|
        0 <= p < line.paths@.len() && 0 <= v < line.paths@[p].visits@.len()
            && #[trigger] visited_station(line.paths@[p].visits@[v]) == Some(id)
}

/// The colour of the first line that stops at station `id`, if any does.
pub open spec fn first_line_color(lines: Seq<SchematicLine>, id: Seq<char>) -> Option<Seq<char>>
    decreases lines.len(),
{
    if lines.len() == 0 {
        None
    } else if line_visits(lines[0], id) {
        Some(lines[0].color@)
    } else {
        first_line_color(lines.drop_first(), id)
    }
}

/// The colour a common station takes under `c`: the unified value, or the
/// colour of the first line that stops at it, or `currentColor` when none
/// does.
pub open spec fn station_color(c: SchematicStationColor, lines: Seq<SchematicLine>, id: Seq<char>) -> Seq<char> {
    match c {
        SchematicStationColor::Unified { value } => value@,
        SchematicStationColor::FollowLine {} => match first_line_color(lines, id) {
            Some(color) => color,
            None => "currentColor"@,
        },
    }
}

/// The rotation, in degrees, that lays a capsule along `axis`.
pub open spec fn axis_angle(axis: OctilinearAxis) -> Seq<char> {
    match axis {
        OctilinearAxis::Horizontal => "0"@,
        OctilinearAxis::FallingDiagonal => "45"@,
        OctilinearAxis::Vertical => "90"@,
        OctilinearAxis::RisingDiagonal => "-45"@,
    }
}

/// The opening of the document for view box `v`.
pub open spec fn schematic_header(v: (String, String, String, String)) -> Seq<char> {
    "<svg xmlns=\"http://www.w3.org/2000/svg\" viewBox=\""@ + v.0@ + " "@ + v.1@ + " "@ + v.2@ + " "@ + v.3@
        + "\" width=\""@ + v.2@ + "\" height=\""@ + v.3@ + "\" role=\"img\">\n"@
        + "  <title>Metro schematic map</title>\n"@
        + "  <g fill=\"none\" stroke-linecap=\"round\" stroke-linejoin=\"round\">\n"@
}

/// The element that draws one path of `line` with path data `data`.
pub open spec fn stroke_element(line: SchematicLine, data: Seq<char>, width: Seq<char>) -> Seq<char> {
    "    <path data-line-id=\""@ + xml_escape_spec(line.id@) + "\" d=\""@ + data + "\" stroke=\""@
        + xml_escape_spec(line.color@) + "\" stroke-width=\""@ + width + "\" />\n"@
}

/// The elements that draw the first `k` paths of `line`, through the
/// printed points `data`.
pub open spec fn strokes_text(line: SchematicLine, data: Seq<Vec<PathPointText>>, width: Seq<char>, k: int) -> Seq<char>
    decreases k,
{
    if k <= 0 {
        Seq::empty()
    } else {
        strokes_text(line, data, width, k - 1) + stroke_element(line, path_data_spec(data[k - 1]@, line.paths@[k - 1].closed), width)
    }
}

/// The elements that draw the paths of the first `k` lines.
pub open spec fn lines_text(lines: Seq<SchematicLine>, data: Seq<Vec<Vec<PathPointText>>>, width: Seq<char>, k: int) -> Seq<char>
    decreases k,
{
    if k <= 0 {
        Seq::empty()
    } else {
        lines_text(lines, data, width, k - 1) + strokes_text(lines[k - 1], data[k - 1]@, width, data[k - 1]@.len() as int)
    }
}

/// A circle with fill `fill`.
pub open spec fn circle_fill_element(c: CircleLayout, fill: Seq<char>) -> Seq<char> {
    "      <circle cx=\""@ + c.cx@ + "\" cy=\""@ + c.cy@ + "\" r=\""@ + c.r@ + "\" fill=\""@ + xml_escape_spec(fill)
        + "\" />\n"@
}

/// The outline of a circle, stroked with `stroke`.
pub open spec fn circle_outline_element(c: CircleLayout, stroke: Seq<char>) -> Seq<char> {
    "      <circle cx=\""@ + c.cx@ + "\" cy=\""@ + c.cy@ + "\" r=\""@ + c.outline_r@ + "\" fill=\"none\" stroke=\""@
        + xml_escape_spec(stroke) + "\" stroke-width=\""@ + c.stroke_width@ + "\" />\n"@
}

/// One rounded rectangle of a capsule centred at (`cx`, `cy`) along `axis`,
/// filled with `fill` and with the stroke attributes `stroke`.
pub open spec fn rect_element(r: CapsuleRect, cx: Seq<char>, cy: Seq<char>, axis: OctilinearAxis, fill: Seq<char>, stroke: Seq<char>) -> Seq<char> {
    "      <rect x=\""@ + r.x@ + "\" y=\""@ + r.y@ + "\" width=\""@ + r.width@ + "\" height=\""@ + r.height@ + "\" rx=\""@
        + r.rx@ + "\" fill=\""@ + xml_escape_spec(fill) + "\""@ + stroke + " transform=\"translate("@ + cx + " "@ + cy
        + ") rotate("@ + axis_angle(axis) + ")\" />\n"@
}

/// The stroke attributes of a capsule's outline.
pub open spec fn outline_attributes(stroke: Seq<char>, width: Seq<char>) -> Seq<char> {
    " stroke=\""@ + xml_escape_spec(stroke) + "\" stroke-width=\""@ + width + "\""@
}

/// The shapes that draw a station's symbol.
pub open spec fn symbol_shapes(m: SchematicManifest, st: SchematicStation, s: SymbolLayout) -> Seq<char> {
    match s {
        SymbolLayout::Circle(c) => {
            let common = m.options.stations.common;
            circle_fill_element(c, station_color(common.fill.color, m.lines@, st.id@))
                + circle_outline_element(c, station_color(common.stroke.color, m.lines@, st.id@))
        },
        SymbolLayout::Capsule(c) => {
            let axis = match st.symbol {
                SchematicStationSymbol::Capsule { axis, .. } => axis,
                SchematicStationSymbol::Circle {} => OctilinearAxis::Horizontal,
            };
            let interchange = m.options.stations.interchange;
            rect_element(c.fill, c.cx@, c.cy@, axis, interchange.fill.color@, Seq::empty())
                + rect_element(c.outline, c.cx@, c.cy@, axis, "none"@,
                outline_attributes(interchange.stroke.color@, c.stroke_width@))
        },
    }
}

/// The group that draws a station's symbol.
pub open spec fn symbol_group(m: SchematicManifest, st: SchematicStation, s: SymbolLayout) -> Seq<char> {
    "    <g data-station-id=\""@ + xml_escape_spec(st.id@) + "\">\n"@ + symbol_shapes(m, st, s) + "    </g>\n"@
}

/// The groups that draw the first `k` stations.
pub open spec fn symbols_text(m: SchematicManifest, symbols: Seq<SymbolLayout>, k: int) -> Seq<char>
    decreases k,
{
    if k <= 0 {
        Seq::empty()
    } else {
        symbols_text(m, symbols, k - 1) + symbol_group(m, m.stations@[k - 1], symbols[k - 1])
    }
}

/// The SVG document for `m` laid out by `layout`, or the first invariant
/// that `m` breaks given the geometric findings `g`: every path of every
/// line in order, then every station's symbol.
pub open spec fn schematic_svg_spec(m: SchematicManifest, g: SchematicGeometry, layout: SchematicLayout) -> Result<Seq<char>, SchematicFault> {
    match schematic_verdict(m, g) {
        Err(e) => Err(e),
        Ok(_) => Ok(schematic_header(layout.view_box) + lines_text(m.lines@, layout.paths@, layout.line_width@, m.lines@.len() as int)
            + "  </g>\n"@ + "  <g>\n"@ + symbols_text(m, layout.symbols@, m.stations@.len() as int) + "  </g>\n"@ + "</svg>\n"@),
    }
}

/// The printed fillet of a corner: where the rounding leaves the incoming
/// leg and meets the outgoing one, its radius, and which way it turns.
pub struct CornerText {
    pub entry_x: String,
    pub entry_y: String,
    pub radius: String,
    pub sweep: bool,
    pub exit_x: String,
    pub exit_y: String,
}

/// One printed point of a path: where it stands, and for a corner its
/// fillet.
pub struct PathPointText {
    pub x: String,
    pub y: String,
    pub corner: Option<CornerText>,
}

/// The command that reaches point `p`: a line to an anchor, or a line to
/// where a corner's rounding begins and the arc around it.
pub open spec fn point_command(p: PathPointText) -> Seq<char> {
    match p.corner {
        Some(c) => " L"@ + c.entry_x@ + " "@ + c.entry_y@ + " A"@ + c.radius@ + " "@ + c.radius@ + " 0 0 "@
            + (if c.sweep { "1"@ } else { "0"@ }) + " "@ + c.exit_x@ + " "@ + c.exit_y@,
        None => " L"@ + p.x@ + " "@ + p.y@,
    }
}

/// The commands that reach points `1..k` of `pts`, in order.
pub open spec fn commands(pts: Seq<PathPointText>, k: int) -> Seq<char>
    decreases k,
{
    if k <= 1 {
        Seq::empty()
    } else {
        commands(pts, k - 1) + point_command(pts[k - 1])
    }
}

/// Where a closed path starts: past the rounding of its first point when
/// that is a corner, else at the point.
pub open spec fn closed_start(p: PathPointText) -> Seq<char> {
    match p.corner {
        Some(c) => c.exit_x@ + " "@ + c.exit_y@,
        None => p.x@ + " "@ + p.y@,
    }
}

/// The SVG path data of a path through `pts`: an open path moves to its
/// first point and reaches each later one; a closed path starts past its
/// first rounding, reaches every later point and the first again, and
/// closes.
pub open spec fn path_data_spec(pts: Seq<PathPointText>, closed: bool) -> Seq<char> {
    if closed {
        "M"@ + closed_start(pts[0]) + commands(pts, pts.len() as int) + point_command(pts[0]) + " Z"@
    } else {
        "M"@ + pts[0].x@ + " "@ + pts[0].y@ + commands(pts, pts.len() as int)
    }
}

/// The commands that reach the first `k` points do not look past them.
proof fn lemma_commands_prefix(pts: Seq<PathPointText>, q: PathPointText, k: int)
    requires
        k <= pts.len(),
    ensures
        commands(pts.push(q), k) == commands(pts, k),
    decreases k,
{
    if k > 1 {
        lemma_commands_prefix(pts, q, k - 1);
        assert(pts.push(q)[k - 1] == pts[k - 1]);
    }
}

/// An open path moves to its first point: alone, that point is its whole
/// path data.
pub proof fn lemma_open_path_data_starts_with_move(p: PathPointText)
    ensures
        path_data_spec(seq![p], false) == "M"@ + p.x@ + " "@ + p.y@,
{
    assert(seq![p][0] == p);
    assert("M"@ + p.x@ + " "@ + p.y@ + Seq::<char>::empty() =~= "M"@ + p.x@ + " "@ + p.y@);
}

/// Extending an open path by an anchor appends a line-to that anchor, and
/// leaves the data before it as it was.
pub proof fn lemma_open_path_data_appends_line(pts: Seq<PathPointText>, q: PathPointText)
    requires
        pts.len() > 0,
        q.corner is None,
    ensures
        path_data_spec(pts.push(q), false) == path_data_spec(pts, false) + " L"@ + q.x@ + " "@ + q.y@,
{
    let n = pts.len() as int;
    lemma_commands_prefix(pts, q, n);
    assert(pts.push(q)[0] == pts[0]);
    assert(pts.push(q)[n] == q);
    let head = "M"@ + pts[0].x@ + " "@ + pts[0].y@;
    assert(head + (commands(pts, n) + point_command(q)) =~= head + commands(pts, n) + " L"@ + q.x@ + " "@ + q.y@);
}

/// Extending an open path by a corner appends a line-to where its rounding
/// begins and the arc, of the corner's radius and turn, to where it ends.
pub proof fn lemma_open_path_data_appends_fillet(pts: Seq<PathPointText>, q: PathPointText, c: CornerText)
    requires
        pts.len() > 0,
        q.corner == Some(c),
    ensures
        path_data_spec(pts.push(q), false) == path_data_spec(pts, false) + " L"@ + c.entry_x@ + " "@ + c.entry_y@ + " A"@
            + c.radius@ + " "@ + c.radius@ + " 0 0 "@ + (if c.sweep { "1"@ } else { "0"@ }) + " "@ + c.exit_x@ + " "@ + c.exit_y@,
{
    let n = pts.len() as int;
    lemma_commands_prefix(pts, q, n);
    assert(pts.push(q)[0] == pts[0]);
    assert(pts.push(q)[n] == q);
    let head = "M"@ + pts[0].x@ + " "@ + pts[0].y@;
    assert(head + (commands(pts, n) + point_command(q)) =~= head + commands(pts, n) + point_command(q));
}

/// A closed path draws what the open path through the same points draws
/// after its first point, then comes back to that point and closes; it
/// starts past the rounding of its first point.
pub proof fn lemma_closed_path_data_returns(pts: Seq<PathPointText>)
    requires
        pts.len() > 0,
    ensures
        path_data_spec(pts, true) == "M"@ + closed_start(pts[0])
            + path_data_spec(pts, false).skip(("M"@ + pts[0].x@ + " "@ + pts[0].y@).len() as int) + point_command(pts[0]) + " Z"@,
{
    let head = "M"@ + pts[0].x@ + " "@ + pts[0].y@;
    let cmds = commands(pts, pts.len() as int);
    assert((head + cmds).skip(head.len() as int) =~= cmds);
}

fn push_command(data: &mut String, p: &PathPointText)
    ensures
        final(data)@ == old(data)@ + point_command(*p),
{
    let ghost before = data@;
    match &p.corner {
        Some(c) => {
            data.append(" L");
            data.append(c.entry_x.as_str());
            data.append(" ");
            data.append(c.entry_y.as_str());
            data.append(" A");
            data.append(c.radius.as_str());
            data.append(" ");
            data.append(c.radius.as_str());
            data.append(" 0 0 ");
            if c.sweep {
                data.append("1");
            } else {
                data.append("0");
            }
            data.append(" ");
            data.append(c.exit_x.as_str());
            data.append(" ");
            data.append(c.exit_y.as_str());
        },
        None => {
            data.append(" L");
            data.append(p.x.as_str());
            data.append(" ");
            data.append(p.y.as_str());
        },
    }
    proof {
        assert(data@ =~= before + point_command(*p));
    }
}

/// The SVG path data of a path through the printed points `points`.
///
/// A path has at least one point, and an open path of more than one point
/// does not end at a corner: a corner's rounding needs a leg on each side.
pub fn schematic_path_data(points: &Vec<PathPointText>, closed: bool) -> (res: String)
    requires
        points@.len() >= 1,
        closed && points@[0].corner is Some ==> points@.len() >= 2,
        !closed && points@.len() >= 2 ==> points@.last().corner is None,
    ensures
        res@ == path_data_spec(points@, closed),
{
    let mut data = String::new();
    data.append("M");
    if closed {
        match &points[0].corner {
            Some(c) => {
                data.append(c.exit_x.as_str());
                data.append(" ");
                data.append(c.exit_y.as_str());
            },
            None => {
                data.append(points[0].x.as_str());
                data.append(" ");
                data.append(points[0].y.as_str());
            },
        }
    } else {
        data.append(points[0].x.as_str());
        data.append(" ");
        data.append(points[0].y.as_str());
    }
    let ghost head = data@;
    proof {
        assert(head == "M"@ + (if closed { closed_start(points@[0]) } else { points@[0].x@ + " "@ + points@[0].y@ }));
    }
    let mut i: usize = 1;
    while i < points.len()
        invariant
            1 <= i <= points@.len(),
            data@ == head + commands(points@, i as int),
        decreases points@.len() - i,
    {
        push_command(&mut data, &points[i]);
        proof {
            assert(data@ =~= head + commands(points@, i + 1));
        }
        i = i + 1;
    }
    if closed {
        push_command(&mut data, &points[0]);
        data.append(" Z");
    }
    proof {
        if closed {
            assert(data@ =~= path_data_spec(points@, closed));
        } else {
            assert(data@ =~= path_data_spec(points@, closed));
        }
    }
    data
}

/// Whether some path of `line` stops at station `id`.
fn visits_station(line: &SchematicLine, id: &str) -> (res: bool)
    ensures
        res == line_visits(*line, id@),
{
    let mut p: usize = 0;
    while p < line.paths.len()
        invariant
            p <= line.paths@.len(),
            forall|q: int, v: int| 0 <= q < p && 0 <= v < line.paths@[q].visits@.len()
                ==> #[trigger] visited_station(line.paths@[q].visits@[v]) != Some(id@),
        decreases line.paths@.len() - p,
    {
        let visits = &line.paths[p].visits;
        let mut v: usize = 0;
        while v < visits.len()
            invariant
                p < line.paths@.len(),
                *visits == line.paths@[p as int].visits,
                v <= visits@.len(),
                forall|q: int, w: int| 0 <= q < p && 0 <= w < line.paths@[q].visits@.len()
                    ==> #[trigger] visited_station(line.paths@[q].visits@[w]) != Some(id@),
                forall|w: int| 0 <= w < v ==> #[trigger] visited_station(visits@[w]) != Some(id@),
            decreases visits@.len() - v,
        {
            match &visits[v] {
                SchematicRouteVisit::Station { station_id, .. } => {
                    if compare_text(station_id.as_str(), id) == TextOrder::Equal {
                        proof {
                            assert(visited_station(line.paths@[p as int].visits@[v as int]) == Some(id@));
                        }
                        return true;
                    }
                },
                SchematicRouteVisit::Corner { .. } => {},
            }
            v = v + 1;
        }
        p = p + 1;
    }
    false
}

/// The colour a common station `id` takes under `c`.
fn resolve_color<'a>(c: &'a SchematicStationColor, lines: &'a Vec<SchematicLine>, id: &str) -> (res: &'a str)
    ensures
        res@ == station_color(*c, lines@, id@),
{
    match c {
        SchematicStationColor::Unified { value } => value.as_str(),
        SchematicStationColor::FollowLine {} => {
            let mut l: usize = 0;
            proof {
                assert(lines@.skip(0) =~= lines@);
            }
            while l < lines.len()
                invariant
                    l <= lines@.len(),
                    *c is FollowLine,
                    first_line_color(lines@, id@) == first_line_color(lines@.skip(l as int), id@),
                decreases lines@.len() - l,
            {
                proof {
                    assert(lines@.skip(l as int)[0] == lines@[l as int]);
                    assert(lines@.skip(l as int).drop_first() =~= lines@.skip(l + 1));
                }
                if visits_station(&lines[l], id) {
                    proof {
                        assert(first_line_color(lines@.skip(l as int), id@) == Some(lines@[l as int].color@));
                    }
                    return lines[l].color.as_str();
                }
                l = l + 1;
            }
            proof {
                reveal_strlit("currentColor");
                assert(lines@.skip(l as int) =~= Seq::<SchematicLine>::empty());
            }
            "currentColor"
        },
    }
}

/// The numeral of an integer: a minus sign before the numeral of its
/// magnitude when it is negative.
pub open spec fn signed_decimal(d: int) -> Seq<char> {
    if d < 0 {
        "-"@ + decimal((-d) as nat)
    } else {
        decimal(d as nat)
    }
}

/// The direction, up to length, of the x axis after an SVG `rotate` by `k`
/// eighths of a turn: each eighth turns it clockwise on screen.
pub open spec fn eighths_turned(k: nat) -> (int, int)
    decreases k,
{
    if k == 0 {
        (1, 0)
    } else {
        turn_eighth(eighths_turned((k - 1) as nat))
    }
}

/// The x axis after each whole number of eighth turns up to seven.
proof fn lemma_eighths_turned_values()
    ensures
        eighths_turned(0) == (1int, 0int),
        eighths_turned(1) == (1int, 1int),
        eighths_turned(2) == (0int, 2int),
        eighths_turned(7) == (8int, -8int),
{
    assert(eighths_turned(0) == (1int, 0int));
    assert(eighths_turned(1) == (1int, 1int));
    assert(eighths_turned(2) == (0int, 2int));
    assert(eighths_turned(3) == (-2int, 2int));
    assert(eighths_turned(4) == (-4int, 0int));
    assert(eighths_turned(5) == (-4int, -4int));
    assert(eighths_turned(6) == (0int, -8int));
    assert(eighths_turned(7) == (8int, -8int));
}

/// The numerals of the four rotations a capsule can have.
proof fn lemma_rotation_numerals()
    ensures
        signed_decimal(0) == "0"@,
        signed_decimal(45) == "45"@,
        signed_decimal(90) == "90"@,
        signed_decimal(-45) == "-45"@,
{
    reveal_strlit("0");
    reveal_strlit("45");
    reveal_strlit("90");
    reveal_strlit("-45");
    reveal_strlit("-");
    assert(decimal(0) =~= seq!['0']);
    assert(decimal(4) =~= seq!['4']);
    assert(decimal(9) =~= seq!['9']);
    assert(decimal(45) =~= seq!['4', '5']);
    assert(decimal(90) =~= seq!['9', '0']);
    assert(signed_decimal(0) =~= "0"@);
    assert(signed_decimal(45) =~= "45"@);
    assert(signed_decimal(90) =~= "90"@);
    assert(signed_decimal(-45) =~= "-45"@);
}

/// A capsule is laid along its axis: the printed rotation is a whole number
/// `d` of degrees in (-90, 90], a multiple of 45, and rotating the x axis by
/// `d` degrees gives a direction on the capsule's axis.
pub proof fn lemma_capsule_rotation_follows_axis(axis: OctilinearAxis)
    ensures
        exists|d: int|
            -90 < d <= 90 && d % 45 == 0 && #[trigger] signed_decimal(d) == axis_angle(axis)
                && parallel(eighths_turned(((d / 45) % 8) as nat), axis_direction(axis)),
{
    lemma_eighths_turned_values();
    lemma_rotation_numerals();
    match axis {
        OctilinearAxis::Horizontal => {
            assert(((0int / 45) % 8) as nat == 0);
            assert(signed_decimal(0) == axis_angle(axis));
        },
        OctilinearAxis::FallingDiagonal => {
            assert(((45int / 45) % 8) as nat == 1);
            assert(signed_decimal(45) == axis_angle(axis));
        },
        OctilinearAxis::Vertical => {
            assert(((90int / 45) % 8) as nat == 2);
            assert(signed_decimal(90) == axis_angle(axis));
        },
        OctilinearAxis::RisingDiagonal => {
            assert(((-45int / 45) % 8) as nat == 7);
            assert(signed_decimal(-45) == axis_angle(axis));
        },
    }
}

/// Some path of `line` visits station `id`, at visit `v` of path `p`.
pub open spec fn stops_at(line: SchematicLine, id: Seq<char>, p: int, v: int) -> bool {
    &&& 0 <= p < line.paths@.len()
    &&& 0 <= v < line.paths@[p].visits@.len()
    &&& line.paths@[p].visits@[v] matches SchematicRouteVisit::Station { station_id, .. }
    &&& station_id@ == id
}

proof fn lemma_stops_at_visits(line: SchematicLine, id: Seq<char>)
    ensures
        line_visits(line, id) <==> exists|p: int, v: int| #[trigger] stops_at(line, id, p, v),
{
    if line_visits(line, id) {
        let (p, v) = choose|p: int, v: int|
            0 <= p < line.paths@.len() && 0 <= v < line.paths@[p].visits@.len()
                && #[trigger] visited_station(line.paths@[p].visits@[v]) == Some(id);
        assert(stops_at(line, id, p, v));
    }
    if exists|p: int, v: int| #[trigger] stops_at(line, id, p, v) {
        let (p, v) = choose|p: int, v: int| #[trigger] stops_at(line, id, p, v);
        assert(visited_station(line.paths@[p].visits@[v]) == Some(id));
    }
}

proof fn lemma_first_line_color_at(lines: Seq<SchematicLine>, id: Seq<char>, i: int)
    requires
        0 <= i < lines.len(),
        line_visits(lines[i], id),
        forall|j: int| 0 <= j < i ==> !line_visits(#[trigger] lines[j], id),
    ensures
        first_line_color(lines, id) == Some(lines[i].color@),
    decreases i,
{
    if i > 0 {
        let rest = lines.drop_first();
        assert(!line_visits(lines[0], id));
        assert forall|j: int| 0 <= j < i - 1 implies !line_visits(#[trigger] rest[j], id) by {
            assert(rest[j] == lines[j + 1]);
        }
        assert(rest[i - 1] == lines[i]);
        lemma_first_line_color_at(rest, id, i - 1);
    }
}

proof fn lemma_first_line_color_none(lines: Seq<SchematicLine>, id: Seq<char>)
    requires
        forall|j: int| 0 <= j < lines.len() ==> !line_visits(#[trigger] lines[j], id),
    ensures
        first_line_color(lines, id) is None,
    decreases lines.len(),
{
    if lines.len() > 0 {
        let rest = lines.drop_first();
        assert(!line_visits(lines[0], id));
        assert forall|j: int| 0 <= j < rest.len() implies !line_visits(#[trigger] rest[j], id) by {
            assert(rest[j] == lines[j + 1]);
        }
        lemma_first_line_color_none(rest, id);
    }
}

/// A station coloured after its lines takes the colour of the earliest line,
/// in manifest order, that stops at it.
pub proof fn lemma_station_takes_earliest_line_color(lines: Seq<SchematicLine>, id: Seq<char>, i: int, p: int, v: int)
    requires
        0 <= i < lines.len(),
        stops_at(lines[i], id, p, v),
        forall|j: int, q: int, w: int| 0 <= j < i ==> !#[trigger] stops_at(lines[j], id, q, w),
    ensures
        station_color(SchematicStationColor::FollowLine {}, lines, id) == lines[i].color@,
{
    lemma_stops_at_visits(lines[i], id);
    assert forall|j: int| 0 <= j < i implies !line_visits(#[trigger] lines[j], id) by {
        lemma_stops_at_visits(lines[j], id);
    }
    lemma_first_line_color_at(lines, id, i);
}

/// A station coloured after its lines that no line stops at takes the
/// current colour.
pub proof fn lemma_unvisited_station_takes_current_color(lines: Seq<SchematicLine>, id: Seq<char>)
    requires
        forall|j: int, q: int, w: int| 0 <= j < lines.len() ==> !#[trigger] stops_at(lines[j], id, q, w),
    ensures
        station_color(SchematicStationColor::FollowLine {}, lines, id) == "currentColor"@,
{
    assert forall|j: int| 0 <= j < lines.len() implies !line_visits(#[trigger] lines[j], id) by {
        lemma_stops_at_visits(lines[j], id);
    }
    lemma_first_line_color_none(lines, id);
}

/// A unified colour is the colour of every station, whatever the lines.
pub proof fn lemma_unified_color_everywhere(value: String, lines: Seq<SchematicLine>, id: Seq<char>)
    ensures
        station_color(SchematicStationColor::Unified { value }, lines, id) == value@,
{
}

/// The rotation of a capsule along `axis`.
fn angle_text(axis: OctilinearAxis) -> (res: &'static str)
    ensures
        res@ == axis_angle(axis),
{
    match axis {
        OctilinearAxis::Horizontal => "0",
        OctilinearAxis::FallingDiagonal => "45",
        OctilinearAxis::Vertical => "90",
        OctilinearAxis::RisingDiagonal => "-45",
    }
}

fn push_header(svg: &mut String, v: &(String, String, String, String))
    ensures
        final(svg)@ == old(svg)@ + schematic_header(*v),
{
    let ghost before = svg@;
    svg.append("<svg xmlns=\"http://www.w3.org/2000/svg\" viewBox=\"");
    svg.append(v.0.as_str());
    svg.append(" ");
    svg.append(v.1.as_str());
    svg.append(" ");
    svg.append(v.2.as_str());
    svg.append(" ");
    svg.append(v.3.as_str());
    svg.append("\" width=\"");
    svg.append(v.2.as_str());
    svg.append("\" height=\"");
    svg.append(v.3.as_str());
    svg.append("\" role=\"img\">\n");
    svg.append("  <title>Metro schematic map</title>\n");
    svg.append("  <g fill=\"none\" stroke-linecap=\"round\" stroke-linejoin=\"round\">\n");
    proof {
        assert(svg@ =~= before + schematic_header(*v));
    }
}

fn push_stroke(svg: &mut String, line: &SchematicLine, data: &String, width: &String)
    ensures
        final(svg)@ == old(svg)@ + stroke_element(*line, data@, width@),
{
    let ghost before = svg@;
    let id = xml_escape(line.id.as_str());
    let color = xml_escape(line.color.as_str());
    svg.append("    <path data-line-id=\"");
    svg.append(id.as_str());
    svg.append("\" d=\"");
    svg.append(data.as_str());
    svg.append("\" stroke=\"");
    svg.append(color.as_str());
    svg.append("\" stroke-width=\"");
    svg.append(width.as_str());
    svg.append("\" />\n");
    proof {
        assert(svg@ =~= before + stroke_element(*line, data@, width@));
    }
}

fn push_circle(svg: &mut String, c: &CircleLayout, fill: &str, stroke: &str)
    ensures
        final(svg)@ == old(svg)@ + circle_fill_element(*c, fill@) + circle_outline_element(*c, stroke@),
{
    let ghost before = svg@;
    let fill_text = xml_escape(fill);
    let stroke_text = xml_escape(stroke);
    svg.append("      <circle cx=\"");
    svg.append(c.cx.as_str());
    svg.append("\" cy=\"");
    svg.append(c.cy.as_str());
    svg.append("\" r=\"");
    svg.append(c.r.as_str());
    svg.append("\" fill=\"");
    svg.append(fill_text.as_str());
    svg.append("\" />\n");
    svg.append("      <circle cx=\"");
    svg.append(c.cx.as_str());
    svg.append("\" cy=\"");
    svg.append(c.cy.as_str());
    svg.append("\" r=\"");
    svg.append(c.outline_r.as_str());
    svg.append("\" fill=\"none\" stroke=\"");
    svg.append(stroke_text.as_str());
    svg.append("\" stroke-width=\"");
    svg.append(c.stroke_width.as_str());
    svg.append("\" />\n");
    proof {
        assert(svg@ =~= before + circle_fill_element(*c, fill@) + circle_outline_element(*c, stroke@));
    }
}

/// The stroke attributes of a capsule rectangle: none for its fill, the
/// outline colour and width for its outline.
fn stroke_attributes(stroke: Option<(&str, &String)>) -> (res: String)
    ensures
        res@ == (match stroke {
            Some(s) => outline_attributes(s.0@, s.1@),
            None => Seq::<char>::empty(),
        }),
{
    let mut out = String::new();
    match stroke {
        Some((color, width)) => {
            let escaped = xml_escape(color);
            out.append(" stroke=\"");
            out.append(escaped.as_str());
            out.append("\" stroke-width=\"");
            out.append(width.as_str());
            out.append("\"");
            proof {
                assert(out@ =~= outline_attributes(color@, width@));
            }
        },
        None => {
            proof {
                assert(out@ =~= Seq::<char>::empty());
            }
        },
    }
    out
}

fn push_rect(svg: &mut String, r: &CapsuleRect, cx: &String, cy: &String, axis: OctilinearAxis, fill: &str, attributes: &String)
    ensures
        final(svg)@ == old(svg)@ + rect_element(*r, cx@, cy@, axis, fill@, attributes@),
{
    let ghost before = svg@;
    let fill_text = xml_escape(fill);
    svg.append("      <rect x=\"");
    svg.append(r.x.as_str());
    svg.append("\" y=\"");
    svg.append(r.y.as_str());
    svg.append("\" width=\"");
    svg.append(r.width.as_str());
    svg.append("\" height=\"");
    svg.append(r.height.as_str());
    svg.append("\" rx=\"");
    svg.append(r.rx.as_str());
    svg.append("\" fill=\"");
    svg.append(fill_text.as_str());
    svg.append("\"");
    svg.append(attributes.as_str());
    let ghost mid = svg@;
    svg.append(" transform=\"translate(");
    svg.append(cx.as_str());
    svg.append(" ");
    svg.append(cy.as_str());
    svg.append(") rotate(");
    svg.append(angle_text(axis));
    svg.append(")\" />\n");
    proof {
        assert(mid =~= before + ("      <rect x=\""@ + r.x@ + "\" y=\""@ + r.y@ + "\" width=\""@ + r.width@ + "\" height=\""@
            + r.height@ + "\" rx=\""@ + r.rx@ + "\" fill=\""@ + xml_escape_spec(fill@) + "\""@ + attributes@));
        assert(svg@ =~= before + rect_element(*r, cx@, cy@, axis, fill@, attributes@));
    }
}

/// Draw the symbol of station `st` after what `svg` holds.
fn push_symbol(svg: &mut String, m: &SchematicManifest, st: &SchematicStation, s: &SymbolLayout)
    ensures
        final(svg)@ == old(svg)@ + symbol_group(*m, *st, *s),
{
    let ghost before = svg@;
    let id = xml_escape(st.id.as_str());
    svg.append("    <g data-station-id=\"");
    svg.append(id.as_str());
    svg.append("\">\n");
    let ghost opened = svg@;
    match s {
        SymbolLayout::Circle(c) => {
            let common = &m.options.stations.common;
            let fill = resolve_color(&common.fill.color, &m.lines, st.id.as_str());
            let stroke = resolve_color(&common.stroke.color, &m.lines, st.id.as_str());
            push_circle(svg, c, fill, stroke);
        },
        SymbolLayout::Capsule(c) => {
            let axis = match st.symbol {
                SchematicStationSymbol::Capsule { axis, .. } => axis,
                SchematicStationSymbol::Circle {} => OctilinearAxis::Horizontal,
            };
            let interchange = &m.options.stations.interchange;
            let plain = stroke_attributes(None);
            push_rect(svg, &c.fill, &c.cx, &c.cy, axis, interchange.fill.color.as_str(), &plain);
            let outline = stroke_attributes(Some((interchange.stroke.color.as_str(), &c.stroke_width)));
            proof {
                reveal_strlit("none");
            }
            push_rect(svg, &c.outline, &c.cx, &c.cy, axis, "none", &outline);
        },
    }
    proof {
        assert(svg@ =~= opened + symbol_shapes(*m, *st, *s));
    }
    svg.append("    </g>\n");
    proof {
        assert(svg@ =~= before + symbol_group(*m, *st, *s));
    }
}

proof fn lemma_station_visits_bound(vs: Seq<SchematicRouteVisit>)
    ensures
        station_visit_count(vs) <= vs.len(),
    decreases vs.len(),
{
    if vs.len() > 0 {
        lemma_station_visits_bound(vs.drop_last());
    }
}

/// The printed points of a well-formed path can be drawn.
proof fn lemma_drawable(path: SchematicPath, pts: Seq<PathPointText>)
    requires
        points_fit(path, pts),
        station_visit_count(path.visits@) >= minimum_station_visits(path.closed),
        open_endpoints_ok(path),
    ensures
        pts.len() >= 2,
        !path.closed ==> pts.last().corner is None,
{
    lemma_station_visits_bound(path.visits@);
    if !path.closed && pts.last().corner is Some {
        assert(path.visits@[pts.len() - 1] is Corner);
    }
}

/// Render a semantic schematic manifest as an SVG schematic map.
///
/// The manifest is validated first, with `geometry` holding what the
/// numeric checks found; `layout` holds the printed numbers of the drawing.
/// Every path of every line is drawn in the line's colour, then every
/// station's symbol: a circle filled and outlined in the common station
/// colours, or a capsule rotated along its axis.
pub fn render_schematic_svg(schematic: &SchematicManifest, geometry: &SchematicGeometry, layout: &SchematicLayout) -> (res: Result<String, SchematicRenderError>)
    requires
        geometry_fits(*schematic, *geometry),
        layout_fits(*schematic, *layout),
    ensures
        match res {
            Ok(svg) => schematic_svg_spec(*schematic, *geometry, *layout) == Ok::<Seq<char>, SchematicFault>(svg@),
            Err(e) => schematic_svg_spec(*schematic, *geometry, *layout) == Err::<Seq<char>, SchematicFault>(e@),
        },
{
    match validate_schematic(schematic, geometry) {
        Err(e) => return Err(e),
        Ok(_) => {},
    }
    proof {
        lemma_valid_schematic_is_well_formed(*schematic, *geometry);
    }
    let mut svg = String::new();
    push_header(&mut svg, &layout.view_box);
    let ghost head = svg@;
    let ghost width = layout.line_width@;
    let mut l: usize = 0;
    while l < schematic.lines.len()
        invariant
            l <= schematic.lines@.len(),
            layout_fits(*schematic, *layout),
            forall|m: int, q: int| 0 <= m < schematic.lines@.len() && 0 <= q < schematic.lines@[m].paths@.len()
                ==> path_well_formed(*schematic, #[trigger] schematic.lines@[m].paths@[q]),
            width == layout.line_width@,
            svg@ == head + lines_text(schematic.lines@, layout.paths@, width, l as int),
        decreases schematic.lines@.len() - l,
    {
        let line = &schematic.lines[l];
        let data = &layout.paths[l];
        proof {
            assert forall|q: int| 0 <= q < line.paths@.len() implies points_fit(line.paths@[q], (#[trigger] data@[q])@) by {
                assert(points_fit(schematic.lines@[l as int].paths@[q], layout.paths@[l as int]@[q]@));
            }
            assert forall|q: int| 0 <= q < line.paths@.len() implies path_well_formed(*schematic, #[trigger] line.paths@[q]) by {
                assert(path_well_formed(*schematic, schematic.lines@[l as int].paths@[q]));
            }
        }
        let ghost before = svg@;
        let mut p: usize = 0;
        while p < data.len()
            invariant
                l < schematic.lines@.len(),
                *line == schematic.lines@[l as int],
                *data == layout.paths@[l as int],
                data@.len() == line.paths@.len(),
                forall|q: int| 0 <= q < line.paths@.len() ==> points_fit(line.paths@[q], (#[trigger] data@[q])@),
                forall|q: int| 0 <= q < line.paths@.len() ==> path_well_formed(*schematic, #[trigger] line.paths@[q]),
                width == layout.line_width@,
                p <= data@.len(),
                svg@ == before + strokes_text(*line, data@, width, p as int),
            decreases data@.len() - p,
        {
            let path = &line.paths[p];
            proof {
                assert(points_fit(line.paths@[p as int], data@[p as int]@));
                assert(path_well_formed(*schematic, line.paths@[p as int]));
                lemma_drawable(*path, data@[p as int]@);
            }
            let d = schematic_path_data(&data[p], path.closed);
            push_stroke(&mut svg, line, &d, &layout.line_width);
            proof {
                assert(svg@ =~= before + strokes_text(*line, data@, width, p + 1));
            }
            p = p + 1;
        }
        proof {
            assert(svg@ =~= head + lines_text(schematic.lines@, layout.paths@, width, l + 1));
        }
        l = l + 1;
    }
    let ghost drawn = svg@;
    svg.append("  </g>\n");
    svg.append("  <g>\n");
    let ghost opened = svg@;
    let mut i: usize = 0;
    while i < schematic.stations.len()
        invariant
            i <= schematic.stations@.len(),
            layout_fits(*schematic, *layout),
            svg@ == opened + symbols_text(*schematic, layout.symbols@, i as int),
        decreases schematic.stations@.len() - i,
    {
        push_symbol(&mut svg, schematic, &schematic.stations[i], &layout.symbols[i]);
        proof {
            assert(svg@ =~= opened + symbols_text(*schematic, layout.symbols@, i + 1));
        }
        i = i + 1;
    }
    let ghost placed = svg@;
    svg.append("  </g>\n");
    svg.append("</svg>\n");
    proof {
        assert(svg@ =~= drawn + "  </g>\n"@ + "  <g>\n"@ + symbols_text(*schematic, layout.symbols@, schematic.stations@.len() as int)
            + "  </g>\n"@ + "</svg>\n"@);
    }
    Ok(svg)
}

/// Rendering refuses a schematic exactly when validation does, with the
/// same error, and draws it otherwise.
pub proof fn lemma_render_agrees_with_validation(m: SchematicManifest, g: SchematicGeometry, layout: SchematicLayout)
    ensures
        schematic_svg_spec(m, g, layout) is Ok <==> schematic_verdict(m, g) is Ok,
        schematic_verdict(m, g) is Err ==> schematic_svg_spec(m, g, layout) == Err::<Seq<char>, SchematicFault>(schematic_verdict(m, g)->Err_0),
{
}

} // verus!
