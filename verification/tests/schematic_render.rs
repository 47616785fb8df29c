use metro_draw::names::LocalizedNames;
use metro_draw::schematic::{
    OctilinearAxis, SchematicBackgroundOptions, SchematicCommonStationFill, SchematicCommonStationOptions,
    SchematicCommonStationStroke, SchematicCorner, SchematicInterchangePort, SchematicInterchangeStationFill,
    SchematicInterchangeStationOptions, SchematicInterchangeStationStroke, SchematicLength, SchematicLine,
    SchematicLineOptions, SchematicManifest, SchematicOptions, SchematicPath, SchematicPoint, SchematicRouteVisit,
    SchematicStation, SchematicStationColor, SchematicStationOptions, SchematicStationPort, SchematicStationSymbol,
    SchematicStrokeAlignment,
};
use metro_draw::schematic_render::{
    render_schematic_svg, schematic_path_data, CapsuleLayout, CapsuleRect, CircleLayout, CornerText, PathPointText,
    SchematicLayout, SymbolLayout,
};
use metro_draw::schematic_validation::{
    CornerFinding, LegFinding, PathGeometry, SchematicGeometry, SchematicRenderError,
};

const EPSILON: f64 = 1.0e-9;
const PADDING: f64 = 24.0;

fn length(value: f64) -> SchematicLength {
    SchematicLength::new(value.to_bits()).unwrap()
}

fn point(x: f64, y: f64) -> SchematicPoint {
    SchematicPoint::new(x.to_bits(), y.to_bits()).unwrap()
}

fn names(name: &str) -> LocalizedNames {
    let mut names = LocalizedNames::new();
    names.insert("en".to_string(), vec![name.to_string()]);
    names
}

fn manifest(bend: (f64, f64)) -> SchematicManifest {
    SchematicManifest {
        options: SchematicOptions {
            background: SchematicBackgroundOptions::Transparent,
            lines: SchematicLineOptions { width: length(8.0) },
            stations: SchematicStationOptions {
                common: SchematicCommonStationOptions {
                    fill: SchematicCommonStationFill {
                        diameter: length(18.0),
                        color: SchematicStationColor::Unified { value: "#fff".to_string() },
                    },
                    stroke: SchematicCommonStationStroke {
                        width: length(2.0),
                        alignment: SchematicStrokeAlignment::Center,
                        color: SchematicStationColor::FollowLine {},
                    },
                },
                interchange: SchematicInterchangeStationOptions {
                    fill: SchematicInterchangeStationFill { width: length(18.0), color: "#fff".to_string() },
                    stroke: SchematicInterchangeStationStroke {
                        width: length(2.0),
                        alignment: SchematicStrokeAlignment::Outside,
                        color: "#000".to_string(),
                    },
                },
            },
        },
        stations: vec![
            SchematicStation {
                id: "west".to_string(),
                position: point(0.0, 40.0),
                names: names("West"),
                symbol: SchematicStationSymbol::Circle {},
            },
            SchematicStation {
                id: "central".to_string(),
                position: point(80.0, 80.0),
                names: names("Central"),
                symbol: SchematicStationSymbol::Capsule {
                    axis: OctilinearAxis::RisingDiagonal,
                    anchor_count: 1,
                    anchor_interval: length(24.0),
                },
            },
        ],
        corners: vec![SchematicCorner { id: "bend".to_string(), position: point(bend.0, bend.1), radius: length(8.0) }],
        lines: vec![SchematicLine {
            id: "red&line".to_string(),
            names: names("Red"),
            color: "#f00".to_string(),
            paths: vec![SchematicPath {
                closed: false,
                visits: vec![
                    SchematicRouteVisit::Station {
                        station_id: "west".to_string(),
                        port: SchematicStationPort::SingleLine,
                    },
                    SchematicRouteVisit::Corner { corner_id: "bend".to_string() },
                    SchematicRouteVisit::Station {
                        station_id: "central".to_string(),
                        port: SchematicStationPort::Interchange(SchematicInterchangePort::SinglePerpendicular {}),
                    },
                ],
            }],
        }],
    }
}

fn number(value: f64) -> String {
    let value = if value == 0.0 { 0.0 } else { value };
    let formatted = format!("{value:.3}");
    formatted.trim_end_matches('0').trim_end_matches('.').to_owned()
}

fn f(bits: u64) -> f64 {
    f64::from_bits(bits)
}

/// The points of the manifest's single path: both stations sit at their
/// centres (a circle, and a capsule's single perpendicular port), the
/// corner at its position.
fn points(m: &SchematicManifest) -> Vec<(f64, f64)> {
    let at = |p: SchematicPoint| (f(p.x()), f(p.y()));
    vec![at(m.stations[0].position), at(m.corners[0].position), at(m.stations[1].position)]
}

fn unit(dx: f64, dy: f64) -> (f64, f64) {
    let length = dx.hypot(dy);
    (dx / length, dy / length)
}

fn leg(from: (f64, f64), to: (f64, f64)) -> LegFinding {
    let (dx, dy) = (to.0 - from.0, to.1 - from.1);
    let scale = dx.abs().max(dy.abs()).max(1.0);
    if dx.abs() <= EPSILON && dy.abs() <= EPSILON {
        LegFinding::Coincident
    } else if dx.abs() <= EPSILON * scale {
        LegFinding::Along(OctilinearAxis::Vertical)
    } else if dy.abs() <= EPSILON * scale {
        LegFinding::Along(OctilinearAxis::Horizontal)
    } else if (dx.abs() - dy.abs()).abs() <= EPSILON * scale {
        LegFinding::Along(if dx * dy > 0.0 { OctilinearAxis::FallingDiagonal } else { OctilinearAxis::RisingDiagonal })
    } else {
        LegFinding::NonOctilinear
    }
}

/// How far the rounding of the corner between `previous` and `next` cuts
/// into its legs.
fn tangent(previous: (f64, f64), corner: (f64, f64), next: (f64, f64), radius: f64) -> f64 {
    let incoming = unit(corner.0 - previous.0, corner.1 - previous.1);
    let outgoing = unit(next.0 - corner.0, next.1 - corner.1);
    let angle = (-incoming.0 * outgoing.0 - incoming.1 * outgoing.1).clamp(-1.0, 1.0).acos();
    radius / (angle / 2.0).tan()
}

fn geometry(m: &SchematicManifest) -> SchematicGeometry {
    let pts = points(m);
    let radius = f(m.corners[0].radius.get());
    let incoming = unit(pts[1].0 - pts[0].0, pts[1].1 - pts[0].1);
    let outgoing = unit(pts[2].0 - pts[1].0, pts[2].1 - pts[1].1);
    let cross = incoming.0 * outgoing.1 - incoming.1 * outgoing.0;
    let cut = tangent(pts[0], pts[1], pts[2], radius);
    let length = |a: (f64, f64), b: (f64, f64)| (b.0 - a.0).hypot(b.1 - a.1);
    let corner = if cross.abs() <= EPSILON {
        CornerFinding::Collinear
    } else if !cut.is_finite() || cut >= length(pts[0], pts[1]) - EPSILON || cut >= length(pts[1], pts[2]) - EPSILON {
        CornerFinding::RadiusTooLarge
    } else {
        CornerFinding::Fits
    };
    SchematicGeometry {
        paths: vec![vec![PathGeometry {
            anchors_in_range: vec![true; 3],
            legs: vec![leg(pts[0], pts[1]), leg(pts[1], pts[2])],
            reverses: vec![false; 3],
            corners: vec![CornerFinding::Fits, corner, CornerFinding::Fits],
            radii_overlap: vec![cut >= length(pts[0], pts[1]) - EPSILON, cut >= length(pts[1], pts[2]) - EPSILON],
        }]],
        capsule_lengths_in_range: vec![true; 2],
        legs_overlap: false,
        bounds_in_range: true,
    }
}

/// The printed points of the open path, its corner rounded by the corner's
/// radius.
fn path_points(m: &SchematicManifest) -> Vec<PathPointText> {
    let pts = points(m);
    let radius = f(m.corners[0].radius.get());
    let (previous, corner, next) = (pts[0], pts[1], pts[2]);
    let incoming = unit(corner.0 - previous.0, corner.1 - previous.1);
    let outgoing = unit(next.0 - corner.0, next.1 - corner.1);
    let cut = tangent(previous, corner, next, radius);
    let printed = |p: (f64, f64), corner: Option<CornerText>| PathPointText { x: number(p.0), y: number(p.1), corner };
    let fillet = CornerText {
        entry_x: number(corner.0 - incoming.0 * cut),
        entry_y: number(corner.1 - incoming.1 * cut),
        radius: number(radius),
        sweep: incoming.0 * outgoing.1 - incoming.1 * outgoing.0 > 0.0,
        exit_x: number(corner.0 + outgoing.0 * cut),
        exit_y: number(corner.1 + outgoing.1 * cut),
    };
    vec![printed(previous, None), printed(corner, Some(fillet)), printed(next, None)]
}

fn rect(length: f64, diameter: f64) -> CapsuleRect {
    CapsuleRect {
        x: number(-length / 2.0),
        y: number(-diameter / 2.0),
        width: number(length),
        height: number(diameter),
        rx: number(diameter / 2.0),
    }
}

fn layout(m: &SchematicManifest) -> SchematicLayout {
    let pts = points(m);
    let line_width = f(m.options.lines.width.get());
    let circle_diameter = f(m.options.stations.common.fill.diameter.get()).max(line_width);
    let circle_stroke = f(m.options.stations.common.stroke.width.get());
    let capsule_diameter = f(m.options.stations.interchange.fill.width.get()).max(line_width);
    // A capsule with a single anchor is twice as long as it is wide.
    let capsule_length = 2.0 * capsule_diameter;
    let capsule_stroke = f(m.options.stations.interchange.stroke.width.get());
    let west = pts[0];
    let central = pts[2];

    let mut min = (f64::MAX, f64::MAX);
    let mut max = (f64::MIN, f64::MIN);
    let mut extend = |lo: (f64, f64), hi: (f64, f64)| {
        min = (min.0.min(lo.0), min.1.min(lo.1));
        max = (max.0.max(hi.0), max.1.max(hi.1));
    };
    for p in &pts {
        extend((p.0 - line_width / 2.0, p.1 - line_width / 2.0), (p.0 + line_width / 2.0, p.1 + line_width / 2.0));
    }
    let r = circle_diameter / 2.0 + circle_stroke / 2.0;
    extend((west.0 - r, west.1 - r), (west.0 + r, west.1 + r));
    let d = std::f64::consts::FRAC_1_SQRT_2;
    let half = d * (capsule_length / 2.0 + capsule_stroke) + d * (capsule_diameter / 2.0 + capsule_stroke);
    extend((central.0 - half, central.1 - half), (central.0 + half, central.1 + half));
    let (min_x, min_y) = (min.0 - PADDING, min.1 - PADDING);
    let (max_x, max_y) = (max.0 + PADDING, max.1 + PADDING);

    SchematicLayout {
        view_box: (number(min_x), number(min_y), number(max_x - min_x), number(max_y - min_y)),
        line_width: number(line_width),
        paths: vec![vec![path_points(m)]],
        symbols: vec![
            SymbolLayout::Circle(CircleLayout {
                cx: number(west.0),
                cy: number(west.1),
                r: number(circle_diameter / 2.0),
                outline_r: number(circle_diameter / 2.0),
                stroke_width: number(circle_stroke),
            }),
            SymbolLayout::Capsule(CapsuleLayout {
                cx: number(central.0),
                cy: number(central.1),
                fill: rect(capsule_length, capsule_diameter),
                outline: rect(capsule_length + capsule_stroke, capsule_diameter + capsule_stroke),
                stroke_width: number(capsule_stroke),
            }),
        ],
    }
}

fn render(m: &SchematicManifest) -> Result<String, SchematicRenderError> {
    render_schematic_svg(m, &geometry(m), &layout(m))
}

#[test]
fn renders_rounded_paths_and_station_symbols() {
    let svg = render(&manifest((40.0, 40.0))).unwrap();

    assert!(svg.contains("<title>Metro schematic map</title>"));
    assert!(svg.contains("data-line-id=\"red&amp;line\""));
    assert!(svg.contains("d=\"M0 40 L36.686 40 A8 8 0 0 1 42.343 42.343 L80 80\""));
    assert!(svg.contains("data-station-id=\"west\""));
    assert!(svg.contains("rotate(-45)"));
    assert!(svg.ends_with("</svg>\n"));
}

#[test]
fn rejects_non_octilinear_geometry() {
    assert!(matches!(
        render(&manifest((40.0, 50.0))),
        Err(SchematicRenderError::NonOctilinearLeg { .. })
    ));
}

#[test]
fn symbols_take_their_configured_and_followed_colours() {
    let svg = render(&manifest((40.0, 40.0))).unwrap();

    assert!(svg.contains("<circle cx=\"0\" cy=\"40\" r=\"9\" fill=\"#fff\" />"));
    assert!(svg.contains(
        "<circle cx=\"0\" cy=\"40\" r=\"9\" fill=\"none\" stroke=\"#f00\" stroke-width=\"2\" />"
    ));
    assert!(svg.contains(
        "<rect x=\"-18\" y=\"-9\" width=\"36\" height=\"18\" rx=\"9\" fill=\"#fff\" transform=\"translate(80 80) rotate(-45)\" />"
    ));
    assert!(svg.contains(
        "<rect x=\"-19\" y=\"-10\" width=\"38\" height=\"20\" rx=\"10\" fill=\"none\" stroke=\"#000\" stroke-width=\"2\" transform=\"translate(80 80) rotate(-45)\" />"
    ));
}

#[test]
fn stations_no_line_visits_follow_current_color() {
    let mut m = manifest((40.0, 40.0));
    m.stations.push(SchematicStation {
        id: "lonely".to_string(),
        position: point(0.0, 0.0),
        names: names("Lonely"),
        symbol: SchematicStationSymbol::Circle {},
    });
    let mut g = geometry(&m);
    g.capsule_lengths_in_range.push(true);
    let mut l = layout(&m);
    l.symbols.push(SymbolLayout::Circle(CircleLayout {
        cx: "0".to_string(),
        cy: "0".to_string(),
        r: "9".to_string(),
        outline_r: "9".to_string(),
        stroke_width: "2".to_string(),
    }));
    let svg = render_schematic_svg(&m, &g, &l).unwrap();
    assert!(svg.contains("fill=\"none\" stroke=\"currentColor\""));
}

fn text(x: &str, y: &str, corner: Option<CornerText>) -> PathPointText {
    PathPointText { x: x.to_string(), y: y.to_string(), corner }
}

fn fillet(entry: (&str, &str), radius: &str, sweep: bool, exit: (&str, &str)) -> CornerText {
    CornerText {
        entry_x: entry.0.to_string(),
        entry_y: entry.1.to_string(),
        radius: radius.to_string(),
        sweep,
        exit_x: exit.0.to_string(),
        exit_y: exit.1.to_string(),
    }
}

#[test]
fn open_paths_line_to_anchors_and_arc_around_corners() {
    let points = vec![
        text("0", "40", None),
        text("40", "40", Some(fillet(("36.686", "40"), "8", true, ("42.343", "42.343")))),
        text("80", "80", None),
    ];
    assert_eq!(schematic_path_data(&points, false), "M0 40 L36.686 40 A8 8 0 0 1 42.343 42.343 L80 80");
    assert_eq!(schematic_path_data(&vec![text("1", "2", None)], false), "M1 2");
}

#[test]
fn closed_paths_start_past_a_leading_corner_and_close() {
    let points = vec![
        text("0", "0", Some(fillet(("0", "4"), "4", false, ("4", "0")))),
        text("40", "0", None),
        text("40", "40", None),
        text("0", "40", None),
    ];
    assert_eq!(
        schematic_path_data(&points, true),
        "M4 0 L40 0 L40 40 L0 40 L0 4 A4 4 0 0 0 4 0 Z"
    );
    let square = vec![text("0", "0", None), text("9", "0", None), text("9", "9", None)];
    assert_eq!(schematic_path_data(&square, true), "M0 0 L9 0 L9 9 L0 0 Z");
}
