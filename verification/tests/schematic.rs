use metro_draw::names::LocalizedNames;
use metro_draw::schematic::{
    perpendicular, BackgroundFieldsError, rotate_clockwise, rotate_counter_clockwise, OctilinearAxis, SchematicBackgroundOptions,
    SchematicCommonStationFill, SchematicCommonStationOptions, SchematicCommonStationStroke, SchematicCorner,
    SchematicInterchangePort, SchematicInterchangeStationFill, SchematicInterchangeStationOptions,
    SchematicInterchangeStationStroke, SchematicLength, SchematicLine, SchematicLineOptions, SchematicManifest,
    SchematicOptions, SchematicPath, SchematicPoint, SchematicRouteVisit, SchematicStation, SchematicStationColor,
    SchematicStationOptions, SchematicStationPort, SchematicStationSymbol, SchematicStrokeAlignment,
    SchematicValueError,
};
use metro_draw::schematic_validation::{
    validate_names, validate_schematic, CornerFinding, LegFinding, PathGeometry, PortKey, SchematicGeometry,
    SchematicRenderError,
};

fn length(value: f64) -> SchematicLength {
    SchematicLength::new(value.to_bits()).unwrap()
}

fn point(x: f64, y: f64) -> SchematicPoint {
    SchematicPoint::new(x.to_bits(), y.to_bits()).unwrap()
}

fn options() -> SchematicOptions {
    SchematicOptions {
        background: SchematicBackgroundOptions::Color { color: "#ffffff".to_string() },
        lines: SchematicLineOptions { width: length(8.0) },
        stations: SchematicStationOptions {
            common: SchematicCommonStationOptions {
                fill: SchematicCommonStationFill {
                    diameter: length(12.0),
                    color: SchematicStationColor::Unified { value: "#ffffff".to_string() },
                },
                stroke: SchematicCommonStationStroke {
                    width: length(2.0),
                    alignment: SchematicStrokeAlignment::Inside,
                    color: SchematicStationColor::FollowLine {},
                },
            },
            interchange: SchematicInterchangeStationOptions {
                fill: SchematicInterchangeStationFill { width: length(14.0), color: "#ffffff".to_string() },
                stroke: SchematicInterchangeStationStroke {
                    width: length(2.0),
                    alignment: SchematicStrokeAlignment::Center,
                    color: "#222222".to_string(),
                },
            },
        },
    }
}

fn names(name: &str) -> LocalizedNames {
    let mut names = LocalizedNames::new();
    names.insert("en".to_string(), vec![name.to_string()]);
    names
}

fn circle(id: &str, x: f64, y: f64) -> SchematicStation {
    SchematicStation { id: id.to_string(), position: point(x, y), names: names(id), symbol: SchematicStationSymbol::Circle {} }
}

fn visit(station: &str) -> SchematicRouteVisit {
    SchematicRouteVisit::Station { station_id: station.to_string(), port: SchematicStationPort::SingleLine }
}

fn corner_visit(corner: &str) -> SchematicRouteVisit {
    SchematicRouteVisit::Corner { corner_id: corner.to_string() }
}

fn line(id: &str, visits: Vec<SchematicRouteVisit>) -> SchematicLine {
    SchematicLine {
        id: id.to_string(),
        names: names(id),
        color: "#ff0000".to_string(),
        paths: vec![SchematicPath { visits, closed: false }],
    }
}

fn manifest() -> SchematicManifest {
    SchematicManifest {
        options: options(),
        stations: vec![circle("west", 0.0, 40.0), circle("east", 80.0, 40.0)],
        corners: vec![],
        lines: vec![line("red&line", vec![visit("west"), visit("east")])],
    }
}

/// Geometry of a path whose legs all run horizontally and in which every
/// numeric check passed.
fn straight_path(p: &SchematicPath) -> PathGeometry {
    let n = p.visits.len();
    let legs = if p.closed { n } else { n.saturating_sub(1) };
    PathGeometry {
        anchors_in_range: vec![true; n],
        legs: vec![LegFinding::Along(OctilinearAxis::Horizontal); legs],
        reverses: vec![false; n],
        corners: vec![CornerFinding::Fits; n],
        radii_overlap: vec![false; legs],
    }
}

/// Geometry in which every numeric check passed.
fn sound_geometry(m: &SchematicManifest) -> SchematicGeometry {
    SchematicGeometry {
        paths: m.lines.iter().map(|l| l.paths.iter().map(straight_path).collect()).collect(),
        capsule_lengths_in_range: vec![true; m.stations.len()],
        legs_overlap: false,
        bounds_in_range: true,
    }
}

fn validate(m: &SchematicManifest) -> Result<(), SchematicRenderError> {
    validate_schematic(m, &sound_geometry(m))
}

#[test]
fn schematic_rejects_invalid_schematic_scalars() {
    assert!(SchematicPoint::new(0.0f64.to_bits(), 40.0f64.to_bits()).is_ok());
    assert_eq!(
        SchematicPoint::new(f64::NAN.to_bits(), 40.0f64.to_bits()),
        Err(SchematicValueError::NonFinitePoint { x: f64::NAN.to_bits(), y: 40.0f64.to_bits() })
    );
    assert_eq!(SchematicLength::new(8.0f64.to_bits()).map(|l| f64::from_bits(l.get())), Ok(8.0));
    assert_eq!(SchematicLength::new(0.0f64.to_bits()), Err(SchematicValueError::InvalidLength(0.0f64.to_bits())));
}

#[test]
fn lengths_must_be_finite_and_strictly_positive() {
    for bad in [-1.0, -0.0, f64::INFINITY, f64::NEG_INFINITY, f64::NAN] {
        assert_eq!(SchematicLength::new(bad.to_bits()), Err(SchematicValueError::InvalidLength(bad.to_bits())));
    }
    assert!(SchematicLength::new(f64::MIN_POSITIVE.to_bits()).is_ok());
    assert!(SchematicLength::new(f64::MAX.to_bits()).is_ok());
    assert!(SchematicPoint::new((-0.0f64).to_bits(), f64::MAX.to_bits()).is_ok());
    assert!(SchematicPoint::new(1.0f64.to_bits(), f64::INFINITY.to_bits()).is_err());
    let p = point(3.5, -2.0);
    assert_eq!((f64::from_bits(p.x()), f64::from_bits(p.y())), (3.5, -2.0));
}

#[test]
fn axes_rotate_in_eighth_turns() {
    for axis in [
        OctilinearAxis::Horizontal,
        OctilinearAxis::FallingDiagonal,
        OctilinearAxis::Vertical,
        OctilinearAxis::RisingDiagonal,
    ] {
        assert_eq!(rotate_clockwise(rotate_counter_clockwise(axis)), axis);
        assert_eq!(perpendicular(axis), rotate_clockwise(rotate_clockwise(axis)));
        assert_ne!(perpendicular(axis), axis);
    }
    assert_eq!(rotate_counter_clockwise(OctilinearAxis::Horizontal), OctilinearAxis::RisingDiagonal);
    assert_eq!(rotate_clockwise(OctilinearAxis::Horizontal), OctilinearAxis::FallingDiagonal);
    assert_eq!(perpendicular(OctilinearAxis::Vertical), OctilinearAxis::Horizontal);
}

#[test]
fn port_keys_display_ports_as_debug_does() {
    let ports = [
        SchematicStationPort::SingleLine,
        SchematicStationPort::Interchange(SchematicInterchangePort::MajorAxis {}),
        SchematicStationPort::Interchange(SchematicInterchangePort::SinglePerpendicular {}),
        SchematicStationPort::Interchange(SchematicInterchangePort::PerpendicularAnchor { index: 7 }),
        SchematicStationPort::Interchange(SchematicInterchangePort::PerpendicularAnchor { index: 42 }),
        SchematicStationPort::Interchange(SchematicInterchangePort::PerpendicularAnchor { index: 255 }),
    ];
    for port in ports {
        assert_eq!(PortKey::new("central", port).display(), format!("central:{port:?}"));
    }
    assert_eq!(PortKey::new("a", SchematicStationPort::SingleLine).display(), "a:SingleLine");
}

#[test]
fn accepts_a_sound_manifest() {
    assert_eq!(validate(&manifest()), Ok(()));
}

#[test]
fn rejects_blank_and_repeated_ids() {
    let mut m = manifest();
    m.stations[1].id = " ".to_string();
    assert_eq!(validate(&m), Err(SchematicRenderError::EmptyStationId));

    let mut m = manifest();
    m.stations[1].id = "west".to_string();
    assert_eq!(validate(&m), Err(SchematicRenderError::DuplicateStation { station: "west".to_string() }));

    let mut m = manifest();
    m.corners.push(SchematicCorner { id: String::new(), position: point(0.0, 0.0), radius: length(4.0) });
    assert_eq!(validate(&m), Err(SchematicRenderError::EmptyCornerId));

    let mut m = manifest();
    m.lines.push(line("red&line", vec![visit("west"), visit("east")]));
    assert_eq!(validate(&m), Err(SchematicRenderError::DuplicateLine { line: "red&line".to_string() }));
}

#[test]
fn rejects_blank_locales_and_canonical_names() {
    let mut blank_locale = LocalizedNames::new();
    blank_locale.insert(" ".to_string(), vec!["West".to_string()]);
    assert_eq!(
        validate_names("station", "west", &blank_locale),
        Err(SchematicRenderError::EmptyLocale { kind: "station", id: "west".to_string() })
    );

    let mut m = manifest();
    m.lines[0].names.insert("zh".to_string(), vec![]);
    assert_eq!(
        validate(&m),
        Err(SchematicRenderError::EmptyCanonicalName {
            kind: "line",
            id: "red&line".to_string(),
            locale: "zh".to_string()
        })
    );
}

#[test]
fn rejects_short_paths_and_open_paths_ending_at_corners() {
    let mut m = manifest();
    m.lines[0].paths[0].visits.pop();
    assert_eq!(
        validate(&m),
        Err(SchematicRenderError::PathTooShort { line: "red&line".to_string(), path: 1, minimum: 2 })
    );

    let mut m = manifest();
    m.lines[0].paths[0].closed = true;
    assert_eq!(
        validate(&m),
        Err(SchematicRenderError::PathTooShort { line: "red&line".to_string(), path: 1, minimum: 3 })
    );

    let mut m = manifest();
    m.corners.push(SchematicCorner { id: "bend".to_string(), position: point(80.0, 80.0), radius: length(8.0) });
    m.lines[0].paths[0].visits.push(corner_visit("bend"));
    assert_eq!(validate(&m), Err(SchematicRenderError::OpenPathEndpoint { line: "red&line".to_string(), path: 1 }));
}

#[test]
fn rejects_unknown_and_repeated_visits() {
    let mut m = manifest();
    m.lines[0].paths[0].visits[1] = visit("missing");
    assert_eq!(
        validate(&m),
        Err(SchematicRenderError::UnknownStation { line: "red&line".to_string(), station: "missing".to_string() })
    );

    let mut m = manifest();
    m.lines[0].paths[0].visits.push(visit("west"));
    assert_eq!(
        validate(&m),
        Err(SchematicRenderError::DuplicateStationInPath {
            line: "red&line".to_string(),
            path: 1,
            station: "west".to_string()
        })
    );

    let mut m = manifest();
    m.lines[0].paths[0].visits.insert(1, corner_visit("nowhere"));
    assert_eq!(
        validate(&m),
        Err(SchematicRenderError::UnknownCorner { line: "red&line".to_string(), corner: "nowhere".to_string() })
    );
}

#[test]
fn rejects_ports_that_do_not_suit_the_symbol() {
    let mut m = manifest();
    m.lines[0].paths[0].visits[0] = SchematicRouteVisit::Station {
        station_id: "west".to_string(),
        port: SchematicStationPort::Interchange(SchematicInterchangePort::MajorAxis {}),
    };
    assert_eq!(validate(&m), Err(SchematicRenderError::IncompatiblePort { station: "west".to_string() }));

    let mut m = manifest();
    m.stations[0].symbol =
        SchematicStationSymbol::Capsule { axis: OctilinearAxis::Vertical, anchor_count: 2, anchor_interval: length(12.0) };
    m.lines[0].paths[0].visits[0] = SchematicRouteVisit::Station {
        station_id: "west".to_string(),
        port: SchematicStationPort::Interchange(SchematicInterchangePort::PerpendicularAnchor { index: 2 }),
    };
    assert_eq!(
        validate(&m),
        Err(SchematicRenderError::PerpendicularAnchorOutOfRange { station: "west".to_string(), index: 2, anchor_count: 2 })
    );
}

#[test]
fn rejects_a_port_shared_by_two_lines() {
    let mut m = manifest();
    m.stations.push(circle("north", 0.0, 0.0));
    m.lines.push(line("blue", vec![visit("north"), visit("west")]));
    assert_eq!(
        validate(&m),
        Err(SchematicRenderError::PortSharedByLines {
            port: "west:SingleLine".to_string(),
            first_line: "red&line".to_string(),
            second_line: "blue".to_string(),
        })
    );
}

#[test]
fn rejects_corners_no_line_visits() {
    let mut m = manifest();
    m.corners.push(SchematicCorner { id: "spare".to_string(), position: point(8.0, 8.0), radius: length(4.0) });
    assert_eq!(validate(&m), Err(SchematicRenderError::UnreferencedCorner { corner: "spare".to_string() }));
}

#[test]
fn capsules_need_every_perpendicular_anchor_once_and_room_between_them() {
    let mut m = manifest();
    m.stations[1].symbol =
        SchematicStationSymbol::Capsule { axis: OctilinearAxis::Vertical, anchor_count: 2, anchor_interval: length(12.0) };
    m.lines[0].paths[0].visits[1] = SchematicRouteVisit::Station {
        station_id: "east".to_string(),
        port: SchematicStationPort::Interchange(SchematicInterchangePort::PerpendicularAnchor { index: 0 }),
    };
    assert_eq!(
        validate(&m),
        Err(SchematicRenderError::IncompletePerpendicularPorts { station: "east".to_string(), anchor_count: 2 })
    );

    m.stations.push(circle("south", 80.0, 80.0));
    m.lines.push(SchematicLine {
        id: "blue".to_string(),
        names: names("blue"),
        color: "#0000ff".to_string(),
        paths: vec![SchematicPath {
            visits: vec![
                SchematicRouteVisit::Station {
                    station_id: "east".to_string(),
                    port: SchematicStationPort::Interchange(SchematicInterchangePort::PerpendicularAnchor { index: 1 }),
                },
                visit("south"),
            ],
            closed: false,
        }],
    });
    assert_eq!(validate(&m), Ok(()));

    m.stations[1].symbol =
        SchematicStationSymbol::Capsule { axis: OctilinearAxis::Vertical, anchor_count: 2, anchor_interval: length(6.0) };
    assert_eq!(validate(&m), Err(SchematicRenderError::AnchorIntervalTooSmall { station: "east".to_string() }));
}

#[test]
fn geometric_findings_are_reported_in_order() {
    let m = manifest();

    let mut g = sound_geometry(&m);
    g.paths[0][0].legs[0] = LegFinding::NonOctilinear;
    assert_eq!(
        validate_schematic(&m, &g),
        Err(SchematicRenderError::NonOctilinearLeg { line: "red&line".to_string(), path: 1 })
    );

    let mut g = sound_geometry(&m);
    g.paths[0][0].legs[0] = LegFinding::Coincident;
    g.paths[0][0].radii_overlap[0] = true;
    assert_eq!(
        validate_schematic(&m, &g),
        Err(SchematicRenderError::CoincidentPoints { line: "red&line".to_string(), path: 1 })
    );

    let mut g = sound_geometry(&m);
    g.paths[0][0].radii_overlap[0] = true;
    assert_eq!(
        validate_schematic(&m, &g),
        Err(SchematicRenderError::CornerRadiiOverlap { line: "red&line".to_string(), path: 1 })
    );

    let mut g = sound_geometry(&m);
    g.paths[0][0].anchors_in_range[1] = false;
    assert_eq!(validate_schematic(&m, &g), Err(SchematicRenderError::CoordinateRange));

    let mut g = sound_geometry(&m);
    g.legs_overlap = true;
    g.bounds_in_range = false;
    assert_eq!(validate_schematic(&m, &g), Err(SchematicRenderError::OverlappingLegs));

    let mut g = sound_geometry(&m);
    g.bounds_in_range = false;
    assert_eq!(validate_schematic(&m, &g), Err(SchematicRenderError::CoordinateRange));
}

#[test]
fn paths_go_straight_through_stations() {
    let mut m = manifest();
    m.stations.push(circle("far", 160.0, 40.0));
    m.lines[0].paths[0].visits.push(visit("far"));

    let mut g = sound_geometry(&m);
    g.paths[0][0].legs[1] = LegFinding::Along(OctilinearAxis::Vertical);
    assert_eq!(
        validate_schematic(&m, &g),
        Err(SchematicRenderError::BendAtStation { line: "red&line".to_string(), path: 1, station: "east".to_string() })
    );

    let mut g = sound_geometry(&m);
    g.paths[0][0].reverses[1] = true;
    assert_eq!(
        validate_schematic(&m, &g),
        Err(SchematicRenderError::BendAtStation { line: "red&line".to_string(), path: 1, station: "east".to_string() })
    );

    let mut g = sound_geometry(&m);
    g.paths[0][0].reverses[0] = true;
    g.paths[0][0].reverses[2] = true;
    assert_eq!(validate_schematic(&m, &g), Ok(()));
}

#[test]
fn ports_keep_their_legs_on_the_permitted_axis() {
    let mut m = manifest();
    m.stations[1].symbol =
        SchematicStationSymbol::Capsule { axis: OctilinearAxis::Vertical, anchor_count: 1, anchor_interval: length(12.0) };
    m.lines[0].paths[0].visits[1] = SchematicRouteVisit::Station {
        station_id: "east".to_string(),
        port: SchematicStationPort::Interchange(SchematicInterchangePort::MajorAxis {}),
    };
    let g = sound_geometry(&m);
    assert_eq!(validate_schematic(&m, &g), Err(SchematicRenderError::InvalidPortAxis { station: "east".to_string() }));

    let mut g = sound_geometry(&m);
    g.paths[0][0].legs[0] = LegFinding::Along(OctilinearAxis::Vertical);
    assert_eq!(
        validate_schematic(&m, &g),
        Err(SchematicRenderError::IncompletePerpendicularPorts { station: "east".to_string(), anchor_count: 1 })
    );
}

#[test]
fn corners_must_turn_and_fit() {
    let mut m = manifest();
    m.corners.push(SchematicCorner { id: "bend".to_string(), position: point(40.0, 0.0), radius: length(8.0) });
    m.lines[0].paths[0].visits.insert(1, corner_visit("bend"));

    let mut g = sound_geometry(&m);
    assert_eq!(validate_schematic(&m, &g), Ok(()));

    for (finding, error) in [
        (CornerFinding::Collinear, SchematicRenderError::CollinearCorner { corner: "bend".to_string() }),
        (CornerFinding::Reversing, SchematicRenderError::ReversingCorner { corner: "bend".to_string() }),
        (CornerFinding::RadiusTooLarge, SchematicRenderError::CornerRadiusTooLarge { corner: "bend".to_string() }),
    ] {
        g.paths[0][0].corners[1] = finding;
        assert_eq!(validate_schematic(&m, &g), Err(error));
    }

    let mut closed = manifest();
    closed.corners.push(SchematicCorner { id: "bend".to_string(), position: point(40.0, 0.0), radius: length(8.0) });
    closed.stations.push(circle("north", 40.0, 80.0));
    closed.lines[0].paths[0] = SchematicPath {
        visits: vec![corner_visit("bend"), visit("west"), visit("north"), visit("east")],
        closed: true,
    };
    let mut g = sound_geometry(&closed);
    assert_eq!(validate_schematic(&closed, &g), Ok(()));
    g.paths[0][0].corners[0] = CornerFinding::Reversing;
    assert_eq!(
        validate_schematic(&closed, &g),
        Err(SchematicRenderError::ReversingCorner { corner: "bend".to_string() })
    );
}
#[test]
fn background_blocks_name_exactly_one_background() {
    let white = || Some("#ffffff".to_string());
    let opaque = SchematicBackgroundOptions::Color { color: "#ffffff".to_string() };
    assert_eq!(SchematicBackgroundOptions::from_fields(white(), None), Ok(opaque.clone()));
    assert_eq!(SchematicBackgroundOptions::from_fields(white(), Some(false)), Ok(opaque));
    assert_eq!(SchematicBackgroundOptions::from_fields(None, Some(true)), Ok(SchematicBackgroundOptions::Transparent));
    assert_eq!(
        SchematicBackgroundOptions::from_fields(white(), Some(true)),
        Err(BackgroundFieldsError::ColorConflictsWithTransparent)
    );
    assert_eq!(
        SchematicBackgroundOptions::from_fields(None, Some(false)),
        Err(BackgroundFieldsError::TransparentMustBeTrue)
    );
    assert_eq!(SchematicBackgroundOptions::from_fields(None, None), Err(BackgroundFieldsError::Missing));
    assert_eq!(BackgroundFieldsError::Missing.message(), "background must contain color or transparent: true");
    assert_eq!(BackgroundFieldsError::TransparentMustBeTrue.message(), "transparent must be true");
}
