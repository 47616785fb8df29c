use metro_draw::names::LocalizedNames;
use metro_draw::topology::{MetroTopology, TopologyLine, TopologyPath, TopologyPosition, TopologyStation};
use metro_draw::topology_validation::{validate_topology, TopologyRenderError};

const SCALE: f64 = 80.0;
const PADDING: f64 = 48.0;
const LABEL_SPACE: f64 = 160.0;

fn names(locale: &str, name: &str) -> LocalizedNames {
    let mut names = LocalizedNames::new();
    names.insert(locale.to_string(), vec![name.to_string()]);
    names
}

fn position(x: f64, y: f64) -> TopologyPosition {
    TopologyPosition { x: x.to_bits(), y: y.to_bits() }
}

fn red_line() -> TopologyLine {
    TopologyLine {
        id: "red\"line".to_string(),
        names: LocalizedNames::new(),
        color: "#f00".to_string(),
        paths: vec![TopologyPath {
            stations: vec!["south&west".to_string(), "north".to_string()],
            closed: false,
        }],
    }
}

fn topology() -> MetroTopology {
    MetroTopology {
        stations: vec![
            TopologyStation {
                id: "south&west".to_string(),
                names: names("en", "South <West>"),
                position: position(-1.0, 1.0),
            },
            TopologyStation {
                id: "north".to_string(),
                names: names("en", "North"),
                position: position(1.0, 3.0),
            },
        ],
        lines: vec![red_line()],
    }
}

/// Whether the viewport and every projected station stay finite, computed
/// in binary64 as the renderer lays the topology out.
fn in_range(topology: &MetroTopology) -> bool {
    let xs: Vec<f64> = topology.stations.iter().map(|s| f64::from_bits(s.position.x)).collect();
    let ys: Vec<f64> = topology.stations.iter().map(|s| f64::from_bits(s.position.y)).collect();
    let (mut min_x, mut max_x, mut min_y, mut max_y) = (0.0, 0.0, 0.0, 0.0);
    if !xs.is_empty() {
        min_x = xs[0];
        max_x = xs[0];
        min_y = ys[0];
        max_y = ys[0];
        for i in 1..xs.len() {
            min_x = f64::min(min_x, xs[i]);
            max_x = f64::max(max_x, xs[i]);
            min_y = f64::min(min_y, ys[i]);
            max_y = f64::max(max_y, ys[i]);
        }
    }
    let width = (max_x - min_x) * SCALE + PADDING * 2.0 + LABEL_SPACE;
    let height = (max_y - min_y) * SCALE + PADDING * 2.0;
    width.is_finite()
        && height.is_finite()
        && xs.iter().zip(ys.iter()).all(|(x, y)| {
            ((x - min_x) * SCALE + PADDING).is_finite() && ((max_y - y) * SCALE + PADDING).is_finite()
        })
}

fn validate(topology: &MetroTopology) -> Result<(), TopologyRenderError> {
    validate_topology(topology, in_range(topology))
}

#[test]
fn validates_ids_station_references_and_coordinates() {
    let mut invalid = topology();
    invalid.stations[0].id.clear();
    assert_eq!(validate(&invalid), Err(TopologyRenderError::EmptyStationId));

    let mut invalid = topology();
    invalid.stations[1].id = invalid.stations[0].id.clone();
    assert_eq!(
        validate(&invalid),
        Err(TopologyRenderError::DuplicateStation { station: "south&west".to_string() })
    );

    let mut invalid = topology();
    invalid.stations[0].position.x = f64::NAN.to_bits();
    assert_eq!(
        validate(&invalid),
        Err(TopologyRenderError::NonFinitePosition { station: "south&west".to_string() })
    );

    let mut invalid = topology();
    invalid.stations[0].position.x = (-f64::MAX).to_bits();
    invalid.stations[1].position.x = f64::MAX.to_bits();
    assert_eq!(validate(&invalid), Err(TopologyRenderError::CoordinateRange));

    let mut invalid = topology();
    invalid.lines[0].id.clear();
    assert_eq!(validate(&invalid), Err(TopologyRenderError::EmptyLineId));

    let mut invalid = topology();
    invalid.lines.push(red_line());
    assert_eq!(
        validate(&invalid),
        Err(TopologyRenderError::DuplicateLine { line: "red\"line".to_string() })
    );

    let mut invalid = topology();
    invalid.lines[0].paths[0].stations[1] = "missing".to_string();
    assert_eq!(
        validate(&invalid),
        Err(TopologyRenderError::UnknownStation {
            line: "red\"line".to_string(),
            station: "missing".to_string()
        })
    );
}

#[test]
fn validates_path_lengths_and_repeated_stations() {
    let mut invalid = topology();
    invalid.lines[0].paths[0].stations.pop();
    assert_eq!(
        validate(&invalid),
        Err(TopologyRenderError::PathTooShort { line: "red\"line".to_string(), path: 1, minimum: 2 })
    );

    let mut invalid = topology();
    invalid.lines[0].paths[0].closed = true;
    assert_eq!(
        validate(&invalid),
        Err(TopologyRenderError::PathTooShort { line: "red\"line".to_string(), path: 1, minimum: 3 })
    );

    let mut invalid = topology();
    invalid.lines[0].paths[0].stations.push("south&west".to_string());
    assert_eq!(
        validate(&invalid),
        Err(TopologyRenderError::DuplicateStationInPath {
            line: "red\"line".to_string(),
            path: 1,
            station: "south&west".to_string(),
        })
    );
}

#[test]
fn accepts_a_well_formed_topology() {
    assert_eq!(validate(&topology()), Ok(()));
    assert_eq!(validate(&MetroTopology { stations: vec![], lines: vec![] }), Ok(()));
}

#[test]
fn whitespace_ids_count_as_empty() {
    let mut invalid = topology();
    invalid.stations[1].id = " \t\u{3000}".to_string();
    assert_eq!(validate(&invalid), Err(TopologyRenderError::EmptyStationId));

    let mut invalid = topology();
    invalid.lines[0].id = "\n ".to_string();
    assert_eq!(validate(&invalid), Err(TopologyRenderError::EmptyLineId));
}

#[test]
fn later_paths_are_numbered_from_one() {
    let mut invalid = topology();
    invalid.lines[0].paths.push(TopologyPath {
        stations: vec!["north".to_string(), "south&west".to_string(), "north".to_string()],
        closed: true,
    });
    assert_eq!(
        validate(&invalid),
        Err(TopologyRenderError::DuplicateStationInPath {
            line: "red\"line".to_string(),
            path: 2,
            station: "north".to_string(),
        })
    );
}

#[test]
fn station_errors_come_before_line_errors() {
    let mut invalid = topology();
    invalid.lines[0].id.clear();
    invalid.stations[0].position.y = f64::INFINITY.to_bits();
    assert_eq!(
        validate(&invalid),
        Err(TopologyRenderError::NonFinitePosition { station: "south&west".to_string() })
    );
}

#[test]
fn range_is_consulted_only_after_every_other_check() {
    let mut invalid = topology();
    invalid.lines[0].paths[0].stations.pop();
    assert_eq!(
        validate_topology(&invalid, false),
        Err(TopologyRenderError::PathTooShort { line: "red\"line".to_string(), path: 1, minimum: 2 })
    );
    assert_eq!(validate_topology(&topology(), false), Err(TopologyRenderError::CoordinateRange));
}
