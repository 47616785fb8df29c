use metro_draw::names::LocalizedNames;
use metro_draw::topology::{MetroTopology, TopologyLine, TopologyPath, TopologyPosition, TopologyStation};
use metro_draw::render::ProjectedStation;
use metro_draw::topology_render::{
    path_segments, render_topology_svg, segment_lanes, segment_plan, SegmentKey, SegmentLane, TopologyLayout,
};
use metro_draw::topology_validation::TopologyRenderError;

const SCALE: f64 = 80.0;
const PADDING: f64 = 48.0;
const LABEL_SPACE: f64 = 160.0;
const LINE_WIDTH: f64 = 8.0;
const LANE_GAP: f64 = 3.0;
const TAPER_LENGTH: f64 = 24.0;

fn station(id: &str, x: f64, y: f64) -> TopologyStation {
    TopologyStation {
        id: id.to_string(),
        names: LocalizedNames::new(),
        position: TopologyPosition { x: x.to_bits(), y: y.to_bits() },
    }
}

fn named(id: &str, locale: &str, name: &str, x: f64, y: f64) -> TopologyStation {
    let mut names = LocalizedNames::new();
    names.insert(locale.to_string(), vec![name.to_string()]);
    TopologyStation { names, ..station(id, x, y) }
}

fn topology() -> MetroTopology {
    MetroTopology {
        stations: vec![named("south&west", "en", "South <West>", -1.0, 1.0), named("north", "en", "North", 1.0, 3.0)],
        lines: vec![TopologyLine {
            id: "red\"line".to_string(),
            names: LocalizedNames::new(),
            color: "#f00".to_string(),
            paths: vec![path(&["south&west", "north"], false)],
        }],
    }
}

fn number(value: f64) -> String {
    let value = if value == 0.0 { 0.0 } else { value };
    let formatted = format!("{value:.3}");
    formatted.trim_end_matches('0').trim_end_matches('.').to_owned()
}

/// Lays a topology out in binary64 as the command line does: the canvas,
/// each station, and each planned segment with its lane offset and tapers.
fn layout(topology: &MetroTopology) -> TopologyLayout {
    let xs: Vec<f64> = topology.stations.iter().map(|s| f64::from_bits(s.position.x)).collect();
    let ys: Vec<f64> = topology.stations.iter().map(|s| f64::from_bits(s.position.y)).collect();
    let (mut min_x, mut max_x, mut min_y, mut max_y) = (0.0, 0.0, 0.0, 0.0);
    if !xs.is_empty() {
        (min_x, max_x, min_y, max_y) = (xs[0], xs[0], ys[0], ys[0]);
        for i in 1..xs.len() {
            min_x = f64::min(min_x, xs[i]);
            max_x = f64::max(max_x, xs[i]);
            min_y = f64::min(min_y, ys[i]);
            max_y = f64::max(max_y, ys[i]);
        }
    }
    let width = (max_x - min_x) * SCALE + PADDING * 2.0 + LABEL_SPACE;
    let height = (max_y - min_y) * SCALE + PADDING * 2.0;
    let viewport = (width.is_finite() && height.is_finite()).then(|| (number(width), number(height)));
    let project = |id: &str| -> (f64, f64) {
        let i = topology.stations.iter().position(|s| s.id == id).unwrap_or(0);
        ((xs[i] - min_x) * SCALE + PADDING, (max_y - ys[i]) * SCALE + PADDING)
    };
    let stations = xs
        .iter()
        .zip(ys.iter())
        .map(|(x, y)| {
            let (px, py) = ((x - min_x) * SCALE + PADDING, (max_y - y) * SCALE + PADDING);
            (px.is_finite() && py.is_finite())
                .then(|| ProjectedStation { x: number(px), y: number(py), label_x: number(px + 13.0) })
        })
        .collect();
    let plan = segment_plan(topology);
    let segments = topology
        .lines
        .iter()
        .zip(plan.iter())
        .map(|(line, line_plan)| {
            line.paths
                .iter()
                .zip(line_plan.iter())
                .map(|(path, path_plan)| {
                    path_segments(path)
                        .iter()
                        .zip(path_plan.iter())
                        .map(|((a, b), lane)| segment_path(project(a), project(b), lane))
                        .collect()
                })
                .collect()
        })
        .collect();
    TopologyLayout { viewport, stations, segments }
}

fn segment_path(start: (f64, f64), end: (f64, f64), lane: &SegmentLane) -> String {
    let offset = (lane.lane as f64 - (lane.lanes as f64 - 1.0) / 2.0) * (LINE_WIDTH + LANE_GAP);
    let (dx, dy) = (end.0 - start.0, end.1 - start.1);
    let length = dx.hypot(dy);
    if offset == 0.0 || length == 0.0 {
        return format!("M{} {} L{} {}", number(start.0), number(start.1), number(end.0), number(end.1));
    }
    let (ux, uy) = (dx / length, dy / length);
    let sign = if lane.forward { 1.0 } else { -1.0 };
    let (nx, ny) = (-uy * sign, ux * sign);
    let taper = TAPER_LENGTH.min(length / 4.0);
    format!(
        "M{} {} L{} {} L{} {} L{} {}",
        number(start.0),
        number(start.1),
        number(start.0 + ux * taper + nx * offset),
        number(start.1 + uy * taper + ny * offset),
        number(end.0 - ux * taper + nx * offset),
        number(end.1 - uy * taper + ny * offset),
        number(end.0),
        number(end.1)
    )
}

fn render(topology: &MetroTopology) -> Result<String, TopologyRenderError> {
    render_topology_svg(topology, &layout(topology))
}

fn path(stations: &[&str], closed: bool) -> TopologyPath {
    TopologyPath { stations: stations.iter().map(|s| s.to_string()).collect(), closed }
}

fn horizontal_shared_topology(line_count: usize) -> MetroTopology {
    let stations = vec![station("a", 0.0, 0.0), station("b", 2.0, 0.0)];
    let lines = (0..line_count)
        .map(|index| TopologyLine {
            id: format!("line-{index}"),
            names: LocalizedNames::new(),
            color: format!("#{index}{index}{index}"),
            paths: vec![if index == 1 { path(&["b", "a"], false) } else { path(&["a", "b"], false) }],
        })
        .collect();
    MetroTopology { stations, lines }
}

fn lanes_of(lanes: &[(SegmentKey, Vec<usize>)], key: &SegmentKey) -> Vec<usize> {
    lanes.iter().find(|(k, _)| k == key).map(|(_, l)| l.clone()).expect("segment is indexed")
}

#[test]
fn indexes_closing_segments_and_deduplicates_a_line_lane() {
    let mut topology = horizontal_shared_topology(1);
    topology.stations.push(station("c", 1.0, 1.0));
    topology.lines[0].paths = vec![path(&["a", "b", "c"], true), path(&["a", "b"], false)];

    let lanes = segment_lanes(&topology);
    assert_eq!(lanes_of(&lanes, &SegmentKey::new("a", "c")), vec![0]);
    assert_eq!(lanes_of(&lanes, &SegmentKey::new("a", "b")), vec![0]);
}

#[test]
fn shared_segments_get_one_lane_per_line_in_line_order() {
    let lanes = segment_lanes(&horizontal_shared_topology(3));
    assert_eq!(lanes.len(), 1);
    assert_eq!(lanes_of(&lanes, &SegmentKey::new("b", "a")), vec![0, 1, 2]);
}

#[test]
fn segment_keys_ignore_direction() {
    let forward = SegmentKey::new("a", "b");
    let backward = SegmentKey::new("b", "a");
    assert_eq!(forward, backward);
    assert_eq!(forward.first, "a");
    assert_eq!(forward.second, "b");
    assert!(forward.is_forward("a"));
    assert!(!backward.is_forward("b"));
}

#[test]
fn path_segments_join_neighbours_and_close_loops() {
    let segments = path_segments(&path(&["a", "b", "c"], true));
    let expected: Vec<(String, String)> = vec![
        ("a".to_string(), "b".to_string()),
        ("b".to_string(), "c".to_string()),
        ("c".to_string(), "a".to_string()),
    ];
    assert_eq!(segments, expected);

    let open = path_segments(&path(&["a", "b", "c"], false));
    assert_eq!(open.len(), 2);
    assert!(path_segments(&path(&["a"], true)).is_empty());
    assert!(path_segments(&path(&[], true)).is_empty());
}

#[test]
fn empty_topologies_have_no_segments() {
    assert!(segment_lanes(&MetroTopology { stations: vec![], lines: vec![] }).is_empty());
}

#[test]
fn topology_render_renders_paths_stations_labels_and_cartesian_y_axis() {
    let svg = render(&topology()).unwrap();

    assert!(svg.starts_with("<svg xmlns=\"http://www.w3.org/2000/svg\""));
    assert!(svg.contains("data-line-id=\"red&quot;line\""));
    assert!(svg.contains("d=\"M48 208 L208 48\""));
    assert!(svg.contains("data-station-id=\"south&amp;west\""));
    assert!(svg.contains(">South &lt;West&gt;</text>"));
    assert!(svg.ends_with("</svg>\n"));
}

#[test]
fn renders_two_shared_lines_in_separate_lanes() {
    let svg = render(&horizontal_shared_topology(2)).unwrap();

    assert!(svg.contains("data-line-id=\"line-0\" d=\"M48 48 L72 42.5 L184 42.5 L208 48\""));
    assert!(svg.contains("data-line-id=\"line-1\" d=\"M208 48 L184 53.5 L72 53.5 L48 48\""));
}

#[test]
fn renders_three_shared_lines_symmetrically() {
    let svg = render(&horizontal_shared_topology(3)).unwrap();

    assert!(svg.contains("d=\"M48 48 L72 37 L184 37 L208 48\""));
    assert!(svg.contains("d=\"M208 48 L48 48\""));
    assert!(svg.contains("d=\"M48 48 L72 59 L184 59 L208 48\""));
}

#[test]
fn topology_render_reports_unknown_stations() {
    let mut topology = topology();
    topology.lines[0].paths[0].stations.push("missing".to_string());

    assert_eq!(
        render(&topology),
        Err(TopologyRenderError::UnknownStation { line: "red\"line".to_string(), station: "missing".to_string() })
    );
}

#[test]
fn renders_an_empty_topology() {
    let svg = render(&MetroTopology { stations: vec![], lines: vec![] }).unwrap();

    assert!(svg.contains("viewBox=\"0 0 256 96\""));
}

#[test]
fn plans_lanes_and_directions_for_every_segment() {
    let plan = segment_plan(&horizontal_shared_topology(3));
    assert_eq!(plan.len(), 3);
    assert_eq!(plan[0][0], vec![SegmentLane { forward: true, lane: 0, lanes: 3 }]);
    assert_eq!(plan[1][0], vec![SegmentLane { forward: false, lane: 1, lanes: 3 }]);
    assert_eq!(plan[2][0], vec![SegmentLane { forward: true, lane: 2, lanes: 3 }]);
}

#[test]
fn rendering_refuses_invalid_topologies_before_drawing() {
    let mut topology = topology();
    topology.lines[0].paths[0].closed = true;
    assert_eq!(
        render(&topology),
        Err(TopologyRenderError::PathTooShort { line: "red\"line".to_string(), path: 1, minimum: 3 })
    );

    let mut far = self::topology();
    far.stations[0].position.x = (-f64::MAX).to_bits();
    far.stations[1].position.x = f64::MAX.to_bits();
    assert_eq!(render(&far), Err(TopologyRenderError::CoordinateRange));
}
