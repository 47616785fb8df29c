use metro_draw::names::LocalizedNames;
use metro_draw::render::{render_topology_svg, MapLayout, ProjectedStation, RenderError};
use metro_draw::topology::{MetroTopology, TopologyLine, TopologyPath, TopologyPosition, TopologyStation};

const SCALE: f64 = 80.0;
const PADDING: f64 = 48.0;
const LABEL_SPACE: f64 = 160.0;

fn names(locale: &str, name: &str) -> LocalizedNames {
    let mut names = LocalizedNames::new();
    names.insert(locale.to_string(), vec![name.to_string()]);
    names
}

fn position(x: f64, y: f64) -> TopologyPosition {
    TopologyPosition { x: x.to_bits(), y: y.to_bits() }
}

fn station(id: &str, names: LocalizedNames, x: f64, y: f64) -> TopologyStation {
    TopologyStation { id: id.to_string(), names, position: position(x, y) }
}

fn map() -> MetroTopology {
    MetroTopology {
        stations: vec![
            station("south&west", names("en", "South <West>"), -1.0, 1.0),
            station("north", names("en", "North"), 1.0, 3.0),
        ],
        lines: vec![TopologyLine {
            id: "red\"line".to_string(),
            names: LocalizedNames::new(),
            color: "#f00".to_string(),
            paths: vec![TopologyPath {
                stations: vec!["south&west".to_string(), "north".to_string()],
                closed: true,
            }],
        }],
    }
}

fn number(value: f64) -> String {
    let value = if value == 0.0 { 0.0 } else { value };
    let formatted = format!("{value:.3}");
    formatted.trim_end_matches('0').trim_end_matches('.').to_owned()
}

/// The projection the renderer expects, computed as the command line does.
fn layout(map: &MetroTopology) -> MapLayout {
    let xs: Vec<f64> = map.stations.iter().map(|s| f64::from_bits(s.position.x)).collect();
    let ys: Vec<f64> = map.stations.iter().map(|s| f64::from_bits(s.position.y)).collect();
    let (mut min_x, mut max_x, mut min_y, mut max_y) = (0.0, 0.0, 0.0, 0.0);
    if !xs.is_empty() {
        min_x = xs[0];
        max_x = xs[0];
        min_y = ys[0];
        max_y = ys[0];
        for i in 1..xs.len() {
            min_x = f64::min(min_x, xs[i]);
            max_x = f64::max(max_x, xs[i]);
            min_y = f64::min(min_y, ys[i]);
            max_y = f64::max(max_y, ys[i]);
        }
    }
    let width = (max_x - min_x) * SCALE + PADDING * 2.0 + LABEL_SPACE;
    let height = (max_y - min_y) * SCALE + PADDING * 2.0;
    let viewport = if width.is_finite() && height.is_finite() {
        Some((number(width), number(height)))
    } else {
        None
    };
    let stations = xs
        .iter()
        .zip(ys.iter())
        .map(|(x, y)| {
            let px = (x - min_x) * SCALE + PADDING;
            let py = (max_y - y) * SCALE + PADDING;
            if px.is_finite() && py.is_finite() {
                Some(ProjectedStation { x: number(px), y: number(py), label_x: number(px + 13.0) })
            } else {
                None
            }
        })
        .collect();
    MapLayout { viewport, stations }
}

fn render(map: &MetroTopology) -> Result<String, RenderError> {
    render_topology_svg(map, &layout(map))
}

#[test]
fn render_renders_paths_stations_labels_and_cartesian_y_axis() {
    let svg = render(&map()).unwrap();

    assert!(svg.starts_with("<svg xmlns=\"http://www.w3.org/2000/svg\""));
    assert!(svg.contains("data-line-id=\"red&quot;line\""));
    assert!(svg.contains("d=\"M48 208 L208 48 Z\""));
    assert!(svg.contains("data-station-id=\"south&amp;west\""));
    assert!(svg.contains(">South &lt;West&gt;</text>"));
    assert!(svg.ends_with("</svg>\n"));
}

#[test]
fn render_reports_unknown_stations() {
    let mut map = map();
    map.lines[0].paths[0].stations.push("missing".to_string());

    assert_eq!(
        render(&map),
        Err(RenderError::UnknownStation {
            line: "red\"line".to_string(),
            station: "missing".to_string(),
        })
    );
}

#[test]
fn renders_an_empty_map() {
    let svg = render(&MetroTopology { stations: vec![], lines: vec![] }).unwrap();

    assert!(svg.contains("viewBox=\"0 0 256 96\""));
}

#[test]
fn render_draws_the_whole_document_in_order() {
    let svg = render(&map()).unwrap();
    let expected = [
        "<svg xmlns=\"http://www.w3.org/2000/svg\" viewBox=\"0 0 416 256\" width=\"416\" height=\"256\" role=\"img\">\n",
        "  <title>Metro topology map</title>\n",
        "  <g fill=\"none\" stroke-linecap=\"round\" stroke-linejoin=\"round\">\n",
        "    <path data-line-id=\"red&quot;line\" d=\"M48 208 L208 48 Z\" stroke=\"#f00\" stroke-width=\"8\" />\n",
        "  </g>\n",
        "  <g font-family=\"sans-serif\" font-size=\"14\">\n",
        "    <g data-station-id=\"south&amp;west\"><circle cx=\"48\" cy=\"208\" r=\"7\" fill=\"white\" stroke=\"#222\" stroke-width=\"3\" /><text x=\"61\" y=\"208\" dominant-baseline=\"middle\">South &lt;West&gt;</text></g>\n",
        "    <g data-station-id=\"north\"><circle cx=\"208\" cy=\"48\" r=\"7\" fill=\"white\" stroke=\"#222\" stroke-width=\"3\" /><text x=\"221\" y=\"48\" dominant-baseline=\"middle\">North</text></g>\n",
        "  </g>\n",
        "</svg>\n",
    ]
    .concat();
    assert_eq!(svg, expected);
}

#[test]
fn render_skips_empty_paths_and_leaves_open_paths_open() {
    let mut map = map();
    map.lines[0].paths[0].closed = false;
    map.lines[0].paths.push(TopologyPath { stations: vec![], closed: true });
    let svg = render(&map).unwrap();

    assert!(svg.contains("d=\"M48 208 L208 48\" stroke"));
    assert_eq!(svg.matches("<path ").count(), 1);
}

#[test]
fn render_reports_non_finite_and_duplicate_stations() {
    let mut map = map();
    map.stations[1].position = position(f64::INFINITY, 3.0);
    assert_eq!(
        render(&map),
        Err(RenderError::NonFinitePosition { station: "north".to_string() })
    );

    let mut map = self::map();
    map.stations[1].id = "south&west".to_string();
    assert_eq!(
        render(&map),
        Err(RenderError::DuplicateStation { station: "south&west".to_string() })
    );
}

#[test]
fn render_reports_coordinates_out_of_range() {
    let mut map = map();
    map.stations[0].position = position(-f64::MAX, 1.0);
    map.stations[1].position = position(f64::MAX, 3.0);
    assert_eq!(render(&map), Err(RenderError::CoordinateRange));
}

#[test]
fn render_labels_fall_back_to_other_locales_then_the_id() {
    let mut map = map();
    map.stations[0].names = names("zh-CN", "西南");
    map.stations[1].names = LocalizedNames::new();
    let svg = render(&map).unwrap();

    assert!(svg.contains(">西南</text>"));
    assert!(svg.contains(">north</text>"));
}
