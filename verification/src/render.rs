//! SVG rendering of a topology graph in which every line path is drawn as
//! one polyline.
//!
//! Manifest positions are Cartesian coordinates. Projecting them onto the
//! canvas and printing the projected numbers is binary64 arithmetic, done by
//! the program around the library; it hands the results over as a
//! [`MapLayout`]. Everything else (which stations exist, which references
//! resolve, the order of errors, escaping and the markup) is decided here.

use vstd::prelude::*;

use crate::float_bits::{finite_bits, is_finite_bits};
use crate::fold::{fold_state, lemma_fold_err_prefix, lemma_fold_full, lemma_fold_step};
use crate::names::label_spec;
use crate::text::{
    contains_text, copy_text, find_text, first_index, lemma_first_index_found, texts, xml_escape, xml_escape_spec,
};
use crate::topology::{station_ids, MetroTopology, TopologyLine, TopologyPath, TopologyStation};

verus! {

/// An error encountered while rendering a metro map.
#[derive(Debug, PartialEq)]
pub enum RenderError {
    NonFinitePosition { station: String },
    DuplicateStation { station: String },
    UnknownStation { line: String, station: String },
    CoordinateRange,
}

/// A [`RenderError`] with its texts as plain sequences.
pub enum RenderFault {
    NonFinitePosition { station: Seq<char> },
    DuplicateStation { station: Seq<char> },
    UnknownStation { line: Seq<char>, station: Seq<char> },
    CoordinateRange,
}

impl View for RenderError {
    type V = RenderFault;

    open spec fn view(&self) -> RenderFault {
        match self {
            RenderError::NonFinitePosition { station } => RenderFault::NonFinitePosition { station: station@ },
            RenderError::DuplicateStation { station } => RenderFault::DuplicateStation { station: station@ },
            RenderError::UnknownStation { line, station } => RenderFault::UnknownStation {
                line: line@,
                station: station@,
            },
            RenderError::CoordinateRange => RenderFault::CoordinateRange,
        }
    }
}

/// Where a station lands on the canvas, as printed numbers: its centre and
/// the start of its label.
pub struct ProjectedStation {
    pub x: String,
    pub y: String,
    pub label_x: String,
}

/// The numeric part of a rendering: the printed canvas size, unless it is not
/// finite, and the projection of each station, in manifest order, unless it is
/// not finite.
pub struct MapLayout {
    pub viewport: Option<(String, String)>,
    pub stations: Vec<Option<ProjectedStation>>,
}

/// One station of the station pass: its position must be finite and its id
/// new.
pub open spec fn render_station_step() -> spec_fn(Seq<Seq<char>>, TopologyStation) -> Result<Seq<Seq<char>>, RenderFault> {
    |seen: Seq<Seq<char>>, st: TopologyStation|
        if !is_finite_bits(st.position.x) || !is_finite_bits(st.position.y) {
            Err(RenderFault::NonFinitePosition { station: st.id@ })
        } else if seen.contains(st.id@) {
            Err(RenderFault::DuplicateStation { station: st.id@ })
        } else {
            Ok(seen.push(st.id@))
        }
}

/// The path command that visits the `k`-th station of a path at `p`.
pub open spec fn point_text(k: int, p: ProjectedStation) -> Seq<char> {
    (if k == 0 { "M"@ } else { " L"@ }) + p.x@ + " "@ + p.y@
}

/// One station reference of a path of line `line`; the state counts the
/// points so far and holds the path data.
pub open spec fn point_step(ids: Seq<Seq<char>>, layout: Seq<Option<ProjectedStation>>, line: Seq<char>) -> spec_fn((int, Seq<char>), String) -> Result<(int, Seq<char>), RenderFault> {
    |st: (int, Seq<char>), s: String|
        if first_index(ids, s@) < 0 {
            Err(RenderFault::UnknownStation { line, station: s@ })
        } else {
            match layout[first_index(ids, s@)] {
                None => Err(RenderFault::CoordinateRange),
                Some(p) => Ok((st.0 + 1, st.1 + point_text(st.0, p))),
            }
        }
}

/// The element that draws one path of `line` with path data `data`.
pub open spec fn path_element(line: TopologyLine, data: Seq<char>) -> Seq<char> {
    "    <path data-line-id=\""@ + xml_escape_spec(line.id@) + "\" d=\""@ + data + "\" stroke=\""@
        + xml_escape_spec(line.color@) + "\" stroke-width=\"8\" />\n"@
}

/// A closed path of more than one station returns to its start.
pub open spec fn closing_text(p: TopologyPath) -> Seq<char> {
    if p.closed && p.stations@.len() > 1 { " Z"@ } else { Seq::empty() }
}

/// One path of `line`: empty paths draw nothing.
pub open spec fn path_render_step(ids: Seq<Seq<char>>, layout: Seq<Option<ProjectedStation>>, line: TopologyLine) -> spec_fn(Seq<char>, TopologyPath) -> Result<Seq<char>, RenderFault> {
    |text: Seq<char>, p: TopologyPath|
        if p.stations@.len() == 0 {
            Ok(text)
        } else {
            match fold_state(p.stations@, (0int, Seq::<char>::empty()), point_step(ids, layout, line.id@)) {
                Err(e) => Err(e),
                Ok(r) => Ok(text + path_element(line, r.1 + closing_text(p))),
            }
        }
}

/// One line: its paths in order.
pub open spec fn line_render_step(ids: Seq<Seq<char>>, layout: Seq<Option<ProjectedStation>>) -> spec_fn(Seq<char>, TopologyLine) -> Result<Seq<char>, RenderFault> {
    |text: Seq<char>, l: TopologyLine| fold_state(l.paths@, text, path_render_step(ids, layout, l))
}

/// The group that draws one station and its label.
pub open spec fn station_element(st: TopologyStation, p: ProjectedStation) -> Seq<char> {
    "    <g data-station-id=\""@ + xml_escape_spec(st.id@) + "\"><circle cx=\""@ + p.x@ + "\" cy=\""@ + p.y@
        + "\" r=\"7\" fill=\"white\" stroke=\"#222\" stroke-width=\"3\" /><text x=\""@ + p.label_x@
        + "\" y=\""@ + p.y@ + "\" dominant-baseline=\"middle\">"@ + xml_escape_spec(label_spec(st.names@, st.id@))
        + "</text></g>\n"@
}

/// One station of the label pass; the state counts the stations so far.
pub open spec fn station_render_step(layout: Seq<Option<ProjectedStation>>) -> spec_fn((int, Seq<char>), TopologyStation) -> Result<(int, Seq<char>), RenderFault> {
    |st: (int, Seq<char>), s: TopologyStation|
        match layout[st.0] {
            None => Err(RenderFault::CoordinateRange),
            Some(p) => Ok((st.0 + 1, st.1 + station_element(s, p))),
        }
}

/// The opening of the document for a canvas `w` wide and `h` high.
pub open spec fn svg_header(w: Seq<char>, h: Seq<char>) -> Seq<char> {
    "<svg xmlns=\"http://www.w3.org/2000/svg\" viewBox=\"0 0 "@ + w + " "@ + h + "\" width=\""@ + w
        + "\" height=\""@ + h + "\" role=\"img\">\n"@ + "  <title>Metro topology map</title>\n"@
        + "  <g fill=\"none\" stroke-linecap=\"round\" stroke-linejoin=\"round\">\n"@
}

pub open spec fn svg_middle() -> Seq<char> {
    "  </g>\n"@ + "  <g font-family=\"sans-serif\" font-size=\"14\">\n"@
}

pub open spec fn svg_footer() -> Seq<char> {
    "  </g>\n"@ + "</svg>\n"@
}

/// The SVG document for `map` laid out by `layout`, or the first error:
/// station positions and ids first, then the canvas, then the paths in
/// order, then the stations.
pub open spec fn render_spec(map: MetroTopology, layout: MapLayout) -> Result<Seq<char>, RenderFault> {
    let ids = station_ids(map.stations@);
    let places = layout.stations@;
    match fold_state(map.stations@, Seq::<Seq<char>>::empty(), render_station_step()) {
        Err(e) => Err(e),
        Ok(_) => match layout.viewport {
            None => Err(RenderFault::CoordinateRange),
            Some(v) => match fold_state(map.lines@, svg_header(v.0@, v.1@), line_render_step(ids, places)) {
                Err(e) => Err(e),
                Ok(t) => match fold_state(map.stations@, (0int, t + svg_middle()), station_render_step(places)) {
                    Err(e) => Err(e),
                    Ok(r) => Ok(r.1 + svg_footer()),
                },
            },
        },
    }
}

fn render_station_index(stations: &Vec<TopologyStation>) -> (res: Result<Vec<String>, RenderError>)
    ensures
        match res {
            Ok(ids) => fold_state(stations@, Seq::<Seq<char>>::empty(), render_station_step()) is Ok
                && texts(ids@) == station_ids(stations@),
            Err(e) => fold_state(stations@, Seq::<Seq<char>>::empty(), render_station_step()) == Err::<Seq<Seq<char>>, RenderFault>(e@),
        },
{
    let mut ids: Vec<String> = Vec::new();
    let mut i: usize = 0;
    proof {
        assert(texts(ids@) =~= Seq::<Seq<char>>::empty());
        assert(station_ids(stations@.take(0)) =~= Seq::<Seq<char>>::empty());
    }
    while i < stations.len()
        invariant
            i <= stations.len(),
            fold_state(stations@.take(i as int), Seq::<Seq<char>>::empty(), render_station_step()) == Ok::<Seq<Seq<char>>, RenderFault>(texts(ids@)),
            texts(ids@) == station_ids(stations@.take(i as int)),
        decreases stations.len() - i,
    {
        let st = &stations[i];
        proof {
            lemma_fold_step(stations@, Seq::<Seq<char>>::empty(), render_station_step(), i as int);
        }
        let err: Option<RenderError> = if !finite_bits(st.position.x) || !finite_bits(st.position.y) {
            Some(RenderError::NonFinitePosition { station: copy_text(&st.id) })
        } else if contains_text(&ids, st.id.as_str()) {
            Some(RenderError::DuplicateStation { station: copy_text(&st.id) })
        } else {
            None
        };
        match err {
            Some(e) => {
                proof {
                    lemma_fold_err_prefix(stations@, Seq::<Seq<char>>::empty(), render_station_step(), i + 1);
                }
                return Err(e);
            },
            None => {},
        }
        let ghost before = ids@;
        ids.push(copy_text(&st.id));
        proof {
            assert(texts(ids@) =~= texts(before).push(st.id@));
            assert(station_ids(stations@.take(i + 1)) =~= station_ids(stations@.take(i as int)).push(st.id@));
        }
        i = i + 1;
    }
    proof {
        lemma_fold_full(stations@, Seq::<Seq<char>>::empty(), render_station_step());
        assert(stations@.take(stations@.len() as int) =~= stations@);
    }
    Ok(ids)
}

/// The path data of `path`, or the first reference that fails.
fn path_data(ids: &Vec<String>, layout: &MapLayout, line: &TopologyLine, path: &TopologyPath) -> (res: Result<String, RenderError>)
    requires
        layout.stations@.len() == ids@.len(),
    ensures
        match res {
            Ok(d) => fold_state(path.stations@, (0int, Seq::<char>::empty()), point_step(texts(ids@), layout.stations@, line.id@))
                == Ok::<(int, Seq<char>), RenderFault>((path.stations@.len() as int, d@)),
            Err(e) => fold_state(path.stations@, (0int, Seq::<char>::empty()), point_step(texts(ids@), layout.stations@, line.id@))
                == Err::<(int, Seq<char>), RenderFault>(e@),
        },
{
    let ghost f = point_step(texts(ids@), layout.stations@, line.id@);
    let mut data = String::new();
    let mut k: usize = 0;
    while k < path.stations.len()
        invariant
            k <= path.stations.len(),
            layout.stations@.len() == ids@.len(),
            f == point_step(texts(ids@), layout.stations@, line.id@),
            fold_state(path.stations@.take(k as int), (0int, Seq::<char>::empty()), f) == Ok::<(int, Seq<char>), RenderFault>((k as int, data@)),
        decreases path.stations.len() - k,
    {
        let s = &path.stations[k];
        proof {
            lemma_fold_step(path.stations@, (0int, Seq::<char>::empty()), f, k as int);
        }
        let index = match find_text(ids, s.as_str()) {
            Some(index) => index,
            None => {
                proof {
                    lemma_fold_err_prefix(path.stations@, (0int, Seq::<char>::empty()), f, k + 1);
                }
                return Err(RenderError::UnknownStation { line: copy_text(&line.id), station: copy_text(s) });
            },
        };
        match &layout.stations[index] {
            None => {
                proof {
                    lemma_fold_err_prefix(path.stations@, (0int, Seq::<char>::empty()), f, k + 1);
                }
                return Err(RenderError::CoordinateRange);
            },
            Some(p) => {
                let ghost before = data@;
                if k == 0 {
                    data.append("M");
                } else {
                    data.append(" L");
                }
                data.append(p.x.as_str());
                data.append(" ");
                data.append(p.y.as_str());
                proof {
                    assert(data@ =~= before + point_text(k as int, *p));
                    assert(f((k as int, before), path.stations@[k as int]) == Ok::<(int, Seq<char>), RenderFault>((k + 1, data@)));
                }
            },
        }
        k = k + 1;
    }
    proof {
        lemma_fold_full(path.stations@, (0int, Seq::<char>::empty()), f);
    }
    Ok(data)
}

pub(crate) fn push_path_element(svg: &mut String, line: &TopologyLine, data: &String)
    ensures
        final(svg)@ == old(svg)@ + path_element(*line, data@),
{
    let ghost before = svg@;
    let id = xml_escape(line.id.as_str());
    let color = xml_escape(line.color.as_str());
    svg.append("    <path data-line-id=\"");
    svg.append(id.as_str());
    svg.append("\" d=\"");
    svg.append(data.as_str());
    svg.append("\" stroke=\"");
    svg.append(color.as_str());
    svg.append("\" stroke-width=\"8\" />\n");
    proof {
        assert(svg@ =~= before + path_element(*line, data@));
    }
}

pub(crate) fn push_station_element(svg: &mut String, st: &TopologyStation, p: &ProjectedStation)
    ensures
        final(svg)@ == old(svg)@ + station_element(*st, *p),
{
    let ghost before = svg@;
    let id = xml_escape(st.id.as_str());
    let label = xml_escape(st.names.label(&st.id).as_str());
    svg.append("    <g data-station-id=\"");
    svg.append(id.as_str());
    svg.append("\"><circle cx=\"");
    svg.append(p.x.as_str());
    svg.append("\" cy=\"");
    svg.append(p.y.as_str());
    svg.append("\" r=\"7\" fill=\"white\" stroke=\"#222\" stroke-width=\"3\" /><text x=\"");
    svg.append(p.label_x.as_str());
    svg.append("\" y=\"");
    svg.append(p.y.as_str());
    svg.append("\" dominant-baseline=\"middle\">");
    svg.append(label.as_str());
    svg.append("</text></g>\n");
    proof {
        assert(svg@ =~= before + station_element(*st, *p));
    }
}

pub(crate) fn push_header(svg: &mut String, w: &String, h: &String)
    ensures
        final(svg)@ == old(svg)@ + svg_header(w@, h@),
{
    let ghost before = svg@;
    svg.append("<svg xmlns=\"http://www.w3.org/2000/svg\" viewBox=\"0 0 ");
    svg.append(w.as_str());
    svg.append(" ");
    svg.append(h.as_str());
    svg.append("\" width=\"");
    svg.append(w.as_str());
    svg.append("\" height=\"");
    svg.append(h.as_str());
    svg.append("\" role=\"img\">\n");
    svg.append("  <title>Metro topology map</title>\n");
    svg.append("  <g fill=\"none\" stroke-linecap=\"round\" stroke-linejoin=\"round\">\n");
    proof {
        assert(svg@ =~= before + svg_header(w@, h@));
    }
}

/// Draw the paths of `line` after what `svg` holds.
fn render_line(svg: &mut String, ids: &Vec<String>, layout: &MapLayout, line: &TopologyLine) -> (res: Result<(), RenderError>)
    requires
        layout.stations@.len() == ids@.len(),
    ensures
        match res {
            Ok(_) => line_render_step(texts(ids@), layout.stations@)(old(svg)@, *line) == Ok::<Seq<char>, RenderFault>(final(svg)@),
            Err(e) => line_render_step(texts(ids@), layout.stations@)(old(svg)@, *line) == Err::<Seq<char>, RenderFault>(e@),
        },
{
    let ghost h = path_render_step(texts(ids@), layout.stations@, *line);
    let ghost start = svg@;
    assert(start == old(svg)@);
    let mut p: usize = 0;
    while p < line.paths.len()
        invariant
            p <= line.paths.len(),
            layout.stations@.len() == ids@.len(),
            h == path_render_step(texts(ids@), layout.stations@, *line),
            start == old(svg)@,
            fold_state(line.paths@.take(p as int), start, h) == Ok::<Seq<char>, RenderFault>(svg@),
        decreases line.paths.len() - p,
    {
        let path = &line.paths[p];
        proof {
            lemma_fold_step(line.paths@, start, h, p as int);
        }
        if path.stations.len() > 0 {
            let mut data = match path_data(ids, layout, line, path) {
                Ok(d) => d,
                Err(e) => {
                    proof {
                        assert(h(svg@, line.paths@[p as int]) == Err::<Seq<char>, RenderFault>(e@));
                        assert(fold_state(line.paths@.take(p + 1), start, h) == Err::<Seq<char>, RenderFault>(e@));
                        lemma_fold_err_prefix(line.paths@, start, h, p + 1);
                        assert(fold_state(line.paths@, start, h) == Err::<Seq<char>, RenderFault>(e@));
                        assert(line_render_step(texts(ids@), layout.stations@)(start, *line) == fold_state(line.paths@, start, h));
                    }
                    return Err(e);
                },
            };
            if path.closed && path.stations.len() > 1 {
                data.append(" Z");
            }
            push_path_element(svg, line, &data);
        }
        p = p + 1;
    }
    proof {
        lemma_fold_full(line.paths@, start, h);
    }
    Ok(())
}

/// Draw every station after what `svg` holds.
fn render_stations(svg: &mut String, map: &MetroTopology, layout: &MapLayout) -> (res: Result<(), RenderError>)
    requires
        layout.stations@.len() == map.stations@.len(),
    ensures
        match res {
            Ok(_) => fold_state(map.stations@, (0int, old(svg)@), station_render_step(layout.stations@))
                == Ok::<(int, Seq<char>), RenderFault>((map.stations@.len() as int, final(svg)@)),
            Err(e) => fold_state(map.stations@, (0int, old(svg)@), station_render_step(layout.stations@))
                == Err::<(int, Seq<char>), RenderFault>(e@),
        },
{
    let ghost t0 = svg@;
    let ghost k = station_render_step(layout.stations@);
    let mut i: usize = 0;
    while i < map.stations.len()
        invariant
            i <= map.stations.len(),
            layout.stations@.len() == map.stations@.len(),
            k == station_render_step(layout.stations@),
            t0 == old(svg)@,
            fold_state(map.stations@.take(i as int), (0int, t0), k) == Ok::<(int, Seq<char>), RenderFault>((i as int, svg@)),
        decreases map.stations.len() - i,
    {
        let st = &map.stations[i];
        proof {
            lemma_fold_step(map.stations@, (0int, t0), k, i as int);
        }
        match &layout.stations[i] {
            None => {
                proof {
                    assert(layout.stations@[i as int] is None);
                    assert(k((i as int, svg@), map.stations@[i as int]) == Err::<(int, Seq<char>), RenderFault>(RenderFault::CoordinateRange));
                    assert(fold_state(map.stations@.take(i + 1), (0int, t0), k) == Err::<(int, Seq<char>), RenderFault>(RenderFault::CoordinateRange));
                    lemma_fold_err_prefix(map.stations@, (0int, t0), k, i + 1);
                    assert(fold_state(map.stations@, (0int, t0), k) == Err::<(int, Seq<char>), RenderFault>(RenderFault::CoordinateRange));
                }
                return Err(RenderError::CoordinateRange);
            },
            Some(p) => {
                push_station_element(svg, st, p);
            },
        }
        i = i + 1;
    }
    proof {
        lemma_fold_full(map.stations@, (0int, t0), k);
    }
    Ok(())
}

/// Render a map as an SVG topology graph.
///
/// Manifest positions are treated as Cartesian coordinates, so increasing
/// `y` is rendered upwards; `layout` holds the projected, printed numbers
/// for `map`. Each line path is drawn in its configured color; closed paths
/// are joined back to their first station.
pub fn render_topology_svg(map: &MetroTopology, layout: &MapLayout) -> (res: Result<String, RenderError>)
    requires
        layout.stations@.len() == map.stations@.len(),
    ensures
        match res {
            Ok(svg) => render_spec(*map, *layout) == Ok::<Seq<char>, RenderFault>(svg@),
            Err(e) => render_spec(*map, *layout) == Err::<Seq<char>, RenderFault>(e@),
        },
{
    let ids = match render_station_index(&map.stations) {
        Ok(ids) => ids,
        Err(e) => return Err(e),
    };
    proof {
        assert(texts(ids@).len() == ids@.len());
        assert(station_ids(map.stations@).len() == map.stations@.len());
    }
    let ghost g = line_render_step(texts(ids@), layout.stations@);
    let (w, h) = match &layout.viewport {
        None => return Err(RenderError::CoordinateRange),
        Some(v) => (&v.0, &v.1),
    };
    let mut svg = String::new();
    push_header(&mut svg, w, h);
    let ghost header = svg_header(w@, h@);
    proof {
        assert(svg@ =~= header);
    }
    let mut l: usize = 0;
    while l < map.lines.len()
        invariant
            l <= map.lines.len(),
            layout.stations@.len() == ids@.len(),
            layout.stations@.len() == map.stations@.len(),
            fold_state(map.stations@, Seq::<Seq<char>>::empty(), render_station_step()) is Ok,
            texts(ids@) == station_ids(map.stations@),
            layout.viewport is Some,
            header == svg_header(layout.viewport->Some_0.0@, layout.viewport->Some_0.1@),
            g == line_render_step(texts(ids@), layout.stations@),
            fold_state(map.lines@.take(l as int), header, g) == Ok::<Seq<char>, RenderFault>(svg@),
        decreases map.lines.len() - l,
    {
        proof {
            lemma_fold_step(map.lines@, header, g, l as int);
        }
        match render_line(&mut svg, &ids, layout, &map.lines[l]) {
            Err(e) => {
                proof {
                    lemma_fold_err_prefix(map.lines@, header, g, l + 1);
                }
                return Err(e);
            },
            Ok(_) => {},
        }
        l = l + 1;
    }
    proof {
        lemma_fold_full(map.lines@, header, g);
    }
    let ghost t = svg@;
    svg.append("  </g>\n");
    svg.append("  <g font-family=\"sans-serif\" font-size=\"14\">\n");
    proof {
        assert(svg@ =~= t + svg_middle());
    }
    match render_stations(&mut svg, map, layout) {
        Err(e) => return Err(e),
        Ok(_) => {},
    }
    let ghost u = svg@;
    svg.append("  </g>\n");
    svg.append("</svg>\n");
    proof {
        assert(svg@ =~= u + svg_footer());
    }
    Ok(svg)
}

} // verus!

verus! {

/// Every number of `layout` is finite, and it covers `n` stations.
pub open spec fn layout_in_range(layout: MapLayout, n: int) -> bool {
    &&& layout.viewport is Some
    &&& layout.stations@.len() == n
    &&& forall|i: int| 0 <= i < n ==> (#[trigger] layout.stations@[i]) is Some
}

proof fn lemma_render_stations_ok(s: Seq<TopologyStation>)
    requires
        crate::topology_validation::stations_well_formed(s),
    ensures
        fold_state(s, Seq::<Seq<char>>::empty(), render_station_step()) == Ok::<Seq<Seq<char>>, RenderFault>(station_ids(s)),
    decreases s.len(),
{
    if s.len() > 0 {
        let d = s.drop_last();
        assert(crate::topology_validation::stations_well_formed(d)) by {
            assert forall|i: int, j: int| 0 <= i < j < d.len() implies (#[trigger] d[i]).id@ != (#[trigger] d[j]).id@ by {
                assert(s[i] == d[i] && s[j] == d[j]);
            }
            assert forall|i: int| 0 <= i < d.len() implies !crate::text::is_blank_spec(#[trigger] d[i].id@) by {
                assert(s[i] == d[i]);
            }
            assert forall|i: int| 0 <= i < d.len() implies #[trigger] crate::topology_validation::position_finite(d[i]) by {
                assert(s[i] == d[i]);
            }
        }
        lemma_render_stations_ok(d);
        assert(station_ids(s) =~= station_ids(d).push(s.last().id@));
        assert(crate::topology_validation::position_finite(s[s.len() - 1]));
        assert(!station_ids(d).contains(s.last().id@)) by {
            if station_ids(d).contains(s.last().id@) {
                let i = choose|i: int| 0 <= i < station_ids(d).len() && station_ids(d)[i] == s.last().id@;
                assert(s[i] == d[i]);
                assert(s[i].id@ != s[s.len() - 1].id@);
            }
        }
    } else {
        assert(station_ids(s) =~= Seq::<Seq<char>>::empty());
    }
}

proof fn lemma_points_ok(ids: Seq<Seq<char>>, places: Seq<Option<ProjectedStation>>, line: Seq<char>, s: Seq<String>, init: (int, Seq<char>))
    requires
        places.len() == ids.len(),
        forall|i: int| 0 <= i < places.len() ==> (#[trigger] places[i]) is Some,
        forall|k: int| 0 <= k < s.len() ==> ids.contains(#[trigger] s[k]@),
    ensures
        fold_state(s, init, point_step(ids, places, line)) is Ok,
    decreases s.len(),
{
    if s.len() > 0 {
        let d = s.drop_last();
        assert forall|k: int| 0 <= k < d.len() implies ids.contains(#[trigger] d[k]@) by {
            assert(s[k] == d[k]);
        }
        lemma_points_ok(ids, places, line, d, init);
        assert(ids.contains(s[s.len() - 1]@));
        crate::text::lemma_first_index_contains(ids, s.last()@);
    }
}

/// The fold over a path's stations counts them.
proof fn lemma_points_count(ids: Seq<Seq<char>>, places: Seq<Option<ProjectedStation>>, line: Seq<char>, s: Seq<String>)
    requires
        fold_state(s, (0int, Seq::<char>::empty()), point_step(ids, places, line)) is Ok,
    ensures
        fold_state(s, (0int, Seq::<char>::empty()), point_step(ids, places, line))->Ok_0.0 == s.len(),
    decreases s.len(),
{
    if s.len() > 0 {
        lemma_points_count(ids, places, line, s.drop_last());
    }
}

/// The path data of a single station is a move to where it is placed.
pub proof fn lemma_path_data_starts_with_move(ids: Seq<Seq<char>>, places: Seq<Option<ProjectedStation>>, line: Seq<char>, a: String, j: int, p: ProjectedStation)
    requires
        0 <= j < ids.len(),
        ids[j] == a@,
        forall|i: int| 0 <= i < j ==> ids[i] != a@,
        places[j] == Some(p),
    ensures
        fold_state(seq![a], (0int, Seq::<char>::empty()), point_step(ids, places, line))
            == Ok::<(int, Seq<char>), RenderFault>((1int, "M"@ + p.x@ + " "@ + p.y@)),
{
    lemma_first_index_found(ids, a@, j);
    let f = point_step(ids, places, line);
    assert(seq![a].drop_last() =~= Seq::<String>::empty());
    assert(seq![a].last() == a);
    assert(fold_state(Seq::<String>::empty(), (0int, Seq::<char>::empty()), f) == Ok::<(int, Seq<char>), RenderFault>((0int, Seq::<char>::empty())));
    assert(Seq::<char>::empty() + point_text(0, p) =~= "M"@ + p.x@ + " "@ + p.y@);
}

/// Every station after the first is drawn to: extending a path by one more
/// station appends a line-to its place, and leaves the data before it as it
/// was.
pub proof fn lemma_path_data_appends_line(ids: Seq<Seq<char>>, places: Seq<Option<ProjectedStation>>, line: Seq<char>, s: Seq<String>, a: String, j: int, p: ProjectedStation)
    requires
        s.len() > 0,
        fold_state(s, (0int, Seq::<char>::empty()), point_step(ids, places, line)) is Ok,
        0 <= j < ids.len(),
        ids[j] == a@,
        forall|i: int| 0 <= i < j ==> ids[i] != a@,
        places[j] == Some(p),
    ensures
        fold_state(s.push(a), (0int, Seq::<char>::empty()), point_step(ids, places, line))
            == Ok::<(int, Seq<char>), RenderFault>((s.len() + 1int, fold_state(s, (0int, Seq::<char>::empty()), point_step(ids, places, line))->Ok_0.1 + " L"@ + p.x@ + " "@ + p.y@)),
{
    lemma_first_index_found(ids, a@, j);
    lemma_points_count(ids, places, line, s);
    assert(s.push(a).drop_last() =~= s);
    let d = fold_state(s, (0int, Seq::<char>::empty()), point_step(ids, places, line))->Ok_0.1;
    assert(d + ((" L"@ + p.x@) + " "@ + p.y@) =~= d + " L"@ + p.x@ + " "@ + p.y@);
}

/// A closed path of two or more stations returns to its start: its data
/// ends with a close-path command after the commands that visit its
/// stations; an open path, or a path of one station, ends with them.
pub proof fn lemma_path_closes_when_closed(ids: Seq<Seq<char>>, places: Seq<Option<ProjectedStation>>, line: TopologyLine, text: Seq<char>, p: TopologyPath)
    requires
        p.stations@.len() > 0,
        fold_state(p.stations@, (0int, Seq::<char>::empty()), point_step(ids, places, line.id@)) is Ok,
    ensures
        ({
            let d = fold_state(p.stations@, (0int, Seq::<char>::empty()), point_step(ids, places, line.id@))->Ok_0.1;
            &&& p.closed && p.stations@.len() > 1 ==> path_render_step(ids, places, line)(text, p)
                == Ok::<Seq<char>, RenderFault>(text + path_element(line, d + " Z"@))
            &&& !(p.closed && p.stations@.len() > 1) ==> path_render_step(ids, places, line)(text, p)
                == Ok::<Seq<char>, RenderFault>(text + path_element(line, d))
        }),
{
    let d = fold_state(p.stations@, (0int, Seq::<char>::empty()), point_step(ids, places, line.id@))->Ok_0.1;
    assert(d + Seq::<char>::empty() =~= d);
}

proof fn lemma_paths_ok(ids: Seq<Seq<char>>, places: Seq<Option<ProjectedStation>>, line: TopologyLine, ps: Seq<TopologyPath>, init: Seq<char>)
    requires
        places.len() == ids.len(),
        forall|i: int| 0 <= i < places.len() ==> (#[trigger] places[i]) is Some,
        forall|p: int| 0 <= p < ps.len() ==> crate::topology_validation::path_well_formed(ids, #[trigger] ps[p]),
    ensures
        fold_state(ps, init, path_render_step(ids, places, line)) is Ok,
    decreases ps.len(),
{
    if ps.len() > 0 {
        let d = ps.drop_last();
        assert forall|p: int| 0 <= p < d.len() implies crate::topology_validation::path_well_formed(ids, #[trigger] d[p]) by {
            assert(ps[p] == d[p]);
        }
        lemma_paths_ok(ids, places, line, d, init);
        assert(crate::topology_validation::path_well_formed(ids, ps[ps.len() - 1]));
        lemma_points_ok(ids, places, line.id@, ps.last().stations@, (0int, Seq::<char>::empty()));
    }
}

proof fn lemma_lines_ok(ids: Seq<Seq<char>>, places: Seq<Option<ProjectedStation>>, ls: Seq<TopologyLine>, init: Seq<char>)
    requires
        places.len() == ids.len(),
        forall|i: int| 0 <= i < places.len() ==> (#[trigger] places[i]) is Some,
        crate::topology_validation::lines_well_formed(ids, ls),
    ensures
        fold_state(ls, init, line_render_step(ids, places)) is Ok,
    decreases ls.len(),
{
    if ls.len() > 0 {
        let d = ls.drop_last();
        assert(crate::topology_validation::lines_well_formed(ids, d)) by {
            assert forall|i: int| 0 <= i < d.len() implies !crate::text::is_blank_spec(#[trigger] d[i].id@) by {
                assert(ls[i] == d[i]);
            }
            assert forall|i: int, j: int| 0 <= i < j < d.len() implies (#[trigger] d[i]).id@ != (#[trigger] d[j]).id@ by {
                assert(ls[i] == d[i] && ls[j] == d[j]);
            }
            assert forall|i: int, p: int| 0 <= i < d.len() && 0 <= p < d[i].paths@.len() implies crate::topology_validation::path_well_formed(ids, #[trigger] d[i].paths@[p]) by {
                assert(ls[i] == d[i]);
            }
        }
        lemma_lines_ok(ids, places, d, init);
        let t = fold_state(d, init, line_render_step(ids, places))->Ok_0;
        let last = ls.last();
        assert forall|p: int| 0 <= p < last.paths@.len() implies crate::topology_validation::path_well_formed(ids, #[trigger] last.paths@[p]) by {
            assert(crate::topology_validation::path_well_formed(ids, ls[ls.len() - 1].paths@[p]));
        }
        lemma_paths_ok(ids, places, last, last.paths@, t);
    }
}

proof fn lemma_station_elements_ok(s: Seq<TopologyStation>, places: Seq<Option<ProjectedStation>>, t: Seq<char>)
    requires
        places.len() >= s.len(),
        forall|i: int| 0 <= i < places.len() ==> (#[trigger] places[i]) is Some,
    ensures
        fold_state(s, (0int, t), station_render_step(places)) is Ok,
        fold_state(s, (0int, t), station_render_step(places))->Ok_0.0 == s.len(),
    decreases s.len(),
{
    if s.len() > 0 {
        lemma_station_elements_ok(s.drop_last(), places, t);
        let k = fold_state(s.drop_last(), (0int, t), station_render_step(places))->Ok_0.0;
        assert(places[k] is Some);
    }
}

/// A topology that passes validation renders: when `validate_topology`
/// accepts it with the coordinates in range, the renderer draws it without
/// error from a layout whose numbers are all finite.
pub proof fn lemma_valid_topology_renders(t: MetroTopology, layout: MapLayout)
    requires
        crate::topology_validation::topology_verdict(t, layout_in_range(layout, t.stations@.len() as int)) is Ok,
    ensures
        render_spec(t, layout) is Ok,
{
    crate::topology_validation::lemma_validation_characterized(t, layout_in_range(layout, t.stations@.len() as int));
    lemma_render_stations_ok(t.stations@);
    let ids = station_ids(t.stations@);
    let places = layout.stations@;
    let v = layout.viewport->Some_0;
    lemma_lines_ok(ids, places, t.lines@, svg_header(v.0@, v.1@));
    let text = fold_state(t.lines@, svg_header(v.0@, v.1@), line_render_step(ids, places))->Ok_0;
    lemma_station_elements_ok(t.stations@, places, text + svg_middle());
}

} // verus!
