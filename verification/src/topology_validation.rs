//! The invariants a topology must meet before it can be rendered.

use vstd::prelude::*;

use crate::float_bits::{finite_bits, is_finite_bits};
use crate::fold::{fold_state, lemma_fold_err_prefix, lemma_fold_full, lemma_fold_step};
use crate::text::{contains_text, copy_text, is_blank, is_blank_spec, texts};
use crate::topology::{station_ids, MetroTopology, TopologyLine, TopologyPath, TopologyStation};

verus! {

/// An error encountered while rendering a metro topology.
#[derive(Debug, PartialEq)]
pub enum TopologyRenderError {
    EmptyStationId,
    NonFinitePosition { station: String },
    DuplicateStation { station: String },
    EmptyLineId,
    DuplicateLine { line: String },
    UnknownStation { line: String, station: String },
    PathTooShort { line: String, path: usize, minimum: usize },
    DuplicateStationInPath { line: String, path: usize, station: String },
    CoordinateRange,
}

/// A [`TopologyRenderError`] with its texts as plain sequences.
pub enum TopologyFault {
    EmptyStationId,
    NonFinitePosition { station: Seq<char> },
    DuplicateStation { station: Seq<char> },
    EmptyLineId,
    DuplicateLine { line: Seq<char> },
    UnknownStation { line: Seq<char>, station: Seq<char> },
    PathTooShort { line: Seq<char>, path: int, minimum: int },
    DuplicateStationInPath { line: Seq<char>, path: int, station: Seq<char> },
    CoordinateRange,
}

impl View for TopologyRenderError {
    type V = TopologyFault;

    open spec fn view(&self) -> TopologyFault {
        match self {
            TopologyRenderError::EmptyStationId => TopologyFault::EmptyStationId,
            TopologyRenderError::NonFinitePosition { station } => TopologyFault::NonFinitePosition { station: station@ },
            TopologyRenderError::DuplicateStation { station } => TopologyFault::DuplicateStation { station: station@ },
            TopologyRenderError::EmptyLineId => TopologyFault::EmptyLineId,
            TopologyRenderError::DuplicateLine { line } => TopologyFault::DuplicateLine { line: line@ },
            TopologyRenderError::UnknownStation { line, station } => TopologyFault::UnknownStation {
                line: line@,
                station: station@,
            },
            TopologyRenderError::PathTooShort { line, path, minimum } => TopologyFault::PathTooShort {
                line: line@,
                path: *path as int,
                minimum: *minimum as int,
            },
            TopologyRenderError::DuplicateStationInPath { line, path, station } => TopologyFault::DuplicateStationInPath {
                line: line@,
                path: *path as int,
                station: station@,
            },
            TopologyRenderError::CoordinateRange => TopologyFault::CoordinateRange,
        }
    }
}

/// One station of the station pass: its id must not be blank, its position
/// finite, and its id new.
pub open spec fn station_step() -> spec_fn(Seq<Seq<char>>, TopologyStation) -> Result<Seq<Seq<char>>, TopologyFault> {
    |seen: Seq<Seq<char>>, st: TopologyStation|
        if is_blank_spec(st.id@) {
            Err(TopologyFault::EmptyStationId)
        } else if !is_finite_bits(st.position.x) || !is_finite_bits(st.position.y) {
            Err(TopologyFault::NonFinitePosition { station: st.id@ })
        } else if seen.contains(st.id@) {
            Err(TopologyFault::DuplicateStation { station: st.id@ })
        } else {
            Ok(seen.push(st.id@))
        }
}

/// One station reference of path `path` of line `line`: it must name a
/// known station that the path has not visited yet.
pub open spec fn reference_step(known: Seq<Seq<char>>, line: Seq<char>, path: int) -> spec_fn(Seq<Seq<char>>, String) -> Result<Seq<Seq<char>>, TopologyFault> {
    |seen: Seq<Seq<char>>, s: String|
        if !known.contains(s@) {
            Err(TopologyFault::UnknownStation { line, station: s@ })
        } else if seen.contains(s@) {
            Err(TopologyFault::DuplicateStationInPath { line, path, station: s@ })
        } else {
            Ok(seen.push(s@))
        }
}

/// The fewest stations a path may hold.
pub open spec fn minimum_stations(closed: bool) -> int {
    if closed { 3 } else { 2 }
}

/// One path of line `line`; the state counts the paths before it.
pub open spec fn path_step(known: Seq<Seq<char>>, line: Seq<char>) -> spec_fn(int, TopologyPath) -> Result<int, TopologyFault> {
    |count: int, p: TopologyPath|
        if p.stations@.len() < minimum_stations(p.closed) {
            Err(TopologyFault::PathTooShort { line, path: count + 1, minimum: minimum_stations(p.closed) })
        } else {
            match fold_state(p.stations@, Seq::<Seq<char>>::empty(), reference_step(known, line, count + 1)) {
                Err(e) => Err(e),
                Ok(_) => Ok(count + 1),
            }
        }
}

/// One line: its id must not be blank and must be new, and its paths valid.
pub open spec fn line_step(known: Seq<Seq<char>>) -> spec_fn(Seq<Seq<char>>, TopologyLine) -> Result<Seq<Seq<char>>, TopologyFault> {
    |seen: Seq<Seq<char>>, l: TopologyLine|
        if is_blank_spec(l.id@) {
            Err(TopologyFault::EmptyLineId)
        } else if seen.contains(l.id@) {
            Err(TopologyFault::DuplicateLine { line: l.id@ })
        } else {
            match fold_state(l.paths@, 0int, path_step(known, l.id@)) {
                Err(e) => Err(e),
                Ok(_) => Ok(seen.push(l.id@)),
            }
        }
}

/// The outcome of the station pass.
pub open spec fn station_pass(stations: Seq<TopologyStation>) -> Result<Seq<Seq<char>>, TopologyFault> {
    fold_state(stations, Seq::<Seq<char>>::empty(), station_step())
}

/// The outcome of the line pass.
pub open spec fn line_pass(t: MetroTopology) -> Result<Seq<Seq<char>>, TopologyFault> {
    fold_state(t.lines@, Seq::<Seq<char>>::empty(), line_step(station_ids(t.stations@)))
}

/// The first invariant that `t` breaks, stations first, then lines in
/// order; `in_range` says whether the rendered coordinates stay finite.
pub open spec fn topology_verdict(t: MetroTopology, in_range: bool) -> Result<(), TopologyFault> {
    match station_pass(t.stations@) {
        Err(e) => Err(e),
        Ok(_) => match line_pass(t) {
            Err(e) => Err(e),
            Ok(_) => if in_range { Ok(()) } else { Err(TopologyFault::CoordinateRange) },
        },
    }
}

/// The station pass (`station_index`): every station id is non-blank and
/// unique and every position finite.
pub fn station_index(stations: &Vec<TopologyStation>) -> (res: Result<Vec<String>, TopologyRenderError>)
    ensures
        match res {
            Ok(ids) => station_pass(stations@) == Ok::<Seq<Seq<char>>, TopologyFault>(texts(ids@)) && texts(ids@) == station_ids(stations@),
            Err(e) => station_pass(stations@) == Err::<Seq<Seq<char>>, TopologyFault>(e@),
        },
{
    let mut ids: Vec<String> = Vec::new();
    let mut i: usize = 0;
    proof {
        assert(texts(ids@) =~= Seq::<Seq<char>>::empty());
        assert(station_ids(stations@.take(0)) =~= Seq::<Seq<char>>::empty());
    }
    while i < stations.len()
        invariant
            i <= stations.len(),
            fold_state(stations@.take(i as int), Seq::<Seq<char>>::empty(), station_step()) == Ok::<Seq<Seq<char>>, TopologyFault>(texts(ids@)),
            texts(ids@) == station_ids(stations@.take(i as int)),
        decreases stations.len() - i,
    {
        let st = &stations[i];
        proof {
            lemma_fold_step(stations@, Seq::<Seq<char>>::empty(), station_step(), i as int);
        }
        let err: Option<TopologyRenderError> = if is_blank(st.id.as_str()) {
            Some(TopologyRenderError::EmptyStationId)
        } else if !finite_bits(st.position.x) || !finite_bits(st.position.y) {
            Some(TopologyRenderError::NonFinitePosition { station: copy_text(&st.id) })
        } else if contains_text(&ids, st.id.as_str()) {
            Some(TopologyRenderError::DuplicateStation { station: copy_text(&st.id) })
        } else {
            None
        };
        match err {
            Some(e) => {
                proof {
                    lemma_fold_err_prefix(stations@, Seq::<Seq<char>>::empty(), station_step(), i + 1);
                }
                return Err(e);
            },
            None => {},
        }
        let ghost before = ids@;
        ids.push(copy_text(&st.id));
        proof {
            assert(texts(ids@) =~= texts(before).push(st.id@));
            assert(station_ids(stations@.take(i + 1)) =~= station_ids(stations@.take(i as int)).push(st.id@));
        }
        i = i + 1;
    }
    proof {
        lemma_fold_full(stations@, Seq::<Seq<char>>::empty(), station_step());
        assert(stations@.take(stations@.len() as int) =~= stations@);
    }
    Ok(ids)
}

fn check_path(known: &Vec<String>, line: &String, number: usize, path: &TopologyPath) -> (res: Result<(), TopologyRenderError>)
    requires
        number >= 1,
    ensures
        match res {
            Ok(_) => path_step(texts(known@), line@)(number - 1, *path) == Ok::<int, TopologyFault>(number as int),
            Err(e) => path_step(texts(known@), line@)(number - 1, *path) == Err::<int, TopologyFault>(e@),
        },
{
    let minimum: usize = if path.closed { 3 } else { 2 };
    if path.stations.len() < minimum {
        return Err(TopologyRenderError::PathTooShort { line: copy_text(line), path: number, minimum });
    }
    let ghost f = reference_step(texts(known@), line@, number as int);
    let mut seen: Vec<String> = Vec::new();
    let mut k: usize = 0;
    proof {
        assert(texts(seen@) =~= Seq::<Seq<char>>::empty());
    }
    while k < path.stations.len()
        invariant
            k <= path.stations.len(),
            path.stations@.len() >= minimum_stations(path.closed),
            f == reference_step(texts(known@), line@, number as int),
            fold_state(path.stations@.take(k as int), Seq::<Seq<char>>::empty(), f) == Ok::<Seq<Seq<char>>, TopologyFault>(texts(seen@)),
        decreases path.stations.len() - k,
    {
        let s = &path.stations[k];
        proof {
            lemma_fold_step(path.stations@, Seq::<Seq<char>>::empty(), f, k as int);
        }
        let err: Option<TopologyRenderError> = if !contains_text(known, s.as_str()) {
            Some(TopologyRenderError::UnknownStation { line: copy_text(line), station: copy_text(s) })
        } else if contains_text(&seen, s.as_str()) {
            Some(TopologyRenderError::DuplicateStationInPath { line: copy_text(line), path: number, station: copy_text(s) })
        } else {
            None
        };
        match err {
            Some(e) => {
                proof {
                    lemma_fold_err_prefix(path.stations@, Seq::<Seq<char>>::empty(), f, k + 1);
                }
                return Err(e);
            },
            None => {},
        }
        let ghost before = seen@;
        seen.push(copy_text(s));
        proof {
            assert(texts(seen@) =~= texts(before).push(s@));
        }
        k = k + 1;
    }
    proof {
        lemma_fold_full(path.stations@, Seq::<Seq<char>>::empty(), f);
    }
    Ok(())
}

fn check_line(known: &Vec<String>, seen: &Vec<String>, line: &TopologyLine) -> (res: Result<(), TopologyRenderError>)
    ensures
        match res {
            Ok(_) => line_step(texts(known@))(texts(seen@), *line) == Ok::<Seq<Seq<char>>, TopologyFault>(texts(seen@).push(line.id@)),
            Err(e) => line_step(texts(known@))(texts(seen@), *line) == Err::<Seq<Seq<char>>, TopologyFault>(e@),
        },
{
    if is_blank(line.id.as_str()) {
        return Err(TopologyRenderError::EmptyLineId);
    }
    if contains_text(seen, line.id.as_str()) {
        return Err(TopologyRenderError::DuplicateLine { line: copy_text(&line.id) });
    }
    let ghost f = path_step(texts(known@), line.id@);
    let mut p: usize = 0;
    while p < line.paths.len()
        invariant
            p <= line.paths.len(),
            !is_blank_spec(line.id@),
            !texts(seen@).contains(line.id@),
            f == path_step(texts(known@), line.id@),
            fold_state(line.paths@.take(p as int), 0int, f) == Ok::<int, TopologyFault>(p as int),
        decreases line.paths.len() - p,
    {
        proof {
            lemma_fold_step(line.paths@, 0int, f, p as int);
        }
        match check_path(known, &line.id, p + 1, &line.paths[p]) {
            Err(e) => {
                proof {
                    lemma_fold_err_prefix(line.paths@, 0int, f, p + 1);
                }
                return Err(e);
            },
            Ok(_) => {},
        }
        p = p + 1;
    }
    proof {
        lemma_fold_full(line.paths@, 0int, f);
    }
    Ok(())
}

/// Validate all invariants required to render a topology graph.
///
/// `in_range` tells whether the viewport and the projection of every
/// station stay finite; it is computed from the coordinates by the
/// program around the library and only consulted once every other
/// invariant holds.
pub fn validate_topology(topology: &MetroTopology, in_range: bool) -> (res: Result<(), TopologyRenderError>)
    ensures
        match res {
            Ok(_) => topology_verdict(*topology, in_range) == Ok::<(), TopologyFault>(()),
            Err(e) => topology_verdict(*topology, in_range) == Err::<(), TopologyFault>(e@),
        },
{
    let known = match station_index(&topology.stations) {
        Ok(ids) => ids,
        Err(e) => return Err(e),
    };
    let ghost f = line_step(station_ids(topology.stations@));
    let mut seen: Vec<String> = Vec::new();
    let mut l: usize = 0;
    proof {
        assert(texts(seen@) =~= Seq::<Seq<char>>::empty());
    }
    while l < topology.lines.len()
        invariant
            l <= topology.lines.len(),
            texts(known@) == station_ids(topology.stations@),
            station_pass(topology.stations@) is Ok,
            f == line_step(station_ids(topology.stations@)),
            fold_state(topology.lines@.take(l as int), Seq::<Seq<char>>::empty(), f) == Ok::<Seq<Seq<char>>, TopologyFault>(texts(seen@)),
        decreases topology.lines.len() - l,
    {
        let line = &topology.lines[l];
        proof {
            lemma_fold_step(topology.lines@, Seq::<Seq<char>>::empty(), f, l as int);
        }
        match check_line(&known, &seen, line) {
            Err(e) => {
                proof {
                    lemma_fold_err_prefix(topology.lines@, Seq::<Seq<char>>::empty(), f, l + 1);
                }
                return Err(e);
            },
            Ok(_) => {},
        }
        let ghost before = seen@;
        seen.push(copy_text(&line.id));
        proof {
            assert(texts(seen@) =~= texts(before).push(line.id@));
        }
        l = l + 1;
    }
    proof {
        lemma_fold_full(topology.lines@, Seq::<Seq<char>>::empty(), f);
    }
    if in_range {
        Ok(())
    } else {
        Err(TopologyRenderError::CoordinateRange)
    }
}

} // verus!

verus! {

/// Both coordinates of the station are finite.
pub open spec fn position_finite(st: TopologyStation) -> bool {
    is_finite_bits(st.position.x) && is_finite_bits(st.position.y)
}

/// Station ids are non-blank and unique, and positions finite.
pub open spec fn stations_well_formed(s: Seq<TopologyStation>) -> bool {
    &&& forall|i: int| 0 <= i < s.len() ==> !is_blank_spec(#[trigger] s[i].id@)
    &&& forall|i: int| 0 <= i < s.len() ==> #[trigger] position_finite(s[i])
    &&& forall|i: int, j: int| 0 <= i < j < s.len() ==> (#[trigger] s[i]).id@ != (#[trigger] s[j]).id@
}

/// Every station a path names exists, none occurs twice, and the path is
/// long enough: two stations when open, three when closed.
pub open spec fn path_well_formed(known: Seq<Seq<char>>, p: TopologyPath) -> bool {
    &&& p.stations@.len() >= minimum_stations(p.closed)
    &&& forall|k: int| 0 <= k < p.stations@.len() ==> known.contains(#[trigger] p.stations@[k]@)
    &&& forall|a: int, b: int| 0 <= a < b < p.stations@.len() ==> (#[trigger] p.stations@[a])@ != (#[trigger] p.stations@[b])@
}

/// Line ids are non-blank and unique, and every path well formed.
pub open spec fn lines_well_formed(known: Seq<Seq<char>>, ls: Seq<TopologyLine>) -> bool {
    &&& forall|i: int| 0 <= i < ls.len() ==> !is_blank_spec(#[trigger] ls[i].id@)
    &&& forall|i: int, j: int| 0 <= i < j < ls.len() ==> (#[trigger] ls[i]).id@ != (#[trigger] ls[j]).id@
    &&& forall|i: int, p: int| 0 <= i < ls.len() && 0 <= p < ls[i].paths@.len() ==> path_well_formed(known, #[trigger] ls[i].paths@[p])
}

/// The invariants a renderable topology meets, as the manifest
/// documentation lists them (the coordinate range aside).
pub open spec fn topology_well_formed(t: MetroTopology) -> bool {
    stations_well_formed(t.stations@) && lines_well_formed(station_ids(t.stations@), t.lines@)
}

proof fn lemma_station_pass(s: Seq<TopologyStation>)
    ensures
        station_pass(s) is Ok <==> stations_well_formed(s),
        station_pass(s) is Ok ==> station_pass(s) == Ok::<Seq<Seq<char>>, TopologyFault>(station_ids(s)),
    decreases s.len(),
{
    if s.len() > 0 {
        let d = s.drop_last();
        lemma_station_pass(d);
        assert(station_ids(s) =~= station_ids(d).push(s.last().id@));
        if stations_well_formed(s) {
            assert(stations_well_formed(d)) by {
                assert forall|i: int, j: int| 0 <= i < j < d.len() implies (#[trigger] d[i]).id@ != (#[trigger] d[j]).id@ by {
                    assert(s[i] == d[i] && s[j] == d[j]);
                }
                assert forall|i: int| 0 <= i < d.len() implies !is_blank_spec(#[trigger] d[i].id@) by {
                    assert(s[i] == d[i]);
                }
                assert forall|i: int| 0 <= i < d.len() implies #[trigger] position_finite(d[i]) by {
                    assert(s[i] == d[i]);
                }
            }
            assert(!station_ids(d).contains(s.last().id@)) by {
                if station_ids(d).contains(s.last().id@) {
                    let i = choose|i: int| 0 <= i < station_ids(d).len() && station_ids(d)[i] == s.last().id@;
                    assert(s[i] == d[i]);
                    assert(s[i].id@ != s[s.len() - 1].id@);
                }
            }
            assert(!is_blank_spec(s[s.len() - 1].id@));
            assert(position_finite(s[s.len() - 1]));
        }
        if station_pass(s) is Ok {
            assert(station_pass(d) is Ok);
            let last = s.last();
            assert(!station_ids(d).contains(last.id@));
            assert forall|i: int, j: int| 0 <= i < j < s.len() implies (#[trigger] s[i]).id@ != (#[trigger] s[j]).id@ by {
                if j < s.len() - 1 {
                    assert(s[i] == d[i] && s[j] == d[j]);
                } else {
                    assert(s[i] == d[i]);
                    assert(station_ids(d)[i] == s[i].id@);
                }
            }
            assert forall|i: int| 0 <= i < s.len() implies !is_blank_spec(#[trigger] s[i].id@) by {
                if i < s.len() - 1 {
                    assert(s[i] == d[i]);
                }
            }
            assert forall|i: int| 0 <= i < s.len() implies #[trigger] position_finite(s[i]) by {
                if i < s.len() - 1 {
                    assert(s[i] == d[i]);
                }
            }
        }
    } else {
        assert(station_ids(s) =~= Seq::<Seq<char>>::empty());
    }
}

proof fn lemma_reference_pass(known: Seq<Seq<char>>, line: Seq<char>, path: int, s: Seq<String>)
    ensures
        fold_state(s, Seq::<Seq<char>>::empty(), reference_step(known, line, path)) is Ok <==> {
            &&& forall|k: int| 0 <= k < s.len() ==> known.contains(#[trigger] s[k]@)
            &&& forall|a: int, b: int| 0 <= a < b < s.len() ==> (#[trigger] s[a])@ != (#[trigger] s[b])@
        },
        fold_state(s, Seq::<Seq<char>>::empty(), reference_step(known, line, path)) is Ok
            ==> fold_state(s, Seq::<Seq<char>>::empty(), reference_step(known, line, path)) == Ok::<Seq<Seq<char>>, TopologyFault>(texts(s)),
    decreases s.len(),
{
    let f = reference_step(known, line, path);
    if s.len() > 0 {
        let d = s.drop_last();
        lemma_reference_pass(known, line, path, d);
        assert(texts(s) =~= texts(d).push(s.last()@));
        let all_known = forall|k: int| 0 <= k < s.len() ==> known.contains(#[trigger] s[k]@);
        let distinct = forall|a: int, b: int| 0 <= a < b < s.len() ==> (#[trigger] s[a])@ != (#[trigger] s[b])@;
        if all_known && distinct {
            assert forall|k: int| 0 <= k < d.len() implies known.contains(#[trigger] d[k]@) by {
                assert(s[k] == d[k]);
            }
            assert forall|a: int, b: int| 0 <= a < b < d.len() implies (#[trigger] d[a])@ != (#[trigger] d[b])@ by {
                assert(s[a] == d[a] && s[b] == d[b]);
            }
            assert(!texts(d).contains(s.last()@)) by {
                if texts(d).contains(s.last()@) {
                    let i = choose|i: int| 0 <= i < texts(d).len() && texts(d)[i] == s.last()@;
                    assert(s[i] == d[i]);
                }
            }
            assert(known.contains(s[s.len() - 1]@));
        }
        if fold_state(s, Seq::<Seq<char>>::empty(), f) is Ok {
            assert(fold_state(d, Seq::<Seq<char>>::empty(), f) is Ok);
            assert forall|k: int| 0 <= k < s.len() implies known.contains(#[trigger] s[k]@) by {
                if k < s.len() - 1 {
                    assert(s[k] == d[k]);
                }
            }
            assert forall|a: int, b: int| 0 <= a < b < s.len() implies (#[trigger] s[a])@ != (#[trigger] s[b])@ by {
                if b < s.len() - 1 {
                    assert(s[a] == d[a] && s[b] == d[b]);
                } else {
                    assert(s[a] == d[a]);
                    assert(texts(d)[a] == s[a]@);
                }
            }
        }
    } else {
        assert(texts(s) =~= Seq::<Seq<char>>::empty());
    }
}

proof fn lemma_path_pass(known: Seq<Seq<char>>, line: Seq<char>, ps: Seq<TopologyPath>)
    ensures
        fold_state(ps, 0int, path_step(known, line)) is Ok <==> forall|p: int| 0 <= p < ps.len() ==> path_well_formed(known, #[trigger] ps[p]),
        fold_state(ps, 0int, path_step(known, line)) is Ok ==> fold_state(ps, 0int, path_step(known, line)) == Ok::<int, TopologyFault>(ps.len() as int),
    decreases ps.len(),
{
    let f = path_step(known, line);
    if ps.len() > 0 {
        let d = ps.drop_last();
        lemma_path_pass(known, line, d);
        let last = ps.last();
        lemma_reference_pass(known, line, (d.len() + 1) as int, last.stations@);
        if forall|p: int| 0 <= p < ps.len() ==> path_well_formed(known, #[trigger] ps[p]) {
            assert forall|p: int| 0 <= p < d.len() implies path_well_formed(known, #[trigger] d[p]) by {
                assert(ps[p] == d[p]);
            }
            assert(path_well_formed(known, ps[ps.len() - 1]));
        }
        if fold_state(ps, 0int, f) is Ok {
            assert(fold_state(d, 0int, f) is Ok);
            assert forall|p: int| 0 <= p < ps.len() implies path_well_formed(known, #[trigger] ps[p]) by {
                if p < ps.len() - 1 {
                    assert(ps[p] == d[p]);
                }
            }
        }
    }
}

proof fn lemma_line_pass(known: Seq<Seq<char>>, ls: Seq<TopologyLine>)
    ensures
        fold_state(ls, Seq::<Seq<char>>::empty(), line_step(known)) is Ok <==> lines_well_formed(known, ls),
        fold_state(ls, Seq::<Seq<char>>::empty(), line_step(known)) is Ok
            ==> fold_state(ls, Seq::<Seq<char>>::empty(), line_step(known)) == Ok::<Seq<Seq<char>>, TopologyFault>(ls.map_values(|l: TopologyLine| l.id@)),
    decreases ls.len(),
{
    let f = line_step(known);
    let ids = ls.map_values(|l: TopologyLine| l.id@);
    if ls.len() > 0 {
        let d = ls.drop_last();
        let dids = d.map_values(|l: TopologyLine| l.id@);
        lemma_line_pass(known, d);
        let last = ls.last();
        lemma_path_pass(known, last.id@, last.paths@);
        assert(ids =~= dids.push(last.id@));
        if lines_well_formed(known, ls) {
            assert(lines_well_formed(known, d)) by {
                assert forall|i: int| 0 <= i < d.len() implies !is_blank_spec(#[trigger] d[i].id@) by {
                    assert(ls[i] == d[i]);
                }
                assert forall|i: int, j: int| 0 <= i < j < d.len() implies (#[trigger] d[i]).id@ != (#[trigger] d[j]).id@ by {
                    assert(ls[i] == d[i] && ls[j] == d[j]);
                }
                assert forall|i: int, p: int| 0 <= i < d.len() && 0 <= p < d[i].paths@.len() implies path_well_formed(known, #[trigger] d[i].paths@[p]) by {
                    assert(ls[i] == d[i]);
                }
            }
            assert(!dids.contains(last.id@)) by {
                if dids.contains(last.id@) {
                    let i = choose|i: int| 0 <= i < dids.len() && dids[i] == last.id@;
                    assert(ls[i] == d[i]);
                    assert(ls[i].id@ != ls[ls.len() - 1].id@);
                }
            }
            assert(!is_blank_spec(ls[ls.len() - 1].id@));
            assert forall|p: int| 0 <= p < last.paths@.len() implies path_well_formed(known, #[trigger] last.paths@[p]) by {
                assert(path_well_formed(known, ls[ls.len() - 1].paths@[p]));
            }
        }
        if fold_state(ls, Seq::<Seq<char>>::empty(), f) is Ok {
            assert(fold_state(d, Seq::<Seq<char>>::empty(), f) is Ok);
            assert forall|i: int| 0 <= i < ls.len() implies !is_blank_spec(#[trigger] ls[i].id@) by {
                if i < ls.len() - 1 {
                    assert(ls[i] == d[i]);
                }
            }
            assert forall|i: int, j: int| 0 <= i < j < ls.len() implies (#[trigger] ls[i]).id@ != (#[trigger] ls[j]).id@ by {
                if j < ls.len() - 1 {
                    assert(ls[i] == d[i] && ls[j] == d[j]);
                } else {
                    assert(ls[i] == d[i]);
                    assert(dids[i] == ls[i].id@);
                }
            }
            assert forall|i: int, p: int| 0 <= i < ls.len() && 0 <= p < ls[i].paths@.len() implies path_well_formed(known, #[trigger] ls[i].paths@[p]) by {
                if i < ls.len() - 1 {
                    assert(ls[i] == d[i]);
                }
            }
        }
    } else {
        assert(ids =~= Seq::<Seq<char>>::empty());
    }
}

/// A topology passes validation exactly when it meets the documented
/// invariants (non-blank unique station and line ids, finite positions,
/// known and non-repeated path stations, long enough paths) and its
/// coordinates stay in range.
pub proof fn lemma_validation_characterized(t: MetroTopology, in_range: bool)
    ensures
        topology_verdict(t, in_range) is Ok <==> topology_well_formed(t) && in_range,
{
    lemma_station_pass(t.stations@);
    lemma_line_pass(station_ids(t.stations@), t.lines@);
}

} // verus!
