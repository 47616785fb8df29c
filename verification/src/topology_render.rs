//! Which lines share which track segments of a topology graph.
//!
//! The renderer draws every segment of a path on its own; when several
//! lines run between the same two stations, each gets a lane, in line
//! order, so that their strokes sit side by side. The offsets and the SVG
//! path data are binary64 arithmetic, done by the program around the
//! library from the lanes computed here.

use vstd::prelude::*;

use crate::text::{compare_text, copy_text, lemma_text_lt_irreflexive, lemma_text_lt_total, lemma_text_lt_transitive, text_lt, texts, TextOrder};
use crate::render::{
    path_element, push_header, push_path_element, push_station_element, station_element, svg_footer, svg_header,
    svg_middle, ProjectedStation,
};
use crate::topology::{MetroTopology, TopologyLine, TopologyPath, TopologyStation};
use crate::topology_validation::{topology_verdict, validate_topology, TopologyFault, TopologyRenderError};

verus! {

/// `a <= b` in `String` order.
pub open spec fn text_le(a: Seq<char>, b: Seq<char>) -> bool {
    a == b || text_lt(a, b)
}

/// The undirected segment between two stations, its ends in `String` order.
pub open spec fn segment_key_spec(a: Seq<char>, b: Seq<char>) -> (Seq<char>, Seq<char>) {
    if text_le(a, b) { (a, b) } else { (b, a) }
}

/// An undirected segment between two stations, its ends in `String` order.
#[derive(Clone, Debug, PartialEq, Eq)]
pub struct SegmentKey {
    pub first: String,
    pub second: String,
}

impl SegmentKey {
    pub open spec fn spec_key(&self) -> (Seq<char>, Seq<char>) {
        (self.first@, self.second@)
    }

    pub fn new(first: &str, second: &str) -> (res: Self)
        ensures
            res.spec_key() == segment_key_spec(first@, second@),
    {
        match compare_text(first, second) {
            TextOrder::Greater => SegmentKey { first: second.to_owned(), second: first.to_owned() },
            _ => SegmentKey { first: first.to_owned(), second: second.to_owned() },
        }
    }

    /// Whether a segment starting at `start` runs from the key's first end.
    pub fn is_forward(&self, start: &str) -> (res: bool)
        ensures
            res == (self.first@ == start@),
    {
        compare_text(self.first.as_str(), start) == TextOrder::Equal
    }
}

/// The key of a segment does not depend on its direction.
pub proof fn lemma_segment_key_undirected(a: Seq<char>, b: Seq<char>)
    ensures
        segment_key_spec(a, b) == segment_key_spec(b, a),
        segment_key_spec(a, b).0 == a || segment_key_spec(a, b).0 == b,
        text_le(segment_key_spec(a, b).0, segment_key_spec(a, b).1),
{
    if a != b {
        lemma_text_lt_total(a, b);
        if text_lt(a, b) && text_lt(b, a) {
            lemma_text_lt_transitive(a, b, a);
            lemma_text_lt_irreflexive(a);
        }
    }
}

/// The segments a path draws, in order: each station to the next, and for a
/// closed path of more than one station the last back to the first.
pub open spec fn path_segments_spec(s: Seq<Seq<char>>, closed: bool) -> Seq<(Seq<char>, Seq<char>)> {
    let adjacent = if s.len() >= 2 { (s.len() - 1) as nat } else { 0 };
    Seq::new(adjacent, |i: int| (s[i], s[i + 1])) + if closed && s.len() > 1 {
        seq![(s.last(), s[0])]
    } else {
        Seq::empty()
    }
}

/// The segments of a path of at least two stations run end to end: the
/// first starts at the first station, each starts where the one before it
/// ends, the last ends at the last station of an open path and back at the
/// first of a closed one, and there are as many as the path has legs.
pub proof fn lemma_path_segments_chain(s: Seq<Seq<char>>, closed: bool)
    requires
        s.len() >= 2,
    ensures
        path_segments_spec(s, closed).len() == (if closed { s.len() as int } else { s.len() - 1 }),
        path_segments_spec(s, closed)[0].0 == s[0],
        forall|i: int| 0 <= i < path_segments_spec(s, closed).len() - 1
            ==> (#[trigger] path_segments_spec(s, closed)[i]).1 == path_segments_spec(s, closed)[i + 1].0,
        path_segments_spec(s, closed).last().1 == (if closed { s[0] } else { s.last() }),
        forall|i: int| 0 <= i < path_segments_spec(s, closed).len()
            ==> s.contains((#[trigger] path_segments_spec(s, closed)[i]).0) && s.contains(path_segments_spec(s, closed)[i].1),
{
    let n = s.len() as int;
    let adjacent = Seq::new((n - 1) as nat, |i: int| (s[i], s[i + 1]));
    let segs = path_segments_spec(s, closed);
    assert(segs[0] == adjacent[0]);
    assert forall|i: int| 0 <= i < segs.len() - 1 implies (#[trigger] segs[i]).1 == segs[i + 1].0 by {
        assert(segs[i] == adjacent[i]);
        if i + 1 < n - 1 {
            assert(segs[i + 1] == adjacent[i + 1]);
        } else {
            assert(segs[i + 1] == (s.last(), s[0]));
        }
    }
    assert forall|i: int| 0 <= i < segs.len() implies s.contains((#[trigger] segs[i]).0) && s.contains(segs[i].1) by {
        if i < n - 1 {
            assert(segs[i] == adjacent[i]);
            assert(s[i] == segs[i].0);
            assert(s[i + 1] == segs[i].1);
        } else {
            assert(segs[i] == (s.last(), s[0]));
            assert(s[n - 1] == segs[i].0);
        }
    }
    if !closed {
        assert(segs.last() == adjacent[n - 2]);
    }
}

pub open spec fn pairs_view(v: Seq<(String, String)>) -> Seq<(Seq<char>, Seq<char>)> {
    v.map_values(|p: (String, String)| (p.0@, p.1@))
}

/// The segments `path` draws.
pub fn path_segments(path: &TopologyPath) -> (res: Vec<(String, String)>)
    ensures
        pairs_view(res@) == path_segments_spec(texts(path.stations@), path.closed),
{
    let ghost s = texts(path.stations@);
    let mut res: Vec<(String, String)> = Vec::new();
    let n = path.stations.len();
    let mut i: usize = 0;
    while i + 1 < n
        invariant
            n == path.stations@.len(),
            s == texts(path.stations@),
            i <= n,
            n >= 1 ==> i < n,
            pairs_view(res@) =~= Seq::new(i as nat, |k: int| (s[k], s[k + 1])),
        decreases n - i,
    {
        let ghost before = res@;
        res.push((copy_text(&path.stations[i]), copy_text(&path.stations[i + 1])));
        proof {
            assert(s[i as int] == path.stations@[i as int]@);
            assert(s[i + 1] == path.stations@[i + 1]@);
            assert(pairs_view(res@) =~= pairs_view(before).push((s[i as int], s[i + 1])));
        }
        i = i + 1;
    }
    let ghost adjacent = pairs_view(res@);
    if path.closed && n > 1 {
        res.push((copy_text(&path.stations[n - 1]), copy_text(&path.stations[0])));
        proof {
            assert(pairs_view(res@) =~= adjacent.push((s.last(), s[0])));
        }
    }
    proof {
        if n >= 2 {
            assert(i == n - 1);
        } else {
            assert(i == 0);
        }
        assert(pairs_view(res@) =~= path_segments_spec(s, path.closed));
    }
    res
}

/// The keys of the segments of one path, in order.
pub open spec fn path_keys(p: TopologyPath) -> Seq<(Seq<char>, Seq<char>)> {
    path_segments_spec(texts(p.stations@), p.closed).map_values(|s: (Seq<char>, Seq<char>)| segment_key_spec(s.0, s.1))
}

/// The keys of the segments of some paths, in order.
pub open spec fn paths_keys(paths: Seq<TopologyPath>) -> Seq<(Seq<char>, Seq<char>)>
    decreases paths.len(),
{
    if paths.len() == 0 {
        Seq::empty()
    } else {
        paths_keys(paths.drop_last()) + path_keys(paths.last())
    }
}

/// Whether line `l` draws a segment with key `key`.
pub open spec fn line_uses(l: TopologyLine, key: (Seq<char>, Seq<char>)) -> bool {
    paths_keys(l.paths@).contains(key)
}

/// Whether some line of `lines` draws a segment with key `key`.
pub open spec fn drawn_by_some_line(lines: Seq<TopologyLine>, key: (Seq<char>, Seq<char>)) -> bool {
    exists|m: int| 0 <= m < lines.len() && #[trigger] line_uses(lines[m], key)
}

/// The lanes of `key` among the first `upto` lines: the indices of the
/// lines that draw it, ascending.
pub open spec fn lanes_spec(lines: Seq<TopologyLine>, key: (Seq<char>, Seq<char>), upto: int) -> Seq<usize>
    decreases upto,
{
    if upto <= 0 {
        Seq::empty()
    } else if line_uses(lines[upto - 1], key) {
        lanes_spec(lines, key, upto - 1).push((upto - 1) as usize)
    } else {
        lanes_spec(lines, key, upto - 1)
    }
}

pub open spec fn keys_view(v: Seq<SegmentKey>) -> Seq<(Seq<char>, Seq<char>)> {
    v.map_values(|k: SegmentKey| k.spec_key())
}

/// The keys of the segments `line` draws, in order.
fn line_keys(line: &TopologyLine) -> (res: Vec<SegmentKey>)
    ensures
        keys_view(res@) == paths_keys(line.paths@),
{
    let mut res: Vec<SegmentKey> = Vec::new();
    let mut p: usize = 0;
    proof {
        assert(keys_view(res@) =~= paths_keys(line.paths@.take(0)));
    }
    while p < line.paths.len()
        invariant
            p <= line.paths@.len(),
            keys_view(res@) == paths_keys(line.paths@.take(p as int)),
        decreases line.paths@.len() - p,
    {
        let segments = path_segments(&line.paths[p]);
        let ghost sp = path_segments_spec(texts(line.paths@[p as int].stations@), line.paths@[p as int].closed);
        let ghost base = keys_view(res@);
        let mut j: usize = 0;
        proof {
            assert(keys_view(res@) =~= base + path_keys(line.paths@[p as int]).take(0));
        }
        while j < segments.len()
            invariant
                j <= segments@.len(),
                pairs_view(segments@) == sp,
                sp == path_segments_spec(texts(line.paths@[p as int].stations@), line.paths@[p as int].closed),
                keys_view(res@) == base + path_keys(line.paths@[p as int]).take(j as int),
            decreases segments@.len() - j,
        {
            let k = SegmentKey::new(segments[j].0.as_str(), segments[j].1.as_str());
            proof {
                assert(sp[j as int] == (segments@[j as int].0@, segments@[j as int].1@));
            }
            let ghost before = res@;
            res.push(k);
            proof {
                assert(keys_view(res@) =~= keys_view(before).push(k.spec_key()));
                assert(path_keys(line.paths@[p as int]).take(j + 1) =~= path_keys(line.paths@[p as int]).take(j as int).push(k.spec_key()));
            }
            j = j + 1;
        }
        proof {
            assert(path_keys(line.paths@[p as int]).take(j as int) =~= path_keys(line.paths@[p as int]));
            assert(line.paths@.take(p + 1).drop_last() =~= line.paths@.take(p as int));
        }
        p = p + 1;
    }
    proof {
        assert(line.paths@.take(line.paths@.len() as int) =~= line.paths@);
    }
    res
}

/// Whether `keys` holds `key`.
fn holds_key(keys: &Vec<SegmentKey>, key: &SegmentKey) -> (res: bool)
    ensures
        res == keys_view(keys@).contains(key.spec_key()),
{
    let mut a: usize = 0;
    while a < keys.len()
        invariant
            a <= keys@.len(),
            forall|b: int| 0 <= b < a ==> keys_view(keys@)[b] != key.spec_key(),
        decreases keys@.len() - a,
    {
        if compare_text(keys[a].first.as_str(), key.first.as_str()) == TextOrder::Equal
            && compare_text(keys[a].second.as_str(), key.second.as_str()) == TextOrder::Equal {
            proof {
                assert(keys_view(keys@)[a as int] == key.spec_key());
            }
            return true;
        }
        a = a + 1;
    }
    false
}

/// The lanes of `key`: which lines draw it, in line order.
fn lanes_of(lines: &Vec<TopologyLine>, key: &SegmentKey) -> (res: Vec<usize>)
    ensures
        res@ == lanes_spec(lines@, key.spec_key(), lines@.len() as int),
{
    let mut res: Vec<usize> = Vec::new();
    let mut l: usize = 0;
    while l < lines.len()
        invariant
            l <= lines@.len(),
            res@ == lanes_spec(lines@, key.spec_key(), l as int),
        decreases lines@.len() - l,
    {
        let keys = line_keys(&lines[l]);
        if holds_key(&keys, key) {
            res.push(l);
        }
        l = l + 1;
    }
    res
}

/// For every segment any line draws, its lanes: the lines that draw it, in
/// line order. Each key occurs once, and only keys some line draws occur.
pub fn segment_lanes(topology: &MetroTopology) -> (res: Vec<(SegmentKey, Vec<usize>)>)
    ensures
        forall|a: int, b: int| 0 <= a < b < res@.len() ==> (#[trigger] res@[a]).0.spec_key() != (#[trigger] res@[b]).0.spec_key(),
        forall|a: int| 0 <= a < res@.len() ==> (#[trigger] res@[a]).1@ == lanes_spec(topology.lines@, res@[a].0.spec_key(), topology.lines@.len() as int),
        forall|a: int| 0 <= a < res@.len() ==> drawn_by_some_line(topology.lines@, (#[trigger] res@[a]).0.spec_key()),
        forall|l: int, key: (Seq<char>, Seq<char>)| 0 <= l < topology.lines@.len() && #[trigger] line_uses(topology.lines@[l], key)
            ==> keys_view(res@.map_values(|e: (SegmentKey, Vec<usize>)| e.0)).contains(key),
{
    let mut keys: Vec<SegmentKey> = Vec::new();
    let mut l: usize = 0;
    while l < topology.lines.len()
        invariant
            l <= topology.lines@.len(),
            keys_view(keys@).no_duplicates(),
            forall|a: int| 0 <= a < keys@.len() ==> drawn_by_some_line(topology.lines@, (#[trigger] keys@[a]).spec_key()),
            forall|m: int, key: (Seq<char>, Seq<char>)| 0 <= m < l && #[trigger] line_uses(topology.lines@[m], key)
                ==> keys_view(keys@).contains(key),
        decreases topology.lines@.len() - l,
    {
        let line_ks = line_keys(&topology.lines[l]);
        let mut j: usize = 0;
        while j < line_ks.len()
            invariant
                l < topology.lines@.len(),
                j <= line_ks@.len(),
                keys_view(line_ks@) == paths_keys(topology.lines@[l as int].paths@),
                keys_view(keys@).no_duplicates(),
                forall|a: int| 0 <= a < keys@.len() ==> drawn_by_some_line(topology.lines@, (#[trigger] keys@[a]).spec_key()),
                forall|m: int, key: (Seq<char>, Seq<char>)| 0 <= m < l && #[trigger] line_uses(topology.lines@[m], key)
                    ==> keys_view(keys@).contains(key),
                forall|jj: int| 0 <= jj < j ==> keys_view(keys@).contains(#[trigger] keys_view(line_ks@)[jj]),
            decreases line_ks@.len() - j,
        {
            let k = &line_ks[j];
            proof {
                assert(keys_view(line_ks@)[j as int] == k.spec_key());
                assert(line_uses(topology.lines@[l as int], k.spec_key()));
            }
            if !holds_key(&keys, k) {
                let ghost before = keys@;
                keys.push(SegmentKey { first: copy_text(&k.first), second: copy_text(&k.second) });
                proof {
                    assert(keys_view(keys@) =~= keys_view(before).push(k.spec_key()));
                    assert forall|a: int| 0 <= a < keys@.len() implies drawn_by_some_line(topology.lines@, (#[trigger] keys@[a]).spec_key()) by {
                        if a < before.len() {
                            assert(keys@[a] == before[a]);
                        } else {
                            assert(line_uses(topology.lines@[l as int], keys@[a].spec_key()));
                        }
                    }
                    assert forall|x: (Seq<char>, Seq<char>)| keys_view(before).contains(x) implies keys_view(keys@).contains(x) by {
                        let i = choose|i: int| 0 <= i < keys_view(before).len() && keys_view(before)[i] == x;
                        assert(keys_view(keys@)[i] == x);
                    }
                    assert(keys_view(keys@)[before.len() as int] == k.spec_key());
                }
            }
            j = j + 1;
        }
        proof {
            assert forall|m: int, key: (Seq<char>, Seq<char>)| 0 <= m < l + 1 && #[trigger] line_uses(topology.lines@[m], key)
                implies keys_view(keys@).contains(key) by {
                if m == l {
                    let i = choose|i: int| 0 <= i < paths_keys(topology.lines@[l as int].paths@).len() && paths_keys(topology.lines@[l as int].paths@)[i] == key;
                    assert(keys_view(line_ks@)[i] == key);
                }
            }
        }
        l = l + 1;
    }
    let mut res: Vec<(SegmentKey, Vec<usize>)> = Vec::new();
    let mut a: usize = 0;
    while a < keys.len()
        invariant
            a <= keys@.len(),
            res@.len() == a,
            forall|b: int| 0 <= b < a ==> (#[trigger] res@[b]).0.spec_key() == keys@[b].spec_key(),
            forall|b: int| 0 <= b < a ==> (#[trigger] res@[b]).1@ == lanes_spec(topology.lines@, keys@[b].spec_key(), topology.lines@.len() as int),
        decreases keys@.len() - a,
    {
        let lanes = lanes_of(&topology.lines, &keys[a]);
        let key = SegmentKey { first: copy_text(&keys[a].first), second: copy_text(&keys[a].second) };
        res.push((key, lanes));
        a = a + 1;
    }
    proof {
        assert(keys_view(res@.map_values(|e: (SegmentKey, Vec<usize>)| e.0)) =~= keys_view(keys@));
        assert forall|x: int, y: int| 0 <= x < y < res@.len() implies (#[trigger] res@[x]).0.spec_key() != (#[trigger] res@[y]).0.spec_key() by {
            assert(keys_view(keys@)[x] == keys@[x].spec_key());
            assert(keys_view(keys@)[y] == keys@[y].spec_key());
        }
        assert forall|x: int| 0 <= x < res@.len() implies drawn_by_some_line(topology.lines@, (#[trigger] res@[x]).0.spec_key()) by {
            assert(keys@[x].spec_key() == res@[x].0.spec_key());
        }
    }
    res
}

} // verus!

verus! {

/// Where one drawn segment sits among the lines that share it: whether it
/// runs from the first end of its key, its lane, and how many lanes the
/// segment has.
#[derive(Clone, Copy, Debug, PartialEq, Eq)]
pub struct SegmentLane {
    pub forward: bool,
    pub lane: usize,
    pub lanes: usize,
}

/// The `j`-th segment of path `p` of line `l`.
pub open spec fn segment_at(lines: Seq<TopologyLine>, l: int, p: int, j: int) -> (Seq<char>, Seq<char>) {
    path_segments_spec(texts(lines[l].paths@[p].stations@), lines[l].paths@[p].closed)[j]
}

/// `lane` is how segment `seg` of line `l` is drawn among the lines of
/// `lines` that share it.
pub open spec fn lane_fits(lines: Seq<TopologyLine>, l: int, seg: (Seq<char>, Seq<char>), lane: SegmentLane) -> bool {
    let key = segment_key_spec(seg.0, seg.1);
    let shared = lanes_spec(lines, key, lines.len() as int);
    &&& lane.forward == (key.0 == seg.0)
    &&& lane.lanes == shared.len()
    &&& lane.lane < shared.len()
    &&& shared[lane.lane as int] == l
}

/// `plan` has an entry for every segment of every path of every line of
/// `lines`, and each entry is how that segment is drawn.
pub open spec fn plan_fits(lines: Seq<TopologyLine>, plan: Seq<Vec<Vec<SegmentLane>>>) -> bool {
    &&& plan.len() == lines.len()
    &&& forall|l: int| 0 <= l < lines.len() ==> (#[trigger] plan[l])@.len() == lines[l].paths@.len()
    &&& forall|l: int, p: int| 0 <= l < lines.len() && 0 <= p < lines[l].paths@.len()
        ==> (#[trigger] plan[l]@[p])@.len() == path_segments_spec(texts(lines[l].paths@[p].stations@), lines[l].paths@[p].closed).len()
    &&& forall|l: int, p: int, j: int| 0 <= l < lines.len() && 0 <= p < lines[l].paths@.len() && 0 <= j < plan[l]@[p]@.len()
        ==> lane_fits(lines, l, segment_at(lines, l, p, j), #[trigger] plan[l]@[p]@[j])
}

proof fn lemma_paths_keys_holds(ps: Seq<TopologyPath>, p: int, j: int)
    requires
        0 <= p < ps.len(),
        0 <= j < path_keys(ps[p]).len(),
    ensures
        paths_keys(ps).contains(path_keys(ps[p])[j]),
    decreases ps.len(),
{
    let d = ps.drop_last();
    if p == ps.len() - 1 {
        assert(paths_keys(ps)[paths_keys(d).len() + j] == path_keys(ps[p])[j]);
    } else {
        assert(d[p] == ps[p]);
        lemma_paths_keys_holds(d, p, j);
        let i = choose|i: int| 0 <= i < paths_keys(d).len() && paths_keys(d)[i] == path_keys(ps[p])[j];
        assert(paths_keys(ps)[i] == paths_keys(d)[i]);
    }
}

proof fn lemma_lanes_hold_user(lines: Seq<TopologyLine>, key: (Seq<char>, Seq<char>), upto: int, l: int)
    requires
        0 <= l < upto <= lines.len(),
        line_uses(lines[l], key),
    ensures
        lanes_spec(lines, key, upto).contains(l as usize),
    decreases upto,
{
    if l == upto - 1 {
        assert(lanes_spec(lines, key, upto).last() == l as usize);
    } else {
        lemma_lanes_hold_user(lines, key, upto - 1, l);
        let prev = lanes_spec(lines, key, upto - 1);
        let i = choose|i: int| 0 <= i < prev.len() && prev[i] == l as usize;
        if line_uses(lines[upto - 1], key) {
            assert(lanes_spec(lines, key, upto)[i] == l as usize);
        }
    }
}

/// The lanes that `segment_lanes` found for `key`.
fn lookup_lanes<'a>(index: &'a Vec<(SegmentKey, Vec<usize>)>, key: &SegmentKey) -> (res: &'a Vec<usize>)
    requires
        keys_view(index@.map_values(|e: (SegmentKey, Vec<usize>)| e.0)).contains(key.spec_key()),
    ensures
        exists|a: int| 0 <= a < index@.len() && (#[trigger] index@[a]).0.spec_key() == key.spec_key() && index@[a].1@ == res@,
{
    let ghost keys = keys_view(index@.map_values(|e: (SegmentKey, Vec<usize>)| e.0));
    let mut a: usize = 0;
    while a < index.len()
        invariant
            a <= index@.len(),
            keys == keys_view(index@.map_values(|e: (SegmentKey, Vec<usize>)| e.0)),
            keys.contains(key.spec_key()),
            forall|b: int| 0 <= b < a ==> (#[trigger] index@[b]).0.spec_key() != key.spec_key(),
        decreases index@.len() - a,
    {
        let k = &index[a].0;
        if compare_text(k.first.as_str(), key.first.as_str()) == TextOrder::Equal
            && compare_text(k.second.as_str(), key.second.as_str()) == TextOrder::Equal {
            return &index[a].1;
        }
        a = a + 1;
    }
    proof {
        let i = choose|i: int| 0 <= i < keys.len() && keys[i] == key.spec_key();
        assert(keys[i] == index@[i].0.spec_key());
    }
    &index[0].1
}

/// Where `l` stands in `lanes`.
fn lane_position(lanes: &Vec<usize>, l: usize) -> (res: usize)
    requires
        lanes@.contains(l),
    ensures
        res < lanes@.len(),
        lanes@[res as int] == l,
{
    let mut i: usize = 0;
    while i < lanes.len()
        invariant
            i <= lanes@.len(),
            lanes@.contains(l),
            forall|b: int| 0 <= b < i ==> lanes@[b] != l,
        decreases lanes@.len() - i,
    {
        if lanes[i] == l {
            return i;
        }
        i = i + 1;
    }
    proof {
        let k = choose|k: int| 0 <= k < lanes@.len() && lanes@[k] == l;
        assert(false);
    }
    0
}

/// How each segment of each path of each line is drawn: the lane every line
/// takes on a segment it shares with others, in line order, and the
/// direction of the segment relative to its key.
pub fn segment_plan(topology: &MetroTopology) -> (res: Vec<Vec<Vec<SegmentLane>>>)
    ensures
        plan_fits(topology.lines@, res@),
{
    let ghost lines = topology.lines@;
    let index = segment_lanes(topology);
    let mut plan: Vec<Vec<Vec<SegmentLane>>> = Vec::new();
    let mut l: usize = 0;
    while l < topology.lines.len()
        invariant
            l <= lines.len(),
            lines == topology.lines@,
            forall|m: int, key: (Seq<char>, Seq<char>)| 0 <= m < lines.len() && #[trigger] line_uses(lines[m], key)
                ==> keys_view(index@.map_values(|e: (SegmentKey, Vec<usize>)| e.0)).contains(key),
            forall|a: int| 0 <= a < index@.len() ==> (#[trigger] index@[a]).1@ == lanes_spec(lines, index@[a].0.spec_key(), lines.len() as int),
            plan@.len() == l,
            forall|m: int| 0 <= m < l ==> (#[trigger] plan@[m])@.len() == lines[m].paths@.len(),
            forall|m: int, p: int| 0 <= m < l && 0 <= p < lines[m].paths@.len()
                ==> (#[trigger] plan@[m]@[p])@.len() == path_segments_spec(texts(lines[m].paths@[p].stations@), lines[m].paths@[p].closed).len(),
            forall|m: int, p: int, j: int| 0 <= m < l && 0 <= p < lines[m].paths@.len() && 0 <= j < plan@[m]@[p]@.len()
                ==> lane_fits(lines, m, segment_at(lines, m, p, j), #[trigger] plan@[m]@[p]@[j]),
        decreases lines.len() - l,
    {
        let line = &topology.lines[l];
        let mut paths: Vec<Vec<SegmentLane>> = Vec::new();
        let mut p: usize = 0;
        while p < line.paths.len()
            invariant
                l < lines.len(),
                lines == topology.lines@,
                *line == lines[l as int],
                p <= line.paths@.len(),
                forall|m: int, key: (Seq<char>, Seq<char>)| 0 <= m < lines.len() && #[trigger] line_uses(lines[m], key)
                    ==> keys_view(index@.map_values(|e: (SegmentKey, Vec<usize>)| e.0)).contains(key),
                forall|a: int| 0 <= a < index@.len() ==> (#[trigger] index@[a]).1@ == lanes_spec(lines, index@[a].0.spec_key(), lines.len() as int),
                paths@.len() == p,
                forall|q: int| 0 <= q < p
                    ==> (#[trigger] paths@[q])@.len() == path_segments_spec(texts(line.paths@[q].stations@), line.paths@[q].closed).len(),
                forall|q: int, j: int| 0 <= q < p && 0 <= j < paths@[q]@.len()
                    ==> lane_fits(lines, l as int, segment_at(lines, l as int, q, j), #[trigger] paths@[q]@[j]),
            decreases line.paths@.len() - p,
        {
            let segments = path_segments(&line.paths[p]);
            let ghost sp = path_segments_spec(texts(line.paths@[p as int].stations@), line.paths@[p as int].closed);
            let mut lanes_here: Vec<SegmentLane> = Vec::new();
            let mut j: usize = 0;
            while j < segments.len()
                invariant
                    l < lines.len(),
                    p < line.paths@.len(),
                    lines == topology.lines@,
                    *line == lines[l as int],
                    pairs_view(segments@) == sp,
                    sp == path_segments_spec(texts(line.paths@[p as int].stations@), line.paths@[p as int].closed),
                    j <= segments@.len(),
                    forall|m: int, key: (Seq<char>, Seq<char>)| 0 <= m < lines.len() && #[trigger] line_uses(lines[m], key)
                        ==> keys_view(index@.map_values(|e: (SegmentKey, Vec<usize>)| e.0)).contains(key),
                    forall|a: int| 0 <= a < index@.len() ==> (#[trigger] index@[a]).1@ == lanes_spec(lines, index@[a].0.spec_key(), lines.len() as int),
                    lanes_here@.len() == j,
                    forall|k: int| 0 <= k < j ==> lane_fits(lines, l as int, sp[k], #[trigger] lanes_here@[k]),
                decreases segments@.len() - j,
            {
                let start = segments[j].0.as_str();
                let key = SegmentKey::new(start, segments[j].1.as_str());
                proof {
                    assert(sp[j as int] == (segments@[j as int].0@, segments@[j as int].1@));
                    assert(path_keys(line.paths@[p as int])[j as int] == key.spec_key());
                    lemma_paths_keys_holds(line.paths@, p as int, j as int);
                    assert(line_uses(lines[l as int], key.spec_key()));
                }
                let shared = lookup_lanes(&index, &key);
                proof {
                    lemma_lanes_hold_user(lines, key.spec_key(), lines.len() as int, l as int);
                }
                let lane = lane_position(shared, l);
                let forward = key.is_forward(start);
                lanes_here.push(SegmentLane { forward, lane, lanes: shared.len() });
                j = j + 1;
            }
            paths.push(lanes_here);
            p = p + 1;
        }
        plan.push(paths);
        l = l + 1;
    }
    plan
}

} // verus!

verus! {

/// The printed numbers of a topology drawing: the canvas size unless it is
/// not finite, where each station lands unless that is not finite, and the
/// path data of every segment of every path of every line, laid out from
/// [`segment_plan`].
pub struct TopologyLayout {
    pub viewport: Option<(String, String)>,
    pub stations: Vec<Option<ProjectedStation>>,
    pub segments: Vec<Vec<Vec<String>>>,
}

/// The canvas and every station land at finite numbers.
pub open spec fn layout_in_range(layout: TopologyLayout) -> bool {
    &&& layout.viewport is Some
    &&& forall|i: int| 0 <= i < layout.stations@.len() ==> (#[trigger] layout.stations@[i]) is Some
}

/// `layout` has an entry for every station of `t` and for every segment of
/// every path of every line.
pub open spec fn layout_fits(t: MetroTopology, layout: TopologyLayout) -> bool {
    let lines = t.lines@;
    &&& layout.stations@.len() == t.stations@.len()
    &&& layout.segments@.len() == lines.len()
    &&& forall|l: int| 0 <= l < lines.len() ==> (#[trigger] layout.segments@[l])@.len() == lines[l].paths@.len()
    &&& forall|l: int, p: int| 0 <= l < lines.len() && 0 <= p < lines[l].paths@.len()
        ==> (#[trigger] layout.segments@[l]@[p])@.len() == path_segments_spec(texts(lines[l].paths@[p].stations@), lines[l].paths@[p].closed).len()
}

/// The elements that draw the first `k` segments of one path of `line`.
pub open spec fn segments_text(line: TopologyLine, data: Seq<String>, k: int) -> Seq<char>
    decreases k,
{
    if k <= 0 {
        Seq::empty()
    } else {
        segments_text(line, data, k - 1) + path_element(line, data[k - 1]@)
    }
}

/// The elements that draw the first `k` paths of `line`.
pub open spec fn paths_text(line: TopologyLine, data: Seq<Vec<String>>, k: int) -> Seq<char>
    decreases k,
{
    if k <= 0 {
        Seq::empty()
    } else {
        paths_text(line, data, k - 1) + segments_text(line, data[k - 1]@, data[k - 1]@.len() as int)
    }
}

/// The elements that draw the first `k` lines.
pub open spec fn lines_text(lines: Seq<TopologyLine>, data: Seq<Vec<Vec<String>>>, k: int) -> Seq<char>
    decreases k,
{
    if k <= 0 {
        Seq::empty()
    } else {
        lines_text(lines, data, k - 1) + paths_text(lines[k - 1], data[k - 1]@, data[k - 1]@.len() as int)
    }
}

/// The groups that draw the first `k` stations and their labels.
pub open spec fn stations_text(stations: Seq<TopologyStation>, places: Seq<Option<ProjectedStation>>, k: int) -> Seq<char>
    decreases k,
{
    if k <= 0 {
        Seq::empty()
    } else {
        stations_text(stations, places, k - 1) + station_element(stations[k - 1], places[k - 1]->Some_0)
    }
}

/// The SVG document for `t` laid out by `layout`, or the first invariant
/// that `t` breaks: every segment drawn separately, in line, path and
/// segment order, then every station with its label.
pub open spec fn topology_svg_spec(t: MetroTopology, layout: TopologyLayout) -> Result<Seq<char>, TopologyFault> {
    match topology_verdict(t, layout_in_range(layout)) {
        Err(e) => Err(e),
        Ok(_) => {
            let v = layout.viewport->Some_0;
            let n = t.stations@.len() as int;
            Ok(svg_header(v.0@, v.1@) + lines_text(t.lines@, layout.segments@, t.lines@.len() as int) + svg_middle()
                + stations_text(t.stations@, layout.stations@, n) + svg_footer())
        },
    }
}

/// Whether the canvas and every station land at finite numbers.
fn check_layout_in_range(layout: &TopologyLayout) -> (res: bool)
    ensures
        res == layout_in_range(*layout),
{
    if layout.viewport.is_none() {
        return false;
    }
    let mut i: usize = 0;
    while i < layout.stations.len()
        invariant
            i <= layout.stations@.len(),
            forall|k: int| 0 <= k < i ==> (#[trigger] layout.stations@[k]) is Some,
        decreases layout.stations@.len() - i,
    {
        if layout.stations[i].is_none() {
            return false;
        }
        i = i + 1;
    }
    true
}

/// Draw every segment of every path of `line` after what `svg` holds.
fn draw_line(svg: &mut String, line: &TopologyLine, data: &Vec<Vec<String>>)
    ensures
        final(svg)@ == old(svg)@ + paths_text(*line, data@, data@.len() as int),
{
    let ghost start = svg@;
    let mut p: usize = 0;
    while p < data.len()
        invariant
            p <= data@.len(),
            svg@ == start + paths_text(*line, data@, p as int),
        decreases data@.len() - p,
    {
        let segs = &data[p];
        let ghost before = svg@;
        let mut j: usize = 0;
        while j < segs.len()
            invariant
                j <= segs@.len(),
                svg@ == before + segments_text(*line, segs@, j as int),
            decreases segs@.len() - j,
        {
            let ghost b = svg@;
            push_path_element(svg, line, &segs[j]);
            proof {
                assert(svg@ =~= before + segments_text(*line, segs@, j + 1));
            }
            j = j + 1;
        }
        proof {
            assert(svg@ =~= start + paths_text(*line, data@, p + 1));
        }
        p = p + 1;
    }
}

/// Render a topology as an SVG topology graph.
///
/// Manifest positions are treated as Cartesian coordinates, so increasing
/// `y` is rendered upwards; `layout` holds the projected, printed numbers.
/// The topology is validated first. Each segment of a line path is drawn on
/// its own in the line's color, offset into its lane where lines share it;
/// closed paths are joined back to their first station.
pub fn render_topology_svg(topology: &MetroTopology, layout: &TopologyLayout) -> (res: Result<String, TopologyRenderError>)
    requires
        layout_fits(*topology, *layout),
    ensures
        match res {
            Ok(svg) => topology_svg_spec(*topology, *layout) == Ok::<Seq<char>, TopologyFault>(svg@),
            Err(e) => topology_svg_spec(*topology, *layout) == Err::<Seq<char>, TopologyFault>(e@),
        },
{
    let in_range = check_layout_in_range(layout);
    match validate_topology(topology, in_range) {
        Err(e) => return Err(e),
        Ok(_) => {},
    }
    let (w, h) = match &layout.viewport {
        Some(v) => (&v.0, &v.1),
        None => return Err(TopologyRenderError::CoordinateRange),
    };
    let mut svg = String::new();
    push_header(&mut svg, w, h);
    let ghost head = svg@;
    let mut l: usize = 0;
    while l < topology.lines.len()
        invariant
            l <= topology.lines@.len(),
            layout_fits(*topology, *layout),
            svg@ == head + lines_text(topology.lines@, layout.segments@, l as int),
        decreases topology.lines@.len() - l,
    {
        draw_line(&mut svg, &topology.lines[l], &layout.segments[l]);
        proof {
            assert(svg@ =~= head + lines_text(topology.lines@, layout.segments@, l + 1));
        }
        l = l + 1;
    }
    let ghost drawn = svg@;
    svg.append("  </g>\n");
    svg.append("  <g font-family=\"sans-serif\" font-size=\"14\">\n");
    proof {
        assert(svg@ =~= drawn + svg_middle());
    }
    let ghost middle = svg@;
    let mut i: usize = 0;
    while i < topology.stations.len()
        invariant
            i <= topology.stations@.len(),
            layout.stations@.len() == topology.stations@.len(),
            layout_in_range(*layout),
            svg@ == middle + stations_text(topology.stations@, layout.stations@, i as int),
        decreases topology.stations@.len() - i,
    {
        let place = match &layout.stations[i] {
            Some(q) => q,
            None => return Err(TopologyRenderError::CoordinateRange),
        };
        push_station_element(&mut svg, &topology.stations[i], place);
        proof {
            assert(svg@ =~= middle + stations_text(topology.stations@, layout.stations@, i + 1));
        }
        i = i + 1;
    }
    let ghost placed = svg@;
    svg.append("  </g>\n");
    svg.append("</svg>\n");
    proof {
        assert(svg@ =~= placed + svg_footer());
    }
    Ok(svg)
}

proof fn lemma_lanes_ascending(lines: Seq<TopologyLine>, key: (Seq<char>, Seq<char>), upto: int)
    requires
        upto <= lines.len() <= usize::MAX,
    ensures
        forall|a: int, b: int| 0 <= a < b < lanes_spec(lines, key, upto).len()
            ==> (#[trigger] lanes_spec(lines, key, upto)[a]) < (#[trigger] lanes_spec(lines, key, upto)[b]),
        forall|a: int| 0 <= a < lanes_spec(lines, key, upto).len() ==> (#[trigger] lanes_spec(lines, key, upto)[a]) < upto,
    decreases upto,
{
    if upto > 0 {
        lemma_lanes_ascending(lines, key, upto - 1);
        let prev = lanes_spec(lines, key, upto - 1);
        let cur = lanes_spec(lines, key, upto);
        if line_uses(lines[upto - 1], key) {
            assert(cur == prev.push((upto - 1) as usize));
            assert forall|a: int| 0 <= a < cur.len() implies (#[trigger] cur[a]) < upto by {
                if a < prev.len() {
                    assert(cur[a] == prev[a]);
                }
            }
            assert forall|a: int, b: int| 0 <= a < b < cur.len() implies (#[trigger] cur[a]) < (#[trigger] cur[b]) by {
                assert(cur[a] == prev[a]);
                if b < prev.len() {
                    assert(cur[b] == prev[b]);
                }
            }
        }
    }
}

/// Lines that share a segment sit side by side in line order: in any plan
/// for the topology, of two lines drawing segments with the same key, the
/// earlier line takes the lower lane, and both count the same lanes.
pub proof fn lemma_lanes_follow_line_order(
    lines: Seq<TopologyLine>,
    plan: Seq<Vec<Vec<SegmentLane>>>,
    l1: int,
    p1: int,
    j1: int,
    l2: int,
    p2: int,
    j2: int,
)
    requires
        lines.len() <= usize::MAX,
        plan_fits(lines, plan),
        0 <= l1 < l2 < lines.len(),
        0 <= p1 < lines[l1].paths@.len(),
        0 <= j1 < plan[l1]@[p1]@.len(),
        0 <= p2 < lines[l2].paths@.len(),
        0 <= j2 < plan[l2]@[p2]@.len(),
        segment_key_spec(segment_at(lines, l1, p1, j1).0, segment_at(lines, l1, p1, j1).1)
            == segment_key_spec(segment_at(lines, l2, p2, j2).0, segment_at(lines, l2, p2, j2).1),
    ensures
        plan[l1]@[p1]@[j1].lane < plan[l2]@[p2]@[j2].lane,
        plan[l1]@[p1]@[j1].lanes == plan[l2]@[p2]@[j2].lanes,
{
    let a = plan[l1]@[p1]@[j1];
    let b = plan[l2]@[p2]@[j2];
    assert(lane_fits(lines, l1, segment_at(lines, l1, p1, j1), a));
    assert(lane_fits(lines, l2, segment_at(lines, l2, p2, j2), b));
    let key = segment_key_spec(segment_at(lines, l1, p1, j1).0, segment_at(lines, l1, p1, j1).1);
    lemma_lanes_ascending(lines, key, lines.len() as int);
    let shared = lanes_spec(lines, key, lines.len() as int);
    if b.lane <= a.lane {
        if b.lane < a.lane {
            assert(shared[b.lane as int] < shared[a.lane as int]);
        }
    }
}

/// A topology that passes `check` renders: whenever validation accepts it
/// with the coordinates in range, as the layout finds them, the renderer
/// draws it, and what it draws is the drawing of the topology.
pub proof fn lemma_checked_topology_renders(t: MetroTopology, layout: TopologyLayout)
    requires
        topology_verdict(t, layout_in_range(layout)) is Ok,
    ensures
        topology_svg_spec(t, layout) is Ok,
        crate::topology_validation::topology_well_formed(t),
{
    crate::topology_validation::lemma_validation_characterized(t, layout_in_range(layout));
}

} // verus!
