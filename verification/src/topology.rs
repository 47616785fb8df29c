//! The metro topology manifest.
//!
//! Topology coordinates are deliberately abstract Cartesian coordinates.

use vstd::prelude::*;

use crate::names::LocalizedNames;

verus! {

/// A point in the topology's abstract Cartesian coordinate system, each
/// coordinate held as the bit pattern of its binary64 value.
#[derive(Clone, Copy, Debug, PartialEq, Eq)]
pub struct TopologyPosition {
    pub x: u64,
    pub y: u64,
}

/// A station and its position in the topology graph.
pub struct TopologyStation {
    pub id: String,
    pub names: LocalizedNames,
    pub position: TopologyPosition,
}

/// A topological metro line composed of one or more paths.
pub struct TopologyLine {
    pub id: String,
    pub names: LocalizedNames,
    pub color: String,
    pub paths: Vec<TopologyPath>,
}

/// An ordered topological traversal of stations belonging to a line.
#[derive(Clone, Debug, PartialEq, Eq)]
pub struct TopologyPath {
    pub stations: Vec<String>,
    pub closed: bool,
}

/// An entire metro topology manifest.
pub struct MetroTopology {
    pub stations: Vec<TopologyStation>,
    pub lines: Vec<TopologyLine>,
}

/// The ids of the stations, in manifest order.
pub open spec fn station_ids(stations: Seq<TopologyStation>) -> Seq<Seq<char>> {
    stations.map_values(|s: TopologyStation| s.id@)
}

} // verus!
