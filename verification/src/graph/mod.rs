//! Graphs on the vertices `0..n`, stored as adjacency lists or as one bitset of neighbours per
//! vertex.

use vstd::prelude::*;
use vstd::string::StringSliceAdditionalSpecFns;
use crate::graph::model::{edges_graph, Nbrs};
use crate::utils::g6::{
    data_start, edges_within, get_edges, get_size, scan_bytes, size_readable, spec_get_size, Error,
};

pub mod adjlist;
pub mod bitset;
pub mod model;

verus! {

/// A graph in one of the two representations.
#[derive(Debug, Clone)]
pub enum Graph {
    /// Adjacency lists.
    AdjList(adjlist::Graph),
    /// One bitset of neighbours per vertex.
    BitSet(bitset::Graph),
}

impl Graph {
    /// The stored graph is well formed.
    pub open spec fn wf(&self) -> bool {
        match self {
            Graph::AdjList(g) => g.wf(),
            Graph::BitSet(g) => g.wf(),
        }
    }
}

impl View for Graph {
    type V = Nbrs;

    open spec fn view(&self) -> Nbrs {
        match self {
            Graph::AdjList(g) => g@,
            Graph::BitSet(g) => g@,
        }
    }
}

impl Graph {
    /// Reads a graph from a graph6 string, stored as bitsets when `with_bitset` holds and as
    /// adjacency lists otherwise; the data bytes start after the size field.
    ///
    /// Fails with the error of reading the size field, or with `InvalidFormat` when a data
    /// byte lies below 63.
    pub fn from_g6(repr: &str, with_bitset: bool) -> (r: Result<Graph, Error>)
        requires
            size_readable(repr.spec_bytes()),
            spec_get_size(repr.spec_bytes()) matches Ok(n) ==> n * n <= usize::MAX && edges_within(
                repr.spec_bytes().skip(data_start(n)),
                n as int,
            ),
        ensures
            match spec_get_size(repr.spec_bytes()) {
                Err(e) => r == Err::<Graph, Error>(e),
                Ok(n) => match scan_bytes(repr.spec_bytes().skip(data_start(n)), n as int) {
                    None => r == Err::<Graph, Error>(Error::InvalidFormat),
                    Some(st) => r matches Ok(g) && g.wf() && g@ == edges_graph(n as int, st.edges)
                        && (g is BitSet <==> with_bitset),
                },
            },
    {
        let bytes = repr.as_bytes();
        let n = match get_size(bytes) {
            Ok(n) => n,
            Err(e) => return Err(e),
        };
        let start_index: usize = if n <= 62 {
            1
        } else {
            4
        };
        proof {
            assert(bytes@.len() >= start_index);
        }
        let data = vstd::slice::slice_subrange(bytes, start_index, bytes.len());
        proof {
            assert(data@ =~= bytes@.skip(start_index as int));
        }
        let edges = match get_edges(data, n) {
            Ok(edges) => edges,
            Err(e) => return Err(e),
        };
        if with_bitset {
            Ok(Graph::BitSet(bitset::Graph::from_edges(n, &edges)))
        } else {
            Ok(Graph::AdjList(adjlist::Graph::from_edges(n, &edges)))
        }
    }

    /// Writes a graph stored as adjacency lists in graph6 format.
    pub fn to_g6(&self) -> (r: String)
        requires
            self is AdjList,
            self.wf(),
            self@.len() <= 258047,
            self@.len() * self@.len() + 4 <= usize::MAX,
        ensures
            adjlist::g6_text_of(r@, self@),
    {
        match self {
            Graph::AdjList(g) => g.to_g6(),
            Graph::BitSet(_) => String::new(),
        }
    }
}

} // verus!
