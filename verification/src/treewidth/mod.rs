//! Treewidth: exact algorithms, approximations, heuristics that bound it from above, and the
//! width model they are stated over; and the entry points that read a graph6 string and run
//! one algorithm on the graph it describes.

use vstd::prelude::*;
use vstd::string::StringSliceAdditionalSpecFns;
use crate::graph::model::{edges_graph, Nbrs};
use crate::graph::{adjlist, bitset, Graph};
use crate::treewidth::approx::four_approx;
use crate::treewidth::approx::ApproxAlgorithm;
use crate::treewidth::approx::{approx_reports, DecompTrace};
use crate::treewidth::exact::dynamic_prog::{all_vertices, dp_width};
use crate::treewidth::exact::improved_rec::{fits, separator_search_result};
use crate::treewidth::exact::rec::rec_width;
use crate::treewidth::exact::{branch_bound, dynamic_prog, improved_rec, rec, ExactAlgorithm};
use crate::treewidth::heuristic::run_heuristic;
use crate::treewidth::width::{elim_width, heuristic_width, HeuristicAlgorithm};
use crate::utils::g6::{data_start, edges_within, scan_bytes, size_readable, spec_get_size, Error};

pub mod approx;
pub mod exact;
pub mod heuristic;
pub mod width;

verus! {

/// An algorithm of one of the three families.
#[derive(Debug, Clone, Copy, PartialEq, Eq, Structural)]
pub enum Algorithm {
    /// An exact algorithm.
    Exact(ExactAlgorithm),
    /// An approximation.
    Approx(ApproxAlgorithm),
    /// A heuristic that bounds the treewidth from above.
    Heuristic(HeuristicAlgorithm),
}

/// Whether a graph6 string can be read: its size field can be read in full, and a graph whose
/// size it gives fits in memory and has only edges between its vertices.
pub open spec fn g6_readable(bytes: Seq<u8>, with_bitset: bool) -> bool {
    &&& size_readable(bytes)
    &&& spec_get_size(bytes) matches Ok(n) ==> n * n <= usize::MAX && edges_within(
        bytes.skip(data_start(n)),
        n as int,
    )
}

/// The graph a graph6 string describes, or the error of reading it.
pub open spec fn parse_g6(bytes: Seq<u8>, with_bitset: bool) -> Result<Nbrs, Error> {
    match spec_get_size(bytes) {
        Err(e) => Err(e),
        Ok(n) => match scan_bytes(bytes.skip(data_start(n)), n as int) {
            None => Err(Error::InvalidFormat),
            Some(st) => Ok(edges_graph(n as int, st.edges)),
        },
    }
}

/// Whether an exact algorithm can run on `g` (`adj`: the graph is stored as adjacency lists).
pub open spec fn exact_runs(g: Nbrs, alg: ExactAlgorithm, adj: bool) -> bool {
    match alg {
        ExactAlgorithm::DynamicProg => g.len() < 64 && g.len() < usize::BITS,
        ExactAlgorithm::Recursive => g.len() >= 1,
        ExactAlgorithm::ImprovedRec => !fits(g, 0, adj),
        ExactAlgorithm::BranchBound => true,
    }
}

/// Whether `w` is what an exact algorithm returns on `g`; branch and bound returns a width
/// between the treewidth and the min-fill width.
pub open spec fn exact_result(g: Nbrs, alg: ExactAlgorithm, adj: bool, w: int) -> bool {
    match alg {
        ExactAlgorithm::DynamicProg => w == dp_width(g, all_vertices(g.len() as int)),
        ExactAlgorithm::Recursive => w == rec_width(g, Set::empty(), all_vertices(g.len() as int)),
        ExactAlgorithm::ImprovedRec => w == separator_search_result(g, g.len() as int, adj),
        ExactAlgorithm::BranchBound => elim_width(g) <= w <= heuristic_width(g, HeuristicAlgorithm::MinFill),
    }
}

/// Whether an approximation can run on `g`: the 4-approximation, on a nonempty graph small
/// enough for its flow networks.
pub open spec fn approx_runs(g: Nbrs, alg: ApproxAlgorithm) -> bool {
    &&& alg is FourApprox
    &&& g.len() >= 1
    &&& 16 * g.len() * g.len() + 16 <= usize::MAX
    &&& 2 * g.len() + 4 < i32::MAX
}

/// Whether an algorithm can run on `g`.
pub open spec fn algorithm_runs(g: Nbrs, alg: Algorithm, adj: bool) -> bool {
    match alg {
        Algorithm::Exact(a) => exact_runs(g, a, adj),
        Algorithm::Approx(a) => approx_runs(g, a),
        Algorithm::Heuristic(_) => true,
    }
}

/// Whether `w` is what the approximation reports on `g` (held as bitsets or not): below the number of vertices, and the
/// width of the decomposition that the last of its runs builds.
pub open spec fn approx_result(g: Nbrs, bitsets: bool, w: int) -> bool {
    &&& 0 <= w < g.len()
    &&& exists|trs: Seq<DecompTrace>, tr: DecompTrace|
        #![trigger approx_reports(g, bitsets, trs, tr, w)]
        approx_reports(g, bitsets, trs, tr, w)
}

/// Whether `w` is what an algorithm returns on `g`.
pub open spec fn algorithm_result(g: Nbrs, alg: Algorithm, adj: bool, w: int) -> bool {
    match alg {
        Algorithm::Exact(a) => exact_result(g, a, adj, w),
        Algorithm::Approx(_) => approx_result(g, !adj, w),
        Algorithm::Heuristic(a) => w == heuristic_width(g, a),
    }
}

/// Reads a graph6 string into bitsets or adjacency lists.
fn read_graph(g6: &str, with_bitset: bool) -> (r: Result<Graph, Error>)
    requires
        g6_readable(g6.spec_bytes(), with_bitset),
    ensures
        match parse_g6(g6.spec_bytes(), with_bitset) {
            Err(e) => r == Err::<Graph, Error>(e),
            Ok(g) => r matches Ok(graph) && graph.wf() && graph@ == g && (graph is AdjList <==> !with_bitset),
        },
{
    if with_bitset {
        match bitset::Graph::from_g6(g6) {
            Ok(g) => Ok(Graph::BitSet(g)),
            Err(e) => Err(e),
        }
    } else {
        match adjlist::Graph::from_g6(g6) {
            Ok(g) => Ok(Graph::AdjList(g)),
            Err(e) => Err(e),
        }
    }
}

/// Runs an algorithm of one of the three families on the graph a graph6 string describes.
pub fn compute_or_approximate_treewidth(g6: &str, algorithm: Algorithm, with_bitset: bool) -> (r: Result<usize, Error>)
    requires
        g6_readable(g6.spec_bytes(), with_bitset),
        parse_g6(g6.spec_bytes(), with_bitset) matches Ok(g) ==> algorithm_runs(g, algorithm, !with_bitset),
    ensures
        match parse_g6(g6.spec_bytes(), with_bitset) {
            Err(e) => r == Err::<usize, Error>(e),
            Ok(g) => r matches Ok(w) && algorithm_result(g, algorithm, !with_bitset, w as int),
        },
{
    match algorithm {
        Algorithm::Exact(a) => compute_treewidth(g6, a, with_bitset),
        Algorithm::Approx(a) => approximate_treewidth(g6, a, with_bitset),
        Algorithm::Heuristic(a) => heuristic_treewidth(g6, a, with_bitset),
    }
}

/// Runs an exact algorithm on the graph a graph6 string describes.
pub fn compute_treewidth(g6: &str, algorithm: ExactAlgorithm, with_bitset: bool) -> (r: Result<usize, Error>)
    requires
        g6_readable(g6.spec_bytes(), with_bitset),
        parse_g6(g6.spec_bytes(), with_bitset) matches Ok(g) ==> exact_runs(g, algorithm, !with_bitset),
    ensures
        match parse_g6(g6.spec_bytes(), with_bitset) {
            Err(e) => r == Err::<usize, Error>(e),
            Ok(g) => r matches Ok(w) && exact_result(g, algorithm, !with_bitset, w as int),
        },
{
    let g = match read_graph(g6, with_bitset) {
        Ok(g) => g,
        Err(e) => return Err(e),
    };
    let tw = match algorithm {
        ExactAlgorithm::DynamicProg => dynamic_prog::treewidth(&g),
        ExactAlgorithm::Recursive => rec::treewidth(&g),
        ExactAlgorithm::ImprovedRec => improved_rec::treewidth(&g),
        ExactAlgorithm::BranchBound => branch_bound::treewidth(&g),
    };
    Ok(tw)
}

/// Runs an approximation on the graph a graph6 string describes; the 4-approximation is the
/// one implemented.
pub fn approximate_treewidth(g6: &str, algorithm: ApproxAlgorithm, with_bitset: bool) -> (r: Result<usize, Error>)
    requires
        g6_readable(g6.spec_bytes(), with_bitset),
        parse_g6(g6.spec_bytes(), with_bitset) matches Ok(g) ==> approx_runs(g, algorithm),
    ensures
        match parse_g6(g6.spec_bytes(), with_bitset) {
            Err(e) => r == Err::<usize, Error>(e),
            Ok(g) => r matches Ok(w) && approx_result(g, with_bitset, w as int),
        },
{
    let g = match read_graph(g6, with_bitset) {
        Ok(g) => g,
        Err(e) => return Err(e),
    };
    let w = four_approx::approx_treewidth(&g);
    proof {
        assert(g is BitSet <==> with_bitset);
    }
    Ok(w)
}

/// Runs a heuristic on the graph a graph6 string describes.
pub fn heuristic_treewidth(g6: &str, algorithm: HeuristicAlgorithm, with_bitset: bool) -> (r: Result<usize, Error>)
    requires
        g6_readable(g6.spec_bytes(), with_bitset),
    ensures
        match parse_g6(g6.spec_bytes(), with_bitset) {
            Err(e) => r == Err::<usize, Error>(e),
            Ok(g) => r matches Ok(w) && w == heuristic_width(g, algorithm),
        },
{
    let g = match read_graph(g6, with_bitset) {
        Ok(g) => g,
        Err(e) => return Err(e),
    };
    Ok(run_heuristic(&g, algorithm))
}

} // verus!
