use tw_algorithms::graph::{adjlist, bitset, Graph};
use tw_algorithms::treewidth::approx::four_approx;
use tw_algorithms::treewidth::approx::{ApproxAlgorithm, GuaranteeCheck};
use tw_algorithms::treewidth::exact::{branch_bound, combinations_bitset, dynamic_prog, improved_rec, rec, ExactAlgorithm};
use tw_algorithms::treewidth::heuristic::{self, HeuristicAlgorithm};
use tw_algorithms::treewidth::{
    approximate_treewidth, compute_or_approximate_treewidth, compute_treewidth, heuristic_treewidth, Algorithm,
};
use tw_algorithms::utils::bitset::BitSet;
use tw_algorithms::utils::dimacs::{graph_from_dimacs, DimacsError};
use tw_algorithms::utils::duration::{parse_duration, DurationError, TimeSpan};
use tw_algorithms::utils::g6::{get_edges, get_size, to_edges, to_size, Error};
use tw_algorithms::utils::max_flow::max_flow_reachable;

const HEURISTICS: [HeuristicAlgorithm; 6] = [
    HeuristicAlgorithm::MinFill,
    HeuristicAlgorithm::MinDegree,
    HeuristicAlgorithm::MinDegreePlusFill,
    HeuristicAlgorithm::MinSparsestSubgraph,
    HeuristicAlgorithm::MinFillDegree,
    HeuristicAlgorithm::MinDegreeFill,
];

// A 3x3 grid: treewidth 3.
fn grid3() -> adjlist::Graph {
    let mut g = adjlist::Graph::new(9);
    for r in 0..3 {
        for c in 0..3 {
            let v = 3 * r + c;
            if c + 1 < 3 {
                g.add_edge(v, v + 1);
            }
            if r + 1 < 3 {
                g.add_edge(v, v + 3);
            }
        }
    }
    g
}

#[test]
fn readme_example_branch_bound_and_rec() {
    let graph = Graph::from_g6("FJ\\~w", true).unwrap();
    assert_eq!(branch_bound::treewidth(&graph), 5);
    assert_eq!(rec::treewidth(&graph), 5);
    let upper_bound = heuristic::min_degree(&graph);
    assert!(upper_bound >= 5);
}

#[test]
fn exact_algorithms_agree_on_grid() {
    let g = Graph::AdjList(grid3());
    assert_eq!(dynamic_prog::treewidth(&g), 3);
    assert_eq!(rec::treewidth(&g), 3);
    assert_eq!(improved_rec::treewidth(&g), 3);
    assert_eq!(branch_bound::treewidth(&g), 3);
    let b = Graph::BitSet(bitset::Graph::from_adjlist(&grid3()));
    assert_eq!(dynamic_prog::treewidth(&b), 3);
    assert_eq!(rec::treewidth(&b), 3);
    assert_eq!(branch_bound::treewidth(&b), 3);
}

#[test]
fn heuristics_bound_treewidth_from_above() {
    let g = Graph::AdjList(grid3());
    let exact = dynamic_prog::treewidth(&g);
    for alg in HEURISTICS {
        assert!(heuristic::run_heuristic(&g, alg) >= exact);
    }
}

#[test]
fn heuristics_on_small_graphs() {
    for alg in HEURISTICS {
        assert_eq!(heuristic::run_heuristic(&Graph::AdjList(adjlist::Graph::new_complete(5)), alg), 4);
        assert_eq!(heuristic::run_heuristic(&Graph::AdjList(adjlist::Graph::new_path(6)), alg), 1);
        assert_eq!(heuristic::run_heuristic(&Graph::BitSet(bitset::Graph::new_cycle(6)), alg), 2);
        assert_eq!(heuristic::run_heuristic(&Graph::AdjList(adjlist::Graph::new(4)), alg), 0);
    }
    let g = Graph::AdjList(adjlist::Graph::new_cycle(5));
    assert_eq!(heuristic::min_fill(&g), 2);
    assert_eq!(heuristic::min_degree(&g), 2);
    assert_eq!(heuristic::min_degree_plus_fill(&g), 2);
    assert_eq!(heuristic::min_sparsest_subgraph(&g), 2);
    assert_eq!(heuristic::min_fill_degree(&g), 2);
    assert_eq!(heuristic::min_degree_fill(&g), 2);
}

#[test]
fn dynamic_prog_on_complete_and_empty_graphs() {
    assert_eq!(dynamic_prog::treewidth(&Graph::AdjList(adjlist::Graph::new_complete(6))), 5);
    assert_eq!(dynamic_prog::treewidth(&Graph::BitSet(bitset::Graph::new(5))), 0);
    assert_eq!(dynamic_prog::treewidth(&Graph::AdjList(adjlist::Graph::new(0))), 0);
}

#[test]
fn improved_rec_width_test() {
    let g = Graph::AdjList(adjlist::Graph::new_cycle(5));
    assert!(!improved_rec::width_at_most(&g, 1));
    assert!(improved_rec::width_at_most(&g, 2));
    assert!(improved_rec::width_at_most(&g, 7));
    let e = Graph::BitSet(bitset::Graph::new(3));
    assert!(improved_rec::width_at_most(&e, 0));
}

// On this graph of ten vertices and treewidth 3 no separator of five vertices passes the test
// for k = 3, so the separator recursion reports 4: never less than the treewidth, but not
// always equal to it.
#[test]
fn improved_rec_never_below_treewidth() {
    let b = Graph::from_g6("INiBHQcAG", true).unwrap();
    let a = Graph::from_g6("INiBHQcAG", false).unwrap();
    assert_eq!(dynamic_prog::treewidth(&a), 3);
    assert_eq!(branch_bound::treewidth(&a), 3);
    assert!(!improved_rec::width_at_most(&b, 3));
    assert!(improved_rec::width_at_most(&b, 4));
    assert_eq!(improved_rec::treewidth(&b), 4);
    assert!(improved_rec::treewidth(&a) >= 3);
    let g = Graph::AdjList(grid3());
    assert!(improved_rec::treewidth(&g) >= dynamic_prog::treewidth(&g));
}

#[test]
fn approximation_stays_below_vertex_count() {
    let g = Graph::AdjList(adjlist::Graph::new_complete(4));
    assert_eq!(four_approx::approx_treewidth(&g), 3);
    let g = Graph::BitSet(bitset::Graph::new_cycle(6));
    let w = four_approx::approx_treewidth(&g);
    assert!(w >= 2 && w < 6);
    let g = Graph::AdjList(grid3());
    let w = four_approx::approx_treewidth(&g);
    assert!(w >= 3 && w < 9);
}

#[test]
fn worst_case_bounds() {
    assert_eq!(ApproxAlgorithm::FourApprox.worst_case_from_optimal(3), 12);
    assert_eq!(ApproxAlgorithm::FourHalfApprox.worst_case_from_optimal(3), 14);
    assert_eq!(ApproxAlgorithm::FourHalfApprox.worst_case_from_optimal(0), 1);
}

#[test]
fn g6_size_field_and_errors() {
    assert_eq!(get_size(b""), Err(Error::Empty));
    assert_eq!(get_size(b"D"), Ok(5));
    assert_eq!(get_size(&[126, 66, 63, 63]), Ok(3 << 12));
    assert_eq!(get_size(&[126, 126, 63, 63]), Err(Error::UnsupportedLargeGraph));
    assert_eq!(get_size(&[126, 70]), Err(Error::InvalidFormat));
    assert_eq!(get_size(&[10]), Err(Error::InvalidFormat));
    assert_eq!(to_size(5), vec![68]);
    assert_eq!(to_size(100), vec![126, 63, 64, 99]);
}

#[test]
fn g6_edges_round_trip() {
    let edges = get_edges(b"hc", 5).unwrap();
    let mut expected = vec![(0, 1), (1, 2), (2, 3), (0, 4), (3, 4)];
    let mut got = edges.clone();
    got.sort();
    expected.sort();
    assert_eq!(got, expected);
    let mut buf = Vec::new();
    to_edges(&edges, 5, &mut buf);
    assert_eq!(buf, b"hc".to_vec());
    assert_eq!(get_edges(b"h\x10", 5), Err(Error::InvalidFormat));
}

#[test]
fn g6_text_of_cycle() {
    let g = adjlist::Graph::new_cycle(5);
    assert_eq!(g.to_g6(), "Dhc");
    assert_eq!(Graph::AdjList(adjlist::Graph::new_path(3)).to_g6(), "Bg");
    assert_eq!(adjlist::Graph::new(3).to_g6(), "B?");
    assert_eq!(adjlist::Graph::new_complete(3).to_g6(), "Bw");
    assert_eq!(adjlist::Graph::new(1).to_g6(), "@");
    let mut sparse = adjlist::Graph::new(5);
    sparse.add_edge(0, 1);
    assert_eq!(sparse.to_g6(), "D_?");
    let back = adjlist::Graph::from_g6("Dhc").unwrap();
    assert_eq!(back.m(), 5);
    assert!(back.has_edge(0, 4));
    assert!(!back.has_edge(0, 2));
}

#[test]
fn graph_from_g6_errors() {
    assert!(matches!(Graph::from_g6("", true), Err(Error::Empty)));
    assert!(matches!(Graph::from_g6("D\x10c", false), Err(Error::InvalidFormat)));
    assert!(matches!(bitset::Graph::from_g6("D\x10c"), Err(Error::InvalidFormat)));
}

#[test]
fn string_entry_points() {
    assert_eq!(compute_treewidth("Dhc", ExactAlgorithm::DynamicProg, true), Ok(2));
    assert_eq!(compute_treewidth("Dhc", ExactAlgorithm::Recursive, false), Ok(2));
    assert_eq!(compute_treewidth("Dhc", ExactAlgorithm::ImprovedRec, true), Ok(2));
    assert_eq!(compute_treewidth("Dhc", ExactAlgorithm::BranchBound, false), Ok(2));
    assert_eq!(heuristic_treewidth("Dhc", HeuristicAlgorithm::MinDegree, false), Ok(2));
    let w = approximate_treewidth("Dhc", ApproxAlgorithm::FourApprox, true).unwrap();
    assert!(w >= 2 && w < 5);
    assert_eq!(
        compute_or_approximate_treewidth("Dhc", Algorithm::Exact(ExactAlgorithm::Recursive), true),
        Ok(2)
    );
    assert_eq!(
        compute_or_approximate_treewidth("Dhc", Algorithm::Heuristic(HeuristicAlgorithm::MinFill), true),
        Ok(2)
    );
    assert_eq!(compute_treewidth("", ExactAlgorithm::BranchBound, true), Err(Error::Empty));
    assert_eq!(heuristic_treewidth("D\x10c", HeuristicAlgorithm::MinFill, true), Err(Error::InvalidFormat));
}

#[test]
fn bitset_operations() {
    let mut a = BitSet::new(10);
    assert!(a.is_empty());
    a.insert(3);
    a.insert(7);
    a.insert(3);
    assert_eq!(a.len(), 2);
    assert!(a.contains(7));
    assert!(!a.contains(4));
    assert_eq!(a.first_bit(), Some(3));
    assert_eq!(a.to_vec(), vec![3, 7]);
    let full = BitSet::full(10);
    assert_eq!(full.len(), 10);
    let rest = full.difference(&a);
    assert_eq!(rest.len(), 8);
    assert_eq!(rest.intersection_len(&a), 0);
    assert_eq!(full.intersection_len(&a), 2);
    a.remove(3);
    assert!(a.has_one_bit());
    let mut big = BitSet::new(200);
    big.insert(150);
    big.insert(5);
    assert_eq!(big.to_vec(), vec![5, 150]);
    big.right_shift_from(5);
    assert_eq!(big.to_vec(), vec![149]);
    assert_eq!(BitSet::from_u64(0b1011).len(), 3);
    assert_eq!(BitSet::new(10).first_bit(), None);
}

#[test]
fn combinations_of_bitset() {
    let all = BitSet::full(4);
    let subsets = combinations_bitset(&all, 4, 2);
    let listed: Vec<Vec<usize>> = subsets.iter().map(|s| s.to_vec()).collect();
    assert_eq!(listed, vec![vec![0, 1], vec![0, 2], vec![0, 3], vec![1, 2], vec![1, 3], vec![2, 3]]);
    assert_eq!(combinations_bitset(&all, 4, 0).len(), 1);
    assert_eq!(combinations_bitset(&all, 4, 5).len(), 0);
}

#[test]
fn max_flow_cut_side() {
    // 0 -> 1 -> 3 and 0 -> 2 -> 3, with a narrow arc 1 -> 3.
    let edges = [(0, 1), (1, 3), (0, 2), (2, 3)];
    let caps = [5, 1, 5, 5];
    let reach = max_flow_reachable(4, &edges, &caps, 0, 3, 100).unwrap();
    assert_eq!(reach, vec![true, true, false, false]);
    assert_eq!(max_flow_reachable(4, &edges, &caps, 0, 3, 6), None);
    // With no flow allowed, the source reaches everything, the sink included.
    assert_eq!(max_flow_reachable(4, &edges, &caps, 0, 3, 0), Some(vec![true, true, true, true]));
    // Two parallel unit paths: both are used, and the sink is cut off.
    let caps1 = [1, 1, 1, 1];
    assert_eq!(max_flow_reachable(4, &edges, &caps1, 0, 3, 5), Some(vec![true, false, false, false]));
    assert_eq!(max_flow_reachable(4, &edges, &caps1, 0, 3, 2), None);
}

#[test]
fn dimacs_reading() {
    let text = b"c a small graph\np edge 4 3\ne 1 2\nc between edges\ne 2 3\r\ne 4 3\n";
    let g = graph_from_dimacs(text).unwrap();
    assert_eq!(g.n(), 4);
    assert_eq!(g.m(), 3);
    assert!(g.has_edge(0, 1));
    assert!(g.has_edge(1, 2));
    assert!(g.has_edge(2, 3));
    assert!(!g.has_edge(0, 3));
    let g = graph_from_dimacs(b"p  edge\t5 0").unwrap();
    assert_eq!(g.n(), 5);
    assert_eq!(g.m(), 0);
    let g = graph_from_dimacs(b"p edge 3 2\ne 1 +3\ne 3 1\n").unwrap();
    assert_eq!(g.m(), 1);
}

#[test]
fn dimacs_errors() {
    assert_eq!(graph_from_dimacs(b"").err(), Some(DimacsError::NoProblemLine));
    assert_eq!(graph_from_dimacs(b"c only a comment\n").err(), Some(DimacsError::NoProblemLine));
    assert_eq!(graph_from_dimacs(b"e 1 2\np edge 2 1\n").err(), Some(DimacsError::EdgeBeforeProblem));
    assert_eq!(graph_from_dimacs(b"\np edge 2 1\n").err(), Some(DimacsError::MissingProblem));
    assert_eq!(graph_from_dimacs(b"p edge x 1\n").err(), Some(DimacsError::BadProblemLine));
    assert_eq!(graph_from_dimacs(b"p edge 99999999999 1\n").err(), Some(DimacsError::TooManyVertices));
    assert_eq!(graph_from_dimacs(b"p edge 2 1\ne 1 3\n").err(), Some(DimacsError::BadEdgeLine));
    assert_eq!(graph_from_dimacs(b"p edge 2 1\ne 0 1\n").err(), Some(DimacsError::BadEdgeLine));
    assert_eq!(graph_from_dimacs(b"p edge 2 1\ne 1\n").err(), Some(DimacsError::BadEdgeLine));
    assert_eq!(graph_from_dimacs(b"p edge 2 1\ne 2 2\n").err(), Some(DimacsError::LoopEdge));
    assert_eq!(graph_from_dimacs(b"p edge 2 1\ne 1 2\n\n").err(), Some(DimacsError::InvalidLine));
}

#[test]
fn g6_round_trip_with_long_size_field() {
    let g = adjlist::Graph::new_path(70);
    let text = g.to_g6();
    assert!(text.starts_with('~'));
    let back = adjlist::Graph::from_g6(&text).unwrap();
    assert_eq!(back.n(), 70);
    assert_eq!(back.m(), 69);
    assert!(back.has_edge(68, 69));
    assert!(back.has_edge(0, 1));
    assert!(!back.has_edge(0, 69));
    assert_eq!(back.to_g6(), text);
}

#[test]
fn g6_round_trip_of_grid() {
    let g = grid3();
    let back = adjlist::Graph::from_g6(&g.to_g6()).unwrap();
    assert_eq!(back.n(), 9);
    assert_eq!(back.m(), 12);
    for u in 0..9 {
        for v in 0..9 {
            assert_eq!(back.has_edge(u, v), g.has_edge(u, v));
        }
    }
}

#[test]
fn dynamic_prog_and_recursion_agree() {
    let graphs = vec![
        Graph::AdjList(adjlist::Graph::new_cycle(6)),
        Graph::AdjList(adjlist::Graph::new_complete(5)),
        Graph::AdjList(adjlist::Graph::new_path(7)),
        Graph::AdjList(grid3()),
        Graph::from_g6("FJ\\~w", true).unwrap(),
        Graph::BitSet(bitset::Graph::new(4)),
    ];
    for g in &graphs {
        let dp = dynamic_prog::treewidth(g);
        assert_eq!(rec::treewidth(g), dp);
        assert!(branch_bound::treewidth(g) >= dp);
        for alg in HEURISTICS {
            assert!(heuristic::run_heuristic(g, alg) >= dp);
        }
    }
}

#[test]
fn duration_reading() {
    let span = |secs: u64, nanos: u32| TimeSpan { secs, nanos };
    assert_eq!(parse_duration(b"30s"), Ok(span(30, 0)));
    assert_eq!(parse_duration(b" 5m \n"), Ok(span(300, 0)));
    assert_eq!(parse_duration(b"2hours"), Ok(span(7200, 0)));
    assert_eq!(parse_duration(b"250ms"), Ok(span(0, 250_000_000)));
    assert_eq!(parse_duration(b"1500us"), Ok(span(0, 1_500_000)));
    assert_eq!(parse_duration(b"2000000001ns"), Ok(span(2, 1)));
    assert_eq!(parse_duration(b"7"), Ok(span(7, 0)));
    assert_eq!(parse_duration(b"12seconds"), Ok(span(12, 0)));
    assert_eq!(parse_duration(b"3mins"), Ok(span(180, 0)));
}

#[test]
fn duration_errors() {
    assert_eq!(parse_duration(b""), Err(DurationError::Empty));
    assert_eq!(parse_duration(b" \t "), Err(DurationError::Empty));
    assert_eq!(parse_duration(b"x5"), Err(DurationError::InvalidNumber(0, 0)));
    assert_eq!(parse_duration(b" 5x"), Err(DurationError::InvalidUnit(2, 3)));
    assert_eq!(parse_duration(b"3 s"), Err(DurationError::InvalidUnit(1, 3)));
    assert_eq!(parse_duration(b"99999999999999999999s"), Err(DurationError::InvalidNumber(0, 20)));
    assert_eq!(parse_duration(b"18446744073709551615m"), Err(DurationError::TooLong));
    assert_eq!(parse_duration(b"18446744073709551615"), Ok(TimeSpan { secs: u64::MAX, nanos: 0 }));
}

#[test]
fn g6_large_graph_form_is_refused() {
    assert_eq!(get_size(b"~~??????"), Err(Error::UnsupportedLargeGraph));
    assert_eq!(get_size(b"~?@?"), Ok(64));
}

#[test]
fn sparsest_subgraph_orders_by_signed_difference() {
    let mut star = adjlist::Graph::new(4);
    star.add_edge(0, 1);
    star.add_edge(0, 2);
    star.add_edge(0, 3);
    assert_eq!(heuristic::min_sparsest_subgraph(&Graph::AdjList(star)), 2);
}

#[test]
fn duration_trims_unicode_white_space() {
    let span = parse_duration("\u{3000}5m\u{a0}".as_bytes()).unwrap();
    assert_eq!((span.secs, span.nanos), (300, 0));
    let span = parse_duration("\u{2003}\t12ms\u{85}\n".as_bytes()).unwrap();
    assert_eq!((span.secs, span.nanos), (0, 12_000_000));
    assert_eq!(parse_duration("\u{205f} \u{2029}".as_bytes()), Err(DurationError::Empty));
    // A character that is not white space is kept, and reported where it stands.
    assert_eq!(parse_duration("\u{200b}5s".as_bytes()), Err(DurationError::InvalidNumber(0, 0)));
}

#[test]
fn approximation_guarantee_check() {
    let alg = ApproxAlgorithm::FourApprox;
    assert_eq!(alg.check_guarantee(3, 2), GuaranteeCheck::BelowOptimal);
    assert_eq!(alg.check_guarantee(3, 3), GuaranteeCheck::Within);
    assert_eq!(alg.check_guarantee(3, 12), GuaranteeCheck::Within);
    assert_eq!(alg.check_guarantee(3, 13), GuaranteeCheck::AboveWorstCase);
    let half = ApproxAlgorithm::FourHalfApprox;
    assert_eq!(half.check_guarantee(3, 14), GuaranteeCheck::Within);
    assert_eq!(half.check_guarantee(3, 15), GuaranteeCheck::AboveWorstCase);
}

#[test]
fn both_readers_take_the_data_after_a_long_size_field() {
    let mut g = adjlist::Graph::new(63);
    g.add_edge(0, 62);
    g.add_edge(10, 20);
    let text = g.to_g6();
    let a = match Graph::from_g6(&text, false).unwrap() {
        Graph::AdjList(a) => a,
        Graph::BitSet(_) => panic!("expected adjacency lists"),
    };
    let b = match Graph::from_g6(&text, true).unwrap() {
        Graph::BitSet(b) => b,
        Graph::AdjList(_) => panic!("expected bitsets"),
    };
    let c = bitset::Graph::from_g6(&text).unwrap();
    for (i, j) in [(0, 62), (10, 20), (62, 0), (20, 10)] {
        assert!(a.has_edge(i, j));
        assert!(b.has_edge(i, j));
        assert!(c.has_edge(i, j));
    }
    assert!(!b.has_edge(0, 1));
    assert_eq!(b.m(), 2);
    assert_eq!(c.m(), 2);
}

#[test]
fn encoded_edges_read_back_in_order() {
    let edges = vec![(0, 1), (0, 2), (1, 2), (2, 4), (3, 4)];
    let mut buf = vec![b'X'];
    to_edges(&edges, 5, &mut buf);
    assert_eq!(buf[0], b'X');
    assert_eq!(buf.len() - 1, (5 * 4 / 2 + 5) / 6);
    assert!(buf[1..].iter().all(|&b| (63..=126).contains(&b)));
    assert_eq!(get_edges(&buf[1..], 5), Ok(edges));
}
