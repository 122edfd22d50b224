use tir::cover::{
    alternatives_compatible, build_cover_problem, child_requirement, cover_from_choices,
    materialization_edge_cost, parent_satisfies_internal_child, CaptureBindings, ChildRequirement,
    ClassGraph, CoverAlternative, CoverMatch, EdgeCost, FullMatchBindings, PatternNodeBinding,
    PatternShape,
};
use tir::isel::DefaultIselCostModel;

fn binding(pattern_node: usize, class: u32, is_boundary: bool) -> PatternNodeBinding {
    PatternNodeBinding { pattern_node, class, is_boundary }
}

fn a_match(pattern_index: usize, root: u32, pattern_root: usize, nodes: Vec<PatternNodeBinding>, cost: u64) -> CoverMatch {
    CoverMatch {
        pattern_index,
        rule_index: pattern_index,
        root,
        pattern_root,
        bindings: FullMatchBindings { captures: CaptureBindings::new(), pattern_nodes: nodes },
        cost,
    }
}

/// Class 0 computes from class 1, which computes from the leaf class 2.
/// Pattern 0 covers 0 and 1 together; pattern 1 covers 1 alone and reads
/// 2 through a boundary.
fn setup() -> (ClassGraph, Vec<PatternShape>, Vec<CoverMatch>) {
    let graph = ClassGraph { classes: vec![0, 1, 2], find: vec![0, 1, 2], terminal: vec![false, false, true] };
    let patterns = vec![
        PatternShape { children: vec![vec![1], vec![]] },
        PatternShape { children: vec![vec![1], vec![]] },
    ];
    let matches = vec![
        a_match(0, 0, 0, vec![binding(0, 0, false), binding(1, 1, false)], 5),
        a_match(1, 1, 0, vec![binding(0, 1, false), binding(1, 2, true)], 2),
    ];
    (graph, patterns, matches)
}

#[test]
fn capture_bindings_agree_or_refuse() {
    let mut captures = CaptureBindings::new();
    assert!(captures.bind(3, 10));
    assert!(captures.bind(3, 10));
    assert!(!captures.bind(3, 11));
    assert!(captures.bind(4, 11));
    assert_eq!(captures.entries, vec![(3, 10), (4, 11)]);
}

#[test]
fn class_for_pattern_takes_the_first_binding() {
    let bindings = FullMatchBindings {
        captures: CaptureBindings::new(),
        pattern_nodes: vec![binding(1, 7, false), binding(1, 8, true), binding(2, 9, false)],
    };
    assert_eq!(bindings.class_for_pattern(1), Some(7));
    assert_eq!(bindings.class_for_pattern(2), Some(9));
    assert_eq!(bindings.class_for_pattern(0), None);
}

#[test]
fn child_requirements_follow_the_pattern() {
    let (_, patterns, matches) = setup();
    let root0 = CoverAlternative::Root { match_id: 0 };
    let root1 = CoverAlternative::Root { match_id: 1 };
    assert_eq!(
        child_requirement(&patterns, 1, &root0, &matches),
        Some(ChildRequirement::SameMatch { match_id: 0, pattern_node: 1 })
    );
    assert_eq!(child_requirement(&patterns, 2, &root1, &matches), Some(ChildRequirement::Materialized));
    assert_eq!(child_requirement(&patterns, 2, &root0, &matches), None);
    assert_eq!(child_requirement(&patterns, 1, &CoverAlternative::External, &matches), None);
}

#[test]
fn interior_children_need_their_parent() {
    let (_, patterns, matches) = setup();
    let root0 = CoverAlternative::Root { match_id: 0 };
    let root1 = CoverAlternative::Root { match_id: 1 };
    let interior = CoverAlternative::Internal { match_id: 0, pattern_node: 1 };
    assert!(parent_satisfies_internal_child(&patterns, 0, 1, &root0, 0, 1, &matches));
    assert!(!parent_satisfies_internal_child(&patterns, 0, 1, &root1, 0, 1, &matches));
    assert!(!parent_satisfies_internal_child(&patterns, 0, 1, &CoverAlternative::External, 0, 1, &matches));

    assert!(alternatives_compatible(&patterns, 0, 1, &root0, &interior, &matches));
    assert!(!alternatives_compatible(&patterns, 0, 1, &root0, &root1, &matches));
    assert!(alternatives_compatible(&patterns, 1, 2, &root1, &CoverAlternative::External, &matches));
    assert!(!alternatives_compatible(&patterns, 1, 2, &root1, &interior, &matches));
    // An external parent asks nothing, but an interior child still needs it.
    assert!(!alternatives_compatible(&patterns, 0, 1, &CoverAlternative::External, &interior, &matches));
    assert!(alternatives_compatible(&patterns, 0, 1, &CoverAlternative::External, &root1, &matches));
}

#[test]
fn only_materialized_edges_are_priced() {
    let (_, patterns, matches) = setup();
    let root1 = CoverAlternative::Root { match_id: 1 };
    let root0 = CoverAlternative::Root { match_id: 0 };
    assert_eq!(materialization_edge_cost(&patterns, 2, &root1, &matches, &DefaultIselCostModel), 0);
    assert_eq!(materialization_edge_cost(&patterns, 1, &root0, &matches, &DefaultIselCostModel), 0);
}

#[test]
fn cover_problem_lists_alternatives_costs_sets_and_edges() {
    let (graph, patterns, matches) = setup();
    let problem = build_cover_problem(&graph, &vec![0, 1], &patterns, &matches, |_p: u32, _c: u32, _a: &CoverAlternative| 7).unwrap();
    assert_eq!(
        problem.alternatives,
        vec![
            vec![CoverAlternative::Root { match_id: 0 }],
            vec![CoverAlternative::Internal { match_id: 0, pattern_node: 1 }, CoverAlternative::Root { match_id: 1 }],
            vec![CoverAlternative::External],
        ]
    );
    assert_eq!(problem.costs, vec![vec![5], vec![0, 2], vec![0]]);
    // Both matches bind two pattern nodes, so each gets a set.
    assert_eq!(problem.coherence, vec![vec![(0, 0), (1, 0)], vec![(1, 1)]]);
    assert_eq!(problem.edges.len(), 2);
    assert_eq!((problem.edges[0].parent, problem.edges[0].child), (0, 1));
    assert_eq!(problem.edges[0].matrix, vec![vec![EdgeCost::Finite(7), EdgeCost::Infinite]]);
    assert_eq!((problem.edges[1].parent, problem.edges[1].child), (1, 2));
    assert_eq!(problem.edges[1].matrix, vec![vec![EdgeCost::Finite(7)], vec![EdgeCost::Finite(7)]]);

    let cover = cover_from_choices(&graph, &problem, &vec![0, 0, 0]);
    assert_eq!(
        cover.choices,
        vec![
            CoverAlternative::Root { match_id: 0 },
            CoverAlternative::Internal { match_id: 0, pattern_node: 1 },
            CoverAlternative::External,
        ]
    );
    assert_eq!(cover.classes, vec![0, 1, 2]);
}

#[test]
fn a_class_rooting_an_operation_without_matches_is_infeasible() {
    let graph = ClassGraph { classes: vec![0, 1], find: vec![0, 1], terminal: vec![false, false] };
    let patterns = vec![PatternShape { children: vec![vec![]] }];
    let matches = vec![a_match(0, 0, 0, vec![binding(0, 0, false)], 1)];
    // Class 1 roots an operation but nothing covers it.
    assert!(build_cover_problem(&graph, &vec![1], &patterns, &matches, |_p: u32, _c: u32, _a: &CoverAlternative| 0).is_none());
    // If it roots no operation, it may be materialized from outside.
    let problem = build_cover_problem(&graph, &vec![0], &patterns, &matches, |_p: u32, _c: u32, _a: &CoverAlternative| 0).unwrap();
    assert_eq!(problem.alternatives[1], vec![CoverAlternative::External]);
    assert!(problem.coherence.is_empty());
    assert!(problem.edges.is_empty());
}

#[test]
fn classes_are_found_through_their_canonical_class() {
    // Raw class 3 was merged into class 1.
    let graph = ClassGraph { classes: vec![0, 1], find: vec![0, 1, 2, 1], terminal: vec![false, true] };
    let patterns = vec![PatternShape { children: vec![vec![1], vec![]] }];
    let matches = vec![a_match(0, 0, 0, vec![binding(0, 0, false), binding(1, 3, true)], 4)];
    let problem = build_cover_problem(&graph, &vec![0], &patterns, &matches, |_p: u32, c: u32, _a: &CoverAlternative| c as u64).unwrap();
    assert_eq!(problem.alternatives[1], vec![CoverAlternative::External]);
    assert_eq!((problem.edges[0].parent, problem.edges[0].child), (0, 1));
    // The binding names raw class 3, not the canonical class 1, so nothing
    // is asked of class 1 and the edge is priced with the child's class.
    assert_eq!(problem.edges[0].matrix, vec![vec![EdgeCost::Finite(1)]]);
}
