use jiff::diff::align::{align, align_weights, pair_weight, AlignmentMatrix, Point};

#[test]
fn identical_lines_are_paired() {
    let before = vec!["a", "b"];
    let after = vec!["a", "b"];
    assert_eq!(
        align(&before, &after),
        vec![(Some("a"), Some("a")), (Some("b"), Some("b"))]
    );
}

#[test]
fn identical_lines_are_paired_with_stub_costs() {
    let unalign_b: Vec<i128> = vec![1, 1];
    let unalign_a: Vec<i128> = vec![1, 1];
    let paired: Vec<Vec<i128>> = vec![vec![0, 7], vec![7, 0]];
    assert_eq!(
        align_weights(&unalign_b, &unalign_a, &paired),
        vec![(Some(0), Some(0)), (Some(1), Some(1))]
    );
}

#[test]
fn empty_before_gives_pure_insertions() {
    let before: Vec<&str> = vec![];
    let after = vec!["x", "y"];
    assert_eq!(align(&before, &after), vec![(None, Some("x")), (None, Some("y"))]);
}

#[test]
fn empty_after_gives_pure_deletions() {
    let before = vec!["x", "y"];
    let after: Vec<&str> = vec![];
    assert_eq!(align(&before, &after), vec![(Some("x"), None), (Some("y"), None)]);
}

#[test]
fn empty_blocks_give_no_entry() {
    let before: Vec<&str> = vec![];
    let after: Vec<&str> = vec![];
    assert_eq!(align(&before, &after), vec![]);
}

#[test]
fn single_line_replace_is_paired() {
    let before = vec!["foo"];
    let after = vec!["foobar"];
    assert_eq!(align(&before, &after), vec![(Some("foo"), Some("foobar"))]);
}

#[test]
fn single_line_replace_is_paired_with_stub_costs() {
    // Leaving both alone costs 3 + 6; the pair costs 3 * 2.
    let unalign_b: Vec<i128> = vec![3];
    let unalign_a: Vec<i128> = vec![6];
    let paired: Vec<Vec<i128>> = vec![vec![pair_weight(3, 2)]];
    assert_eq!(
        align_weights(&unalign_b, &unalign_a, &paired),
        vec![(Some(0), Some(0))]
    );
}

#[test]
fn pair_weight_is_distance_times_half_of_operations_plus_one_rounded_up() {
    assert_eq!(pair_weight(0, 1), 0);
    assert_eq!(pair_weight(3, 0), 3);
    assert_eq!(pair_weight(3, 1), 3);
    assert_eq!(pair_weight(3, 2), 6);
    assert_eq!(pair_weight(3, 3), 6);
    assert_eq!(pair_weight(8, 12), 56);
    assert_eq!(pair_weight(-2, 4), -6);
    assert_eq!(
        pair_weight(i32::MIN, usize::MAX),
        (i32::MIN as i128) * ((usize::MAX / 2) as i128 + 1)
    );
}

#[test]
fn grid_weights_follow_parity() {
    let before = vec!["foo", "quux!"];
    let after = vec!["foobar"];
    let m = AlignmentMatrix::new(&before, &after);
    assert_eq!(m.width(), 5);
    assert_eq!(m.height(), 3);
    // shaping nodes
    assert_eq!(m.node(0, 0).weight, -1);
    assert_eq!(m.node(2, 2).weight, -1);
    assert_eq!(m.node(4, 0).weight, -1);
    // lines left alone cost their length
    assert_eq!(m.node(1, 0).weight, 3);
    assert_eq!(m.node(1, 2).weight, 3);
    assert_eq!(m.node(3, 0).weight, 5);
    assert_eq!(m.node(0, 1).weight, 6);
    assert_eq!(m.node(4, 1).weight, 6);
    // "foo" -> "foobar": distance 3, two operations
    assert_eq!(m.node(1, 1).weight, 6);
    assert_eq!(m.node(1, 1).id, Point { x: 1, y: 1 });
    assert_eq!(m.node(1, 1).relax_weight, i128::MAX);
    assert_eq!(m.node(1, 1).relax_parent, Point { x: 0, y: 0 });
}

#[test]
fn line_cost_is_length_in_bytes() {
    let before = vec!["h\u{e9}"];
    let after: Vec<&str> = vec![];
    let m = AlignmentMatrix::new(&before, &after);
    assert_eq!(m.node(1, 0).weight, 3);
}

#[test]
fn relaxation_finds_least_distances() {
    let unalign_b: Vec<i128> = vec![1, 1];
    let unalign_a: Vec<i128> = vec![1, 1];
    let paired: Vec<Vec<i128>> = vec![vec![0, 4], vec![4, 0]];
    let mut m = AlignmentMatrix::from_weights(&unalign_b, &unalign_a, &paired);
    m.shortest_path();
    assert_eq!(m.node(0, 1).relax_weight, 0);
    assert_eq!(m.node(1, 0).relax_weight, 0);
    assert_eq!(m.node(1, 1).relax_weight, 0);
    assert_eq!(m.node(1, 2).relax_weight, 1);
    assert_eq!(m.node(1, 2).relax_parent, Point { x: 0, y: 1 });
    assert_eq!(m.node(1, 3).relax_weight, 4);
    assert_eq!(m.node(0, 3).relax_weight, 1);
    assert_eq!(m.node(1, 4).relax_weight, 2);
    assert_eq!(m.node(2, 3).relax_weight, 1);
    assert_eq!(m.node(2, 3).relax_parent, Point { x: 1, y: 1 });
    assert_eq!(m.node(3, 3).relax_weight, 0);
    assert_eq!(m.node(3, 3).relax_parent, Point { x: 1, y: 1 });
    assert_eq!(m.node(3, 4).relax_weight, 2);
    assert_eq!(m.node(4, 3).relax_weight, 2);
    // shaping nodes are never reached
    assert_eq!(m.node(2, 2).relax_weight, i128::MAX);
    assert_eq!(m.exit(), Some(Point { x: 3, y: 3 }));
    // relaxing again changes nothing
    m.shortest_path();
    assert_eq!(m.node(3, 4).relax_weight, 2);
    assert_eq!(m.node(3, 3).relax_parent, Point { x: 1, y: 1 });
    assert_eq!(m.exit(), Some(Point { x: 3, y: 3 }));
}

#[test]
fn adjacency_advances_one_line() {
    let unalign_b: Vec<i128> = vec![1, 1];
    let unalign_a: Vec<i128> = vec![1];
    let paired: Vec<Vec<i128>> = vec![vec![0], vec![0]];
    let m = AlignmentMatrix::from_weights(&unalign_b, &unalign_a, &paired);
    assert_eq!(
        m.root_adjacency(),
        vec![Point { x: 0, y: 1 }, Point { x: 1, y: 0 }, Point { x: 1, y: 1 }]
    );
    assert_eq!(
        m.adjacency(m.node(1, 0)),
        vec![Point { x: 3, y: 0 }, Point { x: 2, y: 1 }, Point { x: 3, y: 1 }]
    );
    assert_eq!(m.adjacency(m.node(1, 1)), vec![Point { x: 3, y: 2 }]);
    assert_eq!(m.adjacency(m.node(3, 0)), vec![Point { x: 4, y: 1 }]);
    assert_eq!(m.adjacency(m.node(3, 1)), vec![]);
    assert_eq!(m.adjacency(m.node(4, 1)), vec![]);
}

#[test]
fn roots_of_a_grid_without_before_lines() {
    let unalign_b: Vec<i128> = vec![];
    let unalign_a: Vec<i128> = vec![2];
    let paired: Vec<Vec<i128>> = vec![];
    let m = AlignmentMatrix::from_weights(&unalign_b, &unalign_a, &paired);
    assert_eq!(m.root_adjacency(), vec![Point { x: 0, y: 1 }]);
}

#[test]
fn walk_path_goes_back_from_the_exit() {
    let unalign_b: Vec<i128> = vec![1, 1];
    let unalign_a: Vec<i128> = vec![1, 1];
    let paired: Vec<Vec<i128>> = vec![vec![0, 4], vec![4, 0]];
    let mut m = AlignmentMatrix::from_weights(&unalign_b, &unalign_a, &paired);
    m.shortest_path();
    let path: Vec<Point> = m.walk_path(m.node(3, 4)).iter().map(|n| n.id).collect();
    assert_eq!(
        path,
        vec![Point { x: 3, y: 4 }, Point { x: 2, y: 3 }, Point { x: 1, y: 1 }]
    );
    let none: Vec<Point> = m.walk_path(m.node(0, 0)).iter().map(|n| n.id).collect();
    assert_eq!(none, vec![]);
}

#[test]
fn exit_ties_favour_the_pair_then_the_after_line() {
    // all three exits cost 5
    let paired: Vec<Vec<i128>> = vec![vec![9, 9], vec![9, 5]];
    let mut m = AlignmentMatrix::from_weights(&vec![5, 5], &vec![5, 5], &paired);
    m.shortest_path();
    assert_eq!(m.node(3, 3).relax_weight, 5);
    assert_eq!(m.node(3, 4).relax_weight, 10);
    // the two one-sided exits tie below the pair: the after-line wins
    let paired: Vec<Vec<i128>> = vec![vec![0, 0], vec![0, 9]];
    let mut m = AlignmentMatrix::from_weights(&vec![1, 1], &vec![1, 1], &paired);
    m.shortest_path();
    assert_eq!(m.node(3, 3).relax_weight, 9);
    assert_eq!(m.node(3, 4).relax_weight, 1);
    assert_eq!(m.node(4, 3).relax_weight, 1);
    assert_eq!(m.exit(), Some(Point { x: 4, y: 3 }));
    assert_eq!(
        m.alignment(),
        vec![(Some(0), None), (Some(1), Some(0)), (None, Some(1))]
    );
}

#[test]
fn before_only_exit_wins_when_strictly_cheapest() {
    let paired: Vec<Vec<i128>> = vec![vec![0], vec![9]];
    let mut m = AlignmentMatrix::from_weights(&vec![1, 1], &vec![7], &paired);
    m.shortest_path();
    assert_eq!(m.exit(), Some(Point { x: 3, y: 2 }));
    assert_eq!(m.alignment(), vec![(Some(0), Some(0)), (Some(1), None)]);
}

#[test]
fn parent_ties_favour_the_pair_then_the_before_line() {
    // (2, 3) is reached from (1, 1), (1, 2) and (2, 1), all at distance 0
    let paired: Vec<Vec<i128>> = vec![vec![0, 0], vec![0, 0]];
    let mut m = AlignmentMatrix::from_weights(&vec![0, 0], &vec![0, 0], &paired);
    m.shortest_path();
    assert_eq!(m.node(2, 3).relax_parent, Point { x: 1, y: 1 });
    // (3, 2): from (1, 1), (1, 2), (2, 1) again
    assert_eq!(m.node(3, 2).relax_parent, Point { x: 1, y: 1 });
    // the pair is dearer, the other two tie: the before-line wins
    let paired: Vec<Vec<i128>> = vec![vec![0, 0], vec![0, 0]];
    let mut m = AlignmentMatrix::from_weights(&vec![-3, 0], &vec![-3, 0], &paired);
    m.shortest_path();
    assert_eq!(m.node(1, 2).relax_weight, -3);
    assert_eq!(m.node(2, 1).relax_weight, -3);
    assert_eq!(m.node(3, 3).relax_parent, Point { x: 1, y: 2 });
}

#[test]
fn reconstruction_and_completeness_on_a_mixed_block() {
    let before = vec!["let x = 1;", "let y = 2;", "return x + y;"];
    let after = vec!["let x = 10;", "// sum", "return x + y + z;", "}"];
    let alignment = align(&before, &after);
    let b: Vec<&str> = alignment.iter().filter_map(|e| e.0).collect();
    let a: Vec<&str> = alignment.iter().filter_map(|e| e.1).collect();
    assert_eq!(b, before);
    assert_eq!(a, after);
    assert_eq!(alignment.iter().filter(|e| e.0.is_some()).count(), 3);
    assert_eq!(alignment.iter().filter(|e| e.1.is_some()).count(), 4);
    assert!(alignment.iter().all(|e| e.0.is_some() || e.1.is_some()));
}

#[test]
fn alignment_costs_no_more_than_leaving_every_line_alone() {
    let unalign_b: Vec<i128> = vec![4, 2, 9];
    let unalign_a: Vec<i128> = vec![3, 8];
    let paired: Vec<Vec<i128>> = vec![vec![50, 1], vec![2, 60], vec![70, 3]];
    let entries = align_weights(&unalign_b, &unalign_a, &paired);
    let mut cost: i128 = 0;
    for e in entries.iter().skip(1) {
        cost += match *e {
            (Some(i), Some(j)) => paired[i][j],
            (Some(i), None) => unalign_b[i],
            (None, Some(j)) => unalign_a[j],
            (None, None) => panic!("an entry without a line"),
        };
    }
    assert_eq!(
        entries,
        vec![(Some(0), None), (Some(1), Some(0)), (Some(2), Some(1))]
    );
    assert_eq!(cost, 5);
    assert!(cost <= 4 + 2 + 9 + 3 + 8);
}

#[test]
fn first_step_is_free() {
    // The pair is dearer than both lines alone, yet the source reaches it
    // for free and it is an exit.
    let entries = align_weights(&vec![1], &vec![1], &vec![vec![100]]);
    assert_eq!(entries, vec![(Some(0), Some(0))]);
}

#[test]
fn equal_blocks_pair_line_by_line() {
    let lines = vec!["a", "a", "b", "", "a"];
    assert_eq!(
        align(&lines, &lines),
        vec![
            (Some("a"), Some("a")),
            (Some("a"), Some("a")),
            (Some("b"), Some("b")),
            (Some(""), Some("")),
            (Some("a"), Some("a")),
        ]
    );
    let unalign: Vec<i128> = vec![0, 5, 0];
    let paired: Vec<Vec<i128>> = vec![vec![0, 0, 0], vec![0, 0, 0], vec![0, 0, 0]];
    assert_eq!(
        align_weights(&unalign, &unalign, &paired),
        vec![(Some(0), Some(0)), (Some(1), Some(1)), (Some(2), Some(2))]
    );
}

#[test]
fn aligned_lines_cost_no_more_than_their_lengths() {
    let before = vec!["fn main() {", "    let x = 1;", "}"];
    let after = vec!["fn main() {", "    let x = 2;", "    let y = 3;", "}"];
    let alignment = align(&before, &after);
    assert_eq!(
        alignment,
        vec![
            (Some("fn main() {"), Some("fn main() {")),
            (Some("    let x = 1;"), Some("    let x = 2;")),
            (None, Some("    let y = 3;")),
            (Some("}"), Some("}")),
        ]
    );
    let mut cost: i128 = 0;
    for e in alignment.iter().skip(1) {
        cost += match *e {
            (Some(b), Some(a)) => {
                let script = difference::Changeset::new(b, a, "");
                pair_weight(script.distance, script.diffs.len())
            }
            (Some(b), None) => b.len() as i128,
            (None, Some(a)) => a.len() as i128,
            (None, None) => panic!("an entry without a line"),
        };
    }
    let lengths: usize = before.iter().chain(after.iter()).map(|l| l.len()).sum();
    assert_eq!(cost, 6 + 14);
    assert!(cost <= lengths as i128);
}
